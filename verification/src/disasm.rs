//! The disassembler: a linear decode pass over the byte buffer followed by a
//! label-insertion pass. The meaning of both passes is fixed by the spec
//! functions `spec_decode_from`, `spec_insert_all` and `spec_disassemble`;
//! the executable `disassemble` is proved to return exactly that.

use vstd::prelude::*;

use crate::instr::views_of;
use crate::instr::Instruction;
use crate::instr::Operands;
use crate::instr::SpecInstruction;
use crate::labels::label_name;
use crate::labels::lemma_label_name_injective;
use crate::labels::make_label;
use crate::opcode::jump_opcode;
use crate::opcode::opcode_valid;
use crate::opcode::spec_size;
use crate::opcode::Opcode;
use crate::symtab::sym_get;
use crate::symtab::sym_insert;
use crate::symtab::sym_new;
use crate::symtab::sym_view;
use crate::symtab::SymTable;

verus! {

/// The mathematical model of a decode failure.
pub enum SpecError {
    /// The byte at the given buffer offset is outside the valid opcode range.
    InvalidOpcode(u8, nat),
    /// The buffer ended while operand bytes for the given opcode byte were
    /// still required.
    UnexpectedEndOfFile(u8),
}

/// Possible errors that can occur while disassembling. `InvalidOpcode`
/// indicates an opcode outside the valid range was encountered, and carries
/// the byte and its address. `UnexpectedEndOfFile` indicates the input ended
/// before all the operands of the named opcode were provided. Either error
/// aborts the whole decode: no partial result is returned.
#[derive(Debug, Clone, Copy, PartialEq, Eq, Structural)]
pub enum Error {
    InvalidOpcode(u8, usize),
    UnexpectedEndOfFile(Opcode),
}

impl View for Error {
    type V = SpecError;

    open spec fn view(&self) -> SpecError {
        match self {
            Error::InvalidOpcode(b, a) => SpecError::InvalidOpcode(*b, *a as nat),
            Error::UnexpectedEndOfFile(op) => SpecError::UnexpectedEndOfFile(op@),
        }
    }
}

/// The position of the first occurrence of `t` in `ts` (its length if `t`
/// does not occur). A jump target's label number is its position in the
/// sequence of targets ordered by first encounter.
pub open spec fn first_index(ts: Seq<u8>, t: u8) -> nat
    decreases ts.len(),
{
    if ts.len() == 0 {
        0
    } else if ts.drop_last().contains(t) {
        first_index(ts.drop_last(), t)
    } else {
        (ts.len() - 1) as nat
    }
}

/// The address-to-name map that pairs every target in `ts` with its
/// generated label name.
pub open spec fn targets_map(ts: Seq<u8>) -> Map<usize, Seq<char>> {
    Map::new(
        |k: usize| k < 256 && ts.contains(k as u8),
        |k: usize| label_name(first_index(ts, k as u8)),
    )
}

/// The first occurrence of a contained element lies before the end.
pub proof fn lemma_first_index_bound(ts: Seq<u8>, t: u8)
    requires
        ts.contains(t),
    ensures
        first_index(ts, t) < ts.len(),
        ts[first_index(ts, t) as int] == t,
    decreases ts.len(),
{
    if ts.drop_last().contains(t) {
        lemma_first_index_bound(ts.drop_last(), t);
    } else {
        assert(ts.last() == t) by {
            let w = choose|w: int| 0 <= w < ts.len() && ts[w] == t;
            if w < ts.len() - 1 {
                assert(ts.drop_last()[w] == t);
            }
        }
    }
}

/// Appending a fresh element puts its first occurrence at the old length.
pub proof fn lemma_first_index_push_new(ts: Seq<u8>, t: u8)
    requires
        !ts.contains(t),
    ensures
        first_index(ts.push(t), t) == ts.len(),
{
    assert(ts.push(t).drop_last() =~= ts);
}

/// Appending leaves the first occurrence of an already-contained element
/// unchanged.
pub proof fn lemma_first_index_push_old(ts: Seq<u8>, t: u8, x: u8)
    requires
        ts.contains(x),
    ensures
        first_index(ts.push(t), x) == first_index(ts, x),
{
    assert(ts.push(t).drop_last() =~= ts);
}

/// The decode pass from buffer offset `i` on, having already seen the jump
/// targets `ts` (in first-encounter order). Yields the decoded instructions
/// from that offset and the full target sequence, or the first error.
///
/// Each step reads the opcode byte at `i`, fails if it is invalid, fails if
/// fewer operand bytes remain than the opcode requires, and otherwise emits
/// one record whose address is `i`: a `Jump` carrying its target's label
/// name for a jump-class opcode, a plain `Instr` carrying the raw operand
/// bytes otherwise. Reaching the end of the buffer is success.
pub open spec fn spec_decode_from(bytes: Seq<u8>, i: nat, ts: Seq<u8>) -> Result<
    (Seq<SpecInstruction>, Seq<u8>),
    SpecError,
>
    decreases bytes.len() - i,
{
    if i >= bytes.len() {
        Ok((Seq::empty(), ts))
    } else {
        let b = bytes[i as int];
        if !opcode_valid(b) {
            Err(SpecError::InvalidOpcode(b, i))
        } else if i + spec_size(b) > bytes.len() {
            Err(SpecError::UnexpectedEndOfFile(b))
        } else {
            let sz = spec_size(b);
            let step = if jump_opcode(b) {
                let t = bytes[(i + 1) as int];
                if ts.contains(t) {
                    (
                        SpecInstruction::Jump {
                            addr: i,
                            op: b,
                            target: t,
                            name: label_name(first_index(ts, t)),
                        },
                        ts,
                    )
                } else {
                    (
                        SpecInstruction::Jump {
                            addr: i,
                            op: b,
                            target: t,
                            name: label_name(ts.len()),
                        },
                        ts.push(t),
                    )
                }
            } else {
                (
                    SpecInstruction::Instr {
                        addr: i,
                        op: b,
                        operands: bytes.subrange((i + 1) as int, (i + sz) as int),
                    },
                    ts,
                )
            };
            match spec_decode_from(bytes, i + sz, step.1) {
                Ok(rest) => Ok((seq![step.0] + rest.0, rest.1)),
                Err(e) => Err(e),
            }
        }
    }
}

/// The opcode byte of a decoded record (zero for a label, which carries
/// none).
pub open spec fn instr_op(ins: SpecInstruction) -> u8 {
    match ins {
        SpecInstruction::Label { .. } => 0,
        SpecInstruction::Jump { op, .. } => op,
        SpecInstruction::Instr { op, .. } => op,
    }
}

/// The label-insertion pass over the remaining decode output `instrs`, with
/// `addr` the byte offset of its first record. Re-walks the records
/// recomputing the running address from each opcode's encoding length; at
/// each record whose address some target in `ts` names, it emits the label
/// for that target immediately before the record. A target that equals no
/// record's address gets no label.
pub open spec fn spec_insert_all(instrs: Seq<SpecInstruction>, ts: Seq<u8>, addr: nat) -> Seq<
    SpecInstruction,
>
    decreases instrs.len(),
{
    if instrs.len() == 0 {
        Seq::empty()
    } else {
        let ins = instrs[0];
        let rest = spec_insert_all(instrs.drop_first(), ts, addr + spec_size(instr_op(ins)));
        if addr < 256 && ts.contains(addr as u8) {
            seq![
                SpecInstruction::Label { addr, name: label_name(first_index(ts, addr as u8)) },
            ] + seq![ins] + rest
        } else {
            seq![ins] + rest
        }
    }
}

/// The whole disassembly of a byte buffer: the decode pass from offset zero,
/// then the label-insertion pass over its output.
pub open spec fn spec_disassemble(bytes: Seq<u8>) -> Result<Seq<SpecInstruction>, SpecError> {
    match spec_decode_from(bytes, 0, Seq::empty()) {
        Ok(decoded) => Ok(spec_insert_all(decoded.0, decoded.1, 0)),
        Err(e) => Err(e),
    }
}

/// Structural facts about a stretch of decode output: no labels, valid
/// opcodes, and each record's address is the running byte offset, which
/// starts at `start` and reaches exactly `end`.
pub open spec fn addrs_ok(s: Seq<SpecInstruction>, start: nat, end: nat) -> bool
    decreases s.len(),
{
    if s.len() == 0 {
        start == end
    } else {
        &&& !s[0].is_label()
        &&& opcode_valid(instr_op(s[0]))
        &&& s[0].addr() == start
        &&& addrs_ok(s.drop_first(), start + spec_size(instr_op(s[0])), end)
    }
}

/// The running offset never runs backwards.
pub proof fn lemma_addrs_ok_le(s: Seq<SpecInstruction>, start: nat, end: nat)
    requires
        addrs_ok(s, start, end),
    ensures
        start <= end,
    decreases s.len(),
{
    if s.len() != 0 {
        lemma_addrs_ok_le(s.drop_first(), start + spec_size(instr_op(s[0])), end);
    }
}

/// The decode pass yields well-addressed output: label-free records whose
/// addresses are the running byte offsets from `i` up to the buffer's end.
pub proof fn lemma_decode_addrs(
    bytes: Seq<u8>,
    i: nat,
    ts: Seq<u8>,
    out: Seq<SpecInstruction>,
    tg: Seq<u8>,
)
    requires
        i <= bytes.len(),
        spec_decode_from(bytes, i, ts) == Ok::<(Seq<SpecInstruction>, Seq<u8>), SpecError>(
            (out, tg),
        ),
    ensures
        addrs_ok(out, i, bytes.len()),
    decreases bytes.len() - i,
{
    if i >= bytes.len() {
        assert(out =~= Seq::<SpecInstruction>::empty());
    } else {
        let b = bytes[i as int];
        let sz = spec_size(b);
        let step = if jump_opcode(b) {
            let t = bytes[(i + 1) as int];
            if ts.contains(t) {
                (
                    SpecInstruction::Jump {
                        addr: i,
                        op: b,
                        target: t,
                        name: label_name(first_index(ts, t)),
                    },
                    ts,
                )
            } else {
                (
                    SpecInstruction::Jump { addr: i, op: b, target: t, name: label_name(ts.len()) },
                    ts.push(t),
                )
            }
        } else {
            (SpecInstruction::Instr { addr: i, op: b, operands: bytes.subrange((i + 1) as int, (i + sz) as int) }, ts)
        };
        match spec_decode_from(bytes, i + sz, step.1) {
            Ok(rest) => {
                lemma_decode_addrs(bytes, i + sz, step.1, rest.0, rest.1);
                assert(out == seq![step.0] + rest.0);
                assert(out[0] == step.0);
                assert(out.drop_first() =~= rest.0);
            },
            Err(e) => {
                assert(false);
            },
        }
    }
}

/// An element is in a sequence with one more entry exactly when it is the
/// new entry or was there before.
pub proof fn lemma_push_contains(ts: Seq<u8>, t: u8, x: u8)
    ensures
        ts.push(t).contains(x) <==> (ts.contains(x) || x == t),
{
    if ts.contains(x) {
        let w = choose|w: int| 0 <= w < ts.len() && ts[w] == x;
        assert(ts.push(t)[w] == x);
    }
    if x == t {
        assert(ts.push(t)[ts.len() as int] == x);
    }
    if ts.push(t).contains(x) && x != t {
        let w = choose|w: int| 0 <= w < ts.push(t).len() && ts.push(t)[w] == x;
        assert(ts[w] == x);
    }
}

/// Recording a fresh target under the next label number extends the
/// address-to-name map exactly as a bimap insert of that pair does.
proof fn lemma_targets_map_push(ts: Seq<u8>, t: u8)
    requires
        !ts.contains(t),
    ensures
        targets_map(ts.push(t)) == crate::symtab::sym_inserted(
            targets_map(ts),
            t as usize,
            label_name(ts.len()),
        ),
{
    let a = targets_map(ts.push(t));
    let b = crate::symtab::sym_inserted(targets_map(ts), t as usize, label_name(ts.len()));
    let tu = t as usize;
    assert(tu as u8 == t);
    assert forall|k: usize|
        (#[trigger] a.dom().contains(k) <==> b.dom().contains(k)) && (a.dom().contains(k)
            ==> a[k] == b[k]) by {
        lemma_push_contains(ts, t, k as u8);
        if k < 256 {
            assert((k as u8) as usize == k);
            if k == tu {
                lemma_first_index_push_new(ts, t);
            } else if ts.contains(k as u8) {
                lemma_first_index_push_old(ts, t, k as u8);
                lemma_first_index_bound(ts, k as u8);
                if label_name(first_index(ts, k as u8)) == label_name(ts.len()) {
                    lemma_label_name_injective(first_index(ts, k as u8), ts.len());
                }
            }
        }
    }
    assert(a =~= b);
}

/// Ties a state of the decode loop to the whole decode pass: what the pass
/// yields on the full buffer is `done` followed by whatever decoding yields
/// from offset `i` with the targets seen so far, or that suffix's error.
spec fn decode_links(bytes: Seq<u8>, i: nat, done: Seq<SpecInstruction>, ts: Seq<u8>) -> bool {
    match spec_decode_from(bytes, i, ts) {
        Ok(rest) => spec_decode_from(bytes, 0, Seq::empty()) == Ok::<
            (Seq<SpecInstruction>, Seq<u8>),
            SpecError,
        >((done + rest.0, rest.1)),
        Err(e) => spec_decode_from(bytes, 0, Seq::empty()) == Err::<
            (Seq<SpecInstruction>, Seq<u8>),
            SpecError,
        >(e),
    }
}

/// Parses a slice of bytes into an assembly program: the list of decoded
/// instructions with a label inserted ahead of every jump or call target,
/// exactly as `spec_disassemble` states, or the first decode error.
pub fn disassemble(bytes: &[u8]) -> (r: Result<Vec<Instruction>, Error>)
    ensures
        (match r {
            Ok(instrs) => spec_disassemble(bytes@) == Ok::<Seq<SpecInstruction>, SpecError>(
                views_of(instrs@),
            ),
            Err(e) => spec_disassemble(bytes@) == Err::<Seq<SpecInstruction>, SpecError>(e@),
        }),
{
    let mut instrs: Vec<Instruction> = Vec::new();
    let mut map: SymTable = sym_new();
    let mut counter: usize = 0;
    let ghost mut targets: Seq<u8> = Seq::empty();
    let mut i: usize = 0;

    proof {
        assert(views_of(instrs@) =~= Seq::<SpecInstruction>::empty());
        assert(sym_view(map) =~= targets_map(targets));
    }

    while i < bytes.len()
        invariant
            i <= bytes@.len(),
            instrs@.len() <= i,
            targets.len() <= instrs@.len(),
            counter as nat == targets.len(),
            sym_view(map) == targets_map(targets),
            decode_links(bytes@, i as nat, views_of(instrs@), targets),
        decreases bytes@.len() - i,
    {
        let ghost prev_targets = targets;
        let ghost prev_done = views_of(instrs@);
        let b = bytes[i];
        let op = match Opcode::try_from(b) {
            Ok(op) => op,
            Err(_) => {
                return Err(Error::InvalidOpcode(b, i));
            },
        };
        let sz = op.instruction_size();
        if sz > bytes.len() - i {
            return Err(Error::UnexpectedEndOfFile(op));
        }
        let ins: Instruction;
        if op.is_jump() {
            let t = bytes[i + 1];
            let tu = t as usize;
            let name: String = match sym_get(&map, tu) {
                Some(s) => s.clone(),
                None => {
                    proof {
                        assert(tu as u8 == t);
                        assert(!prev_targets.contains(t));
                    }
                    let fresh = make_label(counter);
                    sym_insert(&mut map, tu, fresh.clone());
                    counter = counter + 1;
                    proof {
                        lemma_targets_map_push(prev_targets, t);
                        targets = targets.push(t);
                    }
                    fresh
                },
            };
            proof {
                assert(tu as u8 == t);
            }
            ins = Instruction::Jump(i, op, t, name);
        } else if sz == 1 {
            ins = Instruction::Instr(i, op, Operands::Zero);
        } else if sz == 2 {
            ins = Instruction::Instr(i, op, Operands::One(bytes[i + 1]));
        } else {
            ins = Instruction::Instr(i, op, Operands::Two(bytes[i + 1], bytes[i + 2]));
        }
        let ghost gins = ins@;
        instrs.push(ins);
        proof {
            if !jump_opcode(b) {
                assert(gins matches SpecInstruction::Instr { operands, .. } ==> operands
                    =~= bytes@.subrange(i + 1, i + sz as int));
            }
            assert(views_of(instrs@) =~= prev_done.push(gins));
            assert(views_of(instrs@) =~= prev_done + seq![gins]);
            match spec_decode_from(bytes@, (i + sz) as nat, targets) {
                Ok(rest) => {
                    assert(spec_decode_from(bytes@, i as nat, prev_targets) == Ok::<
                        (Seq<SpecInstruction>, Seq<u8>),
                        SpecError,
                    >((seq![gins] + rest.0, rest.1)));
                    assert(prev_done + (seq![gins] + rest.0) =~= views_of(instrs@) + rest.0);
                },
                Err(e) => {},
            }
        }
        i = i + sz;
    }

    let ghost decoded = views_of(instrs@);
    let ghost tsf = targets;
    proof {
        assert(spec_decode_from(bytes@, i as nat, tsf) == Ok::<
            (Seq<SpecInstruction>, Seq<u8>),
            SpecError,
        >((Seq::empty(), tsf)));
        assert(decoded + Seq::<SpecInstruction>::empty() =~= decoded);
        assert(spec_decode_from(bytes@, 0, Seq::empty()) == Ok::<
            (Seq<SpecInstruction>, Seq<u8>),
            SpecError,
        >((decoded, tsf)));
        lemma_decode_addrs(bytes@, 0, Seq::empty(), decoded, tsf);
    }

    let mut out: Vec<Instruction> = Vec::new();
    let mut addr: usize = 0;
    let mut j: usize = 0;
    proof {
        assert(decoded.skip(0) =~= decoded);
        assert(views_of(out@) =~= Seq::<SpecInstruction>::empty());
        assert(views_of(out@) + spec_insert_all(decoded.skip(0), tsf, 0) =~= spec_insert_all(
            decoded,
            tsf,
            0,
        ));
    }
    while j < instrs.len()
        invariant
            j <= instrs@.len(),
            bytes@.len() <= usize::MAX,
            decoded == views_of(instrs@),
            sym_view(map) == targets_map(tsf),
            addrs_ok(decoded.skip(j as int), addr as nat, bytes@.len()),
            views_of(out@) + spec_insert_all(decoded.skip(j as int), tsf, addr as nat)
                == spec_insert_all(decoded, tsf, 0),
        decreases instrs@.len() - j,
    {
        let ghost prev_out = views_of(out@);
        let ghost suffix = decoded.skip(j as int);
        proof {
            assert(suffix[0] == decoded[j as int]);
            assert(suffix.drop_first() =~= decoded.skip(j as int + 1));
        }
        if let Some(s) = sym_get(&map, addr) {
            out.push(Instruction::Label(addr, s.clone()));
            proof {
                assert((addr as u8) as usize == addr);
            }
        }
        let ins_ref = &instrs[j];
        let sz = match ins_ref {
            Instruction::Jump(_, op, _, _) => op.instruction_size(),
            Instruction::Instr(_, op, _) => op.instruction_size(),
            Instruction::Label(_, _) => {
                proof {
                    assert(instrs@[j as int]@ is Label);
                }
                vstd::pervasive::unreached()
            },
        };
        out.push(ins_ref.clone());
        proof {
            assert(instrs@[j as int]@ == suffix[0]);
            assert(sz == spec_size(instr_op(suffix[0])));
            lemma_addrs_ok_le(
                decoded.skip(j as int + 1),
                addr as nat + spec_size(instr_op(suffix[0])),
                bytes@.len(),
            );
            let stepped = spec_insert_all(
                decoded.skip(j as int + 1),
                tsf,
                addr as nat + spec_size(instr_op(suffix[0])),
            );
            if addr < 256 && tsf.contains(addr as u8) {
                assert(views_of(out@) =~= prev_out + seq![
                    SpecInstruction::Label {
                        addr: addr as nat,
                        name: label_name(first_index(tsf, addr as u8)),
                    },
                ] + seq![suffix[0]]);
                assert(views_of(out@) + stepped =~= prev_out + spec_insert_all(
                    suffix,
                    tsf,
                    addr as nat,
                ));
            } else {
                assert(views_of(out@) =~= prev_out + seq![suffix[0]]);
                assert(views_of(out@) + stepped =~= prev_out + spec_insert_all(
                    suffix,
                    tsf,
                    addr as nat,
                ));
            }
        }
        addr = addr + sz;
        j = j + 1;
    }
    proof {
        assert(decoded.skip(j as int) =~= Seq::<SpecInstruction>::empty());
        assert(views_of(out@) + spec_insert_all(decoded.skip(j as int), tsf, addr as nat)
            =~= views_of(out@));
    }
    Ok(out)
}

} // verus!
