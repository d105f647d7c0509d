//! Properties of the disassembler, stated and proved against the spec
//! functions of `disasm`: the encode/decode round trip, the guarantee that
//! every jump target at an instruction boundary gets exactly one label, and
//! the first-encounter ordering of generated label names.

use vstd::prelude::*;

use crate::disasm::first_index;
use crate::disasm::instr_op;
use crate::disasm::spec_decode_from;
use crate::disasm::spec_disassemble;
use crate::disasm::spec_insert_all;
use crate::disasm::SpecError;
use crate::instr::SpecInstruction;
use crate::labels::label_name;
use crate::opcode::jump_opcode;
use crate::opcode::opcode_valid;
use crate::opcode::spec_size;

verus! {

/// The bytes that encode a whole record sequence: the concatenation of each
/// record's encoding (labels contribute nothing).
pub open spec fn enc_all(s: Seq<SpecInstruction>) -> Seq<u8>
    decreases s.len(),
{
    if s.len() == 0 {
        Seq::empty()
    } else {
        s[0].enc_bytes() + enc_all(s.drop_first())
    }
}

/// A record the decoder could have produced: a jump record carries a
/// jump-class opcode, and a plain record carries a valid non-jump opcode
/// with exactly the operand bytes that opcode requires.
pub open spec fn wf_instruction(v: SpecInstruction) -> bool {
    match v {
        SpecInstruction::Label { .. } => true,
        SpecInstruction::Jump { op, .. } => jump_opcode(op),
        SpecInstruction::Instr { op, operands, .. } => opcode_valid(op) && !jump_opcode(op)
            && operands.len() + 1 == spec_size(op),
    }
}

/// The jump records of `s`, in order.
pub open spec fn jumps_of(s: Seq<SpecInstruction>) -> Seq<SpecInstruction>
    decreases s.len(),
{
    if s.len() == 0 {
        Seq::empty()
    } else if s[0].is_jump() {
        seq![s[0]] + jumps_of(s.drop_first())
    } else {
        jumps_of(s.drop_first())
    }
}

/// How many jump records of `s` lie strictly before position `j`. A jump at
/// position `j` appears in `jumps_of(s)` at this rank.
pub open spec fn jump_rank(s: Seq<SpecInstruction>, j: int) -> int {
    jumps_of(s.take(j)).len() as int
}

/// `jumps_of` distributes over concatenation.
proof fn lemma_jumps_of_add(a: Seq<SpecInstruction>, b: Seq<SpecInstruction>)
    ensures
        jumps_of(a + b) == jumps_of(a) + jumps_of(b),
    decreases a.len(),
{
    if a.len() == 0 {
        assert(a + b =~= b);
        assert(jumps_of(a) + jumps_of(b) =~= jumps_of(b));
    } else {
        assert((a + b).len() != 0);
        assert((a + b)[0] == a[0]);
        assert((a + b).drop_first() =~= a.drop_first() + b);
        lemma_jumps_of_add(a.drop_first(), b);
        if a[0].is_jump() {
            assert(jumps_of(a + b) =~= (seq![a[0]] + jumps_of(a.drop_first())) + jumps_of(b));
        }
        assert(jumps_of(a + b) =~= jumps_of(a) + jumps_of(b));
    }
}

/// Every entry of `jumps_of(s)` is a jump record of `s`.
proof fn lemma_jumps_of_member(s: Seq<SpecInstruction>, n: int)
    requires
        0 <= n < jumps_of(s).len(),
    ensures
        exists|p: int| 0 <= p < s.len() && s[p] == jumps_of(s)[n] && s[p].is_jump(),
    decreases s.len(),
{
    if s[0].is_jump() {
        if n == 0 {
            assert(s[0] == jumps_of(s)[0] && s[0].is_jump());
        } else {
            lemma_jumps_of_member(s.drop_first(), n - 1);
            let p0 = choose|p: int|
                0 <= p < s.drop_first().len() && s.drop_first()[p] == jumps_of(s.drop_first())[n
                    - 1] && s.drop_first()[p].is_jump();
            assert(s[p0 + 1] == jumps_of(s)[n] && s[p0 + 1].is_jump());
        }
    } else {
        lemma_jumps_of_member(s.drop_first(), n);
        let p0 = choose|p: int|
            0 <= p < s.drop_first().len() && s.drop_first()[p] == jumps_of(s.drop_first())[n]
                && s.drop_first()[p].is_jump();
        assert(s[p0 + 1] == jumps_of(s)[n] && s[p0 + 1].is_jump());
    }
}

/// A jump at position `j` of `s` stands in `jumps_of(s)` at its rank.
proof fn lemma_jump_rank_props(s: Seq<SpecInstruction>, j: int)
    requires
        0 <= j < s.len(),
        s[j].is_jump(),
    ensures
        0 <= jump_rank(s, j) < jumps_of(s).len(),
        jumps_of(s)[jump_rank(s, j)] == s[j],
{
    assert(s =~= s.take(j) + s.skip(j));
    lemma_jumps_of_add(s.take(j), s.skip(j));
    assert(s.skip(j)[0] == s[j]);
    assert(jumps_of(s.skip(j))[0] == s[j]);
    assert(jumps_of(s)[jump_rank(s, j)] == jumps_of(s.skip(j))[0]);
}

/// Ranks respect positions: an earlier jump has a smaller rank.
proof fn lemma_jump_rank_mono(s: Seq<SpecInstruction>, j1: int, j2: int)
    requires
        0 <= j1 < j2 <= s.len(),
        s[j1].is_jump(),
    ensures
        jump_rank(s, j1) < jump_rank(s, j2),
{
    assert(s.take(j2) =~= s.take(j1) + s.subrange(j1, j2));
    lemma_jumps_of_add(s.take(j1), s.subrange(j1, j2));
    assert(s.subrange(j1, j2)[0] == s[j1]);
    assert(jumps_of(s.subrange(j1, j2))[0] == s[j1]);
}

/// An entry below the rank of position `j` is a jump of `s` that stands
/// before `j`.
proof fn lemma_jump_rank_earlier(s: Seq<SpecInstruction>, j: int, m: int)
    requires
        0 <= j < s.len(),
        0 <= m < jump_rank(s, j),
    ensures
        exists|p: int| 0 <= p < j && s[p] == jumps_of(s)[m] && s[p].is_jump(),
{
    assert(s =~= s.take(j) + s.skip(j));
    lemma_jumps_of_add(s.take(j), s.skip(j));
    lemma_jumps_of_member(s.take(j), m);
    let p = choose|p: int|
        0 <= p < s.take(j).len() && s.take(j)[p] == jumps_of(s.take(j))[m]
            && s.take(j)[p].is_jump();
    assert(jumps_of(s)[m] == jumps_of(s.take(j))[m]);
    assert(0 <= p < j && s[p] == jumps_of(s)[m] && s[p].is_jump());
}

/// An element stays contained when more elements follow.
proof fn lemma_contains_add(ts: Seq<u8>, ext: Seq<u8>, t: u8)
    requires
        ts.contains(t),
    ensures
        (ts + ext).contains(t),
{
    let w = choose|w: int| 0 <= w < ts.len() && ts[w] == t;
    assert((ts + ext)[w] == t);
}

/// The first occurrence of a contained element is unchanged by whatever
/// follows.
proof fn lemma_first_index_prefix(ts: Seq<u8>, ext: Seq<u8>, t: u8)
    requires
        ts.contains(t),
    ensures
        first_index(ts + ext, t) == first_index(ts, t),
    decreases ext.len(),
{
    if ext.len() == 0 {
        assert(ts + ext =~= ts);
    } else {
        assert(ts + ext =~= (ts + ext.drop_last()).push(ext.last()));
        lemma_first_index_prefix(ts, ext.drop_last(), t);
        lemma_contains_add(ts, ext.drop_last(), t);
        crate::disasm::lemma_first_index_push_old(ts + ext.drop_last(), ext.last(), t);
    }
}

/// What one decode step emits and how it extends the seen targets,
/// mirroring one unfolding of `spec_decode_from`.
spec fn decode_step(bytes: Seq<u8>, i: nat, ts: Seq<u8>) -> (SpecInstruction, Seq<u8>) {
    let b = bytes[i as int];
    let sz = spec_size(b);
    if jump_opcode(b) {
        let t = bytes[(i + 1) as int];
        if ts.contains(t) {
            (
                SpecInstruction::Jump {
                    addr: i,
                    op: b,
                    target: t,
                    name: label_name(first_index(ts, t)),
                },
                ts,
            )
        } else {
            (
                SpecInstruction::Jump { addr: i, op: b, target: t, name: label_name(ts.len()) },
                ts.push(t),
            )
        }
    } else {
        (
            SpecInstruction::Instr {
                addr: i,
                op: b,
                operands: bytes.subrange((i + 1) as int, (i + sz) as int),
            },
            ts,
        )
    }
}

/// What the decode pass guarantees about jump records and targets: the
/// targets already seen stay a prefix of the final target sequence, every
/// jump record carries the label of its target's first-encounter position,
/// and a target not yet seen gets a position no earlier than the targets
/// already seen.
proof fn lemma_decode_jump_facts(
    bytes: Seq<u8>,
    i: nat,
    ts: Seq<u8>,
    out: Seq<SpecInstruction>,
    tg: Seq<u8>,
)
    requires
        spec_decode_from(bytes, i, ts) == Ok::<(Seq<SpecInstruction>, Seq<u8>), SpecError>(
            (out, tg),
        ),
    ensures
        ts.len() <= tg.len(),
        tg.take(ts.len() as int) == ts,
        forall|n: int|
            0 <= n < jumps_of(out).len() ==> tg.contains(
                (#[trigger] jumps_of(out)[n]).jump_target(),
            ),
        forall|n: int|
            0 <= n < jumps_of(out).len() ==> (#[trigger] jumps_of(out)[n]).name() == label_name(
                first_index(tg, jumps_of(out)[n].jump_target()),
            ),
        forall|n: int|
            0 <= n < jumps_of(out).len() && !ts.contains(
                (#[trigger] jumps_of(out)[n]).jump_target(),
            ) ==> first_index(tg, jumps_of(out)[n].jump_target()) >= ts.len(),
    decreases bytes.len() - i,
{
    if i >= bytes.len() {
        assert(out =~= Seq::<SpecInstruction>::empty());
        assert(tg.take(ts.len() as int) =~= ts);
    } else {
        let b = bytes[i as int];
        let sz = spec_size(b);
        let step = decode_step(bytes, i, ts);
        let ins = step.0;
        let ts2 = step.1;
        match spec_decode_from(bytes, i + sz, ts2) {
            Ok(rest) => {
                lemma_decode_jump_facts(bytes, i + sz, ts2, rest.0, rest.1);
                assert(out == seq![ins] + rest.0);
                assert(out[0] == ins);
                assert(out.drop_first() =~= rest.0);
                assert(tg.take(ts2.len() as int) == ts2);
                if ts2 != ts {
                    assert(ts2 == ts.push(bytes[(i + 1) as int]));
                    assert(tg.take(ts.len() as int) =~= ts) by {
                        assert forall|w: int| 0 <= w < ts.len() implies tg.take(
                            ts.len() as int,
                        )[w] == ts[w] by {
                            assert(tg.take(ts2.len() as int)[w] == ts2[w]);
                        }
                    }
                }
                let ext = tg.skip(ts.len() as int);
                assert(ts + ext =~= tg) by {
                    assert forall|w: int| 0 <= w < ts.len() implies tg[w] == ts[w] by {
                        assert(tg.take(ts.len() as int)[w] == ts[w]);
                    }
                }
                if jump_opcode(b) {
                    let t = bytes[(i + 1) as int];
                    assert(jumps_of(out) =~= seq![ins] + jumps_of(rest.0));
                    if !ts.contains(t) {
                        let ext2 = tg.skip(ts2.len() as int);
                        assert(ts2 + ext2 =~= tg) by {
                            assert forall|w: int| 0 <= w < ts2.len() implies tg[w] == ts2[w] by {
                                assert(tg.take(ts2.len() as int)[w] == ts2[w]);
                            }
                        }
                        crate::disasm::lemma_first_index_push_new(ts, t);
                        assert(ts2[ts.len() as int] == t);
                        lemma_first_index_prefix(ts2, ext2, t);
                        assert(first_index(tg, t) == ts.len());
                        assert(tg.contains(t)) by {
                            lemma_contains_add(ts2, ext2, t);
                        }
                    } else {
                        lemma_first_index_prefix(ts, ext, t);
                        assert(first_index(tg, t) == first_index(ts, t));
                        lemma_contains_add(ts, ext, t);
                    }
                    assert forall|n: int| 0 <= n < jumps_of(out).len() implies tg.contains(
                        (#[trigger] jumps_of(out)[n]).jump_target(),
                    ) && jumps_of(out)[n].name() == label_name(
                        first_index(tg, jumps_of(out)[n].jump_target()),
                    ) by {
                        if n == 0 {
                            assert(jumps_of(out)[0] == ins);
                        } else {
                            assert(jumps_of(out)[n] == jumps_of(rest.0)[n - 1]);
                        }
                    }
                    assert forall|n: int|
                        0 <= n < jumps_of(out).len() && !ts.contains(
                            (#[trigger] jumps_of(out)[n]).jump_target(),
                        ) implies first_index(tg, jumps_of(out)[n].jump_target()) >= ts.len() by {
                        if n == 0 {
                            assert(jumps_of(out)[0] == ins);
                        } else {
                            assert(jumps_of(out)[n] == jumps_of(rest.0)[n - 1]);
                            let tn = jumps_of(rest.0)[n - 1].jump_target();
                            if ts2.contains(tn) {
                                crate::disasm::lemma_push_contains(ts, t, tn);
                                assert(tn == t);
                            }
                        }
                    }
                } else {
                    assert(jumps_of(out) =~= jumps_of(rest.0));
                    assert forall|n: int|
                        0 <= n < jumps_of(out).len() && !ts.contains(
                            (#[trigger] jumps_of(out)[n]).jump_target(),
                        ) implies first_index(tg, jumps_of(out)[n].jump_target()) >= ts.len() by {
                        assert(jumps_of(out)[n] == jumps_of(rest.0)[n]);
                    }
                }
            },
            Err(_) => {
                assert(false);
            },
        }
    }
}

/// First-encounter ordering inside the decode pass: of two jumps that are
/// each the first with their target, the earlier one's target stands earlier
/// in the final target sequence.
proof fn lemma_decode_first_encounter(
    bytes: Seq<u8>,
    i: nat,
    ts: Seq<u8>,
    out: Seq<SpecInstruction>,
    tg: Seq<u8>,
    n1: int,
    n2: int,
)
    requires
        spec_decode_from(bytes, i, ts) == Ok::<(Seq<SpecInstruction>, Seq<u8>), SpecError>(
            (out, tg),
        ),
        0 <= n1 < n2 < jumps_of(out).len(),
        jumps_of(out)[n1].jump_target() != jumps_of(out)[n2].jump_target(),
        !ts.contains(jumps_of(out)[n1].jump_target()),
        !ts.contains(jumps_of(out)[n2].jump_target()),
        forall|m: int|
            0 <= m < n2 ==> (#[trigger] jumps_of(out)[m]).jump_target() != jumps_of(
                out,
            )[n2].jump_target(),
    ensures
        first_index(tg, jumps_of(out)[n1].jump_target()) < first_index(
            tg,
            jumps_of(out)[n2].jump_target(),
        ),
    decreases bytes.len() - i,
{
    let t1 = jumps_of(out)[n1].jump_target();
    let t2 = jumps_of(out)[n2].jump_target();
    if i >= bytes.len() {
        assert(out =~= Seq::<SpecInstruction>::empty());
    } else {
        let b = bytes[i as int];
        let sz = spec_size(b);
        let step = decode_step(bytes, i, ts);
        let ins = step.0;
        let ts2 = step.1;
        match spec_decode_from(bytes, i + sz, ts2) {
            Ok(rest) => {
                assert(out == seq![ins] + rest.0);
                assert(out[0] == ins);
                assert(out.drop_first() =~= rest.0);
                lemma_decode_jump_facts(bytes, i + sz, ts2, rest.0, rest.1);
                if jump_opcode(b) {
                    let t = bytes[(i + 1) as int];
                    assert(jumps_of(out) =~= seq![ins] + jumps_of(rest.0));
                    if n1 == 0 {
                        assert(ins.jump_target() == t && t == t1);
                        assert(ts2 == ts.push(t1));
                        let ext2 = tg.skip(ts2.len() as int);
                        assert(ts2 + ext2 =~= tg) by {
                            assert forall|w: int| 0 <= w < ts2.len() implies tg[w] == ts2[w] by {
                                assert(tg.take(ts2.len() as int)[w] == ts2[w]);
                            }
                        }
                        crate::disasm::lemma_first_index_push_new(ts, t1);
                        assert(ts2[ts.len() as int] == t1);
                        lemma_first_index_prefix(ts2, ext2, t1);
                        assert(first_index(tg, t1) == ts.len());
                        assert(jumps_of(out)[n2] == jumps_of(rest.0)[n2 - 1]);
                        crate::disasm::lemma_push_contains(ts, t1, t2);
                        assert(!ts2.contains(t2));
                        assert(first_index(tg, t2) >= ts2.len());
                    } else {
                        assert(jumps_of(out)[0] == ins);
                        assert(ins.jump_target() == t);
                        assert(t != t2);
                        assert(jumps_of(out)[n1] == jumps_of(rest.0)[n1 - 1]);
                        assert(jumps_of(out)[n2] == jumps_of(rest.0)[n2 - 1]);
                        crate::disasm::lemma_push_contains(ts, t, t1);
                        crate::disasm::lemma_push_contains(ts, t, t2);
                        assert(!ts2.contains(t2));
                        if ts2.contains(t1) {
                            assert(!ts.contains(t) && t == t1 && ts2 == ts.push(t1));
                            let ext2 = tg.skip(ts2.len() as int);
                            assert(ts2 + ext2 =~= tg) by {
                                assert forall|w: int| 0 <= w < ts2.len() implies tg[w]
                                    == ts2[w] by {
                                    assert(tg.take(ts2.len() as int)[w] == ts2[w]);
                                }
                            }
                            crate::disasm::lemma_first_index_push_new(ts, t1);
                            assert(ts2[ts.len() as int] == t1);
                            lemma_first_index_prefix(ts2, ext2, t1);
                            assert(first_index(tg, t1) == ts.len());
                            assert(first_index(tg, t2) >= ts2.len());
                        } else {
                            assert forall|m: int|
                                0 <= m < n2 - 1 implies (#[trigger] jumps_of(
                                rest.0,
                            )[m]).jump_target() != jumps_of(rest.0)[n2 - 1].jump_target() by {
                                assert(jumps_of(rest.0)[m] == jumps_of(out)[m + 1]);
                            }
                            lemma_decode_first_encounter(
                                bytes,
                                i + sz,
                                ts2,
                                rest.0,
                                rest.1,
                                n1 - 1,
                                n2 - 1,
                            );
                        }
                    }
                } else {
                    assert(jumps_of(out) =~= jumps_of(rest.0));
                    assert(ts2 == ts);
                    assert forall|m: int|
                        0 <= m < n2 implies (#[trigger] jumps_of(rest.0)[m]).jump_target()
                        != jumps_of(rest.0)[n2].jump_target() by {
                        assert(jumps_of(rest.0)[m] == jumps_of(out)[m]);
                    }
                    lemma_decode_first_encounter(bytes, i + sz, ts2, rest.0, rest.1, n1, n2);
                }
            },
            Err(_) => {
                assert(false);
            },
        }
    }
}

/// The label-insertion pass neither adds, drops nor reorders jump records.
proof fn lemma_insert_jumps(instrs: Seq<SpecInstruction>, ts: Seq<u8>, addr: nat)
    ensures
        jumps_of(spec_insert_all(instrs, ts, addr)) == jumps_of(instrs),
    decreases instrs.len(),
{
    let s = spec_insert_all(instrs, ts, addr);
    if instrs.len() == 0 {
        assert(jumps_of(s) =~= jumps_of(instrs));
    } else {
        let ins = instrs[0];
        let sz = spec_size(instr_op(ins));
        let rest = spec_insert_all(instrs.drop_first(), ts, addr + sz);
        let mid = seq![ins] + rest;
        lemma_insert_jumps(instrs.drop_first(), ts, addr + sz);
        assert(mid[0] == ins);
        assert(mid.drop_first() =~= rest);
        if addr < 256 && ts.contains(addr as u8) {
            let lbl = SpecInstruction::Label {
                addr,
                name: label_name(first_index(ts, addr as u8)),
            };
            assert(s == seq![lbl] + seq![ins] + rest);
            assert(s[0] == lbl);
            assert(!lbl.is_jump());
            assert(s.drop_first() =~= mid);
            assert(jumps_of(s) == jumps_of(mid));
        } else {
            assert(s == mid);
        }
        if ins.is_jump() {
            assert(jumps_of(mid) == seq![ins] + jumps_of(rest));
            assert(jumps_of(instrs) == seq![ins] + jumps_of(instrs.drop_first()));
        } else {
            assert(jumps_of(mid) == jumps_of(rest));
            assert(jumps_of(instrs) == jumps_of(instrs.drop_first()));
        }
    }
}

/// Every non-label record the insertion pass emits is a record of its
/// input.
proof fn lemma_insert_nonlabel_member(instrs: Seq<SpecInstruction>, ts: Seq<u8>, addr: nat, m: int)
    requires
        0 <= m < spec_insert_all(instrs, ts, addr).len(),
        !spec_insert_all(instrs, ts, addr)[m].is_label(),
    ensures
        exists|p: int|
            0 <= p < instrs.len() && instrs[p] == spec_insert_all(instrs, ts, addr)[m],
    decreases instrs.len(),
{
    let s = spec_insert_all(instrs, ts, addr);
    if instrs.len() == 0 {
        assert(s =~= Seq::<SpecInstruction>::empty());
    } else {
        let ins = instrs[0];
        let sz = spec_size(instr_op(ins));
        let rest = spec_insert_all(instrs.drop_first(), ts, addr + sz);
        let plen: int = if addr < 256 && ts.contains(addr as u8) {
            2
        } else {
            1
        };
        assert(s[plen - 1] == ins);
        if m < plen {
            assert(instrs[0] == s[m]);
        } else {
            assert(s[m] == rest[m - plen]);
            lemma_insert_nonlabel_member(instrs.drop_first(), ts, addr + sz, m - plen);
            let p0 = choose|p: int|
                0 <= p < instrs.drop_first().len() && instrs.drop_first()[p] == rest[m - plen];
            assert(instrs[p0 + 1] == s[m]);
        }
    }
}

/// If some input record sits at a target's address, the insertion pass
/// emits a label with that address.
proof fn lemma_insert_label_exists(
    instrs: Seq<SpecInstruction>,
    ts: Seq<u8>,
    addr: nat,
    end: nat,
    p: int,
)
    requires
        crate::disasm::addrs_ok(instrs, addr, end),
        0 <= p < instrs.len(),
        instrs[p].addr() < 256,
        ts.contains(instrs[p].addr() as u8),
    ensures
        exists|m: int|
            0 <= m < spec_insert_all(instrs, ts, addr).len() && (#[trigger] spec_insert_all(
                instrs,
                ts,
                addr,
            )[m]).is_label() && spec_insert_all(instrs, ts, addr)[m].addr() == instrs[p].addr(),
    decreases instrs.len(),
{
    let s = spec_insert_all(instrs, ts, addr);
    let ins = instrs[0];
    let sz = spec_size(instr_op(ins));
    let rest = spec_insert_all(instrs.drop_first(), ts, addr + sz);
    if p == 0 {
        assert(instrs[0].addr() == addr);
        let lbl = SpecInstruction::Label { addr, name: label_name(first_index(ts, addr as u8)) };
        assert(s == seq![lbl] + seq![ins] + rest);
        assert(s[0] == lbl);
        assert(s[0].is_label() && s[0].addr() == instrs[p].addr());
    } else {
        let plen: int = if addr < 256 && ts.contains(addr as u8) {
            2
        } else {
            1
        };
        assert(instrs.drop_first()[p - 1] == instrs[p]);
        lemma_insert_label_exists(instrs.drop_first(), ts, addr + sz, end, p - 1);
        let m0 = choose|m: int|
            0 <= m < rest.len() && (#[trigger] rest[m]).is_label() && rest[m].addr()
                == instrs.drop_first()[p - 1].addr();
        assert(s[m0 + plen] == rest[m0]);
        assert(s[m0 + plen].is_label() && s[m0 + plen].addr() == instrs[p].addr());
    }
}

/// Every label the insertion pass emits sits at or after the running
/// address of its input.
proof fn lemma_insert_label_lower(
    instrs: Seq<SpecInstruction>,
    ts: Seq<u8>,
    addr: nat,
    end: nat,
    m: int,
)
    requires
        crate::disasm::addrs_ok(instrs, addr, end),
        0 <= m < spec_insert_all(instrs, ts, addr).len(),
        spec_insert_all(instrs, ts, addr)[m].is_label(),
    ensures
        spec_insert_all(instrs, ts, addr)[m].addr() >= addr,
    decreases instrs.len(),
{
    let s = spec_insert_all(instrs, ts, addr);
    if instrs.len() == 0 {
        assert(s =~= Seq::<SpecInstruction>::empty());
    } else {
        let ins = instrs[0];
        let sz = spec_size(instr_op(ins));
        let rest = spec_insert_all(instrs.drop_first(), ts, addr + sz);
        let plen: int = if addr < 256 && ts.contains(addr as u8) {
            2
        } else {
            1
        };
        assert(s[plen - 1] == ins);
        if m >= plen {
            assert(s[m] == rest[m - plen]);
            lemma_insert_label_lower(instrs.drop_first(), ts, addr + sz, end, m - plen);
        }
    }
}

/// The insertion pass emits at most one label per address.
proof fn lemma_insert_label_unique(
    instrs: Seq<SpecInstruction>,
    ts: Seq<u8>,
    addr: nat,
    end: nat,
    m1: int,
    m2: int,
)
    requires
        crate::disasm::addrs_ok(instrs, addr, end),
        0 <= m1 <= m2 < spec_insert_all(instrs, ts, addr).len(),
        spec_insert_all(instrs, ts, addr)[m1].is_label(),
        spec_insert_all(instrs, ts, addr)[m2].is_label(),
        spec_insert_all(instrs, ts, addr)[m1].addr() == spec_insert_all(instrs, ts, addr)[m2].addr(),
    ensures
        m1 == m2,
    decreases instrs.len(),
{
    let s = spec_insert_all(instrs, ts, addr);
    if instrs.len() == 0 {
        assert(s =~= Seq::<SpecInstruction>::empty());
    } else {
        let ins = instrs[0];
        let sz = spec_size(instr_op(ins));
        let rest = spec_insert_all(instrs.drop_first(), ts, addr + sz);
        let plen: int = if addr < 256 && ts.contains(addr as u8) {
            2
        } else {
            1
        };
        assert(s[plen - 1] == ins);
        if m1 >= plen {
            assert(s[m1] == rest[m1 - plen]);
            assert(s[m2] == rest[m2 - plen]);
            lemma_insert_label_unique(instrs.drop_first(), ts, addr + sz, end, m1 - plen, m2 - plen);
        } else if m2 >= plen {
            assert(m1 == 0 && plen == 2);
            assert(s[m1].addr() == addr);
            assert(s[m2] == rest[m2 - plen]);
            lemma_insert_label_lower(instrs.drop_first(), ts, addr + sz, end, m2 - plen);
            assert(spec_size(instr_op(ins)) >= 1);
        }
    }
}

/// Every decoded jump whose target address is the address of some real
/// instruction of the final sequence has exactly one label at that address
/// in that sequence.
pub proof fn lemma_jump_target_labeled(bytes: Seq<u8>, out: Seq<SpecInstruction>, j: int, k: int)
    requires
        spec_disassemble(bytes) == Ok::<Seq<SpecInstruction>, SpecError>(out),
        0 <= j < out.len(),
        out[j].is_jump(),
        0 <= k < out.len(),
        !out[k].is_label(),
        out[k].addr() == out[j].jump_target() as nat,
    ensures
        exists|m: int|
            0 <= m < out.len() && (#[trigger] out[m]).is_label() && out[m].addr() == out[j].jump_target() as nat,
        forall|m1: int, m2: int|
            (0 <= m1 < out.len() && (#[trigger] out[m1]).is_label() && out[m1].addr() == out[j].jump_target() as nat && 0 <= m2 < out.len() && (#[trigger] out[m2]).is_label()
                && out[m2].addr() == out[j].jump_target() as nat) ==> m1 == m2,
{
    let t = out[j].jump_target();
    let none: Seq<u8> = Seq::empty();
    match spec_decode_from(bytes, 0, none) {
        Ok(dec) => {
            let out1 = dec.0;
            let tg = dec.1;
            assert(out == spec_insert_all(out1, tg, 0));
            crate::disasm::lemma_decode_addrs(bytes, 0, none, out1, tg);
            lemma_decode_jump_facts(bytes, 0, none, out1, tg);
            lemma_insert_jumps(out1, tg, 0);
            lemma_jump_rank_props(out, j);
            let r = jump_rank(out, j);
            assert(jumps_of(out1)[r] == out[j]);
            assert(tg.contains(t));
            lemma_insert_nonlabel_member(out1, tg, 0, k);
            let p = choose|p: int| 0 <= p < out1.len() && out1[p] == out[k];
            assert(out1[p].addr() == t as nat);
            assert((t as nat) < 256);
            assert((out1[p].addr()) as u8 == t);
            lemma_insert_label_exists(out1, tg, 0, bytes.len(), p);
            assert forall|m1: int, m2: int|
                (0 <= m1 < out.len() && (#[trigger] out[m1]).is_label() && out[m1].addr()
                    == t as nat && 0 <= m2 < out.len() && (#[trigger] out[m2]).is_label() && out[m2].addr() == t as nat) implies m1 == m2 by {
                if m1 <= m2 {
                    lemma_insert_label_unique(out1, tg, 0, bytes.len(), m1, m2);
                } else {
                    lemma_insert_label_unique(out1, tg, 0, bytes.len(), m2, m1);
                }
            }
        },
        Err(_) => {
            assert(false);
        },
    }
}

/// Label names are handed out in strictly increasing order of first
/// encounter during the decode pass: of two jumps that are each the first
/// with their own target, the earlier one carries the lower-numbered name,
/// whatever the order of the target addresses.
pub proof fn lemma_label_names_first_encounter(
    bytes: Seq<u8>,
    out: Seq<SpecInstruction>,
    j1: int,
    j2: int,
)
    requires
        spec_disassemble(bytes) == Ok::<Seq<SpecInstruction>, SpecError>(out),
        0 <= j1 < j2 < out.len(),
        out[j1].is_jump(),
        out[j2].is_jump(),
        out[j1].jump_target() != out[j2].jump_target(),
        forall|m: int|
            0 <= m < j1 && (#[trigger] out[m]).is_jump() ==> out[m].jump_target() != out[j1].jump_target(),
        forall|m: int|
            0 <= m < j2 && (#[trigger] out[m]).is_jump() ==> out[m].jump_target() != out[j2].jump_target(),
    ensures
        exists|a: nat, b: nat|
            #![trigger label_name(a), label_name(b)]
            a < b && out[j1].name() == label_name(a) && out[j2].name() == label_name(b),
{
    let t1 = out[j1].jump_target();
    let t2 = out[j2].jump_target();
    let none: Seq<u8> = Seq::empty();
    match spec_decode_from(bytes, 0, none) {
        Ok(dec) => {
            let out1 = dec.0;
            let tg = dec.1;
            assert(out == spec_insert_all(out1, tg, 0));
            lemma_decode_jump_facts(bytes, 0, none, out1, tg);
            lemma_insert_jumps(out1, tg, 0);
            lemma_jump_rank_props(out, j1);
            lemma_jump_rank_props(out, j2);
            lemma_jump_rank_mono(out, j1, j2);
            let n1 = jump_rank(out, j1);
            let n2 = jump_rank(out, j2);
            assert forall|m: int| 0 <= m < n2 implies (#[trigger] jumps_of(out1)[m]).jump_target()
                != t2 by {
                lemma_jump_rank_earlier(out, j2, m);
                let p = choose|p: int| 0 <= p < j2 && out[p] == jumps_of(out)[m] && out[p].is_jump();
                assert(out[p].jump_target() != t2);
            }
            assert(!none.contains(t1));
            assert(!none.contains(t2));
            lemma_decode_first_encounter(bytes, 0, none, out1, tg, n1, n2);
            assert(jumps_of(out1)[n1] == out[j1]);
            assert(jumps_of(out1)[n2] == out[j2]);
            let a = first_index(tg, t1);
            let b = first_index(tg, t2);
            assert(out[j1].name() == label_name(a));
            assert(out[j2].name() == label_name(b));
            assert(a < b);
        },
        Err(_) => {
            assert(false);
        },
    }
}

/// Decoding an empty buffer yields an empty sequence and no error.
pub proof fn lemma_empty_input()
    ensures
        spec_disassemble(Seq::<u8>::empty()) == Ok::<Seq<SpecInstruction>, SpecError>(
            Seq::<SpecInstruction>::empty(),
        ),
{
    assert(spec_decode_from(Seq::<u8>::empty(), 0, Seq::<u8>::empty()) == Ok::<
        (Seq<SpecInstruction>, Seq<u8>),
        SpecError,
    >((Seq::empty(), Seq::empty())));
}

/// Round trip: decoding the encoded bytes of any well-formed non-label
/// record succeeds, and re-encoding everything decoded (labels, which have
/// zero-length encodings, included) reproduces those bytes exactly.
pub proof fn lemma_round_trip(v: SpecInstruction)
    requires
        wf_instruction(v),
        !v.is_label(),
    ensures
        (match spec_disassemble(v.enc_bytes()) {
            Ok(out) => enc_all(out) == v.enc_bytes(),
            Err(_) => false,
        }),
{
    let bytes = v.enc_bytes();
    let none: Seq<u8> = Seq::empty();
    match v {
        SpecInstruction::Label { .. } => {},
        SpecInstruction::Jump { addr, op, target, name } => {
            assert(bytes == seq![op, target]);
            assert(bytes.len() == 2);
            assert(bytes[0] == op && bytes[1] == target);
            assert(spec_size(op) == 2);
            let ins0 = SpecInstruction::Jump {
                addr: 0,
                op,
                target,
                name: label_name(0),
            };
            let ts1 = none.push(target);
            assert(spec_decode_from(bytes, 2, ts1) == Ok::<
                (Seq<SpecInstruction>, Seq<u8>),
                SpecError,
            >((Seq::empty(), ts1)));
            assert(!none.contains(target));
            assert(spec_decode_from(bytes, 0, none) == Ok::<
                (Seq<SpecInstruction>, Seq<u8>),
                SpecError,
            >((seq![ins0] + Seq::empty(), ts1)));
            let out1 = seq![ins0] + Seq::<SpecInstruction>::empty();
            assert(out1 =~= seq![ins0]);
            let out = spec_insert_all(out1, ts1, 0);
            assert(out1.drop_first() =~= Seq::<SpecInstruction>::empty());
            assert(spec_insert_all(out1.drop_first(), ts1, 0 + spec_size(instr_op(ins0)))
                =~= Seq::<SpecInstruction>::empty());
            assert(enc_all(Seq::<SpecInstruction>::empty()) =~= Seq::<u8>::empty());
            assert(seq![ins0].drop_first() =~= Seq::<SpecInstruction>::empty());
            assert(enc_all(seq![ins0]) =~= ins0.enc_bytes());
            if ts1.contains(0u8) {
                let lbl = SpecInstruction::Label { addr: 0, name: label_name(first_index(ts1, 0)) };
                assert(out =~= seq![lbl, ins0]);
                assert(seq![lbl, ins0].drop_first() =~= seq![ins0]);
                assert(enc_all(seq![lbl, ins0]) =~= lbl.enc_bytes() + enc_all(seq![ins0]));
                assert(enc_all(out) =~= bytes);
            } else {
                assert(out =~= seq![ins0]);
                assert(enc_all(out) =~= bytes);
            }
        },
        SpecInstruction::Instr { addr, op, operands } => {
            assert(bytes == seq![op] + operands);
            assert(bytes.len() == spec_size(op));
            assert(bytes[0] == op);
            let sz = spec_size(op);
            assert(bytes.subrange(1, sz as int) =~= operands);
            let ins0 = SpecInstruction::Instr { addr: 0, op, operands };
            assert(spec_decode_from(bytes, sz, none) == Ok::<
                (Seq<SpecInstruction>, Seq<u8>),
                SpecError,
            >((Seq::empty(), none)));
            assert(spec_decode_from(bytes, 0, none) == Ok::<
                (Seq<SpecInstruction>, Seq<u8>),
                SpecError,
            >((seq![ins0] + Seq::empty(), none)));
            let out1 = seq![ins0] + Seq::<SpecInstruction>::empty();
            assert(out1 =~= seq![ins0]);
            let out = spec_insert_all(out1, none, 0);
            assert(!none.contains(0u8));
            assert(out1.drop_first() =~= Seq::<SpecInstruction>::empty());
            assert(spec_insert_all(out1.drop_first(), none, 0 + spec_size(instr_op(ins0)))
                =~= Seq::<SpecInstruction>::empty());
            assert(out =~= seq![ins0]);
            assert(enc_all(Seq::<SpecInstruction>::empty()) =~= Seq::<u8>::empty());
            assert(seq![ins0].drop_first() =~= Seq::<SpecInstruction>::empty());
            assert(enc_all(seq![ins0]) =~= ins0.enc_bytes());
            assert(enc_all(out) =~= bytes);
        },
    }
}

} // verus!

