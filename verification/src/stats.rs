//! Aggregate statistics over a decoded program: instruction and byte counts
//! and the breakdown between opcode and operand bytes and between one-, two-
//! and three-byte instructions.

use vstd::prelude::*;

use crate::instr::views_of;
use crate::instr::Instruction;
use crate::instr::SpecInstruction;

verus! {

/// How many records of `s` are real instructions (labels excluded).
pub open spec fn instr_count_of(s: Seq<SpecInstruction>) -> nat
    decreases s.len(),
{
    if s.len() == 0 {
        0
    } else {
        instr_count_of(s.drop_last()) + (if s.last().is_label() {
            0nat
        } else {
            1nat
        })
    }
}

/// How many bytes encode the records of `s` in total.
pub open spec fn byte_count_of(s: Seq<SpecInstruction>) -> nat
    decreases s.len(),
{
    if s.len() == 0 {
        0
    } else {
        byte_count_of(s.drop_last()) + s.last().enc_bytes().len()
    }
}

/// How many of those bytes are opcode bytes.
pub open spec fn opcode_byte_count_of(s: Seq<SpecInstruction>) -> nat
    decreases s.len(),
{
    if s.len() == 0 {
        0
    } else {
        opcode_byte_count_of(s.drop_last()) + s.last().opcode_count()
    }
}

/// How many of those bytes are operand bytes.
pub open spec fn operand_byte_count_of(s: Seq<SpecInstruction>) -> nat
    decreases s.len(),
{
    if s.len() == 0 {
        0
    } else {
        operand_byte_count_of(s.drop_last()) + s.last().operand_count()
    }
}

/// How many records of `s` have an encoding of exactly `k` bytes.
pub open spec fn sized_count_of(s: Seq<SpecInstruction>, k: nat) -> nat
    decreases s.len(),
{
    if s.len() == 0 {
        0
    } else {
        sized_count_of(s.drop_last(), k) + (if s.last().enc_bytes().len() == k {
            1nat
        } else {
            0nat
        })
    }
}

/// Statistics about a decoded binary:
///   - number of instructions (labels, which are not encoded, do not count),
///   - size of the program in bytes,
///   - breakdown of bytes between opcodes and operands,
///   - breakdown between one-, two- and three-byte instructions.
#[derive(Debug, Clone, Copy, PartialEq, Eq, Structural)]
pub struct BinaryStats {
    pub total_instrs: usize,
    pub total_bytes: usize,
    pub opcode_bytes: usize,
    pub operand_bytes: usize,
    pub single_byte_instrs: usize,
    pub two_byte_instrs: usize,
    pub three_byte_instrs: usize,
}

impl BinaryStats {
    /// Analyzes the given program to collect the statistics found in a
    /// `BinaryStats` struct.
    pub fn new(instrs: &[Instruction]) -> (s: BinaryStats)
        requires
            3 * instrs@.len() <= usize::MAX,
        ensures
            s.total_instrs == instr_count_of(views_of(instrs@)),
            s.total_bytes == byte_count_of(views_of(instrs@)),
            s.opcode_bytes == opcode_byte_count_of(views_of(instrs@)),
            s.operand_bytes == operand_byte_count_of(views_of(instrs@)),
            s.single_byte_instrs == sized_count_of(views_of(instrs@), 1),
            s.two_byte_instrs == sized_count_of(views_of(instrs@), 2),
            s.three_byte_instrs == sized_count_of(views_of(instrs@), 3),
    {
        let ghost all = views_of(instrs@);
        let mut total_instrs: usize = 0;
        let mut total_bytes: usize = 0;
        let mut opcode_bytes: usize = 0;
        let mut operand_bytes: usize = 0;
        let mut single_byte_instrs: usize = 0;
        let mut two_byte_instrs: usize = 0;
        let mut three_byte_instrs: usize = 0;
        let mut j: usize = 0;
        proof {
            assert(all.take(0) =~= Seq::<SpecInstruction>::empty());
        }
        while j < instrs.len()
            invariant
                j <= instrs@.len(),
                3 * instrs@.len() <= usize::MAX,
                all == views_of(instrs@),
                total_instrs as nat == instr_count_of(all.take(j as int)),
                total_bytes as nat == byte_count_of(all.take(j as int)),
                opcode_bytes as nat == opcode_byte_count_of(all.take(j as int)),
                operand_bytes as nat == operand_byte_count_of(all.take(j as int)),
                single_byte_instrs as nat == sized_count_of(all.take(j as int), 1),
                two_byte_instrs as nat == sized_count_of(all.take(j as int), 2),
                three_byte_instrs as nat == sized_count_of(all.take(j as int), 3),
                total_instrs <= j,
                total_bytes <= 3 * j,
                opcode_bytes <= j,
                operand_bytes <= 2 * j,
                single_byte_instrs <= j,
                two_byte_instrs <= j,
                three_byte_instrs <= j,
            decreases instrs@.len() - j,
        {
            proof {
                assert(all.take(j as int + 1).drop_last() =~= all.take(j as int));
                assert(all.take(j as int + 1).last() == instrs@[j as int]@);
            }
            let ins = &instrs[j];
            let sz = ins.size();
            proof {
                assert(ins@.enc_bytes().len() <= 3 && ins@.operand_count() <= 2);
            }
            let is_lbl = match ins {
                Instruction::Label(_, _) => true,
                _ => false,
            };
            if !is_lbl {
                total_instrs = total_instrs + 1;
            }
            total_bytes = total_bytes + sz;
            opcode_bytes = opcode_bytes + ins.num_opcodes();
            operand_bytes = operand_bytes + ins.num_operands();
            if sz == 1 {
                single_byte_instrs = single_byte_instrs + 1;
            } else if sz == 2 {
                two_byte_instrs = two_byte_instrs + 1;
            } else if sz == 3 {
                three_byte_instrs = three_byte_instrs + 1;
            }
            j = j + 1;
        }
        proof {
            assert(all.take(j as int) =~= all);
        }
        BinaryStats {
            total_instrs,
            total_bytes,
            opcode_bytes,
            operand_bytes,
            single_byte_instrs,
            two_byte_instrs,
            three_byte_instrs,
        }
    }
}

} // verus!
