//! Decoded instructions: the three record kinds the disassembler produces,
//! their mathematical model, and the encoding-related queries on them.

use vstd::prelude::*;

use crate::opcode::Opcode;

verus! {

/// The operands of an instruction: between zero and two raw bytes, the
/// arity fixed by the opcode.
#[derive(Debug, Clone, Copy, PartialEq, Eq, Structural)]
pub enum Operands {
    Zero,
    One(u8),
    Two(u8, u8),
}

/// An instruction reconstructed by disassembly.
///
/// - `Label` is a zero-length pseudo-instruction inserted by the
///   disassembler to mark a jump target: an address and a generated name.
/// - `Jump` is any jump-class instruction: an address, the opcode, the raw
///   target-address byte, and the resolved label name of that target.
/// - `Instr` is every other instruction: an address, the opcode, and its raw
///   operand bytes.
///
/// The address of a record is its byte offset in the decoded buffer.
#[derive(Debug, PartialEq, Eq)]
pub enum Instruction {
    Label(usize, String),
    Jump(usize, Opcode, u8, String),
    Instr(usize, Opcode, Operands),
}

/// The mathematical model of a decoded instruction: addresses as naturals,
/// opcodes as their raw bytes, names as character sequences.
pub enum SpecInstruction {
    Label { addr: nat, name: Seq<char> },
    Jump { addr: nat, op: u8, target: u8, name: Seq<char> },
    Instr { addr: nat, op: u8, operands: Seq<u8> },
}

impl SpecInstruction {
    /// The byte offset of this record in the decoded buffer.
    pub open spec fn addr(self) -> nat {
        match self {
            SpecInstruction::Label { addr, .. } => addr,
            SpecInstruction::Jump { addr, .. } => addr,
            SpecInstruction::Instr { addr, .. } => addr,
        }
    }

    pub open spec fn is_label(self) -> bool {
        self matches SpecInstruction::Label { .. }
    }

    pub open spec fn is_jump(self) -> bool {
        self matches SpecInstruction::Jump { .. }
    }

    /// The raw target-address byte of a jump record (zero elsewhere).
    pub open spec fn jump_target(self) -> u8 {
        match self {
            SpecInstruction::Jump { target, .. } => target,
            _ => 0,
        }
    }

    /// The label name of a label or jump record (empty elsewhere).
    pub open spec fn name(self) -> Seq<char> {
        match self {
            SpecInstruction::Label { name, .. } => name,
            SpecInstruction::Jump { name, .. } => name,
            _ => Seq::empty(),
        }
    }

    /// The bytes that encode this record: nothing for a label, the opcode
    /// byte followed by the raw operand bytes otherwise.
    pub open spec fn enc_bytes(self) -> Seq<u8> {
        match self {
            SpecInstruction::Label { .. } => Seq::empty(),
            SpecInstruction::Jump { op, target, .. } => seq![op, target],
            SpecInstruction::Instr { op, operands, .. } => seq![op] + operands,
        }
    }

    /// How many operand bytes this record carries.
    pub open spec fn operand_count(self) -> nat {
        match self {
            SpecInstruction::Label { .. } => 0,
            SpecInstruction::Jump { .. } => 1,
            SpecInstruction::Instr { operands, .. } => operands.len(),
        }
    }

    /// How many opcode bytes this record carries: one, except for labels,
    /// which are not encoded at all.
    pub open spec fn opcode_count(self) -> nat {
        if self is Label {
            0
        } else {
            1
        }
    }
}

/// The models of a sequence of instructions.
pub open spec fn views_of(s: Seq<Instruction>) -> Seq<SpecInstruction> {
    s.map_values(|ins: Instruction| ins@)
}

impl View for Operands {
    type V = Seq<u8>;

    open spec fn view(&self) -> Seq<u8> {
        match self {
            Operands::Zero => Seq::empty(),
            Operands::One(a) => seq![*a],
            Operands::Two(a, b) => seq![*a, *b],
        }
    }
}

impl View for Instruction {
    type V = SpecInstruction;

    open spec fn view(&self) -> SpecInstruction {
        match self {
            Instruction::Label(addr, name) => SpecInstruction::Label {
                addr: *addr as nat,
                name: name@,
            },
            Instruction::Jump(addr, op, target, name) => SpecInstruction::Jump {
                addr: *addr as nat,
                op: op@,
                target: *target,
                name: name@,
            },
            Instruction::Instr(addr, op, operands) => SpecInstruction::Instr {
                addr: *addr as nat,
                op: op@,
                operands: operands@,
            },
        }
    }
}

impl Clone for Instruction {
    /// Clones the record; the copy has the same model.
    fn clone(&self) -> (r: Self)
        ensures
            r@ == self@,
    {
        match self {
            Instruction::Label(addr, name) => Instruction::Label(*addr, name.clone()),
            Instruction::Jump(addr, op, target, name) => Instruction::Jump(
                *addr,
                *op,
                *target,
                name.clone(),
            ),
            Instruction::Instr(addr, op, operands) => Instruction::Instr(*addr, *op, *operands),
        }
    }
}

impl Instruction {
    /// Extracts the address in the binary of a given instruction. Labels,
    /// jumps and other instructions all have this component, so this is
    /// defined for any instruction.
    pub fn addr(&self) -> (a: usize)
        ensures
            a == self@.addr(),
    {
        match self {
            Instruction::Label(addr, _) => *addr,
            Instruction::Jump(addr, _, _, _) => *addr,
            Instruction::Instr(addr, _, _) => *addr,
        }
    }

    /// Convert an instruction into the sequence of bytes used to represent
    /// it. Labels have a zero-length encoding.
    pub fn to_bytes(&self) -> (bs: Vec<u8>)
        ensures
            bs@ == self@.enc_bytes(),
    {
        match self {
            Instruction::Label(_, _) => {
                let bs: Vec<u8> = Vec::new();
                assert(bs@ =~= self@.enc_bytes());
                bs
            },
            Instruction::Jump(_, op, target, _) => {
                let mut bs: Vec<u8> = Vec::new();
                bs.push(op.byte());
                bs.push(*target);
                assert(bs@ =~= self@.enc_bytes());
                bs
            },
            Instruction::Instr(_, op, operands) => {
                let mut bs: Vec<u8> = Vec::new();
                bs.push(op.byte());
                match operands {
                    Operands::Zero => {},
                    Operands::One(a) => {
                        bs.push(*a);
                    },
                    Operands::Two(a, b) => {
                        bs.push(*a);
                        bs.push(*b);
                    },
                }
                assert(bs@ =~= self@.enc_bytes());
                bs
            },
        }
    }

    /// Determines the number of bytes to encode this instruction.
    pub fn size(&self) -> (sz: usize)
        ensures
            sz == self@.enc_bytes().len(),
    {
        self.to_bytes().len()
    }

    /// Determines the number of operands in this instruction.
    pub fn num_operands(&self) -> (n: usize)
        ensures
            n == self@.operand_count(),
    {
        match self {
            Instruction::Label(_, _) => 0,
            Instruction::Jump(_, _, _, _) => 1,
            Instruction::Instr(_, _, operands) => match operands {
                Operands::Zero => 0,
                Operands::One(_) => 1,
                Operands::Two(_, _) => 2,
            },
        }
    }

    /// Determines the number of opcodes in this instruction. Really, all
    /// instructions have 1 opcode, but this ensures that labels don't count
    /// as having opcodes.
    pub fn num_opcodes(&self) -> (n: usize)
        ensures
            n == self@.opcode_count(),
    {
        match self {
            Instruction::Label(_, _) => 0,
            _ => 1,
        }
    }
}

} // verus!
