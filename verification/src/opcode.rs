//! Opcode classification: which bytes are valid opcodes, how many bytes an
//! instruction with a given opcode occupies, and which opcodes are jumps.

use vstd::prelude::*;

verus! {

/// Largest byte value that is a valid opcode. Opcodes cover the whole range
/// from zero to this value, with no gaps.
pub const OPCODE_MAX: u8 = 0xc8;

/// A byte is a valid opcode exactly when it lies in the fixed opcode range.
pub open spec fn opcode_valid(b: u8) -> bool {
    b <= OPCODE_MAX
}

/// Opcodes whose instruction is the opcode byte alone.
pub open spec fn one_byte_opcode(b: u8) -> bool {
    ||| b <= 0x0b
    ||| 0x10 <= b && b <= 0x1b
    ||| 0x20 <= b && b <= 0x28
    ||| 0x2d <= b && b <= 0x35
    ||| 0x3a <= b && b <= 0x3f
    ||| 0x43 <= b && b <= 0x48
    ||| 0x4c <= b && b <= 0x51
    ||| 0x55 <= b && b <= 0x7e
    ||| 0x82 <= b && b <= 0x96
    ||| 0x9f <= b && b <= 0xaa
    ||| 0xbd <= b && b <= 0xc0
    ||| 0xc4 <= b && b <= 0xc8
}

/// Opcodes whose instruction is the opcode byte plus one operand byte.
pub open spec fn two_byte_opcode(b: u8) -> bool {
    ||| 0x0c <= b && b <= 0x0f
    ||| 0x1c <= b && b <= 0x1f
    ||| 0x29 <= b && b <= 0x2c
    ||| 0x36 <= b && b <= 0x39
    ||| 0x40 <= b && b <= 0x42
    ||| 0x49 <= b && b <= 0x4b
    ||| 0x52 <= b && b <= 0x54
    ||| 0x7f <= b && b <= 0x81
    ||| 0x97 <= b && b <= 0x9d
    ||| 0xab <= b && b <= 0xbc
    ||| 0xc1 <= b && b <= 0xc3
}

/// Total encoding length, in bytes, of an instruction whose opcode is `b`:
/// 1, 2 or 3 for a valid opcode, and 0 for a byte outside the opcode range.
pub open spec fn spec_size(b: u8) -> nat {
    if one_byte_opcode(b) {
        1
    } else if two_byte_opcode(b) {
        2
    } else if b == 0x9e {
        3
    } else {
        0
    }
}

/// The jump class: the eleven conditional and unconditional jumps plus the
/// call opcode. Their single operand byte is a target address that the
/// disassembler resolves to a symbolic label.
pub open spec fn jump_opcode(b: u8) -> bool {
    0xb1 <= b && b <= 0xbc
}

/// The opcode of one machine instruction. A value of this type always holds
/// a byte in the valid opcode range: the only way to build one is through
/// `try_from`, which checks the range.
#[derive(Debug, Clone, Copy, PartialEq, Eq, Structural)]
pub struct Opcode {
    byte: u8,
}

/// Failure to convert a byte into an `Opcode`: the byte lies outside the
/// valid opcode range. Carries the offending byte.
#[derive(Debug, Clone, Copy, PartialEq, Eq, Structural)]
pub struct ConversionFailure(pub u8);

impl View for Opcode {
    type V = u8;

    closed spec fn view(&self) -> u8 {
        self.byte
    }
}

impl Opcode {
    #[verifier::type_invariant]
    spec fn type_inv(self) -> bool {
        opcode_valid(self@)
    }

    /// Converts a raw byte into an opcode, failing exactly when the byte is
    /// outside the valid range.
    pub fn try_from(byte: u8) -> (r: Result<Opcode, ConversionFailure>)
        ensures
            opcode_valid(byte) ==> (r matches Ok(op) && op@ == byte),
            !opcode_valid(byte) ==> r == Err::<Opcode, ConversionFailure>(ConversionFailure(byte)),
    {
        if byte <= OPCODE_MAX {
            Ok(Opcode { byte })
        } else {
            Err(ConversionFailure(byte))
        }
    }

    /// The raw byte value of this opcode.
    pub fn byte(&self) -> (b: u8)
        ensures
            b == self@,
            opcode_valid(self@),
    {
        proof {
            use_type_invariant(self);
        }
        self.byte
    }

    /// Whether this opcode belongs to the jump class.
    pub fn is_jump(&self) -> (r: bool)
        ensures
            r == jump_opcode(self@),
    {
        0xb1 <= self.byte && self.byte <= 0xbc
    }

    /// Determines the size of an instruction, given its opcode.
    pub fn instruction_size(self) -> (sz: usize)
        ensures
            opcode_valid(self@),
            sz == spec_size(self@),
            1 <= sz <= 3,
    {
        proof {
            use_type_invariant(self);
        }
        let b = self.byte;
        if b <= 0x0b || (0x10 <= b && b <= 0x1b) || (0x20 <= b && b <= 0x28)
            || (0x2d <= b && b <= 0x35) || (0x3a <= b && b <= 0x3f) || (0x43 <= b && b <= 0x48)
            || (0x4c <= b && b <= 0x51) || (0x55 <= b && b <= 0x7e) || (0x82 <= b && b <= 0x96)
            || (0x9f <= b && b <= 0xaa) || (0xbd <= b && b <= 0xc0) || (0xc4 <= b && b <= 0xc8) {
            1
        } else if (0x0c <= b && b <= 0x0f) || (0x1c <= b && b <= 0x1f) || (0x29 <= b && b <= 0x2c)
            || (0x36 <= b && b <= 0x39) || (0x40 <= b && b <= 0x42) || (0x49 <= b && b <= 0x4b)
            || (0x52 <= b && b <= 0x54) || (0x7f <= b && b <= 0x81) || (0x97 <= b && b <= 0x9d)
            || (0xab <= b && b <= 0xbc) || (0xc1 <= b && b <= 0xc3) {
            2
        } else {
            3
        }
    }
}

} // verus!
