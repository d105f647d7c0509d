//! Disassembler for a fixed 8-bit instruction set.
//!
//! The library decodes a raw byte buffer into a structured instruction
//! sequence in two passes: a linear scan that classifies each opcode byte and
//! consumes its operand bytes, and a label pass that gives every jump or call
//! target a symbolic name and inserts a label marker at the target address.

pub mod disasm;
pub mod instr;
pub mod labels;
pub mod opcode;
pub mod props;
pub mod stats;
pub mod symtab;

pub use disasm::disassemble;
pub use disasm::Error;
pub use instr::Instruction;
pub use instr::Operands;
pub use opcode::ConversionFailure;
pub use opcode::Opcode;
pub use stats::BinaryStats;
