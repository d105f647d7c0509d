use stew3d::BinaryStats;
use stew3d::Instruction;
use stew3d::Opcode;
use stew3d::Operands;

fn op(b: u8) -> Opcode {
    Opcode::try_from(b).unwrap()
}

#[test]
fn small_program() {
    // 00:    7f ff    |   mvi 255, a
    // 02:             | l0:
    // 02:    be       |   out a
    // 03:    67       |   dcr a
    // 04:    a1       |   cmp a, z
    // 05:    b3 02    |   jne l0
    let bytes = [
        Instruction::Instr(0x00, op(0x7f), Operands::One(0xff)),
        Instruction::Label(0x02, "l0".into()),
        Instruction::Instr(0x02, op(0xbe), Operands::Zero),
        Instruction::Instr(0x03, op(0x67), Operands::Zero),
        Instruction::Instr(0x04, op(0xa1), Operands::Zero),
        Instruction::Jump(0x05, op(0xb3), 0x02, "l0".into()),
    ];

    let stats = BinaryStats::new(&bytes[..]);
    assert_eq!(
        stats,
        BinaryStats {
            total_instrs: 5,
            total_bytes: 7,
            opcode_bytes: 5,
            operand_bytes: 2,
            single_byte_instrs: 3,
            two_byte_instrs: 2,
            three_byte_instrs: 0,
        }
    );
}

#[test]
fn empty() {
    let stats = BinaryStats::new(&[]);
    assert_eq!(
        stats,
        BinaryStats {
            total_instrs: 0,
            total_bytes: 0,
            opcode_bytes: 0,
            operand_bytes: 0,
            single_byte_instrs: 0,
            two_byte_instrs: 0,
            three_byte_instrs: 0,
        }
    );
}
