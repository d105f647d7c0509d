use stew3d::disassemble;
use stew3d::Error;
use stew3d::Instruction;
use stew3d::Opcode;
use stew3d::Operands;

fn op(b: u8) -> Opcode {
    Opcode::try_from(b).unwrap()
}

#[test]
fn simple_disassembly() {
    // mvi 10, a; call l0; hlt; l0: addi 4, a; ret
    let b = [0x7f, 0x0a, 0xbc, 0x05, 0xc7, 0x0c, 0x04, 0xbd];
    assert_eq!(
        disassemble(&b).unwrap(),
        vec![
            Instruction::Instr(0x00, op(0x7f), Operands::One(0x0a)),
            Instruction::Jump(0x02, op(0xbc), 0x05, String::from("l0")),
            Instruction::Instr(0x04, op(0xc7), Operands::Zero),
            Instruction::Label(0x05, String::from("l0")),
            Instruction::Instr(0x05, op(0x0c), Operands::One(0x04)),
            Instruction::Instr(0x07, op(0xbd), Operands::Zero),
        ]
    );
}

#[test]
fn errs_on_invalid_opcode() {
    // df is above the valid opcode range
    let b = [0x80, 0x05, 0xc5, 0xdf, 0xc7];
    assert_eq!(disassemble(&b), Err(Error::InvalidOpcode(0xdf, 3)));
}

#[test]
fn errs_on_unexpected_eof() {
    // 97 (lds byte, a) expects a byte operand
    let b = [0xc8, 0xc8, 0x6f, 0x97];
    assert_eq!(
        disassemble(&b),
        Err(Error::UnexpectedEndOfFile(op(0x97)))
    );
}

#[test]
fn outi_then_hlt() {
    // outi 1; hlt
    let b = [0xc1, 0x01, 0xc7];
    assert_eq!(
        disassemble(&b).unwrap(),
        vec![
            Instruction::Instr(0x00, op(0xc1), Operands::One(0x01)),
            Instruction::Instr(0x02, op(0xc7), Operands::Zero),
        ]
    );
}

#[test]
fn decodes_empty_buffer() {
    let b: [u8; 0] = [];
    assert_eq!(disassemble(&b).unwrap(), Vec::<Instruction>::new());
}

#[test]
fn same_target_shares_one_label() {
    // jmp l0; jmp l0; l0: hlt
    let b = [0xb1, 0x04, 0xb1, 0x04, 0xc7];
    assert_eq!(
        disassemble(&b).unwrap(),
        vec![
            Instruction::Jump(0x00, op(0xb1), 0x04, String::from("l0")),
            Instruction::Jump(0x02, op(0xb1), 0x04, String::from("l0")),
            Instruction::Label(0x04, String::from("l0")),
            Instruction::Instr(0x04, op(0xc7), Operands::Zero),
        ]
    );
}

#[test]
fn names_follow_first_encounter_not_address_order() {
    // jmp l0; jmp l1; l1: hlt; hlt; l0: hlt -- the later address is
    // encountered first and gets the lower-numbered name.
    let b = [0xb1, 0x06, 0xb1, 0x04, 0xc7, 0xc7, 0xc7];
    assert_eq!(
        disassemble(&b).unwrap(),
        vec![
            Instruction::Jump(0x00, op(0xb1), 0x06, String::from("l0")),
            Instruction::Jump(0x02, op(0xb1), 0x04, String::from("l1")),
            Instruction::Label(0x04, String::from("l1")),
            Instruction::Instr(0x04, op(0xc7), Operands::Zero),
            Instruction::Instr(0x05, op(0xc7), Operands::Zero),
            Instruction::Label(0x06, String::from("l0")),
            Instruction::Instr(0x06, op(0xc7), Operands::Zero),
        ]
    );
}

#[test]
fn label_numbers_past_ten() {
    // eleven jumps to eleven distinct targets: the counter reaches a
    // two-digit label name.
    let mut b = Vec::new();
    for k in 0..11u8 {
        b.push(0xb1);
        b.push(2 * (k + 1));
    }
    let out = disassemble(&b).unwrap();
    let names: Vec<String> = out
        .iter()
        .filter_map(|ins| match ins {
            Instruction::Jump(_, _, _, name) => Some(name.clone()),
            _ => None,
        })
        .collect();
    let expected: Vec<String> = (0..11).map(|k| format!("l{}", k)).collect();
    assert_eq!(names, expected);
}

#[test]
fn round_trip_single_instructions() {
    // re-encoding everything decoded reproduces the input bytes, the
    // zero-length label encodings included
    let plain = [0xc1, 0x01];
    let mut bytes_again = Vec::new();
    for ins in disassemble(&plain).unwrap() {
        bytes_again.extend(ins.to_bytes());
    }
    assert_eq!(bytes_again, plain.to_vec());

    // a jump whose target is its own address gets a label ahead of it
    let jump = [0xbc, 0x00];
    let out = disassemble(&jump).unwrap();
    assert_eq!(
        out,
        vec![
            Instruction::Label(0x00, String::from("l0")),
            Instruction::Jump(0x00, op(0xbc), 0x00, String::from("l0")),
        ]
    );
    let mut jump_again = Vec::new();
    for ins in &out {
        jump_again.extend(ins.to_bytes());
    }
    assert_eq!(jump_again, jump.to_vec());
}

#[test]
fn encoding_queries() {
    let lbl = Instruction::Label(0x05, String::from("l0"));
    assert_eq!(lbl.to_bytes(), Vec::<u8>::new());
    assert_eq!(lbl.size(), 0);
    assert_eq!(lbl.num_operands(), 0);
    assert_eq!(lbl.num_opcodes(), 0);
    assert_eq!(lbl.addr(), 0x05);

    let jmp = Instruction::Jump(0x02, op(0xbc), 0x05, String::from("l0"));
    assert_eq!(jmp.to_bytes(), vec![0xbc, 0x05]);
    assert_eq!(jmp.size(), 2);
    assert_eq!(jmp.num_operands(), 1);
    assert_eq!(jmp.num_opcodes(), 1);

    let two = Instruction::Instr(0x00, op(0x9e), Operands::Two(0x01, 0x02));
    assert_eq!(two.to_bytes(), vec![0x9e, 0x01, 0x02]);
    assert_eq!(two.size(), 3);
    assert_eq!(two.num_operands(), 2);
    assert_eq!(two.num_opcodes(), 1);
}
