use stew3d::Opcode;

#[test]
fn instruction_sizes() {
    // call
    assert_eq!(Opcode::try_from(0xbc).unwrap().instruction_size(), 2);
    // mov a, c
    assert_eq!(Opcode::try_from(0x74).unwrap().instruction_size(), 1);
    // stsi
    assert_eq!(Opcode::try_from(0x9e).unwrap().instruction_size(), 3);
    // outi
    assert_eq!(Opcode::try_from(0xc1).unwrap().instruction_size(), 2);
}

#[test]
fn conversions() {
    // add a, a: the lowest opcode
    assert_eq!(Opcode::try_from(0x00).unwrap().byte(), 0x00);
    // nop: the highest opcode
    assert_eq!(Opcode::try_from(0xc8).unwrap().byte(), 0xc8);
    // not a
    assert_eq!(Opcode::try_from(0x55).unwrap().byte(), 0x55);
    // the first byte past the valid range
    assert!(Opcode::try_from(0xc9).is_err());
}
