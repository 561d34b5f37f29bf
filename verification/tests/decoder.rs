use zmachine::zinst::{Address, Instruction, InstructionType, Operand};

#[test]
fn long_form_with_two_small_constants() {
    // add 3 4
    let (inst, len) = Instruction::from_mem(&[0x14, 0x03, 0x04, 0x00]);
    assert_eq!(len, 3);
    assert_eq!(inst.opcode, 20);
    assert_eq!(inst.ty, InstructionType::Long);
    assert!(inst.two_op);
    assert_eq!(inst.ops, vec![Operand::SmallConstant(3), Operand::SmallConstant(4)]);
}

#[test]
fn long_form_with_variables() {
    // bit 6: first is a variable; bit 5: second is a variable
    let (inst, _) = Instruction::from_mem(&[0x54, 0x00, 0x04]);
    assert_eq!(
        inst.ops,
        vec![Operand::Variable(Address::StackPointer), Operand::SmallConstant(4)]
    );
    let (inst, _) = Instruction::from_mem(&[0x34, 0x07, 0x05]);
    assert_eq!(
        inst.ops,
        vec![Operand::SmallConstant(7), Operand::Variable(Address::Local(4))]
    );
    let (inst, _) = Instruction::from_mem(&[0x74, 0x10, 0xff]);
    assert_eq!(
        inst.ops,
        vec![Operand::Variable(Address::Global(0)), Operand::Variable(Address::Global(239))]
    );
}

#[test]
fn short_form_operand_types() {
    // large constant
    let (inst, len) = Instruction::from_mem(&[0x8c, 0x12, 0x34]);
    assert_eq!((inst.opcode, inst.ty, len), (12, InstructionType::Short, 3));
    assert_eq!(inst.ops, vec![Operand::LargeConstant(0x1234)]);
    // small constant
    let (inst, len) = Instruction::from_mem(&[0x9b, 0x63]);
    assert_eq!((inst.opcode, inst.ty, len), (11, InstructionType::Short, 2));
    assert_eq!(inst.ops, vec![Operand::SmallConstant(99)]);
    // variable
    let (inst, len) = Instruction::from_mem(&[0xa0, 0x01]);
    assert_eq!((inst.opcode, inst.ty, len), (0, InstructionType::Short, 2));
    assert_eq!(inst.ops, vec![Operand::Variable(Address::Local(0))]);
    assert!(!inst.two_op);
}

#[test]
fn short_form_without_operand_is_zero_ops() {
    let (inst, len) = Instruction::from_mem(&[0xb0]);
    assert_eq!((inst.opcode, inst.ty, len), (0, InstructionType::ZeroOps, 1));
    assert!(inst.ops.is_empty());
    let (inst, _) = Instruction::from_mem(&[0xbb, 0xff]);
    assert_eq!((inst.opcode, inst.ty), (11, InstructionType::ZeroOps));
}

#[test]
fn variable_form_reads_types_in_order() {
    // call with a large constant, a small constant, a variable
    let (inst, len) = Instruction::from_mem(&[0xe0, 0x1b, 0x12, 0x34, 0x05, 0x00]);
    assert_eq!((inst.opcode, inst.ty, len), (0, InstructionType::Variable, 6));
    assert!(!inst.two_op);
    assert_eq!(
        inst.ops,
        vec![
            Operand::LargeConstant(0x1234),
            Operand::SmallConstant(5),
            Operand::Variable(Address::StackPointer),
        ]
    );
}

#[test]
fn variable_form_stops_at_the_first_omitted_type() {
    // types: small, omitted, small, small: only the first is read
    let (inst, len) = Instruction::from_mem(&[0xe8, 0x75, 0x09, 0x08, 0x07]);
    assert_eq!(len, 3);
    assert_eq!(inst.ops, vec![Operand::SmallConstant(9)]);
    let (inst, len) = Instruction::from_mem(&[0xe8, 0xff]);
    assert_eq!(len, 2);
    assert!(inst.ops.is_empty());
}

#[test]
fn variable_form_with_bit_five_clear_is_two_op() {
    // je with three operands
    let (inst, len) = Instruction::from_mem(&[0xc1, 0x57, 0x01, 0x02, 0x03]);
    assert_eq!((inst.opcode, inst.ty, len), (1, InstructionType::Variable, 5));
    assert!(inst.two_op);
    assert_eq!(inst.ops.len(), 3);
}

#[test]
fn decode_refuses_what_runs_off_the_end() {
    assert!(Instruction::decode(&[]).is_none());
    assert!(Instruction::decode(&[0x14, 0x03]).is_none());
    assert!(Instruction::decode(&[0x8c, 0x12]).is_none());
    assert!(Instruction::decode(&[0xe0]).is_none());
    assert!(Instruction::decode(&[0xe0, 0x1b, 0x12, 0x34, 0x05]).is_none());
    assert!(Instruction::decode(&[0xb0]).is_some());
}

#[test]
fn variable_numbers_name_places() {
    assert_eq!(Address::of(0), Address::StackPointer);
    assert_eq!(Address::of(1), Address::Local(0));
    assert_eq!(Address::of(15), Address::Local(14));
    assert_eq!(Address::of(16), Address::Global(0));
    assert_eq!(Address::of(255), Address::Global(239));
    assert_eq!(Address::Local(3).addr(), 3);
    assert_eq!(Address::StackPointer.addr(), 0);
    assert_eq!(Address::default(), Address::StackPointer);
    assert_eq!(Operand::Variable(Address::Global(7)).value(), 7);
    assert_eq!(Operand::LargeConstant(700).value(), 700);
}
