use zmachine::zinst::{Address, Operand};
use zmachine::zlex::ZDictEntry;
use zmachine::zmachine::{seed_of, LoadError, ZMachine, ZRng};
use zmachine::zstate::{BranchOffset, Diagnostic, Offset, ZMachineExecResult};

const OBJECTS: usize = 0x40;
const GLOBALS: usize = 0x300;
const DICT: usize = 0x500;
const ABBREV: usize = 0x5c0;
const CODE: usize = 0x700;
const ROUTINE: usize = 0x780;

fn put_word(mem: &mut [u8], at: usize, v: u16) {
    mem[at] = (v >> 8) as u8;
    mem[at + 1] = (v & 0xff) as u8;
}

fn put_object(mem: &mut [u8], obj: usize, parent: u8, sibling: u8, child: u8, props: u16) {
    let at = OBJECTS + 62 + 9 * (obj - 1);
    mem[at + 4] = parent;
    mem[at + 5] = sibling;
    mem[at + 6] = child;
    put_word(mem, at + 7, props);
}

fn pack(zchars: &[u8]) -> Vec<u8> {
    let mut zs = zchars.to_vec();
    while zs.len() % 3 != 0 || zs.is_empty() {
        zs.push(5);
    }
    let mut out = Vec::new();
    let words = zs.len() / 3;
    for w in 0..words {
        let mut word: u16 =
            ((zs[3 * w] as u16) << 10) | ((zs[3 * w + 1] as u16) << 5) | (zs[3 * w + 2] as u16);
        if w + 1 == words {
            word |= 0x8000;
        }
        out.push((word >> 8) as u8);
        out.push((word & 0xff) as u8);
    }
    out
}

/// An image whose code starts at 0x700 with `code`, and which holds a routine
/// with the locals 10 and 20 at 0x780 whose code is `routine`.
fn image(code: &[u8], routine: &[u8]) -> Vec<u8> {
    let mut mem = vec![0u8; 0x800];
    mem[0] = 3;
    put_word(&mut mem, 6, CODE as u16);
    put_word(&mut mem, 8, DICT as u16);
    put_word(&mut mem, 10, OBJECTS as u16);
    put_word(&mut mem, 12, GLOBALS as u16);
    put_word(&mut mem, 24, ABBREV as u16);
    put_word(&mut mem, OBJECTS + 2 * 4, 0x1234);
    put_object(&mut mem, 1, 0, 0, 2, 0x00d0);
    put_object(&mut mem, 2, 1, 3, 0, 0x00e8);
    put_object(&mut mem, 3, 1, 4, 0, 0x00e8);
    put_object(&mut mem, 4, 1, 0, 0, 0x00e8);
    put_object(&mut mem, 5, 0, 0, 0, 0x00e8);
    let box_word: u16 = 0x8000 | (7 << 10) | (20 << 5) | 29;
    mem[0xd0] = 1;
    put_word(&mut mem, 0xd1, box_word);
    mem[0xd3] = 0x34;
    mem[0xd4] = 0xab;
    mem[0xd5] = 0xcd;
    mem[0xd6] = 0x07;
    mem[0xd7] = 0x11;
    mem[0xd8] = 0;
    mem[DICT] = 1;
    mem[DICT + 1] = b',';
    mem[DICT + 2] = 7;
    put_word(&mut mem, DICT + 3, 2);
    for (k, word) in ["mailbox", "open"].iter().enumerate() {
        let key = ZDictEntry::from_slice(word.as_bytes()).as_u32();
        let at = DICT + 5 + 7 * k;
        mem[at..at + 4].copy_from_slice(&key.to_be_bytes());
    }
    // "hello" at 0x680
    let hello = pack(&[13, 10, 17, 17, 20]);
    mem[0x680..0x680 + hello.len()].copy_from_slice(&hello);
    // the parse buffer takes four words
    mem[0x640] = 4;
    mem[CODE..CODE + code.len()].copy_from_slice(code);
    mem[ROUTINE] = 2;
    put_word(&mut mem, ROUTINE + 1, 10);
    put_word(&mut mem, ROUTINE + 3, 20);
    mem[ROUTINE + 5..ROUTINE + 5 + routine.len()].copy_from_slice(routine);
    mem
}

fn machine(code: &[u8]) -> ZMachine {
    machine_with(code, &[])
}

fn machine_with(code: &[u8], routine: &[u8]) -> ZMachine {
    let mut m = ZMachine::new();
    assert_eq!(m.load(image(code, routine)), Ok(()));
    m
}

fn global(m: &ZMachine, g: usize) -> u16 {
    m.memory.global(g).0
}

/// The call of the routine at 0x780 with the arguments 1, 2 and 3, storing
/// in global 5.
const CALL: [u8; 8] = [0xe0, 0x15, 0x03, 0xc0, 0x01, 0x02, 0x03, 0x15];

fn run(code: &[u8], steps: usize) -> (ZMachine, String) {
    let mut m = machine(code);
    let mut out = String::new();
    for _ in 0..steps {
        assert_eq!(m.exec_one(&mut out), ZMachineExecResult::Continue);
    }
    (m, out)
}

#[test]
fn load_refuses_bad_images() {
    let mut m = ZMachine::new();
    assert!(!m.is_loaded());
    assert_eq!(m.load(vec![3u8; 63]), Err(LoadError::TooShort));
    assert_eq!(m.load(Vec::new()), Err(LoadError::TooShort));
    let mut bytes = image(&[], &[]);
    bytes[0] = 5;
    assert_eq!(m.load(bytes), Err(LoadError::UnsupportedVersion(5)));
    let mut bytes = image(&[], &[]);
    put_word(&mut bytes, 6, 0x0800);
    assert_eq!(m.load(bytes), Err(LoadError::EntryOutOfRange));
    // nothing is left of the refused images
    assert!(!m.is_loaded());
    assert!(m.memory.bytes.is_empty());
}

#[test]
fn load_starts_the_machine() {
    let mut m = machine(&[0xba]);
    assert!(m.is_loaded());
    assert_eq!(m.get_pc(), CODE);
    assert_eq!(m.stack.len(), 1);
    assert!(m.stack[0].locals.is_empty());
    assert!(m.stack[0].stack.is_empty());
    assert_eq!(m.memory.objects_idx, OBJECTS);
    assert_eq!(m.memory.globals_idx, GLOBALS);
    assert_eq!(m.memory.dictionary_idx, DICT);
    assert_eq!(m.memory.abbrev_idx, ABBREV);
    assert_eq!(m.fault, None);
    // a second load replaces the first, and a refused one leaves it
    assert_eq!(m.load(vec![0u8; 10]), Err(LoadError::TooShort));
    assert_eq!(m.get_pc(), CODE);
    let mut other = image(&[], &[]);
    put_word(&mut other, 6, 0x0710);
    assert_eq!(m.load(other), Ok(()));
    assert_eq!(m.get_pc(), 0x710);
}

#[test]
fn arithmetic_instructions() {
    let code = [
        0x14, 0x03, 0x04, 0x10, // add 3 4 -> g0
        0x16, 0x03, 0x04, 0x11, // mul 3 4 -> g1
        0xd7, 0x1f, 0xff, 0xf8, 0x03, 0x12, // div -8 3 -> g2
        0xd8, 0x1f, 0xff, 0xf9, 0x03, 0x13, // mod -7 3 -> g3
        0x15, 0x03, 0x04, 0x14, // sub 3 4 -> g4
        0xd4, 0x0f, 0x7f, 0xff, 0x00, 0x01, 0x15, // add 0x7fff 1 -> g5
    ];
    let (m, _) = run(&code, 6);
    assert_eq!(global(&m, 0), 0x0007);
    assert_eq!(global(&m, 1), 0x000c);
    assert_eq!(global(&m, 2), 0xfffe);
    assert_eq!(global(&m, 3), 0xffff);
    assert_eq!(global(&m, 4), 0xffff);
    assert_eq!(global(&m, 5), 0x8000);
    assert_eq!(m.get_pc(), CODE + code.len());
}

#[test]
fn logic_instructions() {
    let code = [
        0x08, 0x0c, 0x0a, 0x10, // or 12 10 -> g0
        0x09, 0x0c, 0x0a, 0x11, // and 12 10 -> g1
        0x9f, 0x0f, 0x12, // not 15 -> g2
    ];
    let (m, _) = run(&code, 3);
    assert_eq!(global(&m, 0), 14);
    assert_eq!(global(&m, 1), 8);
    assert_eq!(global(&m, 2), 0xfff0);
}

#[test]
fn branch_encoding() {
    // jz 0 with the label 0xc5: taken, five bytes less two ahead
    let (m, _) = run(&[0x90, 0x00, 0xc5], 1);
    assert_eq!(m.get_pc(), CODE + 3 + 5 - 2);
    // jz 1: not taken
    let (m, _) = run(&[0x90, 0x01, 0xc5], 1);
    assert_eq!(m.get_pc(), CODE + 3);
    // jz 1 with the sense "on false"
    let (m, _) = run(&[0x90, 0x01, 0x45], 1);
    assert_eq!(m.get_pc(), CODE + 3 + 5 - 2);
}

#[test]
fn two_byte_branches_are_signed() {
    // jz 0 with a two-byte label and offset 0x23
    let (m, _) = run(&[0x90, 0x00, 0x80, 0x23], 1);
    assert_eq!(m.get_pc(), CODE + 4 + 0x23 - 2);
    // offset -4 in 14 bits is 0x3ffc
    let (m, _) = run(&[0x90, 0x00, 0xbf, 0xfc], 1);
    assert_eq!(m.get_pc(), CODE + 4 - 4 - 2);
    // not taken: behind both bytes
    let (m, _) = run(&[0x90, 0x07, 0xbf, 0xfc], 1);
    assert_eq!(m.get_pc(), CODE + 4);
}

#[test]
fn branch_offsets_zero_and_one_return() {
    // in the routine: jz 1 with the label 0x00 0x00, which is taken on false
    let mut m = machine_with(&CALL, &[0x90, 0x01, 0x00, 0x00]);
    let mut out = String::new();
    assert_eq!(m.exec_one(&mut out), ZMachineExecResult::Continue);
    assert_eq!(m.stack.len(), 2);
    m.memory.set_global(5, zmachine::bits::ZWord(0x7777));
    assert_eq!(m.exec_one(&mut out), ZMachineExecResult::Continue);
    assert_eq!(m.stack.len(), 1);
    assert_eq!(global(&m, 5), 0);
    assert_eq!(m.get_pc(), CODE + 8);
    // jz 0 with the label 0xc1: a return of 1
    let mut m = machine_with(&CALL, &[0x90, 0x00, 0xc1]);
    assert_eq!(m.exec(&mut out, 2), ZMachineExecResult::Continue);
    assert_eq!(m.stack.len(), 1);
    assert_eq!(global(&m, 5), 1);
}

#[test]
fn branch_label_reading() {
    let m = machine(&[0xc5, 0x00, 0x00, 0x3f, 0xff, 0x41, 0x80, 0x02]);
    let mut pc = CODE;
    assert_eq!(m.read_offset(&mut pc), Some(BranchOffset::new(true, Offset::Unsigned(5))));
    assert_eq!(pc, CODE + 1);
    assert_eq!(m.read_offset(&mut pc), Some(BranchOffset::new(false, Offset::RFalse)));
    assert_eq!(pc, CODE + 3);
    assert_eq!(m.read_offset(&mut pc), Some(BranchOffset::new(false, Offset::Signed(-1))));
    assert_eq!(pc, CODE + 5);
    assert_eq!(m.read_offset(&mut pc), Some(BranchOffset::new(false, Offset::RTrue)));
    assert_eq!(pc, CODE + 6);
    assert_eq!(m.read_offset(&mut pc), Some(BranchOffset::new(true, Offset::Signed(2))));
    let label = BranchOffset::new(true, Offset::RTrue);
    assert_eq!((*label.target(), *label.offset()), (true, Offset::RTrue));
    let mut end = 0x7ff;
    assert_eq!(m.read_offset(&mut end), None);
    assert_eq!(end, 0x7ff);
    let mut pc = CODE + 5;
    assert_eq!(m.read_store(&mut pc), Some(Address::Global(49)));
    assert_eq!(pc, CODE + 6);
}

#[test]
fn comparisons() {
    // jl -1 1: taken
    let (m, _) = run(&[0xc2, 0x1f, 0xff, 0xff, 0x01, 0xc8], 1);
    assert_eq!(m.get_pc(), CODE + 6 + 8 - 2);
    // jg -1 1: not taken
    let (m, _) = run(&[0xc3, 0x1f, 0xff, 0xff, 0x01, 0xc8], 1);
    assert_eq!(m.get_pc(), CODE + 6);
    // je 5 1 2 5: taken by the fourth operand
    let (m, _) = run(&[0xc1, 0x55, 0x05, 0x01, 0x02, 0x05, 0xc8], 1);
    assert_eq!(m.get_pc(), CODE + 7 + 8 - 2);
    // je 5 1 2 3: not taken
    let (m, _) = run(&[0xc1, 0x55, 0x05, 0x01, 0x02, 0x03, 0xc8], 1);
    assert_eq!(m.get_pc(), CODE + 7);
    // test 0x0f 0x05: all flags set
    let (m, _) = run(&[0x07, 0x0f, 0x05, 0xc8], 1);
    assert_eq!(m.get_pc(), CODE + 4 + 8 - 2);
    let (m, _) = run(&[0x07, 0x0f, 0x15, 0xc8], 1);
    assert_eq!(m.get_pc(), CODE + 4);
}

#[test]
fn call_and_return() {
    let mut m = machine_with(&CALL, &[0x9b, 0x63]);
    let mut out = String::new();
    assert_eq!(m.exec_one(&mut out), ZMachineExecResult::Continue);
    assert_eq!(m.stack.len(), 2);
    assert_eq!(m.stack[1].locals, vec![1, 2]);
    assert!(m.stack[1].stack.is_empty());
    assert_eq!(m.stack[1].ret_addr, Address::Global(5));
    assert_eq!(m.get_pc(), ROUTINE + 5);
    assert_eq!(m.stack[0].pc, CODE + 8);
    // ret 99
    assert_eq!(m.exec_one(&mut out), ZMachineExecResult::Continue);
    assert_eq!(m.stack.len(), 1);
    assert_eq!(global(&m, 5), 99);
    assert_eq!(m.get_pc(), CODE + 8);
}

#[test]
fn missing_arguments_keep_the_defaults() {
    // call the routine with one argument, storing on the stack
    let mut m = machine_with(&[0xe0, 0x1f, 0x03, 0xc0, 0x01, 0x00], &[0xb0]);
    let mut out = String::new();
    assert_eq!(m.exec_one(&mut out), ZMachineExecResult::Continue);
    assert_eq!(m.stack[1].locals, vec![1, 20]);
    // rtrue pushes 1 on the caller's stack
    assert_eq!(m.exec_one(&mut out), ZMachineExecResult::Continue);
    assert_eq!(m.stack[0].stack, vec![1]);
    // no argument at all
    let mut m = machine_with(&[0xe0, 0x3f, 0x03, 0xc0, 0x00], &[0xb1]);
    assert_eq!(m.exec_one(&mut out), ZMachineExecResult::Continue);
    assert_eq!(m.stack[1].locals, vec![10, 20]);
    assert_eq!(m.exec_one(&mut out), ZMachineExecResult::Continue);
    assert_eq!(m.stack[0].stack, vec![0]);
}

#[test]
fn call_of_address_zero_stores_zero() {
    let mut m = machine(&[0xe0, 0x3f, 0x00, 0x00, 0x15]);
    m.memory.set_global(5, zmachine::bits::ZWord(9));
    let mut out = String::new();
    assert_eq!(m.exec_one(&mut out), ZMachineExecResult::Continue);
    assert_eq!(m.stack.len(), 1);
    assert_eq!(global(&m, 5), 0);
    assert_eq!(m.get_pc(), CODE + 5);
}

#[test]
fn stack_operands_pop_in_order() {
    let code = [
        0xe8, 0x7f, 0x0a, // push 10
        0xe8, 0x7f, 0x03, // push 3
        0x75, 0x00, 0x00, 0x10, // sub sp sp -> g0
    ];
    let (m, _) = run(&code, 3);
    // the first operand is the top: 3 - 10
    assert_eq!(global(&m, 0), 0xfff9);
    assert!(m.stack[0].stack.is_empty());
}

#[test]
fn operands_are_evaluated_from_left_to_right() {
    let mut m = machine(&[]);
    m.stack[0].stack = vec![7, 8, 9];
    let ops = vec![
        Operand::Variable(Address::StackPointer),
        Operand::SmallConstant(1),
        Operand::Variable(Address::StackPointer),
    ];
    assert_eq!(m.eval_operands(&ops), Some(vec![9, 1, 8]));
    assert_eq!(m.stack[0].stack, vec![7]);
    // a read that fails leaves what was read before it
    let ops = vec![
        Operand::Variable(Address::StackPointer),
        Operand::Variable(Address::StackPointer),
    ];
    assert_eq!(m.eval_operands(&ops), None);
    assert!(m.stack[0].stack.is_empty());
}

#[test]
fn values_and_places() {
    let mut m = machine_with(&CALL, &[]);
    let mut out = String::new();
    assert_eq!(m.exec_one(&mut out), ZMachineExecResult::Continue);
    assert_eq!(m.get_value(&Operand::Variable(Address::Local(1))), Some(2));
    assert_eq!(m.get_value(&Operand::Variable(Address::Local(2))), None);
    assert_eq!(m.get_value(&Operand::LargeConstant(0xbeef)), Some(0xbeef));
    assert_eq!(m.get_value(&Operand::Variable(Address::StackPointer)), None);
    assert!(m.store(5, &Address::StackPointer));
    assert!(m.store(6, &Address::Local(0)));
    assert!(!m.store(6, &Address::Local(2)));
    assert!(m.store(0x0102, &Address::Global(239)));
    assert!(!m.store(1, &Address::Global(240)));
    assert!(m.store(0x0304, &Address::Word(0x600)));
    assert!(m.store(0x05ff, &Address::Byte(0x602)));
    assert_eq!(m.stack[1].locals, vec![6, 2]);
    assert_eq!(m.get_value(&Operand::Variable(Address::StackPointer)), Some(5));
    assert_eq!(m.get_value(&Operand::Variable(Address::Global(239))), Some(0x0102));
    assert_eq!(m.get_value(&Operand::Variable(Address::Global(240))), None);
    assert_eq!(m.get_value(&Operand::Variable(Address::Word(0x600))), Some(0x0304));
    assert_eq!(m.get_value(&Operand::Variable(Address::Byte(0x602))), Some(0xff));
    assert_eq!(m.get_value(&Operand::Variable(Address::Word(0x7ff))), None);
}

#[test]
fn variable_instructions() {
    let code = [
        0x0d, 0x10, 0x07, // store g0 7
        0x95, 0x10, // inc g0
        0x95, 0x10, // inc g0
        0x96, 0x11, // dec g1
        0x9e, 0x10, 0x12, // load g0 -> g2
        0xe8, 0x7f, 0x2a, // push 42
        0xe9, 0x7f, 0x13, // pull g3
    ];
    let (m, _) = run(&code, 7);
    assert_eq!(global(&m, 0), 9);
    assert_eq!(global(&m, 1), 0xffff);
    assert_eq!(global(&m, 2), 9);
    assert_eq!(global(&m, 3), 42);
    assert!(m.stack[0].stack.is_empty());
}

#[test]
fn increments_in_place_on_the_stack() {
    let code = [
        0xe8, 0x7f, 0x05, // push 5
        0x95, 0x00, // inc sp
        0x9e, 0x00, 0x10, // load sp -> g0
        0x0d, 0x00, 0x63, // store sp 99
    ];
    let (m, _) = run(&code, 4);
    assert_eq!(global(&m, 0), 6);
    assert_eq!(m.stack[0].stack, vec![99]);
}

#[test]
fn inc_chk_and_dec_chk() {
    // g0 = 4; inc_chk g0 4 branches since 5 > 4
    let (m, _) = run(&[0x0d, 0x10, 0x04, 0x05, 0x10, 0x04, 0xc8], 2);
    assert_eq!(global(&m, 0), 5);
    assert_eq!(m.get_pc(), CODE + 7 + 8 - 2);
    // dec_chk g0 0 with g0 = 0 branches since -1 < 0
    let (m, _) = run(&[0x04, 0x10, 0x00, 0xc8], 1);
    assert_eq!(global(&m, 0), 0xffff);
    assert_eq!(m.get_pc(), CODE + 4 + 8 - 2);
    // dec_chk g0 0 with g0 = 5 does not
    let (m, _) = run(&[0x0d, 0x10, 0x05, 0x04, 0x10, 0x00, 0xc8], 2);
    assert_eq!(global(&m, 0), 4);
    assert_eq!(m.get_pc(), CODE + 7);
}

#[test]
fn memory_instructions() {
    let code = [
        0xe1, 0x13, 0x06, 0x00, 0x02, 0xab, 0xcd, // storew 0x600 2 0xabcd
        0xe2, 0x13, 0x06, 0x00, 0x01, 0x01, 0xef, // storeb 0x600 1 0x1ef
        0xcf, 0x1f, 0x06, 0x00, 0x02, 0x10, // loadw 0x600 2 -> g0
        0xd0, 0x1f, 0x06, 0x00, 0x01, 0x11, // loadb 0x600 1 -> g1
    ];
    let (m, _) = run(&code, 4);
    assert_eq!(m.memory.read_word(0x604).0, 0xabcd);
    assert_eq!(m.memory.read_byte(0x601), 0xef);
    assert_eq!(global(&m, 0), 0xabcd);
    assert_eq!(global(&m, 1), 0xef);
}

#[test]
fn jump_is_signed() {
    // jump +7: behind the operand plus 7 less 2
    let (m, _) = run(&[0x8c, 0x00, 0x07], 1);
    assert_eq!(m.get_pc(), CODE + 3 + 7 - 2);
    // jump -1 goes back to the jump itself
    let mut m = machine(&[0x8c, 0xff, 0xff]);
    let mut out = String::new();
    assert_eq!(m.exec(&mut out, 25), ZMachineExecResult::Continue);
    assert_eq!(m.get_pc(), CODE);
    assert_eq!(m.fault, None);
}

#[test]
fn object_instructions() {
    let code = [
        0x92, 0x01, 0x10, 0xc4, // get_child 1 -> g0, branch taken
        0x00, 0x00, // skipped
        0x91, 0x04, 0x11, 0xc4, // get_sibling 4 -> g1, not taken
        0x93, 0x03, 0x12, // get_parent 3 -> g2
        0x0e, 0x05, 0x01, // insert_obj 5 1
        0x92, 0x01, 0x13, 0x44, // get_child 1 -> g3, label on false: not taken
        0x99, 0x03, // remove_obj 3
        0x91, 0x02, 0x14, 0x44, // get_sibling 2 -> g4
        0x06, 0x05, 0x01, 0xc3, // jin 5 1: taken, to the next instruction
        0xb4, // skipped
        0x0b, 0x02, 0x09, // set_attr 2 9
        0x0a, 0x02, 0x09, 0xc3, // test_attr 2 9: taken
        0xb4, // skipped
        0x0c, 0x02, 0x09, // clear_attr 2 9
        0x0a, 0x02, 0x09, 0xc3, // test_attr 2 9: not taken
    ];
    let (m, _) = run(&code, 12);
    assert_eq!(global(&m, 0), 2);
    assert_eq!(global(&m, 1), 0);
    assert_eq!(global(&m, 2), 1);
    assert_eq!(global(&m, 3), 5);
    assert_eq!(global(&m, 4), 4);
    assert_eq!(m.memory.get_object_sibling(5), Some(2));
    assert_eq!(m.memory.get_object_parent(3), 0);
    assert!(!m.memory.test_attr(2, 9));
    assert_eq!(m.get_pc(), CODE + code.len());
}

#[test]
fn property_instructions() {
    let code = [
        0x11, 0x01, 0x14, 0x10, // get_prop 1 20 -> g0
        0x11, 0x01, 0x05, 0x11, // get_prop 1 5 -> g1 (the default)
        0x12, 0x01, 0x07, 0x12, // get_prop_addr 1 7 -> g2
        0xa4, 0x12, 0x13, // get_prop_len g2 -> g3
        0x13, 0x01, 0x14, 0x14, // get_next_prop 1 20 -> g4
        0xe3, 0x53, 0x01, 0x14, 0xbe, 0xef, // put_prop 1 20 0xbeef
        0x11, 0x01, 0x14, 0x15, // get_prop 1 20 -> g5
        0x84, 0x00, 0x00, 0x16, // get_prop_len 0 -> g6
    ];
    let (m, _) = run(&code, 8);
    assert_eq!(global(&m, 0), 0xabcd);
    assert_eq!(global(&m, 1), 0x1234);
    assert_eq!(global(&m, 2), 0xd7);
    assert_eq!(global(&m, 3), 1);
    assert_eq!(global(&m, 4), 7);
    assert_eq!(global(&m, 5), 0xbeef);
    assert_eq!(global(&m, 6), 0);
}

#[test]
fn printing() {
    let mut code = vec![0xb2];
    code.extend(pack(&[13, 10, 17, 17, 20])); // print "hello"
    code.extend([
        0xbb, // new_line
        0xe6, 0x3f, 0xff, 0xfe, // print_num -2
        0xe5, 0x7f, 0x41, // print_char 'A'
        0xe6, 0x3f, 0x30, 0x39, // print_num 12345
        0xe6, 0x7f, 0x00, // print_num 0
        0x8d, 0x03, 0x40, // print_paddr 0x340 * 2 = 0x680
        0x87, 0x06, 0x80, // print_addr 0x680
        0x9a, 0x01, // print_obj 1
        0xe6, 0x3f, 0x80, 0x00, // print_num -32768
        0xba, // quit
    ]);
    let mut m = machine(&code);
    let mut out = String::from("> ");
    assert_eq!(m.exec(&mut out, 100), ZMachineExecResult::Exit);
    assert_eq!(out, "> hello\n-2A123450hellohellobox-32768");
    assert_eq!(m.fault, None);
}

#[test]
fn print_ret_prints_and_returns_one() {
    let mut routine = vec![0xb3];
    routine.extend(pack(&[13, 14])); // "hi"
    let mut m = machine_with(&CALL, &routine);
    let mut out = String::new();
    assert_eq!(m.exec(&mut out, 2), ZMachineExecResult::Continue);
    assert_eq!(out, "hi");
    assert_eq!(m.stack.len(), 1);
    assert_eq!(global(&m, 5), 1);
}

#[test]
fn ret_popped_and_pop() {
    // in the routine: push 7, push 8, pop, ret_popped
    let mut m = machine_with(&CALL, &[0xe8, 0x7f, 0x07, 0xe8, 0x7f, 0x08, 0xb9, 0xb8]);
    let mut out = String::new();
    assert_eq!(m.exec(&mut out, 5), ZMachineExecResult::Continue);
    assert_eq!(m.stack.len(), 1);
    assert_eq!(global(&m, 5), 7);
}

#[test]
fn read_suspends_and_input_resumes() {
    let code = [
        0xe4, 0x0f, 0x06, 0x00, 0x06, 0x40, // sread 0x600 0x640
        0x14, 0x01, 0x01, 0x10, // add 1 1 -> g0
        0xba, // quit
    ];
    let mut m = machine(&code);
    let mut out = String::new();
    assert_eq!(m.exec(&mut out, 100), ZMachineExecResult::NeedInput);
    assert_eq!(m.input_buffer, Some((0x600, 0x640)));
    assert_eq!(m.get_pc(), CODE + 6);
    assert!(m.send_input("Open MAILBOX\n"));
    assert_eq!(m.input_buffer, None);
    assert_eq!(&m.memory.bytes[0x601..0x60f], b"open mailbox\n\0");
    assert_eq!(m.memory.read_byte(0x641), 2);
    assert_eq!(m.memory.read_word(0x642).0, (DICT + 12) as u16);
    assert_eq!(m.memory.read_byte(0x644), 4);
    assert_eq!(m.memory.read_byte(0x645), 1);
    assert_eq!(m.memory.read_word(0x646).0, (DICT + 5) as u16);
    assert_eq!(m.memory.read_byte(0x648), 7);
    assert_eq!(m.memory.read_byte(0x649), 6);
    assert_eq!(m.exec(&mut out, 100), ZMachineExecResult::Exit);
    assert_eq!(global(&m, 0), 2);
    assert_eq!(m.fault, None);
}

#[test]
fn input_without_a_pending_read_is_not_taken() {
    let mut m = machine(&[0xba]);
    let before = m.memory.bytes.clone();
    assert!(!m.send_input("open"));
    assert_eq!(m.memory.bytes, before);
}

#[test]
fn input_that_does_not_fit_is_not_taken() {
    let mut m = machine(&[0xe4, 0x0f, 0x07, 0xfa, 0x06, 0x40]);
    let mut out = String::new();
    assert_eq!(m.exec_one(&mut out), ZMachineExecResult::NeedInput);
    let before = m.memory.bytes.clone();
    assert!(!m.send_input("open mailbox"));
    assert_eq!(m.memory.bytes, before);
    assert_eq!(m.input_buffer, None);
}

#[test]
fn random_numbers_lie_in_their_range() {
    let code = [0xe7, 0x7f, 0x06, 0x10, 0x8c, 0xff, 0xfb]; // random 6 -> g0; jump back
    let mut m = machine(&code);
    let mut out = String::new();
    let mut seen = [false; 7];
    for _ in 0..400 {
        assert_eq!(m.exec_one(&mut out), ZMachineExecResult::Continue);
        let v = global(&m, 0);
        assert!(1 <= v && v <= 6);
        seen[v as usize] = true;
        assert_eq!(m.exec_one(&mut out), ZMachineExecResult::Continue);
        assert_eq!(m.get_pc(), CODE);
    }
    assert!(seen[1..].iter().all(|s| *s));
}

#[test]
fn random_of_one_is_one() {
    let (m, _) = run(&[0xe7, 0x7f, 0x01, 0x10], 1);
    assert_eq!(global(&m, 0), 1);
}

#[test]
fn random_seeding_stores_zero() {
    let code = [
        0xe7, 0x3f, 0xff, 0xf0, 0x10, // random -16 -> g0
        0xe7, 0x7f, 0x64, 0x11, // random 100 -> g1
        0xe7, 0x7f, 0x00, 0x12, // random 0 -> g2
    ];
    let (a, _) = run(&code, 3);
    let (b, _) = run(&code, 2);
    assert_eq!(global(&a, 0), 0);
    assert_eq!(global(&a, 2), 0);
    assert_eq!(a.rng.runs, 0);
    // the same seed gives the same number
    assert_eq!(global(&a, 1), global(&b, 1));
    assert_eq!(b.rng.seed, 16);
}

#[test]
fn seeded_generators_agree() {
    let mut a = ZRng::new();
    let mut b = ZRng::new();
    a.seed_with(1234);
    b.seed_with(1234);
    for _ in 0..50 {
        let x = a.range(1000);
        assert_eq!(x, b.range(1000));
        assert!(1 <= x && x <= 1000);
    }
    a.seed();
    assert_eq!(a.runs, 0);
    assert_eq!(b.seed, 1234);
}

fn fault_of(code: &[u8], steps: u64) -> (ZMachine, Option<Diagnostic>) {
    let mut m = machine(code);
    let mut out = String::new();
    assert_eq!(m.exec(&mut out, steps), ZMachineExecResult::Exit);
    assert!(m.is_loaded());
    let fault = m.fault;
    (m, fault)
}

#[test]
fn unknown_opcodes_are_fatal() {
    // 0OP 15
    let (m, fault) = fault_of(&[0xbf], 5);
    assert_eq!(fault, Some(Diagnostic { pc: CODE, opcode: 0xbf }));
    assert_eq!(m.get_pc(), CODE);
    // 2OP 0
    let (_, fault) = fault_of(&[0x00, 0x01, 0x02], 5);
    assert_eq!(fault, Some(Diagnostic { pc: CODE, opcode: 0x00 }));
    // VAR 31
    let (_, fault) = fault_of(&[0xff, 0x7f, 0x01], 5);
    assert_eq!(fault, Some(Diagnostic { pc: CODE, opcode: 0xff }));
    // 1OP 8
    let (_, fault) = fault_of(&[0x98, 0x01], 5);
    assert_eq!(fault, Some(Diagnostic { pc: CODE, opcode: 0x98 }));
}

#[test]
fn stack_underflow_is_fatal() {
    let (_, fault) = fault_of(&[0xb9], 5);
    assert_eq!(fault, Some(Diagnostic { pc: CODE, opcode: 0xb9 }));
    // add sp 1 on an empty stack, behind one good instruction
    let (m, fault) = fault_of(&[0x14, 0x01, 0x01, 0x10, 0x54, 0x00, 0x01, 0x10], 5);
    assert_eq!(fault, Some(Diagnostic { pc: CODE + 4, opcode: 0x54 }));
    assert_eq!(global(&m, 0), 2);
    // a return from the first routine
    let (m, fault) = fault_of(&[0xb0], 5);
    assert_eq!(fault, Some(Diagnostic { pc: CODE, opcode: 0xb0 }));
    assert_eq!(m.stack.len(), 1);
}

#[test]
fn object_zero_is_fatal() {
    let (_, fault) = fault_of(&[0x93, 0x00, 0x10], 5);
    assert_eq!(fault, Some(Diagnostic { pc: CODE, opcode: 0x93 }));
    let (_, fault) = fault_of(&[0x0e, 0x00, 0x01], 5);
    assert_eq!(fault, Some(Diagnostic { pc: CODE, opcode: 0x0e }));
    let (_, fault) = fault_of(&[0x0e, 0x02, 0x00], 5);
    assert_eq!(fault, Some(Diagnostic { pc: CODE, opcode: 0x0e }));
    let (_, fault) = fault_of(&[0x9a, 0x00], 5);
    assert_eq!(fault, Some(Diagnostic { pc: CODE, opcode: 0x9a }));
    // property 0
    let (_, fault) = fault_of(&[0x11, 0x01, 0x00, 0x10], 5);
    assert_eq!(fault, Some(Diagnostic { pc: CODE, opcode: 0x11 }));
    // test_attr of object 0 is no failure: it is false
    let (m, _) = run(&[0x0a, 0x00, 0x03, 0xc8], 1);
    assert_eq!(m.get_pc(), CODE + 4);
}

#[test]
fn other_failures() {
    // division by zero
    let (_, fault) = fault_of(&[0x17, 0x05, 0x00, 0x10], 5);
    assert_eq!(fault, Some(Diagnostic { pc: CODE, opcode: 0x17 }));
    let (_, fault) = fault_of(&[0x18, 0x05, 0x00, 0x10], 5);
    assert_eq!(fault, Some(Diagnostic { pc: CODE, opcode: 0x18 }));
    // a jump out of the image
    let (_, fault) = fault_of(&[0x8c, 0x7f, 0xff], 5);
    assert_eq!(fault, Some(Diagnostic { pc: CODE, opcode: 0x8c }));
    let (_, fault) = fault_of(&[0x8c, 0x80, 0x00], 5);
    assert_eq!(fault, Some(Diagnostic { pc: CODE, opcode: 0x8c }));
    // a store to a local that does not exist
    let (_, fault) = fault_of(&[0x14, 0x01, 0x01, 0x01], 5);
    assert_eq!(fault, Some(Diagnostic { pc: CODE, opcode: 0x14 }));
    // a routine with more than 15 locals
    let mut m = machine_with(&CALL, &[]);
    m.memory.set_byte(ROUTINE, 16);
    let mut out = String::new();
    assert_eq!(m.exec_one(&mut out), ZMachineExecResult::Exit);
    assert_eq!(m.fault, Some(Diagnostic { pc: CODE, opcode: 0xe0 }));
    assert_eq!(m.stack.len(), 1);
    // a load of a word outside the image
    let (_, fault) = fault_of(&[0xcf, 0x1f, 0x07, 0xff, 0x00, 0x10], 5);
    assert_eq!(fault, Some(Diagnostic { pc: CODE, opcode: 0xcf }));
    // an attribute above 31
    let (_, fault) = fault_of(&[0x0b, 0x02, 0x20], 5);
    assert_eq!(fault, Some(Diagnostic { pc: CODE, opcode: 0x0b }));
}

#[test]
fn an_instruction_that_leaves_the_image_is_fatal() {
    let mut bytes = image(&[], &[]);
    put_word(&mut bytes, 6, 0x07fe);
    bytes[0x7fe] = 0x14;
    bytes[0x7ff] = 0x01;
    let mut m = ZMachine::new();
    assert_eq!(m.load(bytes), Ok(()));
    let mut out = String::new();
    assert_eq!(m.exec_one(&mut out), ZMachineExecResult::Exit);
    assert_eq!(m.fault, Some(Diagnostic { pc: 0x7fe, opcode: 0x14 }));
    // new_line as the last byte: the routine cannot go on behind it
    let mut bytes = image(&[], &[]);
    put_word(&mut bytes, 6, 0x07ff);
    bytes[0x7ff] = 0xbb;
    let mut m = ZMachine::new();
    assert_eq!(m.load(bytes), Ok(()));
    assert_eq!(m.exec_one(&mut out), ZMachineExecResult::Exit);
    assert_eq!(m.get_pc(), 0x7ff);
}

#[test]
fn quit_ends_without_a_diagnostic() {
    let mut m = machine(&[0xba]);
    let mut out = String::new();
    assert_eq!(m.exec_one(&mut out), ZMachineExecResult::Exit);
    assert_eq!(m.fault, None);
    assert_eq!(m.get_pc(), CODE);
}

#[test]
fn exec_stops_after_max_steps() {
    let code = [0x95, 0x10, 0x95, 0x10, 0x95, 0x10, 0xba];
    let mut m = machine(&code);
    let mut out = String::new();
    assert_eq!(m.exec(&mut out, 0), ZMachineExecResult::Continue);
    assert_eq!(global(&m, 0), 0);
    assert_eq!(m.exec(&mut out, 2), ZMachineExecResult::Continue);
    assert_eq!(global(&m, 0), 2);
    assert_eq!(m.exec(&mut out, 2), ZMachineExecResult::Exit);
    assert_eq!(global(&m, 0), 3);
}

#[test]
fn the_machine_can_run_after_every_instruction() {
    let mut routine = vec![0xe8, 0x7f, 0x07, 0xb3];
    routine.extend(pack(&[13, 14]));
    let mut code = CALL.to_vec();
    code.extend([0x95, 0x15, 0x90, 0x00, 0xc2, 0xb9]);
    let mut m = machine_with(&code, &routine);
    let mut out = String::new();
    assert!(m.can_run());
    let mut steps = 0;
    loop {
        let result = m.exec_one(&mut out);
        steps += 1;
        assert!(m.can_run());
        assert!(m.stack.len() >= 1);
        assert!(m.get_pc() < m.memory.len());
        if result != ZMachineExecResult::Continue {
            break;
        }
    }
    // the pop on the empty stack ends the run
    assert_eq!(steps, 6);
    assert_eq!(m.fault, Some(Diagnostic { pc: CODE + 13, opcode: 0xb9 }));
    assert!(!ZMachine::new().can_run());
}

#[test]
fn arguments_overwrite_the_first_locals() {
    // a routine with the locals 10, 20 and 20, called with the arguments 1 and 2
    let mut bytes = image(&[0xe0, 0x17, 0x03, 0xc0, 0x01, 0x02, 0x15], &[]);
    bytes[ROUTINE] = 3;
    put_word(&mut bytes, ROUTINE + 1, 10);
    put_word(&mut bytes, ROUTINE + 3, 20);
    put_word(&mut bytes, ROUTINE + 5, 20);
    bytes[ROUTINE + 7] = 0x9b; // ret 99
    bytes[ROUTINE + 8] = 0x63;
    let mut m = ZMachine::new();
    assert_eq!(m.load(bytes), Ok(()));
    let mut out = String::new();
    assert_eq!(m.exec_one(&mut out), ZMachineExecResult::Continue);
    assert_eq!(m.stack[1].locals, vec![1, 2, 20]);
    assert_eq!(m.get_pc(), ROUTINE + 7);
    assert_eq!(m.exec_one(&mut out), ZMachineExecResult::Continue);
    assert_eq!(global(&m, 5), 99);
    assert_eq!(m.get_pc(), CODE + 7);
    assert_eq!(m.stack.len(), 1);
}

#[test]
fn seeds_from_the_clock() {
    assert_eq!(seed_of(None), 0);
    assert_eq!(seed_of(Some(0)), 0);
    assert_eq!(seed_of(Some(1_700_000_000_123)), 1_700_000_000_123);
    assert_eq!(seed_of(Some(u64::MAX as u128)), u64::MAX);
    // the milliseconds are cut to 64 bits
    assert_eq!(seed_of(Some((1u128 << 64) + 5)), 5);
    assert_eq!(seed_of(Some(u128::MAX)), u64::MAX);
}

#[test]
fn a_generator_from_a_seed() {
    let mut a = ZRng::from_seed(77);
    let mut b = ZRng::new();
    assert_eq!((a.seed, a.runs), (77, 0));
    assert_eq!(b.runs, 0);
    b.seed_with(77);
    for _ in 0..50 {
        let x = a.range(500);
        assert_eq!(x, b.range(500));
        assert!(1 <= x && x <= 500);
    }
    assert_eq!((a.seed, a.runs), (77, 0));
    assert_eq!(ZRng::default().runs, 0);
}
