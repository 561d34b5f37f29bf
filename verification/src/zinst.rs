//! The instruction decoder: from bytes to a classified instruction with its
//! typed operands.

use vstd::prelude::*;
use vstd::slice::*;
use crate::bits::{
    field_get, field_mask, lemma_field_bound, lemma_shift_values, pack_word, word_of, BitField,
};
use crate::constants::{
    LARGE_CONSTANT, OMITTED, SHORT_INSTRUCTION, SMALL_CONSTANT, VARIABLE, VAR_INSTRUCTION,
};

verus! {

/// The fields of an opcode byte that tell the instruction's form.
#[derive(Clone, Copy, Debug)]
pub struct Opcode {
    pub instruction_type: BitField<2, 6>,
}

impl Opcode {
    pub fn new(val: u8) -> (r: Self)
        ensures
            r.instruction_type.val == val,
    {
        Opcode { instruction_type: BitField::new(val as u16) }
    }
}

/// The fields of the opcode byte of a long-form instruction.
#[derive(Clone, Copy, Debug)]
pub struct LongInstruction {
    pub arg1_type: BitField<1, 6>,
    pub arg2_type: BitField<1, 5>,
    pub opcode: BitField<5, 0>,
}

impl LongInstruction {
    pub fn new(val: u8) -> (r: Self)
        ensures
            r.arg1_type.val == val,
            r.arg2_type.val == val,
            r.opcode.val == val,
    {
        LongInstruction {
            arg1_type: BitField::new(val as u16),
            arg2_type: BitField::new(val as u16),
            opcode: BitField::new(val as u16),
        }
    }
}

/// The fields of the opcode byte of a short-form instruction.
#[derive(Clone, Copy, Debug)]
pub struct ShortInstruction {
    pub arg_type: BitField<2, 4>,
    pub opcode: BitField<4, 0>,
}

impl ShortInstruction {
    pub fn new(val: u8) -> (r: Self)
        ensures
            r.arg_type.val == val,
            r.opcode.val == val,
    {
        ShortInstruction { arg_type: BitField::new(val as u16), opcode: BitField::new(val as u16) }
    }
}

/// The fields of the first two bytes of a variable-form instruction, the
/// opcode byte being the high byte.
#[derive(Clone, Copy, Debug)]
pub struct VarInstruction {
    pub is_var: BitField<1, 13>,
    pub opcode: BitField<5, 8>,
    pub arg1_type: BitField<2, 6>,
    pub arg2_type: BitField<2, 4>,
    pub arg3_type: BitField<2, 2>,
    pub arg4_type: BitField<2, 0>,
}

impl VarInstruction {
    pub fn new(val: u16) -> (r: Self)
        ensures
            r.is_var.val == val,
            r.opcode.val == val,
            r.arg1_type.val == val,
            r.arg2_type.val == val,
            r.arg3_type.val == val,
            r.arg4_type.val == val,
    {
        VarInstruction {
            is_var: BitField::new(val),
            opcode: BitField::new(val),
            arg1_type: BitField::new(val),
            arg2_type: BitField::new(val),
            arg3_type: BitField::new(val),
            arg4_type: BitField::new(val),
        }
    }

    /// The type of operand `slot`, counted from 0.
    pub open spec fn slot_type(val: u16, slot: int) -> u16 {
        if slot == 0 {
            field_get(val, 2, 6)
        } else if slot == 1 {
            field_get(val, 2, 4)
        } else if slot == 2 {
            field_get(val, 2, 2)
        } else {
            field_get(val, 2, 0)
        }
    }

    pub fn arg_type(&self, slot: usize) -> (r: u8)
        requires
            slot < 4,
            self.arg1_type.val == self.arg2_type.val,
            self.arg1_type.val == self.arg3_type.val,
            self.arg1_type.val == self.arg4_type.val,
        ensures
            r == Self::slot_type(self.arg1_type.val, slot as int),
            r < 4,
    {
        proof {
            lemma_shift_values();
        }
        if slot == 0 {
            self.arg1_type.value_of() as u8
        } else if slot == 1 {
            self.arg2_type.value_of() as u8
        } else if slot == 2 {
            self.arg3_type.value_of() as u8
        } else {
            self.arg4_type.value_of() as u8
        }
    }
}

/// The fields of a branch label, its first byte being the high byte.
#[derive(Clone, Copy, Debug)]
pub struct BranchLabel {
    pub invert: BitField<1, 15>,
    pub offset: BitField<1, 14>,
    pub unsigned_value: BitField<6, 8>,
    pub sign: BitField<1, 13>,
    pub signed_value: BitField<14, 0>,
}

impl BranchLabel {
    pub fn new(val: u16) -> (r: Self)
        ensures
            r.invert.val == val,
            r.offset.val == val,
            r.unsigned_value.val == val,
            r.sign.val == val,
            r.signed_value.val == val,
    {
        BranchLabel {
            invert: BitField::new(val),
            offset: BitField::new(val),
            unsigned_value: BitField::new(val),
            sign: BitField::new(val),
            signed_value: BitField::new(val),
        }
    }
}

/// The four families of instructions.
#[derive(Clone, Copy, Debug, PartialEq, Eq, Structural)]
pub enum InstructionType {
    Long,
    Short,
    Variable,
    ZeroOps,
}

/// Where a value is read from or written to.
#[derive(Clone, Copy, Debug, PartialEq, Eq, Structural)]
pub enum Address {
    /// The top of the current routine's evaluation stack.
    StackPointer,
    /// A local variable of the current routine, counted from 0.
    Local(u16),
    /// A global variable, counted from 0.
    Global(u16),
    /// The word at a byte address.
    Word(u16),
    /// The byte at a byte address.
    Byte(u16),
}

impl Default for Address {
    fn default() -> (r: Address)
        ensures
            r == Address::StackPointer,
    {
        Address::StackPointer
    }
}

impl Address {
    /// The place that a variable number names: 0 is the stack, 1 to 15 are the
    /// locals, 16 and above are the globals.
    pub open spec fn of_spec(addr: u16) -> Address {
        if addr == 0 {
            Address::StackPointer
        } else if addr < 0x10 {
            Address::Local((addr - 1) as u16)
        } else {
            Address::Global((addr - 0x10) as u16)
        }
    }

    pub fn of(addr: u16) -> (r: Address)
        ensures
            r == Self::of_spec(addr),
    {
        if addr == 0 {
            Address::StackPointer
        } else if addr < 0x10 {
            Address::Local(addr - 1)
        } else {
            Address::Global(addr - 0x10)
        }
    }

    pub open spec fn addr_spec(self) -> u16 {
        match self {
            Address::StackPointer => 0,
            Address::Local(v) => v,
            Address::Global(v) => v,
            Address::Word(v) => v,
            Address::Byte(v) => v,
        }
    }

    /// The number inside the address; 0 for the stack.
    pub fn addr(&self) -> (r: u16)
        ensures
            r == self.addr_spec(),
    {
        match self {
            Address::StackPointer => 0,
            Address::Local(v) => *v,
            Address::Global(v) => *v,
            Address::Word(v) => *v,
            Address::Byte(v) => *v,
        }
    }
}

/// An operand as the decoder found it.
#[derive(Clone, Copy, Debug, PartialEq, Eq, Structural)]
pub enum Operand {
    SmallConstant(u16),
    Variable(Address),
    LargeConstant(u16),
}

impl Operand {
    pub open spec fn value_spec(self) -> u16 {
        match self {
            Operand::SmallConstant(v) => v,
            Operand::LargeConstant(v) => v,
            Operand::Variable(a) => a.addr_spec(),
        }
    }

    /// The constant, or for a variable the number inside its address.
    pub fn value(&self) -> (r: u16)
        ensures
            r == self.value_spec(),
    {
        match self {
            Operand::SmallConstant(v) => *v,
            Operand::LargeConstant(v) => *v,
            Operand::Variable(v) => v.addr(),
        }
    }
}

/// What an instruction is, apart from how its operands are stored.
pub struct InstructionView {
    pub opcode: u8,
    pub ty: InstructionType,
    pub two_op: bool,
    pub ops: Seq<Operand>,
}

/// A decoded instruction. `two_op` tells the two-operand opcodes from the
/// others: it holds for the long form, and for the variable form when bit 5 of
/// the opcode byte is clear.
#[derive(Debug)]
pub struct Instruction {
    pub opcode: u8,
    pub ty: InstructionType,
    pub two_op: bool,
    pub ops: Vec<Operand>,
}

impl View for Instruction {
    type V = InstructionView;

    open spec fn view(&self) -> InstructionView {
        InstructionView { opcode: self.opcode, ty: self.ty, two_op: self.two_op, ops: self.ops@ }
    }
}

/// The form that the opcode byte `b` announces: variable when its top two bits
/// are 11, short when they are 10, long otherwise.
pub open spec fn form_of(b: u8) -> InstructionType {
    if field_get(b as u16, 2, 6) == VAR_INSTRUCTION {
        InstructionType::Variable
    } else if field_get(b as u16, 2, 6) == SHORT_INSTRUCTION {
        InstructionType::Short
    } else {
        InstructionType::Long
    }
}

/// The bytes that an operand of type `ty` takes.
pub open spec fn operand_size(ty: u8) -> int {
    if ty == LARGE_CONSTANT {
        2
    } else if ty == SMALL_CONSTANT || ty == VARIABLE {
        1
    } else {
        0
    }
}

/// The operand of type `ty` stored at the start of `mem`, with its size; `None`
/// for an omitted operand.
pub open spec fn operand_spec(ty: u8, mem: Seq<u8>) -> Option<(Operand, usize)> {
    if ty == LARGE_CONSTANT {
        Some((Operand::LargeConstant(word_of(mem[0], mem[1])), 2usize))
    } else if ty == SMALL_CONSTANT {
        Some((Operand::SmallConstant(mem[0] as u16), 1usize))
    } else if ty == VARIABLE {
        Some((Operand::Variable(Address::of_spec(mem[0] as u16)), 1usize))
    } else {
        None
    }
}

/// One operand of a long-form instruction: a variable when `is_var`, else a
/// small constant.
pub open spec fn long_operand(is_var: bool, byte: u8) -> Operand {
    if is_var {
        Operand::Variable(Address::of_spec(byte as u16))
    } else {
        Operand::SmallConstant(byte as u16)
    }
}

/// The operands of a variable-form instruction from slot `slot` on, read from
/// offset `at`, appended to `acc`, with the offset behind the last one. The
/// first omitted type ends the list. `None` when an operand lies outside `mem`.
pub open spec fn var_operands(mem: Seq<u8>, types: u16, slot: int, at: int, acc: Seq<Operand>)
    -> Option<(Seq<Operand>, int)>
    decreases 4 - slot,
{
    if slot < 0 || slot >= 4 {
        Some((acc, at))
    } else {
        let ty = VarInstruction::slot_type(types, slot) as u8;
        if ty == OMITTED {
            Some((acc, at))
        } else if at + operand_size(ty) > mem.len() {
            None
        } else {
            var_operands(
                mem,
                types,
                slot + 1,
                at + operand_size(ty),
                acc.push(operand_spec(ty, mem.skip(at)).unwrap().0),
            )
        }
    }
}

/// The instruction at the start of `mem` and the bytes that its opcode and
/// operands take; `None` when it does not lie inside `mem`. Store bytes and
/// branch labels are not part of it.
pub open spec fn decode_spec(mem: Seq<u8>) -> Option<(InstructionView, int)> {
    if mem.len() == 0 {
        None
    } else {
        let b = mem[0];
        match form_of(b) {
            InstructionType::Long => {
                if mem.len() < 3 {
                    None
                } else {
                    Some(
                        (
                            InstructionView {
                                opcode: field_get(b as u16, 5, 0) as u8,
                                ty: InstructionType::Long,
                                two_op: true,
                                ops: seq![
                                    long_operand(field_get(b as u16, 1, 6) == 1, mem[1]),
                                    long_operand(field_get(b as u16, 1, 5) == 1, mem[2]),
                                ],
                            },
                            3int,
                        ),
                    )
                }
            },
            InstructionType::Variable => {
                if mem.len() < 2 {
                    None
                } else {
                    let w = word_of(b, mem[1]);
                    match var_operands(mem, w, 0, 2, Seq::empty()) {
                        None => None,
                        Some((ops, end)) => Some(
                            (
                                InstructionView {
                                    opcode: field_get(w, 5, 8) as u8,
                                    ty: InstructionType::Variable,
                                    two_op: field_get(w, 1, 13) == 0,
                                    ops,
                                },
                                end,
                            ),
                        ),
                    }
                }
            },
            _ => {
                let ty = field_get(b as u16, 2, 4) as u8;
                if 1 + operand_size(ty) > mem.len() {
                    None
                } else {
                    Some(
                        (
                            InstructionView {
                                opcode: field_get(b as u16, 4, 0) as u8,
                                ty: if ty == OMITTED {
                                    InstructionType::ZeroOps
                                } else {
                                    InstructionType::Short
                                },
                                two_op: false,
                                ops: if ty == OMITTED {
                                    Seq::empty()
                                } else {
                                    seq![operand_spec(ty, mem.skip(1)).unwrap().0]
                                },
                            },
                            1 + operand_size(ty),
                        ),
                    )
                }
            },
        }
    }
}

impl Opcode {
    /// The form that the opcode byte announces.
    pub fn instr_type(&self) -> (r: InstructionType)
        requires
            self.instruction_type.val <= 0xff,
        ensures
            r == form_of(self.instruction_type.val as u8),
    {
        let bits = self.instruction_type.value_of();
        if bits == 3 {
            InstructionType::Variable
        } else if bits == 2 {
            InstructionType::Short
        } else {
            InstructionType::Long
        }
    }
}

impl Instruction {
    /// Decodes the instruction at the start of `mem`, and says how many bytes
    /// its opcode and operands take.
    pub fn from_mem(mem: &[u8]) -> (r: (Instruction, usize))
        requires
            decode_spec(mem@).is_some(),
        ensures
            decode_spec(mem@) == Some((r.0@, r.1 as int)),
    {
        Instruction::decode(mem).unwrap()
    }

    /// Decodes the instruction at the start of `mem`; `None` when `mem` ends
    /// before the instruction does.
    #[verifier::rlimit(50)]
    pub fn decode(mem: &[u8]) -> (r: Option<(Instruction, usize)>)
        ensures
            match r {
                Some((inst, len)) => decode_spec(mem@) == Some((inst@, len as int)) && 1 <= len
                    <= mem@.len() && inst.ops@.len() <= 4,
                None => decode_spec(mem@).is_none(),
            },
    {
        if mem.len() == 0 {
            return None;
        }
        let b = mem[0];
        let op = Opcode::new(b);
        proof {
            lemma_shift_values();
        }
        match op.instr_type() {
            InstructionType::Long => {
                if mem.len() < 3 {
                    return None;
                }
                let instr = LongInstruction::new(b);
                let mut operands: Vec<Operand> = Vec::new();
                let first = mem[1];
                if instr.arg1_type.is_set() {
                    operands.push(Operand::Variable(Address::of(first as u16)));
                } else {
                    operands.push(Operand::SmallConstant(first as u16));
                }
                let second = mem[2];
                if instr.arg2_type.is_set() {
                    operands.push(Operand::Variable(Address::of(second as u16)));
                } else {
                    operands.push(Operand::SmallConstant(second as u16));
                }
                proof {
                    lemma_flag_is_set(b as u16);
                    assert(operands@ =~= seq![
                        long_operand(field_get(b as u16, 1, 6) == 1, mem@[1]),
                        long_operand(field_get(b as u16, 1, 5) == 1, mem@[2]),
                    ]);
                }
                Some(
                    (
                        Instruction {
                            opcode: instr.opcode.value_of() as u8,
                            ty: InstructionType::Long,
                            two_op: true,
                            ops: operands,
                        },
                        3,
                    ),
                )
            },
            InstructionType::Variable => {
                if mem.len() < 2 {
                    return None;
                }
                let raw = pack_word(b, mem[1]);
                let instr = VarInstruction::new(raw);
                let mut operands: Vec<Operand> = Vec::new();
                let mut offset: usize = 2;
                let mut slot: usize = 0;
                while slot < 4
                    invariant
                        slot <= 4,
                        2 <= offset <= 2 + 2 * slot,
                        operands@.len() <= slot,
                        mem@.len() >= 2,
                        form_of(mem@[0]) == InstructionType::Variable,
                        raw == word_of(mem@[0], mem@[1]),
                        offset <= mem@.len(),
                        instr.arg1_type.val == raw,
                        instr.arg2_type.val == raw,
                        instr.arg3_type.val == raw,
                        instr.arg4_type.val == raw,
                        var_operands(mem@, raw, 0, 2, Seq::empty()) == var_operands(
                            mem@,
                            raw,
                            slot as int,
                            offset as int,
                            operands@,
                        ),
                    decreases 4 - slot,
                {
                    let ty = instr.arg_type(slot);
                    if ty == OMITTED {
                        slot = 4;
                    } else {
                        let size: usize = if ty == LARGE_CONSTANT {
                            2
                        } else {
                            1
                        };
                        if size > mem.len() - offset {
                            return None;
                        }
                        let rest = slice_subrange(mem, offset, mem.len());
                        assert(rest@ =~= mem@.skip(offset as int));
                        let (operand, used) = Instruction::extract_operand(&ty, rest).unwrap();
                        operands.push(operand);
                        offset = offset + used;
                        slot = slot + 1;
                    }
                }
                proof {
                    lemma_flag_is_set(raw);
                    lemma_field_bound(raw, 1, 13);
                }
                Some(
                    (
                        Instruction {
                            opcode: instr.opcode.value_of() as u8,
                            ty: InstructionType::Variable,
                            two_op: !instr.is_var.is_set(),
                            ops: operands,
                        },
                        offset,
                    ),
                )
            },
            _ => {
                let instr = ShortInstruction::new(b);
                let ty = instr.arg_type.value_of() as u8;
                let size: usize = if ty == LARGE_CONSTANT {
                    2
                } else if ty == OMITTED {
                    0
                } else {
                    1
                };
                if 1 + size > mem.len() {
                    return None;
                }
                let mut operands: Vec<Operand> = Vec::new();
                let mut offset: usize = 1;
                let rest = slice_subrange(mem, 1, mem.len());
                assert(rest@ =~= mem@.skip(1));
                if let Some((operand, used)) = Instruction::extract_operand(&ty, rest) {
                    operands.push(operand);
                    offset = offset + used;
                }
                let mut instr_type = InstructionType::Short;
                if operands.len() == 0 {
                    instr_type = InstructionType::ZeroOps;
                }
                proof {
                    if ty != OMITTED {
                        assert(operands@ =~= seq![operand_spec(ty, mem@.skip(1)).unwrap().0]);
                    } else {
                        assert(operands@ =~= Seq::empty());
                    }
                }
                Some(
                    (
                        Instruction {
                            opcode: instr.opcode.value_of() as u8,
                            ty: instr_type,
                            two_op: false,
                            ops: operands,
                        },
                        offset,
                    ),
                )
            },
        }
    }

    /// Reads one operand of type `ty` from the start of `mem`; `None` for an
    /// omitted operand.
    pub fn extract_operand(ty: &u8, mem: &[u8]) -> (r: Option<(Operand, usize)>)
        requires
            operand_size(*ty) <= mem@.len(),
        ensures
            r == operand_spec(*ty, mem@),
            r.is_some() ==> r.unwrap().1 == operand_size(*ty),
            r.is_none() <==> operand_size(*ty) == 0,
    {
        if *ty == LARGE_CONSTANT {
            Some((Operand::LargeConstant(pack_word(mem[0], mem[1])), 2))
        } else if *ty == SMALL_CONSTANT {
            Some((Operand::SmallConstant(mem[0] as u16), 1))
        } else if *ty == VARIABLE {
            Some((Operand::Variable(Address::of(mem[0] as u16)), 1))
        } else {
            None
        }
    }
}

/// A one-bit field is set exactly when its value is 1.
pub proof fn lemma_flag_is_set(v: u16)
    by (bit_vector)
    ensures
        (v & field_mask(1, 6) == field_mask(1, 6)) == (field_get(v, 1, 6)
            == 1),
        (v & field_mask(1, 5) == field_mask(1, 5)) == (field_get(v, 1, 5)
            == 1),
        (v & field_mask(1, 13) == field_mask(1, 13)) == (field_get(
            v,
            1,
            13,
        ) == 1),
        (v & field_mask(1, 14) == field_mask(1, 14)) == (field_get(
            v,
            1,
            14,
        ) == 1),
        (v & field_mask(1, 15) == field_mask(1, 15)) == (field_get(
            v,
            1,
            15,
        ) == 1),
{
}

} // verus!
