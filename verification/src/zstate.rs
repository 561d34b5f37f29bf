//! What the machine is and what one instruction does to it, as a model:
//! the call stack and the image as sequences, and each instruction as a
//! function from state to state.

use vstd::prelude::*;
use crate::bits::{field_get, lo_byte, word_of};
use crate::zinst::{decode_spec, Address, InstructionType, InstructionView, Operand};
use crate::zmath::{signed_of, trunc_div, trunc_rem, word_of_int};
use crate::zmemory::{word_at, MemView, HEADER_BYTES};
use crate::zstr::packed_len;

verus! {

/// The most locals that a routine can have.
pub const MAX_LOCALS: usize = 15;

/// What a branch label asks for when the branch is taken.
#[derive(Clone, Copy, Debug, PartialEq, Eq, Structural)]
pub enum Offset {
    /// Return 0 from the routine.
    RFalse,
    /// Return 1 from the routine.
    RTrue,
    /// Jump by the offset of a one-byte label.
    Unsigned(u8),
    /// Jump by the offset of a two-byte label.
    Signed(i16),
}

/// A branch label: the outcome of the test on which the branch is taken, and
/// what the branch does.
#[derive(Clone, Copy, Debug, PartialEq, Eq, Structural)]
pub struct BranchOffset {
    pub target: bool,
    pub offset: Offset,
}

impl BranchOffset {
    pub fn new(target: bool, offset: Offset) -> (r: BranchOffset)
        ensures
            r == (BranchOffset { target, offset }),
    {
        BranchOffset { target, offset }
    }

    pub fn target(&self) -> (r: &bool)
        ensures
            *r == self.target,
    {
        &self.target
    }

    pub fn offset(&self) -> (r: &Offset)
        ensures
            *r == self.offset,
    {
        &self.offset
    }
}

/// How a call of the engine ends.
#[derive(Clone, Copy, Debug, PartialEq, Eq, Structural)]
pub enum ZMachineExecResult {
    /// The program waits for a line of input.
    NeedInput,
    /// The program can run on.
    Continue,
    /// The program has ended, or has failed; a failure leaves a diagnostic.
    Exit,
}

/// Where a fatal failure happened: the address of the instruction and its
/// opcode byte.
#[derive(Clone, Copy, Debug, PartialEq, Eq, Structural)]
pub struct Diagnostic {
    pub pc: usize,
    pub opcode: u8,
}

/// How one instruction ends.
#[derive(Clone, Copy, Debug, PartialEq, Eq, Structural)]
pub enum Flow {
    Next,
    NeedInput,
    Quit,
    Fault,
}

/// One routine call: its locals, its evaluation stack with the top last, the
/// place for its result, and the address of its next instruction.
pub struct FrameView {
    pub locals: Seq<u16>,
    pub stack: Seq<u16>,
    pub ret_addr: Address,
    pub pc: usize,
}

/// The machine: the image, the call stack with the running routine last, the
/// buffers of a pending read, the diagnostic of the last failure, and the
/// seed that the random generator was last given.
pub struct MachineView {
    pub mem: MemView,
    pub frames: Seq<FrameView>,
    pub input: Option<(u16, u16)>,
    pub fault: Option<Diagnostic>,
    pub seed: u64,
}

/// What an instruction takes from outside the machine, if it asks: a number
/// from the random generator, and the time of the clock as a seed.
pub struct Chance {
    pub rnd: u16,
    pub clock: u64,
}

/// What an instruction leaves: the state, how it ended, and the text it
/// printed.
pub struct Effect {
    pub state: MachineView,
    pub flow: Flow,
    pub out: Seq<char>,
}

impl Effect {
    /// The effect leaves `state` and `flow`, and its text leads from the
    /// output `before` to the output `after`.
    pub open spec fn leaves(self, state: MachineView, flow: Flow, before: Seq<char>, after: Seq<char>)
        -> bool {
        self.state == state && self.flow == flow && after == before + self.out
    }
}

/// The branch label at `pc` with the bytes it takes: one byte when bit 6 of
/// the first is set, with the offset in its low six bits; else two bytes with
/// a signed offset of 14 bits. Bit 7 of the first byte is the outcome on which
/// the branch is taken. Offset 0 stands for a return of 0, offset 1 for a
/// return of 1. `None` when the label does not lie inside `bytes`.
pub open spec fn label_at(bytes: Seq<u8>, pc: int) -> Option<(BranchOffset, int)> {
    if pc < 0 || pc >= bytes.len() {
        None
    } else {
        let first = word_of(bytes[pc], 0);
        let target = field_get(first, 1, 15) == 1;
        if field_get(first, 1, 14) == 1 {
            let value = field_get(first, 6, 8);
            Some((BranchOffset { target, offset: offset_of(value as int, true) }, 1int))
        } else if pc + 1 >= bytes.len() {
            None
        } else {
            let both = word_of(bytes[pc], bytes[pc + 1]);
            let value = field_get(both, 14, 0);
            let signed = if field_get(both, 1, 13) == 1 {
                value - 0x4000
            } else {
                value as int
            };
            Some((BranchOffset { target, offset: offset_of(signed, false) }, 2int))
        }
    }
}

/// What a label's offset asks for.
pub open spec fn offset_of(value: int, short: bool) -> Offset {
    if value == 0 {
        Offset::RFalse
    } else if value == 1 {
        Offset::RTrue
    } else if short {
        Offset::Unsigned(value as u8)
    } else {
        Offset::Signed(value as i16)
    }
}

/// The digit `d` as a character.
pub open spec fn digit_char(d: int) -> char {
    (48 + d) as u8 as char
}

/// The decimal digits of `n`.
pub open spec fn digits(n: nat) -> Seq<char>
    decreases n,
{
    if n < 10 {
        seq![digit_char(n as int)]
    } else {
        digits(n / 10).push(digit_char((n % 10) as int))
    }
}

/// The decimal form of `n`, with a minus sign where it is negative.
pub open spec fn decimal(n: int) -> Seq<char> {
    if n < 0 {
        seq!['-'] + digits((-n) as nat)
    } else {
        digits(n as nat)
    }
}

impl MachineView {
    /// The image holds a header, the call stack is not empty, and the next
    /// instruction of every routine lies inside the image.
    pub open spec fn wf(self) -> bool {
        &&& HEADER_BYTES <= self.mem.bytes.len() <= usize::MAX
        &&& self.mem.globals_idx <= 0xffff
        &&& self.mem.objects_idx <= 0xffff
        &&& self.mem.abbrev_idx <= 0xffff
        &&& self.mem.dictionary_idx <= 0xffff
        &&& self.frames.len() >= 1
        &&& forall|i: int|
            0 <= i < self.frames.len() ==> (#[trigger] self.frames[i]).pc < self.mem.bytes.len()
                && self.frames[i].locals.len() <= MAX_LOCALS
    }

    /// The running routine.
    pub open spec fn top(self) -> FrameView {
        self.frames.last()
    }

    pub open spec fn set_top(self, frame: FrameView) -> MachineView {
        MachineView { frames: self.frames.update(self.frames.len() - 1, frame), ..self }
    }

    pub open spec fn with_mem(self, mem: MemView) -> MachineView {
        MachineView { mem, ..self }
    }

    /// The state with `v` on top of the running routine's stack.
    pub open spec fn push(self, v: u16) -> MachineView {
        self.set_top(FrameView { stack: self.top().stack.push(v), ..self.top() })
    }

    /// The state without the top of the running routine's stack, and that
    /// top; the state as it is and `None` where the stack is empty.
    pub open spec fn pop(self) -> (MachineView, Option<u16>) {
        if self.top().stack.len() == 0 {
            (self, None)
        } else {
            (
                self.set_top(FrameView { stack: self.top().stack.drop_last(), ..self.top() }),
                Some(self.top().stack.last()),
            )
        }
    }

    /// The value at a place, and the state after the read: reading the stack
    /// pops it. `None`, with the state as it is, for an empty stack, a local
    /// or global that does not exist, or an address outside the image.
    pub open spec fn read_var(self, a: Address) -> (MachineView, Option<u16>) {
        match a {
            Address::StackPointer => self.pop(),
            Address::Local(i) => if i < self.top().locals.len() {
                (self, Some(self.top().locals[i as int]))
            } else {
                (self, None)
            },
            Address::Global(g) => if self.mem.has_global(g as int) {
                (self, Some(self.mem.global(g as int)))
            } else {
                (self, None)
            },
            Address::Word(w) => if self.mem.has_word(w as int) {
                (self, Some(word_at(self.mem.bytes, w as int)))
            } else {
                (self, None)
            },
            Address::Byte(b) => if self.mem.has_byte(b as int) {
                (self, Some(self.mem.bytes[b as int] as u16))
            } else {
                (self, None)
            },
        }
    }

    /// The state after `v` was written to a place: writing the stack pushes;
    /// a byte takes the low byte of `v`. `None` for a local or global that
    /// does not exist, or an address outside the image.
    pub open spec fn write_var(self, a: Address, v: u16) -> Option<MachineView> {
        match a {
            Address::StackPointer => Some(self.push(v)),
            Address::Local(i) => if i < self.top().locals.len() {
                Some(
                    self.set_top(
                        FrameView { locals: self.top().locals.update(i as int, v), ..self.top() },
                    ),
                )
            } else {
                None
            },
            Address::Global(g) => if self.mem.has_global(g as int) {
                Some(self.with_mem(self.mem.set_global(g as int, v)))
            } else {
                None
            },
            Address::Word(w) => if self.mem.has_word(w as int) {
                Some(self.with_mem(self.mem.set_word(w as int, v)))
            } else {
                None
            },
            Address::Byte(b) => if self.mem.has_byte(b as int) {
                Some(self.with_mem(self.mem.set_byte(b as int, lo_byte(v))))
            } else {
                None
            },
        }
    }

    /// The value of an operand, and the state after it was read.
    pub open spec fn eval(self, op: Operand) -> (MachineView, Option<u16>) {
        match op {
            Operand::Variable(a) => self.read_var(a),
            _ => (self, Some(op.value_spec())),
        }
    }

    /// The values of the operands from `i` on, read in their order and
    /// appended to `acc`, and the state after the reads. Where a read fails
    /// the state is the one in which it failed.
    pub open spec fn eval_from(self, ops: Seq<Operand>, i: int, acc: Seq<u16>) -> (
        MachineView,
        Option<Seq<u16>>,
    )
        decreases ops.len() - i,
    {
        if i < 0 || i >= ops.len() {
            (self, Some(acc))
        } else {
            match self.eval(ops[i]) {
                (s, None) => (s, None),
                (s, Some(v)) => s.eval_from(ops, i + 1, acc.push(v)),
            }
        }
    }

    /// The values of all operands, read from left to right.
    pub open spec fn eval_all(self, ops: Seq<Operand>) -> (MachineView, Option<Seq<u16>>) {
        self.eval_from(ops, 0, Seq::empty())
    }

    /// The instruction fails.
    pub open spec fn failed(self) -> Effect {
        Effect { state: self, flow: Flow::Fault, out: Seq::empty() }
    }

    /// The instruction ends and the routine goes on at `pc`, which must lie
    /// inside the image.
    pub open spec fn finish(self, pc: int) -> Effect {
        if 0 <= pc < self.mem.bytes.len() {
            Effect {
                state: self.set_top(FrameView { pc: pc as usize, ..self.top() }),
                flow: Flow::Next,
                out: Seq::empty(),
            }
        } else {
            self.failed()
        }
    }

    /// The instruction stores `val` in the variable that the byte at `pc`
    /// names, and ends behind that byte.
    pub open spec fn store_result(self, pc: int, val: u16) -> Effect {
        if !self.mem.has_byte(pc) {
            self.failed()
        } else {
            match self.write_var(Address::of_spec(self.mem.bytes[pc] as u16), val) {
                None => self.failed(),
                Some(s) => s.finish(pc + 1),
            }
        }
    }

    /// The running routine returns `val`: its frame leaves the call stack,
    /// and `val` is written to the frame's place for the result, in the
    /// caller. The caller goes on where its call ended. It fails, leaving the
    /// call stack as it is, where there is no caller.
    pub open spec fn ret(self, val: u16) -> Effect {
        if self.frames.len() < 2 {
            self.failed()
        } else {
            let caller = MachineView { frames: self.frames.drop_last(), ..self };
            match caller.write_var(self.top().ret_addr, val) {
                None => caller.failed(),
                Some(s) => Effect { state: s, flow: Flow::Next, out: Seq::empty() },
            }
        }
    }

    /// The instruction ends behind the branch label at `pc` where the outcome
    /// `cond` of its test is not the one the label names. Where it is, the
    /// routine returns 0 or 1 for the offsets 0 and 1, and goes on at the
    /// address behind the label plus the offset less 2 for the others.
    pub open spec fn branch(self, pc: int, cond: bool) -> Effect {
        match label_at(self.mem.bytes, pc) {
            None => self.failed(),
            Some((label, size)) => {
                if cond != label.target {
                    self.finish(pc + size)
                } else {
                    self.jump(label.offset, pc + size)
                }
            },
        }
    }

    /// A taken branch, from the address `after` behind its label.
    pub open spec fn jump(self, offset: Offset, after: int) -> Effect {
        match offset {
            Offset::RFalse => self.ret(0),
            Offset::RTrue => self.ret(1),
            Offset::Unsigned(o) => self.finish(after + o - 2),
            Offset::Signed(v) => self.finish(after + v - 2),
        }
    }

    /// The instruction stores `val` as `store_result` does, and then branches
    /// on `cond` by the label behind the store byte.
    pub open spec fn store_branch(self, pc: int, val: u16, cond: bool) -> Effect {
        if !self.mem.has_byte(pc) {
            self.failed()
        } else {
            match self.write_var(Address::of_spec(self.mem.bytes[pc] as u16), val) {
                None => self.failed(),
                Some(s) => s.branch(pc + 1, cond),
            }
        }
    }

    /// The instruction prints the packed string at `addr` and ends at `pc`.
    pub open spec fn print_at(self, addr: int, pc: int) -> Effect {
        match self.mem.text(addr) {
            None => self.failed(),
            Some(text) => Effect { out: text, ..self.finish(pc) },
        }
    }

    /// The variable that number `var` names is read, the value is changed by
    /// `delta` with wrapping, and written back; the state after that and the
    /// new value.
    pub open spec fn bump(self, var: u16, delta: int) -> (MachineView, Option<u16>) {
        let place = Address::of_spec(var);
        match self.read_var(place) {
            (s, None) => (s, None),
            (s, Some(v)) => {
                let changed = word_of_int(signed_of(v) + delta);
                match s.write_var(place, changed) {
                    None => (s, None),
                    Some(t) => (t, Some(changed)),
                }
            },
        }
    }

    /// `v` is the number of an object whose entry lies inside the image.
    pub open spec fn is_object(self, v: u16) -> bool {
        v <= 0xff && self.mem.has_object(v as u8)
    }

    /// A routine is called: `args[0]` is its packed address, the others are
    /// the arguments; the byte at `pc` names the place for the result. For
    /// address 0 nothing is called and the result is 0. Else the byte at
    /// twice the packed address holds the number of locals, at most 15, and
    /// their initial values follow as words; the first locals take the
    /// arguments instead, as far as there are both. The new routine starts
    /// behind the initial values with an empty stack, and the caller will go
    /// on behind the byte at `pc`. Both addresses must lie inside the image.
    #[verifier::opaque]
    pub open spec fn call(self, args: Seq<u16>, pc: int) -> Effect {
        if !self.mem.has_byte(pc) {
            self.failed()
        } else {
            let store = Address::of_spec(self.mem.bytes[pc] as u16);
            let routine = 2 * args[0];
            if routine == 0 {
                match self.write_var(store, 0) {
                    None => self.failed(),
                    Some(s) => s.finish(pc + 1),
                }
            } else if !self.mem.has_byte(routine) {
                self.failed()
            } else {
                let n = self.mem.bytes[routine] as int;
                let start = routine + 1 + 2 * n;
                if n > MAX_LOCALS || start >= self.mem.bytes.len() || pc + 1
                    >= self.mem.bytes.len() {
                    self.failed()
                } else {
                    let locals = Seq::new(
                        n as nat,
                        |i: int|
                            if i + 1 < args.len() {
                                args[i + 1]
                            } else {
                                word_at(self.mem.bytes, routine + 1 + 2 * i)
                            },
                    );
                    let caller = self.set_top(FrameView { pc: (pc + 1) as usize, ..self.top() });
                    Effect {
                        state: MachineView {
                            frames: caller.frames.push(
                                FrameView {
                                    locals,
                                    stack: Seq::empty(),
                                    ret_addr: store,
                                    pc: start as usize,
                                },
                            ),
                            ..caller
                        },
                        flow: Flow::Next,
                        out: Seq::empty(),
                    }
                }
            }
        }
    }
}


/// Whether the first of `args` equals one of the others.
pub open spec fn any_equal(args: Seq<u16>) -> bool {
    exists|i: int| 1 <= i < args.len() && #[trigger] args[i] == args[0]
}

/// The result of the arithmetic instructions 20 to 24: sum, difference,
/// product, quotient and remainder of two signed words, wrapping; quotient
/// and remainder round toward zero, and the remainder has the sign of the
/// dividend. `None` for a division by zero.
pub open spec fn arith(opcode: u8, a: u16, b: u16) -> Option<u16> {
    if opcode == 20 {
        Some(word_of_int(signed_of(a) + signed_of(b)))
    } else if opcode == 21 {
        Some(word_of_int(signed_of(a) - signed_of(b)))
    } else if opcode == 22 {
        Some(word_of_int(signed_of(a) * signed_of(b)))
    } else if b == 0 {
        None
    } else if opcode == 23 {
        Some(word_of_int(trunc_div(signed_of(a), signed_of(b))))
    } else {
        Some(word_of_int(trunc_rem(signed_of(a), signed_of(b))))
    }
}

/// The seed of the generator after `random` with operand `a`: the magnitude
/// of `a` where `a` is negative, the time of the clock where it is 0, and the
/// seed as it was where it is positive.
pub open spec fn random_seed(a: u16, seed: u64, clock: u64) -> u64 {
    if signed_of(a) < 0 {
        (-signed_of(a)) as u64
    } else if signed_of(a) == 0 {
        clock
    } else {
        seed
    }
}

/// The number that `random` stores for operand `a` when the generator gave
/// `rnd`: one of 1 to `a` where `a` is positive, else 0.
pub open spec fn random_value(a: u16, rnd: u16) -> u16 {
    if signed_of(a) > 0 {
        (1 + rnd % a) as u16
    } else {
        0
    }
}

impl MachineView {
    /// The variable that number `var` names is read and written back; the
    /// state after that, and the value.
    pub open spec fn reread(self, var: u16) -> (MachineView, Option<u16>) {
        let place = Address::of_spec(var);
        match self.read_var(place) {
            (s, None) => (s, None),
            (s, Some(v)) => match s.write_var(place, v) {
                None => (s, None),
                Some(t) => (t, Some(v)),
            },
        }
    }

    /// The variable that number `var` names is read and then holds `val`; the
    /// state after that, and whether it could be done.
    pub open spec fn overwrite(self, var: u16, val: u16) -> (MachineView, bool) {
        let place = Address::of_spec(var);
        match self.read_var(place) {
            (s, None) => (s, false),
            (s, Some(_)) => match s.write_var(place, val) {
                None => (s, false),
                Some(t) => (t, true),
            },
        }
    }

    /// What a two-operand instruction does, its operands being `args` and
    /// `pc` the address behind them.
    #[verifier::opaque]
    pub open spec fn two_op(self, opcode: u8, args: Seq<u16>, pc: int) -> Effect {
        if args.len() < 1 {
            self.failed()
        } else if opcode == 1 {
            // je
            self.branch(pc, any_equal(args))
        } else if args.len() < 2 {
            self.failed()
        } else {
            let a = args[0];
            let b = args[1];
            if opcode == 2 {
                // jl
                self.branch(pc, signed_of(a) < signed_of(b))
            } else if opcode == 3 {
                // jg
                self.branch(pc, signed_of(a) > signed_of(b))
            } else if opcode == 4 {
                // dec_chk
                match self.bump(a, -1) {
                    (s, None) => s.failed(),
                    (s, Some(v)) => s.branch(pc, signed_of(v) < signed_of(b)),
                }
            } else if opcode == 5 {
                // inc_chk
                match self.bump(a, 1) {
                    (s, None) => s.failed(),
                    (s, Some(v)) => s.branch(pc, signed_of(v) > signed_of(b)),
                }
            } else if opcode == 6 {
                // jin
                if !self.is_object(a) {
                    self.failed()
                } else {
                    self.branch(pc, self.mem.parent(a as u8) == b)
                }
            } else if opcode == 7 {
                // test
                self.branch(pc, a & b == b)
            } else if opcode == 8 {
                // or
                self.store_result(pc, a | b)
            } else if opcode == 9 {
                // and
                self.store_result(pc, a & b)
            } else if opcode == 10 {
                // test_attr
                if a > 0xff || (a != 0 && !self.mem.has_object(a as u8)) || b >= 32 {
                    self.failed()
                } else {
                    self.branch(pc, self.mem.test_attr(a as u8, b as u8))
                }
            } else if opcode == 11 {
                // set_attr
                if !self.is_object(a) || b >= 32 {
                    self.failed()
                } else {
                    self.with_mem(self.mem.set_attr(a as u8, b as u8)).finish(pc)
                }
            } else if opcode == 12 {
                // clear_attr
                if !self.is_object(a) || b >= 32 {
                    self.failed()
                } else {
                    self.with_mem(self.mem.clear_attr(a as u8, b as u8)).finish(pc)
                }
            } else if opcode == 13 {
                // store
                match self.overwrite(a, b) {
                    (s, false) => s.failed(),
                    (s, true) => s.finish(pc),
                }
            } else if opcode == 14 {
                // insert_obj
                if !self.is_object(a) || !self.is_object(b) || !self.mem.can_detach(a as u8) {
                    self.failed()
                } else {
                    self.with_mem(self.mem.insert(a as u8, b as u8)).finish(pc)
                }
            } else if opcode == 15 {
                // loadw
                if a + 2 * b > 0xffff || !self.mem.has_word(a + 2 * b) {
                    self.failed()
                } else {
                    self.store_result(pc, word_at(self.mem.bytes, a + 2 * b))
                }
            } else if opcode == 16 {
                // loadb
                if a + b > 0xffff || !self.mem.has_byte(a + b) {
                    self.failed()
                } else {
                    self.store_result(pc, self.mem.bytes[a + b] as u16)
                }
            } else if opcode == 17 {
                // get_prop
                if a > 0xff || b > 0xff {
                    self.failed()
                } else {
                    match self.mem.get_prop(a as u8, b as u8) {
                        None => self.failed(),
                        Some(v) => self.store_result(pc, v),
                    }
                }
            } else if opcode == 18 {
                // get_prop_addr
                if a > 0xff || b > 0xff {
                    self.failed()
                } else {
                    match self.mem.get_prop_addr(a as u8, b as u8) {
                        None => self.failed(),
                        Some(v) => self.store_result(pc, v),
                    }
                }
            } else if opcode == 19 {
                // get_next_prop
                if a > 0xff || b > 0xff {
                    self.failed()
                } else {
                    match self.mem.get_next_prop(a as u8, b as u8) {
                        None => self.failed(),
                        Some(v) => self.store_result(pc, v as u16),
                    }
                }
            } else if 20 <= opcode <= 24 {
                // add, sub, mul, div, mod
                match arith(opcode, a, b) {
                    None => self.failed(),
                    Some(v) => self.store_result(pc, v),
                }
            } else {
                self.failed()
            }
        }
    }

    /// What a one-operand instruction does, its operand being `a` and `pc`
    /// the address behind it.
    #[verifier::opaque]
    pub open spec fn one_op(self, opcode: u8, a: u16, pc: int) -> Effect {
        if opcode == 0 {
            // jz
            self.branch(pc, a == 0)
        } else if opcode == 1 {
            // get_sibling
            if !self.is_object(a) {
                self.failed()
            } else {
                self.store_branch(
                    pc,
                    self.mem.sibling(a as u8) as u16,
                    self.mem.sibling(a as u8) != 0,
                )
            }
        } else if opcode == 2 {
            // get_child
            if !self.is_object(a) {
                self.failed()
            } else {
                self.store_branch(pc, self.mem.child(a as u8) as u16, self.mem.child(a as u8) != 0)
            }
        } else if opcode == 3 {
            // get_parent
            if !self.is_object(a) {
                self.failed()
            } else {
                self.store_result(pc, self.mem.parent(a as u8) as u16)
            }
        } else if opcode == 4 {
            // get_prop_len
            match self.mem.get_prop_len(a) {
                None => self.failed(),
                Some(v) => self.store_result(pc, v),
            }
        } else if opcode == 5 {
            // inc
            match self.bump(a, 1) {
                (s, None) => s.failed(),
                (s, Some(_)) => s.finish(pc),
            }
        } else if opcode == 6 {
            // dec
            match self.bump(a, -1) {
                (s, None) => s.failed(),
                (s, Some(_)) => s.finish(pc),
            }
        } else if opcode == 7 {
            // print_addr
            self.print_at(a as int, pc)
        } else if opcode == 9 {
            // remove_obj
            if !self.is_object(a) || !self.mem.can_detach(a as u8) {
                self.failed()
            } else {
                self.with_mem(self.mem.detach(a as u8)).finish(pc)
            }
        } else if opcode == 10 {
            // print_obj
            if a > 0xff {
                self.failed()
            } else {
                match self.mem.object_name(a as u8) {
                    None => self.failed(),
                    Some(text) => Effect { out: text, ..self.finish(pc) },
                }
            }
        } else if opcode == 11 {
            // ret
            self.ret(a)
        } else if opcode == 12 {
            // jump
            self.finish(pc + signed_of(a) - 2)
        } else if opcode == 13 {
            // print_paddr
            self.print_at(2 * a, pc)
        } else if opcode == 14 {
            // load
            match self.reread(a) {
                (s, None) => s.failed(),
                (s, Some(v)) => s.store_result(pc, v),
            }
        } else if opcode == 15 {
            // not
            self.store_result(pc, !a)
        } else {
            self.failed()
        }
    }

    /// What an instruction without operands does, `pc` being the address
    /// behind its opcode.
    #[verifier::opaque]
    pub open spec fn zero_op(self, opcode: u8, pc: int) -> Effect {
        if opcode == 0 {
            // rtrue
            self.ret(1)
        } else if opcode == 1 {
            // rfalse
            self.ret(0)
        } else if opcode == 2 {
            // print
            match self.mem.text(pc) {
                None => self.failed(),
                Some(text) => Effect {
                    out: text,
                    ..self.finish(pc + packed_len(self.mem.bytes, pc))
                },
            }
        } else if opcode == 3 {
            // print_ret
            match self.mem.text(pc) {
                None => self.failed(),
                Some(text) => Effect { out: text, ..self.ret(1) },
            }
        } else if opcode == 8 {
            // ret_popped
            match self.pop() {
                (s, None) => s.failed(),
                (s, Some(v)) => s.ret(v),
            }
        } else if opcode == 9 {
            // pop
            match self.pop() {
                (s, None) => s.failed(),
                (s, Some(_)) => s.finish(pc),
            }
        } else if opcode == 10 {
            // quit
            Effect { state: self, flow: Flow::Quit, out: Seq::empty() }
        } else if opcode == 11 {
            // new_line
            Effect { out: seq!['\n'], ..self.finish(pc) }
        } else {
            self.failed()
        }
    }

    /// What an instruction of the variable form does that is no two-operand
    /// instruction, its operands being `args` and `pc` the address behind
    /// them; `chance` is what the random generator and the clock give if they
    /// are asked.
    #[verifier::opaque]
    pub open spec fn var_op(self, opcode: u8, args: Seq<u16>, pc: int, chance: Chance) -> Effect {
        if args.len() < 1 {
            self.failed()
        } else {
            let a = args[0];
            if opcode == 0 {
                // call
                self.call(args, pc)
            } else if opcode == 1 {
                // storew
                if args.len() < 3 || a + 2 * args[1] > 0xffff || !self.mem.has_word(
                    a + 2 * args[1],
                ) {
                    self.failed()
                } else {
                    self.with_mem(self.mem.set_word(a + 2 * args[1], args[2])).finish(pc)
                }
            } else if opcode == 2 {
                // storeb
                if args.len() < 3 || a + args[1] > 0xffff || !self.mem.has_byte(a + args[1]) {
                    self.failed()
                } else {
                    self.with_mem(self.mem.set_byte(a + args[1], lo_byte(args[2]))).finish(pc)
                }
            } else if opcode == 3 {
                // put_prop
                if args.len() < 3 || a > 0xff || args[1] > 0xff {
                    self.failed()
                } else {
                    match self.mem.put_prop(a as u8, args[1] as u8, args[2]) {
                        None => self.failed(),
                        Some(m) => self.with_mem(m).finish(pc),
                    }
                }
            } else if opcode == 4 {
                // sread
                if args.len() < 2 || pc < 0 || pc >= self.mem.bytes.len() {
                    self.failed()
                } else {
                    Effect {
                        state: MachineView {
                            input: Some((a, args[1])),
                            ..self.set_top(FrameView { pc: pc as usize, ..self.top() })
                        },
                        flow: Flow::NeedInput,
                        out: Seq::empty(),
                    }
                }
            } else if opcode == 5 {
                // print_char
                Effect { out: seq![lo_byte(a) as char], ..self.finish(pc) }
            } else if opcode == 6 {
                // print_num
                Effect { out: decimal(signed_of(a)), ..self.finish(pc) }
            } else if opcode == 7 {
                // random
                MachineView { seed: random_seed(a, self.seed, chance.clock), ..self }.store_result(
                    pc,
                    random_value(a, chance.rnd),
                )
            } else if opcode == 8 {
                // push
                self.push(a).finish(pc)
            } else if opcode == 9 {
                // pull
                match self.pop() {
                    (s, None) => s.failed(),
                    (s, Some(v)) => match s.overwrite(a, v) {
                        (t, false) => t.failed(),
                        (t, true) => t.finish(pc),
                    },
                }
            } else {
                self.failed()
            }
        }
    }

    /// What the decoded instruction `inst` does.
    #[verifier::opaque]
    pub open spec fn dispatch(
        self,
        inst: InstructionView,
        args: Seq<u16>,
        pc: int,
        chance: Chance,
    ) -> Effect {
        if inst.two_op {
            self.two_op(inst.opcode, args, pc)
        } else {
            match inst.ty {
                InstructionType::Short => if args.len() < 1 {
                    self.failed()
                } else {
                    self.one_op(inst.opcode, args[0], pc)
                },
                InstructionType::ZeroOps => self.zero_op(inst.opcode, pc),
                InstructionType::Variable => self.var_op(inst.opcode, args, pc, chance),
                InstructionType::Long => self.failed(),
            }
        }
    }

    /// What the next instruction of the running routine does: it is decoded,
    /// its operands are read from left to right, and it is carried out. It
    /// fails where it does not lie inside the image.
    #[verifier::opaque]
    pub open spec fn step(self, chance: Chance) -> Effect {
        let pc = self.top().pc as int;
        match decode_spec(self.mem.bytes.skip(pc)) {
            None => self.failed(),
            Some((inst, len)) => match self.eval_all(inst.ops) {
                (s, None) => s.failed(),
                (s, Some(args)) => s.dispatch(inst, args, pc + len, chance),
            },
        }
    }

    /// The state after the next instruction, the text it printed, and how the
    /// engine reports it. A failed instruction leaves the diagnostic with its
    /// address and opcode byte.
    #[verifier::opaque]
    pub open spec fn after_step(self, chance: Chance) -> (
        MachineView,
        Seq<char>,
        ZMachineExecResult,
    ) {
        let e = self.step(chance);
        match e.flow {
            Flow::Next => (e.state, e.out, ZMachineExecResult::Continue),
            Flow::NeedInput => (e.state, e.out, ZMachineExecResult::NeedInput),
            Flow::Quit => (e.state, e.out, ZMachineExecResult::Exit),
            Flow::Fault => (
                MachineView {
                    fault: Some(
                        Diagnostic {
                            pc: self.top().pc,
                            opcode: self.mem.bytes[self.top().pc as int],
                        },
                    ),
                    ..e.state
                },
                e.out,
                ZMachineExecResult::Exit,
            ),
        }
    }
}


impl MachineView {
    /// The state after as many instructions as `rnds` has entries, the text
    /// they printed, and how the last of them ended; `rnds` holds what the
    /// random generator and the clock give to each. The run stops at the
    /// first instruction that does not end with `Continue`.
    #[verifier::opaque]
    pub open spec fn run(self, rnds: Seq<Chance>) -> (MachineView, Seq<char>, ZMachineExecResult)
        decreases rnds.len(),
    {
        if rnds.len() == 0 {
            (self, Seq::empty(), ZMachineExecResult::Continue)
        } else {
            let before = self.run(rnds.drop_last());
            if before.2 != ZMachineExecResult::Continue {
                before
            } else {
                let last = before.0.after_step(rnds.last());
                (last.0, before.1 + last.1, last.2)
            }
        }
    }

    /// One more instruction behind a run that can go on is that run and then
    /// the instruction.
    pub proof fn lemma_run_push(self, rnds: Seq<Chance>, rnd: Chance)
        requires
            self.run(rnds).2 == ZMachineExecResult::Continue,
        ensures
            self.run(rnds.push(rnd)) == (
                self.run(rnds).0.after_step(rnd).0,
                self.run(rnds).1 + self.run(rnds).0.after_step(rnd).1,
                self.run(rnds).0.after_step(rnd).2,
            ),
    {
        reveal(MachineView::run);
        assert(rnds.push(rnd).drop_last() =~= rnds);
    }

    /// A run of no instructions changes nothing and can go on.
    pub proof fn lemma_run_empty(self)
        ensures
            self.run(Seq::empty()) == (self, Seq::<char>::empty(), ZMachineExecResult::Continue),
    {
        reveal(MachineView::run);
    }

    /// The state after a line of input was sent, and whether it was taken. It
    /// is taken where a read is pending, the line fits the text buffer, and
    /// the tokeniser can run; the text buffer then holds the line and the
    /// parse buffer its words. No read is pending afterwards.
    pub open spec fn take_input(self, line: Seq<char>) -> (MachineView, bool) {
        match self.input {
            None => (self, false),
            Some((tb, pb)) => {
                let lexer = crate::zlex::ZLexicalAnalyzer { tb_addr: tb, pb_addr: pb };
                if !self.mem.fits_text(tb, line) {
                    (MachineView { input: None, ..self }, false)
                } else if !lexer.can_run(self.mem.with_text(tb, line)) {
                    (MachineView { input: None, mem: self.mem.with_text(tb, line), ..self }, false)
                } else {
                    (
                        MachineView {
                            input: None,
                            mem: lexer.result(self.mem.with_text(tb, line)),
                            ..self
                        },
                        true,
                    )
                }
            },
        }
    }
}


/// The fields of a branch label as quotients and remainders of its word.
pub proof fn lemma_label_fields(w: u16)
    by (bit_vector)
    ensures
        field_get(w, 1, 15) == w / 0x8000,
        field_get(w, 1, 14) == (w / 0x4000) % 2,
        field_get(w, 6, 8) == (w / 0x100) % 64,
        field_get(w, 1, 13) == (w / 0x2000) % 2,
        field_get(w, 14, 0) == w % 0x4000,
{
}

/// The first byte of the two-byte label that names the outcome `sense` and
/// the offset `v`, and its second byte.
pub open spec fn long_label(sense: bool, v: int) -> (u8, u8) {
    (
        ((if sense {
            0x80int
        } else {
            0int
        }) + (v % 0x4000) / 0x100) as u8,
        ((v % 0x4000) % 0x100) as u8,
    )
}

/// The one-byte label that names the outcome `sense` and the offset `v`.
pub open spec fn short_label(sense: bool, v: int) -> u8 {
    ((if sense {
        0xc0int
    } else {
        0x40int
    }) + v) as u8
}

/// A two-byte label gives back the sense and the signed 14-bit offset that it
/// was made of, and takes two bytes.
pub proof fn lemma_long_label_decodes(bytes: Seq<u8>, pc: int, sense: bool, v: int)
    requires
        -0x2000 <= v < 0x2000,
        0 <= pc,
        pc + 1 < bytes.len(),
        bytes[pc] == long_label(sense, v).0,
        bytes[pc + 1] == long_label(sense, v).1,
    ensures
        label_at(bytes, pc) == Some((BranchOffset { target: sense, offset: offset_of(v, false) }, 2int)),
{
    lemma_label_fields(word_of(bytes[pc], 0));
    lemma_label_fields(word_of(bytes[pc], bytes[pc + 1]));
}

/// A one-byte label gives back the sense and the offset, from 0 to 63, that
/// it was made of, and takes one byte.
pub proof fn lemma_short_label_decodes(bytes: Seq<u8>, pc: int, sense: bool, v: int)
    requires
        0 <= v < 64,
        0 <= pc < bytes.len(),
        bytes[pc] == short_label(sense, v),
    ensures
        label_at(bytes, pc) == Some((BranchOffset { target: sense, offset: offset_of(v, true) }, 1int)),
{
    lemma_label_fields(word_of(bytes[pc], 0));
}

impl MachineView {
    /// A branch by a two-byte label with the signed 14-bit offset `v`, when
    /// the test has the outcome that the label names: the routine returns 0
    /// for offset 0 and 1 for offset 1; for every other offset it goes on at
    /// the address behind the label plus the offset less 2. With the other
    /// outcome it goes on behind the label.
    pub proof fn lemma_branch_by_offset(self, pc: int, sense: bool, v: int)
        requires
            -0x2000 <= v < 0x2000,
            0 <= pc,
            pc + 1 < self.mem.bytes.len(),
            self.mem.bytes[pc] == long_label(sense, v).0,
            self.mem.bytes[pc + 1] == long_label(sense, v).1,
        ensures
            self.branch(pc, sense) == if v == 0 {
                self.ret(0)
            } else if v == 1 {
                self.ret(1)
            } else {
                self.finish((pc + 2) + v - 2)
            },
            self.branch(pc, !sense) == self.finish(pc + 2),
    {
        lemma_long_label_decodes(self.mem.bytes, pc, sense, v);
    }

    /// Two operands that both name the stack take its two topmost values, the
    /// top first, and leave the stack without them.
    pub proof fn lemma_stack_operands_in_order(self)
        requires
            self.frames.len() >= 1,
            self.top().stack.len() >= 2,
        ensures
            self.eval_all(
                seq![
                    Operand::Variable(Address::StackPointer),
                    Operand::Variable(Address::StackPointer),
                ],
            ) == (
                self.set_top(
                    FrameView {
                        stack: self.top().stack.subrange(0, self.top().stack.len() - 2),
                        ..self.top()
                    },
                ),
                Some(
                    seq![
                        self.top().stack[self.top().stack.len() - 1],
                        self.top().stack[self.top().stack.len() - 2],
                    ],
                ),
            ),
    {
        let ops = seq![
            Operand::Variable(Address::StackPointer),
            Operand::Variable(Address::StackPointer),
        ];
        let stack = self.top().stack;
        let (s1, v1) = self.eval(ops[0]);
        let (s2, v2) = s1.eval(ops[1]);
        assert(s1.top().stack =~= stack.drop_last());
        assert(s2.top().stack =~= stack.subrange(0, stack.len() - 2));
        assert(s2.frames =~= self.set_top(
            FrameView { stack: stack.subrange(0, stack.len() - 2), ..self.top() },
        ).frames);
        assert(s2.eval_from(ops, 2, seq![v1.unwrap(), v2.unwrap()]) == (
            s2,
            Some(seq![v1.unwrap(), v2.unwrap()]),
        ));
        assert(Seq::<u16>::empty().push(v1.unwrap()).push(v2.unwrap()) =~= seq![
            v1.unwrap(),
            v2.unwrap(),
        ]);
        assert(s1.eval_from(ops, 1, Seq::<u16>::empty().push(v1.unwrap())) == s2.eval_from(
            ops,
            2,
            Seq::<u16>::empty().push(v1.unwrap()).push(v2.unwrap()),
        ));
        assert(self.eval_from(ops, 0, Seq::empty()) == s1.eval_from(
            ops,
            1,
            Seq::<u16>::empty().push(v1.unwrap()),
        ));
    }
}


impl MachineView {
    /// A read leaves a machine that can run one that can run.
    pub proof fn lemma_read_keeps_wf(self, a: Address)
        requires
            self.wf(),
        ensures
            self.read_var(a).0.wf(),
    {
    }

    /// A write leaves a machine that can run one that can run.
    pub proof fn lemma_write_keeps_wf(self, a: Address, v: u16)
        requires
            self.wf(),
            self.write_var(a, v).is_some(),
        ensures
            self.write_var(a, v).unwrap().wf(),
    {
    }

    /// Reading the operands leaves a machine that can run one that can run.
    pub proof fn lemma_eval_keeps_wf(self, ops: Seq<Operand>, i: int, acc: Seq<u16>)
        requires
            self.wf(),
        ensures
            self.eval_from(ops, i, acc).0.wf(),
        decreases ops.len() - i,
    {
        if 0 <= i < ops.len() {
            match ops[i] {
                Operand::Variable(a) => {
                    self.lemma_read_keeps_wf(a);
                },
                _ => {},
            }
            match self.eval(ops[i]) {
                (s, None) => {},
                (s, Some(v)) => {
                    s.lemma_eval_keeps_wf(ops, i + 1, acc.push(v));
                },
            }
        }
    }

    /// The end of an instruction leaves a machine that can run one that can
    /// run.
    pub proof fn lemma_finish_keeps_wf(self, pc: int)
        requires
            self.wf(),
        ensures
            self.finish(pc).state.wf(),
    {
    }

    /// A stored result leaves a machine that can run one that can run.
    pub proof fn lemma_store_keeps_wf(self, pc: int, val: u16)
        requires
            self.wf(),
        ensures
            self.store_result(pc, val).state.wf(),
    {
        if self.mem.has_byte(pc) {
            let place = Address::of_spec(self.mem.bytes[pc] as u16);
            if self.write_var(place, val).is_some() {
                self.lemma_write_keeps_wf(place, val);
            }
        }
    }

    /// A return leaves a machine that can run one that can run.
    pub proof fn lemma_ret_keeps_wf(self, val: u16)
        requires
            self.wf(),
        ensures
            self.ret(val).state.wf(),
    {
        if self.frames.len() >= 2 {
            let caller = MachineView { frames: self.frames.drop_last(), ..self };
            assert(caller.wf());
            if caller.write_var(self.top().ret_addr, val).is_some() {
                caller.lemma_write_keeps_wf(self.top().ret_addr, val);
            }
        }
    }

    /// A branch leaves a machine that can run one that can run.
    pub proof fn lemma_branch_keeps_wf(self, pc: int, cond: bool)
        requires
            self.wf(),
        ensures
            self.branch(pc, cond).state.wf(),
    {
        self.lemma_ret_keeps_wf(0);
        self.lemma_ret_keeps_wf(1);
    }

    /// A stored result and a branch leave a machine that can run one that can
    /// run.
    pub proof fn lemma_store_branch_keeps_wf(self, pc: int, val: u16, cond: bool)
        requires
            self.wf(),
        ensures
            self.store_branch(pc, val, cond).state.wf(),
    {
        if self.mem.has_byte(pc) {
            let place = Address::of_spec(self.mem.bytes[pc] as u16);
            if self.write_var(place, val).is_some() {
                self.lemma_write_keeps_wf(place, val);
                self.write_var(place, val).unwrap().lemma_branch_keeps_wf(pc + 1, cond);
            }
        }
    }

    /// A changed variable leaves a machine that can run one that can run.
    pub proof fn lemma_bump_keeps_wf(self, var: u16, delta: int)
        requires
            self.wf(),
        ensures
            self.bump(var, delta).0.wf(),
            self.reread(var).0.wf(),
    {
        let place = Address::of_spec(var);
        self.lemma_read_keeps_wf(place);
        match self.read_var(place) {
            (s, None) => {},
            (s, Some(v)) => {
                let changed = word_of_int(signed_of(v) + delta);
                if s.write_var(place, changed).is_some() {
                    s.lemma_write_keeps_wf(place, changed);
                }
                if s.write_var(place, v).is_some() {
                    s.lemma_write_keeps_wf(place, v);
                }
            },
        }
    }

    /// An overwritten variable leaves a machine that can run one that can
    /// run.
    pub proof fn lemma_overwrite_keeps_wf(self, var: u16, val: u16)
        requires
            self.wf(),
        ensures
            self.overwrite(var, val).0.wf(),
    {
        let place = Address::of_spec(var);
        self.lemma_read_keeps_wf(place);
        match self.read_var(place) {
            (s, None) => {},
            (s, Some(v)) => {
                if s.write_var(place, val).is_some() {
                    s.lemma_write_keeps_wf(place, val);
                }
            },
        }
    }

    /// Another image of the same size leaves a machine that can run one that
    /// can run.
    pub proof fn lemma_mem_keeps_wf(self, mem: MemView)
        requires
            self.wf(),
            mem.bytes.len() == self.mem.bytes.len(),
            mem.globals_idx == self.mem.globals_idx,
            mem.objects_idx == self.mem.objects_idx,
            mem.abbrev_idx == self.mem.abbrev_idx,
            mem.dictionary_idx == self.mem.dictionary_idx,
        ensures
            self.with_mem(mem).wf(),
    {
    }

    /// A two-operand instruction leaves a machine that can run one that can
    /// run.
    #[verifier::rlimit(50)]
    pub proof fn lemma_two_op_keeps_wf(self, opcode: u8, args: Seq<u16>, pc: int)
        requires
            self.wf(),
        ensures
            self.two_op(opcode, args, pc).state.wf(),
    {
        reveal(MachineView::two_op);
        if args.len() >= 1 {
            self.lemma_branch_keeps_wf(pc, any_equal(args));
        }
        if args.len() >= 2 {
            let a = args[0];
            let b = args[1];
            if opcode == 2 {
                self.lemma_branch_keeps_wf(pc, signed_of(a) < signed_of(b));
            } else if opcode == 3 {
                self.lemma_branch_keeps_wf(pc, signed_of(a) > signed_of(b));
            } else if opcode == 4 {
                self.lemma_bump_keeps_wf(a, -1);
                match self.bump(a, -1) {
                    (s, None) => {},
                    (s, Some(v)) => {
                        s.lemma_branch_keeps_wf(pc, signed_of(v) < signed_of(b));
                    },
                }
            } else if opcode == 5 {
                self.lemma_bump_keeps_wf(a, 1);
                match self.bump(a, 1) {
                    (s, None) => {},
                    (s, Some(v)) => {
                        s.lemma_branch_keeps_wf(pc, signed_of(v) > signed_of(b));
                    },
                }
            } else if opcode == 6 {
                self.lemma_branch_keeps_wf(pc, self.mem.parent(a as u8) == b);
            } else if opcode == 7 {
                self.lemma_branch_keeps_wf(pc, a & b == b);
            } else if opcode == 8 {
                self.lemma_store_keeps_wf(pc, a | b);
            } else if opcode == 9 {
                self.lemma_store_keeps_wf(pc, a & b);
            } else if opcode == 10 {
                self.lemma_branch_keeps_wf(pc, self.mem.test_attr(a as u8, b as u8));
            } else if opcode == 11 {
                if self.is_object(a) && b < 32 {
                    self.lemma_mem_keeps_wf(self.mem.set_attr(a as u8, b as u8));
                    self.with_mem(self.mem.set_attr(a as u8, b as u8)).lemma_finish_keeps_wf(pc);
                }
            } else if opcode == 12 {
                if self.is_object(a) && b < 32 {
                    self.lemma_mem_keeps_wf(self.mem.clear_attr(a as u8, b as u8));
                    self.with_mem(self.mem.clear_attr(a as u8, b as u8)).lemma_finish_keeps_wf(
                        pc,
                    );
                }
            } else if opcode == 13 {
                self.lemma_overwrite_keeps_wf(a, b);
                self.overwrite(a, b).0.lemma_finish_keeps_wf(pc);
            } else if opcode == 14 {
                if self.is_object(a) && self.is_object(b) && self.mem.can_detach(a as u8) {
                    self.mem.lemma_insert_shape(a as u8, b as u8);
                    self.lemma_mem_keeps_wf(self.mem.insert(a as u8, b as u8));
                    self.with_mem(self.mem.insert(a as u8, b as u8)).lemma_finish_keeps_wf(pc);
                }
            } else if opcode == 15 {
                self.lemma_store_keeps_wf(pc, word_at(self.mem.bytes, a + 2 * b));
            } else if opcode == 16 {
                self.lemma_store_keeps_wf(pc, self.mem.bytes[a + b] as u16);
            } else if opcode == 17 {
                if self.mem.get_prop(a as u8, b as u8).is_some() {
                    self.lemma_store_keeps_wf(pc, self.mem.get_prop(a as u8, b as u8).unwrap());
                }
            } else if opcode == 18 {
                if self.mem.get_prop_addr(a as u8, b as u8).is_some() {
                    self.lemma_store_keeps_wf(
                        pc,
                        self.mem.get_prop_addr(a as u8, b as u8).unwrap(),
                    );
                }
            } else if opcode == 19 {
                if self.mem.get_next_prop(a as u8, b as u8).is_some() {
                    self.lemma_store_keeps_wf(
                        pc,
                        self.mem.get_next_prop(a as u8, b as u8).unwrap() as u16,
                    );
                }
            } else if 20 <= opcode <= 24 {
                if arith(opcode, a, b).is_some() {
                    self.lemma_store_keeps_wf(pc, arith(opcode, a, b).unwrap());
                }
            }
        }
    }

    /// A one-operand instruction leaves a machine that can run one that can
    /// run.
    #[verifier::rlimit(50)]
    pub proof fn lemma_one_op_keeps_wf(self, opcode: u8, a: u16, pc: int)
        requires
            self.wf(),
        ensures
            self.one_op(opcode, a, pc).state.wf(),
    {
        reveal(MachineView::one_op);
        if opcode == 0 {
            self.lemma_branch_keeps_wf(pc, a == 0);
        } else if opcode == 1 {
            self.lemma_store_branch_keeps_wf(
                pc,
                self.mem.sibling(a as u8) as u16,
                self.mem.sibling(a as u8) != 0,
            );
        } else if opcode == 2 {
            self.lemma_store_branch_keeps_wf(
                pc,
                self.mem.child(a as u8) as u16,
                self.mem.child(a as u8) != 0,
            );
        } else if opcode == 3 {
            self.lemma_store_keeps_wf(pc, self.mem.parent(a as u8) as u16);
        } else if opcode == 4 {
            if self.mem.get_prop_len(a).is_some() {
                self.lemma_store_keeps_wf(pc, self.mem.get_prop_len(a).unwrap());
            }
        } else if opcode == 5 {
            self.lemma_bump_keeps_wf(a, 1);
            self.bump(a, 1).0.lemma_finish_keeps_wf(pc);
        } else if opcode == 6 {
            self.lemma_bump_keeps_wf(a, -1);
            self.bump(a, -1).0.lemma_finish_keeps_wf(pc);
        } else if opcode == 7 {
            self.lemma_finish_keeps_wf(pc);
        } else if opcode == 9 {
            if self.is_object(a) && self.mem.can_detach(a as u8) {
                self.mem.lemma_detach_shape(a as u8);
                self.lemma_mem_keeps_wf(self.mem.detach(a as u8));
                self.with_mem(self.mem.detach(a as u8)).lemma_finish_keeps_wf(pc);
            }
        } else if opcode == 10 {
            self.lemma_finish_keeps_wf(pc);
        } else if opcode == 11 {
            self.lemma_ret_keeps_wf(a);
        } else if opcode == 12 {
            self.lemma_finish_keeps_wf(pc + signed_of(a) - 2);
        } else if opcode == 13 {
            self.lemma_finish_keeps_wf(pc);
        } else if opcode == 14 {
            self.lemma_bump_keeps_wf(a, 0);
            match self.reread(a) {
                (s, None) => {},
                (s, Some(v)) => {
                    s.lemma_store_keeps_wf(pc, v);
                },
            }
        } else if opcode == 15 {
            self.lemma_store_keeps_wf(pc, !a);
        }
    }

    /// An instruction without operands leaves a machine that can run one
    /// that can run.
    pub proof fn lemma_zero_op_keeps_wf(self, opcode: u8, pc: int)
        requires
            self.wf(),
        ensures
            self.zero_op(opcode, pc).state.wf(),
    {
        reveal(MachineView::zero_op);
        self.lemma_ret_keeps_wf(0);
        self.lemma_ret_keeps_wf(1);
        self.lemma_finish_keeps_wf(pc);
        self.lemma_finish_keeps_wf(pc + packed_len(self.mem.bytes, pc));
        self.lemma_read_keeps_wf(Address::StackPointer);
        match self.pop() {
            (s, None) => {},
            (s, Some(v)) => {
                s.lemma_ret_keeps_wf(v);
                s.lemma_finish_keeps_wf(pc);
            },
        }
    }

    /// A call leaves a machine that can run one that can run.
    pub proof fn lemma_call_keeps_wf(self, args: Seq<u16>, pc: int)
        requires
            self.wf(),
            args.len() >= 1,
        ensures
            self.call(args, pc).state.wf(),
    {
        reveal(MachineView::call);
        if self.mem.has_byte(pc) {
            let store = Address::of_spec(self.mem.bytes[pc] as u16);
            if self.write_var(store, 0).is_some() {
                self.lemma_write_keeps_wf(store, 0);
                self.write_var(store, 0).unwrap().lemma_finish_keeps_wf(pc + 1);
            }
        }
    }

    /// An instruction of the variable form leaves a machine that can run one
    /// that can run.
    #[verifier::rlimit(50)]
    pub proof fn lemma_var_op_keeps_wf(self, opcode: u8, args: Seq<u16>, pc: int, chance: Chance)
        requires
            self.wf(),
        ensures
            self.var_op(opcode, args, pc, chance).state.wf(),
    {
        reveal(MachineView::var_op);
        if args.len() >= 1 {
            let a = args[0];
            self.lemma_finish_keeps_wf(pc);
            if opcode == 0 {
                self.lemma_call_keeps_wf(args, pc);
            } else if opcode == 1 {
                if args.len() >= 3 && self.mem.has_word(a + 2 * args[1]) {
                    self.lemma_mem_keeps_wf(self.mem.set_word(a + 2 * args[1], args[2]));
                    self.with_mem(
                        self.mem.set_word(a + 2 * args[1], args[2]),
                    ).lemma_finish_keeps_wf(pc);
                }
            } else if opcode == 2 {
                if args.len() >= 3 && self.mem.has_byte(a + args[1]) {
                    self.lemma_mem_keeps_wf(self.mem.set_byte(a + args[1], lo_byte(args[2])));
                    self.with_mem(
                        self.mem.set_byte(a + args[1], lo_byte(args[2])),
                    ).lemma_finish_keeps_wf(pc);
                }
            } else if opcode == 3 {
                if args.len() >= 3 && self.mem.put_prop(a as u8, args[1] as u8, args[2]).is_some() {
                    self.mem.lemma_put_prop_shape(a as u8, args[1] as u8, args[2]);
                    let m = self.mem.put_prop(a as u8, args[1] as u8, args[2]).unwrap();
                    self.lemma_mem_keeps_wf(m);
                    self.with_mem(m).lemma_finish_keeps_wf(pc);
                }
            } else if opcode == 4 {
                if args.len() >= 2 && 0 <= pc < self.mem.bytes.len() {
                    let waiting = MachineView {
                        input: Some((a, args[1])),
                        ..self.set_top(FrameView { pc: pc as usize, ..self.top() })
                    };
                    assert(self.finish(pc).state.wf());
                    assert(waiting.frames == self.finish(pc).state.frames);
                    assert(waiting.wf());
                }
            } else if opcode == 7 {
                let seeded = MachineView {
                    seed: random_seed(a, self.seed, chance.clock),
                    ..self
                };
                assert(seeded.wf());
                seeded.lemma_store_keeps_wf(pc, random_value(a, chance.rnd));
            } else if opcode == 8 {
                self.lemma_write_keeps_wf(Address::StackPointer, a);
                self.push(a).lemma_finish_keeps_wf(pc);
            } else if opcode == 9 {
                self.lemma_read_keeps_wf(Address::StackPointer);
                match self.pop() {
                    (s, None) => {},
                    (s, Some(v)) => {
                        s.lemma_overwrite_keeps_wf(a, v);
                        s.overwrite(a, v).0.lemma_finish_keeps_wf(pc);
                    },
                }
            }
        }
    }

    /// Every instruction leaves a machine that can run one that can run: the
    /// call stack is not empty, and the next instruction of every routine
    /// lies inside the image.
    pub proof fn lemma_step_keeps_wf(self, chance: Chance)
        requires
            self.wf(),
        ensures
            self.after_step(chance).0.wf(),
    {
        reveal(MachineView::after_step);
        reveal(MachineView::step);
        reveal(MachineView::dispatch);
        let pc = self.top().pc as int;
        match decode_spec(self.mem.bytes.skip(pc)) {
            None => {},
            Some((inst, len)) => {
                self.lemma_eval_keeps_wf(inst.ops, 0, Seq::empty());
                match self.eval_all(inst.ops) {
                    (s, None) => {},
                    (s, Some(args)) => {
                        s.lemma_two_op_keeps_wf(inst.opcode, args, pc + len);
                        if args.len() >= 1 {
                            s.lemma_one_op_keeps_wf(inst.opcode, args[0], pc + len);
                        }
                        s.lemma_zero_op_keeps_wf(inst.opcode, pc + len);
                        s.lemma_var_op_keeps_wf(inst.opcode, args, pc + len, chance);
                    },
                }
            },
        }
    }

    /// Every run leaves a machine that can run one that can run.
    pub proof fn lemma_run_keeps_wf(self, rnds: Seq<Chance>)
        requires
            self.wf(),
        ensures
            self.run(rnds).0.wf(),
        decreases rnds.len(),
    {
        reveal(MachineView::run);
        if rnds.len() > 0 {
            self.lemma_run_keeps_wf(rnds.drop_last());
            self.run(rnds.drop_last()).0.lemma_step_keeps_wf(rnds.last());
        }
    }
}

} // verus!
