//! The execution engine: the call stack, the fetch, decode and execute loop,
//! and the suspension for input.

use vstd::prelude::*;
use vstd::string::*;
use std::time::{Duration, SystemTime, SystemTimeError};
use rand::distributions::Uniform;
use rand::rngs::StdRng;
use rand::{Rng, SeedableRng};
use crate::bits::{lemma_shift_values, lo_byte, pack_word, unpack_word, word_of, ZWord};
use crate::zinst::{
    decode_spec, lemma_flag_is_set, Address, BranchLabel, Instruction, InstructionType, Operand,
};
use crate::zlex::ZLexicalAnalyzer;
use crate::zmath::{add_words, div_words, from_signed, mod_words, mul_words, sub_words, to_signed};
use crate::zmemory::{word_at, ZMemory, HEADER_BYTES};
use crate::zstate::{
    any_equal, decimal, digit_char, digits, label_at, random_seed, random_value, BranchOffset,
    Chance, Diagnostic, Effect, Flow, FrameView, MachineView, Offset, ZMachineExecResult,
    MAX_LOCALS,
};
use crate::zstr::push_char;

verus! {

/// `StdRng` of rand: the random generator, of which nothing is seen.
#[verifier::external_type_specification]
#[verifier::external_body]
pub struct ExStdRng(rand::rngs::StdRng);

/// `SystemTime` of std: a time of the system clock, of which nothing is
/// seen.
#[verifier::external_type_specification]
#[verifier::external_body]
pub struct ExSystemTime(std::time::SystemTime);

/// `SystemTimeError` of std: the error of a clock that stands before the
/// time it is compared with.
#[verifier::external_type_specification]
#[verifier::external_body]
pub struct ExSystemTimeError(std::time::SystemTimeError);

/// `SeedableRng::seed_from_u64` of rand, for `StdRng`: a generator whose state
/// is made from `seed`. Nothing is claimed of it.
#[verifier::external_body]
fn rng_from_seed(seed: u64) -> StdRng {
    StdRng::seed_from_u64(seed)
}

/// `Rng::sample` of rand with the `Uniform` distribution over `1..=limit`. It
/// is claimed that the number drawn lies in that range; `limit` must be 1 at
/// least, for `Uniform` refuses an empty range.
#[verifier::external_body]
fn rng_sample(rng: &mut StdRng, limit: u16) -> (r: u16)
    requires
        limit >= 1,
    ensures
        1 <= r <= limit,
{
    rng.sample(Uniform::from(1..=limit))
}

/// `SystemTime::now` of std: the time of the system clock. Nothing is claimed
/// of it.
#[verifier::external_body]
fn system_now() -> SystemTime {
    SystemTime::now()
}

/// `SystemTime::duration_since` of std, asked for the time since the Unix
/// epoch; an error where the clock stands before the epoch. Nothing is
/// claimed of it.
#[verifier::external_body]
fn since_epoch(now: &SystemTime) -> Result<Duration, SystemTimeError> {
    now.duration_since(SystemTime::UNIX_EPOCH)
}

/// `Duration::as_millis` of std: the whole milliseconds of a duration. Nothing
/// is claimed of it.
#[verifier::external_body]
fn whole_millis(d: &Duration) -> u128 {
    d.as_millis()
}

/// A seed from the system clock: what `seed_of` makes of the milliseconds
/// since the Unix epoch, or of none where the clock stands before the epoch.
/// Nothing can be said of the seed itself, for it is the clock's.
fn clock_seed() -> u64 {
    let now = system_now();
    let millis: Option<u128> = match since_epoch(&now) {
        Ok(d) => Some(whole_millis(&d)),
        Err(_) => None,
    };
    seed_of(millis)
}

/// The seed that a time gives: its milliseconds cut to 64 bits, and 0 where
/// there are none.
pub open spec fn seed_of_millis(millis: Option<u128>) -> u64 {
    match millis {
        Some(m) => (m % 0x1_0000_0000_0000_0000) as u64,
        None => 0u64,
    }
}

/// The seed that a time since the Unix epoch gives; `None` stands for a clock
/// that stands before the epoch.
pub fn seed_of(millis: Option<u128>) -> (r: u64)
    ensures
        r == seed_of_millis(millis),
{
    match millis {
        Some(m) => (m % 0x1_0000_0000_0000_0000) as u64,
        None => 0,
    }
}

/// The random generator of the machine, with the seed it was last given.
pub struct ZRng {
    pub seed: u64,
    pub runs: usize,
    pub rng: StdRng,
}

impl Default for ZRng {
    fn default() -> (r: ZRng)
        ensures
            r.runs == 0,
    {
        ZRng::new()
    }
}

impl ZRng {
    /// A generator seeded from the system clock.
    pub fn new() -> (r: ZRng)
        ensures
            r.runs == 0,
    {
        ZRng::from_seed(clock_seed())
    }

    /// A generator seeded with `seed`, which has not run yet.
    pub fn from_seed(seed: u64) -> (r: ZRng)
        ensures
            r.seed == seed,
            r.runs == 0,
    {
        ZRng { seed, runs: 0, rng: rng_from_seed(seed) }
    }

    /// Seeds the generator with `val`.
    pub fn seed_with(&mut self, val: u64)
        ensures
            final(self).seed == val,
            final(self).runs == 0,
    {
        self.rng = rng_from_seed(val);
        self.seed = val;
        self.runs = 0;
    }

    /// Seeds the generator from the system clock.
    pub fn seed(&mut self)
        ensures
            final(self).runs == 0,
    {
        let seed = clock_seed();
        self.rng = rng_from_seed(seed);
        self.seed = seed;
        self.runs = 0;
    }

    /// A number from 1 to `limit`.
    pub fn range(&mut self, limit: u16) -> (r: u16)
        requires
            limit >= 1,
        ensures
            1 <= r <= limit,
            final(self).seed == old(self).seed,
            final(self).runs == old(self).runs,
    {
        rng_sample(&mut self.rng, limit)
    }
}

/// One routine call.
#[derive(Debug)]
pub struct StackFrame {
    pub locals: Vec<u16>,
    pub stack: Vec<u16>,
    pub ret_addr: Address,
    pub pc: usize,
}

impl View for StackFrame {
    type V = FrameView;

    open spec fn view(&self) -> FrameView {
        FrameView {
            locals: self.locals@,
            stack: self.stack@,
            ret_addr: self.ret_addr,
            pc: self.pc,
        }
    }
}

impl Default for StackFrame {
    fn default() -> (r: StackFrame)
        ensures
            r.locals@ == Seq::<u16>::empty(),
            r.stack@ == Seq::<u16>::empty(),
            r.ret_addr == Address::StackPointer,
            r.pc == 0,
    {
        StackFrame { locals: Vec::new(), stack: Vec::new(), ret_addr: Address::StackPointer, pc: 0 }
    }
}

/// The frames of a call stack as the model has them.
pub open spec fn frames_of(stack: Seq<StackFrame>) -> Seq<FrameView> {
    stack.map_values(|f: StackFrame| f@)
}

/// Why an image cannot be loaded.
#[derive(Clone, Copy, Debug, PartialEq, Eq, Structural)]
pub enum LoadError {
    /// The image is shorter than a header.
    TooShort,
    /// The image is of this version, which is not 3.
    UnsupportedVersion(u8),
    /// The address of the first instruction lies outside the image.
    EntryOutOfRange,
}

/// The only version of story files that the machine runs.
pub const VERSION: u8 = 3;

/// Whether an image can be loaded, and why not: it must hold a header of 64
/// bytes, be of version 3, and hold the first instruction, whose address is
/// the word at 6.
pub open spec fn load_check(bytes: Seq<u8>) -> Result<(), LoadError> {
    if bytes.len() < HEADER_BYTES {
        Err(LoadError::TooShort)
    } else if bytes[0] != VERSION {
        Err(LoadError::UnsupportedVersion(bytes[0]))
    } else if word_at(bytes, 6) >= bytes.len() {
        Err(LoadError::EntryOutOfRange)
    } else {
        Ok(())
    }
}

/// The machine.
pub struct ZMachine {
    pub memory: ZMemory,
    pub stack: Vec<StackFrame>,
    pub input_buffer: Option<(u16, u16)>,
    pub rng: ZRng,
    pub fault: Option<Diagnostic>,
}

impl View for ZMachine {
    type V = MachineView;

    open spec fn view(&self) -> MachineView {
        MachineView {
            mem: self.memory@,
            frames: frames_of(self.stack@),
            input: self.input_buffer,
            fault: self.fault,
            seed: self.rng.seed,
        }
    }
}

impl Default for ZMachine {
    fn default() -> (r: ZMachine)
        ensures
            r.stack@.len() == 0,
            r.memory.bytes@.len() == 0,
            r.input_buffer.is_none(),
            r.fault.is_none(),
    {
        ZMachine {
            memory: ZMemory::default(),
            stack: Vec::new(),
            input_buffer: None,
            rng: ZRng::default(),
            fault: None,
        }
    }
}

impl ZMachine {
    /// An image is loaded and the machine can run.
    pub open spec fn wf(&self) -> bool {
        self@.wf()
    }

    /// A machine without an image. It cannot run before `load` has
    /// succeeded.
    pub fn new() -> (r: ZMachine)
        ensures
            r.stack@.len() == 0,
            r.memory.bytes@.len() == 0,
            r.input_buffer.is_none(),
            r.fault.is_none(),
    {
        ZMachine::default()
    }

    /// Whether an image is loaded.
    pub fn is_loaded(&self) -> (r: bool)
        ensures
            r == (self.stack@.len() >= 1),
    {
        self.stack.len() >= 1
    }

    /// Whether the machine can run: an image is loaded and the call stack is
    /// in order.
    pub fn can_run(&self) -> (r: bool)
        ensures
            r == self.wf(),
    {
        let len = self.memory.len();
        if len < HEADER_BYTES || self.memory.globals_idx > 0xffff || self.memory.objects_idx
            > 0xffff || self.memory.abbrev_idx > 0xffff || self.memory.dictionary_idx > 0xffff
            || self.stack.len() < 1 {
            return false;
        }
        let mut i: usize = 0;
        while i < self.stack.len()
            invariant
                i <= self.stack@.len(),
                len == self.memory.bytes@.len(),
                forall|j: int|
                    0 <= j < i ==> (#[trigger] self@.frames[j]).pc < len && self@.frames[j].locals.len()
                        <= MAX_LOCALS,
            decreases self.stack@.len() - i,
        {
            if self.stack[i].pc >= len || self.stack[i].locals.len() > MAX_LOCALS {
                assert(self@.frames[i as int] == self.stack@[i as int]@);
                return false;
            }
            assert(self@.frames[i as int] == self.stack@[i as int]@);
            i += 1;
        }
        true
    }

    /// Installs the image `buf` and starts the machine anew: one routine
    /// without locals, with an empty stack, whose next instruction is the one
    /// that the header names.
    pub fn reset(&mut self, buf: Vec<u8>)
        requires
            load_check(buf@).is_ok(),
        ensures
            final(self).wf(),
            final(self).memory.bytes@ == buf@,
            final(self).memory.dictionary_idx == word_at(buf@, 0x08),
            final(self).memory.objects_idx == word_at(buf@, 0x0a),
            final(self).memory.globals_idx == word_at(buf@, 0x0c),
            final(self).memory.abbrev_idx == word_at(buf@, 0x18),
            final(self)@.frames == seq![
                FrameView {
                    locals: Seq::empty(),
                    stack: Seq::empty(),
                    ret_addr: Address::StackPointer,
                    pc: word_at(buf@, 6) as usize,
                },
            ],
            final(self).input_buffer.is_none(),
            final(self).fault.is_none(),
    {
        self.memory.reset(buf);
        let header = self.memory.header();
        let pc = pack_word(header[6], header[7]) as usize;
        let mut frame = StackFrame::default();
        frame.pc = pc;
        let mut stack: Vec<StackFrame> = Vec::new();
        stack.push(frame);
        self.stack = stack;
        self.input_buffer = None;
        self.fault = None;
        proof {
            assert(self.memory.bytes@.len() == self.memory.bytes.len());
            assert(self@.frames =~= seq![
                FrameView {
                    locals: Seq::empty(),
                    stack: Seq::empty(),
                    ret_addr: Address::StackPointer,
                    pc: word_at(buf@, 6) as usize,
                },
            ]);
        }
    }

    /// Loads a story image. On an error the machine is left as it was.
    pub fn load(&mut self, bytes: Vec<u8>) -> (r: Result<(), LoadError>)
        ensures
            r == load_check(bytes@),
            match r {
                Ok(()) => {
                    &&& final(self).wf()
                    &&& final(self).memory.bytes@ == bytes@
                    &&& final(self).memory.dictionary_idx == word_at(bytes@, 0x08)
                    &&& final(self).memory.objects_idx == word_at(bytes@, 0x0a)
                    &&& final(self).memory.globals_idx == word_at(bytes@, 0x0c)
                    &&& final(self).memory.abbrev_idx == word_at(bytes@, 0x18)
                    &&& final(self)@.frames == seq![
                        FrameView {
                            locals: Seq::empty(),
                            stack: Seq::empty(),
                            ret_addr: Address::StackPointer,
                            pc: word_at(bytes@, 6) as usize,
                        },
                    ]
                    &&& final(self).input_buffer.is_none()
                    &&& final(self).fault.is_none()
                },
                Err(_) => final(self)@ == old(self)@,
            },
    {
        if bytes.len() < HEADER_BYTES {
            return Err(LoadError::TooShort);
        }
        if bytes[0] != VERSION {
            return Err(LoadError::UnsupportedVersion(bytes[0]));
        }
        if pack_word(bytes[6], bytes[7]) as usize >= bytes.len() {
            return Err(LoadError::EntryOutOfRange);
        }
        self.reset(bytes);
        Ok(())
    }

    /// The address of the next instruction of the running routine.
    pub fn get_pc(&self) -> (r: usize)
        requires
            self.wf(),
        ensures
            r == self@.top().pc,
            r < self.memory.bytes@.len(),
    {
        let idx = self.stack.len() - 1;
        self.stack[idx].pc
    }

    fn set_pc(&mut self, pc: usize)
        requires
            old(self).wf(),
            pc < old(self).memory.bytes@.len(),
        ensures
            final(self).wf(),
            final(self)@ == old(self)@.set_top(FrameView { pc, ..old(self)@.top() }),
    {
        let idx = self.stack.len() - 1;
        let frame = &mut self.stack[idx];
        frame.pc = pc;
        proof {
            assert(self@.frames =~= old(self)@.set_top(
                FrameView { pc, ..old(self)@.top() },
            ).frames);
        }
    }

    fn push_value(&mut self, v: u16)
        requires
            old(self).wf(),
        ensures
            final(self).wf(),
            final(self)@ == old(self)@.push(v),
    {
        let idx = self.stack.len() - 1;
        let frame = &mut self.stack[idx];
        frame.stack.push(v);
        proof {
            assert(self@.frames =~= old(self)@.push(v).frames);
        }
    }

    fn pop_value(&mut self) -> (r: Option<u16>)
        requires
            old(self).wf(),
        ensures
            final(self).wf(),
            (final(self)@, r) == old(self)@.pop(),
    {
        let idx = self.stack.len() - 1;
        let frame = &mut self.stack[idx];
        let r = frame.stack.pop();
        proof {
            assert(self@.frames =~= old(self)@.pop().0.frames);
        }
        r
    }

    fn local(&self, i: usize) -> (r: Option<u16>)
        requires
            self.wf(),
        ensures
            r == if i < self@.top().locals.len() {
                Some(self@.top().locals[i as int])
            } else {
                None
            },
    {
        let idx = self.stack.len() - 1;
        if i < self.stack[idx].locals.len() {
            Some(self.stack[idx].locals[i])
        } else {
            None
        }
    }

    fn set_local(&mut self, i: usize, v: u16) -> (ok: bool)
        requires
            old(self).wf(),
        ensures
            final(self).wf(),
            ok == (i < old(self)@.top().locals.len()),
            final(self)@ == if ok {
                old(self)@.set_top(
                    FrameView {
                        locals: old(self)@.top().locals.update(i as int, v),
                        ..old(self)@.top()
                    },
                )
            } else {
                old(self)@
            },
    {
        let idx = self.stack.len() - 1;
        let frame = &mut self.stack[idx];
        if i < frame.locals.len() {
            frame.locals[i] = v;
            proof {
                assert(self@.frames =~= old(self)@.set_top(
                    FrameView {
                        locals: old(self)@.top().locals.update(i as int, v),
                        ..old(self)@.top()
                    },
                ).frames);
            }
            true
        } else {
            proof {
                assert(self@.frames =~= old(self)@.frames);
            }
            false
        }
    }
}


impl ZMachine {
    fn read_place(&mut self, a: &Address) -> (r: Option<u16>)
        requires
            old(self).wf(),
        ensures
            final(self).wf(),
            (final(self)@, r) == old(self)@.read_var(*a),
    {
        match a {
            Address::Global(addr) => {
                if self.memory.has_global(*addr as usize) {
                    Some(self.memory.global(*addr as usize).0)
                } else {
                    None
                }
            },
            Address::StackPointer => self.pop_value(),
            Address::Local(addr) => self.local(*addr as usize),
            Address::Word(addr) => {
                if self.memory.has_word(*addr as usize) {
                    Some(self.memory.read_word(*addr as usize).0)
                } else {
                    None
                }
            },
            Address::Byte(addr) => {
                if self.memory.has_byte(*addr as usize) {
                    Some(self.memory.read_byte(*addr as usize) as u16)
                } else {
                    None
                }
            },
        }
    }

    /// The value of an operand; reading the stack pops it. `None`, with the
    /// machine unchanged, where the operand cannot be read.
    pub fn get_value(&mut self, v: &Operand) -> (r: Option<u16>)
        requires
            old(self).wf(),
        ensures
            final(self).wf(),
            (final(self)@, r) == old(self)@.eval(*v),
    {
        match v {
            Operand::Variable(a) => self.read_place(a),
            _ => Some(v.value()),
        }
    }

    /// Writes `val` to a place; writing the stack pushes. Tells whether the
    /// place exists, and leaves the machine unchanged where it does not.
    pub fn store(&mut self, val: u16, addr: &Address) -> (ok: bool)
        requires
            old(self).wf(),
        ensures
            final(self).wf(),
            match old(self)@.write_var(*addr, val) {
                Some(s) => ok && final(self)@ == s,
                None => !ok && final(self)@ == old(self)@,
            },
    {
        match addr {
            Address::Global(a) => {
                if self.memory.has_global(*a as usize) {
                    self.memory.set_global(*a as usize, ZWord(val));
                    true
                } else {
                    false
                }
            },
            Address::StackPointer => {
                self.push_value(val);
                true
            },
            Address::Local(a) => self.set_local(*a as usize, val),
            Address::Word(a) => {
                if self.memory.has_word(*a as usize) {
                    self.memory.set_word(*a as usize, ZWord(val));
                    true
                } else {
                    false
                }
            },
            Address::Byte(a) => {
                if self.memory.has_byte(*a as usize) {
                    let (_, lo) = unpack_word(val);
                    self.memory.set_byte(*a as usize, lo);
                    true
                } else {
                    false
                }
            },
        }
    }

    /// The values of the operands, read from left to right. `None` where one
    /// cannot be read; the machine is then as that read found it.
    pub fn eval_operands(&mut self, ops: &Vec<Operand>) -> (r: Option<Vec<u16>>)
        requires
            old(self).wf(),
        ensures
            final(self).wf(),
            final(self)@ == old(self)@.eval_all(ops@).0,
            match r {
                Some(vals) => old(self)@.eval_all(ops@).1 == Some(vals@),
                None => old(self)@.eval_all(ops@).1.is_none(),
            },
    {
        let mut vals: Vec<u16> = Vec::new();
        let mut i: usize = 0;
        while i < ops.len()
            invariant
                i <= ops@.len(),
                self.wf(),
                old(self)@.eval_all(ops@) == self@.eval_from(ops@, i as int, vals@),
            decreases ops@.len() - i,
        {
            match self.get_value(&ops[i]) {
                None => {
                    return None;
                },
                Some(v) => {
                    vals.push(v);
                },
            }
            i += 1;
        }
        Some(vals)
    }

    /// Ends the instruction: the routine goes on at `base + delta`. It fails
    /// where that address lies outside the image.
    fn goto(&mut self, base: usize, delta: i32) -> (r: Flow)
        requires
            old(self).wf(),
        ensures
            final(self).wf(),
            old(self)@.finish(base + delta) == (Effect {
                state: final(self)@,
                flow: r,
                out: Seq::empty(),
            }),
    {
        let len = self.memory.len();
        let target: Option<usize> = if delta >= 0 {
            let d = delta as usize;
            if base < len && d < len - base {
                Some(base + d)
            } else {
                None
            }
        } else {
            let d = (-(delta as i64)) as usize;
            if base >= d && base - d < len {
                Some(base - d)
            } else {
                None
            }
        };
        match target {
            Some(t) => {
                self.set_pc(t);
                Flow::Next
            },
            None => Flow::Fault,
        }
    }

    fn finish(&mut self, pc: usize) -> (r: Flow)
        requires
            old(self).wf(),
        ensures
            final(self).wf(),
            old(self)@.finish(pc as int) == (Effect {
                state: final(self)@,
                flow: r,
                out: Seq::empty(),
            }),
    {
        self.goto(pc, 0)
    }

    /// Reads the store byte at `pc` and moves `pc` behind it.
    pub fn read_store(&self, pc: &mut usize) -> (r: Option<Address>)
        requires
            self.wf(),
        ensures
            match r {
                Some(a) => self@.mem.has_byte(*old(pc) as int) && a == Address::of_spec(
                    self@.mem.bytes[*old(pc) as int] as u16,
                ) && *final(pc) == *old(pc) + 1,
                None => !self@.mem.has_byte(*old(pc) as int) && *final(pc) == *old(pc),
            },
    {
        if !self.memory.has_byte(*pc) {
            return None;
        }
        let addr = Address::of(self.memory.read_byte(*pc) as u16);
        *pc += 1;
        Some(addr)
    }

    /// Reads the branch label at `pc` and moves `pc` behind it.
    #[verifier::rlimit(50)]
    pub fn read_offset(&self, pc: &mut usize) -> (r: Option<BranchOffset>)
        requires
            self.wf(),
        ensures
            match label_at(self@.mem.bytes, *old(pc) as int) {
                Some((label, size)) => r == Some(label) && *final(pc) == *old(pc) + size,
                None => r.is_none() && *final(pc) == *old(pc),
            },
    {
        if !self.memory.has_byte(*pc) {
            return None;
        }
        proof {
            lemma_shift_values();
        }
        let b = self.memory.read_byte(*pc);
        let first = BranchLabel::new(pack_word(b, 0));
        proof {
            lemma_flag_is_set(word_of(b, 0));
        }
        let target = first.invert.is_set();
        if first.offset.is_set() {
            *pc += 1;
            let value = first.unsigned_value.value_of();
            let offset = if value == 0 {
                Offset::RFalse
            } else if value == 1 {
                Offset::RTrue
            } else {
                Offset::Unsigned(value as u8)
            };
            return Some(BranchOffset::new(target, offset));
        }
        if !self.memory.has_word(*pc) {
            return None;
        }
        let branch_label = BranchLabel::new(self.memory.read_word(*pc).0);
        proof {
            lemma_flag_is_set(word_of(b, self@.mem.bytes[*pc + 1]));
        }
        *pc += 2;
        let value = branch_label.signed_value.value_of();
        let signed: i16 = if branch_label.sign.is_set() {
            (value as i32 - 0x4000) as i16
        } else {
            value as i16
        };
        let offset = if signed == 0 {
            Offset::RFalse
        } else if signed == 1 {
            Offset::RTrue
        } else {
            Offset::Signed(signed)
        };
        Some(BranchOffset::new(target, offset))
    }

    /// Returns `val` from the running routine to its caller. It fails where
    /// there is no caller, or where the place for the result does not exist.
    pub fn return_val(&mut self, val: u16) -> (r: Flow)
        requires
            old(self).wf(),
        ensures
            final(self).wf(),
            old(self)@.ret(val) == (Effect { state: final(self)@, flow: r, out: Seq::empty() }),
    {
        if self.stack.len() < 2 {
            return Flow::Fault;
        }
        let old_frame = self.stack.pop().unwrap();
        proof {
            assert(self@.frames =~= old(self)@.frames.drop_last());
        }
        if self.store(val, &old_frame.ret_addr) {
            Flow::Next
        } else {
            Flow::Fault
        }
    }

    /// Takes a branch whose label ends in front of `pc`: a return of 0 or 1,
    /// or a jump by the label's offset less 2.
    pub fn branch(&mut self, offset: BranchOffset, pc: usize) -> (r: Flow)
        requires
            old(self).wf(),
        ensures
            final(self).wf(),
            old(self)@.jump(offset.offset, pc as int) == (Effect {
                state: final(self)@,
                flow: r,
                out: Seq::empty(),
            }),
    {
        match offset.offset() {
            Offset::RFalse => self.return_val(0),
            Offset::RTrue => self.return_val(1),
            Offset::Unsigned(off) => self.goto(pc, *off as i32 - 2),
            Offset::Signed(off) => self.goto(pc, *off as i32 - 2),
        }
    }

    fn branch_on(&mut self, pc: usize, cond: bool) -> (r: Flow)
        requires
            old(self).wf(),
        ensures
            final(self).wf(),
            old(self)@.branch(pc as int, cond) == (Effect {
                state: final(self)@,
                flow: r,
                out: Seq::empty(),
            }),
    {
        let mut pc = pc;
        match self.read_offset(&mut pc) {
            None => Flow::Fault,
            Some(label) => {
                if cond != *label.target() {
                    self.finish(pc)
                } else {
                    self.branch(label, pc)
                }
            },
        }
    }

    fn store_result(&mut self, pc: usize, val: u16) -> (r: Flow)
        requires
            old(self).wf(),
        ensures
            final(self).wf(),
            old(self)@.store_result(pc as int, val) == (Effect {
                state: final(self)@,
                flow: r,
                out: Seq::empty(),
            }),
    {
        let mut pc = pc;
        match self.read_store(&mut pc) {
            None => Flow::Fault,
            Some(place) => {
                if self.store(val, &place) {
                    self.finish(pc)
                } else {
                    Flow::Fault
                }
            },
        }
    }

    fn store_branch(&mut self, pc: usize, val: u16, cond: bool) -> (r: Flow)
        requires
            old(self).wf(),
        ensures
            final(self).wf(),
            old(self)@.store_branch(pc as int, val, cond) == (Effect {
                state: final(self)@,
                flow: r,
                out: Seq::empty(),
            }),
    {
        let mut pc = pc;
        match self.read_store(&mut pc) {
            None => Flow::Fault,
            Some(place) => {
                if self.store(val, &place) {
                    self.branch_on(pc, cond)
                } else {
                    Flow::Fault
                }
            },
        }
    }

    fn bump(&mut self, var: u16, delta: i16) -> (r: Option<u16>)
        requires
            old(self).wf(),
        ensures
            final(self).wf(),
            (final(self)@, r) == old(self)@.bump(var, delta as int),
    {
        let place = Address::of(var);
        match self.read_place(&place) {
            None => None,
            Some(v) => {
                let changed = add_words(v, from_signed(delta));
                if self.store(changed, &place) {
                    Some(changed)
                } else {
                    None
                }
            },
        }
    }

    fn reread(&mut self, var: u16) -> (r: Option<u16>)
        requires
            old(self).wf(),
        ensures
            final(self).wf(),
            (final(self)@, r) == old(self)@.reread(var),
    {
        let place = Address::of(var);
        match self.read_place(&place) {
            None => None,
            Some(v) => {
                if self.store(v, &place) {
                    Some(v)
                } else {
                    None
                }
            },
        }
    }

    fn overwrite(&mut self, var: u16, val: u16) -> (ok: bool)
        requires
            old(self).wf(),
        ensures
            final(self).wf(),
            (final(self)@, ok) == old(self)@.overwrite(var, val),
    {
        let place = Address::of(var);
        match self.read_place(&place) {
            None => false,
            Some(_) => self.store(val, &place),
        }
    }
}


fn first_among(args: &Vec<u16>) -> (r: bool)
    requires
        args@.len() >= 1,
    ensures
        r == any_equal(args@),
{
    let mut i: usize = 1;
    while i < args.len()
        invariant
            1 <= i <= args@.len(),
            forall|j: int| 1 <= j < i ==> #[trigger] args@[j] != args@[0],
        decreases args@.len() - i,
    {
        if args[i] == args[0] {
            return true;
        }
        i += 1;
    }
    false
}

fn push_digits(out: &mut String, n: u32)
    ensures
        final(out)@ == old(out)@ + digits(n as nat),
    decreases n,
{
    if n >= 10 {
        push_digits(out, n / 10);
    }
    let d: u8 = (n % 10) as u8;
    push_char(out, (48 + d) as char);
    proof {
        if n >= 10 {
            assert(final(out)@ =~= old(out)@ + digits((n / 10) as nat).push(
                digit_char((n % 10) as int),
            ));
        } else {
            assert(final(out)@ =~= old(out)@ + seq![digit_char(n as int)]);
        }
    }
}

/// Appends the decimal form of `n`.
pub fn push_decimal(out: &mut String, n: i16)
    ensures
        final(out)@ == old(out)@ + decimal(n as int),
{
    if n < 0 {
        push_char(out, '-');
        push_digits(out, (-(n as i32)) as u32);
        assert(final(out)@ =~= old(out)@ + (seq!['-'] + digits((-n) as nat)));
    } else {
        push_digits(out, n as u32);
    }
}

impl ZMachine {
    #[verifier::rlimit(50)]
    fn two_op(&mut self, opcode: u8, args: &Vec<u16>, pc: usize) -> (r: Flow)
        requires
            old(self).wf(),
        ensures
            final(self).wf(),
            old(self)@.two_op(opcode, args@, pc as int) == (Effect {
                state: final(self)@,
                flow: r,
                out: Seq::empty(),
            }),
    {
        proof {
            reveal(MachineView::two_op);
        }
        if args.len() < 1 {
            return Flow::Fault;
        }
        if opcode == 1 {
            // je
            let cond = first_among(args);
            return self.branch_on(pc, cond);
        }
        if args.len() < 2 {
            return Flow::Fault;
        }
        let a = args[0];
        let b = args[1];
        if opcode == 2 {
            // jl
            self.branch_on(pc, to_signed(a) < to_signed(b))
        } else if opcode == 3 {
            // jg
            self.branch_on(pc, to_signed(a) > to_signed(b))
        } else if opcode == 4 {
            // dec_chk
            match self.bump(a, -1) {
                None => Flow::Fault,
                Some(v) => self.branch_on(pc, to_signed(v) < to_signed(b)),
            }
        } else if opcode == 5 {
            // inc_chk
            match self.bump(a, 1) {
                None => Flow::Fault,
                Some(v) => self.branch_on(pc, to_signed(v) > to_signed(b)),
            }
        } else if opcode == 6 {
            // jin
            if a > 0xff || !self.memory.has_object(a as u8) {
                Flow::Fault
            } else {
                let parent = self.memory.get_object_parent(a as u8);
                self.branch_on(pc, parent as u16 == b)
            }
        } else if opcode == 7 {
            // test
            self.branch_on(pc, a & b == b)
        } else if opcode == 8 {
            // or
            self.store_result(pc, a | b)
        } else if opcode == 9 {
            // and
            self.store_result(pc, a & b)
        } else if opcode == 10 {
            // test_attr
            if a > 0xff || (a != 0 && !self.memory.has_object(a as u8)) || b >= 32 {
                Flow::Fault
            } else {
                let cond = self.memory.test_attr(a as u8, b as u8);
                self.branch_on(pc, cond)
            }
        } else if opcode == 11 {
            // set_attr
            if a > 0xff || !self.memory.has_object(a as u8) || b >= 32 {
                Flow::Fault
            } else {
                self.memory.set_attr(a as u8, b as u8);
                self.finish(pc)
            }
        } else if opcode == 12 {
            // clear_attr
            if a > 0xff || !self.memory.has_object(a as u8) || b >= 32 {
                Flow::Fault
            } else {
                self.memory.clear_attr(a as u8, b as u8);
                self.finish(pc)
            }
        } else if opcode == 13 {
            // store
            if self.overwrite(a, b) {
                self.finish(pc)
            } else {
                Flow::Fault
            }
        } else if opcode == 14 {
            // insert_obj
            if a > 0xff || b > 0xff || !self.memory.has_object(a as u8) || !self.memory.has_object(
                b as u8,
            ) || !self.memory.can_detach(a as u8) {
                Flow::Fault
            } else {
                self.memory.insert_object(a as u8, b as u8);
                self.finish(pc)
            }
        } else if opcode == 15 {
            // loadw
            let addr = a as usize + 2 * (b as usize);
            if addr > 0xffff || !self.memory.has_word(addr) {
                Flow::Fault
            } else {
                let v = self.memory.read_word(addr).0;
                self.store_result(pc, v)
            }
        } else if opcode == 16 {
            // loadb
            let addr = a as usize + b as usize;
            if addr > 0xffff || !self.memory.has_byte(addr) {
                Flow::Fault
            } else {
                let v = self.memory.read_byte(addr) as u16;
                self.store_result(pc, v)
            }
        } else if opcode == 17 {
            // get_prop
            if a > 0xff || b > 0xff {
                Flow::Fault
            } else {
                match self.memory.try_get_prop(a as u8, b as u8) {
                    None => Flow::Fault,
                    Some(w) => self.store_result(pc, w.0),
                }
            }
        } else if opcode == 18 {
            // get_prop_addr
            if a > 0xff || b > 0xff {
                Flow::Fault
            } else {
                match self.memory.try_get_prop_addr(a as u8, b as u8) {
                    None => Flow::Fault,
                    Some(v) => self.store_result(pc, v),
                }
            }
        } else if opcode == 19 {
            // get_next_prop
            if a > 0xff || b > 0xff {
                Flow::Fault
            } else {
                match self.memory.try_get_next_prop(a as u8, b as u8) {
                    None => Flow::Fault,
                    Some(v) => self.store_result(pc, v as u16),
                }
            }
        } else if opcode == 20 {
            // add
            self.store_result(pc, add_words(a, b))
        } else if opcode == 21 {
            // sub
            self.store_result(pc, sub_words(a, b))
        } else if opcode == 22 {
            // mul
            self.store_result(pc, mul_words(a, b))
        } else if opcode == 23 {
            // div
            match div_words(a, b) {
                None => Flow::Fault,
                Some(v) => self.store_result(pc, v),
            }
        } else if opcode == 24 {
            // mod
            match mod_words(a, b) {
                None => Flow::Fault,
                Some(v) => self.store_result(pc, v),
            }
        } else {
            Flow::Fault
        }
    }

    fn print_at(&mut self, addr: usize, pc: usize, output: &mut String) -> (r: Flow)
        requires
            old(self).wf(),
        ensures
            final(self).wf(),
            old(self)@.print_at(addr as int, pc as int).leaves(
                final(self)@,
                r,
                old(output)@,
                final(output)@,
            ),
    {
        match self.memory.try_read_string(addr) {
            None => {
                assert(old(output)@ + Seq::<char>::empty() =~= old(output)@);
                Flow::Fault
            },
            Some((text, _)) => {
                output.append(text.as_str());
                self.finish(pc)
            },
        }
    }

    #[verifier::rlimit(50)]
    fn one_op_silent(&mut self, opcode: u8, a: u16, pc: usize) -> (r: Flow)
        requires
            old(self).wf(),
            opcode != 7,
            opcode != 10,
            opcode != 13,
        ensures
            final(self).wf(),
            old(self)@.one_op(opcode, a, pc as int) == (Effect {
                state: final(self)@,
                flow: r,
                out: Seq::empty(),
            }),
    {
        proof {
            reveal(MachineView::one_op);
        }
        if opcode == 0 {
            // jz
            self.branch_on(pc, a == 0)
        } else if opcode == 1 {
            // get_sibling
            if a > 0xff || !self.memory.has_object(a as u8) {
                Flow::Fault
            } else {
                let sib = match self.memory.get_object_sibling(a as u8) {
                    Some(s) => s,
                    None => 0,
                };
                self.store_branch(pc, sib as u16, sib != 0)
            }
        } else if opcode == 2 {
            // get_child
            if a > 0xff || !self.memory.has_object(a as u8) {
                Flow::Fault
            } else {
                let child = match self.memory.get_object_child(a as u8) {
                    Some(c) => c,
                    None => 0,
                };
                self.store_branch(pc, child as u16, child != 0)
            }
        } else if opcode == 3 {
            // get_parent
            if a > 0xff || !self.memory.has_object(a as u8) {
                Flow::Fault
            } else {
                let parent = self.memory.get_object_parent(a as u8);
                self.store_result(pc, parent as u16)
            }
        } else if opcode == 4 {
            // get_prop_len
            match self.memory.try_get_prop_len(a) {
                None => Flow::Fault,
                Some(v) => self.store_result(pc, v),
            }
        } else if opcode == 5 {
            // inc
            match self.bump(a, 1) {
                None => Flow::Fault,
                Some(_) => self.finish(pc),
            }
        } else if opcode == 6 {
            // dec
            match self.bump(a, -1) {
                None => Flow::Fault,
                Some(_) => self.finish(pc),
            }
        } else if opcode == 9 {
            // remove_obj
            if a > 0xff || !self.memory.has_object(a as u8) || !self.memory.can_detach(a as u8) {
                Flow::Fault
            } else {
                self.memory.remove_obj(a as u8);
                self.finish(pc)
            }
        } else if opcode == 11 {
            // ret
            self.return_val(a)
        } else if opcode == 12 {
            // jump
            self.goto(pc, to_signed(a) as i32 - 2)
        } else if opcode == 14 {
            // load
            match self.reread(a) {
                None => Flow::Fault,
                Some(v) => self.store_result(pc, v),
            }
        } else if opcode == 15 {
            // not
            self.store_result(pc, !a)
        } else {
            Flow::Fault
        }
    }

    fn print_obj(&mut self, a: u16, pc: usize, output: &mut String) -> (r: Flow)
        requires
            old(self).wf(),
        ensures
            final(self).wf(),
            old(self)@.one_op(10, a, pc as int).leaves(
                final(self)@,
                r,
                old(output)@,
                final(output)@,
            ),
    {
        proof {
            reveal(MachineView::one_op);
        }
        proof {
            assert(old(output)@ + Seq::<char>::empty() =~= old(output)@);
        }
        if a > 0xff {
            Flow::Fault
        } else {
            match self.memory.try_get_object_name(a as u8) {
                None => Flow::Fault,
                Some(name) => {
                    output.append(name.as_str());
                    self.finish(pc)
                },
            }
        }
    }

    fn one_op(&mut self, opcode: u8, a: u16, pc: usize, output: &mut String) -> (r: Flow)
        requires
            old(self).wf(),
        ensures
            final(self).wf(),
            old(self)@.one_op(opcode, a, pc as int).leaves(
                final(self)@,
                r,
                old(output)@,
                final(output)@,
            ),
    {
        proof {
            reveal(MachineView::one_op);
        }
        if opcode == 7 {
            // print_addr
            self.print_at(a as usize, pc, output)
        } else if opcode == 10 {
            // print_obj
            self.print_obj(a, pc, output)
        } else if opcode == 13 {
            // print_paddr
            self.print_at(2 * (a as usize), pc, output)
        } else {
            proof {
                assert(old(output)@ + Seq::<char>::empty() =~= old(output)@);
            }
            self.one_op_silent(opcode, a, pc)
        }
    }

    #[verifier::rlimit(50)]
    fn zero_op(&mut self, opcode: u8, pc: usize, output: &mut String) -> (r: Flow)
        requires
            old(self).wf(),
        ensures
            final(self).wf(),
            old(self)@.zero_op(opcode, pc as int).leaves(
                final(self)@,
                r,
                old(output)@,
                final(output)@,
            ),
    {
        proof {
            reveal(MachineView::zero_op);
        }
        proof {
            assert(old(output)@ + Seq::<char>::empty() =~= old(output)@);
        }
        if opcode == 0 {
            // rtrue
            self.return_val(1)
        } else if opcode == 1 {
            // rfalse
            self.return_val(0)
        } else if opcode == 2 {
            // print
            match self.memory.try_read_string(pc) {
                None => Flow::Fault,
                Some((message, offset)) => {
                    output.append(message.as_str());
                    if offset >= self.memory.len() - pc {
                        Flow::Fault
                    } else {
                        self.finish(pc + offset)
                    }
                },
            }
        } else if opcode == 3 {
            // print_ret
            match self.memory.try_read_string(pc) {
                None => Flow::Fault,
                Some((message, _)) => {
                    output.append(message.as_str());
                    self.return_val(1)
                },
            }
        } else if opcode == 8 {
            // ret_popped
            match self.pop_value() {
                None => Flow::Fault,
                Some(v) => self.return_val(v),
            }
        } else if opcode == 9 {
            // pop
            match self.pop_value() {
                None => Flow::Fault,
                Some(_) => self.finish(pc),
            }
        } else if opcode == 10 {
            // quit
            Flow::Quit
        } else if opcode == 11 {
            // new_line
            push_char(output, '\n');
            assert(final(output)@ =~= old(output)@ + seq!['\n']);
            self.finish(pc)
        } else {
            Flow::Fault
        }
    }
}


impl ZMachine {
    /// Calls a routine, or stores 0 for the packed address 0.
    #[verifier::rlimit(50)]
    fn call(&mut self, args: &Vec<u16>, pc: usize) -> (r: Flow)
        requires
            old(self).wf(),
            args@.len() >= 1,
        ensures
            final(self).wf(),
            old(self)@.call(args@, pc as int) == (Effect {
                state: final(self)@,
                flow: r,
                out: Seq::empty(),
            }),
    {
        proof {
            reveal(MachineView::call);
        }
        let mut pc = pc;
        let store = match self.read_store(&mut pc) {
            None => {
                return Flow::Fault;
            },
            Some(place) => place,
        };
        let routine_addr = args[0] as usize * 2;
        if routine_addr == 0 {
            if self.store(0, &store) {
                return self.finish(pc);
            } else {
                return Flow::Fault;
            }
        }
        if !self.memory.has_byte(routine_addr) {
            return Flow::Fault;
        }
        let n_locals = self.memory.read_byte(routine_addr) as usize;
        let start = routine_addr + 1 + 2 * n_locals;
        if n_locals > MAX_LOCALS || start >= self.memory.len() || pc >= self.memory.len() {
            return Flow::Fault;
        }
        let mut locals: Vec<u16> = Vec::new();
        let mut i: usize = 0;
        while i < n_locals
            invariant
                i <= n_locals,
                n_locals <= MAX_LOCALS,
                routine_addr <= 0x1_fffe,
                routine_addr + 1 + 2 * n_locals < self.memory.bytes@.len(),
                locals@ == Seq::new(
                    i as nat,
                    |j: int|
                        if j + 1 < args@.len() {
                            args@[j + 1]
                        } else {
                            word_at(self.memory.bytes@, routine_addr + 1 + 2 * j)
                        },
                ),
            decreases n_locals - i,
        {
            if i + 1 < args.len() {
                locals.push(args[i + 1]);
            } else {
                locals.push(self.memory.read_word(routine_addr + 1 + i * 2).0);
            }
            i += 1;
            assert(locals@ =~= Seq::new(
                i as nat,
                |j: int|
                    if j + 1 < args@.len() {
                        args@[j + 1]
                    } else {
                        word_at(self.memory.bytes@, routine_addr + 1 + 2 * j)
                    },
            ));
        }
        self.set_pc(pc);
        let ghost caller = self@;
        self.stack.push(StackFrame { locals, stack: Vec::new(), pc: start, ret_addr: store });
        proof {
            assert(self@.frames =~= caller.frames.push(
                FrameView {
                    locals: locals@,
                    stack: Seq::empty(),
                    ret_addr: store,
                    pc: start,
                },
            ));
        }
        Flow::Next
    }

    #[verifier::rlimit(50)]
    fn random(&mut self, a: u16, pc: usize) -> (r: (Flow, Ghost<Chance>))
        requires
            old(self).wf(),
        ensures
            final(self).wf(),
            (MachineView {
                seed: random_seed(a, old(self)@.seed, r.1@.clock),
                ..old(self)@
            }).store_result(pc as int, random_value(a, r.1@.rnd)) == (Effect {
                state: final(self)@,
                flow: r.0,
                out: Seq::empty(),
            }),
    {
        let val = to_signed(a);
        let ghost mut rnd: u16 = 0;
        let result: u16 = if val > 0 {
            let drawn = self.rng.range(a);
            proof {
                rnd = (drawn - 1) as u16;
                vstd::arithmetic::div_mod::lemma_small_mod(rnd as nat, a as nat);
            }
            drawn
        } else if val == 0 {
            self.rng.seed();
            0
        } else {
            self.rng.seed_with((-(val as i32)) as u64);
            0
        };
        let ghost chance = Chance { rnd, clock: self.rng.seed };
        proof {
            assert(self@ == (MachineView {
                seed: random_seed(a, old(self)@.seed, chance.clock),
                ..old(self)@
            }));
        }
        let flow = self.store_result(pc, result);
        (flow, Ghost(chance))
    }

    #[verifier::rlimit(50)]
    fn var_op_silent(&mut self, opcode: u8, args: &Vec<u16>, pc: usize) -> (r: Flow)
        requires
            old(self).wf(),
            args@.len() >= 1,
            opcode != 5,
            opcode != 6,
            opcode != 7,
        ensures
            final(self).wf(),
            forall|rnd: Chance|
                #[trigger] old(self)@.var_op(opcode, args@, pc as int, rnd) == (Effect {
                    state: final(self)@,
                    flow: r,
                    out: Seq::empty(),
                }),
    {
        proof {
            reveal(MachineView::var_op);
        }
        let a = args[0];
        if opcode == 0 {
            // call
            self.call(args, pc)
        } else if opcode == 1 {
            // storew
            if args.len() < 3 {
                return Flow::Fault;
            }
            let addr = a as usize + 2 * (args[1] as usize);
            if addr > 0xffff || !self.memory.has_word(addr) {
                Flow::Fault
            } else {
                self.memory.set_word(addr, ZWord(args[2]));
                self.finish(pc)
            }
        } else if opcode == 2 {
            // storeb
            if args.len() < 3 {
                return Flow::Fault;
            }
            let addr = a as usize + args[1] as usize;
            if addr > 0xffff || !self.memory.has_byte(addr) {
                Flow::Fault
            } else {
                let (_, lo) = unpack_word(args[2]);
                self.memory.set_byte(addr, lo);
                self.finish(pc)
            }
        } else if opcode == 3 {
            // put_prop
            if args.len() < 3 || a > 0xff || args[1] > 0xff {
                Flow::Fault
            } else if self.memory.try_put_prop(a as u8, args[1] as u8, ZWord(args[2])) {
                self.finish(pc)
            } else {
                Flow::Fault
            }
        } else if opcode == 4 {
            // sread
            if args.len() < 2 || pc >= self.memory.len() {
                Flow::Fault
            } else {
                self.set_pc(pc);
                self.store_text_buffer(a, args[1]);
                Flow::NeedInput
            }
        } else if opcode == 8 {
            // push
            self.push_value(a);
            self.finish(pc)
        } else if opcode == 9 {
            // pull
            match self.pop_value() {
                None => Flow::Fault,
                Some(v) => {
                    if self.overwrite(a, v) {
                        self.finish(pc)
                    } else {
                        Flow::Fault
                    }
                },
            }
        } else {
            Flow::Fault
        }
    }

    /// Notes the buffers of a read that waits for input.
    fn store_text_buffer(&mut self, tb: u16, pb: u16)
        ensures
            final(self).input_buffer == Some((tb, pb)),
            final(self).memory == old(self).memory,
            final(self).stack == old(self).stack,
            final(self).fault == old(self).fault,
            final(self).rng.seed == old(self).rng.seed,
    {
        self.input_buffer = Some((tb, pb));
    }

    fn var_op(&mut self, opcode: u8, args: &Vec<u16>, pc: usize, output: &mut String) -> (r: (
        Flow,
        Ghost<Chance>,
    ))
        requires
            old(self).wf(),
        ensures
            final(self).wf(),
            old(self)@.var_op(opcode, args@, pc as int, r.1@).leaves(
                final(self)@,
                r.0,
                old(output)@,
                final(output)@,
            ),
    {
        proof {
            reveal(MachineView::var_op);
        }
        proof {
            assert(old(output)@ + Seq::<char>::empty() =~= old(output)@);
        }
        if args.len() < 1 {
            return (Flow::Fault, Ghost(Chance { rnd: 0, clock: 0 }));
        }
        let a = args[0];
        if opcode == 5 {
            // print_char
            let (_, lo) = unpack_word(a);
            push_char(output, lo as char);
            assert(final(output)@ =~= old(output)@ + seq![lo_byte(a) as char]);
            (self.finish(pc), Ghost(Chance { rnd: 0, clock: 0 }))
        } else if opcode == 6 {
            // print_num
            push_decimal(output, to_signed(a));
            (self.finish(pc), Ghost(Chance { rnd: 0, clock: 0 }))
        } else if opcode == 7 {
            // random
            self.random(a, pc)
        } else {
            (self.var_op_silent(opcode, args, pc), Ghost(Chance { rnd: 0, clock: 0 }))
        }
    }

    #[verifier::rlimit(50)]
    fn dispatch(&mut self, instr: &Instruction, args: &Vec<u16>, pc: usize, output: &mut String)
        -> (r: (Flow, Ghost<Chance>))
        requires
            old(self).wf(),
        ensures
            final(self).wf(),
            old(self)@.dispatch(instr@, args@, pc as int, r.1@).leaves(
                final(self)@,
                r.0,
                old(output)@,
                final(output)@,
            ),
    {
        proof {
            reveal(MachineView::dispatch);
        }
        proof {
            assert(old(output)@ + Seq::<char>::empty() =~= old(output)@);
        }
        if instr.two_op {
            (self.two_op(instr.opcode, args, pc), Ghost(Chance { rnd: 0, clock: 0 }))
        } else {
            match instr.ty {
                InstructionType::Short => {
                    if args.len() < 1 {
                        (Flow::Fault, Ghost(Chance { rnd: 0, clock: 0 }))
                    } else {
                        (self.one_op(instr.opcode, args[0], pc, output), Ghost(Chance { rnd: 0, clock: 0 }))
                    }
                },
                InstructionType::ZeroOps => (self.zero_op(instr.opcode, pc, output), Ghost(Chance { rnd: 0, clock: 0 })),
                InstructionType::Variable => self.var_op(instr.opcode, args, pc, output),
                InstructionType::Long => (Flow::Fault, Ghost(Chance { rnd: 0, clock: 0 })),
            }
        }
    }

    /// Decodes the next instruction of the running routine, and gives the
    /// address behind its operands.
    fn fetch_next_instr(&self) -> (r: Option<(Instruction, usize)>)
        requires
            self.wf(),
        ensures
            match r {
                Some((inst, pc)) => decode_spec(
                    self@.mem.bytes.skip(self@.top().pc as int),
                ) == Some((inst@, pc - self@.top().pc)) && pc <= self@.mem.bytes.len(),
                None => decode_spec(
                    self@.mem.bytes.skip(self@.top().pc as int),
                ).is_none(),
            },
    {
        let pc = self.get_pc();
        match Instruction::decode(self.memory.slice(pc)) {
            None => None,
            Some((instr, offset)) => Some((instr, pc + offset)),
        }
    }

    #[verifier::rlimit(50)]
    fn step(&mut self, output: &mut String) -> (r: (Flow, Ghost<Chance>))
        requires
            old(self).wf(),
        ensures
            final(self).wf(),
            old(self)@.step(r.1@).leaves(final(self)@, r.0, old(output)@, final(output)@),
    {
        proof {
            reveal(MachineView::step);
        }
        proof {
            assert(old(output)@ + Seq::<char>::empty() =~= old(output)@);
        }
        let (instr, pc) = match self.fetch_next_instr() {
            None => {
                return (Flow::Fault, Ghost(Chance { rnd: 0, clock: 0 }));
            },
            Some(found) => found,
        };
        let args = match self.eval_operands(&instr.ops) {
            None => {
                return (Flow::Fault, Ghost(Chance { rnd: 0, clock: 0 }));
            },
            Some(vals) => vals,
        };
        self.dispatch(&instr, &args, pc, output)
    }

    /// Carries out the next instruction.
    #[verifier::rlimit(50)]
    pub fn exec_one(&mut self, output: &mut String) -> (r: ZMachineExecResult)
        requires
            old(self).wf(),
        ensures
            final(self).wf(),
            exists|rnd: Chance|
                {
                    let next = #[trigger] old(self)@.after_step(rnd);
                    next.0 == final(self)@ && next.2 == r && final(output)@ == old(output)@
                        + next.1
                },
    {
        let pc = self.get_pc();
        let opcode = self.memory.read_byte(pc);
        let (flow, Ghost(rnd)) = self.step(output);
        let r = match flow {
            Flow::Next => ZMachineExecResult::Continue,
            Flow::NeedInput => ZMachineExecResult::NeedInput,
            Flow::Quit => ZMachineExecResult::Exit,
            Flow::Fault => {
                self.fault = Some(Diagnostic { pc, opcode });
                ZMachineExecResult::Exit
            },
        };
        proof {
            reveal(MachineView::after_step);
            let next = old(self)@.after_step(rnd);
            assert(next.0 == self@ && next.2 == r && output@ == old(output)@ + next.1);
        }
        r
    }

    /// Carries out instructions until one does not end with `Continue`, or
    /// `max_steps` of them are done.
    #[verifier::rlimit(50)]
    pub fn exec(&mut self, output: &mut String, max_steps: u64) -> (r: ZMachineExecResult)
        requires
            old(self).wf(),
        ensures
            final(self).wf(),
            exists|rnds: Seq<Chance>|
                {
                    let end = #[trigger] old(self)@.run(rnds);
                    &&& rnds.len() <= max_steps
                    &&& end.0 == final(self)@
                    &&& end.2 == r
                    &&& final(output)@ == old(output)@ + end.1
                    &&& r == ZMachineExecResult::Continue ==> rnds.len() == max_steps
                },
    {
        let ghost mut rnds: Seq<Chance> = Seq::empty();
        let mut steps: u64 = 0;
        proof {
            old(self)@.lemma_run_empty();
            assert(old(output)@ + Seq::<char>::empty() =~= old(output)@);
        }
        while steps < max_steps
            invariant
                steps <= max_steps,
                rnds.len() == steps,
                self.wf(),
                old(self)@.run(rnds).0 == self@,
                old(self)@.run(rnds).2 == ZMachineExecResult::Continue,
                output@ == old(output)@ + old(self)@.run(rnds).1,
            decreases max_steps - steps,
        {
            let ghost before = self@;
            let ghost printed = output@;
            let result = self.exec_one(output);
            proof {
                let rnd = choose|rnd: Chance|
                    {
                        let next = #[trigger] before.after_step(rnd);
                        next.0 == self@ && next.2 == result && output@ == printed + next.1
                    };
                old(self)@.lemma_run_push(rnds, rnd);
                let last = before.after_step(rnd);
                assert(output@ =~= old(output)@ + (old(self)@.run(rnds).1 + last.1));
                rnds = rnds.push(rnd);
            }
            steps += 1;
            match result {
                ZMachineExecResult::Continue => {},
                _ => {
                    return result;
                },
            }
        }
        ZMachineExecResult::Continue
    }

    /// Delivers a line of input to a pending read: the line is written to the
    /// text buffer and split into words, which are written to the parse
    /// buffer. Tells whether the line was taken.
    pub fn send_input(&mut self, input: &str) -> (ok: bool)
        requires
            old(self).wf(),
        ensures
            final(self).wf(),
            (final(self)@, ok) == old(self)@.take_input(input@),
    {
        let ok = match self.input_buffer {
            None => {
                return false;
            },
            Some((text_buffer_addr, parse_buffer_addr)) => {
                if !self.memory.fits_text(text_buffer_addr, input) {
                    false
                } else {
                    self.memory.write_text(text_buffer_addr, input);
                    let analyzer = ZLexicalAnalyzer::new(text_buffer_addr, parse_buffer_addr);
                    analyzer.run(&mut self.memory)
                }
            },
        };
        self.input_buffer = None;
        ok
    }
}

} // verus!
