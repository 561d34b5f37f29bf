//! The text codec: packed Z-characters, the three alphabets, abbreviations and
//! the ZSCII escape.

use vstd::prelude::*;
use vstd::slice::*;
use vstd::string::*;
use crate::bits::{
    field_get, lemma_field_bound, lemma_shift_values, pack_word, word_of, BitField,
};
use crate::zinst::lemma_flag_is_set;

verus! {

/// The fields of a word of packed text: the stop bit and three Z-characters.
#[derive(Clone, Copy, Debug)]
pub struct ZCharWord {
    pub last_flag: BitField<1, 15>,
    pub first: BitField<5, 10>,
    pub second: BitField<5, 5>,
    pub third: BitField<5, 0>,
}

impl ZCharWord {
    pub fn new(val: u16) -> (r: Self)
        ensures
            r.last_flag.val == val,
            r.first.val == val,
            r.second.val == val,
            r.third.val == val,
    {
        ZCharWord {
            last_flag: BitField::new(val),
            first: BitField::new(val),
            second: BitField::new(val),
            third: BitField::new(val),
        }
    }

    /// The word made of each field's own bits.
    pub open spec fn word(self) -> u16 {
        let a = (0u16 & !BitField::<1, 15>::mask()) | (self.last_flag.val & BitField::<1, 15>::mask());
        let b = (a & !BitField::<5, 10>::mask()) | (self.first.val & BitField::<5, 10>::mask());
        let c = (b & !BitField::<5, 5>::mask()) | (self.second.val & BitField::<5, 5>::mask());
        (c & !BitField::<5, 0>::mask()) | (self.third.val & BitField::<5, 0>::mask())
    }

    pub fn get(&self) -> (r: u16)
        ensures
            r == self.word(),
    {
        let mut output: u16 = 0;
        self.last_flag.write(&mut output);
        self.first.write(&mut output);
        self.second.write(&mut output);
        self.third.write(&mut output);
        output
    }
}

/// The three Z-characters of a word, in the order in which they are read.
pub open spec fn zchars_of_word(w: u16) -> Seq<u8> {
    seq![field_get(w, 5, 10) as u8, field_get(w, 5, 5) as u8, field_get(w, 5, 0) as u8]
}

/// Whether a word of packed text is the last of its string.
pub open spec fn is_last_word(w: u16) -> bool {
    field_get(w, 1, 15) == 1
}

/// The Z-characters of the packed string that starts at offset `at`: those of
/// each word up to and with the first one whose stop bit is set. `None` when
/// `mem` ends before such a word.
pub open spec fn zchars_at(mem: Seq<u8>, at: int) -> Option<Seq<u8>>
    decreases mem.len() - at,
{
    if at < 0 || at + 1 >= mem.len() {
        None
    } else {
        let w = word_of(mem[at], mem[at + 1]);
        if is_last_word(w) {
            Some(zchars_of_word(w))
        } else {
            match zchars_at(mem, at + 2) {
                None => None,
                Some(rest) => Some(zchars_of_word(w) + rest),
            }
        }
    }
}

/// Every Z-character of a packed string is below 32, and there are three for
/// each word.
pub proof fn lemma_zchars_at(mem: Seq<u8>, at: int)
    ensures
        match zchars_at(mem, at) {
            Some(zs) => zs.len() >= 3 && zs.len() % 3 == 0 && at + (zs.len() / 3) * 2 <= mem.len()
                && forall|i: int| 0 <= i < zs.len() ==> #[trigger] zs[i] < 32,
            None => true,
        },
    decreases mem.len() - at,
{
    lemma_shift_values();
    if at < 0 || at + 1 >= mem.len() {
    } else {
        let w = word_of(mem[at], mem[at + 1]);
        lemma_field_bound(w, 5, 10);
        lemma_field_bound(w, 5, 5);
        lemma_field_bound(w, 5, 0);
        if !is_last_word(w) {
            lemma_zchars_at(mem, at + 2);
        }
    }
}

/// A cursor over the Z-characters of a packed string.
pub struct ZCharIter<'a> {
    pub mem: &'a [u8],
    pub word_idx: Option<usize>,
    pub char_idx: usize,
}

impl<'a> ZCharIter<'a> {
    /// The Z-characters still to come; `None` when the string runs off the end
    /// of the bytes.
    pub open spec fn rest(self) -> Option<Seq<u8>> {
        match self.word_idx {
            None => Some(Seq::empty()),
            Some(w) => match zchars_at(self.mem@, w as int) {
                None => None,
                Some(zs) => Some(zs.skip(self.char_idx as int)),
            },
        }
    }

    /// The cursor stands inside a word.
    pub open spec fn wf(self) -> bool {
        self.char_idx < 3
    }

    /// The word under the cursor, if there is one, lies inside the bytes.
    pub open spec fn in_range(self) -> bool {
        match self.word_idx {
            None => true,
            Some(w) => w + 1 < self.mem@.len(),
        }
    }

    /// A bound on the Z-characters still to come.
    pub open spec fn budget(self) -> int {
        match self.word_idx {
            None => 0,
            Some(w) => 3 * (self.mem@.len() - w) - self.char_idx,
        }
    }

    /// A cursor at the first Z-character of the string at the start of `mem`.
    pub fn new(mem: &'a [u8]) -> (r: Self)
        ensures
            r.mem == mem,
            r.word_idx == Some(0usize),
            r.char_idx == 0,
            r.wf(),
            r.rest() == zchars_at(mem@, 0),
    {
        let r = ZCharIter { mem, word_idx: Some(0), char_idx: 0 };
        proof {
            match zchars_at(mem@, 0) {
                Some(zs) => {
                    assert(zs.skip(0) =~= zs);
                },
                None => {},
            }
        }
        r
    }

    /// Whether `next` may be called: the word under the cursor lies inside the
    /// bytes.
    pub fn has_word(&self) -> (r: bool)
        ensures
            r == self.in_range(),
            !r ==> self.rest().is_none(),
    {
        match self.word_idx {
            None => true,
            Some(w) => w < self.mem.len() && self.mem.len() - w > 1,
        }
    }

    /// Moves to the next of the three positions in a word.
    pub fn next_char(&mut self)
        requires
            old(self).wf(),
        ensures
            final(self).mem == old(self).mem,
            final(self).word_idx == old(self).word_idx,
            final(self).char_idx == (old(self).char_idx + 1) % 3,
            final(self).wf(),
    {
        if self.char_idx == 2 {
            self.char_idx = 0;
        } else {
            self.char_idx += 1;
        }
    }

    /// The Z-character under the cursor, which then moves on; `None` behind
    /// the last word.
    #[verifier::rlimit(50)]
    pub fn next(&mut self) -> (r: Option<u8>)
        requires
            old(self).wf(),
            old(self).in_range(),
        ensures
            final(self).wf(),
            final(self).mem == old(self).mem,
            match old(self).word_idx {
                None => r.is_none() && *final(self) == *old(self),
                Some(w) => {
                    let word = word_of(old(self).mem@[w as int], old(self).mem@[w + 1]);
                    &&& r == Some(zchars_of_word(word)[old(self).char_idx as int])
                    &&& r.unwrap() < 32
                    &&& final(self).char_idx == (old(self).char_idx + 1) % 3
                    &&& final(self).word_idx == if old(self).char_idx < 2 {
                        Some(w)
                    } else if is_last_word(word) {
                        None
                    } else {
                        Some((w + 2) as usize)
                    }
                    &&& final(self).budget() < old(self).budget()
                    &&& match old(self).rest() {
                        None => final(self).rest().is_none(),
                        Some(zs) => zs.len() > 0 && zs[0] == r.unwrap() && final(self).rest()
                            == Some(zs.skip(1)),
                    }
                },
            },
    {
        if let Some(word_idx) = self.word_idx.take() {
            let word = pack_word(self.mem[word_idx], self.mem[word_idx + 1]);
            let zch = ZCharWord::new(word);
            let idx = self.char_idx;
            self.next_char();
            proof {
                lemma_shift_values();
                lemma_flag_is_set(word);
                lemma_zchars_at(self.mem@, word_idx as int);
                lemma_zchars_at(self.mem@, word_idx + 2);
                let here = zchars_of_word(word);
                match zchars_at(self.mem@, word_idx as int) {
                    Some(zs) => {
                        if is_last_word(word) {
                            assert(zs.skip(idx as int).skip(1) =~= zs.skip(idx + 1));
                            assert(zs.skip(3) =~= Seq::<u8>::empty());
                        } else {
                            let tail = zchars_at(self.mem@, word_idx + 2).unwrap();
                            assert(zs.skip(idx as int).skip(1) =~= zs.skip(idx + 1));
                            assert(zs.skip(3) =~= tail);
                            assert(tail.skip(0) =~= tail);
                        }
                    },
                    None => {},
                }
            }
            if idx == 0 {
                self.word_idx = Some(word_idx);
                Some(zch.first.value_of() as u8)
            } else if idx == 1 {
                self.word_idx = Some(word_idx);
                Some(zch.second.value_of() as u8)
            } else {
                if !zch.last_flag.is_set() {
                    self.word_idx = Some(word_idx + 2);
                }
                Some(zch.third.value_of() as u8)
            }
        } else {
            None
        }
    }
}


/// The lower-case alphabet.
pub const ALPH_A0: &'static str = "abcdefghijklmnopqrstuvwxyz";

/// The upper-case alphabet.
pub const ALPH_A1: &'static str = "ABCDEFGHIJKLMNOPQRSTUVWXYZ";

/// The alphabet of digits and punctuation. Its first place stands for the
/// escape and is never printed from the table.
pub const ALPH_A2: &'static str = " \n0123456789.,!?_#'\"/\\-:()";

/// The three alphabets.
#[derive(Clone, Copy, Debug, PartialEq, Eq, Structural)]
pub enum Alphabet {
    A0,
    A1,
    A2,
}

/// The first place at which `c` stands in `table`.
pub open spec fn is_first_index<T>(table: Seq<T>, c: T, i: int) -> bool {
    &&& 0 <= i < table.len()
    &&& table[i] == c
    &&& forall|j: int| 0 <= j < i ==> table[j] != c
}

/// The three tables have 26 places each.
pub proof fn lemma_alphabet_lengths()
    ensures
        ALPH_A0@.len() == 26,
        ALPH_A1@.len() == 26,
        ALPH_A2@.len() == 26,
{
    reveal_strlit("abcdefghijklmnopqrstuvwxyz");
    reveal_strlit("ABCDEFGHIJKLMNOPQRSTUVWXYZ");
    reveal_strlit(" \n0123456789.,!?_#'\"/\\-:()");
}

fn position(table: &str, c: char) -> (r: Option<usize>)
    requires
        table@.len() == 26,
    ensures
        table@.index_of_first(c) == match r {
            Some(i) => Some(i as int),
            None => None,
        },
        match r {
            Some(i) => is_first_index(table@, c, i as int),
            None => !table@.contains(c),
        },
{
    let mut i: usize = 0;
    while i < 26
        invariant
            i <= 26,
            table@.len() == 26,
            forall|j: int| 0 <= j < i ==> table@[j] != c,
        decreases 26 - i,
    {
        if table.get_char(i) == c {
            proof {
                table@.index_of_first_ensures(c);
                assert(table@[i as int] == c);
                assert(table@.contains(c));
            }
            return Some(i);
        }
        i += 1;
    }
    proof {
        table@.index_of_first_ensures(c);
    }
    None
}

impl Alphabet {
    /// The 26 characters of the alphabet.
    pub open spec fn table(self) -> Seq<char> {
        match self {
            Alphabet::A0 => ALPH_A0@,
            Alphabet::A1 => ALPH_A1@,
            Alphabet::A2 => ALPH_A2@,
        }
    }

    /// The alphabet that a shift Z-character selects.
    pub open spec fn of_shift(idx: u8) -> Alphabet {
        if idx == 4 {
            Alphabet::A1
        } else if idx == 5 {
            Alphabet::A2
        } else {
            Alphabet::A0
        }
    }

    pub fn new(idx: u8) -> (r: Self)
        ensures
            r == Self::of_shift(idx),
    {
        if idx == 4 {
            Alphabet::A1
        } else if idx == 5 {
            Alphabet::A2
        } else {
            Alphabet::A0
        }
    }

    /// The character that Z-character `n` prints in this alphabet: a space for
    /// 0, the table's entry `n - 6` for 6 to 31.
    pub open spec fn char_of(self, n: u8) -> char {
        if n == 0 {
            ' '
        } else {
            self.table()[n - 6]
        }
    }

    pub fn get(&self, n: u8) -> (r: char)
        requires
            n == 0 || 6 <= n < 32,
        ensures
            r == self.char_of(n),
    {
        proof {
            lemma_alphabet_lengths();
        }
        if n == 0 {
            ' '
        } else {
            match self {
                Alphabet::A0 => ALPH_A0.get_char(n as usize - 6),
                Alphabet::A1 => ALPH_A1.get_char(n as usize - 6),
                Alphabet::A2 => ALPH_A2.get_char(n as usize - 6),
            }
        }
    }

    /// The alphabet and Z-character that print the byte `n`: the first
    /// alphabet that holds it, and 6 plus its first place there. A byte that
    /// no alphabet holds gives Z-character 0 of the lower-case alphabet.
    pub open spec fn lookup_spec(n: u8) -> (Alphabet, u8) {
        let c = n as char;
        match ALPH_A0@.index_of_first(c) {
            Some(i) => (Alphabet::A0, (i + 6) as u8),
            None => match ALPH_A1@.index_of_first(c) {
                Some(i) => (Alphabet::A1, (i + 6) as u8),
                None => match ALPH_A2@.index_of_first(c) {
                    Some(i) => (Alphabet::A2, (i + 6) as u8),
                    None => (Alphabet::A0, 0u8),
                },
            },
        }
    }

    pub fn lookup(n: u8) -> (r: (Alphabet, u8))
        ensures
            r == Self::lookup_spec(n),
            r.1 == 0 || 6 <= r.1 < 32,
            r.1 != 0 ==> r.0.char_of(r.1) == n as char,
    {
        proof {
            lemma_alphabet_lengths();
        }
        let c = n as char;
        if let Some(idx) = position(ALPH_A0, c) {
            (Alphabet::A0, idx as u8 + 6)
        } else if let Some(idx) = position(ALPH_A1, c) {
            (Alphabet::A1, idx as u8 + 6)
        } else if let Some(idx) = position(ALPH_A2, c) {
            (Alphabet::A2, idx as u8 + 6)
        } else {
            (Alphabet::A0, 0)
        }
    }
}

/// A Z-character with the part that it plays.
#[derive(Clone, Copy, Debug, PartialEq, Eq, Structural)]
pub enum ZChar {
    /// 4 or 5: the next character is read in another alphabet.
    Shift(u8),
    /// 1, 2 or 3: the first half of an abbreviation.
    Abbrev(u8),
    /// 0, or 6 to 31: a character of the current alphabet.
    Char(u8),
}

impl ZChar {
    pub open spec fn classify(c: u8) -> ZChar {
        if c == 0 {
            ZChar::Char(0)
        } else if c < 4 {
            ZChar::Abbrev(c)
        } else if c < 6 {
            ZChar::Shift(c)
        } else {
            ZChar::Char(c)
        }
    }

    pub fn new(c: u8) -> (r: Self)
        ensures
            r == Self::classify(c),
    {
        if c == 0 {
            ZChar::Char(0)
        } else if c < 4 {
            ZChar::Abbrev(c)
        } else if c < 6 {
            ZChar::Shift(c)
        } else {
            ZChar::Char(c)
        }
    }

    /// The Z-characters that print the byte `c`: the character itself when
    /// the lower-case alphabet holds it, else a shift and the character.
    pub open spec fn encode_spec(c: u8) -> Seq<ZChar> {
        let (alph, ch) = Alphabet::lookup_spec(c);
        match alph {
            Alphabet::A0 => seq![ZChar::Char(ch)],
            Alphabet::A1 => seq![ZChar::Shift(4), ZChar::Char(ch)],
            Alphabet::A2 => seq![ZChar::Shift(5), ZChar::Char(ch)],
        }
    }

    pub fn encode(c: u8) -> (r: Vec<Self>)
        ensures
            r@ == Self::encode_spec(c),
            forall|i: int| 0 <= i < r@.len() ==> (#[trigger] r@[i]).value_spec() < 32,
    {
        let mut ret: Vec<ZChar> = Vec::new();
        let (alph, ch) = Alphabet::lookup(c);
        match alph {
            Alphabet::A0 => {
                ret.push(ZChar::Char(ch));
            },
            Alphabet::A1 => {
                ret.push(ZChar::Shift(4));
                ret.push(ZChar::Char(ch));
            },
            Alphabet::A2 => {
                ret.push(ZChar::Shift(5));
                ret.push(ZChar::Char(ch));
            },
        }
        assert(ret@ =~= Self::encode_spec(c));
        ret
    }

    pub open spec fn value_spec(self) -> u8 {
        match self {
            ZChar::Char(c) => c,
            ZChar::Abbrev(c) => c,
            ZChar::Shift(c) => c,
        }
    }

    /// The five-bit number of the Z-character.
    pub fn value(&self) -> (r: &u8)
        ensures
            *r == self.value_spec(),
    {
        match self {
            ZChar::Char(c) => c,
            ZChar::Abbrev(c) => c,
            ZChar::Shift(c) => c,
        }
    }
}

impl From<ZChar> for u8 {
    fn from(zc: ZChar) -> (r: u8) {
        match zc {
            ZChar::Char(c) => c,
            ZChar::Abbrev(c) => c,
            ZChar::Shift(c) => c,
        }
    }
}

impl vstd::std_specs::convert::FromSpecImpl<ZChar> for u8 {
    open spec fn obeys_from_spec() -> bool {
        true
    }

    open spec fn from_spec(zc: ZChar) -> u8 {
        zc.value_spec()
    }
}

/// The two halves of a ZSCII escape, as far as they have been read.
#[derive(Clone, Copy, Debug, PartialEq, Eq, Structural)]
pub struct ZSCIIChar(pub Option<u8>, pub Option<u8>);

/// The character code that the two halves of an escape give: the low eight
/// bits of the ten-bit number whose high five bits are `hi` and whose low five
/// bits are `lo`.
pub open spec fn zscii_code(hi: u8, lo: u8) -> u8 {
    (hi << 5u8) | lo
}

impl ZSCIIChar {
    pub fn new() -> (r: Self)
        ensures
            r == ZSCIIChar(None, None),
    {
        ZSCIIChar(None, None)
    }

    /// Takes the next half: the first if none is held, else the second.
    pub fn push_raw_zchar(&mut self, c: u8)
        ensures
            *final(self) == if old(self).0.is_some() {
                ZSCIIChar(old(self).0, Some(c))
            } else {
                ZSCIIChar(Some(c), old(self).1)
            },
    {
        if self.0.is_some() {
            self.1 = Some(c);
        } else {
            self.0 = Some(c);
        }
    }

    pub open spec fn get_spec(self) -> Option<char> {
        match (self.0, self.1) {
            (Some(hi), Some(lo)) => Some(zscii_code(hi, lo) as char),
            _ => None,
        }
    }

    /// The character, once both halves are held.
    pub fn get(&mut self) -> (r: Option<char>)
        ensures
            r == old(self).get_spec(),
            *final(self) == *old(self),
    {
        match (self.0, self.1) {
            (Some(hi), Some(lo)) => Some(((hi << 5u8) | lo) as char),
            _ => None,
        }
    }
}


/// Where the decoder stands between two Z-characters.
#[derive(Clone, Copy, Debug, PartialEq, Eq, Structural)]
pub enum TextState {
    /// The next Z-character is read in this alphabet.
    Plain(Alphabet),
    /// An abbreviation prefix (1, 2 or 3) was read; the next Z-character
    /// completes it. The alphabet is kept for what follows.
    Abbrev(Alphabet, u8),
    /// An escape has begun; the next Z-characters are its halves.
    Escape(ZSCIIChar),
}

/// What one Z-character adds to the text.
#[derive(Clone, Copy, Debug, PartialEq, Eq, Structural)]
pub enum Emit {
    Nothing,
    Char(char),
    /// The text of this entry of the abbreviation table.
    Abbreviation(usize),
}

impl TextState {
    /// An abbreviation prefix is 1, 2 or 3.
    pub open spec fn wf(self) -> bool {
        match self {
            TextState::Abbrev(_, prefix) => 1 <= prefix <= 3,
            _ => true,
        }
    }

    /// The state after Z-character `zc`, and what `zc` adds to the text.
    ///
    /// In the plain state 0 prints a space, 1 to 3 begin an abbreviation, 4
    /// and 5 select an alphabet for the next character, and 6 to 31 print the
    /// alphabet's entry, but for 6 in the third alphabet, which begins an
    /// escape. Every printed character brings the lower-case alphabet back.
    /// The entry of an abbreviation is 32 times its prefix less one, plus the
    /// Z-character that follows. An escape takes the next two Z-characters as
    /// they are.
    pub open spec fn step(self, zc: u8) -> (TextState, Emit) {
        match self {
            TextState::Abbrev(alph, prefix) => (
                TextState::Plain(alph),
                Emit::Abbreviation((32 * (prefix - 1) + zc) as usize),
            ),
            TextState::Escape(half) => {
                let both = if half.0.is_some() {
                    ZSCIIChar(half.0, Some(zc))
                } else {
                    ZSCIIChar(Some(zc), half.1)
                };
                match both.get_spec() {
                    Some(c) => (TextState::Plain(Alphabet::A0), Emit::Char(c)),
                    None => (TextState::Escape(both), Emit::Nothing),
                }
            },
            TextState::Plain(alph) => match ZChar::classify(zc) {
                ZChar::Shift(s) => (TextState::Plain(Alphabet::of_shift(s)), Emit::Nothing),
                ZChar::Abbrev(prefix) => (TextState::Abbrev(alph, prefix), Emit::Nothing),
                ZChar::Char(c) => if c == 6 && alph == Alphabet::A2 {
                    (TextState::Escape(ZSCIIChar(None, None)), Emit::Nothing)
                } else {
                    (TextState::Plain(Alphabet::A0), Emit::Char(alph.char_of(c)))
                },
            },
        }
    }

    pub fn advance(self, zc: u8) -> (r: (TextState, Emit))
        requires
            self.wf(),
            zc < 32,
        ensures
            r == self.step(zc),
            r.0.wf(),
    {
        match self {
            TextState::Abbrev(alph, prefix) => (
                TextState::Plain(alph),
                Emit::Abbreviation(32 * (prefix as usize - 1) + zc as usize),
            ),
            TextState::Escape(half) => {
                let mut both = half;
                both.push_raw_zchar(zc);
                match both.get() {
                    Some(c) => (TextState::Plain(Alphabet::A0), Emit::Char(c)),
                    None => (TextState::Escape(both), Emit::Nothing),
                }
            },
            TextState::Plain(alph) => match ZChar::new(zc) {
                ZChar::Shift(s) => (TextState::Plain(Alphabet::new(s)), Emit::Nothing),
                ZChar::Abbrev(prefix) => (TextState::Abbrev(alph, prefix), Emit::Nothing),
                ZChar::Char(c) => if c == 6 && alph == Alphabet::A2 {
                    (TextState::Escape(ZSCIIChar::new()), Emit::Nothing)
                } else {
                    (TextState::Plain(Alphabet::A0), Emit::Char(alph.get(c)))
                },
            },
        }
    }
}

/// The text that one step adds. An abbreviation adds the text of the packed
/// string at twice the word that its entry of the table `abbrev` holds;
/// `depth` tells how deep abbreviations may nest, so with depth 0 an
/// abbreviation is refused. `None` when an abbreviation is refused, its entry
/// lies outside `abbrev`, or its string does not end inside `mem`.
pub open spec fn emitted(mem: Seq<u8>, abbrev: Seq<u8>, emit: Emit, depth: nat) -> Option<
    Seq<char>,
>
    decreases depth, 0nat,
{
    match emit {
        Emit::Nothing => Some(Seq::empty()),
        Emit::Char(c) => Some(seq![c]),
        Emit::Abbreviation(entry) => {
            if depth == 0 || 2 * entry + 1 >= abbrev.len() {
                None
            } else {
                let addr = 2 * word_of(abbrev[2 * entry], abbrev[2 * entry + 1]);
                if addr > mem.len() {
                    None
                } else {
                    match zchars_at(mem.skip(addr), 0) {
                        None => None,
                        Some(inner) => expand(
                            mem,
                            abbrev,
                            inner,
                            TextState::Plain(Alphabet::A0),
                            (depth - 1) as nat,
                        ),
                    }
                }
            }
        },
    }
}

/// The text that the Z-characters `zs` print from state `st`: what each adds
/// in turn. `None` when one of them adds `None`.
pub open spec fn expand(mem: Seq<u8>, abbrev: Seq<u8>, zs: Seq<u8>, st: TextState, depth: nat)
    -> Option<Seq<char>>
    decreases depth, zs.len(),
{
    if zs.len() == 0 {
        Some(Seq::empty())
    } else {
        let (next, emit) = st.step(zs[0]);
        match emitted(mem, abbrev, emit, depth) {
            None => None,
            Some(h) => match expand(mem, abbrev, zs.skip(1), next, depth) {
                None => None,
                Some(t) => Some(h + t),
            },
        }
    }
}

/// The text of Z-characters that are not empty is what the first adds,
/// followed by the text of the others from the state behind the first.
pub proof fn lemma_expand_unfold(mem: Seq<u8>, abbrev: Seq<u8>, zs: Seq<u8>, st: TextState, depth: nat)
    requires
        zs.len() > 0,
    ensures
        expand(mem, abbrev, zs, st, depth) == match emitted(mem, abbrev, st.step(zs[0]).1, depth) {
            None => None,
            Some(h) => match expand(mem, abbrev, zs.skip(1), st.step(zs[0]).0, depth) {
                None => None,
                Some(t) => Some(h + t),
            },
        },
{
}

/// `acc` followed by the text of the Z-characters `rest`; `None` when `rest`
/// is `None` or has no text.
pub open spec fn text_after(
    mem: Seq<u8>,
    abbrev: Seq<u8>,
    rest: Option<Seq<u8>>,
    st: TextState,
    depth: nat,
    acc: Seq<char>,
) -> Option<Seq<char>> {
    match rest {
        None => None,
        Some(zs) => match expand(mem, abbrev, zs, st, depth) {
            None => None,
            Some(t) => Some(acc + t),
        },
    }
}

/// Reading one Z-character moves what it adds from the text to come to the
/// text so far.
pub proof fn lemma_text_after_step(
    mem: Seq<u8>,
    abbrev: Seq<u8>,
    zs: Seq<u8>,
    st: TextState,
    depth: nat,
    acc: Seq<char>,
)
    requires
        zs.len() > 0,
    ensures
        match emitted(mem, abbrev, st.step(zs[0]).1, depth) {
            None => text_after(mem, abbrev, Some(zs), st, depth, acc).is_none(),
            Some(h) => text_after(mem, abbrev, Some(zs), st, depth, acc) == text_after(
                mem,
                abbrev,
                Some(zs.skip(1)),
                st.step(zs[0]).0,
                depth,
                acc + h,
            ),
        },
{
    let (next, emit) = st.step(zs[0]);
    match emitted(mem, abbrev, emit, depth) {
        None => {},
        Some(h) => {
            match expand(mem, abbrev, zs.skip(1), next, depth) {
                None => {},
                Some(t) => {
                    assert(acc + (h + t) =~= (acc + h) + t);
                },
            }
        },
    }
}

/// The text of the packed string at `addr`, in which abbreviations may occur
/// but may not themselves hold abbreviations.
pub open spec fn text_at(mem: Seq<u8>, abbrev: Seq<u8>, addr: int) -> Option<Seq<char>> {
    if addr < 0 || addr > mem.len() {
        None
    } else {
        match zchars_at(mem.skip(addr), 0) {
            None => None,
            Some(zs) => expand(mem, abbrev, zs, TextState::Plain(Alphabet::A0), 1),
        }
    }
}

/// The bytes that the packed string at `addr` takes.
pub open spec fn packed_len(mem: Seq<u8>, addr: int) -> int {
    match zchars_at(mem.skip(addr), 0) {
        None => 0,
        Some(zs) => ((zs.len() / 3) * 2) as int,
    }
}

/// `String::push` of std: appends one character to the string.
#[verifier::external_body]
pub(crate) fn push_char(s: &mut String, c: char)
    ensures
        final(s)@ == old(s)@.push(c),
{
    s.push(c)
}

/// The string made of the characters of `chars`.
pub fn string_of(chars: &Vec<char>) -> (s: String)
    ensures
        s@ == chars@,
{
    let mut s = String::new();
    let mut i: usize = 0;
    while i < chars.len()
        invariant
            i <= chars@.len(),
            s@ == chars@.take(i as int),
        decreases chars@.len() - i,
    {
        push_char(&mut s, chars[i]);
        assert(chars@.take(i + 1) =~= chars@.take(i as int).push(chars@[i as int]));
        i += 1;
    }
    assert(chars@.take(chars@.len() as int) =~= chars@);
    s
}

/// A decoded string with the number of bytes that its packed form takes.
#[derive(Debug)]
pub struct ZString {
    pub len_words: usize,
    pub string: String,
}

impl ZString {
    /// Decodes the packed string at `addr`.
    pub fn new<'a>(mem: &'a [u8], addr: usize, abbrev_table: &'a [u8]) -> (r: ZString)
        requires
            text_at(mem@, abbrev_table@, addr as int).is_some(),
        ensures
            r.string@ == text_at(mem@, abbrev_table@, addr as int).unwrap(),
            r.len_words == packed_len(mem@, addr as int),
    {
        ZString::decode(mem, addr, abbrev_table).unwrap()
    }

    /// Decodes the packed string at `addr`; `None` when the string or an
    /// abbreviation in it does not end inside `mem`, an abbreviation's entry
    /// lies outside `abbrev_table`, or an abbreviation holds an abbreviation.
    pub fn decode<'a>(mem: &'a [u8], addr: usize, abbrev_table: &'a [u8]) -> (r: Option<ZString>)
        ensures
            match r {
                Some(z) => text_at(mem@, abbrev_table@, addr as int) == Some(z.string@)
                    && z.len_words == packed_len(mem@, addr as int),
                None => text_at(mem@, abbrev_table@, addr as int).is_none(),
            },
    {
        if addr > mem.len() {
            return None;
        }
        let zchars: Vec<char> = Vec::new();
        let iter = ZCharIter::new(slice_subrange(mem, addr, mem.len()));
        assert(iter.mem@ =~= mem@.skip(addr as int));
        match ZString::parse_into(iter, mem, abbrev_table, zchars, true) {
            None => None,
            Some((n_bytes, zchars)) => {
                let string = string_of(&zchars);
                assert(zchars@.skip(0) =~= zchars@);
                Some(ZString { len_words: n_bytes, string })
            },
        }
    }

    /// Appends to `chars` what one step adds to the text. An abbreviation is
    /// expanded only when `top` holds.
    #[verifier::rlimit(50)]
    pub fn emit<'a>(
        emit: Emit,
        mem: &'a [u8],
        abbrev_table: &'a [u8],
        chars: Vec<char>,
        top: bool,
    ) -> (r: Option<Vec<char>>)
        ensures
            match r {
                Some(out) => emitted(
                    mem@,
                    abbrev_table@,
                    emit,
                    if top {
                        1
                    } else {
                        0
                    },
                ) == Some(out@.skip(chars@.len() as int)) && out@.take(chars@.len() as int)
                    == chars@ && out@.len() >= chars@.len(),
                None => emitted(
                    mem@,
                    abbrev_table@,
                    emit,
                    if top {
                        1
                    } else {
                        0
                    },
                ).is_none(),
            },
        decreases
            (if top {
                1int
            } else {
                0int
            }),
            0int,
    {
        let ghost before = chars@;
        let mut out = chars;
        match emit {
            Emit::Nothing => {
                assert(out@.skip(before.len() as int) =~= Seq::<char>::empty());
                assert(out@.take(before.len() as int) =~= before);
                Some(out)
            },
            Emit::Char(c) => {
                out.push(c);
                assert(out@.skip(before.len() as int) =~= seq![c]);
                assert(out@.take(before.len() as int) =~= before);
                Some(out)
            },
            Emit::Abbreviation(entry) => {
                if !top || entry >= abbrev_table.len() / 2 {
                    return None;
                }
                let word = pack_word(abbrev_table[2 * entry], abbrev_table[2 * entry + 1]);
                let addr: usize = 2 * (word as usize);
                if addr > mem.len() {
                    return None;
                }
                let inner = ZCharIter::new(slice_subrange(mem, addr, mem.len()));
                assert(inner.mem@ =~= mem@.skip(addr as int));
                match ZString::parse_into(inner, mem, abbrev_table, out, false) {
                    None => None,
                    Some((_, chs)) => Some(chs),
                }
            },
        }
    }

    /// Appends to `chars` the text of the packed string that `iter` stands at
    /// the start of, and counts the bytes that the string takes.
    /// Abbreviations are expanded only when `top` holds. `None` where `expand`
    /// gives `None`, or when the string runs off the end of the bytes.
    #[verifier::rlimit(50)]
    pub fn parse_into<'a>(
        iter: ZCharIter,
        mem: &'a [u8],
        abbrev_table: &'a [u8],
        chars: Vec<char>,
        top: bool,
    ) -> (r: Option<(usize, Vec<char>)>)
        requires
            iter.word_idx == Some(0usize),
            iter.char_idx == 0,
        ensures
            match r {
                Some((n, out)) => zchars_at(iter.mem@, 0).is_some() && n == (zchars_at(
                    iter.mem@,
                    0,
                ).unwrap().len() / 3) * 2 && expand(
                    mem@,
                    abbrev_table@,
                    zchars_at(iter.mem@, 0).unwrap(),
                    TextState::Plain(Alphabet::A0),
                    if top {
                        1
                    } else {
                        0
                    },
                ) == Some(out@.skip(chars@.len() as int)) && out@.take(chars@.len() as int)
                    == chars@ && out@.len() >= chars@.len(),
                None => zchars_at(iter.mem@, 0).is_none() || expand(
                    mem@,
                    abbrev_table@,
                    zchars_at(iter.mem@, 0).unwrap(),
                    TextState::Plain(Alphabet::A0),
                    if top {
                        1
                    } else {
                        0
                    },
                ).is_none(),
            },
        decreases
            (if top {
                1int
            } else {
                0int
            }),
            1int,
    {
        let ghost depth: nat = if top {
            1
        } else {
            0
        };
        let ghost before = chars@;
        let ghost all = zchars_at(iter.mem@, 0);
        let ghost goal = text_after(
            mem@,
            abbrev_table@,
            all,
            TextState::Plain(Alphabet::A0),
            depth,
            Seq::empty(),
        );
        let mut it = iter;
        let mut out = chars;
        let mut state = TextState::Plain(Alphabet::A0);
        let mut n_bytes: usize = 0;
        proof {
            assert(out@.skip(before.len() as int) =~= Seq::<char>::empty());
            assert(out@.take(before.len() as int) =~= before);
            if all.is_some() {
                assert(all.unwrap().skip(0) =~= all.unwrap());
            }
        }
        loop
            invariant
                it.wf(),
                state.wf(),
                it.mem == iter.mem,
                before == chars@,
                all == zchars_at(iter.mem@, 0),
                depth == (if top {
                    1nat
                } else {
                    0nat
                }),
                goal == text_after(
                    mem@,
                    abbrev_table@,
                    all,
                    TextState::Plain(Alphabet::A0),
                    depth,
                    Seq::empty(),
                ),
                out@.len() >= before.len(),
                out@.take(before.len() as int) == before,
                all.is_some() <==> it.rest().is_some(),
                n_bytes % 2 == 0,
                it.word_idx.is_some() ==> n_bytes == it.word_idx.unwrap(),
                all.is_some() ==> all.unwrap().len() == 3 * (n_bytes / 2) + it.char_idx
                    + it.rest().unwrap().len(),
                goal == text_after(
                    mem@,
                    abbrev_table@,
                    it.rest(),
                    state,
                    depth,
                    out@.skip(before.len() as int),
                ),
            decreases it.budget(),
        {
            if !it.has_word() {
                return None;
            }
            let ghost prev = it;
            let ghost prev_out = out@;
            let zc = match it.next() {
                None => {
                    proof {
                        let done = out@.skip(before.len() as int);
                        assert(done + Seq::<char>::empty() =~= done);
                        assert(goal == Some(done));
                        assert(Seq::<char>::empty() + done =~= done);
                    }
                    return Some((n_bytes, out));
                },
                Some(zc) => zc,
            };
            let limit = it.mem.len();
            assert(n_bytes + 2 <= limit);
            if it.char_idx == 0 {
                n_bytes += 2;
            }
            let (next, emit) = state.advance(zc);
            proof {
                if prev.rest().is_some() {
                    lemma_text_after_step(
                        mem@,
                        abbrev_table@,
                        prev.rest().unwrap(),
                        state,
                        depth,
                        prev_out.skip(before.len() as int),
                    );
                }
            }
            out = match ZString::emit(emit, mem, abbrev_table, out, top) {
                None => {
                    return None;
                },
                Some(o) => o,
            };
            proof {
                assert(out@.take(before.len() as int) =~= prev_out.take(before.len() as int));
                assert(out@.skip(before.len() as int) =~= prev_out.skip(before.len() as int)
                    + out@.skip(prev_out.len() as int));
            }
            state = next;
        }
    }

    /// The decoded text.
    pub fn string(self) -> (r: String)
        ensures
            r@ == self.string@,
    {
        self.string
    }

    /// The bytes that the packed string takes.
    pub fn offset(&self) -> (r: usize)
        ensures
            r == self.len_words,
    {
        self.len_words
    }
}


/// Where an alphabet holds a byte, the Z-character found for the byte is one
/// of 6 to 31 and prints the byte in that alphabet.
pub proof fn lemma_lookup_prints(n: u8)
    ensures
        Alphabet::lookup_spec(n).1 == 0 || (6 <= Alphabet::lookup_spec(n).1 < 32
            && Alphabet::lookup_spec(n).0.char_of(Alphabet::lookup_spec(n).1) == n as char),
{
    lemma_alphabet_lengths();
    let c = n as char;
    ALPH_A0@.index_of_first_ensures(c);
    ALPH_A1@.index_of_first_ensures(c);
    ALPH_A2@.index_of_first_ensures(c);
}

/// The bytes that come back from their Z-characters: those that an alphabet
/// holds, but for the first place of the third alphabet, which stands for the
/// escape.
pub open spec fn comes_back(b: u8) -> bool {
    Alphabet::lookup_spec(b).1 != 0 && !(Alphabet::lookup_spec(b).0 == Alphabet::A2
        && Alphabet::lookup_spec(b).1 == 6)
}

/// The numbers of the Z-characters that print the byte `c`.
pub open spec fn encode_numbers(c: u8) -> Seq<u8> {
    ZChar::encode_spec(c).map_values(|z: ZChar| z.value_spec())
}

/// The Z-characters of a byte are one or two numbers below 32: the byte's own
/// number, behind a shift where the byte is not of the lower-case alphabet.
pub proof fn lemma_encode_numbers(c: u8)
    ensures
        encode_numbers(c) == match Alphabet::lookup_spec(c).0 {
            Alphabet::A0 => seq![Alphabet::lookup_spec(c).1],
            Alphabet::A1 => seq![4u8, Alphabet::lookup_spec(c).1],
            Alphabet::A2 => seq![5u8, Alphabet::lookup_spec(c).1],
        },
        1 <= encode_numbers(c).len() <= 2,
        forall|i: int| 0 <= i < encode_numbers(c).len() ==> #[trigger] encode_numbers(c)[i] < 32,
{
    lemma_lookup_prints(c);
    let z = Alphabet::lookup_spec(c).1;
    match Alphabet::lookup_spec(c).0 {
        Alphabet::A0 => {
            assert(encode_numbers(c) =~= seq![z]);
        },
        Alphabet::A1 => {
            assert(encode_numbers(c) =~= seq![4u8, z]);
        },
        Alphabet::A2 => {
            assert(encode_numbers(c) =~= seq![5u8, z]);
        },
    }
}

/// The Z-characters of a byte that comes back print that byte, whatever
/// follows them, and leave the decoder as they found it.
#[verifier::rlimit(50)]
pub proof fn lemma_expand_encoded(mem: Seq<u8>, abbrev: Seq<u8>, c: u8, tail: Seq<u8>, depth: nat)
    requires
        comes_back(c),
    ensures
        expand(mem, abbrev, encode_numbers(c) + tail, TextState::Plain(Alphabet::A0), depth)
            == match expand(mem, abbrev, tail, TextState::Plain(Alphabet::A0), depth) {
            None => None,
            Some(t) => Some(seq![c as char] + t),
        },
{
    lemma_lookup_prints(c);
    lemma_encode_numbers(c);
    let z = Alphabet::lookup_spec(c).1;
    let alph = Alphabet::lookup_spec(c).0;
    let start = TextState::Plain(Alphabet::A0);
    let all = encode_numbers(c) + tail;
    let rest = expand(mem, abbrev, tail, start, depth);
    assert(ZChar::classify(z) == ZChar::Char(z));
    match alph {
        Alphabet::A0 => {
            assert(all.skip(1) =~= tail);
            assert(all[0] == z);
            assert(start.step(z) == (start, Emit::Char(c as char)));
            lemma_expand_unfold(mem, abbrev, all, start, depth);
            assert(emitted(mem, abbrev, Emit::Char(c as char), depth) == Some(seq![c as char]));
        },
        _ => {
            let shift: u8 = if alph == Alphabet::A1 {
                4
            } else {
                5
            };
            let shifted = TextState::Plain(alph);
            assert(all[0] == shift);
            assert(all.skip(1)[0] == z);
            assert(all.skip(1).skip(1) =~= tail);
            assert(ZChar::classify(shift) == ZChar::Shift(shift));
            assert(start.step(shift) == (shifted, Emit::Nothing));
            assert(shifted.step(z) == (start, Emit::Char(c as char)));
            lemma_expand_unfold(mem, abbrev, all, start, depth);
            lemma_expand_unfold(mem, abbrev, all.skip(1), shifted, depth);
            assert(emitted(mem, abbrev, Emit::Char(c as char), depth) == Some(seq![c as char]));
            assert(emitted(mem, abbrev, Emit::Nothing, depth) == Some(Seq::<char>::empty()));
            let inner = expand(mem, abbrev, all.skip(1), shifted, depth);
            match rest {
                None => {
                    assert(inner.is_none());
                },
                Some(t) => {
                    assert(inner == Some(seq![c as char] + t));
                    assert(Seq::<char>::empty() + (seq![c as char] + t) =~= seq![c as char] + t);
                },
            }
        },
    }
}

/// `k` pad characters.
pub open spec fn pads(k: nat) -> Seq<u8> {
    Seq::new(k, |i: int| 5u8)
}

/// Pad characters print nothing.
pub proof fn lemma_expand_pads(mem: Seq<u8>, abbrev: Seq<u8>, k: nat, alph: Alphabet, depth: nat)
    ensures
        expand(mem, abbrev, pads(k), TextState::Plain(alph), depth) == Some(Seq::<char>::empty()),
    decreases k,
{
    if k > 0 {
        assert(pads(k).skip(1) =~= pads((k - 1) as nat));
        lemma_expand_pads(mem, abbrev, (k - 1) as nat, Alphabet::A2, depth);
        assert(pads(k)[0] == 5u8);
        assert(ZChar::classify(5) == ZChar::Shift(5));
        assert(TextState::Plain(alph).step(5) == (TextState::Plain(Alphabet::A2), Emit::Nothing));
        lemma_expand_unfold(mem, abbrev, pads(k), TextState::Plain(alph), depth);
        assert(emitted(mem, abbrev, Emit::Nothing, depth) == Some(Seq::<char>::empty()));
        assert(Seq::<char>::empty() + Seq::<char>::empty() =~= Seq::<char>::empty());
    }
}

/// The six Z-characters of a word of packed text pair, read back from the
/// words that hold them.
pub proof fn lemma_pack3_fields(a: u16, b: u16, c: u16, flag: u16)
    by (bit_vector)
    requires
        a < 32,
        b < 32,
        c < 32,
        flag <= 1,
    ensures
        field_get((flag * 0x8000 + a * 1024 + b * 32 + c) as u16, 5, 10) == a,
        field_get((flag * 0x8000 + a * 1024 + b * 32 + c) as u16, 5, 5) == b,
        field_get((flag * 0x8000 + a * 1024 + b * 32 + c) as u16, 5, 0) == c,
        field_get((flag * 0x8000 + a * 1024 + b * 32 + c) as u16, 1, 15) == flag,
{
}

} // verus!
