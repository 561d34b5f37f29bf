//! The tokeniser: from a line of input to the words of the parse buffer, each
//! with the dictionary entry that its first six Z-characters select.

use vstd::prelude::*;
use vstd::slice::*;
use crate::bits::{field_mask, field_put, hi_byte, lo_byte, word_of, ZWord};
use crate::zmemory::{
    be_byte, dict_base, dict_entry_len, dict_keys, dict_seps, lower, to_lower, MemView,
    ZDictionary, ZMemory,
};
use crate::zstr::{
    comes_back, encode_numbers, expand, is_last_word, lemma_encode_numbers,
    lemma_expand_encoded, lemma_expand_pads, lemma_pack3_fields, pads, text_at, zchars_at,
    zchars_of_word, Alphabet, TextState, ZChar, ZCharWord,
};

verus! {

/// The Z-character that fills a key up to six.
pub const PAD: u8 = 5;

/// The text positions that are scanned: a word's place must fit a byte.
pub const SCAN_LIMIT: usize = 255;

/// The numbers of the Z-characters that print the bytes of `word`, each byte
/// taken in lower case.
pub open spec fn encode_bytes(word: Seq<u8>) -> Seq<u8>
    decreases word.len(),
{
    if word.len() == 0 {
        Seq::empty()
    } else {
        encode_numbers(lower(word[0])) + encode_bytes(word.skip(1))
    }
}

/// Encoding a word with one more byte appends that byte's Z-characters.
pub proof fn lemma_encode_bytes_push(word: Seq<u8>, b: u8)
    ensures
        encode_bytes(word.push(b)) == encode_bytes(word) + encode_numbers(lower(b)),
    decreases word.len(),
{
    let enc = |c: u8| encode_numbers(lower(c));
    if word.len() == 0 {
        assert(word.push(b).skip(1) =~= Seq::<u8>::empty());
        assert(encode_bytes(word.push(b)) =~= enc(b) + encode_bytes(Seq::<u8>::empty()));
        assert(encode_bytes(word) + enc(b) =~= enc(b));
        assert(enc(b) + Seq::<u8>::empty() =~= enc(b));
    } else {
        assert(word.push(b).skip(1) =~= word.skip(1).push(b));
        lemma_encode_bytes_push(word.skip(1), b);
        assert(encode_bytes(word.push(b)) =~= enc(word[0]) + (encode_bytes(word.skip(1)) + enc(b)));
        assert(enc(word[0]) + (encode_bytes(word.skip(1)) + enc(b)) =~= (enc(word[0])
            + encode_bytes(word.skip(1))) + enc(b));
    }
}

/// Z-character `i` of a key: that of the word where it has one, else the pad.
pub open spec fn key_zchar(zs: Seq<u8>, i: int) -> u8 {
    if i < zs.len() {
        zs[i]
    } else {
        PAD
    }
}

/// Three Z-characters in one word, the first highest.
pub open spec fn pack3(a: u8, b: u8, c: u8) -> int {
    a * 1024 + b * 32 + c
}

/// The key made of the first six of the Z-characters `zs`, padded: two words
/// of three, the stop bit set in the second, the first word highest.
pub open spec fn key_of_zchars(zs: Seq<u8>) -> u32 {
    (pack3(key_zchar(zs, 0), key_zchar(zs, 1), key_zchar(zs, 2)) * 0x1_0000 + 0x8000 + pack3(
        key_zchar(zs, 3),
        key_zchar(zs, 4),
        key_zchar(zs, 5),
    )) as u32
}

/// The first `n` of `s`, or all of `s` where it has fewer.
pub open spec fn first_n<T>(s: Seq<T>, n: int) -> Seq<T> {
    if 0 <= n < s.len() {
        s.take(n)
    } else {
        s
    }
}

/// The dictionary key of a word: that of the Z-characters of its first six
/// bytes.
pub open spec fn key_of_word(word: Seq<u8>) -> u32 {
    key_of_zchars(encode_bytes(first_n(word, 6)))
}

/// The word that the four fields of a word of packed text make, each field
/// given by the value that holds it.
pub open spec fn combine(flag: u16, first: u16, second: u16, third: u16) -> u16 {
    let a = (0u16 & !field_mask(1, 15)) | (flag & field_mask(1, 15));
    let b = (a & !field_mask(5, 10)) | (first & field_mask(5, 10));
    let c = (b & !field_mask(5, 5)) | (second & field_mask(5, 5));
    (c & !field_mask(5, 0)) | (third & field_mask(5, 0))
}

/// Three Z-characters written each into its field of a zero word make the
/// word that holds them, with the stop bit where it was written too.
pub proof fn lemma_combine(a: u16, b: u16, c: u16)
    by (bit_vector)
    requires
        a < 32,
        b < 32,
        c < 32,
    ensures
        combine(0, field_put(0, a, 5, 10), field_put(0, b, 5, 5), field_put(0, c, 5, 0)) == a
            * 1024 + b * 32 + c,
        combine(
            field_put(0, 1, 1, 15),
            field_put(0, a, 5, 10),
            field_put(0, b, 5, 5),
            field_put(0, c, 5, 0),
        ) == 0x8000 + a * 1024 + b * 32 + c,
{
}

/// The key of a dictionary entry: two words of packed text.
#[derive(Clone, Copy, Debug)]
pub struct ZDictEntry {
    pub chars: (ZCharWord, ZCharWord),
}

impl ZDictEntry {
    /// The key as one number, the first word highest.
    pub open spec fn key(self) -> u32 {
        (self.chars.0.word() * 0x1_0000 + self.chars.1.word()) as u32
    }

    pub fn as_u32(&self) -> (r: u32)
        ensures
            r == self.key(),
    {
        let hi = self.chars.0.get();
        let lo = self.chars.1.get();
        (hi as u32) * 0x1_0000 + (lo as u32)
    }

    /// The key of the word `slice`.
    #[verifier::rlimit(50)]
    pub fn from_slice(slice: &[u8]) -> (r: ZDictEntry)
        ensures
            r.key() == key_of_word(slice@),
    {
        let mut lo = ZCharWord::new(0);
        let mut hi = ZCharWord::new(0);
        let mut chars: Vec<ZChar> = Vec::new();
        let n: usize = if slice.len() < 6 {
            slice.len()
        } else {
            6
        };
        let mut i: usize = 0;
        assert(slice@.take(0) =~= Seq::<u8>::empty());
        while i < n
            invariant
                i <= n,
                n <= slice@.len(),
                chars@.map_values(|z: ZChar| z.value_spec()) == encode_bytes(slice@.take(i as int)),
                forall|j: int| 0 <= j < chars@.len() ==> (#[trigger] chars@[j]).value_spec() < 32,
            decreases n - i,
        {
            let ghost before = chars@;
            let mut more = ZChar::encode(to_lower(slice[i]));
            let ghost added = more@;
            chars.append(&mut more);
            proof {
                lemma_encode_bytes_push(slice@.take(i as int), slice@[i as int]);
                assert(slice@.take(i + 1) =~= slice@.take(i as int).push(slice@[i as int]));
                assert(chars@.map_values(|z: ZChar| z.value_spec()) =~= before.map_values(
                    |z: ZChar| z.value_spec(),
                ) + added.map_values(|z: ZChar| z.value_spec()));
            }
            i += 1;
        }
        let ghost zs = chars@.map_values(|z: ZChar| z.value_spec());
        assert(slice@.take(n as int) =~= first_n(slice@, 6));
        let z0: u16 = if chars.len() > 0 {
            *chars[0].value() as u16
        } else {
            PAD as u16
        };
        let z1: u16 = if chars.len() > 1 {
            *chars[1].value() as u16
        } else {
            PAD as u16
        };
        let z2: u16 = if chars.len() > 2 {
            *chars[2].value() as u16
        } else {
            PAD as u16
        };
        let z3: u16 = if chars.len() > 3 {
            *chars[3].value() as u16
        } else {
            PAD as u16
        };
        let z4: u16 = if chars.len() > 4 {
            *chars[4].value() as u16
        } else {
            PAD as u16
        };
        let z5: u16 = if chars.len() > 5 {
            *chars[5].value() as u16
        } else {
            PAD as u16
        };
        hi.first.set(z0);
        hi.second.set(z1);
        hi.third.set(z2);
        lo.first.set(z3);
        lo.second.set(z4);
        lo.third.set(z5);
        lo.last_flag.set(1);
        proof {
            lemma_combine(z0, z1, z2);
            lemma_combine(z3, z4, z5);
            assert(hi.word() == combine(
                hi.last_flag.val,
                hi.first.val,
                hi.second.val,
                hi.third.val,
            ));
            assert(lo.word() == combine(
                lo.last_flag.val,
                lo.first.val,
                lo.second.val,
                lo.third.val,
            ));
            assert(z0 == key_zchar(zs, 0));
            assert(z5 == key_zchar(zs, 5));
        }
        ZDictEntry { chars: (hi, lo) }
    }
}


/// One word of the parse buffer: the address of its dictionary entry, 0 where
/// it has none, its length, and its place in the text, counted from 0.
#[derive(Clone, Copy, Debug, PartialEq, Eq, Structural)]
pub struct ZLexWord {
    pub dict_addr: u16,
    pub len: u8,
    pub tb_idx: u8,
}

impl ZLexWord {
    pub fn new(dict_addr: u16, len: u8, tb_idx: u8) -> (r: ZLexWord)
        ensures
            r == (ZLexWord { dict_addr, len, tb_idx }),
    {
        ZLexWord { dict_addr, len, tb_idx }
    }
}

/// The word that ends in front of place `i`, if one has begun at `start`.
pub open spec fn flush(start: int, i: int) -> Seq<(int, int)> {
    if i > start {
        seq![(start, i - start)]
    } else {
        Seq::empty()
    }
}

/// The words of `text` from place `i` on, each as its place and length, when
/// the word in progress began at `start`. A word is a longest run of bytes
/// that are neither a space nor a separator; a separator ends a word and is a
/// word of its own; a space ends a word; a zero, a newline, the end of the
/// text or the scan limit ends the last word.
pub open spec fn spans(text: Seq<u8>, seps: Seq<u8>, i: int, start: int) -> Seq<(int, int)>
    decreases text.len() - i,
{
    if i < 0 || i >= text.len() || i >= SCAN_LIMIT {
        flush(start, i)
    } else if seps.contains(text[i]) {
        flush(start, i) + seq![(i, 1int)] + spans(text, seps, i + 1, i + 1)
    } else if text[i] == 32 {
        flush(start, i) + spans(text, seps, i + 1, i + 1)
    } else if text[i] == 0 || text[i] == 10 {
        flush(start, i)
    } else {
        spans(text, seps, i + 1, start)
    }
}

/// The address of the first dictionary entry whose key is `key`, 0 where
/// there is none.
pub open spec fn found_addr(keys: Seq<u32>, addr: int, entry_len: int, key: u32) -> u16 {
    match keys.index_of_first(key) {
        Some(k) => (addr + k * entry_len) as u16,
        None => 0u16,
    }
}

/// The parse-buffer word of the word of `text` at `span`.
pub open spec fn word_of_span(
    text: Seq<u8>,
    keys: Seq<u32>,
    addr: int,
    entry_len: int,
    span: (int, int),
) -> ZLexWord {
    ZLexWord {
        dict_addr: found_addr(
            keys,
            addr,
            entry_len,
            key_of_word(text.subrange(span.0, span.0 + span.1)),
        ),
        len: span.1 as u8,
        tb_idx: span.0 as u8,
    }
}

/// The first `max_words` words of `text`, each with its dictionary entry.
pub open spec fn lex_words(
    text: Seq<u8>,
    seps: Seq<u8>,
    keys: Seq<u32>,
    addr: int,
    entry_len: int,
    max_words: int,
) -> Seq<ZLexWord> {
    first_n(spans(text, seps, 0, 0), max_words).map_values(
        |span: (int, int)| word_of_span(text, keys, addr, entry_len, span),
    )
}

/// One more word is kept where fewer than `n` came before it, and dropped
/// otherwise.
pub proof fn lemma_first_n_push<T>(s: Seq<T>, x: T, n: int)
    requires
        0 <= n,
    ensures
        first_n(s.push(x), n) == if s.len() < n {
            first_n(s, n).push(x)
        } else {
            first_n(s, n)
        },
{
    if s.len() < n {
        assert(first_n(s.push(x), n) =~= first_n(s, n).push(x));
    } else {
        assert(first_n(s.push(x), n) =~= first_n(s, n));
    }
}

fn contains_byte(v: &Vec<u8>, b: u8) -> (r: bool)
    ensures
        r == v@.contains(b),
{
    let mut i: usize = 0;
    while i < v.len()
        invariant
            i <= v@.len(),
            forall|j: int| 0 <= j < i ==> v@[j] != b,
        decreases v@.len() - i,
    {
        if v[i] == b {
            return true;
        }
        i += 1;
    }
    false
}

fn push_word(
    out: &mut Vec<ZLexWord>,
    text: &[u8],
    dictionary: &ZDictionary,
    start: usize,
    len: usize,
    max_words: usize,
)
    requires
        dictionary.wf(),
        dictionary.addr + dictionary.entries@.len() * dictionary.entry_len <= 0x1_0000,
        start + len <= text@.len(),
        start + len <= SCAN_LIMIT,
        len >= 1,
        forall|k: int| 0 <= k < old(out)@.len() ==> (#[trigger] old(out)@[k]).tb_idx < SCAN_LIMIT,
    ensures
        forall|k: int| 0 <= k < final(out)@.len() ==> (#[trigger] final(out)@[k]).tb_idx < SCAN_LIMIT,
        final(out)@ == if old(out)@.len() < max_words {
            old(out)@.push(
                word_of_span(
                    text@,
                    dictionary.entries@,
                    dictionary.addr as int,
                    dictionary.entry_len as int,
                    (start as int, len as int),
                ),
            )
        } else {
            old(out)@
        },
{
    if out.len() < max_words {
        assert(text@.len() == text.len());
        let word = slice_subrange(text, start, start + len);
        let dict_entry = ZDictEntry::from_slice(word).as_u32();
        let mut dict_addr: usize = 0;
        proof {
            dictionary.entries@.index_of_first_ensures(dict_entry);
        }
        if let Some(addr) = dictionary.lookup(&dict_entry) {
            proof {
                let k = dictionary.entries@.index_of_first(dict_entry).unwrap();
                assert(k * dictionary.entry_len <= dictionary.entries@.len()
                    * dictionary.entry_len) by (nonlinear_arith)
                    requires
                        0 <= k < dictionary.entries@.len(),
                        dictionary.entry_len >= 0,
                ;
            }
            dict_addr = addr;
        }
        out.push(ZLexWord::new(dict_addr as u16, len as u8, start as u8));
    }
}

/// The first `max_words` words of `text`, each with its entry of
/// `dictionary`.
#[verifier::rlimit(50)]
pub fn tokenise(text: &[u8], dictionary: &ZDictionary, max_words: usize) -> (r: Vec<ZLexWord>)
    requires
        dictionary.wf(),
        dictionary.addr + dictionary.entries@.len() * dictionary.entry_len <= 0x1_0000,
    ensures
        r@ == lex_words(
            text@,
            dictionary.separators@,
            dictionary.entries@,
            dictionary.addr as int,
            dictionary.entry_len as int,
            max_words as int,
        ),
        r@.len() <= max_words,
        forall|k: int| 0 <= k < r@.len() ==> (#[trigger] r@[k]).tb_idx < SCAN_LIMIT,
{
    let separators = dictionary.separators();
    let mut words: Vec<ZLexWord> = Vec::new();
    let ghost found: Seq<(int, int)> = Seq::empty();
    let ghost to_word = |span: (int, int)|
        word_of_span(
            text@,
            dictionary.entries@,
            dictionary.addr as int,
            dictionary.entry_len as int,
            span,
        );
    let mut idx: usize = 0;
    let mut i: usize = 0;
    proof {
        assert(found + spans(text@, separators@, 0, 0) =~= spans(text@, separators@, 0, 0));
        assert(first_n(found, max_words as int).map_values(to_word) =~= words@);
    }
    while i < text.len() && i < SCAN_LIMIT
        invariant
            idx <= i,
            i <= text@.len(),
            i <= SCAN_LIMIT,
            text@.len() == text.len(),
            dictionary.wf(),
            dictionary.addr + dictionary.entries@.len() * dictionary.entry_len <= 0x1_0000,
            separators@ == dictionary.separators@,
            to_word == |span: (int, int)|
                word_of_span(
                    text@,
                    dictionary.entries@,
                    dictionary.addr as int,
                    dictionary.entry_len as int,
                    span,
                ),
            spans(text@, separators@, 0, 0) == found + spans(text@, separators@, i as int, idx as int),
            words@ == first_n(found, max_words as int).map_values(to_word),
            words@.len() <= max_words,
            forall|k: int| 0 <= k < words@.len() ==> (#[trigger] words@[k]).tb_idx < SCAN_LIMIT,
        ensures
            i >= text@.len() || i >= SCAN_LIMIT || (!separators@.contains(text@[i as int])
                && text@[i as int] != 32 && (text@[i as int] == 0 || text@[i as int] == 10)),
        decreases text@.len() - i,
    {
        let ch = text[i];
        let ghost rest = spans(text@, separators@, i + 1, i + 1);
        if contains_byte(separators, ch) {
            if i > idx {
                push_word(&mut words, text, dictionary, idx, i - idx, max_words);
                proof {
                    lemma_first_n_push(found, (idx as int, i - idx), max_words as int);
                    assert(first_n(found.push((idx as int, i - idx)), max_words as int).map_values(
                        to_word,
                    ) =~= words@);
                    found = found.push((idx as int, i - idx));
                }
            }
            push_word(&mut words, text, dictionary, i, 1, max_words);
            proof {
                lemma_first_n_push(found, (i as int, 1int), max_words as int);
                assert(first_n(found.push((i as int, 1int)), max_words as int).map_values(to_word)
                    =~= words@);
                found = found.push((i as int, 1int));
                assert(found + rest =~= spans(text@, separators@, 0, 0));
            }
            idx = i + 1;
        } else if ch == 32 {
            if i > idx {
                push_word(&mut words, text, dictionary, idx, i - idx, max_words);
                proof {
                    lemma_first_n_push(found, (idx as int, i - idx), max_words as int);
                    assert(first_n(found.push((idx as int, i - idx)), max_words as int).map_values(
                        to_word,
                    ) =~= words@);
                    found = found.push((idx as int, i - idx));
                }
            }
            proof {
                assert(found + rest =~= spans(text@, separators@, 0, 0));
            }
            idx = i + 1;
        } else if ch == 0 || ch == 10 {
            break ;
        }
        i += 1;
    }
    let ghost scanned = found;
    if i > idx {
        push_word(&mut words, text, dictionary, idx, i - idx, max_words);
        proof {
            lemma_first_n_push(found, (idx as int, i - idx), max_words as int);
            assert(first_n(found.push((idx as int, i - idx)), max_words as int).map_values(to_word)
                =~= words@);
            found = found.push((idx as int, i - idx));
        }
    }
    proof {
        assert(found =~= scanned + flush(idx as int, i as int));
        assert(spans(text@, separators@, i as int, idx as int) == flush(idx as int, i as int));
        assert(found =~= spans(text@, separators@, 0, 0));
    }
    words
}


/// Byte `k` of the records of the parse buffer: each word takes four, the
/// address of its dictionary entry as a word, its length, and its place in
/// the text buffer, which is one more than its place in the text.
pub open spec fn record_byte(words: Seq<ZLexWord>, k: int) -> u8 {
    let word = words[k / 4];
    if k % 4 == 0 {
        hi_byte(word.dict_addr)
    } else if k % 4 == 1 {
        lo_byte(word.dict_addr)
    } else if k % 4 == 2 {
        word.len
    } else {
        (word.tb_idx + 1) as u8
    }
}

/// The tokeniser with the addresses of the text buffer and of the parse
/// buffer.
#[derive(Clone, Copy, Debug)]
pub struct ZLexicalAnalyzer {
    pub tb_addr: u16,
    pub pb_addr: u16,
}

impl ZLexicalAnalyzer {
    pub fn new(tb_addr: u16, pb_addr: u16) -> (r: ZLexicalAnalyzer)
        ensures
            r.tb_addr == tb_addr,
            r.pb_addr == pb_addr,
    {
        ZLexicalAnalyzer { tb_addr, pb_addr }
    }

    /// The words of the text buffer of `m`: those of the text from offset 1
    /// of the buffer on, with the image's dictionary, at most as many as the
    /// first byte of the parse buffer says.
    pub open spec fn words(self, m: MemView) -> Seq<ZLexWord> {
        let dict = m.bytes.skip(m.dictionary_idx as int);
        lex_words(
            m.bytes.skip(self.tb_addr + 1),
            dict.subrange(1, 1 + dict_seps(dict)),
            dict_keys(dict),
            m.dictionary_idx + dict_base(dict),
            dict_entry_len(dict),
            m.bytes[self.pb_addr as int] as int,
        )
    }

    /// The tokeniser can run on `m`: the dictionary and the start of both
    /// buffers lie inside the image, and so do the records of all words.
    pub open spec fn can_run(self, m: MemView) -> bool {
        &&& m.has_dictionary()
        &&& self.tb_addr + 1 <= m.bytes.len()
        &&& self.pb_addr < m.bytes.len()
        &&& self.pb_addr + 2 + 4 * self.words(m).len() <= m.bytes.len()
    }

    /// The image after the tokeniser has run: byte 1 of the parse buffer
    /// holds the number of words, the records follow from byte 2 on, and
    /// nothing else has changed.
    pub open spec fn result(self, m: MemView) -> MemView {
        let words = self.words(m);
        m.with_bytes(
            Seq::new(
                m.bytes.len(),
                |i: int|
                    if i == self.pb_addr + 1 {
                        words.len() as u8
                    } else if self.pb_addr + 2 <= i < self.pb_addr + 2 + 4 * words.len() {
                        record_byte(words, i - self.pb_addr - 2)
                    } else {
                        m.bytes[i]
                    },
            ),
        )
    }

    /// Splits the text buffer into words and writes them to the parse buffer;
    /// tells whether that could be done, and leaves the image as it was where
    /// it could not.
    #[verifier::rlimit(50)]
    pub fn run(&self, mem: &mut ZMemory) -> (ok: bool)
        requires
            old(mem).wf(),
        ensures
            final(mem).wf(),
            ok == self.can_run(old(mem)@),
            final(mem)@ == if ok {
                self.result(old(mem)@)
            } else {
                old(mem)@
            },
    {
        let tb = self.tb_addr as usize + 1;
        let pb = self.pb_addr as usize;
        if !mem.has_dictionary() || tb > mem.len() || pb >= mem.len() {
            return false;
        }
        let dictionary = mem.dictionary();
        let max_words = mem.read_byte(pb) as usize;
        let words = tokenise(mem.slice(tb), &dictionary, max_words);
        assert(words@ == self.words(mem@));
        if 2 + 4 * words.len() > mem.len() - pb {
            return false;
        }
        mem.set_byte(pb + 1, words.len() as u8);
        let mut k: usize = 0;
        while k < words.len()
            invariant
                k <= words@.len(),
                words@.len() <= 255,
                pb == self.pb_addr,
                pb + 2 + 4 * words@.len() <= mem.bytes@.len(),
                mem.bytes@.len() == old(mem).bytes@.len(),
                mem.globals_idx == old(mem).globals_idx,
                mem.objects_idx == old(mem).objects_idx,
                mem.abbrev_idx == old(mem).abbrev_idx,
                mem.dictionary_idx == old(mem).dictionary_idx,
                forall|j: int| 0 <= j < words@.len() ==> (#[trigger] words@[j]).tb_idx < SCAN_LIMIT,
                forall|i: int|
                    0 <= i < mem.bytes@.len() ==> mem.bytes@[i] == if i == pb + 1 {
                        words@.len() as u8
                    } else if pb + 2 <= i < pb + 2 + 4 * k {
                        record_byte(words@, i - pb - 2)
                    } else {
                        old(mem).bytes@[i]
                    },
            decreases words@.len() - k,
        {
            let word = words[k];
            let at = pb + 2 + 4 * k;
            mem.set_word(at, ZWord(word.dict_addr));
            mem.set_byte(at + 2, word.len);
            mem.set_byte(at + 3, word.tb_idx + 1);
            k += 1;
        }
        assert(mem.bytes@ =~= self.result(old(mem)@).bytes);
        true
    }
}


/// The characters of a word in lower case.
pub open spec fn lowered(word: Seq<u8>) -> Seq<char> {
    word.map_values(|b: u8| lower(b) as char)
}

/// The four bytes of a key, the highest first.
pub open spec fn key_bytes(key: u32) -> Seq<u8> {
    seq![be_byte(key, 0), be_byte(key, 1), be_byte(key, 2), be_byte(key, 3)]
}

/// The Z-characters of a word whose bytes all come back are below 32.
pub proof fn lemma_encode_bytes_small(word: Seq<u8>)
    ensures
        forall|i: int| 0 <= i < encode_bytes(word).len() ==> #[trigger] encode_bytes(word)[i] < 32,
    decreases word.len(),
{
    if word.len() > 0 {
        lemma_encode_numbers(lower(word[0]));
        lemma_encode_bytes_small(word.skip(1));
        let first = encode_numbers(lower(word[0]));
        let rest = encode_bytes(word.skip(1));
        assert forall|i: int| 0 <= i < encode_bytes(word).len() implies #[trigger] encode_bytes(
            word,
        )[i] < 32 by {
            if i < first.len() {
                assert(encode_bytes(word)[i] == first[i]);
            } else {
                assert(encode_bytes(word)[i] == rest[i - first.len()]);
            }
        }
    }
}

/// The Z-characters of a word whose bytes all come back print the word in
/// lower case, whatever follows them.
#[verifier::rlimit(50)]
pub proof fn lemma_expand_word(mem: Seq<u8>, abbrev: Seq<u8>, word: Seq<u8>, tail: Seq<u8>, depth: nat)
    requires
        forall|i: int| 0 <= i < word.len() ==> comes_back(lower(#[trigger] word[i])),
    ensures
        expand(mem, abbrev, encode_bytes(word) + tail, TextState::Plain(Alphabet::A0), depth)
            == match expand(mem, abbrev, tail, TextState::Plain(Alphabet::A0), depth) {
            None => None,
            Some(t) => Some(lowered(word) + t),
        },
    decreases word.len(),
{
    if word.len() == 0 {
        assert(encode_bytes(word) + tail =~= tail);
        match expand(mem, abbrev, tail, TextState::Plain(Alphabet::A0), depth) {
            None => {},
            Some(t) => {
                assert(lowered(word) + t =~= t);
            },
        }
    } else {
        let rest = word.skip(1);
        assert forall|i: int| 0 <= i < rest.len() implies comes_back(lower(#[trigger] rest[i])) by {
            assert(rest[i] == word[i + 1]);
        }
        lemma_expand_word(mem, abbrev, rest, tail, depth);
        lemma_expand_encoded(mem, abbrev, lower(word[0]), encode_bytes(rest) + tail, depth);
        assert(encode_bytes(word) + tail =~= encode_numbers(lower(word[0])) + (encode_bytes(rest)
            + tail));
        match expand(mem, abbrev, tail, TextState::Plain(Alphabet::A0), depth) {
            None => {},
            Some(t) => {
                assert(seq![lower(word[0]) as char] + (lowered(rest) + t) =~= lowered(word) + t);
            },
        }
    }
}

/// The four bytes of the number made of two words are the bytes of the
/// words.
pub proof fn lemma_key_bytes_words(hi: u16, lo: u16)
    ensures
        word_of(
            be_byte((hi * 0x1_0000 + lo) as u32, 0),
            be_byte((hi * 0x1_0000 + lo) as u32, 1),
        ) == hi,
        word_of(
            be_byte((hi * 0x1_0000 + lo) as u32, 2),
            be_byte((hi * 0x1_0000 + lo) as u32, 3),
        ) == lo,
{
}

/// Four bytes whose second word has the stop bit, and whose first has not,
/// hold the Z-characters of both words.
pub proof fn lemma_two_words(mem: Seq<u8>, hi: u16, lo: u16)
    requires
        mem.len() == 4,
        word_of(mem[0], mem[1]) == hi,
        word_of(mem[2], mem[3]) == lo,
        !is_last_word(hi),
        is_last_word(lo),
    ensures
        zchars_at(mem, 0) == Some(zchars_of_word(hi) + zchars_of_word(lo)),
{
    assert(zchars_at(mem, 2) == Some(zchars_of_word(lo)));
}

/// The packed text of a key holds the six Z-characters that the key was made
/// of.
#[verifier::rlimit(50)]
pub proof fn lemma_key_zchars(zs: Seq<u8>)
    requires
        forall|i: int| 0 <= i < zs.len() ==> #[trigger] zs[i] < 32,
    ensures
        zchars_at(key_bytes(key_of_zchars(zs)), 0) == Some(
            seq![
                key_zchar(zs, 0),
                key_zchar(zs, 1),
                key_zchar(zs, 2),
                key_zchar(zs, 3),
                key_zchar(zs, 4),
                key_zchar(zs, 5),
            ],
        ),
{
    let z0 = key_zchar(zs, 0);
    let z1 = key_zchar(zs, 1);
    let z2 = key_zchar(zs, 2);
    let z3 = key_zchar(zs, 3);
    let z4 = key_zchar(zs, 4);
    let z5 = key_zchar(zs, 5);
    let hi = pack3(z0, z1, z2) as u16;
    let lo = (0x8000 + pack3(z3, z4, z5)) as u16;
    lemma_key_bytes_words(hi, lo);
    lemma_pack3_fields(z0 as u16, z1 as u16, z2 as u16, 0);
    lemma_pack3_fields(z3 as u16, z4 as u16, z5 as u16, 1);
    lemma_two_words(key_bytes(key_of_zchars(zs)), hi, lo);
    assert(zchars_of_word(hi) + zchars_of_word(lo) =~= seq![z0, z1, z2, z3, z4, z5]);
}

/// The key of a word, read as packed text, is the word in lower case: for
/// every word of at most six bytes that all come back from their
/// Z-characters, and whose Z-characters are at most six.
#[verifier::rlimit(50)]
pub proof fn lemma_key_round_trip(word: Seq<u8>, abbrev: Seq<u8>)
    requires
        word.len() <= 6,
        forall|i: int| 0 <= i < word.len() ==> comes_back(lower(#[trigger] word[i])),
        encode_bytes(word).len() <= 6,
    ensures
        text_at(key_bytes(key_of_word(word)), abbrev, 0) == Some(lowered(word)),
{
    let zs = encode_bytes(word);
    lemma_encode_bytes_small(word);
    lemma_key_zchars(zs);
    let mem = key_bytes(key_of_word(word));
    let padded = seq![
        key_zchar(zs, 0),
        key_zchar(zs, 1),
        key_zchar(zs, 2),
        key_zchar(zs, 3),
        key_zchar(zs, 4),
        key_zchar(zs, 5),
    ];
    assert(mem.skip(0) =~= mem);
    assert(padded =~= zs + pads((6 - zs.len()) as nat));
    lemma_expand_pads(mem, abbrev, (6 - zs.len()) as nat, Alphabet::A0, 1);
    lemma_expand_word(mem, abbrev, word, pads((6 - zs.len()) as nat), 1);
    assert(lowered(word) + Seq::<char>::empty() =~= lowered(word));
}

} // verus!
