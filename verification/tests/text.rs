use zmachine::zlex::ZDictEntry;
use zmachine::zstr::{Alphabet, TextState, ZChar, ZCharIter, ZCharWord, ZSCIIChar, ZString};

/// Packs Z-characters three to a word, pads with 5, and sets the stop bit in
/// the last word.
fn pack(zchars: &[u8]) -> Vec<u8> {
    let mut zs = zchars.to_vec();
    while zs.len() % 3 != 0 || zs.is_empty() {
        zs.push(5);
    }
    let mut out = Vec::new();
    let words = zs.len() / 3;
    for w in 0..words {
        let mut word: u16 =
            ((zs[3 * w] as u16) << 10) | ((zs[3 * w + 1] as u16) << 5) | (zs[3 * w + 2] as u16);
        if w + 1 == words {
            word |= 0x8000;
        }
        out.push((word >> 8) as u8);
        out.push((word & 0xff) as u8);
    }
    out
}

#[test]
fn zchar_word_fields() {
    let word = ZCharWord::new(0b1_00110_00111_01000);
    assert!(word.last_flag.is_set());
    assert_eq!(word.first.value_of(), 6);
    assert_eq!(word.second.value_of(), 7);
    assert_eq!(word.third.value_of(), 8);
    assert_eq!(word.get(), 0b1_00110_00111_01000);
}

#[test]
fn iterator_yields_three_per_word_and_stops_at_the_stop_bit() {
    let mem = pack(&[6, 7, 8, 9, 10, 11]);
    let mut iter = ZCharIter::new(&mem);
    let mut seen = Vec::new();
    while iter.has_word() {
        match iter.next() {
            Some(z) => seen.push(z),
            None => break,
        }
    }
    assert_eq!(seen, vec![6, 7, 8, 9, 10, 11]);
    assert_eq!(iter.next(), None);
}

#[test]
fn iterator_reports_a_string_that_runs_off_the_end() {
    // no stop bit in the only word
    let mem = vec![0x18, 0xe8];
    let mut iter = ZCharIter::new(&mem);
    assert_eq!(iter.next(), Some(6));
    assert_eq!(iter.next(), Some(7));
    assert_eq!(iter.next(), Some(8));
    assert!(!iter.has_word());
    assert!(ZString::decode(&mem, 0, &[]).is_none());
}

#[test]
fn alphabets() {
    assert_eq!(Alphabet::A0.get(6), 'a');
    assert_eq!(Alphabet::A0.get(31), 'z');
    assert_eq!(Alphabet::A1.get(6), 'A');
    assert_eq!(Alphabet::A1.get(31), 'Z');
    assert_eq!(Alphabet::A2.get(7), '\n');
    assert_eq!(Alphabet::A2.get(8), '0');
    assert_eq!(Alphabet::A2.get(17), '9');
    assert_eq!(Alphabet::A2.get(18), '.');
    assert_eq!(Alphabet::A2.get(31), ')');
    assert_eq!(Alphabet::A1.get(0), ' ');
    assert_eq!(Alphabet::new(4), Alphabet::A1);
    assert_eq!(Alphabet::new(5), Alphabet::A2);
    assert_eq!(Alphabet::new(9), Alphabet::A0);
}

#[test]
fn alphabet_lookup() {
    assert_eq!(Alphabet::lookup(b'a'), (Alphabet::A0, 6));
    assert_eq!(Alphabet::lookup(b'z'), (Alphabet::A0, 31));
    assert_eq!(Alphabet::lookup(b'Q'), (Alphabet::A1, 22));
    assert_eq!(Alphabet::lookup(b'0'), (Alphabet::A2, 8));
    assert_eq!(Alphabet::lookup(b','), (Alphabet::A2, 19));
    assert_eq!(Alphabet::lookup(b' '), (Alphabet::A2, 6));
    assert_eq!(Alphabet::lookup(b'@'), (Alphabet::A0, 0));
}

#[test]
fn zchar_classes_and_encoding() {
    assert_eq!(ZChar::new(0), ZChar::Char(0));
    assert_eq!(ZChar::new(2), ZChar::Abbrev(2));
    assert_eq!(ZChar::new(4), ZChar::Shift(4));
    assert_eq!(ZChar::new(6), ZChar::Char(6));
    assert_eq!(ZChar::encode(b'c'), vec![ZChar::Char(8)]);
    assert_eq!(ZChar::encode(b'C'), vec![ZChar::Shift(4), ZChar::Char(8)]);
    assert_eq!(ZChar::encode(b'7'), vec![ZChar::Shift(5), ZChar::Char(15)]);
    assert_eq!(*ZChar::Shift(5).value(), 5);
    assert_eq!(u8::from(ZChar::Abbrev(3)), 3);
}

#[test]
fn zscii_escape_halves() {
    let mut z = ZSCIIChar::new();
    assert_eq!(z.get(), None);
    z.push_raw_zchar(2);
    assert_eq!(z.get(), None);
    z.push_raw_zchar(1);
    // (2 << 5) | 1 = 65
    assert_eq!(z.get(), Some('A'));
}

#[test]
fn decoder_states() {
    let plain = TextState::Plain(Alphabet::A0);
    assert_eq!(plain.advance(4).0, TextState::Plain(Alphabet::A1));
    assert_eq!(plain.advance(2).0, TextState::Abbrev(Alphabet::A0, 2));
    assert_eq!(
        TextState::Plain(Alphabet::A2).advance(6).0,
        TextState::Escape(ZSCIIChar(None, None))
    );
    // a character brings the first alphabet back
    assert_eq!(TextState::Plain(Alphabet::A1).advance(7).0, plain);
}

#[test]
fn decodes_lower_case_text() {
    // "hello"
    let mem = pack(&[13, 10, 17, 17, 20]);
    let z = ZString::new(&mem, 0, &[]);
    assert_eq!(z.offset(), 4);
    assert_eq!(z.string(), "hello");
}

#[test]
fn decodes_shifts_spaces_and_digits() {
    // "Hi 42!"
    let mem = pack(&[4, 13, 14, 0, 5, 12, 5, 10, 5, 20]);
    let z = ZString::new(&mem, 0, &[]);
    assert_eq!(z.offset(), 8);
    assert_eq!(z.string(), "Hi 42!");
}

#[test]
fn a_shift_lasts_for_one_character() {
    // shift to A1, 'A', then 'b' in A0 again
    let mem = pack(&[4, 6, 7]);
    assert_eq!(ZString::new(&mem, 0, &[]).string(), "Ab");
}

#[test]
fn decodes_a_zscii_escape() {
    // A2, escape, the halves 2 and 1 give code 65; then "a"
    let mem = pack(&[5, 6, 2, 1, 6]);
    assert_eq!(ZString::new(&mem, 0, &[]).string(), "Aa");
}

#[test]
fn decodes_from_an_offset() {
    let mut mem = vec![0xff, 0xff];
    mem.extend(pack(&[6, 7, 8]));
    let z = ZString::new(&mem, 2, &[]);
    assert_eq!(z.offset(), 2);
    assert_eq!(z.string(), "abc");
}

#[test]
fn abbreviation_expansion() {
    // entry 0 of the table names the word address 4, that is byte 8, where
    // "the " is stored; the string at 0 is abbreviation (1, 0) and then "cat"
    let mut mem = pack(&[1, 0, 8, 6, 25]);
    assert_eq!(mem.len(), 4);
    mem.extend([0, 0, 0, 0]);
    mem.extend(pack(&[25, 13, 10, 0]));
    let mut table = vec![0u8; 192];
    table[0] = 0;
    table[1] = 4;
    let z = ZString::new(&mem, 0, &table);
    assert_eq!(z.offset(), 4);
    assert_eq!(z.string(), "the cat");
}

#[test]
fn abbreviation_entry_number() {
    // abbreviation (2, 3) is entry 32 + 3
    let mut mem = pack(&[2, 3, 5]);
    mem.extend([0, 0]);
    mem.extend(pack(&[30, 20, 26])); // "you" at byte 4
    let mut table = vec![0u8; 192];
    table[2 * 35 + 1] = 2;
    assert_eq!(ZString::new(&mem, 0, &table).string(), "you");
}

#[test]
fn abbreviations_do_not_nest() {
    // the abbreviation's own text holds an abbreviation
    let mut mem = pack(&[1, 0, 5]);
    mem.extend(pack(&[1, 0, 5]));
    let mut table = vec![0u8; 192];
    table[1] = 1;
    assert!(ZString::decode(&mem, 0, &table).is_none());
}

#[test]
fn abbreviation_outside_the_table_is_refused() {
    let mem = pack(&[3, 31, 5]);
    assert!(ZString::decode(&mem, 0, &[0, 0]).is_none());
    assert!(ZString::decode(&mem, 7, &[0, 0]).is_none());
}

#[test]
fn dictionary_key_of_a_short_word() {
    // "open": o=20 p=21 e=10 n=19, then two pads
    let key = ZDictEntry::from_slice(b"open").as_u32();
    let hi: u32 = (20 << 10) | (21 << 5) | 10;
    let lo: u32 = 0x8000 | (19 << 10) | (5 << 5) | 5;
    assert_eq!(key, (hi << 16) | lo);
}

#[test]
fn dictionary_key_uses_six_zchars_in_lower_case() {
    assert_eq!(
        ZDictEntry::from_slice(b"mailbox").as_u32(),
        ZDictEntry::from_slice(b"mailbo").as_u32()
    );
    assert_eq!(
        ZDictEntry::from_slice(b"MaIlBoX").as_u32(),
        ZDictEntry::from_slice(b"mailbox").as_u32()
    );
    assert_ne!(
        ZDictEntry::from_slice(b"mailbo").as_u32(),
        ZDictEntry::from_slice(b"mailbx").as_u32()
    );
    // an empty word is six pads
    let pads: u32 = (5 << 10) | (5 << 5) | 5;
    assert_eq!(ZDictEntry::from_slice(b"").as_u32(), (pads << 16) | 0x8000 | pads);
}

#[test]
fn key_round_trip() {
    for word in ["a", "go", "lamp", "mailbo", "x1", "n,e"] {
        let key = ZDictEntry::from_slice(word.as_bytes()).as_u32();
        let bytes = key.to_be_bytes();
        assert_eq!(ZString::new(&bytes, 0, &[]).string(), word);
    }
    let key = ZDictEntry::from_slice(b"LAMP").as_u32();
    assert_eq!(ZString::new(&key.to_be_bytes(), 0, &[]).string(), "lamp");
}

#[test]
fn key_of_a_word_with_too_many_zchars_is_cut() {
    // four digits take eight Z-characters: only three digits fit
    let key = ZDictEntry::from_slice(b"1234").as_u32();
    assert_eq!(ZString::new(&key.to_be_bytes(), 0, &[]).string(), "123");
}
