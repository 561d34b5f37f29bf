use zmachine::zlex::{tokenise, ZDictEntry, ZLexWord, ZLexicalAnalyzer};
use zmachine::zmemory::{ZDictionary, ZMemory};

const DICT: usize = 0x500;

fn put_word(mem: &mut [u8], at: usize, v: u16) {
    mem[at] = (v >> 8) as u8;
    mem[at + 1] = (v & 0xff) as u8;
}

fn image() -> Vec<u8> {
    let mut mem = vec![0u8; 0x800];
    mem[0] = 3;
    put_word(&mut mem, 6, 0x0700);
    put_word(&mut mem, 8, DICT as u16);
    put_word(&mut mem, 10, 0x40);
    put_word(&mut mem, 12, 0x300);
    put_word(&mut mem, 24, 0x5c0);
    mem[DICT] = 2;
    mem[DICT + 1] = b',';
    mem[DICT + 2] = b'.';
    mem[DICT + 3] = 7;
    put_word(&mut mem, DICT + 4, 4);
    for (k, word) in ["mailbox", "open", "take", ","].iter().enumerate() {
        let key = ZDictEntry::from_slice(word.as_bytes()).as_u32();
        let at = DICT + 6 + 7 * k;
        mem[at..at + 4].copy_from_slice(&key.to_be_bytes());
    }
    mem
}

fn dictionary() -> ZDictionary {
    let bytes = image();
    ZDictionary::new(&bytes[DICT..], DICT)
}

const MAILBOX: u16 = (DICT + 6) as u16;
const OPEN: u16 = (DICT + 13) as u16;
const TAKE: u16 = (DICT + 20) as u16;
const COMMA: u16 = (DICT + 27) as u16;

#[test]
fn lex_word_fields() {
    let w = ZLexWord::new(0x0506, 7, 5);
    assert_eq!((w.dict_addr, w.len, w.tb_idx), (0x0506, 7, 5));
}

#[test]
fn tokeniser() {
    let words = tokenise(b"open mailbox\0", &dictionary(), 4);
    assert_eq!(words, vec![ZLexWord::new(OPEN, 4, 0), ZLexWord::new(MAILBOX, 7, 5)]);
}

#[test]
fn a_separator_ends_a_word_and_is_a_word() {
    let words = tokenise(b"take,open.\0", &dictionary(), 10);
    assert_eq!(
        words,
        vec![
            ZLexWord::new(TAKE, 4, 0),
            ZLexWord::new(COMMA, 1, 4),
            ZLexWord::new(OPEN, 4, 5),
            ZLexWord::new(0, 1, 9),
        ]
    );
}

#[test]
fn spaces_make_no_words() {
    let words = tokenise(b"  open   lamp \n take", &dictionary(), 10);
    assert_eq!(words, vec![ZLexWord::new(OPEN, 4, 2), ZLexWord::new(0, 4, 9)]);
    assert_eq!(tokenise(b"\0", &dictionary(), 10), vec![]);
    assert_eq!(tokenise(b"", &dictionary(), 10), vec![]);
    assert_eq!(tokenise(b" , ", &dictionary(), 10), vec![ZLexWord::new(COMMA, 1, 1)]);
}

#[test]
fn the_end_of_the_text_ends_the_last_word() {
    assert_eq!(tokenise(b"take", &dictionary(), 10), vec![ZLexWord::new(TAKE, 4, 0)]);
}

#[test]
fn words_are_capped() {
    let words = tokenise(b"open take open take", &dictionary(), 3);
    assert_eq!(
        words,
        vec![ZLexWord::new(OPEN, 4, 0), ZLexWord::new(TAKE, 4, 5), ZLexWord::new(OPEN, 4, 10)]
    );
    assert_eq!(tokenise(b"open take", &dictionary(), 0), vec![]);
}

#[test]
fn the_scan_stops_at_the_limit() {
    let mut text = vec![b' '; 250];
    text.extend(b"take open");
    let words = tokenise(&text, &dictionary(), 10);
    assert_eq!(words, vec![ZLexWord::new(TAKE, 4, 250)]);
    let mut text = vec![b' '; 252];
    text.extend(b"take");
    let words = tokenise(&text, &dictionary(), 10);
    // only "tak" lies below the limit
    assert_eq!(words, vec![ZLexWord::new(0, 3, 252)]);
}

#[test]
fn run_writes_the_parse_buffer() {
    let mut mem = ZMemory::default();
    mem.reset(image());
    mem.write_text(0x600, "open mailbox");
    mem.set_byte(0x640, 4);
    mem.set_byte(0x64a, 0x77);
    assert!(ZLexicalAnalyzer::new(0x600, 0x640).run(&mut mem));
    assert_eq!(mem.read_byte(0x640), 4);
    assert_eq!(mem.read_byte(0x641), 2);
    assert_eq!(mem.read_word(0x642).0, OPEN);
    assert_eq!(mem.read_byte(0x644), 4);
    assert_eq!(mem.read_byte(0x645), 1);
    assert_eq!(mem.read_word(0x646).0, MAILBOX);
    assert_eq!(mem.read_byte(0x648), 7);
    assert_eq!(mem.read_byte(0x649), 6);
    // nothing behind the records is touched
    assert_eq!(mem.read_byte(0x64a), 0x77);
}

#[test]
fn run_respects_the_cap_of_the_parse_buffer() {
    let mut mem = ZMemory::default();
    mem.reset(image());
    mem.write_text(0x600, "take, open");
    mem.set_byte(0x640, 2);
    assert!(ZLexicalAnalyzer::new(0x600, 0x640).run(&mut mem));
    assert_eq!(mem.read_byte(0x641), 2);
    assert_eq!(mem.read_word(0x642).0, TAKE);
    assert_eq!(mem.read_word(0x646).0, COMMA);
    assert_eq!(mem.read_byte(0x649), 5);
    assert_eq!(mem.read_word(0x64a).0, 0);
}

#[test]
fn run_refuses_buffers_outside_the_image() {
    let mut mem = ZMemory::default();
    mem.reset(image());
    mem.write_text(0x600, "open take open");
    mem.set_byte(0x7f8, 9);
    let before = mem.bytes.clone();
    // three records do not fit behind 0x7f8
    assert!(!ZLexicalAnalyzer::new(0x600, 0x7f8).run(&mut mem));
    assert_eq!(mem.bytes, before);
    assert!(!ZLexicalAnalyzer::new(0x600, 0x800).run(&mut mem));
    assert!(!ZLexicalAnalyzer::new(0x800, 0x640).run(&mut mem));
    mem.set_byte(0x7f8, 1);
    assert!(ZLexicalAnalyzer::new(0x600, 0x7f8).run(&mut mem));
}
