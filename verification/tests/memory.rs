use zmachine::bits::ZWord;
use zmachine::zlex::ZDictEntry;
use zmachine::zmemory::{
    Link, PropSearch, ZDictionary, ZGlobals, ZMemory, ZObjectProps, ZObjectTable,
};

const OBJECTS: usize = 0x40;
const GLOBALS: usize = 0x300;
const DICT: usize = 0x500;
const ABBREV: usize = 0x5c0;

fn put_word(mem: &mut [u8], at: usize, v: u16) {
    mem[at] = (v >> 8) as u8;
    mem[at + 1] = (v & 0xff) as u8;
}

fn put_object(mem: &mut [u8], obj: usize, parent: u8, sibling: u8, child: u8, props: u16) {
    let at = OBJECTS + 62 + 9 * (obj - 1);
    mem[at + 4] = parent;
    mem[at + 5] = sibling;
    mem[at + 6] = child;
    put_word(mem, at + 7, props);
}

/// An image with six objects, of which 2, 3 and 4 are the children of 1, and
/// 6 is the child of 5; a dictionary of three words; and 240 globals.
fn image() -> Vec<u8> {
    let mut mem = vec![0u8; 0x800];
    mem[0] = 3;
    put_word(&mut mem, 6, 0x0700);
    put_word(&mut mem, 8, DICT as u16);
    put_word(&mut mem, 10, OBJECTS as u16);
    put_word(&mut mem, 12, GLOBALS as u16);
    put_word(&mut mem, 24, ABBREV as u16);
    // the default of property 5
    put_word(&mut mem, OBJECTS + 2 * 4, 0x1234);
    put_object(&mut mem, 1, 0, 0, 2, 0x00d0);
    put_object(&mut mem, 2, 1, 3, 0, 0x00e8);
    put_object(&mut mem, 3, 1, 4, 0, 0x00e8);
    put_object(&mut mem, 4, 1, 0, 0, 0x00e8);
    put_object(&mut mem, 5, 0, 0, 6, 0x00e8);
    put_object(&mut mem, 6, 5, 0, 0, 0x00e8);
    // the properties of object 1: the name "box", then 20, 7 and 3
    let box_word: u16 = 0x8000 | (7 << 10) | (20 << 5) | 29;
    mem[0xd0] = 1;
    put_word(&mut mem, 0xd1, box_word);
    mem[0xd3] = 0x34;
    mem[0xd4] = 0xab;
    mem[0xd5] = 0xcd;
    mem[0xd6] = 0x07;
    mem[0xd7] = 0x11;
    mem[0xd8] = 0x63;
    mem[0xd9] = 1;
    mem[0xda] = 2;
    mem[0xdb] = 3;
    mem[0xdc] = 4;
    mem[0xdd] = 0;
    // no name and no properties
    mem[0xe8] = 0;
    mem[0xe9] = 0;
    // the dictionary
    mem[DICT] = 2;
    mem[DICT + 1] = b',';
    mem[DICT + 2] = b'.';
    mem[DICT + 3] = 7;
    put_word(&mut mem, DICT + 4, 3);
    for (k, word) in ["mailbox", "open", "take"].iter().enumerate() {
        let key = ZDictEntry::from_slice(word.as_bytes()).as_u32();
        let at = DICT + 6 + 7 * k;
        mem[at..at + 4].copy_from_slice(&key.to_be_bytes());
    }
    mem
}

fn memory() -> ZMemory {
    let mut mem = ZMemory::default();
    mem.reset(image());
    mem
}

fn children(mem: &ZMemory, parent: u8) -> Vec<u8> {
    let mut out = Vec::new();
    let mut next = mem.get_object_child(parent);
    while let Some(o) = next {
        out.push(o);
        next = mem.get_object_sibling(o);
    }
    out
}

#[test]
fn reset_reads_the_header() {
    let mem = memory();
    assert_eq!(mem.len(), 0x800);
    assert_eq!(mem.dictionary_idx, DICT);
    assert_eq!(mem.objects_idx, OBJECTS);
    assert_eq!(mem.globals_idx, GLOBALS);
    assert_eq!(mem.abbrev_idx, ABBREV);
    assert_eq!(mem.header().len(), 64);
    assert_eq!(mem.header()[0], 3);
}

#[test]
fn bytes_and_words() {
    let mut mem = memory();
    mem.set_word(0x600, ZWord(0xbeef));
    assert_eq!(mem.read_byte(0x600), 0xbe);
    assert_eq!(mem.read_byte(0x601), 0xef);
    assert_eq!(mem.read_word(0x600).0, 0xbeef);
    mem.set_byte(0x601, 0x01);
    assert_eq!(mem.read_word(0x600).0, 0xbe01);
    assert!(mem.has_byte(0x7ff));
    assert!(!mem.has_byte(0x800));
    assert!(mem.has_word(0x7fe));
    assert!(!mem.has_word(0x7ff));
    assert_eq!(mem.slice(0x7fe).len(), 2);
}

#[test]
fn globals() {
    let mut mem = memory();
    assert!(mem.has_global(0));
    assert!(mem.has_global(239));
    assert!(!mem.has_global(240));
    mem.set_global(0, ZWord(0x0102));
    mem.set_global(239, ZWord(0xfffe));
    assert_eq!(mem.global(0).0, 0x0102);
    assert_eq!(mem.global(239).0, 0xfffe);
    assert_eq!(mem.read_word(GLOBALS).0, 0x0102);
    assert_eq!(mem.read_word(GLOBALS + 478).0, 0xfffe);
    let table = ZGlobals::new(GLOBALS);
    assert_eq!(table.get(&mem.bytes, 239).0, 0xfffe);
    assert!(!table.has(&mem.bytes[..GLOBALS + 10], 5));
}

#[test]
fn object_links() {
    let mem = memory();
    assert!(mem.has_object(1));
    assert!(mem.has_object(6));
    assert!(!mem.has_object(0));
    assert_eq!(mem.get_object_parent(2), 1);
    assert_eq!(mem.get_object_parent(1), 0);
    assert_eq!(mem.get_object_child(1), Some(2));
    assert_eq!(mem.get_object_child(2), None);
    assert_eq!(mem.get_object_sibling(2), Some(3));
    assert_eq!(mem.get_object_sibling(4), None);
    assert_eq!(children(&mem, 1), vec![2, 3, 4]);
    let table = ZObjectTable::new(OBJECTS);
    let entry = table.get_object(&mem.bytes, 3);
    assert_eq!(entry.addr, OBJECTS + 62 + 18);
    assert_eq!(entry.properties, 0x00e8);
    assert_eq!(entry.sibling_num(&mem.bytes), Some(4));
}

#[test]
fn objects_outside_the_image() {
    let mut short = image();
    short.truncate(OBJECTS + 62 + 9 * 2 + 4);
    let mut mem = ZMemory::default();
    mem.reset(short);
    assert!(mem.has_object(2));
    assert!(!mem.has_object(3));
    assert!(!mem.can_detach(3));
}

#[test]
fn object_insert() {
    let mut mem = memory();
    // detach 6 from 5 first, so that 5 is a lone object D
    mem.remove_obj(6);
    mem.insert_object(5, 1);
    assert_eq!(mem.get_object_child(1), Some(5));
    assert_eq!(mem.get_object_sibling(5), Some(2));
    assert_eq!(mem.get_object_parent(5), 1);
    assert_eq!(children(&mem, 1), vec![5, 2, 3, 4]);
}

#[test]
fn insert_moves_a_child_to_another_parent() {
    let mut mem = memory();
    mem.insert_object(3, 5);
    assert_eq!(children(&mem, 1), vec![2, 4]);
    assert_eq!(children(&mem, 5), vec![3, 6]);
    assert_eq!(mem.get_object_parent(3), 5);
}

#[test]
fn insert_into_an_object_without_children() {
    let mut mem = memory();
    mem.insert_object(4, 6);
    assert_eq!(children(&mem, 6), vec![4]);
    assert_eq!(mem.get_object_sibling(4), None);
    assert_eq!(children(&mem, 1), vec![2, 3]);
}

#[test]
fn insert_the_first_child_again() {
    let mut mem = memory();
    mem.insert_object(2, 1);
    assert_eq!(children(&mem, 1), vec![2, 3, 4]);
    mem.insert_object(4, 1);
    assert_eq!(children(&mem, 1), vec![4, 2, 3]);
}

#[test]
fn remove_closes_the_chain() {
    let mut mem = memory();
    assert_eq!(mem.locate(1, 3), Link::After(2));
    mem.remove_obj(3);
    assert_eq!(children(&mem, 1), vec![2, 4]);
    assert_eq!(mem.get_object_parent(3), 0);
    assert_eq!(mem.get_object_sibling(3), None);
    assert_eq!(mem.locate(1, 2), Link::First);
    mem.remove_obj(2);
    assert_eq!(children(&mem, 1), vec![4]);
    mem.remove_obj(4);
    assert_eq!(children(&mem, 1), Vec::<u8>::new());
    assert_eq!(mem.locate(1, 4), Link::Missing);
    // an object without a parent stays as it is
    let before = mem.bytes.clone();
    mem.remove_obj(1);
    assert_eq!(mem.bytes, before);
}

#[test]
fn a_chain_that_does_not_end_is_broken() {
    let mut mem = memory();
    // 4 points back at 2, and 6 claims 1 as its parent without being in the chain
    mem.set_object_sibling(4, 2);
    mem.set_object_parent(6, 1);
    assert_eq!(mem.locate(1, 6), Link::Broken);
    assert!(!mem.can_detach(6));
    assert!(mem.can_detach(3));
}

#[test]
fn attributes() {
    let mut mem = memory();
    let at = OBJECTS + 62 + 9;
    assert!(!mem.test_attr(2, 0));
    mem.set_attr(2, 0);
    assert_eq!(mem.read_byte(at), 0x80);
    mem.set_attr(2, 31);
    assert_eq!(mem.read_byte(at + 3), 0x01);
    mem.set_attr(2, 9);
    assert_eq!(mem.read_byte(at + 1), 0x40);
    assert!(mem.test_attr(2, 0));
    assert!(mem.test_attr(2, 9));
    assert!(mem.test_attr(2, 31));
    assert!(!mem.test_attr(2, 8));
    mem.clear_attr(2, 9);
    assert!(!mem.test_attr(2, 9));
    assert!(mem.test_attr(2, 0));
    assert_eq!(mem.read_byte(at + 1), 0);
    // the links are untouched
    assert_eq!(mem.get_object_parent(2), 1);
    // object 0 has no attribute
    assert!(!mem.test_attr(0, 3));
}

#[test]
fn property_values() {
    let mem = memory();
    assert_eq!(mem.get_prop(1, 20).0, 0xabcd);
    assert_eq!(mem.get_prop(1, 7).0, 0x0011);
    assert_eq!(mem.get_prop(1, 3).0, 0x0102);
    // absent: the default
    assert_eq!(mem.get_prop(1, 5).0, 0x1234);
    assert_eq!(mem.get_prop(2, 5).0, 0x1234);
    assert_eq!(mem.get_prop(2, 20).0, 0);
    assert!(mem.try_get_prop(1, 0).is_none());
    assert!(mem.try_get_prop(1, 32).is_none());
    assert!(mem.try_get_prop(0, 5).is_none());
}

#[test]
fn property_search() {
    let mem = memory();
    let list = mem.props_of(1).unwrap();
    assert_eq!(list.addr, 0xd3);
    assert_eq!(list.find(&mem.bytes, 20), PropSearch::Found(0xd3));
    assert_eq!(list.find(&mem.bytes, 7), PropSearch::Found(0xd6));
    assert_eq!(list.find(&mem.bytes, 3), PropSearch::Found(0xd8));
    assert_eq!(list.find(&mem.bytes, 4), PropSearch::Absent);
    assert_eq!(list.get(&mem.bytes, 7), Some(0x11));
    assert_eq!(list.idx_of(&mem.bytes, 3), Some(0xd9));
    assert_eq!(list.after(&mem.bytes, 0), Some(20));
    // a list that runs off the end
    assert_eq!(ZObjectProps::new(0xd3).find(&mem.bytes[..0xd8], 3), PropSearch::Broken);
    assert_eq!(ZObjectProps::new(0x900).find(&mem.bytes, 3), PropSearch::Broken);
}

#[test]
fn put_prop_writes_by_length() {
    let mut mem = memory();
    mem.put_prop(1, 20, ZWord(0xbeef));
    assert_eq!(mem.get_prop(1, 20).0, 0xbeef);
    mem.put_prop(1, 7, ZWord(0x01ff));
    assert_eq!(mem.read_byte(0xd7), 0xff);
    assert_eq!(mem.get_prop(1, 7).0, 0x00ff);
    mem.put_prop(1, 3, ZWord(0x0a0b));
    assert_eq!(&mem.bytes[0xd9..0xdd], &[0x0a, 0x0b, 3, 4]);
    // a property that the object does not hold: nothing changes
    let before = mem.bytes.clone();
    mem.put_prop(1, 5, ZWord(0x7777));
    assert!(mem.try_put_prop(2, 9, ZWord(1)));
    assert_eq!(mem.bytes, before);
    assert!(!mem.try_put_prop(0, 9, ZWord(1)));
    assert!(!mem.try_put_prop(1, 0, ZWord(1)));
}

#[test]
fn property_addresses_and_lengths() {
    let mem = memory();
    assert_eq!(mem.get_prop_addr(1, 20), 0xd4);
    assert_eq!(mem.get_prop_addr(1, 7), 0xd7);
    assert_eq!(mem.get_prop_addr(1, 3), 0xd9);
    assert_eq!(mem.get_prop_addr(1, 5), 0);
    assert_eq!(mem.get_prop_len(0xd4), 2);
    assert_eq!(mem.get_prop_len(0xd7), 1);
    assert_eq!(mem.get_prop_len(0xd9), 4);
    assert_eq!(mem.get_prop_len(0), 0);
    assert_eq!(mem.try_get_prop_len(0x801), None);
    assert_eq!(mem.try_get_prop_addr(1, 0), None);
}

#[test]
fn next_property() {
    let mem = memory();
    assert_eq!(mem.get_next_prop(1, 0), 20);
    assert_eq!(mem.get_next_prop(1, 20), 7);
    assert_eq!(mem.get_next_prop(1, 7), 3);
    assert_eq!(mem.get_next_prop(1, 3), 0);
    assert_eq!(mem.try_get_next_prop(1, 9), None);
    assert_eq!(mem.try_get_next_prop(2, 0), None);
    assert_eq!(mem.try_get_next_prop(0, 0), None);
}

#[test]
fn object_names() {
    let mem = memory();
    assert_eq!(mem.get_object_name(1), Some("box".to_string()));
    assert_eq!(mem.get_object_name(2), Some(String::new()));
    assert_eq!(mem.get_object_name(0), None);
    assert_eq!(mem.try_get_object_name(0), None);
    let (text, len) = mem.read_string(0xd1);
    assert_eq!((text.as_str(), len), ("box", 2));
    assert!(mem.try_read_string(0x7ff).is_none());
}

#[test]
fn dictionary_lookup() {
    let mem = memory();
    assert!(mem.has_dictionary());
    let dict = mem.dictionary();
    assert_eq!(dict.separators(), &vec![b',', b'.']);
    assert_eq!(dict.entry_len, 7);
    assert_eq!(dict.entries.len(), 3);
    assert_eq!(dict.addr, DICT + 6);
    let open = ZDictEntry::from_slice(b"open").as_u32();
    let take = ZDictEntry::from_slice(b"take").as_u32();
    let mailbox = ZDictEntry::from_slice(b"mailbox").as_u32();
    let lamp = ZDictEntry::from_slice(b"lamp").as_u32();
    assert_eq!(dict.lookup(&mailbox), Some(DICT + 6));
    assert_eq!(dict.lookup(&open), Some(DICT + 13));
    assert_eq!(dict.lookup(&take), Some(DICT + 20));
    assert_eq!(dict.lookup(&lamp), None);
    let direct = ZDictionary::new(&mem.bytes[DICT..], DICT);
    assert_eq!(direct.lookup(&open), Some(DICT + 13));
}

#[test]
fn the_first_of_equal_keys_is_found() {
    let mut bytes = image();
    let open = ZDictEntry::from_slice(b"open").as_u32();
    bytes[DICT + 20..DICT + 24].copy_from_slice(&open.to_be_bytes());
    let mut mem = ZMemory::default();
    mem.reset(bytes);
    assert_eq!(mem.dictionary().lookup(&open), Some(DICT + 13));
}

#[test]
fn a_dictionary_outside_the_image_is_refused() {
    let mut bytes = image();
    put_word(&mut bytes, DICT + 4, 0x4000);
    let mut mem = ZMemory::default();
    mem.reset(bytes);
    assert!(!mem.has_dictionary());
    let mut bytes = image();
    bytes[DICT + 3] = 3;
    let mut mem = ZMemory::default();
    mem.reset(bytes);
    assert!(!mem.has_dictionary());
}

#[test]
fn write_text_lowers_and_ends_with_zero() {
    let mut mem = memory();
    mem.set_byte(0x625, 0xee);
    assert!(mem.fits_text(0x620, "Open Box"));
    mem.write_text(0x620, "Open Box");
    assert_eq!(&mem.bytes[0x621..0x62a], b"open box\0");
    assert_eq!(mem.read_byte(0x620), 0);
    assert_eq!(mem.read_byte(0x62a), 0);
    mem.write_text(0x630, "");
    assert_eq!(mem.read_byte(0x631), 0);
    assert!(!mem.fits_text(0x7fd, "ab"));
    assert!(mem.fits_text(0x7fd, "a"));
}
