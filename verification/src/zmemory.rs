//! The story image: one byte buffer, and typed views of its tables that hold
//! an offset and take the bytes on demand.

use vstd::prelude::*;
use vstd::slice::*;
use vstd::string::*;
use crate::bits::{
    field_get, hi_byte, lemma_field_bound, lemma_shift_values, lo_byte, pack_word, unpack_word,
    word_of, BitField, ZWord,
};
use crate::zstr::{is_first_index, packed_len, text_at, ZString};

verus! {

/// The big-endian word at offset `i`.
pub open spec fn word_at(mem: Seq<u8>, i: int) -> u16 {
    word_of(mem[i], mem[i + 1])
}

/// `mem` with the big-endian word `v` at offset `i`.
pub open spec fn put_word(mem: Seq<u8>, i: int, v: u16) -> Seq<u8> {
    mem.update(i, hi_byte(v)).update(i + 1, lo_byte(v))
}

/// The number of global variables.
pub const GLOBALS: usize = 240;

/// The bytes that the table of property defaults takes, in front of the
/// object entries.
pub const DEFAULTS_BYTES: usize = 62;

/// The bytes of one object entry.
pub const ENTRY_BYTES: usize = 9;

/// The table of global variables, which starts at `base`.
#[derive(Clone, Copy, Debug)]
pub struct ZGlobals {
    pub base: usize,
}

impl ZGlobals {
    pub fn new(base: usize) -> (r: ZGlobals)
        ensures
            r.base == base,
    {
        ZGlobals { base }
    }

    /// Global `idx` exists and lies inside `mem`.
    pub open spec fn holds(self, mem: Seq<u8>, idx: int) -> bool {
        0 <= idx < GLOBALS && self.base + 2 * idx + 1 < mem.len()
    }

    pub fn has(&self, mem: &[u8], idx: usize) -> (r: bool)
        ensures
            r == self.holds(mem@, idx as int),
    {
        assert(mem@.len() == mem.len());
        idx < GLOBALS && self.base < mem.len() && 2 * idx + 1 < mem.len() - self.base
    }

    pub fn get(&self, mem: &[u8], idx: usize) -> (r: ZWord)
        requires
            self.holds(mem@, idx as int),
        ensures
            r.0 == word_at(mem@, self.base + 2 * idx),
    {
        assert(mem@.len() == mem.len());
        let at = self.base + idx * 2;
        ZWord(pack_word(mem[at], mem[at + 1]))
    }

    pub fn set(&self, mem: &mut Vec<u8>, idx: usize, val: ZWord)
        requires
            self.holds(old(mem)@, idx as int),
        ensures
            final(mem)@ == put_word(old(mem)@, self.base + 2 * idx, val.0),
    {
        assert(mem@.len() == mem.len());
        let at = self.base + idx * 2;
        let (hi, lo) = unpack_word(val.0);
        mem[at] = hi;
        mem[at + 1] = lo;
    }
}

/// The 32-bit number whose bytes are these, the first being the highest.
pub open spec fn be_u32(b0: u8, b1: u8, b2: u8, b3: u8) -> u32 {
    (b0 as int * 0x100_0000 + b1 as int * 0x1_0000 + b2 as int * 0x100 + b3 as int) as u32
}

/// Byte `i` of a 32-bit number, byte 0 being the highest.
pub open spec fn be_byte(v: u32, i: int) -> u8 {
    if i == 0 {
        (v / 0x100_0000) as u8
    } else if i == 1 {
        ((v / 0x1_0000) % 0x100) as u8
    } else if i == 2 {
        ((v / 0x100) % 0x100) as u8
    } else {
        (v % 0x100) as u8
    }
}

/// The bit of attribute `attr` in an entry's 32 attribute bits: attribute 0 is
/// the highest bit of the first byte.
pub open spec fn attr_mask(attr: u8) -> u32 {
    0x8000_0000u32 >> attr
}

/// The 32 attribute bits of the entry at `addr`.
pub open spec fn attrs_at(mem: Seq<u8>, addr: int) -> u32 {
    be_u32(mem[addr], mem[addr + 1], mem[addr + 2], mem[addr + 3])
}

/// `mem` with the 32 attribute bits `v` in the entry at `addr`.
pub open spec fn put_attrs(mem: Seq<u8>, addr: int, v: u32) -> Seq<u8> {
    mem.update(addr, be_byte(v, 0)).update(addr + 1, be_byte(v, 1)).update(
        addr + 2,
        be_byte(v, 2),
    ).update(addr + 3, be_byte(v, 3))
}

fn pack_u32(b0: u8, b1: u8, b2: u8, b3: u8) -> (r: u32)
    ensures
        r == be_u32(b0, b1, b2, b3),
{
    (b0 as u32) * 0x100_0000 + (b1 as u32) * 0x1_0000 + (b2 as u32) * 0x100 + (b3 as u32)
}

fn unpack_u32(v: u32) -> (r: [u8; 4])
    ensures
        r@[0] == be_byte(v, 0),
        r@[1] == be_byte(v, 1),
        r@[2] == be_byte(v, 2),
        r@[3] == be_byte(v, 3),
        be_u32(r@[0], r@[1], r@[2], r@[3]) == v,
{
    [
        (v / 0x100_0000) as u8,
        ((v / 0x1_0000) % 0x100) as u8,
        ((v / 0x100) % 0x100) as u8,
        (v % 0x100) as u8,
    ]
}

/// One entry of the object table: nine bytes at `addr`, of which four hold
/// the attributes, then one each the parent, the sibling and the child, and
/// two the address of the properties. `attributes` and `properties` hold what
/// the entry held when the view was made or last wrote them.
#[derive(Clone, Copy, Debug)]
pub struct ZObjectEntry {
    pub attributes: u32,
    pub properties: u16,
    pub addr: usize,
}

impl ZObjectEntry {
    /// The nine bytes of the entry lie inside `mem`.
    pub open spec fn holds(self, mem: Seq<u8>) -> bool {
        self.addr + ENTRY_BYTES <= mem.len()
    }

    pub fn new(mem: &[u8], addr: usize) -> (r: ZObjectEntry)
        requires
            addr + ENTRY_BYTES <= mem@.len(),
        ensures
            r.addr == addr,
            r.attributes == attrs_at(mem@, addr as int),
            r.properties == word_at(mem@, addr + 7),
    {
        assert(mem@.len() == mem.len());
        let attributes = pack_u32(mem[addr], mem[addr + 1], mem[addr + 2], mem[addr + 3]);
        let properties = pack_word(mem[addr + 7], mem[addr + 8]);
        ZObjectEntry { attributes, properties, addr }
    }

    /// The parent's number; `None` for 0.
    pub fn parent_num(&self, mem: &[u8]) -> (r: Option<u8>)
        requires
            self.holds(mem@),
        ensures
            r == if mem@[self.addr + 4] != 0 {
                Some(mem@[self.addr + 4])
            } else {
                None
            },
    {
        assert(mem@.len() == mem.len());
        let num = mem[self.addr + 4];
        if num != 0 {
            Some(num)
        } else {
            None
        }
    }

    /// The first child's number; `None` for 0.
    pub fn child_num(&self, mem: &[u8]) -> (r: Option<u8>)
        requires
            self.holds(mem@),
        ensures
            r == if mem@[self.addr + 6] != 0 {
                Some(mem@[self.addr + 6])
            } else {
                None
            },
    {
        assert(mem@.len() == mem.len());
        let num = mem[self.addr + 6];
        if num != 0 {
            Some(num)
        } else {
            None
        }
    }

    /// The next sibling's number; `None` for 0.
    pub fn sibling_num(&self, mem: &[u8]) -> (r: Option<u8>)
        requires
            self.holds(mem@),
        ensures
            r == if mem@[self.addr + 5] != 0 {
                Some(mem@[self.addr + 5])
            } else {
                None
            },
    {
        assert(mem@.len() == mem.len());
        let num = mem[self.addr + 5];
        if num != 0 {
            Some(num)
        } else {
            None
        }
    }

    pub fn set_parent(&mut self, mem: &mut Vec<u8>, parent_num: u8)
        requires
            old(self).holds(old(mem)@),
        ensures
            *final(self) == *old(self),
            final(mem)@ == old(mem)@.update(old(self).addr + 4, parent_num),
    {
        assert(mem@.len() == mem.len());
        mem[self.addr + 4] = parent_num;
    }

    pub fn set_child(&mut self, mem: &mut Vec<u8>, child_num: u8)
        requires
            old(self).holds(old(mem)@),
        ensures
            *final(self) == *old(self),
            final(mem)@ == old(mem)@.update(old(self).addr + 6, child_num),
    {
        assert(mem@.len() == mem.len());
        mem[self.addr + 6] = child_num;
    }

    pub fn set_sibling(&mut self, mem: &mut Vec<u8>, sibling_num: u8)
        requires
            old(self).holds(old(mem)@),
        ensures
            *final(self) == *old(self),
            final(mem)@ == old(mem)@.update(old(self).addr + 5, sibling_num),
    {
        assert(mem@.len() == mem.len());
        mem[self.addr + 5] = sibling_num;
    }

    fn store_attributes(&self, mem: &mut Vec<u8>)
        requires
            self.holds(old(mem)@),
        ensures
            final(mem)@ == put_attrs(old(mem)@, self.addr as int, self.attributes),
    {
        assert(mem@.len() == mem.len());
        let bytes = unpack_u32(self.attributes);
        mem[self.addr] = bytes[0];
        mem[self.addr + 1] = bytes[1];
        mem[self.addr + 2] = bytes[2];
        mem[self.addr + 3] = bytes[3];
    }

    /// Sets attribute `attr_num` in the view and in the entry.
    pub fn set_attr(&mut self, mem: &mut Vec<u8>, attr_num: u8)
        requires
            old(self).holds(old(mem)@),
            attr_num < 32,
        ensures
            final(self).addr == old(self).addr,
            final(self).properties == old(self).properties,
            final(self).attributes == old(self).attributes | attr_mask(attr_num),
            final(mem)@ == put_attrs(old(mem)@, old(self).addr as int, final(self).attributes),
    {
        assert(mem@.len() == mem.len());
        self.attributes = self.attributes | (0x8000_0000u32 >> attr_num);
        self.store_attributes(mem);
    }

    /// Clears attribute `attr_num` in the view and in the entry.
    pub fn clear_attr(&mut self, mem: &mut Vec<u8>, attr_num: u8)
        requires
            old(self).holds(old(mem)@),
            attr_num < 32,
        ensures
            final(self).addr == old(self).addr,
            final(self).properties == old(self).properties,
            final(self).attributes == old(self).attributes & !attr_mask(attr_num),
            final(mem)@ == put_attrs(old(mem)@, old(self).addr as int, final(self).attributes),
    {
        assert(mem@.len() == mem.len());
        self.attributes = self.attributes & !(0x8000_0000u32 >> attr_num);
        self.store_attributes(mem);
    }
}

/// The address of the entry of object `obj`, which is not 0, in the table at
/// `base`.
pub open spec fn entry_addr(base: int, obj: u8) -> int {
    base + DEFAULTS_BYTES + ENTRY_BYTES * (obj - 1)
}

/// The object table, which starts at `base` with the property defaults.
#[derive(Clone, Copy, Debug)]
pub struct ZObjectTable {
    pub base: usize,
}

impl ZObjectTable {
    pub fn new(base: usize) -> (r: ZObjectTable)
        ensures
            r.base == base,
    {
        ZObjectTable { base }
    }

    /// `obj` is not 0 and its entry lies inside `mem`.
    pub open spec fn holds(self, mem: Seq<u8>, obj: u8) -> bool {
        obj != 0 && entry_addr(self.base as int, obj) + ENTRY_BYTES <= mem.len()
    }

    pub fn has(&self, mem: &[u8], obj: u8) -> (r: bool)
        ensures
            r == self.holds(mem@, obj),
    {
        assert(mem@.len() == mem.len());
        obj != 0 && self.base <= mem.len() && DEFAULTS_BYTES + ENTRY_BYTES * (obj as usize)
            <= mem.len() - self.base
    }

    /// The entry of object `obj`.
    pub fn get_object(&self, mem: &[u8], obj: u8) -> (r: ZObjectEntry)
        requires
            self.holds(mem@, obj),
        ensures
            r.addr == entry_addr(self.base as int, obj),
            r.attributes == attrs_at(mem@, r.addr as int),
            r.properties == word_at(mem@, r.addr + 7),
            r.holds(mem@),
    {
        assert(mem@.len() == mem.len());
        let obj_idx = (obj as usize - 1) * ENTRY_BYTES;
        ZObjectEntry::new(mem, self.base + DEFAULTS_BYTES + obj_idx)
    }

    /// Property `prop_num`, from 1 to 31, has its default inside `mem`.
    pub open spec fn holds_default(self, mem: Seq<u8>, prop_num: u8) -> bool {
        1 <= prop_num <= 31 && self.base + 2 * (prop_num - 1) + 1 < mem.len()
    }

    pub fn has_default(&self, mem: &[u8], prop_num: u8) -> (r: bool)
        ensures
            r == self.holds_default(mem@, prop_num),
    {
        assert(mem@.len() == mem.len());
        1 <= prop_num && prop_num <= 31 && self.base < mem.len() && 2 * (prop_num as usize - 1) + 1
            < mem.len() - self.base
    }

    /// The value that property `prop_num` has on an object that does not hold
    /// it.
    pub fn get_prop_default(&self, mem: &[u8], prop_num: u8) -> (r: u16)
        requires
            self.holds_default(mem@, prop_num),
        ensures
            r == word_at(mem@, self.base + 2 * (prop_num - 1)),
    {
        assert(mem@.len() == mem.len());
        let prop_idx = (prop_num - 1) as usize * 2;
        pack_word(mem[self.base + prop_idx], mem[self.base + prop_idx + 1])
    }
}


/// The fields of a property's size byte.
#[derive(Clone, Copy, Debug)]
pub struct PropertySize {
    pub size: BitField<3, 5>,
    pub number: BitField<5, 0>,
}

impl PropertySize {
    pub fn new(val: u8) -> (r: Self)
        ensures
            r.size.val == val,
            r.number.val == val,
    {
        PropertySize { size: BitField::new(val as u16), number: BitField::new(val as u16) }
    }
}

/// The bytes of data of the property whose size byte is `s`: its top three
/// bits plus one.
pub open spec fn prop_len(s: u8) -> int {
    field_get(s as u16, 3, 5) + 1
}

/// The number of the property whose size byte is `s`: its low five bits.
pub open spec fn prop_number(s: u8) -> u8 {
    field_get(s as u16, 5, 0) as u8
}

/// A property's data is 1 to 8 bytes, and its number is below 32.
pub proof fn lemma_prop_bounds(s: u8)
    ensures
        1 <= prop_len(s) <= 8,
        prop_number(s) < 32,
        prop_number(s) == field_get(s as u16, 5, 0),
{
    lemma_shift_values();
    lemma_field_bound(s as u16, 3, 5);
    lemma_field_bound(s as u16, 5, 0);
}

/// What a search of a property list ends with.
#[derive(Clone, Copy, Debug, PartialEq, Eq, Structural)]
pub enum PropSearch {
    /// The property's size byte stands at this address.
    Found(usize),
    /// The list ends without the property.
    Absent,
    /// The list runs off the end of the bytes.
    Broken,
}

/// The search for property `num` in the list that starts at `at`. The list is
/// walked from size byte to size byte until one holds the number or is zero.
/// Every property passed, and the one found, lies wholly inside `mem`.
pub open spec fn find_prop(mem: Seq<u8>, at: int, num: u8) -> PropSearch
    decreases mem.len() - at,
{
    if at < 0 || at >= mem.len() {
        PropSearch::Broken
    } else if mem[at] == 0 {
        PropSearch::Absent
    } else if at + prop_len(mem[at]) >= mem.len() {
        PropSearch::Broken
    } else if prop_number(mem[at]) == num {
        PropSearch::Found(at as usize)
    } else {
        find_prop(mem, at + prop_len(mem[at]) + 1, num)
    }
}

/// A property that is found lies wholly inside the bytes, holds the number
/// that was sought, and is not the end of the list.
pub proof fn lemma_find_prop(mem: Seq<u8>, at: int, num: u8)
    requires
        mem.len() <= usize::MAX,
    ensures
        match find_prop(mem, at, num) {
            PropSearch::Found(a) => at <= a && a + prop_len(mem[a as int]) < mem.len()
                && prop_number(mem[a as int]) == num && mem[a as int] != 0,
            _ => true,
        },
    decreases mem.len() - at,
{
    if at < 0 || at >= mem.len() {
    } else if mem[at] == 0 {
    } else if at + prop_len(mem[at]) >= mem.len() {
    } else if prop_number(mem[at]) == num {
    } else {
        lemma_prop_bounds(mem[at]);
        lemma_find_prop(mem, at + prop_len(mem[at]) + 1, num);
    }
}

/// The value of the property whose size byte stands at `at`: its one byte, or
/// the word made of its first two.
pub open spec fn prop_value(mem: Seq<u8>, at: int) -> u16 {
    if prop_len(mem[at]) == 1 {
        mem[at + 1] as u16
    } else {
        word_at(mem, at + 1)
    }
}

/// `mem` with `val` in the property whose size byte stands at `at`: the low
/// byte where the property has one byte, else the word in its first two.
pub open spec fn put_prop_value(mem: Seq<u8>, at: int, val: u16) -> Seq<u8> {
    if prop_len(mem[at]) == 1 {
        mem.update(at + 1, lo_byte(val))
    } else {
        put_word(mem, at + 1, val)
    }
}

/// One property: its size byte, and the address of its data.
#[derive(Clone, Copy, Debug)]
pub struct ZObjectProperty {
    pub size: PropertySize,
    pub addr: usize,
}

impl ZObjectProperty {
    pub fn new(size: u8, addr: usize) -> (r: ZObjectProperty)
        ensures
            r.addr == addr,
            r.size.size.val == size,
            r.size.number.val == size,
    {
        ZObjectProperty { addr, size: PropertySize::new(size) }
    }

    /// The size byte of the view is the one in front of the data, and the
    /// data lies inside `mem`.
    pub open spec fn holds(self, mem: Seq<u8>) -> bool {
        &&& self.addr >= 1
        &&& self.size.size.val == mem[self.addr - 1]
        &&& self.addr + prop_len(mem[self.addr - 1]) <= mem.len()
    }

    pub fn get(&self, mem: &[u8]) -> (r: u16)
        requires
            self.holds(mem@),
        ensures
            r == prop_value(mem@, self.addr - 1),
    {
        assert(mem@.len() == mem.len());
        proof {
            lemma_shift_values();
        }
        let size = self.size.size.value_of();
        if size == 0 {
            mem[self.addr] as u16
        } else {
            pack_word(mem[self.addr], mem[self.addr + 1])
        }
    }

    pub fn put(&mut self, mem: &mut Vec<u8>, val: u16)
        requires
            old(self).holds(old(mem)@),
        ensures
            *final(self) == *old(self),
            final(mem)@ == put_prop_value(old(mem)@, old(self).addr - 1, val),
    {
        assert(mem@.len() == mem.len());
        proof {
            lemma_shift_values();
        }
        let (hi, lo) = unpack_word(val);
        if self.size.size.value_of() == 0 {
            mem[self.addr] = lo;
        } else {
            mem[self.addr] = hi;
            mem[self.addr + 1] = lo;
        }
    }
}

/// The property list that starts at `addr`, behind the short name.
#[derive(Clone, Copy, Debug)]
pub struct ZObjectProps {
    pub addr: usize,
}

impl ZObjectProps {
    pub fn new(addr: usize) -> (r: ZObjectProps)
        ensures
            r.addr == addr,
    {
        ZObjectProps { addr }
    }

    /// Searches the list for property `num`.
    pub fn find(&self, mem: &[u8], num: u8) -> (r: PropSearch)
        ensures
            r == find_prop(mem@, self.addr as int, num),
    {
        assert(mem@.len() == mem.len());
        let mut idx: usize = self.addr;
        loop
            invariant
                mem@.len() == mem.len(),
                find_prop(mem@, self.addr as int, num) == find_prop(mem@, idx as int, num),
            decreases mem@.len() - idx,
        {
            if idx >= mem.len() {
                return PropSearch::Broken;
            }
            let byte = mem[idx];
            if byte == 0 {
                return PropSearch::Absent;
            }
            proof {
                lemma_prop_bounds(byte);
            }
            let prop_size = PropertySize::new(byte);
            let len: usize = prop_size.size.value_of() as usize + 1;
            if len >= mem.len() - idx {
                return PropSearch::Broken;
            }
            if prop_size.number.value_of() == num as u16 {
                return PropSearch::Found(idx);
            }
            idx += len + 1;
        }
    }

    /// The value of property `num`, which is not 0; `None` when the list does
    /// not hold it.
    pub fn get(self, mem: &[u8], num: u8) -> (r: Option<u16>)
        requires
            find_prop(mem@, self.addr as int, num) != PropSearch::Broken,
        ensures
            r == match find_prop(mem@, self.addr as int, num) {
                PropSearch::Found(at) => Some(prop_value(mem@, at as int)),
                _ => None,
            },
    {
        assert(mem@.len() == mem.len());
        proof {
            lemma_find_prop(mem@, self.addr as int, num);
        }
        match self.find(mem, num) {
            PropSearch::Found(at) => {
                let prop = ZObjectProperty::new(mem[at], at + 1);
                Some(prop.get(mem))
            },
            _ => None,
        }
    }

    /// The address of the data of property `num`; `None` when the list does
    /// not hold it.
    pub fn idx_of(self, mem: &[u8], num: u8) -> (r: Option<usize>)
        requires
            find_prop(mem@, self.addr as int, num) != PropSearch::Broken,
        ensures
            r == match find_prop(mem@, self.addr as int, num) {
                PropSearch::Found(at) => Some((at + 1) as usize),
                _ => None,
            },
    {
        assert(mem@.len() == mem.len());
        proof {
            lemma_find_prop(mem@, self.addr as int, num);
        }
        match self.find(mem, num) {
            PropSearch::Found(at) => Some(at + 1),
            _ => None,
        }
    }

    /// Whether `after` may be asked for `num`: for 0 the list's first byte
    /// lies inside `mem`; else the search does not run off the end, and the
    /// size byte behind the property found lies inside `mem`.
    pub open spec fn holds_after(self, mem: Seq<u8>, num: u8) -> bool {
        if num == 0 {
            self.addr < mem.len()
        } else {
            match find_prop(mem, self.addr as int, num) {
                PropSearch::Found(at) => at + prop_len(mem[at as int]) + 1 < mem.len(),
                PropSearch::Absent => true,
                PropSearch::Broken => false,
            }
        }
    }

    pub fn has_after(&self, mem: &[u8], num: u8) -> (r: bool)
        ensures
            r == self.holds_after(mem@, num),
    {
        assert(mem@.len() == mem.len());
        if num == 0 {
            self.addr < mem.len()
        } else {
            proof {
                lemma_find_prop(mem@, self.addr as int, num);
            }
            match self.find(mem, num) {
                PropSearch::Found(at) => {
                    proof {
                        lemma_prop_bounds(mem@[at as int]);
                    }
                    let len: usize = PropertySize::new(mem[at]).size.value_of() as usize + 1;
                    len + 1 < mem.len() - at
                },
                PropSearch::Absent => true,
                PropSearch::Broken => false,
            }
        }
    }

    /// The number of the property behind property `num`, 0 when `num` is the
    /// last; for `num` 0 the number of the first property, `None` when the
    /// list is empty. `None` when the list does not hold `num`.
    pub open spec fn after_spec(self, mem: Seq<u8>, num: u8) -> Option<u8> {
        if num == 0 {
            if mem[self.addr as int] == 0 {
                None
            } else {
                Some(prop_number(mem[self.addr as int]))
            }
        } else {
            match find_prop(mem, self.addr as int, num) {
                PropSearch::Found(at) => Some(
                    prop_number(mem[at + prop_len(mem[at as int]) + 1]),
                ),
                _ => None,
            }
        }
    }

    pub fn after(self, mem: &[u8], num: u8) -> (r: Option<u8>)
        requires
            self.holds_after(mem@, num),
        ensures
            r == self.after_spec(mem@, num),
    {
        assert(mem@.len() == mem.len());
        proof {
            lemma_shift_values();
        }
        if num == 0 {
            let prop = PropertySize::new(mem[self.addr]);
            if mem[self.addr] == 0 {
                return None;
            }
            return Some(prop.number.value_of() as u8);
        }
        proof {
            lemma_find_prop(mem@, self.addr as int, num);
        }
        match self.find(mem, num) {
            PropSearch::Found(at) => {
                proof {
                    lemma_prop_bounds(mem@[at as int]);
                }
                let prop_size = PropertySize::new(mem[at]);
                let next = at + prop_size.size.value_of() as usize + 2;
                let next_prop = PropertySize::new(mem[next]);
                Some(next_prop.number.value_of() as u8)
            },
            _ => None,
        }
    }

    /// `mem` after `put`: the value stands in property `num` where the list
    /// holds it; nothing changes where it does not.
    pub open spec fn put_spec(self, mem: Seq<u8>, num: u8, val: u16) -> Seq<u8> {
        match find_prop(mem, self.addr as int, num) {
            PropSearch::Found(at) => put_prop_value(mem, at as int, val),
            _ => mem,
        }
    }

    pub fn put(self, mem: &mut Vec<u8>, num: u8, val: ZWord)
        requires
            find_prop(old(mem)@, self.addr as int, num) != PropSearch::Broken,
        ensures
            final(mem)@ == self.put_spec(old(mem)@, num, val.0),
            final(mem)@.len() == old(mem)@.len(),
    {
        assert(mem@.len() == mem.len());
        proof {
            lemma_find_prop(mem@, self.addr as int, num);
        }
        match self.find(mem.as_slice(), num) {
            PropSearch::Found(at) => {
                let mut prop = ZObjectProperty::new(mem[at], at + 1);
                prop.put(mem, val.0);
            },
            _ => {},
        }
    }
}


/// The number of separators of the dictionary that starts at the start of
/// `mem`.
pub open spec fn dict_seps(mem: Seq<u8>) -> int {
    mem[0] as int
}

/// The length of one entry of the dictionary.
pub open spec fn dict_entry_len(mem: Seq<u8>) -> int {
    mem[dict_seps(mem) + 1] as int
}

/// The number of entries of the dictionary.
pub open spec fn dict_count(mem: Seq<u8>) -> int {
    word_at(mem, dict_seps(mem) + 2) as int
}

/// The offset of the first entry of the dictionary.
pub open spec fn dict_base(mem: Seq<u8>) -> int {
    dict_seps(mem) + 4
}

/// The dictionary lies inside `mem`, and its entries have room for a key.
pub open spec fn dict_ok(mem: Seq<u8>) -> bool {
    &&& mem.len() >= 1
    &&& dict_base(mem) <= mem.len()
    &&& dict_entry_len(mem) >= 4
    &&& dict_base(mem) + dict_count(mem) * dict_entry_len(mem) <= mem.len()
}

/// The key of entry `k`: its first four bytes as a big-endian number.
pub open spec fn dict_key(mem: Seq<u8>, k: int) -> u32 {
    let at = dict_base(mem) + k * dict_entry_len(mem);
    be_u32(mem[at], mem[at + 1], mem[at + 2], mem[at + 3])
}

/// The keys of all entries, in the order of the entries.
pub open spec fn dict_keys(mem: Seq<u8>) -> Seq<u32> {
    Seq::new(dict_count(mem) as nat, |k: int| dict_key(mem, k))
}

/// A dictionary: the address of its first entry, the length of an entry, the
/// keys of the entries in their order, and the separators.
#[derive(Debug)]
pub struct ZDictionary {
    pub addr: usize,
    pub entry_len: usize,
    pub entries: Vec<u32>,
    pub separators: Vec<u8>,
}

impl ZDictionary {
    /// The address of every entry fits a machine address.
    pub open spec fn wf(self) -> bool {
        self.addr + self.entries@.len() * self.entry_len <= usize::MAX
    }

    /// Reads the dictionary that starts at the start of `mem`, which is the
    /// byte at address `addr` of the image.
    pub fn new(mem: &[u8], addr: usize) -> (r: ZDictionary)
        requires
            dict_ok(mem@),
            addr + mem@.len() <= usize::MAX,
        ensures
            r.wf(),
            r.addr == addr + dict_base(mem@),
            r.entry_len == dict_entry_len(mem@),
            r.separators@ == mem@.subrange(1, 1 + dict_seps(mem@)),
            r.entries@ == dict_keys(mem@),
    {
        assert(mem@.len() == mem.len());
        let sep_len = mem[0] as usize;
        let mut separators: Vec<u8> = Vec::new();
        let mut i: usize = 0;
        while i < sep_len
            invariant
                i <= sep_len,
                sep_len + 4 <= mem@.len(),
                mem@.len() == mem.len(),
                separators@ == mem@.subrange(1, 1 + i),
            decreases sep_len - i,
        {
            separators.push(mem[i + 1]);
            assert(mem@.subrange(1, 1 + (i + 1)) =~= mem@.subrange(1, 1 + i).push(mem@[i + 1]));
            i += 1;
        }
        let mut idx = sep_len + 1;
        let entry_len = mem[idx] as usize;
        idx += 1;
        let n_entries = pack_word(mem[idx], mem[idx + 1]) as usize;
        idx += 2;
        let mut entries: Vec<u32> = Vec::new();
        let mut k: usize = 0;
        let mut at: usize = idx;
        while k < n_entries
            invariant
                k <= n_entries,
                mem@.len() == mem.len(),
                idx == dict_base(mem@),
                entry_len == dict_entry_len(mem@),
                n_entries == dict_count(mem@),
                entry_len >= 4,
                idx + n_entries * entry_len <= mem@.len(),
                at == idx + k * entry_len,
                entries@ == Seq::new(k as nat, |j: int| dict_key(mem@, j)),
            decreases n_entries - k,
        {
            assert(at + entry_len <= idx + n_entries * entry_len) by (nonlinear_arith)
                requires
                    at == idx + k * entry_len,
                    k < n_entries,
            ;
            entries.push(pack_u32(mem[at], mem[at + 1], mem[at + 2], mem[at + 3]));
            assert(entries@ =~= Seq::new((k + 1) as nat, |j: int| dict_key(mem@, j)));
            assert(at + entry_len == idx + (k + 1) * entry_len) by (nonlinear_arith)
                requires
                    at == idx + k * entry_len,
            ;
            at += entry_len;
            k += 1;
        }
        ZDictionary { addr: addr + idx, entry_len, separators, entries }
    }

    /// The bytes that end a word and are words themselves.
    pub fn separators(&self) -> (r: &Vec<u8>)
        ensures
            r@ == self.separators@,
    {
        &self.separators
    }

    /// The address of the first entry whose key is `word`.
    pub open spec fn lookup_spec(self, word: u32) -> Option<usize> {
        match self.entries@.index_of_first(word) {
            Some(k) => Some((self.addr + k * self.entry_len) as usize),
            None => None,
        }
    }

    pub fn lookup(&self, word: &u32) -> (r: Option<usize>)
        requires
            self.wf(),
        ensures
            r == self.lookup_spec(*word),
            match r {
                Some(a) => exists|k: int|
                    is_first_index(self.entries@, *word, k) && a == self.addr + k
                        * self.entry_len,
                None => !self.entries@.contains(*word),
            },
    {
        let mut idx: usize = 0;
        while idx < self.entries.len()
            invariant
                idx <= self.entries@.len(),
                self.wf(),
                forall|j: int| 0 <= j < idx ==> self.entries@[j] != *word,
            decreases self.entries@.len() - idx,
        {
            if self.entries[idx] == *word {
                proof {
                    self.entries@.index_of_first_ensures(*word);
                    assert(self.entries@[idx as int] == *word);
                    assert(self.entries@.contains(*word));
                    assert(is_first_index(self.entries@, *word, idx as int));
                }
                assert(idx * self.entry_len <= self.entries@.len() * self.entry_len)
                    by (nonlinear_arith)
                    requires
                        idx <= self.entries@.len(),
                ;
                return Some(self.addr + idx * self.entry_len);
            }
            idx += 1;
        }
        proof {
            self.entries@.index_of_first_ensures(*word);
        }
        None
    }
}


/// Where an object stands among the children of its parent.
#[derive(Clone, Copy, Debug, PartialEq, Eq, Structural)]
pub enum Link {
    /// It is the parent's first child.
    First,
    /// It is the sibling of this object.
    After(u8),
    /// The chain of children ends without it.
    Missing,
    /// The chain leaves the object table or does not end.
    Broken,
}

/// The longest chain of siblings that is followed: no chain of distinct
/// objects is longer.
pub const MAX_CHAIN: usize = 255;

/// The lower-case form of an ASCII byte.
pub open spec fn lower(b: u8) -> u8 {
    if 65 <= b <= 90 {
        (b + 32) as u8
    } else {
        b
    }
}

pub fn to_lower(b: u8) -> (r: u8)
    ensures
        r == lower(b),
{
    if 65 <= b && b <= 90 {
        b + 32
    } else {
        b
    }
}

/// What a story image is, apart from how its bytes are stored.
pub struct MemView {
    pub bytes: Seq<u8>,
    pub globals_idx: usize,
    pub objects_idx: usize,
    pub abbrev_idx: usize,
    pub dictionary_idx: usize,
}

impl MemView {
    /// The image with other bytes and the same table addresses.
    pub open spec fn with_bytes(self, bytes: Seq<u8>) -> MemView {
        MemView { bytes, ..self }
    }

    /// The byte at `idx` lies inside the image.
    pub open spec fn has_byte(self, idx: int) -> bool {
        0 <= idx < self.bytes.len()
    }

    /// The word at `idx` lies inside the image.
    pub open spec fn has_word(self, idx: int) -> bool {
        0 <= idx && idx + 1 < self.bytes.len()
    }

    pub open spec fn set_byte(self, idx: int, v: u8) -> MemView {
        self.with_bytes(self.bytes.update(idx, v))
    }

    pub open spec fn set_word(self, idx: int, v: u16) -> MemView {
        self.with_bytes(put_word(self.bytes, idx, v))
    }

    /// Global `idx` exists and lies inside the image.
    pub open spec fn has_global(self, idx: int) -> bool {
        0 <= idx < GLOBALS && self.globals_idx + 2 * idx + 1 < self.bytes.len()
    }

    pub open spec fn global(self, idx: int) -> u16 {
        word_at(self.bytes, self.globals_idx + 2 * idx)
    }

    pub open spec fn set_global(self, idx: int, v: u16) -> MemView {
        self.with_bytes(put_word(self.bytes, self.globals_idx + 2 * idx, v))
    }

    /// The address of the entry of object `obj`.
    pub open spec fn entry(self, obj: u8) -> int {
        entry_addr(self.objects_idx as int, obj)
    }

    /// `obj` is not 0 and its entry lies inside the image.
    pub open spec fn has_object(self, obj: u8) -> bool {
        obj != 0 && self.entry(obj) + ENTRY_BYTES <= self.bytes.len()
    }

    /// The parent of `obj`, 0 for none.
    pub open spec fn parent(self, obj: u8) -> u8 {
        self.bytes[self.entry(obj) + 4]
    }

    /// The next sibling of `obj`, 0 for none.
    pub open spec fn sibling(self, obj: u8) -> u8 {
        self.bytes[self.entry(obj) + 5]
    }

    /// The first child of `obj`, 0 for none.
    pub open spec fn child(self, obj: u8) -> u8 {
        self.bytes[self.entry(obj) + 6]
    }

    pub open spec fn set_parent(self, obj: u8, v: u8) -> MemView {
        self.with_bytes(self.bytes.update(self.entry(obj) + 4, v))
    }

    pub open spec fn set_sibling(self, obj: u8, v: u8) -> MemView {
        self.with_bytes(self.bytes.update(self.entry(obj) + 5, v))
    }

    pub open spec fn set_child(self, obj: u8, v: u8) -> MemView {
        self.with_bytes(self.bytes.update(self.entry(obj) + 6, v))
    }

    /// The 32 attribute bits of `obj`.
    pub open spec fn attrs(self, obj: u8) -> u32 {
        attrs_at(self.bytes, self.entry(obj))
    }

    /// Whether `obj` has attribute `attr`; object 0 has none.
    pub open spec fn test_attr(self, obj: u8, attr: u8) -> bool {
        obj != 0 && self.attrs(obj) & attr_mask(attr) > 0
    }

    pub open spec fn set_attr(self, obj: u8, attr: u8) -> MemView {
        self.with_bytes(put_attrs(self.bytes, self.entry(obj), self.attrs(obj) | attr_mask(attr)))
    }

    pub open spec fn clear_attr(self, obj: u8, attr: u8) -> MemView {
        self.with_bytes(
            put_attrs(self.bytes, self.entry(obj), self.attrs(obj) & !attr_mask(attr)),
        )
    }

    /// The place of `obj` in the chain of siblings behind `cur`, which is
    /// neither 0 nor `obj`, following at most `fuel` links.
    pub open spec fn walk(self, cur: u8, obj: u8, fuel: nat) -> Link
        decreases fuel,
    {
        if fuel == 0 || !self.has_object(cur) {
            Link::Broken
        } else if self.sibling(cur) == 0 {
            Link::Missing
        } else if self.sibling(cur) == obj {
            Link::After(cur)
        } else {
            self.walk(self.sibling(cur), obj, (fuel - 1) as nat)
        }
    }

    /// The place of `obj` among the children of `parent`.
    pub open spec fn locate(self, parent: u8, obj: u8) -> Link {
        if !self.has_object(parent) {
            Link::Broken
        } else if self.child(parent) == 0 {
            Link::Missing
        } else if self.child(parent) == obj {
            Link::First
        } else {
            self.walk(self.child(parent), obj, MAX_CHAIN as nat)
        }
    }

    /// `obj` can be taken out of the tree: its entry lies inside the image
    /// and, where it has a parent, the parent's chain of children can be
    /// followed to `obj` or to its end.
    pub open spec fn can_detach(self, obj: u8) -> bool {
        self.has_object(obj) && (self.parent(obj) == 0 || self.locate(self.parent(obj), obj)
            != Link::Broken)
    }

    /// The image after `obj` has left its parent: `obj` has no parent; where
    /// it had one and stood among that one's children, the chain is closed
    /// over it and it has no sibling.
    pub open spec fn detach(self, obj: u8) -> MemView {
        let p = self.parent(obj);
        let orphan = self.set_parent(obj, 0);
        if p == 0 {
            orphan
        } else {
            match self.locate(p, obj) {
                Link::First => orphan.set_child(p, self.sibling(obj)).set_sibling(obj, 0),
                Link::After(prev) => orphan.set_sibling(prev, self.sibling(obj)).set_sibling(
                    obj,
                    0,
                ),
                _ => orphan,
            }
        }
    }

    /// The image after `obj` has become the first child of `dest`: `obj`
    /// leaves its parent, then has `dest` as parent and the former first
    /// child of `dest` as sibling.
    pub open spec fn insert(self, obj: u8, dest: u8) -> MemView {
        let loose = self.detach(obj);
        loose.set_parent(obj, dest).set_sibling(obj, loose.child(dest)).set_child(dest, obj)
    }

    /// The address of the property block of `obj`.
    pub open spec fn props(self, obj: u8) -> int {
        word_at(self.bytes, self.entry(obj) + 7) as int
    }

    /// The entry of `obj` and the first byte of its property block lie inside
    /// the image.
    pub open spec fn has_props(self, obj: u8) -> bool {
        self.has_object(obj) && self.props(obj) < self.bytes.len()
    }

    /// The number of words of the short name of `obj`.
    pub open spec fn name_words(self, obj: u8) -> int {
        self.bytes[self.props(obj)] as int
    }

    /// The address of the property list of `obj`, behind its short name.
    pub open spec fn props_start(self, obj: u8) -> int {
        self.props(obj) + 1 + 2 * self.name_words(obj)
    }

    /// The search for property `prop` of `obj`.
    pub open spec fn prop_search(self, obj: u8, prop: u8) -> PropSearch {
        find_prop(self.bytes, self.props_start(obj), prop)
    }

    /// The value of property `prop` of `obj`: the object's own where it holds
    /// the property, else the default. `None` for object 0, a property
    /// outside 1 to 31, or tables that leave the image.
    pub open spec fn get_prop(self, obj: u8, prop: u8) -> Option<u16> {
        if !self.has_props(obj) || prop < 1 || prop > 31 {
            None
        } else {
            match self.prop_search(obj, prop) {
                PropSearch::Found(at) => Some(prop_value(self.bytes, at as int)),
                PropSearch::Absent => Some(word_at(self.bytes, self.objects_idx + 2 * (prop - 1))),
                PropSearch::Broken => None,
            }
        }
    }

    /// The image after a value was put in property `prop` of `obj`; nothing
    /// changes where the object does not hold the property. `None` for object
    /// 0, property 0, or tables that leave the image.
    pub open spec fn put_prop(self, obj: u8, prop: u8, val: u16) -> Option<MemView> {
        if !self.has_props(obj) || prop < 1 {
            None
        } else {
            match self.prop_search(obj, prop) {
                PropSearch::Found(at) => Some(
                    self.with_bytes(put_prop_value(self.bytes, at as int, val)),
                ),
                PropSearch::Absent => Some(self),
                PropSearch::Broken => None,
            }
        }
    }

    /// The address of the data of property `prop` of `obj`, 0 where the
    /// object does not hold it. `None` for object 0, property 0, tables that
    /// leave the image, or an address above 0xffff.
    pub open spec fn get_prop_addr(self, obj: u8, prop: u8) -> Option<u16> {
        if !self.has_props(obj) || prop < 1 {
            None
        } else {
            match self.prop_search(obj, prop) {
                PropSearch::Found(at) => if at + 1 <= 0xffff {
                    Some((at + 1) as u16)
                } else {
                    None
                },
                PropSearch::Absent => Some(0u16),
                PropSearch::Broken => None,
            }
        }
    }

    /// The number of the property of `obj` that follows property `prop`, 0
    /// behind the last; for `prop` 0 the number of the first. `None` for
    /// object 0, an object without `prop`, an object without any property
    /// when `prop` is 0, or tables that leave the image.
    pub open spec fn get_next_prop(self, obj: u8, prop: u8) -> Option<u8> {
        let list = ZObjectProps { addr: self.props_start(obj) as usize };
        if !self.has_props(obj) || !list.holds_after(self.bytes, prop) {
            None
        } else {
            list.after_spec(self.bytes, prop)
        }
    }

    /// The length of the property whose data stands at `addr`, 0 for address
    /// 0. `None` when the size byte in front of `addr` lies outside the image.
    pub open spec fn get_prop_len(self, addr: u16) -> Option<u16> {
        if addr == 0 {
            Some(0u16)
        } else if addr - 1 >= self.bytes.len() {
            None
        } else {
            Some(prop_len(self.bytes[addr - 1]) as u16)
        }
    }

    /// The text of the packed string at `addr`, with the image's
    /// abbreviations.
    pub open spec fn text(self, addr: int) -> Option<Seq<char>> {
        if self.abbrev_idx > self.bytes.len() {
            None
        } else {
            text_at(self.bytes, self.bytes.skip(self.abbrev_idx as int), addr)
        }
    }

    /// The short name of `obj`: empty where the name has no words. `None` for
    /// object 0 or a name that cannot be decoded.
    pub open spec fn object_name(self, obj: u8) -> Option<Seq<char>> {
        if !self.has_props(obj) {
            None
        } else if self.name_words(obj) == 0 {
            Some(Seq::empty())
        } else {
            self.text(self.props(obj) + 1)
        }
    }

    /// The text `text` fits the buffer at `addr`: its bytes and the zero
    /// behind them lie inside the image.
    pub open spec fn fits_text(self, addr: u16, text: Seq<char>) -> bool {
        addr + 1 + text.len() < self.bytes.len()
    }

    /// The image after `text` was written to the buffer at `addr`: from
    /// offset 1 on each character as a lower-case byte, then a zero.
    pub open spec fn with_text(self, addr: u16, text: Seq<char>) -> MemView {
        self.with_bytes(
            Seq::new(
                self.bytes.len(),
                |i: int|
                    if addr + 1 <= i < addr + 1 + text.len() {
                        lower(text[i - addr - 1] as u8)
                    } else if i == addr + 1 + text.len() {
                        0u8
                    } else {
                        self.bytes[i]
                    },
            ),
        )
    }

    /// The dictionary lies inside the image and below address 0x10000.
    pub open spec fn has_dictionary(self) -> bool {
        &&& self.dictionary_idx <= self.bytes.len()
        &&& dict_ok(self.bytes.skip(self.dictionary_idx as int))
        &&& self.dictionary_idx + dict_base(self.bytes.skip(self.dictionary_idx as int))
            + dict_count(self.bytes.skip(self.dictionary_idx as int)) * dict_entry_len(
            self.bytes.skip(self.dictionary_idx as int),
        ) <= 0x1_0000
    }
}


/// The story image with the addresses of its tables, which are read from the
/// header when the image is installed.
#[derive(Debug)]
pub struct ZMemory {
    pub bytes: Vec<u8>,
    pub globals_idx: usize,
    pub objects_idx: usize,
    pub abbrev_idx: usize,
    pub dictionary_idx: usize,
}

impl View for ZMemory {
    type V = MemView;

    open spec fn view(&self) -> MemView {
        MemView {
            bytes: self.bytes@,
            globals_idx: self.globals_idx,
            objects_idx: self.objects_idx,
            abbrev_idx: self.abbrev_idx,
            dictionary_idx: self.dictionary_idx,
        }
    }
}

impl Default for ZMemory {
    fn default() -> (r: ZMemory)
        ensures
            r.bytes@.len() == 0,
            r.globals_idx == 0,
            r.objects_idx == 0,
            r.abbrev_idx == 0,
            r.dictionary_idx == 0,
    {
        ZMemory {
            bytes: Vec::new(),
            globals_idx: 0,
            objects_idx: 0,
            abbrev_idx: 0,
            dictionary_idx: 0,
        }
    }
}

/// The bytes of a header.
pub const HEADER_BYTES: usize = 64;

impl ZMemory {
    /// The image holds a header, and the table addresses are machine
    /// addresses.
    pub open spec fn wf(&self) -> bool {
        &&& self.bytes@.len() >= HEADER_BYTES
        &&& self.globals_idx <= 0xffff
        &&& self.objects_idx <= 0xffff
        &&& self.abbrev_idx <= 0xffff
        &&& self.dictionary_idx <= 0xffff
    }

    /// The number of bytes of the image.
    pub fn len(&self) -> (r: usize)
        ensures
            r == self.bytes@.len(),
    {
        self.bytes.len()
    }

    /// Whether the byte at `idx` lies inside the image.
    pub fn has_byte(&self, idx: usize) -> (r: bool)
        ensures
            r == self@.has_byte(idx as int),
    {
        idx < self.bytes.len()
    }

    /// Whether the word at `idx` lies inside the image.
    pub fn has_word(&self, idx: usize) -> (r: bool)
        ensures
            r == self@.has_word(idx as int),
    {
        idx < self.bytes.len() && self.bytes.len() - idx > 1
    }

    pub fn read_word(&self, idx: usize) -> (r: ZWord)
        requires
            self@.has_word(idx as int),
        ensures
            r.0 == word_at(self.bytes@, idx as int),
    {
        assert(self.bytes@.len() == self.bytes.len());
        ZWord(pack_word(self.bytes[idx], self.bytes[idx + 1]))
    }

    pub fn read_byte(&self, idx: usize) -> (r: u8)
        requires
            self@.has_byte(idx as int),
        ensures
            r == self.bytes@[idx as int],
    {
        self.bytes[idx]
    }

    /// Installs an image and reads the table addresses from its header: the
    /// dictionary at 8, the objects at 10, the globals at 12, the
    /// abbreviations at 24.
    pub fn reset(&mut self, data: Vec<u8>)
        requires
            data@.len() >= HEADER_BYTES,
        ensures
            final(self).wf(),
            final(self).bytes@ == data@,
            final(self).dictionary_idx == word_at(data@, 0x08),
            final(self).objects_idx == word_at(data@, 0x0a),
            final(self).globals_idx == word_at(data@, 0x0c),
            final(self).abbrev_idx == word_at(data@, 0x18),
    {
        self.bytes = data;
        self.globals_idx = self.read_word(0x0C).0 as usize;
        self.objects_idx = self.read_word(0x0A).0 as usize;
        self.abbrev_idx = self.read_word(0x18).0 as usize;
        self.dictionary_idx = self.read_word(0x08).0 as usize;
    }

    /// Whether `obj` is not 0 and its entry lies inside the image.
    pub fn has_object(&self, obj: u8) -> (r: bool)
        ensures
            r == self@.has_object(obj),
    {
        ZObjectTable::new(self.objects_idx).has(self.bytes.as_slice(), obj)
    }

    pub fn set_object_parent(&mut self, obj_num: u8, new_parent: u8)
        requires
            old(self)@.has_object(obj_num),
        ensures
            final(self)@ == old(self)@.set_parent(obj_num, new_parent),
    {
        let mut entry = ZObjectTable::new(self.objects_idx).get_object(
            self.bytes.as_slice(),
            obj_num,
        );
        entry.set_parent(&mut self.bytes, new_parent);
    }

    pub fn set_object_child(&mut self, obj_num: u8, new_child: u8)
        requires
            old(self)@.has_object(obj_num),
        ensures
            final(self)@ == old(self)@.set_child(obj_num, new_child),
    {
        let mut entry = ZObjectTable::new(self.objects_idx).get_object(
            self.bytes.as_slice(),
            obj_num,
        );
        entry.set_child(&mut self.bytes, new_child);
    }

    pub fn set_object_sibling(&mut self, obj_num: u8, new_sibling: u8)
        requires
            old(self)@.has_object(obj_num),
        ensures
            final(self)@ == old(self)@.set_sibling(obj_num, new_sibling),
    {
        let mut entry = ZObjectTable::new(self.objects_idx).get_object(
            self.bytes.as_slice(),
            obj_num,
        );
        entry.set_sibling(&mut self.bytes, new_sibling);
    }

    /// The parent of `obj_num`, 0 for none.
    pub fn get_object_parent(&self, obj_num: u8) -> (r: u8)
        requires
            self@.has_object(obj_num),
        ensures
            r == self@.parent(obj_num),
    {
        let mem = self.bytes.as_slice();
        match ZObjectTable::new(self.objects_idx).get_object(mem, obj_num).parent_num(mem) {
            Some(p) => p,
            None => 0,
        }
    }

    /// The first child of `obj_num`; `None` for none.
    pub fn get_object_child(&self, obj_num: u8) -> (r: Option<u8>)
        requires
            self@.has_object(obj_num),
        ensures
            r == if self@.child(obj_num) != 0 {
                Some(self@.child(obj_num))
            } else {
                None
            },
    {
        let mem = self.bytes.as_slice();
        ZObjectTable::new(self.objects_idx).get_object(mem, obj_num).child_num(mem)
    }

    /// The next sibling of `obj_num`; `None` for none.
    pub fn get_object_sibling(&self, obj_num: u8) -> (r: Option<u8>)
        requires
            self@.has_object(obj_num),
        ensures
            r == if self@.sibling(obj_num) != 0 {
                Some(self@.sibling(obj_num))
            } else {
                None
            },
    {
        let mem = self.bytes.as_slice();
        ZObjectTable::new(self.objects_idx).get_object(mem, obj_num).sibling_num(mem)
    }

    /// The short name of `obj_num`; `None` for object 0 and for a name that
    /// cannot be decoded.
    pub fn try_get_object_name(&self, obj_num: u8) -> (r: Option<String>)
        requires
            self.wf(),
        ensures
            match r {
                Some(name) => self@.object_name(obj_num) == Some(name@),
                None => self@.object_name(obj_num).is_none(),
            },
    {
        if !self.has_object(obj_num) {
            return None;
        }
        let mem = self.bytes.as_slice();
        let address = ZObjectTable::new(self.objects_idx).get_object(mem, obj_num).properties;
        if address as usize >= mem.len() {
            return None;
        }
        if mem[address as usize] == 0 {
            return Some(String::new());
        }
        match self.try_read_string(address as usize + 1) {
            Some((name, _)) => Some(name),
            None => None,
        }
    }

    /// The short name of `obj_num`; `None` for object 0.
    pub fn get_object_name(&self, obj_num: u8) -> (r: Option<String>)
        requires
            self.wf(),
            obj_num == 0 || self@.object_name(obj_num).is_some(),
        ensures
            match r {
                Some(name) => obj_num != 0 && self@.object_name(obj_num) == Some(name@),
                None => obj_num == 0,
            },
    {
        if obj_num == 0 {
            None
        } else {
            self.try_get_object_name(obj_num)
        }
    }

    /// The place of `obj` among the children of `parent`.
    pub fn locate(&self, parent: u8, obj: u8) -> (r: Link)
        ensures
            r == self@.locate(parent, obj),
    {
        if !self.has_object(parent) {
            return Link::Broken;
        }
        let first = match self.get_object_child(parent) {
            None => {
                return Link::Missing;
            },
            Some(c) => c,
        };
        if first == obj {
            return Link::First;
        }
        let mut current = first;
        let mut fuel: usize = MAX_CHAIN;
        loop
            invariant
                self@.has_object(parent),
                first == self@.child(parent),
                first != 0,
                first != obj,
                self@.walk(first, obj, MAX_CHAIN as nat) == self@.walk(current, obj, fuel as nat),
            decreases fuel,
        {
            if fuel == 0 || !self.has_object(current) {
                return Link::Broken;
            }
            match self.get_object_sibling(current) {
                None => {
                    return Link::Missing;
                },
                Some(sib) => {
                    if sib == obj {
                        return Link::After(current);
                    }
                    current = sib;
                    fuel -= 1;
                },
            }
        }
    }

    /// Whether `obj` can be taken out of the tree.
    pub fn can_detach(&self, obj: u8) -> (r: bool)
        ensures
            r == self@.can_detach(obj),
    {
        if !self.has_object(obj) {
            return false;
        }
        let parent = self.get_object_parent(obj);
        parent == 0 || self.locate(parent, obj) != Link::Broken
    }

    /// Takes `obj` out of the tree: it leaves its parent, and the chain of
    /// the parent's children is closed over it. A forest stays a forest.
    #[verifier::rlimit(50)]
    pub fn remove_obj(&mut self, obj: u8)
        requires
            old(self)@.can_detach(obj),
        ensures
            final(self).bytes@.len() == old(self).bytes@.len(),
            final(self)@ == old(self)@.detach(obj),
            forall|n: u8|
                old(self)@.is_forest(n) && 1 <= obj <= n ==> #[trigger] final(self)@.is_forest(n),
    {
        proof {
            assert forall|n: u8| old(self)@.is_forest(n) && 1 <= obj <= n implies #[trigger] old(
                self,
            )@.detach(obj).is_forest(n) by {
                old(self)@.lemma_remove_keeps_forest(n, obj);
            }
        }
        let parent = self.get_object_parent(obj);
        let link = if parent == 0 {
            Link::Missing
        } else {
            self.locate(parent, obj)
        };
        let sib = match self.get_object_sibling(obj) {
            Some(s) => s,
            None => 0,
        };
        proof {
            old(self)@.lemma_detach_shape(obj);
        }
        self.set_object_parent(obj, 0);
        match link {
            Link::First => {
                self.set_object_child(parent, sib);
                self.set_object_sibling(obj, 0);
            },
            Link::After(prev) => {
                proof {
                    old(self)@.lemma_walk_found(old(self)@.child(parent), obj, MAX_CHAIN as nat);
                }
                self.set_object_sibling(prev, sib);
                self.set_object_sibling(obj, 0);
            },
            _ => {},
        }
    }

    /// Makes `obj` the first child of `dest`. A forest stays a forest, unless
    /// `dest` is `obj` or stands below it.
    #[verifier::rlimit(50)]
    pub fn insert_object(&mut self, obj: u8, dest: u8)
        requires
            old(self)@.can_detach(obj),
            old(self)@.has_object(dest),
        ensures
            final(self).bytes@.len() == old(self).bytes@.len(),
            final(self)@ == old(self)@.insert(obj, dest),
            forall|n: u8|
                old(self)@.is_forest(n) && 1 <= obj <= n && 1 <= dest <= n && !old(
                    self,
                )@.stands_below(dest, obj) ==> #[trigger] final(self)@.is_forest(n),
    {

        self.remove_obj(obj);
        proof {
            old(self)@.lemma_detach_shape(obj);
        }
        let prev_child = match self.get_object_child(dest) {
            Some(c) => c,
            None => 0,
        };
        self.set_object_parent(obj, dest);
        self.set_object_sibling(obj, prev_child);
        self.set_object_child(dest, obj);
        proof {
            assert(self@ == old(self)@.insert(obj, dest));
            assert forall|n: u8|
                old(self)@.is_forest(n) && 1 <= obj <= n && 1 <= dest <= n && !old(
                    self,
                )@.stands_below(dest, obj) implies #[trigger] self@.is_forest(n) by {
                old(self)@.lemma_insert_keeps_forest(n, obj, dest);
            }
        }
    }

    /// Whether `obj_num` has attribute `attr`; object 0 has none.
    pub fn test_attr(&self, obj_num: u8, attr: u8) -> (r: bool)
        requires
            obj_num == 0 || self@.has_object(obj_num),
            attr < 32,
        ensures
            r == self@.test_attr(obj_num, attr),
    {
        if obj_num == 0 {
            return false;
        }
        let obj = ZObjectTable::new(self.objects_idx).get_object(self.bytes.as_slice(), obj_num);
        obj.attributes & (0x8000_0000u32 >> attr) > 0
    }

    pub fn set_attr(&mut self, obj_num: u8, attr: u8)
        requires
            old(self)@.has_object(obj_num),
            attr < 32,
        ensures
            final(self).bytes@.len() == old(self).bytes@.len(),
            final(self)@ == old(self)@.set_attr(obj_num, attr),
    {
        let mut entry = ZObjectTable::new(self.objects_idx).get_object(
            self.bytes.as_slice(),
            obj_num,
        );
        entry.set_attr(&mut self.bytes, attr);
    }

    pub fn clear_attr(&mut self, obj_num: u8, attr: u8)
        requires
            old(self)@.has_object(obj_num),
            attr < 32,
        ensures
            final(self).bytes@.len() == old(self).bytes@.len(),
            final(self)@ == old(self)@.clear_attr(obj_num, attr),
    {
        let mut entry = ZObjectTable::new(self.objects_idx).get_object(
            self.bytes.as_slice(),
            obj_num,
        );
        entry.clear_attr(&mut self.bytes, attr);
    }

    /// The property list of `obj_num`; `None` for object 0 and for a property
    /// block outside the image.
    pub fn props_of(&self, obj_num: u8) -> (r: Option<ZObjectProps>)
        ensures
            match r {
                Some(list) => self@.has_props(obj_num) && list.addr == self@.props_start(obj_num),
                None => !self@.has_props(obj_num),
            },
    {
        if !self.has_object(obj_num) {
            return None;
        }
        let mem = self.bytes.as_slice();
        let address = ZObjectTable::new(self.objects_idx).get_object(mem, obj_num).properties as usize;
        if address >= mem.len() {
            return None;
        }
        let n_header = mem[address] as usize * 2;
        Some(ZObjectProps::new(address + n_header + 1))
    }

    /// Puts `val` in property `prop_num` of `obj_num` and tells whether that
    /// could be done; the image is unchanged where it could not.
    pub fn try_put_prop(&mut self, obj_num: u8, prop_num: u8, val: ZWord) -> (r: bool)
        ensures
            final(self).bytes@.len() == old(self).bytes@.len(),
            match old(self)@.put_prop(obj_num, prop_num, val.0) {
                Some(m) => r && final(self)@ == m,
                None => !r && final(self)@ == old(self)@,
            },
    {
        if prop_num < 1 {
            return false;
        }
        match self.props_of(obj_num) {
            None => false,
            Some(list) => {
                match list.find(self.bytes.as_slice(), prop_num) {
                    PropSearch::Broken => false,
                    _ => {
                        list.put(&mut self.bytes, prop_num, val);
                        true
                    },
                }
            },
        }
    }

    pub fn put_prop(&mut self, obj_num: u8, prop_num: u8, val: ZWord)
        requires
            old(self)@.put_prop(obj_num, prop_num, val.0).is_some(),
        ensures
            final(self)@ == old(self)@.put_prop(obj_num, prop_num, val.0).unwrap(),
    {
        self.try_put_prop(obj_num, prop_num, val);
    }

    pub fn try_get_prop(&self, obj_num: u8, prop_num: u8) -> (r: Option<ZWord>)
        ensures
            match r {
                Some(w) => self@.get_prop(obj_num, prop_num) == Some(w.0),
                None => self@.get_prop(obj_num, prop_num).is_none(),
            },
    {
        if prop_num < 1 || prop_num > 31 {
            return None;
        }
        let mem = self.bytes.as_slice();
        match self.props_of(obj_num) {
            None => None,
            Some(list) => {
                match list.find(mem, prop_num) {
                    PropSearch::Broken => None,
                    _ => {
                        if let Some(p) = list.get(mem, prop_num) {
                            Some(ZWord(p))
                        } else {
                            Some(
                                ZWord(
                                    ZObjectTable::new(self.objects_idx).get_prop_default(
                                        mem,
                                        prop_num,
                                    ),
                                ),
                            )
                        }
                    },
                }
            },
        }
    }

    pub fn get_prop(&self, obj_num: u8, prop_num: u8) -> (r: ZWord)
        requires
            self@.get_prop(obj_num, prop_num).is_some(),
        ensures
            r.0 == self@.get_prop(obj_num, prop_num).unwrap(),
    {
        self.try_get_prop(obj_num, prop_num).unwrap()
    }

    pub fn try_get_next_prop(&self, obj_num: u8, prop_num: u8) -> (r: Option<u8>)
        ensures
            r == self@.get_next_prop(obj_num, prop_num),
    {
        let mem = self.bytes.as_slice();
        match self.props_of(obj_num) {
            None => None,
            Some(list) => {
                if !list.has_after(mem, prop_num) {
                    return None;
                }
                list.after(mem, prop_num)
            },
        }
    }

    pub fn get_next_prop(&self, obj_num: u8, prop_num: u8) -> (r: u8)
        requires
            self@.get_next_prop(obj_num, prop_num).is_some(),
        ensures
            r == self@.get_next_prop(obj_num, prop_num).unwrap(),
    {
        self.try_get_next_prop(obj_num, prop_num).unwrap()
    }

    pub fn try_get_prop_addr(&self, obj_num: u8, prop_num: u8) -> (r: Option<u16>)
        ensures
            r == self@.get_prop_addr(obj_num, prop_num),
    {
        if prop_num < 1 {
            return None;
        }
        let mem = self.bytes.as_slice();
        match self.props_of(obj_num) {
            None => None,
            Some(list) => {
                assert(self.bytes@.len() == self.bytes.len());
                proof {
                    lemma_find_prop(mem@, list.addr as int, prop_num);
                }
                match list.find(mem, prop_num) {
                    PropSearch::Broken => None,
                    _ => {
                        match list.idx_of(mem, prop_num) {
                            Some(a) => if a <= 0xffff {
                                Some(a as u16)
                            } else {
                                None
                            },
                            None => Some(0),
                        }
                    },
                }
            },
        }
    }

    pub fn get_prop_addr(&self, obj_num: u8, prop_num: u8) -> (r: u16)
        requires
            self@.get_prop_addr(obj_num, prop_num).is_some(),
        ensures
            r == self@.get_prop_addr(obj_num, prop_num).unwrap(),
    {
        self.try_get_prop_addr(obj_num, prop_num).unwrap()
    }

    pub fn try_get_prop_len(&self, prop_addr: u16) -> (r: Option<u16>)
        ensures
            r == self@.get_prop_len(prop_addr),
    {
        if prop_addr == 0 {
            Some(0)
        } else if prop_addr as usize - 1 >= self.bytes.len() {
            None
        } else {
            let size_byte = self.bytes[prop_addr as usize - 1];
            proof {
                lemma_prop_bounds(size_byte);
            }
            let prop_size = PropertySize::new(size_byte);
            Some(prop_size.size.value_of() + 1)
        }
    }

    pub fn get_prop_len(&self, prop_addr: u16) -> (r: u16)
        requires
            self@.get_prop_len(prop_addr).is_some(),
        ensures
            r == self@.get_prop_len(prop_addr).unwrap(),
    {
        self.try_get_prop_len(prop_addr).unwrap()
    }

    /// The text of the packed string at `addr` and the bytes that the string
    /// takes; `None` when it cannot be decoded.
    pub fn try_read_string(&self, addr: usize) -> (r: Option<(String, usize)>)
        ensures
            match r {
                Some((text, n)) => self@.text(addr as int) == Some(text@) && n == packed_len(
                    self.bytes@,
                    addr as int,
                ),
                None => self@.text(addr as int).is_none(),
            },
    {
        let mem = self.bytes.as_slice();
        if self.abbrev_idx > mem.len() {
            return None;
        }
        let abbrev = slice_subrange(mem, self.abbrev_idx, mem.len());
        assert(abbrev@ =~= self.bytes@.skip(self.abbrev_idx as int));
        match ZString::decode(mem, addr, abbrev) {
            None => None,
            Some(zstr) => {
                let offset = zstr.offset();
                Some((zstr.string(), offset))
            },
        }
    }

    pub fn read_string(&self, addr: usize) -> (r: (String, usize))
        requires
            self@.text(addr as int).is_some(),
        ensures
            self@.text(addr as int) == Some(r.0@),
            r.1 == packed_len(self.bytes@, addr as int),
    {
        self.try_read_string(addr).unwrap()
    }

    /// Whether `text` fits the buffer at `addr`.
    pub fn fits_text(&self, addr: u16, text: &str) -> (r: bool)
        ensures
            r == self@.fits_text(addr, text@),
    {
        let n = text.unicode_len();
        let start = addr as usize + 1;
        start < self.bytes.len() && n < self.bytes.len() - start
    }

    /// Writes `text` to the buffer at `addr`: from offset 1 on each character
    /// as a lower-case byte, then a zero.
    #[verifier::rlimit(50)]
    pub fn write_text(&mut self, addr: u16, text: &str)
        requires
            old(self)@.fits_text(addr, text@),
        ensures
            final(self).bytes@.len() == old(self).bytes@.len(),
            final(self)@ == old(self)@.with_text(addr, text@),
    {
        let start_addr = addr as usize + 1;
        let n = text.unicode_len();
        let mut i: usize = 0;
        assert(self.bytes@.len() == self.bytes.len());
        while i < n
            invariant
                i <= n,
                self.bytes@.len() <= usize::MAX,
                n == text@.len(),
                start_addr == addr + 1,
                start_addr + n < self.bytes@.len(),
                self.bytes@.len() == old(self).bytes@.len(),
                self.globals_idx == old(self).globals_idx,
                self.objects_idx == old(self).objects_idx,
                self.abbrev_idx == old(self).abbrev_idx,
                self.dictionary_idx == old(self).dictionary_idx,
                forall|j: int|
                    0 <= j < self.bytes@.len() ==> self.bytes@[j] == if start_addr <= j < start_addr
                        + i {
                        lower(text@[j - start_addr] as u8)
                    } else {
                        old(self).bytes@[j]
                    },
            decreases n - i,
        {
            let c = text.get_char(i);
            self.set_byte(start_addr + i, to_lower(#[verifier::truncate] (c as u8)));
            i += 1;
        }
        self.set_byte(start_addr + n, 0);
        assert(self.bytes@ =~= old(self)@.with_text(addr, text@).bytes);
    }

    /// Whether the dictionary lies inside the image and below address
    /// 0x10000.
    pub fn has_dictionary(&self) -> (r: bool)
        requires
            self.wf(),
        ensures
            r == self@.has_dictionary(),
    {
        let mem = self.bytes.as_slice();
        if self.dictionary_idx >= mem.len() {
            return false;
        }
        let dict = slice_subrange(mem, self.dictionary_idx, mem.len());
        assert(dict@ =~= self.bytes@.skip(self.dictionary_idx as int));
        let sep_len = dict[0] as usize;
        if sep_len + 4 > dict.len() {
            return false;
        }
        let entry_len = dict[sep_len + 1] as usize;
        let n_entries = pack_word(dict[sep_len + 2], dict[sep_len + 3]) as usize;
        assert(n_entries * entry_len <= 0xffff * 0xff) by (nonlinear_arith)
            requires
                n_entries <= 0xffff,
                entry_len <= 0xff,
        ;
        entry_len >= 4 && sep_len + 4 + n_entries * entry_len <= dict.len() && self.dictionary_idx
            + sep_len + 4 + n_entries * entry_len <= 0x1_0000
    }

    /// The dictionary of the image.
    pub fn dictionary(&self) -> (r: ZDictionary)
        requires
            self.wf(),
            self@.has_dictionary(),
        ensures
            r.wf(),
            r.addr == self.dictionary_idx + dict_base(self.bytes@.skip(self.dictionary_idx as int)),
            r.entry_len == dict_entry_len(self.bytes@.skip(self.dictionary_idx as int)),
            r.separators@ == self.bytes@.skip(self.dictionary_idx as int).subrange(
                1,
                1 + dict_seps(self.bytes@.skip(self.dictionary_idx as int)),
            ),
            r.entries@ == dict_keys(self.bytes@.skip(self.dictionary_idx as int)),
    {
        let mem = self.bytes.as_slice();
        let dict = slice_subrange(mem, self.dictionary_idx, mem.len());
        assert(dict@ =~= self.bytes@.skip(self.dictionary_idx as int));
        ZDictionary::new(dict, self.dictionary_idx)
    }

    /// The 64 bytes of the header.
    pub fn header(&self) -> (r: &[u8])
        requires
            self.bytes@.len() >= HEADER_BYTES,
        ensures
            r@ == self.bytes@.subrange(0, HEADER_BYTES as int),
    {
        slice_subrange(self.bytes.as_slice(), 0, HEADER_BYTES)
    }

    /// Whether global `idx` exists and lies inside the image.
    pub fn has_global(&self, idx: usize) -> (r: bool)
        ensures
            r == self@.has_global(idx as int),
    {
        ZGlobals::new(self.globals_idx).has(self.bytes.as_slice(), idx)
    }

    pub fn global(&self, idx: usize) -> (r: ZWord)
        requires
            self@.has_global(idx as int),
        ensures
            r.0 == self@.global(idx as int),
    {
        ZGlobals::new(self.globals_idx).get(self.bytes.as_slice(), idx)
    }

    pub fn set_global(&mut self, idx: usize, val: ZWord)
        requires
            old(self)@.has_global(idx as int),
        ensures
            final(self).bytes@.len() == old(self).bytes@.len(),
            final(self)@ == old(self)@.set_global(idx as int, val.0),
    {
        ZGlobals::new(self.globals_idx).set(&mut self.bytes, idx, val);
    }

    pub fn set_word(&mut self, idx: usize, val: ZWord)
        requires
            old(self)@.has_word(idx as int),
        ensures
            final(self).bytes@.len() == old(self).bytes@.len(),
            final(self)@ == old(self)@.set_word(idx as int, val.0),
    {
        assert(self.bytes@.len() == self.bytes.len());
        let (hi, lo) = unpack_word(val.0);
        self.bytes[idx] = hi;
        self.bytes[idx + 1] = lo;
    }

    pub fn set_byte(&mut self, idx: usize, val: u8)
        requires
            old(self)@.has_byte(idx as int),
        ensures
            final(self).bytes@.len() == old(self).bytes@.len(),
            final(self)@ == old(self)@.set_byte(idx as int, val),
    {
        self.bytes[idx] = val;
    }

    /// The bytes of the image from `idx` on.
    pub fn slice(&self, idx: usize) -> (r: &[u8])
        requires
            idx <= self.bytes@.len(),
        ensures
            r@ == self.bytes@.skip(idx as int),
    {
        let r = slice_subrange(self.bytes.as_slice(), idx, self.bytes.len());
        assert(r@ =~= self.bytes@.skip(idx as int));
        r
    }
}

impl MemView {
    /// Taking an object out of the tree changes neither the size of the image
    /// nor the addresses of its tables.
    pub proof fn lemma_detach_shape(self, obj: u8)
        requires
            self.can_detach(obj),
        ensures
            self.detach(obj).bytes.len() == self.bytes.len(),
            self.detach(obj).objects_idx == self.objects_idx,
            self.detach(obj).globals_idx == self.globals_idx,
            self.detach(obj).abbrev_idx == self.abbrev_idx,
            self.detach(obj).dictionary_idx == self.dictionary_idx,
    {
        let p = self.parent(obj);
        if p != 0 {
            self.lemma_walk_found(self.child(p), obj, MAX_CHAIN as nat);
        }
    }

    /// Putting an object in changes neither the size of the image nor the
    /// addresses of its tables.
    pub proof fn lemma_insert_shape(self, obj: u8, dest: u8)
        requires
            self.can_detach(obj),
            self.has_object(dest),
        ensures
            self.insert(obj, dest).bytes.len() == self.bytes.len(),
            self.insert(obj, dest).objects_idx == self.objects_idx,
            self.insert(obj, dest).globals_idx == self.globals_idx,
            self.insert(obj, dest).abbrev_idx == self.abbrev_idx,
            self.insert(obj, dest).dictionary_idx == self.dictionary_idx,
    {
        self.lemma_detach_shape(obj);
    }

    /// Putting a value in a property changes neither the size of the image
    /// nor the addresses of its tables.
    pub proof fn lemma_put_prop_shape(self, obj: u8, prop: u8, val: u16)
        requires
            self.bytes.len() <= usize::MAX,
            self.put_prop(obj, prop, val).is_some(),
        ensures
            self.put_prop(obj, prop, val).unwrap().bytes.len() == self.bytes.len(),
            self.put_prop(obj, prop, val).unwrap().objects_idx == self.objects_idx,
            self.put_prop(obj, prop, val).unwrap().globals_idx == self.globals_idx,
            self.put_prop(obj, prop, val).unwrap().abbrev_idx == self.abbrev_idx,
            self.put_prop(obj, prop, val).unwrap().dictionary_idx == self.dictionary_idx,
    {
        lemma_find_prop(self.bytes, self.props_start(obj), prop);
    }

    /// An object that a walk finds `obj` behind lies inside the table and has
    /// `obj` as its sibling.
    pub proof fn lemma_walk_found(self, cur: u8, obj: u8, fuel: nat)
        ensures
            match self.walk(cur, obj, fuel) {
                Link::After(prev) => self.has_object(prev) && self.sibling(prev) == obj,
                _ => true,
            },
        decreases fuel,
    {
        if fuel == 0 || !self.has_object(cur) {
        } else if self.sibling(cur) == 0 {
        } else if self.sibling(cur) == obj {
        } else {
            self.lemma_walk_found(self.sibling(cur), obj, (fuel - 1) as nat);
        }
    }
}

} // verus!
