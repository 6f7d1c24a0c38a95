//! Key descriptors as they lie on disk and as the cache holds them.

use vstd::prelude::*;
use vstd::utf8::{encode_utf8, valid_utf8};
use crate::bytes::{
    cstr_bytes, le_u32, le_u64, read_cstr, read_le_u32, read_le_u64, write_le_u32, write_le_u64,
    write_name,
};
use crate::layout::{DICT_NAME_LEN, DK_STRIDE, KEY_NAME_LEN, SMALL_CAPACITY};

verus! {

/// The flags of a dictionary header.
#[derive(Clone, Copy, Debug, PartialEq, Eq, Structural)]
pub struct DictFlags {
    /// Whether the dictionary is live.
    pub valid: bool,
}

/// The flags of a key descriptor.
#[derive(Clone, Copy, Debug, PartialEq, Eq, Structural)]
pub struct KeyFlags {
    /// Whether the key is live.
    pub valid: bool,
    /// Whether the key's start address still waits for a small-pool sync.
    pub unresolved: bool,
}

impl KeyFlags {
    /// The flags that the word `bits` encodes: bit 0 is `valid`, bit 1 is
    /// `unresolved`.
    pub open spec fn of_bits(bits: int) -> KeyFlags {
        KeyFlags { valid: bits % 2 == 1, unresolved: (bits / 2) % 2 == 1 }
    }

    /// The word that encodes the flags.
    pub open spec fn bits(self) -> int {
        (if self.valid { 1int } else { 0int }) + (if self.unresolved { 2int } else { 0int })
    }

    /// Decodes a flags word.
    pub fn from_bits(bits: u32) -> (flags: KeyFlags)
        ensures
            flags == KeyFlags::of_bits(bits as int),
    {
        KeyFlags { valid: bits % 2 == 1, unresolved: (bits / 2) % 2 == 1 }
    }

    /// Encodes the flags as a word.
    pub fn to_bits(&self) -> (bits: u32)
        ensures
            bits == self.bits(),
            KeyFlags::of_bits(bits as int) == *self,
    {
        let v: u32 = if self.valid { 1 } else { 0 };
        let u: u32 = if self.unresolved { 2 } else { 0 };
        v + u
    }
}

/// The header of a dictionary as read from disk.
#[derive(Debug)]
pub struct Dictionary {
    /// Flags of the record.
    pub flags: DictFlags,
    /// Modification count of the dictionary.
    pub age: u32,
    /// Number of keys that the dictionary holds on disk.
    pub num_keys: u32,
    /// The descriptor index from which on every index is free.
    pub free_key_index: u32,
    /// The name of the dictionary.
    pub name: Vec<u8>,
}

impl Default for Dictionary {
    /// The header of a fresh dictionary: live, without keys, every
    /// descriptor index free.
    fn default() -> (d: Dictionary)
        ensures
            d.flags.valid,
            d.age == 0,
            d.num_keys == 0,
            d.free_key_index == 1,
            d.name@.len() == 0,
    {
        Dictionary {
            flags: DictFlags { valid: true },
            age: 0,
            num_keys: 0,
            free_key_index: 1,
            name: Vec::new(),
        }
    }
}

/// Offsets of the fields of a dictionary header inside its stride.
pub const DICT_FLAGS_AT: usize = 0;

pub const DICT_AGE_AT: usize = 4;

pub const DICT_NUM_KEYS_AT: usize = 8;

pub const DICT_FREE_INDEX_AT: usize = 12;

pub const DICT_NAME_AT: usize = 16;

/// A dictionary header as mathematical values.
pub struct DictionaryView {
    pub flags: DictFlags,
    pub age: int,
    pub num_keys: int,
    pub free_key_index: int,
    pub name: Seq<u8>,
}

impl View for Dictionary {
    type V = DictionaryView;

    open spec fn view(&self) -> DictionaryView {
        DictionaryView {
            flags: self.flags,
            age: self.age as int,
            num_keys: self.num_keys as int,
            free_key_index: self.free_key_index as int,
            name: self.name@,
        }
    }
}

/// The dictionary header that the bytes of `page` spell at offset `at`.
pub open spec fn dictionary_at(page: Seq<u8>, at: int) -> DictionaryView {
    DictionaryView {
        flags: DictFlags { valid: le_u32(page, at + DICT_FLAGS_AT as int) % 2 == 1 },
        age: le_u32(page, at + DICT_AGE_AT as int),
        num_keys: le_u32(page, at + DICT_NUM_KEYS_AT as int),
        free_key_index: le_u32(page, at + DICT_FREE_INDEX_AT as int),
        name: cstr_bytes(page.subrange(at + DICT_NAME_AT as int, at + DK_STRIDE as int)),
    }
}

impl Dictionary {
    /// Reads the dictionary header at offset `at` of a plaintext page.
    pub fn parse(page: &Vec<u8>, at: usize) -> (dict: Dictionary)
        requires
            at + DK_STRIDE <= page.len(),
        ensures
            dict@ == dictionary_at(page@, at as int),
    {
        Dictionary {
            flags: DictFlags { valid: read_le_u32(page, at + DICT_FLAGS_AT) % 2 == 1 },
            age: read_le_u32(page, at + DICT_AGE_AT),
            num_keys: read_le_u32(page, at + DICT_NUM_KEYS_AT),
            free_key_index: read_le_u32(page, at + DICT_FREE_INDEX_AT),
            name: read_cstr(page, at + DICT_NAME_AT, DICT_NAME_LEN),
        }
    }

    /// Whether the header fits the stride: its name is shorter than the
    /// name field and holds no zero byte.
    pub open spec fn storable(&self) -> bool {
        &&& self.name@.len() < DICT_NAME_LEN
        &&& forall|i: int| 0 <= i < self.name@.len() ==> self.name@[i] != 0
    }

    /// Writes the header at offset `at` of a plaintext page, the name
    /// padded with zeros; `parse` reads it back.
    pub fn store(&self, page: &mut Vec<u8>, at: usize)
        requires
            at + DK_STRIDE <= old(page).len(),
            self.storable(),
        ensures
            final(page)@.len() == old(page)@.len(),
            forall|i: int|
                0 <= i < old(page)@.len() && !(at <= i < at + DK_STRIDE) ==> final(page)@[i]
                    == old(page)@[i],
            dictionary_at(final(page)@, at as int) == self@,
    {
        write_le_u32(page, at + DICT_FLAGS_AT, if self.flags.valid { 1 } else { 0 });
        write_le_u32(page, at + DICT_AGE_AT, self.age);
        write_le_u32(page, at + DICT_NUM_KEYS_AT, self.num_keys);
        write_le_u32(page, at + DICT_FREE_INDEX_AT, self.free_key_index);
        write_name(page, at + DICT_NAME_AT, DICT_NAME_LEN, &self.name);
        proof {
            assert(at + DICT_NAME_AT + DICT_NAME_LEN == at + DK_STRIDE);
        }
    }
}

/// Offsets of the fields of a key descriptor inside its stride.
pub const DESC_START_AT: usize = 0;

pub const DESC_LEN_AT: usize = 8;

pub const DESC_RESERVED_AT: usize = 16;

pub const DESC_FLAGS_AT: usize = 24;

pub const DESC_AGE_AT: usize = 28;

pub const DESC_NAME_AT: usize = 32;

/// A key descriptor as it lies on disk.
#[derive(Debug)]
pub struct KeyDescriptor {
    /// Virtual address of the key's first byte.
    pub start: u64,
    /// Length of the key's data.
    pub len: u64,
    /// Bytes set aside for the key.
    pub reserved: u64,
    /// Flags of the key.
    pub flags: KeyFlags,
    /// Modification count of the key.
    pub age: u32,
    /// The key's name in UTF-8, without terminator.
    pub name: Vec<u8>,
}

/// A key descriptor as mathematical values.
pub struct DescriptorView {
    pub start: int,
    pub len: int,
    pub reserved: int,
    pub flags: KeyFlags,
    pub age: int,
    pub name: Seq<u8>,
}

impl View for KeyDescriptor {
    type V = DescriptorView;

    open spec fn view(&self) -> DescriptorView {
        DescriptorView {
            start: self.start as int,
            len: self.len as int,
            reserved: self.reserved as int,
            flags: self.flags,
            age: self.age as int,
            name: self.name@,
        }
    }
}

/// The descriptor that the bytes of `page` spell at offset `at`.
pub open spec fn descriptor_at(page: Seq<u8>, at: int) -> DescriptorView {
    DescriptorView {
        start: le_u64(page, at + DESC_START_AT as int),
        len: le_u64(page, at + DESC_LEN_AT as int),
        reserved: le_u64(page, at + DESC_RESERVED_AT as int),
        flags: KeyFlags::of_bits(le_u32(page, at + DESC_FLAGS_AT as int)),
        age: le_u32(page, at + DESC_AGE_AT as int),
        name: cstr_bytes(page.subrange(at + DESC_NAME_AT as int, at + DK_STRIDE as int)),
    }
}

impl KeyDescriptor {
    /// Reads the descriptor at offset `at` of a plaintext page.
    pub fn parse(page: &Vec<u8>, at: usize) -> (desc: KeyDescriptor)
        requires
            at + DK_STRIDE <= page.len(),
        ensures
            desc@ == descriptor_at(page@, at as int),
    {
        KeyDescriptor {
            start: read_le_u64(page, at + DESC_START_AT),
            len: read_le_u64(page, at + DESC_LEN_AT),
            reserved: read_le_u64(page, at + DESC_RESERVED_AT),
            flags: KeyFlags::from_bits(read_le_u32(page, at + DESC_FLAGS_AT)),
            age: read_le_u32(page, at + DESC_AGE_AT),
            name: read_cstr(page, at + DESC_NAME_AT, KEY_NAME_LEN),
        }
    }

    /// Whether the descriptor fits the stride: its name is shorter than the
    /// name field and holds no zero byte.
    pub open spec fn storable(&self) -> bool {
        &&& self.name@.len() < KEY_NAME_LEN
        &&& forall|i: int| 0 <= i < self.name@.len() ==> self.name@[i] != 0
    }

    /// Writes the descriptor at offset `at` of a plaintext page, the name
    /// padded with zeros; `parse` reads it back.
    pub fn store(&self, page: &mut Vec<u8>, at: usize)
        requires
            at + DK_STRIDE <= old(page).len(),
            self.storable(),
        ensures
            final(page)@.len() == old(page)@.len(),
            forall|i: int|
                0 <= i < old(page)@.len() && !(at <= i < at + DK_STRIDE) ==> final(page)@[i]
                    == old(page)@[i],
            descriptor_at(final(page)@, at as int) == self@,
    {
        write_le_u64(page, at + DESC_START_AT, self.start);
        write_le_u64(page, at + DESC_LEN_AT, self.len);
        write_le_u64(page, at + DESC_RESERVED_AT, self.reserved);
        write_le_u32(page, at + DESC_FLAGS_AT, self.flags.to_bits());
        write_le_u32(page, at + DESC_AGE_AT, self.age);
        write_name(page, at + DESC_NAME_AT, KEY_NAME_LEN, &self.name);
        proof {
            assert(at + DESC_NAME_AT + KEY_NAME_LEN == at + DK_STRIDE);
        }
    }
}

/// The cached data of a small key.
#[derive(Debug)]
pub struct KeySmallData {
    /// Whether the data is in step with the disk.
    pub clean: bool,
    /// The key's bytes.
    pub data: Vec<u8>,
}

/// The cached data of a small key, as mathematical values.
pub struct SmallDataView {
    pub clean: bool,
    pub data: Seq<u8>,
}

impl View for KeySmallData {
    type V = SmallDataView;

    open spec fn view(&self) -> SmallDataView {
        SmallDataView { clean: self.clean, data: self.data@ }
    }
}

/// A key as the cache holds it.
#[derive(Debug)]
pub struct KeyCacheEntry {
    /// Virtual address of the key's first byte.
    pub start: u64,
    /// Length of the key's data.
    pub len: u64,
    /// Bytes set aside for the key.
    pub reserved: u64,
    /// Flags of the key.
    pub flags: KeyFlags,
    /// Modification count of the key.
    pub age: u32,
    /// The key's slot in the descriptor table; never 0.
    pub descriptor_index: u32,
    /// Whether the descriptor is in step with the disk.
    pub clean: bool,
    /// The key's data, for a small key.
    pub data: Option<KeySmallData>,
}

/// A cached key as mathematical values.
pub struct KeyEntryView {
    pub start: int,
    pub len: int,
    pub reserved: int,
    pub flags: KeyFlags,
    pub age: int,
    pub descriptor_index: int,
    pub clean: bool,
    pub data: Option<SmallDataView>,
}

impl View for KeyCacheEntry {
    type V = KeyEntryView;

    open spec fn view(&self) -> KeyEntryView {
        KeyEntryView {
            start: self.start as int,
            len: self.len as int,
            reserved: self.reserved as int,
            flags: self.flags,
            age: self.age as int,
            descriptor_index: self.descriptor_index as int,
            clean: self.clean,
            data: match self.data {
                Some(d) => Some(d@),
                None => None,
            },
        }
    }
}

/// One slot of the small pool: the keys that share one virtual page.
#[derive(Debug)]
pub struct KeySmallPool {
    /// Names of the keys in the slot.
    pub contents: Vec<String>,
    /// Bytes of the slot that no key has reserved.
    pub avail: u16,
    /// Whether the slot is in step with the disk.
    pub clean: bool,
}

/// A slot of the small pool as mathematical values.
pub struct SlotView {
    pub contents: Seq<Seq<char>>,
    pub avail: int,
    pub clean: bool,
}

impl View for KeySmallPool {
    type V = SlotView;

    open spec fn view(&self) -> SlotView {
        SlotView {
            contents: Seq::new(self.contents@.len(), |i: int| self.contents@[i]@),
            avail: self.avail as int,
            clean: self.clean,
        }
    }
}

impl KeySmallPool {
    /// An empty, clean slot.
    pub fn new() -> (slot: KeySmallPool)
        ensures
            slot@ == (SlotView {
                contents: Seq::<Seq<char>>::empty(),
                avail: SMALL_CAPACITY as int,
                clean: true,
            }),
    {
        let slot = KeySmallPool { contents: Vec::new(), avail: SMALL_CAPACITY as u16, clean: true };
        assert(slot@.contents =~= Seq::<Seq<char>>::empty());
        slot
    }
}

/// The free space of one slot, as the free-space heap orders it.
#[derive(Clone, Copy, Debug, PartialEq, Eq, Structural)]
pub struct KeySmallPoolOrd {
    /// Bytes of the slot that no key has reserved.
    pub avail: u16,
    /// Index of the slot in the small pool.
    pub index: usize,
}

/// Calls `String::from_utf8`, which gives the string whose UTF-8 encoding
/// the bytes are, and an error where they are no valid UTF-8.
#[verifier::external_body]
pub(crate) fn string_from_utf8(bytes: Vec<u8>) -> (r: Option<String>)
    ensures
        r is Some <==> valid_utf8(bytes@),
        r matches Some(s) ==> encode_utf8(s@) == bytes@,
{
    String::from_utf8(bytes).ok()
}

} // verus!
