//! The cache of one dictionary: its keys, its free descriptor indices and
//! its small pool.

use vstd::prelude::*;
use crate::bytes::copy_bytes;
use crate::dict_spec::{dict_inv, key_inv, live, slot_inv, indices_apart, key_clean_ok, DictView};
use crate::free_keys::FreeIndexHeap;
use crate::key_cache::KeyCache;
use crate::keys::{DictFlags, Dictionary, KeyCacheEntry, KeySmallPool, KeySmallPoolOrd, SlotView};
use crate::layout::{
    in_small_pool, small_slot_of, DICT_MAXCOUNT, KEY_MAXCOUNT, SMALL_POOL_START,
    SMALL_POOL_STRIDE, SMALL_SLOT_STEP,
};

verus! {

/// Why an operation on the dictionary did not go through.
#[derive(Clone, Copy, Debug, PartialEq, Eq, Structural)]
pub enum PddbError {
    /// No descriptor index is free.
    OutOfIndex,
    /// The pool of free physical pages is exhausted.
    OutOfDiskSpace,
    /// A page that had to be read did not open.
    DecryptionFailure,
    /// The operation has no implementation.
    NotImplemented,
}

/// The cache of one dictionary.
pub struct DictCacheEntry {
    /// Index of the dictionary in its basis.
    pub index: u32,
    /// The cached keys.
    pub keys: KeyCache,
    /// Number of keys in the dictionary; the cache may hold fewer.
    pub key_count: u32,
    /// The free descriptor indices.
    pub free_keys: FreeIndexHeap,
    /// Where a search of the descriptor table may stop.
    pub last_disk_key_index: u32,
    /// Whether the cache is in step with the disk.
    pub clean: bool,
    /// Modification count of the dictionary.
    pub age: u32,
    /// Flags of the dictionary.
    pub flags: DictFlags,
    /// The slots of the small pool, by slot number.
    pub small_pool: Vec<KeySmallPool>,
    /// The free space of each slot, by slot number.
    pub small_pool_free: Vec<KeySmallPoolOrd>,
    /// The associated data under which the basis seals its pages.
    pub aad: Vec<u8>,
}

/// The slots of a small pool as mathematical values.
pub open spec fn pool_view(pool: Seq<KeySmallPool>) -> Seq<SlotView> {
    Seq::new(pool.len(), |i: int| pool[i]@)
}

/// The free space of each slot of a pool, by slot number.
pub open spec fn free_space_of(pool: Seq<KeySmallPool>) -> Seq<KeySmallPoolOrd> {
    Seq::new(pool.len(), |i: int| KeySmallPoolOrd { avail: pool[i].avail, index: i as usize })
}

impl View for DictCacheEntry {
    type V = DictView;

    open spec fn view(&self) -> DictView {
        DictView {
            index: self.index as int,
            keys: self.keys@,
            key_count: self.key_count as int,
            free_keys: self.free_keys@,
            last_disk_key_index: self.last_disk_key_index as int,
            clean: self.clean,
            age: self.age as int,
            flags: self.flags,
            small_pool: pool_view(self.small_pool@),
            aad: self.aad@,
        }
    }
}

/// The index of the small-pool slot of a key, where the key lies in the
/// small pool of dictionary `dict_index`.
pub fn small_storage_index_from_key(kcache: &KeyCacheEntry, dict_index: u32) -> (r: Option<usize>)
    ensures
        r is Some <==> in_small_pool(kcache.start as int, kcache.reserved as int, dict_index as int),
        r matches Some(s) ==> s == small_slot_of(kcache.start as int, dict_index as int),
{
    let storage_base: u64 = dict_index as u64 * SMALL_POOL_STRIDE + SMALL_POOL_START;
    let storage_end: u64 = storage_base + SMALL_POOL_STRIDE;
    if kcache.start >= storage_base && kcache.start < storage_end && kcache.reserved
        < storage_end - kcache.start {
        let index_base: u64 = kcache.start - storage_base;
        Some((index_base / SMALL_SLOT_STEP) as usize)
    } else {
        None
    }
}

impl DictCacheEntry {
    /// The parts of the cache agree with each other, and the cache is sound.
    pub open spec fn wf(&self) -> bool {
        &&& self.keys.wf()
        &&& self.free_keys.wf()
        &&& self.small_pool_free@ == free_space_of(self.small_pool@)
        &&& dict_inv(self@)
    }

    /// The cache of the dictionary with header `dict` at position `index`
    /// of a basis that seals under `aad`: no key cached, the descriptor
    /// indices from the header's free index on free, the small pool empty.
    pub fn new(dict: Dictionary, index: usize, aad: &Vec<u8>) -> (cache: DictCacheEntry)
        requires
            1 <= index <= DICT_MAXCOUNT,
        ensures
            cache.wf(),
            cache@ == (DictView {
                index: index as int,
                keys: Map::<Seq<char>, crate::keys::KeyEntryView>::empty(),
                key_count: dict.num_keys as int,
                free_keys: Set::new(
                    |x: int| 1 <= x && dict.free_key_index <= x <= KEY_MAXCOUNT,
                ),
                last_disk_key_index: dict.free_key_index as int,
                clean: true,
                age: dict.age as int,
                flags: dict.flags,
                small_pool: Seq::<SlotView>::empty(),
                aad: aad@,
            }),
    {
        let cache = DictCacheEntry {
            index: index as u32,
            keys: KeyCache::new(),
            key_count: dict.num_keys,
            free_keys: FreeIndexHeap::from_high_water(dict.free_key_index),
            last_disk_key_index: dict.free_key_index,
            clean: true,
            age: dict.age,
            flags: dict.flags,
            small_pool: Vec::new(),
            small_pool_free: Vec::new(),
            aad: copy_bytes(aad),
        };
        proof {
            assert(cache@.small_pool =~= Seq::<SlotView>::empty());
            assert(cache.small_pool_free@ =~= free_space_of(cache.small_pool@));
            assert forall|name: Seq<char>| #[trigger] key_inv(cache@, name) by {}
            assert forall|a: Seq<char>, b: Seq<char>| #[trigger] indices_apart(cache@, a, b) by {}
            assert forall|name: Seq<char>| #[trigger] key_clean_ok(cache@, name) by {}
        }
        cache
    }

    /// Whether a key of that name is cached, live or not.
    pub fn key_contains(&self, name: &str) -> (r: bool)
        ensures
            r == self@.keys.contains_key(name@),
    {
        self.keys.contains_key(name)
    }

    /// Erasing a key by overwriting it on disk has no implementation: the
    /// call reports so and changes nothing.
    pub fn key_erase(&mut self, _name: &str) -> (r: Result<(), PddbError>)
        ensures
            r == Err::<(), PddbError>(PddbError::NotImplemented),
            *final(self) == *old(self),
    {
        Err(PddbError::NotImplemented)
    }

    /// Large keys are not cached, so there is nothing to write back.
    pub fn sync_large_pool(&self) {
    }

    /// Builds the list of free space anew from the slots of the small pool.
    pub fn rebuild_free_pool(&mut self)
        ensures
            final(self).small_pool_free@ == free_space_of(final(self).small_pool@),
            final(self)@ == old(self)@,
            final(self).keys == old(self).keys,
            final(self).free_keys == old(self).free_keys,
            final(self).small_pool == old(self).small_pool,
    {
        self.small_pool_free.clear();
        let n = self.small_pool.len();
        let mut i: usize = 0;
        while i < n
            invariant
                i <= n,
                n == self.small_pool@.len(),
                self.small_pool == old(self).small_pool,
                self.keys == old(self).keys,
                self.free_keys == old(self).free_keys,
                self@ == old(self)@,
                self.small_pool_free@ == free_space_of(self.small_pool@).subrange(0, i as int),
            decreases n - i,
        {
            let avail = self.small_pool[i].avail;
            self.small_pool_free.push(KeySmallPoolOrd { index: i, avail });
            i += 1;
            assert(self.small_pool_free@ =~= free_space_of(self.small_pool@).subrange(0, i as int));
        }
        assert(self.small_pool_free@ =~= free_space_of(self.small_pool@));
    }

    /// Takes the smallest free descriptor index, and raises the bound of
    /// the descriptor search to one past it where the index lies beyond
    /// that bound.
    pub fn get_free_key_index(&mut self) -> (r: Option<u32>)
        requires
            old(self).wf(),
        ensures
            final(self).wf(),
            r is None <==> old(self)@.free_keys == Set::<int>::empty(),
            r is None ==> final(self)@ == old(self)@,
            r matches Some(i) ==> {
                &&& old(self)@.free_keys.contains(i as int)
                &&& 1 <= i <= KEY_MAXCOUNT
                &&& forall|x: int| old(self)@.free_keys.contains(x) ==> i <= x
                &&& final(self)@ == (DictView {
                    free_keys: old(self)@.free_keys.remove(i as int),
                    last_disk_key_index: if i > old(self).last_disk_key_index {
                        i + 1
                    } else {
                        old(self).last_disk_key_index as int
                    },
                    ..old(self)@
                })
            },
    {
        match self.free_keys.pop() {
            Some(index) => {
                if index > self.last_disk_key_index {
                    self.last_disk_key_index = index + 1;
                }
                proof {
                    let v = self@;
                    let o = old(self)@;
                    assert forall|name: Seq<char>| #[trigger] key_inv(v, name) by {
                        assert(key_inv(o, name));
                    }
                    assert forall|s: int| 0 <= s < v.small_pool.len() implies #[trigger] slot_inv(
                        v,
                        s,
                    ) by {
                        assert(slot_inv(o, s));
                    }
                    assert forall|a: Seq<char>, b: Seq<char>| #[trigger] indices_apart(v, a, b) by {
                        assert(indices_apart(o, a, b));
                    }
                    assert forall|name: Seq<char>| #[trigger] key_clean_ok(v, name) by {
                        assert(key_clean_ok(o, name));
                    }
                }
                Some(index)
            },
            None => None,
        }
    }

    /// Returns descriptor index `index`, which no live key holds, to the
    /// free indices.
    pub fn put_free_key_index(&mut self, index: u32)
        requires
            old(self).wf(),
            1 <= index <= KEY_MAXCOUNT,
            !old(self)@.free_keys.contains(index as int),
            forall|name: Seq<char>|
                live(old(self)@.keys, name) ==> old(self)@.keys[name].descriptor_index != index,
        ensures
            final(self).wf(),
            final(self)@ == (DictView {
                free_keys: old(self)@.free_keys.insert(index as int),
                ..old(self)@
            }),
    {
        self.free_keys.push(index);
        proof {
            let v = self@;
            let o = old(self)@;
            assert forall|name: Seq<char>| #[trigger] key_inv(v, name) by {
                assert(key_inv(o, name));
            }
            assert forall|s: int| 0 <= s < v.small_pool.len() implies #[trigger] slot_inv(v, s) by {
                assert(slot_inv(o, s));
            }
            assert forall|a: Seq<char>, b: Seq<char>| #[trigger] indices_apart(v, a, b) by {
                assert(indices_apart(o, a, b));
            }
            assert forall|name: Seq<char>| #[trigger] key_clean_ok(v, name) by {
                assert(key_clean_ok(o, name));
            }
        }
    }
}

} // verus!
