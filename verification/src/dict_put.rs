//! Updating a key: writing into it where it has room, and creating it
//! where the dictionary does not have it or it has no room.

use vstd::prelude::*;
use crate::dict_large::can_write_large;
use crate::dict_spec::{is_small, key_inv, live, DictView};
use crate::dictionary::{small_storage_index_from_key, DictCacheEntry, PddbError};
use crate::keys::KeyCacheEntry;
use crate::layout::{PageAlignedVa, LARGE_POOL_START, SMALL_CAPACITY, SMALL_POOL_SLOTS, VPAGE_STEP};
use crate::remove_spec::{in_pages, removed};
use crate::scan_spec::{lemma_lookup, lookup};
use crate::storage::Storage;
use crate::update_spec::{
    create_error, created, large_reservation, ptr_after, ptr_after_create, released, small_fits,
    span_count, update_base, update_error, updated, write_existing, World,
};
use crate::v2p::V2PMap;

verus! {

/// The cache, the page map and the device, taken together.
pub open spec fn world_of(dict: &DictCacheEntry, hw: &Storage, v2p_map: &V2PMap) -> World {
    World { dict: dict@, v2p: v2p_map@, pages: hw@.pages, fast_space: hw@.fast_space }
}

/// The hint as a number of bytes: 0 where there is none.
pub open spec fn hint_of(alloc_hint: Option<usize>) -> int {
    match alloc_hint {
        Some(h) => h as int,
        None => 0,
    }
}

/// Whether the live small key `name`, where the write goes into its
/// cached data, has that data.
pub open spec fn body_ready(found: (DictView, bool), name: Seq<char>, need: int) -> bool {
    found.1 && found.0.keys[name].reserved >= need && is_small(found.0.keys[name], found.0.index)
        ==> found.0.keys[name].data is Some
}

impl DictCacheEntry {
    /// Creates the key `name`, which is not live, with `data` at `offset`:
    /// in the small pool where it fits, and in the large pool at
    /// `large_alloc_ptr` otherwise. Returns the large-pool pointer past the
    /// new key. Where the creation does not go through, nothing changes.
    pub fn create_key(
        &mut self,
        hw: &mut Storage,
        v2p_map: &mut V2PMap,
        name: &str,
        data: &[u8],
        offset: usize,
        hint: usize,
        truncate: bool,
        large_alloc_ptr: PageAlignedVa,
    ) -> (r: Result<PageAlignedVa, PddbError>)
        requires
            old(self).wf(),
            old(hw).wf(),
            !live(old(self)@.keys, name@),
            large_alloc_ptr.value() >= LARGE_POOL_START,
            forall|va: u64| va >= large_alloc_ptr.value() ==> !old(v2p_map)@.contains_key(va),
        ensures
            final(self).wf(),
            final(hw).wf(),
            ({
                let w = world_of(old(self), old(hw), old(v2p_map));
                let now = world_of(final(self), final(hw), final(v2p_map));
                let need = offset + data@.len();
                let ptr = large_alloc_ptr.value();
                match create_error(w, need, offset as int, hint as int, ptr) {
                    Some(e) => r == Err::<PageAlignedVa, PddbError>(e) && now == w,
                    None => {
                        &&& r matches Ok(p) && p.value() == ptr_after_create(
                            w.dict,
                            need,
                            hint as int,
                            ptr,
                        )
                        &&& now == created(w, name@, data@, offset as int, hint as int, truncate, ptr)
                    },
                }
            }),
            forall|va: u64|
                va >= (match r {
                    Ok(p) => p.value(),
                    Err(_) => large_alloc_ptr.value(),
                }) ==> !final(v2p_map)@.contains_key(va),
    {
        let need: u128 = data.len() as u128 + offset as u128;
        if self.free_keys.is_empty() {
            return Err(PddbError::OutOfIndex);
        }
        let wanted: u128 = if hint as u128 > need { hint as u128 } else { need };
        if need < SMALL_CAPACITY as u128 && hint < SMALL_CAPACITY {
            let slot = self.small_target(wanted as usize);
            if slot < SMALL_POOL_SLOTS {
                self.touch();
                self.create_small(name, data, offset, hint);
                return Ok(large_alloc_ptr);
            }
        }
        assert(!small_fits(old(self)@.small_pool, need as int, hint as int));
        self.create_in_large_pool(hw, v2p_map, name, data, offset, hint, truncate, large_alloc_ptr)
    }

    /// Creates the key `name`, which is not live and does not go to the
    /// small pool, in the large pool at `large_alloc_ptr`, and writes `data`
    /// at `offset` into it. Where that does not go through, nothing changes.
    pub fn create_in_large_pool(
        &mut self,
        hw: &mut Storage,
        v2p_map: &mut V2PMap,
        name: &str,
        data: &[u8],
        offset: usize,
        hint: usize,
        truncate: bool,
        large_alloc_ptr: PageAlignedVa,
    ) -> (r: Result<PageAlignedVa, PddbError>)
        requires
            old(self).wf(),
            old(hw).wf(),
            !live(old(self)@.keys, name@),
            old(self)@.free_keys != Set::<int>::empty(),
            !small_fits(old(self)@.small_pool, offset + data@.len(), hint as int),
            large_alloc_ptr.value() >= LARGE_POOL_START,
            forall|va: u64| va >= large_alloc_ptr.value() ==> !old(v2p_map)@.contains_key(va),
        ensures
            final(self).wf(),
            final(hw).wf(),
            ({
                let w = world_of(old(self), old(hw), old(v2p_map));
                let now = world_of(final(self), final(hw), final(v2p_map));
                let need = offset + data@.len();
                let ptr = large_alloc_ptr.value();
                match create_error(w, need, offset as int, hint as int, ptr) {
                    Some(e) => r == Err::<PageAlignedVa, PddbError>(e) && now == w,
                    None => {
                        &&& r matches Ok(p) && p.value() == ptr + large_reservation(
                            need,
                            hint as int,
                        )
                        &&& now == created(w, name@, data@, offset as int, hint as int, truncate, ptr)
                    },
                }
            }),
            forall|va: u64|
                va >= (match r {
                    Ok(p) => p.value(),
                    Err(_) => large_alloc_ptr.value(),
                }) ==> !final(v2p_map)@.contains_key(va),
    {
        let ptr: u64 = large_alloc_ptr.as_u64();
        let need: u128 = data.len() as u128 + offset as u128;
        let wanted: u128 = if hint as u128 > need { hint as u128 } else { need };
        let rounded: u128 = ((wanted + (VPAGE_STEP - 1) as u128) / VPAGE_STEP as u128)
            * VPAGE_STEP as u128;
        assert(rounded == large_reservation(need as int, hint as int));
        if ptr as u128 + rounded > u64::MAX as u128 {
            return Err(PddbError::OutOfDiskSpace);
        }
        let reservation: u64 = rounded as u64;
        let count: u64 = reservation / VPAGE_STEP;
        if (hw.fast_space_len() as u64) < count {
            return Err(PddbError::OutOfDiskSpace);
        }
        if offset as u64 % VPAGE_STEP != 0 {
            return Err(PddbError::DecryptionFailure);
        }
        let next = match PageAlignedVa::from_u64(ptr + reservation) {
            Some(p) => p,
            None => unreached(),
        };
        self.touch();
        self.create_large(hw, v2p_map, name, need as u64, reservation, ptr);
        let ghost w1 = world_of(self, hw, v2p_map);
        proof {
            let addr = ptr + offset;
            assert forall|va: u64|
                in_pages(
                    crate::layout::vpage_floor(addr),
                    span_count(addr, data@.len() as int),
                    va as int,
                ) implies #[trigger] v2p_map@.contains_key(va) by {
                assert(in_pages(ptr as int, count as int, va as int));
            }
            assert(live(w1.dict.keys, name@));
        }
        self.touch();
        self.write_large_key(hw, v2p_map, name, data, offset, truncate);
        proof {
            let now = world_of(self, hw, v2p_map);
            assert(now == write_existing(w1, name@, data@, offset as int, truncate));
        }
        Ok(next)
    }

    /// Writes `data` at `offset` into the key `name`, and creates the key
    /// where the dictionary does not have it. A live key with room for the
    /// data is written in place. A live key without room is removed and
    /// created anew. Returns the large-pool pointer, moved past the pages of
    /// a large key that was created.
    pub fn key_update(
        &mut self,
        hw: &mut Storage,
        v2p_map: &mut V2PMap,
        name: &str,
        data: &[u8],
        offset: usize,
        alloc_hint: Option<usize>,
        truncate: bool,
        large_alloc_ptr: PageAlignedVa,
    ) -> (r: Result<PageAlignedVa, PddbError>)
        requires
            old(self).wf(),
            old(hw).wf(),
            large_alloc_ptr.value() >= LARGE_POOL_START,
            forall|va: u64| va >= large_alloc_ptr.value() ==> !old(v2p_map)@.contains_key(va),
            body_ready(
                lookup(old(self)@, old(hw)@.pages, old(v2p_map)@, name@),
                name@,
                offset + data@.len(),
            ),
        ensures
            final(self).wf(),
            final(hw).wf(),
            ({
                let found = lookup(old(self)@, old(hw)@.pages, old(v2p_map)@, name@);
                let w = World {
                    dict: found.0,
                    v2p: old(v2p_map)@,
                    pages: old(hw)@.pages,
                    fast_space: old(hw)@.fast_space,
                };
                let now = world_of(final(self), final(hw), final(v2p_map));
                let need = offset + data@.len();
                let hint = hint_of(alloc_hint);
                let ptr = large_alloc_ptr.value();
                match update_error(w, found.1, name@, offset as int, data@.len() as int, hint, ptr) {
                    Some(e) => r == Err::<PageAlignedVa, PddbError>(e) && now == update_base(
                        w,
                        found.1,
                        name@,
                        need,
                    ),
                    None => {
                        &&& r matches Ok(p) && p.value() == ptr_after(
                            w,
                            found.1,
                            name@,
                            need,
                            hint,
                            ptr,
                        )
                        &&& now == updated(
                            w,
                            found.1,
                            name@,
                            data@,
                            offset as int,
                            hint,
                            truncate,
                            ptr,
                        )
                    },
                }
            }),
            forall|va: u64|
                va >= (match r {
                    Ok(p) => p.value(),
                    Err(_) => large_alloc_ptr.value(),
                }) ==> !final(v2p_map)@.contains_key(va),
    {
        let present = self.ensure_key_entry(hw, v2p_map, name);
        let ghost v1 = self@;
        proof {
            lemma_lookup(old(self)@, old(hw)@.pages, old(v2p_map)@, name@);
        }
        let need: u128 = data.len() as u128 + offset as u128;
        let hint: usize = match alloc_hint {
            Some(h) => h,
            None => 0,
        };
        if present {
            assert(key_inv(v1, name@));
            let (start, reserved, small) = match self.keys.get(name) {
                Some(e) => {
                    let probe = KeyCacheEntry {
                        start: e.start,
                        len: e.len,
                        reserved: e.reserved,
                        flags: e.flags,
                        age: e.age,
                        descriptor_index: e.descriptor_index,
                        clean: e.clean,
                        data: None,
                    };
                    (e.start, e.reserved, small_storage_index_from_key(&probe, self.index).is_some())
                },
                None => unreached(),
            };
            if reserved as u128 >= need {
                if small {
                    self.touch();
                    self.write_small(name, data, offset);
                    return Ok(large_alloc_ptr);
                } else {
                    if !can_write_large(hw, v2p_map, &self.aad, start + offset as u64, data.len()) {
                        return Err(PddbError::DecryptionFailure);
                    }
                    self.touch();
                    self.write_large_key(hw, v2p_map, name, data, offset, truncate);
                    return Ok(large_alloc_ptr);
                }
            }
            self.touch();
            proof {
                lemma_lookup(self@, hw@.pages, v2p_map@, name@);
            }
            self.key_remove(hw, v2p_map, name, false);
            proof {
                let w = World {
                    dict: v1,
                    v2p: old(v2p_map)@,
                    pages: old(hw)@.pages,
                    fast_space: old(hw)@.fast_space,
                };
                assert(world_of(self, hw, v2p_map) == released(w, name@));
            }
        }
        self.create_key(hw, v2p_map, name, data, offset, hint, truncate, large_alloc_ptr)
    }
}

} // verus!
