//! Writing the dirty slots of the small pool to disk.

use vstd::prelude::*;
use crate::dict_put::world_of;
use crate::dict_spec::{dict_inv, key_inv, listed_ok, slot_inv, DictView};
use crate::dict_update::{overlay_bytes, zero_bytes};
use crate::dictionary::{free_space_of, DictCacheEntry, PddbError};
use crate::keys::{KeyCacheEntry, KeyFlags, KeySmallData};
use crate::layout::{
    small_slot_address, small_slot_vaddr, JOURNAL_WIDTH, PAGE_BUF_LEN, SMALL_CAPACITY,
};
use crate::storage::{page_at, page_wf, Storage};
use crate::sync_spec::{
    bodies_ready, lemma_placed_frame, lemma_sync_slot_bodies, lemma_sync_slot_keeps_inv,
    lemma_sync_slot_pages_needed, lemma_used_before, packed_page, pages_needed, place, placed_keys,
    slot_page, sync_from, sync_slot, synced_entry, used_before,
};
use crate::update_spec::zeros;
use crate::v2p::V2PMap;

verus! {

impl DictCacheEntry {
    /// Places the keys of the dirty slot `s`, whose address is `vaddr`, one
    /// after the other, and lays their data into `page`.
    pub fn place_slot_keys(&mut self, s: usize, vaddr: u64, page: &mut Vec<u8>)
        requires
            old(self).keys.wf(),
            dict_inv(old(self)@),
            s < old(self).small_pool@.len(),
            !old(self).small_pool@[s as int].clean,
            vaddr == small_slot_vaddr(old(self).index as int, s as int),
            old(page)@ == zeros(PAGE_BUF_LEN as int),
            forall|i: int|
                0 <= i < old(self)@.small_pool[s as int].contents.len() ==> old(self)@.keys[#[trigger] old(self)@.small_pool[s as int].contents[i]].data is Some,
        ensures
            final(self).keys.wf(),
            final(self).small_pool == old(self).small_pool,
            final(self).small_pool_free == old(self).small_pool_free,
            final(self).free_keys == old(self).free_keys,
            final(self)@ == (DictView {
                keys: placed_keys(
                    old(self)@.keys,
                    old(self)@.small_pool[s as int].contents,
                    vaddr as int,
                    old(self)@.small_pool[s as int].contents.len() as int,
                ),
                ..old(self)@
            }),
            final(page)@ == packed_page(
                old(self)@.keys,
                old(self)@.small_pool[s as int].contents,
                old(self)@.small_pool[s as int].contents.len() as int,
            ),
            final(page)@.len() == PAGE_BUF_LEN,
    {
        let ghost v0 = self@;
        let ghost c = v0.small_pool[s as int].contents;
        let n = self.small_pool[s].contents.len();
        let mut pool_offset: usize = 0;
        let mut i: usize = 0;
        proof {
            assert(slot_inv(v0, s as int));
            assert forall|j: int| 0 <= j < c.len() implies v0.keys.contains_key(#[trigger] c[j]) by {
                assert(listed_ok(v0, s as int, c[j]));
            }
            assert forall|j: int| 0 <= j < c.len() implies v0.keys[#[trigger] c[j]].reserved
                >= 0 by {
                assert(listed_ok(v0, s as int, c[j]));
                assert(key_inv(v0, c[j]));
            }
            assert(c.subrange(0, 0) =~= Seq::<Seq<char>>::empty());
        }
        while i < n
            invariant
                i <= n,
                n == c.len(),
                s < self.small_pool@.len(),
                self.keys.wf(),
                dict_inv(v0),
                s < v0.small_pool.len(),
                slot_inv(v0, s as int),
                v0 == old(self)@,
                c == v0.small_pool[s as int].contents,
                vaddr == small_slot_vaddr(v0.index as int, s as int),
                self.small_pool == old(self).small_pool,
                self.small_pool_free == old(self).small_pool_free,
                self.free_keys == old(self).free_keys,
                c.no_duplicates(),
                forall|j: int| 0 <= j < c.len() ==> v0.keys.contains_key(#[trigger] c[j]),
                forall|j: int| 0 <= j < c.len() ==> v0.keys[#[trigger] c[j]].reserved >= 0,
                forall|j: int| 0 <= j < c.len() ==> v0.keys[#[trigger] c[j]].data is Some,
                slot_used_total(v0, s as int) <= SMALL_CAPACITY,
                pool_offset == used_before(c, v0.keys, i as int),
                i < n ==> pool_offset <= SMALL_CAPACITY,
                self@ == (DictView { keys: placed_keys(v0.keys, c, vaddr as int, i as int), ..v0 }),
                page@ == packed_page(v0.keys, c, i as int),
                page@.len() == PAGE_BUF_LEN,
            decreases n - i,
        {
            let name = self.small_pool[s].contents[i].clone();
            assert(name@ == c[i as int]);
            proof {
                lemma_placed_frame(v0.keys, c, vaddr as int, i as int, name@);
                lemma_used_before(c, v0.keys, i as int);
                assert(listed_ok(v0, s as int, c[i as int]));
                assert(key_inv(v0, c[i as int]));
            }
            let kcache = match self.keys.get(name.as_str()) {
                Some(e) => e.duplicate(),
                None => unreached(),
            };
            let body = match kcache.data {
                Some(d) => d.data,
                None => unreached(),
            };
            let at: usize = if pool_offset >= SMALL_CAPACITY {
                SMALL_CAPACITY - 1
            } else {
                pool_offset
            };
            assert(at == place(used_before(c, v0.keys, i as int)));
            overlay_bytes(page, JOURNAL_WIDTH + at, body.as_slice());
            let updated = KeyCacheEntry {
                start: vaddr + at as u64,
                len: kcache.len,
                reserved: kcache.reserved,
                flags: KeyFlags { valid: true, unresolved: false },
                age: kcache.age.saturating_add(1),
                descriptor_index: kcache.descriptor_index,
                clean: false,
                data: Some(KeySmallData { clean: true, data: body }),
            };
            assert(updated@ == synced_entry(v0.keys[name@], vaddr + at));
            self.keys.insert(name.as_str(), updated);
            pool_offset = pool_offset + kcache.reserved as usize;
            i += 1;
            proof {
                assert(self@.keys =~= placed_keys(v0.keys, c, vaddr as int, i as int));
            }
        }
    }

    /// Writes every dirty slot of the small pool to its page: the keys of
    /// the slot are placed one after the other, the page holds their data,
    /// and the slot is clean afterwards. A slot whose address has no page
    /// takes one from the free pool. Where the free pool holds fewer pages
    /// than the dirty slots need, nothing is written.
    pub fn sync_small_pool(&mut self, hw: &mut Storage, v2p_map: &mut V2PMap) -> (r: Result<
        (),
        PddbError,
    >)
        requires
            old(self).wf(),
            old(hw).wf(),
            bodies_ready(old(self)@),
        ensures
            final(self).wf(),
            final(hw).wf(),
            ({
                let w = world_of(old(self), old(hw), old(v2p_map));
                let now = world_of(final(self), final(hw), final(v2p_map));
                if pages_needed(w.dict, w.v2p, 0) > w.fast_space.len() {
                    r == Err::<(), PddbError>(PddbError::OutOfDiskSpace) && now == w
                } else {
                    r == Ok::<(), PddbError>(()) && now == sync_from(w, 0)
                }
            }),
    {
        let n = self.small_pool.len();
        let mut needed: usize = 0;
        let mut t: usize = n;
        while t > 0
            invariant
                t <= n,
                n == self.small_pool@.len(),
                n <= crate::layout::SMALL_POOL_SLOTS,
                needed == pages_needed(self@, v2p_map@, t as int),
                needed <= n - t,
            decreases t,
        {
            t -= 1;
            if !self.small_pool[t].clean && v2p_map.get(small_slot_address(self.index, t)).is_none() {
                needed += 1;
            }
        }
        if needed > hw.fast_space_len() {
            return Err(PddbError::OutOfDiskSpace);
        }
        let ghost w0 = world_of(self, hw, v2p_map);
        let mut s: usize = 0;
        while s < n
            invariant
                s <= n,
                n == self.small_pool@.len(),
                self.wf(),
                hw.wf(),
                bodies_ready(self@),
                pages_needed(self@, v2p_map@, s as int) <= hw@.fast_space.len(),
                sync_from(w0, 0) == sync_from(world_of(self, hw, v2p_map), s as int),
            decreases n - s,
        {
            if !self.small_pool[s].clean {
                let ghost w = world_of(self, hw, v2p_map);
                let ghost hw0 = *hw;
                let vaddr = small_slot_address(self.index, s);
                proof {
                    crate::sync_spec::lemma_pages_needed_nonneg(self@, v2p_map@, s + 1);
                }
                let pp = match v2p_map.entry_or_insert_with(vaddr, hw) {
                    Some(pp) => pp,
                    None => unreached(),
                };
                assert(pp == slot_page(w, s as int));
                let ghost hw1 = *hw;
                let mut page = zero_bytes(PAGE_BUF_LEN);
                proof {
                    assert forall|i: int|
                        0 <= i < self@.small_pool[s as int].contents.len() implies self@.keys[
                    #[trigger] self@.small_pool[s as int].contents[i]].data is Some by {}
                    assert forall|k: u32| #[trigger] hw.page(k) == hw0.page(k) by {}
                    assert forall|k: u32| page_wf(#[trigger] hw.page(k)) by {
                        assert(page_wf(hw0.page(k)));
                    }
                }
                self.place_slot_keys(s, vaddr, &mut page);
                hw.data_encrypt_and_patch_page(&self.aad, &mut page, &pp);
                self.small_pool[s].clean = true;
                proof {
                    let want = sync_slot(w, s as int);
                    let now = world_of(self, hw, v2p_map);
                    assert(now.dict.small_pool =~= want.dict.small_pool);
                    assert(now.dict == want.dict);
                    assert forall|k: u32| page_at(now.pages, k) == page_at(want.pages, k) by {
                        if k != pp.page_number {
                            assert(hw.page(k) == hw1.page(k));
                            assert(hw1.page(k) == hw0.page(k));
                        }
                    }
                    assert forall|k: u32| now.pages.contains_key(k) == want.pages.contains_key(k) by {
                        assert(page_at(now.pages, k) == page_at(want.pages, k));
                    }
                    assert forall|k: u32| now.pages.contains_key(k) implies now.pages[k]
                        == want.pages[k] by {
                        assert(page_at(now.pages, k) == page_at(want.pages, k));
                    }
                    assert(now.pages =~= want.pages);
                    assert(now == want);
                    lemma_sync_slot_keeps_inv(w, s as int);
                    lemma_sync_slot_bodies(w, s as int);
                    lemma_sync_slot_pages_needed(w, s as int, s + 1);
                    assert(self.small_pool_free@ =~= free_space_of(self.small_pool@));
                }
            }
            s += 1;
        }
        Ok(())
    }
}

/// The bytes that the keys of slot `s` have reserved together.
pub open spec fn slot_used_total(v: DictView, s: int) -> int {
    crate::dict_spec::slot_used(v.small_pool[s].contents, v.keys)
}

} // verus!
