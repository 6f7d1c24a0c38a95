//! Writing keys: into the cached data of a small key, and creating a small
//! key.

use vstd::prelude::*;
use crate::dict_spec::{is_small, key_inv, live, slot_inv, slot_of, DictView};
use crate::dictionary::{free_space_of, small_storage_index_from_key, DictCacheEntry};
use crate::keys::{KeyCacheEntry, KeyFlags, KeySmallData};
use crate::layout::{small_slot_address, SMALL_CAPACITY};
use crate::scan_spec::{avail_at, index_in_use, lemma_take_key_keeps_inv, take_key};
use crate::update_lemmas::{
    lemma_best_slot, lemma_counted, lemma_entry_replaced, lemma_min_free, lemma_slot_dirtied,
    lemma_touched,
};
use crate::update_spec::{
    best_slot, counted, grown, index_taken, is_best, new_small_entry, overlay, slot_dirtied,
    small_created, small_fits, small_target, small_written, started, touched, zeros,
};

verus! {

/// Lays `data` over `buf` from position `at` on.
pub fn overlay_bytes(buf: &mut Vec<u8>, at: usize, data: &[u8])
    requires
        at + data@.len() <= old(buf).len(),
    ensures
        final(buf)@ == overlay(old(buf)@, at as int, data@),
{
    let n = data.len();
    let mut i: usize = 0;
    while i < n
        invariant
            i <= n,
            n == data@.len(),
            at + n <= buf.len(),
            buf@.len() == old(buf)@.len(),
            forall|j: int| 0 <= j < buf@.len() && !(at <= j < at + i) ==> buf@[j] == old(buf)@[j],
            forall|j: int| at <= j < at + i ==> #[trigger] buf@[j] == data@[j - at],
        decreases n - i,
    {
        buf.set(at + i, data[i]);
        i += 1;
    }
    assert(buf@ =~= overlay(old(buf)@, at as int, data@));
}

/// A vector of `n` zero bytes.
pub fn zero_bytes(n: usize) -> (buf: Vec<u8>)
    ensures
        buf@ == zeros(n as int),
{
    let mut buf: Vec<u8> = Vec::new();
    let mut i: usize = 0;
    while i < n
        invariant
            i <= n,
            buf@ == zeros(i as int),
        decreases n - i,
    {
        buf.push(0);
        i += 1;
        assert(buf@ =~= zeros(i as int));
    }
    buf
}

impl DictCacheEntry {
    /// Marks the cache as modified: dirty, its modification count one
    /// higher.
    pub fn touch(&mut self)
        requires
            old(self).wf(),
        ensures
            final(self).wf(),
            final(self)@ == touched(old(self)@),
    {
        self.age = self.age.saturating_add(1);
        self.clean = false;
        proof {
            lemma_touched(old(self)@);
        }
    }

    /// The slot with the most free space; among slots with the same free
    /// space the one with the highest number.
    pub fn best_slot(&self) -> (best: usize)
        requires
            self.small_pool_free@ == free_space_of(self.small_pool@),
            self.small_pool@.len() > 0,
        ensures
            best < self.small_pool@.len(),
            best == best_slot(self@.small_pool),
    {
        let n = self.small_pool_free.len();
        let mut best: usize = 0;
        let mut i: usize = 1;
        while i < n
            invariant
                1 <= i <= n,
                n == self.small_pool@.len(),
                self.small_pool_free@ == free_space_of(self.small_pool@),
                best < i,
                forall|j: int|
                    0 <= j < i ==> (#[trigger] self@.small_pool[j]).avail
                        < self@.small_pool[best as int].avail || (self@.small_pool[j].avail
                        == self@.small_pool[best as int].avail && j <= best),
            decreases n - i,
        {
            let cand = self.small_pool_free[i];
            let cur = self.small_pool_free[best];
            assert(cand.avail == self@.small_pool[i as int].avail);
            assert(cur.avail == self@.small_pool[best as int].avail);
            if cand.avail >= cur.avail {
                best = i;
            }
            i += 1;
        }
        proof {
            assert(is_best(self@.small_pool, best as int));
            lemma_best_slot(self@.small_pool, best as int);
        }
        best
    }

    /// The slot that takes a new small key with that reservation.
    pub fn small_target(&self, reservation: usize) -> (slot: usize)
        requires
            self.wf(),
            reservation < SMALL_CAPACITY,
        ensures
            slot == small_target(self@.small_pool, reservation as int),
            slot <= self@.small_pool.len(),
            reservation <= avail_at(self@.small_pool, slot as int),
    {
        if self.small_pool.len() == 0 {
            proof {
                let p = started(self@.small_pool);
                assert(is_best(p, 0));
                lemma_best_slot(p, 0);
            }
            0
        } else {
            let best = self.best_slot();
            if self.small_pool[best].avail as usize >= reservation {
                best
            } else {
                self.small_pool.len()
            }
        }
    }

    /// Creates the small key `name`, which is not live, with `offset` zeros
    /// and then `data` as its data.
    pub fn create_small(&mut self, name: &str, data: &[u8], offset: usize, hint: usize)
        requires
            old(self).wf(),
            !old(self).clean,
            !live(old(self)@.keys, name@),
            old(self)@.free_keys != Set::<int>::empty(),
            small_fits(old(self)@.small_pool, offset + data@.len(), hint as int),
        ensures
            final(self).wf(),
            final(self)@ == small_created(old(self)@, name@, data@, offset as int, hint as int),
    {
        let need: usize = data.len() + offset;
        let reservation: usize = if hint > need { hint } else { need };
        let slot = self.small_target(reservation);
        let ghost v0 = self@;
        let idx = match self.get_free_key_index() {
            Some(i) => i,
            None => unreached(),
        };
        let ghost v1 = self@;
        proof {
            lemma_min_free(v0.free_keys, idx as int);
            assert(v1 == index_taken(v0, idx as int));
            assert(!index_in_use(v1.keys, idx as int)) by {
                if index_in_use(v1.keys, idx as int) {
                    let n = choose|n: Seq<char>|
                        live(v1.keys, n) && #[trigger] v1.keys[n].descriptor_index == idx;
                    assert(key_inv(v0, n));
                }
            }
        }
        let mut body = zero_bytes(offset);
        let mut i: usize = 0;
        while i < data.len()
            invariant
                i <= data@.len(),
                body@ == zeros(offset as int) + data@.subrange(0, i as int),
            decreases data@.len() - i,
        {
            body.push(data[i]);
            i += 1;
            assert(body@ =~= zeros(offset as int) + data@.subrange(0, i as int));
        }
        assert(body@ =~= zeros(offset as int) + data@);
        let kcache = KeyCacheEntry {
            start: small_slot_address(self.index, slot),
            len: need as u64,
            reserved: reservation as u64,
            flags: KeyFlags { valid: true, unresolved: true },
            age: 0,
            descriptor_index: idx,
            clean: false,
            data: Some(KeySmallData { clean: false, data: body }),
        };
        let ghost e = kcache@;
        proof {
            assert(e == new_small_entry(
                v0.index,
                data@,
                offset as int,
                reservation as int,
                idx as int,
                slot as int,
            ));
            assert(is_small(e, v1.index));
            assert(slot_of(e, v1.index) == slot);
            assert forall|s: int| 0 <= s < v1.small_pool.len() implies 0 <= (
            #[trigger] v1.small_pool[s]).avail <= SMALL_CAPACITY by {
                assert(slot_inv(v1, s));
            }
            lemma_take_key_keeps_inv(v1, name@, e);
        }
        self.list_in_slot(slot, name, reservation as u64);
        self.small_pool[slot].clean = false;
        self.keys.insert(name, kcache);
        self.key_count = self.key_count.saturating_add(1);
        self.rebuild_free_pool();
        proof {
            let v2 = take_key(v1, name@, e);
            let v3 = slot_dirtied(v2, slot as int);
            let want = counted(v3);
            lemma_slot_dirtied(v2, slot as int);
            lemma_counted(v3);
            assert(self@.keys =~= want.keys);
            assert(self@.small_pool =~= want.small_pool);
            assert(self@ == want);
        }
    }

    /// Writes `data` at `offset` into the cached data of the live small key
    /// `name`, which has reserved room for it.
    pub fn write_small(&mut self, name: &str, data: &[u8], offset: usize)
        requires
            old(self).wf(),
            !old(self).clean,
            live(old(self)@.keys, name@),
            is_small(old(self)@.keys[name@], old(self).index as int),
            old(self)@.keys[name@].data is Some,
            offset + data@.len() <= old(self)@.keys[name@].reserved,
        ensures
            final(self).wf(),
            final(self)@ == small_written(old(self)@, name@, data@, offset as int),
    {
        let ghost v0 = self@;
        assert(key_inv(v0, name@));
        let kcache = match self.keys.get(name) {
            Some(e) => e.duplicate(),
            None => unreached(),
        };
        let need: usize = data.len() + offset;
        let mut body = match kcache.data {
            Some(d) => d.data,
            None => unreached(),
        };
        let ghost body0 = body@;
        while body.len() < need
            invariant
                body@.len() >= body0.len(),
                body@.len() <= need || body@.len() == body0.len(),
                body@ == grown(body0, body@.len() as int),
            decreases need - body@.len(),
        {
            body.push(0);
            assert(body@ =~= grown(body0, body@.len() as int));
        }
        assert(body@ =~= grown(body0, need as int));
        overlay_bytes(&mut body, offset, data);
        let updated = KeyCacheEntry {
            start: kcache.start,
            len: if kcache.len > need as u64 { kcache.len } else { need as u64 },
            reserved: kcache.reserved,
            flags: kcache.flags,
            age: kcache.age,
            descriptor_index: kcache.descriptor_index,
            clean: kcache.clean,
            data: Some(KeySmallData { clean: false, data: body }),
        };
        let ghost e2 = updated@;
        let probe = KeyCacheEntry {
            start: kcache.start,
            len: kcache.len,
            reserved: kcache.reserved,
            flags: kcache.flags,
            age: kcache.age,
            descriptor_index: kcache.descriptor_index,
            clean: kcache.clean,
            data: None,
        };
        let slot = match small_storage_index_from_key(&probe, self.index) {
            Some(s) => s,
            None => unreached(),
        };
        proof {
            lemma_entry_replaced(v0, name@, e2);
            let v1 = DictView { keys: v0.keys.insert(name@, e2), ..v0 };
            lemma_slot_dirtied(v1, slot as int);
        }
        self.keys.insert(name, updated);
        self.small_pool[slot].clean = false;
        proof {
            let want = small_written(v0, name@, data@, offset as int);
            assert(self@.keys =~= want.keys);
            assert(self@.small_pool =~= want.small_pool);
            assert(self@ == want);
            assert(self.small_pool_free@ =~= free_space_of(self.small_pool@));
        }
    }
}

} // verus!
