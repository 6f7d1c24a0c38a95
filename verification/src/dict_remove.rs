//! Removing a key from the dictionary.

use vstd::prelude::*;
use crate::dict_spec::{is_small, key_inv, live, slot_inv};
use crate::dictionary::{small_storage_index_from_key, DictCacheEntry};
use crate::keys::{KeyCacheEntry, KeyFlags};
use crate::layout::{PAGE_SIZE, VPAGE_SIZE, VPAGE_STEP};
use crate::remove_spec::{
    in_pages, is_behind, lemma_removed_keeps_inv, pages_behind, position_of, removed,
    swap_removed, tombstone, unmapped,
};
use crate::scan_spec::lookup;
use crate::storage::{is_raw, lemma_same_pages, Storage};
use crate::v2p::V2PMap;

verus! {

/// Takes the mappings of the `count` virtual pages that start at `first`
/// out of the page map and returns their physical pages to the free pool,
/// in the order of their addresses. With `paranoid`, each physical page is
/// first overwritten with noise.
pub fn release_pages(
    hw: &mut Storage,
    v2p_map: &mut V2PMap,
    first: u64,
    count: u64,
    paranoid: bool,
)
    requires
        old(hw).wf(),
        first + count * VPAGE_SIZE as int <= u64::MAX,
    ensures
        final(hw).wf(),
        final(v2p_map)@ == unmapped(old(v2p_map)@, first as int, count as int),
        final(hw).fast_space@ == old(hw).fast_space@ + pages_behind(
            old(v2p_map)@,
            first as int,
            count as int,
        ),
        forall|n: u32|
            !(paranoid && is_behind(old(v2p_map)@, first as int, count as int, n)) ==> final(hw).page(n) == old(hw).page(n),
        forall|n: u32|
            paranoid && is_behind(old(v2p_map)@, first as int, count as int, n) ==> is_raw(
                #[trigger] final(hw).page(n),
            ),
        !paranoid ==> final(hw)@.pages == old(hw)@.pages,
{
    let ghost map0 = v2p_map@;
    let mut noise: Vec<u8> = vec![0u8; PAGE_SIZE];
    let mut k: u64 = 0;
    assert(v2p_map@ =~= unmapped(map0, first as int, 0));
    while k < count
        invariant
            k <= count,
            first + count * VPAGE_SIZE as int <= u64::MAX,
            hw.wf(),
            noise.len() == PAGE_SIZE,
            map0 == old(v2p_map)@,
            v2p_map@ == unmapped(map0, first as int, k as int),
            hw.fast_space@ == old(hw).fast_space@ + pages_behind(map0, first as int, k as int),
            forall|n: u32|
                !(paranoid && is_behind(map0, first as int, k as int, n)) ==> hw.page(n) == old(hw).page(n),
            forall|n: u32|
                paranoid && is_behind(map0, first as int, k as int, n) ==> is_raw(#[trigger] hw.page(n)),
        decreases count - k,
    {
        let vaddr: u64 = first + k * VPAGE_STEP;
        let ghost hw_before = *hw;
        assert(in_pages(first as int, k + 1, vaddr as int));
        assert(!in_pages(first as int, k as int, vaddr as int));
        match v2p_map.remove(vaddr) {
            Some(pp) => {
                assert(pp == map0[vaddr]);
                if paranoid {
                    hw.trng_slice(&mut noise);
                    hw.patch_data(&noise, pp.page_number);
                }
                let ghost mid = *hw;
                hw.fast_space_free(pp);
                proof {
                    assert forall|n: u32| #[trigger] hw.page(n) == mid.page(n) by {}
                    assert forall|n: u32| crate::storage::page_wf(#[trigger] hw.page(n)) by {
                        assert(crate::storage::page_wf(mid.page(n)));
                    }
                    assert(is_behind(map0, first as int, k + 1, pp.page_number));
                    assert(hw.fast_space@ =~= old(hw).fast_space@ + pages_behind(
                        map0,
                        first as int,
                        k + 1,
                    ));
                    assert(paranoid ==> is_raw(hw.page(pp.page_number)));
                }
            },
            None => {},
        }
        proof {
            assert(v2p_map@ =~= unmapped(map0, first as int, k + 1)) by {
                assert forall|va: u64|
                    in_pages(first as int, k + 1, va as int) <==> (in_pages(
                        first as int,
                        k as int,
                        va as int,
                    ) || va == vaddr) by {}
            }
            let f0 = first as int;
            let k0 = k as int;
            let k1 = k + 1;
            assert forall|n: u32| #[trigger] is_behind(map0, f0, k0, n) implies is_behind(
                map0,
                f0,
                k1,
                n,
            ) by {
                let va = choose|va: u64|
                    #![trigger map0[va]]
                    map0.contains_key(va) && in_pages(first as int, k as int, va as int)
                        && map0[va].page_number == n;
                assert(in_pages(first as int, k + 1, va as int));
            }
            assert forall|n: u32| paranoid && is_behind(map0, f0, k1, n) implies is_raw(
                #[trigger] hw.page(n),
            ) by {
                let va = choose|va: u64|
                    #![trigger map0[va]]
                    map0.contains_key(va) && in_pages(first as int, k + 1, va as int)
                        && map0[va].page_number == n;
                if va != vaddr {
                    assert(in_pages(first as int, k as int, va as int));
                    assert(is_behind(map0, first as int, k as int, n));
                    assert(is_raw(hw_before.page(n)));
                }
            }
        }
        k += 1;
    }
    proof {
        if !paranoid {
            lemma_same_pages(hw, old(hw));
        }
    }
}

impl DictCacheEntry {
    /// Removes the key `name_str` from the dictionary. A key that the
    /// dictionary does not have, or that was removed before, is left alone.
    /// The entry of a removed key stays cached as a tombstone, its
    /// descriptor index becomes free. A small key leaves its slot; the pages
    /// of a large key leave the page map and go back to the free pool, with
    /// `paranoid` after they were overwritten with noise.
    pub fn key_remove(
        &mut self,
        hw: &mut Storage,
        v2p_map: &mut V2PMap,
        name_str: &str,
        paranoid: bool,
    )
        requires
            old(self).wf(),
            old(hw).wf(),
        ensures
            final(self).wf(),
            final(hw).wf(),
            ({
                let found = lookup(old(self)@, old(hw)@.pages, old(v2p_map)@, name_str@);
                let e = found.0.keys[name_str@];
                let count = e.reserved / VPAGE_SIZE as int;
                &&& !found.1 ==> {
                    &&& final(self)@ == found.0
                    &&& *final(hw) == *old(hw)
                    &&& *final(v2p_map) == *old(v2p_map)
                }
                &&& found.1 ==> final(self)@ == removed(found.0, name_str@)
                &&& found.1 && is_small(e, old(self).index as int) ==> {
                    &&& *final(hw) == *old(hw)
                    &&& *final(v2p_map) == *old(v2p_map)
                }
                &&& found.1 && !is_small(e, old(self).index as int) ==> {
                    &&& final(v2p_map)@ == unmapped(old(v2p_map)@, e.start, count)
                    &&& final(hw).fast_space@ == old(hw).fast_space@ + pages_behind(
                        old(v2p_map)@,
                        e.start,
                        count,
                    )
                    &&& forall|n: u32|
                        !(paranoid && is_behind(old(v2p_map)@, e.start, count, n)) ==> final(hw).page(n) == old(hw).page(n)
                    &&& forall|n: u32|
                        paranoid && is_behind(old(v2p_map)@, e.start, count, n) ==> is_raw(
                            #[trigger] final(hw).page(n),
                        )
                    &&& !paranoid ==> final(hw)@.pages == old(hw)@.pages
                }
            }),
    {
        if !self.ensure_key_entry(hw, v2p_map, name_str) {
            return ;
        }
        proof {
            crate::scan_spec::lemma_lookup(old(self)@, old(hw)@.pages, old(v2p_map)@, name_str@);
        }
        let ghost v1 = self@;
        let kcache = match self.keys.get(name_str) {
            Some(e) => e.duplicate(),
            None => unreached(),
        };
        proof {
            crate::scan_spec::lemma_lookup(old(self)@, old(hw)@.pages, old(v2p_map)@, name_str@);
            assert(live(v1.keys, name_str@));
            assert(key_inv(v1, name_str@));
            lemma_removed_keeps_inv(v1, name_str@);
        }
        self.clean = false;
        let small = small_storage_index_from_key(&kcache, self.index);
        match small {
            Some(small_index) => {
                let owned = name_str.to_owned();
                let ghost c = v1.small_pool[small_index as int].contents;
                assert(slot_inv(v1, small_index as int));
                let mut p: usize = 0;
                while p < self.small_pool[small_index].contents.len() && !(
                self.small_pool[small_index].contents[p] == owned)
                    invariant
                        small_index < self.small_pool@.len(),
                        self@.small_pool == v1.small_pool,
                        c == v1.small_pool[small_index as int].contents,
                        owned@ == name_str@,
                        p <= c.len(),
                        forall|j: int| 0 <= j < p ==> c[j] != name_str@,
                    decreases c.len() - p,
                {
                    assert(self@.small_pool[small_index as int].contents[p as int]
                        == self.small_pool@[small_index as int].contents@[p as int]@);
                    p += 1;
                }
                proof {
                    let q = position_of(c, name_str@);
                    assert(c.contains(name_str@));
                    assert(0 <= q < c.len() && c[q] == name_str@);
                    assert(self@.small_pool[small_index as int].contents[p as int]
                        == self.small_pool@[small_index as int].contents@[p as int]@);
                    assert(p == q) by {
                        if p != q {
                            assert(c[p as int] != c[q]);
                        }
                    }
                    assert(slot_inv(removed(v1, name_str@), small_index as int));
                }
                self.small_pool[small_index].contents.swap_remove(p);
                self.small_pool[small_index].avail = self.small_pool[small_index].avail
                    + kcache.reserved as u16;
                self.small_pool[small_index].clean = false;
                proof {
                    let want = removed(v1, name_str@).small_pool;
                    assert(self@.small_pool[small_index as int].contents =~= swap_removed(
                        c,
                        p as int,
                    ));
                    assert(self@.small_pool =~= want);
                }
            },
            None => {
                release_pages(
                    hw,
                    v2p_map,
                    kcache.start,
                    kcache.reserved / VPAGE_STEP,
                    paranoid,
                );
            },
        }
        let tomb = KeyCacheEntry {
            start: kcache.start,
            len: kcache.len,
            reserved: kcache.reserved,
            flags: KeyFlags { valid: false, unresolved: kcache.flags.unresolved },
            age: kcache.age.saturating_add(1),
            descriptor_index: kcache.descriptor_index,
            clean: false,
            data: kcache.data,
        };
        assert(tomb@ == tombstone(v1.keys[name_str@]));
        self.keys.insert(name_str, tomb);
        self.free_keys.push(kcache.descriptor_index);
        if small.is_some() {
            self.rebuild_free_pool();
        }
        proof {
            let want = removed(v1, name_str@);
            assert(self@.keys =~= want.keys);
            assert(self@.free_keys =~= want.free_keys);
            assert(self@.small_pool =~= want.small_pool);
            assert(self@ == want);
        }
    }
}

} // verus!
