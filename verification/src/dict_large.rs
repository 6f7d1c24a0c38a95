//! Writing keys of the large pool: mapping their pages, writing their data
//! page by page, and cutting them back.

use vstd::prelude::*;
use vstd::slice::slice_subrange;
use crate::dict_spec::{is_small, key_inv, live, DictView};
use crate::dict_remove::release_pages;
use crate::dict_update::{overlay_bytes, zero_bytes};
use crate::dictionary::DictCacheEntry;
use crate::keys::{KeyCacheEntry, KeyFlags};
use crate::layout::{
    round_up_to_vpage, vpage_floor, JOURNAL_WIDTH, LARGE_POOL_START, PAGE_BUF_LEN, VPAGE_SIZE,
    VPAGE_STEP,
};
use crate::remove_spec::{in_pages, pages_behind, unmapped};
use crate::scan_spec::{index_in_use, lemma_take_key_keeps_inv, take_key};
use crate::storage::{page_at, page_wf, PageView, Storage};
use crate::update_lemmas::{lemma_counted, lemma_entry_replaced, lemma_min_free};
use crate::update_spec::{
    counted, fresh_mapped, index_taken, large_created, large_written_entry, new_large_entry,
    sealed_write, span_count, writable, write_large, write_pages,
};
use crate::v2p::V2PMap;

verus! {

/// Whether a write of `len` bytes at `addr` can go through: every page it
/// touches is mapped, and where it starts inside a page, that page opens.
pub fn can_write_large(hw: &Storage, v2p_map: &V2PMap, aad: &Vec<u8>, addr: u64, len: usize) -> (r:
    bool)
    requires
        addr + len <= u64::MAX,
    ensures
        r == writable(hw@.pages, v2p_map@, aad@, addr as int, len as int),
{
    let within: u64 = addr % VPAGE_STEP;
    let first: u64 = addr - within;
    let count: u64 = ((within as u128 + len as u128 + (VPAGE_STEP - 1) as u128)
        / VPAGE_STEP as u128) as u64;
    assert(first == vpage_floor(addr as int));
    assert(count == span_count(addr as int, len as int));
    let mut k: u64 = 0;
    while k < count
        invariant
            k <= count,
            first == vpage_floor(addr as int),
            count == span_count(addr as int, len as int),
            first + count * VPAGE_SIZE as int <= u64::MAX + VPAGE_SIZE as int,
            count > 0 ==> first + (count - 1) * VPAGE_SIZE as int <= u64::MAX,
            forall|va: u64| in_pages(first as int, k as int, va as int) ==> #[trigger] v2p_map@.contains_key(va),
        decreases count - k,
    {
        let va: u64 = first + k * VPAGE_STEP;
        if v2p_map.get(va).is_none() {
            assert(in_pages(first as int, count as int, va as int));
            assert(!v2p_map@.contains_key(va));
            return false;
        }
        proof {
            assert forall|x: u64| in_pages(first as int, k + 1, x as int) implies #[trigger] v2p_map@.contains_key(x) by {
                if x != va {
                    assert(in_pages(first as int, k as int, x as int));
                }
            }
        }
        k += 1;
    }
    if within != 0 {
        match v2p_map.get(first) {
            Some(pp) => hw.data_decrypt_page(aad, &pp).is_some(),
            None => false,
        }
    } else {
        true
    }
}

/// Writes `chunk` `within` bytes into the virtual page at `page_va`, steps
/// the journal counter and seals the page. A blind write starts from a page
/// of zeros; any other write starts from what the page opens to, or from
/// zeros where it does not open.
pub fn seal_chunk(
    hw: &mut Storage,
    v2p_map: &V2PMap,
    aad: &Vec<u8>,
    page_va: u64,
    within: usize,
    chunk: &[u8],
    blind: bool,
)
    requires
        old(hw).wf(),
        v2p_map@.contains_key(page_va),
        within + chunk@.len() <= VPAGE_SIZE,
    ensures
        final(hw).wf(),
        final(hw)@.fast_space == old(hw)@.fast_space,
        final(hw)@.pages == sealed_write(
            old(hw)@.pages,
            v2p_map@,
            aad@,
            page_va as int,
            within as int,
            chunk@,
            blind,
        ),
{
    let pp = match v2p_map.get(page_va) {
        Some(pp) => pp,
        None => unreached(),
    };
    assert(page_wf(hw.page(pp.page_number)));
    let mut buf = if blind {
        zero_bytes(PAGE_BUF_LEN)
    } else {
        match hw.data_decrypt_page(aad, &pp) {
            Some(p) => p,
            None => zero_bytes(PAGE_BUF_LEN),
        }
    };
    overlay_bytes(&mut buf, JOURNAL_WIDTH + within, chunk);
    hw.data_encrypt_and_patch_page(aad, &mut buf, &pp);
    proof {
        let want = sealed_write(
            old(hw)@.pages,
            v2p_map@,
            aad@,
            page_va as int,
            within as int,
            chunk@,
            blind,
        );
        assert forall|n: u32| page_at(hw@.pages, n) == page_at(want, n) by {
            if n != pp.page_number {
                assert(hw.page(n) == old(hw).page(n));
            } else {
                assert(hw.page(n) == Some(PageView::Sealed { aad: aad@, plaintext: buf@ }));
            }
        }
        assert forall|n: u32| hw@.pages.contains_key(n) == want.contains_key(n) by {
            assert(page_at(hw@.pages, n) == page_at(want, n));
        }
        assert forall|n: u32| hw@.pages.contains_key(n) implies hw@.pages[n] == want[n] by {
            assert(page_at(hw@.pages, n) == page_at(want, n));
        }
        assert(hw@.pages =~= want);
    }
}

/// Writes `data` from virtual address `addr` on, page by page.
pub fn write_span(hw: &mut Storage, v2p_map: &V2PMap, aad: &Vec<u8>, addr: u64, data: &[u8])
    requires
        old(hw).wf(),
        addr + data@.len() <= u64::MAX,
        writable(old(hw)@.pages, v2p_map@, aad@, addr as int, data@.len() as int),
    ensures
        final(hw).wf(),
        final(hw)@.fast_space == old(hw)@.fast_space,
        final(hw)@.pages == write_large(old(hw)@.pages, v2p_map@, aad@, addr as int, data@),
{
    let len = data.len();
    let within: usize = (addr % VPAGE_STEP) as usize;
    let ghost first = vpage_floor(addr as int);
    let ghost count = span_count(addr as int, len as int);
    let mut written: usize = 0;
    if within != 0 {
        let room: usize = VPAGE_SIZE - within;
        let n: usize = if len >= room { room } else { len };
        let page_va: u64 = addr - within as u64;
        assert(in_pages(first, count, page_va as int));
        seal_chunk(hw, v2p_map, aad, page_va, within, slice_subrange(data, 0, n), false);
        written = n;
        proof {
            let tail = data@.subrange(n as int, len as int);
            if n < room {
                assert(tail.len() == 0);
                assert(write_pages(hw@.pages, v2p_map@, aad@, addr + written, tail) == hw@.pages);
                assert(write_pages(
                    hw@.pages,
                    v2p_map@,
                    aad@,
                    addr - within + VPAGE_SIZE as int,
                    tail,
                ) == hw@.pages);
            }
        }
    } else {
        assert(data@.subrange(0, len as int) =~= data@);
    }
    while written < len
        invariant
            written <= len,
            len == data@.len(),
            addr + len <= u64::MAX,
            hw.wf(),
            hw@.fast_space == old(hw)@.fast_space,
            first == vpage_floor(addr as int),
            count == span_count(addr as int, len as int),
            written < len ==> (addr + written) % VPAGE_SIZE as int == 0,
            forall|va: u64| in_pages(first, count, va as int) ==> #[trigger] v2p_map@.contains_key(va),
            write_large(old(hw)@.pages, v2p_map@, aad@, addr as int, data@) == write_pages(
                hw@.pages,
                v2p_map@,
                aad@,
                addr + written,
                data@.subrange(written as int, len as int),
            ),
        decreases len - written,
    {
        let page_va: u64 = addr + written as u64;
        let rest: usize = len - written;
        let n: usize = if rest >= VPAGE_SIZE { VPAGE_SIZE } else { rest };
        let ghost tail = data@.subrange(written as int, len as int);
        let ghost before = hw@.pages;
        assert(in_pages(first, count, page_va as int));
        seal_chunk(
            hw,
            v2p_map,
            aad,
            page_va,
            0,
            slice_subrange(data, written, written + n),
            n == VPAGE_SIZE,
        );
        proof {
            assert(tail.subrange(0, n as int) =~= data@.subrange(written as int, written + n));
            let next = data@.subrange(written + n, len as int);
            assert(tail.subrange(n as int, tail.len() as int) =~= next);
            assert(write_pages(before, v2p_map@, aad@, addr + written, tail) == write_pages(
                hw@.pages,
                v2p_map@,
                aad@,
                addr + written + VPAGE_SIZE as int,
                next,
            ));
            if n < VPAGE_SIZE {
                assert(next.len() == 0);
                assert(write_pages(
                    hw@.pages,
                    v2p_map@,
                    aad@,
                    addr + written + VPAGE_SIZE as int,
                    next,
                ) == hw@.pages);
                assert(write_pages(hw@.pages, v2p_map@, aad@, addr + written + n, next)
                    == hw@.pages);
            }
        }
        written += n;
    }
    proof {
        assert(data@.subrange(len as int, len as int).len() == 0);
    }
}

impl DictCacheEntry {
    /// Creates the large key `name`, which is not live, at `ptr`, with
    /// `reservation` bytes in whole pages, and maps its pages to pages of the
    /// free pool, the last free page first.
    pub fn create_large(
        &mut self,
        hw: &mut Storage,
        v2p_map: &mut V2PMap,
        name: &str,
        need: u64,
        reservation: u64,
        ptr: u64,
    )
        requires
            old(self).wf(),
            old(hw).wf(),
            !old(self).clean,
            !live(old(self)@.keys, name@),
            old(self)@.free_keys != Set::<int>::empty(),
            ptr >= LARGE_POOL_START,
            ptr % VPAGE_STEP == 0,
            reservation % VPAGE_STEP == 0,
            need <= reservation,
            ptr + reservation <= u64::MAX,
            old(hw)@.fast_space.len() >= reservation / VPAGE_STEP,
            forall|va: u64| va >= ptr ==> !old(v2p_map)@.contains_key(va),
        ensures
            final(self).wf(),
            final(hw).wf(),
            final(self)@ == large_created(
                old(self)@,
                name@,
                need as int,
                reservation as int,
                ptr as int,
            ),
            final(v2p_map)@ == fresh_mapped(
                old(v2p_map)@,
                old(hw)@.fast_space,
                ptr as int,
                reservation as int / VPAGE_SIZE as int,
            ),
            final(hw)@.pages == old(hw)@.pages,
            final(hw)@.fast_space == old(hw)@.fast_space.subrange(
                0,
                old(hw)@.fast_space.len() - reservation as int / VPAGE_SIZE as int,
            ),
    {
        let ghost v0 = self@;
        let idx = match self.get_free_key_index() {
            Some(i) => i,
            None => unreached(),
        };
        let ghost v1 = self@;
        let kcache = KeyCacheEntry {
            start: ptr,
            len: need,
            reserved: reservation,
            flags: KeyFlags { valid: true, unresolved: false },
            age: 0,
            descriptor_index: idx,
            clean: false,
            data: None,
        };
        let ghost e = kcache@;
        proof {
            lemma_min_free(v0.free_keys, idx as int);
            assert(v1 == index_taken(v0, idx as int));
            assert(!index_in_use(v1.keys, idx as int)) by {
                if index_in_use(v1.keys, idx as int) {
                    let n = choose|n: Seq<char>|
                        live(v1.keys, n) && #[trigger] v1.keys[n].descriptor_index == idx;
                    assert(key_inv(v0, n));
                }
            }
            assert(e == new_large_entry(ptr as int, need as int, reservation as int, idx as int));
            assert(!is_small(e, v1.index));
            lemma_take_key_keeps_inv(v1, name@, e);
            lemma_counted(take_key(v1, name@, e));
        }
        self.keys.insert(name, kcache);
        self.key_count = self.key_count.saturating_add(1);
        proof {
            let want = counted(take_key(v1, name@, e));
            assert(self@.keys =~= want.keys);
            assert(self@ == want);
        }
        let count: u64 = reservation / VPAGE_STEP;
        let ghost map0 = v2p_map@;
        let ghost fs0 = hw@.fast_space;
        let ghost pages0 = hw@.pages;
        let mut k: u64 = 0;
        assert(v2p_map@ =~= fresh_mapped(map0, fs0, ptr as int, 0));
        assert(hw@.fast_space =~= fs0.subrange(0, fs0.len() - 0));
        while k < count
            invariant
                k <= count,
                count <= fs0.len(),
                ptr + count * VPAGE_SIZE as int <= u64::MAX,
                ptr % VPAGE_STEP == 0,
                hw.wf(),
                hw@.pages == pages0,
                forall|va: u64| va >= ptr ==> !map0.contains_key(va),
                v2p_map@ == fresh_mapped(map0, fs0, ptr as int, k as int),
                hw@.fast_space == fs0.subrange(0, fs0.len() - k),
            decreases count - k,
        {
            let vaddr: u64 = ptr + k * VPAGE_STEP;
            let ghost mid = *hw;
            assert(!in_pages(ptr as int, k as int, vaddr as int));
            match hw.try_fast_space_alloc() {
                Some(pp) => {
                    v2p_map.insert(vaddr, pp);
                    proof {
                        assert(pp == fs0[fs0.len() - 1 - k]);
                        assert(hw@.fast_space =~= fs0.subrange(0, fs0.len() - (k + 1)));
                        assert forall|n: u32| #[trigger] hw.page(n) == mid.page(n) by {}
                        assert forall|n: u32| page_wf(#[trigger] hw.page(n)) by {
                            assert(page_wf(mid.page(n)));
                        }
                        assert(hw@.pages =~= pages0);
                        let want = fresh_mapped(map0, fs0, ptr as int, k + 1);
                        assert forall|va: u64|
                            in_pages(ptr as int, k + 1, va as int) <==> (in_pages(
                                ptr as int,
                                k as int,
                                va as int,
                            ) || va == vaddr) by {}
                        assert(v2p_map@ =~= want);
                    }
                },
                None => unreached(),
            }
            k += 1;
        }
    }

    /// Writes `data` at `offset` into the live large key `name`, which has
    /// reserved room for it, and marks the key dirty. With `truncate` the key
    /// ends where the write ended, and the pages past that end leave the page
    /// map and go back to the free pool.
    pub fn write_large_key(
        &mut self,
        hw: &mut Storage,
        v2p_map: &mut V2PMap,
        name: &str,
        data: &[u8],
        offset: usize,
        truncate: bool,
    )
        requires
            old(self).wf(),
            old(hw).wf(),
            !old(self).clean,
            live(old(self)@.keys, name@),
            !is_small(old(self)@.keys[name@], old(self).index as int),
            offset + data@.len() <= old(self)@.keys[name@].reserved,
            writable(
                old(hw)@.pages,
                old(v2p_map)@,
                old(self).aad@,
                old(self)@.keys[name@].start + offset,
                data@.len() as int,
            ),
        ensures
            final(self).wf(),
            final(hw).wf(),
            ({
                let e = old(self)@.keys[name@];
                let e2 = large_written_entry(e, offset + data@.len(), truncate);
                let cut = (e.reserved - e2.reserved) / VPAGE_SIZE as int;
                &&& final(self)@ == (DictView {
                    keys: old(self)@.keys.insert(name@, e2),
                    ..old(self)@
                })
                &&& final(hw)@.pages == write_large(
                    old(hw)@.pages,
                    old(v2p_map)@,
                    old(self).aad@,
                    e.start + offset,
                    data@,
                )
                &&& final(v2p_map)@ == unmapped(old(v2p_map)@, e.start + e2.reserved, cut)
                &&& final(hw)@.fast_space == old(hw)@.fast_space + pages_behind(
                    old(v2p_map)@,
                    e.start + e2.reserved,
                    cut,
                )
            }),
    {
        let ghost v0 = self@;
        assert(key_inv(v0, name@));
        let kcache = match self.keys.get(name) {
            Some(e) => e.duplicate(),
            None => unreached(),
        };
        let need: u64 = data.len() as u64 + offset as u64;
        let rounded: u64 = (((need as u128 + (VPAGE_STEP - 1) as u128) / VPAGE_STEP as u128)
            * VPAGE_STEP as u128) as u64;
        assert(rounded == round_up_to_vpage(need as int));
        let new_reserved: u64 = if truncate && rounded < kcache.reserved {
            rounded
        } else {
            kcache.reserved
        };
        let updated = KeyCacheEntry {
            start: kcache.start,
            len: if truncate {
                need
            } else if kcache.len > need {
                kcache.len
            } else {
                need
            },
            reserved: new_reserved,
            flags: kcache.flags,
            age: kcache.age.saturating_add(1),
            descriptor_index: kcache.descriptor_index,
            clean: false,
            data: None,
        };
        let ghost e2 = updated@;
        proof {
            assert(e2 == large_written_entry(v0.keys[name@], need as int, truncate));
            lemma_entry_replaced(v0, name@, e2);
        }
        self.keys.insert(name, updated);
        assert(self@.keys =~= v0.keys.insert(name@, e2));
        write_span(hw, v2p_map, &self.aad, kcache.start + offset as u64, data);
        let cut: u64 = (kcache.reserved - new_reserved) / VPAGE_STEP;
        release_pages(hw, v2p_map, kcache.start + new_reserved, cut, false);
    }
}

} // verus!
