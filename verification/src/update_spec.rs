//! What writing a key does: to the cache, to the page map, to the pages and
//! to the pool of free pages.

use vstd::prelude::*;
use crate::dict_spec::{is_small, slot_of, DictView};
use crate::dictionary::PddbError;
use crate::journal::journal_bumped;
use crate::keys::{KeyEntryView, KeyFlags, SlotView, SmallDataView};
use crate::layout::{
    round_up_to_vpage, small_slot_vaddr, vpage_floor, JOURNAL_WIDTH, PAGE_BUF_LEN,
    SMALL_CAPACITY, SMALL_POOL_SLOTS, VPAGE_SIZE,
};
use crate::remove_spec::{bumped, in_pages, pages_behind, removed, unmapped};
use crate::scan_spec::{empty_slot, take_key};
use crate::storage::{open_page, page_at, PageView, PhysPage};
use crate::v2p::read_vpage;

verus! {

/// The cache, the page map, the pages of the device and the pool of free
/// pages, taken together.
pub struct World {
    /// The cache of the dictionary.
    pub dict: DictView,
    /// The physical page behind each mapped virtual page.
    pub v2p: Map<u64, PhysPage>,
    /// What each physical page holds.
    pub pages: Map<u32, PageView>,
    /// The free physical pages; the last one is handed out first.
    pub fast_space: Seq<PhysPage>,
}

/// `n` zero bytes.
pub open spec fn zeros(n: int) -> Seq<u8> {
    Seq::new(n as nat, |i: int| 0u8)
}

/// `base` with `data` laid over it from position `at` on.
pub open spec fn overlay(base: Seq<u8>, at: int, data: Seq<u8>) -> Seq<u8> {
    Seq::new(
        base.len(),
        |i: int|
            if at <= i < at + data.len() {
                data[i - at]
            } else {
                base[i]
            },
    )
}

/// `body` grown with zeros to at least `need` bytes.
pub open spec fn grown(body: Seq<u8>, need: int) -> Seq<u8> {
    if body.len() >= need {
        body
    } else {
        body + zeros(need - body.len())
    }
}

/// The greater of two integers.
pub open spec fn max_of(a: int, b: int) -> int {
    if a >= b {
        a
    } else {
        b
    }
}

/// The cache marked as modified: dirty, its modification count one higher.
pub open spec fn touched(v: DictView) -> DictView {
    DictView { age: bumped(v.age), clean: false, ..v }
}

/// The cache after `data` was written at `offset` into the cached data of
/// the small key `name`, which has room for it: the data is grown with
/// zeros where it was shorter, the key's length is at least the end of the
/// write, and the data and the key's slot are dirty.
pub open spec fn small_written(
    v: DictView,
    name: Seq<char>,
    data: Seq<u8>,
    offset: int,
) -> DictView {
    let e = v.keys[name];
    let need = offset + data.len();
    let s = slot_of(e, v.index);
    DictView {
        keys: v.keys.insert(
            name,
            KeyEntryView {
                len: max_of(e.len, need),
                data: Some(
                    SmallDataView {
                        clean: false,
                        data: overlay(grown(e.data->0.data, need), offset, data),
                    },
                ),
                ..e
            },
        ),
        small_pool: v.small_pool.update(s, SlotView { clean: false, ..v.small_pool[s] }),
        ..v
    }
}

/// Whether slot `i` has the most free space of the pool; among slots with
/// the same free space the one with the highest number counts.
pub open spec fn is_best(pool: Seq<SlotView>, i: int) -> bool {
    &&& 0 <= i < pool.len()
    &&& forall|j: int|
        0 <= j < pool.len() ==> (#[trigger] pool[j]).avail < pool[i].avail || (pool[j].avail
            == pool[i].avail && j <= i)
}

/// The slot with the most free space.
pub open spec fn best_slot(pool: Seq<SlotView>) -> int {
    choose|i: int| is_best(pool, i)
}

/// The pool, with one empty slot where it had none.
pub open spec fn started(pool: Seq<SlotView>) -> Seq<SlotView> {
    if pool.len() == 0 {
        seq![empty_slot()]
    } else {
        pool
    }
}

/// The slot that takes a new small key with that reservation: the slot
/// with the most free space where the key fits into it, and a new slot at
/// the end of the pool otherwise.
pub open spec fn small_target(pool: Seq<SlotView>, reservation: int) -> int {
    let p = started(pool);
    if p[best_slot(p)].avail >= reservation {
        best_slot(p)
    } else {
        p.len() as int
    }
}

/// Whether a new key goes to the small pool: its data and the hint are
/// below the capacity of a slot, and the pool has a slot for it or room for
/// one more.
pub open spec fn small_fits(pool: Seq<SlotView>, need: int, hint: int) -> bool {
    &&& need < SMALL_CAPACITY
    &&& hint < SMALL_CAPACITY
    &&& small_target(pool, max_of(need, hint)) < SMALL_POOL_SLOTS
}

/// The smallest free descriptor index.
pub open spec fn min_free(free: Set<int>) -> int {
    choose|i: int| free.contains(i) && forall|x: int| free.contains(x) ==> i <= x
}

/// The cache after descriptor index `idx` left the free indices.
pub open spec fn index_taken(v: DictView, idx: int) -> DictView {
    DictView {
        free_keys: v.free_keys.remove(idx),
        last_disk_key_index: if idx > v.last_disk_key_index {
            idx + 1
        } else {
            v.last_disk_key_index
        },
        ..v
    }
}

/// The cache with one more key counted, where the count fits in 32 bits.
pub open spec fn counted(v: DictView) -> DictView {
    DictView { key_count: bumped(v.key_count), ..v }
}

/// The cache with slot `s` marked dirty.
pub open spec fn slot_dirtied(v: DictView, s: int) -> DictView {
    DictView {
        small_pool: v.small_pool.update(s, SlotView { clean: false, ..v.small_pool[s] }),
        ..v
    }
}

/// The entry of a new small key in slot `slot`: at the start of the slot
/// until a sync places it, live and unresolved, dirty, with `offset` zeros
/// and then `data` as its data.
pub open spec fn new_small_entry(
    dict_index: int,
    data: Seq<u8>,
    offset: int,
    reservation: int,
    idx: int,
    slot: int,
) -> KeyEntryView {
    KeyEntryView {
        start: small_slot_vaddr(dict_index, slot),
        len: offset + data.len(),
        reserved: reservation,
        flags: KeyFlags { valid: true, unresolved: true },
        age: 0,
        descriptor_index: idx,
        clean: false,
        data: Some(SmallDataView { clean: false, data: zeros(offset) + data }),
    }
}

/// The cache after the new small key `name` was created: it holds the
/// smallest free descriptor index, reserves the greater of its length and
/// the hint in its slot, which is dirty, and is counted.
pub open spec fn small_created(
    v: DictView,
    name: Seq<char>,
    data: Seq<u8>,
    offset: int,
    hint: int,
) -> DictView {
    let reservation = max_of(offset + data.len(), hint);
    let slot = small_target(v.small_pool, reservation);
    let idx = min_free(v.free_keys);
    let e = new_small_entry(v.index, data, offset, reservation, idx, slot);
    counted(slot_dirtied(take_key(index_taken(v, idx), name, e), slot))
}

/// The entry of a new large key at `ptr`: live, dirty, without cached data.
pub open spec fn new_large_entry(ptr: int, need: int, reservation: int, idx: int) -> KeyEntryView {
    KeyEntryView {
        start: ptr,
        len: need,
        reserved: reservation,
        flags: KeyFlags { valid: true, unresolved: false },
        age: 0,
        descriptor_index: idx,
        clean: false,
        data: None,
    }
}

/// The cache after the new large key `name` was created at `ptr`: it
/// holds the smallest free descriptor index and is counted.
pub open spec fn large_created(
    v: DictView,
    name: Seq<char>,
    need: int,
    reservation: int,
    ptr: int,
) -> DictView {
    let idx = min_free(v.free_keys);
    counted(take_key(index_taken(v, idx), name, new_large_entry(ptr, need, reservation, idx)))
}

/// The page map after the `count` virtual pages from `ptr` on were mapped
/// to pages of the free pool, the last free page first.
pub open spec fn fresh_mapped(
    v2p: Map<u64, PhysPage>,
    fast_space: Seq<PhysPage>,
    ptr: int,
    count: int,
) -> Map<u64, PhysPage> {
    Map::new(
        |va: u64| v2p.contains_key(va) || in_pages(ptr, count, va as int),
        |va: u64|
            if in_pages(ptr, count, va as int) {
                fast_space[fast_space.len() - 1 - (va - ptr) / VPAGE_SIZE as int]
            } else {
                v2p[va]
            },
    )
}

/// The pages after `chunk` was written `within` bytes into the virtual
/// page at `page_va`. A blind write starts from a page of zeros. Any other
/// write starts from what the page opens to, or from zeros where it does
/// not open. The journal counter is stepped and the page sealed under
/// `aad`.
pub open spec fn sealed_write(
    pages: Map<u32, PageView>,
    v2p: Map<u64, PhysPage>,
    aad: Seq<u8>,
    page_va: int,
    within: int,
    chunk: Seq<u8>,
    blind: bool,
) -> Map<u32, PageView> {
    let pn = v2p[page_va as u64].page_number;
    let base = if blind {
        zeros(PAGE_BUF_LEN as int)
    } else {
        match open_page(page_at(pages, pn), aad) {
            Some(p) => p,
            None => zeros(PAGE_BUF_LEN as int),
        }
    };
    pages.insert(
        pn,
        PageView::Sealed {
            aad,
            plaintext: journal_bumped(overlay(base, JOURNAL_WIDTH as int + within, chunk)),
        },
    )
}

/// The pages after `data` was written from the page boundary `addr` on,
/// one virtual page after the other; a page that the data covers whole is
/// written blind.
pub open spec fn write_pages(
    pages: Map<u32, PageView>,
    v2p: Map<u64, PhysPage>,
    aad: Seq<u8>,
    addr: int,
    data: Seq<u8>,
) -> Map<u32, PageView>
    decreases data.len(),
{
    if data.len() == 0 {
        pages
    } else {
        let n = if data.len() >= VPAGE_SIZE { VPAGE_SIZE as int } else { data.len() as int };
        write_pages(
            sealed_write(pages, v2p, aad, addr, 0, data.subrange(0, n), n == VPAGE_SIZE),
            v2p,
            aad,
            addr + VPAGE_SIZE as int,
            data.subrange(n, data.len() as int),
        )
    }
}

/// The pages after `data` was written from virtual address `addr` on. A
/// write that starts inside a page first lays the head of the data over
/// what that page opens to.
pub open spec fn write_large(
    pages: Map<u32, PageView>,
    v2p: Map<u64, PhysPage>,
    aad: Seq<u8>,
    addr: int,
    data: Seq<u8>,
) -> Map<u32, PageView> {
    let within = addr % VPAGE_SIZE as int;
    if within != 0 {
        let room = VPAGE_SIZE as int - within;
        let n = if data.len() >= room { room } else { data.len() as int };
        write_pages(
            sealed_write(pages, v2p, aad, addr - within, within, data.subrange(0, n), false),
            v2p,
            aad,
            addr - within + VPAGE_SIZE as int,
            data.subrange(n, data.len() as int),
        )
    } else {
        write_pages(pages, v2p, aad, addr, data)
    }
}

/// Number of virtual pages that a write of `len` bytes at `addr` touches;
/// a write that starts inside a page touches that page even where it is
/// empty.
pub open spec fn span_count(addr: int, len: int) -> int {
    (addr % VPAGE_SIZE as int + len + VPAGE_SIZE as int - 1) / VPAGE_SIZE as int
}

/// Whether a write of `len` bytes at `addr` can go through: every page it
/// touches is mapped, and where it starts inside a page, that page opens.
pub open spec fn writable(
    pages: Map<u32, PageView>,
    v2p: Map<u64, PhysPage>,
    aad: Seq<u8>,
    addr: int,
    len: int,
) -> bool {
    &&& forall|va: u64|
        in_pages(vpage_floor(addr), span_count(addr, len), va as int) ==> #[trigger] v2p.contains_key(
            va,
        )
    &&& addr % VPAGE_SIZE as int != 0 ==> read_vpage(pages, v2p, aad, vpage_floor(addr)) is Some
}

/// What a write to a large key reserves afterwards: with `truncate` the
/// whole pages that hold the written end, where that is less than before.
pub open spec fn reserved_after(e: KeyEntryView, need: int, truncate: bool) -> int {
    if truncate && round_up_to_vpage(need) < e.reserved {
        round_up_to_vpage(need)
    } else {
        e.reserved
    }
}

/// The entry of a large key after a write that ends at `need`: dirty, its
/// modification count one higher; with `truncate` the key ends where the
/// write ended, otherwise it is at least that long.
pub open spec fn large_written_entry(e: KeyEntryView, need: int, truncate: bool) -> KeyEntryView {
    KeyEntryView {
        age: bumped(e.age),
        clean: false,
        len: if truncate {
            need
        } else {
            max_of(e.len, need)
        },
        reserved: reserved_after(e, need, truncate),
        ..e
    }
}

/// The world after `data` was written at `offset` into the live key
/// `name`, which has room for it. A small key is written in the cache. A
/// large key is written to its pages; with `truncate`, the pages past the
/// written end leave the page map and go back to the free pool.
pub open spec fn write_existing(
    w: World,
    name: Seq<char>,
    data: Seq<u8>,
    offset: int,
    truncate: bool,
) -> World {
    let v = touched(w.dict);
    let e = v.keys[name];
    let need = offset + data.len();
    if is_small(e, v.index) {
        World { dict: small_written(v, name, data, offset), ..w }
    } else {
        let e2 = large_written_entry(e, need, truncate);
        let cut = (e.reserved - e2.reserved) / VPAGE_SIZE as int;
        World {
            dict: DictView { keys: v.keys.insert(name, e2), ..v },
            v2p: unmapped(w.v2p, e.start + e2.reserved, cut),
            pages: write_large(w.pages, w.v2p, v.aad, e.start + offset, data),
            fast_space: w.fast_space + pages_behind(w.v2p, e.start + e2.reserved, cut),
        }
    }
}

/// Why a write to the live key `name`, which has room for it, does not go
/// through: a page of a large key that the write touches has no mapping,
/// or the page in which the write starts does not open.
pub open spec fn write_error(w: World, name: Seq<char>, offset: int, len: int) -> Option<
    PddbError,
> {
    let e = w.dict.keys[name];
    if !is_small(e, w.dict.index) && !writable(w.pages, w.v2p, w.dict.aad, e.start + offset, len) {
        Some(PddbError::DecryptionFailure)
    } else {
        None
    }
}

/// The bytes that a new large key reserves: the greater of its length and
/// the hint, rounded up to whole pages.
pub open spec fn large_reservation(need: int, hint: int) -> int {
    round_up_to_vpage(max_of(need, hint))
}

/// Why the creation of a key does not go through. No descriptor index is
/// free; or, for a large key, the address space or the free pool has no
/// room for the pages; or the write would start inside a page that was
/// never written.
pub open spec fn create_error(w: World, need: int, offset: int, hint: int, ptr: int) -> Option<
    PddbError,
> {
    if w.dict.free_keys == Set::<int>::empty() {
        Some(PddbError::OutOfIndex)
    } else if small_fits(w.dict.small_pool, need, hint) {
        None
    } else if ptr + large_reservation(need, hint) > u64::MAX || w.fast_space.len()
        < large_reservation(need, hint) / VPAGE_SIZE as int {
        Some(PddbError::OutOfDiskSpace)
    } else if offset % VPAGE_SIZE as int != 0 {
        Some(PddbError::DecryptionFailure)
    } else {
        None
    }
}

/// The world after the key `name`, which is not live, was created with
/// `data` at `offset`. A key that fits goes to the small pool. Any other
/// key goes to the large pool at `ptr`: its pages are mapped to pages of the
/// free pool, and the data is written to them.
pub open spec fn created(
    w: World,
    name: Seq<char>,
    data: Seq<u8>,
    offset: int,
    hint: int,
    truncate: bool,
    ptr: int,
) -> World {
    let v = touched(w.dict);
    let need = offset + data.len();
    if small_fits(v.small_pool, need, hint) {
        World { dict: small_created(v, name, data, offset, hint), ..w }
    } else {
        let reservation = large_reservation(need, hint);
        let count = reservation / VPAGE_SIZE as int;
        write_existing(
            World {
                dict: large_created(v, name, need, reservation, ptr),
                v2p: fresh_mapped(w.v2p, w.fast_space, ptr, count),
                pages: w.pages,
                fast_space: w.fast_space.subrange(0, w.fast_space.len() - count),
            },
            name,
            data,
            offset,
            truncate,
        )
    }
}

/// The large-pool pointer after the creation of a key: past the pages of a
/// new large key, and where it was after the creation of a small key.
pub open spec fn ptr_after_create(v: DictView, need: int, hint: int, ptr: int) -> int {
    if small_fits(v.small_pool, need, hint) {
        ptr
    } else {
        ptr + large_reservation(need, hint)
    }
}

/// The world after the live key `name` was removed without overwriting:
/// the cache is marked as modified, and the pages of a large key leave the
/// page map and go back to the free pool.
pub open spec fn released(w: World, name: Seq<char>) -> World {
    let v = touched(w.dict);
    let e = v.keys[name];
    if is_small(e, v.index) {
        World { dict: removed(v, name), ..w }
    } else {
        let count = e.reserved / VPAGE_SIZE as int;
        World {
            dict: removed(v, name),
            v2p: unmapped(w.v2p, e.start, count),
            pages: w.pages,
            fast_space: w.fast_space + pages_behind(w.v2p, e.start, count),
        }
    }
}

/// The world in which an update that did not go through leaves things,
/// and from which one that went through started its last step: after the
/// removal of a live key that has no room for the data, and as it was
/// otherwise.
pub open spec fn update_base(w: World, present: bool, name: Seq<char>, need: int) -> World {
    if present && w.dict.keys[name].reserved < need {
        released(w, name)
    } else {
        w
    }
}

/// Why an update does not go through.
pub open spec fn update_error(
    w: World,
    present: bool,
    name: Seq<char>,
    offset: int,
    len: int,
    hint: int,
    ptr: int,
) -> Option<PddbError> {
    if present && w.dict.keys[name].reserved >= offset + len {
        write_error(w, name, offset, len)
    } else {
        create_error(update_base(w, present, name, offset + len), offset + len, offset, hint, ptr)
    }
}

/// The world after an update that went through: a live key with room for
/// the data is written; a live key without room is removed and created
/// anew; a key that is not live is created.
pub open spec fn updated(
    w: World,
    present: bool,
    name: Seq<char>,
    data: Seq<u8>,
    offset: int,
    hint: int,
    truncate: bool,
    ptr: int,
) -> World {
    if present && w.dict.keys[name].reserved >= offset + data.len() {
        write_existing(w, name, data, offset, truncate)
    } else {
        created(
            update_base(w, present, name, offset + data.len()),
            name,
            data,
            offset,
            hint,
            truncate,
            ptr,
        )
    }
}

/// The large-pool pointer after an update that went through.
pub open spec fn ptr_after(
    w: World,
    present: bool,
    name: Seq<char>,
    need: int,
    hint: int,
    ptr: int,
) -> int {
    if present && w.dict.keys[name].reserved >= need {
        ptr
    } else {
        ptr_after_create(touched(update_base(w, present, name, need).dict), need, hint, ptr)
    }
}

} // verus!
