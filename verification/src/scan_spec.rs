//! What a search of the descriptor table finds, and how a descriptor read
//! from disk enters the cache.

use vstd::prelude::*;
use vstd::utf8::{decode_utf8, valid_utf8};
use crate::dict_spec::{
    dict_inv, entry_inv, indices_apart, is_small, key_clean_ok, key_inv, listed_ok, live,
    lemma_slot_used_frame, lemma_slot_used_push, slot_inv, slot_of, DictView,
};
use crate::keys::{descriptor_at, DescriptorView, KeyEntryView, SlotView, SmallDataView};
use crate::layout::{
    descriptor_offset, descriptor_page_vaddr, small_slot_vaddr, DK_PER_VPAGE, JOURNAL_WIDTH,
    KEY_MAXCOUNT, LARGE_POOL_START, SMALL_CAPACITY,
};
use crate::storage::{PageView, PhysPage};
use crate::v2p::read_vpage;

verus! {

/// The `len` bytes of a small key at address `start`, as the page of the
/// key's slot holds them; nothing where that page does not open.
pub open spec fn small_body(
    disk: Map<u32, PageView>,
    v2p: Map<u64, PhysPage>,
    aad: Seq<u8>,
    start: int,
    len: int,
    dict_index: int,
) -> Option<Seq<u8>> {
    let vaddr = small_slot_vaddr(dict_index, crate::layout::small_slot_of(start, dict_index));
    match read_vpage(disk, v2p, aad, vaddr) {
        Some(page) => Some(
            page.subrange(
                JOURNAL_WIDTH as int + start - vaddr,
                JOURNAL_WIDTH as int + start - vaddr + len,
            ),
        ),
        None => None,
    }
}

/// The cache entry for descriptor `d` found at index `idx`, with `body` as
/// its cached data.
pub open spec fn entry_of(d: DescriptorView, idx: int, body: Option<Seq<u8>>) -> KeyEntryView {
    KeyEntryView {
        start: d.start,
        len: d.len,
        reserved: d.reserved,
        flags: d.flags,
        age: d.age,
        descriptor_index: idx,
        clean: true,
        data: match body {
            Some(b) => Some(SmallDataView { clean: true, data: b }),
            None => None,
        },
    }
}

/// The cache entry for descriptor `d` found at index `idx`: a small key
/// with its data read from its slot's page, a large key without data.
pub open spec fn loaded_entry(
    v: DictView,
    disk: Map<u32, PageView>,
    v2p: Map<u64, PhysPage>,
    d: DescriptorView,
    idx: int,
) -> KeyEntryView {
    if is_small(entry_of(d, idx, None), v.index) {
        entry_of(d, idx, small_body(disk, v2p, v.aad, d.start, d.len, v.index))
    } else {
        entry_of(d, idx, None)
    }
}

/// Whether some live key holds descriptor index `idx`.
pub open spec fn index_in_use(keys: Map<Seq<char>, KeyEntryView>, idx: int) -> bool {
    exists|name: Seq<char>| live(keys, name) && #[trigger] keys[name].descriptor_index == idx
}

/// The free space of slot `s`, where a slot that the pool does not hold
/// yet counts as empty.
pub open spec fn avail_at(pool: Seq<SlotView>, s: int) -> int {
    if 0 <= s < pool.len() {
        pool[s].avail
    } else {
        SMALL_CAPACITY as int
    }
}

/// Whether the cache can take the key that descriptor `d` at index `idx`
/// describes: the key is sound, the index is neither free nor held by a
/// live key, and a small key fits into the free space of its slot.
pub open spec fn admissible(v: DictView, d: DescriptorView, idx: int) -> bool {
    let e = entry_of(d, idx, None);
    &&& 1 <= idx <= KEY_MAXCOUNT
    &&& entry_inv(e, v.index)
    &&& !v.free_keys.contains(idx)
    &&& !index_in_use(v.keys, idx)
    &&& is_small(e, v.index) ==> d.reserved <= avail_at(v.small_pool, slot_of(e, v.index))
}

/// An empty, clean slot.
pub open spec fn empty_slot() -> SlotView {
    SlotView { contents: Seq::<Seq<char>>::empty(), avail: SMALL_CAPACITY as int, clean: true }
}

/// The pool grown by empty slots to at least `len` slots.
pub open spec fn pad_pool(pool: Seq<SlotView>, len: int) -> Seq<SlotView> {
    if pool.len() >= len {
        pool
    } else {
        pool + Seq::new((len - pool.len()) as nat, |i: int| empty_slot())
    }
}

/// The pool after slot `s` listed one more key that reserves `reserved`
/// bytes; slots that the pool lacked up to there are made empty.
pub open spec fn listed(
    pool: Seq<SlotView>,
    s: int,
    name: Seq<char>,
    reserved: int,
) -> Seq<SlotView> {
    let padded = pad_pool(pool, s + 1);
    padded.update(
        s,
        SlotView {
            contents: padded[s].contents.push(name),
            avail: padded[s].avail - reserved,
            clean: padded[s].clean,
        },
    )
}

/// The cache after it took key `name` with entry `e`: the entry is cached,
/// and a small key is listed in its slot, which gives up what the key has
/// reserved; slots that the pool lacked up to there are made empty.
pub open spec fn take_key(v: DictView, name: Seq<char>, e: KeyEntryView) -> DictView {
    let keys = v.keys.insert(name, e);
    if is_small(e, v.index) {
        DictView {
            keys,
            small_pool: listed(v.small_pool, slot_of(e, v.index), name, e.reserved),
            ..v
        }
    } else {
        DictView { keys, ..v }
    }
}

/// What a scan of the descriptor table has gathered when it stops.
pub struct ScanOut {
    /// The cache with the keys that the scan took.
    pub view: DictView,
    /// The end of the highest key of the large pool that the scan met, or
    /// the start of the large pool.
    pub alloc_top: int,
    /// The descriptor index at which the scan stopped.
    pub stop: int,
}

/// The large-pool mark after the scan met the live descriptor `d`: raised
/// to the end of the key where the key starts in the large pool and ends
/// above the mark.
pub open spec fn raised_top(d: DescriptorView, alloc_top: int) -> int {
    if d.start >= LARGE_POOL_START && d.start + d.reserved <= u64::MAX && d.start + d.reserved
        > alloc_top {
        d.start + d.reserved
    } else {
        alloc_top
    }
}

/// The cache and the large-pool mark after the scan met the live
/// descriptor `d` at index `idx`: the key enters the cache where its name
/// is valid UTF-8 and not cached yet and the cache can take the key, and
/// the mark is raised to the end of a key of the large pool.
pub open spec fn fill_step(
    v: DictView,
    disk: Map<u32, PageView>,
    v2p: Map<u64, PhysPage>,
    d: DescriptorView,
    idx: int,
    alloc_top: int,
) -> (DictView, int) {
    if valid_utf8(d.name) && !v.keys.contains_key(decode_utf8(d.name)) && admissible(v, d, idx) {
        (
            take_key(v, decode_utf8(d.name), loaded_entry(v, disk, v2p, d, idx)),
            raised_top(d, alloc_top),
        )
    } else {
        (v, raised_top(d, alloc_top))
    }
}

/// The scan that fills the cache, from descriptor index `try_entry` on,
/// with `seen` live descriptors counted so far. It stops at the end of the
/// table or when it has counted as many live descriptors as the dictionary
/// has keys. A descriptor page that does not open is skipped by a page's
/// worth of indices.
pub open spec fn fill_from(
    v: DictView,
    disk: Map<u32, PageView>,
    v2p: Map<u64, PhysPage>,
    try_entry: int,
    seen: int,
    alloc_top: int,
) -> ScanOut
    decreases KEY_MAXCOUNT + DK_PER_VPAGE - try_entry,
{
    if try_entry >= KEY_MAXCOUNT || seen >= v.key_count {
        ScanOut { view: v, alloc_top, stop: try_entry }
    } else {
        match read_vpage(disk, v2p, v.aad, descriptor_page_vaddr(v.index, try_entry)) {
            None => fill_from(v, disk, v2p, try_entry + DK_PER_VPAGE as int, seen, alloc_top),
            Some(page) => {
                let d = descriptor_at(page, descriptor_offset(try_entry));
                if d.flags.valid {
                    let next = fill_step(v, disk, v2p, d, try_entry, alloc_top);
                    fill_from(next.0, disk, v2p, try_entry + 1, seen + 1, next.1)
                } else {
                    fill_from(v, disk, v2p, try_entry + 1, seen, alloc_top)
                }
            },
        }
    }
}

/// The first live descriptor named `name` that a search from descriptor
/// index `try_entry` on finds, with its index. The search stops at the end
/// of the table, past the bound that the cache keeps, or when it has
/// counted as many live descriptors as the dictionary has keys.
pub open spec fn find_from(
    v: DictView,
    disk: Map<u32, PageView>,
    v2p: Map<u64, PhysPage>,
    name: Seq<u8>,
    try_entry: int,
    seen: int,
) -> Option<(int, DescriptorView)>
    decreases KEY_MAXCOUNT + DK_PER_VPAGE - try_entry,
{
    if try_entry >= KEY_MAXCOUNT || seen >= v.key_count || try_entry > v.last_disk_key_index {
        None
    } else {
        match read_vpage(disk, v2p, v.aad, descriptor_page_vaddr(v.index, try_entry)) {
            None => find_from(v, disk, v2p, name, try_entry + DK_PER_VPAGE as int, seen),
            Some(page) => {
                let d = descriptor_at(page, descriptor_offset(try_entry));
                if d.flags.valid {
                    if d.name == name {
                        Some((try_entry, d))
                    } else {
                        find_from(v, disk, v2p, name, try_entry + 1, seen + 1)
                    }
                } else {
                    find_from(v, disk, v2p, name, try_entry + 1, seen)
                }
            },
        }
    }
}

/// The cache after a lookup of `name`, and whether the key is live. A
/// cached key is live by its flag. A key that is not cached is searched on
/// disk; where it is found and the cache can take it, it enters the cache.
pub open spec fn lookup(
    v: DictView,
    disk: Map<u32, PageView>,
    v2p: Map<u64, PhysPage>,
    name: Seq<char>,
) -> (DictView, bool) {
    if v.keys.contains_key(name) {
        (v, v.keys[name].flags.valid)
    } else {
        match find_from(v, disk, v2p, vstd::utf8::encode_utf8(name), 1, 0) {
            Some((idx, d)) => if admissible(v, d, idx) {
                (take_key(v, name, loaded_entry(v, disk, v2p, d, idx)), true)
            } else {
                (v, false)
            },
            None => (v, false),
        }
    }
}

/// Taking a live, sound key under a name that is not live keeps the cache
/// sound; in a clean cache the key must be clean.
pub proof fn lemma_take_key_keeps_inv(v: DictView, name: Seq<char>, e: KeyEntryView)
    requires
        dict_inv(v),
        !live(v.keys, name),
        e.flags.valid,
        e.clean || !v.clean,
        entry_inv(e, v.index),
        1 <= e.descriptor_index <= KEY_MAXCOUNT,
        !v.free_keys.contains(e.descriptor_index),
        !index_in_use(v.keys, e.descriptor_index),
        is_small(e, v.index) ==> e.reserved <= avail_at(v.small_pool, slot_of(e, v.index)),
    ensures
        dict_inv(take_key(v, name, e)),
{
    let w = take_key(v, name, e);
    // A name listed in a slot is cached, so no slot lists `name`.
    assert forall|t: int, i: int|
        0 <= t < v.small_pool.len() && 0 <= i < v.small_pool[t].contents.len() implies (
    #[trigger] v.small_pool[t].contents[i]) != name by {
        assert(slot_inv(v, t));
        assert(listed_ok(v, t, v.small_pool[t].contents[i]));
    }
    if is_small(e, v.index) {
        let s = slot_of(e, v.index);
        crate::layout::lemma_small_slot_bounds(e.start, e.reserved, v.index);
        let pool = pad_pool(v.small_pool, s + 1);
        assert(w.small_pool.len() == pool.len());
        assert forall|t: int| 0 <= t < w.small_pool.len() implies #[trigger] slot_inv(w, t) by {
            let old_slot = pool[t];
            if t < v.small_pool.len() {
                assert(slot_inv(v, t));
                assert(old_slot == v.small_pool[t]);
            } else {
                assert(old_slot == empty_slot());
            }
            assert forall|i: int| 0 <= i < old_slot.contents.len() implies w.keys[
            #[trigger] old_slot.contents[i]].reserved == v.keys[old_slot.contents[i]].reserved by {
                assert(old_slot.contents[i] != name);
            }
            lemma_slot_used_frame(old_slot.contents, v.keys, w.keys);
            if t == s {
                lemma_slot_used_push(old_slot.contents, w.keys, name);
                let c = w.small_pool[t].contents;
                assert forall|i: int| 0 <= i < c.len() implies listed_ok(w, t, #[trigger] c[i]) by {
                    if i < old_slot.contents.len() {
                        assert(c[i] == old_slot.contents[i]);
                        assert(listed_ok(v, t, old_slot.contents[i]));
                    }
                }
                assert forall|i: int, j: int| 0 <= i < j < c.len() implies c[i] != c[j] by {
                    if j < old_slot.contents.len() {
                        assert(old_slot.contents[i] != old_slot.contents[j]);
                    } else {
                        assert(c[i] == old_slot.contents[i]);
                    }
                }
            } else {
                assert(w.small_pool[t] == old_slot);
                assert forall|i: int| 0 <= i < old_slot.contents.len() implies listed_ok(
                    w,
                    t,
                    #[trigger] old_slot.contents[i],
                ) by {
                    assert(listed_ok(v, t, old_slot.contents[i]));
                }
            }
        }
        assert forall|n: Seq<char>| #[trigger] key_inv(w, n) by {
            if n == name {
                let c = w.small_pool[s].contents;
                assert(c[c.len() - 1] == name);
            } else {
                assert(key_inv(v, n));
                if live(v.keys, n) && is_small(v.keys[n], v.index) {
                    let t = slot_of(v.keys[n], v.index);
                    let oc = v.small_pool[t].contents;
                    let i = choose|i: int| 0 <= i < oc.len() && oc[i] == n;
                    assert(w.small_pool[t].contents[i] == n);
                }
            }
        }
        assert forall|t: int| 0 <= t < w.small_pool.len() && w.clean implies (
        #[trigger] w.small_pool[t]).clean by {
            if t < v.small_pool.len() {
                assert(v.small_pool[t].clean);
            }
        }
    } else {
        assert forall|t: int| 0 <= t < w.small_pool.len() implies #[trigger] slot_inv(w, t) by {
            assert(slot_inv(v, t));
            let c = v.small_pool[t].contents;
            assert forall|i: int| 0 <= i < c.len() implies w.keys[#[trigger] c[i]].reserved
                == v.keys[c[i]].reserved by {
                assert(c[i] != name);
            }
            lemma_slot_used_frame(c, v.keys, w.keys);
            assert forall|i: int| 0 <= i < c.len() implies listed_ok(w, t, #[trigger] c[i]) by {
                assert(listed_ok(v, t, c[i]));
            }
        }
        assert forall|n: Seq<char>| #[trigger] key_inv(w, n) by {
            if n != name {
                assert(key_inv(v, n));
            }
        }
    }
    assert forall|a: Seq<char>, b: Seq<char>| #[trigger] indices_apart(w, a, b) by {
        assert(indices_apart(v, a, b));
        if a == name && b != name && live(w.keys, b) {
            assert(live(v.keys, b));
        }
        if b == name && a != name && live(w.keys, a) {
            assert(live(v.keys, a));
        }
    }
    assert forall|n: Seq<char>| #[trigger] key_clean_ok(w, n) by {
        assert(key_clean_ok(v, n));
    }
}

/// A descriptor that the search finds is live, has the name searched for,
/// and lies at an index from `try_entry` on.
pub proof fn lemma_find_from(
    v: DictView,
    disk: Map<u32, PageView>,
    v2p: Map<u64, PhysPage>,
    name: Seq<u8>,
    try_entry: int,
    seen: int,
)
    ensures
        find_from(v, disk, v2p, name, try_entry, seen) matches Some((idx, d)) ==> d.flags.valid
            && d.name == name && try_entry <= idx < KEY_MAXCOUNT,
    decreases KEY_MAXCOUNT + DK_PER_VPAGE - try_entry,
{
    if try_entry >= KEY_MAXCOUNT || seen >= v.key_count || try_entry > v.last_disk_key_index {
    } else {
        match read_vpage(disk, v2p, v.aad, descriptor_page_vaddr(v.index, try_entry)) {
            None => {
                lemma_find_from(v, disk, v2p, name, try_entry + DK_PER_VPAGE as int, seen);
            },
            Some(page) => {
                let d = descriptor_at(page, descriptor_offset(try_entry));
                if d.flags.valid {
                    if d.name != name {
                        lemma_find_from(v, disk, v2p, name, try_entry + 1, seen + 1);
                    }
                } else {
                    lemma_find_from(v, disk, v2p, name, try_entry + 1, seen);
                }
            },
        }
    }
}

/// After a lookup that reports the key live, the key is cached and live;
/// a lookup that reports otherwise leaves the cache as it was.
pub proof fn lemma_lookup(v: DictView, disk: Map<u32, PageView>, v2p: Map<u64, PhysPage>, name: Seq<char>)
    ensures
        lookup(v, disk, v2p, name).1 ==> live(lookup(v, disk, v2p, name).0.keys, name),
        !lookup(v, disk, v2p, name).1 ==> lookup(v, disk, v2p, name).0 == v,
        v.keys.contains_key(name) ==> lookup(v, disk, v2p, name).0 == v,
{
    if !v.keys.contains_key(name) {
        lemma_find_from(v, disk, v2p, vstd::utf8::encode_utf8(name), 1, 0);
    }
}

} // verus!
