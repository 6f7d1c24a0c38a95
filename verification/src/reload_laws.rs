//! Filling a cache from a descriptor table that holds the keys of another
//! cache gives the keys of that cache back.

use vstd::prelude::*;
use vstd::utf8::{decode_utf8, encode_utf8, valid_utf8};
use crate::dict_spec::{
    dict_inv, entry_inv, is_small, key_inv, lemma_slot_used_frame, lemma_slot_used_push,
    lemma_slot_used_swap_remove, listed_ok, live, slot_inv, slot_of, slot_used, DictView,
};
use crate::keys::{descriptor_at, KeyEntryView, SmallDataView};
use crate::large_laws::disk_wf;
use crate::laws::{arrives, law_fill_loads, lemma_arrives};
use crate::layout::{
    descriptor_offset, descriptor_page_vaddr, small_slot_vaddr, DK_PER_VPAGE, KEY_MAXCOUNT,
    LARGE_POOL_START, PAGE_BUF_LEN,
};
use crate::remove_spec::{lemma_slot_used_nonneg, swap_removed};
use crate::scan_spec::{
    admissible, entry_of, fill_from, fill_step, index_in_use, lemma_take_key_keeps_inv,
    loaded_entry, small_body, take_key,
};
use crate::storage::{page_at, page_wf, PageView, PhysPage};
use crate::update_spec::World;
use crate::v2p::read_vpage;

verus! {

/// The names of one list, each listed once, that another list holds too,
/// have reserved together no more than the names of the other list.
pub proof fn lemma_slot_used_subset(
    a: Seq<Seq<char>>,
    b: Seq<Seq<char>>,
    keys: Map<Seq<char>, KeyEntryView>,
)
    requires
        a.no_duplicates(),
        forall|i: int| 0 <= i < a.len() ==> b.contains(#[trigger] a[i]),
        forall|j: int| 0 <= j < b.len() ==> keys[#[trigger] b[j]].reserved >= 0,
    ensures
        slot_used(a, keys) <= slot_used(b, keys),
    decreases a.len(),
{
    if a.len() == 0 {
        lemma_slot_used_nonneg(b, keys);
    } else {
        let x = a.last();
        let rest = a.drop_last();
        assert(a[a.len() - 1] == x);
        assert(b.contains(x));
        let p = choose|p: int| 0 <= p < b.len() && b[p] == x;
        let cut = swap_removed(b, p);
        lemma_slot_used_swap_remove(b, keys, p);
        assert forall|i: int| 0 <= i < rest.len() implies cut.contains(#[trigger] rest[i]) by {
            assert(rest[i] == a[i]);
            assert(a[i] != a[a.len() - 1]);
            assert(b.contains(a[i]));
            let q = choose|q: int| 0 <= q < b.len() && b[q] == a[i];
            if q == b.len() - 1 {
                assert(cut[p] == a[i]);
            } else {
                assert(cut[q] == a[i]);
            }
        }
        assert forall|j: int| 0 <= j < cut.len() implies keys[#[trigger] cut[j]].reserved
            >= 0 by {
            if j == p {
                assert(cut[j] == b[b.len() - 1]);
            } else {
                assert(cut[j] == b[j]);
            }
        }
        assert forall|i: int, j: int| 0 <= i < j < rest.len() implies rest[i] != rest[j] by {
            assert(a[i] != a[j]);
        }
        lemma_slot_used_subset(rest, cut, keys);
    }
}

/// Whether the descriptor table holds a live descriptor at index `i`.
pub open spec fn table_live(
    disk: Map<u32, PageView>,
    v2p: Map<u64, PhysPage>,
    aad: Seq<u8>,
    dict_index: int,
    i: int,
) -> bool {
    let page = read_vpage(disk, v2p, aad, descriptor_page_vaddr(dict_index, i));
    page is Some && descriptor_at(page->0, descriptor_offset(i)).flags.valid
}

/// Whether the descriptor table holds, at the descriptor index of the key
/// `name` of `v`, the descriptor of that key under its name.
pub open spec fn table_holds(
    v: DictView,
    disk: Map<u32, PageView>,
    v2p: Map<u64, PhysPage>,
    name: Seq<char>,
) -> bool {
    let e = v.keys[name];
    let page = read_vpage(disk, v2p, v.aad, descriptor_page_vaddr(v.index, e.descriptor_index));
    let d = descriptor_at(page->0, descriptor_offset(e.descriptor_index));
    &&& page is Some
    &&& d.flags == e.flags
    &&& d.name == encode_utf8(name)
    &&& d.start == e.start
    &&& d.len == e.len
    &&& d.reserved == e.reserved
    &&& d.age == e.age
}

/// Whether the device holds the keys of the sound cache `v`, and no
/// others: the descriptor table holds the descriptor of every live key at
/// the key's index, which the scan of the table can reach, and holds a live
/// descriptor at no other index.
pub open spec fn table_matches(v: DictView, disk: Map<u32, PageView>, v2p: Map<u64, PhysPage>) -> bool {
    &&& dict_inv(v)
    &&& disk_wf(disk)
    &&& forall|n: Seq<char>|
        #[trigger] live(v.keys, n) ==> v.keys[n].descriptor_index < KEY_MAXCOUNT && table_holds(
            v,
            disk,
            v2p,
            n,
        )
    &&& forall|i: int|
        1 <= i < KEY_MAXCOUNT && #[trigger] table_live(disk, v2p, v.aad, v.index, i)
            ==> index_in_use(v.keys, i)
}

/// Whether the key `n` of the cache `cur` is a live key of `v` with a
/// descriptor index below `t`, and has the address, the length, the
/// reservation, the flags and the descriptor index that it has in `v`.
pub open spec fn mirrored(v: DictView, cur: DictView, n: Seq<char>, t: int) -> bool {
    &&& live(v.keys, n)
    &&& v.keys[n].descriptor_index < t
    &&& cur.keys[n].descriptor_index == v.keys[n].descriptor_index
    &&& cur.keys[n].start == v.keys[n].start
    &&& cur.keys[n].len == v.keys[n].len
    &&& cur.keys[n].reserved == v.keys[n].reserved
    &&& cur.keys[n].flags == v.keys[n].flags
}

/// Whether the sound cache `cur` belongs to the dictionary of `v`, holds
/// only keys of `v` with descriptor indices below `t`, and has no
/// descriptor index free that a live key of `v` holds.
pub open spec fn mirrors(v: DictView, cur: DictView, t: int) -> bool {
    &&& dict_inv(cur)
    &&& cur.index == v.index
    &&& cur.aad == v.aad
    &&& forall|n: Seq<char>| cur.keys.contains_key(n) ==> #[trigger] mirrored(v, cur, n, t)
    &&& forall|i: int| #[trigger] cur.free_keys.contains(i) ==> !index_in_use(v.keys, i)
}

/// A page of a sound device opens to a whole plaintext buffer.
pub proof fn lemma_disk_page_len(
    disk: Map<u32, PageView>,
    v2p: Map<u64, PhysPage>,
    aad: Seq<u8>,
    vaddr: int,
)
    requires
        disk_wf(disk),
    ensures
        read_vpage(disk, v2p, aad, vaddr) matches Some(page) ==> page.len() == PAGE_BUF_LEN,
{
    if 0 <= vaddr <= u64::MAX && v2p.contains_key(vaddr as u64) {
        assert(page_wf(page_at(disk, v2p[vaddr as u64].page_number)));
    }
}

/// Where the table holds the keys of `v` and the scan, with a cache that
/// mirrors `v` below index `t`, meets a live descriptor at index `t`, the
/// descriptor is that of the live key of `v` at that index, the cache takes
/// the key, and mirrors `v` below the next index.
pub proof fn lemma_step_mirrors(
    v: DictView,
    cur: DictView,
    disk: Map<u32, PageView>,
    v2p: Map<u64, PhysPage>,
    t: int,
    alloc_top: int,
)
    requires
        table_matches(v, disk, v2p),
        mirrors(v, cur, t),
        1 <= t < KEY_MAXCOUNT,
        table_live(disk, v2p, v.aad, v.index, t),
    ensures
        ({
            let d = descriptor_at(
                read_vpage(disk, v2p, v.aad, descriptor_page_vaddr(v.index, t))->0,
                descriptor_offset(t),
            );
            let m = decode_utf8(d.name);
            &&& valid_utf8(d.name)
            &&& live(v.keys, m)
            &&& v.keys[m].descriptor_index == t
            &&& !cur.keys.contains_key(m)
            &&& admissible(cur, d, t)
            &&& mirrors(v, fill_step(cur, disk, v2p, d, t, alloc_top).0, t + 1)
        }),
{
    broadcast use vstd::utf8::encode_utf8_decode_utf8, vstd::utf8::encode_utf8_valid_utf8;

    let d = descriptor_at(
        read_vpage(disk, v2p, v.aad, descriptor_page_vaddr(v.index, t))->0,
        descriptor_offset(t),
    );
    assert(index_in_use(v.keys, t));
    let m = choose|m: Seq<char>| live(v.keys, m) && #[trigger] v.keys[m].descriptor_index == t;
    assert(live(v.keys, m));
    assert(table_holds(v, disk, v2p, m));
    assert(decode_utf8(d.name) == m);
    assert(key_inv(v, m));
    // The cache does not hold the key yet, and no key of it holds the index.
    if cur.keys.contains_key(m) {
        assert(mirrored(v, cur, m, t));
    }
    if index_in_use(cur.keys, t) {
        let x = choose|x: Seq<char>| live(cur.keys, x) && #[trigger] cur.keys[x].descriptor_index == t;
        assert(mirrored(v, cur, x, t));
    }
    let probe = entry_of(d, t, None);
    assert(entry_inv(probe, cur.index));
    if cur.free_keys.contains(t) {
        assert(!index_in_use(v.keys, t));
    }
    // A small key fits into what its slot has left.
    if is_small(probe, cur.index) {
        let s = slot_of(probe, cur.index);
        crate::layout::lemma_small_slot_bounds(probe.start, probe.reserved, cur.index);
        if 0 <= s < cur.small_pool.len() {
            let cc = cur.small_pool[s].contents;
            let cv = v.small_pool[s].contents;
            assert(slot_inv(cur, s));
            assert(slot_inv(v, s));
            assert forall|i: int| 0 <= i < cc.len() implies cv.contains(#[trigger] cc[i])
                && cur.keys[cc[i]].reserved == v.keys[cc[i]].reserved && cc[i] != m by {
                assert(listed_ok(cur, s, cc[i]));
                assert(mirrored(v, cur, cc[i], t));
                assert(key_inv(v, cc[i]));
            }
            assert forall|j: int| 0 <= j < cv.len() implies v.keys[#[trigger] cv[j]].reserved
                >= 0 by {
                assert(listed_ok(v, s, cv[j]));
                assert(key_inv(v, cv[j]));
            }
            let with_m = cc.push(m);
            assert forall|i: int| 0 <= i < with_m.len() implies cv.contains(
                #[trigger] with_m[i],
            ) by {
                if i < cc.len() {
                    assert(with_m[i] == cc[i]);
                }
            }
            assert forall|i: int, j: int| 0 <= i < j < with_m.len() implies with_m[i]
                != with_m[j] by {
                if j < cc.len() {
                    assert(cc[i] != cc[j]);
                } else {
                    assert(with_m[i] == cc[i]);
                }
            }
            lemma_slot_used_subset(with_m, cv, v.keys);
            lemma_slot_used_push(cc, v.keys, m);
            assert forall|i: int| 0 <= i < cc.len() implies cur.keys[#[trigger] cc[i]].reserved
                == v.keys[cc[i]].reserved by {}
            lemma_slot_used_frame(cc, v.keys, cur.keys);
        }
    }
    assert(admissible(cur, d, t));
    // The cache with the key mirrors `v` below the next index.
    let e = loaded_entry(cur, disk, v2p, d, t);
    lemma_disk_page_len(
        disk,
        v2p,
        cur.aad,
        small_slot_vaddr(cur.index, crate::layout::small_slot_of(d.start, cur.index)),
    );
    assert(entry_inv(e, cur.index));
    lemma_take_key_keeps_inv(cur, m, e);
    let next = take_key(cur, m, e);
    assert(next == fill_step(cur, disk, v2p, d, t, alloc_top).0);
    assert forall|n: Seq<char>| next.keys.contains_key(n) implies #[trigger] mirrored(
        v,
        next,
        n,
        t + 1,
    ) by {
        if n != m {
            assert(mirrored(v, cur, n, t));
        }
    }
}

/// Where the table holds the keys of `v`, the scan comes to every index
/// with a cache that mirrors `v` below that index.
pub proof fn lemma_arrival_mirrors(
    v: DictView,
    cur: DictView,
    disk: Map<u32, PageView>,
    v2p: Map<u64, PhysPage>,
    try_entry: int,
    seen: int,
    alloc_top: int,
    idx: int,
)
    requires
        table_matches(v, disk, v2p),
        mirrors(v, cur, try_entry),
        1 <= try_entry,
    ensures
        arrives(cur, disk, v2p, try_entry, seen, alloc_top, idx) matches Some(at) ==> mirrors(
            v,
            at.0,
            idx,
        ),
    decreases KEY_MAXCOUNT + DK_PER_VPAGE - try_entry,
{
    if try_entry >= KEY_MAXCOUNT || seen >= cur.key_count || try_entry >= idx {
    } else {
        match read_vpage(disk, v2p, cur.aad, descriptor_page_vaddr(cur.index, try_entry)) {
            None => {
                lemma_mirrors_later(v, cur, try_entry, try_entry + DK_PER_VPAGE);
                lemma_arrival_mirrors(
                    v,
                    cur,
                    disk,
                    v2p,
                    try_entry + DK_PER_VPAGE as int,
                    seen,
                    alloc_top,
                    idx,
                );
            },
            Some(page) => {
                let d = descriptor_at(page, descriptor_offset(try_entry));
                if d.flags.valid {
                    assert(table_live(disk, v2p, v.aad, v.index, try_entry));
                    lemma_step_mirrors(v, cur, disk, v2p, try_entry, alloc_top);
                    let next = fill_step(cur, disk, v2p, d, try_entry, alloc_top);
                    lemma_arrival_mirrors(
                        v,
                        next.0,
                        disk,
                        v2p,
                        try_entry + 1,
                        seen + 1,
                        next.1,
                        idx,
                    );
                } else {
                    lemma_mirrors_later(v, cur, try_entry, try_entry + 1);
                    lemma_arrival_mirrors(
                        v,
                        cur,
                        disk,
                        v2p,
                        try_entry + 1,
                        seen,
                        alloc_top,
                        idx,
                    );
                }
            },
        }
    }
}

/// A cache that mirrors `v` below an index mirrors it below every later
/// index.
pub proof fn lemma_mirrors_later(v: DictView, cur: DictView, t: int, later: int)
    requires
        mirrors(v, cur, t),
        t <= later,
    ensures
        mirrors(v, cur, later),
{
    assert forall|n: Seq<char>| cur.keys.contains_key(n) implies #[trigger] mirrored(
        v,
        cur,
        n,
        later,
    ) by {
        assert(mirrored(v, cur, n, t));
    }
}

/// Where the table holds the keys of `v`, the cache that the scan ends
/// with holds only keys of `v`, as they are in `v`.
pub proof fn lemma_fill_mirrors(
    v: DictView,
    cur: DictView,
    disk: Map<u32, PageView>,
    v2p: Map<u64, PhysPage>,
    try_entry: int,
    seen: int,
    alloc_top: int,
)
    requires
        table_matches(v, disk, v2p),
        mirrors(v, cur, try_entry),
        1 <= try_entry,
    ensures
        mirrors(
            v,
            fill_from(cur, disk, v2p, try_entry, seen, alloc_top).view,
            KEY_MAXCOUNT + DK_PER_VPAGE,
        ),
    decreases KEY_MAXCOUNT + DK_PER_VPAGE - try_entry,
{
    if try_entry >= KEY_MAXCOUNT || seen >= cur.key_count {
        if try_entry <= KEY_MAXCOUNT + DK_PER_VPAGE {
            lemma_mirrors_later(v, cur, try_entry, KEY_MAXCOUNT + DK_PER_VPAGE);
        } else {
            assert forall|n: Seq<char>| cur.keys.contains_key(n) implies #[trigger] mirrored(
                v,
                cur,
                n,
                KEY_MAXCOUNT + DK_PER_VPAGE,
            ) by {
                assert(mirrored(v, cur, n, try_entry));
                assert(live(v.keys, n));
            }
        }
    } else {
        match read_vpage(disk, v2p, cur.aad, descriptor_page_vaddr(cur.index, try_entry)) {
            None => {
                lemma_mirrors_later(v, cur, try_entry, try_entry + DK_PER_VPAGE);
                lemma_fill_mirrors(
                    v,
                    cur,
                    disk,
                    v2p,
                    try_entry + DK_PER_VPAGE as int,
                    seen,
                    alloc_top,
                );
            },
            Some(page) => {
                let d = descriptor_at(page, descriptor_offset(try_entry));
                if d.flags.valid {
                    assert(table_live(disk, v2p, v.aad, v.index, try_entry));
                    lemma_step_mirrors(v, cur, disk, v2p, try_entry, alloc_top);
                    let next = fill_step(cur, disk, v2p, d, try_entry, alloc_top);
                    lemma_fill_mirrors(v, next.0, disk, v2p, try_entry + 1, seen + 1, next.1);
                } else {
                    lemma_mirrors_later(v, cur, try_entry, try_entry + 1);
                    lemma_fill_mirrors(v, cur, disk, v2p, try_entry + 1, seen, alloc_top);
                }
            },
        }
    }
}

/// Number of live descriptors that the table holds at the indices from 1
/// up to, but not including, `t`.
pub open spec fn live_below(
    disk: Map<u32, PageView>,
    v2p: Map<u64, PhysPage>,
    aad: Seq<u8>,
    dict_index: int,
    t: int,
) -> int
    decreases t,
{
    if t <= 1 {
        0
    } else {
        live_below(disk, v2p, aad, dict_index, t - 1) + if table_live(
            disk,
            v2p,
            aad,
            dict_index,
            t - 1,
        ) {
            1int
        } else {
            0int
        }
    }
}

/// The number of live descriptors below an index does not fall as the
/// index rises.
pub proof fn lemma_live_below_grows(
    disk: Map<u32, PageView>,
    v2p: Map<u64, PhysPage>,
    aad: Seq<u8>,
    dict_index: int,
    a: int,
    b: int,
)
    requires
        a <= b,
    ensures
        live_below(disk, v2p, aad, dict_index, a) <= live_below(disk, v2p, aad, dict_index, b),
        0 <= live_below(disk, v2p, aad, dict_index, a),
    decreases b,
{
    if a < b && b > 1 {
        lemma_live_below_grows(disk, v2p, aad, dict_index, a, b - 1);
    } else if b > 1 {
        lemma_live_below_grows(disk, v2p, aad, dict_index, b - 1, b - 1);
    }
}

/// The filling scan arrives at an index where every descriptor page below
/// it opens, and the dictionary counts more keys than the table holds live
/// descriptors below that index.
pub proof fn law_scan_arrives(
    cur: DictView,
    disk: Map<u32, PageView>,
    v2p: Map<u64, PhysPage>,
    try_entry: int,
    seen: int,
    alloc_top: int,
    idx: int,
)
    requires
        1 <= try_entry <= idx < KEY_MAXCOUNT,
        seen == live_below(disk, v2p, cur.aad, cur.index, try_entry),
        live_below(disk, v2p, cur.aad, cur.index, idx) < cur.key_count,
        forall|i: int|
            try_entry <= i < idx ==> #[trigger] read_vpage(
                disk,
                v2p,
                cur.aad,
                descriptor_page_vaddr(cur.index, i),
            ) is Some,
    ensures
        arrives(cur, disk, v2p, try_entry, seen, alloc_top, idx) is Some,
    decreases idx - try_entry,
{
    lemma_live_below_grows(disk, v2p, cur.aad, cur.index, try_entry, idx);
    if try_entry < idx {
        let page = read_vpage(disk, v2p, cur.aad, descriptor_page_vaddr(cur.index, try_entry));
        assert(page is Some);
        let d = descriptor_at(page->0, descriptor_offset(try_entry));
        if d.flags.valid {
            let next = fill_step(cur, disk, v2p, d, try_entry, alloc_top);
            assert(table_live(disk, v2p, cur.aad, cur.index, try_entry));
            law_scan_arrives(next.0, disk, v2p, try_entry + 1, seen + 1, next.1, idx);
        } else {
            law_scan_arrives(cur, disk, v2p, try_entry + 1, seen, alloc_top, idx);
        }
    }
}

/// The keys of a cache come back from disk. Let the device hold the keys
/// of the sound cache `v` and no others, and let a cache of the same
/// dictionary that holds no key, and has none of the indices of `v` free,
/// be filled from it. Then the filled cache holds no key that is not a live
/// key of `v`. And every live key of `v` at whose index the scan arrives is
/// in the filled cache, live, with the address, the length and the
/// reservation that it has in `v`; a small key has there the data that the
/// page of its slot holds.
pub proof fn law_reload(
    v: DictView,
    fresh: DictView,
    disk: Map<u32, PageView>,
    v2p: Map<u64, PhysPage>,
    name: Seq<char>,
)
    requires
        table_matches(v, disk, v2p),
        mirrors(v, fresh, 1),
    ensures
        ({
            let filled = fill_from(fresh, disk, v2p, 1, 0, LARGE_POOL_START as int).view;
            let reached = arrives(
                fresh,
                disk,
                v2p,
                1,
                0,
                LARGE_POOL_START as int,
                v.keys[name].descriptor_index,
            ) is Some;
            &&& filled.keys.contains_key(name) ==> live(v.keys, name) && live(filled.keys, name)
            &&& live(v.keys, name) && reached ==> {
                &&& live(filled.keys, name)
                &&& filled.keys[name].start == v.keys[name].start
                &&& filled.keys[name].len == v.keys[name].len
                &&& filled.keys[name].reserved == v.keys[name].reserved
                &&& filled.keys[name].descriptor_index == v.keys[name].descriptor_index
                &&& filled.keys[name].data == (if is_small(v.keys[name], v.index) {
                    match small_body(
                        disk,
                        v2p,
                        v.aad,
                        v.keys[name].start,
                        v.keys[name].len,
                        v.index,
                    ) {
                        Some(b) => Some(SmallDataView { clean: true, data: b }),
                        None => None,
                    }
                } else {
                    None
                })
            }
        }),
{
    broadcast use vstd::utf8::encode_utf8_decode_utf8, vstd::utf8::encode_utf8_valid_utf8;

    let top0 = LARGE_POOL_START as int;
    let filled = fill_from(fresh, disk, v2p, 1, 0, top0).view;
    lemma_fill_mirrors(v, fresh, disk, v2p, 1, 0, top0);
    if filled.keys.contains_key(name) {
        assert(mirrored(v, filled, name, KEY_MAXCOUNT + DK_PER_VPAGE));
    }
    let idx = v.keys[name].descriptor_index;
    if live(v.keys, name) && arrives(fresh, disk, v2p, 1, 0, top0, idx) is Some {
        let at = arrives(fresh, disk, v2p, 1, 0, top0, idx)->0;
        assert(key_inv(v, name));
        assert(table_holds(v, disk, v2p, name));
        lemma_arrives(fresh, disk, v2p, 1, 0, top0, idx);
        lemma_arrival_mirrors(v, fresh, disk, v2p, 1, 0, top0, idx);
        assert(table_live(disk, v2p, v.aad, v.index, idx));
        lemma_step_mirrors(v, at.0, disk, v2p, idx, at.2);
        let d = descriptor_at(
            read_vpage(disk, v2p, v.aad, descriptor_page_vaddr(v.index, idx))->0,
            descriptor_offset(idx),
        );
        assert(decode_utf8(d.name) == name);
        law_fill_loads(fresh, disk, v2p, idx);
    }
}

/// A small key that was written, synced and loaded again has the data
/// that was written. Let the small pool of a sound cache be synced, with a
/// physical page of its own for every dirty slot. Let the device afterwards
/// hold the keys of the synced cache and no others, and let the page of the
/// slot of a key of a dirty slot read as the sync left it. Let a cache of
/// the same dictionary that holds no key be filled from the device, in a
/// scan that arrives at the index of the key. Then the filled cache holds
/// the key, live, with the data that the key had before the sync.
pub proof fn law_round_trip(
    w: World,
    s: int,
    i: int,
    fresh: DictView,
    disk: Map<u32, PageView>,
    v2p: Map<u64, PhysPage>,
)
    requires
        dict_inv(w.dict),
        crate::sync_spec::bodies_ready(w.dict),
        0 <= s < w.dict.small_pool.len(),
        !w.dict.small_pool[s].clean,
        0 <= i < w.dict.small_pool[s].contents.len(),
        crate::sync_laws::slot_pages_apart(w, 0),
        table_matches(crate::sync_spec::sync_from(w, 0).dict, disk, v2p),
        mirrors(crate::sync_spec::sync_from(w, 0).dict, fresh, 1),
        read_vpage(disk, v2p, w.dict.aad, small_slot_vaddr(w.dict.index, s)) == read_vpage(
            crate::sync_spec::sync_from(w, 0).pages,
            crate::sync_spec::sync_from(w, 0).v2p,
            w.dict.aad,
            small_slot_vaddr(w.dict.index, s),
        ),
        arrives(
            fresh,
            disk,
            v2p,
            1,
            0,
            LARGE_POOL_START as int,
            crate::sync_spec::sync_from(w, 0).dict.keys[w.dict.small_pool[s].contents[i]].descriptor_index,
        ) is Some,
    ensures
        ({
            let name = w.dict.small_pool[s].contents[i];
            let filled = fill_from(fresh, disk, v2p, 1, 0, LARGE_POOL_START as int).view;
            &&& live(filled.keys, name)
            &&& filled.keys[name].len == w.dict.keys[name].len
            &&& filled.keys[name].data == Some(
                SmallDataView { clean: true, data: w.dict.keys[name].data->0.data },
            )
        }),
{
    let name = w.dict.small_pool[s].contents[i];
    let synced = crate::sync_spec::sync_from(w, 0);
    crate::sync_laws::law_sync_reads_back(w, 0, s, i);
    law_reload(synced.dict, fresh, disk, v2p, name);
}

} // verus!
