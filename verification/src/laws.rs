//! What holds of every sound cache, and of the operations taken together.

use vstd::prelude::*;
use crate::dict_spec::{
    dict_inv, indices_apart, is_small, key_inv, live, slot_inv, slot_of, slot_used, DictView,
};
use crate::layout::{round_up_to_vpage, KEY_MAXCOUNT, SMALL_CAPACITY, VPAGE_SIZE};
use crate::remove_spec::{pages_behind, removed};
use crate::keys::descriptor_at;
use crate::layout::{descriptor_offset, descriptor_page_vaddr, DK_PER_VPAGE};
use crate::scan_spec::{fill_from, fill_step, lookup};
use crate::v2p::read_vpage;
use crate::storage::{PageView, PhysPage};
use crate::update_spec::{released, small_written, touched, update_base, write_existing, World};

verus! {

/// In a sound cache, what the keys of the slot of a live small key have
/// reserved and what the slot has left add up to the capacity of a slot,
/// and the slot lists the key.
pub proof fn law_slot_accounting(v: DictView, name: Seq<char>)
    requires
        dict_inv(v),
        live(v.keys, name),
        is_small(v.keys[name], v.index),
    ensures
        0 <= slot_of(v.keys[name], v.index) < v.small_pool.len(),
        v.small_pool[slot_of(v.keys[name], v.index)].contents.contains(name),
        slot_used(v.small_pool[slot_of(v.keys[name], v.index)].contents, v.keys)
            + v.small_pool[slot_of(v.keys[name], v.index)].avail == SMALL_CAPACITY,
{
    assert(key_inv(v, name));
    assert(slot_inv(v, slot_of(v.keys[name], v.index)));
}

/// In a sound cache, a live small key lies in the small pool, below the
/// large pool, and no slot but its own lists it.
pub proof fn law_one_slot(v: DictView, name: Seq<char>, t: int)
    requires
        dict_inv(v),
        live(v.keys, name),
        is_small(v.keys[name], v.index),
        0 <= t < v.small_pool.len(),
        v.small_pool[t].contents.contains(name),
    ensures
        t == slot_of(v.keys[name], v.index),
        crate::layout::SMALL_POOL_START <= v.keys[name].start,
        v.keys[name].start + v.keys[name].reserved < crate::layout::LARGE_POOL_START,
{
    assert(slot_inv(v, t));
    let c = v.small_pool[t].contents;
    let i = choose|i: int| 0 <= i < c.len() && c[i] == name;
    assert(crate::dict_spec::listed_ok(v, t, c[i]));
}

/// In a sound cache, a live key has reserved at least its length, and a
/// live small key at most the capacity of a slot.
pub proof fn law_reservation(v: DictView, name: Seq<char>)
    requires
        dict_inv(v),
        live(v.keys, name),
    ensures
        v.keys[name].reserved >= v.keys[name].len,
        is_small(v.keys[name], v.index) ==> v.keys[name].reserved <= SMALL_CAPACITY,
{
    assert(key_inv(v, name));
    if is_small(v.keys[name], v.index) {
        crate::layout::lemma_small_slot_bounds(
            v.keys[name].start,
            v.keys[name].reserved,
            v.index,
        );
    }
}

/// In a sound cache, the descriptor indices of the live keys lie between 1
/// and the highest index, are not free, and differ from key to key.
pub proof fn law_descriptor_indices(v: DictView, a: Seq<char>, b: Seq<char>)
    requires
        dict_inv(v),
        live(v.keys, a),
        live(v.keys, b),
        a != b,
    ensures
        1 <= v.keys[a].descriptor_index <= KEY_MAXCOUNT,
        !v.free_keys.contains(v.keys[a].descriptor_index),
        v.keys[a].descriptor_index != v.keys[b].descriptor_index,
{
    assert(key_inv(v, a));
    assert(indices_apart(v, a, b));
}

/// In a sound cache that holds a dirty key or a dirty slot, the cache
/// itself is dirty.
pub proof fn law_dirty_marks_cache(v: DictView, name: Seq<char>, s: int)
    requires
        dict_inv(v),
    ensures
        v.keys.contains_key(name) && !v.keys[name].clean ==> !v.clean,
        0 <= s < v.small_pool.len() && !v.small_pool[s].clean ==> !v.clean,
{
    assert(crate::dict_spec::key_clean_ok(v, name));
}

/// Filling the cache from disk keeps every key that was cached as it
/// was.
pub proof fn law_fill_keeps_cached(
    v: DictView,
    disk: Map<u32, PageView>,
    v2p: Map<u64, PhysPage>,
    try_entry: int,
    seen: int,
    alloc_top: int,
    name: Seq<char>,
)
    requires
        v.keys.contains_key(name),
    ensures
        fill_from(v, disk, v2p, try_entry, seen, alloc_top).view.keys.contains_key(name),
        fill_from(v, disk, v2p, try_entry, seen, alloc_top).view.keys[name] == v.keys[name],
        fill_from(v, disk, v2p, try_entry, seen, alloc_top).alloc_top >= alloc_top,
    decreases KEY_MAXCOUNT + DK_PER_VPAGE - try_entry,
{
    if try_entry >= KEY_MAXCOUNT || seen >= v.key_count {
    } else {
        match read_vpage(disk, v2p, v.aad, descriptor_page_vaddr(v.index, try_entry)) {
            None => {
                law_fill_keeps_cached(
                    v,
                    disk,
                    v2p,
                    try_entry + DK_PER_VPAGE as int,
                    seen,
                    alloc_top,
                    name,
                );
            },
            Some(page) => {
                let d = descriptor_at(page, descriptor_offset(try_entry));
                if d.flags.valid {
                    let next = fill_step(v, disk, v2p, d, try_entry, alloc_top);
                    law_fill_keeps_cached(next.0, disk, v2p, try_entry + 1, seen + 1, next.1, name);
                } else {
                    law_fill_keeps_cached(v, disk, v2p, try_entry + 1, seen, alloc_top, name);
                }
            },
        }
    }
}

/// Whether the cached key `name` is what the descriptor table holds at the
/// key's descriptor index: the page of that index opens, the descriptor
/// there is live and carries the name and the fields of the key, the key is
/// clean, and a small key has the data that the page of its slot holds.
pub open spec fn as_on_disk(
    v: DictView,
    disk: Map<u32, PageView>,
    v2p: Map<u64, PhysPage>,
    name: Seq<char>,
) -> bool {
    let e = v.keys[name];
    let idx = e.descriptor_index;
    let page = read_vpage(disk, v2p, v.aad, descriptor_page_vaddr(v.index, idx));
    &&& 1 <= idx < KEY_MAXCOUNT
    &&& page is Some
    &&& descriptor_at(page->0, descriptor_offset(idx)).flags.valid
    &&& descriptor_at(page->0, descriptor_offset(idx)).name == vstd::utf8::encode_utf8(name)
    &&& e == crate::scan_spec::entry_of(
        descriptor_at(page->0, descriptor_offset(idx)),
        idx,
        if is_small(e, v.index) {
            crate::scan_spec::small_body(disk, v2p, v.aad, e.start, e.len, v.index)
        } else {
            None
        },
    )
}

/// Filling the cache from disk puts nothing into the cache that the
/// descriptor table does not hold: every key that the fill adds is what the
/// table holds at the key's descriptor index.
pub proof fn law_fill_sound(
    v: DictView,
    disk: Map<u32, PageView>,
    v2p: Map<u64, PhysPage>,
    try_entry: int,
    seen: int,
    alloc_top: int,
    name: Seq<char>,
)
    requires
        1 <= try_entry,
        !v.keys.contains_key(name),
        fill_from(v, disk, v2p, try_entry, seen, alloc_top).view.keys.contains_key(name),
    ensures
        as_on_disk(fill_from(v, disk, v2p, try_entry, seen, alloc_top).view, disk, v2p, name),
        fill_from(v, disk, v2p, try_entry, seen, alloc_top).view.index == v.index,
        fill_from(v, disk, v2p, try_entry, seen, alloc_top).view.aad == v.aad,
    decreases KEY_MAXCOUNT + DK_PER_VPAGE - try_entry,
{
    broadcast use vstd::utf8::decode_utf8_encode_utf8;

    lemma_fill_same_dictionary(v, disk, v2p, try_entry, seen, alloc_top);
    if try_entry >= KEY_MAXCOUNT || seen >= v.key_count {
    } else {
        match read_vpage(disk, v2p, v.aad, descriptor_page_vaddr(v.index, try_entry)) {
            None => {
                law_fill_sound(
                    v,
                    disk,
                    v2p,
                    try_entry + DK_PER_VPAGE as int,
                    seen,
                    alloc_top,
                    name,
                );
            },
            Some(page) => {
                let d = descriptor_at(page, descriptor_offset(try_entry));
                if d.flags.valid {
                    let next = fill_step(v, disk, v2p, d, try_entry, alloc_top);
                    if next.0.keys.contains_key(name) {
                        law_fill_keeps_cached(
                            next.0,
                            disk,
                            v2p,
                            try_entry + 1,
                            seen + 1,
                            next.1,
                            name,
                        );
                        lemma_fill_same_dictionary(
                            next.0,
                            disk,
                            v2p,
                            try_entry + 1,
                            seen + 1,
                            next.1,
                        );
                    } else {
                        law_fill_sound(next.0, disk, v2p, try_entry + 1, seen + 1, next.1, name);
                    }
                } else {
                    law_fill_sound(v, disk, v2p, try_entry + 1, seen, alloc_top, name);
                }
            },
        }
    }
}

/// Filling the cache leaves the index of the dictionary and the associated
/// data as they are.
pub proof fn lemma_fill_same_dictionary(
    v: DictView,
    disk: Map<u32, PageView>,
    v2p: Map<u64, PhysPage>,
    try_entry: int,
    seen: int,
    alloc_top: int,
)
    ensures
        fill_from(v, disk, v2p, try_entry, seen, alloc_top).view.index == v.index,
        fill_from(v, disk, v2p, try_entry, seen, alloc_top).view.aad == v.aad,
    decreases KEY_MAXCOUNT + DK_PER_VPAGE - try_entry,
{
    if try_entry >= KEY_MAXCOUNT || seen >= v.key_count {
    } else {
        match read_vpage(disk, v2p, v.aad, descriptor_page_vaddr(v.index, try_entry)) {
            None => {
                lemma_fill_same_dictionary(
                    v,
                    disk,
                    v2p,
                    try_entry + DK_PER_VPAGE as int,
                    seen,
                    alloc_top,
                );
            },
            Some(page) => {
                let d = descriptor_at(page, descriptor_offset(try_entry));
                if d.flags.valid {
                    let next = fill_step(v, disk, v2p, d, try_entry, alloc_top);
                    lemma_fill_same_dictionary(next.0, disk, v2p, try_entry + 1, seen + 1, next.1);
                } else {
                    lemma_fill_same_dictionary(v, disk, v2p, try_entry + 1, seen, alloc_top);
                }
            },
        }
    }
}

/// The cache, the count of live descriptors and the large-pool mark with
/// which the filling scan, started at `try_entry`, comes to examine
/// descriptor index `idx`; nothing where the scan stops before that index
/// or skips it.
pub open spec fn arrives(
    v: DictView,
    disk: Map<u32, PageView>,
    v2p: Map<u64, PhysPage>,
    try_entry: int,
    seen: int,
    alloc_top: int,
    idx: int,
) -> Option<(DictView, int, int)>
    decreases KEY_MAXCOUNT + DK_PER_VPAGE - try_entry,
{
    if try_entry >= KEY_MAXCOUNT || seen >= v.key_count || try_entry > idx {
        None
    } else if try_entry == idx {
        Some((v, seen, alloc_top))
    } else {
        match read_vpage(disk, v2p, v.aad, descriptor_page_vaddr(v.index, try_entry)) {
            None => arrives(v, disk, v2p, try_entry + DK_PER_VPAGE as int, seen, alloc_top, idx),
            Some(page) => {
                let d = descriptor_at(page, descriptor_offset(try_entry));
                if d.flags.valid {
                    let next = fill_step(v, disk, v2p, d, try_entry, alloc_top);
                    arrives(next.0, disk, v2p, try_entry + 1, seen + 1, next.1, idx)
                } else {
                    arrives(v, disk, v2p, try_entry + 1, seen, alloc_top, idx)
                }
            },
        }
    }
}

/// From the index at which it arrives, the filling scan goes on as a scan
/// that is started there.
pub proof fn lemma_arrives(
    v: DictView,
    disk: Map<u32, PageView>,
    v2p: Map<u64, PhysPage>,
    try_entry: int,
    seen: int,
    alloc_top: int,
    idx: int,
)
    ensures
        arrives(v, disk, v2p, try_entry, seen, alloc_top, idx) matches Some(at) ==> fill_from(
            v,
            disk,
            v2p,
            try_entry,
            seen,
            alloc_top,
        ) == fill_from(at.0, disk, v2p, idx, at.1, at.2) && idx < KEY_MAXCOUNT && at.1
            < at.0.key_count && at.0.aad == v.aad && at.0.index == v.index,
    decreases KEY_MAXCOUNT + DK_PER_VPAGE - try_entry,
{
    if try_entry >= KEY_MAXCOUNT || seen >= v.key_count || try_entry >= idx {
    } else {
        match read_vpage(disk, v2p, v.aad, descriptor_page_vaddr(v.index, try_entry)) {
            None => {
                lemma_arrives(
                    v,
                    disk,
                    v2p,
                    try_entry + DK_PER_VPAGE as int,
                    seen,
                    alloc_top,
                    idx,
                );
            },
            Some(page) => {
                let d = descriptor_at(page, descriptor_offset(try_entry));
                if d.flags.valid {
                    let next = fill_step(v, disk, v2p, d, try_entry, alloc_top);
                    lemma_arrives(next.0, disk, v2p, try_entry + 1, seen + 1, next.1, idx);
                } else {
                    lemma_arrives(v, disk, v2p, try_entry + 1, seen, alloc_top, idx);
                }
            },
        }
    }
}

/// A live descriptor on a page that opens, at an index at which the
/// filling scan arrives, whose name is valid UTF-8 and not cached by then
/// and whose key the cache can take by then, enters the cache: after the
/// fill the key is cached with the fields of the descriptor, and a small
/// key with the data that the page of its slot holds.
pub proof fn law_fill_loads(
    v: DictView,
    disk: Map<u32, PageView>,
    v2p: Map<u64, PhysPage>,
    idx: int,
)
    requires
        arrives(v, disk, v2p, 1, 0, crate::layout::LARGE_POOL_START as int, idx) is Some,
        ({
            let at = arrives(v, disk, v2p, 1, 0, crate::layout::LARGE_POOL_START as int, idx)->0;
            let page = read_vpage(disk, v2p, v.aad, descriptor_page_vaddr(v.index, idx));
            &&& page is Some
            &&& descriptor_at(page->0, descriptor_offset(idx)).flags.valid
            &&& vstd::utf8::valid_utf8(descriptor_at(page->0, descriptor_offset(idx)).name)
            &&& !at.0.keys.contains_key(
                vstd::utf8::decode_utf8(descriptor_at(page->0, descriptor_offset(idx)).name),
            )
            &&& crate::scan_spec::admissible(
                at.0,
                descriptor_at(page->0, descriptor_offset(idx)),
                idx,
            )
        }),
    ensures
        ({
            let at = arrives(v, disk, v2p, 1, 0, crate::layout::LARGE_POOL_START as int, idx)->0;
            let d = descriptor_at(
                read_vpage(disk, v2p, v.aad, descriptor_page_vaddr(v.index, idx))->0,
                descriptor_offset(idx),
            );
            let name = vstd::utf8::decode_utf8(d.name);
            let after = fill_from(v, disk, v2p, 1, 0, crate::layout::LARGE_POOL_START as int).view;
            &&& after.keys.contains_key(name)
            &&& after.keys[name] == crate::scan_spec::loaded_entry(at.0, disk, v2p, d, idx)
        }),
{
    let top0 = crate::layout::LARGE_POOL_START as int;
    lemma_arrives(v, disk, v2p, 1, 0, top0, idx);
    let at = arrives(v, disk, v2p, 1, 0, top0, idx)->0;
    let page = read_vpage(disk, v2p, v.aad, descriptor_page_vaddr(v.index, idx))->0;
    let d = descriptor_at(page, descriptor_offset(idx));
    let name = vstd::utf8::decode_utf8(d.name);
    let next = fill_step(at.0, disk, v2p, d, idx, at.2);
    assert(fill_from(at.0, disk, v2p, idx, at.1, at.2) == fill_from(
        next.0,
        disk,
        v2p,
        idx + 1,
        at.1 + 1,
        next.1,
    ));
    assert(next.0.keys.contains_key(name));
    law_fill_keeps_cached(next.0, disk, v2p, idx + 1, at.1 + 1, next.1, name);
}

/// The cache after the removal of `name`: with a tombstone in place of a
/// live key, and as the lookup left it otherwise.
pub open spec fn after_remove(
    v: DictView,
    disk: Map<u32, PageView>,
    v2p: Map<u64, PhysPage>,
    name: Seq<char>,
) -> DictView {
    let found = lookup(v, disk, v2p, name);
    if found.1 {
        removed(found.0, name)
    } else {
        found.0
    }
}

/// Removing a key twice is removing it once: after a removal of a key
/// that was live, a second removal finds a tombstone, whatever the device
/// holds by then, and leaves the cache as it is.
pub proof fn law_remove_idempotent(
    v: DictView,
    disk: Map<u32, PageView>,
    v2p: Map<u64, PhysPage>,
    later_disk: Map<u32, PageView>,
    later_v2p: Map<u64, PhysPage>,
    name: Seq<char>,
)
    requires
        lookup(v, disk, v2p, name).1,
    ensures
        after_remove(after_remove(v, disk, v2p, name), later_disk, later_v2p, name)
            == after_remove(v, disk, v2p, name),
{
    crate::scan_spec::lemma_lookup(v, disk, v2p, name);
    let once = after_remove(v, disk, v2p, name);
    assert(once.keys.contains_key(name));
    assert(!once.keys[name].flags.valid);
}

/// Removing a key that the dictionary does not have changes nothing, and
/// neither does removing it again while the device stays as it is.
pub proof fn law_remove_absent(
    v: DictView,
    disk: Map<u32, PageView>,
    v2p: Map<u64, PhysPage>,
    name: Seq<char>,
)
    requires
        !lookup(v, disk, v2p, name).1,
    ensures
        after_remove(v, disk, v2p, name) == v,
        after_remove(after_remove(v, disk, v2p, name), disk, v2p, name) == v,
{
    crate::scan_spec::lemma_lookup(v, disk, v2p, name);
}

/// A second write into a live small key, at offset 0 and within what the
/// key has reserved, keeps the key's descriptor index and address and
/// leaves the written bytes at the head of the key's data; where the
/// second write is at least as long as the key was, the data is what was
/// written.
pub proof fn law_put_over_put_small(v: DictView, name: Seq<char>, data: Seq<u8>)
    requires
        dict_inv(v),
        live(v.keys, name),
        is_small(v.keys[name], v.index),
        v.keys[name].data is Some,
        data.len() <= v.keys[name].reserved,
    ensures
        ({
            let e = v.keys[name];
            let e2 = small_written(touched(v), name, data, 0).keys[name];
            &&& e2.descriptor_index == e.descriptor_index
            &&& e2.start == e.start
            &&& e2.reserved == e.reserved
            &&& e2.data is Some
            &&& e2.data->0.data.subrange(0, data.len() as int) == data
            &&& data.len() >= e.len ==> e2.data->0.data == data && e2.len == data.len()
        }),
{
    assert(key_inv(v, name));
    let e2 = small_written(touched(v), name, data, 0).keys[name];
    let body = e2.data->0.data;
    assert(body.subrange(0, data.len() as int) =~= data);
    if data.len() >= v.keys[name].len {
        assert(body =~= data);
    }
}

/// A write into a live large key within what the key has reserved keeps
/// the key's descriptor index and address.
pub proof fn law_put_over_put_large(
    w: World,
    name: Seq<char>,
    data: Seq<u8>,
    offset: int,
    truncate: bool,
)
    requires
        dict_inv(w.dict),
        live(w.dict.keys, name),
        !is_small(w.dict.keys[name], w.dict.index),
        0 <= offset,
        offset + data.len() <= w.dict.keys[name].reserved,
    ensures
        ({
            let e = w.dict.keys[name];
            let e2 = write_existing(w, name, data, offset, truncate).dict.keys[name];
            &&& e2.descriptor_index == e.descriptor_index
            &&& e2.start == e.start
            &&& e2.flags.valid
            &&& e2.len >= offset + data.len()
        }),
{
}

/// A write that the key has no room for first removes the key: the key's
/// descriptor index is free again before the key is created anew, and the
/// pages of a large key are back in the free pool.
pub proof fn law_growth(w: World, name: Seq<char>, need: int)
    requires
        dict_inv(w.dict),
        live(w.dict.keys, name),
        w.dict.keys[name].reserved < need,
    ensures
        ({
            let e = w.dict.keys[name];
            let base = update_base(w, true, name, need);
            &&& base == released(w, name)
            &&& base.dict.free_keys.contains(e.descriptor_index)
            &&& !base.dict.keys[name].flags.valid
            &&& !is_small(e, w.dict.index) ==> base.fast_space == w.fast_space + pages_behind(
                w.v2p,
                e.start,
                e.reserved / VPAGE_SIZE as int,
            )
        }),
{
}

/// A truncating write at offset 0 into a live large key leaves the key
/// with the whole pages that hold the written data, and with the length of
/// that data.
pub proof fn law_truncate(w: World, name: Seq<char>, data: Seq<u8>)
    requires
        dict_inv(w.dict),
        live(w.dict.keys, name),
        !is_small(w.dict.keys[name], w.dict.index),
        data.len() <= w.dict.keys[name].reserved,
    ensures
        write_existing(w, name, data, 0, true).dict.keys[name].reserved == round_up_to_vpage(
            data.len() as int,
        ),
        write_existing(w, name, data, 0, true).dict.keys[name].len == data.len(),
{
    assert(key_inv(w.dict, name));
}

} // verus!
