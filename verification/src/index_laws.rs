//! The descriptor indices of a cache that holds every key of its
//! dictionary: each index is either free or held by a live key.

use vstd::prelude::*;
use crate::dict_spec::{dict_inv, key_inv, listed_ok, live, slot_inv, DictView};
use crate::keys::KeyEntryView;
use crate::layout::{small_slot_vaddr, KEY_MAXCOUNT, VPAGE_SIZE};
use crate::remove_spec::removed;
use crate::scan_spec::{index_in_use, take_key};
use crate::sync_spec::{lemma_placed_at, lemma_placed_frame, sync_slot};
use crate::update_spec::{
    created, fresh_mapped, index_taken, large_created, large_reservation, min_free, released,
    small_created, small_fits, touched, update_base, update_error, updated, write_existing, World,
};

verus! {

/// Whether every descriptor index of the dictionary is free or held by a
/// live key of the cache.
pub open spec fn indices_complete(v: DictView) -> bool {
    forall|i: int|
        1 <= i <= KEY_MAXCOUNT ==> v.free_keys.contains(i) || #[trigger] index_in_use(v.keys, i)
}

/// In a sound cache that holds every key of its dictionary, the free
/// descriptor indices are those that no live key holds.
pub proof fn law_free_is_complement(v: DictView, i: int)
    requires
        dict_inv(v),
        indices_complete(v),
        1 <= i <= KEY_MAXCOUNT,
    ensures
        v.free_keys.contains(i) <==> !index_in_use(v.keys, i),
{
    if index_in_use(v.keys, i) {
        let n = choose|n: Seq<char>| live(v.keys, n) && #[trigger] v.keys[n].descriptor_index == i;
        assert(key_inv(v, n));
    }
}

/// The cache of a fresh dictionary, whose every index is free, holds every
/// key of its dictionary.
pub proof fn law_complete_when_all_free(v: DictView)
    requires
        forall|i: int| 1 <= i <= KEY_MAXCOUNT ==> v.free_keys.contains(i),
    ensures
        indices_complete(v),
{
}

/// Whether the keys of `w` hold every descriptor index that live keys of
/// `v` hold.
pub open spec fn keeps_indices(
    v: Map<Seq<char>, KeyEntryView>,
    w: Map<Seq<char>, KeyEntryView>,
) -> bool {
    forall|n: Seq<char>| #[trigger] keeps_index(v, w, n)
}

/// Whether `n`, where it is live in `v`, is live in `w` with the same
/// descriptor index.
pub open spec fn keeps_index(
    v: Map<Seq<char>, KeyEntryView>,
    w: Map<Seq<char>, KeyEntryView>,
    n: Seq<char>,
) -> bool {
    live(v, n) ==> live(w, n) && w[n].descriptor_index == v[n].descriptor_index
}

/// A cache whose keys hold every index that the keys of a complete cache
/// hold, and that has at least its free indices, is complete.
pub proof fn lemma_complete_kept(v: DictView, w: DictView)
    requires
        indices_complete(v),
        keeps_indices(v.keys, w.keys),
        forall|i: int| v.free_keys.contains(i) ==> w.free_keys.contains(i),
    ensures
        indices_complete(w),
{
    assert forall|i: int| 1 <= i <= KEY_MAXCOUNT implies w.free_keys.contains(i)
        || #[trigger] index_in_use(w.keys, i) by {
        if !v.free_keys.contains(i) {
            assert(index_in_use(v.keys, i));
            let n = choose|n: Seq<char>|
                live(v.keys, n) && #[trigger] v.keys[n].descriptor_index == i;
            assert(keeps_index(v.keys, w.keys, n));
            assert(live(w.keys, n) && w.keys[n].descriptor_index == i);
        }
    }
}

/// Removing a live key keeps the cache complete: the index of the key is
/// free afterwards.
pub proof fn law_complete_removed(v: DictView, name: Seq<char>)
    requires
        indices_complete(v),
        live(v.keys, name),
    ensures
        indices_complete(removed(v, name)),
{
    let w = removed(v, name);
    assert forall|i: int| 1 <= i <= KEY_MAXCOUNT implies w.free_keys.contains(i)
        || #[trigger] index_in_use(w.keys, i) by {
        if !v.free_keys.contains(i) {
            assert(index_in_use(v.keys, i));
            let n = choose|n: Seq<char>|
                live(v.keys, n) && #[trigger] v.keys[n].descriptor_index == i;
            if n != name {
                assert(live(w.keys, n) && w.keys[n].descriptor_index == i);
            }
        }
    }
}

/// Taking the smallest free index for a new key, where the name is not
/// live, keeps the cache complete.
pub proof fn lemma_complete_taken(v: DictView, name: Seq<char>, e: KeyEntryView)
    requires
        indices_complete(v),
        !live(v.keys, name),
        e.flags.valid,
        e.descriptor_index == min_free(v.free_keys),
    ensures
        indices_complete(take_key(index_taken(v, min_free(v.free_keys)), name, e)),
{
    let idx = min_free(v.free_keys);
    let w = take_key(index_taken(v, idx), name, e);
    assert forall|i: int| 1 <= i <= KEY_MAXCOUNT implies w.free_keys.contains(i)
        || #[trigger] index_in_use(w.keys, i) by {
        if i == idx {
            assert(live(w.keys, name) && w.keys[name].descriptor_index == i);
        } else if !v.free_keys.contains(i) {
            assert(index_in_use(v.keys, i));
            let n = choose|n: Seq<char>|
                live(v.keys, n) && #[trigger] v.keys[n].descriptor_index == i;
            assert(live(w.keys, n) && w.keys[n].descriptor_index == i);
        }
    }
}

/// A write into a live key keeps the cache complete.
pub proof fn law_complete_written(
    w: World,
    name: Seq<char>,
    data: Seq<u8>,
    offset: int,
    truncate: bool,
)
    requires
        indices_complete(w.dict),
        live(w.dict.keys, name),
    ensures
        indices_complete(write_existing(w, name, data, offset, truncate).dict),
{
    let after = write_existing(w, name, data, offset, truncate).dict;
    assert forall|n: Seq<char>| #[trigger] keeps_index(w.dict.keys, after.keys, n) by {}
    lemma_complete_kept(w.dict, after);
}

/// The creation of a key whose name is not live keeps the cache
/// complete.
pub proof fn law_complete_created(
    w: World,
    name: Seq<char>,
    data: Seq<u8>,
    offset: int,
    hint: int,
    truncate: bool,
    ptr: int,
)
    requires
        indices_complete(w.dict),
        !live(w.dict.keys, name),
    ensures
        indices_complete(created(w, name, data, offset, hint, truncate, ptr).dict),
{
    let v = touched(w.dict);
    let need = offset + data.len();
    let idx = min_free(v.free_keys);
    assert forall|i: int| 1 <= i <= KEY_MAXCOUNT implies v.free_keys.contains(i)
        || #[trigger] index_in_use(v.keys, i) by {
        assert(w.dict.free_keys.contains(i) || index_in_use(w.dict.keys, i));
    }
    if small_fits(v.small_pool, need, hint) {
        let reservation = crate::update_spec::max_of(need, hint);
        let slot = crate::update_spec::small_target(v.small_pool, reservation);
        let e = crate::update_spec::new_small_entry(v.index, data, offset, reservation, idx, slot);
        lemma_complete_taken(v, name, e);
        let taken = take_key(index_taken(v, idx), name, e);
        let after = small_created(v, name, data, offset, hint);
        assert forall|n: Seq<char>| #[trigger] keeps_index(taken.keys, after.keys, n) by {}
        lemma_complete_kept(taken, after);
    } else {
        let reservation = large_reservation(need, hint);
        let count = reservation / VPAGE_SIZE as int;
        let e = crate::update_spec::new_large_entry(ptr, need, reservation, idx);
        lemma_complete_taken(v, name, e);
        let taken = take_key(index_taken(v, idx), name, e);
        let made = World {
            dict: large_created(v, name, need, reservation, ptr),
            v2p: fresh_mapped(w.v2p, w.fast_space, ptr, count),
            pages: w.pages,
            fast_space: w.fast_space.subrange(0, w.fast_space.len() - count),
        };
        assert forall|n: Seq<char>| #[trigger] keeps_index(taken.keys, made.dict.keys, n) by {}
        lemma_complete_kept(taken, made.dict);
        law_complete_written(made, name, data, offset, truncate);
    }
}

/// An update that goes through keeps the cache complete.
pub proof fn law_complete_updated(
    w: World,
    present: bool,
    name: Seq<char>,
    data: Seq<u8>,
    offset: int,
    hint: int,
    truncate: bool,
    ptr: int,
)
    requires
        indices_complete(w.dict),
        present == live(w.dict.keys, name),
    ensures
        indices_complete(updated(w, present, name, data, offset, hint, truncate, ptr).dict),
        indices_complete(update_base(w, present, name, offset + data.len()).dict),
{
    let need = offset + data.len();
    if present && w.dict.keys[name].reserved >= need {
        law_complete_written(w, name, data, offset, truncate);
    } else {
        let base = update_base(w, present, name, need);
        if present {
            let v = touched(w.dict);
            assert forall|i: int| 1 <= i <= KEY_MAXCOUNT implies v.free_keys.contains(i)
                || #[trigger] index_in_use(v.keys, i) by {
                assert(w.dict.free_keys.contains(i) || index_in_use(w.dict.keys, i));
            }
            law_complete_removed(v, name);
            assert(base == released(w, name));
        }
        law_complete_created(base, name, data, offset, hint, truncate, ptr);
    }
}

/// The sync of a slot keeps the cache complete.
pub proof fn law_complete_synced(w: World, s: int)
    requires
        dict_inv(w.dict),
        indices_complete(w.dict),
        0 <= s < w.dict.small_pool.len(),
    ensures
        indices_complete(sync_slot(w, s).dict),
{
    let v = w.dict;
    let after = sync_slot(w, s).dict;
    let c = v.small_pool[s].contents;
    let base = small_slot_vaddr(v.index, s);
    assert(slot_inv(v, s));
    assert forall|j: int| 0 <= j < c.len() implies v.keys.contains_key(#[trigger] c[j]) by {
        assert(listed_ok(v, s, c[j]));
    }
    assert forall|n: Seq<char>| #[trigger] keeps_index(v.keys, after.keys, n) by {
        if c.contains(n) {
            let j = choose|j: int| 0 <= j < c.len() && c[j] == n;
            lemma_placed_at(v.keys, c, base, c.len() as int, j);
        } else {
            lemma_placed_frame(v.keys, c, base, c.len() as int, n);
        }
    }
    lemma_complete_kept(v, after);
}

/// Whether every descriptor index past the bound of the descriptor search
/// is free.
pub open spec fn tail_free(v: DictView) -> bool {
    forall|i: int| v.last_disk_key_index < i <= KEY_MAXCOUNT ==> #[trigger] v.free_keys.contains(i)
}

/// In a sound cache that holds every key of its dictionary and has every
/// index past the bound of its search free, the indices that no live key
/// holds are the free indices together with those past the bound.
pub proof fn law_index_complement(v: DictView, i: int)
    requires
        dict_inv(v),
        indices_complete(v),
        tail_free(v),
        1 <= i <= KEY_MAXCOUNT,
    ensures
        !index_in_use(v.keys, i) <==> (v.free_keys.contains(i) || v.last_disk_key_index < i),
{
    law_free_is_complement(v, i);
}

/// The cache of a dictionary whose every index from the header's free
/// index on is free has every index past the bound of its search free.
pub proof fn law_tail_free_at_start(v: DictView)
    requires
        forall|i: int| 1 <= i && v.last_disk_key_index <= i <= KEY_MAXCOUNT ==> v.free_keys.contains(i),
        0 <= v.last_disk_key_index,
    ensures
        tail_free(v),
{
}

/// Taking the smallest free index keeps every index past the bound of the
/// search free.
pub proof fn lemma_tail_free_taken(v: DictView)
    requires
        tail_free(v),
        v.free_keys.contains(min_free(v.free_keys)),
    ensures
        tail_free(index_taken(v, min_free(v.free_keys))),
{
}

/// Removing a key keeps every index past the bound of the search free.
pub proof fn law_tail_free_removed(v: DictView, name: Seq<char>)
    requires
        tail_free(v),
    ensures
        tail_free(removed(v, name)),
{
}

/// An update that goes through keeps every index past the bound of the
/// search free.
pub proof fn law_tail_free_updated(
    w: World,
    present: bool,
    name: Seq<char>,
    data: Seq<u8>,
    offset: int,
    hint: int,
    truncate: bool,
    ptr: int,
)
    requires
        dict_inv(w.dict),
        tail_free(w.dict),
        forall|x: int| w.dict.free_keys.contains(x) ==> 1 <= x,
        present == live(w.dict.keys, name),
        update_error(w, present, name, offset, data.len() as int, hint, ptr) is None,
    ensures
        tail_free(updated(w, present, name, data, offset, hint, truncate, ptr).dict),
{
    let need = offset + data.len();
    if present && w.dict.keys[name].reserved >= need {
    } else {
        let base = update_base(w, present, name, need);
        if present {
            assert(key_inv(w.dict, name));
        }
        assert(tail_free(base.dict));
        assert(base.dict.free_keys != Set::<int>::empty());
        let v = touched(base.dict);
        assert(exists|x: int| v.free_keys.contains(x)) by {
            if forall|x: int| !v.free_keys.contains(x) {
                assert(v.free_keys =~= Set::<int>::empty());
            }
        }
        lemma_min_free_exists(v.free_keys);
        lemma_tail_free_taken(v);
    }
}

/// A set of free indices that is not empty and holds no index below 1 has
/// a smallest index.
pub proof fn lemma_min_free_exists(free: Set<int>)
    requires
        exists|x: int| free.contains(x),
        forall|x: int| free.contains(x) ==> 1 <= x,
    ensures
        free.contains(min_free(free)),
        forall|x: int| free.contains(x) ==> min_free(free) <= x,
{
    let x = choose|x: int| free.contains(x);
    lemma_least_below(free, x, x);
}

/// Among the indices up to `bound` that a set holds, one is the least.
pub proof fn lemma_least_below(free: Set<int>, x: int, bound: int)
    requires
        free.contains(x),
        x <= bound,
        forall|y: int| free.contains(y) ==> 1 <= y,
    ensures
        exists|m: int| free.contains(m) && forall|y: int| free.contains(y) ==> m <= y,
    decreases x,
{
    if forall|y: int| free.contains(y) ==> x <= y {
    } else {
        let y = choose|y: int| free.contains(y) && y < x;
        lemma_least_below(free, y, bound);
    }
}

} // verus!
