//! The steps of an update keep the cache sound.

use vstd::prelude::*;
use crate::dict_spec::{
    dict_inv, entry_inv, indices_apart, is_small, key_clean_ok, key_inv, lemma_slot_used_frame,
    listed_ok, live, slot_inv, DictView,
};
use crate::keys::{KeyEntryView, SlotView};
use crate::update_spec::{
    best_slot, counted, is_best, min_free, slot_dirtied, touched,
};

verus! {

/// Marking the cache as modified keeps it sound.
pub proof fn lemma_touched(v: DictView)
    requires
        dict_inv(v),
    ensures
        dict_inv(touched(v)),
{
    let w = touched(v);
    assert forall|name: Seq<char>| #[trigger] key_inv(w, name) by {
        assert(key_inv(v, name));
    }
    assert forall|s: int| 0 <= s < w.small_pool.len() implies #[trigger] slot_inv(w, s) by {
        assert(slot_inv(v, s));
    }
    assert forall|a: Seq<char>, b: Seq<char>| #[trigger] indices_apart(w, a, b) by {
        assert(indices_apart(v, a, b));
    }
    assert forall|name: Seq<char>| #[trigger] key_clean_ok(w, name) by {}
}

/// Counting one more key keeps the cache sound.
pub proof fn lemma_counted(v: DictView)
    requires
        dict_inv(v),
    ensures
        dict_inv(counted(v)),
{
    let w = counted(v);
    assert forall|name: Seq<char>| #[trigger] key_inv(w, name) by {
        assert(key_inv(v, name));
    }
    assert forall|s: int| 0 <= s < w.small_pool.len() implies #[trigger] slot_inv(w, s) by {
        assert(slot_inv(v, s));
    }
    assert forall|a: Seq<char>, b: Seq<char>| #[trigger] indices_apart(w, a, b) by {
        assert(indices_apart(v, a, b));
    }
    assert forall|name: Seq<char>| #[trigger] key_clean_ok(w, name) by {
        assert(key_clean_ok(v, name));
    }
}

/// Marking a slot of a dirty cache dirty keeps the cache sound.
pub proof fn lemma_slot_dirtied(v: DictView, s: int)
    requires
        dict_inv(v),
        !v.clean,
        0 <= s < v.small_pool.len(),
    ensures
        dict_inv(slot_dirtied(v, s)),
{
    let w = slot_dirtied(v, s);
    assert forall|t: int| 0 <= t < w.small_pool.len() implies #[trigger] slot_inv(w, t) by {
        assert(slot_inv(v, t));
        let c = v.small_pool[t].contents;
        assert forall|i: int| 0 <= i < c.len() implies listed_ok(w, t, #[trigger] c[i]) by {
            assert(listed_ok(v, t, c[i]));
        }
    }
    assert forall|name: Seq<char>| #[trigger] key_inv(w, name) by {
        assert(key_inv(v, name));
    }
    assert forall|a: Seq<char>, b: Seq<char>| #[trigger] indices_apart(w, a, b) by {
        assert(indices_apart(v, a, b));
    }
    assert forall|name: Seq<char>| #[trigger] key_clean_ok(w, name) by {}
}

/// Replacing the entry of a live key by a sound, live entry at the same
/// address, with the same descriptor index and, for a small key, the same
/// reservation, keeps a dirty cache sound.
pub proof fn lemma_entry_replaced(v: DictView, name: Seq<char>, e2: KeyEntryView)
    requires
        dict_inv(v),
        !v.clean,
        live(v.keys, name),
        e2.flags.valid,
        entry_inv(e2, v.index),
        e2.start == v.keys[name].start,
        e2.descriptor_index == v.keys[name].descriptor_index,
        is_small(v.keys[name], v.index) ==> e2.reserved == v.keys[name].reserved,
        !is_small(v.keys[name], v.index) ==> e2.reserved <= v.keys[name].reserved,
    ensures
        dict_inv(DictView { keys: v.keys.insert(name, e2), ..v }),
        is_small(e2, v.index) == is_small(v.keys[name], v.index),
{
    let w = DictView { keys: v.keys.insert(name, e2), ..v };
    let e = v.keys[name];
    assert(key_inv(v, name));
    assert(is_small(e2, v.index) == is_small(e, v.index));
    assert forall|t: int| 0 <= t < w.small_pool.len() implies #[trigger] slot_inv(w, t) by {
        assert(slot_inv(v, t));
        let c = v.small_pool[t].contents;
        assert forall|i: int| 0 <= i < c.len() implies w.keys[#[trigger] c[i]].reserved
            == v.keys[c[i]].reserved by {
            assert(listed_ok(v, t, c[i]));
        }
        lemma_slot_used_frame(c, v.keys, w.keys);
        assert forall|i: int| 0 <= i < c.len() implies listed_ok(w, t, #[trigger] c[i]) by {
            assert(listed_ok(v, t, c[i]));
        }
    }
    assert forall|n: Seq<char>| #[trigger] key_inv(w, n) by {
        assert(key_inv(v, n));
    }
    assert forall|a: Seq<char>, b: Seq<char>| #[trigger] indices_apart(w, a, b) by {
        assert(indices_apart(v, a, b));
    }
    assert forall|n: Seq<char>| #[trigger] key_clean_ok(w, n) by {}
}

/// The slot with the most free space is the one slot that `is_best` holds
/// of.
pub proof fn lemma_best_slot(pool: Seq<SlotView>, i: int)
    requires
        is_best(pool, i),
    ensures
        best_slot(pool) == i,
{
    let b = best_slot(pool);
    assert(is_best(pool, b));
    assert(pool[b].avail < pool[i].avail || (pool[b].avail == pool[i].avail && b <= i));
    assert(pool[i].avail < pool[b].avail || (pool[i].avail == pool[b].avail && i <= b));
}

/// The smallest free index is the one free index below which none is
/// free.
pub proof fn lemma_min_free(free: Set<int>, i: int)
    requires
        free.contains(i),
        forall|x: int| free.contains(x) ==> i <= x,
    ensures
        min_free(free) == i,
{
    let m = min_free(free);
    assert(free.contains(m) && forall|x: int| free.contains(x) ==> m <= x);
}

} // verus!
