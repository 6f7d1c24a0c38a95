//! What removing a key does to the cache, to the page map and to the free
//! pages.

use vstd::prelude::*;
use crate::dict_spec::{
    dict_inv, indices_apart, is_small, key_clean_ok, key_inv, lemma_slot_used_frame,
    lemma_slot_used_swap_remove, listed_ok, live, slot_inv, slot_of, slot_used, DictView,
};
use crate::keys::{KeyEntryView, KeyFlags, SlotView};
use crate::layout::VPAGE_SIZE;
use crate::storage::PhysPage;

verus! {

/// A modification count one higher, where that fits in 32 bits.
pub open spec fn bumped(age: int) -> int {
    if age < u32::MAX {
        age + 1
    } else {
        age
    }
}

/// The entry of a key after its removal: no longer live, dirty, and its
/// modification count one higher.
pub open spec fn tombstone(e: KeyEntryView) -> KeyEntryView {
    KeyEntryView {
        clean: false,
        age: bumped(e.age),
        flags: KeyFlags { valid: false, unresolved: e.flags.unresolved },
        ..e
    }
}

/// A position at which `contents` holds `name`.
pub open spec fn position_of(contents: Seq<Seq<char>>, name: Seq<char>) -> int {
    choose|i: int| 0 <= i < contents.len() && contents[i] == name
}

/// The list without the name at position `p`: the last name takes its
/// place.
pub open spec fn swap_removed(contents: Seq<Seq<char>>, p: int) -> Seq<Seq<char>> {
    contents.update(p, contents.last()).drop_last()
}

/// The cache after the removal of the live key `name`: the key's entry
/// becomes a tombstone, its descriptor index becomes free, the cache is
/// dirty, and the slot of a small key no longer lists the key, has back
/// what the key had reserved, and is dirty.
pub open spec fn removed(v: DictView, name: Seq<char>) -> DictView {
    let e = v.keys[name];
    let keys = v.keys.insert(name, tombstone(e));
    let free_keys = v.free_keys.insert(e.descriptor_index);
    if is_small(e, v.index) {
        let s = slot_of(e, v.index);
        let slot = v.small_pool[s];
        DictView {
            keys,
            free_keys,
            clean: false,
            small_pool: v.small_pool.update(
                s,
                SlotView {
                    contents: swap_removed(slot.contents, position_of(slot.contents, name)),
                    avail: slot.avail + e.reserved,
                    clean: false,
                },
            ),
            ..v
        }
    } else {
        DictView { keys, free_keys, clean: false, ..v }
    }
}

/// Whether `vaddr` is the address of one of the `count` virtual pages that
/// start at `first`.
pub open spec fn in_pages(first: int, count: int, vaddr: int) -> bool {
    &&& first <= vaddr < first + count * VPAGE_SIZE as int
    &&& (vaddr - first) % VPAGE_SIZE as int == 0
}

/// The page map without the mappings of the `count` virtual pages that
/// start at `first`.
pub open spec fn unmapped(v2p: Map<u64, PhysPage>, first: int, count: int) -> Map<u64, PhysPage> {
    Map::new(
        |va: u64| v2p.contains_key(va) && !in_pages(first, count, va as int),
        |va: u64| v2p[va],
    )
}

/// A physical page as the free pool holds it.
pub open spec fn as_free(pp: PhysPage) -> PhysPage {
    PhysPage { page_number: pp.page_number, clean: pp.clean, valid: false }
}

/// The physical pages behind the `count` virtual pages that start at
/// `first`, in the order of their addresses, as the free pool holds them.
pub open spec fn pages_behind(v2p: Map<u64, PhysPage>, first: int, count: int) -> Seq<PhysPage>
    decreases count,
{
    if count <= 0 {
        Seq::<PhysPage>::empty()
    } else {
        let rest = pages_behind(v2p, first, count - 1);
        let va = first + (count - 1) * VPAGE_SIZE as int;
        if 0 <= va <= u64::MAX && v2p.contains_key(va as u64) {
            rest.push(as_free(v2p[va as u64]))
        } else {
            rest
        }
    }
}

/// Whether physical page `page_number` lies behind one of the `count`
/// virtual pages that start at `first`.
pub open spec fn is_behind(v2p: Map<u64, PhysPage>, first: int, count: int, page_number: u32) -> bool {
    exists|va: u64|
        #![trigger v2p[va]]
        v2p.contains_key(va) && in_pages(first, count, va as int) && v2p[va].page_number
            == page_number
}

/// What the keys listed in a slot have reserved together is not negative
/// where none of them has reserved a negative amount.
pub proof fn lemma_slot_used_nonneg(contents: Seq<Seq<char>>, keys: Map<Seq<char>, KeyEntryView>)
    requires
        forall|i: int| 0 <= i < contents.len() ==> keys[#[trigger] contents[i]].reserved >= 0,
    ensures
        slot_used(contents, keys) >= 0,
    decreases contents.len(),
{
    if contents.len() > 0 {
        let rest = contents.drop_last();
        assert forall|i: int| 0 <= i < rest.len() implies keys[#[trigger] rest[i]].reserved
            >= 0 by {
            assert(rest[i] == contents[i]);
        }
        lemma_slot_used_nonneg(rest, keys);
        assert(contents.last() == contents[contents.len() - 1]);
    }
}

/// Removing a live key keeps the cache sound.
pub proof fn lemma_removed_keeps_inv(v: DictView, name: Seq<char>)
    requires
        dict_inv(v),
        live(v.keys, name),
    ensures
        dict_inv(removed(v, name)),
{
    let w = removed(v, name);
    let e = v.keys[name];
    assert(key_inv(v, name));
    assert forall|a: Seq<char>, b: Seq<char>| #[trigger] indices_apart(w, a, b) by {
        assert(indices_apart(v, a, b));
    }
    assert forall|n: Seq<char>| #[trigger] key_clean_ok(w, n) by {}
    if is_small(e, v.index) {
        let s = slot_of(e, v.index);
        let c = v.small_pool[s].contents;
        let p = position_of(c, name);
        let c2 = swap_removed(c, p);
        assert(slot_inv(v, s));
        assert(0 <= p < c.len() && c[p] == name);
        // The slot no longer lists `name`.
        assert forall|i: int| 0 <= i < c2.len() implies c2[i] != name by {
            if i == p {
                assert(c[c.len() - 1] != c[p]);
            } else {
                assert(c[i] != c[p]);
            }
        }
        assert forall|t: int| 0 <= t < w.small_pool.len() implies #[trigger] slot_inv(w, t) by {
            assert(slot_inv(v, t));
            if t == s {
                assert forall|i: int| 0 <= i < c2.len() implies listed_ok(w, s, #[trigger] c2[i]) by {
                    if i == p {
                        assert(listed_ok(v, s, c[c.len() - 1]));
                    } else {
                        assert(listed_ok(v, s, c[i]));
                    }
                }
                assert forall|i: int, j: int| 0 <= i < j < c2.len() implies c2[i] != c2[j] by {
                    let oi = if i == p { c.len() - 1 } else { i };
                    let oj = if j == p { c.len() - 1 } else { j };
                    assert(c[oi] != c[oj]);
                }
                lemma_slot_used_swap_remove(c, v.keys, p);
                assert forall|i: int| 0 <= i < c2.len() implies w.keys[#[trigger] c2[i]].reserved
                    == v.keys[c2[i]].reserved by {}
                lemma_slot_used_frame(c2, v.keys, w.keys);
                assert forall|i: int| 0 <= i < c2.len() implies v.keys[#[trigger] c2[i]].reserved
                    >= 0 by {
                    assert(listed_ok(w, s, c2[i]));
                    assert(key_inv(v, c2[i]));
                }
                lemma_slot_used_nonneg(c2, v.keys);
            } else {
                let ct = v.small_pool[t].contents;
                assert forall|i: int| 0 <= i < ct.len() implies (#[trigger] ct[i]) != name by {
                    assert(listed_ok(v, t, ct[i]));
                }
                assert forall|i: int| 0 <= i < ct.len() implies w.keys[#[trigger] ct[i]].reserved
                    == v.keys[ct[i]].reserved by {}
                lemma_slot_used_frame(ct, v.keys, w.keys);
                assert forall|i: int| 0 <= i < ct.len() implies listed_ok(w, t, #[trigger] ct[i]) by {
                    assert(listed_ok(v, t, ct[i]));
                }
            }
        }
        assert forall|n: Seq<char>| #[trigger] key_inv(w, n) by {
            assert(key_inv(v, n));
            if n != name && live(v.keys, n) {
                assert(indices_apart(v, n, name));
                if is_small(v.keys[n], v.index) && slot_of(v.keys[n], v.index) == s {
                    let i = choose|i: int| 0 <= i < c.len() && c[i] == n;
                    if i == c.len() - 1 {
                        assert(c2[p] == n);
                    } else {
                        assert(c2[i] == n);
                    }
                }
            }
        }
    } else {
        assert forall|t: int| 0 <= t < w.small_pool.len() implies #[trigger] slot_inv(w, t) by {
            assert(slot_inv(v, t));
            let ct = v.small_pool[t].contents;
            assert forall|i: int| 0 <= i < ct.len() implies (#[trigger] ct[i]) != name by {
                assert(listed_ok(v, t, ct[i]));
            }
            assert forall|i: int| 0 <= i < ct.len() implies w.keys[#[trigger] ct[i]].reserved
                == v.keys[ct[i]].reserved by {}
            lemma_slot_used_frame(ct, v.keys, w.keys);
            assert forall|i: int| 0 <= i < ct.len() implies listed_ok(w, t, #[trigger] ct[i]) by {
                assert(listed_ok(v, t, ct[i]));
            }
        }
        assert forall|n: Seq<char>| #[trigger] key_inv(w, n) by {
            assert(key_inv(v, n));
            if n != name && live(v.keys, n) {
                assert(indices_apart(v, n, name));
            }
        }
    }
}

} // verus!
