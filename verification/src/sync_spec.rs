//! What a sync of the small pool does: where it places the keys of a slot,
//! what it writes to the slot's page, and that it keeps the cache sound.

use vstd::prelude::*;
use crate::dict_spec::{
    dict_inv, indices_apart, is_small, key_clean_ok, key_inv, lemma_slot_used_frame, listed_ok,
    live, slot_inv, slot_of, slot_used, DictView,
};
use crate::journal::journal_bumped;
use crate::keys::{KeyEntryView, KeyFlags, SlotView, SmallDataView};
use crate::layout::{small_slot_vaddr, JOURNAL_WIDTH, PAGE_BUF_LEN, SMALL_CAPACITY};
use crate::remove_spec::{bumped, lemma_slot_used_nonneg};
use crate::storage::{PageView, PhysPage};
use crate::update_spec::{overlay, zeros, World};

verus! {

/// Where in its slot a key is placed that follows keys with `used` bytes
/// reserved together: right after them; a key without bytes that follows a
/// full slot is placed on the slot's last byte, so that its address stays
/// inside the slot.
pub open spec fn place(used: int) -> int {
    if used >= SMALL_CAPACITY {
        SMALL_CAPACITY - 1
    } else {
        used
    }
}

/// The bytes that the first `i` keys of `contents` have reserved together.
pub open spec fn used_before(
    contents: Seq<Seq<char>>,
    keys: Map<Seq<char>, KeyEntryView>,
    i: int,
) -> int {
    slot_used(contents.subrange(0, i), keys)
}

/// The entry of a small key after a sync placed it at `start`: resolved
/// and live, its descriptor dirty, its modification count one higher, its
/// cached data clean.
pub open spec fn synced_entry(e: KeyEntryView, start: int) -> KeyEntryView {
    KeyEntryView {
        start,
        age: bumped(e.age),
        clean: false,
        flags: KeyFlags { valid: true, unresolved: false },
        data: match e.data {
            Some(d) => Some(SmallDataView { clean: true, data: d.data }),
            None => None,
        },
        ..e
    }
}

/// The keys after the first `upto` keys of `contents` were placed in the
/// slot at `base`, one after the other.
pub open spec fn placed_keys(
    keys: Map<Seq<char>, KeyEntryView>,
    contents: Seq<Seq<char>>,
    base: int,
    upto: int,
) -> Map<Seq<char>, KeyEntryView>
    decreases upto,
{
    if upto <= 0 {
        keys
    } else {
        let name = contents[upto - 1];
        placed_keys(keys, contents, base, upto - 1).insert(
            name,
            synced_entry(keys[name], base + place(used_before(contents, keys, upto - 1))),
        )
    }
}

/// The plaintext page of a slot after the data of the first `upto` keys of
/// `contents` was laid into a page of zeros, each at its place.
pub open spec fn packed_page(
    keys: Map<Seq<char>, KeyEntryView>,
    contents: Seq<Seq<char>>,
    upto: int,
) -> Seq<u8>
    decreases upto,
{
    if upto <= 0 {
        zeros(PAGE_BUF_LEN as int)
    } else {
        overlay(
            packed_page(keys, contents, upto - 1),
            JOURNAL_WIDTH + place(used_before(contents, keys, upto - 1)),
            keys[contents[upto - 1]].data->0.data,
        )
    }
}

/// The physical page that slot `s` syncs to: the one its address is mapped
/// to, or else the last page of the free pool; with its `valid` bit set.
pub open spec fn slot_page(w: World, s: int) -> PhysPage {
    let vaddr = small_slot_vaddr(w.dict.index, s) as u64;
    let pp = if w.v2p.contains_key(vaddr) {
        w.v2p[vaddr]
    } else {
        w.fast_space.last()
    };
    PhysPage { page_number: pp.page_number, clean: pp.clean, valid: true }
}

/// The world after slot `s` was synced: its keys are placed, its page
/// holds their data and is sealed with the journal counter stepped, its
/// address is mapped, and the slot is clean.
pub open spec fn sync_slot(w: World, s: int) -> World {
    let v = w.dict;
    let slot = v.small_pool[s];
    let vaddr = small_slot_vaddr(v.index, s);
    let n = slot.contents.len() as int;
    World {
        dict: DictView {
            keys: placed_keys(v.keys, slot.contents, vaddr, n),
            small_pool: v.small_pool.update(s, SlotView { clean: true, ..slot }),
            ..v
        },
        v2p: w.v2p.insert(vaddr as u64, slot_page(w, s)),
        pages: w.pages.insert(
            slot_page(w, s).page_number,
            PageView::Sealed {
                aad: v.aad,
                plaintext: journal_bumped(packed_page(v.keys, slot.contents, n)),
            },
        ),
        fast_space: if w.v2p.contains_key(vaddr as u64) {
            w.fast_space
        } else {
            w.fast_space.drop_last()
        },
    }
}

/// The world after the dirty slots from slot `s` on were synced, in the
/// order of their numbers.
pub open spec fn sync_from(w: World, s: int) -> World
    decreases w.dict.small_pool.len() - s,
{
    if s < 0 || s >= w.dict.small_pool.len() {
        w
    } else if w.dict.small_pool[s].clean {
        sync_from(w, s + 1)
    } else {
        let next = sync_slot(w, s);
        if next.dict.small_pool.len() == w.dict.small_pool.len() {
            sync_from(next, s + 1)
        } else {
            w
        }
    }
}

/// Number of dirty slots from slot `s` on whose address has no mapping.
pub open spec fn pages_needed(v: DictView, v2p: Map<u64, PhysPage>, s: int) -> int
    decreases v.small_pool.len() - s,
{
    if s < 0 || s >= v.small_pool.len() {
        0
    } else {
        pages_needed(v, v2p, s + 1) + if !v.small_pool[s].clean && !v2p.contains_key(
            small_slot_vaddr(v.index, s) as u64,
        ) {
            1int
        } else {
            0int
        }
    }
}

/// Whether every key that a dirty slot lists has its data cached.
pub open spec fn bodies_ready(v: DictView) -> bool {
    forall|s: int, i: int|
        0 <= s < v.small_pool.len() && !v.small_pool[s].clean && 0 <= i
            < v.small_pool[s].contents.len() ==> v.keys[#[trigger] v.small_pool[s].contents[i]].data is Some
}

/// The bytes reserved by a prefix of a slot's keys do not exceed those
/// reserved by all of them.
pub proof fn lemma_used_before(
    contents: Seq<Seq<char>>,
    keys: Map<Seq<char>, KeyEntryView>,
    i: int,
)
    requires
        0 <= i < contents.len(),
        forall|j: int| 0 <= j < contents.len() ==> keys[#[trigger] contents[j]].reserved >= 0,
    ensures
        used_before(contents, keys, i) >= 0,
        used_before(contents, keys, i + 1) == used_before(contents, keys, i)
            + keys[contents[i]].reserved,
        used_before(contents, keys, i + 1) <= slot_used(contents, keys),
    decreases contents.len() - i,
{
    let a = contents.subrange(0, i);
    let b = contents.subrange(0, i + 1);
    assert(b.drop_last() =~= a);
    assert(b.last() == contents[i]);
    assert forall|j: int| 0 <= j < a.len() implies keys[#[trigger] a[j]].reserved >= 0 by {
        assert(a[j] == contents[j]);
    }
    lemma_slot_used_nonneg(a, keys);
    if i + 1 < contents.len() {
        lemma_used_before(contents, keys, i + 1);
        assert(used_before(contents, keys, i + 2) == used_before(contents, keys, i + 1)
            + keys[contents[i + 1]].reserved);
    } else {
        assert(b =~= contents);
    }
}

/// Placing keys leaves the entries of the keys that were not placed as
/// they are, and caches no other names.
pub proof fn lemma_placed_frame(
    keys: Map<Seq<char>, KeyEntryView>,
    contents: Seq<Seq<char>>,
    base: int,
    upto: int,
    name: Seq<char>,
)
    requires
        0 <= upto <= contents.len(),
        forall|j: int| 0 <= j < upto ==> contents[j] != name,
        forall|j: int| 0 <= j < contents.len() ==> keys.contains_key(#[trigger] contents[j]),
    ensures
        placed_keys(keys, contents, base, upto).contains_key(name) == keys.contains_key(name),
        placed_keys(keys, contents, base, upto)[name] == keys[name],
    decreases upto,
{
    if upto > 0 {
        lemma_placed_frame(keys, contents, base, upto - 1, name);
    }
}

/// A placed key has the entry that the sync gives it at its place.
pub proof fn lemma_placed_at(
    keys: Map<Seq<char>, KeyEntryView>,
    contents: Seq<Seq<char>>,
    base: int,
    upto: int,
    i: int,
)
    requires
        0 <= i < upto <= contents.len(),
        contents.no_duplicates(),
        forall|j: int| 0 <= j < contents.len() ==> keys.contains_key(#[trigger] contents[j]),
    ensures
        placed_keys(keys, contents, base, upto).contains_key(contents[i]),
        placed_keys(keys, contents, base, upto)[contents[i]] == synced_entry(
            keys[contents[i]],
            base + place(used_before(contents, keys, i)),
        ),
    decreases upto,
{
    if i < upto - 1 {
        lemma_placed_at(keys, contents, base, upto - 1, i);
        assert(contents[upto - 1] != contents[i]);
    }
}

/// Syncing a dirty slot keeps the cache sound.
pub proof fn lemma_sync_slot_keeps_inv(w: World, s: int)
    requires
        dict_inv(w.dict),
        0 <= s < w.dict.small_pool.len(),
        !w.dict.small_pool[s].clean,
    ensures
        dict_inv(sync_slot(w, s).dict),
{
    let v = w.dict;
    let x = sync_slot(w, s).dict;
    let c = v.small_pool[s].contents;
    let n = c.len() as int;
    let base = small_slot_vaddr(v.index, s);
    assert(slot_inv(v, s));
    assert(!v.clean);
    assert forall|j: int| 0 <= j < c.len() implies v.keys.contains_key(#[trigger] c[j]) by {
        assert(listed_ok(v, s, c[j]));
    }
    assert forall|j: int| 0 <= j < c.len() implies v.keys[#[trigger] c[j]].reserved >= 0 by {
        assert(listed_ok(v, s, c[j]));
        assert(key_inv(v, c[j]));
    }
    // What each name maps to after the sync.
    assert forall|name: Seq<char>| !c.contains(name) implies x.keys.contains_key(name)
        == v.keys.contains_key(name) && #[trigger] x.keys[name] == v.keys[name] by {
        lemma_placed_frame(v.keys, c, base, n, name);
    }
    assert forall|i: int| 0 <= i < n implies x.keys.contains_key(#[trigger] c[i]) && x.keys[c[i]]
        == synced_entry(v.keys[c[i]], base + place(used_before(c, v.keys, i))) by {
        lemma_placed_at(v.keys, c, base, n, i);
    }
    assert forall|name: Seq<char>| #[trigger] key_inv(x, name) by {
        assert(key_inv(v, name));
        if c.contains(name) {
            let i = choose|i: int| 0 <= i < c.len() && c[i] == name;
            assert(listed_ok(v, s, c[i]));
            lemma_used_before(c, v.keys, i);
            let e = v.keys[name];
            let e2 = x.keys[name];
            assert(e2.start == base + place(used_before(c, v.keys, i)));
            assert(used_before(c, v.keys, i) + e.reserved <= SMALL_CAPACITY);
            assert(is_small(e2, v.index));
            assert(slot_of(e2, v.index) == s);
            assert(x.small_pool[s].contents[i] == name);
        } else if live(v.keys, name) && is_small(v.keys[name], v.index) {
            let t = slot_of(v.keys[name], v.index);
            let oc = v.small_pool[t].contents;
            let i = choose|i: int| 0 <= i < oc.len() && oc[i] == name;
            assert(x.small_pool[t].contents[i] == name);
        }
    }
    assert forall|t: int| 0 <= t < x.small_pool.len() implies #[trigger] slot_inv(x, t) by {
        assert(slot_inv(v, t));
        let ct = v.small_pool[t].contents;
        assert forall|i: int| 0 <= i < ct.len() implies x.keys[#[trigger] ct[i]].reserved
            == v.keys[ct[i]].reserved by {
            if c.contains(ct[i]) {
                let j = choose|j: int| 0 <= j < c.len() && c[j] == ct[i];
                assert(x.keys[c[j]] == synced_entry(
                    v.keys[c[j]],
                    base + place(used_before(c, v.keys, j)),
                ));
            }
        }
        lemma_slot_used_frame(ct, v.keys, x.keys);
        assert forall|i: int| 0 <= i < ct.len() implies listed_ok(x, t, #[trigger] ct[i]) by {
            assert(listed_ok(v, t, ct[i]));
            assert(key_inv(x, ct[i]));
            if c.contains(ct[i]) {
                let j = choose|j: int| 0 <= j < c.len() && c[j] == ct[i];
                assert(listed_ok(v, s, c[j]));
                lemma_used_before(c, v.keys, j);
                assert(x.keys[c[j]] == synced_entry(
                    v.keys[c[j]],
                    base + place(used_before(c, v.keys, j)),
                ));
            }
        }
    }
    assert forall|a: Seq<char>, b: Seq<char>| #[trigger] indices_apart(x, a, b) by {
        assert(indices_apart(v, a, b));
        if c.contains(a) {
            let j = choose|j: int| 0 <= j < c.len() && c[j] == a;
            assert(listed_ok(v, s, c[j]));
            assert(x.keys[c[j]].descriptor_index == v.keys[c[j]].descriptor_index);
        }
        if c.contains(b) {
            let j = choose|j: int| 0 <= j < c.len() && c[j] == b;
            assert(listed_ok(v, s, c[j]));
            assert(x.keys[c[j]].descriptor_index == v.keys[c[j]].descriptor_index);
        }
    }
    assert forall|name: Seq<char>| #[trigger] key_clean_ok(x, name) by {}
}

/// Syncing slot `s` leaves the number of pages that the later slots need
/// as it was.
pub proof fn lemma_sync_slot_pages_needed(w: World, s: int, t: int)
    requires
        1 <= w.dict.index <= crate::layout::DICT_MAXCOUNT,
        w.dict.small_pool.len() <= crate::layout::SMALL_POOL_SLOTS,
        0 <= s < t,
        s < w.dict.small_pool.len(),
    ensures
        pages_needed(sync_slot(w, s).dict, sync_slot(w, s).v2p, t) == pages_needed(
            w.dict,
            w.v2p,
            t,
        ),
    decreases w.dict.small_pool.len() - t,
{
    if t < w.dict.small_pool.len() {
        lemma_sync_slot_pages_needed(w, s, t + 1);
    }
}

/// After the sync of slot `s`, every key that a dirty slot lists still has
/// its data cached.
pub proof fn lemma_sync_slot_bodies(w: World, s: int)
    requires
        dict_inv(w.dict),
        bodies_ready(w.dict),
        0 <= s < w.dict.small_pool.len(),
    ensures
        bodies_ready(sync_slot(w, s).dict),
{
    let v = w.dict;
    let x = sync_slot(w, s).dict;
    let c = v.small_pool[s].contents;
    let base = small_slot_vaddr(v.index, s);
    assert(slot_inv(v, s));
    assert forall|j: int| 0 <= j < c.len() implies v.keys.contains_key(#[trigger] c[j]) by {
        assert(listed_ok(v, s, c[j]));
    }
    assert forall|t: int, i: int|
        0 <= t < x.small_pool.len() && !x.small_pool[t].clean && 0 <= i
            < x.small_pool[t].contents.len() implies x.keys[#[trigger] x.small_pool[t].contents[i]].data is Some by {
        let name = v.small_pool[t].contents[i];
        assert(slot_inv(v, t));
        assert(listed_ok(v, t, name));
        assert(v.keys[name].data is Some);
        assert forall|j: int| 0 <= j < c.len() implies c[j] != name by {
            assert(listed_ok(v, s, c[j]));
        }
        lemma_placed_frame(v.keys, c, base, c.len() as int, name);
    }
}

/// The number of pages that slots need is not negative.
pub proof fn lemma_pages_needed_nonneg(v: DictView, v2p: Map<u64, PhysPage>, s: int)
    ensures
        pages_needed(v, v2p, s) >= 0,
    decreases v.small_pool.len() - s,
{
    if 0 <= s < v.small_pool.len() {
        lemma_pages_needed_nonneg(v, v2p, s + 1);
    }
}

} // verus!
