//! What a sync of the small pool writes is what a later load reads back.

use vstd::prelude::*;
use crate::dict_spec::{dict_inv, key_inv, listed_ok, live, slot_inv, slot_of};
use crate::journal::{journal_bumped, lemma_bump_len};
use crate::keys::KeyEntryView;
use crate::v2p::read_vpage;
use crate::layout::{small_slot_vaddr, JOURNAL_WIDTH, PAGE_BUF_LEN, SMALL_CAPACITY};
use crate::scan_spec::small_body;
use crate::sync_spec::{
    bodies_ready, lemma_placed_at, lemma_placed_frame, lemma_used_before, packed_page, place,
    sync_from, sync_slot, synced_entry, used_before,
};
use crate::update_spec::World;

verus! {

/// Stepping the journal counter leaves the bytes after the counter as they
/// are.
pub proof fn lemma_journal_bumped_data(page: Seq<u8>, x: int)
    requires
        page.len() == PAGE_BUF_LEN,
        JOURNAL_WIDTH <= x < PAGE_BUF_LEN,
    ensures
        journal_bumped(page).len() == PAGE_BUF_LEN,
        journal_bumped(page)[x] == page[x],
{
    lemma_bump_len(page.subrange(0, JOURNAL_WIDTH as int));
}

/// The page of a slot is a whole plaintext buffer.
pub proof fn lemma_packed_len(
    keys: Map<Seq<char>, KeyEntryView>,
    contents: Seq<Seq<char>>,
    upto: int,
)
    ensures
        packed_page(keys, contents, upto).len() == PAGE_BUF_LEN,
    decreases upto,
{
    if upto > 0 {
        lemma_packed_len(keys, contents, upto - 1);
    }
}

/// The bytes that the keys before position `j` have reserved are at least
/// those that the keys before an earlier position have reserved.
pub proof fn lemma_used_before_grows(
    contents: Seq<Seq<char>>,
    keys: Map<Seq<char>, KeyEntryView>,
    i: int,
    j: int,
)
    requires
        0 <= i <= j <= contents.len(),
        forall|k: int| 0 <= k < contents.len() ==> keys[#[trigger] contents[k]].reserved >= 0,
    ensures
        used_before(contents, keys, i) <= used_before(contents, keys, j),
    decreases j - i,
{
    if i < j {
        lemma_used_before(contents, keys, j - 1);
        lemma_used_before_grows(contents, keys, i, j - 1);
    }
}

/// In the page of a slot, the data of the key at position `i` lies at the
/// key's place, whatever keys were laid into the page after it.
pub proof fn lemma_packed_holds(
    keys: Map<Seq<char>, KeyEntryView>,
    contents: Seq<Seq<char>>,
    upto: int,
    i: int,
    k: int,
)
    requires
        0 <= i < upto <= contents.len(),
        forall|j: int| 0 <= j < contents.len() ==> keys[#[trigger] contents[j]].data is Some,
        forall|j: int|
            0 <= j < contents.len() ==> 0 <= keys[#[trigger] contents[j]].data->0.data.len()
                <= keys[contents[j]].reserved,
        crate::dict_spec::slot_used(contents, keys) <= SMALL_CAPACITY,
        0 <= k < keys[contents[i]].data->0.data.len(),
    ensures
        packed_page(keys, contents, upto)[JOURNAL_WIDTH + place(used_before(contents, keys, i))
            + k] == keys[contents[i]].data->0.data[k],
    decreases upto,
{
    assert forall|j: int| 0 <= j < contents.len() implies keys[#[trigger] contents[j]].reserved
        >= 0 by {}
    lemma_used_before(contents, keys, i);
    lemma_packed_len(keys, contents, upto - 1);
    if upto - 1 > i {
        let j = upto - 1;
        lemma_packed_holds(keys, contents, upto - 1, i, k);
        lemma_used_before(contents, keys, j);
        lemma_used_before_grows(contents, keys, i + 1, j);
    }
}

/// After the sync of a slot, reading the data of one of its keys back
/// from the slot's page, at the address and with the length that the key's
/// entry has, gives the key's cached data.
pub proof fn law_small_sync_reads_back(w: World, s: int, i: int)
    requires
        dict_inv(w.dict),
        0 <= s < w.dict.small_pool.len(),
        0 <= i < w.dict.small_pool[s].contents.len(),
        forall|j: int|
            0 <= j < w.dict.small_pool[s].contents.len()
                ==> w.dict.keys[#[trigger] w.dict.small_pool[s].contents[j]].data is Some,
    ensures
        ({
            let name = w.dict.small_pool[s].contents[i];
            let after = sync_slot(w, s);
            small_body(
                after.pages,
                after.v2p,
                after.dict.aad,
                after.dict.keys[name].start,
                after.dict.keys[name].len,
                after.dict.index,
            ) == Some(w.dict.keys[name].data->0.data)
        }),
{
    let v = w.dict;
    let c = v.small_pool[s].contents;
    let n = c.len() as int;
    let name = c[i];
    let base = small_slot_vaddr(v.index, s);
    let after = sync_slot(w, s);
    let e = v.keys[name];
    let body = e.data->0.data;
    assert(slot_inv(v, s));
    assert forall|j: int| 0 <= j < c.len() implies v.keys.contains_key(#[trigger] c[j]) by {
        assert(listed_ok(v, s, c[j]));
    }
    assert forall|j: int| 0 <= j < c.len() implies 0 <= v.keys[
    #[trigger] c[j]].data->0.data.len() <= v.keys[c[j]].reserved by {
        assert(listed_ok(v, s, c[j]));
        assert(key_inv(v, c[j]));
    }
    assert forall|j: int| 0 <= j < c.len() implies v.keys[#[trigger] c[j]].reserved >= 0 by {}
    assert(listed_ok(v, s, name));
    assert(key_inv(v, name));
    lemma_placed_at(v.keys, c, base, n, i);
    lemma_used_before(c, v.keys, i);
    let at = place(used_before(c, v.keys, i));
    let e2 = after.dict.keys[name];
    assert(e2 == synced_entry(e, base + at));
    assert(slot_of(e2, v.index) == s);
    let packed = packed_page(v.keys, c, n);
    lemma_packed_len(v.keys, c, n);
    let sealed = journal_bumped(packed);
    let got = sealed.subrange(JOURNAL_WIDTH + at, JOURNAL_WIDTH + at + e2.len);
    assert(got.len() == body.len());
    assert forall|k: int| 0 <= k < body.len() implies got[k] == body[k] by {
        lemma_packed_holds(v.keys, c, n, i, k);
        lemma_journal_bumped_data(packed, JOURNAL_WIDTH + at + k);
    }
    assert(got =~= body);
}

/// The address of slot `s` as a key of the page map.
pub open spec fn slot_key(w: World, s: int) -> u64 {
    small_slot_vaddr(w.dict.index, s) as u64
}

/// A sync of the slots from `t` on leaves the dictionary's index, its
/// associated data and the number of its slots as they are.
pub proof fn lemma_sync_from_shape(w: World, t: int)
    ensures
        sync_from(w, t).dict.index == w.dict.index,
        sync_from(w, t).dict.aad == w.dict.aad,
        sync_from(w, t).dict.small_pool.len() == w.dict.small_pool.len(),
    decreases w.dict.small_pool.len() - t,
{
    if 0 <= t < w.dict.small_pool.len() {
        if w.dict.small_pool[t].clean {
            lemma_sync_from_shape(w, t + 1);
        } else {
            lemma_sync_from_shape(sync_slot(w, t), t + 1);
        }
    }
}

/// A sync of the slots from `t` on leaves the mapping of every earlier
/// slot as it is.
pub proof fn lemma_sync_from_keeps_mapping(w: World, t: int, a: int)
    requires
        1 <= w.dict.index <= crate::layout::DICT_MAXCOUNT,
        w.dict.small_pool.len() <= crate::layout::SMALL_POOL_SLOTS,
        0 <= a < t,
        w.v2p.contains_key(slot_key(w, a)),
    ensures
        sync_from(w, t).v2p.contains_key(slot_key(w, a)),
        sync_from(w, t).v2p[slot_key(w, a)] == w.v2p[slot_key(w, a)],
    decreases w.dict.small_pool.len() - t,
{
    if 0 <= t < w.dict.small_pool.len() {
        if w.dict.small_pool[t].clean {
            lemma_sync_from_keeps_mapping(w, t + 1, a);
        } else {
            let next = sync_slot(w, t);
            assert(slot_key(w, t) != slot_key(w, a));
            lemma_sync_from_keeps_mapping(next, t + 1, a);
        }
    }
}

/// A sync of the slots from `t` on leaves every key as it is that none of
/// these slots lists.
pub proof fn lemma_sync_from_keeps_key(w: World, t: int, name: Seq<char>)
    requires
        dict_inv(w.dict),
        0 <= t,
        forall|b: int|
            t <= b < w.dict.small_pool.len() ==> !(#[trigger] w.dict.small_pool[b]).contents.contains(
                name,
            ),
    ensures
        sync_from(w, t).dict.keys.contains_key(name) == w.dict.keys.contains_key(name),
        sync_from(w, t).dict.keys[name] == w.dict.keys[name],
    decreases w.dict.small_pool.len() - t,
{
    if t < w.dict.small_pool.len() {
        if w.dict.small_pool[t].clean {
            lemma_sync_from_keeps_key(w, t + 1, name);
        } else {
            let next = sync_slot(w, t);
            let c = w.dict.small_pool[t].contents;
            assert(slot_inv(w.dict, t));
            assert forall|j: int| 0 <= j < c.len() implies w.dict.keys.contains_key(
                #[trigger] c[j],
            ) by {
                assert(listed_ok(w.dict, t, c[j]));
            }
            assert(!w.dict.small_pool[t].contents.contains(name));
            lemma_placed_frame(
                w.dict.keys,
                c,
                small_slot_vaddr(w.dict.index, t),
                c.len() as int,
                name,
            );
            crate::sync_spec::lemma_sync_slot_keeps_inv(w, t);
            assert forall|b: int| t + 1 <= b < next.dict.small_pool.len() implies !(
            #[trigger] next.dict.small_pool[b]).contents.contains(name) by {
                assert(next.dict.small_pool[b] == w.dict.small_pool[b]);
            }
            lemma_sync_from_keeps_key(next, t + 1, name);
        }
    }
}

/// Whether, after the sync of the slots of `w` from `t` on, no dirty slot
/// among them has its page at physical page `q`.
pub open spec fn page_untouched(w: World, t: int, q: u32) -> bool {
    forall|b: int|
        t <= b < w.dict.small_pool.len() && !(#[trigger] w.dict.small_pool[b]).clean ==> sync_from(
            w,
            t,
        ).v2p[slot_key(w, b)].page_number != q
}

/// A sync of the slots from `t` on leaves every physical page as it is
/// that none of these slots has its page at.
pub proof fn lemma_sync_from_keeps_page(w: World, t: int, q: u32)
    requires
        1 <= w.dict.index <= crate::layout::DICT_MAXCOUNT,
        w.dict.small_pool.len() <= crate::layout::SMALL_POOL_SLOTS,
        0 <= t,
        page_untouched(w, t, q),
    ensures
        sync_from(w, t).pages.contains_key(q) == w.pages.contains_key(q),
        sync_from(w, t).pages[q] == w.pages[q],
    decreases w.dict.small_pool.len() - t,
{
    if t < w.dict.small_pool.len() {
        if w.dict.small_pool[t].clean {
            assert forall|b: int|
                t + 1 <= b < w.dict.small_pool.len() && !(#[trigger] w.dict.small_pool[b]).clean implies sync_from(
                w,
                t + 1,
            ).v2p[slot_key(w, b)].page_number != q by {}
            lemma_sync_from_keeps_page(w, t + 1, q);
        } else {
            let next = sync_slot(w, t);
            lemma_sync_from_keeps_mapping(next, t + 1, t);
            assert(w.dict.small_pool[t] == w.dict.small_pool[t]);
            assert(sync_from(w, t).v2p[slot_key(w, t)].page_number != q);
            assert forall|b: int|
                t + 1 <= b < next.dict.small_pool.len() && !(
                #[trigger] next.dict.small_pool[b]).clean implies sync_from(next, t + 1).v2p[slot_key(
                next,
                b,
            )].page_number != q by {
                assert(next.dict.small_pool[b] == w.dict.small_pool[b]);
                assert(!w.dict.small_pool[b].clean);
            }
            lemma_sync_from_keeps_page(next, t + 1, q);
        }
    }
}

/// Whether the sync of the slots of `w` from `t` on gives every dirty slot
/// among them a physical page of its own.
pub open spec fn slot_pages_apart(w: World, t: int) -> bool {
    forall|a: int, b: int|
        t <= a < b < w.dict.small_pool.len() && !(#[trigger] w.dict.small_pool[a]).clean && !(
        #[trigger] w.dict.small_pool[b]).clean ==> sync_from(w, t).v2p[slot_key(w, a)].page_number
            != sync_from(w, t).v2p[slot_key(w, b)].page_number
}

/// After a sync of the small pool that gives every dirty slot a physical
/// page of its own, reading the data of a key of a dirty slot back from the
/// slot's page, at the address and with the length that the key's entry has
/// then, gives the data that the key had; and the length of the key is as it
/// was.
pub proof fn law_sync_reads_back(w: World, t: int, s: int, i: int)
    requires
        dict_inv(w.dict),
        bodies_ready(w.dict),
        0 <= t <= s < w.dict.small_pool.len(),
        !w.dict.small_pool[s].clean,
        0 <= i < w.dict.small_pool[s].contents.len(),
        slot_pages_apart(w, t),
    ensures
        ({
            let name = w.dict.small_pool[s].contents[i];
            let after = sync_from(w, t);
            &&& live(after.dict.keys, name)
            &&& after.dict.keys[name].len == w.dict.keys[name].len
            &&& crate::dict_spec::is_small(after.dict.keys[name], w.dict.index)
            &&& slot_of(after.dict.keys[name], w.dict.index) == s
            &&& after.dict.index == w.dict.index
            &&& after.dict.aad == w.dict.aad
            &&& small_body(
                after.pages,
                after.v2p,
                after.dict.aad,
                after.dict.keys[name].start,
                after.dict.keys[name].len,
                after.dict.index,
            ) == Some(w.dict.keys[name].data->0.data)
        }),
    decreases s - t,
{
    let v = w.dict;
    let c = v.small_pool[s].contents;
    let name = c[i];
    assert(slot_inv(v, s));
    assert(listed_ok(v, s, name));
    if t < s {
        if v.small_pool[t].clean {
            assert forall|a: int, b: int|
                t + 1 <= a < b < v.small_pool.len() && !(#[trigger] v.small_pool[a]).clean && !(
                #[trigger] v.small_pool[b]).clean implies sync_from(w, t + 1).v2p[slot_key(
                w,
                a,
            )].page_number != sync_from(w, t + 1).v2p[slot_key(w, b)].page_number by {}
            law_sync_reads_back(w, t + 1, s, i);
        } else {
            let next = sync_slot(w, t);
            let ct = v.small_pool[t].contents;
            assert(slot_inv(v, t));
            assert forall|j: int| 0 <= j < ct.len() implies v.keys.contains_key(
                #[trigger] ct[j],
            ) && ct[j] != name by {
                assert(listed_ok(v, t, ct[j]));
            }
            lemma_placed_frame(
                v.keys,
                ct,
                small_slot_vaddr(v.index, t),
                ct.len() as int,
                name,
            );
            crate::sync_spec::lemma_sync_slot_keeps_inv(w, t);
            crate::sync_spec::lemma_sync_slot_bodies(w, t);
            assert(next.dict.small_pool[s] == v.small_pool[s]);
            assert forall|a: int, b: int|
                t + 1 <= a < b < next.dict.small_pool.len() && !(
                #[trigger] next.dict.small_pool[a]).clean && !(
                #[trigger] next.dict.small_pool[b]).clean implies sync_from(next, t + 1).v2p[slot_key(
                next,
                a,
            )].page_number != sync_from(next, t + 1).v2p[slot_key(next, b)].page_number by {
                assert(next.dict.small_pool[a] == v.small_pool[a]);
                assert(next.dict.small_pool[b] == v.small_pool[b]);
            }
            law_sync_reads_back(next, t + 1, s, i);
        }
    } else {
        let next = sync_slot(w, s);
        let after = sync_from(next, s + 1);
        assert(after == sync_from(w, s));
        assert forall|j: int| 0 <= j < c.len() implies v.keys[#[trigger] c[j]].data is Some by {}
        law_small_sync_reads_back(w, s, i);
        crate::sync_spec::lemma_sync_slot_keeps_inv(w, s);
        lemma_sync_from_shape(next, s + 1);
        // The key stays as the sync of its slot left it.
        assert forall|j: int| 0 <= j < c.len() implies v.keys.contains_key(#[trigger] c[j]) by {
            assert(listed_ok(v, s, c[j]));
        }
        lemma_placed_at(v.keys, c, small_slot_vaddr(v.index, s), c.len() as int, i);
        let e2 = next.dict.keys[name];
        assert(key_inv(next.dict, name));
        assert(live(next.dict.keys, name));
        assert forall|b: int| s + 1 <= b < next.dict.small_pool.len() implies !(
        #[trigger] next.dict.small_pool[b]).contents.contains(name) by {
            if next.dict.small_pool[b].contents.contains(name) {
                assert(slot_inv(next.dict, b));
                let cb = next.dict.small_pool[b].contents;
                let j = choose|j: int| 0 <= j < cb.len() && cb[j] == name;
                assert(listed_ok(next.dict, b, cb[j]));
                assert(slot_inv(next.dict, s));
                assert(next.dict.small_pool[s].contents[i] == name);
                assert(listed_ok(next.dict, s, next.dict.small_pool[s].contents[i]));
            }
        }
        lemma_sync_from_keeps_key(next, s + 1, name);
        // The mapping and the page of the slot stay as the sync left them.
        lemma_sync_from_keeps_mapping(next, s + 1, s);
        let q = next.v2p[slot_key(w, s)].page_number;
        assert forall|b: int|
            s + 1 <= b < next.dict.small_pool.len() && !(
            #[trigger] next.dict.small_pool[b]).clean implies after.v2p[slot_key(
            next,
            b,
        )].page_number != q by {
            assert(next.dict.small_pool[b] == v.small_pool[b]);
            assert(!v.small_pool[b].clean);
            assert(!v.small_pool[s].clean);
        }
        lemma_sync_from_keeps_page(next, s + 1, q);
        assert(slot_inv(next.dict, s));
        assert(next.dict.small_pool[s].contents[i] == name);
        assert(listed_ok(next.dict, s, next.dict.small_pool[s].contents[i]));
        assert(slot_of(e2, v.index) == s);
        assert(read_vpage(after.pages, after.v2p, v.aad, small_slot_vaddr(v.index, s))
            == read_vpage(next.pages, next.v2p, v.aad, small_slot_vaddr(v.index, s)));
    }
}

} // verus!
