//! The dictionary cache as mathematical values, and what must hold of it
//! between calls.

use vstd::prelude::*;
use crate::keys::{DictFlags, KeyEntryView, SlotView};
use crate::layout::{
    in_small_pool, small_slot_of, small_slot_vaddr, DICT_MAXCOUNT, KEY_MAXCOUNT,
    LARGE_POOL_START, SMALL_CAPACITY, SMALL_POOL_SLOTS, VPAGE_SIZE,
};

verus! {

/// The cache of one dictionary as mathematical values.
pub struct DictView {
    /// Index of the dictionary in its basis.
    pub index: int,
    /// The cached keys by name.
    pub keys: Map<Seq<char>, KeyEntryView>,
    /// Number of keys that the dictionary counts.
    pub key_count: int,
    /// The free descriptor indices.
    pub free_keys: Set<int>,
    /// Where a search of the descriptor table may stop.
    pub last_disk_key_index: int,
    /// Whether the cache is in step with the disk.
    pub clean: bool,
    /// Modification count of the dictionary.
    pub age: int,
    /// Flags of the dictionary.
    pub flags: DictFlags,
    /// The slots of the small pool.
    pub small_pool: Seq<SlotView>,
    /// The associated data under which the basis seals its pages.
    pub aad: Seq<u8>,
}

/// Whether a key lies in the small pool of dictionary `dict_index`.
pub open spec fn is_small(e: KeyEntryView, dict_index: int) -> bool {
    in_small_pool(e.start, e.reserved, dict_index)
}

/// The small-pool slot of a key.
pub open spec fn slot_of(e: KeyEntryView, dict_index: int) -> int {
    small_slot_of(e.start, dict_index)
}

/// What holds of every live key: it has reserved at least its length; a
/// small key lies inside one slot, and its cached data, if any, has the
/// key's length; a large key owns whole pages of the large pool and has no
/// cached data.
pub open spec fn entry_inv(e: KeyEntryView, dict_index: int) -> bool {
    &&& 0 <= e.len <= e.reserved
    &&& 0 <= e.start
    &&& e.start + e.reserved <= u64::MAX
    &&& is_small(e, dict_index) ==> {
        &&& slot_of(e, dict_index) < SMALL_POOL_SLOTS
        &&& e.start - small_slot_vaddr(dict_index, slot_of(e, dict_index)) + e.reserved
            <= SMALL_CAPACITY
        &&& (e.data matches Some(d) ==> d.data.len() == e.len)
    }
    &&& !is_small(e, dict_index) ==> {
        &&& e.data is None
        &&& e.start >= LARGE_POOL_START
        &&& e.start % VPAGE_SIZE as int == 0
        &&& e.reserved % VPAGE_SIZE as int == 0
    }
}

/// Whether `name` is cached as a live key.
pub open spec fn live(keys: Map<Seq<char>, KeyEntryView>, name: Seq<char>) -> bool {
    keys.contains_key(name) && keys[name].flags.valid
}

/// The bytes that the keys named in `contents` have reserved together.
pub open spec fn slot_used(contents: Seq<Seq<char>>, keys: Map<Seq<char>, KeyEntryView>) -> int
    decreases contents.len(),
{
    if contents.len() == 0 {
        0
    } else {
        slot_used(contents.drop_last(), keys) + keys[contents.last()].reserved
    }
}

/// What holds of slot `s` of the small pool: it lists each of its keys
/// once, every listed key is a live small key of this slot, and what the
/// keys have reserved and what is left add up to the slot's capacity.
pub open spec fn slot_inv(v: DictView, s: int) -> bool {
    let slot = v.small_pool[s];
    &&& 0 <= slot.avail <= SMALL_CAPACITY
    &&& slot.contents.no_duplicates()
    &&& forall|i: int|
        0 <= i < slot.contents.len() ==> listed_ok(v, s, #[trigger] slot.contents[i])
    &&& slot_used(slot.contents, v.keys) + slot.avail == SMALL_CAPACITY
}

/// A name listed in slot `s` is a live small key whose address falls into
/// slot `s`.
pub open spec fn listed_ok(v: DictView, s: int, name: Seq<char>) -> bool {
    &&& live(v.keys, name)
    &&& is_small(v.keys[name], v.index)
    &&& slot_of(v.keys[name], v.index) == s
}

/// What holds of a cached key `name`, where it is live: the key is sound,
/// a small key is listed in its slot, and its descriptor index is in range
/// and not free.
pub open spec fn key_inv(v: DictView, name: Seq<char>) -> bool {
    let e = v.keys[name];
    live(v.keys, name) ==> {
        &&& entry_inv(e, v.index)
        &&& 1 <= e.descriptor_index <= KEY_MAXCOUNT
        &&& !v.free_keys.contains(e.descriptor_index)
        &&& is_small(e, v.index) ==> {
            &&& 0 <= slot_of(e, v.index) < v.small_pool.len()
            &&& v.small_pool[slot_of(e, v.index)].contents.contains(name)
        }
    }
}

/// Two live keys of different names have different descriptor indices.
pub open spec fn indices_apart(v: DictView, a: Seq<char>, b: Seq<char>) -> bool {
    live(v.keys, a) && live(v.keys, b) && a != b ==> v.keys[a].descriptor_index
        != v.keys[b].descriptor_index
}

/// A clean cache holds no dirty key.
pub open spec fn key_clean_ok(v: DictView, name: Seq<char>) -> bool {
    v.clean && v.keys.contains_key(name) ==> v.keys[name].clean
}

/// What holds of the cache between calls.
pub open spec fn dict_inv(v: DictView) -> bool {
    &&& 1 <= v.index <= DICT_MAXCOUNT
    &&& v.small_pool.len() <= SMALL_POOL_SLOTS
    &&& forall|name: Seq<char>| #[trigger] key_inv(v, name)
    &&& forall|s: int| 0 <= s < v.small_pool.len() ==> #[trigger] slot_inv(v, s)
    &&& forall|a: Seq<char>, b: Seq<char>| #[trigger] indices_apart(v, a, b)
    &&& forall|name: Seq<char>| #[trigger] key_clean_ok(v, name)
    &&& forall|s: int| 0 <= s < v.small_pool.len() && v.clean ==> (#[trigger] v.small_pool[s]).clean
}

/// Listing one more key adds what that key has reserved.
pub proof fn lemma_slot_used_push(
    contents: Seq<Seq<char>>,
    keys: Map<Seq<char>, KeyEntryView>,
    name: Seq<char>,
)
    ensures
        slot_used(contents.push(name), keys) == slot_used(contents, keys) + keys[name].reserved,
{
    assert(contents.push(name).drop_last() =~= contents);
    assert(contents.push(name).last() == name);
}

/// What a slot's keys have reserved does not depend on keys that the slot
/// does not list.
pub proof fn lemma_slot_used_frame(
    contents: Seq<Seq<char>>,
    keys: Map<Seq<char>, KeyEntryView>,
    other: Map<Seq<char>, KeyEntryView>,
)
    requires
        forall|i: int|
            0 <= i < contents.len() ==> other[#[trigger] contents[i]].reserved
                == keys[contents[i]].reserved,
    ensures
        slot_used(contents, other) == slot_used(contents, keys),
    decreases contents.len(),
{
    if contents.len() > 0 {
        let rest = contents.drop_last();
        assert forall|i: int| 0 <= i < rest.len() implies other[#[trigger] rest[i]].reserved
            == keys[rest[i]].reserved by {
            assert(rest[i] == contents[i]);
        }
        lemma_slot_used_frame(rest, keys, other);
        assert(contents.last() == contents[contents.len() - 1]);
    }
}

/// Replacing the name at position `p` changes the sum by the difference of
/// what the two keys have reserved.
pub proof fn lemma_slot_used_update(
    contents: Seq<Seq<char>>,
    keys: Map<Seq<char>, KeyEntryView>,
    p: int,
    name: Seq<char>,
)
    requires
        0 <= p < contents.len(),
    ensures
        slot_used(contents.update(p, name), keys) == slot_used(contents, keys)
            - keys[contents[p]].reserved + keys[name].reserved,
    decreases contents.len(),
{
    let upd = contents.update(p, name);
    if p == contents.len() - 1 {
        assert(upd.drop_last() =~= contents.drop_last());
    } else {
        assert(upd.drop_last() =~= contents.drop_last().update(p, name));
        lemma_slot_used_update(contents.drop_last(), keys, p, name);
    }
}

/// Taking the name at position `p` out by moving the last name into its
/// place takes what that key has reserved out of the sum.
pub proof fn lemma_slot_used_swap_remove(
    contents: Seq<Seq<char>>,
    keys: Map<Seq<char>, KeyEntryView>,
    p: int,
)
    requires
        0 <= p < contents.len(),
    ensures
        slot_used(contents.update(p, contents.last()).drop_last(), keys) == slot_used(
            contents,
            keys,
        ) - keys[contents[p]].reserved,
{
    lemma_slot_used_update(contents, keys, p, contents.last());
    let upd = contents.update(p, contents.last());
    if p == contents.len() - 1 {
        assert(upd =~= contents);
    } else {
        assert(upd.last() == contents.last());
    }
}

} // verus!
