//! Listing the keys of the dictionary, and estimating the pages that a
//! sync of the small pool needs.

use vstd::prelude::*;
use vstd::hash_set::StringHashSet;
use crate::dict_spec::{live, listed_ok, slot_inv, DictView};
use crate::dictionary::DictCacheEntry;
use crate::keys::KeyEntryView;
use crate::layout::{DK_PER_VPAGE, LARGE_POOL_START, SMALL_CAPACITY, VPAGE_SIZE};
use crate::scan_spec::fill_from;
use crate::storage::Storage;
use crate::v2p::V2PMap;

verus! {

/// A set of key names.
pub struct NameSet {
    /// The names.
    pub set: StringHashSet,
}

impl View for NameSet {
    type V = Set<Seq<char>>;

    open spec fn view(&self) -> Set<Seq<char>> {
        self.set@
    }
}

impl NameSet {
    /// The empty set.
    pub fn new() -> (s: NameSet)
        ensures
            s@ == Set::<Seq<char>>::empty(),
    {
        NameSet { set: StringHashSet::new() }
    }

    /// Puts `name` into the set.
    pub fn insert(&mut self, name: &str)
        ensures
            final(self)@ == old(self)@.insert(name@),
    {
        self.set.insert(name.to_owned());
    }

    /// Whether the set holds `name`.
    pub fn contains(&self, name: &str) -> (r: bool)
        ensures
            r == self@.contains(name@),
    {
        self.set.contains(name)
    }

    /// Number of names in the set.
    pub fn len(&self) -> (n: usize)
        ensures
            n == self@.len(),
    {
        self.set.len()
    }
}

/// The cache after the keys were listed: filled from disk where it held
/// fewer keys than the dictionary counts, and as it was otherwise.
pub open spec fn listed_view(
    v: DictView,
    disk: Map<u32, crate::storage::PageView>,
    v2p: Map<u64, crate::storage::PhysPage>,
) -> DictView {
    if v.keys.dom().len() < v.key_count {
        let out = fill_from(v, disk, v2p, 1, 0, LARGE_POOL_START as int);
        DictView { last_disk_key_index: out.stop, ..out.view }
    } else {
        v
    }
}

/// Number of keys among `contents` that wait for a sync to place them.
pub open spec fn unresolved_count(
    contents: Seq<Seq<char>>,
    keys: Map<Seq<char>, KeyEntryView>,
) -> int
    decreases contents.len(),
{
    if contents.len() == 0 {
        0
    } else {
        unresolved_count(contents.drop_last(), keys) + if keys[contents.last()].flags.unresolved {
            1int
        } else {
            0int
        }
    }
}

/// Number of unresolved keys in the dirty slots among the first `upto`
/// slots.
pub open spec fn index_estimate(v: DictView, upto: int) -> int
    decreases upto,
{
    if upto <= 0 {
        0
    } else {
        let slot = v.small_pool[upto - 1];
        index_estimate(v, upto - 1) + if slot.clean {
            0
        } else {
            unresolved_count(slot.contents, v.keys)
        }
    }
}

/// The used bytes of each dirty slot among the first `upto` slots, counted
/// once for each unresolved key of the slot.
pub open spec fn data_estimate(v: DictView, upto: int) -> int
    decreases upto,
{
    if upto <= 0 {
        0
    } else {
        let slot = v.small_pool[upto - 1];
        data_estimate(v, upto - 1) + if slot.clean {
            0
        } else {
            unresolved_count(slot.contents, v.keys) * (SMALL_CAPACITY - slot.avail)
        }
    }
}

/// The estimate of the pages that a sync of the small pool needs: the
/// data bytes in whole pages and one more, and the descriptor pages that
/// the unresolved keys overflow into.
pub open spec fn alloc_estimate(v: DictView) -> int {
    let index = index_estimate(v, v.small_pool.len() as int);
    let index_avail = DK_PER_VPAGE - v.keys.dom().len() % DK_PER_VPAGE as nat;
    let index_req = if index > index_avail {
        (index - index_avail) / DK_PER_VPAGE as int + 1
    } else {
        0
    };
    data_estimate(v, v.small_pool.len() as int) / VPAGE_SIZE as int + 1 + index_req
}

impl DictCacheEntry {
    /// Puts the name of every cached key, live or not, into `merge_list`,
    /// after the cache was filled from disk where it held fewer keys than the
    /// dictionary counts.
    pub fn key_list(&mut self, hw: &Storage, v2p_map: &V2PMap, merge_list: &mut NameSet)
        requires
            old(self).wf(),
            hw.wf(),
        ensures
            final(self).wf(),
            final(self)@ == listed_view(old(self)@, hw@.pages, v2p_map@),
            final(merge_list)@ == old(merge_list)@.union(final(self)@.keys.dom()),
    {
        if self.keys.len() < self.key_count as usize {
            self.fill(hw, v2p_map);
        }
        let n = self.keys.len();
        let mut i: usize = 0;
        while i < n
            invariant
                i <= n,
                n == self.keys.name_views().len(),
                self.keys.wf(),
                forall|k: Seq<char>|
                    merge_list@.contains(k) <==> (old(merge_list)@.contains(k) || (exists|j: int|
                        0 <= j < i && self.keys.name_views()[j] == k)),
            decreases n - i,
        {
            let name = self.keys.name_at(i);
            merge_list.insert(name.as_str());
            i += 1;
        }
        proof {
            let want = old(merge_list)@.union(self@.keys.dom());
            assert forall|k: Seq<char>| merge_list@.contains(k) <==> want.contains(k) by {
                if self@.keys.dom().contains(k) {
                    assert(self.keys.name_views().contains(k));
                }
                if exists|j: int| 0 <= j < n && self.keys.name_views()[j] == k {
                    assert(self.keys.name_views().contains(k));
                }
            }
            assert(merge_list@ =~= want);
        }
    }

    /// Estimates the pages that the free pool must hold before a sync of
    /// the small pool; an estimate that does not fit the result is cut
    /// down to the greatest value that fits.
    pub fn alloc_estimate_small(&self) -> (r: usize)
        requires
            self.wf(),
        ensures
            r == if alloc_estimate(self@) > usize::MAX {
                usize::MAX as int
            } else {
                alloc_estimate(self@)
            },
    {
        let mut data_total: u128 = 0;
        let mut index_total: u128 = 0;
        let n = self.small_pool.len();
        let mut s: usize = 0;
        while s < n
            invariant
                s <= n,
                n == self.small_pool@.len(),
                self.wf(),
                index_total == index_estimate(self@, s as int),
                data_total == data_estimate(self@, s as int),
                index_total <= s * 0x1_0000_0000_0000_0000,
                data_total <= s * 0x1_0000_0000_0000_0000 * 4080,
            decreases n - s,
        {
            assert(slot_inv(self@, s as int));
            if !self.small_pool[s].clean {
                let used: u128 = (SMALL_CAPACITY - self.small_pool[s].avail as usize) as u128;
                let m = self.small_pool[s].contents.len();
                let ghost contents = self@.small_pool[s as int].contents;
                let mut count: u128 = 0;
                let mut i: usize = 0;
                while i < m
                    invariant
                        i <= m,
                        s < n,
                        n == self.small_pool@.len(),
                        m == self.small_pool@[s as int].contents@.len(),
                        contents == self@.small_pool[s as int].contents,
                        self.wf(),
                        count <= i,
                        count == unresolved_count(contents.subrange(0, i as int), self@.keys),
                    decreases m - i,
                {
                    assert(slot_inv(self@, s as int));
                    assert(listed_ok(self@, s as int, contents[i as int]));
                    let ghost prefix = contents.subrange(0, i + 1);
                    assert(prefix.drop_last() =~= contents.subrange(0, i as int));
                    assert(prefix.last() == contents[i as int]);
                    match self.keys.get(self.small_pool[s].contents[i].as_str()) {
                        Some(kce) => {
                            if kce.flags.unresolved {
                                count += 1;
                            }
                        },
                        None => {},
                    }
                    i += 1;
                }
                assert(contents.subrange(0, m as int) =~= contents);
                assert(count * used <= 0x1_0000_0000_0000_0000 * 4080) by (nonlinear_arith)
                    requires
                        count <= 0x1_0000_0000_0000_0000,
                        used <= 4080,
                ;
                index_total += count;
                data_total += count * used;
            }
            s += 1;
        }
        let cached: usize = self.keys.len();
        let index_avail: u128 = (DK_PER_VPAGE - cached % DK_PER_VPAGE) as u128;
        let index_req: u128 = if index_total > index_avail {
            (index_total - index_avail) / DK_PER_VPAGE as u128 + 1
        } else {
            0
        };
        let total: u128 = data_total / VPAGE_SIZE as u128 + 1 + index_req;
        if total > usize::MAX as u128 {
            usize::MAX
        } else {
            total as usize
        }
    }
}

} // verus!
