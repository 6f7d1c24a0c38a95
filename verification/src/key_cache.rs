//! The cache of key descriptors of one dictionary, by key name.

use vstd::prelude::*;
use vstd::hash_map::StringHashMap;
use crate::bytes::copy_bytes;
use crate::keys::{KeyCacheEntry, KeyEntryView, KeySmallData};

verus! {

impl KeyCacheEntry {
    /// A copy of the entry.
    pub fn duplicate(&self) -> (copy: KeyCacheEntry)
        ensures
            copy@ == self@,
    {
        KeyCacheEntry {
            start: self.start,
            len: self.len,
            reserved: self.reserved,
            flags: self.flags,
            age: self.age,
            descriptor_index: self.descriptor_index,
            clean: self.clean,
            data: match &self.data {
                Some(d) => Some(KeySmallData { clean: d.clean, data: copy_bytes(&d.data) }),
                None => None,
            },
        }
    }
}

/// The cached keys of a dictionary: a hash map by name, and the names in
/// the order in which they came.
pub struct KeyCache {
    /// The entry of each cached key.
    pub map: StringHashMap<KeyCacheEntry>,
    /// The names of the cached keys, each once.
    pub names: Vec<String>,
}

impl View for KeyCache {
    type V = Map<Seq<char>, KeyEntryView>;

    open spec fn view(&self) -> Map<Seq<char>, KeyEntryView> {
        Map::new(|k: Seq<char>| self.map@.contains_key(k), |k: Seq<char>| self.map@[k]@)
    }
}

impl KeyCache {
    /// The names of the cached keys, in the order in which they came.
    pub open spec fn name_views(&self) -> Seq<Seq<char>> {
        Seq::new(self.names@.len(), |i: int| self.names@[i]@)
    }

    /// The list of names holds each cached key once and nothing else.
    pub open spec fn wf(&self) -> bool {
        &&& self.name_views().no_duplicates()
        &&& forall|k: Seq<char>| self.name_views().contains(k) <==> self.map@.contains_key(k)
    }

    /// A cache without keys.
    pub fn new() -> (cache: KeyCache)
        ensures
            cache.wf(),
            cache@ == Map::<Seq<char>, KeyEntryView>::empty(),
            cache.name_views().len() == 0,
    {
        let cache = KeyCache { map: StringHashMap::new(), names: Vec::new() };
        assert(cache@ =~= Map::<Seq<char>, KeyEntryView>::empty());
        cache
    }

    /// Whether a key of that name is cached.
    pub fn contains_key(&self, name: &str) -> (r: bool)
        ensures
            r == self@.contains_key(name@),
    {
        self.map.contains_key(name)
    }

    /// The cached entry of that name.
    pub fn get(&self, name: &str) -> (r: Option<&KeyCacheEntry>)
        ensures
            r is Some <==> self@.contains_key(name@),
            r matches Some(e) ==> e@ == self@[name@],
    {
        self.map.get(name)
    }

    /// Number of cached keys.
    pub fn len(&self) -> (n: usize)
        requires
            self.wf(),
        ensures
            n == self.name_views().len(),
            n == self@.dom().len(),
    {
        proof {
            self.name_views().unique_seq_to_set();
            assert(self.name_views().to_set() =~= self@.dom());
        }
        self.names.len()
    }

    /// The name at position `i` of the list of names.
    pub fn name_at(&self, i: usize) -> (name: &String)
        requires
            i < self.name_views().len(),
        ensures
            name@ == self.name_views()[i as int],
    {
        &self.names[i]
    }

    /// Caches `entry` under `name`, in place of an entry of that name.
    pub fn insert(&mut self, name: &str, entry: KeyCacheEntry)
        requires
            old(self).wf(),
        ensures
            final(self).wf(),
            final(self)@ == old(self)@.insert(name@, entry@),
            final(self).name_views() == if old(self)@.contains_key(name@) {
                old(self).name_views()
            } else {
                old(self).name_views().push(name@)
            },
    {
        let ghost before = self.name_views();
        let known = self.map.contains_key(name);
        if !known {
            self.names.push(name.to_owned());
            assert(self.name_views() =~= before.push(name@));
        } else {
            assert(self.name_views() =~= before);
        }
        self.map.insert(name.to_owned(), entry);
        proof {
            let after = self.name_views();
            assert(self@ =~= old(self)@.insert(name@, entry@));
            assert forall|k: Seq<char>| after.contains(k) <==> self.map@.contains_key(k) by {
                if after.contains(k) {
                    let i = choose|i: int| 0 <= i < after.len() && after[i] == k;
                    if i < before.len() {
                        assert(before[i] == k);
                        assert(before.contains(k));
                    }
                }
                if self.map@.contains_key(k) {
                    if k == name@ {
                        if known {
                            assert(before.contains(k));
                            let i = choose|i: int| 0 <= i < before.len() && before[i] == k;
                            assert(after[i] == k);
                        } else {
                            assert(after[before.len() as int] == k);
                        }
                    } else {
                        assert(before.contains(k));
                        let i = choose|i: int| 0 <= i < before.len() && before[i] == k;
                        assert(after[i] == k);
                    }
                }
            }
            assert forall|i: int, j: int| 0 <= i < j < after.len() implies after[i] != after[j] by {
                if j < before.len() {
                    assert(before[i] != before[j]);
                } else {
                    assert(before[i] == after[i]);
                    if after[i] == name@ {
                        assert(before.contains(name@));
                    }
                }
            }
        }
    }
}

} // verus!
