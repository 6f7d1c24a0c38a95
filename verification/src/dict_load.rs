//! Bringing keys from the descriptor table on disk into the cache.

use vstd::prelude::*;
use vstd::utf8::{decode_utf8, encode_utf8};
use vstd::string::StrSliceExecFns;
use crate::bytes::{bytes_equal, copy_bytes};
use crate::dict_spec::{dict_inv, entry_inv, is_small, live, slot_of, DictView};
use crate::dictionary::{small_storage_index_from_key, DictCacheEntry};
use crate::keys::{
    descriptor_at, string_from_utf8, KeyCacheEntry, KeyDescriptor, KeySmallData, KeySmallPool,
};
use crate::layout::{
    descriptor_offset, descriptor_page_address, small_slot_address, DK_PER_VPAGE, DK_STRIDE,
    JOURNAL_WIDTH, KEY_MAXCOUNT, LARGE_POOL_START, PAGE_BUF_LEN, SMALL_CAPACITY,
    SMALL_POOL_SLOTS, VPAGE_STEP,
};
use crate::scan_spec::{
    admissible, avail_at, entry_of, fill_from, fill_step, find_from, index_in_use,
    lemma_take_key_keeps_inv, loaded_entry, lookup, pad_pool, small_body, take_key,
};
use crate::storage::Storage;
use crate::v2p::{PlaintextCache, V2PMap};

verus! {

broadcast use vstd::utf8::encode_utf8_decode_utf8;

/// Reads descriptor `try_entry` out of its descriptor page.
pub fn read_descriptor(page: &Vec<u8>, try_entry: usize) -> (desc: KeyDescriptor)
    requires
        page.len() == PAGE_BUF_LEN,
    ensures
        desc@ == descriptor_at(page@, descriptor_offset(try_entry as int)),
{
    let at: usize = JOURNAL_WIDTH + (try_entry % DK_PER_VPAGE) * DK_STRIDE;
    KeyDescriptor::parse(page, at)
}

impl DictCacheEntry {
    /// The cache is sound, but for the list of free space of the small
    /// pool, which may be out of step.
    pub open spec fn wf_but_free(&self) -> bool {
        &&& self.keys.wf()
        &&& self.free_keys.wf()
        &&& dict_inv(self@)
    }

    /// Whether some live key holds descriptor index `idx`.
    pub fn index_in_use(&self, idx: u32) -> (r: bool)
        requires
            self.keys.wf(),
        ensures
            r == index_in_use(self@.keys, idx as int),
    {
        let n = self.keys.len();
        let mut i: usize = 0;
        while i < n
            invariant
                i <= n,
                n == self.keys.name_views().len(),
                self.keys.wf(),
                forall|j: int|
                    0 <= j < i ==> !(live(self@.keys, #[trigger] self.keys.name_views()[j])
                        && self@.keys[self.keys.name_views()[j]].descriptor_index == idx),
            decreases n - i,
        {
            let name = self.keys.name_at(i);
            assert(self.keys.name_views().contains(name@));
            match self.keys.get(name.as_str()) {
                Some(e) => {
                    if e.flags.valid && e.descriptor_index == idx {
                        assert(live(self@.keys, name@));
                        assert(self@.keys[name@].descriptor_index == idx);
                        return true;
                    }
                },
                None => {},
            }
            i += 1;
        }
        proof {
            if index_in_use(self@.keys, idx as int) {
                let name = choose|name: Seq<char>|
                    live(self@.keys, name) && #[trigger] self@.keys[name].descriptor_index == idx;
                assert(self.keys.name_views().contains(name));
                let j = choose|j: int|
                    0 <= j < self.keys.name_views().len() && self.keys.name_views()[j] == name;
                assert(!(live(self@.keys, self.keys.name_views()[j])
                    && self@.keys[self.keys.name_views()[j]].descriptor_index == idx));
            }
        }
        false
    }

    /// Whether the cache can take the key that `desc`, found at descriptor
    /// index `idx`, describes.
    pub fn can_take(&self, desc: &KeyDescriptor, idx: usize) -> (r: bool)
        requires
            self.wf_but_free(),
        ensures
            r == admissible(self@, desc@, idx as int),
    {
        if idx < 1 || idx > KEY_MAXCOUNT {
            return false;
        }
        if desc.len > desc.reserved || desc.reserved > u64::MAX - desc.start {
            return false;
        }
        let probe = KeyCacheEntry {
            start: desc.start,
            len: desc.len,
            reserved: desc.reserved,
            flags: desc.flags,
            age: desc.age,
            descriptor_index: idx as u32,
            clean: true,
            data: None,
        };
        assert(probe@ == entry_of(desc@, idx as int, None));
        match small_storage_index_from_key(&probe, self.index) {
            Some(slot) => {
                if slot >= SMALL_POOL_SLOTS {
                    return false;
                }
                let base = small_slot_address(self.index, slot);
                proof {
                    crate::layout::lemma_small_slot_bounds(
                        desc.start as int,
                        desc.reserved as int,
                        self.index as int,
                    );
                }
                if desc.start - base > SMALL_CAPACITY as u64 || desc.reserved
                    > SMALL_CAPACITY as u64 - (desc.start - base) {
                    return false;
                }
                let avail: u64 = if slot < self.small_pool.len() {
                    self.small_pool[slot].avail as u64
                } else {
                    SMALL_CAPACITY as u64
                };
                assert(avail == avail_at(self@.small_pool, slot as int));
                if desc.reserved > avail {
                    return false;
                }
            },
            None => {
                if desc.start < LARGE_POOL_START || desc.start % VPAGE_STEP != 0 || desc.reserved
                    % VPAGE_STEP != 0 {
                    return false;
                }
            },
        }
        if self.free_keys.contains(idx as u32) {
            return false;
        }
        !self.index_in_use(idx as u32)
    }

    /// Lists a key that reserves `reserved` bytes in slot `pool_index`,
    /// which gives up those bytes; slots that the pool lacks up to there are
    /// made empty.
    pub fn list_in_slot(&mut self, pool_index: usize, key_name: &str, reserved: u64)
        requires
            pool_index < SMALL_POOL_SLOTS,
            old(self)@.small_pool.len() <= SMALL_POOL_SLOTS,
            forall|s: int|
                0 <= s < old(self)@.small_pool.len() ==> 0 <= (
                #[trigger] old(self)@.small_pool[s]).avail <= SMALL_CAPACITY,
            reserved <= avail_at(old(self)@.small_pool, pool_index as int),
        ensures
            final(self)@.small_pool == crate::scan_spec::listed(
                old(self)@.small_pool,
                pool_index as int,
                key_name@,
                reserved as int,
            ),
            final(self)@ == (DictView { small_pool: final(self)@.small_pool, ..old(self)@ }),
            final(self).keys == old(self).keys,
            final(self).free_keys == old(self).free_keys,
    {
        let ghost before = self@.small_pool;
        while self.small_pool.len() < pool_index + 1
            invariant
                pool_index < SMALL_POOL_SLOTS,
                self@ == (DictView { small_pool: self@.small_pool, ..old(self)@ }),
                self.keys == old(self).keys,
                self.free_keys == old(self).free_keys,
                self.small_pool@.len() == before.len() || self.small_pool@.len() <= pool_index + 1,
                self.small_pool@.len() >= before.len(),
                before.len() <= SMALL_POOL_SLOTS,
                self@.small_pool == pad_pool(before, self.small_pool@.len() as int),
            decreases pool_index + 1 - self.small_pool@.len(),
        {
            let ghost prev = self@.small_pool;
            self.small_pool.push(KeySmallPool::new());
            proof {
                let now = self@.small_pool;
                let want = pad_pool(before, self.small_pool@.len() as int);
                assert(now.len() == want.len());
                assert forall|i: int| 0 <= i < now.len() implies now[i] == want[i] by {
                    if i < prev.len() {
                        assert(now[i] == prev[i]);
                    }
                }
                assert(now =~= want);
            }
        }
        assert(self@.small_pool =~= pad_pool(before, pool_index + 1));
        let ghost padded = self@.small_pool;
        assert(padded[pool_index as int].avail == avail_at(before, pool_index as int));
        self.small_pool[pool_index].contents.push(key_name.to_owned());
        self.small_pool[pool_index].avail = self.small_pool[pool_index].avail - reserved as u16;
        proof {
            let want = crate::scan_spec::listed(before, pool_index as int, key_name@, reserved as int);
            assert(self@.small_pool[pool_index as int].contents =~= padded[pool_index as int].contents.push(
                key_name@,
            ));
            assert(self@.small_pool =~= want);
        }
    }

    /// Lists the small key that `kcache` describes in its slot of the small
    /// pool, which gives up what the key has reserved, and reads the key's
    /// data from the page of the slot into `kcache`. A key outside the
    /// small pool is left alone.
    pub fn try_fill_small_key(
        &mut self,
        hw: &Storage,
        v2p_map: &V2PMap,
        data_cache: &mut PlaintextCache,
        kcache: &mut KeyCacheEntry,
        key_name: &str,
    )
        requires
            hw.wf(),
            old(data_cache).coherent(hw@.pages, old(self).aad@),
            old(kcache).data is None,
            entry_inv(old(kcache)@, old(self).index as int),
            old(self)@.small_pool.len() <= SMALL_POOL_SLOTS,
            forall|s: int|
                0 <= s < old(self)@.small_pool.len() ==> 0 <= (
                #[trigger] old(self)@.small_pool[s]).avail <= SMALL_CAPACITY,
            is_small(old(kcache)@, old(self).index as int) ==> old(kcache).reserved <= avail_at(
                old(self)@.small_pool,
                slot_of(old(kcache)@, old(self).index as int),
            ),
        ensures
            final(data_cache).coherent(hw@.pages, old(self).aad@),
            final(self)@.small_pool == take_key(
                old(self)@,
                key_name@,
                final(kcache)@,
            ).small_pool,
            final(self)@ == (DictView { small_pool: final(self)@.small_pool, ..old(self)@ }),
            final(self).keys == old(self).keys,
            final(self).free_keys == old(self).free_keys,
            is_small(old(kcache)@, old(self).index as int) ==> final(kcache)@ == (
            crate::keys::KeyEntryView {
                data: match small_body(
                    hw@.pages,
                    v2p_map@,
                    old(self).aad@,
                    old(kcache).start as int,
                    old(kcache).len as int,
                    old(self).index as int,
                ) {
                    Some(b) => Some(crate::keys::SmallDataView { clean: true, data: b }),
                    None => None,
                },
                ..old(kcache)@
            }),
            !is_small(old(kcache)@, old(self).index as int) ==> final(kcache)@ == old(kcache)@,
    {
        if let Some(pool_index) = small_storage_index_from_key(kcache, self.index) {
            self.list_in_slot(pool_index, key_name, kcache.reserved);
            let data_vaddr = small_slot_address(self.index, pool_index);
            data_cache.fill(hw, v2p_map, &self.aad, data_vaddr);
            proof {
                crate::layout::lemma_small_slot_bounds(
                    kcache.start as int,
                    kcache.reserved as int,
                    self.index as int,
                );
            }
            if let Some(page) = data_cache.data() {
                assert(crate::storage::page_wf(hw.page(v2p_map@[data_vaddr].page_number)));
                let start_offset: usize = JOURNAL_WIDTH + (kcache.start - data_vaddr) as usize;
                let mut data: Vec<u8> = Vec::new();
                let len: usize = kcache.len as usize;
                let mut i: usize = 0;
                while i < len
                    invariant
                        i <= len,
                        start_offset + len <= page.len(),
                        data@ == page@.subrange(start_offset as int, start_offset + i),
                    decreases len - i,
                {
                    data.push(page[start_offset + i]);
                    i += 1;
                    assert(data@ =~= page@.subrange(start_offset as int, start_offset + i));
                }
                kcache.data = Some(KeySmallData { clean: true, data });
            }
        }
    }

    /// Takes the live key that `desc`, found at descriptor index `idx`,
    /// describes into the cache under `name`.
    pub fn load_key(
        &mut self,
        hw: &Storage,
        v2p_map: &V2PMap,
        data_cache: &mut PlaintextCache,
        desc: &KeyDescriptor,
        name: &str,
        idx: usize,
    )
        requires
            old(self).wf_but_free(),
            hw.wf(),
            old(data_cache).coherent(hw@.pages, old(self).aad@),
            !old(self)@.keys.contains_key(name@),
            desc.flags.valid,
            admissible(old(self)@, desc@, idx as int),
        ensures
            final(self).wf_but_free(),
            final(data_cache).coherent(hw@.pages, old(self).aad@),
            final(self)@ == take_key(
                old(self)@,
                name@,
                loaded_entry(old(self)@, hw@.pages, v2p_map@, desc@, idx as int),
            ),
    {
        let mut kcache = KeyCacheEntry {
            start: desc.start,
            len: desc.len,
            reserved: desc.reserved,
            flags: desc.flags,
            age: desc.age,
            descriptor_index: idx as u32,
            clean: true,
            data: None,
        };
        assert(kcache@ == entry_of(desc@, idx as int, None));
        proof {
            assert forall|s: int| 0 <= s < self@.small_pool.len() implies 0 <= (
            #[trigger] self@.small_pool[s]).avail <= SMALL_CAPACITY by {
                assert(crate::dict_spec::slot_inv(self@, s));
            }
        }
        self.try_fill_small_key(hw, v2p_map, data_cache, &mut kcache, name);
        self.keys.insert(name, kcache);
        proof {
            let e = loaded_entry(old(self)@, hw@.pages, v2p_map@, desc@, idx as int);
            crate::v2p::lemma_read_vpage_len(
                hw,
                v2p_map@,
                self.aad@,
                crate::layout::small_slot_vaddr(
                    self.index as int,
                    crate::layout::small_slot_of(desc.start as int, self.index as int),
                ),
            );
            assert(kcache@ == e);
            let want = take_key(old(self)@, name@, e);
            assert(self@.keys =~= want.keys);
            assert(self@.small_pool =~= want.small_pool);
            assert(self@ == want);
            lemma_take_key_keeps_inv(old(self)@, name@, e);
        }
    }

    /// Makes sure that the key `name_str` is cached where the dictionary
    /// has it, and tells whether the key is live. A key that is cached is
    /// not looked up on disk; a cached key that was removed is not live.
    pub fn ensure_key_entry(&mut self, hw: &Storage, v2p_map: &V2PMap, name_str: &str) -> (r:
        bool)
        requires
            old(self).wf(),
            hw.wf(),
        ensures
            final(self).wf(),
            (final(self)@, r) == lookup(old(self)@, hw@.pages, v2p_map@, name_str@),
    {
        match self.keys.get(name_str) {
            Some(e) => {
                return e.flags.valid;
            },
            None => {},
        }
        let name_bytes = name_str.as_bytes_vec();
        let mut data_cache = PlaintextCache::new();
        let mut index_cache = PlaintextCache::new();
        let mut try_entry: usize = 1;
        let mut seen: u32 = 0;
        while try_entry < KEY_MAXCOUNT && seen < self.key_count && try_entry
            <= self.last_disk_key_index as usize
            invariant
                1 <= try_entry <= KEY_MAXCOUNT + DK_PER_VPAGE,
                seen <= try_entry,
                *self == *old(self),
                self.wf(),
                hw.wf(),
                name_bytes@ == encode_utf8(name_str@),
                !self@.keys.contains_key(name_str@),
                index_cache.coherent(hw@.pages, self.aad@),
                data_cache.coherent(hw@.pages, self.aad@),
                find_from(old(self)@, hw@.pages, v2p_map@, name_bytes@, 1, 0) == find_from(
                    self@,
                    hw@.pages,
                    v2p_map@,
                    name_bytes@,
                    try_entry as int,
                    seen as int,
                ),
            decreases KEY_MAXCOUNT + DK_PER_VPAGE - try_entry,
        {
            let req_vaddr = descriptor_page_address(self.index, try_entry);
            index_cache.fill(hw, v2p_map, &self.aad, req_vaddr);
            match index_cache.data() {
                None => {
                    try_entry += DK_PER_VPAGE;
                },
                Some(page) => {
                    assert(crate::storage::page_wf(hw.page(v2p_map@[req_vaddr].page_number)));
                    let keydesc = read_descriptor(page, try_entry);
                    if keydesc.flags.valid {
                        if bytes_equal(&keydesc.name, &name_bytes) {
                            if self.can_take(&keydesc, try_entry) {
                                self.load_key(
                                    hw,
                                    v2p_map,
                                    &mut data_cache,
                                    &keydesc,
                                    name_str,
                                    try_entry,
                                );
                                self.rebuild_free_pool();
                                return true;
                            } else {
                                return false;
                            }
                        }
                        seen += 1;
                    }
                    try_entry += 1;
                },
            }
        }
        false
    }

    /// Handles one live descriptor that the filling scan met at index
    /// `idx`: takes its key into the cache where that can be, and returns the
    /// large-pool mark, raised to the end of a key of the large pool.
    pub fn fill_one(
        &mut self,
        hw: &Storage,
        v2p_map: &V2PMap,
        data_cache: &mut PlaintextCache,
        keydesc: &KeyDescriptor,
        idx: usize,
        alloc_top: u64,
    ) -> (top: u64)
        requires
            old(self).wf_but_free(),
            hw.wf(),
            old(data_cache).coherent(hw@.pages, old(self).aad@),
            keydesc.flags.valid,
        ensures
            final(self).wf_but_free(),
            final(data_cache).coherent(hw@.pages, old(self).aad@),
            (final(self)@, top as int) == fill_step(
                old(self)@,
                hw@.pages,
                v2p_map@,
                keydesc@,
                idx as int,
                alloc_top as int,
            ),
    {
        match string_from_utf8(copy_bytes(&keydesc.name)) {
            Some(kname) => {
                assert(kname@ == decode_utf8(keydesc.name@));
                if !self.keys.contains_key(kname.as_str()) && self.can_take(keydesc, idx) {
                    self.load_key(hw, v2p_map, data_cache, keydesc, kname.as_str(), idx);
                }
            },
            None => {},
        }
        if keydesc.start >= LARGE_POOL_START && keydesc.reserved <= u64::MAX - keydesc.start
            && keydesc.start + keydesc.reserved > alloc_top {
            keydesc.start + keydesc.reserved
        } else {
            alloc_top
        }
    }

    /// Brings every key of the dictionary that is on disk and not cached
    /// into the cache, and returns the end of the highest key of the large
    /// pool that the scan met, or the start of the large pool. Keys that are cached stay
    /// as they are. The scan leaves the bound of later searches where it
    /// stopped.
    pub fn fill(&mut self, hw: &Storage, v2p_map: &V2PMap) -> (alloc_top: u64)
        requires
            old(self).wf(),
            hw.wf(),
        ensures
            final(self).wf(),
            ({
                let out = fill_from(old(self)@, hw@.pages, v2p_map@, 1, 0, LARGE_POOL_START as int);
                &&& final(self)@ == (DictView { last_disk_key_index: out.stop, ..out.view })
                &&& alloc_top == out.alloc_top
            }),
    {
        let mut try_entry: usize = 1;
        let mut seen: u32 = 0;
        let mut alloc_top: u64 = LARGE_POOL_START;
        let mut index_cache = PlaintextCache::new();
        let mut data_cache = PlaintextCache::new();
        while try_entry < KEY_MAXCOUNT && seen < self.key_count
            invariant
                1 <= try_entry <= KEY_MAXCOUNT + DK_PER_VPAGE,
                seen <= try_entry,
                self.wf_but_free(),
                hw.wf(),
                self.aad@ == old(self).aad@,
                self.index == old(self).index,
                index_cache.coherent(hw@.pages, self.aad@),
                data_cache.coherent(hw@.pages, self.aad@),
                fill_from(old(self)@, hw@.pages, v2p_map@, 1, 0, LARGE_POOL_START as int) == fill_from(
                    self@,
                    hw@.pages,
                    v2p_map@,
                    try_entry as int,
                    seen as int,
                    alloc_top as int,
                ),
            decreases KEY_MAXCOUNT + DK_PER_VPAGE - try_entry,
        {
            let req_vaddr = descriptor_page_address(self.index, try_entry);
            index_cache.fill(hw, v2p_map, &self.aad, req_vaddr);
            match index_cache.data() {
                None => {
                    try_entry += DK_PER_VPAGE;
                },
                Some(page) => {
                    assert(crate::storage::page_wf(hw.page(v2p_map@[req_vaddr].page_number)));
                    let keydesc = read_descriptor(page, try_entry);
                    if keydesc.flags.valid {
                        alloc_top =
                        self.fill_one(
                            hw,
                            v2p_map,
                            &mut data_cache,
                            &keydesc,
                            try_entry,
                            alloc_top,
                        );
                        seen += 1;
                    }
                    try_entry += 1;
                },
            }
        }
        self.last_disk_key_index = try_entry as u32;
        self.rebuild_free_pool();
        proof {
            let out = fill_from(old(self)@, hw@.pages, v2p_map@, 1, 0, LARGE_POOL_START as int);
            let mid = out.view;
            let v = self@;
            assert(v == (DictView { last_disk_key_index: out.stop, ..mid }));
            assert forall|name: Seq<char>| #[trigger] crate::dict_spec::key_inv(v, name) by {
                assert(crate::dict_spec::key_inv(mid, name));
            }
            assert forall|s: int| 0 <= s < v.small_pool.len() implies #[trigger] crate::dict_spec::slot_inv(
                v,
                s,
            ) by {
                assert(crate::dict_spec::slot_inv(mid, s));
            }
            assert forall|a: Seq<char>, b: Seq<char>| #[trigger] crate::dict_spec::indices_apart(
                v,
                a,
                b,
            ) by {
                assert(crate::dict_spec::indices_apart(mid, a, b));
            }
            assert forall|name: Seq<char>| #[trigger] crate::dict_spec::key_clean_ok(v, name) by {
                assert(crate::dict_spec::key_clean_ok(mid, name));
            }
        }
        alloc_top
    }
}

} // verus!
