//! The map from virtual page addresses to physical pages, and the one-page
//! cache of opened plaintext.

use vstd::prelude::*;
use std::collections::HashMap;
use crate::storage::{open_page, page_at, PageView, PhysPage, Storage};

verus! {

broadcast use vstd::std_specs::hash::group_hash_axioms;

/// The physical page behind each mapped virtual page address.
pub struct V2PMap {
    /// The mappings.
    pub map: HashMap<u64, PhysPage>,
}

impl View for V2PMap {
    type V = Map<u64, PhysPage>;

    open spec fn view(&self) -> Map<u64, PhysPage> {
        self.map@
    }
}

impl V2PMap {
    /// A map without mappings.
    pub fn new() -> (m: V2PMap)
        ensures
            m@ == Map::<u64, PhysPage>::empty(),
    {
        V2PMap { map: HashMap::new() }
    }

    /// The physical page behind `vaddr`.
    pub fn get(&self, vaddr: u64) -> (r: Option<PhysPage>)
        ensures
            r is Some <==> self@.contains_key(vaddr),
            r matches Some(pp) ==> pp == self@[vaddr],
    {
        match self.map.get(&vaddr) {
            Some(pp) => Some(*pp),
            None => None,
        }
    }

    /// Maps `vaddr`, which has no mapping yet, to `pp`.
    pub fn insert(&mut self, vaddr: u64, pp: PhysPage)
        requires
            !old(self)@.contains_key(vaddr),
        ensures
            final(self)@ == old(self)@.insert(vaddr, pp),
    {
        self.map.insert(vaddr, pp);
    }

    /// Takes the mapping of `vaddr` out and returns its physical page.
    pub fn remove(&mut self, vaddr: u64) -> (r: Option<PhysPage>)
        ensures
            final(self)@ == old(self)@.remove(vaddr),
            r is Some <==> old(self)@.contains_key(vaddr),
            r matches Some(pp) ==> pp == old(self)@[vaddr],
    {
        self.map.remove(&vaddr)
    }

    /// The mapping of `vaddr` with its `valid` bit set, made from a page of
    /// the free pool where there was none; `None`, and nothing changed, where
    /// there was none and the pool is empty.
    pub fn entry_or_insert_with(&mut self, vaddr: u64, hw: &mut Storage) -> (r: Option<PhysPage>)
        ensures
            final(hw).pages == old(hw).pages,
            old(self)@.contains_key(vaddr) ==> {
                &&& r == Some(PhysPage { valid: true, ..old(self)@[vaddr] })
                &&& final(hw).fast_space@ == old(hw).fast_space@
            },
            !old(self)@.contains_key(vaddr) && old(hw).fast_space@.len() == 0 ==> {
                &&& r is None
                &&& final(self)@ == old(self)@
                &&& final(hw).fast_space@ == old(hw).fast_space@
            },
            !old(self)@.contains_key(vaddr) && old(hw).fast_space@.len() > 0 ==> {
                &&& r == Some(PhysPage { valid: true, ..old(hw).fast_space@.last() })
                &&& final(hw).fast_space@ == old(hw).fast_space@.drop_last()
            },
            r matches Some(pp) ==> final(self)@ == old(self)@.insert(vaddr, pp),
    {
        let found = match self.map.get(&vaddr) {
            Some(pp) => Some(*pp),
            None => hw.try_fast_space_alloc(),
        };
        match found {
            Some(pp) => {
                let marked = PhysPage { page_number: pp.page_number, clean: pp.clean, valid: true };
                self.map.insert(vaddr, marked);
                Some(marked)
            },
            None => None,
        }
    }
}

/// What opening the virtual page at `vaddr` gives: the plaintext of the
/// physical page behind it, or nothing where the address has no mapping or
/// the page does not open.
pub open spec fn read_vpage(
    disk: Map<u32, PageView>,
    v2p: Map<u64, PhysPage>,
    aad: Seq<u8>,
    vaddr: int,
) -> Option<Seq<u8>> {
    if 0 <= vaddr <= u64::MAX && v2p.contains_key(vaddr as u64) {
        open_page(page_at(disk, v2p[vaddr as u64].page_number), aad)
    } else {
        None
    }
}

/// A virtual page of a sound device opens to a whole plaintext buffer.
pub proof fn lemma_read_vpage_len(hw: &Storage, v2p: Map<u64, PhysPage>, aad: Seq<u8>, vaddr: int)
    requires
        hw.wf(),
    ensures
        read_vpage(hw@.pages, v2p, aad, vaddr) matches Some(page) ==> page.len()
            == crate::layout::PAGE_BUF_LEN,
{
    if 0 <= vaddr <= u64::MAX && v2p.contains_key(vaddr as u64) {
        assert(crate::storage::page_wf(hw.page(v2p[vaddr as u64].page_number)));
    }
}

/// The most recently opened plaintext page and the physical page it came
/// from.
pub enum PlaintextCache {
    /// Nothing is held: the address asked for last had no mapping.
    Empty,
    /// What opening physical page `tag` gave: the plaintext, with the
    /// journal counter on top, or nothing where the page did not open.
    Page { tag: PhysPage, data: Option<Vec<u8>> },
}

impl PlaintextCache {
    /// The physical page that the cache holds.
    pub open spec fn tag_view(&self) -> Option<PhysPage> {
        match self {
            PlaintextCache::Empty => None,
            PlaintextCache::Page { tag, data } => Some(*tag),
        }
    }

    /// The plaintext that the cache holds.
    pub open spec fn plaintext(&self) -> Option<Seq<u8>> {
        match self {
            PlaintextCache::Page { tag, data: Some(buf) } => Some(buf@),
            _ => None,
        }
    }

    /// A cache that holds nothing.
    pub fn new() -> (c: PlaintextCache)
        ensures
            c == PlaintextCache::Empty,
    {
        PlaintextCache::Empty
    }

    /// The physical page that the cache holds.
    pub fn tag(&self) -> (r: Option<PhysPage>)
        ensures
            r == self.tag_view(),
    {
        match self {
            PlaintextCache::Empty => None,
            PlaintextCache::Page { tag, data } => Some(*tag),
        }
    }

    /// The plaintext that the cache holds.
    pub fn data(&self) -> (r: Option<&Vec<u8>>)
        ensures
            r is Some <==> self.plaintext() is Some,
            r matches Some(buf) ==> self.plaintext() == Some(buf@),
    {
        match self {
            PlaintextCache::Page { tag, data: Some(buf) } => Some(buf),
            _ => None,
        }
    }

    /// Whether the cache, where it holds a page, holds what opening that
    /// page under `aad` gives.
    pub open spec fn coherent(&self, disk: Map<u32, PageView>, aad: Seq<u8>) -> bool {
        self.tag_view() matches Some(tag) ==> self.plaintext() == open_page(
            page_at(disk, tag.page_number),
            aad,
        )
    }

    /// Whether `fill` for a page mapped to `pp` leaves the cache as it is.
    pub open spec fn hits(&self, pp: PhysPage) -> bool {
        self.tag_view() matches Some(tag) && tag.page_number == pp.page_number
    }

    /// Brings the cache in step with the page behind `req_vaddr`: emptied
    /// where the address has no mapping, kept where the cache already holds
    /// that physical page, and refilled by opening the page otherwise.
    pub fn fill(&mut self, hw: &Storage, v2p_map: &V2PMap, aad: &Vec<u8>, req_vaddr: u64)
        ensures
            !v2p_map@.contains_key(req_vaddr) ==> *final(self) == PlaintextCache::Empty,
            v2p_map@.contains_key(req_vaddr) && old(self).hits(v2p_map@[req_vaddr])
                ==> *final(self) == *old(self),
            v2p_map@.contains_key(req_vaddr) && !old(self).hits(v2p_map@[req_vaddr]) ==> {
                &&& final(self).tag_view() == Some(v2p_map@[req_vaddr])
                &&& final(self).plaintext() == open_page(
                    hw.page(v2p_map@[req_vaddr].page_number),
                    aad@,
                )
            },
            old(self).coherent(hw@.pages, aad@) ==> {
                &&& final(self).coherent(hw@.pages, aad@)
                &&& final(self).plaintext() == read_vpage(
                    hw@.pages,
                    v2p_map@,
                    aad@,
                    req_vaddr as int,
                )
            },
    {
        match v2p_map.get(req_vaddr) {
            Some(pp) => {
                let hit = match self {
                    PlaintextCache::Page { tag, data } => tag.page_number == pp.page_number,
                    PlaintextCache::Empty => false,
                };
                if !hit {
                    let data = hw.data_decrypt_page(aad, &pp);
                    *self = PlaintextCache::Page { tag: pp, data };
                }
            },
            None => {
                *self = PlaintextCache::Empty;
            },
        }
    }
}

} // verus!
