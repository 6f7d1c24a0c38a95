//! The physical pages of a basis, the pool of free physical pages, and the
//! generator of overwrite noise.

use vstd::prelude::*;
use std::collections::HashMap;
use aes_gcm_siv::aead::OsRng;
use aes_gcm_siv::aead::rand_core::RngCore;
use crate::bytes::{bytes_equal, copy_bytes};
use crate::journal::{bump_journal, journal_bumped};
use crate::layout::{PAGE_BUF_LEN, PAGE_SIZE};

verus! {

broadcast use vstd::std_specs::hash::group_hash_axioms;

/// The identity of a physical page, with its bookkeeping bits.
#[derive(Clone, Copy, Debug, PartialEq, Eq, Structural)]
pub struct PhysPage {
    /// The number of the page on the device.
    pub page_number: u32,
    /// Whether the page table entry is in step with the device.
    pub clean: bool,
    /// Whether the page holds live data.
    pub valid: bool,
}

/// What a physical page holds.
#[derive(Debug)]
pub enum PageContent {
    /// A plaintext page sealed under associated data.
    Sealed { aad: Vec<u8>, plaintext: Vec<u8> },
    /// Bytes written over the page without sealing.
    Raw(Vec<u8>),
}

/// What a physical page holds, as mathematical values.
pub enum PageView {
    /// A plaintext page sealed under associated data.
    Sealed { aad: Seq<u8>, plaintext: Seq<u8> },
    /// Bytes written over the page without sealing.
    Raw(Seq<u8>),
}

impl View for PageContent {
    type V = PageView;

    open spec fn view(&self) -> PageView {
        match self {
            PageContent::Sealed { aad, plaintext } => PageView::Sealed {
                aad: aad@,
                plaintext: plaintext@,
            },
            PageContent::Raw(bytes) => PageView::Raw(bytes@),
        }
    }
}

/// What opening a page under `aad` gives: the plaintext where the page was
/// sealed under the same associated data, and nothing otherwise.
pub open spec fn open_page(content: Option<PageView>, aad: Seq<u8>) -> Option<Seq<u8>> {
    match content {
        Some(PageView::Sealed { aad: sealed_aad, plaintext }) => if sealed_aad == aad {
            Some(plaintext)
        } else {
            None
        },
        _ => None,
    }
}

/// Whether a page holds bytes that were written over it without sealing.
pub open spec fn is_raw(content: Option<PageView>) -> bool {
    content matches Some(PageView::Raw(_))
}

/// A sealed page holds a whole plaintext buffer, a raw page a whole
/// physical page.
pub open spec fn page_wf(content: Option<PageView>) -> bool {
    match content {
        Some(PageView::Sealed { aad, plaintext }) => plaintext.len() == PAGE_BUF_LEN,
        Some(PageView::Raw(bytes)) => bytes.len() == PAGE_SIZE,
        None => true,
    }
}

/// The pages of the device and the pool of free physical pages.
pub struct Storage {
    /// The content of each physical page that was ever written.
    pub pages: HashMap<u32, PageContent>,
    /// The free physical pages; the last one is handed out first.
    pub fast_space: Vec<PhysPage>,
}

/// The device as mathematical values.
pub struct StorageView {
    /// What each physical page holds that was ever written.
    pub pages: Map<u32, PageView>,
    /// The free physical pages; the last one is handed out first.
    pub fast_space: Seq<PhysPage>,
}

/// What page `page_number` holds, if it was ever written.
pub open spec fn page_at(pages: Map<u32, PageView>, page_number: u32) -> Option<PageView> {
    if pages.contains_key(page_number) {
        Some(pages[page_number])
    } else {
        None
    }
}

impl View for Storage {
    type V = StorageView;

    open spec fn view(&self) -> StorageView {
        StorageView {
            pages: Map::new(
                |n: u32| self.pages@.contains_key(n),
                |n: u32| self.pages@[n]@,
            ),
            fast_space: self.fast_space@,
        }
    }
}

impl Storage {
    /// What page `page_number` holds, if it was ever written.
    pub open spec fn page(&self, page_number: u32) -> Option<PageView> {
        page_at(self@.pages, page_number)
    }

    /// Every sealed page holds a whole plaintext buffer, every raw page a
    /// whole physical page.
    pub open spec fn wf(&self) -> bool {
        forall|n: u32| page_wf(#[trigger] self.page(n))
    }

    /// A device with no page written and no page free.
    pub fn new() -> (hw: Storage)
        ensures
            hw.wf(),
            hw@.pages == Map::<u32, PageView>::empty(),
            hw@.fast_space == Seq::<PhysPage>::empty(),
    {
        let hw = Storage { pages: HashMap::new(), fast_space: Vec::new() };
        assert(hw@.pages =~= Map::<u32, PageView>::empty());
        hw
    }

    /// Number of free physical pages.
    pub fn fast_space_len(&self) -> (n: usize)
        ensures
            n == self.fast_space@.len(),
    {
        self.fast_space.len()
    }

    /// Takes a physical page out of the free pool.
    pub fn try_fast_space_alloc(&mut self) -> (r: Option<PhysPage>)
        ensures
            final(self).pages == old(self).pages,
            old(self).wf() ==> final(self).wf(),
            r is None <==> old(self).fast_space@.len() == 0,
            r is None ==> final(self).fast_space@ == old(self).fast_space@,
            r matches Some(pp) ==> pp == old(self).fast_space@.last() && final(self).fast_space@
                == old(self).fast_space@.drop_last(),
    {
        let r = self.fast_space.pop();
        proof {
            if old(self).wf() {
                assert forall|n: u32| page_wf(#[trigger] self.page(n)) by {
                    assert(page_wf(old(self).page(n)));
                }
            }
        }
        r
    }

    /// Returns a physical page to the free pool, with its `valid` bit cleared.
    pub fn fast_space_free(&mut self, pp: PhysPage)
        ensures
            final(self).pages == old(self).pages,
            old(self).wf() ==> final(self).wf(),
            final(self).fast_space@ == old(self).fast_space@.push(
                PhysPage { page_number: pp.page_number, clean: pp.clean, valid: false },
            ),
    {
        self.fast_space.push(
            PhysPage { page_number: pp.page_number, clean: pp.clean, valid: false },
        );
        proof {
            if old(self).wf() {
                assert forall|n: u32| page_wf(#[trigger] self.page(n)) by {
                    assert(page_wf(old(self).page(n)));
                }
            }
        }
    }

    /// Opens physical page `pp` under `aad`.
    pub fn data_decrypt_page(&self, aad: &Vec<u8>, pp: &PhysPage) -> (r: Option<Vec<u8>>)
        ensures
            r is Some <==> open_page(self.page(pp.page_number), aad@) is Some,
            r matches Some(buf) ==> open_page(self.page(pp.page_number), aad@) == Some(buf@),
    {
        match self.pages.get(&pp.page_number) {
            Some(PageContent::Sealed { aad: sealed_aad, plaintext }) => {
                if bytes_equal(sealed_aad, aad) {
                    Some(copy_bytes(plaintext))
                } else {
                    None
                }
            },
            _ => None,
        }
    }

    /// Steps the journal counter of `buf`, seals the buffer under `aad` and
    /// writes it to physical page `pp`.
    pub fn data_encrypt_and_patch_page(&mut self, aad: &Vec<u8>, buf: &mut Vec<u8>, pp: &PhysPage)
        requires
            old(self).wf(),
            old(buf).len() == PAGE_BUF_LEN,
        ensures
            final(self).wf(),
            final(buf)@ == journal_bumped(old(buf)@),
            final(self).fast_space == old(self).fast_space,
            final(self).page(pp.page_number) == Some(
                PageView::Sealed { aad: aad@, plaintext: final(buf)@ },
            ),
            forall|n: u32| n != pp.page_number ==> final(self).page(n) == old(self).page(n),
    {
        bump_journal(buf);
        let content = PageContent::Sealed { aad: copy_bytes(aad), plaintext: copy_bytes(buf) };
        self.pages.insert(pp.page_number, content);
        proof {
            assert forall|n: u32| n != pp.page_number implies self.page(n) == old(self).page(
                n,
            ) by {}
            assert forall|n: u32| page_wf(#[trigger] self.page(n)) by {
                if n != pp.page_number {
                    assert(self.page(n) == old(self).page(n));
                }
            }
        }
    }

    /// Fills `buf` with bytes of the system's generator; `false` where the
    /// generator failed.
    pub fn trng_slice(&mut self, buf: &mut Vec<u8>) -> (ok: bool)
        ensures
            *final(self) == *old(self),
            final(buf)@.len() == old(buf)@.len(),
    {
        csprng_fill(buf)
    }

    /// Writes `data` over the whole of physical page `page_number`, unsealed.
    pub fn patch_data(&mut self, data: &Vec<u8>, page_number: u32)
        requires
            old(self).wf(),
            data.len() == PAGE_SIZE,
        ensures
            final(self).wf(),
            final(self).fast_space == old(self).fast_space,
            final(self).page(page_number) == Some(PageView::Raw(data@)),
            forall|n: u32| n != page_number ==> final(self).page(n) == old(self).page(n),
    {
        self.pages.insert(page_number, PageContent::Raw(copy_bytes(data)));
        proof {
            assert forall|n: u32| n != page_number implies self.page(n) == old(self).page(n) by {}
            assert forall|n: u32| page_wf(#[trigger] self.page(n)) by {
                if n != page_number {
                    assert(self.page(n) == old(self).page(n));
                }
            }
        }
    }
}

/// Two devices whose pages hold the same hold the same pages.
pub proof fn lemma_same_pages(a: &Storage, b: &Storage)
    requires
        forall|n: u32| a.page(n) == b.page(n),
    ensures
        a@.pages == b@.pages,
{
    assert forall|n: u32| a@.pages.contains_key(n) == b@.pages.contains_key(n) by {
        assert(a.page(n) == b.page(n));
    }
    assert forall|n: u32| a@.pages.contains_key(n) implies a@.pages[n] == b@.pages[n] by {
        assert(a.page(n) == b.page(n));
    }
    assert(a@.pages =~= b@.pages);
}

/// Calls `try_fill_bytes` of `OsRng`, which overwrites the bytes of the
/// buffer with output of the operating system's generator and reports
/// whether the generator delivered. Only the length of the buffer is
/// claimed to stay the same.
#[verifier::external_body]
fn csprng_fill(buf: &mut Vec<u8>) -> (ok: bool)
    ensures
        final(buf)@.len() == old(buf)@.len(),
{
    OsRng.try_fill_bytes(buf.as_mut_slice()).is_ok()
}

} // verus!
