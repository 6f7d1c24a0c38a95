//! What a write to the pages of a large key writes is what reading the
//! pages gives back.

use vstd::prelude::*;
use crate::dict_spec::{dict_inv, is_small, live};
use crate::journal::{journal_bumped, lemma_bump_len};
use crate::layout::{vpage_floor, JOURNAL_WIDTH, LARGE_POOL_START, PAGE_BUF_LEN, VPAGE_SIZE};
use crate::remove_spec::in_pages;
use crate::storage::{open_page, page_at, page_wf, PageView, PhysPage};
use crate::update_spec::{
    create_error, created, fresh_mapped, large_created, large_reservation, overlay,
    sealed_write, small_fits, span_count, touched, write_existing, write_large, write_pages,
    zeros, World,
};
use crate::v2p::read_vpage;

verus! {

/// Every page of the device is a whole page.
pub open spec fn disk_wf(pages: Map<u32, PageView>) -> bool {
    forall|n: u32| page_wf(#[trigger] page_at(pages, n))
}

/// The `n` bytes that the virtual page at `page_va` holds from `within`
/// on.
pub open spec fn read_chunk(
    pages: Map<u32, PageView>,
    v2p: Map<u64, PhysPage>,
    aad: Seq<u8>,
    page_va: int,
    within: int,
    n: int,
) -> Option<Seq<u8>> {
    match read_vpage(pages, v2p, aad, page_va) {
        Some(p) => Some(p.subrange(JOURNAL_WIDTH + within, JOURNAL_WIDTH + within + n)),
        None => None,
    }
}

/// The `len` bytes from virtual address `addr` on, read page by page;
/// nothing where one of the pages does not open.
pub open spec fn read_large(
    pages: Map<u32, PageView>,
    v2p: Map<u64, PhysPage>,
    aad: Seq<u8>,
    addr: int,
    len: int,
) -> Option<Seq<u8>>
    decreases len,
{
    if len <= 0 {
        Some(Seq::<u8>::empty())
    } else {
        let within = addr % VPAGE_SIZE as int;
        let room = VPAGE_SIZE - within;
        let n = if len >= room { room } else { len };
        match (
            read_chunk(pages, v2p, aad, addr - within, within, n),
            read_large(pages, v2p, aad, addr + n, len - n),
        ) {
            (Some(a), Some(b)) => Some(a + b),
            _ => None,
        }
    }
}

/// Whether the `count` virtual pages from `first` on are mapped, each to
/// a physical page of its own.
pub open spec fn span_mapped(v2p: Map<u64, PhysPage>, first: int, count: int) -> bool {
    &&& forall|va: u64| in_pages(first, count, va as int) ==> #[trigger] v2p.contains_key(va)
    &&& forall|a: u64, b: u64|
        in_pages(first, count, a as int) && in_pages(first, count, b as int) && a != b
            ==> (#[trigger] v2p[a]).page_number != (#[trigger] v2p[b]).page_number
}

/// Writing a chunk into a page keeps the device sound, puts the chunk
/// where reading finds it, and leaves every virtual page behind another
/// physical page as it is.
pub proof fn lemma_sealed_write(
    pages: Map<u32, PageView>,
    v2p: Map<u64, PhysPage>,
    aad: Seq<u8>,
    page_va: int,
    within: int,
    chunk: Seq<u8>,
    blind: bool,
)
    requires
        disk_wf(pages),
        0 <= page_va <= u64::MAX,
        v2p.contains_key(page_va as u64),
        0 <= within,
        within + chunk.len() <= VPAGE_SIZE,
    ensures
        disk_wf(sealed_write(pages, v2p, aad, page_va, within, chunk, blind)),
        read_chunk(
            sealed_write(pages, v2p, aad, page_va, within, chunk, blind),
            v2p,
            aad,
            page_va,
            within,
            chunk.len() as int,
        ) == Some(chunk),
        forall|va: u64|
            #![trigger v2p[va]]
            v2p.contains_key(va) && v2p[va].page_number != v2p[page_va as u64].page_number
                ==> read_vpage(
                sealed_write(pages, v2p, aad, page_va, within, chunk, blind),
                v2p,
                aad,
                va as int,
            ) == read_vpage(pages, v2p, aad, va as int),
{
    let pn = v2p[page_va as u64].page_number;
    let after = sealed_write(pages, v2p, aad, page_va, within, chunk, blind);
    assert(page_wf(page_at(pages, pn)));
    let base = if blind {
        zeros(PAGE_BUF_LEN as int)
    } else {
        match open_page(page_at(pages, pn), aad) {
            Some(p) => p,
            None => zeros(PAGE_BUF_LEN as int),
        }
    };
    assert(base.len() == PAGE_BUF_LEN);
    let laid = overlay(base, JOURNAL_WIDTH as int + within, chunk);
    lemma_bump_len(laid.subrange(0, JOURNAL_WIDTH as int));
    let sealed = journal_bumped(laid);
    assert(sealed.len() == PAGE_BUF_LEN);
    assert forall|n: u32| page_wf(#[trigger] page_at(after, n)) by {
        if n != pn {
            assert(page_wf(page_at(pages, n)));
        }
    }
    let got = sealed.subrange(JOURNAL_WIDTH + within, JOURNAL_WIDTH + within + chunk.len());
    assert(got =~= chunk);
}

/// Writing pages from `addr` on keeps the device sound and leaves every
/// virtual page that is not among them, and lies behind a physical page of
/// its own, as it is.
pub proof fn lemma_write_pages_frame(
    pages: Map<u32, PageView>,
    v2p: Map<u64, PhysPage>,
    aad: Seq<u8>,
    addr: int,
    data: Seq<u8>,
    first: int,
    count: int,
    other: u64,
)
    requires
        disk_wf(pages),
        span_mapped(v2p, first, count),
        0 <= first <= addr,
        addr + data.len() <= first + count * VPAGE_SIZE,
        first + count * VPAGE_SIZE <= u64::MAX + 1,
        (addr - first) % VPAGE_SIZE as int == 0,
        in_pages(first, count, other as int),
        other < addr,
    ensures
        disk_wf(write_pages(pages, v2p, aad, addr, data)),
        read_vpage(write_pages(pages, v2p, aad, addr, data), v2p, aad, other as int)
            == read_vpage(pages, v2p, aad, other as int),
    decreases data.len(),
{
    if data.len() > 0 {
        let n = if data.len() >= VPAGE_SIZE { VPAGE_SIZE as int } else { data.len() as int };
        let chunk = data.subrange(0, n);
        assert(in_pages(first, count, addr));
        lemma_sealed_write(pages, v2p, aad, addr, 0, chunk, n == VPAGE_SIZE);
        let next = sealed_write(pages, v2p, aad, addr, 0, chunk, n == VPAGE_SIZE);
        assert(v2p[other].page_number != v2p[addr as u64].page_number);
        let rest = data.subrange(n, data.len() as int);
        assert(write_pages(pages, v2p, aad, addr, data) == write_pages(
            next,
            v2p,
            aad,
            addr + VPAGE_SIZE,
            rest,
        ));
        if rest.len() > 0 {
            lemma_write_pages_frame(
                next,
                v2p,
                aad,
                addr + VPAGE_SIZE,
                rest,
                first,
                count,
                other,
            );
        } else {
            assert(write_pages(next, v2p, aad, addr + VPAGE_SIZE, rest) == next);
        }
    }
}

/// What was written page by page from a page boundary on is what reading
/// from there gives back.
pub proof fn lemma_write_pages_reads_back(
    pages: Map<u32, PageView>,
    v2p: Map<u64, PhysPage>,
    aad: Seq<u8>,
    addr: int,
    data: Seq<u8>,
    first: int,
    count: int,
)
    requires
        disk_wf(pages),
        span_mapped(v2p, first, count),
        0 <= first <= addr,
        addr + data.len() <= first + count * VPAGE_SIZE,
        first + count * VPAGE_SIZE <= u64::MAX + 1,
        (addr - first) % VPAGE_SIZE as int == 0,
        first % VPAGE_SIZE as int == 0,
    ensures
        read_large(write_pages(pages, v2p, aad, addr, data), v2p, aad, addr, data.len() as int)
            == Some(data),
    decreases data.len(),
{
    if data.len() == 0 {
        assert(data =~= Seq::<u8>::empty());
    } else {
        let n = if data.len() >= VPAGE_SIZE { VPAGE_SIZE as int } else { data.len() as int };
        let chunk = data.subrange(0, n);
        let rest = data.subrange(n, data.len() as int);
        assert(in_pages(first, count, addr));
        assert(addr % VPAGE_SIZE as int == 0);
        lemma_sealed_write(pages, v2p, aad, addr, 0, chunk, n == VPAGE_SIZE);
        let next = sealed_write(pages, v2p, aad, addr, 0, chunk, n == VPAGE_SIZE);
        let done = write_pages(next, v2p, aad, addr + VPAGE_SIZE, rest);
        assert(done == write_pages(pages, v2p, aad, addr, data));
        if rest.len() > 0 {
            lemma_write_pages_frame(
                next,
                v2p,
                aad,
                addr + VPAGE_SIZE,
                rest,
                first,
                count,
                addr as u64,
            );
            lemma_write_pages_reads_back(next, v2p, aad, addr + VPAGE_SIZE, rest, first, count);
        } else {
            assert(done == next);
            assert(read_large(done, v2p, aad, addr + n, 0) == Some(Seq::<u8>::empty()));
        }
        assert(read_chunk(done, v2p, aad, addr, 0, n) == Some(chunk));
        assert(chunk + rest =~= data);
    }
}

/// What a write to mapped pages wrote, from any address on, is what
/// reading from that address gives back, where each page that the write
/// touches has a physical page of its own.
pub proof fn law_large_write_reads_back(
    pages: Map<u32, PageView>,
    v2p: Map<u64, PhysPage>,
    aad: Seq<u8>,
    addr: int,
    data: Seq<u8>,
)
    requires
        disk_wf(pages),
        0 <= addr,
        addr + data.len() <= u64::MAX,
        span_mapped(v2p, vpage_floor(addr), span_count(addr, data.len() as int)),
    ensures
        read_large(write_large(pages, v2p, aad, addr, data), v2p, aad, addr, data.len() as int)
            == Some(data),
{
    let within = addr % VPAGE_SIZE as int;
    let first = vpage_floor(addr);
    let count = span_count(addr, data.len() as int);
    if within == 0 {
        lemma_write_pages_reads_back(pages, v2p, aad, addr, data, first, count);
    } else if data.len() == 0 {
        assert(data =~= Seq::<u8>::empty());
    } else {
        let room = VPAGE_SIZE - within;
        let n = if data.len() >= room { room } else { data.len() as int };
        let chunk = data.subrange(0, n);
        let rest = data.subrange(n, data.len() as int);
        assert(in_pages(first, count, first));
        lemma_sealed_write(pages, v2p, aad, first, within, chunk, false);
        let next = sealed_write(pages, v2p, aad, first, within, chunk, false);
        let done = write_pages(next, v2p, aad, first + VPAGE_SIZE, rest);
        assert(done == write_large(pages, v2p, aad, addr, data));
        if rest.len() > 0 {
            lemma_write_pages_frame(
                next,
                v2p,
                aad,
                first + VPAGE_SIZE,
                rest,
                first,
                count,
                first as u64,
            );
            lemma_write_pages_reads_back(next, v2p, aad, first + VPAGE_SIZE, rest, first, count);
        } else {
            assert(done == next);
            assert(read_large(done, v2p, aad, addr + n, 0) == Some(Seq::<u8>::empty()));
        }
        assert(read_chunk(done, v2p, aad, first, within, n) == Some(chunk));
        assert(chunk + rest =~= data);
    }
}

/// Whether two page maps agree on virtual page `va`.
pub open spec fn same_at(a: Map<u64, PhysPage>, b: Map<u64, PhysPage>, va: u64) -> bool {
    a.contains_key(va) == b.contains_key(va) && (a.contains_key(va) ==> a[va] == b[va])
}

/// Reading from `addr` on gives the same under two page maps that agree
/// on the pages that the read touches.
pub proof fn lemma_read_large_frame(
    pages: Map<u32, PageView>,
    v2p: Map<u64, PhysPage>,
    other: Map<u64, PhysPage>,
    aad: Seq<u8>,
    addr: int,
    len: int,
)
    requires
        0 <= addr,
        addr + len <= u64::MAX,
        forall|va: u64| vpage_floor(addr) <= va < addr + len ==> #[trigger] same_at(other, v2p, va),
    ensures
        read_large(pages, other, aad, addr, len) == read_large(pages, v2p, aad, addr, len),
    decreases len,
{
    if len > 0 {
        let within = addr % VPAGE_SIZE as int;
        let room = VPAGE_SIZE - within;
        let n = if len >= room { room } else { len };
        let page_va = (addr - within) as u64;
        assert(same_at(other, v2p, page_va));
        assert(read_vpage(pages, other, aad, addr - within) == read_vpage(
            pages,
            v2p,
            aad,
            addr - within,
        ));
        assert forall|va: u64|
            vpage_floor(addr + n) <= va < addr + n + (len - n) implies #[trigger] same_at(
            other,
            v2p,
            va,
        ) by {
            assert(vpage_floor(addr) <= va < addr + len);
        }
        lemma_read_large_frame(pages, v2p, other, aad, addr + n, len - n);
    }
}

/// A key that was created in the large pool reads back as it was written.
/// Where the creation of the key `name` with `data` at offset 0 goes through
/// and takes the key to the large pool, and the free pages that it takes
/// are different pages, reading the length of the data from the key's
/// address on gives the data.
pub proof fn law_round_trip_large(
    w: World,
    name: Seq<char>,
    data: Seq<u8>,
    hint: int,
    truncate: bool,
    ptr: int,
)
    requires
        dict_inv(w.dict),
        disk_wf(w.pages),
        !live(w.dict.keys, name),
        0 <= hint,
        ptr >= LARGE_POOL_START,
        ptr % VPAGE_SIZE as int == 0,
        forall|va: u64| va >= ptr ==> !w.v2p.contains_key(va),
        !small_fits(w.dict.small_pool, data.len() as int, hint),
        create_error(w, data.len() as int, 0, hint, ptr) is None,
        forall|a: int, b: int|
            w.fast_space.len() - large_reservation(data.len() as int, hint) / VPAGE_SIZE as int
                <= a < b < w.fast_space.len() ==> (#[trigger] w.fast_space[a]).page_number != (
            #[trigger] w.fast_space[b]).page_number,
    ensures
        ({
            let after = created(w, name, data, 0, hint, truncate, ptr);
            &&& live(after.dict.keys, name)
            &&& after.dict.keys[name].start == ptr
            &&& after.dict.keys[name].len == data.len()
            &&& read_large(after.pages, after.v2p, after.dict.aad, ptr, data.len() as int) == Some(
                data,
            )
        }),
{
    let v = touched(w.dict);
    let need = data.len() as int;
    let reservation = large_reservation(need, hint);
    let count = reservation / VPAGE_SIZE as int;
    let mapped = fresh_mapped(w.v2p, w.fast_space, ptr, count);
    let made = World {
        dict: large_created(v, name, need, reservation, ptr),
        v2p: mapped,
        pages: w.pages,
        fast_space: w.fast_space.subrange(0, w.fast_space.len() - count),
    };
    let after = write_existing(made, name, data, 0, truncate);
    assert(after == created(w, name, data, 0, hint, truncate, ptr));
    let e = touched(made.dict).keys[name];
    assert(e == crate::update_spec::new_large_entry(
        ptr,
        need,
        reservation,
        crate::update_spec::min_free(v.free_keys),
    ));
    assert(!is_small(e, v.index));
    let span = span_count(ptr, need);
    assert(vpage_floor(ptr) == ptr);
    assert(span <= count);
    assert forall|va: u64| in_pages(ptr, span, va as int) implies #[trigger] mapped.contains_key(
        va,
    ) by {
        assert(in_pages(ptr, count, va as int));
    }
    assert forall|a: u64, b: u64|
        in_pages(ptr, span, a as int) && in_pages(ptr, span, b as int) && a != b implies (
    #[trigger] mapped[a]).page_number != (#[trigger] mapped[b]).page_number by {
        assert(in_pages(ptr, count, a as int));
        assert(in_pages(ptr, count, b as int));
        let ia = w.fast_space.len() - 1 - (a - ptr) / VPAGE_SIZE as int;
        let ib = w.fast_space.len() - 1 - (b - ptr) / VPAGE_SIZE as int;
        assert(ia != ib);
        if ia < ib {
            assert(w.fast_space[ia].page_number != w.fast_space[ib].page_number);
        } else {
            assert(w.fast_space[ib].page_number != w.fast_space[ia].page_number);
        }
    }
    law_large_write_reads_back(w.pages, mapped, v.aad, ptr, data);
    assert forall|va: u64| vpage_floor(ptr) <= va < ptr + need implies #[trigger] same_at(
        after.v2p,
        mapped,
        va,
    ) by {}
    lemma_read_large_frame(after.pages, mapped, after.v2p, v.aad, ptr, need);
}

/// What a write into a live large key wrote is what reading the key from
/// the offset of the write gives back, where each page that the write
/// touches has a physical page of its own.
pub proof fn law_put_reads_back_large(
    w: World,
    name: Seq<char>,
    data: Seq<u8>,
    offset: int,
    truncate: bool,
)
    requires
        dict_inv(w.dict),
        disk_wf(w.pages),
        live(w.dict.keys, name),
        !is_small(w.dict.keys[name], w.dict.index),
        0 <= offset,
        offset + data.len() <= w.dict.keys[name].reserved,
        span_mapped(
            w.v2p,
            vpage_floor(w.dict.keys[name].start + offset),
            span_count(w.dict.keys[name].start + offset, data.len() as int),
        ),
    ensures
        ({
            let after = write_existing(w, name, data, offset, truncate);
            &&& live(after.dict.keys, name)
            &&& after.dict.keys[name].start == w.dict.keys[name].start
            &&& after.dict.keys[name].len >= offset + data.len()
            &&& read_large(
                after.pages,
                after.v2p,
                after.dict.aad,
                after.dict.keys[name].start + offset,
                data.len() as int,
            ) == Some(data)
        }),
{
    let e = w.dict.keys[name];
    assert(crate::dict_spec::key_inv(w.dict, name));
    let addr = e.start + offset;
    let after = write_existing(w, name, data, offset, truncate);
    law_large_write_reads_back(w.pages, w.v2p, w.dict.aad, addr, data);
    assert forall|va: u64| vpage_floor(addr) <= va < addr + data.len() implies #[trigger] same_at(
        after.v2p,
        w.v2p,
        va,
    ) by {}
    lemma_read_large_frame(after.pages, w.v2p, after.v2p, w.dict.aad, addr, data.len() as int);
}

} // verus!
