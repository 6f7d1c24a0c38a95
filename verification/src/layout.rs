//! Address geometry of a basis: page sizes, the descriptor table, the small
//! pool and the large pool.

use vstd::prelude::*;

verus! {

/// Bytes of key data that one virtual page addresses.
pub const VPAGE_SIZE: usize = 4096;

/// Width of the journal counter that heads every plaintext page.
pub const JOURNAL_WIDTH: usize = 16;

/// The virtual page size as a 64-bit address step.
pub const VPAGE_STEP: u64 = 4096;

/// Length of a plaintext page buffer: the journal counter, then the data.
pub const PAGE_BUF_LEN: usize = 4112;

/// Length of a raw physical page.
pub const PAGE_SIZE: usize = 4140;

/// Bytes that one small-pool slot can hold.
pub const SMALL_CAPACITY: usize = 4080;

/// The capacity of a small-pool slot as a 64-bit address step.
pub const SMALL_SLOT_STEP: u64 = 4080;

/// Stride of one descriptor inside a descriptor page.
pub const DK_STRIDE: usize = 127;

/// Descriptors per descriptor page.
pub const DK_PER_VPAGE: usize = 32;

/// Highest descriptor index of a dictionary.
pub const KEY_MAXCOUNT: usize = 131071;

/// Number of dictionaries that the address space has room for.
pub const DICT_MAXCOUNT: usize = 16383;

/// Width of a key's name field on disk.
pub const KEY_NAME_LEN: usize = 95;

/// Width of a dictionary's name field on disk.
pub const DICT_NAME_LEN: usize = 111;

/// Virtual stride of one dictionary's descriptor table.
pub const DICT_VSIZE: u64 = 0x100_0000;

/// First virtual address of the small pool.
pub const SMALL_POOL_START: u64 = 0x40_0000_0000;

/// Virtual stride of one dictionary's share of the small pool.
pub const SMALL_POOL_STRIDE: u64 = 0x100_0000;

/// One past the last virtual address of the small pool.
pub const SMALL_POOL_END: u64 = 0x80_0000_0000;

/// First virtual address of the large pool.
pub const LARGE_POOL_START: u64 = 0x80_0000_0000;

/// Number of small-pool slots that fit in one dictionary's stride.
pub const SMALL_POOL_SLOTS: usize = 4112;

/// Virtual address of the descriptor page that holds descriptor `entry` of
/// dictionary `dict_index`.
pub open spec fn descriptor_page_vaddr(dict_index: int, entry: int) -> int {
    dict_index * DICT_VSIZE as int + (entry / DK_PER_VPAGE as int) * VPAGE_SIZE as int
}

/// Offset of descriptor `entry` inside its plaintext page buffer.
pub open spec fn descriptor_offset(entry: int) -> int {
    JOURNAL_WIDTH as int + (entry % DK_PER_VPAGE as int) * DK_STRIDE as int
}

/// First virtual address of the small pool of dictionary `dict_index`.
pub open spec fn small_pool_base(dict_index: int) -> int {
    SMALL_POOL_START as int + dict_index * SMALL_POOL_STRIDE as int
}

/// Virtual address of slot `slot` of the small pool of dictionary `dict_index`.
pub open spec fn small_slot_vaddr(dict_index: int, slot: int) -> int {
    small_pool_base(dict_index) + slot * SMALL_CAPACITY as int
}

/// The least multiple of the virtual page size that is not below `x`.
pub open spec fn round_up_to_vpage(x: int) -> int {
    ((x + VPAGE_SIZE as int - 1) / VPAGE_SIZE as int) * VPAGE_SIZE as int
}

/// Start of the virtual page that holds address `x`.
pub open spec fn vpage_floor(x: int) -> int {
    (x / VPAGE_SIZE as int) * VPAGE_SIZE as int
}

/// Whether a key at `start` with `reserved` bytes lies in the small pool of
/// dictionary `dict_index`.
pub open spec fn in_small_pool(start: int, reserved: int, dict_index: int) -> bool {
    small_pool_base(dict_index) <= start && start + reserved < small_pool_base(dict_index)
        + SMALL_POOL_STRIDE as int
}

/// Slot of the small pool that address `start` falls into.
pub open spec fn small_slot_of(start: int, dict_index: int) -> int {
    (start - small_pool_base(dict_index)) / SMALL_CAPACITY as int
}

/// Computes `descriptor_page_vaddr`.
pub fn descriptor_page_address(dict_index: u32, entry: usize) -> (vaddr: u64)
    requires
        entry <= KEY_MAXCOUNT,
    ensures
        vaddr == descriptor_page_vaddr(dict_index as int, entry as int),
{
    let page: u64 = (entry / DK_PER_VPAGE) as u64;
    dict_index as u64 * DICT_VSIZE + page * VPAGE_STEP
}

/// Computes `small_slot_vaddr`.
pub fn small_slot_address(dict_index: u32, slot: usize) -> (vaddr: u64)
    requires
        slot < SMALL_POOL_SLOTS,
    ensures
        vaddr == small_slot_vaddr(dict_index as int, slot as int),
{
    SMALL_POOL_START + dict_index as u64 * SMALL_POOL_STRIDE + slot as u64 * SMALL_SLOT_STEP
}

/// A virtual address that is a multiple of the virtual page size.
#[derive(Clone, Copy, Debug)]
pub struct PageAlignedVa {
    va: u64,
}

impl PageAlignedVa {
    /// The address as an integer.
    pub closed spec fn value(self) -> int {
        self.va as int
    }

    #[verifier::type_invariant]
    spec fn aligned(self) -> bool {
        self.va as int % VPAGE_SIZE as int == 0
    }

    /// Rounds `x` up to the next page boundary; `None` where that boundary
    /// does not fit in 64 bits.
    pub fn from_u64(x: u64) -> (r: Option<PageAlignedVa>)
        ensures
            r is Some <==> round_up_to_vpage(x as int) <= u64::MAX,
            r matches Some(a) ==> a.value() == round_up_to_vpage(x as int),
    {
        let rem: u64 = x % VPAGE_STEP;
        if rem == 0 {
            Some(PageAlignedVa { va: x })
        } else {
            let pad: u64 = VPAGE_STEP - rem;
            if x > u64::MAX - pad {
                None
            } else {
                Some(PageAlignedVa { va: x + pad })
            }
        }
    }

    /// The address as a `u64`.
    pub fn as_u64(&self) -> (r: u64)
        ensures
            r == self.value(),
            r as int % VPAGE_SIZE as int == 0,
    {
        proof {
            use_type_invariant(self);
        }
        self.va
    }
}

} // verus!


verus! {

/// The slot of a key in the small pool of a dictionary starts at or below
/// the key's address and ends above it.
pub proof fn lemma_small_slot_bounds(start: int, reserved: int, dict_index: int)
    requires
        in_small_pool(start, reserved, dict_index),
        0 <= reserved,
    ensures
        0 <= small_slot_of(start, dict_index) <= SMALL_POOL_SLOTS,
        small_slot_vaddr(dict_index, small_slot_of(start, dict_index)) <= start,
        start < small_slot_vaddr(dict_index, small_slot_of(start, dict_index)) + SMALL_CAPACITY,
{
}

} // verus!
