//! Physical and virtual addresses, frames and pages.
//!
//! A frame is one 4096-byte unit of physical memory, named by its index
//! (`address / 4096`). A page is the virtual counterpart; its address must
//! be canonical: below `0x0000_8000_0000_0000` or at or above
//! `0xffff_8000_0000_0000`.

use vstd::prelude::*;

verus! {

use crate::PAGE_SIZE;

/// Lowest non-canonical virtual address: the canonical low half ends here.
pub const CANONICAL_LOW_END: u64 = 0x0000_8000_0000_0000;

/// First virtual address of the canonical high half.
pub const CANONICAL_HIGH_START: u64 = 0xffff_8000_0000_0000;

/// A virtual address is canonical when its high bits are a sign extension
/// of bit 47.
pub open spec fn canonical_address(address: u64) -> bool {
    address < CANONICAL_LOW_END || address >= CANONICAL_HIGH_START
}

/// A page number is canonical when every byte address inside the page is.
pub open spec fn canonical_page(number: u64) -> bool {
    canonical_address((number * PAGE_SIZE) as u64) && number * PAGE_SIZE + PAGE_SIZE - 1
        <= u64::MAX
}

#[derive(Copy, Clone, Debug, PartialEq, Eq, Structural)]
pub struct VirtualAddress(pub u64);

#[derive(Copy, Clone, Debug, PartialEq, Eq, Structural)]
pub struct PhysicalAddress(pub u64);

/// One physical page, named by its page-aligned index (`address / 4096`).
#[derive(Copy, Clone, Debug, PartialEq, Eq, Structural)]
pub struct PhysicalFrame(pub u64);

impl VirtualAddress {
    /// True exactly when the address is canonical.
    pub fn is_canonical(&self) -> (r: bool)
        ensures
            r == canonical_address(self.0),
    {
        self.0 < CANONICAL_LOW_END || self.0 >= CANONICAL_HIGH_START
    }
}

impl PhysicalFrame {
    /// The frame that holds the given physical address.
    pub fn containing_address(address: PhysicalAddress) -> (r: Self)
        ensures
            r.0 == address.0 / PAGE_SIZE,
    {
        Self(address.0 / PAGE_SIZE)
    }
}

/// One virtual page, named by its page-aligned index (`address / 4096`).
/// Only canonical addresses name pages; the nine-bit slices of the page
/// number select the entry at each of the four table levels.
#[derive(Copy, Clone, Debug, PartialEq, Eq, Structural)]
pub struct Page(pub u64);

/// Entry selected at the root (level 4) table: bits 39 to 47 of the address.
pub open spec fn page_p4_index(number: u64) -> int {
    (number as int / (512int * 512 * 512)) % 512
}

/// Entry selected at the level 3 table: bits 30 to 38 of the address.
pub open spec fn page_p3_index(number: u64) -> int {
    (number as int / (512int * 512)) % 512
}

/// Entry selected at the level 2 table: bits 21 to 29 of the address.
pub open spec fn page_p2_index(number: u64) -> int {
    (number as int / 512) % 512
}

/// Entry selected at the level 1 table: bits 12 to 20 of the address.
pub open spec fn page_p1_index(number: u64) -> int {
    (number as int) % 512
}

impl Page {
    /// The page that holds the given virtual address. Only canonical
    /// addresses name pages; a non-canonical argument is a caller error.
    pub fn containing_address(address: VirtualAddress) -> (r: Self)
        requires
            canonical_address(address.0),
        ensures
            r.0 == address.0 / PAGE_SIZE,
            canonical_page(r.0),
    {
        proof {
            lemma_canonical_page_of_address(address.0);
        }
        Page(address.0 / PAGE_SIZE)
    }

    pub fn p4_index(&self) -> (r: usize)
        ensures
            r == page_p4_index(self.0),
            r < 512,
    {
        proof {
            lemma_page_index_shifts(self.0);
        }
        ((self.0 >> 27) & 0x1ff) as usize
    }

    pub fn p3_index(&self) -> (r: usize)
        ensures
            r == page_p3_index(self.0),
            r < 512,
    {
        proof {
            lemma_page_index_shifts(self.0);
        }
        ((self.0 >> 18) & 0x1ff) as usize
    }

    pub fn p2_index(&self) -> (r: usize)
        ensures
            r == page_p2_index(self.0),
            r < 512,
    {
        proof {
            lemma_page_index_shifts(self.0);
        }
        ((self.0 >> 9) & 0x1ff) as usize
    }

    pub fn p1_index(&self) -> (r: usize)
        ensures
            r == page_p1_index(self.0),
            r < 512,
    {
        proof {
            lemma_page_index_shifts(self.0);
        }
        (self.0 & 0x1ff) as usize
    }
}

/// The shift-and-mask reads of the four nine-bit page-number slices agree
/// with their arithmetic definitions.
proof fn lemma_page_index_shifts(number: u64)
    ensures
        ((number >> 27) & 0x1ff) as int == page_p4_index(number),
        ((number >> 18) & 0x1ff) as int == page_p3_index(number),
        ((number >> 9) & 0x1ff) as int == page_p2_index(number),
        (number & 0x1ff) as int == page_p1_index(number),
        ((number >> 27) & 0x1ff) < 512,
        ((number >> 18) & 0x1ff) < 512,
        ((number >> 9) & 0x1ff) < 512,
        (number & 0x1ff) < 512,
{
    assert(((number >> 27) & 0x1ff) == (number / 0x8000000) % 512 && ((number >> 18) & 0x1ff) == (
    number / 0x40000) % 512 && ((number >> 9) & 0x1ff) == (number / 0x200) % 512 && (number & 0x1ff)
        == number % 512 && ((number >> 27) & 0x1ff) < 512 && ((number >> 18) & 0x1ff) < 512 && ((
    number >> 9) & 0x1ff) < 512 && (number & 0x1ff) < 512) by (bit_vector);
}

/// Truncating an address to its page keeps it canonical: both canonical
/// bounds are page-aligned.
proof fn lemma_canonical_page_of_address(address: u64)
    requires
        canonical_address(address),
    ensures
        canonical_page(address / PAGE_SIZE),
{
    let number = address / PAGE_SIZE;
    assert(number * PAGE_SIZE <= address < number * PAGE_SIZE + PAGE_SIZE) by (nonlinear_arith)
        requires
            number == address / PAGE_SIZE && PAGE_SIZE == 4096,
    ;
    if address >= CANONICAL_HIGH_START {
        assert(number >= CANONICAL_HIGH_START / PAGE_SIZE) by (nonlinear_arith)
            requires
                number * PAGE_SIZE + PAGE_SIZE > address && address >= CANONICAL_HIGH_START
                    && PAGE_SIZE == 4096 && CANONICAL_HIGH_START == 0xffff_8000_0000_0000,
        ;
    }
}

/// Two canonical pages with the same four table indices are the same page:
/// the indices fix the low 36 bits of the page number, and canonicality
/// fixes all the bits above them.
pub proof fn lemma_canonical_page_indices(p: u64, q: u64)
    requires
        canonical_page(p),
        canonical_page(q),
        page_p4_index(p) == page_p4_index(q),
        page_p3_index(p) == page_p3_index(q),
        page_p2_index(p) == page_p2_index(q),
        page_p1_index(p) == page_p1_index(q),
    ensures
        p == q,
{
    lemma_canonical_page_bounds(p);
    lemma_canonical_page_bounds(q);
    assert((p / 0x800_0000) % 512 == (q / 0x800_0000) % 512);
    assert((p / 0x4_0000) % 512 == (q / 0x4_0000) % 512);
    assert((p / 512) % 512 == (q / 512) % 512);
    assert(p % 512 == q % 512);
    assert(p == q) by (bit_vector)
        requires
            (p / 0x800_0000) % 512 == (q / 0x800_0000) % 512,
            (p / 0x4_0000) % 512 == (q / 0x4_0000) % 512,
            (p / 512) % 512 == (q / 512) % 512,
            p % 512 == q % 512,
            p < 0x8_0000_0000 || (0xf_fff8_0000_0000 <= p && p < 0x10_0000_0000_0000),
            q < 0x8_0000_0000 || (0xf_fff8_0000_0000 <= q && q < 0x10_0000_0000_0000),
    ;
}

/// The page numbers a canonical page can have: below the low half's end,
/// or within the high half, and always inside the 52-bit physical range.
proof fn lemma_canonical_page_bounds(p: u64)
    requires
        canonical_page(p),
    ensures
        p < 0x8_0000_0000 || (0xf_fff8_0000_0000 <= p && p < 0x10_0000_0000_0000),
{
    assert((p * PAGE_SIZE) as u64 == p * PAGE_SIZE);
    if p * PAGE_SIZE < CANONICAL_LOW_END {
        assert(p < 0x8_0000_0000) by (nonlinear_arith)
            requires
                p * 4096 < 0x0000_8000_0000_0000,
        ;
    } else {
        assert(0xf_fff8_0000_0000 <= p) by (nonlinear_arith)
            requires
                p * 4096 >= 0xffff_8000_0000_0000,
        ;
        assert(p < 0x10_0000_0000_0000) by (nonlinear_arith)
            requires
                p * 4096 + 4095 <= 0xffff_ffff_ffff_ffff,
        ;
    }
}

/// Every byte address inside a canonical page is canonical.
pub proof fn lemma_canonical_page_addresses(number: u64, offset: u64)
    requires
        canonical_page(number),
        offset < PAGE_SIZE,
    ensures
        canonical_address((number * PAGE_SIZE + offset) as u64),
{
    if number * PAGE_SIZE >= CANONICAL_HIGH_START {
    } else {
        assert(number * PAGE_SIZE + PAGE_SIZE <= CANONICAL_LOW_END) by (nonlinear_arith)
            requires
                number * PAGE_SIZE < CANONICAL_LOW_END && PAGE_SIZE == 4096 && CANONICAL_LOW_END
                    == 0x0000_8000_0000_0000,
        ;
    }
}

} // verus!
