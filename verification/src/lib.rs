//! Physical and virtual memory management for early kernel bring-up:
//! a tracker for free physical byte ranges, a frame-allocator capability
//! over it, a typed model of 4-level page tables, and a walker that
//! translates and establishes virtual-to-physical mappings.
//!
//! Boot-console text rendering and the byte-layout readers for PE images
//! and FAT32 volumes live in their own modules around that core.

pub mod addr;
pub mod boot;
pub mod bytes;
pub mod fat;
pub mod frames;
pub mod paging;
pub mod pe;
pub mod tracker;
pub mod vga;

use vstd::prelude::*;

verus! {

/// Size and alignment, in bytes, of one physical frame and one virtual page.
pub const PAGE_SIZE: u64 = 4096;

} // verus!
