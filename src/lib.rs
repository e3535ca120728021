//! A demand-paging address translator: a FIFO translation cache in front of a
//! page table whose frames are filled from a backing store and evicted in FIFO
//! order.

pub mod memory;
pub mod page_table;
pub mod tally;

use vstd::prelude::*;

verus! {

/// Bytes in a page, and in a frame.
pub const PAGE_SIZE: usize = 256;

/// Distinct pages in the 16-bit virtual address space.
pub const NUM_PAGES: usize = 256;

/// Frames of physical memory in the default configuration.
pub const NUM_FRAMES: usize = 128;

/// Entries the translation cache holds at most.
pub const TLB_ENTRIES: usize = 16;

/// Bytes a backing store must hold: one page for each page number.
pub const BACKING_STORE_SIZE: usize = 65536;

} // verus!
