//! A read-only archive-view filesystem core: a page-managed read cache that
//! turns forward-streaming archive decoders into random-access readers, with
//! the page allocator, LRU eviction, weak/strong page references, the
//! per-member loading state machine, and the archive directory view.

use vstd::prelude::*;

pub mod archive;
pub mod buffer;
pub mod buffered;
pub mod fs;
pub mod link;
pub mod memfile;
pub mod page;
pub mod reader;
pub mod wrapper;

verus! {

/// The fixed allocation unit of the arena, in bytes.
pub const PAGE_SIZE: usize = 4096;

} // verus!
