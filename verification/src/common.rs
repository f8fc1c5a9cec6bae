use vstd::prelude::*;

verus! {

/// Size in bytes of every page, on disk and in memory.
pub const PAGE_SIZE: usize = 8192;

/// Size in bytes of the fixed page header (id, slot count, free-space bounds).
pub const HEADER_SIZE: usize = 10;

/// Size in bytes of one entry of the slot array (tuple size, tuple offset).
pub const SLOT_SIZE: usize = 4;

/// Identifier of a page: its index in the database file.
#[derive(Debug, Clone, Copy, PartialEq, Eq, Hash, Structural)]
pub struct PageId(pub u32);

} // verus!
