//! The disk manager: the interface a paged database file offers, and the
//! page-allocation state behind it (which page id the next allocation hands
//! out), including how that state is recovered from the length of an
//! existing file.
use crate::common::{PageId, PAGE_SIZE};
use vstd::prelude::*;

verus! {

/// `std::io::Error`, carried through the disk manager's results unexamined.
#[verifier::external_type_specification]
#[verifier::external_body]
pub struct ExIoError(std::io::Error);

/// Reads and writes whole pages of a database file by page id.
pub trait DiskManager {
    /// Hands out the id of a page that was not handed out before.
    fn allocate_page(&mut self) -> PageId;

    /// Reads the page `p`.
    fn read_page(&self, p: PageId) -> std::io::Result<[u8; PAGE_SIZE]>;

    /// Writes `buf` as the page `p`.
    fn write_page(&mut self, p: PageId, buf: &[u8; PAGE_SIZE]) -> std::io::Result<()>;
}

/// Number of whole pages in a file of `len` bytes, as a page id (taken
/// modulo 2^32, as the conversion to `u32` does).
pub open spec fn spec_page_of_file_len(len: u64) -> int {
    (len / 8192) as int % 0x1_0000_0000
}

/// The page id that a file of `len` bytes resumes at starts no later than
/// the end of the file; and when the file has fewer than 2^32 whole pages it
/// is exactly the number of whole pages: page `p` starts within the file
/// for every `p` below it, and at or after its end for every `p` from it on.
pub proof fn law_page_of_file_len_bounds(len: u64)
    ensures
        0 <= spec_page_of_file_len(len),
        spec_page_of_file_len(len) * PAGE_SIZE <= len,
        len < 0x1_0000_0000 * PAGE_SIZE ==> len < (spec_page_of_file_len(len) + 1) * PAGE_SIZE,
{
}

impl PageId {
    /// The id of the first page after the whole pages of a file of `v` bytes.
    pub fn from_file_len(v: u64) -> (p: PageId)
        ensures
            p.0 == spec_page_of_file_len(v),
            p.0 * PAGE_SIZE <= v,
            v < 0x1_0000_0000 * PAGE_SIZE ==> v < (p.0 + 1) * PAGE_SIZE,
    {
        let pages = v / PAGE_SIZE as u64;
        assert(pages as u32 == pages % 0x1_0000_0000) by (bit_vector);
        proof {
            law_page_of_file_len_bounds(v);
        }
        PageId(pages as u32)
    }
}

/// Byte offset of page `p` in the database file.
pub fn offset(p: PageId) -> (off: usize)
    requires
        p.0 * PAGE_SIZE <= usize::MAX,
    ensures
        off == p.0 * PAGE_SIZE,
{
    p.0 as usize * PAGE_SIZE
}

/// The allocation state of a disk manager: the id the next allocation
/// hands out. Ids are handed out in increasing order, one at a time.
pub struct PageAllocator {
    next_page: PageId,
}

impl PageAllocator {
    /// The id the next allocation hands out.
    pub closed spec fn next(&self) -> u32 {
        self.next_page.0
    }

    /// The state of a new, empty database file: allocation starts at page 0.
    pub fn new() -> (a: PageAllocator)
        ensures
            a.next() == 0,
    {
        PageAllocator { next_page: PageId(0) }
    }

    /// The state of an existing database file of `file_len` bytes:
    /// allocation continues after its last whole page.
    pub fn open(file_len: u64) -> (a: PageAllocator)
        ensures
            a.next() == spec_page_of_file_len(file_len),
            a.next() * PAGE_SIZE <= file_len,
            file_len < 0x1_0000_0000 * PAGE_SIZE ==> file_len < (a.next() + 1) * PAGE_SIZE,
    {
        let a = PageAllocator { next_page: PageId::from_file_len(file_len) };
        a
    }

    /// The id the next allocation hands out.
    pub fn next_page(&self) -> (p: PageId)
        ensures
            p.0 == self.next(),
    {
        self.next_page
    }

    /// Hands out the next page id and moves past it.
    pub fn allocate_page(&mut self) -> (p: PageId)
        requires
            old(self).next() < u32::MAX,
        ensures
            p.0 == old(self).next(),
            final(self).next() == old(self).next() + 1,
    {
        let p = PageId(self.next_page.0);
        self.next_page.0 = self.next_page.0 + 1;
        p
    }
}

} // verus!
