use storage::common::{PageId, HEADER_SIZE, PAGE_SIZE, SLOT_SIZE};
use storage::disk_manager::{offset, PageAllocator};
use storage::page::Page;

fn read_u16(buf: &[u8], offset: usize) -> u16 {
    u16::from_le_bytes([buf[offset], buf[offset + 1]])
}

fn num_slots(buf: &[u8]) -> u16 {
    read_u16(buf, 4)
}

fn free_start(buf: &[u8]) -> u16 {
    read_u16(buf, 6)
}

fn free_end(buf: &[u8]) -> u16 {
    read_u16(buf, 8)
}

fn slot_offset(buf: &[u8], i: usize) -> u16 {
    read_u16(buf, HEADER_SIZE + i * SLOT_SIZE + 2)
}

#[test]
fn new_page_sets_free_space_bounds_only() {
    let buf = &mut [0xEEu8; PAGE_SIZE];
    buf[4] = 0;
    buf[5] = 0;
    {
        let _page = Page::new(buf);
    }
    assert_eq!(num_slots(buf), 0);
    assert_eq!(free_start(buf), HEADER_SIZE as u16);
    assert_eq!(free_end(buf), PAGE_SIZE as u16);
    // The page id and everything after the header are left as they were.
    assert_eq!(&buf[0..4], &[0xEE; 4]);
    assert!(buf[HEADER_SIZE..].iter().all(|&b| b == 0xEE));
}

#[test]
fn read_returns_what_insert_stored() {
    let buf = &mut [0u8; PAGE_SIZE];
    let mut page = Page::new(buf);
    let a = page.insert(b"first").unwrap();
    let b = page.insert(b"").unwrap();
    let c = page.insert(b"third tuple").unwrap();
    assert_eq!((a, b, c), (0, 1, 2));
    assert_eq!(page.read(a).unwrap(), b"first");
    assert_eq!(page.read(b).unwrap(), b"");
    assert_eq!(page.read(c).unwrap(), b"third tuple");
}

#[test]
fn insert_places_tuple_below_free_end() {
    let buf = &mut [0u8; PAGE_SIZE];
    {
        let mut page = Page::new(buf);
        page.insert(b"xy").unwrap();
        page.insert(b"abc").unwrap();
    }
    assert_eq!(&buf[PAGE_SIZE - 2..], b"xy");
    assert_eq!(&buf[PAGE_SIZE - 5..PAGE_SIZE - 2], b"abc");
    assert_eq!(num_slots(buf), 2);
    assert_eq!(free_start(buf), (HEADER_SIZE + 2 * SLOT_SIZE) as u16);
    assert_eq!(free_end(buf), (PAGE_SIZE - 5) as u16);
    assert_eq!(slot_offset(buf, 0), (PAGE_SIZE - 2) as u16);
    assert_eq!(slot_offset(buf, 1), (PAGE_SIZE - 5) as u16);
}

#[test]
fn delete_then_read_gives_none_and_keeps_other_slots() {
    let buf = &mut [0u8; PAGE_SIZE];
    let mut page = Page::new(buf);
    let a = page.insert(b"a").unwrap();
    let b = page.insert(b"b").unwrap();
    page.delete(a);
    assert_eq!(page.read(a), None);
    assert_eq!(page.read(b).unwrap(), b"b");
    // Deleting only marks the slot: the next insert gets a new index.
    assert_eq!(page.insert(b"c"), Some(2));
}

#[test]
fn insert_does_not_compact_while_free_space_suffices() {
    let buf = &mut [0u8; PAGE_SIZE];
    {
        let mut page = Page::new(buf);
        let a = page.insert(b"aaaa").unwrap();
        page.insert(b"bbbb").unwrap();
        page.delete(a);
        page.insert(b"cccc").unwrap();
    }
    // The deleted tuple's bytes are still in place, and the live ones did not move.
    assert_eq!(&buf[PAGE_SIZE - 4..], b"aaaa");
    assert_eq!(slot_offset(buf, 1), (PAGE_SIZE - 8) as u16);
    assert_eq!(slot_offset(buf, 2), (PAGE_SIZE - 12) as u16);
    assert_eq!(free_end(buf), (PAGE_SIZE - 12) as u16);
}

#[test]
fn compaction_leaves_all_free_space_in_one_piece() {
    let buf = &mut [0u8; PAGE_SIZE];
    {
        let mut page = Page::new(buf);
        let a = page.insert(&[1; 100]).unwrap();
        page.insert(&[2; 50]).unwrap();
        let c = page.insert(&[3; 30]).unwrap();
        page.insert(&[4; 7]).unwrap();
        page.delete(a);
        page.delete(c);
        page.compact();
    }
    // Free space is all the page minus header, four slots and 57 live bytes.
    let free = free_end(buf) as usize - free_start(buf) as usize;
    assert_eq!(free, PAGE_SIZE - HEADER_SIZE - 4 * SLOT_SIZE - 57);
    assert_eq!(&buf[PAGE_SIZE - 50..], &[2; 50][..]);
    assert_eq!(&buf[PAGE_SIZE - 57..PAGE_SIZE - 50], &[4; 7][..]);
    assert_eq!(slot_offset(buf, 0), 0);
    assert_eq!(slot_offset(buf, 2), 0);
}

fn build_and_compact(buf: &mut [u8; PAGE_SIZE], times: usize) {
    let mut page = Page::new(buf);
    let a = page.insert(b"one").unwrap();
    page.insert(b"two").unwrap();
    page.insert(b"three").unwrap();
    page.delete(a);
    for _ in 0..times {
        page.compact();
    }
}

#[test]
fn compaction_is_idempotent() {
    let once = &mut [0u8; PAGE_SIZE];
    let twice = &mut [0u8; PAGE_SIZE];
    build_and_compact(once, 1);
    build_and_compact(twice, 2);
    assert_eq!(&once[..], &twice[..]);
    assert_eq!(free_end(once), (PAGE_SIZE - 8) as u16);
}

#[test]
fn insert_compacts_when_only_fragmented_space_is_left() {
    let buf = &mut [0u8; PAGE_SIZE];
    let mut page = Page::new(buf);
    let half = (PAGE_SIZE - HEADER_SIZE) / 2 - SLOT_SIZE;
    let a = page.insert(&vec![1; half]).unwrap();
    let b = page.insert(&vec![2; half - 8]).unwrap();
    page.delete(a);
    // Not enough contiguous free space, but enough after compaction.
    let c = page.insert(&vec![3; half - 8]).unwrap();
    assert_eq!(page.read(a), None);
    assert_eq!(page.read(b).unwrap(), &vec![2; half - 8][..]);
    assert_eq!(page.read(c).unwrap(), &vec![3; half - 8][..]);
}

#[test]
fn failed_insert_leaves_page_compacted() {
    let buf = &mut [0u8; PAGE_SIZE];
    {
        let mut page = Page::new(buf);
        let a = page.insert(&[1; 1000]).unwrap();
        page.insert(&[2; 10]).unwrap();
        page.delete(a);
        assert_eq!(page.insert(&vec![9; PAGE_SIZE - HEADER_SIZE - SLOT_SIZE]), None);
        assert_eq!(page.read(1).unwrap(), &[2; 10]);
    }
    assert_eq!(num_slots(buf), 2);
    assert_eq!(free_end(buf), (PAGE_SIZE - 10) as u16);
    assert_eq!(&buf[PAGE_SIZE - 10..], &[2; 10]);
}

#[test]
fn capacity_is_the_footprint_bound() {
    let buf = &mut [0u8; PAGE_SIZE];
    let mut page = Page::new(buf);
    assert!(page.insert(&vec![0; PAGE_SIZE - HEADER_SIZE - SLOT_SIZE]).is_some());
    assert_eq!(page.insert(&[]), None);
}

#[test]
fn empty_tuples_take_only_a_slot() {
    let buf = &mut [0u8; PAGE_SIZE];
    let mut page = Page::new(buf);
    let mut count = 0usize;
    while page.insert(&[]).is_some() {
        count += 1;
    }
    assert_eq!(count, (PAGE_SIZE - HEADER_SIZE) / SLOT_SIZE);
    assert_eq!(page.read(0).unwrap(), b"");
}

#[test]
fn allocator_hands_out_consecutive_ids() {
    let mut a = PageAllocator::new();
    assert_eq!(a.next_page(), PageId(0));
    assert_eq!(a.allocate_page(), PageId(0));
    assert_eq!(a.allocate_page(), PageId(1));
    assert_eq!(a.allocate_page(), PageId(2));
    assert_eq!(a.next_page(), PageId(3));
}

#[test]
fn reopened_allocator_continues_after_whole_pages() {
    let mut a = PageAllocator::open(7 * PAGE_SIZE as u64);
    assert_eq!(a.allocate_page(), PageId(7));
    let mut b = PageAllocator::open(7 * PAGE_SIZE as u64 + 100);
    assert_eq!(b.allocate_page(), PageId(7));
    let mut c = PageAllocator::open(0);
    assert_eq!(c.allocate_page(), PageId(0));
}

#[test]
fn page_id_from_file_len_counts_whole_pages() {
    assert_eq!(PageId::from_file_len(0), PageId(0));
    assert_eq!(PageId::from_file_len(PAGE_SIZE as u64 - 1), PageId(0));
    assert_eq!(PageId::from_file_len(3 * PAGE_SIZE as u64), PageId(3));
    // The page count is taken modulo 2^32.
    assert_eq!(PageId::from_file_len((1u64 << 32) * PAGE_SIZE as u64 + 2 * PAGE_SIZE as u64), PageId(2));
}

#[test]
fn offset_is_page_times_page_size() {
    assert_eq!(offset(PageId(0)), 0);
    assert_eq!(offset(PageId(5)), 5 * PAGE_SIZE);
}
