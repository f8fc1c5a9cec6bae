//! Slotted-page layout.
//!
//! A page is a `PAGE_SIZE` byte buffer:
//! - bytes `0..4`: page id (u32, little endian)
//! - bytes `4..6`: number of slots (u16)
//! - bytes `6..8`: start of free space, i.e. end of the slot array (u16)
//! - bytes `8..10`: end of free space, i.e. start of tuple data (u16)
//! - from byte 10: the slot array, one 4-byte entry per slot
//!   (tuple size u16, tuple offset u16); offset 0 marks a deleted slot
//! - tuple data grows backward from the end of the page.
use crate::common::{HEADER_SIZE, PAGE_SIZE, SLOT_SIZE};
use vstd::prelude::*;
use vstd::slice::slice_subrange;

verus! {

const HEADER_NUM_SLOTS: usize = 4;

const HEADER_FREE_START: usize = 6;

const HEADER_FREE_END: usize = 8;

const SLOT_DATA_SIZE: usize = 0;

const SLOT_DATA_OFFSET: usize = 2;

/// Index of a slot in a page's slot array.
pub type SlotIndex = u16;

// ---------------------------------------------------------------------
// The byte-level model of a page
// ---------------------------------------------------------------------

/// The little-endian u16 stored at `at`.
pub open spec fn le_u16(b: Seq<u8>, at: int) -> int {
    b[at] as int + 256 * (b[at + 1] as int)
}

/// `b` with the little-endian encoding of `v` stored at `at`.
pub open spec fn put_u16(b: Seq<u8>, at: int, v: int) -> Seq<u8> {
    b.update(at, (v % 256) as u8).update(at + 1, (v / 256) as u8)
}

pub open spec fn spec_num_slots(b: Seq<u8>) -> int {
    le_u16(b, 4)
}

pub open spec fn spec_free_start(b: Seq<u8>) -> int {
    le_u16(b, 6)
}

pub open spec fn spec_free_end(b: Seq<u8>) -> int {
    le_u16(b, 8)
}

/// Byte position of slot `i` in the page.
pub open spec fn slot_pos(i: int) -> int {
    HEADER_SIZE + SLOT_SIZE * i
}

pub open spec fn spec_slot_size(b: Seq<u8>, i: int) -> int {
    le_u16(b, slot_pos(i))
}

pub open spec fn spec_slot_offset(b: Seq<u8>, i: int) -> int {
    le_u16(b, slot_pos(i) + 2)
}

/// A slot is live unless its offset is 0.
pub open spec fn spec_slot_alive(b: Seq<u8>, i: int) -> bool {
    spec_slot_offset(b, i) != 0
}

/// The bytes that slot `i` points at.
pub open spec fn spec_tuple(b: Seq<u8>, i: int) -> Seq<u8> {
    b.subrange(spec_slot_offset(b, i), spec_slot_offset(b, i) + spec_slot_size(b, i))
}

/// What slot `i` holds: its tuple if it is live, nothing if it was deleted.
pub open spec fn spec_entry(b: Seq<u8>, i: int) -> Option<Seq<u8>> {
    if spec_slot_alive(b, i) {
        Some(spec_tuple(b, i))
    } else {
        None
    }
}

/// The logical contents of a page: one entry per slot, in slot order.
pub open spec fn spec_entries(b: Seq<u8>) -> Seq<Option<Seq<u8>>> {
    Seq::new(spec_num_slots(b) as nat, |i: int| spec_entry(b, i))
}

/// Total number of tuple bytes held by the live entries of `e`.
pub open spec fn used(e: Seq<Option<Seq<u8>>>) -> int
    decreases e.len(),
{
    if e.len() == 0 {
        0
    } else {
        used(e.drop_last()) + entry_len(e.last())
    }
}

/// Number of tuple bytes an entry holds.
pub open spec fn entry_len(x: Option<Seq<u8>>) -> int {
    match x {
        Some(t) => t.len() as int,
        None => 0,
    }
}

/// Bytes a page with entries `e` needs at least: header, slot array, live tuples.
pub open spec fn footprint(e: Seq<Option<Seq<u8>>>) -> int {
    HEADER_SIZE + SLOT_SIZE * e.len() + used(e)
}

/// Where compaction puts the tuple of live slot `i`: live tuples are packed
/// against the end of the page in slot order.
pub open spec fn packed_offset(b: Seq<u8>, i: int) -> int {
    PAGE_SIZE - used(spec_entries(b).take(i + 1))
}

/// Slot `i` lies inside the page.
pub open spec fn slot_in_page(i: int) -> bool {
    0 <= i && slot_pos(i) + SLOT_SIZE <= PAGE_SIZE
}

/// The well-formedness of a slotted page: the slot array ends where free
/// space starts, free space lies before all tuple data, every live tuple lies
/// inside the page, and live tuples are stored back to front in slot order.
pub open spec fn page_wf(b: Seq<u8>) -> bool {
    let n = spec_num_slots(b);
    &&& b.len() == PAGE_SIZE
    &&& spec_free_start(b) == HEADER_SIZE + SLOT_SIZE * n
    &&& spec_free_start(b) <= spec_free_end(b) <= PAGE_SIZE
    &&& forall|i: int|
        #![trigger spec_slot_offset(b, i)]
        0 <= i < n && spec_slot_alive(b, i) ==> spec_free_end(b) <= spec_slot_offset(b, i)
            && spec_slot_offset(b, i) + spec_slot_size(b, i) <= PAGE_SIZE
    &&& forall|i: int, j: int|
        #![trigger spec_slot_offset(b, i), spec_slot_offset(b, j)]
        0 <= i < j < n && spec_slot_alive(b, i) && spec_slot_alive(b, j)
            ==> spec_slot_offset(b, j) + spec_slot_size(b, j) <= spec_slot_offset(b, i)
}

/// Slot `idx` can be read without leaving the page.
pub open spec fn readable(b: Seq<u8>, idx: int) -> bool {
    &&& b.len() == PAGE_SIZE
    &&& 0 <= idx < spec_num_slots(b)
    &&& slot_in_page(idx)
    &&& spec_slot_alive(b, idx) ==> spec_slot_offset(b, idx) + spec_slot_size(b, idx) <= PAGE_SIZE
}

/// `c` is what compacting the page `b` leaves: the live tuples packed
/// against the end of the page in slot order, every slot keeping its index
/// and size, free space ending where the packed tuples start, and every
/// other byte unchanged.
pub open spec fn is_compaction(b: Seq<u8>, c: Seq<u8>) -> bool {
    let n = spec_num_slots(b);
    let fe = PAGE_SIZE - used(spec_entries(b));
    &&& c.len() == PAGE_SIZE
    &&& forall|k: int| 0 <= k < 8 ==> #[trigger] c[k] == b[k]
    &&& spec_free_end(c) == fe
    &&& forall|i: int|
        #![trigger spec_slot_size(c, i)]
        0 <= i < n ==> spec_slot_size(c, i) == spec_slot_size(b, i)
    &&& forall|i: int|
        #![trigger spec_slot_offset(c, i)]
        0 <= i < n ==> {
            &&& spec_slot_offset(c, i) == if spec_slot_alive(b, i) {
                packed_offset(b, i)
            } else {
                0
            }
            &&& spec_slot_alive(b, i) ==> c.subrange(
                packed_offset(b, i),
                packed_offset(b, i) + spec_slot_size(b, i),
            ) == spec_tuple(b, i)
        }
    &&& forall|k: int| spec_free_start(b) <= k < fe ==> #[trigger] c[k] == b[k]
}

/// `c` is `b` with `data` stored as a new last slot: the tuple goes right
/// below the current end of free space, the new slot entry at the end of
/// the slot array, and the header counts it; every other byte is unchanged.
pub open spec fn is_placement(b: Seq<u8>, c: Seq<u8>, data: Seq<u8>) -> bool {
    let n = spec_num_slots(b);
    let fe = spec_free_end(b);
    let start = fe - data.len();
    &&& c.len() == PAGE_SIZE
    &&& forall|k: int| 0 <= k < 4 ==> #[trigger] c[k] == b[k]
    &&& spec_num_slots(c) == n + 1
    &&& spec_free_start(c) == spec_free_start(b) + SLOT_SIZE
    &&& spec_free_end(c) == start
    &&& spec_slot_size(c, n) == data.len()
    &&& spec_slot_offset(c, n) == start
    &&& c.subrange(start, fe) == data
    &&& forall|k: int|
        HEADER_SIZE <= k < PAGE_SIZE && !(slot_pos(n) <= k < slot_pos(n) + SLOT_SIZE) && !(start
            <= k < fe) ==> #[trigger] c[k] == b[k]
}

/// There is room for `len` more tuple bytes and one more slot in the free
/// space as it stands.
pub open spec fn fits_in_free_space(b: Seq<u8>, len: int) -> bool {
    spec_free_end(b) - spec_free_start(b) >= len + SLOT_SIZE
}

// ---------------------------------------------------------------------
// Facts about the model
// ---------------------------------------------------------------------

proof fn lemma_used_step(e: Seq<Option<Seq<u8>>>, i: int)
    requires
        0 <= i < e.len(),
    ensures
        used(e.take(i + 1)) == used(e.take(i)) + entry_len(e[i]),
{
    assert(e.take(i + 1).drop_last() =~= e.take(i));
}

proof fn lemma_used_monotone(e: Seq<Option<Seq<u8>>>, i: int, j: int)
    requires
        0 <= i <= j <= e.len(),
    ensures
        0 <= used(e.take(i)) <= used(e.take(j)),
    decreases j,
{
    if j == 0 {
        assert(e.take(0) =~= Seq::<Option<Seq<u8>>>::empty());
    } else {
        lemma_used_step(e, j - 1);
        if i < j {
            lemma_used_monotone(e, i, j - 1);
        } else {
            lemma_used_monotone(e, 0, j - 1);
        }
    }
}

proof fn lemma_used_all(e: Seq<Option<Seq<u8>>>)
    ensures
        used(e.take(e.len() as int)) == used(e),
        used(e) >= 0,
{
    assert(e.take(e.len() as int) =~= e);
    lemma_used_monotone(e, 0, e.len() as int);
}

/// In a well-formed page a live tuple together with all live tuples of
/// earlier slots fits between its own offset and the end of the page.
proof fn lemma_packed(b: Seq<u8>, i: int, j: int)
    requires
        page_wf(b),
        0 <= i <= j < spec_num_slots(b),
        spec_slot_alive(b, j),
    ensures
        spec_slot_offset(b, j) + spec_slot_size(b, j) + used(spec_entries(b).take(i)) <= PAGE_SIZE,
    decreases i,
{
    let e = spec_entries(b);
    if i == 0 {
        lemma_used_monotone(e, 0, 0);
    } else {
        lemma_packed(b, i - 1, j);
        lemma_used_step(e, i - 1);
        if spec_slot_alive(b, i - 1) {
            lemma_packed(b, i - 1, i - 1);
            assert(spec_slot_offset(b, j) + spec_slot_size(b, j) <= spec_slot_offset(b, i - 1));
        }
    }
}

/// In a well-formed page all live tuples fit between the end of free space
/// and the end of the page.
proof fn lemma_used_fits(b: Seq<u8>, i: int)
    requires
        page_wf(b),
        0 <= i <= spec_num_slots(b),
    ensures
        0 <= used(spec_entries(b).take(i)) <= PAGE_SIZE - spec_free_end(b),
    decreases i,
{
    let e = spec_entries(b);
    lemma_used_monotone(e, 0, i);
    if i > 0 {
        lemma_used_fits(b, i - 1);
        lemma_used_step(e, i - 1);
        if spec_slot_alive(b, i - 1) {
            lemma_packed(b, i - 1, i - 1);
        }
    }
}

/// Where compaction puts slot `j`, relative to the other slots and to the
/// end of free space.
proof fn lemma_packed_offset(b: Seq<u8>, j: int)
    requires
        page_wf(b),
        0 <= j < spec_num_slots(b),
    ensures
        spec_free_start(b) <= spec_free_end(b) <= PAGE_SIZE - used(spec_entries(b)),
        PAGE_SIZE - used(spec_entries(b)) <= packed_offset(b, j),
        packed_offset(b, j) + entry_len(spec_entries(b)[j]) == PAGE_SIZE - used(
            spec_entries(b).take(j),
        ),
        used(spec_entries(b).take(j)) >= 0,
        spec_slot_alive(b, j) ==> entry_len(spec_entries(b)[j]) == spec_slot_size(b, j),
        spec_slot_alive(b, j) ==> spec_slot_offset(b, j) + spec_slot_size(b, j) <= PAGE_SIZE
            - used(spec_entries(b).take(j)),
        spec_slot_alive(b, j) ==> spec_free_end(b) <= spec_slot_offset(b, j),
{
    let e = spec_entries(b);
    let n = spec_num_slots(b);
    lemma_used_fits(b, n);
    lemma_used_all(e);
    lemma_used_step(e, j);
    lemma_used_monotone(e, j + 1, n);
    lemma_used_monotone(e, 0, j);
    if spec_slot_alive(b, j) {
        lemma_packed(b, j, j);
    }
}

/// Compaction keeps live tuples in slot order.
proof fn lemma_packed_order(b: Seq<u8>, j: int, k: int)
    requires
        page_wf(b),
        0 <= j < k <= spec_num_slots(b),
    ensures
        PAGE_SIZE - used(spec_entries(b).take(k)) <= packed_offset(b, j),
{
    lemma_used_monotone(spec_entries(b), j + 1, k);
}

/// Every slot of a well-formed page can be read and deleted.
pub proof fn law_wf_slots_readable(b: Seq<u8>, idx: int)
    requires
        page_wf(b),
        0 <= idx < spec_num_slots(b),
    ensures
        readable(b, idx),
        slot_in_page(idx),
{
}

proof fn lemma_used_push(e: Seq<Option<Seq<u8>>>, x: Option<Seq<u8>>)
    ensures
        used(e.push(x)) == used(e) + entry_len(x),
{
    assert(e.push(x).drop_last() =~= e);
}

/// Storing a tuple in the free space of a well-formed page keeps the page
/// well formed and appends the tuple as a new last entry; every earlier
/// entry keeps its slot index and contents.
pub proof fn law_placement(b: Seq<u8>, c: Seq<u8>, data: Seq<u8>)
    requires
        page_wf(b),
        fits_in_free_space(b, data.len() as int),
        is_placement(b, c, data),
    ensures
        page_wf(c),
        spec_entries(c) == spec_entries(b).push(Some(data)),
{
    let n = spec_num_slots(b);
    let fe = spec_free_end(b);
    let start = fe - data.len();
    assert forall|j: int|
        #![trigger spec_slot_offset(c, j)]
        0 <= j < n implies spec_slot_offset(c, j) == spec_slot_offset(b, j) && spec_slot_size(c, j)
        == spec_slot_size(b, j) by {
        assert(c[slot_pos(j)] == b[slot_pos(j)]);
        assert(c[slot_pos(j) + 1] == b[slot_pos(j) + 1]);
        assert(c[slot_pos(j) + 2] == b[slot_pos(j) + 2]);
        assert(c[slot_pos(j) + 3] == b[slot_pos(j) + 3]);
    }
    assert forall|j: int| 0 <= j < n implies #[trigger] spec_entry(c, j) == spec_entry(b, j) by {
        assert(spec_slot_offset(c, j) == spec_slot_offset(b, j));
        if spec_slot_alive(b, j) {
            let off = spec_slot_offset(b, j);
            let sz = spec_slot_size(b, j);
            assert forall|k: int| off <= k < off + sz implies #[trigger] c[k] == b[k] by {}
            assert(spec_tuple(c, j) =~= spec_tuple(b, j));
        }
    }
    assert(spec_tuple(c, n) =~= data);
    assert(spec_entries(c) =~= spec_entries(b).push(Some(data)));
    assert forall|j: int|
        #![trigger spec_slot_offset(c, j)]
        0 <= j < n + 1 && spec_slot_alive(c, j) implies spec_free_end(c) <= spec_slot_offset(c, j)
        && spec_slot_offset(c, j) + spec_slot_size(c, j) <= PAGE_SIZE by {
        if j < n {
            assert(spec_slot_offset(b, j) == spec_slot_offset(c, j));
        }
    }
    assert forall|i: int, j: int|
        #![trigger spec_slot_offset(c, i), spec_slot_offset(c, j)]
        0 <= i < j < n + 1 && spec_slot_alive(c, i) && spec_slot_alive(c, j) implies spec_slot_offset(
        c,
        j,
    ) + spec_slot_size(c, j) <= spec_slot_offset(c, i) by {
        assert(spec_slot_offset(b, i) == spec_slot_offset(c, i));
        if j < n {
            assert(spec_slot_offset(b, j) == spec_slot_offset(c, j));
        }
    }
}

/// The writes `insert` makes, in order, amount to a placement.
proof fn lemma_insert_bytes(
    b: Seq<u8>,
    c1: Seq<u8>,
    c2: Seq<u8>,
    c3: Seq<u8>,
    c4: Seq<u8>,
    data: Seq<u8>,
)
    requires
        page_wf(b),
        fits_in_free_space(b, data.len() as int),
        c1.len() == PAGE_SIZE,
        c1.subrange(spec_free_end(b) - data.len(), spec_free_end(b)) == data,
        forall|k: int|
            0 <= k < PAGE_SIZE && !(spec_free_end(b) - data.len() <= k < spec_free_end(b))
                ==> #[trigger] c1[k] == b[k],
        c2 == put_u16(
            put_u16(
                put_u16(c1, 4, spec_num_slots(c1) + 1),
                slot_pos(spec_num_slots(c1)),
                data.len() as int,
            ),
            slot_pos(spec_num_slots(c1)) + 2,
            spec_free_end(b) - data.len(),
        ),
        c3 == put_u16(c2, 6, slot_pos(spec_num_slots(c1)) + SLOT_SIZE),
        c4 == put_u16(c3, 8, spec_free_end(b) - data.len()),
    ensures
        is_placement(b, c4, data),
{
    let n = spec_num_slots(b);
    let start = spec_free_end(b) - data.len();
    assert(c1[4] == b[4] && c1[5] == b[5]);
    assert(spec_num_slots(c1) == n);
    let p1 = put_u16(c1, 4, n + 1);
    let p2 = put_u16(p1, slot_pos(n), data.len() as int);
    law_put_u16_read_back(c1, 4, n + 1);
    law_put_u16_read_back(p1, slot_pos(n), data.len() as int);
    law_put_u16_read_back(p2, slot_pos(n) + 2, start);
    law_put_u16_read_back(c2, 6, slot_pos(n) + SLOT_SIZE);
    law_put_u16_read_back(c3, 8, start);
    assert forall|k: int| 0 <= k < data.len() implies #[trigger] c4.subrange(start, spec_free_end(b))[k]
        == data[k] by {
        assert(c1.subrange(start, spec_free_end(b))[k] == data[k]);
        assert(c4[start + k] == c1[start + k]);
    }
    assert(c4.subrange(start, spec_free_end(b)) =~= data);
    assert forall|k: int|
        HEADER_SIZE <= k < PAGE_SIZE && !(slot_pos(n) <= k < slot_pos(n) + SLOT_SIZE) && !(start
            <= k < spec_free_end(b)) implies #[trigger] c4[k] == b[k] by {
        assert(c4[k] == c1[k]);
    }
    assert forall|k: int| 0 <= k < 4 implies #[trigger] c4[k] == b[k] by {
        assert(c4[k] == c1[k]);
    }
}

// ---------------------------------------------------------------------
// Compaction, slot by slot
// ---------------------------------------------------------------------

/// The state of `c` after compaction has handled the first `i` slots of `o`.
#[verifier::opaque]
spec fn compact_inv(o: Seq<u8>, c: Seq<u8>, i: int) -> bool {
    let n = spec_num_slots(o);
    let bp = PAGE_SIZE - used(spec_entries(o).take(i));
    &&& c.len() == PAGE_SIZE
    &&& forall|k: int| 0 <= k < HEADER_SIZE ==> #[trigger] c[k] == o[k]
    &&& forall|j: int|
        #![trigger spec_slot_size(c, j)]
        0 <= j < n ==> spec_slot_size(c, j) == spec_slot_size(o, j)
    &&& forall|j: int|
        #![trigger spec_slot_offset(c, j)]
        i <= j < n ==> spec_slot_offset(c, j) == spec_slot_offset(o, j)
    &&& forall|j: int|
        #![trigger spec_slot_offset(c, j)]
        0 <= j < i ==> {
            &&& spec_slot_offset(c, j) == if spec_slot_alive(o, j) {
                packed_offset(o, j)
            } else {
                0
            }
            &&& spec_slot_alive(o, j) ==> c.subrange(
                packed_offset(o, j),
                packed_offset(o, j) + spec_slot_size(o, j),
            ) == spec_tuple(o, j)
        }
    &&& forall|k: int| spec_free_start(o) <= k < bp ==> #[trigger] c[k] == o[k]
}

proof fn lemma_compact_start(o: Seq<u8>)
    requires
        page_wf(o),
    ensures
        compact_inv(o, o, 0),
        used(spec_entries(o).take(0)) == 0,
{
    reveal(compact_inv);
    lemma_used_monotone(spec_entries(o), 0, 0);
}

proof fn lemma_compact_inv_slots(o: Seq<u8>, c: Seq<u8>, i: int)
    requires
        page_wf(o),
        0 <= i < spec_num_slots(o),
        compact_inv(o, c, i),
    ensures
        c.len() == PAGE_SIZE,
        spec_slot_size(c, i) == spec_slot_size(o, i),
        spec_slot_offset(c, i) == spec_slot_offset(o, i),
{
    reveal(compact_inv);
}

proof fn lemma_compact_step_dead(o: Seq<u8>, c: Seq<u8>, i: int)
    requires
        page_wf(o),
        0 <= i < spec_num_slots(o),
        !spec_slot_alive(o, i),
        compact_inv(o, c, i),
    ensures
        compact_inv(o, c, i + 1),
{
    reveal(compact_inv);
    lemma_used_step(spec_entries(o), i);
}

proof fn lemma_compact_step_live(o: Seq<u8>, c0: Seq<u8>, c1: Seq<u8>, c2: Seq<u8>, i: int)
    requires
        page_wf(o),
        0 <= i < spec_num_slots(o),
        spec_slot_alive(o, i),
        compact_inv(o, c0, i),
        c1 == put_u16(c0, slot_pos(i) + 2, packed_offset(o, i)),
        c2.len() == PAGE_SIZE,
        forall|k: int|
            0 <= k < spec_slot_size(o, i) ==> #[trigger] c2[packed_offset(o, i) + k]
                == c1[spec_slot_offset(o, i) + k],
        forall|x: int|
            0 <= x < PAGE_SIZE && !(packed_offset(o, i) <= x < packed_offset(o, i) + spec_slot_size(
                o,
                i,
            )) ==> #[trigger] c2[x] == c1[x],
    ensures
        compact_inv(o, c2, i + 1),
{
    reveal(compact_inv);
    let e = spec_entries(o);
    let n = spec_num_slots(o);
    lemma_used_step(e, i);
    lemma_packed_offset(o, i);
    let bp = packed_offset(o, i);
    let size = spec_slot_size(o, i);
    let off = spec_slot_offset(o, i);
    law_put_u16_read_back(c0, slot_pos(i) + 2, bp);
    assert forall|k: int| 0 <= k < size implies #[trigger] c2.subrange(bp, bp + size)[k]
        == spec_tuple(o, i)[k] by {
        assert(c2[bp + k] == c1[off + k]);
        assert(c1[off + k] == c0[off + k]);
        assert(c0[off + k] == o[off + k]);
    }
    assert(c2.subrange(bp, bp + size) =~= spec_tuple(o, i));
    assert forall|j: int|
        #![trigger spec_slot_offset(c2, j)]
        0 <= j < i && spec_slot_alive(o, j) implies spec_slot_offset(c2, j) == packed_offset(o, j)
        && c2.subrange(packed_offset(o, j), packed_offset(o, j) + spec_slot_size(o, j))
        == spec_tuple(o, j) by {
        lemma_packed_offset(o, j);
        lemma_packed_order(o, j, i);
        assert(c2[slot_pos(j) + 2] == c1[slot_pos(j) + 2]);
        assert(c2[slot_pos(j) + 3] == c1[slot_pos(j) + 3]);
        let pj = packed_offset(o, j);
        let sj = spec_slot_size(o, j);
        assert(spec_slot_offset(c0, j) == pj);
        assert forall|k: int| 0 <= k < sj implies #[trigger] c2.subrange(pj, pj + sj)[k]
            == c0.subrange(pj, pj + sj)[k] by {
            assert(c2[pj + k] == c1[pj + k]);
            assert(c1[pj + k] == c0[pj + k]);
        }
        assert(c2.subrange(pj, pj + sj) =~= c0.subrange(pj, pj + sj));
    }
    assert forall|j: int|
        #![trigger spec_slot_size(c2, j)]
        0 <= j < n implies spec_slot_size(c2, j) == spec_slot_size(o, j) by {
        assert(c2[slot_pos(j)] == c1[slot_pos(j)]);
        assert(c2[slot_pos(j) + 1] == c1[slot_pos(j) + 1]);
        assert(spec_slot_size(c0, j) == spec_slot_size(o, j));
    }
    assert forall|j: int|
        #![trigger spec_slot_offset(c2, j)]
        0 <= j < n implies spec_slot_offset(c2, j) == spec_slot_offset(c1, j) by {
        assert(c2[slot_pos(j) + 2] == c1[slot_pos(j) + 2]);
        assert(c2[slot_pos(j) + 3] == c1[slot_pos(j) + 3]);
    }
    assert forall|j: int|
        #![trigger spec_slot_offset(c1, j)]
        0 <= j < n && j != i implies spec_slot_offset(c1, j) == spec_slot_offset(c0, j) by {
    }
    assert forall|k: int| 0 <= k < HEADER_SIZE implies #[trigger] c2[k] == o[k] by {
        assert(c2[k] == c1[k]);
        assert(c0[k] == o[k]);
    }
    assert forall|k: int| spec_free_start(o) <= k < bp implies #[trigger] c2[k] == o[k] by {
        assert(c2[k] == c1[k]);
        assert(c0[k] == o[k]);
    }
}

proof fn lemma_compact_finish(o: Seq<u8>, c2: Seq<u8>, c3: Seq<u8>)
    requires
        page_wf(o),
        compact_inv(o, c2, spec_num_slots(o)),
        c3 == put_u16(c2, 8, PAGE_SIZE - used(spec_entries(o))),
    ensures
        is_compaction(o, c3),
{
    reveal(compact_inv);
    let e = spec_entries(o);
    let n = spec_num_slots(o);
    let fe = PAGE_SIZE - used(e);
    lemma_used_all(e);
    lemma_used_fits(o, n);
    law_put_u16_read_back(c2, 8, fe);
    assert forall|j: int|
        #![trigger spec_slot_offset(c3, j)]
        0 <= j < n implies spec_slot_offset(c3, j) == spec_slot_offset(c2, j)
            && spec_slot_size(c3, j) == spec_slot_size(c2, j) by {
    }
    assert forall|j: int|
        #![trigger spec_slot_offset(c3, j)]
        0 <= j < n && spec_slot_alive(o, j) implies spec_slot_offset(c3, j) == packed_offset(o, j)
        && c3.subrange(packed_offset(o, j), packed_offset(o, j) + spec_slot_size(o, j))
        == spec_tuple(o, j) by {
        lemma_packed_offset(o, j);
        let pj = packed_offset(o, j);
        let sj = spec_slot_size(o, j);
        assert(spec_slot_offset(c2, j) == pj);
        assert(c3.subrange(pj, pj + sj) =~= c2.subrange(pj, pj + sj));
    }
    assert forall|j: int|
        #![trigger spec_slot_size(c3, j)]
        0 <= j < n implies spec_slot_size(c3, j) == spec_slot_size(o, j) by {
        assert(spec_slot_size(c2, j) == spec_slot_size(o, j));
    }
    assert forall|k: int| 0 <= k < 8 implies #[trigger] c3[k] == o[k] by {
        assert(c3[k] == c2[k]);
    }
    assert forall|k: int| spec_free_start(o) <= k < fe implies #[trigger] c3[k] == o[k] by {
        assert(c3[k] == c2[k]);
    }
}

// ---------------------------------------------------------------------
// Laws of compaction
// ---------------------------------------------------------------------

/// Compacting a well-formed page gives a well-formed page with the same
/// entries under the same slot indices, and all its free space in one
/// piece: exactly what the header, the slot array and the live tuples do
/// not take.
pub proof fn law_compaction_preserves_entries(b: Seq<u8>, c: Seq<u8>)
    requires
        page_wf(b),
        is_compaction(b, c),
    ensures
        page_wf(c),
        spec_entries(c) == spec_entries(b),
        spec_free_end(c) - spec_free_start(c) == PAGE_SIZE - footprint(spec_entries(c)),
{
    let e = spec_entries(b);
    let n = spec_num_slots(b);
    lemma_used_all(e);
    lemma_used_fits(b, n);
    assert(c[4] == b[4] && c[5] == b[5] && c[6] == b[6] && c[7] == b[7]);
    assert forall|j: int|
        #![trigger spec_slot_offset(c, j)]
        0 <= j < n && spec_slot_alive(c, j) implies spec_free_end(c) <= spec_slot_offset(c, j)
        && spec_slot_offset(c, j) + spec_slot_size(c, j) <= PAGE_SIZE by {
        lemma_packed_offset(b, j);
    }
    assert forall|i: int, j: int|
        #![trigger spec_slot_offset(c, i), spec_slot_offset(c, j)]
        0 <= i < j < n && spec_slot_alive(c, i) && spec_slot_alive(c, j) implies spec_slot_offset(
        c,
        j,
    ) + spec_slot_size(c, j) <= spec_slot_offset(c, i) by {
        lemma_packed_offset(b, i);
        lemma_packed_offset(b, j);
        lemma_packed_order(b, i, j);
    }
    assert forall|j: int| 0 <= j < n implies #[trigger] spec_entry(c, j) == spec_entry(b, j) by {
        lemma_packed_offset(b, j);
        assert(spec_slot_size(c, j) == spec_slot_size(b, j));
        if spec_slot_alive(b, j) {
            assert(spec_slot_offset(c, j) == packed_offset(b, j));
        } else {
            assert(spec_slot_offset(c, j) == 0);
        }
    }
    assert(spec_entries(c) =~= spec_entries(b));
}

/// Compacting an already compacted page changes nothing: the compacted
/// page is its own compaction.
pub proof fn law_compaction_idempotent(b: Seq<u8>, c: Seq<u8>)
    requires
        page_wf(b),
        is_compaction(b, c),
    ensures
        is_compaction(c, c),
{
    law_compaction_preserves_entries(b, c);
    let n = spec_num_slots(b);
    assert(c[4] == b[4] && c[5] == b[5]);
    assert forall|i: int|
        #![trigger spec_slot_offset(c, i)]
        0 <= i < n implies spec_slot_offset(c, i) == if spec_slot_alive(c, i) {
            packed_offset(c, i)
        } else {
            0
        } by {
        lemma_packed_offset(b, i);
        assert(spec_slot_size(c, i) == spec_slot_size(b, i));
    }
}

/// The packed tuples of the first `i` live slots cover the last
/// `used(..take(i))` bytes of the page without a gap.
proof fn lemma_packed_cover(b: Seq<u8>, i: int, k: int) -> (j: int)
    requires
        page_wf(b),
        0 <= i <= spec_num_slots(b),
        PAGE_SIZE - used(spec_entries(b).take(i)) <= k < PAGE_SIZE,
    ensures
        0 <= j < i,
        spec_slot_alive(b, j),
        packed_offset(b, j) <= k < packed_offset(b, j) + spec_slot_size(b, j),
    decreases i,
{
    let e = spec_entries(b);
    if i == 0 {
        lemma_used_monotone(e, 0, 0);
        0
    } else {
        lemma_used_step(e, i - 1);
        lemma_packed_offset(b, i - 1);
        if k >= PAGE_SIZE - used(e.take(i - 1)) {
            lemma_packed_cover(b, i - 1, k)
        } else {
            i - 1
        }
    }
}

proof fn lemma_u16_bytes_eq(x: Seq<u8>, y: Seq<u8>, at: int)
    requires
        le_u16(x, at) == le_u16(y, at),
    ensures
        x[at] == y[at],
        x[at + 1] == y[at + 1],
{
}

/// Compaction leaves one page and one only: its relation pins every byte.
pub proof fn law_compaction_unique(b: Seq<u8>, x: Seq<u8>, y: Seq<u8>)
    requires
        page_wf(b),
        is_compaction(b, x),
        is_compaction(b, y),
    ensures
        x == y,
{
    let e = spec_entries(b);
    let n = spec_num_slots(b);
    let fs = spec_free_start(b);
    let fe = PAGE_SIZE - used(e);
    lemma_used_all(e);
    lemma_used_fits(b, n);
    assert forall|k: int| 0 <= k < PAGE_SIZE implies #[trigger] x[k] == y[k] by {
        if k < 8 {
            assert(x[k] == y[k]);
        } else if k < HEADER_SIZE {
            lemma_u16_bytes_eq(x, y, 8);
            assert(x[k] == y[k]);
        } else if k < fs {
            let i = (k - HEADER_SIZE) / SLOT_SIZE as int;
            assert(slot_pos(i) <= k < slot_pos(i) + SLOT_SIZE);
            assert(spec_slot_size(x, i) == spec_slot_size(b, i));
            assert(spec_slot_size(y, i) == spec_slot_size(b, i));
            lemma_u16_bytes_eq(x, y, slot_pos(i));
            assert(spec_slot_offset(x, i) == spec_slot_offset(y, i));
            lemma_u16_bytes_eq(x, y, slot_pos(i) + 2);
            assert(x[k] == y[k]);
        } else if k < fe {
            assert(x[k] == y[k]);
        } else {
            let j = lemma_packed_cover(b, n, k);
            lemma_packed_offset(b, j);
            let pj = packed_offset(b, j);
            let sj = spec_slot_size(b, j);
            assert(spec_slot_offset(x, j) == pj);
            assert(spec_slot_offset(y, j) == pj);
            assert(x.subrange(pj, pj + sj) == spec_tuple(b, j));
            assert(y.subrange(pj, pj + sj) == spec_tuple(b, j));
            assert(x.subrange(pj, pj + sj)[k - pj] == y.subrange(pj, pj + sj)[k - pj]);
            assert(x[k] == y[k]);
        }
    }
    assert(x =~= y);
}

// ---------------------------------------------------------------------
// Little-endian integers in byte buffers
// ---------------------------------------------------------------------

/// Reading back a little-endian u16 gives what was stored, and storing it
/// changes no other byte.
pub proof fn law_put_u16_read_back(b: Seq<u8>, at: int, v: int)
    requires
        0 <= at,
        at + 1 < b.len(),
        0 <= v < 0x10000,
    ensures
        put_u16(b, at, v).len() == b.len(),
        le_u16(put_u16(b, at, v), at) == v,
        forall|k: int| #![auto] 0 <= k < b.len() && k != at && k != at + 1 ==> put_u16(b, at, v)[k] == b[k],
{
    let c = put_u16(b, at, v);
    assert(c[at] == (v % 256) as u8);
    assert(c[at + 1] == (v / 256) as u8);
    assert((v % 256) as u8 == v % 256);
    assert((v / 256) as u8 == v / 256);
}

fn read_u16(b: &[u8], offset: usize) -> (v: u16)
    requires
        offset + 1 < b@.len(),
    ensures
        v == le_u16(b@, offset as int),
{
    (b[offset] as u16) + (b[offset + 1] as u16) * 256
}

fn write_u16(b: &mut [u8], offset: usize, v: u16)
    requires
        offset + 1 < old(b)@.len(),
    ensures
        final(b)@ == put_u16(old(b)@, offset as int, v as int),
        le_u16(final(b)@, offset as int) == v,
{
    b[offset] = (v % 256) as u8;
    b[offset + 1] = (v / 256) as u8;
    proof {
        law_put_u16_read_back(old(b)@, offset as int, v as int);
    }
}


// ---------------------------------------------------------------------
// Pages
// ---------------------------------------------------------------------

/// A slotted page laid over a borrowed `PAGE_SIZE` byte buffer.
pub struct Page<'a>(&'a mut [u8; PAGE_SIZE]);

impl<'a> View for Page<'a> {
    type V = Seq<Option<Seq<u8>>>;

    /// The entries of the page, one per slot.
    open spec fn view(&self) -> Seq<Option<Seq<u8>>> {
        spec_entries(self.bytes())
    }
}

impl<'a> Page<'a> {
    /// The current contents of the underlying buffer.
    pub closed spec fn bytes(&self) -> Seq<u8> {
        self.0@
    }

    /// The borrowed buffer itself; a caller relates what the buffer holds
    /// once the page is dropped to what `final` of this reference holds.
    pub closed spec fn buf(&self) -> &'a mut [u8; PAGE_SIZE] {
        self.0
    }

    /// Once a page is no longer used, its buffer holds what the page held.
    pub broadcast proof fn lemma_resolved(p: Page<'a>)
        ensures
            #[trigger] has_resolved(p) ==> p.bytes() == final(p.buf())@,
    {
    }

    pub open spec fn wf(&self) -> bool {
        page_wf(self.bytes())
    }

    /// Lays a fresh, empty page over `buf`: sets the free-space bounds to the
    /// whole area after the header. Nothing else in `buf` is written, so the
    /// page is empty exactly when the slot count in `buf` is already 0.
    pub fn new(buf: &'a mut [u8; PAGE_SIZE]) -> (p: Page<'a>)
        ensures
            p.bytes() == put_u16(put_u16(old(buf)@, 6, HEADER_SIZE as int), 8, PAGE_SIZE as int),
            final(buf)@ == final(p.buf())@,
            spec_num_slots(old(buf)@) == 0 ==> p.wf() && p@ == Seq::<Option<Seq<u8>>>::empty(),
    {
        let mut p = Page(buf);
        p.set_free_start(HEADER_SIZE as u16);
        p.set_free_end(PAGE_SIZE as u16);
        proof {
            let b0 = old(buf)@;
            law_put_u16_read_back(b0, 6, HEADER_SIZE as int);
            law_put_u16_read_back(put_u16(b0, 6, HEADER_SIZE as int), 8, PAGE_SIZE as int);
            if spec_num_slots(b0) == 0 {
                assert(p@ =~= Seq::<Option<Seq<u8>>>::empty());
            }
        }
        p
    }

    fn num_slots(&self) -> (v: u16)
        ensures
            v == spec_num_slots(self.bytes()),
    {
        read_u16(self.0.as_slice(), HEADER_NUM_SLOTS)
    }

    fn free_start(&self) -> (v: u16)
        ensures
            v == spec_free_start(self.bytes()),
    {
        read_u16(self.0.as_slice(), HEADER_FREE_START)
    }

    fn free_end(&self) -> (v: u16)
        ensures
            v == spec_free_end(self.bytes()),
    {
        read_u16(self.0.as_slice(), HEADER_FREE_END)
    }

    fn set_num_slots(&mut self, v: u16)
        ensures
            final(self).bytes() == put_u16(old(self).bytes(), 4, v as int),
            *final(final(self).buf()) == *final(old(self).buf()),
    {
        write_u16(self.0, HEADER_NUM_SLOTS, v);
    }

    fn set_free_start(&mut self, v: u16)
        ensures
            final(self).bytes() == put_u16(old(self).bytes(), 6, v as int),
            *final(final(self).buf()) == *final(old(self).buf()),
    {
        write_u16(self.0, HEADER_FREE_START, v);
    }

    fn set_free_end(&mut self, v: u16)
        ensures
            final(self).bytes() == put_u16(old(self).bytes(), 8, v as int),
            *final(final(self).buf()) == *final(old(self).buf()),
    {
        write_u16(self.0, HEADER_FREE_END, v);
    }

    fn slot_size(&self, idx: SlotIndex) -> (v: u16)
        requires
            slot_in_page(idx as int),
        ensures
            v == spec_slot_size(self.bytes(), idx as int),
    {
        read_u16(self.0.as_slice(), HEADER_SIZE + idx as usize * SLOT_SIZE + SLOT_DATA_SIZE)
    }

    fn slot_offset(&self, idx: SlotIndex) -> (v: u16)
        requires
            slot_in_page(idx as int),
        ensures
            v == spec_slot_offset(self.bytes(), idx as int),
    {
        read_u16(self.0.as_slice(), HEADER_SIZE + idx as usize * SLOT_SIZE + SLOT_DATA_OFFSET)
    }

    fn slot_is_alive(&self, idx: SlotIndex) -> (alive: bool)
        requires
            slot_in_page(idx as int),
        ensures
            alive == spec_slot_alive(self.bytes(), idx as int),
    {
        self.slot_offset(idx) != 0
    }

    fn set_slot_size(&mut self, idx: u16, v: u16)
        requires
            slot_in_page(idx as int),
        ensures
            final(self).bytes() == put_u16(old(self).bytes(), slot_pos(idx as int), v as int),
            *final(final(self).buf()) == *final(old(self).buf()),
    {
        write_u16(self.0, HEADER_SIZE + idx as usize * SLOT_SIZE + SLOT_DATA_SIZE, v);
    }

    fn set_slot_offset(&mut self, idx: u16, v: u16)
        requires
            slot_in_page(idx as int),
        ensures
            final(self).bytes() == put_u16(old(self).bytes(), slot_pos(idx as int) + 2, v as int),
            *final(final(self).buf()) == *final(old(self).buf()),
    {
        write_u16(self.0, HEADER_SIZE + idx as usize * SLOT_SIZE + SLOT_DATA_OFFSET, v);
    }

    fn mark_dead(&mut self, idx: u16)
        requires
            slot_in_page(idx as int),
        ensures
            final(self).bytes() == put_u16(old(self).bytes(), slot_pos(idx as int) + 2, 0),
            *final(final(self).buf()) == *final(old(self).buf()),
    {
        self.set_slot_offset(idx, 0);
    }

    fn tuple(&self, idx: SlotIndex) -> (t: &[u8])
        requires
            slot_in_page(idx as int),
            spec_slot_offset(self.bytes(), idx as int) + spec_slot_size(self.bytes(), idx as int)
                <= PAGE_SIZE,
        ensures
            t@ == spec_tuple(self.bytes(), idx as int),
    {
        let start = self.slot_offset(idx) as usize;
        let end = start + self.slot_size(idx) as usize;
        slice_subrange(self.0.as_slice(), start, end)
    }

    /// The tuple stored in slot `idx`, or `None` if the slot was deleted.
    pub fn read(&self, idx: SlotIndex) -> (r: Option<&[u8]>)
        requires
            readable(self.bytes(), idx as int),
        ensures
            r is Some == spec_slot_alive(self.bytes(), idx as int),
            r matches Some(t) ==> t@ == spec_tuple(self.bytes(), idx as int),
            self@[idx as int] == (match r {
                Some(t) => Some(t@),
                None => None,
            }),
    {
        if self.slot_is_alive(idx) {
            Some(self.tuple(idx))
        } else {
            None
        }
    }

    /// Deletes the tuple in slot `idx` by marking the slot dead; the slot
    /// itself stays, so later slot indices do not move.
    pub fn delete(&mut self, idx: SlotIndex)
        requires
            (idx as int) < spec_num_slots(old(self).bytes()),
            slot_in_page(idx as int),
        ensures
            final(self).bytes() == put_u16(old(self).bytes(), slot_pos(idx as int) + 2, 0),
            *final(final(self).buf()) == *final(old(self).buf()),
            old(self).wf() ==> final(self).wf() && final(self)@ == old(self)@.update(
                idx as int,
                None,
            ),
    {
        self.mark_dead(idx);
        proof {
            let b0 = old(self).bytes();
            let b1 = self.bytes();
            law_put_u16_read_back(b0, slot_pos(idx as int) + 2, 0);
            if page_wf(b0) {
                assert forall|i: int| 0 <= i < spec_num_slots(b0) && i != idx implies
                    spec_slot_offset(b1, i) == spec_slot_offset(b0, i)
                    && spec_slot_size(b1, i) == spec_slot_size(b0, i) by {
                }
                assert forall|i: int| 0 <= i < spec_num_slots(b0) && i != idx
                    && spec_slot_alive(b0, i) implies spec_tuple(b1, i) == spec_tuple(b0, i) by {
                    assert(spec_tuple(b1, i) =~= spec_tuple(b0, i));
                }
                assert(self@ =~= old(self)@.update(idx as int, None));
            }
        }
    }

    /// Copies `len` bytes from `src` to `dst`, where `src <= dst`; the two
    /// ranges may overlap, so the copy runs back to front.
    fn move_bytes(&mut self, src: usize, len: usize, dst: usize)
        requires
            src <= dst,
            dst + len <= PAGE_SIZE,
        ensures
            forall|k: int| 0 <= k < len ==> #[trigger] final(self).bytes()[dst + k] == old(self).bytes()[src + k],
            forall|x: int|
                0 <= x < PAGE_SIZE && !(dst <= x < dst + len) ==> #[trigger] final(self).bytes()[x]
                    == old(self).bytes()[x],
            *final(final(self).buf()) == *final(old(self).buf()),
    {
        let mut k = len;
        while k > 0
            invariant
                k <= len,
                src <= dst,
                dst + len <= PAGE_SIZE,
                forall|t: int| k <= t < len ==> #[trigger] self.bytes()[dst + t] == old(self).bytes()[src + t],
                forall|x: int|
                    0 <= x < PAGE_SIZE && !(dst + k <= x < dst + len) ==> #[trigger] self.bytes()[x]
                        == old(self).bytes()[x],
                *final(self.buf()) == *final(old(self).buf()),
            decreases k,
        {
            k -= 1;
            let ghost prev = self.bytes();
            let v = self.0[src + k];
            assert(v == old(self).bytes()[src + k]);
            self.0[dst + k] = v;
            assert(self.bytes() == prev.update(dst + k, v));
            assert forall|t: int| k <= t < len implies #[trigger] self.bytes()[dst + t] == old(
                self,
            ).bytes()[src + t] by {
                if t > k {
                    assert(prev[dst + t] == old(self).bytes()[src + t]);
                }
            }
        }
    }

    /// Moves all live tuples against the end of the page, in slot order,
    /// so that all free space is contiguous. Slot indices do not change.
    pub fn compact(&mut self)
        requires
            old(self).wf(),
        ensures
            final(self).wf(),
            final(self)@ == old(self)@,
            is_compaction(old(self).bytes(), final(self).bytes()),
            spec_free_end(final(self).bytes()) - spec_free_start(final(self).bytes()) == PAGE_SIZE
                - footprint(final(self)@),
            *final(final(self).buf()) == *final(old(self).buf()),
    {
        let ghost o = self.bytes();
        let mut back_ptr: usize = PAGE_SIZE;
        let n = self.num_slots();
        let mut i: u16 = 0;
        proof {
            lemma_compact_start(o);
        }
        while i < n
            invariant
                page_wf(o),
                o == old(self).bytes(),
                n == spec_num_slots(o),
                0 <= i <= n,
                back_ptr == PAGE_SIZE - used(spec_entries(o).take(i as int)),
                compact_inv(o, self.bytes(), i as int),
                *final(self.buf()) == *final(old(self).buf()),
            decreases n - i,
        {
            proof {
                lemma_compact_inv_slots(o, self.bytes(), i as int);
                lemma_used_step(spec_entries(o), i as int);
                lemma_packed_offset(o, i as int);
            }
            if self.slot_is_alive(i) {
                let offset = self.slot_offset(i) as usize;
                let size = self.slot_size(i) as usize;
                let ghost c0 = self.bytes();
                back_ptr -= size;
                self.set_slot_offset(i, back_ptr as u16);
                let ghost c1 = self.bytes();
                self.move_bytes(offset, size, back_ptr);
                proof {
                    lemma_compact_step_live(o, c0, c1, self.bytes(), i as int);
                }
            } else {
                proof {
                    lemma_compact_step_dead(o, self.bytes(), i as int);
                }
            }
            i += 1;
        }
        proof {
            lemma_used_all(spec_entries(o));
            lemma_used_fits(o, n as int);
        }
        let ghost c2 = self.bytes();
        self.set_free_end(back_ptr as u16);
        proof {
            lemma_compact_finish(o, c2, self.bytes());
            law_compaction_preserves_entries(o, self.bytes());
        }
    }

    /// Whether the free space as it stands holds `size` more bytes and a slot.
    fn has_enough_space(&self, size: usize) -> (r: bool)
        requires
            spec_free_start(self.bytes()) <= spec_free_end(self.bytes()),
        ensures
            r == fits_in_free_space(self.bytes(), size as int),
    {
        let free_size = (self.free_end() - self.free_start()) as usize;
        free_size >= SLOT_SIZE && free_size - SLOT_SIZE >= size
    }

    /// Copies `data` to the end of free space; returns where it now starts.
    fn write_to_free_space(&mut self, data: &[u8]) -> (start: u16)
        requires
            data@.len() <= spec_free_end(old(self).bytes()) <= PAGE_SIZE,
        ensures
            start == spec_free_end(old(self).bytes()) - data@.len(),
            final(self).bytes().subrange(start as int, spec_free_end(old(self).bytes())) == data@,
            forall|k: int|
                0 <= k < PAGE_SIZE && !(start <= k < spec_free_end(old(self).bytes()))
                    ==> #[trigger] final(self).bytes()[k] == old(self).bytes()[k],
            *final(final(self).buf()) == *final(old(self).buf()),
    {
        let end = self.free_end() as usize;
        let start = end - data.len();
        let mut i: usize = 0;
        while i < data.len()
            invariant
                start + data@.len() == end,
                end == spec_free_end(old(self).bytes()),
                end <= PAGE_SIZE,
                i <= data@.len(),
                forall|t: int| 0 <= t < i ==> #[trigger] self.bytes()[start + t] == data@[t],
                forall|k: int|
                    0 <= k < PAGE_SIZE && !(start <= k < start + i) ==> #[trigger] self.bytes()[k]
                        == old(self).bytes()[k],
                *final(self.buf()) == *final(old(self).buf()),
            decreases data@.len() - i,
        {
            let ghost prev = self.bytes();
            self.0[start + i] = data[i];
            assert(self.bytes() == prev.update(start + i, data@[i as int]));
            assert forall|t: int| 0 <= t < i + 1 implies #[trigger] self.bytes()[start + t] == data@[t] by {
                if t < i {
                    assert(prev[start + t] == data@[t]);
                }
            }
            i += 1;
        }
        assert forall|t: int| 0 <= t < data@.len() implies #[trigger] self.bytes().subrange(
            start as int,
            end as int,
        )[t] == data@[t] by {
            assert(self.bytes()[start + t] == data@[t]);
        }
        assert(self.bytes().subrange(start as int, end as int) =~= data@);
        start as u16
    }

    /// Appends a slot entry (`size`, `offset`) to the slot array and counts
    /// it in the header; returns the new end of the slot array.
    fn add_slot(&mut self, offset: u16, size: u16) -> (new_start: u16)
        requires
            spec_num_slots(old(self).bytes()) + 1 < 0x10000,
            slot_in_page(spec_num_slots(old(self).bytes())),
        ensures
            new_start == slot_pos(spec_num_slots(old(self).bytes())) + SLOT_SIZE,
            final(self).bytes() == put_u16(
                put_u16(
                    put_u16(old(self).bytes(), 4, spec_num_slots(old(self).bytes()) + 1),
                    slot_pos(spec_num_slots(old(self).bytes())),
                    size as int,
                ),
                slot_pos(spec_num_slots(old(self).bytes())) + 2,
                offset as int,
            ),
            *final(final(self).buf()) == *final(old(self).buf()),
    {
        let num_slots = self.num_slots();
        self.set_num_slots(num_slots + 1);
        let start = HEADER_SIZE + (num_slots as usize * SLOT_SIZE);
        let new_start = start + SLOT_SIZE;
        self.set_slot_size(num_slots, size);
        self.set_slot_offset(num_slots, offset);
        new_start as u16
    }

    /// Stores `data` as a new tuple in a new slot and returns the slot's
    /// index. When the free space is too small the page is compacted first;
    /// when even then the tuple and its slot do not fit, returns `None`.
    pub fn insert(&mut self, data: &[u8]) -> (r: Option<SlotIndex>)
        requires
            old(self).wf(),
            data@.len() <= PAGE_SIZE - HEADER_SIZE - SLOT_SIZE,
        ensures
            final(self).wf(),
            r is Some <==> footprint(old(self)@.push(Some(data@))) <= PAGE_SIZE,
            r matches Some(idx) ==> idx == old(self)@.len() && final(self)@ == old(self)@.push(
                Some(data@),
            ),
            r is None ==> final(self)@ == old(self)@,
            fits_in_free_space(old(self).bytes(), data@.len() as int) ==> is_placement(
                old(self).bytes(),
                final(self).bytes(),
                data@,
            ),
            !fits_in_free_space(old(self).bytes(), data@.len() as int) ==> exists|mid: Seq<u8>|
                #[trigger] is_compaction(old(self).bytes(), mid) && (r is Some ==> is_placement(
                    mid,
                    final(self).bytes(),
                    data@,
                )) && (r is None ==> final(self).bytes() == mid),
            *final(final(self).buf()) == *final(old(self).buf()),
    {
        let size = data.len();
        let ghost o = self.bytes();
        let ghost mut mid = o;
        proof {
            lemma_used_push(self@, Some(data@));
            lemma_used_fits(o, spec_num_slots(o));
            lemma_used_all(self@);
        }
        if !self.has_enough_space(size) {
            self.compact();
            proof {
                mid = self.bytes();
            }
            if !self.has_enough_space(size) {
                return None;
            }
        }
        let new_end = self.write_to_free_space(data);
        let ghost c1 = self.bytes();
        let new_start = self.add_slot(new_end, size as u16);
        let ghost c2 = self.bytes();
        self.set_free_start(new_start);
        let ghost c3 = self.bytes();
        self.set_free_end(new_end);
        proof {
            lemma_insert_bytes(mid, c1, c2, c3, self.bytes(), data@);
            law_placement(mid, self.bytes(), data@);
        }
        Some(self.num_slots() - 1)
    }
}

} // verus!
