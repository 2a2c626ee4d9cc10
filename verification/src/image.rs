//! The file image: how a table is read from the bytes of its file and
//! written to them, and what makes bytes a table.

use crate::content::{
    allocated, block_of, coherent, flags, in_region, is_block, key_of, lemma_content_update, values,
};
use crate::header::{
    bit_is_set, is_be, lemma_swap_reads, lemma_u16_round_trip, lemma_u32_round_trip,
    lemma_u64_round_trip, lemma_with_bit, read_u16, read_u32, read_u64, u16_at, u16_bytes, u32_at,
    u32_bytes, u64_at, u64_bytes, with_bit, write_number, Header, ENTRY_SIZE, HEADER_SIZE,
    INDEX_HEADER, INITIAL_INDEX_CAPACITY,
};
use crate::index::{
    holds, ideal, lemma_ideal_bound, lemma_locate_misses, no_dup, occupancy, passes, ring_dist,
    robin_hood, sizes_ok, Entry as IndexEntry, EntryData as IndexEntryData, Index, LocateResult,
};
use crate::memmngr::{
    at_least_one, gap_hi, gap_lo, layout, lemma_block_in_region, lemma_blocks_apart,
    lemma_insert_contains, rank_of, MemoryManagment, Used,
};
use crate::table::{hash_key, hash_of, match_key, max_usage, Error, Table, MAX_FILE_SIZE};
use vstd::prelude::*;

verus! {

/// The blocks of two entries do not overlap.
pub open spec fn apart(e1: IndexEntry, e2: IndexEntry) -> bool {
    e1.data.position + at_least_one(e1.data.size) <= e2.data.position || e2.data.position
        + at_least_one(e2.data.size) <= e1.data.position
}

/// Every entry lies in the data region, with its key inside it, and no two
/// different entries overlap.
pub open spec fn placed(slots: Seq<IndexEntry>, len: nat, ds: u64) -> bool {
    &&& forall|e: IndexEntry| #[trigger] holds(slots, e) ==> in_region(e, len, ds)
    &&& forall|e1: IndexEntry, e2: IndexEntry|
        #[trigger] holds(slots, e1) && #[trigger] holds(slots, e2) && e1 != e2 ==> apart(e1, e2)
}

/// `u` is the block of an entry in one of the first `p` slots.
pub open spec fn from_slot(slots: Seq<IndexEntry>, p: int, u: Used) -> bool {
    exists|q: int| 0 <= q < p && (#[trigger] slots[q]).used() && block_of(slots[q]) == u
}

/// What holds of the blocks that were collected from the first `p` slots.
pub open spec fn collected(slots: Seq<IndexEntry>, p: int, used: Seq<Used>, len: nat, ds: u64) -> bool {
    &&& 0 <= p <= slots.len()
    &&& forall|j: int, k: int|
        0 <= j < k < used.len() ==> (#[trigger] used[j]).start < (#[trigger] used[k]).start
    &&& forall|k: int| 0 <= k < used.len() ==> from_slot(slots, p, #[trigger] used[k])
    &&& forall|q: int|
        0 <= q < p && (#[trigger] slots[q]).used() ==> used.contains(block_of(slots[q]))
            && in_region(slots[q], len, ds)
    &&& forall|q1: int, q2: int|
        0 <= q1 < q2 < p && (#[trigger] slots[q1]).used() && (#[trigger] slots[q2]).used()
            ==> slots[q1].data.position != slots[q2].data.position
}

/// The blocks collected from entries that are placed well are a layout.
pub proof fn lemma_collected_layout(
    slots: Seq<IndexEntry>,
    used: Seq<Used>,
    start: u64,
    end: u64,
)
    requires
        start <= end,
        end - start <= u32::MAX,
        collected(slots, slots.len() as int, used, (end - start) as nat, start),
        placed(slots, (end - start) as nat, start),
    ensures
        layout(used, start, end),
{
    let p = slots.len() as int;
    assert forall|i: int| 0 <= i < used.len() implies (#[trigger] used[i]).size > 0 by {
        assert(from_slot(slots, p, used[i]));
    }
    assert forall|i: int| 0 <= i <= used.len() implies #[trigger] gap_lo(used, start, i)
        <= gap_hi(used, end, i) by {
        if i > 0 {
            assert(from_slot(slots, p, used[i - 1]));
            let q1 = choose|q: int|
                0 <= q < p && (#[trigger] slots[q]).used() && block_of(slots[q]) == used[i - 1];
            assert(holds(slots, slots[q1]));
            if i < used.len() {
                assert(from_slot(slots, p, used[i]));
                let q2 = choose|q: int|
                    0 <= q < p && (#[trigger] slots[q]).used() && block_of(slots[q]) == used[i];
                assert(holds(slots, slots[q2]));
                assert(used[i - 1].start < used[i].start);
                assert(apart(slots[q1], slots[q2]));
            }
        } else if i < used.len() {
            assert(from_slot(slots, p, used[i]));
            let q2 = choose|q: int|
                0 <= q < p && (#[trigger] slots[q]).used() && block_of(slots[q]) == used[i];
            assert(holds(slots, slots[q2]));
        }
    }
}

/// Blocks that were collected from all slots and are a layout agree with the
/// slots, the entries are placed well, and no entry is there twice.
pub proof fn lemma_collected_allocated(
    slots: Seq<IndexEntry>,
    used: Seq<Used>,
    start: u64,
    end: u64,
)
    requires
        start <= end,
        collected(slots, slots.len() as int, used, (end - start) as nat, start),
        layout(used, start, end),
    ensures
        allocated(slots, used),
        placed(slots, (end - start) as nat, start),
        no_dup(slots),
{
    let p = slots.len() as int;
    assert forall|e: IndexEntry| #[trigger] holds(slots, e) implies used.contains(block_of(e))
        && in_region(e, (end - start) as nat, start) by {
        let q = choose|q: int| 0 <= q < slots.len() && slots[q] == e;
        assert(slots[q].used());
    }
    assert forall|i: int| 0 <= i < used.len() implies is_block(slots, #[trigger] used[i]) by {
        assert(from_slot(slots, p, used[i]));
        let q = choose|q: int|
            0 <= q < p && (#[trigger] slots[q]).used() && block_of(slots[q]) == used[i];
        assert(holds(slots, slots[q]));
    }
    assert forall|e1: IndexEntry, e2: IndexEntry|
        #[trigger] holds(slots, e1) && #[trigger] holds(slots, e2) && e1.data.position
            == e2.data.position implies e1 == e2 by {
        let q1 = choose|q: int| 0 <= q < slots.len() && slots[q] == e1;
        let q2 = choose|q: int| 0 <= q < slots.len() && slots[q] == e2;
        assert(slots[q1].used() && slots[q2].used());
        if q1 < q2 {
            assert(slots[q1].data.position != slots[q2].data.position);
        }
        if q2 < q1 {
            assert(slots[q2].data.position != slots[q1].data.position);
        }
    }
    assert forall|e1: IndexEntry, e2: IndexEntry|
        #[trigger] holds(slots, e1) && #[trigger] holds(slots, e2) && e1 != e2 implies apart(
        e1,
        e2,
    ) by {
        assert(used.contains(block_of(e1)));
        assert(used.contains(block_of(e2)));
        lemma_blocks_apart(used, start, end, block_of(e1), block_of(e2));
    }
    assert forall|q1: int, q2: int|
        0 <= q1 < slots.len() && 0 <= q2 < slots.len() && q1 != q2 && (#[trigger] slots[q1]).used()
            && (#[trigger] slots[q2]).used() implies slots[q1] != slots[q2] by {
        if q1 < q2 {
            assert(slots[q1].data.position != slots[q2].data.position);
        } else {
            assert(slots[q2].data.position != slots[q1].data.position);
        }
    }
}

/// Entries that agree with a valid allocator are placed well.
pub proof fn lemma_allocated_placed(
    slots: Seq<IndexEntry>,
    used: Seq<Used>,
    start: u64,
    end: u64,
)
    requires
        allocated(slots, used),
        layout(used, start, end),
        crate::index::sizes_ok(slots),
    ensures
        placed(slots, (end - start) as nat, start),
{
    assert forall|e: IndexEntry| #[trigger] holds(slots, e) implies in_region(
        e,
        (end - start) as nat,
        start,
    ) by {
        assert(used.contains(block_of(e)));
        lemma_block_in_region(used, start, end, block_of(e));
        let q = choose|q: int| 0 <= q < slots.len() && slots[q] == e;
        assert(slots[q].used());
    }
    assert forall|e1: IndexEntry, e2: IndexEntry|
        #[trigger] holds(slots, e1) && #[trigger] holds(slots, e2) && e1 != e2 implies apart(
        e1,
        e2,
    ) by {
        assert(used.contains(block_of(e1)));
        assert(used.contains(block_of(e2)));
        if block_of(e1) == block_of(e2) {
            assert(e1.data.position == e2.data.position);
        }
        lemma_blocks_apart(used, start, end, block_of(e1), block_of(e2));
    }
}

/// Collecting goes on over an empty slot.
pub proof fn lemma_collect_skip(slots: Seq<IndexEntry>, p: int, used: Seq<Used>, len: nat, ds: u64)
    requires
        collected(slots, p, used, len, ds),
        p < slots.len(),
        !slots[p].used(),
    ensures
        collected(slots, p + 1, used, len, ds),
{
    assert forall|k: int| 0 <= k < used.len() implies from_slot(slots, p + 1, #[trigger] used[k]) by {
        assert(from_slot(slots, p, used[k]));
        let q = choose|q: int|
            0 <= q < p && (#[trigger] slots[q]).used() && block_of(slots[q]) == used[k];
        assert(slots[q].used());
    }
}

/// Collecting goes on over an entry that lies in the region and starts
/// where no block was collected yet.
pub proof fn lemma_collect_step(
    slots: Seq<IndexEntry>,
    p: int,
    used: Seq<Used>,
    used2: Seq<Used>,
    len: nat,
    ds: u64,
)
    requires
        collected(slots, p, used, len, ds),
        p < slots.len(),
        slots[p].used(),
        in_region(slots[p], len, ds),
        !crate::memmngr::starts_block(used, slots[p].data.position),
        used2 == used.insert(rank_of(used, slots[p].data.position), block_of(slots[p])),
    ensures
        collected(slots, p + 1, used2, len, ds),
{
    let e = slots[p];
    let pos = e.data.position;
    let k = rank_of(used, pos);
    let b = block_of(e);
    assert(crate::memmngr::used_sorted(used)) by {
        assert forall|i: int, j: int| 0 <= i < j < used.len() implies (#[trigger] used[i]).start <= (
        #[trigger] used[j]).start by {
            assert(used[i].start < used[j].start);
        }
    }
    crate::memmngr::lemma_rank_split(used, pos);
    lemma_insert_contains(used, k, b);
    used.insert_ensures(k, b);
    assert forall|j: int| k < j < used2.len() implies #[trigger] used2[j] == used[j - 1] by {
        assert(used2[(j - 1) + 1] == used[j - 1]);
    }
    assert forall|j: int, l: int| 0 <= j < l < used2.len() implies (#[trigger] used2[j]).start < (
    #[trigger] used2[l]).start by {
        if j < k && l < k {
            assert(used[j].start < used[l].start);
        } else if j < k && l == k {
            assert(used[j].start < pos);
        } else if j < k {
            assert(used[j].start < pos);
            assert(used[l - 1].start >= pos);
        } else if j == k {
            assert(used[l - 1].start >= pos);
            assert(used[l - 1].start != pos);
        } else {
            assert(used[j - 1].start < used[l - 1].start);
        }
    }
    assert forall|i: int| 0 <= i < used2.len() implies from_slot(slots, p + 1, #[trigger] used2[i]) by {
        assert(used2.contains(used2[i]));
        if used2[i] == b {
            assert(slots[p].used() && block_of(slots[p]) == b);
        } else {
            assert(used.contains(used2[i]));
            let j = choose|j: int| 0 <= j < used.len() && used[j] == used2[i];
            assert(from_slot(slots, p, used[j]));
            let q = choose|q: int|
                0 <= q < p && (#[trigger] slots[q]).used() && block_of(slots[q]) == used[j];
            assert(slots[q].used() && block_of(slots[q]) == used2[i]);
        }
    }
    assert forall|q: int| 0 <= q < p + 1 && (#[trigger] slots[q]).used() implies used2.contains(
        block_of(slots[q]),
    ) && in_region(slots[q], len, ds) by {
        if q < p {
            assert(used.contains(block_of(slots[q])));
        }
    }
    assert forall|q1: int, q2: int|
        0 <= q1 < q2 < p + 1 && (#[trigger] slots[q1]).used() && (#[trigger] slots[q2]).used() implies slots[q1].data.position
        != slots[q2].data.position by {
        if q2 == p {
            assert(used.contains(block_of(slots[q1])));
            let j = choose|j: int| 0 <= j < used.len() && used[j] == block_of(slots[q1]);
            assert(used[j].start == slots[q1].data.position);
        }
    }
}

/// Builds the allocator of the region `[start, end)` from the entries of
/// the index, if they lie in the region without overlap.
pub fn build_mem(index: &Index, start: u64, end: u64) -> (r: Option<MemoryManagment>)
    requires
        start <= end,
        end - start <= u32::MAX,
    ensures
        r matches Some(m) ==> m.valid() && m.start_spec() == start && m.end_spec() == end
            && allocated(index.slots(), m.used_view()),
        r is Some <==> placed(index.slots(), (end - start) as nat, start) && no_dup(
            index.slots(),
        ),
{
    let mut mem = MemoryManagment::new(start, end);
    let entries = index.get_entries();
    let ghost slots = index.slots();
    let ghost len = (end - start) as nat;
    let mut p: usize = 0;
    while p < entries.len()
        invariant
            p <= slots.len(),
            entries@ == slots,
            slots == index.slots(),
            mem.loading(),
            mem.start_spec() == start,
            mem.end_spec() == end,
            start <= end,
            len == end - start,
            collected(slots, p as int, mem.used_view(), len, start),
        decreases slots.len() - p,
    {
        let e = entries[p];
        let ghost used = mem.used_view();
        if e.is_used() {
            let size: u32 = if e.data.size == 0 { 1 } else { e.data.size };
            if e.data.key_size as u32 > e.data.size || e.data.position < start || e.data.position
                > end || end - e.data.position < size as u64 {
                proof {
                    assert(holds(slots, slots[p as int]));
                }
                return None;
            }
            if mem.has_block_at(e.data.position) {
                proof {
                    let k = choose|k: int|
                        0 <= k < used.len() && (#[trigger] used[k]).start == e.data.position;
                    assert(from_slot(slots, p as int, used[k]));
                    let q = choose|q: int|
                        0 <= q < p && (#[trigger] slots[q]).used() && block_of(slots[q])
                            == used[k];
                    assert(holds(slots, slots[q]));
                    assert(holds(slots, slots[p as int]));
                    if slots[q] != slots[p as int] {
                        assert(!apart(slots[q], slots[p as int]));
                    }
                }
                return None;
            }
            mem.set_used(e.data.position, e.data.size, e.hash);
            proof {
                lemma_collect_step(slots, p as int, used, mem.used_view(), len, start);
            }
        } else {
            proof {
                lemma_collect_skip(slots, p as int, used, len, start);
            }
        }
        p += 1;
    }
    proof {
        if placed(slots, len, start) {
            lemma_collected_layout(slots, mem.used_view(), start, end);
        }
    }
    if !mem.check_layout() {
        return None;
    }
    proof {
        lemma_collected_allocated(slots, mem.used_view(), start, end);
    }
    mem.fix_up();
    Some(mem)
}


/// Whether the image says it was written on a big-endian machine.
pub open spec fn image_big(b: Seq<u8>) -> bool {
    bit_is_set(b[16], 1)
}

/// Whether the image's dirty flag is set.
pub open spec fn image_dirty(b: Seq<u8>) -> bool {
    bit_is_set(b[16], 0)
}

/// The number of slots that the image has.
pub open spec fn image_capacity(b: Seq<u8>) -> u32 {
    u32_at(b, 32, image_big(b))
}

/// The slot stored in `b` at `off`, in the given byte order.
pub open spec fn slot_at(b: Seq<u8>, off: int, big: bool) -> IndexEntry {
    IndexEntry {
        hash: u64_at(b, off, big),
        data: IndexEntryData {
            position: u64_at(b, off + 8, big),
            size: u32_at(b, off + 16, big),
            key_size: u16_at(b, off + 20, big),
            flags: u16_at(b, off + 22, big),
        },
    }
}

/// The slots of the image.
pub open spec fn image_slots(b: Seq<u8>) -> Seq<IndexEntry> {
    Seq::new(
        image_capacity(b) as nat,
        |i: int| slot_at(b, HEADER_SIZE + i * ENTRY_SIZE, image_big(b)),
    )
}

/// Where the data region of the image starts.
pub open spec fn image_data_start(b: Seq<u8>) -> int {
    HEADER_SIZE + image_capacity(b) * ENTRY_SIZE
}

/// The data region of the image.
pub open spec fn image_data(b: Seq<u8>) -> Seq<u8> {
    b.subrange(image_data_start(b), b.len() as int)
}

/// The image has the magic bytes, a capacity that is a power of two and no
/// less than that of a new table, and room for its slots.
pub open spec fn framed(b: Seq<u8>) -> bool {
    &&& HEADER_SIZE <= b.len() <= MAX_FILE_SIZE
    &&& b.subrange(0, 16) == INDEX_HEADER@
    &&& image_capacity(b) >= INITIAL_INDEX_CAPACITY
    &&& ((image_capacity(b) - 1) as u64) & (image_capacity(b) as u64) == 0
    &&& image_data_start(b) <= b.len()
}

/// What is asked of slots and data bytes, in whatever order the entries are:
/// for each entry a key no longer than the entry, no entry twice, each in
/// the data region under the hash of its key, no key twice, no overlap, and
/// no more entries than the capacity admits.
pub open spec fn stored(slots: Seq<IndexEntry>, data: Seq<u8>, ds: u64, capacity: int) -> bool {
    &&& sizes_ok(slots)
    &&& no_dup(slots)
    &&& coherent(slots, data, ds)
    &&& placed(slots, data.len(), ds)
    &&& occupancy(slots) <= max_usage(capacity) + 1
}

/// Why an image that is no table is refused: `WrongHeader` where it is
/// shorter than a header or does not begin with the magic bytes, and for
/// whatever else is wrong with an image that begins well; `Io` where an
/// image that begins with the magic bytes is longer than a file can be.
pub open spec fn refusal(b: Seq<u8>) -> Error {
    if b.len() >= HEADER_SIZE && b.subrange(0, 16) == INDEX_HEADER@ && b.len() > MAX_FILE_SIZE {
        Error::Io
    } else {
        Error::WrongHeader
    }
}

/// The image is a table: it is framed, its entries are stored well, and
/// unless it is marked dirty its slots are in probe order.
pub open spec fn valid_image(b: Seq<u8>) -> bool {
    &&& framed(b)
    &&& stored(
        image_slots(b),
        image_data(b),
        image_data_start(b) as u64,
        image_capacity(b) as int,
    )
    &&& image_dirty(b) || robin_hood(image_slots(b), (image_capacity(b) - 1) as u64)
}

/// The values by key that the image holds.
pub open spec fn image_values(b: Seq<u8>) -> Map<Seq<u8>, Seq<u8>> {
    values(image_slots(b), image_data(b), image_data_start(b) as u64)
}

/// The flags by key that the image holds.
pub open spec fn image_flags(b: Seq<u8>) -> Map<Seq<u8>, u16> {
    flags(image_slots(b), image_data(b), image_data_start(b) as u64)
}

/// What slots and bytes are asked, and the contents, depend on the entries
/// alone, not on the slots they are in.
pub proof fn lemma_same_entries(
    slots: Seq<IndexEntry>,
    slots2: Seq<IndexEntry>,
    data: Seq<u8>,
    ds: u64,
)
    requires
        forall|x: IndexEntry| #[trigger] holds(slots2, x) <==> holds(slots, x),
    ensures
        coherent(slots, data, ds) ==> coherent(slots2, data, ds) && values(slots2, data, ds)
            == values(slots, data, ds) && flags(slots2, data, ds) == flags(slots, data, ds),
        placed(slots, data.len(), ds) ==> placed(slots2, data.len(), ds),
        sizes_ok(slots) ==> sizes_ok(slots2),
{
    if coherent(slots, data, ds) {
        assert forall|x: IndexEntry| #[trigger] holds(slots2, x) <==> (holds(slots, x)
            && None::<IndexEntry> != Some(x)) || None::<IndexEntry> == Some(x) by {}
        lemma_content_update(slots, data, ds, slots2, data, ds, None, None);
    }
    if placed(slots, data.len(), ds) {
        assert forall|e: IndexEntry| #[trigger] holds(slots2, e) implies in_region(
            e,
            data.len(),
            ds,
        ) by {
            assert(holds(slots, e));
        }
        assert forall|e1: IndexEntry, e2: IndexEntry|
            #[trigger] holds(slots2, e1) && #[trigger] holds(slots2, e2) && e1 != e2 implies apart(
            e1,
            e2,
        ) by {
            assert(holds(slots, e1) && holds(slots, e2));
        }
    }
    if sizes_ok(slots) {
        assert forall|p: int| 0 <= p < slots2.len() && (#[trigger] slots2[p]).used() implies slots2[p].data.key_size
            <= slots2[p].data.size by {
            assert(holds(slots2, slots2[p]));
            assert(holds(slots, slots2[p]));
            let q = choose|q: int| 0 <= q < slots.len() && slots[q] == slots2[p];
            assert(slots[q].used());
        }
    }
}

/// Reads the header of an image. The capacity is read in the machine's
/// byte order and turned round if the image has the other one. Says also
/// whether that is so.
fn parse_header(image: &[u8], native_big: bool) -> (r: (Header, bool))
    requires
        image@.len() >= HEADER_SIZE,
    ensures
        r.0.header@ == image@.subrange(0, 16),
        r.0.flags@ == image@.subrange(16, 32),
        r.0.index_capacity == image_capacity(image@),
        r.0.big_endian() == image_big(image@),
        r.0.dirty() == image_dirty(image@),
        r.1 == (image_big(image@) != native_big),
{
    let mut magic = [0u8;16];
    let mut bits = [0u8;16];
    let mut i: usize = 0;
    while i < 16
        invariant
            i <= 16,
            image@.len() >= 36,
            forall|j: int| 0 <= j < i ==> magic@[j] == image@[j] && bits@[j] == image@[16 + j],
        decreases 16 - i,
    {
        magic[i] = image[i];
        bits[i] = image[16 + i];
        i += 1;
    }
    proof {
        assert(magic@ =~= image@.subrange(0, 16));
        assert(bits@ =~= image@.subrange(16, 32));
    }
    let mut header = Header {
        header: magic,
        flags: bits,
        index_capacity: read_u32(image, 32, native_big),
    };
    let swap = !header.has_endianness(native_big);
    if swap {
        header.fix_endianness();
        proof {
            lemma_swap_reads(image@, 32, native_big);
        }
    }
    (header, swap)
}

/// Reads the slots of an image in the machine's byte order and turns them
/// round if the image has the other one. Counts the entries.
fn parse_slots(image: &[u8], capacity: usize, native_big: bool, swap: bool) -> (r: (
    Vec<IndexEntry>,
    usize,
))
    requires
        HEADER_SIZE + capacity * ENTRY_SIZE <= image@.len(),
        image@.len() <= MAX_FILE_SIZE,
        capacity == image_capacity(image@),
        swap == (image_big(image@) != native_big),
    ensures
        r.0@ == image_slots(image@),
        r.1 == occupancy(r.0@),
{
    let mut entries: Vec<IndexEntry> = Vec::new();
    let mut count: usize = 0;
    let mut i: usize = 0;
    let ghost big = image_big(image@);
    let ghost all = image_slots(image@);
    while i < capacity
        invariant
            i <= capacity,
            HEADER_SIZE + capacity * ENTRY_SIZE <= image@.len(),
            image@.len() <= MAX_FILE_SIZE,
            capacity == image_capacity(image@),
            swap == (big != native_big),
            big == image_big(image@),
            all == image_slots(image@),
            entries@ == all.take(i as int),
            count == occupancy(entries@),
            count <= i,
        decreases capacity - i,
    {
        let off = 36 + 24 * i;
        let mut e = IndexEntry {
            hash: read_u64(image, off, native_big),
            data: IndexEntryData {
                position: read_u64(image, off + 8, native_big),
                size: read_u32(image, off + 16, native_big),
                key_size: read_u16(image, off + 20, native_big),
                flags: read_u16(image, off + 22, native_big),
            },
        };
        if swap {
            e.fix_endianness();
            proof {
                lemma_swap_reads(image@, off as int, native_big);
                lemma_swap_reads(image@, off + 8, native_big);
                lemma_swap_reads(image@, off + 16, native_big);
                lemma_swap_reads(image@, off + 20, native_big);
                lemma_swap_reads(image@, off + 22, native_big);
            }
        }
        proof {
            assert(e == all[i as int]);
            assert(all.take(i as int + 1) =~= all.take(i as int).push(e));
            assert(all.take(i as int + 1).drop_last() =~= all.take(i as int));
        }
        if e.is_used() {
            count += 1;
        }
        entries.push(e);
        i += 1;
    }
    proof {
        assert(all.take(capacity as int) =~= all);
    }
    (entries, count)
}

/// A copy of the bytes from index `from` on.
pub(crate) fn copy_tail(bytes: &[u8], from: usize) -> (r: Vec<u8>)
    requires
        from <= bytes@.len(),
    ensures
        r@ == bytes@.subrange(from as int, bytes@.len() as int),
{
    let mut out: Vec<u8> = Vec::new();
    let mut i = from;
    while i < bytes.len()
        invariant
            from <= i <= bytes@.len(),
            out@ == bytes@.subrange(from as int, i as int),
        decreases bytes@.len() - i,
    {
        out.push(bytes[i]);
        proof {
            assert(out@ =~= bytes@.subrange(from as int, i as int + 1));
        }
        i += 1;
    }
    out
}

/// Byte `j` of the 24 bytes of a slot in the given byte order.
pub open spec fn slot_byte(e: IndexEntry, j: int, big: bool) -> u8 {
    if j < 8 {
        u64_bytes(e.hash, big)[j]
    } else if j < 16 {
        u64_bytes(e.data.position, big)[j - 8]
    } else if j < 20 {
        u32_bytes(e.data.size, big)[j - 16]
    } else if j < 22 {
        u16_bytes(e.data.key_size, big)[j - 20]
    } else {
        u16_bytes(e.data.flags, big)[j - 22]
    }
}

/// The file image of flag bytes, slots and data in the given byte order.
pub open spec fn image_of(flag_bytes: Seq<u8>, slots: Seq<IndexEntry>, data: Seq<u8>, big: bool) -> Seq<
    u8,
> {
    Seq::new(
        (36 + 24 * slots.len() + data.len()) as nat,
        |k: int|
            if k < 16 {
                INDEX_HEADER@[k]
            } else if k < 32 {
                flag_bytes[k - 16]
            } else if k < 36 {
                u32_bytes(slots.len() as u32, big)[k - 32]
            } else if k < 36 + 24 * slots.len() {
                slot_byte(slots[(k - 36) / 24], (k - 36) % 24, big)
            } else {
                data[k - 36 - 24 * slots.len()]
            },
    )
}

/// Reading an image gives back what it was made of.
pub proof fn lemma_image_round_trip(
    flag_bytes: Seq<u8>,
    slots: Seq<IndexEntry>,
    data: Seq<u8>,
    big: bool,
)
    requires
        flag_bytes.len() == 16,
        bit_is_set(flag_bytes[0], 1) == big,
        slots.len() <= u32::MAX,
    ensures
        image_of(flag_bytes, slots, data, big).len() == 36 + 24 * slots.len() + data.len(),
        image_of(flag_bytes, slots, data, big).subrange(0, 16) == INDEX_HEADER@,
        image_of(flag_bytes, slots, data, big).subrange(16, 32) == flag_bytes,
        image_big(image_of(flag_bytes, slots, data, big)) == big,
        image_dirty(image_of(flag_bytes, slots, data, big)) == bit_is_set(flag_bytes[0], 0),
        image_capacity(image_of(flag_bytes, slots, data, big)) == slots.len(),
        image_slots(image_of(flag_bytes, slots, data, big)) == slots,
        image_data(image_of(flag_bytes, slots, data, big)) == data,
{
    let b = image_of(flag_bytes, slots, data, big);
    assert(b.subrange(0, 16) =~= INDEX_HEADER@);
    assert(b.subrange(16, 32) =~= flag_bytes);
    assert(b[16] == flag_bytes[0]);
    lemma_u32_round_trip(slots.len() as u32, big);
    let cb = u32_bytes(slots.len() as u32, big);
    assert(b[32] == cb[0] && b[33] == cb[1] && b[34] == cb[2] && b[35] == cb[3]);
    assert(image_capacity(b) == slots.len());
    assert forall|i: int| 0 <= i < slots.len() implies slot_at(b, 36 + i * 24, big)
        == #[trigger] slots[i] by {
        let e = slots[i];
        let off = 36 + i * 24;
        assert forall|j: int| 0 <= j < 24 implies #[trigger] b[off + j] == slot_byte(e, j, big) by {
            assert((off + j - 36) / 24 == i);
            assert((off + j - 36) % 24 == j);
        }
        lemma_u64_round_trip(e.hash, big);
        lemma_u64_round_trip(e.data.position, big);
        lemma_u32_round_trip(e.data.size, big);
        lemma_u16_round_trip(e.data.key_size, big);
        lemma_u16_round_trip(e.data.flags, big);
        let hb = u64_bytes(e.hash, big);
        assert(b[off + 0] == hb[0] && b[off + 1] == hb[1] && b[off + 2] == hb[2] && b[off + 3]
            == hb[3] && b[off + 4] == hb[4] && b[off + 5] == hb[5] && b[off + 6] == hb[6] && b[off
            + 7] == hb[7]);
        assert(u64_at(b, off, big) == e.hash);
        let pb = u64_bytes(e.data.position, big);
        assert(b[off + 8] == pb[0] && b[off + 9] == pb[1] && b[off + 10] == pb[2] && b[off + 11]
            == pb[3] && b[off + 12] == pb[4] && b[off + 13] == pb[5] && b[off + 14] == pb[6]
            && b[off + 15] == pb[7]);
        assert(u64_at(b, off + 8, big) == e.data.position);
        let sb = u32_bytes(e.data.size, big);
        assert(b[off + 16] == sb[0] && b[off + 17] == sb[1] && b[off + 18] == sb[2] && b[off + 19]
            == sb[3]);
        assert(u32_at(b, off + 16, big) == e.data.size);
        let kb = u16_bytes(e.data.key_size, big);
        assert(b[off + 20] == kb[0] && b[off + 21] == kb[1]);
        assert(u16_at(b, off + 20, big) == e.data.key_size);
        let fb = u16_bytes(e.data.flags, big);
        assert(b[off + 22] == fb[0] && b[off + 23] == fb[1]);
        assert(u16_at(b, off + 22, big) == e.data.flags);
    }
    assert(image_slots(b) =~= slots);
    assert(image_data(b) =~= data);
}

/// No entry on the probe path of the entry in slot `q` has its hash and its key.
pub open spec fn key_found(slots: Seq<IndexEntry>, mask: u64, data: Seq<u8>, ds: u64, q: int) -> bool {
    forall|x: int|
        0 <= x < slots.len() && ring_dist(ideal(slots[q].hash, mask), x, mask + 1) < ring_dist(
            ideal(slots[q].hash, mask),
            q,
            mask + 1,
        ) ==> !((#[trigger] slots[x]).hash == slots[q].hash && key_of(slots[x], data, ds)
            == key_of(slots[q], data, ds))
}

/// Entries that are each stored under the hash of their key, and found
/// first on their probe path under that key, have keys of their own.
pub proof fn lemma_keys_differ(slots: Seq<IndexEntry>, mask: u64, data: Seq<u8>, ds: u64)
    requires
        slots.len() == mask + 1,
        forall|e: IndexEntry| #[trigger]
            holds(slots, e) ==> in_region(e, data.len(), ds) && e.hash == hash_of(
                key_of(e, data, ds),
            ),
        forall|q: int|
            0 <= q < slots.len() && (#[trigger] slots[q]).used() ==> key_found(
                slots,
                mask,
                data,
                ds,
                q,
            ),
    ensures
        coherent(slots, data, ds),
{
    lemma_ideal_bound(slots, mask);
    assert forall|e1: IndexEntry, e2: IndexEntry|
        #[trigger] holds(slots, e1) && #[trigger] holds(slots, e2) && key_of(e1, data, ds)
            == key_of(e2, data, ds) implies e1 == e2 by {
        let q1 = choose|q: int| 0 <= q < slots.len() && slots[q] == e1;
        let q2 = choose|q: int| 0 <= q < slots.len() && slots[q] == e2;
        assert(slots[q1].used() && slots[q2].used());
        assert(key_found(slots, mask, data, ds, q1));
        assert(key_found(slots, mask, data, ds, q2));
        let a = ideal(e1.hash, mask);
        if q1 != q2 {
            if ring_dist(a, q1, mask + 1) < ring_dist(a, q2, mask + 1) {
                assert(!(slots[q1].hash == slots[q2].hash && key_of(slots[q1], data, ds) == key_of(
                    slots[q2],
                    data,
                    ds,
                )));
            } else {
                assert(!(slots[q2].hash == slots[q1].hash && key_of(slots[q2], data, ds) == key_of(
                    slots[q1],
                    data,
                    ds,
                )));
            }
        }
    }
}

/// Two sequences of blocks that agree with the same slots contain the same blocks.
pub proof fn lemma_allocated_same(slots: Seq<IndexEntry>, a: Seq<Used>, b: Seq<Used>)
    requires
        allocated(slots, a),
        allocated(slots, b),
    ensures
        forall|u: Used| #[trigger] a.contains(u) <==> b.contains(u),
{
    assert forall|u: Used| #[trigger] a.contains(u) <==> b.contains(u) by {
        if a.contains(u) {
            let i = choose|i: int| 0 <= i < a.len() && a[i] == u;
            assert(is_block(slots, a[i]));
            let e = choose|e: IndexEntry| #[trigger] holds(slots, e) && block_of(e) == u;
            assert(b.contains(block_of(e)));
        }
        if b.contains(u) {
            let i = choose|i: int| 0 <= i < b.len() && b[i] == u;
            assert(is_block(slots, b[i]));
            let e = choose|e: IndexEntry| #[trigger] holds(slots, e) && block_of(e) == u;
            assert(a.contains(block_of(e)));
        }
    }
}

/// Whether two sequences of blocks are the same.
fn same_blocks(a: &Vec<Used>, b: &Vec<Used>) -> (r: bool)
    ensures
        r == (a@ == b@),
{
    if a.len() != b.len() {
        return false;
    }
    let mut i: usize = 0;
    while i < a.len()
        invariant
            i <= a@.len(),
            a@.len() == b@.len(),
            forall|j: int| 0 <= j < i ==> a@[j] == b@[j],
        decreases a@.len() - i,
    {
        if a[i].start != b[i].start || a[i].size != b[i].size || a[i].hash != b[i].hash {
            return false;
        }
        i += 1;
    }
    assert(a@ =~= b@);
    true
}

/// Whether the 16 bytes are the magic bytes.
fn is_magic(bytes: &[u8; 16]) -> (r: bool)
    ensures
        r == (bytes@ == INDEX_HEADER@),
{
    let mut i: usize = 0;
    while i < 16
        invariant
            i <= 16,
            forall|j: int| 0 <= j < i ==> bytes@[j] == INDEX_HEADER@[j],
        decreases 16 - i,
    {
        if bytes[i] != INDEX_HEADER[i] {
            return false;
        }
        i += 1;
    }
    assert(bytes@ =~= INDEX_HEADER@);
    true
}

/// What is left in a file when a change of its geometry did not come to its
/// end is an image with the dirty bit set and its slots in whatever order.
/// As long as each entry is stored well, such an image is a table's, and it
/// holds the entries of its slots: `Table::open_as` reads it, rebuilds the
/// index and clears the bit.
pub proof fn law_dirty_image_is_read(
    flag_bytes: Seq<u8>,
    slots: Seq<IndexEntry>,
    data: Seq<u8>,
    big: bool,
)
    requires
        flag_bytes.len() == 16,
        bit_is_set(flag_bytes[0], 1) == big,
        bit_is_set(flag_bytes[0], 0),
        INITIAL_INDEX_CAPACITY <= slots.len() <= u32::MAX,
        ((slots.len() - 1) as u64) & (slots.len() as u64) == 0,
        HEADER_SIZE + slots.len() * ENTRY_SIZE + data.len() <= MAX_FILE_SIZE,
        stored(
            slots,
            data,
            (HEADER_SIZE + slots.len() * ENTRY_SIZE) as u64,
            slots.len() as int,
        ),
    ensures
        image_dirty(image_of(flag_bytes, slots, data, big)),
        valid_image(image_of(flag_bytes, slots, data, big)),
        image_values(image_of(flag_bytes, slots, data, big)) == values(
            slots,
            data,
            (HEADER_SIZE + slots.len() * ENTRY_SIZE) as u64,
        ),
        image_flags(image_of(flag_bytes, slots, data, big)) == flags(
            slots,
            data,
            (HEADER_SIZE + slots.len() * ENTRY_SIZE) as u64,
        ),
{
    lemma_image_round_trip(flag_bytes, slots, data, big);
}

impl Table {
    /// Whether every entry is stored under the hash of its key and no key
    /// is there twice.
    pub(crate) fn check_content(&self) -> (r: bool)
        requires
            self.index.valid(),
            placed(self.index.slots(), self.data@.len(), self.data_start),
        ensures
            r == coherent(self.index.slots(), self.data@, self.data_start),
    {
        let entries = self.index.get_entries();
        let ghost slots = self.index.slots();
        let ghost data = self.data@;
        let ghost ds = self.data_start;
        let ghost mask = self.index.mask_of();
        let mut p: usize = 0;
        while p < entries.len()
            invariant
                p <= slots.len(),
                entries@ == slots,
                slots == self.index.slots(),
                data == self.data@,
                ds == self.data_start,
                placed(slots, data.len(), ds),
                forall|q: int|
                    0 <= q < p && (#[trigger] slots[q]).used() ==> slots[q].hash == hash_of(
                        key_of(slots[q], data, ds),
                    ),
            decreases slots.len() - p,
        {
            let e = entries[p];
            if e.is_used() {
                assert(holds(slots, slots[p as int]));
                let key = self.key_bytes(&e.data);
                if hash_key(key) != e.hash {
                    return false;
                }
            }
            p += 1;
        }
        proof {
            assert forall|e: IndexEntry| #[trigger] holds(slots, e) implies in_region(
                e,
                data.len(),
                ds,
            ) && e.hash == hash_of(key_of(e, data, ds)) by {
                let q = choose|q: int| 0 <= q < slots.len() && slots[q] == e;
                assert(slots[q].used());
            }
        }
        let mut p: usize = 0;
        while p < entries.len()
            invariant
                p <= slots.len(),
                entries@ == slots,
                slots == self.index.slots(),
                data == self.data@,
                ds == self.data_start,
                mask == self.index.mask_of(),
                self.index.valid(),
                placed(slots, data.len(), ds),
                forall|q: int|
                    0 <= q < p && (#[trigger] slots[q]).used() ==> key_found(
                        slots,
                        mask,
                        data,
                        ds,
                        q,
                    ),
            decreases slots.len() - p,
        {
            let e = entries[p];
            if e.is_used() {
                assert(holds(slots, slots[p as int]));
                let key = self.key_bytes(&e.data);
                let bytes = self.data.as_slice();
                let data_start = self.data_start;
                let matcher = |d: &IndexEntryData| -> (b: bool)
                    requires
                        data_start <= d.position,
                        d.position - data_start + d.key_size <= bytes@.len(),
                    ensures
                        b == (bytes@.subrange(
                            d.position - data_start,
                            d.position - data_start + d.key_size,
                        ) == key@),
                    { match_key(d, bytes, data_start, key) };
                proof {
                    assert forall|q: int|
                        0 <= q < slots.len() && (#[trigger] slots[q]).hash == e.hash implies call_requires(
                        matcher,
                        (&slots[q].data,),
                    ) by {
                        assert(holds(slots, slots[q]));
                    }
                }
                let lr = self.index.locate(e.hash, matcher);
                let found = match lr {
                    LocateResult::Found(x) => x == p,
                    _ => false,
                };
                if !found {
                    proof {
                        match lr {
                            LocateResult::Found(x) => {
                                assert(holds(slots, slots[x as int]));
                                assert(key_of(slots[x as int], data, ds) == key_of(
                                    slots[p as int],
                                    data,
                                    ds,
                                ));
                            },
                            _ => {
                                lemma_locate_misses(slots, mask, e.hash, matcher, lr, slots[p as int]);
                            },
                        }
                    }
                    return false;
                }
                proof {
                    assert forall|x: int|
                        0 <= x < slots.len() && ring_dist(
                            ideal(slots[p as int].hash, mask),
                            x,
                            mask + 1,
                        ) < ring_dist(ideal(slots[p as int].hash, mask), p as int, mask + 1) implies !((
                    #[trigger] slots[x]).hash == slots[p as int].hash && key_of(slots[x], data, ds)
                        == key_of(slots[p as int], data, ds)) by {
                        assert(passes(slots[x], e.hash, matcher));
                        if slots[x].hash == e.hash {
                            assert(holds(slots, slots[x]));
                        }
                    }
                }
            }
            p += 1;
        }
        proof {
            lemma_keys_differ(slots, mask, data, ds);
        }
        true
    }

    /// The key bytes of the entry that a slot describes.
    pub(crate) fn key_bytes(&self, entry: &IndexEntryData) -> (r: &[u8])
        requires
            self.data_start <= entry.position,
            entry.position + entry.key_size <= self.data_start + self.data@.len(),
        ensures
            r@ == self.data@.subrange(
                entry.position - self.data_start,
                entry.position - self.data_start + entry.key_size,
            ),
    {
        let key = self.get_data(entry.position, entry.key_size as u32);
        assert(key@ =~= self.data@.subrange(
            entry.position - self.data_start,
            entry.position - self.data_start + entry.key_size,
        ));
        key
    }

    /// Checks the table's invariant: header, index and allocator describe
    /// the same geometry, index and allocator are valid, every entry's block
    /// is a used block and the other way round, every entry is stored under
    /// the hash of its key, and no key is there twice.
    pub fn is_valid(&self) -> (r: bool)
        ensures
            r == self.inv(),
    {
        if !is_magic(&self.header.header) {
            return false;
        }
        let capacity = self.index.capacity();
        if capacity < INITIAL_INDEX_CAPACITY || capacity > 0x1000_0000 {
            return false;
        }
        if self.header.index_capacity as usize != capacity {
            return false;
        }
        if self.max_entries != capacity * 9 / 10 || self.min_entries != capacity * 7 / 20 {
            return false;
        }
        if self.data_start != HEADER_SIZE + capacity as u64 * ENTRY_SIZE {
            return false;
        }
        if self.data_start > MAX_FILE_SIZE || self.data.len() as u64 > MAX_FILE_SIZE
            - self.data_start {
            return false;
        }
        let end = self.data_start + self.data.len() as u64;
        if self.mem.start() != self.data_start || self.mem.end() != end {
            return false;
        }
        if self.header.is_dirty() {
            return false;
        }
        if !self.index.is_valid() || self.index.len() > self.max_entries + 1 {
            return false;
        }
        if !self.mem.is_valid() {
            return false;
        }
        let ghost slots = self.index.slots();
        let ghost used = self.mem.used_view();
        proof {
            if allocated(slots, used) {
                lemma_allocated_placed(slots, used, self.data_start, end);
            }
        }
        match build_mem(&self.index, self.data_start, end) {
            None => {
                return false;
            },
            Some(fresh) => {
                proof {
                    if allocated(slots, used) {
                        lemma_allocated_same(slots, fresh.used_view(), used);
                        crate::memmngr::lemma_same_blocks(
                            fresh.used_view(),
                            used,
                            self.data_start,
                            end,
                        );
                    }
                }
                if !same_blocks(fresh.get_used(), self.mem.get_used()) {
                    return false;
                }
            },
        }
        self.check_content()
    }

    /// Reads a table from the bytes of its file, on a machine of the given
    /// byte order. An image that was left dirty gets its index rebuilt.
    #[verifier::rlimit(100)]
    pub fn open_as(image: &[u8], native_big: bool) -> (r: Result<Self, Error>)
        ensures
            r is Ok <==> valid_image(image@),
            r matches Ok(t) ==> {
                &&& t.inv()
                &&& t@ == image_values(image@)
                &&& t.flags_view() == image_flags(image@)
                &&& t.capacity_spec() == image_capacity(image@)
                &&& t.size_spec() == image@.len()
                &&& t.len_spec() == occupancy(image_slots(image@))
            },
            r matches Err(e) ==> e == refusal(image@),
    {
        if (image.len() as u64) < HEADER_SIZE {
            return Err(Error::WrongHeader);
        }
        let (mut header, swap) = parse_header(image, native_big);
        if !is_magic(&header.header) {
            return Err(Error::WrongHeader);
        }
        if image.len() as u64 > MAX_FILE_SIZE {
            return Err(Error::Io);
        }
        let capacity = header.index_capacity as usize;
        if capacity < INITIAL_INDEX_CAPACITY || capacity > 0x1000_0000 || ((capacity - 1) as u64) & (
        capacity as u64) != 0 {
            return Err(Error::WrongHeader);
        }
        let data_start: u64 = HEADER_SIZE + capacity as u64 * ENTRY_SIZE;
        if data_start > image.len() as u64 {
            return Err(Error::WrongHeader);
        }
        let (entries, count) = parse_slots(image, capacity, native_big, swap);
        let ghost slots0 = entries@;
        header.set_endianness(native_big);
        let mut index = Index::new(entries, count);
        if header.is_dirty() {
            index.reinsert_all();
            header.set_dirty(false);
        }
        let ghost slots = index.slots();
        let data = copy_tail(image, data_start as usize);
        proof {
            lemma_same_entries(slots0, slots, data@, data_start);
            lemma_same_entries(slots, slots0, data@, data_start);
        }
        let end = image.len() as u64;
        let mem = match build_mem(&index, data_start, end) {
            Some(mem) => mem,
            None => {
                return Err(Error::WrongHeader);
            },
        };
        let table = Self {
            max_entries: capacity * 9 / 10,
            min_entries: capacity * 7 / 20,
            index,
            mem,
            header,
            data,
            data_start,
        };
        if !table.index.is_valid() || table.index.len() > table.max_entries + 1 {
            return Err(Error::WrongHeader);
        }
        if !table.check_content() {
            return Err(Error::WrongHeader);
        }
        Ok(table)
    }

    /// Reads a table from the bytes of its file.
    pub fn open(image: &[u8]) -> (r: Result<Self, Error>)
        ensures
            r is Ok <==> valid_image(image@),
            r matches Ok(t) ==> {
                &&& t.inv()
                &&& t@ == image_values(image@)
                &&& t.flags_view() == image_flags(image@)
                &&& t.capacity_spec() == image_capacity(image@)
                &&& t.size_spec() == image@.len()
                &&& t.len_spec() == occupancy(image_slots(image@))
            },
            r matches Err(e) ==> e == refusal(image@),
    {
        Self::open_as(image, is_be())
    }

    /// A new table if `create` is set, else the table that the bytes are.
    pub fn new_index(image: &[u8], create: bool) -> (r: Result<Self, Error>)
        ensures
            r is Ok <==> create || valid_image(image@),
            r matches Ok(t) ==> t.inv(),
            r matches Ok(t) ==> create ==> {
                &&& t@ == Map::<Seq<u8>, Seq<u8>>::empty()
                &&& t.flags_view() == Map::<Seq<u8>, u16>::empty()
                &&& t.capacity_spec() == INITIAL_INDEX_CAPACITY
                &&& t.size_spec() == HEADER_SIZE + INITIAL_INDEX_CAPACITY * ENTRY_SIZE
                &&& t.len_spec() == 0
            },
            r matches Ok(t) ==> !create ==> {
                &&& t@ == image_values(image@)
                &&& t.flags_view() == image_flags(image@)
                &&& t.capacity_spec() == image_capacity(image@)
                &&& t.size_spec() == image@.len()
                &&& t.len_spec() == occupancy(image_slots(image@))
            },
            r matches Err(e) ==> e == refusal(image@),
    {
        if create {
            Ok(Self::create())
        } else {
            Self::open(image)
        }
    }

    /// The bytes of the table's file in the given byte order.
    pub open(crate) spec fn image(&self, big: bool) -> Seq<u8> {
        image_of(
            self.header.flags@.update(0, with_bit(self.header.flags@[0], 1, big)),
            self.index.slots(),
            self.data@,
            big,
        )
    }

    /// What reading the table's image gives: the table's parts.
    pub(crate) proof fn lemma_image_parts(&self, big: bool)
        requires
            self.inv(),
        ensures
            self.image(big).len() == self.size_spec(),
            self.image(big).subrange(0, 16) == INDEX_HEADER@,
            image_big(self.image(big)) == big,
            !image_dirty(self.image(big)),
            image_capacity(self.image(big)) == self.index.capacity_spec(),
            image_data_start(self.image(big)) == self.data_start,
            image_slots(self.image(big)) == self.index.slots(),
            image_data(self.image(big)) == self.data@,
    {
        let flag_bytes = self.header.flags@.update(0, with_bit(self.header.flags@[0], 1, big));
        lemma_with_bit(self.header.flags@[0], 1, 0, big);
        lemma_image_round_trip(flag_bytes, self.index.slots(), self.data@, big);
    }

    /// A table's image, in either byte order, is a valid image that holds
    /// what the table holds: what is written is what is read, on a machine
    /// of either byte order.
    pub proof fn lemma_image_valid(&self, big: bool)
        requires
            self.inv(),
        ensures
            self.image(big).len() == self.size_spec(),
            valid_image(self.image(big)),
            image_values(self.image(big)) == self@,
            image_flags(self.image(big)) == self.flags_view(),
            image_big(self.image(big)) == big,
            image_slots(self.image(big)) == image_slots(self.image(!big)),
    {
        self.lemma_image_parts(big);
        self.lemma_image_parts(!big);
        let b = self.image(big);
        let slots = self.index.slots();
        assert(framed(b));
        lemma_allocated_placed(
            slots,
            self.mem.used_view(),
            self.data_start,
            self.mem.end_spec(),
        );
        assert(placed(slots, self.data@.len(), self.data_start));
        assert(stored(slots, self.data@, self.data_start, self.index.capacity_spec() as int));
        assert(robin_hood(slots, (image_capacity(b) - 1) as u64));
    }

    /// The bytes of the table's file, as a machine of the given byte order
    /// writes them.
    pub fn to_bytes_as(&self, big: bool) -> (r: Vec<u8>)
        requires
            self.inv(),
        ensures
            r@ == self.image(big),
            r@.len() == self.size_spec(),
            valid_image(r@),
            image_values(r@) == self@,
            image_flags(r@) == self.flags_view(),
            image_big(r@) == big,
    {
        let mut header = self.header;
        header.set_endianness(big);
        proof {
            self.lemma_image_valid(big);
        }
        serialize(&header.flags, self.index.get_entries(), &self.data, big)
    }

    /// The bytes of the table's file, as this machine writes them: in one
    /// of the two byte orders.
    pub fn to_bytes(&self) -> (r: Vec<u8>)
        requires
            self.inv(),
        ensures
            r@ == self.image(true) || r@ == self.image(false),
            r@.len() == self.size_spec(),
            valid_image(r@),
            image_values(r@) == self@,
            image_flags(r@) == self.flags_view(),
    {
        self.to_bytes_as(is_be())
    }
}

/// The file image of flag bytes, slots and data in the given byte order.
fn serialize(flag_bytes: &[u8; 16], entries: &Vec<IndexEntry>, data: &Vec<u8>, big: bool) -> (out:
    Vec<u8>)
    requires
        entries@.len() <= 0x1000_0000,
    ensures
        out@ == image_of(flag_bytes@, entries@, data@, big),
{
    let ghost whole = image_of(flag_bytes@, entries@, data@, big);
    let mut out: Vec<u8> = Vec::new();
    let mut i: usize = 0;
    while i < 16
        invariant
            i <= 16,
            out@.len() == i,
            whole == image_of(flag_bytes@, entries@, data@, big),
            forall|k: int| 0 <= k < out@.len() ==> out@[k] == whole[k],
        decreases 16 - i,
    {
        out.push(INDEX_HEADER[i]);
        i += 1;
    }
    let mut i: usize = 0;
    while i < 16
        invariant
            i <= 16,
            out@.len() == 16 + i,
            whole == image_of(flag_bytes@, entries@, data@, big),
            forall|k: int| 0 <= k < out@.len() ==> out@[k] == whole[k],
        decreases 16 - i,
    {
        out.push(flag_bytes[i]);
        i += 1;
    }
    let ghost before = out@;
    write_number(&mut out, entries.len() as u64, 4, big);
    proof {
        assert forall|k: int| 0 <= k < out@.len() implies out@[k] == whole[k] by {
            if k < 32 {
                assert(out@.subrange(0, 32)[k] == before[k]);
            } else {
                assert(out@[32 + (k - 32)] == whole[k]);
            }
        }
    }
    let mut i: usize = 0;
    while i < entries.len()
        invariant
            i <= entries@.len(),
            entries@.len() <= 0x1000_0000,
            out@.len() == 36 + 24 * i,
            whole == image_of(flag_bytes@, entries@, data@, big),
            forall|k: int| 0 <= k < out@.len() ==> out@[k] == whole[k],
        decreases entries@.len() - i,
    {
        let ghost before = out@;
        write_slot(&mut out, &entries[i], big);
        proof {
            assert forall|k: int| 0 <= k < out@.len() implies out@[k] == whole[k] by {
                if k < before.len() {
                    assert(out@.subrange(0, before.len() as int)[k] == before[k]);
                } else {
                    let j = k - before.len();
                    assert(out@[before.len() + j] == slot_byte(entries@[i as int], j, big));
                    assert((k - 36) / 24 == i);
                    assert((k - 36) % 24 == j);
                }
            }
        }
        i += 1;
    }
    let mut i: usize = 0;
    while i < data.len()
        invariant
            i <= data@.len(),
            out@.len() == 36 + 24 * entries@.len() + i,
            whole == image_of(flag_bytes@, entries@, data@, big),
            forall|k: int| 0 <= k < out@.len() ==> out@[k] == whole[k],
        decreases data@.len() - i,
    {
        out.push(data[i]);
        i += 1;
    }
    proof {
        assert(out@ =~= whole);
    }
    out
}

/// Appends the 24 bytes of a slot in the given byte order.
fn write_slot(out: &mut Vec<u8>, e: &IndexEntry, big: bool)
    ensures
        final(out)@.len() == old(out)@.len() + 24,
        final(out)@.subrange(0, old(out)@.len() as int) == old(out)@,
        forall|j: int| 0 <= j < 24 ==> #[trigger] final(out)@[old(out)@.len() + j] == slot_byte(
            *e,
            j,
            big,
        ),
{
    let ghost s0 = out@;
    write_number(out, e.hash, 8, big);
    let ghost s1 = out@;
    write_number(out, e.data.position, 8, big);
    let ghost s2 = out@;
    write_number(out, e.data.size as u64, 4, big);
    let ghost s3 = out@;
    write_number(out, e.data.key_size as u64, 2, big);
    let ghost s4 = out@;
    write_number(out, e.data.flags as u64, 2, big);
    proof {
        let s5 = out@;
        let n = s0.len() as int;
        assert forall|k: int| 0 <= k < s4.len() implies s5[k] == s4[k] by {
            assert(s5.subrange(0, s4.len() as int)[k] == s4[k]);
        }
        assert forall|k: int| 0 <= k < s3.len() implies s4[k] == s3[k] by {
            assert(s4.subrange(0, s3.len() as int)[k] == s3[k]);
        }
        assert forall|k: int| 0 <= k < s2.len() implies s3[k] == s2[k] by {
            assert(s3.subrange(0, s2.len() as int)[k] == s2[k]);
        }
        assert forall|k: int| 0 <= k < s1.len() implies s2[k] == s1[k] by {
            assert(s2.subrange(0, s1.len() as int)[k] == s1[k]);
        }
        assert forall|k: int| 0 <= k < s0.len() implies s1[k] == s0[k] by {
            assert(s1.subrange(0, s0.len() as int)[k] == s0[k]);
        }
        assert(s5.subrange(0, n) =~= s0);
        assert forall|j: int| 0 <= j < 24 implies #[trigger] s5[n + j] == slot_byte(*e, j, big) by {
            if j < 8 {
                assert(s1[s0.len() + j] == s5[n + j]);
            } else if j < 16 {
                assert(s2[s1.len() + (j - 8)] == s5[n + j]);
            } else if j < 20 {
                assert(s3[s2.len() + (j - 16)] == s5[n + j]);
            } else if j < 22 {
                assert(s4[s3.len() + (j - 20)] == s5[n + j]);
            } else {
                assert(s5[s4.len() + (j - 22)] == s5[n + j]);
            }
        }
    }
}

} // verus!
