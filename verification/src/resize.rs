//! Growing and shrinking the index and the data region.

use crate::content::{
    allocated, block_of, coherent, in_region, is_block, key_of, lemma_allocated_update,
    lemma_content_update, value_of,
};
use crate::header::{
    total_size, ENTRY_SIZE, HEADER_SIZE, INITIAL_DATA_SIZE, INITIAL_INDEX_CAPACITY,
};
use crate::index::{
    holds, lemma_moved_entry, lemma_replace_valid, lemma_update_holds, moved, Entry as IndexEntry,
};
use crate::memmngr::{
    at_least_one, best_fit, gap_at, has_gap, layout, lemma_best_fit_some,
    lemma_block_in_region, lemma_blocks_apart, lemma_gap_at, lemma_gap_bounds,
    lemma_insert_contains, lemma_layout_disjoint, lemma_pack_next, packed, sum_sizes,
    MemoryManagment, Used,
};
use crate::table::{max_usage, min_usage, Error, Table, MAX_FILE_SIZE};
use vstd::prelude::*;

verus! {

/// `data` after `len` bytes from index `src` on were copied to index `dest`
/// on, as if through a buffer.
pub open spec fn copied_over(data: Seq<u8>, src: int, dest: int, len: int) -> Seq<u8> {
    data.subrange(0, dest) + data.subrange(src, src + len) + data.subrange(
        dest + len,
        data.len() as int,
    )
}

/// `safemem::copy_over` on the bytes of `data`: copies `len` bytes from
/// index `src` to index `dest`, where the two ranges may overlap, and leaves
/// the other bytes as they are. The crate checks both indices and both ends
/// against the length, which the conditions here answer for.
#[verifier::external_body]
fn copy_over(data: &mut Vec<u8>, src: usize, dest: usize, len: usize)
    requires
        src < old(data)@.len(),
        dest < old(data)@.len(),
        src + len <= old(data)@.len(),
        dest + len <= old(data)@.len(),
    ensures
        final(data)@ == copied_over(old(data)@, src as int, dest as int, len as int),
{
    safemem::copy_over(data.as_mut_slice(), src, dest, len)
}

/// The capacity is a power of two that the index can take.
pub open spec fn capacity_ok(capacity: usize) -> bool {
    &&& capacity > 0
    &&& ((capacity - 1) as u64) & (capacity as u64) == 0
    &&& capacity <= 0x1000_0000
}

/// An entry whose block is `u`.
pub open spec fn entry_of(slots: Seq<IndexEntry>, u: Used) -> IndexEntry {
    choose|e: IndexEntry| #[trigger] holds(slots, e) && block_of(e) == u
}

/// An entry keeps key and value where the bytes of its block are the same,
/// wherever the data region starts.
pub proof fn lemma_same_bytes(e: IndexEntry, data: Seq<u8>, ds: u64, data2: Seq<u8>, ds2: u64)
    requires
        in_region(e, data.len(), ds),
        in_region(e, data2.len(), ds2),
        forall|p: int|
            e.data.position <= p < e.data.position + e.data.size ==> #[trigger] data2[p - ds2]
                == data[p - ds],
    ensures
        key_of(e, data2, ds2) == key_of(e, data, ds),
        value_of(e, data2, ds2) == value_of(e, data, ds),
{
    let k2 = key_of(e, data2, ds2);
    let k = key_of(e, data, ds);
    assert forall|i: int| 0 <= i < k.len() implies k2[i] == k[i] by {
        let p = e.data.position + i;
        assert(data2[p - ds2] == data[p - ds]);
    }
    assert(k2 =~= k);
    let v2 = value_of(e, data2, ds2);
    let v = value_of(e, data, ds);
    assert forall|i: int| 0 <= i < v.len() implies v2[i] == v[i] by {
        let p = e.data.position + e.data.key_size + i;
        assert(data2[p - ds2] == data[p - ds]);
    }
    assert(v2 =~= v);
}

/// A block of a packed layout ends where the packed blocks end, or before.
pub proof fn lemma_block_under(used: Seq<Used>, start: u64, end: u64, u: Used)
    requires
        layout(used, start, end),
        packed(used, start),
        used.contains(u),
    ensures
        start <= u.start,
        u.size > 0,
        u.end_spec() <= start + sum_sizes(used),
{
    let n = used.len() as int;
    crate::memmngr::lemma_packed_total(used, start, n);
    assert(used.take(n) =~= used);
    let j = choose|j: int| 0 <= j < used.len() && used[j] == u;
    lemma_gap_bounds(used, start, end, j + 1);
    lemma_gap_bounds(used, start, end, j);
    if j + 1 < n {
        crate::memmngr::lemma_gap_order(used, start, end, j + 1, n);
    }
    assert(used[j].size > 0);
}

/// While blocks are being packed, an entry other than the one whose block
/// is next lies clear of the place where that block goes.
pub proof fn lemma_pending_block(
    slots: Seq<IndexEntry>,
    settled: Seq<Used>,
    used0: Seq<Used>,
    i: int,
    start: u64,
    end: u64,
    x: IndexEntry,
)
    requires
        allocated(slots, settled + used0.skip(i)),
        layout(used0, start, end),
        0 <= i < used0.len(),
        holds(slots, x),
        x != entry_of(slots, used0[i]),
        is_block(slots, used0[i]),
        forall|u: Used| #[trigger] settled.contains(u) ==> u.end_spec() <= start + sum_sizes(
            settled,
        ),
        start + sum_sizes(settled) + used0[i].size <= used0[i].end_spec(),
    ensures
        x.data.position + at_least_one(x.data.size) <= start + sum_sizes(settled) || start
            + sum_sizes(settled) + used0[i].size <= x.data.position,
{
    let all = settled + used0.skip(i);
    let e = entry_of(slots, used0[i]);
    assert(holds(slots, e) && block_of(e) == used0[i]);
    assert(all.contains(block_of(x)));
    let j = choose|j: int| 0 <= j < all.len() && all[j] == block_of(x);
    if j < settled.len() {
        assert(settled[j] == block_of(x));
        assert(settled.contains(block_of(x)));
    } else {
        let k = i + (j - settled.len());
        assert(used0[k] == block_of(x));
        if k == i {
            assert(x.data.position == e.data.position);
        } else {
            lemma_layout_disjoint(used0, start, end, i, k);
        }
    }
}

/// What a layout contains from a given index on.
pub proof fn lemma_skip_contains(used: Seq<Used>, start: u64, end: u64, i: int)
    requires
        layout(used, start, end),
        0 <= i < used.len(),
    ensures
        forall|u: Used| #[trigger]
            used.skip(i + 1).contains(u) <==> used.skip(i).contains(u) && u != used[i],
{
    let a = used.skip(i);
    let b = used.skip(i + 1);
    assert forall|u: Used| #[trigger] b.contains(u) <==> a.contains(u) && u != used[i] by {
        if b.contains(u) {
            let j = choose|j: int| 0 <= j < b.len() && b[j] == u;
            assert(a[j + 1] == u);
            lemma_layout_disjoint(used, start, end, i, i + 1 + j);
            assert(used[i].size > 0);
        }
        if a.contains(u) && u != used[i] {
            let j = choose|j: int| 0 <= j < a.len() && a[j] == u;
            assert(b[j - 1] == u);
        }
    }
}

/// What a layout contains up to a given index.
pub proof fn lemma_take_contains(used: Seq<Used>, start: u64, end: u64, i: int)
    requires
        layout(used, start, end),
        0 < i <= used.len(),
    ensures
        forall|u: Used| #[trigger]
            used.take(i - 1).contains(u) <==> used.take(i).contains(u) && u != used[i - 1],
{
    let a = used.take(i);
    let b = used.take(i - 1);
    assert forall|u: Used| #[trigger] b.contains(u) <==> a.contains(u) && u != used[i - 1] by {
        if b.contains(u) {
            let j = choose|j: int| 0 <= j < b.len() && b[j] == u;
            assert(a[j] == u);
            lemma_layout_disjoint(used, start, end, j, i - 1);
            assert(used[j].size > 0);
        }
        if a.contains(u) && u != used[i - 1] {
            let j = choose|j: int| 0 <= j < a.len() && a[j] == u;
            assert(b[j] == u);
        }
    }
}

/// The agreement of slots and blocks is kept when the entry `e` moves to a
/// block among the settled ones and its old block leaves the pending ones.
pub proof fn lemma_rehomed(
    slots: Seq<IndexEntry>,
    slots2: Seq<IndexEntry>,
    settled: Seq<Used>,
    settled2: Seq<Used>,
    pending: Seq<Used>,
    pending2: Seq<Used>,
    e: IndexEntry,
    new_pos: u64,
)
    requires
        allocated(slots, settled + pending),
        holds(slots, e),
        forall|x: IndexEntry| #[trigger]
            holds(slots2, x) <==> (holds(slots, x) && x != e) || x == moved(e, new_pos),
        forall|u: Used| #[trigger]
            settled2.contains(u) <==> u == block_of(moved(e, new_pos)) || settled.contains(u),
        forall|u: Used| #[trigger] pending2.contains(u) <==> pending.contains(u) && u != block_of(e),
        !settled.contains(block_of(e)) || block_of(e) == block_of(moved(e, new_pos)),
        forall|x: IndexEntry| #[trigger]
            holds(slots, x) && x != e ==> x.data.position != new_pos,
    ensures
        allocated(slots2, settled2 + pending2),
{
    let all = settled + pending;
    let all2 = settled2 + pending2;
    let e2 = moved(e, new_pos);
    assert forall|u: Used| #[trigger]
        all2.contains(u) <==> (all.contains(u) && (Some(e) matches Some(o) ==> u != block_of(o)))
            || (Some(e2) matches Some(n) && u == block_of(n)) by {
        if all2.contains(u) {
            let j = choose|j: int| 0 <= j < all2.len() && all2[j] == u;
            if j < settled2.len() {
                assert(settled2[j] == u);
                assert(settled2.contains(u));
                if settled.contains(u) {
                    let k = choose|k: int| 0 <= k < settled.len() && settled[k] == u;
                    assert(all[k] == u);
                }
            } else {
                assert(pending2[j - settled2.len()] == u);
                assert(pending2.contains(u));
                let k = choose|k: int| 0 <= k < pending.len() && pending[k] == u;
                assert(all[settled.len() + k] == u);
            }
        }
        if u == block_of(e2) {
            assert(settled2.contains(u));
            let k = choose|k: int| 0 <= k < settled2.len() && settled2[k] == u;
            assert(all2[k] == u);
        }
        if all.contains(u) && u != block_of(e) {
            let j = choose|j: int| 0 <= j < all.len() && all[j] == u;
            if j < settled.len() {
                assert(settled[j] == u);
                assert(settled.contains(u));
                assert(settled2.contains(u));
                let k = choose|k: int| 0 <= k < settled2.len() && settled2[k] == u;
                assert(all2[k] == u);
            } else {
                assert(pending[j - settled.len()] == u);
                assert(pending.contains(u));
                assert(pending2.contains(u));
                let k = choose|k: int| 0 <= k < pending2.len() && pending2[k] == u;
                assert(all2[settled2.len() + k] == u);
            }
        }
    }
    assert forall|x: IndexEntry| #[trigger]
        holds(slots2, x) <==> (holds(slots, x) && Some(e) != Some(x)) || Some(e2) == Some(x) by {}
    lemma_allocated_update(slots, all, slots2, all2, Some(e), Some(e2));
}

/// While evicted blocks are being given new places, an entry other than
/// the one that is moving lies clear of the place where that one goes.
pub proof fn lemma_evicted_block(
    slots: Seq<IndexEntry>,
    settled: Seq<Used>,
    settled2: Seq<Used>,
    used0: Seq<Used>,
    i: int,
    ds: u64,
    end0: u64,
    start: u64,
    end: u64,
    nb: Used,
    x: IndexEntry,
)
    requires
        allocated(slots, settled + used0.take(i)),
        layout(used0, ds, end0),
        0 < i <= used0.len(),
        used0[i - 1].start < start,
        layout(settled2, start, end),
        forall|u: Used| #[trigger] settled2.contains(u) <==> u == nb || settled.contains(u),
        !settled.contains(nb),
        nb.size == used0[i - 1].size,
        holds(slots, x),
        x != entry_of(slots, used0[i - 1]),
        is_block(slots, used0[i - 1]),
    ensures
        x.data.position + at_least_one(x.data.size) <= nb.start || nb.start + nb.size
            <= x.data.position,
{
    let all = settled + used0.take(i);
    let e = entry_of(slots, used0[i - 1]);
    assert(holds(slots, e) && block_of(e) == used0[i - 1]);
    assert(all.contains(block_of(x)));
    let j = choose|j: int| 0 <= j < all.len() && all[j] == block_of(x);
    assert(settled2.contains(nb));
    lemma_block_in_region(settled2, start, end, nb);
    if j < settled.len() {
        assert(settled[j] == block_of(x));
        assert(settled.contains(block_of(x)));
        assert(settled2.contains(block_of(x)));
        lemma_blocks_apart(settled2, start, end, block_of(x), nb);
    } else {
        let k = j - settled.len();
        assert(used0[k] == block_of(x));
        if k == i - 1 {
            assert(x.data.position == e.data.position);
        } else {
            lemma_layout_disjoint(used0, ds, end0, k, i - 1);
        }
    }
}

/// The agreement of slots and blocks does not depend on the order of the blocks.
pub proof fn lemma_swapped_allocated(slots: Seq<IndexEntry>, a: Seq<Used>, b: Seq<Used>)
    requires
        allocated(slots, a + b),
    ensures
        allocated(slots, b + a),
{
    let ab = a + b;
    let ba = b + a;
    assert forall|u: Used| #[trigger] ba.contains(u) <==> ab.contains(u) by {
        if ba.contains(u) {
            let j = choose|j: int| 0 <= j < ba.len() && ba[j] == u;
            if j < b.len() {
                assert(ab[a.len() + j] == u);
            } else {
                assert(ab[j - b.len()] == u);
            }
        }
        if ab.contains(u) {
            let j = choose|j: int| 0 <= j < ab.len() && ab[j] == u;
            if j < a.len() {
                assert(ba[b.len() + j] == u);
            } else {
                assert(ba[j - a.len()] == u);
            }
        }
    }
    assert forall|i: int| 0 <= i < ba.len() implies is_block(slots, #[trigger] ba[i]) by {
        assert(ba.contains(ba[i]));
        let j = choose|j: int| 0 <= j < ab.len() && ab[j] == ba[i];
        assert(is_block(slots, ab[j]));
    }
}

impl Table {
    /// Gives the file `index_capacity` slots and `data_size` bytes of data.
    /// A byte keeps its position in the file, so slots and data region gain
    /// or lose at their ends: new slots are empty, new bytes are zero.
    pub(crate) fn resize_fd(&mut self, index_capacity: usize, data_size: u64)
        requires
            capacity_ok(index_capacity),
            HEADER_SIZE + index_capacity * ENTRY_SIZE + data_size <= MAX_FILE_SIZE,
            old(self).data_start + old(self).data@.len() <= MAX_FILE_SIZE,
            old(self).index.slots().len() == old(self).index.capacity_spec(),
            old(self).index.mask_spec() + 1 == old(self).index.capacity_spec(),
        ensures
            final(self).data_start == HEADER_SIZE + index_capacity * ENTRY_SIZE,
            final(self).data@.len() == data_size,
            forall|p: int|
                old(self).data_start <= p < old(self).data_start + old(self).data@.len()
                    && final(self).data_start <= p < final(self).data_start + data_size
                    ==> #[trigger] final(self).data@[p - final(self).data_start] == old(self).data@[p - old(self).data_start],
            final(self).max_entries == max_usage(index_capacity as int),
            final(self).min_entries == min_usage(index_capacity as int),
            final(self).header == old(self).header,
            final(self).mem == old(self).mem,
            index_capacity == old(self).index.capacity_spec() ==> final(self).index == old(self).index,
            final(self).index.capacity_spec() == index_capacity,
            final(self).index.mask_spec() + 1 == index_capacity,
            final(self).index.len_spec() == old(self).index.len_spec(),
            final(self).index.slots().len() == index_capacity,
            forall|i: int|
                0 <= i < index_capacity && i < old(self).index.slots().len()
                    ==> #[trigger] final(self).index.slots()[i] == old(self).index.slots()[i],
            forall|i: int|
                old(self).index.slots().len() <= i < index_capacity ==> !(#[trigger] final(self).index.slots()[i]).used(),
    {
        let new_start = total_size(index_capacity, 0);
        let ghost data0 = self.data@;
        let ghost start0 = self.data_start;
        if new_start > self.data_start {
            let k = new_start - self.data_start;
            if k >= self.data.len() as u64 {
                self.data.truncate(0);
            } else {
                let tail = self.data.split_off(k as usize);
                self.data = tail;
            }
        } else if new_start < self.data_start {
            let k = self.data_start - new_start;
            let mut fresh: Vec<u8> = Vec::new();
            fresh.resize(k as usize, 0);
            fresh.append(&mut self.data);
            self.data = fresh;
        }
        let ghost data1 = self.data@;
        proof {
            assert forall|p: int|
                start0 <= p < start0 + data0.len() && new_start <= p < new_start + data1.len() implies #[trigger] data1[p
                - new_start] == data0[p - start0] by {}
        }
        self.data.resize(data_size as usize, 0);
        proof {
            let data2 = self.data@;
            assert forall|i: int| 0 <= i < data1.len() && i < data2.len() implies data2[i]
                == data1[i] by {
                if data2.len() > data1.len() {
                    assert(data2.subrange(0, data1.len() as int)[i] == data1[i]);
                }
            }
            assert forall|p: int|
                start0 <= p < start0 + data0.len() && new_start <= p < new_start + data2.len() implies #[trigger] data2[p
                - new_start] == data0[p - start0] by {
                assert(data2[p - new_start] == data1[p - new_start]);
            }
        }
        self.data_start = new_start;
        if index_capacity != self.index.capacity() {
            self.index.set_capacity(index_capacity);
        }
        self.min_entries = (index_capacity as u64 * 7 / 20) as usize;
        self.max_entries = (index_capacity as u64 * 9 / 10) as usize;
    }

    /// Moves the bytes of a block to `new_pos` and lets the index know.
    pub(crate) fn move_block(&mut self, block: Used, new_pos: u64, Ghost(e): Ghost<IndexEntry>)
        requires
            old(self).index_ok(),
            coherent(old(self).index.slots(), old(self).data@, old(self).data_start),
            holds(old(self).index.slots(), e),
            block_of(e) == block,
            forall|x: IndexEntry| #[trigger]
                holds(old(self).index.slots(), x) && x.data.position == block.start ==> x == e,
            old(self).data_start <= new_pos,
            new_pos + block.size <= old(self).data_start + old(self).data@.len(),
            forall|x: IndexEntry| #[trigger]
                holds(old(self).index.slots(), x) && x != e ==> x.data.position + at_least_one(
                    x.data.size,
                ) <= new_pos || new_pos + block.size <= x.data.position,
        ensures
            final(self).index_ok(),
            final(self).index.capacity_spec() == old(self).index.capacity_spec(),
            final(self).index.len_spec() == old(self).index.len_spec(),
            final(self).data@.len() == old(self).data@.len(),
            final(self).data_start == old(self).data_start,
            final(self).header == old(self).header,
            final(self).mem == old(self).mem,
            final(self).max_entries == old(self).max_entries,
            final(self).min_entries == old(self).min_entries,
            coherent(final(self).index.slots(), final(self).data@, final(self).data_start),
            final(self)@ == old(self)@,
            final(self).flags_view() == old(self).flags_view(),
            forall|x: IndexEntry| #[trigger]
                holds(final(self).index.slots(), x) <==> (holds(old(self).index.slots(), x) && x
                    != e) || x == moved(e, new_pos),
    {
        let ghost slots = self.index.slots();
        let ghost data = self.data@;
        let ghost ds = self.data_start;
        let total = self.data.len();
        assert(block.start - ds + block.size <= total);
        assert(new_pos - ds + block.size <= total);
        let src = (block.start - self.data_start) as usize;
        let dest = (new_pos - self.data_start) as usize;
        let len = block.size as usize;
        copy_over(&mut self.data, src, dest, len);
        self.index.update_block_position(block.hash, block.start, new_pos);
        proof {
            let slots2 = self.index.slots();
            let data2 = self.data@;
            let e2 = moved(e, new_pos);
            let p = lemma_moved_entry(
                slots,
                slots2,
                old(self).index.mask_of(),
                block.hash,
                block.start,
                new_pos,
                e,
            );
            lemma_update_holds(slots, p, e2);
            assert forall|x: IndexEntry| #[trigger] holds(slots, x) && x != e implies key_of(
                x,
                data2,
                ds,
            ) == key_of(x, data, ds) && value_of(x, data2, ds) == value_of(x, data, ds)
                && in_region(x, data2.len(), ds) by {
                assert(key_of(x, data2, ds) =~= key_of(x, data, ds));
                assert(value_of(x, data2, ds) =~= value_of(x, data, ds));
            }
            assert(key_of(e2, data2, ds) =~= key_of(e, data, ds));
            assert(value_of(e2, data2, ds) =~= value_of(e, data, ds));
            assert(!holds(slots, e2) || e2 == e);
            lemma_replace_valid(slots, p, e2);
            lemma_content_update(slots, data, ds, slots2, data2, ds, Some(e), Some(e2));
            crate::content::lemma_entry_for(slots, data, ds, e);
            assert(self@ =~= old(self)@);
            assert(self.flags_view() =~= old(self).flags_view());
        }
    }

    /// The requirements of the functions that work while index and
    /// allocator are not yet in step again: the index has its slots, and the
    /// allocator's region ends where the data ends.
    pub open(crate) spec fn workable(&self) -> bool {
        &&& capacity_ok(self.index.capacity_spec())
        &&& self.index.slots().len() == self.index.capacity_spec()
        &&& self.index.mask_spec() + 1 == self.index.capacity_spec()
        &&& self.data_start == HEADER_SIZE + self.index.capacity_spec() * ENTRY_SIZE
        &&& self.data_start + self.data@.len() <= MAX_FILE_SIZE
        &&& self.mem.valid()
        &&& self.mem.end_spec() == self.data_start + self.data@.len()
        &&& self.max_entries == max_usage(self.index.capacity_spec() as int)
        &&& self.min_entries == min_usage(self.index.capacity_spec() as int)
    }

    /// Appends `size` bytes to the data region.
    pub(crate) fn extend_data(&mut self, size: u32)
        requires
            old(self).workable(),
            size > 0,
            old(self).data_start + old(self).data@.len() + size <= MAX_FILE_SIZE,
        ensures
            final(self).workable(),
            final(self).mem.start_spec() == old(self).mem.start_spec(),
            final(self).mem.used_view() == old(self).mem.used_view(),
            final(self).mem.used_size_spec() == old(self).mem.used_size_spec(),
            final(self).data@.len() == old(self).data@.len() + size,
            final(self).data@.subrange(0, old(self).data@.len() as int) == old(self).data@,
            final(self).data_start == old(self).data_start,
            final(self).header == old(self).header,
            final(self).index == old(self).index,
            forall|s: u32| 0 < s <= size ==> best_fit(#[trigger] final(self).mem.free_view(), s) is Some,
    {
        let ghost data0 = self.data@;
        let ghost start = self.mem.start_spec();
        let capacity = self.index.capacity();
        let new_len = self.data.len() as u64 + size as u64;
        self.resize_fd(capacity, new_len);
        proof {
            assert(self.data@.subrange(0, data0.len() as int) =~= data0) by {
                assert forall|i: int| 0 <= i < data0.len() implies self.data@[i] == data0[i] by {
                    let p = self.data_start + i;
                    assert(self.data@[p - self.data_start] == data0[p - self.data_start]);
                }
            }
            lemma_gap_bounds(
                self.mem.used_view(),
                start,
                self.mem.end_spec(),
                self.mem.used_view().len() as int,
            );
        }
        let ghost used = self.mem.used_view();
        let ghost end0 = self.mem.end_spec();
        let evicted = self.mem.set_end(self.data_start + self.data.len() as u64);
        proof {
            let end = self.mem.end_spec();
            let n = used.len() as int;
            if evicted@.len() > 0 {
                assert(used[n - 1].end_spec() > end);
                crate::memmngr::lemma_layout_sorted(used, start, end0);
            }
            assert(self.mem.used_view() =~= used);
            assert(has_gap(used, start, end, n));
            lemma_gap_at(used, start, end, n);
            let f = gap_at(used, start, end, n);
            assert(self.mem.free_view().contains(f));
            assert forall|s: u32| 0 < s <= size implies best_fit(
                #[trigger] self.mem.free_view(),
                s,
            ) is Some by {
                lemma_best_fit_some(self.mem.free_view(), s, f);
            }
            crate::memmngr::lemma_total_le_region(used, start, end);
        }
    }

    /// Gives the blocks that were evicted from the front of the data region
    /// new places, the last one first, and moves their bytes there.
    #[verifier::rlimit(100)]
    pub(crate) fn rehome(
        &mut self,
        evicted: &Vec<Used>,
        Ghost(used0): Ghost<Seq<Used>>,
        Ghost(end0): Ghost<u64>,
    )
        requires
            old(self).workable(),
            old(self).index_ok(),
            old(self).index.capacity_spec() >= INITIAL_INDEX_CAPACITY,
            coherent(old(self).index.slots(), old(self).data@, old(self).data_start),
            old(self).data_start <= old(self).mem.start_spec(),
            layout(used0, old(self).data_start, end0),
            end0 <= old(self).mem.end_spec(),
            evicted@.len() <= used0.len(),
            evicted@ == used0.take(evicted@.len() as int),
            forall|j: int|
                0 <= j < evicted@.len() ==> (#[trigger] used0[j]).start < old(self).mem.start_spec(),
            allocated(old(self).index.slots(), old(self).mem.used_view() + evicted@),
            old(self).mem.end_spec() + sum_sizes(evicted@) <= MAX_FILE_SIZE,
        ensures
            final(self).workable(),
            final(self).index_ok(),
            final(self).index.capacity_spec() == old(self).index.capacity_spec(),
            final(self).index.len_spec() == old(self).index.len_spec(),
            final(self).header == old(self).header,
            final(self).data_start == old(self).data_start,
            final(self).mem.start_spec() == old(self).mem.start_spec(),
            final(self).mem.end_spec() <= old(self).mem.end_spec() + sum_sizes(evicted@),
            coherent(final(self).index.slots(), final(self).data@, final(self).data_start),
            final(self)@ == old(self)@,
            final(self).flags_view() == old(self).flags_view(),
            allocated(final(self).index.slots(), final(self).mem.used_view()),
    {
        let ghost ds = self.data_start;
        let ghost start = self.mem.start_spec();
        let mut i: usize = evicted.len();
        proof {
            assert(evicted@.take(i as int) =~= evicted@);
        }
        while i > 0
            invariant
                i <= evicted@.len(),
                evicted@.len() <= used0.len(),
                evicted@ == used0.take(evicted@.len() as int),
                layout(used0, ds, end0),
                end0 <= self.mem.end_spec(),
                forall|j: int| 0 <= j < evicted@.len() ==> (#[trigger] used0[j]).start < start,
                self.workable(),
                self.index_ok(),
                self.index.capacity_spec() == old(self).index.capacity_spec(),
                self.index.capacity_spec() >= INITIAL_INDEX_CAPACITY,
                self.index.len_spec() == old(self).index.len_spec(),
                self.header == old(self).header,
                self.data_start == ds,
                ds <= start,
                self.mem.start_spec() == start,
                self.mem.end_spec() + sum_sizes(evicted@.take(i as int)) <= old(self).mem.end_spec() + sum_sizes(evicted@),
                old(self).mem.end_spec() + sum_sizes(evicted@) <= MAX_FILE_SIZE,
                coherent(self.index.slots(), self.data@, ds),
                self@ == old(self)@,
                self.flags_view() == old(self).flags_view(),
                allocated(self.index.slots(), self.mem.used_view() + evicted@.take(i as int)),
            decreases i,
        {
            let block = evicted[i - 1];
            let ghost settled = self.mem.used_view();
            let ghost slots = self.index.slots();
            let ghost e = entry_of(slots, block);
            let ghost pending = evicted@.take(i as int);
            let ghost end_before = self.mem.end_spec();
            proof {
                let all = settled + pending;
                assert(all[settled.len() + i - 1] == block);
                assert(is_block(slots, all[settled.len() + i - 1]));
                assert(pending.drop_last() =~= evicted@.take(i as int - 1));
                assert(pending.last() == block);
                assert(used0[i - 1] == block);
                assert(pending =~= used0.take(i as int));
                assert(used0[i - 1].size > 0);
                crate::memmngr::lemma_sum_nonneg(evicted@.take(i as int - 1));
                crate::memmngr::lemma_layout_sorted(used0, ds, end0);
                crate::memmngr::lemma_total_le_region(settled, start, self.mem.end_spec());
            }
            let new_pos = self.allocate_data(block.hash, block.size);
            let ghost settled2 = self.mem.used_view();
            let ghost nb = Used { start: new_pos, size: block.size, hash: block.hash };
            proof {
                crate::memmngr::lemma_rank_bounds(settled, new_pos);
                lemma_insert_contains(settled, crate::memmngr::rank_of(settled, new_pos), nb);
                crate::memmngr::lemma_insert_fresh(
                    settled,
                    start,
                    self.mem.end_spec(),
                    crate::memmngr::rank_of(settled, new_pos),
                    nb,
                );
                assert(settled2.contains(nb));
                lemma_block_in_region(settled2, start, self.mem.end_spec(), nb);
                assert(block_of(moved(e, new_pos)) == nb);
                assert forall|x: IndexEntry| #[trigger] holds(slots, x) && x != e implies x.data.position
                    + at_least_one(x.data.size) <= new_pos || new_pos + block.size
                    <= x.data.position by {
                    lemma_evicted_block(
                        slots,
                        settled,
                        settled2,
                        used0,
                        i as int,
                        ds,
                        end0,
                        start,
                        self.mem.end_spec(),
                        nb,
                        x,
                    );
                }
            }
            self.move_block(block, new_pos, Ghost(e));
            proof {
                assert(pending =~= used0.take(i as int));
                assert(evicted@.take(i as int - 1) =~= used0.take(i as int - 1));
                lemma_take_contains(used0, ds, end0, i as int);
                if settled.contains(block) {
                    lemma_block_in_region(settled, start, end_before, block);
                }
                lemma_rehomed(
                    slots,
                    self.index.slots(),
                    settled,
                    settled2,
                    pending,
                    evicted@.take(i as int - 1),
                    e,
                    new_pos,
                );
            }
            i -= 1;
        }
        proof {
            assert(self.mem.used_view() + evicted@.take(0) =~= self.mem.used_view());
        }
    }

    /// Doubles the index when more than nine tenths of its slots are taken.
    /// The slots come to lie where data was: blocks in their way are moved
    /// first.
    #[verifier::rlimit(100)]
    pub(crate) fn maybe_extend_index(&mut self)
        requires
            old(self).inv(),
            old(self).len_spec() > old(self).max_entries ==> 2 * old(self).size_spec()
                <= MAX_FILE_SIZE,
        ensures
            final(self).inv(),
            final(self)@ == old(self)@,
            final(self).flags_view() == old(self).flags_view(),
            final(self).len_spec() == old(self).len_spec(),
            final(self).len_spec() <= final(self).max_entries,
            final(self).size_spec() <= 2 * old(self).size_spec(),
            old(self).len_spec() <= old(self).max_entries ==> *final(self) == *old(self),
            final(self).capacity_spec() == if old(self).len_spec() > old(self).max_entries {
                2 * old(self).capacity_spec()
            } else {
                old(self).capacity_spec() as int
            },
    {
        if self.index.len() <= self.max_entries {
            return ;
        }
        self.header.set_dirty(true);
        let capacity = self.index.capacity();
        let index_capacity_new = capacity * 2;
        let data_start_new = total_size(index_capacity_new, 0);
        let ghost ds = self.data_start;
        let ghost end0 = self.mem.end_spec();
        let ghost slots0 = self.index.slots();
        let ghost data0 = self.data@;
        let ghost used0 = self.mem.used_view();
        if self.mem.end() < data_start_new {
            self.extend_data((data_start_new - self.mem.end()) as u32);
            proof {
                assert forall|x: IndexEntry| #[trigger] holds(slots0, x) implies key_of(
                    x,
                    self.data@,
                    ds,
                ) == key_of(x, data0, ds) && value_of(x, self.data@, ds) == value_of(x, data0, ds)
                    && in_region(x, self.data@.len(), ds) by {
                    assert forall|p: int|
                        x.data.position <= p < x.data.position + x.data.size implies #[trigger] self.data@[p
                        - ds] == data0[p - ds] by {
                        assert(self.data@.subrange(0, data0.len() as int)[p - ds] == data0[p - ds]);
                    }
                    lemma_same_bytes(x, data0, ds, self.data@, ds);
                }
                lemma_content_update(slots0, data0, ds, slots0, self.data@, ds, None, None);
            }
        }
        let ghost end1 = self.mem.end_spec();
        proof {
            crate::memmngr::lemma_total_bound(used0, ds, end0, used0.len() as int);
            crate::memmngr::lemma_gap_bounds(used0, ds, end0, used0.len() as int);
        }
        let evicted = self.mem.set_start(data_start_new);
        proof {
            let m = evicted@.len() as int;
            assert(evicted@ + used0.skip(m) =~= used0);
            assert(self.mem.used_view() + evicted@ =~= used0.skip(m) + used0.take(m));
            lemma_swapped_allocated(slots0, used0.take(m), used0.skip(m));
            crate::memmngr::lemma_total_bound(used0, ds, end0, m);
            crate::memmngr::lemma_gap_bounds(used0, ds, end0, m);
        }
        self.rehome(&evicted, Ghost(used0), Ghost(end0));
        let ghost slots1 = self.index.slots();
        let ghost data1 = self.data@;
        let ghost used1 = self.mem.used_view();
        proof {
            crate::index::lemma_double_mask(self.index.mask_of());
        }
        self.header.index_capacity = index_capacity_new as u32;
        let data_size_new = self.mem.end() - self.mem.start();
        self.resize_fd(index_capacity_new, data_size_new);
        let ghost slots2 = self.index.slots();
        let evicted_again = self.mem.set_end(self.data_start + self.data.len() as u64);
        proof {
            if evicted_again@.len() > 0 {
                let last = used1[used1.len() - 1];
                assert(used1.contains(last));
                lemma_block_in_region(used1, data_start_new, self.mem.end_spec(), last);
            }
            assert(self.mem.used_view() =~= used1);
            assert(slots2.take(capacity as int) =~= slots1);
        }
        self.index.grow_from_half();
        self.header.set_dirty(false);
        proof {
            let slots3 = self.index.slots();
            let data3 = self.data@;
            assert forall|x: IndexEntry| #[trigger] holds(slots3, x) <==> (holds(slots1, x)
                && None::<IndexEntry> != Some(x)) || None::<IndexEntry> == Some(x) by {
                assert(holds(slots3, x) <==> holds(slots2.take(capacity as int), x));
            }
            assert forall|x: IndexEntry| #[trigger] holds(slots1, x) implies key_of(
                x,
                data3,
                data_start_new,
            ) == key_of(x, data1, ds) && value_of(x, data3, data_start_new) == value_of(
                x,
                data1,
                ds,
            ) && in_region(x, data3.len(), data_start_new) by {
                assert(used1.contains(block_of(x)));
                lemma_block_in_region(used1, data_start_new, self.mem.end_spec(), block_of(x));
                lemma_same_bytes(x, data1, ds, data3, data_start_new);
            }
            lemma_content_update(
                slots1,
                data1,
                ds,
                slots3,
                data3,
                data_start_new,
                None,
                None,
            );
            assert forall|u: Used| #[trigger] used1.contains(u) <==> (used1.contains(u) && (
            None::<IndexEntry> matches Some(o) ==> u != block_of(o))) || (
            None::<IndexEntry> matches Some(n) && u == block_of(n)) by {}
            lemma_allocated_update(slots1, used1, slots3, used1, None, None);
        }
    }

    /// Moves all blocks to the front of the data region, in the order in
    /// which they lie, and gives up the space behind them.
    #[verifier::rlimit(100)]
    pub fn defragment(&mut self) -> (r: Result<(), Error>)
        requires
            old(self).inv(),
        ensures
            r is Ok,
            final(self).inv(),
            final(self)@ == old(self)@,
            final(self).flags_view() == old(self).flags_view(),
            final(self).len_spec() == old(self).len_spec(),
            final(self).capacity_spec() == old(self).capacity_spec(),
            final(self).size_spec() <= old(self).size_spec(),
            final(self).data_used() == old(self).data_used(),
            final(self).size_spec() == HEADER_SIZE + final(self).capacity_spec() * ENTRY_SIZE
                + final(self).data_used(),
    {
        let ghost start = self.data_start;
        let ghost end = self.mem.end_spec();
        let ghost used0 = self.mem.used_view();
        let mut old_mem = MemoryManagment::new(self.mem.start(), self.mem.end());
        core::mem::swap(&mut self.mem, &mut old_mem);
        let blocks = old_mem.take_used();
        let mut i: usize = 0;
        proof {
            assert(self.mem.used_view() + used0.skip(0) =~= used0);
            assert(used0.take(0) =~= Seq::<Used>::empty());
        }
        while i < blocks.len()
            invariant
                i <= used0.len(),
                blocks@ == used0,
                layout(used0, start, end),
                self.workable(),
                self.data_start == start,
                self.mem.start_spec() == start,
                self.mem.end_spec() == end,
                self.header == old(self).header,
                self.index.capacity_spec() == old(self).index.capacity_spec(),
                self.index.capacity_spec() >= INITIAL_INDEX_CAPACITY,
                self.index.len_spec() == old(self).index.len_spec(),
                self.max_entries == old(self).max_entries,
                self.index_ok(),
                coherent(self.index.slots(), self.data@, self.data_start),
                self@ == old(self)@,
                self.flags_view() == old(self).flags_view(),
                allocated(self.index.slots(), self.mem.used_view() + used0.skip(i as int)),
                packed(self.mem.used_view(), start),
                self.mem.used_view().len() == i,
                self.mem.used_size_spec() == sum_sizes(used0.take(i as int)),
            decreases used0.len() - i,
        {
            let block = blocks[i];
            let ghost settled = self.mem.used_view();
            let ghost slots = self.index.slots();
            let ghost e = entry_of(slots, block);
            proof {
                lemma_pack_next(
                    settled,
                    self.mem.free_view(),
                    used0,
                    i as int,
                    start,
                    end,
                    block.hash,
                );
                let all = settled + used0.skip(i as int);
                assert(all[i as int] == block);
                assert(is_block(slots, all[i as int]));
            }
            let new_pos = self.mem.allocate(block.size, block.hash).unwrap();
            let ghost settled2 = self.mem.used_view();
            proof {
                assert(settled2 =~= settled.push(
                    Used { start: new_pos, size: block.size, hash: block.hash },
                ));
                lemma_insert_contains(settled, i as int, block_of(moved(e, new_pos)));
                assert forall|x: IndexEntry| #[trigger] holds(slots, x) && x != e implies x.data.position
                    + at_least_one(x.data.size) <= new_pos || new_pos + block.size
                    <= x.data.position by {
                    lemma_pending_block(slots, settled, used0, i as int, start, end, x);
                }
            }
            self.move_block(block, new_pos, Ghost(e));
            proof {
                lemma_skip_contains(used0, start, end, i as int);
                lemma_rehomed(
                    slots,
                    self.index.slots(),
                    settled,
                    settled2,
                    used0.skip(i as int),
                    used0.skip(i as int + 1),
                    e,
                    new_pos,
                );
                crate::memmngr::lemma_total_le_region(settled2, start, end);
            }
            i += 1;
        }
        let capacity = self.index.capacity();
        let used_size = self.mem.used_size();
        let ghost slots = self.index.slots();
        let ghost data0 = self.data@;
        let ghost used = self.mem.used_view();
        proof {
            assert(used + used0.skip(used0.len() as int) =~= used);
            assert(used0.take(used0.len() as int) =~= used0);
            crate::memmngr::lemma_total_le_region(used0, start, end);
            crate::memmngr::lemma_packed_total(used, start, used.len() as int);
            assert(used.take(used.len() as int) =~= used);
        }
        self.resize_fd(capacity, used_size);
        proof {
            assert forall|x: IndexEntry| #[trigger] holds(slots, x) implies key_of(
                x,
                self.data@,
                start,
            ) == key_of(x, data0, start) && value_of(x, self.data@, start) == value_of(
                x,
                data0,
                start,
            ) && in_region(x, self.data@.len(), start) by {
                assert(used.contains(block_of(x)));
                lemma_block_under(used, start, end, block_of(x));
                lemma_same_bytes(x, data0, start, self.data@, start);
            }
            lemma_content_update(slots, data0, start, slots, self.data@, start, None, None);
            crate::memmngr::lemma_gap_bounds(used, start, end, used.len() as int);
        }
        let evicted = self.mem.set_end(self.data_start + self.data.len() as u64);
        proof {
            if evicted@.len() > 0 {
                let last = used[used.len() - 1];
                assert(used.contains(last));
                lemma_block_under(used, start, end, last);
            }
            assert(self.mem.used_view() =~= used);
        }
        Ok(())
    }

    /// No more than half of the data region is in use, and the region is
    /// longer than 4 KiB.
    pub open(crate) spec fn sparse(&self) -> bool {
        self.data_used() <= self.data@.len() / 2 && self.data@.len() > 4 * 1024
    }

    /// Compacts the data region if no more than half of it is in use and it
    /// is longer than 4 KiB: the file is then as long as header, slots and
    /// the blocks in use together. A table that is not so sparse is left as
    /// it is.
    pub(crate) fn maybe_shrink_data(&mut self)
        requires
            old(self).inv(),
        ensures
            final(self).inv(),
            final(self)@ == old(self)@,
            final(self).flags_view() == old(self).flags_view(),
            final(self).len_spec() == old(self).len_spec(),
            final(self).capacity_spec() == old(self).capacity_spec(),
            final(self).max_entries == old(self).max_entries,
            final(self).size_spec() <= old(self).size_spec(),
            final(self).data_used() == old(self).data_used(),
            old(self).sparse() ==> final(self).size_spec() == HEADER_SIZE
                + final(self).capacity_spec() * ENTRY_SIZE + final(self).data_used(),
            !old(self).sparse() ==> *final(self) == *old(self),
    {
        if self.mem.used_size() > self.data.len() as u64 / 2 || self.data.len() <= 4 * 1024 {
            return ;
        }
        let _ = self.defragment();
    }

    /// Halves the index when fewer than 35 hundredths of its slots are
    /// taken and it has more slots than a new table. The data region gains
    /// the space that the slots give up.
    #[verifier::rlimit(100)]
    pub(crate) fn maybe_shrink_index(&mut self) -> (r: bool)
        requires
            old(self).inv(),
        ensures
            final(self).inv(),
            final(self)@ == old(self)@,
            final(self).flags_view() == old(self).flags_view(),
            final(self).len_spec() == old(self).len_spec(),
            final(self).size_spec() == old(self).size_spec(),
            r == (old(self).len_spec() < old(self).min_entries && old(self).capacity_spec()
                > INITIAL_INDEX_CAPACITY),
            final(self).capacity_spec() == if r {
                old(self).capacity_spec() / 2
            } else {
                old(self).capacity_spec()
            },
    {
        if self.index.len() >= self.min_entries || self.index.capacity()
            <= INITIAL_INDEX_CAPACITY {
            return false;
        }
        let ghost ds = self.data_start;
        let ghost slots0 = self.index.slots();
        let ghost data0 = self.data@;
        let ghost used0 = self.mem.used_view();
        let ghost end = self.mem.end_spec();
        proof {
            crate::index::lemma_mask_above(self.index.mask_of());
            crate::index::lemma_half_mask(self.index.mask_of());
        }
        self.header.set_dirty(true);
        let index_capacity_new = self.index.capacity() / 2;
        let data_start_new = total_size(index_capacity_new, 0);
        self.index.shrink_to_half();
        self.header.index_capacity = index_capacity_new as u32;
        let evicted = self.mem.set_start(data_start_new);
        proof {
            if evicted@.len() > 0 {
                assert(used0.contains(evicted@[0]));
                lemma_block_in_region(used0, ds, end, evicted@[0]);
            }
            assert(used0.skip(0) =~= used0);
        }
        let data_size_new = self.mem.end() - self.mem.start();
        self.resize_fd(index_capacity_new, data_size_new);
        self.header.set_dirty(false);
        proof {
            let slots3 = self.index.slots();
            let data3 = self.data@;
            assert forall|x: IndexEntry| #[trigger] holds(slots3, x) <==> (holds(slots0, x)
                && None::<IndexEntry> != Some(x)) || None::<IndexEntry> == Some(x) by {}
            assert forall|x: IndexEntry| #[trigger] holds(slots0, x) implies key_of(
                x,
                data3,
                data_start_new,
            ) == key_of(x, data0, ds) && value_of(x, data3, data_start_new) == value_of(
                x,
                data0,
                ds,
            ) && in_region(x, data3.len(), data_start_new) by {
                lemma_same_bytes(x, data0, ds, data3, data_start_new);
            }
            lemma_content_update(
                slots0,
                data0,
                ds,
                slots3,
                data3,
                data_start_new,
                None,
                None,
            );
            assert forall|u: Used| #[trigger] used0.contains(u) <==> (used0.contains(u) && (
            None::<IndexEntry> matches Some(o) ==> u != block_of(o))) || (
            None::<IndexEntry> matches Some(n) && u == block_of(n)) by {}
            lemma_allocated_update(slots0, used0, slots3, used0, None, None);
        }
        true
    }

    /// Takes every entry out and makes the file as small as that of a new table.
    pub fn clear(&mut self) -> (r: Result<(), Error>)
        requires
            old(self).inv(),
        ensures
            r is Ok,
            final(self).inv(),
            final(self)@ == Map::<Seq<u8>, Seq<u8>>::empty(),
            final(self).len_spec() == 0,
            final(self).capacity_spec() == INITIAL_INDEX_CAPACITY,
            final(self).size_spec() == HEADER_SIZE + INITIAL_INDEX_CAPACITY * ENTRY_SIZE,
    {
        self.index.clear();
        proof {
            assert(127u64 & 128u64 == 0) by (bit_vector);
        }
        self.resize_fd(INITIAL_INDEX_CAPACITY, INITIAL_DATA_SIZE as u64);
        self.mem.clear();
        let _ = self.mem.set_start(self.data_start);
        let _ = self.mem.set_end(self.data_start);
        self.header.index_capacity = INITIAL_INDEX_CAPACITY as u32;
        proof {
            let slots = self.index.slots();
            crate::index::lemma_occupancy_empty(slots);
            crate::index::lemma_empty_robin_hood(slots, 127);
            assert forall|e: IndexEntry| !#[trigger] holds(slots, e) by {
                if holds(slots, e) {
                    let i = choose|i: int| 0 <= i < slots.len() && slots[i] == e;
                    assert(!slots[i].used());
                }
            }
            assert(self@ =~= Map::<Seq<u8>, Seq<u8>>::empty()) by {
                assert forall|k: Seq<u8>|
                    !crate::content::has_key(slots, self.data@, self.data_start, k) by {}
            }
        }
        Ok(())
    }
}

} // verus!
