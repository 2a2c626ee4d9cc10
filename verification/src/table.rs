//! The table: index, allocator and data region kept in step.

use crate::content::{
    allocated, block_of, coherent, flags, has_key, in_region, key_of, lemma_allocated_update,
    lemma_content_update, lemma_entry_for, value_of, values,
};
use crate::header::{Header, ENTRY_SIZE, HEADER_SIZE, INDEX_HEADER, INITIAL_INDEX_CAPACITY};
use crate::index::{
    holds, inserted, lemma_empty_robin_hood, lemma_locate_misses, lemma_occupancy_empty,
    lemma_update_holds, located, no_dup, removed, robin_hood, sizes_ok, Entry as IndexEntry,
    EntryData as IndexEntryData, Index, LocateResult,
};
use crate::memmngr::{
    at_least_one, lemma_block_by_start, lemma_block_in_region, lemma_blocks_apart,
    lemma_insert_contains, lemma_remove_contains, rank_of, MemoryManagment, Used,
};
use std::hash::Hasher;
use vstd::prelude::*;

verus! {

/// What SipHash 1-3 with a zero key makes of a byte string.
pub uninterp spec fn sip_hash13(key: Seq<u8>) -> u64;

/// The hash that stands in for a SipHash of zero, which would mark a slot
/// as empty.
pub const ZERO_HASH_SUBSTITUTE: u64 = 0x8000_0000_0000_0000;

/// The hash under which a key is stored: its SipHash 1-3, never zero.
pub open spec fn hash_of(key: Seq<u8>) -> u64 {
    if sip_hash13(key) == 0 {
        ZERO_HASH_SUBSTITUTE
    } else {
        sip_hash13(key)
    }
}

/// Feeds the bytes to `siphasher::sip::SipHasher13`, made by `default`, with
/// `write` and reads the hash with `finish`. The hasher starts from a zero
/// key, so the hash is a function of the bytes alone.
#[verifier::external_body]
fn sip13(key: &[u8]) -> (h: u64)
    ensures
        h == sip_hash13(key@),
{
    let mut hasher = siphasher::sip::SipHasher13::default();
    hasher.write(key);
    hasher.finish()
}

/// The hash under which a key is stored.
pub fn hash_key(key: &[u8]) -> (h: u64)
    ensures
        h == hash_of(key@),
        h != 0,
{
    let h = sip13(key);
    if h == 0 {
        ZERO_HASH_SUBSTITUTE
    } else {
        h
    }
}


/// Whether the stored key of an entry is `key`.
pub fn match_key(entry: &IndexEntryData, data: &[u8], data_start: u64, key: &[u8]) -> (r: bool)
    requires
        data_start <= entry.position,
        entry.position - data_start + entry.key_size <= data@.len(),
    ensures
        r == (data@.subrange(
            entry.position - data_start,
            entry.position - data_start + entry.key_size,
        ) == key@),
{
    let ghost stored = data@.subrange(
        entry.position - data_start,
        entry.position - data_start + entry.key_size,
    );
    if key.len() == 0 && entry.key_size == 0 {
        assert(stored =~= key@);
        return true;
    }
    if entry.key_size as usize != key.len() {
        return false;
    }
    let total = data.len();
    assert(entry.position - data_start + entry.key_size <= total);
    let start = (entry.position - data_start) as usize;
    let mut i: usize = 0;
    while i < key.len()
        invariant
            i <= key@.len(),
            key@.len() == entry.key_size,
            start == entry.position - data_start,
            start + key@.len() <= data@.len(),
            data@.len() == total,
            stored == data@.subrange(start as int, start + entry.key_size),
            forall|j: int| 0 <= j < i ==> stored[j] == key@[j],
        decreases key@.len() - i,
    {
        if data[start + i] != key[i] {
            assert(stored[i as int] != key@[i as int]);
            return false;
        }
        i += 1;
    }
    assert(stored =~= key@);
    true
}

/// Writes `bytes` into `data` from index `offset` on.
pub(crate) fn write_bytes(data: &mut Vec<u8>, offset: usize, bytes: &[u8])
    requires
        offset + bytes@.len() <= old(data)@.len(),
    ensures
        final(data)@ == old(data)@.subrange(0, offset as int) + bytes@ + old(data)@.subrange(
            offset + bytes@.len(),
            old(data)@.len() as int,
        ),
{
    let ghost data0 = data@;
    let total = data.len();
    let mut i: usize = 0;
    while i < bytes.len()
        invariant
            i <= bytes@.len(),
            offset + bytes@.len() <= total,
            data@.len() == total,
            data0.len() == total,
            data@ == data0.subrange(0, offset as int) + bytes@.subrange(0, i as int)
                + data0.subrange(offset + i, total as int),
        decreases bytes@.len() - i,
    {
        let ghost before = data@;
        data[offset + i] = bytes[i];
        proof {
            assert(data@ =~= data0.subrange(0, offset as int) + bytes@.subrange(0, i as int + 1)
                + data0.subrange(offset + i + 1, total as int));
        }
        i += 1;
    }
    proof {
        assert(bytes@.subrange(0, bytes@.len() as int) =~= bytes@);
    }
}

/// What holds after a new entry `n` took the place of the entry in slot `p`
/// and the block of that entry was released.
pub proof fn lemma_stored_over(
    slots: Seq<IndexEntry>,
    data: Seq<u8>,
    ds: u64,
    used0: Seq<Used>,
    used1: Seq<Used>,
    used2: Seq<Used>,
    slots2: Seq<IndexEntry>,
    p: int,
    n: IndexEntry,
    start: u64,
    end: u64,
)
    requires
        coherent(slots, data, ds),
        allocated(slots, used0),
        no_dup(slots),
        0 <= p < slots.len(),
        slots[p].used(),
        n.used(),
        in_region(n, data.len(), ds),
        n.hash == hash_of(key_of(n, data, ds)),
        key_of(n, data, ds) == key_of(slots[p], data, ds),
        forall|x: IndexEntry| #[trigger] holds(slots, x) ==> x.data.position != n.data.position,
        slots2 == slots.update(p, n),
        crate::memmngr::layout(used1, start, end),
        forall|u: Used| #[trigger] used1.contains(u) <==> u == block_of(n) || used0.contains(u),
        0 <= rank_of(used1, slots[p].data.position) < used1.len(),
        used1[rank_of(used1, slots[p].data.position)].start == slots[p].data.position,
        used2 == used1.remove(rank_of(used1, slots[p].data.position)),
    ensures
        coherent(slots2, data, ds),
        allocated(slots2, used2),
        values(slots2, data, ds) == values(slots, data, ds).insert(
            key_of(n, data, ds),
            value_of(n, data, ds),
        ),
        flags(slots2, data, ds) == flags(slots, data, ds).insert(
            key_of(n, data, ds),
            n.data.flags,
        ),
{
    let o = slots[p];
    let k = rank_of(used1, o.data.position);
    assert(holds(slots, o));
    lemma_update_holds(slots, p, n);
    lemma_content_update(slots, data, ds, slots2, data, ds, Some(o), Some(n));
    assert(values(slots2, data, ds) =~= values(slots, data, ds).insert(
        key_of(n, data, ds),
        value_of(n, data, ds),
    ));
    assert(flags(slots2, data, ds) =~= flags(slots, data, ds).insert(
        key_of(n, data, ds),
        n.data.flags,
    ));
    assert(used0.contains(block_of(o)));
    assert(used1.contains(block_of(o)));
    lemma_block_by_start(used1, start, end, k, block_of(o));
    lemma_remove_contains(used1, start, end, k);
    lemma_allocated_update(slots, used0, slots2, used2, Some(o), Some(n));
}

/// What holds after a new entry `n` was added under a key that was not there.
pub proof fn lemma_stored_new(
    slots: Seq<IndexEntry>,
    data: Seq<u8>,
    ds: u64,
    used0: Seq<Used>,
    used1: Seq<Used>,
    slots2: Seq<IndexEntry>,
    n: IndexEntry,
    k: int,
)
    requires
        coherent(slots, data, ds),
        allocated(slots, used0),
        n.used(),
        in_region(n, data.len(), ds),
        n.hash == hash_of(key_of(n, data, ds)),
        forall|x: IndexEntry| #[trigger]
            holds(slots, x) ==> x.data.position != n.data.position && key_of(x, data, ds)
                != key_of(n, data, ds),
        inserted(slots, slots2, n),
        0 <= k <= used0.len(),
        used1 == used0.insert(k, block_of(n)),
    ensures
        coherent(slots2, data, ds),
        allocated(slots2, used1),
        values(slots2, data, ds) == values(slots, data, ds).insert(
            key_of(n, data, ds),
            value_of(n, data, ds),
        ),
        flags(slots2, data, ds) == flags(slots, data, ds).insert(
            key_of(n, data, ds),
            n.data.flags,
        ),
        !values(slots, data, ds).contains_key(key_of(n, data, ds)),
{
    lemma_content_update(slots, data, ds, slots2, data, ds, None, Some(n));
    lemma_insert_contains(used0, k, block_of(n));
    lemma_allocated_update(slots, used0, slots2, used1, None, Some(n));
    if has_key(slots, data, ds, key_of(n, data, ds)) {
        let x = choose|x: IndexEntry| #[trigger]
            holds(slots, x) && key_of(x, data, ds) == key_of(n, data, ds);
    }
}

/// What holds after the entry `o` was taken out and its block released.
pub proof fn lemma_deleted(
    slots: Seq<IndexEntry>,
    data: Seq<u8>,
    ds: u64,
    used0: Seq<Used>,
    used2: Seq<Used>,
    slots2: Seq<IndexEntry>,
    o: IndexEntry,
    start: u64,
    end: u64,
)
    requires
        coherent(slots, data, ds),
        allocated(slots, used0),
        no_dup(slots),
        holds(slots, o),
        removed(slots, slots2, o),
        crate::memmngr::layout(used0, start, end),
        0 <= rank_of(used0, o.data.position) < used0.len(),
        used0[rank_of(used0, o.data.position)].start == o.data.position,
        used2 == used0.remove(rank_of(used0, o.data.position)),
    ensures
        coherent(slots2, data, ds),
        allocated(slots2, used2),
        values(slots2, data, ds) == values(slots, data, ds).remove(key_of(o, data, ds)),
        flags(slots2, data, ds) == flags(slots, data, ds).remove(key_of(o, data, ds)),
{
    let k = rank_of(used0, o.data.position);
    assert forall|x: IndexEntry| #[trigger]
        holds(slots2, x) <==> (holds(slots, x) && Some(o) != Some(x)) || None::<IndexEntry>
            == Some(x) by {
        if x != o {
            assert(holds(slots2, x) <==> holds(slots, x));
        }
    }
    lemma_content_update(slots, data, ds, slots2, data, ds, Some(o), None);
    assert(used0.contains(block_of(o)));
    lemma_block_by_start(used0, start, end, k, block_of(o));
    lemma_remove_contains(used0, start, end, k);
    lemma_allocated_update(slots, used0, slots2, used2, Some(o), None);
}

/// Writing key and value into a block that was just reserved leaves the
/// entries of the table as they are, and none of them lies at the block.
pub proof fn lemma_block_written(
    slots: Seq<IndexEntry>,
    data0: Seq<u8>,
    data2: Seq<u8>,
    ds: u64,
    used0: Seq<Used>,
    used1: Seq<Used>,
    start: u64,
    end: u64,
    block: Used,
    key: Seq<u8>,
    value: Seq<u8>,
)
    requires
        coherent(slots, data0, ds),
        allocated(slots, used0),
        crate::memmngr::layout(used1, start, end),
        ds <= start,
        end == ds + data2.len(),
        used1.contains(block),
        !used0.contains(block),
        forall|u: Used| used0.contains(u) ==> #[trigger] used1.contains(u),
        data0.len() <= data2.len(),
        key.len() + value.len() <= block.size,
        forall|i: int|
            0 <= i < data0.len() && !(block.start - ds <= i < block.start - ds + block.size)
                ==> #[trigger] data2[i] == data0[i],
    ensures
        coherent(slots, data2, ds),
        values(slots, data2, ds) == values(slots, data0, ds),
        flags(slots, data2, ds) == flags(slots, data0, ds),
        forall|x: IndexEntry| #[trigger] holds(slots, x) ==> x.data.position != block.start,
{
    lemma_block_in_region(used1, start, end, block);
    assert forall|x: IndexEntry| #[trigger] holds(slots, x) implies key_of(x, data2, ds) == key_of(
        x,
        data0,
        ds,
    ) && value_of(x, data2, ds) == value_of(x, data0, ds) && in_region(x, data2.len(), ds)
        && x.data.position != block.start by {
        assert(used0.contains(block_of(x)));
        assert(used1.contains(block_of(x)));
        lemma_blocks_apart(used1, start, end, block_of(x), block);
        assert(key_of(x, data2, ds) =~= key_of(x, data0, ds));
        assert(value_of(x, data2, ds) =~= value_of(x, data0, ds));
    }
    lemma_content_update(slots, data0, ds, slots, data2, ds, None, None);
}

/// The largest number of entries that a table of `capacity` slots holds
/// before its index grows: nine tenths of the slots.
pub open spec fn max_usage(capacity: int) -> int {
    capacity * 9 / 10
}

/// The number of entries below which the index of a table of `capacity`
/// slots shrinks: 35 hundredths of the slots.
pub open spec fn min_usage(capacity: int) -> int {
    capacity * 7 / 20
}

/// The largest size of a table's file. The size of a block is a 32-bit
/// number, and the free space of the whole data region can be one block, so
/// a file ends before 4 GiB. `Table::set` refuses an entry with which the
/// file could grow beyond that.
pub const MAX_FILE_SIZE: u64 = 0xffff_ffff;

/// Why an operation failed.
#[derive(Clone, Copy, Debug, PartialEq, Eq, Structural)]
pub enum Error {
    /// The file cannot take what was to be written, or it is longer than a
    /// table's file can be.
    Io,
    /// The bytes are not a table.
    WrongHeader,
    /// Another process holds the table.
    TableLocked,
    /// A key or value could not be decoded.
    Deserialize,
    /// A key or value could not be encoded.
    Serialize,
}

/// Numbers on a table.
#[derive(Clone, Copy, Debug)]
pub struct Stats {
    /// Whether the table is consistent.
    pub valid: bool,
    /// Number of entries.
    pub entries: usize,
    /// Length of the file.
    pub size: u64,
    /// Size of the index.
    pub hash_size: u64,
    /// Size of the empty slots of the index.
    pub hash_free: u64,
    /// Size of the data region.
    pub data_size: u64,
    /// Size of what is free in the data region.
    pub data_free: u64,
}

/// After `set(k, v)` a `get(k)` finds `v`.
pub proof fn law_get_after_set(before: &Table, after: &Table, key: Seq<u8>, value: Seq<u8>)
    requires
        after@ == before@.insert(key, value),
    ensures
        after@.contains_key(key),
        after@[key] == value,
{
}

/// After `set(k, v1)` and `set(k, v2)` a `get(k)` finds `v2`, and the second
/// `set` leaves the number of entries as it is.
pub proof fn law_set_twice(
    before: &Table,
    between: &Table,
    after: &Table,
    key: Seq<u8>,
    first: Seq<u8>,
    second: Seq<u8>,
)
    requires
        between@ == before@.insert(key, first),
        after@ == between@.insert(key, second),
        after.len_spec() == between.len_spec() + if between@.contains_key(key) {
            0int
        } else {
            1int
        },
    ensures
        after@.contains_key(key),
        after@[key] == second,
        after.len_spec() == between.len_spec(),
{
}

/// After `set(k, v)` a `delete(k)` finds the entry, and then a `get(k)`
/// finds nothing.
pub proof fn law_delete_after_set(
    before: &Table,
    between: &Table,
    after: &Table,
    key: Seq<u8>,
    value: Seq<u8>,
)
    requires
        between@ == before@.insert(key, value),
        after@ == between@.remove(key),
    ensures
        between@.contains_key(key),
        !after@.contains_key(key),
{
}

/// An entry of the table.
pub struct Entry<'a> {
    /// Flags stored with the entry.
    pub flags: u16,
    /// The key of the entry.
    pub key: &'a [u8],
    /// The value of the entry.
    pub value: &'a [u8],
}

/// A hash table of byte strings, laid out as its file is: a header, the
/// slots of the index, and the data region where keys and values lie.
pub struct Table {
    pub(crate) header: Header,
    pub(crate) index: Index,
    pub(crate) max_entries: usize,
    pub(crate) min_entries: usize,
    pub(crate) data: Vec<u8>,
    pub(crate) data_start: u64,
    pub(crate) mem: MemoryManagment,
}

impl Table {
    /// The values by key.
    pub open(crate) spec fn view(&self) -> Map<Seq<u8>, Seq<u8>> {
        values(self.index.slots(), self.data@, self.data_start)
    }

    /// The flags by key.
    pub open(crate) spec fn flags_view(&self) -> Map<Seq<u8>, u16> {
        flags(self.index.slots(), self.data@, self.data_start)
    }

    /// Number of entries.
    pub open(crate) spec fn len_spec(&self) -> usize {
        self.index.len_spec()
    }

    /// Number of slots of the index.
    pub open(crate) spec fn capacity_spec(&self) -> usize {
        self.index.capacity_spec()
    }

    /// Length of the file.
    pub open(crate) spec fn size_spec(&self) -> int {
        self.data_start + self.data@.len()
    }

    /// Header, index and allocator describe the same file geometry.
    pub open(crate) spec fn geometry(&self) -> bool {
        &&& self.header.header@ == INDEX_HEADER@
        &&& self.header.index_capacity == self.index.capacity_spec()
        &&& self.index.capacity_spec() >= INITIAL_INDEX_CAPACITY
        &&& self.max_entries == max_usage(self.index.capacity_spec() as int)
        &&& self.min_entries == min_usage(self.index.capacity_spec() as int)
        &&& self.data_start == HEADER_SIZE + self.index.capacity_spec() * ENTRY_SIZE
        &&& self.data_start + self.data@.len() <= MAX_FILE_SIZE
        &&& self.mem.start_spec() == self.data_start
        &&& self.mem.end_spec() == self.data_start + self.data@.len()
    }

    /// The index is in order, whatever the allocator says.
    pub open(crate) spec fn index_ok(&self) -> bool {
        &&& self.index.wf()
        &&& robin_hood(self.index.slots(), self.index.mask_of())
        &&& no_dup(self.index.slots())
        &&& sizes_ok(self.index.slots())
        &&& self.index.len_spec() <= self.max_entries + 1
    }

    /// The table's invariant: the geometry fits, index and allocator are
    /// valid, and slots, data bytes and allocator agree.
    pub open(crate) spec fn inv(&self) -> bool {
        &&& self.geometry()
        &&& !self.header.dirty()
        &&& self.index_ok()
        &&& self.mem.valid()
        &&& coherent(self.index.slots(), self.data@, self.data_start)
        &&& allocated(self.index.slots(), self.mem.used_view())
    }

    /// A new, empty table.
    pub fn create() -> (r: Self)
        ensures
            r.inv(),
            r@ == Map::<Seq<u8>, Seq<u8>>::empty(),
            r.flags_view() == Map::<Seq<u8>, u16>::empty(),
            r.len_spec() == 0,
            r.capacity_spec() == INITIAL_INDEX_CAPACITY,
            r.size_spec() == HEADER_SIZE + INITIAL_INDEX_CAPACITY * ENTRY_SIZE,
    {
        let mut header = Header {
            header: INDEX_HEADER,
            flags: [0u8; 16],
            index_capacity: INITIAL_INDEX_CAPACITY as u32,
        };
        proof {
            assert(0u8 & (1u8 << 0u8) == 0) by (bit_vector);
        }
        header.set_correct_endianness();
        let zero = IndexEntry {
            hash: 0,
            data: IndexEntryData { position: 0, size: 0, key_size: 0, flags: 0 },
        };
        let mut entries: Vec<IndexEntry> = Vec::new();
        while entries.len() < INITIAL_INDEX_CAPACITY
            invariant
                entries@.len() <= INITIAL_INDEX_CAPACITY,
                zero.hash == 0,
                forall|i: int| 0 <= i < entries@.len() ==> !(#[trigger] entries@[i]).used(),
            decreases INITIAL_INDEX_CAPACITY - entries@.len(),
        {
            entries.push(zero);
        }
        proof {
            assert(127u64 & 128u64 == 0) by (bit_vector);
            lemma_occupancy_empty(entries@);
            lemma_empty_robin_hood(entries@, 127);
        }
        let index = Index::new(entries, 0);
        let data_start: u64 = HEADER_SIZE + INITIAL_INDEX_CAPACITY as u64 * ENTRY_SIZE;
        let mut mem = MemoryManagment::new(data_start, data_start);
        mem.fix_up();
        let r = Self {
            max_entries: INITIAL_INDEX_CAPACITY * 9 / 10,
            min_entries: INITIAL_INDEX_CAPACITY * 7 / 20,
            index,
            mem,
            header,
            data: Vec::new(),
            data_start,
        };
        proof {
            assert forall|e: IndexEntry| !#[trigger] holds(r.index.slots(), e) by {
                if holds(r.index.slots(), e) {
                    let i = choose|i: int|
                        0 <= i < r.index.slots().len() && r.index.slots()[i] == e;
                    assert(!r.index.slots()[i].used());
                }
            }
            assert forall|k: Seq<u8>| !has_key(r.index.slots(), r.data@, r.data_start, k) by {}
            assert(r@ =~= Map::<Seq<u8>, Seq<u8>>::empty());
            assert(r.flags_view() =~= Map::<Seq<u8>, u16>::empty());
        }
        r
    }

    /// Number of entries.
    #[verifier::when_used_as_spec(len_spec)]
    pub fn len(&self) -> (r: usize)
        ensures
            r == self.len_spec(),
            self.inv() ==> r == self@.dom().len(),
    {
        proof {
            if self.inv() {
                self.lemma_len_counts_keys();
            }
        }
        self.index.len()
    }

    /// The number of entries is the number of keys.
    pub proof fn lemma_len_counts_keys(&self)
        requires
            self.inv(),
        ensures
            self@.dom().finite(),
            self.len_spec() == self@.dom().len(),
    {
        crate::content::lemma_count_keys(self.index.slots(), self.data@, self.data_start);
    }

    /// Sum of the sizes of the blocks in the data region that are in use.
    pub open(crate) spec fn data_used(&self) -> u64 {
        self.mem.used_size_spec()
    }

    /// Length of the file in bytes.
    pub fn size(&self) -> (r: u64)
        requires
            self.inv(),
        ensures
            r == self.size_spec(),
    {
        self.data_start + self.data.len() as u64
    }

    /// Whether the table has no entries.
    pub fn is_empty(&self) -> (r: bool)
        ensures
            r == (self.len_spec() == 0),
            self.inv() ==> r == (self@ == Map::<Seq<u8>, Seq<u8>>::empty()),
    {
        proof {
            if self.inv() {
                self.lemma_len_counts_keys();
                if self.len_spec() == 0 {
                    assert(self@.dom() =~= Set::<Seq<u8>>::empty());
                    assert(self@ =~= Map::<Seq<u8>, Seq<u8>>::empty());
                }
            }
        }
        self.index.len() == 0
    }

    /// Number of slots of the index.
    #[verifier::when_used_as_spec(capacity_spec)]
    pub fn capacity(&self) -> (r: usize)
        ensures
            r == self.capacity_spec(),
    {
        self.index.capacity()
    }

    /// The bytes of the data region from file position `pos` on.
    pub(crate) fn get_data(&self, pos: u64, len: u32) -> (r: &[u8])
        requires
            len > 0 ==> self.data_start <= pos && pos + len <= self.data_start + self.data@.len(),
        ensures
            len > 0 ==> r@ == self.data@.subrange(
                pos - self.data_start,
                pos - self.data_start + len,
            ),
            len == 0 ==> r@ == Seq::<u8>::empty(),
    {
        if len == 0 {
            let start: usize = 0;
            return &self.data[start..start];
        }
        let total = self.data.len();
        assert(pos - self.data_start + len <= total);
        let start = (pos - self.data_start) as usize;
        let end = start + len as usize;
        &self.data[start..end]
    }

    /// Key, value and flags of the entry that a slot describes.
    pub(crate) fn entry_from_index_data(&self, entry: IndexEntryData) -> (r: Entry<'_>)
        requires
            self.data_start <= entry.position,
            entry.position + entry.size <= self.data_start + self.data@.len(),
            entry.key_size <= entry.size,
        ensures
            r.flags == entry.flags,
            r.key@ == self.data@.subrange(
                entry.position - self.data_start,
                entry.position - self.data_start + entry.key_size,
            ),
            r.value@ == self.data@.subrange(
                entry.position - self.data_start + entry.key_size,
                entry.position - self.data_start + entry.size,
            ),
    {
        let total = self.data.len();
        assert(entry.position - self.data_start + entry.size <= total);
        let start = (entry.position - self.data_start) as usize;
        let mid = start + entry.key_size as usize;
        let end = start + entry.size as usize;
        Entry { key: &self.data[start..mid], value: &self.data[mid..end], flags: entry.flags }
    }

    /// What the slot of the entry with the given key says, and the entry.
    pub(crate) fn find(&self, key: &[u8]) -> (r: (Option<IndexEntryData>, Ghost<IndexEntry>))
        requires
            self.inv(),
        ensures
            r.0 matches Some(d) ==> holds(self.index.slots(), r.1@) && r.1@.data == d && key_of(
                r.1@,
                self.data@,
                self.data_start,
            ) == key@ && self@.contains_key(key@) && self@[key@] == value_of(
                r.1@,
                self.data@,
                self.data_start,
            ) && self.flags_view()[key@] == d.flags,
            r.0 is None ==> !self@.contains_key(key@),
    {
        let hash = hash_key(key);
        let data = self.data.as_slice();
        let data_start = self.data_start;
        let ghost slots = self.index.slots();
        let matcher = |e: &IndexEntryData| -> (b: bool)
            requires
                data_start <= e.position,
                e.position - data_start + e.key_size <= data@.len(),
            ensures
                b == (data@.subrange(e.position - data_start, e.position - data_start + e.key_size)
                    == key@),
            { match_key(e, data, data_start, key) };
        proof {
            assert forall|q: int| 0 <= q < slots.len() && (#[trigger] slots[q]).hash == hash implies call_requires(
                matcher,
                (&slots[q].data,),
            ) by {
                assert(holds(slots, slots[q]));
            }
        }
        let found = self.index.index_get(hash, matcher);
        let ghost mut entry = IndexEntry {
            hash,
            data: IndexEntryData { position: 0, size: 0, key_size: 0, flags: 0 },
        };
        proof {
            let lr = choose|lr: LocateResult| #[trigger]
                located(slots, self.index.mask_of(), hash, matcher, lr) && match lr {
                    LocateResult::Found(p) => found == Some(slots[p as int].data),
                    _ => found is None,
                };
            match lr {
                LocateResult::Found(p) => {
                    let e = slots[p as int];
                    entry = e;
                    assert(holds(slots, e));
                    assert(key_of(e, self.data@, data_start) == key@);
                    lemma_entry_for(slots, self.data@, data_start, e);
                },
                _ => {
                    if self@.contains_key(key@) {
                        let x = choose|x: IndexEntry| #[trigger]
                            holds(slots, x) && key_of(x, self.data@, data_start) == key@;
                        lemma_locate_misses(slots, self.index.mask_of(), hash, matcher, lr, x);
                    }
                },
            }
        }
        (found, Ghost(entry))
    }

    /// The entry with the given key, if there is one.
    pub fn get_entry(&self, key: &[u8]) -> (r: Option<Entry<'_>>)
        requires
            self.inv(),
        ensures
            match r {
                Some(e) => self@.contains_key(key@) && e.key@ == key@ && e.value@ == self@[key@]
                    && e.flags == self.flags_view()[key@],
                None => !self@.contains_key(key@),
            },
    {
        let (found, entry) = self.find(key);
        match found {
            Some(d) => Some(self.entry_from_index_data(d)),
            None => None,
        }
    }

    /// The value stored under the given key, if there is one.
    pub fn get(&self, key: &[u8]) -> (r: Option<&[u8]>)
        requires
            self.inv(),
        ensures
            match r {
                Some(v) => self@.contains_key(key@) && v@ == self@[key@],
                None => !self@.contains_key(key@),
            },
    {
        match self.get_entry(key) {
            Some(e) => Some(e.value),
            None => None,
        }
    }

    /// Whether a value is stored under the given key.
    pub fn contains(&self, key: &[u8]) -> (r: bool)
        requires
            self.inv(),
        ensures
            r == self@.contains_key(key@),
    {
        self.get_entry(key).is_some()
    }

    /// More than nine tenths of the slots are taken: the index doubles
    /// before the next entry is stored.
    pub open spec fn crowded(&self) -> bool {
        self.len_spec() > max_usage(self.capacity_spec() as int)
    }

    /// Fewer than 35 hundredths of the slots are taken and there are more
    /// slots than a new table has: the index halves before the next entry
    /// is taken out.
    pub open spec fn roomy(&self) -> bool {
        self.len_spec() < min_usage(self.capacity_spec() as int) && self.capacity_spec()
            > INITIAL_INDEX_CAPACITY
    }

    /// Number of slots after the next `set`.
    pub open spec fn capacity_after_set(&self) -> int {
        if self.crowded() {
            2 * self.capacity_spec()
        } else {
            self.capacity_spec() as int
        }
    }

    /// Number of slots after the next `delete`.
    pub open spec fn capacity_after_delete(&self) -> int {
        if self.roomy() {
            self.capacity_spec() as int / 2
        } else {
            self.capacity_spec() as int
        }
    }

    /// The longest that the file can be after a `set` of an entry of `len`
    /// bytes: doubling the index may double the file, and the entry may be
    /// appended.
    pub open spec fn size_bound_after_set(&self, len: int) -> int {
        (if self.crowded() {
            2 * self.size_spec()
        } else {
            self.size_spec()
        }) + len + 1
    }

    /// Whether the table takes an entry with a key and a value of the given
    /// lengths: the key's length fits in 16 bits, and the file stays within
    /// `MAX_FILE_SIZE` whatever storing the entry takes.
    pub open(crate) spec fn fits_spec(&self, key_len: usize, value_len: usize) -> bool {
        &&& key_len <= 0xffff
        &&& self.size_bound_after_set(key_len + value_len) <= MAX_FILE_SIZE
    }

    /// Whether `set` takes an entry with a key and a value of the given lengths.
    pub fn fits(&self, key_len: usize, value_len: usize) -> (r: bool)
        requires
            self.inv(),
        ensures
            r == self.fits_spec(key_len, value_len),
    {
        if key_len > 0xffff || value_len > 0xffff_ffff {
            return false;
        }
        let size = self.data_start + self.data.len() as u64;
        let room = if self.index.len() > self.max_entries {
            2 * size
        } else {
            size
        };
        room + key_len as u64 + value_len as u64 + 1 <= MAX_FILE_SIZE
    }

    /// Reserves `size` bytes in the data region, at least one, and makes the
    /// region longer where it has to.
    pub(crate) fn allocate_data(&mut self, hash: u64, size: u32) -> (pos: u64)
        requires
            old(self).workable(),
            old(self).data_start + old(self).data@.len() + at_least_one(size) <= MAX_FILE_SIZE,
        ensures
            final(self).workable(),
            final(self).mem.start_spec() == old(self).mem.start_spec(),
            final(self).mem.used_view() == old(self).mem.used_view().insert(
                rank_of(old(self).mem.used_view(), pos),
                Used { start: pos, size: at_least_one(size), hash },
            ),
            old(self).data@.len() <= final(self).data@.len() <= old(self).data@.len()
                + at_least_one(size),
            final(self).data@.subrange(0, old(self).data@.len() as int) == old(self).data@,
            final(self).data_start == old(self).data_start,
            final(self).header == old(self).header,
            final(self).index == old(self).index,
            coherent(old(self).index.slots(), old(self).data@, old(self).data_start) ==> coherent(
                final(self).index.slots(),
                final(self).data@,
                final(self).data_start,
            ) && final(self)@ == old(self)@ && final(self).flags_view() == old(self).flags_view(),
    {
        let size: u32 = if size == 0 { 1 } else { size };
        let ghost slots = self.index.slots();
        let ghost data0 = self.data@;
        let ghost ds = self.data_start;
        let pos = match self.mem.allocate(size, hash) {
            Some(pos) => {
                proof {
                    assert(self.data@.subrange(0, self.data@.len() as int) =~= self.data@);
                }
                pos
            },
            None => {
                self.extend_data(size);
                let second = self.mem.allocate(size, hash);
                second.unwrap()
            },
        };
        proof {
            if coherent(slots, data0, ds) {
                let data1 = self.data@;
                assert forall|x: IndexEntry| #[trigger] holds(slots, x) implies key_of(x, data1, ds)
                    == key_of(x, data0, ds) && value_of(x, data1, ds) == value_of(x, data0, ds)
                    && in_region(x, data1.len(), ds) by {
                    assert forall|p: int|
                        x.data.position <= p < x.data.position + x.data.size implies #[trigger] data1[p
                        - ds] == data0[p - ds] by {
                        assert(data1.subrange(0, data0.len() as int)[p - ds] == data0[p - ds]);
                    }
                    crate::resize::lemma_same_bytes(x, data0, ds, data1, ds);
                }
                lemma_content_update(slots, data0, ds, slots, data1, ds, None, None);
            }
        }
        pos
    }

    /// Releases the block at `pos`.
    pub(crate) fn free_data(&mut self, pos: u64) -> (r: bool)
        requires
            old(self).mem.valid(),
        ensures
            final(self).mem.valid(),
            final(self).mem.start_spec() == old(self).mem.start_spec(),
            final(self).mem.end_spec() == old(self).mem.end_spec(),
            r == crate::memmngr::starts_block(old(self).mem.used_view(), pos),
            r ==> {
                let k = rank_of(old(self).mem.used_view(), pos);
                &&& 0 <= k < old(self).mem.used_view().len()
                &&& old(self).mem.used_view()[k].start == pos
                &&& final(self).mem.used_view() == old(self).mem.used_view().remove(k)
            },
            !r ==> final(self).mem.used_view() == old(self).mem.used_view(),
            final(self).data == old(self).data,
            final(self).data_start == old(self).data_start,
            final(self).header == old(self).header,
            final(self).index == old(self).index,
            final(self).max_entries == old(self).max_entries,
            final(self).min_entries == old(self).min_entries,
    {
        self.mem.free(pos)
    }

    /// Reserves a block for the entry and writes key and value into it.
    #[verifier::rlimit(50)]
    pub(crate) fn place(&mut self, hash: u64, key: &[u8], value: &[u8]) -> (pos: u64)
        requires
            old(self).inv(),
            key@.len() <= 0xffff,
            old(self).size_spec() + key@.len() + value@.len() + 1 <= MAX_FILE_SIZE,
        ensures
            final(self).geometry(),
            final(self).index_ok(),
            final(self).mem.valid(),
            final(self).header == old(self).header,
            final(self).index == old(self).index,
            final(self).max_entries == old(self).max_entries,
            final(self).data_start == old(self).data_start,
            final(self).size_spec() <= old(self).size_spec() + key@.len() + value@.len() + 1,
            final(self).mem.used_view() == old(self).mem.used_view().insert(
                rank_of(old(self).mem.used_view(), pos),
                Used { start: pos, size: at_least_one((key@.len() + value@.len()) as u32), hash },
            ),
            0 <= rank_of(old(self).mem.used_view(), pos) <= old(self).mem.used_view().len(),
            coherent(final(self).index.slots(), final(self).data@, final(self).data_start),
            final(self)@ == old(self)@,
            final(self).flags_view() == old(self).flags_view(),
            final(self).data_start <= pos,
            pos + at_least_one((key@.len() + value@.len()) as u32) <= final(self).data_start
                + final(self).data@.len(),
            final(self).data@.subrange(pos - final(self).data_start, pos - final(self).data_start
                + key@.len()) == key@,
            final(self).data@.subrange(
                pos - final(self).data_start + key@.len(),
                pos - final(self).data_start + key@.len() + value@.len(),
            ) == value@,
            forall|x: IndexEntry| #[trigger]
                holds(final(self).index.slots(), x) ==> x.data.position != pos,
    {
        let key_len = key.len();
        let len = (key_len + value.len()) as u32;
        let ghost slots0 = self.index.slots();
        let ghost data0 = self.data@;
        let ghost ds = self.data_start;
        let ghost used0 = self.mem.used_view();
        let ghost start = self.mem.start_spec();
        let pos = self.allocate_data(hash, len);
        let ghost used1 = self.mem.used_view();
        let ghost data1 = self.data@;
        let ghost block = Used { start: pos, size: at_least_one(len), hash };
        proof {
            crate::memmngr::lemma_rank_bounds(used0, pos);
            lemma_insert_contains(used0, rank_of(used0, pos), block);
            crate::memmngr::lemma_insert_fresh(
                used0,
                start,
                self.mem.end_spec(),
                rank_of(used0, pos),
                block,
            );
            assert(used1.contains(block));
            lemma_block_in_region(used1, start, self.mem.end_spec(), block);
        }
        let total = self.data.len();
        assert(pos - ds + len <= total);
        let offset = (pos - self.data_start) as usize;
        write_bytes(&mut self.data, offset, key);
        write_bytes(&mut self.data, offset + key_len, value);
        let ghost data2 = self.data@;
        proof {
            assert(data2.subrange(pos - ds, pos - ds + key@.len()) =~= key@);
            assert(data2.subrange(pos - ds + key@.len(), pos - ds + key@.len() + value@.len())
                =~= value@);
            assert forall|i: int|
                0 <= i < data0.len() && !(block.start - ds <= i < block.start - ds
                    + block.size) implies #[trigger] data2[i] == data0[i] by {
                assert(data1.subrange(0, data0.len() as int)[i] == data0[i]);
            }
            lemma_block_written(
                slots0,
                data0,
                data2,
                ds,
                used0,
                used1,
                start,
                self.mem.end_spec(),
                block,
                key@,
                value@,
            );
        }
        pos
    }

    /// Enters a placed entry into the index and releases the block of the
    /// entry that it replaces, if there is one, which is returned.
    #[verifier::rlimit(100)]
    pub(crate) fn link(
        &mut self,
        hash: u64,
        key: &[u8],
        index_entry: IndexEntryData,
        Ghost(used0): Ghost<Seq<Used>>,
    ) -> (r: Option<Entry<'_>>)
        requires
            old(self).geometry(),
            !old(self).header.dirty(),
            old(self).index_ok(),
            old(self).index.len_spec() <= old(self).max_entries,
            old(self).mem.valid(),
            coherent(old(self).index.slots(), old(self).data@, old(self).data_start),
            allocated(old(self).index.slots(), used0),
            hash == hash_of(key@),
            hash != 0,
            0 <= rank_of(used0, index_entry.position) <= used0.len(),
            old(self).mem.used_view() == used0.insert(
                rank_of(used0, index_entry.position),
                Used { start: index_entry.position, size: at_least_one(index_entry.size), hash },
            ),
            in_region(
                IndexEntry { hash, data: index_entry },
                old(self).data@.len(),
                old(self).data_start,
            ),
            key_of(IndexEntry { hash, data: index_entry }, old(self).data@, old(self).data_start)
                == key@,
            forall|x: IndexEntry| #[trigger]
                holds(old(self).index.slots(), x) ==> x.data.position != index_entry.position,
        ensures
            final(self).inv(),
            final(self)@ == old(self)@.insert(
                key@,
                value_of(
                    IndexEntry { hash, data: index_entry },
                    old(self).data@,
                    old(self).data_start,
                ),
            ),
            final(self).flags_view() == old(self).flags_view().insert(key@, index_entry.flags),
            r is Some <==> old(self)@.contains_key(key@),
            r matches Some(p) ==> p.key@ == key@ && p.value@ == old(self)@[key@] && p.flags
                == old(self).flags_view()[key@],
            final(self).len_spec() == old(self).len_spec() + if r is Some {
                0int
            } else {
                1int
            },
            final(self).size_spec() == old(self).size_spec(),
            final(self).capacity_spec() == old(self).capacity_spec(),
    {
        let ghost slots0 = self.index.slots();
        let ghost data2 = self.data@;
        let ghost ds = self.data_start;
        let ghost used1 = self.mem.used_view();
        let ghost start = self.mem.start_spec();
        let ghost end = self.mem.end_spec();
        let ghost mask = self.index.mask_of();
        let ghost n = IndexEntry { hash, data: index_entry };
        let data = self.data.as_slice();
        let data_start = self.data_start;
        let matcher = |e: &IndexEntryData| -> (b: bool)
            requires
                data_start <= e.position,
                e.position - data_start + e.key_size <= data@.len(),
            ensures
                b == (data@.subrange(e.position - data_start, e.position - data_start + e.key_size)
                    == key@),
            { match_key(e, data, data_start, key) };
        proof {
            assert forall|q: int| 0 <= q < slots0.len() && (#[trigger] slots0[q]).hash == hash implies call_requires(
                matcher,
                (&slots0[q].data,),
            ) by {
                assert(holds(slots0, slots0[q]));
            }
            if holds(slots0, n) {
                assert(n.data.position != index_entry.position);
            }
        }
        let result = self.index.index_set(hash, matcher, index_entry);
        let ghost slots3 = self.index.slots();
        let ghost lr = choose|lr: LocateResult| #[trigger]
            located(slots0, mask, hash, matcher, lr) && match lr {
                LocateResult::Found(p) => result == Some(slots0[p as int].data) && slots3
                    == slots0.update(p as int, n),
                _ => result is None && inserted(slots0, slots3, n),
            };
        match result {
            Some(previous) => {
                let ghost p = lr->Found_0 as int;
                let ghost o = slots0[p];
                proof {
                    assert(lr is Found);
                    assert(key_of(o, data2, ds) == key@);
                    assert(holds(slots0, o));
                    lemma_entry_for(slots0, data2, ds, o);
                    assert(used0.contains(block_of(o)));
                    lemma_insert_contains(used0, rank_of(used0, index_entry.position), block_of(n));
                    assert(used1.contains(block_of(o)));
                    let i = choose|i: int| 0 <= i < used1.len() && used1[i] == block_of(o);
                    assert(used1[i].start == previous.position);
                    assert(crate::memmngr::starts_block(used1, previous.position));
                }
                let freed = self.free_data(previous.position);
                proof {
                    assert(freed);
                    lemma_stored_over(
                        slots0,
                        data2,
                        ds,
                        used0,
                        used1,
                        self.mem.used_view(),
                        slots3,
                        p,
                        n,
                        start,
                        end,
                    );
                }
                Some(self.entry_from_index_data(previous))
            },
            None => {
                proof {
                    assert(!(lr is Found));
                    assert forall|x: IndexEntry| #[trigger] holds(slots0, x) implies key_of(
                        x,
                        data2,
                        ds,
                    ) != key@ by {
                        if key_of(x, data2, ds) == key@ {
                            lemma_locate_misses(slots0, mask, hash, matcher, lr, x);
                        }
                    }
                    lemma_stored_new(
                        slots0,
                        data2,
                        ds,
                        used0,
                        used1,
                        slots3,
                        n,
                        rank_of(used0, index_entry.position),
                    );
                }
                None
            },
        }
    }

    /// Stores the entry. If the key had a value already, the entry that was
    /// stored under it is returned: its bytes stay where they were until
    /// their space is taken again.
    ///
    /// The new bytes go to a block of their own, the old block is released.
    /// The index grows before it is more than nine tenths full, and the data
    /// region is compacted when half of it lies idle.
    pub fn set_entry(&mut self, entry: Entry<'_>) -> (r: Result<Option<Entry<'_>>, Error>)
        requires
            old(self).inv(),
        ensures
            final(self).inv(),
            r is Err <==> !old(self).fits_spec(entry.key@.len() as usize, entry.value@.len() as usize),
            r matches Err(e) ==> e == Error::Io && *final(self) == *old(self),
            r matches Ok(previous) ==> {
                &&& final(self)@ == old(self)@.insert(entry.key@, entry.value@)
                &&& final(self).flags_view() == old(self).flags_view().insert(
                    entry.key@,
                    entry.flags,
                )
                &&& previous is Some <==> old(self)@.contains_key(entry.key@)
                &&& previous matches Some(p) ==> p.key@ == entry.key@ && p.value@ == old(self)@[entry.key@] && p.flags == old(self).flags_view()[entry.key@]
                &&& final(self).len_spec() == old(self).len_spec() + if previous is Some {
                    0int
                } else {
                    1int
                }
                &&& final(self).capacity_spec() == old(self).capacity_after_set()
                &&& final(self).size_spec() <= old(self).size_bound_after_set(
                    (entry.key@.len() + entry.value@.len()) as int,
                )
            },
    {
        if !self.fits(entry.key.len(), entry.value.len()) {
            return Err(Error::Io);
        }
        self.maybe_extend_index();
        self.maybe_shrink_data();
        let hash = hash_key(entry.key);
        let key_len = entry.key.len();
        let len = (key_len + entry.value.len()) as u32;
        let ghost used0 = self.mem.used_view();
        let pos = self.place(hash, entry.key, entry.value);
        let index_entry = IndexEntryData {
            position: pos,
            size: len,
            key_size: key_len as u16,
            flags: entry.flags,
        };
        Ok(self.link(hash, entry.key, index_entry, Ghost(used0)))
    }

    /// Stores `value` under `key`. If the key had a value already, that
    /// value is returned.
    pub fn set(&mut self, key: &[u8], value: &[u8]) -> (r: Result<Option<&[u8]>, Error>)
        requires
            old(self).inv(),
        ensures
            final(self).inv(),
            r is Err <==> !old(self).fits_spec(key@.len() as usize, value@.len() as usize),
            r matches Err(e) ==> e == Error::Io && *final(self) == *old(self),
            r matches Ok(previous) ==> {
                &&& final(self)@ == old(self)@.insert(key@, value@)
                &&& final(self).flags_view() == old(self).flags_view().insert(key@, 0)
                &&& previous is Some <==> old(self)@.contains_key(key@)
                &&& previous matches Some(v) ==> v@ == old(self)@[key@]
                &&& final(self).len_spec() == old(self).len_spec() + if previous is Some {
                    0int
                } else {
                    1int
                }
                &&& final(self).capacity_spec() == old(self).capacity_after_set()
                &&& final(self).size_spec() <= old(self).size_bound_after_set(
                    (key@.len() + value@.len()) as int,
                )
            },
    {
        match self.set_entry(Entry { key, value, flags: 0 }) {
            Ok(Some(e)) => Ok(Some(e.value)),
            Ok(None) => Ok(None),
            Err(e) => Err(e),
        }
    }

    /// Takes the entry with the given key out, whatever the sizes of index
    /// and data region then are.
    #[verifier::rlimit(100)]
    pub(crate) fn delete_entry_no_shrink(&mut self, key: &[u8]) -> (r: Option<Entry<'_>>)
        requires
            old(self).inv(),
        ensures
            final(self).inv(),
            final(self)@ == old(self)@.remove(key@),
            final(self).flags_view() == old(self).flags_view().remove(key@),
            r is Some <==> old(self)@.contains_key(key@),
            r matches Some(p) ==> p.key@ == key@ && p.value@ == old(self)@[key@] && p.flags
                == old(self).flags_view()[key@],
            final(self).len_spec() == old(self).len_spec() - if r is Some {
                1int
            } else {
                0int
            },
            final(self).capacity_spec() == old(self).capacity_spec(),
            final(self).size_spec() == old(self).size_spec(),
    {
        let hash = hash_key(key);
        let ghost slots0 = self.index.slots();
        let ghost data0 = self.data@;
        let ghost ds = self.data_start;
        let ghost used0 = self.mem.used_view();
        let ghost start = self.mem.start_spec();
        let ghost end = self.mem.end_spec();
        let ghost mask = self.index.mask_of();
        let data = self.data.as_slice();
        let data_start = self.data_start;
        let matcher = |e: &IndexEntryData| -> (b: bool)
            requires
                data_start <= e.position,
                e.position - data_start + e.key_size <= data@.len(),
            ensures
                b == (data@.subrange(e.position - data_start, e.position - data_start + e.key_size)
                    == key@),
            { match_key(e, data, data_start, key) };
        proof {
            assert forall|q: int| 0 <= q < slots0.len() && (#[trigger] slots0[q]).hash == hash implies call_requires(
                matcher,
                (&slots0[q].data,),
            ) by {
                assert(holds(slots0, slots0[q]));
            }
        }
        let result = self.index.index_delete(hash, matcher);
        let ghost slots3 = self.index.slots();
        let ghost lr = choose|lr: LocateResult| #[trigger]
            located(slots0, mask, hash, matcher, lr) && match lr {
                LocateResult::Found(p) => result == Some(slots0[p as int].data) && removed(
                    slots0,
                    slots3,
                    slots0[p as int],
                ),
                _ => result is None && slots3 == slots0,
            };
        match result {
            Some(previous) => {
                let ghost o = slots0[lr->Found_0 as int];
                proof {
                    assert(lr is Found);
                    assert(holds(slots0, o));
                    assert(key_of(o, data0, ds) == key@);
                    lemma_entry_for(slots0, data0, ds, o);
                    assert(used0.contains(block_of(o)));
                    let i = choose|i: int| 0 <= i < used0.len() && used0[i] == block_of(o);
                    assert(used0[i].start == previous.position);
                    assert(crate::memmngr::starts_block(used0, previous.position));
                }
                let freed = self.free_data(previous.position);
                proof {
                    assert(freed);
                    lemma_deleted(slots0, data0, ds, used0, self.mem.used_view(), slots3, o, start, end);
                }
                Some(self.entry_from_index_data(previous))
            },
            None => {
                proof {
                    assert(!(lr is Found));
                    if has_key(slots0, data0, ds, key@) {
                        let x = choose|x: IndexEntry| #[trigger]
                            holds(slots0, x) && key_of(x, data0, ds) == key@;
                        lemma_locate_misses(slots0, mask, hash, matcher, lr, x);
                    }
                    assert(self@ =~= old(self)@.remove(key@));
                    assert(self.flags_view() =~= old(self).flags_view().remove(key@));
                }
                None
            },
        }
    }

    /// Takes the entry with the given key out and returns it. Its bytes stay
    /// where they were until their space is taken again.
    ///
    /// The index shrinks when it is less than 35 hundredths full, and the
    /// data region is compacted when half of it lies idle.
    pub fn delete_entry(&mut self, key: &[u8]) -> (r: Result<Option<Entry<'_>>, Error>)
        requires
            old(self).inv(),
        ensures
            final(self).inv(),
            r matches Ok(previous) && {
                &&& final(self)@ == old(self)@.remove(key@)
                &&& final(self).flags_view() == old(self).flags_view().remove(key@)
                &&& previous is Some <==> old(self)@.contains_key(key@)
                &&& previous matches Some(p) ==> p.key@ == key@ && p.value@ == old(self)@[key@]
                    && p.flags == old(self).flags_view()[key@]
                &&& final(self).len_spec() == old(self).len_spec() - if previous is Some {
                    1int
                } else {
                    0int
                }
                &&& final(self).capacity_spec() == old(self).capacity_after_delete()
                &&& final(self).size_spec() <= old(self).size_spec()
            },
    {
        self.maybe_shrink_index();
        self.maybe_shrink_data();
        Ok(self.delete_entry_no_shrink(key))
    }

    /// Takes the value stored under the given key out and returns it.
    pub fn delete(&mut self, key: &[u8]) -> (r: Result<Option<&[u8]>, Error>)
        requires
            old(self).inv(),
        ensures
            final(self).inv(),
            r matches Ok(previous) && {
                &&& final(self)@ == old(self)@.remove(key@)
                &&& final(self).flags_view() == old(self).flags_view().remove(key@)
                &&& previous is Some <==> old(self)@.contains_key(key@)
                &&& previous matches Some(v) ==> v@ == old(self)@[key@]
                &&& final(self).len_spec() == old(self).len_spec() - if previous is Some {
                    1int
                } else {
                    0int
                }
                &&& final(self).capacity_spec() == old(self).capacity_after_delete()
                &&& final(self).size_spec() <= old(self).size_spec()
            },
    {
        match self.delete_entry(key) {
            Ok(Some(e)) => Ok(Some(e.value)),
            Ok(None) => Ok(None),
            Err(e) => Err(e),
        }
    }

    /// Numbers on the table: its entries, the sizes of its parts and what
    /// of them is free.
    pub fn stats(&self) -> (r: Stats)
        requires
            self.inv(),
        ensures
            r.valid,
            r.entries == self.len_spec(),
            r.size == self.size_spec(),
            r.hash_size == self.capacity_spec() * ENTRY_SIZE,
            r.hash_free == (self.capacity_spec() - self.len_spec()) * ENTRY_SIZE,
            r.data_size == self.size_spec() - HEADER_SIZE - self.capacity_spec() * ENTRY_SIZE,
            r.data_free == r.data_size - self.data_used(),
    {
        proof {
            crate::memmngr::lemma_total_le_region(
                self.mem.used_view(),
                self.mem.start_spec(),
                self.mem.end_spec(),
            );
        }
        Stats {
            valid: self.is_valid(),
            entries: self.len(),
            size: self.size(),
            hash_size: self.index.capacity() as u64 * ENTRY_SIZE,
            hash_free: (self.index.capacity() - self.index.len()) as u64 * ENTRY_SIZE,
            data_size: self.mem.end() - self.mem.start(),
            data_free: self.mem.end() - self.mem.start() - self.mem.used_size(),
        }
    }

    /// The index of the table.
    pub open(crate) spec fn index_spec(&self) -> Index {
        self.index
    }

    /// The index of the table: its slots are the table's own.
    pub fn index(&self) -> (r: &Index)
        ensures
            *r == self.index_spec(),
            r.len_spec() == self.len_spec(),
            r.capacity_spec() == self.capacity_spec(),
            self.inv() ==> r.valid(),
    {
        &self.index
    }

    /// Closes the table. There is nothing to do but to let it go.
    pub fn close(self) {
    }
}

} // verus!
