//! Changing values where they lie.

use crate::content::{
    allocated, block_of, coherent, flags, in_region, key_of, lemma_content_update,
    lemma_entry_for, value_of, values,
};
use crate::index::{holds, Entry as IndexEntry, EntryData as IndexEntryData};
use crate::memmngr::{layout, lemma_blocks_apart, Used};
use crate::table::Table;
use vstd::prelude::*;

verus! {

/// An entry of the table whose value can be changed where it lies.
pub struct EntryMut<'a> {
    /// Flags stored with the entry. Changes of this field do not reach the table.
    pub flags: u16,
    /// The key of the entry.
    pub key: &'a [u8],
    /// The value of the entry. Changes of its bytes are changes of the table.
    pub value: &'a mut [u8],
}

/// `f`, called with the entry `e` of the key `k`, the value `v` and the
/// flags `fl`, has left the bytes `after` in the place of the value, and the
/// value is `out` from then on: `after`, or `v` as before where `after` is
/// of another length.
pub open spec fn leaves<F: Fn(EntryMut<'_>)>(
    f: F,
    e: EntryMut<'_>,
    after: Seq<u8>,
    k: Seq<u8>,
    v: Seq<u8>,
    fl: u16,
    out: Seq<u8>,
) -> bool {
    &&& call_ensures(f, (e,), ())
    &&& e.key@ == k
    &&& e.value@ == v
    &&& e.flags == fl
    &&& out == if after.len() == v.len() {
        after
    } else {
        v
    }
}

/// `data` with the bytes from index `a` on replaced by `w`.
pub open spec fn rewritten(data: Seq<u8>, a: int, w: Seq<u8>) -> Seq<u8> {
    data.subrange(0, a) + w + data.subrange(a + w.len(), data.len() as int)
}

/// Writing other bytes in the place of an entry's value leaves slots and
/// bytes in agreement and gives the entry's key the new value. Nothing else
/// changes.
pub proof fn lemma_value_rewritten(
    slots: Seq<IndexEntry>,
    data: Seq<u8>,
    ds: u64,
    used: Seq<Used>,
    end: u64,
    e: IndexEntry,
    w: Seq<u8>,
)
    requires
        coherent(slots, data, ds),
        allocated(slots, used),
        layout(used, ds, end),
        holds(slots, e),
        w.len() == e.data.size - e.data.key_size,
    ensures
        coherent(
            slots,
            rewritten(data, e.data.position - ds + e.data.key_size, w),
            ds,
        ),
        values(slots, rewritten(data, e.data.position - ds + e.data.key_size, w), ds) == values(
            slots,
            data,
            ds,
        ).insert(key_of(e, data, ds), w),
        flags(slots, rewritten(data, e.data.position - ds + e.data.key_size, w), ds) == flags(
            slots,
            data,
            ds,
        ),
        rewritten(data, e.data.position - ds + e.data.key_size, w).len() == data.len(),
        value_of(e, rewritten(data, e.data.position - ds + e.data.key_size, w), ds) == w,
        forall|x: IndexEntry| #[trigger]
            holds(slots, x) ==> key_of(
                x,
                rewritten(data, e.data.position - ds + e.data.key_size, w),
                ds,
            ) == key_of(x, data, ds) && (x != e ==> value_of(
                x,
                rewritten(data, e.data.position - ds + e.data.key_size, w),
                ds,
            ) == value_of(x, data, ds)),
{
    let a = e.data.position - ds + e.data.key_size;
    let data2 = rewritten(data, a, w);
    assert(key_of(e, data2, ds) =~= key_of(e, data, ds));
    assert(value_of(e, data2, ds) =~= w);
    assert forall|x: IndexEntry| #[trigger] holds(slots, x) && Some(e) != Some(x) implies key_of(
        x,
        data2,
        ds,
    ) == key_of(x, data, ds) && value_of(x, data2, ds) == value_of(x, data, ds) && in_region(
        x,
        data2.len(),
        ds,
    ) by {
        assert(used.contains(block_of(x)));
        assert(used.contains(block_of(e)));
        if block_of(x) == block_of(e) {
            assert(x.data.position == e.data.position);
        }
        lemma_blocks_apart(used, ds, end, block_of(x), block_of(e));
        assert(key_of(x, data2, ds) =~= key_of(x, data, ds));
        assert(value_of(x, data2, ds) =~= value_of(x, data, ds));
    }
    assert forall|x: IndexEntry| #[trigger]
        holds(slots, x) <==> (holds(slots, x) && Some(e) != Some(x)) || Some(e) == Some(x) by {}
    lemma_content_update(slots, data, ds, slots, data2, ds, Some(e), Some(e));
    lemma_entry_for(slots, data, ds, e);
    assert(values(slots, data2, ds) =~= values(slots, data, ds).insert(key_of(e, data, ds), w));
    assert(flags(slots, data2, ds) =~= flags(slots, data, ds));
}

/// What `lemma_value_rewritten` shows of the bytes `w`.
pub open spec fn rewritten_ok(
    slots: Seq<IndexEntry>,
    data: Seq<u8>,
    ds: u64,
    e: IndexEntry,
    w: Seq<u8>,
) -> bool {
    let data2 = rewritten(data, e.data.position - ds + e.data.key_size, w);
    &&& coherent(slots, data2, ds)
    &&& values(slots, data2, ds) == values(slots, data, ds).insert(key_of(e, data, ds), w)
    &&& flags(slots, data2, ds) == flags(slots, data, ds)
    &&& data2.len() == data.len()
}

/// Whatever bytes of the right length are written in the place of an
/// entry's value, slots and bytes stay in agreement.
pub proof fn lemma_values_rewritten(
    slots: Seq<IndexEntry>,
    data: Seq<u8>,
    ds: u64,
    used: Seq<Used>,
    end: u64,
    e: IndexEntry,
)
    requires
        coherent(slots, data, ds),
        allocated(slots, used),
        layout(used, ds, end),
        holds(slots, e),
    ensures
        forall|w: Seq<u8>|
            w.len() == e.data.size - e.data.key_size ==> #[trigger] rewritten_ok(
                slots,
                data,
                ds,
                e,
                w,
            ),
{
    assert forall|w: Seq<u8>| w.len() == e.data.size - e.data.key_size implies #[trigger] rewritten_ok(
        slots,
        data,
        ds,
        e,
        w,
    ) by {
        lemma_value_rewritten(slots, data, ds, used, end, e, w);
    }
}

/// The bytes from index `a` up to `m` to read and those from `m` up to `b`
/// to write.
fn split_entry(data: &mut Vec<u8>, a: usize, m: usize, b: usize) -> (r: (&[u8], &mut [u8]))
    requires
        a <= m <= b <= old(data)@.len(),
    ensures
        r.0@ == old(data)@.subrange(a as int, m as int),
        r.1@ == old(data)@.subrange(m as int, b as int),
        final(r.1)@.len() == r.1@.len() ==> final(data)@ == rewritten(
            old(data)@,
            m as int,
            final(r.1)@,
        ),
{
    let ghost data0 = data@;
    let s = data.as_mut_slice();
    let (head, rest) = s.split_at_mut(m);
    let (value, tail) = rest.split_at_mut(b - m);
    let (skipped, key) = head.split_at_mut(a);
    assert(key@ =~= data0.subrange(a as int, m as int));
    assert(value@ =~= data0.subrange(m as int, b as int));
    assert(final(value)@.len() == value@.len() ==> (skipped@ + key@) + (final(value)@ + tail@)
        =~= rewritten(data0, m as int, final(value)@));
    (key, value)
}

impl Table {
    /// Key, value and flags of the entry that a slot describes, the value
    /// to be changed where it lies.
    pub(crate) fn entry_mut_from_index_data(&mut self, Ghost(e): Ghost<IndexEntry>, entry: IndexEntryData) -> (r:
        EntryMut<'_>)
        requires
            old(self).inv(),
            holds(old(self).index.slots(), e),
            e.data == entry,
        ensures
            r.flags == entry.flags,
            r.key@ == key_of(e, old(self).data@, old(self).data_start),
            r.value@ == value_of(e, old(self).data@, old(self).data_start),
            final(r.value)@.len() == r.value@.len() ==> final(self).inv() && final(self)@ == old(self)@.insert(r.key@, final(r.value)@) && final(self).flags_view() == old(self).flags_view() && final(self).len_spec() == old(self).len_spec() && final(self).capacity_spec() == old(self).capacity_spec() && final(self).size_spec() == old(self).size_spec(),
    {
        let total = self.data.len();
        assert(entry.position - self.data_start + entry.size <= total);
        let start = (entry.position - self.data_start) as usize;
        let mid = start + entry.key_size as usize;
        let end = start + entry.size as usize;
        let ghost data0 = self.data@;
        let (key, value) = split_entry(&mut self.data, start, mid, end);
        assert(final(value)@.len() == value@.len() ==> rewritten_ok(
            self.index.slots(),
            data0,
            self.data_start,
            e,
            final(value)@,
        )) by {
            lemma_values_rewritten(
                self.index.slots(),
                data0,
                self.data_start,
                self.mem.used_view(),
                self.mem.end_spec(),
                e,
            );
        }
        EntryMut { key, value, flags: entry.flags }
    }

    /// The entry with the given key, if there is one, with its value to be
    /// changed where it lies.
    pub fn get_entry_mut(&mut self, key: &[u8]) -> (r: Option<EntryMut<'_>>)
        requires
            old(self).inv(),
        ensures
            r matches Some(e) ==> {
                &&& old(self)@.contains_key(key@)
                &&& e.key@ == key@
                &&& e.value@ == old(self)@[key@]
                &&& e.flags == old(self).flags_view()[key@]
                &&& final(e.value)@.len() == e.value@.len() ==> {
                    &&& final(self).inv()
                    &&& final(self)@ == old(self)@.insert(key@, final(e.value)@)
                    &&& final(self).flags_view() == old(self).flags_view()
                    &&& final(self).len_spec() == old(self).len_spec()
                }
            },
            r is None ==> {
                &&& !old(self)@.contains_key(key@)
                &&& final(self).inv()
                &&& final(self)@ == old(self)@
                &&& final(self).flags_view() == old(self).flags_view()
                &&& final(self).len_spec() == old(self).len_spec()
            },
    {
        let (found, entry) = self.find(key);
        match found {
            Some(d) => Some(self.entry_mut_from_index_data(entry, d)),
            None => None,
        }
    }

    /// The value stored under the given key, if there is one, to be changed
    /// where it lies.
    pub fn get_mut(&mut self, key: &[u8]) -> (r: Option<&mut [u8]>)
        requires
            old(self).inv(),
        ensures
            r matches Some(v) ==> {
                &&& old(self)@.contains_key(key@)
                &&& v@ == old(self)@[key@]
                &&& final(v)@.len() == v@.len() ==> {
                    &&& final(self).inv()
                    &&& final(self)@ == old(self)@.insert(key@, final(v)@)
                    &&& final(self).flags_view() == old(self).flags_view()
                    &&& final(self).len_spec() == old(self).len_spec()
                }
            },
            r is None ==> {
                &&& !old(self)@.contains_key(key@)
                &&& final(self).inv()
                &&& final(self)@ == old(self)@
                &&& final(self).flags_view() == old(self).flags_view()
                &&& final(self).len_spec() == old(self).len_spec()
            },
    {
        match self.get_entry_mut(key) {
            Some(e) => Some(e.value),
            None => None,
        }
    }

    /// Calls `f` once with each entry, in the order of the slots. What `f`
    /// makes of a value is the entry's value from then on. Keys and flags
    /// stay as they are.
    pub fn each_mut<F: Fn(EntryMut<'_>)>(&mut self, f: F)
        requires
            old(self).inv(),
            forall|e: EntryMut<'_>| call_requires(f, (e,)),
        ensures
            final(self).inv(),
            final(self)@.dom() == old(self)@.dom(),
            final(self).flags_view() == old(self).flags_view(),
            final(self).len_spec() == old(self).len_spec(),
            forall|k: Seq<u8>| #[trigger]
                final(self)@.contains_key(k) ==> final(self)@[k].len() == old(self)@[k].len(),
            forall|k: Seq<u8>| #[trigger]
                final(self)@.contains_key(k) ==> exists|e: EntryMut<'_>| #[trigger]
                    leaves(
                        f,
                        e,
                        final(e.value)@,
                        k,
                        old(self)@[k],
                        old(self).flags_view()[k],
                        final(self)@[k],
                    ),
    {
        let ghost slots = self.index.slots();
        let ghost first = self.data@;
        let ghost ds = self.data_start;
        let capacity = self.index.capacity();
        let mut pos: usize = 0;
        while pos < capacity
            invariant
                pos <= capacity,
                capacity == slots.len(),
                self.inv(),
                self.index.slots() == slots,
                self.data_start == ds,
                forall|e: EntryMut<'_>| call_requires(f, (e,)),
                self@.dom() == old(self)@.dom(),
                self.flags_view() == old(self).flags_view(),
                self.len_spec() == old(self).len_spec(),
                forall|k: Seq<u8>| #[trigger]
                    self@.contains_key(k) ==> self@[k].len() == old(self)@[k].len(),
                forall|q: int|
                    0 <= q < slots.len() && (#[trigger] slots[q]).used() ==> key_of(
                        slots[q],
                        self.data@,
                        ds,
                    ) == key_of(slots[q], first, ds),
                forall|q: int|
                    pos <= q < slots.len() && (#[trigger] slots[q]).used() ==> value_of(
                        slots[q],
                        self.data@,
                        ds,
                    ) == value_of(slots[q], first, ds),
                forall|q: int|
                    0 <= q < pos && (#[trigger] slots[q]).used() ==> exists|e: EntryMut<'_>| #[trigger]
                        leaves(
                            f,
                            e,
                            final(e.value)@,
                            key_of(slots[q], first, ds),
                            value_of(slots[q], first, ds),
                            slots[q].data.flags,
                            value_of(slots[q], self.data@, ds),
                        ),
            decreases capacity - pos,
        {
            let e = self.index.get_entries()[pos];
            if e.is_used() {
                assert(holds(slots, slots[pos as int]));
                let ghost data0 = self.data@;
                let ghost before = self@;
                proof {
                    lemma_entry_for(slots, data0, self.data_start, slots[pos as int]);
                }
                let total = self.data.len();
                assert(e.data.position - self.data_start + e.data.size <= total);
                let start = (e.data.position - self.data_start) as usize;
                let mid = start + e.data.key_size as usize;
                let end = start + e.data.size as usize;
                let mut value = crate::image::copy_tail(&self.data.as_slice()[mid..end], 0);
                let length = value.len();
                let entry = EntryMut {
                    key: &self.data[start..mid],
                    value: value.as_mut_slice(),
                    flags: e.data.flags,
                };
                let ghost shown = entry;
                f(entry);
                assert(call_ensures(f, (shown,), ()));
                assert(final(shown.value)@ == value@);
                assert(shown.key@ == key_of(slots[pos as int], data0, ds));
                assert(shown.value@ == value_of(slots[pos as int], data0, ds));
                if value.len() == length {
                    write_value(&mut self.data, mid, &value);
                    proof {
                        lemma_value_rewritten(
                            slots,
                            data0,
                            self.data_start,
                            self.mem.used_view(),
                            self.mem.end_spec(),
                            slots[pos as int],
                            value@,
                        );
                        assert(self@.dom() =~= before.dom());
                    }
                }
                proof {
                    assert(leaves(
                        f,
                        shown,
                        final(shown.value)@,
                        key_of(slots[pos as int], first, ds),
                        value_of(slots[pos as int], first, ds),
                        slots[pos as int].data.flags,
                        value_of(slots[pos as int], self.data@, ds),
                    ));
                    assert forall|q: int|
                        0 <= q < slots.len() && q != pos && (#[trigger] slots[q]).used() implies key_of(
                        slots[q],
                        self.data@,
                        ds,
                    ) == key_of(slots[q], data0, ds) && value_of(slots[q], self.data@, ds)
                        == value_of(slots[q], data0, ds) by {
                        assert(holds(slots, slots[q]));
                        assert(slots[q] != slots[pos as int]);
                    }
                }
            }
            pos += 1;
        }
        proof {
            let last = self.data@;
            assert forall|k: Seq<u8>| #[trigger] self@.contains_key(k) implies exists|
                e: EntryMut<'_>,
            | #[trigger]
                leaves(
                    f,
                    e,
                    final(e.value)@,
                    k,
                    old(self)@[k],
                    old(self).flags_view()[k],
                    self@[k],
                ) by {
                assert(old(self)@.contains_key(k));
                let x = crate::content::entry_for(slots, first, ds, k);
                assert(holds(slots, x) && key_of(x, first, ds) == k);
                let q = choose|q: int| 0 <= q < slots.len() && slots[q] == x;
                assert(slots[q].used());
                lemma_entry_for(slots, first, ds, x);
                lemma_entry_for(slots, last, ds, x);
            }
        }
    }
}

/// Writes `bytes` over the bytes of `data` from index `offset` on.
fn write_value(data: &mut Vec<u8>, offset: usize, bytes: &Vec<u8>)
    requires
        offset + bytes@.len() <= old(data)@.len(),
    ensures
        final(data)@ == rewritten(old(data)@, offset as int, bytes@),
{
    crate::table::write_bytes(data, offset, bytes.as_slice());
}

} // verus!
