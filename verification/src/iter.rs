//! Walking over the entries of a table.

use crate::content::{coherent, key_of, lemma_entry_for, value_of};
use crate::index::{holds, Entry as IndexEntry};
use crate::table::{Entry, Error, Table};
use vstd::prelude::*;

verus! {

/// The entries of `items` are those of the occupied slots, one for each, in
/// the order of the slots given by `origin`, up to slot `p`.
pub open spec fn walked(
    items: Seq<Entry<'_>>,
    origin: Seq<int>,
    slots: Seq<IndexEntry>,
    data: Seq<u8>,
    ds: u64,
    p: int,
) -> bool {
    &&& origin.len() == items.len()
    &&& forall|i: int|
        0 <= i < origin.len() ==> 0 <= #[trigger] origin[i] < p && slots[origin[i]].used()
            && items[i].key@ == key_of(slots[origin[i]], data, ds) && items[i].value@
            == value_of(slots[origin[i]], data, ds) && items[i].flags
            == slots[origin[i]].data.flags
    &&& forall|i: int, j: int|
        0 <= i < j < origin.len() ==> #[trigger] origin[i] < #[trigger] origin[j]
    &&& forall|q: int| 0 <= q < p && (#[trigger] slots[q]).used() ==> origin.contains(q)
}

/// `items` lists what `m` holds, each key once.
pub open spec fn lists(items: Seq<Entry<'_>>, m: Map<Seq<u8>, Seq<u8>>, f: Map<Seq<u8>, u16>) -> bool {
    &&& forall|i: int|
        0 <= i < items.len() ==> m.contains_key(#[trigger] items[i].key@) && items[i].value@
            == m[items[i].key@] && items[i].flags == f[items[i].key@]
    &&& forall|i: int, j: int|
        0 <= i < j < items.len() ==> #[trigger] items[i].key@ != #[trigger] items[j].key@
    &&& forall|k: Seq<u8>| m.contains_key(k) ==> exists|i: int| 0 <= i < items.len() && #[trigger] items[i].key@ == k
}

/// `f` accepts an entry with the given key, value and flags.
pub open spec fn accepts<F: Fn(Entry<'_>) -> bool>(f: F, k: Seq<u8>, v: Seq<u8>, fl: u16) -> bool {
    exists|e: Entry<'_>| #[trigger]
        call_ensures(f, (e,), true) && e.key@ == k && e.value@ == v && e.flags == fl
}

/// `f` turns an entry with the given key, value and flags down.
pub open spec fn rejects<F: Fn(Entry<'_>) -> bool>(f: F, k: Seq<u8>, v: Seq<u8>, fl: u16) -> bool {
    exists|e: Entry<'_>| #[trigger]
        call_ensures(f, (e,), false) && e.key@ == k && e.value@ == v && e.flags == fl
}

/// A call of `f` with an entry of the given key, value and flags has come
/// back.
pub open spec fn shown<F: Fn(Entry<'_>)>(f: F, k: Seq<u8>, v: Seq<u8>, fl: u16) -> bool {
    exists|e: Entry<'_>| #[trigger]
        call_ensures(f, (e,), ()) && e.key@ == k && e.value@ == v && e.flags == fl
}

/// `k` is one of the first `n` keys.
pub open spec fn listed(keys: Seq<Vec<u8>>, n: int, k: Seq<u8>) -> bool {
    exists|i: int| 0 <= i < n && (#[trigger] keys[i])@ == k
}

impl Table {
    /// Takes out every entry that `f` turns down: what stays was accepted,
    /// what goes was turned down. Index and data region are brought to size
    /// when all are out.
    pub fn filter<F: Fn(Entry<'_>) -> bool>(&mut self, f: F) -> (r: Result<(), Error>)
        requires
            old(self).inv(),
            forall|e: Entry<'_>| call_requires(f, (e,)),
        ensures
            r is Ok,
            final(self).inv(),
            forall|k: Seq<u8>| #[trigger]
                final(self)@.contains_key(k) ==> old(self)@.contains_key(k) && accepts(
                    f,
                    k,
                    old(self)@[k],
                    old(self).flags_view()[k],
                ) && final(self)@[k] == old(self)@[k] && final(self).flags_view()[k] == old(self).flags_view()[k],
            forall|k: Seq<u8>| #[trigger]
                old(self)@.contains_key(k) && !final(self)@.contains_key(k) ==> rejects(
                    f,
                    k,
                    old(self)@[k],
                    old(self).flags_view()[k],
                ),
    {
        let rejected = self.rejected_by(&f);
        let mut i: usize = 0;
        while i < rejected.len()
            invariant
                i <= rejected@.len(),
                self.inv(),
                forall|k: Seq<u8>| #[trigger]
                    self@.contains_key(k) <==> old(self)@.contains_key(k) && !listed(
                        rejected@,
                        i as int,
                        k,
                    ),
                forall|k: Seq<u8>| #[trigger]
                    self@.contains_key(k) ==> self@[k] == old(self)@[k] && self.flags_view()[k]
                        == old(self).flags_view()[k],
            decreases rejected@.len() - i,
        {
            let ghost before = self@;
            let _ = self.delete_entry_no_shrink(rejected[i].as_slice());
            proof {
                assert forall|k: Seq<u8>| #[trigger]
                    self@.contains_key(k) <==> old(self)@.contains_key(k) && !listed(
                        rejected@,
                        i as int + 1,
                        k,
                    ) by {
                    if listed(rejected@, i as int + 1, k) {
                        let j = choose|j: int| 0 <= j < i + 1 && (#[trigger] rejected@[j])@ == k;
                        if j < i {
                            assert(listed(rejected@, i as int, k));
                        }
                    }
                    if listed(rejected@, i as int, k) {
                        let j = choose|j: int| 0 <= j < i && (#[trigger] rejected@[j])@ == k;
                        assert((rejected@[j])@ == k);
                    }
                    if k == rejected@[i as int]@ {
                        assert(listed(rejected@, i as int + 1, k));
                    }
                }
            }
            i += 1;
        }
        self.maybe_shrink_index();
        self.maybe_shrink_data();
        Ok(())
    }

    /// The keys of the entries that `f` turns down.
    pub(crate) fn rejected_by<F: Fn(Entry<'_>) -> bool>(&self, f: &F) -> (rejected: Vec<Vec<u8>>)
        requires
            self.inv(),
            forall|e: Entry<'_>| call_requires(*f, (e,)),
        ensures
            forall|k: Seq<u8>|
                listed(rejected@, rejected@.len() as int, k) ==> self@.contains_key(k) && rejects(
                    *f,
                    k,
                    self@[k],
                    self.flags_view()[k],
                ),
            forall|k: Seq<u8>|
                self@.contains_key(k) && !listed(rejected@, rejected@.len() as int, k) ==> accepts(
                    *f,
                    k,
                    self@[k],
                    self.flags_view()[k],
                ),
    {
        let entries = self.index.get_entries();
        let ghost slots = self.index.slots();
        let ghost data = self.data@;
        let ghost ds = self.data_start;
        let mut rejected: Vec<Vec<u8>> = Vec::new();
        let mut p: usize = 0;
        while p < entries.len()
            invariant
                p <= slots.len(),
                entries@ == slots,
                slots == self.index.slots(),
                data == self.data@,
                ds == self.data_start,
                self.inv(),
                forall|e: Entry<'_>| call_requires(*f, (e,)),
                forall|i: int|
                    0 <= i < rejected@.len() ==> self@.contains_key((#[trigger] rejected@[i])@)
                        && rejects(
                        *f,
                        rejected@[i]@,
                        self@[rejected@[i]@],
                        self.flags_view()[rejected@[i]@],
                    ),
                forall|q: int|
                    0 <= q < p && (#[trigger] slots[q]).used() ==> accepts(
                        *f,
                        key_of(slots[q], data, ds),
                        value_of(slots[q], data, ds),
                        slots[q].data.flags,
                    ) || listed(rejected@, rejected@.len() as int, key_of(slots[q], data, ds)),
            decreases slots.len() - p,
        {
            let e = entries[p];
            if e.is_used() {
                assert(holds(slots, slots[p as int]));
                proof {
                    lemma_entry_for(slots, data, ds, slots[p as int]);
                }
                let item = self.entry_from_index_data(e.data);
                let ghost shown = item;
                let keep = f(item);
                let ghost before = rejected@;
                if !keep {
                    let key = self.key_bytes(&e.data);
                    rejected.push(crate::image::copy_tail(key, 0));
                    proof {
                        assert(key@.subrange(0, key@.len() as int) =~= key@);
                        let k = key_of(slots[p as int], data, ds);
                        assert(rejected@[before.len() as int]@ == k);
                        assert(call_ensures(*f, (shown,), false));
                        assert(rejects(*f, k, self@[k], self.flags_view()[k]));
                        assert forall|q: int| 0 <= q < p + 1 && (#[trigger] slots[q]).used() implies accepts(
                            *f,
                            key_of(slots[q], data, ds),
                            value_of(slots[q], data, ds),
                            slots[q].data.flags,
                        ) || listed(
                            rejected@,
                            rejected@.len() as int,
                            key_of(slots[q], data, ds),
                        ) by {
                            if q < p {
                                let kq = key_of(slots[q], data, ds);
                                if listed(before, before.len() as int, kq) {
                                    let j = choose|j: int|
                                        0 <= j < before.len() && (#[trigger] before[j])@ == kq;
                                    assert(rejected@[j]@ == kq);
                                }
                            } else {
                                assert(rejected@[before.len() as int]@ == k);
                            }
                        }
                    }
                } else {
                    proof {
                        assert(call_ensures(*f, (shown,), true));
                    }
                }
            }
            p += 1;
        }
        proof {
            assert forall|k: Seq<u8>|
                listed(rejected@, rejected@.len() as int, k) implies self@.contains_key(k)
                && rejects(*f, k, self@[k], self.flags_view()[k]) by {
                let j = choose|j: int| 0 <= j < rejected@.len() && (#[trigger] rejected@[j])@ == k;
            }
            assert forall|k: Seq<u8>|
                self@.contains_key(k) && !listed(
                    rejected@,
                    rejected@.len() as int,
                    k,
                ) implies accepts(*f, k, self@[k], self.flags_view()[k]) by {
                let e = crate::content::entry_for(slots, data, ds, k);
                assert(holds(slots, e) && key_of(e, data, ds) == k);
                lemma_entry_for(slots, data, ds, e);
                let q = choose|q: int| 0 <= q < slots.len() && slots[q] == e;
                assert(slots[q].used());
            }
        }
        rejected
    }

    /// `items` are the entries of the occupied slots, one for each, in the
    /// order of the slots.
    pub open(crate) spec fn in_slot_order(&self, items: Seq<Entry<'_>>) -> bool {
        exists|origin: Seq<int>| #[trigger]
            walked(
                items,
                origin,
                self.index.slots(),
                self.data@,
                self.data_start,
                self.index.slots().len() as int,
            )
    }

    /// The entries in the order of their slots, each once.
    pub fn iter(&self) -> (r: Vec<Entry<'_>>)
        requires
            self.inv(),
        ensures
            r@.len() == self.len_spec(),
            lists(r@, self@, self.flags_view()),
            self.in_slot_order(r@),
    {
        let entries = self.index.get_entries();
        let ghost slots = self.index.slots();
        let ghost data = self.data@;
        let ghost ds = self.data_start;
        let mut items: Vec<Entry<'_>> = Vec::new();
        let ghost mut origin: Seq<int> = Seq::empty();
        let mut p: usize = 0;
        while p < entries.len()
            invariant
                p <= slots.len(),
                entries@ == slots,
                slots == self.index.slots(),
                data == self.data@,
                ds == self.data_start,
                self.inv(),
                walked(items@, origin, slots, data, ds, p as int),
                items@.len() == crate::index::occupancy(slots.take(p as int)),
            decreases slots.len() - p,
        {
            let e = entries[p];
            proof {
                crate::index::lemma_occupancy_take(slots, p as int);
            }
            let ghost before = origin;
            if e.is_used() {
                assert(holds(slots, slots[p as int]));
                let item = self.entry_from_index_data(e.data);
                items.push(item);
                proof {
                    origin = origin.push(p as int);
                    assert(origin[origin.len() - 1] == p);
                    assert forall|q: int| 0 <= q < p + 1 && (#[trigger] slots[q]).used() implies origin.contains(
                        q,
                    ) by {
                        if q < p {
                            assert(before.contains(q));
                            let i = choose|i: int| 0 <= i < before.len() && before[i] == q;
                            assert(origin[i] == q);
                        }
                    }
                }
            }
            p += 1;
        }
        proof {
            assert(slots.take(slots.len() as int) =~= slots);
            lemma_walk_lists(items@, origin, slots, data, ds);
            assert(walked(items@, origin, slots, data, ds, slots.len() as int));
        }
        items
    }

    /// Calls `f` with each entry, in the order of the slots: every key of
    /// the table has been shown to `f` with its value and flags.
    pub fn each<F: Fn(Entry<'_>)>(&self, f: F)
        requires
            self.inv(),
            forall|e: Entry<'_>| call_requires(f, (e,)),
        ensures
            forall|k: Seq<u8>| #[trigger]
                self@.contains_key(k) ==> shown(f, k, self@[k], self.flags_view()[k]),
    {
        let entries = self.index.get_entries();
        let ghost slots = self.index.slots();
        let ghost data = self.data@;
        let ghost ds = self.data_start;
        let mut p: usize = 0;
        while p < entries.len()
            invariant
                p <= slots.len(),
                entries@ == slots,
                slots == self.index.slots(),
                data == self.data@,
                ds == self.data_start,
                self.inv(),
                forall|e: Entry<'_>| call_requires(f, (e,)),
                forall|q: int|
                    0 <= q < p && (#[trigger] slots[q]).used() ==> shown(
                        f,
                        key_of(slots[q], data, ds),
                        value_of(slots[q], data, ds),
                        slots[q].data.flags,
                    ),
            decreases slots.len() - p,
        {
            let e = entries[p];
            if e.is_used() {
                assert(holds(slots, slots[p as int]));
                let item = self.entry_from_index_data(e.data);
                let ghost given = item;
                f(item);
                assert(call_ensures(f, (given,), ()));
            }
            p += 1;
        }
        proof {
            assert forall|k: Seq<u8>| #[trigger] self@.contains_key(k) implies shown(
                f,
                k,
                self@[k],
                self.flags_view()[k],
            ) by {
                let e = crate::content::entry_for(slots, data, ds, k);
                assert(holds(slots, e) && key_of(e, data, ds) == k);
                lemma_entry_for(slots, data, ds, e);
                let q = choose|q: int| 0 <= q < slots.len() && slots[q] == e;
                assert(slots[q].used());
            }
        }
    }
}

/// A walk over all slots of a coherent table without duplicates lists what
/// the table holds.
pub proof fn lemma_walk_lists(
    items: Seq<Entry<'_>>,
    origin: Seq<int>,
    slots: Seq<IndexEntry>,
    data: Seq<u8>,
    ds: u64,
)
    requires
        walked(items, origin, slots, data, ds, slots.len() as int),
        coherent(slots, data, ds),
        crate::index::no_dup(slots),
    ensures
        lists(
            items,
            crate::content::values(slots, data, ds),
            crate::content::flags(slots, data, ds),
        ),
{
    let m = crate::content::values(slots, data, ds);
    assert forall|i: int| 0 <= i < items.len() implies m.contains_key(#[trigger] items[i].key@)
        && items[i].value@ == m[items[i].key@] && items[i].flags == crate::content::flags(
        slots,
        data,
        ds,
    )[items[i].key@] by {
        let e = slots[origin[i]];
        assert(holds(slots, e));
        lemma_entry_for(slots, data, ds, e);
    }
    assert forall|i: int, j: int| 0 <= i < j < items.len() implies #[trigger] items[i].key@
        != #[trigger] items[j].key@ by {
        assert(origin[i] < origin[j]);
        let e1 = slots[origin[i]];
        let e2 = slots[origin[j]];
        assert(holds(slots, e1) && holds(slots, e2));
    }
    assert forall|k: Seq<u8>| m.contains_key(k) implies exists|i: int|
        0 <= i < items.len() && #[trigger] items[i].key@ == k by {
        let e = crate::content::entry_for(slots, data, ds, k);
        assert(holds(slots, e) && key_of(e, data, ds) == k);
        let q = choose|q: int| 0 <= q < slots.len() && slots[q] == e;
        assert(slots[q].used());
        assert(origin.contains(q));
        let i = choose|i: int| 0 <= i < origin.len() && origin[i] == q;
        assert(items[i].key@ == k);
    }
}

} // verus!
