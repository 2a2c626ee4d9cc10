//! What a table holds, as a function of its slots and its data bytes.
//!
//! Everything here is specification: how keys and values are read from the
//! data region, when slots and bytes agree with each other and with the
//! allocator, and how the contents change when entries come and go.

use crate::index::{holds, no_dup, occupancy, Entry};
use crate::table::hash_of;
use crate::memmngr::{at_least_one, Used};
use vstd::prelude::*;

verus! {

/// The key bytes of entry `e` in a data region that starts at file position `ds`.
pub open spec fn key_of(e: Entry, data: Seq<u8>, ds: u64) -> Seq<u8> {
    data.subrange(e.data.position - ds, e.data.position - ds + e.data.key_size)
}

/// The value bytes of entry `e`.
pub open spec fn value_of(e: Entry, data: Seq<u8>, ds: u64) -> Seq<u8> {
    data.subrange(e.data.position - ds + e.data.key_size, e.data.position - ds + e.data.size)
}

/// The block that entry `e` occupies in the data region: its bytes, and one
/// byte if it has none.
pub open spec fn block_of(e: Entry) -> Used {
    Used { start: e.data.position, size: at_least_one(e.data.size), hash: e.hash }
}

/// The block of `e` lies in a data region of `len` bytes that starts at `ds`,
/// and the key is part of the entry.
pub open spec fn in_region(e: Entry, len: nat, ds: u64) -> bool {
    &&& ds <= e.data.position
    &&& e.data.position + at_least_one(e.data.size) <= ds + len
    &&& e.data.key_size <= e.data.size
}

/// Slots and bytes agree: every entry lies in the data region and is stored
/// under the hash of its key, and no key occurs twice.
pub open spec fn coherent(slots: Seq<Entry>, data: Seq<u8>, ds: u64) -> bool {
    &&& forall|e: Entry| #[trigger]
        holds(slots, e) ==> in_region(e, data.len(), ds) && e.hash == hash_of(key_of(e, data, ds))
    &&& forall|e1: Entry, e2: Entry|
        #[trigger] holds(slots, e1) && #[trigger] holds(slots, e2) && key_of(e1, data, ds)
            == key_of(e2, data, ds) ==> e1 == e2
}

/// Slots and allocator agree: the used blocks are exactly the blocks of the
/// entries, and no two entries share a position.
pub open spec fn allocated(slots: Seq<Entry>, used: Seq<Used>) -> bool {
    &&& forall|e: Entry| #[trigger] holds(slots, e) ==> used.contains(block_of(e))
    &&& forall|i: int| 0 <= i < used.len() ==> is_block(slots, #[trigger] used[i])
    &&& forall|e1: Entry, e2: Entry|
        #[trigger] holds(slots, e1) && #[trigger] holds(slots, e2) && e1.data.position
            == e2.data.position ==> e1 == e2
}

/// `u` is the block of an entry.
pub open spec fn is_block(slots: Seq<Entry>, u: Used) -> bool {
    exists|e: Entry| #[trigger] holds(slots, e) && block_of(e) == u
}

/// An entry has the key `k`.
pub open spec fn has_key(slots: Seq<Entry>, data: Seq<u8>, ds: u64, k: Seq<u8>) -> bool {
    exists|e: Entry| #[trigger] holds(slots, e) && key_of(e, data, ds) == k
}

/// The entry with the key `k`.
pub open spec fn entry_for(slots: Seq<Entry>, data: Seq<u8>, ds: u64, k: Seq<u8>) -> Entry {
    choose|e: Entry| #[trigger] holds(slots, e) && key_of(e, data, ds) == k
}

/// The values by key.
pub open spec fn values(slots: Seq<Entry>, data: Seq<u8>, ds: u64) -> Map<Seq<u8>, Seq<u8>> {
    Map::new(
        |k: Seq<u8>| has_key(slots, data, ds, k),
        |k: Seq<u8>| value_of(entry_for(slots, data, ds, k), data, ds),
    )
}

/// The flags by key.
pub open spec fn flags(slots: Seq<Entry>, data: Seq<u8>, ds: u64) -> Map<Seq<u8>, u16> {
    Map::new(
        |k: Seq<u8>| has_key(slots, data, ds, k),
        |k: Seq<u8>| entry_for(slots, data, ds, k).data.flags,
    )
}

/// `m` without what `out` is stored under and with what `inn` is stored under.
pub open spec fn updated<V>(
    m: Map<Seq<u8>, V>,
    out: Option<Seq<u8>>,
    inn: Option<(Seq<u8>, V)>,
) -> Map<Seq<u8>, V> {
    let base = match out {
        Some(k) => m.remove(k),
        None => m,
    };
    match inn {
        Some((k, v)) => base.insert(k, v),
        None => base,
    }
}

/// The entry of a coherent table that has a given key is the one its maps
/// speak of.
pub proof fn lemma_entry_for(slots: Seq<Entry>, data: Seq<u8>, ds: u64, e: Entry)
    requires
        coherent(slots, data, ds),
        holds(slots, e),
    ensures
        has_key(slots, data, ds, key_of(e, data, ds)),
        entry_for(slots, data, ds, key_of(e, data, ds)) == e,
        values(slots, data, ds).contains_key(key_of(e, data, ds)),
        values(slots, data, ds)[key_of(e, data, ds)] == value_of(e, data, ds),
        flags(slots, data, ds).contains_key(key_of(e, data, ds)),
        flags(slots, data, ds)[key_of(e, data, ds)] == e.data.flags,
{
    let k = key_of(e, data, ds);
    let x = entry_for(slots, data, ds, k);
    assert(holds(slots, x) && key_of(x, data, ds) == k);
}

/// How the contents change when the entry `out` leaves, the entry `inn`
/// comes, and every other entry keeps its bytes, whatever else changes in the
/// data region and wherever it starts.
pub proof fn lemma_content_update(
    slots: Seq<Entry>,
    data: Seq<u8>,
    ds: u64,
    slots2: Seq<Entry>,
    data2: Seq<u8>,
    ds2: u64,
    out: Option<Entry>,
    inn: Option<Entry>,
)
    requires
        coherent(slots, data, ds),
        out matches Some(o) ==> holds(slots, o),
        forall|x: Entry| #[trigger]
            holds(slots2, x) <==> (holds(slots, x) && out != Some(x)) || inn == Some(x),
        forall|x: Entry| #[trigger]
            holds(slots, x) && out != Some(x) ==> key_of(x, data2, ds2) == key_of(x, data, ds)
                && value_of(x, data2, ds2) == value_of(x, data, ds) && in_region(
                x,
                data2.len(),
                ds2,
            ),
        inn matches Some(n) ==> n.used() && in_region(n, data2.len(), ds2) && n.hash == hash_of(
            key_of(n, data2, ds2),
        ) && forall|x: Entry| #[trigger]
            holds(slots, x) && out != Some(x) ==> key_of(x, data, ds) != key_of(n, data2, ds2),
    ensures
        coherent(slots2, data2, ds2),
        values(slots2, data2, ds2) == updated(
            values(slots, data, ds),
            match out {
                Some(o) => Some(key_of(o, data, ds)),
                None => None,
            },
            match inn {
                Some(n) => Some((key_of(n, data2, ds2), value_of(n, data2, ds2))),
                None => None,
            },
        ),
        flags(slots2, data2, ds2) == updated(
            flags(slots, data, ds),
            match out {
                Some(o) => Some(key_of(o, data, ds)),
                None => None,
            },
            match inn {
                Some(n) => Some((key_of(n, data2, ds2), n.data.flags)),
                None => None,
            },
        ),
{
    assert forall|e: Entry| #[trigger] holds(slots2, e) implies in_region(e, data2.len(), ds2)
        && e.hash == hash_of(key_of(e, data2, ds2)) by {
        if holds(slots, e) && out != Some(e) {
        }
    }
    assert forall|e1: Entry, e2: Entry|
        #[trigger] holds(slots2, e1) && #[trigger] holds(slots2, e2) && key_of(e1, data2, ds2)
            == key_of(e2, data2, ds2) implies e1 == e2 by {
        let a = holds(slots, e1) && out != Some(e1);
        let b = holds(slots, e2) && out != Some(e2);
        if a && b {
        }
    }
    assert(coherent(slots2, data2, ds2));
    let v1 = values(slots, data, ds);
    let f1 = flags(slots, data, ds);
    let v2 = values(slots2, data2, ds2);
    let f2 = flags(slots2, data2, ds2);
    let out_key = match out {
        Some(o) => Some(key_of(o, data, ds)),
        None => None,
    };
    let ev = updated(
        v1,
        out_key,
        match inn {
            Some(n) => Some((key_of(n, data2, ds2), value_of(n, data2, ds2))),
            None => None,
        },
    );
    let ef = updated(
        f1,
        out_key,
        match inn {
            Some(n) => Some((key_of(n, data2, ds2), n.data.flags)),
            None => None,
        },
    );
    assert forall|k: Seq<u8>| #[trigger]
        v2.contains_key(k) == ev.contains_key(k) && (v2.contains_key(k) ==> v2[k] == ev[k] && f2[k]
            == ef[k]) by {
        if has_key(slots2, data2, ds2, k) {
            let y = entry_for(slots2, data2, ds2, k);
            assert(holds(slots2, y) && key_of(y, data2, ds2) == k);
            if inn == Some(y) {
            } else {
                assert(holds(slots, y) && out != Some(y));
                lemma_entry_for(slots, data, ds, y);
                if out is Some && key_of(out->0, data, ds) == k {
                    assert(y == out->0);
                }
            }
        }
        if ev.contains_key(k) {
            if inn is Some && key_of(inn->0, data2, ds2) == k {
                assert(holds(slots2, inn->0));
            } else {
                assert(v1.contains_key(k));
                let z = entry_for(slots, data, ds, k);
                assert(holds(slots, z) && key_of(z, data, ds) == k);
                assert(out != Some(z));
                assert(holds(slots2, z));
            }
        }
    }
    assert(v2 =~= ev);
    assert(f2 =~= ef);
}

/// How the agreement with the allocator is kept when the entry `out` leaves
/// with its block and the entry `inn` comes with its block.
pub proof fn lemma_allocated_update(
    slots: Seq<Entry>,
    used: Seq<Used>,
    slots2: Seq<Entry>,
    used2: Seq<Used>,
    out: Option<Entry>,
    inn: Option<Entry>,
)
    requires
        allocated(slots, used),
        out matches Some(o) ==> holds(slots, o),
        forall|x: Entry| #[trigger]
            holds(slots2, x) <==> (holds(slots, x) && out != Some(x)) || inn == Some(x),
        forall|u: Used| #[trigger]
            used2.contains(u) <==> (used.contains(u) && (out matches Some(o) ==> u != block_of(o)))
                || (inn matches Some(n) && u == block_of(n)),
        inn matches Some(n) ==> n.used() && forall|x: Entry| #[trigger]
            holds(slots, x) && out != Some(x) ==> x.data.position != n.data.position,
    ensures
        allocated(slots2, used2),
{
    assert forall|e: Entry| #[trigger] holds(slots2, e) implies used2.contains(block_of(e)) by {
        if holds(slots, e) && out != Some(e) {
            assert(used.contains(block_of(e)));
        }
    }
    assert forall|i: int| 0 <= i < used2.len() implies is_block(slots2, #[trigger] used2[i]) by {
        let u = used2[i];
        assert(used2.contains(u));
        if inn matches Some(n) && u == block_of(n) {
            assert(holds(slots2, inn->0));
        } else {
            let j = choose|j: int| 0 <= j < used.len() && used[j] == u;
            assert(is_block(slots, used[j]));
            let e = choose|e: Entry| #[trigger] holds(slots, e) && block_of(e) == u;
            assert(holds(slots2, e));
        }
    }
}


/// A table holds as many keys as its index has entries.
pub proof fn lemma_count_keys(slots: Seq<Entry>, data: Seq<u8>, ds: u64)
    requires
        coherent(slots, data, ds),
        no_dup(slots),
    ensures
        values(slots, data, ds).dom().finite(),
        values(slots, data, ds).dom().len() == occupancy(slots),
    decreases slots.len(),
{
    if slots.len() == 0 {
        assert(values(slots, data, ds).dom() =~= Set::<Seq<u8>>::empty()) by {
            assert forall|k: Seq<u8>| !has_key(slots, data, ds, k) by {
                if has_key(slots, data, ds, k) {
                    let e = choose|e: Entry| #[trigger] holds(slots, e) && key_of(e, data, ds) == k;
                    let i = choose|i: int| 0 <= i < slots.len() && slots[i] == e;
                }
            }
        }
    } else {
        let d = slots.drop_last();
        let e = slots.last();
        let n = slots.len() - 1;
        assert forall|x: Entry| #[trigger] holds(d, x) implies holds(slots, x) by {
            let i = choose|i: int| 0 <= i < d.len() && d[i] == x;
            assert(slots[i] == x);
        }
        assert forall|x: Entry| holds(slots, x) implies #[trigger] holds(d, x) || x == e by {
            let i = choose|i: int| 0 <= i < slots.len() && slots[i] == x;
            if i < n {
                assert(d[i] == x);
            }
        }
        assert(coherent(d, data, ds));
        assert(no_dup(d)) by {
            assert forall|p: int, q: int|
                0 <= p < d.len() && 0 <= q < d.len() && p != q && (#[trigger] d[p]).used() && (
                #[trigger] d[q]).used() implies d[p] != d[q] by {
                assert(slots[p].used() && slots[q].used());
            }
        }
        lemma_count_keys(d, data, ds);
        if e.used() {
            assert(holds(slots, e)) by {
                assert(slots[n] == e);
            }
            if holds(d, e) {
                let i = choose|i: int| 0 <= i < d.len() && d[i] == e;
                assert(slots[i].used() && slots[n].used());
            }
            assert forall|x: Entry| #[trigger]
                holds(slots, x) <==> (holds(d, x) && None::<Entry> != Some(x)) || Some(e) == Some(x) by {}
            lemma_content_update(d, data, ds, slots, data, ds, None, Some(e));
            let k = key_of(e, data, ds);
            if has_key(d, data, ds, k) {
                let x = choose|x: Entry| #[trigger] holds(d, x) && key_of(x, data, ds) == k;
                assert(holds(slots, x));
            }
            assert(values(slots, data, ds).dom() =~= values(d, data, ds).dom().insert(k));
        } else {
            assert forall|x: Entry| #[trigger]
                holds(slots, x) <==> (holds(d, x) && None::<Entry> != Some(x)) || None::<Entry>
                    == Some(x) by {}
            lemma_content_update(d, data, ds, slots, data, ds, None, None);
        }
    }
}

} // verus!
