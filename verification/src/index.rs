//! Open-addressed Robin Hood hash index over fixed-size slots.
//!
//! The capacity is a power of two. A key with hash `h` has its ideal slot at
//! `h & (capacity - 1)` and is found by probing forward from there. A slot
//! with hash zero is empty.

use crate::header::{swap_u16, swap_u32, swap_u64};
use vstd::prelude::*;

verus! {

/// The 64-bit hash of a key. Zero marks an empty slot.
pub type Hash = u64;

/// What a slot records about an entry besides its hash.
#[derive(Clone, Copy, Debug, PartialEq, Eq, Structural)]
pub struct EntryData {
    /// Absolute position of the entry's bytes in the file.
    pub position: u64,
    /// Length of key and value together.
    pub size: u32,
    /// Length of the key.
    pub key_size: u16,
    /// Bits that belong to the caller.
    pub flags: u16,
}

/// One slot of the index.
#[derive(Clone, Copy, Debug, PartialEq, Eq, Structural)]
pub struct Entry {
    pub hash: Hash,
    pub data: EntryData,
}

impl Entry {
    pub open spec fn used(&self) -> bool {
        self.hash != 0
    }

    /// Whether the slot holds an entry.
    #[verifier::when_used_as_spec(used)]
    pub fn is_used(&self) -> (r: bool)
        ensures
            r == self.used(),
    {
        self.hash != 0
    }

    /// Empties the slot.
    pub fn clear(&mut self)
        ensures
            final(self).hash == 0,
            final(self).data == old(self).data,
    {
        self.hash = 0
    }

    /// Turns the byte order of every number of the slot round.
    pub fn fix_endianness(&mut self)
        ensures
            final(self).hash == swap_u64(old(self).hash),
            final(self).data.position == swap_u64(old(self).data.position),
            final(self).data.size == swap_u32(old(self).data.size),
            final(self).data.key_size == swap_u16(old(self).data.key_size),
            final(self).data.flags == swap_u16(old(self).data.flags),
    {
        self.hash = swap64(self.hash);
        self.data.position = swap64(self.data.position);
        let x = self.data.size;
        self.data.size = ((x & 0xff) << 24) | ((x & 0xff00) << 8) | ((x >> 8) & 0xff00) | (x >> 24);
        self.data.key_size = swap16(self.data.key_size);
        self.data.flags = swap16(self.data.flags);
    }
}

fn swap16(x: u16) -> (r: u16)
    ensures
        r == swap_u16(x),
{
    ((x & 0xff) << 8) | (x >> 8)
}

fn swap64(x: u64) -> (r: u64)
    ensures
        r == swap_u64(x),
{
    ((x & 0xff) << 56) | ((x & 0xff00) << 40) | ((x & 0xff_0000) << 24) | ((x & 0xff00_0000) << 8)
        | ((x >> 8) & 0xff00_0000) | ((x >> 24) & 0xff_0000) | ((x >> 40) & 0xff00) | (x >> 56)
}

/// Where a probe for a key ended.
#[derive(Clone, Copy, Debug, PartialEq, Eq, Structural)]
pub enum LocateResult {
    /// The key is in this slot.
    Found(usize),
    /// The probe met this empty slot.
    Hole(usize),
    /// The probe met, in this slot, an entry that is closer to its ideal slot
    /// than the key would be.
    Steal(usize),
}

/// The slot where probing for `hash` starts.
pub open spec fn ideal(hash: Hash, mask: u64) -> int {
    (hash & mask) as int
}

/// Number of steps from slot `a` forward to slot `b` in a ring of `n` slots.
pub open spec fn ring_dist(a: int, b: int, n: int) -> int {
    if b >= a {
        b - a
    } else {
        b - a + n
    }
}

pub open spec fn next_slot(p: int, n: int) -> int {
    if p + 1 == n {
        0
    } else {
        p + 1
    }
}

pub open spec fn prev_slot(p: int, n: int) -> int {
    if p == 0 {
        n - 1
    } else {
        p - 1
    }
}

/// Displacement of the entry in slot `p`: how far it lies from its ideal slot.
pub open spec fn displacement(s: Seq<Entry>, mask: u64, p: int) -> int {
    ring_dist(ideal(s[p].hash, mask), p, mask + 1)
}

/// The first `m` slots on the probe path from slot `a` are occupied, each by
/// an entry that is at least as far from its ideal slot as the probe is from `a`.
pub open spec fn path_clear(s: Seq<Entry>, mask: u64, a: int, m: int) -> bool {
    forall|q: int|
        0 <= q < s.len() && ring_dist(a, q, mask + 1) < m ==> (#[trigger] s[q]).used()
            && displacement(s, mask, q) >= ring_dist(a, q, mask + 1)
}

/// The probe-distance invariant: every entry can be reached from its ideal
/// slot without meeting a hole or an entry that would yield to it.
pub open spec fn robin_hood(s: Seq<Entry>, mask: u64) -> bool {
    forall|p: int|
        0 <= p < s.len() && (#[trigger] s[p]).used() ==> path_clear(
            s,
            mask,
            ideal(s[p].hash, mask),
            displacement(s, mask, p),
        )
}

/// No two occupied slots hold the same entry.
pub open spec fn no_dup(s: Seq<Entry>) -> bool {
    forall|p: int, q: int|
        0 <= p < s.len() && 0 <= q < s.len() && p != q && (#[trigger] s[p]).used() && (
        #[trigger] s[q]).used() ==> s[p] != s[q]
}

/// `e` is an entry of the index.
pub open spec fn holds(s: Seq<Entry>, e: Entry) -> bool {
    e.used() && s.contains(e)
}

/// Number of occupied slots.
pub open spec fn occupancy(s: Seq<Entry>) -> nat
    decreases s.len(),
{
    if s.len() == 0 {
        0
    } else {
        occupancy(s.drop_last()) + if s.last().used() {
            1nat
        } else {
            0nat
        }
    }
}

/// The caller's match function turns the entry down, or the hash differs.
pub open spec fn passes<F: Fn(&EntryData) -> bool>(e: Entry, hash: Hash, f: F) -> bool {
    e.hash != hash || call_ensures(f, (&e.data,), false)
}

/// The hash is the same and the caller's match function accepts the entry.
pub open spec fn hits<F: Fn(&EntryData) -> bool>(e: Entry, hash: Hash, f: F) -> bool {
    e.hash == hash && call_ensures(f, (&e.data,), true)
}

/// The first `m` steps of the probe for `hash` went on: each slot was
/// occupied by an entry that does not yield and is not the one looked for.
pub open spec fn probed<F: Fn(&EntryData) -> bool>(
    s: Seq<Entry>,
    mask: u64,
    hash: Hash,
    f: F,
    m: int,
) -> bool {
    &&& path_clear(s, mask, ideal(hash, mask), m)
    &&& forall|q: int|
        0 <= q < s.len() && ring_dist(ideal(hash, mask), q, mask + 1) < m ==> passes(
            #[trigger] s[q],
            hash,
            f,
        )
}

/// `r` is where the probe for `hash` with match function `f` ends.
pub open spec fn located<F: Fn(&EntryData) -> bool>(
    s: Seq<Entry>,
    mask: u64,
    hash: Hash,
    f: F,
    r: LocateResult,
) -> bool {
    let a = ideal(hash, mask);
    let n = mask + 1;
    match r {
        LocateResult::Found(p) => {
            &&& p < s.len()
            &&& probed(s, mask, hash, f, ring_dist(a, p as int, n))
            &&& s[p as int].used()
            &&& hits(s[p as int], hash, f)
        },
        LocateResult::Hole(p) => {
            &&& p < s.len()
            &&& probed(s, mask, hash, f, ring_dist(a, p as int, n))
            &&& !s[p as int].used()
        },
        LocateResult::Steal(p) => {
            &&& p < s.len()
            &&& s[p as int].used()
            &&& passes(s[p as int], hash, f)
            &&& {
                ||| (probed(s, mask, hash, f, ring_dist(a, p as int, n)) && displacement(
                    s,
                    mask,
                    p as int,
                ) < ring_dist(a, p as int, n))
                ||| (p == a && probed(s, mask, hash, f, n))
            }
        },
    }
}

pub proof fn lemma_mask_bound(h: u64, m: u64)
    ensures
        h & m <= m,
{
    assert(h & m <= m) by (bit_vector);
}

pub proof fn lemma_mask_next(p: u64, m: u64)
    requires
        m < u64::MAX,
        m & ((m + 1) as u64) == 0,
        p <= m,
    ensures
        ((p + 1) as u64) & m == next_slot(p as int, m + 1),
{
    assert(m < 0xffff_ffff_ffff_ffffu64 && m & ((m + 1) as u64) == 0 && p <= m ==> ((p + 1) as u64)
        & m == (if p == m {
        0
    } else {
        (p + 1) as u64
    })) by (bit_vector);
}

pub proof fn lemma_mask_dist(p: u64, i: u64, m: u64)
    requires
        m < 0x7fff_ffff_ffff_ffff,
        m & ((m + 1) as u64) == 0,
        p <= m,
        i <= m,
    ensures
        ((p + m + 1 - i) as u64) & m == ring_dist(i as int, p as int, m + 1),
{
    assert(m < 0x7fff_ffff_ffff_ffffu64 && m & ((m + 1) as u64) == 0 && p <= m && i <= m ==> ((p
        + m + 1 - i) as u64) & m == (if p >= i {
        (p - i) as u64
    } else {
        (p + m + 1 - i) as u64
    })) by (bit_vector);
}

pub proof fn lemma_occupancy_bound(s: Seq<Entry>)
    ensures
        occupancy(s) <= s.len(),
    decreases s.len(),
{
    if s.len() > 0 {
        lemma_occupancy_bound(s.drop_last());
    }
}

pub proof fn lemma_occupancy_update(s: Seq<Entry>, i: int, e: Entry)
    requires
        0 <= i < s.len(),
    ensures
        occupancy(s.update(i, e)) + (if s[i].used() {
            1nat
        } else {
            0nat
        }) == occupancy(s) + (if e.used() {
            1nat
        } else {
            0nat
        }),
    decreases s.len(),
{
    let t = s.update(i, e);
    if i == s.len() - 1 {
        assert(t.drop_last() =~= s.drop_last());
    } else {
        assert(t.drop_last() =~= s.drop_last().update(i, e));
        lemma_occupancy_update(s.drop_last(), i, e);
    }
}

/// A sequence with fewer entries than slots has an empty slot.
pub proof fn lemma_has_hole(s: Seq<Entry>) -> (h: int)
    requires
        occupancy(s) < s.len(),
    ensures
        0 <= h < s.len(),
        !s[h].used(),
    decreases s.len(),
{
    if !s.last().used() {
        s.len() - 1
    } else {
        lemma_has_hole(s.drop_last())
    }
}

pub proof fn lemma_occupancy_empty(s: Seq<Entry>)
    requires
        forall|i: int| 0 <= i < s.len() ==> !(#[trigger] s[i]).used(),
    ensures
        occupancy(s) == 0,
    decreases s.len(),
{
    if s.len() > 0 {
        lemma_occupancy_empty(s.drop_last());
    }
}

/// `s2` is `s` with the entry `e` added.
pub open spec fn inserted(s: Seq<Entry>, s2: Seq<Entry>, e: Entry) -> bool {
    &&& s2.len() == s.len()
    &&& forall|x: Entry| #[trigger] holds(s2, x) <==> holds(s, x) || x == e
    &&& no_dup(s2) <==> no_dup(s) && !holds(s, e)
}

/// `s2` is `s` with one entry `e` taken out.
pub open spec fn removed(s: Seq<Entry>, s2: Seq<Entry>, e: Entry) -> bool {
    &&& s2.len() == s.len()
    &&& forall|x: Entry| x != e ==> (#[trigger] holds(s2, x) <==> holds(s, x))
    &&& holds(s2, e) ==> holds(s, e)
    &&& no_dup(s) ==> no_dup(s2) && !holds(s2, e)
}

/// What `index_set` does: where the probe ends decides whether an entry is
/// replaced, which is then returned, or added.
pub open spec fn set_outcome<F: Fn(&EntryData) -> bool>(
    s: Seq<Entry>,
    s2: Seq<Entry>,
    mask: u64,
    hash: Hash,
    f: F,
    data: EntryData,
    r: Option<EntryData>,
) -> bool {
    exists|lr: LocateResult| #[trigger]
        located(s, mask, hash, f, lr) && match lr {
            LocateResult::Found(p) => r == Some(s[p as int].data) && s2 == s.update(
                p as int,
                Entry { hash, data },
            ),
            _ => r is None && inserted(s, s2, Entry { hash, data }),
        }
}

/// What `index_delete` does: the entry that the probe finds is taken out
/// and returned.
pub open spec fn delete_outcome<F: Fn(&EntryData) -> bool>(
    s: Seq<Entry>,
    s2: Seq<Entry>,
    mask: u64,
    hash: Hash,
    f: F,
    r: Option<EntryData>,
) -> bool {
    exists|lr: LocateResult| #[trigger]
        located(s, mask, hash, f, lr) && match lr {
            LocateResult::Found(p) => r == Some(s[p as int].data) && removed(s, s2, s[p as int]),
            _ => r is None && s2 == s,
        }
}

/// `s2` is `s` after `e` went into slot `p` and the `m` entries from there on
/// each moved one slot on, the last of them into a hole.
pub open spec fn shifted_in(s: Seq<Entry>, s2: Seq<Entry>, n: int, p: int, m: int, e: Entry) -> bool {
    &&& s.len() == n
    &&& s2.len() == n
    &&& 0 <= p < n
    &&& 1 <= m < n
    &&& forall|q: int| 0 <= q < n && ring_dist(p, q, n) < m ==> (#[trigger] s[q]).used()
    &&& forall|q: int| 0 <= q < n && ring_dist(p, q, n) == m ==> !(#[trigger] s[q]).used()
    &&& forall|q: int|
        0 <= q < n ==> #[trigger] s2[q] == (if ring_dist(p, q, n) == 0 {
            e
        } else if ring_dist(p, q, n) <= m {
            s[prev_slot(q, n)]
        } else {
            s[q]
        })
}

/// `s2` is `s` after the entry in slot `p` went away and the `m` entries
/// behind it each moved one slot back.
pub open spec fn shifted_out(s: Seq<Entry>, s2: Seq<Entry>, mask: u64, p: int, m: int) -> bool {
    let n = mask + 1;
    &&& s.len() == n
    &&& s2.len() == n
    &&& 0 <= p < n
    &&& 0 <= m < n - 1
    &&& s[p].used()
    &&& forall|q: int|
        0 <= q < n && 1 <= ring_dist(p, q, n) <= m ==> (#[trigger] s[q]).used() && displacement(
            s,
            mask,
            q,
        ) >= 1
    &&& forall|q: int|
        0 <= q < n && ring_dist(p, q, n) == m + 1 ==> !(#[trigger] s[q]).used() || displacement(
            s,
            mask,
            q,
        ) == 0
    &&& forall|q: int|
        0 <= q < n ==> if ring_dist(p, q, n) < m {
            #[trigger] s2[q] == s[next_slot(q, n)]
        } else if ring_dist(p, q, n) == m {
            !s2[q].used()
        } else {
            s2[q] == s[q]
        }
}

pub proof fn lemma_ideal_bound(s: Seq<Entry>, mask: u64)
    ensures
        forall|q: int| 0 <= ideal(#[trigger] s[q].hash, mask) <= mask,
{
    assert forall|q: int| 0 <= ideal(#[trigger] s[q].hash, mask) <= mask by {
        lemma_mask_bound(s[q].hash, mask);
    }
}

/// Replacing the data of an entry keeps the probe-distance invariant.
pub proof fn lemma_replace_robin_hood(s: Seq<Entry>, mask: u64, p: int, e: Entry)
    requires
        0 <= p < s.len(),
        robin_hood(s, mask),
        s[p].hash == e.hash,
    ensures
        robin_hood(s.update(p, e), mask),
{
    let s2 = s.update(p, e);
    assert forall|q: int| 0 <= q < s.len() implies displacement(s2, mask, q) == displacement(
        s,
        mask,
        q,
    ) && (#[trigger] s2[q]).used() == s[q].used() by {}
    assert forall|t: int| 0 <= t < s2.len() && (#[trigger] s2[t]).used() implies path_clear(
        s2,
        mask,
        ideal(s2[t].hash, mask),
        displacement(s2, mask, t),
    ) by {
        assert(s[t].used());
        let a = ideal(s[t].hash, mask);
        assert(path_clear(s, mask, a, displacement(s, mask, t)));
        assert forall|q: int|
            0 <= q < s2.len() && ring_dist(a, q, mask + 1) < displacement(
                s2,
                mask,
                t,
            ) implies (#[trigger] s2[q]).used() && displacement(s2, mask, q) >= ring_dist(
            a,
            q,
            mask + 1,
        ) by {
            assert(s[q].used());
        }
    }
}

/// Putting an entry into the hole where its probe ended keeps the
/// probe-distance invariant.
pub proof fn lemma_fill_robin_hood(s: Seq<Entry>, mask: u64, p: int, e: Entry)
    requires
        s.len() == mask + 1,
        0 <= p < s.len(),
        robin_hood(s, mask),
        !s[p].used(),
        e.used(),
        path_clear(s, mask, ideal(e.hash, mask), ring_dist(ideal(e.hash, mask), p, mask + 1)),
    ensures
        robin_hood(s.update(p, e), mask),
{
    let s2 = s.update(p, e);
    let n = mask + 1;
    lemma_ideal_bound(s, mask);
    lemma_mask_bound(e.hash, mask);
    assert forall|t: int| 0 <= t < s2.len() && (#[trigger] s2[t]).used() implies path_clear(
        s2,
        mask,
        ideal(s2[t].hash, mask),
        displacement(s2, mask, t),
    ) by {
        let a = ideal(s2[t].hash, mask);
        let k = displacement(s2, mask, t);
        if t != p {
            assert(s[t].used());
            assert(path_clear(s, mask, a, displacement(s, mask, t)));
        }
        assert forall|q: int| 0 <= q < s2.len() && ring_dist(a, q, n) < k implies (
        #[trigger] s2[q]).used() && displacement(s2, mask, q) >= ring_dist(a, q, n) by {
            assert(s[q].used());
        }
    }
}

/// Stealing a slot and moving the entries behind it one slot on keeps the
/// probe-distance invariant.
#[verifier::rlimit(50)]
pub proof fn lemma_shift_in_robin_hood(
    s: Seq<Entry>,
    s2: Seq<Entry>,
    mask: u64,
    p: int,
    m: int,
    e: Entry,
)
    requires
        robin_hood(s, mask),
        shifted_in(s, s2, mask + 1, p, m, e),
        e.used(),
        path_clear(s, mask, ideal(e.hash, mask), ring_dist(ideal(e.hash, mask), p, mask + 1)),
        displacement(s, mask, p) < ring_dist(ideal(e.hash, mask), p, mask + 1),
    ensures
        robin_hood(s2, mask),
{
    let n = mask + 1;
    lemma_ideal_bound(s, mask);
    lemma_ideal_bound(s2, mask);
    lemma_mask_bound(e.hash, mask);
    let h = if p + m < n {
        p + m
    } else {
        p + m - n
    };
    assert(ring_dist(p, h, n) == m);
    assert(!s[h].used());
    // An entry that moves one slot on lies one step farther from its ideal slot.
    assert forall|q: int| 0 <= q < n && 1 <= ring_dist(p, q, n) <= m implies s[prev_slot(
        q,
        n,
    )].used() && #[trigger] displacement(s2, mask, q) == displacement(s, mask, prev_slot(q, n))
        + 1 by {
        let o = prev_slot(q, n);
        assert(ring_dist(p, o, n) < m);
        assert(s[o].used());
        assert(s2[q] == s[o]);
        if displacement(s, mask, o) == n - 1 {
            assert(path_clear(s, mask, ideal(s[o].hash, mask), n - 1));
            assert(ring_dist(ideal(s[o].hash, mask), h, n) < n - 1);
            assert(s[h].used());
        }
    }
    assert forall|t: int| 0 <= t < s2.len() && (#[trigger] s2[t]).used() implies path_clear(
        s2,
        mask,
        ideal(s2[t].hash, mask),
        displacement(s2, mask, t),
    ) by {
        let a = ideal(s2[t].hash, mask);
        let k = displacement(s2, mask, t);
        assert forall|q: int| 0 <= q < s2.len() && ring_dist(a, q, n) < k implies (
        #[trigger] s2[q]).used() && displacement(s2, mask, q) >= ring_dist(a, q, n) by {
            let d = ring_dist(a, q, n);
            let pq = prev_slot(q, n);
            // What held of the slot, and of the one before it, on the old path.
            if ring_dist(p, t, n) == 0 {
                assert(s[q].used() && displacement(s, mask, q) >= d);
                if d >= 1 {
                    assert(ring_dist(a, pq, n) == d - 1);
                    assert(s[pq].used() && displacement(s, mask, pq) >= d - 1);
                }
            } else if ring_dist(p, t, n) <= m {
                let o = prev_slot(t, n);
                assert(s2[t] == s[o]);
                assert(s[o].used());
                assert(displacement(s2, mask, t) == displacement(s, mask, o) + 1);
                assert(path_clear(s, mask, a, displacement(s, mask, o)));
                if d == displacement(s, mask, o) {
                    assert(q == o);
                }
                assert(s[q].used() && displacement(s, mask, q) >= d);
                if d >= 1 {
                    assert(ring_dist(a, pq, n) == d - 1);
                    assert(s[pq].used() && displacement(s, mask, pq) >= d - 1);
                }
            } else {
                assert(s2[t] == s[t]);
                assert(path_clear(s, mask, a, displacement(s, mask, t)));
                assert(s[q].used() && displacement(s, mask, q) >= d);
                if d >= 1 {
                    assert(ring_dist(a, pq, n) == d - 1);
                    assert(s[pq].used() && displacement(s, mask, pq) >= d - 1);
                }
            }
            // What holds of the slot now.
            if ring_dist(p, q, n) == 0 {
                assert(s2[q] == e);
            } else if ring_dist(p, q, n) <= m {
                assert(s2[q] == s[pq]);
                assert(displacement(s2, mask, q) == displacement(s, mask, pq) + 1);
            } else {
                assert(s2[q] == s[q]);
            }
        }
    }
}

/// Moving entries one slot on adds the new entry to the entries and nothing else.
pub proof fn lemma_shift_in_inserted(s: Seq<Entry>, s2: Seq<Entry>, n: int, p: int, m: int, e: Entry)
    requires
        shifted_in(s, s2, n, p, m, e),
        e.used(),
    ensures
        inserted(s, s2, e),
{
    assert forall|x: Entry| #[trigger] holds(s2, x) <==> holds(s, x) || x == e by {
        if holds(s2, x) {
            let q = choose|q: int| 0 <= q < s2.len() && s2[q] == x;
            if ring_dist(p, q, n) == 0 {
            } else if ring_dist(p, q, n) <= m {
                assert(s[prev_slot(q, n)] == x);
            } else {
                assert(s[q] == x);
            }
        }
        if x == e {
            assert(s2[p] == e);
        }
        if holds(s, x) {
            let i = choose|i: int| 0 <= i < s.len() && s[i] == x;
            if ring_dist(p, i, n) < m {
                let q = next_slot(i, n);
                assert(prev_slot(q, n) == i);
                assert(1 <= ring_dist(p, q, n) <= m);
                assert(s2[q] == x);
            } else {
                assert(ring_dist(p, i, n) > m);
                assert(s2[i] == x);
            }
        }
    }
    if no_dup(s) && !holds(s, e) {
        assert forall|t1: int, t2: int|
            0 <= t1 < s2.len() && 0 <= t2 < s2.len() && t1 != t2 && (#[trigger] s2[t1]).used() && (
            #[trigger] s2[t2]).used() implies s2[t1] != s2[t2] by {
            let o1 = if ring_dist(p, t1, n) == 0 {
                -1
            } else if ring_dist(p, t1, n) <= m {
                prev_slot(t1, n)
            } else {
                t1
            };
            let o2 = if ring_dist(p, t2, n) == 0 {
                -1
            } else if ring_dist(p, t2, n) <= m {
                prev_slot(t2, n)
            } else {
                t2
            };
            if o1 >= 0 {
                assert(s2[t1] == s[o1]);
                assert(holds(s, s[o1]));
            }
            if o2 >= 0 {
                assert(s2[t2] == s[o2]);
                assert(holds(s, s[o2]));
            }
            if o1 >= 0 && o2 >= 0 {
                assert(o1 != o2);
            }
        }
    }
    if no_dup(s2) {
        assert(s2[p] == e);
        assert forall|a: int, b: int|
            0 <= a < s.len() && 0 <= b < s.len() && a != b && (#[trigger] s[a]).used() && (
            #[trigger] s[b]).used() implies s[a] != s[b] by {
            assert(ring_dist(p, a, n) != m && ring_dist(p, b, n) != m);
            let a2 = if ring_dist(p, a, n) < m {
                next_slot(a, n)
            } else {
                a
            };
            let b2 = if ring_dist(p, b, n) < m {
                next_slot(b, n)
            } else {
                b
            };
            assert(prev_slot(next_slot(a, n), n) == a);
            assert(prev_slot(next_slot(b, n), n) == b);
            assert(s2[a2] == s[a]);
            assert(s2[b2] == s[b]);
            assert(a2 != b2);
            assert(s2[a2].used() && s2[b2].used());
        }
        if holds(s, e) {
            let i = choose|i: int| 0 <= i < s.len() && s[i] == e;
            assert(ring_dist(p, i, n) != m);
            let i2 = if ring_dist(p, i, n) < m {
                next_slot(i, n)
            } else {
                i
            };
            assert(prev_slot(next_slot(i, n), n) == i);
            assert(s2[i2] == e);
            assert(i2 != p);
            assert(s2[i2].used() && s2[p].used());
        }
    }
}

/// Writing into an empty slot adds the entry to the entries and nothing else.
pub proof fn lemma_fill_inserted(s: Seq<Entry>, p: int, e: Entry)
    requires
        0 <= p < s.len(),
        !s[p].used(),
        e.used(),
    ensures
        inserted(s, s.update(p, e), e),
{
    let s2 = s.update(p, e);
    assert forall|x: Entry| #[trigger] holds(s2, x) <==> holds(s, x) || x == e by {
        if holds(s2, x) {
            let q = choose|q: int| 0 <= q < s2.len() && s2[q] == x;
            if q != p {
                assert(s[q] == x);
            }
        }
        if x == e {
            assert(s2[p] == e);
        }
        if holds(s, x) {
            let i = choose|i: int| 0 <= i < s.len() && s[i] == x;
            assert(s2[i] == x);
        }
    }
    if no_dup(s) && !holds(s, e) {
        assert forall|t1: int, t2: int|
            0 <= t1 < s2.len() && 0 <= t2 < s2.len() && t1 != t2 && (#[trigger] s2[t1]).used() && (
            #[trigger] s2[t2]).used() implies s2[t1] != s2[t2] by {
            if t1 != p {
                assert(s2[t1] == s[t1]);
                assert(holds(s, s[t1]));
            }
            if t2 != p {
                assert(s2[t2] == s[t2]);
                assert(holds(s, s[t2]));
            }
        }
    }
    if no_dup(s2) {
        assert(s2[p] == e);
        assert forall|a: int, b: int|
            0 <= a < s.len() && 0 <= b < s.len() && a != b && (#[trigger] s[a]).used() && (
            #[trigger] s[b]).used() implies s[a] != s[b] by {
            assert(s2[a] == s[a] && s2[b] == s[b]);
            assert(s2[a].used() && s2[b].used());
        }
        if holds(s, e) {
            let i = choose|i: int| 0 <= i < s.len() && s[i] == e;
            assert(s2[i] == e && i != p);
            assert(s2[i].used() && s2[p].used());
        }
    }
}

/// Taking an entry out and moving the displaced entries behind it one slot
/// back keeps the probe-distance invariant.
pub proof fn lemma_shift_out_robin_hood(s: Seq<Entry>, s2: Seq<Entry>, mask: u64, p: int, m: int)
    requires
        robin_hood(s, mask),
        shifted_out(s, s2, mask, p, m),
    ensures
        robin_hood(s2, mask),
{
    let n = mask + 1;
    lemma_ideal_bound(s, mask);
    lemma_ideal_bound(s2, mask);
    // An entry that moves one slot back lies one step closer to its ideal slot.
    assert forall|q: int| 0 <= q < n && ring_dist(p, q, n) < m implies #[trigger] displacement(
        s2,
        mask,
        q,
    ) == displacement(s, mask, next_slot(q, n)) - 1 && s2[q].used() by {
        let o = next_slot(q, n);
        assert(1 <= ring_dist(p, o, n) <= m);
        assert(s[o].used() && displacement(s, mask, o) >= 1);
        assert(s2[q] == s[o]);
    }
    assert forall|t: int| 0 <= t < s2.len() && (#[trigger] s2[t]).used() implies path_clear(
        s2,
        mask,
        ideal(s2[t].hash, mask),
        displacement(s2, mask, t),
    ) by {
        let a = ideal(s2[t].hash, mask);
        let k = displacement(s2, mask, t);
        assert forall|q: int| 0 <= q < s2.len() && ring_dist(a, q, n) < k implies (
        #[trigger] s2[q]).used() && displacement(s2, mask, q) >= ring_dist(a, q, n) by {
            let d = ring_dist(a, q, n);
            let nq = next_slot(q, n);
            assert(ring_dist(a, nq, n) == d + 1);
            // What held of the slot, and of the one behind it, on the old path.
            if ring_dist(p, t, n) < m {
                let o = next_slot(t, n);
                assert(s2[t] == s[o]);
                assert(displacement(s, mask, o) == k + 1);
                assert(path_clear(s, mask, a, k + 1));
                assert(s[q].used() && displacement(s, mask, q) >= d);
                assert(s[nq].used() && displacement(s, mask, nq) >= d + 1);
            } else {
                assert(ring_dist(p, t, n) > m);
                assert(s2[t] == s[t]);
                assert(path_clear(s, mask, a, k));
                assert(s[q].used() && displacement(s, mask, q) >= d);
                if d + 1 == k {
                    assert(nq == t);
                }
                assert(s[nq].used() && displacement(s, mask, nq) >= d + 1);
            }
            // What holds of the slot now.
            if ring_dist(p, q, n) < m {
                assert(s2[q] == s[nq]);
                assert(displacement(s2, mask, q) == displacement(s, mask, nq) - 1);
            } else if ring_dist(p, q, n) == m {
                assert(ring_dist(p, nq, n) == m + 1);
            } else {
                assert(s2[q] == s[q]);
            }
        }
    }
}

/// Moving entries one slot back takes the one entry out and nothing else.
pub proof fn lemma_shift_out_removed(s: Seq<Entry>, s2: Seq<Entry>, mask: u64, p: int, m: int)
    requires
        shifted_out(s, s2, mask, p, m),
    ensures
        removed(s, s2, s[p]),
{
    let n = mask + 1;
    let e = s[p];
    assert forall|x: Entry| x != e implies (#[trigger] holds(s2, x) <==> holds(s, x)) by {
        if holds(s2, x) {
            let q = choose|q: int| 0 <= q < s2.len() && s2[q] == x;
            if ring_dist(p, q, n) < m {
                assert(s[next_slot(q, n)] == x);
            } else {
                assert(s[q] == x);
            }
        }
        if holds(s, x) {
            let i = choose|i: int| 0 <= i < s.len() && s[i] == x;
            if ring_dist(p, i, n) <= m {
                let q = prev_slot(i, n);
                assert(next_slot(q, n) == i);
                assert(ring_dist(p, q, n) < m);
                assert(s2[q] == x);
            } else {
                assert(s2[i] == x);
            }
        }
    }
    assert(s[p] == e);
    if no_dup(s) {
        assert forall|t1: int, t2: int|
            0 <= t1 < s2.len() && 0 <= t2 < s2.len() && t1 != t2 && (#[trigger] s2[t1]).used() && (
            #[trigger] s2[t2]).used() implies s2[t1] != s2[t2] by {
            let o1 = if ring_dist(p, t1, n) < m {
                next_slot(t1, n)
            } else {
                t1
            };
            let o2 = if ring_dist(p, t2, n) < m {
                next_slot(t2, n)
            } else {
                t2
            };
            assert(s2[t1] == s[o1]);
            assert(s2[t2] == s[o2]);
            assert(o1 != o2);
        }
        if holds(s2, e) {
            let q = choose|q: int| 0 <= q < s2.len() && s2[q] == e;
            let o = if ring_dist(p, q, n) < m {
                next_slot(q, n)
            } else {
                q
            };
            assert(s2[q] == s[o]);
            assert(o != p);
        }
    }
}

/// `s` with the slots from `start` up to `end` emptied.
pub open spec fn cleared_range(s: Seq<Entry>, start: int, end: int) -> Seq<Entry> {
    Seq::new(
        s.len(),
        |q: int|
            if start <= q < end {
                Entry { hash: 0, data: s[q].data }
            } else {
                s[q]
            },
    )
}

/// `x` is in one of the slots from `start` up to `end`.
pub open spec fn in_range(s: Seq<Entry>, start: int, end: int, x: Entry) -> bool {
    exists|q: int| start <= q < end && #[trigger] s[q] == x
}

/// `x` is one of `pending` from index `i` on.
pub open spec fn in_tail(pending: Seq<Entry>, i: int, x: Entry) -> bool {
    exists|k: int| i <= k < pending.len() && #[trigger] pending[k] == x
}

/// The entries of `s` and those of `pending` from index `i` on are all
/// different from each other.
pub open spec fn distinct_all(s: Seq<Entry>, pending: Seq<Entry>, i: int) -> bool {
    &&& no_dup(s)
    &&& forall|k1: int, k2: int|
        i <= k1 < k2 < pending.len() ==> #[trigger] pending[k1] != #[trigger] pending[k2]
    &&& forall|k: int| i <= k < pending.len() ==> !holds(s, #[trigger] pending[k])
}

/// The entries of `s` and the first `i` of `pending` are all different from
/// each other.
pub open spec fn distinct_upto(s: Seq<Entry>, pending: Seq<Entry>, i: int) -> bool {
    &&& no_dup(s)
    &&& forall|k1: int, k2: int|
        0 <= k1 < k2 < i ==> #[trigger] pending[k1] != #[trigger] pending[k2]
    &&& forall|k: int| 0 <= k < i ==> !holds(s, #[trigger] pending[k])
}

/// Every entry's key is no longer than the entry.
pub open spec fn sizes_ok(s: Seq<Entry>) -> bool {
    forall|p: int|
        0 <= p < s.len() && (#[trigger] s[p]).used() ==> s[p].data.key_size <= s[p].data.size
}

/// What `update_block_position` does: the first slot on the probe path of
/// `hash` that is empty or holds the block at `old_pos` ends the search, and
/// in the second case the block's position becomes `new_pos`. Where every
/// slot is occupied and none holds the block, nothing changes.
pub open spec fn moved_outcome(
    s: Seq<Entry>,
    s2: Seq<Entry>,
    mask: u64,
    hash: Hash,
    old_pos: u64,
    new_pos: u64,
) -> bool {
    ||| s2 == s && forall|q: int|
        0 <= q < s.len() ==> (#[trigger] s[q]).used() && !(s[q].hash == hash && s[q].data.position
            == old_pos)
    ||| exists|p: int|
        {
            &&& 0 <= p < s.len()
            &&& forall|q: int|
                0 <= q < s.len() && ring_dist(ideal(hash, mask), q, mask + 1) < ring_dist(
                    ideal(hash, mask),
                    p,
                    mask + 1,
                ) ==> (#[trigger] s[q]).used() && !(s[q].hash == hash && s[q].data.position
                    == old_pos)
            &&& if (#[trigger] s[p]).used() {
                &&& s[p].hash == hash
                &&& s[p].data.position == old_pos
                &&& s2 == s.update(
                    p,
                    Entry {
                        hash,
                        data: EntryData {
                            position: new_pos,
                            size: s[p].data.size,
                            key_size: s[p].data.key_size,
                            flags: s[p].data.flags,
                        },
                    },
                )
            } else {
                s2 == s
            }
        }
}

pub proof fn lemma_half_mask(m: u64)
    requires
        m & ((m + 1) as u64) == 0,
        m < u64::MAX,
        m > 0,
    ensures
        (m / 2) & ((m / 2 + 1) as u64) == 0,
        (m + 1) / 2 == m / 2 + 1,
        2 * (m / 2 + 1) == m + 1,
{
    assert(m & ((m + 1) as u64) == 0 && m < 0xffff_ffff_ffff_ffffu64 && m > 0 ==> (m / 2) & ((m / 2
        + 1) as u64) == 0 && ((m + 1) as u64) / 2 == m / 2 + 1 && 2 * (m / 2 + 1) == m + 1)
        by (bit_vector);
}

/// Slots that are all empty behind index `k` do not count.
pub proof fn lemma_occupancy_tail_empty(s: Seq<Entry>, k: int)
    requires
        0 <= k <= s.len(),
        forall|i: int| k <= i < s.len() ==> !(#[trigger] s[i]).used(),
    ensures
        occupancy(s) == occupancy(s.take(k)),
    decreases s.len(),
{
    if k == s.len() {
        assert(s.take(k) =~= s);
    } else {
        assert(s.drop_last().take(k) =~= s.take(k));
        lemma_occupancy_tail_empty(s.drop_last(), k);
    }
}

/// An index without entries has the probe-distance invariant.
pub proof fn lemma_empty_robin_hood(s: Seq<Entry>, mask: u64)
    requires
        forall|i: int| 0 <= i < s.len() ==> !(#[trigger] s[i]).used(),
    ensures
        robin_hood(s, mask),
        no_dup(s),
{
}

/// A probe for the hash of the entry in slot `p` that matches on equality of
/// the stored data ends in slot `p`.
pub open spec fn found_by_data(s: Seq<Entry>, mask: u64, p: int) -> bool {
    let a = ideal(s[p].hash, mask);
    &&& path_clear(s, mask, a, ring_dist(a, p, mask + 1))
    &&& forall|q: int|
        0 <= q < s.len() && ring_dist(a, q, mask + 1) < ring_dist(a, p, mask + 1) ==> (
        #[trigger] s[q]) != s[p]
}

/// Every entry is found in its own slot by a probe that matches on equality
/// of the stored data.
pub open spec fn all_found_by_data(s: Seq<Entry>, mask: u64) -> bool {
    forall|p: int| 0 <= p < s.len() && (#[trigger] s[p]).used() ==> found_by_data(s, mask, p)
}

/// The probe-distance invariant together with the absence of duplicates says
/// the same as: every entry is found in its own slot by a probe for its hash
/// that matches on equality of the stored data.
pub proof fn lemma_valid_means_found(s: Seq<Entry>, mask: u64)
    requires
        s.len() == mask + 1,
    ensures
        (robin_hood(s, mask) && no_dup(s)) <==> all_found_by_data(s, mask),
{
    lemma_ideal_bound(s, mask);
    let n = mask + 1;
    if robin_hood(s, mask) && no_dup(s) {
        assert forall|p: int| 0 <= p < s.len() && (#[trigger] s[p]).used() implies found_by_data(
            s,
            mask,
            p,
        ) by {
            let a = ideal(s[p].hash, mask);
            assert(path_clear(s, mask, a, displacement(s, mask, p)));
            assert forall|q: int|
                0 <= q < s.len() && ring_dist(a, q, n) < ring_dist(a, p, n) implies (
            #[trigger] s[q]) != s[p] by {
                assert(s[q].used());
            }
        }
    }
    if all_found_by_data(s, mask) {
        assert forall|p: int| 0 <= p < s.len() && (#[trigger] s[p]).used() implies path_clear(
            s,
            mask,
            ideal(s[p].hash, mask),
            displacement(s, mask, p),
        ) by {
            assert(found_by_data(s, mask, p));
        }
        assert forall|p: int, q: int|
            0 <= p < s.len() && 0 <= q < s.len() && p != q && (#[trigger] s[p]).used() && (
            #[trigger] s[q]).used() implies s[p] != s[q] by {
            assert(found_by_data(s, mask, p));
            assert(found_by_data(s, mask, q));
            if s[p] == s[q] {
                let a = ideal(s[p].hash, mask);
                if ring_dist(a, q, n) < ring_dist(a, p, n) {
                    assert(s[q] != s[p]);
                } else {
                    assert(ring_dist(a, p, n) < ring_dist(a, q, n));
                    assert(s[p] != s[q]);
                }
            }
        }
    }
}

/// A probe with a match function that tests equality with the data of slot
/// `p` ends in slot `p` exactly if `found_by_data` holds of `p`.
pub proof fn lemma_self_located<F: Fn(&EntryData) -> bool>(
    s: Seq<Entry>,
    mask: u64,
    slot: usize,
    f: F,
    lr: LocateResult,
)
    requires
        s.len() == mask + 1,
        0 <= slot < s.len(),
        s[slot as int].used(),
        forall|d: &EntryData, b: bool|
            call_ensures(f, (d,), b) ==> b == (*d == s[slot as int].data),
        located(s, mask, s[slot as int].hash, f, lr),
    ensures
        lr == LocateResult::Found(slot) <==> found_by_data(s, mask, slot as int),
{
    let p = slot as int;
    lemma_ideal_bound(s, mask);
    let n = mask + 1;
    let hash = s[p].hash;
    let a = ideal(hash, mask);
    if lr == LocateResult::Found(slot) {
        assert forall|q: int|
            0 <= q < s.len() && ring_dist(a, q, n) < ring_dist(a, p, n) implies (#[trigger] s[q])
            != s[p] by {
            assert(passes(s[q], hash, f));
        }
    }
    if found_by_data(s, mask, p) {
        assert(!passes(s[p], hash, f)) by {
            if call_ensures(f, (&s[p].data,), false) {
            }
        }
        match lr {
            LocateResult::Found(x) => {
                if x != p {
                    assert(hits(s[x as int], hash, f));
                    assert(s[x as int] == s[p]);
                    if ring_dist(a, x as int, n) < ring_dist(a, p, n) {
                    } else {
                        assert(passes(s[p], hash, f));
                    }
                }
            },
            LocateResult::Hole(x) => {
                if ring_dist(a, p, n) < ring_dist(a, x as int, n) {
                    assert(passes(s[p], hash, f));
                } else {
                    assert(s[x as int].used());
                }
            },
            LocateResult::Steal(x) => {
                if probed(s, mask, hash, f, ring_dist(a, x as int, n)) && displacement(
                    s,
                    mask,
                    x as int,
                ) < ring_dist(a, x as int, n) {
                    if ring_dist(a, p, n) < ring_dist(a, x as int, n) {
                        assert(passes(s[p], hash, f));
                    } else {
                        assert(x != p);
                        assert(displacement(s, mask, x as int) >= ring_dist(a, x as int, n));
                    }
                } else {
                    assert(ring_dist(a, p, n) < n);
                    assert(passes(s[p], hash, f));
                }
            },
        }
    }
}

pub proof fn lemma_occupancy_take(s: Seq<Entry>, k: int)
    requires
        0 <= k < s.len(),
    ensures
        occupancy(s.take(k + 1)) == occupancy(s.take(k)) + if s[k].used() {
            1nat
        } else {
            0nat
        },
{
    assert(s.take(k + 1).drop_last() =~= s.take(k));
}

/// Replacing an entry by one that is not yet there keeps the entries
/// different from each other, and a key no longer than its entry keeps the
/// sizes in order.
pub proof fn lemma_replace_valid(s: Seq<Entry>, p: int, e: Entry)
    requires
        0 <= p < s.len(),
        s[p].used(),
        e.used(),
    ensures
        no_dup(s) && !holds(s, e) ==> no_dup(s.update(p, e)),
        sizes_ok(s) && e.data.key_size <= e.data.size ==> sizes_ok(s.update(p, e)),
{
    let s2 = s.update(p, e);
    if no_dup(s) && !holds(s, e) {
        assert forall|t1: int, t2: int|
            0 <= t1 < s2.len() && 0 <= t2 < s2.len() && t1 != t2 && (#[trigger] s2[t1]).used() && (
            #[trigger] s2[t2]).used() implies s2[t1] != s2[t2] by {
            if t1 != p {
                assert(s2[t1] == s[t1]);
                assert(holds(s, s[t1]));
            }
            if t2 != p {
                assert(s2[t2] == s[t2]);
                assert(holds(s, s[t2]));
            }
        }
    }
    if sizes_ok(s) && e.data.key_size <= e.data.size {
        assert forall|q: int| 0 <= q < s2.len() && (#[trigger] s2[q]).used() implies s2[q].data.key_size
            <= s2[q].data.size by {
            if q != p {
                assert(s2[q] == s[q]);
            }
        }
    }
}

pub proof fn lemma_inserted_sizes(s: Seq<Entry>, s2: Seq<Entry>, e: Entry)
    requires
        inserted(s, s2, e),
    ensures
        sizes_ok(s) && e.data.key_size <= e.data.size ==> sizes_ok(s2),
{
    if sizes_ok(s) && e.data.key_size <= e.data.size {
        assert forall|q: int| 0 <= q < s2.len() && (#[trigger] s2[q]).used() implies s2[q].data.key_size
            <= s2[q].data.size by {
            assert(holds(s2, s2[q]));
            if s2[q] != e {
                assert(holds(s, s2[q]));
                let i = choose|i: int| 0 <= i < s.len() && s[i] == s2[q];
                assert(s[i].used());
            }
        }
    }
}

pub proof fn lemma_removed_sizes(s: Seq<Entry>, s2: Seq<Entry>, e: Entry)
    requires
        removed(s, s2, e),
    ensures
        sizes_ok(s) ==> sizes_ok(s2),
{
    if sizes_ok(s) {
        assert forall|q: int| 0 <= q < s2.len() && (#[trigger] s2[q]).used() implies s2[q].data.key_size
            <= s2[q].data.size by {
            assert(holds(s2, s2[q]));
            assert(holds(s, s2[q]));
            let i = choose|i: int| 0 <= i < s.len() && s[i] == s2[q];
            assert(s[i].used());
        }
    }
}

/// A probe that ends without finding has passed every entry with the hash
/// it looked for: the match function turned each of them down.
pub proof fn lemma_locate_misses<F: Fn(&EntryData) -> bool>(
    s: Seq<Entry>,
    mask: u64,
    hash: Hash,
    f: F,
    lr: LocateResult,
    x: Entry,
)
    requires
        s.len() == mask + 1,
        robin_hood(s, mask),
        located(s, mask, hash, f, lr),
        !(lr is Found),
        holds(s, x),
        x.hash == hash,
    ensures
        call_ensures(f, (&x.data,), false),
{
    lemma_ideal_bound(s, mask);
    let n = mask + 1;
    let a = ideal(hash, mask);
    let t = choose|t: int| 0 <= t < s.len() && s[t] == x;
    assert(s[t].used());
    assert(path_clear(s, mask, a, displacement(s, mask, t)));
    match lr {
        LocateResult::Found(p) => {},
        LocateResult::Hole(p) => {
            if ring_dist(a, t, n) < ring_dist(a, p as int, n) {
                assert(passes(s[t], hash, f));
            } else {
                assert(s[p as int].used());
            }
        },
        LocateResult::Steal(p) => {
            if probed(s, mask, hash, f, ring_dist(a, p as int, n)) && displacement(
                s,
                mask,
                p as int,
            ) < ring_dist(a, p as int, n) {
                if ring_dist(a, t, n) < ring_dist(a, p as int, n) {
                    assert(passes(s[t], hash, f));
                } else if t == p {
                } else {
                    assert(displacement(s, mask, p as int) >= ring_dist(a, p as int, n));
                }
            } else {
                assert(ring_dist(a, t, n) < n);
                assert(passes(s[t], hash, f));
            }
        },
    }
}

/// A sequence of entries of which none is in an occupied slot twice holds
/// `x` after `e` has replaced the entry of slot `p` exactly if `x` is `e` or
/// was held elsewhere.
pub proof fn lemma_update_holds(s: Seq<Entry>, p: int, e: Entry)
    requires
        0 <= p < s.len(),
        s[p].used(),
        e.used(),
        no_dup(s),
    ensures
        forall|x: Entry| #[trigger]
            holds(s.update(p, e), x) <==> (holds(s, x) && x != s[p]) || x == e,
{
    let s2 = s.update(p, e);
    assert forall|x: Entry| #[trigger] holds(s2, x) <==> (holds(s, x) && x != s[p]) || x == e by {
        if holds(s2, x) {
            let q = choose|q: int| 0 <= q < s2.len() && s2[q] == x;
            if q != p {
                assert(s[q] == x);
            }
        }
        if holds(s, x) && x != s[p] {
            let q = choose|q: int| 0 <= q < s.len() && s[q] == x;
            assert(s2[q] == x);
        }
        if x == e {
            assert(s2[p] == e);
        }
    }
}

/// `e` at another position.
pub open spec fn moved(e: Entry, new_pos: u64) -> Entry {
    Entry {
        hash: e.hash,
        data: EntryData {
            position: new_pos,
            size: e.data.size,
            key_size: e.data.key_size,
            flags: e.data.flags,
        },
    }
}

/// Where the probe-distance invariant holds, `update_block_position` finds
/// the entry that it is called for.
pub proof fn lemma_moved_entry(
    s: Seq<Entry>,
    s2: Seq<Entry>,
    mask: u64,
    hash: Hash,
    old_pos: u64,
    new_pos: u64,
    e: Entry,
) -> (p: int)
    requires
        s.len() == mask + 1,
        robin_hood(s, mask),
        moved_outcome(s, s2, mask, hash, old_pos, new_pos),
        holds(s, e),
        e.hash == hash,
        e.data.position == old_pos,
        forall|x: Entry| #[trigger] holds(s, x) && x.data.position == old_pos ==> x == e,
    ensures
        0 <= p < s.len(),
        s[p] == e,
        s2 == s.update(p, moved(e, new_pos)),
{
    lemma_ideal_bound(s, mask);
    let n = mask + 1;
    let a = ideal(hash, mask);
    let t = choose|t: int| 0 <= t < s.len() && s[t] == e;
    assert(s[t].used() && s[t].hash == hash && s[t].data.position == old_pos);
    let p = choose|p: int|
        {
            &&& 0 <= p < s.len()
            &&& forall|q: int|
                0 <= q < s.len() && ring_dist(ideal(hash, mask), q, mask + 1) < ring_dist(
                    ideal(hash, mask),
                    p,
                    mask + 1,
                ) ==> (#[trigger] s[q]).used() && !(s[q].hash == hash && s[q].data.position
                    == old_pos)
            &&& if (#[trigger] s[p]).used() {
                &&& s[p].hash == hash
                &&& s[p].data.position == old_pos
                &&& s2 == s.update(
                    p,
                    Entry {
                        hash,
                        data: EntryData {
                            position: new_pos,
                            size: s[p].data.size,
                            key_size: s[p].data.key_size,
                            flags: s[p].data.flags,
                        },
                    },
                )
            } else {
                s2 == s
            }
        };
    assert(path_clear(s, mask, a, displacement(s, mask, t)));
    if !s[p].used() {
        if ring_dist(a, p, n) < ring_dist(a, t, n) {
            assert(s[p].used());
        } else {
            assert(ring_dist(a, t, n) < ring_dist(a, p, n));
            assert(!(s[t].hash == hash && s[t].data.position == old_pos));
        }
    }
    assert(holds(s, s[p]));
    p
}

pub proof fn lemma_double_mask(m: u64)
    requires
        m & ((m + 1) as u64) == 0,
        m < 0x7fff_ffff_ffff_ffff,
    ensures
        ((2 * m + 1) as u64) & ((2 * m + 2) as u64) == 0,
{
    assert(m & ((m + 1) as u64) == 0 && m < 0x7fff_ffff_ffff_ffffu64 ==> ((2 * m + 1) as u64) & ((2
        * m + 2) as u64) == 0) by (bit_vector);
}

/// A power of two above 128 is at least 256.
pub proof fn lemma_mask_above(m: u64)
    requires
        m & ((m + 1) as u64) == 0,
        m < u64::MAX,
        m >= 128,
    ensures
        m >= 255,
{
    assert(m & ((m + 1) as u64) == 0 && m < 0xffff_ffff_ffff_ffffu64 && m >= 128 ==> m >= 255)
        by (bit_vector);
}

/// Emptying a slot and putting the other entries into other slots takes
/// the one entry out and nothing else.
pub proof fn lemma_cleared_removed(s: Seq<Entry>, s1: Seq<Entry>, s2: Seq<Entry>, p: int)
    requires
        0 <= p < s.len(),
        s[p].used(),
        s1 == s.update(p, Entry { hash: 0, data: s[p].data }),
        s2.len() == s.len(),
        forall|x: Entry| #[trigger] holds(s2, x) <==> holds(s1, x),
        no_dup(s1) <==> no_dup(s2),
    ensures
        removed(s, s2, s[p]),
{
    let e = s[p];
    assert forall|x: Entry| #[trigger] holds(s1, x) implies holds(s, x) by {
        let q = choose|q: int| 0 <= q < s1.len() && s1[q] == x;
        assert(q != p);
        assert(s[q] == x);
    }
    assert forall|x: Entry| x != e implies (#[trigger] holds(s2, x) <==> holds(s, x)) by {
        if holds(s, x) {
            let q = choose|q: int| 0 <= q < s.len() && s[q] == x;
            assert(s1[q] == x);
        }
        assert(holds(s2, x) <==> holds(s1, x));
    }
    assert(holds(s2, e) <==> holds(s1, e));
    if no_dup(s) {
        assert forall|a: int, b: int|
            0 <= a < s1.len() && 0 <= b < s1.len() && a != b && (#[trigger] s1[a]).used() && (
            #[trigger] s1[b]).used() implies s1[a] != s1[b] by {
            assert(s1[a] == s[a] && s1[b] == s[b]);
        }
        if holds(s1, e) {
            let q = choose|q: int| 0 <= q < s1.len() && s1[q] == e;
            assert(s[q] == e && q != p);
            assert(s[q].used() && s[p].used());
        }
    }
}

/// The index: a ring of slots and the number of occupied ones.
pub struct Index {
    mask: usize,
    capacity: usize,
    count: usize,
    entries: Vec<Entry>,
}

impl Index {
    /// The slots in physical order.
    pub closed spec fn slots(&self) -> Seq<Entry> {
        self.entries@
    }

    pub closed spec fn capacity_spec(&self) -> usize {
        self.capacity
    }

    pub closed spec fn len_spec(&self) -> usize {
        self.count
    }

    pub closed spec fn mask_spec(&self) -> usize {
        self.mask
    }

    /// The mask that maps a hash to its ideal slot.
    pub open spec fn mask_of(&self) -> u64 {
        self.mask_spec() as u64
    }

    /// The representation is sound: the capacity is a power of two and the
    /// number of slots, and the count is the number of occupied slots.
    pub open spec fn wf(&self) -> bool {
        &&& self.slots().len() == self.capacity_spec()
        &&& self.mask_spec() + 1 == self.capacity_spec()
        &&& self.mask_of() & ((self.mask_of() + 1) as u64) == 0
        &&& self.mask_of() < 0x7fff_ffff_ffff_ffff
        &&& self.len_spec() == occupancy(self.slots())
    }

    /// An index over the given slots, of which `used_count` are taken to be
    /// occupied.
    pub fn new(entries: Vec<Entry>, used_count: usize) -> (r: Self)
        requires
            entries@.len() > 0,
            ((entries@.len() - 1) as u64) & (entries@.len() as u64) == 0,
            entries@.len() - 1 < 0x7fff_ffff_ffff_ffff,
        ensures
            r.slots() == entries@,
            r.capacity_spec() == entries@.len(),
            r.len_spec() == used_count,
            r.mask_spec() + 1 == entries@.len(),
            used_count == occupancy(entries@) ==> r.wf(),
    {
        let capacity = entries.len();
        Self { mask: capacity - 1, capacity, count: used_count, entries }
    }

    /// Number of entries.
    #[verifier::when_used_as_spec(len_spec)]
    pub fn len(&self) -> (r: usize)
        ensures
            r == self.len_spec(),
    {
        self.count
    }

    /// Number of slots.
    #[verifier::when_used_as_spec(capacity_spec)]
    pub fn capacity(&self) -> (r: usize)
        ensures
            r == self.capacity_spec(),
    {
        self.capacity
    }

    /// The slots in physical order.
    pub fn get_entries(&self) -> (r: &Vec<Entry>)
        ensures
            r@ == self.slots(),
    {
        &self.entries
    }

    fn ideal_slot(&self, hash: Hash) -> (r: usize)
        requires
            self.wf(),
        ensures
            r == ideal(hash, self.mask_of()),
            r < self.capacity_spec(),
    {
        proof {
            lemma_mask_bound(hash, self.mask as u64);
        }
        (hash & (self.mask as u64)) as usize
    }

    fn next_of(&self, pos: usize) -> (r: usize)
        requires
            self.wf(),
            pos < self.capacity_spec(),
        ensures
            r == next_slot(pos as int, self.capacity_spec() as int),
            r < self.capacity_spec(),
    {
        proof {
            lemma_mask_next(pos as u64, self.mask as u64);
        }
        ((pos as u64 + 1) & (self.mask as u64)) as usize
    }

    /// How far `entry`, if it were in slot `pos`, would lie from its ideal slot.
    pub fn get_displacement(&self, entry: &Entry, pos: usize) -> (r: usize)
        requires
            self.wf(),
            pos < self.capacity_spec(),
        ensures
            r == ring_dist(ideal(entry.hash, self.mask_of()), pos as int, self.mask_of() + 1),
            r < self.capacity_spec(),
    {
        let home = self.ideal_slot(entry.hash);
        proof {
            lemma_mask_dist(pos as u64, home as u64, self.mask as u64);
        }
        ((pos as u64 + self.capacity as u64 - home as u64) & (self.mask as u64)) as usize
    }

    /// Finds the slot of the key with the given hash that `match_fn` accepts,
    /// or else the slot where such a key would be put.
    pub fn locate<F: Fn(&EntryData) -> bool>(&self, hash: Hash, match_fn: F) -> (r: LocateResult)
        requires
            self.wf(),
            forall|q: int|
                0 <= q < self.slots().len() && (#[trigger] self.slots()[q]).hash == hash
                    ==> call_requires(match_fn, (&self.slots()[q].data,)),
        ensures
            located(self.slots(), self.mask_of(), hash, match_fn, r),
    {
        let mut pos = self.ideal_slot(hash);
        let mut dist: usize = 0;
        let ghost s = self.entries@;
        let ghost n = self.capacity as int;
        let ghost a = pos as int;
        let ghost mask = self.mask as u64;
        loop
            invariant
                self.wf(),
                s == self.slots(),
                n == self.capacity_spec(),
                mask == self.mask_of(),
                a == ideal(hash, mask),
                0 <= a < n,
                pos < n,
                dist <= n,
                dist < n ==> ring_dist(a, pos as int, n) == dist,
                dist == n ==> pos == a,
                probed(s, mask, hash, match_fn, dist as int),
                forall|q: int|
                    0 <= q < s.len() && (#[trigger] s[q]).hash == hash ==> call_requires(
                        match_fn,
                        (&s[q].data,),
                    ),
            decreases n - dist,
        {
            let entry = &self.entries[pos];
            if !entry.is_used() {
                proof {
                    if dist == n {
                        assert(ring_dist(a, a, n) < n);
                        assert(s[a].used());
                    }
                }
                return LocateResult::Hole(pos);
            }
            if entry.hash == hash && match_fn(&entry.data) {
                proof {
                    if dist == n {
                        assert(ring_dist(a, a, n) < n);
                        assert(passes(s[a], hash, match_fn));
                    }
                }
                return LocateResult::Found(pos);
            }
            let odist = self.get_displacement(entry, pos);
            if dist > odist {
                return LocateResult::Steal(pos);
            }
            assert(passes(s[pos as int], hash, match_fn));
            proof {
                assert forall|q: int|
                    0 <= q < s.len() && ring_dist(a, q, n) < dist + 1 implies (#[trigger] s[q]).used()
                    && displacement(s, mask, q) >= ring_dist(a, q, n) && passes(s[q], hash, match_fn) by {
                    if ring_dist(a, q, n) == dist {
                        assert(q == pos);
                    }
                }
            }
            pos = self.next_of(pos);
            dist += 1;
        }
    }

    /// The data of the key with the given hash that `match_fn` accepts.
    pub fn index_get<F: Fn(&EntryData) -> bool>(&self, hash: Hash, match_fn: F) -> (r: Option<
        EntryData,
    >)
        requires
            self.wf(),
            forall|q: int|
                0 <= q < self.slots().len() && (#[trigger] self.slots()[q]).hash == hash
                    ==> call_requires(match_fn, (&self.slots()[q].data,)),
        ensures
            exists|lr: LocateResult| #[trigger]
                located(self.slots(), self.mask_of(), hash, match_fn, lr) && match lr {
                    LocateResult::Found(p) => r == Some(self.slots()[p as int].data),
                    _ => r is None,
                },
    {
        match self.locate(hash, match_fn) {
            LocateResult::Found(pos) => Some(self.entries[pos].data),
            _ => None,
        }
    }

    /// Stores `data` under the key with the given hash that `match_fn`
    /// accepts. Returns the data that was stored under the key before.
    pub fn index_set<F: Fn(&EntryData) -> bool>(
        &mut self,
        hash: Hash,
        match_fn: F,
        data: EntryData,
    ) -> (r: Option<EntryData>)
        requires
            old(self).wf(),
            hash != 0,
            old(self).len_spec() < old(self).capacity_spec(),
            forall|q: int|
                0 <= q < old(self).slots().len() && (#[trigger] old(self).slots()[q]).hash == hash
                    ==> call_requires(match_fn, (&old(self).slots()[q].data,)),
        ensures
            final(self).wf(),
            final(self).capacity_spec() == old(self).capacity_spec(),
            final(self).mask_spec() == old(self).mask_spec(),
            set_outcome(
                old(self).slots(),
                final(self).slots(),
                old(self).mask_of(),
                hash,
                match_fn,
                data,
                r,
            ),
            final(self).len_spec() == old(self).len_spec() + if r is None {
                1int
            } else {
                0int
            },
            robin_hood(old(self).slots(), old(self).mask_of()) ==> robin_hood(
                final(self).slots(),
                final(self).mask_of(),
            ),
            old(self).valid() && data.key_size <= data.size && !holds(
                old(self).slots(),
                Entry { hash, data },
            ) ==> final(self).valid(),
    {
        let ghost s0 = self.entries@;
        let ghost mask = self.mask as u64;
        let ghost n = self.capacity as int;
        let ghost e = Entry { hash, data };
        let lr = self.locate(hash, match_fn);
        proof {
            lemma_mask_bound(hash, mask);
            lemma_ideal_bound(s0, mask);
        }
        match lr {
            LocateResult::Found(pos) => {
                let old_data = self.entries[pos].data;
                self.entries[pos].data = data;
                proof {
                    assert(self.entries@ =~= s0.update(pos as int, e));
                    lemma_occupancy_update(s0, pos as int, e);
                    if robin_hood(s0, mask) {
                        lemma_replace_robin_hood(s0, mask, pos as int, e);
                    }
                    lemma_replace_valid(s0, pos as int, e);
                }
                Some(old_data)
            },
            LocateResult::Hole(pos) => {
                self.entries[pos] = Entry { hash, data };
                proof {
                    assert(self.entries@ =~= s0.update(pos as int, e));
                    lemma_occupancy_update(s0, pos as int, e);
                    lemma_fill_inserted(s0, pos as int, e);
                    if robin_hood(s0, mask) {
                        lemma_fill_robin_hood(s0, mask, pos as int, e);
                    }
                    lemma_inserted_sizes(s0, self.entries@, e);
                }
                self.count += 1;
                None
            },
            LocateResult::Steal(pos) => {
                let ghost hole = lemma_has_hole(s0);
                let ghost a = ideal(hash, mask);
                proof {
                    // The probe did not come all the way round: there is a hole.
                    if !(probed(s0, mask, hash, match_fn, ring_dist(a, pos as int, n))
                        && displacement(s0, mask, pos as int) < ring_dist(a, pos as int, n)) {
                        assert(ring_dist(a, hole, n) < n);
                        assert(s0[hole].used());
                    }
                }
                let mut carried = self.entries[pos];
                self.entries[pos] = Entry { hash, data };
                let mut cur = pos;
                let ghost mut j: int = 0;
                proof {
                    lemma_occupancy_update(s0, pos as int, e);
                }
                loop
                    invariant_except_break
                        j < ring_dist(pos as int, hole, n),
                        carried == s0[cur as int],
                        forall|q: int|
                            0 <= q < n ==> #[trigger] self.entries@[q] == (if ring_dist(
                                pos as int,
                                q,
                                n,
                            ) == 0 {
                                e
                            } else if ring_dist(pos as int, q, n) <= j {
                                s0[prev_slot(q, n)]
                            } else {
                                s0[q]
                            }),
                        occupancy(self.entries@) == occupancy(s0),
                        forall|q: int|
                            0 <= q < n && ring_dist(pos as int, q, n) <= j ==> (#[trigger] s0[q]).used(),
                    invariant
                        self.capacity == n,
                        self.mask == old(self).mask,
                        self.mask as u64 == mask,
                        self.mask + 1 == self.capacity,
                        mask & ((mask + 1) as u64) == 0,
                        mask < 0x7fff_ffff_ffff_ffff,
                        self.count == old(self).count,
                        self.count == occupancy(s0),
                        self.entries@.len() == n,
                        s0.len() == n,
                        pos < n,
                        cur < n,
                        0 <= hole < n,
                        !s0[hole].used(),
                        e == (Entry { hash, data }),
                        e.used(),
                        0 <= j < n,
                        j == ring_dist(pos as int, cur as int, n),
                        j <= ring_dist(pos as int, hole, n),
                    ensures
                        shifted_in(s0, self.entries@, n, pos as int, j, e),
                        occupancy(self.entries@) == occupancy(s0) + 1,
                    decreases ring_dist(pos as int, hole, n) - j,
                {
                    proof {
                        lemma_mask_next(cur as u64, mask);
                    }
                    cur = ((cur as u64 + 1) & (self.mask as u64)) as usize;
                    let entry = self.entries[cur];
                    let ghost before = self.entries@;
                    proof {
                        assert(ring_dist(pos as int, cur as int, n) == j + 1);
                        assert(entry == s0[cur as int]);
                    }
                    self.entries[cur] = carried;
                    proof {
                        assert(self.entries@ =~= before.update(cur as int, carried));
                        lemma_occupancy_update(before, cur as int, carried);
                        assert(prev_slot(cur as int, n) == if cur == 0 {
                            n - 1
                        } else {
                            cur - 1
                        });
                        j = j + 1;
                        assert forall|q: int| 0 <= q < n implies #[trigger] self.entries@[q] == (
                        if ring_dist(pos as int, q, n) == 0 {
                            e
                        } else if ring_dist(pos as int, q, n) <= j {
                            s0[prev_slot(q, n)]
                        } else {
                            s0[q]
                        }) by {
                            if q == cur {
                            } else {
                                assert(self.entries@[q] == before[q]);
                            }
                        }
                    }
                    if entry.is_used() {
                        carried = entry;
                        proof {
                            assert forall|q: int|
                                0 <= q < n && ring_dist(pos as int, q, n) <= j implies (
                            #[trigger] s0[q]).used() by {
                                if ring_dist(pos as int, q, n) == j {
                                    assert(q == cur);
                                }
                            }
                        }
                    } else {
                        proof {
                            assert forall|q: int|
                                0 <= q < n && ring_dist(pos as int, q, n) == j implies !(
                            #[trigger] s0[q]).used() by {
                                assert(q == cur);
                            }
                        }
                        break ;
                    }
                }
                proof {
                    lemma_shift_in_inserted(s0, self.entries@, n, pos as int, j, e);
                    if robin_hood(s0, mask) {
                        lemma_shift_in_robin_hood(s0, self.entries@, mask, pos as int, j, e);
                    }
                    lemma_inserted_sizes(s0, self.entries@, e);
                }
                self.count += 1;
                None
            },
        }
    }

    /// Empties slot `start` and moves the entries behind it that are away
    /// from their ideal slot one slot back, up to the next hole or entry at
    /// its ideal slot. Returns how many entries moved.
    fn backshift(&mut self, start: usize) -> (m: Ghost<int>)
        requires
            old(self).wf(),
            start < old(self).capacity_spec(),
            old(self).slots()[start as int].used(),
            old(self).len_spec() < old(self).capacity_spec(),
        ensures
            shifted_out(
                old(self).slots(),
                final(self).slots(),
                old(self).mask_of(),
                start as int,
                m@,
            ),
            final(self).capacity_spec() == old(self).capacity_spec(),
            final(self).mask_spec() == old(self).mask_spec(),
            final(self).len_spec() == old(self).len_spec(),
            occupancy(final(self).slots()) == occupancy(old(self).slots()) - 1,
    {
        let ghost s0 = self.entries@;
        let ghost mask = self.mask as u64;
        let ghost n = self.capacity as int;
        let ghost hole = lemma_has_hole(s0);
        let ghost mut j: int = 0;
        let mut pos = start;
        let mut last_pos = start;
        proof {
            lemma_ideal_bound(s0, mask);
        }
        loop
            invariant_except_break
                j == ring_dist(start as int, pos as int, n),
                self.entries@[pos as int] == s0[start as int],
            invariant
                self.capacity == n,
                self.mask == old(self).mask,
                self.mask as u64 == mask,
                self.mask + 1 == self.capacity,
                mask & ((mask + 1) as u64) == 0,
                mask < 0x7fff_ffff_ffff_ffff,
                self.count == old(self).count,
                self.entries@.len() == n,
                s0.len() == n,
                start < n,
                pos < n,
                last_pos < n,
                0 <= hole < n,
                !s0[hole].used(),
                s0[start as int].used(),
                0 <= j < ring_dist(start as int, hole, n),
                occupancy(self.entries@) == occupancy(s0),
                forall|q: int|
                    0 <= q < n && ring_dist(start as int, q, n) != j ==> #[trigger] self.entries@[q]
                        == (if ring_dist(start as int, q, n) < j {
                        s0[next_slot(q, n)]
                    } else {
                        s0[q]
                    }),
                forall|q: int|
                    0 <= q < n && 1 <= ring_dist(start as int, q, n) <= j ==> (#[trigger] s0[q]).used()
                        && displacement(s0, mask, q) >= 1,
            ensures
                j == ring_dist(start as int, last_pos as int, n),
                self.entries@[last_pos as int] == s0[start as int],
                forall|q: int|
                    0 <= q < n && ring_dist(start as int, q, n) == j + 1 ==> !(#[trigger] s0[q]).used()
                        || displacement(s0, mask, q) == 0,
            decreases ring_dist(start as int, hole, n) - j,
        {
            last_pos = pos;
            proof {
                lemma_mask_next(pos as u64, mask);
            }
            pos = ((pos as u64 + 1) & (self.mask as u64)) as usize;
            let entry = self.entries[pos];
            proof {
                assert(ring_dist(start as int, pos as int, n) == j + 1);
                assert(entry == s0[pos as int]);
                lemma_mask_bound(entry.hash, mask);
            }
            if !entry.is_used() {
                proof {
                    assert forall|q: int|
                        0 <= q < n && ring_dist(start as int, q, n) == j + 1 implies !(
                    #[trigger] s0[q]).used() || displacement(s0, mask, q) == 0 by {
                        assert(q == pos);
                    }
                }
                break ;
            }
            if (entry.hash & (self.mask as u64)) as usize == pos {
                proof {
                    assert forall|q: int|
                        0 <= q < n && ring_dist(start as int, q, n) == j + 1 implies !(
                    #[trigger] s0[q]).used() || displacement(s0, mask, q) == 0 by {
                        assert(q == pos);
                    }
                }
                break ;
            }
            let moved = self.entries[last_pos];
            let ghost before = self.entries@;
            self.entries[last_pos] = entry;
            let ghost middle = self.entries@;
            self.entries[pos] = moved;
            proof {
                assert(middle =~= before.update(last_pos as int, entry));
                assert(self.entries@ =~= middle.update(pos as int, moved));
                lemma_occupancy_update(before, last_pos as int, entry);
                lemma_occupancy_update(middle, pos as int, moved);
                assert forall|q: int|
                    0 <= q < n && ring_dist(start as int, q, n) != j + 1 implies #[trigger] self.entries@[q]
                    == (if ring_dist(start as int, q, n) < j + 1 {
                    s0[next_slot(q, n)]
                } else {
                    s0[q]
                }) by {
                    if q == last_pos {
                    } else {
                        assert(self.entries@[q] == before[q]);
                    }
                }
                assert forall|q: int|
                    0 <= q < n && 1 <= ring_dist(start as int, q, n) <= j + 1 implies (
                #[trigger] s0[q]).used() && displacement(s0, mask, q) >= 1 by {
                    if ring_dist(start as int, q, n) == j + 1 {
                        assert(q == pos);
                    }
                }
                j = j + 1;
            }
        }
        let ghost before = self.entries@;
        self.entries[last_pos].hash = 0;
        proof {
            let cleared = Entry { hash: 0, data: before[last_pos as int].data };
            assert(self.entries@ =~= before.update(last_pos as int, cleared));
            lemma_occupancy_update(before, last_pos as int, cleared);
            assert forall|q: int| 0 <= q < n implies if ring_dist(start as int, q, n) < j {
                #[trigger] self.entries@[q] == s0[next_slot(q, n)]
            } else if ring_dist(start as int, q, n) == j {
                !self.entries@[q].used()
            } else {
                self.entries@[q] == s0[q]
            } by {
                if q == last_pos {
                } else {
                    assert(self.entries@[q] == before[q]);
                }
            }
        }
        Ghost(j)
    }

    /// Takes out the key with the given hash that `match_fn` accepts and
    /// returns its data.
    pub fn index_delete<F: Fn(&EntryData) -> bool>(&mut self, hash: Hash, match_fn: F) -> (r:
        Option<EntryData>)
        requires
            old(self).wf(),
            forall|q: int|
                0 <= q < old(self).slots().len() && (#[trigger] old(self).slots()[q]).hash == hash
                    ==> call_requires(match_fn, (&old(self).slots()[q].data,)),
        ensures
            final(self).wf(),
            final(self).capacity_spec() == old(self).capacity_spec(),
            final(self).mask_spec() == old(self).mask_spec(),
            delete_outcome(
                old(self).slots(),
                final(self).slots(),
                old(self).mask_of(),
                hash,
                match_fn,
                r,
            ),
            final(self).len_spec() == old(self).len_spec() - if r is Some {
                1int
            } else {
                0int
            },
            robin_hood(old(self).slots(), old(self).mask_of()) ==> robin_hood(
                final(self).slots(),
                final(self).mask_of(),
            ),
            old(self).valid() ==> final(self).valid(),
    {
        let ghost s0 = self.entries@;
        let ghost mask = self.mask as u64;
        match self.locate(hash, match_fn) {
            LocateResult::Found(pos) => {
                let entry = self.entries[pos].data;
                proof {
                    lemma_occupancy_bound(s0);
                }
                if self.count < self.capacity {
                    let m = self.backshift(pos);
                    proof {
                        lemma_shift_out_removed(s0, self.entries@, mask, pos as int, m@);
                        if robin_hood(s0, mask) {
                            lemma_shift_out_robin_hood(s0, self.entries@, mask, pos as int, m@);
                        }
                        lemma_occupancy_update(s0, pos as int, Entry { hash: 0, data: entry });
                    }
                    self.count -= 1;
                } else {
                    // No hole bounds the shift: the entry is taken out and
                    // the others are put in order anew.
                    self.entries[pos].hash = 0;
                    self.count -= 1;
                    let ghost s1 = self.entries@;
                    proof {
                        let cleared = Entry { hash: 0, data: entry };
                        assert(s1 =~= s0.update(pos as int, cleared));
                        lemma_occupancy_update(s0, pos as int, cleared);
                        lemma_empty_robin_hood(cleared_range(s1, 0, self.capacity as int), mask);
                    }
                    self.reinsert(0, self.capacity);
                    proof {
                        lemma_cleared_removed(s0, s1, self.entries@, pos as int);
                    }
                }
                proof {
                    lemma_removed_sizes(s0, self.entries@, s0[pos as int]);
                }
                Some(entry)
            },
            _ => None,
        }
    }

    /// Records that the block of the key with the given hash moved from
    /// `old_pos` to `new_pos`.
    pub fn update_block_position(&mut self, hash: Hash, old_pos: u64, new_pos: u64)
        requires
            old(self).wf(),
        ensures
            final(self).wf(),
            final(self).capacity_spec() == old(self).capacity_spec(),
            final(self).mask_spec() == old(self).mask_spec(),
            final(self).len_spec() == old(self).len_spec(),
            moved_outcome(
                old(self).slots(),
                final(self).slots(),
                old(self).mask_of(),
                hash,
                old_pos,
                new_pos,
            ),
            robin_hood(old(self).slots(), old(self).mask_of()) ==> robin_hood(
                final(self).slots(),
                final(self).mask_of(),
            ),
    {
        let ghost s0 = self.entries@;
        let ghost mask = self.mask as u64;
        let ghost n = self.capacity as int;
        let mut pos = self.ideal_slot(hash);
        let ghost a = pos as int;
        let mut steps: usize = 0;
        while steps < self.capacity
            invariant
                self.wf(),
                self.entries@ == s0,
                s0 == old(self).entries@,
                self.capacity == n,
                self.capacity == old(self).capacity,
                self.mask as u64 == mask,
                self.mask == old(self).mask,
                self.count == old(self).count,
                a == ideal(hash, mask),
                0 <= a < n,
                pos < n,
                steps <= n,
                steps < n ==> steps == ring_dist(a, pos as int, n),
                forall|q: int|
                    0 <= q < n && ring_dist(a, q, n) < steps ==> (#[trigger] s0[q]).used() && !(
                    s0[q].hash == hash && s0[q].data.position == old_pos),
            decreases n - steps,
        {
            let entry = self.entries[pos];
            if !entry.is_used() {
                proof {
                    assert(!s0[pos as int].used());
                    assert(moved_outcome(s0, self.entries@, mask, hash, old_pos, new_pos));
                }
                return ;
            }
            if entry.hash == hash && entry.data.position == old_pos {
                self.entries[pos].data.position = new_pos;
                proof {
                    assert(s0[pos as int].used());
                    let e = Entry {
                        hash,
                        data: EntryData {
                            position: new_pos,
                            size: entry.data.size,
                            key_size: entry.data.key_size,
                            flags: entry.data.flags,
                        },
                    };
                    assert(self.entries@ =~= s0.update(pos as int, e));
                    lemma_occupancy_update(s0, pos as int, e);
                    if robin_hood(s0, mask) {
                        lemma_replace_robin_hood(s0, mask, pos as int, e);
                    }
                    assert(moved_outcome(s0, self.entries@, mask, hash, old_pos, new_pos));
                }
                return ;
            }
            proof {
                assert forall|q: int| 0 <= q < n && ring_dist(a, q, n) < steps + 1 implies (
                #[trigger] s0[q]).used() && !(s0[q].hash == hash && s0[q].data.position
                    == old_pos) by {
                    if ring_dist(a, q, n) == steps {
                        assert(q == pos);
                    }
                }
            }
            pos = self.next_of(pos);
            steps += 1;
        }
        proof {
            assert forall|q: int| 0 <= q < s0.len() implies (#[trigger] s0[q]).used() && !(s0[q].hash
                == hash && s0[q].data.position == old_pos) by {
                assert(ring_dist(a, q, n) < n);
            }
        }
    }

    /// Empties every slot.
    pub fn clear(&mut self)
        requires
            old(self).wf(),
        ensures
            final(self).wf(),
            final(self).capacity_spec() == old(self).capacity_spec(),
            final(self).mask_spec() == old(self).mask_spec(),
            final(self).len_spec() == 0,
            final(self).slots() == cleared_range(
                old(self).slots(),
                0,
                old(self).capacity_spec() as int,
            ),
            final(self).valid(),
    {
        let ghost s0 = self.entries@;
        let mut pos: usize = 0;
        while pos < self.capacity
            invariant
                pos <= self.capacity,
                self.capacity == old(self).capacity,
                self.mask == old(self).mask,
                self.entries@.len() == self.capacity,
                s0.len() == self.capacity,
                self.entries@ =~= cleared_range(s0, 0, pos as int),
            decreases self.capacity - pos,
        {
            self.entries[pos].hash = 0;
            pos += 1;
        }
        self.count = 0;
        proof {
            lemma_occupancy_empty(self.entries@);
            lemma_empty_robin_hood(self.entries@, self.mask as u64);
        }
    }

    /// Takes the entries of the slots from `start` up to `end` out.
    fn take_out(&mut self, start: usize, end: usize) -> (pending: Vec<Entry>)
        requires
            start <= end <= old(self).slots().len(),
            old(self).len_spec() == occupancy(old(self).slots()),
        ensures
            final(self).slots() == cleared_range(old(self).slots(), start as int, end as int),
            final(self).capacity_spec() == old(self).capacity_spec(),
            final(self).mask_spec() == old(self).mask_spec(),
            final(self).len_spec() == occupancy(final(self).slots()),
            final(self).len_spec() + pending@.len() == old(self).len_spec(),
            forall|k: int| 0 <= k < pending@.len() ==> (#[trigger] pending@[k]).used(),
            forall|x: Entry| #[trigger]
                holds(old(self).slots(), x) <==> holds(final(self).slots(), x) || in_tail(
                    pending@,
                    0,
                    x,
                ),
            no_dup(old(self).slots()) <==> distinct_all(final(self).slots(), pending@, 0),
    {
        let ghost s0 = self.entries@;
        let mut pending: Vec<Entry> = Vec::new();
        let ghost mut origin: Seq<int> = Seq::empty();
        let mut pos = start;
        proof {
            assert(self.entries@ =~= cleared_range(s0, start as int, start as int));
            lemma_occupancy_bound(s0);
        }
        while pos < end
            invariant
                start <= pos <= end <= s0.len(),
                self.capacity == old(self).capacity,
                self.mask == old(self).mask,
                self.entries@ == cleared_range(s0, start as int, pos as int),
                self.count == occupancy(self.entries@),
                self.count + pending@.len() == old(self).count,
                forall|k: int| 0 <= k < pending@.len() ==> (#[trigger] pending@[k]).used(),
                forall|k: int|
                    0 <= k < pending@.len() ==> in_range(
                        s0,
                        start as int,
                        pos as int,
                        #[trigger] pending@[k],
                    ),
                forall|q: int|
                    start <= q < pos && (#[trigger] s0[q]).used() ==> in_tail(pending@, 0, s0[q]),
                no_dup(s0) ==> forall|k1: int, k2: int|
                    0 <= k1 < k2 < pending@.len() ==> #[trigger] pending@[k1]
                        != #[trigger] pending@[k2],
                origin.len() == pending@.len(),
                forall|k: int|
                    0 <= k < origin.len() ==> start <= #[trigger] origin[k] < pos && s0[origin[k]]
                        == pending@[k],
                forall|k1: int, k2: int|
                    0 <= k1 < k2 < origin.len() ==> #[trigger] origin[k1] < #[trigger] origin[k2],
                forall|q: int|
                    start <= q < pos && (#[trigger] s0[q]).used() ==> origin.contains(q),
            decreases end - pos,
        {
            let entry = self.entries[pos];
            let ghost before = self.entries@;
            let ghost pend0 = pending@;
            let ghost origin0 = origin;
            if entry.is_used() {
                proof {
                    origin = origin.push(pos as int);
                    assert forall|q: int| start <= q < pos + 1 && (#[trigger] s0[q]).used() implies origin.contains(
                        q,
                    ) by {
                        if q < pos {
                            assert(origin0.contains(q));
                            let k = choose|k: int| 0 <= k < origin0.len() && origin0[k] == q;
                            assert(origin[k] == q);
                        } else {
                            assert(origin[origin0.len() as int] == q);
                        }
                    }
                }
                pending.push(entry);
                self.entries[pos].hash = 0;
                proof {
                    let cleared = Entry { hash: 0, data: entry.data };
                    assert(self.entries@ =~= before.update(pos as int, cleared));
                    lemma_occupancy_update(before, pos as int, cleared);
                }
                self.count -= 1;
                proof {
                    assert(pending@[pend0.len() as int] == s0[pos as int]);
                    assert forall|k: int| 0 <= k < pending@.len() implies in_range(
                        s0,
                        start as int,
                        pos as int + 1,
                        #[trigger] pending@[k],
                    ) by {
                        if k < pend0.len() {
                            assert(in_range(s0, start as int, pos as int, pend0[k]));
                            let q = choose|q: int| start <= q < pos && #[trigger] s0[q] == pend0[k];
                            assert(s0[q] == pending@[k]);
                        } else {
                            assert(s0[pos as int] == pending@[k]);
                        }
                    }
                    assert forall|q: int| start <= q < pos + 1 && (#[trigger] s0[q]).used() implies in_tail(
                        pending@,
                        0,
                        s0[q],
                    ) by {
                        if q < pos {
                            assert(in_tail(pend0, 0, s0[q]));
                            let k = choose|k: int| 0 <= k < pend0.len() && #[trigger] pend0[k] == s0[q];
                            assert(pending@[k] == s0[q]);
                        } else {
                            assert(pending@[pend0.len() as int] == s0[q]);
                        }
                    }
                    if no_dup(s0) {
                        assert forall|k1: int, k2: int|
                            0 <= k1 < k2 < pending@.len() implies #[trigger] pending@[k1]
                            != #[trigger] pending@[k2] by {
                            if k2 == pend0.len() {
                                assert(in_range(s0, start as int, pos as int, pend0[k1]));
                                let q = choose|q: int|
                                    start <= q < pos && #[trigger] s0[q] == pend0[k1];
                                assert(s0[q].used() && s0[pos as int].used());
                            } else {
                                assert(pend0[k1] != pend0[k2]);
                            }
                        }
                    }
                }
            } else {
                proof {
                    assert(self.entries@ =~= cleared_range(s0, start as int, pos as int + 1));
                    assert forall|k: int| 0 <= k < pending@.len() implies in_range(
                        s0,
                        start as int,
                        pos as int + 1,
                        #[trigger] pending@[k],
                    ) by {
                        assert(in_range(s0, start as int, pos as int, pend0[k]));
                        let q = choose|q: int| start <= q < pos && #[trigger] s0[q] == pend0[k];
                        assert(s0[q] == pending@[k]);
                    }
                }
            }
            proof {
                assert(self.entries@ =~= cleared_range(s0, start as int, pos as int + 1));
            }
            pos += 1;
        }
        proof {
            let s2 = self.entries@;
            assert forall|x: Entry| #[trigger] holds(s0, x) <==> holds(s2, x) || in_tail(
                pending@,
                0,
                x,
            ) by {
                if holds(s0, x) {
                    let q = choose|q: int| 0 <= q < s0.len() && s0[q] == x;
                    if start <= q < end {
                        assert(in_tail(pending@, 0, s0[q]));
                    } else {
                        assert(s2[q] == x);
                    }
                }
                if holds(s2, x) {
                    let q = choose|q: int| 0 <= q < s2.len() && s2[q] == x;
                    assert(s0[q] == x);
                }
                if in_tail(pending@, 0, x) {
                    let k = choose|k: int| 0 <= k < pending@.len() && #[trigger] pending@[k] == x;
                    assert(in_range(s0, start as int, end as int, pending@[k]));
                    let q = choose|q: int| start <= q < end && #[trigger] s0[q] == pending@[k];
                    assert(s0[q] == x);
                }
            }
            if distinct_all(s2, pending@, 0) {
                assert forall|a: int, b: int|
                    0 <= a < s0.len() && 0 <= b < s0.len() && a != b && (#[trigger] s0[a]).used() && (
                    #[trigger] s0[b]).used() implies s0[a] != s0[b] by {
                    let ina = start <= a < end;
                    let inb = start <= b < end;
                    if s0[a] == s0[b] {
                        if ina && inb {
                            assert(origin.contains(a) && origin.contains(b));
                            let k1 = choose|k: int| 0 <= k < origin.len() && origin[k] == a;
                            let k2 = choose|k: int| 0 <= k < origin.len() && origin[k] == b;
                            assert(pending@[k1] == pending@[k2]);
                            if k1 < k2 {
                                assert(pending@[k1] != pending@[k2]);
                            } else {
                                assert(pending@[k2] != pending@[k1]);
                            }
                        } else if ina {
                            let k1 = choose|k: int| 0 <= k < origin.len() && origin[k] == a;
                            assert(s2[b] == s0[b]);
                            assert(holds(s2, pending@[k1]));
                        } else if inb {
                            let k2 = choose|k: int| 0 <= k < origin.len() && origin[k] == b;
                            assert(s2[a] == s0[a]);
                            assert(holds(s2, pending@[k2]));
                        } else {
                            assert(s2[a] == s0[a] && s2[b] == s0[b]);
                            assert(s2[a].used() && s2[b].used());
                        }
                    }
                }
            }
            if no_dup(s0) {
                assert forall|t1: int, t2: int|
                    0 <= t1 < s2.len() && 0 <= t2 < s2.len() && t1 != t2 && (#[trigger] s2[t1]).used()
                        && (#[trigger] s2[t2]).used() implies s2[t1] != s2[t2] by {
                    assert(s2[t1] == s0[t1] && s2[t2] == s0[t2]);
                }
                assert forall|k: int| 0 <= k < pending@.len() implies !holds(
                    s2,
                    #[trigger] pending@[k],
                ) by {
                    let x = pending@[k];
                    if holds(s2, x) {
                        let t = choose|t: int| 0 <= t < s2.len() && s2[t] == x;
                        assert(in_range(s0, start as int, end as int, pending@[k]));
                        let q = choose|q: int| start <= q < end && #[trigger] s0[q] == pending@[k];
                        assert(s2[t] == s0[t]);
                        assert(t != q);
                    }
                }
            }
        }
        pending
    }

    /// Inserts the given entries one by one.
    fn put_back(&mut self, pending: Vec<Entry>)
        requires
            old(self).wf(),
            old(self).len_spec() + pending@.len() <= old(self).capacity_spec(),
            forall|k: int| 0 <= k < pending@.len() ==> (#[trigger] pending@[k]).used(),
        ensures
            final(self).wf(),
            final(self).capacity_spec() == old(self).capacity_spec(),
            final(self).mask_spec() == old(self).mask_spec(),
            final(self).len_spec() == old(self).len_spec() + pending@.len(),
            forall|x: Entry| #[trigger]
                holds(final(self).slots(), x) <==> holds(old(self).slots(), x) || in_tail(
                    pending@,
                    0,
                    x,
                ),
            distinct_all(old(self).slots(), pending@, 0) <==> no_dup(final(self).slots()),
            robin_hood(old(self).slots(), old(self).mask_of()) ==> robin_hood(
                final(self).slots(),
                final(self).mask_of(),
            ),
    {
        let ghost s0 = self.entries@;
        let ghost mask = self.mask as u64;
        let mut i: usize = 0;
        while i < pending.len()
            invariant
                i <= pending@.len(),
                self.wf(),
                self.capacity == old(self).capacity,
                self.mask == old(self).mask,
                self.mask as u64 == mask,
                self.count == old(self).count + i,
                old(self).count + pending@.len() <= old(self).capacity,
                forall|k: int| 0 <= k < pending@.len() ==> (#[trigger] pending@[k]).used(),
                forall|x: Entry| #[trigger]
                    holds(self.entries@, x) ==> holds(s0, x) || in_tail(pending@, 0, x),
                forall|x: Entry| holds(s0, x) ==> #[trigger] holds(self.entries@, x),
                forall|k: int| 0 <= k < i ==> holds(self.entries@, #[trigger] pending@[k]),
                distinct_all(s0, pending@, 0) ==> distinct_all(self.entries@, pending@, i as int),
                no_dup(self.entries@) ==> distinct_upto(s0, pending@, i as int),
                robin_hood(s0, mask) ==> robin_hood(self.entries@, mask),
            decreases pending@.len() - i,
        {
            let entry = pending[i];
            let ghost before = self.entries@;
            let never = |d: &EntryData| -> (b: bool)
                ensures
                    !b,
                { false };
            let r = self.index_set(entry.hash, never, entry.data);
            proof {
                let lr = choose|lr: LocateResult| #[trigger]
                    located(before, mask, entry.hash, never, lr) && match lr {
                        LocateResult::Found(p) => r == Some(before[p as int].data)
                            && self.entries@ == before.update(p as int, entry),
                        _ => r is None && inserted(before, self.entries@, entry),
                    };
                assert(inserted(before, self.entries@, entry));
                assert(entry == pending@[i as int]);
                assert forall|x: Entry| #[trigger] holds(self.entries@, x) implies holds(s0, x)
                    || in_tail(pending@, 0, x) by {
                    if x != entry {
                        assert(holds(before, x));
                    }
                }
                assert forall|x: Entry| holds(s0, x) implies #[trigger] holds(self.entries@, x) by {
                    assert(holds(before, x));
                }
                assert forall|k: int| 0 <= k < i + 1 implies holds(
                    self.entries@,
                    #[trigger] pending@[k],
                ) by {
                    if k < i {
                        assert(holds(before, pending@[k]));
                    }
                }
                if distinct_all(s0, pending@, 0) {
                    assert(!holds(before, pending@[i as int]));
                    assert forall|k: int| i + 1 <= k < pending@.len() implies !holds(
                        self.entries@,
                        #[trigger] pending@[k],
                    ) by {
                        assert(!holds(before, pending@[k]));
                        assert(pending@[i as int] != pending@[k]);
                    }
                }
                if no_dup(self.entries@) {
                    assert(no_dup(before) && !holds(before, entry));
                    assert(distinct_upto(s0, pending@, i as int));
                    assert forall|k: int| 0 <= k < i implies #[trigger] pending@[k]
                        != pending@[i as int] by {
                        assert(holds(before, pending@[k]));
                    }
                    assert(!holds(s0, pending@[i as int])) by {
                        if holds(s0, pending@[i as int]) {
                            assert(holds(before, pending@[i as int]));
                        }
                    }
                }
            }
            i += 1;
        }
        proof {
            assert forall|x: Entry| #[trigger]
                holds(self.entries@, x) <==> holds(s0, x) || in_tail(pending@, 0, x) by {
                if in_tail(pending@, 0, x) {
                    let k = choose|k: int| 0 <= k < pending@.len() && #[trigger] pending@[k] == x;
                    assert(holds(self.entries@, pending@[k]));
                }
            }
        }
    }

    /// Takes the entries of the slots from `start` up to `end` out and
    /// inserts them again.
    fn reinsert(&mut self, start: usize, end: usize)
        requires
            old(self).wf(),
            start <= end <= old(self).capacity_spec(),
        ensures
            final(self).wf(),
            final(self).capacity_spec() == old(self).capacity_spec(),
            final(self).mask_spec() == old(self).mask_spec(),
            final(self).len_spec() == old(self).len_spec(),
            forall|x: Entry| #[trigger]
                holds(final(self).slots(), x) <==> holds(old(self).slots(), x),
            no_dup(old(self).slots()) <==> no_dup(final(self).slots()),
            robin_hood(
                cleared_range(old(self).slots(), start as int, end as int),
                old(self).mask_of(),
            ) ==> robin_hood(final(self).slots(), final(self).mask_of()),
    {
        let ghost s0 = self.entries@;
        proof {
            lemma_occupancy_bound(s0);
        }
        let pending = self.take_out(start, end);
        let ghost s1 = self.entries@;
        self.put_back(pending);
        proof {
            assert forall|x: Entry| #[trigger] holds(self.entries@, x) <==> holds(s0, x) by {
                assert(holds(s0, x) <==> holds(s1, x) || in_tail(pending@, 0, x));
            }
        }
    }

    /// Spreads the entries over the slots after the capacity has doubled:
    /// the upper half is emptied, then every entry of the lower half is
    /// inserted again.
    pub fn grow_from_half(&mut self)
        requires
            old(self).capacity_spec() >= 2,
            old(self).slots().len() == old(self).capacity_spec(),
            old(self).mask_spec() + 1 == old(self).capacity_spec(),
            old(self).mask_of() & ((old(self).mask_of() + 1) as u64) == 0,
            old(self).mask_of() < 0x7fff_ffff_ffff_ffff,
            old(self).len_spec() == occupancy(
                old(self).slots().take(old(self).capacity_spec() as int / 2),
            ),
        ensures
            final(self).wf(),
            final(self).capacity_spec() == old(self).capacity_spec(),
            final(self).len_spec() == old(self).len_spec(),
            robin_hood(final(self).slots(), final(self).mask_of()),
            forall|x: Entry| #[trigger]
                holds(final(self).slots(), x) <==> holds(
                    old(self).slots().take(old(self).capacity_spec() as int / 2),
                    x,
                ),
            no_dup(old(self).slots().take(old(self).capacity_spec() as int / 2)) ==> no_dup(
                final(self).slots(),
            ),
            no_dup(old(self).slots().take(old(self).capacity_spec() as int / 2)) && sizes_ok(
                old(self).slots().take(old(self).capacity_spec() as int / 2),
            ) ==> final(self).valid(),
    {
        let ghost s0 = self.entries@;
        let half = self.capacity / 2;
        let ghost lower = s0.take(half as int);
        let mut pos = half;
        while pos < self.capacity
            invariant
                half <= pos <= self.capacity,
                self.capacity == old(self).capacity,
                self.mask == old(self).mask,
                self.count == old(self).count,
                self.entries@.len() == self.capacity,
                s0.len() == self.capacity,
                self.entries@ =~= cleared_range(s0, half as int, pos as int),
            decreases self.capacity - pos,
        {
            self.entries[pos].hash = 0;
            pos += 1;
        }
        let ghost s1 = self.entries@;
        proof {
            lemma_occupancy_tail_empty(s1, half as int);
            assert(s1.take(half as int) =~= lower);
            assert forall|x: Entry| #[trigger] holds(s1, x) <==> holds(lower, x) by {
                if holds(s1, x) {
                    let q = choose|q: int| 0 <= q < s1.len() && s1[q] == x;
                    assert(lower[q] == x);
                }
                if holds(lower, x) {
                    let q = choose|q: int| 0 <= q < lower.len() && lower[q] == x;
                    assert(s1[q] == x);
                }
            }
            if no_dup(lower) {
                assert forall|t1: int, t2: int|
                    0 <= t1 < s1.len() && 0 <= t2 < s1.len() && t1 != t2 && (#[trigger] s1[t1]).used()
                        && (#[trigger] s1[t2]).used() implies s1[t1] != s1[t2] by {
                    assert(s1[t1] == lower[t1] && s1[t2] == lower[t2]);
                }
            }
            lemma_empty_robin_hood(cleared_range(s1, 0, half as int), self.mask as u64);
        }
        self.reinsert(0, half);
        proof {
            let s2 = self.entries@;
            assert forall|x: Entry| #[trigger] holds(s2, x) <==> holds(lower, x) by {
                assert(holds(s2, x) <==> holds(s1, x));
                assert(holds(s1, x) <==> holds(lower, x));
            }
            if sizes_ok(lower) {
                assert forall|p: int| 0 <= p < s2.len() && (#[trigger] s2[p]).used() implies s2[p].data.key_size
                    <= s2[p].data.size by {
                    assert(holds(s2, s2[p]));
                    assert(holds(lower, s2[p]));
                    let q = choose|q: int| 0 <= q < lower.len() && lower[q] == s2[p];
                    assert(lower[q].used());
                }
            }
        }
    }

    /// Brings the entries into half the slots: those of the upper half are
    /// inserted into the lower half, the lower half is inserted again, and
    /// the upper half is dropped.
    pub fn shrink_to_half(&mut self)
        requires
            old(self).wf(),
            old(self).capacity_spec() >= 2,
            old(self).len_spec() <= old(self).capacity_spec() / 2,
        ensures
            final(self).wf(),
            final(self).capacity_spec() == old(self).capacity_spec() / 2,
            final(self).len_spec() == old(self).len_spec(),
            robin_hood(final(self).slots(), final(self).mask_of()),
            forall|x: Entry| #[trigger]
                holds(final(self).slots(), x) <==> holds(old(self).slots(), x),
            no_dup(old(self).slots()) ==> no_dup(final(self).slots()),
            old(self).valid() ==> final(self).valid(),
    {
        let ghost s0 = self.entries@;
        let half = self.capacity / 2;
        proof {
            lemma_half_mask(self.mask as u64);
        }
        let pending = self.take_out(half, self.capacity);
        let ghost s1 = self.entries@;
        self.entries.truncate(half);
        self.capacity = half;
        self.mask = half - 1;
        let ghost s2 = self.entries@;
        proof {
            lemma_occupancy_tail_empty(s1, half as int);
            assert(s2 =~= s1.take(half as int));
            assert forall|x: Entry| #[trigger] holds(s2, x) <==> holds(s1, x) by {
                if holds(s1, x) {
                    let q = choose|q: int| 0 <= q < s1.len() && s1[q] == x;
                    assert(s2[q] == x);
                }
                if holds(s2, x) {
                    let q = choose|q: int| 0 <= q < s2.len() && s2[q] == x;
                    assert(s1[q] == x);
                }
            }
            if no_dup(s0) {
                assert forall|t1: int, t2: int|
                    0 <= t1 < s2.len() && 0 <= t2 < s2.len() && t1 != t2 && (#[trigger] s2[t1]).used()
                        && (#[trigger] s2[t2]).used() implies s2[t1] != s2[t2] by {
                    assert(s2[t1] == s1[t1] && s2[t2] == s1[t2]);
                }
                assert forall|k: int| 0 <= k < pending@.len() implies !holds(
                    s2,
                    #[trigger] pending@[k],
                ) by {
                    assert(!holds(s1, pending@[k]));
                }
            }
        }
        self.put_back(pending);
        let ghost s3 = self.entries@;
        proof {
            lemma_empty_robin_hood(cleared_range(s3, 0, half as int), self.mask as u64);
        }
        self.reinsert(0, half);
        proof {
            let s4 = self.entries@;
            assert forall|x: Entry| #[trigger] holds(s4, x) <==> holds(s0, x) by {
                assert(holds(s4, x) <==> holds(s3, x));
                assert(holds(s3, x) <==> holds(s2, x) || in_tail(pending@, 0, x));
                assert(holds(s2, x) <==> holds(s1, x));
                assert(holds(s0, x) <==> holds(s1, x) || in_tail(pending@, 0, x));
            }
            if sizes_ok(s0) {
                assert forall|p: int| 0 <= p < s4.len() && (#[trigger] s4[p]).used() implies s4[p].data.key_size
                    <= s4[p].data.size by {
                    assert(holds(s4, s4[p]));
                    assert(holds(s0, s4[p]));
                    let q = choose|q: int| 0 <= q < s0.len() && s0[q] == s4[p];
                    assert(s0[q].used());
                }
            }
        }
    }

    /// Takes every entry out and inserts it again. Whatever order the
    /// entries were in, the probe-distance invariant holds afterwards.
    pub fn reinsert_all(&mut self)
        requires
            old(self).wf(),
        ensures
            final(self).wf(),
            final(self).capacity_spec() == old(self).capacity_spec(),
            final(self).len_spec() == old(self).len_spec(),
            robin_hood(final(self).slots(), final(self).mask_of()),
            forall|x: Entry| #[trigger]
                holds(final(self).slots(), x) <==> holds(old(self).slots(), x),
            no_dup(old(self).slots()) <==> no_dup(final(self).slots()),
    {
        proof {
            lemma_empty_robin_hood(
                cleared_range(self.entries@, 0, self.capacity as int),
                self.mask as u64,
            );
        }
        self.reinsert(0, self.capacity)
    }

    /// The validity predicate: the representation is sound, every entry's key
    /// is no longer than the entry, and every entry is found in its own slot
    /// by a probe for its hash that matches on equality of the stored data.
    /// The last is stated here as the two properties that it amounts to.
    pub open spec fn valid(&self) -> bool {
        &&& self.wf()
        &&& sizes_ok(self.slots())
        &&& robin_hood(self.slots(), self.mask_of())
        &&& no_dup(self.slots())
    }

    /// Checks the validity predicate.
    pub fn is_valid(&self) -> (r: bool)
        ensures
            r == self.valid(),
    {
        if self.capacity != self.entries.len() || self.capacity == 0 || self.mask != self.capacity
            - 1 {
            return false;
        }
        let m = self.mask as u64;
        if m >= 0x7fff_ffff_ffff_ffff || (m & (m + 1)) != 0 {
            return false;
        }
        let ghost s = self.entries@;
        let mut entries: usize = 0;
        let mut pos: usize = 0;
        while pos < self.capacity
            invariant
                pos <= self.capacity,
                self.capacity == s.len(),
                self.entries@ == s,
                entries == occupancy(s.take(pos as int)),
                entries <= pos,
            decreases self.capacity - pos,
        {
            proof {
                lemma_occupancy_take(s, pos as int);
            }
            if self.entries[pos].is_used() {
                entries += 1;
            }
            pos += 1;
        }
        proof {
            assert(s.take(s.len() as int) =~= s);
        }
        if entries != self.count {
            return false;
        }
        assert(self.wf());
        let mut pos: usize = 0;
        while pos < self.capacity
            invariant
                pos <= self.capacity,
                self.capacity == s.len(),
                self.entries@ == s,
                self.wf(),
                m == self.mask_of(),
                forall|p: int|
                    0 <= p < pos && (#[trigger] s[p]).used() ==> found_by_data(s, m, p)
                        && s[p].data.key_size <= s[p].data.size,
            decreases self.capacity - pos,
        {
            let entry = self.entries[pos];
            if entry.is_used() {
                if entry.data.key_size as u32 > entry.data.size {
                    return false;
                }
                let data = entry.data;
                let same = |d: &EntryData| -> (b: bool)
                    ensures
                        b == (*d == data),
                    {
                        d.position == data.position && d.size == data.size && d.key_size
                            == data.key_size && d.flags == data.flags
                    };
                let lr = self.locate(entry.hash, same);
                proof {
                    lemma_self_located(s, m, pos, same, lr);
                    lemma_valid_means_found(s, m);
                }
                match lr {
                    LocateResult::Found(p) => {
                        if p != pos {
                            return false;
                        }
                    },
                    _ => {
                        return false;
                    },
                }
            }
            pos += 1;
        }
        proof {
            lemma_valid_means_found(s, m);
        }
        true
    }

    /// Changes the number of slots: slots beyond the new capacity are
    /// dropped, new slots are empty. The count stays as it is.
    pub fn set_capacity(&mut self, capacity: usize)
        requires
            capacity > 0,
            ((capacity - 1) as u64) & (capacity as u64) == 0,
            capacity - 1 < 0x7fff_ffff_ffff_ffff,
        ensures
            final(self).capacity_spec() == capacity,
            final(self).mask_spec() + 1 == capacity,
            final(self).len_spec() == old(self).len_spec(),
            final(self).slots().len() == capacity,
            forall|i: int|
                0 <= i < capacity && i < old(self).slots().len() ==> #[trigger] final(self).slots()[i] == old(self).slots()[i],
            forall|i: int|
                old(self).slots().len() <= i < capacity ==> !(#[trigger] final(self).slots()[i]).used(),
    {
        let ghost s0 = self.entries@;
        if capacity <= self.entries.len() {
            self.entries.truncate(capacity);
        } else {
            let zero = Entry {
                hash: 0,
                data: EntryData { position: 0, size: 0, key_size: 0, flags: 0 },
            };
            while self.entries.len() < capacity
                invariant
                    s0.len() <= self.entries@.len() <= capacity,
                    self.count == old(self).count,
                    zero.hash == 0,
                    forall|i: int| 0 <= i < s0.len() ==> #[trigger] self.entries@[i] == s0[i],
                    forall|i: int|
                        s0.len() <= i < self.entries@.len() ==> !(#[trigger] self.entries@[i]).used(),
                decreases capacity - self.entries@.len(),
            {
                self.entries.push(zero);
            }
        }
        self.capacity = capacity;
        self.mask = capacity - 1;
    }
}

} // verus!
