//! Best-fit free-space manager for the data region.
//!
//! The manager tracks the used blocks of a contiguous byte region ordered by
//! start position, and the free extents between them ordered by size and
//! start position. Together they always tile the region exactly.

use vstd::prelude::*;

verus! {

/// An absolute byte position.
pub type Pos = u64;

/// A block length in bytes.
pub type Size = u32;

/// A block of the region that is handed out.
#[derive(Clone, Copy, Debug, PartialEq, Eq, PartialOrd, Ord, Structural)]
pub struct Used {
    pub start: Pos,
    pub size: Size,
    pub hash: u64,
}

impl Used {
    /// The first position behind the block.
    pub open spec fn end_spec(&self) -> int {
        self.start + self.size
    }

    pub fn end(&self) -> (r: Pos)
        requires
            self.start + self.size <= u64::MAX,
        ensures
            r == self.end_spec(),
    {
        self.start + self.size as Pos
    }
}

/// A maximal extent of the region that is not handed out.
#[derive(Clone, Copy, Debug, PartialEq, Eq, PartialOrd, Ord, Structural)]
pub struct Free {
    pub size: Size,
    pub start: Pos,
}

impl Free {
    /// The first position behind the extent.
    pub open spec fn end_spec(&self) -> int {
        self.start + self.size
    }

    pub fn end(&self) -> (r: Pos)
        requires
            self.start + self.size <= u64::MAX,
        ensures
            r == self.end_spec(),
    {
        self.start + self.size as Pos
    }
}

/// Sum of the sizes of a sequence of used blocks.
pub open spec fn sum_sizes(used: Seq<Used>) -> int
    decreases used.len(),
{
    if used.len() == 0 {
        0
    } else {
        sum_sizes(used.drop_last()) + used.last().size
    }
}

/// The order of the free extents: by size, then by start.
pub open spec fn free_before(a: Free, b: Free) -> bool {
    a.size < b.size || (a.size == b.size && a.start < b.start)
}

pub open spec fn free_sorted(free: Seq<Free>) -> bool {
    forall|i: int, j: int|
        0 <= i < j < free.len() ==> free_before(#[trigger] free[i], #[trigger] free[j])
}

pub open spec fn used_sorted(used: Seq<Used>) -> bool {
    forall|i: int, j: int|
        0 <= i < j < used.len() ==> (#[trigger] used[i]).start <= (#[trigger] used[j]).start
}

/// Number of blocks of a sorted sequence that start below `pos`.
pub open spec fn rank_of(used: Seq<Used>, pos: Pos) -> int
    decreases used.len(),
{
    if used.len() == 0 {
        0
    } else if used.last().start < pos {
        used.len() as int
    } else {
        rank_of(used.drop_last(), pos)
    }
}

/// Lower end of the `i`-th gap: the region's start, or the end of block `i - 1`.
pub open spec fn gap_lo(used: Seq<Used>, start: Pos, i: int) -> int {
    if i <= 0 {
        start as int
    } else {
        used[i - 1].end_spec()
    }
}

/// Upper end of the `i`-th gap: the start of block `i`, or the region's end.
pub open spec fn gap_hi(used: Seq<Used>, end: Pos, i: int) -> int {
    if i >= used.len() {
        end as int
    } else {
        used[i].start as int
    }
}

/// The `i`-th gap exists and is not empty.
pub open spec fn has_gap(used: Seq<Used>, start: Pos, end: Pos, i: int) -> bool {
    0 <= i <= used.len() && gap_lo(used, start, i) < gap_hi(used, end, i)
}

/// The `i`-th gap as a free extent.
pub open spec fn gap_at(used: Seq<Used>, start: Pos, end: Pos, i: int) -> Free {
    Free {
        size: (gap_hi(used, end, i) - gap_lo(used, start, i)) as Size,
        start: gap_lo(used, start, i) as Pos,
    }
}

/// `f` is one of the non-empty gaps.
pub open spec fn is_gap(used: Seq<Used>, start: Pos, end: Pos, f: Free) -> bool {
    exists|i: int| has_gap(used, start, end, i) && #[trigger] gap_at(used, start, end, i) == f
}

/// `f` is one of the non-empty gaps with an index below `n`.
pub open spec fn is_gap_below(used: Seq<Used>, start: Pos, end: Pos, f: Free, n: int) -> bool {
    exists|g: int|
        0 <= g < n && has_gap(used, start, end, g) && #[trigger] gap_at(used, start, end, g) == f
}

/// The used blocks have positive size, lie in `[start, end)` in ascending
/// order and do not overlap; the region is no longer than a block can be.
pub open spec fn layout(used: Seq<Used>, start: Pos, end: Pos) -> bool {
    &&& start <= end
    &&& end - start <= u32::MAX
    &&& forall|i: int| 0 <= i < used.len() ==> (#[trigger] used[i]).size > 0
    &&& forall|i: int|
        0 <= i <= used.len() ==> #[trigger] gap_lo(used, start, i) <= gap_hi(used, end, i)
}

/// The free extents are exactly the non-empty gaps between the used blocks.
pub open spec fn free_is_gaps(used: Seq<Used>, free: Seq<Free>, start: Pos, end: Pos) -> bool {
    &&& forall|i: int| #[trigger]
        has_gap(used, start, end, i) ==> free.contains(gap_at(used, start, end, i))
    &&& forall|j: int| 0 <= j < free.len() ==> is_gap(used, start, end, #[trigger] free[j])
}

/// Used blocks and free extents, ordered by start, tile `[start, end)`
/// without a gap, and no two free extents touch.
pub open spec fn tiles(used: Seq<Used>, free: Seq<Free>, start: Pos, end: Pos) -> bool {
    &&& layout(used, start, end)
    &&& free_sorted(free)
    &&& free_is_gaps(used, free, start, end)
}

/// Smallest `k` with `2^k >= x`, and 0 for `x == 0`.
pub open spec fn ceil_log2(x: nat) -> nat
    decreases x,
{
    if x <= 1 {
        0
    } else {
        1 + ceil_log2((x / 2 + x % 2) as nat)
    }
}

/// What an extent costs as the home of `size` bytes: how badly it fits, plus
/// how far from the front of the file it lies.
pub open spec fn penalty(f: Free, size: Size) -> nat {
    ceil_log2((f.size - size) as nat) + ceil_log2(f.start as nat)
}

/// Index of the first extent with the least penalty among the first `n`.
pub open spec fn best_index(c: Seq<Free>, size: Size, n: int) -> int
    decreases n,
{
    if n <= 1 {
        0
    } else {
        let b = best_index(c, size, n - 1);
        if penalty(c[n - 1], size) < penalty(c[b], size) {
            n - 1
        } else {
            b
        }
    }
}

/// Number of extents of a sorted sequence that are shorter than `size`.
pub open spec fn short_count(free: Seq<Free>, size: Size) -> int
    decreases free.len(),
{
    if free.len() == 0 {
        0
    } else if free.last().size < size {
        free.len() as int
    } else {
        short_count(free.drop_last(), size)
    }
}

/// The extents that are examined for a request of `size` bytes: the first
/// five, in order, that are long enough.
pub open spec fn candidates(free: Seq<Free>, size: Size) -> Seq<Free> {
    let from = short_count(free, size);
    let to = if from + 5 <= free.len() {
        from + 5
    } else {
        free.len() as int
    };
    free.subrange(from, to)
}

/// The extent that a request of `size` bytes is carved from.
pub open spec fn best_fit(free: Seq<Free>, size: Size) -> Option<Free> {
    let c = candidates(free, size);
    if c.len() == 0 {
        None
    } else {
        Some(c[best_index(c, size, c.len() as int)])
    }
}

pub proof fn lemma_gap_order(used: Seq<Used>, start: Pos, end: Pos, i: int, j: int)
    requires
        layout(used, start, end),
        0 <= i < j <= used.len(),
    ensures
        gap_hi(used, end, i) < gap_lo(used, start, j),
    decreases j - i,
{
    assert(used[i].size > 0);
    if j > i + 1 {
        lemma_gap_order(used, start, end, i, j - 1);
        assert(gap_lo(used, start, j - 1) <= gap_hi(used, end, j - 1));
        assert(used[j - 1].size > 0);
    }
}

pub proof fn lemma_gap_bounds(used: Seq<Used>, start: Pos, end: Pos, i: int)
    requires
        layout(used, start, end),
        0 <= i <= used.len(),
    ensures
        start <= gap_lo(used, start, i) <= gap_hi(used, end, i) <= end,
{
    assert(gap_lo(used, start, i) <= gap_hi(used, end, i));
    assert(gap_lo(used, start, 0) <= gap_hi(used, end, 0));
    assert(gap_lo(used, start, used.len() as int) <= gap_hi(used, end, used.len() as int));
    if i > 0 {
        lemma_gap_order(used, start, end, 0, i);
    }
    if i < used.len() {
        lemma_gap_order(used, start, end, i, used.len() as int);
    }
}

/// Blocks of a layout start in strictly ascending order and do not overlap.
pub proof fn lemma_layout_disjoint(used: Seq<Used>, start: Pos, end: Pos, i: int, j: int)
    requires
        layout(used, start, end),
        0 <= i < j < used.len(),
    ensures
        used[i].end_spec() <= used[j].start,
        start <= used[i].start,
        used[j].end_spec() <= end,
{
    lemma_gap_bounds(used, start, end, i);
    lemma_gap_bounds(used, start, end, j + 1);
    lemma_gap_bounds(used, start, end, j);
    if j > i + 1 {
        lemma_gap_order(used, start, end, i + 1, j);
        lemma_gap_bounds(used, start, end, i + 1);
    }
    assert(used[i].size > 0);
}

pub proof fn lemma_layout_sorted(used: Seq<Used>, start: Pos, end: Pos)
    requires
        layout(used, start, end),
    ensures
        used_sorted(used),
        forall|i: int|
            0 <= i < used.len() ==> start <= (#[trigger] used[i]).start && used[i].end_spec()
                <= end,
{
    assert forall|i: int, j: int| 0 <= i < j < used.len() implies (#[trigger] used[i]).start <= (
    #[trigger] used[j]).start by {
        lemma_layout_disjoint(used, start, end, i, j);
    }
    assert forall|i: int| 0 <= i < used.len() implies start <= (#[trigger] used[i]).start
        && used[i].end_spec() <= end by {
        lemma_gap_bounds(used, start, end, i);
        lemma_gap_bounds(used, start, end, i + 1);
    }
}

pub proof fn lemma_total_push(used: Seq<Used>, u: Used)
    ensures
        sum_sizes(used.push(u)) == sum_sizes(used) + u.size,
{
    assert(used.push(u).drop_last() =~= used);
}

pub proof fn lemma_total_insert(used: Seq<Used>, k: int, u: Used)
    requires
        0 <= k <= used.len(),
    ensures
        sum_sizes(used.insert(k, u)) == sum_sizes(used) + u.size,
    decreases used.len(),
{
    if k == used.len() {
        assert(used.insert(k, u) =~= used.push(u));
        lemma_total_push(used, u);
    } else {
        let s = used.insert(k, u);
        assert(s.last() == used.last());
        assert(s.drop_last() =~= used.drop_last().insert(k, u));
        lemma_total_insert(used.drop_last(), k, u);
    }
}

pub proof fn lemma_total_remove(used: Seq<Used>, k: int)
    requires
        0 <= k < used.len(),
    ensures
        sum_sizes(used.remove(k)) == sum_sizes(used) - used[k].size,
    decreases used.len(),
{
    if k == used.len() - 1 {
        assert(used.remove(k) =~= used.drop_last());
    } else {
        let s = used.remove(k);
        assert(s.last() == used.last());
        assert(s.drop_last() =~= used.drop_last().remove(k));
        lemma_total_remove(used.drop_last(), k);
    }
}

/// The blocks before the `i`-th gap fit between the region's start and that gap.
pub proof fn lemma_total_bound(used: Seq<Used>, start: Pos, end: Pos, i: int)
    requires
        layout(used, start, end),
        0 <= i <= used.len(),
    ensures
        0 <= sum_sizes(used.take(i)) <= gap_lo(used, start, i) - start,
    decreases i,
{
    if i > 0 {
        lemma_total_bound(used, start, end, i - 1);
        assert(used.take(i).drop_last() =~= used.take(i - 1));
        assert(used.take(i).last() == used[i - 1]);
        assert(gap_lo(used, start, i - 1) <= gap_hi(used, end, i - 1));
    }
}

pub proof fn lemma_total_le_region(used: Seq<Used>, start: Pos, end: Pos)
    requires
        layout(used, start, end),
    ensures
        0 <= sum_sizes(used) <= end - start,
{
    lemma_total_bound(used, start, end, used.len() as int);
    assert(used.take(used.len() as int) =~= used);
    lemma_gap_bounds(used, start, end, used.len() as int);
}

/// In a sorted sequence the rank of `pos` is the one index that splits the
/// blocks starting below `pos` from the others.
pub proof fn lemma_rank_of(used: Seq<Used>, pos: Pos, k: int)
    requires
        used_sorted(used),
        0 <= k <= used.len(),
        forall|i: int| 0 <= i < k ==> (#[trigger] used[i]).start < pos,
        forall|i: int| k <= i < used.len() ==> (#[trigger] used[i]).start >= pos,
    ensures
        rank_of(used, pos) == k,
    decreases used.len(),
{
    if used.len() > 0 && !(used.last().start < pos) {
        lemma_rank_of(used.drop_last(), pos, k);
    }
}

pub proof fn lemma_short_count(free: Seq<Free>, size: Size, k: int)
    requires
        0 <= k <= free.len(),
        forall|i: int| 0 <= i < k ==> (#[trigger] free[i]).size < size,
        forall|i: int| k <= i < free.len() ==> (#[trigger] free[i]).size >= size,
    ensures
        short_count(free, size) == k,
    decreases free.len(),
{
    if free.len() > 0 && !(free.last().size < size) {
        lemma_short_count(free.drop_last(), size, k);
    }
}

/// Computes `ceil_log2`.
pub fn log2_ceil(x: u64) -> (k: u32)
    ensures
        k == ceil_log2(x as nat),
        k <= 64,
{
    let mut y: u64 = x;
    let mut k: u32 = 0;
    assert(pow2_bound(64) == 0x1_0000_0000_0000_0000) by {
        reveal_with_fuel(pow2_bound, 65);
    }
    while y > 1
        invariant
            ceil_log2(x as nat) == k + ceil_log2(y as nat),
            k <= 64,
            (y as int) <= pow2_bound(64 - k as int),
        decreases y,
    {
        proof {
            lemma_pow2_bound_step(64 - k as int, y as int);
        }
        y = y / 2 + y % 2;
        k = k + 1;
    }
    k
}

/// `2^n` for `0 <= n`, and 1 below.
pub open spec fn pow2_bound(n: int) -> int
    decreases n,
{
    if n <= 0 {
        1
    } else {
        2 * pow2_bound(n - 1)
    }
}

proof fn lemma_pow2_bound_step(n: int, y: int)
    requires
        1 < y <= pow2_bound(n),
    ensures
        n >= 1,
        y / 2 + y % 2 <= pow2_bound(n - 1),
{
}


/// How the gaps change when a block is put at the front of the `k`-th gap.
pub proof fn lemma_gaps_after_insert(used: Seq<Used>, start: Pos, end: Pos, k: int, u: Used)
    requires
        layout(used, start, end),
        0 <= k <= used.len(),
        u.start == gap_lo(used, start, k),
        u.size > 0,
        u.end_spec() <= gap_hi(used, end, k),
    ensures
        layout(used.insert(k, u), start, end),
        forall|i: int|
            0 <= i < k ==> #[trigger] gap_lo(used.insert(k, u), start, i) == gap_lo(
                used,
                start,
                i,
            ) && gap_hi(used.insert(k, u), end, i) == gap_hi(used, end, i),
        gap_lo(used.insert(k, u), start, k) == gap_hi(used.insert(k, u), end, k),
        gap_lo(used.insert(k, u), start, k + 1) == u.end_spec(),
        gap_hi(used.insert(k, u), end, k + 1) == gap_hi(used, end, k),
        forall|i: int|
            k + 1 < i <= used.len() + 1 ==> #[trigger] gap_lo(used.insert(k, u), start, i)
                == gap_lo(used, start, i - 1) && gap_hi(used.insert(k, u), end, i) == gap_hi(
                used,
                end,
                i - 1,
            ),
{
    let s = used.insert(k, u);
    used.insert_ensures(k, u);
    assert forall|i: int| k + 1 < i <= used.len() + 1 implies #[trigger] gap_lo(s, start, i)
        == gap_lo(used, start, i - 1) && gap_hi(s, end, i) == gap_hi(used, end, i - 1) by {
        assert(s[(i - 2) + 1] == used[i - 2]);
        if i < s.len() {
            assert(s[(i - 1) + 1] == used[i - 1]);
        }
    }
    if k < used.len() {
        assert(s[k + 1] == used[k]);
    }
    assert forall|i: int| 0 <= i < s.len() implies (#[trigger] s[i]).size > 0 by {
        if i > k {
            assert(s[(i - 1) + 1] == used[i - 1]);
        }
    }
    assert forall|i: int| 0 <= i <= s.len() implies #[trigger] gap_lo(s, start, i) <= gap_hi(
        s,
        end,
        i,
    ) by {
        if i < k {
            assert(gap_lo(used, start, i) <= gap_hi(used, end, i));
        } else if i == k {
        } else if i == k + 1 {
        } else {
            assert(gap_lo(used, start, i - 1) <= gap_hi(used, end, i - 1));
        }
    }
}

/// How the gaps change when the `k`-th block is taken out.
pub proof fn lemma_gaps_after_remove(used: Seq<Used>, start: Pos, end: Pos, k: int)
    requires
        layout(used, start, end),
        0 <= k < used.len(),
    ensures
        layout(used.remove(k), start, end),
        forall|i: int|
            0 <= i < k ==> #[trigger] gap_lo(used.remove(k), start, i) == gap_lo(used, start, i)
                && gap_hi(used.remove(k), end, i) == gap_hi(used, end, i),
        gap_lo(used.remove(k), start, k) == gap_lo(used, start, k),
        gap_hi(used.remove(k), end, k) == gap_hi(used, end, k + 1),
        forall|i: int|
            k < i <= used.len() - 1 ==> #[trigger] gap_lo(used.remove(k), start, i) == gap_lo(
                used,
                start,
                i + 1,
            ) && gap_hi(used.remove(k), end, i) == gap_hi(used, end, i + 1),
{
    let s = used.remove(k);
    used.remove_ensures(k);
    assert forall|i: int| 0 <= i < s.len() implies (#[trigger] s[i]).size > 0 by {
        if i >= k {
            assert(s[i] == used[i + 1]);
        }
    }
    lemma_gap_order(used, start, end, k, k + 1);
    assert forall|i: int| 0 <= i <= s.len() implies #[trigger] gap_lo(s, start, i) <= gap_hi(
        s,
        end,
        i,
    ) by {
        if i < k {
            assert(gap_lo(used, start, i) <= gap_hi(used, end, i));
        } else if i == k {
            assert(gap_lo(used, start, k) <= gap_hi(used, end, k));
            assert(gap_lo(used, start, k + 1) <= gap_hi(used, end, k + 1));
        } else {
            assert(gap_lo(used, start, i + 1) <= gap_hi(used, end, i + 1));
        }
    }
}

/// Two non-empty gaps with the same lower end are the same gap.
pub proof fn lemma_gap_unique(used: Seq<Used>, start: Pos, end: Pos, i: int, j: int)
    requires
        layout(used, start, end),
        0 <= i <= used.len(),
        0 <= j <= used.len(),
        gap_lo(used, start, i) == gap_lo(used, start, j),
    ensures
        i == j,
{
    if i < j {
        lemma_gap_order(used, start, end, i, j);
        assert(gap_lo(used, start, i) <= gap_hi(used, end, i));
    }
    if j < i {
        lemma_gap_order(used, start, end, j, i);
        assert(gap_lo(used, start, j) <= gap_hi(used, end, j));
    }
}

/// A gap's extent has the gap's ends.
pub proof fn lemma_gap_at(used: Seq<Used>, start: Pos, end: Pos, i: int)
    requires
        layout(used, start, end),
        0 <= i <= used.len(),
    ensures
        gap_at(used, start, end, i).start == gap_lo(used, start, i),
        gap_at(used, start, end, i).size == gap_hi(used, end, i) - gap_lo(used, start, i),
{
    lemma_gap_bounds(used, start, end, i);
}

/// The rank of a gap's lower end is the gap's index.
pub proof fn lemma_gap_rank(used: Seq<Used>, start: Pos, end: Pos, g: int)
    requires
        layout(used, start, end),
        has_gap(used, start, end, g),
    ensures
        rank_of(used, gap_lo(used, start, g) as Pos) == g,
{
    lemma_layout_sorted(used, start, end);
    lemma_gap_bounds(used, start, end, g);
    let pos = gap_lo(used, start, g) as Pos;
    assert forall|i: int| 0 <= i < g implies (#[trigger] used[i]).start < pos by {
        lemma_gap_order(used, start, end, i, g);
    }
    assert forall|i: int| g <= i < used.len() implies (#[trigger] used[i]).start >= pos by {
        if i > g {
            lemma_gap_order(used, start, end, g, i);
            assert(gap_lo(used, start, i) <= gap_hi(used, end, i));
        }
    }
    lemma_rank_of(used, pos, g);
}

fn is_before(a: &Free, b: &Free) -> (r: bool)
    ensures
        r == free_before(*a, *b),
{
    a.size < b.size || (a.size == b.size && a.start < b.start)
}

/// Index of the first block that does not start below `pos`.
fn used_rank(used: &Vec<Used>, pos: Pos) -> (k: usize)
    requires
        used_sorted(used@),
    ensures
        k <= used.len(),
        k == rank_of(used@, pos),
        forall|i: int| 0 <= i < k ==> (#[trigger] used@[i]).start < pos,
        forall|i: int| k <= i < used.len() ==> (#[trigger] used@[i]).start >= pos,
{
    let mut lo: usize = 0;
    let mut hi: usize = used.len();
    while lo < hi
        invariant
            lo <= hi <= used.len(),
            used_sorted(used@),
            forall|i: int| 0 <= i < lo ==> (#[trigger] used@[i]).start < pos,
            forall|i: int| hi <= i < used.len() ==> (#[trigger] used@[i]).start >= pos,
        decreases hi - lo,
    {
        let mid = lo + (hi - lo) / 2;
        if used[mid].start < pos {
            assert forall|i: int| 0 <= i < mid + 1 implies (#[trigger] used@[i]).start < pos by {
                if i < mid {
                    assert(used@[i].start <= used@[mid as int].start);
                }
            }
            lo = mid + 1;
        } else {
            assert forall|i: int| mid <= i < used.len() implies (#[trigger] used@[i]).start
                >= pos by {
                if i > mid {
                    assert(used@[mid as int].start <= used@[i].start);
                }
            }
            hi = mid;
        }
    }
    proof {
        lemma_rank_of(used@, pos, lo as int);
    }
    lo
}

/// Index of the first extent that does not come before `f`.
fn free_rank(free: &Vec<Free>, f: &Free) -> (k: usize)
    requires
        free_sorted(free@),
    ensures
        k <= free.len(),
        forall|i: int| 0 <= i < k ==> free_before(#[trigger] free@[i], *f),
        forall|i: int| k <= i < free.len() ==> !free_before(#[trigger] free@[i], *f),
{
    let mut lo: usize = 0;
    let mut hi: usize = free.len();
    while lo < hi
        invariant
            lo <= hi <= free.len(),
            free_sorted(free@),
            forall|i: int| 0 <= i < lo ==> free_before(#[trigger] free@[i], *f),
            forall|i: int| hi <= i < free.len() ==> !free_before(#[trigger] free@[i], *f),
        decreases hi - lo,
    {
        let mid = lo + (hi - lo) / 2;
        if is_before(&free[mid], f) {
            assert forall|i: int| 0 <= i < mid + 1 implies free_before(#[trigger] free@[i], *f) by {
                if i < mid {
                    assert(free_before(free@[i], free@[mid as int]));
                }
            }
            lo = mid + 1;
        } else {
            assert forall|i: int| mid <= i < free.len() implies !free_before(
                #[trigger] free@[i],
                *f,
            ) by {
                if i > mid {
                    assert(free_before(free@[mid as int], free@[i]));
                }
            }
            hi = mid;
        }
    }
    lo
}

/// Index of the first extent that is at least `size` long.
fn short_rank(free: &Vec<Free>, size: Size) -> (k: usize)
    requires
        free_sorted(free@),
    ensures
        k <= free.len(),
        k == short_count(free@, size),
        forall|i: int| 0 <= i < k ==> (#[trigger] free@[i]).size < size,
        forall|i: int| k <= i < free.len() ==> (#[trigger] free@[i]).size >= size,
{
    let probe = Free { size, start: 0 };
    let k = free_rank(free, &probe);
    proof {
        assert forall|i: int| 0 <= i < k implies (#[trigger] free@[i]).size < size by {
            assert(free_before(free@[i], probe));
        }
        assert forall|i: int| k <= i < free.len() implies (#[trigger] free@[i]).size >= size by {
            assert(!free_before(free@[i], probe));
        }
        lemma_short_count(free@, size, k as int);
    }
    k
}

/// Puts `f` at its place in the order.
fn insert_free(free: &mut Vec<Free>, f: Free)
    requires
        free_sorted(old(free)@),
        !old(free)@.contains(f),
    ensures
        free_sorted(final(free)@),
        final(free)@.len() == old(free)@.len() + 1,
        forall|g: Free| #[trigger] final(free)@.contains(g) <==> (g == f || old(free)@.contains(g)),
{
    let k = free_rank(free, &f);
    let ghost s = free@;
    free.insert(k, f);
    proof {
        let t = free@;
        s.insert_ensures(k as int, f);
        assert forall|i: int| k < i < t.len() implies #[trigger] t[i] == s[i - 1] by {
            assert(t[(i - 1) + 1] == s[i - 1]);
        }
        assert forall|i: int, j: int| 0 <= i < j < t.len() implies free_before(
            #[trigger] t[i],
            #[trigger] t[j],
        ) by {
            if j == k {
            } else if i == k {
                assert(!free_before(s[j - 1], f));
                assert(s.contains(s[j - 1]));
            } else if i < k && j < k {
                assert(free_before(s[i], s[j]));
            } else if i < k {
                assert(free_before(s[i], f));
                assert(!free_before(s[j - 1], f));
            } else {
                assert(free_before(s[i - 1], s[j - 1]));
            }
        }
        assert forall|g: Free| #[trigger] t.contains(g) <==> (g == f || s.contains(g)) by {
            if t.contains(g) {
                let i = choose|i: int| 0 <= i < t.len() && t[i] == g;
                if i < k {
                    assert(s[i] == g);
                } else if i > k {
                    assert(s[i - 1] == g);
                }
            }
            if g == f {
                assert(t[k as int] == g);
            }
            if s.contains(g) {
                let i = choose|i: int| 0 <= i < s.len() && s[i] == g;
                if i < k {
                    assert(t[i] == g);
                } else {
                    assert(t[i + 1] == g);
                }
            }
        }
    }
}

/// Takes the extent at `idx` out.
fn remove_free_at(free: &mut Vec<Free>, idx: usize) -> (f: Free)
    requires
        free_sorted(old(free)@),
        idx < old(free)@.len(),
    ensures
        f == old(free)@[idx as int],
        free_sorted(final(free)@),
        final(free)@.len() == old(free)@.len() - 1,
        forall|g: Free| #[trigger] final(free)@.contains(g) <==> (g != f && old(free)@.contains(g)),
{
    let ghost s = free@;
    let f = free.remove(idx);
    proof {
        let t = free@;
        s.remove_ensures(idx as int);
        assert forall|i: int, j: int| 0 <= i < j < t.len() implies free_before(
            #[trigger] t[i],
            #[trigger] t[j],
        ) by {
            let a = if i < idx { i } else { i + 1 };
            let b = if j < idx { j } else { j + 1 };
            assert(free_before(s[a], s[b]));
        }
        assert forall|g: Free| #[trigger] t.contains(g) <==> (g != f && s.contains(g)) by {
            if t.contains(g) {
                let i = choose|i: int| 0 <= i < t.len() && t[i] == g;
                let a = if i < idx { i } else { i + 1 };
                assert(s[a] == g);
                if a < idx {
                    assert(free_before(s[a], s[idx as int]));
                } else {
                    assert(free_before(s[idx as int], s[a]));
                }
            }
            if g != f && s.contains(g) {
                let i = choose|i: int| 0 <= i < s.len() && s[i] == g;
                if i < idx {
                    assert(t[i] == g);
                } else {
                    assert(t[i - 1] == g);
                }
            }
        }
    }
    f
}

/// Takes `f` out, if it is there.
fn remove_free(free: &mut Vec<Free>, f: Free) -> (r: bool)
    requires
        free_sorted(old(free)@),
    ensures
        r == old(free)@.contains(f),
        free_sorted(final(free)@),
        r ==> final(free)@.len() == old(free)@.len() - 1,
        !r ==> final(free)@ == old(free)@,
        forall|g: Free| #[trigger] final(free)@.contains(g) <==> (g != f && old(free)@.contains(g)),
{
    let k = free_rank(free, &f);
    proof {
        if free@.contains(f) {
            let i = choose|i: int| 0 <= i < free@.len() && free@[i] == f;
            if i < k {
                assert(free_before(free@[i], f));
            }
            if k < i {
                assert(free_before(free@[k as int], free@[i]));
                assert(!free_before(free@[k as int], f));
            }
            assert(i == k);
        }
    }
    if k < free.len() && free[k].size == f.size && free[k].start == f.start {
        remove_free_at(free, k);
        true
    } else {
        false
    }
}

fn penalty_of(f: &Free, size: Size) -> (p: u32)
    requires
        f.size >= size,
    ensures
        p == penalty(*f, size),
{
    log2_ceil((f.size - size) as u64) + log2_ceil(f.start)
}

/// The size that is reserved for a request of `size` bytes.
pub open spec fn at_least_one(size: Size) -> Size {
    if size == 0 {
        1
    } else {
        size
    }
}

/// The data region's allocator.
///
/// The size of an extent is a 32-bit number, and the free space of a whole
/// region can be one extent: a region is at most `u32::MAX` bytes long.
/// `new`, `set_start`, `set_end` and `clear` ask that of the region that
/// they are to manage. Making a region smaller always meets it.
pub struct MemoryManagment {
    start: Pos,
    end: Pos,
    used: Vec<Used>,
    free: Vec<Free>,
    used_size: u64,
}

impl MemoryManagment {
    /// The used blocks, ordered by start.
    pub closed spec fn used_view(&self) -> Seq<Used> {
        self.used@
    }

    /// The free extents, ordered by size, then start.
    pub closed spec fn free_view(&self) -> Seq<Free> {
        self.free@
    }

    pub closed spec fn start_spec(&self) -> Pos {
        self.start
    }

    pub closed spec fn end_spec(&self) -> Pos {
        self.end
    }

    pub closed spec fn used_size_spec(&self) -> u64 {
        self.used_size
    }

    /// The validity predicate: every extent has positive size, the blocks
    /// tile the region, and the counter holds the sum of the used sizes.
    pub open spec fn valid(&self) -> bool {
        &&& tiles(self.used_view(), self.free_view(), self.start_spec(), self.end_spec())
        &&& self.used_size_spec() == sum_sizes(self.used_view())
    }

    /// The state while used blocks are being loaded: they are kept in
    /// ascending order of their start, nothing more.
    pub open spec fn loading(&self) -> bool {
        used_sorted(self.used_view())
    }

    /// A manager of the region `[start, end)` with nothing handed out.
    pub fn new(start: Pos, end: Pos) -> (r: Self)
        requires
            start <= end,
            end - start <= u32::MAX,
        ensures
            r.valid(),
            r.start_spec() == start,
            r.end_spec() == end,
            r.used_view() == Seq::<Used>::empty(),
            r.used_size_spec() == 0,
    {
        let mut free: Vec<Free> = Vec::new();
        if start != end {
            free.push(Free { start, size: (end - start) as Size });
        }
        let r = Self { start, end, used: Vec::new(), free, used_size: 0 };
        proof {
            let u = r.used@;
            assert(gap_lo(u, start, 0) == start);
            assert(gap_hi(u, end, 0) == end);
            if start != end {
                assert(has_gap(u, start, end, 0));
                assert(r.free@[0] == gap_at(u, start, end, 0));
            }
        }
        r
    }

    /// Records a block as used while loading. Call `fix_up` when all are in.
    pub fn set_used(&mut self, start: Pos, size: Size, hash: u64)
        requires
            old(self).loading(),
        ensures
            final(self).loading(),
            final(self).start_spec() == old(self).start_spec(),
            final(self).end_spec() == old(self).end_spec(),
            final(self).used_view() == old(self).used_view().insert(
                rank_of(old(self).used_view(), start),
                Used { start, size: at_least_one(size), hash },
            ),
    {
        let k = used_rank(&self.used, start);
        let ghost s = self.used@;
        let u = Used { start, size: if size == 0 { 1 } else { size }, hash };
        self.used.insert(k, u);
        proof {
            let t = self.used@;
            s.insert_ensures(k as int, u);
            assert forall|i: int| k < i < t.len() implies #[trigger] t[i] == s[i - 1] by {
                assert(t[(i - 1) + 1] == s[i - 1]);
            }
            assert forall|i: int, j: int| 0 <= i < j < t.len() implies (#[trigger] t[i]).start <= (
            #[trigger] t[j]).start by {
                if i < k && j < k {
                    assert(s[i].start <= s[j].start);
                } else if i < k && j > k {
                    assert(s[i].start < start);
                    assert(s[j - 1].start >= start);
                } else if i > k {
                    assert(s[i - 1].start <= s[j - 1].start);
                } else if i == k {
                    assert(s[j - 1].start >= start);
                } else {
                    assert(s[i].start < start);
                }
            }
        }
    }

    /// Rebuilds the free extents and the counter from the used blocks.
    pub fn fix_up(&mut self)
        requires
            layout(old(self).used_view(), old(self).start_spec(), old(self).end_spec()),
        ensures
            final(self).valid(),
            final(self).start_spec() == old(self).start_spec(),
            final(self).end_spec() == old(self).end_spec(),
            final(self).used_view() == old(self).used_view(),
    {
        self.free.clear();
        self.used_size = 0;
        let mut last_end = self.start;
        let mut i: usize = 0;
        let ghost u = self.used@;
        let ghost start = self.start;
        let ghost end = self.end;
        while i < self.used.len()
            invariant
                i <= u.len(),
                self.used@ == u,
                self.start == start,
                self.end == end,
                layout(u, start, end),
                last_end == gap_lo(u, start, i as int),
                self.used_size == sum_sizes(u.take(i as int)),
                free_sorted(self.free@),
                forall|j: int|
                    0 <= j < i && #[trigger] has_gap(u, start, end, j) ==> self.free@.contains(
                        gap_at(u, start, end, j),
                    ),
                forall|j: int|
                    0 <= j < self.free@.len() ==> is_gap_below(
                        u,
                        start,
                        end,
                        #[trigger] self.free@[j],
                        i as int,
                    ),
            decreases u.len() - i,
        {
            let used = self.used[i];
            proof {
                lemma_total_bound(u, start, end, i as int + 1);
                assert(u.take(i as int + 1).drop_last() =~= u.take(i as int));
                lemma_gap_bounds(u, start, end, i as int);
                lemma_gap_bounds(u, start, end, i as int + 1);
            }
            self.used_size += used.size as u64;
            let ghost before = self.free@;
            if used.start != last_end {
                let f = Free { size: (used.start - last_end) as Size, start: last_end };
                proof {
                    lemma_fresh_gap(u, start, end, before, i as int, f);
                }
                insert_free(&mut self.free, f);
            }
            proof {
                assert forall|j: int| 0 <= j < self.free@.len() implies is_gap_below(
                    u,
                    start,
                    end,
                    #[trigger] self.free@[j],
                    i as int + 1,
                ) by {
                    let x = self.free@[j];
                    assert(self.free@.contains(x));
                    if before.contains(x) {
                        let j0 = choose|j0: int| 0 <= j0 < before.len() && before[j0] == x;
                        assert(is_gap_below(u, start, end, before[j0], i as int));
                    } else {
                        lemma_gap_at(u, start, end, i as int);
                        assert(has_gap(u, start, end, i as int));
                        assert(gap_at(u, start, end, i as int) == x);
                    }
                }
                assert forall|j: int|
                    0 <= j < i + 1 && #[trigger] has_gap(
                        u,
                        start,
                        end,
                        j,
                    ) implies self.free@.contains(gap_at(u, start, end, j)) by {
                    if j < i {
                        assert(before.contains(gap_at(u, start, end, j)));
                    } else {
                        lemma_gap_at(u, start, end, i as int);
                    }
                }
            }
            last_end = used.start + used.size as u64;
            i += 1;
        }
        proof {
            assert(u.take(u.len() as int) =~= u);
            lemma_gap_bounds(u, start, end, u.len() as int);
        }
        let ghost before = self.free@;
        if last_end != self.end {
            let f = Free { size: (self.end - last_end) as Size, start: last_end };
            proof {
                lemma_fresh_gap(u, start, end, before, u.len() as int, f);
            }
            insert_free(&mut self.free, f);
        }
        proof {
            let n = u.len() as int;
            assert forall|j: int| 0 <= j < self.free@.len() implies is_gap(
                u,
                start,
                end,
                #[trigger] self.free@[j],
            ) by {
                let x = self.free@[j];
                assert(self.free@.contains(x));
                if before.contains(x) {
                    let j0 = choose|j0: int| 0 <= j0 < before.len() && before[j0] == x;
                    assert(is_gap_below(u, start, end, before[j0], n));
                } else {
                    lemma_gap_at(u, start, end, n);
                    assert(has_gap(u, start, end, n));
                    assert(gap_at(u, start, end, n) == x);
                }
            }
            assert forall|j: int| #[trigger]
                has_gap(u, start, end, j) implies self.free@.contains(gap_at(u, start, end, j)) by {
                if j < n {
                    assert(before.contains(gap_at(u, start, end, j)));
                } else {
                    lemma_gap_at(u, start, end, n);
                }
            }
        }
    }

    /// Reserves `size` bytes, at least one, in the extent that fits best.
    #[verifier::rlimit(50)]
    pub fn allocate(&mut self, size: Size, hash: u64) -> (r: Option<Pos>)
        requires
            old(self).valid(),
        ensures
            final(self).valid(),
            final(self).start_spec() == old(self).start_spec(),
            final(self).end_spec() == old(self).end_spec(),
            r == match best_fit(old(self).free_view(), at_least_one(size)) {
                Some(f) => Some(f.start),
                None => None,
            },
            r matches Some(pos) ==> {
                &&& final(self).used_view() == old(self).used_view().insert(
                    rank_of(old(self).used_view(), pos),
                    Used { start: pos, size: at_least_one(size), hash },
                )
                &&& final(self).used_size_spec() == old(self).used_size_spec() + at_least_one(size)
            },
            r is None ==> {
                &&& final(self).used_view() == old(self).used_view()
                &&& final(self).free_view() == old(self).free_view()
                &&& final(self).used_size_spec() == old(self).used_size_spec()
            },
    {
        let size: Size = if size == 0 { 1 } else { size };
        let from = short_rank(&self.free, size);
        let n = self.free.len();
        if from >= n {
            return None;
        }
        let to: usize = if n - from >= 5 { from + 5 } else { n };
        let ghost c = candidates(self.free@, size);
        assert(c == self.free@.subrange(from as int, to as int));
        let mut best: usize = from;
        let mut best_penalty = penalty_of(&self.free[from], size);
        let mut i: usize = from + 1;
        while i < to
            invariant
                from < i <= to <= self.free@.len(),
                from <= best < i,
                c == self.free@.subrange(from as int, to as int),
                forall|j: int| from <= j < self.free@.len() ==> (#[trigger] self.free@[j]).size >= size,
                best - from == best_index(c, size, i - from),
                best_penalty == penalty(self.free@[best as int], size),
            decreases to - i,
        {
            let p = penalty_of(&self.free[i], size);
            proof {
                assert(c[i - from] == self.free@[i as int]);
                assert(c[best - from] == self.free@[best as int]);
            }
            if p < best_penalty {
                best = i;
                best_penalty = p;
            }
            i += 1;
        }
        let ghost used0 = self.used@;
        let ghost free0 = self.free@;
        let f = self.free[best];
        proof {
            assert(c[best - from] == f);
            assert(best_fit(free0, size) == Some(f));
            assert(free0.contains(f));
        }
        let ghost g = gap_index_of(used0, free0, self.start, self.end, f);
        remove_free_at(&mut self.free, best);
        if f.size > size {
            let rest = Free { size: f.size - size, start: f.start + size as Pos };
            proof {
                if self.free@.contains(rest) {
                    let w = gap_index_of(used0, free0, self.start, self.end, rest);
                    lemma_gap_inside(used0, self.start, self.end, g, w);
                }
            }
            insert_free(&mut self.free, rest);
        }
        proof {
            lemma_layout_sorted(used0, self.start, self.end);
            lemma_gap_rank(used0, self.start, self.end, g);
        }
        let k = used_rank(&self.used, f.start);
        let u = Used { start: f.start, size, hash };
        self.used.insert(k, u);
        proof {
            lemma_total_insert(used0, k as int, u);
            lemma_allocate_tiles(used0, free0, self.start, self.end, g, u, self.free@);
            lemma_total_le_region(self.used@, self.start, self.end);
        }
        self.used_size += size as u64;
        Some(f.start)
    }

    /// Releases the block that starts at `pos` and merges the space with the
    /// free extents on either side. Says whether there was such a block.
    #[verifier::rlimit(50)]
    pub fn free(&mut self, pos: Pos) -> (r: bool)
        requires
            old(self).valid(),
        ensures
            final(self).valid(),
            final(self).start_spec() == old(self).start_spec(),
            final(self).end_spec() == old(self).end_spec(),
            r == starts_block(old(self).used_view(), pos),
            r ==> {
                let k = rank_of(old(self).used_view(), pos);
                &&& 0 <= k < old(self).used_view().len()
                &&& old(self).used_view()[k].start == pos
                &&& final(self).used_view() == old(self).used_view().remove(k)
                &&& final(self).used_size_spec() == old(self).used_size_spec() - old(self).used_view()[k].size
            },
            !r ==> {
                &&& final(self).used_view() == old(self).used_view()
                &&& final(self).free_view() == old(self).free_view()
                &&& final(self).used_size_spec() == old(self).used_size_spec()
            },
    {
        proof {
            lemma_layout_sorted(self.used@, self.start, self.end);
        }
        let k = used_rank(&self.used, pos);
        if k >= self.used.len() || self.used[k].start != pos {
            proof {
                if starts_block(self.used@, pos) {
                    let i = choose|i: int| 0 <= i < self.used@.len() && self.used@[i].start == pos;
                    if i > k {
                        assert(self.used@[k as int].start <= self.used@[i].start);
                    }
                }
            }
            return false;
        }
        let ghost used0 = self.used@;
        let ghost free0 = self.free@;
        let ghost start = self.start;
        let ghost end = self.end;
        let used = self.used.remove(k);
        proof {
            lemma_total_remove(used0, k as int);
            lemma_gaps_after_remove(used0, start, end, k as int);
            lemma_total_le_region(self.used@, start, end);
            lemma_gap_bounds(used0, start, end, k as int);
            lemma_gap_bounds(used0, start, end, k as int + 1);
            lemma_gap_bounds(self.used@, start, end, k as int);
            lemma_gap_at(used0, start, end, k as int);
            lemma_gap_at(used0, start, end, k as int + 1);
        }
        self.used_size -= used.size as u64;
        let lo: Pos = if k > 0 {
            self.used[k - 1].end()
        } else {
            self.start
        };
        let hi: Pos = if k < self.used.len() {
            self.used[k].start
        } else {
            self.end
        };
        let mut free = Free { start: used.start, size: used.size };
        if lo < used.start {
            let before = Free { start: lo, size: (used.start - lo) as Size };
            proof {
                assert(has_gap(used0, start, end, k as int));
                assert(before == gap_at(used0, start, end, k as int));
            }
            let found = remove_free(&mut self.free, before);
            assert(found);
            free.start = before.start;
            free.size += before.size;
        }
        let used_end = used.start + used.size as Pos;
        if used_end < hi {
            let after = Free { start: used_end, size: (hi - used_end) as Size };
            proof {
                assert(has_gap(used0, start, end, k as int + 1));
                assert(after == gap_at(used0, start, end, k as int + 1));
            }
            let found = remove_free(&mut self.free, after);
            assert(found);
            free.size += after.size;
        }
        proof {
            if self.free@.contains(free) {
                let w = gap_index_of(used0, free0, start, end, free);
                lemma_gap_unique(used0, start, end, w, k as int);
            }
        }
        insert_free(&mut self.free, free);
        proof {
            lemma_free_tiles(used0, free0, start, end, k as int, self.free@);
        }
        true
    }

    /// Whether the last used block reaches beyond `end`.
    fn last_is_past(&self, end: Pos) -> (r: bool)
        requires
            self.valid(),
        ensures
            r == (self.used_view().len() > 0 && self.used_view().last().end_spec() > end),
    {
        proof {
            lemma_layout_sorted(self.used@, self.start, self.end);
        }
        match self.last_used() {
            Some(last) => last.end() > end,
            None => false,
        }
    }

    /// Whether the first used block starts below `start`.
    fn first_is_below(&self, start: Pos) -> (r: bool)
        ensures
            r == (self.used_view().len() > 0 && self.used_view()[0].start < start),
    {
        match self.first_used() {
            Some(first) => first.start < start,
            None => false,
        }
    }

    /// Moves the region's end to `end`. Used blocks that reach beyond it are
    /// released and returned, the last one first.
    pub fn set_end(&mut self, end: Pos) -> (evicted: Vec<Used>)
        requires
            old(self).valid(),
            old(self).start_spec() <= end,
            end - old(self).start_spec() <= u32::MAX,
        ensures
            final(self).valid(),
            final(self).start_spec() == old(self).start_spec(),
            final(self).end_spec() == end,
            evicted@.len() <= old(self).used_view().len(),
            final(self).used_view() == old(self).used_view().take(
                old(self).used_view().len() - evicted@.len(),
            ),
            forall|i: int|
                0 <= i < evicted@.len() ==> #[trigger] evicted@[i] == old(self).used_view()[old(self).used_view().len() - 1 - i],
            forall|i: int|
                0 <= i < old(self).used_view().len() - evicted@.len() ==> (#[trigger] old(self).used_view()[i]).end_spec() <= end,
            forall|i: int|
                old(self).used_view().len() - evicted@.len() <= i < old(self).used_view().len()
                    ==> (#[trigger] old(self).used_view()[i]).end_spec() > end,
    {
        let mut evicted: Vec<Used> = Vec::new();
        let ghost u0 = self.used@;
        let ghost start = self.start;
        let ghost end0 = self.end;
        proof {
            assert(u0.take(u0.len() as int) =~= u0);
        }
        if end <= self.end {
            while self.last_is_past(end)
                invariant
                    self.valid(),
                    self.start == start,
                    self.end == end0,
                    evicted@.len() <= u0.len(),
                    self.used@ == u0.take(u0.len() - evicted@.len()),
                    forall|i: int|
                        0 <= i < evicted@.len() ==> #[trigger] evicted@[i] == u0[u0.len() - 1 - i],
                    forall|i: int|
                        u0.len() - evicted@.len() <= i < u0.len() ==> (#[trigger] u0[i]).end_spec()
                            > end,
                decreases self.used@.len(),
            {
                let n = self.used.len();
                let last = self.used[n - 1];
                proof {
                    lemma_rank_of_index(self.used@, start, end0, n - 1);
                    assert(self.used@[n - 1].start == last.start);
                    assert(self.used@.remove(n - 1) =~= u0.take(n - 1));
                }
                let found = self.free(last.start);
                assert(found);
                evicted.push(last);
            }
        }
        proof {
            let m = self.used@.len() as int;
            lemma_layout_sorted(u0, start, end0);
            assert forall|i: int| 0 <= i < m implies (#[trigger] u0[i]).end_spec() <= end by {
                if end <= end0 {
                    assert(self.used@[m - 1] == u0[m - 1]);
                    if i < m - 1 {
                        lemma_layout_disjoint(u0, start, end0, i, m - 1);
                    }
                }
            }
            lemma_gap_bounds(self.used@, start, end0, m);
            lemma_gap_at(self.used@, start, end0, m);
        }
        let ghost used1 = self.used@;
        let ghost free1 = self.free@;
        let n = self.used.len();
        let lo: Pos = if n > 0 {
            self.used[n - 1].end()
        } else {
            self.start
        };
        if lo < self.end {
            remove_free(&mut self.free, Free { start: lo, size: (self.end - lo) as Size });
        }
        self.end = end;
        if lo < end {
            let f = Free { start: lo, size: (end - lo) as Size };
            proof {
                if self.free@.contains(f) {
                    let w = gap_index_of(used1, free1, start, end0, f);
                    lemma_gap_unique(used1, start, end0, w, n as int);
                }
            }
            insert_free(&mut self.free, f);
        }
        proof {
            lemma_set_end_tiles(used1, free1, start, end0, end, self.free@);
        }
        evicted
    }

    /// Moves the region's start to `start`. Used blocks that start below it
    /// are released and returned, the first one first.
    pub fn set_start(&mut self, start: Pos) -> (evicted: Vec<Used>)
        requires
            old(self).valid(),
            start <= old(self).end_spec(),
            old(self).end_spec() - start <= u32::MAX,
        ensures
            final(self).valid(),
            final(self).start_spec() == start,
            final(self).end_spec() == old(self).end_spec(),
            evicted@.len() <= old(self).used_view().len(),
            evicted@ == old(self).used_view().take(evicted@.len() as int),
            final(self).used_view() == old(self).used_view().skip(evicted@.len() as int),
            forall|i: int| 0 <= i < evicted@.len() ==> (#[trigger] evicted@[i]).start < start,
            forall|i: int|
                0 <= i < final(self).used_view().len() ==> (#[trigger] final(self).used_view()[i]).start >= start,
    {
        let mut evicted: Vec<Used> = Vec::new();
        let ghost u0 = self.used@;
        let ghost start0 = self.start;
        let ghost end = self.end;
        proof {
            assert(u0.skip(0) =~= u0);
            assert(u0.take(0) =~= evicted@);
        }
        if start > self.start {
            while self.first_is_below(start)
                invariant
                    self.valid(),
                    self.start == start0,
                    self.end == end,
                    evicted@.len() <= u0.len(),
                    self.used@ == u0.skip(evicted@.len() as int),
                    evicted@ == u0.take(evicted@.len() as int),
                    forall|i: int| 0 <= i < evicted@.len() ==> (#[trigger] evicted@[i]).start < start,
                decreases self.used@.len(),
            {
                let first = self.used[0];
                proof {
                    lemma_rank_of_index(self.used@, start0, end, 0);
                    assert(self.used@.remove(0) =~= u0.skip(evicted@.len() as int + 1));
                    assert(u0.take(evicted@.len() as int + 1) =~= evicted@.push(first));
                }
                let found = self.free(first.start);
                assert(found);
                evicted.push(first);
            }
        }
        proof {
            lemma_layout_sorted(self.used@, start0, end);
            assert forall|i: int| 0 <= i < self.used@.len() implies (#[trigger] self.used@[i]).start
                >= start by {
                if i > 0 {
                    assert(self.used@[0].start <= self.used@[i].start);
                }
            }
            lemma_gap_bounds(self.used@, start0, end, 0);
            lemma_gap_at(self.used@, start0, end, 0);
        }
        let ghost used1 = self.used@;
        let ghost free1 = self.free@;
        let hi: Pos = if self.used.len() > 0 {
            self.used[0].start
        } else {
            self.end
        };
        if self.start < hi {
            remove_free(&mut self.free, Free { start: self.start, size: (hi - self.start) as Size });
        }
        self.start = start;
        if start < hi {
            let f = Free { start, size: (hi - start) as Size };
            proof {
                if self.free@.contains(f) {
                    let w = gap_index_of(used1, free1, start0, end, f);
                    if w > 0 {
                        lemma_gap_order(used1, start0, end, 0, w);
                    }
                }
            }
            insert_free(&mut self.free, f);
        }
        proof {
            lemma_set_start_tiles(used1, free1, start0, end, start, self.free@);
        }
        evicted
    }

    /// The used block with the lowest start.
    pub fn first_used(&self) -> (r: Option<&Used>)
        ensures
            self.used_view().len() == 0 ==> r is None,
            self.used_view().len() > 0 ==> r == Some(&self.used_view()[0]),
    {
        if self.used.len() > 0 {
            Some(&self.used[0])
        } else {
            None
        }
    }

    /// The used block with the highest start.
    pub fn last_used(&self) -> (r: Option<&Used>)
        ensures
            self.used_view().len() == 0 ==> r is None,
            self.used_view().len() > 0 ==> r == Some(&self.used_view().last()),
    {
        let n = self.used.len();
        if n > 0 {
            Some(&self.used[n - 1])
        } else {
            None
        }
    }

    /// The used blocks, ordered by start.
    pub fn get_used(&self) -> (r: &Vec<Used>)
        ensures
            r@ == self.used_view(),
    {
        &self.used
    }

    /// Sum of the sizes of the used blocks.
    #[verifier::when_used_as_spec(used_size_spec)]
    pub fn used_size(&self) -> (r: u64)
        ensures
            r == self.used_size_spec(),
    {
        self.used_size
    }

    /// First position of the region.
    #[verifier::when_used_as_spec(start_spec)]
    pub fn start(&self) -> (r: Pos)
        ensures
            r == self.start_spec(),
    {
        self.start
    }

    /// First position behind the region.
    #[verifier::when_used_as_spec(end_spec)]
    pub fn end(&self) -> (r: Pos)
        ensures
            r == self.end_spec(),
    {
        self.end
    }

    /// Releases every block: the whole region becomes one free extent.
    pub fn clear(&mut self)
        requires
            old(self).start_spec() <= old(self).end_spec(),
            old(self).end_spec() - old(self).start_spec() <= u32::MAX,
        ensures
            final(self).valid(),
            final(self).start_spec() == old(self).start_spec(),
            final(self).end_spec() == old(self).end_spec(),
            final(self).used_view() == Seq::<Used>::empty(),
            final(self).used_size_spec() == 0,
    {
        self.used.clear();
        self.free.clear();
        self.used_size = 0;
        if self.start != self.end {
            self.free.push(Free { start: self.start, size: (self.end - self.start) as Size });
        }
        proof {
            let u = self.used@;
            assert(gap_lo(u, self.start, 0) == self.start);
            assert(gap_hi(u, self.end, 0) == self.end);
            if self.start != self.end {
                assert(has_gap(u, self.start, self.end, 0));
                assert(self.free@[0] == gap_at(u, self.start, self.end, 0));
            }
        }
    }

    /// Gives the used blocks away, ordered by start.
    pub fn take_used(self) -> (r: Vec<Used>)
        ensures
            r@ == self.used_view(),
    {
        self.used
    }

    /// Whether a block starts at `pos`.
    pub fn has_block_at(&self, pos: Pos) -> (r: bool)
        requires
            self.loading(),
        ensures
            r == starts_block(self.used_view(), pos),
    {
        let k = used_rank(&self.used, pos);
        proof {
            if starts_block(self.used@, pos) {
                let i = choose|i: int| 0 <= i < self.used@.len() && self.used@[i].start == pos;
                if i > k {
                    assert(self.used@[k as int].start <= self.used@[i].start);
                }
            }
        }
        k < self.used.len() && self.used[k].start == pos
    }

    /// Whether the used blocks lie in the region in ascending order without
    /// overlap: what `fix_up` asks for.
    pub fn check_layout(&self) -> (r: bool)
        ensures
            r == layout(self.used_view(), self.start_spec(), self.end_spec()),
    {
        if self.start > self.end || self.end - self.start > 0xffff_ffff {
            return false;
        }
        let ghost u = self.used@;
        let ghost start = self.start;
        let ghost end = self.end;
        let mut last_end: Pos = self.start;
        let mut i: usize = 0;
        while i < self.used.len()
            invariant
                i <= u.len(),
                self.used@ == u,
                self.start == start,
                self.end == end,
                start <= last_end <= end,
                end - start <= u32::MAX,
                last_end == gap_lo(u, start, i as int),
                forall|a: int| 0 <= a < i ==> (#[trigger] u[a]).size > 0,
                forall|a: int| 0 <= a < i ==> #[trigger] gap_lo(u, start, a) <= gap_hi(u, end, a),
            decreases u.len() - i,
        {
            let b = self.used[i];
            if b.size == 0 || b.start < last_end || b.start > self.end || self.end - b.start
                < b.size as u64 {
                proof {
                    if layout(u, start, end) {
                        assert(u[i as int].size > 0);
                        assert(gap_lo(u, start, i as int) <= gap_hi(u, end, i as int));
                        lemma_gap_bounds(u, start, end, i as int + 1);
                    }
                }
                return false;
            }
            last_end = b.start + b.size as u64;
            i += 1;
        }
        true
    }

    /// Checks the validity predicate.
    pub fn is_valid(&self) -> (r: bool)
        ensures
            r == self.valid(),
    {
        if self.start > self.end || self.end - self.start > 0xffff_ffff {
            return false;
        }
        let ghost u = self.used@;
        let ghost fr = self.free@;
        let ghost start = self.start;
        let ghost end = self.end;
        let mut j: usize = 1;
        while j < self.free.len()
            invariant
                1 <= j,
                self.free@ == fr,
                forall|a: int, b: int|
                    0 <= a < b < j && b < fr.len() ==> free_before(#[trigger] fr[a], #[trigger] fr[b]),
            decreases fr.len() - j,
        {
            if !is_before(&self.free[j - 1], &self.free[j]) {
                return false;
            }
            proof {
                assert forall|a: int, b: int| 0 <= a < b < j + 1 && b < fr.len() implies free_before(
                    #[trigger] fr[a],
                    #[trigger] fr[b],
                ) by {
                    if b == j && a < j - 1 {
                        assert(free_before(fr[a], fr[j - 1]));
                    }
                }
            }
            j += 1;
        }
        assert(free_sorted(fr));
        let mut last_end: Pos = self.start;
        let mut sum: u64 = 0;
        let mut i: usize = 0;
        while i < self.used.len()
            invariant
                i <= u.len(),
                self.used@ == u,
                self.free@ == fr,
                self.start == start,
                self.end == end,
                free_sorted(fr),
                start <= last_end <= end,
                end - start <= u32::MAX,
                last_end == gap_lo(u, start, i as int),
                sum == sum_sizes(u.take(i as int)),
                sum <= last_end - start,
                forall|a: int| 0 <= a < i ==> (#[trigger] u[a]).size > 0,
                forall|a: int| 0 <= a < i ==> #[trigger] gap_lo(u, start, a) <= gap_hi(u, end, a),
                forall|a: int|
                    0 <= a < i && #[trigger] has_gap(u, start, end, a) ==> fr.contains(
                        gap_at(u, start, end, a),
                    ),
            decreases u.len() - i,
        {
            let b = self.used[i];
            if b.size == 0 || b.start < last_end || b.start > self.end || self.end - b.start
                < b.size as u64 {
                proof {
                    if self.valid() {
                        assert(u[i as int].size > 0);
                        assert(gap_lo(u, start, i as int) <= gap_hi(u, end, i as int));
                        lemma_gap_bounds(u, start, end, i as int + 1);
                    }
                }
                return false;
            }
            if b.start > last_end {
                let f = Free { start: last_end, size: (b.start - last_end) as Size };
                assert(has_gap(u, start, end, i as int));
                assert(f == gap_at(u, start, end, i as int));
                if !has_free(&self.free, &f) {
                    return false;
                }
            }
            proof {
                assert(u.take(i as int + 1).drop_last() =~= u.take(i as int));
            }
            sum += b.size as u64;
            last_end = b.start + b.size as u64;
            i += 1;
        }
        proof {
            assert(u.take(u.len() as int) =~= u);
        }
        if last_end < self.end {
            let f = Free { start: last_end, size: (self.end - last_end) as Size };
            assert(has_gap(u, start, end, u.len() as int));
            assert(f == gap_at(u, start, end, u.len() as int));
            if !has_free(&self.free, &f) {
                return false;
            }
        }
        assert(layout(u, start, end));
        proof {
            lemma_layout_sorted(u, start, end);
        }
        let mut j: usize = 0;
        while j < self.free.len()
            invariant
                j <= fr.len(),
                self.used@ == u,
                self.free@ == fr,
                self.start == start,
                self.end == end,
                layout(u, start, end),
                used_sorted(u),
                forall|a: int| 0 <= a < j ==> is_gap(u, start, end, #[trigger] fr[a]),
            decreases fr.len() - j,
        {
            let f = self.free[j];
            let k = used_rank(&self.used, f.start);
            proof {
                lemma_gap_bounds(u, start, end, k as int);
                lemma_gap_at(u, start, end, k as int);
            }
            let lo: Pos = if k > 0 {
                self.used[k - 1].end()
            } else {
                self.start
            };
            let hi: Pos = if k < self.used.len() {
                self.used[k].start
            } else {
                self.end
            };
            if lo != f.start || f.size == 0 || hi - lo != f.size as u64 {
                proof {
                    if is_gap(u, start, end, f) {
                        let w = choose|w: int|
                            has_gap(u, start, end, w) && #[trigger] gap_at(u, start, end, w) == f;
                        lemma_gap_at(u, start, end, w);
                        lemma_gap_rank(u, start, end, w);
                    }
                    assert(!is_gap(u, start, end, fr[j as int]));
                }
                return false;
            }
            proof {
                assert(has_gap(u, start, end, k as int));
                assert(gap_at(u, start, end, k as int) == f);
            }
            j += 1;
        }
        assert(tiles(u, fr, start, end));
        self.used_size == sum
    }
}

/// Whether `f` is one of the extents.
fn has_free(free: &Vec<Free>, f: &Free) -> (r: bool)
    requires
        free_sorted(free@),
    ensures
        r == free@.contains(*f),
{
    let k = free_rank(free, f);
    proof {
        if free@.contains(*f) {
            let i = choose|i: int| 0 <= i < free@.len() && free@[i] == *f;
            if i < k {
                assert(free_before(free@[i], *f));
            }
            if k < i {
                assert(free_before(free@[k as int], free@[i]));
                assert(!free_before(free@[k as int], *f));
            }
        }
    }
    k < free.len() && free[k].size == f.size && free[k].start == f.start
}

/// In a layout a block's rank is its index.
pub proof fn lemma_rank_of_index(used: Seq<Used>, start: Pos, end: Pos, i: int)
    requires
        layout(used, start, end),
        0 <= i < used.len(),
    ensures
        rank_of(used, used[i].start) == i,
{
    lemma_layout_sorted(used, start, end);
    let pos = used[i].start;
    assert forall|a: int| 0 <= a < i implies (#[trigger] used[a]).start < pos by {
        lemma_layout_disjoint(used, start, end, a, i);
        assert(used[a].size > 0);
    }
    assert forall|a: int| i <= a < used.len() implies (#[trigger] used[a]).start >= pos by {
        if a > i {
            lemma_layout_disjoint(used, start, end, i, a);
        }
    }
    lemma_rank_of(used, pos, i);
}

/// Moving the region's end, and the last gap with it, keeps the tiling.
pub proof fn lemma_set_end_tiles(
    used: Seq<Used>,
    free: Seq<Free>,
    start: Pos,
    end: Pos,
    end2: Pos,
    free2: Seq<Free>,
)
    requires
        tiles(used, free, start, end),
        gap_lo(used, start, used.len() as int) <= end2,
        end2 - start <= u32::MAX,
        free_sorted(free2),
        forall|x: Free| #[trigger]
            free2.contains(x) <==> ((free.contains(x) && x != gap_at(
                used,
                start,
                end,
                used.len() as int,
            )) || (gap_lo(used, start, used.len() as int) < end2 && x == Free {
                size: (end2 - gap_lo(used, start, used.len() as int)) as Size,
                start: gap_lo(used, start, used.len() as int) as Pos,
            })),
    ensures
        tiles(used, free2, start, end2),
{
    let n = used.len() as int;
    lemma_gap_bounds(used, start, end, n);
    lemma_gap_at(used, start, end, n);
    assert forall|i: int| 0 <= i <= used.len() implies #[trigger] gap_lo(used, start, i) <= gap_hi(
        used,
        end2,
        i,
    ) by {
        if i < n {
            assert(gap_lo(used, start, i) <= gap_hi(used, end, i));
        }
    }
    assert(layout(used, start, end2));
    assert forall|i: int| #[trigger] has_gap(used, start, end2, i) implies free2.contains(
        gap_at(used, start, end2, i),
    ) by {
        if i < n {
            assert(has_gap(used, start, end, i));
            assert(gap_at(used, start, end2, i) == gap_at(used, start, end, i));
            lemma_gap_at(used, start, end, i);
            if gap_at(used, start, end, i) == gap_at(used, start, end, n) {
                lemma_gap_unique(used, start, end, i, n);
            }
        }
    }
    assert forall|j: int| 0 <= j < free2.len() implies is_gap(
        used,
        start,
        end2,
        #[trigger] free2[j],
    ) by {
        let x = free2[j];
        assert(free2.contains(x));
        if free.contains(x) && x != gap_at(used, start, end, n) {
            let w = gap_index_of(used, free, start, end, x);
            assert(w < n);
            assert(has_gap(used, start, end2, w));
            assert(gap_at(used, start, end2, w) == x);
        } else {
            assert(has_gap(used, start, end2, n));
            assert(gap_at(used, start, end2, n) == x);
        }
    }
}

/// Moving the region's start, and the first gap with it, keeps the tiling.
pub proof fn lemma_set_start_tiles(
    used: Seq<Used>,
    free: Seq<Free>,
    start: Pos,
    end: Pos,
    start2: Pos,
    free2: Seq<Free>,
)
    requires
        tiles(used, free, start, end),
        start2 <= gap_hi(used, end, 0),
        end - start2 <= u32::MAX,
        free_sorted(free2),
        forall|x: Free| #[trigger]
            free2.contains(x) <==> ((free.contains(x) && x != gap_at(used, start, end, 0)) || (
            start2 < gap_hi(used, end, 0) && x == Free {
                size: (gap_hi(used, end, 0) - start2) as Size,
                start: start2,
            })),
    ensures
        tiles(used, free2, start2, end),
{
    lemma_gap_bounds(used, start, end, 0);
    lemma_gap_at(used, start, end, 0);
    assert forall|i: int| 0 <= i <= used.len() implies #[trigger] gap_lo(used, start2, i)
        <= gap_hi(used, end, i) by {
        if i > 0 {
            assert(gap_lo(used, start, i) <= gap_hi(used, end, i));
        }
    }
    assert(layout(used, start2, end));
    assert forall|i: int| #[trigger] has_gap(used, start2, end, i) implies free2.contains(
        gap_at(used, start2, end, i),
    ) by {
        if i > 0 {
            assert(gap_lo(used, start, i) == gap_lo(used, start2, i));
            assert(has_gap(used, start, end, i));
            assert(gap_at(used, start2, end, i) == gap_at(used, start, end, i));
            lemma_gap_at(used, start, end, i);
            if gap_at(used, start, end, i) == gap_at(used, start, end, 0) {
                lemma_gap_unique(used, start, end, i, 0);
            }
        }
    }
    assert forall|j: int| 0 <= j < free2.len() implies is_gap(
        used,
        start2,
        end,
        #[trigger] free2[j],
    ) by {
        let x = free2[j];
        assert(free2.contains(x));
        if free.contains(x) && x != gap_at(used, start, end, 0) {
            let w = gap_index_of(used, free, start, end, x);
            assert(w > 0);
            assert(gap_lo(used, start, w) == gap_lo(used, start2, w));
            assert(has_gap(used, start2, end, w));
            assert(gap_at(used, start2, end, w) == x);
        } else {
            assert(has_gap(used, start2, end, 0));
            assert(gap_at(used, start2, end, 0) == x);
        }
    }
}


/// A block starts at `pos`.
pub open spec fn starts_block(used: Seq<Used>, pos: Pos) -> bool {
    exists|i: int| 0 <= i < used.len() && (#[trigger] used[i]).start == pos
}

/// The gap that a free extent of a tiling is.
pub proof fn gap_index_of(used: Seq<Used>, free: Seq<Free>, start: Pos, end: Pos, x: Free) -> (w:
    int)
    requires
        tiles(used, free, start, end),
        free.contains(x),
    ensures
        has_gap(used, start, end, w),
        gap_at(used, start, end, w) == x,
        x.start == gap_lo(used, start, w),
        x.size == gap_hi(used, end, w) - gap_lo(used, start, w),
        x.size > 0,
{
    let j = choose|j: int| 0 <= j < free.len() && free[j] == x;
    assert(is_gap(used, start, end, free[j]));
    let w = choose|w: int| has_gap(used, start, end, w) && #[trigger] gap_at(used, start, end, w)
        == x;
    lemma_gap_at(used, start, end, w);
    w
}

/// A gap that begins behind the begin of another begins behind its end.
pub proof fn lemma_gap_inside(used: Seq<Used>, start: Pos, end: Pos, g: int, w: int)
    requires
        layout(used, start, end),
        0 <= g <= used.len(),
        0 <= w <= used.len(),
        gap_lo(used, start, g) < gap_lo(used, start, w),
    ensures
        gap_hi(used, end, g) < gap_lo(used, start, w),
{
    if w < g {
        lemma_gap_order(used, start, end, w, g);
        assert(gap_lo(used, start, w) <= gap_hi(used, end, w));
    } else if w > g {
        lemma_gap_order(used, start, end, g, w);
    }
}

/// Carving a block from the front of a gap keeps the tiling.
pub proof fn lemma_allocate_tiles(
    used: Seq<Used>,
    free: Seq<Free>,
    start: Pos,
    end: Pos,
    g: int,
    u: Used,
    free2: Seq<Free>,
)
    requires
        tiles(used, free, start, end),
        has_gap(used, start, end, g),
        u.start == gap_lo(used, start, g),
        0 < u.size <= gap_hi(used, end, g) - gap_lo(used, start, g),
        free_sorted(free2),
        forall|x: Free| #[trigger]
            free2.contains(x) <==> ((x != gap_at(used, start, end, g) && free.contains(x)) || (
            u.end_spec() < gap_hi(used, end, g) && x == Free {
                size: (gap_hi(used, end, g) - u.end_spec()) as Size,
                start: u.end_spec() as Pos,
            })),
    ensures
        tiles(used.insert(g, u), free2, start, end),
{
    let used2 = used.insert(g, u);
    lemma_gaps_after_insert(used, start, end, g, u);
    lemma_gap_bounds(used, start, end, g);
    assert forall|i: int| #[trigger] has_gap(used2, start, end, i) implies free2.contains(
        gap_at(used2, start, end, i),
    ) by {
        if i < g {
            assert(gap_lo(used2, start, i) == gap_lo(used, start, i));
            assert(has_gap(used, start, end, i));
            assert(gap_at(used2, start, end, i) == gap_at(used, start, end, i));
            lemma_gap_at(used, start, end, i);
            lemma_gap_at(used, start, end, g);
            if gap_at(used, start, end, i) == gap_at(used, start, end, g) {
                lemma_gap_unique(used, start, end, i, g);
            }
        } else if i == g {
        } else if i == g + 1 {
        } else {
            assert(gap_lo(used2, start, i) == gap_lo(used, start, i - 1));
            assert(has_gap(used, start, end, i - 1));
            assert(gap_at(used2, start, end, i) == gap_at(used, start, end, i - 1));
            lemma_gap_at(used, start, end, i - 1);
            lemma_gap_at(used, start, end, g);
            if gap_at(used, start, end, i - 1) == gap_at(used, start, end, g) {
                lemma_gap_unique(used, start, end, i - 1, g);
            }
        }
    }
    assert forall|j: int| 0 <= j < free2.len() implies is_gap(
        used2,
        start,
        end,
        #[trigger] free2[j],
    ) by {
        let x = free2[j];
        assert(free2.contains(x));
        if x != gap_at(used, start, end, g) && free.contains(x) {
            let w = gap_index_of(used, free, start, end, x);
            if w < g {
                assert(gap_lo(used2, start, w) == gap_lo(used, start, w));
                assert(has_gap(used2, start, end, w));
                assert(gap_at(used2, start, end, w) == x);
            } else {
                assert(w > g);
                assert(gap_lo(used2, start, w + 1) == gap_lo(used, start, w));
                assert(has_gap(used2, start, end, w + 1));
                assert(gap_at(used2, start, end, w + 1) == x);
            }
        } else {
            assert(has_gap(used2, start, end, g + 1));
            assert(gap_at(used2, start, end, g + 1) == x);
        }
    }
}

/// Taking a block out and merging its space with the gaps on either side
/// keeps the tiling.
pub proof fn lemma_free_tiles(
    used: Seq<Used>,
    free: Seq<Free>,
    start: Pos,
    end: Pos,
    k: int,
    free2: Seq<Free>,
)
    requires
        tiles(used, free, start, end),
        0 <= k < used.len(),
        free_sorted(free2),
        forall|x: Free| #[trigger]
            free2.contains(x) <==> (x == Free {
                size: (gap_hi(used, end, k + 1) - gap_lo(used, start, k)) as Size,
                start: gap_lo(used, start, k) as Pos,
            } || (free.contains(x) && x != gap_at(used, start, end, k) && x != gap_at(
                used,
                start,
                end,
                k + 1,
            ))),
    ensures
        tiles(used.remove(k), free2, start, end),
{
    let used2 = used.remove(k);
    lemma_gaps_after_remove(used, start, end, k);
    lemma_gap_bounds(used, start, end, k);
    lemma_gap_bounds(used, start, end, k + 1);
    lemma_gap_order(used, start, end, k, k + 1);
    lemma_gap_at(used, start, end, k);
    lemma_gap_at(used, start, end, k + 1);
    assert forall|i: int| #[trigger] has_gap(used2, start, end, i) implies free2.contains(
        gap_at(used2, start, end, i),
    ) by {
        if i < k {
            assert(gap_lo(used2, start, i) == gap_lo(used, start, i));
            assert(has_gap(used, start, end, i));
            assert(gap_at(used2, start, end, i) == gap_at(used, start, end, i));
            lemma_gap_at(used, start, end, i);
            if gap_at(used, start, end, i).start == gap_lo(used, start, k) {
                lemma_gap_unique(used, start, end, i, k);
            }
            if gap_at(used, start, end, i).start == gap_lo(used, start, k + 1) {
                lemma_gap_unique(used, start, end, i, k + 1);
            }
        } else if i == k {
        } else {
            assert(gap_lo(used2, start, i) == gap_lo(used, start, i + 1));
            assert(has_gap(used, start, end, i + 1));
            assert(gap_at(used2, start, end, i) == gap_at(used, start, end, i + 1));
            lemma_gap_at(used, start, end, i + 1);
            if gap_at(used, start, end, i + 1).start == gap_lo(used, start, k) {
                lemma_gap_unique(used, start, end, i + 1, k);
            }
            if gap_at(used, start, end, i + 1).start == gap_lo(used, start, k + 1) {
                lemma_gap_unique(used, start, end, i + 1, k + 1);
            }
        }
    }
    assert forall|j: int| 0 <= j < free2.len() implies is_gap(
        used2,
        start,
        end,
        #[trigger] free2[j],
    ) by {
        let x = free2[j];
        assert(free2.contains(x));
        if free.contains(x) && x != gap_at(used, start, end, k) && x != gap_at(
            used,
            start,
            end,
            k + 1,
        ) {
            let w = gap_index_of(used, free, start, end, x);
            if w < k {
                assert(gap_lo(used2, start, w) == gap_lo(used, start, w));
                assert(has_gap(used2, start, end, w));
                assert(gap_at(used2, start, end, w) == x);
            } else {
                assert(w > k + 1);
                assert(gap_lo(used2, start, w - 1) == gap_lo(used, start, w));
                assert(has_gap(used2, start, end, w - 1));
                assert(gap_at(used2, start, end, w - 1) == x);
            }
        } else {
            assert(has_gap(used2, start, end, k));
            assert(gap_at(used2, start, end, k) == x);
        }
    }
}


/// What a sequence contains after an insertion.
pub proof fn lemma_insert_contains(used: Seq<Used>, k: int, u: Used)
    requires
        0 <= k <= used.len(),
    ensures
        forall|x: Used| #[trigger] used.insert(k, u).contains(x) <==> x == u || used.contains(x),
{
    let t = used.insert(k, u);
    used.insert_ensures(k, u);
    assert forall|x: Used| #[trigger] t.contains(x) <==> x == u || used.contains(x) by {
        if t.contains(x) {
            let i = choose|i: int| 0 <= i < t.len() && t[i] == x;
            if i < k {
                assert(used[i] == x);
            } else if i > k {
                assert(t[(i - 1) + 1] == used[i - 1]);
                assert(used[i - 1] == x);
            }
        }
        if x == u {
            assert(t[k] == x);
        }
        if used.contains(x) {
            let i = choose|i: int| 0 <= i < used.len() && used[i] == x;
            if i < k {
                assert(t[i] == x);
            } else {
                assert(t[i + 1] == x);
            }
        }
    }
}

/// What a layout contains after a block is taken out.
pub proof fn lemma_remove_contains(used: Seq<Used>, start: Pos, end: Pos, k: int)
    requires
        layout(used, start, end),
        0 <= k < used.len(),
    ensures
        forall|x: Used| #[trigger]
            used.remove(k).contains(x) <==> x != used[k] && used.contains(x),
{
    let t = used.remove(k);
    used.remove_ensures(k);
    assert forall|x: Used| #[trigger] t.contains(x) <==> x != used[k] && used.contains(x) by {
        if t.contains(x) {
            let i = choose|i: int| 0 <= i < t.len() && t[i] == x;
            if i < k {
                assert(used[i] == x);
                lemma_layout_disjoint(used, start, end, i, k);
                assert(used[i].size > 0);
            } else {
                assert(used[i + 1] == x);
                lemma_layout_disjoint(used, start, end, k, i + 1);
                assert(used[k].size > 0);
            }
        }
        if x != used[k] && used.contains(x) {
            let i = choose|i: int| 0 <= i < used.len() && used[i] == x;
            if i < k {
                assert(t[i] == x);
            } else {
                assert(t[i - 1] == x);
            }
        }
    }
}

/// In a layout a block is known by its start.
pub proof fn lemma_block_by_start(used: Seq<Used>, start: Pos, end: Pos, i: int, u: Used)
    requires
        layout(used, start, end),
        0 <= i < used.len(),
        used.contains(u),
        used[i].start == u.start,
    ensures
        used[i] == u,
{
    let j = choose|j: int| 0 <= j < used.len() && used[j] == u;
    if i < j {
        lemma_layout_disjoint(used, start, end, i, j);
        assert(used[i].size > 0);
    }
    if j < i {
        lemma_layout_disjoint(used, start, end, j, i);
        assert(used[j].size > 0);
    }
}

/// Two blocks of a layout do not overlap, and each lies in the region.
pub proof fn lemma_blocks_apart(used: Seq<Used>, start: Pos, end: Pos, u: Used, v: Used)
    requires
        layout(used, start, end),
        used.contains(u),
        used.contains(v),
        u != v,
    ensures
        u.end_spec() <= v.start || v.end_spec() <= u.start,
        start <= u.start,
        u.end_spec() <= end,
        u.size > 0,
{
    let i = choose|i: int| 0 <= i < used.len() && used[i] == u;
    let j = choose|j: int| 0 <= j < used.len() && used[j] == v;
    lemma_layout_sorted(used, start, end);
    if i < j {
        lemma_layout_disjoint(used, start, end, i, j);
    }
    if j < i {
        lemma_layout_disjoint(used, start, end, j, i);
    }
}

/// A block of a layout lies in the region.
pub proof fn lemma_block_in_region(used: Seq<Used>, start: Pos, end: Pos, u: Used)
    requires
        layout(used, start, end),
        used.contains(u),
    ensures
        start <= u.start,
        u.end_spec() <= end,
        u.size > 0,
{
    let i = choose|i: int| 0 <= i < used.len() && used[i] == u;
    lemma_layout_sorted(used, start, end);
}

/// What `short_count` says of a sorted sequence.
pub proof fn lemma_short_count_sorted(free: Seq<Free>, size: Size)
    requires
        free_sorted(free),
    ensures
        0 <= short_count(free, size) <= free.len(),
        forall|i: int| 0 <= i < short_count(free, size) ==> (#[trigger] free[i]).size < size,
        forall|i: int| short_count(free, size) <= i < free.len() ==> (#[trigger] free[i]).size >= size,
    decreases free.len(),
{
    if free.len() > 0 {
        if free.last().size < size {
            assert forall|i: int| 0 <= i < free.len() implies (#[trigger] free[i]).size < size by {
                if i < free.len() - 1 {
                    assert(free_before(free[i], free[free.len() - 1]));
                }
            }
        } else {
            let d = free.drop_last();
            assert forall|i: int, j: int| 0 <= i < j < d.len() implies free_before(
                #[trigger] d[i],
                #[trigger] d[j],
            ) by {
                assert(free_before(free[i], free[j]));
            }
            lemma_short_count_sorted(d, size);
            assert forall|i: int| 0 <= i < short_count(free, size) implies (#[trigger] free[i]).size
                < size by {
                assert(d[i].size < size);
            }
            assert forall|i: int| short_count(free, size) <= i < free.len() implies (
            #[trigger] free[i]).size >= size by {
                if i < free.len() - 1 {
                    assert(d[i].size >= size);
                }
            }
        }
    }
}

/// A request is served if an extent is long enough.
pub proof fn lemma_best_fit_some(free: Seq<Free>, size: Size, f: Free)
    requires
        free_sorted(free),
        free.contains(f),
        f.size >= size,
    ensures
        best_fit(free, size) is Some,
{
    lemma_short_count_sorted(free, size);
    let i = choose|i: int| 0 <= i < free.len() && free[i] == f;
    assert(short_count(free, size) <= i);
}

/// The used blocks follow each other from the region's start without a gap.
pub open spec fn packed(used: Seq<Used>, start: Pos) -> bool {
    forall|j: int| 0 <= j < used.len() ==> #[trigger] gap_lo(used, start, j) == used[j].start
}

/// With the used blocks packed at the front, what is free is the one extent
/// behind them.
pub proof fn lemma_packed_free(used: Seq<Used>, free: Seq<Free>, start: Pos, end: Pos)
    requires
        tiles(used, free, start, end),
        packed(used, start),
    ensures
        gap_lo(used, start, used.len() as int) == start + sum_sizes(used),
        gap_lo(used, start, used.len() as int) < end ==> free =~= seq![
            gap_at(used, start, end, used.len() as int),
        ],
        gap_lo(used, start, used.len() as int) >= end ==> free =~= Seq::<Free>::empty(),
{
    let n = used.len() as int;
    lemma_packed_total(used, start, n);
    assert(used.take(n) =~= used);
    lemma_gap_bounds(used, start, end, n);
    assert forall|j: int| 0 <= j < free.len() implies #[trigger] free[j] == gap_at(
        used,
        start,
        end,
        n,
    ) && has_gap(used, start, end, n) by {
        assert(free.contains(free[j]));
        let w = gap_index_of(used, free, start, end, free[j]);
        if w < n {
            assert(gap_lo(used, start, w) == used[w].start);
        }
    }
    if free.len() >= 2 {
        assert(free_before(free[0], free[1]));
    }
    if gap_lo(used, start, n) < end {
        assert(has_gap(used, start, end, n));
        assert(free.contains(gap_at(used, start, end, n)));
    } else if free.len() > 0 {
        assert(free[0] == gap_at(used, start, end, n) && has_gap(used, start, end, n));
    }
}

pub proof fn lemma_packed_total(used: Seq<Used>, start: Pos, i: int)
    requires
        packed(used, start),
        0 <= i <= used.len(),
    ensures
        gap_lo(used, start, i) == start + sum_sizes(used.take(i)),
    decreases i,
{
    if i > 0 {
        lemma_packed_total(used, start, i - 1);
        assert(used.take(i).drop_last() =~= used.take(i - 1));
        assert(gap_lo(used, start, i - 1) == used[i - 1].start);
    }
}

pub proof fn lemma_rank_bounds(used: Seq<Used>, pos: Pos)
    ensures
        0 <= rank_of(used, pos) <= used.len(),
    decreases used.len(),
{
    if used.len() > 0 && !(used.last().start < pos) {
        lemma_rank_bounds(used.drop_last(), pos);
    }
}

/// A block that was put into a layout was not in it before.
pub proof fn lemma_insert_fresh(used: Seq<Used>, start: Pos, end: Pos, k: int, u: Used)
    requires
        0 <= k <= used.len(),
        layout(used.insert(k, u), start, end),
    ensures
        !used.contains(u),
{
    let t = used.insert(k, u);
    used.insert_ensures(k, u);
    if used.contains(u) {
        let i = choose|i: int| 0 <= i < used.len() && used[i] == u;
        if i < k {
            assert(t[i] == u);
            lemma_layout_disjoint(t, start, end, i, k);
            assert(t[i].size > 0);
        } else {
            assert(t[i + 1] == u);
            lemma_layout_disjoint(t, start, end, k, i + 1);
            assert(t[k].size > 0);
        }
    }
}

/// Where one extent is free and long enough, it is the one chosen.
pub proof fn lemma_best_fit_single(f: Free, size: Size)
    requires
        f.size >= size,
    ensures
        best_fit(seq![f], size) == Some(f),
{
    let free = seq![f];
    lemma_short_count(free, size, 0);
    assert(candidates(free, size) =~= free);
}

/// The step of compaction: with the first `i` blocks of `used0` packed at
/// the front as `used`, the next block goes right behind them, which is no
/// farther back than where it lies.
pub proof fn lemma_pack_next(
    used: Seq<Used>,
    free: Seq<Free>,
    used0: Seq<Used>,
    i: int,
    start: Pos,
    end: Pos,
    hash: u64,
)
    requires
        tiles(used, free, start, end),
        packed(used, start),
        used.len() == i,
        layout(used0, start, end),
        0 <= i < used0.len(),
        sum_sizes(used) == sum_sizes(used0.take(i)),
    ensures
        start + sum_sizes(used) + used0[i].size <= used0[i].end_spec() <= end,
        used0[i].size > 0,
        best_fit(free, used0[i].size) == Some(
            Free {
                size: (end - start - sum_sizes(used)) as Size,
                start: (start + sum_sizes(used)) as Pos,
            },
        ),
        rank_of(used, (start + sum_sizes(used)) as Pos) == i,
        forall|u: Used| #[trigger] used.contains(u) ==> u.end_spec() <= start + sum_sizes(used),
        forall|j: int|
            i < j < used0.len() ==> (#[trigger] used0[j]).start >= used0[i].end_spec(),
        packed(
            used.push(
                Used { start: (start + sum_sizes(used)) as Pos, size: used0[i].size, hash },
            ),
            start,
        ),
        sum_sizes(used) + used0[i].size == sum_sizes(used0.take(i + 1)),
{
    let p = start + sum_sizes(used);
    lemma_packed_free(used, free, start, end);
    lemma_total_bound(used0, start, end, i + 1);
    lemma_total_bound(used0, start, end, i);
    assert(used0.take(i + 1).drop_last() =~= used0.take(i));
    lemma_gap_bounds(used0, start, end, i + 1);
    lemma_gap_bounds(used0, start, end, i);
    assert(used0[i].size > 0);
    let f = Free { size: (end - p) as Size, start: p as Pos };
    lemma_gap_at(used, start, end, i);
    assert(free =~= seq![f]);
    lemma_best_fit_single(f, used0[i].size);
    lemma_layout_sorted(used, start, end);
    assert forall|j: int| 0 <= j < used.len() implies (#[trigger] used[j]).end_spec() <= p by {
        lemma_gap_bounds(used, start, end, j + 1);
        if j + 1 < i {
            lemma_gap_order(used, start, end, j + 1, i);
        }
    }
    assert forall|u: Used| #[trigger] used.contains(u) implies u.end_spec() <= p by {
        let j = choose|j: int| 0 <= j < used.len() && used[j] == u;
        assert(used[j].end_spec() <= p);
    }
    assert forall|j: int| 0 <= j < i implies (#[trigger] used[j]).start < p by {
        assert(used[j].end_spec() <= p);
        assert(used[j].size > 0);
    }
    lemma_rank_of(used, p as Pos, i);
    assert forall|j: int| i < j < used0.len() implies (#[trigger] used0[j]).start
        >= used0[i].end_spec() by {
        lemma_layout_disjoint(used0, start, end, i, j);
    }
    let nb = Used { start: p as Pos, size: used0[i].size, hash };
    let t = used.push(nb);
    assert forall|j: int| 0 <= j < t.len() implies #[trigger] gap_lo(t, start, j) == t[j].start by {
        if j < i {
            assert(gap_lo(used, start, j) == used[j].start);
        }
    }
}

pub proof fn lemma_sum_nonneg(used: Seq<Used>)
    ensures
        sum_sizes(used) >= 0,
    decreases used.len(),
{
    if used.len() > 0 {
        lemma_sum_nonneg(used.drop_last());
    }
}

/// A layout without its last block is a layout.
pub proof fn lemma_layout_drop_last(used: Seq<Used>, start: Pos, end: Pos)
    requires
        layout(used, start, end),
        used.len() > 0,
    ensures
        layout(used.drop_last(), start, end),
{
    let d = used.drop_last();
    let n = used.len() as int;
    assert forall|i: int| 0 <= i <= d.len() implies #[trigger] gap_lo(d, start, i) <= gap_hi(
        d,
        end,
        i,
    ) by {
        if i < n - 1 {
            assert(gap_lo(used, start, i) <= gap_hi(used, end, i));
        } else {
            lemma_gap_bounds(used, start, end, n - 1);
        }
    }
    assert forall|i: int| 0 <= i < d.len() implies (#[trigger] d[i]).size > 0 by {
        assert(used[i].size > 0);
    }
}

/// Two layouts of the same blocks are the same sequence.
pub proof fn lemma_same_blocks(a: Seq<Used>, b: Seq<Used>, start: Pos, end: Pos)
    requires
        layout(a, start, end),
        layout(b, start, end),
        forall|u: Used| #[trigger] a.contains(u) <==> b.contains(u),
    ensures
        a == b,
    decreases a.len(),
{
    if a.len() == 0 {
        if b.len() > 0 {
            assert(b.contains(b[0]));
            assert(a.contains(b[0]));
            let k = choose|k: int| 0 <= k < a.len() && a[k] == b[0];
        }
        assert(a =~= b);
    } else {
        let x = a.last();
        assert(a.contains(x));
        assert(b.contains(x));
        let j = choose|j: int| 0 <= j < b.len() && b[j] == x;
        let y = b.last();
        assert(b.contains(y));
        assert(a.contains(y));
        let i = choose|i: int| 0 <= i < a.len() && a[i] == y;
        lemma_layout_sorted(a, start, end);
        lemma_layout_sorted(b, start, end);
        let la = a.len() - 1;
        let lb = b.len() - 1;
        if i < la {
            assert(a[i].start <= a[la].start);
        }
        if j < lb {
            assert(b[j].start <= b[lb].start);
        }
        assert(x.start == y.start);
        lemma_block_by_start(a, start, end, la, y);
        assert(x == y);
        lemma_remove_contains(a, start, end, la);
        lemma_remove_contains(b, start, end, lb);
        assert(a.remove(la) =~= a.drop_last());
        assert(b.remove(lb) =~= b.drop_last());
        lemma_layout_drop_last(a, start, end);
        lemma_layout_drop_last(b, start, end);
        assert forall|u: Used| #[trigger]
            a.drop_last().contains(u) <==> b.drop_last().contains(u) by {
            assert(a.remove(la).contains(u) <==> u != a[la] && a.contains(u));
            assert(b.remove(lb).contains(u) <==> u != b[lb] && b.contains(u));
        }
        lemma_same_blocks(a.drop_last(), b.drop_last(), start, end);
        assert(a =~= a.drop_last().push(x));
        assert(b =~= b.drop_last().push(y));
    }
}

/// In a sorted sequence the blocks before the rank of `pos` start below
/// `pos`, the others do not.
pub proof fn lemma_rank_split(used: Seq<Used>, pos: Pos)
    requires
        used_sorted(used),
    ensures
        0 <= rank_of(used, pos) <= used.len(),
        forall|i: int| 0 <= i < rank_of(used, pos) ==> (#[trigger] used[i]).start < pos,
        forall|i: int| rank_of(used, pos) <= i < used.len() ==> (#[trigger] used[i]).start >= pos,
    decreases used.len(),
{
    if used.len() > 0 {
        if used.last().start < pos {
            assert forall|i: int| 0 <= i < used.len() implies (#[trigger] used[i]).start < pos by {
                if i < used.len() - 1 {
                    assert(used[i].start <= used[used.len() - 1].start);
                }
            }
        } else {
            let d = used.drop_last();
            assert forall|i: int, j: int| 0 <= i < j < d.len() implies (#[trigger] d[i]).start <= (
            #[trigger] d[j]).start by {
                assert(used[i].start <= used[j].start);
            }
            lemma_rank_split(d, pos);
            assert forall|i: int| 0 <= i < rank_of(used, pos) implies (#[trigger] used[i]).start
                < pos by {
                assert(d[i].start < pos);
            }
            assert forall|i: int| rank_of(used, pos) <= i < used.len() implies (
            #[trigger] used[i]).start >= pos by {
                if i < used.len() - 1 {
                    assert(d[i].start >= pos);
                }
            }
        }
    }
}

/// The `n`-th gap is not among extents that are all gaps of a lower index.
proof fn lemma_fresh_gap(used: Seq<Used>, start: Pos, end: Pos, free: Seq<Free>, n: int, f: Free)
    requires
        layout(used, start, end),
        0 <= n <= used.len(),
        f.start == gap_lo(used, start, n),
        f.size == gap_hi(used, end, n) - gap_lo(used, start, n),
        f.size > 0,
        forall|j: int|
            0 <= j < free.len() ==> is_gap_below(used, start, end, #[trigger] free[j], n),
    ensures
        !free.contains(f),
        f == gap_at(used, start, end, n),
        has_gap(used, start, end, n),
{
    lemma_gap_at(used, start, end, n);
    if free.contains(f) {
        let j = choose|j: int| 0 <= j < free.len() && free[j] == f;
        assert(is_gap_below(used, start, end, free[j], n));
        let g = choose|g: int|
            0 <= g < n && has_gap(used, start, end, g) && #[trigger] gap_at(used, start, end, g)
                == f;
        lemma_gap_at(used, start, end, g);
        lemma_gap_unique(used, start, end, g, n);
    }
}

} // verus!
