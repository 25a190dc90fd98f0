//! Division of the data rows of a table among a fixed number of workers.
//!
//! Data rows carry ordinals `1..=total_rows`; ordinal 0 is the header row and
//! belongs to no worker.

use vstd::prelude::*;

verus! {

/// The contiguous ordinals `start..end` given to one worker.
#[derive(Clone, Copy, Debug, PartialEq, Eq, Structural)]
pub struct RowRange {
    pub start: usize,
    pub end: usize,
    pub worker_ordinal: usize,
}

/// First ordinal of worker `i` (1-based) out of `w` workers.
pub open spec fn range_start(total: nat, w: nat, i: nat) -> nat {
    1 + (total / w) * ((i - 1) as nat)
}

/// One past the last ordinal of worker `i`; the last worker takes the remainder.
pub open spec fn range_end(total: nat, w: nat, i: nat) -> nat {
    if i == w {
        total + 1
    } else {
        1 + (total / w) * i
    }
}

/// Whether `r` is the ordinal of a data row when there are `total` of them.
pub open spec fn is_row_ordinal(total: nat, r: nat) -> bool {
    1 <= r <= total
}

/// Whether ordinal `r` falls in the range of worker `i`.
pub open spec fn in_range(total: nat, w: nat, i: nat, r: nat) -> bool {
    range_start(total, w, i) <= r < range_end(total, w, i)
}

proof fn lemma_chunk_bounds(total: nat, w: nat, i: nat)
    requires
        w >= 1,
        1 <= i <= w,
    ensures
        (total / w) * ((i - 1) as nat) <= (total / w) * i,
        (total / w) * i <= total,
{
    let c = total / w;
    assert(c * w <= total) by (nonlinear_arith)
        requires
            c == total / w,
            w >= 1,
    ;
    assert(c * ((i - 1) as nat) <= c * i) by (nonlinear_arith)
        requires
            i >= 1,
    ;
    assert(c * i <= c * w) by (nonlinear_arith)
        requires
            i <= w,
    ;
}

/// Neighbouring ranges meet, each range is well ordered, and the ends are fixed.
pub proof fn lemma_ranges_adjacent(total: nat, w: nat, i: nat)
    requires
        w >= 1,
        1 <= i <= w,
    ensures
        range_start(total, w, i) <= range_end(total, w, i),
        range_end(total, w, i) <= total + 1,
        i < w ==> range_end(total, w, i) == range_start(total, w, i + 1),
        i == 1 ==> range_start(total, w, i) == 1,
{
    lemma_chunk_bounds(total, w, i);
    if i < w {
        assert(((i + 1 - 1) as nat) == i);
    }
    if i == 1 {
        assert((total / w) * 0 == 0) by (nonlinear_arith);
    }
}

/// The ranges of workers `1..=k` together cover `1..range_end(k)` and nothing else.
proof fn lemma_prefix_cover(total: nat, w: nat, k: nat, r: nat)
    requires
        w >= 1,
        1 <= k <= w,
    ensures
        (1 <= r < range_end(total, w, k)) <==> (exists|i: nat|
            1 <= i <= k && #[trigger] in_range(total, w, i, r)),
    decreases k,
{
    lemma_ranges_adjacent(total, w, k);
    if k > 1 {
        lemma_prefix_cover(total, w, (k - 1) as nat, r);
        lemma_ranges_adjacent(total, w, (k - 1) as nat);
        if exists|i: nat| 1 <= i <= k && #[trigger] in_range(total, w, i, r) {
            let i = choose|i: nat|
                1 <= i <= k && #[trigger] in_range(total, w, i, r);
            if i < k {
                assert(exists|j: nat|
                    1 <= j <= (k - 1) as nat && #[trigger] in_range(total, w, j, r));
            }
        }
        if 1 <= r < range_end(total, w, k) && r >= range_start(total, w, k) {
            assert(1 <= k <= k && in_range(total, w, k, r));
        }
    } else {
        if 1 <= r < range_end(total, w, k) {
            assert(1 <= k <= k && in_range(total, w, k, r));
        }
    }
}

/// Later workers start where earlier ones have ended.
proof fn lemma_ranges_ordered(total: nat, w: nat, i: nat, j: nat)
    requires
        w >= 1,
        1 <= i < j <= w,
    ensures
        range_end(total, w, i) <= range_start(total, w, j),
    decreases j - i,
{
    lemma_ranges_adjacent(total, w, i);
    if i + 1 < j {
        lemma_ranges_ordered(total, w, i + 1, j);
        lemma_ranges_adjacent(total, w, i + 1);
    }
}

/// For any row count and any number of workers, the workers' ranges are pairwise
/// disjoint and together hold exactly the ordinals `1..=total`.
pub proof fn lemma_partition_coverage(total: nat, w: nat)
    requires
        w >= 1,
    ensures
        forall|r: nat|
            #[trigger] is_row_ordinal(total, r) ==> exists|i: nat|
                1 <= i <= w && #[trigger] in_range(total, w, i, r),
        forall|i: nat, r: nat|
            1 <= i <= w && #[trigger] in_range(total, w, i, r) ==> is_row_ordinal(total, r),
        forall|i: nat, j: nat, r: nat|
            1 <= i <= w && 1 <= j <= w && i != j && #[trigger] in_range(total, w, i, r)
                && #[trigger] in_range(total, w, j, r) ==> false,
{
    assert forall|r: nat| #[trigger] is_row_ordinal(total, r) implies exists|i: nat|
        1 <= i <= w && #[trigger] in_range(total, w, i, r) by {
        lemma_prefix_cover(total, w, w, r);
    }
    assert forall|i: nat, r: nat| 1 <= i <= w && #[trigger] in_range(total, w, i, r) implies is_row_ordinal(total, r) by {
        lemma_prefix_cover(total, w, w, r);
    }
    assert forall|i: nat, j: nat, r: nat|
        1 <= i <= w && 1 <= j <= w && i != j && in_range(total, w, i, r) && in_range(total, w, j, r) implies false by {
        if i < j {
            lemma_ranges_ordered(total, w, i, j);
        } else {
            lemma_ranges_ordered(total, w, j, i);
        }
    }
}

/// The range of worker `worker_ordinal` (1-based) when `total_rows` data rows are
/// shared among `worker_count` workers: equal chunks of `total_rows / worker_count`
/// rows, the remainder going to the last worker.
pub fn row_range(total_rows: usize, worker_count: usize, worker_ordinal: usize) -> (r: RowRange)
    requires
        worker_count >= 1,
        1 <= worker_ordinal <= worker_count,
        total_rows < usize::MAX,
    ensures
        r.start == range_start(total_rows as nat, worker_count as nat, worker_ordinal as nat),
        r.end == range_end(total_rows as nat, worker_count as nat, worker_ordinal as nat),
        r.worker_ordinal == worker_ordinal,
        r.start <= r.end <= total_rows + 1,
{
    proof {
        lemma_ranges_adjacent(total_rows as nat, worker_count as nat, worker_ordinal as nat);
        lemma_chunk_bounds(total_rows as nat, worker_count as nat, worker_ordinal as nat);
    }
    let chunk: usize = total_rows / worker_count;
    let start: usize = 1 + chunk * (worker_ordinal - 1);
    let end: usize = if worker_ordinal == worker_count {
        total_rows + 1
    } else {
        1 + chunk * worker_ordinal
    };
    RowRange { start, end, worker_ordinal }
}

/// The range of worker `i` of `w` for `total` data rows.
pub open spec fn planned_range(total: nat, w: nat, i: nat) -> RowRange {
    RowRange {
        start: range_start(total, w, i) as usize,
        end: range_end(total, w, i) as usize,
        worker_ordinal: i as usize,
    }
}

/// The ranges of all `worker_count` workers, in worker order.
pub fn worker_ranges(total_rows: usize, worker_count: usize) -> (r: Vec<RowRange>)
    requires
        worker_count >= 1,
        total_rows < usize::MAX,
    ensures
        r.len() == worker_count,
        forall|i: int|
            0 <= i < worker_count ==> #[trigger] r@[i] == planned_range(total_rows as nat, worker_count as nat, (i + 1) as nat),
{
    let mut r: Vec<RowRange> = Vec::new();
    let mut done: usize = 0;
    while done < worker_count
        invariant
            worker_count >= 1,
            total_rows < usize::MAX,
            done <= worker_count,
            r.len() == done,
            forall|i: int|
                0 <= i < done ==> #[trigger] r@[i] == planned_range(total_rows as nat, worker_count as nat, (i + 1) as nat),
        decreases worker_count - done,
    {
        r.push(row_range(total_rows, worker_count, done + 1));
        done = done + 1;
    }
    r
}

} // verus!
