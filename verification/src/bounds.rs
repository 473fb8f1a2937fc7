//! Facts about group sums taken together: their total, their extremes, and
//! what a partial assignment already decides about the amplitude of every
//! completion.

use vstd::prelude::*;
use crate::partition::{
    amplitude, group_count, group_sum, lemma_group_sum_bounds, lemma_group_sum_window, max_sum,
    min_sum, total_sum, valid_assignment, AMPLITUDE_CAP, MAX_SIZE, SUM_CAP,
};

verus! {

/// Total, over the groups below `k`, of how many positions below `d` each holds.
pub open spec fn count_over_groups(a: Seq<usize>, k: int, d: int) -> int
    decreases k,
{
    if k <= 0 {
        0
    } else {
        count_over_groups(a, k - 1, d) + group_count(a, k - 1, d)
    }
}

/// Total, over the groups below `k`, of their sums below `d`.
pub open spec fn sum_over_groups(vals: Seq<i64>, a: Seq<usize>, k: int, d: int) -> int
    decreases k,
{
    if k <= 0 {
        0
    } else {
        sum_over_groups(vals, a, k - 1, d) + group_sum(vals, a, k - 1, d)
    }
}

/// The average of `k` group sums that add up to `total`, rounded down. No
/// smallest group sum lies above it.
pub open spec fn average_floor(total: int, k: int) -> int {
    total / k
}

/// The average of `k` group sums that add up to `total`, rounded up. No
/// largest group sum lies below it.
pub open spec fn average_ceiling(total: int, k: int) -> int {
    if total % k == 0 {
        total / k
    } else {
        total / k + 1
    }
}

/// The least amplitude that is left, given that some group sum will reach
/// `low`, some group sum will stay at or below `high`, and the `k` group sums
/// add up to `total`.
pub open spec fn lower_bound(low: int, high: int, total: int, k: int) -> int {
    let top = if low > average_ceiling(total, k) { low } else { average_ceiling(total, k) };
    let bottom = if high < average_floor(total, k) { high } else { average_floor(total, k) };
    top - bottom
}

/// The average of group sums that add up to a total within `SUM_CAP` is
/// within `SUM_CAP` too, give or take the rounding.
pub proof fn lemma_average_range(total: int, k: int)
    requires
        0 < k,
        -SUM_CAP <= total <= SUM_CAP,
    ensures
        -SUM_CAP - 1 <= average_floor(total, k) <= average_ceiling(total, k) <= SUM_CAP + 1,
{
    let q = total / k;
    let r = total % k;
    vstd::arithmetic::div_mod::lemma_fundamental_div_mod(total, k);
    vstd::arithmetic::div_mod::lemma_mod_bound(total, k);
    assert(-SUM_CAP - 1 <= q <= SUM_CAP) by (nonlinear_arith)
        requires
            0 < k,
            -SUM_CAP <= total <= SUM_CAP,
            total == k * q + r,
            0 <= r < k,
    ;
}

/// Whole numbers of which `k` together stay at or below `total` stay at or
/// below the average rounded down, and likewise from above.
pub proof fn lemma_average_bounds(bottom: int, top: int, total: int, k: int)
    requires
        0 < k,
        k * bottom <= total <= k * top,
    ensures
        bottom <= average_floor(total, k),
        average_ceiling(total, k) <= top,
        average_floor(total, k) <= average_ceiling(total, k),
{
    let q = total / k;
    let r = total % k;
    vstd::arithmetic::div_mod::lemma_fundamental_div_mod(total, k);
    vstd::arithmetic::div_mod::lemma_mod_bound(total, k);
    assert(bottom <= q) by (nonlinear_arith)
        requires
            0 < k,
            k * bottom <= total,
            total == k * q + r,
            0 <= r < k,
    ;
    assert(r == 0 ==> q <= top) by (nonlinear_arith)
        requires
            0 < k,
            total <= k * top,
            total == k * q + r,
            0 <= r < k,
    ;
    assert(r != 0 ==> q + 1 <= top) by (nonlinear_arith)
        requires
            0 < k,
            total <= k * top,
            total == k * q + r,
            0 <= r < k,
    ;
}

/// One more position adds one member, and its value, to the total over the
/// groups, provided its label is among them.
proof fn lemma_over_groups_step(vals: Seq<i64>, a: Seq<usize>, k: int, d: int)
    requires
        0 <= k,
        0 < d,
    ensures
        count_over_groups(a, k, d) == count_over_groups(a, k, d - 1) + if a[d - 1] < k {
            1int
        } else {
            0int
        },
        sum_over_groups(vals, a, k, d) == sum_over_groups(vals, a, k, d - 1) + if a[d - 1] < k {
            vals[d - 1] as int
        } else {
            0int
        },
    decreases k,
{
    if k > 0 {
        lemma_over_groups_step(vals, a, k - 1, d);
    }
}

/// Before any position is placed, the groups hold nothing.
proof fn lemma_over_groups_empty(vals: Seq<i64>, a: Seq<usize>, k: int)
    requires
        0 <= k,
    ensures
        count_over_groups(a, k, 0) == 0,
        sum_over_groups(vals, a, k, 0) == 0,
    decreases k,
{
    if k > 0 {
        lemma_over_groups_empty(vals, a, k - 1);
    }
}

/// When every position below `d` has a label below `k`, the groups together
/// hold `d` positions and the sum of the first `d` values.
pub proof fn lemma_over_groups_total(vals: Seq<i64>, a: Seq<usize>, k: int, d: int)
    requires
        0 <= k,
        0 <= d <= a.len(),
        forall|i: int| 0 <= i < d ==> (#[trigger] a[i]) < k,
    ensures
        count_over_groups(a, k, d) == d,
        sum_over_groups(vals, a, k, d) == total_sum(vals, d),
    decreases d,
{
    if d > 0 {
        lemma_over_groups_total(vals, a, k, d - 1);
        lemma_over_groups_step(vals, a, k, d);
        assert(a[d - 1] < k);
    } else {
        lemma_over_groups_empty(vals, a, k);
    }
}

/// Groups of at most `m` members hold at most `k * m` together, and exactly
/// that many only when each holds `m`.
proof fn lemma_counts_capped(a: Seq<usize>, k: int, d: int, m: int)
    requires
        0 <= k,
        forall|g: int| 0 <= g < k ==> #[trigger] group_count(a, g, d) <= m,
    ensures
        count_over_groups(a, k, d) <= k * m,
        count_over_groups(a, k, d) == k * m ==> forall|g: int|
            0 <= g < k ==> #[trigger] group_count(a, g, d) == m,
    decreases k,
{
    if k > 0 {
        lemma_counts_capped(a, k - 1, d, m);
        assert(group_count(a, k - 1, d) <= m);
        assert(k * m == (k - 1) * m + m) by (nonlinear_arith);
    } else {
        assert(0 * m == 0);
    }
}

/// Pigeonhole: `k * m` positions spread over `k` groups of capacity `m` fill
/// every group.
pub proof fn lemma_full_groups(a: Seq<usize>, k: int, m: int)
    requires
        0 <= k,
        a.len() == k * m,
        forall|i: int| 0 <= i < a.len() ==> (#[trigger] a[i]) < k,
        forall|g: int| 0 <= g < k ==> #[trigger] group_count(a, g, a.len() as int) <= m,
    ensures
        forall|g: int| 0 <= g < k ==> #[trigger] group_count(a, g, a.len() as int) == m,
{
    lemma_over_groups_total(Seq::empty(), a, k, a.len() as int);
    lemma_counts_capped(a, k, a.len() as int, m);
}

/// Pigeonhole, the other way: while fewer than `k * m` positions are placed,
/// some group below `k` still has room.
pub proof fn lemma_room_left(a: Seq<usize>, k: int, d: int, m: int) -> (g: int)
    requires
        0 <= k,
        0 <= d <= a.len(),
        d < k * m,
        forall|i: int| 0 <= i < d ==> (#[trigger] a[i]) < k,
        forall|g: int| 0 <= g < k ==> #[trigger] group_count(a, g, d) <= m,
    ensures
        0 <= g < k,
        group_count(a, g, d) < m,
{
    lemma_over_groups_total(Seq::empty(), a, k, d);
    lemma_some_count_below(a, k, d, m)
}

/// When the groups together hold fewer than `k * m`, one of them holds fewer
/// than `m`.
proof fn lemma_some_count_below(a: Seq<usize>, k: int, d: int, m: int) -> (g: int)
    requires
        0 <= k,
        count_over_groups(a, k, d) < k * m,
    ensures
        0 <= g < k,
        group_count(a, g, d) < m,
    decreases k,
{
    if k <= 0 {
        assert(0 * m == 0);
        0
    } else if group_count(a, k - 1, d) < m {
        k - 1
    } else {
        assert(k * m == (k - 1) * m + m) by (nonlinear_arith);
        lemma_some_count_below(a, k - 1, d, m)
    }
}

/// `max_sum` is the sum of some group and no group exceeds it; likewise
/// `min_sum` from below. The two witnesses are returned.
pub proof fn lemma_extremes(vals: Seq<i64>, a: Seq<usize>, k: int) -> (w: (int, int))
    requires
        0 < k,
    ensures
        0 <= w.0 < k,
        0 <= w.1 < k,
        max_sum(vals, a, k) == group_sum(vals, a, w.0, a.len() as int),
        min_sum(vals, a, k) == group_sum(vals, a, w.1, a.len() as int),
        forall|g: int|
            0 <= g < k ==> min_sum(vals, a, k) <= #[trigger] group_sum(vals, a, g, a.len() as int)
                <= max_sum(vals, a, k),
    decreases k,
{
    if k <= 1 {
        (0, 0)
    } else {
        let r = lemma_extremes(vals, a, k - 1);
        let s = group_sum(vals, a, k - 1, a.len() as int);
        (
            if s > max_sum(vals, a, k - 1) { k - 1 } else { r.0 },
            if s < min_sum(vals, a, k - 1) { k - 1 } else { r.1 },
        )
    }
}

/// Group sums that all lie in `[lo, hi]` add up to between `k * lo` and
/// `k * hi`.
proof fn lemma_sums_between(vals: Seq<i64>, a: Seq<usize>, k: int, lo: int, hi: int)
    requires
        0 <= k,
        forall|g: int| 0 <= g < k ==> lo <= #[trigger] group_sum(vals, a, g, a.len() as int) <= hi,
    ensures
        k * lo <= sum_over_groups(vals, a, k, a.len() as int) <= k * hi,
    decreases k,
{
    if k > 0 {
        lemma_sums_between(vals, a, k - 1, lo, hi);
        assert(lo <= group_sum(vals, a, k - 1, a.len() as int) <= hi);
        assert(k * lo == (k - 1) * lo + lo) by (nonlinear_arith);
        assert(k * hi == (k - 1) * hi + hi) by (nonlinear_arith);
    } else {
        assert(0 * lo == 0);
        assert(0 * hi == 0);
    }
}

/// The amplitude of any assignment over at most `MAX_SIZE` values lies in
/// `[0, AMPLITUDE_CAP]`.
pub proof fn lemma_amplitude_range(vals: Seq<i64>, a: Seq<usize>, k: int)
    requires
        0 < k,
        a.len() <= MAX_SIZE,
    ensures
        0 <= amplitude(vals, a, k) <= AMPLITUDE_CAP,
        -SUM_CAP <= min_sum(vals, a, k) <= max_sum(vals, a, k) <= SUM_CAP,
{
    let w = lemma_extremes(vals, a, k);
    lemma_group_sum_bounds(vals, a, w.0, a.len() as int);
    lemma_group_sum_bounds(vals, a, w.1, a.len() as int);
    assert(min_sum(vals, a, k) <= group_sum(vals, a, 0, a.len() as int) <= max_sum(vals, a, k));
}

/// What a prefix of length `d` already decides about every valid completion
/// `c`: group `gl` ends at or above its current sum plus `lo` for each member
/// it still lacks, group `gh` ends at or below its current sum plus `hi` for
/// each, and the group sums add up to the total. Hence the bound on the
/// amplitude.
pub proof fn lemma_completion_bound(
    vals: Seq<i64>,
    c: Seq<usize>,
    k: int,
    d: int,
    lo: int,
    hi: int,
    gl: int,
    gh: int,
)
    requires
        valid_assignment(c, vals.len() as int, k),
        0 <= d <= vals.len(),
        forall|i: int| d <= i < vals.len() ==> lo <= #[trigger] vals[i] <= hi,
        0 <= gl < k,
        0 <= gh < k,
    ensures
        amplitude(vals, c, k) >= lower_bound(
            group_sum(vals, c, gl, d) + (vals.len() / (k as nat) - group_count(c, gl, d)) * lo,
            group_sum(vals, c, gh, d) + (vals.len() / (k as nat) - group_count(c, gh, d)) * hi,
            total_sum(vals, vals.len() as int),
            k,
        ),
{
    let n = vals.len() as int;
    let m = n / k;
    let low = group_sum(vals, c, gl, d) + (m - group_count(c, gl, d)) * lo;
    let high = group_sum(vals, c, gh, d) + (m - group_count(c, gh, d)) * hi;
    let total = total_sum(vals, n);
    let top = max_sum(vals, c, k);
    let bottom = min_sum(vals, c, k);
    lemma_extremes(vals, c, k);
    lemma_group_sum_window(vals, c, gl, d, n, lo, hi);
    lemma_group_sum_window(vals, c, gh, d, n, lo, hi);
    assert(group_count(c, gl, n) == m);
    assert(group_count(c, gh, n) == m);
    assert(low <= group_sum(vals, c, gl, n) <= top);
    assert(bottom <= group_sum(vals, c, gh, n) <= high);
    lemma_sums_between(vals, c, k, bottom, top);
    lemma_over_groups_total(vals, c, k, n);
    lemma_average_bounds(bottom, top, total, k);
}

} // verus!
