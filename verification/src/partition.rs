//! The mathematical model: assignments of values to groups, group sums, and
//! the amplitude of a complete assignment.
//!
//! An assignment is a sequence `a` in which `a[i]` is the group of the value at
//! position `i`. Everything here is ghost code; the executable parts of the
//! crate state their contracts in these terms.

use vstd::prelude::*;

verus! {

/// Largest number of values the solver accepts.
pub const MAX_SIZE: usize = 24;

/// Smallest number of values the solver accepts.
pub const MIN_SIZE: usize = 2;

/// No sum of at most `MAX_SIZE` values leaves `[-SUM_CAP, SUM_CAP]`.
pub const SUM_CAP: i128 = 0xC_0000_0000_0000_0000;

/// No amplitude over at most `MAX_SIZE` values exceeds this.
pub const AMPLITUDE_CAP: i128 = 0x18_0000_0000_0000_0000;

/// Number of positions below `d` that `a` sends to group `g`.
pub open spec fn group_count(a: Seq<usize>, g: int, d: int) -> int
    decreases d,
{
    if d <= 0 {
        0
    } else {
        group_count(a, g, d - 1) + if a[d - 1] == g { 1int } else { 0int }
    }
}

/// Sum of the values at positions below `d` that `a` sends to group `g`.
pub open spec fn group_sum(vals: Seq<i64>, a: Seq<usize>, g: int, d: int) -> int
    decreases d,
{
    if d <= 0 {
        0
    } else {
        group_sum(vals, a, g, d - 1) + if a[d - 1] == g { vals[d - 1] as int } else { 0int }
    }
}

/// Sum of the values at positions below `d`.
pub open spec fn total_sum(vals: Seq<i64>, d: int) -> int
    decreases d,
{
    if d <= 0 {
        0
    } else {
        total_sum(vals, d - 1) + vals[d - 1]
    }
}

/// Largest sum among the groups below `k` under the complete assignment `a`.
pub open spec fn max_sum(vals: Seq<i64>, a: Seq<usize>, k: int) -> int
    decreases k,
{
    let s = group_sum(vals, a, k - 1, a.len() as int);
    if k <= 1 {
        s
    } else {
        let rest = max_sum(vals, a, k - 1);
        if s > rest { s } else { rest }
    }
}

/// Smallest sum among the groups below `k` under the complete assignment `a`.
pub open spec fn min_sum(vals: Seq<i64>, a: Seq<usize>, k: int) -> int
    decreases k,
{
    let s = group_sum(vals, a, k - 1, a.len() as int);
    if k <= 1 {
        s
    } else {
        let rest = min_sum(vals, a, k - 1);
        if s < rest { s } else { rest }
    }
}

/// Spread between the largest and the smallest of the `k` group sums.
pub open spec fn amplitude(vals: Seq<i64>, a: Seq<usize>, k: int) -> int {
    max_sum(vals, a, k) - min_sum(vals, a, k)
}

/// `a` sends each of `n` positions to one of `k` groups, and every group
/// receives exactly `n / k` of them.
pub open spec fn valid_assignment(a: Seq<usize>, n: int, k: int) -> bool {
    &&& 0 < k
    &&& 0 <= n
    &&& n % k == 0
    &&& a.len() == n
    &&& forall|i: int| 0 <= i < n ==> (#[trigger] a[i]) < k
    &&& forall|g: int| 0 <= g < k ==> #[trigger] group_count(a, g, n) == n / k
}

/// Number of groups that the first `d` positions of `a` have opened, when
/// groups are opened in increasing order: one more than the largest label.
pub open spec fn groups_opened(a: Seq<usize>, d: int) -> int
    decreases d,
{
    if d <= 0 {
        0
    } else {
        let before = groups_opened(a, d - 1);
        if a[d - 1] >= before { a[d - 1] + 1 } else { before }
    }
}

/// Groups are labelled in the order of their first member: position `i` uses
/// either a group that an earlier position used or the next unused label.
/// Every partition into groups has exactly one such labelling.
pub open spec fn canonical(a: Seq<usize>) -> bool {
    forall|i: int| 0 <= i < a.len() ==> (#[trigger] a[i]) <= groups_opened(a, i)
}

/// `a` and `b` agree below `i`, and `a` is smaller at `i`.
pub open spec fn precedes_at(a: Seq<usize>, b: Seq<usize>, i: int) -> bool {
    &&& 0 <= i < a.len()
    &&& i < b.len()
    &&& a[i] < b[i]
    &&& forall|j: int| 0 <= j < i ==> a[j] == b[j]
}

/// Lexicographic order on assignments: the order in which a depth-first
/// traversal that tries groups in increasing order reaches them.
pub open spec fn lex_lt(a: Seq<usize>, b: Seq<usize>) -> bool {
    exists|i: int| #[trigger] precedes_at(a, b, i)
}

/// `a` is at least as good as `b`: a smaller amplitude wins, and among equal
/// amplitudes the assignment that comes first lexicographically.
pub open spec fn no_worse(vals: Seq<i64>, k: int, a: Seq<usize>, b: Seq<usize>) -> bool {
    ||| amplitude(vals, a, k) < amplitude(vals, b, k)
    ||| (amplitude(vals, a, k) == amplitude(vals, b, k) && (a == b || lex_lt(a, b)))
}

/// `a` is the assignment the solver must return for `vals` and `k` groups: a
/// canonical valid assignment whose amplitude no valid assignment beats, and
/// the lexicographically first among the canonical ones that reach it.
pub open spec fn optimal_assignment(vals: Seq<i64>, k: int, a: Seq<usize>) -> bool {
    &&& valid_assignment(a, vals.len() as int, k)
    &&& canonical(a)
    &&& forall|b: Seq<usize>| #[trigger]
        valid_assignment(b, vals.len() as int, k) ==> amplitude(vals, a, k) <= amplitude(
            vals,
            b,
            k,
        )
    &&& forall|b: Seq<usize>|
        #[trigger] valid_assignment(b, vals.len() as int, k) && canonical(b) ==> no_worse(
            vals,
            k,
            a,
            b,
        )
}

/// `c` continues the partial assignment `p`.
pub open spec fn extends(c: Seq<usize>, p: Seq<usize>) -> bool {
    &&& p.len() <= c.len()
    &&& forall|i: int| 0 <= i < p.len() ==> c[i] == p[i]
}

/// Where the greedy rule sends the value at position `d`, given where `a`
/// sends the positions before it: to the group with the smallest sum among
/// those that hold fewer than `m` values, and among equal sums to the one with
/// the lowest label.
pub open spec fn greedy_choice(
    vals: Seq<i64>,
    a: Seq<usize>,
    k: int,
    m: int,
    d: int,
    g: int,
) -> bool {
    &&& 0 <= g < k
    &&& group_count(a, g, d) < m
    &&& forall|h: int|
        0 <= h < k && #[trigger] group_count(a, h, d) < m ==> group_sum(vals, a, g, d) < group_sum(
            vals,
            a,
            h,
            d,
        ) || (group_sum(vals, a, g, d) == group_sum(vals, a, h, d) && g <= h)
}

/// `a` is the assignment that the greedy rule builds for `vals` and `k`
/// groups, taking the values in order.
pub open spec fn greedy_assignment(vals: Seq<i64>, k: int, a: Seq<usize>) -> bool {
    &&& a.len() == vals.len()
    &&& forall|d: int|
        0 <= d < a.len() ==> greedy_choice(
            vals,
            a,
            k,
            vals.len() as int / k,
            d,
            #[trigger] a[d] as int,
        )
}

/// The largest of the first `d` values.
pub open spec fn largest_value(vals: Seq<i64>, d: int) -> int
    decreases d,
{
    if d <= 1 {
        vals[0] as int
    } else {
        let rest = largest_value(vals, d - 1);
        if vals[d - 1] > rest { vals[d - 1] as int } else { rest }
    }
}

/// The smallest of the first `d` values.
pub open spec fn smallest_value(vals: Seq<i64>, d: int) -> int
    decreases d,
{
    if d <= 1 {
        vals[0] as int
    } else {
        let rest = smallest_value(vals, d - 1);
        if vals[d - 1] < rest { vals[d - 1] as int } else { rest }
    }
}

/// The values are in descending order.
pub open spec fn sorted_descending(vals: Seq<i64>) -> bool {
    forall|i: int, j: int| 0 <= i <= j < vals.len() ==> vals[i] >= vals[j]
}

/// An assignment that comes before a partial assignment comes before each of
/// its continuations.
pub proof fn lemma_precedes_continuations(b: Seq<usize>, p: Seq<usize>, c: Seq<usize>)
    requires
        lex_lt(b, p),
        extends(c, p),
    ensures
        lex_lt(b, c),
{
    let i = choose|i: int| #[trigger] precedes_at(b, p, i);
    assert(precedes_at(b, c, i));
}

/// What comes before `p` continued with `g`: what comes before `p`, and the
/// continuations of `p` with a label below `g`.
pub proof fn lemma_before_branch(c: Seq<usize>, p: Seq<usize>, g: usize)
    ensures
        lex_lt(c, p.push(g)) <==> lex_lt(c, p) || (extends(c, p) && p.len() < c.len()
            && c[p.len() as int] < g),
{
    let q = p.push(g);
    let d = p.len() as int;
    if lex_lt(c, q) {
        let i = choose|i: int| #[trigger] precedes_at(c, q, i);
        if i < d {
            assert(precedes_at(c, p, i)) by {
                assert forall|j: int| 0 <= j <= i implies q[j] == p[j] by {}
            }
        } else {
            assert forall|j: int| 0 <= j < d implies c[j] == p[j] by {
                assert(q[j] == p[j]);
            }
        }
    }
    if lex_lt(c, p) {
        let i = choose|i: int| #[trigger] precedes_at(c, p, i);
        assert(precedes_at(c, q, i));
    }
    if extends(c, p) && d < c.len() && c[d] < g {
        assert(precedes_at(c, q, d));
    }
}

/// What comes before the sibling that follows `p`: what comes before `p`, and
/// the continuations of `p`.
pub proof fn lemma_before_next_sibling(c: Seq<usize>, p: Seq<usize>)
    requires
        0 < p.len() <= c.len(),
        p.last() < usize::MAX,
    ensures
        lex_lt(c, p.drop_last().push((p.last() + 1) as usize)) <==> lex_lt(c, p) || extends(c, p),
{
    let parent = p.drop_last();
    let a = p.last();
    assert(parent.push(a) =~= p);
    lemma_before_branch(c, parent, a);
    lemma_before_branch(c, parent, (a + 1) as usize);
    if extends(c, p) {
        assert forall|j: int| 0 <= j < parent.len() implies c[j] == parent[j] by {
            assert(p[j] == parent[j]);
        }
        assert(c[parent.len() as int] == p[parent.len() as int]);
    }
    if extends(c, parent) && c[parent.len() as int] == a {
        assert forall|j: int| 0 <= j < p.len() implies c[j] == p[j] by {
            if j < parent.len() {
                assert(p[j] == parent[j]);
            }
        }
    }
}

/// An assignment is neither before itself nor before one that is before it.
pub proof fn lemma_lex_asymmetric(a: Seq<usize>, b: Seq<usize>)
    requires
        lex_lt(a, b),
    ensures
        !lex_lt(b, a),
        a != b,
{
    let i = choose|i: int| #[trigger] precedes_at(a, b, i);
    if lex_lt(b, a) {
        let j = choose|j: int| #[trigger] precedes_at(b, a, j);
        if i < j {
            assert(b[i] == a[i]);
        } else if j < i {
            assert(a[j] == b[j]);
        }
    }
}

/// `k` groups of `m` members each account for `k * m` positions, exactly.
pub proof fn lemma_exact_division(n: int, k: int, m: int)
    requires
        0 < k,
        n == k * m,
    ensures
        n % k == 0,
        n / k == m,
{
    assert(n == m * k + 0) by (nonlinear_arith)
        requires
            n == k * m,
    ;
    vstd::arithmetic::div_mod::lemma_fundamental_div_mod_converse(n, k, m, 0);
}

/// Counts and sums below `d` depend only on the first `d` positions.
pub proof fn lemma_prefix_agreement(vals: Seq<i64>, a: Seq<usize>, b: Seq<usize>, g: int, d: int)
    requires
        0 <= d <= a.len(),
        d <= b.len(),
        forall|i: int| 0 <= i < d ==> a[i] == b[i],
    ensures
        group_count(a, g, d) == group_count(b, g, d),
        group_sum(vals, a, g, d) == group_sum(vals, b, g, d),
        groups_opened(a, d) == groups_opened(b, d),
    decreases d,
{
    if d > 0 {
        lemma_prefix_agreement(vals, a, b, g, d - 1);
    }
}

/// A group whose label is not below the number of groups opened has no member
/// yet.
pub proof fn lemma_unopened_group_empty(vals: Seq<i64>, a: Seq<usize>, g: int, d: int)
    requires
        groups_opened(a, d) <= g,
    ensures
        group_count(a, g, d) == 0,
        group_sum(vals, a, g, d) == 0,
    decreases d,
{
    if d > 0 {
        lemma_unopened_group_empty(vals, a, g, d - 1);
    }
}

/// Every label among the first `d` positions is below the number of groups
/// those positions have opened.
pub proof fn lemma_labels_below_opened(a: Seq<usize>, d: int, i: int)
    requires
        0 <= i < d,
    ensures
        a[i] < groups_opened(a, d),
    decreases d,
{
    if i < d - 1 {
        lemma_labels_below_opened(a, d - 1, i);
    }
}

/// A group with a positive count has a member.
pub proof fn lemma_member_of(a: Seq<usize>, g: int, d: int) -> (j: int)
    requires
        group_count(a, g, d) >= 1,
    ensures
        0 <= j < d,
        a[j] == g,
    decreases d,
{
    if d <= 0 {
        0
    } else if a[d - 1] == g {
        d - 1
    } else {
        lemma_member_of(a, g, d - 1)
    }
}

/// When the first `d` positions open the groups in increasing order, every
/// group they have opened has a member among them.
pub proof fn lemma_opened_group_has_member(a: Seq<usize>, g: int, d: int)
    requires
        forall|i: int| 0 <= i < d ==> (#[trigger] a[i]) <= groups_opened(a, i),
        0 <= g < groups_opened(a, d),
    ensures
        group_count(a, g, d) >= 1,
    decreases d,
{
    if d > 0 {
        lemma_group_count_nonnegative(a, g, d - 1);
        assert(a[d - 1] <= groups_opened(a, d - 1));
        if g < groups_opened(a, d - 1) {
            lemma_opened_group_has_member(a, g, d - 1);
        }
    }
}

/// A group's count never shrinks as the prefix grows, and grows by at most one
/// per position.
pub proof fn lemma_group_count_monotone(a: Seq<usize>, g: int, d: int, e: int)
    requires
        0 <= d <= e,
    ensures
        0 <= group_count(a, g, d) <= group_count(a, g, e),
        group_count(a, g, e) - group_count(a, g, d) <= e - d,
    decreases e,
{
    if d < e {
        lemma_group_count_monotone(a, g, d, e - 1);
    } else {
        lemma_group_count_nonnegative(a, g, d);
    }
}

/// A group holds no fewer than zero and no more than all of the positions
/// considered.
pub proof fn lemma_group_count_nonnegative(a: Seq<usize>, g: int, d: int)
    ensures
        0 <= group_count(a, g, d),
        d >= 0 ==> group_count(a, g, d) <= d,
    decreases d,
{
    if d > 0 {
        lemma_group_count_nonnegative(a, g, d - 1);
    }
}

/// Between two prefix lengths, a group's sum moves by at least `lo` and at most
/// `hi` per member gained, when every value in between lies in `[lo, hi]`.
pub proof fn lemma_group_sum_window(
    vals: Seq<i64>,
    a: Seq<usize>,
    g: int,
    d: int,
    e: int,
    lo: int,
    hi: int,
)
    requires
        0 <= d <= e,
        forall|i: int| d <= i < e ==> lo <= #[trigger] vals[i] <= hi,
    ensures
        (group_count(a, g, e) - group_count(a, g, d)) * lo <= group_sum(vals, a, g, e) - group_sum(
            vals,
            a,
            g,
            d,
        ),
        group_sum(vals, a, g, e) - group_sum(vals, a, g, d) <= (group_count(a, g, e) - group_count(
            a,
            g,
            d,
        )) * hi,
    decreases e,
{
    if d < e {
        lemma_group_sum_window(vals, a, g, d, e - 1, lo, hi);
        let c = group_count(a, g, e - 1) - group_count(a, g, d);
        assert(lo <= vals[e - 1] <= hi);
        assert((c + 1) * lo == c * lo + lo) by (nonlinear_arith);
        assert((c + 1) * hi == c * hi + hi) by (nonlinear_arith);
    } else {
        assert(0 * lo == 0);
        assert(0 * hi == 0);
    }
}

/// Every prefix sum of a group stays within `d` times the range of `i64`.
pub proof fn lemma_group_sum_bounds(vals: Seq<i64>, a: Seq<usize>, g: int, d: int)
    requires
        0 <= d,
    ensures
        -d * 0x8000_0000_0000_0000 <= group_sum(vals, a, g, d) <= d * 0x8000_0000_0000_0000,
    decreases d,
{
    if d > 0 {
        lemma_group_sum_bounds(vals, a, g, d - 1);
    }
}

/// The sum of `d` values stays within `d` times the range of `i64`.
pub proof fn lemma_total_sum_bounds(vals: Seq<i64>, d: int)
    requires
        0 <= d,
    ensures
        -d * 0x8000_0000_0000_0000 <= total_sum(vals, d) <= d * 0x8000_0000_0000_0000,
    decreases d,
{
    if d > 0 {
        lemma_total_sum_bounds(vals, d - 1);
    }
}

} // verus!
