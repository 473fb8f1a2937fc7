//! What holds of the solver as a whole: the output is determined by the
//! input, permutes it, is laid out in teams, and is optimal for the input as
//! given; the optimum is within the greedy estimate; and with one value per
//! group the amplitude is the range of the values.

use vstd::prelude::*;
use vstd::relations::{sorted_by, total_ordering};
use vstd::seq_lib::{lemma_sorted_unique, to_multiset_contains, to_multiset_len};
use crate::bounds::{lemma_amplitude_range, lemma_extremes};
use crate::entry::{best_assignment, collesort_output, is_working_order, working_order};
use crate::greedy::greedy_bound;
use crate::input::{indexed, paired};
use crate::layout::{
    arrangement, consecutive_teams, lemma_arrangement_permutes, lemma_arrangement_team,
    lemma_members_total, lemma_team_sum, members, team_amplitude,
};
use crate::partition::{
    amplitude, canonical, greedy_assignment, greedy_choice, group_count, group_sum,
    largest_value, lemma_exact_division, lemma_group_count_nonnegative, lemma_lex_asymmetric,
    lemma_member_of, lemma_prefix_agreement, optimal_assignment, precedes_at, smallest_value,
    total_sum, valid_assignment, AMPLITUDE_CAP, MAX_SIZE,
};
use crate::search::follows;
use crate::transport::{lemma_carried_assignment, lemma_same_sums_same_extremes};

verus! {

/// The values of a collection have one descending order only.
pub proof fn law_working_order_unique(raw: Seq<i64>, w1: Seq<i64>, w2: Seq<i64>)
    requires
        is_working_order(raw, w1),
        is_working_order(raw, w2),
    ensures
        w1 == w2,
{
    let geq = |a: i64, b: i64| a >= b;
    assert(total_ordering(geq));
    assert(sorted_by(w1, geq));
    assert(sorted_by(w2, geq));
    lemma_sorted_unique(w1, w2, geq);
}

/// A problem has one optimal assignment only: ties in amplitude are broken by
/// lexicographic order, which no two distinct assignments share.
pub proof fn law_optimal_unique(vals: Seq<i64>, k: int, a: Seq<usize>, b: Seq<usize>)
    requires
        optimal_assignment(vals, k, a),
        optimal_assignment(vals, k, b),
    ensures
        a == b,
{
    assert(valid_assignment(a, vals.len() as int, k));
    assert(valid_assignment(b, vals.len() as int, k));
    if a != b {
        lemma_lex_asymmetric(a, b);
    }
}

/// Determinism: whatever working order and whatever optimal assignment a run
/// arrives at, the output is the same, namely `collesort_output`.
pub proof fn law_output_determined(raw: Seq<i64>, k: int, w: Seq<i64>, a: Seq<usize>)
    requires
        is_working_order(raw, w),
        optimal_assignment(w, k, a),
    ensures
        arrangement(w, a, k) == collesort_output(raw, k),
{
    law_working_order_unique(raw, w, working_order(raw));
    law_optimal_unique(w, k, a, best_assignment(w, k));
}

/// The output holds every value of the input exactly once: laying values out
/// under a valid assignment permutes them.
pub proof fn law_output_permutes(vals: Seq<i64>, a: Seq<usize>, k: int)
    requires
        valid_assignment(a, vals.len() as int, k),
    ensures
        arrangement(vals, a, k).to_multiset() == vals.to_multiset(),
{
    lemma_arrangement_permutes(vals, a, k, vals.len() as int);
    assert(vals.take(vals.len() as int) =~= vals);
}

/// The optimum is never worse than the greedy estimate.
pub proof fn law_optimum_within_greedy(vals: Seq<i64>, k: int, a: Seq<usize>, bound: int)
    requires
        optimal_assignment(vals, k, a),
        greedy_bound(vals, k, bound),
    ensures
        amplitude(vals, a, k) <= bound,
{
}

/// The first `d` values lie between the smallest and the largest of them, and
/// both are among them. The positions of the two are returned.
pub proof fn lemma_value_extremes(vals: Seq<i64>, d: int) -> (w: (int, int))
    requires
        0 < d <= vals.len(),
    ensures
        0 <= w.0 < d,
        0 <= w.1 < d,
        largest_value(vals, d) == vals[w.0],
        smallest_value(vals, d) == vals[w.1],
        forall|i: int|
            0 <= i < d ==> smallest_value(vals, d) <= #[trigger] vals[i] <= largest_value(vals, d),
    decreases d,
{
    if d <= 1 {
        (0, 0)
    } else {
        let r = lemma_value_extremes(vals, d - 1);
        (
            if vals[d - 1] > largest_value(vals, d - 1) { d - 1 } else { r.0 },
            if vals[d - 1] < smallest_value(vals, d - 1) { d - 1 } else { r.1 },
        )
    }
}

/// A group with a member below `d` has a positive count there.
proof fn lemma_member_counts(a: Seq<usize>, j: int, d: int)
    requires
        0 <= j < d,
    ensures
        group_count(a, a[j] as int, d) >= 1,
    decreases d,
{
    lemma_group_count_nonnegative(a, a[j] as int, d - 1);
    if j < d - 1 {
        lemma_member_counts(a, j, d - 1);
    }
}

/// A group without a member has sum zero.
proof fn lemma_empty_group_sum(vals: Seq<i64>, a: Seq<usize>, g: int, d: int)
    requires
        group_count(a, g, d) == 0,
    ensures
        group_sum(vals, a, g, d) == 0,
    decreases d,
{
    if d > 0 {
        lemma_group_count_nonnegative(a, g, d - 1);
        lemma_empty_group_sum(vals, a, g, d - 1);
    }
}

/// The sum of a group with a single member is the value of that member.
proof fn lemma_single_member_sum(vals: Seq<i64>, a: Seq<usize>, j: int, d: int)
    requires
        0 <= j < d,
        group_count(a, a[j] as int, d) == 1,
    ensures
        group_sum(vals, a, a[j] as int, d) == vals[j],
    decreases d,
{
    let g = a[j] as int;
    if j == d - 1 {
        lemma_empty_group_sum(vals, a, g, d - 1);
    } else {
        lemma_member_counts(a, j, d - 1);
        lemma_single_member_sum(vals, a, j, d - 1);
    }
}

/// With as many groups as values, each group holds one value, and the
/// amplitude is the largest value minus the smallest.
pub proof fn law_one_value_per_group(vals: Seq<i64>, a: Seq<usize>)
    requires
        0 < vals.len(),
        valid_assignment(a, vals.len() as int, vals.len() as int),
    ensures
        amplitude(vals, a, vals.len() as int) == largest_value(vals, vals.len() as int)
            - smallest_value(vals, vals.len() as int),
{
    let n = vals.len() as int;
    assert(n / n == 1) by {
        lemma_exact_division(n, n, 1);
    }
    let w = lemma_extremes(vals, a, n);
    let v = lemma_value_extremes(vals, n);
    assert forall|j: int| 0 <= j < n implies group_sum(vals, a, (#[trigger] a[j]) as int, n)
        == vals[j] by {
        assert(a[j] < n);
        assert(group_count(a, a[j] as int, n) == 1);
        lemma_single_member_sum(vals, a, j, n);
    }
    assert(group_count(a, w.0, n) == 1);
    assert(group_count(a, w.1, n) == 1);
    let top = lemma_member_of(a, w.0, n);
    let bottom = lemma_member_of(a, w.1, n);
    assert(a[top] == w.0 && a[bottom] == w.1);
    assert(a[v.0] < n && a[v.1] < n);
    assert(group_sum(vals, a, a[v.0] as int, n) == vals[v.0]);
    assert(group_sum(vals, a, a[v.1] as int, n) == vals[v.1]);
    assert(group_sum(vals, a, a[top] as int, n) == vals[top]);
    assert(group_sum(vals, a, a[bottom] as int, n) == vals[bottom]);
}

/// Two greedy assignments of the same problem agree on the first `d`
/// positions.
proof fn lemma_greedy_agree(vals: Seq<i64>, k: int, a: Seq<usize>, b: Seq<usize>, d: int)
    requires
        greedy_assignment(vals, k, a),
        greedy_assignment(vals, k, b),
        0 <= d <= vals.len(),
    ensures
        forall|i: int| 0 <= i < d ==> a[i] == b[i],
    decreases d,
{
    if d > 0 {
        lemma_greedy_agree(vals, k, a, b, d - 1);
        let e = d - 1;
        let m = vals.len() as int / k;
        let x = a[e] as int;
        let y = b[e] as int;
        assert(greedy_choice(vals, a, k, m, e, x));
        assert(greedy_choice(vals, b, k, m, e, y));
        lemma_prefix_agreement(vals, a, b, x, e);
        lemma_prefix_agreement(vals, a, b, y, e);
        assert(group_count(a, y, e) < m);
        assert(group_count(b, x, e) < m);
    }
}

/// The greedy rule leaves no choice: a problem has one greedy assignment
/// only.
pub proof fn law_greedy_unique(vals: Seq<i64>, k: int, a: Seq<usize>, b: Seq<usize>)
    requires
        greedy_assignment(vals, k, a),
        greedy_assignment(vals, k, b),
    ensures
        a == b,
{
    lemma_greedy_agree(vals, k, a, b, vals.len() as int);
    assert(a =~= b);
}

/// Hence a problem has one greedy estimate only.
pub proof fn law_greedy_bound_unique(vals: Seq<i64>, k: int, b1: int, b2: int)
    requires
        greedy_bound(vals, k, b1),
        greedy_bound(vals, k, b2),
    ensures
        b1 == b2,
{
    let a1 = choose|a: Seq<usize>| #[trigger]
        greedy_assignment(vals, k, a) && valid_assignment(a, vals.len() as int, k) && canonical(a)
            && b1 == amplitude(vals, a, k);
    let a2 = choose|a: Seq<usize>| #[trigger]
        greedy_assignment(vals, k, a) && valid_assignment(a, vals.len() as int, k) && canonical(a)
            && b2 == amplitude(vals, a, k);
    law_greedy_unique(vals, k, a1, a2);
}

/// The output is laid out in teams: with `m` values per group, the `m`
/// values from position `g * m` on are the members of group `g`, and they add
/// up to the sum of group `g`. So the amplitude of the assignment is the
/// spread of the sums of the output's consecutive teams.
pub proof fn law_output_teams(vals: Seq<i64>, a: Seq<usize>, k: int, g: int)
    requires
        valid_assignment(a, vals.len() as int, k),
        0 <= g < k,
    ensures
        arrangement(vals, a, k).len() == vals.len(),
        ({
            let m = vals.len() as int / k;
            let team = arrangement(vals, a, k).subrange(g * m, g * m + m);
            &&& 0 <= g * m
            &&& g * m + m <= vals.len()
            &&& team == members(vals, a, g, vals.len() as int)
            &&& total_sum(team, m) == group_sum(vals, a, g, vals.len() as int)
        }),
{
    let n = vals.len() as int;
    let m = n / k;
    assert(group_count(a, g, n) == m);
    lemma_group_count_nonnegative(a, g, n);
    lemma_arrangement_team(vals, a, k, m, g);
    lemma_members_total(vals, a, g, n);
    vstd::arithmetic::div_mod::lemma_fundamental_div_mod(n, k);
    assert(k * m == n) by (nonlinear_arith)
        requires
            n == k * (n / k) + n % k,
            n % k == 0,
            m == n / k,
    ;
    assert(0 <= g * m) by (nonlinear_arith)
        requires
            0 <= g,
            0 <= m,
    ;
}

/// Read as consecutive teams, a layout has the amplitude of the assignment it
/// was laid out under.
pub proof fn law_output_amplitude(vals: Seq<i64>, a: Seq<usize>, k: int)
    requires
        valid_assignment(a, vals.len() as int, k),
        0 < vals.len() <= usize::MAX,
    ensures
        team_amplitude(arrangement(vals, a, k), k) == amplitude(vals, a, k),
{
    let n = vals.len() as int;
    let m = n / k;
    let out = arrangement(vals, a, k);
    let teams = consecutive_teams(n, k);
    vstd::arithmetic::div_mod::lemma_fundamental_div_mod(n, k);
    assert(n == k * m && 0 < m) by (nonlinear_arith)
        requires
            n == k * (n / k) + n % k,
            n % k == 0,
            m == n / k,
            0 < n,
            0 < k,
    ;
    law_output_teams(vals, a, k, 0);
    assert forall|g: int| 0 <= g < k implies #[trigger] group_sum(out, teams, g, teams.len() as int)
        == group_sum(vals, a, g, a.len() as int) by {
        law_output_teams(vals, a, k, g);
        lemma_team_sum(out, k, m, g, n);
    }
    lemma_same_sums_same_extremes(out, teams, vals, a, k);
}

/// The solver's result is optimal for the input as given: no way of sending
/// the input positions to `k` groups of equal size has a smaller amplitude
/// than the layout, read as consecutive teams, of the optimal assignment of
/// the working order.
pub proof fn law_optimal_for_input(
    raw: Seq<i64>,
    vals: Seq<i64>,
    origin: Seq<usize>,
    a: Seq<usize>,
    b: Seq<usize>,
    k: int,
)
    requires
        0 < raw.len() <= usize::MAX,
        vals.len() == raw.len(),
        origin.len() == raw.len(),
        paired(origin, vals).to_multiset() == indexed(raw).to_multiset(),
        forall|i: int| 0 <= i < raw.len() ==> (#[trigger] origin[i]) < raw.len(),
        optimal_assignment(vals, k, a),
        valid_assignment(b, raw.len() as int, k),
    ensures
        team_amplitude(arrangement(vals, a, k), k) <= amplitude(raw, b, k),
{
    lemma_carried_assignment(raw, vals, origin, b, k);
    law_output_amplitude(vals, a, k);
}

/// Collections with the same values have the same largest and the same
/// smallest value.
proof fn lemma_same_values_same_range(s: Seq<i64>, t: Seq<i64>)
    requires
        0 < s.len(),
        s.to_multiset() == t.to_multiset(),
    ensures
        s.len() == t.len(),
        largest_value(s, s.len() as int) == largest_value(t, t.len() as int),
        smallest_value(s, s.len() as int) == smallest_value(t, t.len() as int),
{
    to_multiset_len(s);
    to_multiset_len(t);
    let ws = lemma_value_extremes(s, s.len() as int);
    let wt = lemma_value_extremes(t, t.len() as int);
    to_multiset_contains(s, s[ws.0]);
    to_multiset_contains(t, s[ws.0]);
    to_multiset_contains(s, s[ws.1]);
    to_multiset_contains(t, s[ws.1]);
    to_multiset_contains(s, t[wt.0]);
    to_multiset_contains(t, t[wt.0]);
    to_multiset_contains(s, t[wt.1]);
    to_multiset_contains(t, t[wt.1]);
    assert(s.contains(s[ws.0]) && s.contains(s[ws.1]));
    assert(t.contains(t[wt.0]) && t.contains(t[wt.1]));
    let i0 = choose|i: int| 0 <= i < t.len() && t[i] == s[ws.0];
    let i1 = choose|i: int| 0 <= i < t.len() && t[i] == s[ws.1];
    let j0 = choose|j: int| 0 <= j < s.len() && s[j] == t[wt.0];
    let j1 = choose|j: int| 0 <= j < s.len() && s[j] == t[wt.1];
    assert(t[i0] <= largest_value(t, t.len() as int));
    assert(t[i1] >= smallest_value(t, t.len() as int));
    assert(s[j0] <= largest_value(s, s.len() as int));
    assert(s[j1] >= smallest_value(s, s.len() as int));
}

/// In the assignment that gives each position a group of its own, a group
/// below `d` holds one of the first `d` positions and any other group none.
proof fn lemma_singleton_teams(n: int, g: int, d: int)
    requires
        0 < n <= usize::MAX,
        0 <= d <= n,
        0 <= g,
    ensures
        group_count(consecutive_teams(n, n), g, d) == if g < d { 1int } else { 0int },
    decreases d,
{
    if d > 0 {
        lemma_singleton_teams(n, g, d - 1);
        lemma_exact_division(n, n, 1);
        assert(consecutive_teams(n, n)[d - 1] == d - 1);
    }
}

/// With as many teams as values, the amplitude of the output is the largest
/// value of the input minus the smallest, whatever the order of the output.
pub proof fn law_one_value_per_team(raw: Seq<i64>, out: Seq<i64>)
    requires
        0 < raw.len() <= usize::MAX,
        out.to_multiset() == raw.to_multiset(),
    ensures
        team_amplitude(out, raw.len() as int) == largest_value(raw, raw.len() as int)
            - smallest_value(raw, raw.len() as int),
{
    let n = raw.len() as int;
    lemma_same_values_same_range(raw, out);
    let teams = consecutive_teams(n, n);
    lemma_exact_division(n, n, 1);
    assert forall|g: int| 0 <= g < n implies #[trigger] group_count(teams, g, n) == n / n by {
        lemma_singleton_teams(n, g, n);
    }
    assert forall|i: int| 0 <= i < n implies (#[trigger] teams[i]) < n by {
        assert(teams[i] == i);
    }
    law_one_value_per_group(out, teams);
}

/// The first `d` labels of `a`, read as the digits of a number in base `k`.
pub open spec fn label_code(a: Seq<usize>, k: int, d: int) -> int
    decreases d,
{
    if d <= 0 {
        0
    } else {
        label_code(a, k, d - 1) * k + a[d - 1]
    }
}

/// The number of sequences of `d` labels below `k`: `k` to the power `d`.
pub open spec fn label_span(k: int, d: int) -> int
    decreases d,
{
    if d <= 0 {
        1
    } else {
        label_span(k, d - 1) * k
    }
}

/// The place of the assignment `c` in the order of the cursor, as a number:
/// amplitudes first, and within an amplitude the labels read as digits.
pub open spec fn rank(vals: Seq<i64>, k: int, c: Seq<usize>) -> int {
    amplitude(vals, c, k) * label_span(k, c.len() as int) + label_code(c, k, c.len() as int)
}

/// Labels below `k` read as a number below `k` to the power of their count.
proof fn lemma_code_range(a: Seq<usize>, k: int, d: int)
    requires
        0 < k,
        0 <= d <= a.len(),
        forall|i: int| 0 <= i < d ==> (#[trigger] a[i]) < k,
    ensures
        0 <= label_code(a, k, d) < label_span(k, d),
    decreases d,
{
    if d > 0 {
        lemma_code_range(a, k, d - 1);
        let c = label_code(a, k, d - 1);
        let s = label_span(k, d - 1);
        assert(a[d - 1] < k);
        assert(0 <= c * k && c * k + k <= s * k) by (nonlinear_arith)
            requires
                0 <= c < s,
                0 < k,
        ;
    }
}

/// Lexicographic order is the order of the labels read as numbers.
proof fn lemma_code_order(a: Seq<usize>, b: Seq<usize>, k: int, i: int, d: int)
    requires
        0 < k,
        precedes_at(a, b, i),
        i < d <= a.len(),
        d <= b.len(),
        forall|j: int| 0 <= j < d ==> (#[trigger] a[j]) < k,
        forall|j: int| 0 <= j < d ==> (#[trigger] b[j]) < k,
    ensures
        label_code(a, k, d) < label_code(b, k, d),
    decreases d,
{
    let x = label_code(a, k, d - 1);
    let y = label_code(b, k, d - 1);
    assert(a[d - 1] < k && b[d - 1] < k);
    if d - 1 == i {
        lemma_code_prefix(a, b, k, i);
    } else {
        lemma_code_order(a, b, k, i, d - 1);
        assert(x * k + k <= y * k) by (nonlinear_arith)
            requires
                x < y,
                0 < k,
        ;
    }
}

/// Assignments that agree on the first `d` positions read as the same number
/// there.
proof fn lemma_code_prefix(a: Seq<usize>, b: Seq<usize>, k: int, d: int)
    requires
        0 <= d <= a.len(),
        d <= b.len(),
        forall|j: int| 0 <= j < d ==> a[j] == b[j],
    ensures
        label_code(a, k, d) == label_code(b, k, d),
    decreases d,
{
    if d > 0 {
        lemma_code_prefix(a, b, k, d - 1);
    }
}

/// The enumeration is finite: each assignment that a cursor hands out has a
/// higher rank than the one before, and no rank of a valid assignment of at
/// most `MAX_SIZE` values is negative or exceeds `AMPLITUDE_CAP + 1` times the
/// number of label sequences.
pub proof fn law_enumeration_advances(vals: Seq<i64>, k: int, f: Seq<usize>, c: Seq<usize>)
    requires
        vals.len() <= MAX_SIZE,
        valid_assignment(f, vals.len() as int, k),
        valid_assignment(c, vals.len() as int, k),
        follows(vals, k, f, c),
    ensures
        0 <= rank(vals, k, f) < rank(vals, k, c) < (AMPLITUDE_CAP + 1) * label_span(
            k,
            vals.len() as int,
        ),
{
    let n = vals.len() as int;
    let span = label_span(k, n);
    let x = amplitude(vals, f, k);
    let y = amplitude(vals, c, k);
    lemma_amplitude_range(vals, f, k);
    lemma_amplitude_range(vals, c, k);
    lemma_code_range(f, k, n);
    lemma_code_range(c, k, n);
    assert(0 <= x * span && y * span + span <= (AMPLITUDE_CAP + 1) * span) by (nonlinear_arith)
        requires
            0 <= x,
            0 <= y <= AMPLITUDE_CAP,
            0 < span,
    ;
    if x < y {
        assert(x * span + span <= y * span) by (nonlinear_arith)
            requires
                x < y,
                0 < span,
        ;
    } else {
        let i = choose|i: int| #[trigger] precedes_at(f, c, i);
        lemma_code_order(f, c, k, i, n);
    }
}

} // verus!
