//! The output layout: the values group by group, and the same layout read
//! back as consecutive teams.

use vstd::prelude::*;
use vstd::seq_lib::{lemma_multiset_commutative, to_multiset_build};
use crate::partition::{amplitude, group_count, group_sum, lemma_exact_division, total_sum};

verus! {

/// The values that `a` sends to group `g`, among the first `d`, in order.
pub open spec fn members(vals: Seq<i64>, a: Seq<usize>, g: int, d: int) -> Seq<i64>
    decreases d,
{
    if d <= 0 {
        Seq::empty()
    } else if a[d - 1] == g {
        members(vals, a, g, d - 1).push(vals[d - 1])
    } else {
        members(vals, a, g, d - 1)
    }
}

/// The first `d` values laid out group by group: the members of group 0, then
/// those of group 1, and so on up to group `k - 1`.
pub open spec fn arrangement_of(vals: Seq<i64>, a: Seq<usize>, k: int, d: int) -> Seq<i64>
    decreases k,
{
    if k <= 0 {
        Seq::empty()
    } else {
        arrangement_of(vals, a, k - 1, d) + members(vals, a, k - 1, d)
    }
}

/// All values laid out group by group, in ascending order of the group label
/// and, within a group, in working order.
pub open spec fn arrangement(vals: Seq<i64>, a: Seq<usize>, k: int) -> Seq<i64> {
    arrangement_of(vals, a, k, a.len() as int)
}

/// The assignment that reads a layout as consecutive teams: with `n` values
/// and `k` teams, position `i` belongs to team `i / (n / k)`.
pub open spec fn consecutive_teams(n: int, k: int) -> Seq<usize> {
    Seq::new(n as nat, |i: int| (i / (n / k)) as usize)
}

/// The amplitude of a layout read as `k` consecutive teams of equal size.
pub open spec fn team_amplitude(out: Seq<i64>, k: int) -> int {
    amplitude(out, consecutive_teams(out.len() as int, k), k)
}

/// Lays the values out group by group.
pub fn arrange(values: &Vec<i64>, assignment: &Vec<usize>, k: usize) -> (out: Vec<i64>)
    requires
        assignment.len() == values.len(),
    ensures
        out@ == arrangement(values@, assignment@, k as int),
{
    let n = values.len();
    let mut out: Vec<i64> = Vec::new();
    let mut g: usize = 0;
    while g < k
        invariant
            g <= k,
            n == values.len(),
            n == assignment.len(),
            out@ == arrangement_of(values@, assignment@, g as int, n as int),
        decreases k - g,
    {
        let ghost base = out@;
        let mut i: usize = 0;
        proof {
            assert(base + members(values@, assignment@, g as int, 0) =~= base);
        }
        while i < n
            invariant
                i <= n,
                n == values.len(),
                n == assignment.len(),
                out@ == base + members(values@, assignment@, g as int, i as int),
            decreases n - i,
        {
            if assignment[i] == g {
                out.push(values[i]);
                proof {
                    let before = members(values@, assignment@, g as int, i as int);
                    assert((base + before).push(values@[i as int]) =~= base + before.push(
                        values@[i as int],
                    ));
                }
            }
            i += 1;
        }
        g += 1;
    }
    out
}

/// A position whose label is not below `k` does not show in the layout of the
/// groups below `k`.
proof fn lemma_arrangement_skips(vals: Seq<i64>, a: Seq<usize>, k: int, d: int)
    requires
        0 < d,
        a[d - 1] >= k,
    ensures
        arrangement_of(vals, a, k, d) == arrangement_of(vals, a, k, d - 1),
    decreases k,
{
    if k > 0 {
        lemma_arrangement_skips(vals, a, k - 1, d);
    }
}

/// A position whose label is below `k` adds its value, once, to the layout of
/// the groups below `k`.
proof fn lemma_arrangement_step(vals: Seq<i64>, a: Seq<usize>, k: int, d: int)
    requires
        0 < d,
        a[d - 1] < k,
    ensures
        arrangement_of(vals, a, k, d).to_multiset() == arrangement_of(
            vals,
            a,
            k,
            d - 1,
        ).to_multiset().insert(vals[d - 1]),
    decreases k,
{
    let head = arrangement_of(vals, a, k - 1, d);
    let head_before = arrangement_of(vals, a, k - 1, d - 1);
    let tail = members(vals, a, k - 1, d);
    let tail_before = members(vals, a, k - 1, d - 1);
    lemma_multiset_commutative(head, tail);
    lemma_multiset_commutative(head_before, tail_before);
    if a[d - 1] == k - 1 {
        lemma_arrangement_skips(vals, a, k - 1, d);
        to_multiset_build(tail_before, vals[d - 1]);
        assert(head_before.to_multiset().add(tail_before.to_multiset().insert(vals[d - 1]))
            =~= head_before.to_multiset().add(tail_before.to_multiset()).insert(vals[d - 1]));
    } else {
        lemma_arrangement_step(vals, a, k - 1, d);
        assert(head_before.to_multiset().insert(vals[d - 1]).add(tail_before.to_multiset())
            =~= head_before.to_multiset().add(tail_before.to_multiset()).insert(vals[d - 1]));
    }
}

/// The layout of no values is empty.
proof fn lemma_arrangement_empty(vals: Seq<i64>, a: Seq<usize>, k: int)
    ensures
        arrangement_of(vals, a, k, 0) == Seq::<i64>::empty(),
    decreases k,
{
    if k > 0 {
        lemma_arrangement_empty(vals, a, k - 1);
        assert(Seq::<i64>::empty() + Seq::<i64>::empty() =~= Seq::<i64>::empty());
    }
}

/// Laying the values out group by group neither loses nor duplicates one: the
/// first `d` values and the layout are equal as multisets.
pub proof fn lemma_arrangement_permutes(vals: Seq<i64>, a: Seq<usize>, k: int, d: int)
    requires
        0 <= d <= vals.len(),
        d <= a.len(),
        forall|i: int| 0 <= i < d ==> (#[trigger] a[i]) < k,
    ensures
        arrangement_of(vals, a, k, d).to_multiset() == vals.take(d).to_multiset(),
    decreases d,
{
    if d > 0 {
        lemma_arrangement_permutes(vals, a, k, d - 1);
        assert(a[d - 1] < k);
        lemma_arrangement_step(vals, a, k, d);
        assert(vals.take(d) =~= vals.take(d - 1).push(vals[d - 1]));
        to_multiset_build(vals.take(d - 1), vals[d - 1]);
    } else {
        lemma_arrangement_empty(vals, a, k);
        assert(vals.take(0) =~= Seq::<i64>::empty());
    }
}

/// The sum of the first `d` values depends on those values only.
proof fn lemma_total_sum_prefix(s: Seq<i64>, t: Seq<i64>, d: int)
    requires
        0 <= d <= s.len(),
        d <= t.len(),
        forall|i: int| 0 <= i < d ==> s[i] == t[i],
    ensures
        total_sum(s, d) == total_sum(t, d),
    decreases d,
{
    if d > 0 {
        lemma_total_sum_prefix(s, t, d - 1);
    }
}

/// The members of a group, laid out, are as many as the group counts and add
/// up to the group sum.
pub proof fn lemma_members_total(vals: Seq<i64>, a: Seq<usize>, g: int, d: int)
    requires
        0 <= d,
    ensures
        members(vals, a, g, d).len() == group_count(a, g, d),
        total_sum(members(vals, a, g, d), group_count(a, g, d)) == group_sum(vals, a, g, d),
    decreases d,
{
    if d > 0 {
        lemma_members_total(vals, a, g, d - 1);
        if a[d - 1] == g {
            let before = members(vals, a, g, d - 1);
            lemma_total_sum_prefix(before.push(vals[d - 1]), before, before.len() as int);
        }
    }
}

/// With `m` members in each group, the layout of `k` groups has `k * m`
/// values.
proof fn lemma_arrangement_len(vals: Seq<i64>, a: Seq<usize>, k: int, m: int)
    requires
        0 <= k,
        forall|g: int| 0 <= g < k ==> #[trigger] group_count(a, g, a.len() as int) == m,
    ensures
        arrangement_of(vals, a, k, a.len() as int).len() == k * m,
    decreases k,
{
    if k > 0 {
        lemma_arrangement_len(vals, a, k - 1, m);
        lemma_members_total(vals, a, k - 1, a.len() as int);
        assert(group_count(a, k - 1, a.len() as int) == m);
        assert(k * m == (k - 1) * m + m) by (nonlinear_arith);
    } else {
        assert(0 * m == 0);
    }
}

/// With `m` members in each group, the members of group `g` occupy the `m`
/// positions of the layout from `g * m` on.
pub proof fn lemma_arrangement_team(vals: Seq<i64>, a: Seq<usize>, k: int, m: int, g: int)
    requires
        0 <= g < k,
        0 <= m,
        forall|h: int| 0 <= h < k ==> #[trigger] group_count(a, h, a.len() as int) == m,
    ensures
        arrangement_of(vals, a, k, a.len() as int).len() == k * m,
        g * m + m <= k * m,
        arrangement_of(vals, a, k, a.len() as int).subrange(g * m, g * m + m) == members(
            vals,
            a,
            g,
            a.len() as int,
        ),
    decreases k,
{
    let n = a.len() as int;
    lemma_arrangement_len(vals, a, k, m);
    lemma_arrangement_len(vals, a, k - 1, m);
    lemma_members_total(vals, a, k - 1, n);
    assert(group_count(a, k - 1, n) == m);
    let head = arrangement_of(vals, a, k - 1, n);
    let tail = members(vals, a, k - 1, n);
    assert(g * m + m <= k * m) by (nonlinear_arith)
        requires
            0 <= g < k,
            0 <= m,
    ;
    assert(k * m == (k - 1) * m + m) by (nonlinear_arith);
    if g == k - 1 {
        assert((head + tail).subrange(g * m, g * m + m) =~= tail);
    } else {
        lemma_arrangement_team(vals, a, k - 1, m, g);
        assert((head + tail).subrange(g * m, g * m + m) =~= head.subrange(g * m, g * m + m));
    }
}

/// Position `i` lies in the `g`-th stretch of `m` positions exactly when `i`
/// divided by `m` is `g`.
proof fn lemma_team_of_position(i: int, m: int, g: int)
    requires
        0 < m,
        0 <= i,
        0 <= g,
    ensures
        (i / m == g) <==> (g * m <= i < g * m + m),
{
    vstd::arithmetic::div_mod::lemma_fundamental_div_mod(i, m);
    vstd::arithmetic::div_mod::lemma_mod_bound(i, m);
    assert(m * (i / m) == (i / m) * m) by (nonlinear_arith);
    if g * m <= i < g * m + m {
        vstd::arithmetic::div_mod::lemma_fundamental_div_mod_converse(i, m, g, i - g * m);
    }
}

/// How much of team `g` lies below position `d`, for teams of `m`.
pub open spec fn team_part(d: int, m: int, g: int) -> int {
    if d <= g * m {
        0
    } else if d >= g * m + m {
        m
    } else {
        d - g * m
    }
}

/// Read as consecutive teams of `m`, a layout gives team `g`, below position
/// `d`, the sum of the part of its stretch that lies below `d`.
pub proof fn lemma_team_sum(out: Seq<i64>, k: int, m: int, g: int, d: int)
    requires
        0 < m,
        0 < k,
        out.len() == k * m,
        out.len() <= usize::MAX,
        0 <= g < k,
        0 <= d <= out.len(),
    ensures
        0 <= g * m,
        g * m + m <= out.len(),
        group_sum(out, consecutive_teams(out.len() as int, k), g, d) == total_sum(
            out.subrange(g * m, g * m + m),
            team_part(d, m, g),
        ),
    decreases d,
{
    let n = out.len() as int;
    assert(0 <= g * m && g * m + m <= k * m) by (nonlinear_arith)
        requires
            0 <= g < k,
            0 < m,
    ;
    lemma_exact_division(n, k, m);
    if d > 0 {
        lemma_team_sum(out, k, m, g, d - 1);
        lemma_team_of_position(d - 1, m, g);
        let label = (d - 1) / m;
        let rest = (d - 1) % m;
        vstd::arithmetic::div_mod::lemma_fundamental_div_mod(d - 1, m);
        vstd::arithmetic::div_mod::lemma_mod_bound(d - 1, m);
        assert(0 <= label <= d - 1) by (nonlinear_arith)
            requires
                0 < m,
                0 <= d - 1,
                d - 1 == m * label + rest,
                0 <= rest < m,
        ;
        assert(consecutive_teams(n, k)[d - 1] == label);
    }
}

} // verus!
