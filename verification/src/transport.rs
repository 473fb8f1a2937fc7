//! Carrying assignments between the order of the input and the working order.
//!
//! An assignment of the input positions and the assignment of the working
//! positions that it induces put the same values into the same groups, so
//! they have the same counts, sums and amplitude.

use vstd::prelude::*;
use vstd::seq_lib::{commutative_foldl, lemma_fold_left_permutation};
use crate::input::{indexed, paired};
use crate::partition::{amplitude, group_count, group_sum, max_sum, min_sum, valid_assignment};

verus! {

/// The assignment of the working positions under which each value is in the
/// group that `b` gives to the input position it came from.
pub open spec fn carried(b: Seq<usize>, origin: Seq<usize>) -> Seq<usize> {
    Seq::new(origin.len(), |i: int| b[origin[i] as int])
}

/// Adds the value of a pair to the running sum if `b` sends its position to
/// group `g`.
pub open spec fn add_member(b: Seq<usize>, g: int) -> spec_fn(int, (int, i64)) -> int {
    |acc: int, e: (int, i64)| acc + if b[e.0] == g { e.1 as int } else { 0int }
}

/// Adds one to the running count if `b` sends the position of a pair to group
/// `g`.
pub open spec fn count_member(b: Seq<usize>, g: int) -> spec_fn(int, (int, i64)) -> int {
    |acc: int, e: (int, i64)| acc + if b[e.0] == g { 1int } else { 0int }
}

/// Folding over the values with their positions computes the sum and the
/// count of a group under an assignment of the input positions.
proof fn lemma_input_folds(raw: Seq<i64>, b: Seq<usize>, g: int, d: int)
    requires
        0 <= d <= raw.len(),
    ensures
        indexed(raw).take(d).fold_left(0int, add_member(b, g)) == group_sum(raw, b, g, d),
        indexed(raw).take(d).fold_left(0int, count_member(b, g)) == group_count(b, g, d),
    decreases d,
{
    let s = indexed(raw).take(d);
    if d > 0 {
        lemma_input_folds(raw, b, g, d - 1);
        assert(s.drop_last() =~= indexed(raw).take(d - 1));
        assert(s.last() == (d - 1, raw[d - 1]));
    }
}

/// Folding over the working values with their input positions computes the
/// sum and the count of a group under the induced assignment.
proof fn lemma_working_folds(
    vals: Seq<i64>,
    origin: Seq<usize>,
    b: Seq<usize>,
    g: int,
    d: int,
)
    requires
        0 <= d <= vals.len(),
        origin.len() == vals.len(),
    ensures
        paired(origin, vals).take(d).fold_left(0int, add_member(b, g)) == group_sum(
            vals,
            carried(b, origin),
            g,
            d,
        ),
        paired(origin, vals).take(d).fold_left(0int, count_member(b, g)) == group_count(
            carried(b, origin),
            g,
            d,
        ),
    decreases d,
{
    let s = paired(origin, vals).take(d);
    if d > 0 {
        lemma_working_folds(vals, origin, b, g, d - 1);
        assert(s.drop_last() =~= paired(origin, vals).take(d - 1));
        assert(s.last() == (origin[d - 1] as int, vals[d - 1]));
    }
}

/// An assignment of the input positions and the assignment it induces on the
/// working positions give every group the same count and the same sum.
pub proof fn lemma_carried_groups(
    raw: Seq<i64>,
    vals: Seq<i64>,
    origin: Seq<usize>,
    b: Seq<usize>,
    g: int,
)
    requires
        vals.len() == raw.len(),
        origin.len() == raw.len(),
        paired(origin, vals).to_multiset() == indexed(raw).to_multiset(),
    ensures
        group_sum(vals, carried(b, origin), g, vals.len() as int) == group_sum(
            raw,
            b,
            g,
            raw.len() as int,
        ),
        group_count(carried(b, origin), g, vals.len() as int) == group_count(
            b,
            g,
            raw.len() as int,
        ),
{
    let n = raw.len() as int;
    lemma_input_folds(raw, b, g, n);
    lemma_working_folds(vals, origin, b, g, n);
    assert(indexed(raw).take(n) =~= indexed(raw));
    assert(paired(origin, vals).take(n) =~= paired(origin, vals));
    assert(commutative_foldl(add_member(b, g)));
    assert(commutative_foldl(count_member(b, g)));
    lemma_fold_left_permutation(paired(origin, vals), indexed(raw), add_member(b, g), 0int);
    lemma_fold_left_permutation(paired(origin, vals), indexed(raw), count_member(b, g), 0int);
}

/// Two assignments, possibly of different sequences of values, that give
/// every group the same sum have the same extremes.
pub proof fn lemma_same_sums_same_extremes(
    v1: Seq<i64>,
    a1: Seq<usize>,
    v2: Seq<i64>,
    a2: Seq<usize>,
    k: int,
)
    requires
        forall|g: int|
            0 <= g < k ==> #[trigger] group_sum(v1, a1, g, a1.len() as int) == group_sum(
                v2,
                a2,
                g,
                a2.len() as int,
            ),
    ensures
        0 < k ==> max_sum(v1, a1, k) == max_sum(v2, a2, k),
        0 < k ==> min_sum(v1, a1, k) == min_sum(v2, a2, k),
        0 < k ==> amplitude(v1, a1, k) == amplitude(v2, a2, k),
    decreases k,
{
    if k > 1 {
        lemma_same_sums_same_extremes(v1, a1, v2, a2, k - 1);
        assert(group_sum(v1, a1, k - 1, a1.len() as int) == group_sum(
            v2,
            a2,
            k - 1,
            a2.len() as int,
        ));
    } else if k == 1 {
        assert(group_sum(v1, a1, 0, a1.len() as int) == group_sum(v2, a2, 0, a2.len() as int));
    }
}

/// A valid assignment of the input positions induces a valid assignment of
/// the working positions with the same amplitude.
pub proof fn lemma_carried_assignment(
    raw: Seq<i64>,
    vals: Seq<i64>,
    origin: Seq<usize>,
    b: Seq<usize>,
    k: int,
)
    requires
        vals.len() == raw.len(),
        origin.len() == raw.len(),
        paired(origin, vals).to_multiset() == indexed(raw).to_multiset(),
        forall|i: int| 0 <= i < raw.len() ==> (#[trigger] origin[i]) < raw.len(),
        valid_assignment(b, raw.len() as int, k),
    ensures
        valid_assignment(carried(b, origin), vals.len() as int, k),
        amplitude(vals, carried(b, origin), k) == amplitude(raw, b, k),
{
    let n = raw.len() as int;
    let c = carried(b, origin);
    assert forall|g: int| 0 <= g < k implies #[trigger] group_count(c, g, n) == n / k by {
        lemma_carried_groups(raw, vals, origin, b, g);
        assert(group_count(b, g, n) == n / k);
    }
    assert forall|i: int| 0 <= i < n implies (#[trigger] c[i]) < k by {
        assert(origin[i] < n);
        assert(b[origin[i] as int] < k);
    }
    assert forall|g: int| 0 <= g < k implies #[trigger] group_sum(vals, c, g, c.len() as int)
        == group_sum(raw, b, g, b.len() as int) by {
        lemma_carried_groups(raw, vals, origin, b, g);
    }
    lemma_same_sums_same_extremes(vals, c, raw, b, k);
}

} // verus!
