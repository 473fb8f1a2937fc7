//! Group labels are interchangeable: renaming the groups of an assignment
//! changes neither its validity nor its amplitude, and every assignment can be
//! renamed into a canonical one.

use vstd::prelude::*;
use crate::bounds::lemma_extremes;
use crate::partition::{
    amplitude, canonical, group_count, group_sum, groups_opened, lemma_labels_below_opened,
    lemma_prefix_agreement, max_sum, min_sum, valid_assignment,
};

verus! {

/// The label `g` after exchanging the labels `x` and `y`.
pub open spec fn exchanged(g: int, x: int, y: int) -> int {
    if g == x {
        y
    } else if g == y {
        x
    } else {
        g
    }
}

/// The assignment `a` with the labels `x` and `y` exchanged.
pub open spec fn exchange_labels(a: Seq<usize>, x: usize, y: usize) -> Seq<usize> {
    Seq::new(a.len(), |i: int| exchanged(a[i] as int, x as int, y as int) as usize)
}

/// After an exchange, each group holds what its counterpart held.
pub proof fn lemma_exchange_groups(
    vals: Seq<i64>,
    a: Seq<usize>,
    x: usize,
    y: usize,
    g: int,
    d: int,
)
    requires
        0 <= d <= a.len(),
    ensures
        group_count(exchange_labels(a, x, y), exchanged(g, x as int, y as int), d) == group_count(
            a,
            g,
            d,
        ),
        group_sum(vals, exchange_labels(a, x, y), exchanged(g, x as int, y as int), d) == group_sum(
            vals,
            a,
            g,
            d,
        ),
    decreases d,
{
    if d > 0 {
        lemma_exchange_groups(vals, a, x, y, g, d - 1);
    }
}

/// An exchange of two labels keeps an assignment valid and keeps its
/// amplitude.
pub proof fn lemma_exchange_preserves(vals: Seq<i64>, a: Seq<usize>, k: int, x: usize, y: usize)
    requires
        valid_assignment(a, vals.len() as int, k),
        x < k,
        y < k,
    ensures
        valid_assignment(exchange_labels(a, x, y), vals.len() as int, k),
        amplitude(vals, exchange_labels(a, x, y), k) == amplitude(vals, a, k),
{
    let n = vals.len() as int;
    let b = exchange_labels(a, x, y);
    assert forall|g: int| 0 <= g < k implies #[trigger] group_count(b, g, n) == n / k by {
        let h = exchanged(g, x as int, y as int);
        lemma_exchange_groups(vals, a, x, y, h, n);
        assert(exchanged(h, x as int, y as int) == g);
        assert(group_count(a, h, n) == n / k);
    }
    assert forall|i: int| 0 <= i < n implies (#[trigger] b[i]) < k by {
        assert(a[i] < k);
    }
    let wa = lemma_extremes(vals, a, k);
    let wb = lemma_extremes(vals, b, k);
    // Each extreme of one assignment is a group sum of the other.
    lemma_exchange_groups(vals, a, x, y, wa.0, n);
    lemma_exchange_groups(vals, a, x, y, wa.1, n);
    let hb0 = exchanged(wb.0, x as int, y as int);
    let hb1 = exchanged(wb.1, x as int, y as int);
    lemma_exchange_groups(vals, a, x, y, hb0, n);
    lemma_exchange_groups(vals, a, x, y, hb1, n);
    assert(exchanged(hb0, x as int, y as int) == wb.0);
    assert(exchanged(hb1, x as int, y as int) == wb.1);
    let ga0 = exchanged(wa.0, x as int, y as int);
    let ga1 = exchanged(wa.1, x as int, y as int);
    assert(group_sum(vals, b, ga0, n) == max_sum(vals, a, k));
    assert(group_sum(vals, b, ga1, n) == min_sum(vals, a, k));
    assert(group_sum(vals, a, hb0, n) == max_sum(vals, b, k));
    assert(group_sum(vals, a, hb1, n) == min_sum(vals, b, k));
}

/// Renames the groups of the valid assignment `a`, whose first `j` positions
/// already open the groups in increasing order, into a canonical assignment.
/// The renamed assignment is valid and has the amplitude of `a`.
pub proof fn lemma_canonical_labelling(vals: Seq<i64>, a: Seq<usize>, k: int, j: int) -> (c: Seq<
    usize,
>)
    requires
        valid_assignment(a, vals.len() as int, k),
        0 <= j <= vals.len(),
        forall|i: int| 0 <= i < j ==> (#[trigger] a[i]) <= groups_opened(a, i),
    ensures
        valid_assignment(c, vals.len() as int, k),
        canonical(c),
        amplitude(vals, c, k) == amplitude(vals, a, k),
    decreases vals.len() - j,
{
    let n = vals.len() as int;
    if j == n {
        a
    } else if a[j] <= groups_opened(a, j) {
        lemma_canonical_labelling(vals, a, k, j + 1)
    } else {
        let y = a[j];
        assert(y < k);
        lemma_opened_nonnegative(a, j);
        let x = groups_opened(a, j) as usize;
        let b = exchange_labels(a, x, y);
        lemma_exchange_preserves(vals, a, k, x, y);
        assert forall|i: int| 0 <= i < j implies b[i] == a[i] by {
            lemma_labels_below_opened(a, j, i);
        }
        assert forall|i: int| 0 <= i < j + 1 implies (#[trigger] b[i]) <= groups_opened(b, i) by {
            lemma_prefix_agreement(vals, b, a, 0, i);
            if i < j {
                assert(a[i] <= groups_opened(a, i));
            }
        }
        lemma_canonical_labelling(vals, b, k, j + 1)
    }
}

/// The number of groups opened is never negative.
proof fn lemma_opened_nonnegative(a: Seq<usize>, d: int)
    ensures
        0 <= groups_opened(a, d),
    decreases d,
{
    if d > 0 {
        lemma_opened_nonnegative(a, d - 1);
    }
}

} // verus!
