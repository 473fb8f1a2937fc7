//! How far a traversal of the search tree has come, as a number that grows
//! with every step and cannot grow for ever.
//!
//! A position of the traversal is a partial assignment together with the
//! group that is tried next for the value that follows it. Read as digits,
//! most significant first, a placed label `x` counts as `2 * x + 1` and the
//! group tried next, `g`, as `2 * g`; so descending, moving on to the next
//! group and stepping back to the parent all make the number larger.

use vstd::prelude::*;

verus! {

/// The base of the numeral: more than any digit for labels below `k`.
pub open spec fn radix(k: int) -> int {
    2 * k + 2
}

/// The value of the digit that is `r` places from the end.
pub open spec fn weight(k: int, r: int) -> int
    decreases r,
{
    if r <= 0 {
        1
    } else {
        radix(k) * weight(k, r - 1)
    }
}

/// The number that the first `d` labels of `p` contribute, for `n` values in
/// all.
pub open spec fn progress_of(p: Seq<usize>, k: int, n: int, d: int) -> int
    decreases d,
{
    if d <= 0 {
        0
    } else {
        progress_of(p, k, n, d - 1) + (2 * p[d - 1] + 1) * weight(k, n - (d - 1))
    }
}

/// The number of the position at which `g` is tried next after `p`.
pub open spec fn progress(p: Seq<usize>, g: int, k: int, n: int) -> int {
    progress_of(p, k, n, p.len() as int) + 2 * g * weight(k, n - p.len())
}

/// Every digit weighs at least one.
pub proof fn lemma_weight_positive(k: int, r: int)
    requires
        0 <= k,
    ensures
        1 <= weight(k, r),
    decreases r,
{
    if r > 0 {
        lemma_weight_positive(k, r - 1);
        assert(1 <= radix(k) * weight(k, r - 1)) by (nonlinear_arith)
            requires
                2 <= radix(k),
                1 <= weight(k, r - 1),
        ;
    }
}

/// The contribution of the first `d` labels depends on those labels only.
pub proof fn lemma_progress_prefix(p: Seq<usize>, q: Seq<usize>, k: int, n: int, d: int)
    requires
        0 <= d <= p.len(),
        d <= q.len(),
        forall|i: int| 0 <= i < d ==> p[i] == q[i],
    ensures
        progress_of(p, k, n, d) == progress_of(q, k, n, d),
    decreases d,
{
    if d > 0 {
        lemma_progress_prefix(p, q, k, n, d - 1);
    }
}

/// The first `d` labels leave room for the digits that follow them.
proof fn lemma_progress_room(p: Seq<usize>, k: int, n: int, d: int)
    requires
        0 <= d <= p.len(),
        d <= n,
        forall|i: int| 0 <= i < d ==> (#[trigger] p[i]) < k,
    ensures
        0 <= progress_of(p, k, n, d),
        progress_of(p, k, n, d) + weight(k, n - d + 1) <= weight(k, n + 1),
    decreases d,
{
    if d > 0 {
        assert(p[d - 1] < k);
        lemma_progress_room(p, k, n, d - 1);
        lemma_weight_positive(k, n - d + 1);
        let w = weight(k, n - d + 1);
        let digit = 2 * p[d - 1] + 1;
        assert(0 <= digit * w && digit * w + w <= radix(k) * w) by (nonlinear_arith)
            requires
                0 <= digit,
                digit + 1 <= radix(k),
                1 <= w,
        ;
    }
}

/// No position has a number below zero or as large as the weight of one digit
/// more than there are values.
pub proof fn lemma_progress_limit(p: Seq<usize>, g: int, k: int, n: int)
    requires
        p.len() <= n,
        0 <= g <= k,
        forall|i: int| 0 <= i < p.len() ==> (#[trigger] p[i]) < k,
    ensures
        0 <= progress(p, g, k, n) < weight(k, n + 1),
{
    let d = p.len() as int;
    lemma_progress_room(p, k, n, d);
    lemma_weight_positive(k, n - d);
    let w = weight(k, n - d);
    assert(0 <= 2 * g * w && 2 * g * w < radix(k) * w) by (nonlinear_arith)
        requires
            0 <= g <= k,
            radix(k) == 2 * k + 2,
            1 <= w,
    ;
}

/// Placing the next value in the group tried leads to a later position.
pub proof fn lemma_progress_descend(p: Seq<usize>, g: usize, k: int, n: int)
    requires
        0 <= k,
        p.len() < n,
    ensures
        progress(p, g as int, k, n) < progress(p.push(g), 0, k, n),
{
    let d = p.len() as int;
    lemma_progress_prefix(p.push(g), p, k, n, d);
    lemma_weight_positive(k, n - d);
    let w = weight(k, n - d);
    assert((2 * g + 1) * w == 2 * g * w + w) by (nonlinear_arith);
    let below = weight(k, n - (d + 1));
    assert(2 * 0 * below == 0) by (nonlinear_arith);
}

/// Trying the next group is a later position.
pub proof fn lemma_progress_skip(p: Seq<usize>, g: int, k: int, n: int)
    requires
        0 <= k,
    ensures
        progress(p, g, k, n) < progress(p, g + 1, k, n),
{
    lemma_weight_positive(k, n - p.len());
    let w = weight(k, n - p.len());
    assert(2 * (g + 1) * w == 2 * g * w + 2 * w) by (nonlinear_arith);
}

/// Stepping back to the parent, there to try the group after the one just
/// left, is a later position.
pub proof fn lemma_progress_backtrack(p: Seq<usize>, g: int, k: int, n: int)
    requires
        0 < p.len() <= n,
        0 <= g <= k,
    ensures
        progress(p, g, k, n) < progress(p.drop_last(), p.last() + 1, k, n),
{
    let d = p.len() as int;
    let a = p.last() as int;
    lemma_progress_prefix(p, p.drop_last(), k, n, d - 1);
    lemma_weight_positive(k, n - d);
    let w = weight(k, n - d);
    let up = weight(k, n - (d - 1));
    assert(up == radix(k) * w);
    assert(2 * (a + 1) * up == (2 * a + 1) * up + up) by (nonlinear_arith);
    assert(2 * g * w < radix(k) * w) by (nonlinear_arith)
        requires
            0 <= g <= k,
            radix(k) == 2 * k + 2,
            1 <= w,
    ;
}

} // verus!
