//! The greedy estimate: a quick valid assignment whose amplitude bounds the
//! search from above.

use vstd::prelude::*;
use crate::frontier::Frontier;
use crate::input::WorkingInput;
use crate::partition::{
    amplitude, canonical, greedy_assignment, greedy_choice, group_count, group_sum,
    lemma_exact_division, lemma_prefix_agreement, valid_assignment,
};
use crate::solution::Solution;

verus! {

/// `bound` is the amplitude of the greedy assignment of `vals` to `k` groups,
/// which is valid and canonical.
pub open spec fn greedy_bound(vals: Seq<i64>, k: int, bound: int) -> bool {
    exists|a: Seq<usize>| #[trigger]
        greedy_assignment(vals, k, a) && valid_assignment(a, vals.len() as int, k) && canonical(a)
            && bound == amplitude(vals, a, k)
}

/// Builds the greedy assignment: each value in turn, largest first, joins the
/// group with the smallest sum among those that still have room, and among
/// equal sums the one with the lowest label.
///
/// The result is a valid assignment under its canonical labelling. It need not
/// be optimal.
pub fn greedy_partition(input: &WorkingInput, k: usize) -> (s: Solution)
    requires
        input.wf(),
        0 < k,
        input@.len() % (k as nat) == 0,
    ensures
        s.describes(input@, k as int),
        canonical(s.assignment@),
        greedy_assignment(input@, k as int, s.assignment@),
{
    let ghost vals = input@;
    let n = input.len();
    let mut st = Frontier::new(input.values().clone(), k);
    let ghost m = st.group_size as int;
    proof {
        lemma_exact_division(n as int, k as int, m);
    }
    let mut d: usize = 0;
    while d < n
        invariant
            st.wf(),
            st.values@ == vals,
            st.teams() == k,
            st.group_size == m,
            n == vals.len(),
            d <= n,
            st.assign.len() == d,
            forall|i: int|
                0 <= i < d ==> greedy_choice(
                    vals,
                    st.assign@,
                    k as int,
                    m,
                    i,
                    #[trigger] st.assign@[i] as int,
                ),
        decreases n - d,
    {
        let ghost p = st.assign@;
        let g = st.least_loaded();
        st.place(g);
        proof {
            let q = st.assign@;
            assert forall|i: int| 0 <= i < d + 1 implies greedy_choice(
                vals,
                q,
                k as int,
                m,
                i,
                #[trigger] q[i] as int,
            ) by {
                assert forall|h: int| 0 <= h < k implies group_count(q, h, i) == group_count(
                    p,
                    h,
                    i,
                ) && group_sum(vals, q, h, i) == group_sum(vals, p, h, i) by {
                    lemma_prefix_agreement(vals, q, p, h, i);
                }
                if i < d {
                    assert(q[i] == p[i]);
                    assert(greedy_choice(vals, p, k as int, m, i, p[i] as int));
                }
            }
        }
        d += 1;
    }
    let amp = st.spread();
    Solution { assignment: st.assign, amplitude: amp as u128 }
}

/// The amplitude of the greedy assignment: an upper bound on the optimum.
pub fn greedy_upper_bound(input: &WorkingInput, k: usize) -> (bound: u128)
    requires
        input.wf(),
        0 < k,
        input@.len() % (k as nat) == 0,
    ensures
        greedy_bound(input@, k as int, bound as int),
{
    let s = greedy_partition(input, k);
    s.amplitude
}

} // verus!
