//! Selection of the result: the first assignment that the search hands out.

use vstd::prelude::*;
use crate::error::ErrorKind;
use crate::greedy::greedy_bound;
use crate::input::WorkingInput;
use crate::partition::{
    amplitude, canonical, greedy_assignment, no_worse, optimal_assignment, valid_assignment,
};
use crate::search::{groups, SearchCursor};
use crate::solution::Solution;
use crate::symmetry::lemma_canonical_labelling;

verus! {

/// Takes the first assignment that the cursor hands out and leaves the rest
/// of the enumeration untouched. Fails with `NoSolution` exactly when the
/// cursor has nothing left to hand out.
pub fn first_solution(cursor: &mut SearchCursor) -> (r: Result<Solution, ErrorKind>)
    requires
        old(cursor).wf(),
    ensures
        final(cursor).wf(),
        final(cursor).same_search(old(cursor)),
        match r {
            Ok(s) => old(cursor).hands_out(s) && final(cursor).last() == Some(s.assignment@),
            Err(e) => {
                &&& e == ErrorKind::NoSolution
                &&& old(cursor).exhausted()
                &&& final(cursor).last() == old(cursor).last()
            },
        },
{
    match cursor.next() {
        Some(s) => Ok(s),
        None => Err(ErrorKind::NoSolution),
    }
}

/// The error, if any, with which `solve` turns down `n` values and `k` groups.
pub open spec fn solve_error(n: int, k: int) -> Option<ErrorKind> {
    if k == 0 {
        Some(ErrorKind::InvalidTeamCount)
    } else if n % k != 0 {
        Some(ErrorKind::SizeMismatch)
    } else {
        None
    }
}

/// Finds the optimal assignment of `input` to `k` groups.
///
/// Fails with `InvalidTeamCount` when `k` is zero and with `SizeMismatch` when
/// `k` does not divide the number of values. Otherwise it succeeds, also for a
/// single group: the greedy assignment is always there to be found, so the
/// search cannot come back empty.
pub fn solve(input: &WorkingInput, k: usize) -> (r: Result<Solution, ErrorKind>)
    requires
        input.wf(),
    ensures
        match r {
            Ok(s) => {
                &&& solve_error(input@.len() as int, k as int) is None
                &&& optimal_assignment(input@, k as int, s.assignment@)
                &&& s.amplitude == amplitude(input@, s.assignment@, k as int)
                &&& forall|bound: int| #[trigger]
                    greedy_bound(input@, k as int, bound) ==> s.amplitude <= bound
            },
            Err(e) => solve_error(input@.len() as int, k as int) == Some(e),
        },
{
    if k == 0 {
        return Err(ErrorKind::InvalidTeamCount);
    }
    if input.len() % k != 0 {
        return Err(ErrorKind::SizeMismatch);
    }
    let ghost vals = input@;
    let mut cursor = groups(input, k);
    let ghost fresh = cursor;
    let ghost bound = cursor.bound();
    let r = first_solution(&mut cursor);
    proof {
        let seed = choose|a: Seq<usize>| #[trigger]
            greedy_assignment(vals, k as int, a) && valid_assignment(a, vals.len() as int, k as int)
                && canonical(a) && bound == amplitude(vals, a, k as int);
        assert(fresh.pending(seed));
    }
    match r {
        Ok(s) => {
            proof {
                let best = s.assignment@;
                assert forall|b: Seq<usize>| #[trigger]
                    valid_assignment(b, vals.len() as int, k as int) implies amplitude(
                    vals,
                    best,
                    k as int,
                ) <= amplitude(vals, b, k as int) by {
                    let c = lemma_canonical_labelling(vals, b, k as int, 0);
                    if amplitude(vals, c, k as int) <= bound {
                        assert(fresh.pending(c));
                    }
                }
                assert forall|b: Seq<usize>|
                    #[trigger] valid_assignment(b, vals.len() as int, k as int) && canonical(
                        b,
                    ) implies no_worse(vals, k as int, best, b) by {
                    if amplitude(vals, b, k as int) <= bound {
                        assert(fresh.pending(b));
                    }
                }
            }
            Ok(s)
        },
        Err(e) => Err(e),
    }
}

} // verus!
