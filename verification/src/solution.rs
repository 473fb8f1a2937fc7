//! A complete assignment together with its amplitude.

use vstd::prelude::*;
use crate::partition::{amplitude, valid_assignment};

verus! {

/// A complete assignment and its amplitude.
///
/// `assignment[i]` is the group of the `i`-th value of the working input the
/// solution was computed for.
#[derive(Debug)]
pub struct Solution {
    /// The group of each value, in working order.
    pub assignment: Vec<usize>,
    /// The largest group sum minus the smallest.
    pub amplitude: u128,
}

impl Solution {
    /// The solution is a valid split of `vals` into `k` groups and carries
    /// that split's amplitude.
    pub open spec fn describes(&self, vals: Seq<i64>, k: int) -> bool {
        &&& valid_assignment(self.assignment@, vals.len() as int, k)
        &&& self.amplitude == amplitude(vals, self.assignment@, k)
    }

    /// Solutions are ordered by amplitude alone: the smaller spread is better,
    /// whatever the assignments look like.
    pub fn is_better_than(&self, other: &Solution) -> (r: bool)
        ensures
            r == (self.amplitude < other.amplitude),
    {
        self.amplitude < other.amplitude
    }

    /// An independent copy.
    pub fn duplicate(&self) -> (r: Solution)
        ensures
            r.assignment@ == self.assignment@,
            r.amplitude == self.amplitude,
    {
        Solution { assignment: self.assignment.clone(), amplitude: self.amplitude }
    }
}

/// The assignment of an optional solution, as a sequence.
pub open spec fn labels(s: Option<Solution>) -> Option<Seq<usize>> {
    match s {
        Some(s) => Some(s.assignment@),
        None => None,
    }
}

} // verus!
