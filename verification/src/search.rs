//! The branch-and-bound search.
//!
//! Values are placed one at a time, in the order of the working input. A value
//! may join any group that still has room and that is open or is the next to
//! be opened, so each partition is visited under its canonical labelling only.
//! A branch is abandoned when no completion of it can still replace the best
//! assignment found so far.
//!
//! The traversal keeps its own stack, the [`Frontier`], whose buffers it
//! extends on the way down and retracts on the way back; it does not recurse.
//!
//! The cursor hands out the admissible assignments one by one, smallest
//! amplitude first and, among equal amplitudes, in lexicographic order. Each
//! call of [`SearchCursor::next`] is a search of its own; nothing beyond the
//! assignment handed out last is kept between calls, so abandoning a cursor
//! costs nothing.

use vstd::prelude::*;
use crate::bounds::lemma_amplitude_range;
use crate::frontier::Frontier;
use crate::greedy::{greedy_bound, greedy_upper_bound};
use crate::input::WorkingInput;
use crate::partition::{
    amplitude, canonical, extends, group_count, groups_opened, lemma_before_branch,
    lemma_before_next_sibling, lemma_exact_division, lemma_group_count_monotone,
    lemma_precedes_continuations, lemma_prefix_agreement, lex_lt, no_worse, precedes_at,
    sorted_descending, valid_assignment, AMPLITUDE_CAP, MAX_SIZE,
};
use crate::progress::{
    lemma_progress_backtrack, lemma_progress_descend, lemma_progress_limit, lemma_progress_skip,
    progress, weight,
};
use crate::solution::{labels, Solution};

verus! {

/// `c` comes after `f` in the order of the cursor: a larger amplitude, or the
/// same amplitude and a later place in lexicographic order.
pub open spec fn follows(vals: Seq<i64>, k: int, f: Seq<usize>, c: Seq<usize>) -> bool {
    ||| amplitude(vals, f, k) < amplitude(vals, c, k)
    ||| (amplitude(vals, f, k) == amplitude(vals, c, k) && lex_lt(f, c))
}

/// `c` is one of the assignments that a cursor with this bound, having handed
/// out `floor` last, may still hand out.
pub open spec fn admissible(
    vals: Seq<i64>,
    k: int,
    bound: int,
    floor: Option<Seq<usize>>,
    c: Seq<usize>,
) -> bool {
    &&& valid_assignment(c, vals.len() as int, k)
    &&& canonical(c)
    &&& amplitude(vals, c, k) <= bound
    &&& (floor matches Some(f) ==> follows(vals, k, f, c))
}

/// The incumbent exists and is at least as good as `c`.
pub open spec fn covered(vals: Seq<i64>, k: int, best: Option<Seq<usize>>, c: Seq<usize>) -> bool {
    best matches Some(b) && no_worse(vals, k, b, c)
}

/// The incumbent, if any, is admissible and carries its amplitude.
pub open spec fn incumbent_ok(
    vals: Seq<i64>,
    k: int,
    bound: int,
    floor: Option<Seq<usize>>,
    best: Option<Solution>,
) -> bool {
    best matches Some(b) ==> admissible(vals, k, bound, floor, b.assignment@) && b.amplitude
        == amplitude(vals, b.assignment@, k)
}

/// Between two moments of a search below `p`, the incumbent stayed or was
/// replaced by a continuation of `p` with a strictly smaller amplitude.
pub open spec fn improved(
    vals: Seq<i64>,
    k: int,
    before: Option<Seq<usize>>,
    after: Option<Seq<usize>>,
    p: Seq<usize>,
) -> bool {
    ||| after == before
    ||| (after matches Some(b) && extends(b, p) && (before matches Some(b0) ==> amplitude(
        vals,
        b,
        k,
    ) < amplitude(vals, b0, k)))
}

/// The largest amplitude that would still replace the incumbent.
pub open spec fn threshold_of(bound: u128, best: Option<Solution>) -> int {
    match best {
        Some(b) => b.amplitude - 1,
        None => if bound > AMPLITUDE_CAP { AMPLITUDE_CAP as int } else { bound as int },
    }
}

/// Computes `threshold_of`, capped so that it fits the arithmetic of the
/// search.
fn threshold(bound: u128, best: &Option<Solution>) -> (t: i128)
    requires
        best matches Some(b) ==> b.amplitude <= AMPLITUDE_CAP,
    ensures
        t == threshold_of(bound, *best),
        -1 <= t <= AMPLITUDE_CAP,
{
    match best {
        Some(b) => b.amplitude as i128 - 1,
        None => if bound > AMPLITUDE_CAP as u128 { AMPLITUDE_CAP } else { bound as i128 },
    }
}

/// Lexicographic comparison of two assignments.
pub fn lex_less(a: &Vec<usize>, b: &Vec<usize>) -> (r: bool)
    ensures
        r == lex_lt(a@, b@),
{
    let mut i: usize = 0;
    while i < a.len() && i < b.len()
        invariant
            i <= a.len(),
            i <= b.len(),
            forall|j: int| 0 <= j < i ==> a[j] == b[j],
        decreases a.len() - i,
    {
        if a[i] < b[i] {
            assert(precedes_at(a@, b@, i as int));
            return true;
        }
        if a[i] > b[i] {
            assert forall|j: int| !#[trigger] precedes_at(a@, b@, j) by {
                if precedes_at(a@, b@, j) {
                    if j < i {
                        assert(a[j] == b[j]);
                    } else if j > i {
                        assert(a[i as int] == b[i as int]);
                    }
                }
            }
            return false;
        }
        i += 1;
    }
    assert forall|j: int| !#[trigger] precedes_at(a@, b@, j) by {
        if precedes_at(a@, b@, j) {
            assert(j < i);
            assert(a[j] == b[j]);
        }
    }
    false
}

/// Whether an assignment with amplitude `amp` comes after the one handed out
/// last, in the order of the cursor.
fn comes_after(floor: &Option<Solution>, amp: u128, assign: &Vec<usize>) -> (r: bool)
    ensures
        r == (floor matches Some(f) ==> (f.amplitude < amp || (f.amplitude == amp && lex_lt(
            f.assignment@,
            assign@,
        )))),
{
    match floor {
        None => true,
        Some(f) => f.amplitude < amp || (f.amplitude == amp && lex_less(&f.assignment, assign)),
    }
}

/// No valid assignment continues `p` with a group that `p` has already
/// filled.
proof fn lemma_full_group_closed(vals: Seq<i64>, c: Seq<usize>, p: Seq<usize>, k: int, g: int)
    requires
        valid_assignment(c, vals.len() as int, k),
        extends(c, p),
        p.len() < c.len(),
        group_count(p, g, p.len() as int) >= vals.len() as int / k,
        0 <= g < k,
    ensures
        c[p.len() as int] != g,
{
    let d = p.len() as int;
    lemma_prefix_agreement(vals, c, p, g, d);
    lemma_group_count_monotone(c, g, d + 1, vals.len() as int);
    assert(group_count(c, g, vals.len() as int) == vals.len() as int / k);
}

/// A canonical valid assignment continues `p` with a group that `p` has
/// opened or with the next one.
proof fn lemma_next_label(vals: Seq<i64>, c: Seq<usize>, p: Seq<usize>, k: int)
    requires
        valid_assignment(c, vals.len() as int, k),
        canonical(c),
        extends(c, p),
        p.len() < c.len(),
    ensures
        c[p.len() as int] < k,
        c[p.len() as int] <= groups_opened(p, p.len() as int),
{
    let d = p.len() as int;
    assert(c[d] < k);
    lemma_prefix_agreement(vals, c, p, 0, d);
    assert(c[d] <= groups_opened(c, d));
}

/// Weighs the complete assignment on the frontier against the incumbent and
/// takes its place if it is admissible and strictly better.
fn consider(bound: u128, floor: &Option<Solution>, st: &Frontier, best: &mut Option<Solution>)
    requires
        st.wf(),
        st.assign.len() == st.values.len(),
        floor matches Some(f) ==> f.amplitude == amplitude(st.values@, f.assignment@, st.teams()),
        incumbent_ok(st.values@, st.teams(), bound as int, labels(*floor), *old(best)),
        *old(best) matches Some(b) ==> lex_lt(b.assignment@, st.assign@),
    ensures
        incumbent_ok(st.values@, st.teams(), bound as int, labels(*floor), *final(best)),
        improved(st.values@, st.teams(), labels(*old(best)), labels(*final(best)), st.assign@),
        admissible(st.values@, st.teams(), bound as int, labels(*floor), st.assign@) ==> covered(
            st.values@,
            st.teams(),
            labels(*final(best)),
            st.assign@,
        ),
{
    let ghost vals = st.values@;
    let ghost p = st.assign@;
    let ghost k = st.teams();
    proof {
        if let Some(b) = labels(*best) {
            lemma_amplitude_range(vals, b, k);
        }
        lemma_amplitude_range(vals, p, k);
    }
    let t = threshold(bound, best);
    let amp = st.spread();
    if amp <= t && comes_after(floor, amp as u128, &st.assign) {
        *best = Some(Solution { assignment: st.assign.clone(), amplitude: amp as u128 });
    } else {
        proof {
            if admissible(vals, k, bound as int, labels(*floor), p) {
                lemma_precedes_continuations(labels(*best)->0, p, p);
            }
        }
    }
}

/// Every admissible assignment that comes before `q` is covered.
pub open spec fn swept(
    vals: Seq<i64>,
    k: int,
    bound: int,
    floor: Option<Seq<usize>>,
    best: Option<Seq<usize>>,
    q: Seq<usize>,
) -> bool {
    forall|c: Seq<usize>|
        #[trigger] admissible(vals, k, bound, floor, c) && lex_lt(c, q) ==> covered(
            vals,
            k,
            best,
            c,
        )
}

/// Every admissible assignment that continues `p` is covered.
pub open spec fn finished_below(
    vals: Seq<i64>,
    k: int,
    bound: int,
    floor: Option<Seq<usize>>,
    best: Option<Seq<usize>>,
    p: Seq<usize>,
) -> bool {
    forall|c: Seq<usize>|
        #[trigger] admissible(vals, k, bound, floor, c) && extends(c, p) ==> covered(
            vals,
            k,
            best,
            c,
        )
}

/// Searches every assignment and leaves the best admissible one in `best`.
///
/// The traversal is depth first, with the frontier as its stack: `g` is the
/// group to try next for the value that follows the frontier. Either that
/// value is placed in `g` and the traversal descends, or `g` is passed over,
/// or the frontier is finished and the traversal steps back to try the group
/// after the one it had descended into.
fn explore(bound: u128, floor: &Option<Solution>, st: &mut Frontier, best: &mut Option<Solution>)
    requires
        old(st).wf(),
        old(st).assign.len() == 0,
        floor matches Some(f) ==> f.amplitude == amplitude(
            old(st).values@,
            f.assignment@,
            old(st).teams(),
        ),
        *old(best) is None,
    ensures
        final(st).wf(),
        final(st).same_problem(old(st)),
        incumbent_ok(old(st).values@, old(st).teams(), bound as int, labels(*floor), *final(best)),
        forall|c: Seq<usize>| #[trigger]
            admissible(old(st).values@, old(st).teams(), bound as int, labels(*floor), c)
                ==> covered(old(st).values@, old(st).teams(), labels(*final(best)), c),
{
    let ghost vals = st.values@;
    let ghost kk = st.teams();
    let ghost fl = labels(*floor);
    let n = st.values.len();
    let k = st.counts.len();
    let mut g: usize = 0;
    proof {
        // Nothing comes before the first position of the traversal.
        assert forall|c: Seq<usize>| !lex_lt(c, st.assign@.push(g)) by {
            if lex_lt(c, st.assign@.push(g)) {
                let i = choose|i: int| #[trigger] precedes_at(c, st.assign@.push(g), i);
                assert(i == 0);
            }
        }
    }
    loop
        invariant
            st.wf(),
            st.same_problem(old(st)),
            vals == st.values@,
            kk == st.teams(),
            k == kk,
            n == vals.len(),
            fl == labels(*floor),
            g <= k,
            floor matches Some(f) ==> f.amplitude == amplitude(vals, f.assignment@, kk),
            incumbent_ok(vals, kk, bound as int, fl, *best),
            *best matches Some(b) ==> lex_lt(b.assignment@, st.assign@.push(g)),
            swept(vals, kk, bound as int, fl, labels(*best), st.assign@.push(g)),
        decreases weight(kk, n + 1) - progress(st.assign@, g as int, kk, n as int),
    {
        let d = st.assign.len();
        let ghost p = st.assign@;
        let ghost before = labels(*best);
        proof {
            lemma_progress_limit(p, g as int, kk, n as int);
            if before is Some {
                lemma_amplitude_range(vals, before->0, kk);
                lemma_before_branch(before->0, p, g);
            }
        }
        let finished: bool;
        if d == n {
            consider(bound, floor, st, best);
            finished = true;
            proof {
                assert forall|c: Seq<usize>|
                    #[trigger] admissible(vals, kk, bound as int, fl, c) && extends(
                        c,
                        p,
                    ) implies covered(vals, kk, labels(*best), c) by {
                    assert(c =~= p);
                }
            }
        } else if g == 0 && st.lower_bound() > threshold(bound, best) {
            finished = true;
            proof {
                assert forall|c: Seq<usize>|
                    #[trigger] admissible(vals, kk, bound as int, fl, c) && extends(
                        c,
                        p,
                    ) implies covered(vals, kk, labels(*best), c) by {
                    lemma_amplitude_range(vals, c, kk);
                    lemma_precedes_continuations(before->0, p, c);
                }
            }
        } else if g > st.opened || g >= k {
            finished = true;
            proof {
                assert forall|c: Seq<usize>|
                    #[trigger] admissible(vals, kk, bound as int, fl, c) && extends(
                        c,
                        p,
                    ) implies covered(vals, kk, labels(*best), c) by {
                    lemma_next_label(vals, c, p, kk);
                    lemma_before_branch(c, p, g);
                }
            }
        } else if st.counts[g] < st.group_size {
            st.place(g);
            proof {
                lemma_progress_descend(p, g, kk, n as int);
                let q = p.push(g);
                if before is Some {
                    lemma_before_branch(before->0, q, 0);
                }
                assert forall|c: Seq<usize>|
                    #[trigger] admissible(vals, kk, bound as int, fl, c) && lex_lt(
                        c,
                        q.push(0),
                    ) implies covered(vals, kk, labels(*best), c) by {
                    lemma_before_branch(c, q, 0);
                }
            }
            g = 0;
            finished = false;
        } else {
            proof {
                lemma_progress_skip(p, g as int, kk, n as int);
                if before is Some {
                    lemma_before_branch(before->0, p, (g + 1) as usize);
                }
                assert forall|c: Seq<usize>|
                    #[trigger] admissible(vals, kk, bound as int, fl, c) && lex_lt(
                        c,
                        p.push((g + 1) as usize),
                    ) implies covered(vals, kk, labels(*best), c) by {
                    lemma_before_branch(c, p, g);
                    lemma_before_branch(c, p, (g + 1) as usize);
                    if !lex_lt(c, p.push(g)) {
                        assert(st.counts[g as int] == group_count(p, g as int, d as int));
                        lemma_exact_division(n as int, kk, st.group_size as int);
                        lemma_full_group_closed(vals, c, p, kk, g as int);
                    }
                }
            }
            g = g + 1;
            finished = false;
        }
        if finished {
            assert(finished_below(vals, kk, bound as int, fl, labels(*best), p));
            assert(swept(vals, kk, bound as int, fl, labels(*best), p.push(g)));
            if d == 0 {
                return ;
            }
            let last = st.assign[d - 1];
            proof {
                lemma_progress_backtrack(p, g as int, kk, n as int);
                let parent = p.drop_last();
                let next = (last + 1) as usize;
                if let Some(b) = labels(*best) {
                    lemma_before_branch(b, p, g);
                    lemma_before_next_sibling(b, p);
                }
                assert forall|c: Seq<usize>|
                    #[trigger] admissible(vals, kk, bound as int, fl, c) && lex_lt(
                        c,
                        parent.push(next),
                    ) implies covered(vals, kk, labels(*best), c) by {
                    lemma_before_next_sibling(c, p);
                    lemma_before_branch(c, p, g);
                }
            }
            st.unplace();
            g = last + 1;
        }
        proof {
            lemma_progress_limit(st.assign@, g as int, kk, n as int);
        }
    }
}

/// A running enumeration of the admissible assignments of one problem, in
/// order of non-decreasing amplitude.
pub struct SearchCursor {
    values: Vec<i64>,
    teams: usize,
    bound: u128,
    floor: Option<Solution>,
}

impl SearchCursor {
    /// The values of the problem, in working order.
    pub closed spec fn values(&self) -> Seq<i64> {
        self.values@
    }

    /// The number of groups.
    pub closed spec fn teams(&self) -> int {
        self.teams as int
    }

    /// The largest amplitude the cursor hands out.
    pub closed spec fn bound(&self) -> int {
        self.bound as int
    }

    /// The assignment handed out last, if any.
    pub closed spec fn last(&self) -> Option<Seq<usize>> {
        labels(self.floor)
    }

    /// The invariant of the type.
    pub closed spec fn wf(&self) -> bool {
        &&& self.values.len() <= MAX_SIZE
        &&& sorted_descending(self.values@)
        &&& (self.floor matches Some(f) ==> f.amplitude == amplitude(
            self.values@,
            f.assignment@,
            self.teams as int,
        ))
    }

    /// `other` is a cursor over the same problem with the same bound.
    pub open spec fn same_search(&self, other: &SearchCursor) -> bool {
        &&& self.values() == other.values()
        &&& self.teams() == other.teams()
        &&& self.bound() == other.bound()
    }

    /// The assignment `c` is still to come.
    pub open spec fn pending(&self, c: Seq<usize>) -> bool {
        admissible(self.values(), self.teams(), self.bound(), self.last(), c)
    }

    /// Nothing is still to come.
    pub open spec fn exhausted(&self) -> bool {
        forall|c: Seq<usize>| !#[trigger] self.pending(c)
    }

    /// `s` is the solution to hand out next: it is still to come, it carries
    /// its amplitude, and nothing that is still to come is better. Its
    /// amplitude is not below that of the solution handed out last.
    pub open spec fn hands_out(&self, s: Solution) -> bool {
        &&& self.pending(s.assignment@)
        &&& s.amplitude == amplitude(self.values(), s.assignment@, self.teams())
        &&& forall|c: Seq<usize>| #[trigger]
            self.pending(c) ==> no_worse(self.values(), self.teams(), s.assignment@, c)
        &&& (self.last() matches Some(f) ==> amplitude(self.values(), f, self.teams())
            <= s.amplitude)
    }

    /// A cursor over the assignments of `input` to `teams` groups whose
    /// amplitude is at most `bound`. Nothing has been handed out yet.
    pub fn new(input: &WorkingInput, teams: usize, bound: u128) -> (r: SearchCursor)
        requires
            input.wf(),
        ensures
            r.wf(),
            r.values() == input@,
            r.teams() == teams,
            r.bound() == bound,
            r.last() is None,
    {
        SearchCursor { values: input.values().clone(), teams, bound, floor: None }
    }

    /// Hands out the next assignment: among the admissible ones that come
    /// after the one handed out last, the one with the smallest amplitude,
    /// and among those the lexicographically first. Returns `None`, and
    /// changes nothing, when there is none; this is the case from the start
    /// when the number of groups is zero or does not divide the number of
    /// values.
    pub fn next(&mut self) -> (r: Option<Solution>)
        requires
            old(self).wf(),
        ensures
            final(self).wf(),
            final(self).same_search(old(self)),
            match r {
                Some(s) => old(self).hands_out(s) && final(self).last() == Some(s.assignment@),
                None => old(self).exhausted() && final(self).last() == old(self).last(),
            },
    {
        let n = self.values.len();
        if self.teams == 0 || n % self.teams != 0 {
            return None;
        }
        let mut st = Frontier::new(self.values.clone(), self.teams);
        let mut best: Option<Solution> = None;
        explore(self.bound, &self.floor, &mut st, &mut best);
        proof {
            assert forall|c: Seq<usize>| #[trigger]
                admissible(
                    self.values@,
                    self.teams as int,
                    self.bound as int,
                    labels(self.floor),
                    c,
                ) implies covered(self.values@, self.teams as int, labels(best), c) by {
                assert(extends(c, Seq::<usize>::empty()));
            }
        }
        match best {
            Some(s) => {
                self.floor = Some(s.duplicate());
                Some(s)
            },
            None => None,
        }
    }
}

/// The enumeration of the assignments of `input` to `teams` groups that are
/// no worse than the greedy estimate, best first. Its first element is
/// optimal.
pub fn groups(input: &WorkingInput, teams: usize) -> (r: SearchCursor)
    requires
        input.wf(),
        0 < teams,
        input@.len() % (teams as nat) == 0,
    ensures
        r.wf(),
        r.values() == input@,
        r.teams() == teams,
        r.last() is None,
        greedy_bound(input@, teams as int, r.bound()),
{
    let bound = greedy_upper_bound(input, teams);
    SearchCursor::new(input, teams, bound)
}

} // verus!
