//! The partial assignment that the search extends and retracts, with the
//! counts and sums of its groups kept up to date.

use vstd::prelude::*;
use crate::bounds::{
    average_ceiling, average_floor, lemma_average_range, lemma_completion_bound,
    lemma_full_groups, lemma_room_left, lower_bound,
};
use crate::partition::{
    amplitude, canonical, extends, greedy_choice, group_count, group_sum, groups_opened,
    lemma_exact_division, lemma_group_count_nonnegative, lemma_group_sum_bounds,
    lemma_labels_below_opened, lemma_member_of, lemma_opened_group_has_member,
    lemma_prefix_agreement, lemma_total_sum_bounds, lemma_unopened_group_empty, max_sum,
    min_sum, sorted_descending, total_sum, valid_assignment, MAX_SIZE, SUM_CAP,
};

verus! {

/// A partial assignment of the values, taken in order: the groups of the first
/// `assign.len()` of them.
pub struct Frontier {
    /// The values, in descending order.
    pub values: Vec<i64>,
    /// Members that each group must end up with.
    pub group_size: usize,
    /// Average group sum, rounded down.
    pub floor_average: i128,
    /// Average group sum, rounded up.
    pub ceiling_average: i128,
    /// Group of each value placed so far.
    pub assign: Vec<usize>,
    /// Members of each group so far.
    pub counts: Vec<usize>,
    /// Sum of each group so far.
    pub sums: Vec<i128>,
    /// Number of groups that have a member.
    pub opened: usize,
}

impl Frontier {
    /// Number of groups.
    pub open spec fn teams(&self) -> int {
        self.counts.len() as int
    }

    /// The bookkeeping agrees with the partial assignment, which is canonical
    /// and overfills no group.
    pub open spec fn wf(&self) -> bool {
        let vals = self.values@;
        let p = self.assign@;
        let d = p.len() as int;
        let k = self.teams();
        &&& 0 < k
        &&& d <= vals.len() <= MAX_SIZE
        &&& vals.len() == k * self.group_size
        &&& sorted_descending(vals)
        &&& self.floor_average == average_floor(total_sum(vals, vals.len() as int), k)
        &&& self.ceiling_average == average_ceiling(total_sum(vals, vals.len() as int), k)
        &&& self.sums.len() == k
        &&& forall|i: int| 0 <= i < d ==> (#[trigger] p[i]) < k
        &&& canonical(p)
        &&& self.opened == groups_opened(p, d)
        &&& forall|g: int|
            0 <= g < k ==> (#[trigger] self.counts[g]) == group_count(p, g, d) && self.counts[g]
                <= self.group_size
        &&& forall|g: int|
            0 <= g < k ==> (#[trigger] self.sums[g]) == group_sum(vals, p, g, d)
    }

    /// The parts that placing and taking back leave alone.
    pub open spec fn same_problem(&self, other: &Frontier) -> bool {
        &&& self.values@ == other.values@
        &&& self.group_size == other.group_size
        &&& self.floor_average == other.floor_average
        &&& self.ceiling_average == other.ceiling_average
        &&& self.teams() == other.teams()
    }

    /// The empty assignment of `values` to `k` groups.
    pub fn new(values: Vec<i64>, k: usize) -> (r: Frontier)
        requires
            0 < k,
            values.len() <= MAX_SIZE,
            values.len() % k == 0,
            sorted_descending(values@),
        ensures
            r.wf(),
            r.values@ == values@,
            r.teams() == k,
            r.assign@ == Seq::<usize>::empty(),
    {
        let n = values.len();
        let group_size = n / k;
        assert(n == k * group_size) by (nonlinear_arith)
            requires
                n % k == 0,
                group_size == n / k,
                0 < k,
        ;
        let mut counts: Vec<usize> = Vec::new();
        let mut sums: Vec<i128> = Vec::new();
        let mut g: usize = 0;
        while g < k
            invariant
                g <= k,
                counts.len() == g,
                sums.len() == g,
                forall|j: int| 0 <= j < g ==> counts[j] == 0,
                forall|j: int| 0 <= j < g ==> sums[j] == 0,
            decreases k - g,
        {
            counts.push(0);
            sums.push(0);
            g += 1;
        }
        let mut total: i128 = 0;
        let mut i: usize = 0;
        while i < n
            invariant
                i <= n,
                n == values.len(),
                n <= MAX_SIZE,
                total == total_sum(values@, i as int),
            decreases n - i,
        {
            proof {
                lemma_total_sum_bounds(values@, i as int);
            }
            total = total + values[i] as i128;
            i += 1;
        }
        proof {
            lemma_total_sum_bounds(values@, n as int);
            lemma_average_range(total as int, k as int);
        }
        let floor_average = total.checked_div_euclid(k as i128).unwrap();
        let rest = total.checked_rem_euclid(k as i128).unwrap();
        let ceiling_average = if rest == 0 { floor_average } else { floor_average + 1 };
        Frontier {
            values,
            group_size,
            floor_average,
            ceiling_average,
            assign: Vec::new(),
            counts,
            sums,
            opened: 0,
        }
    }

    /// Sends the next value to group `g`.
    pub fn place(&mut self, g: usize)
        requires
            old(self).wf(),
            old(self).assign.len() < old(self).values.len(),
            g < old(self).teams(),
            g <= old(self).opened,
            old(self).counts[g as int] < old(self).group_size,
        ensures
            final(self).assign@ == old(self).assign@.push(g),
            final(self).same_problem(old(self)),
            final(self).wf(),
    {
        let ghost vals = self.values@;
        let ghost p = self.assign@;
        let ghost d = p.len() as int;
        let ghost k = self.teams();
        let ghost m = self.group_size as int;
        let ghost q = p.push(g);
        proof {
            lemma_group_sum_bounds(vals, p, g as int, d);
            lemma_group_count_nonnegative(p, g as int, d);
            assert forall|i: int| 0 <= i <= d implies groups_opened(q, i) == groups_opened(
                p,
                i,
            ) by {
                lemma_prefix_agreement(vals, q, p, 0, i);
            }
        }
        let v = self.values[self.assign.len()];
        let count = self.counts[g];
        let sum = self.sums[g];
        self.assign.push(g);
        self.counts.set(g, count + 1);
        self.sums.set(g, sum + v as i128);
        if g == self.opened {
            self.opened = self.opened + 1;
        }
        proof {
            assert(self.assign@ == q);
            assert forall|i: int| 0 <= i < q.len() implies (#[trigger] q[i]) <= groups_opened(
                q,
                i,
            ) by {
                if i < d {
                    assert(q[i] == p[i]);
                }
            }
            assert(canonical(q));
            assert(forall|i: int| 0 <= i < q.len() ==> (#[trigger] q[i]) < k);
            assert(self.opened == groups_opened(q, d + 1));
            assert forall|h: int| 0 <= h < k implies (#[trigger] self.counts[h]) == group_count(
                q,
                h,
                d + 1,
            ) && self.counts[h] <= m by {
                lemma_prefix_agreement(vals, q, p, h, d);
                assert(old(self).counts[h] == group_count(p, h, d));
            }
            assert forall|h: int| 0 <= h < k implies (#[trigger] self.sums[h]) == group_sum(
                vals,
                q,
                h,
                d + 1,
            ) by {
                lemma_prefix_agreement(vals, q, p, h, d);
                assert(old(self).sums[h] == group_sum(vals, p, h, d));
                assert(group_sum(vals, q, h, d + 1) == group_sum(vals, q, h, d) + if q[d] == h {
                    vals[d] as int
                } else {
                    0int
                });
            }
        }
    }

    /// Takes back the value placed last.
    pub fn unplace(&mut self)
        requires
            old(self).wf(),
            old(self).assign.len() > 0,
        ensures
            final(self).assign@ == old(self).assign@.drop_last(),
            final(self).same_problem(old(self)),
            final(self).wf(),
    {
        let ghost vals = self.values@;
        let ghost q = self.assign@;
        let ghost d = q.len() - 1;
        let ghost k = self.teams();
        let ghost m = self.group_size as int;
        let ghost p = q.drop_last();
        proof {
            assert(q[d] < k);
            lemma_group_sum_bounds(vals, p, q[d] as int, d);
            lemma_group_count_nonnegative(p, q[d] as int, d);
            lemma_prefix_agreement(vals, q, p, q[d] as int, d);
            assert(self.counts[q[d] as int] == group_count(q, q[d] as int, d + 1));
            assert(self.sums[q[d] as int] == group_sum(vals, q, q[d] as int, d + 1));
        }
        let last = self.assign.len() - 1;
        let g = self.assign[last];
        let v = self.values[last];
        let count = self.counts[g];
        let sum = self.sums[g];
        self.assign.pop();
        self.counts.set(g, count - 1);
        self.sums.set(g, sum - v as i128);
        if count == 1 {
            // The value taken back was the only member of its group, which is
            // therefore the group opened last.
            proof {
                assert(q[d] <= groups_opened(q, d));
                if (g as int) < groups_opened(q, d) {
                    lemma_opened_group_has_member(q, g as int, d);
                }
            }
            self.opened = self.opened - 1;
        } else {
            proof {
                let j = lemma_member_of(p, g as int, d);
                lemma_labels_below_opened(q, d, j);
            }
        }
        proof {
            assert(self.assign@ == p);
            lemma_prefix_agreement(vals, q, p, 0, d);
            assert forall|i: int| 0 <= i < p.len() implies (#[trigger] p[i]) <= groups_opened(
                p,
                i,
            ) by {
                assert(p[i] == q[i]);
                lemma_prefix_agreement(vals, q, p, 0, i);
            }
            assert forall|h: int| 0 <= h < k implies (#[trigger] self.counts[h]) == group_count(
                p,
                h,
                d,
            ) && self.counts[h] <= m by {
                lemma_prefix_agreement(vals, q, p, h, d);
                assert(old(self).counts[h] == group_count(q, h, d + 1));
            }
            assert forall|h: int| 0 <= h < k implies (#[trigger] self.sums[h]) == group_sum(
                vals,
                p,
                h,
                d,
            ) by {
                lemma_prefix_agreement(vals, q, p, h, d);
                assert(old(self).sums[h] == group_sum(vals, q, h, d + 1));
                assert(group_sum(vals, q, h, d + 1) == group_sum(vals, q, h, d) + if q[d] == h {
                    vals[d] as int
                } else {
                    0int
                });
            }
        }
    }

    /// The group that the greedy rule picks for the next value. It is open or
    /// the next to be opened.
    pub fn least_loaded(&self) -> (g: usize)
        requires
            self.wf(),
            self.assign.len() < self.values.len(),
        ensures
            greedy_choice(
                self.values@,
                self.assign@,
                self.teams(),
                self.group_size as int,
                self.assign.len() as int,
                g as int,
            ),
            g <= self.opened,
    {
        let ghost vals = self.values@;
        let ghost p = self.assign@;
        let ghost d = p.len() as int;
        let k = self.counts.len();
        let m = self.group_size;
        let mut pick: usize = k;
        let mut h: usize = 0;
        while h < k
            invariant
                self.wf(),
                h <= k,
                k == self.counts.len(),
                m == self.group_size,
                vals == self.values@,
                p == self.assign@,
                d == p.len(),
                pick <= k,
                pick < k ==> pick < h && group_count(p, pick as int, d) < m,
                forall|j: int|
                    0 <= j < h && #[trigger] group_count(p, j, d) < m ==> pick < k && (group_sum(
                        vals,
                        p,
                        pick as int,
                        d,
                    ) < group_sum(vals, p, j, d) || (group_sum(vals, p, pick as int, d)
                        == group_sum(vals, p, j, d) && pick <= j)),
            decreases k - h,
        {
            assert(self.counts[h as int] == group_count(p, h as int, d));
            assert(self.sums[h as int] == group_sum(vals, p, h as int, d));
            if self.counts[h] < m {
                if pick == k {
                    pick = h;
                } else {
                    assert(self.sums[pick as int] == group_sum(vals, p, pick as int, d));
                    if self.sums[h] < self.sums[pick] {
                        pick = h;
                    }
                }
            }
            h += 1;
        }
        proof {
            assert forall|j: int| 0 <= j < k implies #[trigger] group_count(p, j, d) <= m by {
                assert(self.counts[j] == group_count(p, j, d));
            }
            let free = lemma_room_left(p, k as int, d, m as int);
            assert(group_count(p, free, d) < m);
            if pick > self.opened {
                let next = self.opened as int;
                lemma_unopened_group_empty(vals, p, next, d);
                lemma_unopened_group_empty(vals, p, pick as int, d);
                assert(0 < m);
                assert(group_count(p, next, d) < m);
            }
        }
        pick
    }

    /// The amplitude of the assignment, once every value is placed. A complete
    /// frontier is a valid assignment.
    pub fn spread(&self) -> (r: i128)
        requires
            self.wf(),
            self.assign.len() == self.values.len(),
        ensures
            valid_assignment(self.assign@, self.values.len() as int, self.teams()),
            r == amplitude(self.values@, self.assign@, self.teams()),
            0 <= r,
    {
        let ghost vals = self.values@;
        let ghost p = self.assign@;
        let ghost n = p.len() as int;
        let k = self.sums.len();
        proof {
            assert forall|h: int| 0 <= h < k implies #[trigger] group_count(p, h, n)
                <= self.group_size by {
                assert(self.counts[h] == group_count(p, h, n));
            }
            lemma_full_groups(p, k as int, self.group_size as int);
            lemma_exact_division(n, k as int, self.group_size as int);
            assert(valid_assignment(p, n, k as int));
            lemma_group_sum_bounds(vals, p, 0, n);
        }
        let mut top: i128 = self.sums[0];
        let mut bottom: i128 = self.sums[0];
        let mut g: usize = 1;
        while g < k
            invariant
                1 <= g <= k,
                k == self.sums.len(),
                n == p.len() <= MAX_SIZE,
                forall|h: int| 0 <= h < k ==> (#[trigger] self.sums[h]) == group_sum(vals, p, h, n),
                top == max_sum(vals, p, g as int),
                bottom == min_sum(vals, p, g as int),
                -SUM_CAP <= bottom <= top <= SUM_CAP,
            decreases k - g,
        {
            proof {
                lemma_group_sum_bounds(vals, p, g as int, n);
            }
            let s = self.sums[g];
            if s > top {
                top = s;
            }
            if s < bottom {
                bottom = s;
            }
            g += 1;
        }
        top - bottom
    }

    /// The least that group `g` can end at: its sum so far plus the smallest
    /// value for each member it still lacks.
    pub open spec fn floor_of(&self, g: int) -> int {
        self.sums[g] + (self.group_size - self.counts[g]) * self.values[self.values.len() - 1]
    }

    /// The most that group `g` can end at: its sum so far plus the next value,
    /// the largest still unplaced, for each member it still lacks.
    pub open spec fn ceiling_of(&self, g: int) -> int {
        self.sums[g] + (self.group_size - self.counts[g]) * self.values[self.assign.len() as int]
    }

    /// The highest floor among the groups below `k`.
    pub open spec fn highest_floor(&self, k: int) -> int
        decreases k,
    {
        if k <= 1 {
            self.floor_of(0)
        } else {
            let rest = self.highest_floor(k - 1);
            if self.floor_of(k - 1) > rest { self.floor_of(k - 1) } else { rest }
        }
    }

    /// The lowest ceiling among the groups below `k`.
    pub open spec fn lowest_ceiling(&self, k: int) -> int
        decreases k,
    {
        if k <= 1 {
            self.ceiling_of(0)
        } else {
            let rest = self.lowest_ceiling(k - 1);
            if self.ceiling_of(k - 1) < rest { self.ceiling_of(k - 1) } else { rest }
        }
    }

    /// The least amplitude that the partial assignment leaves possible: the
    /// largest final sum is at least the highest floor and at least the
    /// average, the smallest at most the lowest ceiling and at most the
    /// average.
    pub open spec fn bound_value(&self) -> int {
        lower_bound(
            self.highest_floor(self.teams()),
            self.lowest_ceiling(self.teams()),
            total_sum(self.values@, self.values.len() as int),
            self.teams(),
        )
    }

    /// Computes `bound_value`. No valid assignment that continues this one
    /// has a smaller amplitude.
    pub fn lower_bound(&self) -> (r: i128)
        requires
            self.wf(),
            self.assign.len() < self.values.len(),
        ensures
            r == self.bound_value(),
            0 <= r,
            forall|c: Seq<usize>|
                #[trigger] valid_assignment(c, self.values.len() as int, self.teams()) && extends(
                    c,
                    self.assign@,
                ) ==> amplitude(self.values@, c, self.teams()) >= r,
    {
        let ghost vals = self.values@;
        let ghost p = self.assign@;
        let n = self.values.len();
        let d = self.assign.len();
        let k = self.sums.len();
        let m = self.group_size;
        let lo = self.values[n - 1] as i128;
        let hi = self.values[d] as i128;
        assert(m <= MAX_SIZE && k <= MAX_SIZE) by (nonlinear_arith)
            requires
                n == k * m,
                0 < n <= MAX_SIZE,
                0 < k,
                0 <= m,
        ;
        let ghost mut gl: int = 0;
        let ghost mut gh: int = 0;
        let mut low: i128 = 0;
        let mut high: i128 = 0;
        let mut g: usize = 0;
        while g < k
            invariant
                self.wf(),
                g <= k,
                k == self.sums.len(),
                m == self.group_size,
                m <= MAX_SIZE,
                k <= MAX_SIZE,
                d == p.len(),
                n == vals.len(),
                d < n,
                p == self.assign@,
                vals == self.values@,
                lo == vals[n - 1],
                hi == vals[d as int],
                0 <= gl < k,
                0 <= gh < k,
                g > 0 ==> low == self.floor_of(gl) && low == self.highest_floor(g as int),
                g > 0 ==> high == self.ceiling_of(gh) && high == self.lowest_ceiling(g as int),
                -2 * SUM_CAP <= low <= 2 * SUM_CAP,
                -2 * SUM_CAP <= high <= 2 * SUM_CAP,
            decreases k - g,
        {
            let room = (m - self.counts[g]) as i128;
            let sum = self.sums[g];
            proof {
                lemma_group_sum_bounds(vals, p, g as int, d as int);
                assert(-SUM_CAP <= room * lo <= SUM_CAP && -SUM_CAP <= room * hi <= SUM_CAP)
                    by (nonlinear_arith)
                    requires
                        0 <= room <= 24,
                        -0x8000_0000_0000_0000 <= lo <= 0x7fff_ffff_ffff_ffff,
                        -0x8000_0000_0000_0000 <= hi <= 0x7fff_ffff_ffff_ffff,
                ;
            }
            let here_low = sum + room * lo;
            let here_high = sum + room * hi;
            if g == 0 || here_low > low {
                low = here_low;
                proof {
                    gl = g as int;
                }
            }
            if g == 0 || here_high < high {
                high = here_high;
                proof {
                    gh = g as int;
                }
            }
            g += 1;
        }
        proof {
            lemma_total_sum_bounds(vals, n as int);
            lemma_average_range(total_sum(vals, n as int), k as int);
        }
        let top = if low > self.ceiling_average { low } else { self.ceiling_average };
        let bottom = if high < self.floor_average { high } else { self.floor_average };
        let r = top - bottom;
        proof {
            assert forall|c: Seq<usize>|
                #[trigger] valid_assignment(c, n as int, k as int) && extends(
                    c,
                    p,
                ) implies amplitude(vals, c, k as int) >= r by {
                lemma_prefix_agreement(vals, c, p, gl, d as int);
                lemma_prefix_agreement(vals, c, p, gh, d as int);
                lemma_exact_division(n as int, k as int, m as int);
                assert(self.sums[gl] == group_sum(vals, p, gl, d as int));
                assert(self.sums[gh] == group_sum(vals, p, gh, d as int));
                assert(self.counts[gl] == group_count(p, gl, d as int));
                assert(self.counts[gh] == group_count(p, gh, d as int));
                lemma_completion_bound(vals, c, k as int, d as int, lo as int, hi as int, gl, gh);
            }
        }
        r
    }
}

} // verus!
