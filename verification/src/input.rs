//! The working input: the values in the order in which the search places
//! them, each with the position it came from.

use vstd::prelude::*;
use vstd::seq_lib::{to_multiset_build, to_multiset_insert};
use crate::error::ErrorKind;
use crate::partition::{sorted_descending, MAX_SIZE, MIN_SIZE};

verus! {

/// The values in descending order, which lets the search decide the large
/// values first, together with the input position of each.
pub struct WorkingInput {
    values: Vec<i64>,
    origin: Vec<usize>,
}

impl View for WorkingInput {
    type V = Seq<i64>;

    /// The values, in working order.
    closed spec fn view(&self) -> Seq<i64> {
        self.values@
    }
}

/// The values of `raw`, each with its position.
pub open spec fn indexed(raw: Seq<i64>) -> Seq<(int, i64)> {
    Seq::new(raw.len(), |p: int| (p, raw[p]))
}

/// The values `vals`, each with the position that `origin` gives for it.
pub open spec fn paired(origin: Seq<usize>, vals: Seq<i64>) -> Seq<(int, i64)> {
    Seq::new(vals.len(), |i: int| (origin[i] as int, vals[i]))
}

/// The solver accepts `len` values announced as `size` values.
pub open spec fn size_supported(len: int, size: int) -> bool {
    len == size && MIN_SIZE <= size <= MAX_SIZE
}

impl WorkingInput {
    /// For each working position, the input position of its value.
    pub closed spec fn origins(&self) -> Seq<usize> {
        self.origin@
    }

    /// The invariant of the type: a supported number of values in descending
    /// order, each with its position.
    pub open spec fn wf(&self) -> bool {
        &&& MIN_SIZE <= self@.len() <= MAX_SIZE
        &&& self.origins().len() == self@.len()
        &&& sorted_descending(self@)
    }

    /// The working input holds exactly the values of `raw`: working position
    /// `i` holds the value that `raw` has at `origins()[i]`, no input position
    /// occurs twice, and equal values keep their input order. As collections
    /// of values with their positions, the two are the same.
    pub open spec fn arranges(&self, raw: Seq<i64>) -> bool {
        &&& self@.len() == raw.len()
        &&& self.origins().len() == raw.len()
        &&& self@.to_multiset() == raw.to_multiset()
        &&& paired(self.origins(), self@).to_multiset() == indexed(raw).to_multiset()
        &&& forall|i: int|
            0 <= i < raw.len() ==> (#[trigger] self.origins()[i]) < raw.len() && self@[i]
                == raw[self.origins()[i] as int]
        &&& forall|i: int, j: int|
            0 <= i < j < raw.len() ==> (#[trigger] self.origins()[i]) != (
            #[trigger] self.origins()[j])
        &&& forall|i: int, j: int|
            0 <= i < j < raw.len() && self@[i] == self@[j] ==> (#[trigger] self.origins()[i]) < (
            #[trigger] self.origins()[j])
    }

    /// The values, in working order.
    pub fn values(&self) -> (r: &Vec<i64>)
        ensures
            r@ == self@,
    {
        &self.values
    }

    /// For each working position, the input position of its value.
    pub fn origin(&self) -> (r: &Vec<usize>)
        ensures
            r@ == self.origins(),
    {
        &self.origin
    }

    /// Number of values.
    pub fn len(&self) -> (r: usize)
        ensures
            r == self@.len(),
    {
        self.values.len()
    }
}

/// Builds the working input for `array`, announced as `size` values.
///
/// Fails with `SizeMismatch` when `array` does not hold `size` values or
/// `size` lies outside the supported range; nothing else can fail.
pub fn prepare_input(array: &Vec<i64>, size: usize) -> (r: Result<WorkingInput, ErrorKind>)
    ensures
        match r {
            Ok(w) => size_supported(array.len() as int, size as int) && w.wf() && w.arranges(
                array@,
            ),
            Err(e) => e == ErrorKind::SizeMismatch && !size_supported(
                array.len() as int,
                size as int,
            ),
        },
{
    let n = array.len();
    if n != size || size < MIN_SIZE || size > MAX_SIZE {
        return Err(ErrorKind::SizeMismatch);
    }
    let mut values: Vec<i64> = Vec::new();
    let mut origin: Vec<usize> = Vec::new();
    let mut i: usize = 0;
    proof {
        assert(array@.take(0) =~= values@);
        assert(indexed(array@).take(0) =~= paired(origin@, values@));
    }
    while i < n
        invariant
            i <= n,
            n == array.len(),
            values.len() == i,
            origin.len() == i,
            sorted_descending(values@),
            values@.to_multiset() == array@.take(i as int).to_multiset(),
            paired(origin@, values@).to_multiset() == indexed(array@).take(i as int).to_multiset(),
            forall|j: int|
                0 <= j < i ==> (#[trigger] origin[j]) < i && values[j] == array[origin[j] as int],
            forall|a: int, b: int|
                0 <= a < b < i ==> (#[trigger] origin[a]) != (#[trigger] origin[b]),
            forall|a: int, b: int|
                0 <= a < b < i && values[a] == values[b] ==> (#[trigger] origin[a]) < (
                #[trigger] origin[b]),
        decreases n - i,
    {
        let x = array[i];
        let mut pos: usize = 0;
        while pos < values.len() && values[pos] >= x
            invariant
                pos <= values.len(),
                forall|j: int| 0 <= j < pos ==> values[j] >= x,
            decreases values.len() - pos,
        {
            pos += 1;
        }
        let ghost before = values@;
        let ghost origin_before = origin@;
        values.insert(pos, x);
        origin.insert(pos, i);
        proof {
            let after = values@;
            let origin_after = origin@;
            assert(after == before.insert(pos as int, x));
            assert forall|j: int| 0 <= j < after.len() implies after[j] == (if j < pos {
                before[j]
            } else if j == pos {
                x
            } else {
                before[j - 1]
            }) && origin_after[j] == (if j < pos {
                origin_before[j]
            } else if j == pos {
                i
            } else {
                origin_before[j - 1]
            }) by {}
            assert(sorted_descending(after)) by {
                assert forall|a: int, b: int| 0 <= a <= b < after.len() implies after[a]
                    >= after[b] by {
                    if b < pos {
                    } else if a > pos {
                        assert(before[a - 1] >= before[b - 1]);
                    } else if a == pos {
                        if b > pos {
                            assert(before[pos as int] >= before[b - 1]);
                        }
                    } else if b == pos {
                    } else {
                        assert(before[a] >= before[b - 1]);
                    }
                }
            }
            to_multiset_insert(before, pos as int, x);
            assert(array@.take(i + 1) =~= array@.take(i as int).push(x));
            to_multiset_build(array@.take(i as int), x);
            let pairs_before = paired(origin_before, before);
            assert(paired(origin_after, after) =~= pairs_before.insert(pos as int, (i as int, x)));
            to_multiset_insert(pairs_before, pos as int, (i as int, x));
            assert(indexed(array@).take(i + 1) =~= indexed(array@).take(i as int).push(
                (i as int, x),
            ));
            to_multiset_build(indexed(array@).take(i as int), (i as int, x));
            assert forall|j: int| 0 <= j < i + 1 implies (#[trigger] origin_after[j]) < i + 1
                && after[j] == array[origin_after[j] as int] by {
                if j > pos {
                    assert(origin_before[j - 1] < i);
                } else if j < pos {
                    assert(origin_before[j] < i);
                }
            }
            assert forall|a: int, b: int| 0 <= a < b < i + 1 implies (#[trigger] origin_after[a])
                != (#[trigger] origin_after[b]) by {
                let oa = if a < pos { a } else { a - 1 };
                let ob = if b < pos { b } else { b - 1 };
                if a != pos && b != pos {
                    assert(origin_before[oa] != origin_before[ob]);
                } else if a == pos {
                    assert(origin_before[ob] < i);
                } else {
                    assert(origin_before[oa] < i);
                }
            }
            assert forall|a: int, b: int|
                0 <= a < b < i + 1 && after[a] == after[b] implies (#[trigger] origin_after[a]) < (
                #[trigger] origin_after[b]) by {
                let oa = if a < pos { a } else { a - 1 };
                let ob = if b < pos { b } else { b - 1 };
                if a != pos && b != pos {
                    assert(origin_before[oa] < origin_before[ob]);
                } else if a == pos {
                    assert(before[ob] < x);
                } else {
                    assert(origin_before[oa] < i);
                }
            }
        }
        i += 1;
    }
    proof {
        assert(array@.take(n as int) =~= array@);
        assert(indexed(array@).take(n as int) =~= indexed(array@));
    }
    Ok(WorkingInput { values, origin })
}

} // verus!
