//! The entry points: validation of the request, then normalisation, search
//! and layout of the result.

use vstd::prelude::*;
use crate::driver::solve;
use crate::error::ErrorKind;
use crate::input::prepare_input;
use crate::laws::{
    law_optimal_for_input, law_output_determined, law_output_permutes, law_output_teams,
};
use crate::layout::{arrange, arrangement, team_amplitude};
use crate::partition::{
    amplitude, optimal_assignment, sorted_descending, valid_assignment, MAX_SIZE, MIN_SIZE,
};

verus! {

/// `w` holds the values of `raw` in descending order.
pub open spec fn is_working_order(raw: Seq<i64>, w: Seq<i64>) -> bool {
    sorted_descending(w) && w.to_multiset() == raw.to_multiset()
}

/// The values of `raw` in descending order.
pub open spec fn working_order(raw: Seq<i64>) -> Seq<i64> {
    choose|w: Seq<i64>| is_working_order(raw, w)
}

/// The optimal assignment of `vals` to `k` groups.
pub open spec fn best_assignment(vals: Seq<i64>, k: int) -> Seq<usize> {
    choose|a: Seq<usize>| optimal_assignment(vals, k, a)
}

/// What the solver returns for the values `raw` and `k` groups: the values in
/// descending order, laid out group by group under the optimal assignment.
pub open spec fn collesort_output(raw: Seq<i64>, k: int) -> Seq<i64> {
    arrangement(working_order(raw), best_assignment(working_order(raw), k), k)
}

/// `out` is the answer to the values `raw` and `k` teams: it is the output
/// that the input determines; it is as long as the input and holds every
/// value of the input exactly once; and no way of sending the input positions
/// to `k` groups of equal size has a smaller amplitude than `out` read as `k`
/// consecutive teams.
pub open spec fn solves(raw: Seq<i64>, k: int, out: Seq<i64>) -> bool {
    &&& out == collesort_output(raw, k)
    &&& out.len() == raw.len()
    &&& out.to_multiset() == raw.to_multiset()
    &&& forall|b: Seq<usize>| #[trigger]
        valid_assignment(b, raw.len() as int, k) ==> team_amplitude(out, k) <= amplitude(
            raw,
            b,
            k,
        )
}

/// Smallest team count that `run_collesort` accepts.
pub const MIN_TEAMS: usize = 2;

/// Largest team count that `run_collesort` accepts.
pub const MAX_TEAMS: usize = 5;

/// The error, if any, with which `run_collesort_with` turns down `len` values
/// announced as `size` values for `k` teams.
pub open spec fn collesort_with_error(len: int, size: int, k: int) -> Option<ErrorKind> {
    if k == 0 {
        Some(ErrorKind::InvalidTeamCount)
    } else if size % k != 0 || len != size || !(MIN_SIZE <= size <= MAX_SIZE) {
        Some(ErrorKind::SizeMismatch)
    } else {
        None
    }
}

/// The error, if any, with which `run_collesort_w` turns down `len` values
/// for `k` teams.
pub open spec fn collesort_w_error(len: int, k: int) -> Option<ErrorKind> {
    if !(MIN_SIZE <= len <= MAX_SIZE) {
        Some(ErrorKind::SizeMismatch)
    } else {
        collesort_with_error(len, len, k)
    }
}

/// The error, if any, with which `run_collesort` turns down `len` values for
/// `teams` teams.
pub open spec fn collesort_error(len: int, teams: int) -> Option<ErrorKind> {
    if teams == 0 {
        Some(ErrorKind::InvalidTeamCount)
    } else if len % teams != 0 {
        Some(ErrorKind::SizeMismatch)
    } else if !(MIN_TEAMS <= teams <= MAX_TEAMS) {
        Some(ErrorKind::InvalidTeamCount)
    } else {
        collesort_w_error(len, teams)
    }
}

/// Splits `array`, which must hold `SIZE` values, into `K` teams of equal
/// size with the smallest possible amplitude, and returns the values team by
/// team. Within a team the values are in descending order, and the teams are
/// in the order of their largest values: the first team holds the largest
/// value of all, the second the largest value outside the first, and so on.
///
/// Any `K` from 1 on that divides `SIZE` is served; a single team is the
/// whole input in descending order.
///
/// Fails with `InvalidTeamCount` when `K` is zero, and with `SizeMismatch`
/// when `K` does not divide `SIZE`, when `array` does not hold `SIZE` values,
/// or when `SIZE` is not between 2 and 24.
pub fn run_collesort_with<const SIZE: usize, const K: usize>(array: Vec<i64>) -> (r: Result<
    Vec<i64>,
    ErrorKind,
>)
    ensures
        match r {
            Ok(out) => {
                &&& collesort_with_error(array.len() as int, SIZE as int, K as int) is None
                &&& solves(array@, K as int, out@)
            },
            Err(e) => collesort_with_error(array.len() as int, SIZE as int, K as int) == Some(e),
        },
{
    if K == 0 {
        return Err(ErrorKind::InvalidTeamCount);
    }
    if SIZE % K != 0 {
        return Err(ErrorKind::SizeMismatch);
    }
    let input = match prepare_input(&array, SIZE) {
        Ok(input) => input,
        Err(e) => {
            return Err(e);
        },
    };
    let solution = match solve(&input, K) {
        Ok(solution) => solution,
        Err(e) => {
            return Err(e);
        },
    };
    let out = arrange(input.values(), &solution.assignment, K);
    proof {
        law_output_determined(array@, K as int, input@, solution.assignment@);
        law_output_permutes(input@, solution.assignment@, K as int);
        law_output_teams(input@, solution.assignment@, K as int, 0);
        assert forall|b: Seq<usize>| #[trigger]
            valid_assignment(b, array.len() as int, K as int) implies team_amplitude(
            out@,
            K as int,
        ) <= amplitude(array@, b, K as int) by {
            law_optimal_for_input(
                array@,
                input@,
                input.origins(),
                solution.assignment@,
                b,
                K as int,
            );
        }
    }
    Ok(out)
}

/// Splits `array` into `K` teams, for any supported number of values.
///
/// Fails with `SizeMismatch` when the number of values is not between 2 and
/// 24 or is not a multiple of `K`, and with `InvalidTeamCount` when `K` is
/// zero.
pub fn run_collesort_w<const K: usize>(array: Vec<i64>) -> (r: Result<Vec<i64>, ErrorKind>)
    ensures
        match r {
            Ok(out) => {
                &&& collesort_w_error(array.len() as int, K as int) is None
                &&& solves(array@, K as int, out@)
            },
            Err(e) => collesort_w_error(array.len() as int, K as int) == Some(e),
        },
{
    let len = array.len();
    match len {
        2 => run_collesort_with::<2, K>(array),
        3 => run_collesort_with::<3, K>(array),
        4 => run_collesort_with::<4, K>(array),
        5 => run_collesort_with::<5, K>(array),
        6 => run_collesort_with::<6, K>(array),
        7 => run_collesort_with::<7, K>(array),
        8 => run_collesort_with::<8, K>(array),
        9 => run_collesort_with::<9, K>(array),
        10 => run_collesort_with::<10, K>(array),
        11 => run_collesort_with::<11, K>(array),
        12 => run_collesort_with::<12, K>(array),
        13 => run_collesort_with::<13, K>(array),
        14 => run_collesort_with::<14, K>(array),
        15 => run_collesort_with::<15, K>(array),
        16 => run_collesort_with::<16, K>(array),
        17 => run_collesort_with::<17, K>(array),
        18 => run_collesort_with::<18, K>(array),
        19 => run_collesort_with::<19, K>(array),
        20 => run_collesort_with::<20, K>(array),
        21 => run_collesort_with::<21, K>(array),
        22 => run_collesort_with::<22, K>(array),
        23 => run_collesort_with::<23, K>(array),
        24 => run_collesort_with::<24, K>(array),
        _ => Err(ErrorKind::SizeMismatch),
    }
}

/// Splits `array` into `teams` teams of equal size with the smallest possible
/// amplitude, and returns the values team by team.
///
/// Fails with `InvalidTeamCount` when `teams` is zero or, the length being a
/// multiple of it, not between 2 and 5; and with `SizeMismatch` when the
/// length is not a multiple of `teams` or not between 2 and 24.
pub fn run_collesort(array: Vec<i64>, teams: usize) -> (r: Result<Vec<i64>, ErrorKind>)
    ensures
        match r {
            Ok(out) => {
                &&& collesort_error(array.len() as int, teams as int) is None
                &&& solves(array@, teams as int, out@)
            },
            Err(e) => collesort_error(array.len() as int, teams as int) == Some(e),
        },
{
    if teams == 0 {
        return Err(ErrorKind::InvalidTeamCount);
    }
    if array.len() % teams != 0 {
        return Err(ErrorKind::SizeMismatch);
    }
    match teams {
        2 => run_collesort_w::<2>(array),
        3 => run_collesort_w::<3>(array),
        4 => run_collesort_w::<4>(array),
        5 => run_collesort_w::<5>(array),
        _ => Err(ErrorKind::InvalidTeamCount),
    }
}

} // verus!
