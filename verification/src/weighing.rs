//! What counts where a loop is weighed: how often it runs, how far apart its accesses are, and what a step costs.

use vstd::prelude::*;

use crate::bounding::{counters_stay_in_range, goes_on, is_count, lemma_extremes};
use crate::column_major::{stride_of, stride_penalty};
use crate::induction::{exit_of, extremes, literal_of, range_of, rounds, trips, IvV};
use crate::ir::ProgramV;
use crate::loops::LoopV;

verus! {

/// A counter has not reached its bound as long as it goes on.
pub open spec fn is_before(value: int, step: i32, bound: i32) -> bool {
    if step > 0 {
        value < bound
    } else {
        step < 0 && value > bound
    }
}

/// The rounds of a counter are those in which it has not reached its bound: it has not after any smaller number of
/// steps, and it has after that many.
pub proof fn rounds_end_at_the_bound(first: i32, step: i32, bound: i32, k: int)
    requires
        0 <= k,
    ensures
        rounds(first, step, bound) >= 0,
        k < rounds(first, step, bound) <==> is_before(first + k * step, step, bound),
{
    let (f, s, b) = (first as int, step as int, bound as int);
    if s > 0 && f < b {
        let n = rounds(first, step, bound);
        let d = b - f + s - 1;
        assert(n == d / s);
        lemma_quotient(d, s, k);
    } else if s < 0 && f > b {
        let n = rounds(first, step, bound);
        let t = -s;
        let d = f - b + t - 1;
        assert(n == d / t);
        lemma_quotient(d, t, k);
        assert(k * s == -(k * t)) by (nonlinear_arith)
            requires
                t == -s,
        ;
    } else if s > 0 {
        assert(k * s >= 0) by (nonlinear_arith)
            requires
                k >= 0,
                s > 0,
        ;
    } else if s < 0 {
        assert(k * s <= 0) by (nonlinear_arith)
            requires
                k >= 0,
                s < 0,
        ;
    }
}

proof fn lemma_quotient(d: int, s: int, k: int)
    requires
        s > 0,
        d >= s,
        k >= 0,
    ensures
        d / s >= 0,
        k < d / s <==> k * s < d - s + 1,
{
    let n = d / s;
    assert(d == n * s + d % s && 0 <= d % s < s && n >= 0) by (nonlinear_arith)
        requires
            n == d / s,
            s > 0,
            d >= s,
    ;
    if k < n {
        assert(k * s <= n * s - s) by (nonlinear_arith)
            requires
                k + 1 <= n,
                s > 0,
        ;
    } else {
        assert(k * s >= n * s) by (nonlinear_arith)
            requires
                k >= n,
                s > 0,
        ;
    }
}

/// No run of a loop has more rounds than its counter is found to have.
pub proof fn no_run_is_longer(p: ProgramV, l: LoopV, iv: IvV, vals: Seq<i32>)
    requires
        exit_of(p, l, iv) is Some,
        range_of(p, iv, exit_of(p, l, iv)->0) is Some,
        is_count(p, iv, exit_of(p, l, iv)->0, vals),
        vals.len() > 0,
    ensures
        trips(p, iv, exit_of(p, l, iv)->0) is Some,
        vals.len() <= trips(p, iv, exit_of(p, l, iv)->0)->0,
{
    let exit = exit_of(p, l, iv)->0;
    let k = vals.len() - 1;
    let (lo, hi) = extremes(p, iv.initials, 0, None)->0;
    let bound = literal_of(p, exit.bound)->0;
    counters_stay_in_range(p, l, iv, vals, k);
    let j = choose|j: int| 0 <= j < iv.initials.len() && literal_of(p, #[trigger] iv.initials[j]) == Some(vals[0]);
    lemma_extremes(p, iv.initials, 0, None);
    assert(literal_of(p, iv.initials[j]) is Some);
    assert(lo <= vals[0] <= hi);
    assert(goes_on(p, exit, vals[k]));
    let first = if exit.forward {
        lo
    } else {
        hi
    };
    rounds_end_at_the_bound(first, iv.step, bound, k);
}

/// The stride between two cells is the distance of their places, wherever in the matrix they are; there is none only
/// where it fits no word.
pub proof fn strides_are_distances(major: i64, minor: i64, len: usize, size: usize, row: int, column: int)
    ensures
        ({
            let here = (row * len + column) * size;
            let there = ((row + major) * len + (column + minor)) * size;
            let distance = if there < here {
                here - there
            } else {
                there - here
            };
            match stride_of(major, minor, len, size) {
                Some(s) => s == distance,
                None => distance > usize::MAX,
            }
        }),
{
    let cells = major * len + minor;
    let here = (row * len + column) * size;
    let there = ((row + major) * len + (column + minor)) * size;
    assert(there - here == cells * size) by (nonlinear_arith)
        requires
            cells == major * len + minor,
            here == (row * len + column) * size,
            there == ((row + major) * len + (column + minor)) * size,
    ;
    assert((-cells) * size == -(cells * size) && (cells >= 0 ==> cells * size >= 0) && (cells < 0 ==> cells * size <= 0))
        by (nonlinear_arith)
        requires
            size >= 0,
    ;
}

/// A step costs the lines that it covers, at least one, and sixty-four more from a page on.
pub proof fn steps_cost_their_lines(stride: usize)
    ensures
        ({
            let lines = stride_penalty(stride) - if stride >= 4096 {
                64int
            } else {
                0int
            };
            &&& lines >= 1
            &&& lines * 64 >= stride
            &&& lines > 1 ==> (lines - 1) * 64 < stride
        }),
{
}

} // verus!
