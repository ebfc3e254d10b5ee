//! Indices that are found to lie within a dimension do so in every round of their loops.

use vstd::prelude::*;

use crate::arith::int_op;
use crate::cfg::{reverse_postorder, tree_of};
use crate::column_major::{bounds_by, bounds_from, verdict, within, Access, CandidateV};
use crate::induction::{
    counter_stays_in_span, derived, derived_value_is_linear, exit_of, extremes, is_word, ivs_of, literal_of, range_of,
    InductionExit, IvV,
};
use crate::ir::{BasicBlock, BinaryOp, Inst, Op, ProgramV};
use crate::loops::{loops_of, LoopV};

verus! {

/// Counter value `x` is still strictly before the bound, so that the header stays in the loop.
pub open spec fn goes_on(p: ProgramV, exit: InductionExit, x: i32) -> bool {
    match literal_of(p, exit.bound) {
        Some(bound) => if exit.forward {
            x < bound
        } else {
            x > bound
        },
        None => true,
    }
}

/// The values `vals` of counter `iv` in the rounds of its loop so far: first a value that comes from outside
/// the loop, then one step on in each round, and the header went on with every one of them.
pub open spec fn is_count(p: ProgramV, iv: IvV, exit: InductionExit, vals: Seq<i32>) -> bool {
    &&& vals.len() > 0
    &&& exists|j: int| 0 <= j < iv.initials.len() && literal_of(p, #[trigger] iv.initials[j]) == Some(vals[0])
    &&& forall|k: int| 0 <= k < vals.len() ==> goes_on(p, exit, #[trigger] vals[k])
    &&& forall|k: int| 0 < k < vals.len() ==> #[trigger] vals[k] == int_op(BinaryOp::Add, vals[k - 1], iv.step)
}

/// Literals are what they say, and sums, differences and products are those of their operands.
pub open spec fn computes_words(p: ProgramV, env: spec_fn(Inst) -> i32) -> bool {
    &&& forall|i: Inst| (#[trigger] p.op(i)) matches Op::Integer(c) ==> env(i) == c
    &&& forall|i: Inst|
        (#[trigger] p.op(i)) matches Op::Binary(op) ==> (op == BinaryOp::Add || op == BinaryOp::Sub || op
            == BinaryOp::Mul) ==> env(i) == int_op(op, env(p.arg(i, 0)), env(p.arg(i, 1)))
}

/// Counter `iv` of loop `l` has in `env` its value in some round.
pub open spec fn in_a_round(p: ProgramV, l: LoopV, iv: IvV, env: spec_fn(Inst) -> i32) -> bool {
    exit_of(p, l, iv) matches Some(exit) ==> exists|vals: Seq<i32>| #[trigger]
        is_count(p, iv, exit, vals) && vals.last() == env(iv.param)
}

/// Block `b` runs with the values `env`: behind the headers of all loops that hold it, each in some round.
pub open spec fn runs_inside(
    p: ProgramV,
    order: Seq<BasicBlock>,
    loops: Seq<LoopV>,
    b: BasicBlock,
    env: spec_fn(Inst) -> i32,
) -> bool {
    forall|j: int, k: int|
        0 <= j < loops.len() && loops[j].body.contains(b) && loops[j].header != b && 0 <= k < ivs_of(
            p,
            order,
            loops[j],
        ).len() ==> in_a_round(p, loops[j], #[trigger] ivs_of(p, order, loops[j])[k], env)
}

pub(crate) proof fn lemma_extremes(p: ProgramV, list: Seq<Inst>, from: int, found: Option<(i32, i32)>)
    requires
        0 <= from <= list.len(),
    ensures
        extremes(p, list, from, found) matches Some((lo, hi)) ==> {
            &&& found matches Some((l, h)) ==> lo <= l && h <= hi
            &&& forall|j: int|
                from <= j < list.len() ==> literal_of(p, #[trigger] list[j]) is Some && lo <= literal_of(p, list[j])->0
                    <= hi
        },
    decreases list.len() - from,
{
    if from < list.len() {
        match literal_of(p, list[from]) {
            Some(v) => {
                let next = match found {
                    Some((lo, hi)) => (
                        if v < lo {
                            v
                        } else {
                            lo
                        },
                        if v > hi {
                            v
                        } else {
                            hi
                        },
                    ),
                    None => (v, v),
                };
                lemma_extremes(p, list, from + 1, Some(next));
            },
            None => {},
        }
    }
}

/// In every round a counter is its first value and as many steps as there were rounds, and within its range.
pub proof fn counters_stay_in_range(p: ProgramV, l: LoopV, iv: IvV, vals: Seq<i32>, k: int)
    requires
        exit_of(p, l, iv) is Some,
        range_of(p, iv, exit_of(p, l, iv)->0) is Some,
        is_count(p, iv, exit_of(p, l, iv)->0, vals),
        0 <= k < vals.len(),
    ensures
        vals[k] == vals[0] + k * iv.step,
        (range_of(p, iv, exit_of(p, l, iv)->0)->0).0 <= vals[k] <= (range_of(p, iv, exit_of(p, l, iv)->0)->0).1,
    decreases k,
{
    let exit = exit_of(p, l, iv)->0;
    let (lo, hi) = extremes(p, iv.initials, 0, None)->0;
    let bound = literal_of(p, exit.bound)->0;
    let j = choose|j: int| 0 <= j < iv.initials.len() && literal_of(p, #[trigger] iv.initials[j]) == Some(vals[0]);
    lemma_extremes(p, iv.initials, 0, None);
    assert(literal_of(p, iv.initials[j]) is Some);
    if k > 0 {
        let m = k - 1;
        counters_stay_in_range(p, l, iv, vals, m);
        assert(goes_on(p, exit, vals[m]));
        counter_stays_in_span(lo, hi, iv.step, bound, exit.forward, vals[0], m as nat);
        assert(m * iv.step + iv.step == k * iv.step) by (nonlinear_arith)
            requires
                m == k - 1,
        ;
        assert(vals[k] == int_op(BinaryOp::Add, vals[m], iv.step));
        assert(is_word(vals[m] + iv.step));
    } else {
        assert(k * iv.step == 0) by (nonlinear_arith)
            requires
                k == 0,
        ;
    }
    assert(goes_on(p, exit, vals[k]));
    counter_stays_in_span(lo, hi, iv.step, bound, exit.forward, vals[0], k as nat);
}

proof fn lemma_bounds_by(p: ProgramV, l: LoopV, ivs: Seq<IvV>, v: Inst, env: spec_fn(Inst) -> i32, from: int)
    requires
        0 <= from,
        computes_words(p, env),
        forall|k: int| 0 <= k < ivs.len() ==> in_a_round(p, l, #[trigger] ivs[k], env),
    ensures
        bounds_by(p, l, ivs, v, from) matches Some((lo, hi)) ==> lo <= env(v) <= hi,
    decreases ivs.len() - from,
{
    if from < ivs.len() {
        let iv = ivs[from];
        lemma_bounds_by(p, l, ivs, v, env, from + 1);
        match exit_of(p, l, iv) {
            Some(exit) => match range_of(p, iv, exit) {
                Some((lo, hi)) => {
                    assert(in_a_round(p, l, iv, env));
                    let vals = choose|vals: Seq<i32>| #[trigger]
                        is_count(p, iv, exit, vals) && vals.last() == env(iv.param);
                    counters_stay_in_range(p, l, iv, vals, vals.len() - 1);
                    if v != iv.param {
                        match derived(p, iv.param, v, lo, hi, p.insts.len()) {
                            Some(d) => {
                                derived_value_is_linear(p, env, iv.param, v, lo, hi, p.insts.len());
                                let c = env(iv.param) as int;
                                let (a, x, y) = (d.a as int, lo as int, hi as int);
                                if a >= 0 {
                                    assert(a * x <= a * c <= a * y) by (nonlinear_arith)
                                        requires
                                            a >= 0,
                                            x <= c <= y,
                                    ;
                                } else {
                                    assert(a * y <= a * c <= a * x) by (nonlinear_arith)
                                        requires
                                            a < 0,
                                            x <= c <= y,
                                    ;
                                }
                            },
                            None => {},
                        }
                    }
                },
                None => {},
            },
            None => {},
        }
    }
}

proof fn lemma_bounds_from(
    p: ProgramV,
    order: Seq<BasicBlock>,
    loops: Seq<LoopV>,
    b: BasicBlock,
    v: Inst,
    env: spec_fn(Inst) -> i32,
    from: int,
)
    requires
        0 <= from,
        computes_words(p, env),
        runs_inside(p, order, loops, b, env),
    ensures
        bounds_from(p, order, loops, b, v, from) matches Some((lo, hi)) ==> lo <= env(v) <= hi,
    decreases loops.len() - from,
{
    if from < loops.len() {
        let l = loops[from];
        lemma_bounds_from(p, order, loops, b, v, env, from + 1);
        if l.body.contains(b) && l.header != b {
            let ivs = ivs_of(p, order, l);
            assert forall|k: int| 0 <= k < ivs.len() implies in_a_round(p, l, #[trigger] ivs[k], env) by {
                assert(in_a_round(p, loops[from], ivs_of(p, order, loops[from])[k], env));
            }
            lemma_bounds_by(p, l, ivs, v, env, 0);
        }
    }
}

/// An index that is found within a dimension of `n` is a number from zero to `n - 1` whenever its block runs.
pub proof fn indices_found_within_stay_within(
    p: ProgramV,
    order: Seq<BasicBlock>,
    loops: Seq<LoopV>,
    b: BasicBlock,
    v: Inst,
    n: usize,
    env: spec_fn(Inst) -> i32,
)
    requires
        computes_words(p, env),
        runs_inside(p, order, loops, b, env),
        within(p, order, loops, b, v, n),
    ensures
        0 <= env(v) < n,
{
    match literal_of(p, v) {
        Some(c) => {
            assert(p.op(v) == Op::Integer(c));
        },
        None => {
            lemma_bounds_from(p, order, loops, b, v, env, 0);
        },
    }
}

/// An access that does not rule an exchange out stays within the rows and the columns of its matrix whenever
/// its block runs: exchanging them moves no access out of the cells that it was meant for.
pub proof fn accepted_accesses_stay_in_the_matrix(p: ProgramV, c: CandidateV, x: Access, env: spec_fn(Inst) -> i32)
    requires
        !(verdict(p, c, x) is Rejected),
        computes_words(p, env),
        runs_inside(
            p,
            reverse_postorder(p, x.function),
            loops_of(tree_of(p, x.function), reverse_postorder(p, x.function)),
            p.parent_bb(x.function, x.gep)->0,
            env,
        ),
    ensures
        0 <= env(x.row) < c.rows,
        0 <= env(x.column) < c.columns,
{
    let order = reverse_postorder(p, x.function);
    let loops = loops_of(tree_of(p, x.function), order);
    let b = p.parent_bb(x.function, x.gep)->0;
    indices_found_within_stay_within(p, order, loops, b, x.row, c.rows, env);
    indices_found_within_stay_within(p, order, loops, b, x.column, c.columns, env);
}

} // verus!
