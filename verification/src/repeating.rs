//! A loop whose rounds all add the same to its sum runs as the loop that adds it: round by round both have the same
//! counter and the same sum.

use vstd::prelude::*;

use crate::accumulating::{
    carries, computed, counter_stays_apart, hands_over, is_followed, is_within, keeps_apart,
    leads_to, plus, run_through, runs_do_not_see_the_counter, runs_keep_the_difference, stepped,
    sum_decides_nothing, Step,
};
use crate::arith::int_op;
use crate::blocked_reduction::nth;
use crate::if_conversion::is_const;
use crate::invariant_reduction_hoisting::{
    counter_free, counter_of, counter_seen, counter_traced, counter_use, counter_uses, gets_kept, is_moved,
    keeps_set, others_stay, outer_of, passed_on, region_from, region_keeps, repeated_sum, stands_in,
    step_of, sum_at_end, sum_found, sum_traced, sum_use, sum_uses, targets_pushed, unmoved, OuterV,
    SumTraceV,
};
use crate::ir::{position_is_first, BasicBlock, BinaryOp, Function, Inst, Op, ProgramV};
use crate::loops::LoopV;

verus! {

/// Value `x` is made in the region: it is computed there or a parameter of a block there.
pub open spec fn made_in(p: ProgramV, f: Function, region: Seq<BasicBlock>, x: Inst) -> bool {
    stands_in(p, f, region, x) || exists|b: BasicBlock| region.contains(b) && #[trigger] p.block(b).params.contains(x)
}

/// The step makes value `x`.
pub open spec fn makes(p: ProgramV, step: Step, x: Inst) -> bool {
    match step {
        Step::Compute(i) => x == i,
        Step::Pass(u, first) => {
            let params = p.block(leads_to(p, u, first)).params;
            params.contains(x) && params.index_of(x) < hands_over(p, u, first).len()
        },
    }
}

/// One of the first `n` steps makes value `x`.
pub open spec fn is_made(p: ProgramV, steps: Seq<Step>, n: int, x: Inst) -> bool {
    exists|j: int| 0 <= j < n && makes(p, #[trigger] steps[j], x)
}

/// The step reads value `x`.
pub open spec fn reads(p: ProgramV, step: Step, x: Inst) -> bool {
    match step {
        Step::Compute(i) => p.args(i).contains(x),
        Step::Pass(u, first) => hands_over(p, u, first).contains(x) || (p.op(u) is Branch && p.args(u).len() > 0 && p.arg(
            u,
            0,
        ) == x),
    }
}

/// The value by which the step decides its way.
pub open spec fn decider(p: ProgramV, step: Step) -> Option<Inst> {
    match step {
        Step::Pass(u, _) => if p.op(u) is Branch && p.args(u).len() > 0 {
            Some(p.arg(u, 0))
        } else {
            None
        },
        Step::Compute(_) => None,
    }
}

/// What the steps read of the region, and what the latch gives back, was made by steps before.
pub open spec fn is_fresh(p: ProgramV, f: Function, c: OuterV, steps: Seq<Step>) -> bool {
    &&& forall|k: int, x: Inst|
        0 <= k < steps.len() && #[trigger] reads(p, steps[k], x) && made_in(p, f, c.region, x) ==> is_made(p, steps, k, x)
    &&& forall|k: int|
        0 <= k < c.back_args.len() && made_in(p, f, c.region, #[trigger] c.back_args[k]) ==> is_made(
            p,
            steps,
            steps.len() as int,
            c.back_args[k],
        )
}

/// Constants are not computed in the region, parameters are no operations, and those of the header are not those
/// of a block in the region.
pub open spec fn is_tidy(p: ProgramV, f: Function, c: OuterV) -> bool {
    let params = p.block(c.header).params;
    &&& p.insts.len() <= usize::MAX
    &&& params.no_duplicates()
    &&& forall|x: Inst| is_const(#[trigger] p.op(x)) ==> !made_in(p, f, c.region, x) && !params.contains(x)
    &&& forall|b: BasicBlock, x: Inst|
        c.region.contains(b) && #[trigger] p.block(b).params.contains(x) ==> !(p.op(x) is Binary)
    &&& forall|k: int| 0 <= k < params.len() ==> !made_in(p, f, c.region, #[trigger] params[k]) && !(p.op(
        params[k],
    ) is Binary)
}

/// The values with which a round starts that has the counter `r` and the sum `acc`, where the loop is entered with
/// the values `v`.
pub open spec fn round_start(p: ProgramV, c: OuterV, v: spec_fn(Inst) -> i32, r: i32, acc: i32) -> spec_fn(Inst) -> i32 {
    let params = p.block(c.header).params;
    |x: Inst|
        if x == params[c.r_idx] {
            r
        } else if x == params[c.acc_idx] {
            acc
        } else {
            v(x)
        }
}

/// Counter and sum after `n` rounds of the loop that each take `steps`.
pub open spec fn rounds_done(
    p: ProgramV,
    c: OuterV,
    meaning: spec_fn(Inst, Seq<i32>) -> i32,
    v: spec_fn(Inst) -> i32,
    steps: Seq<Step>,
    n: nat,
) -> (i32, i32)
    decreases n,
{
    let params = p.block(c.header).params;
    if n == 0 {
        (v(params[c.r_idx]), v(params[c.acc_idx]))
    } else {
        let (r, acc) = rounds_done(p, c, meaning, v, steps, (n - 1) as nat);
        let w = run_through(p, meaning, round_start(p, c, v, r, acc), steps);
        (w(c.back_args[c.r_idx]), w(c.back_args[c.acc_idx]))
    }
}

/// What the nest adds: what it gives when it is run once, from a sum and a counter of zero.
pub open spec fn nest_adds(
    p: ProgramV,
    c: OuterV,
    meaning: spec_fn(Inst, Seq<i32>) -> i32,
    v: spec_fn(Inst) -> i32,
    steps: Seq<Step>,
) -> i32 {
    run_through(p, meaning, round_start(p, c, v, 0, 0), steps)(c.final_acc)
}

/// Counter and sum after `n` rounds of the loop that only adds what the nest adds and moves the counter.
pub open spec fn reduced_done(
    p: ProgramV,
    c: OuterV,
    meaning: spec_fn(Inst, Seq<i32>) -> i32,
    v: spec_fn(Inst) -> i32,
    steps: Seq<Step>,
    n: nat,
) -> (i32, i32)
    decreases n,
{
    let params = p.block(c.header).params;
    if n == 0 {
        (v(params[c.r_idx]), v(params[c.acc_idx]))
    } else {
        let (r, acc) = reduced_done(p, c, meaning, v, steps, (n - 1) as nat);
        let (step, op) = step_of(p, c)->0;
        (int_op(op, r, v(step)), int_op(BinaryOp::Add, acc, nest_adds(p, c, meaning, v, steps)))
    }
}

proof fn lemma_fresh(
    p: ProgramV,
    f: Function,
    c: OuterV,
    seed: Inst,
    meaning: spec_fn(Inst, Seq<i32>) -> i32,
    v: spec_fn(Inst) -> i32,
    w: spec_fn(Inst) -> i32,
    steps: Seq<Step>,
    n: int,
)
    requires
        0 <= n <= steps.len(),
        is_fresh(p, f, c, steps),
        forall|k: int| 0 <= k < steps.len() ==> is_within(p, f, c.region, seed, #[trigger] steps[k]),
        forall|x: Inst| !made_in(p, f, c.region, x) ==> #[trigger] v(x) == w(x),
    ensures
        forall|x: Inst|
            !made_in(p, f, c.region, x) || is_made(p, steps, n, x) ==> #[trigger] run_through(
                p,
                meaning,
                v,
                steps.take(n),
            )(x) == run_through(p, meaning, w, steps.take(n))(x),
    decreases n,
{
    if n > 0 {
        lemma_fresh(p, f, c, seed, meaning, v, w, steps, n - 1);
        let some = steps.take(n);
        let less = steps.take(n - 1);
        assert(some.drop_last() =~= less);
        let step = steps[n - 1];
        assert(some.last() == step);
        assert(is_within(p, f, c.region, seed, step));
        let a = run_through(p, meaning, v, less);
        let b = run_through(p, meaning, w, less);
        assert forall|x: Inst| #[trigger] reads(p, step, x) implies a(x) == b(x) by {
            if made_in(p, f, c.region, x) {
                assert(reads(p, steps[n - 1], x));
                assert(is_made(p, steps, n - 1, x));
            }
        }
        assert forall|x: Inst| !made_in(p, f, c.region, x) || is_made(p, steps, n, x) implies #[trigger] run_through(
            p,
            meaning,
            v,
            some,
        )(x) == run_through(p, meaning, w, some)(x) by {
            if makes(p, step, x) {
                match step {
                    Step::Compute(i) => {
                        let s = Seq::new(p.args(i).len(), |k: int| a(p.args(i)[k]));
                        let t = Seq::new(p.args(i).len(), |k: int| b(p.args(i)[k]));
                        assert forall|k: int| 0 <= k < p.args(i).len() implies s[k] == t[k] by {
                            assert(p.args(i).contains(p.args(i)[k]));
                            assert(reads(p, step, p.args(i)[k]));
                        }
                        assert(s =~= t);
                        if p.op(i) is Binary {
                            assert(s[0] == t[0] && s[1] == t[1]);
                        }
                    },
                    Step::Pass(u, first) => {
                        let params = p.block(leads_to(p, u, first)).params;
                        let y = hands_over(p, u, first)[params.index_of(x)];
                        assert(hands_over(p, u, first).contains(y));
                        assert(reads(p, step, y));
                    },
                }
            } else {
                if is_made(p, steps, n, x) {
                    let j = choose|j: int| 0 <= j < n && makes(p, #[trigger] steps[j], x);
                    assert(makes(p, steps[j], x) && j < n - 1);
                    assert(is_made(p, steps, n - 1, x));
                }
                assert(a(x) == b(x));
            }
        }
    }
}

/// Value `y` is `seed`, a parameter of a block in the region, or an operation there.
pub open spec fn is_carrier(p: ProgramV, f: Function, region: Seq<BasicBlock>, seed: Inst, y: Inst) -> bool {
    ||| y == seed
    ||| exists|b: BasicBlock| region.contains(b) && #[trigger] p.block(b).params.contains(y)
    ||| p.op(y) is Binary && stands_in(p, f, region, y)
}

spec fn all_carriers(p: ProgramV, f: Function, region: Seq<BasicBlock>, seed: Inst, s: Seq<Inst>) -> bool {
    forall|y: Inst| #[trigger] s.contains(y) ==> is_carrier(p, f, region, seed, y)
}

proof fn lemma_push_carrier(p: ProgramV, f: Function, region: Seq<BasicBlock>, seed: Inst, s: Seq<Inst>, y: Inst)
    requires
        all_carriers(p, f, region, seed, s),
        is_carrier(p, f, region, seed, y),
    ensures
        all_carriers(p, f, region, seed, s.push(y)),
{
    assert forall|z: Inst| #[trigger] s.push(y).contains(z) implies is_carrier(p, f, region, seed, z) by {
        let k = s.push(y).index_of(z);
        assert(s.push(y)[k] == z);
        if k < s.len() {
            assert(s[k] == z);
            assert(s.contains(z));
        }
    }
}

proof fn lemma_pushed_carriers(
    p: ProgramV,
    f: Function,
    region: Seq<BasicBlock>,
    seed: Inst,
    t: BasicBlock,
    args: Seq<Inst>,
    cur: Inst,
    from: int,
    work: Seq<Inst>,
)
    requires
        0 <= from,
        region.contains(t),
        all_carriers(p, f, region, seed, work),
    ensures
        all_carriers(p, f, region, seed, targets_pushed(args, p.block(t).params, cur, from, work)),
    decreases args.len() - from,
{
    let params = p.block(t).params;
    if from < args.len() && from < params.len() {
        if args[from] == cur {
            assert(params.contains(params[from]));
            lemma_push_carrier(p, f, region, seed, work, params[from]);
            lemma_pushed_carriers(p, f, region, seed, t, args, cur, from + 1, work.push(params[from]));
        } else {
            lemma_pushed_carriers(p, f, region, seed, t, args, cur, from + 1, work);
        }
    }
}

proof fn lemma_passed_carriers(
    p: ProgramV,
    f: Function,
    region: Seq<BasicBlock>,
    seed: Inst,
    t: BasicBlock,
    args: Seq<Inst>,
    cur: Inst,
    work: Seq<Inst>,
)
    requires
        all_carriers(p, f, region, seed, work),
    ensures
        all_carriers(p, f, region, seed, passed_on(p, region, t, args, cur, work)),
{
    if region.contains(t) {
        lemma_pushed_carriers(p, f, region, seed, t, args, cur, 0, work);
    }
}

proof fn lemma_sum_uses_carriers(
    p: ProgramV,
    f: Function,
    region: Seq<BasicBlock>,
    header: BasicBlock,
    exit: BasicBlock,
    seed: Inst,
    cur: Inst,
    users: Seq<Inst>,
    from: int,
    st: SumTraceV,
)
    requires
        all_carriers(p, f, region, seed, st.work),
    ensures
        sum_uses(p, f, region, header, exit, seed, cur, users, from, st) matches Some(next) ==> all_carriers(
            p,
            f,
            region,
            seed,
            next.work,
        ) && next.seen == st.seen,
    decreases users.len() - from,
{
    if from < users.len() {
        let u = users[from];
        match sum_use(p, f, region, header, exit, seed, cur, u, st) {
            Some(next) => {
                match p.op(u) {
                    Op::Binary(_) => {
                        lemma_push_carrier(p, f, region, seed, st.work, u);
                    },
                    Op::Jump(t) => {
                        lemma_passed_carriers(p, f, region, seed, t, p.args(u), cur, st.work);
                    },
                    Op::Branch(t, e, _) => {
                        lemma_passed_carriers(p, f, region, seed, t, p.t_args(u), cur, st.work);
                        lemma_passed_carriers(
                            p,
                            f,
                            region,
                            seed,
                            e,
                            p.f_args(u),
                            cur,
                            passed_on(p, region, t, p.t_args(u), cur, st.work),
                        );
                    },
                    _ => {},
                }
                lemma_sum_uses_carriers(p, f, region, header, exit, seed, cur, users, from + 1, next);
            },
            None => {},
        }
    }
}

proof fn lemma_drop_carrier(p: ProgramV, f: Function, region: Seq<BasicBlock>, seed: Inst, work: Seq<Inst>)
    requires
        work.len() > 0,
        all_carriers(p, f, region, seed, work),
    ensures
        all_carriers(p, f, region, seed, work.drop_first()),
        is_carrier(p, f, region, seed, work[0]),
{
    assert(work.contains(work[0]));
    assert forall|z: Inst| #[trigger] work.drop_first().contains(z) implies is_carrier(p, f, region, seed, z) by {
        let k = work.drop_first().index_of(z);
        assert(work.drop_first()[k] == z);
        assert(work[k + 1] == z);
        assert(work.contains(z));
    }
}

proof fn lemma_sum_carriers(
    p: ProgramV,
    f: Function,
    region: Seq<BasicBlock>,
    header: BasicBlock,
    exit: BasicBlock,
    seed: Inst,
    st: SumTraceV,
    rounds: nat,
)
    requires
        all_carriers(p, f, region, seed, st.work),
        all_carriers(p, f, region, seed, st.seen),
    ensures
        sum_traced(p, f, region, header, exit, seed, st, rounds) matches Some(end) ==> all_carriers(
            p,
            f,
            region,
            seed,
            end.seen,
        ),
    decreases rounds,
{
    if st.work.len() > 0 && rounds > 0 {
        let cur = st.work[0];
        let rest = SumTraceV { work: st.work.drop_first(), ..st };
        lemma_drop_carrier(p, f, region, seed, st.work);
        if st.seen.contains(cur) {
            lemma_sum_carriers(p, f, region, header, exit, seed, rest, (rounds - 1) as nat);
        } else {
            let mid = SumTraceV { seen: st.seen.push(cur), ..rest };
            lemma_push_carrier(p, f, region, seed, st.seen, cur);
            lemma_sum_uses_carriers(p, f, region, header, exit, seed, cur, p.users(cur), 0, mid);
            match sum_uses(p, f, region, header, exit, seed, cur, p.users(cur), 0, mid) {
                Some(next) => {
                    lemma_sum_carriers(p, f, region, header, exit, seed, next, (rounds - 1) as nat);
                },
                None => {},
            }
        }
    }
}

proof fn lemma_counter_uses_carriers(
    p: ProgramV,
    f: Function,
    region: Seq<BasicBlock>,
    header: BasicBlock,
    latch: BasicBlock,
    r: Inst,
    cur: Inst,
    users: Seq<Inst>,
    from: int,
    work: Seq<Inst>,
)
    requires
        all_carriers(p, f, region, r, work),
    ensures
        counter_uses(p, f, region, header, latch, cur, users, from, work) matches Some(next) ==> all_carriers(
            p,
            f,
            region,
            r,
            next,
        ),
    decreases users.len() - from,
{
    if from < users.len() {
        let u = users[from];
        match counter_use(p, f, region, header, latch, cur, u, work) {
            Some(next) => {
                match p.op(u) {
                    Op::Binary(_) => {
                        if next != work {
                            lemma_push_carrier(p, f, region, r, work, u);
                        }
                    },
                    Op::Jump(t) => {
                        lemma_passed_carriers(p, f, region, r, t, p.args(u), cur, work);
                    },
                    Op::Branch(t, e, _) => {
                        lemma_passed_carriers(p, f, region, r, t, p.t_args(u), cur, work);
                        lemma_passed_carriers(
                            p,
                            f,
                            region,
                            r,
                            e,
                            p.f_args(u),
                            cur,
                            passed_on(p, region, t, p.t_args(u), cur, work),
                        );
                    },
                    _ => {},
                }
                lemma_counter_uses_carriers(p, f, region, header, latch, r, cur, users, from + 1, next);
            },
            None => {},
        }
    }
}

proof fn lemma_counter_carriers(
    p: ProgramV,
    f: Function,
    region: Seq<BasicBlock>,
    header: BasicBlock,
    latch: BasicBlock,
    r: Inst,
    work: Seq<Inst>,
    seen: Seq<Inst>,
    rounds: nat,
)
    requires
        all_carriers(p, f, region, r, work),
        all_carriers(p, f, region, r, seen),
    ensures
        counter_traced(p, f, region, header, latch, work, seen, rounds) matches Some(end) ==> all_carriers(
            p,
            f,
            region,
            r,
            end,
        ),
    decreases rounds,
{
    if work.len() > 0 && rounds > 0 {
        let cur = work[0];
        let rest = work.drop_first();
        lemma_drop_carrier(p, f, region, r, work);
        if seen.contains(cur) {
            lemma_counter_carriers(p, f, region, header, latch, r, rest, seen, (rounds - 1) as nat);
        } else {
            lemma_push_carrier(p, f, region, r, seen, cur);
            lemma_counter_uses_carriers(p, f, region, header, latch, r, cur, p.users(cur), 0, rest);
            match counter_uses(p, f, region, header, latch, cur, p.users(cur), 0, rest) {
                Some(next) => {
                    lemma_counter_carriers(p, f, region, header, latch, r, next, seen.push(cur), (rounds - 1) as nat);
                },
                None => {},
            }
        }
    }
}

proof fn lemma_unmoved(p: ProgramV, seen: Seq<Inst>, from: int, found: Seq<Inst>)
    requires
        0 <= from,
        forall|y: Inst| #[trigger] found.contains(y) ==> seen.contains(y) && !(p.op(y) is Binary),
    ensures
        forall|y: Inst| #[trigger] unmoved(p, seen, from, found).contains(y) ==> seen.contains(y) && !(p.op(y) is Binary),
    decreases seen.len() - from,
{
    if from < seen.len() {
        if p.op(seen[from]) is Binary {
            lemma_unmoved(p, seen, from + 1, found);
            assert(unmoved(p, seen, from, found) == unmoved(p, seen, from + 1, found));
        } else {
            let more = found.push(seen[from]);
            assert forall|y: Inst| #[trigger] more.contains(y) implies seen.contains(y) && !(p.op(y) is Binary) by {
                let k = more.index_of(y);
                assert(more[k] == y);
                if k < found.len() {
                    assert(found[k] == y);
                    assert(found.contains(y));
                }
            }
            lemma_unmoved(p, seen, from + 1, more);
            assert(unmoved(p, seen, from, found) == unmoved(p, seen, from + 1, more));
        }
    } else {
        assert(unmoved(p, seen, from, found) == found);
    }
}

proof fn lemma_region(body: Seq<BasicBlock>, header: BasicBlock, from: int, found: Seq<BasicBlock>)
    requires
        0 <= from,
        forall|b: BasicBlock| #[trigger] found.contains(b) ==> b != header && body.contains(b),
    ensures
        forall|b: BasicBlock| #[trigger] region_from(body, header, from, found).contains(b) ==> b != header && body.contains(b),
    decreases body.len() - from,
{
    if from < body.len() {
        if body[from] == header {
            lemma_region(body, header, from + 1, found);
            assert(region_from(body, header, from, found) == region_from(body, header, from + 1, found));
        } else {
            let more = found.push(body[from]);
            assert forall|b: BasicBlock| #[trigger] more.contains(b) implies b != header && body.contains(b) by {
                let k = more.index_of(b);
                assert(more[k] == b);
                if k < found.len() {
                    assert(found[k] == b);
                    assert(found.contains(b));
                }
            }
            lemma_region(body, header, from + 1, more);
            assert(region_from(body, header, from, found) == region_from(body, header, from + 1, more));
        }
    } else {
        assert(region_from(body, header, from, found) == found);
    }
}

proof fn lemma_sum_found(
    p: ProgramV,
    f: Function,
    region: Seq<BasicBlock>,
    header: BasicBlock,
    exit: BasicBlock,
    params: Seq<Inst>,
    backs: Seq<Inst>,
    r_idx: int,
    from: int,
    found: Option<(int, Inst)>,
)
    requires
        0 <= from,
    ensures
        sum_found(p, f, region, header, exit, params, backs, r_idx, from, found) matches Some((k, v)) ==> found == Some(
            (k, v),
        ) || (0 <= k < params.len() && k != r_idx && nth(backs, k) == v && sum_at_end(
            p,
            f,
            region,
            header,
            exit,
            params[k],
        ) == Some(v)),
    decreases params.len() - from,
{
    if from < params.len() {
        if from == r_idx || !(p.ty(params[from]) is I32) {
            lemma_sum_found(p, f, region, header, exit, params, backs, r_idx, from + 1, found);
        } else {
            match sum_at_end(p, f, region, header, exit, params[from]) {
                Some(v) => if nth(backs, from) == v {
                    if found is None {
                        lemma_sum_found(p, f, region, header, exit, params, backs, r_idx, from + 1, Some((from, v)));
                    }
                } else {
                    lemma_sum_found(p, f, region, header, exit, params, backs, r_idx, from + 1, found);
                },
                None => {
                    lemma_sum_found(p, f, region, header, exit, params, backs, r_idx, from + 1, found);
                },
            }
        }
    }
}

/// What holds of a loop that is rewritten.
spec fn is_outer(p: ProgramV, f: Function, c: OuterV) -> bool {
    let params = p.block(c.header).params;
    &&& !c.region.contains(c.header)
    &&& !c.region.contains(c.exit)
    &&& c.region.contains(c.latch)
    &&& 0 <= c.r_idx < params.len()
    &&& 0 <= c.acc_idx < params.len()
    &&& c.acc_idx != c.r_idx
    &&& c.back_args.len() == params.len()
    &&& c.back_args[c.acc_idx] == c.final_acc
    &&& sum_at_end(p, f, c.region, c.header, c.exit, params[c.acc_idx]) == Some(c.final_acc)
    &&& counter_free(p, f, c.region, c.header, c.latch, params[c.r_idx], c.back_args[c.r_idx], c.final_acc)
    &&& others_stay(params, c.back_args, c.r_idx, c.acc_idx)
}

proof fn lemma_outer(p: ProgramV, f: Function, l: LoopV)
    requires
        outer_of(p, f, l) is Some,
    ensures
        is_outer(p, f, outer_of(p, f, l)->0),
{
    let c = outer_of(p, f, l)->0;
    let params = p.block(l.header).params;
    lemma_region(l.body, l.header, 0, Seq::empty());
    lemma_sum_found(p, f, c.region, c.header, c.exit, params, c.back_args, c.r_idx, 0, None);
    position_is_first(params, counter_of(p, p.arg(p.terminator(l.header), 0), params)->0, 0);
}

/// The sum followed through the region.
spec fn sum_state(p: ProgramV, f: Function, c: OuterV) -> SumTraceV {
    let seed = p.block(c.header).params[c.acc_idx];
    sum_traced(
        p,
        f,
        c.region,
        c.header,
        c.exit,
        seed,
        (SumTraceV { work: seq![seed], seen: Seq::empty(), added: false, last: None }),
        usize::MAX as nat,
    )->0
}

proof fn lemma_kept(p: ProgramV, f: Function, region: Seq<BasicBlock>, set: Seq<Inst>, u: Inst)
    requires
        region_keeps(p, region, set),
        stands_in(p, f, region, u),
    ensures
        keeps_set(p, region, u, set),
{
    crate::propagation::lemma_parent(p, f, u, 0);
    let b = p.parent_bb(f, u)->0;
    let n = region.index_of(b);
    let k = p.block(b).insts.index_of(u);
    assert(region[n] == b);
    assert(p.block(region[n]).insts[k] == u);
}

proof fn lemma_state(p: ProgramV, f: Function, c: OuterV)
    requires
        is_outer(p, f, c),
        is_tidy(p, f, c),
    ensures
        ({
            let st = sum_state(p, f, c);
            let seed = p.block(c.header).params[c.acc_idx];
            &&& is_followed(p, f, c.region, c.header, c.exit, seed, st)
            &&& st.last == Some(c.final_acc)
            &&& st.work.len() == 0
            &&& region_keeps(p, c.region, st.seen)
            &&& forall|x: Inst| #[trigger] carries(st, x) && !made_in(p, f, c.region, x) ==> x == seed
        }),
{
    let st = sum_state(p, f, c);
    let seed = p.block(c.header).params[c.acc_idx];
    let start = SumTraceV { work: seq![seed], seen: Seq::empty(), added: false, last: None };
    assert(all_carriers(p, f, c.region, seed, start.work)) by {
        assert forall|y: Inst| #[trigger] start.work.contains(y) implies is_carrier(p, f, c.region, seed, y) by {
            let k = start.work.index_of(y);
            assert(start.work[k] == y);
        }
    }
    lemma_sum_carriers(p, f, c.region, c.header, c.exit, seed, start, usize::MAX as nat);
    assert(is_followed(p, f, c.region, c.header, c.exit, seed, st));
    lemma_ended(p, f, c.region, c.header, c.exit, seed, start, usize::MAX as nat);
    assert forall|x: Inst| #[trigger] carries(st, x) && !made_in(p, f, c.region, x) implies x == seed by {
        assert(st.seen.contains(x));
        assert(is_carrier(p, f, c.region, seed, x));
    }
}

proof fn lemma_ended(
    p: ProgramV,
    f: Function,
    region: Seq<BasicBlock>,
    header: BasicBlock,
    exit: BasicBlock,
    seed: Inst,
    st: SumTraceV,
    rounds: nat,
)
    ensures
        sum_traced(p, f, region, header, exit, seed, st, rounds) matches Some(end) ==> end.work.len() == 0,
    decreases rounds,
{
    if st.work.len() > 0 && rounds > 0 {
        let cur = st.work[0];
        let rest = SumTraceV { work: st.work.drop_first(), ..st };
        if st.seen.contains(cur) {
            lemma_ended(p, f, region, header, exit, seed, rest, (rounds - 1) as nat);
        } else {
            match sum_uses(
                p,
                f,
                region,
                header,
                exit,
                seed,
                cur,
                p.users(cur),
                0,
                SumTraceV { seen: st.seen.push(cur), ..rest },
            ) {
                Some(next) => {
                    lemma_ended(p, f, region, header, exit, seed, next, (rounds - 1) as nat);
                },
                None => {},
            }
        }
    }
}

proof fn lemma_apart(p: ProgramV, f: Function, region: Seq<BasicBlock>, seed: Inst, st: SumTraceV, step: Step)
    requires
        region_keeps(p, region, st.seen),
        st.work.len() == 0,
        is_within(p, f, region, seed, step),
    ensures
        keeps_apart(p, st, step),
{
    match step {
        Step::Compute(i) => {
            lemma_kept(p, f, region, st.seen, i);
        },
        Step::Pass(u, first) => {
            lemma_kept(p, f, region, st.seen, u);
            let params = p.block(leads_to(p, u, first)).params;
            assert(gets_kept(p, leads_to(p, u, first), hands_over(p, u, first), st.seen));
            assert forall|k: int| 0 <= k < params.len() && carries(st, #[trigger] params[k]) implies k < hands_over(
                p,
                u,
                first,
            ).len() && carries(st, hands_over(p, u, first)[k]) by {
                assert(st.seen.contains(p.block(leads_to(p, u, first)).params[k]));
            }
        },
    }
}

/// The steps of a round stay in the region, and none makes the counter or the sum that the round starts with.
pub open spec fn is_a_round(p: ProgramV, f: Function, c: OuterV, steps: Seq<Step>) -> bool {
    &&& is_fresh(p, f, c, steps)
    &&& forall|k: int|
        0 <= k < steps.len() ==> is_within(p, f, c.region, p.block(c.header).params[c.acc_idx], #[trigger] steps[k])
    &&& forall|k: int|
        0 <= k < steps.len() ==> is_within(p, f, c.region, p.block(c.header).params[c.r_idx], #[trigger] steps[k])
}

proof fn lemma_value(
    p: ProgramV,
    f: Function,
    c: OuterV,
    meaning: spec_fn(Inst, Seq<i32>) -> i32,
    v: spec_fn(Inst) -> i32,
    steps: Seq<Step>,
    n: int,
    r: i32,
    acc: i32,
    x: Inst,
)
    requires
        is_outer(p, f, c),
        is_tidy(p, f, c),
        is_a_round(p, f, c, steps),
        0 <= n <= steps.len(),
        made_in(p, f, c.region, x) ==> is_made(p, steps, n, x),
        counter_seen(p, f, c.region, c.header, c.latch, p.block(c.header).params[c.r_idx]) matches Some(seen)
            ==> !seen.contains(x),
    ensures
        ({
            let st = sum_state(p, f, c);
            let from_zero = run_through(p, meaning, round_start(p, c, v, 0, 0), steps.take(n))(x);
            run_through(p, meaning, round_start(p, c, v, r, acc), steps.take(n))(x) == if carries(st, x) {
                plus(from_zero, acc)
            } else {
                from_zero
            }
        }),
{
    let params = p.block(c.header).params;
    let (rp, seed) = (params[c.r_idx], params[c.acc_idx]);
    let st = sum_state(p, f, c);
    let some = steps.take(n);
    lemma_state(p, f, c);
    let base = round_start(p, c, v, 0, 0);
    let w1 = |y: Inst|
        if carries(st, y) {
            plus(base(y), acc)
        } else {
            base(y)
        };
    let w2 = round_start(p, c, v, 0, acc);
    let w = round_start(p, c, v, r, acc);
    assert forall|k: int| 0 <= k < some.len() implies is_within(p, f, c.region, seed, #[trigger] some[k]) && keeps_apart(
        p,
        st,
        some[k],
    ) by {
        assert(some[k] == steps[k]);
        lemma_apart(p, f, c.region, seed, st, steps[k]);
    }
    runs_keep_the_difference(p, f, c.region, c.header, c.exit, seed, st, meaning, base, w1, acc, some);
    assert(carries(st, seed)) by {
        crate::accumulating::seed_is_carried(p, f, c.region, c.header, c.exit, seed, st);
    }
    assert forall|y: Inst| !made_in(p, f, c.region, y) implies #[trigger] w1(y) == w2(y) by {
        reveal(plus);
        if carries(st, y) {
            assert(y == seed);
        }
    }
    lemma_fresh(p, f, c, seed, meaning, w1, w2, steps, n);
    assert(run_through(p, meaning, w1, some)(x) == run_through(p, meaning, w2, some)(x));
    let seen = counter_stays_apart(p, f, c.region, c.header, c.latch, rp, c.back_args[c.r_idx], c.final_acc);
    assert forall|k: int| 0 <= k < some.len() implies is_within(p, f, c.region, rp, #[trigger] some[k]) by {
        assert(some[k] == steps[k]);
    }
    runs_do_not_see_the_counter(p, f, c.region, rp, seen, meaning, w2, w, some);
    assert(run_through(p, meaning, w, some)(x) == run_through(p, meaning, w2, some)(x));
}

/// The values after the first `n` steps hold the counter where it is carried, and the moved counter where it was
/// moved.
spec fn counter_holds(
    p: ProgramV,
    f: Function,
    c: OuterV,
    held: Seq<Inst>,
    w: spec_fn(Inst) -> i32,
    steps: Seq<Step>,
    n: int,
    a: spec_fn(Inst) -> i32,
) -> bool {
    let rp = p.block(c.header).params[c.r_idx];
    let (step, op) = step_of(p, c)->0;
    &&& forall|x: Inst| !made_in(p, f, c.region, x) ==> #[trigger] a(x) == w(x)
    &&& forall|x: Inst| held.contains(x) && is_made(p, steps, n, x) ==> #[trigger] a(x) == w(rp)
    &&& is_made(p, steps, n, c.back_args[c.r_idx]) ==> a(c.back_args[c.r_idx]) == int_op(op, w(rp), w(step))
}

proof fn lemma_counter(
    p: ProgramV,
    f: Function,
    c: OuterV,
    meaning: spec_fn(Inst, Seq<i32>) -> i32,
    w: spec_fn(Inst) -> i32,
    steps: Seq<Step>,
    held: Seq<Inst>,
    n: int,
)
    requires
        is_outer(p, f, c),
        is_tidy(p, f, c),
        is_a_round(p, f, c, steps),
        0 <= n <= steps.len(),
        region_keeps(p, c.region, held),
        is_moved(p, held, c.back_args[c.r_idx]),
        step_of(p, c) is Some,
        forall|x: Inst| #[trigger] held.contains(x) ==> !(p.op(x) is Binary) && is_carrier(
            p,
            f,
            c.region,
            p.block(c.header).params[c.r_idx],
            x,
        ),
    ensures
        counter_holds(p, f, c, held, w, steps, n, run_through(p, meaning, w, steps.take(n))),
    decreases n,
{
    let rp = p.block(c.header).params[c.r_idx];
    let u = c.back_args[c.r_idx];
    assert(!made_in(p, f, c.region, rp));
    if n > 0 {
        lemma_counter(p, f, c, meaning, w, steps, held, n - 1);
        let some = steps.take(n);
        let less = steps.take(n - 1);
        assert(some.drop_last() =~= less);
        let step = steps[n - 1];
        assert(some.last() == step);
        assert(is_within(p, f, c.region, rp, step));
        let a = run_through(p, meaning, w, less);
        let b = run_through(p, meaning, w, some);
        assert(b == stepped(p, meaning, a, step));
        assert forall|x: Inst| held.contains(x) && #[trigger] reads(p, step, x) implies a(x) == w(rp) by {
            if made_in(p, f, c.region, x) {
                assert(reads(p, steps[n - 1], x));
                assert(is_made(p, steps, n - 1, x));
            } else {
                assert(x == rp);
            }
        }
        assert forall|x: Inst| !made_in(p, f, c.region, x) implies #[trigger] b(x) == w(x) by {
            assert(a(x) == w(x));
        }
        assert forall|x: Inst| is_made(p, steps, n, x) && !makes(p, step, x) implies #[trigger] is_made(
            p,
            steps,
            n - 1,
            x,
        ) && b(x) == a(x) by {
            let j = choose|j: int| 0 <= j < n && makes(p, #[trigger] steps[j], x);
            assert(makes(p, steps[j], x) && j < n - 1);
        }
        assert forall|x: Inst| held.contains(x) && is_made(p, steps, n, x) implies #[trigger] b(x) == w(rp) by {
            if makes(p, step, x) {
                match step {
                    Step::Compute(i) => {
                        assert(is_carrier(p, f, c.region, rp, x));
                        assert(made_in(p, f, c.region, x));
                    },
                    Step::Pass(t, first) => {
                        let params = p.block(leads_to(p, t, first)).params;
                        let args = hands_over(p, t, first);
                        let k = params.index_of(x);
                        assert(params[k] == x);
                        lemma_kept(p, f, c.region, held, t);
                        assert(gets_kept(p, leads_to(p, t, first), args, held));
                        assert(held.contains(p.block(leads_to(p, t, first)).params[k]));
                        assert(held.contains(args[k]));
                        assert(args.contains(args[k]));
                        assert(reads(p, step, args[k]));
                        assert(b(x) == a(args[k]));
                    },
                }
            } else {
                assert(is_made(p, steps, n - 1, x));
            }
        }
        if is_made(p, steps, n, u) {
            if makes(p, step, u) {
                match step {
                    Step::Compute(i) => {
                        lemma_moved(p, f, c, meaning, w, held, a);
                    },
                    Step::Pass(t, first) => {
                        assert(c.region.contains(leads_to(p, t, first)));
                        assert(p.block(leads_to(p, t, first)).params.contains(u));
                    },
                }
            } else {
                assert(is_made(p, steps, n - 1, u));
            }
        }
    }
}

proof fn lemma_moved(
    p: ProgramV,
    f: Function,
    c: OuterV,
    meaning: spec_fn(Inst, Seq<i32>) -> i32,
    w: spec_fn(Inst) -> i32,
    held: Seq<Inst>,
    a: spec_fn(Inst) -> i32,
)
    requires
        is_outer(p, f, c),
        is_tidy(p, f, c),
        is_moved(p, held, c.back_args[c.r_idx]),
        p.args(c.back_args[c.r_idx]).len() == 2,
        step_of(p, c) is Some,
        forall|x: Inst| !made_in(p, f, c.region, x) ==> #[trigger] a(x) == w(x),
        forall|x: Inst|
            held.contains(x) && #[trigger] reads(p, Step::Compute(c.back_args[c.r_idx]), x) ==> a(x) == w(
                p.block(c.header).params[c.r_idx],
            ),
        forall|x: Inst| #[trigger] held.contains(x) ==> !(p.op(x) is Binary) && is_carrier(
            p,
            f,
            c.region,
            p.block(c.header).params[c.r_idx],
            x,
        ),
    ensures
        ({
            let (step, op) = step_of(p, c)->0;
            let u = c.back_args[c.r_idx];
            computed(p, meaning, a, u) == int_op(op, w(p.block(c.header).params[c.r_idx]), w(step))
        }),
{
    let params = p.block(c.header).params;
    let rp = params[c.r_idx];
    let u = c.back_args[c.r_idx];
    let (x, y) = (p.arg(u, 0), p.arg(u, 1));
    assert(p.args(u)[0] == x && p.args(u)[1] == y);
    assert(p.args(u).contains(x) && p.args(u).contains(y));
    assert(reads(p, Step::Compute(u), x) && reads(p, Step::Compute(u), y));
    assert forall|z: Inst| #[trigger] held.contains(z) implies !is_const(p.op(z)) by {
        assert(is_carrier(p, f, c.region, rp, z));
        assert(params.contains(params[c.r_idx]));
    }
    reveal(plus);
    reveal(crate::accumulating::minus);
    assert(nth(c.back_args, c.r_idx) == u);
    if is_const(p.op(y)) {
        assert(held.contains(x));
        assert(a(y) == w(y));
    } else {
        assert(is_const(p.op(x)));
        assert(held.contains(y));
        assert(a(x) == w(x));
    }
}

proof fn lemma_a_round(
    p: ProgramV,
    f: Function,
    c: OuterV,
    meaning: spec_fn(Inst, Seq<i32>) -> i32,
    v: spec_fn(Inst) -> i32,
    steps: Seq<Step>,
    r: i32,
    acc: i32,
)
    requires
        is_outer(p, f, c),
        is_tidy(p, f, c),
        is_a_round(p, f, c, steps),
        step_of(p, c) is Some,
    ensures
        ({
            let w = run_through(p, meaning, round_start(p, c, v, r, acc), steps);
            let (step, op) = step_of(p, c)->0;
            &&& w(c.back_args[c.r_idx]) == int_op(op, r, v(step))
            &&& w(c.back_args[c.acc_idx]) == int_op(BinaryOp::Add, acc, nest_adds(p, c, meaning, v, steps))
        }),
{
    let params = p.block(c.header).params;
    let rp = params[c.r_idx];
    let n = steps.len() as int;
    assert(steps.take(n) =~= steps);
    let seen = counter_stays_apart(p, f, c.region, c.header, c.latch, rp, c.back_args[c.r_idx], c.final_acc);
    lemma_value(p, f, c, meaning, v, steps, n, r, acc, c.final_acc);
    lemma_state(p, f, c);
    crate::accumulating::seed_is_carried(p, f, c.region, c.header, c.exit, params[c.acc_idx], sum_state(p, f, c));
    reveal(plus);
    let held = unmoved(p, seen, 0, Seq::empty());
    lemma_unmoved(p, seen, 0, Seq::empty());
    assert(all_carriers(p, f, c.region, rp, seq![rp])) by {
        assert forall|y: Inst| #[trigger] seq![rp].contains(y) implies is_carrier(p, f, c.region, rp, y) by {
            let k = seq![rp].index_of(y);
            assert(seq![rp][k] == y);
        }
    }
    lemma_counter_carriers(p, f, c.region, c.header, c.latch, rp, seq![rp], Seq::empty(), usize::MAX as nat);
    assert forall|x: Inst| #[trigger] held.contains(x) implies !(p.op(x) is Binary) && is_carrier(p, f, c.region, rp, x) by {
        assert(seen.contains(x));
    }
    let w = round_start(p, c, v, r, acc);
    lemma_counter(p, f, c, meaning, w, steps, held, n);
    let u = c.back_args[c.r_idx];
    assert(stands_in(p, f, c.region, u));
    assert(made_in(p, f, c.region, u));
    let (step, op) = step_of(p, c)->0;
    assert(nth(c.back_args, c.r_idx) == u);
    assert(is_const(p.op(step)));
    assert(params.contains(params[c.r_idx]) && params.contains(params[c.acc_idx]));
    assert(w(step) == v(step));
}

/// The loop and the loop that only adds what the nest adds have the same counter and the same sum at the start of
/// every round, and so test and leave with the same: a round takes the same way whatever counter and sum it starts
/// with, moves the counter as the other does, and adds what the nest adds when it is run once.
pub proof fn the_reduced_loop_runs_alike(
    p: ProgramV,
    f: Function,
    l: LoopV,
    meaning: spec_fn(Inst, Seq<i32>) -> i32,
    v: spec_fn(Inst) -> i32,
    steps: Seq<Step>,
    n: nat,
)
    requires
        outer_of(p, f, l) is Some,
        step_of(p, outer_of(p, f, l)->0) is Some,
        is_tidy(p, f, outer_of(p, f, l)->0),
        is_a_round(p, f, outer_of(p, f, l)->0, steps),
    ensures
        ({
            let c = outer_of(p, f, l)->0;
            let params = p.block(c.header).params;
            let (r, acc) = rounds_done(p, c, meaning, v, steps, n);
            &&& rounds_done(p, c, meaning, v, steps, n) == reduced_done(p, c, meaning, v, steps, n)
            &&& acc == repeated_sum(v(params[c.acc_idx]), nest_adds(p, c, meaning, v, steps), n)
            &&& forall|k: int|
                0 <= k < steps.len() ==> (#[trigger] decider(p, steps[k]) matches Some(x) ==> run_through(
                    p,
                    meaning,
                    round_start(p, c, v, r, acc),
                    steps.take(k),
                )(x) == run_through(p, meaning, round_start(p, c, v, 0, 0), steps.take(k))(x))
            &&& forall|k: int|
                0 <= k < params.len() && k != c.r_idx && k != c.acc_idx ==> #[trigger] c.back_args[k] == params[k]
        }),
    decreases n,
{
    let c = outer_of(p, f, l)->0;
    let params = p.block(c.header).params;
    let rp = params[c.r_idx];
    lemma_outer(p, f, l);
    if n > 0 {
        the_reduced_loop_runs_alike(p, f, l, meaning, v, steps, (n - 1) as nat);
        let (r, acc) = rounds_done(p, c, meaning, v, steps, (n - 1) as nat);
        lemma_a_round(p, f, c, meaning, v, steps, r, acc);
    }
    let (r, acc) = rounds_done(p, c, meaning, v, steps, n);
    let seen = counter_stays_apart(p, f, c.region, c.header, c.latch, rp, c.back_args[c.r_idx], c.final_acc);
    lemma_state(p, f, c);
    assert forall|k: int| 0 <= k < steps.len() && (#[trigger] decider(p, steps[k])) is Some implies run_through(
        p,
        meaning,
        round_start(p, c, v, r, acc),
        steps.take(k),
    )(decider(p, steps[k])->0) == run_through(p, meaning, round_start(p, c, v, 0, 0), steps.take(k))(
        decider(p, steps[k])->0,
    ) by {
        match steps[k] {
            Step::Pass(u, first) => {
                let x = p.arg(u, 0);
                assert(is_within(p, f, c.region, rp, steps[k]));
                assert(reads(p, steps[k], x));
                sum_decides_nothing(p, f, c.region, c.header, c.exit, params[c.acc_idx], sum_state(p, f, c), u);
                runs_do_not_see_the_counter(p, f, c.region, rp, seen, meaning, v, v, Seq::empty());
                lemma_value(p, f, c, meaning, v, steps, k, r, acc, x);
            },
            Step::Compute(_) => {},
        }
    }
}

} // verus!
