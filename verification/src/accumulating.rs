//! A round of a nest that only adds to its sum adds the same, whatever the sum and the counter are.

use vstd::prelude::*;

use crate::arith::{int_op, wrap32};
use crate::invariant_reduction_hoisting::{
    counter_free, counter_seen, counter_traced, counter_use, counter_uses, passed_on, stands_in, sum_traced, sum_use, sum_uses,
    targets_pushed, SumTraceV,
};
use crate::ir::{BasicBlock, BinaryOp, Function, Inst, Op, ProgramV};
use crate::propagation::lemma_users;

verus! {

/// Value `x` was looked at or is still to be looked at.
pub open spec fn carries(st: SumTraceV, x: Inst) -> bool {
    st.seen.contains(x) || st.work.contains(x)
}

/// What `args` pass to `target` in the region of `x` is carried.
pub open spec fn passes(p: ProgramV, target: BasicBlock, args: Seq<Inst>, x: Inst, st: SumTraceV) -> bool {
    forall|k: int|
        0 <= k < args.len() && k < p.block(target).params.len() && args[k] == x ==> carries(
            st,
            #[trigger] p.block(target).params[k],
        )
}

/// Instruction `u` adds to or takes from `x`.
pub open spec fn adds_to(p: ProgramV, u: Inst, x: Inst) -> bool {
    &&& p.op(u) == Op::Binary(BinaryOp::Add) && (p.arg(u, 0) == x || p.arg(u, 1) == x) || p.op(u) == Op::Binary(
        BinaryOp::Sub,
    ) && p.arg(u, 0) == x
    &&& p.arg(u, 0) != p.arg(u, 1)
}

/// Use `u` of `x` in the region only adds to the sum or hands it on.
pub open spec fn hands_on(
    p: ProgramV,
    f: Function,
    region: Seq<BasicBlock>,
    header: BasicBlock,
    x: Inst,
    u: Inst,
    st: SumTraceV,
) -> bool {
    match p.op(u) {
        Op::Binary(_) => adds_to(p, u, x) && carries(st, u),
        Op::Jump(t) => t == header || passes(p, t, p.args(u), x, st),
        Op::Branch(t, e, _) => p.arg(u, 0) != x && (region.contains(t) ==> passes(p, t, p.t_args(u), x, st)) && (
        region.contains(e) ==> passes(p, e, p.f_args(u), x, st)),
        _ => false,
    }
}

/// Value `y` has its part in the sum: it is what the sum starts as, a parameter of the region, or what adds to
/// the sum.
pub open spec fn has_part(p: ProgramV, region: Seq<BasicBlock>, seed: Inst, y: Inst, st: SumTraceV) -> bool {
    ||| y == seed
    ||| exists|b: BasicBlock| region.contains(b) && #[trigger] p.block(b).params.contains(y)
    ||| exists|x: Inst| #[trigger] carries(st, x) && adds_to(p, y, x)
}

/// All uses of what was looked at only add to the sum or hand it on.
pub open spec fn looked_at(
    p: ProgramV,
    f: Function,
    region: Seq<BasicBlock>,
    header: BasicBlock,
    seed: Inst,
    st: SumTraceV,
) -> bool {
    &&& carries(st, seed)
    &&& st.last matches Some(l) ==> st.seen.contains(l)
    &&& forall|y: Inst| #[trigger] carries(st, y) ==> has_part(p, region, seed, y, st)
    &&& forall|x: Inst, u: Inst|
        st.seen.contains(x) && stands_in(p, f, region, u) && #[trigger] p.args(u).contains(x) ==> hands_on(
            p,
            f,
            region,
            header,
            x,
            u,
            st,
        )
}

proof fn lemma_pushed(args: Seq<Inst>, params: Seq<Inst>, cur: Inst, from: int, work: Seq<Inst>)
    requires
        0 <= from,
    ensures
        forall|y: Inst| work.contains(y) ==> #[trigger] targets_pushed(args, params, cur, from, work).contains(y),
        forall|y: Inst| #[trigger]
            targets_pushed(args, params, cur, from, work).contains(y) ==> work.contains(y) || params.contains(y),
        forall|k: int|
            from <= k < args.len() && k < params.len() && args[k] == cur ==> targets_pushed(
                args,
                params,
                cur,
                from,
                work,
            ).contains(#[trigger] params[k]),
    decreases args.len() - from,
{
    let out = targets_pushed(args, params, cur, from, work);
    if from < args.len() && from < params.len() {
        if args[from] == cur {
            let more = work.push(params[from]);
            lemma_pushed(args, params, cur, from + 1, more);
            assert(out == targets_pushed(args, params, cur, from + 1, more));
            assert(more[work.len() as int] == params[from]);
            assert(more.contains(params[from]));
            assert forall|y: Inst| work.contains(y) implies #[trigger] out.contains(y) by {
                let k = work.index_of(y);
                assert(more[k] == y);
            }
            assert forall|y: Inst| #[trigger] out.contains(y) implies work.contains(y) || params.contains(y) by {
                if more.contains(y) && !work.contains(y) {
                    let k = more.index_of(y);
                    assert(more[k] == y);
                    if k < work.len() {
                        assert(work[k] == y);
                    }
                    assert(params[from] == y);
                }
            }
            assert forall|k: int| from <= k < args.len() && k < params.len() && args[k] == cur implies out.contains(
                #[trigger] params[k],
            ) by {}
        } else {
            lemma_pushed(args, params, cur, from + 1, work);
            assert(out == targets_pushed(args, params, cur, from + 1, work));
        }
    } else {
        assert(out == work);
    }
}

/// State `next` comes of `st` by looking at more.
pub open spec fn goes_on(st: SumTraceV, next: SumTraceV) -> bool {
    &&& next.seen == st.seen
    &&& forall|y: Inst| #[trigger] carries(st, y) ==> carries(next, y)
}

proof fn lemma_passed(p: ProgramV, region: Seq<BasicBlock>, t: BasicBlock, args: Seq<Inst>, cur: Inst, st: SumTraceV)
    ensures
        ({
            let next = SumTraceV { work: passed_on(p, region, t, args, cur, st.work), ..st };
            &&& goes_on(st, next)
            &&& region.contains(t) ==> passes(p, t, args, cur, next)
            &&& forall|y: Inst| #[trigger]
                carries(next, y) ==> carries(st, y) || (region.contains(t) && p.block(t).params.contains(y))
        }),
{
    lemma_pushed(args, p.block(t).params, cur, 0, st.work);
}

proof fn lemma_use(
    p: ProgramV,
    f: Function,
    region: Seq<BasicBlock>,
    header: BasicBlock,
    exit: BasicBlock,
    seed: Inst,
    cur: Inst,
    u: Inst,
    st: SumTraceV,
)
    requires
        !region.contains(exit),
        carries(st, cur),
        p.args(u).contains(cur),
    ensures
        sum_use(p, f, region, header, exit, seed, cur, u, st) matches Some(next) ==> {
            &&& goes_on(st, next)
            &&& next.last == st.last || next.last == Some(cur)
            &&& stands_in(p, f, region, u) ==> hands_on(p, f, region, header, cur, u, next)
            &&& forall|y: Inst| #[trigger] carries(next, y) ==> carries(st, y) || has_part(p, region, seed, y, next)
        },
{
    match sum_use(p, f, region, header, exit, seed, cur, u, st) {
        Some(next) => {
            let within = stands_in(p, f, region, u);
            match p.op(u) {
                Op::Binary(_) => {
                    assert(next.work[st.work.len() as int] == u);
                    assert(next.work.contains(u));
                    assert forall|y: Inst| #[trigger] carries(st, y) implies carries(next, y) by {
                        if st.work.contains(y) {
                            let k = st.work.index_of(y);
                            assert(next.work[k] == y);
                        }
                    }
                    assert(carries(next, cur));
                    assert forall|y: Inst| #[trigger] carries(next, y) implies carries(st, y) || has_part(
                        p,
                        region,
                        seed,
                        y,
                        next,
                    ) by {
                        if next.work.contains(y) {
                            let k = next.work.index_of(y);
                            assert(next.work[k] == y);
                            if k < st.work.len() {
                                assert(st.work[k] == y);
                            } else {
                                assert(adds_to(p, y, cur));
                            }
                        }
                    }
                },
                Op::Jump(t) => {
                    lemma_passed(p, region, t, p.args(u), cur, st);
                },
                Op::Branch(t, e, _) => {
                    if within {
                        lemma_passed(p, region, t, p.t_args(u), cur, st);
                        let mid = SumTraceV { work: passed_on(p, region, t, p.t_args(u), cur, st.work), ..st };
                        lemma_passed(p, region, e, p.f_args(u), cur, mid);
                        assert forall|y: Inst| #[trigger] carries(st, y) implies carries(next, y) by {
                            assert(carries(mid, y));
                        }
                        if region.contains(t) {
                            assert forall|k: int|
                                0 <= k < p.t_args(u).len() && k < p.block(t).params.len() && p.t_args(u)[k]
                                    == cur implies carries(next, #[trigger] p.block(t).params[k]) by {
                                assert(carries(mid, p.block(t).params[k]));
                            }
                        }
                        assert forall|y: Inst| #[trigger] carries(next, y) implies carries(st, y) || has_part(
                            p,
                            region,
                            seed,
                            y,
                            next,
                        ) by {
                            assert(carries(mid, y) || p.block(e).params.contains(y));
                        }
                    }
                },
                _ => {},
            }
        },
        None => {},
    }
}

/// What `st` carries, `next` carries.
pub open spec fn keeps(st: SumTraceV, next: SumTraceV) -> bool {
    forall|y: Inst| #[trigger] carries(st, y) ==> carries(next, y)
}

proof fn lemma_hands_on(
    p: ProgramV,
    f: Function,
    region: Seq<BasicBlock>,
    header: BasicBlock,
    x: Inst,
    u: Inst,
    st: SumTraceV,
    next: SumTraceV,
)
    requires
        hands_on(p, f, region, header, x, u, st),
        keeps(st, next),
    ensures
        hands_on(p, f, region, header, x, u, next),
{
    match p.op(u) {
        Op::Jump(t) => {
            lemma_passes(p, t, p.args(u), x, st, next);
        },
        Op::Branch(t, e, _) => {
            lemma_passes(p, t, p.t_args(u), x, st, next);
            lemma_passes(p, e, p.f_args(u), x, st, next);
        },
        _ => {},
    }
}

proof fn lemma_passes(p: ProgramV, t: BasicBlock, args: Seq<Inst>, x: Inst, st: SumTraceV, next: SumTraceV)
    requires
        keeps(st, next),
    ensures
        passes(p, t, args, x, st) ==> passes(p, t, args, x, next),
{
    if passes(p, t, args, x, st) {
        assert forall|k: int| 0 <= k < args.len() && k < p.block(t).params.len() && args[k] == x implies carries(
            next,
            #[trigger] p.block(t).params[k],
        ) by {
            assert(carries(st, p.block(t).params[k]));
        }
    }
}

proof fn lemma_has_part(p: ProgramV, region: Seq<BasicBlock>, seed: Inst, y: Inst, st: SumTraceV, next: SumTraceV)
    requires
        has_part(p, region, seed, y, st),
        keeps(st, next),
    ensures
        has_part(p, region, seed, y, next),
{
    if exists|x: Inst| #[trigger] carries(st, x) && adds_to(p, y, x) {
        let x = choose|x: Inst| #[trigger] carries(st, x) && adds_to(p, y, x);
        assert(carries(next, x));
    }
}

proof fn lemma_uses(
    p: ProgramV,
    f: Function,
    region: Seq<BasicBlock>,
    header: BasicBlock,
    exit: BasicBlock,
    seed: Inst,
    cur: Inst,
    users: Seq<Inst>,
    from: int,
    st: SumTraceV,
)
    requires
        !region.contains(exit),
        carries(st, cur),
        0 <= from,
        forall|k: int| 0 <= k < users.len() ==> p.args(#[trigger] users[k]).contains(cur),
    ensures
        sum_uses(p, f, region, header, exit, seed, cur, users, from, st) matches Some(next) ==> {
            &&& goes_on(st, next)
            &&& next.last == st.last || next.last == Some(cur)
            &&& forall|k: int|
                from <= k < users.len() && stands_in(p, f, region, #[trigger] users[k]) ==> hands_on(
                    p,
                    f,
                    region,
                    header,
                    cur,
                    users[k],
                    next,
                )
            &&& forall|y: Inst| #[trigger] carries(next, y) ==> carries(st, y) || has_part(p, region, seed, y, next)
        },
    decreases users.len() - from,
{
    if from < users.len() {
        let u = users[from];
        lemma_use(p, f, region, header, exit, seed, cur, u, st);
        match sum_use(p, f, region, header, exit, seed, cur, u, st) {
            Some(mid) => {
                assert(carries(mid, cur));
                lemma_uses(p, f, region, header, exit, seed, cur, users, from + 1, mid);
                match sum_uses(p, f, region, header, exit, seed, cur, users, from, st) {
                    Some(next) => {
                        assert(goes_on(mid, next));
                        assert forall|y: Inst| #[trigger] carries(st, y) implies carries(next, y) by {
                            assert(carries(mid, y));
                        }
                        if stands_in(p, f, region, u) {
                            lemma_hands_on(p, f, region, header, cur, u, mid, next);
                        }
                        assert forall|y: Inst| #[trigger] carries(next, y) implies carries(st, y) || has_part(
                            p,
                            region,
                            seed,
                            y,
                            next,
                        ) by {
                            if carries(mid, y) && !carries(st, y) {
                                lemma_has_part(p, region, seed, y, mid, next);
                            }
                        }
                    },
                    None => {},
                }
            },
            None => {},
        }
    }
}

proof fn lemma_users_use(p: ProgramV, x: Inst, from: int, found: Seq<Inst>)
    requires
        0 <= from,
        p.insts.len() <= usize::MAX,
        forall|k: int| 0 <= k < found.len() ==> p.args(#[trigger] found[k]).contains(x),
    ensures
        forall|k: int|
            0 <= k < p.users_from(x, from, found).len() ==> p.args(#[trigger] p.users_from(x, from, found)[k]).contains(x),
    decreases p.insts.len() - from,
{
    let out = p.users_from(x, from, found);
    if from < p.insts.len() {
        if p.insts[from].args.contains(x) {
            let u = Inst(from as usize);
            let more = found.push(u);
            assert(p.args(u) == p.insts[from].args);
            lemma_users_use(p, x, from + 1, more);
            assert(out == p.users_from(x, from + 1, more));
        } else {
            lemma_users_use(p, x, from + 1, found);
            assert(out == p.users_from(x, from + 1, found));
        }
    } else {
        assert(out == found);
    }
}

proof fn lemma_traced(
    p: ProgramV,
    f: Function,
    region: Seq<BasicBlock>,
    header: BasicBlock,
    exit: BasicBlock,
    seed: Inst,
    st: SumTraceV,
    rounds: nat,
)
    requires
        !region.contains(exit),
        p.insts.len() <= usize::MAX,
        looked_at(p, f, region, header, seed, st),
    ensures
        sum_traced(p, f, region, header, exit, seed, st, rounds) matches Some(end) ==> end.work.len() == 0 && looked_at(
            p,
            f,
            region,
            header,
            seed,
            end,
        ),
    decreases rounds,
{
    if rounds > 0 && st.work.len() > 0 {
        let cur = st.work[0];
        let rest = SumTraceV { work: st.work.drop_first(), ..st };
        assert forall|y: Inst| #[trigger] st.work.contains(y) implies y == cur || rest.work.contains(y) by {
            let k = st.work.index_of(y);
            assert(st.work[k] == y);
            if k > 0 {
                assert(rest.work[k - 1] == y);
            }
        }
        assert forall|y: Inst| #[trigger] rest.work.contains(y) implies st.work.contains(y) by {
            let k = rest.work.index_of(y);
            assert(st.work[k + 1] == y);
        }
        assert(st.work.contains(cur));
        if st.seen.contains(cur) {
            lemma_looked_at(p, f, region, header, seed, st, rest);
            lemma_traced(p, f, region, header, exit, seed, rest, (rounds - 1) as nat);
        } else {
            let mid = SumTraceV { seen: st.seen.push(cur), ..rest };
            assert(mid.seen[st.seen.len() as int] == cur);
            assert forall|y: Inst| #[trigger] st.seen.contains(y) implies mid.seen.contains(y) by {
                let k = st.seen.index_of(y);
                assert(mid.seen[k] == y);
            }
            assert forall|y: Inst| #[trigger] mid.seen.contains(y) implies y == cur || st.seen.contains(y) by {
                let k = mid.seen.index_of(y);
                assert(mid.seen[k] == y);
                if k < st.seen.len() {
                    assert(st.seen[k] == y);
                }
            }
            lemma_users_use(p, cur, 0, Seq::empty());
            lemma_uses(p, f, region, header, exit, seed, cur, p.users(cur), 0, mid);
            match sum_uses(p, f, region, header, exit, seed, cur, p.users(cur), 0, mid) {
                Some(next) => {
                    assert forall|y: Inst| #[trigger] carries(st, y) implies carries(next, y) by {
                        assert(carries(mid, y));
                    }
                    assert forall|y: Inst| #[trigger] carries(next, y) implies has_part(p, region, seed, y, next) by {
                        if carries(mid, y) {
                            assert(carries(st, y));
                            lemma_has_part(p, region, seed, y, st, next);
                        }
                    }
                    assert forall|x: Inst, u: Inst|
                        next.seen.contains(x) && stands_in(p, f, region, u) && #[trigger] p.args(u).contains(
                            x,
                        ) implies hands_on(p, f, region, header, x, u, next) by {
                        if x == cur {
                            lemma_users(p, cur, u, 0, Seq::empty());
                            let k = p.users(cur).index_of(u);
                            assert(p.users(cur)[k] == u);
                        } else {
                            assert(st.seen.contains(x));
                            lemma_hands_on(p, f, region, header, x, u, st, next);
                        }
                    }
                    lemma_traced(p, f, region, header, exit, seed, next, (rounds - 1) as nat);
                },
                None => {},
            }
        }
    }
}

proof fn lemma_looked_at(
    p: ProgramV,
    f: Function,
    region: Seq<BasicBlock>,
    header: BasicBlock,
    seed: Inst,
    st: SumTraceV,
    rest: SumTraceV,
)
    requires
        looked_at(p, f, region, header, seed, st),
        rest.seen == st.seen,
        rest.last == st.last,
        forall|y: Inst| #[trigger] carries(rest, y) == carries(st, y),
    ensures
        looked_at(p, f, region, header, seed, rest),
{
    assert(carries(rest, seed) == carries(st, seed));
    assert(keeps(st, rest)) by {
        assert forall|y: Inst| #[trigger] carries(st, y) implies carries(rest, y) by {
            assert(carries(rest, y) == carries(st, y));
        }
    }
    assert forall|y: Inst| #[trigger] carries(rest, y) implies has_part(p, region, seed, y, rest) by {
        lemma_has_part(p, region, seed, y, st, rest);
    }
    assert forall|x: Inst, u: Inst|
        rest.seen.contains(x) && stands_in(p, f, region, u) && #[trigger] p.args(u).contains(x) implies hands_on(
        p,
        f,
        region,
        header,
        x,
        u,
        rest,
    ) by {
        lemma_hands_on(p, f, region, header, x, u, st, rest);
    }
}

/// One step of a run through the region: an instruction is computed, or block end `u` passes its arguments on,
/// by its first way or by its second.
pub enum Step {
    Compute(Inst),
    Pass(Inst, bool),
}

/// The block that block end `u` leads to.
pub open spec fn leads_to(p: ProgramV, u: Inst, first: bool) -> BasicBlock {
    match p.op(u) {
        Op::Jump(t) => t,
        Op::Branch(t, e, _) => if first {
            t
        } else {
            e
        },
        _ => BasicBlock(usize::MAX),
    }
}

/// What block end `u` passes on.
pub open spec fn hands_over(p: ProgramV, u: Inst, first: bool) -> Seq<Inst> {
    match p.op(u) {
        Op::Jump(_) => p.args(u),
        Op::Branch(..) => if first {
            p.t_args(u)
        } else {
            p.f_args(u)
        },
        _ => Seq::empty(),
    }
}

/// The sum of two words.
#[verifier::opaque]
pub open spec fn plus(a: i32, b: i32) -> i32 {
    int_op(BinaryOp::Add, a, b)
}

/// The difference of two words.
#[verifier::opaque]
pub open spec fn minus(a: i32, b: i32) -> i32 {
    int_op(BinaryOp::Sub, a, b)
}

/// What instruction `i` computes where values are as `v` says; `meaning` says it of all but additions and
/// subtractions.
pub open spec fn computed(p: ProgramV, meaning: spec_fn(Inst, Seq<i32>) -> i32, v: spec_fn(Inst) -> i32, i: Inst) -> i32 {
    match p.op(i) {
        Op::Binary(BinaryOp::Add) => plus(v(p.arg(i, 0)), v(p.arg(i, 1))),
        Op::Binary(BinaryOp::Sub) => minus(v(p.arg(i, 0)), v(p.arg(i, 1))),
        _ => meaning(i, Seq::new(p.args(i).len(), |k: int| v(p.args(i)[k]))),
    }
}

/// The values after a step.
pub open spec fn stepped(
    p: ProgramV,
    meaning: spec_fn(Inst, Seq<i32>) -> i32,
    v: spec_fn(Inst) -> i32,
    step: Step,
) -> spec_fn(Inst) -> i32 {
    match step {
        Step::Compute(i) => |x: Inst|
            if x == i {
                computed(p, meaning, v, i)
            } else {
                v(x)
            },
        Step::Pass(u, first) => {
            let params = p.block(leads_to(p, u, first)).params;
            let args = hands_over(p, u, first);
            |x: Inst|
                if params.contains(x) && params.index_of(x) < args.len() {
                    v(args[params.index_of(x)])
                } else {
                    v(x)
                }
        },
    }
}

/// The values after all of `steps`.
pub open spec fn run_through(
    p: ProgramV,
    meaning: spec_fn(Inst, Seq<i32>) -> i32,
    v: spec_fn(Inst) -> i32,
    steps: Seq<Step>,
) -> spec_fn(Inst) -> i32
    decreases steps.len(),
{
    if steps.len() == 0 {
        v
    } else {
        stepped(p, meaning, run_through(p, meaning, v, steps.drop_last()), steps.last())
    }
}

/// The step is one within the region.
pub open spec fn is_within(p: ProgramV, f: Function, region: Seq<BasicBlock>, seed: Inst, step: Step) -> bool {
    match step {
        Step::Compute(i) => {
            &&& stands_in(p, f, region, i)
            &&& !(p.op(i) is Jump) && !(p.op(i) is Branch)
            &&& p.op(i) is Binary ==> p.args(i).len() == 2
            &&& i != seed
            &&& forall|b: BasicBlock| region.contains(b) ==> !(#[trigger] p.block(b).params.contains(i))
        },
        Step::Pass(u, first) => {
            &&& stands_in(p, f, region, u)
            &&& p.op(u) is Jump || p.op(u) is Branch
            &&& region.contains(leads_to(p, u, first))
            &&& leads_to(p, u, first) != BasicBlock(usize::MAX)
        },
    }
}

/// The step keeps the sum apart: what is added to the sum is not made of it, and a parameter that carries the
/// sum gets it.
pub open spec fn keeps_apart(p: ProgramV, st: SumTraceV, step: Step) -> bool {
    match step {
        Step::Compute(i) => p.op(i) is Binary ==> !(carries(st, p.arg(i, 0)) && carries(st, p.arg(i, 1))),
        Step::Pass(u, first) => {
            let params = p.block(leads_to(p, u, first)).params;
            forall|k: int|
                0 <= k < params.len() && carries(st, #[trigger] params[k]) ==> k < hands_over(p, u, first).len()
                    && carries(st, hands_over(p, u, first)[k])
        },
    }
}

/// The values of `w` are those of `v`, but for what carries the sum, which is larger by `d`.
pub open spec fn differs_by(v: spec_fn(Inst) -> i32, w: spec_fn(Inst) -> i32, st: SumTraceV, d: i32) -> bool {
    forall|x: Inst| #[trigger]
        w(x) == if carries(st, x) {
            plus(v(x), d)
        } else {
            v(x)
        }
}

proof fn lemma_sums(a: i32, b: i32, d: i32)
    ensures
        plus(plus(a, d), b) == plus(plus(a, b), d),
        plus(a, plus(b, d)) == plus(plus(a, b), d),
        minus(plus(a, d), b) == plus(minus(a, b), d),
{
    reveal(plus);
    reveal(minus);
    lemma_wrapped(a + d, b as int);
    lemma_wrapped(a + b, d as int);
    lemma_wrapped(b + d, a as int);
    lemma_wrapped(a + d, -b);
    lemma_wrapped(a - b, d as int);
}

proof fn lemma_wrapped(x: int, y: int)
    ensures
        wrap32(wrap32(x) + y) == wrap32(x + y),
{
    let m = x % 0x1_0000_0000;
    let q = x / 0x1_0000_0000;
    assert(x == q * 0x1_0000_0000 + m);
}

/// One step keeps the difference between two runs.
proof fn lemma_step(
    p: ProgramV,
    f: Function,
    region: Seq<BasicBlock>,
    header: BasicBlock,
    seed: Inst,
    st: SumTraceV,
    meaning: spec_fn(Inst, Seq<i32>) -> i32,
    v: spec_fn(Inst) -> i32,
    w: spec_fn(Inst) -> i32,
    d: i32,
    step: Step,
)
    requires
        looked_at(p, f, region, header, seed, st),
        st.work.len() == 0,
        differs_by(v, w, st, d),
        is_within(p, f, region, seed, step),
        keeps_apart(p, st, step),
        !region.contains(header),
    ensures
        differs_by(stepped(p, meaning, v, step), stepped(p, meaning, w, step), st, d),
{
    let v2 = stepped(p, meaning, v, step);
    let w2 = stepped(p, meaning, w, step);
    assert forall|x: Inst| #[trigger] carries(st, x) implies st.seen.contains(x) by {}
    assert forall|x: Inst| #[trigger]
        w2(x) == if carries(st, x) {
            plus(v2(x), d)
        } else {
            v2(x)
        } by {
        assert(w(x) == if carries(st, x) {
            plus(v(x), d)
        } else {
            v(x)
        });
        match step {
            Step::Compute(i) => {
                if x == i {
                    lemma_computed(p, f, region, header, seed, st, meaning, v, w, d, i);
                }
            },
            Step::Pass(u, first) => {
                let b = leads_to(p, u, first);
                let params = p.block(b).params;
                let args = hands_over(p, u, first);
                if params.contains(x) {
                    let k = params.index_of(x);
                    assert(params[k] == x);
                    if k < args.len() {
                        let a = args[k];
                        assert(w(a) == if carries(st, a) {
                            plus(v(a), d)
                        } else {
                            v(a)
                        });
                        if carries(st, a) {
                            lemma_handed_over(p, u, first, k);
                            assert(p.args(u).contains(a));
                            assert(hands_on(p, f, region, header, a, u, st));
                            assert(passes(p, b, args, a, st));
                            assert(carries(st, params[k]));
                        }
                    }
                }
            },
        }
    }
}

proof fn lemma_handed_over(p: ProgramV, u: Inst, first: bool, k: int)
    requires
        0 <= k < hands_over(p, u, first).len(),
    ensures
        p.args(u).contains(hands_over(p, u, first)[k]),
{
    let a = hands_over(p, u, first)[k];
    match p.op(u) {
        Op::Branch(_, _, n) => {
            if first {
                assert(p.args(u)[k + 1] == a);
            } else {
                assert(p.args(u)[k + n + 1] == a);
            }
        },
        _ => {},
    }
}

proof fn lemma_computed(
    p: ProgramV,
    f: Function,
    region: Seq<BasicBlock>,
    header: BasicBlock,
    seed: Inst,
    st: SumTraceV,
    meaning: spec_fn(Inst, Seq<i32>) -> i32,
    v: spec_fn(Inst) -> i32,
    w: spec_fn(Inst) -> i32,
    d: i32,
    i: Inst,
)
    requires
        looked_at(p, f, region, header, seed, st),
        st.work.len() == 0,
        differs_by(v, w, st, d),
        is_within(p, f, region, seed, Step::Compute(i)),
        keeps_apart(p, st, Step::Compute(i)),
    ensures
        computed(p, meaning, w, i) == if carries(st, i) {
            plus(computed(p, meaning, v, i), d)
        } else {
            computed(p, meaning, v, i)
        },
{
    let (a, b) = (p.arg(i, 0), p.arg(i, 1));
    assert forall|x: Inst| #[trigger] carries(st, x) implies st.seen.contains(x) by {}
    assert(w(a) == if carries(st, a) {
        plus(v(a), d)
    } else {
        v(a)
    });
    assert(w(b) == if carries(st, b) {
        plus(v(b), d)
    } else {
        v(b)
    });
    lemma_sums(v(a), v(b), d);
    if carries(st, i) {
        assert(has_part(p, region, seed, i, st));
        let x = choose|x: Inst| #[trigger] carries(st, x) && adds_to(p, i, x);
        assert(carries(st, x) && adds_to(p, i, x));
    } else {
        assert forall|k: int| 0 <= k < p.args(i).len() implies !carries(st, #[trigger] p.args(i)[k]) by {
            let x = p.args(i)[k];
            if carries(st, x) {
                assert(p.args(i).contains(x));
                assert(hands_on(p, f, region, header, x, i, st));
            }
        }
        let before = Seq::new(p.args(i).len(), |k: int| v(p.args(i)[k]));
        let after = Seq::new(p.args(i).len(), |k: int| w(p.args(i)[k]));
        assert forall|k: int| 0 <= k < before.len() implies before[k] == after[k] by {
            let x = p.args(i)[k];
            assert(w(x) == if carries(st, x) {
                plus(v(x), d)
            } else {
                v(x)
            });
        }
        assert(before =~= after);
        if p.op(i) is Binary {
            assert(!carries(st, p.args(i)[0]) && !carries(st, p.args(i)[1]));
        }
    }
}

/// The sum `seed` was followed through the region to the end, and `st` says what was found.
pub open spec fn is_followed(
    p: ProgramV,
    f: Function,
    region: Seq<BasicBlock>,
    header: BasicBlock,
    exit: BasicBlock,
    seed: Inst,
    st: SumTraceV,
) -> bool {
    &&& p.insts.len() <= usize::MAX
    &&& !region.contains(header)
    &&& !region.contains(exit)
    &&& sum_traced(
        p,
        f,
        region,
        header,
        exit,
        seed,
        (SumTraceV { work: seq![seed], seen: Seq::empty(), added: false, last: None }),
        usize::MAX as nat,
    ) == Some(st)
}

proof fn lemma_followed(
    p: ProgramV,
    f: Function,
    region: Seq<BasicBlock>,
    header: BasicBlock,
    exit: BasicBlock,
    seed: Inst,
    st: SumTraceV,
)
    requires
        is_followed(p, f, region, header, exit, seed, st),
    ensures
        looked_at(p, f, region, header, seed, st),
        st.work.len() == 0,
{
    let start = SumTraceV { work: seq![seed], seen: Seq::empty(), added: false, last: None };
    assert(start.work[0] == seed);
    assert(carries(start, seed));
    assert forall|y: Inst| #[trigger] carries(start, y) implies has_part(p, region, seed, y, start) by {
        let k = start.work.index_of(y);
        assert(start.work[k] == y);
    }
    lemma_traced(p, f, region, header, exit, seed, start, usize::MAX as nat);
}

/// What the sum starts as carries it, and so does what it is at the end.
pub proof fn seed_is_carried(
    p: ProgramV,
    f: Function,
    region: Seq<BasicBlock>,
    header: BasicBlock,
    exit: BasicBlock,
    seed: Inst,
    st: SumTraceV,
)
    requires
        is_followed(p, f, region, header, exit, seed, st),
    ensures
        carries(st, seed),
        st.last matches Some(x) ==> carries(st, x),
{
    lemma_followed(p, f, region, header, exit, seed, st);
}

/// Two runs through the region that start with the sum larger by `d` in one of them end so, whatever else is
/// computed on the way.
pub proof fn runs_keep_the_difference(
    p: ProgramV,
    f: Function,
    region: Seq<BasicBlock>,
    header: BasicBlock,
    exit: BasicBlock,
    seed: Inst,
    st: SumTraceV,
    meaning: spec_fn(Inst, Seq<i32>) -> i32,
    v: spec_fn(Inst) -> i32,
    w: spec_fn(Inst) -> i32,
    d: i32,
    steps: Seq<Step>,
)
    requires
        is_followed(p, f, region, header, exit, seed, st),
        differs_by(v, w, st, d),
        forall|k: int|
            0 <= k < steps.len() ==> is_within(p, f, region, seed, #[trigger] steps[k]) && keeps_apart(p, st, steps[k]),
    ensures
        differs_by(run_through(p, meaning, v, steps), run_through(p, meaning, w, steps), st, d),
    decreases steps.len(),
{
    if steps.len() > 0 {
        let less = steps.drop_last();
        assert forall|k: int| 0 <= k < less.len() implies is_within(p, f, region, seed, #[trigger] less[k])
            && keeps_apart(p, st, less[k]) by {
            assert(less[k] == steps[k]);
        }
        runs_keep_the_difference(p, f, region, header, exit, seed, st, meaning, v, w, d, less);
        lemma_followed(p, f, region, header, exit, seed, st);
        assert(steps.last() == steps[steps.len() - 1]);
        lemma_step(
            p,
            f,
            region,
            header,
            seed,
            st,
            meaning,
            run_through(p, meaning, v, less),
            run_through(p, meaning, w, less),
            d,
            steps.last(),
        );
    }
}

/// Which way a run through the region takes does not depend on the sum: no branch there tests what carries it.
pub proof fn sum_decides_nothing(
    p: ProgramV,
    f: Function,
    region: Seq<BasicBlock>,
    header: BasicBlock,
    exit: BasicBlock,
    seed: Inst,
    st: SumTraceV,
    u: Inst,
)
    requires
        is_followed(p, f, region, header, exit, seed, st),
        stands_in(p, f, region, u),
        p.op(u) is Branch,
        p.args(u).len() > 0,
    ensures
        !carries(st, p.arg(u, 0)),
{
    lemma_followed(p, f, region, header, exit, seed, st);
    let c = p.arg(u, 0);
    assert(p.args(u)[0] == c);
    if carries(st, c) {
        assert(st.seen.contains(c));
        assert(p.args(u).contains(c));
        assert(hands_on(p, f, region, header, c, u, st));
    }
}

/// A round gives the sum that it got plus what it gives from zero: what it adds does not depend on the sum.
/// `v` says the values of the round from zero, and `w` those of the round that got `acc`.
pub proof fn a_round_adds_the_same(
    p: ProgramV,
    f: Function,
    region: Seq<BasicBlock>,
    header: BasicBlock,
    exit: BasicBlock,
    seed: Inst,
    st: SumTraceV,
    meaning: spec_fn(Inst, Seq<i32>) -> i32,
    v: spec_fn(Inst) -> i32,
    w: spec_fn(Inst) -> i32,
    acc: i32,
    steps: Seq<Step>,
)
    requires
        is_followed(p, f, region, header, exit, seed, st),
        st.last is Some,
        v(seed) == 0,
        differs_by(v, w, st, acc),
        forall|k: int|
            0 <= k < steps.len() ==> is_within(p, f, region, seed, #[trigger] steps[k]) && keeps_apart(p, st, steps[k]),
    ensures
        w(seed) == acc,
        run_through(p, meaning, w, steps)(st.last->0) == plus(run_through(p, meaning, v, steps)(st.last->0), acc),
{
    runs_keep_the_difference(p, f, region, header, exit, seed, st, meaning, v, w, acc, steps);
    lemma_followed(p, f, region, header, exit, seed, st);
    assert(carries(st, st.last->0));
    assert(w(seed) == plus(0, acc));
    reveal(plus);
}

/// Use `u` of `x` in the region only moves the counter or hands it on, to `seen` values in either case.
pub open spec fn only_counts(p: ProgramV, region: Seq<BasicBlock>, x: Inst, u: Inst, seen: Seq<Inst>) -> bool {
    match p.op(u) {
        Op::Binary(_) => seen.contains(u),
        Op::Jump(t) => region.contains(t) ==> gets_seen(p, t, p.args(u), x, seen),
        Op::Branch(t, e, _) => p.arg(u, 0) != x && (region.contains(t) ==> gets_seen(p, t, p.t_args(u), x, seen)) && (
        region.contains(e) ==> gets_seen(p, e, p.f_args(u), x, seen)),
        _ => false,
    }
}

/// The parameters of `target` that get `x` by `args` are in `seen`.
pub open spec fn gets_seen(p: ProgramV, target: BasicBlock, args: Seq<Inst>, x: Inst, seen: Seq<Inst>) -> bool {
    forall|k: int|
        0 <= k < args.len() && k < p.block(target).params.len() && args[k] == x ==> seen.contains(
            #[trigger] p.block(target).params[k],
        )
}

/// What is in `seen` is read in the region only to move the counter and to hand it on.
pub open spec fn stays_apart(p: ProgramV, f: Function, region: Seq<BasicBlock>, seen: Seq<Inst>) -> bool {
    forall|x: Inst, u: Inst|
        seen.contains(x) && stands_in(p, f, region, u) && #[trigger] p.args(u).contains(x) ==> only_counts(
            p,
            region,
            x,
            u,
            seen,
        )
}

/// What is carried while the counter is followed: the values still to look at and those looked at.
pub open spec fn counting(work: Seq<Inst>, seen: Seq<Inst>) -> SumTraceV {
    SumTraceV { work, seen, added: false, last: None }
}

/// Use `u` of `x` in the region only moves the counter or hands it on, to carried values in either case.
pub open spec fn counts_on(p: ProgramV, region: Seq<BasicBlock>, x: Inst, u: Inst, st: SumTraceV) -> bool {
    match p.op(u) {
        Op::Binary(_) => carries(st, u),
        Op::Jump(t) => region.contains(t) ==> passes(p, t, p.args(u), x, st),
        Op::Branch(t, e, _) => p.arg(u, 0) != x && (region.contains(t) ==> passes(p, t, p.t_args(u), x, st)) && (
        region.contains(e) ==> passes(p, e, p.f_args(u), x, st)),
        _ => false,
    }
}

proof fn lemma_counts_on(p: ProgramV, region: Seq<BasicBlock>, x: Inst, u: Inst, st: SumTraceV, next: SumTraceV)
    requires
        counts_on(p, region, x, u, st),
        keeps(st, next),
    ensures
        counts_on(p, region, x, u, next),
{
    match p.op(u) {
        Op::Jump(t) => {
            lemma_passes(p, t, p.args(u), x, st, next);
        },
        Op::Branch(t, e, _) => {
            lemma_passes(p, t, p.t_args(u), x, st, next);
            lemma_passes(p, e, p.f_args(u), x, st, next);
        },
        _ => {},
    }
}

proof fn lemma_counter_use(
    p: ProgramV,
    f: Function,
    region: Seq<BasicBlock>,
    header: BasicBlock,
    latch: BasicBlock,
    cur: Inst,
    u: Inst,
    work: Seq<Inst>,
    seen: Seq<Inst>,
)
    requires
        !region.contains(header),
    ensures
        counter_use(p, f, region, header, latch, cur, u, work) matches Some(next) ==> {
            &&& keeps(counting(work, seen), counting(next, seen))
            &&& stands_in(p, f, region, u) ==> counts_on(p, region, cur, u, counting(next, seen))
        },
{
    match counter_use(p, f, region, header, latch, cur, u, work) {
        Some(next) => {
            let st = counting(work, seen);
            match p.op(u) {
                Op::Binary(_) => {
                    if stands_in(p, f, region, u) {
                        assert(next[work.len() as int] == u);
                        assert forall|y: Inst| #[trigger] carries(st, y) implies carries(counting(next, seen), y) by {
                            if work.contains(y) {
                                let k = work.index_of(y);
                                assert(next[k] == y);
                            }
                        }
                    }
                },
                Op::Jump(t) => {
                    lemma_passed(p, region, t, p.args(u), cur, st);
                },
                Op::Branch(t, e, _) => {
                    if stands_in(p, f, region, u) {
                        lemma_passed(p, region, t, p.t_args(u), cur, st);
                        let between = passed_on(p, region, t, p.t_args(u), cur, work);
                        let mid = counting(between, seen);
                        lemma_passed(p, region, e, p.f_args(u), cur, mid);
                        assert(keeps(mid, counting(next, seen)));
                        lemma_passes(p, t, p.t_args(u), cur, mid, counting(next, seen));
                        assert forall|y: Inst| #[trigger] carries(st, y) implies carries(counting(next, seen), y) by {
                            assert(carries(mid, y));
                        }
                    }
                },
                _ => {},
            }
        },
        None => {},
    }
}

proof fn lemma_counter_uses(
    p: ProgramV,
    f: Function,
    region: Seq<BasicBlock>,
    header: BasicBlock,
    latch: BasicBlock,
    cur: Inst,
    users: Seq<Inst>,
    from: int,
    work: Seq<Inst>,
    seen: Seq<Inst>,
)
    requires
        !region.contains(header),
        0 <= from,
    ensures
        counter_uses(p, f, region, header, latch, cur, users, from, work) matches Some(next) ==> {
            &&& keeps(counting(work, seen), counting(next, seen))
            &&& forall|k: int|
                from <= k < users.len() && stands_in(p, f, region, #[trigger] users[k]) ==> counts_on(
                    p,
                    region,
                    cur,
                    users[k],
                    counting(next, seen),
                )
        },
    decreases users.len() - from,
{
    if from < users.len() {
        let u = users[from];
        lemma_counter_use(p, f, region, header, latch, cur, u, work, seen);
        match counter_use(p, f, region, header, latch, cur, u, work) {
            Some(mid) => {
                lemma_counter_uses(p, f, region, header, latch, cur, users, from + 1, mid, seen);
                match counter_uses(p, f, region, header, latch, cur, users, from, work) {
                    Some(next) => {
                        assert forall|y: Inst| #[trigger] carries(counting(work, seen), y) implies carries(
                            counting(next, seen),
                            y,
                        ) by {
                            assert(carries(counting(mid, seen), y));
                        }
                        if stands_in(p, f, region, u) {
                            lemma_counts_on(p, region, cur, u, counting(mid, seen), counting(next, seen));
                        }
                    },
                    None => {},
                }
            },
            None => {},
        }
    }
}

/// Following the counter to the end, from `work` and `seen`, gives the values that carry it.
proof fn lemma_counter_traced(
    p: ProgramV,
    f: Function,
    region: Seq<BasicBlock>,
    header: BasicBlock,
    latch: BasicBlock,
    work: Seq<Inst>,
    seen: Seq<Inst>,
    rounds: nat,
) -> (all: Seq<Inst>)
    requires
        !region.contains(header),
        p.insts.len() <= usize::MAX,
        counter_traced(p, f, region, header, latch, work, seen, rounds) is Some,
        forall|x: Inst, u: Inst|
            seen.contains(x) && stands_in(p, f, region, u) && #[trigger] p.args(u).contains(x) ==> counts_on(
                p,
                region,
                x,
                u,
                counting(work, seen),
            ),
    ensures
        counter_traced(p, f, region, header, latch, work, seen, rounds) == Some(all),
        forall|y: Inst| carries(counting(work, seen), y) ==> #[trigger] all.contains(y),
        stays_apart(p, f, region, all),
    decreases rounds,
{
    let st = counting(work, seen);
    if work.len() == 0 {
        assert forall|x: Inst, u: Inst|
            seen.contains(x) && stands_in(p, f, region, u) && #[trigger] p.args(u).contains(x) implies only_counts(
            p,
            region,
            x,
            u,
            seen,
        ) by {
            assert(counts_on(p, region, x, u, st));
            match p.op(u) {
                Op::Jump(t) => {
                    lemma_gets_seen(p, t, p.args(u), x, seen, st);
                },
                Op::Branch(t, e, _) => {
                    lemma_gets_seen(p, t, p.t_args(u), x, seen, st);
                    lemma_gets_seen(p, e, p.f_args(u), x, seen, st);
                },
                _ => {},
            }
        }
        seen
    } else {
        let cur = work[0];
        let rest = work.drop_first();
        assert forall|y: Inst| #[trigger] work.contains(y) implies y == cur || rest.contains(y) by {
            let k = work.index_of(y);
            assert(work[k] == y);
            if k > 0 {
                assert(rest[k - 1] == y);
            }
        }
        let (next, more) = if seen.contains(cur) {
            (rest, seen)
        } else {
            (counter_uses(p, f, region, header, latch, cur, p.users(cur), 0, rest)->0, seen.push(cur))
        };
        if !seen.contains(cur) {
            lemma_counter_uses(p, f, region, header, latch, cur, p.users(cur), 0, rest, more);
            assert(more[seen.len() as int] == cur);
            assert forall|y: Inst| #[trigger] seen.contains(y) implies more.contains(y) by {
                let k = seen.index_of(y);
                assert(more[k] == y);
            }
            assert forall|y: Inst| #[trigger] more.contains(y) implies y == cur || seen.contains(y) by {
                let k = more.index_of(y);
                assert(more[k] == y);
                if k < seen.len() {
                    assert(seen[k] == y);
                }
            }
        }
        let after = counting(next, more);
        assert forall|y: Inst| #[trigger] carries(st, y) implies carries(after, y) by {
            assert(carries(counting(rest, more), y));
        }
        assert forall|x: Inst, u: Inst|
            more.contains(x) && stands_in(p, f, region, u) && #[trigger] p.args(u).contains(x) implies counts_on(
            p,
            region,
            x,
            u,
            after,
        ) by {
            if seen.contains(x) {
                lemma_counts_on(p, region, x, u, st, after);
            } else {
                lemma_users(p, cur, u, 0, Seq::empty());
                let k = p.users(cur).index_of(u);
                assert(p.users(cur)[k] == u);
            }
        }
        let all = lemma_counter_traced(p, f, region, header, latch, next, more, (rounds - 1) as nat);
        assert forall|y: Inst| carries(st, y) implies #[trigger] all.contains(y) by {
            assert(carries(after, y));
        }
        all
    }
}

proof fn lemma_gets_seen(p: ProgramV, t: BasicBlock, args: Seq<Inst>, x: Inst, seen: Seq<Inst>, st: SumTraceV)
    requires
        st.seen == seen,
        st.work.len() == 0,
    ensures
        passes(p, t, args, x, st) ==> gets_seen(p, t, args, x, seen),
{
    if passes(p, t, args, x, st) {
        assert forall|k: int| 0 <= k < args.len() && k < p.block(t).params.len() && args[k] == x implies seen.contains(
            #[trigger] p.block(t).params[k],
        ) by {
            assert(carries(st, p.block(t).params[k]));
        }
    }
}

/// Where a region is found not to depend on the counter `r`, there are values, `r` among them, that the region
/// reads only to move the counter and to hand it on.
pub proof fn counter_stays_apart(
    p: ProgramV,
    f: Function,
    region: Seq<BasicBlock>,
    header: BasicBlock,
    latch: BasicBlock,
    r: Inst,
    back: Inst,
    sum: Inst,
) -> (seen: Seq<Inst>)
    requires
        counter_free(p, f, region, header, latch, r, back, sum),
        !region.contains(header),
        p.insts.len() <= usize::MAX,
    ensures
        counter_seen(p, f, region, header, latch, r) == Some(seen),
        seen.contains(r),
        stays_apart(p, f, region, seen),
{
    let seen = lemma_counter_traced(p, f, region, header, latch, seq![r], Seq::empty(), usize::MAX as nat);
    assert(seq![r][0] == r);
    assert(carries(counting(seq![r], Seq::empty()), r));
    seen
}

/// Two runs through the region that differ only in values that carry the counter end so: nothing else that is
/// computed, and no branch, depends on the counter.
pub proof fn runs_do_not_see_the_counter(
    p: ProgramV,
    f: Function,
    region: Seq<BasicBlock>,
    r: Inst,
    seen: Seq<Inst>,
    meaning: spec_fn(Inst, Seq<i32>) -> i32,
    v: spec_fn(Inst) -> i32,
    w: spec_fn(Inst) -> i32,
    steps: Seq<Step>,
)
    requires
        stays_apart(p, f, region, seen),
        forall|x: Inst| !seen.contains(x) ==> #[trigger] w(x) == v(x),
        forall|k: int| 0 <= k < steps.len() ==> is_within(p, f, region, r, #[trigger] steps[k]),
    ensures
        forall|x: Inst|
            !seen.contains(x) ==> #[trigger] run_through(p, meaning, w, steps)(x) == run_through(p, meaning, v, steps)(x),
        forall|u: Inst|
            stands_in(p, f, region, u) && p.op(u) is Branch && p.args(u).len() > 0 ==> !seen.contains(
                #[trigger] p.arg(u, 0),
            ),
    decreases steps.len(),
{
    assert forall|u: Inst| stands_in(p, f, region, u) && p.op(u) is Branch && p.args(u).len() > 0 implies !seen.contains(
        #[trigger] p.arg(u, 0),
    ) by {
        let c = p.arg(u, 0);
        assert(p.args(u)[0] == c);
        if seen.contains(c) {
            assert(p.args(u).contains(c));
        }
    }
    if steps.len() > 0 {
        let less = steps.drop_last();
        let step = steps[steps.len() - 1];
        assert forall|k: int| 0 <= k < less.len() implies is_within(p, f, region, r, #[trigger] less[k]) by {
            assert(less[k] == steps[k]);
        }
        runs_do_not_see_the_counter(p, f, region, r, seen, meaning, v, w, less);
        let v1 = run_through(p, meaning, v, less);
        let w1 = run_through(p, meaning, w, less);
        let v2 = run_through(p, meaning, v, steps);
        let w2 = run_through(p, meaning, w, steps);
        assert forall|x: Inst| !seen.contains(x) implies #[trigger] w2(x) == v2(x) by {
            assert(w1(x) == v1(x));
            match step {
                Step::Compute(i) => {
                    if x == i {
                        assert forall|k: int| 0 <= k < p.args(i).len() implies !seen.contains(
                            #[trigger] p.args(i)[k],
                        ) by {
                            if seen.contains(p.args(i)[k]) {
                                assert(p.args(i).contains(p.args(i)[k]));
                            }
                        }
                        let before = Seq::new(p.args(i).len(), |k: int| v1(p.args(i)[k]));
                        let after = Seq::new(p.args(i).len(), |k: int| w1(p.args(i)[k]));
                        assert forall|k: int| 0 <= k < before.len() implies before[k] == after[k] by {
                            assert(w1(p.args(i)[k]) == v1(p.args(i)[k]));
                        }
                        assert(before =~= after);
                        if p.op(i) is Binary {
                            assert(before[0] == after[0] && before[1] == after[1]);
                        }
                    }
                },
                Step::Pass(u, first) => {
                    let b = leads_to(p, u, first);
                    let params = p.block(b).params;
                    let args = hands_over(p, u, first);
                    if params.contains(x) {
                        let k = params.index_of(x);
                        assert(params[k] == x);
                        if k < args.len() {
                            lemma_handed_over(p, u, first, k);
                            if seen.contains(args[k]) {
                                assert(only_counts(p, region, args[k], u, seen));
                                assert(gets_seen(p, b, args, args[k], seen));
                                assert(seen.contains(params[k]));
                            }
                            assert(w1(args[k]) == v1(args[k]));
                        }
                    }
                },
            }
        }
    }
}

} // verus!
