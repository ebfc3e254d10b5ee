//! A counter of a loop counts, and ends the loop where it is said to.

use vstd::prelude::*;

use crate::arith::int_op;
use crate::edges::{edge_args, incoming, Edge, EdgeArm};
use crate::entering::{goes, is_way, lemma_ways};
use crate::induction::{compared, exit_of, is_word, iv_scan, ivs_from, ivs_of, step_by, IvV};
use crate::ir::{BasicBlock, BinaryOp, Inst, Op, ProgramV};
use crate::loops::LoopV;
use crate::memory::hands;
use crate::unrolling::comes_to;

verus! {

/// Values are words, literals are what they say, and sums and differences come to what they should.
pub open spec fn adds_words(p: ProgramV, env: spec_fn(Inst) -> int) -> bool {
    &&& forall|i: Inst| is_word(#[trigger] env(i))
    &&& forall|i: Inst| (#[trigger] p.op(i)) matches Op::Integer(c) ==> env(i) == c
    &&& forall|i: Inst| (#[trigger] p.op(i)) == Op::Binary(BinaryOp::Add) ==> comes_to(env(i), env(p.arg(i, 0)) + env(p.arg(i, 1)))
    &&& forall|i: Inst| (#[trigger] p.op(i)) == Op::Binary(BinaryOp::Sub) ==> comes_to(env(i), env(p.arg(i, 0)) - env(p.arg(i, 1)))
}

proof fn lemma_step(p: ProgramV, param: Inst, v: Inst, env: spec_fn(Inst) -> int)
    requires
        adds_words(p, env),
        step_by(p, param, v) is Some,
    ensures
        comes_to(env(v), env(param) + step_by(p, param, v)->0),
{
    let a = p.arg(v, 0);
    let b = p.arg(v, 1);
    assert(p.op(a) matches Op::Integer(c) ==> env(a) == c);
    assert(p.op(b) matches Op::Integer(c) ==> env(b) == c);
    assert(p.op(v) == Op::Binary(BinaryOp::Add) || p.op(v) == Op::Binary(BinaryOp::Sub));
}

/// What edge `e` passes for parameter `idx` suits the counter `iv`.
spec fn suits(p: ProgramV, l: LoopV, iv: IvV, idx: int, e: Edge) -> bool {
    let args = edge_args(p, e);
    &&& idx < args.len()
    &&& if l.body.contains(e.from) {
        step_by(p, iv.param, args[idx]) == Some(iv.step)
    } else {
        iv.initials.contains(args[idx])
    }
}

proof fn lemma_scan(
    p: ProgramV,
    l: LoopV,
    edges: Seq<Edge>,
    param: Inst,
    idx: int,
    from: int,
    step: Option<i32>,
    initials: Seq<Inst>,
)
    requires
        0 <= from,
    ensures
        iv_scan(p, l, edges, param, idx, from, step, initials) matches Some(iv) ==> {
            &&& iv.param == param
            &&& iv.step != 0
            &&& iv.initials.len() > 0
            &&& step is Some ==> step == Some(iv.step)
            &&& forall|x: Inst| #[trigger] initials.contains(x) ==> iv.initials.contains(x)
            &&& forall|j: int| from <= j < edges.len() ==> suits(p, l, iv, idx, #[trigger] edges[j])
        },
    decreases edges.len() - from,
{
    if from < edges.len() {
        let args = edge_args(p, edges[from]);
        if idx < args.len() {
            let a = args[idx];
            if l.body.contains(edges[from].from) {
                match step_by(p, param, a) {
                    Some(s) => lemma_scan(p, l, edges, param, idx, from + 1, Some(s), initials),
                    None => {},
                }
            } else {
                let next = initials.push(a);
                lemma_scan(p, l, edges, param, idx, from + 1, step, next);
                assert(next[initials.len() as int] == a);
                assert(next.contains(a));
                assert forall|x: Inst| #[trigger] initials.contains(x) implies next.contains(x) by {
                    assert(next[initials.index_of(x)] == x);
                }
            }
        }
    }
}

/// Counter `iv` is parameter `idx` of `params`, as all edges show.
spec fn is_found(p: ProgramV, l: LoopV, edges: Seq<Edge>, params: Seq<Inst>, iv: IvV, idx: int) -> bool {
    0 <= idx < params.len() && iv_scan(p, l, edges, params[idx], idx, 0, None, Seq::empty()) == Some(iv)
}

spec fn is_somewhere(p: ProgramV, l: LoopV, edges: Seq<Edge>, params: Seq<Inst>, iv: IvV) -> bool {
    exists|idx: int| #[trigger] is_found(p, l, edges, params, iv, idx)
}

spec fn all_somewhere(p: ProgramV, l: LoopV, edges: Seq<Edge>, params: Seq<Inst>, found: Seq<IvV>) -> bool {
    forall|k: int| 0 <= k < found.len() ==> is_somewhere(p, l, edges, params, #[trigger] found[k])
}

proof fn lemma_ivs(p: ProgramV, l: LoopV, edges: Seq<Edge>, params: Seq<Inst>, from: int, found: Seq<IvV>)
    requires
        0 <= from,
        all_somewhere(p, l, edges, params, found),
    ensures
        all_somewhere(p, l, edges, params, ivs_from(p, l, edges, params, from, found)),
    decreases params.len() - from,
{
    if from < params.len() {
        match iv_scan(p, l, edges, params[from], from, 0, None, Seq::empty()) {
            Some(iv) => {
                assert(is_found(p, l, edges, params, iv, from));
                let next = found.push(iv);
                assert(is_somewhere(p, l, edges, params, iv));
                assert forall|k: int| 0 <= k < next.len() implies is_somewhere(p, l, edges, params, #[trigger] next[k]) by {
                    if k < found.len() {
                        assert(next[k] == found[k]);
                    }
                }
                lemma_ivs(p, l, edges, params, from + 1, next);
            },
            None => {
                lemma_ivs(p, l, edges, params, from + 1, found);
            },
        }
    }
}

/// A counter counts: it is a parameter of the header, and on every edge to the header it gets itself and one step more
/// where the edge comes from inside the loop, and one of its first values where it comes from outside. Gives the place of
/// the parameter.
pub proof fn counters_count(p: ProgramV, order: Seq<BasicBlock>, l: LoopV, k: int, env: spec_fn(Inst) -> int) -> (idx: int)
    requires
        0 <= k < ivs_of(p, order, l).len(),
        adds_words(p, env),
    ensures
        ({
            let iv = ivs_of(p, order, l)[k];
            &&& 0 <= idx < p.block(l.header).params.len()
            &&& p.block(l.header).params[idx] == iv.param
            &&& iv.step != 0
            &&& iv.initials.len() > 0
            &&& forall|x: BasicBlock, a: Inst|
                order.contains(x) && #[trigger] hands(p, p.terminator(x), l.header, idx, a) ==> if l.body.contains(x) {
                    comes_to(env(a), env(iv.param) + iv.step)
                } else {
                    iv.initials.contains(a)
                }
        }),
{
    let iv = ivs_of(p, order, l)[k];
    let edges = incoming(p, order, l.header);
    let params = p.block(l.header).params;
    lemma_ivs(p, l, edges, params, 0, Seq::empty());
    assert(is_somewhere(p, l, edges, params, iv));
    let idx = choose|idx: int| #[trigger] is_found(p, l, edges, params, iv, idx);
    lemma_scan(p, l, edges, params[idx], idx, 0, None, Seq::empty());
    lemma_ways(p, order, l.header, 0, Seq::empty());
    assert forall|x: BasicBlock, a: Inst|
        order.contains(x) && #[trigger] hands(p, p.terminator(x), l.header, idx, a) implies if l.body.contains(x) {
        comes_to(env(a), env(iv.param) + iv.step)
    } else {
        iv.initials.contains(a)
    } by {
        let t = p.terminator(x);
        let arm = match p.op(t) {
            Op::Jump(_) => EdgeArm::Jump,
            Op::Branch(y, _, _) => if y == l.header && 0 <= idx < p.t_args(t).len() && p.t_args(t)[idx] == a {
                EdgeArm::True
            } else {
                EdgeArm::False
            },
            _ => EdgeArm::Jump,
        };
        let e = Edge { from: x, terminator: t, arm };
        let j = order.index_of(x);
        assert(order[j] == x);
        assert(goes(p.op(t), arm, l.header));
        assert(is_way(p, order, l.header, 0, e));
        assert(edges.contains(e));
        let i = edges.index_of(e);
        assert(edges[i] == e);
        assert(suits(p, l, iv, idx, edges[i]));
        assert(edge_args(p, e)[idx] == a);
        if l.body.contains(x) {
            lemma_step(p, iv.param, a, env);
        }
    }
    idx
}

/// The header goes on into the loop exactly as long as the counter is before the bound that is found for it, in the
/// direction in which it counts.
pub proof fn loops_go_on_before_the_bound(p: ProgramV, l: LoopV, iv: IvV, env: spec_fn(Inst) -> i32)
    requires
        exit_of(p, l, iv) is Some,
        ({
            let c = p.arg(p.terminator(l.header), 0);
            p.op(c) matches Op::Binary(op) ==> (op.compares() ==> env(c) == int_op(op, env(p.arg(c, 0)), env(p.arg(c, 1))))
        }),
    ensures
        ({
            let exit = exit_of(p, l, iv)->0;
            let t = p.terminator(l.header);
            let (a, b) = (env(iv.param), env(exit.bound));
            &&& exit.forward == (iv.step > 0)
            &&& iv.step != 0
            &&& p.op(t) matches Op::Branch(x, y, _)
            &&& l.body.contains(
                if env(p.arg(t, 0)) != 0 {
                    x
                } else {
                    y
                },
            ) == if exit.forward {
                a < b
            } else {
                a > b
            }
        }),
{
    let t = p.terminator(l.header);
    let c = p.arg(t, 0);
    assert(compared(p, c, iv.param) is Some);
    match p.op(c) {
        Op::Binary(op) => {
            crate::arith::comparisons_compare(env(p.arg(c, 0)), env(p.arg(c, 1)));
        },
        _ => {},
    }
}

} // verus!
