//! What the propagation over the whole program finds holds on every trace of it.

use vstd::prelude::*;

use crate::arith::{defined, int_op};
use crate::dce::main_of;
use crate::fixpoint::{
    edges_settled, finished, handed_back, lemma_block_params, lemma_func_params, lemma_initial,
    lemma_placed, lemma_propagated, lemma_round, lemma_start_sited, lemma_transferred, own, pending,
    separate, settled, settling, sited, taken_in, values_settled,
};
use crate::floats::{finite_literals_round, is_finite, literals_round_toward_zero, rounds_to, what_is_not_finite_is_no_word};
use crate::induction::is_word;
use crate::ipsccp::{
    binary_value, cast_value, entered, first_of, initial, initial_from, initial_value, known, left,
    lowered, lowers, next_of, passed, propagated, replaced, returned, round, select_value, sites,
    sites_from, sites_in, solved, start_of, transferred, StateV,
};
use crate::ir::{Function, Inst, Op, ProgramV, Type};
use crate::lattice::{cell_of, Lattice};
use crate::mem_state::value_read;
use crate::program_order::Node;
use crate::propagation::fitting;

verus! {

/// Instruction `i` of `f` has the type of what it computes, and passes values of the types that are taken.
pub open spec fn typed_inst(p: ProgramV, f: Function, i: Inst) -> bool {
    match p.op(i) {
        Op::Binary(op) => {
            &&& p.ty(p.arg(i, 1)) == p.ty(p.arg(i, 0))
            &&& if op.compares() {
                p.ty(i) is I32
            } else {
                p.ty(i) == p.ty(p.arg(i, 0))
            }
        },
        Op::Select => p.ty(p.arg(i, 1)) == p.ty(i) && p.ty(p.arg(i, 2)) == p.ty(i),
        Op::Jump(t) => fitting(p, p.args(i), p.block(t).params),
        Op::Branch(t, e, _) => fitting(p, p.t_args(i), p.block(t).params) && fitting(p, p.f_args(i), p.block(e).params),
        Op::Return => p.args(i).len() > 0 ==> p.ty(p.arg(i, 0)) == p.func(f).ret_ty,
        Op::Call(g) => {
            &&& p.layout.contains(g)
            &&& p.ty(i) == p.func(g).ret_ty
            &&& p.func(g).blocks.len() > 0 ==> fitting(p, p.args(i), p.func(g).params)
        },
        Op::TailCall(g) => {
            &&& p.layout.contains(g)
            &&& p.ty(i) == p.func(g).ret_ty
            &&& p.ty(i) == p.func(f).ret_ty
            &&& p.func(g).blocks.len() > 0
            &&& fitting(p, p.args(i), p.func(g).params)
        },
        _ => true,
    }
}

/// The functions are separate and well typed; no tail call leads to a function that is only declared.
pub open spec fn typed_program(p: ProgramV) -> bool {
    &&& separate(p)
    &&& forall|f: Function, i: Inst| #[trigger] p.parent_bb(f, i) is Some ==> typed_inst(p, f, i)
    &&& forall|i: Inst| p.op(i) is Integer ==> #[trigger] p.ty(i) is I32
    &&& forall|f: Function, k: int| 0 <= k < p.func(f).params.len() ==> (#[trigger] p.func(f).params[k]).0 < p.insts.len()
}

/// Only integers are known to be constant, and literals are known to be what they are.
pub open spec fn apt(p: ProgramV, st: StateV) -> bool {
    &&& forall|x: Inst| #[trigger] known(st.lat, x) is Constant ==> p.ty(x) is I32
    &&& forall|x: Inst| x.0 < p.insts.len() && p.op(x) is Integer ==> #[trigger] known(st.lat, x) == Lattice::Constant(
        p.op(x)->Integer_0,
    )
    &&& forall|x: Inst| x.0 < p.insts.len() && p.op(x) is Float ==> #[trigger] known(st.lat, x) == Lattice::Bottom
}

proof fn lemma_apt_lowered(p: ProgramV, st: StateV, c: Node, v: Lattice)
    requires
        apt(p, st),
        v is Constant ==> p.ty(c.inst) is I32,
        !(p.op(c.inst) is Integer),
        !(p.op(c.inst) is Float),
    ensures
        apt(p, lowered(p, st, c, v)),
{
    let next = lowered(p, st, c, v);
    assert forall|x: Inst| #[trigger] known(next.lat, x) is Constant implies p.ty(x) is I32 by {
        assert(known(st.lat, x) is Constant ==> p.ty(x) is I32);
        if x.0 == c.inst.0 {
            assert(x == c.inst);
        }
    }
    assert forall|x: Inst| x.0 < p.insts.len() && p.op(x) is Integer implies #[trigger] known(next.lat, x)
        == Lattice::Constant(p.op(x)->Integer_0) by {
        assert(known(st.lat, x) == Lattice::Constant(p.op(x)->Integer_0));
        assert(x != c.inst);
    }
    assert forall|x: Inst| x.0 < p.insts.len() && p.op(x) is Float implies #[trigger] known(next.lat, x) == Lattice::Bottom by {
        assert(known(st.lat, x) == Lattice::Bottom);
        assert(x != c.inst);
    }
}

proof fn lemma_apt_passed(p: ProgramV, st: StateV, args: Seq<Inst>, f: Function, params: Seq<Inst>, from: int)
    requires
        apt(p, st),
        0 <= from,
        fitting(p, args, params),
        forall|k: int| 0 <= k < params.len() ==> p.op(#[trigger] params[k]) is BlockArgRef,
    ensures
        apt(p, passed(p, st, args, f, params, from)),
    decreases args.len() - from,
{
    if from < args.len() && from < params.len() {
        let c = Node { func: f, inst: params[from] };
        let v = known(st.lat, args[from]);
        assert(v is Constant ==> p.ty(args[from]) is I32);
        assert(p.ty(args[from]) == p.ty(params[from]));
        lemma_apt_lowered(p, st, c, v);
        lemma_apt_passed(p, lowered(p, st, c, v), args, f, params, from + 1);
    }
}

/// The listed calls are calls of `f` that stand in functions of the layout.
pub open spec fn calls_of(p: ProgramV, list: Seq<Node>, f: Function) -> bool {
    forall|k: int|
        0 <= k < list.len() ==> p.parent_bb((#[trigger] list[k]).func, list[k].inst) is Some && (p.op(list[k].inst)
            == Op::Call(f) || p.op(list[k].inst) == Op::TailCall(f))
}

proof fn lemma_calls_in(p: ProgramV, g: Function, insts: Seq<Inst>, f: Function, from: int, found: Seq<Node>)
    requires
        0 <= from,
        calls_of(p, found, f),
        forall|i: Inst| #[trigger] insts.contains(i) ==> p.parent_bb(g, i) is Some,
    ensures
        calls_of(p, sites_in(p, g, insts, f, from, found), f),
        forall|m: Node| found.contains(m) ==> #[trigger] sites_in(p, g, insts, f, from, found).contains(m),
        forall|k: int|
            from <= k < insts.len() && (p.op(insts[k]) == Op::Call(f) || p.op(insts[k]) == Op::TailCall(f)) ==> sites_in(
                p,
                g,
                insts,
                f,
                from,
                found,
            ).contains(Node { func: g, inst: #[trigger] insts[k] }),
    decreases insts.len() - from,
{
    if from < insts.len() {
        assert(insts.contains(insts[from]));
        let here = Node { func: g, inst: insts[from] };
        let next = if p.op(insts[from]) == Op::Call(f) || p.op(insts[from]) == Op::TailCall(f) {
            found.push(here)
        } else {
            found
        };
        lemma_calls_in(p, g, insts, f, from + 1, next);
        let r = sites_in(p, g, insts, f, from, found);
        assert(r == sites_in(p, g, insts, f, from + 1, next));
        assert forall|m: Node| found.contains(m) implies #[trigger] r.contains(m) by {
            let k = found.index_of(m);
            assert(next[k] == m);
            assert(next.contains(m));
        }
        if p.op(insts[from]) == Op::Call(f) || p.op(insts[from]) == Op::TailCall(f) {
            assert(next[found.len() as int] == here);
            assert(next.contains(here));
        }
    }
}

proof fn lemma_calls(p: ProgramV, layout: Seq<Function>, f: Function, from: int, found: Seq<Node>)
    requires
        0 <= from,
        calls_of(p, found, f),
    ensures
        calls_of(p, sites_from(p, layout, f, from, found), f),
        forall|m: Node| found.contains(m) ==> #[trigger] sites_from(p, layout, f, from, found).contains(m),
        forall|m: Node|
            (exists|k: int| from <= k < layout.len() && #[trigger] layout[k] == m.func) && p.placed(m.func).contains(m.inst) && (
            p.op(m.inst) == Op::Call(f) || p.op(m.inst) == Op::TailCall(f)) ==> #[trigger] sites_from(
                p,
                layout,
                f,
                from,
                found,
            ).contains(m),
    decreases layout.len() - from,
{
    if from < layout.len() {
        let g = layout[from];
        let insts = p.placed(g);
        lemma_placed(p, g, 0, Seq::empty());
        lemma_calls_in(p, g, insts, f, 0, found);
        let next = sites_in(p, g, insts, f, 0, found);
        lemma_calls(p, layout, f, from + 1, next);
        let r = sites_from(p, layout, f, from, found);
        assert(r == sites_from(p, layout, f, from + 1, next));
        assert forall|m: Node| found.contains(m) implies #[trigger] r.contains(m) by {
            assert(next.contains(m));
        }
        assert forall|m: Node|
            (exists|k: int| from <= k < layout.len() && #[trigger] layout[k] == m.func) && p.placed(m.func).contains(m.inst) && (
            p.op(m.inst) == Op::Call(f) || p.op(m.inst) == Op::TailCall(f)) implies #[trigger] r.contains(m) by {
            let k = choose|k: int| from <= k < layout.len() && #[trigger] layout[k] == m.func;
            if k == from {
                let j = insts.index_of(m.inst);
                assert(insts[j] == m.inst);
                assert(next.contains(Node { func: g, inst: insts[j] }));
                assert(next.contains(m));
            }
        }
    }
}

/// A call of `f` that stands in a function of the layout is among the calls of `f`.
proof fn lemma_is_site(p: ProgramV, n: Node, f: Function)
    requires
        p.layout.contains(n.func),
        p.parent_bb(n.func, n.inst) is Some,
        p.op(n.inst) == Op::Call(f) || p.op(n.inst) == Op::TailCall(f),
    ensures
        sites(p, f).contains(n),
{
    lemma_calls(p, p.layout, f, 0, Seq::empty());
    let k = p.layout.index_of(n.func);
    assert(p.layout[k] == n.func);
    lemma_in_placed(p, n.func, n.inst, 0, Seq::empty());
}

pub(crate) proof fn lemma_in_placed(p: ProgramV, f: Function, i: Inst, from: int, found: Seq<Inst>)
    requires
        0 <= from,
        found.contains(i) || p.parent_from(f, i, from) is Some,
    ensures
        p.placed_from(f, from, found).contains(i),
    decreases p.func(f).blocks.len() - from,
{
    if from < p.func(f).blocks.len() {
        let insts = p.block(p.func(f).blocks[from]).insts;
        let next = found + insts;
        if found.contains(i) {
            let k = found.index_of(i);
            assert(next[k] == i);
        } else if insts.contains(i) {
            let k = insts.index_of(i);
            assert(next[found.len() + k] == i);
        }
        lemma_in_placed(p, f, i, from + 1, next);
    }
}

proof fn lemma_apt_returned(p: ProgramV, st: StateV, calls: Seq<Node>, v: Lattice, from: int, f: Function)
    requires
        apt(p, st),
        0 <= from,
        typed_program(p),
        calls_of(p, calls, f),
        v is Constant ==> p.func(f).ret_ty is I32,
    ensures
        apt(p, returned(p, st, calls, v, from)),
    decreases calls.len() - from,
{
    if from < calls.len() {
        let c = calls[from];
        let mid = lowered(p, st, c, v);
        assert(p.parent_bb(c.func, c.inst) is Some);
        assert(typed_inst(p, c.func, c.inst));
        lemma_apt_lowered(p, st, c, v);
        let held = if lowers(st, c, v) && p.op(c.inst) is TailCall {
            StateV { relay: mid.relay.push(c), ..mid }
        } else {
            mid
        };
        assert(held.lat == mid.lat);
        lemma_apt_returned(p, held, calls, v, from + 1, f);
    }
}

proof fn lemma_apt_transferred(p: ProgramV, st: StateV, n: Node)
    requires
        typed_program(p),
        apt(p, st),
        sited(p, n),
    ensures
        apt(p, transferred(p, st, n)),
{
    let i = n.inst;
    let next = transferred(p, st, n);
    assert(own(p, n.func, i));
    assert(typed_inst(p, n.func, i));
    match p.op(i) {
        Op::GetElemPtr | Op::Alloc | Op::Fma | Op::VectorOp => {
            lemma_apt_lowered(p, st, n, Lattice::Bottom);
        },
        Op::Load => {
            if let Some((key, root)) = cell_of(p, n.func, p.arg(i, 0)) {
                if p.ty(i) is I32 {
                    let mid = replaced(p, st, n, value_read(p, st.mem, key, n));
                    assert(next.lat == mid.lat);
                    assert forall|x: Inst| #[trigger] known(next.lat, x) is Constant implies p.ty(x) is I32 by {
                        assert(known(st.lat, x) is Constant ==> p.ty(x) is I32);
                        if x.0 == i.0 {
                            assert(x == i);
                        }
                    }
                    assert forall|x: Inst| x.0 < p.insts.len() && p.op(x) is Integer implies #[trigger] known(next.lat, x)
                        == Lattice::Constant(p.op(x)->Integer_0) by {
                        assert(known(st.lat, x) == Lattice::Constant(p.op(x)->Integer_0));
                        assert(x != i);
                    }
                    assert forall|x: Inst| x.0 < p.insts.len() && p.op(x) is Float implies #[trigger] known(next.lat, x)
                        == Lattice::Bottom by {
                        assert(known(st.lat, x) == Lattice::Bottom);
                        assert(x != i);
                    }
                } else {
                    lemma_apt_lowered(p, st, n, Lattice::Bottom);
                }
            } else {
                lemma_apt_lowered(p, st, n, Lattice::Bottom);
            }
        },
        Op::Binary(op) => {
            let v = binary_value(op, known(st.lat, p.arg(i, 0)), known(st.lat, p.arg(i, 1)));
            assert(known(st.lat, p.arg(i, 0)) is Constant ==> p.ty(p.arg(i, 0)) is I32);
            lemma_apt_lowered(p, st, n, v);
        },
        Op::Select => {
            let a = known(st.lat, p.arg(i, 1));
            let b = known(st.lat, p.arg(i, 2));
            let v = select_value(known(st.lat, p.arg(i, 0)), a, b);
            assert(a is Constant ==> p.ty(p.arg(i, 1)) is I32);
            assert(b is Constant ==> p.ty(p.arg(i, 2)) is I32);
            lemma_apt_lowered(p, st, n, v);
        },
        Op::Cast => {
            lemma_apt_lowered(p, st, n, cast_value(p, i));
        },
        Op::Jump(t) => {
            lemma_block_params(p, n.func, t);
            lemma_apt_passed(p, st, p.args(i), n.func, p.block(t).params, 0);
        },
        Op::Branch(t, e, _) => {
            lemma_block_params(p, n.func, t);
            lemma_block_params(p, n.func, e);
            lemma_apt_passed(p, st, p.t_args(i), n.func, p.block(t).params, 0);
            lemma_apt_passed(p, st, p.f_args(i), n.func, p.block(e).params, 0);
            let mid = passed(p, st, p.t_args(i), n.func, p.block(t).params, 0);
            lemma_apt_passed(p, mid, p.f_args(i), n.func, p.block(e).params, 0);
        },
        Op::Call(g) => {
            lemma_func_params(p, g);
            if p.func(g).blocks.len() == 0 {
                lemma_apt_lowered(p, st, n, Lattice::Bottom);
                assert(next.lat == lowered(p, st, n, Lattice::Bottom).lat);
            } else {
                lemma_apt_passed(p, st, p.args(i), g, p.func(g).params, 0);
                assert(next.lat == passed(p, st, p.args(i), g, p.func(g).params, 0).lat);
            }
        },
        Op::TailCall(g) => {
            lemma_func_params(p, g);
            lemma_apt_passed(p, st, p.args(i), g, p.func(g).params, 0);
            let mid = passed(p, st, p.args(i), g, p.func(g).params, 0);
            lemma_calls(p, p.layout, n.func, 0, Seq::empty());
            assert(known(mid.lat, i) is Constant ==> p.ty(i) is I32);
            lemma_apt_returned(p, mid, sites(p, n.func), known(mid.lat, i), 0, n.func);
            assert(next.lat == returned(p, mid, sites(p, n.func), known(mid.lat, i), 0).lat);
        },
        Op::Return => {
            if p.args(i).len() > 0 {
                let v = known(st.lat, p.arg(i, 0));
                assert(v is Constant ==> p.ty(p.arg(i, 0)) is I32);
                lemma_calls(p, p.layout, n.func, 0, Seq::empty());
                lemma_apt_returned(p, st, sites(p, n.func), v, 0, n.func);
            }
        },
        _ => {
            assert(next.lat == st.lat);
        },
    }
}

proof fn lemma_left_lat(p: ProgramV, st: StateV, n: Node)
    ensures
        left(p, st, n).lat == st.lat,
{
}

proof fn lemma_apt_round(p: ProgramV, st: StateV)
    requires
        typed_program(p),
        settling(p, st),
        apt(p, st),
    ensures
        apt(p, round(p, st)),
{
    let a = entered(p, st);
    assert(a.lat == st.lat);
    crate::fixpoint::lemma_entered(p, st);
    if a.nodes.len() > 0 {
        let n = a.nodes[0];
        assert(a.nodes.contains(n));
        assert(pending(a, n));
        let c = StateV { nodes: a.nodes.drop_first(), ..a };
        assert(apt(p, c));
        lemma_apt_transferred(p, c, n);
        lemma_left_lat(p, transferred(p, c, n), n);
    }
}

proof fn lemma_apt_propagated(p: ProgramV, st: StateV, rounds: nat)
    requires
        typed_program(p),
        settling(p, st),
        apt(p, st),
    ensures
        apt(p, propagated(p, st, rounds)),
    decreases rounds,
{
    if rounds > 0 && !(st.edges.len() == 0 && st.nodes.len() == 0) {
        lemma_round(p, st);
        lemma_apt_round(p, st);
        lemma_apt_propagated(p, round(p, st), (rounds - 1) as nat);
    }
}

proof fn lemma_initial_values(p: ProgramV, from: int, found: Seq<Lattice>)
    requires
        0 <= from <= p.insts.len() <= usize::MAX,
        found.len() == from,
        forall|k: int| 0 <= k < from ==> #[trigger] found[k] == initial_value(p.op(Inst(k as usize))),
    ensures
        initial_from(p, from, found).len() == p.insts.len(),
        forall|k: int|
            0 <= k < p.insts.len() ==> #[trigger] initial_from(p, from, found)[k] == initial_value(p.op(Inst(k as usize))),
    decreases p.insts.len() - from,
{
    if from < p.insts.len() {
        lemma_initial_values(p, from + 1, found.push(initial_value(p.op(Inst(from as usize)))));
    }
}

proof fn lemma_apt_initial(p: ProgramV, main: Function, first: Inst)
    requires
        typed_program(p),
    ensures
        apt(p, initial(p, main, first)),
{
    let st = initial(p, main, first);
    lemma_initial_values(p, 0, Seq::empty());
    assert forall|x: Inst| x.0 < p.insts.len() implies #[trigger] known(st.lat, x) == initial_value(p.op(x)) by {
        assert(st.lat[x.0 as int] == initial_value(p.op(Inst(x.0 as int as usize))));
    }
    assert forall|x: Inst| #[trigger] known(st.lat, x) is Constant implies p.ty(x) is I32 by {
        if x.0 < p.insts.len() {
            assert(p.op(x) is Integer);
        }
    }
}

/// What happens on a trace: an instruction is run, or a value is given.
pub enum Event {
    Runs(Node),
    Gives(Inst, i32),
}

/// Instruction `n` was run before step `k`.
pub open spec fn ran(t: Seq<Event>, k: int, n: Node) -> bool {
    exists|j: int| 0 <= j < k && #[trigger] t[j] == Event::Runs(n)
}

/// `a` has value `v` at step `k`.
pub open spec fn has_value(p: ProgramV, t: Seq<Event>, k: int, a: Inst, v: i32) -> bool {
    match p.op(a) {
        Op::Integer(c) => v == c,
        Op::Float(_) => true,
        _ => exists|j: int| 0 <= j < k && #[trigger] t[j] == Event::Gives(a, v),
    }
}

/// After `m`, `n` may be run: what follows it, where a transfer leads, the callee of a call.
pub open spec fn follows(p: ProgramV, t: Seq<Event>, k: int, m: Node, n: Node) -> bool {
    match p.op(m.inst) {
        Op::Jump(b) => n.func == m.func && first_of(p, b) == Some(n.inst),
        Op::Branch(a, b, _) => n.func == m.func && exists|v: i32|
            #[trigger] has_value(p, t, k, p.arg(m.inst, 0), v) && first_of(
                p,
                if v != 0 {
                    a
                } else {
                    b
                },
            ) == Some(n.inst),
        Op::Return => false,
        Op::Call(g) => {
            ||| n.func == g && start_of(p, g) == Some(n.inst)
            ||| n.func == m.func && next_of(p, m.func, m.inst) == Some(n.inst)
        },
        Op::TailCall(g) => n.func == g && start_of(p, g) == Some(n.inst),
        _ => n.func == m.func && next_of(p, m.func, m.inst) == Some(n.inst),
    }
}

/// One of `args` with value `v` is passed to parameter `x`, which is at the same place of `params`.
pub open spec fn hands(p: ProgramV, t: Seq<Event>, k: int, args: Seq<Inst>, params: Seq<Inst>, x: Inst, v: i32) -> bool {
    exists|r: int| 0 <= r < args.len() && r < params.len() && params[r] == x && has_value(p, t, k, #[trigger] args[r], v)
}

/// `m` passes `v` to parameter `x`.
pub open spec fn passes(p: ProgramV, t: Seq<Event>, k: int, m: Node, x: Inst, v: i32) -> bool {
    let i = m.inst;
    match p.op(i) {
        Op::Jump(b) => hands(p, t, k, p.args(i), p.block(b).params, x, v),
        Op::Branch(a, b, _) => exists|c: i32|
            #[trigger] has_value(p, t, k, p.arg(i, 0), c) && (if c != 0 {
                hands(p, t, k, p.t_args(i), p.block(a).params, x, v)
            } else {
                hands(p, t, k, p.f_args(i), p.block(b).params, x, v)
            }),
        Op::Call(g) => p.func(g).blocks.len() > 0 && hands(p, t, k, p.args(i), p.func(g).params, x, v),
        Op::TailCall(g) => hands(p, t, k, p.args(i), p.func(g).params, x, v),
        _ => false,
    }
}

/// `m` ends a run of `g` that gives `v` back.
pub open spec fn gives_back(p: ProgramV, t: Seq<Event>, k: int, m: Node, g: Function, v: i32) -> bool {
    m.func == g && (match p.op(m.inst) {
        Op::Return => p.args(m.inst).len() > 0 && has_value(p, t, k, p.arg(m.inst, 0), v),
        Op::TailCall(_) => has_value(p, t, k, m.inst, v),
        _ => false,
    })
}

/// Value `v` of `n`, which is no load, comes from values that were given before.
pub open spec fn computed(p: ProgramV, t: Seq<Event>, k: int, n: Node, v: i32) -> bool {
    let x = n.inst;
    match p.op(x) {
        Op::Binary(op) => exists|a: i32, b: i32|
            #![trigger has_value(p, t, k, p.arg(x, 0), a), has_value(p, t, k, p.arg(x, 1), b)]
            has_value(p, t, k, p.arg(x, 0), a) && has_value(p, t, k, p.arg(x, 1), b) && (p.ty(p.arg(x, 0)) is I32 ==> defined(
                op,
                b,
            ) && v == int_op(op, a, b)),
        Op::Select => exists|c: i32|
            #[trigger] has_value(p, t, k, p.arg(x, 0), c) && has_value(
                p,
                t,
                k,
                if c != 0 {
                    p.arg(x, 1)
                } else {
                    p.arg(x, 2)
                },
                v,
            ),
        Op::Cast => match (p.ty(x), p.op(p.arg(x, 0))) {
            (Type::I32, Op::Float(bits)) => forall|w: int| #[trigger] rounds_to(bits, w) && is_word(w) ==> v == w,
            _ => true,
        },
        Op::Call(g) => p.func(g).blocks.len() > 0 ==> exists|m: Node| #[trigger] ran(t, k, m) && gives_back(p, t, k, m, g, v),
        Op::TailCall(g) => exists|m: Node| #[trigger] ran(t, k, m) && gives_back(p, t, k, m, g, v),
        Op::Fma => true,
        Op::VectorOp => true,
        _ => false,
    }
}

/// Value `v` of `n` comes from values that were given before. What a load gets is what memory is known to
/// hold, where that is known.
pub open spec fn comes(p: ProgramV, st: StateV, t: Seq<Event>, k: int, n: Node, v: i32) -> bool {
    if p.op(n.inst) is Load {
        match cell_of(p, n.func, p.arg(n.inst, 0)) {
            Some((key, _)) => p.ty(n.inst) is I32 ==> match value_read(p, st.mem, key, n) {
                Lattice::Constant(c) => v == c,
                _ => true,
            },
            None => true,
        }
    } else {
        computed(p, t, k, n, v)
    }
}

/// Step `k` of the trace follows from the steps before it.
pub open spec fn explained(p: ProgramV, st: StateV, t: Seq<Event>, k: int) -> bool {
    match t[k] {
        Event::Runs(n) => {
            ||| n.func == main_of(p)->0 && start_of(p, main_of(p)->0) == Some(n.inst)
            ||| exists|m: Node| #[trigger] ran(t, k, m) && follows(p, t, k, m, n)
        },
        Event::Gives(x, v) => if p.op(x) is BlockArgRef {
            exists|m: Node| #[trigger] ran(t, k, m) && passes(p, t, k, m, x, v)
        } else {
            exists|n: Node| #[trigger] ran(t, k, n) && n.inst == x && comes(p, st, t, k, n, v)
        },
    }
}

/// A trace of the program from the start of `main` on. Numbers are followed, addresses are not.
pub open spec fn traces(p: ProgramV, st: StateV, t: Seq<Event>) -> bool {
    forall|k: int| 0 <= k < t.len() ==> #[trigger] explained(p, st, t, k)
}

/// `v` is among what `l` allows for.
pub open spec fn allows(l: Lattice, v: i32) -> bool {
    l == Lattice::Bottom || l == Lattice::Constant(v)
}

/// An instruction that is run was visited; a value that is given is allowed for.
pub open spec fn accounted(p: ProgramV, st: StateV, e: Event) -> bool {
    match e {
        Event::Runs(n) => st.node_seen.contains(n) && p.layout.contains(n.func),
        Event::Gives(x, v) => allows(known(st.lat, x), v),
    }
}

/// What the end of the propagation is known to satisfy.
pub open spec fn complete(p: ProgramV, st: StateV) -> bool {
    &&& typed_program(p)
    &&& settling(p, st)
    &&& finished(st)
    &&& apt(p, st)
    &&& main_of(p) is Some
    &&& start_of(p, main_of(p)->0) is Some
    &&& p.layout.contains(main_of(p)->0)
    &&& ({
        let start = Node { func: main_of(p)->0, inst: start_of(p, main_of(p)->0)->0 };
        st.edge_seen.contains((start, start))
    })
}

pub(crate) proof fn lemma_visited(p: ProgramV, st: StateV, n: Node)
    requires
        complete(p, st),
        st.node_seen.contains(n),
    ensures
        settled(p, st, n),
        sited(p, n),
        own(p, n.func, n.inst),
        typed_inst(p, n.func, n.inst),
{
    assert(!pending(st, n));
}

proof fn lemma_edge(p: ProgramV, st: StateV, e: (Node, Node))
    requires
        complete(p, st),
        st.edge_seen.contains(e),
    ensures
        st.node_seen.contains(e.1),
{
}

pub(crate) proof fn lemma_value(p: ProgramV, st: StateV, t: Seq<Event>, k: int, a: Inst, v: i32)
    requires
        complete(p, st),
        forall|j: int| 0 <= j < k ==> accounted(p, st, #[trigger] t[j]),
        has_value(p, t, k, a, v),
    ensures
        allows(known(st.lat, a), v),
{
    if !(p.op(a) is Integer) && !(p.op(a) is Float) {
        let j = choose|j: int| 0 <= j < k && #[trigger] t[j] == Event::Gives(a, v);
        assert(accounted(p, st, t[j]));
    }
}

pub(crate) proof fn lemma_ran(p: ProgramV, st: StateV, t: Seq<Event>, k: int, m: Node)
    requires
        complete(p, st),
        forall|j: int| 0 <= j < k ==> accounted(p, st, #[trigger] t[j]),
        ran(t, k, m),
    ensures
        st.node_seen.contains(m),
        p.layout.contains(m.func),
{
    let j = choose|j: int| 0 <= j < k && #[trigger] t[j] == Event::Runs(m);
    assert(accounted(p, st, t[j]));
}

proof fn lemma_hands(
    p: ProgramV,
    st: StateV,
    t: Seq<Event>,
    k: int,
    args: Seq<Inst>,
    params: Seq<Inst>,
    x: Inst,
    v: i32,
)
    requires
        complete(p, st),
        forall|j: int| 0 <= j < k ==> accounted(p, st, #[trigger] t[j]),
        hands(p, t, k, args, params, x, v),
        taken_in(st.lat, args, params),
        x.0 < p.insts.len(),
    ensures
        allows(known(st.lat, x), v),
{
    let r = choose|r: int|
        0 <= r < args.len() && r < params.len() && params[r] == x && has_value(p, t, k, #[trigger] args[r], v);
    lemma_value(p, st, t, k, args[r], v);
    assert(known(st.lat, params[r]).below(known(st.lat, args[r])));
}

proof fn lemma_runs(p: ProgramV, st: StateV, t: Seq<Event>, k: int, m: Node, n: Node)
    requires
        complete(p, st),
        forall|j: int| 0 <= j < k ==> accounted(p, st, #[trigger] t[j]),
        ran(t, k, m),
        follows(p, t, k, m, n),
    ensures
        st.node_seen.contains(n),
        p.layout.contains(n.func),
{
    lemma_ran(p, st, t, k, m);
    lemma_visited(p, st, m);
    let i = m.inst;
    assert(edges_settled(p, st, m));
    match p.op(i) {
        Op::Branch(a, b, _) => {
            let v = choose|v: i32|
                #[trigger] has_value(p, t, k, p.arg(m.inst, 0), v) && first_of(
                    p,
                    if v != 0 {
                        a
                    } else {
                        b
                    },
                ) == Some(n.inst);
            lemma_value(p, st, t, k, p.arg(i, 0), v);
            assert(st.edge_seen.contains((m, Node { func: m.func, inst: n.inst })));
            lemma_edge(p, st, (m, Node { func: m.func, inst: n.inst }));
        },
        Op::Return => {},
        Op::TailCall(g) => {
            assert(st.edge_seen.contains((m, Node { func: g, inst: n.inst })));
            lemma_edge(p, st, (m, Node { func: g, inst: n.inst }));
        },
        Op::Call(g) => {
            if n.func == g && start_of(p, g) == Some(n.inst) {
                assert(st.edge_seen.contains((m, Node { func: g, inst: n.inst })));
                lemma_edge(p, st, (m, Node { func: g, inst: n.inst }));
            } else {
                assert(st.edge_seen.contains((m, Node { func: m.func, inst: n.inst })));
                lemma_edge(p, st, (m, Node { func: m.func, inst: n.inst }));
            }
        },
        _ => {
            assert(st.edge_seen.contains((m, Node { func: m.func, inst: n.inst })));
            lemma_edge(p, st, (m, Node { func: m.func, inst: n.inst }));
        },
    }
}

proof fn lemma_given(p: ProgramV, st: StateV, t: Seq<Event>, k: int, m: Node, x: Inst, v: i32)
    requires
        complete(p, st),
        forall|j: int| 0 <= j < k ==> accounted(p, st, #[trigger] t[j]),
        ran(t, k, m),
        passes(p, t, k, m, x, v),
        p.op(x) is BlockArgRef,
    ensures
        allows(known(st.lat, x), v),
{
    lemma_ran(p, st, t, k, m);
    lemma_visited(p, st, m);
    let i = m.inst;
    assert(values_settled(p, st, m));
    match p.op(i) {
        Op::Jump(b) => {
            lemma_hands(p, st, t, k, p.args(i), p.block(b).params, x, v);
        },
        Op::Branch(a, b, _) => {
            let c = choose|c: i32|
                #[trigger] has_value(p, t, k, p.arg(i, 0), c) && (if c != 0 {
                    hands(p, t, k, p.t_args(i), p.block(a).params, x, v)
                } else {
                    hands(p, t, k, p.f_args(i), p.block(b).params, x, v)
                });
            lemma_value(p, st, t, k, p.arg(i, 0), c);
            if c != 0 {
                lemma_hands(p, st, t, k, p.t_args(i), p.block(a).params, x, v);
            } else {
                lemma_hands(p, st, t, k, p.f_args(i), p.block(b).params, x, v);
            }
        },
        Op::Call(g) => {
            lemma_hands(p, st, t, k, p.args(i), p.func(g).params, x, v);
        },
        Op::TailCall(g) => {
            lemma_hands(p, st, t, k, p.args(i), p.func(g).params, x, v);
        },
        _ => {},
    }
}

/// What a function gives back is allowed for at its calls.
proof fn lemma_given_back(p: ProgramV, st: StateV, t: Seq<Event>, k: int, m: Node, g: Function, n: Node, v: i32)
    requires
        complete(p, st),
        forall|j: int| 0 <= j < k ==> accounted(p, st, #[trigger] t[j]),
        ran(t, k, m),
        gives_back(p, t, k, m, g, v),
        ran(t, k, n),
        p.op(n.inst) == Op::Call(g) || p.op(n.inst) == Op::TailCall(g),
    ensures
        allows(known(st.lat, n.inst), v),
{
    lemma_ran(p, st, t, k, m);
    lemma_visited(p, st, m);
    lemma_ran(p, st, t, k, n);
    lemma_visited(p, st, n);
    lemma_is_site(p, n, g);
    let calls = sites(p, g);
    let r = calls.index_of(n);
    assert(calls[r] == n);
    assert(values_settled(p, st, m));
    if p.op(m.inst) is Return {
        lemma_value(p, st, t, k, p.arg(m.inst, 0), v);
        assert(handed_back(st.lat, calls, known(st.lat, p.arg(m.inst, 0))));
        assert(known(st.lat, calls[r].inst).below(known(st.lat, p.arg(m.inst, 0))));
    } else {
        lemma_value(p, st, t, k, m.inst, v);
        assert(handed_back(st.lat, calls, known(st.lat, m.inst)));
        assert(known(st.lat, calls[r].inst).below(known(st.lat, m.inst)));
    }
}

proof fn lemma_computed(p: ProgramV, st: StateV, t: Seq<Event>, k: int, n: Node, v: i32)
    requires
        complete(p, st),
        forall|j: int| 0 <= j < k ==> accounted(p, st, #[trigger] t[j]),
        ran(t, k, n),
        comes(p, st, t, k, n, v),
    ensures
        allows(known(st.lat, n.inst), v),
{
    lemma_ran(p, st, t, k, n);
    lemma_visited(p, st, n);
    let x = n.inst;
    assert(values_settled(p, st, n));
    match p.op(x) {
        Op::Binary(op) => {
            let (a, b) = choose|a: i32, b: i32|
                #![trigger has_value(p, t, k, p.arg(x, 0), a), has_value(p, t, k, p.arg(x, 1), b)]
                has_value(p, t, k, p.arg(x, 0), a) && has_value(p, t, k, p.arg(x, 1), b) && (p.ty(p.arg(x, 0)) is I32
                    ==> defined(op, b) && v == int_op(op, a, b));
            lemma_value(p, st, t, k, p.arg(x, 0), a);
            lemma_value(p, st, t, k, p.arg(x, 1), b);
            assert(known(st.lat, p.arg(x, 0)) is Constant ==> p.ty(p.arg(x, 0)) is I32);
        },
        Op::Select => {
            let c = choose|c: i32|
                #[trigger] has_value(p, t, k, p.arg(x, 0), c) && has_value(
                    p,
                    t,
                    k,
                    if c != 0 {
                        p.arg(x, 1)
                    } else {
                        p.arg(x, 2)
                    },
                    v,
                );
            lemma_value(p, st, t, k, p.arg(x, 0), c);
            lemma_value(
                p,
                st,
                t,
                k,
                if c != 0 {
                    p.arg(x, 1)
                } else {
                    p.arg(x, 2)
                },
                v,
            );
        },
        Op::Cast => match (p.ty(x), p.op(p.arg(x, 0))) {
            (Type::I32, Op::Float(bits)) => if is_finite(bits) {
                let w = finite_literals_round(bits);
                literals_round_toward_zero(bits, w);
            } else {
                what_is_not_finite_is_no_word(bits);
            },
            _ => {},
        },
        Op::Call(g) => {
            if p.func(g).blocks.len() > 0 {
                let m = choose|m: Node| #[trigger] ran(t, k, m) && gives_back(p, t, k, m, g, v);
                lemma_given_back(p, st, t, k, m, g, n, v);
            }
        },
        Op::TailCall(g) => {
            let m = choose|m: Node| #[trigger] ran(t, k, m) && gives_back(p, t, k, m, g, v);
            lemma_given_back(p, st, t, k, m, g, n, v);
        },
        _ => {},
    }
}

pub(crate) proof fn lemma_trace(p: ProgramV, st: StateV, t: Seq<Event>, k: int)
    requires
        complete(p, st),
        traces(p, st, t),
        0 <= k <= t.len(),
    ensures
        forall|j: int| 0 <= j < k ==> accounted(p, st, #[trigger] t[j]),
    decreases k,
{
    if k > 0 {
        lemma_trace(p, st, t, k - 1);
        assert(explained(p, st, t, k - 1));
        match t[k - 1] {
            Event::Runs(n) => {
                if n.func == main_of(p)->0 && start_of(p, main_of(p)->0) == Some(n.inst) {
                    lemma_edge(p, st, (n, n));
                } else {
                    let m = choose|m: Node| #[trigger] ran(t, k - 1, m) && follows(p, t, k - 1, m, n);
                    lemma_runs(p, st, t, k - 1, m, n);
                }
            },
            Event::Gives(x, v) => {
                if p.op(x) is BlockArgRef {
                    let m = choose|m: Node| #[trigger] ran(t, k - 1, m) && passes(p, t, k - 1, m, x, v);
                    lemma_given(p, st, t, k - 1, m, x, v);
                } else {
                    let n = choose|n: Node|
                        #[trigger] ran(t, k - 1, n) && n.inst == x && comes(p, st, t, k - 1, n, v);
                    lemma_computed(p, st, t, k - 1, n, v);
                }
            },
        }
    }
}

proof fn lemma_main_in_layout(p: ProgramV, layout: Seq<Function>, from: int)
    requires
        0 <= from,
        crate::dce::main_at(p, layout, from) is Some,
    ensures
        layout.contains(crate::dce::main_at(p, layout, from)->0),
    decreases layout.len() - from,
{
    if p.func(layout[from]).name != "main"@ {
        lemma_main_in_layout(p, layout, from + 1);
    }
}

/// Edges once taken stay taken.
proof fn lemma_edges_stay(p: ProgramV, st: StateV, rounds: nat, e: (Node, Node))
    requires
        separate(p),
        settling(p, st),
        st.edge_seen.contains(e),
    ensures
        propagated(p, st, rounds).edge_seen.contains(e),
    decreases rounds,
{
    if rounds > 0 && !(st.edges.len() == 0 && st.nodes.len() == 0) {
        let a = entered(p, st);
        crate::fixpoint::lemma_entered(p, st);
        if a.nodes.len() > 0 {
            let n = a.nodes[0];
            assert(a.nodes.contains(n));
            assert(pending(a, n));
            let c = StateV { nodes: a.nodes.drop_first(), ..a };
            lemma_transferred(p, c, n);
            crate::fixpoint::lemma_left(p, transferred(p, c, n), n);
        }
        lemma_round(p, st);
        assert(round(p, st).edge_seen.contains(e));
        lemma_edges_stay(p, round(p, st), (rounds - 1) as nat, e);
    }
}

/// The end of the propagation is complete.
pub(crate) proof fn lemma_complete(p: ProgramV)
    requires
        typed_program(p),
        main_of(p) is Some,
        start_of(p, main_of(p)->0) is Some,
        finished(solved(p, usize::MAX as nat)),
    ensures
        complete(p, solved(p, usize::MAX as nat)),
{
    let st = solved(p, usize::MAX as nat);
    let main = main_of(p)->0;
    let first = start_of(p, main)->0;
    let begin = initial(p, main, first);
    let start = Node { func: main, inst: first };
    lemma_start_sited(p, main);
    lemma_initial(p, main, first);
    lemma_propagated(p, begin, usize::MAX as nat);
    lemma_apt_initial(p, main, first);
    lemma_apt_propagated(p, begin, usize::MAX as nat);
    lemma_main_in_layout(p, p.layout, 0);
    assert(begin.edge_seen[0] == (start, start));
    lemma_edges_stay(p, begin, usize::MAX as nat, (start, start));
    assert(complete(p, st));
}

/// On every trace of the program an instruction that is run was visited by the propagation, and a value
/// that is found constant has that value, as far as what loads get is what memory is known to hold.
pub proof fn constants_hold_on_every_trace(p: ProgramV, t: Seq<Event>, k: int)
    requires
        typed_program(p),
        main_of(p) is Some,
        start_of(p, main_of(p)->0) is Some,
        finished(solved(p, usize::MAX as nat)),
        traces(p, solved(p, usize::MAX as nat), t),
        0 <= k < t.len(),
    ensures
        match t[k] {
            Event::Runs(n) => solved(p, usize::MAX as nat).node_seen.contains(n),
            Event::Gives(x, v) => match known(solved(p, usize::MAX as nat).lat, x) {
                Lattice::Constant(c) => v == c,
                Lattice::Bottom => true,
                Lattice::Top => false,
            },
        },
{
    let st = solved(p, usize::MAX as nat);
    lemma_complete(p);
    lemma_trace(p, st, t, t.len() as int);
    assert(accounted(p, st, t[k]));
}

} // verus!
