//! What a join block gets from its edges is what it computed.

use vstd::prelude::*;

use crate::cfg::TreeV;
use crate::edges::{appending_is_local, arg_appended, edge_args, edge_target, Edge, EdgeArm};
use crate::gvn_pre::{
    expr, expr_at, insts_from, last_with, leader_at, offer, parent_from, replaced_by_param,
    value_numbers, values_passed, Offer,
};
use crate::ir::{position, without, BasicBlock, BinaryOp, Function, Inst, Op, ProgramV, Type};
use crate::numbering::{
    all_numbered, binary_key, binary_meaning, computes, expressible, fits, key_value,
    lemma_all_numbered, ordered, symmetric, KeyV, Meaning, NumbersV, ScopeV,
};

verus! {

/// Values on entering block `b` by edge `e`, where they were `env` at its end: the parameters take what
/// the edge passes.
pub open spec fn arrived(p: ProgramV, b: BasicBlock, e: Edge, env: spec_fn(Inst) -> int) -> spec_fn(Inst) -> int {
    |v: Inst|
        {
            let k = position(p.block(b).params, v, 0);
            if k < p.block(b).params.len() && k < edge_args(p, e).len() {
                env(edge_args(p, e)[k])
            } else {
                env(v)
            }
        }
}

/// The values that are numbered by what they compute.
pub open spec fn i32_scope() -> ScopeV {
    ScopeV { strict: true }
}

/// The numbers of all values of `p`, with what they stand for.
pub open spec fn numbers_of(p: ProgramV) -> NumbersV {
    all_numbered(
        p,
        i32_scope(),
        NumbersV { by_inst: Map::empty(), keys: Seq::empty() },
        insts_from(p, 0, Seq::empty()),
        0,
        Seq::empty(),
        p.insts.len(),
    ).0
}

/// What `op` gives on two `i32` values.
pub open spec fn result_of(m: Meaning, op: BinaryOp, x: int, y: int) -> int {
    binary_meaning(m, op, Type::I32, Type::I32, x, y)
}

/// The key of an operation stands for what the operation gives.
proof fn lemma_key_meaning(m: Meaning, env: spec_fn(Inst) -> int, vals: Seq<int>, op: BinaryOp, x: usize, y: usize)
    requires
        symmetric(m),
        x < vals.len(),
        y < vals.len(),
    ensures
        key_value(m, env, vals, binary_key(op, Type::I32, Type::I32, x, y)) == result_of(
            m,
            op,
            vals[x as int],
            vals[y as int],
        ),
{
    let (o, a, b) = ordered(op, Type::I32, x, y);
    let key = binary_key(op, Type::I32, Type::I32, x, y);
    assert(Seq::new(key.args.len(), |j: int| vals[key.args[j] as int]) =~= seq![vals[a as int], vals[b as int]]);
    assert(key_value(m, env, vals, key) == result_of(m, o, vals[a as int], vals[b as int]));
    let _ = binary_meaning(m, op, Type::I32, Type::I32, vals[x as int], vals[y as int]);
}

/// What instruction `i` computes has the value that its expression stands for.
proof fn lemma_expr_value(p: ProgramV, m: Meaning, env: spec_fn(Inst) -> int, vals: Seq<int>, i: Inst, key: KeyV)
    requires
        computes(p, i32_scope(), m, env),
        symmetric(m),
        fits(m, env, numbers_of(p), vals),
        p.op(i) is Binary ==> p.args(i).len() == 2,
        p.ty(i) is I32,
        expr_at(p, numbers_of(p).by_inst, i) == Some(key),
    ensures
        env(i) == key_value(m, env, vals, key),
{
    let t = numbers_of(p);
    let op = p.op(i)->Binary_0;
    let lhs = p.arg(i, 0);
    let rhs = p.arg(i, 1);
    assert(t.by_inst.contains_key(lhs.0) && t.by_inst.contains_key(rhs.0));
    assert(expressible(p, i32_scope(), i));
    assert(p.args(i).map_values(env) =~= seq![env(lhs), env(rhs)]);
    lemma_key_meaning(m, env, vals, op, t.by_inst[lhs.0], t.by_inst[rhs.0]);
    assert(env(Inst(lhs.0)) == vals[t.by_inst[lhs.0] as int]);
    assert(env(Inst(rhs.0)) == vals[t.by_inst[rhs.0] as int]);
}

proof fn lemma_last_with(p: ProgramV, nums: Map<usize, usize>, insts: Seq<Inst>, key: KeyV, upto: int)
    ensures
        last_with(p, nums, insts, key, upto) matches Some(x) ==> expr_at(p, nums, x) == Some(key),
    decreases upto,
{
    if 0 < upto <= insts.len() && expr_at(p, nums, insts[upto - 1]) != Some(key) {
        lemma_last_with(p, nums, insts, key, upto - 1);
    }
}

proof fn lemma_leader_at(
    p: ProgramV,
    nums: Map<usize, usize>,
    tree: TreeV,
    order: Seq<BasicBlock>,
    b: BasicBlock,
    key: KeyV,
    depth: nat,
)
    ensures
        leader_at(p, nums, tree, order, b, key, depth) matches Some(x) ==> expr_at(p, nums, x) == Some(key),
    decreases depth,
{
    if depth > 0 {
        lemma_last_with(p, nums, p.block(b).insts, key, p.block(b).insts.len() as int);
        if last_with(p, nums, p.block(b).insts, key, p.block(b).insts.len() as int) is None {
            match parent_from(tree, order, b, 0) {
                Some(x) => lemma_leader_at(p, nums, tree, order, x, key, (depth - 1) as nat),
                None => {},
            }
        }
    }
}

/// What an edge offers for a computation of the join block is what the computation would give on arriving
/// by that edge: computing it from the offered operands, and the value that is said to hold it.
pub proof fn offered_values_are_the_computed_ones(
    p: ProgramV,
    f: Function,
    tree: TreeV,
    order: Seq<BasicBlock>,
    b: BasicBlock,
    i: Inst,
    op: BinaryOp,
    e: Edge,
    m: Meaning,
    env: spec_fn(Inst) -> int,
)
    requires
        computes(p, i32_scope(), m, env),
        symmetric(m),
        numbers_of(p).keys.len() < usize::MAX,
        forall|x: Inst| #[trigger] p.op(x) is Binary ==> p.args(x).len() == 2,
        p.ty(i) is I32,
        offer(p, f, value_numbers(p), tree, order, b, i, op, e) is Some,
    ensures
        ({
            let o = offer(p, f, value_numbers(p), tree, order, b, i, op, e)->0;
            let there = arrived(p, b, e, env);
            let result = result_of(m, op, there(p.arg(i, 0)), there(p.arg(i, 1)));
            result_of(m, op, env(o.lhs), env(o.rhs)) == result && (o.leader matches Some(x) ==> env(x) == result)
        }),
{
    let o = offer(p, f, value_numbers(p), tree, order, b, i, op, e)->0;
    let there = arrived(p, b, e, env);
    let t = numbers_of(p);
    assert(value_numbers(p) == t.by_inst);
    let start = NumbersV { by_inst: Map::<usize, usize>::empty(), keys: Seq::<KeyV>::empty() };
    assert(fits(m, env, start, Seq::empty()));
    let vals = lemma_all_numbered(
        p,
        i32_scope(),
        m,
        env,
        start,
        Seq::empty(),
        insts_from(p, 0, Seq::empty()),
        0,
        Seq::empty(),
        p.insts.len(),
    );
    assert(fits(m, env, t, vals));
    assert(env(o.lhs) == there(p.arg(i, 0)));
    assert(env(o.rhs) == there(p.arg(i, 1)));
    let key = expr(p, t.by_inst, op, o.lhs, o.rhs)->0;
    match o.leader {
        Some(x) => {
            lemma_leader_at(p, t.by_inst, tree, order, e.from, key, order.len());
            lemma_expr_value(p, m, env, vals, x, key);
            assert(t.by_inst.contains_key(o.lhs.0) && t.by_inst.contains_key(o.rhs.0));
            lemma_key_meaning(m, env, vals, op, t.by_inst[o.lhs.0], t.by_inst[o.rhs.0]);
            assert(env(Inst(o.lhs.0)) == vals[t.by_inst[o.lhs.0] as int]);
            assert(env(Inst(o.rhs.0)) == vals[t.by_inst[o.rhs.0] as int]);
        },
        None => {},
    }
}

/// Edge `e` is one of its transfer, which can take `room` more arguments.
pub open spec fn ready(p: ProgramV, e: Edge, room: int) -> bool {
    &&& e.terminator.0 < p.insts.len()
    &&& edge_target(p, e) is Some
    &&& p.op(e.terminator) is Branch ==> p.op(e.terminator)->Branch_2 + 1 <= p.args(e.terminator).len()
    &&& p.args(e.terminator).len() + room < usize::MAX
}

/// No two of the edges are the same arm of the same transfer.
pub open spec fn all_distinct(edges: Seq<Edge>) -> bool {
    forall|j: int, k: int|
        0 <= j < k < edges.len() ==> (#[trigger] edges[j]).terminator != (#[trigger] edges[k]).terminator || edges[j].arm
            != edges[k].arm
}

/// What offer `k` passes: its value, or `inserted` where it has none.
pub open spec fn passed(list: Seq<Offer>, inserted: Inst, k: int) -> Inst {
    match list[k].leader {
        Some(x) => x,
        None => inserted,
    }
}

proof fn lemma_appended_elsewhere(p: ProgramV, e: Edge, v: Inst, x: Edge, room: int)
    requires
        ready(p, e, room),
        ready(p, x, room),
        room >= 1,
    ensures
        ready(arg_appended(p, e, v), x, room - 1),
        e.terminator != x.terminator || e.arm != x.arm ==> edge_args(arg_appended(p, e, v), x) == edge_args(p, x),
{
    reveal(ProgramV::set_inst);
    appending_is_local(p, e, v);
    let q = arg_appended(p, e, v);
    if e.terminator != x.terminator {
        assert(q.insts[x.terminator.0 as int] == p.insts[x.terminator.0 as int]);
    } else {
        let t = e.terminator;
        match p.op(t) {
            Op::Branch(_, _, n) => {
                if e.arm is True {
                    assert(q.args(t) == seq![p.arg(t, 0)] + p.t_args(t).push(v) + p.f_args(t));
                } else {
                    assert(q.args(t) == seq![p.arg(t, 0)] + p.t_args(t) + p.f_args(t).push(v));
                }
                assert(q.args(t).len() == p.args(t).len() + 1);
                let other_true = Edge { arm: EdgeArm::True, ..e };
                let other_false = Edge { arm: EdgeArm::False, ..e };
                assert(edge_args(q, other_true) == q.t_args(t));
                assert(edge_args(q, other_false) == q.f_args(t));
            },
            _ => {},
        }
    }
}

pub(crate) proof fn lemma_values_passed(
    p: ProgramV,
    edges: Seq<Edge>,
    list: Seq<Offer>,
    inserted: Inst,
    skip: int,
    from: int,
    x: Edge,
    room: int,
)
    requires
        0 <= from <= edges.len(),
        edges.len() == list.len(),
        edges.len() - from <= room,
        all_distinct(edges),
        ready(p, x, room),
        forall|k: int| from <= k < edges.len() ==> ready(p, #[trigger] edges[k], room),
    ensures
        ({
            let q = values_passed(p, edges, list, inserted, skip, from);
            &&& (forall|k: int|
                from <= k < edges.len() ==> (#[trigger] edges[k]).terminator != x.terminator || edges[k].arm != x.arm)
                ==> edge_args(q, x) == edge_args(p, x)
            &&& forall|k: int|
                from <= k < edges.len() && (#[trigger] edges[k]).terminator == x.terminator && edges[k].arm == x.arm
                    ==> edge_args(q, x) == (if k == skip {
                    edge_args(p, x)
                } else {
                    edge_args(p, x).push(passed(list, inserted, k))
                })
        }),
    decreases edges.len() - from,
{
    if from < edges.len() {
        let e = edges[from];
        if from == skip {
            lemma_values_passed(p, edges, list, inserted, skip, from + 1, x, room);
            if e.terminator == x.terminator && e.arm == x.arm {
                assert forall|k: int| from + 1 <= k < edges.len() implies (#[trigger] edges[k]).terminator
                    != x.terminator || edges[k].arm != x.arm by {
                    assert(edges[from].terminator != edges[k].terminator || edges[from].arm != edges[k].arm);
                }
            }
        } else {
            let v = passed(list, inserted, from);
            let q = arg_appended(p, e, v);
            lemma_appended_elsewhere(p, e, v, x, room);
            appending_is_local(p, e, v);
            assert forall|k: int| from + 1 <= k < edges.len() implies ready(q, #[trigger] edges[k], room - 1) by {
                lemma_appended_elsewhere(p, e, v, edges[k], room);
            }
            lemma_values_passed(q, edges, list, inserted, skip, from + 1, x, room - 1);
            if e.terminator == x.terminator && e.arm == x.arm {
                assert(edge_args(q, x) == edge_args(q, e));
                assert(edge_args(p, x) == edge_args(p, e));
                assert forall|k: int| from + 1 <= k < edges.len() implies (#[trigger] edges[k]).terminator
                    != x.terminator || edges[k].arm != x.arm by {
                    assert(edges[from].terminator != edges[k].terminator || edges[from].arm != edges[k].arm);
                }
            }
        }
    }
}

/// Each edge passes, behind what it passed, the value that was offered for it; the edge `skip` is as it was.
pub proof fn edges_pass_what_they_offer(
    p: ProgramV,
    edges: Seq<Edge>,
    list: Seq<Offer>,
    inserted: Inst,
    skip: int,
    k: int,
)
    requires
        0 <= k < edges.len(),
        edges.len() == list.len(),
        all_distinct(edges),
        forall|j: int| 0 <= j < edges.len() ==> ready(p, #[trigger] edges[j], edges.len() as int),
    ensures
        edge_args(values_passed(p, edges, list, inserted, skip, 0), edges[k]) == (if k == skip {
            edge_args(p, edges[k])
        } else {
            edge_args(p, edges[k]).push(passed(list, inserted, k))
        }),
{
    lemma_values_passed(p, edges, list, inserted, skip, 0, edges[k], edges.len() as int);
}

/// Where a parameter took the place of a computation, it is the last parameter of the block, the
/// computation is gone, and nothing uses it any more.
pub proof fn parameter_takes_the_place(p: ProgramV, b: BasicBlock, i: Inst)
    requires
        b.0 < p.blocks.len(),
        p.insts.len() < usize::MAX,
    ensures
        replaced_by_param(p, b, i).block(b).params == p.block(b).params.push(p.next_inst()),
        !replaced_by_param(p, b, i).is_used(i) || i == p.next_inst(),
        replaced_by_param(p, b, i).block(b).insts == without(p.block(b).insts, i),
{
    reveal(ProgramV::push_inst);
    reveal(ProgramV::set_block_params);
    reveal(ProgramV::set_block_insts);
    reveal(ProgramV::replace_uses);
    reveal(ProgramV::set_inst);
    let q = p.add_param(b, p.ty(i));
    let r = q.replace_uses(i, p.next_inst());
    let s = r.remove(b, i);
    assert(s.insts.len() == r.insts.len());
    assert forall|u: int| 0 <= u < s.insts.len() && i != p.next_inst() implies !(#[trigger] s.insts[u]).args.contains(
        i,
    ) by {
        if u != i.0 {
            assert(s.insts[u] == r.insts[u]);
            assert(r.insts[u] == q.insts[u].replaced(i, p.next_inst()));
        }
    }
}

} // verus!
