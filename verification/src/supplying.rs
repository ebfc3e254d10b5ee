//! A join gets by its edges what it computed, as the whole program that comes out says.

use vstd::prelude::*;

use crate::cfg::{entry_of, reverse_postorder, tree_of, TreeV};
use crate::edges::{arg_appended, edge_args, edge_target, incoming, incoming_from, redirected, Edge, EdgeArm};
use crate::gvn_pre::{
    applied, applied_with_insertion, chosen, first_gap, found_from, found_in, gaps, is_join, joined_once, offer, offers,
    replaced_by_param, value_numbers, values_passed, worthwhile, Offer,
};
use crate::ir::{
    before, position, position_is_first, without, BasicBlock, Function, Inst, Op, ProgramV, Type,
};
use crate::joining::{
    all_distinct, arrived, edges_pass_what_they_offer, i32_scope, numbers_of,
    offered_values_are_the_computed_ones, passed, ready, result_of,
};
use crate::numbering::{computes, symmetric, Meaning};
use crate::scoping::{above, placed_once, precedes, stands};
use crate::splicing::with_result;
use crate::visibility::{at_hand, edges_offer_what_is_there, leaves, lemma_incoming, lemma_offers};

verus! {

/// What computation `i` of block `b` gives on arriving there by edge `e`, where values were `env` at the end of the
/// edge's block: its operation on what its operands are there, in their order.
pub open spec fn owed(p: ProgramV, b: BasicBlock, i: Inst, e: Edge, m: Meaning, env: spec_fn(Inst) -> int) -> int {
    let there = arrived(p, b, e, env);
    result_of(m, p.op(i)->Binary_0, there(p.arg(i, 0)), there(p.arg(i, 1)))
}

/// Value `v` of `q` is `n` where values were `env` in `p`: an old value is what it was, and a new one is what its
/// operation gives on old ones.
pub open spec fn amounts_to(p: ProgramV, q: ProgramV, m: Meaning, env: spec_fn(Inst) -> int, v: Inst, n: int) -> bool {
    if v.0 < p.insts.len() {
        env(v) == n
    } else {
        &&& q.op(v) is Binary
        &&& q.args(v).len() == 2
        &&& q.args(v)[0].0 < p.insts.len()
        &&& q.args(v)[1].0 < p.insts.len()
        &&& result_of(m, q.op(v)->Binary_0, env(q.args(v)[0]), env(q.args(v)[1])) == n
    }
}

/// Edge `e` brings to block `b` of `q` what it brought, and last value `v`. It leads there itself, and a new `v` then
/// stands at the end of its block; or it leads to a new block of nothing but `v` and the jump there.
pub open spec fn brings(p: ProgramV, q: ProgramV, b: BasicBlock, i: Inst, e: Edge, v: Inst) -> bool {
    let all = with_result(edge_args(p, e), i, q.block(b).params.last()).push(v);
    ||| {
        &&& edge_target(q, e) == Some(b)
        &&& edge_args(q, e) == all
        &&& v.0 >= p.insts.len() ==> q.block(e.from).insts == p.block(e.from).insts.drop_last().push(v).push(e.terminator)
    }
    ||| {
        let d = edge_target(q, e)->0;
        let jump = q.terminator(d);
        &&& edge_target(q, e) is Some
        &&& d.0 >= p.blocks.len()
        &&& edge_args(q, e).len() == 0
        &&& q.block(d).params.len() == 0
        &&& q.block(d).insts == seq![v, jump]
        &&& q.op(jump) == Op::Jump(b)
        &&& q.args(jump) == all
    }
}

/// Block `b` of `q` has a parameter more in place of computation `i`, which nothing uses any more.
pub open spec fn gives_up(p: ProgramV, q: ProgramV, b: BasicBlock, i: Inst) -> bool {
    let param = q.block(b).params.last();
    &&& q.block(b).params == p.block(b).params.push(param)
    &&& param.0 >= p.insts.len()
    &&& q.block(b).insts == without(p.block(b).insts, i)
    &&& !q.is_used(i)
}

/// Instruction `x` is as it was, but for the use of `i`.
pub open spec fn is_kept(p: ProgramV, q: ProgramV, b: BasicBlock, i: Inst, x: Inst) -> bool {
    q.op(x) == p.op(x) && q.ty(x) == p.ty(x) && q.args(x) == with_result(p.args(x), i, q.block(b).params.last())
}

/// The edges can take more arguments, and values stand at one place each and are local: only blocks set them.
pub open spec fn is_joinable(p: ProgramV, f: Function, order: Seq<BasicBlock>, b: BasicBlock) -> bool {
    &&& placed_once(p)
    &&& tree_of(p, f).contains(b)
    &&& forall|c: BasicBlock, k: int, x: Inst| #[trigger]
        stands(p, c, k, x) ==> x.0 < p.insts.len() && !p.inst(x).global && (p.func(f).params.contains(x) ==> k
            < p.block(c).params.len())
    &&& forall|k: int|
        0 <= k < incoming(p, order, b).len() ==> ready(
            p,
            #[trigger] incoming(p, order, b)[k],
            incoming(p, order, b).len() as int + 2,
        )
    &&& p.blocks.len() < usize::MAX
    &&& p.insts.len() + 3 < usize::MAX
}

/// Making an edge lead elsewhere with other arguments touches no other edge.
proof fn lemma_redirected(p: ProgramV, e: Edge, target: BasicBlock, args: Seq<Inst>, x: Edge, room: int)
    requires
        ready(p, e, room),
        ready(p, x, room),
        room >= 1,
        args.len() <= edge_args(p, e).len() + 1,
    ensures
        ({
            let q = redirected(p, e, target, args);
            &&& edge_args(q, e) == args
            &&& edge_target(q, e) == Some(target)
            &&& ready(q, x, room - 1)
            &&& e.terminator != x.terminator || e.arm != x.arm ==> edge_args(q, x) == edge_args(p, x) && edge_target(q, x)
                == edge_target(p, x)
            &&& q.blocks == p.blocks
            &&& q.funcs == p.funcs
            &&& q.insts.len() == p.insts.len()
            &&& forall|y: Inst| y != e.terminator ==> #[trigger] q.inst(y) == p.inst(y)
            &&& q.arg(e.terminator, 0) == p.arg(e.terminator, 0) || e.arm is Jump
        }),
{
    reveal(ProgramV::set_inst);
    let q = redirected(p, e, target, args);
    let t = e.terminator;
    match p.op(t) {
        Op::Branch(_, _, n) => {
            let on_true = Edge { arm: EdgeArm::True, ..e };
            let on_false = Edge { arm: EdgeArm::False, ..e };
            if e.arm is True {
                assert(q.args(t) == seq![p.arg(t, 0)] + args + p.f_args(t));
                assert(q.t_args(t) =~= args);
                assert(q.f_args(t) =~= p.f_args(t));
            } else {
                assert(q.args(t) == seq![p.arg(t, 0)] + p.t_args(t) + args);
                assert(q.t_args(t) =~= p.t_args(t));
                assert(q.f_args(t) =~= args);
            }
            assert(p.args(t).len() == 1 + p.t_args(t).len() + p.f_args(t).len());
            assert(q.args(t).len() <= p.args(t).len() + 1);
        },
        _ => {},
    }
    if e.terminator != x.terminator {
        assert(q.inst(x.terminator) == p.inst(x.terminator));
    }
}

/// Passing values changes only what the edges pass.
proof fn lemma_passing_keeps(p: ProgramV, edges: Seq<Edge>, list: Seq<Offer>, inserted: Inst, skip: int, from: int, room: int)
    requires
        0 <= from <= edges.len(),
        edges.len() - from <= room,
        forall|k: int| from <= k < edges.len() ==> ready(p, #[trigger] edges[k], room),
    ensures
        ({
            let q = values_passed(p, edges, list, inserted, skip, from);
            &&& q.blocks == p.blocks
            &&& q.funcs == p.funcs
            &&& q.insts.len() == p.insts.len()
            &&& forall|x: Edge| #[trigger] edge_target(q, x) == edge_target(p, x)
            &&& forall|y: Inst|
                (forall|k: int| from <= k < edges.len() ==> (#[trigger] edges[k]).terminator != y) ==> #[trigger] q.inst(y)
                    == p.inst(y)
        }),
    decreases edges.len() - from,
{
    if from < edges.len() && from < list.len() {
        if from == skip {
            lemma_passing_keeps(p, edges, list, inserted, skip, from + 1, room);
        } else {
            let e = edges[from];
            let v = passed(list, inserted, from);
            let q = arg_appended(p, e, v);
            let b = edge_target(p, e)->0;
            assert(q == redirected(p, e, b, edge_args(p, e).push(v)));
            assert forall|k: int| from + 1 <= k < edges.len() implies ready(q, #[trigger] edges[k], room - 1) by {
                lemma_redirected(p, e, b, edge_args(p, e).push(v), edges[k], room);
            }
            lemma_redirected(p, e, b, edge_args(p, e).push(v), e, room);
            assert forall|x: Edge| #[trigger] edge_target(q, x) == edge_target(p, x) by {
                reveal(ProgramV::set_inst);
            }
            lemma_passing_keeps(q, edges, list, inserted, skip, from + 1, room - 1);
            let r = values_passed(p, edges, list, inserted, skip, from);
            assert forall|x: Edge| #[trigger] edge_target(r, x) == edge_target(p, x) by {
                assert(edge_target(q, x) == edge_target(p, x));
            }
            assert forall|y: Inst|
                (forall|k: int| from <= k < edges.len() ==> (#[trigger] edges[k]).terminator != y) implies #[trigger] r.inst(y)
                == p.inst(y) by {
                assert(edges[from].terminator != y);
                assert(q.inst(y) == p.inst(y));
            }
        }
    }
}

/// Where a parameter takes the place of `i`, edges pass it for `i` and lead where they led.
proof fn lemma_placed_param(p: ProgramV, b: BasicBlock, i: Inst)
    requires
        b.0 < p.blocks.len(),
        i.0 < p.insts.len(),
        p.insts.len() < usize::MAX,
    ensures
        ({
            let q = replaced_by_param(p, b, i);
            let param = p.next_inst();
            &&& q.block(b).params == p.block(b).params.push(param)
            &&& q.block(b).insts == without(p.block(b).insts, i)
            &&& forall|c: BasicBlock| c != b ==> #[trigger] q.block(c) == p.block(c)
            &&& q.insts.len() == p.insts.len() + 1
            &&& !q.is_used(i)
            &&& forall|x: Inst|
                x.0 < p.insts.len() && x != i ==> #[trigger] q.op(x) == p.op(x) && q.ty(x) == p.ty(x) && q.args(x) == with_result(
                    p.args(x),
                    i,
                    param,
                )
        }),
{
    reveal(ProgramV::push_inst);
    reveal(ProgramV::set_block_params);
    reveal(ProgramV::set_block_insts);
    reveal(ProgramV::replace_uses);
    reveal(ProgramV::set_inst);
    let param = p.next_inst();
    let q = p.add_param(b, p.ty(i));
    let r = q.replace_uses(i, param);
    let s = replaced_by_param(p, b, i);
    assert forall|x: Inst| x.0 < p.insts.len() && x != i implies #[trigger] s.op(x) == p.op(x) && s.ty(x) == p.ty(x)
        && s.args(x) == with_result(p.args(x), i, param) by {
        assert(s.insts[x.0 as int] == r.insts[x.0 as int]);
        assert(r.insts[x.0 as int] == q.insts[x.0 as int].replaced(i, param));
        assert(q.insts[x.0 as int] == p.insts[x.0 as int]);
        assert(s.args(x) =~= with_result(p.args(x), i, param));
    }
    assert forall|u: int| 0 <= u < s.insts.len() implies !(#[trigger] s.insts[u]).args.contains(i) by {
        if u != i.0 {
            assert(s.insts[u] == r.insts[u]);
            assert(r.insts[u] == q.insts[u].replaced(i, param));
        }
    }
}

proof fn lemma_edge_replaced(p: ProgramV, q: ProgramV, i: Inst, param: Inst, x: Edge)
    requires
        q.op(x.terminator) == p.op(x.terminator),
        q.args(x.terminator) == with_result(p.args(x.terminator), i, param),
    ensures
        edge_args(q, x) == with_result(edge_args(p, x), i, param),
        edge_target(q, x) == edge_target(p, x),
{
    let t = x.terminator;
    assert(q.t_args(t) =~= with_result(p.t_args(t), i, param));
    assert(q.f_args(t) =~= with_result(p.f_args(t), i, param));
}

proof fn lemma_found(
    p: ProgramV,
    f: Function,
    tree: TreeV,
    order: Seq<BasicBlock>,
    from: int,
)
    requires
        0 <= from,
    ensures
        found_from(p, f, value_numbers(p), tree, order, from) matches Some((b, i, list)) ==> {
            let edges = incoming(p, order, b);
            &&& is_join(p, tree, b, edges)
            &&& p.block(b).insts.contains(i)
            &&& p.op(i) is Binary
            &&& p.ty(i) is I32
            &&& offers(p, f, value_numbers(p), tree, order, b, i, p.op(i)->Binary_0, edges, 0, Seq::empty()) == Some(list)
            &&& worthwhile(list)
        },
    decreases order.len() - from,
{
    if from < order.len() {
        let b = order[from];
        let edges = incoming(p, order, b);
        lemma_found_in(p, f, tree, order, b, p.block(b).insts, edges, 0);
        lemma_found(p, f, tree, order, from + 1);
    }
}

proof fn lemma_found_in(
    p: ProgramV,
    f: Function,
    tree: TreeV,
    order: Seq<BasicBlock>,
    b: BasicBlock,
    insts: Seq<Inst>,
    edges: Seq<Edge>,
    from: int,
)
    requires
        0 <= from,
    ensures
        found_in(p, f, value_numbers(p), tree, order, b, insts, edges, from) matches Some((i, list)) ==> {
            &&& insts.contains(i)
            &&& chosen(p, f, value_numbers(p), tree, order, b, i, edges) == Some(list)
        },
    decreases insts.len() - from,
{
    if from < insts.len() {
        lemma_found_in(p, f, tree, order, b, insts, edges, from + 1);
        assert(insts.contains(insts[from]));
    }
}

proof fn lemma_gaps(list: Seq<Offer>, from: int)
    requires
        0 <= from <= list.len(),
    ensures
        gaps(list, from) == 0 ==> forall|k: int| from <= k < list.len() ==> (#[trigger] list[k]).leader is Some,
        from <= first_gap(list, from) <= list.len(),
        gaps(list, from) > 0 ==> first_gap(list, from) < list.len() && list[first_gap(list, from)].leader is None,
        gaps(list, from) == 1 ==> forall|k: int|
            from <= k < list.len() && k != first_gap(list, from) ==> (#[trigger] list[k]).leader is Some,
    decreases list.len() - from,
{
    if from < list.len() {
        lemma_gaps(list, from + 1);
    }
}

/// The edges into a block are told apart by where they leave and how.
proof fn lemma_distinct(p: ProgramV, order: Seq<BasicBlock>, b: BasicBlock, from: int, found: Seq<Edge>)
    requires
        0 <= from <= order.len(),
        placed_once(p),
        order.no_duplicates(),
        p.insts.len() <= usize::MAX,
        all_distinct(found),
        forall|k: int| 0 <= k < found.len() ==> leaves(p, #[trigger] found[k]) && order.take(from).contains(found[k].from),
    ensures
        all_distinct(incoming_from(p, order, b, from, found)),
    decreases order.len() - from,
{
    if from < order.len() {
        let t = p.terminator(order[from]);
        let jump = Edge { from: order[from], terminator: t, arm: EdgeArm::Jump };
        let on_true = Edge { from: order[from], terminator: t, arm: EdgeArm::True };
        let on_false = Edge { from: order[from], terminator: t, arm: EdgeArm::False };
        let tail = match p.op(t) {
            Op::Jump(x) => if x == b {
                found.push(jump)
            } else {
                found
            },
            Op::Branch(x, y, _) => {
                let one = if x == b {
                    found.push(on_true)
                } else {
                    found
                };
                if y == b {
                    one.push(on_false)
                } else {
                    one
                }
            },
            _ => found,
        };
        let c = order[from];
        assert forall|k: int| 0 <= k < found.len() && p.block(c).insts.len() > 0 implies (#[trigger] found[k]).terminator != t by {
            let d = found[k].from;
            let j = order.take(from).index_of(d);
            assert(order[j] == d && j != from);
            if found[k].terminator == t {
                let x = p.block(d).params.len() + p.block(d).insts.len() - 1;
                let y = p.block(c).params.len() + p.block(c).insts.len() - 1;
                assert(stands(p, d, x, t) && stands(p, c, y, t));
            }
        }
        assert(order.take(from + 1)[from] == c);
        assert forall|k: int| 0 <= k < tail.len() implies leaves(p, #[trigger] tail[k]) && order.take(from + 1).contains(
            tail[k].from,
        ) by {
            if k < found.len() {
                assert(tail[k] == found[k]);
                let j = order.take(from).index_of(found[k].from);
                assert(order.take(from + 1)[j] == found[k].from);
            } else {
                assert(order.take(from + 1).contains(c));
            }
        }
        assert(all_distinct(tail)) by {
            assert forall|j: int, k: int| 0 <= j < k < tail.len() implies (#[trigger] tail[j]).terminator != (
            #[trigger] tail[k]).terminator || tail[j].arm != tail[k].arm by {
                if k < found.len() {
                    assert(tail[j] == found[j] && tail[k] == found[k]);
                } else if j < found.len() {
                    assert(tail[j] == found[j]);
                }
            }
        }
        lemma_distinct(p, order, b, from + 1, tail);
        assert(incoming_from(p, order, b, from, found) == incoming_from(p, order, b, from + 1, tail));
    }
}

/// A value that is at hand at the end of an edge into the join is not a computation of the join.
proof fn lemma_not_here(p: ProgramV, f: Function, order: Seq<BasicBlock>, b: BasicBlock, i: Inst, e: Edge, x: Inst)
    requires
        is_joinable(p, f, order, b),
        p.block(b).insts.contains(i),
        p.op(i) is Binary,
        !tree_of(p, f).dominates(b, e.from),
        at_hand(p, f, tree_of(p, f), x, e.from),
    ensures
        x != i,
{
    let k = p.block(b).insts.index_of(i);
    let at = p.block(b).params.len() + k;
    assert(stands(p, b, at, i));
    if x == i {
        let tree = tree_of(p, f);
        let end = crate::visibility::end_of(p, e.from);
        assert(above(p, tree, i, e.from, end));
        let (c, j) = choose|c: BasicBlock, j: int| #[trigger] stands(p, c, j, i) && precedes(tree, c, j, e.from, end);
        assert(c == b);
        assert(b != e.from);
    }
}

/// What is passed along edge `k` once a parameter took the place of `i`.
proof fn lemma_brought(
    p: ProgramV,
    r: ProgramV,
    b: BasicBlock,
    i: Inst,
    edges: Seq<Edge>,
    list: Seq<Offer>,
    inserted: Inst,
    skip: int,
    k: int,
)
    requires
        0 <= k < edges.len(),
        edges.len() == list.len(),
        all_distinct(edges),
        forall|j: int| 0 <= j < edges.len() ==> ready(r, #[trigger] edges[j], edges.len() as int),
        forall|j: int| 0 <= j < edges.len() ==> edges[j].terminator != i,
        b.0 < r.blocks.len(),
        i.0 < r.insts.len(),
        r.insts.len() < usize::MAX,
    ensures
        ({
            let s = values_passed(r, edges, list, inserted, skip, 0);
            let q = replaced_by_param(s, b, i);
            let param = r.next_inst();
            &&& q.block(b).params == r.block(b).params.push(param)
            &&& q.block(b).insts == without(r.block(b).insts, i)
            &&& forall|c: BasicBlock| c != b ==> #[trigger] q.block(c) == r.block(c)
            &&& !q.is_used(i)
            &&& edge_target(q, edges[k]) == edge_target(r, edges[k])
            &&& edge_args(q, edges[k]) == with_result(
                if k == skip {
                    edge_args(r, edges[k])
                } else {
                    edge_args(r, edges[k]).push(passed(list, inserted, k))
                },
                i,
                param,
            )
            &&& forall|x: Inst|
                x.0 < r.insts.len() && x != i && (forall|j: int| 0 <= j < edges.len() ==> (#[trigger] edges[j]).terminator != x)
                    ==> #[trigger] q.op(x) == r.op(x) && q.ty(x) == r.ty(x) && q.args(x) == with_result(r.args(x), i, param)
        }),
{
    let s = values_passed(r, edges, list, inserted, skip, 0);
    let q = replaced_by_param(s, b, i);
    let param = r.next_inst();
    lemma_passing_keeps(r, edges, list, inserted, skip, 0, edges.len() as int);
    edges_pass_what_they_offer(r, edges, list, inserted, skip, k);
    lemma_placed_param(s, b, i);
    let t = edges[k].terminator;
    assert(ready(r, edges[k], edges.len() as int));
    assert(q.op(t) == s.op(t));
    lemma_edge_replaced(s, q, i, param, edges[k]);
    assert(edge_target(s, edges[k]) == edge_target(r, edges[k]));
    assert forall|x: Inst|
        x.0 < r.insts.len() && x != i && (forall|j: int| 0 <= j < edges.len() ==> (#[trigger] edges[j]).terminator != x) implies #[trigger] q.op(
        x,
    ) == r.op(x) && q.ty(x) == r.ty(x) && q.args(x) == with_result(r.args(x), i, param) by {
        assert(s.inst(x) == r.inst(x));
        assert(q.op(x) == s.op(x));
    }
}

/// What comes out where the offers `list` are taken for computation `i` of `b`.
pub open spec fn is_joined(
    p: ProgramV,
    q: ProgramV,
    b: BasicBlock,
    i: Inst,
    edges: Seq<Edge>,
    e: Edge,
    m: Meaning,
    env: spec_fn(Inst) -> int,
) -> bool {
    &&& gives_up(p, q, b, i)
    &&& exists|v: Inst| #[trigger] brings(p, q, b, i, e, v) && amounts_to(p, q, m, env, v, owed(p, b, i, e, m, env))
    &&& forall|x: Inst|
        x.0 < p.insts.len() && x != i && (forall|j: int| 0 <= j < edges.len() ==> (#[trigger] edges[j]).terminator != x)
            ==> #[trigger] is_kept(p, q, b, i, x)
}

proof fn lemma_extended(args: Seq<Inst>, v: Inst, i: Inst, param: Inst)
    requires
        v != i,
    ensures
        with_result(args.push(v), i, param) == with_result(args, i, param).push(v),
{
    assert(with_result(args.push(v), i, param) =~= with_result(args, i, param).push(v));
}

/// What the offer for edge `k` stands for, and that nothing of it is computation `i` itself.
proof fn lemma_offered(
    p: ProgramV,
    f: Function,
    b: BasicBlock,
    i: Inst,
    list: Seq<Offer>,
    k: int,
    m: Meaning,
    env: spec_fn(Inst) -> int,
)
    requires
        is_joinable(p, f, reverse_postorder(p, f), b),
        found_from(p, f, value_numbers(p), tree_of(p, f), reverse_postorder(p, f), 0) == Some((b, i, list)),
        computes(p, i32_scope(), m, env),
        symmetric(m),
        numbers_of(p).keys.len() < usize::MAX,
        forall|x: Inst| #[trigger] p.op(x) is Binary ==> p.args(x).len() == 2,
        0 <= k < incoming(p, reverse_postorder(p, f), b).len(),
    ensures
        ({
            let e = incoming(p, reverse_postorder(p, f), b)[k];
            let o = list[k];
            &&& list.len() == incoming(p, reverse_postorder(p, f), b).len()
            &&& leaves(p, e)
            &&& e.from != b
            &&& o.lhs != i
            &&& o.rhs != i
            &&& o.leader != Some(i)
            &&& e.terminator != i
            &&& result_of(m, p.op(i)->Binary_0, env(o.lhs), env(o.rhs)) == owed(p, b, i, e, m, env)
            &&& o.leader matches Some(x) ==> env(x) == owed(p, b, i, e, m, env)
            &&& edge_target(p, e) == Some(b)
        }),
{
    let order = reverse_postorder(p, f);
    let tree = tree_of(p, f);
    let edges = incoming(p, order, b);
    let e = edges[k];
    let op = p.op(i)->Binary_0;
    lemma_found(p, f, tree, order, 0);
    lemma_incoming(p, order, b, 0, Seq::empty());
    lemma_offers(p, f, value_numbers(p), tree, order, b, i, op, edges, 0, Seq::empty());
    assert(offer(p, f, value_numbers(p), tree, order, b, i, op, e) == Some(list[k]));
    offered_values_are_the_computed_ones(p, f, tree, order, b, i, op, e, m, env);
    edges_offer_what_is_there(p, f, value_numbers(p), tree, order, b, i, op, k);
    assert(tree.dominates(b, b));
    assert(!tree.dominates(b, edges[k].from));
    lemma_not_here(p, f, order, b, i, e, list[k].lhs);
    lemma_not_here(p, f, order, b, i, e, list[k].rhs);
    match list[k].leader {
        Some(x) => lemma_not_here(p, f, order, b, i, e, x),
        None => {},
    }
    assert(leaves(p, e));
    assert(ready(p, e, edges.len() as int + 2));
    lemma_lead(p, order, b, 0, Seq::empty());
}

proof fn lemma_lead(p: ProgramV, order: Seq<BasicBlock>, b: BasicBlock, from: int, found: Seq<Edge>)
    requires
        0 <= from,
        forall|k: int| 0 <= k < found.len() ==> edge_target(p, #[trigger] found[k]) == Some(b),
    ensures
        forall|k: int|
            0 <= k < incoming_from(p, order, b, from, found).len() ==> edge_target(
                p,
                #[trigger] incoming_from(p, order, b, from, found)[k],
            ) == Some(b),
    decreases order.len() - from,
{
    if from < order.len() {
        let t = p.terminator(order[from]);
        let jump = Edge { from: order[from], terminator: t, arm: EdgeArm::Jump };
        let on_true = Edge { from: order[from], terminator: t, arm: EdgeArm::True };
        let on_false = Edge { from: order[from], terminator: t, arm: EdgeArm::False };
        let tail = match p.op(t) {
            Op::Jump(x) => if x == b {
                found.push(jump)
            } else {
                found
            },
            Op::Branch(x, y, _) => {
                let one = if x == b {
                    found.push(on_true)
                } else {
                    found
                };
                if y == b {
                    one.push(on_false)
                } else {
                    one
                }
            },
            _ => found,
        };
        lemma_lead(p, order, b, from + 1, tail);
        assert(incoming_from(p, order, b, from, found) == incoming_from(p, order, b, from + 1, tail));
    }
}

proof fn lemma_all_offered(
    p: ProgramV,
    f: Function,
    b: BasicBlock,
    i: Inst,
    list: Seq<Offer>,
    m: Meaning,
    env: spec_fn(Inst) -> int,
)
    requires
        is_joinable(p, f, reverse_postorder(p, f), b),
        found_from(p, f, value_numbers(p), tree_of(p, f), reverse_postorder(p, f), 0) == Some((b, i, list)),
        computes(p, i32_scope(), m, env),
        symmetric(m),
        numbers_of(p).keys.len() < usize::MAX,
        forall|x: Inst| #[trigger] p.op(x) is Binary ==> p.args(x).len() == 2,
    ensures
        ({
            let edges = incoming(p, reverse_postorder(p, f), b);
            &&& list.len() == edges.len()
            &&& edges.len() >= 2
            &&& all_distinct(edges)
            &&& forall|j: int| 0 <= j < edges.len() ==> (#[trigger] edges[j]).terminator != i
            &&& p.block(b).insts.contains(i)
            &&& b.0 < p.blocks.len()
            &&& i.0 < p.insts.len()
            &&& p.op(i) is Binary
        }),
{
    let order = reverse_postorder(p, f);
    let edges = incoming(p, order, b);
    lemma_found(p, f, tree_of(p, f), order, 0);
    lemma_offered(p, f, b, i, list, 0, m, env);
    assert forall|j: int| 0 <= j < edges.len() implies (#[trigger] edges[j]).terminator != i by {
        lemma_offered(p, f, b, i, list, j, m, env);
    }
    crate::walking::lemma_order_once(p, f);
    lemma_distinct(p, order, b, 0, Seq::empty());
    let k = p.block(b).insts.index_of(i);
    assert(stands(p, b, p.block(b).params.len() + k, i));
}

proof fn lemma_nothing_missing(
    p: ProgramV,
    f: Function,
    b: BasicBlock,
    i: Inst,
    list: Seq<Offer>,
    k: int,
    m: Meaning,
    env: spec_fn(Inst) -> int,
)
    requires
        is_joinable(p, f, reverse_postorder(p, f), b),
        found_from(p, f, value_numbers(p), tree_of(p, f), reverse_postorder(p, f), 0) == Some((b, i, list)),
        computes(p, i32_scope(), m, env),
        symmetric(m),
        numbers_of(p).keys.len() < usize::MAX,
        forall|x: Inst| #[trigger] p.op(x) is Binary ==> p.args(x).len() == 2,
        0 <= k < incoming(p, reverse_postorder(p, f), b).len(),
        gaps(list, 0) == 0,
    ensures
        ({
            let edges = incoming(p, reverse_postorder(p, f), b);
            is_joined(p, applied(p, b, i, edges, list), b, i, edges, edges[k], m, env)
        }),
{
    let edges = incoming(p, reverse_postorder(p, f), b);
    let e = edges[k];
    lemma_all_offered(p, f, b, i, list, m, env);
    lemma_offered(p, f, b, i, list, k, m, env);
    lemma_gaps(list, 0);
    assert forall|j: int| 0 <= j < edges.len() implies ready(p, #[trigger] edges[j], edges.len() as int) by {
        assert(ready(p, edges[j], edges.len() as int + 2));
    }
    lemma_brought(p, p, b, i, edges, list, i, -1, k);
    let q = applied(p, b, i, edges, list);
    let v = list[k].leader->0;
    let param = p.next_inst();
    assert(list[k].leader is Some);
    assert(q.block(b).params.last() == param);
    lemma_extended(edge_args(p, e), v, i, param);
    assert(v.0 < p.insts.len()) by {
        lemma_leader_there(p, f, b, i, list, k);
    }
    assert(brings(p, q, b, i, e, v));
    assert(amounts_to(p, q, m, env, v, owed(p, b, i, e, m, env)));
}

/// What an edge offers is a value of the program.
proof fn lemma_leader_there(p: ProgramV, f: Function, b: BasicBlock, i: Inst, list: Seq<Offer>, k: int)
    requires
        is_joinable(p, f, reverse_postorder(p, f), b),
        found_from(p, f, value_numbers(p), tree_of(p, f), reverse_postorder(p, f), 0) == Some((b, i, list)),
        0 <= k < incoming(p, reverse_postorder(p, f), b).len(),
    ensures
        list.len() == incoming(p, reverse_postorder(p, f), b).len(),
        list[k].lhs.0 < p.insts.len(),
        list[k].rhs.0 < p.insts.len(),
        list[k].leader matches Some(x) ==> x.0 < p.insts.len(),
{
    let order = reverse_postorder(p, f);
    let tree = tree_of(p, f);
    let edges = incoming(p, order, b);
    let op = p.op(i)->Binary_0;
    lemma_found(p, f, tree, order, 0);
    lemma_offers(p, f, value_numbers(p), tree, order, b, i, op, edges, 0, Seq::empty());
    let o = list[k];
    assert(offer(p, f, value_numbers(p), tree, order, b, i, op, edges[k]) == Some(list[k]));
    // Operands are of type `i32`, which only values of the program have, and so is a leader.
    assert(p.ty(o.lhs) is I32 && p.ty(o.rhs) is I32);
    match o.leader {
        Some(x) => {
            assert(p.ty(x) == p.ty(i));
        },
        None => {},
    }
}

#[verifier::rlimit(60)]
proof fn lemma_inserted_before(
    p: ProgramV,
    f: Function,
    b: BasicBlock,
    i: Inst,
    list: Seq<Offer>,
    k: int,
    gap: int,
    m: Meaning,
    env: spec_fn(Inst) -> int,
)
    requires
        is_joinable(p, f, reverse_postorder(p, f), b),
        found_from(p, f, value_numbers(p), tree_of(p, f), reverse_postorder(p, f), 0) == Some((b, i, list)),
        computes(p, i32_scope(), m, env),
        symmetric(m),
        numbers_of(p).keys.len() < usize::MAX,
        forall|x: Inst| #[trigger] p.op(x) is Binary ==> p.args(x).len() == 2,
        0 <= k < incoming(p, reverse_postorder(p, f), b).len(),
        gaps(list, 0) == 1,
        gap == first_gap(list, 0),
        incoming(p, reverse_postorder(p, f), b)[gap].arm is Jump,
    ensures
        ({
            let edges = incoming(p, reverse_postorder(p, f), b);
            let q = applied_with_insertion(p, f, b, i, edges, list, gap, p.op(i)->Binary_0);
            is_joined(p, q, b, i, edges, edges[k], m, env)
        }),
{
    let edges = incoming(p, reverse_postorder(p, f), b);
    let op = p.op(i)->Binary_0;
    lemma_all_offered(p, f, b, i, list, m, env);
    lemma_gaps(list, 0);
    lemma_offered(p, f, b, i, list, k, m, env);
    lemma_offered(p, f, b, i, list, gap, m, env);
    lemma_leader_there(p, f, b, i, list, k);
    lemma_leader_there(p, f, b, i, list, gap);
    let g = edges[gap];
    let e = edges[k];
    let inserted = p.next_inst();
    let lhs = list[gap].lhs;
    let rhs = list[gap].rhs;
    let q1 = p.push_inst(Op::Binary(op), seq![lhs, rhs], p.binary_ty(op, lhs), false);
    let r = q1.set_block_insts(g.from, before(q1.block(g.from).insts, g.terminator, inserted));
    let q = applied_with_insertion(p, f, b, i, edges, list, gap, op);
    let param = r.next_inst();
    reveal(ProgramV::push_inst);
    reveal(ProgramV::set_block_insts);
    assert forall|x: Inst| x.0 < p.insts.len() implies #[trigger] r.inst(x) == p.inst(x) by {}
    assert forall|j: int| 0 <= j < edges.len() implies ready(r, #[trigger] edges[j], edges.len() as int) by {
        assert(ready(p, edges[j], edges.len() as int + 2));
        assert(r.inst(edges[j].terminator) == p.inst(edges[j].terminator));
    }
    lemma_brought(p, r, b, i, edges, list, inserted, -1, k);
    assert(r.block(b) == p.block(b));
    assert(q.block(b).params.last() == param);
    assert forall|j: int| 0 <= j < edges.len() implies (#[trigger] edges[j]).terminator != inserted by {
        assert(ready(p, edges[j], edges.len() as int + 2));
    }
    assert(r.inst(e.terminator) == p.inst(e.terminator)) by {
        assert(ready(p, e, edges.len() as int + 2));
    }
    assert(edge_args(r, e) == edge_args(p, e) && edge_target(r, e) == edge_target(p, e));
    let v = passed(list, inserted, k);
    lemma_extended(edge_args(p, e), v, i, param);
    assert(q.op(inserted) == r.op(inserted));
    assert(q.args(inserted) =~= seq![lhs, rhs]);
    let insts = p.block(g.from).insts;
    assert(before(insts, g.terminator, inserted) =~= insts.drop_last().push(inserted).push(g.terminator)) by {
        lemma_last_place(p, g.from);
    }
    assert(k == gap ==> v == inserted);
    assert(brings(p, q, b, i, e, v));
    assert(amounts_to(p, q, m, env, v, owed(p, b, i, e, m, env)));
    assert forall|x: Inst|
        x.0 < p.insts.len() && x != i && (forall|j: int| 0 <= j < edges.len() ==> (#[trigger] edges[j]).terminator != x) implies #[trigger] is_kept(
        p,
        q,
        b,
        i,
        x,
    ) by {
        assert(r.inst(x) == p.inst(x));
        assert(q.op(x) == r.op(x));
    }
}

/// What ends a block stands only at its end.
proof fn lemma_last_place(p: ProgramV, c: BasicBlock)
    requires
        placed_once(p),
        p.block(c).insts.len() > 0,
    ensures
        position(p.block(c).insts, p.terminator(c), 0) == p.block(c).insts.len() - 1,
{
    let insts = p.block(c).insts;
    let t = p.terminator(c);
    let n = p.block(c).params.len() as int;
    position_is_first(insts, t, 0);
    let at = position(insts, t, 0);
    let last = insts.len() - 1;
    assert(insts[last] == t);
    assert(at <= last);
    assert(stands(p, c, n + at, t) && stands(p, c, n + last, t));
}

#[verifier::rlimit(80)]
proof fn lemma_inserted_between(
    p: ProgramV,
    f: Function,
    b: BasicBlock,
    i: Inst,
    list: Seq<Offer>,
    k: int,
    gap: int,
    m: Meaning,
    env: spec_fn(Inst) -> int,
)
    requires
        is_joinable(p, f, reverse_postorder(p, f), b),
        found_from(p, f, value_numbers(p), tree_of(p, f), reverse_postorder(p, f), 0) == Some((b, i, list)),
        computes(p, i32_scope(), m, env),
        symmetric(m),
        numbers_of(p).keys.len() < usize::MAX,
        forall|x: Inst| #[trigger] p.op(x) is Binary ==> p.args(x).len() == 2,
        0 <= k < incoming(p, reverse_postorder(p, f), b).len(),
        gaps(list, 0) == 1,
        gap == first_gap(list, 0),
        !(incoming(p, reverse_postorder(p, f), b)[gap].arm is Jump),
    ensures
        ({
            let edges = incoming(p, reverse_postorder(p, f), b);
            let q = applied_with_insertion(p, f, b, i, edges, list, gap, p.op(i)->Binary_0);
            is_joined(p, q, b, i, edges, edges[k], m, env)
        }),
{
    let edges = incoming(p, reverse_postorder(p, f), b);
    let op = p.op(i)->Binary_0;
    lemma_all_offered(p, f, b, i, list, m, env);
    lemma_gaps(list, 0);
    lemma_offered(p, f, b, i, list, k, m, env);
    lemma_offered(p, f, b, i, list, gap, m, env);
    lemma_leader_there(p, f, b, i, list, k);
    lemma_leader_there(p, f, b, i, list, gap);
    let g = edges[gap];
    let e = edges[k];
    let n = edges.len() as int;
    let inserted = p.next_inst();
    let lhs = list[gap].lhs;
    let rhs = list[gap].rhs;
    let q1 = p.push_inst(Op::Binary(op), seq![lhs, rhs], p.binary_ty(op, lhs), false);
    let split = q1.next_block();
    let none = Seq::<Type>::empty();
    let r = q1.basic_block("gvn_pre_split"@, none).push_bb_back(f, split).append(split, inserted);
    let s = redirected(r, g, split, Seq::empty());
    let jump = s.next_inst();
    let args = edge_args(q1, g);
    let t = s.push_inst(Op::Jump(b), args.push(inserted), Type::Unit, false).append(split, jump);
    let q = applied_with_insertion(p, f, b, i, edges, list, gap, op);
    reveal(ProgramV::push_inst);
    reveal(ProgramV::push_block);
    reveal(ProgramV::set_func_blocks);
    reveal(ProgramV::set_block_insts);
    assert(r.insts == q1.insts);
    assert(r.blocks.len() == p.blocks.len() + 1);
    assert(r.block(split).insts =~= seq![inserted]);
    assert(r.block(split).params.len() == 0);
    assert forall|c: BasicBlock| c != split implies #[trigger] r.block(c) == p.block(c) by {}
    assert forall|x: Inst| x.0 < p.insts.len() implies #[trigger] r.inst(x) == p.inst(x) by {}
    assert forall|j: int| 0 <= j < n implies ready(r, #[trigger] edges[j], n + 2) && edge_args(r, edges[j]) == edge_args(
        p,
        edges[j],
    ) && edge_target(r, edges[j]) == edge_target(p, edges[j]) by {
        assert(ready(p, edges[j], n + 2));
        assert(r.inst(edges[j].terminator) == p.inst(edges[j].terminator));
    }
    assert(edge_args(q1, g) == edge_args(p, g)) by {
        assert(q1.inst(g.terminator) == r.inst(g.terminator));
    }
    assert forall|j: int| 0 <= j < n implies ready(s, #[trigger] edges[j], n + 1) && (j != gap ==> edge_args(s, edges[j])
        == edge_args(p, edges[j]) && edge_target(s, edges[j]) == edge_target(p, edges[j])) by {
        lemma_redirected(r, g, split, Seq::empty(), edges[j], n + 2);
        if j < gap {
            assert(edges[j].terminator != edges[gap].terminator || edges[j].arm != edges[gap].arm);
        } else if j > gap {
            assert(edges[gap].terminator != edges[j].terminator || edges[gap].arm != edges[j].arm);
        }
    }
    lemma_redirected(r, g, split, Seq::empty(), g, n + 2);
    assert forall|x: Inst| x.0 < s.insts.len() implies #[trigger] t.inst(x) == s.inst(x) by {}
    assert forall|j: int| 0 <= j < n implies ready(t, #[trigger] edges[j], n) && edge_args(t, edges[j]) == edge_args(
        s,
        edges[j],
    ) && edge_target(t, edges[j]) == edge_target(s, edges[j]) by {
        assert(ready(s, edges[j], n + 1));
        assert(t.inst(edges[j].terminator) == s.inst(edges[j].terminator));
    }
    assert(t.block(split).insts =~= seq![inserted, jump]);
    assert(t.block(b) == p.block(b));
    assert(t.insts.len() == p.insts.len() + 2);
    lemma_brought(p, t, b, i, edges, list, inserted, gap, k);
    lemma_brought(p, t, b, i, edges, list, inserted, gap, gap);
    let param = t.next_inst();
    assert(q.block(b).params.last() == param);
    assert forall|j: int| 0 <= j < edges.len() implies (#[trigger] edges[j]).terminator != inserted && edges[j].terminator
        != jump by {
        assert(ready(p, edges[j], n + 2));
    }
    assert(q.op(inserted) == t.op(inserted));
    assert(t.inst(inserted) == s.inst(inserted));
    assert(s.inst(inserted) == r.inst(inserted));
    assert(q.args(inserted) =~= seq![lhs, rhs]);
    assert(q.op(jump) == t.op(jump));
    lemma_extended(edge_args(p, g), inserted, i, param);
    assert(q.args(jump) == with_result(edge_args(p, g), i, param).push(inserted));
    let v = passed(list, inserted, k);
    if k == gap {
        assert(v == inserted);
        assert(q.block(split) == t.block(split));
        assert(q.terminator(split) == jump);
        assert(edge_args(q, e).len() == 0);
    } else {
        lemma_extended(edge_args(p, e), v, i, param);
    }
    assert(brings(p, q, b, i, e, v));
    assert(amounts_to(p, q, m, env, v, owed(p, b, i, e, m, env)));
    assert forall|x: Inst|
        x.0 < p.insts.len() && x != i && (forall|j: int| 0 <= j < edges.len() ==> (#[trigger] edges[j]).terminator != x) implies #[trigger] is_kept(
        p,
        q,
        b,
        i,
        x,
    ) by {
        assert(edges[gap].terminator != x);
        assert(t.inst(x) == s.inst(x));
        assert(s.inst(x) == r.inst(x));
        assert(r.inst(x) == p.inst(x));
        assert(q.op(x) == t.op(x));
    }
}

/// Where a computation of a join is replaced, the join gets by each of its edges, as one parameter more, the value that
/// the computation has on arriving by that edge: one that is there, or one that is inserted on the edge and computes
/// it. Nothing uses the computation any more, and all else is as it was.
pub proof fn joins_get_what_they_computed(
    p: ProgramV,
    f: Function,
    b: BasicBlock,
    i: Inst,
    list: Seq<Offer>,
    k: int,
    m: Meaning,
    env: spec_fn(Inst) -> int,
)
    requires
        entry_of(p, f) is Some,
        found_from(p, f, value_numbers(p), tree_of(p, f), reverse_postorder(p, f), 0) == Some((b, i, list)),
        is_joinable(p, f, reverse_postorder(p, f), b),
        computes(p, i32_scope(), m, env),
        symmetric(m),
        numbers_of(p).keys.len() < usize::MAX,
        forall|x: Inst| #[trigger] p.op(x) is Binary ==> p.args(x).len() == 2,
        0 <= k < incoming(p, reverse_postorder(p, f), b).len(),
    ensures
        ({
            let edges = incoming(p, reverse_postorder(p, f), b);
            let (q, changed) = joined_once(p, f);
            changed && is_joined(p, q, b, i, edges, edges[k], m, env)
        }),
{
    let edges = incoming(p, reverse_postorder(p, f), b);
    lemma_found(p, f, tree_of(p, f), reverse_postorder(p, f), 0);
    lemma_all_offered(p, f, b, i, list, m, env);
    lemma_gaps(list, 0);
    if gaps(list, 0) == 0 {
        lemma_nothing_missing(p, f, b, i, list, k, m, env);
    } else {
        let gap = first_gap(list, 0);
        if edges[gap].arm is Jump {
            lemma_inserted_before(p, f, b, i, list, k, gap, m, env);
        } else {
            lemma_inserted_between(p, f, b, i, list, k, gap, m, env);
        }
    }
}

} // verus!
