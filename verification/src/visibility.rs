//! Code that is moved or joined uses values only where they are there.

use vstd::prelude::*;

use crate::cfg::TreeV;
use crate::edges::{incoming, incoming_from, Edge, EdgeArm};
use crate::graph::reach_in;
use crate::gvn_pre::{home, offer, offers, param_home, usable, Offer};
use crate::if_conversion::{
    can_hoist, candidate_at, dominates_by, is_available, is_const, merged, moves_from, param_block_from,
    MergedValue,
};
use crate::ir::{position, BasicBlock, BinaryOp, Function, Inst, Op, ProgramV};
use crate::merging::{lemma_merged_from, way};
use crate::scoping::{above, placed_once, precedes, stands, values_of};

verus! {

/// The place of the transfer that ends block `b`.
pub open spec fn end_of(p: ProgramV, b: BasicBlock) -> int {
    values_of(p, b).len() - 1
}

/// Value `v` is the same in all of `f`, or every walk to the end of block `b` has come past it.
pub open spec fn at_hand(p: ProgramV, f: Function, tree: TreeV, v: Inst, b: BasicBlock) -> bool {
    p.inst(v).global || is_const(p.op(v)) || p.func(f).params.contains(v) || above(p, tree, v, b, end_of(p, b))
}

proof fn lemma_entry_first(edges: Seq<(usize, usize)>, entry: int, t: int, n: nat)
    ensures
        !reach_in(edges, entry, entry, t, n),
    decreases n,
{
    if n > 0 {
        assert forall|k: int| 0 <= k < edges.len() implies !reach_in(
            edges,
            entry,
            entry,
            (#[trigger] edges[k]).0 as int,
            (n - 1) as nat,
        ) by {
            lemma_entry_first(edges, entry, edges[k].0 as int, (n - 1) as nat);
        }
    }
}

/// The entry dominates every block that is reached, and so a block that dominates by `dominates_by` does.
proof fn lemma_dominates_by(tree: TreeV, a: BasicBlock, b: BasicBlock)
    requires
        tree.contains(b),
        dominates_by(tree, a, b),
    ensures
        tree.dominates(a, b),
{
    if tree.entry == a.0 && a != b {
        assert forall|n: nat| !reach_in(tree.edges, a.0 as int, tree.entry, b.0 as int, n) by {
            lemma_entry_first(tree.edges, tree.entry, b.0 as int, n);
        }
    }
}

proof fn lemma_parent(p: ProgramV, f: Function, v: Inst, from: int)
    ensures
        p.parent_from(f, v, from) matches Some(b) ==> p.block(b).insts.contains(v),
    decreases p.func(f).blocks.len() - from,
{
    if from < p.func(f).blocks.len() {
        lemma_parent(p, f, v, from + 1);
    }
}

proof fn lemma_param_block(p: ProgramV, f: Function, v: Inst, from: int)
    ensures
        param_block_from(p, f, v, from) matches Some(b) ==> p.block(b).params.contains(v),
    decreases p.func(f).blocks.len() - from,
{
    if from < p.func(f).blocks.len() {
        lemma_param_block(p, f, v, from + 1);
    }
}

proof fn lemma_homes(p: ProgramV, order: Seq<BasicBlock>, v: Inst, from: int)
    ensures
        home(p, order, v, from) matches Some(b) ==> p.block(b).insts.contains(v),
        param_home(p, order, v, from) matches Some(b) ==> p.block(b).params.contains(v),
    decreases order.len() - from,
{
    if from < order.len() {
        lemma_homes(p, order, v, from + 1);
    }
}

proof fn lemma_found(s: Seq<Inst>, x: Inst, from: int, j: int)
    requires
        0 <= from <= j < s.len(),
        s[j] == x,
    ensures
        from <= position(s, x, from) <= j,
        s[position(s, x, from)] == x,
    decreases s.len() - from,
{
    if s[from] != x {
        lemma_found(s, x, from + 1, j);
    }
}

/// A parameter of a block that dominates block `b` is there at its end.
proof fn lemma_param_there(p: ProgramV, tree: TreeV, v: Inst, d: BasicBlock, b: BasicBlock)
    requires
        p.block(d).params.contains(v),
        d == b || tree.dominates(d, b),
        p.block(b).insts.len() > 0,
    ensures
        above(p, tree, v, b, end_of(p, b)),
{
    let k = choose|k: int| 0 <= k < p.block(d).params.len() && p.block(d).params[k] == v;
    assert(stands(p, d, k, v));
    assert(precedes(tree, d, k, b, end_of(p, b)));
}

/// Instruction `k` of a block that dominates block `b`, or one of `b` itself but its last, is there at the end of `b`.
proof fn lemma_inst_there(p: ProgramV, tree: TreeV, v: Inst, d: BasicBlock, k: int, b: BasicBlock)
    requires
        0 <= k < p.block(d).insts.len(),
        p.block(d).insts[k] == v,
        if d == b {
            k + 1 < p.block(b).insts.len()
        } else {
            tree.dominates(d, b)
        },
    ensures
        above(p, tree, v, b, end_of(p, b)),
{
    let n = p.block(d).params.len() + k;
    assert(stands(p, d, n, v));
    assert(precedes(tree, d, n, b, end_of(p, b)));
}

proof fn lemma_available(p: ProgramV, f: Function, t: TreeV, v: Inst, head: BasicBlock)
    requires
        t.contains(head),
        p.block(head).insts.len() > 0,
        is_available(p, f, t, v, head),
    ensures
        at_hand(p, f, t, v, head),
{
    if p.inst(v).global || is_const(p.op(v)) {
    } else if p.block(head).params.contains(v) {
        lemma_param_there(p, t, v, head, head);
    } else if p.op(v) is BlockArgRef {
        let b = param_block_from(p, f, v, 0)->0;
        lemma_param_block(p, f, v, 0);
        lemma_dominates_by(t, b, head);
        lemma_param_there(p, t, v, b, head);
    } else {
        let b = p.parent_bb(f, v)->0;
        lemma_parent(p, f, v, 0);
        let k = choose|k: int| 0 <= k < p.block(b).insts.len() && p.block(b).insts[k] == v;
        if b != head {
            lemma_dominates_by(t, b, head);
        }
        lemma_inst_there(p, t, v, b, k, head);
    }
}

/// Value `v` is used to make what `m` says, by the condition `cond`.
pub open spec fn takes(m: MergedValue, cond: Inst, v: Inst) -> bool {
    match m {
        MergedValue::Common(a) => v == a,
        MergedValue::Select(a, b) => v == cond || v == a || v == b,
        MergedValue::BoolBinary(_, l, r) => v == l || v == r,
    }
}

/// What replaces a parameter of a merge block is made at the end of the candidate's head from the condition
/// of the branch that stands there, from instructions that are moved there, and from values that are there.
pub proof fn choices_use_what_is_there(p: ProgramV, f: Function, t: TreeV, head: BasicBlock, k: int, v: Inst)
    requires
        p.insts.len() <= usize::MAX,
        t.contains(head),
        candidate_at(p, f, t, head) is Some,
        0 <= k < (candidate_at(p, f, t, head)->0).values.len(),
        takes(
            (candidate_at(p, f, t, head)->0).values[k],
            (candidate_at(p, f, t, head)->0).cond,
            v,
        ),
    ensures
        ({
            let c = candidate_at(p, f, t, head)->0;
            v == p.arg(p.terminator(head), 0) || c.move_insts.contains(v) || at_hand(p, f, t, v, head)
        }),
{
    let c = candidate_at(p, f, t, head)->0;
    let params = p.block(c.merge).params;
    let ta = (way(p, head, c.merge, true)->0).1;
    let fa = (way(p, head, c.merge, false)->0).1;
    lemma_merged_from(p, c.cond, params, ta, fa, 0, Seq::empty());
    assert(c.values[k] == merged(p, c.cond, ta[k], fa[k]));
    assert(p.block(head).insts.len() > 0);
    if v != c.cond && !c.move_insts.contains(v) {
        assert(v == ta[k] || v == fa[k]);
        assert(is_available(p, f, t, v, head));
        lemma_available(p, f, t, v, head);
    }
}

/// Each operand of `moved[k]` comes before it in `moved`, or is there at the end of `head`.
pub open spec fn fed(p: ProgramV, f: Function, t: TreeV, head: BasicBlock, moved: Seq<Inst>, k: int) -> bool {
    forall|n: int|
        0 <= n < 2 ==> moved.take(k).contains(#[trigger] p.arg(moved[k], n)) || at_hand(
            p,
            f,
            t,
            p.arg(moved[k], n),
            head,
        )
}

proof fn lemma_moves_fed(
    p: ProgramV,
    f: Function,
    t: TreeV,
    head: BasicBlock,
    insts: Seq<Inst>,
    from: int,
    moved: Seq<Inst>,
)
    requires
        t.contains(head),
        p.block(head).insts.len() > 0,
        forall|k: int| 0 <= k < moved.len() ==> #[trigger] fed(p, f, t, head, moved, k),
    ensures
        moves_from(p, f, t, head, insts, from, moved) matches Some(all) ==> forall|k: int|
            0 <= k < all.len() ==> #[trigger] fed(p, f, t, head, all, k),
    decreases insts.len() - from,
{
    if from + 1 < insts.len() && can_hoist(p, f, t, insts[from], head, moved) && p.users(insts[from])
        == seq![insts[from + 1]] {
        let next = moved.push(insts[from]);
        assert forall|k: int| 0 <= k < next.len() implies #[trigger] fed(p, f, t, head, next, k) by {
            if k < moved.len() {
                assert(fed(p, f, t, head, moved, k));
                assert(next.take(k) =~= moved.take(k));
            } else {
                assert(next.take(k) =~= moved);
                assert forall|n: int| 0 <= n < 2 implies moved.contains(#[trigger] p.arg(next[k], n)) || at_hand(
                    p,
                    f,
                    t,
                    p.arg(next[k], n),
                    head,
                ) by {
                    if !moved.contains(p.arg(next[k], n)) {
                        assert(n == 0 || n == 1);
                        lemma_available(p, f, t, p.arg(next[k], n), head);
                    }
                }
            }
        }
        lemma_moves_fed(p, f, t, head, insts, from + 1, next);
    }
}

/// An instruction that is moved to the end of the candidate's head uses only instructions that are moved
/// there before it, and values that are there.
pub proof fn moved_instructions_use_what_is_there(p: ProgramV, f: Function, t: TreeV, head: BasicBlock, k: int)
    requires
        p.insts.len() <= usize::MAX,
        t.contains(head),
        candidate_at(p, f, t, head) is Some,
        0 <= k < (candidate_at(p, f, t, head)->0).move_insts.len(),
    ensures
        fed(p, f, t, head, (candidate_at(p, f, t, head)->0).move_insts, k),
{
    let c = candidate_at(p, f, t, head)->0;
    assert(p.block(head).insts.len() > 0);
    lemma_moves_fed(p, f, t, head, p.block(c.arm).insts, 0, Seq::empty());
}

/// Edge `e` leaves its block by the transfer that ends it.
pub open spec fn leaves(p: ProgramV, e: Edge) -> bool {
    e.terminator == p.terminator(e.from) && p.block(e.from).insts.len() > 0
}

pub(crate) proof fn lemma_incoming(p: ProgramV, order: Seq<BasicBlock>, b: BasicBlock, from: int, found: Seq<Edge>)
    requires
        p.insts.len() <= usize::MAX,
        0 <= from,
        forall|k: int| 0 <= k < found.len() ==> leaves(p, #[trigger] found[k]),
    ensures
        forall|k: int|
            0 <= k < incoming_from(p, order, b, from, found).len() ==> leaves(
                p,
                #[trigger] incoming_from(p, order, b, from, found)[k],
            ),
    decreases order.len() - from,
{
    if from < order.len() {
        let t = p.terminator(order[from]);
        let jump = Edge { from: order[from], terminator: t, arm: EdgeArm::Jump };
        let on_true = Edge { from: order[from], terminator: t, arm: EdgeArm::True };
        let on_false = Edge { from: order[from], terminator: t, arm: EdgeArm::False };
        let tail = match p.op(t) {
            Op::Jump(x) => if x == b {
                found.push(jump)
            } else {
                found
            },
            Op::Branch(x, y, _) => {
                let one = if x == b {
                    found.push(on_true)
                } else {
                    found
                };
                if y == b {
                    one.push(on_false)
                } else {
                    one
                }
            },
            _ => found,
        };
        lemma_incoming(p, order, b, from + 1, tail);
        assert(incoming_from(p, order, b, from, found) == incoming_from(p, order, b, from + 1, tail));
    }
}

proof fn lemma_usable(
    p: ProgramV,
    f: Function,
    tree: TreeV,
    order: Seq<BasicBlock>,
    e: Edge,
    v: Inst,
)
    requires
        placed_once(p),
        leaves(p, e),
        usable(p, f, tree, order, e.from, e.terminator, v),
    ensures
        at_hand(p, f, tree, v, e.from),
{
    let b = e.from;
    let t = e.terminator;
    lemma_homes(p, order, v, 0);
    if p.inst(v).global || p.func(f).params.contains(v) || p.op(v) is Integer {
    } else if home(p, order, v, 0) is Some {
        let d = home(p, order, v, 0)->0;
        let j = choose|j: int| 0 <= j < p.block(d).insts.len() && p.block(d).insts[j] == v;
        lemma_found(p.block(d).insts, v, 0, j);
        let k = position(p.block(d).insts, v, 0);
        if d == b {
            let h = home(p, order, t, 0)->0;
            lemma_homes(p, order, t, 0);
            let i = choose|i: int| 0 <= i < p.block(h).insts.len() && p.block(h).insts[i] == t;
            let last = p.block(b).insts.len() - 1;
            assert(stands(p, h, p.block(h).params.len() + i, t));
            assert(stands(p, b, p.block(b).params.len() + last, t));
            assert(h == b);
            lemma_found(p.block(b).insts, t, 0, last);
        }
        lemma_inst_there(p, tree, v, d, k, b);
    } else {
        lemma_param_there(p, tree, v, param_home(p, order, v, 0)->0, b);
    }
}

pub(crate) proof fn lemma_offers(
    p: ProgramV,
    f: Function,
    nums: Map<usize, usize>,
    tree: TreeV,
    order: Seq<BasicBlock>,
    b: BasicBlock,
    i: Inst,
    op: BinaryOp,
    edges: Seq<Edge>,
    from: int,
    found: Seq<Offer>,
)
    requires
        0 <= from <= edges.len(),
        found.len() == from,
        forall|k: int|
            0 <= k < from ==> offer(p, f, nums, tree, order, b, i, op, edges[k]) == Some(#[trigger] found[k]),
    ensures
        offers(p, f, nums, tree, order, b, i, op, edges, from, found) matches Some(list) ==> list.len() == edges.len()
            && forall|k: int|
            0 <= k < edges.len() ==> offer(p, f, nums, tree, order, b, i, op, edges[k]) == Some(#[trigger] list[k]),
    decreases edges.len() - from,
{
    if from < edges.len() {
        match offer(p, f, nums, tree, order, b, i, op, edges[from]) {
            Some(o) => lemma_offers(p, f, nums, tree, order, b, i, op, edges, from + 1, found.push(o)),
            None => {},
        }
    }
}

/// What an edge into a join is to pass is there at the end of the edge's block, and so are the operands of
/// a computation that is inserted at that end or on the edge.
pub proof fn edges_offer_what_is_there(
    p: ProgramV,
    f: Function,
    nums: Map<usize, usize>,
    tree: TreeV,
    order: Seq<BasicBlock>,
    b: BasicBlock,
    i: Inst,
    op: BinaryOp,
    k: int,
)
    requires
        p.insts.len() <= usize::MAX,
        placed_once(p),
        0 <= k < incoming(p, order, b).len(),
        offers(p, f, nums, tree, order, b, i, op, incoming(p, order, b), 0, Seq::empty()) is Some,
    ensures
        ({
            let e = incoming(p, order, b)[k];
            let list = offers(p, f, nums, tree, order, b, i, op, incoming(p, order, b), 0, Seq::empty())->0;
            &&& list.len() == incoming(p, order, b).len()
            &&& e.terminator == p.terminator(e.from)
            &&& at_hand(p, f, tree, list[k].lhs, e.from)
            &&& at_hand(p, f, tree, list[k].rhs, e.from)
            &&& list[k].leader matches Some(x) ==> at_hand(p, f, tree, x, e.from)
        }),
{
    let edges = incoming(p, order, b);
    let e = edges[k];
    lemma_incoming(p, order, b, 0, Seq::empty());
    lemma_offers(p, f, nums, tree, order, b, i, op, edges, 0, Seq::empty());
    let list = offers(p, f, nums, tree, order, b, i, op, edges, 0, Seq::empty())->0;
    assert(offer(p, f, nums, tree, order, b, i, op, e) == Some(list[k]));
    lemma_usable(p, f, tree, order, e, list[k].lhs);
    lemma_usable(p, f, tree, order, e, list[k].rhs);
    match list[k].leader {
        Some(x) => lemma_usable(p, f, tree, order, e, x),
        None => {},
    }
}

} // verus!
