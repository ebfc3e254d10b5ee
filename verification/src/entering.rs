//! A loop that was given a block of its own before it, as the program that comes out says it.

use vstd::prelude::*;

use crate::edges::{edge_args, incoming, incoming_from, redirected, Edge, EdgeArm};
use crate::ir::{BasicBlock, Function, Inst, Op, ProgramV, Type};
use crate::loops::LoopV;
use crate::preheader::{all_redirected, entering_from, param_types, with_preheader, EnsurePreheader};
use crate::splicing::{lemma_new_block, new_param};
use crate::unrolling::{lemma_appended, lemma_pushed};

verus! {

/// Edge `e` is one to `b`, of a block of `order[from..]`.
pub open spec fn is_way(p: ProgramV, order: Seq<BasicBlock>, b: BasicBlock, from: int, e: Edge) -> bool {
    &&& exists|j: int| from <= j < order.len() && #[trigger] order[j] == e.from
    &&& e.terminator == p.terminator(e.from)
    &&& goes(p.op(e.terminator), e.arm, b)
}

/// Operation `op` goes to `b` by its edge `arm`.
pub open spec fn goes(op: Op, arm: EdgeArm, b: BasicBlock) -> bool {
    match (arm, op) {
        (EdgeArm::Jump, Op::Jump(x)) => x == b,
        (EdgeArm::True, Op::Branch(x, _, _)) => x == b,
        (EdgeArm::False, Op::Branch(_, y, _)) => y == b,
        _ => false,
    }
}

proof fn lemma_push_contains(s: Seq<Edge>, a: Edge)
    ensures
        forall|e: Edge| #[trigger] s.push(a).contains(e) <==> s.contains(e) || e == a,
{
    assert forall|e: Edge| #[trigger] s.push(a).contains(e) <==> s.contains(e) || e == a by {
        if s.push(a).contains(e) {
            let k = s.push(a).index_of(e);
            if k < s.len() {
                assert(s[k] == e);
            }
        }
        if s.contains(e) {
            assert(s.push(a)[s.index_of(e)] == e);
        }
        assert(s.push(a)[s.len() as int] == a);
    }
}

pub(crate) proof fn lemma_ways(p: ProgramV, order: Seq<BasicBlock>, b: BasicBlock, from: int, found: Seq<Edge>)
    requires
        0 <= from,
    ensures
        forall|e: Edge| #[trigger]
            incoming_from(p, order, b, from, found).contains(e) <==> found.contains(e) || is_way(p, order, b, from, e),
    decreases order.len() - from,
{
    if from < order.len() {
        let x = order[from];
        let t = p.terminator(x);
        let jump = Edge { from: x, terminator: t, arm: EdgeArm::Jump };
        let on_true = Edge { from: x, terminator: t, arm: EdgeArm::True };
        let on_false = Edge { from: x, terminator: t, arm: EdgeArm::False };
        let one = if goes(p.op(t), EdgeArm::True, b) {
            found.push(on_true)
        } else {
            found
        };
        let next = if goes(p.op(t), EdgeArm::Jump, b) {
            found.push(jump)
        } else if goes(p.op(t), EdgeArm::False, b) {
            one.push(on_false)
        } else {
            one
        };
        lemma_push_contains(found, jump);
        lemma_push_contains(found, on_true);
        lemma_push_contains(one, on_false);
        assert(incoming_from(p, order, b, from, found) == incoming_from(p, order, b, from + 1, next));
        lemma_ways(p, order, b, from + 1, next);
        assert forall|e: Edge| #[trigger]
            incoming_from(p, order, b, from, found).contains(e) <==> found.contains(e) || is_way(p, order, b, from, e) by {
            assert(next.contains(e) <==> found.contains(e) || (e.from == x && e.terminator == t && goes(p.op(t), e.arm, b)));
            if is_way(p, order, b, from, e) {
                let j = choose|j: int| from <= j < order.len() && #[trigger] order[j] == e.from;
                if j > from {
                    assert(from + 1 <= j < order.len() && order[j] == e.from);
                    assert(is_way(p, order, b, from + 1, e));
                }
            }
            if is_way(p, order, b, from + 1, e) {
                let j = choose|j: int| from + 1 <= j < order.len() && #[trigger] order[j] == e.from;
                assert(from <= j < order.len() && order[j] == e.from);
            }
            if e.from == x {
                assert(order[from] == e.from);
            }
        }
    } else {
        assert forall|e: Edge| !is_way(p, order, b, from, e) by {}
    }
}

proof fn lemma_entering(l: LoopV, edges: Seq<Edge>, from: int, found: Seq<Edge>)
    requires
        0 <= from <= edges.len(),
    ensures
        forall|e: Edge| #[trigger]
            entering_from(l, edges, from, found).contains(e) <==> found.contains(e) || (edges.skip(from).contains(e)
                && !l.body.contains(e.from)),
    decreases edges.len() - from,
{
    if from < edges.len() {
        let a = edges[from];
        let next = if l.body.contains(a.from) {
            found
        } else {
            found.push(a)
        };
        lemma_push_contains(found, a);
        lemma_entering(l, edges, from + 1, next);
        assert forall|e: Edge| #[trigger]
            entering_from(l, edges, from, found).contains(e) <==> found.contains(e) || (edges.skip(from).contains(e)
                && !l.body.contains(e.from)) by {
            assert(entering_from(l, edges, from, found) == entering_from(l, edges, from + 1, next));
            assert(edges.skip(from).contains(e) <==> e == a || edges.skip(from + 1).contains(e)) by {
                assert(edges.skip(from)[0] == a);
                if edges.skip(from).contains(e) {
                    let k = edges.skip(from).index_of(e);
                    if k > 0 {
                        assert(edges.skip(from + 1)[k - 1] == e);
                    }
                }
                if edges.skip(from + 1).contains(e) {
                    let k = edges.skip(from + 1).index_of(e);
                    assert(edges.skip(from)[k + 1] == e);
                }
            }
        }
    }
}

/// One of `edges[from..]` is the edge `arm` of `t`.
spec fn is_led(edges: Seq<Edge>, from: int, t: Inst, arm: EdgeArm) -> bool {
    exists|j: int| from <= j < edges.len() && (#[trigger] edges[j]).terminator == t && edges[j].arm == arm
}

/// What operation `op` of `t` is once `edges[from..]` lead to `b`.
spec fn led(op: Op, edges: Seq<Edge>, from: int, t: Inst, b: BasicBlock) -> Op {
    match op {
        Op::Jump(x) => Op::Jump(
            if is_led(edges, from, t, EdgeArm::Jump) {
                b
            } else {
                x
            },
        ),
        Op::Branch(x, y, n) => Op::Branch(
            if is_led(edges, from, t, EdgeArm::True) {
                b
            } else {
                x
            },
            if is_led(edges, from, t, EdgeArm::False) {
                b
            } else {
                y
            },
            n,
        ),
        _ => op,
    }
}

/// Every branch passes what it says it passes.
pub open spec fn branches_suit(p: ProgramV) -> bool {
    forall|i: Inst| (#[trigger] p.op(i)) matches Op::Branch(_, _, n) ==> n + 1 <= p.args(i).len()
}

proof fn lemma_led_more(edges: Seq<Edge>, from: int, t: Inst, arm: EdgeArm)
    requires
        0 <= from < edges.len(),
    ensures
        is_led(edges, from, t, arm) <==> (edges[from].terminator == t && edges[from].arm == arm) || is_led(
            edges,
            from + 1,
            t,
            arm,
        ),
{
    if is_led(edges, from, t, arm) {
        let j = choose|j: int| from <= j < edges.len() && (#[trigger] edges[j]).terminator == t && edges[j].arm == arm;
        if j > from {
            assert(from + 1 <= j < edges.len() && edges[j].terminator == t && edges[j].arm == arm);
        }
    }
    if is_led(edges, from + 1, t, arm) {
        let j = choose|j: int| from + 1 <= j < edges.len() && (#[trigger] edges[j]).terminator == t && edges[j].arm == arm;
        assert(from <= j < edges.len() && edges[j].terminator == t && edges[j].arm == arm);
    }
}

proof fn lemma_redirected(p: ProgramV, e: Edge, b: BasicBlock)
    requires
        branches_suit(p),
    ensures
        ({
            let q = redirected(p, e, b, edge_args(p, e));
            let t = e.terminator;
            &&& q.blocks == p.blocks
            &&& q.insts.len() == p.insts.len()
            &&& forall|i: Inst| i != t ==> #[trigger] q.inst(i) == p.inst(i)
            &&& q.args(t) == p.args(t)
            &&& q.op(t) == match (e.arm, p.op(t)) {
                (EdgeArm::Jump, Op::Jump(_)) => Op::Jump(b),
                (EdgeArm::True, Op::Branch(_, y, n)) => Op::Branch(b, y, n),
                (EdgeArm::False, Op::Branch(x, _, n)) => Op::Branch(x, b, n),
                _ => p.op(t),
            }
            &&& branches_suit(q)
        }),
{
    reveal(ProgramV::set_inst);
    let q = redirected(p, e, b, edge_args(p, e));
    let t = e.terminator;
    match p.op(t) {
        Op::Branch(_, _, n) => {
            assert(t.0 < p.insts.len());
            assert(seq![p.arg(t, 0)] + p.t_args(t) + p.f_args(t) =~= p.args(t));
        },
        Op::Jump(_) => {
            assert(t.0 < p.insts.len());
        },
        _ => {},
    }
    assert(q.args(t) == p.args(t));
    assert forall|i: Inst| (#[trigger] q.op(i)) is Branch implies (q.op(i) matches Op::Branch(_, _, n) && n + 1 <= q.args(
        i,
    ).len()) by {
        if i != t {
            assert(q.inst(i) == p.inst(i));
            assert(p.op(i) is Branch);
        } else {
            assert(p.op(t) is Branch);
        }
    }
}

proof fn lemma_all_redirected(p: ProgramV, edges: Seq<Edge>, b: BasicBlock, from: int)
    requires
        0 <= from <= edges.len(),
        branches_suit(p),
    ensures
        ({
            let q = all_redirected(p, edges, b, from);
            &&& q.blocks == p.blocks
            &&& q.insts.len() == p.insts.len()
            &&& forall|i: Inst| #[trigger] q.args(i) == p.args(i)
            &&& forall|i: Inst| #[trigger] q.op(i) == led(p.op(i), edges, from, i, b)
            &&& forall|i: Inst|
                (forall|j: int| from <= j < edges.len() ==> (#[trigger] edges[j]).terminator != i) ==> #[trigger] q.inst(i)
                    == p.inst(i)
        }),
    decreases edges.len() - from,
{
    if from < edges.len() {
        let e = edges[from];
        let r = redirected(p, e, b, edge_args(p, e));
        let q = all_redirected(p, edges, b, from);
        lemma_redirected(p, e, b);
        lemma_all_redirected(r, edges, b, from + 1);
        assert(q == all_redirected(r, edges, b, from + 1));
        assert forall|i: Inst| #[trigger] q.args(i) == p.args(i) by {
            assert(q.args(i) == r.args(i));
            if i != e.terminator {
                assert(r.inst(i) == p.inst(i));
            }
        }
        assert forall|i: Inst| #[trigger] q.op(i) == led(p.op(i), edges, from, i, b) by {
            assert(q.op(i) == led(r.op(i), edges, from + 1, i, b));
            lemma_led_more(edges, from, i, EdgeArm::Jump);
            lemma_led_more(edges, from, i, EdgeArm::True);
            lemma_led_more(edges, from, i, EdgeArm::False);
            if i != e.terminator {
                assert(r.inst(i) == p.inst(i));
            }
        }
        assert forall|i: Inst|
            (forall|j: int| from <= j < edges.len() ==> (#[trigger] edges[j]).terminator != i) implies #[trigger] q.inst(i)
            == p.inst(i) by {
            assert(edges[from].terminator != i);
            assert(r.inst(i) == p.inst(i));
        }
    } else {
        assert forall|i: Inst| #[trigger] all_redirected(p, edges, b, from).op(i) == led(p.op(i), edges, from, i, b) by {
            assert(!is_led(edges, from, i, EdgeArm::Jump));
            assert(!is_led(edges, from, i, EdgeArm::True));
            assert(!is_led(edges, from, i, EdgeArm::False));
        }
    }
}

/// Where block `x` goes instead of `y`, if block `b` was put between `header` and the blocks outside the loop.
pub open spec fn goes_instead(l: LoopV, b: BasicBlock, x: BasicBlock, y: BasicBlock) -> BasicBlock {
    if y == l.header && !l.body.contains(x) {
        b
    } else {
        y
    }
}

/// A block that is put before a loop takes all that came from outside: it gets what the header was given, and hands it
/// on. Who goes to the loop from outside now goes there with the same; nothing else changes, least of all inside the
/// loop.
#[verifier::spinoff_prover]
pub proof fn a_new_preheader_hands_everything_on(
    p: ProgramV,
    f: Function,
    order: Seq<BasicBlock>,
    l: LoopV,
    q: ProgramV,
    b: BasicBlock,
)
    requires
        with_preheader(p, f, order, l) == Some((q, EnsurePreheader::Created(b))),
        branches_suit(p),
        l.header.0 < p.blocks.len(),
        p.blocks.len() < usize::MAX,
        q.insts.len() <= usize::MAX,
        forall|j: int| 0 <= j < order.len() ==> p.terminator(#[trigger] order[j]).0 < p.insts.len(),
        forall|j: int, k: int|
            0 <= j < order.len() && 0 <= k < order.len() && p.terminator(#[trigger] order[j]) == p.terminator(
                #[trigger] order[k],
            ) ==> order[j] == order[k],
    ensures
        b.0 == p.blocks.len(),
        q.block(b).params.len() == p.block(l.header).params.len(),
        forall|k: int|
            0 <= k < q.block(b).params.len() ==> (#[trigger] q.block(b).params[k]).0 >= p.insts.len() && q.ty(
                q.block(b).params[k],
            ) == p.ty(p.block(l.header).params[k]),
        q.block(b).params.no_duplicates(),
        q.block(b).insts.len() == 1,
        q.op(q.terminator(b)) == Op::Jump(l.header),
        q.args(q.terminator(b)) == q.block(b).params,
        forall|x: BasicBlock| x.0 < p.blocks.len() ==> #[trigger] q.block(x) == p.block(x),
        forall|i: Inst| i.0 < p.insts.len() ==> #[trigger] q.args(i) == p.args(i),
        forall|x: BasicBlock| #[trigger]
            order.contains(x) ==> q.op(p.terminator(x)) == match p.op(p.terminator(x)) {
                Op::Jump(y) => Op::Jump(goes_instead(l, b, x, y)),
                Op::Branch(y, z, n) => Op::Branch(goes_instead(l, b, x, y), goes_instead(l, b, x, z), n),
                op => op,
            },
        forall|i: Inst|
            i.0 < p.insts.len() && (forall|x: BasicBlock| #[trigger] order.contains(x) ==> p.terminator(x) != i)
                ==> #[trigger] q.inst(i) == p.inst(i),
{
    let all = incoming(p, order, l.header);
    let ways = entering_from(l, all, 0, Seq::empty());
    let name = p.block(l.header).name + "_preheader"@ + ""@;
    let tys = param_types(p, l.header);
    let made = p.basic_block(name, tys);
    let p1 = made.insert_bb_after(f, ways[0].from, b);
    let jump = p1.next_inst();
    let a2 = p1.push_inst(Op::Jump(l.header), p1.block(b).params, Type::Unit, false);
    let p2 = a2.append(b, jump);
    assert(b == p.next_block());
    assert(q == all_redirected(p2, ways, b, 0));
    lemma_ways(p, order, l.header, 0, Seq::empty());
    lemma_entering(l, all, 0, Seq::empty());
    assert(all.skip(0) =~= all);
    assert(made.insts.len() == p.insts.len() + tys.len()) by {
        reveal(ProgramV::push_block);
        crate::unrolling::lemma_params_longer(p.push_block(name), b, tys, 0);
    }
    assert(p1.insts == made.insts && p1.blocks == made.blocks) by {
        reveal(ProgramV::set_func_blocks);
    }
    assert(p2.insts.len() == made.insts.len() + 1) by {
        reveal(ProgramV::push_inst);
        reveal(ProgramV::set_block_insts);
    }
    lemma_redirected_size(p2, ways, b, 0);
    lemma_new_block(p, name, tys);
    lemma_pushed(p1, Op::Jump(l.header), p1.block(b).params, Type::Unit, b);
    lemma_appended(a2, b, jump);
    let n = p.insts.len() as int;
    assert forall|i: int| 0 <= i < n implies #[trigger] p2.insts[i] == p.insts[i] by {
        assert(a2.insts[i] == p1.insts[i]);
        assert(made.insts[i] == p.insts[i]);
    }
    assert forall|i: int| n <= i < made.insts.len() implies #[trigger] p2.insts[i] == new_param(tys[i - n]) by {
        assert(a2.insts[i] == p1.insts[i]);
        assert(made.insts[n + (i - n)] == new_param(tys[i - n]));
    }
    assert(branches_suit(p2)) by {
        assert forall|i: Inst| (#[trigger] p2.op(i)) is Branch implies (p2.op(i) matches Op::Branch(_, _, m) && m + 1
            <= p2.args(i).len()) by {
            if i.0 < n {
                assert(p2.insts[i.0 as int] == p.insts[i.0 as int]);
                assert(p.op(i) is Branch);
            } else if i.0 < made.insts.len() {
                assert(p2.insts[i.0 as int] == new_param(tys[i.0 - n]));
            }
        }
    }
    lemma_all_redirected(p2, ways, b, 0);
    assert forall|e: Edge| #[trigger] ways.contains(e) <==> is_way(p, order, l.header, 0, e) && !l.body.contains(e.from) by {
        assert(all.contains(e) <==> is_way(p, order, l.header, 0, e));
    }
    assert forall|j: int| 0 <= j < ways.len() implies order.contains((#[trigger] ways[j]).from) && ways[j].terminator
        == p.terminator(ways[j].from) && goes(p.op(ways[j].terminator), ways[j].arm, l.header) && !l.body.contains(
        ways[j].from,
    ) by {
        assert(ways.contains(ways[j]));
    }
    assert forall|x: BasicBlock, arm: EdgeArm| #[trigger] order.contains(x) implies (#[trigger] is_led(
        ways,
        0,
        p.terminator(x),
        arm,
    ) <==> !l.body.contains(x) && goes(p.op(p.terminator(x)), arm, l.header)) by {
        let t = p.terminator(x);
        let k = order.index_of(x);
        assert(order[k] == x);
        if is_led(ways, 0, t, arm) {
            let j = choose|j: int| 0 <= j < ways.len() && (#[trigger] ways[j]).terminator == t && ways[j].arm == arm;
            let y = ways[j].from;
            let i = order.index_of(y);
            assert(order[i] == y);
            assert(x == y);
        }
        if !l.body.contains(x) && goes(p.op(t), arm, l.header) {
            let e = Edge { from: x, terminator: t, arm };
            assert(is_way(p, order, l.header, 0, e));
            assert(ways.contains(e));
            let j = ways.index_of(e);
            assert(ways[j] == e);
        }
    }
    assert forall|x: BasicBlock| #[trigger] order.contains(x) implies q.op(p.terminator(x)) == match p.op(p.terminator(x)) {
        Op::Jump(y) => Op::Jump(goes_instead(l, b, x, y)),
        Op::Branch(y, z, m) => Op::Branch(goes_instead(l, b, x, y), goes_instead(l, b, x, z), m),
        op => op,
    } by {
        let t = p.terminator(x);
        let k = order.index_of(x);
        assert(order[k] == x);
        assert(q.op(t) == led(p2.op(t), ways, 0, t, b));
        assert(is_led(ways, 0, t, EdgeArm::Jump) <==> !l.body.contains(x) && goes(p.op(t), EdgeArm::Jump, l.header));
        assert(is_led(ways, 0, t, EdgeArm::True) <==> !l.body.contains(x) && goes(p.op(t), EdgeArm::True, l.header));
        assert(is_led(ways, 0, t, EdgeArm::False) <==> !l.body.contains(x) && goes(p.op(t), EdgeArm::False, l.header));
        assert(p2.insts[t.0 as int] == p.insts[t.0 as int]);
    }
    assert forall|i: Inst|
        i.0 < n && (forall|x: BasicBlock| #[trigger] order.contains(x) ==> p.terminator(x) != i) implies #[trigger] q.inst(i)
        == p.inst(i) by {
        assert forall|j: int| 0 <= j < ways.len() implies (#[trigger] ways[j]).terminator != i by {
            assert(order.contains(ways[j].from));
        }
        assert(p2.insts[i.0 as int] == p.insts[i.0 as int]);
    }
    assert forall|i: Inst| i.0 < n implies #[trigger] q.args(i) == p.args(i) by {
        assert(p2.insts[i.0 as int] == p.insts[i.0 as int]);
        assert(q.args(i) == p2.args(i));
    }
    assert forall|x: BasicBlock| x.0 < p.blocks.len() implies #[trigger] q.block(x) == p.block(x) by {
        let y = x.0 as int;
        assert(p2.blocks[y] == a2.blocks[y] && a2.blocks[y] == p1.blocks[y]);
        assert(made.blocks[y] == p.blocks[y]);
    }
    assert(q.block(b).insts =~= seq![jump]);
    assert(q.block(b).params == made.block(b).params);
    assert(q.args(jump) == p2.args(jump));
    assert(q.op(jump) == led(p2.op(jump), ways, 0, jump, b));
    assert(!is_led(ways, 0, jump, EdgeArm::Jump)) by {
        if is_led(ways, 0, jump, EdgeArm::Jump) {
            let j = choose|j: int|
                0 <= j < ways.len() && (#[trigger] ways[j]).terminator == jump && ways[j].arm == EdgeArm::Jump;
            assert(p.op(jump) is Jump);
        }
    }
    assert forall|k: int| 0 <= k < q.block(b).params.len() implies (#[trigger] q.block(b).params[k]).0 >= n && q.ty(
        q.block(b).params[k],
    ) == p.ty(p.block(l.header).params[k]) by {
        let i = q.block(b).params[k];
        assert(i == Inst((n + k) as usize));
        assert(p2.insts[n + k] == new_param(tys[k]));
        assert forall|j: int| 0 <= j < ways.len() implies (#[trigger] ways[j]).terminator != i by {
            assert(goes(p.op(ways[j].terminator), ways[j].arm, l.header));
        }
        assert(q.inst(i) == p2.inst(i));
    }
}

proof fn lemma_redirected_size(p: ProgramV, edges: Seq<Edge>, b: BasicBlock, from: int)
    ensures
        all_redirected(p, edges, b, from).insts.len() == p.insts.len(),
    decreases edges.len() - from,
{
    if from < edges.len() {
        reveal(ProgramV::set_inst);
        lemma_redirected_size(redirected(p, edges[from], b, edge_args(p, edges[from])), edges, b, from + 1);
    }
}

} // verus!
