//! Leaders stand above the values that they stand for.
//!
//! The walk goes down the dominance tree and takes the leaders of a block back when it leaves it, so at any
//! moment the leaders are values of the blocks above, or earlier values of the block at hand.

use vstd::prelude::*;

use crate::cfg::{
    dominance_is_antisymmetric, dominance_is_transitive, entry_of, immediate, reverse_postorder,
    tree_of, TreeV,
};
use crate::gvn::{
    all_seen, all_walked, call_leader, calls_dropped, children_from, fresh_walk, header_seen,
    is_pure, led, left, memory_seen, nothing_added, plan_of, reduced, seen, walked, AddedV,
    CallLeader, PlanV, WalkV,
};
use crate::ir::{BasicBlock, Function, Inst, Op, ProgramV};
use crate::leading::{lemma_call_leader, lemma_header_fewer, lemma_keys_dropped, lemma_memory_fewer};
use crate::numbering::{call_numbered, expressible, numbered};

verus! {

/// The values of block `b`: its parameters, then its instructions.
pub open spec fn values_of(p: ProgramV, b: BasicBlock) -> Seq<Inst> {
    p.block(b).params + p.block(b).insts
}

/// Value `x` stands at place `k` of block `b`.
pub open spec fn stands(p: ProgramV, b: BasicBlock, k: int, x: Inst) -> bool {
    0 <= k < values_of(p, b).len() && values_of(p, b)[k] == x
}

pub open spec fn placed(p: ProgramV, x: Inst) -> bool {
    exists|b: BasicBlock, k: int| stands(p, b, k, x)
}

/// No value stands at two places.
pub open spec fn placed_once(p: ProgramV) -> bool {
    forall|b: BasicBlock, k: int, c: BasicBlock, j: int, x: Inst|
        #[trigger] stands(p, b, k, x) && #[trigger] stands(p, c, j, x) ==> b == c && k == j
}

/// Place `k` of block `b` is passed before place `j` of block `c` is, on every walk to it.
pub open spec fn precedes(tree: TreeV, b: BasicBlock, k: int, c: BasicBlock, j: int) -> bool {
    if b == c {
        k < j
    } else {
        tree.dominates(b, c)
    }
}

/// Value `x` is there at place `j` of block `c`.
pub open spec fn above(p: ProgramV, tree: TreeV, x: Inst, c: BasicBlock, j: int) -> bool {
    exists|b: BasicBlock, k: int| #[trigger] stands(p, b, k, x) && precedes(tree, b, k, c, j)
}

/// The operands of the value at place `j` of block `c` that stand anywhere are there.
pub open spec fn supplied(p: ProgramV, tree: TreeV, c: BasicBlock, j: int) -> bool {
    tree.dominates(c, c) && 0 <= j < values_of(p, c).len() ==> forall|n: int|
        0 <= n < p.args(values_of(p, c)[j]).len() && placed(p, #[trigger] p.args(values_of(p, c)[j])[n]) ==> above(
            p,
            tree,
            p.args(values_of(p, c)[j])[n],
            c,
            j,
        )
}

/// Every value that a reached block uses is defined on every walk to the use.
pub open spec fn defined_above(p: ProgramV, tree: TreeV) -> bool {
    forall|c: BasicBlock, j: int| #[trigger] supplied(p, tree, c, j)
}

/// All leaders are there at place `j` of block `c`.
pub open spec fn leaders_above(p: ProgramV, tree: TreeV, st: WalkV, c: BasicBlock, j: int) -> bool {
    &&& forall|n: usize| #[trigger] st.leaders.contains_key(n) ==> above(p, tree, st.leaders[n], c, j)
    &&& forall|x: usize| #[trigger] st.loads.contains_key(x) ==> above(p, tree, st.loads[x], c, j)
    &&& forall|k: int| 0 <= k < st.calls.len() ==> above(p, tree, (#[trigger] st.calls[k]).leader, c, j)
}

/// What leads in `now` led in `st`, or is listed in `added`.
pub open spec fn inherits(st: WalkV, now: WalkV, added: AddedV) -> bool {
    &&& forall|n: usize| #[trigger]
        now.leaders.contains_key(n) ==> added.leaders.contains(n) || (st.leaders.contains_key(n) && st.leaders[n]
            == now.leaders[n])
    &&& forall|x: usize| #[trigger]
        now.loads.contains_key(x) ==> added.loads.contains(x) || (st.loads.contains_key(x) && st.loads[x]
            == now.loads[x])
    &&& forall|k: int|
        0 <= k < now.calls.len() ==> added.calls.contains((#[trigger] now.calls[k]).number) || st.calls.contains(
            now.calls[k],
        )
}

/// What leads in `now` led in `st`.
pub open spec fn subsides(st: WalkV, now: WalkV) -> bool {
    &&& now.leaders.submap_of(st.leaders)
    &&& now.loads.submap_of(st.loads)
    &&& forall|k: int| 0 <= k < now.calls.len() ==> st.calls.contains(#[trigger] now.calls[k])
}

proof fn lemma_precedes_chain(tree: TreeV, a: BasicBlock, i: int, b: BasicBlock, j: int, c: BasicBlock, k: int)
    requires
        precedes(tree, a, i, b, j),
        precedes(tree, b, j, c, k),
    ensures
        precedes(tree, a, i, c, k),
{
    if a != b && b != c {
        dominance_is_transitive(tree.edges, tree.entry, a.0 as int, b.0 as int, c.0 as int);
        if a == c {
            dominance_is_antisymmetric(tree.edges, tree.entry, a.0 as int, b.0 as int);
        }
    }
}

proof fn lemma_above_chain(p: ProgramV, tree: TreeV, x: Inst, b: BasicBlock, j: int, c: BasicBlock, k: int)
    requires
        above(p, tree, x, b, j),
        precedes(tree, b, j, c, k),
    ensures
        above(p, tree, x, c, k),
{
    let (a, i) = choose|a: BasicBlock, i: int| #[trigger] stands(p, a, i, x) && precedes(tree, a, i, b, j);
    lemma_precedes_chain(tree, a, i, b, j, c, k);
}

/// The values stand in `q` where they stood in `p`.
pub open spec fn same_places(p: ProgramV, q: ProgramV) -> bool {
    q.blocks == p.blocks
}

/// Uses of `v` made uses of a value that is there where `v` stands.
proof fn lemma_led_above(p: ProgramV, tree: TreeV, st: WalkV, v: Inst, leader: Inst, b: BasicBlock, k: int)
    requires
        placed_once(p),
        defined_above(p, tree),
        stands(p, b, k, v),
        above(p, tree, leader, b, k),
    ensures
        same_places(p, led(p, st, v, leader).0),
        defined_above(led(p, st, v, leader).0, tree),
{
    let q = led(p, st, v, leader).0;
    reveal(ProgramV::replace_uses);
    if v != leader && p.is_used(v) {
        assert forall|c: BasicBlock, j: int| #[trigger] supplied(q, tree, c, j) by {
            if tree.dominates(c, c) && 0 <= j < values_of(q, c).len() {
                let i = values_of(q, c)[j];
                assert(values_of(q, c) == values_of(p, c));
                assert(supplied(p, tree, c, j));
                assert forall|n: int| 0 <= n < q.args(i).len() && placed(q, #[trigger] q.args(i)[n]) implies above(
                    q,
                    tree,
                    q.args(i)[n],
                    c,
                    j,
                ) by {
                    assert(i.0 < p.insts.len());
                    assert(q.insts[i.0 as int] == p.insts[i.0 as int].replaced(v, leader));
                    let x = p.args(i)[n];
                    assert(x == p.args(values_of(p, c)[j])[n]);
                    if x == v {
                        assert(placed(p, v));
                        assert(above(p, tree, v, c, j));
                        let (d, l) = choose|d: BasicBlock, l: int| #[trigger]
                            stands(p, d, l, v) && precedes(tree, d, l, c, j);
                        assert(d == b && l == k);
                        lemma_above_chain(p, tree, leader, b, k, c, j);
                        lemma_above_moves(p, q, tree, leader, c, j);
                    } else {
                        assert(q.args(i)[n] == x);
                        let (d, l) = choose|d: BasicBlock, l: int| stands(q, d, l, x);
                        assert(stands(p, d, l, x));
                        assert(placed(p, x));
                        assert(above(p, tree, x, c, j));
                        lemma_above_moves(p, q, tree, x, c, j);
                    }
                }
            }
        }
    }
}

proof fn lemma_above_moves(p: ProgramV, q: ProgramV, tree: TreeV, x: Inst, c: BasicBlock, j: int)
    requires
        same_places(p, q),
        above(p, tree, x, c, j),
    ensures
        above(q, tree, x, c, j),
{
    let (a, i) = choose|a: BasicBlock, i: int| #[trigger] stands(p, a, i, x) && precedes(tree, a, i, c, j);
    assert(stands(q, a, i, x));
}

/// Leaders that are there at a place are there at a later one, in any program with the same places.
pub(crate) proof fn lemma_leaders_move(
    p: ProgramV,
    q: ProgramV,
    tree: TreeV,
    st: WalkV,
    b: BasicBlock,
    j: int,
    c: BasicBlock,
    k: int,
)
    requires
        same_places(p, q),
        leaders_above(p, tree, st, b, j),
        precedes(tree, b, j, c, k) || (b == c && j == k),
    ensures
        leaders_above(q, tree, st, c, k),
{
    assert forall|x: Inst| #[trigger] above(p, tree, x, b, j) implies above(q, tree, x, c, k) by {
        if b != c || j != k {
            lemma_above_chain(p, tree, x, b, j, c, k);
        }
        lemma_above_moves(p, q, tree, x, c, k);
    }
    assert forall|n: usize| #[trigger] st.leaders.contains_key(n) implies above(q, tree, st.leaders[n], c, k) by {
        assert(above(p, tree, st.leaders[n], b, j));
    }
    assert forall|n: usize| #[trigger] st.loads.contains_key(n) implies above(q, tree, st.loads[n], c, k) by {
        assert(above(p, tree, st.loads[n], b, j));
    }
    assert forall|n: int| 0 <= n < st.calls.len() implies above(q, tree, (#[trigger] st.calls[n]).leader, c, k) by {
        assert(above(p, tree, st.calls[n].leader, b, j));
    }
}

pub(crate) proof fn lemma_subsides_above(p: ProgramV, tree: TreeV, st: WalkV, now: WalkV, c: BasicBlock, j: int)
    requires
        leaders_above(p, tree, st, c, j),
        subsides(st, now),
    ensures
        leaders_above(p, tree, now, c, j),
{
    assert forall|n: usize| #[trigger] now.leaders.contains_key(n) implies above(p, tree, now.leaders[n], c, j) by {
        assert(now.leaders.dom().contains(n));
        assert(st.leaders.contains_key(n));
    }
    assert forall|n: usize| #[trigger] now.loads.contains_key(n) implies above(p, tree, now.loads[n], c, j) by {
        assert(now.loads.dom().contains(n));
        assert(st.loads.contains_key(n));
    }
    assert forall|k: int| 0 <= k < now.calls.len() implies above(p, tree, (#[trigger] now.calls[k]).leader, c, j) by {
        let i = st.calls.index_of(now.calls[k]);
        assert(st.calls[i] == now.calls[k]);
    }
}

pub(crate) proof fn lemma_fewer_inherits(base: WalkV, st: WalkV, now: WalkV, added: AddedV)
    requires
        inherits(base, st, added),
        subsides(st, now),
    ensures
        inherits(base, now, added),
{
    assert forall|n: usize| #[trigger] now.leaders.contains_key(n) implies added.leaders.contains(n) || (
    base.leaders.contains_key(n) && base.leaders[n] == now.leaders[n]) by {
        assert(now.leaders.dom().contains(n));
        assert(st.leaders.contains_key(n));
    }
    assert forall|n: usize| #[trigger] now.loads.contains_key(n) implies added.loads.contains(n) || (
    base.loads.contains_key(n) && base.loads[n] == now.loads[n]) by {
        assert(now.loads.dom().contains(n));
        assert(st.loads.contains_key(n));
    }
    assert forall|k: int| 0 <= k < now.calls.len() implies added.calls.contains((#[trigger] now.calls[k]).number)
        || base.calls.contains(now.calls[k]) by {
        let i = st.calls.index_of(now.calls[k]);
        assert(st.calls[i] == now.calls[k]);
    }
}

/// Value `v` joins the leaders under a key that is listed.
proof fn lemma_joins(base: WalkV, st: WalkV, now: WalkV, added: AddedV, more: AddedV)
    requires
        inherits(base, st, added),
        ({
            ||| more.leaders.len() == added.leaders.len() + 1 && more == (AddedV {
                leaders: added.leaders.push(more.leaders.last()),
                ..added
            }) && now.leaders == st.leaders.insert(more.leaders.last(), now.leaders[more.leaders.last()]) && now.loads
                == st.loads && now.calls == st.calls
            ||| more.loads.len() == added.loads.len() + 1 && more == (AddedV {
                loads: added.loads.push(more.loads.last()),
                ..added
            }) && now.loads == st.loads.insert(more.loads.last(), now.loads[more.loads.last()]) && now.leaders
                == st.leaders && now.calls == st.calls
            ||| more.calls.len() == added.calls.len() + 1 && more == (AddedV {
                calls: added.calls.push(more.calls.last()),
                ..added
            }) && now.calls.len() == st.calls.len() + 1 && now.calls == st.calls.push(now.calls.last())
                && now.calls.last().number == more.calls.last() && now.leaders == st.leaders && now.loads == st.loads
        }),
    ensures
        inherits(base, now, more),
{
    assert forall|n: usize| added.leaders.contains(n) implies #[trigger] more.leaders.contains(n) by {
        let i = added.leaders.index_of(n);
        assert(more.leaders[i] == n);
    }
    assert forall|n: usize| added.loads.contains(n) implies #[trigger] more.loads.contains(n) by {
        let i = added.loads.index_of(n);
        assert(more.loads[i] == n);
    }
    assert forall|n: usize| added.calls.contains(n) implies #[trigger] more.calls.contains(n) by {
        let i = added.calls.index_of(n);
        assert(more.calls[i] == n);
    }
    assert forall|n: usize| #[trigger] now.leaders.contains_key(n) implies more.leaders.contains(n) || (
    base.leaders.contains_key(n) && base.leaders[n] == now.leaders[n]) by {
        if more.leaders.len() > added.leaders.len() && n == more.leaders.last() {
            assert(more.leaders[more.leaders.len() - 1] == n);
        } else {
            assert(st.leaders.contains_key(n));
        }
    }
    assert forall|n: usize| #[trigger] now.loads.contains_key(n) implies more.loads.contains(n) || (
    base.loads.contains_key(n) && base.loads[n] == now.loads[n]) by {
        if more.loads.len() > added.loads.len() && n == more.loads.last() {
            assert(more.loads[more.loads.len() - 1] == n);
        } else {
            assert(st.loads.contains_key(n));
        }
    }
    assert forall|k: int| 0 <= k < now.calls.len() implies more.calls.contains((#[trigger] now.calls[k]).number)
        || base.calls.contains(now.calls[k]) by {
        if k == st.calls.len() {
            assert(more.calls[more.calls.len() - 1] == now.calls[k].number);
        } else {
            assert(now.calls[k] == st.calls[k]);
        }
    }
}

pub(crate) proof fn lemma_seen_above(
    a: ProgramV,
    p: ProgramV,
    plan: PlanV,
    tree: TreeV,
    base: WalkV,
    st: WalkV,
    added: AddedV,
    b: BasicBlock,
    k: int,
    v: Inst,
)
    requires
        placed_once(p),
        defined_above(p, tree),
        stands(p, b, k, v),
        leaders_above(p, tree, st, b, k),
        inherits(base, st, added),
    ensures
        ({
            let (q, next, more) = seen(a, p, plan, st, v, added);
            &&& same_places(p, q)
            &&& defined_above(q, tree)
            &&& leaders_above(q, tree, next, b, k + 1)
            &&& inherits(base, next, more)
        }),
{
    let (q, next, more) = seen(a, p, plan, st, v, added);
    assert(above(p, tree, v, b, k + 1)) by {
        assert(stands(p, b, k, v) && precedes(tree, b, k, b, k + 1));
    }
    if p.op(v) is Load {
        let addr = p.arg(v, 0);
        if st.loads.contains_key(addr.0) {
            let leader = st.loads[addr.0];
            assert(above(p, tree, leader, b, k));
            lemma_led_above(p, tree, st, v, leader, b, k);
            lemma_leaders_move(p, q, tree, st, b, k, b, k + 1);
        } else {
            lemma_leaders_move(p, p, tree, st, b, k, b, k + 1);
            lemma_joins(base, st, next, added, more);
        }
    } else {
        let mid = memory_seen(a, st, v);
        lemma_memory_fewer(a, st, v);
        assert(subsides(st, mid));
        lemma_subsides_above(p, tree, st, mid, b, k);
        lemma_fewer_inherits(base, st, mid, added);
        match p.op(v) {
            Op::Call(g) => {
                let (table, n) = call_numbered(p, plan.scope, mid.numbers, v, plan.fuel);
                let base_numbers = if is_pure(plan, g) {
                    table
                } else {
                    mid.numbers
                };
                let numbers = numbered(p, plan.scope, base_numbers, v, plan.fuel).0;
                let now = WalkV { numbers, ..mid };
                assert(leaders_above(p, tree, now, b, k));
                assert(inherits(base, now, added));
                lemma_leaders_move(p, p, tree, now, b, k, b, k + 1);
                if is_pure(plan, g) {
                    lemma_call_leader(now.calls, n, g, 0);
                    match call_leader(now.calls, n, g, 0) {
                        Some(leader) => {
                            let j = choose|j: int|
                                0 <= j < now.calls.len() && (#[trigger] now.calls[j]).number == n && now.calls[j].leader
                                    == leader && now.calls[j].callee == g;
                            assert(above(p, tree, now.calls[j].leader, b, k));
                            lemma_led_above(p, tree, now, v, leader, b, k);
                            lemma_leaders_move(p, q, tree, now, b, k, b, k + 1);
                        },
                        None => {
                            lemma_joins(base, now, next, added, more);
                            assert forall|j: int| 0 <= j < next.calls.len() implies above(
                                p,
                                tree,
                                (#[trigger] next.calls[j]).leader,
                                b,
                                k + 1,
                            ) by {
                                if j < now.calls.len() {
                                    assert(next.calls[j] == now.calls[j]);
                                }
                            }
                        },
                    }
                }
            },
            _ => {
                let (numbers, n) = numbered(p, plan.scope, mid.numbers, v, plan.fuel);
                let now = WalkV { numbers, ..mid };
                assert(leaders_above(p, tree, now, b, k));
                assert(inherits(base, now, added));
                lemma_leaders_move(p, p, tree, now, b, k, b, k + 1);
                if expressible(p, plan.scope, v) {
                    if now.leaders.contains_key(n) {
                        let leader = now.leaders[n];
                        assert(above(p, tree, leader, b, k));
                        lemma_led_above(p, tree, now, v, leader, b, k);
                        lemma_leaders_move(p, q, tree, now, b, k, b, k + 1);
                    } else {
                        lemma_joins(base, now, next, added, more);
                        assert forall|x: usize| #[trigger] next.leaders.contains_key(x) implies above(
                            p,
                            tree,
                            next.leaders[x],
                            b,
                            k + 1,
                        ) by {
                            if x != n {
                                assert(now.leaders.contains_key(x));
                            }
                        }
                    }
                }
            },
        }
    }
}

pub(crate) proof fn lemma_all_seen_above(
    a: ProgramV,
    p: ProgramV,
    plan: PlanV,
    tree: TreeV,
    base: WalkV,
    st: WalkV,
    b: BasicBlock,
    values: Seq<Inst>,
    from: int,
    added: AddedV,
)
    requires
        placed_once(p),
        defined_above(p, tree),
        values == values_of(p, b),
        0 <= from <= values.len(),
        leaders_above(p, tree, st, b, from),
        inherits(base, st, added),
    ensures
        ({
            let (q, next, more) = all_seen(a, p, plan, st, values, from, added);
            &&& same_places(p, q)
            &&& defined_above(q, tree)
            &&& leaders_above(q, tree, next, b, values.len() as int)
            &&& inherits(base, next, more)
        }),
    decreases values.len() - from,
{
    if from < values.len() {
        let v = values[from];
        assert(stands(p, b, from, v));
        let (q, next, more) = seen(a, p, plan, st, v, added);
        lemma_seen_above(a, p, plan, tree, base, st, added, b, from, v);
        lemma_places_stay(p, q);
        lemma_all_seen_above(a, q, plan, tree, base, next, b, values, from + 1, more);
    }
}

pub(crate) proof fn lemma_places_stay(p: ProgramV, q: ProgramV)
    requires
        same_places(p, q),
        placed_once(p),
    ensures
        placed_once(q),
        forall|b: BasicBlock| #[trigger] values_of(q, b) == values_of(p, b),
{
    assert forall|b: BasicBlock, k: int, c: BasicBlock, j: int, x: Inst|
        #[trigger] stands(q, b, k, x) && #[trigger] stands(q, c, j, x) implies b == c && k == j by {
        assert(stands(p, b, k, x));
        assert(stands(p, c, j, x));
    }
}

/// Every child of `b` is another block that `b` dominates.
pub open spec fn below(tree: TreeV, b: BasicBlock, blocks: Seq<BasicBlock>) -> bool {
    forall|k: int| 0 <= k < blocks.len() ==> b != #[trigger] blocks[k] && tree.dominates(b, blocks[k])
}

pub(crate) proof fn lemma_children_below(tree: TreeV, order: Seq<BasicBlock>, b: BasicBlock, from: int, found: Seq<BasicBlock>)
    requires
        below(tree, b, found),
        0 <= from,
    ensures
        below(tree, b, children_from(tree, order, b, from, found)),
    decreases order.len() - from,
{
    if from < order.len() {
        let next = if immediate(tree, order, b, order[from]) {
            found.push(order[from])
        } else {
            found
        };
        assert forall|k: int| 0 <= k < next.len() implies b != #[trigger] next[k] && tree.dominates(b, next[k]) by {
            if k < found.len() {
                assert(next[k] == found[k]);
            }
        }
        lemma_children_below(tree, order, b, from + 1, next);
    }
}

proof fn lemma_calls_left(calls: Seq<CallLeader>, numbers: Seq<usize>, from: int, found: Seq<CallLeader>)
    requires
        0 <= from <= calls.len(),
        forall|k: int|
            0 <= k < found.len() ==> calls.contains(#[trigger] found[k]) && !numbers.contains(found[k].number),
    ensures
        forall|k: int|
            0 <= k < calls_dropped(calls, numbers, from, found).len() ==> calls.contains(
                #[trigger] calls_dropped(calls, numbers, from, found)[k],
            ) && !numbers.contains(calls_dropped(calls, numbers, from, found)[k].number),
    decreases calls.len() - from,
{
    if from < calls.len() {
        let next = if numbers.contains(calls[from].number) {
            found
        } else {
            found.push(calls[from])
        };
        assert(calls_dropped(calls, numbers, from, found) == calls_dropped(calls, numbers, from + 1, next));
        assert forall|k: int| 0 <= k < next.len() implies calls.contains(#[trigger] next[k]) && !numbers.contains(
            next[k].number,
        ) by {
            if k < found.len() {
                assert(next[k] == found[k]);
            } else {
                assert(next[k] == calls[from]);
            }
        }
        lemma_calls_left(calls, numbers, from + 1, next);
    }
}

/// What a block listed goes when the walk leaves it: only what led before leads after.
proof fn lemma_left_subsides(st: WalkV, next: WalkV, done: WalkV, added: AddedV)
    requires
        inherits(st, next, added),
        subsides(next, done),
    ensures
        subsides(st, left(done, added)),
{
    let end = left(done, added);
    lemma_fewer_inherits(st, next, done, added);
    lemma_keys_dropped(done.leaders, added.leaders, 0);
    lemma_keys_dropped(done.loads, added.loads, 0);
    lemma_calls_left(done.calls, added.calls, 0, Seq::empty());
    assert(added.leaders.skip(0) =~= added.leaders);
    assert(added.loads.skip(0) =~= added.loads);
    assert forall|n: usize| #[trigger] end.leaders.dom().contains(n) implies st.leaders.dom().contains(n)
        && st.leaders[n] == end.leaders[n] by {
        assert(end.leaders.contains_key(n));
        assert(done.leaders.contains_key(n));
    }
    assert forall|n: usize| #[trigger] end.loads.dom().contains(n) implies st.loads.dom().contains(n) && st.loads[n]
        == end.loads[n] by {
        assert(end.loads.contains_key(n));
        assert(done.loads.contains_key(n));
    }
    assert forall|k: int| 0 <= k < end.calls.len() implies st.calls.contains(#[trigger] end.calls[k]) by {
        let i = done.calls.index_of(end.calls[k]);
        assert(done.calls[i] == end.calls[k]);
    }
}

pub(crate) proof fn lemma_walked_above(
    a: ProgramV,
    p: ProgramV,
    plan: PlanV,
    tree: TreeV,
    order: Seq<BasicBlock>,
    st: WalkV,
    b: BasicBlock,
    depth: nat,
)
    requires
        placed_once(p),
        defined_above(p, tree),
        leaders_above(p, tree, st, b, 0),
    ensures
        ({
            let (q, done) = walked(a, p, plan, tree, order, st, b, depth);
            same_places(p, q) && defined_above(q, tree) && subsides(st, done)
        }),
    decreases depth, 0int, 0int,
{
    assert(subsides(st, st)) by {
        assert forall|k: int| 0 <= k < st.calls.len() implies st.calls.contains(#[trigger] st.calls[k]) by {}
    }
    if depth > 0 {
        let values = values_of(p, b);
        let start = header_seen(a, tree, plan.way, st, b);
        let (q, next, added) = all_seen(a, p, plan, start, values, 0, nothing_added());
        let blocks = children_from(tree, order, b, 0, Seq::empty());
        let (r, done) = all_walked(a, q, plan, tree, order, next, blocks, 0, (depth - 1) as nat);
        assert(walked(a, p, plan, tree, order, st, b, depth) == (r, left(done, added)));
        assert(subsides(st, start)) by {
            lemma_header_fewer(a, tree, plan.way, st, b);
        }
        assert(inherits(st, st, nothing_added()));
        lemma_fewer_inherits(st, st, start, nothing_added());
        lemma_subsides_above(p, tree, st, start, b, 0);
        lemma_all_seen_above(a, p, plan, tree, st, start, b, values, 0, nothing_added());
        lemma_places_stay(p, q);
        lemma_children_below(tree, order, b, 0, Seq::empty());
        lemma_all_walked_above(
            a,
            q,
            plan,
            tree,
            order,
            next,
            b,
            values.len() as int,
            blocks,
            0,
            (depth - 1) as nat,
        );
        lemma_left_subsides(st, next, done, added);
    }
}

pub(crate) proof fn lemma_all_walked_above(
    a: ProgramV,
    p: ProgramV,
    plan: PlanV,
    tree: TreeV,
    order: Seq<BasicBlock>,
    st: WalkV,
    b: BasicBlock,
    end: int,
    blocks: Seq<BasicBlock>,
    from: int,
    depth: nat,
)
    requires
        placed_once(p),
        defined_above(p, tree),
        leaders_above(p, tree, st, b, end),
        below(tree, b, blocks),
        0 <= from,
    ensures
        ({
            let (q, done) = all_walked(a, p, plan, tree, order, st, blocks, from, depth);
            same_places(p, q) && defined_above(q, tree) && subsides(st, done)
        }),
    decreases depth, 1int, blocks.len() - from,
{
    assert(subsides(st, st)) by {
        assert forall|k: int| 0 <= k < st.calls.len() implies st.calls.contains(#[trigger] st.calls[k]) by {}
    }
    if from < blocks.len() {
        let c = blocks[from];
        lemma_leaders_move(p, p, tree, st, b, end, c, 0);
        let (q, next) = walked(a, p, plan, tree, order, st, c, depth);
        lemma_walked_above(a, p, plan, tree, order, st, c, depth);
        lemma_places_stay(p, q);
        lemma_leaders_move(p, q, tree, st, b, end, b, end);
        lemma_subsides_above(q, tree, st, next, b, end);
        lemma_all_walked_above(a, q, plan, tree, order, next, b, end, blocks, from + 1, depth);
        let done = all_walked(a, q, plan, tree, order, next, blocks, from + 1, depth).1;
        assert(subsides(st, done)) by {
            assert forall|n: usize| #[trigger] done.leaders.dom().contains(n) implies st.leaders.dom().contains(n)
                && st.leaders[n] == done.leaders[n] by {
                assert(next.leaders.dom().contains(n));
            }
            assert forall|n: usize| #[trigger] done.loads.dom().contains(n) implies st.loads.dom().contains(n)
                && st.loads[n] == done.loads[n] by {
                assert(next.loads.dom().contains(n));
            }
            assert forall|k: int| 0 <= k < done.calls.len() implies st.calls.contains(#[trigger] done.calls[k]) by {
                let i = next.calls.index_of(done.calls[k]);
                assert(next.calls[i] == done.calls[k]);
            }
        }
    }
}

/// Replacing values by those computed before keeps the definition of every used value on every walk to
/// its use, and moves no value.
pub proof fn replacing_keeps_definitions_above(p: ProgramV, f: Function)
    requires
        placed_once(p),
        defined_above(p, tree_of(p, f)),
    ensures
        reduced(p, f).0.blocks == p.blocks,
        defined_above(reduced(p, f).0, tree_of(p, f)),
{
    match entry_of(p, f) {
        None => {},
        Some(entry) => {
            let order = reverse_postorder(p, f);
            lemma_walked_above(p, p, plan_of(p, f), tree_of(p, f), order, fresh_walk(), entry, order.len());
        },
    }
}

} // verus!
