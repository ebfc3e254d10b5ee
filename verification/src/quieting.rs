//! Nothing that a load or a call reads is written between it and its leader.
//!
//! The walk forgets a leader at every write that it comes to, and at the head of every loop that may write.
//! Of the blocks on a way from a leader to a value, the one that the walk comes to first is the one with the
//! write or the head of a loop that holds it, so the leader was forgotten there.

use vstd::prelude::*;

use crate::cfg::{entry_of, none, reverse_postorder, tree_of, TreeV};
use crate::graph::{reach_in, reaches, reaches_is_transitive};
use crate::gvn::{
    all_seen, all_walked, any_hits, block_writers, call_leader, call_seen, children_from, fresh_walk,
    header_seen, heads_loop, hits, is_pure, led, left, loop_hits, memory_seen, nothing_added, plan_of, reduced,
    seen, spares_loads, walked, way_from, ways_from, write_seen, writer_of, writers_in, AddedV, PlanV, WalkV, Writer,
};
use crate::ir::{position, BasicBlock, Function, Inst, Op, ProgramV};
use crate::leading::{
    invalidation_is_precise, lemma_call_leader, lemma_header_fewer, lemma_left_fewer, lemma_loop_spared,
    lemma_memory_fewer,
};
use crate::scoping::{
    above, defined_above, inherits, leaders_above, lemma_all_seen_above, lemma_children_below,
    lemma_leaders_move, lemma_places_stay, lemma_seen_above, lemma_subsides_above,
    lemma_walked_above, placed_once, precedes, stands, subsides, values_of,
};
use crate::walking::{
    is_walk, lemma_dominators_first, lemma_order_once, lemma_position, lemma_walk,
};

verus! {

/// Value `i` may write what value `v`, a load or a call, reads.
pub open spec fn disturbs(p: ProgramV, i: Inst, v: Inst) -> bool {
    match writer_of(p, i) {
        None => false,
        Some(w) => match p.op(v) {
            Op::Load => !spares_loads(p, w),
            Op::Call(g) => hits(p, w, g),
            _ => false,
        },
    }
}

/// Place `b` comes right after place `a`: next in its block, or first in a block that control gets to.
pub open spec fn comes_next(p: ProgramV, tree: TreeV, a: (BasicBlock, int), b: (BasicBlock, int)) -> bool {
    &&& 0 <= a.1 < values_of(p, a.0).len()
    &&& 0 <= b.1 < values_of(p, b.0).len()
    &&& if a.1 + 1 < values_of(p, a.0).len() {
        b == (a.0, a.1 + 1)
    } else {
        b.1 == 0 && tree.edges.contains((a.0.0, b.0.0))
    }
}

/// The places `w` come one after the other.
pub open spec fn is_passage(p: ProgramV, tree: TreeV, w: Seq<(BasicBlock, int)>) -> bool {
    w.len() > 0 && forall|k: int| 0 <= k < w.len() - 1 ==> comes_next(p, tree, #[trigger] w[k], w[k + 1])
}

/// The places `w` lead from value `l` to value `v` and do not come to `l` again.
pub open spec fn leads(p: ProgramV, tree: TreeV, w: Seq<(BasicBlock, int)>, l: Inst, v: Inst) -> bool {
    &&& is_passage(p, tree, w)
    &&& stands(p, w[0].0, w[0].1, l)
    &&& stands(p, w.last().0, w.last().1, v)
    &&& forall|k: int| 0 < k < w.len() ==> !stands(p, (#[trigger] w[k]).0, w[k].1, l)
}

/// On no way from `l` to `v` that does not pass `l` again is anything run that may write what `v` reads.
pub open spec fn quiet_between(p: ProgramV, f: Function, l: Inst, v: Inst) -> bool {
    forall|w: Seq<(BasicBlock, int)>, i: int|
        #[trigger] leads(p, tree_of(p, f), w, l, v) && 0 < i < w.len() - 1 ==> !disturbs(
            p,
            values_of(p, (#[trigger] w[i]).0)[w[i].1],
            v,
        )
}

/// A loop through block `y` may write what `l` reads.
pub open spec fn loop_disturbs(p: ProgramV, tree: TreeV, way: Seq<BasicBlock>, y: BasicBlock, l: Inst) -> bool {
    heads_loop(tree, way, y, 0) && match p.op(l) {
        Op::Load => true,
        Op::Call(g) => loop_hits(p, tree, way, y, g, 0),
        _ => false,
    }
}

/// Place `i` of block number `m` is walked before place `j` of block number `n`.
pub open spec fn earlier(m: int, i: int, n: int, j: int) -> bool {
    m < n || (m == n && i < j)
}

/// Value `l`, at place `i` of block number `a`, is walked before place `j` of block number `n`, and nothing
/// walked between them, no place and no head of a loop before number `h`, disturbs it.
pub open spec fn undisturbed(
    p: ProgramV,
    tree: TreeV,
    way: Seq<BasicBlock>,
    l: Inst,
    a: int,
    i: int,
    n: int,
    j: int,
    h: int,
) -> bool {
    &&& 0 <= a < way.len()
    &&& stands(p, way[a], i, l)
    &&& earlier(a, i, n, j)
    &&& forall|m: int, k: int|
        0 <= m < way.len() && 0 <= k < values_of(p, way[m]).len() && earlier(a, i, m, k) && earlier(m, k, n, j)
            ==> !disturbs(p, #[trigger] values_of(p, way[m])[k], l)
    &&& forall|m: int| a < m < h && m < way.len() ==> !loop_disturbs(p, tree, way, #[trigger] way[m], l)
}

pub open spec fn calm(p: ProgramV, tree: TreeV, way: Seq<BasicBlock>, l: Inst, n: int, j: int, h: int) -> bool {
    exists|a: int, i: int| undisturbed(p, tree, way, l, a, i, n, j, h)
}

/// Value `x` is walked before place `j` of block number `n`.
pub open spec fn walked_before(p: ProgramV, way: Seq<BasicBlock>, x: Inst, n: int, j: int) -> bool {
    exists|m: int, i: int| 0 <= m < way.len() && #[trigger] stands(p, way[m], i, x) && earlier(m, i, n, j)
}

/// The leaders were walked before, and what loads and calls among them read was not written since.
pub open spec fn all_calm(p: ProgramV, tree: TreeV, way: Seq<BasicBlock>, st: WalkV, n: int, j: int, h: int) -> bool {
    &&& forall|x: usize| #[trigger] st.leaders.contains_key(x) ==> walked_before(p, way, st.leaders[x], n, j)
    &&& forall|x: usize| #[trigger]
        st.loads.contains_key(x) ==> p.op(st.loads[x]) is Load && calm(p, tree, way, st.loads[x], n, j, h)
    &&& forall|k: int|
        0 <= k < st.calls.len() ==> p.op((#[trigger] st.calls[k]).leader) == Op::Call(st.calls[k].callee) && calm(
            p,
            tree,
            way,
            st.calls[k].leader,
            n,
            j,
            h,
        )
}

/// Every walk to value `v` comes past value `l` first.
pub open spec fn comes_first(p: ProgramV, tree: TreeV, l: Inst, v: Inst) -> bool {
    exists|b: BasicBlock, k: int| #[trigger] stands(p, b, k, v) && above(p, tree, l, b, k)
}

pub(crate) proof fn lemma_comes_first(p: ProgramV, q: ProgramV, tree: TreeV, l: Inst, v: Inst, b: BasicBlock, j: int)
    requires
        q.blocks == p.blocks,
        stands(p, b, j, v),
        above(q, tree, l, b, j),
    ensures
        comes_first(p, tree, l, v),
{
    let (c, k) = choose|c: BasicBlock, k: int| #[trigger] stands(q, c, k, l) && precedes(tree, c, k, b, j);
    assert(stands(p, c, k, l));
}

/// Values that read the same are disturbed by the same.
pub open spec fn reads_like(p: ProgramV, l: Inst, v: Inst) -> bool {
    (p.op(l) is Load && p.op(v) is Load) || (p.op(l) is Call && p.op(l) == p.op(v))
}

/// Value `l` can stand for value `v`, a load or a call: it reads the same, comes first on every walk to it, and
/// nothing that they read is written between them.
pub open spec fn reads_the_same(p: ProgramV, f: Function, l: Inst, v: Inst) -> bool {
    reads_like(p, l, v) && comes_first(p, tree_of(p, f), l, v) && quiet_between(p, f, l, v)
}

/// Operand `k` of `i` is in `q` what it was in `p`, or a value walked before; then nothing that the old one
/// reads is written between the two.
pub open spec fn kept_or_quiet(p: ProgramV, q: ProgramV, f: Function, way: Seq<BasicBlock>, i: Inst, k: int, n: int, j: int) -> bool {
    q.args(i)[k] == p.args(i)[k] || (walked_before(p, way, q.args(i)[k], n, j) && (p.op(p.args(i)[k]) is Load || p.op(
        p.args(i)[k],
    ) is Call ==> reads_the_same(p, f, q.args(i)[k], p.args(i)[k])))
}

/// `q` is `p` with operands replaced quietly.
pub open spec fn replaced_quietly(p: ProgramV, q: ProgramV, f: Function, way: Seq<BasicBlock>, n: int, j: int) -> bool {
    &&& q.blocks == p.blocks
    &&& q.insts.len() == p.insts.len()
    &&& forall|i: Inst| #[trigger] q.op(i) == p.op(i)
    &&& forall|i: Inst| (#[trigger] q.args(i)).len() == p.args(i).len()
    &&& forall|i: Inst, k: int| 0 <= k < p.args(i).len() ==> #[trigger] kept_or_quiet(p, q, f, way, i, k, n, j)
}

/// What the walk over function `f` of `p` goes by.
pub open spec fn is_setting(p: ProgramV, f: Function, plan: PlanV, tree: TreeV, order: Seq<BasicBlock>) -> bool {
    &&& placed_once(p)
    &&& p.blocks.len() <= usize::MAX
    &&& entry_of(p, f) is Some
    &&& tree == tree_of(p, f)
    &&& order == reverse_postorder(p, f)
    &&& plan == plan_of(p, f)
    &&& plan.way.len() > 0
    &&& is_walk(tree, order, plan.way[0], plan.way)
    &&& plan.way[0].0 == tree.entry
}

/// A way that does not come to place `k` of block `b` again does not come to an earlier place of it.
proof fn lemma_never_back(p: ProgramV, tree: TreeV, w: Seq<(BasicBlock, int)>, b: BasicBlock, k: int, r: int)
    requires
        is_passage(p, tree, w),
        0 <= k < values_of(p, b).len(),
        forall|s: int| 0 < s < w.len() ==> #[trigger] w[s] != (b, k),
        w.last().0 == b ==> w.last().1 > k,
        0 < r < w.len(),
    ensures
        w[r].0 == b ==> w[r].1 > k,
    decreases w.len() - r,
{
    if r < w.len() - 1 {
        lemma_never_back(p, tree, w, b, k, r + 1);
        assert(comes_next(p, tree, w[r], w[r + 1]));
        assert(w[r] != (b, k));
    }
}

/// From a place on such a way outside of block `b`, control gets to the end of the way without `b`.
proof fn lemma_leads_on(p: ProgramV, tree: TreeV, w: Seq<(BasicBlock, int)>, b: BasicBlock, k: int, r: int)
    requires
        is_passage(p, tree, w),
        0 <= k < values_of(p, b).len(),
        forall|s: int| 0 < s < w.len() ==> #[trigger] w[s] != (b, k),
        w.last().0 == b ==> w.last().1 > k,
        0 < r < w.len(),
        w[r].0 != b,
    ensures
        w.last().0 != b,
        reaches(tree.edges, b.0 as int, w[r].0.0 as int, w.last().0.0 as int),
    decreases w.len() - r,
{
    let x = w[r].0.0 as int;
    assert(x != b.0);
    if r == w.len() - 1 {
        assert(reach_in(tree.edges, b.0 as int, x, x, 0));
    } else {
        assert(comes_next(p, tree, w[r], w[r + 1]));
        lemma_never_back(p, tree, w, b, k, r + 1);
        lemma_leads_on(p, tree, w, b, k, r + 1);
        if w[r + 1].0 != w[r].0 || w[r].1 + 1 >= values_of(p, w[r].0).len() {
            let y = w[r + 1].0.0 as int;
            let e = tree.edges.index_of((w[r].0.0, w[r + 1].0.0));
            assert(tree.edges[e].1 == y);
            assert(reach_in(tree.edges, b.0 as int, x, x, 0));
            assert(reach_in(tree.edges, b.0 as int, x, y, 1));
            reaches_is_transitive(tree.edges, b.0 as int, x, y, w.last().0.0 as int);
        }
    }
}

/// Control gets from each place of a way to the later ones.
proof fn lemma_flows(p: ProgramV, tree: TreeV, w: Seq<(BasicBlock, int)>, r: int, s: int)
    requires
        is_passage(p, tree, w),
        p.blocks.len() <= usize::MAX,
        0 <= r <= s < w.len(),
        0 <= w[r].1 < values_of(p, w[r].0).len(),
    ensures
        reaches(tree.edges, none(), w[r].0.0 as int, w[s].0.0 as int),
        0 <= w[s].1 < values_of(p, w[s].0).len(),
        w[s].0.0 < p.blocks.len(),
    decreases s - r,
{
    let x = w[r].0.0 as int;
    if s == r {
        assert(reach_in(tree.edges, none(), x, x, 0));
    } else {
        lemma_flows(p, tree, w, r, s - 1);
        assert(comes_next(p, tree, w[s - 1], w[s - 1 + 1]));
        let y = w[s - 1].0.0 as int;
        let z = w[s].0.0 as int;
        assert(w[s].0.0 < p.blocks.len());
        if w[s - 1].1 + 1 >= values_of(p, w[s - 1].0).len() {
            let e = tree.edges.index_of((w[s - 1].0.0, w[s].0.0));
            assert(tree.edges[e].1 == z);
            let m = choose|m: nat| reach_in(tree.edges, none(), x, y, m);
            assert(reach_in(tree.edges, none(), x, z, m + 1));
        }
    }
}

/// A place of a way at which it enters a block.
pub open spec fn enters(p: ProgramV, w: Seq<(BasicBlock, int)>, s: int) -> bool {
    0 < s < w.len() && w[s].1 == 0 && w[s - 1].1 + 1 >= values_of(p, w[s - 1].0).len()
}

/// Before a block is entered the block at hand is left by an edge from which control gets there.
proof fn lemma_exit(p: ProgramV, tree: TreeV, w: Seq<(BasicBlock, int)>, i: int, s: int) -> (e: int)
    requires
        is_passage(p, tree, w),
        p.blocks.len() <= usize::MAX,
        0 <= i < s < w.len(),
        enters(p, w, s),
        0 <= w[i].1 < values_of(p, w[i].0).len(),
    ensures
        0 <= e < tree.edges.len(),
        tree.edges[e].0 == w[i].0.0,
        tree.edges[e].1 < p.blocks.len(),
        reaches(tree.edges, none(), tree.edges[e].1 as int, w[s].0.0 as int),
    decreases s - i,
{
    assert(comes_next(p, tree, w[i], w[i + 1]));
    if w[i].1 + 1 < values_of(p, w[i].0).len() {
        if i + 1 == s {
            assert(w[s - 1] == w[i]);
        }
        lemma_exit(p, tree, w, i + 1, s)
    } else {
        lemma_flows(p, tree, w, i + 1, s);
        tree.edges.index_of((w[i].0.0, w[i + 1].0.0))
    }
}

/// A later place of a way is in the block at hand, or its block was entered since.
proof fn lemma_run_start(p: ProgramV, tree: TreeV, w: Seq<(BasicBlock, int)>, i: int, r: int)
    requires
        is_passage(p, tree, w),
        0 <= i <= r < w.len(),
    ensures
        (w[r].0 == w[i].0 && w[r].1 == w[i].1 + (r - i)) || exists|s: int|
            i < s <= r && #[trigger] enters(p, w, s) && w[s].0 == w[r].0,
    decreases r - i,
{
    if i < r {
        lemma_run_start(p, tree, w, i, r - 1);
        assert(comes_next(p, tree, w[r - 1], w[r - 1 + 1]));
        if w[r - 1].1 + 1 >= values_of(p, w[r - 1].0).len() {
            assert(enters(p, w, r));
        } else if !(w[r - 1].0 == w[i].0 && w[r - 1].1 == w[i].1 + (r - 1 - i)) {
            let s = choose|s: int| i < s <= r - 1 && #[trigger] enters(p, w, s) && w[s].0 == w[r - 1].0;
            assert(enters(p, w, s) && w[s].0 == w[r].0);
        }
    }
}

/// The place of a way from `i` on whose block the walk comes to first.
proof fn lemma_least(way: Seq<BasicBlock>, w: Seq<(BasicBlock, int)>, i: int) -> (r: int)
    requires
        0 <= i < w.len(),
    ensures
        i <= r < w.len(),
        forall|s: int|
            i <= s < w.len() ==> position(way, w[r].0, 0) <= position(way, (#[trigger] w[s]).0, 0),
    decreases w.len() - i,
{
    if i == w.len() - 1 {
        i
    } else {
        let r = lemma_least(way, w, i + 1);
        if position(way, w[i].0, 0) <= position(way, w[r].0, 0) {
            i
        } else {
            r
        }
    }
}

proof fn lemma_heads(tree: TreeV, way: Seq<BasicBlock>, b: BasicBlock, from: int, e: int)
    requires
        0 <= from <= e < tree.edges.len(),
        tree.edges[e].1 == b.0,
        tree.contains(BasicBlock(tree.edges[e].0)),
        position(way, BasicBlock(tree.edges[e].0), 0) >= position(way, b, 0),
    ensures
        heads_loop(tree, way, b, from),
    decreases tree.edges.len() - from,
{
    if from < e {
        lemma_heads(tree, way, b, from + 1, e);
    }
}

proof fn lemma_loop_hits(
    p: ProgramV,
    tree: TreeV,
    way: Seq<BasicBlock>,
    b: BasicBlock,
    callee: Function,
    from: int,
    e: int,
)
    requires
        0 <= from <= e < tree.edges.len(),
        tree.contains(BasicBlock(tree.edges[e].0)),
        position(way, BasicBlock(tree.edges[e].0), 0) >= position(way, b, 0),
        tree.flows(BasicBlock(tree.edges[e].1), b),
        any_hits(p, block_writers(p, BasicBlock(tree.edges[e].0)), callee, 0),
    ensures
        loop_hits(p, tree, way, b, callee, from),
    decreases tree.edges.len() - from,
{
    if from < e {
        lemma_loop_hits(p, tree, way, b, callee, from + 1, e);
    }
}

proof fn lemma_any_hits(p: ProgramV, writers: Seq<Writer>, callee: Function, from: int, k: int)
    requires
        0 <= from <= k < writers.len(),
        hits(p, writers[k], callee),
    ensures
        any_hits(p, writers, callee, from),
    decreases writers.len() - from,
{
    if from < k {
        lemma_any_hits(p, writers, callee, from + 1, k);
    }
}

proof fn lemma_writers_in(p: ProgramV, values: Seq<Inst>, from: int, found: Seq<Writer>, k: int, w: Writer)
    requires
        0 <= from <= values.len(),
        found.contains(w) || (from <= k < values.len() && writer_of(p, values[k]) == Some(w)),
    ensures
        writers_in(p, values, from, found).contains(w),
    decreases values.len() - from,
{
    if from < values.len() {
        match writer_of(p, values[from]) {
            Some(x) => {
                let next = found.push(x);
                assert(next[found.len() as int] == x);
                if found.contains(w) {
                    assert(next[found.index_of(w)] == w);
                }
                lemma_writers_in(p, values, from + 1, next, k, w);
            },
            None => {
                lemma_writers_in(p, values, from + 1, found, k, w);
            },
        }
    }
}

/// Where the leader was not disturbed on the walk, no place of a way to the value disturbs it.
#[verifier::rlimit(30)]
proof fn lemma_no_noise(
    p: ProgramV,
    f: Function,
    plan: PlanV,
    tree: TreeV,
    order: Seq<BasicBlock>,
    l: Inst,
    v: Inst,
    a: int,
    k: int,
    n: int,
    j: int,
    w: Seq<(BasicBlock, int)>,
    i: int,
)
    requires
        is_setting(p, f, plan, tree, order),
        0 <= n < plan.way.len(),
        stands(p, plan.way[n], j, v),
        undisturbed(p, tree, plan.way, l, a, k, n, j, n + 1),
        precedes(tree, plan.way[a], k, plan.way[n], j),
        reads_like(p, l, v),
        leads(p, tree, w, l, v),
        0 < i < w.len() - 1,
    ensures
        !disturbs(p, values_of(p, w[i].0)[w[i].1], v),
{
    let way = plan.way;
    let b = way[a];
    let last = w.len() - 1;
    assert(w[0].0 == b && w[0].1 == k) by {
        assert(stands(p, w[0].0, w[0].1, l) && stands(p, b, k, l));
    }
    assert(w[last].0 == way[n] && w[last].1 == j) by {
        assert(stands(p, w.last().0, w.last().1, v) && stands(p, way[n], j, v));
    }
    assert forall|s: int| 0 < s < w.len() implies #[trigger] w[s] != (b, k) by {
        assert(!stands(p, w[s].0, w[s].1, l));
    }
    if disturbs(p, values_of(p, w[i].0)[w[i].1], v) {
        lemma_flows(p, tree, w, 0, i);
        let x = w[i].0;
        let r = lemma_least(way, w, i);
        let m = position(way, w[r].0, 0);
        lemma_position(way, w[r].0, 0);
        lemma_position(way, way[n], 0);
        assert(position(way, w[last].0, 0) <= n);
        assert(m <= n);
        assert(way[m] == w[r].0);
        // What is on the way outside of the first block is below it.
        assert forall|s: int| 0 < s < w.len() && (#[trigger] w[s]).0 != b implies tree.dominates(b, w[s].0) && tree.contains(
            w[s].0,
        ) by {
            lemma_leads_on(p, tree, w, b, k, s);
            lemma_flows(p, tree, w, 0, s);
            assert(tree.dominates(way[0], b));
            reaches_is_transitive(tree.edges, none(), tree.entry, b.0 as int, w[s].0.0 as int);
            if reaches(tree.edges, b.0 as int, tree.entry, w[s].0.0 as int) {
                reaches_is_transitive(tree.edges, b.0 as int, tree.entry, w[s].0.0 as int, way[n].0 as int);
            }
        }
        assert(tree.contains(b)) by {
            lemma_flows(p, tree, w, 0, 0);
            assert(tree.dominates(way[0], b));
        }
        if exists|s: int| i < s < w.len() && #[trigger] enters(p, w, s) && w[s].0 == way[m] {
            let s = choose|s: int| i < s < w.len() && #[trigger] enters(p, w, s) && w[s].0 == way[m];
            lemma_never_back(p, tree, w, b, k, s);
            assert(way[m] != b);
            assert(tree.dominates(b, w[s].0));
            lemma_dominators_first(tree, order, way, a, m);
            assert(comes_next(p, tree, w[s - 1], w[s - 1 + 1]));
            let e = tree.edges.index_of((w[s - 1].0.0, w[s].0.0));
            assert(tree.contains(w[s - 1].0));
            assert(position(way, w[s - 1].0, 0) >= m);
            assert(position(way, way[m], 0) == m);
            assert(BasicBlock(tree.edges[e].0) == w[s - 1].0);
            lemma_heads(tree, way, way[m], 0, e);
            if let Op::Call(g) = p.op(v) {
                let c = lemma_exit(p, tree, w, i, s);
                assert(BasicBlock(tree.edges[c].0) == x);
                let wr = writer_of(p, values_of(p, x)[w[i].1])->0;
                lemma_writers_in(p, values_of(p, x), 0, Seq::empty(), w[i].1, wr);
                let all = block_writers(p, x);
                lemma_any_hits(p, all, g, 0, all.index_of(wr));
                lemma_flows(p, tree, w, 0, s);
                assert(position(way, x, 0) >= m);
                lemma_loop_hits(p, tree, way, way[m], g, 0, c);
            }
            assert(loop_disturbs(p, tree, way, way[m], l));
        } else {
            lemma_run_start(p, tree, w, i, r);
            assert(w[r].0 == x);
            lemma_run_start(p, tree, w, i, last);
            if m == n {
                assert(w[i].1 < j);
            }
            lemma_never_back(p, tree, w, b, k, i);
            if x != b {
                assert(tree.dominates(b, w[i].0));
                lemma_dominators_first(tree, order, way, a, m);
            } else {
                assert(way[m] == way[a]);
                assert(m == a);
            }
            assert(!disturbs(p, values_of(p, way[m])[w[i].1], l));
        }
    }
}

proof fn lemma_quiet(
    p: ProgramV,
    f: Function,
    plan: PlanV,
    tree: TreeV,
    order: Seq<BasicBlock>,
    l: Inst,
    v: Inst,
    n: int,
    j: int,
)
    requires
        is_setting(p, f, plan, tree, order),
        0 <= n < plan.way.len(),
        stands(p, plan.way[n], j, v),
        calm(p, tree, plan.way, l, n, j, n + 1),
        above(p, tree, l, plan.way[n], j),
        reads_like(p, l, v),
    ensures
        quiet_between(p, f, l, v),
{
    let way = plan.way;
    let h = n + 1;
    let (a, k) = choose|a: int, k: int| undisturbed(p, tree, way, l, a, k, n, j, h);
    let (b, i) = choose|b: BasicBlock, i: int| #[trigger] stands(p, b, i, l) && precedes(tree, b, i, way[n], j);
    assert(b == way[a] && i == k);
    assert forall|w: Seq<(BasicBlock, int)>, i: int|
        #[trigger] leads(p, tree_of(p, f), w, l, v) && 0 < i < w.len() - 1 implies !disturbs(
        p,
        values_of(p, (#[trigger] w[i]).0)[w[i].1],
        v,
    ) by {
        lemma_no_noise(p, f, plan, tree, order, l, v, a, k, n, j, w, i);
    }
}

/// What does not disturb a leader leaves it calm.
proof fn lemma_calm_on(p: ProgramV, tree: TreeV, way: Seq<BasicBlock>, l: Inst, n: int, j: int, h: int, v: Inst)
    requires
        calm(p, tree, way, l, n, j, h),
        stands(p, way[n], j, v),
        !disturbs(p, v, l),
    ensures
        calm(p, tree, way, l, n, j + 1, h),
{
    let (a, i) = choose|a: int, i: int| undisturbed(p, tree, way, l, a, i, n, j, h);
    let next = j + 1;
    assert forall|m: int, k: int|
        0 <= m < way.len() && 0 <= k < values_of(p, way[m]).len() && earlier(a, i, m, k) && earlier(m, k, n, next) implies !disturbs(
        p,
        #[trigger] values_of(p, way[m])[k],
        l,
    ) by {
        if !earlier(m, k, n, j) {
            assert(m == n && k == j);
        }
    }
    assert(undisturbed(p, tree, way, l, a, i, n, next, h));
}

/// What is calm, and walked, is so where fewer lead.
proof fn lemma_fewer_calm(
    p: ProgramV,
    tree: TreeV,
    way: Seq<BasicBlock>,
    st: WalkV,
    now: WalkV,
    n: int,
    j: int,
    h: int,
)
    requires
        all_calm(p, tree, way, st, n, j, h),
        subsides(st, now),
    ensures
        all_calm(p, tree, way, now, n, j, h),
{
    assert forall|x: usize| #[trigger] now.leaders.contains_key(x) implies walked_before(p, way, now.leaders[x], n, j) by {
        assert(now.leaders.dom().contains(x));
        assert(st.leaders.contains_key(x));
    }
    assert forall|x: usize| #[trigger] now.loads.contains_key(x) implies p.op(now.loads[x]) is Load && calm(
        p,
        tree,
        way,
        now.loads[x],
        n,
        j,
        h,
    ) by {
        assert(now.loads.dom().contains(x));
        assert(st.loads.contains_key(x));
    }
    assert forall|k: int| 0 <= k < now.calls.len() implies p.op((#[trigger] now.calls[k]).leader) == Op::Call(
        now.calls[k].callee,
    ) && calm(p, tree, way, now.calls[k].leader, n, j, h) by {
        let i = st.calls.index_of(now.calls[k]);
        assert(st.calls[i] == now.calls[k]);
    }
}

proof fn lemma_walked_on(p: ProgramV, way: Seq<BasicBlock>, x: Inst, n: int, j: int, n2: int, j2: int)
    requires
        walked_before(p, way, x, n, j),
        n < n2 || (n == n2 && j <= j2),
    ensures
        walked_before(p, way, x, n2, j2),
{
    let (m, i) = choose|m: int, i: int| 0 <= m < way.len() && #[trigger] stands(p, way[m], i, x) && earlier(m, i, n, j);
    assert(stands(p, way[m], i, x) && earlier(m, i, n2, j2));
}

pub(crate) proof fn lemma_replaced_on(p: ProgramV, q: ProgramV, f: Function, way: Seq<BasicBlock>, n: int, j: int, n2: int, j2: int)
    requires
        replaced_quietly(p, q, f, way, n, j),
        n < n2 || (n == n2 && j <= j2),
    ensures
        replaced_quietly(p, q, f, way, n2, j2),
{
    assert forall|i: Inst, k: int| 0 <= k < p.args(i).len() implies #[trigger] kept_or_quiet(p, q, f, way, i, k, n2, j2) by {
        assert(kept_or_quiet(p, q, f, way, i, k, n, j));
        if q.args(i)[k] != p.args(i)[k] {
            lemma_walked_on(p, way, q.args(i)[k], n, j, n2, j2);
        }
    }
}

/// A write that is walked leaves those leaders that it does not disturb, and they are calm after it.
proof fn lemma_memory_calm(
    p: ProgramV,
    tree: TreeV,
    way: Seq<BasicBlock>,
    st: WalkV,
    v: Inst,
    n: int,
    j: int,
    h: int,
)
    requires
        all_calm(p, tree, way, st, n, j, h),
        stands(p, way[n], j, v),
    ensures
        all_calm(p, tree, way, memory_seen(p, st, v), n, j, h),
        all_calm(p, tree, way, memory_seen(p, st, v), n, j + 1, h),
{
    let now = memory_seen(p, st, v);
    lemma_memory_fewer(p, st, v);
    lemma_fewer_calm(p, tree, way, st, now, n, j, h);
    if let Some(w) = writer_of(p, v) {
        invalidation_is_precise(p, st, w);
    }
    assert forall|x: usize| #[trigger] now.leaders.contains_key(x) implies walked_before(p, way, now.leaders[x], n, j + 1) by {
        lemma_walked_on(p, way, now.leaders[x], n, j, n, j + 1);
    }
    assert forall|x: usize| #[trigger] now.loads.contains_key(x) implies p.op(now.loads[x]) is Load && calm(
        p,
        tree,
        way,
        now.loads[x],
        n,
        j + 1,
        h,
    ) by {
        lemma_calm_on(p, tree, way, now.loads[x], n, j, h, v);
    }
    assert forall|k: int| 0 <= k < now.calls.len() implies p.op((#[trigger] now.calls[k]).leader) == Op::Call(
        now.calls[k].callee,
    ) && calm(p, tree, way, now.calls[k].leader, n, j + 1, h) by {
        if let Some(w) = writer_of(p, v) {
            assert(write_seen(p, st, w).calls.contains(now.calls[k]));
        }
        lemma_calm_on(p, tree, way, now.calls[k].leader, n, j, h, v);
    }
}

/// A value that was just walked is calm.
proof fn lemma_new_calm(p: ProgramV, tree: TreeV, way: Seq<BasicBlock>, v: Inst, n: int, j: int)
    requires
        0 <= n < way.len(),
        stands(p, way[n], j, v),
    ensures
        calm(p, tree, way, v, n, j + 1, n + 1),
        walked_before(p, way, v, n, j + 1),
{
    assert(stands(p, way[n], j, v) && earlier(n, j, n, j + 1));
    assert(undisturbed(p, tree, way, v, n, j, n, j + 1, n + 1));
}

/// Uses of `v` made uses of a leader to which nothing was written that `v` reads.
proof fn lemma_led_quietly(
    p: ProgramV,
    q: ProgramV,
    f: Function,
    way: Seq<BasicBlock>,
    st: WalkV,
    v: Inst,
    l: Inst,
    n: int,
    j: int,
)
    requires
        placed_once(p),
        way.no_duplicates(),
        0 <= n < way.len(),
        stands(p, way[n], j, v),
        replaced_quietly(p, q, f, way, n, j),
        walked_before(p, way, l, n, j),
        p.op(v) is Load || p.op(v) is Call ==> reads_the_same(p, f, l, v),
    ensures
        replaced_quietly(p, led(q, st, v, l).0, f, way, n, j + 1),
{
    lemma_replaced_on(p, q, f, way, n, j, n, j + 1);
    let r = led(q, st, v, l).0;
    if v != l && q.is_used(v) {
        reveal(ProgramV::replace_uses);
        assert forall|i: Inst| #[trigger] r.op(i) == p.op(i) by {
            assert(q.op(i) == p.op(i));
            if i.0 < q.insts.len() {
                assert(r.insts[i.0 as int] == q.insts[i.0 as int].replaced(v, l));
            }
        }
        assert forall|i: Inst| (#[trigger] r.args(i)).len() == p.args(i).len() by {
            assert(q.args(i).len() == p.args(i).len());
            if i.0 < q.insts.len() {
                assert(r.insts[i.0 as int] == q.insts[i.0 as int].replaced(v, l));
            }
        }
        lemma_walked_on(p, way, l, n, j, n, j + 1);
        assert forall|i: Inst, k: int| 0 <= k < p.args(i).len() implies #[trigger] kept_or_quiet(
            p,
            r,
            f,
            way,
            i,
            k,
            n,
            j + 1,
        ) by {
            assert(q.args(i).len() == p.args(i).len());
            assert(i.0 < q.insts.len());
            assert(r.insts[i.0 as int] == q.insts[i.0 as int].replaced(v, l));
            assert(kept_or_quiet(p, q, f, way, i, k, n, j));
            assert(kept_or_quiet(p, q, f, way, i, k, n, j + 1));
            if q.args(i)[k] == v {
                assert(r.args(i)[k] == l);
                if p.args(i)[k] != v {
                    let (m, c) = choose|m: int, c: int|
                        0 <= m < way.len() && #[trigger] stands(p, way[m], c, v) && earlier(m, c, n, j);
                    assert(stands(p, way[m], c, v) && stands(p, way[n], j, v));
                    assert(way[m] == way[n]);
                }
            } else {
                assert(r.args(i)[k] == q.args(i)[k]);
            }
        }
    }
}

/// A value visited: the leaders stay calm, and operands are replaced quietly.
pub(crate) proof fn lemma_seen_quiet(
    p: ProgramV,
    q: ProgramV,
    f: Function,
    plan: PlanV,
    tree: TreeV,
    order: Seq<BasicBlock>,
    st: WalkV,
    added: AddedV,
    n: int,
    j: int,
    v: Inst,
)
    requires
        is_setting(p, f, plan, tree, order),
        0 <= n < plan.way.len(),
        stands(p, plan.way[n], j, v),
        leaders_above(q, tree, st, plan.way[n], j),
        all_calm(p, tree, plan.way, st, n, j, n + 1),
        replaced_quietly(p, q, f, plan.way, n, j),
    ensures
        ({
            let (r, next, more) = seen(p, q, plan, st, v, added);
            &&& all_calm(p, tree, plan.way, next, n, j + 1, n + 1)
            &&& replaced_quietly(p, r, f, plan.way, n, j + 1)
        }),
        q.op(v) is Load && st.loads.contains_key(q.arg(v, 0).0) ==> quiet_between(
            p,
            f,
            st.loads[q.arg(v, 0).0],
            v,
        ),
        q.op(v) matches Op::Call(g) ==> forall|k: int|
            0 <= k < memory_seen(p, st, v).calls.len() && (#[trigger] memory_seen(p, st, v).calls[k]).callee == g
                ==> quiet_between(p, f, memory_seen(p, st, v).calls[k].leader, v),
{
    let way = plan.way;
    let (r, next, more) = seen(p, q, plan, st, v, added);
    lemma_leaders_move(q, p, tree, st, way[n], j, way[n], j);
    lemma_replaced_on(p, q, f, way, n, j, n, j + 1);
    lemma_memory_calm(p, tree, way, st, v, n, j, n + 1);
    lemma_memory_fewer(p, st, v);
    lemma_new_calm(p, tree, way, v, n, j);
    assert(q.op(v) == p.op(v));
    let now = memory_seen(p, st, v);
    assert forall|l: Inst| #[trigger] calm(p, tree, way, l, n, j, n + 1) implies walked_before(p, way, l, n, j) by {
        let h = n + 1;
        let (a, i) = choose|a: int, i: int| undisturbed(p, tree, way, l, a, i, n, j, h);
        assert(stands(p, way[a], i, l) && earlier(a, i, n, j));
    }
    if p.op(v) is Load {
        assert(now == st);
        let addr = q.arg(v, 0);
        if st.loads.contains_key(addr.0) {
            let l = st.loads[addr.0];
            assert(calm(p, tree, way, l, n, j, n + 1));
            lemma_quiet(p, f, plan, tree, order, l, v, n, j);
            lemma_comes_first(p, p, tree, l, v, way[n], j);
            lemma_led_quietly(p, q, f, way, st, v, l, n, j);
        }
        assert forall|x: usize| #[trigger] next.loads.contains_key(x) implies p.op(next.loads[x]) is Load && calm(
            p,
            tree,
            way,
            next.loads[x],
            n,
            j + 1,
            n + 1,
        ) by {
            if st.loads.contains_key(addr.0) || x != addr.0 {
                assert(st.loads.contains_key(x));
            }
        }
    } else {
        match q.op(v) {
            Op::Call(g) => {
                assert forall|k: int| 0 <= k < now.calls.len() && (#[trigger] now.calls[k]).callee == g implies quiet_between(
                    p,
                    f,
                    now.calls[k].leader,
                    v,
                ) by {
                    let l = now.calls[k].leader;
                    assert(calm(p, tree, way, l, n, j, n + 1));
                    let i = st.calls.index_of(now.calls[k]);
                    assert(st.calls[i] == now.calls[k]);
                    assert(above(p, tree, l, way[n], j));
                    lemma_quiet(p, f, plan, tree, order, l, v, n, j);
                }
                if is_pure(plan, g) {
                    assert((r, next, more) == call_seen(q, plan, now, v, g, added));
                    let number = crate::numbering::call_numbered(q, plan.scope, now.numbers, v, plan.fuel).1;
                    let table = crate::numbering::call_numbered(q, plan.scope, now.numbers, v, plan.fuel).0;
                    let mid = WalkV { numbers: crate::numbering::numbered(q, plan.scope, table, v, plan.fuel).0, ..now };
                    assert(mid.calls == now.calls);
                    lemma_call_leader(now.calls, number, g, 0);
                    match call_leader(now.calls, number, g, 0) {
                        Some(l) => {
                            let k = choose|k: int|
                                0 <= k < now.calls.len() && (#[trigger] now.calls[k]).number == number
                                    && now.calls[k].leader == l && now.calls[k].callee == g;
                            assert(calm(p, tree, way, now.calls[k].leader, n, j, n + 1));
                            let i = st.calls.index_of(now.calls[k]);
                            assert(st.calls[i] == now.calls[k]);
                            assert(above(p, tree, l, way[n], j));
                            lemma_comes_first(p, p, tree, l, v, way[n], j);
                            lemma_led_quietly(p, q, f, way, mid, v, l, n, j);
                        },
                        None => {
                            assert forall|k: int| 0 <= k < next.calls.len() implies p.op(
                                (#[trigger] next.calls[k]).leader,
                            ) == Op::Call(next.calls[k].callee) && calm(
                                p,
                                tree,
                                way,
                                next.calls[k].leader,
                                n,
                                j + 1,
                                n + 1,
                            ) by {
                                if k < now.calls.len() {
                                    assert(next.calls[k] == now.calls[k]);
                                }
                            }
                        },
                    }
                }
            },
            _ => {
                let (numbers, number) = crate::numbering::numbered(q, plan.scope, now.numbers, v, plan.fuel);
                let mid = WalkV { numbers, ..now };
                if crate::numbering::expressible(q, plan.scope, v) {
                    if mid.leaders.contains_key(number) {
                        assert(now.leaders.contains_key(number));
                        lemma_led_quietly(p, q, f, way, mid, v, now.leaders[number], n, j);
                    } else {
                        assert forall|x: usize| #[trigger] next.leaders.contains_key(x) implies walked_before(
                            p,
                            way,
                            next.leaders[x],
                            n,
                            j + 1,
                        ) by {
                            if x != number {
                                assert(now.leaders.contains_key(x));
                            }
                        }
                    }
                }
            },
        }
    }
}

/// On entering a block those leaders go that a loop through it may disturb.
pub(crate) proof fn lemma_header_calm(p: ProgramV, tree: TreeV, way: Seq<BasicBlock>, st: WalkV, n: int)
    requires
        0 <= n < way.len(),
        all_calm(p, tree, way, st, n, 0, n),
    ensures
        all_calm(p, tree, way, header_seen(p, tree, way, st, way[n]), n, 0, n + 1),
{
    let b = way[n];
    let now = header_seen(p, tree, way, st, b);
    lemma_header_fewer(p, tree, way, st, b);
    lemma_fewer_calm(p, tree, way, st, now, n, 0, n);
    lemma_loop_spared(p, tree, way, b, st.calls, 0, Seq::empty());
    assert forall|l: Inst| #[trigger] calm(p, tree, way, l, n, 0, n) && !loop_disturbs(p, tree, way, b, l) implies calm(
        p,
        tree,
        way,
        l,
        n,
        0,
        n + 1,
    ) by {
        let (a, i) = choose|a: int, i: int| undisturbed(p, tree, way, l, a, i, n, 0, n);
        assert forall|m: int| a < m < n + 1 && m < way.len() implies !loop_disturbs(p, tree, way, #[trigger] way[m], l) by {
            if m == n {
                assert(way[m] == b);
            }
        }
        assert(undisturbed(p, tree, way, l, a, i, n, 0, n + 1));
    }
    assert forall|k: int| 0 <= k < now.calls.len() implies p.op((#[trigger] now.calls[k]).leader) == Op::Call(
        now.calls[k].callee,
    ) && calm(p, tree, way, now.calls[k].leader, n, 0, n + 1) by {
        assert(calm(p, tree, way, now.calls[k].leader, n, 0, n));
    }
    assert forall|x: usize| #[trigger] now.loads.contains_key(x) implies p.op(now.loads[x]) is Load && calm(
        p,
        tree,
        way,
        now.loads[x],
        n,
        0,
        n + 1,
    ) by {
        assert(calm(p, tree, way, now.loads[x], n, 0, n));
    }
}

/// What is calm at the end of a block is calm before the next.
pub(crate) proof fn lemma_next_block_calm(p: ProgramV, tree: TreeV, way: Seq<BasicBlock>, st: WalkV, n: int)
    requires
        0 <= n < way.len(),
        all_calm(p, tree, way, st, n, values_of(p, way[n]).len() as int, n + 1),
    ensures
        all_calm(p, tree, way, st, n + 1, 0, n + 1),
{
    let j = values_of(p, way[n]).len() as int;
    let h = n + 1;
    assert forall|l: Inst| #[trigger] calm(p, tree, way, l, n, j, h) implies calm(p, tree, way, l, h, 0, h) by {
        let (a, i) = choose|a: int, i: int| undisturbed(p, tree, way, l, a, i, n, j, h);
        assert forall|m: int, k: int|
            0 <= m < way.len() && 0 <= k < values_of(p, way[m]).len() && earlier(a, i, m, k) && earlier(m, k, h, 0) implies !disturbs(
            p,
            #[trigger] values_of(p, way[m])[k],
            l,
        ) by {
            assert(earlier(m, k, n, j));
        }
        assert(undisturbed(p, tree, way, l, a, i, h, 0, h));
    }
    assert forall|x: usize| #[trigger] st.leaders.contains_key(x) implies walked_before(p, way, st.leaders[x], h, 0) by {
        lemma_walked_on(p, way, st.leaders[x], n, j, h, 0);
    }
    assert forall|x: usize| #[trigger] st.loads.contains_key(x) implies p.op(st.loads[x]) is Load && calm(
        p,
        tree,
        way,
        st.loads[x],
        h,
        0,
        h,
    ) by {
        assert(calm(p, tree, way, st.loads[x], n, j, h));
    }
    assert forall|k: int| 0 <= k < st.calls.len() implies p.op((#[trigger] st.calls[k]).leader) == Op::Call(
        st.calls[k].callee,
    ) && calm(p, tree, way, st.calls[k].leader, h, 0, h) by {
        assert(calm(p, tree, way, st.calls[k].leader, n, j, h));
    }
}

pub(crate) proof fn lemma_all_seen_quiet(
    p: ProgramV,
    q: ProgramV,
    f: Function,
    plan: PlanV,
    tree: TreeV,
    order: Seq<BasicBlock>,
    base: WalkV,
    st: WalkV,
    n: int,
    from: int,
    added: AddedV,
)
    requires
        is_setting(p, f, plan, tree, order),
        0 <= n < plan.way.len(),
        placed_once(q),
        defined_above(q, tree),
        0 <= from <= values_of(p, plan.way[n]).len(),
        leaders_above(q, tree, st, plan.way[n], from),
        inherits(base, st, added),
        all_calm(p, tree, plan.way, st, n, from, n + 1),
        replaced_quietly(p, q, f, plan.way, n, from),
    ensures
        ({
            let values = values_of(p, plan.way[n]);
            let (r, next, more) = all_seen(p, q, plan, st, values, from, added);
            &&& all_calm(p, tree, plan.way, next, n, values.len() as int, n + 1)
            &&& replaced_quietly(p, r, f, plan.way, n, values.len() as int)
        }),
    decreases values_of(p, plan.way[n]).len() - from,
{
    let b = plan.way[n];
    let values = values_of(p, b);
    if from < values.len() {
        let v = values[from];
        assert(values_of(q, b) == values);
        assert(stands(p, b, from, v) && stands(q, b, from, v));
        let (r, next, more) = seen(p, q, plan, st, v, added);
        lemma_seen_quiet(p, q, f, plan, tree, order, st, added, n, from, v);
        lemma_seen_above(p, q, plan, tree, base, st, added, b, from, v);
        lemma_places_stay(q, r);
        lemma_all_seen_quiet(p, r, f, plan, tree, order, base, next, n, from + 1, more);
    }
}

/// A walk from `b` is `b` and the walks from its children.
pub(crate) proof fn lemma_way_split(
    tree: TreeV,
    order: Seq<BasicBlock>,
    way: Seq<BasicBlock>,
    b: BasicBlock,
    n: int,
    depth: nat,
)
    requires
        depth > 0,
        0 <= n,
        n + way_from(tree, order, b, depth).len() <= way.len(),
        way.subrange(n, n + way_from(tree, order, b, depth).len()) == way_from(tree, order, b, depth),
    ensures
        ({
            let blocks = children_from(tree, order, b, 0, Seq::empty());
            let rest = ways_from(tree, order, blocks, 0, (depth - 1) as nat);
            &&& way_from(tree, order, b, depth).len() == rest.len() + 1
            &&& way[n] == b
            &&& way.subrange(n + 1, n + 1 + rest.len()) == rest
        }),
{
    let here = way_from(tree, order, b, depth);
    let blocks = children_from(tree, order, b, 0, Seq::empty());
    let rest = ways_from(tree, order, blocks, 0, (depth - 1) as nat);
    assert(here == seq![b] + rest);
    assert(way[n] == way.subrange(n, n + here.len())[0]);
    assert forall|k: int| 0 <= k < rest.len() implies way.subrange(n + 1, n + 1 + rest.len())[k] == rest[k] by {
        assert(way.subrange(n, n + here.len())[k + 1] == here[k + 1]);
    }
    assert(way.subrange(n + 1, n + 1 + rest.len()) =~= rest);
}

/// The walks from several blocks are that from the first and those from the others.
pub(crate) proof fn lemma_ways_split(
    tree: TreeV,
    order: Seq<BasicBlock>,
    way: Seq<BasicBlock>,
    blocks: Seq<BasicBlock>,
    from: int,
    n: int,
    depth: nat,
)
    requires
        0 <= from < blocks.len(),
        0 <= n,
        n + ways_from(tree, order, blocks, from, depth).len() <= way.len(),
        way.subrange(n, n + ways_from(tree, order, blocks, from, depth).len()) == ways_from(
            tree,
            order,
            blocks,
            from,
            depth,
        ),
    ensures
        ({
            let first = way_from(tree, order, blocks[from], depth);
            let rest = ways_from(tree, order, blocks, from + 1, depth);
            let mid = n + first.len();
            &&& ways_from(tree, order, blocks, from, depth).len() == first.len() + rest.len()
            &&& way.subrange(n, mid) == first
            &&& way.subrange(mid, mid + rest.len()) == rest
        }),
{
    let first = way_from(tree, order, blocks[from], depth);
    let rest = ways_from(tree, order, blocks, from + 1, depth);
    let both = ways_from(tree, order, blocks, from, depth);
    assert(both == first + rest);
    let mid = n + first.len();
    assert forall|k: int| 0 <= k < first.len() implies way.subrange(n, mid)[k] == first[k] by {
        assert(way.subrange(n, n + both.len())[k] == both[k]);
    }
    assert(way.subrange(n, mid) =~= first);
    assert forall|k: int| 0 <= k < rest.len() implies way.subrange(mid, mid + rest.len())[k] == rest[k] by {
        assert(way.subrange(n, n + both.len())[k + first.len()] == both[k + first.len()]);
    }
    assert(way.subrange(mid, mid + rest.len()) =~= rest);
}

pub(crate) proof fn lemma_walked_quiet(
    p: ProgramV,
    q: ProgramV,
    f: Function,
    plan: PlanV,
    tree: TreeV,
    order: Seq<BasicBlock>,
    st: WalkV,
    b: BasicBlock,
    n: int,
    depth: nat,
)
    requires
        is_setting(p, f, plan, tree, order),
        placed_once(q),
        defined_above(q, tree),
        leaders_above(q, tree, st, b, 0),
        all_calm(p, tree, plan.way, st, n, 0, n),
        replaced_quietly(p, q, f, plan.way, n, 0),
        0 <= n,
        n + way_from(tree, order, b, depth).len() <= plan.way.len(),
        plan.way.subrange(n, n + way_from(tree, order, b, depth).len()) == way_from(tree, order, b, depth),
    ensures
        ({
            let (r, done) = walked(p, q, plan, tree, order, st, b, depth);
            let end = n + way_from(tree, order, b, depth).len();
            &&& all_calm(p, tree, plan.way, done, end, 0, end)
            &&& replaced_quietly(p, r, f, plan.way, end, 0)
        }),
    decreases depth, 0int, 0int,
{
    if depth > 0 {
        let way = plan.way;
        let here = way_from(tree, order, b, depth);
        let blocks = children_from(tree, order, b, 0, Seq::empty());
        let rest = ways_from(tree, order, blocks, 0, (depth - 1) as nat);
        lemma_way_split(tree, order, way, b, n, depth);
        let values = values_of(q, b);
        assert(values == values_of(p, b));
        let start = header_seen(p, tree, way, st, b);
        let (r, next, added) = all_seen(p, q, plan, start, values, 0, nothing_added());
        let (t, done) = all_walked(p, r, plan, tree, order, next, blocks, 0, (depth - 1) as nat);
        assert(walked(p, q, plan, tree, order, st, b, depth) == (t, left(done, added)));
        lemma_header_calm(p, tree, way, st, n);
        lemma_header_fewer(p, tree, way, st, b);
        assert(subsides(st, start));
        assert(subsides(start, start)) by {
            assert forall|k: int| 0 <= k < start.calls.len() implies start.calls.contains(#[trigger] start.calls[k]) by {}
        }
        assert(inherits(start, start, nothing_added()));
        lemma_subsides_above(q, tree, st, start, b, 0);
        lemma_all_seen_quiet(p, q, f, plan, tree, order, start, start, n, 0, nothing_added());
        lemma_all_seen_above(p, q, plan, tree, start, start, b, values, 0, nothing_added());
        lemma_places_stay(q, r);
        lemma_next_block_calm(p, tree, way, next, n);
        lemma_replaced_on(p, r, f, way, n, values.len() as int, n + 1, 0);
        lemma_children_below(tree, order, b, 0, Seq::empty());
        lemma_all_walked_quiet(
            p,
            r,
            f,
            plan,
            tree,
            order,
            next,
            b,
            values.len() as int,
            blocks,
            0,
            n + 1,
            (depth - 1) as nat,
        );
        lemma_left_fewer(done, added);
        let end = n + here.len();
        lemma_fewer_calm(p, tree, way, done, left(done, added), end, 0, end);
    }
}

pub(crate) proof fn lemma_all_walked_quiet(
    p: ProgramV,
    q: ProgramV,
    f: Function,
    plan: PlanV,
    tree: TreeV,
    order: Seq<BasicBlock>,
    st: WalkV,
    b: BasicBlock,
    end: int,
    blocks: Seq<BasicBlock>,
    from: int,
    n: int,
    depth: nat,
)
    requires
        is_setting(p, f, plan, tree, order),
        placed_once(q),
        defined_above(q, tree),
        leaders_above(q, tree, st, b, end),
        crate::scoping::below(tree, b, blocks),
        all_calm(p, tree, plan.way, st, n, 0, n),
        replaced_quietly(p, q, f, plan.way, n, 0),
        0 <= from,
        0 <= n,
        n + ways_from(tree, order, blocks, from, depth).len() <= plan.way.len(),
        plan.way.subrange(n, n + ways_from(tree, order, blocks, from, depth).len()) == ways_from(
            tree,
            order,
            blocks,
            from,
            depth,
        ),
    ensures
        ({
            let (r, done) = all_walked(p, q, plan, tree, order, st, blocks, from, depth);
            let stop = n + ways_from(tree, order, blocks, from, depth).len();
            &&& all_calm(p, tree, plan.way, done, stop, 0, stop)
            &&& replaced_quietly(p, r, f, plan.way, stop, 0)
        }),
    decreases depth, 1int, blocks.len() - from,
{
    if from < blocks.len() {
        let way = plan.way;
        let c = blocks[from];
        let first = way_from(tree, order, c, depth);
        let rest = ways_from(tree, order, blocks, from + 1, depth);
        let mid = n + first.len();
        lemma_ways_split(tree, order, way, blocks, from, n, depth);
        lemma_leaders_move(q, q, tree, st, b, end, c, 0);
        let (r, next) = walked(p, q, plan, tree, order, st, c, depth);
        lemma_walked_quiet(p, q, f, plan, tree, order, st, c, n, depth);
        lemma_walked_above(p, q, plan, tree, order, st, c, depth);
        lemma_places_stay(q, r);
        lemma_leaders_move(q, r, tree, st, b, end, b, end);
        lemma_subsides_above(r, tree, st, next, b, end);
        lemma_all_walked_quiet(p, r, f, plan, tree, order, next, b, end, blocks, from + 1, mid, depth);
    }
}

/// The walk over `f` goes by what a setting says.
pub(crate) proof fn lemma_setting(p: ProgramV, f: Function)
    requires
        placed_once(p),
        p.blocks.len() <= usize::MAX,
        entry_of(p, f) is Some,
        reverse_postorder(p, f).len() > 0,
    ensures
        is_setting(p, f, plan_of(p, f), tree_of(p, f), reverse_postorder(p, f)),
        plan_of(p, f).way[0] == entry_of(p, f)->0,
{
    let tree = tree_of(p, f);
    let order = reverse_postorder(p, f);
    let entry = entry_of(p, f)->0;
    lemma_order_once(p, f);
    assert(reach_in(tree.edges, none(), tree.entry, tree.entry, 0));
    lemma_walk(tree, order, entry, order.len());
}

/// A load or a call is replaced only by one like it that comes first on every walk to it, and only where nothing
/// that it reads can have been written since.
pub proof fn led_values_see_the_same_memory(p: ProgramV, f: Function, u: Inst, k: int)
    requires
        placed_once(p),
        defined_above(p, tree_of(p, f)),
        p.blocks.len() <= usize::MAX,
        0 <= k < p.args(u).len(),
        p.op(p.args(u)[k]) is Load || p.op(p.args(u)[k]) is Call,
        reduced(p, f).0.args(u)[k] != p.args(u)[k],
    ensures
        reads_the_same(p, f, reduced(p, f).0.args(u)[k], p.args(u)[k]),
{
    let entry = entry_of(p, f)->0;
    let order = reverse_postorder(p, f);
    let tree = tree_of(p, f);
    let plan = plan_of(p, f);
    lemma_setting(p, f);
    assert(plan.way.subrange(0, plan.way.len() as int) =~= plan.way);
    lemma_walked_quiet(p, p, f, plan, tree, order, fresh_walk(), entry, 0, order.len());
    let q = reduced(p, f).0;
    assert(kept_or_quiet(p, q, f, plan.way, u, k, plan.way.len() as int, 0));
}

/// What `v` reads changes only at places that may write it: before each place of the way `w` memory is as
/// `mems` says, and `read` says what `v` would read of it.
pub open spec fn changes_where_disturbed<M>(
    p: ProgramV,
    w: Seq<(BasicBlock, int)>,
    l: Inst,
    v: Inst,
    mems: Seq<M>,
    read: spec_fn(M) -> int,
) -> bool {
    &&& mems.len() == w.len()
    &&& forall|k: int|
        0 <= k < w.len() - 1 && (values_of(p, w[k].0)[w[k].1] == l || !disturbs(p, values_of(p, w[k].0)[w[k].1], v))
            ==> read(#[trigger] mems[k]) == read(mems[k + 1])
}

/// In every run from `l` to `v` in which memory changes by writes, with nothing written between that `v`
/// reads, `v` reads what `l` read.
pub proof fn a_quiet_way_keeps_what_is_read<M>(
    p: ProgramV,
    f: Function,
    w: Seq<(BasicBlock, int)>,
    l: Inst,
    v: Inst,
    mems: Seq<M>,
    read: spec_fn(M) -> int,
)
    requires
        quiet_between(p, f, l, v),
        leads(p, tree_of(p, f), w, l, v),
        changes_where_disturbed(p, w, l, v, mems, read),
    ensures
        read(mems.last()) == read(mems[0]),
{
    lemma_read_stays(p, f, w, l, v, mems, read, mems.len() - 1);
}

proof fn lemma_read_stays<M>(
    p: ProgramV,
    f: Function,
    w: Seq<(BasicBlock, int)>,
    l: Inst,
    v: Inst,
    mems: Seq<M>,
    read: spec_fn(M) -> int,
    k: int,
)
    requires
        quiet_between(p, f, l, v),
        leads(p, tree_of(p, f), w, l, v),
        changes_where_disturbed(p, w, l, v, mems, read),
        0 <= k < mems.len(),
    ensures
        read(mems[k]) == read(mems[0]),
    decreases k,
{
    if k > 0 {
        lemma_read_stays(p, f, w, l, v, mems, read, k - 1);
        if k > 1 {
            assert(!disturbs(p, values_of(p, w[k - 1].0)[w[k - 1].1], v));
        }
        assert(read(mems[k - 1]) == read(mems[k - 1 + 1]));
    }
}

} // verus!
