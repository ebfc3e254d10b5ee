//! The order in which the dominance tree is walked.
//!
//! The walk comes to each block once, and to a block only after all that dominate it.

use vstd::prelude::*;

use crate::cfg::{
    closest, dfs, dominance_is_antisymmetric, dominates_in, immediate, none, reverse_postorder, TreeV,
};
use crate::graph::{reach_in, reaches};
use crate::gvn::{children_from, way_from, ways_from};
use crate::ir::{position, BasicBlock, Function, Op, ProgramV};

verus! {

/// What a search adds to the blocks that it left was not seen before, and is seen after.
proof fn lemma_search(p: ProgramV, b: BasicBlock, depth: nat, seen: Seq<BasicBlock>, left: Seq<BasicBlock>)
    requires
        left.no_duplicates(),
        forall|x: BasicBlock| #[trigger] left.contains(x) ==> seen.contains(x),
    ensures
        ({
            let r = dfs(p, b, depth, seen, left);
            &&& r.1.no_duplicates()
            &&& forall|x: BasicBlock| #[trigger] seen.contains(x) ==> r.0.contains(x)
            &&& forall|x: BasicBlock| #[trigger] r.1.contains(x) ==> r.0.contains(x)
            &&& forall|x: BasicBlock| #[trigger] r.1.contains(x) && seen.contains(x) ==> left.contains(x)
        }),
    decreases depth,
{
    if depth > 0 && !seen.contains(b) {
        let now = seen.push(b);
        assert(now[seen.len() as int] == b);
        assert forall|x: BasicBlock| #[trigger] seen.contains(x) implies now.contains(x) by {
            assert(now[seen.index_of(x)] == x);
        }
        assert forall|x: BasicBlock| #[trigger] left.contains(x) implies now.contains(x) by {
            assert(seen.contains(x));
        }
        let s = match p.op(p.terminator(b)) {
            Op::Branch(t, f, _) => {
                lemma_search(p, t, (depth - 1) as nat, now, left);
                let s1 = dfs(p, t, (depth - 1) as nat, now, left);
                lemma_search(p, f, (depth - 1) as nat, s1.0, s1.1);
                dfs(p, f, (depth - 1) as nat, s1.0, s1.1)
            },
            Op::Jump(t) => {
                lemma_search(p, t, (depth - 1) as nat, now, left);
                dfs(p, t, (depth - 1) as nat, now, left)
            },
            _ => (now, left),
        };
        assert forall|x: BasicBlock| #[trigger] s.1.contains(x) && now.contains(x) implies left.contains(x) by {}
        assert(!s.1.contains(b)) by {
            if s.1.contains(b) {
                assert(now.contains(b));
                assert(left.contains(b));
                assert(seen.contains(b));
            }
        }
        let end = s.1.push(b);
        assert(now.contains(b));
        assert(s.0.contains(b));
        assert forall|x: BasicBlock| #[trigger] end.contains(x) implies s.0.contains(x) && (seen.contains(x)
            ==> left.contains(x)) by {
            let k = end.index_of(x);
            if k < s.1.len() {
                assert(s.1[k] == x);
                assert(s.1.contains(x));
            }
        }
        assert(end.no_duplicates()) by {
            assert forall|i: int, j: int| 0 <= i < j < end.len() implies end[i] != end[j] by {
                assert(s.1[i] == end[i]);
                assert(s.1.contains(s.1[i]));
            }
        }
    }
}

/// The search lists each block once.
pub(crate) proof fn lemma_order_once(p: ProgramV, f: Function)
    ensures
        reverse_postorder(p, f).no_duplicates(),
{
    if p.func(f).blocks.len() > 0 {
        let b = p.func(f).blocks[0];
        lemma_search(p, b, p.blocks.len(), Seq::empty(), Seq::empty());
        let left = dfs(p, b, p.blocks.len(), Seq::empty(), Seq::empty()).1;
        assert forall|i: int, j: int| 0 <= i < j < left.reverse().len() implies left.reverse()[i]
            != left.reverse()[j] by {
            assert(left[left.len() - 1 - i] != left[left.len() - 1 - j]);
        }
    }
}

/// Of two blocks on every walk to a third, one comes last.
proof fn lemma_last_of_two(edges: Seq<(usize, usize)>, entry: int, a: int, b: int, x: int, n: nat)
    requires
        a != b,
        dominates_in(edges, entry, a, x),
        dominates_in(edges, entry, b, x),
        reach_in(edges, none(), entry, x, n),
    ensures
        reaches(edges, b, a, x) || reaches(edges, a, b, x),
    decreases n,
{
    if x == a {
        assert(reach_in(edges, b, a, x, 0));
    } else if x == b {
        assert(reach_in(edges, a, b, x, 0));
    } else if n == 0 {
        assert(reach_in(edges, a, entry, x, 0));
    } else {
        let k = choose|k: int|
            0 <= k < edges.len() && (#[trigger] edges[k]).1 == x && reach_in(
                edges,
                none(),
                entry,
                edges[k].0 as int,
                (n - 1) as nat,
            );
        let z = edges[k].0 as int;
        assert(reaches(edges, none(), entry, z));
        if z != a && reaches(edges, a, entry, z) {
            let m = choose|m: nat| reach_in(edges, a, entry, z, m);
            assert(reach_in(edges, a, entry, x, m + 1));
        }
        if z != b && reaches(edges, b, entry, z) {
            let m = choose|m: nat| reach_in(edges, b, entry, z, m);
            assert(reach_in(edges, b, entry, x, m + 1));
        }
        lemma_last_of_two(edges, entry, a, b, z, (n - 1) as nat);
        if reaches(edges, b, a, z) {
            let m = choose|m: nat| reach_in(edges, b, a, z, m);
            assert(reach_in(edges, b, a, x, m + 1));
        } else {
            let m = choose|m: nat| reach_in(edges, a, b, z, m);
            assert(reach_in(edges, a, b, x, m + 1));
        }
    }
}

/// Of two blocks that dominate a third, one dominates the other, if both are reached.
pub(crate) proof fn lemma_dominators_chain(edges: Seq<(usize, usize)>, entry: int, a: int, b: int, x: int)
    requires
        dominates_in(edges, entry, a, x),
        dominates_in(edges, entry, b, x),
        reaches(edges, none(), entry, a),
        reaches(edges, none(), entry, b),
    ensures
        dominates_in(edges, entry, a, b) || dominates_in(edges, entry, b, a),
{
    if a != b {
        let n = choose|n: nat| reach_in(edges, none(), entry, x, n);
        lemma_last_of_two(edges, entry, a, b, x, n);
        if reaches(edges, b, a, x) {
            if reaches(edges, b, entry, a) {
                crate::graph::reaches_is_transitive(edges, b, entry, a, x);
                let m = choose|m: nat| reach_in(edges, b, a, x, m);
                assert(x != b);
            }
        } else {
            if reaches(edges, a, entry, b) {
                crate::graph::reaches_is_transitive(edges, a, entry, b, x);
                let m = choose|m: nat| reach_in(edges, a, b, x, m);
                assert(x != a);
            }
        }
    }
}

/// The blocks of `s` are children of `b`, each listed once.
pub open spec fn are_children(tree: TreeV, order: Seq<BasicBlock>, b: BasicBlock, s: Seq<BasicBlock>) -> bool {
    &&& s.no_duplicates()
    &&& forall|k: int| 0 <= k < s.len() ==> immediate(tree, order, b, #[trigger] s[k]) && order.contains(s[k])
}

proof fn lemma_children(tree: TreeV, order: Seq<BasicBlock>, b: BasicBlock, from: int, found: Seq<BasicBlock>)
    requires
        0 <= from <= order.len(),
        order.no_duplicates(),
        are_children(tree, order, b, found),
        forall|k: int, j: int| 0 <= k < found.len() && from <= j < order.len() ==> #[trigger] found[k] != #[trigger] order[j],
    ensures
        are_children(tree, order, b, children_from(tree, order, b, from, found)),
    decreases order.len() - from,
{
    if from < order.len() {
        let next = if immediate(tree, order, b, order[from]) {
            found.push(order[from])
        } else {
            found
        };
        assert(children_from(tree, order, b, from, found) == children_from(tree, order, b, from + 1, next));
        assert(order.contains(order[from]));
        lemma_children(tree, order, b, from + 1, next);
    }
}

/// A block before place `k` of `s` is the closest that dominates the one there.
pub open spec fn is_parented(tree: TreeV, order: Seq<BasicBlock>, s: Seq<BasicBlock>, k: int) -> bool {
    exists|m: int| 0 <= m < k && immediate(tree, order, #[trigger] s[m], s[k])
}

proof fn lemma_closest(tree: TreeV, order: Seq<BasicBlock>, b: BasicBlock, c: BasicBlock, from: int, k: int)
    requires
        closest(tree, order, b, c, from),
        0 <= from <= k < order.len(),
        order[k] != c,
        tree.dominates(order[k], c),
    ensures
        tree.dominates(order[k], b),
    decreases order.len() - from,
{
    if from < k {
        lemma_closest(tree, order, b, c, from + 1, k);
    }
}

/// No block is below two children of one block.
proof fn lemma_apart(tree: TreeV, order: Seq<BasicBlock>, b: BasicBlock, c: BasicBlock, d: BasicBlock, x: BasicBlock)
    requires
        immediate(tree, order, b, c),
        immediate(tree, order, b, d),
        order.contains(c),
        order.contains(d),
        tree.dominates(c, x),
        tree.dominates(d, x),
    ensures
        c == d,
{
    if c != d {
        lemma_dominators_chain(tree.edges, tree.entry, c.0 as int, d.0 as int, x.0 as int);
        if tree.dominates(c, d) {
            lemma_closest(tree, order, b, d, 0, order.index_of(c));
            dominance_is_antisymmetric(tree.edges, tree.entry, c.0 as int, b.0 as int);
        } else {
            lemma_closest(tree, order, b, c, 0, order.index_of(d));
            dominance_is_antisymmetric(tree.edges, tree.entry, d.0 as int, b.0 as int);
        }
    }
}

/// The blocks of a walk from `b`: each comes once, is dominated by `b`, and after the closest block that
/// dominates it.
pub open spec fn is_walk(tree: TreeV, order: Seq<BasicBlock>, b: BasicBlock, s: Seq<BasicBlock>) -> bool {
    &&& s.no_duplicates()
    &&& s.len() > 0 ==> s[0] == b
    &&& forall|k: int| 0 <= k < s.len() ==> tree.dominates(b, #[trigger] s[k])
    &&& forall|k: int| 0 < k < s.len() ==> is_parented(tree, order, s, k) && order.contains(#[trigger] s[k])
}

pub(crate) proof fn lemma_walk(tree: TreeV, order: Seq<BasicBlock>, b: BasicBlock, depth: nat)
    requires
        order.no_duplicates(),
        tree.dominates(b, b),
    ensures
        is_walk(tree, order, b, way_from(tree, order, b, depth)),
        depth > 0 ==> way_from(tree, order, b, depth).len() > 0,
    decreases depth, 0int, 0int,
{
    if depth > 0 {
        let blocks = children_from(tree, order, b, 0, Seq::empty());
        lemma_children(tree, order, b, 0, Seq::empty());
        let rest = ways_from(tree, order, blocks, 0, (depth - 1) as nat);
        lemma_walks(tree, order, b, blocks, 0, (depth - 1) as nat);
        let s = way_from(tree, order, b, depth);
        assert(s == seq![b] + rest);
        assert(s[0] == b);
        assert forall|k: int| 0 <= k < s.len() implies tree.dominates(b, #[trigger] s[k]) by {
            if k > 0 {
                assert(s[k] == rest[k - 1]);
            }
        }
        assert forall|k: int| 0 < k < s.len() implies is_parented(tree, order, s, k) && order.contains(
            #[trigger] s[k],
        ) by {
            assert(s[k] == rest[k - 1]);
            if immediate(tree, order, b, rest[k - 1]) {
                assert(s[0] == b);
                assert(is_parented(tree, order, s, k));
            } else {
                let m = choose|m: int| 0 <= m < k - 1 && immediate(tree, order, #[trigger] rest[m], rest[k - 1]);
                assert(s[m + 1] == rest[m]);
                assert(is_parented(tree, order, s, k));
            }
        }
        assert(s.no_duplicates()) by {
            assert forall|i: int, j: int| 0 <= i < j < s.len() implies s[i] != s[j] by {
                assert(s[j] == rest[j - 1]);
                if i > 0 {
                    assert(s[i] == rest[i - 1]);
                }
            }
        }
    }
}

proof fn lemma_walks(
    tree: TreeV,
    order: Seq<BasicBlock>,
    b: BasicBlock,
    blocks: Seq<BasicBlock>,
    from: int,
    depth: nat,
)
    requires
        order.no_duplicates(),
        are_children(tree, order, b, blocks),
        0 <= from,
    ensures
        ({
            let s = ways_from(tree, order, blocks, from, depth);
            &&& s.no_duplicates()
            &&& forall|k: int|
                0 <= k < s.len() ==> order.contains(#[trigger] s[k]) && s[k] != b && tree.dominates(b, s[k]) && (immediate(
                    tree,
                    order,
                    b,
                    s[k],
                ) || is_parented(tree, order, s, k))
            &&& forall|k: int|
                0 <= k < s.len() ==> exists|i: int|
                    from <= i < blocks.len() && tree.dominates(#[trigger] blocks[i], #[trigger] s[k])
        }),
    decreases depth, 1int, blocks.len() - from,
{
    if from < blocks.len() {
        let c = blocks[from];
        assert(immediate(tree, order, b, c));
        lemma_walk(tree, order, c, depth);
        lemma_walks(tree, order, b, blocks, from + 1, depth);
        let first = way_from(tree, order, c, depth);
        let rest = ways_from(tree, order, blocks, from + 1, depth);
        let s = ways_from(tree, order, blocks, from, depth);
        assert(s == first + rest);
        assert forall|k: int| 0 <= k < s.len() implies order.contains(#[trigger] s[k]) && s[k] != b && tree.dominates(
            b,
            s[k],
        ) && (immediate(tree, order, b, s[k]) || is_parented(tree, order, s, k)) by {
            if k < first.len() {
                assert(s[k] == first[k]);
                crate::cfg::dominance_is_transitive(tree.edges, tree.entry, b.0 as int, c.0 as int, s[k].0 as int);
                if s[k] == b {
                    dominance_is_antisymmetric(tree.edges, tree.entry, b.0 as int, c.0 as int);
                }
                if k > 0 {
                    let m = choose|m: int| 0 <= m < k && immediate(tree, order, #[trigger] first[m], first[k]);
                    assert(s[m] == first[m]);
                }
            } else {
                let j = k - first.len();
                assert(s[k] == rest[j]);
                if !immediate(tree, order, b, rest[j]) {
                    let m = choose|m: int| 0 <= m < j && immediate(tree, order, #[trigger] rest[m], rest[j]);
                    assert(s[m + first.len()] == rest[m]);
                    assert(is_parented(tree, order, s, k));
                }
            }
        }
        assert forall|k: int| 0 <= k < s.len() implies exists|i: int|
            from <= i < blocks.len() && tree.dominates(#[trigger] blocks[i], #[trigger] s[k]) by {
            if k < first.len() {
                assert(s[k] == first[k]);
                assert(tree.dominates(blocks[from], s[k]));
            } else {
                assert(s[k] == rest[k - first.len()]);
            }
        }
        assert(s.no_duplicates()) by {
            assert forall|i: int, j: int| 0 <= i < j < s.len() implies s[i] != s[j] by {
                if j < first.len() {
                    assert(s[i] == first[i] && s[j] == first[j]);
                } else if i >= first.len() {
                    assert(s[i] == rest[i - first.len()] && s[j] == rest[j - first.len()]);
                } else {
                    assert(s[i] == first[i] && s[j] == rest[j - first.len()]);
                    assert(tree.dominates(c, first[i]));
                    let e = choose|e: int|
                        from + 1 <= e < blocks.len() && tree.dominates(
                            #[trigger] blocks[e],
                            rest[j - first.len()],
                        );
                    if s[i] == s[j] {
                        assert(immediate(tree, order, b, blocks[e]));
                        lemma_apart(tree, order, b, c, blocks[e], s[i]);
                    }
                }
            }
        }
    }
}

/// What dominates a block of a walk comes before it, if the walk comes to it at all.
pub(crate) proof fn lemma_dominators_first(
    tree: TreeV,
    order: Seq<BasicBlock>,
    s: Seq<BasicBlock>,
    a: int,
    k: int,
)
    requires
        is_walk(tree, order, s[0], s),
        s[0].0 == tree.entry,
        0 <= a < s.len(),
        0 <= k < s.len(),
        s[a] != s[k],
        tree.dominates(s[a], s[k]),
    ensures
        a < k,
    decreases k,
{
    if a > 0 {
        if k == 0 {
            assert(reach_in(tree.edges, s[a].0 as int, tree.entry, tree.entry, 0));
            assert(reaches(tree.edges, s[a].0 as int, tree.entry, tree.entry));
        } else {
            assert(order.contains(s[a]));
            assert(is_parented(tree, order, s, k));
            let m = choose|m: int| 0 <= m < k && immediate(tree, order, #[trigger] s[m], s[k]);
            lemma_closest(tree, order, s[m], s[k], 0, order.index_of(s[a]));
            if s[m] != s[a] {
                lemma_dominators_first(tree, order, s, a, m);
            } else {
                assert(m == a);
            }
        }
    }
}

/// Where a block stands in a walk.
pub(crate) proof fn lemma_position(s: Seq<BasicBlock>, x: BasicBlock, from: int)
    requires
        0 <= from <= s.len(),
    ensures
        from <= position(s, x, from) <= s.len(),
        position(s, x, from) < s.len() ==> s[position(s, x, from)] == x,
        forall|k: int| from <= k < s.len() && s[k] == x ==> position(s, x, from) <= k,
    decreases s.len() - from,
{
    if from < s.len() && s[from] != x {
        lemma_position(s, x, from + 1);
    }
}

} // verus!
