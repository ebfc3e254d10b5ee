//! The order in which the blocks of a function are visited has all of them that control gets to, and loops are made of
//! those that control gets back from.

use vstd::prelude::*;

use crate::cfg::{cfg_edges, dfs, edges_from, edges_out, entry_of, reverse_postorder, TreeV};
use crate::ir::{BasicBlock, Function, Op, ProgramV};
use crate::loops::{body_from, gets_back, is_latch, latches_from, loops_from, loops_of, LoopV};

verus! {

/// Control goes from block `a` to block `b`.
pub open spec fn steps(p: ProgramV, a: BasicBlock, b: BasicBlock) -> bool {
    p.inst(p.terminator(a)).targets(b)
}

/// Control gets from block `a` to block `b` in `n` steps.
pub open spec fn walks(p: ProgramV, a: BasicBlock, b: BasicBlock, n: nat) -> bool
    decreases n,
{
    if n == 0 {
        a == b
    } else {
        exists|x: BasicBlock| #[trigger] steps(p, a, x) && walks(p, x, b, (n - 1) as nat)
    }
}

/// Control gets from block `a` to block `b`.
pub open spec fn gets_to(p: ProgramV, a: BasicBlock, b: BasicBlock) -> bool {
    exists|n: nat| walks(p, a, b, n)
}

/// Control only goes to blocks that exist.
pub open spec fn targets_exist(p: ProgramV) -> bool {
    forall|a: BasicBlock, b: BasicBlock| #[trigger] steps(p, a, b) ==> b.0 < p.blocks.len()
}

proof fn lemma_room(s: Seq<BasicBlock>, n: int)
    requires
        0 <= n <= usize::MAX,
        s.no_duplicates(),
        forall|k: int| 0 <= k < s.len() ==> (#[trigger] s[k]).0 < n,
    ensures
        s.len() <= n,
    decreases n,
{
    if n == 0 {
        if s.len() > 0 {
            assert(s[0].0 < n);
        }
    } else {
        let last = BasicBlock((n - 1) as usize);
        if s.contains(last) {
            let j = s.index_of(last);
            let r = s.remove(j);
            assert forall|k: int| 0 <= k < r.len() implies (#[trigger] r[k]).0 < n - 1 by {
                let i = if k < j {
                    k
                } else {
                    k + 1
                };
                assert(r[k] == s[i] && s[i] != s[j]);
                assert(s[i].0 < n);
            }
            lemma_room(r, n - 1);
        } else {
            assert forall|k: int| 0 <= k < s.len() implies (#[trigger] s[k]).0 < n - 1 by {
                assert(s.contains(s[k]));
                assert(s[k].0 < n);
            }
            lemma_room(s, n - 1);
        }
    }
}

proof fn lemma_full(s: Seq<BasicBlock>, n: int, b: BasicBlock)
    requires
        n <= usize::MAX,
        s.no_duplicates(),
        forall|k: int| 0 <= k < s.len() ==> (#[trigger] s[k]).0 < n,
        s.len() >= n,
        b.0 < n,
    ensures
        s.contains(b),
{
    if !s.contains(b) {
        let t = s.push(b);
        assert forall|i: int, j: int| 0 <= i < t.len() && 0 <= j < t.len() && i != j implies t[i] != t[j] by {
            assert(i < s.len() ==> s.contains(s[i]));
            assert(j < s.len() ==> s.contains(s[j]));
        }
        lemma_room(t, n);
    }
}

/// What a search from `b` did: it saw all that control gets to from what it saw, and left what it saw.
spec fn is_searched(
    p: ProgramV,
    b: BasicBlock,
    seen: Seq<BasicBlock>,
    left: Seq<BasicBlock>,
    s: Seq<BasicBlock>,
    l: Seq<BasicBlock>,
) -> bool {
    &&& s.no_duplicates()
    &&& forall|k: int| 0 <= k < s.len() ==> (#[trigger] s[k]).0 < p.blocks.len()
    &&& s.len() >= seen.len()
    &&& forall|x: BasicBlock| seen.contains(x) ==> #[trigger] s.contains(x)
    &&& s.contains(b)
    &&& forall|x: BasicBlock, y: BasicBlock| s.contains(x) && !seen.contains(x) && #[trigger] steps(p, x, y) ==> s.contains(y)
    &&& forall|x: BasicBlock| #[trigger] l.contains(x) <==> left.contains(x) || (s.contains(x) && !seen.contains(x))
    &&& l.no_duplicates()
    &&& forall|x: BasicBlock| #[trigger] s.contains(x) && !seen.contains(x) ==> gets_to(p, b, x)
}

proof fn lemma_push(s: Seq<BasicBlock>, b: BasicBlock)
    requires
        s.no_duplicates(),
        !s.contains(b),
    ensures
        s.push(b).no_duplicates(),
        forall|x: BasicBlock| #[trigger] s.push(b).contains(x) <==> s.contains(x) || x == b,
{
    let t = s.push(b);
    assert forall|x: BasicBlock| #[trigger] t.contains(x) <==> s.contains(x) || x == b by {
        if t.contains(x) {
            let k = t.index_of(x);
            if k < s.len() {
                assert(s[k] == x);
            }
        }
        if s.contains(x) {
            assert(t[s.index_of(x)] == x);
        }
        assert(t[s.len() as int] == b);
    }
    assert forall|i: int, j: int| 0 <= i < t.len() && 0 <= j < t.len() && i != j implies t[i] != t[j] by {
        assert(i < s.len() ==> s.contains(s[i]));
        assert(j < s.len() ==> s.contains(s[j]));
    }
}

proof fn lemma_one_step(p: ProgramV, a: BasicBlock, x: BasicBlock, b: BasicBlock)
    requires
        steps(p, a, x),
        gets_to(p, x, b),
    ensures
        gets_to(p, a, b),
{
    let n = choose|n: nat| walks(p, x, b, n);
    assert(walks(p, a, b, n + 1));
}

#[verifier::spinoff_prover]
proof fn lemma_dfs(p: ProgramV, b: BasicBlock, depth: nat, seen: Seq<BasicBlock>, left: Seq<BasicBlock>)
    requires
        p.blocks.len() <= usize::MAX,
        targets_exist(p),
        b.0 < p.blocks.len(),
        seen.no_duplicates(),
        forall|k: int| 0 <= k < seen.len() ==> (#[trigger] seen[k]).0 < p.blocks.len(),
        seen.len() + depth >= p.blocks.len(),
        left.no_duplicates(),
        forall|x: BasicBlock| #[trigger] left.contains(x) ==> seen.contains(x),
    ensures
        is_searched(p, b, seen, left, dfs(p, b, depth, seen, left).0, dfs(p, b, depth, seen, left).1),
        !seen.contains(b) ==> dfs(p, b, depth, seen, left).1.len() > 0 && dfs(p, b, depth, seen, left).1.last() == b,
    decreases depth,
{
    let (s, l) = dfs(p, b, depth, seen, left);
    if depth == 0 {
        lemma_full(seen, p.blocks.len() as int, b);
    }
    if depth > 0 && !seen.contains(b) {
        let d = (depth - 1) as nat;
        let now = seen.push(b);
        lemma_push(seen, b);
        assert forall|k: int| 0 <= k < now.len() implies (#[trigger] now[k]).0 < p.blocks.len() by {
            if k < seen.len() {
                assert(now[k] == seen[k]);
            }
        }
        assert(walks(p, b, b, 0));
        assert(gets_to(p, b, b));
        let (s1, l1) = match p.op(p.terminator(b)) {
            Op::Branch(t, e, _) => {
                let r = dfs(p, t, d, now, left);
                dfs(p, e, d, r.0, r.1)
            },
            Op::Jump(t) => dfs(p, t, d, now, left),
            _ => (now, left),
        };
        assert(s == s1 && l == l1.push(b));
        match p.op(p.terminator(b)) {
            Op::Branch(t, e, _) => {
                assert(steps(p, b, t) && steps(p, b, e));
                let (s0, l0) = dfs(p, t, d, now, left);
                lemma_dfs(p, t, d, now, left);
                assert forall|x: BasicBlock| #[trigger] l0.contains(x) implies s0.contains(x) by {
                    if left.contains(x) {
                        assert(now.contains(x));
                    }
                }
                lemma_dfs(p, e, d, s0, l0);
                assert forall|x: BasicBlock| #[trigger] s.contains(x) && !seen.contains(x) implies gets_to(p, b, x) by {
                    if x != b {
                        if s0.contains(x) {
                            lemma_one_step(p, b, t, x);
                        } else {
                            lemma_one_step(p, b, e, x);
                        }
                    }
                }
                assert forall|x: BasicBlock| seen.contains(x) implies #[trigger] s.contains(x) by {
                    assert(now.contains(x));
                    assert(s0.contains(x));
                }
                assert forall|x: BasicBlock, y: BasicBlock|
                    s.contains(x) && !seen.contains(x) && #[trigger] steps(p, x, y) implies s.contains(y) by {
                    if x == b {
                        assert(y == t || y == e);
                        assert(s0.contains(t));
                    } else if s0.contains(x) {
                        assert(s0.contains(y));
                    }
                }
                assert(s0.contains(b)) by {
                    assert(now.contains(b));
                }
                assert forall|x: BasicBlock| #[trigger] l1.contains(x) <==> left.contains(x) || (s.contains(x) && !seen.contains(
                    x,
                ) && x != b) by {
                    assert(l1.contains(x) <==> l0.contains(x) || (s1.contains(x) && !s0.contains(x)));
                    assert(l0.contains(x) <==> left.contains(x) || (s0.contains(x) && !now.contains(x)));
                    if s0.contains(x) {
                        assert(s.contains(x));
                    }
                    if now.contains(x) {
                        assert(s0.contains(x));
                    }
                }
            },
            Op::Jump(t) => {
                assert(steps(p, b, t));
                lemma_dfs(p, t, d, now, left);
                assert forall|x: BasicBlock| #[trigger] s.contains(x) && !seen.contains(x) implies gets_to(p, b, x) by {
                    if x != b {
                        lemma_one_step(p, b, t, x);
                    }
                }
                assert forall|x: BasicBlock| seen.contains(x) implies #[trigger] s.contains(x) by {
                    assert(now.contains(x));
                }
                assert forall|x: BasicBlock, y: BasicBlock|
                    s.contains(x) && !seen.contains(x) && #[trigger] steps(p, x, y) implies s.contains(y) by {
                    if x == b {
                        assert(y == t);
                    }
                }
                assert forall|x: BasicBlock| #[trigger] l1.contains(x) <==> left.contains(x) || (s.contains(x) && !seen.contains(
                    x,
                ) && x != b) by {
                    assert(l1.contains(x) <==> left.contains(x) || (s1.contains(x) && !now.contains(x)));
                }
                assert(s.contains(b)) by {
                    assert(now.contains(b));
                }
            },
            _ => {
                assert forall|x: BasicBlock, y: BasicBlock|
                    s.contains(x) && !seen.contains(x) && #[trigger] steps(p, x, y) implies s.contains(y) by {
                    assert(x == b);
                }
            },
        }
        assert(!l1.contains(b)) by {
            if left.contains(b) {
                assert(seen.contains(b));
            }
        }
        lemma_push(l1, b);
        assert(l.last() == b);
    }
}

proof fn lemma_closed(p: ProgramV, s: Seq<BasicBlock>, a: BasicBlock, b: BasicBlock, n: nat)
    requires
        s.contains(a),
        forall|x: BasicBlock, y: BasicBlock| s.contains(x) && #[trigger] steps(p, x, y) ==> s.contains(y),
        walks(p, a, b, n),
    ensures
        s.contains(b),
    decreases n,
{
    if n > 0 {
        let x = choose|x: BasicBlock| #[trigger] steps(p, a, x) && walks(p, x, b, (n - 1) as nat);
        lemma_closed(p, s, x, b, (n - 1) as nat);
    }
}

/// The order in which a function is visited starts with its entry and has each block that control gets to from there, once,
/// and no other.
pub proof fn the_order_has_what_control_gets_to(p: ProgramV, f: Function, x: BasicBlock)
    requires
        entry_of(p, f) is Some,
        p.blocks.len() <= usize::MAX,
        targets_exist(p),
    ensures
        reverse_postorder(p, f).contains(x) <==> gets_to(p, entry_of(p, f)->0, x),
        reverse_postorder(p, f).no_duplicates(),
        reverse_postorder(p, f).len() > 0,
        reverse_postorder(p, f)[0] == entry_of(p, f)->0,
{
    let e = entry_of(p, f)->0;
    let (s, l) = dfs(p, e, p.blocks.len(), Seq::empty(), Seq::empty());
    lemma_dfs(p, e, p.blocks.len(), Seq::empty(), Seq::empty());
    let order = l.reverse();
    assert(order == reverse_postorder(p, f));
    assert(order.contains(x) <==> l.contains(x)) by {
        if order.contains(x) {
            let k = order.index_of(x);
            assert(l[l.len() - 1 - k] == x);
        }
        if l.contains(x) {
            let k = l.index_of(x);
            assert(order[l.len() - 1 - k] == x);
        }
    }
    if gets_to(p, e, x) {
        let n = choose|n: nat| walks(p, e, x, n);
        lemma_closed(p, s, e, x, n);
        assert(l.contains(x));
    }
    assert forall|i: int, j: int| 0 <= i < order.len() && 0 <= j < order.len() && i != j implies order[i] != order[j] by {
        assert(l[l.len() - 1 - i] != l[l.len() - 1 - j]);
    }
}

proof fn lemma_edges(p: ProgramV, blocks: Seq<BasicBlock>, from: int, found: Seq<(usize, usize)>, e: (usize, usize))
    requires
        0 <= from,
    ensures
        edges_from(p, blocks, from, found).contains(e) <==> found.contains(e) || exists|k: int|
            from <= k < blocks.len() && edges_out(p, #[trigger] blocks[k]).contains(e),
    decreases blocks.len() - from,
{
    if from < blocks.len() {
        let out = edges_out(p, blocks[from]);
        let next = found + out;
        lemma_edges(p, blocks, from + 1, next, e);
        assert(next.contains(e) <==> found.contains(e) || out.contains(e)) by {
            if next.contains(e) {
                let k = next.index_of(e);
                if k < found.len() {
                    assert(found[k] == e);
                } else {
                    assert(out[k - found.len()] == e);
                }
            }
            if found.contains(e) {
                assert(next[found.index_of(e)] == e);
            }
            if out.contains(e) {
                assert(next[found.len() + out.index_of(e)] == e);
            }
        }
        if exists|k: int| from <= k < blocks.len() && edges_out(p, #[trigger] blocks[k]).contains(e) {
            let k = choose|k: int| from <= k < blocks.len() && edges_out(p, #[trigger] blocks[k]).contains(e);
            if k > from {
                assert(from + 1 <= k < blocks.len() && edges_out(p, blocks[k]).contains(e));
            }
        }
        if exists|k: int| from + 1 <= k < blocks.len() && edges_out(p, #[trigger] blocks[k]).contains(e) {
            let k = choose|k: int| from + 1 <= k < blocks.len() && edges_out(p, #[trigger] blocks[k]).contains(e);
            assert(from <= k < blocks.len() && edges_out(p, blocks[k]).contains(e));
        }
    }
}

/// The edges of a function are the steps that control takes in it.
pub proof fn edges_are_steps(p: ProgramV, f: Function, a: BasicBlock, b: BasicBlock)
    ensures
        cfg_edges(p, f).contains((a.0, b.0)) <==> p.func(f).blocks.contains(a) && a.0 < p.blocks.len() && b.0 < p.blocks.len()
            && steps(p, a, b),
{
    let blocks = p.func(f).blocks;
    let e = (a.0, b.0);
    lemma_edges(p, blocks, 0, Seq::empty(), e);
    assert forall|x: BasicBlock| #[trigger] edges_out(p, x).contains(e) <==> x == a && a.0 < p.blocks.len() && b.0
        < p.blocks.len() && steps(p, a, b) by {
        let s = edges_out(p, x);
        match p.op(p.terminator(x)) {
            Op::Branch(t, u, _) => {
                let (one, two) = (crate::cfg::edge_to(p, x, t), crate::cfg::edge_to(p, x, u));
                assert(s == one + two);
                if s.contains(e) {
                    let k = s.index_of(e);
                    if k < one.len() {
                        assert(one[k] == e);
                    } else {
                        assert(two[k - one.len()] == e);
                    }
                }
                if x == a && a.0 < p.blocks.len() && b.0 < p.blocks.len() && steps(p, a, b) {
                    if t == b {
                        assert(s[0] == e);
                    } else {
                        assert(u == b);
                        assert(s[one.len() as int] == e);
                    }
                }
            },
            Op::Jump(t) => {
                if x == a && a.0 < p.blocks.len() && b.0 < p.blocks.len() && steps(p, a, b) {
                    assert(s[0] == e);
                }
            },
            _ => {},
        }
    }
    if blocks.contains(a) {
        let k = blocks.index_of(a);
        assert(blocks[k] == a);
    }
    if exists|k: int| 0 <= k < blocks.len() && edges_out(p, #[trigger] blocks[k]).contains(e) {
        let k = choose|k: int| 0 <= k < blocks.len() && edges_out(p, #[trigger] blocks[k]).contains(e);
        assert(blocks[k] == a);
    }
}

proof fn lemma_found_push(s: Seq<BasicBlock>, b: BasicBlock, x: BasicBlock)
    ensures
        s.push(b).contains(x) <==> s.contains(x) || x == b,
{
    let t = s.push(b);
    if t.contains(x) {
        let k = t.index_of(x);
        if k < s.len() {
            assert(s[k] == x);
        }
    }
    if s.contains(x) {
        assert(t[s.index_of(x)] == x);
    }
    assert(t[s.len() as int] == b);
}

/// Block `x` is one of `order[from..]`.
spec fn is_among(order: Seq<BasicBlock>, from: int, x: BasicBlock) -> bool {
    exists|k: int| from <= k < order.len() && #[trigger] order[k] == x
}

proof fn lemma_among(order: Seq<BasicBlock>, from: int, x: BasicBlock)
    requires
        0 <= from < order.len(),
    ensures
        is_among(order, from, x) <==> order[from] == x || is_among(order, from + 1, x),
{
    if is_among(order, from, x) {
        let k = choose|k: int| from <= k < order.len() && #[trigger] order[k] == x;
        if k > from {
            assert(from + 1 <= k < order.len() && order[k] == x);
        }
    }
    if is_among(order, from + 1, x) {
        let k = choose|k: int| from + 1 <= k < order.len() && #[trigger] order[k] == x;
        assert(from <= k < order.len() && order[k] == x);
    }
}

proof fn lemma_latches(tree: TreeV, order: Seq<BasicBlock>, h: BasicBlock, from: int, found: Seq<BasicBlock>, x: BasicBlock)
    requires
        0 <= from,
    ensures
        latches_from(tree, order, h, from, found).contains(x) <==> found.contains(x) || (is_among(order, from, x) && is_latch(
            tree,
            h,
            x,
        )),
    decreases order.len() - from,
{
    if from < order.len() {
        let b = order[from];
        lemma_among(order, from, x);
        lemma_found_push(found, b, x);
        lemma_latches(tree, order, h, from + 1, found, x);
        lemma_latches(tree, order, h, from + 1, found.push(b), x);
    }
}

proof fn lemma_gets_back(tree: TreeV, latches: Seq<BasicBlock>, h: BasicBlock, x: BasicBlock, from: int)
    requires
        0 <= from,
    ensures
        gets_back(tree, latches, h, x, from) <==> exists|k: int|
            from <= k < latches.len() && tree.avoiding(h, x, #[trigger] latches[k]),
    decreases latches.len() - from,
{
    if from < latches.len() {
        lemma_gets_back(tree, latches, h, x, from + 1);
        if exists|k: int| from <= k < latches.len() && tree.avoiding(h, x, #[trigger] latches[k]) {
            let k = choose|k: int| from <= k < latches.len() && tree.avoiding(h, x, #[trigger] latches[k]);
            if k > from {
                assert(from + 1 <= k < latches.len() && tree.avoiding(h, x, latches[k]));
            }
        }
        if exists|k: int| from + 1 <= k < latches.len() && tree.avoiding(h, x, #[trigger] latches[k]) {
            let k = choose|k: int| from + 1 <= k < latches.len() && tree.avoiding(h, x, #[trigger] latches[k]);
            assert(from <= k < latches.len() && tree.avoiding(h, x, latches[k]));
        }
        if tree.avoiding(h, x, latches[from]) {
            assert(from <= from < latches.len() && tree.avoiding(h, x, latches[from]));
        }
    }
}

proof fn lemma_body(
    tree: TreeV,
    order: Seq<BasicBlock>,
    latches: Seq<BasicBlock>,
    h: BasicBlock,
    from: int,
    found: Seq<BasicBlock>,
    x: BasicBlock,
)
    requires
        0 <= from,
    ensures
        body_from(tree, order, latches, h, from, found).contains(x) <==> found.contains(x) || (is_among(order, from, x) && (x == h
            || gets_back(tree, latches, h, x, 0))),
    decreases order.len() - from,
{
    if from < order.len() {
        let b = order[from];
        lemma_among(order, from, x);
        lemma_found_push(found, b, x);
        lemma_body(tree, order, latches, h, from + 1, found, x);
        lemma_body(tree, order, latches, h, from + 1, found.push(b), x);
    }
}

/// Loop `l` is the natural loop of its header: the blocks that lead back to it are those that have an edge to it and that it
/// dominates, and its blocks are the header and those from which control gets to one of them without passing the header.
pub open spec fn is_natural(tree: TreeV, order: Seq<BasicBlock>, l: LoopV) -> bool {
    &&& order.contains(l.header)
    &&& l.latches.len() > 0
    &&& forall|x: BasicBlock| #[trigger]
        l.latches.contains(x) <==> order.contains(x) && tree.edges.contains((x.0, l.header.0)) && tree.dominates(l.header, x)
    &&& forall|x: BasicBlock| #[trigger]
        l.body.contains(x) <==> order.contains(x) && (x == l.header || exists|y: BasicBlock| #[trigger]
            l.latches.contains(y) && tree.avoiding(l.header, x, y))
}

spec fn all_natural(tree: TreeV, order: Seq<BasicBlock>, loops: Seq<LoopV>) -> bool {
    forall|k: int| 0 <= k < loops.len() ==> is_natural(tree, order, #[trigger] loops[k])
}

proof fn lemma_natural(tree: TreeV, order: Seq<BasicBlock>, h: BasicBlock)
    requires
        order.contains(h),
        latches_from(tree, order, h, 0, Seq::empty()).len() > 0,
    ensures
        ({
            let latches = latches_from(tree, order, h, 0, Seq::empty());
            is_natural(tree, order, (LoopV { header: h, latches, body: body_from(tree, order, latches, h, 0, Seq::empty()) }))
        }),
{
    let latches = latches_from(tree, order, h, 0, Seq::empty());
    let body = body_from(tree, order, latches, h, 0, Seq::empty());
    let l = LoopV { header: h, latches, body };
    assert forall|x: BasicBlock| is_among(order, 0, x) <==> #[trigger] order.contains(x) by {
        if order.contains(x) {
            assert(order[order.index_of(x)] == x);
        }
    }
    assert forall|x: BasicBlock| #[trigger] l.latches.contains(x) <==> order.contains(x) && tree.edges.contains((x.0, h.0))
        && tree.dominates(h, x) by {
        lemma_latches(tree, order, h, 0, Seq::empty(), x);
    }
    assert forall|x: BasicBlock| #[trigger] l.body.contains(x) <==> order.contains(x) && (x == l.header || exists|
        y: BasicBlock,
    | #[trigger] l.latches.contains(y) && tree.avoiding(l.header, x, y)) by {
        lemma_body(tree, order, latches, h, 0, Seq::empty(), x);
        lemma_gets_back(tree, latches, h, x, 0);
        if gets_back(tree, latches, h, x, 0) {
            let k = choose|k: int| 0 <= k < latches.len() && tree.avoiding(h, x, #[trigger] latches[k]);
            assert(l.latches.contains(latches[k]));
        }
        if exists|y: BasicBlock| #[trigger] l.latches.contains(y) && tree.avoiding(h, x, y) {
            let y = choose|y: BasicBlock| #[trigger] l.latches.contains(y) && tree.avoiding(h, x, y);
            let k = latches.index_of(y);
            assert(latches[k] == y);
        }
    }
    assert(is_natural(tree, order, l));
}

proof fn lemma_loops(tree: TreeV, order: Seq<BasicBlock>, from: int, found: Seq<LoopV>)
    requires
        0 <= from,
        all_natural(tree, order, found),
    ensures
        all_natural(tree, order, loops_from(tree, order, from, found)),
    decreases order.len() - from,
{
    if from < order.len() {
        let h = order[from];
        assert(order.contains(h));
        let latches = latches_from(tree, order, h, 0, Seq::empty());
        if latches.len() > 0 {
            lemma_natural(tree, order, h);
            let l = LoopV { header: h, latches, body: body_from(tree, order, latches, h, 0, Seq::empty()) };
            let next = found.push(l);
            assert forall|k: int| 0 <= k < next.len() implies is_natural(tree, order, #[trigger] next[k]) by {
                if k < found.len() {
                    assert(next[k] == found[k]);
                }
            }
            lemma_loops(tree, order, from + 1, next);
        } else {
            lemma_loops(tree, order, from + 1, found);
        }
    }
}

/// One of `loops` has the header `h`.
pub open spec fn is_header(loops: Seq<LoopV>, h: BasicBlock) -> bool {
    exists|k: int| 0 <= k < loops.len() && (#[trigger] loops[k]).header == h
}

proof fn lemma_header_found(tree: TreeV, order: Seq<BasicBlock>, from: int, found: Seq<LoopV>, h: BasicBlock)
    requires
        0 <= from,
        is_header(found, h) || (is_among(order, from, h) && latches_from(tree, order, h, 0, Seq::empty()).len() > 0),
    ensures
        is_header(loops_from(tree, order, from, found), h),
    decreases order.len() - from,
{
    if from < order.len() {
        let b = order[from];
        lemma_among(order, from, h);
        let latches = latches_from(tree, order, b, 0, Seq::empty());
        let next = if latches.len() > 0 {
            found.push(LoopV { header: b, latches, body: body_from(tree, order, latches, b, 0, Seq::empty()) })
        } else {
            found
        };
        if is_header(found, h) {
            let k = choose|k: int| 0 <= k < found.len() && (#[trigger] found[k]).header == h;
            assert(next[k].header == h);
        } else if b == h {
            assert(next[found.len() as int].header == h);
        }
        lemma_header_found(tree, order, from + 1, next, h);
        assert(loops_from(tree, order, from, found) == loops_from(tree, order, from + 1, next));
    }
}

/// The loops of a function are its natural loops, and each edge back to a block that dominates where it comes from makes
/// one.
pub proof fn loops_are_natural(tree: TreeV, order: Seq<BasicBlock>, h: BasicBlock, x: BasicBlock)
    ensures
        forall|k: int| 0 <= k < loops_of(tree, order).len() ==> is_natural(tree, order, #[trigger] loops_of(tree, order)[k]),
        order.contains(h) && order.contains(x) && tree.edges.contains((x.0, h.0)) && tree.dominates(h, x) ==> is_header(
            loops_of(tree, order),
            h,
        ),
{
    lemma_loops(tree, order, 0, Seq::empty());
    let loops = loops_of(tree, order);
    assert(all_natural(tree, order, loops));
    if order.contains(h) && order.contains(x) && tree.edges.contains((x.0, h.0)) && tree.dominates(h, x) {
        assert(order[order.index_of(x)] == x && order[order.index_of(h)] == h);
        assert(is_among(order, 0, x) && is_among(order, 0, h));
        lemma_latches(tree, order, h, 0, Seq::empty(), x);
        assert(latches_from(tree, order, h, 0, Seq::empty()).contains(x));
        lemma_header_found(tree, order, 0, Seq::empty(), h);
    }
}

} // verus!
