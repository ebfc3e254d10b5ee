//! Natural loops.

use vstd::prelude::*;

use crate::cfg::{DomTree, TreeV};
use crate::graph::reaches;
use crate::ir::{has_block, BasicBlock};

verus! {

/// A loop: its header, the blocks that lead back to it, and all its blocks.
#[verifier::ext_equal]
pub struct LoopV {
    pub header: BasicBlock,
    pub latches: Seq<BasicBlock>,
    pub body: Seq<BasicBlock>,
}

pub struct Loop {
    pub header: BasicBlock,
    pub latches: Vec<BasicBlock>,
    pub body: Vec<BasicBlock>,
}

impl View for Loop {
    type V = LoopV;

    open spec fn view(&self) -> LoopV {
        LoopV { header: self.header, latches: self.latches@, body: self.body@ }
    }
}

impl Loop {
    /// Whether `b` belongs to the loop.
    pub fn contains(&self, b: BasicBlock) -> (r: bool)
        ensures
            r == self@.body.contains(b),
    {
        has_block(&self.body, b)
    }
}

/// Control goes from `n` back to `h`, which dominates it.
pub open spec fn is_latch(tree: TreeV, h: BasicBlock, n: BasicBlock) -> bool {
    tree.edges.contains((n.0, h.0)) && tree.dominates(h, n)
}

/// The blocks of `order[from..]` that lead back to `h`, behind `found`.
pub open spec fn latches_from(tree: TreeV, order: Seq<BasicBlock>, h: BasicBlock, from: int, found: Seq<BasicBlock>) -> Seq<
    BasicBlock,
>
    decreases order.len() - from,
{
    if from >= order.len() {
        found
    } else if is_latch(tree, h, order[from]) {
        latches_from(tree, order, h, from + 1, found.push(order[from]))
    } else {
        latches_from(tree, order, h, from + 1, found)
    }
}

/// Control gets from `x` to one of `latches[from..]` without passing `h`.
pub open spec fn gets_back(tree: TreeV, latches: Seq<BasicBlock>, h: BasicBlock, x: BasicBlock, from: int) -> bool
    decreases latches.len() - from,
{
    from < latches.len() && (tree.avoiding(h, x, latches[from]) || gets_back(tree, latches, h, x, from + 1))
}

/// The blocks of `order[from..]` in the loop with header `h`, behind `found`.
pub open spec fn body_from(
    tree: TreeV,
    order: Seq<BasicBlock>,
    latches: Seq<BasicBlock>,
    h: BasicBlock,
    from: int,
    found: Seq<BasicBlock>,
) -> Seq<BasicBlock>
    decreases order.len() - from,
{
    if from >= order.len() {
        found
    } else if order[from] == h || gets_back(tree, latches, h, order[from], 0) {
        body_from(tree, order, latches, h, from + 1, found.push(order[from]))
    } else {
        body_from(tree, order, latches, h, from + 1, found)
    }
}

/// The loops whose headers are among `order[from..]`, behind `found`.
pub open spec fn loops_from(tree: TreeV, order: Seq<BasicBlock>, from: int, found: Seq<LoopV>) -> Seq<LoopV>
    decreases order.len() - from,
{
    if from >= order.len() {
        found
    } else {
        let h = order[from];
        let latches = latches_from(tree, order, h, 0, Seq::empty());
        if latches.len() > 0 {
            loops_from(
                tree,
                order,
                from + 1,
                found.push(
                    LoopV { header: h, latches, body: body_from(tree, order, latches, h, 0, Seq::empty()) },
                ),
            )
        } else {
            loops_from(tree, order, from + 1, found)
        }
    }
}

/// The loops of a function, by the order of their headers.
pub open spec fn loops_of(tree: TreeV, order: Seq<BasicBlock>) -> Seq<LoopV> {
    loops_from(tree, order, 0, Seq::empty())
}

/// The views of a list of loops.
pub open spec fn views(v: Seq<Loop>) -> Seq<LoopV> {
    Seq::new(v.len(), |k: int| v[k]@)
}

fn has_pair(v: &Vec<(usize, usize)>, a: usize, b: usize) -> (r: bool)
    ensures
        r == v@.contains((a, b)),
{
    let mut i: usize = 0;
    while i < v.len()
        invariant
            i <= v@.len(),
            forall|k: int| 0 <= k < i ==> v@[k] != (a, b),
        decreases v@.len() - i,
    {
        if v[i].0 == a && v[i].1 == b {
            assert(v@[i as int] == (a, b));
            return true;
        }
        assert(v@[i as int] != (a, b));
        i += 1;
    }
    false
}

fn latches(tree: &DomTree, order: &Vec<BasicBlock>, edges: &Vec<(usize, usize)>, h: BasicBlock) -> (r: Vec<BasicBlock>)
    requires
        tree.wf(),
        edges@ == tree@.edges,
    ensures
        r@ == latches_from(tree@, order@, h, 0, Seq::empty()),
{
    let mut r: Vec<BasicBlock> = Vec::new();
    assert(r@ =~= Seq::empty());
    let mut k: usize = 0;
    while k < order.len()
        invariant
            k <= order@.len(),
            tree.wf(),
            edges@ == tree@.edges,
            latches_from(tree@, order@, h, 0, Seq::empty()) == latches_from(tree@, order@, h, k as int, r@),
        decreases order@.len() - k,
    {
        if has_pair(edges, order[k].0, h.0) && tree.dominates(h, order[k]) {
            r.push(order[k]);
        }
        k += 1;
    }
    r
}

fn leads_back(tree: &DomTree, latches: &Vec<BasicBlock>, h: BasicBlock, x: BasicBlock) -> (r: bool)
    requires
        tree.wf(),
    ensures
        r == gets_back(tree@, latches@, h, x, 0),
{
    let mut k: usize = 0;
    while k < latches.len()
        invariant
            k <= latches@.len(),
            tree.wf(),
            gets_back(tree@, latches@, h, x, 0) == gets_back(tree@, latches@, h, x, k as int),
        decreases latches@.len() - k,
    {
        if tree.gets_without(h, x, latches[k]) {
            return true;
        }
        k += 1;
    }
    false
}

fn loop_body(tree: &DomTree, order: &Vec<BasicBlock>, latches: &Vec<BasicBlock>, h: BasicBlock) -> (r: Vec<BasicBlock>)
    requires
        tree.wf(),
    ensures
        r@ == body_from(tree@, order@, latches@, h, 0, Seq::empty()),
{
    let mut r: Vec<BasicBlock> = Vec::new();
    assert(r@ =~= Seq::empty());
    let mut k: usize = 0;
    while k < order.len()
        invariant
            k <= order@.len(),
            tree.wf(),
            body_from(tree@, order@, latches@, h, 0, Seq::empty()) == body_from(
                tree@,
                order@,
                latches@,
                h,
                k as int,
                r@,
            ),
        decreases order@.len() - k,
    {
        if order[k] == h || leads_back(tree, latches, h, order[k]) {
            r.push(order[k]);
        }
        k += 1;
    }
    r
}

/// The loops of a function.
pub fn find_loops(tree: &DomTree, order: &Vec<BasicBlock>) -> (r: Vec<Loop>)
    requires
        tree.wf(),
    ensures
        views(r@) == loops_of(tree@, order@),
{
    let edges = tree.edge_list();
    let mut r: Vec<Loop> = Vec::new();
    assert(views(r@) =~= Seq::empty());
    let mut k: usize = 0;
    while k < order.len()
        invariant
            k <= order@.len(),
            tree.wf(),
            edges@ == tree@.edges,
            loops_from(tree@, order@, 0, Seq::empty()) == loops_from(tree@, order@, k as int, views(r@)),
        decreases order@.len() - k,
    {
        let h = order[k];
        let latches = latches(tree, order, &edges, h);
        if latches.len() > 0 {
            let body = loop_body(tree, order, &latches, h);
            let ghost was = views(r@);
            let l = Loop { header: h, latches, body };
            let ghost v = l@;
            r.push(l);
            assert(views(r@) =~= was.push(v));
        }
        k += 1;
    }
    r
}

/// The header of a loop dominates all its blocks.
pub proof fn header_dominates_loop(tree: TreeV, order: Seq<BasicBlock>, h: BasicBlock, x: BasicBlock)
    requires
        tree.contains(h),
        forall|k: int| 0 <= k < order.len() ==> tree.contains(#[trigger] order[k]),
        ({
            let l = latches_from(tree, order, h, 0, Seq::empty());
            body_from(tree, order, l, h, 0, Seq::empty()).contains(x)
        }),
    ensures
        tree.dominates(h, x),
{
    let l = latches_from(tree, order, h, 0, Seq::empty());
    lemma_latches(tree, order, h, 0, Seq::empty());
    lemma_body(tree, order, l, h, 0, Seq::empty(), x);
    if x == h {
        assert(tree.dominates(h, h)) by {
            assert(!reaches(tree.edges, h.0 as int, tree.entry, h.0 as int)) by {
                lemma_not_through(tree, h);
            }
        }
    } else {
        lemma_back(tree, l, h, x, 0);
        let n = choose|k: int| 0 <= k < l.len() && #[trigger] tree.avoiding(h, x, l[k]);
        let latch = l[n];
        assert(is_latch(tree, h, latch));
        if reaches(tree.edges, h.0 as int, tree.entry, x.0 as int) {
            crate::graph::reaches_is_transitive(
                tree.edges,
                h.0 as int,
                tree.entry,
                x.0 as int,
                latch.0 as int,
            );
        }
    }
}

proof fn lemma_not_through(tree: TreeV, h: BasicBlock)
    ensures
        !reaches(tree.edges, h.0 as int, tree.entry, h.0 as int),
{
    assert forall|n: nat| !crate::graph::reach_in(tree.edges, h.0 as int, tree.entry, h.0 as int, n) by {
        lemma_avoided(tree.edges, h.0 as int, tree.entry, n);
    }
}

proof fn lemma_avoided(edges: Seq<(usize, usize)>, avoid: int, s: int, n: nat)
    ensures
        !crate::graph::reach_in(edges, avoid, s, avoid, n),
    decreases n,
{
    if n > 0 {
        lemma_avoided(edges, avoid, s, (n - 1) as nat);
    }
}

proof fn lemma_latches(tree: TreeV, order: Seq<BasicBlock>, h: BasicBlock, from: int, found: Seq<BasicBlock>)
    requires
        forall|k: int| 0 <= k < found.len() ==> is_latch(tree, h, #[trigger] found[k]),
    ensures
        ({
            let l = latches_from(tree, order, h, from, found);
            forall|k: int| 0 <= k < l.len() ==> is_latch(tree, h, #[trigger] l[k])
        }),
    decreases order.len() - from,
{
    let l = latches_from(tree, order, h, from, found);
    if from >= order.len() {
        assert(l == found);
    } else if is_latch(tree, h, order[from]) {
        lemma_latches(tree, order, h, from + 1, found.push(order[from]));
        assert(l == latches_from(tree, order, h, from + 1, found.push(order[from])));
    } else {
        lemma_latches(tree, order, h, from + 1, found);
        assert(l == latches_from(tree, order, h, from + 1, found));
    }
}

proof fn lemma_body(
    tree: TreeV,
    order: Seq<BasicBlock>,
    latches: Seq<BasicBlock>,
    h: BasicBlock,
    from: int,
    found: Seq<BasicBlock>,
    x: BasicBlock,
)
    requires
        0 <= from,
        body_from(tree, order, latches, h, from, found).contains(x),
    ensures
        found.contains(x) || (exists|k: int| from <= k < order.len() && #[trigger] order[k] == x && (x == h || gets_back(
            tree,
            latches,
            h,
            x,
            0,
        ))),
    decreases order.len() - from,
{
    if from < order.len() {
        let y = order[from];
        if y == h || gets_back(tree, latches, h, y, 0) {
            lemma_body(tree, order, latches, h, from + 1, found.push(y), x);
            if found.push(y).contains(x) && !found.contains(x) {
                let j = choose|j: int| 0 <= j < found.push(y).len() && found.push(y)[j] == x;
                assert(j == found.len());
                assert(order[from] == x);
            }
        } else {
            lemma_body(tree, order, latches, h, from + 1, found, x);
        }
    }
}

proof fn lemma_back(tree: TreeV, latches: Seq<BasicBlock>, h: BasicBlock, x: BasicBlock, from: int)
    requires
        0 <= from,
        gets_back(tree, latches, h, x, from),
    ensures
        exists|k: int| from <= k < latches.len() && #[trigger] tree.avoiding(h, x, latches[k]),
    decreases latches.len() - from,
{
    if !tree.avoiding(h, x, latches[from]) {
        lemma_back(tree, latches, h, x, from + 1);
    }
}

} // verus!
