//! Control flow: edges, dominance, visiting orders and natural loops.

use vstd::prelude::*;

use crate::graph::{reach_in, reachable, reaches};
use crate::ir::{has_block, BasicBlock, Function, Op, ProgramV};
use crate::program::Program;

verus! {

/// The edge from `b` to `t`, where both exist.
pub open spec fn edge_to(p: ProgramV, b: BasicBlock, t: BasicBlock) -> Seq<(usize, usize)> {
    if b.0 < p.blocks.len() && t.0 < p.blocks.len() {
        seq![(b.0, t.0)]
    } else {
        Seq::empty()
    }
}

/// The edges that leave block `b`.
pub open spec fn edges_out(p: ProgramV, b: BasicBlock) -> Seq<(usize, usize)> {
    match p.op(p.terminator(b)) {
        Op::Branch(t, f, _) => edge_to(p, b, t) + edge_to(p, b, f),
        Op::Jump(t) => edge_to(p, b, t),
        _ => Seq::empty(),
    }
}

/// The edges that leave `blocks[from..]`, behind `found`.
pub open spec fn edges_from(p: ProgramV, blocks: Seq<BasicBlock>, from: int, found: Seq<(usize, usize)>) -> Seq<
    (usize, usize),
>
    decreases blocks.len() - from,
{
    if from >= blocks.len() {
        found
    } else {
        edges_from(p, blocks, from + 1, found + edges_out(p, blocks[from]))
    }
}

/// The control-flow edges of `f`.
pub open spec fn cfg_edges(p: ProgramV, f: Function) -> Seq<(usize, usize)> {
    edges_from(p, p.func(f).blocks, 0, Seq::empty())
}

/// No node at all.
pub open spec fn none() -> int {
    usize::MAX as int
}

/// `a` is on every walk from `entry` to `b`, which is reached at all.
pub open spec fn dominates_in(edges: Seq<(usize, usize)>, entry: int, a: int, b: int) -> bool {
    reaches(edges, none(), entry, b) && (a == b || !reaches(edges, a, entry, b))
}

/// The entry of `f`, where it has one.
pub open spec fn entry_of(p: ProgramV, f: Function) -> Option<BasicBlock> {
    if p.func(f).blocks.len() > 0 && p.func(f).blocks[0].0 < p.blocks.len() {
        Some(p.func(f).blocks[0])
    } else {
        None
    }
}

/// Block `a` dominates block `b` in `f`.
pub open spec fn dominates(p: ProgramV, f: Function, a: BasicBlock, b: BasicBlock) -> bool {
    entry_of(p, f) is Some && dominates_in(cfg_edges(p, f), (entry_of(p, f)->0).0 as int, a.0 as int, b.0 as int)
}

pub open spec fn in_range(edges: Seq<(usize, usize)>, n: int) -> bool {
    forall|k: int| 0 <= k < edges.len() ==> (#[trigger] edges[k]).0 < n && edges[k].1 < n
}

fn push_edge(p: &Program, edges: &mut Vec<(usize, usize)>, b: BasicBlock, t: BasicBlock)
    requires
        in_range(old(edges)@, p@.blocks.len() as int),
    ensures
        final(edges)@ == old(edges)@ + edge_to(p@, b, t),
        in_range(final(edges)@, p@.blocks.len() as int),
{
    let ghost start = edges@;
    let n: usize = p.num_blocks();
    if b.0 < n && t.0 < n {
        edges.push((b.0, t.0));
    }
    assert(edges@ =~= start + edge_to(p@, b, t));
}

/// The control-flow edges of `f`.
pub fn control_edges(p: &Program, f: Function) -> (edges: Vec<(usize, usize)>)
    ensures
        edges@ == cfg_edges(p@, f),
        in_range(edges@, p@.blocks.len() as int),
{
    let blocks = p.basicblocks(f);
    let mut edges: Vec<(usize, usize)> = Vec::new();
    let mut k: usize = 0;
    while k < blocks.len()
        invariant
            k <= blocks@.len(),
            blocks@ == p@.func(f).blocks,
            in_range(edges@, p@.blocks.len() as int),
            cfg_edges(p@, f) == edges_from(p@, blocks@, k as int, edges@),
        decreases blocks@.len() - k,
    {
        let b = blocks[k];
        let ghost start = edges@;
        match p.op(p.terminator(b)) {
            Op::Branch(t, e, _) => {
                push_edge(p, &mut edges, b, t);
                push_edge(p, &mut edges, b, e);
                assert(edges@ =~= start + (edge_to(p@, b, t) + edge_to(p@, b, e)));
            },
            Op::Jump(t) => {
                push_edge(p, &mut edges, b, t);
            },
            _ => {
                assert(edges@ =~= start + Seq::<(usize, usize)>::empty());
            },
        }
        k += 1;
    }
    edges
}

/// Dominance between the blocks of one function, as its control flow was when this was made.
pub struct DomTree {
    nodes: usize,
    entry: usize,
    edges: Vec<(usize, usize)>,
    blocks: Vec<BasicBlock>,
    reached: Vec<bool>,
    avoiding: Vec<Vec<bool>>,
}

/// Those of `edges[from..]` that do not leave a block of `blocked`, behind `found`.
pub open spec fn unblocked(edges: Seq<(usize, usize)>, blocked: Seq<BasicBlock>, from: int, found: Seq<(usize, usize)>) -> Seq<
    (usize, usize),
>
    decreases edges.len() - from,
{
    if from >= edges.len() {
        found
    } else if blocked.contains(BasicBlock(edges[from].0)) {
        unblocked(edges, blocked, from + 1, found)
    } else {
        unblocked(edges, blocked, from + 1, found.push(edges[from]))
    }
}

/// What a dominance tree is about: the edges, the entry and the number of nodes.
pub struct TreeV {
    pub edges: Seq<(usize, usize)>,
    pub entry: int,
    pub bound: int,
}

impl TreeV {
    /// Block `b` is reached from the entry.
    pub open spec fn contains(self, b: BasicBlock) -> bool {
        b.0 < self.bound && reaches(self.edges, none(), self.entry, b.0 as int)
    }

    /// Control may get from block `a` to block `b`, or they are the same.
    pub open spec fn flows(self, a: BasicBlock, b: BasicBlock) -> bool {
        a.0 < self.bound && b.0 < self.bound && reaches(self.edges, none(), a.0 as int, b.0 as int)
    }

    /// Control may get from block `a` to block `b`, or they are the same, without passing block `x`.
    pub open spec fn avoiding(self, x: BasicBlock, a: BasicBlock, b: BasicBlock) -> bool {
        a.0 < self.bound && b.0 < self.bound && reaches(self.edges, x.0 as int, a.0 as int, b.0 as int)
    }

    /// Control may get from the entry to `b` when no block of `blocked` is left again.
    pub open spec fn avoids(self, blocked: Seq<BasicBlock>, b: BasicBlock) -> bool {
        b.0 < self.bound && !blocked.contains(b) && reaches(
            unblocked(self.edges, blocked, 0, Seq::empty()),
            none(),
            self.entry,
            b.0 as int,
        )
    }

    /// Control may get from block `b` back to it.
    pub open spec fn cycles(self, b: BasicBlock) -> bool {
        exists|k: int|
            0 <= k < self.edges.len() && (#[trigger] self.edges[k]).0 == b.0 && self.flows(
                BasicBlock(self.edges[k].1),
                b,
            )
    }

    /// Block `a` dominates the reached block `b`.
    pub open spec fn dominates(self, a: BasicBlock, b: BasicBlock) -> bool {
        b.0 < self.bound && dominates_in(self.edges, self.entry, a.0 as int, b.0 as int)
    }
}

/// The dominance tree of `f`.
pub open spec fn tree_of(p: ProgramV, f: Function) -> TreeV {
    TreeV { edges: cfg_edges(p, f), entry: (entry_of(p, f)->0).0 as int, bound: p.blocks.len() as int }
}

impl View for DomTree {
    type V = TreeV;

    open spec fn view(&self) -> TreeV {
        TreeV { edges: self.edges(), entry: self.entry(), bound: self.bound() }
    }
}

impl DomTree {
    pub fn entry_block(&self) -> (r: BasicBlock)
        requires
            self.wf(),
        ensures
            r.0 == self@.entry,
    {
        BasicBlock(self.entry)
    }

    /// The control edges.
    pub fn edge_list(&self) -> (r: Vec<(usize, usize)>)
        requires
            self.wf(),
        ensures
            r@ == self@.edges,
    {
        crate::ir::copy_vec(&self.edges)
    }

    /// Whether control may get from `a` to `b`, or they are the same.
    pub fn flows(&self, a: BasicBlock, b: BasicBlock) -> (r: bool)
        requires
            self.wf(),
        ensures
            r == self@.flows(a, b),
    {
        if a.0 >= self.nodes || b.0 >= self.nodes {
            return false;
        }
        let seen = reachable(self.nodes, &self.edges, a.0, usize::MAX);
        seen[b.0]
    }

    /// Whether control may get from `a` to `b`, or they are the same, without passing `x`.
    pub fn gets_without(&self, x: BasicBlock, a: BasicBlock, b: BasicBlock) -> (r: bool)
        requires
            self.wf(),
        ensures
            r == self@.avoiding(x, a, b),
    {
        if a.0 >= self.nodes || b.0 >= self.nodes {
            return false;
        }
        let seen = reachable(self.nodes, &self.edges, a.0, x.0);
        seen[b.0]
    }

    /// Whether control may get from `b` back to it.
    pub fn cycles(&self, b: BasicBlock) -> (r: bool)
        requires
            self.wf(),
        ensures
            r == self@.cycles(b),
    {
        let mut k: usize = 0;
        while k < self.edges.len()
            invariant
                k <= self.edges@.len(),
                self.wf(),
                forall|j: int|
                    0 <= j < k ==> !((#[trigger] self@.edges[j]).0 == b.0 && self@.flows(
                        BasicBlock(self@.edges[j].1),
                        b,
                    )),
            decreases self.edges@.len() - k,
        {
            let e = self.edges[k];
            assert(self@.edges[k as int] == e);
            if e.0 == b.0 && self.flows(BasicBlock(e.1), b) {
                return true;
            }
            k += 1;
        }
        false
    }

    /// Whether control may get from the entry to `b` when no block of `blocked` is left again.
    pub fn avoids(&self, blocked: &Vec<BasicBlock>, b: BasicBlock) -> (r: bool)
        requires
            self.wf(),
        ensures
            r == self@.avoids(blocked@, b),
    {
        if b.0 >= self.nodes || has_block(blocked, b) {
            return false;
        }
        let mut free: Vec<(usize, usize)> = Vec::new();
        assert(free@ =~= Seq::empty());
        let mut k: usize = 0;
        while k < self.edges.len()
            invariant
                k <= self.edges@.len(),
                self.wf(),
                in_range(self.edges@, self.nodes as int),
                in_range(free@, self.nodes as int),
                unblocked(self.edges@, blocked@, 0, Seq::empty()) == unblocked(
                    self.edges@,
                    blocked@,
                    k as int,
                    free@,
                ),
            decreases self.edges@.len() - k,
        {
            let e = self.edges[k];
            assert(self.edges@[k as int].0 < self.nodes && self.edges@[k as int].1 < self.nodes);
            if !has_block(blocked, BasicBlock(e.0)) {
                free.push(e);
            }
            k += 1;
        }
        let seen = reachable(self.nodes, &free, self.entry, usize::MAX);
        seen[b.0]
    }

    pub closed spec fn edges(&self) -> Seq<(usize, usize)> {
        self.edges@
    }

    pub closed spec fn entry(&self) -> int {
        self.entry as int
    }

    pub closed spec fn wf(&self) -> bool {
        &&& self.entry < self.nodes
        &&& in_range(self.edges@, self.nodes as int)
        &&& self.reached@.len() == self.nodes
        &&& forall|t: int|
            0 <= t < self.nodes ==> (#[trigger] self.reached@[t] <==> reaches(
                self.edges@,
                none(),
                self.entry as int,
                t,
            ))
        &&& self.avoiding@.len() == self.blocks@.len()
        &&& forall|i: int| 0 <= i < self.blocks@.len() ==> (#[trigger] self.avoiding@[i])@.len() == self.nodes
        &&& forall|i: int, t: int|
            0 <= i < self.blocks@.len() && 0 <= t < self.nodes ==> (#[trigger] self.avoiding@[i]@[t] <==> reaches(
                self.edges@,
                self.blocks@[i].0 as int,
                self.entry as int,
                t,
            ))
    }

    /// This tree belongs to `f`.
    pub open spec fn describes(&self, p: ProgramV, f: Function) -> bool {
        &&& self.wf()
        &&& self.edges() == cfg_edges(p, f)
        &&& entry_of(p, f) is Some
        &&& self.entry() == (entry_of(p, f)->0).0
        &&& self.bound() == p.blocks.len()
    }

    pub closed spec fn bound(&self) -> int {
        self.nodes as int
    }

    /// Dominance in `f`; `None` for a mere declaration.
    pub fn new(p: &Program, f: Function) -> (r: Option<DomTree>)
        ensures
            match r {
                Some(d) => d.describes(p@, f),
                None => entry_of(p@, f) is None,
            },
    {
        let blocks = p.basicblocks(f);
        let nodes: usize = p.num_blocks();
        if blocks.len() == 0 || blocks[0].0 >= nodes {
            return None;
        }
        let entry: usize = blocks[0].0;
        let edges = control_edges(p, f);
        let reached = reachable(nodes, &edges, entry, usize::MAX);
        let mut avoiding: Vec<Vec<bool>> = Vec::new();
        let mut k: usize = 0;
        while k < blocks.len()
            invariant
                k <= blocks@.len(),
                avoiding@.len() == k,
                entry < nodes,
                in_range(edges@, nodes as int),
                forall|i: int| 0 <= i < k ==> (#[trigger] avoiding@[i])@.len() == nodes,
                forall|i: int, t: int|
                    0 <= i < k && 0 <= t < nodes ==> (#[trigger] avoiding@[i]@[t] <==> reaches(
                        edges@,
                        blocks@[i].0 as int,
                        entry as int,
                        t,
                    )),
            decreases blocks@.len() - k,
        {
            let seen = reachable(nodes, &edges, entry, blocks[k].0);
            avoiding.push(seen);
            k += 1;
        }
        Some(DomTree { nodes, entry, edges, blocks, reached, avoiding })
    }

    /// Whether `b` is reached from the entry.
    pub fn is_reached(&self, b: BasicBlock) -> (r: bool)
        requires
            self.wf(),
        ensures
            r == (b.0 < self.bound() && reaches(self.edges(), none(), self.entry(), b.0 as int)),
    {
        b.0 < self.nodes && self.reached[b.0]
    }

    /// Whether `a` dominates `b`, both blocks of the graph.
    pub fn dominates(&self, a: BasicBlock, b: BasicBlock) -> (r: bool)
        requires
            self.wf(),
        ensures
            r == (b.0 < self.bound() && dominates_in(self.edges(), self.entry(), a.0 as int, b.0 as int)),
    {
        if !self.is_reached(b) {
            return false;
        }
        if a.0 == b.0 {
            return true;
        }
        let mut k: usize = 0;
        while k < self.blocks.len()
            invariant
                k <= self.blocks@.len(),
                self.wf(),
                b.0 < self.nodes,
            decreases self.blocks@.len() - k,
        {
            if self.blocks[k].0 == a.0 {
                let avoided = self.avoiding[k][b.0];
                assert(self.avoiding@[k as int]@[b.0 as int] == avoided);
                assert(avoided == reaches(self.edges@, a.0 as int, self.entry as int, b.0 as int));
                proof {
                    assert(reaches(self.edges(), none(), self.entry(), b.0 as int) == self.reached@[b.0 as int]);
                }
                return !avoided && self.reached[b.0];
            }
            k += 1;
        }
        let seen = reachable(self.nodes, &self.edges, self.entry, a.0);
        !seen[b.0]
    }
}

/// Depth-first search from `b`: blocks seen so far, and blocks left so far in order.
pub open spec fn dfs(p: ProgramV, b: BasicBlock, depth: nat, seen: Seq<BasicBlock>, left: Seq<BasicBlock>) -> (
    Seq<BasicBlock>,
    Seq<BasicBlock>,
)
    decreases depth,
{
    if depth == 0 || seen.contains(b) {
        (seen, left)
    } else {
        let s = match p.op(p.terminator(b)) {
            Op::Branch(t, f, _) => {
                let s1 = dfs(p, t, (depth - 1) as nat, seen.push(b), left);
                dfs(p, f, (depth - 1) as nat, s1.0, s1.1)
            },
            Op::Jump(t) => dfs(p, t, (depth - 1) as nat, seen.push(b), left),
            _ => (seen.push(b), left),
        };
        (s.0, s.1.push(b))
    }
}

fn search(p: &Program, b: BasicBlock, depth: usize, seen: &mut Vec<BasicBlock>, left: &mut Vec<BasicBlock>)
    ensures
        (final(seen)@, final(left)@) == dfs(p@, b, depth as nat, old(seen)@, old(left)@),
    decreases depth,
{
    if depth == 0 || has_block(seen, b) {
        return;
    }
    seen.push(b);
    match p.op(p.terminator(b)) {
        Op::Branch(t, f, _) => {
            search(p, t, depth - 1, seen, left);
            search(p, f, depth - 1, seen, left);
        },
        Op::Jump(t) => {
            search(p, t, depth - 1, seen, left);
        },
        _ => {},
    }
    left.push(b);
}

/// The blocks reached from the entry of `f`, each before the ones left before it.
pub open spec fn reverse_postorder(p: ProgramV, f: Function) -> Seq<BasicBlock> {
    if p.func(f).blocks.len() == 0 {
        Seq::empty()
    } else {
        dfs(p, p.func(f).blocks[0], p.blocks.len(), Seq::empty(), Seq::empty()).1.reverse()
    }
}

/// The blocks of `f` in reverse postorder.
pub fn rpo_path(p: &Program, f: Function) -> (r: Vec<BasicBlock>)
    ensures
        r@ == reverse_postorder(p@, f),
{
    let blocks = p.basicblocks(f);
    let mut r: Vec<BasicBlock> = Vec::new();
    if blocks.len() == 0 {
        assert(r@ =~= Seq::empty());
        return r;
    }
    let mut seen: Vec<BasicBlock> = Vec::new();
    let mut left: Vec<BasicBlock> = Vec::new();
    assert(seen@ =~= Seq::empty());
    assert(left@ =~= Seq::empty());
    search(p, blocks[0], p.num_blocks(), &mut seen, &mut left);
    let mut k: usize = left.len();
    while k > 0
        invariant
            k <= left@.len(),
            r@.len() == left@.len() - k,
            forall|i: int| 0 <= i < r@.len() ==> r@[i] == left@[left@.len() - 1 - i],
        decreases k,
    {
        k -= 1;
        r.push(left[k]);
    }
    assert(r@ =~= left@.reverse());
    r
}

/// All of `order[from..]` that dominate `c`, other than `c`, dominate `b`.
pub open spec fn closest(tree: TreeV, order: Seq<BasicBlock>, b: BasicBlock, c: BasicBlock, from: int) -> bool
    decreases order.len() - from,
{
    from >= order.len() || ((order[from] != c && tree.dominates(order[from], c) ==> tree.dominates(order[from], b))
        && closest(tree, order, b, c, from + 1))
}

/// Block `b` is the closest block that dominates `c`.
pub open spec fn immediate(tree: TreeV, order: Seq<BasicBlock>, b: BasicBlock, c: BasicBlock) -> bool {
    b != c && tree.dominates(b, c) && closest(tree, order, b, c, 0)
}

/// Whether `b` is the closest block that dominates `c`.
pub fn is_immediate(tree: &DomTree, order: &Vec<BasicBlock>, b: BasicBlock, c: BasicBlock) -> (r: bool)
    requires
        tree.wf(),
    ensures
        r == immediate(tree@, order@, b, c),
{
    if b == c || !tree.dominates(b, c) {
        return false;
    }
    let mut k: usize = 0;
    while k < order.len()
        invariant
            k <= order@.len(),
            tree.wf(),
            closest(tree@, order@, b, c, 0) == closest(tree@, order@, b, c, k as int),
        decreases order@.len() - k,
    {
        let x = order[k];
        if x != c && tree.dominates(x, c) && !tree.dominates(x, b) {
            return false;
        }
        k += 1;
    }
    true
}

/// A dominator of `b` is reached on the way to it, and dominance composes.
pub proof fn dominance_is_transitive(edges: Seq<(usize, usize)>, entry: int, a: int, b: int, c: int)
    requires
        dominates_in(edges, entry, a, b),
        dominates_in(edges, entry, b, c),
    ensures
        dominates_in(edges, entry, a, c),
{
    if a != c && a != b && b != c && reaches(edges, a, entry, c) {
        let n = choose|n: nat| reach_in(edges, a, entry, c, n);
        lemma_prefix(edges, entry, a, b, c, n);
    }
}

/// A walk to `c` that avoids `a` gives one to `c` that avoids `b`, or one to `b` that avoids `a`.
proof fn lemma_prefix(edges: Seq<(usize, usize)>, entry: int, a: int, b: int, c: int, n: nat)
    requires
        reach_in(edges, a, entry, c, n),
        !reaches(edges, a, entry, b),
    ensures
        reaches(edges, b, entry, c),
    decreases n,
{
    assert(reaches(edges, a, entry, c));
    if n == 0 {
        assert(reach_in(edges, b, entry, c, 0));
    } else {
        let k = choose|k: int|
            0 <= k < edges.len() && (#[trigger] edges[k]).1 == c && reach_in(
                edges,
                a,
                entry,
                edges[k].0 as int,
                (n - 1) as nat,
            );
        lemma_prefix(edges, entry, a, b, edges[k].0 as int, (n - 1) as nat);
        let m = choose|m: nat| reach_in(edges, b, entry, edges[k].0 as int, m);
        assert(reach_in(edges, b, entry, c, m + 1));
    }
}

/// A walk to `t` either avoids `b` or contains a walk to `b`, a shorter one unless `t` is `b`.
proof fn lemma_passes(edges: Seq<(usize, usize)>, entry: int, b: int, t: int, n: nat) -> (m: nat)
    requires
        reach_in(edges, none(), entry, t, n),
    ensures
        reach_in(edges, b, entry, t, n) || (reach_in(edges, none(), entry, b, m) && m <= n && (t
            != b ==> m < n)),
    decreases n,
{
    if t == b || n == 0 {
        n
    } else {
        let k = choose|k: int|
            0 <= k < edges.len() && (#[trigger] edges[k]).1 == t && reach_in(
                edges,
                none(),
                entry,
                edges[k].0 as int,
                (n - 1) as nat,
            );
        lemma_passes(edges, entry, b, edges[k].0 as int, (n - 1) as nat)
    }
}

proof fn lemma_no_mutual_dominance(edges: Seq<(usize, usize)>, entry: int, a: int, b: int, n: nat)
    requires
        reach_in(edges, none(), entry, a, n),
        a != b,
    ensures
        reaches(edges, b, entry, a) || reaches(edges, a, entry, b),
    decreases n,
{
    if !reaches(edges, b, entry, a) {
        let m = lemma_passes(edges, entry, b, a, n);
        lemma_no_mutual_dominance(edges, entry, b, a, m);
    }
}

/// Of two blocks at most one dominates the other.
pub proof fn dominance_is_antisymmetric(edges: Seq<(usize, usize)>, entry: int, a: int, b: int)
    requires
        dominates_in(edges, entry, a, b),
        dominates_in(edges, entry, b, a),
    ensures
        a == b,
{
    if a != b {
        let n = choose|n: nat| reach_in(edges, none(), entry, a, n);
        lemma_no_mutual_dominance(edges, entry, a, b, n);
    }
}

} // verus!
