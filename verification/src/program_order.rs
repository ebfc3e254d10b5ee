//! In which order stores and loads may run, within a function and across calls.

use vstd::prelude::*;

use crate::cfg::{entry_of, tree_of, DomTree};
use crate::ir::{inst_position, position, BasicBlock, Function, Inst, Op, ProgramV};
use crate::program::Program;

verus! {

/// An instruction together with its function.
#[derive(Clone, Copy, Debug, PartialEq, Eq, Hash, Structural)]
pub struct Node {
    pub func: Function,
    pub inst: Inst,
}

/// The position of `i` in block `b`.
pub open spec fn place(p: ProgramV, b: BasicBlock, i: Inst) -> int {
    position(p.block(b).insts, i, 0)
}

/// Block `b` ends in a return.
pub open spec fn is_return(p: ProgramV, b: BasicBlock) -> bool {
    p.op(p.terminator(b)) is Return
}

/// How a store in block `sb` stands to a load in block `lb` of the same function:
/// 2 when it surely runs before, 1 when it may, 0 when the load never sees it.
pub open spec fn same_relation(p: ProgramV, writer: Inst, sb: BasicBlock, load: Node, lb: BasicBlock) -> int {
    let t = tree_of(p, load.func);
    if entry_of(p, load.func) is None {
        0
    } else if sb == lb {
        if place(p, sb, writer) < place(p, lb, load.inst) {
            2
        } else if t.cycles(lb) {
            1
        } else {
            0
        }
    } else if !t.contains(sb) || !t.contains(lb) {
        0
    } else if t.dominates(sb, lb) {
        2
    } else if t.flows(sb, lb) {
        1
    } else {
        0
    }
}

/// `callee` returns, and only after block `sb` has run.
pub open spec fn always_before_return(p: ProgramV, callee: Function, sb: BasicBlock) -> bool {
    let blocks = p.func(callee).blocks;
    &&& exists|k: int| 0 <= k < blocks.len() && is_return(p, #[trigger] blocks[k])
    &&& forall|k: int|
        0 <= k < blocks.len() && is_return(p, #[trigger] blocks[k]) ==> tree_of(p, callee).dominates(sb, blocks[k])
}

/// `callee` may return after block `sb` has run.
pub open spec fn maybe_before_return(p: ProgramV, callee: Function, sb: BasicBlock) -> bool {
    let blocks = p.func(callee).blocks;
    exists|k: int|
        0 <= k < blocks.len() && is_return(p, #[trigger] blocks[k]) && tree_of(p, callee).flows(sb, blocks[k])
}

/// `c` is a call of `callee` in a block of `f` that is reached.
pub open spec fn is_site(p: ProgramV, f: Function, callee: Function, c: Inst) -> bool {
    p.op(c) == Op::Call(callee) && p.parent_bb(f, c) is Some && tree_of(p, f).contains(p.parent_bb(f, c)->0)
}

/// Call `c` surely runs before the load.
pub open spec fn site_before(p: ProgramV, load: Node, lb: BasicBlock, c: Inst) -> bool {
    let cb = p.parent_bb(load.func, c)->0;
    if cb == lb {
        place(p, cb, c) < place(p, lb, load.inst)
    } else {
        tree_of(p, load.func).dominates(cb, lb)
    }
}

/// Control may get from behind call `c` to the load.
pub open spec fn site_leads_to(p: ProgramV, load: Node, lb: BasicBlock, c: Inst) -> bool {
    let cb = p.parent_bb(load.func, c)->0;
    if cb == lb {
        place(p, cb, c) + 1 < place(p, lb, load.inst)
    } else {
        tree_of(p, load.func).flows(cb, lb)
    }
}

/// How a store in block `sb` of `callee` stands to a load in block `lb` of another function.
pub open spec fn cross_relation(p: ProgramV, callee: Function, sb: BasicBlock, load: Node, lb: BasicBlock) -> int {
    let calls = p.placed(load.func);
    if entry_of(p, callee) is None || entry_of(p, load.func) is None || !tree_of(p, callee).contains(sb) || !tree_of(
        p,
        load.func,
    ).contains(lb) {
        0
    } else if always_before_return(p, callee, sb) && exists|k: int|
        0 <= k < calls.len() && is_site(p, load.func, callee, #[trigger] calls[k]) && site_before(
            p,
            load,
            lb,
            calls[k],
        ) {
        2
    } else if maybe_before_return(p, callee, sb) && exists|k: int|
        0 <= k < calls.len() && is_site(p, load.func, callee, #[trigger] calls[k]) && site_leads_to(
            p,
            load,
            lb,
            calls[k],
        ) {
        1
    } else {
        0
    }
}

/// How store `w` stands to the load.
pub open spec fn relation(p: ProgramV, w: Node, load: Node) -> int {
    match (p.parent_bb(w.func, w.inst), p.parent_bb(load.func, load.inst)) {
        (Some(sb), Some(lb)) => if w.func == load.func {
            same_relation(p, w.inst, sb, load, lb)
        } else {
            cross_relation(p, w.func, sb, load, lb)
        },
        _ => 0,
    }
}

/// Blocks of `g` among `prior[from..]`, behind `found`.
pub open spec fn blocks_in(prior: Seq<(Function, BasicBlock)>, g: Function, from: int, found: Seq<BasicBlock>) -> Seq<
    BasicBlock,
>
    decreases prior.len() - from,
{
    if from >= prior.len() {
        found
    } else if prior[from].0 == g {
        blocks_in(prior, g, from + 1, found.push(prior[from].1))
    } else {
        blocks_in(prior, g, from + 1, found)
    }
}

/// `callee` can return without running any block of `avoid`.
pub open spec fn can_return_without(p: ProgramV, callee: Function, avoid: Seq<BasicBlock>) -> bool {
    let blocks = p.func(callee).blocks;
    entry_of(p, callee) is Some && exists|k: int|
        0 <= k < blocks.len() && is_return(p, #[trigger] blocks[k]) && tree_of(p, callee).avoids(avoid, blocks[k])
}

/// Call `c` in the load's function surely runs one of the `prior` stores, and does not stand behind the load in its
/// block.
pub open spec fn surely_writes(p: ProgramV, load: Node, prior: Seq<(Function, BasicBlock)>, c: Inst) -> bool {
    let f = load.func;
    match (p.op(c), p.parent_bb(f, c)) {
        (Op::Call(g), Some(b)) => {
            let stores = blocks_in(prior, g, 0, Seq::empty());
            &&& g != f && stores.len() > 0 && !can_return_without(p, g, stores)
            &&& p.parent_bb(f, load.inst) == Some(b) ==> place(p, b, c) < place(p, b, load.inst)
        },
        _ => false,
    }
}

/// Blocks of the load's function with a call among `insts[from..]` that surely runs one of the `prior` stores,
/// behind `found`.
pub open spec fn writing_sites(
    p: ProgramV,
    load: Node,
    prior: Seq<(Function, BasicBlock)>,
    insts: Seq<Inst>,
    from: int,
    found: Seq<BasicBlock>,
) -> Seq<BasicBlock>
    decreases insts.len() - from,
{
    if from >= insts.len() {
        found
    } else if surely_writes(p, load, prior, insts[from]) {
        writing_sites(p, load, prior, insts, from + 1, found.push(p.parent_bb(load.func, insts[from])->0))
    } else {
        writing_sites(p, load, prior, insts, from + 1, found)
    }
}

/// Some way from the entry of the load's function to the load runs none of the `prior` stores.
pub open spec fn init_reaches(p: ProgramV, load: Node, prior: Seq<(Function, BasicBlock)>) -> bool {
    let f = load.func;
    match (entry_of(p, f), p.parent_bb(f, load.inst)) {
        (Some(_), Some(lb)) => tree_of(p, f).avoids(
            writing_sites(p, load, prior, p.placed(f), 0, blocks_in(prior, f, 0, Seq::empty())),
            lb,
        ),
        _ => false,
    }
}

/// Dominance in every function of one program.
pub struct OrderInfo {
    trees: Vec<Option<DomTree>>,
}

impl OrderInfo {
    pub closed spec fn describes(&self, p: ProgramV) -> bool {
        &&& self.trees@.len() == p.funcs.len()
        &&& forall|f: int|
            0 <= f < self.trees@.len() ==> match #[trigger] self.trees@[f] {
                Some(d) => d.describes(p, Function(f as usize)),
                None => entry_of(p, Function(f as usize)) is None,
            }
    }

    pub fn new(program: &Program) -> (r: OrderInfo)
        ensures
            r.describes(program@),
    {
        let n: usize = program.num_funcs();
        let mut trees: Vec<Option<DomTree>> = Vec::new();
        let mut f: usize = 0;
        while f < n
            invariant
                f <= n,
                n == program@.funcs.len(),
                trees@.len() == f,
                forall|g: int|
                    0 <= g < f ==> match #[trigger] trees@[g] {
                        Some(d) => d.describes(program@, Function(g as usize)),
                        None => entry_of(program@, Function(g as usize)) is None,
                    },
            decreases n - f,
        {
            trees.push(DomTree::new(program, Function(f)));
            f += 1;
        }
        OrderInfo { trees }
    }

    fn tree(&self, Ghost(p): Ghost<ProgramV>, f: Function) -> (r: Option<&DomTree>)
        requires
            self.describes(p),
        ensures
            match r {
                Some(d) => d.wf() && d@ == tree_of(p, f) && entry_of(p, f) is Some,
                None => entry_of(p, f) is None,
            },
    {
        if f.0 >= self.trees.len() {
            return None;
        }
        proof {
            assert(Function(f.0 as int as usize) == f);
            let t = self.trees@[f.0 as int];
        }
        match &self.trees[f.0] {
            Some(d) => Some(d),
            None => None,
        }
    }

    /// How store `w` stands to the load: 2 surely before, 1 maybe before, 0 not seen.
    pub fn writer_relation(&self, p: &Program, w: Node, load: Node) -> (r: u8)
        requires
            self.describes(p@),
        ensures
            r == relation(p@, w, load),
    {
        match (p.parent_bb(w.func, w.inst), p.parent_bb(load.func, load.inst)) {
            (Some(sb), Some(lb)) => if w.func == load.func {
                self.same_func_relation(p, w.inst, sb, load, lb)
            } else {
                self.cross_func_relation(p, w.func, sb, load, lb)
            },
            _ => 0,
        }
    }

    fn same_func_relation(&self, p: &Program, writer: Inst, sb: BasicBlock, load: Node, lb: BasicBlock) -> (r: u8)
        requires
            self.describes(p@),
        ensures
            r == same_relation(p@, writer, sb, load, lb),
    {
        let tree = match self.tree(Ghost(p@), load.func) {
            Some(t) => t,
            None => {
                return 0;
            },
        };
        if sb == lb {
            let insts = p.block_insts(sb);
            return if inst_position(&insts, writer) < inst_position(&insts, load.inst) {
                2
            } else if tree.cycles(lb) {
                1
            } else {
                0
            };
        }
        if !tree.is_reached(sb) || !tree.is_reached(lb) {
            return 0;
        }
        if tree.dominates(sb, lb) {
            2
        } else if tree.flows(sb, lb) {
            1
        } else {
            0
        }
    }

    fn returns_after(&self, p: &Program, callee: Function, sb: BasicBlock, tree: &DomTree) -> (r: (bool, bool))
        requires
            tree.wf(),
            tree@ == tree_of(p@, callee),
        ensures
            r.0 == always_before_return(p@, callee, sb),
            r.1 == maybe_before_return(p@, callee, sb),
    {
        let blocks = p.basicblocks(callee);
        let mut any = false;
        let mut all = true;
        let mut some = false;
        let mut k: usize = 0;
        while k < blocks.len()
            invariant
                k <= blocks@.len(),
                blocks@ == p@.func(callee).blocks,
                tree.wf(),
                tree@ == tree_of(p@, callee),
                any == (exists|j: int| 0 <= j < k && is_return(p@, #[trigger] blocks@[j])),
                all == (forall|j: int|
                    0 <= j < k && is_return(p@, #[trigger] blocks@[j]) ==> tree@.dominates(sb, blocks@[j])),
                some == (exists|j: int|
                    0 <= j < k && is_return(p@, #[trigger] blocks@[j]) && tree@.flows(sb, blocks@[j])),
            decreases blocks@.len() - k,
        {
            let b = blocks[k];
            if let Op::Return = p.op(p.terminator(b)) {
                assert(is_return(p@, blocks@[k as int]));
                any = true;
                if !tree.dominates(sb, b) {
                    all = false;
                }
                if tree.flows(sb, b) {
                    some = true;
                }
            }
            k += 1;
        }
        (any && all, some)
    }

    fn cross_func_relation(&self, p: &Program, callee: Function, sb: BasicBlock, load: Node, lb: BasicBlock) -> (r: u8)
        requires
            self.describes(p@),
        ensures
            r == cross_relation(p@, callee, sb, load, lb),
    {
        let (inner, outer) = match (self.tree(Ghost(p@), callee), self.tree(Ghost(p@), load.func)) {
            (Some(a), Some(b)) => (a, b),
            _ => {
                return 0;
            },
        };
        if !inner.is_reached(sb) || !outer.is_reached(lb) {
            return 0;
        }
        let (always, maybe) = self.returns_after(p, callee, sb, inner);
        let calls = p.placed_insts(load.func);
        let mut before = false;
        let mut leads = false;
        let mut k: usize = 0;
        while k < calls.len()
            invariant
                k <= calls@.len(),
                outer.wf(),
                outer@ == tree_of(p@, load.func),
                before == (exists|j: int|
                    0 <= j < k && is_site(p@, load.func, callee, #[trigger] calls@[j]) && site_before(
                        p@,
                        load,
                        lb,
                        calls@[j],
                    )),
                leads == (exists|j: int|
                    0 <= j < k && is_site(p@, load.func, callee, #[trigger] calls@[j]) && site_leads_to(
                        p@,
                        load,
                        lb,
                        calls@[j],
                    )),
            decreases calls@.len() - k,
        {
            let (b, l) = self.site(p, callee, calls[k], load, lb, outer);
            assert(calls@[k as int] == calls@[k as int]);
            before = before || b;
            leads = leads || l;
            k += 1;
        }
        if always && before {
            2
        } else if maybe && leads {
            1
        } else {
            0
        }
    }

    fn site(&self, p: &Program, callee: Function, c: Inst, load: Node, lb: BasicBlock, tree: &DomTree) -> (r: (bool, bool))
        requires
            tree.wf(),
            tree@ == tree_of(p@, load.func),
        ensures
            r.0 == (is_site(p@, load.func, callee, c) && site_before(p@, load, lb, c)),
            r.1 == (is_site(p@, load.func, callee, c) && site_leads_to(p@, load, lb, c)),
    {
        match p.op(c) {
            Op::Call(g) => {
                if g != callee {
                    return (false, false);
                }
            },
            _ => {
                return (false, false);
            },
        }
        match p.parent_bb(load.func, c) {
            None => (false, false),
            Some(cb) => {
                if !tree.is_reached(cb) {
                    return (false, false);
                }
                if cb == lb {
                    let insts = p.block_insts(cb);
                    let at = inst_position(&insts, c);
                    let to = inst_position(&insts, load.inst);
                    (at < to, at < to && at + 1 < to)
                } else {
                    (tree.dominates(cb, lb), tree.flows(cb, lb))
                }
            },
        }
    }

    /// Whether some way to the load runs none of the `prior` stores.
    pub fn init_reachable(&self, p: &Program, load: Node, prior: &Vec<(Function, BasicBlock)>) -> (r: bool)
        requires
            self.describes(p@),
        ensures
            r == init_reaches(p@, load, prior@),
    {
        let f = load.func;
        let tree = match self.tree(Ghost(p@), f) {
            Some(t) => t,
            None => {
                return false;
            },
        };
        let lb = match p.parent_bb(f, load.inst) {
            Some(b) => b,
            None => {
                return false;
            },
        };
        let mut blocked = prior_blocks(prior, f);
        let insts = p.placed_insts(f);
        let ghost start = blocked@;
        let mut k: usize = 0;
        while k < insts.len()
            invariant
                k <= insts@.len(),
                self.describes(p@),
                f == load.func,
                p@.parent_bb(f, load.inst) == Some(lb),
                writing_sites(p@, load, prior@, insts@, 0, start) == writing_sites(
                    p@,
                    load,
                    prior@,
                    insts@,
                    k as int,
                    blocked@,
                ),
            decreases insts@.len() - k,
        {
            match (p.op(insts[k]), p.parent_bb(f, insts[k])) {
                (Op::Call(g), Some(b)) => {
                    let stores = prior_blocks(prior, g);
                    let block = p.block_insts(b);
                    let behind = b == lb && inst_position(&block, insts[k]) >= inst_position(&block, load.inst);
                    if g != f && stores.len() > 0 && !behind && !self.callee_avoids(p, g, &stores) {
                        blocked.push(b);
                    }
                },
                _ => {},
            }
            k += 1;
        }
        tree.avoids(&blocked, lb)
    }

    /// Whether `callee` can return without running any block of `avoid`.
    pub fn callee_avoids(&self, p: &Program, callee: Function, avoid: &Vec<BasicBlock>) -> (r: bool)
        requires
            self.describes(p@),
        ensures
            r == can_return_without(p@, callee, avoid@),
    {
        let tree = match self.tree(Ghost(p@), callee) {
            Some(t) => t,
            None => {
                return false;
            },
        };
        let blocks = p.basicblocks(callee);
        let mut found = false;
        let mut k: usize = 0;
        while k < blocks.len() && !found
            invariant
                k <= blocks@.len(),
                blocks@ == p@.func(callee).blocks,
                tree.wf(),
                tree@ == tree_of(p@, callee),
                found ==> exists|j: int|
                    0 <= j < blocks@.len() && is_return(p@, #[trigger] blocks@[j]) && tree@.avoids(avoid@, blocks@[j]),
                !found ==> forall|j: int|
                    0 <= j < k ==> !(is_return(p@, #[trigger] blocks@[j]) && tree@.avoids(avoid@, blocks@[j])),
            decreases blocks@.len() - k, !found as int,
        {
            if let Op::Return = p.op(p.terminator(blocks[k])) {
                assert(is_return(p@, blocks@[k as int]));
                if tree.avoids(avoid, blocks[k]) {
                    found = true;
                }
            }
            k += 1;
        }
        found
    }
}

fn prior_blocks(prior: &Vec<(Function, BasicBlock)>, g: Function) -> (r: Vec<BasicBlock>)
    ensures
        r@ == blocks_in(prior@, g, 0, Seq::empty()),
{
    let mut r: Vec<BasicBlock> = Vec::new();
    assert(r@ =~= Seq::empty());
    let mut k: usize = 0;
    while k < prior.len()
        invariant
            k <= prior@.len(),
            blocks_in(prior@, g, 0, Seq::empty()) == blocks_in(prior@, g, k as int, r@),
        decreases prior@.len() - k,
    {
        if prior[k].0 == g {
            r.push(prior[k].1);
        }
        k += 1;
    }
    r
}

} // verus!
