//! Equality chains `if x == k1 .. else if x == k2 ..` turned into a balanced decision tree.

use vstd::prelude::*;

use crate::ir::{copy_vec, has_block, BasicBlock, BinaryOp, Function, Inst, Op, ProgramV, Type};
use crate::names::{decimal, numbered};
use crate::program::Program;

verus! {

pub struct ChainToSwitch;

/// A chain block holds a comparison and a branch.
pub const CHAIN_BLOCK_INSTS: usize = 2;

/// Shorter chains are left alone.
pub const MIN_CHAIN_LEN: usize = 4;

/// One test of a chain: `block` goes to `handler` when the value is `k`, else to `next`.
pub struct Link {
    pub block: BasicBlock,
    pub k: i32,
    pub handler: BasicBlock,
    pub handler_args: Vec<Inst>,
    pub next: BasicBlock,
    pub next_args: Vec<Inst>,
}

#[verifier::ext_equal]
pub struct LinkV {
    pub block: BasicBlock,
    pub k: i32,
    pub handler: BasicBlock,
    pub handler_args: Seq<Inst>,
    pub next: BasicBlock,
    pub next_args: Seq<Inst>,
}

impl View for Link {
    type V = LinkV;

    open spec fn view(&self) -> LinkV {
        LinkV {
            block: self.block,
            k: self.k,
            handler: self.handler,
            handler_args: self.handler_args@,
            next: self.next,
            next_args: self.next_args@,
        }
    }
}

pub open spec fn link_views(links: Seq<Link>) -> Seq<LinkV> {
    Seq::new(links.len(), |i: int| links[i]@)
}

impl Link {
    fn copied(&self) -> (r: Link)
        ensures
            r@ == self@,
    {
        Link {
            block: self.block,
            k: self.k,
            handler: self.handler,
            handler_args: copy_vec(&self.handler_args),
            next: self.next,
            next_args: copy_vec(&self.next_args),
        }
    }
}

/// The value and the literal that the equality test `i` compares; a literal on the right is preferred.
pub open spec fn equality_operands(p: ProgramV, i: Inst) -> Option<(Inst, i32)> {
    match p.op(i) {
        Op::Binary(BinaryOp::Eq) => match p.op(p.arg(i, 1)) {
            Op::Integer(k) => Some((p.arg(i, 0), k)),
            _ => match p.op(p.arg(i, 0)) {
                Op::Integer(k) => Some((p.arg(i, 1), k)),
                _ => None,
            },
        },
        _ => None,
    }
}

/// Some link tests for `k`.
pub open spec fn tests_for(links: Seq<LinkV>, k: i32) -> bool {
    exists|j: int| 0 <= j < links.len() && (#[trigger] links[j]).k == k
}

/// Block `cur` read as the next link behind `links`, which test `x` (any value while there are none),
/// together with the value it tests.
pub open spec fn link_at(p: ProgramV, cur: BasicBlock, x: Option<Inst>, links: Seq<LinkV>) -> Option<(Inst, LinkV)> {
    let insts = p.block(cur).insts;
    if insts.len() != CHAIN_BLOCK_INSTS {
        None
    } else {
        match (equality_operands(p, insts[0]), p.op(insts[1])) {
            (Some((value, k)), Op::Branch(t, f, _)) => if p.arg(insts[1], 0) != insts[0] || (x is Some && x->0 != value)
                || tests_for(links, k) || f == cur {
                None
            } else {
                Some(
                    (
                        value,
                        LinkV {
                            block: cur,
                            k,
                            handler: t,
                            handler_args: p.t_args(insts[1]),
                            next: f,
                            next_args: p.f_args(insts[1]),
                        },
                    ),
                )
            },
            _ => None,
        }
    }
}

/// The links found from block `cur` on, behind `links`; at most `fuel` more of them.
pub open spec fn chain_from(
    p: ProgramV,
    cur: BasicBlock,
    x: Option<Inst>,
    links: Seq<LinkV>,
    fuel: nat,
) -> (Option<Inst>, Seq<LinkV>)
    decreases fuel,
{
    if fuel == 0 {
        (x, links)
    } else {
        match link_at(p, cur, x, links) {
            None => (x, links),
            Some((value, link)) => chain_from(p, link.next, Some(value), links.push(link), (fuel - 1) as nat),
        }
    }
}

/// The chain that starts at `head`: the tested value and the links.
///
/// Every link tests for another literal, so no block occurs twice.
pub open spec fn chain_at(p: ProgramV, head: BasicBlock) -> Option<(Inst, Seq<LinkV>)> {
    let (x, links) = chain_from(p, head, None, Seq::empty(), p.blocks.len());
    if links.len() < MIN_CHAIN_LEN || x is None {
        None
    } else if exists|j: int| 1 <= j < links.len() && p.block((#[trigger] links[j]).block).params.len() != 0 {
        None
    } else {
        Some((x->0, links))
    }
}

/// The first position at or after `from` of a link with a literal above `k`.
pub open spec fn slot(links: Seq<LinkV>, k: i32, from: int) -> int
    decreases links.len() - from,
{
    if from >= links.len() {
        links.len() as int
    } else if links[from].k > k {
        from
    } else {
        slot(links, k, from + 1)
    }
}

/// `links[from..]` inserted one by one in ascending order into `done`.
pub open spec fn sorted_into(links: Seq<LinkV>, from: int, done: Seq<LinkV>) -> Seq<LinkV>
    decreases links.len() - from,
{
    if from >= links.len() {
        done
    } else {
        sorted_into(links, from + 1, done.insert(slot(done, links[from].k, 0), links[from]))
    }
}

/// The links in ascending order of their literals.
pub open spec fn sorted_links(links: Seq<LinkV>) -> Seq<LinkV> {
    sorted_into(links, 0, Seq::empty())
}

/// A new empty block named after `k` at the end of `f`, or `into` where the whole range is covered.
pub open spec fn tree_block(
    p: ProgramV,
    f: Function,
    name: Seq<char>,
    whole: bool,
    into: BasicBlock,
) -> (ProgramV, BasicBlock) {
    if whole {
        (p, into)
    } else {
        (p.basic_block(name, Seq::empty()).push_bb_back(f, p.next_block()), p.next_block())
    }
}

/// A comparison of `x` with instruction `k` made and put at the end of block `b`.
pub open spec fn with_compare(p: ProgramV, b: BasicBlock, op: BinaryOp, x: Inst, k: Inst) -> ProgramV {
    p.push_inst(Op::Binary(op), seq![x, k], p.binary_ty(op, x), false).append(b, p.next_inst())
}

/// A branch made and put at the end of block `b`.
pub open spec fn with_branch(
    p: ProgramV,
    b: BasicBlock,
    c: Inst,
    t: BasicBlock,
    t_args: Seq<Inst>,
    e: BasicBlock,
    e_args: Seq<Inst>,
) -> ProgramV {
    p.push_inst(Op::Branch(t, e, t_args.len() as usize), seq![c] + t_args + e_args, Type::Unit, false).append(
        b,
        p.next_inst(),
    )
}

/// The decision tree for `links[lo..hi]`: the program with its blocks, and the block that it starts in.
pub open spec fn tree_built(
    p: ProgramV,
    f: Function,
    x: Inst,
    links: Seq<LinkV>,
    default: BasicBlock,
    default_args: Seq<Inst>,
    lo: int,
    hi: int,
    into: BasicBlock,
) -> (ProgramV, BasicBlock)
    decreases hi - lo,
{
    let whole = lo == 0 && hi == links.len();
    if hi - lo <= 1 {
        let link = links[lo];
        let (p1, check) = tree_block(p, f, "chain_case_"@ + decimal(link.k as int), whole, into);
        let p2 = p1.push_inst(Op::Integer(link.k), Seq::empty(), Type::I32, false);
        let p3 = with_compare(p2, check, BinaryOp::Eq, x, p1.next_inst());
        (with_branch(p3, check, p2.next_inst(), link.handler, link.handler_args, default, default_args), check)
    } else {
        let mid = lo + (hi - lo) / 2;
        let link = links[mid];
        let (p1, left) = if lo < mid {
            tree_built(p, f, x, links, default, default_args, lo, mid, into)
        } else {
            (p, default)
        };
        let (p2, right) = if mid + 1 < hi {
            tree_built(p1, f, x, links, default, default_args, mid + 1, hi, into)
        } else {
            (p1, default)
        };
        let right_args = if mid + 1 < hi {
            Seq::empty()
        } else {
            default_args
        };
        let (p3, check) = tree_block(p2, f, "chain_check_"@ + decimal(link.k as int), whole, into);
        let p4 = p3.push_inst(Op::Integer(link.k), Seq::empty(), Type::I32, false);
        let p5 = with_compare(p4, check, BinaryOp::Eq, x, p3.next_inst());
        let (p6, split) = tree_block(p5, f, "chain_split_"@ + decimal(link.k as int), false, into);
        let p7 = with_compare(p6, split, BinaryOp::Lt, x, p3.next_inst());
        let p8 = with_branch(p7, split, p6.next_inst(), left, Seq::empty(), right, right_args);
        (with_branch(p8, check, p4.next_inst(), link.handler, link.handler_args, split, Seq::empty()), check)
    }
}

/// The blocks of `links[from..]` other than `head` taken out of `f`.
pub open spec fn links_removed(p: ProgramV, f: Function, links: Seq<LinkV>, head: BasicBlock, from: int) -> ProgramV
    decreases links.len() - from,
{
    if from >= links.len() {
        p
    } else if links[from].block != head {
        links_removed(p.remove_block(f, links[from].block), f, links, head, from + 1)
    } else {
        links_removed(p, f, links, head, from + 1)
    }
}

/// Instruction `u` of `f` leads to the block of link `j` otherwise than the link before does where its test
/// fails.
pub open spec fn leads_aside(p: ProgramV, f: Function, links: Seq<LinkV>, j: int, u: Inst) -> bool {
    &&& p.parent_bb(f, u) is Some
    &&& p.inst(u).targets(links[j].block)
    &&& u != p.block(links[j - 1].block).insts[1] || links[j - 1].handler == links[j].block
}

/// Behind its head the chain is entered only from one link to the next.
pub open spec fn stands_alone(p: ProgramV, f: Function, links: Seq<LinkV>) -> bool {
    forall|j: int, u: Inst| 1 <= j < links.len() ==> !#[trigger] leads_aside(p, f, links, j, u)
}

/// The program after the chain at `head` became a tree; `None` where no chain starts there, or where it is
/// entered elsewhere as well.
pub open spec fn chain_converted(p: ProgramV, f: Function, head: BasicBlock) -> Option<ProgramV> {
    match chain_at(p, head) {
        None => None,
        Some((x, links)) => if !stands_alone(p, f, links) {
            None
        } else {
            let order = sorted_links(links);
            let last = links.last();
            let tree = tree_built(p, f, x, order, last.next, last.next_args, 0, order.len() as int, head).0;
            Some(links_removed(tree.remove_all(head, p.block(head).insts, 0), f, order, head, 0))
        },
    }
}

/// Chains converted at each of `heads[from..]` that still stands in `f`.
pub open spec fn chains_converted(
    p: ProgramV,
    f: Function,
    heads: Seq<BasicBlock>,
    from: int,
    changed: bool,
) -> (ProgramV, bool)
    decreases heads.len() - from,
{
    if from >= heads.len() {
        (p, changed)
    } else if !p.func(f).blocks.contains(heads[from]) {
        chains_converted(p, f, heads, from + 1, changed)
    } else {
        match chain_converted(p, f, heads[from]) {
            Some(q) => chains_converted(q, f, heads, from + 1, true),
            None => chains_converted(p, f, heads, from + 1, changed),
        }
    }
}

/// The chains of the functions `layout[from..]` converted.
pub open spec fn chains_converted_everywhere(p: ProgramV, layout: Seq<Function>, from: int, changed: bool) -> (ProgramV, bool)
    decreases layout.len() - from,
{
    if from >= layout.len() {
        (p, changed)
    } else {
        let (q, here) = chains_converted(p, layout[from], p.func(layout[from]).blocks, 0, false);
        chains_converted_everywhere(q, layout, from + 1, changed || here)
    }
}

impl ChainToSwitch {
    /// Converts every chain of every function. True when anything changed.
    pub fn run(&mut self, program: &mut Program) -> (changed: bool)
        ensures
            (final(program)@, changed) == chains_converted_everywhere(old(program)@, old(program)@.layout, 0, false),
    {
        let layout = program.function_layout();
        let mut changed = false;
        let mut k: usize = 0;
        while k < layout.len()
            invariant
                k <= layout@.len(),
                chains_converted_everywhere(old(program)@, layout@, 0, false) == chains_converted_everywhere(program@, layout@, k as int, changed),
            decreases layout@.len() - k,
        {
            let here = self.run_on(program, layout[k]);
            changed = changed || here;
            k += 1;
        }
        changed
    }

    /// Converts every chain of `f`. True when something changed.
    pub fn run_on(&mut self, data: &mut Program, f: Function) -> (changed: bool)
        ensures
            (final(data)@, changed) == chains_converted(old(data)@, f, old(data)@.func(f).blocks, 0, false),
    {
        let heads = data.basicblocks(f);
        let mut changed = false;
        let mut k: usize = 0;
        while k < heads.len()
            invariant
                k <= heads@.len(),
                heads@ == old(data)@.func(f).blocks,
                chains_converted(old(data)@, f, heads@, 0, false) == chains_converted(
                    data@,
                    f,
                    heads@,
                    k as int,
                    changed,
                ),
            decreases heads@.len() - k,
        {
            let now = data.basicblocks(f);
            if has_block(&now, heads[k]) {
                if Self::convert_chain(data, f, heads[k]) {
                    changed = true;
                }
            }
            k += 1;
        }
        changed
    }

    /// Replaces the chain that starts at `head`, if one does, by a decision tree.
    pub fn convert_chain(data: &mut Program, f: Function, head: BasicBlock) -> (r: bool)
        ensures
            match chain_converted(old(data)@, f, head) {
                Some(q) => r && final(data)@ == q,
                None => !r && final(data)@ == old(data)@,
            },
    {
        let (x, links) = match Self::detect_chain(data, head) {
            Some(found) => found,
            None => {
                return false;
            },
        };
        proof {
            lemma_links_hold_two(data@, head, None, Seq::empty(), data@.blocks.len());
        }
        if is_entered(data, f, &links) {
            return false;
        }
        let sorted = sort_links(&links);
        let n = links.len();
        let default = links[n - 1].next;
        let default_args = copy_vec(&links[n - 1].next_args);
        let old_insts = data.block_insts(head);
        proof {
            lemma_sorted_len(link_views(links@), 0, Seq::empty());
        }
        Self::build_tree(data, f, x, &sorted, default, &default_args, 0, sorted.len(), head);
        data.remove_all(head, &old_insts);
        let ghost cleared = data@;
        let mut k: usize = 0;
        while k < sorted.len()
            invariant
                k <= sorted@.len(),
                links_removed(cleared, f, link_views(sorted@), head, 0) == links_removed(
                    data@,
                    f,
                    link_views(sorted@),
                    head,
                    k as int,
                ),
            decreases sorted@.len() - k,
        {
            if sorted[k].block != head {
                data.remove_layout_basicblock(f, sorted[k].block);
            }
            k += 1;
        }
        true
    }

    /// The chain that starts at `head`: the tested value and its links in chain order.
    pub fn detect_chain(data: &Program, head: BasicBlock) -> (r: Option<(Inst, Vec<Link>)>)
        ensures
            match r {
                Some((x, links)) => chain_at(data@, head) == Some((x, link_views(links@))) && links@.len()
                    >= MIN_CHAIN_LEN,
                None => chain_at(data@, head) is None,
            },
    {
        let mut x: Option<Inst> = None;
        let mut links: Vec<Link> = Vec::new();
        let mut cur = head;
        let mut fuel: usize = data.num_blocks();
        let ghost whole = chain_from(data@, head, None, Seq::empty(), data@.blocks.len());
        assert(link_views(links@) =~= Seq::empty());
        while fuel > 0
            invariant_except_break
                whole == chain_from(data@, cur, x, link_views(links@), fuel as nat),
            ensures
                whole == (x, link_views(links@)),
            decreases fuel,
        {
            match Self::next_link(data, cur, x, &links) {
                None => {
                    break;
                },
                Some((value, link)) => {
                    let ghost before = link_views(links@);
                    let ghost added = link@;
                    x = Some(value);
                    cur = link.next;
                    links.push(link);
                    assert(link_views(links@) =~= before.push(added));
                },
            }
            fuel -= 1;
        }
        if links.len() < MIN_CHAIN_LEN {
            return None;
        }
        if takes_params(data, &links) {
            return None;
        }
        match x {
            Some(value) => Some((value, links)),
            None => None,
        }
    }

    /// Reads block `cur` as the next link of a chain.
    fn next_link(data: &Program, cur: BasicBlock, x: Option<Inst>, links: &Vec<Link>) -> (r: Option<(Inst, Link)>)
        ensures
            match r {
                Some((value, link)) => link_at(data@, cur, x, link_views(links@)) == Some((value, link@)),
                None => link_at(data@, cur, x, link_views(links@)) is None,
            },
    {
        let insts = data.block_insts(cur);
        if insts.len() != CHAIN_BLOCK_INSTS {
            return None;
        }
        let (value, k) = match equality_parts(data, insts[0]) {
            Some(found) => found,
            None => {
                return None;
            },
        };
        match data.op(insts[1]) {
            Op::Branch(t, f, _) => {
                if data.arg(insts[1], 0) != insts[0] || f == cur {
                    return None;
                }
                if let Some(expected) = x {
                    if expected != value {
                        return None;
                    }
                }
                if is_tested(links, k) {
                    return None;
                }
                let link = Link {
                    block: cur,
                    k,
                    handler: t,
                    handler_args: data.t_args(insts[1]),
                    next: f,
                    next_args: data.f_args(insts[1]),
                };
                Some((value, link))
            },
            _ => None,
        }
    }

    /// Builds the decision tree for `links[lo..hi]` and returns the block that it starts in.
    pub fn build_tree(
        data: &mut Program,
        f: Function,
        x: Inst,
        links: &Vec<Link>,
        default: BasicBlock,
        default_args: &Vec<Inst>,
        lo: usize,
        hi: usize,
        into_block: BasicBlock,
    ) -> (r: BasicBlock)
        requires
            lo < hi <= links@.len(),
        ensures
            (final(data)@, r) == tree_built(
                old(data)@,
                f,
                x,
                link_views(links@),
                default,
                default_args@,
                lo as int,
                hi as int,
                into_block,
            ),
        decreases hi - lo,
    {
        let whole = lo == 0 && hi == links.len();
        if hi - lo == 1 {
            let link = &links[lo];
            let check = Self::place_block(data, f, "chain_case_", link.k, whole, into_block);
            let k_inst = data.integer(link.k);
            let eq = data.binary(BinaryOp::Eq, x, k_inst);
            data.insert_inst(check, eq);
            let br = data.branch(eq, link.handler, copy_vec(&link.handler_args), default, copy_vec(default_args));
            data.insert_inst(check, br);
            return check;
        }
        let mid: usize = lo + (hi - lo) / 2;
        let link = &links[mid];
        let left_target = Self::build_tree(data, f, x, links, default, default_args, lo, mid, into_block);
        let none: Vec<Inst> = Vec::new();
        assert(none@ =~= Seq::empty());
        let (right_target, right_args) = if mid + 1 < hi {
            let right = Self::build_tree(data, f, x, links, default, default_args, mid + 1, hi, into_block);
            (right, copy_vec(&none))
        } else {
            (default, copy_vec(default_args))
        };
        let check = Self::place_block(data, f, "chain_check_", link.k, whole, into_block);
        let key_inst = data.integer(link.k);
        let eq = data.binary(BinaryOp::Eq, x, key_inst);
        data.insert_inst(check, eq);
        let split = Self::place_block(data, f, "chain_split_", link.k, false, into_block);
        let lt = data.binary(BinaryOp::Lt, x, key_inst);
        data.insert_inst(split, lt);
        let split_br = data.branch(lt, left_target, copy_vec(&none), right_target, right_args);
        data.insert_inst(split, split_br);
        let check_br = data.branch(eq, link.handler, copy_vec(&link.handler_args), split, none);
        data.insert_inst(check, check_br);
        check
    }

    fn place_block(data: &mut Program, f: Function, prefix: &str, k: i32, whole: bool, into: BasicBlock) -> (r:
        BasicBlock)
        ensures
            (final(data)@, r) == tree_block(old(data)@, f, prefix@ + decimal(k as int), whole, into),
    {
        if whole {
            into
        } else {
            let none: Vec<Type> = Vec::new();
            assert(none@ =~= Seq::empty());
            let b = data.basic_block(numbered(prefix, k), none);
            data.push_bb_back(f, b);
            b
        }
    }
}

/// Whether some link tests for `k`.
fn is_tested(links: &Vec<Link>, k: i32) -> (r: bool)
    ensures
        r == tests_for(link_views(links@), k),
{
    let mut j: usize = 0;
    while j < links.len()
        invariant
            j <= links@.len(),
            forall|m: int| 0 <= m < j ==> (#[trigger] link_views(links@)[m]).k != k,
        decreases links@.len() - j,
    {
        if links[j].k == k {
            assert(link_views(links@)[j as int].k == k);
            return true;
        }
        j += 1;
    }
    false
}

/// Whether a link behind the first one stands in a block with parameters.
fn takes_params(data: &Program, links: &Vec<Link>) -> (r: bool)
    requires
        links@.len() >= 1,
    ensures
        r == (exists|j: int|
            1 <= j < links@.len() && data@.block((#[trigger] link_views(links@)[j]).block).params.len() != 0),
{
    let mut j: usize = 1;
    while j < links.len()
        invariant
            1 <= j <= links@.len(),
            forall|m: int| 1 <= m < j ==> data@.block((#[trigger] link_views(links@)[m]).block).params.len() == 0,
        decreases links@.len() - j,
    {
        let params = data.block_params(links[j].block);
        if params.len() != 0 {
            assert(data@.block(link_views(links@)[j as int].block).params.len() != 0);
            return true;
        }
        j += 1;
    }
    false
}

/// The links found by a scan stand in blocks of two instructions.
pub open spec fn hold_two(p: ProgramV, links: Seq<LinkV>) -> bool {
    forall|j: int| 0 <= j < links.len() ==> p.block((#[trigger] links[j]).block).insts.len() == CHAIN_BLOCK_INSTS
}

proof fn lemma_links_hold_two(p: ProgramV, cur: BasicBlock, x: Option<Inst>, links: Seq<LinkV>, fuel: nat)
    requires
        hold_two(p, links),
    ensures
        hold_two(p, chain_from(p, cur, x, links, fuel).1),
    decreases fuel,
{
    if fuel > 0 {
        match link_at(p, cur, x, links) {
            None => {},
            Some((value, link)) => {
                lemma_links_hold_two(p, link.next, Some(value), links.push(link), (fuel - 1) as nat);
            },
        }
    }
}

pub(crate) proof fn lemma_block_users(p: ProgramV, b: BasicBlock, u: Inst, from: int, found: Seq<Inst>)
    requires
        0 <= from,
        p.insts.len() <= usize::MAX,
        found.contains(u) || (from <= u.0 < p.insts.len() && p.inst(u).targets(b)),
    ensures
        p.block_users_from(b, from, found).contains(u),
    decreases p.insts.len() - from,
{
    if from < p.insts.len() {
        let here = Inst(from as usize);
        if p.insts[from].targets(b) {
            let next = found.push(here);
            if found.contains(u) {
                let k = found.index_of(u);
                assert(next[k] == u);
            } else if u.0 == from {
                assert(next[found.len() as int] == u);
            }
            lemma_block_users(p, b, u, from + 1, next);
        } else {
            lemma_block_users(p, b, u, from + 1, found);
        }
    }
}

proof fn lemma_block_users_target(p: ProgramV, b: BasicBlock, from: int, found: Seq<Inst>)
    requires
        0 <= from,
        p.insts.len() <= usize::MAX,
        forall|k: int| 0 <= k < found.len() ==> p.inst(#[trigger] found[k]).targets(b),
    ensures
        forall|k: int|
            0 <= k < p.block_users_from(b, from, found).len() ==> p.inst(
                #[trigger] p.block_users_from(b, from, found)[k],
            ).targets(b),
    decreases p.insts.len() - from,
{
    let out = p.block_users_from(b, from, found);
    if from < p.insts.len() {
        if p.insts[from].targets(b) {
            let u = Inst(from as usize);
            let more = found.push(u);
            assert(p.inst(u) == p.insts[from]);
            lemma_block_users_target(p, b, from + 1, more);
            assert(out == p.block_users_from(b, from + 1, more));
        } else {
            lemma_block_users_target(p, b, from + 1, found);
            assert(out == p.block_users_from(b, from + 1, found));
        }
    } else {
        assert(out == found);
    }
}

/// Whether the chain is entered elsewhere than at its head.
fn is_entered(data: &Program, f: Function, links: &Vec<Link>) -> (r: bool)
    requires
        hold_two(data@, link_views(links@)),
    ensures
        r == !stands_alone(data@, f, link_views(links@)),
{
    let ghost all = link_views(links@);
    let n: usize = data.num_insts();
    let mut j: usize = 1;
    while j < links.len()
        invariant
            1 <= j,
            all == link_views(links@),
            n == data@.insts.len(),
            hold_two(data@, all),
            forall|m: int, u: Inst| 1 <= m < j && m < all.len() ==> !#[trigger] leads_aside(data@, f, all, m, u),
        decreases links@.len() - j,
    {
        let before = data.block_insts(links[j - 1].block);
        assert(all[j - 1].block == links@[j - 1].block);
        assert(before@.len() == CHAIN_BLOCK_INSTS);
        let users = data.block_users(links[j].block);
        proof {
            lemma_block_users_target(data@, links@[j as int].block, 0, Seq::empty());
        }
        let mut k: usize = 0;
        while k < users.len()
            invariant
                1 <= j < links@.len(),
                all == link_views(links@),
                before@ == data@.block(links@[j - 1].block).insts,
                before@.len() == 2,
                users@ == data@.block_users(links@[j as int].block),
                forall|m: int| 0 <= m < users@.len() ==> data@.inst(#[trigger] users@[m]).targets(links@[j as int].block),
                forall|m: int| 0 <= m < k ==> !leads_aside(data@, f, all, j as int, #[trigger] users@[m]),
            decreases users@.len() - k,
        {
            let placed = data.parent_bb(f, users[k]).is_some();
            if placed && (users[k] != before[1] || links[j - 1].handler == links[j].block) {
                assert(leads_aside(data@, f, all, j as int, users@[k as int]));
                return true;
            }
            k += 1;
        }
        assert forall|m: int, u: Inst| 1 <= m < j + 1 && m < all.len() implies !#[trigger] leads_aside(
            data@,
            f,
            all,
            m,
            u,
        ) by {
            if m == j && data@.inst(u).targets(links@[j as int].block) {
                lemma_block_users(data@, links@[j as int].block, u, 0, Seq::empty());
                let i = users@.index_of(u);
                assert(users@[i] == u);
            }
        }
        j += 1;
    }
    false
}

/// The value and the literal that the equality test `i` compares.
fn equality_parts(data: &Program, i: Inst) -> (r: Option<(Inst, i32)>)
    ensures
        r == equality_operands(data@, i),
{
    match data.op(i) {
        Op::Binary(BinaryOp::Eq) => {
            let lhs = data.arg(i, 0);
            let rhs = data.arg(i, 1);
            match data.op(rhs) {
                Op::Integer(k) => Some((lhs, k)),
                _ => match data.op(lhs) {
                    Op::Integer(k) => Some((rhs, k)),
                    _ => None,
                },
            }
        },
        _ => None,
    }
}

/// The links in ascending order of their literals.
fn sort_links(links: &Vec<Link>) -> (r: Vec<Link>)
    ensures
        link_views(r@) == sorted_links(link_views(links@)),
        r@.len() == links@.len(),
{
    let mut r: Vec<Link> = Vec::new();
    assert(link_views(r@) =~= Seq::empty());
    let mut i: usize = 0;
    while i < links.len()
        invariant
            i <= links@.len(),
            r@.len() == i,
            sorted_links(link_views(links@)) == sorted_into(link_views(links@), i as int, link_views(r@)),
        decreases links@.len() - i,
    {
        let mut j: usize = 0;
        while j < r.len() && r[j].k <= links[i].k
            invariant
                i < links@.len(),
                j <= r@.len(),
                slot(link_views(r@), links@[i as int].k, 0) == slot(link_views(r@), links@[i as int].k, j as int),
            decreases r@.len() - j,
        {
            j += 1;
        }
        let ghost before = link_views(r@);
        r.insert(j, links[i].copied());
        assert(link_views(r@) =~= before.insert(j as int, link_views(links@)[i as int]));
        i += 1;
    }
    r
}

proof fn lemma_slot(links: Seq<LinkV>, k: i32, from: int)
    requires
        0 <= from <= links.len(),
    ensures
        from <= slot(links, k, from) <= links.len(),
        forall|j: int| from <= j < slot(links, k, from) ==> (#[trigger] links[j]).k <= k,
        slot(links, k, from) < links.len() ==> links[slot(links, k, from)].k > k,
    decreases links.len() - from,
{
    if from < links.len() && links[from].k <= k {
        lemma_slot(links, k, from + 1);
    }
}

pub(crate) proof fn lemma_sorted_len(links: Seq<LinkV>, from: int, done: Seq<LinkV>)
    requires
        0 <= from <= links.len(),
    ensures
        sorted_into(links, from, done).len() == done.len() + links.len() - from,
    decreases links.len() - from,
{
    if from < links.len() {
        lemma_slot(done, links[from].k, 0);
        lemma_sorted_len(links, from + 1, done.insert(slot(done, links[from].k, 0), links[from]));
    }
}

/// Ascending literals, none twice.
pub open spec fn ascending(links: Seq<LinkV>) -> bool {
    forall|i: int, j: int| 0 <= i < j < links.len() ==> (#[trigger] links[i]).k < (#[trigger] links[j]).k
}

/// The link that a chain takes for the value `v`: the first one that tests for it.
pub open spec fn chain_takes(links: Seq<LinkV>, v: i32, from: int) -> Option<LinkV>
    decreases links.len() - from,
{
    if from >= links.len() {
        None
    } else if links[from].k == v {
        Some(links[from])
    } else {
        chain_takes(links, v, from + 1)
    }
}

/// The link that the decision tree for `links[lo..hi]` takes for the value `v`:
/// each node tests the middle literal first, then goes left for smaller values and right for others.
pub open spec fn tree_takes(links: Seq<LinkV>, v: i32, lo: int, hi: int) -> Option<LinkV>
    decreases hi - lo,
{
    if hi - lo <= 0 {
        None
    } else if hi - lo == 1 {
        if links[lo].k == v {
            Some(links[lo])
        } else {
            None
        }
    } else {
        let mid = lo + (hi - lo) / 2;
        if links[mid].k == v {
            Some(links[mid])
        } else if v < links[mid].k {
            tree_takes(links, v, lo, mid)
        } else {
            tree_takes(links, v, mid + 1, hi)
        }
    }
}

proof fn lemma_tree_finds(links: Seq<LinkV>, v: i32, lo: int, hi: int)
    requires
        ascending(links),
        0 <= lo <= hi <= links.len(),
    ensures
        match tree_takes(links, v, lo, hi) {
            Some(l) => exists|j: int| lo <= j < hi && #[trigger] links[j] == l && l.k == v,
            None => forall|j: int| lo <= j < hi ==> (#[trigger] links[j]).k != v,
        },
    decreases hi - lo,
{
    if hi - lo > 1 {
        let mid = lo + (hi - lo) / 2;
        lemma_tree_finds(links, v, lo, mid);
        lemma_tree_finds(links, v, mid + 1, hi);
        assert(links[mid] == links[mid]);
    } else if hi - lo == 1 {
        assert(links[lo] == links[lo]);
    }
}

proof fn lemma_chain_finds(links: Seq<LinkV>, v: i32, from: int)
    requires
        0 <= from <= links.len(),
    ensures
        match chain_takes(links, v, from) {
            Some(l) => exists|j: int| from <= j < links.len() && #[trigger] links[j] == l && l.k == v,
            None => forall|j: int| from <= j < links.len() ==> (#[trigger] links[j]).k != v,
        },
    decreases links.len() - from,
{
    if from < links.len() {
        if links[from].k == v {
            assert(links[from] == links[from]);
        } else {
            lemma_chain_finds(links, v, from + 1);
        }
    }
}

pub open spec fn distinct_literals(links: Seq<LinkV>) -> bool {
    forall|i: int, j: int| 0 <= i < links.len() && 0 <= j < links.len() && i != j ==> (#[trigger] links[i]).k != (
    #[trigger] links[j]).k
}

pub(crate) proof fn lemma_sorted(links: Seq<LinkV>, from: int, done: Seq<LinkV>)
    requires
        0 <= from <= links.len(),
        distinct_literals(links),
        ascending(done),
        forall|i: int, j: int| 0 <= i < done.len() && from <= j < links.len() ==> (#[trigger] done[i]).k != (#[trigger] links[j]).k,
    ensures
        ascending(sorted_into(links, from, done)),
        forall|l: LinkV| #[trigger] sorted_into(links, from, done).contains(l) <==> done.contains(l) || (exists|j: int|
            from <= j < links.len() && #[trigger] links[j] == l),
    decreases links.len() - from,
{
    let whole = sorted_into(links, from, done);
    if from < links.len() {
        let x = links[from];
        let s = slot(done, x.k, 0);
        lemma_slot(done, x.k, 0);
        let next = done.insert(s, x);
        assert forall|i: int, j: int| 0 <= i < j < next.len() implies (#[trigger] next[i]).k < (#[trigger] next[j]).k by {
            if i == s {
                assert(next[j] == done[j - 1]);
                if j - 1 > s {
                    assert(done[s].k < done[j - 1].k);
                }
            } else if j == s {
                assert(next[i] == done[i]);
                assert(done[i].k != links[from].k);
            } else {
                let a = if i < s { i } else { i - 1 };
                let b = if j < s { j } else { j - 1 };
                assert(next[i] == done[a] && next[j] == done[b]);
            }
        }
        assert forall|i: int, j: int| 0 <= i < next.len() && from + 1 <= j < links.len() implies (#[trigger] next[i]).k
            != (#[trigger] links[j]).k by {
            if i < s {
                assert(next[i] == done[i]);
            } else if i > s {
                assert(next[i] == done[i - 1]);
            } else {
                assert(links[from].k != links[j].k);
            }
        }
        lemma_sorted(links, from + 1, next);
        assert forall|l: LinkV| #[trigger] whole.contains(l) <==> done.contains(l) || (exists|j: int|
            from <= j < links.len() && #[trigger] links[j] == l) by {
            assert(next.contains(l) <==> done.contains(l) || l == x) by {
                if done.contains(l) {
                    let i = choose|i: int| 0 <= i < done.len() && done[i] == l;
                    if i < s {
                        assert(next[i] == l);
                    } else {
                        assert(next[i + 1] == l);
                    }
                }
                if l == x {
                    assert(next[s] == l);
                }
                if next.contains(l) {
                    let i = choose|i: int| 0 <= i < next.len() && next[i] == l;
                    if i < s {
                        assert(done[i] == l);
                    } else if i > s {
                        assert(done[i - 1] == l);
                    }
                }
            }
            if l == x {
                assert(links[from] == l);
            }
        }
    }
}

/// The links of a detected chain test for distinct literals.
pub(crate) proof fn lemma_chain_distinct(p: ProgramV, cur: BasicBlock, x: Option<Inst>, links: Seq<LinkV>, fuel: nat)
    requires
        distinct_literals(links),
    ensures
        distinct_literals(chain_from(p, cur, x, links, fuel).1),
    decreases fuel,
{
    if fuel > 0 {
        if let Some((value, link)) = link_at(p, cur, x, links) {
            let next = links.push(link);
            assert forall|i: int, j: int| 0 <= i < next.len() && 0 <= j < next.len() && i != j implies (#[trigger] next[i]).k
                != (#[trigger] next[j]).k by {
                if i < links.len() && j < links.len() {
                    assert(links[i].k != links[j].k);
                }
            }
            lemma_chain_distinct(p, link.next, Some(value), next, (fuel - 1) as nat);
        }
    }
}

/// The decision tree decides as the chain does: for every value of the tested variable both take
/// the same link, or both fall through to the default.
pub proof fn tree_decides_as_chain(p: ProgramV, head: BasicBlock, v: i32)
    requires
        chain_at(p, head) is Some,
    ensures
        ({
            let links = (chain_at(p, head)->0).1;
            let order = sorted_links(links);
            tree_takes(order, v, 0, order.len() as int) == chain_takes(links, v, 0)
        }),
{
    let links = (chain_at(p, head)->0).1;
    let order = sorted_links(links);
    lemma_chain_distinct(p, head, None, Seq::empty(), p.blocks.len());
    lemma_sorted(links, 0, Seq::empty());
    lemma_tree_finds(order, v, 0, order.len() as int);
    lemma_chain_finds(links, v, 0);
    match (tree_takes(order, v, 0, order.len() as int), chain_takes(links, v, 0)) {
        (Some(a), Some(b)) => {
            assert(order.contains(a));
            let i = choose|i: int| 0 <= i < links.len() && #[trigger] links[i] == a;
            let j = choose|j: int| 0 <= j < links.len() && #[trigger] links[j] == b && b.k == v;
            assert(links[i].k == links[j].k);
        },
        (Some(a), None) => {
            assert(order.contains(a));
            let i = choose|i: int| 0 <= i < links.len() && #[trigger] links[i] == a;
            assert(links[i].k != v);
        },
        (None, Some(b)) => {
            let j = choose|j: int| 0 <= j < links.len() && #[trigger] links[j] == b && b.k == v;
            assert(order.contains(b));
            let i = choose|i: int| 0 <= i < order.len() && order[i] == b;
            assert(order[i].k != v);
        },
        (None, None) => {},
    }
}

} // verus!
