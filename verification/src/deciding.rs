//! A decision tree leads where the chain of tests led.

use vstd::prelude::*;

use crate::arith::int_op;
use crate::chain_to_switch::{
    chain_at, chain_converted, chain_from, chain_takes, equality_operands, lemma_chain_distinct,
    lemma_sorted, lemma_sorted_len, link_at, links_removed, sorted_links, tree_block, tree_built,
    tree_decides_as_chain, tree_takes, with_branch, with_compare, LinkV,
};
use crate::ir::{position, without, BasicBlock, BinaryOp, Function, Inst, Op, ProgramV, Type};
use crate::names::decimal;
use crate::sweeping::lemma_shell_stays;

verus! {

/// Operand `a` where `x` has the value `v`; `None` where it is neither `x` nor a literal.
pub open spec fn known(p: ProgramV, x: Inst, v: i32, a: Inst) -> Option<i32> {
    if a == x {
        Some(v)
    } else {
        match p.op(a) {
            Op::Integer(k) => Some(k),
            _ => None,
        }
    }
}

/// What test `i` gives where `x` has the value `v`.
pub open spec fn outcome_of(p: ProgramV, x: Inst, v: i32, i: Inst) -> Option<bool> {
    match (p.op(i), known(p, x, v, p.arg(i, 0)), known(p, x, v, p.arg(i, 1))) {
        (Op::Binary(op), Some(a), Some(b)) => if op.compares() {
            Some(int_op(op, a, b) != 0)
        } else {
            None
        },
        _ => None,
    }
}

/// Where block `b`, which holds a test and a branch on it, leads where `x` has the value `v`, and what it
/// passes.
pub open spec fn decision(p: ProgramV, x: Inst, v: i32, b: BasicBlock) -> Option<(BasicBlock, Seq<Inst>)> {
    let insts = p.block(b).insts;
    if insts.len() != 2 || p.arg(insts[1], 0) != insts[0] {
        None
    } else {
        match (p.op(insts[1]), outcome_of(p, x, v, insts[0])) {
            (Op::Branch(t, e, _), Some(c)) => Some(
                if c {
                    (t, p.t_args(insts[1]))
                } else {
                    (e, p.f_args(insts[1]))
                },
            ),
            _ => None,
        }
    }
}

/// Where `n` decisions from block `b` on lead.
pub open spec fn decided(p: ProgramV, x: Inst, v: i32, b: BasicBlock, n: nat) -> Option<(BasicBlock, Seq<Inst>)>
    decreases n,
{
    if n == 0 {
        None
    } else if n == 1 {
        decision(p, x, v, b)
    } else {
        match decision(p, x, v, b) {
            Some((c, _)) => decided(p, x, v, c, (n - 1) as nat),
            None => None,
        }
    }
}

/// The blocks from number `bb` on and the instructions from number `bi` on are in `q` as in `p`.
pub open spec fn stays_from(p: ProgramV, q: ProgramV, bi: int, bb: int) -> bool {
    &&& p.insts.len() <= q.insts.len()
    &&& p.blocks.len() <= q.blocks.len()
    &&& forall|i: int| bi <= i < p.insts.len() ==> #[trigger] q.insts[i] == p.insts[i]
    &&& forall|b: int| bb <= b < p.blocks.len() ==> #[trigger] q.blocks[b] == p.blocks[b]
}

/// Block `b` and what it consists of, besides `x`, have numbers from `bb` and `bi` on.
pub open spec fn is_new(p: ProgramV, x: Inst, b: BasicBlock, bi: int, bb: int) -> bool {
    let insts = p.block(b).insts;
    &&& b.0 >= bb
    &&& insts.len() == 2
    &&& insts[0].0 >= bi
    &&& insts[1].0 >= bi
    &&& p.arg(insts[0], 0) == x
    &&& p.arg(insts[0], 1) != x
    &&& p.arg(insts[0], 1).0 >= bi
}

/// As `decided`, through new blocks only.
pub open spec fn newly_decided(
    p: ProgramV,
    x: Inst,
    v: i32,
    b: BasicBlock,
    n: nat,
    bi: int,
    bb: int,
) -> Option<(BasicBlock, Seq<Inst>)>
    decreases n,
{
    if n == 0 || !is_new(p, x, b, bi, bb) {
        None
    } else if n == 1 {
        decision(p, x, v, b)
    } else {
        match decision(p, x, v, b) {
            Some((c, _)) => newly_decided(p, x, v, c, (n - 1) as nat, bi, bb),
            None => None,
        }
    }
}

proof fn lemma_newly_decided(p: ProgramV, x: Inst, v: i32, b: BasicBlock, n: nat, bi: int, bb: int)
    requires
        newly_decided(p, x, v, b, n, bi, bb) is Some,
    ensures
        decided(p, x, v, b, n) == newly_decided(p, x, v, b, n, bi, bb),
    decreases n,
{
    if n > 1 {
        let (c, _) = decision(p, x, v, b)->0;
        lemma_newly_decided(p, x, v, c, (n - 1) as nat, bi, bb);
    }
}

proof fn lemma_decision_stays(p: ProgramV, q: ProgramV, x: Inst, v: i32, b: BasicBlock, bi: int, bb: int)
    requires
        stays_from(p, q, bi, bb),
        is_new(p, x, b, bi, bb),
        decision(p, x, v, b) is Some,
    ensures
        is_new(q, x, b, bi, bb),
        decision(q, x, v, b) == decision(p, x, v, b),
{
    let insts = p.block(b).insts;
    assert(b.0 < p.blocks.len());
    assert(q.blocks[b.0 as int] == p.blocks[b.0 as int]);
    assert(insts[0].0 < p.insts.len() && insts[1].0 < p.insts.len());
    assert(q.insts[insts[0].0 as int] == p.insts[insts[0].0 as int]);
    assert(q.insts[insts[1].0 as int] == p.insts[insts[1].0 as int]);
    let k = p.arg(insts[0], 1);
    assert(p.op(k) is Integer);
    assert(q.insts[k.0 as int] == p.insts[k.0 as int]);
}

/// Decisions through new blocks stay as the program changes elsewhere.
proof fn lemma_decided_stays(p: ProgramV, q: ProgramV, x: Inst, v: i32, b: BasicBlock, n: nat, bi: int, bb: int)
    requires
        stays_from(p, q, bi, bb),
        newly_decided(p, x, v, b, n, bi, bb) is Some,
    ensures
        newly_decided(q, x, v, b, n, bi, bb) == newly_decided(p, x, v, b, n, bi, bb),
    decreases n,
{
    lemma_decision_stays(p, q, x, v, b, bi, bb);
    if n > 1 {
        let (c, _) = decision(p, x, v, b)->0;
        lemma_decided_stays(p, q, x, v, c, (n - 1) as nat, bi, bb);
    }
}

/// Where a tree for `links[lo..hi]` leads.
pub open spec fn tree_outcome(
    links: Seq<LinkV>,
    v: i32,
    lo: int,
    hi: int,
    default: BasicBlock,
    default_args: Seq<Inst>,
) -> (BasicBlock, Seq<Inst>) {
    match tree_takes(links, v, lo, hi) {
        Some(l) => (l.handler, l.handler_args),
        None => (default, default_args),
    }
}

/// How many levels a balanced tree over `n` cases has.
pub open spec fn levels(n: nat) -> nat
    decreases n,
{
    if n <= 1 {
        1
    } else {
        1 + levels(n / 2)
    }
}

proof fn lemma_levels_grow(m: nat, n: nat)
    requires
        m <= n,
    ensures
        levels(m) <= levels(n),
    decreases n,
{
    if m > 1 {
        lemma_levels_grow(m / 2, n / 2);
    }
}

/// A tree over `n` cases has at most one level more than the logarithm of `n`.
pub proof fn levels_are_logarithmic(n: nat)
    requires
        n >= 1,
    ensures
        vstd::arithmetic::power2::pow2((levels(n) - 1) as nat) <= n < vstd::arithmetic::power2::pow2(levels(n)),
    decreases n,
{
    vstd::arithmetic::power2::lemma_pow2_unfold(levels(n));
    if n == 1 {
        vstd::arithmetic::power2::lemma2_to64();
    } else {
        levels_are_logarithmic(n / 2);
        vstd::arithmetic::power2::lemma_pow2_unfold((levels(n) - 1) as nat);
    }
}

/// Handles can name `q`'s blocks and instructions.
pub open spec fn fits_handles(q: ProgramV) -> bool {
    q.insts.len() <= usize::MAX && q.blocks.len() <= usize::MAX
}

/// A test and a branch appended to block `b`, with a literal made before.
proof fn lemma_compare(p: ProgramV, b: BasicBlock, op: BinaryOp, x: Inst, k: Inst)
    requires
        b.0 < p.blocks.len(),
        p.insts.len() < usize::MAX,
    ensures
        ({
            let q = with_compare(p, b, op, x, k);
            &&& q.insts == p.insts.push(q.inst(p.next_inst()))
            &&& q.op(p.next_inst()) == Op::Binary(op)
            &&& q.args(p.next_inst()) == seq![x, k]
            &&& q.blocks.len() == p.blocks.len()
            &&& q.block(b).insts == p.block(b).insts.push(p.next_inst())
            &&& forall|c: int| 0 <= c < p.blocks.len() && c != b.0 ==> #[trigger] q.blocks[c] == p.blocks[c]
        }),
{
    reveal(ProgramV::push_inst);
    reveal(ProgramV::set_block_insts);
}

proof fn lemma_branch(
    p: ProgramV,
    b: BasicBlock,
    c: Inst,
    t: BasicBlock,
    t_args: Seq<Inst>,
    e: BasicBlock,
    e_args: Seq<Inst>,
)
    requires
        b.0 < p.blocks.len(),
        p.insts.len() < usize::MAX,
        t_args.len() <= usize::MAX,
    ensures
        ({
            let q = with_branch(p, b, c, t, t_args, e, e_args);
            let br = p.next_inst();
            &&& q.insts == p.insts.push(q.inst(br))
            &&& q.op(br) == Op::Branch(t, e, t_args.len() as usize)
            &&& q.arg(br, 0) == c
            &&& q.t_args(br) == t_args
            &&& q.f_args(br) == e_args
            &&& q.blocks.len() == p.blocks.len()
            &&& q.block(b).insts == p.block(b).insts.push(br)
            &&& forall|d: int| 0 <= d < p.blocks.len() && d != b.0 ==> #[trigger] q.blocks[d] == p.blocks[d]
        }),
{
    reveal(ProgramV::push_inst);
    reveal(ProgramV::set_block_insts);
    let q = with_branch(p, b, c, t, t_args, e, e_args);
    let br = p.next_inst();
    assert(q.args(br) == seq![c] + t_args + e_args);
    assert(q.t_args(br) =~= t_args);
    assert(q.f_args(br) =~= e_args);
}

proof fn lemma_fresh_block(p: ProgramV, f: Function, name: Seq<char>, into: BasicBlock)
    requires
        p.blocks.len() < usize::MAX,
    ensures
        ({
            let (q, b) = tree_block(p, f, name, false, into);
            &&& b == p.next_block()
            &&& q.insts == p.insts
            &&& q.blocks.len() == p.blocks.len() + 1
            &&& q.block(b).insts == Seq::<Inst>::empty()
            &&& forall|d: int| 0 <= d < p.blocks.len() ==> #[trigger] q.blocks[d] == p.blocks[d]
        }),
{
    reveal(ProgramV::push_block);
    reveal(ProgramV::set_func_blocks);
}

pub(crate) proof fn lemma_tree_grows(
    p: ProgramV,
    f: Function,
    x: Inst,
    links: Seq<LinkV>,
    default: BasicBlock,
    default_args: Seq<Inst>,
    lo: int,
    hi: int,
    into: BasicBlock,
)
    ensures
        ({
            let q = tree_built(p, f, x, links, default, default_args, lo, hi, into).0;
            q.insts.len() >= p.insts.len() && q.blocks.len() >= p.blocks.len()
        }),
    decreases hi - lo,
{
    reveal(ProgramV::push_inst);
    reveal(ProgramV::set_block_insts);
    reveal(ProgramV::push_block);
    reveal(ProgramV::set_func_blocks);
    if hi - lo > 1 {
        let mid = lo + (hi - lo) / 2;
        let p1 = tree_built(p, f, x, links, default, default_args, lo, mid, into).0;
        lemma_tree_grows(p, f, x, links, default, default_args, lo, mid, into);
        if mid + 1 < hi {
            lemma_tree_grows(p1, f, x, links, default, default_args, mid + 1, hi, into);
        }
    }
}

/// A leaf of the tree.
proof fn lemma_leaf(
    p: ProgramV,
    f: Function,
    x: Inst,
    links: Seq<LinkV>,
    default: BasicBlock,
    default_args: Seq<Inst>,
    lo: int,
    hi: int,
    into: BasicBlock,
    v: i32,
)
    requires
        0 <= lo < hi <= links.len(),
        hi - lo == 1,
        !(lo == 0 && hi == links.len()),
        x.0 < p.insts.len(),
        links[lo].handler_args.len() <= usize::MAX,
        fits_handles(tree_built(p, f, x, links, default, default_args, lo, hi, into).0),
    ensures
        ({
            let (q, check) = tree_built(p, f, x, links, default, default_args, lo, hi, into);
            &&& stays_from(p, q, 0, 0)
            &&& newly_decided(q, x, v, check, 1, p.insts.len() as int, p.blocks.len() as int) == Some(
                tree_outcome(links, v, lo, hi, default, default_args),
            )
        }),
{
    let (q, check) = tree_built(p, f, x, links, default, default_args, lo, hi, into);
    let link = links[lo];
    let name = "chain_case_"@ + decimal(link.k as int);
    let p1 = tree_block(p, f, name, false, into).0;
    assert(p1.insts.len() == p.insts.len() && p1.blocks.len() == p.blocks.len() + 1 && q.insts.len() == p.insts.len() + 3
        && q.blocks.len() == p1.blocks.len()) by {
        reveal(ProgramV::push_inst);
        reveal(ProgramV::set_block_insts);
        reveal(ProgramV::push_block);
        reveal(ProgramV::set_func_blocks);
    }
    lemma_fresh_block(p, f, name, into);
    let p2 = p1.push_inst(Op::Integer(link.k), Seq::empty(), Type::I32, false);
    let k = p1.next_inst();
    assert(p2.insts.len() == p1.insts.len() + 1 && p2.blocks == p1.blocks && p2.op(k) == Op::Integer(link.k) && (forall|i: int|
        0 <= i < p1.insts.len() ==> #[trigger] p2.insts[i] == p1.insts[i])) by {
        reveal(ProgramV::push_inst);
    }
    let p3 = with_compare(p2, check, BinaryOp::Eq, x, k);
    lemma_compare(p2, check, BinaryOp::Eq, x, k);
    let c = p2.next_inst();
    lemma_branch(p3, check, c, link.handler, link.handler_args, default, default_args);
    let br = p3.next_inst();
    assert(q.block(check).insts =~= seq![c, br]);
    assert(q.insts[c.0 as int] == p3.insts[c.0 as int]);
    assert(q.insts[k.0 as int] == p3.insts[k.0 as int]);
    assert(p3.insts[k.0 as int] == p2.insts[k.0 as int]);
    assert(q.op(k) == Op::Integer(link.k));
    assert(q.arg(c, 0) == x && q.arg(c, 1) == k);
    assert(outcome_of(q, x, v, c) == Some(v == link.k));
    assert(stays_from(p, q, 0, 0)) by {
        assert forall|i: int| 0 <= i < p.insts.len() implies #[trigger] q.insts[i] == p.insts[i] by {
            assert(q.insts[i] == p3.insts[i]);
            assert(p3.insts[i] == p2.insts[i]);
            assert(p2.insts[i] == p1.insts[i]);
        }
        assert forall|d: int| 0 <= d < p.blocks.len() implies #[trigger] q.blocks[d] == p.blocks[d] by {
            assert(q.blocks[d] == p3.blocks[d]);
            assert(p3.blocks[d] == p2.blocks[d]);
            assert(p1.blocks[d] == p.blocks[d]);
        }
    }
}

/// An inner node of the tree: program `p` holds what stands below it.
pub open spec fn node_built(
    p: ProgramV,
    f: Function,
    x: Inst,
    link: LinkV,
    whole: bool,
    into: BasicBlock,
    left: BasicBlock,
    right: BasicBlock,
    right_args: Seq<Inst>,
) -> (ProgramV, BasicBlock) {
    let (p3, check) = tree_block(p, f, "chain_check_"@ + decimal(link.k as int), whole, into);
    let p4 = p3.push_inst(Op::Integer(link.k), Seq::empty(), Type::I32, false);
    let p5 = with_compare(p4, check, BinaryOp::Eq, x, p3.next_inst());
    let (p6, split) = tree_block(p5, f, "chain_split_"@ + decimal(link.k as int), false, into);
    let p7 = with_compare(p6, split, BinaryOp::Lt, x, p3.next_inst());
    let p8 = with_branch(p7, split, p6.next_inst(), left, Seq::empty(), right, right_args);
    (with_branch(p8, check, p4.next_inst(), link.handler, link.handler_args, split, Seq::empty()), check)
}

/// The block of a node that tells smaller from larger values.
pub open spec fn split_of(p: ProgramV, whole: bool) -> BasicBlock {
    BasicBlock(
        (p.blocks.len() + if whole {
            0nat
        } else {
            1nat
        }) as usize,
    )
}

proof fn lemma_node_sizes(
    p: ProgramV,
    f: Function,
    x: Inst,
    link: LinkV,
    whole: bool,
    into: BasicBlock,
    left: BasicBlock,
    right: BasicBlock,
    right_args: Seq<Inst>,
)
    ensures
        ({
            let q = node_built(p, f, x, link, whole, into, left, right, right_args).0;
            &&& q.insts.len() == p.insts.len() + 5
            &&& q.blocks.len() == p.blocks.len() + (if whole {
                1int
            } else {
                2int
            })
        }),
{
    reveal(ProgramV::push_inst);
    reveal(ProgramV::set_block_insts);
    reveal(ProgramV::push_block);
    reveal(ProgramV::set_func_blocks);
}

#[verifier::rlimit(40)]
proof fn lemma_node(
    p: ProgramV,
    f: Function,
    x: Inst,
    link: LinkV,
    whole: bool,
    into: BasicBlock,
    left: BasicBlock,
    right: BasicBlock,
    right_args: Seq<Inst>,
)
    requires
        x.0 < p.insts.len(),
        link.handler_args.len() <= usize::MAX,
        whole ==> into.0 < p.blocks.len(),
        fits_handles(node_built(p, f, x, link, whole, into, left, right, right_args).0),
    ensures
        ({
            let (q, check) = node_built(p, f, x, link, whole, into, left, right, right_args);
            let base = p.insts.len();
            let split = split_of(p, whole);
            let lit = Inst(base as usize);
            let eq = Inst((base + 1) as usize);
            let lt = Inst((base + 2) as usize);
            let down = Inst((base + 3) as usize);
            let br = Inst((base + 4) as usize);
            &&& check == (if whole {
                into
            } else {
                p.next_block()
            })
            &&& q.block(check).insts == (if whole {
                p.block(into).insts
            } else {
                Seq::empty()
            }) + seq![eq, br]
            &&& q.block(split).insts == seq![lt, down]
            &&& q.op(lit) == Op::Integer(link.k)
            &&& q.op(eq) == Op::Binary(BinaryOp::Eq)
            &&& q.args(eq) == seq![x, lit]
            &&& q.op(lt) == Op::Binary(BinaryOp::Lt)
            &&& q.args(lt) == seq![x, lit]
            &&& q.op(down) == Op::Branch(left, right, 0)
            &&& q.arg(down, 0) == lt
            &&& q.t_args(down) == Seq::<Inst>::empty()
            &&& q.f_args(down) == right_args
            &&& q.op(br) == Op::Branch(link.handler, split, link.handler_args.len() as usize)
            &&& q.arg(br, 0) == eq
            &&& q.t_args(br) == link.handler_args
            &&& q.f_args(br) == Seq::<Inst>::empty()
            &&& forall|i: int| 0 <= i < p.insts.len() ==> #[trigger] q.insts[i] == p.insts[i]
            &&& forall|d: int|
                0 <= d < p.blocks.len() && !(whole && d == into.0) ==> #[trigger] q.blocks[d] == p.blocks[d]
        }),
{
    lemma_node_sizes(p, f, x, link, whole, into, left, right, right_args);
    let (q, check) = node_built(p, f, x, link, whole, into, left, right, right_args);
    let base = p.insts.len();
    let name = "chain_check_"@ + decimal(link.k as int);
    let p3 = tree_block(p, f, name, whole, into).0;
    if !whole {
        lemma_fresh_block(p, f, name, into);
    }
    let lit = p3.next_inst();
    let p4 = p3.push_inst(Op::Integer(link.k), Seq::empty(), Type::I32, false);
    assert(p4.insts == p3.insts.push(p4.inst(lit)) && p4.blocks == p3.blocks && p4.op(lit) == Op::Integer(link.k)) by {
        reveal(ProgramV::push_inst);
    }
    let p5 = with_compare(p4, check, BinaryOp::Eq, x, lit);
    lemma_compare(p4, check, BinaryOp::Eq, x, lit);
    let eq = p4.next_inst();
    let low = "chain_split_"@ + decimal(link.k as int);
    let (p6, split) = tree_block(p5, f, low, false, into);
    lemma_fresh_block(p5, f, low, into);
    let p7 = with_compare(p6, split, BinaryOp::Lt, x, lit);
    lemma_compare(p6, split, BinaryOp::Lt, x, lit);
    let lt = p6.next_inst();
    let p8 = with_branch(p7, split, lt, left, Seq::empty(), right, right_args);
    lemma_branch(p7, split, lt, left, Seq::empty(), right, right_args);
    let down = p7.next_inst();
    lemma_branch(p8, check, eq, link.handler, link.handler_args, split, Seq::empty());
    let br = p8.next_inst();
    assert(check != split);
    assert(q.insts == p3.insts.push(p4.inst(lit)).push(p5.inst(eq)).push(p7.inst(lt)).push(p8.inst(down)).push(
        q.inst(br),
    ));
    assert(q.inst(lit) == p4.inst(lit));
    assert(q.inst(eq) == p5.inst(eq));
    assert(q.inst(lt) == p7.inst(lt));
    assert(q.inst(down) == p8.inst(down));
    assert(q.block(split) == p8.block(split));
    assert(p8.block(split).insts =~= seq![lt, down]);
    assert(p8.block(check) == p7.block(check));
    assert(p7.block(check) == p6.block(check));
    assert(p6.block(check) == p5.block(check));
    assert(q.block(check).insts =~= (if whole {
        p.block(into).insts
    } else {
        Seq::empty()
    }) + seq![eq, br]);
    assert forall|d: int| 0 <= d < p.blocks.len() && !(whole && d == into.0) implies #[trigger] q.blocks[d] == p.blocks[d] by {
        assert(d != check.0 && d != split.0);
        assert(q.blocks[d] == p8.blocks[d]);
        assert(p8.blocks[d] == p7.blocks[d]);
        assert(p7.blocks[d] == p6.blocks[d]);
        assert(p6.blocks[d] == p5.blocks[d]);
        assert(p5.blocks[d] == p4.blocks[d]);
        assert(p3.blocks[d] == p.blocks[d]);
    }
}

/// The trees below the inner node for `links[lo..hi]`: the program with both, where the left one starts, and
/// where the right one starts with what is passed to it.
pub open spec fn below_built(
    p: ProgramV,
    f: Function,
    x: Inst,
    links: Seq<LinkV>,
    default: BasicBlock,
    default_args: Seq<Inst>,
    lo: int,
    hi: int,
    into: BasicBlock,
) -> (ProgramV, BasicBlock, BasicBlock, Seq<Inst>) {
    let mid = lo + (hi - lo) / 2;
    let (p1, left) = tree_built(p, f, x, links, default, default_args, lo, mid, into);
    if mid + 1 < hi {
        let (p2, right) = tree_built(p1, f, x, links, default, default_args, mid + 1, hi, into);
        (p2, left, right, Seq::empty())
    } else {
        (p1, left, default, default_args)
    }
}

/// What the trees below an inner node decide, they decide in every program that keeps them.
proof fn lemma_below(
    p: ProgramV,
    f: Function,
    x: Inst,
    links: Seq<LinkV>,
    default: BasicBlock,
    default_args: Seq<Inst>,
    lo: int,
    hi: int,
    into: BasicBlock,
    v: i32,
    bi: int,
    bb: int,
) -> (n: (nat, nat))
    requires
        0 <= lo,
        hi <= links.len(),
        hi - lo > 1,
        x.0 < p.insts.len(),
        0 <= bi <= p.insts.len(),
        0 <= bb <= p.blocks.len(),
        forall|k: int| 0 <= k < links.len() ==> (#[trigger] links[k]).handler_args.len() <= usize::MAX,
        fits_handles(below_built(p, f, x, links, default, default_args, lo, hi, into).0),
    ensures
        ({
            let mid = lo + (hi - lo) / 2;
            let (q, left, right, right_args) = below_built(p, f, x, links, default, default_args, lo, hi, into);
            &&& stays_from(p, q, 0, 0)
            &&& 1 <= n.0 <= 2 * levels(((hi - lo) / 2) as nat)
            &&& newly_decided(q, x, v, left, n.0, bi, bb) == Some(
                tree_outcome(links, v, lo, mid, default, default_args),
            )
            &&& mid + 1 < hi ==> 1 <= n.1 <= 2 * levels(((hi - lo) / 2) as nat) && newly_decided(
                q,
                x,
                v,
                right,
                n.1,
                bi,
                bb,
            ) == Some(tree_outcome(links, v, mid + 1, hi, default, default_args))
        }),
    decreases hi - lo, 0int,
{
    let mid = lo + (hi - lo) / 2;
    let (p1, left) = tree_built(p, f, x, links, default, default_args, lo, mid, into);
    if mid + 1 < hi {
        let (p2, right) = tree_built(p1, f, x, links, default, default_args, mid + 1, hi, into);
        lemma_tree_grows(p1, f, x, links, default, default_args, mid + 1, hi, into);
        let a = lemma_tree(p, f, x, links, default, default_args, lo, mid, into, v, bi, bb);
        let b = lemma_tree(p1, f, x, links, default, default_args, mid + 1, hi, into, v, bi, bb);
        lemma_decided_stays(p1, p2, x, v, left, a, bi, bb);
        lemma_levels_grow((hi - mid - 1) as nat, ((hi - lo) / 2) as nat);
        assert(stays_from(p, p2, 0, 0)) by {
            assert forall|i: int| 0 <= i < p.insts.len() implies #[trigger] p2.insts[i] == p.insts[i] by {
                assert(p2.insts[i] == p1.insts[i]);
            }
            assert forall|d: int| 0 <= d < p.blocks.len() implies #[trigger] p2.blocks[d] == p.blocks[d] by {
                assert(p2.blocks[d] == p1.blocks[d]);
            }
        }
        (a, b)
    } else {
        let a = lemma_tree(p, f, x, links, default, default_args, lo, mid, into, v, bi, bb);
        (a, 0)
    }
}

/// A tree for part of the links leads where they lead, in no more than two decisions for each level.
proof fn lemma_tree(
    p: ProgramV,
    f: Function,
    x: Inst,
    links: Seq<LinkV>,
    default: BasicBlock,
    default_args: Seq<Inst>,
    lo: int,
    hi: int,
    into: BasicBlock,
    v: i32,
    bi: int,
    bb: int,
) -> (n: nat)
    requires
        0 <= lo < hi <= links.len(),
        !(lo == 0 && hi == links.len()),
        x.0 < p.insts.len(),
        0 <= bi <= p.insts.len(),
        0 <= bb <= p.blocks.len(),
        forall|k: int| 0 <= k < links.len() ==> (#[trigger] links[k]).handler_args.len() <= usize::MAX,
        fits_handles(tree_built(p, f, x, links, default, default_args, lo, hi, into).0),
    ensures
        ({
            let (q, check) = tree_built(p, f, x, links, default, default_args, lo, hi, into);
            &&& stays_from(p, q, 0, 0)
            &&& 1 <= n <= 2 * levels((hi - lo) as nat)
            &&& newly_decided(q, x, v, check, n, bi, bb) == Some(tree_outcome(links, v, lo, hi, default, default_args))
        }),
    decreases hi - lo, 1int,
{
    let (q, check) = tree_built(p, f, x, links, default, default_args, lo, hi, into);
    if hi - lo == 1 {
        lemma_leaf(p, f, x, links, default, default_args, lo, hi, into, v);
        1
    } else {
        let mid = lo + (hi - lo) / 2;
        let link = links[mid];
        let (p2, left, right, right_args) = below_built(p, f, x, links, default, default_args, lo, hi, into);
        assert((q, check) == node_built(p2, f, x, link, false, into, left, right, right_args));
        lemma_node_sizes(p2, f, x, link, false, into, left, right, right_args);
        let (a, b) = lemma_below(p, f, x, links, default, default_args, lo, hi, into, v, bi, bb);
        lemma_node(p2, f, x, link, false, into, left, right, right_args);
        assert(stays_from(p2, q, 0, 0));
        assert(stays_from(p, q, 0, 0)) by {
            assert forall|i: int| 0 <= i < p.insts.len() implies #[trigger] q.insts[i] == p.insts[i] by {
                assert(q.insts[i] == p2.insts[i]);
            }
            assert forall|d: int| 0 <= d < p.blocks.len() implies #[trigger] q.blocks[d] == p.blocks[d] by {
                assert(q.blocks[d] == p2.blocks[d]);
            }
        }
        lemma_decided_stays(p2, q, x, v, left, a, bi, bb);
        if mid + 1 < hi {
            lemma_decided_stays(p2, q, x, v, right, b, bi, bb);
        }
        let split = split_of(p2, false);
        let base = p2.insts.len();
        let lit = Inst(base as usize);
        let eq = Inst((base + 1) as usize);
        let lt = Inst((base + 2) as usize);
        assert(q.block(check).insts =~= seq![eq, Inst((base + 4) as usize)]);
        assert(is_new(q, x, check, bi, bb));
        assert(is_new(q, x, split, bi, bb));
        assert(outcome_of(q, x, v, eq) == Some(v == link.k));
        assert(outcome_of(q, x, v, lt) == Some(v < link.k));
        if v == link.k {
            1
        } else if v < link.k {
            assert(newly_decided(q, x, v, split, a + 1, bi, bb) == newly_decided(q, x, v, left, a, bi, bb));
            assert(newly_decided(q, x, v, check, a + 2, bi, bb) == newly_decided(q, x, v, split, a + 1, bi, bb));
            a + 2
        } else if mid + 1 < hi {
            assert(newly_decided(q, x, v, split, b + 1, bi, bb) == newly_decided(q, x, v, right, b, bi, bb));
            assert(newly_decided(q, x, v, check, b + 2, bi, bb) == newly_decided(q, x, v, split, b + 1, bi, bb));
            b + 2
        } else {
            assert(newly_decided(q, x, v, split, 1, bi, bb) == Some((default, default_args)));
            assert(newly_decided(q, x, v, check, 2, bi, bb) == newly_decided(q, x, v, split, 1, bi, bb));
            2
        }
    }
}

/// Link `l` is what its block holds: a test of `x` for a literal and a branch on it.
pub open spec fn reads_as(p: ProgramV, x: Inst, l: LinkV) -> bool {
    let insts = p.block(l.block).insts;
    &&& insts.len() == 2
    &&& equality_operands(p, insts[0]) == Some((x, l.k))
    &&& p.op(insts[1]) is Branch
    &&& p.op(insts[1])->Branch_0 == l.handler
    &&& p.op(insts[1])->Branch_1 == l.next
    &&& p.arg(insts[1], 0) == insts[0]
    &&& l.handler_args == p.t_args(insts[1])
    &&& l.next_args == p.f_args(insts[1])
}

/// Each link but the last goes on to the next one.
pub open spec fn linked(p: ProgramV, x: Inst, links: Seq<LinkV>) -> bool {
    &&& forall|j: int| 0 <= j < links.len() ==> reads_as(p, x, #[trigger] links[j])
    &&& forall|j: int| 0 < j < links.len() ==> links[j - 1].next == (#[trigger] links[j]).block
}

pub(crate) proof fn lemma_chain_linked(p: ProgramV, cur: BasicBlock, x: Option<Inst>, links: Seq<LinkV>, fuel: nat)
    requires
        x is Some ==> linked(p, x->0, links),
        x is None ==> links.len() == 0,
        links.len() > 0 ==> links.last().next == cur,
    ensures
        ({
            let (y, all) = chain_from(p, cur, x, links, fuel);
            &&& y is Some ==> linked(p, y->0, all)
            &&& y is None ==> all.len() == 0
            &&& all.len() >= links.len()
            &&& links.len() > 0 ==> all[0] == links[0]
            &&& links.len() == 0 && all.len() > 0 ==> all[0].block == cur
        }),
    decreases fuel,
{
    if fuel > 0 {
        if let Some((value, link)) = link_at(p, cur, x, links) {
            let next = links.push(link);
            assert forall|j: int| 0 <= j < next.len() implies reads_as(p, value, #[trigger] next[j]) by {
                if j < links.len() {
                    assert(next[j] == links[j]);
                }
            }
            assert forall|j: int| 0 < j < next.len() implies next[j - 1].next == (#[trigger] next[j]).block by {
                if j < links.len() {
                    assert(next[j] == links[j] && next[j - 1] == links[j - 1]);
                }
            }
            lemma_chain_linked(p, link.next, Some(value), next, (fuel - 1) as nat);
        }
    }
}

/// Value `v` is one that `x` can have.
pub open spec fn possible(p: ProgramV, x: Inst, v: i32) -> bool {
    p.op(x) is Integer ==> p.op(x)->Integer_0 == v
}

/// Where the links from `from` on lead, the last of them being the way out.
pub open spec fn chain_outcome(links: Seq<LinkV>, v: i32, from: int) -> (BasicBlock, Seq<Inst>) {
    match chain_takes(links, v, from) {
        Some(l) => (l.handler, l.handler_args),
        None => (links.last().next, links.last().next_args),
    }
}

proof fn lemma_chain_decides(p: ProgramV, x: Inst, links: Seq<LinkV>, v: i32, from: int) -> (n: nat)
    requires
        linked(p, x, links),
        possible(p, x, v),
        0 <= from < links.len(),
    ensures
        1 <= n <= links.len() - from,
        decided(p, x, v, links[from].block, n) == Some(chain_outcome(links, v, from)),
    decreases links.len() - from,
{
    let l = links[from];
    let test = p.block(l.block).insts[0];
    assert(reads_as(p, x, l));
    assert(outcome_of(p, x, v, test) == Some(v == l.k));
    assert(decision(p, x, v, l.block) == Some(
        if v == l.k {
            (l.handler, l.handler_args)
        } else {
            (l.next, l.next_args)
        },
    ));
    if v == l.k {
        1
    } else if from + 1 == links.len() {
        assert(chain_takes(links, v, from + 1) is None);
        1
    } else {
        let n = lemma_chain_decides(p, x, links, v, from + 1);
        assert(links[from + 1].block == l.next);
        n + 1
    }
}

/// The old contents of `head` taken out from under the new.
proof fn lemma_head_cleared(p: ProgramV, q: ProgramV, head: BasicBlock, eq: Inst, br: Inst)
    requires
        head.0 < q.blocks.len(),
        p.block(head).insts.len() == 2,
        p.block(head).insts[0] != p.block(head).insts[1],
        p.block(head).insts[0].0 < p.insts.len(),
        p.block(head).insts[1].0 < p.insts.len(),
        q.block(head).insts == p.block(head).insts + seq![eq, br],
        p.insts.len() <= q.insts.len(),
    ensures
        ({
            let r = q.remove_all(head, p.block(head).insts, 0);
            &&& r.block(head).insts == seq![eq, br]
            &&& r.insts.len() == q.insts.len()
            &&& r.blocks.len() == q.blocks.len()
            &&& forall|i: int| p.insts.len() <= i < q.insts.len() ==> #[trigger] r.insts[i] == q.insts[i]
            &&& forall|d: int| 0 <= d < q.blocks.len() && d != head.0 ==> #[trigger] r.blocks[d] == q.blocks[d]
        }),
{
    reveal(ProgramV::set_block_insts);
    reveal(ProgramV::set_inst);
    let old_insts = p.block(head).insts;
    let a = old_insts[0];
    let b = old_insts[1];
    let q1 = q.remove(head, a);
    let q2 = q1.remove(head, b);
    let s = q.block(head).insts;
    assert(position(s, a, 0) == 0);
    assert(without(s, a) =~= seq![b, eq, br]);
    assert(q1.block(head).insts =~= seq![b, eq, br]);
    let s1 = q1.block(head).insts;
    assert(position(s1, b, 0) == 0);
    assert(without(s1, b) =~= seq![eq, br]);
    assert(q.remove_all(head, old_insts, 0) == q1.remove_all(head, old_insts, 1));
    assert(q1.remove_all(head, old_insts, 1) == q2.remove_all(head, old_insts, 2));
    assert(q2.remove_all(head, old_insts, 2) == q2);
}

proof fn lemma_erase_old(q: ProgramV, dead: Seq<Inst>, from: int, bi: int)
    requires
        0 <= from <= dead.len(),
        forall|k: int| 0 <= k < dead.len() ==> (#[trigger] dead[k]).0 < bi,
    ensures
        ({
            let r = q.erase_all(dead, from);
            &&& r.blocks == q.blocks
            &&& r.insts.len() == q.insts.len()
            &&& forall|i: int| bi <= i < q.insts.len() ==> #[trigger] r.insts[i] == q.insts[i]
        }),
    decreases dead.len() - from,
{
    if from < dead.len() {
        reveal(ProgramV::set_inst);
        lemma_erase_old(q.erase(dead[from]), dead, from + 1, bi);
    }
}

/// The instructions of block `b` have numbers below `bi`.
pub open spec fn is_old(q: ProgramV, b: BasicBlock, bi: int) -> bool {
    forall|k: int| 0 <= k < q.block(b).insts.len() ==> (#[trigger] q.block(b).insts[k]).0 < bi
}

/// The blocks of the chain go; what is new stays.
proof fn lemma_links_removed(q: ProgramV, f: Function, links: Seq<LinkV>, head: BasicBlock, from: int, bi: int)
    requires
        0 <= from <= links.len(),
        forall|j: int| 0 <= j < links.len() && links[j].block != head ==> is_old(q, (#[trigger] links[j]).block, bi),
    ensures
        ({
            let r = links_removed(q, f, links, head, from);
            &&& r.blocks == q.blocks
            &&& r.insts.len() == q.insts.len()
            &&& forall|i: int| bi <= i < q.insts.len() ==> #[trigger] r.insts[i] == q.insts[i]
        }),
    decreases links.len() - from,
{
    if from < links.len() {
        if links[from].block != head {
            let b = links[from].block;
            let mid = q.detach_block(f, b);
            assert(mid.blocks == q.blocks && mid.insts == q.insts) by {
                reveal(ProgramV::set_func_blocks);
            }
            let dead = q.block(b).insts;
            lemma_erase_old(mid, dead, 0, bi);
            let next = q.remove_block(f, b);
            assert(next == mid.erase_all(dead, 0));
            assert forall|j: int| 0 <= j < links.len() && links[j].block != head implies is_old(
                next,
                (#[trigger] links[j]).block,
                bi,
            ) by {
                assert(next.block(links[j].block) == q.block(links[j].block));
                assert(is_old(q, links[j].block, bi));
            }
            lemma_links_removed(next, f, links, head, from + 1, bi);
        } else {
            lemma_links_removed(q, f, links, head, from + 1, bi);
        }
    }
}

/// The program in which the tree for the links `order` took the place of the chain at `head`.
pub open spec fn replanted(
    p: ProgramV,
    f: Function,
    x: Inst,
    order: Seq<LinkV>,
    default: BasicBlock,
    default_args: Seq<Inst>,
    head: BasicBlock,
) -> ProgramV {
    let tree = tree_built(p, f, x, order, default, default_args, 0, order.len() as int, head).0;
    links_removed(tree.remove_all(head, p.block(head).insts, 0), f, order, head, 0)
}

#[verifier::rlimit(60)]
proof fn lemma_tree_decides(
    p: ProgramV,
    f: Function,
    x: Inst,
    order: Seq<LinkV>,
    default: BasicBlock,
    default_args: Seq<Inst>,
    head: BasicBlock,
    v: i32,
) -> (n: nat)
    requires
        order.len() >= 2,
        x.0 < p.insts.len(),
        fits_handles(p),
        head.0 < p.blocks.len(),
        p.block(head).insts.len() == 2,
        p.block(head).insts[0] != p.block(head).insts[1],
        p.block(head).insts[0].0 < p.insts.len(),
        p.block(head).insts[1].0 < p.insts.len(),
        forall|j: int| 0 <= j < order.len() ==> reads_as(p, x, #[trigger] order[j]),
        fits_handles(replanted(p, f, x, order, default, default_args, head)),
    ensures
        n <= 2 * levels(order.len()),
        decided(replanted(p, f, x, order, default, default_args, head), x, v, head, n) == Some(
            tree_outcome(order, v, 0, order.len() as int, default, default_args),
        ),
{
    let len = order.len() as int;
    let bi = p.insts.len() as int;
    let bb = p.blocks.len() as int;
    assert forall|j: int| 0 <= j < order.len() implies (#[trigger] order[j]).handler_args.len() <= usize::MAX by {
        assert(reads_as(p, x, order[j]));
    }
    let mid = len / 2;
    let link = order[mid];
    let (tree, root) = tree_built(p, f, x, order, default, default_args, 0, len, head);
    let (p2, left, right, right_args) = below_built(p, f, x, order, default, default_args, 0, len, head);
    assert((tree, root) == node_built(p2, f, x, link, true, head, left, right, right_args));
    lemma_node_sizes(p2, f, x, link, true, head, left, right, right_args);
    let bare = tree.remove_all(head, p.block(head).insts, 0);
    let q = links_removed(bare, f, order, head, 0);
    lemma_remove_sizes(tree, head, p.block(head).insts, 0);
    lemma_links_sizes(bare, f, order, head, 0);
    let (a, b) = lemma_below(p, f, x, order, default, default_args, 0, len, head, v, bi, bb);
    assert(head.0 < p.blocks.len());
    assert(p2.block(head) == p.block(head)) by {
        assert(p2.blocks[head.0 as int] == p.blocks[head.0 as int]);
    }
    lemma_node(p2, f, x, link, true, head, left, right, right_args);
    let base = p2.insts.len();
    let lit = Inst(base as usize);
    let eq = Inst((base + 1) as usize);
    let lt = Inst((base + 2) as usize);
    let down = Inst((base + 3) as usize);
    let br = Inst((base + 4) as usize);
    let split = split_of(p2, true);
    lemma_head_cleared(p, tree, head, eq, br);
    assert forall|j: int| 0 <= j < order.len() && order[j].block != head implies is_old(
        bare,
        (#[trigger] order[j]).block,
        bi,
    ) by {
        let c = order[j].block;
        assert(reads_as(p, x, order[j]));
        assert(c.0 < p.blocks.len());
        assert(bare.blocks[c.0 as int] == tree.blocks[c.0 as int]);
        assert(tree.blocks[c.0 as int] == p2.blocks[c.0 as int]);
        assert(p2.blocks[c.0 as int] == p.blocks[c.0 as int]);
        assert(bare.block(c) == p.block(c));
    }
    lemma_links_removed(bare, f, order, head, 0, bi);
    assert(stays_from(p2, q, bi, bb)) by {
        assert forall|i: int| bi <= i < p2.insts.len() implies #[trigger] q.insts[i] == p2.insts[i] by {
            assert(q.insts[i] == bare.insts[i]);
            assert(bare.insts[i] == tree.insts[i]);
            assert(tree.insts[i] == p2.insts[i]);
        }
        assert forall|d: int| bb <= d < p2.blocks.len() implies #[trigger] q.blocks[d] == p2.blocks[d] by {
            assert(bare.blocks[d] == tree.blocks[d]);
            assert(tree.blocks[d] == p2.blocks[d]);
        }
    }
    lemma_decided_stays(p2, q, x, v, left, a, bi, bb);
    lemma_newly_decided(q, x, v, left, a, bi, bb);
    if mid + 1 < len {
        lemma_decided_stays(p2, q, x, v, right, b, bi, bb);
        lemma_newly_decided(q, x, v, right, b, bi, bb);
    }
    assert(q.inst(lit) == tree.inst(lit) && q.inst(eq) == tree.inst(eq) && q.inst(lt) == tree.inst(lt) && q.inst(down)
        == tree.inst(down) && q.inst(br) == tree.inst(br)) by {
        assert forall|i: int| bi <= i < tree.insts.len() implies #[trigger] q.insts[i] == tree.insts[i] by {
            assert(q.insts[i] == bare.insts[i]);
            assert(bare.insts[i] == tree.insts[i]);
        }
    }
    assert(q.block(split) == tree.block(split)) by {
        assert(bare.blocks[split.0 as int] == tree.blocks[split.0 as int]);
    }
    assert(q.block(head).insts == seq![eq, br]);
    assert(outcome_of(q, x, v, eq) == Some(v == link.k));
    assert(outcome_of(q, x, v, lt) == Some(v < link.k));
    let n: nat = if v == link.k {
        1
    } else if v < link.k {
        a + 2
    } else if mid + 1 < len {
        b + 2
    } else {
        2
    };
    assert(decided(q, x, v, head, n) == Some(tree_outcome(order, v, 0, len, default, default_args))) by {
        if v != link.k {
            assert(decision(q, x, v, head) == Some((split, Seq::<Inst>::empty())));
            if v < link.k {
                assert(decided(q, x, v, split, a + 1) == decided(q, x, v, left, a));
            } else if mid + 1 < len {
                assert(decided(q, x, v, split, b + 1) == decided(q, x, v, right, b));
            }
            assert(decided(q, x, v, head, n) == decided(q, x, v, split, (n - 1) as nat));
        }
    }
    n
}

/// The programs `p` and `q` lead from `head` to the same block with the same arguments where `x` has the
/// value `v`, the second in at most `most` decisions.
pub open spec fn leads_alike(p: ProgramV, q: ProgramV, x: Inst, v: i32, head: BasicBlock, most: nat) -> bool {
    exists|m: nat, n: nat|
        n <= most && #[trigger] decided(p, x, v, head, m) is Some && #[trigger] decided(q, x, v, head, n) == decided(
            p,
            x,
            v,
            head,
            m,
        )
}

/// After a chain became a tree, every value of the tested variable leads from the head to the block that it
/// led to, with the arguments that were passed to it, in at most two tests for each level of the tree.
pub proof fn tree_leads_as_the_chain_led(p: ProgramV, f: Function, head: BasicBlock, v: i32)
    requires
        chain_converted(p, f, head) is Some,
        (chain_at(p, head)->0).0.0 < p.insts.len(),
        possible(p, (chain_at(p, head)->0).0, v),
        fits_handles(p),
        fits_handles(chain_converted(p, f, head)->0),
    ensures
        ({
            let (x, links) = chain_at(p, head)->0;
            leads_alike(
                p,
                chain_converted(p, f, head)->0,
                x,
                v,
                head,
                2 * levels(links.len()),
            )
        }),
{
    let (x, links) = chain_at(p, head)->0;
    let order = sorted_links(links);
    let last = links.last();
    lemma_chain_linked(p, head, None, Seq::empty(), p.blocks.len());
    let m = lemma_chain_decides(p, x, links, v, 0);
    tree_decides_as_chain(p, head, v);
    lemma_sorted_links(p, head);
    assert forall|j: int| 0 <= j < order.len() implies reads_as(p, x, #[trigger] order[j]) by {
        let i = choose|i: int| 0 <= i < links.len() && #[trigger] links[i] == order[j];
        assert(reads_as(p, x, links[i]));
    }
    assert(reads_as(p, x, links[0]));
    let n = lemma_tree_decides(p, f, x, order, last.next, last.next_args, head, v);
    assert(decided(p, x, v, head, m) == decided(chain_converted(p, f, head)->0, x, v, head, n));
}

pub(crate) proof fn lemma_remove_sizes(q: ProgramV, b: BasicBlock, insts: Seq<Inst>, from: int)
    ensures
        q.remove_all(b, insts, from).insts.len() == q.insts.len(),
        q.remove_all(b, insts, from).blocks.len() == q.blocks.len(),
    decreases insts.len() - from,
{
    reveal(ProgramV::set_block_insts);
    reveal(ProgramV::set_inst);
    if from < insts.len() {
        lemma_remove_sizes(q.remove(b, insts[from]), b, insts, from + 1);
    }
}

pub(crate) proof fn lemma_links_sizes(q: ProgramV, f: Function, links: Seq<LinkV>, head: BasicBlock, from: int)
    ensures
        links_removed(q, f, links, head, from).insts.len() == q.insts.len(),
        links_removed(q, f, links, head, from).blocks.len() == q.blocks.len(),
    decreases links.len() - from,
{
    if from < links.len() {
        if links[from].block != head {
            let b = links[from].block;
            let mid = q.detach_block(f, b);
            assert(mid.blocks == q.blocks && mid.insts == q.insts) by {
                reveal(ProgramV::set_func_blocks);
            }
            lemma_shell_stays(mid, q.block(b).insts, 0);
            lemma_links_sizes(q.remove_block(f, b), f, links, head, from + 1);
        } else {
            lemma_links_sizes(q, f, links, head, from + 1);
        }
    }
}

/// Sorting keeps the links and their number.
pub(crate) proof fn lemma_sorted_links(p: ProgramV, head: BasicBlock)
    requires
        chain_at(p, head) is Some,
    ensures
        ({
            let links = (chain_at(p, head)->0).1;
            let order = sorted_links(links);
            &&& order.len() == links.len()
            &&& forall|j: int|
                0 <= j < order.len() ==> exists|i: int| 0 <= i < links.len() && #[trigger] links[i] == #[trigger] order[j]
        }),
{
    let links = (chain_at(p, head)->0).1;
    let order = sorted_links(links);
    lemma_chain_distinct(p, head, None, Seq::empty(), p.blocks.len());
    lemma_sorted(links, 0, Seq::empty());
    lemma_sorted_len(links, 0, Seq::empty());
    assert forall|j: int| 0 <= j < order.len() implies exists|i: int|
        0 <= i < links.len() && #[trigger] links[i] == #[trigger] order[j] by {
        assert(order.contains(order[j]));
    }
}

} // verus!
