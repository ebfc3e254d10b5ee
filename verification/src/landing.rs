//! Transfers land in blocks that are laid out: a chain that became a tree leaves none behind that leads nowhere.

use vstd::prelude::*;

use crate::chain_to_switch::{
    chain_at, chain_converted, leads_aside, lemma_chain_distinct, lemma_sorted, links_removed,
    sorted_links, stands_alone, tree_block, tree_built, with_branch, with_compare, LinkV,
};
use crate::deciding::{
    fits_handles, lemma_chain_linked, lemma_links_sizes, lemma_remove_sizes, lemma_sorted_links, lemma_tree_grows,
    linked, reads_as,
};
use crate::ir::{position, position_is_first, without, BasicBlock, BinaryOp, Function, Inst, Op, ProgramV, Type};
use crate::names::decimal;

verus! {

/// Every transfer of control in a block of `f` leads to a block of `f`.
pub open spec fn is_closed(p: ProgramV, f: Function) -> bool {
    forall|b: BasicBlock, i: Inst, t: BasicBlock|
        p.func(f).blocks.contains(b) && #[trigger] p.block(b).insts.contains(i) && #[trigger] p.inst(i).targets(t)
            ==> p.func(f).blocks.contains(t)
}

/// Program `r` is `p` with new instructions in `head` and in new blocks, all of which are laid out in `f`; the
/// new instructions lead to new blocks and to `ends`.
pub open spec fn is_grown(p: ProgramV, f: Function, head: BasicBlock, ends: Seq<BasicBlock>, r: ProgramV) -> bool {
    &&& p.insts.len() <= r.insts.len()
    &&& p.blocks.len() <= r.blocks.len()
    &&& r.funcs.len() == p.funcs.len()
    &&& forall|i: int| 0 <= i < p.insts.len() ==> #[trigger] r.insts[i] == p.insts[i]
    &&& forall|b: BasicBlock, i: Inst| #[trigger]
        r.block(b).insts.contains(i) ==> p.block(b).insts.contains(i) || p.insts.len() <= i.0
    &&& forall|b: BasicBlock| b.0 < p.blocks.len() && b != head ==> #[trigger] r.block(b) == p.block(b)
    &&& forall|t: BasicBlock| #[trigger]
        r.func(f).blocks.contains(t) == (p.func(f).blocks.contains(t) || p.blocks.len() <= t.0 < r.blocks.len())
    &&& forall|i: int, t: BasicBlock|
        p.insts.len() <= i < r.insts.len() && #[trigger] r.insts[i].targets(t) ==> ends.contains(t) || p.blocks.len() <= t.0
            < r.blocks.len()
}

/// The operation leads only to new blocks and to `ends`.
pub open spec fn ends_well(p: ProgramV, r: ProgramV, ends: Seq<BasicBlock>, op: Op) -> bool {
    match op {
        Op::Jump(_) => false,
        Op::Branch(t, e, _) => (ends.contains(t) || p.blocks.len() <= t.0 < r.blocks.len()) && (ends.contains(e)
            || p.blocks.len() <= e.0 < r.blocks.len()),
        _ => true,
    }
}

proof fn lemma_pushed(
    p: ProgramV,
    f: Function,
    head: BasicBlock,
    ends: Seq<BasicBlock>,
    r: ProgramV,
    op: Op,
    args: Seq<Inst>,
    ty: Type,
)
    requires
        is_grown(p, f, head, ends, r),
        ends_well(p, r, ends, op),
    ensures
        is_grown(p, f, head, ends, r.push_inst(op, args, ty, false)),
{
    reveal(ProgramV::push_inst);
    let q = r.push_inst(op, args, ty, false);
    assert forall|i: int| 0 <= i < p.insts.len() implies #[trigger] q.insts[i] == p.insts[i] by {
        assert(r.insts[i] == p.insts[i]);
    }
    assert forall|b: BasicBlock, i: Inst| #[trigger] q.block(b).insts.contains(i) implies p.block(b).insts.contains(i)
        || p.insts.len() <= i.0 by {
        assert(r.block(b).insts.contains(i));
    }
    assert forall|b: BasicBlock| b.0 < p.blocks.len() && b != head implies #[trigger] q.block(b) == p.block(b) by {
        assert(r.block(b) == p.block(b));
    }
    assert forall|t: BasicBlock| #[trigger]
        q.func(f).blocks.contains(t) == (p.func(f).blocks.contains(t) || p.blocks.len() <= t.0 < q.blocks.len()) by {
        assert(r.func(f).blocks.contains(t) == q.func(f).blocks.contains(t));
    }
    assert forall|i: int, t: BasicBlock|
        p.insts.len() <= i < q.insts.len() && #[trigger] q.insts[i].targets(t) implies ends.contains(t) || p.blocks.len()
        <= t.0 < q.blocks.len() by {
        if i < r.insts.len() {
            assert(r.insts[i].targets(t));
        }
    }
}

proof fn lemma_appended(
    p: ProgramV,
    f: Function,
    head: BasicBlock,
    ends: Seq<BasicBlock>,
    r: ProgramV,
    b: BasicBlock,
    i: Inst,
)
    requires
        is_grown(p, f, head, ends, r),
        p.insts.len() <= i.0,
        b == head || p.blocks.len() <= b.0,
    ensures
        is_grown(p, f, head, ends, r.append(b, i)),
{
    reveal(ProgramV::set_block_insts);
    let q = r.append(b, i);
    assert forall|c: BasicBlock, j: Inst| #[trigger] q.block(c).insts.contains(j) implies p.block(c).insts.contains(j)
        || p.insts.len() <= j.0 by {
        if c == b && b.0 < r.blocks.len() {
            let k = q.block(c).insts.index_of(j);
            if k < r.block(c).insts.len() {
                assert(r.block(c).insts[k] == j);
                assert(r.block(c).insts.contains(j));
            }
        } else {
            assert(r.block(c).insts.contains(j));
        }
    }
    assert forall|c: BasicBlock| c.0 < p.blocks.len() && c != head implies #[trigger] q.block(c) == p.block(c) by {
        assert(r.block(c) == p.block(c));
    }
    assert forall|t: BasicBlock| #[trigger]
        q.func(f).blocks.contains(t) == (p.func(f).blocks.contains(t) || p.blocks.len() <= t.0 < q.blocks.len()) by {
        assert(r.func(f).blocks.contains(t) == q.func(f).blocks.contains(t));
    }
}

proof fn lemma_block_placed(
    p: ProgramV,
    f: Function,
    head: BasicBlock,
    ends: Seq<BasicBlock>,
    r: ProgramV,
    name: Seq<char>,
    whole: bool,
)
    requires
        is_grown(p, f, head, ends, r),
        f.0 < p.funcs.len(),
        whole || r.blocks.len() < usize::MAX,
    ensures
        ({
            let (q, b) = tree_block(r, f, name, whole, head);
            &&& is_grown(p, f, head, ends, q)
            &&& q.insts == r.insts
            &&& q.blocks.len() == r.blocks.len() + if whole { 0int } else { 1int }
            &&& whole ==> b == head
            &&& !whole ==> p.blocks.len() <= b.0 < q.blocks.len()
        }),
{
    if !whole {
        reveal(ProgramV::push_block);
        reveal(ProgramV::set_func_blocks);
        let (q, b) = tree_block(r, f, name, whole, head);
        let old_blocks = r.func(f).blocks;
        assert(q.func(f).blocks == old_blocks.push(b));
        assert forall|c: BasicBlock, j: Inst| #[trigger] q.block(c).insts.contains(j) implies p.block(c).insts.contains(j)
            || p.insts.len() <= j.0 by {
            if c.0 < r.blocks.len() {
                assert(r.block(c).insts.contains(j));
            }
        }
        assert forall|c: BasicBlock| c.0 < p.blocks.len() && c != head implies #[trigger] q.block(c) == p.block(c) by {
            assert(r.block(c) == p.block(c));
        }
        assert forall|t: BasicBlock| #[trigger]
            q.func(f).blocks.contains(t) == (p.func(f).blocks.contains(t) || p.blocks.len() <= t.0 < q.blocks.len()) by {
            assert(r.func(f).blocks.contains(t) == (p.func(f).blocks.contains(t) || p.blocks.len() <= t.0
                < r.blocks.len()));
            if old_blocks.contains(t) {
                let k = old_blocks.index_of(t);
                assert(q.func(f).blocks[k] == t);
            }
            if t == b {
                assert(q.func(f).blocks[old_blocks.len() as int] == t);
            }
            if q.func(f).blocks.contains(t) && !old_blocks.contains(t) {
                let k = q.func(f).blocks.index_of(t);
                if k < old_blocks.len() {
                    assert(old_blocks[k] == t);
                }
            }
        }
        assert forall|i: int, t: BasicBlock|
            p.insts.len() <= i < q.insts.len() && #[trigger] q.insts[i].targets(t) implies ends.contains(t)
            || p.blocks.len() <= t.0 < q.blocks.len() by {
            assert(r.insts[i].targets(t));
        }
    }
}

proof fn lemma_compared(
    p: ProgramV,
    f: Function,
    head: BasicBlock,
    ends: Seq<BasicBlock>,
    r: ProgramV,
    b: BasicBlock,
    op: BinaryOp,
    x: Inst,
    k: Inst,
)
    requires
        is_grown(p, f, head, ends, r),
        b == head || p.blocks.len() <= b.0,
        r.insts.len() < usize::MAX,
    ensures
        is_grown(p, f, head, ends, with_compare(r, b, op, x, k)),
        with_compare(r, b, op, x, k).insts.len() == r.insts.len() + 1,
        with_compare(r, b, op, x, k).blocks.len() == r.blocks.len(),
{
    lemma_pushed(p, f, head, ends, r, Op::Binary(op), seq![x, k], r.binary_ty(op, x));
    lemma_appended(
        p,
        f,
        head,
        ends,
        r.push_inst(Op::Binary(op), seq![x, k], r.binary_ty(op, x), false),
        b,
        r.next_inst(),
    );
    reveal(ProgramV::push_inst);
    reveal(ProgramV::set_block_insts);
}

proof fn lemma_branched(
    p: ProgramV,
    f: Function,
    head: BasicBlock,
    ends: Seq<BasicBlock>,
    r: ProgramV,
    b: BasicBlock,
    c: Inst,
    t: BasicBlock,
    t_args: Seq<Inst>,
    e: BasicBlock,
    e_args: Seq<Inst>,
)
    requires
        is_grown(p, f, head, ends, r),
        b == head || p.blocks.len() <= b.0,
        r.insts.len() < usize::MAX,
        ends.contains(t) || p.blocks.len() <= t.0 < r.blocks.len(),
        ends.contains(e) || p.blocks.len() <= e.0 < r.blocks.len(),
    ensures
        is_grown(p, f, head, ends, with_branch(r, b, c, t, t_args, e, e_args)),
        with_branch(r, b, c, t, t_args, e, e_args).insts.len() == r.insts.len() + 1,
        with_branch(r, b, c, t, t_args, e, e_args).blocks.len() == r.blocks.len(),
{
    let op = Op::Branch(t, e, t_args.len() as usize);
    let args = seq![c] + t_args + e_args;
    lemma_pushed(p, f, head, ends, r, op, args, Type::Unit);
    lemma_appended(p, f, head, ends, r.push_inst(op, args, Type::Unit, false), b, r.next_inst());
    reveal(ProgramV::push_inst);
    reveal(ProgramV::set_block_insts);
}

/// Building the tree for `links[lo..hi]` only adds, and all that it adds leads to new blocks, to handlers and to
/// the default.
proof fn lemma_tree_lands(
    p: ProgramV,
    f: Function,
    head: BasicBlock,
    ends: Seq<BasicBlock>,
    r: ProgramV,
    x: Inst,
    links: Seq<LinkV>,
    default: BasicBlock,
    default_args: Seq<Inst>,
    lo: int,
    hi: int,
)
    requires
        is_grown(p, f, head, ends, r),
        f.0 < p.funcs.len(),
        0 <= lo < hi <= links.len(),
        forall|j: int| 0 <= j < links.len() ==> ends.contains((#[trigger] links[j]).handler),
        ends.contains(default),
        fits_handles(tree_built(r, f, x, links, default, default_args, lo, hi, head).0),
    ensures
        ({
            let (q, b) = tree_built(r, f, x, links, default, default_args, lo, hi, head);
            &&& is_grown(p, f, head, ends, q)
            &&& !(lo == 0 && hi == links.len()) ==> p.blocks.len() <= b.0 < q.blocks.len()
        }),
    decreases hi - lo,
{
    let whole = lo == 0 && hi == links.len();
    reveal(ProgramV::push_inst);
    if hi - lo <= 1 {
        let link = links[lo];
        let name = "chain_case_"@ + decimal(link.k as int);
        lemma_tree_sizes(r, f, name, whole, head);
        let (p1, check) = tree_block(r, f, name, whole, head);
        let p2 = p1.push_inst(Op::Integer(link.k), Seq::empty(), Type::I32, false);
        let p3 = with_compare(p2, check, BinaryOp::Eq, x, p1.next_inst());
        lemma_added_sizes(p2, check, BinaryOp::Eq, x, p1.next_inst());
        lemma_branch_sizes(p3, check, p2.next_inst(), link.handler, link.handler_args, default, default_args);
        lemma_block_placed(p, f, head, ends, r, name, whole);
        lemma_pushed(p, f, head, ends, p1, Op::Integer(link.k), Seq::empty(), Type::I32);
        lemma_compared(p, f, head, ends, p2, check, BinaryOp::Eq, x, p1.next_inst());
        lemma_branched(
            p,
            f,
            head,
            ends,
            p3,
            check,
            p2.next_inst(),
            link.handler,
            link.handler_args,
            default,
            default_args,
        );
    } else {
        let mid = lo + (hi - lo) / 2;
        let link = links[mid];
        let (p1, left) = tree_built(r, f, x, links, default, default_args, lo, mid, head);
        let (p2, right) = if mid + 1 < hi {
            tree_built(p1, f, x, links, default, default_args, mid + 1, hi, head)
        } else {
            (p1, default)
        };
        let right_args = if mid + 1 < hi {
            Seq::empty()
        } else {
            default_args
        };
        let name = "chain_check_"@ + decimal(link.k as int);
        let below = "chain_split_"@ + decimal(link.k as int);
        let (p3, check) = tree_block(p2, f, name, whole, head);
        let p4 = p3.push_inst(Op::Integer(link.k), Seq::empty(), Type::I32, false);
        let p5 = with_compare(p4, check, BinaryOp::Eq, x, p3.next_inst());
        let (p6, split) = tree_block(p5, f, below, false, head);
        let p7 = with_compare(p6, split, BinaryOp::Lt, x, p3.next_inst());
        let p8 = with_branch(p7, split, p6.next_inst(), left, Seq::empty(), right, right_args);
        lemma_tree_sizes(p2, f, name, whole, head);
        lemma_added_sizes(p4, check, BinaryOp::Eq, x, p3.next_inst());
        lemma_tree_sizes(p5, f, below, false, head);
        lemma_added_sizes(p6, split, BinaryOp::Lt, x, p3.next_inst());
        lemma_branch_sizes(p7, split, p6.next_inst(), left, Seq::empty(), right, right_args);
        lemma_branch_sizes(p8, check, p4.next_inst(), link.handler, link.handler_args, split, Seq::empty());
        if mid + 1 < hi {
            lemma_tree_grows(p1, f, x, links, default, default_args, mid + 1, hi, head);
        }
        lemma_tree_lands(p, f, head, ends, r, x, links, default, default_args, lo, mid);
        if mid + 1 < hi {
            lemma_tree_lands(p, f, head, ends, p1, x, links, default, default_args, mid + 1, hi);
        }
        lemma_block_placed(p, f, head, ends, p2, name, whole);
        lemma_pushed(p, f, head, ends, p3, Op::Integer(link.k), Seq::empty(), Type::I32);
        lemma_compared(p, f, head, ends, p4, check, BinaryOp::Eq, x, p3.next_inst());
        lemma_block_placed(p, f, head, ends, p5, below, false);
        lemma_compared(p, f, head, ends, p6, split, BinaryOp::Lt, x, p3.next_inst());
        lemma_branched(p, f, head, ends, p7, split, p6.next_inst(), left, Seq::empty(), right, right_args);
        lemma_branched(
            p,
            f,
            head,
            ends,
            p8,
            check,
            p4.next_inst(),
            link.handler,
            link.handler_args,
            split,
            Seq::empty(),
        );
    }
}

proof fn lemma_tree_sizes(r: ProgramV, f: Function, name: Seq<char>, whole: bool, into: BasicBlock)
    ensures
        tree_block(r, f, name, whole, into).0.insts.len() == r.insts.len(),
        tree_block(r, f, name, whole, into).0.blocks.len() == r.blocks.len() + if whole { 0int } else { 1int },
{
    reveal(ProgramV::push_block);
    reveal(ProgramV::set_func_blocks);
}

proof fn lemma_added_sizes(r: ProgramV, b: BasicBlock, op: BinaryOp, x: Inst, k: Inst)
    ensures
        with_compare(r, b, op, x, k).insts.len() == r.insts.len() + 1,
        with_compare(r, b, op, x, k).blocks.len() == r.blocks.len(),
{
    reveal(ProgramV::push_inst);
    reveal(ProgramV::set_block_insts);
}

proof fn lemma_branch_sizes(
    r: ProgramV,
    b: BasicBlock,
    c: Inst,
    t: BasicBlock,
    t_args: Seq<Inst>,
    e: BasicBlock,
    e_args: Seq<Inst>,
)
    ensures
        with_branch(r, b, c, t, t_args, e, e_args).insts.len() == r.insts.len() + 1,
        with_branch(r, b, c, t, t_args, e, e_args).blocks.len() == r.blocks.len(),
{
    reveal(ProgramV::push_inst);
    reveal(ProgramV::set_block_insts);
}

/// Instructions are in `r` what they were in `q`, or empty.
pub open spec fn fades(q: ProgramV, r: ProgramV) -> bool {
    forall|i: Inst| #[trigger] r.inst(i) == q.inst(i) || r.op(i) is Removed
}

proof fn lemma_erased(q: ProgramV, dead: Seq<Inst>, from: int)
    requires
        0 <= from,
    ensures
        ({
            let r = q.erase_all(dead, from);
            &&& fades(q, r)
            &&& r.blocks == q.blocks
            &&& r.funcs == q.funcs
            &&& forall|k: int| from <= k < dead.len() ==> r.op(#[trigger] dead[k]) is Removed
        }),
    decreases dead.len() - from,
{
    if from < dead.len() {
        reveal(ProgramV::set_inst);
        let next = q.erase(dead[from]);
        lemma_erased(next, dead, from + 1);
        let r = q.erase_all(dead, from);
        assert(next.op(dead[from]) is Removed);
        assert forall|i: Inst| #[trigger] r.inst(i) == q.inst(i) || r.op(i) is Removed by {
            assert(r.inst(i) == next.inst(i) || r.op(i) is Removed);
        }
        assert(r.inst(dead[from]) == next.inst(dead[from]) || r.op(dead[from]) is Removed);
    }
}

/// Block `head` has lost some instructions, and everything else stands where it stood.
proof fn lemma_head_emptied(q: ProgramV, head: BasicBlock, dead: Seq<Inst>, from: int)
    requires
        0 <= from,
    ensures
        ({
            let r = q.remove_all(head, dead, from);
            &&& fades(q, r)
            &&& r.funcs == q.funcs
            &&& forall|b: BasicBlock| b != head ==> #[trigger] r.block(b) == q.block(b)
            &&& forall|i: Inst| #[trigger] r.block(head).insts.contains(i) ==> q.block(head).insts.contains(i)
            &&& forall|k: int| from <= k < dead.len() ==> r.op(#[trigger] dead[k]) is Removed
        }),
    decreases dead.len() - from,
{
    if from < dead.len() {
        reveal(ProgramV::set_inst);
        reveal(ProgramV::set_block_insts);
        let next = q.remove(head, dead[from]);
        lemma_head_emptied(next, head, dead, from + 1);
        let r = q.remove_all(head, dead, from);
        assert(next.op(dead[from]) is Removed);
        assert forall|i: Inst| #[trigger] r.inst(i) == q.inst(i) || r.op(i) is Removed by {
            assert(r.inst(i) == next.inst(i) || r.op(i) is Removed);
        }
        assert(r.inst(dead[from]) == next.inst(dead[from]) || r.op(dead[from]) is Removed);
        assert forall|b: BasicBlock| b != head implies #[trigger] r.block(b) == q.block(b) by {
            assert(r.block(b) == next.block(b));
        }
        assert forall|i: Inst| #[trigger] r.block(head).insts.contains(i) implies q.block(head).insts.contains(i) by {
            assert(next.block(head).insts.contains(i));
            lemma_without(q.block(head).insts, dead[from], i);
        }
    }
}

proof fn lemma_without<T>(s: Seq<T>, x: T, y: T)
    ensures
        without(s, x).contains(y) ==> s.contains(y),
        s.contains(y) && y != x ==> without(s, x).contains(y),
{
    position_is_first(s, x, 0);
    let k = position(s, x, 0);
    let r = without(s, x);
    if k < s.len() {
        if r.contains(y) {
            let j = r.index_of(y);
            assert(s[if j < k { j } else { j + 1 }] == y);
        }
        if s.contains(y) && y != x {
            let j = s.index_of(y);
            assert(r[if j < k { j } else { j - 1 }] == y);
        }
    }
}

#[verifier::spinoff_prover]
proof fn lemma_without_once<T>(s: Seq<T>, x: T)
    requires
        s.no_duplicates(),
    ensures
        without(s, x).no_duplicates(),
        !without(s, x).contains(x),
{
    position_is_first(s, x, 0);
    let k = position(s, x, 0);
    let r = without(s, x);
    if k < s.len() {
        assert forall|i: int, j: int| 0 <= i < r.len() && 0 <= j < r.len() && i != j implies r[i] != r[j] by {
            let a = if i < k { i } else { i + 1 };
            let b = if j < k { j } else { j + 1 };
            assert(r[i] == s[a] && r[j] == s[b] && a != b);
        }
        assert forall|j: int| 0 <= j < r.len() implies r[j] != x by {
            let b = if j < k { j } else { j + 1 };
            assert(r[j] == s[b] && b != k);
        }
    }
}

/// The blocks of `links[from..]` other than `head` are gone from `f` with all that they held; other blocks stay.
proof fn lemma_links_gone(q: ProgramV, f: Function, links: Seq<LinkV>, head: BasicBlock, from: int)
    requires
        0 <= from,
        q.func(f).blocks.no_duplicates(),
    ensures
        ({
            let r = links_removed(q, f, links, head, from);
            &&& fades(q, r)
            &&& r.blocks == q.blocks
            &&& r.func(f).blocks.no_duplicates()
            &&& forall|t: BasicBlock| #[trigger] r.func(f).blocks.contains(t) ==> q.func(f).blocks.contains(t)
            &&& forall|t: BasicBlock|
                q.func(f).blocks.contains(t) && (t == head || forall|j: int|
                    from <= j < links.len() ==> (#[trigger] links[j]).block != t) ==> #[trigger] r.func(f).blocks.contains(t)
            &&& forall|j: int|
                from <= j < links.len() && links[j].block != head ==> !r.func(f).blocks.contains(
                    (#[trigger] links[j]).block,
                )
            &&& forall|j: int, k: int|
                from <= j < links.len() && links[j].block != head && 0 <= k < q.block(links[j].block).insts.len() ==> r.op(
                    #[trigger] q.block(links[j].block).insts[k],
                ) is Removed
        }),
    decreases links.len() - from,
{
    if from < links.len() {
        let b = links[from].block;
        let r = links_removed(q, f, links, head, from);
        if b != head {
            let mid = q.detach_block(f, b);
            let dead = q.block(b).insts;
            let next = q.remove_block(f, b);
            assert(mid.blocks == q.blocks && mid.insts == q.insts) by {
                reveal(ProgramV::set_func_blocks);
            }
            assert(mid.func(f).blocks =~= without(q.func(f).blocks, b)) by {
                reveal(ProgramV::set_func_blocks);
            }
            lemma_erased(mid, dead, 0);
            assert(next == mid.erase_all(dead, 0));
            lemma_without_once(q.func(f).blocks, b);
            lemma_links_gone(next, f, links, head, from + 1);
            assert forall|i: Inst| #[trigger] r.inst(i) == q.inst(i) || r.op(i) is Removed by {
                assert(r.inst(i) == next.inst(i) || r.op(i) is Removed);
                assert(next.inst(i) == mid.inst(i) || next.op(i) is Removed);
            }
            assert forall|t: BasicBlock| #[trigger] r.func(f).blocks.contains(t) implies q.func(f).blocks.contains(t) by {
                assert(next.func(f).blocks.contains(t));
                lemma_without(q.func(f).blocks, b, t);
            }
            assert forall|t: BasicBlock|
                q.func(f).blocks.contains(t) && (t == head || forall|j: int|
                    from <= j < links.len() ==> (#[trigger] links[j]).block != t) implies #[trigger] r.func(
                f,
            ).blocks.contains(t) by {
                if t != head {
                    assert(links[from].block != t);
                }
                lemma_without(q.func(f).blocks, b, t);
                assert(next.func(f).blocks.contains(t));
            }
            assert forall|j: int| from <= j < links.len() && links[j].block != head implies !r.func(f).blocks.contains(
                (#[trigger] links[j]).block,
            ) by {
                if j == from && r.func(f).blocks.contains(b) {
                    assert(next.func(f).blocks.contains(b));
                }
            }
            assert forall|j: int, k: int|
                from <= j < links.len() && links[j].block != head && 0 <= k < q.block(links[j].block).insts.len() implies r.op(
                #[trigger] q.block(links[j].block).insts[k],
            ) is Removed by {
                let i = q.block(links[j].block).insts[k];
                if j == from {
                    assert(dead[k] == i);
                    assert(next.op(i) is Removed);
                    assert(r.inst(i) == next.inst(i) || r.op(i) is Removed);
                } else {
                    assert(next.block(links[j].block).insts[k] == i);
                }
            }
        } else {
            lemma_links_gone(q, f, links, head, from + 1);
        }
    }
}

proof fn lemma_links_laid_out(p: ProgramV, f: Function, x: Inst, links: Seq<LinkV>, j: int)
    requires
        is_closed(p, f),
        linked(p, x, links),
        0 <= j < links.len(),
        p.func(f).blocks.contains(links[0].block),
    ensures
        p.func(f).blocks.contains(links[j].block),
        p.func(f).blocks.contains(links[j].handler),
        p.func(f).blocks.contains(links[j].next),
        p.block(links[j].block).insts.contains(p.block(links[j].block).insts[1]),
    decreases j,
{
    if j > 0 {
        lemma_links_laid_out(p, f, x, links, j - 1);
        assert(links[j - 1].next == links[j].block);
    }
    let l = links[j];
    assert(reads_as(p, x, l));
    let u = p.block(l.block).insts[1];
    assert(p.block(l.block).insts.contains(u));
    assert(p.inst(u).targets(l.handler));
    assert(p.inst(u).targets(l.next));
}

proof fn lemma_parent(p: ProgramV, f: Function, b: BasicBlock, i: Inst, from: int)
    requires
        0 <= from,
        p.block(b).insts.contains(i),
        exists|k: int| from <= k < p.func(f).blocks.len() && p.func(f).blocks[k] == b,
    ensures
        p.parent_from(f, i, from) is Some,
    decreases p.func(f).blocks.len() - from,
{
    let k = choose|k: int| from <= k < p.func(f).blocks.len() && p.func(f).blocks[k] == b;
    if from < p.func(f).blocks.len() && !p.block(p.func(f).blocks[from]).insts.contains(i) {
        assert(k != from);
        lemma_parent(p, f, b, i, from + 1);
    }
}

/// An instruction in a block of `f` that leads to link `j` is the branch of the link before.
proof fn lemma_only_way(p: ProgramV, f: Function, links: Seq<LinkV>, b: BasicBlock, i: Inst, j: int)
    requires
        stands_alone(p, f, links),
        p.func(f).blocks.contains(b),
        p.block(b).insts.contains(i),
        1 <= j < links.len(),
        p.inst(i).targets(links[j].block),
    ensures
        i == p.block(links[j - 1].block).insts[1],
        links[j - 1].handler != links[j].block,
{
    let k = p.func(f).blocks.index_of(b);
    assert(p.func(f).blocks[k] == b);
    lemma_parent(p, f, b, i, 0);
    assert(!leads_aside(p, f, links, j, i));
}

/// The blocks that a chain leads out to are no links of it but the first.
proof fn lemma_ends_stay(p: ProgramV, f: Function, x: Inst, links: Seq<LinkV>, n: int, j: int)
    requires
        is_closed(p, f),
        linked(p, x, links),
        stands_alone(p, f, links),
        crate::chain_to_switch::distinct_literals(links),
        p.func(f).blocks.contains(links[0].block),
        0 <= n < links.len(),
        1 <= j < links.len(),
    ensures
        links[n].handler != links[j].block,
        links.last().next != links[j].block,
{
    let u = p.block(links[n].block).insts[1];
    lemma_links_laid_out(p, f, x, links, n);
    assert(reads_as(p, x, links[n]));
    assert(reads_as(p, x, links[j - 1]));
    if links[n].handler == links[j].block {
        lemma_only_way(p, f, links, links[n].block, u, j);
    }
    let last = links.len() - 1;
    let w = p.block(links[last].block).insts[1];
    lemma_links_laid_out(p, f, x, links, last);
    assert(reads_as(p, x, links[last]));
    if links[last].next == links[j].block {
        lemma_only_way(p, f, links, links[last].block, w, j);
        assert(links[last].k == links[j - 1].k);
    }
}

/// Turning a chain into a tree keeps the layout closed: where every transfer led to a block that is laid out,
/// every transfer does so afterwards.
pub proof fn transfers_still_land(p: ProgramV, f: Function, head: BasicBlock)
    requires
        is_closed(p, f),
        p.func(f).blocks.contains(head),
        p.func(f).blocks.no_duplicates(),
        forall|b: BasicBlock| #[trigger] p.func(f).blocks.contains(b) ==> b.0 < p.blocks.len(),
        chain_converted(p, f, head) is Some,
        fits_handles(chain_converted(p, f, head)->0),
    ensures
        is_closed(chain_converted(p, f, head)->0, f),
{
    let (x, links) = chain_at(p, head)->0;
    let order = sorted_links(links);
    let last = links.last();
    let q = chain_converted(p, f, head)->0;
    lemma_chain_linked(p, head, None, Seq::empty(), p.blocks.len());
    lemma_chain_distinct(p, head, None, Seq::empty(), p.blocks.len());
    lemma_sorted(links, 0, Seq::empty());
    lemma_sorted_links(p, head);
    let ends = Seq::new(links.len(), |j: int| links[j].handler).push(last.next);
    assert forall|j: int| 0 <= j < order.len() implies ends.contains((#[trigger] order[j]).handler) by {
        let i = choose|i: int| 0 <= i < links.len() && #[trigger] links[i] == order[j];
        assert(ends[i] == order[j].handler);
    }
    assert(ends[links.len() as int] == last.next);
    let g = tree_built(p, f, x, order, last.next, last.next_args, 0, order.len() as int, head).0;
    let dead = p.block(head).insts;
    let cut = g.remove_all(head, dead, 0);
    assert(q == links_removed(cut, f, order, head, 0));
    lemma_remove_sizes(g, head, dead, 0);
    lemma_links_sizes(cut, f, order, head, 0);
    assert(is_grown(p, f, head, ends, p));
    lemma_tree_lands(p, f, head, ends, p, x, order, last.next, last.next_args, 0, order.len() as int);
    lemma_head_emptied(g, head, dead, 0);
    lemma_layout_distinct(p, f, x, order, last.next, last.next_args, 0, order.len() as int, head);
    lemma_links_gone(cut, f, order, head, 0);
    assert(links[0].block == head);
    assert forall|b: BasicBlock, i: Inst, t: BasicBlock|
        q.func(f).blocks.contains(b) && #[trigger] q.block(b).insts.contains(i) && #[trigger] q.inst(i).targets(
            t,
        ) implies q.func(f).blocks.contains(t) by {
        assert(q.inst(i) == cut.inst(i) || q.op(i) is Removed);
        assert(cut.inst(i) == g.inst(i) || cut.op(i) is Removed);
        assert(cut.block(b).insts.contains(i));
        assert(g.block(b).insts.contains(i));
        assert(cut.func(f).blocks.contains(b));
        assert(g.func(f).blocks.contains(b));
        assert(p.block(b).insts.contains(i) || p.insts.len() <= i.0);
        if i.0 < p.insts.len() {
            assert(g.insts[i.0 as int] == p.insts[i.0 as int]);
            assert(p.inst(i).targets(t));
            assert(b.0 < p.blocks.len());
            assert(p.func(f).blocks.contains(b));
            assert(p.func(f).blocks.contains(t));
            assert(g.func(f).blocks.contains(t));
            if t != head && exists|j: int| 0 <= j < order.len() && (#[trigger] order[j]).block == t {
                let o = choose|o: int| 0 <= o < order.len() && (#[trigger] order[o]).block == t;
                let j = choose|j: int| 0 <= j < links.len() && #[trigger] links[j] == order[o];
                assert(j >= 1);
                lemma_only_way(p, f, links, b, i, j);
                assert(reads_as(p, x, links[j - 1]));
                if links[j - 1].block == head {
                    assert(dead[1] == i);
                } else {
                    assert(order.contains(links[j - 1]));
                    let e = order.index_of(links[j - 1]);
                    assert(order[e].block == links[j - 1].block);
                    lemma_links_laid_out(p, f, x, links, j - 1);
                    assert(g.block(order[e].block) == p.block(order[e].block));
                    assert(cut.block(order[e].block).insts[1] == i);
                }
            }
        } else {
            assert(g.insts[i.0 as int].targets(t));
            if ends.contains(t) {
                let n = ends.index_of(t);
                assert(ends[n] == t);
                let m = if n < links.len() {
                    n
                } else {
                    links.len() - 1
                };
                lemma_links_laid_out(p, f, x, links, m);
                assert(g.func(f).blocks.contains(t));
                assert forall|o: int| 0 <= o < order.len() && t != head implies (#[trigger] order[o]).block != t by {
                    let j = choose|j: int| 0 <= j < links.len() && #[trigger] links[j] == order[o];
                    if j >= 1 {
                        lemma_ends_stay(p, f, x, links, m, j);
                    }
                }
            } else {
                assert(g.func(f).blocks.contains(t));
                assert forall|o: int| 0 <= o < order.len() implies (#[trigger] order[o]).block != t by {
                    let j = choose|j: int| 0 <= j < links.len() && #[trigger] links[j] == order[o];
                    lemma_links_laid_out(p, f, x, links, j);
                }
            }
        }
    }
}

/// The tree adds no block to the layout that stands there.
proof fn lemma_layout_distinct(
    r: ProgramV,
    f: Function,
    x: Inst,
    links: Seq<LinkV>,
    default: BasicBlock,
    default_args: Seq<Inst>,
    lo: int,
    hi: int,
    into: BasicBlock,
)
    requires
        r.func(f).blocks.no_duplicates(),
        forall|b: BasicBlock| #[trigger] r.func(f).blocks.contains(b) ==> b.0 < r.blocks.len(),
        fits_handles(tree_built(r, f, x, links, default, default_args, lo, hi, into).0),
    ensures
        ({
            let q = tree_built(r, f, x, links, default, default_args, lo, hi, into).0;
            &&& q.func(f).blocks.no_duplicates()
            &&& forall|b: BasicBlock| #[trigger] q.func(f).blocks.contains(b) ==> b.0 < q.blocks.len()
        }),
    decreases hi - lo,
{
    let whole = lo == 0 && hi == links.len();
    if hi - lo <= 1 {
        let link = links[lo];
        let name = "chain_case_"@ + decimal(link.k as int);
        let (p1, check) = tree_block(r, f, name, whole, into);
        let p2 = p1.push_inst(Op::Integer(link.k), Seq::empty(), Type::I32, false);
        let p3 = with_compare(p2, check, BinaryOp::Eq, x, p1.next_inst());
        let q = with_branch(p3, check, p2.next_inst(), link.handler, link.handler_args, default, default_args);
        assert(q.funcs == p1.funcs && q.blocks.len() == p1.blocks.len()) by {
            reveal(ProgramV::push_inst);
            reveal(ProgramV::set_block_insts);
        }
        lemma_block_distinct(r, f, name, whole, into);
    } else {
        let mid = lo + (hi - lo) / 2;
        let link = links[mid];
        let (p1, left) = tree_built(r, f, x, links, default, default_args, lo, mid, into);
        let (p2, right) = if mid + 1 < hi {
            tree_built(p1, f, x, links, default, default_args, mid + 1, hi, into)
        } else {
            (p1, default)
        };
        let right_args = if mid + 1 < hi {
            Seq::empty()
        } else {
            default_args
        };
        let name = "chain_check_"@ + decimal(link.k as int);
        let below = "chain_split_"@ + decimal(link.k as int);
        let (p3, check) = tree_block(p2, f, name, whole, into);
        let p4 = p3.push_inst(Op::Integer(link.k), Seq::empty(), Type::I32, false);
        let p5 = with_compare(p4, check, BinaryOp::Eq, x, p3.next_inst());
        let (p6, split) = tree_block(p5, f, below, false, into);
        let p7 = with_compare(p6, split, BinaryOp::Lt, x, p3.next_inst());
        let p8 = with_branch(p7, split, p6.next_inst(), left, Seq::empty(), right, right_args);
        let q = with_branch(p8, check, p4.next_inst(), link.handler, link.handler_args, split, Seq::empty());
        assert(p5.funcs == p3.funcs && p5.blocks.len() == p3.blocks.len() && p5.insts.len() == p3.insts.len() + 2 && q.funcs
            == p6.funcs && q.blocks.len() == p6.blocks.len() && q.insts.len() == p6.insts.len() + 3) by {
            reveal(ProgramV::push_inst);
            reveal(ProgramV::set_block_insts);
        }
        lemma_tree_sizes(p2, f, name, whole, into);
        lemma_tree_sizes(p5, f, below, false, into);
        if mid + 1 < hi {
            lemma_tree_grows(p1, f, x, links, default, default_args, mid + 1, hi, into);
        }
        lemma_layout_distinct(r, f, x, links, default, default_args, lo, mid, into);
        if mid + 1 < hi {
            lemma_layout_distinct(p1, f, x, links, default, default_args, mid + 1, hi, into);
        }
        lemma_block_distinct(p2, f, name, whole, into);
        lemma_block_distinct(p5, f, below, false, into);
    }
}

proof fn lemma_block_distinct(r: ProgramV, f: Function, name: Seq<char>, whole: bool, into: BasicBlock)
    requires
        r.func(f).blocks.no_duplicates(),
        forall|b: BasicBlock| #[trigger] r.func(f).blocks.contains(b) ==> b.0 < r.blocks.len(),
        tree_block(r, f, name, whole, into).0.blocks.len() <= usize::MAX,
    ensures
        ({
            let q = tree_block(r, f, name, whole, into).0;
            &&& q.func(f).blocks.no_duplicates()
            &&& forall|b: BasicBlock| #[trigger] q.func(f).blocks.contains(b) ==> b.0 < q.blocks.len()
        }),
{
    if !whole {
        reveal(ProgramV::push_block);
        reveal(ProgramV::set_func_blocks);
        let q = tree_block(r, f, name, whole, into).0;
        let s = r.func(f).blocks;
        let b = r.next_block();
        if f.0 < r.funcs.len() {
            assert(q.func(f).blocks == s.push(b));
            assert(!s.contains(b));
            assert forall|c: BasicBlock| #[trigger] q.func(f).blocks.contains(c) implies c.0 < q.blocks.len() by {
                let k = q.func(f).blocks.index_of(c);
                if k < s.len() {
                    assert(s[k] == c);
                    assert(s.contains(c));
                }
            }
            assert forall|m: int, n: int|
                0 <= m < q.func(f).blocks.len() && 0 <= n < q.func(f).blocks.len() && m != n implies q.func(f).blocks[m]
                != q.func(f).blocks[n] by {
                if m == s.len() {
                    assert(s.contains(s[n]));
                } else if n == s.len() {
                    assert(s.contains(s[m]));
                }
            }
        } else {
            assert(q.func(f) == r.func(f));
        }
    }
}

} // verus!
