//! A loop that was made to add the same in every round, as the program that comes out says it.

use vstd::prelude::*;

use crate::blocked_reduction::{binary_made, literal_made, nth};
use crate::cloning::{cloned, moved, moved_block, sent};
use crate::copying::{
    closed_body, copies_it, in_nest, in_progress, is_faithful, lemma_bodies_copied, lemma_bodies_grow, stand, takes_copies,
};
use crate::invariant_reduction_hoisting::{
    block_copied, blocks_copied, bodies_copied, edge_filled, edges_filled, hoisted, in_order,
    loop_reduced, once_built, paired, params_mapped, placed_users, step_of, CopyV, OuterV,
};
use crate::inlining::lemma_copies_grow;
use crate::ir::{after, BasicBlock, BinaryOp, Function, Inst, InstV, Op, ProgramV, Type};
use crate::loops::LoopV;
use crate::preheader::{param_types, with_preheader, EnsurePreheader};
use crate::splicing::{insts_grow, lemma_new_block, lemma_paired};
use crate::unrolling::{
    else_goes_to, first_with, goes_to, lemma_appended, lemma_binary_made, lemma_first_after,
    lemma_first_alike, lemma_first_with, lemma_held, lemma_params_longer, lemma_pushed,
    stands_alike,
};

verus! {

proof fn lemma_params_mapped(
    params: Seq<Inst>,
    args: Seq<Inst>,
    zero: Inst,
    acc_idx: int,
    r_idx: int,
    from: int,
    m: Map<usize, Inst>,
)
    requires
        0 <= from <= params.len(),
        params.no_duplicates(),
    ensures
        ({
            let more = params_mapped(params, args, zero, acc_idx, r_idx, from, m);
            &&& forall|k: int|
                from <= k < params.len() ==> more.contains_key((#[trigger] params[k]).0) && more[params[k].0] == if k == acc_idx
                    || k == r_idx {
                    zero
                } else {
                    nth(args, k)
                }
            &&& forall|x: usize|
                (forall|k: int| from <= k < params.len() ==> (#[trigger] params[k]).0 != x) ==> #[trigger] more.contains_key(x)
                    == m.contains_key(x) && more[x] == m[x]
        }),
    decreases params.len() - from,
{
    if from < params.len() {
        let v = if from == acc_idx || from == r_idx {
            zero
        } else {
            nth(args, from)
        };
        let next = m.insert(params[from].0, v);
        let more = params_mapped(params, args, zero, acc_idx, r_idx, from, m);
        lemma_params_mapped(params, args, zero, acc_idx, r_idx, from + 1, next);
        assert(more == params_mapped(params, args, zero, acc_idx, r_idx, from + 1, next));
        assert forall|k: int| from + 1 <= k < params.len() implies (#[trigger] params[k]).0 != params[from].0 by {
            assert(params[k] != params[from]);
        }
        assert(more.contains_key(params[from].0) == next.contains_key(params[from].0));
        assert forall|x: usize|
            (forall|k: int| from <= k < params.len() ==> (#[trigger] params[k]).0 != x) implies #[trigger] more.contains_key(x)
            == m.contains_key(x) && more[x] == m[x] by {
            assert(params[from].0 != x);
            assert(more.contains_key(x) == next.contains_key(x));
        }
    }
}

/// Value `x` is a parameter of one of the first `n` of `blocks`.
spec fn is_param(p: ProgramV, blocks: Seq<BasicBlock>, n: int, x: Inst) -> bool {
    exists|j: int| 0 <= j < n && p.block(#[trigger] blocks[j]).params.contains(x)
}

/// The first `n` of `blocks` have empty copies, seen from the program `p` and the map `m` with which copying began.
spec fn has_shells(p: ProgramV, m: Map<usize, Inst>, f: Function, blocks: Seq<BasicBlock>, st: CopyV, n: int) -> bool {
    &&& insts_grow(p, st.p)
    &&& st.p.blocks.len() == p.blocks.len() + n
    &&& forall|x: int| 0 <= x < p.blocks.len() ==> #[trigger] st.p.blocks[x] == p.blocks[x]
    &&& forall|x: int| p.blocks.len() <= x < st.p.blocks.len() ==> (#[trigger] st.p.blocks[x]).insts.len() == 0
    &&& st.pairs.len() == n
    &&& forall|j: int| 0 <= j < n ==> #[trigger] st.pairs[j] == (blocks[j], BasicBlock((p.blocks.len() + j) as usize))
    &&& forall|a: Inst| #[trigger] first_with(p, st.p.func(f).blocks, a, 0) == first_with(p, p.func(f).blocks, a, 0)
    &&& forall|x: usize| !is_param(p, blocks, n, Inst(x)) ==> #[trigger] st.m.contains_key(x) == m.contains_key(x) && (
    m.contains_key(x) ==> st.m[x] == m[x])
    &&& forall|x: Inst| #[trigger] is_param(p, blocks, n, x) ==> st.m.contains_key(x.0) && p.insts.len() <= st.m[x.0].0
}

proof fn lemma_shell_step(
    p: ProgramV,
    m: Map<usize, Inst>,
    f: Function,
    prefix: Seq<char>,
    suffix: Seq<char>,
    blocks: Seq<BasicBlock>,
    st: CopyV,
    n: int,
)
    requires
        0 <= n < blocks.len(),
        has_shells(p, m, f, blocks, st, n),
        forall|j: int| 0 <= j < blocks.len() ==> (#[trigger] blocks[j]).0 < p.blocks.len(),
        forall|j: int| 0 <= j < blocks.len() ==> p.block(#[trigger] blocks[j]).params.no_duplicates(),
        st.p.blocks.len() < usize::MAX,
        block_copied(st, f, prefix, suffix, blocks[n]).p.insts.len() <= usize::MAX,
    ensures
        has_shells(p, m, f, blocks, block_copied(st, f, prefix, suffix, blocks[n]), n + 1),
{
    let b = blocks[n];
    let c = st.p.next_block();
    let name = prefix + st.p.block(b).name + suffix;
    let tys = param_types(st.p, b);
    let made = st.p.basic_block(name, tys);
    let next = block_copied(st, f, prefix, suffix, b);
    reveal(ProgramV::set_func_blocks);
    assert(next.p.insts == made.insts && next.p.blocks == made.blocks);
    lemma_new_block(st.p, name, tys);
    assert(st.p.block(b) == p.block(b)) by {
        assert(st.p.blocks[b.0 as int] == p.blocks[b.0 as int]);
    }
    assert(next.p.block(b) == p.block(b)) by {
        assert(made.blocks[b.0 as int] == st.p.blocks[b.0 as int]);
    }
    let params = p.block(b).params;
    let fresh = made.block(c).params;
    lemma_paired(params, fresh, 0, st.m);
    assert(params.skip(0) =~= params);
    assert(next.m == paired(params, fresh, 0, st.m));
    assert forall|i: int| 0 <= i < p.insts.len() implies #[trigger] next.p.insts[i] == p.insts[i] by {
        assert(made.insts[i] == st.p.insts[i]);
    }
    assert forall|x: int| 0 <= x < p.blocks.len() implies #[trigger] next.p.blocks[x] == p.blocks[x] by {
        assert(made.blocks[x] == st.p.blocks[x]);
    }
    assert forall|x: int| p.blocks.len() <= x < next.p.blocks.len() implies (#[trigger] next.p.blocks[x]).insts.len() == 0 by {
        if x < st.p.blocks.len() {
            assert(made.blocks[x] == st.p.blocks[x]);
        } else {
            assert(made.block(c) == made.blocks[x]);
        }
    }
    assert forall|a: Inst| #[trigger] first_with(p, next.p.func(f).blocks, a, 0) == first_with(p, p.func(f).blocks, a, 0) by {
        lemma_first_after(p, st.p.func(f).blocks, st.anchor, c, a);
        assert(first_with(p, st.p.func(f).blocks, a, 0) == first_with(p, p.func(f).blocks, a, 0));
    }
    assert forall|x: Inst| #[trigger] is_param(p, blocks, n + 1, x) implies next.m.contains_key(x.0) && p.insts.len()
        <= next.m[x.0].0 by {
        assert(x == Inst(x.0));
        if params.contains(x) {
            let t = params.index_of(x);
            assert(params[t] == x);
            assert(fresh[t] == Inst((st.p.insts.len() + t) as usize));
        } else {
            let j = choose|j: int| 0 <= j < n + 1 && p.block(#[trigger] blocks[j]).params.contains(x);
            assert(is_param(p, blocks, n, x));
            assert(next.m.contains_key(x.0) == st.m.contains_key(x.0));
        }
    }
    assert forall|x: usize| !is_param(p, blocks, n + 1, Inst(x)) implies #[trigger] next.m.contains_key(x) == m.contains_key(x)
        && (m.contains_key(x) ==> next.m[x] == m[x]) by {
        assert(!params.contains(Inst(x))) by {
            if params.contains(Inst(x)) {
                assert(p.block(blocks[n]).params.contains(Inst(x)));
            }
        }
        if is_param(p, blocks, n, Inst(x)) {
            let j = choose|j: int| 0 <= j < n && p.block(#[trigger] blocks[j]).params.contains(Inst(x));
            assert(0 <= j < n + 1 && p.block(blocks[j]).params.contains(Inst(x)));
        }
        assert(st.m.contains_key(x) == m.contains_key(x));
    }
}

proof fn lemma_shells_longer(st: CopyV, f: Function, prefix: Seq<char>, suffix: Seq<char>, blocks: Seq<BasicBlock>, from: int)
    ensures
        blocks_copied(st, f, prefix, suffix, blocks, from).p.insts.len() >= st.p.insts.len(),
        blocks_copied(st, f, prefix, suffix, blocks, from).p.blocks.len() >= st.p.blocks.len(),
    decreases blocks.len() - from,
{
    if from < blocks.len() {
        let b = blocks[from];
        let next = block_copied(st, f, prefix, suffix, b);
        reveal(ProgramV::push_block);
        reveal(ProgramV::set_func_blocks);
        let name = prefix + st.p.block(b).name + suffix;
        lemma_params_longer(st.p.push_block(name), st.p.next_block(), param_types(st.p, b), 0);
        lemma_shells_longer(next, f, prefix, suffix, blocks, from + 1);
    }
}

proof fn lemma_block_longer(st: CopyV, f: Function, prefix: Seq<char>, suffix: Seq<char>, b: BasicBlock)
    ensures
        block_copied(st, f, prefix, suffix, b).p.insts.len() >= st.p.insts.len(),
        block_copied(st, f, prefix, suffix, b).p.blocks.len() == st.p.blocks.len() + 1,
{
    reveal(ProgramV::push_block);
    reveal(ProgramV::set_func_blocks);
    let name = prefix + st.p.block(b).name + suffix;
    lemma_params_longer(st.p.push_block(name), st.p.next_block(), param_types(st.p, b), 0);
}

proof fn lemma_shells(
    p: ProgramV,
    m: Map<usize, Inst>,
    f: Function,
    prefix: Seq<char>,
    suffix: Seq<char>,
    blocks: Seq<BasicBlock>,
    st: CopyV,
    n: int,
)
    requires
        0 <= n <= blocks.len(),
        has_shells(p, m, f, blocks, st, n),
        forall|j: int| 0 <= j < blocks.len() ==> (#[trigger] blocks[j]).0 < p.blocks.len(),
        forall|j: int| 0 <= j < blocks.len() ==> p.block(#[trigger] blocks[j]).params.no_duplicates(),
        blocks_copied(st, f, prefix, suffix, blocks, n).p.blocks.len() <= usize::MAX,
        blocks_copied(st, f, prefix, suffix, blocks, n).p.insts.len() <= usize::MAX,
    ensures
        has_shells(p, m, f, blocks, blocks_copied(st, f, prefix, suffix, blocks, n), blocks.len() as int),
    decreases blocks.len() - n,
{
    if n < blocks.len() {
        let next = block_copied(st, f, prefix, suffix, blocks[n]);
        lemma_block_longer(st, f, prefix, suffix, blocks[n]);
        lemma_shells_longer(next, f, prefix, suffix, blocks, n + 1);
        lemma_shell_step(p, m, f, prefix, suffix, blocks, st, n);
        lemma_shells(p, m, f, prefix, suffix, blocks, next, n + 1);
    }
}

proof fn lemma_in_order(blocks: Seq<BasicBlock>, region: Seq<BasicBlock>, from: int, found: Seq<BasicBlock>)
    requires
        0 <= from <= blocks.len(),
    ensures
        forall|x: BasicBlock| #[trigger]
            in_order(blocks, region, from, found).contains(x) <==> found.contains(x) || (region.contains(x) && blocks.skip(
                from,
            ).contains(x)),
    decreases blocks.len() - from,
{
    if from < blocks.len() {
        let b = blocks[from];
        let next = if region.contains(b) {
            found.push(b)
        } else {
            found
        };
        lemma_in_order(blocks, region, from + 1, next);
        assert forall|x: BasicBlock| #[trigger]
            in_order(blocks, region, from, found).contains(x) <==> found.contains(x) || (region.contains(x) && blocks.skip(
                from,
            ).contains(x)) by {
            assert(in_order(blocks, region, from, found) == in_order(blocks, region, from + 1, next));
            if blocks.skip(from).contains(x) {
                let k = blocks.skip(from).index_of(x);
                assert(blocks[from + k] == x);
                if k > 0 {
                    assert(blocks.skip(from + 1)[k - 1] == x);
                }
            }
            if blocks.skip(from + 1).contains(x) {
                let k = blocks.skip(from + 1).index_of(x);
                assert(blocks.skip(from)[k + 1] == x);
            }
            assert(blocks.skip(from)[0] == b);
            if found.contains(x) {
                let k = found.index_of(x);
                assert(next[k] == x);
            }
            if region.contains(b) {
                assert(next[next.len() - 1] == b);
                if next.contains(x) && x != b {
                    let k = next.index_of(x);
                    assert(found[k] == x);
                }
            }
        }
    }
}

proof fn lemma_in_order_len(blocks: Seq<BasicBlock>, region: Seq<BasicBlock>, from: int, found: Seq<BasicBlock>)
    requires
        0 <= from <= blocks.len(),
    ensures
        in_order(blocks, region, from, found).len() <= found.len() + blocks.len() - from,
    decreases blocks.len() - from,
{
    if from < blocks.len() {
        lemma_in_order_len(blocks, region, from + 1, found);
        lemma_in_order_len(blocks, region, from + 1, found.push(blocks[from]));
    }
}

/// The nest of the loop can be copied: it is a part of function `f`, its instructions stand where they stand and nowhere
/// else, what they use exists, and the parameters of the header are parameters of no other block of it. What the nest
/// adds is computed in it.
pub open spec fn is_copyable(p: ProgramV, f: Function, c: OuterV) -> bool {
    let params = p.block(c.header).params;
    &&& c.header.0 < p.blocks.len()
    &&& params.no_duplicates()
    &&& forall|b: BasicBlock| #[trigger]
        c.region.contains(b) ==> {
            &&& b.0 < p.blocks.len()
            &&& p.func(f).blocks.contains(b)
            &&& p.block(b).params.no_duplicates()
            &&& forall|k: int| 0 <= k < params.len() ==> !p.block(b).params.contains(#[trigger] params[k])
            &&& forall|k: int| 0 <= k < p.block(b).params.len() ==> p.op(#[trigger] p.block(b).params[k]) is BlockArgRef
            &&& forall|k: int|
                0 <= k < p.block(b).insts.len() ==> {
                    let i = #[trigger] p.block(b).insts[k];
                    &&& i.0 < p.insts.len()
                    &&& !p.inst(i).global
                    &&& !(p.op(i) is BlockArgRef)
                    &&& p.parent_bb(f, i) == Some(b)
                    &&& forall|j: int| 0 <= j < p.args(i).len() ==> (#[trigger] p.args(i)[j]).0 < p.insts.len()
                }
        }
    &&& forall|k: int| 0 <= k < params.len() ==> p.op(#[trigger] params[k]) is BlockArgRef
    &&& c.region.contains(c.latch)
    &&& c.region.contains(c.entry)
    &&& is_added(p, c)
}

/// What the nest adds is computed in it, before the end of the latch, or is a parameter of one of its blocks.
pub open spec fn is_added(p: ProgramV, c: OuterV) -> bool {
    &&& !p.inst(c.final_acc).global
    &&& exists|b: BasicBlock| #[trigger]
        c.region.contains(b) && (p.block(b).params.contains(c.final_acc) || exists|k: int|
            in_nest(p, b, c.latch, k) && #[trigger] p.block(b).insts[k] == c.final_acc)
}

/// The blocks that stand for those of the nest, and the values that stand for its values.
pub open spec fn nest_of(p: ProgramV, f: Function, c: OuterV, pre: BasicBlock, args: Seq<Inst>) -> (
    Seq<(BasicBlock, BasicBlock)>,
    Map<usize, Inst>,
) {
    let params = p.block(c.header).params;
    let zero = p.next_inst();
    let p1 = literal_made(p, 0);
    let m = params_mapped(params, args, zero, c.acc_idx, c.r_idx, 0, Map::empty());
    let order = in_order(p1.func(f).blocks, c.region, 0, Seq::empty());
    let p2 = p1.basic_block("irh_done"@, seq![Type::I32]);
    let st = blocks_copied((CopyV { p: p2, pairs: Seq::empty(), m, anchor: pre }), f, "irh_"@, ""@, order, 0);
    let p3 = st.p.insert_bb_after(f, st.anchor, p1.next_block());
    (st.pairs, bodies_copied(p3, f, st.pairs, st.m, order, c.latch, 0, p3.insts.len()).1)
}

/// Instruction `i` of the nest has a copy in `q` that does with what stands for its operands what it does with them.
pub open spec fn has_copy(
    p: ProgramV,
    q: ProgramV,
    pairs: Seq<(BasicBlock, BasicBlock)>,
    m: Map<usize, Inst>,
    i: Inst,
) -> bool {
    &&& m.contains_key(i.0)
    &&& p.insts.len() <= m[i.0].0 < q.insts.len()
    &&& q.op(m[i.0]) == moved(p.op(i), pairs)
    &&& q.ty(m[i.0]) == p.ty(i)
    &&& q.args(m[i.0]).len() == p.args(i).len()
    &&& forall|k: int| 0 <= k < p.args(i).len() ==> #[trigger] q.args(m[i.0])[k] == stand(p, m, p.args(i)[k])
}

/// The nest was copied to run once, from zero: each of its blocks has a new one, what is passed to the loop stands for
/// the parameters of the header, but zero for counter and sum, and its end is a jump that passes what it adds.
pub open spec fn runs_once(
    p: ProgramV,
    q: ProgramV,
    c: OuterV,
    args: Seq<Inst>,
    pairs: Seq<(BasicBlock, BasicBlock)>,
    m: Map<usize, Inst>,
    done: BasicBlock,
) -> bool {
    let params = p.block(c.header).params;
    let last = q.terminator(moved_block(pairs, c.latch));
    &&& forall|b: BasicBlock| #[trigger] c.region.contains(b) ==> moved_block(pairs, b).0 >= p.blocks.len() && moved_block(pairs, b)
        != done
    &&& forall|k: int|
        0 <= k < params.len() ==> {
            let x = (#[trigger] params[k]).0;
            &&& m.contains_key(x)
            &&& if k == c.acc_idx || k == c.r_idx {
                q.op(m[x]) == Op::Integer(0)
            } else {
                m[x] == args[k]
            }
        }
    &&& forall|b: BasicBlock, k: int|
        c.region.contains(b) && #[trigger] in_nest(p, b, c.latch, k) ==> has_copy(p, q, pairs, m, p.block(b).insts[k])
    &&& m.contains_key(c.final_acc.0)
    &&& q.op(last) == Op::Jump(done)
    &&& q.args(last) == seq![m[c.final_acc.0]]
}

proof fn lemma_sent_new(pairs: Seq<(BasicBlock, BasicBlock)>, blocks: Seq<BasicBlock>, n: int, b: BasicBlock, from: int)
    requires
        0 <= from,
        pairs.len() == blocks.len(),
        n + pairs.len() <= usize::MAX,
        0 <= n,
        forall|j: int| 0 <= j < pairs.len() ==> #[trigger] pairs[j] == (blocks[j], BasicBlock((n + j) as usize)),
    ensures
        sent(pairs, b, from) matches Some(x) ==> n <= x.0 < n + pairs.len(),
        (exists|j: int| from <= j < blocks.len() && #[trigger] blocks[j] == b) ==> sent(pairs, b, from) is Some,
        sent(pairs, b, from) is Some ==> blocks.contains(b),
    decreases pairs.len() - from,
{
    if from < pairs.len() {
        assert(pairs[from] == (blocks[from], BasicBlock((n + from) as usize)));
        lemma_sent_new(pairs, blocks, n, b, from + 1);
        if pairs[from].0 == b {
            assert(blocks[from] == b);
        } else if exists|j: int| from <= j < blocks.len() && #[trigger] blocks[j] == b {
            let j = choose|j: int| from <= j < blocks.len() && #[trigger] blocks[j] == b;
            assert(from + 1 <= j < blocks.len() && blocks[j] == b);
        }
    }
}

#[verifier::rlimit(100)]
#[verifier::spinoff_prover]
proof fn lemma_once(p: ProgramV, f: Function, c: OuterV, pre: BasicBlock, args: Seq<Inst>)
    requires
        is_copyable(p, f, c),
        args.len() == p.block(c.header).params.len(),
        p.blocks.len() + p.func(f).blocks.len() + 2 <= usize::MAX,
        once_built(p, f, c, pre, args).0.insts.len() < usize::MAX,
    ensures
        ({
            let (q, entry, done) = once_built(p, f, c, pre, args);
            let (pairs, m) = nest_of(p, f, c, pre, args);
            &&& insts_grow(p, q)
            &&& p.blocks.len() < q.blocks.len() <= p.blocks.len() + p.func(f).blocks.len() + 1
            &&& forall|x: int| 0 <= x < p.blocks.len() ==> #[trigger] q.blocks[x] == p.blocks[x]
            &&& done.0 == p.blocks.len()
            &&& q.block(done).insts.len() == 0
            &&& q.block(done).params.len() == 1
            &&& p.insts.len() <= q.block(done).params[0].0 < q.insts.len()
            &&& entry == moved_block(pairs, c.entry)
            &&& runs_once(p, q, c, args, pairs, m, done)
            &&& forall|x: BasicBlock| (#[trigger] sent(pairs, x, 0)) matches Some(y) ==> y.0 >= p.blocks.len()
        }),
{
    let (q, entry, done) = once_built(p, f, c, pre, args);
    let params = p.block(c.header).params;
    let zero = p.next_inst();
    let p1 = literal_made(p, 0);
    let m0 = params_mapped(params, args, zero, c.acc_idx, c.r_idx, 0, Map::empty());
    let order = in_order(p1.func(f).blocks, c.region, 0, Seq::empty());
    let p2 = p1.basic_block("irh_done"@, seq![Type::I32]);
    let st0 = CopyV { p: p2, pairs: Seq::empty(), m: m0, anchor: pre };
    let st = blocks_copied(st0, f, "irh_"@, ""@, order, 0);
    let p3 = st.p.insert_bb_after(f, st.anchor, done);
    let fuel = p3.insts.len();
    let (p4, m4) = bodies_copied(p3, f, st.pairs, st.m, order, c.latch, 0, fuel);
    let (p5, m5, last) = cloned(p4, f, st.pairs, m4, c.final_acc, fuel);
    let d = moved_block(st.pairs, c.latch);
    let a6 = p5.push_inst(Op::Jump(done), seq![last], Type::Unit, false);
    assert(q == a6.append(d, p5.next_inst()));
    assert(a6.insts.len() == p5.insts.len() + 1 && q.insts.len() == a6.insts.len() && q.blocks.len() == p5.blocks.len()) by {
        reveal(ProgramV::push_inst);
        reveal(ProgramV::set_block_insts);
    }
    assert(p3.insts == st.p.insts && p3.blocks == st.p.blocks) by {
        reveal(ProgramV::set_func_blocks);
    }
    assert(p1.insts.len() == p.insts.len() + 1 && p1.blocks == p.blocks && p1.funcs == p.funcs) by {
        reveal(ProgramV::push_inst);
    }
    crate::copying::lemma_cloned_grows(p4, f, st.pairs, m4, c.final_acc, fuel);
    lemma_bodies_grow(p3, f, st.pairs, st.m, order, c.latch, 0, fuel);
    lemma_shells_longer(st0, f, "irh_"@, ""@, order, 0);
    assert(p2.insts.len() == p1.insts.len() + 1 && p2.blocks.len() == p.blocks.len() + 1) by {
        reveal(ProgramV::push_block);
        lemma_params_longer(p1.push_block("irh_done"@), done, seq![Type::I32], 0);
    }
    lemma_pushed(p, Op::Integer(0), Seq::empty(), Type::I32, pre);
    lemma_copies_grow(st0, f, "irh_"@, ""@, order, 0);
    lemma_in_order_len(p1.func(f).blocks, c.region, 0, Seq::empty());
    lemma_new_block(p1, "irh_done"@, seq![Type::I32]);
    lemma_in_order(p1.func(f).blocks, c.region, 0, Seq::empty());
    assert(p1.func(f).blocks.skip(0) =~= p1.func(f).blocks);
    assert(p2.funcs == p.funcs);
    assert forall|x: int| 0 <= x < p.blocks.len() implies #[trigger] p2.blocks[x] == p.blocks[x] by {}
    assert forall|j: int| 0 <= j < order.len() implies c.region.contains(#[trigger] order[j]) && order[j].0 < p.blocks.len()
        && p2.block(order[j]) == p.block(order[j]) by {
        assert(order.contains(order[j]));
        assert(p2.blocks[order[j].0 as int] == p.blocks[order[j].0 as int]);
    }
    assert forall|b: BasicBlock| #[trigger] c.region.contains(b) implies order.contains(b) by {
        assert(p.func(f).blocks.contains(b));
        assert(p1.func(f).blocks.contains(b));
    }
    assert(has_shells(p2, m0, f, order, st0, 0)) by {
        assert forall|x: usize| !is_param(p2, order, 0, Inst(x)) implies #[trigger] st0.m.contains_key(x) == m0.contains_key(x)
            && (m0.contains_key(x) ==> st0.m[x] == m0[x]) by {}
    }
    lemma_shells(p2, m0, f, "irh_"@, ""@, order, st0, 0);
    let pairs = st.pairs;
    let first = p.blocks.len() as int + 1;
    assert forall|b: BasicBlock| #[trigger] sent(pairs, b, 0) is Some <==> c.region.contains(b) by {
        lemma_sent_new(pairs, order, first, b, 0);
        if c.region.contains(b) {
            let j = order.index_of(b);
            assert(order[j] == b);
        } else if sent(pairs, b, 0) is Some {
            let j = order.index_of(b);
            assert(order[j] == b);
        }
    }
    assert forall|x: int| 0 <= x < p.blocks.len() implies #[trigger] p3.blocks[x] == p.blocks[x] by {
        assert(st.p.blocks[x] == p2.blocks[x]);
    }
    assert forall|x: int| 0 <= x < p.insts.len() implies #[trigger] p3.insts[x] == p.insts[x] by {
        assert(st.p.insts[x] == p2.insts[x] && p2.insts[x] == p1.insts[x]);
    }
    assert forall|a: Inst| #[trigger] p3.parent_bb(f, a) == p.parent_bb(f, a) by {
        lemma_first_with(p3, f, a, 0);
        lemma_first_with(p, f, a, 0);
        lemma_first_with(p2, f, a, 0);
        assert(stands_alike(p2, p3, a)) by {
            assert forall|x: BasicBlock| (#[trigger] p3.block(x)).insts.contains(a) == p2.block(x).insts.contains(a) by {
                if x.0 < p2.blocks.len() {
                    assert(st.p.blocks[x.0 as int] == p2.blocks[x.0 as int]);
                } else if x.0 < p3.blocks.len() {
                    assert(p3.blocks[x.0 as int].insts.len() == 0);
                }
            }
        }
        assert(stands_alike(p, p2, a)) by {
            assert forall|x: BasicBlock| (#[trigger] p2.block(x)).insts.contains(a) == p.block(x).insts.contains(a) by {
                if x.0 < p.blocks.len() {
                    assert(p2.blocks[x.0 as int] == p.blocks[x.0 as int]);
                } else if x == done {
                    assert(p2.block(done).insts.len() == 0);
                }
            }
        }
        let s = st.p.func(f).blocks;
        assert(p3.func(f).blocks == after(s, st.anchor, done) || p3.func(f).blocks == s) by {
            reveal(ProgramV::set_func_blocks);
        }
        assert(!p2.block(done).insts.contains(a));
        lemma_first_after(p2, s, st.anchor, done, a);
        assert(first_with(p2, s, a, 0) == first_with(p2, p2.func(f).blocks, a, 0));
        lemma_first_alike(p2, p3, p3.func(f).blocks, a, 0);
        lemma_first_alike(p, p2, p2.func(f).blocks, a, 0);
        assert(p2.func(f) == p.func(f));
    }
    assert forall|a: Inst| #[trigger] copies_it(p3, f, pairs, a) implies a.0 < p.insts.len() && (forall|k: int|
        0 <= k < p3.args(a).len() ==> (#[trigger] p3.args(a)[k]).0 < p.insts.len()) by {
        let b = p3.parent_bb(f, a)->0;
        assert(sent(pairs, b, 0) is Some);
        assert(c.region.contains(b));
        lemma_held(p, f, a, 0);
        let k = p.block(b).insts.index_of(a);
        assert(p3.parent_bb(f, a) == p.parent_bb(f, a));
        assert(p.block(b).insts[k] == a);
        assert(p3.insts[a.0 as int] == p.insts[a.0 as int]);
        assert forall|j: int| 0 <= j < p3.args(a).len() implies (#[trigger] p3.args(a)[j]).0 < p.insts.len() by {
            assert(p.args(p.block(b).insts[k])[j].0 < p.insts.len());
        }
    }
    assert(closed_body(p3, f, pairs, fuel));
    assert forall|j: int| 0 <= j < order.len() implies !takes_copies(pairs, #[trigger] order[j]) by {
        if takes_copies(pairs, order[j]) {
            let k = choose|k: int| 0 <= k < pairs.len() && (#[trigger] pairs[k]).1 == order[j];
            assert(pairs[k].1.0 == first + k);
        }
    }
    assert forall|j: int| 0 <= j < order.len() implies p3.block(#[trigger] order[j]) == p.block(order[j]) by {
        assert(p3.blocks[order[j].0 as int] == p.blocks[order[j].0 as int]);
    }
    assert forall|j: int, k: int| 0 <= j < order.len() && #[trigger] in_nest(p3, order[j], c.latch, k) implies copies_it(
        p3,
        f,
        pairs,
        p3.block(order[j]).insts[k],
    ) by {
        let b = order[j];
        assert(c.region.contains(b));
        let i = p.block(b).insts[k];
        assert(p.parent_bb(f, i) == Some(b));
        assert(p3.parent_bb(f, i) == p.parent_bb(f, i));
        assert(p3.insts[i.0 as int] == p.insts[i.0 as int]);
        assert(sent(pairs, b, 0) is Some);
    }
    assert forall|j: int, k: int| 0 <= j < order.len() && 0 <= k < p3.block(order[j]).insts.len() implies (#[trigger] p3.block(
        order[j],
    ).insts[k]).0 < p3.insts.len() by {
        assert(c.region.contains(order[j]));
        assert(p.block(order[j]).insts[k].0 < p.insts.len());
    }
    assert(in_progress(p3, f, pairs, st.m, p3, st.m, Set::empty()));
    lemma_bodies_copied(p3, f, pairs, st.m, p3, st.m, order, c.latch, 0, fuel, fuel);
    assert(m4.contains_key(c.final_acc.0)) by {
        let b = choose|b: BasicBlock| #[trigger]
            c.region.contains(b) && (p.block(b).params.contains(c.final_acc) || exists|k: int|
                in_nest(p, b, c.latch, k) && #[trigger] p.block(b).insts[k] == c.final_acc);
        let j = order.index_of(b);
        assert(order.contains(b));
        assert(order[j] == b);
        if p.block(b).params.contains(c.final_acc) {
            assert(is_param(p2, order, order.len() as int, c.final_acc));
            assert(st.m.contains_key(c.final_acc.0));
        } else {
            let k = choose|k: int| in_nest(p, b, c.latch, k) && #[trigger] p.block(b).insts[k] == c.final_acc;
            assert(in_nest(p3, order[j], c.latch, k));
        }
    }
    assert(!p4.inst(c.final_acc).global) by {
        if c.final_acc.0 < p.insts.len() {
            assert(p4.insts[c.final_acc.0 as int] == p3.insts[c.final_acc.0 as int]);
        } else {
            let b = choose|b: BasicBlock| #[trigger]
                c.region.contains(b) && (p.block(b).params.contains(c.final_acc) || exists|k: int|
                    in_nest(p, b, c.latch, k) && #[trigger] p.block(b).insts[k] == c.final_acc);
            if p.block(b).params.contains(c.final_acc) {
                let s = p.block(b).params;
                assert(s[s.index_of(c.final_acc)] == c.final_acc);
            }
        }
    }
    assert(p5 == p4 && last == m4[c.final_acc.0]);
    assert(nest_of(p, f, c, pre, args) == (pairs, m4));
    assert(order.contains(c.latch));
    lemma_sent_new(pairs, order, first, c.latch, 0);
    assert(sent(pairs, c.latch, 0) is Some);
    assert(d.0 >= first);
    assert(d.0 < p4.blocks.len());
    lemma_pushed(p5, Op::Jump(done), seq![last], Type::Unit, d);
    lemma_appended(a6, d, p5.next_inst());
    assert forall|x: int| 0 <= x < first implies #[trigger] q.blocks[x] == p3.blocks[x] by {
        assert(q.blocks[x] == a6.blocks[x] && a6.blocks[x] == p5.blocks[x]);
        let b = BasicBlock(x as usize);
        assert(!takes_copies(pairs, b)) by {
            if takes_copies(pairs, b) {
                let k = choose|k: int| 0 <= k < pairs.len() && (#[trigger] pairs[k]).1 == b;
                assert(pairs[k].1.0 == first + k);
            }
        }
        assert(p4.block(b) == p3.block(b));
    }
    assert forall|x: int| 0 <= x < p.blocks.len() implies #[trigger] q.blocks[x] == p.blocks[x] by {
        assert(q.blocks[x] == p3.blocks[x]);
    }
    assert(q.block(done) == p2.block(done)) by {
        assert(q.blocks[done.0 as int] == p3.blocks[done.0 as int]);
        assert(st.p.blocks[done.0 as int] == p2.blocks[done.0 as int]);
    }
    assert forall|x: int| 0 <= x < p4.insts.len() implies #[trigger] q.insts[x] == p4.insts[x] by {
        assert(a6.insts[x] == p5.insts[x]);
    }
    assert forall|x: int| 0 <= x < p.insts.len() implies #[trigger] q.insts[x] == p.insts[x] by {
        assert(q.insts[x] == p4.insts[x] && p4.insts[x] == p3.insts[x]);
    }
    assert(q.op(zero) == Op::Integer(0)) by {
        let x = zero.0 as int;
        assert(q.insts[x] == p4.insts[x] && p4.insts[x] == p3.insts[x]);
        assert(st.p.insts[x] == p2.insts[x] && p2.insts[x] == p1.insts[x]);
    }
    lemma_params_mapped(params, args, zero, c.acc_idx, c.r_idx, 0, Map::empty());
    assert forall|k: int| 0 <= k < params.len() implies ({
        let x = (#[trigger] params[k]).0;
        &&& m4.contains_key(x)
        &&& if k == c.acc_idx || k == c.r_idx {
            q.op(m4[x]) == Op::Integer(0)
        } else {
            m4[x] == args[k]
        }
    }) by {
        let x = params[k];
        assert(m0.contains_key(x.0));
        assert(!is_param(p2, order, order.len() as int, Inst(x.0))) by {
            assert(x == Inst(x.0));
            if is_param(p2, order, order.len() as int, x) {
                let j = choose|j: int| 0 <= j < order.len() && p2.block(#[trigger] order[j]).params.contains(x);
                assert(c.region.contains(order[j]));
                assert(!p.block(order[j]).params.contains(params[k]));
            }
        }
        assert(st.m.contains_key(x.0) && st.m[x.0] == m0[x.0]);
    }
    assert forall|b: BasicBlock, k: int| c.region.contains(b) && #[trigger] in_nest(p, b, c.latch, k) implies has_copy(
        p,
        q,
        pairs,
        m4,
        p.block(b).insts[k],
    ) by {
        let i = p.block(b).insts[k];
        assert(order.contains(b));
        let j = order.index_of(b);
        assert(order[j] == b);
        assert(in_nest(p3, order[j], c.latch, k));
        assert(m4.contains_key(i.0));
        assert(!st.m.contains_key(i.0)) by {
            assert(!(p.op(i) is BlockArgRef));
            if st.m.contains_key(i.0) {
                assert(i == Inst(i.0));
                if is_param(p2, order, order.len() as int, i) {
                    let z = choose|z: int| 0 <= z < order.len() && p2.block(#[trigger] order[z]).params.contains(i);
                    assert(c.region.contains(order[z]));
                    let s = p.block(order[z]).params;
                    assert(s[s.index_of(i)] == i);
                } else {
                    assert(m0.contains_key(i.0));
                    if forall|z: int| 0 <= z < params.len() ==> (#[trigger] params[z]).0 != i.0 {
                        assert(m0.contains_key(i.0) == Map::<usize, Inst>::empty().contains_key(i.0));
                    } else {
                        let z = choose|z: int| 0 <= z < params.len() && (#[trigger] params[z]).0 == i.0;
                        assert(params[z] == i);
                    }
                }
            }
        }
        assert(is_faithful(p3, f, pairs, p4, m4, i.0));
        let y = m4[i.0];
        assert(q.insts[y.0 as int] == p4.insts[y.0 as int]);
        assert(p3.insts[i.0 as int] == p.insts[i.0 as int]);
        assert(i == Inst(i.0));
        assert forall|z: int| 0 <= z < p.args(i).len() implies #[trigger] q.args(y)[z] == stand(p, m4, p.args(i)[z]) by {
            let a = p.args(i)[z];
            assert(a.0 < p.insts.len());
            assert(p3.insts[a.0 as int] == p.insts[a.0 as int]);
            assert(p3.args(i)[z] == a);
            assert(p4.args(y)[z] == stand(p3, m4, a));
        }
    }
    assert forall|b: BasicBlock| #[trigger] c.region.contains(b) implies moved_block(pairs, b).0 >= p.blocks.len()
        && moved_block(pairs, b) != done by {
        assert(sent(pairs, b, 0) is Some);
        lemma_sent_new(pairs, order, first, b, 0);
    }
    assert(q.block(d).insts.last() == p5.next_inst());
    assert forall|x: BasicBlock| (#[trigger] sent(pairs, x, 0)) is Some implies (sent(pairs, x, 0)->0).0 >= p.blocks.len() by {
        lemma_sent_new(pairs, order, first, x, 0);
    }
}

proof fn lemma_users(p: ProgramV, b: BasicBlock, from: int, found: Seq<Inst>)
    requires
        0 <= from,
        p.insts.len() <= usize::MAX,
        forall|k: int| 0 <= k < found.len() ==> p.inst(#[trigger] found[k]).targets(b) && found[k].0 < p.insts.len(),
    ensures
        forall|k: int|
            0 <= k < p.block_users_from(b, from, found).len() ==> p.inst(
                #[trigger] p.block_users_from(b, from, found)[k],
            ).targets(b) && p.block_users_from(b, from, found)[k].0 < p.insts.len(),
    decreases p.insts.len() - from,
{
    if from < p.insts.len() {
        if p.insts[from].targets(b) {
            lemma_users(p, b, from + 1, found.push(Inst(from as usize)));
        } else {
            lemma_users(p, b, from + 1, found);
        }
    }
}

proof fn lemma_placed(p: ProgramV, f: Function, users: Seq<Inst>, b: BasicBlock, from: int, found: Seq<Inst>)
    requires
        0 <= from,
        forall|k: int| 0 <= k < users.len() ==> p.inst(#[trigger] users[k]).targets(b),
        forall|k: int| 0 <= k < found.len() ==> p.inst(#[trigger] found[k]).targets(b),
    ensures
        forall|k: int|
            0 <= k < placed_users(p, f, users, from, found).len() ==> p.inst(
                #[trigger] placed_users(p, f, users, from, found)[k],
            ).targets(b),
    decreases users.len() - from,
{
    if from < users.len() {
        lemma_placed(p, f, users, b, from + 1, found);
        lemma_placed(p, f, users, b, from + 1, found.push(users[from]));
    }
}

/// Only transfers to the header are filled up, and those that pass enough stay.
proof fn lemma_edges_filled(p: ProgramV, users: Seq<Inst>, header: BasicBlock, n: nat, from: int)
    requires
        0 <= from <= users.len(),
    ensures
        ({
            let q = edges_filled(p, users, header, n, from);
            &&& q.blocks == p.blocks
            &&& q.funcs == p.funcs
            &&& q.insts.len() >= p.insts.len()
            &&& forall|i: int|
                0 <= i < p.insts.len() && i <= usize::MAX && !users.contains(Inst(i as usize)) ==> #[trigger] q.insts[i]
                    == p.insts[i]
            &&& forall|i: int|
                0 <= i < p.insts.len() && p.insts[i].op == Op::Jump(header) && p.insts[i].args.len() == n ==> (
                #[trigger] q.insts[i]).op == p.insts[i].op && q.insts[i].args == p.insts[i].args
        }),
    decreases users.len() - from,
{
    if from < users.len() {
        let t = users[from];
        let q = edge_filled(p, t, header, n);
        reveal(ProgramV::push_inst);
        reveal(ProgramV::set_inst);
        lemma_edges_filled(q, users, header, n, from + 1);
        let r = edges_filled(p, users, header, n, from);
        assert(r == edges_filled(q, users, header, n, from + 1));
        assert forall|i: int| 0 <= i < p.insts.len() && i <= usize::MAX && !users.contains(Inst(i as usize)) implies
            #[trigger] r.insts[i] == p.insts[i] by {
            assert(users.contains(users[from]));
            assert(q.insts[i] == p.insts[i]);
        }
        assert forall|i: int|
            0 <= i < p.insts.len() && p.insts[i].op == Op::Jump(header) && p.insts[i].args.len() == n implies (
        #[trigger] r.insts[i]).op == p.insts[i].op && r.insts[i].args == p.insts[i].args by {
            assert(q.insts[i].op == p.insts[i].op && q.insts[i].args == p.insts[i].args);
        }
    }
}

/// Only the end of the latch and the end of the block before the loop lead to the header, which has two ways to go, one of
/// them out of the loop.
pub open spec fn is_entered_twice(p: ProgramV, c: OuterV, pre: BasicBlock) -> bool {
    let t = p.terminator(c.header);
    &&& forall|i: Inst| #[trigger]
        p.inst(i).targets(c.header) ==> i == p.terminator(pre) || i == p.terminator(c.latch)
    &&& t != p.terminator(pre)
    &&& t != p.terminator(c.latch)
    &&& p.terminator(pre) != p.terminator(c.latch)
    &&& p.op(t) matches Op::Branch(x, y, n)
    &&& n + 1 <= p.args(t).len()
    &&& (x == c.exit) != (y == c.exit)
    &&& pre.0 < p.blocks.len()
    &&& pre != c.header
    &&& p.op(p.terminator(pre)) == Op::Jump(c.header)
    &&& forall|b: BasicBlock, k: int|
        c.region.contains(b) && #[trigger] in_nest(p, b, c.latch, k) ==> p.block(b).insts[k] != p.terminator(pre)
            && p.block(b).insts[k] != p.terminator(c.latch)
}

/// The loop adds in each round what it gets as a further parameter, from block `d`, and moves its counter: it goes from
/// its header to block `x` and back, or leaves as it did.
pub open spec fn adds_the_same(
    p: ProgramV,
    q: ProgramV,
    c: OuterV,
    args: Seq<Inst>,
    d: BasicBlock,
    x: BasicBlock,
) -> bool {
    let params = p.block(c.header).params;
    let t = p.terminator(c.header);
    let given = q.block(c.header).params.last();
    let (step, op) = step_of(p, c)->0;
    let insts = q.block(x).insts;
    let first = q.terminator(d);
    &&& q.block(c.header).params == params.push(given)
    &&& given.0 >= p.insts.len()
    &&& q.block(c.header).insts == p.block(c.header).insts
    &&& q.arg(t, 0) == p.arg(t, 0)
    &&& p.op(t) matches Op::Branch(y, z, _)
    &&& if z == c.exit {
        q.op(t) == Op::Branch(x, z, 0) && q.args(t) == seq![p.arg(t, 0)] + p.f_args(t)
    } else {
        q.op(t) == Op::Branch(y, x, p.t_args(t).len() as usize) && q.args(t) == seq![p.arg(t, 0)] + p.t_args(t)
    }
    &&& x.0 >= p.blocks.len()
    &&& q.block(x).params.len() == 0
    &&& insts.len() == 3
    &&& forall|k: int| 0 <= k < 3 ==> (#[trigger] insts[k]).0 >= p.insts.len()
    &&& q.op(insts[0]) == Op::Binary(BinaryOp::Add)
    &&& q.args(insts[0]) == seq![params[c.acc_idx], given]
    &&& q.op(insts[1]) == Op::Binary(op)
    &&& q.args(insts[1]) == seq![params[c.r_idx], step]
    &&& q.op(insts[2]) == Op::Jump(c.header)
    &&& q.args(insts[2]).len() == params.len() + 1
    &&& forall|k: int|
        0 <= k < params.len() ==> #[trigger] q.args(insts[2])[k] == if k == c.r_idx {
            insts[1]
        } else if k == c.acc_idx {
            insts[0]
        } else {
            params[k]
        }
    &&& q.args(insts[2]).last() == given
    &&& q.block(d).insts.len() == 1
    &&& q.block(d).params.len() == 1
    &&& first.0 >= p.insts.len()
    &&& q.op(first) == Op::Jump(c.header)
    &&& q.args(first) == args.push(q.block(d).params[0])
}

#[verifier::rlimit(100)]
#[verifier::spinoff_prover]
proof fn lemma_reduced(
    p: ProgramV,
    s: ProgramV,
    f: Function,
    c: OuterV,
    pre: BasicBlock,
    args: Seq<Inst>,
    done: BasicBlock,
    step: Inst,
    op: BinaryOp,
)
    requires
        insts_grow(p, s),
        forall|x: int| 0 <= x < p.blocks.len() ==> #[trigger] s.blocks[x] == p.blocks[x],
        p.blocks.len() <= done.0 < s.blocks.len(),
        s.block(done).insts.len() == 0,
        s.block(done).params.len() == 1,
        s.blocks.len() < usize::MAX,
        c.header.0 < p.blocks.len(),
        args.len() == p.block(c.header).params.len(),
        0 <= c.acc_idx < args.len(),
        0 <= c.r_idx < args.len(),
        step_of(p, c) == Some((step, op)),
        is_entered_twice(p, c, pre),
        loop_reduced(s, f, c, args, p.block(c.header).params, done, step, op).insts.len() < usize::MAX,
    ensures
        ({
            let q = loop_reduced(s, f, c, args, p.block(c.header).params, done, step, op);
            let x = BasicBlock(s.blocks.len() as usize);
            &&& adds_the_same(p, q, c, args, done, x)
            &&& q.insts.len() >= s.insts.len()
            &&& forall|i: Inst|
                i.0 < s.insts.len() && i != p.terminator(c.header) && !s.inst(i).targets(c.header) ==> #[trigger] q.inst(i)
                    == s.inst(i)
            &&& forall|b: BasicBlock| b.0 < s.blocks.len() && b != c.header && b != done ==> #[trigger] q.block(b) == s.block(b)
        }),
{
    let params = p.block(c.header).params;
    let h = c.header;
    let n = s.insts.len() as int;
    let t = p.terminator(h);
    let q = loop_reduced(s, f, c, args, params, done, step, op);
    let carrier = s.next_inst();
    let p1 = s.add_param(h, Type::I32);
    let a2 = p1.push_inst(Op::Jump(h), args.push(nth(p1.block(done).params, 0)), Type::Unit, false);
    let p2 = a2.append(done, p1.next_inst());
    let users = placed_users(p2, f, p2.block_users(h), 0, Seq::empty());
    let p3 = edges_filled(p2, users, h, p2.block(h).params.len(), 0);
    let latch = p3.next_block();
    let b4 = p3.basic_block("irh_latch"@, Seq::empty());
    let p4 = b4.insert_bb_after(f, done, latch);
    let p5 = binary_made(p4, BinaryOp::Add, nth(params, c.acc_idx), carrier);
    let p6 = binary_made(p5, op, nth(params, c.r_idx), step);
    let back_args = params.update(c.acc_idx, p4.next_inst()).update(c.r_idx, p5.next_inst()).push(carrier);
    let a7 = p6.push_inst(Op::Jump(h), back_args, Type::Unit, false);
    let b7 = a7.append(latch, p4.next_inst());
    let c7 = b7.append(latch, p5.next_inst());
    let p7 = c7.append(latch, p6.next_inst());
    assert(s.blocks[h.0 as int] == p.blocks[h.0 as int]);
    assert(t.0 < p.insts.len()) by {
        assert(p.op(t) is Branch);
    }
    assert(p1.insts.len() == n + 1 && a2.insts.len() == n + 2 && p2.insts.len() == n + 2) by {
        reveal(ProgramV::push_inst);
        reveal(ProgramV::set_block_params);
        reveal(ProgramV::set_block_insts);
    }
    assert(b4.insts.len() == p3.insts.len()) by {
        reveal(ProgramV::push_block);
    }
    assert(p4.insts == b4.insts && p4.blocks == b4.blocks) by {
        reveal(ProgramV::set_func_blocks);
    }
    assert(q.insts.len() == p3.insts.len() + 3) by {
        reveal(ProgramV::push_inst);
        reveal(ProgramV::set_inst);
        reveal(ProgramV::set_block_insts);
    }
    lemma_edges_filled(p2, users, h, p2.block(h).params.len(), 0);
    let m = p3.insts.len() as int;
    assert(p1.blocks.len() == s.blocks.len() && p1.block(h).params == params.push(carrier) && p1.block(h).insts == s.block(
        h,
    ).insts && p1.insts[n] == (InstV { op: Op::BlockArgRef, args: Seq::empty(), ty: Type::I32, global: false, name: None })
        && insts_grow(s, p1) && forall|b: BasicBlock| b != h ==> #[trigger] p1.block(b) == s.block(b)) by {
        reveal(ProgramV::push_inst);
        reveal(ProgramV::set_block_params);
    }
    let d_param = s.block(done).params[0];
    assert(nth(p1.block(done).params, 0) == d_param);
    let jump = p1.next_inst();
    lemma_pushed(p1, Op::Jump(h), args.push(d_param), Type::Unit, done);
    lemma_appended(a2, done, jump);
    assert(p2.insts[n + 1].op == Op::Jump(h) && p2.insts[n + 1].args == args.push(d_param));
    assert forall|b: BasicBlock| b != done implies #[trigger] p2.block(b) == p1.block(b) by {
        if b.0 < p1.blocks.len() {
            assert(a2.blocks[b.0 as int] == p1.blocks[b.0 as int]);
            assert(p2.blocks[b.0 as int] == a2.blocks[b.0 as int]);
        }
    }
    assert(p2.block(done).insts =~= seq![jump]);
    assert(p2.block(done).params == s.block(done).params);
    assert forall|i: int| 0 <= i < n implies #[trigger] p2.insts[i] == s.insts[i] by {
        assert(a2.insts[i] == p1.insts[i] && p1.insts[i] == s.insts[i]);
    }
    assert(p2.insts[n] == p1.insts[n]) by {
        assert(a2.insts[n] == p1.insts[n]);
    }
    lemma_users(p2, h, 0, Seq::empty());
    lemma_placed(p2, f, p2.block_users(h), h, 0, Seq::empty());
    assert forall|i: Inst| users.contains(i) implies #[trigger] p2.inst(i).targets(h) by {
        let k = users.index_of(i);
        assert(users[k] == i);
    }
    assert forall|i: Inst| i.0 < n && !s.inst(i).targets(h) implies #[trigger] p3.inst(i) == s.inst(i) by {
        assert(p2.insts[i.0 as int] == s.insts[i.0 as int]);
        assert(!p2.inst(i).targets(h));
        assert(!users.contains(i));
        assert(i == Inst(i.0));
        assert(p3.insts[i.0 as int] == p2.insts[i.0 as int]);
    }
    assert(p3.insts[n + 1].op == Op::Jump(h) && p3.insts[n + 1].args == args.push(d_param));
    assert(!s.inst(t).targets(h)) by {
        assert(s.insts[t.0 as int] == p.insts[t.0 as int]);
        assert(!p.inst(t).targets(h));
    }
    lemma_new_block(p3, "irh_latch"@, Seq::empty());
    assert(latch.0 == s.blocks.len());
    lemma_binary_made(p4, BinaryOp::Add, nth(params, c.acc_idx), carrier, latch);
    lemma_binary_made(p5, op, nth(params, c.r_idx), step, latch);
    lemma_pushed(p6, Op::Jump(h), back_args, Type::Unit, latch);
    lemma_appended(a7, latch, p4.next_inst());
    lemma_appended(b7, latch, p5.next_inst());
    lemma_appended(c7, latch, p6.next_inst());
    assert(p7.insts == a7.insts);
    assert(p7.insts[m] == p5.insts[m]) by {
        assert(a7.insts[m] == p6.insts[m] && p6.insts[m] == p5.insts[m]);
    }
    assert(p7.insts[m + 1] == p6.insts[m + 1]);
    assert forall|i: int| 0 <= i < m implies #[trigger] p7.insts[i] == p3.insts[i] by {
        assert(a7.insts[i] == p6.insts[i] && p6.insts[i] == p5.insts[i] && p5.insts[i] == p4.insts[i]);
        assert(b4.insts[i] == p3.insts[i]);
    }
    assert(p7.block(latch).insts =~= seq![p4.next_inst(), p5.next_inst(), p6.next_inst()]);
    assert forall|b: BasicBlock| b.0 < s.blocks.len() implies #[trigger] p7.block(b) == p2.block(b) by {
        let y = b.0 as int;
        assert(p7.blocks[y] == c7.blocks[y] && c7.blocks[y] == b7.blocks[y] && b7.blocks[y] == a7.blocks[y]);
        assert(a7.blocks[y] == p6.blocks[y] && p6.blocks[y] == p5.blocks[y] && p5.blocks[y] == p4.blocks[y]);
        assert(b4.blocks[y] == p3.blocks[y]);
    }
    assert(p7.block(h) == p2.block(h) && p7.terminator(h) == t);
    assert(p7.inst(t) == p.inst(t)) by {
        assert(p7.insts[t.0 as int] == p3.insts[t.0 as int]);
        assert(p3.inst(t) == s.inst(t));
        assert(s.insts[t.0 as int] == p.insts[t.0 as int]);
    }
    reveal(ProgramV::set_inst);
    assert(q.blocks == p7.blocks);
    assert forall|i: int| 0 <= i < p7.insts.len() && i != t.0 implies #[trigger] q.insts[i] == p7.insts[i] by {}
    assert forall|i: Inst| i.0 < n && i != t && !s.inst(i).targets(h) implies #[trigger] q.inst(i) == s.inst(i) by {
        assert(q.insts[i.0 as int] == p7.insts[i.0 as int]);
        assert(p7.insts[i.0 as int] == p3.insts[i.0 as int]);
        assert(p3.inst(i) == s.inst(i));
    }
    assert forall|b: BasicBlock| b.0 < s.blocks.len() && b != h && b != done implies #[trigger] q.block(b) == s.block(b) by {
        assert(p7.block(b) == p2.block(b));
        assert(p2.block(b) == p1.block(b));
    }
    let insts = q.block(latch).insts;
    assert(q.insts[m] == p7.insts[m] && q.insts[m + 1] == p7.insts[m + 1] && q.insts[m + 2] == p7.insts[m + 2]);
    assert(insts[0] == Inst(m as usize) && insts[1] == Inst((m + 1) as usize) && insts[2] == Inst((m + 2) as usize));
    assert(q.args(insts[2]) == back_args);
    assert(q.block(h).params == params.push(carrier));
    assert(q.block(h).params.last() == carrier);
    assert(q.block(done) == p2.block(done)) by {
        assert(p7.block(done) == p2.block(done));
    }
    assert(q.terminator(done) == jump);
    assert(q.insts[n + 1] == p7.insts[n + 1] && p7.insts[n + 1] == p3.insts[n + 1]);
    assert(q.block(latch).params.len() == 0) by {
        let y = latch.0 as int;
        assert(p7.block(latch).params == c7.block(latch).params && c7.block(latch).params == b7.block(latch).params
            && b7.block(latch).params == a7.block(latch).params);
        assert(a7.blocks == p6.blocks && p6.blocks == p5.blocks && p5.blocks == p4.blocks);
    }
    assert(seq![p.arg(t, 0)] + Seq::empty() + p.f_args(t) =~= seq![p.arg(t, 0)] + p.f_args(t));
    assert(seq![p.arg(t, 0)] + p.t_args(t) + Seq::empty() =~= seq![p.arg(t, 0)] + p.t_args(t));
    assert(p7.arg(t, 0) == p.arg(t, 0) && p7.t_args(t) == p.t_args(t) && p7.f_args(t) == p.f_args(t));
}

proof fn lemma_reduced_longer(
    p: ProgramV,
    f: Function,
    c: OuterV,
    args: Seq<Inst>,
    params: Seq<Inst>,
    done: BasicBlock,
    step: Inst,
    op: BinaryOp,
)
    ensures
        loop_reduced(p, f, c, args, params, done, step, op).insts.len() > p.insts.len(),
{
    let p1 = p.add_param(c.header, Type::I32);
    let p2 = p1.push_inst(Op::Jump(c.header), args.push(nth(p1.block(done).params, 0)), Type::Unit, false).append(
        done,
        p1.next_inst(),
    );
    let users = placed_users(p2, f, p2.block_users(c.header), 0, Seq::empty());
    lemma_edges_filled(p2, users, c.header, p2.block(c.header).params.len(), 0);
    reveal(ProgramV::push_inst);
    reveal(ProgramV::push_block);
    reveal(ProgramV::set_block_params);
    reveal(ProgramV::set_block_insts);
    reveal(ProgramV::set_func_blocks);
    reveal(ProgramV::set_inst);
}

/// The loop is made to add the same in every round. The block before it goes to a copy of the nest, which runs once, from
/// zero, with what the loop was given; the copy passes what it adds on to a block that enters the loop with what it was
/// given and with that; and the loop adds it in each round, and leaves when and with what it left.
#[verifier::rlimit(60)]
#[verifier::spinoff_prover]
pub proof fn the_loop_adds_what_the_nest_gave(
    p: ProgramV,
    f: Function,
    order: Seq<BasicBlock>,
    l: LoopV,
    c: OuterV,
    pre: BasicBlock,
)
    requires
        hoisted(p, f, order, l, c) is Some,
        with_preheader(p, f, order, l) == Some((p, EnsurePreheader::Existing(pre))),
        is_copyable(p, f, c),
        is_entered_twice(p, c, pre),
        0 <= c.acc_idx,
        0 <= c.r_idx,
        p.blocks.len() + p.func(f).blocks.len() + 3 <= usize::MAX,
        (hoisted(p, f, order, l, c)->0).insts.len() < usize::MAX,
    ensures
        ({
            let q = hoisted(p, f, order, l, c)->0;
            let t = p.terminator(pre);
            let args = p.args(t);
            let (pairs, m) = nest_of(p, f, c, pre, args);
            let d = goes_to(q, moved_block(pairs, c.latch));
            let h = p.terminator(c.header);
            let x = if else_goes_to(p, c.header) == c.exit {
                goes_to(q, c.header)
            } else {
                else_goes_to(q, c.header)
            };
            &&& q.terminator(pre) == t
            &&& q.op(t) == Op::Jump(moved_block(pairs, c.entry))
            &&& q.args(t).len() == 0
            &&& d.0 >= p.blocks.len()
            &&& runs_once(p, q, c, args, pairs, m, d)
            &&& adds_the_same(p, q, c, args, d, x)
            &&& forall|i: Inst|
                i.0 < p.insts.len() && i != h && i != t && i != p.terminator(c.latch) ==> #[trigger] q.inst(i) == p.inst(i)
            &&& forall|b: BasicBlock| b.0 < p.blocks.len() && b != c.header ==> #[trigger] q.block(b) == p.block(b)
        }),
{
    let q = hoisted(p, f, order, l, c)->0;
    let t = p.terminator(pre);
    let h = p.terminator(c.header);
    let args = p.args(t);
    let params = p.block(c.header).params;
    let (step, op) = step_of(p, c)->0;
    let (s, entry, done) = once_built(p, f, c, pre, args);
    let r = loop_reduced(s, f, c, args, params, done, step, op);
    let (pairs, m) = nest_of(p, f, c, pre, args);
    assert(q == r.set_inst(r.terminator(pre), Op::Jump(entry), Seq::empty(), Type::Unit));
    assert(q.insts.len() == r.insts.len() && q.blocks == r.blocks) by {
        reveal(ProgramV::set_inst);
    }
    lemma_reduced_longer(s, f, c, args, params, done, step, op);
    lemma_once(p, f, c, pre, args);
    lemma_reduced(p, s, f, c, pre, args, done, step, op);
    let x = BasicBlock(s.blocks.len() as usize);
    assert(r.block(pre) == s.block(pre));
    assert(s.blocks[pre.0 as int] == p.blocks[pre.0 as int]);
    assert(r.terminator(pre) == t);
    assert(t.0 < p.insts.len());
    reveal(ProgramV::set_inst);
    assert forall|i: Inst| i != t implies #[trigger] q.inst(i) == r.inst(i) by {}
    assert(q.terminator(pre) == t);
    let last = s.terminator(moved_block(pairs, c.latch));
    let z = moved_block(pairs, c.latch);
    assert(c.region.contains(c.latch));
    assert(z.0 >= p.blocks.len() && z != done);
    assert(z.0 < s.blocks.len()) by {
        if z.0 >= s.blocks.len() {
            assert(s.block(z).insts.len() == 0);
            assert(s.op(last) is Jump);
        }
    }
    assert(r.block(z) == s.block(z));
    assert(last.0 < s.insts.len());
    assert(last != t && last != h && !s.inst(last).targets(c.header)) by {
        assert(s.insts[t.0 as int] == p.insts[t.0 as int]);
        assert(s.insts[h.0 as int] == p.insts[h.0 as int]);
        assert(p.op(t) == Op::Jump(c.header));
    }
    assert(q.inst(last) == s.inst(last));
    assert(goes_to(q, z) == done);
    assert forall|k: int| 0 <= k < params.len() && (k == c.acc_idx || k == c.r_idx) implies q.op(m[(#[trigger] params[k]).0])
        == Op::Integer(0) by {
        let y = m[params[k].0];
        assert(s.op(y) == Op::Integer(0));
        assert(y.0 < s.insts.len());
        assert(!s.inst(y).targets(c.header));
        assert(s.insts[t.0 as int] == p.insts[t.0 as int]);
        assert(s.insts[h.0 as int] == p.insts[h.0 as int]);
        assert(r.inst(y) == s.inst(y));
    }
    assert forall|b: BasicBlock, k: int| c.region.contains(b) && #[trigger] in_nest(p, b, c.latch, k) implies has_copy(
        p,
        q,
        pairs,
        m,
        p.block(b).insts[k],
    ) by {
        let i = p.block(b).insts[k];
        assert(has_copy(p, s, pairs, m, i));
        let y = m[i.0];
        assert(!p.inst(i).targets(c.header));
        assert(!s.inst(y).targets(c.header)) by {
            match p.op(i) {
                Op::Jump(u) => {
                    assert(sent(pairs, u, 0) matches Some(v) ==> v.0 >= p.blocks.len());
                },
                Op::Branch(u, v, _) => {
                    assert(sent(pairs, u, 0) matches Some(w) ==> w.0 >= p.blocks.len());
                    assert(sent(pairs, v, 0) matches Some(w) ==> w.0 >= p.blocks.len());
                },
                _ => {},
            }
        }
        assert(r.inst(y) == s.inst(y));
        assert(q.inst(y) == r.inst(y));
        assert forall|j: int| 0 <= j < p.args(i).len() implies #[trigger] q.args(y)[j] == stand(p, m, p.args(i)[j]) by {
            assert(s.args(y)[j] == stand(p, m, p.args(i)[j]));
        }
    }
    assert(runs_once(p, q, c, args, pairs, m, done));
    assert(q.inst(h) == r.inst(h));
    let insts = r.block(x).insts;
    assert(insts[0].0 >= p.insts.len() && insts[1].0 >= p.insts.len() && insts[2].0 >= p.insts.len());
    assert(q.inst(insts[0]) == r.inst(insts[0]) && q.inst(insts[1]) == r.inst(insts[1]) && q.inst(insts[2]) == r.inst(insts[2]));
    let first = r.terminator(done);
    assert(q.inst(first) == r.inst(first));
    assert forall|k: int| 0 <= k < params.len() implies #[trigger] q.args(insts[2])[k] == if k == c.r_idx {
        insts[1]
    } else if k == c.acc_idx {
        insts[0]
    } else {
        params[k]
    } by {
        assert(r.args(insts[2])[k] == q.args(insts[2])[k]);
    }
    assert(adds_the_same(p, q, c, args, done, x));
    assert forall|i: Inst| i.0 < p.insts.len() && i != h && i != t && i != p.terminator(c.latch) implies #[trigger] q.inst(i)
        == p.inst(i) by {
        assert(s.insts[i.0 as int] == p.insts[i.0 as int]);
        assert(!p.inst(i).targets(c.header));
        assert(r.inst(i) == s.inst(i));
    }
    assert forall|b: BasicBlock| b.0 < p.blocks.len() && b != c.header implies #[trigger] q.block(b) == p.block(b) by {
        assert(s.blocks[b.0 as int] == p.blocks[b.0 as int]);
        assert(r.block(b) == s.block(b));
    }
}

} // verus!
