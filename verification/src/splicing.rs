//! A program in which a call was replaced, as a whole: the body of the callee stands between what came before the
//! call and what comes after it, and nothing is left of the call.

use vstd::prelude::*;

use crate::blocked_reduction::nth;
use crate::cloning::{moved, moved_block, sent};
use crate::inline::{
    all_places_filled, all_places_made, blocks_portable, bodies_ported, inlined, insts_portable,
    places_made, result_types, returns_routed, site_of, stand_in, stand_ins, stays_within, Site,
};
use crate::inlining::{
    copies_at, copies_fresh, ends_apart, filled_upto, is_copy, is_source, lemma_all_filled, lemma_all_places,
    lemma_all_places_size, lemma_copies_grow, lemma_filled_elsewhere, lemma_places_size, lemma_routed, lemma_routes_elsewhere, lemma_split,
    placed_upto, source, sources_separate, split_at,
};
use crate::invariant_reduction_hoisting::{block_copied, blocks_copied, paired, CopyV};
use crate::ir::{
    position, position_is_first, without, BasicBlock, Function, Inst, InstV, Op, ProgramV, Type,
};
use crate::preheader::param_types;
use crate::propagation::lemma_parent;
use crate::scoping::{placed_once, stands};

verus! {

/// What stands for what where a call was replaced: the blocks and the values of the callee's body by their copies,
/// the block behind the call, and the value that it gets for the result of the call. The call stood at place `at`.
pub struct SpliceV {
    pub block: spec_fn(BasicBlock) -> BasicBlock,
    pub value: spec_fn(Inst) -> Inst,
    pub rest: BasicBlock,
    pub result: Inst,
    pub at: int,
}

/// What an operation of the callee is in its copy: control goes to copies, and returning is going to what comes
/// after the call.
pub open spec fn sent_op(w: SpliceV, op: Op) -> Op {
    match op {
        Op::Jump(t) => Op::Jump((w.block)(t)),
        Op::Branch(t, e, n) => Op::Branch((w.block)(t), (w.block)(e), n),
        Op::Return => Op::Jump(w.rest),
        _ => op,
    }
}

/// `args` with every `call` made `result`.
pub open spec fn with_result(args: Seq<Inst>, call: Inst, result: Inst) -> Seq<Inst> {
    Seq::new(args.len(), |k: int| if args[k] == call { result } else { args[k] })
}

/// The copies of `vals`.
pub open spec fn copies(w: SpliceV, vals: Seq<Inst>) -> Seq<Inst> {
    Seq::new(vals.len(), |k: int| (w.value)(vals[k]))
}

/// The block of the call now ends where the call stood, with a jump to the copy of the callee's entry that passes the
/// arguments; what stood behind the call stands in a block of its own, which has a parameter for what the call gives
/// where it gives anything.
pub open spec fn is_entered(p: ProgramV, q: ProgramV, s: Site, w: SpliceV) -> bool {
    let insts = p.block(s.block).insts;
    let jump = q.terminator(s.block);
    let unit = p.func(s.callee).ret_ty is Unit;
    &&& 0 <= w.at < insts.len()
    &&& insts[w.at] == s.call
    &&& q.block(s.block).params == p.block(s.block).params
    &&& q.block(s.block).insts == insts.take(w.at).push(jump)
    &&& q.op(jump) == Op::Jump((w.block)(p.func(s.callee).blocks[0]))
    &&& q.args(jump) == p.args(s.call)
    &&& q.block(w.rest).insts == insts.skip(w.at + 1)
    &&& w.rest.0 >= p.blocks.len()
    &&& if unit {
        q.block(w.rest).params.len() == 0
    } else {
        &&& q.block(w.rest).params == seq![w.result]
        &&& q.ty(w.result) == p.func(s.callee).ret_ty
        &&& w.result.0 >= p.insts.len()
    }
}

/// Nothing uses the call, and instructions that there were are as they were, but that they use the result in its
/// place.
pub open spec fn is_forgotten(p: ProgramV, q: ProgramV, s: Site, w: SpliceV) -> bool {
    &&& !q.is_used(s.call)
    &&& forall|x: Inst|
        x.0 < p.insts.len() && x != s.call ==> #[trigger] q.op(x) == p.op(x) && q.ty(x) == p.ty(x) && q.args(x)
            == with_result(p.args(x), s.call, w.result)
    &&& forall|b: BasicBlock| b.0 < p.blocks.len() && b != s.block ==> #[trigger] q.block(b) == p.block(b)
}

/// Block `b` of the callee has a copy: the same parameters and instructions in the same order, each doing to copies
/// what it does.
pub open spec fn is_copied(p: ProgramV, q: ProgramV, s: Site, w: SpliceV, b: BasicBlock) -> bool {
    let c = (w.block)(b);
    &&& c.0 >= p.blocks.len()
    &&& c != w.rest
    &&& q.block(c).params == copies(w, p.block(b).params)
    &&& q.block(c).insts == copies(w, p.block(b).insts)
    &&& forall|k: int|
        0 <= k < p.block(b).params.len() ==> q.ty((w.value)(#[trigger] p.block(b).params[k])) == p.ty(
            p.block(b).params[k],
        )
    &&& forall|k: int|
        0 <= k < p.block(b).insts.len() ==> {
            let i = #[trigger] p.block(b).insts[k];
            let x = (w.value)(i);
            &&& q.op(x) == sent_op(w, p.op(i))
            &&& q.args(x) == copies(w, p.args(i))
            &&& !(p.op(i) is Return) ==> q.ty(x) == p.ty(i)
        }
}

/// Value `x` is set in the body of `g`.
pub open spec fn is_set_in(p: ProgramV, g: Function, x: Inst) -> bool {
    exists|b: BasicBlock, k: int| p.func(g).blocks.contains(b) && #[trigger] stands(p, b, k, x)
}

/// Each value of the callee's body has a copy of its own, the call has its result, and any other value stays.
pub open spec fn keeps_apart(p: ProgramV, s: Site, w: SpliceV) -> bool {
    &&& forall|x: Inst| #[trigger] is_set_in(p, s.callee, x) ==> (w.value)(x).0 >= p.insts.len() && (w.value)(x) != w.result
    &&& forall|x: Inst, y: Inst|
        #[trigger] is_set_in(p, s.callee, x) && #[trigger] is_set_in(p, s.callee, y) && (w.value)(x) == (w.value)(y)
            ==> x == y
    &&& forall|x: Inst| !is_set_in(p, s.callee, x) && x != s.call ==> #[trigger] (w.value)(x) == x
}

/// The body of the callee stands in place of the call.
pub open spec fn is_spliced(p: ProgramV, q: ProgramV, s: Site, w: SpliceV) -> bool {
    &&& is_entered(p, q, s, w)
    &&& is_forgotten(p, q, s, w)
    &&& forall|b: BasicBlock| #[trigger] p.func(s.callee).blocks.contains(b) ==> is_copied(p, q, s, w, b)
    &&& keeps_apart(p, s, w)
}

/// The call may be replaced in a program whose values stand at one place each: all of them are local, functions do
/// not share the block of the call, and the call does not use itself.
pub open spec fn is_spliceable(p: ProgramV, s: Site) -> bool {
    &&& site_of(p, s.callee) == Some(s)
    &&& placed_once(p)
    &&& forall|b: BasicBlock, k: int, x: Inst| #[trigger] stands(p, b, k, x) ==> x.0 < p.insts.len() && !p.inst(x).global
    &&& p.func(s.callee).blocks.no_duplicates()
    &&& !p.func(s.callee).blocks.contains(s.block)
    &&& forall|b: BasicBlock| #[trigger] p.func(s.callee).blocks.contains(b) ==> b.0 < p.blocks.len()
    &&& !p.args(s.call).contains(s.call)
    &&& copies_at(p, s).p.blocks.len() <= usize::MAX
    &&& inlined(p, s).insts.len() <= usize::MAX
}

/// The parameter of type `ty` that a block is made with.
pub open spec fn new_param(ty: Type) -> InstV {
    InstV { op: Op::BlockArgRef, args: Seq::empty(), ty, global: false, name: None }
}

/// `q` is `p` with instructions added.
pub open spec fn insts_grow(p: ProgramV, q: ProgramV) -> bool {
    &&& p.insts.len() <= q.insts.len()
    &&& forall|i: int| 0 <= i < p.insts.len() ==> #[trigger] q.insts[i] == p.insts[i]
}

proof fn lemma_params(p: ProgramV, b: BasicBlock, tys: Seq<Type>, from: int)
    requires
        0 <= from <= tys.len(),
        b.0 < p.blocks.len(),
        p.add_params(b, tys, from).insts.len() <= usize::MAX,
    ensures
        ({
            let q = p.add_params(b, tys, from);
            let n = p.insts.len();
            &&& insts_grow(p, q)
            &&& q.insts.len() == n + tys.len() - from
            &&& q.funcs == p.funcs
            &&& q.blocks.len() == p.blocks.len()
            &&& forall|x: int| 0 <= x < p.blocks.len() && x != b.0 ==> #[trigger] q.blocks[x] == p.blocks[x]
            &&& q.block(b).insts == p.block(b).insts
            &&& q.block(b).params == p.block(b).params + Seq::new(
                (tys.len() - from) as nat,
                |t: int| Inst((n + t) as usize),
            )
            &&& forall|t: int| 0 <= t < tys.len() - from ==> #[trigger] q.insts[n + t] == new_param(tys[from + t])
        }),
    decreases tys.len() - from,
{
    let n = p.insts.len();
    let q = p.add_params(b, tys, from);
    if from < tys.len() {
        reveal(ProgramV::push_inst);
        reveal(ProgramV::set_block_params);
        let r = p.add_param(b, tys[from]);
        lemma_params_grow(r, b, tys, from + 1);
        lemma_params(r, b, tys, from + 1);
        assert forall|i: int| 0 <= i < n implies #[trigger] q.insts[i] == p.insts[i] by {
            assert(q.insts[i] == r.insts[i]);
        }
        assert forall|t: int| 0 <= t < tys.len() - from implies #[trigger] q.insts[n + t] == new_param(tys[from + t]) by {
            if t == 0 {
                assert(q.insts[n as int] == r.insts[n as int]);
            } else {
                let u = t - 1;
                assert(q.insts[r.insts.len() + u] == new_param(tys[from + 1 + u]));
            }
        }
        assert forall|x: int| 0 <= x < p.blocks.len() && x != b.0 implies #[trigger] q.blocks[x] == p.blocks[x] by {
            assert(q.blocks[x] == r.blocks[x]);
        }
        let rest = Seq::new((tys.len() - (from + 1)) as nat, |t: int| Inst((n + 1 + t) as usize));
        assert(q.block(b).params == r.block(b).params + Seq::new(
            (tys.len() - (from + 1)) as nat,
            |t: int| Inst((r.insts.len() + t) as usize),
        ));
        assert(q.block(b).params =~= p.block(b).params + Seq::new(
            (tys.len() - from) as nat,
            |t: int| Inst((n + t) as usize),
        ));
    } else {
        assert(q.block(b).params =~= p.block(b).params + Seq::new(0, |t: int| Inst((n + t) as usize)));
    }
}

proof fn lemma_params_grow(p: ProgramV, b: BasicBlock, tys: Seq<Type>, from: int)
    ensures
        p.add_params(b, tys, from).insts.len() >= p.insts.len(),
    decreases tys.len() - from,
{
    if from < tys.len() {
        reveal(ProgramV::push_inst);
        reveal(ProgramV::set_block_params);
        lemma_params_grow(p.add_param(b, tys[from]), b, tys, from + 1);
    }
}

/// A new block has parameters of its own, and changes nothing else.
pub(crate) proof fn lemma_new_block(p: ProgramV, name: Seq<char>, tys: Seq<Type>)
    requires
        p.blocks.len() < usize::MAX,
        p.basic_block(name, tys).insts.len() <= usize::MAX,
    ensures
        ({
            let q = p.basic_block(name, tys);
            let n = p.insts.len();
            &&& insts_grow(p, q)
            &&& q.insts.len() == n + tys.len()
            &&& q.funcs == p.funcs
            &&& q.blocks.len() == p.blocks.len() + 1
            &&& forall|x: int| 0 <= x < p.blocks.len() ==> #[trigger] q.blocks[x] == p.blocks[x]
            &&& q.block(p.next_block()).insts.len() == 0
            &&& q.block(p.next_block()).params == Seq::new(tys.len(), |t: int| Inst((n + t) as usize))
            &&& forall|t: int| 0 <= t < tys.len() ==> #[trigger] q.insts[n + t] == new_param(tys[t])
        }),
{
    reveal(ProgramV::push_block);
    let r = p.push_block(name);
    let b = p.next_block();
    lemma_params(r, b, tys, 0);
    let q = p.basic_block(name, tys);
    assert forall|x: int| 0 <= x < p.blocks.len() implies #[trigger] q.blocks[x] == p.blocks[x] by {
        assert(q.blocks[x] == r.blocks[x]);
    }
    assert forall|i: int| 0 <= i < p.insts.len() implies #[trigger] q.insts[i] == p.insts[i] by {
        assert(q.insts[i] == r.insts[i]);
    }
    assert(q.block(b).params =~= Seq::new(tys.len(), |t: int| Inst((p.insts.len() + t) as usize)));
}

/// How many parameters the first `n` of `blocks` have.
pub open spec fn params_before(p: ProgramV, blocks: Seq<BasicBlock>, n: int) -> int
    decreases n,
{
    if n <= 0 {
        0
    } else {
        params_before(p, blocks, n - 1) + p.block(blocks[n - 1]).params.len()
    }
}

proof fn lemma_params_before(p: ProgramV, blocks: Seq<BasicBlock>, m: int, n: int)
    requires
        m < n,
    ensures
        0 <= m ==> params_before(p, blocks, m) + p.block(blocks[m]).params.len() <= params_before(p, blocks, n),
        0 <= params_before(p, blocks, m) <= params_before(p, blocks, n),
    decreases n,
{
    if n > 0 && m < n - 1 {
        lemma_params_before(p, blocks, m, n - 1);
    }
    if m > 0 {
        lemma_params_before(p, blocks, m - 1, m);
    }
}

/// Parameter `t` of block `j` of `blocks`.
pub open spec fn param_of(p: ProgramV, blocks: Seq<BasicBlock>, j: int, t: int) -> Inst {
    p.block(blocks[j]).params[t]
}

pub open spec fn has_param(p: ProgramV, blocks: Seq<BasicBlock>, j: int, t: int) -> bool {
    0 <= j < blocks.len() && 0 <= t < p.block(blocks[j]).params.len()
}

/// The copy of parameter `t` of block `j`, where the first copy is made in `p`.
pub open spec fn param_copy(p: ProgramV, blocks: Seq<BasicBlock>, j: int, t: int) -> Inst {
    Inst((p.insts.len() + params_before(p, blocks, j) + t) as usize)
}

/// The first `n` of `blocks` have copies, empty but for parameters, seen from the program `p` in which none had.
pub open spec fn copied_upto(p: ProgramV, blocks: Seq<BasicBlock>, st: CopyV, n: int) -> bool {
    &&& insts_grow(p, st.p)
    &&& st.p.insts.len() == p.insts.len() + params_before(p, blocks, n)
    &&& forall|i: int| p.insts.len() <= i < st.p.insts.len() ==> (#[trigger] st.p.insts[i]).args.len() == 0
        && !st.p.insts[i].global
    &&& st.p.blocks.len() == p.blocks.len() + n
    &&& forall|x: int| 0 <= x < p.blocks.len() ==> #[trigger] st.p.blocks[x] == p.blocks[x]
    &&& st.pairs.len() == n
    &&& forall|j: int|
        0 <= j < n ==> #[trigger] st.pairs[j] == (blocks[j], BasicBlock((p.blocks.len() + j) as usize))
    &&& forall|j: int|
        0 <= j < n ==> (#[trigger] st.p.blocks[p.blocks.len() + j]).insts.len() == 0 && st.p.blocks[p.blocks.len() + j].params
            == Seq::new(p.block(blocks[j]).params.len(), |t: int| param_copy(p, blocks, j, t))
    &&& forall|j: int, t: int|
        j < n && #[trigger] has_param(p, blocks, j, t) ==> st.m.contains_key(param_of(p, blocks, j, t).0)
            && st.m[param_of(p, blocks, j, t).0] == param_copy(p, blocks, j, t) && st.p.ty(param_copy(p, blocks, j, t))
            == p.ty(param_of(p, blocks, j, t))
    &&& forall|x: usize| #[trigger]
        st.m.contains_key(x) ==> exists|j: int, t: int|
            j < n && #[trigger] has_param(p, blocks, j, t) && param_of(p, blocks, j, t).0 == x
}

pub(crate) proof fn lemma_paired(from: Seq<Inst>, to: Seq<Inst>, k: int, m: Map<usize, Inst>)
    requires
        0 <= k <= from.len(),
        from.len() == to.len(),
        from.no_duplicates(),
    ensures
        ({
            let r = paired(from, to, k, m);
            &&& forall|t: int| k <= t < from.len() ==> r.contains_key((#[trigger] from[t]).0) && r[from[t].0] == to[t]
            &&& forall|x: usize|
                !from.skip(k).contains(Inst(x)) ==> #[trigger] r.contains_key(x) == m.contains_key(x) && (m.contains_key(x)
                    ==> r[x] == m[x])
        }),
    decreases from.len() - k,
{
    if k < from.len() {
        let next = m.insert(from[k].0, to[k]);
        lemma_paired(from, to, k + 1, next);
        let r = paired(from, to, k, m);
        assert(r == paired(from, to, k + 1, next));
        assert(Inst(from[k].0) == from[k]);
        assert(!from.skip(k + 1).contains(from[k])) by {
            if from.skip(k + 1).contains(from[k]) {
                let t = from.skip(k + 1).index_of(from[k]);
                assert(from[k + 1 + t] == from[k]);
            }
        }
        assert(r.contains_key(from[k].0) == next.contains_key(from[k].0));
        assert forall|x: usize| !from.skip(k).contains(Inst(x)) implies #[trigger] r.contains_key(x) == m.contains_key(x) && (
        m.contains_key(x) ==> r[x] == m[x]) by {
            assert(from.skip(k)[0] == from[k]);
            if from.skip(k + 1).contains(Inst(x)) {
                let t = from.skip(k + 1).index_of(Inst(x));
                assert(from.skip(k)[t + 1] == Inst(x));
            }
        }
    }
}

/// The parameters of `blocks` are there and all different.
pub open spec fn params_apart(p: ProgramV, blocks: Seq<BasicBlock>) -> bool {
    &&& forall|j: int, t: int| #[trigger] has_param(p, blocks, j, t) ==> param_of(p, blocks, j, t).0 < p.insts.len()
    &&& forall|j: int, t: int, a: int, b: int|
        #[trigger] has_param(p, blocks, j, t) && #[trigger] has_param(p, blocks, a, b) && param_of(p, blocks, j, t) == param_of(
            p,
            blocks,
            a,
            b,
        ) ==> j == a && t == b
}

#[verifier::rlimit(60)]
proof fn lemma_copy_step(
    p: ProgramV,
    f: Function,
    prefix: Seq<char>,
    suffix: Seq<char>,
    blocks: Seq<BasicBlock>,
    st: CopyV,
    n: int,
)
    requires
        0 <= n < blocks.len(),
        copied_upto(p, blocks, st, n),
        params_apart(p, blocks),
        forall|j: int| 0 <= j < blocks.len() ==> (#[trigger] blocks[j]).0 < p.blocks.len(),
        st.p.blocks.len() < usize::MAX,
        block_copied(st, f, prefix, suffix, blocks[n]).p.insts.len() <= usize::MAX,
    ensures
        copied_upto(p, blocks, block_copied(st, f, prefix, suffix, blocks[n]), n + 1),
{
    let b = blocks[n];
    let c = st.p.next_block();
    let name = prefix + st.p.block(b).name + suffix;
    let tys = param_types(st.p, b);
    let made = st.p.basic_block(name, tys);
    let next = block_copied(st, f, prefix, suffix, b);
    reveal(ProgramV::set_func_blocks);
    assert(next.p.insts == made.insts && next.p.blocks == made.blocks);
    lemma_new_block(st.p, name, tys);
    lemma_params_before(p, blocks, n, n + 1);
    assert(st.p.block(b) == p.block(b)) by {
        assert(st.p.blocks[b.0 as int] == p.blocks[b.0 as int]);
    }
    assert(next.p.block(b) == p.block(b)) by {
        assert(made.blocks[b.0 as int] == st.p.blocks[b.0 as int]);
    }
    let params = p.block(b).params;
    assert(tys.len() == params.len());
    assert(made.block(c).params =~= Seq::new(params.len(), |t: int| param_copy(p, blocks, n, t)));
    assert(params.no_duplicates()) by {
        assert forall|t: int, u: int| 0 <= t < params.len() && 0 <= u < params.len() && t != u implies params[t] != params[u] by {
            assert(has_param(p, blocks, n, t) && has_param(p, blocks, n, u));
            assert(param_of(p, blocks, n, t) == params[t] && param_of(p, blocks, n, u) == params[u]);
        }
    }
    lemma_paired(params, made.block(c).params, 0, st.m);
    assert(params.skip(0) =~= params);
    assert forall|i: int| 0 <= i < p.insts.len() implies #[trigger] next.p.insts[i] == p.insts[i] by {
        assert(made.insts[i] == st.p.insts[i]);
    }
    assert forall|i: int| p.insts.len() <= i < next.p.insts.len() implies (#[trigger] next.p.insts[i]).args.len() == 0
        && !next.p.insts[i].global by {
        if i < st.p.insts.len() {
            assert(made.insts[i] == st.p.insts[i]);
        } else {
            let t = i - st.p.insts.len();
            assert(made.insts[st.p.insts.len() + t] == new_param(tys[t]));
        }
    }
    assert forall|x: int| 0 <= x < p.blocks.len() implies #[trigger] next.p.blocks[x] == p.blocks[x] by {
        assert(made.blocks[x] == st.p.blocks[x]);
    }
    assert forall|j: int| 0 <= j < n + 1 implies (#[trigger] next.p.blocks[p.blocks.len() + j]).insts.len() == 0
        && next.p.blocks[p.blocks.len() + j].params == Seq::new(
        p.block(blocks[j]).params.len(),
        |t: int| param_copy(p, blocks, j, t),
    ) by {
        if j < n {
            assert(made.blocks[p.blocks.len() + j] == st.p.blocks[p.blocks.len() + j]);
        } else {
            assert(made.block(c) == made.blocks[p.blocks.len() + j]);
        }
    }
    assert forall|j: int, t: int| j < n + 1 && #[trigger] has_param(p, blocks, j, t) implies next.m.contains_key(
        param_of(p, blocks, j, t).0,
    ) && next.m[param_of(p, blocks, j, t).0] == param_copy(p, blocks, j, t) && next.p.ty(param_copy(p, blocks, j, t)) == p.ty(
        param_of(p, blocks, j, t),
    ) by {
        let x = param_of(p, blocks, j, t);
        if j == n {
            assert(params[t] == x);
            assert(made.insts[st.p.insts.len() + t] == new_param(tys[t]));
            assert(tys[t] == st.p.ty(x));
            assert(st.p.insts[x.0 as int] == p.insts[x.0 as int]);
        } else {
            assert(!params.contains(Inst(x.0))) by {
                if params.contains(x) {
                    let u = params.index_of(x);
                    assert(has_param(p, blocks, n, u) && param_of(p, blocks, n, u) == x);
                }
            }
            assert(next.m.contains_key(x.0) == st.m.contains_key(x.0));
            let y = param_copy(p, blocks, j, t);
            lemma_params_before(p, blocks, j, n);
            assert(made.insts[y.0 as int] == st.p.insts[y.0 as int]);
        }
    }
    assert forall|x: usize| #[trigger] next.m.contains_key(x) implies exists|j: int, t: int|
        j < n + 1 && #[trigger] has_param(p, blocks, j, t) && param_of(p, blocks, j, t).0 == x by {
        if params.contains(Inst(x)) {
            let t = params.index_of(Inst(x));
            assert(has_param(p, blocks, n, t) && param_of(p, blocks, n, t).0 == x);
        } else {
            assert(st.m.contains_key(x));
        }
    }
}

proof fn lemma_copies_size(st: CopyV, f: Function, prefix: Seq<char>, suffix: Seq<char>, blocks: Seq<BasicBlock>, from: int)
    requires
        0 <= from,
    ensures
        blocks_copied(st, f, prefix, suffix, blocks, from).p.insts.len() >= st.p.insts.len(),
        blocks_copied(st, f, prefix, suffix, blocks, from).p.blocks.len() >= st.p.blocks.len(),
    decreases blocks.len() - from,
{
    if from < blocks.len() {
        let b = blocks[from];
        let next = block_copied(st, f, prefix, suffix, b);
        reveal(ProgramV::push_block);
        reveal(ProgramV::set_func_blocks);
        let name = prefix + st.p.block(b).name + suffix;
        lemma_params_grow(st.p.push_block(name), st.p.next_block(), param_types(st.p, b), 0);
        lemma_params_blocks(st.p.push_block(name), st.p.next_block(), param_types(st.p, b), 0);
        lemma_copies_size(next, f, prefix, suffix, blocks, from + 1);
    }
}

proof fn lemma_params_blocks(p: ProgramV, b: BasicBlock, tys: Seq<Type>, from: int)
    ensures
        p.add_params(b, tys, from).blocks.len() == p.blocks.len(),
    decreases tys.len() - from,
{
    if from < tys.len() {
        reveal(ProgramV::push_inst);
        reveal(ProgramV::set_block_params);
        lemma_params_blocks(p.add_param(b, tys[from]), b, tys, from + 1);
    }
}

proof fn lemma_copied(
    p: ProgramV,
    f: Function,
    prefix: Seq<char>,
    suffix: Seq<char>,
    blocks: Seq<BasicBlock>,
    st: CopyV,
    n: int,
)
    requires
        0 <= n <= blocks.len(),
        copied_upto(p, blocks, st, n),
        params_apart(p, blocks),
        forall|j: int| 0 <= j < blocks.len() ==> (#[trigger] blocks[j]).0 < p.blocks.len(),
        blocks_copied(st, f, prefix, suffix, blocks, n).p.blocks.len() <= usize::MAX,
        blocks_copied(st, f, prefix, suffix, blocks, n).p.insts.len() <= usize::MAX,
    ensures
        copied_upto(p, blocks, blocks_copied(st, f, prefix, suffix, blocks, n), blocks.len() as int),
    decreases blocks.len() - n,
{
    if n < blocks.len() {
        let next = block_copied(st, f, prefix, suffix, blocks[n]);
        lemma_copies_size(next, f, prefix, suffix, blocks, n + 1);
        assert(next.p.blocks.len() == st.p.blocks.len() + 1) by {
            reveal(ProgramV::push_block);
            reveal(ProgramV::set_func_blocks);
            let name = prefix + st.p.block(blocks[n]).name + suffix;
            lemma_params_blocks(st.p.push_block(name), st.p.next_block(), param_types(st.p, blocks[n]), 0);
        }
        lemma_copy_step(p, f, prefix, suffix, blocks, st, n);
        lemma_copied(p, f, prefix, suffix, blocks, next, n + 1);
    }
}

/// Making places keeps parameters, the functions and the blocks before number `n`, and names only what has a place.
proof fn lemma_places_keep(p: ProgramV, m: Map<usize, Inst>, insts: Seq<Inst>, c: BasicBlock, from: int, n: int)
    requires
        0 <= from <= insts.len(),
        0 <= n <= c.0,
        n <= p.blocks.len(),
    ensures
        ({
            let (q, more) = places_made(p, m, insts, c, from);
            &&& q.funcs == p.funcs
            &&& q.blocks.len() == p.blocks.len()
            &&& forall|x: int| 0 <= x < n ==> #[trigger] q.blocks[x] == p.blocks[x]
            &&& forall|x: int| 0 <= x < p.blocks.len() ==> (#[trigger] q.blocks[x]).params == p.blocks[x].params
            &&& forall|x: usize|
                !insts.contains(Inst(x)) ==> #[trigger] more.contains_key(x) == m.contains_key(x) && more[x] == m[x]
        }),
    decreases insts.len() - from,
{
    if from < insts.len() {
        reveal(ProgramV::push_inst);
        reveal(ProgramV::set_block_insts);
        let place = p.next_inst();
        let p1 = p.push_inst(Op::Undef, Seq::empty(), p.ty(insts[from]), false).append(c, place);
        let m1 = m.insert(insts[from].0, place);
        lemma_places_keep(p1, m1, insts, c, from + 1, n);
        let (q, more) = places_made(p, m, insts, c, from);
        assert(Inst(insts[from].0) == insts[from] && insts.contains(insts[from]));
        assert forall|x: int| 0 <= x < n implies #[trigger] q.blocks[x] == p.blocks[x] by {
            assert(q.blocks[x] == p1.blocks[x]);
        }
        assert forall|x: int| 0 <= x < p.blocks.len() implies (#[trigger] q.blocks[x]).params == p.blocks[x].params by {
            assert(q.blocks[x].params == p1.blocks[x].params);
        }
        assert forall|x: usize| !insts.contains(Inst(x)) implies #[trigger] more.contains_key(x) == m.contains_key(x)
            && more[x] == m[x] by {
            assert(more.contains_key(x) == m1.contains_key(x));
        }
    }
}

/// No instruction of the blocks to copy has number `x`.
pub open spec fn is_no_source(p: ProgramV, pairs: Seq<(BasicBlock, BasicBlock)>, x: usize) -> bool {
    forall|j: int, k: int| #[trigger] is_source(p, pairs, j, k) ==> source(p, pairs, j, k).0 != x
}

/// Where `x` is no instruction that is copied, `more` says of it what `m` says.
spec fn stays_off(p: ProgramV, pairs: Seq<(BasicBlock, BasicBlock)>, m: Map<usize, Inst>, more: Map<usize, Inst>, x: usize) -> bool {
    is_no_source(p, pairs, x) ==> more.contains_key(x) == m.contains_key(x) && more[x] == m[x]
}

proof fn lemma_all_places_keep(
    p: ProgramV,
    q: ProgramV,
    m: Map<usize, Inst>,
    pairs: Seq<(BasicBlock, BasicBlock)>,
    from: int,
    n: int,
)
    requires
        0 <= from <= pairs.len(),
        0 <= n <= p.blocks.len(),
        q.blocks.len() == p.blocks.len(),
        forall|x: int| 0 <= x < n ==> #[trigger] q.blocks[x] == p.blocks[x],
        forall|j: int| 0 <= j < pairs.len() ==> (#[trigger] pairs[j]).0.0 < n <= pairs[j].1.0,
    ensures
        ({
            let (r, more) = all_places_made(q, m, pairs, from);
            &&& r.funcs == q.funcs
            &&& r.blocks.len() == q.blocks.len()
            &&& forall|x: int| 0 <= x < n ==> #[trigger] r.blocks[x] == p.blocks[x]
            &&& forall|x: int| 0 <= x < q.blocks.len() ==> (#[trigger] r.blocks[x]).params == q.blocks[x].params
            &&& forall|x: usize| #[trigger] stays_off(p, pairs, m, more, x)
        }),
    decreases pairs.len() - from,
{
    if from < pairs.len() {
        let b = pairs[from].0;
        let insts = q.block(b).insts;
        assert(q.blocks[b.0 as int] == p.blocks[b.0 as int]);
        let (q1, m1) = places_made(q, m, insts, pairs[from].1, 0);
        lemma_places_keep(q, m, insts, pairs[from].1, 0, n);
        assert forall|x: int| 0 <= x < n implies #[trigger] q1.blocks[x] == p.blocks[x] by {
            assert(q1.blocks[x] == q.blocks[x]);
        }
        lemma_all_places_keep(p, q1, m1, pairs, from + 1, n);
        let (r, more) = all_places_made(q, m, pairs, from);
        assert((r, more) == all_places_made(q1, m1, pairs, from + 1));
        assert forall|x: int| 0 <= x < q.blocks.len() implies (#[trigger] r.blocks[x]).params == q.blocks[x].params by {
            assert(r.blocks[x].params == q1.blocks[x].params);
        }
        assert forall|x: usize| #[trigger] stays_off(p, pairs, m, more, x) by {
            assert(stays_off(p, pairs, m1, more, x));
            if is_no_source(p, pairs, x) {
                assert(!insts.contains(Inst(x))) by {
                    if insts.contains(Inst(x)) {
                        let k = insts.index_of(Inst(x));
                        assert(is_source(p, pairs, from, k) && source(p, pairs, from, k).0 == x);
                    }
                }
                assert(m1.contains_key(x) == m.contains_key(x));
            }
        }
    }
}

proof fn lemma_filled_funcs(p: ProgramV, m: Map<usize, Inst>, pairs: Seq<(BasicBlock, BasicBlock)>, from: int)
    ensures
        all_places_filled(p, m, pairs, from).insts.len() == p.insts.len(),
    decreases pairs.len() - from,
{
    if from < pairs.len() {
        let insts = p.block(pairs[from].0).insts;
        lemma_fills_size(p, m, pairs, insts, 0);
        lemma_filled_funcs(crate::inline::places_filled(p, m, pairs, insts, 0), m, pairs, from + 1);
    }
}

proof fn lemma_fills_size(p: ProgramV, m: Map<usize, Inst>, pairs: Seq<(BasicBlock, BasicBlock)>, insts: Seq<Inst>, from: int)
    ensures
        crate::inline::places_filled(p, m, pairs, insts, from).insts.len() == p.insts.len(),
    decreases insts.len() - from,
{
    if from < insts.len() {
        reveal(ProgramV::set_inst);
        let i = insts[from];
        lemma_fills_size(
            p.set_inst(stand_in(p, m, i), moved(p.op(i), pairs), stand_ins(p, m, p.args(i)), p.ty(i)),
            m,
            pairs,
            insts,
            from + 1,
        );
    }
}

/// Routing returns changes nothing but the ends of copies.
proof fn lemma_route_keeps(p: ProgramV, pairs: Seq<(BasicBlock, BasicBlock)>, c: BasicBlock, from: int, x: Inst)
    requires
        0 <= from,
        forall|j: int| 0 <= j < pairs.len() ==> p.terminator((#[trigger] pairs[j]).1) != x,
    ensures
        returns_routed(p, pairs, c, from).inst(x) == p.inst(x),
        returns_routed(p, pairs, c, from).insts.len() == p.insts.len(),
        returns_routed(p, pairs, c, from).blocks == p.blocks,
    decreases pairs.len() - from,
{
    if from < pairs.len() {
        reveal(ProgramV::set_inst);
        let t = p.terminator(pairs[from].1);
        let q = if p.op(t) is Return {
            p.set_inst(t, Op::Jump(c), p.args(t), Type::Unit)
        } else {
            p
        };
        assert forall|j: int| 0 <= j < pairs.len() implies q.terminator((#[trigger] pairs[j]).1) != x by {
            assert(p.terminator(pairs[j].1) != x);
        }
        lemma_route_keeps(q, pairs, c, from + 1, x);
    }
}

/// A copied end that does not return stays as it is.
proof fn lemma_route_keeps_type(p: ProgramV, pairs: Seq<(BasicBlock, BasicBlock)>, c: BasicBlock, from: int, x: Inst)
    requires
        0 <= from,
        !(p.op(x) is Return),
    ensures
        returns_routed(p, pairs, c, from).inst(x) == p.inst(x),
    decreases pairs.len() - from,
{
    if from < pairs.len() {
        reveal(ProgramV::set_inst);
        let t = p.terminator(pairs[from].1);
        lemma_route_keeps_type(
            if p.op(t) is Return {
                p.set_inst(t, Op::Jump(c), p.args(t), Type::Unit)
            } else {
                p
            },
            pairs,
            c,
            from + 1,
            x,
        );
    }
}

proof fn lemma_sent_at(pairs: Seq<(BasicBlock, BasicBlock)>, from: int, j: int)
    requires
        0 <= from <= j < pairs.len(),
        forall|a: int, b: int| 0 <= a < b < pairs.len() ==> (#[trigger] pairs[a]).0 != (#[trigger] pairs[b]).0,
    ensures
        sent(pairs, pairs[j].0, from) == Some(pairs[j].1),
    decreases j - from,
{
    if from < j {
        assert(pairs[from].0 != pairs[j].0);
        lemma_sent_at(pairs, from + 1, j);
    }
}

proof fn lemma_portable(p: ProgramV, blocks: Seq<BasicBlock>, from: int, j: int)
    requires
        0 <= from <= j < blocks.len(),
        blocks_portable(p, blocks, from),
    ensures
        p.block(blocks[j]).insts.len() > 0,
        insts_portable(p, p.block(blocks[j]).insts, blocks, 0),
    decreases j - from,
{
    if from < j {
        lemma_portable(p, blocks, from + 1, j);
    }
}

proof fn lemma_inst_portable(p: ProgramV, insts: Seq<Inst>, blocks: Seq<BasicBlock>, from: int, k: int)
    requires
        0 <= from <= k < insts.len(),
        insts_portable(p, insts, blocks, from),
    ensures
        (k == insts.len() - 1) == (p.op(insts[k]) is Jump || p.op(insts[k]) is Branch || p.op(insts[k]) is Return),
        k == insts.len() - 1 ==> stays_within(p.op(insts[k]), blocks),
    decreases k - from,
{
    if from < k {
        lemma_inst_portable(p, insts, blocks, from + 1, k);
    }
}

/// No instruction uses `v`.
pub open spec fn unused(p: ProgramV, v: Inst) -> bool {
    forall|i: int| 0 <= i < p.insts.len() ==> !(#[trigger] p.insts[i]).args.contains(v)
}

/// Nothing is copied to `v`.
pub open spec fn is_no_copy(m: Map<usize, Inst>, v: Inst) -> bool {
    forall|x: usize| #[trigger] m.contains_key(x) ==> m[x] != v
}

proof fn lemma_places_unused(p: ProgramV, m: Map<usize, Inst>, insts: Seq<Inst>, c: BasicBlock, from: int, v: Inst)
    requires
        0 <= from <= insts.len(),
        unused(p, v),
        is_no_copy(m, v),
        v.0 < p.insts.len(),
        places_made(p, m, insts, c, from).0.insts.len() <= usize::MAX,
    ensures
        unused(places_made(p, m, insts, c, from).0, v),
        is_no_copy(places_made(p, m, insts, c, from).1, v),
    decreases insts.len() - from,
{
    if from < insts.len() {
        reveal(ProgramV::push_inst);
        reveal(ProgramV::set_block_insts);
        let place = p.next_inst();
        let p1 = p.push_inst(Op::Undef, Seq::empty(), p.ty(insts[from]), false).append(c, place);
        lemma_places_size(p1, m.insert(insts[from].0, place), insts, c, from + 1);
        lemma_places_unused(p1, m.insert(insts[from].0, place), insts, c, from + 1, v);
    }
}

proof fn lemma_all_places_unused(p: ProgramV, m: Map<usize, Inst>, pairs: Seq<(BasicBlock, BasicBlock)>, from: int, v: Inst)
    requires
        0 <= from,
        unused(p, v),
        is_no_copy(m, v),
        v.0 < p.insts.len(),
        all_places_made(p, m, pairs, from).0.insts.len() <= usize::MAX,
    ensures
        unused(all_places_made(p, m, pairs, from).0, v),
        is_no_copy(all_places_made(p, m, pairs, from).1, v),
    decreases pairs.len() - from,
{
    if from < pairs.len() {
        let insts = p.block(pairs[from].0).insts;
        let (q, more) = places_made(p, m, insts, pairs[from].1, 0);
        lemma_places_size(p, m, insts, pairs[from].1, 0);
        lemma_all_places_size(q, more, pairs, from + 1);
        lemma_places_unused(p, m, insts, pairs[from].1, 0, v);
        lemma_all_places_unused(q, more, pairs, from + 1, v);
    }
}

proof fn lemma_fills_unused(p: ProgramV, m: Map<usize, Inst>, pairs: Seq<(BasicBlock, BasicBlock)>, insts: Seq<Inst>, from: int, v: Inst)
    requires
        0 <= from,
        unused(p, v),
        is_no_copy(m, v),
    ensures
        unused(crate::inline::places_filled(p, m, pairs, insts, from), v),
    decreases insts.len() - from,
{
    if from < insts.len() {
        reveal(ProgramV::set_inst);
        let i = insts[from];
        let args = stand_ins(p, m, p.args(i));
        assert(!args.contains(v)) by {
            if args.contains(v) {
                let k = args.index_of(v);
                let a = p.args(i)[k];
                assert(stand_in(p, m, a) == v);
                assert(a == v);
                assert(p.insts[i.0 as int].args.contains(v));
            }
        }
        let q = p.set_inst(stand_in(p, m, i), moved(p.op(i), pairs), args, p.ty(i));
        assert(unused(q, v));
        lemma_fills_unused(q, m, pairs, insts, from + 1, v);
    }
}

proof fn lemma_all_fills_unused(p: ProgramV, m: Map<usize, Inst>, pairs: Seq<(BasicBlock, BasicBlock)>, from: int, v: Inst)
    requires
        0 <= from,
        unused(p, v),
        is_no_copy(m, v),
    ensures
        unused(all_places_filled(p, m, pairs, from), v),
    decreases pairs.len() - from,
{
    if from < pairs.len() {
        let insts = p.block(pairs[from].0).insts;
        lemma_fills_unused(p, m, pairs, insts, 0, v);
        lemma_all_fills_unused(crate::inline::places_filled(p, m, pairs, insts, 0), m, pairs, from + 1, v);
    }
}

proof fn lemma_routes_unused(p: ProgramV, pairs: Seq<(BasicBlock, BasicBlock)>, c: BasicBlock, from: int, v: Inst)
    requires
        0 <= from,
        unused(p, v),
    ensures
        unused(returns_routed(p, pairs, c, from), v),
    decreases pairs.len() - from,
{
    if from < pairs.len() {
        reveal(ProgramV::set_inst);
        let t = p.terminator(pairs[from].1);
        lemma_routes_unused(
            if p.op(t) is Return {
                p.set_inst(t, Op::Jump(c), p.args(t), Type::Unit)
            } else {
                p
            },
            pairs,
            c,
            from + 1,
            v,
        );
    }
}

/// The program with the block of the call split.
proof fn lemma_split_whole(p: ProgramV, s: Site)
    requires
        is_spliceable(p, s),
        p.blocks.len() < usize::MAX,
        split_at(p, s).insts.len() <= usize::MAX,
    ensures
        ({
            let q = split_at(p, s);
            let c = p.next_block();
            let tys = result_types(p.func(s.callee).ret_ty);
            &&& s.block.0 < p.blocks.len()
            &&& p.block(s.block).insts.contains(s.call)
            &&& s.call.0 < p.insts.len()
            &&& insts_grow(p, q)
            &&& q.insts.len() == p.insts.len() + tys.len()
            &&& forall|i: int| p.insts.len() <= i < q.insts.len() ==> #[trigger] q.insts[i] == new_param(
                p.func(s.callee).ret_ty,
            )
            &&& q.blocks.len() == p.blocks.len() + 1
            &&& forall|x: int| 0 <= x < p.blocks.len() && x != s.block.0 ==> #[trigger] q.blocks[x] == p.blocks[x]
            &&& q.block(s.block).params == p.block(s.block).params
            &&& q.block(c).params == Seq::new(tys.len(), |t: int| Inst((p.insts.len() + t) as usize))
            &&& q.func(s.callee).blocks == p.func(s.callee).blocks
            &&& s.caller != s.callee
        }),
{
    lemma_parent(p, s.caller, s.call, 0);
    let j = p.block(s.block).insts.index_of(s.call);
    assert(stands(p, s.block, p.block(s.block).params.len() + j, s.call));
    let name = ""@ + p.block(s.block).name + "_inline_cont"@;
    let tys = result_types(p.func(s.callee).ret_ty);
    let made = p.basic_block(name, tys);
    reveal(ProgramV::set_func_blocks);
    reveal(ProgramV::set_block_insts);
    let q = split_at(p, s);
    assert(q.insts == made.insts);
    lemma_new_block(p, name, tys);
    assert forall|i: int| p.insts.len() <= i < q.insts.len() implies #[trigger] q.insts[i] == new_param(
        p.func(s.callee).ret_ty,
    ) by {
        let t = i - p.insts.len();
        assert(made.insts[p.insts.len() + t] == new_param(tys[t]));
    }
    assert forall|x: int| 0 <= x < p.blocks.len() && x != s.block.0 implies #[trigger] q.blocks[x] == p.blocks[x] by {
        assert(made.blocks[x] == p.blocks[x]);
    }
    assert(made.blocks[s.block.0 as int] == p.blocks[s.block.0 as int]);
}

/// Instruction `k` of block `j` of `blocks`.
spec fn inst_of(p: ProgramV, blocks: Seq<BasicBlock>, j: int, k: int) -> Inst {
    p.block(blocks[j]).insts[k]
}

spec fn has_inst_at(p: ProgramV, blocks: Seq<BasicBlock>, j: int, k: int) -> bool {
    0 <= j < blocks.len() && 0 <= k < p.block(blocks[j]).insts.len()
}

/// In `r` the blocks of the callee are copied to blocks from number `n` on, seen from `p` with nothing copied; `m` says
/// what stands for what, and returns lead to `c`.
spec fn is_ported(p: ProgramV, r: ProgramV, blocks: Seq<BasicBlock>, pairs: Seq<(BasicBlock, BasicBlock)>, m: Map<usize, Inst>, c: BasicBlock) -> bool {
    let n = p.blocks.len();
    &&& insts_grow(p, r)
    &&& r.blocks.len() == n + blocks.len()
    &&& forall|x: int| 0 <= x < n ==> #[trigger] r.blocks[x] == p.blocks[x]
    &&& pairs.len() == blocks.len()
    &&& forall|j: int| 0 <= j < blocks.len() ==> #[trigger] pairs[j] == (blocks[j], BasicBlock((n + j) as usize))
    &&& forall|j: int|
        0 <= j < blocks.len() ==> (#[trigger] r.blocks[n + j]).params == Seq::new(
            p.block(blocks[j]).params.len(),
            |t: int| m[param_of(p, blocks, j, t).0],
        ) && r.blocks[n + j].insts == Seq::new(
            p.block(blocks[j]).insts.len(),
            |k: int| m[inst_of(p, blocks, j, k).0],
        )
    &&& forall|j: int, t: int| #[trigger]
        has_param(p, blocks, j, t) ==> {
            let x = param_of(p, blocks, j, t);
            m.contains_key(x.0) && p.insts.len() <= m[x.0].0 < r.insts.len() && r.ty(m[x.0]) == p.ty(x)
        }
    &&& forall|j: int, k: int| #[trigger]
        has_inst_at(p, blocks, j, k) ==> {
            let i = inst_of(p, blocks, j, k);
            let x = m[i.0];
            &&& m.contains_key(i.0)
            &&& p.insts.len() <= x.0 < r.insts.len()
            &&& r.op(x) == (if p.op(i) is Return {
                Op::Jump(c)
            } else {
                moved(p.op(i), pairs)
            })
            &&& r.args(x) == stand_ins(p, m, p.args(i))
            &&& !(p.op(i) is Return) ==> r.ty(x) == p.ty(i)
        }
    &&& forall|x: usize, y: usize| #[trigger] m.contains_key(x) && #[trigger] m.contains_key(y) && m[x] == m[y] ==> x == y
    &&& forall|x: usize| #[trigger]
        m.contains_key(x) ==> (exists|j: int, t: int| #[trigger] has_param(p, blocks, j, t) && param_of(p, blocks, j, t).0 == x)
            || (exists|j: int, k: int| #[trigger] has_inst_at(p, blocks, j, k) && inst_of(p, blocks, j, k).0 == x)
}

/// The blocks are there and hold local values, each once; only the last instruction of a block ends it.
spec fn is_portable(p: ProgramV, blocks: Seq<BasicBlock>) -> bool {
    &&& params_apart(p, blocks)
    &&& blocks.no_duplicates()
    &&& forall|j: int| 0 <= j < blocks.len() ==> (#[trigger] blocks[j]).0 < p.blocks.len()
    &&& forall|j: int| 0 <= j < blocks.len() ==> p.block(#[trigger] blocks[j]).insts.len() > 0
    &&& forall|j: int, k: int| #[trigger]
        has_inst_at(p, blocks, j, k) ==> inst_of(p, blocks, j, k).0 < p.insts.len() && !p.inst(inst_of(p, blocks, j, k)).global && (
        p.op(inst_of(p, blocks, j, k)) is Return ==> k == p.block(blocks[j]).insts.len() - 1)
    &&& forall|j: int, k: int, a: int, b: int|
        #[trigger] has_inst_at(p, blocks, j, k) && #[trigger] has_inst_at(p, blocks, a, b) && inst_of(p, blocks, j, k)
            == inst_of(p, blocks, a, b) ==> j == a && k == b
    &&& forall|j: int, k: int, a: int, t: int|
        #[trigger] has_inst_at(p, blocks, j, k) && #[trigger] has_param(p, blocks, a, t) ==> inst_of(p, blocks, j, k) != param_of(
            p,
            blocks,
            a,
            t,
        )
    &&& forall|j: int, t: int| #[trigger] has_param(p, blocks, j, t) ==> !p.inst(param_of(p, blocks, j, t)).global
}

#[verifier::rlimit(100)]
#[verifier::spinoff_prover]
proof fn lemma_ported(p: ProgramV, f: Function, prefix: Seq<char>, suffix: Seq<char>, blocks: Seq<BasicBlock>, anchor: BasicBlock, c: BasicBlock)
    requires
        is_portable(p, blocks),
        ({
            let st = blocks_copied(
                (CopyV { p, pairs: Seq::empty(), m: Map::empty(), anchor }),
                f,
                prefix,
                suffix,
                blocks,
                0,
            );
            st.p.blocks.len() <= usize::MAX && all_places_made(st.p, st.m, st.pairs, 0).0.insts.len() <= usize::MAX
        }),
    ensures
        ({
            let st = blocks_copied(
                (CopyV { p, pairs: Seq::empty(), m: Map::empty(), anchor }),
                f,
                prefix,
                suffix,
                blocks,
                0,
            );
            let more = all_places_made(st.p, st.m, st.pairs, 0).1;
            let r = returns_routed(bodies_ported(st.p, st.m, st.pairs), st.pairs, c, 0);
            &&& is_ported(p, r, blocks, st.pairs, more, c)
            &&& r.insts.len() == all_places_made(st.p, st.m, st.pairs, 0).0.insts.len()
            &&& forall|v: Inst| v.0 < p.insts.len() && #[trigger] unused(p, v) ==> unused(r, v)
        }),
{
    let start = CopyV { p, pairs: Seq::<(BasicBlock, BasicBlock)>::empty(), m: Map::<usize, Inst>::empty(), anchor };
    let st = blocks_copied(start, f, prefix, suffix, blocks, 0);
    let pairs = st.pairs;
    let n = p.blocks.len();
    lemma_all_places_size(st.p, st.m, pairs, 0);
    assert(copied_upto(p, blocks, start, 0));
    lemma_copied(p, f, prefix, suffix, blocks, start, 0);
    assert forall|j: int| 0 <= j < pairs.len() implies st.p.block((#[trigger] pairs[j]).0) == p.block(blocks[j]) by {
        assert(pairs[j] == (blocks[j], BasicBlock((n + j) as usize)));
        assert(st.p.blocks[blocks[j].0 as int] == p.blocks[blocks[j].0 as int]);
    }
    assert forall|j: int, k: int| is_source(st.p, pairs, j, k) == #[trigger] has_inst_at(p, blocks, j, k) && (has_inst_at(
        p,
        blocks,
        j,
        k,
    ) ==> source(st.p, pairs, j, k) == inst_of(p, blocks, j, k)) by {
        if 0 <= j < pairs.len() {
            assert(st.p.block(pairs[j].0) == p.block(blocks[j]));
        }
    }
    assert forall|j: int, k: int| #[trigger] is_source(st.p, pairs, j, k) implies has_inst_at(p, blocks, j, k)
        && st.p.inst(source(st.p, pairs, j, k)) == p.inst(source(st.p, pairs, j, k)) by {
        assert(has_inst_at(p, blocks, j, k) == is_source(st.p, pairs, j, k));
        let i = inst_of(p, blocks, j, k);
        assert(st.p.insts[i.0 as int] == p.insts[i.0 as int]);
    }
    assert(sources_separate(st.p, pairs));
    assert(copies_fresh(st.p, pairs)) by {
        assert forall|j: int| 0 <= j < pairs.len() implies (#[trigger] pairs[j]).1.0 < st.p.blocks.len() && st.p.block(
            pairs[j].1,
        ).insts.len() == 0 by {
            assert(st.p.blocks[n + j].insts.len() == 0);
        }
        assert forall|j: int, a: int| 0 <= j < pairs.len() && 0 <= a < pairs.len() implies (#[trigger] pairs[j]).0 != (
        #[trigger] pairs[a]).1 by {
            assert(blocks[j].0 < n);
        }
    }
    assert(placed_upto(st.p, st.p, st.m, pairs, 0)) by {
        assert forall|j: int| 0 <= j < pairs.len() implies st.p.block((#[trigger] pairs[j]).1).insts.len() == 0 by {
            assert(st.p.blocks[n + j].insts.len() == 0);
        }
    }
    lemma_all_places(st.p, st.p, st.m, pairs, 0);
    let (placed, more) = all_places_made(st.p, st.m, pairs, 0);
    assert(filled_upto(st.p, placed, more, pairs, 0, 0));
    lemma_all_filled(st.p, placed, more, pairs, 0);
    let p2 = all_places_filled(placed, more, pairs, 0);
    assert(p2 == bodies_ported(st.p, st.m, pairs));
    lemma_filled_funcs(placed, more, pairs, 0);
    lemma_filled_elsewhere(placed, more, pairs, 0);
    lemma_all_places_keep(st.p, st.p, st.m, pairs, 0, n as int);
    let r = returns_routed(p2, pairs, c, 0);
    lemma_routes_elsewhere(p2, pairs, c, 0);
    assert forall|j: int, k: int| #[trigger] has_inst_at(p, blocks, j, k) implies is_source(st.p, pairs, j, k) && source(
        st.p,
        pairs,
        j,
        k,
    ) == inst_of(p, blocks, j, k) && more.contains_key(inst_of(p, blocks, j, k).0) && p2.block(pairs[j].1).insts[k]
        == more[inst_of(p, blocks, j, k).0] && st.p.insts.len() <= more[inst_of(p, blocks, j, k).0].0 < p2.insts.len() && is_copy(
        st.p,
        p2,
        more,
        pairs,
        inst_of(p, blocks, j, k),
        more[inst_of(p, blocks, j, k).0],
    ) by {
        assert(is_source(st.p, pairs, j, k) == has_inst_at(p, blocks, j, k));
    }
    // The ends of the copies.
    assert forall|j: int| 0 <= j < pairs.len() implies p2.terminator((#[trigger] pairs[j]).1) == more[inst_of(
        p,
        blocks,
        j,
        p.block(blocks[j]).insts.len() - 1,
    ).0] by {
        let last = p.block(blocks[j]).insts.len() - 1;
        assert(has_inst_at(p, blocks, j, last));
        assert(p2.block(pairs[j].1).insts.len() == st.p.block(pairs[j].0).insts.len());
    }
    assert(ends_apart(p2, pairs)) by {
        assert forall|j: int, a: int| 0 <= j < a < pairs.len() implies p2.terminator((#[trigger] pairs[j]).1)
            != p2.terminator((#[trigger] pairs[a]).1) by {
            let x = p.block(blocks[j]).insts.len() - 1;
            let y = p.block(blocks[a]).insts.len() - 1;
            assert(has_inst_at(p, blocks, j, x) && has_inst_at(p, blocks, a, y));
            assert(is_source(st.p, pairs, j, x) && is_source(st.p, pairs, a, y));
        }
    }
    if pairs.len() > 0 {
        let last = p.block(blocks[0]).insts.len() - 1;
        assert(has_inst_at(p, blocks, 0, last));
        lemma_routed(p2, pairs, c, 0, 0);
    }
    assert(r.insts.len() == p2.insts.len());
    assert forall|i: int| 0 <= i < st.p.insts.len() implies #[trigger] r.insts[i] == st.p.insts[i] by {
        let x = Inst(i as usize);
        assert forall|j: int| 0 <= j < pairs.len() implies p2.terminator((#[trigger] pairs[j]).1) != x by {
            let last = p.block(blocks[j]).insts.len() - 1;
            assert(has_inst_at(p, blocks, j, last));
        }
        lemma_route_keeps(p2, pairs, c, 0, x);
        assert(p2.insts[i] == st.p.insts[i]);
        assert(r.inst(x) == p2.inst(x));
    }
    assert forall|i: int| 0 <= i < p.insts.len() implies #[trigger] r.insts[i] == p.insts[i] by {
        assert(r.insts[i] == st.p.insts[i]);
    }
    assert forall|x: int| 0 <= x < n implies #[trigger] r.blocks[x] == p.blocks[x] by {
        assert(placed.blocks[x] == st.p.blocks[x]);
    }
    // Parameters.
    assert forall|j: int, t: int| #[trigger] has_param(p, blocks, j, t) implies more.contains_key(param_of(p, blocks, j, t).0)
        && more[param_of(p, blocks, j, t).0] == param_copy(p, blocks, j, t) && p.insts.len() <= param_copy(p, blocks, j, t).0
        < st.p.insts.len() && r.ty(param_copy(p, blocks, j, t)) == p.ty(param_of(p, blocks, j, t)) by {
        let x = param_of(p, blocks, j, t);
        assert(is_no_source(st.p, pairs, x.0)) by {
            assert forall|a: int, b: int| #[trigger] is_source(st.p, pairs, a, b) implies source(st.p, pairs, a, b).0 != x.0 by {
                assert(has_inst_at(p, blocks, a, b));
                assert(inst_of(p, blocks, a, b) != x);
            }
        }
        assert(stays_off(st.p, pairs, st.m, more, x.0));
        lemma_params_before(p, blocks, j, blocks.len() as int);
        let y = param_copy(p, blocks, j, t);
        assert(r.insts[y.0 as int] == st.p.insts[y.0 as int]);
    }
    assert forall|j: int| 0 <= j < blocks.len() implies (#[trigger] r.blocks[n + j]).params == Seq::new(
        p.block(blocks[j]).params.len(),
        |t: int| more[param_of(p, blocks, j, t).0],
    ) && r.blocks[n + j].insts == Seq::new(p.block(blocks[j]).insts.len(), |k: int| more[inst_of(p, blocks, j, k).0]) by {
        assert(pairs[j] == (blocks[j], BasicBlock((n + j) as usize)));
        assert(r.blocks[n + j].params == st.p.blocks[n + j].params) by {
            assert(placed.blocks[n + j].params == st.p.blocks[n + j].params);
        }
        assert(r.blocks[n + j].params =~= Seq::new(
            p.block(blocks[j]).params.len(),
            |t: int| more[param_of(p, blocks, j, t).0],
        )) by {
            assert forall|t: int| 0 <= t < p.block(blocks[j]).params.len() implies st.p.blocks[n + j].params[t]
                == more[param_of(p, blocks, j, t).0] by {
                assert(has_param(p, blocks, j, t));
            }
        }
        assert(p2.block(pairs[j].1) == r.blocks[n + j]);
        assert(p2.block(pairs[j].1).insts.len() == st.p.block(pairs[j].0).insts.len());
        assert(r.blocks[n + j].insts =~= Seq::new(
            p.block(blocks[j]).insts.len(),
            |k: int| more[inst_of(p, blocks, j, k).0],
        )) by {
            assert forall|k: int| 0 <= k < p.block(blocks[j]).insts.len() implies r.blocks[n + j].insts[k] == more[inst_of(
                p,
                blocks,
                j,
                k,
            ).0] by {
                assert(has_inst_at(p, blocks, j, k));
            }
        }
    }
    assert forall|j: int, k: int| #[trigger] has_inst_at(p, blocks, j, k) implies {
        let i = inst_of(p, blocks, j, k);
        let x = more[i.0];
        &&& r.op(x) == (if p.op(i) is Return {
            Op::Jump(c)
        } else {
            moved(p.op(i), pairs)
        })
        &&& r.args(x) == stand_ins(p, more, p.args(i))
        &&& !(p.op(i) is Return) ==> r.ty(x) == p.ty(i)
    } by {
        let i = inst_of(p, blocks, j, k);
        let x = more[i.0];
        assert(st.p.insts[i.0 as int] == p.insts[i.0 as int]);
        assert(st.p.inst(i) == p.inst(i));
        assert(stand_ins(st.p, more, p.args(i)) =~= stand_ins(p, more, p.args(i))) by {
            assert forall|t: int| 0 <= t < p.args(i).len() implies stand_in(st.p, more, p.args(i)[t]) == stand_in(
                p,
                more,
                p.args(i)[t],
            ) by {
                let a = p.args(i)[t];
                if a.0 < p.insts.len() {
                    assert(st.p.insts[a.0 as int] == p.insts[a.0 as int]);
                } else if a.0 < st.p.insts.len() {
                    assert(!st.p.insts[a.0 as int].global);
                }
            }
        }
        if p.op(i) is Return {
            assert(k == p.block(blocks[j]).insts.len() - 1);
            lemma_routed(p2, pairs, c, 0, j);
        } else {
            lemma_route_keeps_type(p2, pairs, c, 0, x);
        }
    }
    assert forall|x: usize| #[trigger] more.contains_key(x) implies (exists|j: int, t: int| #[trigger]
        has_param(p, blocks, j, t) && param_of(p, blocks, j, t).0 == x) || (exists|j: int, k: int| #[trigger]
        has_inst_at(p, blocks, j, k) && inst_of(p, blocks, j, k).0 == x) by {
        if is_no_source(st.p, pairs, x) {
            assert(stays_off(st.p, pairs, st.m, more, x));
            assert(st.m.contains_key(x));
        } else {
            let (j, k) = choose|j: int, k: int| #[trigger] is_source(st.p, pairs, j, k) && source(st.p, pairs, j, k).0 == x;
            assert(has_inst_at(p, blocks, j, k) && inst_of(p, blocks, j, k).0 == x);
        }
    }
    assert forall|x: usize, y: usize| #[trigger] more.contains_key(x) && #[trigger] more.contains_key(y) && more[x] == more[y] implies x == y by {
        lemma_apart(p, blocks, st.p, more, x, y);
    }
    assert forall|v: Inst| v.0 < p.insts.len() && #[trigger] unused(p, v) implies unused(r, v) by {
        assert(unused(st.p, v)) by {
            assert forall|i: int| 0 <= i < st.p.insts.len() implies !(#[trigger] st.p.insts[i]).args.contains(v) by {
                if i < p.insts.len() {
                    assert(st.p.insts[i] == p.insts[i]);
                }
            }
        }
        assert(is_no_copy(st.m, v)) by {
            assert forall|x: usize| #[trigger] st.m.contains_key(x) implies st.m[x] != v by {
                let (j, t) = choose|j: int, t: int|
                    j < blocks.len() && #[trigger] has_param(p, blocks, j, t) && param_of(p, blocks, j, t).0 == x;
                assert(has_param(p, blocks, j, t));
                lemma_params_before(p, blocks, j, blocks.len() as int);
            }
        }
        lemma_all_places_unused(st.p, st.m, pairs, 0, v);
        lemma_all_fills_unused(placed, more, pairs, 0, v);
        lemma_routes_unused(p2, pairs, c, 0, v);
    }
}

/// Copies of different values are different: those of parameters come before those of instructions.
proof fn lemma_apart(p: ProgramV, blocks: Seq<BasicBlock>, mid: ProgramV, m: Map<usize, Inst>, x: usize, y: usize)
    requires
        m.contains_key(x),
        m.contains_key(y),
        m[x] == m[y],
        mid.insts.len() <= usize::MAX,
        mid.insts.len() == p.insts.len() + params_before(p, blocks, blocks.len() as int),
        forall|j: int, t: int| #[trigger]
            has_param(p, blocks, j, t) ==> m[param_of(p, blocks, j, t).0] == param_copy(p, blocks, j, t) && param_copy(
                p,
                blocks,
                j,
                t,
            ).0 < mid.insts.len(),
        forall|j: int, k: int| #[trigger]
            has_inst_at(p, blocks, j, k) ==> mid.insts.len() <= m[inst_of(p, blocks, j, k).0].0,
        forall|j: int, k: int, a: int, b: int|
            #[trigger] has_inst_at(p, blocks, j, k) && #[trigger] has_inst_at(p, blocks, a, b) && m[inst_of(p, blocks, j, k).0]
                == m[inst_of(p, blocks, a, b).0] ==> j == a && k == b,
        forall|z: usize| #[trigger]
            m.contains_key(z) ==> (exists|j: int, t: int| #[trigger]
                has_param(p, blocks, j, t) && param_of(p, blocks, j, t).0 == z) || (exists|j: int, k: int| #[trigger]
                has_inst_at(p, blocks, j, k) && inst_of(p, blocks, j, k).0 == z),
    ensures
        x == y,
{
    if exists|j: int, t: int| #[trigger] has_param(p, blocks, j, t) && param_of(p, blocks, j, t).0 == x {
        let (j, t) = choose|j: int, t: int| #[trigger] has_param(p, blocks, j, t) && param_of(p, blocks, j, t).0 == x;
        lemma_params_before(p, blocks, j, blocks.len() as int);
        if exists|a: int, b: int| #[trigger] has_param(p, blocks, a, b) && param_of(p, blocks, a, b).0 == y {
            let (a, b) = choose|a: int, b: int| #[trigger] has_param(p, blocks, a, b) && param_of(p, blocks, a, b).0 == y;
            lemma_params_before(p, blocks, a, blocks.len() as int);
            if j < a {
                lemma_params_before(p, blocks, j, a);
            } else if a < j {
                lemma_params_before(p, blocks, a, j);
            }
        } else {
            let (a, b) = choose|a: int, b: int| #[trigger] has_inst_at(p, blocks, a, b) && inst_of(p, blocks, a, b).0 == y;
        }
    } else {
        let (j, k) = choose|j: int, k: int| #[trigger] has_inst_at(p, blocks, j, k) && inst_of(p, blocks, j, k).0 == x;
        if exists|a: int, b: int| #[trigger] has_param(p, blocks, a, b) && param_of(p, blocks, a, b).0 == y {
            let (a, b) = choose|a: int, b: int| #[trigger] has_param(p, blocks, a, b) && param_of(p, blocks, a, b).0 == y;
        } else {
            let (a, b) = choose|a: int, b: int| #[trigger] has_inst_at(p, blocks, a, b) && inst_of(p, blocks, a, b).0 == y;
        }
    }
}

/// What stands for what where the call of `s` is replaced.
pub open spec fn splice_of(p: ProgramV, s: Site) -> SpliceV {
    let st = copies_at(p, s);
    let m = all_places_made(st.p, st.m, st.pairs, 0).1;
    let result = nth(split_at(p, s).block(p.next_block()).params, 0);
    SpliceV {
        block: |b: BasicBlock| moved_block(st.pairs, b),
        value: |x: Inst|
            if x == s.call {
                result
            } else {
                stand_in(p, m, x)
            },
        rest: p.next_block(),
        result,
        at: position(p.block(s.block).insts, s.call, 0),
    }
}

proof fn lemma_spliceable(p: ProgramV, s: Site)
    requires
        is_spliceable(p, s),
        p.blocks.len() < usize::MAX,
        split_at(p, s).insts.len() <= usize::MAX,
    ensures
        is_portable(split_at(p, s), p.func(s.callee).blocks),
        forall|j: int|
            0 <= j < p.func(s.callee).blocks.len() ==> split_at(p, s).block(#[trigger] p.func(s.callee).blocks[j]) == p.block(
                p.func(s.callee).blocks[j],
            ),
{
    let q = split_at(p, s);
    let blocks = p.func(s.callee).blocks;
    lemma_split_whole(p, s);
    assert forall|j: int| 0 <= j < blocks.len() implies q.block(#[trigger] blocks[j]) == p.block(blocks[j]) && blocks[j].0
        < p.blocks.len() by {
        assert(blocks.contains(blocks[j]));
        assert(q.blocks[blocks[j].0 as int] == p.blocks[blocks[j].0 as int]);
    }
    assert forall|j: int, t: int| #[trigger] has_param(q, blocks, j, t) implies stands(p, blocks[j], t, param_of(q, blocks, j, t)) by {
        assert(q.block(blocks[j]) == p.block(blocks[j]));
    }
    assert forall|j: int, k: int| #[trigger] has_inst_at(q, blocks, j, k) implies stands(
        p,
        blocks[j],
        p.block(blocks[j]).params.len() + k,
        inst_of(q, blocks, j, k),
    ) by {
        assert(q.block(blocks[j]) == p.block(blocks[j]));
    }
    assert forall|j: int, t: int| #[trigger] has_param(q, blocks, j, t) implies param_of(q, blocks, j, t).0 < q.insts.len()
        && !q.inst(param_of(q, blocks, j, t)).global by {
        let x = param_of(q, blocks, j, t);
        assert(stands(p, blocks[j], t, x));
        assert(q.insts[x.0 as int] == p.insts[x.0 as int]);
    }
    assert forall|j: int| 0 <= j < blocks.len() implies q.block(#[trigger] blocks[j]).insts.len() > 0 by {
        lemma_portable(p, blocks, 0, j);
    }
    assert forall|j: int, k: int| #[trigger] has_inst_at(q, blocks, j, k) implies inst_of(q, blocks, j, k).0 < q.insts.len()
        && !q.inst(inst_of(q, blocks, j, k)).global && (q.op(inst_of(q, blocks, j, k)) is Return ==> k == q.block(
        blocks[j],
    ).insts.len() - 1) by {
        let x = inst_of(q, blocks, j, k);
        assert(stands(p, blocks[j], p.block(blocks[j]).params.len() + k, x));
        assert(q.insts[x.0 as int] == p.insts[x.0 as int]);
        lemma_portable(p, blocks, 0, j);
        lemma_inst_portable(p, p.block(blocks[j]).insts, blocks, 0, k);
    }
}

/// A call that is replaced is replaced by the callee's body: control goes from where the call stood through a faithful
/// copy of the body, with the arguments, to what stood behind the call, which uses what the body returns in place of
/// what the call gave, whatever its type; and nothing uses the call any more.
#[verifier::rlimit(100)]
#[verifier::spinoff_prover]
pub proof fn the_body_stands_in_place_of_the_call(p: ProgramV, s: Site)
    requires
        is_spliceable(p, s),
    ensures
        is_spliced(p, inlined(p, s), s, splice_of(p, s)),
{
    let w = splice_of(p, s);
    let q = inlined(p, s);
    let blocks = p.func(s.callee).blocks;
    let args = p.args(s.call);
    let unit = p.func(s.callee).ret_ty is Unit;
    let c = p.next_block();
    let p1 = split_at(p, s);
    let st = copies_at(p, s);
    let start = CopyV { p: p1, pairs: Seq::<(BasicBlock, BasicBlock)>::empty(), m: Map::<usize, Inst>::empty(), anchor: s.block };
    let suffix = "_"@ + p1.func(s.callee).name + "_inline"@;
    assert(p1.blocks.len() == p.blocks.len() + 1) by {
        reveal(ProgramV::push_block);
        reveal(ProgramV::set_func_blocks);
        reveal(ProgramV::set_block_insts);
        lemma_params_blocks(
            p.push_block(""@ + p.block(s.block).name + "_inline_cont"@),
            c,
            result_types(p.func(s.callee).ret_ty),
            0,
        );
    }
    lemma_copies_size(start, s.caller, ""@, suffix, p1.func(s.callee).blocks, 0);
    let (placed, m) = all_places_made(st.p, st.m, st.pairs, 0);
    lemma_all_places_size(st.p, st.m, st.pairs, 0);
    lemma_filled_funcs(placed, m, st.pairs, 0);
    let p2 = bodies_ported(st.p, st.m, st.pairs);
    let p3 = returns_routed(p2, st.pairs, c, 0);
    lemma_routes_size(p2, st.pairs, c, 0);
    let p4 = if p.ty(s.call) is Unit {
        p3
    } else {
        p3.replace_uses(s.call, nth(p3.block(c).params, 0))
    };
    let p5 = p4.remove(s.block, s.call);
    reveal(ProgramV::push_inst);
    reveal(ProgramV::set_inst);
    reveal(ProgramV::set_block_insts);
    reveal(ProgramV::replace_uses);
    assert(q.insts.len() == p3.insts.len() + 1);
    lemma_split_whole(p, s);
    lemma_spliceable(p, s);
    lemma_split(p, s);
    lemma_ported(p1, s.caller, ""@, suffix, blocks, s.block, c);
    let insts = p.block(s.block).insts;
    let k = w.at;
    let jump = p5.next_inst();
    assert(p3.blocks[s.block.0 as int] == p1.blocks[s.block.0 as int]);
    assert(p3.blocks[c.0 as int] == p1.blocks[c.0 as int]);
    let head = insts.subrange(0, k + 1);
    position_is_first(head, s.call, 0);
    assert(head[k] == s.call);
    assert(position(head, s.call, 0) == k) by {
        let at = position(head, s.call, 0);
        assert(head[at] == insts[at]);
    }
    assert(without(head, s.call) =~= insts.take(k));
    assert(q.block(s.block).insts =~= insts.take(k).push(jump));
    assert(q.block(c).insts =~= insts.skip(k + 1));
    // Operands.
    assert forall|i: int| 0 <= i < p3.insts.len() && i != s.call.0 implies (#[trigger] q.insts[i]).op == p3.insts[i].op
        && q.insts[i].ty == p3.insts[i].ty && (unit ==> q.insts[i].args == p3.insts[i].args) && (!unit ==> q.insts[i].args
        == with_result(p3.insts[i].args, s.call, w.result)) by {
        if !unit {
            assert(p4.insts[i] == p3.insts[i].replaced(s.call, w.result));
            assert(p3.insts[i].replaced(s.call, w.result).args =~= with_result(p3.insts[i].args, s.call, w.result));
        }
    }
    assert(unit ==> unused(p1, s.call)) by {
        if unit {
            assert(!p.is_used(s.call));
            assert forall|i: int| 0 <= i < p1.insts.len() implies !(#[trigger] p1.insts[i]).args.contains(s.call) by {
                if i < p.insts.len() {
                    assert(p1.insts[i] == p.insts[i]);
                }
            }
        }
    }
    assert(unit ==> unused(p3, s.call));
    assert forall|i: int| 0 <= i < p3.insts.len() && i != s.call.0 implies (#[trigger] q.insts[i]).args == with_result(
        p3.insts[i].args,
        s.call,
        w.result,
    ) by {
        if unit {
            let a = p3.insts[i].args;
            assert(with_result(a, s.call, w.result) =~= a) by {
                assert forall|t: int| 0 <= t < a.len() implies a[t] != s.call by {
                    assert(!p3.insts[i].args.contains(s.call));
                }
            }
        }
    }
    assert(!q.is_used(s.call)) by {
        assert forall|u: int| 0 <= u < q.insts.len() implies !(#[trigger] q.insts[u]).args.contains(s.call) by {
            if u == s.call.0 {
                assert(q.insts[u].args.len() == 0);
            } else if u == jump.0 {
                assert(q.insts[u].args == args);
            } else if unit {
                assert(!p3.insts[u].args.contains(s.call));
            } else {
                let a = q.insts[u].args;
                if a.contains(s.call) {
                    let t = a.index_of(s.call);
                    assert(with_result(p3.insts[u].args, s.call, w.result)[t] == s.call);
                }
            }
        }
    }
    assert forall|x: Inst| x.0 < p.insts.len() && x != s.call implies #[trigger] q.op(x) == p.op(x) && q.ty(x) == p.ty(x)
        && q.args(x) == with_result(p.args(x), s.call, w.result) by {
        assert(p3.insts[x.0 as int] == p1.insts[x.0 as int]);
        assert(p1.insts[x.0 as int] == p.insts[x.0 as int]);
        assert(q.insts[x.0 as int].op == p3.insts[x.0 as int].op);
    }
    assert forall|b: BasicBlock| b.0 < p.blocks.len() && b != s.block implies #[trigger] q.block(b) == p.block(b) by {
        assert(p3.blocks[b.0 as int] == p1.blocks[b.0 as int]);
        assert(p1.blocks[b.0 as int] == p.blocks[b.0 as int]);
    }
    assert(is_forgotten(p, q, s, w));
    // The copies.
    let n = p1.blocks.len();
    lemma_copies_grow(start, s.caller, ""@, suffix, blocks, 0);
    assert(n + blocks.len() <= usize::MAX);
    assert forall|a: int, b: int| 0 <= a < b < st.pairs.len() implies (#[trigger] st.pairs[a]).0 != (#[trigger] st.pairs[b]).0 by {
        assert(blocks[a] != blocks[b]);
    }
    assert forall|j: int| 0 <= j < blocks.len() implies (w.block)(#[trigger] blocks[j]) == BasicBlock((n + j) as usize) by {
        assert(st.pairs[j] == (blocks[j], BasicBlock((n + j) as usize)));
        lemma_sent_at(st.pairs, 0, j);
    }
    assert forall|x: Inst| !(p.inst(x).global) == !(p1.inst(x).global) by {
        if x.0 < p.insts.len() {
            assert(p1.insts[x.0 as int] == p.insts[x.0 as int]);
        } else if x.0 < p1.insts.len() {
            assert(p1.insts[x.0 as int] == new_param(p.func(s.callee).ret_ty));
        }
    }
    lemma_values_apart(p, p1, p3, s, st.pairs, m);
    assert forall|b: BasicBlock| #[trigger] blocks.contains(b) implies is_copied(p, q, s, w, b) by {
        let j = blocks.index_of(b);
        assert(blocks[j] == b);
        let d = (w.block)(b);
        assert(p1.block(b) == p.block(b));
        assert(q.blocks[n + j] == p3.blocks[n + j]);
        assert(q.block(d).params =~= copies(w, p.block(b).params)) by {
            assert forall|t: int| 0 <= t < p.block(b).params.len() implies q.block(d).params[t] == (w.value)(
                p.block(b).params[t],
            ) by {
                assert(has_param(p1, blocks, j, t));
                assert(param_of(p1, blocks, j, t) == p.block(b).params[t]);
                assert(stands(p, b, t, p.block(b).params[t]));
                assert(is_set_in(p, s.callee, p.block(b).params[t]));
            }
        }
        assert forall|t: int| 0 <= t < p.block(b).params.len() implies q.ty((w.value)(#[trigger] p.block(b).params[t]))
            == p.ty(p.block(b).params[t]) by {
            let x = p.block(b).params[t];
            assert(has_param(p1, blocks, j, t));
            assert(param_of(p1, blocks, j, t) == x);
            assert(stands(p, b, t, x));
            assert(is_set_in(p, s.callee, x));
            let y = m[x.0];
            assert(q.insts[y.0 as int].ty == p3.insts[y.0 as int].ty);
            assert(p1.insts[x.0 as int] == p.insts[x.0 as int]);
        }
        assert(q.block(d).insts =~= copies(w, p.block(b).insts)) by {
            assert forall|t: int| 0 <= t < p.block(b).insts.len() implies q.block(d).insts[t] == (w.value)(
                p.block(b).insts[t],
            ) by {
                assert(has_inst_at(p1, blocks, j, t));
                assert(inst_of(p1, blocks, j, t) == p.block(b).insts[t]);
                assert(stands(p, b, p.block(b).params.len() + t, p.block(b).insts[t]));
                assert(is_set_in(p, s.callee, p.block(b).insts[t]));
            }
        }
        assert forall|t: int| 0 <= t < p.block(b).insts.len() implies {
            let i = #[trigger] p.block(b).insts[t];
            let x = (w.value)(i);
            &&& q.op(x) == sent_op(w, p.op(i))
            &&& q.args(x) == copies(w, p.args(i))
            &&& !(p.op(i) is Return) ==> q.ty(x) == p.ty(i)
        } by {
            let i = p.block(b).insts[t];
            assert(has_inst_at(p1, blocks, j, t));
            assert(inst_of(p1, blocks, j, t) == i);
            assert(stands(p, b, p.block(b).params.len() + t, i));
            assert(is_set_in(p, s.callee, i));
            let x = m[i.0];
            assert((w.value)(i) == x);
            assert(p1.insts[i.0 as int] == p.insts[i.0 as int]);
            assert(q.insts[x.0 as int].op == p3.insts[x.0 as int].op);
            assert(q.args(x) == with_result(stand_ins(p1, m, p.args(i)), s.call, w.result));
            assert(q.args(x) =~= copies(w, p.args(i))) by {
                assert forall|u: int| 0 <= u < p.args(i).len() implies q.args(x)[u] == (w.value)(p.args(i)[u]) by {
                    let a = p.args(i)[u];
                    assert(stand_in(p1, m, a) == stand_in(p, m, a));
                    assert(stand_in(p, m, a) == s.call ==> a == s.call);
                    assert(a == s.call ==> stand_in(p, m, a) == s.call);
                }
            }
        }
    }
    assert(q.op(jump) == Op::Jump((w.block)(blocks[0])));
    assert(q.terminator(s.block) == jump);
    if !unit {
        let y = w.result;
        assert(q.block(c).params =~= seq![y]);
        assert(p3.insts[y.0 as int] == p1.insts[y.0 as int]);
        assert(p1.insts[y.0 as int] == new_param(p.func(s.callee).ret_ty));
        assert(q.insts[y.0 as int].ty == p3.insts[y.0 as int].ty);
    }
    assert(is_entered(p, q, s, w));
}

proof fn lemma_routes_size(p: ProgramV, pairs: Seq<(BasicBlock, BasicBlock)>, c: BasicBlock, from: int)
    ensures
        returns_routed(p, pairs, c, from).insts.len() == p.insts.len(),
    decreases pairs.len() - from,
{
    if from < pairs.len() {
        reveal(ProgramV::set_inst);
        let t = p.terminator(pairs[from].1);
        lemma_routes_size(
            if p.op(t) is Return {
                p.set_inst(t, Op::Jump(c), p.args(t), Type::Unit)
            } else {
                p
            },
            pairs,
            c,
            from + 1,
        );
    }
}

/// The values of the callee and what stands for them.
proof fn lemma_values_apart(p: ProgramV, p1: ProgramV, r: ProgramV, s: Site, pairs: Seq<(BasicBlock, BasicBlock)>, m: Map<usize, Inst>)
    requires
        is_spliceable(p, s),
        p1 == split_at(p, s),
        p.blocks.len() < usize::MAX,
        p1.insts.len() <= usize::MAX,
        r.insts.len() < usize::MAX,
        pairs == copies_at(p, s).pairs,
        m == all_places_made(copies_at(p, s).p, copies_at(p, s).m, pairs, 0).1,
        is_ported(p1, r, p.func(s.callee).blocks, pairs, m, p.next_block()),
    ensures
        keeps_apart(p, s, splice_of(p, s)),
        !m.contains_key(s.call.0),
        forall|x: Inst| #[trigger]
            is_set_in(p, s.callee, x) ==> m.contains_key(x.0) && !p.inst(x).global && (splice_of(p, s).value)(x) == m[x.0] && x
                != s.call,
        forall|x: usize| #[trigger] m.contains_key(x) ==> m[x] != s.call,
{
    let w = splice_of(p, s);
    let blocks = p.func(s.callee).blocks;
    lemma_split_whole(p, s);
    lemma_spliceable(p, s);
    let at = p.block(s.block).insts.index_of(s.call);
    let place = p.block(s.block).params.len() + at;
    assert(stands(p, s.block, place, s.call));
    assert forall|x: Inst| #[trigger] is_set_in(p, s.callee, x) implies m.contains_key(x.0) && !p.inst(x).global && x != s.call
        && p1.insts.len() <= m[x.0].0 < r.insts.len() by {
        let (b, k) = choose|b: BasicBlock, k: int| p.func(s.callee).blocks.contains(b) && #[trigger] stands(p, b, k, x);
        let j = blocks.index_of(b);
        assert(blocks[j] == b);
        assert(p1.block(b) == p.block(b));
        let np = p.block(b).params.len();
        if k < np {
            assert(has_param(p1, blocks, j, k) && param_of(p1, blocks, j, k) == x);
        } else {
            assert(has_inst_at(p1, blocks, j, k - np) && inst_of(p1, blocks, j, k - np) == x);
        }
        if x == s.call {
            assert(stands(p, b, k, x) && stands(p, s.block, place, s.call));
            assert(b == s.block);
        }
    }
    assert forall|x: usize| #[trigger] m.contains_key(x) implies is_set_in(p, s.callee, Inst(x)) && m[x].0 >= p1.insts.len() by {
        if exists|j: int, t: int| #[trigger] has_param(p1, blocks, j, t) && param_of(p1, blocks, j, t).0 == x {
            let (j, t) = choose|j: int, t: int| #[trigger] has_param(p1, blocks, j, t) && param_of(p1, blocks, j, t).0 == x;
            assert(p1.block(blocks[j]) == p.block(blocks[j]));
            assert(stands(p, blocks[j], t, Inst(x)) && blocks.contains(blocks[j]));
        } else {
            let (j, k) = choose|j: int, k: int| #[trigger] has_inst_at(p1, blocks, j, k) && inst_of(p1, blocks, j, k).0 == x;
            assert(p1.block(blocks[j]) == p.block(blocks[j]));
            assert(stands(p, blocks[j], p.block(blocks[j]).params.len() + k, Inst(x)) && blocks.contains(blocks[j]));
        }
    }
    assert(!m.contains_key(s.call.0)) by {
        assert(Inst(s.call.0) == s.call);
    }
    assert forall|x: Inst| !is_set_in(p, s.callee, x) && x != s.call implies #[trigger] (w.value)(x) == x by {
        assert(Inst(x.0) == x);
        assert(!m.contains_key(x.0));
    }
    assert(w.result.0 < p1.insts.len() || w.result.0 == usize::MAX);
    assert forall|x: Inst, y: Inst|
        #[trigger] is_set_in(p, s.callee, x) && #[trigger] is_set_in(p, s.callee, y) && (w.value)(x) == (w.value)(y) implies x == y by {
        assert(m.contains_key(x.0) && m.contains_key(y.0));
    }
}

} // verus!
