//! What takes the place of a call does what the callee does.

use vstd::prelude::*;

use crate::blocked_reduction::nth;
use crate::cloning::{moved, moved_block};
use crate::inline::{
    all_places_filled, all_places_made, bodies_ported, inlined, nth_block, places_filled,
    places_made, result_types, returns_routed, split_after, stand_in, stand_ins, Site,
};
use crate::invariant_reduction_hoisting::{block_copied, blocks_copied, CopyV};
use crate::ir::{
    position, position_is_first, without, BasicBlock, Function, Inst, Op, ProgramV, Type,
};
use crate::preheader::param_types;

verus! {

/// Instruction `k` of the block that copy `j` is made of.
pub open spec fn source(p: ProgramV, pairs: Seq<(BasicBlock, BasicBlock)>, j: int, k: int) -> Inst {
    p.block(pairs[j].0).insts[k]
}

/// There is an instruction `k` in the block that copy `j` is made of.
pub open spec fn is_source(p: ProgramV, pairs: Seq<(BasicBlock, BasicBlock)>, j: int, k: int) -> bool {
    0 <= j < pairs.len() && 0 <= k < p.block(pairs[j].0).insts.len()
}

/// The blocks to copy hold local instructions, each once.
pub open spec fn sources_separate(p: ProgramV, pairs: Seq<(BasicBlock, BasicBlock)>) -> bool {
    &&& forall|j: int, k: int| #[trigger]
        is_source(p, pairs, j, k) ==> source(p, pairs, j, k).0 < p.insts.len() && !p.inst(source(p, pairs, j, k)).global
    &&& forall|j: int, k: int, a: int, b: int|
        #[trigger] is_source(p, pairs, j, k) && #[trigger] is_source(p, pairs, a, b) && source(p, pairs, j, k) == source(
            p,
            pairs,
            a,
            b,
        ) ==> j == a && k == b
}

/// The copies are blocks of their own, empty so far.
pub open spec fn copies_fresh(p: ProgramV, pairs: Seq<(BasicBlock, BasicBlock)>) -> bool {
    &&& forall|j: int|
        0 <= j < pairs.len() ==> (#[trigger] pairs[j]).1.0 < p.blocks.len() && p.block(pairs[j].1).insts.len() == 0
    &&& forall|j: int, a: int|
        0 <= j < pairs.len() && 0 <= a < pairs.len() ==> (#[trigger] pairs[j]).0 != (#[trigger] pairs[a]).1
    &&& forall|j: int, a: int|
        0 <= j < a < pairs.len() ==> (#[trigger] pairs[j]).1 != (#[trigger] pairs[a]).1
}

/// The places from number `n` on.
pub open spec fn run_of_places(n: int, len: nat) -> Seq<Inst> {
    Seq::new(len, |t: int| Inst((n + t) as usize))
}

#[verifier::spinoff_prover]
proof fn lemma_places(p: ProgramV, m: Map<usize, Inst>, insts: Seq<Inst>, c: BasicBlock, from: int)
    requires
        0 <= from <= insts.len(),
        c.0 < p.blocks.len(),
        insts.no_duplicates(),
        p.insts.len() + insts.len() - from <= usize::MAX,
    ensures
        ({
            let (q, more) = places_made(p, m, insts, c, from);
            let n = p.insts.len();
            &&& q.insts.len() == n + insts.len() - from
            &&& q.blocks.len() == p.blocks.len()
            &&& q.block(c).insts == p.block(c).insts + run_of_places(n as int, (insts.len() - from) as nat)
            &&& forall|i: int| 0 <= i < n ==> #[trigger] q.insts[i] == p.insts[i]
            &&& forall|i: int| n <= i < q.insts.len() ==> !(#[trigger] q.insts[i]).global
            &&& forall|b: int| 0 <= b < p.blocks.len() && b != c.0 ==> #[trigger] q.blocks[b] == p.blocks[b]
            &&& forall|t: int|
                from <= t < insts.len() ==> more.contains_key((#[trigger] insts[t]).0) && more[insts[t].0] == Inst(
                    (n + t - from) as usize,
                )
            &&& forall|x: usize|
                !insts.skip(from).contains(Inst(x)) ==> #[trigger] more.contains_key(x) == m.contains_key(x) && (
                m.contains_key(x) ==> more[x] == m[x])
        }),
    decreases insts.len() - from,
{
    if from < insts.len() {
        reveal(ProgramV::push_inst);
        reveal(ProgramV::set_block_insts);
        let place = p.next_inst();
        let p1 = p.push_inst(Op::Undef, Seq::empty(), p.ty(insts[from]), false).append(c, place);
        let m1 = m.insert(insts[from].0, place);
        assert(p1.insts.len() == p.insts.len() + 1);
        assert(p1.block(c).insts == p.block(c).insts.push(place));
        lemma_places(p1, m1, insts, c, from + 1);
        let (q, more) = places_made(p1, m1, insts, c, from + 1);
        assert(places_made(p, m, insts, c, from) == (q, more));
        let n = p.insts.len() as int;
        let len = (insts.len() - from) as nat;
        assert(p1.block(c).insts + run_of_places(n + 1, (len - 1) as nat) =~= p.block(c).insts + run_of_places(n, len));
        assert(q.block(c).insts == p.block(c).insts + run_of_places(n, len));
        assert forall|i: int| 0 <= i < n implies #[trigger] q.insts[i] == p.insts[i] by {
            assert(q.insts[i] == p1.insts[i]);
        }
        assert forall|i: int| n <= i < q.insts.len() implies !(#[trigger] q.insts[i]).global by {
            if i == n {
                assert(q.insts[i] == p1.insts[i]);
            }
        }
        assert forall|b: int| 0 <= b < p.blocks.len() && b != c.0 implies #[trigger] q.blocks[b] == p.blocks[b] by {
            assert(q.blocks[b] == p1.blocks[b]);
        }
        assert(!insts.skip(from + 1).contains(insts[from])) by {
            if insts.skip(from + 1).contains(insts[from]) {
                let k = insts.skip(from + 1).index_of(insts[from]);
                assert(insts[from + 1 + k] == insts[from]);
            }
        }
        assert(Inst(insts[from].0) == insts[from]);
        assert(more.contains_key(insts[from].0) == m1.contains_key(insts[from].0));
        assert(more[insts[from].0] == place);
        assert forall|t: int| from <= t < insts.len() implies more.contains_key((#[trigger] insts[t]).0)
            && more[insts[t].0] == Inst((n + t - from) as usize) by {
            if t > from {
                assert(more[insts[t].0] == Inst((p1.insts.len() + t - (from + 1)) as usize));
            }
        }
        assert forall|x: usize| !insts.skip(from).contains(Inst(x)) implies #[trigger] more.contains_key(x)
            == m.contains_key(x) && (m.contains_key(x) ==> more[x] == m[x]) by {
            assert(insts.skip(from)[0] == insts[from]);
            if insts.skip(from + 1).contains(Inst(x)) {
                let k = insts.skip(from + 1).index_of(Inst(x));
                assert(insts.skip(from)[k + 1] == Inst(x));
            }
        }
    } else {
        assert(places_made(p, m, insts, c, from) == (p, m));
        assert(p.block(c).insts + run_of_places(p.insts.len() as int, 0) =~= p.block(c).insts);
        assert(insts.skip(from) =~= Seq::empty());
    }
}

/// The places for the first `upto` copies, seen from the program `p` in which none were made.
pub open spec fn placed_upto(
    p: ProgramV,
    q: ProgramV,
    m: Map<usize, Inst>,
    pairs: Seq<(BasicBlock, BasicBlock)>,
    upto: int,
) -> bool {
    &&& p.insts.len() <= q.insts.len()
    &&& q.blocks.len() == p.blocks.len()
    &&& forall|i: int| 0 <= i < p.insts.len() ==> #[trigger] q.insts[i] == p.insts[i]
    &&& forall|i: int| p.insts.len() <= i < q.insts.len() ==> !(#[trigger] q.insts[i]).global
    &&& forall|j: int| 0 <= j < pairs.len() ==> q.block((#[trigger] pairs[j]).0) == p.block(pairs[j].0)
    &&& forall|j: int| upto <= j < pairs.len() ==> q.block((#[trigger] pairs[j]).1).insts.len() == 0
    &&& forall|j: int|
        0 <= j < upto ==> q.block((#[trigger] pairs[j]).1).insts.len() == p.block(pairs[j].0).insts.len()
    &&& forall|j: int, k: int|
        j < upto && #[trigger] is_source(p, pairs, j, k) ==> m.contains_key(source(p, pairs, j, k).0) && q.block(
            pairs[j].1,
        ).insts[k] == m[source(p, pairs, j, k).0] && p.insts.len() <= m[source(p, pairs, j, k).0].0 < q.insts.len()
    &&& forall|j: int, k: int, a: int, b: int|
        j < upto && a < upto && #[trigger] is_source(p, pairs, j, k) && #[trigger] is_source(p, pairs, a, b) && m[source(
            p,
            pairs,
            j,
            k,
        ).0] == m[source(p, pairs, a, b).0] ==> j == a && k == b
}

#[verifier::rlimit(40)]
proof fn lemma_places_step(
    p: ProgramV,
    q: ProgramV,
    m: Map<usize, Inst>,
    pairs: Seq<(BasicBlock, BasicBlock)>,
    at: int,
)
    requires
        0 <= at < pairs.len(),
        sources_separate(p, pairs),
        copies_fresh(p, pairs),
        placed_upto(p, q, m, pairs, at),
        q.insts.len() + p.block(pairs[at].0).insts.len() <= usize::MAX,
    ensures
        ({
            let (r, more) = places_made(q, m, q.block(pairs[at].0).insts, pairs[at].1, 0);
            placed_upto(p, r, more, pairs, at + 1)
        }),
{
    let src = p.block(pairs[at].0).insts;
    let c = pairs[at].1;
    assert(q.block(pairs[at].0) == p.block(pairs[at].0));
    assert(src.no_duplicates()) by {
        assert forall|x: int, y: int| 0 <= x < src.len() && 0 <= y < src.len() && x != y implies src[x] != src[y] by {
            assert(is_source(p, pairs, at, x) && is_source(p, pairs, at, y));
            assert(source(p, pairs, at, x) == src[x] && source(p, pairs, at, y) == src[y]);
        }
    }
    lemma_places(q, m, src, c, 0);
    let (r, more) = places_made(q, m, src, c, 0);
    let n = q.insts.len();
    assert(src.skip(0) =~= src);
    assert(r.block(c).insts =~= run_of_places(n as int, src.len()));
    assert forall|i: int| 0 <= i < p.insts.len() implies #[trigger] r.insts[i] == p.insts[i] by {
        assert(r.insts[i] == q.insts[i]);
    }
    assert forall|i: int| p.insts.len() <= i < r.insts.len() implies !(#[trigger] r.insts[i]).global by {
        if i < n {
            assert(r.insts[i] == q.insts[i]);
        }
    }
    assert forall|j: int| 0 <= j < pairs.len() implies r.block((#[trigger] pairs[j]).0) == p.block(pairs[j].0) by {
        let b = pairs[j].0;
        assert(pairs[j].0 != pairs[at].1);
        if b.0 < q.blocks.len() {
            assert(r.blocks[b.0 as int] == q.blocks[b.0 as int]);
        }
    }
    assert forall|j: int| 0 <= j < pairs.len() && j != at implies r.block((#[trigger] pairs[j]).1) == q.block(pairs[j].1) by {
        let b = pairs[j].1;
        if j < at {
            assert(pairs[j].1 != pairs[at].1);
        } else {
            assert(pairs[at].1 != pairs[j].1);
        }
        assert(b.0 < q.blocks.len());
        assert(r.blocks[b.0 as int] == q.blocks[b.0 as int]);
    }
    assert forall|j: int, k: int| j < at && #[trigger] is_source(p, pairs, j, k) implies more.contains_key(
        source(p, pairs, j, k).0,
    ) && more[source(p, pairs, j, k).0] == m[source(p, pairs, j, k).0] by {
        let i = source(p, pairs, j, k);
        assert(!src.contains(Inst(i.0))) by {
            if src.contains(i) {
                let y = src.index_of(i);
                assert(is_source(p, pairs, at, y));
                assert(source(p, pairs, at, y) == i);
            }
        }
        assert(more.contains_key(i.0) == m.contains_key(i.0));
    }
    assert forall|j: int, k: int| j < at + 1 && #[trigger] is_source(p, pairs, j, k) implies more.contains_key(
        source(p, pairs, j, k).0,
    ) && r.block(pairs[j].1).insts[k] == more[source(p, pairs, j, k).0] && p.insts.len() <= more[source(
        p,
        pairs,
        j,
        k,
    ).0].0 < r.insts.len() by {
        let i = source(p, pairs, j, k);
        if j == at {
            assert(src[k] == i);
            assert(more[src[k].0] == Inst((n + k) as usize));
        } else {
            assert(r.block(pairs[j].1) == q.block(pairs[j].1));
        }
    }
    assert forall|j: int, k: int, a: int, b: int|
        j < at + 1 && a < at + 1 && #[trigger] is_source(p, pairs, j, k) && #[trigger] is_source(p, pairs, a, b) && more[source(
            p,
            pairs,
            j,
            k,
        ).0] == more[source(p, pairs, a, b).0] implies j == a && k == b by {
        let i = source(p, pairs, j, k);
        let o = source(p, pairs, a, b);
        if j == at {
            assert(src[k] == i);
            assert(more[src[k].0] == Inst((n + k) as usize));
        }
        if a == at {
            assert(src[b] == o);
            assert(more[src[b].0] == Inst((n + b) as usize));
        }
    }
}

pub(crate) proof fn lemma_places_size(p: ProgramV, m: Map<usize, Inst>, insts: Seq<Inst>, c: BasicBlock, from: int)
    requires
        0 <= from <= insts.len(),
    ensures
        places_made(p, m, insts, c, from).0.insts.len() == p.insts.len() + insts.len() - from,
    decreases insts.len() - from,
{
    if from < insts.len() {
        reveal(ProgramV::push_inst);
        reveal(ProgramV::set_block_insts);
        let place = p.next_inst();
        lemma_places_size(
            p.push_inst(Op::Undef, Seq::empty(), p.ty(insts[from]), false).append(c, place),
            m.insert(insts[from].0, place),
            insts,
            c,
            from + 1,
        );
    }
}

pub(crate) proof fn lemma_all_places_size(p: ProgramV, m: Map<usize, Inst>, pairs: Seq<(BasicBlock, BasicBlock)>, from: int)
    ensures
        all_places_made(p, m, pairs, from).0.insts.len() >= p.insts.len(),
    decreases pairs.len() - from,
{
    if from < pairs.len() {
        let insts = p.block(pairs[from].0).insts;
        lemma_places_size(p, m, insts, pairs[from].1, 0);
        let (q, more) = places_made(p, m, insts, pairs[from].1, 0);
        lemma_all_places_size(q, more, pairs, from + 1);
    }
}

pub(crate) proof fn lemma_all_places(
    p: ProgramV,
    q: ProgramV,
    m: Map<usize, Inst>,
    pairs: Seq<(BasicBlock, BasicBlock)>,
    from: int,
)
    requires
        0 <= from <= pairs.len(),
        sources_separate(p, pairs),
        copies_fresh(p, pairs),
        placed_upto(p, q, m, pairs, from),
        all_places_made(q, m, pairs, from).0.insts.len() <= usize::MAX,
    ensures
        placed_upto(
            p,
            all_places_made(q, m, pairs, from).0,
            all_places_made(q, m, pairs, from).1,
            pairs,
            pairs.len() as int,
        ),
    decreases pairs.len() - from,
{
    if from < pairs.len() {
        let insts = q.block(pairs[from].0).insts;
        assert(q.block(pairs[from].0) == p.block(pairs[from].0));
        let (r, more) = places_made(q, m, insts, pairs[from].1, 0);
        lemma_places_size(q, m, insts, pairs[from].1, 0);
        lemma_all_places_size(r, more, pairs, from + 1);
        lemma_places_step(p, q, m, pairs, from);
        lemma_all_places(p, r, more, pairs, from + 1);
    }
}

/// The instruction at `c` is a copy of instruction `i` of `p`.
pub open spec fn is_copy(
    p: ProgramV,
    r: ProgramV,
    m: Map<usize, Inst>,
    pairs: Seq<(BasicBlock, BasicBlock)>,
    i: Inst,
    c: Inst,
) -> bool {
    &&& r.op(c) == moved(p.op(i), pairs)
    &&& r.args(c) == stand_ins(p, m, p.args(i))
    &&& r.ty(c) == p.ty(i)
}

/// The first places are filled: all of the copies before `j`, and those before `k` in copy `j`.
pub open spec fn filled_upto(
    p: ProgramV,
    q: ProgramV,
    m: Map<usize, Inst>,
    pairs: Seq<(BasicBlock, BasicBlock)>,
    j: int,
    k: int,
) -> bool {
    &&& placed_upto(p, q, m, pairs, pairs.len() as int)
    &&& forall|a: int, b: int|
        #[trigger] is_source(p, pairs, a, b) && (a < j || (a == j && b < k)) ==> is_copy(
            p,
            q,
            m,
            pairs,
            source(p, pairs, a, b),
            m[source(p, pairs, a, b).0],
        )
}

#[verifier::rlimit(40)]
proof fn lemma_fill_step(
    p: ProgramV,
    q: ProgramV,
    m: Map<usize, Inst>,
    pairs: Seq<(BasicBlock, BasicBlock)>,
    j: int,
    k: int,
)
    requires
        sources_separate(p, pairs),
        is_source(p, pairs, j, k),
        filled_upto(p, q, m, pairs, j, k),
    ensures
        ({
            let i = source(p, pairs, j, k);
            filled_upto(
                p,
                q.set_inst(stand_in(q, m, i), moved(q.op(i), pairs), stand_ins(q, m, q.args(i)), q.ty(i)),
                m,
                pairs,
                j,
                k + 1,
            )
        }),
{
    reveal(ProgramV::set_inst);
    let i = source(p, pairs, j, k);
    assert(q.insts[i.0 as int] == p.insts[i.0 as int]);
    assert(q.inst(i) == p.inst(i));
    let c = m[i.0];
    assert(stand_in(q, m, i) == c);
    let r = q.set_inst(c, moved(q.op(i), pairs), stand_ins(q, m, q.args(i)), q.ty(i));
    assert(stand_ins(q, m, q.args(i)) =~= stand_ins(p, m, p.args(i))) by {
        assert forall|t: int| 0 <= t < p.args(i).len() implies stand_in(q, m, p.args(i)[t]) == stand_in(
            p,
            m,
            p.args(i)[t],
        ) by {
            let a = p.args(i)[t];
            if a.0 < p.insts.len() {
                assert(q.insts[a.0 as int] == p.insts[a.0 as int]);
            } else if a.0 < q.insts.len() {
                assert(!q.insts[a.0 as int].global);
            }
        }
    }
    assert forall|x: int| 0 <= x < p.insts.len() implies #[trigger] r.insts[x] == p.insts[x] by {
        assert(q.insts[x] == p.insts[x]);
    }
    assert forall|x: int| p.insts.len() <= x < r.insts.len() implies !(#[trigger] r.insts[x]).global by {
        assert(!q.insts[x].global);
    }
    assert forall|a: int| 0 <= a < pairs.len() implies r.block((#[trigger] pairs[a]).0) == p.block(pairs[a].0) by {
        assert(q.block(pairs[a].0) == p.block(pairs[a].0));
    }
    assert(placed_upto(p, r, m, pairs, pairs.len() as int));
    assert forall|a: int, b: int|
        #[trigger] is_source(p, pairs, a, b) && (a < j || (a == j && b < k + 1)) implies is_copy(
        p,
        r,
        m,
        pairs,
        source(p, pairs, a, b),
        m[source(p, pairs, a, b).0],
    ) by {
        if a != j || b != k {
            let d = m[source(p, pairs, a, b).0];
            assert(d != c);
            assert(r.inst(d) == q.inst(d));
        }
    }
}

proof fn lemma_block_filled(
    p: ProgramV,
    q: ProgramV,
    m: Map<usize, Inst>,
    pairs: Seq<(BasicBlock, BasicBlock)>,
    j: int,
    k: int,
)
    requires
        sources_separate(p, pairs),
        0 <= j < pairs.len(),
        0 <= k <= p.block(pairs[j].0).insts.len(),
        filled_upto(p, q, m, pairs, j, k),
    ensures
        filled_upto(p, places_filled(q, m, pairs, p.block(pairs[j].0).insts, k), m, pairs, j + 1, 0),
    decreases p.block(pairs[j].0).insts.len() - k,
{
    let insts = p.block(pairs[j].0).insts;
    if k < insts.len() {
        lemma_fill_step(p, q, m, pairs, j, k);
        let i = insts[k];
        assert(i == source(p, pairs, j, k));
        lemma_block_filled(
            p,
            q.set_inst(stand_in(q, m, i), moved(q.op(i), pairs), stand_ins(q, m, q.args(i)), q.ty(i)),
            m,
            pairs,
            j,
            k + 1,
        );
    }
}

pub(crate) proof fn lemma_all_filled(
    p: ProgramV,
    q: ProgramV,
    m: Map<usize, Inst>,
    pairs: Seq<(BasicBlock, BasicBlock)>,
    from: int,
)
    requires
        sources_separate(p, pairs),
        0 <= from <= pairs.len(),
        filled_upto(p, q, m, pairs, from, 0),
    ensures
        filled_upto(p, all_places_filled(q, m, pairs, from), m, pairs, pairs.len() as int, 0),
    decreases pairs.len() - from,
{
    if from < pairs.len() {
        assert(q.block(pairs[from].0) == p.block(pairs[from].0));
        lemma_block_filled(p, q, m, pairs, from, 0);
        lemma_all_filled(p, places_filled(q, m, pairs, p.block(pairs[from].0).insts, 0), m, pairs, from + 1);
    }
}

/// What stands for which value once the bodies are copied.
pub open spec fn stand_in_map(p: ProgramV, m: Map<usize, Inst>, pairs: Seq<(BasicBlock, BasicBlock)>) -> Map<usize, Inst> {
    all_places_made(p, m, pairs, 0).1
}

/// A copied body is the body: each block has a copy of each of its instructions, in the same order, that does
/// the same with what stands for the operands; the body itself stays as it is.
pub proof fn bodies_are_copied_faithfully(
    p: ProgramV,
    m: Map<usize, Inst>,
    pairs: Seq<(BasicBlock, BasicBlock)>,
    j: int,
    k: int,
)
    requires
        sources_separate(p, pairs),
        copies_fresh(p, pairs),
        all_places_made(p, m, pairs, 0).0.insts.len() <= usize::MAX,
        is_source(p, pairs, j, k),
    ensures
        ({
            let r = bodies_ported(p, m, pairs);
            let i = source(p, pairs, j, k);
            &&& r.block(pairs[j].0) == p.block(pairs[j].0)
            &&& r.inst(i) == p.inst(i)
            &&& r.block(pairs[j].1).insts.len() == p.block(pairs[j].0).insts.len()
            &&& r.block(pairs[j].1).insts[k] == stand_in_map(p, m, pairs)[i.0]
            &&& is_copy(p, r, stand_in_map(p, m, pairs), pairs, i, r.block(pairs[j].1).insts[k])
        }),
{
    assert(placed_upto(p, p, m, pairs, 0));
    lemma_all_places(p, p, m, pairs, 0);
    let (q, more) = all_places_made(p, m, pairs, 0);
    assert(filled_upto(p, q, more, pairs, 0, 0));
    lemma_all_filled(p, q, more, pairs, 0);
    let r = bodies_ported(p, m, pairs);
    let i = source(p, pairs, j, k);
    assert(r.insts[i.0 as int] == p.insts[i.0 as int]);
}

/// The blocks that a copy ends in are told apart by what ends them.
pub open spec fn ends_apart(p: ProgramV, pairs: Seq<(BasicBlock, BasicBlock)>) -> bool {
    forall|j: int, a: int|
        0 <= j < a < pairs.len() ==> p.terminator((#[trigger] pairs[j]).1) != p.terminator((#[trigger] pairs[a]).1)
}

pub(crate) proof fn lemma_routed(p: ProgramV, pairs: Seq<(BasicBlock, BasicBlock)>, c: BasicBlock, from: int, j: int)
    requires
        ends_apart(p, pairs),
        0 <= from <= pairs.len(),
        0 <= j < pairs.len(),
        p.terminator(pairs[j].1).0 < p.insts.len(),
    ensures
        ({
            let q = returns_routed(p, pairs, c, from);
            let t = p.terminator(pairs[j].1);
            &&& q.blocks == p.blocks
            &&& q.insts.len() == p.insts.len()
            &&& q.args(t) == p.args(t)
            &&& j >= from && p.op(t) is Return ==> q.op(t) == Op::Jump(c)
            &&& j < from || !(p.op(t) is Return) ==> q.op(t) == p.op(t)
        }),
    decreases pairs.len() - from,
{
    if from < pairs.len() {
        reveal(ProgramV::set_inst);
        let t = p.terminator(pairs[from].1);
        let q = if p.op(t) is Return {
            p.set_inst(t, Op::Jump(c), p.args(t), Type::Unit)
        } else {
            p
        };
        assert(ends_apart(q, pairs)) by {
            assert forall|a: int, b: int| 0 <= a < b < pairs.len() implies q.terminator((#[trigger] pairs[a]).1)
                != q.terminator((#[trigger] pairs[b]).1) by {
                assert(p.terminator(pairs[a].1) != p.terminator(pairs[b].1));
            }
        }
        if j != from {
            assert(p.terminator(pairs[j].1) != t) by {
                if j < from {
                    assert(p.terminator(pairs[j].1) != p.terminator(pairs[from].1));
                } else {
                    assert(p.terminator(pairs[from].1) != p.terminator(pairs[j].1));
                }
            }
        }
        lemma_routed(q, pairs, c, from + 1, j);
    }
}

/// A copied block that returned leads to the block behind the call with what it returned; any other ends as
/// it did.
pub proof fn returns_lead_behind_the_call(p: ProgramV, pairs: Seq<(BasicBlock, BasicBlock)>, c: BasicBlock, j: int)
    requires
        ends_apart(p, pairs),
        0 <= j < pairs.len(),
        p.terminator(pairs[j].1).0 < p.insts.len(),
    ensures
        ({
            let q = returns_routed(p, pairs, c, 0);
            let t = p.terminator(pairs[j].1);
            &&& q.terminator(pairs[j].1) == t
            &&& q.args(t) == p.args(t)
            &&& q.op(t) == (if p.op(t) is Return {
                Op::Jump(c)
            } else {
                p.op(t)
            })
        }),
{
    lemma_routed(p, pairs, c, 0, j);
}

/// Parameters added to block `b` change no other block, nor what a block holds.
proof fn lemma_params_added(p: ProgramV, b: BasicBlock, tys: Seq<Type>, from: int)
    ensures
        ({
            let q = p.add_params(b, tys, from);
            &&& q.blocks.len() == p.blocks.len()
            &&& forall|x: int| 0 <= x < p.blocks.len() ==> (#[trigger] q.blocks[x]).insts == p.blocks[x].insts
        }),
    decreases tys.len() - from,
{
    if from < tys.len() {
        reveal(ProgramV::push_inst);
        reveal(ProgramV::set_block_params);
        let q = p.add_param(b, tys[from]);
        lemma_params_added(q, b, tys, from + 1);
        let r = q.add_params(b, tys, from + 1);
        assert forall|x: int| 0 <= x < p.blocks.len() implies (#[trigger] r.blocks[x]).insts == p.blocks[x].insts by {
            assert(r.blocks[x].insts == q.blocks[x].insts);
        }
    }
}

/// The blocks there were keep what they hold while copies are made behind them.
proof fn lemma_copies_elsewhere(
    st: CopyV,
    f: Function,
    prefix: Seq<char>,
    suffix: Seq<char>,
    blocks: Seq<BasicBlock>,
    from: int,
    n: int,
)
    requires
        0 <= from <= blocks.len(),
        n <= st.p.blocks.len(),
        blocks_copied(st, f, prefix, suffix, blocks, from).p.blocks.len() <= usize::MAX,
        forall|j: int| 0 <= j < st.pairs.len() ==> n <= (#[trigger] st.pairs[j]).1.0,
    ensures
        ({
            let end = blocks_copied(st, f, prefix, suffix, blocks, from);
            &&& end.p.blocks.len() >= st.p.blocks.len()
            &&& forall|x: int| 0 <= x < n ==> (#[trigger] end.p.blocks[x]).insts == st.p.blocks[x].insts
            &&& forall|j: int| 0 <= j < end.pairs.len() ==> n <= (#[trigger] end.pairs[j]).1.0
        }),
    decreases blocks.len() - from,
{
    lemma_copies_grow(st, f, prefix, suffix, blocks, from);
    if from < blocks.len() {
        let b = blocks[from];
        let next = block_copied(st, f, prefix, suffix, b);
        lemma_copies_grow(next, f, prefix, suffix, blocks, from + 1);
        let name = prefix + st.p.block(b).name + suffix;
        let c = st.p.next_block();
        reveal(ProgramV::push_block);
        reveal(ProgramV::set_func_blocks);
        lemma_params_added(st.p.push_block(name), c, param_types(st.p, b), 0);
        let made = st.p.basic_block(name, param_types(st.p, b));
        assert(next.p.blocks == made.blocks);
        assert(made.blocks.len() == st.p.blocks.len() + 1);
        assert forall|x: int| 0 <= x < n implies (#[trigger] next.p.blocks[x]).insts == st.p.blocks[x].insts by {
            assert(made.blocks[x].insts == st.p.push_block(name).blocks[x].insts);
        }
        lemma_copies_elsewhere(next, f, prefix, suffix, blocks, from + 1, n);
        let end = blocks_copied(next, f, prefix, suffix, blocks, from + 1);
        assert forall|x: int| 0 <= x < n implies (#[trigger] end.p.blocks[x]).insts == st.p.blocks[x].insts by {
            assert(end.p.blocks[x].insts == next.p.blocks[x].insts);
        }
    }
}

pub(crate) proof fn lemma_copies_grow(
    st: CopyV,
    f: Function,
    prefix: Seq<char>,
    suffix: Seq<char>,
    blocks: Seq<BasicBlock>,
    from: int,
)
    requires
        0 <= from <= blocks.len(),
    ensures
        blocks_copied(st, f, prefix, suffix, blocks, from).p.blocks.len() == st.p.blocks.len() + blocks.len() - from,
    decreases blocks.len() - from,
{
    if from < blocks.len() {
        let b = blocks[from];
        let next = block_copied(st, f, prefix, suffix, b);
        reveal(ProgramV::push_block);
        reveal(ProgramV::set_func_blocks);
        let name = prefix + st.p.block(b).name + suffix;
        lemma_params_added(st.p.push_block(name), st.p.next_block(), param_types(st.p, b), 0);
        lemma_copies_grow(next, f, prefix, suffix, blocks, from + 1);
    }
}

/// Copying bodies changes only the copies.
proof fn lemma_ported_elsewhere(p: ProgramV, m: Map<usize, Inst>, pairs: Seq<(BasicBlock, BasicBlock)>, from: int, n: int)
    requires
        0 <= from <= pairs.len(),
        0 <= n <= p.blocks.len(),
        forall|j: int| 0 <= j < pairs.len() ==> n <= (#[trigger] pairs[j]).1.0,
    ensures
        ({
            let q = all_places_made(p, m, pairs, from).0;
            &&& q.blocks.len() == p.blocks.len()
            &&& forall|x: int| 0 <= x < n ==> #[trigger] q.blocks[x] == p.blocks[x]
        }),
    decreases pairs.len() - from,
{
    if from < pairs.len() {
        let insts = p.block(pairs[from].0).insts;
        lemma_places_elsewhere(p, m, insts, pairs[from].1, 0, n);
        let (q, more) = places_made(p, m, insts, pairs[from].1, 0);
        lemma_ported_elsewhere(q, more, pairs, from + 1, n);
        let r = all_places_made(q, more, pairs, from + 1).0;
        assert forall|x: int| 0 <= x < n implies #[trigger] r.blocks[x] == p.blocks[x] by {
            assert(r.blocks[x] == q.blocks[x]);
        }
    }
}

proof fn lemma_places_elsewhere(p: ProgramV, m: Map<usize, Inst>, insts: Seq<Inst>, c: BasicBlock, from: int, n: int)
    requires
        0 <= from <= insts.len(),
        0 <= n <= c.0,
        n <= p.blocks.len(),
    ensures
        ({
            let q = places_made(p, m, insts, c, from).0;
            &&& q.blocks.len() == p.blocks.len()
            &&& forall|x: int| 0 <= x < n ==> #[trigger] q.blocks[x] == p.blocks[x]
        }),
    decreases insts.len() - from,
{
    if from < insts.len() {
        reveal(ProgramV::push_inst);
        reveal(ProgramV::set_block_insts);
        let place = p.next_inst();
        let p1 = p.push_inst(Op::Undef, Seq::empty(), p.ty(insts[from]), false).append(c, place);
        lemma_places_elsewhere(p1, m.insert(insts[from].0, place), insts, c, from + 1, n);
        let q = places_made(p, m, insts, c, from).0;
        assert forall|x: int| 0 <= x < n implies #[trigger] q.blocks[x] == p.blocks[x] by {
            assert(q.blocks[x] == p1.blocks[x]);
        }
    }
}

pub(crate) proof fn lemma_filled_elsewhere(p: ProgramV, m: Map<usize, Inst>, pairs: Seq<(BasicBlock, BasicBlock)>, from: int)
    ensures
        all_places_filled(p, m, pairs, from).blocks == p.blocks,
    decreases pairs.len() - from,
{
    if from < pairs.len() {
        let insts = p.block(pairs[from].0).insts;
        lemma_fills_elsewhere(p, m, pairs, insts, 0);
        lemma_filled_elsewhere(places_filled(p, m, pairs, insts, 0), m, pairs, from + 1);
    }
}

proof fn lemma_fills_elsewhere(
    p: ProgramV,
    m: Map<usize, Inst>,
    pairs: Seq<(BasicBlock, BasicBlock)>,
    insts: Seq<Inst>,
    from: int,
)
    ensures
        places_filled(p, m, pairs, insts, from).blocks == p.blocks,
    decreases insts.len() - from,
{
    if from < insts.len() {
        reveal(ProgramV::set_inst);
        let i = insts[from];
        lemma_fills_elsewhere(
            p.set_inst(stand_in(p, m, i), moved(p.op(i), pairs), stand_ins(p, m, p.args(i)), p.ty(i)),
            m,
            pairs,
            insts,
            from + 1,
        );
    }
}

pub(crate) proof fn lemma_routes_elsewhere(p: ProgramV, pairs: Seq<(BasicBlock, BasicBlock)>, c: BasicBlock, from: int)
    ensures
        returns_routed(p, pairs, c, from).blocks == p.blocks,
    decreases pairs.len() - from,
{
    if from < pairs.len() {
        reveal(ProgramV::set_inst);
        let t = p.terminator(pairs[from].1);
        lemma_routes_elsewhere(
            if p.op(t) is Return {
                p.set_inst(t, Op::Jump(c), p.args(t), Type::Unit)
            } else {
                p
            },
            pairs,
            c,
            from + 1,
        );
    }
}

/// The program with the block of the call of `s` split behind it.
pub open spec fn split_at(p: ProgramV, s: Site) -> ProgramV {
    split_after(
        p,
        s.caller,
        s.block,
        s.call,
        ""@ + p.block(s.block).name + "_inline_cont"@,
        result_types(p.func(s.callee).ret_ty),
    )
}

/// The copies of the blocks of the callee where the call of `s` is replaced.
pub open spec fn copies_at(p: ProgramV, s: Site) -> CopyV {
    let p1 = split_at(p, s);
    blocks_copied(
        (CopyV { p: p1, pairs: Seq::empty(), m: Map::empty(), anchor: s.block }),
        s.caller,
        ""@,
        "_"@ + p1.func(s.callee).name + "_inline"@,
        p1.func(s.callee).blocks,
        0,
    )
}

pub(crate) proof fn lemma_split(p: ProgramV, s: Site)
    requires
        s.block.0 < p.blocks.len(),
        p.blocks.len() < usize::MAX,
        p.block(s.block).insts.contains(s.call),
    ensures
        ({
            let q = split_at(p, s);
            let insts = p.block(s.block).insts;
            let k = position(insts, s.call, 0);
            &&& 0 <= k < insts.len()
            &&& insts[k] == s.call
            &&& forall|j: int| 0 <= j < k ==> insts[j] != s.call
            &&& q.blocks.len() == p.blocks.len() + 1
            &&& q.block(s.block).insts == insts.subrange(0, k + 1)
            &&& q.block(p.next_block()).insts == insts.subrange(k + 1, insts.len() as int)
        }),
{
    let insts = p.block(s.block).insts;
    let k = position(insts, s.call, 0);
    position_is_first(insts, s.call, 0);
    assert(k < insts.len()) by {
        let w = insts.index_of(s.call);
        assert(insts[w] == s.call);
    }
    let name = ""@ + p.block(s.block).name + "_inline_cont"@;
    let tys = result_types(p.func(s.callee).ret_ty);
    reveal(ProgramV::push_block);
    reveal(ProgramV::set_func_blocks);
    reveal(ProgramV::set_block_insts);
    lemma_params_added(p.push_block(name), p.next_block(), tys, 0);
}

/// The block of a replaced call ends in a jump to the copy of the callee's entry with the arguments of the
/// call, and what followed the call stands in a block of its own.
pub proof fn call_becomes_a_jump(p: ProgramV, s: Site)
    requires
        s.block.0 < p.blocks.len(),
        p.block(s.block).insts.contains(s.call),
        copies_at(p, s).p.blocks.len() <= usize::MAX,
        inlined(p, s).insts.len() <= usize::MAX,
    ensures
        ({
            let q = inlined(p, s);
            let insts = p.block(s.block).insts;
            let k = position(insts, s.call, 0);
            let jump = q.block(s.block).insts.last();
            &&& q.block(s.block).insts == insts.subrange(0, k).push(jump)
            &&& q.block(p.next_block()).insts == insts.subrange(k + 1, insts.len() as int)
            &&& q.op(jump) == Op::Jump(
                moved_block(copies_at(p, s).pairs, nth_block(split_at(p, s).func(s.callee).blocks, 0)),
            )
            &&& q.args(jump) == p.args(s.call)
        }),
{
    let insts = p.block(s.block).insts;
    let k = position(insts, s.call, 0);
    let c = p.next_block();
    let p1 = split_at(p, s);
    let start = CopyV { p: p1, pairs: Seq::<(BasicBlock, BasicBlock)>::empty(), m: Map::<usize, Inst>::empty(), anchor: s.block };
    let suffix = "_"@ + p1.func(s.callee).name + "_inline"@;
    let st = copies_at(p, s);
    let n = p.blocks.len() + 1;
    lemma_copies_grow(start, s.caller, ""@, suffix, p1.func(s.callee).blocks, 0);
    assert(p1.blocks.len() == n) by {
        reveal(ProgramV::push_block);
        reveal(ProgramV::set_func_blocks);
        reveal(ProgramV::set_block_insts);
        lemma_params_added(
            p.push_block(""@ + p.block(s.block).name + "_inline_cont"@),
            c,
            result_types(p.func(s.callee).ret_ty),
            0,
        );
    }
    lemma_split(p, s);
    lemma_copies_elsewhere(start, s.caller, ""@, suffix, p1.func(s.callee).blocks, 0, n as int);
    assert(st.p.blocks[s.block.0 as int].insts == p1.blocks[s.block.0 as int].insts);
    assert(st.p.blocks[c.0 as int].insts == p1.blocks[c.0 as int].insts);
    let p2 = bodies_ported(st.p, st.m, st.pairs);
    let (placed, more) = all_places_made(st.p, st.m, st.pairs, 0);
    lemma_ported_elsewhere(st.p, st.m, st.pairs, 0, n as int);
    lemma_filled_elsewhere(placed, more, st.pairs, 0);
    assert(p2.blocks == placed.blocks);
    assert(p2.blocks[s.block.0 as int] == st.p.blocks[s.block.0 as int]);
    assert(p2.blocks[c.0 as int] == st.p.blocks[c.0 as int]);
    let p3 = returns_routed(p2, st.pairs, c, 0);
    lemma_routes_elsewhere(p2, st.pairs, c, 0);
    let ty = p.ty(s.call);
    let p4 = if ty is Unit {
        p3
    } else {
        p3.replace_uses(s.call, nth(p3.block(c).params, 0))
    };
    assert(p4.blocks == p3.blocks) by {
        reveal(ProgramV::replace_uses);
    }
    let p5 = p4.remove(s.block, s.call);
    let head = insts.subrange(0, k + 1);
    position_is_first(head, s.call, 0);
    assert(head[k] == s.call);
    assert(position(head, s.call, 0) == k) by {
        let at = position(head, s.call, 0);
        assert(head[at] == insts[at]);
    }
    assert(without(head, s.call) =~= insts.subrange(0, k));
    assert(p5.block(s.block).insts == insts.subrange(0, k) && p5.block(c) == p4.block(c) && p5.blocks.len()
        == p4.blocks.len()) by {
        reveal(ProgramV::set_block_insts);
        reveal(ProgramV::set_inst);
    }
    reveal(ProgramV::push_inst);
    reveal(ProgramV::set_block_insts);
    let jump = p5.next_inst();
    let q = inlined(p, s);
    assert(q.insts.len() == p5.insts.len() + 1);
    assert(q.block(s.block).insts == insts.subrange(0, k).push(jump));
}

} // verus!
