//! A copied instruction does with the copies of its operands what the instruction does with them.

use vstd::prelude::*;

use crate::blocked_reduction::{
    binary_made, body_cloned, lane_built, lane_map, literal_made, CandidateV, LaneBlocks,
};
use crate::cloning::{all_cloned, cloned, moved, sent};
use crate::invariant_reduction_hoisting::{bodies_copied, insts_copied};
use crate::ir::{BasicBlock, BinaryOp, Function, Inst, Op, ProgramV, Type};
use crate::loops::LoopV;

verus! {

/// Instruction `a` is one that copying copies.
pub open spec fn copies_it(p: ProgramV, f: Function, pairs: Seq<(BasicBlock, BasicBlock)>, a: Inst) -> bool {
    !p.inst(a).global && p.parent_bb(f, a) is Some && sent(pairs, p.parent_bb(f, a)->0, 0) is Some
}

/// What stands for value `a`.
pub open spec fn stand(p: ProgramV, m: Map<usize, Inst>, a: Inst) -> Inst {
    if !p.inst(a).global && m.contains_key(a.0) {
        m[a.0]
    } else {
        a
    }
}

/// Instruction `m[x]` of `q` is a copy of instruction `x` of `p`, and its operands that copying copies are
/// copied.
pub open spec fn is_faithful(
    p: ProgramV,
    f: Function,
    pairs: Seq<(BasicBlock, BasicBlock)>,
    q: ProgramV,
    m: Map<usize, Inst>,
    x: usize,
) -> bool {
    let i = Inst(x);
    let c = m[x];
    &&& q.op(c) == moved(p.op(i), pairs)
    &&& q.ty(c) == p.ty(i)
    &&& q.args(c).len() == p.args(i).len()
    &&& forall|k: int| 0 <= k < p.args(i).len() ==> #[trigger] q.args(c)[k] == stand(p, m, p.args(i)[k])
    &&& forall|k: int|
        0 <= k < p.args(i).len() && copies_it(p, f, pairs, #[trigger] p.args(i)[k]) ==> m.contains_key(p.args(i)[k].0)
}

/// The instructions that copying copies are among the first `n`, and their operands exist.
pub open spec fn closed_body(p: ProgramV, f: Function, pairs: Seq<(BasicBlock, BasicBlock)>, n: nat) -> bool {
    &&& n <= p.insts.len() <= usize::MAX
    &&& forall|a: Inst| #[trigger] copies_it(p, f, pairs, a) ==> a.0 < n
    &&& forall|a: Inst, k: int|
        copies_it(p, f, pairs, a) && 0 <= k < p.args(a).len() ==> (#[trigger] p.args(a)[k]).0 < p.insts.len()
}

/// Blocks hold in `q` what they held in `p`, and copies behind it.
pub open spec fn blocks_prolonged(p: ProgramV, q: ProgramV) -> bool {
    &&& q.blocks.len() == p.blocks.len()
    &&& forall|b: int, i: Inst|
        0 <= b < p.blocks.len() && i.0 < p.insts.len() ==> (#[trigger] q.blocks[b].insts.contains(i)
            == p.blocks[b].insts.contains(i))
}

/// Copies go to block `b`.
pub open spec fn takes_copies(pairs: Seq<(BasicBlock, BasicBlock)>, b: BasicBlock) -> bool {
    exists|k: int| 0 <= k < pairs.len() && (#[trigger] pairs[k]).1 == b
}

proof fn lemma_sent(pairs: Seq<(BasicBlock, BasicBlock)>, b: BasicBlock, from: int)
    requires
        0 <= from,
    ensures
        sent(pairs, b, from) matches Some(d) ==> takes_copies(pairs, d),
    decreases pairs.len() - from,
{
    if from < pairs.len() && pairs[from].0 != b {
        lemma_sent(pairs, b, from + 1);
    }
}

/// The state of copying: `m0` was given, `m` is known now, and the instructions of `open` are being copied.
pub open spec fn in_progress(
    p: ProgramV,
    f: Function,
    pairs: Seq<(BasicBlock, BasicBlock)>,
    m0: Map<usize, Inst>,
    q: ProgramV,
    m: Map<usize, Inst>,
    open: Set<usize>,
) -> bool {
    &&& p.insts.len() <= q.insts.len()
    &&& q.funcs == p.funcs
    &&& blocks_prolonged(p, q)
    &&& forall|b: BasicBlock| !takes_copies(pairs, b) ==> #[trigger] q.block(b) == p.block(b)
    &&& forall|i: int| 0 <= i < p.insts.len() ==> #[trigger] q.insts[i] == p.insts[i]
    &&& forall|x: usize| #[trigger] m0.contains_key(x) ==> m.contains_key(x) && m[x] == m0[x]
    &&& forall|x: usize|
        #[trigger] m.contains_key(x) && !m0.contains_key(x) ==> x < p.insts.len() && copies_it(p, f, pairs, Inst(x))
            && p.insts.len() <= m[x].0 < q.insts.len()
    &&& forall|x: usize, y: usize|
        #[trigger] m.contains_key(x) && #[trigger] m.contains_key(y) && !m0.contains_key(x) && !m0.contains_key(y) && m[x]
            == m[y] ==> x == y
    &&& forall|x: usize|
        #[trigger] m.contains_key(x) && !m0.contains_key(x) && !open.contains(x) ==> is_faithful(p, f, pairs, q, m, x)
}

/// How many of the first `n` instructions nothing stands for.
pub open spec fn unmapped(m: Map<usize, Inst>, n: nat) -> nat
    decreases n,
{
    if n == 0 {
        0
    } else {
        unmapped(m, (n - 1) as nat) + if m.contains_key((n - 1) as usize) {
            0nat
        } else {
            1nat
        }
    }
}

proof fn lemma_unmapped_falls(m: Map<usize, Inst>, more: Map<usize, Inst>, n: nat, x: usize)
    requires
        n <= usize::MAX,
        forall|y: usize| m.contains_key(y) ==> #[trigger] more.contains_key(y),
    ensures
        unmapped(more, n) <= unmapped(m, n),
        x < n && !m.contains_key(x) && more.contains_key(x) ==> unmapped(more, n) < unmapped(m, n),
    decreases n,
{
    if n > 0 {
        lemma_unmapped_falls(m, more, (n - 1) as nat, x);
        assert(m.contains_key((n - 1) as usize) ==> more.contains_key((n - 1) as usize));
    }
}

/// Map `more` says what `m` says.
pub open spec fn says_more(m: Map<usize, Inst>, more: Map<usize, Inst>) -> bool {
    forall|y: usize| #[trigger] m.contains_key(y) ==> more.contains_key(y) && more[y] == m[y]
}

/// In which block an instruction stands does not change while copies are made.
proof fn lemma_parent_stays(p: ProgramV, q: ProgramV, f: Function, i: Inst, from: int)
    requires
        q.funcs == p.funcs,
        blocks_prolonged(p, q),
        i.0 < p.insts.len(),
        0 <= from,
    ensures
        q.parent_from(f, i, from) == p.parent_from(f, i, from),
    decreases p.func(f).blocks.len() - from,
{
    if from < p.func(f).blocks.len() {
        let b = p.func(f).blocks[from];
        if b.0 < p.blocks.len() {
            assert(q.blocks[b.0 as int].insts.contains(i) == p.blocks[b.0 as int].insts.contains(i));
        }
        lemma_parent_stays(p, q, f, i, from + 1);
    }
}

/// What an instruction that is not being copied stands for stays as copying goes on.
proof fn lemma_faithful_on(
    p: ProgramV,
    f: Function,
    pairs: Seq<(BasicBlock, BasicBlock)>,
    m0: Map<usize, Inst>,
    q: ProgramV,
    m: Map<usize, Inst>,
    r: ProgramV,
    more: Map<usize, Inst>,
    x: usize,
)
    requires
        is_faithful(p, f, pairs, q, m, x),
        m.contains_key(x),
        says_more(m, more),
        forall|y: usize|
            #[trigger] more.contains_key(y) && !m.contains_key(y) ==> copies_it(p, f, pairs, Inst(y)),
        r.inst(m[x]) == q.inst(m[x]),
    ensures
        is_faithful(p, f, pairs, r, more, x),
{
    let i = Inst(x);
    assert(more[x] == m[x]);
    assert forall|k: int| 0 <= k < p.args(i).len() implies #[trigger] r.args(more[x])[k] == stand(
        p,
        more,
        p.args(i)[k],
    ) by {
        let a = p.args(i)[k];
        assert(q.args(m[x])[k] == stand(p, m, a));
        if !m.contains_key(a.0) && more.contains_key(a.0) {
            assert(Inst(a.0) == a);
            assert(copies_it(p, f, pairs, a));
        }
    }
}

pub(crate) proof fn lemma_cloned_grows(
    p: ProgramV,
    f: Function,
    pairs: Seq<(BasicBlock, BasicBlock)>,
    m: Map<usize, Inst>,
    i: Inst,
    fuel: nat,
)
    ensures
        cloned(p, f, pairs, m, i, fuel).0.insts.len() >= p.insts.len(),
    decreases fuel, 0int, 0int,
{
    if !p.inst(i).global && !m.contains_key(i.0) && fuel > 0 {
        reveal(ProgramV::push_inst);
        reveal(ProgramV::set_inst);
        reveal(ProgramV::set_block_insts);
        lemma_all_cloned_grows(
            p.push_inst(Op::Undef, Seq::empty(), p.ty(i), false),
            f,
            pairs,
            m.insert(i.0, p.next_inst()),
            p.args(i),
            0,
            Seq::empty(),
            (fuel - 1) as nat,
        );
    }
}

proof fn lemma_all_cloned_grows(
    p: ProgramV,
    f: Function,
    pairs: Seq<(BasicBlock, BasicBlock)>,
    m: Map<usize, Inst>,
    args: Seq<Inst>,
    from: int,
    out: Seq<Inst>,
    fuel: nat,
)
    ensures
        all_cloned(p, f, pairs, m, args, from, out, fuel).0.insts.len() >= p.insts.len(),
    decreases fuel, 1int, args.len() - from,
{
    if from < args.len() {
        lemma_cloned_grows(p, f, pairs, m, args[from], fuel);
        let (q, more, r) = cloned(p, f, pairs, m, args[from], fuel);
        lemma_all_cloned_grows(q, f, pairs, more, args, from + 1, out.push(r), fuel);
    }
}

/// A place made for the copy of instruction `i`.
proof fn lemma_opened(
    p: ProgramV,
    f: Function,
    pairs: Seq<(BasicBlock, BasicBlock)>,
    m0: Map<usize, Inst>,
    q: ProgramV,
    m: Map<usize, Inst>,
    open: Set<usize>,
    i: Inst,
)
    requires
        in_progress(p, f, pairs, m0, q, m, open),
        copies_it(p, f, pairs, i),
        i.0 < p.insts.len(),
        !m.contains_key(i.0),
        q.insts.len() < usize::MAX,
    ensures
        in_progress(
            p,
            f,
            pairs,
            m0,
            q.push_inst(Op::Undef, Seq::empty(), q.ty(i), false),
            m.insert(i.0, q.next_inst()),
            open.insert(i.0),
        ),
{
    reveal(ProgramV::push_inst);
    let r = q.push_inst(Op::Undef, Seq::empty(), q.ty(i), false);
    let more = m.insert(i.0, q.next_inst());
    assert forall|b: BasicBlock| !takes_copies(pairs, b) implies #[trigger] r.block(b) == p.block(b) by {
        assert(q.block(b) == p.block(b));
    }
    assert forall|x: int| 0 <= x < p.insts.len() implies #[trigger] r.insts[x] == p.insts[x] by {
        assert(q.insts[x] == p.insts[x]);
    }
    assert(Inst(i.0) == i);
    assert forall|x: usize| #[trigger] m0.contains_key(x) implies more.contains_key(x) && more[x] == m0[x] by {
        assert(m.contains_key(x));
    }
    assert forall|x: usize| #[trigger] more.contains_key(x) && !m0.contains_key(x) implies x < p.insts.len() && copies_it(
        p,
        f,
        pairs,
        Inst(x),
    ) && p.insts.len() <= more[x].0 < r.insts.len() by {
        if x != i.0 {
            assert(m.contains_key(x));
        }
    }
    assert forall|x: usize, y: usize|
        #[trigger] more.contains_key(x) && #[trigger] more.contains_key(y) && !m0.contains_key(x) && !m0.contains_key(y)
            && more[x] == more[y] implies x == y by {
        if x != i.0 {
            assert(m.contains_key(x));
        }
        if y != i.0 {
            assert(m.contains_key(y));
        }
    }
    assert forall|x: usize|
        #[trigger] more.contains_key(x) && !m0.contains_key(x) && !open.insert(i.0).contains(x) implies is_faithful(
        p,
        f,
        pairs,
        r,
        more,
        x,
    ) by {
        assert(m.contains_key(x));
        assert(m[x].0 < q.insts.len());
        assert(r.inst(m[x]) == q.inst(m[x]));
        lemma_faithful_on(p, f, pairs, m0, q, m, r, more, x);
    }
}

/// The place of instruction `i` filled and put at the end of block `dest`.
proof fn lemma_closed(
    p: ProgramV,
    f: Function,
    pairs: Seq<(BasicBlock, BasicBlock)>,
    m0: Map<usize, Inst>,
    q: ProgramV,
    m: Map<usize, Inst>,
    open: Set<usize>,
    i: Inst,
    args: Seq<Inst>,
    dest: BasicBlock,
)
    requires
        in_progress(p, f, pairs, m0, q, m, open.insert(i.0)),
        i.0 < p.insts.len(),
        m.contains_key(i.0),
        !m0.contains_key(i.0),
        takes_copies(pairs, dest),
        args.len() == p.args(i).len(),
        forall|k: int| 0 <= k < args.len() ==> #[trigger] args[k] == stand(p, m, p.args(i)[k]),
        forall|k: int|
            0 <= k < p.args(i).len() && copies_it(p, f, pairs, #[trigger] p.args(i)[k]) ==> m.contains_key(
                p.args(i)[k].0,
            ),
    ensures
        in_progress(
            p,
            f,
            pairs,
            m0,
            q.set_inst(m[i.0], moved(p.op(i), pairs), args, p.ty(i)).append(dest, m[i.0]),
            m,
            open,
        ),
{
    reveal(ProgramV::set_inst);
    reveal(ProgramV::set_block_insts);
    let c = m[i.0];
    let mid = q.set_inst(c, moved(p.op(i), pairs), args, p.ty(i));
    let r = mid.append(dest, c);
    assert(r.insts == mid.insts);
    assert forall|b: BasicBlock| !takes_copies(pairs, b) implies #[trigger] r.block(b) == p.block(b) by {
        assert(q.block(b) == p.block(b));
    }
    assert forall|x: int| 0 <= x < p.insts.len() implies #[trigger] r.insts[x] == p.insts[x] by {
        assert(q.insts[x] == p.insts[x]);
    }
    assert(blocks_prolonged(p, r)) by {
        assert forall|b: int, j: Inst| 0 <= b < p.blocks.len() && j.0 < p.insts.len() implies (
        #[trigger] r.blocks[b].insts.contains(j) == p.blocks[b].insts.contains(j)) by {
            assert(q.blocks[b].insts.contains(j) == p.blocks[b].insts.contains(j));
            if b == dest.0 {
                let held = q.blocks[b].insts;
                assert(r.blocks[b].insts == held.push(c));
                if held.contains(j) {
                    let k = held.index_of(j);
                    assert(held.push(c)[k] == j);
                }
                if held.push(c).contains(j) {
                    let k = held.push(c).index_of(j);
                    assert(k < held.len());
                    assert(held[k] == j);
                }
            }
        }
    }
    assert(is_faithful(p, f, pairs, r, m, i.0)) by {
        assert(Inst(i.0) == i);
        assert(r.inst(c) == mid.inst(c));
    }
    assert forall|x: usize| #[trigger] m.contains_key(x) && !m0.contains_key(x) && !open.contains(x) implies is_faithful(
        p,
        f,
        pairs,
        r,
        m,
        x,
    ) by {
        if x != i.0 {
            assert(m[x] != c);
            assert(r.inst(m[x]) == q.inst(m[x]));
            lemma_faithful_on(p, f, pairs, m0, q, m, r, m, x);
        }
    }
}

proof fn lemma_cloned(
    p: ProgramV,
    f: Function,
    pairs: Seq<(BasicBlock, BasicBlock)>,
    m0: Map<usize, Inst>,
    q: ProgramV,
    m: Map<usize, Inst>,
    open: Set<usize>,
    i: Inst,
    fuel: nat,
    n: nat,
)
    requires
        in_progress(p, f, pairs, m0, q, m, open),
        closed_body(p, f, pairs, n),
        forall|x: usize| open.contains(x) ==> #[trigger] m.contains_key(x),
        i.0 < p.insts.len(),
        fuel >= unmapped(m, n),
        cloned(q, f, pairs, m, i, fuel).0.insts.len() < usize::MAX,
    ensures
        ({
            let (r, more, c) = cloned(q, f, pairs, m, i, fuel);
            &&& in_progress(p, f, pairs, m0, r, more, open)
            &&& says_more(m, more)
            &&& c == stand(p, more, i)
            &&& copies_it(p, f, pairs, i) ==> more.contains_key(i.0)
        }),
    decreases fuel, 0int, 0int,
{
    assert(q.insts[i.0 as int] == p.insts[i.0 as int]);
    assert(q.inst(i) == p.inst(i));
    lemma_parent_stays(p, q, f, i, 0);
    if !p.inst(i).global && !m.contains_key(i.0) {
        if copies_it(p, f, pairs, i) {
            assert(fuel > 0) by {
                lemma_unmapped_falls(m, m.insert(i.0, i), n, i.0);
            }
            let dest = sent(pairs, p.parent_bb(f, i)->0, 0)->0;
            lemma_sent(pairs, p.parent_bb(f, i)->0, 0);
            let shell = q.next_inst();
            let q1 = q.push_inst(Op::Undef, Seq::empty(), q.ty(i), false);
            let m1 = m.insert(i.0, shell);
            let open1 = open.insert(i.0);
            let (q2, m2, args) = all_cloned(q1, f, pairs, m1, q.args(i), 0, Seq::empty(), (fuel - 1) as nat);
            let r = q2.set_inst(shell, moved(q.op(i), pairs), args, q.ty(i)).append(dest, shell);
            assert(cloned(q, f, pairs, m, i, fuel) == (r, m2, shell));
            lemma_all_cloned_grows(q1, f, pairs, m1, q.args(i), 0, Seq::empty(), (fuel - 1) as nat);
            assert(r.insts.len() == q2.insts.len() && q1.insts.len() == q.insts.len() + 1) by {
                reveal(ProgramV::push_inst);
                reveal(ProgramV::set_inst);
                reveal(ProgramV::set_block_insts);
            }
            lemma_opened(p, f, pairs, m0, q, m, open, i);
            lemma_unmapped_falls(m, m1, n, i.0);
            assert forall|k: int| 0 <= k < p.args(i).len() implies (#[trigger] p.args(i)[k]).0 < p.insts.len() by {}
            lemma_all_cloned(p, f, pairs, m0, q1, m1, open1, p.args(i), 0, Seq::empty(), (fuel - 1) as nat, n);
            assert(m1.contains_key(i.0) && m1[i.0] == shell);
            assert(m2.contains_key(i.0) && m2[i.0] == shell);
            assert(!m0.contains_key(i.0));
            lemma_closed(p, f, pairs, m0, q2, m2, open, i, args, dest);
            assert forall|y: usize| #[trigger] m.contains_key(y) implies m2.contains_key(y) && m2[y] == m[y] by {
                assert(m1.contains_key(y));
            }
        }
    }
}

proof fn lemma_all_cloned(
    p: ProgramV,
    f: Function,
    pairs: Seq<(BasicBlock, BasicBlock)>,
    m0: Map<usize, Inst>,
    q: ProgramV,
    m: Map<usize, Inst>,
    open: Set<usize>,
    args: Seq<Inst>,
    from: int,
    out: Seq<Inst>,
    fuel: nat,
    n: nat,
)
    requires
        in_progress(p, f, pairs, m0, q, m, open),
        closed_body(p, f, pairs, n),
        forall|x: usize| open.contains(x) ==> #[trigger] m.contains_key(x),
        fuel >= unmapped(m, n),
        all_cloned(q, f, pairs, m, args, from, out, fuel).0.insts.len() < usize::MAX,
        0 <= from <= args.len(),
        out.len() == from,
        forall|k: int| 0 <= k < args.len() ==> (#[trigger] args[k]).0 < p.insts.len(),
        forall|k: int| 0 <= k < from ==> #[trigger] out[k] == stand(p, m, args[k]),
        forall|k: int| 0 <= k < from && copies_it(p, f, pairs, #[trigger] args[k]) ==> m.contains_key(args[k].0),
    ensures
        ({
            let (r, more, all) = all_cloned(q, f, pairs, m, args, from, out, fuel);
            &&& in_progress(p, f, pairs, m0, r, more, open)
            &&& says_more(m, more)
            &&& all.len() == args.len()
            &&& forall|k: int| 0 <= k < args.len() ==> #[trigger] all[k] == stand(p, more, args[k])
            &&& forall|k: int|
                0 <= k < args.len() && copies_it(p, f, pairs, #[trigger] args[k]) ==> more.contains_key(args[k].0)
        }),
    decreases fuel, 1int, args.len() - from,
{
    if from < args.len() {
        let (r, more, c) = cloned(q, f, pairs, m, args[from], fuel);
        lemma_all_cloned_grows(r, f, pairs, more, args, from + 1, out.push(c), fuel);
        lemma_cloned(p, f, pairs, m0, q, m, open, args[from], fuel, n);
        assert forall|y: usize| m.contains_key(y) implies #[trigger] more.contains_key(y) by {}
        lemma_unmapped_falls(m, more, n, 0);
        let next = out.push(c);
        assert forall|k: int| 0 <= k < from + 1 implies #[trigger] next[k] == stand(p, more, args[k]) by {
            if k < from {
                assert(next[k] == out[k]);
                let a = args[k];
                if !m.contains_key(a.0) && more.contains_key(a.0) && !p.inst(a).global {
                    assert(!m0.contains_key(a.0));
                    assert(Inst(a.0) == a);
                    assert(copies_it(p, f, pairs, a));
                }
            }
        }
        assert forall|k: int| 0 <= k < from + 1 && copies_it(p, f, pairs, #[trigger] args[k]) implies more.contains_key(
            args[k].0,
        ) by {
            if k < from {
                assert(m.contains_key(args[k].0));
            }
        }
        lemma_all_cloned(p, f, pairs, m0, r, more, open, args, from + 1, next, fuel, n);
        let (_, end, _) = all_cloned(r, f, pairs, more, args, from + 1, next, fuel);
        assert forall|y: usize| #[trigger] m.contains_key(y) implies end.contains_key(y) && end[y] == m[y] by {
            assert(more.contains_key(y));
        }
    }
}

/// What is known after copying, beyond `m0`, are faithful copies.
pub open spec fn all_faithful(
    p: ProgramV,
    f: Function,
    pairs: Seq<(BasicBlock, BasicBlock)>,
    m0: Map<usize, Inst>,
    q: ProgramV,
    m: Map<usize, Inst>,
) -> bool {
    &&& in_progress(p, f, pairs, m0, q, m, Set::empty())
    &&& forall|x: usize| #[trigger] m.contains_key(x) && !m0.contains_key(x) ==> is_faithful(p, f, pairs, q, m, x)
}

/// Copying one instruction, with everything that it uses and that copying copies, makes faithful copies and
/// leaves all else as it was.
pub proof fn copying_is_faithful(
    p: ProgramV,
    f: Function,
    pairs: Seq<(BasicBlock, BasicBlock)>,
    m: Map<usize, Inst>,
    i: Inst,
    fuel: nat,
    n: nat,
)
    requires
        closed_body(p, f, pairs, n),
        i.0 < p.insts.len(),
        fuel >= n,
        cloned(p, f, pairs, m, i, fuel).0.insts.len() < usize::MAX,
    ensures
        ({
            let (q, more, c) = cloned(p, f, pairs, m, i, fuel);
            &&& all_faithful(p, f, pairs, m, q, more)
            &&& says_more(m, more)
            &&& c == stand(p, more, i)
            &&& copies_it(p, f, pairs, i) ==> more.contains_key(i.0)
        }),
{
    lemma_unmapped_bound(m, n);
    assert(in_progress(p, f, pairs, m, p, m, Set::empty()));
    lemma_cloned(p, f, pairs, m, p, m, Set::empty(), i, fuel, n);
}

proof fn lemma_unmapped_bound(m: Map<usize, Inst>, n: nat)
    ensures
        unmapped(m, n) <= n,
    decreases n,
{
    if n > 0 {
        lemma_unmapped_bound(m, (n - 1) as nat);
    }
}

pub(crate) proof fn lemma_body_cloned(
    p: ProgramV,
    f: Function,
    pairs: Seq<(BasicBlock, BasicBlock)>,
    cand: CandidateV,
    m0: Map<usize, Inst>,
    q: ProgramV,
    m: Map<usize, Inst>,
    insts: Seq<Inst>,
    from: int,
    fuel: nat,
    n: nat,
)
    requires
        in_progress(p, f, pairs, m0, q, m, Set::empty()),
        closed_body(p, f, pairs, n),
        fuel >= n,
        body_cloned(q, f, pairs, cand, m, insts, from, fuel).0.insts.len() < usize::MAX,
        0 <= from,
        forall|k: int| 0 <= k < insts.len() ==> (#[trigger] insts[k]).0 < p.insts.len(),
    ensures
        ({
            let (r, more) = body_cloned(q, f, pairs, cand, m, insts, from, fuel);
            &&& in_progress(p, f, pairs, m0, r, more, Set::empty())
            &&& says_more(m, more)
            &&& forall|k: int|
                from <= k < insts.len() - 1 && #[trigger] insts[k] != cand.k_back && insts[k] != cand.ctr_back && insts[k]
                    != cand.ptr_back && copies_it(p, f, pairs, insts[k]) ==> more.contains_key(insts[k].0)
        }),
    decreases insts.len() - from,
{
    if from < insts.len() - 1 {
        let i = insts[from];
        if i == cand.k_back || i == cand.ctr_back || i == cand.ptr_back {
            lemma_body_cloned(p, f, pairs, cand, m0, q, m, insts, from + 1, fuel, n);
        } else {
            let (r, more, c) = cloned(q, f, pairs, m, i, fuel);
            lemma_body_grows(r, f, pairs, cand, more, insts, from + 1, fuel);
            lemma_unmapped_bound(m, n);
            lemma_cloned(p, f, pairs, m0, q, m, Set::empty(), i, fuel, n);
            lemma_body_cloned(p, f, pairs, cand, m0, r, more, insts, from + 1, fuel, n);
            let end = body_cloned(r, f, pairs, cand, more, insts, from + 1, fuel).1;
            assert forall|y: usize| #[trigger] m.contains_key(y) implies end.contains_key(y) && end[y] == m[y] by {
                assert(more.contains_key(y));
            }
        }
    }
}

proof fn lemma_body_grows(
    q: ProgramV,
    f: Function,
    pairs: Seq<(BasicBlock, BasicBlock)>,
    cand: CandidateV,
    m: Map<usize, Inst>,
    insts: Seq<Inst>,
    from: int,
    fuel: nat,
)
    ensures
        body_cloned(q, f, pairs, cand, m, insts, from, fuel).0.insts.len() >= q.insts.len(),
    decreases insts.len() - from,
{
    if from < insts.len() - 1 {
        let i = insts[from];
        if i == cand.k_back || i == cand.ctr_back || i == cand.ptr_back {
            lemma_body_grows(q, f, pairs, cand, m, insts, from + 1, fuel);
        } else {
            lemma_cloned_grows(q, f, pairs, m, i, fuel);
            let (r, more, c) = cloned(q, f, pairs, m, i, fuel);
            lemma_body_grows(r, f, pairs, cand, more, insts, from + 1, fuel);
        }
    }
}

/// The blocks of loop `l` whose copies go to the body of the lane loop.
pub open spec fn lane_pairs(l: LoopV, b: LaneBlocks) -> Seq<(BasicBlock, BasicBlock)> {
    Seq::new(l.body.len(), |k: int| (l.body[k], b.body))
}

/// The program in which the index of a lane was made.
pub open spec fn lane_started(p: ProgramV, b: LaneBlocks, lane: int, index: Inst) -> ProgramV {
    let p1 = literal_made(p, lane as i32);
    binary_made(p1, BinaryOp::Add, index, p.next_inst()).append(b.body, p1.next_inst())
}

/// A lane does what a round of the loop does with the lane's own index, sum, pointer and carried values: all that
/// it consists of are faithful copies of what the round consists of, and its next sum is the copy of the loop's.
pub proof fn a_lane_does_a_round(
    p: ProgramV,
    f: Function,
    cand: CandidateV,
    l: LoopV,
    b: LaneBlocks,
    lane: int,
    index: Inst,
    sum: Inst,
    ptr: Inst,
    through: Seq<Inst>,
    fuel: nat,
)
    requires
        0 <= lane < 4,
        ({
            let q = lane_started(p, b, lane, index);
            &&& closed_body(q, f, lane_pairs(l, b), fuel)
            &&& forall|k: int|
                0 <= k < q.block(cand.body).insts.len() ==> (#[trigger] q.block(cand.body).insts[k]).0 < q.insts.len()
            &&& q.block(cand.body).insts.contains(cand.acc_back)
            &&& cand.acc_back != q.block(cand.body).insts.last()
            &&& copies_it(q, f, lane_pairs(l, b), cand.acc_back)
        }),
        cand.acc_back != cand.k_back,
        cand.acc_back != cand.ctr_back,
        cand.acc_back != cand.ptr_back,
        lane_built(p, f, cand, l, b, lane, index, sum, ptr, through, fuel).0.insts.len() < usize::MAX,
    ensures
        ({
            let q = lane_started(p, b, lane, index);
            let m = lane_map(cand, through, literal_made(p, lane as i32).next_inst(), sum, ptr);
            let (r, next) = lane_built(p, f, cand, l, b, lane, index, sum, ptr, through, fuel);
            exists|more: Map<usize, Inst>| #[trigger]
                all_faithful(q, f, lane_pairs(l, b), m, r, more) && says_more(m, more) && more.contains_key(
                    cand.acc_back.0,
                ) && next == more[cand.acc_back.0]
        }),
{
    let q = lane_started(p, b, lane, index);
    let m = lane_map(cand, through, literal_made(p, lane as i32).next_inst(), sum, ptr);
    let pairs = lane_pairs(l, b);
    let insts = q.block(cand.body).insts;
    let (r, more) = body_cloned(q, f, pairs, cand, m, insts, 0, fuel);
    assert(lane_built(p, f, cand, l, b, lane, index, sum, ptr, through, fuel).0 == r);
    assert(in_progress(q, f, pairs, m, q, m, Set::empty()));
    lemma_body_cloned(q, f, pairs, cand, m, q, m, insts, 0, fuel, fuel);
    let k = insts.index_of(cand.acc_back);
    assert(insts[k] == cand.acc_back);
    assert(k < insts.len() - 1);
    assert(all_faithful(q, f, pairs, m, r, more));
}

proof fn lemma_insts_copied(
    p: ProgramV,
    f: Function,
    pairs: Seq<(BasicBlock, BasicBlock)>,
    m0: Map<usize, Inst>,
    q: ProgramV,
    m: Map<usize, Inst>,
    insts: Seq<Inst>,
    whole: bool,
    from: int,
    fuel: nat,
    n: nat,
)
    requires
        in_progress(p, f, pairs, m0, q, m, Set::empty()),
        closed_body(p, f, pairs, n),
        fuel >= n,
        insts_copied(q, f, pairs, m, insts, whole, from, fuel).0.insts.len() < usize::MAX,
        0 <= from,
        forall|k: int| 0 <= k < insts.len() ==> (#[trigger] insts[k]).0 < p.insts.len(),
    ensures
        ({
            let (r, more) = insts_copied(q, f, pairs, m, insts, whole, from, fuel);
            &&& in_progress(p, f, pairs, m0, r, more, Set::empty())
            &&& says_more(m, more)
            &&& forall|k: int|
                from <= k < insts.len() && (whole || k < insts.len() - 1) && copies_it(p, f, pairs, #[trigger] insts[k])
                    ==> more.contains_key(insts[k].0)
        }),
    decreases insts.len() - from,
{
    if from < insts.len() && (whole || from < insts.len() - 1) {
        let (r, more, c) = cloned(q, f, pairs, m, insts[from], fuel);
        lemma_copied_grows(r, f, pairs, more, insts, whole, from + 1, fuel);
        lemma_unmapped_bound(m, n);
        lemma_cloned(p, f, pairs, m0, q, m, Set::empty(), insts[from], fuel, n);
        lemma_insts_copied(p, f, pairs, m0, r, more, insts, whole, from + 1, fuel, n);
        let end = insts_copied(r, f, pairs, more, insts, whole, from + 1, fuel).1;
        assert forall|y: usize| #[trigger] m.contains_key(y) implies end.contains_key(y) && end[y] == m[y] by {
            assert(more.contains_key(y));
        }
    }
}

proof fn lemma_copied_grows(
    q: ProgramV,
    f: Function,
    pairs: Seq<(BasicBlock, BasicBlock)>,
    m: Map<usize, Inst>,
    insts: Seq<Inst>,
    whole: bool,
    from: int,
    fuel: nat,
)
    ensures
        insts_copied(q, f, pairs, m, insts, whole, from, fuel).0.insts.len() >= q.insts.len(),
    decreases insts.len() - from,
{
    if from < insts.len() && (whole || from != insts.len() - 1) {
        lemma_cloned_grows(q, f, pairs, m, insts[from], fuel);
        let (r, more, c) = cloned(q, f, pairs, m, insts[from], fuel);
        lemma_copied_grows(r, f, pairs, more, insts, whole, from + 1, fuel);
    }
}

pub(crate) proof fn lemma_bodies_grow(
    q: ProgramV,
    f: Function,
    pairs: Seq<(BasicBlock, BasicBlock)>,
    m: Map<usize, Inst>,
    blocks: Seq<BasicBlock>,
    latch: BasicBlock,
    from: int,
    fuel: nat,
)
    ensures
        bodies_copied(q, f, pairs, m, blocks, latch, from, fuel).0.insts.len() >= q.insts.len(),
    decreases blocks.len() - from,
{
    if from < blocks.len() {
        let insts = q.block(blocks[from]).insts;
        lemma_copied_grows(q, f, pairs, m, insts, blocks[from] != latch, 0, fuel);
        let (r, more) = insts_copied(q, f, pairs, m, insts, blocks[from] != latch, 0, fuel);
        lemma_bodies_grow(r, f, pairs, more, blocks, latch, from + 1, fuel);
    }
}

/// The instruction at place `k` of block `b` is one that a copy of the nest has: any but the end of the latch.
pub open spec fn in_nest(p: ProgramV, b: BasicBlock, latch: BasicBlock, k: int) -> bool {
    0 <= k < p.block(b).insts.len() && (b != latch || k < p.block(b).insts.len() - 1)
}

pub(crate) proof fn lemma_bodies_copied(
    p: ProgramV,
    f: Function,
    pairs: Seq<(BasicBlock, BasicBlock)>,
    m0: Map<usize, Inst>,
    q: ProgramV,
    m: Map<usize, Inst>,
    blocks: Seq<BasicBlock>,
    latch: BasicBlock,
    from: int,
    fuel: nat,
    n: nat,
)
    requires
        in_progress(p, f, pairs, m0, q, m, Set::empty()),
        closed_body(p, f, pairs, n),
        fuel >= n,
        bodies_copied(q, f, pairs, m, blocks, latch, from, fuel).0.insts.len() < usize::MAX,
        0 <= from <= blocks.len(),
        forall|j: int| 0 <= j < blocks.len() ==> !takes_copies(pairs, #[trigger] blocks[j]),
        forall|j: int, k: int|
            0 <= j < blocks.len() && #[trigger] in_nest(p, blocks[j], latch, k) ==> copies_it(
                p,
                f,
                pairs,
                p.block(blocks[j]).insts[k],
            ),
        forall|j: int, k: int|
            0 <= j < blocks.len() && 0 <= k < p.block(blocks[j]).insts.len() ==> (#[trigger] p.block(
                blocks[j],
            ).insts[k]).0 < p.insts.len(),
        forall|j: int, k: int|
            0 <= j < from && #[trigger] in_nest(p, blocks[j], latch, k) ==> m.contains_key(p.block(blocks[j]).insts[k].0),
    ensures
        ({
            let (r, more) = bodies_copied(q, f, pairs, m, blocks, latch, from, fuel);
            &&& in_progress(p, f, pairs, m0, r, more, Set::empty())
            &&& says_more(m, more)
            &&& forall|j: int, k: int|
                0 <= j < blocks.len() && #[trigger] in_nest(p, blocks[j], latch, k) ==> more.contains_key(
                    p.block(blocks[j]).insts[k].0,
                )
        }),
    decreases blocks.len() - from,
{
    if from < blocks.len() {
        let b = blocks[from];
        assert(q.block(b) == p.block(b));
        let insts = p.block(b).insts;
        let (r, more) = insts_copied(q, f, pairs, m, insts, b != latch, 0, fuel);
        lemma_bodies_grow(r, f, pairs, more, blocks, latch, from + 1, fuel);
        lemma_insts_copied(p, f, pairs, m0, q, m, insts, b != latch, 0, fuel, n);
        assert forall|j: int, k: int| 0 <= j < from + 1 && #[trigger] in_nest(p, blocks[j], latch, k) implies more.contains_key(
            p.block(blocks[j]).insts[k].0,
        ) by {
            let i = p.block(blocks[j]).insts[k];
            if j < from {
                assert(m.contains_key(i.0));
            } else {
                assert(copies_it(p, f, pairs, insts[k]));
            }
        }
        lemma_bodies_copied(p, f, pairs, m0, r, more, blocks, latch, from + 1, fuel, n);
        let end = bodies_copied(r, f, pairs, more, blocks, latch, from + 1, fuel).1;
        assert forall|y: usize| #[trigger] m.contains_key(y) implies end.contains_key(y) && end[y] == m[y] by {
            assert(more.contains_key(y));
        }
    }
}

/// The nest that runs once does what the nest in the loop does: every instruction of it, but for the end of the
/// latch, has a faithful copy.
pub proof fn the_nest_is_copied_faithfully(
    p: ProgramV,
    f: Function,
    pairs: Seq<(BasicBlock, BasicBlock)>,
    m: Map<usize, Inst>,
    blocks: Seq<BasicBlock>,
    latch: BasicBlock,
    fuel: nat,
)
    requires
        closed_body(p, f, pairs, fuel),
        bodies_copied(p, f, pairs, m, blocks, latch, 0, fuel).0.insts.len() < usize::MAX,
        forall|j: int| 0 <= j < blocks.len() ==> !takes_copies(pairs, #[trigger] blocks[j]),
        forall|j: int, k: int|
            0 <= j < blocks.len() && #[trigger] in_nest(p, blocks[j], latch, k) ==> copies_it(
                p,
                f,
                pairs,
                p.block(blocks[j]).insts[k],
            ),
        forall|j: int, k: int|
            0 <= j < blocks.len() && 0 <= k < p.block(blocks[j]).insts.len() ==> (#[trigger] p.block(
                blocks[j],
            ).insts[k]).0 < p.insts.len(),
    ensures
        ({
            let (q, more) = bodies_copied(p, f, pairs, m, blocks, latch, 0, fuel);
            &&& all_faithful(p, f, pairs, m, q, more)
            &&& says_more(m, more)
            &&& forall|j: int, k: int|
                0 <= j < blocks.len() && #[trigger] in_nest(p, blocks[j], latch, k) ==> more.contains_key(
                    p.block(blocks[j]).insts[k].0,
                )
        }),
{
    assert(in_progress(p, f, pairs, m, p, m, Set::empty()));
    lemma_bodies_copied(p, f, pairs, m, p, m, blocks, latch, 0, fuel, fuel);
}

/// What instruction `i` computes where values are as `v` says and `meaning` says what operations compute.
pub open spec fn outcome(p: ProgramV, meaning: spec_fn(Op, Type, Seq<int>) -> int, v: spec_fn(Inst) -> int, i: Inst) -> int {
    meaning(p.op(i), p.ty(i), Seq::new(p.args(i).len(), |k: int| v(p.args(i)[k])))
}

/// The values after the instructions `order` were computed.
pub open spec fn computed_in_order(
    p: ProgramV,
    meaning: spec_fn(Op, Type, Seq<int>) -> int,
    v: spec_fn(Inst) -> int,
    order: Seq<Inst>,
) -> spec_fn(Inst) -> int
    decreases order.len(),
{
    if order.len() == 0 {
        v
    } else {
        let before = computed_in_order(p, meaning, v, order.drop_last());
        |x: Inst|
            if x == order.last() {
                outcome(p, meaning, before, x)
            } else {
                before(x)
            }
    }
}

/// The copies of the instructions `order`.
pub open spec fn copies_of(m: Map<usize, Inst>, order: Seq<Inst>) -> Seq<Inst> {
    Seq::new(order.len(), |k: int| m[order[k].0])
}

/// Value `a` is known before the instructions after `order` are computed: it is not copied, or something was
/// given for it, or it was computed.
pub open spec fn is_known(m0: Map<usize, Inst>, m: Map<usize, Inst>, order: Seq<Inst>, a: Inst) -> bool {
    !m.contains_key(a.0) || m0.contains_key(a.0) || order.contains(a)
}

/// What is known in `order` has the values in one program that what stands for it has in the other.
pub open spec fn agree(
    p: ProgramV,
    m0: Map<usize, Inst>,
    m: Map<usize, Inst>,
    order: Seq<Inst>,
    v: spec_fn(Inst) -> int,
    w: spec_fn(Inst) -> int,
) -> bool {
    forall|a: Inst| a.0 < p.insts.len() && is_known(m0, m, order, a) ==> #[trigger] w(stand(p, m, a)) == v(a)
}

/// Copied instructions compute what those that they copy compute: where what was given for values has their
/// values, computing the copies of `order` gives what computing `order` gives, whatever operations mean.
pub proof fn copies_compute_alike(
    p: ProgramV,
    f: Function,
    pairs: Seq<(BasicBlock, BasicBlock)>,
    m0: Map<usize, Inst>,
    q: ProgramV,
    m: Map<usize, Inst>,
    meaning: spec_fn(Op, Type, Seq<int>) -> int,
    v: spec_fn(Inst) -> int,
    w: spec_fn(Inst) -> int,
    order: Seq<Inst>,
)
    requires
        all_faithful(p, f, pairs, m0, q, m),
        forall|x: usize| #[trigger] m0.contains_key(x) ==> m0[x].0 < p.insts.len(),
        forall|k: int|
            0 <= k < order.len() ==> m.contains_key((#[trigger] order[k]).0) && !m0.contains_key(order[k].0) && !(p.op(
                order[k],
            ) is Jump) && !(p.op(order[k]) is Branch),
        forall|k: int, j: int|
            0 <= k < order.len() && 0 <= j < p.args(order[k]).len() ==> (#[trigger] p.args(order[k])[j]).0 < p.insts.len()
                && is_known(m0, m, order.take(k), p.args(order[k])[j]),
        agree(p, m0, m, Seq::empty(), v, w),
    ensures
        agree(
            p,
            m0,
            m,
            order,
            computed_in_order(p, meaning, v, order),
            computed_in_order(q, meaning, w, copies_of(m, order)),
        ),
    decreases order.len(),
{
    let copies = copies_of(m, order);
    if order.len() == 0 {
        assert(order =~= Seq::empty());
    } else {
        let n = order.len() - 1;
        let less = order.drop_last();
        let x = order[n];
        assert forall|k: int| 0 <= k < less.len() implies m.contains_key((#[trigger] less[k]).0) && !m0.contains_key(
            less[k].0,
        ) && !(p.op(less[k]) is Jump) && !(p.op(less[k]) is Branch) by {
            assert(less[k] == order[k]);
        }
        assert forall|k: int, j: int| 0 <= k < less.len() && 0 <= j < p.args(less[k]).len() implies (
        #[trigger] p.args(less[k])[j]).0 < p.insts.len() && is_known(m0, m, less.take(k), p.args(less[k])[j]) by {
            assert(less[k] == order[k]);
            assert(less.take(k) =~= order.take(k));
            assert(p.args(order[k])[j] == p.args(less[k])[j]);
        }
        copies_compute_alike(p, f, pairs, m0, q, m, meaning, v, w, less);
        assert(copies.drop_last() =~= copies_of(m, less));
        let v1 = computed_in_order(p, meaning, v, less);
        let w1 = computed_in_order(q, meaning, w, copies_of(m, less));
        let v2 = computed_in_order(p, meaning, v, order);
        let w2 = computed_in_order(q, meaning, w, copies);
        assert(order[n] == x && m.contains_key(x.0) && !m0.contains_key(x.0));
        assert(is_faithful(p, f, pairs, q, m, x.0));
        assert(Inst(x.0) == x);
        let c = m[x.0];
        assert(copies.last() == c);
        assert(order.take(n) =~= less);
        let before = Seq::new(p.args(x).len(), |k: int| v1(p.args(x)[k]));
        let after = Seq::new(q.args(c).len(), |k: int| w1(q.args(c)[k]));
        assert forall|k: int| 0 <= k < before.len() implies before[k] == after[k] by {
            let a = p.args(x)[k];
            assert(p.args(order[n])[k].0 < p.insts.len());
            assert(q.args(c)[k] == stand(p, m, a));
            assert(w1(stand(p, m, a)) == v1(a));
        }
        assert(before =~= after);
        assert(q.op(c) == p.op(x));
        assert(outcome(q, meaning, w1, c) == outcome(p, meaning, v1, x));
        assert forall|a: Inst| a.0 < p.insts.len() && is_known(m0, m, order, a) implies #[trigger] w2(stand(p, m, a)) == v2(
            a,
        ) by {
            if a == x {
                assert(copies_it(p, f, pairs, Inst(x.0)));
                assert(stand(p, m, a) == c);
            } else {
                if order.contains(a) {
                    let k = order.index_of(a);
                    assert(order[k] == a);
                    assert(less[k] == a);
                }
                assert(w1(stand(p, m, a)) == v1(a));
                if m0.contains_key(a.0) {
                    assert(m[a.0] == m0[a.0]);
                }
            }
        }
    }
}

} // verus!
