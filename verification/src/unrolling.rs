//! What the blocks of a lane loop do, as the program that comes out says it.
//!
//! A block does what its instructions say: values `w` solve it where each of its instructions has the value that its
//! operation gives on the values of its operands. What is passed on at the end of the block is said for all such values.

use vstd::prelude::*;

use crate::blocked_reduction::{
    address_placed, binary_made, block_after, blocked, body_cloned, carried, carried_args, exit_built, final_args,
    guard_built, lane_blocks, lane_built, lane_map, lane_pointers, lane_types, lanes_built, literal_made, main_built, nth,
    passed_on, pointers_moved, preheader_of, remainder_args, tail_of, CandidateV, LaneBlocks,
};
use crate::cloning::{all_cloned, cloned, sent};
use crate::copying::{
    closed_body, copies_it, in_progress, is_faithful, lane_pairs, lane_started, lemma_body_cloned,
    outcome, stand,
};
use crate::induction::is_word;
use crate::ir::{after, position, BasicBlock, BinaryOp, Function, Inst, InstV, Op, ProgramV, Type};
use crate::loops::LoopV;
use crate::splicing::{insts_grow, lemma_new_block};

verus! {

/// What an operation on values of a type gives.
pub type Meaning = spec_fn(Op, Type, Seq<int>) -> int;

/// The values `w` are what the instructions `insts` compute.
pub open spec fn solves(q: ProgramV, meaning: Meaning, w: spec_fn(Inst) -> int, insts: Seq<Inst>) -> bool {
    forall|k: int| 0 <= k < insts.len() ==> w(#[trigger] insts[k]) == outcome(q, meaning, w, insts[k])
}

/// Literals have their values.
pub open spec fn reads_literals(q: ProgramV, w: spec_fn(Inst) -> int) -> bool {
    forall|x: Inst| (#[trigger] q.op(x)) matches Op::Integer(c) ==> w(x) == c
}

/// Word `r` is the number `x`, but for a multiple of the size of the machine's numbers.
pub open spec fn comes_to(r: int, x: int) -> bool {
    is_word(r) && (r - x) % 0x1_0000_0000 == 0
}

/// Sums and differences of words are words that come to them, bitwise ands and comparisons are what they say, and an
/// offset moves an address of type `t` by `size(t)` for one.
pub open spec fn means_words(meaning: Meaning, size: spec_fn(Type) -> int) -> bool {
    &&& forall|t: Type, a: Seq<int>|
        a.len() == 2 && is_word(a[0]) && is_word(a[1]) ==> comes_to(
            #[trigger] meaning(Op::Binary(BinaryOp::Add), t, a),
            a[0] + a[1],
        )
    &&& forall|t: Type, a: Seq<int>|
        a.len() == 2 && is_word(a[0]) && is_word(a[1]) ==> comes_to(
            #[trigger] meaning(Op::Binary(BinaryOp::Sub), t, a),
            a[0] - a[1],
        )
    &&& forall|t: Type, a: Seq<int>|
        a.len() == 2 && is_word(a[0]) && is_word(a[1]) ==> #[trigger] meaning(Op::Binary(BinaryOp::And), t, a) == (a[0] as i32)
            & (a[1] as i32)
    &&& forall|t: Type, a: Seq<int>|
        a.len() == 2 && is_word(a[0]) && is_word(a[1]) ==> (#[trigger] meaning(Op::Binary(BinaryOp::Ge), t, a) != 0 <==> a[0]
            >= a[1])
    &&& forall|t: Type, a: Seq<int>| a.len() == 2 ==> #[trigger] meaning(Op::GetElemPtr, t, a) == a[0] + size(t) * a[1]
}

/// `q` is `p` with instructions added, and some of them put at the end of block `d`.
pub open spec fn extends(p: ProgramV, q: ProgramV, d: BasicBlock) -> bool {
    &&& insts_grow(p, q)
    &&& q.funcs == p.funcs
    &&& q.blocks.len() == p.blocks.len()
    &&& forall|x: int| 0 <= x < p.blocks.len() && x != d.0 ==> #[trigger] q.blocks[x] == p.blocks[x]
    &&& q.block(d).params == p.block(d).params
    &&& p.block(d).insts.is_prefix_of(q.block(d).insts)
}

pub(crate) proof fn lemma_extends_twice(p: ProgramV, q: ProgramV, r: ProgramV, d: BasicBlock)
    requires
        extends(p, q, d),
        extends(q, r, d),
    ensures
        extends(p, r, d),
{
    assert forall|i: int| 0 <= i < p.insts.len() implies #[trigger] r.insts[i] == p.insts[i] by {
        assert(r.insts[i] == q.insts[i]);
    }
    assert forall|x: int| 0 <= x < p.blocks.len() && x != d.0 implies #[trigger] r.blocks[x] == p.blocks[x] by {
        assert(r.blocks[x] == q.blocks[x]);
    }
    let (a, b, c) = (p.block(d).insts, q.block(d).insts, r.block(d).insts);
    assert(a =~= c.subrange(0, a.len() as int)) by {
        assert forall|k: int| 0 <= k < a.len() implies a[k] == c[k] by {
            assert(a[k] == b.subrange(0, a.len() as int)[k]);
            assert(b[k] == c.subrange(0, b.len() as int)[k]);
        }
    }
}

pub(crate) proof fn lemma_pushed(p: ProgramV, op: Op, args: Seq<Inst>, ty: Type, d: BasicBlock)
    requires
        p.insts.len() < usize::MAX,
    ensures
        extends(p, p.push_inst(op, args, ty, false), d),
        p.push_inst(op, args, ty, false).insts.len() == p.insts.len() + 1,
        p.push_inst(op, args, ty, false).insts[p.insts.len() as int] == (InstV { op, args, ty, global: false, name: None }),
        p.push_inst(op, args, ty, false).blocks == p.blocks,
{
    reveal(ProgramV::push_inst);
    let q = p.push_inst(op, args, ty, false);
    assert(p.block(d).insts =~= q.block(d).insts.subrange(0, p.block(d).insts.len() as int));
}

pub(crate) proof fn lemma_appended(p: ProgramV, d: BasicBlock, i: Inst)
    ensures
        extends(p, p.append(d, i), d),
        p.append(d, i).insts == p.insts,
        d.0 < p.blocks.len() ==> p.append(d, i).block(d).insts == p.block(d).insts.push(i),
{
    reveal(ProgramV::set_block_insts);
    let q = p.append(d, i);
    if d.0 < p.blocks.len() {
        assert(p.block(d).insts =~= q.block(d).insts.subrange(0, p.block(d).insts.len() as int));
    } else {
        assert(p.block(d).insts =~= q.block(d).insts.subrange(0, p.block(d).insts.len() as int));
    }
}

/// What was copied between `m` and `more` stands in block `d`.
pub open spec fn all_stand(q: ProgramV, d: BasicBlock, m: Map<usize, Inst>, more: Map<usize, Inst>) -> bool {
    forall|x: usize| #[trigger] more.contains_key(x) && !m.contains_key(x) ==> q.block(d).insts.contains(more[x])
}

/// Copies go to block `d` only.
pub open spec fn all_go_to(pairs: Seq<(BasicBlock, BasicBlock)>, d: BasicBlock) -> bool {
    forall|k: int| 0 <= k < pairs.len() ==> (#[trigger] pairs[k]).1 == d
}

proof fn lemma_goes_to(pairs: Seq<(BasicBlock, BasicBlock)>, d: BasicBlock, b: BasicBlock, from: int)
    requires
        0 <= from,
        all_go_to(pairs, d),
    ensures
        sent(pairs, b, from) matches Some(x) ==> x == d,
    decreases pairs.len() - from,
{
    if from < pairs.len() {
        lemma_goes_to(pairs, d, b, from + 1);
    }
}

pub(crate) proof fn lemma_still_stand(p: ProgramV, q: ProgramV, d: BasicBlock, x: Inst)
    requires
        extends(p, q, d),
        p.block(d).insts.contains(x),
    ensures
        q.block(d).insts.contains(x),
{
    let k = p.block(d).insts.index_of(x);
    assert(p.block(d).insts[k] == q.block(d).insts.subrange(0, p.block(d).insts.len() as int)[k]);
    assert(q.block(d).insts[k] == x);
}

/// `more` says what `m` says.
pub open spec fn adds_to(m: Map<usize, Inst>, more: Map<usize, Inst>) -> bool {
    forall|x: usize| #[trigger] m.contains_key(x) ==> more.contains_key(x) && more[x] == m[x]
}

/// Copying puts copies at the end of the block that they go to, and leaves all else.
proof fn lemma_cloned_extends(
    p: ProgramV,
    f: Function,
    pairs: Seq<(BasicBlock, BasicBlock)>,
    m: Map<usize, Inst>,
    i: Inst,
    fuel: nat,
    d: BasicBlock,
)
    requires
        all_go_to(pairs, d),
        d.0 < p.blocks.len(),
        cloned(p, f, pairs, m, i, fuel).0.insts.len() < usize::MAX,
    ensures
        ({
            let (q, more, _) = cloned(p, f, pairs, m, i, fuel);
            extends(p, q, d) && all_stand(q, d, m, more) && adds_to(m, more)
        }),
    decreases fuel, 0int, 0int,
{
    let (q, more, _) = cloned(p, f, pairs, m, i, fuel);
    lemma_same(p, d);
    if !p.inst(i).global && !m.contains_key(i.0) && fuel > 0 && p.parent_bb(f, i) is Some && sent(
        pairs,
        p.parent_bb(f, i)->0,
        0,
    ) is Some {
        lemma_goes_to(pairs, d, p.parent_bb(f, i)->0, 0);
        let shell = p.next_inst();
        let p1 = p.push_inst(Op::Undef, Seq::empty(), p.ty(i), false);
        let m1 = m.insert(i.0, shell);
        let (p2, m2, args) = all_cloned(p1, f, pairs, m1, p.args(i), 0, Seq::empty(), (fuel - 1) as nat);
        let p3 = p2.set_inst(shell, crate::cloning::moved(p.op(i), pairs), args, p.ty(i));
        lemma_all_cloned_longer(p1, f, pairs, m1, p.args(i), 0, Seq::empty(), (fuel - 1) as nat);
        reveal(ProgramV::set_inst);
        reveal(ProgramV::set_block_insts);
        assert(q.insts.len() == p2.insts.len());
        assert(p1.insts.len() == p.insts.len() + 1) by {
            reveal(ProgramV::push_inst);
        }
        lemma_pushed(p, Op::Undef, Seq::empty(), p.ty(i), d);
        lemma_all_cloned_extends(p1, f, pairs, m1, p.args(i), 0, Seq::empty(), (fuel - 1) as nat, d);
        lemma_extends_twice(p, p1, p2, d);
        assert(extends(p, p3, d)) by {
            assert forall|k: int| 0 <= k < p.insts.len() implies #[trigger] p3.insts[k] == p.insts[k] by {
                assert(p2.insts[k] == p.insts[k]);
            }
        }
        lemma_appended(p3, d, shell);
        lemma_extends_twice(p, p3, q, d);
        assert(q.block(d).insts.contains(shell)) by {
            assert(q.block(d).insts[p3.block(d).insts.len() as int] == shell);
        }
        assert(adds_to(m, more)) by {
            assert forall|x: usize| #[trigger] m.contains_key(x) implies more.contains_key(x) && more[x] == m[x] by {
                assert(m1.contains_key(x));
            }
        }
        assert forall|x: usize| #[trigger] more.contains_key(x) && !m.contains_key(x) implies q.block(d).insts.contains(
            more[x],
        ) by {
            if x == i.0 {
                assert(m1.contains_key(x));
            } else {
                assert(!m1.contains_key(x));
                assert(p2.block(d).insts.contains(more[x]));
                assert(p3.block(d) == p2.block(d));
                lemma_still_stand(p3, q, d, more[x]);
            }
        }
    }
}

pub(crate) proof fn lemma_same(p: ProgramV, d: BasicBlock)
    ensures
        extends(p, p, d),
{
    assert(p.block(d).insts =~= p.block(d).insts.subrange(0, p.block(d).insts.len() as int));
}

proof fn lemma_all_cloned_extends(
    p: ProgramV,
    f: Function,
    pairs: Seq<(BasicBlock, BasicBlock)>,
    m: Map<usize, Inst>,
    args: Seq<Inst>,
    from: int,
    out: Seq<Inst>,
    fuel: nat,
    d: BasicBlock,
)
    requires
        0 <= from,
        all_go_to(pairs, d),
        d.0 < p.blocks.len(),
        all_cloned(p, f, pairs, m, args, from, out, fuel).0.insts.len() < usize::MAX,
    ensures
        ({
            let (q, more, _) = all_cloned(p, f, pairs, m, args, from, out, fuel);
            extends(p, q, d) && all_stand(q, d, m, more) && adds_to(m, more)
        }),
    decreases fuel, 1int, args.len() - from,
{
    lemma_same(p, d);
    if from < args.len() {
        let (p1, m1, r) = cloned(p, f, pairs, m, args[from], fuel);
        let (q, more, _) = all_cloned(p, f, pairs, m, args, from, out, fuel);
        lemma_all_cloned_longer(p1, f, pairs, m1, args, from + 1, out.push(r), fuel);
        lemma_cloned_extends(p, f, pairs, m, args[from], fuel, d);
        lemma_all_cloned_extends(p1, f, pairs, m1, args, from + 1, out.push(r), fuel, d);
        lemma_extends_twice(p, p1, q, d);
        assert forall|x: usize| #[trigger] more.contains_key(x) && !m.contains_key(x) implies q.block(d).insts.contains(
            more[x],
        ) by {
            if m1.contains_key(x) {
                lemma_still_stand(p1, q, d, m1[x]);
            }
        }
        assert forall|x: usize| #[trigger] m.contains_key(x) implies more.contains_key(x) && more[x] == m[x] by {
            assert(m1.contains_key(x));
        }
    }
}

proof fn lemma_all_cloned_longer(
    p: ProgramV,
    f: Function,
    pairs: Seq<(BasicBlock, BasicBlock)>,
    m: Map<usize, Inst>,
    args: Seq<Inst>,
    from: int,
    out: Seq<Inst>,
    fuel: nat,
)
    ensures
        all_cloned(p, f, pairs, m, args, from, out, fuel).0.insts.len() >= p.insts.len(),
    decreases fuel, 1int, args.len() - from,
{
    if from < args.len() {
        let (q, more, r) = cloned(p, f, pairs, m, args[from], fuel);
        lemma_cloned_longer(p, f, pairs, m, args[from], fuel);
        lemma_all_cloned_longer(q, f, pairs, more, args, from + 1, out.push(r), fuel);
    }
}

proof fn lemma_cloned_longer(
    p: ProgramV,
    f: Function,
    pairs: Seq<(BasicBlock, BasicBlock)>,
    m: Map<usize, Inst>,
    i: Inst,
    fuel: nat,
)
    ensures
        cloned(p, f, pairs, m, i, fuel).0.insts.len() >= p.insts.len(),
    decreases fuel, 0int, 0int,
{
    if !p.inst(i).global && !m.contains_key(i.0) && fuel > 0 {
        reveal(ProgramV::push_inst);
        reveal(ProgramV::set_inst);
        reveal(ProgramV::set_block_insts);
        let p1 = p.push_inst(Op::Undef, Seq::empty(), p.ty(i), false);
        lemma_all_cloned_longer(
            p1,
            f,
            pairs,
            m.insert(i.0, p.next_inst()),
            p.args(i),
            0,
            Seq::empty(),
            (fuel - 1) as nat,
        );
    }
}

proof fn lemma_body_longer(
    p: ProgramV,
    f: Function,
    pairs: Seq<(BasicBlock, BasicBlock)>,
    c: CandidateV,
    m: Map<usize, Inst>,
    insts: Seq<Inst>,
    from: int,
    fuel: nat,
)
    ensures
        body_cloned(p, f, pairs, c, m, insts, from, fuel).0.insts.len() >= p.insts.len(),
    decreases insts.len() - from,
{
    if from < insts.len() - 1 {
        let i = insts[from];
        if i == c.k_back || i == c.ctr_back || i == c.ptr_back {
            lemma_body_longer(p, f, pairs, c, m, insts, from + 1, fuel);
        } else {
            let (q, more, _) = cloned(p, f, pairs, m, i, fuel);
            lemma_cloned_longer(p, f, pairs, m, i, fuel);
            lemma_body_longer(q, f, pairs, c, more, insts, from + 1, fuel);
        }
    }
}

proof fn lemma_body_extends(
    p: ProgramV,
    f: Function,
    pairs: Seq<(BasicBlock, BasicBlock)>,
    c: CandidateV,
    m: Map<usize, Inst>,
    insts: Seq<Inst>,
    from: int,
    fuel: nat,
    d: BasicBlock,
)
    requires
        0 <= from,
        all_go_to(pairs, d),
        d.0 < p.blocks.len(),
        body_cloned(p, f, pairs, c, m, insts, from, fuel).0.insts.len() < usize::MAX,
    ensures
        ({
            let (q, more) = body_cloned(p, f, pairs, c, m, insts, from, fuel);
            extends(p, q, d) && all_stand(q, d, m, more) && adds_to(m, more)
        }),
    decreases insts.len() - from,
{
    lemma_same(p, d);
    if from < insts.len() - 1 {
        let i = insts[from];
        if i == c.k_back || i == c.ctr_back || i == c.ptr_back {
            lemma_body_extends(p, f, pairs, c, m, insts, from + 1, fuel, d);
        } else {
            let (p1, m1, _) = cloned(p, f, pairs, m, i, fuel);
            let (q, more) = body_cloned(p, f, pairs, c, m, insts, from, fuel);
            lemma_body_longer(p1, f, pairs, c, m1, insts, from + 1, fuel);
            lemma_cloned_extends(p, f, pairs, m, i, fuel, d);
            lemma_body_extends(p1, f, pairs, c, m1, insts, from + 1, fuel, d);
            lemma_extends_twice(p, p1, q, d);
            assert forall|x: usize| #[trigger] more.contains_key(x) && !m.contains_key(x) implies q.block(d).insts.contains(
                more[x],
            ) by {
                if m1.contains_key(x) {
                    lemma_still_stand(p1, q, d, m1[x]);
                }
            }
            assert forall|x: usize| #[trigger] m.contains_key(x) implies more.contains_key(x) && more[x] == m[x] by {
                assert(m1.contains_key(x));
            }
        }
    }
}

spec fn literal_inst(v: i32) -> InstV {
    InstV { op: Op::Integer(v), args: Seq::empty(), ty: Type::I32, global: false, name: None }
}

/// The offset of lane `lane`, as the word that it is written as.
spec fn lane_offset(c: CandidateV, lane: int) -> i32 {
    (lane * c.stride) as i32
}

proof fn lemma_carried_args(args: Seq<Inst>, list: Seq<(Inst, usize)>, from: int, out: Seq<Inst>)
    requires
        0 <= from <= list.len(),
    ensures
        carried_args(args, list, from, out) == out + Seq::new(
            (list.len() - from) as nat,
            |k: int| nth(args, list[from + k].1 as int),
        ),
    decreases list.len() - from,
{
    if from < list.len() {
        lemma_carried_args(args, list, from + 1, out.push(nth(args, list[from].1 as int)));
    }
    assert(carried_args(args, list, from, out) =~= out + Seq::new(
        (list.len() - from) as nat,
        |k: int| nth(args, list[from + k].1 as int),
    ));
}

/// What the guard passes to the lane loop.
spec fn guard_passes(p: ProgramV, c: CandidateV, args: Seq<Inst>) -> Seq<Inst> {
    let n = p.insts.len() as int;
    let ptr = nth(args, position(c.header_params, c.ptr_param, 0));
    let zero = Inst(n as usize);
    seq![
        zero,
        zero,
        zero,
        zero,
        zero,
        Inst((n + 4) as usize),
        ptr,
        Inst((n + 6) as usize),
        Inst((n + 8) as usize),
        Inst((n + 10) as usize),
    ] + Seq::new(c.passthroughs.len(), |k: int| nth(args, c.passthroughs[k].1 as int))
}

/// The guard as it is built in `p`.
spec fn is_guard(p: ProgramV, q: ProgramV, c: CandidateV, b: LaneBlocks, args: Seq<Inst>) -> bool {
    let n = p.insts.len() as int;
    let ptr = nth(args, position(c.header_params, c.ptr_param, 0));
    let start = guard_passes(p, c, args);
    &&& q.insts.len() == n + 12
    &&& q.insts[n] == literal_inst(0)
    &&& q.insts[n + 1] == literal_inst(4)
    &&& q.insts[n + 2] == literal_inst((-4) as i32)
    &&& q.insts[n + 3].op == Op::Binary(BinaryOp::Ge)
    &&& q.insts[n + 3].args == seq![c.bound, Inst((n + 1) as usize)]
    &&& q.insts[n + 4].op == Op::Binary(BinaryOp::And)
    &&& q.insts[n + 4].args == seq![c.bound, Inst((n + 2) as usize)]
    &&& q.insts[n + 5] == literal_inst(lane_offset(c, 1))
    &&& q.insts[n + 6].op == Op::GetElemPtr
    &&& q.insts[n + 6].args == seq![ptr, Inst((n + 5) as usize)]
    &&& q.insts[n + 7] == literal_inst(lane_offset(c, 2))
    &&& q.insts[n + 8].op == Op::GetElemPtr
    &&& q.insts[n + 8].args == seq![ptr, Inst((n + 7) as usize)]
    &&& q.insts[n + 9] == literal_inst(lane_offset(c, 3))
    &&& q.insts[n + 10].op == Op::GetElemPtr
    &&& q.insts[n + 10].args == seq![ptr, Inst((n + 9) as usize)]
    &&& q.insts[n + 6].ty == q.gep_ty(ptr, 1)
    &&& q.insts[n + 8].ty == q.gep_ty(ptr, 1)
    &&& q.insts[n + 10].ty == q.gep_ty(ptr, 1)
    &&& q.insts[n + 11].op == Op::Branch(b.header, c.header, start.len() as usize)
    &&& q.insts[n + 11].args == seq![Inst((n + 3) as usize)] + start + args
    &&& q.block(b.guard).insts == p.block(b.guard).insts + seq![
        Inst((n + 6) as usize),
        Inst((n + 8) as usize),
        Inst((n + 10) as usize),
        Inst((n + 3) as usize),
        Inst((n + 4) as usize),
        Inst((n + 11) as usize),
    ]
}

#[verifier::rlimit(100)]
#[verifier::spinoff_prover]
proof fn lemma_guard(p: ProgramV, c: CandidateV, b: LaneBlocks, args: Seq<Inst>)
    requires
        b.guard.0 < p.blocks.len(),
        p.insts.len() + 12 < usize::MAX,
        nth(args, position(c.header_params, c.ptr_param, 0)).0 < p.insts.len(),
    ensures
        extends(p, guard_built(p, c, b, args).0, b.guard),
        guard_built(p, c, b, args).1 == Inst((p.insts.len() + 1) as usize),
        is_guard(p, guard_built(p, c, b, args).0, c, b, args),
{
    let n = p.insts.len() as int;
    let ptr = nth(args, position(c.header_params, c.ptr_param, 0));
    let p1 = literal_made(p, 0);
    let p2 = literal_made(p1, 4);
    let p3 = literal_made(p2, (-4) as i32);
    let p4 = binary_made(p3, BinaryOp::Ge, c.bound, p1.next_inst());
    let p5 = binary_made(p4, BinaryOp::And, c.bound, p2.next_inst());
    let l1 = literal_made(p5, (1 * c.stride) as i32);
    let g1 = address_placed(l1, b.guard, ptr, p5.next_inst());
    let l2 = literal_made(g1, (2 * c.stride) as i32);
    let g2 = address_placed(l2, b.guard, ptr, g1.next_inst());
    let l3 = literal_made(g2, (3 * c.stride) as i32);
    let g3 = address_placed(l3, b.guard, ptr, g2.next_inst());
    reveal_with_fuel(lane_pointers, 5);
    let (p6, ptrs) = lane_pointers(p5, b.guard, ptr, c.stride, 0, Seq::empty());
    assert(p6 == g3);
    lemma_pushed(p, Op::Integer(0), Seq::empty(), Type::I32, b.guard);
    lemma_pushed(p1, Op::Integer(4), Seq::empty(), Type::I32, b.guard);
    lemma_pushed(p2, Op::Integer((-4) as i32), Seq::empty(), Type::I32, b.guard);
    lemma_pushed(p3, Op::Binary(BinaryOp::Ge), seq![c.bound, p1.next_inst()], p3.binary_ty(BinaryOp::Ge, c.bound), b.guard);
    lemma_pushed(p4, Op::Binary(BinaryOp::And), seq![c.bound, p2.next_inst()], p4.binary_ty(BinaryOp::And, c.bound), b.guard);
    lemma_extends_twice(p, p1, p2, b.guard);
    lemma_extends_twice(p, p2, p3, b.guard);
    lemma_extends_twice(p, p3, p4, b.guard);
    lemma_extends_twice(p, p4, p5, b.guard);
    lemma_address(p5, b.guard, ptr, lane_offset(c, 1));
    lemma_address(g1, b.guard, ptr, lane_offset(c, 2));
    lemma_address(g2, b.guard, ptr, lane_offset(c, 3));
    lemma_extends_twice(p, p5, g1, b.guard);
    lemma_extends_twice(p, g1, g2, b.guard);
    lemma_extends_twice(p, g2, g3, b.guard);
    lemma_pushed(p5, Op::Integer(lane_offset(c, 1)), Seq::empty(), Type::I32, b.guard);
    lemma_pushed(g1, Op::Integer(lane_offset(c, 2)), Seq::empty(), Type::I32, b.guard);
    lemma_pushed(g2, Op::Integer(lane_offset(c, 3)), Seq::empty(), Type::I32, b.guard);
    assert(ptrs =~= seq![ptr, Inst((n + 6) as usize), Inst((n + 8) as usize), Inst((n + 10) as usize)]);
    let zero = p.next_inst();
    let masked = p4.next_inst();
    let head = seq![zero, zero, zero, zero, zero, masked] + ptrs;
    lemma_carried_args(args, c.passthroughs, 0, head);
    let start = carried_args(args, c.passthroughs, 0, head);
    assert(start =~= guard_passes(p, c, args));
    let op = Op::Branch(b.header, c.header, start.len() as usize);
    let all = seq![p3.next_inst()] + start + args;
    let p7 = p6.push_inst(op, all, Type::Unit, false);
    lemma_pushed(p6, op, all, Type::Unit, b.guard);
    lemma_extends_twice(p, p6, p7, b.guard);
    let p8 = p7.append(b.guard, p3.next_inst());
    let p9 = p8.append(b.guard, masked);
    let q = p9.append(b.guard, p6.next_inst());
    lemma_appended(p7, b.guard, p3.next_inst());
    lemma_appended(p8, b.guard, masked);
    lemma_appended(p9, b.guard, p6.next_inst());
    lemma_extends_twice(p, p7, p8, b.guard);
    lemma_extends_twice(p, p8, p9, b.guard);
    lemma_extends_twice(p, p9, q, b.guard);
    assert(q == guard_built(p, c, b, args).0);
    assert(q.insts == p7.insts);
    assert(q.insts[n] == p1.insts[n]) by {
        assert(p7.insts[n] == p6.insts[n] && p6.insts[n] == g2.insts[n] && g2.insts[n] == g1.insts[n] && g1.insts[n]
            == p5.insts[n] && p5.insts[n] == p4.insts[n] && p4.insts[n] == p3.insts[n] && p3.insts[n] == p2.insts[n]
            && p2.insts[n] == p1.insts[n]);
    }
    assert(q.insts[n + 1] == p2.insts[n + 1]) by {
        let k = n + 1;
        assert(p7.insts[k] == p6.insts[k] && p6.insts[k] == g2.insts[k] && g2.insts[k] == g1.insts[k] && g1.insts[k]
            == p5.insts[k] && p5.insts[k] == p4.insts[k] && p4.insts[k] == p3.insts[k] && p3.insts[k] == p2.insts[k]);
    }
    assert(q.insts[n + 2] == p3.insts[n + 2]) by {
        let k = n + 2;
        assert(p7.insts[k] == p6.insts[k] && p6.insts[k] == g2.insts[k] && g2.insts[k] == g1.insts[k] && g1.insts[k]
            == p5.insts[k] && p5.insts[k] == p4.insts[k] && p4.insts[k] == p3.insts[k]);
    }
    assert(q.insts[n + 3] == p4.insts[n + 3]) by {
        let k = n + 3;
        assert(p7.insts[k] == p6.insts[k] && p6.insts[k] == g2.insts[k] && g2.insts[k] == g1.insts[k] && g1.insts[k]
            == p5.insts[k] && p5.insts[k] == p4.insts[k]);
    }
    assert(q.insts[n + 4] == p5.insts[n + 4]) by {
        let k = n + 4;
        assert(p7.insts[k] == p6.insts[k] && p6.insts[k] == g2.insts[k] && g2.insts[k] == g1.insts[k] && g1.insts[k]
            == p5.insts[k]);
    }
    assert(q.insts[n + 5] == g1.insts[n + 5] && q.insts[n + 6] == g1.insts[n + 6]) by {
        let k = n + 5;
        assert(p7.insts[k] == p6.insts[k] && p6.insts[k] == g2.insts[k] && g2.insts[k] == g1.insts[k]);
        let j = n + 6;
        assert(p7.insts[j] == p6.insts[j] && p6.insts[j] == g2.insts[j] && g2.insts[j] == g1.insts[j]);
    }
    assert(q.insts[n + 7] == g2.insts[n + 7] && q.insts[n + 8] == g2.insts[n + 8]) by {
        let k = n + 7;
        assert(p7.insts[k] == p6.insts[k] && p6.insts[k] == g2.insts[k]);
        let j = n + 8;
        assert(p7.insts[j] == p6.insts[j] && p6.insts[j] == g2.insts[j]);
    }
    assert(q.insts[n + 9] == g3.insts[n + 9] && q.insts[n + 10] == g3.insts[n + 10]) by {
        let k = n + 9;
        assert(p7.insts[k] == p6.insts[k]);
        let j = n + 10;
        assert(p7.insts[j] == p6.insts[j]);
    }
    assert(q.ty(ptr) == p.ty(ptr) && l1.ty(ptr) == p.ty(ptr) && l2.ty(ptr) == p.ty(ptr) && l3.ty(ptr) == p.ty(ptr)) by {
        let k = ptr.0 as int;
        assert(q.insts[k] == p.insts[k] && p5.insts[k] == p.insts[k] && g1.insts[k] == p.insts[k] && g2.insts[k] == p.insts[k]);
        assert(l1.insts[k] == p5.insts[k] && l2.insts[k] == g1.insts[k] && l3.insts[k] == g2.insts[k]);
    }
    assert(q.block(b.guard).insts =~= p.block(b.guard).insts + seq![
        Inst((n + 6) as usize),
        Inst((n + 8) as usize),
        Inst((n + 10) as usize),
        Inst((n + 3) as usize),
        Inst((n + 4) as usize),
        Inst((n + 11) as usize),
    ]);
}

/// An address with a literal offset.
proof fn lemma_address(p: ProgramV, b: BasicBlock, base: Inst, offset: i32)
    requires
        b.0 < p.blocks.len(),
        p.insts.len() + 2 < usize::MAX,
    ensures
        ({
            let l = literal_made(p, offset);
            let q = address_placed(l, b, base, p.next_inst());
            let n = p.insts.len() as int;
            &&& extends(p, q, b)
            &&& q.insts.len() == n + 2
            &&& q.insts[n] == literal_inst(offset)
            &&& q.insts[n + 1] == (InstV {
                op: Op::GetElemPtr,
                args: seq![base, p.next_inst()],
                ty: l.gep_ty(base, 1),
                global: false,
                name: None,
            })
            &&& q.block(b).insts == p.block(b).insts.push(Inst((n + 1) as usize))
        }),
{
    let l = literal_made(p, offset);
    let args = seq![base] + seq![p.next_inst()];
    assert(args =~= seq![base, p.next_inst()]);
    let g = l.push_inst(Op::GetElemPtr, args, l.gep_ty(base, 1), false);
    let q = address_placed(l, b, base, p.next_inst());
    lemma_pushed(p, Op::Integer(offset), Seq::empty(), Type::I32, b);
    lemma_pushed(l, Op::GetElemPtr, args, l.gep_ty(base, 1), b);
    lemma_appended(g, b, l.next_inst());
    lemma_extends_twice(p, l, g, b);
    lemma_extends_twice(p, g, q, b);
    assert(q.insts[p.insts.len() as int] == l.insts[p.insts.len() as int]);
}

/// The new blocks of a lane loop.
spec fn are_lane_blocks(p: ProgramV, q: ProgramV, b: LaneBlocks, tys: Seq<Type>) -> bool {
    let n = p.blocks.len() as int;
    let first = p.insts.len() as int;
    &&& b.guard.0 == n
    &&& b.header.0 == n + 1
    &&& b.body.0 == n + 2
    &&& b.exit.0 == n + 3
    &&& insts_grow(p, q)
    &&& q.insts.len() == first + 3 * tys.len()
    &&& q.blocks.len() == n + 4
    &&& forall|x: int| 0 <= x < n ==> #[trigger] q.blocks[x] == p.blocks[x]
    &&& q.block(b.guard).insts.len() == 0
    &&& q.block(b.guard).params.len() == 0
    &&& q.block(b.header).insts.len() == 0
    &&& q.block(b.body).insts.len() == 0
    &&& q.block(b.exit).insts.len() == 0
    &&& q.block(b.header).params == Seq::new(tys.len(), |t: int| Inst((first + t) as usize))
    &&& q.block(b.body).params == Seq::new(tys.len(), |t: int| Inst((first + tys.len() + t) as usize))
    &&& q.block(b.exit).params == Seq::new(tys.len(), |t: int| Inst((first + 2 * tys.len() + t) as usize))
}

/// One new block behind another.
proof fn lemma_block_after(p: ProgramV, f: Function, anchor: BasicBlock, name: Seq<char>, tys: Seq<Type>)
    requires
        p.blocks.len() < usize::MAX,
        block_after(p, f, anchor, name, tys).insts.len() <= usize::MAX,
    ensures
        ({
            let q = block_after(p, f, anchor, name, tys);
            let n = p.insts.len();
            &&& insts_grow(p, q)
            &&& q.insts.len() == n + tys.len()
            &&& q.blocks.len() == p.blocks.len() + 1
            &&& forall|x: int| 0 <= x < p.blocks.len() ==> #[trigger] q.blocks[x] == p.blocks[x]
            &&& q.block(p.next_block()).insts.len() == 0
            &&& q.block(p.next_block()).params == Seq::new(tys.len(), |t: int| Inst((n + t) as usize))
        }),
{
    reveal(ProgramV::set_func_blocks);
    lemma_new_block(p, name, tys);
}

proof fn lemma_blocks_longer(p: ProgramV, f: Function, anchor: BasicBlock, name: Seq<char>, tys: Seq<Type>)
    ensures
        block_after(p, f, anchor, name, tys).insts.len() == p.insts.len() + tys.len(),
        block_after(p, f, anchor, name, tys).blocks.len() == p.blocks.len() + 1,
{
    reveal(ProgramV::set_func_blocks);
    reveal(ProgramV::push_block);
    let r = p.push_block(name);
    lemma_params_longer(r, p.next_block(), tys, 0);
}

pub(crate) proof fn lemma_params_longer(p: ProgramV, b: BasicBlock, tys: Seq<Type>, from: int)
    requires
        0 <= from <= tys.len(),
    ensures
        p.add_params(b, tys, from).insts.len() == p.insts.len() + tys.len() - from,
        p.add_params(b, tys, from).blocks.len() == p.blocks.len(),
    decreases tys.len() - from,
{
    reveal(ProgramV::push_inst);
    reveal(ProgramV::set_block_params);
    if from < tys.len() {
        lemma_params_longer(p.add_param(b, tys[from]), b, tys, from + 1);
    }
}

#[verifier::spinoff_prover]
proof fn lemma_lane_blocks(p: ProgramV, f: Function, pre: BasicBlock, tys: Seq<Type>)
    requires
        p.blocks.len() + 4 <= usize::MAX,
        lane_blocks(p, f, pre, tys).0.insts.len() <= usize::MAX,
    ensures
        are_lane_blocks(p, lane_blocks(p, f, pre, tys).0, lane_blocks(p, f, pre, tys).1, tys),
{
    let (q, b) = lane_blocks(p, f, pre, tys);
    let p1 = block_after(p, f, pre, "blocked_guard"@, Seq::empty());
    let p2 = block_after(p1, f, b.guard, "blocked_main_header"@, tys);
    let p3 = block_after(p2, f, b.header, "blocked_main_body"@, tys);
    lemma_blocks_longer(p, f, pre, "blocked_guard"@, Seq::empty());
    lemma_blocks_longer(p1, f, b.guard, "blocked_main_header"@, tys);
    lemma_blocks_longer(p2, f, b.header, "blocked_main_body"@, tys);
    lemma_blocks_longer(p3, f, b.body, "blocked_main_exit"@, tys);
    lemma_block_after(p, f, pre, "blocked_guard"@, Seq::empty());
    lemma_block_after(p1, f, b.guard, "blocked_main_header"@, tys);
    lemma_block_after(p2, f, b.header, "blocked_main_body"@, tys);
    lemma_block_after(p3, f, b.body, "blocked_main_exit"@, tys);
    assert forall|x: int| 0 <= x < p.blocks.len() implies #[trigger] q.blocks[x] == p.blocks[x] by {
        assert(q.blocks[x] == p3.blocks[x] && p3.blocks[x] == p2.blocks[x] && p2.blocks[x] == p1.blocks[x]);
    }
    assert forall|x: int| 0 <= x < p.insts.len() implies #[trigger] q.insts[x] == p.insts[x] by {
        assert(q.insts[x] == p3.insts[x] && p3.insts[x] == p2.insts[x] && p2.insts[x] == p1.insts[x]);
    }
    let n = p.blocks.len() as int;
    assert(q.blocks[n] == p3.blocks[n] && p3.blocks[n] == p2.blocks[n] && p2.blocks[n] == p1.blocks[n]);
    assert(q.blocks[n + 1] == p3.blocks[n + 1] && p3.blocks[n + 1] == p2.blocks[n + 1]);
    assert(q.blocks[n + 2] == p3.blocks[n + 2]);
}

/// The exit of the lane loop as it is built in `p`.
spec fn is_exit(p: ProgramV, q: ProgramV, c: CandidateV, b: LaneBlocks, sum_in: Inst) -> bool {
    let n = p.insts.len() as int;
    let e = p.block(b.exit).params;
    let sum = Inst((n + 3) as usize);
    let left = Inst((n + 4) as usize);
    let again = remainder_args(c, e, sum, left, 0, Seq::empty());
    let done = final_args(c, e, sum, c.exit_args, 0, Seq::empty());
    &&& q.insts.len() == n + 6
    &&& q.insts[n].op == Op::Binary(BinaryOp::Add)
    &&& q.insts[n].args == seq![nth(e, 0), nth(e, 1)]
    &&& q.insts[n + 1].op == Op::Binary(BinaryOp::Add)
    &&& q.insts[n + 1].args == seq![nth(e, 2), nth(e, 3)]
    &&& q.insts[n + 2].op == Op::Binary(BinaryOp::Add)
    &&& q.insts[n + 2].args == seq![Inst(n as usize), Inst((n + 1) as usize)]
    &&& q.insts[n + 3].op == Op::Binary(BinaryOp::Add)
    &&& q.insts[n + 3].args == seq![sum_in, Inst((n + 2) as usize)]
    &&& q.insts[n + 4].op == Op::Binary(BinaryOp::Sub)
    &&& q.insts[n + 4].args == seq![c.bound, nth(e, 4)]
    &&& q.insts[n + 5].op == Op::Branch(c.header, c.exit, again.len() as usize)
    &&& q.insts[n + 5].args == seq![left] + again + done
    &&& q.block(b.exit).insts == p.block(b.exit).insts + Seq::new(6, |k: int| Inst((n + k) as usize))
}

#[verifier::rlimit(60)]
#[verifier::spinoff_prover]
proof fn lemma_exit(p: ProgramV, c: CandidateV, b: LaneBlocks, sum_in: Inst)
    requires
        b.exit.0 < p.blocks.len(),
        p.insts.len() + 6 < usize::MAX,
    ensures
        extends(p, exit_built(p, c, b, sum_in), b.exit),
        is_exit(p, exit_built(p, c, b, sum_in), c, b, sum_in),
{
    let d = b.exit;
    let n = p.insts.len() as int;
    let e = p.block(d).params;
    let p1 = binary_made(p, BinaryOp::Add, nth(e, 0), nth(e, 1));
    let p2 = binary_made(p1, BinaryOp::Add, nth(e, 2), nth(e, 3));
    let p3 = binary_made(p2, BinaryOp::Add, p.next_inst(), p1.next_inst());
    let p4 = binary_made(p3, BinaryOp::Add, sum_in, p2.next_inst());
    let p5 = binary_made(p4, BinaryOp::Sub, c.bound, nth(e, 4));
    lemma_binary_made(p, BinaryOp::Add, nth(e, 0), nth(e, 1), d);
    lemma_binary_made(p1, BinaryOp::Add, nth(e, 2), nth(e, 3), d);
    lemma_binary_made(p2, BinaryOp::Add, p.next_inst(), p1.next_inst(), d);
    lemma_binary_made(p3, BinaryOp::Add, sum_in, p2.next_inst(), d);
    lemma_binary_made(p4, BinaryOp::Sub, c.bound, nth(e, 4), d);
    let sum = p3.next_inst();
    let left = p4.next_inst();
    let again = remainder_args(c, e, sum, left, 0, Seq::empty());
    let done = final_args(c, e, sum, c.exit_args, 0, Seq::empty());
    let op = Op::Branch(c.header, c.exit, again.len() as usize);
    let args = seq![left] + again + done;
    let p6 = p5.push_inst(op, args, Type::Unit, false);
    lemma_pushed(p5, op, args, Type::Unit, d);
    lemma_extends_twice(p, p1, p2, d);
    lemma_extends_twice(p, p2, p3, d);
    lemma_extends_twice(p, p3, p4, d);
    lemma_extends_twice(p, p4, p5, d);
    lemma_extends_twice(p, p5, p6, d);
    let q1 = p6.append(d, p.next_inst());
    let q2 = q1.append(d, p1.next_inst());
    let q3 = q2.append(d, p2.next_inst());
    let q4 = q3.append(d, sum);
    let q5 = q4.append(d, left);
    let q = q5.append(d, p5.next_inst());
    lemma_appended(p6, d, p.next_inst());
    lemma_appended(q1, d, p1.next_inst());
    lemma_appended(q2, d, p2.next_inst());
    lemma_appended(q3, d, sum);
    lemma_appended(q4, d, left);
    lemma_appended(q5, d, p5.next_inst());
    lemma_extends_twice(p, p6, q1, d);
    lemma_extends_twice(p, q1, q2, d);
    lemma_extends_twice(p, q2, q3, d);
    lemma_extends_twice(p, q3, q4, d);
    lemma_extends_twice(p, q4, q5, d);
    lemma_extends_twice(p, q5, q, d);
    assert(q == exit_built(p, c, b, sum_in));
    assert(q.insts == p6.insts);
    assert(q.insts[n] == p1.insts[n]) by {
        assert(p6.insts[n] == p5.insts[n] && p5.insts[n] == p4.insts[n] && p4.insts[n] == p3.insts[n] && p3.insts[n]
            == p2.insts[n] && p2.insts[n] == p1.insts[n]);
    }
    assert(q.insts[n + 1] == p2.insts[n + 1]) by {
        let k = n + 1;
        assert(p6.insts[k] == p5.insts[k] && p5.insts[k] == p4.insts[k] && p4.insts[k] == p3.insts[k] && p3.insts[k]
            == p2.insts[k]);
    }
    assert(q.insts[n + 2] == p3.insts[n + 2]) by {
        let k = n + 2;
        assert(p6.insts[k] == p5.insts[k] && p5.insts[k] == p4.insts[k] && p4.insts[k] == p3.insts[k]);
    }
    assert(q.insts[n + 3] == p4.insts[n + 3]) by {
        let k = n + 3;
        assert(p6.insts[k] == p5.insts[k] && p5.insts[k] == p4.insts[k]);
    }
    assert(q.insts[n + 4] == p5.insts[n + 4]) by {
        let k = n + 4;
        assert(p6.insts[k] == p5.insts[k]);
    }
    assert(q.block(d).insts =~= p.block(d).insts + Seq::new(6, |k: int| Inst((n + k) as usize)));
}

pub(crate) proof fn lemma_binary_made(p: ProgramV, op: BinaryOp, lhs: Inst, rhs: Inst, d: BasicBlock)
    requires
        p.insts.len() < usize::MAX,
    ensures
        extends(p, binary_made(p, op, lhs, rhs), d),
        binary_made(p, op, lhs, rhs).insts.len() == p.insts.len() + 1,
        binary_made(p, op, lhs, rhs).insts[p.insts.len() as int].op == Op::Binary(op),
        binary_made(p, op, lhs, rhs).insts[p.insts.len() as int].args == seq![lhs, rhs],
        binary_made(p, op, lhs, rhs).blocks == p.blocks,
{
    lemma_pushed(p, Op::Binary(op), seq![lhs, rhs], p.binary_ty(op, lhs), d);
}

/// The program in which lane `t` is built, where `p` is that of lane `from`.
spec fn lane_at(
    p: ProgramV,
    f: Function,
    c: CandidateV,
    l: LoopV,
    b: LaneBlocks,
    main: Seq<Inst>,
    params: Seq<Inst>,
    from: int,
    t: int,
    fuel: nat,
) -> ProgramV
    decreases t - from,
{
    if from >= t {
        p
    } else {
        lane_at(lane_of(p, f, c, l, b, main, params, from, fuel).0, f, c, l, b, main, params, from + 1, t, fuel)
    }
}

/// Lane `lane` built in `p`.
spec fn lane_of(
    p: ProgramV,
    f: Function,
    c: CandidateV,
    l: LoopV,
    b: LaneBlocks,
    main: Seq<Inst>,
    params: Seq<Inst>,
    lane: int,
    fuel: nat,
) -> (ProgramV, Inst) {
    lane_built(
        p,
        f,
        c,
        l,
        b,
        lane,
        nth(main, 4),
        nth(params, lane),
        nth(params, 6 + lane),
        tail_of(main, 10, c.passthroughs.len()),
        fuel,
    )
}

proof fn lemma_lane_longer(
    p: ProgramV,
    f: Function,
    c: CandidateV,
    l: LoopV,
    b: LaneBlocks,
    main: Seq<Inst>,
    params: Seq<Inst>,
    lane: int,
    fuel: nat,
)
    ensures
        lane_of(p, f, c, l, b, main, params, lane, fuel).0.insts.len() >= p.insts.len() + 2,
{
    let q = lane_started(p, b, lane, nth(main, 4));
    reveal(ProgramV::push_inst);
    reveal(ProgramV::set_block_insts);
    assert(q.insts.len() == p.insts.len() + 2);
    let kml = literal_made(p, lane as i32).next_inst();
    let m = lane_map(c, tail_of(main, 10, c.passthroughs.len()), kml, nth(params, lane), nth(params, 6 + lane));
    lemma_body_longer(q, f, lane_pairs(l, b), c, m, q.block(c.body).insts, 0, fuel);
}

proof fn lemma_lanes_longer(
    p: ProgramV,
    f: Function,
    c: CandidateV,
    l: LoopV,
    b: LaneBlocks,
    main: Seq<Inst>,
    params: Seq<Inst>,
    lane: int,
    out: Seq<Inst>,
    fuel: nat,
)
    ensures
        lanes_built(p, f, c, l, b, main, params, lane, out, fuel).0.insts.len() >= p.insts.len(),
    decreases 4 - lane,
{
    if lane < 4 {
        let (q, next) = lane_of(p, f, c, l, b, main, params, lane, fuel);
        lemma_lane_longer(p, f, c, l, b, main, params, lane, fuel);
        lemma_lanes_longer(q, f, c, l, b, main, params, lane + 1, out.push(next), fuel);
    }
}

/// A lane starts with its index, which is that of the loop and the lane's number.
proof fn lemma_lane_started(p: ProgramV, b: LaneBlocks, lane: int, index: Inst)
    requires
        b.body.0 < p.blocks.len(),
        p.insts.len() + 2 < usize::MAX,
    ensures
        ({
            let q = lane_started(p, b, lane, index);
            let n = p.insts.len() as int;
            &&& extends(p, q, b.body)
            &&& q.insts.len() == n + 2
            &&& q.insts[n] == literal_inst(lane as i32)
            &&& q.insts[n + 1].op == Op::Binary(BinaryOp::Add)
            &&& q.insts[n + 1].args == seq![index, Inst(n as usize)]
            &&& q.block(b.body).insts == p.block(b.body).insts.push(Inst((n + 1) as usize))
            &&& literal_made(p, lane as i32).next_inst() == Inst((n + 1) as usize)
        }),
{
    let p1 = literal_made(p, lane as i32);
    let p2 = binary_made(p1, BinaryOp::Add, index, p.next_inst());
    let q = lane_started(p, b, lane, index);
    lemma_pushed(p, Op::Integer(lane as i32), Seq::empty(), Type::I32, b.body);
    lemma_binary_made(p1, BinaryOp::Add, index, p.next_inst(), b.body);
    lemma_appended(p2, b.body, p1.next_inst());
    lemma_extends_twice(p, p1, p2, b.body);
    lemma_extends_twice(p, p2, q, b.body);
    assert(q.insts[p.insts.len() as int] == p1.insts[p.insts.len() as int]) by {
        assert(p2.insts[p.insts.len() as int] == p1.insts[p.insts.len() as int]);
    }
}

proof fn lemma_lane_extends(
    p: ProgramV,
    f: Function,
    c: CandidateV,
    l: LoopV,
    b: LaneBlocks,
    main: Seq<Inst>,
    params: Seq<Inst>,
    lane: int,
    fuel: nat,
)
    requires
        b.body.0 < p.blocks.len(),
        lane_of(p, f, c, l, b, main, params, lane, fuel).0.insts.len() < usize::MAX,
    ensures
        ({
            let r = lane_of(p, f, c, l, b, main, params, lane, fuel).0;
            let q = lane_started(p, b, lane, nth(main, 4));
            &&& extends(p, q, b.body)
            &&& extends(q, r, b.body)
            &&& extends(p, r, b.body)
        }),
{
    let q = lane_started(p, b, lane, nth(main, 4));
    let r = lane_of(p, f, c, l, b, main, params, lane, fuel).0;
    lemma_lane_longer(p, f, c, l, b, main, params, lane, fuel);
    let kml = literal_made(p, lane as i32).next_inst();
    let m = lane_map(c, tail_of(main, 10, c.passthroughs.len()), kml, nth(params, lane), nth(params, 6 + lane));
    lemma_body_longer(q, f, lane_pairs(l, b), c, m, q.block(c.body).insts, 0, fuel);
    lemma_lane_started(p, b, lane, nth(main, 4));
    lemma_body_extends(q, f, lane_pairs(l, b), c, m, q.block(c.body).insts, 0, fuel, b.body);
    lemma_extends_twice(p, q, r, b.body);
}

/// The lanes are built one behind the other, in the body of the lane loop.
proof fn lemma_lanes(
    p: ProgramV,
    f: Function,
    c: CandidateV,
    l: LoopV,
    b: LaneBlocks,
    main: Seq<Inst>,
    params: Seq<Inst>,
    lane: int,
    out: Seq<Inst>,
    fuel: nat,
)
    requires
        0 <= lane <= 4,
        b.body.0 < p.blocks.len(),
        lanes_built(p, f, c, l, b, main, params, lane, out, fuel).0.insts.len() < usize::MAX,
    ensures
        ({
            let (q, sums) = lanes_built(p, f, c, l, b, main, params, lane, out, fuel);
            &&& extends(p, q, b.body)
            &&& sums.len() == out.len() + 4 - lane
            &&& forall|k: int| 0 <= k < out.len() ==> #[trigger] sums[k] == out[k]
            &&& forall|t: int|
                lane <= t < 4 ==> {
                    let s = #[trigger] lane_at(p, f, c, l, b, main, params, lane, t, fuel);
                    let r = lane_of(s, f, c, l, b, main, params, t, fuel);
                    &&& extends(p, s, b.body)
                    &&& extends(r.0, q, b.body)
                    &&& sums[out.len() + t - lane] == r.1
                }
        }),
    decreases 4 - lane,
{
    lemma_same(p, b.body);
    if lane < 4 {
        let (r, next) = lane_of(p, f, c, l, b, main, params, lane, fuel);
        let (q, sums) = lanes_built(p, f, c, l, b, main, params, lane, out, fuel);
        lemma_lanes_longer(r, f, c, l, b, main, params, lane + 1, out.push(next), fuel);
        lemma_lane_extends(p, f, c, l, b, main, params, lane, fuel);
        lemma_lanes(r, f, c, l, b, main, params, lane + 1, out.push(next), fuel);
        lemma_extends_twice(p, r, q, b.body);
        assert forall|k: int| 0 <= k < out.len() implies #[trigger] sums[k] == out[k] by {
            assert(out.push(next)[k] == out[k]);
        }
        assert(sums[out.len() as int] == next) by {
            assert(out.push(next)[out.len() as int] == next);
        }
        assert forall|t: int| lane <= t < 4 implies {
            let s = #[trigger] lane_at(p, f, c, l, b, main, params, lane, t, fuel);
            let x = lane_of(s, f, c, l, b, main, params, t, fuel);
            &&& extends(p, s, b.body)
            &&& extends(x.0, q, b.body)
            &&& sums[out.len() + t - lane] == x.1
        } by {
            if t > lane {
                let s = lane_at(r, f, c, l, b, main, params, lane + 1, t, fuel);
                assert(lane_at(p, f, c, l, b, main, params, lane, t, fuel) == s);
                lemma_extends_twice(p, r, s, b.body);
            }
        }
    }
}

/// The lane loop as it is built in `p`: its header goes to its body, and behind the lanes, which end with program `s`
/// and the sums `sums`, stand the next index, what is left, the next addresses and the way back.
spec fn is_main(p: ProgramV, s: ProgramV, sums: Seq<Inst>, q: ProgramV, c: CandidateV, b: LaneBlocks, four: Inst) -> bool {
    let main = p.block(b.header).params;
    let params = p.block(b.body).params;
    let j = p.insts.len() as int;
    let n = s.insts.len() as int;
    let passed = sums + seq![
        Inst(n as usize),
        Inst((n + 1) as usize),
        Inst((n + 3) as usize),
        Inst((n + 4) as usize),
        Inst((n + 5) as usize),
        Inst((n + 6) as usize),
    ] + tail_of(main, 10, c.passthroughs.len());
    &&& insts_grow(p, s)
    &&& insts_grow(s, q)
    &&& q.insts.len() == n + 8
    &&& q.blocks.len() == p.blocks.len()
    &&& forall|x: int| 0 <= x < p.blocks.len() && x != b.header.0 && x != b.body.0 ==> #[trigger] q.blocks[x] == p.blocks[x]
    &&& q.block(b.header).params == main
    &&& q.block(b.body).params == params
    &&& q.block(b.header).insts == p.block(b.header).insts.push(Inst(j as usize))
    &&& j < n
    &&& q.insts[j].op == Op::Jump(b.body)
    &&& q.insts[j].args == main
    &&& q.block(b.body).insts == s.block(b.body).insts + seq![
        Inst(n as usize),
        Inst((n + 1) as usize),
        Inst((n + 3) as usize),
        Inst((n + 4) as usize),
        Inst((n + 5) as usize),
        Inst((n + 6) as usize),
        Inst((n + 7) as usize),
    ]
    &&& q.insts[n].op == Op::Binary(BinaryOp::Add)
    &&& q.insts[n].args == seq![nth(main, 4), four]
    &&& q.insts[n + 1].op == Op::Binary(BinaryOp::Sub)
    &&& q.insts[n + 1].args == seq![nth(main, 5), four]
    &&& q.insts[n + 2] == literal_inst((4 * c.stride) as i32)
    &&& forall|k: int|
        0 <= k < 4 ==> {
            let i = #[trigger] q.insts[n + 3 + k];
            &&& i.op == Op::GetElemPtr
            &&& i.args == seq![nth(params, 6 + k), Inst((n + 2) as usize)]
            &&& nth(params, 6 + k).0 < n ==> i.ty == q.gep_ty(nth(params, 6 + k), 1)
        }
    &&& q.insts[n + 7].op == Op::Branch(b.header, b.exit, passed.len() as usize)
    &&& q.insts[n + 7].args == seq![Inst((n + 1) as usize)] + passed + passed
}

/// An address moved by an offset that was made before.
proof fn lemma_moved(p: ProgramV, b: BasicBlock, base: Inst, step: Inst)
    requires
        b.0 < p.blocks.len(),
        p.insts.len() + 1 < usize::MAX,
    ensures
        ({
            let q = address_placed(p, b, base, step);
            let n = p.insts.len() as int;
            &&& extends(p, q, b)
            &&& q.insts.len() == n + 1
            &&& q.insts[n].op == Op::GetElemPtr
            &&& q.insts[n].args == seq![base, step]
            &&& q.insts[n].ty == p.gep_ty(base, 1)
            &&& q.block(b).insts == p.block(b).insts.push(Inst(n as usize))
        }),
{
    let args = seq![base] + seq![step];
    assert(args =~= seq![base, step]);
    let g = p.push_inst(Op::GetElemPtr, args, p.gep_ty(base, 1), false);
    lemma_pushed(p, Op::GetElemPtr, args, p.gep_ty(base, 1), b);
    lemma_appended(g, b, p.next_inst());
    lemma_extends_twice(p, g, address_placed(p, b, base, step), b);
}

#[verifier::rlimit(60)]
#[verifier::spinoff_prover]
proof fn lemma_pointers_moved(p: ProgramV, b: BasicBlock, params: Seq<Inst>, step: Inst, out: Seq<Inst>)
    requires
        b.0 < p.blocks.len(),
        p.insts.len() + 4 < usize::MAX,
    ensures
        ({
            let (q, backs) = pointers_moved(p, b, params, step, 0, out);
            let n = p.insts.len() as int;
            &&& extends(p, q, b)
            &&& q.insts.len() == n + 4
            &&& backs == out + seq![
                Inst(n as usize),
                Inst((n + 1) as usize),
                Inst((n + 2) as usize),
                Inst((n + 3) as usize),
            ]
            &&& q.block(b).insts == p.block(b).insts + seq![
                Inst(n as usize),
                Inst((n + 1) as usize),
                Inst((n + 2) as usize),
                Inst((n + 3) as usize),
            ]
            &&& forall|k: int|
                0 <= k < 4 ==> {
                    let i = #[trigger] q.insts[n + k];
                    &&& i.op == Op::GetElemPtr
                    &&& i.args == seq![nth(params, 6 + k), step]
                    &&& nth(params, 6 + k).0 < n ==> i.ty == p.gep_ty(nth(params, 6 + k), 1)
                }
        }),
{
    reveal_with_fuel(pointers_moved, 6);
    let n = p.insts.len() as int;
    let q1 = address_placed(p, b, nth(params, 6), step);
    let q2 = address_placed(q1, b, nth(params, 7), step);
    let q3 = address_placed(q2, b, nth(params, 8), step);
    let q4 = address_placed(q3, b, nth(params, 9), step);
    lemma_moved(p, b, nth(params, 6), step);
    lemma_moved(q1, b, nth(params, 7), step);
    lemma_moved(q2, b, nth(params, 8), step);
    lemma_moved(q3, b, nth(params, 9), step);
    lemma_extends_twice(p, q1, q2, b);
    lemma_extends_twice(p, q2, q3, b);
    lemma_extends_twice(p, q3, q4, b);
    let (q, backs) = pointers_moved(p, b, params, step, 0, out);
    assert(q == q4);
    assert(q4.insts[n] == q1.insts[n]) by {
        assert(q4.insts[n] == q3.insts[n] && q3.insts[n] == q2.insts[n] && q2.insts[n] == q1.insts[n]);
    }
    assert(q4.insts[n + 1] == q2.insts[n + 1]) by {
        assert(q4.insts[n + 1] == q3.insts[n + 1] && q3.insts[n + 1] == q2.insts[n + 1]);
    }
    assert(q4.insts[n + 2] == q3.insts[n + 2]);
    assert forall|k: int| 0 <= k < 4 implies ({
        let i = #[trigger] q.insts[n + k];
        &&& i.op == Op::GetElemPtr
        &&& i.args == seq![nth(params, 6 + k), step]
        &&& nth(params, 6 + k).0 < n ==> i.ty == p.gep_ty(nth(params, 6 + k), 1)
    }) by {
        let x = nth(params, 6 + k);
        if x.0 < n {
            assert(q1.insts[x.0 as int] == p.insts[x.0 as int]);
            assert(q2.insts[x.0 as int] == p.insts[x.0 as int]);
            assert(q3.insts[x.0 as int] == p.insts[x.0 as int]);
        }
        if k == 0 {
        } else if k == 1 {
        } else if k == 2 {
        } else {
            assert(k == 3);
        }
    }
    assert(backs =~= out + seq![
        Inst(n as usize),
        Inst((n + 1) as usize),
        Inst((n + 2) as usize),
        Inst((n + 3) as usize),
    ]);
    assert(q.block(b).insts =~= p.block(b).insts + seq![
        Inst(n as usize),
        Inst((n + 1) as usize),
        Inst((n + 2) as usize),
        Inst((n + 3) as usize),
    ]);
}

/// The program with the jump in the header of the lane loop.
spec fn headed(p: ProgramV, b: LaneBlocks) -> ProgramV {
    p.push_inst(Op::Jump(b.body), p.block(b.header).params, Type::Unit, false).append(b.header, p.next_inst())
}

/// The program with the lanes.
spec fn laned(p: ProgramV, f: Function, c: CandidateV, l: LoopV, b: LaneBlocks) -> (ProgramV, Seq<Inst>) {
    let p1 = headed(p, b);
    lanes_built(
        p1,
        f,
        c,
        l,
        b,
        p.block(b.header).params,
        p.block(b.body).params,
        0,
        Seq::empty(),
        p1.insts.len(),
    )
}

proof fn lemma_main_longer(p: ProgramV, f: Function, c: CandidateV, l: LoopV, b: LaneBlocks, four: Inst)
    ensures
        headed(p, b).insts.len() == p.insts.len() + 1,
        laned(p, f, c, l, b).0.insts.len() >= p.insts.len() + 1,
        main_built(p, f, c, l, b, four).insts.len() == laned(p, f, c, l, b).0.insts.len() + 8,
{
    let p1 = headed(p, b);
    reveal(ProgramV::push_inst);
    reveal(ProgramV::set_block_insts);
    assert(p1.insts.len() == p.insts.len() + 1);
    lemma_lanes_longer(
        p1,
        f,
        c,
        l,
        b,
        p.block(b.header).params,
        p.block(b.body).params,
        0,
        Seq::empty(),
        p1.insts.len(),
    );
    reveal_with_fuel(pointers_moved, 6);
}

#[verifier::rlimit(100)]
#[verifier::spinoff_prover]
proof fn lemma_main(p: ProgramV, f: Function, c: CandidateV, l: LoopV, b: LaneBlocks, four: Inst)
    requires
        b.header.0 < p.blocks.len(),
        b.body.0 < p.blocks.len(),
        b.header != b.body,
        main_built(p, f, c, l, b, four).insts.len() < usize::MAX,
    ensures
        extends(p, headed(p, b), b.header),
        extends(headed(p, b), laned(p, f, c, l, b).0, b.body),
        extends(headed(p, b), main_built(p, f, c, l, b, four), b.body),
        is_main(p, laned(p, f, c, l, b).0, laned(p, f, c, l, b).1, main_built(p, f, c, l, b, four), c, b, four),
{
    let d = b.body;
    let main = p.block(b.header).params;
    let params = p.block(d).params;
    let j = p.insts.len() as int;
    let p0 = p.push_inst(Op::Jump(d), main, Type::Unit, false);
    let p1 = headed(p, b);
    let (p2, sums) = laned(p, f, c, l, b);
    lemma_main_longer(p, f, c, l, b, four);
    lemma_pushed(p, Op::Jump(d), main, Type::Unit, b.header);
    lemma_appended(p0, b.header, p.next_inst());
    lemma_extends_twice(p, p0, p1, b.header);
    lemma_lanes(p1, f, c, l, b, main, params, 0, Seq::empty(), p1.insts.len());
    let n = p2.insts.len() as int;
    let index = p2.next_inst();
    let a3 = binary_made(p2, BinaryOp::Add, nth(main, 4), four);
    let p3 = a3.append(d, index);
    let left = p3.next_inst();
    let a4 = binary_made(p3, BinaryOp::Sub, nth(main, 5), four);
    let p4 = a4.append(d, left);
    let step = p4.next_inst();
    let p5 = literal_made(p4, (4 * c.stride) as i32);
    let (p6, backs) = pointers_moved(p5, d, params, step, 0, sums.push(index).push(left));
    let all = backs + tail_of(main, 10, c.passthroughs.len());
    let op = Op::Branch(b.header, b.exit, all.len() as usize);
    let args = seq![left] + all + all;
    let p7 = p6.push_inst(op, args, Type::Unit, false);
    let q = p7.append(d, p6.next_inst());
    assert(q == main_built(p, f, c, l, b, four));
    lemma_binary_made(p2, BinaryOp::Add, nth(main, 4), four, d);
    lemma_appended(a3, d, index);
    lemma_extends_twice(p2, a3, p3, d);
    lemma_binary_made(p3, BinaryOp::Sub, nth(main, 5), four, d);
    lemma_appended(a4, d, left);
    lemma_extends_twice(p3, a4, p4, d);
    lemma_pushed(p4, Op::Integer((4 * c.stride) as i32), Seq::empty(), Type::I32, d);
    lemma_pointers_moved(p5, d, params, step, sums.push(index).push(left));
    lemma_pushed(p6, op, args, Type::Unit, d);
    lemma_appended(p7, d, p6.next_inst());
    lemma_extends_twice(p2, p3, p4, d);
    lemma_extends_twice(p2, p4, p5, d);
    lemma_extends_twice(p2, p5, p6, d);
    lemma_extends_twice(p2, p6, p7, d);
    lemma_extends_twice(p2, p7, q, d);
    lemma_extends_twice(p1, p2, q, d);
    assert(insts_grow(p, p2)) by {
        assert forall|x: int| 0 <= x < p.insts.len() implies #[trigger] p2.insts[x] == p.insts[x] by {
            assert(p2.insts[x] == p1.insts[x] && p1.insts[x] == p.insts[x]);
        }
    }
    assert forall|x: int| 0 <= x < p.blocks.len() && x != b.header.0 && x != d.0 implies #[trigger] q.blocks[x]
        == p.blocks[x] by {
        assert(q.blocks[x] == p1.blocks[x] && p1.blocks[x] == p.blocks[x]);
    }
    let h = b.header.0 as int;
    assert(q.blocks[h] == p1.blocks[h]);
    assert(p1.blocks[d.0 as int] == p.blocks[d.0 as int]);
    assert(q.insts[j] == p1.insts[j]) by {
        assert(q.insts[j] == p2.insts[j]);
        assert(p2.insts[j] == p1.insts[j]);
    }
    assert(q.insts == p7.insts);
    assert(q.insts[n] == a3.insts[n]) by {
        assert(p7.insts[n] == p6.insts[n] && p6.insts[n] == p5.insts[n] && p5.insts[n] == p4.insts[n]);
        assert(p4.insts[n] == a4.insts[n] && a4.insts[n] == p3.insts[n]);
    }
    assert(q.insts[n + 1] == a4.insts[n + 1]) by {
        let k = n + 1;
        assert(p7.insts[k] == p6.insts[k] && p6.insts[k] == p5.insts[k] && p5.insts[k] == p4.insts[k]);
    }
    assert(q.insts[n + 2] == p5.insts[n + 2]) by {
        let k = n + 2;
        assert(p7.insts[k] == p6.insts[k] && p6.insts[k] == p5.insts[k]);
    }
    assert forall|k: int| 0 <= k < 4 implies ({
        let i = #[trigger] q.insts[n + 3 + k];
        &&& i.op == Op::GetElemPtr
        &&& i.args == seq![nth(params, 6 + k), Inst((n + 2) as usize)]
        &&& nth(params, 6 + k).0 < n ==> i.ty == q.gep_ty(nth(params, 6 + k), 1)
    }) by {
        assert(q.insts[n + 3 + k] == p6.insts[n + 3 + k]);
        assert(p5.insts.len() == n + 3);
        let i = p6.insts[p5.insts.len() + k];
        let x = nth(params, 6 + k);
        if x.0 < n {
            assert(p5.insts[x.0 as int] == p2.insts[x.0 as int]);
            assert(q.insts[x.0 as int] == p2.insts[x.0 as int]);
        }
    }
    assert(backs + tail_of(main, 10, c.passthroughs.len()) =~= sums + seq![
        Inst(n as usize),
        Inst((n + 1) as usize),
        Inst((n + 3) as usize),
        Inst((n + 4) as usize),
        Inst((n + 5) as usize),
        Inst((n + 6) as usize),
    ] + tail_of(main, 10, c.passthroughs.len()));
    assert(q.block(d).insts =~= p2.block(d).insts + seq![
        Inst(n as usize),
        Inst((n + 1) as usize),
        Inst((n + 3) as usize),
        Inst((n + 4) as usize),
        Inst((n + 5) as usize),
        Inst((n + 6) as usize),
        Inst((n + 7) as usize),
    ]);
}

/// The block before the loop, what it passes to the loop, the new blocks, and the programs in which the blocks, the
/// guard, the lane loop and its exit are made.
spec fn stages(p: ProgramV, f: Function, order: Seq<BasicBlock>, l: LoopV, c: CandidateV) -> (
    BasicBlock,
    Seq<Inst>,
    LaneBlocks,
    ProgramV,
    ProgramV,
    ProgramV,
    ProgramV,
) {
    let pre = preheader_of(p, order, l)->0;
    let args = p.args(p.terminator(pre));
    let (p1, b) = lane_blocks(p, f, pre, lane_types(p, c));
    let (p2, four) = guard_built(p1, c, b, args);
    let p3 = main_built(p2, f, c, l, b, four);
    let p4 = exit_built(p3, c, b, nth(args, position(c.header_params, c.acc_param, 0)));
    (pre, args, b, p1, p2, p3, p4)
}

/// The parts of the loop are parameters of its header, for which `args` are passed.
pub open spec fn is_fed(p: ProgramV, c: CandidateV, args: Seq<Inst>) -> bool {
    &&& args.len() == c.header_params.len()
    &&& forall|k: int| 0 <= k < args.len() ==> (#[trigger] args[k]).0 < p.insts.len() && !(p.op(args[k]) is Jump)
    &&& c.header_params.contains(c.k_param)
    &&& c.header_params.contains(c.acc_param)
    &&& c.header_params.contains(c.ctr_param)
    &&& c.header_params.contains(c.ptr_param)
    &&& forall|k: int|
        0 <= k < c.passthroughs.len() ==> (#[trigger] c.passthroughs[k]).1 < c.header_params.len()
            && c.header_params[c.passthroughs[k].1 as int] == c.passthroughs[k].0
    &&& c.bound.0 < p.insts.len()
    &&& p.blocks.len() + 4 <= usize::MAX
}

proof fn lemma_position(s: Seq<Inst>, x: Inst, from: int)
    requires
        0 <= from,
        exists|k: int| from <= k < s.len() && s[k] == x,
    ensures
        from <= position(s, x, from) < s.len(),
        s[position(s, x, from)] == x,
    decreases s.len() - from,
{
    if s[from] != x {
        lemma_position(s, x, from + 1);
    }
}

/// Nothing that is built later touches what was built before, but for the jump to the guard.
#[verifier::spinoff_prover]
proof fn lemma_stages(p: ProgramV, f: Function, order: Seq<BasicBlock>, l: LoopV, c: CandidateV, q: ProgramV)
    requires
        blocked(p, f, order, l, c) == Some(q),
        is_fed(p, c, p.args(p.terminator(preheader_of(p, order, l)->0))),
        q.insts.len() < usize::MAX,
    ensures
        ({
            let (pre, args, b, p1, p2, p3, p4) = stages(p, f, order, l, c);
            let t = p.terminator(pre);
            let sum_in = nth(args, position(c.header_params, c.acc_param, 0));
            let four = Inst((p1.insts.len() + 1) as usize);
            &&& t.0 < p.insts.len()
            &&& pre.0 < p.blocks.len()
            &&& q.blocks == p4.blocks
            &&& q.insts == p4.insts.update(t.0 as int, q.inst(t))
            &&& q.op(t) == Op::Jump(b.guard)
            &&& q.args(t).len() == 0
            &&& are_lane_blocks(p, p1, b, lane_types(p, c))
            &&& is_guard(p1, p2, c, b, args)
            &&& extends(p1, p2, b.guard)
            &&& main_built(p2, f, c, l, b, four) == p3
            &&& p3.insts.len() < usize::MAX
            &&& is_main(p2, laned(p2, f, c, l, b).0, laned(p2, f, c, l, b).1, p3, c, b, four)
            &&& is_exit(p3, p4, c, b, sum_in)
            &&& extends(p3, p4, b.exit)
        }),
{
    let (pre, args, b, p1, p2, p3, p4) = stages(p, f, order, l, c);
    let t = p.terminator(pre);
    let tys = lane_types(p, c);
    let sum_in = nth(args, position(c.header_params, c.acc_param, 0));
    let four = guard_built(p1, c, b, args).1;
    assert(p4.insts.len() == q.insts.len()) by {
        reveal(ProgramV::set_inst);
    }
    assert(p3.insts.len() + 6 == p4.insts.len()) by {
        reveal(ProgramV::push_inst);
        reveal(ProgramV::set_block_insts);
    }
    lemma_main_longer(p2, f, c, l, b, four);
    assert(p1.insts.len() + 12 == p2.insts.len()) by {
        reveal(ProgramV::push_inst);
        reveal(ProgramV::set_block_insts);
        reveal_with_fuel(lane_pointers, 6);
    }
    lemma_lane_blocks(p, f, pre, tys);
    lemma_position(c.header_params, c.ptr_param, 0);
    lemma_guard(p1, c, b, args);
    lemma_main(p2, f, c, l, b, four);
    lemma_exit(p3, c, b, sum_in);
    assert(t.0 < p.insts.len());
    assert(pre.0 < p.blocks.len());
    let x = pre.0 as int;
    assert(p4.blocks[x] == p3.blocks[x] && p3.blocks[x] == p2.blocks[x] && p2.blocks[x] == p1.blocks[x] && p1.blocks[x]
        == p.blocks[x]);
    assert(p4.terminator(pre) == t);
    reveal(ProgramV::set_inst);
}

/// What is passed on to the lane loop, and when it is taken: where at least four rounds are to be done, with sums and
/// index at zero, a number of rounds that is a multiple of four, and an address for each lane; otherwise the loop is
/// entered as before.
pub open spec fn splits_rounds(
    q: ProgramV,
    c: CandidateV,
    size: spec_fn(Type) -> int,
    w: spec_fn(Inst) -> int,
    args: Seq<Inst>,
    g: BasicBlock,
) -> bool {
    let a = q.args(q.terminator(g));
    let ptr = args[position(c.header_params, c.ptr_param, 0)];
    let bound = w(c.bound);
    &&& q.op(q.terminator(g)) matches Op::Branch(h, other, n)
    &&& other == c.header
    &&& n == 10 + c.passthroughs.len()
    &&& q.block(h).params.len() == n
    &&& a.len() == 1 + n + args.len()
    &&& w(a[0]) != 0 <==> bound >= 4
    &&& forall|k: int| 1 <= k <= 5 ==> w(#[trigger] a[k]) == 0
    &&& bound >= 4 ==> w(a[6]) == bound - bound % 4
    &&& forall|lane: int| 0 <= lane < 4 ==> w(#[trigger] a[7 + lane]) == w(ptr) + size(q.gep_ty(ptr, 1)) * (lane * c.stride)
    &&& forall|k: int| 0 <= k < c.passthroughs.len() ==> #[trigger] a[11 + k] == args[c.passthroughs[k].1 as int]
    &&& a.skip(1 + n) == args
}

/// The rounds of the loop are split before it is entered. The block before the loop goes to the guard. Whatever values
/// the guard computes, it goes to the lane loop exactly where at least four rounds are to be done, and the number of
/// rounds that it passes is `bound - bound % 4`: a positive multiple of four that leaves fewer than four rounds. Each
/// lane starts with an empty sum and with the address of its first element, and all else goes to the loop itself, with
/// what the loop was given.
#[verifier::spinoff_prover]
pub proof fn the_guard_splits_the_rounds(
    p: ProgramV,
    f: Function,
    order: Seq<BasicBlock>,
    l: LoopV,
    c: CandidateV,
    meaning: Meaning,
    size: spec_fn(Type) -> int,
    w: spec_fn(Inst) -> int,
)
    requires
        blocked(p, f, order, l, c) is Some,
        is_fed(p, c, p.args(p.terminator(preheader_of(p, order, l)->0))),
        (blocked(p, f, order, l, c)->0).insts.len() < usize::MAX,
        means_words(meaning, size),
        reads_literals(blocked(p, f, order, l, c)->0, w),
        is_word(w(c.bound)),
        is_word(4 * c.stride),
    ensures
        ({
            let q = blocked(p, f, order, l, c)->0;
            let pre = preheader_of(p, order, l)->0;
            let t = p.terminator(pre);
            &&& q.terminator(pre) == t
            &&& q.args(t).len() == 0
            &&& q.op(t) matches Op::Jump(g)
            &&& q.block(g).params.len() == 0
            &&& solves(q, meaning, w, q.block(g).insts.drop_last()) ==> splits_rounds(q, c, size, w, p.args(t), g)
        }),
{
    let q = blocked(p, f, order, l, c)->0;
    let (pre, args, b, p1, p2, p3, p4) = stages(p, f, order, l, c);
    let t = p.terminator(pre);
    let g = b.guard;
    lemma_stages(p, f, order, l, c, q);
    let x = pre.0 as int;
    assert(p4.blocks[x] == p3.blocks[x] && p3.blocks[x] == p2.blocks[x] && p2.blocks[x] == p1.blocks[x] && p1.blocks[x]
        == p.blocks[x]);
    let y = g.0 as int;
    assert(p4.blocks[y] == p3.blocks[y] && p3.blocks[y] == p2.blocks[y]);
    let n = p1.insts.len() as int;
    assert forall|k: int| n <= k < n + 12 implies #[trigger] q.insts[k] == p2.insts[k] by {
        assert(p4.insts[k] == p3.insts[k]);
        assert(p3.insts[k] == laned(p2, f, c, l, b).0.insts[k]);
        assert(laned(p2, f, c, l, b).0.insts[k] == p2.insts[k]);
    }
    assert(q.insts[n] == p2.insts[n]);
    assert(q.insts[n + 1] == p2.insts[n + 1]);
    assert(q.insts[n + 2] == p2.insts[n + 2]);
    assert(q.insts[n + 3] == p2.insts[n + 3]);
    assert(q.insts[n + 4] == p2.insts[n + 4]);
    assert(q.insts[n + 5] == p2.insts[n + 5]);
    assert(q.insts[n + 6] == p2.insts[n + 6]);
    assert(q.insts[n + 7] == p2.insts[n + 7]);
    assert(q.insts[n + 8] == p2.insts[n + 8]);
    assert(q.insts[n + 9] == p2.insts[n + 9]);
    assert(q.insts[n + 10] == p2.insts[n + 10]);
    assert(q.insts[n + 11] == p2.insts[n + 11]);
    lemma_position(c.header_params, c.ptr_param, 0);
    let ptr = args[position(c.header_params, c.ptr_param, 0)];
    let bound = w(c.bound);
    if solves(q, meaning, w, q.block(g).insts.drop_last()) {
        let insts = q.block(g).insts;
        let s = insts.drop_last();
        let zero = Inst(n as usize);
        let four = Inst((n + 1) as usize);
        let mask = Inst((n + 2) as usize);
        let test = Inst((n + 3) as usize);
        let masked = Inst((n + 4) as usize);
        assert(q.op(zero) == Op::Integer(0));
        assert(q.op(four) == Op::Integer(4));
        assert(q.op(mask) == Op::Integer((-4) as i32));
        assert(w(zero) == 0 && w(four) == 4 && w(mask) == -4);
        assert(s.len() == 5);
        assert(s[3] == test && s[4] == masked && s[0] == Inst((n + 6) as usize) && s[1] == Inst((n + 8) as usize) && s[2]
            == Inst((n + 10) as usize));
        assert(w(s[0]) == outcome(q, meaning, w, s[0]));
        assert(w(s[1]) == outcome(q, meaning, w, s[1]));
        assert(w(s[2]) == outcome(q, meaning, w, s[2]));
        assert(w(s[3]) == outcome(q, meaning, w, s[3]));
        assert(w(s[4]) == outcome(q, meaning, w, s[4]));
        let both = seq![bound, 4int];
        assert(Seq::new(2, |k: int| w(q.args(test)[k])) =~= both);
        assert(w(test) != 0 <==> bound >= 4);
        let and = seq![bound, -4int];
        assert(Seq::new(2, |k: int| w(q.args(masked)[k])) =~= and);
        let i = bound as i32;
        assert(bound >= 4 ==> w(masked) == bound - bound % 4) by {
            assert(i >= 4 ==> i & -4i32 == i - i % 4) by (bit_vector);
        }
        assert forall|j: int| 0 <= j < 3 implies w(#[trigger] s[j]) == w(ptr) + size(q.gep_ty(ptr, 1)) * ((j + 1)
            * c.stride) by {
            let lane = j + 1;
            let i = Inst((n + 4 + 2 * lane) as usize);
            let k = Inst((n + 3 + 2 * lane) as usize);
            assert(i == s[lane - 1]);
            assert(q.ty(ptr) == p2.ty(ptr)) by {
                let z = ptr.0 as int;
                assert(p2.insts[z] == p1.insts[z] && p1.insts[z] == p.insts[z]);
                assert(p4.insts[z] == p3.insts[z]);
                assert(p3.insts[z] == laned(p2, f, c, l, b).0.insts[z]);
                assert(laned(p2, f, c, l, b).0.insts[z] == p2.insts[z]);
            }
            assert(q.op(k) == Op::Integer(lane_offset(c, lane)));
            assert(-0x8000_0000 <= lane * c.stride <= 0x7fff_ffff) by (nonlinear_arith)
                requires
                    1 <= lane < 4,
                    -0x8000_0000 <= 4 * c.stride <= 0x7fff_ffff,
            ;
            assert(w(k) == lane * c.stride);
            let moved = seq![w(ptr), lane * c.stride];
            assert(q.args(i) == seq![ptr, k]);
            assert(Seq::new(2, |k: int| w(q.args(i)[k])) =~= moved);
            assert(outcome(q, meaning, w, i) == meaning(Op::GetElemPtr, q.ty(i), moved));
        }
        let a = q.args(q.terminator(g));
        let start = guard_passes(p1, c, args);
        assert(q.terminator(g) == Inst((n + 11) as usize));
        assert(a == seq![test] + start + args);
        assert forall|lane: int| 0 <= lane < 4 implies w(#[trigger] a[7 + lane]) == w(ptr) + size(q.gep_ty(ptr, 1)) * (lane
            * c.stride) by {
            if lane == 0 {
                assert(a[7] == ptr);
                assert(size(q.gep_ty(ptr, 1)) * (0 * c.stride) == 0) by (nonlinear_arith);
            } else {
                assert(a[7 + lane] == s[lane - 1]);
            }
        }
        assert forall|k: int| 0 <= k < c.passthroughs.len() implies #[trigger] a[11 + k]
            == args[c.passthroughs[k].1 as int] by {
            assert(c.passthroughs[k].1 < c.header_params.len());
        }
        assert(a.skip(1 + start.len() as int) =~= args);
        let z = b.header.0 as int;
        assert(p4.blocks[z] == p3.blocks[z]);
        assert(p2.blocks[z] == p1.blocks[z]);
    }
}

/// The block to which block `b` goes, or goes where its condition holds.
pub open spec fn goes_to(q: ProgramV, b: BasicBlock) -> BasicBlock {
    match q.op(q.terminator(b)) {
        Op::Jump(x) => x,
        Op::Branch(x, _, _) => x,
        _ => b,
    }
}

/// The block to which block `b` goes where its condition does not hold.
pub open spec fn else_goes_to(q: ProgramV, b: BasicBlock) -> BasicBlock {
    match q.op(q.terminator(b)) {
        Op::Branch(_, x, _) => x,
        _ => b,
    }
}

/// The parts of a loop are different parameters, and so are the values that it carries through.
pub open spec fn parts_differ(c: CandidateV) -> bool {
    &&& c.k_param != c.acc_param
    &&& c.k_param != c.ctr_param
    &&& c.k_param != c.ptr_param
    &&& c.acc_param != c.ctr_param
    &&& c.acc_param != c.ptr_param
    &&& c.ctr_param != c.ptr_param
    &&& c.k_back != c.acc_back
    &&& c.acc_back != c.ctr_back
    &&& c.acc_back != c.ptr_back
    &&& forall|k: int|
        0 <= k < c.passthroughs.len() ==> {
            let v = (#[trigger] c.passthroughs[k]).0;
            &&& v != c.k_param
            &&& v != c.acc_param
            &&& v != c.ctr_param
            &&& v != c.ptr_param
            &&& v != c.k_back
            &&& v != c.acc_back
        }
    &&& forall|j: int, k: int|
        0 <= j < c.passthroughs.len() && 0 <= k < c.passthroughs.len() && j != k ==> (#[trigger] c.passthroughs[j]).0 != (
        #[trigger] c.passthroughs[k]).0
}

spec fn again_for(c: CandidateV, e: Seq<Inst>, sum: Inst, left: Inst, v: Inst) -> Inst {
    if v == c.k_param {
        nth(e, 4)
    } else if v == c.acc_param {
        sum
    } else if v == c.ctr_param {
        left
    } else if v == c.ptr_param {
        nth(e, 6)
    } else {
        nth(e, 10 + carried(c.passthroughs, v, 0))
    }
}

spec fn done_for(c: CandidateV, e: Seq<Inst>, sum: Inst, v: Inst) -> Inst {
    if v == c.k_back {
        nth(e, 4)
    } else if v == c.acc_back {
        sum
    } else {
        nth(e, 10 + carried(c.passthroughs, v, 0))
    }
}

proof fn lemma_remainder(c: CandidateV, e: Seq<Inst>, sum: Inst, left: Inst, from: int, out: Seq<Inst>)
    requires
        0 <= from <= c.header_params.len(),
    ensures
        remainder_args(c, e, sum, left, from, out) == out + Seq::new(
            (c.header_params.len() - from) as nat,
            |k: int| again_for(c, e, sum, left, c.header_params[from + k]),
        ),
    decreases c.header_params.len() - from,
{
    if from < c.header_params.len() {
        lemma_remainder(c, e, sum, left, from + 1, out.push(again_for(c, e, sum, left, c.header_params[from])));
    }
    assert(remainder_args(c, e, sum, left, from, out) =~= out + Seq::new(
        (c.header_params.len() - from) as nat,
        |k: int| again_for(c, e, sum, left, c.header_params[from + k]),
    ));
}

proof fn lemma_final(c: CandidateV, e: Seq<Inst>, sum: Inst, args: Seq<Inst>, from: int, out: Seq<Inst>)
    requires
        0 <= from <= args.len(),
    ensures
        final_args(c, e, sum, args, from, out) == out + Seq::new(
            (args.len() - from) as nat,
            |k: int| done_for(c, e, sum, args[from + k]),
        ),
    decreases args.len() - from,
{
    if from < args.len() {
        lemma_final(c, e, sum, args, from + 1, out.push(done_for(c, e, sum, args[from])));
    }
    assert(final_args(c, e, sum, args, from, out) =~= out + Seq::new(
        (args.len() - from) as nat,
        |k: int| done_for(c, e, sum, args[from + k]),
    ));
}

proof fn lemma_carried(c: CandidateV, k: int, from: int)
    requires
        parts_differ(c),
        0 <= from <= k < c.passthroughs.len(),
    ensures
        carried(c.passthroughs, c.passthroughs[k].0, from) == k,
    decreases k - from,
{
    if from < k {
        assert(c.passthroughs[from].0 != c.passthroughs[k].0);
        lemma_carried(c, k, from + 1);
    }
}

/// What is passed on behind the lane loop, and where to: the loop is entered again where rounds are left, with the index
/// that was reached, all sums added up, the rounds that are left and the address that was reached; and the loop is left
/// where none are, with what it would have been left with.
pub open spec fn adds_the_lanes(
    q: ProgramV,
    c: CandidateV,
    w: spec_fn(Inst) -> int,
    sum_in: Inst,
    x: BasicBlock,
) -> bool {
    let a = q.args(q.terminator(x));
    let e = q.block(x).params;
    let sum = w(sum_in) + w(e[0]) + w(e[1]) + w(e[2]) + w(e[3]);
    let n = c.header_params.len() as int;
    &&& q.op(q.terminator(x)) == Op::Branch(c.header, c.exit, n as usize)
    &&& a.len() == 1 + n + c.exit_args.len()
    &&& comes_to(w(a[0]), w(c.bound) - w(e[4]))
    &&& forall|j: int|
        0 <= j < n ==> {
            let v = #[trigger] c.header_params[j];
            &&& v == c.k_param ==> a[1 + j] == e[4]
            &&& v == c.acc_param ==> comes_to(w(a[1 + j]), sum)
            &&& v == c.ctr_param ==> w(a[1 + j]) == w(a[0])
            &&& v == c.ptr_param ==> a[1 + j] == e[6]
        }
    &&& forall|j: int, k: int|
        0 <= j < n && 0 <= k < c.passthroughs.len() && #[trigger] c.header_params[j] == (#[trigger] c.passthroughs[k]).0 ==> a[1
            + j] == e[10 + k]
    &&& forall|j: int|
        0 <= j < c.exit_args.len() ==> {
            let v = #[trigger] c.exit_args[j];
            &&& v == c.k_back ==> a[1 + n + j] == e[4]
            &&& v == c.acc_back ==> comes_to(w(a[1 + n + j]), sum)
        }
    &&& forall|j: int, k: int|
        0 <= j < c.exit_args.len() && 0 <= k < c.passthroughs.len() && #[trigger] c.exit_args[j]
            == (#[trigger] c.passthroughs[k]).0 ==> a[1 + n + j] == e[10 + k]
}

proof fn lemma_sum(a: int, b: int, x: int, y: int, r: int)
    requires
        comes_to(a, x),
        comes_to(b, y),
        comes_to(r, a + b),
    ensures
        comes_to(r, x + y),
{
}

/// The lane loop and the blocks round it, as the jumps of the program give them.
#[verifier::spinoff_prover]
proof fn lemma_found(p: ProgramV, f: Function, order: Seq<BasicBlock>, l: LoopV, c: CandidateV, q: ProgramV)
    requires
        blocked(p, f, order, l, c) == Some(q),
        is_fed(p, c, p.args(p.terminator(preheader_of(p, order, l)->0))),
        q.insts.len() < usize::MAX,
    ensures
        ({
            let (pre, args, b, p1, p2, p3, p4) = stages(p, f, order, l, c);
            &&& goes_to(q, pre) == b.guard
            &&& goes_to(q, b.guard) == b.header
            &&& goes_to(q, b.header) == b.body
            &&& else_goes_to(q, b.body) == b.exit
            &&& q.block(b.guard) == p2.block(b.guard)
            &&& q.block(b.header) == p3.block(b.header)
            &&& q.block(b.body) == p3.block(b.body)
            &&& q.block(b.exit) == p4.block(b.exit)
            &&& q.block(b.header).params == p1.block(b.header).params
            &&& q.block(b.body).params == p1.block(b.body).params
            &&& q.block(b.exit).params == p1.block(b.exit).params
            &&& p3.block(b.exit) == p1.block(b.exit)
            &&& p2.block(b.header) == p1.block(b.header)
            &&& p2.block(b.body) == p1.block(b.body)
            &&& forall|k: int| p.insts.len() <= k < q.insts.len() ==> #[trigger] q.insts[k] == p4.insts[k]
            &&& forall|k: int| p.insts.len() <= k < p3.insts.len() ==> #[trigger] q.insts[k] == p3.insts[k]
            &&& forall|k: int| p.insts.len() <= k < p2.insts.len() ==> #[trigger] q.insts[k] == p2.insts[k]
        }),
{
    let (pre, args, b, p1, p2, p3, p4) = stages(p, f, order, l, c);
    lemma_stages(p, f, order, l, c, q);
    let s = laned(p2, f, c, l, b).0;
    let x = pre.0 as int;
    assert(p4.blocks[x] == p3.blocks[x] && p3.blocks[x] == p2.blocks[x] && p2.blocks[x] == p1.blocks[x] && p1.blocks[x]
        == p.blocks[x]);
    let g = b.guard.0 as int;
    assert(p4.blocks[g] == p3.blocks[g] && p3.blocks[g] == p2.blocks[g]);
    let h = b.header.0 as int;
    assert(p4.blocks[h] == p3.blocks[h] && p2.blocks[h] == p1.blocks[h]);
    let d = b.body.0 as int;
    assert(p4.blocks[d] == p3.blocks[d] && p2.blocks[d] == p1.blocks[d]);
    let e = b.exit.0 as int;
    assert(p3.blocks[e] == p2.blocks[e] && p2.blocks[e] == p1.blocks[e]);
    assert forall|k: int| p.insts.len() <= k < q.insts.len() implies #[trigger] q.insts[k] == p4.insts[k] by {}
    assert forall|k: int| p.insts.len() <= k < p3.insts.len() implies #[trigger] q.insts[k] == p3.insts[k] by {
        assert(p4.insts[k] == p3.insts[k]);
    }
    assert forall|k: int| p.insts.len() <= k < p2.insts.len() implies #[trigger] q.insts[k] == p2.insts[k] by {
        assert(p4.insts[k] == p3.insts[k]);
        assert(p3.insts[k] == s.insts[k]);
        assert(s.insts[k] == p2.insts[k]);
    }
    let n = p1.insts.len() as int;
    assert(q.insts[n + 11] == p2.insts[n + 11]);
    assert(q.terminator(b.guard) == Inst((n + 11) as usize));
    let j = p2.insts.len() as int;
    assert(q.insts[j] == p3.insts[j]);
    assert(q.terminator(b.header) == Inst(j as usize));
    let m = s.insts.len() as int;
    assert(q.insts[m + 7] == p3.insts[m + 7]);
    assert(q.terminator(b.body) == Inst((m + 7) as usize));
}

/// Behind the lane loop the sums of the lanes are added to the sum that the loop was entered with, and the loop does the
/// rounds that are left, from the index and the address that were reached; where none are left, the loop is left with
/// what it would have been left with.
#[verifier::rlimit(60)]
#[verifier::spinoff_prover]
pub proof fn the_lanes_are_added_up(
    p: ProgramV,
    f: Function,
    order: Seq<BasicBlock>,
    l: LoopV,
    c: CandidateV,
    meaning: Meaning,
    size: spec_fn(Type) -> int,
    w: spec_fn(Inst) -> int,
)
    requires
        blocked(p, f, order, l, c) is Some,
        is_fed(p, c, p.args(p.terminator(preheader_of(p, order, l)->0))),
        (blocked(p, f, order, l, c)->0).insts.len() < usize::MAX,
        parts_differ(c),
        means_words(meaning, size),
        is_word(w(c.bound)),
    ensures
        ({
            let q = blocked(p, f, order, l, c)->0;
            let pre = preheader_of(p, order, l)->0;
            let x = else_goes_to(q, goes_to(q, goes_to(q, goes_to(q, pre))));
            let e = q.block(x).params;
            let sum_in = p.args(p.terminator(pre))[position(c.header_params, c.acc_param, 0)];
            &&& e.len() == 10 + c.passthroughs.len()
            &&& is_word(w(sum_in)) && (forall|k: int| 0 <= k < 5 ==> is_word(w(#[trigger] e[k]))) && solves(
                q,
                meaning,
                w,
                q.block(x).insts.drop_last(),
            ) ==> adds_the_lanes(q, c, w, sum_in, x)
        }),
{
    let q = blocked(p, f, order, l, c)->0;
    let (pre, args, b, p1, p2, p3, p4) = stages(p, f, order, l, c);
    lemma_stages(p, f, order, l, c, q);
    lemma_found(p, f, order, l, c, q);
    let x = b.exit;
    let e = q.block(x).params;
    lemma_position(c.header_params, c.acc_param, 0);
    let sum_in = args[position(c.header_params, c.acc_param, 0)];
    let n = p3.insts.len() as int;
    assert(q.insts[n] == p4.insts[n]);
    assert(q.insts[n + 1] == p4.insts[n + 1]);
    assert(q.insts[n + 2] == p4.insts[n + 2]);
    assert(q.insts[n + 3] == p4.insts[n + 3]);
    assert(q.insts[n + 4] == p4.insts[n + 4]);
    assert(q.insts[n + 5] == p4.insts[n + 5]);
    let sum = Inst((n + 3) as usize);
    let left = Inst((n + 4) as usize);
    lemma_remainder(c, e, sum, left, 0, Seq::empty());
    lemma_final(c, e, sum, c.exit_args, 0, Seq::empty());
    if is_word(w(sum_in)) && (forall|k: int| 0 <= k < 5 ==> is_word(w(#[trigger] e[k]))) && solves(
        q,
        meaning,
        w,
        q.block(x).insts.drop_last(),
    ) {
        let s = q.block(x).insts.drop_last();
        assert(s =~= Seq::new(5, |k: int| Inst((n + k) as usize)));
        assert(w(s[0]) == outcome(q, meaning, w, s[0]));
        assert(w(s[1]) == outcome(q, meaning, w, s[1]));
        assert(w(s[2]) == outcome(q, meaning, w, s[2]));
        assert(w(s[3]) == outcome(q, meaning, w, s[3]));
        assert(w(s[4]) == outcome(q, meaning, w, s[4]));
        assert(is_word(w(e[0])) && is_word(w(e[1])) && is_word(w(e[2])) && is_word(w(e[3])) && is_word(w(e[4])));
        assert(Seq::new(2, |k: int| w(q.args(s[0])[k])) =~= seq![w(e[0]), w(e[1])]);
        assert(Seq::new(2, |k: int| w(q.args(s[1])[k])) =~= seq![w(e[2]), w(e[3])]);
        assert(Seq::new(2, |k: int| w(q.args(s[2])[k])) =~= seq![w(s[0]), w(s[1])]);
        assert(Seq::new(2, |k: int| w(q.args(s[3])[k])) =~= seq![w(sum_in), w(s[2])]);
        assert(Seq::new(2, |k: int| w(q.args(s[4])[k])) =~= seq![w(c.bound), w(e[4])]);
        assert(comes_to(w(s[0]), w(e[0]) + w(e[1])));
        assert(comes_to(w(s[1]), w(e[2]) + w(e[3])));
        lemma_sum(w(s[0]), w(s[1]), w(e[0]) + w(e[1]), w(e[2]) + w(e[3]), w(s[2]));
        lemma_sum(w(sum_in), w(s[2]), w(sum_in), w(e[0]) + w(e[1]) + (w(e[2]) + w(e[3])), w(s[3]));
        assert(comes_to(w(sum), w(sum_in) + w(e[0]) + w(e[1]) + w(e[2]) + w(e[3])));
        let a = q.args(q.terminator(x));
        assert(q.terminator(x) == Inst((n + 5) as usize));
        let again = remainder_args(c, e, sum, left, 0, Seq::empty());
        let done = final_args(c, e, sum, c.exit_args, 0, Seq::empty());
        assert(a == seq![left] + again + done);
        let m = c.header_params.len() as int;
        assert forall|j: int| 0 <= j < m implies a[1 + j] == again_for(c, e, sum, left, #[trigger] c.header_params[j]) by {}
        assert forall|j: int| 0 <= j < c.exit_args.len() implies a[1 + m + j] == done_for(
            c,
            e,
            sum,
            #[trigger] c.exit_args[j],
        ) by {}
        assert forall|j: int, k: int|
            0 <= j < m && 0 <= k < c.passthroughs.len() && #[trigger] c.header_params[j] == (
            #[trigger] c.passthroughs[k]).0 implies a[1 + j] == e[10 + k] by {
            lemma_carried(c, k, 0);
        }
        assert forall|j: int, k: int|
            0 <= j < c.exit_args.len() && 0 <= k < c.passthroughs.len() && #[trigger] c.exit_args[j] == (
            #[trigger] c.passthroughs[k]).0 implies a[1 + m + j] == e[10 + k] by {
            lemma_carried(c, k, 0);
        }
    }
}

/// The first of the blocks `s[from..]` of `p` in which `a` stands.
pub open spec fn first_with(p: ProgramV, s: Seq<BasicBlock>, a: Inst, from: int) -> Option<BasicBlock>
    decreases s.len() - from,
{
    if from >= s.len() {
        None
    } else if p.block(s[from]).insts.contains(a) {
        Some(s[from])
    } else {
        first_with(p, s, a, from + 1)
    }
}

pub(crate) proof fn lemma_first_with(p: ProgramV, f: Function, a: Inst, from: int)
    requires
        0 <= from,
    ensures
        p.parent_from(f, a, from) == first_with(p, p.func(f).blocks, a, from),
    decreases p.func(f).blocks.len() - from,
{
    if from < p.func(f).blocks.len() {
        lemma_first_with(p, f, a, from + 1);
    }
}

/// `a` stands in `q` where it stands in `p`.
pub open spec fn stands_alike(p: ProgramV, q: ProgramV, a: Inst) -> bool {
    forall|x: BasicBlock| (#[trigger] q.block(x)).insts.contains(a) == p.block(x).insts.contains(a)
}

pub(crate) proof fn lemma_first_alike(p: ProgramV, q: ProgramV, s: Seq<BasicBlock>, a: Inst, from: int)
    requires
        0 <= from,
        stands_alike(p, q, a),
    ensures
        first_with(q, s, a, from) == first_with(p, s, a, from),
    decreases s.len() - from,
{
    if from < s.len() {
        assert(q.block(s[from]).insts.contains(a) == p.block(s[from]).insts.contains(a));
        lemma_first_alike(p, q, s, a, from + 1);
    }
}

proof fn lemma_first_inserted(p: ProgramV, s: Seq<BasicBlock>, k: int, x: BasicBlock, a: Inst, from: int)
    requires
        0 <= from,
        0 <= k <= s.len(),
        !p.block(x).insts.contains(a),
    ensures
        from > k ==> first_with(p, s.insert(k, x), a, from) == first_with(p, s, a, from - 1),
        from <= k ==> first_with(p, s.insert(k, x), a, from) == first_with(p, s, a, from),
    decreases s.len() + 1 - from,
{
    let t = s.insert(k, x);
    assert(t.len() == s.len() + 1);
    if from < t.len() {
        lemma_first_inserted(p, s, k, x, a, from + 1);
        if from > k {
            assert(t[from] == s[from - 1]);
        } else if from == k {
            assert(t[from] == x);
        } else {
            assert(t[from] == s[from]);
        }
    }
}

pub(crate) proof fn lemma_first_after(p: ProgramV, s: Seq<BasicBlock>, anchor: BasicBlock, x: BasicBlock, a: Inst)
    requires
        !p.block(x).insts.contains(a),
    ensures
        first_with(p, after(s, anchor, x), a, 0) == first_with(p, s, a, 0),
{
    let k = position(s, anchor, 0);
    if 0 <= k < s.len() {
        lemma_first_inserted(p, s, k + 1, x, a, 0);
    } else {
        assert(s.push(x) =~= s.insert(s.len() as int, x));
        lemma_first_inserted(p, s, s.len() as int, x, a, 0);
    }
}

proof fn lemma_listed_after(p: ProgramV, f: Function, anchor: BasicBlock, name: Seq<char>, tys: Seq<Type>)
    requires
        p.blocks.len() < usize::MAX,
        block_after(p, f, anchor, name, tys).insts.len() <= usize::MAX,
    ensures
        block_after(p, f, anchor, name, tys).func(f).blocks == after(p.func(f).blocks, anchor, p.next_block())
            || block_after(p, f, anchor, name, tys).func(f).blocks == p.func(f).blocks,
{
    reveal(ProgramV::set_func_blocks);
    lemma_new_block(p, name, tys);
}

/// The new blocks do not change in which block an instruction stands.
proof fn lemma_still_first(p: ProgramV, f: Function, pre: BasicBlock, tys: Seq<Type>, a: Inst)
    requires
        p.blocks.len() + 4 <= usize::MAX,
        lane_blocks(p, f, pre, tys).0.insts.len() <= usize::MAX,
    ensures
        first_with(p, lane_blocks(p, f, pre, tys).0.func(f).blocks, a, 0) == p.parent_bb(f, a),
{
    let (q, b) = lane_blocks(p, f, pre, tys);
    let p1 = block_after(p, f, pre, "blocked_guard"@, Seq::empty());
    let p2 = block_after(p1, f, b.guard, "blocked_main_header"@, tys);
    let p3 = block_after(p2, f, b.header, "blocked_main_body"@, tys);
    lemma_blocks_longer(p, f, pre, "blocked_guard"@, Seq::empty());
    lemma_blocks_longer(p1, f, b.guard, "blocked_main_header"@, tys);
    lemma_blocks_longer(p2, f, b.header, "blocked_main_body"@, tys);
    lemma_blocks_longer(p3, f, b.body, "blocked_main_exit"@, tys);
    lemma_listed_after(p, f, pre, "blocked_guard"@, Seq::empty());
    lemma_listed_after(p1, f, b.guard, "blocked_main_header"@, tys);
    lemma_listed_after(p2, f, b.header, "blocked_main_body"@, tys);
    lemma_listed_after(p3, f, b.body, "blocked_main_exit"@, tys);
    lemma_first_after(p, p.func(f).blocks, pre, b.guard, a);
    lemma_first_after(p, p1.func(f).blocks, b.guard, b.header, a);
    lemma_first_after(p, p2.func(f).blocks, b.header, b.body, a);
    lemma_first_after(p, p3.func(f).blocks, b.body, b.exit, a);
    lemma_first_with(p, f, a, 0);
}

/// Instruction `a` stands in a block of the loop.
pub open spec fn in_loop(p: ProgramV, f: Function, l: LoopV, a: Inst) -> bool {
    !p.inst(a).global && p.parent_bb(f, a) is Some && l.body.contains(p.parent_bb(f, a)->0)
}

proof fn lemma_sent_if(l: LoopV, b: LaneBlocks, x: BasicBlock, from: int)
    requires
        0 <= from,
    ensures
        sent(lane_pairs(l, b), x, from) is Some <==> exists|k: int| from <= k < l.body.len() && l.body[k] == x,
    decreases l.body.len() - from,
{
    if from < l.body.len() {
        lemma_sent_if(l, b, x, from + 1);
        if l.body[from] == x {
            assert(sent(lane_pairs(l, b), x, from) is Some);
        } else if sent(lane_pairs(l, b), x, from + 1) is Some {
            let k = choose|k: int| from + 1 <= k < l.body.len() && l.body[k] == x;
            assert(from <= k < l.body.len() && l.body[k] == x);
        } else if exists|k: int| from <= k < l.body.len() && l.body[k] == x {
            let k = choose|k: int| from <= k < l.body.len() && l.body[k] == x;
            assert(from + 1 <= k < l.body.len() && l.body[k] == x);
        }
    }
}

proof fn lemma_copied_if(p: ProgramV, f: Function, l: LoopV, b: LaneBlocks, a: Inst)
    ensures
        copies_it(p, f, lane_pairs(l, b), a) == in_loop(p, f, l, a),
{
    if p.parent_bb(f, a) is Some {
        let x = p.parent_bb(f, a)->0;
        lemma_sent_if(l, b, x, 0);
        if l.body.contains(x) {
            let k = l.body.index_of(x);
            assert(0 <= k < l.body.len() && l.body[k] == x);
        }
    }
}

/// The instructions of the loop, and what they use, exist; its sum is computed in its body, before the end of it.
pub open spec fn is_tidy(p: ProgramV, f: Function, l: LoopV, c: CandidateV) -> bool {
    &&& forall|k: int| 0 <= k < l.body.len() ==> (#[trigger] l.body[k]).0 < p.blocks.len()
    &&& forall|x: int, k: int|
        0 <= x < p.blocks.len() && 0 <= k < p.blocks[x].insts.len() ==> (#[trigger] p.blocks[x].insts[k]).0 < p.insts.len()
    &&& forall|a: Inst, k: int|
        in_loop(p, f, l, a) && 0 <= k < p.args(a).len() ==> (#[trigger] p.args(a)[k]).0 < p.insts.len()
    &&& c.body.0 < p.blocks.len()
    &&& p.block(c.body).insts.contains(c.acc_back)
    &&& p.block(c.body).insts.last() != c.acc_back
    &&& in_loop(p, f, l, c.acc_back)
    &&& !is_given(c, c.acc_back)
    &&& forall|a: Inst| #[trigger] is_given(c, a) ==> !p.inst(a).global
}

/// Value `a` is one that a lane is given: index, sum, address, or a value that the loop carries through.
pub open spec fn is_given(c: CandidateV, a: Inst) -> bool {
    ||| a == c.k_param
    ||| a == c.acc_param
    ||| a == c.ptr_param
    ||| exists|k: int| 0 <= k < c.passthroughs.len() && (#[trigger] c.passthroughs[k]).0 == a
}

/// Lanes can be built in `q`: the loop stands in it as it stands in `p`.
spec fn is_ready(p: ProgramV, q: ProgramV, f: Function, b: LaneBlocks) -> bool {
    &&& insts_grow(p, q)
    &&& p.blocks.len() <= b.body.0 < q.blocks.len()
    &&& forall|x: int| 0 <= x < p.blocks.len() ==> #[trigger] q.blocks[x] == p.blocks[x]
    &&& forall|a: Inst| a.0 < p.insts.len() ==> #[trigger] q.parent_bb(f, a) == p.parent_bb(f, a)
    &&& stays_out(p, q, b.body)
}

/// Nothing that is in `p` stands in block `d` of `q`.
spec fn stays_out(p: ProgramV, q: ProgramV, d: BasicBlock) -> bool {
    forall|k: int| 0 <= k < q.block(d).insts.len() ==> (#[trigger] q.block(d).insts[k]).0 >= p.insts.len()
}

proof fn lemma_ready_step(p: ProgramV, q: ProgramV, r: ProgramV, f: Function, b: LaneBlocks)
    requires
        is_ready(p, q, f, b),
        extends(q, r, b.body),
        stays_out(p, r, b.body),
    ensures
        is_ready(p, r, f, b),
{
    assert forall|x: int| 0 <= x < p.blocks.len() implies #[trigger] r.blocks[x] == p.blocks[x] by {
        assert(r.blocks[x] == q.blocks[x]);
    }
    assert forall|x: int| 0 <= x < p.insts.len() implies #[trigger] r.insts[x] == p.insts[x] by {
        assert(r.insts[x] == q.insts[x]);
    }
    assert forall|a: Inst| a.0 < p.insts.len() implies #[trigger] r.parent_bb(f, a) == p.parent_bb(f, a) by {
        assert(stands_alike(q, r, a)) by {
            assert forall|x: BasicBlock| (#[trigger] r.block(x)).insts.contains(a) == q.block(x).insts.contains(a) by {
                if x == b.body {
                } else if x.0 < q.blocks.len() {
                    assert(r.blocks[x.0 as int] == q.blocks[x.0 as int]);
                }
            }
        }
        lemma_first_with(q, f, a, 0);
        lemma_first_with(r, f, a, 0);
        lemma_first_alike(q, r, q.func(f).blocks, a, 0);
        assert(q.parent_bb(f, a) == p.parent_bb(f, a));
    }
}

pub(crate) proof fn lemma_held(p: ProgramV, f: Function, a: Inst, from: int)
    requires
        0 <= from,
    ensures
        p.parent_from(f, a, from) matches Some(x) ==> p.block(x).insts.contains(a),
    decreases p.func(f).blocks.len() - from,
{
    if from < p.func(f).blocks.len() {
        lemma_held(p, f, a, from + 1);
    }
}

/// The loop can be copied where it stands as it stood.
proof fn lemma_closed_body(p: ProgramV, q: ProgramV, f: Function, l: LoopV, c: CandidateV, b: LaneBlocks, fuel: nat)
    requires
        is_ready(p, q, f, b),
        is_tidy(p, f, l, c),
        p.insts.len() <= fuel <= q.insts.len(),
        q.insts.len() <= usize::MAX,
    ensures
        closed_body(q, f, lane_pairs(l, b), fuel),
        forall|a: Inst| #[trigger] copies_it(q, f, lane_pairs(l, b), a) ==> in_loop(p, f, l, a),
        forall|a: Inst| #[trigger] in_loop(p, f, l, a) ==> copies_it(q, f, lane_pairs(l, b), a) && a.0 < p.insts.len(),
{
    let pairs = lane_pairs(l, b);
    assert forall|a: Inst| #[trigger] copies_it(q, f, pairs, a) implies in_loop(p, f, l, a) && a.0 < p.insts.len() by {
        lemma_copied_if(q, f, l, b, a);
        let x = q.parent_bb(f, a)->0;
        lemma_held(q, f, a, 0);
        let k = l.body.index_of(x);
        assert(l.body[k] == x);
        assert(q.blocks[x.0 as int] == p.blocks[x.0 as int]);
        let j = p.blocks[x.0 as int].insts.index_of(a);
        assert(p.blocks[x.0 as int].insts[j] == a);
        assert(a.0 < p.insts.len());
        assert(q.parent_bb(f, a) == p.parent_bb(f, a));
        assert(q.insts[a.0 as int] == p.insts[a.0 as int]);
    }
    assert forall|a: Inst| #[trigger] in_loop(p, f, l, a) implies copies_it(q, f, pairs, a) && a.0 < p.insts.len() by {
        let x = p.parent_bb(f, a)->0;
        lemma_held(p, f, a, 0);
        let k = l.body.index_of(x);
        assert(l.body[k] == x);
        let j = p.blocks[x.0 as int].insts.index_of(a);
        assert(p.blocks[x.0 as int].insts[j] == a);
        assert(a.0 < p.insts.len());
        assert(q.parent_bb(f, a) == p.parent_bb(f, a));
        assert(q.insts[a.0 as int] == p.insts[a.0 as int]);
        lemma_copied_if(q, f, l, b, a);
    }
    assert forall|a: Inst, k: int| copies_it(q, f, pairs, a) && 0 <= k < q.args(a).len() implies (#[trigger] q.args(
        a,
    )[k]).0 < q.insts.len() by {
        assert(in_loop(p, f, l, a));
        assert(q.insts[a.0 as int] == p.insts[a.0 as int]);
        assert(p.args(a)[k].0 < p.insts.len());
    }
}

proof fn lemma_passed_on(c: CandidateV, through: Seq<Inst>, from: int, m: Map<usize, Inst>)
    requires
        parts_differ(c),
        0 <= from <= c.passthroughs.len(),
    ensures
        ({
            let more = passed_on(c.passthroughs, through, from, m);
            &&& forall|x: usize| #[trigger] m.contains_key(x) ==> more.contains_key(x)
            &&& forall|x: usize|
                #[trigger] more.contains_key(x) && !m.contains_key(x) ==> exists|k: int|
                    from <= k < c.passthroughs.len() && (#[trigger] c.passthroughs[k]).0 == Inst(x)
            &&& forall|x: usize|
                #[trigger] m.contains_key(x) && (forall|k: int|
                    from <= k < c.passthroughs.len() ==> (#[trigger] c.passthroughs[k]).0.0 != x) ==> more[x] == m[x]
            &&& forall|k: int|
                from <= k < c.passthroughs.len() ==> more.contains_key((#[trigger] c.passthroughs[k]).0.0)
                    && more[c.passthroughs[k].0.0] == nth(through, k)
        }),
    decreases c.passthroughs.len() - from,
{
    if from < c.passthroughs.len() {
        let v = c.passthroughs[from].0;
        let m1 = m.insert(v.0, nth(through, from));
        let more = passed_on(c.passthroughs, through, from, m);
        lemma_passed_on(c, through, from + 1, m1);
        let rest = passed_on(c.passthroughs, through, from + 1, m1);
        assert(rest == more);
        assert forall|x: usize| #[trigger] m.contains_key(x) implies more.contains_key(x) by {
            assert(m1.contains_key(x));
        }
        assert forall|x: usize|
            #[trigger] m.contains_key(x) && (forall|k: int|
                from <= k < c.passthroughs.len() ==> (#[trigger] c.passthroughs[k]).0.0 != x) implies more[x] == m[x] by {
            assert(m1.contains_key(x));
            assert(c.passthroughs[from].0.0 != x);
        }
        assert forall|x: usize| #[trigger] more.contains_key(x) && !m.contains_key(x) implies exists|k: int|
            from <= k < c.passthroughs.len() && (#[trigger] c.passthroughs[k]).0 == Inst(x) by {
            if m1.contains_key(x) {
                assert(x == v.0);
                assert(c.passthroughs[from].0 == Inst(x));
            } else {
                assert(rest.contains_key(x) && !m1.contains_key(x));
                let k = choose|k: int|
                    from + 1 <= k < c.passthroughs.len() && (#[trigger] c.passthroughs[k]).0 == Inst(x);
                assert(from <= k < c.passthroughs.len() && c.passthroughs[k].0 == Inst(x));
            }
        }
        assert forall|k: int| from <= k < c.passthroughs.len() implies more.contains_key(
            (#[trigger] c.passthroughs[k]).0.0,
        ) && more[c.passthroughs[k].0.0] == nth(through, k) by {
            if k == from {
                assert(m1.contains_key(v.0));
                assert forall|j: int| from + 1 <= j < c.passthroughs.len() implies (#[trigger] c.passthroughs[j]).0.0
                    != v.0 by {
                    assert(c.passthroughs[j].0 != c.passthroughs[from].0);
                }
            }
        }
    }
}

/// What stands for what, once a lane is built.
spec fn lane_more(
    p: ProgramV,
    f: Function,
    c: CandidateV,
    l: LoopV,
    b: LaneBlocks,
    main: Seq<Inst>,
    params: Seq<Inst>,
    lane: int,
    fuel: nat,
) -> Map<usize, Inst> {
    let q = lane_started(p, b, lane, nth(main, 4));
    let kml = literal_made(p, lane as i32).next_inst();
    let m = lane_map(c, tail_of(main, 10, c.passthroughs.len()), kml, nth(params, lane), nth(params, 6 + lane));
    body_cloned(q, f, lane_pairs(l, b), c, m, q.block(c.body).insts, 0, fuel).1
}

/// Each instruction of the loop that a lane copies has a faithful copy in the body of the lane loop.
spec fn is_laned(
    p: ProgramV,
    f: Function,
    c: CandidateV,
    l: LoopV,
    r: ProgramV,
    d: BasicBlock,
    more: Map<usize, Inst>,
    x: usize,
) -> bool {
    &&& in_loop(p, f, l, Inst(x))
    &&& x < p.insts.len()
    &&& p.insts.len() <= more[x].0 < r.insts.len()
    &&& r.block(d).insts.contains(more[x])
    &&& r.ty(more[x]) == p.ty(Inst(x))
    &&& !(p.op(Inst(x)) is Jump) && !(p.op(Inst(x)) is Branch) ==> r.op(more[x]) == p.op(Inst(x))
    &&& r.args(more[x]).len() == p.args(Inst(x)).len()
    &&& forall|k: int| 0 <= k < p.args(Inst(x)).len() ==> #[trigger] r.args(more[x])[k] == stand(p, more, p.args(Inst(x))[k])
    &&& forall|k: int|
        0 <= k < p.args(Inst(x)).len() && in_loop(p, f, l, #[trigger] p.args(Inst(x))[k]) ==> more.contains_key(
            p.args(Inst(x))[k].0,
        )
}

#[verifier::rlimit(60)]
#[verifier::spinoff_prover]
proof fn lemma_lane_round(
    p: ProgramV,
    q: ProgramV,
    f: Function,
    c: CandidateV,
    l: LoopV,
    b: LaneBlocks,
    main: Seq<Inst>,
    params: Seq<Inst>,
    lane: int,
    fuel: nat,
)
    requires
        is_ready(p, q, f, b),
        is_tidy(p, f, l, c),
        parts_differ(c),
        p.insts.len() <= fuel <= q.insts.len(),
        lane_of(q, f, c, l, b, main, params, lane, fuel).0.insts.len() < usize::MAX,
    ensures
        ({
            let (r, next) = lane_of(q, f, c, l, b, main, params, lane, fuel);
            let more = lane_more(q, f, c, l, b, main, params, lane, fuel);
            &&& is_ready(p, r, f, b)
            &&& forall|x: usize|
                #[trigger] more.contains_key(x) && !is_given(c, Inst(x)) ==> is_laned(p, f, c, l, r, b.body, more, x)
            &&& forall|a: Inst| #[trigger] is_given(c, a) ==> more.contains_key(a.0)
            &&& more[c.k_param.0] == Inst((q.insts.len() + 1) as usize)
            &&& more[c.acc_param.0] == nth(params, lane)
            &&& more[c.ptr_param.0] == nth(params, 6 + lane)
            &&& forall|k: int|
                0 <= k < c.passthroughs.len() ==> more[(#[trigger] c.passthroughs[k]).0.0] == nth(main, 10 + k)
            &&& more.contains_key(c.acc_back.0)
            &&& next == more[c.acc_back.0]
        }),
{
    let (r, next) = lane_of(q, f, c, l, b, main, params, lane, fuel);
    let more = lane_more(q, f, c, l, b, main, params, lane, fuel);
    let s = lane_started(q, b, lane, nth(main, 4));
    let pairs = lane_pairs(l, b);
    let through = tail_of(main, 10, c.passthroughs.len());
    let kml = literal_made(q, lane as i32).next_inst();
    let m = lane_map(c, through, kml, nth(params, lane), nth(params, 6 + lane));
    let insts = s.block(c.body).insts;
    lemma_lane_longer(q, f, c, l, b, main, params, lane, fuel);
    lemma_lane_started(q, b, lane, nth(main, 4));
    assert(stays_out(p, s, b.body)) by {
        assert forall|k: int| 0 <= k < s.block(b.body).insts.len() implies (#[trigger] s.block(b.body).insts[k]).0
            >= p.insts.len() by {
            if k < q.block(b.body).insts.len() {
                assert(s.block(b.body).insts[k] == q.block(b.body).insts[k]);
            }
        }
    }
    lemma_ready_step(p, q, s, f, b);
    lemma_closed_body(p, s, f, l, c, b, fuel);
    assert(s.blocks[c.body.0 as int] == p.blocks[c.body.0 as int]);
    assert(insts == p.block(c.body).insts);
    assert forall|k: int| 0 <= k < insts.len() implies (#[trigger] insts[k]).0 < s.insts.len() by {
        assert(p.blocks[c.body.0 as int].insts[k].0 < p.insts.len());
    }
    assert(in_progress(s, f, pairs, m, s, m, Set::empty()));
    lemma_body_cloned(s, f, pairs, c, m, s, m, insts, 0, fuel, fuel);
    lemma_body_extends(s, f, pairs, c, m, insts, 0, fuel, b.body);
    assert(in_progress(s, f, pairs, m, r, more, Set::empty()));
    assert(stays_out(p, r, b.body)) by {
        assert forall|k: int| 0 <= k < r.block(b.body).insts.len() implies (#[trigger] r.block(b.body).insts[k]).0
            >= p.insts.len() by {
            let a = r.block(b.body).insts[k];
            if a.0 < p.insts.len() {
                assert(r.blocks[b.body.0 as int].insts.contains(a));
                assert(s.blocks[b.body.0 as int].insts.contains(a));
                let j = s.block(b.body).insts.index_of(a);
                assert(s.block(b.body).insts[j] == a);
            }
        }
    }
    lemma_ready_step(p, s, r, f, b);
    lemma_passed_on(c, through, 0, Map::empty());
    let carried = passed_on(c.passthroughs, through, 0, Map::empty());
    assert forall|x: usize| #[trigger] m.contains_key(x) implies is_given(c, Inst(x)) by {
        if x != c.k_param.0 && x != c.acc_param.0 && x != c.ptr_param.0 {
            assert(carried.contains_key(x));
        }
    }
    assert forall|a: Inst| #[trigger] is_given(c, a) implies m.contains_key(a.0) by {
        if a != c.k_param && a != c.acc_param && a != c.ptr_param {
            let k = choose|k: int| 0 <= k < c.passthroughs.len() && (#[trigger] c.passthroughs[k]).0 == a;
            assert(carried.contains_key(c.passthroughs[k].0.0));
        }
    }
    assert(m.contains_key(c.k_param.0) && m.contains_key(c.acc_param.0) && m.contains_key(c.ptr_param.0));
    assert forall|k: int| 0 <= k < c.passthroughs.len() implies more[(#[trigger] c.passthroughs[k]).0.0] == nth(main, 10
        + k) by {
        assert(carried[c.passthroughs[k].0.0] == nth(through, k));
        assert(m.contains_key(c.passthroughs[k].0.0));
    }
    let at = insts.index_of(c.acc_back);
    assert(insts[at] == c.acc_back);
    assert(copies_it(s, f, pairs, c.acc_back));
    assert(at < insts.len() - 1);
    assert(more.contains_key(c.acc_back.0));
    assert forall|x: usize| #[trigger] more.contains_key(x) && !is_given(c, Inst(x)) implies is_laned(
        p,
        f,
        c,
        l,
        r,
        b.body,
        more,
        x,
    ) by {
        assert(!m.contains_key(x));
        assert(is_faithful(s, f, pairs, r, more, x));
        assert(copies_it(s, f, pairs, Inst(x)));
        assert(in_loop(p, f, l, Inst(x)));
        assert(s.insts[x as int] == p.insts[x as int]);
        assert forall|k: int| 0 <= k < p.args(Inst(x)).len() implies #[trigger] r.args(more[x])[k] == stand(
            p,
            more,
            p.args(Inst(x))[k],
        ) by {
            let a = p.args(Inst(x))[k];
            assert(a.0 < p.insts.len());
            assert(s.args(Inst(x))[k] == a);
            assert(s.insts[a.0 as int] == p.insts[a.0 as int]);
        }
        assert forall|k: int|
            0 <= k < p.args(Inst(x)).len() && in_loop(p, f, l, #[trigger] p.args(Inst(x))[k]) implies more.contains_key(
            p.args(Inst(x))[k].0,
        ) by {
            assert(copies_it(s, f, pairs, s.args(Inst(x))[k]));
        }
    }
}

/// Lanes can be built once the guard is.
#[verifier::spinoff_prover]
proof fn lemma_headed_ready(p: ProgramV, f: Function, order: Seq<BasicBlock>, l: LoopV, c: CandidateV, q: ProgramV)
    requires
        blocked(p, f, order, l, c) == Some(q),
        is_fed(p, c, p.args(p.terminator(preheader_of(p, order, l)->0))),
        q.insts.len() < usize::MAX,
        is_tidy(p, f, l, c),
    ensures
        ({
            let (pre, args, b, p1, p2, p3, p4) = stages(p, f, order, l, c);
            is_ready(p, headed(p2, b), f, b)
        }),
{
    let (pre, args, b, p1, p2, p3, p4) = stages(p, f, order, l, c);
    let h = headed(p2, b);
    lemma_stages(p, f, order, l, c, q);
    let four = Inst((p1.insts.len() + 1) as usize);
    lemma_main(p2, f, c, l, b, four);
    lemma_main_longer(p2, f, c, l, b, four);
    let g = b.guard.0 as int;
    let e = b.header.0 as int;
    let d = b.body.0 as int;
    let x = b.exit.0 as int;
    assert(p2.blocks[e] == p1.blocks[e] && p2.blocks[d] == p1.blocks[d] && p2.blocks[x] == p1.blocks[x]);
    assert(h.blocks[g] == p2.blocks[g] && h.blocks[d] == p2.blocks[d] && h.blocks[x] == p2.blocks[x]);
    assert(p3.blocks[e] == h.blocks[e]);
    assert(h.block(b.header).insts == p2.block(b.header).insts.push(Inst(p2.insts.len() as usize)));
    assert forall|y: int| 0 <= y < p.blocks.len() implies #[trigger] h.blocks[y] == p.blocks[y] by {
        assert(h.blocks[y] == p2.blocks[y] && p2.blocks[y] == p1.blocks[y] && p1.blocks[y] == p.blocks[y]);
    }
    assert forall|y: int| 0 <= y < p.insts.len() implies #[trigger] h.insts[y] == p.insts[y] by {
        assert(h.insts[y] == p2.insts[y] && p2.insts[y] == p1.insts[y] && p1.insts[y] == p.insts[y]);
    }
    assert forall|a: Inst| a.0 < p.insts.len() implies #[trigger] h.parent_bb(f, a) == p.parent_bb(f, a) by {
        assert(stands_alike(p, h, a)) by {
            assert forall|y: BasicBlock| (#[trigger] h.block(y)).insts.contains(a) == p.block(y).insts.contains(a) by {
                if y.0 < p.blocks.len() {
                    assert(h.blocks[y.0 as int] == p.blocks[y.0 as int]);
                } else if y == b.guard {
                    assert(h.block(y).insts =~= seq![
                        Inst((p1.insts.len() + 6) as usize),
                        Inst((p1.insts.len() + 8) as usize),
                        Inst((p1.insts.len() + 10) as usize),
                        Inst((p1.insts.len() + 3) as usize),
                        Inst((p1.insts.len() + 4) as usize),
                        Inst((p1.insts.len() + 11) as usize),
                    ]);
                } else if y == b.header {
                    assert(h.block(y).insts =~= seq![Inst(p2.insts.len() as usize)]);
                } else if y.0 < p.blocks.len() + 4 {
                    assert(h.block(y).insts.len() == 0);
                }
            }
        }
        lemma_first_with(h, f, a, 0);
        lemma_first_alike(p, h, h.func(f).blocks, a, 0);
        lemma_still_first(p, f, pre, lane_types(p, c), a);
        assert(h.func(f) == p1.func(f));
    }
}

proof fn lemma_lanes_ready(
    p: ProgramV,
    q: ProgramV,
    f: Function,
    c: CandidateV,
    l: LoopV,
    b: LaneBlocks,
    main: Seq<Inst>,
    params: Seq<Inst>,
    from: int,
    t: int,
    out: Seq<Inst>,
    fuel: nat,
)
    requires
        is_ready(p, q, f, b),
        is_tidy(p, f, l, c),
        parts_differ(c),
        p.insts.len() <= fuel <= q.insts.len(),
        lanes_built(q, f, c, l, b, main, params, from, out, fuel).0.insts.len() < usize::MAX,
        0 <= from <= t < 4,
    ensures
        ({
            let s = lane_at(q, f, c, l, b, main, params, from, t, fuel);
            &&& is_ready(p, s, f, b)
            &&& fuel <= s.insts.len()
            &&& lane_of(s, f, c, l, b, main, params, t, fuel).0.insts.len() < usize::MAX
        }),
    decreases t - from,
{
    let (r, next) = lane_of(q, f, c, l, b, main, params, from, fuel);
    lemma_lanes_longer(r, f, c, l, b, main, params, from + 1, out.push(next), fuel);
    if from < t {
        lemma_lane_longer(q, f, c, l, b, main, params, from, fuel);
        lemma_lane_round(p, q, f, c, l, b, main, params, from, fuel);
        lemma_lanes_ready(p, r, f, c, l, b, main, params, from + 1, t, out.push(next), fuel);
    }
}

/// The values `u` are those of a round of the loop, as far as its next sum takes: `s` are instructions of the loop, the
/// next sum and all that they use of the loop among them, but for what the round is given; each of them is computed in
/// `u`, and what is neither computed nor given is as in `w`.
pub open spec fn is_round(
    p: ProgramV,
    f: Function,
    l: LoopV,
    c: CandidateV,
    meaning: Meaning,
    w: spec_fn(Inst) -> int,
    u: spec_fn(Inst) -> int,
    s: Set<Inst>,
) -> bool {
    &&& s.contains(c.acc_back)
    &&& forall|x: Inst|
        #[trigger] s.contains(x) ==> !is_given(c, x) && in_loop(p, f, l, x) && (!(p.op(x) is Jump) && !(p.op(x) is Branch)
            ==> u(x) == outcome(p, meaning, u, x))
    &&& forall|x: Inst, k: int|
        s.contains(x) && 0 <= k < p.args(x).len() && in_loop(p, f, l, #[trigger] p.args(x)[k]) && !is_given(c, p.args(x)[k])
            ==> s.contains(p.args(x)[k])
    &&& forall|a: Inst| !(#[trigger] s.contains(a)) && !is_given(c, a) ==> u(a) == w(a)
}

/// What the round `u` is given: index `k`, sum, address, and the values that are carried through.
pub open spec fn is_given_to(
    c: CandidateV,
    w: spec_fn(Inst) -> int,
    u: spec_fn(Inst) -> int,
    k: int,
    sum: Inst,
    ptr: Inst,
    through: Seq<Inst>,
) -> bool {
    &&& comes_to(u(c.k_param), k)
    &&& u(c.acc_param) == w(sum)
    &&& u(c.ptr_param) == w(ptr)
    &&& forall|k: int| 0 <= k < c.passthroughs.len() ==> u((#[trigger] c.passthroughs[k]).0) == w(through[k])
}

/// Value `next` is the sum after a round of the loop that is given index `k`, sum `sum`, address `ptr` and the values
/// `through`.
pub open spec fn is_sum_of_round(
    p: ProgramV,
    f: Function,
    l: LoopV,
    c: CandidateV,
    meaning: Meaning,
    w: spec_fn(Inst) -> int,
    k: int,
    sum: Inst,
    ptr: Inst,
    through: Seq<Inst>,
    next: Inst,
) -> bool {
    exists|u: spec_fn(Inst) -> int, s: Set<Inst>| #[trigger]
        is_round(p, f, l, c, meaning, w, u, s) && is_given_to(c, w, u, k, sum, ptr, through) && w(next) == u(c.acc_back)
}

/// The values of a round of the loop that a lane does.
spec fn lane_values(p: ProgramV, more: Map<usize, Inst>, w: spec_fn(Inst) -> int) -> spec_fn(Inst) -> int {
    |a: Inst| w(stand(p, more, a))
}

/// What a pass through the body of the lane loop does: each lane does a round of the loop, with its own sum and address
/// and the index that is its own; then four rounds are counted off, the index goes on by four and the addresses by what
/// four rounds take. The lane loop is entered again as long as rounds are left, and both ways take the same.
pub open spec fn does_four_rounds(
    p: ProgramV,
    q: ProgramV,
    f: Function,
    l: LoopV,
    c: CandidateV,
    meaning: Meaning,
    size: spec_fn(Type) -> int,
    w: spec_fn(Inst) -> int,
    h: BasicBlock,
    d: BasicBlock,
) -> bool {
    let a = q.args(q.terminator(d));
    let (hp, dp) = (q.block(h).params, q.block(d).params);
    let n = 10 + c.passthroughs.len() as int;
    &&& q.op(q.terminator(d)) == Op::Branch(h, else_goes_to(q, d), n as usize)
    &&& a.len() == 1 + 2 * n
    &&& forall|k: int| 0 <= k < n ==> #[trigger] a[1 + k] == a[1 + n + k]
    &&& comes_to(w(a[0]), w(hp[5]) - 4)
    &&& comes_to(w(a[5]), w(hp[4]) + 4)
    &&& a[6] == a[0]
    &&& forall|lane: int|
        0 <= lane < 4 ==> w(#[trigger] a[7 + lane]) == w(dp[6 + lane]) + size(q.gep_ty(dp[6 + lane], 1)) * (4 * c.stride)
    &&& forall|k: int| 0 <= k < c.passthroughs.len() ==> #[trigger] a[11 + k] == hp[10 + k]
    &&& forall|lane: int|
        0 <= lane < 4 ==> is_sum_of_round(
            p,
            f,
            l,
            c,
            meaning,
            w,
            w(hp[4]) + lane,
            #[trigger] dp[lane],
            dp[6 + lane],
            hp.skip(10),
            a[1 + lane],
        )
}

#[verifier::rlimit(60)]
#[verifier::spinoff_prover]
proof fn lemma_lane_law(
    p: ProgramV,
    f: Function,
    order: Seq<BasicBlock>,
    l: LoopV,
    c: CandidateV,
    q: ProgramV,
    meaning: Meaning,
    size: spec_fn(Type) -> int,
    w: spec_fn(Inst) -> int,
    lane: int,
) -> (r: (spec_fn(Inst) -> int, Set<Inst>))
    requires
        blocked(p, f, order, l, c) == Some(q),
        is_fed(p, c, p.args(p.terminator(preheader_of(p, order, l)->0))),
        q.insts.len() < usize::MAX,
        is_tidy(p, f, l, c),
        parts_differ(c),
        means_words(meaning, size),
        reads_literals(q, w),
        0 <= lane < 4,
        ({
            let b = stages(p, f, order, l, c).2;
            &&& is_word(w(q.block(b.header).params[4]))
            &&& solves(q, meaning, w, q.block(b.body).insts.drop_last())
        }),
    ensures
        ({
            let (pre, args, b, p1, p2, p3, p4) = stages(p, f, order, l, c);
            let (hp, dp) = (q.block(b.header).params, q.block(b.body).params);
            &&& is_round(p, f, l, c, meaning, w, r.0, r.1)
            &&& is_given_to(c, w, r.0, w(hp[4]) + lane, dp[lane], dp[6 + lane], hp.skip(10))
            &&& laned(p2, f, c, l, b).1.len() == 4
            &&& w(laned(p2, f, c, l, b).1[lane]) == r.0(c.acc_back)
        }),
{
    let (pre, args, b, p1, p2, p3, p4) = stages(p, f, order, l, c);
    let four = Inst((p1.insts.len() + 1) as usize);
    lemma_stages(p, f, order, l, c, q);
    lemma_found(p, f, order, l, c, q);
    lemma_headed_ready(p, f, order, l, c, q);
    lemma_main_longer(p2, f, c, l, b, four);
    lemma_main(p2, f, c, l, b, four);
    let h = headed(p2, b);
    let (s, sums) = laned(p2, f, c, l, b);
    let (hp, dp) = (q.block(b.header).params, q.block(b.body).params);
    let fuel = h.insts.len();
    let d = b.body;
    lemma_lanes(h, f, c, l, b, hp, dp, 0, Seq::empty(), fuel);
    lemma_lanes_ready(p, h, f, c, l, b, hp, dp, 0, lane, Seq::empty(), fuel);
    let start = lane_at(h, f, c, l, b, hp, dp, 0, lane, fuel);
    let (end, next) = lane_of(start, f, c, l, b, hp, dp, lane, fuel);
    assert(extends(end, s, d));
    assert(sums[lane] == next);
    lemma_lane_round(p, start, f, c, l, b, hp, dp, lane, fuel);
    lemma_lane_extends(start, f, c, l, b, hp, dp, lane, fuel);
    lemma_lane_started(start, b, lane, nth(hp, 4));
    lemma_lane_longer(start, f, c, l, b, hp, dp, lane, fuel);
    let more = lane_more(start, f, c, l, b, hp, dp, lane, fuel);
    let u = lane_values(p, more, w);
    let set = Set::new(|a: Inst| more.contains_key(a.0) && !is_given(c, a));
    let insts = q.block(d).insts;
    assert forall|x: Inst| s.block(d).insts.contains(x) implies w(x) == #[trigger] outcome(q, meaning, w, x) by {
        let k = s.block(d).insts.index_of(x);
        assert(insts[k] == x);
        assert(insts.drop_last()[k] == x);
    }
    assert forall|k: int| p.insts.len() <= k < end.insts.len() implies #[trigger] q.insts[k] == end.insts[k] by {
        assert(s.insts[k] == end.insts[k]);
        assert(p3.insts[k] == s.insts[k]);
        assert(q.insts[k] == p3.insts[k]);
    }
    assert forall|x: Inst| end.block(d).insts.contains(x) implies #[trigger] s.block(d).insts.contains(x) by {
        lemma_still_stand(end, s, d, x);
    }
    assert forall|x: Inst| #[trigger] set.contains(x) implies !is_given(c, x) && in_loop(p, f, l, x) && (!(p.op(x) is Jump)
        && !(p.op(x) is Branch) ==> u(x) == outcome(p, meaning, u, x)) by {
        assert(more.contains_key(x.0));
        assert(x == Inst(x.0));
        assert(is_laned(p, f, c, l, end, d, more, x.0));
        let y = more[x.0];
        assert(u(x) == w(y));
        assert(end.block(d).insts.contains(y));
        assert(s.block(d).insts.contains(y));
        assert(w(y) == outcome(q, meaning, w, y));
        assert(q.insts[y.0 as int] == end.insts[y.0 as int]);
        assert(Seq::new(q.args(y).len(), |k: int| w(q.args(y)[k])) =~= Seq::new(p.args(x).len(), |k: int| u(p.args(x)[k])))
            by {
            assert forall|k: int| 0 <= k < p.args(x).len() implies w(q.args(y)[k]) == u(#[trigger] p.args(x)[k]) by {
                assert(end.args(y)[k] == stand(p, more, p.args(Inst(x.0))[k]));
            }
        }
    }
    assert forall|x: Inst, k: int|
        set.contains(x) && 0 <= k < p.args(x).len() && in_loop(p, f, l, #[trigger] p.args(x)[k]) && !is_given(
            c,
            p.args(x)[k],
        ) implies set.contains(p.args(x)[k]) by {
        assert(x == Inst(x.0));
        assert(is_laned(p, f, c, l, end, d, more, x.0));
        assert(more.contains_key(p.args(Inst(x.0))[k].0));
    }
    assert forall|a: Inst| !(#[trigger] set.contains(a)) && !is_given(c, a) implies u(a) == w(a) by {
        assert(!more.contains_key(a.0));
    }
    assert(set.contains(c.acc_back));
    assert(is_round(p, f, l, c, meaning, w, u, set));
    assert(is_given(c, c.k_param) && is_given(c, c.acc_param) && is_given(c, c.ptr_param));
    let n = start.insts.len() as int;
    let lit = Inst(n as usize);
    let kml = Inst((n + 1) as usize);
    let begun = lane_started(start, b, lane, nth(hp, 4));
    assert(end.insts[n] == begun.insts[n] && end.insts[n + 1] == begun.insts[n + 1]);
    assert(q.insts[n] == end.insts[n]);
    assert(q.insts[n + 1] == end.insts[n + 1]);
    assert(q.op(lit) == Op::Integer(lane as i32));
    assert(w(lit) == lane);
    assert(begun.block(d).insts.contains(kml)) by {
        assert(begun.block(d).insts.last() == kml);
    }
    lemma_still_stand(begun, end, d, kml);
    assert(w(kml) == outcome(q, meaning, w, kml));
    assert(q.args(kml) == seq![hp[4], lit]);
    assert(Seq::new(2, |k: int| w(q.args(kml)[k])) =~= seq![w(hp[4]), lane]);
    assert(comes_to(u(c.k_param), w(hp[4]) + lane));
    assert forall|k: int| 0 <= k < c.passthroughs.len() implies u((#[trigger] c.passthroughs[k]).0) == w(hp.skip(10)[k]) by {
        assert(is_given(c, c.passthroughs[k].0));
        assert(more[c.passthroughs[k].0.0] == nth(hp, 10 + k));
    }
    (u, set)
}

/// A pass through the lane loop does four rounds of the loop, one in each lane. The header of the lane loop only hands its
/// parameters to the body.
#[verifier::rlimit(60)]
#[verifier::spinoff_prover]
pub proof fn a_pass_does_four_rounds(
    p: ProgramV,
    f: Function,
    order: Seq<BasicBlock>,
    l: LoopV,
    c: CandidateV,
    meaning: Meaning,
    size: spec_fn(Type) -> int,
    w: spec_fn(Inst) -> int,
)
    requires
        blocked(p, f, order, l, c) is Some,
        is_fed(p, c, p.args(p.terminator(preheader_of(p, order, l)->0))),
        (blocked(p, f, order, l, c)->0).insts.len() < usize::MAX,
        is_tidy(p, f, l, c),
        parts_differ(c),
        means_words(meaning, size),
        reads_literals(blocked(p, f, order, l, c)->0, w),
        is_word(4 * c.stride),
    ensures
        ({
            let q = blocked(p, f, order, l, c)->0;
            let h = goes_to(q, goes_to(q, preheader_of(p, order, l)->0));
            let d = goes_to(q, h);
            let hp = q.block(h).params;
            &&& hp.len() == 10 + c.passthroughs.len()
            &&& q.block(d).params.len() == hp.len()
            &&& q.block(h).insts.len() == 1
            &&& q.op(q.terminator(h)) == Op::Jump(d)
            &&& q.args(q.terminator(h)) == hp
            &&& is_word(w(hp[4])) && is_word(w(hp[5])) && solves(q, meaning, w, q.block(d).insts.drop_last())
                ==> does_four_rounds(p, q, f, l, c, meaning, size, w, h, d)
        }),
{
    let q = blocked(p, f, order, l, c)->0;
    let (pre, args, b, p1, p2, p3, p4) = stages(p, f, order, l, c);
    let four = Inst((p1.insts.len() + 1) as usize);
    lemma_stages(p, f, order, l, c, q);
    lemma_found(p, f, order, l, c, q);
    lemma_main_longer(p2, f, c, l, b, four);
    let (h, d) = (b.header, b.body);
    let (hp, dp) = (q.block(h).params, q.block(d).params);
    let (s, sums) = laned(p2, f, c, l, b);
    let j = p2.insts.len() as int;
    assert(q.insts[j] == p3.insts[j]);
    let n = s.insts.len() as int;
    if is_word(w(hp[4])) && is_word(w(hp[5])) && solves(q, meaning, w, q.block(d).insts.drop_last()) {
        let a = q.args(q.terminator(d));
        let insts = q.block(d).insts;
        let m = s.block(d).insts.len() as int;
        assert(q.insts[n] == p3.insts[n]);
        assert(q.insts[n + 1] == p3.insts[n + 1]);
        assert(q.insts[n + 2] == p3.insts[n + 2]);
        assert(q.insts[n + 7] == p3.insts[n + 7]);
        assert(q.insts[four.0 as int] == p2.insts[four.0 as int]);
        assert(q.op(four) == Op::Integer(4));
        assert(w(four) == 4);
        let step = Inst((n + 2) as usize);
        assert(q.op(step) == Op::Integer((4 * c.stride) as i32));
        assert(w(step) == 4 * c.stride);
        assert(insts.drop_last()[m] == Inst(n as usize));
        assert(insts.drop_last()[m + 1] == Inst((n + 1) as usize));
        let index = Inst(n as usize);
        let left = Inst((n + 1) as usize);
        assert(w(index) == outcome(q, meaning, w, index));
        assert(w(left) == outcome(q, meaning, w, left));
        assert(Seq::new(2, |k: int| w(q.args(index)[k])) =~= seq![w(hp[4]), 4int]);
        assert(Seq::new(2, |k: int| w(q.args(left)[k])) =~= seq![w(hp[5]), 4int]);
        assert(q.terminator(d) == Inst((n + 7) as usize));
        let (u0, s0) = lemma_lane_law(p, f, order, l, c, q, meaning, size, w, 0);
        let passed = sums + seq![
            Inst(n as usize),
            Inst((n + 1) as usize),
            Inst((n + 3) as usize),
            Inst((n + 4) as usize),
            Inst((n + 5) as usize),
            Inst((n + 6) as usize),
        ] + tail_of(hp, 10, c.passthroughs.len());
        assert(passed.len() == 10 + c.passthroughs.len());
        assert(a == seq![left] + passed + passed);
        assert forall|k: int| 0 <= k < passed.len() implies #[trigger] a[1 + k] == a[1 + (10 + c.passthroughs.len() as int)
            + k] by {}
        assert forall|lane: int| 0 <= lane < 4 implies w(#[trigger] a[7 + lane]) == w(dp[6 + lane]) + size(
            q.gep_ty(dp[6 + lane], 1),
        ) * (4 * c.stride) by {
            let i = Inst((n + 3 + lane) as usize);
            assert(a[7 + lane] == i);
            assert(q.insts[n + 3 + lane] == p3.insts[n + 3 + lane]);
            assert(insts.drop_last()[m + 2 + lane] == i);
            assert(w(i) == outcome(q, meaning, w, i));
            let x = dp[6 + lane];
            assert(x.0 < n) by {
                assert(x == Inst((p.insts.len() + lane_types(p, c).len() + 6 + lane) as usize));
            }
            assert(q.insts[x.0 as int] == p3.insts[x.0 as int]);
            assert(q.args(i) == seq![x, step]);
            assert(Seq::new(2, |k: int| w(q.args(i)[k])) =~= seq![w(x), 4 * c.stride]);
        }
        assert forall|k: int| 0 <= k < c.passthroughs.len() implies #[trigger] a[11 + k] == hp[10 + k] by {
            assert(passed[10 + k] == tail_of(hp, 10, c.passthroughs.len())[k]);
        }
        assert forall|lane: int| 0 <= lane < 4 implies is_sum_of_round(
            p,
            f,
            l,
            c,
            meaning,
            w,
            w(hp[4]) + lane,
            #[trigger] dp[lane],
            dp[6 + lane],
            hp.skip(10),
            a[1 + lane],
        ) by {
            let (u, set) = lemma_lane_law(p, f, order, l, c, q, meaning, size, w, lane);
            assert(a[1 + lane] == sums[lane]);
            assert(is_round(p, f, l, c, meaning, w, u, set));
        }
        assert(does_four_rounds(p, q, f, l, c, meaning, size, w, h, d));
    }
}

} // verus!
