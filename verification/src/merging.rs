//! Straight-line code gives a merge block what its two ways passed.

use vstd::prelude::*;

use crate::cfg::TreeV;
use crate::if_conversion::{
    arm_of, can_hoist, candidate_at, choices_made, is_zero_one, merged, merged_from, merged_meaning,
    merged_value_is_the_passed_one, moves_from, MergedValue,
};
use crate::ir::{BasicBlock, Function, Inst, Op, ProgramV};

verus! {

/// Where a run goes from the end of block `head` until it comes to block `merge`, and what it passes: the
/// edge of the branch for `truth`, and where that leads to another block, the jump that ends it.
pub open spec fn way(p: ProgramV, head: BasicBlock, merge: BasicBlock, truth: bool) -> Option<(BasicBlock, Seq<Inst>)> {
    let term = p.terminator(head);
    match p.op(term) {
        Op::Branch(a, b, _) => {
            let (x, args) = if truth {
                (a, p.t_args(term))
            } else {
                (b, p.f_args(term))
            };
            if x == merge {
                Some((x, args))
            } else {
                match arm_of(p, x) {
                    Some((_, y, passed)) => Some((y, passed)),
                    None => None,
                }
            }
        },
        _ => None,
    }
}

pub(crate) proof fn lemma_merged_from(
    p: ProgramV,
    cond: Inst,
    params: Seq<Inst>,
    ta: Seq<Inst>,
    fa: Seq<Inst>,
    from: int,
    found: Seq<MergedValue>,
)
    requires
        0 <= from <= params.len(),
        found.len() == from,
        params.len() == ta.len(),
        params.len() == fa.len(),
        forall|k: int| 0 <= k < from ==> #[trigger] found[k] == merged(p, cond, ta[k], fa[k]),
    ensures
        merged_from(p, cond, params, ta, fa, from, found) matches Some(values) ==> values.len() == params.len()
            && forall|k: int| 0 <= k < values.len() ==> #[trigger] values[k] == merged(p, cond, ta[k], fa[k]),
    decreases params.len() - from,
{
    if from < params.len() {
        let next = found.push(merged(p, cond, ta[from], fa[from]));
        lemma_merged_from(p, cond, params, ta, fa, from + 1, next);
    }
}

/// Both ways from the head of a candidate lead to its merge block, and what is to replace a parameter of it
/// has the value that the way taken passes for the parameter.
pub proof fn candidate_merges_what_is_passed(
    p: ProgramV,
    f: Function,
    t: TreeV,
    head: BasicBlock,
    env: spec_fn(Inst) -> i32,
    k: int,
)
    requires
        candidate_at(p, f, t, head) is Some,
        forall|v: Inst| #[trigger] is_zero_one(p, v) ==> env(v) == 0 || env(v) == 1,
        forall|v: Inst| #[trigger] p.op(v) is Integer ==> env(v) == p.op(v)->Integer_0,
        0 <= k < (candidate_at(p, f, t, head)->0).values.len(),
    ensures
        ({
            let c = candidate_at(p, f, t, head)->0;
            let taken = way(p, head, c.merge, env(c.cond) != 0);
            &&& c.head == head
            &&& c.terminator == p.terminator(head)
            &&& c.cond == p.arg(p.terminator(head), 0)
            &&& way(p, head, c.merge, true) is Some && (way(p, head, c.merge, true)->0).0 == c.merge
            &&& way(p, head, c.merge, false) is Some && (way(p, head, c.merge, false)->0).0 == c.merge
            &&& c.values.len() == p.block(c.merge).params.len() == (taken->0).1.len()
            &&& merged_meaning(c.values[k], c.cond, env) == env((taken->0).1[k])
        }),
{
    let c = candidate_at(p, f, t, head)->0;
    let term = p.terminator(head);
    let params = p.block(c.merge).params;
    let ta = (way(p, head, c.merge, true)->0).1;
    let fa = (way(p, head, c.merge, false)->0).1;
    lemma_merged_from(p, c.cond, params, ta, fa, 0, Seq::empty());
    assert(c.values[k] == merged(p, c.cond, ta[k], fa[k]));
    merged_value_is_the_passed_one(p, c.cond, ta[k], fa[k], env);
}

/// Value `x` is made to be what `v` says.
pub open spec fn realizes(q: ProgramV, cond: Inst, v: MergedValue, x: Inst) -> bool {
    match v {
        MergedValue::Common(a) => x == a,
        MergedValue::Select(a, b) => q.op(x) is Select && q.args(x) == seq![cond, a, b],
        MergedValue::BoolBinary(op, l, r) => q.op(x) == Op::Binary(op) && q.args(x) == seq![l, r],
    }
}

pub(crate) proof fn lemma_choices(
    p: ProgramV,
    head: BasicBlock,
    cond: Inst,
    values: Seq<MergedValue>,
    from: int,
    found: Seq<Inst>,
)
    requires
        0 <= from <= values.len(),
        found.len() == from,
        forall|k: int| 0 <= k < from ==> realizes(p, cond, values[k], #[trigger] found[k]),
        forall|k: int| 0 <= k < from && !(values[k] is Common) ==> (#[trigger] found[k]).0 < p.insts.len(),
        p.insts.len() + values.len() - from <= usize::MAX,
    ensures
        ({
            let (q, made) = choices_made(p, head, cond, values, from, found);
            &&& made.len() == values.len()
            &&& forall|k: int| 0 <= k < values.len() ==> realizes(q, cond, values[k], #[trigger] made[k])
            &&& forall|i: int| 0 <= i < p.insts.len() ==> #[trigger] q.insts[i] == p.insts[i]
            &&& p.insts.len() <= q.insts.len()
        }),
    decreases values.len() - from,
{
    if from < values.len() {
        reveal(ProgramV::push_inst);
        reveal(ProgramV::set_block_insts);
        let x = p.next_inst();
        let (q, y) = match values[from] {
            MergedValue::Common(v) => (p, v),
            MergedValue::Select(a, b) => (
                p.push_inst(Op::Select, seq![cond, a, b], p.ty(a), false).append(head, x),
                x,
            ),
            MergedValue::BoolBinary(op, l, r) => (
                p.push_inst(Op::Binary(op), seq![l, r], p.binary_ty(op, l), false).append(head, x),
                x,
            ),
        };
        let next = found.push(y);
        assert forall|k: int| 0 <= k < from + 1 implies realizes(q, cond, values[k], #[trigger] next[k]) by {
            if k < from {
                assert(next[k] == found[k]);
                assert(realizes(p, cond, values[k], found[k]));
                if !(values[k] is Common) {
                    assert(q.insts[found[k].0 as int] == p.insts[found[k].0 as int]);
                }
            }
        }
        assert forall|k: int| 0 <= k < from + 1 && !(values[k] is Common) implies (#[trigger] next[k]).0
            < q.insts.len() by {
            if k < from {
                assert(next[k] == found[k]);
            }
        }
        lemma_choices(q, head, cond, values, from + 1, next);
        let r = choices_made(p, head, cond, values, from, found).0;
        assert forall|i: int| 0 <= i < p.insts.len() implies #[trigger] r.insts[i] == p.insts[i] by {
            assert(r.insts[i] == q.insts[i]);
        }
    }
}

/// The instructions that are made for a merge block compute the values that are to replace its parameters.
pub proof fn choices_compute_the_merged_values(p: ProgramV, head: BasicBlock, cond: Inst, values: Seq<MergedValue>)
    requires
        p.insts.len() + values.len() <= usize::MAX,
    ensures
        ({
            let (q, made) = choices_made(p, head, cond, values, 0, Seq::empty());
            made.len() == values.len() && forall|k: int|
                0 <= k < values.len() ==> realizes(q, cond, values[k], #[trigger] made[k])
        }),
{
    lemma_choices(p, head, cond, values, 0, Seq::empty());
}

proof fn lemma_moves(
    p: ProgramV,
    f: Function,
    t: TreeV,
    head: BasicBlock,
    insts: Seq<Inst>,
    from: int,
    moved: Seq<Inst>,
)
    requires
        forall|k: int| 0 <= k < moved.len() ==> harmless(p, #[trigger] moved[k]),
    ensures
        moves_from(p, f, t, head, insts, from, moved) matches Some(all) ==> forall|k: int|
            0 <= k < all.len() ==> harmless(p, #[trigger] all[k]),
    decreases insts.len() - from,
{
    if from + 1 < insts.len() && can_hoist(p, f, t, insts[from], head, moved) && p.users(insts[from])
        == seq![insts[from + 1]] {
        let next = moved.push(insts[from]);
        assert forall|k: int| 0 <= k < next.len() implies harmless(p, #[trigger] next[k]) by {
            if k < moved.len() {
                assert(next[k] == moved[k]);
            }
        }
        lemma_moves(p, f, t, head, insts, from + 1, next);
    }
}

/// Instruction `i` does nothing but compute an `i32` from two others, and always can.
pub open spec fn harmless(p: ProgramV, i: Inst) -> bool {
    match p.op(i) {
        Op::Binary(op) => !(op is Div) && !(op is Rem) && p.ty(i) is I32 && p.ty(p.arg(i, 0)) is I32 && p.ty(
            p.arg(i, 1),
        ) is I32,
        _ => false,
    }
}

/// Only instructions that have no effect and cannot fail are moved to where they always run.
pub proof fn only_harmless_instructions_move(p: ProgramV, f: Function, t: TreeV, head: BasicBlock, k: int)
    requires
        candidate_at(p, f, t, head) is Some,
        0 <= k < (candidate_at(p, f, t, head)->0).move_insts.len(),
    ensures
        harmless(p, (candidate_at(p, f, t, head)->0).move_insts[k]),
{
    let c = candidate_at(p, f, t, head)->0;
    lemma_moves(p, f, t, head, p.block(c.arm).insts, 0, Seq::empty());
}

} // verus!
