//! A branch that became straight-line code, as the program that comes out says it.

use vstd::prelude::*;

use crate::arith::int_op;
use crate::cfg::TreeV;
use crate::if_conversion::{
    arms_removed, candidate_at, choices_made, converted, is_zero_one, merged, moved_to, moves_from,
    params_replaced, MergedValue,
};
use crate::ir::{without, BasicBlock, Function, Inst, InstV, Op, ProgramV, Type};
use crate::merging::{candidate_merges_what_is_passed, lemma_choices, lemma_merged_from, realizes, way};
use crate::unrolling::{extends, lemma_appended, lemma_extends_twice, lemma_pushed, lemma_same, lemma_still_stand};

verus! {

/// Value `x` needs no instruction, or has one in block `head` that is not among the first `n`.
spec fn is_placed(p: ProgramV, head: BasicBlock, v: MergedValue, x: Inst, n: nat) -> bool {
    v is Common || (x.0 >= n && p.block(head).insts.contains(x))
}

proof fn lemma_chosen(
    p: ProgramV,
    head: BasicBlock,
    cond: Inst,
    values: Seq<MergedValue>,
    from: int,
    found: Seq<Inst>,
    n: nat,
)
    requires
        0 <= from <= values.len(),
        p.insts.len() + values.len() - from < usize::MAX,
        n <= p.insts.len(),
        head.0 < p.blocks.len(),
        found.len() == from,
        forall|k: int| 0 <= k < from ==> is_placed(p, head, values[k], #[trigger] found[k], n),
    ensures
        ({
            let (q, made) = choices_made(p, head, cond, values, from, found);
            &&& extends(p, q, head)
            &&& made.len() == values.len()
            &&& forall|k: int| 0 <= k < values.len() ==> is_placed(q, head, values[k], #[trigger] made[k], n)
            &&& q.insts.len() <= p.insts.len() + values.len() - from
            &&& forall|k: int|
                p.block(head).insts.len() <= k < q.block(head).insts.len() ==> (#[trigger] q.block(head).insts[k]).0 >= n
        }),
    decreases values.len() - from,
{
    lemma_same(p, head);
    if from < values.len() {
        let x = p.next_inst();
        let q = choices_made(p, head, cond, values, from, found).0;
        let (op, args, ty) = match values[from] {
            MergedValue::Common(v) => (Op::Undef, Seq::empty(), Type::Unit),
            MergedValue::Select(a, b) => (Op::Select, seq![cond, a, b], p.ty(a)),
            MergedValue::BoolBinary(op, l, r) => (Op::Binary(op), seq![l, r], p.binary_ty(op, l)),
        };
        match values[from] {
            MergedValue::Common(v) => {
                assert forall|k: int| 0 <= k < from + 1 implies is_placed(p, head, values[k], #[trigger] found.push(v)[k], n) by {
                    if k < from {
                        assert(is_placed(p, head, values[k], found[k], n));
                    }
                }
                lemma_chosen(p, head, cond, values, from + 1, found.push(v), n);
            },
            _ => {
                let made = p.push_inst(op, args, ty, false);
                let next = made.append(head, x);
                lemma_pushed(p, op, args, ty, head);
                lemma_appended(made, head, x);
                lemma_extends_twice(p, made, next, head);
                assert forall|k: int| 0 <= k < from + 1 implies is_placed(
                    next,
                    head,
                    values[k],
                    #[trigger] found.push(x)[k],
                    n,
                ) by {
                    if k < from {
                        assert(is_placed(p, head, values[k], found[k], n));
                        if !(values[k] is Common) {
                            lemma_still_stand(p, next, head, found[k]);
                        }
                    } else {
                        assert(next.block(head).insts.last() == x);
                    }
                }
                lemma_chosen(next, head, cond, values, from + 1, found.push(x), n);
                lemma_extends_twice(p, next, q, head);
                assert forall|k: int| p.block(head).insts.len() <= k < q.block(head).insts.len() implies (
                #[trigger] q.block(head).insts[k]).0 >= n by {
                    if k < next.block(head).insts.len() {
                        assert(next.block(head).insts[k] == q.block(head).insts.subrange(
                            0,
                            next.block(head).insts.len() as int,
                        )[k]);
                        assert(next.block(head).insts[k] == x);
                    }
                }
            },
        }
    }
}

/// Operand `a` once the values `values` took the place of `params`.
pub open spec fn stands_for(params: Seq<Inst>, values: Seq<Inst>, a: Inst) -> Inst {
    if params.contains(a) {
        values[params.index_of(a)]
    } else {
        a
    }
}

/// Instruction `i` with the values `values` in the place of `params`.
pub open spec fn with_values(i: InstV, params: Seq<Inst>, values: Seq<Inst>) -> InstV {
    InstV { args: i.args.map_values(|a: Inst| stands_for(params, values, a)), ..i }
}

spec fn from_there(params: Seq<Inst>, values: Seq<Inst>, a: Inst, from: int) -> Inst
    decreases params.len() - from,
{
    if from >= params.len() || from >= values.len() {
        a
    } else if params[from] == a {
        values[from]
    } else {
        from_there(params, values, a, from + 1)
    }
}

proof fn lemma_from_there(params: Seq<Inst>, values: Seq<Inst>, a: Inst, from: int)
    requires
        0 <= from,
        params.no_duplicates(),
        params.len() == values.len(),
    ensures
        forall|k: int| from <= k < params.len() && #[trigger] params[k] == a ==> from_there(params, values, a, from) == values[k],
        (forall|k: int| from <= k < params.len() ==> #[trigger] params[k] != a) ==> from_there(params, values, a, from) == a,
    decreases params.len() - from,
{
    if from < params.len() {
        lemma_from_there(params, values, a, from + 1);
    }
}

proof fn lemma_replaced_all(p: ProgramV, params: Seq<Inst>, values: Seq<Inst>, from: int)
    requires
        0 <= from,
        params.len() == values.len(),
        forall|k: int| 0 <= k < values.len() ==> !params.contains(#[trigger] values[k]),
    ensures
        ({
            let q = params_replaced(p, params, values, from);
            &&& q.blocks == p.blocks
            &&& q.insts.len() == p.insts.len()
            &&& forall|i: int|
                0 <= i < p.insts.len() ==> #[trigger] q.insts[i] == (InstV {
                    args: p.insts[i].args.map_values(|a: Inst| from_there(params, values, a, from)),
                    ..p.insts[i]
                })
        }),
    decreases params.len() - from,
{
    let q = params_replaced(p, params, values, from);
    if from < params.len() {
        reveal(ProgramV::replace_uses);
        let r = p.replace_uses(params[from], values[from]);
        lemma_replaced_all(r, params, values, from + 1);
        assert forall|i: int| 0 <= i < p.insts.len() implies #[trigger] q.insts[i] == (InstV {
            args: p.insts[i].args.map_values(|a: Inst| from_there(params, values, a, from)),
            ..p.insts[i]
        }) by {
            assert(r.insts[i] == p.insts[i].replaced(params[from], values[from]));
            let (x, y) = (r.insts[i].args, p.insts[i].args);
            assert(x.map_values(|a: Inst| from_there(params, values, a, from + 1)) =~= y.map_values(
                |a: Inst| from_there(params, values, a, from),
            )) by {
                assert forall|j: int| 0 <= j < y.len() implies from_there(params, values, #[trigger] x[j], from + 1)
                    == from_there(params, values, y[j], from) by {
                    if y[j] == params[from] {
                        lemma_untouched(params, values, values[from], from + 1);
                    }
                }
            }
        }
    } else {
        assert forall|i: int| 0 <= i < p.insts.len() implies #[trigger] q.insts[i] == (InstV {
            args: p.insts[i].args.map_values(|a: Inst| from_there(params, values, a, from)),
            ..p.insts[i]
        }) by {
            assert(p.insts[i].args.map_values(|a: Inst| from_there(params, values, a, from)) =~= p.insts[i].args);
        }
    }
}

proof fn lemma_untouched(params: Seq<Inst>, values: Seq<Inst>, a: Inst, from: int)
    requires
        0 <= from,
        !params.contains(a),
    ensures
        from_there(params, values, a, from) == a,
    decreases params.len() - from,
{
    if from < params.len() && from < values.len() {
        assert(params.contains(params[from]));
        lemma_untouched(params, values, a, from + 1);
    }
}

proof fn lemma_emptied(p: ProgramV, dead: Seq<Inst>, from: int)
    requires
        0 <= from <= dead.len(),
    ensures
        p.erase_all(dead, from).blocks == p.blocks,
        p.erase_all(dead, from).insts.len() == p.insts.len(),
        forall|i: int|
            0 <= i < p.insts.len() && !dead.contains(Inst(i as usize)) && i <= usize::MAX ==> #[trigger] p.erase_all(
                dead,
                from,
            ).insts[i] == p.insts[i],
    decreases dead.len() - from,
{
    if from < dead.len() {
        reveal(ProgramV::set_inst);
        let q = p.erase(dead[from]);
        lemma_emptied(q, dead, from + 1);
        assert forall|i: int|
            0 <= i < p.insts.len() && !dead.contains(Inst(i as usize)) && i <= usize::MAX implies #[trigger] p.erase_all(
            dead,
            from,
        ).insts[i] == p.insts[i] by {
            assert(dead.contains(dead[from]));
            assert(q.erase_all(dead, from + 1).insts[i] == q.insts[i]);
        }
    }
}

/// Instruction `i` stands in one of the blocks.
spec fn among(p: ProgramV, blocks: Seq<BasicBlock>, i: Inst) -> bool {
    exists|k: int| 0 <= k < blocks.len() && p.block(#[trigger] blocks[k]).insts.contains(i)
}

proof fn lemma_arms_removed(p: ProgramV, f: Function, blocks: Seq<BasicBlock>, from: int)
    requires
        0 <= from <= blocks.len(),
    ensures
        arms_removed(p, f, blocks, from).blocks == p.blocks,
        arms_removed(p, f, blocks, from).insts.len() == p.insts.len(),
        forall|i: int|
            0 <= i < p.insts.len() && i <= usize::MAX && !among(p, blocks, Inst(i as usize)) ==> #[trigger] arms_removed(
                p,
                f,
                blocks,
                from,
            ).insts[i] == p.insts[i],
    decreases blocks.len() - from,
{
    if from < blocks.len() {
        reveal(ProgramV::set_func_blocks);
        let d = p.detach_block(f, blocks[from]);
        let dead = p.block(blocks[from]).insts;
        let q = p.remove_block(f, blocks[from]);
        lemma_emptied(d, dead, 0);
        lemma_arms_removed(q, f, blocks, from + 1);
        assert forall|i: int|
            0 <= i < p.insts.len() && i <= usize::MAX && !among(p, blocks, Inst(i as usize)) implies #[trigger] arms_removed(
            p,
            f,
            blocks,
            from,
        ).insts[i] == p.insts[i] by {
            let x = Inst(i as usize);
            if dead.contains(x) {
                assert(among(p, blocks, x));
            }
            if among(q, blocks, x) {
                let k = choose|k: int| 0 <= k < blocks.len() && q.block(#[trigger] blocks[k]).insts.contains(x);
                assert(p.block(blocks[k]).insts.contains(x));
                assert(among(p, blocks, x));
            }
            assert(d.erase_all(dead, 0).insts[i] == d.insts[i]);
            assert(arms_removed(q, f, blocks, from + 1).insts[i] == q.insts[i]);
        }
    }
}

/// Instructions moved from one block to another.
proof fn lemma_moved_to(p: ProgramV, arm: BasicBlock, head: BasicBlock, insts: Seq<Inst>, from: int)
    requires
        0 <= from <= insts.len(),
        arm != head || insts.len() == 0,
        head.0 < p.blocks.len(),
    ensures
        ({
            let q = moved_to(p, arm, head, insts, from);
            &&& q.insts == p.insts
            &&& q.blocks.len() == p.blocks.len()
            &&& q.block(head).insts == p.block(head).insts + insts.skip(from)
            &&& q.block(head).params == p.block(head).params
            &&& q.block(arm).params == p.block(arm).params
            &&& forall|x: BasicBlock| x != arm && x != head ==> #[trigger] q.block(x) == p.block(x)
            &&& forall|i: Inst| arm != head && q.block(arm).insts.contains(i) ==> #[trigger] p.block(arm).insts.contains(i)
            &&& p.block(arm).insts.no_duplicates() && arm != head ==> q.block(arm).insts.no_duplicates() && forall|k: int|
                from <= k < insts.len() ==> !q.block(arm).insts.contains(#[trigger] insts[k])
        }),
    decreases insts.len() - from,
{
    let q = moved_to(p, arm, head, insts, from);
    if from < insts.len() {
        let i = insts[from];
        let d = p.detach(arm, i);
        let r = d.append(head, i);
        let s = p.block(arm).insts;
        reveal(ProgramV::set_block_insts);
        lemma_moved_to(r, arm, head, insts, from + 1);
        assert(r.block(head).insts == p.block(head).insts.push(i));
        assert(p.block(head).insts.push(i) + insts.skip(from + 1) =~= p.block(head).insts + insts.skip(from));
        assert(r.block(arm).insts == if arm.0 < p.blocks.len() { without(s, i) } else { s });
        let k = crate::ir::position(s, i, 0);
        crate::ir::position_is_first(s, i, 0);
        assert forall|x: Inst| q.block(arm).insts.contains(x) implies #[trigger] p.block(arm).insts.contains(x) by {
            assert(r.block(arm).insts.contains(x));
            let j = without(s, i).index_of(x);
            if 0 <= k < s.len() {
                assert(s.remove(k)[j] == x);
                if j < k {
                    assert(s[j] == x);
                } else {
                    assert(s[j + 1] == x);
                }
            }
        }
        if s.no_duplicates() {
            assert(r.block(arm).insts.no_duplicates());
            assert(!r.block(arm).insts.contains(i)) by {
                if r.block(arm).insts.contains(i) {
                    let j = r.block(arm).insts.index_of(i);
                    assert(r.block(arm).insts[j] == i);
                    if 0 <= k < s.len() {
                        assert(s[k] == i);
                        if j < k {
                            assert(s[j] == i);
                        } else {
                            assert(s[j + 1] == i);
                        }
                    }
                }
            }
            assert forall|k: int| from <= k < insts.len() implies !q.block(arm).insts.contains(#[trigger] insts[k]) by {
                if k == from && q.block(arm).insts.contains(i) {
                    assert(r.block(arm).insts.contains(i));
                }
            }
        }
    } else {
        assert(insts.skip(from) =~= Seq::empty());
        assert(p.block(head).insts + insts.skip(from) =~= p.block(head).insts);
    }
}

proof fn lemma_moves_all(p: ProgramV, f: Function, t: TreeV, head: BasicBlock, insts: Seq<Inst>, from: int, moved: Seq<Inst>)
    requires
        0 <= from,
        from + 1 <= insts.len(),
    ensures
        moves_from(p, f, t, head, insts, from, moved) matches Some(all) ==> all == moved + insts.subrange(
            from,
            insts.len() - 1,
        ),
    decreases insts.len() - from,
{
    if from + 1 < insts.len() {
        lemma_moves_all(p, f, t, head, insts, from + 1, moved.push(insts[from]));
        assert(moved.push(insts[from]) + insts.subrange(from + 1, insts.len() - 1) =~= moved + insts.subrange(
            from,
            insts.len() - 1,
        ));
    } else {
        assert(moved + insts.subrange(from, insts.len() - 1) =~= moved);
    }
}

/// Block `x` is one that a branch of `head` goes through on its way to `merge`.
pub open spec fn is_arm(p: ProgramV, head: BasicBlock, merge: BasicBlock, x: BasicBlock) -> bool {
    x != merge && (p.op(p.terminator(head)) matches Op::Branch(a, b, _) && (x == a || x == b))
}

/// What is moved and what is removed is what stands on the ways from the branch to the merge block.
proof fn lemma_shape(p: ProgramV, f: Function, t: TreeV, head: BasicBlock)
    requires
        candidate_at(p, f, t, head) is Some,
        p.insts.len() <= usize::MAX,
    ensures
        ({
            let c = candidate_at(p, f, t, head)->0;
            &&& c.merge != head
            &&& forall|x: BasicBlock| #[trigger] c.remove_blocks.contains(x) == is_arm(p, head, c.merge, x)
            &&& !is_arm(p, head, c.merge, head)
            &&& c.arm == head ==> c.move_insts.len() == 0
            &&& c.arm != head ==> is_arm(p, head, c.merge, c.arm) && c.move_insts == p.block(c.arm).insts.drop_last()
            &&& forall|x: BasicBlock| #[trigger]
                is_arm(p, head, c.merge, x) ==> p.block(x).insts.len() > 0 && (x != c.arm ==> p.block(x).insts.len() == 1)
        }),
{
    let c = candidate_at(p, f, t, head)->0;
    match p.op(p.terminator(head)) {
        Op::Branch(a, b, _) => {
            if a == b {
            } else if crate::if_conversion::is_diamond(p, f, t, head, a, b) {
                assert(seq![a, b][0] == a && seq![a, b][1] == b);
            } else {
                let x = if crate::if_conversion::arm_leads_to(p, a, b) {
                    a
                } else {
                    b
                };
                assert(seq![x][0] == x);
                let insts = p.block(x).insts;
                assert(insts.len() > 0);
                lemma_moves_all(p, f, t, head, insts, 0, Seq::empty());
                assert(Seq::<Inst>::empty() + insts.subrange(0, insts.len() - 1) =~= insts.drop_last());
                assert(c.arm == x);
                assert(c.remove_blocks == seq![x]);
                assert forall|y: BasicBlock| #[trigger] c.remove_blocks.contains(y) == is_arm(p, head, c.merge, y) by {
                    assert(c.remove_blocks.contains(y) == (y == x));
                }
            }
        },
        _ => {},
    }
}

/// The blocks round a branch hold each instruction once, the parameters of the merge block are parameters, and what is
/// passed for them, and the condition, are not.
pub open spec fn is_plain(p: ProgramV, head: BasicBlock, merge: BasicBlock) -> bool {
    let params = p.block(merge).params;
    &&& p.block(head).insts.no_duplicates()
    &&& forall|x: BasicBlock| #[trigger] is_arm(p, head, merge, x) ==> p.block(x).insts.no_duplicates()
    &&& params.no_duplicates()
    &&& forall|k: int| 0 <= k < params.len() ==> p.op(#[trigger] params[k]) is BlockArgRef
    &&& !params.contains(p.arg(p.terminator(head), 0))
    &&& forall|truth: bool, k: int|
        #![trigger (way(p, head, merge, truth)->0).1[k]]
        0 <= k < (way(p, head, merge, truth)->0).1.len() ==> !params.contains((way(p, head, merge, truth)->0).1[k])
    &&& p.insts.len() + params.len() + 2 < usize::MAX
}

/// The values `e` are what the choices and the operations on them in block `head` that are not among the first `n`
/// instructions give.
pub open spec fn chooses(q: ProgramV, head: BasicBlock, n: nat, e: spec_fn(Inst) -> i32) -> bool {
    forall|x: Inst| #[trigger]
        q.block(head).insts.contains(x) && x.0 >= n ==> {
            &&& q.op(x) is Select ==> e(x) == if e(q.arg(x, 0)) != 0 {
                e(q.arg(x, 1))
            } else {
                e(q.arg(x, 2))
            }
            &&& q.op(x) matches Op::Binary(op) ==> e(x) == int_op(op, e(q.arg(x, 0)), e(q.arg(x, 1)))
        }
}

/// Block `head` goes straight to block `merge` in `q`: it has done what it did, and what stood on the ways there, and
/// passes nothing. The values `made` are there in the place of the parameters of `merge`. All else is as it was, but for
/// the ends of the blocks on the way.
pub open spec fn is_straight(p: ProgramV, q: ProgramV, head: BasicBlock, merge: BasicBlock, made: Seq<Inst>) -> bool {
    let params = p.block(merge).params;
    let done = p.block(head).insts.drop_last();
    let h = q.block(head).insts;
    &&& made.len() == params.len()
    &&& h.len() > 0
    &&& q.op(h.last()) == Op::Jump(merge)
    &&& q.args(h.last()).len() == 0
    &&& done.is_prefix_of(h)
    &&& forall|x: BasicBlock, k: int|
        is_arm(p, head, merge, x) && 0 <= k < p.block(x).insts.len() - 1 ==> done.len() + k < h.len() && h[done.len() + k]
            == #[trigger] p.block(x).insts[k]
    &&& q.block(merge).params.len() == 0
    &&& q.block(merge).insts == p.block(merge).insts
    &&& q.blocks.len() == p.blocks.len()
    &&& forall|x: BasicBlock| x != head && x != merge && !is_arm(p, head, merge, x) ==> #[trigger] q.block(x) == p.block(x)
    &&& forall|i: Inst|
        i.0 < p.insts.len() && i != p.terminator(head) && !params.contains(i) && (forall|x: BasicBlock| #[trigger]
            is_arm(p, head, merge, x) ==> i != p.terminator(x)) ==> #[trigger] q.inst(i) == with_values(
            p.inst(i),
            params,
            made,
        )
}

/// A branch whose ways come together becomes straight-line code that computes the same. What takes the place of a
/// parameter of the merge block has the value that the way taken passed for it, and takes its place everywhere; the
/// instructions on the way are done in their order, and everything else stays.
#[verifier::rlimit(60)]
#[verifier::spinoff_prover]
pub proof fn the_branch_becomes_straight(
    p: ProgramV,
    f: Function,
    t: TreeV,
    head: BasicBlock,
    e: spec_fn(Inst) -> i32,
) -> (made: Seq<Inst>)
    requires
        candidate_at(p, f, t, head) is Some,
        is_plain(p, head, (candidate_at(p, f, t, head)->0).merge),
        forall|v: Inst| #[trigger] is_zero_one(p, v) ==> e(v) == 0 || e(v) == 1,
        forall|v: Inst| #[trigger] p.op(v) is Integer ==> e(v) == p.op(v)->Integer_0,
    ensures
        ({
            let c = candidate_at(p, f, t, head)->0;
            let q = converted(p, f, c);
            let taken = way(p, head, c.merge, e(p.arg(p.terminator(head), 0)) != 0);
            &&& taken is Some
            &&& (taken->0).0 == c.merge
            &&& (taken->0).1.len() == made.len()
            &&& is_straight(p, q, head, c.merge, made)
            &&& chooses(q, head, p.insts.len(), e) ==> forall|k: int|
                0 <= k < made.len() ==> e(#[trigger] made[k]) == e((taken->0).1[k])
        }),
{
    let c = candidate_at(p, f, t, head)->0;
    let merge = c.merge;
    let params = p.block(merge).params;
    let term = p.terminator(head);
    let cond = p.arg(term, 0);
    let q = converted(p, f, c);
    let n = p.insts.len();
    lemma_shape(p, f, t, head);
    let ta = (way(p, head, merge, true)->0).1;
    let fa = (way(p, head, merge, false)->0).1;
    lemma_merged_from(p, c.cond, params, ta, fa, 0, Seq::empty());
    assert(c.head == head && c.terminator == term && c.cond == cond);
    assert(c.values.len() == params.len() && params.len() == ta.len() && params.len() == fa.len());
    assert forall|k: int| 0 <= k < params.len() implies #[trigger] c.values[k] == merged(p, cond, ta[k], fa[k]) by {}
    assert(term.0 < n && head.0 < p.blocks.len());
    let s = p.block(head).insts;
    let d = p.detach(head, term);
    let p0 = p.remove(head, term);
    crate::ir::position_is_first(s, term, 0);
    assert(s[s.len() - 1] == term);
    assert(without(s, term) =~= s.drop_last());
    assert(p0.blocks.len() == p.blocks.len() && p0.block(head).insts == s.drop_last() && forall|x: BasicBlock|
        x != head ==> #[trigger] p0.block(x) == p.block(x)) by {
        reveal(ProgramV::set_block_insts);
        reveal(ProgramV::set_inst);
    }
    assert(p0.insts.len() == n && forall|i: int| 0 <= i < n && i != term.0 ==> #[trigger] p0.insts[i] == p.insts[i]) by {
        reveal(ProgramV::set_block_insts);
        reveal(ProgramV::set_inst);
    }
    let p1 = moved_to(p0, c.arm, head, c.move_insts, 0);
    lemma_moved_to(p0, c.arm, head, c.move_insts, 0);
    assert(c.move_insts.skip(0) =~= c.move_insts);
    let (p2, made) = choices_made(p1, head, cond, c.values, 0, Seq::empty());
    lemma_choices(p1, head, cond, c.values, 0, Seq::empty());
    lemma_chosen(p1, head, cond, c.values, 0, Seq::empty(), n);
    assert forall|k: int| 0 <= k < params.len() implies (#[trigger] params[k]).0 < n && p2.op(params[k]) is BlockArgRef && params[k]
        != term by {
        let i = params[k].0 as int;
        assert(p.op(params[k]) is BlockArgRef);
        assert(p2.insts[i] == p1.insts[i] && p1.insts[i] == p0.insts[i]);
    }
    assert forall|k: int| 0 <= k < made.len() implies !params.contains(#[trigger] made[k]) by {
        assert(realizes(p2, cond, c.values[k], made[k]));
        assert(c.values[k] == merged(p, cond, ta[k], fa[k]));
        if params.contains(made[k]) {
            let j = params.index_of(made[k]);
            assert(params[j] == made[k]);
            assert(!params.contains((way(p, head, merge, true)->0).1[k]));
        }
    }
    let r = params_replaced(p2, params, made, 0);
    lemma_replaced_all(p2, params, made, 0);
    let r1 = r.set_block_params(merge, Seq::empty());
    let p3 = r1.erase_all(params, 0);
    assert(r1.insts == r.insts && r1.blocks.len() == r.blocks.len() && r1.block(merge).insts == r.block(merge).insts
        && r1.block(merge).params.len() == 0 && forall|x: BasicBlock| x != merge ==> #[trigger] r1.block(x) == r.block(x))
        by {
        reveal(ProgramV::set_block_params);
    }
    lemma_emptied(r1, params, 0);
    let jump = p3.next_inst();
    let a4 = p3.push_inst(Op::Jump(merge), Seq::empty(), Type::Unit, false);
    let p4 = a4.append(head, jump);
    assert(p3.insts.len() == p2.insts.len());
    lemma_pushed(p3, Op::Jump(merge), Seq::empty(), Type::Unit, head);
    lemma_appended(a4, head, jump);
    lemma_arms_removed(p4, f, c.remove_blocks, 0);
    assert(q == arms_removed(p4, f, c.remove_blocks, 0));
    assert forall|x: BasicBlock| x != head implies #[trigger] p4.block(x) == p3.block(x) by {
        if x.0 < p3.blocks.len() {
            assert(a4.blocks[x.0 as int] == p3.blocks[x.0 as int]);
            assert(p4.blocks[x.0 as int] == a4.blocks[x.0 as int]);
        }
    }
    assert forall|x: BasicBlock| x != head implies #[trigger] p2.block(x) == p1.block(x) by {
        if x.0 < p1.blocks.len() {
            assert(p2.blocks[x.0 as int] == p1.blocks[x.0 as int]);
        }
    }
    assert(p3.block(head) == p2.block(head)) by {
        assert(r1.block(head) == r.block(head));
    }
    let done = s.drop_last();
    let h = q.block(head).insts;
    let h2 = p2.block(head).insts;
    assert(h == h2.push(jump));
    assert(p1.block(head).insts == done + c.move_insts);
    assert forall|k: int| 0 <= k < done.len() + c.move_insts.len() implies #[trigger] h[k] == (done + c.move_insts)[k] by {
        assert(p1.block(head).insts[k] == h2.subrange(0, p1.block(head).insts.len() as int)[k]);
    }
    assert(done =~= h.subrange(0, done.len() as int));
    assert forall|x: BasicBlock, k: int| is_arm(p, head, merge, x) && 0 <= k < p.block(x).insts.len() - 1 implies done.len() + k
        < h.len() && h[done.len() + k] == #[trigger] p.block(x).insts[k] by {
        assert(x == c.arm);
        assert(h[done.len() + k] == (done + c.move_insts)[done.len() + k]);
    }
    assert forall|x: BasicBlock| x != head && x != merge && !is_arm(p, head, merge, x) implies #[trigger] q.block(x)
        == p.block(x) by {
        assert(p4.block(x) == p3.block(x));
        assert(r1.block(x) == r.block(x));
        assert(p2.block(x) == p1.block(x));
        assert(p1.block(x) == p0.block(x));
    }
    assert(q.block(merge).insts == p.block(merge).insts && q.block(merge).params.len() == 0) by {
        assert(p4.block(merge) == p3.block(merge));
        assert(p2.block(merge) == p1.block(merge));
        assert(p1.block(merge) == p0.block(merge));
    }
    assert forall|i: int| 0 <= i < p2.insts.len() && !params.contains(Inst(i as usize)) && !among(
        p4,
        c.remove_blocks,
        Inst(i as usize),
    ) implies #[trigger] q.insts[i] == with_values(p2.insts[i], params, made) by {
        assert(q.insts[i] == p4.insts[i]);
        assert(p4.insts[i] == a4.insts[i]);
        assert(a4.insts[i] == p3.insts[i]);
        assert(p3.insts[i] == r1.insts[i]);
        assert(r.insts[i].args =~= with_values(p2.insts[i], params, made).args) by {
            assert forall|j: int| 0 <= j < p2.insts[i].args.len() implies from_there(params, made, p2.insts[i].args[j], 0)
                == stands_for(params, made, #[trigger] p2.insts[i].args[j]) by {
                let a = p2.insts[i].args[j];
                lemma_from_there(params, made, a, 0);
                if params.contains(a) {
                    assert(params[params.index_of(a)] == a);
                }
            }
        }
    }
    assert forall|i: Inst| #[trigger] among(p4, c.remove_blocks, i) implies exists|x: BasicBlock| #[trigger]
        is_arm(p, head, merge, x) && i == p.terminator(x) by {
        let k = choose|k: int| 0 <= k < c.remove_blocks.len() && p4.block(#[trigger] c.remove_blocks[k]).insts.contains(i);
        let x = c.remove_blocks[k];
        assert(c.remove_blocks.contains(x));
        assert(is_arm(p, head, merge, x));
        assert(x != head);
        assert(p4.block(x) == p3.block(x) && p2.block(x) == p1.block(x));
        assert(r1.block(x) == r.block(x));
        assert(p1.block(x).insts.contains(i));
        let z = p.block(x).insts;
        if x == c.arm {
            assert(p0.block(x).insts.contains(i));
            let j = z.index_of(i);
            assert(z[j] == i);
            if j < z.len() - 1 {
                assert(c.move_insts[j] == i);
            }
        } else {
            assert(p1.block(x) == p0.block(x));
            let j = z.index_of(i);
            assert(z[j] == i);
        }
        assert(i == p.terminator(x));
    }
    assert forall|i: Inst|
        i.0 < n && i != term && !params.contains(i) && (forall|x: BasicBlock| #[trigger]
            is_arm(p, head, merge, x) ==> i != p.terminator(x)) implies #[trigger] q.inst(i) == with_values(
        p.inst(i),
        params,
        made,
    ) by {
        let k = i.0 as int;
        assert(!among(p4, c.remove_blocks, i));
        assert(p2.insts[k] == p1.insts[k] && p1.insts[k] == p0.insts[k]);
        assert(i == Inst(k as usize));
    }
    assert(q.op(jump) == Op::Jump(merge) && q.args(jump).len() == 0) by {
        if among(p4, c.remove_blocks, jump) {
            let x = choose|x: BasicBlock| #[trigger] is_arm(p, head, merge, x) && jump == p.terminator(x);
            assert(p.op(p.terminator(x)) is Jump);
            assert(false);
        }
        assert(q.insts[jump.0 as int] == p4.insts[jump.0 as int]);
    }
    if chooses(q, head, n, e) {
        let taken = (way(p, head, merge, e(cond) != 0)->0).1;
        assert forall|k: int| 0 <= k < made.len() implies e(#[trigger] made[k]) == e(taken[k]) by {
            candidate_merges_what_is_passed(p, f, t, head, e, k);
            let x = made[k];
            let v = c.values[k];
            assert(realizes(p2, cond, v, x));
            assert(is_placed(p2, head, v, x, n));
            assert(v == merged(p, cond, ta[k], fa[k]));
            assert(!params.contains((way(p, head, merge, true)->0).1[k]));
            assert(!params.contains((way(p, head, merge, false)->0).1[k]));
            if !(v is Common) {
                let j = h2.index_of(x);
                assert(h2[j] == x);
                assert(h[j] == x);
                assert(h.contains(x));
                assert(x.0 < p2.insts.len());
                assert(x == Inst(x.0));
                if among(p4, c.remove_blocks, x) {
                    let y = choose|y: BasicBlock| #[trigger] is_arm(p, head, merge, y) && x == p.terminator(y);
                    assert(false);
                }
                assert(q.insts[x.0 as int] == with_values(p2.insts[x.0 as int], params, made));
                let i = p2.insts[x.0 as int];
                assert(q.args(x) =~= i.args) by {
                    assert forall|j: int| 0 <= j < i.args.len() implies stands_for(params, made, #[trigger] i.args[j])
                        == i.args[j] by {}
                }
            }
        }
    }
    made
}

} // verus!
