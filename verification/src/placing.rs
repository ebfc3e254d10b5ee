//! Putting constants in place keeps what a program does.

use vstd::prelude::*;

use crate::guard_elimination::{all_guards_folded, guards_folded, marked, tested};
use crate::ipsccp::{
    all_branches_folded, branches_folded, constant_placed, constants_placed, owner_from,
};
use crate::ir::{BasicBlock, Function, Inst, Op, ProgramV, Type};
use crate::lattice::Lattice;
use crate::values::{
    agrees, all_agree, kept, lemma_kept_is_reflexive, lemma_kept_is_transitive, lemma_literal_added,
    lemma_moved, lemma_remade, lemma_replaced, outcome, typed, values, well_typed, with_value,
};

verus! {

/// `c` may be put in the place of `i`: `i` has that value, and computes an integer or is given one.
pub open spec fn fits(p: ProgramV, env: spec_fn(Inst) -> i32, i: Inst, c: i32) -> bool {
    &&& i.0 < p.insts.len()
    &&& p.ty(i) == Type::I32
    &&& env(i) == c
    &&& match p.op(i) {
        Op::Integer(_) => true,
        Op::Binary(_) => true,
        Op::Select => true,
        Op::Cast => true,
        Op::Load => true,
        Op::Call(_) => true,
        Op::TailCall(_) => true,
        Op::BlockArgRef => true,
        _ => false,
    }
}

/// The constants `lat[from..]` are what `env` holds.
pub open spec fn all_fit(p: ProgramV, env: spec_fn(Inst) -> i32, lat: Seq<Lattice>, from: int) -> bool {
    forall|k: int|
        from <= k < lat.len() && (#[trigger] lat[k]) is Constant ==> fits(p, env, Inst(k as usize), lat[k]->Constant_0)
}

/// `q` has the instructions of `p` but for `i` and new ones, up to operands.
pub open spec fn same_but(p: ProgramV, q: ProgramV, i: Inst) -> bool {
    &&& q.insts.len() >= p.insts.len()
    &&& forall|j: Inst|
        j != i && j.0 < p.insts.len() ==> #[trigger] q.op(j) == p.op(j) && q.ty(j) == p.ty(j)
}

proof fn lemma_one_placed(p: ProgramV, env: spec_fn(Inst) -> i32, i: Inst, c: i32, changed: bool) -> (later: spec_fn(Inst) -> i32)
    requires
        well_typed(p),
        all_agree(p, env),
        fits(p, env, i, c),
        constant_placed(p, i, c, changed).0.insts.len() < usize::MAX,
    ensures
        kept(p, env, constant_placed(p, i, c, changed).0, later),
        same_but(p, constant_placed(p, i, c, changed).0, i),
{
    let r = constant_placed(p, i, c, changed).0;
    if p.op(i) is Call || p.op(i) is TailCall || p.op(i) is BlockArgRef {
        lemma_kept_is_reflexive(p, env);
        if p.is_used(i) {
            let n = p.next_inst();
            let q = p.push_inst(Op::Integer(c), Seq::empty(), Type::I32, false);
            assert(r == q.replace_uses(i, n));
            assert(q.insts.len() == p.insts.len() + 1) by {
                reveal(ProgramV::push_inst);
            }
            assert(r.insts.len() == q.insts.len()) by {
                reveal(ProgramV::replace_uses);
            }
            let later = with_value(env, n, c);
            lemma_literal_added(p, env, c);
            assert(q.inst(i) == p.inst(i));
            lemma_replaced(q, later, i, n);
            lemma_kept_is_transitive(p, env, q, later, r, later);
            assert forall|j: Inst| j != i && j.0 < p.insts.len() implies #[trigger] r.op(j) == p.op(j) && r.ty(j) == p.ty(j) by {
                assert(q.inst(j) == p.inst(j));
                assert(r.op(j) == q.op(j));
                reveal(ProgramV::replace_uses);
            }
            later
        } else {
            env
        }
    } else {
        let none = Seq::<Inst>::empty();
        let q = p.set_inst(i, Op::Integer(c), none, Type::I32);
        assert(q.inst(i).op == Op::Integer(c) && q.inst(i).args == none && q.inst(i).ty == Type::I32) by {
            reveal(ProgramV::set_inst);
        }
        assert(q.args(i).len() == 0);
        lemma_remade(p, env, i, Op::Integer(c), none, Type::I32);
        assert(forall|j: Inst| j != i ==> #[trigger] q.inst(j) == p.inst(j)) by {
            reveal(ProgramV::set_inst);
        }
        if let Some((_, b)) = owner_from(q, q.layout, i, 0) {
            assert(r.insts == q.insts) by {
                reveal(ProgramV::set_block_insts);
            }
            lemma_moved(q, r, env);
            lemma_kept_is_transitive(p, env, q, env, r, env);
            assert(forall|j: Inst| #[trigger] r.inst(j) == q.inst(j));
        }
        assert forall|j: Inst| j != i && j.0 < p.insts.len() implies #[trigger] r.op(j) == p.op(j) && r.ty(j) == p.ty(j) by {
            assert(q.inst(j) == p.inst(j));
            assert(r.inst(j) == q.inst(j));
        }
        env
    }
}

proof fn lemma_placed_grows(p: ProgramV, i: Inst, c: i32, changed: bool)
    ensures
        constant_placed(p, i, c, changed).0.insts.len() >= p.insts.len(),
{
    reveal(ProgramV::push_inst);
    reveal(ProgramV::replace_uses);
    reveal(ProgramV::set_inst);
    reveal(ProgramV::set_block_insts);
}

proof fn lemma_all_grow(p: ProgramV, lat: Seq<Lattice>, from: int, changed: bool)
    ensures
        constants_placed(p, lat, from, changed).0.insts.len() >= p.insts.len(),
    decreases lat.len() - from,
{
    if from < lat.len() {
        match lat[from] {
            Lattice::Constant(c) => {
                let (q, now) = constant_placed(p, Inst(from as usize), c, changed);
                lemma_placed_grows(p, Inst(from as usize), c, changed);
                lemma_all_grow(q, lat, from + 1, now);
            },
            _ => lemma_all_grow(p, lat, from + 1, changed),
        }
    }
}

/// Constants put in the place of values that have them leave every value and everything that the program
/// does as it was.
pub proof fn placing_constants_keeps_values(
    p: ProgramV,
    env: spec_fn(Inst) -> i32,
    lat: Seq<Lattice>,
    from: int,
    changed: bool,
) -> (later: spec_fn(Inst) -> i32)
    requires
        well_typed(p),
        all_agree(p, env),
        0 <= from,
        lat.len() <= p.insts.len(),
        all_fit(p, env, lat, from),
        constants_placed(p, lat, from, changed).0.insts.len() < usize::MAX,
    ensures
        kept(p, env, constants_placed(p, lat, from, changed).0, later),
    decreases lat.len() - from,
{
    if from >= lat.len() {
        lemma_kept_is_reflexive(p, env);
        env
    } else {
        match lat[from] {
            Lattice::Constant(c) => {
                let i = Inst(from as usize);
                let (q, now) = constant_placed(p, i, c, changed);
                lemma_all_grow(q, lat, from + 1, now);
                assert(lat[from] is Constant);
                let mid = lemma_one_placed(p, env, i, c, changed);
                assert(all_fit(q, mid, lat, from + 1)) by {
                    assert forall|k: int| from + 1 <= k < lat.len() && (#[trigger] lat[k]) is Constant implies fits(
                        q,
                        mid,
                        Inst(k as usize),
                        lat[k]->Constant_0,
                    ) by {
                        let j = Inst(k as usize);
                        assert(fits(p, env, j, lat[k]->Constant_0));
                        assert(j != i);
                        assert(q.op(j) == p.op(j));
                        assert(mid(j) == env(j));
                    }
                }
                let later = placing_constants_keeps_values(q, mid, lat, from + 1, now);
                lemma_kept_is_transitive(p, env, q, mid, constants_placed(q, lat, from + 1, now).0, later);
                later
            },
            _ => placing_constants_keeps_values(p, env, lat, from + 1, changed),
        }
    }
}

/// A branch whose outcome is known made a jump there.
proof fn lemma_made_jump(p: ProgramV, env: spec_fn(Inst) -> i32, t: Inst, b: BasicBlock, args: Seq<Inst>)
    requires
        well_typed(p),
        all_agree(p, env),
        p.op(t) is Branch,
        outcome(p, env, t) == (b, values(env, args)),
        args == p.t_args(t) || args == p.f_args(t),
    ensures
        kept(p, env, p.set_inst(t, Op::Jump(b), args, Type::Unit), env),
{
    let q = p.set_inst(t, Op::Jump(b), args, Type::Unit);
    assert(typed(p, t));
    let n = p.op(t)->Branch_2;
    assert(q.inst(t).op == Op::Jump(b) && q.inst(t).args == args && q.inst(t).ty == Type::Unit && q.insts.len()
        == p.insts.len()) by {
        reveal(ProgramV::set_inst);
    }
    assert forall|k: int| 0 <= k < q.args(t).len() implies (#[trigger] q.args(t)[k]).0 < q.insts.len() by {
        if args == p.t_args(t) {
            assert(args[k] == p.args(t)[k + 1]);
        } else {
            assert(args[k] == p.args(t)[k + n + 1]);
        }
    }
    lemma_remade(p, env, t, Op::Jump(b), args, Type::Unit);
}

/// Branches on literals made jumps leave everything that the program does as it was.
pub proof fn folding_branches_keeps_values(
    p: ProgramV,
    env: spec_fn(Inst) -> i32,
    blocks: Seq<BasicBlock>,
    from: int,
    changed: bool,
)
    requires
        well_typed(p),
        all_agree(p, env),
        0 <= from,
    ensures
        kept(p, env, branches_folded(p, blocks, from, changed).0, env),
    decreases blocks.len() - from,
{
    lemma_kept_is_reflexive(p, env);
    if from < blocks.len() {
        let t = p.terminator(blocks[from]);
        match (p.op(t), p.op(p.arg(t, 0))) {
            (Op::Branch(a, b, _), Op::Integer(k)) => {
                assert(agrees(p, env, p.arg(t, 0)));
                let (target, args) = if k == 0 {
                    (b, p.f_args(t))
                } else {
                    (a, p.t_args(t))
                };
                lemma_made_jump(p, env, t, target, args);
                let q = p.set_inst(t, Op::Jump(target), args, Type::Unit);
                folding_branches_keeps_values(q, env, blocks, from + 1, true);
                lemma_kept_is_transitive(p, env, q, env, branches_folded(q, blocks, from + 1, true).0, env);
            },
            _ => {
                folding_branches_keeps_values(p, env, blocks, from + 1, changed);
            },
        }
    }
}

/// The same in all functions.
pub proof fn folding_all_branches_keeps_values(
    p: ProgramV,
    env: spec_fn(Inst) -> i32,
    layout: Seq<Function>,
    from: int,
    changed: bool,
)
    requires
        well_typed(p),
        all_agree(p, env),
        0 <= from,
    ensures
        kept(p, env, all_branches_folded(p, layout, from, changed).0, env),
    decreases layout.len() - from,
{
    lemma_kept_is_reflexive(p, env);
    if from < layout.len() {
        let blocks = p.func(layout[from]).blocks;
        let (q, here) = branches_folded(p, blocks, 0, changed);
        folding_branches_keeps_values(p, env, blocks, 0, changed);
        folding_all_branches_keeps_values(q, env, layout, from + 1, here);
        lemma_kept_is_transitive(p, env, q, env, all_branches_folded(q, layout, from + 1, here).0, env);
    }
}

/// Tests of values that are marked and not negative made jumps leave everything that the program does as it
/// was.
proof fn lemma_guards(
    p: ProgramV,
    env: spec_fn(Inst) -> i32,
    marks: Seq<bool>,
    blocks: Seq<BasicBlock>,
    from: int,
    changed: bool,
)
    requires
        well_typed(p),
        all_agree(p, env),
        0 <= from,
        forall|x: Inst| #[trigger] marked(marks, x) ==> p.ty(x) is I32 && env(x) >= 0 && x.0 < p.insts.len(),
    ensures
        kept(p, env, guards_folded(p, marks, blocks, from, changed).0, env),
        forall|x: Inst| #[trigger] guards_folded(p, marks, blocks, from, changed).0.ty(x) == p.ty(x),
    decreases blocks.len() - from,
{
    lemma_kept_is_reflexive(p, env);
    if from < blocks.len() {
        let t = p.terminator(blocks[from]);
        match tested(p, t) {
            Some(x) => if marked(marks, x) {
                let c = p.arg(t, 0);
                assert(agrees(p, env, c));
                assert(agrees(p, env, p.arg(c, 1)));
                let target = p.op(t)->Branch_1;
                let args = p.f_args(t);
                lemma_made_jump(p, env, t, target, args);
                let q = p.set_inst(t, Op::Jump(target), args, Type::Unit);
                assert forall|y: Inst| #[trigger] q.ty(y) == p.ty(y) by {
                    assert(typed(p, t));
                    reveal(ProgramV::set_inst);
                }
                lemma_guards(q, env, marks, blocks, from + 1, true);
                lemma_kept_is_transitive(p, env, q, env, guards_folded(q, marks, blocks, from + 1, true).0, env);
            } else {
                lemma_guards(p, env, marks, blocks, from + 1, changed);
            },
            None => {
                lemma_guards(p, env, marks, blocks, from + 1, changed);
            },
        }
    }
}

/// Where the marked values are integers and not negative, folding tests for negative values leaves every value
/// and everything that the program does as it was.
pub proof fn folding_guards_keeps_values(
    p: ProgramV,
    env: spec_fn(Inst) -> i32,
    marks: Seq<bool>,
    layout: Seq<Function>,
    from: int,
    changed: bool,
)
    requires
        well_typed(p),
        all_agree(p, env),
        0 <= from,
        forall|x: Inst| #[trigger] marked(marks, x) ==> p.ty(x) is I32 && env(x) >= 0 && x.0 < p.insts.len(),
    ensures
        kept(p, env, all_guards_folded(p, marks, layout, from, changed).0, env),
    decreases layout.len() - from,
{
    lemma_kept_is_reflexive(p, env);
    if from < layout.len() {
        let blocks = p.func(layout[from]).blocks;
        let (q, here) = guards_folded(p, marks, blocks, 0, changed);
        lemma_guards(p, env, marks, blocks, 0, changed);
        folding_guards_keeps_values(q, env, marks, layout, from + 1, here);
        lemma_kept_is_transitive(p, env, q, env, all_guards_folded(q, marks, layout, from + 1, here).0, env);
    }
}

} // verus!
