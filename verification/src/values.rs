//! What the values of a program satisfy, and what a rewriting that keeps them keeps.
//!
//! The values that a run has at hand are a map from instructions to numbers. Each instruction that
//! computes one from others relates them; the rest of the instructions act on them.

use vstd::prelude::*;

use crate::arith::{defined, int_op};
use crate::ir::{nothing, BasicBlock, Inst, Op, ProgramV, Type};

verus! {

/// The values `env` satisfy what instruction `i` computes.
pub open spec fn agrees(p: ProgramV, env: spec_fn(Inst) -> i32, i: Inst) -> bool {
    match p.op(i) {
        Op::Integer(k) => env(i) == k,
        Op::Binary(op) => if p.ty(p.arg(i, 0)) is I32 {
            defined(op, env(p.arg(i, 1))) ==> env(i) == int_op(op, env(p.arg(i, 0)), env(p.arg(i, 1)))
        } else {
            op.compares() ==> env(i) == 0 || env(i) == 1
        },
        Op::Select => env(i) == if env(p.arg(i, 0)) != 0 {
            env(p.arg(i, 1))
        } else {
            env(p.arg(i, 2))
        },
        _ => true,
    }
}

pub open spec fn all_agree(p: ProgramV, env: spec_fn(Inst) -> i32) -> bool {
    forall|i: Inst| #[trigger] agrees(p, env, i)
}

/// Instruction `i` has operands that exist, and the type of what it computes.
pub open spec fn typed(p: ProgramV, i: Inst) -> bool {
    &&& forall|k: int| 0 <= k < p.args(i).len() ==> (#[trigger] p.args(i)[k]).0 < p.insts.len()
    &&& match p.op(i) {
        Op::Integer(_) => p.ty(i) is I32,
        Op::Binary(op) => p.args(i).len() == 2 && (op.compares() ==> p.ty(i) is I32),
        Op::Select => p.args(i).len() == 3 && p.ty(p.arg(i, 1)) == p.ty(i) && p.ty(p.arg(i, 2)) == p.ty(i),
        Op::Branch(_, _, n) => n < p.args(i).len() <= usize::MAX && p.ty(i) is Unit,
        _ => true,
    }
}

pub open spec fn well_typed(p: ProgramV) -> bool {
    p.insts.len() < usize::MAX && forall|i: Inst| #[trigger] typed(p, i)
}

pub open spec fn values(env: spec_fn(Inst) -> i32, list: Seq<Inst>) -> Seq<i32> {
    Seq::new(list.len(), |k: int| env(list[k]))
}

/// Where branch `i` goes, and the values it passes.
pub open spec fn outcome(p: ProgramV, env: spec_fn(Inst) -> i32, i: Inst) -> (BasicBlock, Seq<i32>) {
    if env(p.arg(i, 0)) != 0 {
        (p.op(i)->Branch_0, values(env, p.t_args(i)))
    } else {
        (p.op(i)->Branch_1, values(env, p.f_args(i)))
    }
}

/// Where transfer `t` leads, and the values it passes.
pub open spec fn leads(p: ProgramV, env: spec_fn(Inst) -> i32, t: Inst) -> Option<(BasicBlock, Seq<i32>)> {
    match p.op(t) {
        Op::Jump(b) => Some((b, values(env, p.args(t)))),
        Op::Branch(_, _, _) => Some(outcome(p, env, t)),
        _ => None,
    }
}

/// Instruction `i` of `p` does in `q` what it did: a transfer leads the same way with the same values, any
/// other acts on the same values. What those that only compute give is bound by `agrees`.
pub open spec fn acts_alike(
    p: ProgramV,
    env: spec_fn(Inst) -> i32,
    q: ProgramV,
    later: spec_fn(Inst) -> i32,
    i: Inst,
) -> bool {
    match p.op(i) {
        Op::Integer(_) => true,
        Op::Binary(_) => true,
        Op::Select => true,
        Op::Cast => true,
        Op::Load => true,
        Op::Branch(_, _, _) => leads(q, later, i) == leads(p, env, i),
        Op::Jump(_) => leads(q, later, i) == leads(p, env, i),
        _ => q.op(i) == p.op(i) && values(later, q.args(i)) == values(env, p.args(i)),
    }
}

/// `q` with the values `later` computes and does what `p` did with `env`, and possibly more.
pub open spec fn kept(p: ProgramV, env: spec_fn(Inst) -> i32, q: ProgramV, later: spec_fn(Inst) -> i32) -> bool {
    &&& well_typed(q)
    &&& all_agree(q, later)
    &&& q.insts.len() >= p.insts.len()
    &&& later(nothing()) == env(nothing())
    &&& forall|i: Inst| i.0 < p.insts.len() ==> #[trigger] later(i) == env(i)
    &&& forall|i: Inst| i.0 < p.insts.len() ==> #[trigger] acts_alike(p, env, q, later, i)
}

pub(crate) proof fn lemma_kept_is_transitive(
    p: ProgramV,
    env: spec_fn(Inst) -> i32,
    q: ProgramV,
    later: spec_fn(Inst) -> i32,
    r: ProgramV,
    last: spec_fn(Inst) -> i32,
)
    requires
        kept(p, env, q, later),
        kept(q, later, r, last),
    ensures
        kept(p, env, r, last),
{
    assert forall|i: Inst| i.0 < p.insts.len() implies #[trigger] last(i) == env(i) by {
        assert(later(i) == env(i));
    }
    assert forall|i: Inst| i.0 < p.insts.len() implies #[trigger] acts_alike(p, env, r, last, i) by {
        assert(acts_alike(p, env, q, later, i));
        assert(acts_alike(q, later, r, last, i));
    }
}

pub(crate) proof fn lemma_kept_is_reflexive(p: ProgramV, env: spec_fn(Inst) -> i32)
    requires
        well_typed(p),
        all_agree(p, env),
    ensures
        kept(p, env, p, env),
{
}

pub(crate) proof fn lemma_replaced_args(p: ProgramV, i: Inst, v: Inst, j: Inst)
    ensures
        p.replace_uses(i, v).op(j) == p.op(j),
        p.replace_uses(i, v).args(j).len() == p.args(j).len(),
        forall|k: int| 0 <= k < p.args(j).len() ==> #[trigger] p.replace_uses(i, v).args(j)[k] == (if p.args(j)[k] == i {
            v
        } else {
            p.args(j)[k]
        }),
{
    reveal(ProgramV::replace_uses);
    if j.0 < p.insts.len() {
        assert(p.replace_uses(i, v).insts[j.0 as int] == p.insts[j.0 as int].replaced(i, v));
    }
}

/// Uses of `i` made uses of a value that is the same keep what a program does.
pub(crate) proof fn lemma_replaced(p: ProgramV, env: spec_fn(Inst) -> i32, i: Inst, v: Inst)
    requires
        well_typed(p),
        all_agree(p, env),
        env(i) == env(v),
        p.ty(i) == p.ty(v),
        i.0 < p.insts.len(),
        v.0 < p.insts.len(),
    ensures
        kept(p, env, p.replace_uses(i, v), env),
        forall|j: Inst| #[trigger] p.replace_uses(i, v).op(j) == p.op(j),
{
    let q = p.replace_uses(i, v);
    reveal(ProgramV::replace_uses);
    assert forall|j: Inst|
        q.op(j) == p.op(j) && q.ty(j) == p.ty(j) && q.args(j).len() == p.args(j).len() && (forall|k: int|
            0 <= k < p.args(j).len() ==> #[trigger] q.args(j)[k] == (if p.args(j)[k] == i {
                v
            } else {
                p.args(j)[k]
            })) by {
        if j.0 < p.insts.len() {
            assert(q.insts[j.0 as int] == p.insts[j.0 as int].replaced(i, v));
        }
    }
    assert forall|j: Inst| #[trigger] typed(q, j) by {
        assert(typed(p, j));
        assert forall|k: int| 0 <= k < q.args(j).len() implies (#[trigger] q.args(j)[k]).0 < q.insts.len() by {
            assert(p.args(j)[k].0 < p.insts.len());
        }
    }
    assert forall|j: Inst| #[trigger] agrees(q, env, j) by {
        assert(agrees(p, env, j));
    }
    assert forall|j: Inst| j.0 < p.insts.len() implies #[trigger] acts_alike(p, env, q, env, j) by {
        assert(values(env, q.args(j)) =~= values(env, p.args(j)));
        assert(values(env, q.t_args(j)) =~= values(env, p.t_args(j)));
        assert(values(env, q.f_args(j)) =~= values(env, p.f_args(j)));
    }
}

/// Instructions that only stand elsewhere keep what a program does.
pub(crate) proof fn lemma_moved(p: ProgramV, q: ProgramV, env: spec_fn(Inst) -> i32)
    requires
        well_typed(p),
        all_agree(p, env),
        q.insts == p.insts,
    ensures
        kept(p, env, q, env),
{
    assert forall|i: Inst| #[trigger] q.inst(i) == p.inst(i) by {}
    assert forall|i: Inst| #[trigger] typed(q, i) by {
        assert(typed(p, i));
        assert(q.inst(i) == p.inst(i));
        assert(q.inst(p.arg(i, 1)) == p.inst(p.arg(i, 1)));
        assert(q.inst(p.arg(i, 2)) == p.inst(p.arg(i, 2)));
        assert(q.args(i) == p.args(i));
    }
    assert forall|i: Inst| #[trigger] agrees(q, env, i) by {
        assert(agrees(p, env, i));
        assert(q.inst(i) == p.inst(i));
        assert(q.inst(p.arg(i, 0)) == p.inst(p.arg(i, 0)));
    }
    assert forall|i: Inst| i.0 < p.insts.len() implies #[trigger] acts_alike(p, env, q, env, i) by {
        assert(q.inst(i) == p.inst(i));
    }
}

/// An instruction that only computes emptied keeps what a program does.
pub(crate) proof fn lemma_emptied(p: ProgramV, env: spec_fn(Inst) -> i32, i: Inst)
    requires
        well_typed(p),
        all_agree(p, env),
        p.op(i) is Binary || p.op(i) is Select,
        !p.is_used(i),
    ensures
        kept(p, env, p.erase(i), env),
{
    let q = p.erase(i);
    reveal(ProgramV::set_inst);
    assert forall|j: Inst| j != i implies #[trigger] q.inst(j) == p.inst(j) by {}
    assert forall|j: Inst, k: int| 0 <= k < p.args(j).len() implies #[trigger] p.args(j)[k] != i by {
        assert(j.0 < p.insts.len());
        assert(p.insts[j.0 as int].args == p.args(j));
        assert(p.insts[j.0 as int].args.contains(p.args(j)[k]));
    }
    assert forall|j: Inst, k: int| #[trigger] p.arg(j, k) != i by {
        if 0 <= k < p.args(j).len() {
            assert(p.args(j)[k] != i);
        }
    }
    assert forall|j: Inst| #[trigger] typed(q, j) by {
        assert(typed(p, j));
        if j != i {
            assert(q.inst(j) == p.inst(j));
            assert(p.arg(j, 1) != i && p.arg(j, 2) != i);
            assert(q.inst(p.arg(j, 1)) == p.inst(p.arg(j, 1)));
            assert(q.inst(p.arg(j, 2)) == p.inst(p.arg(j, 2)));
            assert(q.args(j) == p.args(j) && q.op(j) == p.op(j) && q.ty(j) == p.ty(j));
            assert(q.arg(j, 1) == p.arg(j, 1) && q.arg(j, 2) == p.arg(j, 2));
            assert(q.insts.len() == p.insts.len());
            assert forall|k: int| 0 <= k < q.args(j).len() implies (#[trigger] q.args(j)[k]).0 < q.insts.len() by {
                assert(p.args(j)[k].0 < p.insts.len());
            }
            assert(typed(q, j));
        } else {
            assert(q.op(j) is Removed);
            assert(q.args(j).len() == 0);
            assert(typed(q, j));
        }
    }
    assert forall|j: Inst| #[trigger] agrees(q, env, j) by {
        assert(agrees(p, env, j));
    }
}

/// An instruction remade with the same type, so that it computes or does the same, keeps what a program
/// does.
pub(crate) proof fn lemma_remade(p: ProgramV, env: spec_fn(Inst) -> i32, i: Inst, op: Op, args: Seq<Inst>, ty: Type)
    requires
        well_typed(p),
        all_agree(p, env),
        i.0 < p.insts.len(),
        ty == p.ty(i),
        typed(p.set_inst(i, op, args, ty), i),
        agrees(p.set_inst(i, op, args, ty), env, i),
        acts_alike(p, env, p.set_inst(i, op, args, ty), env, i),
    ensures
        kept(p, env, p.set_inst(i, op, args, ty), env),
{
    let q = p.set_inst(i, op, args, ty);
    reveal(ProgramV::set_inst);
    assert(q.insts.len() == p.insts.len());
    assert forall|j: Inst| #[trigger] q.ty(j) == p.ty(j) by {}
    assert forall|j: Inst| j != i implies #[trigger] q.inst(j) == p.inst(j) by {}
    assert forall|j: Inst| #[trigger] typed(q, j) by {
        if j != i {
            assert(typed(p, j));
            assert(q.inst(j) == p.inst(j));
            assert(q.args(j) == p.args(j));
            assert forall|k: int| 0 <= k < q.args(j).len() implies (#[trigger] q.args(j)[k]).0 < q.insts.len() by {
                assert(p.args(j)[k].0 < p.insts.len());
            }
            assert(q.ty(q.arg(j, 1)) == p.ty(p.arg(j, 1)));
            assert(q.ty(q.arg(j, 2)) == p.ty(p.arg(j, 2)));
        }
    }
    assert forall|j: Inst| #[trigger] agrees(q, env, j) by {
        if j != i {
            assert(agrees(p, env, j));
            assert(q.inst(j) == p.inst(j));
            assert(q.ty(q.arg(j, 0)) == p.ty(p.arg(j, 0)));
        }
    }
    assert forall|j: Inst| j.0 < p.insts.len() implies #[trigger] acts_alike(p, env, q, env, j) by {
        if j != i {
            assert(q.inst(j) == p.inst(j));
        }
    }
}

/// The values `env` with that of instruction `i` made `x`.
pub open spec fn with_value(env: spec_fn(Inst) -> i32, i: Inst, x: i32) -> spec_fn(Inst) -> i32 {
    |j: Inst|
        if j == i {
            x
        } else {
            env(j)
        }
}

/// A new literal, with its value, keeps what a program does.
pub(crate) proof fn lemma_literal_added(p: ProgramV, env: spec_fn(Inst) -> i32, k: i32)
    requires
        well_typed(p),
        all_agree(p, env),
        p.insts.len() + 1 < usize::MAX,
    ensures
        ({
            let q = p.push_inst(Op::Integer(k), Seq::empty(), Type::I32, false);
            let later = with_value(env, p.next_inst(), k);
            &&& kept(p, env, q, later)
            &&& q.op(p.next_inst()) == Op::Integer(k)
            &&& q.ty(p.next_inst()) == Type::I32
            &&& q.insts.len() == p.insts.len() + 1
            &&& forall|j: Inst| j != p.next_inst() ==> #[trigger] q.inst(j) == p.inst(j)
        }),
{
    let q = p.push_inst(Op::Integer(k), Seq::empty(), Type::I32, false);
    let n = p.next_inst();
    let later = with_value(env, n, k);
    reveal(ProgramV::push_inst);
    assert(n.0 == p.insts.len());
    assert forall|j: Inst| j != n implies #[trigger] q.inst(j) == p.inst(j) by {}
    assert forall|j: Inst, m: int| j != n implies #[trigger] p.arg(j, m) != n by {
        assert(typed(p, j));
        if 0 <= m < p.args(j).len() {
            assert(p.args(j)[m].0 < p.insts.len());
        }
    }
    assert forall|j: Inst| #[trigger] typed(q, j) by {
        if j != n {
            assert(typed(p, j));
            assert(q.inst(j) == p.inst(j));
            assert(q.args(j) == p.args(j));
            assert forall|m: int| 0 <= m < q.args(j).len() implies (#[trigger] q.args(j)[m]).0 < q.insts.len() by {
                assert(p.args(j)[m].0 < p.insts.len());
            }
            assert(p.arg(j, 1) != n && p.arg(j, 2) != n);
            assert(q.inst(p.arg(j, 1)) == p.inst(p.arg(j, 1)));
            assert(q.inst(p.arg(j, 2)) == p.inst(p.arg(j, 2)));
        } else {
            assert(q.args(j).len() == 0);
        }
    }
    assert forall|j: Inst| #[trigger] agrees(q, later, j) by {
        if j != n {
            assert(agrees(p, env, j));
            assert(q.inst(j) == p.inst(j));
            assert(p.arg(j, 0) != n && p.arg(j, 1) != n && p.arg(j, 2) != n);
            assert(q.inst(p.arg(j, 0)) == p.inst(p.arg(j, 0)));
        }
    }
    assert forall|j: Inst| j.0 < p.insts.len() implies #[trigger] acts_alike(p, env, q, later, j) by {
        assert(q.inst(j) == p.inst(j));
        assert(typed(p, j));
        assert(p.arg(j, 0) != n);
        assert forall|m: int| 0 <= m < p.args(j).len() implies later(#[trigger] p.args(j)[m]) == env(p.args(j)[m]) by {
            assert(p.args(j)[m].0 < p.insts.len());
        }
        assert(values(later, q.args(j)) =~= values(env, p.args(j)));
        assert(values(later, q.t_args(j)) =~= values(env, p.t_args(j)));
        assert(values(later, q.f_args(j)) =~= values(env, p.f_args(j)));
    }
}

} // verus!
