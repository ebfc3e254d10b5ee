//! Control edges as single things: a branch has two, which may lead to the same block.

use vstd::prelude::*;

use crate::ir::{BasicBlock, Inst, Op, ProgramV, Type};
use crate::program::{branch_args, Program};

verus! {

/// Which edge of a transfer.
#[derive(Clone, Copy, Debug, PartialEq, Eq, Structural)]
pub enum EdgeArm {
    Jump,
    True,
    False,
}

#[derive(Clone, Copy, Debug, PartialEq, Eq, Structural)]
pub struct Edge {
    pub from: BasicBlock,
    pub terminator: Inst,
    pub arm: EdgeArm,
}

/// The arguments that `e` passes.
pub open spec fn edge_args(p: ProgramV, e: Edge) -> Seq<Inst> {
    match e.arm {
        EdgeArm::Jump => p.args(e.terminator),
        EdgeArm::True => p.t_args(e.terminator),
        EdgeArm::False => p.f_args(e.terminator),
    }
}

/// The edges to `b` of the blocks `order[from..]`, behind `found`.
pub open spec fn incoming_from(p: ProgramV, order: Seq<BasicBlock>, b: BasicBlock, from: int, found: Seq<Edge>) -> Seq<Edge>
    decreases order.len() - from,
{
    if from >= order.len() {
        found
    } else {
        let t = p.terminator(order[from]);
        let next = match p.op(t) {
            Op::Jump(x) => if x == b {
                found.push(Edge { from: order[from], terminator: t, arm: EdgeArm::Jump })
            } else {
                found
            },
            Op::Branch(x, y, _) => {
                let one = if x == b {
                    found.push(Edge { from: order[from], terminator: t, arm: EdgeArm::True })
                } else {
                    found
                };
                if y == b {
                    one.push(Edge { from: order[from], terminator: t, arm: EdgeArm::False })
                } else {
                    one
                }
            },
            _ => found,
        };
        incoming_from(p, order, b, from + 1, next)
    }
}

/// The edges to `b`.
pub open spec fn incoming(p: ProgramV, order: Seq<BasicBlock>, b: BasicBlock) -> Seq<Edge> {
    incoming_from(p, order, b, 0, Seq::empty())
}

/// Edge `e` made to lead to `target` with arguments `args`.
pub open spec fn redirected(p: ProgramV, e: Edge, target: BasicBlock, args: Seq<Inst>) -> ProgramV {
    let t = e.terminator;
    match (e.arm, p.op(t)) {
        (EdgeArm::Jump, Op::Jump(_)) => p.set_inst(t, Op::Jump(target), args, Type::Unit),
        (EdgeArm::True, Op::Branch(_, y, _)) => p.set_inst(
            t,
            Op::Branch(target, y, args.len() as usize),
            seq![p.arg(t, 0)] + args + p.f_args(t),
            Type::Unit,
        ),
        (EdgeArm::False, Op::Branch(x, _, _)) => p.set_inst(
            t,
            Op::Branch(x, target, p.t_args(t).len() as usize),
            seq![p.arg(t, 0)] + p.t_args(t) + args,
            Type::Unit,
        ),
        _ => p,
    }
}

/// The block that `e` leads to.
pub open spec fn edge_target(p: ProgramV, e: Edge) -> Option<BasicBlock> {
    match (e.arm, p.op(e.terminator)) {
        (EdgeArm::Jump, Op::Jump(x)) => Some(x),
        (EdgeArm::True, Op::Branch(x, _, _)) => Some(x),
        (EdgeArm::False, Op::Branch(_, y, _)) => Some(y),
        _ => None,
    }
}

/// Edge `e` made to pass `v` as well, behind what it passes.
pub open spec fn arg_appended(p: ProgramV, e: Edge, v: Inst) -> ProgramV {
    match edge_target(p, e) {
        Some(b) => redirected(p, e, b, edge_args(p, e).push(v)),
        None => p,
    }
}

impl Edge {
    pub fn args(&self, p: &Program) -> (r: Vec<Inst>)
        ensures
            r@ == edge_args(p@, *self),
    {
        match self.arm {
            EdgeArm::Jump => p.args(self.terminator),
            EdgeArm::True => p.t_args(self.terminator),
            EdgeArm::False => p.f_args(self.terminator),
        }
    }

    pub fn target(&self, p: &Program) -> (r: Option<BasicBlock>)
        ensures
            r == edge_target(p@, *self),
    {
        match (self.arm, p.op(self.terminator)) {
            (EdgeArm::Jump, Op::Jump(x)) => Some(x),
            (EdgeArm::True, Op::Branch(x, _, _)) => Some(x),
            (EdgeArm::False, Op::Branch(_, y, _)) => Some(y),
            _ => None,
        }
    }

    /// Leads this edge to `target` with arguments `args`.
    pub fn retarget(&self, p: &mut Program, target: BasicBlock, args: Vec<Inst>)
        ensures
            final(p)@ == redirected(old(p)@, *self, target, args@),
    {
        let t = self.terminator;
        match (self.arm, p.op(t)) {
            (EdgeArm::Jump, Op::Jump(_)) => {
                p.set_inst(t, Op::Jump(target), args, Type::Unit);
            },
            (EdgeArm::True, Op::Branch(_, y, _)) => {
                let cond = p.arg(t, 0);
                let others = p.f_args(t);
                let n: usize = args.len();
                let all = branch_args(cond, &args, &others);
                p.set_inst(t, Op::Branch(target, y, n), all, Type::Unit);
            },
            (EdgeArm::False, Op::Branch(x, _, _)) => {
                let cond = p.arg(t, 0);
                let others = p.t_args(t);
                let n: usize = others.len();
                let all = branch_args(cond, &others, &args);
                p.set_inst(t, Op::Branch(x, target, n), all, Type::Unit);
            },
            _ => {},
        }
    }

    /// Makes this edge pass `v` as well.
    pub fn append_arg(&self, p: &mut Program, v: Inst)
        ensures
            final(p)@ == arg_appended(old(p)@, *self, v),
    {
        if let Some(b) = self.target(p) {
            let mut args = self.args(p);
            args.push(v);
            self.retarget(p, b, args);
        }
    }
}

/// The edges to `b` of the blocks `order`.
pub fn incoming_edges(p: &Program, order: &Vec<BasicBlock>, b: BasicBlock) -> (r: Vec<Edge>)
    ensures
        r@ == incoming(p@, order@, b),
{
    let mut r: Vec<Edge> = Vec::new();
    assert(r@ =~= Seq::empty());
    let mut k: usize = 0;
    while k < order.len()
        invariant
            k <= order@.len(),
            incoming_from(p@, order@, b, 0, Seq::empty()) == incoming_from(p@, order@, b, k as int, r@),
        decreases order@.len() - k,
    {
        let t = p.terminator(order[k]);
        match p.op(t) {
            Op::Jump(x) => {
                if x == b {
                    r.push(Edge { from: order[k], terminator: t, arm: EdgeArm::Jump });
                }
            },
            Op::Branch(x, y, _) => {
                if x == b {
                    r.push(Edge { from: order[k], terminator: t, arm: EdgeArm::True });
                }
                if y == b {
                    r.push(Edge { from: order[k], terminator: t, arm: EdgeArm::False });
                }
            },
            _ => {},
        }
        k += 1;
    }
    r
}

/// After an edge was made to pass one value more, it passes that value last, leads where it led, and
/// the other edge of its branch is as it was.
pub proof fn appending_is_local(p: ProgramV, e: Edge, v: Inst)
    requires
        e.terminator.0 < p.insts.len(),
        edge_target(p, e) is Some,
        p.op(e.terminator) is Branch ==> p.op(e.terminator)->Branch_2 + 1 <= p.args(e.terminator).len()
            < usize::MAX,
    ensures
        ({
            let q = arg_appended(p, e, v);
            &&& edge_args(q, e) == edge_args(p, e).push(v)
            &&& edge_target(q, e) == edge_target(p, e)
            &&& e.arm is True ==> edge_args(q, Edge { arm: EdgeArm::False, ..e }) == edge_args(
                p,
                Edge { arm: EdgeArm::False, ..e },
            )
            &&& e.arm is False ==> edge_args(q, Edge { arm: EdgeArm::True, ..e }) == edge_args(
                p,
                Edge { arm: EdgeArm::True, ..e },
            )
        }),
{
    reveal(ProgramV::set_inst);
    let q = arg_appended(p, e, v);
    let t = e.terminator;
    match p.op(t) {
        Op::Branch(_, _, n) => {
            let ta = p.t_args(t);
            let fa = p.f_args(t);
            if e.arm is True {
                assert(q.args(t) == seq![p.arg(t, 0)] + ta.push(v) + fa);
                assert(q.t_args(t) =~= ta.push(v));
                assert(q.f_args(t) =~= fa);
            } else {
                assert(q.args(t) == seq![p.arg(t, 0)] + ta + fa.push(v));
                assert(q.t_args(t) =~= ta);
                assert(q.f_args(t) =~= fa.push(v));
            }
        },
        _ => {},
    }
}

} // verus!
