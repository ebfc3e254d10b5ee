//! The call that is chosen to be replaced fits what replaces it.

use vstd::prelude::*;

use crate::effects::{calls_are_followed, comes_to, may_run};
use crate::inline::{args_match, open_call, site_of, Site};
use crate::ipsccp::sites;
use crate::ir::{Function, Inst, Op, ProgramV, Type};
use crate::program_order::Node;

verus! {

proof fn lemma_open(p: ProgramV, callee: Function, calls: Seq<Node>, from: int)
    requires
        0 <= from,
    ensures
        open_call(p, callee, calls, from) matches Some(n) ==> n.func != callee && n.func.0 < p.funcs.len() && !may_run(
            p,
            callee,
            n.func,
        ),
    decreases calls.len() - from,
{
    if from < calls.len() {
        lemma_open(p, callee, calls, from + 1);
    }
}

proof fn lemma_matched(p: ProgramV, args: Seq<Inst>, tys: Seq<Type>, from: int, k: int)
    requires
        0 <= from <= k < args.len(),
        args.len() == tys.len(),
        args_match(p, args, tys, from),
    ensures
        p.ty(args[k]) == tys[k],
    decreases args.len() - from,
{
    if from < k {
        lemma_matched(p, args, tys, from + 1, k);
    }
}

proof fn lemma_stands(p: ProgramV, f: Function, i: Inst, from: int)
    requires
        0 <= from,
    ensures
        p.parent_from(f, i, from) matches Some(b) ==> p.block(b).insts.contains(i) && p.func(f).blocks.contains(b),
    decreases p.func(f).blocks.len() - from,
{
    if from < p.func(f).blocks.len() {
        assert(p.func(f).blocks.contains(p.func(f).blocks[from]));
        lemma_stands(p, f, i, from + 1);
    }
}

/// A call that is replaced is a call of the function whose body takes its place, with the arguments and the result that
/// this function has, and it stands in another function, which the callee does not come to, however far down.
pub proof fn replaced_calls_fit(p: ProgramV, callee: Function, s: Site, n: nat)
    requires
        site_of(p, callee) == Some(s),
        p.funcs.len() <= usize::MAX,
    ensures
        s.callee == callee,
        p.op(s.call) == Op::Call(callee),
        p.func(s.caller).blocks.contains(s.block),
        p.block(s.block).insts.contains(s.call),
        p.ty(s.call) == p.func(callee).ret_ty,
        p.args(s.call).len() == p.func(callee).param_tys.len(),
        forall|k: int| 0 <= k < p.args(s.call).len() ==> p.ty(#[trigger] p.args(s.call)[k]) == p.func(callee).param_tys[k],
        s.caller != callee,
        !comes_to(p, callee, s.caller, n),
{
    let calls = sites(p, callee);
    lemma_open(p, callee, calls, 0);
    lemma_stands(p, s.caller, s.call, 0);
    assert forall|k: int| 0 <= k < p.args(s.call).len() implies p.ty(#[trigger] p.args(s.call)[k]) == p.func(
        callee,
    ).param_tys[k] by {
        lemma_matched(p, p.args(s.call), p.func(callee).param_tys, 0, k);
    }
    if comes_to(p, callee, s.caller, n) {
        calls_are_followed(p, callee, s.caller, n);
    }
}

} // verus!
