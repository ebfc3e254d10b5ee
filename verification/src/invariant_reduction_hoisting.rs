//! Computing once what every round of a loop adds to its sum.

use rustc_hash::FxHashMap;
use vstd::prelude::*;

use crate::arith::{int_op, wrap32};
use crate::blocked_reduction::{binary_made, calm, is_calm, literal_made, nth, stirs};
use crate::cfg::{entry_of, reverse_postorder, rpo_path, tree_of, DomTree};
use crate::cloning::{clone_inst, cloned, moved_block, sent_to};
use crate::if_conversion::{constant_op, is_const};
use crate::ir::{
    has_block, has_inst, inst_position, position, BasicBlock, BinaryOp, Function, Inst, Op,
    ProgramV, Type,
};
use crate::loops::{find_loops, loops_of, views, Loop, LoopV};
use crate::names::concat3;
use crate::preheader::{block_param_types, ensure_preheader, param_types, with_preheader, EnsurePreheader};
use crate::program::{branch_args, Program};
use crate::table::{fx_empty, fx_insert};

verus! {

pub struct InvariantReductionHoisting;

/// A loop whose body adds the same to its sum in every round.
#[verifier::ext_equal]
pub struct OuterV {
    pub header: BasicBlock,
    pub exit: BasicBlock,
    pub latch: BasicBlock,
    pub entry: BasicBlock,
    pub r_idx: int,
    pub acc_idx: int,
    pub final_acc: Inst,
    pub back_args: Seq<Inst>,
    pub region: Seq<BasicBlock>,
}

pub struct OuterCandidate {
    pub header: BasicBlock,
    pub exit: BasicBlock,
    pub latch: BasicBlock,
    pub entry: BasicBlock,
    pub r_idx: usize,
    pub acc_idx: usize,
    pub final_acc: Inst,
    pub back_args: Vec<Inst>,
    pub region: Vec<BasicBlock>,
}

impl View for OuterCandidate {
    type V = OuterV;

    open spec fn view(&self) -> OuterV {
        OuterV {
            header: self.header,
            exit: self.exit,
            latch: self.latch,
            entry: self.entry,
            r_idx: self.r_idx as int,
            acc_idx: self.acc_idx as int,
            final_acc: self.final_acc,
            back_args: self.back_args@,
            region: self.region@,
        }
    }
}

fn at(v: &Vec<Inst>, k: usize) -> (r: Inst)
    ensures
        r == nth(v@, k as int),
{
    if k < v.len() {
        v[k]
    } else {
        Inst(usize::MAX)
    }
}

/// The blocks of `body[from..]` other than `header`, behind `found`.
pub open spec fn region_from(body: Seq<BasicBlock>, header: BasicBlock, from: int, found: Seq<BasicBlock>) -> Seq<BasicBlock>
    decreases body.len() - from,
{
    if from >= body.len() {
        found
    } else if body[from] == header {
        region_from(body, header, from + 1, found)
    } else {
        region_from(body, header, from + 1, found.push(body[from]))
    }
}

/// Control goes from `op` only to `header` and into `region`.
pub open spec fn stays(op: Op, region: Seq<BasicBlock>, header: BasicBlock) -> bool {
    match op {
        Op::Jump(b) => b == header || region.contains(b),
        Op::Branch(t, f, _) => (t == header || region.contains(t)) && (f == header || region.contains(f)),
        _ => true,
    }
}

/// None of `insts[from..]` writes memory, calls, or leaves the region.
pub open spec fn insts_quiet(p: ProgramV, region: Seq<BasicBlock>, header: BasicBlock, insts: Seq<Inst>, from: int) -> bool
    decreases insts.len() - from,
{
    from >= insts.len() || (!stirs(p.op(insts[from])) && stays(p.op(insts[from]), region, header) && insts_quiet(
        p,
        region,
        header,
        insts,
        from + 1,
    ))
}

/// The blocks `region[from..]` write no memory, call nothing, and do not leave the region.
pub open spec fn region_quiet(p: ProgramV, region: Seq<BasicBlock>, header: BasicBlock, from: int) -> bool
    decreases region.len() - from,
{
    from >= region.len() || (insts_quiet(p, region, header, p.block(region[from]).insts, 0) && region_quiet(
        p,
        region,
        header,
        from + 1,
    ))
}

/// The parameters of `target` that get `cur` by `args[from..]`, behind `work`.
pub open spec fn targets_pushed(args: Seq<Inst>, params: Seq<Inst>, cur: Inst, from: int, work: Seq<Inst>) -> Seq<Inst>
    decreases args.len() - from,
{
    if from >= args.len() || from >= params.len() {
        work
    } else if args[from] == cur {
        targets_pushed(args, params, cur, from + 1, work.push(params[from]))
    } else {
        targets_pushed(args, params, cur, from + 1, work)
    }
}

/// What `cur` becomes in block `target` of the region when `args` are passed to it, behind `work`.
pub open spec fn passed_on(
    p: ProgramV,
    region: Seq<BasicBlock>,
    target: BasicBlock,
    args: Seq<Inst>,
    cur: Inst,
    work: Seq<Inst>,
) -> Seq<Inst> {
    if region.contains(target) {
        targets_pushed(args, p.block(target).params, cur, 0, work)
    } else {
        work
    }
}

/// Where `user` stands in the region.
pub open spec fn stands_in(p: ProgramV, f: Function, region: Seq<BasicBlock>, user: Inst) -> bool {
    match p.parent_bb(f, user) {
        Some(b) => region.contains(b),
        None => false,
    }
}

/// A sum followed through the region: values still to look at, values looked at, whether something was
/// added, and what reaches the header.
#[verifier::ext_equal]
pub struct SumTraceV {
    pub work: Seq<Inst>,
    pub seen: Seq<Inst>,
    pub added: bool,
    pub last: Option<Inst>,
}

/// Use `user` of `cur` looked at: it adds to or takes from the sum, passes it on, or hands it to the
/// header. `None` for any other use, but for one of the first value in the exit.
pub open spec fn sum_use(
    p: ProgramV,
    f: Function,
    region: Seq<BasicBlock>,
    header: BasicBlock,
    exit: BasicBlock,
    seed: Inst,
    cur: Inst,
    user: Inst,
    st: SumTraceV,
) -> Option<SumTraceV> {
    let within = stands_in(p, f, region, user);
    match p.op(user) {
        Op::Binary(op) => if within && (op == BinaryOp::Add || op == BinaryOp::Sub) && p.arg(user, 0) != p.arg(user, 1)
            && (p.arg(user, 0) == cur || (op == BinaryOp::Add && p.arg(user, 1) == cur)) {
            Some(SumTraceV { added: true, work: st.work.push(user), ..st })
        } else {
            None
        },
        Op::Select => None,
        Op::Cast => None,
        Op::Jump(t) => if within {
            if t == header {
                if st.last is Some || !p.args(user).contains(cur) {
                    None
                } else {
                    Some(SumTraceV { last: Some(cur), ..st })
                }
            } else if region.contains(t) {
                Some(SumTraceV { work: passed_on(p, region, t, p.args(user), cur, st.work), ..st })
            } else {
                None
            }
        } else {
            elsewhere(p, f, exit, seed, cur, user, st)
        },
        Op::Branch(t, e, _) => if within {
            if p.arg(user, 0) == cur {
                None
            } else {
                Some(
                    SumTraceV {
                        work: passed_on(
                            p,
                            region,
                            e,
                            p.f_args(user),
                            cur,
                            passed_on(p, region, t, p.t_args(user), cur, st.work),
                        ),
                        ..st
                    },
                )
            }
        } else {
            elsewhere(p, f, exit, seed, cur, user, st)
        },
        _ => elsewhere(p, f, exit, seed, cur, user, st),
    }
}

/// A use that has no part in the sum: only the first value may be used, and only in the exit.
pub open spec fn elsewhere(
    p: ProgramV,
    f: Function,
    exit: BasicBlock,
    seed: Inst,
    cur: Inst,
    user: Inst,
    st: SumTraceV,
) -> Option<SumTraceV> {
    if cur == seed && p.parent_bb(f, user) == Some(exit) {
        Some(st)
    } else {
        None
    }
}

/// The uses `users[from..]` of `cur` looked at.
pub open spec fn sum_uses(
    p: ProgramV,
    f: Function,
    region: Seq<BasicBlock>,
    header: BasicBlock,
    exit: BasicBlock,
    seed: Inst,
    cur: Inst,
    users: Seq<Inst>,
    from: int,
    st: SumTraceV,
) -> Option<SumTraceV>
    decreases users.len() - from,
{
    if from >= users.len() {
        Some(st)
    } else {
        match sum_use(p, f, region, header, exit, seed, cur, users[from], st) {
            Some(next) => sum_uses(p, f, region, header, exit, seed, cur, users, from + 1, next),
            None => None,
        }
    }
}

/// The sum followed until nothing is left to look at, in at most `rounds` steps.
pub open spec fn sum_traced(
    p: ProgramV,
    f: Function,
    region: Seq<BasicBlock>,
    header: BasicBlock,
    exit: BasicBlock,
    seed: Inst,
    st: SumTraceV,
    rounds: nat,
) -> Option<SumTraceV>
    decreases rounds,
{
    if st.work.len() == 0 {
        Some(st)
    } else if rounds == 0 {
        None
    } else {
        let cur = st.work[0];
        let rest = SumTraceV { work: st.work.drop_first(), ..st };
        if st.seen.contains(cur) {
            sum_traced(p, f, region, header, exit, seed, rest, (rounds - 1) as nat)
        } else {
            match sum_uses(
                p,
                f,
                region,
                header,
                exit,
                seed,
                cur,
                p.users(cur),
                0,
                SumTraceV { seen: st.seen.push(cur), ..rest },
            ) {
                Some(next) => sum_traced(p, f, region, header, exit, seed, next, (rounds - 1) as nat),
                None => None,
            }
        }
    }
}

/// Each parameter of block `target` that is in `set` gets a value in `set` by `args`.
pub open spec fn gets_kept(p: ProgramV, target: BasicBlock, args: Seq<Inst>, set: Seq<Inst>) -> bool {
    forall|k: int|
        0 <= k < p.block(target).params.len() && set.contains(#[trigger] p.block(target).params[k]) ==> k < args.len()
            && set.contains(args[k])
}

/// Instruction `u` keeps `set` apart: it does not make a value of two in `set`, and a parameter in `set` gets a
/// value in `set` from it.
pub open spec fn keeps_set(p: ProgramV, region: Seq<BasicBlock>, u: Inst, set: Seq<Inst>) -> bool {
    match p.op(u) {
        Op::Binary(_) => !(set.contains(p.arg(u, 0)) && set.contains(p.arg(u, 1))),
        Op::Jump(t) => region.contains(t) ==> gets_kept(p, t, p.args(u), set),
        Op::Branch(t, e, _) => (region.contains(t) ==> gets_kept(p, t, p.t_args(u), set)) && (region.contains(e)
            ==> gets_kept(p, e, p.f_args(u), set)),
        _ => true,
    }
}

/// The instructions of `region` keep `set` apart.
pub open spec fn region_keeps(p: ProgramV, region: Seq<BasicBlock>, set: Seq<Inst>) -> bool {
    forall|b: int, k: int|
        0 <= b < region.len() && 0 <= k < p.block(region[b]).insts.len() ==> keeps_set(
            p,
            region,
            #[trigger] p.block(region[b]).insts[k],
            set,
        )
}

/// What becomes of the sum `seed` by the end of a round, where it is only added to and taken from.
pub open spec fn sum_at_end(
    p: ProgramV,
    f: Function,
    region: Seq<BasicBlock>,
    header: BasicBlock,
    exit: BasicBlock,
    seed: Inst,
) -> Option<Inst> {
    let start = SumTraceV { work: seq![seed], seen: Seq::empty(), added: false, last: None };
    match sum_traced(p, f, region, header, exit, seed, start, usize::MAX as nat) {
        Some(st) => if st.added && region_keeps(p, region, st.seen) {
            st.last
        } else {
            None
        },
        None => None,
    }
}

/// Instruction `user` moves the counter `cur` by a constant.
pub open spec fn moves(p: ProgramV, user: Inst, cur: Inst) -> bool {
    let (a, b) = (p.arg(user, 0), p.arg(user, 1));
    match p.op(user) {
        Op::Binary(BinaryOp::Add) => (a == cur && is_const(p.op(b))) || (b == cur && is_const(p.op(a))),
        Op::Binary(BinaryOp::Sub) => a == cur && is_const(p.op(b)),
        _ => false,
    }
}

/// Use `user` of the counter looked at: in the header anything, in the latch its update and its way
/// back, and elsewhere in the region only its being passed on. `None` for any other use.
pub open spec fn counter_use(
    p: ProgramV,
    f: Function,
    region: Seq<BasicBlock>,
    header: BasicBlock,
    latch: BasicBlock,
    cur: Inst,
    user: Inst,
    work: Seq<Inst>,
) -> Option<Seq<Inst>> {
    match p.parent_bb(f, user) {
        None => None,
        Some(b) => if b == header {
            Some(work)
        } else if !region.contains(b) {
            None
        } else if b == latch {
            match p.op(user) {
                Op::Binary(_) => if moves(p, user, cur) {
                    Some(work.push(user))
                } else {
                    None
                },
                Op::Jump(t) => if t == header && p.args(user).contains(cur) {
                    Some(work)
                } else {
                    None
                },
                _ => None,
            }
        } else {
            match p.op(user) {
                Op::Jump(t) => Some(passed_on(p, region, t, p.args(user), cur, work)),
                Op::Branch(t, e, _) => if p.arg(user, 0) == cur {
                    None
                } else {
                    Some(
                        passed_on(
                            p,
                            region,
                            e,
                            p.f_args(user),
                            cur,
                            passed_on(p, region, t, p.t_args(user), cur, work),
                        ),
                    )
                },
                _ => None,
            }
        },
    }
}

pub open spec fn counter_uses(
    p: ProgramV,
    f: Function,
    region: Seq<BasicBlock>,
    header: BasicBlock,
    latch: BasicBlock,
    cur: Inst,
    users: Seq<Inst>,
    from: int,
    work: Seq<Inst>,
) -> Option<Seq<Inst>>
    decreases users.len() - from,
{
    if from >= users.len() {
        Some(work)
    } else {
        match counter_use(p, f, region, header, latch, cur, users[from], work) {
            Some(next) => counter_uses(p, f, region, header, latch, cur, users, from + 1, next),
            None => None,
        }
    }
}

/// The counter followed through the region: nothing is computed from it. Gives the values that carry it.
pub open spec fn counter_traced(
    p: ProgramV,
    f: Function,
    region: Seq<BasicBlock>,
    header: BasicBlock,
    latch: BasicBlock,
    work: Seq<Inst>,
    seen: Seq<Inst>,
    rounds: nat,
) -> Option<Seq<Inst>>
    decreases rounds,
{
    if work.len() == 0 {
        Some(seen)
    } else if rounds == 0 {
        None
    } else {
        let cur = work[0];
        if seen.contains(cur) {
            counter_traced(p, f, region, header, latch, work.drop_first(), seen, (rounds - 1) as nat)
        } else {
            match counter_uses(p, f, region, header, latch, cur, p.users(cur), 0, work.drop_first()) {
                Some(next) => counter_traced(
                    p,
                    f,
                    region,
                    header,
                    latch,
                    next,
                    seen.push(cur),
                    (rounds - 1) as nat,
                ),
                None => None,
            }
        }
    }
}

/// Those of `seen[from..]` that no operation makes, behind `found`.
pub open spec fn unmoved(p: ProgramV, seen: Seq<Inst>, from: int, found: Seq<Inst>) -> Seq<Inst>
    decreases seen.len() - from,
{
    if from >= seen.len() {
        found
    } else if p.op(seen[from]) is Binary {
        unmoved(p, seen, from + 1, found)
    } else {
        unmoved(p, seen, from + 1, found.push(seen[from]))
    }
}

/// Value `u` is one of `held` moved by a constant.
pub open spec fn is_moved(p: ProgramV, held: Seq<Inst>, u: Inst) -> bool {
    (held.contains(p.arg(u, 0)) && moves(p, u, p.arg(u, 0))) || (held.contains(p.arg(u, 1)) && moves(p, u, p.arg(u, 1)))
}

/// The values that carry the counter `r` through the region.
pub open spec fn counter_seen(
    p: ProgramV,
    f: Function,
    region: Seq<BasicBlock>,
    header: BasicBlock,
    latch: BasicBlock,
    r: Inst,
) -> Option<Seq<Inst>> {
    counter_traced(p, f, region, header, latch, seq![r], Seq::empty(), usize::MAX as nat)
}

/// The region does not depend on the counter `r`: `back` is the counter moved by a constant in the latch, and the
/// sum `sum` has no part of the counter.
pub open spec fn counter_free(
    p: ProgramV,
    f: Function,
    region: Seq<BasicBlock>,
    header: BasicBlock,
    latch: BasicBlock,
    r: Inst,
    back: Inst,
    sum: Inst,
) -> bool {
    match counter_seen(p, f, region, header, latch, r) {
        Some(seen) => {
            let held = unmoved(p, seen, 0, Seq::empty());
            region_keeps(p, region, held) && is_moved(p, held, back) && p.parent_bb(f, back) == Some(latch)
                && !seen.contains(sum)
        },
        None => false,
    }
}

/// The one parameter among `params[from..]`, other than the counter, that is a sum: its number and what
/// it is at the end of a round. `None` where there are two.
pub open spec fn sum_found(
    p: ProgramV,
    f: Function,
    region: Seq<BasicBlock>,
    header: BasicBlock,
    exit: BasicBlock,
    params: Seq<Inst>,
    backs: Seq<Inst>,
    r_idx: int,
    from: int,
    found: Option<(int, Inst)>,
) -> Option<(int, Inst)>
    decreases params.len() - from,
{
    if from >= params.len() {
        found
    } else if from == r_idx || !(p.ty(params[from]) is I32) {
        sum_found(p, f, region, header, exit, params, backs, r_idx, from + 1, found)
    } else {
        match sum_at_end(p, f, region, header, exit, params[from]) {
            Some(v) => if nth(backs, from) == v {
                if found is Some {
                    None
                } else {
                    sum_found(p, f, region, header, exit, params, backs, r_idx, from + 1, Some((from, v)))
                }
            } else {
                sum_found(p, f, region, header, exit, params, backs, r_idx, from + 1, found)
            },
            None => sum_found(p, f, region, header, exit, params, backs, r_idx, from + 1, found),
        }
    }
}

/// None of the operands `args[from..]` is computed in the header.
pub open spec fn args_free(p: ProgramV, f: Function, header: BasicBlock, args: Seq<Inst>, from: int) -> bool
    decreases args.len() - from,
{
    from >= args.len() || ((p.inst(args[from]).global || is_const(p.op(args[from])) || p.parent_bb(f, args[from]) != Some(
        header,
    ) || p.block(header).params.contains(args[from])) && args_free(p, f, header, args, from + 1))
}

/// The operation ends a block.
pub open spec fn ends_block(op: Op) -> bool {
    op is Jump || op is Branch || op is Return || op is TailCall
}

/// None of `insts[from..]` but a block's end uses what is computed in the header.
pub open spec fn insts_free(p: ProgramV, f: Function, header: BasicBlock, insts: Seq<Inst>, from: int) -> bool
    decreases insts.len() - from,
{
    from >= insts.len() || ((ends_block(p.op(insts[from])) || args_free(p, f, header, p.args(insts[from]), 0))
        && insts_free(p, f, header, insts, from + 1))
}

pub open spec fn region_free(p: ProgramV, f: Function, header: BasicBlock, region: Seq<BasicBlock>, from: int) -> bool
    decreases region.len() - from,
{
    from >= region.len() || (insts_free(p, f, header, p.block(region[from]).insts, 0) && region_free(
        p,
        f,
        header,
        region,
        from + 1,
    ))
}

/// The counter that comparison `c` tests, a parameter of the header.
pub open spec fn counter_of(p: ProgramV, c: Inst, params: Seq<Inst>) -> Option<Inst> {
    match p.op(c) {
        Op::Binary(op) => if op == BinaryOp::Lt && params.contains(p.arg(c, 0)) {
            Some(p.arg(c, 0))
        } else if op == BinaryOp::Gt && params.contains(p.arg(c, 1)) {
            Some(p.arg(c, 1))
        } else {
            None
        },
        _ => None,
    }
}

/// All parameters of the header but counter and sum come back as they were.
pub open spec fn others_stay(params: Seq<Inst>, backs: Seq<Inst>, r_idx: int, acc_idx: int) -> bool {
    forall|k: int|
        0 <= k < params.len() && k < backs.len() && k != r_idx && k != acc_idx ==> #[trigger] backs[k] == params[k]
}

/// The loop `l` read as one whose body adds the same to its sum in every round.
pub open spec fn outer_of(p: ProgramV, f: Function, l: LoopV) -> Option<OuterV> {
    let header = l.header;
    let params = p.block(header).params;
    let t = p.terminator(header);
    match p.op(t) {
        Op::Branch(x, y, _) => if l.body.contains(x) == l.body.contains(y) || l.latches.len() != 1 {
            None
        } else {
            let entry = if l.body.contains(x) {
                x
            } else {
                y
            };
            let exit = if l.body.contains(x) {
                y
            } else {
                x
            };
            let latch = l.latches[0];
            let region = region_from(l.body, header, 0, Seq::empty());
            let back = p.terminator(latch);
            match counter_of(p, p.arg(t, 0), params) {
                Some(r) => if p.block(entry).params.len() > 0 || region.len() < 2 || !region.contains(latch)
                    || !region_quiet(p, region, header, 0) || !calm(
                    p,
                    p.block(header).insts,
                    0,
                    p.block(header).insts.len() as int,
                ) || p.op(back) != Op::Jump(header) || p.args(back).len() != params.len() || !region_free(p, f, header, region, 0) {
                    None
                } else {
                    match sum_found(
                        p,
                        f,
                        region,
                        header,
                        exit,
                        params,
                        p.args(back),
                        position(params, r, 0),
                        0,
                        None,
                    ) {
                        Some((acc_idx, final_acc)) => if !others_stay(
                            params,
                            p.args(back),
                            position(params, r, 0),
                            acc_idx,
                        ) || !counter_free(
                            p,
                            f,
                            region,
                            header,
                            latch,
                            r,
                            nth(p.args(back), position(params, r, 0)),
                            final_acc,
                        ) {
                            None
                        } else {
                            Some(
                                OuterV {
                                    header,
                                    exit,
                                    latch,
                                    entry,
                                    r_idx: position(params, r, 0),
                                    acc_idx,
                                    final_acc,
                                    back_args: p.args(back),
                                    region,
                                },
                            )
                        },
                        None => None,
                    }
                },
                None => None,
            }
        },
        _ => None,
    }
}

fn find_region(body: &Vec<BasicBlock>, header: BasicBlock) -> (r: Vec<BasicBlock>)
    ensures
        r@ == region_from(body@, header, 0, Seq::empty()),
{
    let mut r: Vec<BasicBlock> = Vec::new();
    assert(r@ =~= Seq::empty());
    let mut k: usize = 0;
    while k < body.len()
        invariant
            k <= body@.len(),
            region_from(body@, header, 0, Seq::empty()) == region_from(body@, header, k as int, r@),
        decreases body@.len() - k,
    {
        if body[k] != header {
            r.push(body[k]);
        }
        k += 1;
    }
    r
}

fn does_stay(op: Op, region: &Vec<BasicBlock>, header: BasicBlock) -> (r: bool)
    ensures
        r == stays(op, region@, header),
{
    match op {
        Op::Jump(b) => b == header || has_block(region, b),
        Op::Branch(t, f, _) => (t == header || has_block(region, t)) && (f == header || has_block(region, f)),
        _ => true,
    }
}

fn is_loud(op: Op) -> (r: bool)
    ensures
        r == stirs(op),
{
    matches!(op, Op::Store | Op::Call(_) | Op::TailCall(_) | Op::MemZero(_) | Op::MemZeroDyn | Op::GlobalAlloc)
}

fn are_insts_quiet(p: &Program, region: &Vec<BasicBlock>, header: BasicBlock, insts: &Vec<Inst>) -> (r: bool)
    ensures
        r == insts_quiet(p@, region@, header, insts@, 0),
{
    let mut k: usize = 0;
    while k < insts.len()
        invariant
            k <= insts@.len(),
            insts_quiet(p@, region@, header, insts@, 0) == insts_quiet(p@, region@, header, insts@, k as int),
        decreases insts@.len() - k,
    {
        let op = p.op(insts[k]);
        if is_loud(op) || !does_stay(op, region, header) {
            return false;
        }
        k += 1;
    }
    true
}

fn is_region_quiet(p: &Program, region: &Vec<BasicBlock>, header: BasicBlock) -> (r: bool)
    ensures
        r == region_quiet(p@, region@, header, 0),
{
    let mut k: usize = 0;
    while k < region.len()
        invariant
            k <= region@.len(),
            region_quiet(p@, region@, header, 0) == region_quiet(p@, region@, header, k as int),
        decreases region@.len() - k,
    {
        let insts = p.block_insts(region[k]);
        if !are_insts_quiet(p, region, header, &insts) {
            return false;
        }
        k += 1;
    }
    true
}

/// Pushes what `cur` becomes in block `target` of the region when `args` are passed to it.
pub fn push_param_targets(
    p: &Program,
    region: &Vec<BasicBlock>,
    work: &mut Vec<Inst>,
    target: BasicBlock,
    args: &Vec<Inst>,
    cur: Inst,
)
    ensures
        final(work)@ == passed_on(p@, region@, target, args@, cur, old(work)@),
{
    if !has_block(region, target) {
        return;
    }
    let params = p.block_params(target);
    let mut k: usize = 0;
    while k < args.len() && k < params.len()
        invariant
            k <= args@.len(),
            k <= params@.len(),
            targets_pushed(args@, params@, cur, 0, old(work)@) == targets_pushed(
                args@,
                params@,
                cur,
                k as int,
                work@,
            ),
        decreases args@.len() - k,
    {
        if args[k] == cur {
            work.push(params[k]);
        }
        k += 1;
    }
}

struct SumTrace {
    work: Vec<Inst>,
    seen: Vec<Inst>,
    added: bool,
    last: Option<Inst>,
}

impl View for SumTrace {
    type V = SumTraceV;

    closed spec fn view(&self) -> SumTraceV {
        SumTraceV { work: self.work@, seen: self.seen@, added: self.added, last: self.last }
    }
}

fn same_place(a: Option<BasicBlock>, b: BasicBlock) -> (r: bool)
    ensures
        r == (a == Some(b)),
{
    match a {
        Some(x) => x == b,
        None => false,
    }
}

impl SumTrace {
    fn look(
        &mut self,
        p: &Program,
        f: Function,
        region: &Vec<BasicBlock>,
        header: BasicBlock,
        exit: BasicBlock,
        seed: Inst,
        cur: Inst,
        user: Inst,
    ) -> (ok: bool)
        ensures
            match sum_use(p@, f, region@, header, exit, seed, cur, user, old(self)@) {
                Some(next) => ok && final(self)@ == next,
                None => !ok,
            },
    {
        let parent = p.parent_bb(f, user);
        let within = match parent {
            Some(b) => has_block(region, b),
            None => false,
        };
        match p.op(user) {
            Op::Binary(op) => {
                let a = p.arg(user, 0);
                let b = p.arg(user, 1);
                if within && (op == BinaryOp::Add || op == BinaryOp::Sub) && a != b && (a == cur || (op
                    == BinaryOp::Add && b == cur)) {
                    self.added = true;
                    self.work.push(user);
                    return true;
                }
                false
            },
            Op::Select | Op::Cast => false,
            Op::Jump(t) => {
                if !within {
                    return cur == seed && same_place(parent, exit);
                }
                let args = p.args(user);
                if t == header {
                    if self.last.is_some() || !has_inst(&args, cur) {
                        return false;
                    }
                    self.last = Some(cur);
                    return true;
                }
                if !has_block(region, t) {
                    return false;
                }
                push_param_targets(p, region, &mut self.work, t, &args, cur);
                true
            },
            Op::Branch(t, e, _) => {
                if !within {
                    return cur == seed && same_place(parent, exit);
                }
                if p.arg(user, 0) == cur {
                    return false;
                }
                let ta = p.t_args(user);
                let fa = p.f_args(user);
                push_param_targets(p, region, &mut self.work, t, &ta, cur);
                push_param_targets(p, region, &mut self.work, e, &fa, cur);
                true
            },
            _ => cur == seed && same_place(parent, exit),
        }
    }
}

fn is_kept(p: &Program, target: BasicBlock, args: &Vec<Inst>, set: &Vec<Inst>) -> (r: bool)
    ensures
        r == gets_kept(p@, target, args@, set@),
{
    let params = p.block_params(target);
    let mut k: usize = 0;
    while k < params.len()
        invariant
            k <= params@.len(),
            params@ == p@.block(target).params,
            forall|j: int|
                0 <= j < k && set@.contains(#[trigger] p@.block(target).params[j]) ==> j < args@.len() && set@.contains(
                    args@[j],
                ),
        decreases params@.len() - k,
    {
        if has_inst(set, params[k]) && !(k < args.len() && has_inst(set, args[k])) {
            assert(set@.contains(p@.block(target).params[k as int]));
            return false;
        }
        k += 1;
    }
    true
}

fn does_keep(p: &Program, region: &Vec<BasicBlock>, u: Inst, set: &Vec<Inst>) -> (r: bool)
    ensures
        r == keeps_set(p@, region@, u, set@),
{
    match p.op(u) {
        Op::Binary(_) => !(has_inst(set, p.arg(u, 0)) && has_inst(set, p.arg(u, 1))),
        Op::Jump(t) => {
            let args = p.args(u);
            !has_block(region, t) || is_kept(p, t, &args, set)
        },
        Op::Branch(t, e, _) => {
            let ta = p.t_args(u);
            let fa = p.f_args(u);
            (!has_block(region, t) || is_kept(p, t, &ta, set)) && (!has_block(region, e) || is_kept(p, e, &fa, set))
        },
        _ => true,
    }
}

fn does_region_keep(p: &Program, region: &Vec<BasicBlock>, set: &Vec<Inst>) -> (r: bool)
    ensures
        r == region_keeps(p@, region@, set@),
{
    let mut b: usize = 0;
    while b < region.len()
        invariant
            b <= region@.len(),
            forall|c: int, j: int|
                0 <= c < b && 0 <= j < p@.block(region@[c]).insts.len() ==> keeps_set(
                    p@,
                    region@,
                    #[trigger] p@.block(region@[c]).insts[j],
                    set@,
                ),
        decreases region@.len() - b,
    {
        let insts = p.block_insts(region[b]);
        let mut k: usize = 0;
        while k < insts.len()
            invariant
                b < region@.len(),
                k <= insts@.len(),
                insts@ == p@.block(region@[b as int]).insts,
                forall|j: int|
                    0 <= j < k ==> keeps_set(p@, region@, #[trigger] p@.block(region@[b as int]).insts[j], set@),
            decreases insts@.len() - k,
        {
            if !does_keep(p, region, insts[k], set) {
                assert(!keeps_set(p@, region@, p@.block(region@[b as int]).insts[k as int], set@));
                return false;
            }
            k += 1;
        }
        b += 1;
    }
    true
}

fn find_unmoved(p: &Program, seen: &Vec<Inst>) -> (r: Vec<Inst>)
    ensures
        r@ == unmoved(p@, seen@, 0, Seq::empty()),
{
    let mut r: Vec<Inst> = Vec::new();
    assert(r@ =~= Seq::empty());
    let mut k: usize = 0;
    while k < seen.len()
        invariant
            k <= seen@.len(),
            unmoved(p@, seen@, 0, Seq::empty()) == unmoved(p@, seen@, k as int, r@),
        decreases seen@.len() - k,
    {
        if !matches!(p.op(seen[k]), Op::Binary(_)) {
            r.push(seen[k]);
        }
        k += 1;
    }
    r
}

fn does_move(p: &Program, user: Inst, cur: Inst) -> (r: bool)
    ensures
        r == moves(p@, user, cur),
{
    let a = p.arg(user, 0);
    let b = p.arg(user, 1);
    match p.op(user) {
        Op::Binary(op) => (op == BinaryOp::Add || op == BinaryOp::Sub) && a == cur && constant_op(p.op(b)) || op
            == BinaryOp::Add && b == cur && constant_op(p.op(a)),
        _ => false,
    }
}

/// Follows the sum `seed` through the region. Gives what it is at the end of a round where it is only
/// added to and taken from.
pub fn trace_accumulator(
    p: &Program,
    f: Function,
    region: &Vec<BasicBlock>,
    header: BasicBlock,
    exit: BasicBlock,
    seed: Inst,
) -> (r: Option<Inst>)
    ensures
        r == sum_at_end(p@, f, region@, header, exit, seed),
{
    let work = vec![seed];
    assert(work@ =~= seq![seed]);
    let mut st = SumTrace { work, seen: Vec::new(), added: false, last: None };
    let ghost start = st@;
    assert(start =~= SumTraceV { work: seq![seed], seen: Seq::empty(), added: false, last: None });
    let mut rounds: usize = usize::MAX;
    while rounds > 0 && st.work.len() > 0
        invariant
            start == (SumTraceV { work: seq![seed], seen: Seq::empty(), added: false, last: None }),
            sum_traced(p@, f, region@, header, exit, seed, start, usize::MAX as nat) == sum_traced(
                p@,
                f,
                region@,
                header,
                exit,
                seed,
                st@,
                rounds as nat,
            ),
        decreases rounds,
    {
        rounds -= 1;
        let ghost before = st.work@;
        let cur = st.work.remove(0);
        assert(st.work@ =~= before.drop_first());
        if has_inst(&st.seen, cur) {
            continue;
        }
        st.seen.push(cur);
        let users = p.users(cur);
        let ghost mid = st@;
        let mut k: usize = 0;
        while k < users.len()
            invariant
                k <= users@.len(),
                users@ == p@.users(cur),
                start == (SumTraceV { work: seq![seed], seen: Seq::empty(), added: false, last: None }),
                sum_uses(p@, f, region@, header, exit, seed, cur, users@, 0, mid) is None ==> sum_traced(
                    p@,
                    f,
                    region@,
                    header,
                    exit,
                    seed,
                    start,
                    usize::MAX as nat,
                ) is None,
                sum_uses(p@, f, region@, header, exit, seed, cur, users@, 0, mid) == sum_uses(
                    p@,
                    f,
                    region@,
                    header,
                    exit,
                    seed,
                    cur,
                    users@,
                    k as int,
                    st@,
                ),
            decreases users@.len() - k,
        {
            if !st.look(p, f, region, header, exit, seed, cur, users[k]) {
                return None;
            }
            k += 1;
        }
    }
    if st.work.len() == 0 && st.added && does_region_keep(p, region, &st.seen) {
        st.last
    } else {
        None
    }
}

fn look_at_counter(
    p: &Program,
    f: Function,
    region: &Vec<BasicBlock>,
    header: BasicBlock,
    latch: BasicBlock,
    cur: Inst,
    user: Inst,
    work: &mut Vec<Inst>,
) -> (ok: bool)
    ensures
        match counter_use(p@, f, region@, header, latch, cur, user, old(work)@) {
            Some(next) => ok && final(work)@ == next,
            None => !ok,
        },
{
    let b = match p.parent_bb(f, user) {
        None => {
            return false;
        },
        Some(b) => b,
    };
    if b == header {
        return true;
    }
    if !has_block(region, b) {
        return false;
    }
    if b == latch {
        match p.op(user) {
            Op::Binary(_) => {
                if does_move(p, user, cur) {
                    work.push(user);
                    return true;
                }
                false
            },
            Op::Jump(t) => {
                let args = p.args(user);
                t == header && has_inst(&args, cur)
            },
            _ => false,
        }
    } else {
        match p.op(user) {
            Op::Jump(t) => {
                let args = p.args(user);
                push_param_targets(p, region, work, t, &args, cur);
                true
            },
            Op::Branch(t, e, _) => {
                if p.arg(user, 0) == cur {
                    return false;
                }
                let ta = p.t_args(user);
                let fa = p.f_args(user);
                push_param_targets(p, region, work, t, &ta, cur);
                push_param_targets(p, region, work, e, &fa, cur);
                true
            },
            _ => false,
        }
    }
}

/// Whether the region does not depend on the counter `r`, `back` is the counter moved by a constant in the latch,
/// and the sum `sum` has no part of the counter.
pub fn trace_invariant(
    p: &Program,
    f: Function,
    region: &Vec<BasicBlock>,
    header: BasicBlock,
    latch: BasicBlock,
    r: Inst,
    back: Inst,
    sum: Inst,
) -> (free: bool)
    ensures
        free == counter_free(p@, f, region@, header, latch, r, back, sum),
{
    let mut work = vec![r];
    assert(work@ =~= seq![r]);
    let mut seen: Vec<Inst> = Vec::new();
    assert(seen@ =~= Seq::empty());
    let mut rounds: usize = usize::MAX;
    while rounds > 0 && work.len() > 0
        invariant
            counter_seen(p@, f, region@, header, latch, r) == counter_traced(
                p@,
                f,
                region@,
                header,
                latch,
                work@,
                seen@,
                rounds as nat,
            ),
        decreases rounds,
    {
        rounds -= 1;
        let ghost before = work@;
        let cur = work.remove(0);
        assert(work@ =~= before.drop_first());
        if has_inst(&seen, cur) {
            continue;
        }
        seen.push(cur);
        let users = p.users(cur);
        let ghost mid = work@;
        let mut k: usize = 0;
        while k < users.len()
            invariant
                k <= users@.len(),
                users@ == p@.users(cur),
                counter_uses(p@, f, region@, header, latch, cur, users@, 0, mid) is None ==> counter_seen(
                    p@,
                    f,
                    region@,
                    header,
                    latch,
                    r,
                ) is None,
                counter_uses(p@, f, region@, header, latch, cur, users@, 0, mid) == counter_uses(
                    p@,
                    f,
                    region@,
                    header,
                    latch,
                    cur,
                    users@,
                    k as int,
                    work@,
                ),
            decreases users@.len() - k,
        {
            if !look_at_counter(p, f, region, header, latch, cur, users[k], &mut work) {
                return false;
            }
            k += 1;
        }
    }
    if work.len() > 0 || !same_place(p.parent_bb(f, back), latch) || has_inst(&seen, sum) {
        return false;
    }
    let held = find_unmoved(p, &seen);
    does_region_keep(p, region, &held) && ((has_inst(&held, p.arg(back, 0)) && does_move(p, back, p.arg(back, 0))) || (
    has_inst(&held, p.arg(back, 1)) && does_move(p, back, p.arg(back, 1))))
}

fn are_args_free(p: &Program, f: Function, header: BasicBlock, args: &Vec<Inst>) -> (r: bool)
    ensures
        r == args_free(p@, f, header, args@, 0),
{
    let params = p.block_params(header);
    let mut k: usize = 0;
    while k < args.len()
        invariant
            k <= args@.len(),
            params@ == p@.block(header).params,
            args_free(p@, f, header, args@, 0) == args_free(p@, f, header, args@, k as int),
        decreases args@.len() - k,
    {
        let v = args[k];
        if !p.is_global(v) && !constant_op(p.op(v)) && same_place(p.parent_bb(f, v), header) && !has_inst(&params, v) {
            return false;
        }
        k += 1;
    }
    true
}

fn are_insts_free(p: &Program, f: Function, header: BasicBlock, insts: &Vec<Inst>) -> (r: bool)
    ensures
        r == insts_free(p@, f, header, insts@, 0),
{
    let mut k: usize = 0;
    while k < insts.len()
        invariant
            k <= insts@.len(),
            insts_free(p@, f, header, insts@, 0) == insts_free(p@, f, header, insts@, k as int),
        decreases insts@.len() - k,
    {
        let ends = matches!(p.op(insts[k]), Op::Jump(_) | Op::Branch(_, _, _) | Op::Return | Op::TailCall(_));
        let args = p.args(insts[k]);
        if !ends && !are_args_free(p, f, header, &args) {
            return false;
        }
        k += 1;
    }
    true
}

fn is_region_free(p: &Program, f: Function, header: BasicBlock, region: &Vec<BasicBlock>) -> (r: bool)
    ensures
        r == region_free(p@, f, header, region@, 0),
{
    let mut k: usize = 0;
    while k < region.len()
        invariant
            k <= region@.len(),
            region_free(p@, f, header, region@, 0) == region_free(p@, f, header, region@, k as int),
        decreases region@.len() - k,
    {
        let insts = p.block_insts(region[k]);
        if !are_insts_free(p, f, header, &insts) {
            return false;
        }
        k += 1;
    }
    true
}

fn find_counter(p: &Program, c: Inst, params: &Vec<Inst>) -> (r: Option<Inst>)
    ensures
        r == counter_of(p@, c, params@),
{
    match p.op(c) {
        Op::Binary(op) => {
            if op == BinaryOp::Lt && has_inst(params, p.arg(c, 0)) {
                Some(p.arg(c, 0))
            } else if op == BinaryOp::Gt && has_inst(params, p.arg(c, 1)) {
                Some(p.arg(c, 1))
            } else {
                None
            }
        },
        _ => None,
    }
}

/// A sum by number, as a pair of mathematical values.
pub open spec fn sum_view(r: Option<(usize, Inst)>) -> Option<(int, Inst)> {
    match r {
        Some((k, v)) => Some((k as int, v)),
        None => None,
    }
}

fn find_sum(
    p: &Program,
    f: Function,
    region: &Vec<BasicBlock>,
    header: BasicBlock,
    exit: BasicBlock,
    params: &Vec<Inst>,
    backs: &Vec<Inst>,
    r_idx: usize,
) -> (r: Option<(usize, Inst)>)
    ensures
        sum_view(r) == sum_found(p@, f, region@, header, exit, params@, backs@, r_idx as int, 0, None),
        r matches Some((k, _)) ==> k < params@.len(),
{
    let mut found: Option<(usize, Inst)> = None;
    let mut k: usize = 0;
    while k < params.len()
        invariant
            k <= params@.len(),
            found matches Some((j, _)) ==> j < params@.len(),
            sum_found(p@, f, region@, header, exit, params@, backs@, r_idx as int, 0, None) == sum_found(
                p@,
                f,
                region@,
                header,
                exit,
                params@,
                backs@,
                r_idx as int,
                k as int,
                sum_view(found),
            ),
        decreases params@.len() - k,
    {
        if k != r_idx && p.is_i32(params[k]) {
            if let Some(v) = trace_accumulator(p, f, region, header, exit, params[k]) {
                if at(backs, k) == v {
                    if found.is_some() {
                        return None;
                    }
                    found = Some((k, v));
                }
            }
        }
        k += 1;
    }
    found
}

impl InvariantReductionHoisting {
    /// Reads a loop as one whose body adds the same to its sum in every round.
    pub fn find_outer(data: &Program, f: Function, looop: &Loop) -> (r: Option<OuterCandidate>)
        ensures
            match r {
                Some(c) => outer_of(data@, f, looop@) == Some(c@),
                None => outer_of(data@, f, looop@) is None,
            },
    {
        let header = looop.header;
        let params = data.block_params(header);
        let t = data.terminator(header);
        let (x, y) = match data.op(t) {
            Op::Branch(x, y, _) => (x, y),
            _ => {
                return None;
            },
        };
        let x_in = looop.contains(x);
        let y_in = looop.contains(y);
        if x_in == y_in || looop.latches.len() != 1 {
            return None;
        }
        let (entry, exit) = if x_in {
            (x, y)
        } else {
            (y, x)
        };
        let latch = looop.latches[0];
        let region = find_region(&looop.body, header);
        let r = match find_counter(data, data.arg(t, 0), &params) {
            Some(r) => r,
            None => {
                return None;
            },
        };
        let r_idx = inst_position(&params, r);
        let back = data.terminator(latch);
        let backs = data.args(back);
        let header_insts = data.block_insts(header);
        if data.block_params(entry).len() > 0 || region.len() < 2 || !has_block(&region, latch) || !is_region_quiet(
            data,
            &region,
            header,
        ) || !is_calm(data, &header_insts, header_insts.len()) {
            return None;
        }
        if data.op(back) != Op::Jump(header) || backs.len() != params.len() || !is_region_free(data, f, header, &region) {
            return None;
        }
        match find_sum(data, f, &region, header, exit, &params, &backs, r_idx) {
            Some((acc_idx, final_acc)) => if do_others_stay(&params, &backs, r_idx, acc_idx) && trace_invariant(
                data,
                f,
                &region,
                header,
                latch,
                r,
                at(&backs, r_idx),
                final_acc,
            ) {
                Some(
                    OuterCandidate {
                        header,
                        exit,
                        latch,
                        entry,
                        r_idx,
                        acc_idx,
                        final_acc,
                        back_args: backs,
                        region,
                    },
                )
            } else {
                None
            },
            None => None,
        }
    }
}

fn do_others_stay(params: &Vec<Inst>, backs: &Vec<Inst>, r_idx: usize, acc_idx: usize) -> (r: bool)
    ensures
        r == others_stay(params@, backs@, r_idx as int, acc_idx as int),
{
    let mut k: usize = 0;
    while k < params.len() && k < backs.len()
        invariant
            k <= params@.len(),
            k <= backs@.len(),
            forall|j: int| 0 <= j < k && j != r_idx && j != acc_idx ==> #[trigger] backs@[j] == params@[j],
        decreases params@.len() - k,
    {
        if k != r_idx && k != acc_idx && backs[k] != params[k] {
            assert(backs@[k as int] != params@[k as int]);
            return false;
        }
        k += 1;
    }
    true
}

/// What a round adds to the counter, and whether it is taken off instead. `None` where the counter is
/// not moved by a literal.
pub open spec fn step_of(p: ProgramV, c: OuterV) -> Option<(Inst, BinaryOp)> {
    let u = nth(c.back_args, c.r_idx);
    let a = p.arg(u, 0);
    let b = p.arg(u, 1);
    match p.op(u) {
        Op::Binary(op) => if op != BinaryOp::Add && op != BinaryOp::Sub {
            None
        } else if is_const(p.op(a)) && !is_const(p.op(b)) {
            Some((a, op))
        } else if is_const(p.op(b)) && !is_const(p.op(a)) {
            Some((b, op))
        } else {
            None
        },
        _ => None,
    }
}

fn find_step(p: &Program, c: &OuterCandidate) -> (r: Option<(Inst, BinaryOp)>)
    ensures
        r == step_of(p@, c@),
{
    let u = at(&c.back_args, c.r_idx);
    match p.op(u) {
        Op::Binary(op) => {
            if op != BinaryOp::Add && op != BinaryOp::Sub {
                return None;
            }
            let a = p.arg(u, 0);
            let b = p.arg(u, 1);
            let fixed_a = constant_op(p.op(a));
            let fixed_b = constant_op(p.op(b));
            if fixed_a && !fixed_b {
                Some((a, op))
            } else if fixed_b && !fixed_a {
                Some((b, op))
            } else {
                None
            }
        },
        _ => None,
    }
}

/// What stands for the parameters `params[from..]` of the header while the body is run once: zero for
/// the sum and the counter, and what they are at entry for all others.
pub open spec fn params_mapped(
    params: Seq<Inst>,
    args: Seq<Inst>,
    zero: Inst,
    acc_idx: int,
    r_idx: int,
    from: int,
    m: Map<usize, Inst>,
) -> Map<usize, Inst>
    decreases params.len() - from,
{
    if from >= params.len() {
        m
    } else {
        let v = if from == acc_idx || from == r_idx {
            zero
        } else {
            nth(args, from)
        };
        params_mapped(params, args, zero, acc_idx, r_idx, from + 1, m.insert(params[from].0, v))
    }
}

fn map_params(params: &Vec<Inst>, args: &Vec<Inst>, zero: Inst, acc_idx: usize, r_idx: usize, m: &mut FxHashMap<usize, Inst>)
    ensures
        final(m)@ == params_mapped(params@, args@, zero, acc_idx as int, r_idx as int, 0, old(m)@),
{
    let mut k: usize = 0;
    while k < params.len()
        invariant
            k <= params@.len(),
            params_mapped(params@, args@, zero, acc_idx as int, r_idx as int, 0, old(m)@) == params_mapped(
                params@,
                args@,
                zero,
                acc_idx as int,
                r_idx as int,
                k as int,
                m@,
            ),
        decreases params@.len() - k,
    {
        let v = if k == acc_idx || k == r_idx {
            zero
        } else {
            at(args, k)
        };
        fx_insert(m, params[k].0, v);
        k += 1;
    }
}

/// The blocks of `blocks[from..]` that are in the region, behind `found`.
pub open spec fn in_order(blocks: Seq<BasicBlock>, region: Seq<BasicBlock>, from: int, found: Seq<BasicBlock>) -> Seq<
    BasicBlock,
>
    decreases blocks.len() - from,
{
    if from >= blocks.len() {
        found
    } else if region.contains(blocks[from]) {
        in_order(blocks, region, from + 1, found.push(blocks[from]))
    } else {
        in_order(blocks, region, from + 1, found)
    }
}

fn put_in_order(blocks: &Vec<BasicBlock>, region: &Vec<BasicBlock>) -> (r: Vec<BasicBlock>)
    ensures
        r@ == in_order(blocks@, region@, 0, Seq::empty()),
{
    let mut r: Vec<BasicBlock> = Vec::new();
    assert(r@ =~= Seq::empty());
    let mut k: usize = 0;
    while k < blocks.len()
        invariant
            k <= blocks@.len(),
            in_order(blocks@, region@, 0, Seq::empty()) == in_order(blocks@, region@, k as int, r@),
        decreases blocks@.len() - k,
    {
        if has_block(region, blocks[k]) {
            r.push(blocks[k]);
        }
        k += 1;
    }
    r
}

/// What stands for `from[k..]`: the entries of `to`.
pub open spec fn paired(from: Seq<Inst>, to: Seq<Inst>, k: int, m: Map<usize, Inst>) -> Map<usize, Inst>
    decreases from.len() - k,
{
    if k >= from.len() || k >= to.len() {
        m
    } else {
        paired(from, to, k + 1, m.insert(from[k].0, to[k]))
    }
}

/// Lets the entries of `to` stand for those of `from`.
pub fn pair_up(from: &Vec<Inst>, to: &Vec<Inst>, m: &mut FxHashMap<usize, Inst>)
    ensures
        final(m)@ == paired(from@, to@, 0, old(m)@),
{
    let mut k: usize = 0;
    while k < from.len() && k < to.len()
        invariant
            k <= from@.len(),
            k <= to@.len(),
            paired(from@, to@, 0, old(m)@) == paired(from@, to@, k as int, m@),
        decreases from@.len() - k,
    {
        fx_insert(m, from[k].0, to[k]);
        k += 1;
    }
}

/// What copying blocks carries along: the program, which block stands for which, which value for
/// which, and the block that the next copy goes behind.
#[verifier::ext_equal]
pub struct CopyV {
    pub p: ProgramV,
    pub pairs: Seq<(BasicBlock, BasicBlock)>,
    pub m: Map<usize, Inst>,
    pub anchor: BasicBlock,
}

/// Block `b` given an empty copy with the same parameters behind the last one.
pub open spec fn block_copied(st: CopyV, f: Function, prefix: Seq<char>, suffix: Seq<char>, b: BasicBlock) -> CopyV {
    let c = st.p.next_block();
    let q = st.p.basic_block(prefix + st.p.block(b).name + suffix, param_types(st.p, b)).insert_bb_after(
        f,
        st.anchor,
        c,
    );
    CopyV {
        p: q,
        pairs: st.pairs.push((b, c)),
        m: paired(q.block(b).params, q.block(c).params, 0, st.m),
        anchor: c,
    }
}

/// The blocks `blocks[from..]` given empty copies.
pub open spec fn blocks_copied(
    st: CopyV,
    f: Function,
    prefix: Seq<char>,
    suffix: Seq<char>,
    blocks: Seq<BasicBlock>,
    from: int,
) -> CopyV
    decreases blocks.len() - from,
{
    if from >= blocks.len() {
        st
    } else {
        blocks_copied(block_copied(st, f, prefix, suffix, blocks[from]), f, prefix, suffix, blocks, from + 1)
    }
}

/// Gives `blocks` empty copies behind `anchor`; gives the last of them.
pub fn copy_blocks(
    p: &mut Program,
    f: Function,
    prefix: &str,
    suffix: &str,
    blocks: &Vec<BasicBlock>,
    anchor: BasicBlock,
    pairs: &mut Vec<(BasicBlock, BasicBlock)>,
    m: &mut FxHashMap<usize, Inst>,
) -> (last: BasicBlock)
    ensures
        (CopyV { p: final(p)@, pairs: final(pairs)@, m: final(m)@, anchor: last }) == blocks_copied(
            (CopyV { p: old(p)@, pairs: old(pairs)@, m: old(m)@, anchor }),
            f,
            prefix@,
            suffix@,
            blocks@,
            0,
        ),
{
    let ghost start = CopyV { p: p@, pairs: pairs@, m: m@, anchor };
    let mut last = anchor;
    let mut k: usize = 0;
    while k < blocks.len()
        invariant
            k <= blocks@.len(),
            blocks_copied(start, f, prefix@, suffix@, blocks@, 0) == blocks_copied(
                (CopyV { p: p@, pairs: pairs@, m: m@, anchor: last }),
                f,
                prefix@,
                suffix@,
                blocks@,
                k as int,
            ),
        decreases blocks@.len() - k,
    {
        let b = blocks[k];
        let name = concat3(prefix, p.block_name(b).as_str(), suffix);
        let tys = block_param_types(p, b);
        let c = p.basic_block(name, tys);
        p.insert_bb_after(f, last, c);
        pairs.push((b, c));
        let from = p.block_params(b);
        let to = p.block_params(c);
        pair_up(&from, &to, m);
        last = c;
        k += 1;
    }
    last
}

/// The instructions `insts[from..]` copied, the last one only where `whole` is set.
pub open spec fn insts_copied(
    p: ProgramV,
    f: Function,
    pairs: Seq<(BasicBlock, BasicBlock)>,
    m: Map<usize, Inst>,
    insts: Seq<Inst>,
    whole: bool,
    from: int,
    fuel: nat,
) -> (ProgramV, Map<usize, Inst>)
    decreases insts.len() - from,
{
    if from >= insts.len() || (!whole && from == insts.len() - 1) {
        (p, m)
    } else {
        let (q, more, _) = cloned(p, f, pairs, m, insts[from], fuel);
        insts_copied(q, f, pairs, more, insts, whole, from + 1, fuel)
    }
}

/// The instructions of the blocks `blocks[from..]` copied, but for the end of `latch`.
pub open spec fn bodies_copied(
    p: ProgramV,
    f: Function,
    pairs: Seq<(BasicBlock, BasicBlock)>,
    m: Map<usize, Inst>,
    blocks: Seq<BasicBlock>,
    latch: BasicBlock,
    from: int,
    fuel: nat,
) -> (ProgramV, Map<usize, Inst>)
    decreases blocks.len() - from,
{
    if from >= blocks.len() {
        (p, m)
    } else {
        let (q, more) = insts_copied(
            p,
            f,
            pairs,
            m,
            p.block(blocks[from]).insts,
            blocks[from] != latch,
            0,
            fuel,
        );
        bodies_copied(q, f, pairs, more, blocks, latch, from + 1, fuel)
    }
}

fn copy_bodies(
    p: &mut Program,
    f: Function,
    pairs: &Vec<(BasicBlock, BasicBlock)>,
    m: &mut FxHashMap<usize, Inst>,
    blocks: &Vec<BasicBlock>,
    latch: BasicBlock,
    fuel: usize,
)
    ensures
        (final(p)@, final(m)@) == bodies_copied(
            old(p)@,
            f,
            pairs@,
            old(m)@,
            blocks@,
            latch,
            0,
            fuel as nat,
        ),
{
    let ghost start = (p@, m@);
    let mut k: usize = 0;
    while k < blocks.len()
        invariant
            k <= blocks@.len(),
            bodies_copied(start.0, f, pairs@, start.1, blocks@, latch, 0, fuel as nat) == bodies_copied(
                p@,
                f,
                pairs@,
                m@,
                blocks@,
                latch,
                k as int,
                fuel as nat,
            ),
        decreases blocks@.len() - k,
    {
        let insts = p.block_insts(blocks[k]);
        let whole = blocks[k] != latch;
        let ghost mid = (p@, m@);
        let mut j: usize = 0;
        while j < insts.len() && (whole || j < insts.len() - 1)
            invariant
                j <= insts@.len(),
                insts_copied(mid.0, f, pairs@, mid.1, insts@, whole, 0, fuel as nat) == insts_copied(
                    p@,
                    f,
                    pairs@,
                    m@,
                    insts@,
                    whole,
                    j as int,
                    fuel as nat,
                ),
            decreases insts@.len() - j,
        {
            clone_inst(p, f, pairs, m, insts[j], fuel);
            j += 1;
        }
        k += 1;
    }
}

/// `args` filled up to `n` entries with `v`.
pub open spec fn filled(args: Seq<Inst>, n: nat, v: Inst) -> Seq<Inst>
    decreases n - args.len(),
{
    if args.len() >= n {
        args
    } else {
        filled(args.push(v), n, v)
    }
}

fn fill(args: Vec<Inst>, n: usize, v: Inst) -> (r: Vec<Inst>)
    ensures
        r@ == filled(args@, n as nat, v),
{
    let ghost start = args@;
    let mut r = args;
    while r.len() < n
        invariant
            filled(start, n as nat, v) == filled(r@, n as nat, v),
        decreases n - r@.len(),
    {
        r.push(v);
    }
    r
}

/// Transfer `t` made to pass `n` values to `header`, filled up with a literal.
pub open spec fn edge_filled(p: ProgramV, t: Inst, header: BasicBlock, n: nat) -> ProgramV {
    let dummy = p.next_inst();
    let q = literal_made(p, 0);
    match q.op(t) {
        Op::Jump(x) => if x == header {
            q.set_inst(t, Op::Jump(x), filled(q.args(t), n, dummy), Type::Unit)
        } else {
            q
        },
        Op::Branch(x, y, _) => {
            let ta = if x == header {
                filled(q.t_args(t), n, dummy)
            } else {
                q.t_args(t)
            };
            let fa = if y == header {
                filled(q.f_args(t), n, dummy)
            } else {
                q.f_args(t)
            };
            q.set_inst(t, Op::Branch(x, y, ta.len() as usize), seq![q.arg(t, 0)] + ta + fa, Type::Unit)
        },
        _ => q,
    }
}

fn fill_edge(p: &mut Program, t: Inst, header: BasicBlock, n: usize)
    ensures
        final(p)@ == edge_filled(old(p)@, t, header, n as nat),
{
    let dummy = p.integer(0);
    match p.op(t) {
        Op::Jump(x) => {
            if x == header {
                let args = fill(p.args(t), n, dummy);
                p.set_inst(t, Op::Jump(x), args, Type::Unit);
            }
        },
        Op::Branch(x, y, _) => {
            let mut ta = p.t_args(t);
            let mut fa = p.f_args(t);
            if x == header {
                ta = fill(ta, n, dummy);
            }
            if y == header {
                fa = fill(fa, n, dummy);
            }
            let cond = p.arg(t, 0);
            let count: usize = ta.len();
            let all = branch_args(cond, &ta, &fa);
            p.set_inst(t, Op::Branch(x, y, count), all, Type::Unit);
        },
        _ => {},
    }
}

/// Those of `users[from..]` that stand in `f` made to pass `n` values to `header`.
pub open spec fn edges_filled(p: ProgramV, users: Seq<Inst>, header: BasicBlock, n: nat, from: int) -> ProgramV
    decreases users.len() - from,
{
    if from >= users.len() {
        p
    } else {
        edges_filled(edge_filled(p, users[from], header, n), users, header, n, from + 1)
    }
}

/// Those of `users[from..]` that stand in `f`, behind `found`.
pub open spec fn placed_users(p: ProgramV, f: Function, users: Seq<Inst>, from: int, found: Seq<Inst>) -> Seq<Inst>
    decreases users.len() - from,
{
    if from >= users.len() {
        found
    } else if p.parent_bb(f, users[from]) is Some {
        placed_users(p, f, users, from + 1, found.push(users[from]))
    } else {
        placed_users(p, f, users, from + 1, found)
    }
}

fn fill_edges(p: &mut Program, f: Function, header: BasicBlock, n: usize)
    ensures
        final(p)@ == edges_filled(
            old(p)@,
            placed_users(old(p)@, f, old(p)@.block_users(header), 0, Seq::empty()),
            header,
            n as nat,
            0,
        ),
{
    let users = p.block_users(header);
    let mut stale: Vec<Inst> = Vec::new();
    assert(stale@ =~= Seq::empty());
    let mut k: usize = 0;
    while k < users.len()
        invariant
            k <= users@.len(),
            p@ == old(p)@,
            placed_users(p@, f, users@, 0, Seq::empty()) == placed_users(p@, f, users@, k as int, stale@),
        decreases users@.len() - k,
    {
        if p.parent_bb(f, users[k]).is_some() {
            stale.push(users[k]);
        }
        k += 1;
    }
    let mut k: usize = 0;
    while k < stale.len()
        invariant
            k <= stale@.len(),
            edges_filled(old(p)@, stale@, header, n as nat, 0) == edges_filled(
                p@,
                stale@,
                header,
                n as nat,
                k as int,
            ),
        decreases stale@.len() - k,
    {
        fill_edge(p, stale[k], header, n);
        k += 1;
    }
}

/// The body copied to run once before the loop, from a sum of zero: gives the program, the block that
/// the body is entered by, and the block that gets what the body adds.
pub open spec fn once_built(p: ProgramV, f: Function, c: OuterV, pre: BasicBlock, args: Seq<Inst>) -> (
    ProgramV,
    BasicBlock,
    BasicBlock,
) {
    let params = p.block(c.header).params;
    let zero = p.next_inst();
    let p1 = literal_made(p, 0);
    let m = params_mapped(params, args, zero, c.acc_idx, c.r_idx, 0, Map::empty());
    let order = in_order(p1.func(f).blocks, c.region, 0, Seq::empty());
    let done = p1.next_block();
    let p2 = p1.basic_block("irh_done"@, seq![Type::I32]);
    let st = blocks_copied(
        (CopyV { p: p2, pairs: Seq::empty(), m, anchor: pre }),
        f,
        "irh_"@,
        ""@,
        order,
        0,
    );
    let p3 = st.p.insert_bb_after(f, st.anchor, done);
    let (p4, m4) = bodies_copied(p3, f, st.pairs, st.m, order, c.latch, 0, p3.insts.len());
    let (p5, _, last) = cloned(p4, f, st.pairs, m4, c.final_acc, p3.insts.len());
    let p6 = p5.push_inst(Op::Jump(done), seq![last], Type::Unit, false).append(
        moved_block(st.pairs, c.latch),
        p5.next_inst(),
    );
    (p6, moved_block(st.pairs, c.entry), done)
}

fn block_for(pairs: &Vec<(BasicBlock, BasicBlock)>, b: BasicBlock) -> (r: BasicBlock)
    ensures
        r == moved_block(pairs@, b),
{
    match sent_to(pairs, b) {
        Some(x) => x,
        None => b,
    }
}

fn build_once(p: &mut Program, f: Function, c: &OuterCandidate, pre: BasicBlock, args: &Vec<Inst>) -> (r: (
    BasicBlock,
    BasicBlock,
))
    ensures
        (final(p)@, r.0, r.1) == once_built(old(p)@, f, c@, pre, args@),
{
    let params = p.block_params(c.header);
    let zero = p.integer(0);
    let mut m: FxHashMap<usize, Inst> = fx_empty();
    map_params(&params, args, zero, c.acc_idx, c.r_idx, &mut m);
    let blocks = p.basicblocks(f);
    let order = put_in_order(&blocks, &c.region);
    let tys = vec![Type::I32];
    assert(tys@ =~= seq![Type::I32]);
    let done = p.basic_block("irh_done".to_string(), tys);
    let mut pairs: Vec<(BasicBlock, BasicBlock)> = Vec::new();
    assert(pairs@ =~= Seq::empty());
    let last_block = copy_blocks(p, f, "irh_", "", &order, pre, &mut pairs, &mut m);
    p.insert_bb_after(f, last_block, done);
    let fuel: usize = p.num_insts();
    copy_bodies(p, f, &pairs, &mut m, &order, c.latch, fuel);
    let last = clone_inst(p, f, &pairs, &mut m, c.final_acc, fuel);
    let passed = vec![last];
    assert(passed@ =~= seq![last]);
    let jump = p.jump(done, passed);
    p.insert_inst(block_for(&pairs, c.latch), jump);
    (block_for(&pairs, c.entry), done)
}

/// The loop reduced to adding the same every round: the header gets what a round adds as one more
/// parameter, and goes to a new block that adds it and moves the counter.
pub open spec fn loop_reduced(
    p: ProgramV,
    f: Function,
    c: OuterV,
    args: Seq<Inst>,
    params: Seq<Inst>,
    done: BasicBlock,
    step: Inst,
    op: BinaryOp,
) -> ProgramV {
    let carrier = p.next_inst();
    let p1 = p.add_param(c.header, Type::I32);
    let p2 = p1.push_inst(
        Op::Jump(c.header),
        args.push(nth(p1.block(done).params, 0)),
        Type::Unit,
        false,
    ).append(done, p1.next_inst());
    let p3 = edges_filled(
        p2,
        placed_users(p2, f, p2.block_users(c.header), 0, Seq::empty()),
        c.header,
        p2.block(c.header).params.len(),
        0,
    );
    let latch = p3.next_block();
    let p4 = p3.basic_block("irh_latch"@, Seq::empty()).insert_bb_after(f, done, latch);
    let acc2 = p4.next_inst();
    let p5 = binary_made(p4, BinaryOp::Add, nth(params, c.acc_idx), carrier);
    let r2 = p5.next_inst();
    let p6 = binary_made(p5, op, nth(params, c.r_idx), step);
    let back = p6.next_inst();
    let p7 = p6.push_inst(
        Op::Jump(c.header),
        params.update(c.acc_idx, acc2).update(c.r_idx, r2).push(carrier),
        Type::Unit,
        false,
    ).append(latch, acc2).append(latch, r2).append(latch, back);
    let t = p7.terminator(c.header);
    match p7.op(t) {
        Op::Branch(x, y, _) => if y == c.exit {
            p7.set_inst(t, Op::Branch(latch, y, 0), seq![p7.arg(t, 0)] + Seq::empty() + p7.f_args(t), Type::Unit)
        } else {
            p7.set_inst(
                t,
                Op::Branch(x, latch, p7.t_args(t).len() as usize),
                seq![p7.arg(t, 0)] + p7.t_args(t) + Seq::empty(),
                Type::Unit,
            )
        },
        _ => p7,
    }
}

fn reduce_loop(
    p: &mut Program,
    f: Function,
    c: &OuterCandidate,
    args: &Vec<Inst>,
    params: &Vec<Inst>,
    done: BasicBlock,
    step: Inst,
    op: BinaryOp,
)
    requires
        c.acc_idx < params@.len(),
        c.r_idx < params@.len(),
    ensures
        final(p)@ == loop_reduced(old(p)@, f, c@, args@, params@, done, step, op),
{
    let carrier = p.add_param(c.header, Type::I32);
    let done_params = p.block_params(done);
    let mut done_args = crate::ir::copy_vec(args);
    done_args.push(at(&done_params, 0));
    let jump = p.jump(c.header, done_args);
    p.insert_inst(done, jump);
    let n: usize = p.block_params(c.header).len();
    fill_edges(p, f, c.header, n);
    let none: Vec<Type> = Vec::new();
    assert(none@ =~= Seq::empty());
    let latch = p.basic_block("irh_latch".to_string(), none);
    p.insert_bb_after(f, done, latch);
    let acc2 = p.binary(BinaryOp::Add, at(params, c.acc_idx), carrier);
    let r2 = p.binary(op, at(params, c.r_idx), step);
    let mut back_args = crate::ir::copy_vec(params);
    back_args.set(c.acc_idx, acc2);
    back_args.set(c.r_idx, r2);
    back_args.push(carrier);
    let back = p.jump(c.header, back_args);
    p.insert_inst(latch, acc2);
    p.insert_inst(latch, r2);
    p.insert_inst(latch, back);
    let t = p.terminator(c.header);
    match p.op(t) {
        Op::Branch(x, y, _) => {
            let cond = p.arg(t, 0);
            let nothing_passed: Vec<Inst> = Vec::new();
            assert(nothing_passed@ =~= Seq::empty());
            if y == c.exit {
                let fa = p.f_args(t);
                let all = branch_args(cond, &nothing_passed, &fa);
                p.set_inst(t, Op::Branch(latch, y, 0), all, Type::Unit);
            } else {
                let ta = p.t_args(t);
                let count: usize = ta.len();
                let all = branch_args(cond, &ta, &nothing_passed);
                p.set_inst(t, Op::Branch(x, latch, count), all, Type::Unit);
            }
        },
        _ => {},
    }
}

/// The loop of `c` rewritten; `None` where that cannot be done. Where the loop has no block of its own
/// before it, giving it one is all that is done.
pub open spec fn hoisted(p: ProgramV, f: Function, order: Seq<BasicBlock>, l: LoopV, c: OuterV) -> Option<ProgramV> {
    match with_preheader(p, f, order, l) {
        None => None,
        Some((q, EnsurePreheader::Created(_))) => Some(q),
        Some((_, EnsurePreheader::Existing(pre))) => {
            let args = p.args(p.terminator(pre));
            let params = p.block(c.header).params;
            match step_of(p, c) {
                Some((step, op)) => if !(p.op(p.terminator(pre)) is Jump) || args.len() != params.len() || c.acc_idx
                    >= params.len() || c.r_idx >= params.len() {
                    None
                } else {
                    let (p1, entry, done) = once_built(p, f, c, pre, args);
                    let p2 = loop_reduced(p1, f, c, args, params, done, step, op);
                    Some(p2.set_inst(p2.terminator(pre), Op::Jump(entry), Seq::empty(), Type::Unit))
                },
                None => None,
            }
        },
    }
}

/// The first of the loops `loops[from..]` that can be rewritten is.
pub open spec fn first_hoisted(p: ProgramV, f: Function, order: Seq<BasicBlock>, loops: Seq<LoopV>, from: int) -> (
    ProgramV,
    bool,
)
    decreases loops.len() - from,
{
    if from >= loops.len() {
        (p, false)
    } else {
        match outer_of(p, f, loops[from]) {
            Some(c) => match hoisted(p, f, order, loops[from], c) {
                Some(q) => (q, true),
                None => first_hoisted(p, f, order, loops, from + 1),
            },
            None => first_hoisted(p, f, order, loops, from + 1),
        }
    }
}

/// Function `f` with one loop rewritten, where one can be.
pub open spec fn with_hoisting(p: ProgramV, f: Function) -> (ProgramV, bool) {
    if entry_of(p, f) is None {
        (p, false)
    } else {
        let order = reverse_postorder(p, f);
        first_hoisted(p, f, order, loops_of(tree_of(p, f), order), 0)
    }
}

/// The functions `layout[from..]`, each with its first such loop rewritten.
pub open spec fn hoisting_everywhere(p: ProgramV, layout: Seq<Function>, from: int, changed: bool) -> (ProgramV, bool)
    decreases layout.len() - from,
{
    if from >= layout.len() {
        (p, changed)
    } else {
        let (q, here) = with_hoisting(p, layout[from]);
        hoisting_everywhere(q, layout, from + 1, changed || here)
    }
}

impl InvariantReductionHoisting {
    /// Rewrites the loop of `cand`. False, with nothing changed, where that cannot be done.
    pub fn apply(data: &mut Program, f: Function, order: &Vec<BasicBlock>, looop: &Loop, cand: &OuterCandidate) -> (r: bool)
        ensures
            match hoisted(old(data)@, f, order@, looop@, cand@) {
                Some(q) => r && final(data)@ == q,
                None => !r && final(data)@ == old(data)@,
            },
    {
        let pre = match ensure_preheader(data, f, order, looop) {
            None => {
                return false;
            },
            Some(EnsurePreheader::Created(_)) => {
                return true;
            },
            Some(EnsurePreheader::Existing(b)) => b,
        };
        let t = data.terminator(pre);
        let args = data.args(t);
        let params = data.block_params(cand.header);
        let (step, op) = match find_step(data, cand) {
            Some(s) => s,
            None => {
                return false;
            },
        };
        if !matches!(data.op(t), Op::Jump(_)) || args.len() != params.len() || cand.acc_idx >= params.len() || cand.r_idx
            >= params.len() {
            return false;
        }
        let (entry, done) = build_once(data, f, cand, pre, &args);
        reduce_loop(data, f, cand, &args, &params, done, step, op);
        let t = data.terminator(pre);
        let none: Vec<Inst> = Vec::new();
        assert(none@ =~= Seq::empty());
        data.set_inst(t, Op::Jump(entry), none, Type::Unit);
        true
    }

    /// Rewrites in every function the first such loop. True when anything changed.
    pub fn run(&mut self, program: &mut Program) -> (changed: bool)
        ensures
            (final(program)@, changed) == hoisting_everywhere(old(program)@, old(program)@.layout, 0, false),
    {
        let layout = program.function_layout();
        let mut changed = false;
        let mut k: usize = 0;
        while k < layout.len()
            invariant
                k <= layout@.len(),
                hoisting_everywhere(old(program)@, layout@, 0, false) == hoisting_everywhere(program@, layout@, k as int, changed),
            decreases layout@.len() - k,
        {
            let here = self.run_on(program, layout[k]);
            changed = changed || here;
            k += 1;
        }
        changed
    }

    /// Rewrites the first loop of `f` whose body adds the same to its sum in every round. True when
    /// anything changed.
    pub fn run_on(&mut self, data: &mut Program, f: Function) -> (changed: bool)
        ensures
            (final(data)@, changed) == with_hoisting(old(data)@, f),
    {
        let tree = match DomTree::new(data, f) {
            None => {
                return false;
            },
            Some(t) => t,
        };
        let order = rpo_path(data, f);
        let loops = find_loops(&tree, &order);
        let mut k: usize = 0;
        while k < loops.len()
            invariant
                k <= loops@.len(),
                data@ == old(data)@,
                tree.wf(),
                tree@ == tree_of(data@, f),
                order@ == reverse_postorder(data@, f),
                entry_of(data@, f) is Some,
                views(loops@) == loops_of(tree@, order@),
                with_hoisting(data@, f) == first_hoisted(data@, f, order@, views(loops@), k as int),
            decreases loops@.len() - k,
        {
            assert(views(loops@)[k as int] == loops@[k as int]@);
            if let Some(c) = Self::find_outer(data, f, &loops[k]) {
                if Self::apply(data, f, &order, &loops[k], &c) {
                    return true;
                }
            }
            k += 1;
        }
        false
    }
}

/// The sum after `n` rounds that each add `d`.
pub open spec fn repeated_sum(acc: i32, d: i32, n: nat) -> i32
    decreases n,
{
    if n == 0 {
        acc
    } else {
        int_op(BinaryOp::Add, repeated_sum(acc, d, (n - 1) as nat), d)
    }
}

/// Rounds that each add the same give the sum at entry plus that many times it, modulo the word size.
pub proof fn rounds_add_up(acc: i32, d: i32, n: nat)
    ensures
        repeated_sum(acc, d, n) == wrap32(acc + n * d),
    decreases n,
{
    if n == 0 {
        assert(0 * d == 0) by (nonlinear_arith);
    } else {
        let m = (n - 1) as nat;
        rounds_add_up(acc, d, m);
        assert(n * d == m * d + d) by (nonlinear_arith)
            requires
                n == m + 1,
        ;
        lemma_wrap_twice(acc + m * d, d as int);
    }
}

proof fn lemma_wrap_twice(x: int, y: int)
    ensures
        wrap32(wrap32(x) + y) == wrap32(x + y),
{
    let m = x % 0x1_0000_0000;
    let q = x / 0x1_0000_0000;
    assert(x == q * 0x1_0000_0000 + m);
}

} // verus!
