//! Sparse conditional constant propagation within one function.

use rustc_hash::FxHashMap;
use vstd::prelude::*;

use crate::arith::{defined, fold_int, int_op};
use crate::cfg::entry_of;
use crate::dce::{islands_removed, UnreachableBasicBlock};
use crate::ipsccp::{branches_folded, fold_block_branches, fold_float_bits, truncated};
use crate::ir::{has_block, BasicBlock, BinaryOp, Function, Inst, Op, ProgramV, Type};
use crate::program::{prepended, Program};
use crate::table::{fx_empty, fx_get, fx_insert};

verus! {

pub struct SparseConditionConstantPropagation;

/// What is known of a value: nothing yet, one constant, or that it varies.
#[derive(Clone, Copy, Debug, PartialEq, Eq, Structural)]
pub enum VariableStatus {
    Top,
    Constant(i32),
    Bottom,
}

impl VariableStatus {
    pub fn new_with_const(value: i32) -> (r: VariableStatus)
        ensures
            r == VariableStatus::Constant(value),
    {
        VariableStatus::Constant(value)
    }

    pub fn new_variable() -> (r: VariableStatus)
        ensures
            r == VariableStatus::Bottom,
    {
        VariableStatus::Bottom
    }

    /// What a second status makes of this one: a constant that meets another status varies, and
    /// anything else stays.
    pub open spec fn updated(self, status: VariableStatus) -> VariableStatus {
        if self is Constant && self != status {
            VariableStatus::Bottom
        } else {
            self
        }
    }

    /// Takes in a second status. True when that changes this one.
    pub fn update(&mut self, status: VariableStatus) -> (changed: bool)
        ensures
            *final(self) == old(self).updated(status),
            changed == (*final(self) != *old(self)),
    {
        match *self {
            VariableStatus::Constant(_) => {
                if *self != status {
                    *self = VariableStatus::Bottom;
                    true
                } else {
                    false
                }
            },
            _ => false,
        }
    }

    pub fn as_const(&self) -> (r: Option<i32>)
        ensures
            r == (match *self {
                VariableStatus::Constant(c) => Some(c),
                _ => None,
            }),
    {
        match self {
            VariableStatus::Constant(c) => Some(*c),
            _ => None,
        }
    }
}

/// What is known of each value, by the number of its handle.
pub struct InstStatusMap {
    status: FxHashMap<usize, VariableStatus>,
}

impl View for InstStatusMap {
    type V = Map<usize, VariableStatus>;

    closed spec fn view(&self) -> Map<usize, VariableStatus> {
        self.status@
    }
}

/// What is known of `i`: nothing yet where `m` has no entry.
pub open spec fn status_of(m: Map<usize, VariableStatus>, i: Inst) -> VariableStatus {
    if m.contains_key(i.0) {
        m[i.0]
    } else {
        VariableStatus::Top
    }
}

/// `status` noted for `i`, where an entry exists by updating it.
pub open spec fn noted(m: Map<usize, VariableStatus>, i: Inst, status: VariableStatus) -> Map<usize, VariableStatus> {
    if m.contains_key(i.0) {
        m.insert(i.0, m[i.0].updated(status))
    } else {
        m.insert(i.0, status)
    }
}

/// Noting `status` for `i` changes an entry that exists.
pub open spec fn lowers(m: Map<usize, VariableStatus>, i: Inst, status: VariableStatus) -> bool {
    m.contains_key(i.0) && m[i.0].updated(status) != m[i.0]
}

impl InstStatusMap {
    pub fn new() -> (r: InstStatusMap)
        ensures
            (r@ == Map::<usize, VariableStatus>::empty()),
    {
        InstStatusMap { status: fx_empty() }
    }

    /// Notes `status` for a value that has no entry.
    pub fn insert(&mut self, val: Inst, status: VariableStatus)
        requires
            !old(self)@.contains_key(val.0),
        ensures
            final(self)@ == old(self)@.insert(val.0, status),
    {
        fx_insert(&mut self.status, val.0, status);
    }

    /// Updates the entry of `val`. True when that changes it.
    pub fn merge(&mut self, val: Inst, status: VariableStatus) -> (changed: bool)
        requires
            old(self)@.contains_key(val.0),
        ensures
            final(self)@ == old(self)@.insert(val.0, old(self)@[val.0].updated(status)),
            changed == (old(self)@[val.0].updated(status) != old(self)@[val.0]),
    {
        let mut entry = fx_get(&self.status, val.0).unwrap();
        let changed = entry.update(status);
        fx_insert(&mut self.status, val.0, entry);
        changed
    }

    /// Notes `status` for `val`. True when that changes an entry that exists.
    pub fn insert_or_merge(&mut self, val: Inst, status: VariableStatus) -> (changed: bool)
        ensures
            final(self)@ == noted(old(self)@, val, status),
            changed == lowers(old(self)@, val, status),
    {
        match self.get_safe(val) {
            Some(_) => self.merge(val, status),
            None => {
                self.insert(val, status);
                false
            },
        }
    }

    pub fn get(&self, val: Inst) -> (r: VariableStatus)
        ensures
            r == status_of(self@, val),
    {
        match fx_get(&self.status, val.0) {
            Some(s) => s,
            None => VariableStatus::Top,
        }
    }

    pub fn get_safe(&self, val: Inst) -> (r: Option<VariableStatus>)
        ensures
            r == (if self@.contains_key(val.0) {
                Some(self@[val.0])
            } else {
                None
            }),
    {
        fx_get(&self.status, val.0)
    }
}

/// Folds an integer operation.
pub fn mathematic_operation(op: BinaryOp, lhs: i32, rhs: i32) -> (r: i32)
    requires
        defined(op, rhs),
    ensures
        r == int_op(op, lhs, rhs),
{
    fold_int(op, lhs, rhs)
}

/// The integer nearest to zero's side of the single-precision value with these bits: a value that
/// does not fit gives the nearest bound, one that is no number gives zero.
pub open spec fn saturated(bits: u32) -> i32 {
    match truncated(bits) {
        Some(k) => k,
        None => if (bits & 0x7fff_ffff) > 0x7f80_0000 {
            0
        } else if (bits >> 31) == 1 {
            i32::MIN
        } else {
            i32::MAX
        },
    }
}

fn saturate_float_bits(bits: u32) -> (r: i32)
    ensures
        r == saturated(bits),
{
    match fold_float_bits(bits) {
        Some(k) => k,
        None => if (bits & 0x7fff_ffff) > 0x7f80_0000 {
            0
        } else if (bits >> 31) == 1 {
            i32::MIN
        } else {
            i32::MAX
        },
    }
}

/// What the propagation holds between two visits: what is known, the control edges still to be
/// followed, and the blocks that an edge led to.
#[verifier::ext_equal]
pub struct FlowV {
    pub status: Map<usize, VariableStatus>,
    pub flow: Seq<(BasicBlock, BasicBlock)>,
    pub known: Seq<BasicBlock>,
}

/// Those of `users[from..]` that stand in known blocks, behind `found`.
pub open spec fn affected_from(
    p: ProgramV,
    f: Function,
    known: Seq<BasicBlock>,
    users: Seq<Inst>,
    from: int,
    found: Seq<Inst>,
) -> Seq<Inst>
    decreases users.len() - from,
{
    if from >= users.len() {
        found
    } else {
        let hit = match p.parent_bb(f, users[from]) {
            Some(b) => known.contains(b),
            None => false,
        };
        if hit {
            affected_from(p, f, known, users, from + 1, found.push(users[from]))
        } else {
            affected_from(p, f, known, users, from + 1, found)
        }
    }
}

/// The users of `i` that stand in known blocks.
pub open spec fn affected(p: ProgramV, f: Function, known: Seq<BasicBlock>, i: Inst) -> Seq<Inst> {
    affected_from(p, f, known, p.users(i), 0, Seq::empty())
}

/// Status `s` noted for `i`, with what is to be visited again.
pub open spec fn settled(p: ProgramV, f: Function, st: FlowV, i: Inst, s: VariableStatus) -> (FlowV, Option<Seq<Inst>>) {
    (
        FlowV { status: noted(st.status, i, s), ..st },
        if lowers(st.status, i, s) {
            Some(affected(p, f, st.known, i))
        } else {
            None
        },
    )
}

/// What is known of operand `e`.
pub open spec fn operand_status(p: ProgramV, m: Map<usize, VariableStatus>, e: Inst) -> VariableStatus {
    match p.op(e) {
        Op::Integer(k) => VariableStatus::Constant(k),
        _ => status_of(m, e),
    }
}

/// What is known of an argument that an edge passes: an undefined one fits anything.
pub open spec fn passed_status(p: ProgramV, m: Map<usize, VariableStatus>, e: Inst) -> VariableStatus {
    match p.op(e) {
        Op::Integer(k) => VariableStatus::Constant(k),
        Op::Undef => VariableStatus::Top,
        _ => status_of(m, e),
    }
}

/// Arguments `args[from..]` passed to `params`, with what is to be visited again behind `again`.
pub open spec fn args_passed(
    p: ProgramV,
    f: Function,
    st: FlowV,
    args: Seq<Inst>,
    params: Seq<Inst>,
    from: int,
    again: Seq<Inst>,
) -> (FlowV, Seq<Inst>)
    decreases args.len() - from,
{
    if from >= args.len() || from >= params.len() {
        (st, again)
    } else {
        let (next, more) = settled(p, f, st, params[from], passed_status(p, st.status, args[from]));
        args_passed(
            p,
            f,
            next,
            args,
            params,
            from + 1,
            match more {
                Some(x) => again + x,
                None => again,
            },
        )
    }
}

/// Block `t` entered from `b`.
pub open spec fn edge_followed(st: FlowV, b: BasicBlock, t: BasicBlock) -> FlowV {
    FlowV {
        flow: st.flow.push((b, t)),
        known: if st.known.contains(t) {
            st.known
        } else {
            st.known.push(t)
        },
        ..st
    }
}

/// An edge of transfer `i` to `t` with arguments `args` followed.
pub open spec fn taken(
    p: ProgramV,
    f: Function,
    st: FlowV,
    i: Inst,
    t: BasicBlock,
    args: Seq<Inst>,
    again: Seq<Inst>,
) -> (FlowV, Seq<Inst>) {
    let (next, more) = args_passed(p, f, st, args, p.block(t).params, 0, again);
    (edge_followed(next, p.parent_bb(f, i)->0, t), more)
}

/// What a binary operation gives; nothing yet where an operand has no status.
pub open spec fn binary_status(op: BinaryOp, a: VariableStatus, b: VariableStatus) -> VariableStatus {
    match (a, b) {
        (VariableStatus::Bottom, _) => VariableStatus::Bottom,
        (_, VariableStatus::Bottom) => VariableStatus::Bottom,
        (VariableStatus::Constant(x), VariableStatus::Constant(y)) => VariableStatus::Constant(int_op(op, x, y)),
        _ => VariableStatus::Top,
    }
}

/// A binary operation on such operands can be visited: a varying operand decides, otherwise both are
/// constants on which the operation is defined.
pub open spec fn computable(op: BinaryOp, a: VariableStatus, b: VariableStatus) -> bool {
    match (a, b) {
        (VariableStatus::Bottom, _) => true,
        (VariableStatus::Constant(_), VariableStatus::Bottom) => true,
        (VariableStatus::Constant(_), VariableStatus::Constant(y)) => defined(op, y),
        _ => false,
    }
}

/// Instruction `i` can be visited in state `st`.
pub open spec fn visitable(p: ProgramV, f: Function, st: FlowV, i: Inst) -> bool {
    match p.op(i) {
        Op::Store | Op::GetElemPtr | Op::Load | Op::Alloc | Op::Call(_) | Op::Cast | Op::Return => true,
        Op::Binary(op) => computable(
            op,
            operand_status(p, st.status, p.arg(i, 0)),
            operand_status(p, st.status, p.arg(i, 1)),
        ),
        Op::Branch(_, _, _) => p.parent_bb(f, i) is Some && status_of(st.status, p.arg(i, 0)) != VariableStatus::Top,
        Op::Jump(_) => p.parent_bb(f, i) is Some,
        _ => false,
    }
}

/// Instruction `i` visited: the state afterwards, and what is to be visited again.
pub open spec fn processed(p: ProgramV, f: Function, st: FlowV, i: Inst) -> (FlowV, Option<Seq<Inst>>) {
    match p.op(i) {
        Op::GetElemPtr | Op::Load | Op::Alloc | Op::Call(_) => settled(p, f, st, i, VariableStatus::Bottom),
        Op::Binary(op) => settled(
            p,
            f,
            st,
            i,
            binary_status(
                op,
                operand_status(p, st.status, p.arg(i, 0)),
                operand_status(p, st.status, p.arg(i, 1)),
            ),
        ),
        Op::Cast => match (p.ty(i), p.op(p.arg(i, 0))) {
            (Type::I32, Op::Float(bits)) => settled(p, f, st, i, VariableStatus::Constant(saturated(bits))),
            _ => settled(p, f, st, i, VariableStatus::Bottom),
        },
        Op::Branch(t, e, _) => {
            let (next, again) = match status_of(st.status, p.arg(i, 0)) {
                VariableStatus::Constant(c) => if c != 0 {
                    taken(p, f, st, i, t, p.t_args(i), Seq::empty())
                } else {
                    taken(p, f, st, i, e, p.f_args(i), Seq::empty())
                },
                _ => {
                    let (mid, some) = taken(p, f, st, i, t, p.t_args(i), Seq::empty());
                    taken(p, f, mid, i, e, p.f_args(i), some)
                },
            };
            (next, Some(again))
        },
        Op::Jump(t) => {
            let (next, again) = taken(p, f, st, i, t, p.args(i), Seq::empty());
            (next, Some(again))
        },
        _ => (st, None),
    }
}

fn users_affected(data: &Program, f: Function, known: &Vec<BasicBlock>, i: Inst) -> (r: Vec<Inst>)
    ensures
        r@ == affected(data@, f, known@, i),
{
    let users = data.users(i);
    let mut r: Vec<Inst> = Vec::new();
    assert(r@ =~= Seq::empty());
    let mut k: usize = 0;
    while k < users.len()
        invariant
            k <= users@.len(),
            affected_from(data@, f, known@, users@, 0, Seq::empty()) == affected_from(
                data@,
                f,
                known@,
                users@,
                k as int,
                r@,
            ),
        decreases users@.len() - k,
    {
        let hit = match data.parent_bb(f, users[k]) {
            Some(b) => has_block(known, b),
            None => false,
        };
        if hit {
            r.push(users[k]);
        }
        k += 1;
    }
    r
}

/// The sequence that an optional list holds.
pub open spec fn seq_of(r: Option<Vec<Inst>>) -> Option<Seq<Inst>> {
    match r {
        Some(v) => Some(v@),
        None => None,
    }
}

fn settle(
    data: &Program,
    f: Function,
    map: &mut InstStatusMap,
    known: &Vec<BasicBlock>,
    i: Inst,
    s: VariableStatus,
) -> (r: Option<Vec<Inst>>)
    ensures
        final(map)@ == noted(old(map)@, i, s),
        seq_of(r) == (if lowers(old(map)@, i, s) {
            Some(affected(data@, f, known@, i))
        } else {
            None
        }),
{
    if map.insert_or_merge(i, s) {
        Some(users_affected(data, f, known, i))
    } else {
        None
    }
}

fn pass_args(
    data: &Program,
    f: Function,
    map: &mut InstStatusMap,
    known: &Vec<BasicBlock>,
    args: &Vec<Inst>,
    params: &Vec<Inst>,
    again: &mut Vec<Inst>,
    flow: Ghost<Seq<(BasicBlock, BasicBlock)>>,
)
    ensures
        (FlowV { status: final(map)@, flow: flow@, known: known@ }, final(again)@) == args_passed(
            data@,
            f,
            (FlowV { status: old(map)@, flow: flow@, known: known@ }),
            args@,
            params@,
            0,
            old(again)@,
        ),
{
    let ghost start = FlowV { status: map@, flow: flow@, known: known@ };
    let mut k: usize = 0;
    while k < args.len() && k < params.len()
        invariant
            k <= args@.len(),
            k <= params@.len(),
            args_passed(data@, f, start, args@, params@, 0, old(again)@) == args_passed(
                data@,
                f,
                (FlowV { status: map@, flow: flow@, known: known@ }),
                args@,
                params@,
                k as int,
                again@,
            ),
        decreases args@.len() - k,
    {
        let s = match data.op(args[k]) {
            Op::Integer(c) => VariableStatus::Constant(c),
            Op::Undef => VariableStatus::Top,
            _ => map.get(args[k]),
        };
        match settle(data, f, map, known, params[k], s) {
            Some(mut more) => {
                again.append(&mut more);
            },
            None => {},
        }
        k += 1;
    }
}

fn take(
    data: &Program,
    f: Function,
    map: &mut InstStatusMap,
    flow: &mut Vec<(BasicBlock, BasicBlock)>,
    known: &mut Vec<BasicBlock>,
    i: Inst,
    t: BasicBlock,
    args: &Vec<Inst>,
    again: &mut Vec<Inst>,
)
    requires
        data@.parent_bb(f, i) is Some,
    ensures
        (FlowV { status: final(map)@, flow: final(flow)@, known: final(known)@ }, final(again)@) == taken(
            data@,
            f,
            (FlowV { status: old(map)@, flow: old(flow)@, known: old(known)@ }),
            i,
            t,
            args@,
            old(again)@,
        ),
{
    let params = data.block_params(t);
    pass_args(data, f, map, known, args, &params, again, Ghost(flow@));
    let b = data.parent_bb(f, i).unwrap();
    flow.push((b, t));
    if !has_block(known, t) {
        known.push(t);
    }
}

/// Visits instruction `inst`: notes what is now known of it, follows the edges it may take, and gives
/// what is to be visited again.
pub fn process_instruction(
    data: &Program,
    f: Function,
    value_status_map: &mut InstStatusMap,
    inst: Inst,
    flow_worklist: &mut Vec<(BasicBlock, BasicBlock)>,
    known_blocks: &mut Vec<BasicBlock>,
) -> (r: Option<Vec<Inst>>)
    requires
        visitable(
            data@,
            f,
            (FlowV { status: old(value_status_map)@, flow: old(flow_worklist)@, known: old(known_blocks)@ }),
            inst,
        ),
    ensures
        (
            FlowV {
                status: final(value_status_map)@,
                flow: final(flow_worklist)@,
                known: final(known_blocks)@,
            },
            seq_of(r),
        ) == processed(
            data@,
            f,
            (FlowV { status: old(value_status_map)@, flow: old(flow_worklist)@, known: old(known_blocks)@ }),
            inst,
        ),
{
    match data.op(inst) {
        Op::GetElemPtr | Op::Load | Op::Alloc | Op::Call(_) => settle(
            data,
            f,
            value_status_map,
            known_blocks,
            inst,
            VariableStatus::new_variable(),
        ),
        Op::Binary(op) => {
            let a = operand(data, value_status_map, data.arg(inst, 0));
            let b = operand(data, value_status_map, data.arg(inst, 1));
            let s = match (a, b) {
                (VariableStatus::Constant(x), VariableStatus::Constant(y)) => VariableStatus::new_with_const(
                    mathematic_operation(op, x, y),
                ),
                _ => VariableStatus::new_variable(),
            };
            settle(data, f, value_status_map, known_blocks, inst, s)
        },
        Op::Cast => {
            let s = match (data.ty(inst), data.op(data.arg(inst, 0))) {
                (Type::I32, Op::Float(bits)) => VariableStatus::new_with_const(saturate_float_bits(bits)),
                _ => VariableStatus::Bottom,
            };
            settle(data, f, value_status_map, known_blocks, inst, s)
        },
        Op::Branch(t, e, _) => {
            let mut again: Vec<Inst> = Vec::new();
            assert(again@ =~= Seq::empty());
            let cond = value_status_map.get(data.arg(inst, 0));
            let on_true = match cond {
                VariableStatus::Constant(c) => c != 0,
                _ => true,
            };
            let on_false = match cond {
                VariableStatus::Constant(c) => c == 0,
                _ => true,
            };
            let t_args = data.t_args(inst);
            let f_args = data.f_args(inst);
            if on_true {
                take(data, f, value_status_map, flow_worklist, known_blocks, inst, t, &t_args, &mut again);
            }
            if on_false {
                take(data, f, value_status_map, flow_worklist, known_blocks, inst, e, &f_args, &mut again);
            }
            Some(again)
        },
        Op::Jump(t) => {
            let mut again: Vec<Inst> = Vec::new();
            assert(again@ =~= Seq::empty());
            let args = data.args(inst);
            take(data, f, value_status_map, flow_worklist, known_blocks, inst, t, &args, &mut again);
            Some(again)
        },
        _ => None,
    }
}

fn operand(data: &Program, map: &InstStatusMap, e: Inst) -> (r: VariableStatus)
    ensures
        r == operand_status(data@, map@, e),
{
    match data.op(e) {
        Op::Integer(k) => VariableStatus::Constant(k),
        _ => map.get(e),
    }
}

/// Whether `i` can be visited.
fn may_visit(data: &Program, f: Function, map: &InstStatusMap, i: Inst, st: Ghost<FlowV>) -> (r: bool)
    requires
        st@.status == map@,
    ensures
        r == visitable(data@, f, st@, i),
{
    match data.op(i) {
        Op::Store | Op::GetElemPtr | Op::Load | Op::Alloc | Op::Call(_) | Op::Cast | Op::Return => true,
        Op::Binary(op) => {
            let a = operand(data, map, data.arg(i, 0));
            let b = operand(data, map, data.arg(i, 1));
            match (a, b) {
                (VariableStatus::Bottom, _) => true,
                (VariableStatus::Constant(_), VariableStatus::Bottom) => true,
                (VariableStatus::Constant(_), VariableStatus::Constant(y)) => y != 0 || !matches!(
                    op,
                    BinaryOp::Div | BinaryOp::Rem
                ),
                _ => false,
            }
        },
        Op::Branch(_, _, _) => data.parent_bb(f, i).is_some() && map.get(data.arg(i, 0)) != VariableStatus::Top,
        Op::Jump(_) => data.parent_bb(f, i).is_some(),
        _ => false,
    }
}

/// The whole propagation: its flow state, the instructions to visit, the edges followed and the
/// blocks entered.
#[verifier::ext_equal]
pub struct RunV {
    pub flow: FlowV,
    pub ssa: Seq<Inst>,
    pub edges: Seq<(BasicBlock, BasicBlock)>,
    pub entered: Seq<BasicBlock>,
}

/// One round, after its edge: the first instruction in the list visited. `None` where it cannot be.
pub open spec fn visited_first(p: ProgramV, f: Function, st: RunV) -> Option<RunV> {
    if st.ssa.len() == 0 {
        Some(st)
    } else if !visitable(p, f, st.flow, st.ssa[0]) {
        None
    } else {
        let (next, again) = processed(p, f, st.flow, st.ssa[0]);
        Some(
            RunV {
                flow: next,
                ssa: st.ssa.drop_first() + (match again {
                    Some(x) => x,
                    None => Seq::empty(),
                }),
                ..st
            },
        )
    }
}

/// One round: an edge is followed, and unless it was followed before an instruction is visited.
pub open spec fn round(p: ProgramV, f: Function, st: RunV) -> Option<RunV> {
    if st.flow.flow.len() == 0 {
        visited_first(p, f, st)
    } else {
        let e = st.flow.flow[0];
        let rest = RunV { flow: FlowV { flow: st.flow.flow.drop_first(), ..st.flow }, ..st };
        if st.edges.contains(e) {
            Some(rest)
        } else if st.entered.contains(e.1) {
            visited_first(p, f, RunV { edges: st.edges.push(e), ..rest })
        } else {
            visited_first(
                p,
                f,
                RunV {
                    edges: st.edges.push(e),
                    entered: st.entered.push(e.1),
                    ssa: st.ssa + p.block(e.1).insts,
                    ..rest
                },
            )
        }
    }
}

/// Rounds until nothing is left to do, at most `rounds` of them. `None` where an instruction came up
/// that cannot be visited.
pub open spec fn propagated(p: ProgramV, f: Function, st: RunV, rounds: nat) -> Option<RunV>
    decreases rounds,
{
    if rounds == 0 || (st.flow.flow.len() == 0 && st.ssa.len() == 0) {
        Some(st)
    } else {
        match round(p, f, st) {
            Some(next) => propagated(p, f, next, (rounds - 1) as nat),
            None => None,
        }
    }
}

/// What is known of literals `from..` before anything was visited, added to `m`.
pub open spec fn literals_from(p: ProgramV, from: int, m: Map<usize, VariableStatus>) -> Map<usize, VariableStatus>
    decreases p.insts.len() - from,
{
    if from >= p.insts.len() {
        m
    } else {
        let i = Inst(from as usize);
        literals_from(
            p,
            from + 1,
            match p.op(i) {
                Op::Integer(k) => noted(m, i, VariableStatus::Constant(k)),
                Op::Float(_) => noted(m, i, VariableStatus::Bottom),
                _ => m,
            },
        )
    }
}

/// The parameters `params[from..]` noted as varying.
pub open spec fn params_noted(params: Seq<Inst>, from: int, m: Map<usize, VariableStatus>) -> Map<usize, VariableStatus>
    decreases params.len() - from,
{
    if from >= params.len() {
        m
    } else {
        params_noted(params, from + 1, noted(m, params[from], VariableStatus::Bottom))
    }
}

/// The propagation over `f`, whose entry is `entry`, before its first round.
pub open spec fn initial(p: ProgramV, f: Function, entry: BasicBlock) -> RunV {
    RunV {
        flow: FlowV {
            status: params_noted(p.func(f).params, 0, literals_from(p, 0, Map::empty())),
            flow: seq![(entry, entry)],
            known: seq![entry],
        },
        ssa: Seq::empty(),
        edges: Seq::empty(),
        entered: Seq::empty(),
    }
}

/// What is known of the values of `f` in the end. `None` where the propagation meets an instruction
/// that it cannot visit.
pub open spec fn solved(p: ProgramV, f: Function, entry: BasicBlock) -> Option<Map<usize, VariableStatus>> {
    match propagated(p, f, initial(p, f, entry), usize::MAX as nat) {
        Some(st) => Some(st.flow.status),
        None => None,
    }
}

/// The constants found for `insts[..upto]` put in their place, from the last to the first.
pub open spec fn literals_placed(p: ProgramV, f: Function, m: Map<usize, VariableStatus>, insts: Seq<Inst>, upto: int) -> ProgramV
    decreases upto,
{
    if upto <= 0 || upto > insts.len() {
        p
    } else {
        let i = insts[upto - 1];
        match status_of(m, i) {
            VariableStatus::Constant(c) => {
                let q = p.set_inst(i, Op::Integer(c), Seq::empty(), Type::I32);
                let r = match q.parent_bb(f, i) {
                    Some(b) => q.detach(b, i),
                    None => q,
                };
                literals_placed(r, f, m, insts, upto - 1)
            },
            _ => literals_placed(p, f, m, insts, upto - 1),
        }
    }
}

/// The blocks among `blocks[from..]`, other than the entry, that no transfer names, behind `found`.
pub open spec fn deserted_from(p: ProgramV, blocks: Seq<BasicBlock>, from: int, found: Seq<BasicBlock>) -> Seq<BasicBlock>
    decreases blocks.len() - from,
{
    if from >= blocks.len() {
        found
    } else if blocks[from] != blocks[0] && p.block_users(blocks[from]).len() == 0 {
        deserted_from(p, blocks, from + 1, found.push(blocks[from]))
    } else {
        deserted_from(p, blocks, from + 1, found)
    }
}

/// Those of `users[from..]` that stand in `f`, behind `found`.
pub open spec fn standing_from(p: ProgramV, f: Function, users: Seq<Inst>, from: int, found: Seq<Inst>) -> Seq<Inst>
    decreases users.len() - from,
{
    if from >= users.len() {
        found
    } else if p.parent_bb(f, users[from]) is Some {
        standing_from(p, f, users, from + 1, found.push(users[from]))
    } else {
        standing_from(p, f, users, from + 1, found)
    }
}

/// The blocks with parameters among `blocks[from..]` to which one transfer leads, with it, behind
/// `found`.
pub open spec fn lone_from(
    p: ProgramV,
    f: Function,
    blocks: Seq<BasicBlock>,
    from: int,
    found: Seq<(BasicBlock, Inst)>,
) -> Seq<(BasicBlock, Inst)>
    decreases blocks.len() - from,
{
    if from >= blocks.len() {
        found
    } else {
        let b = blocks[from];
        let users = standing_from(p, f, p.block_users(b), 0, Seq::empty());
        if p.block(b).params.len() > 0 && users.len() == 1 {
            lone_from(p, f, blocks, from + 1, found.push((b, users[0])))
        } else {
            lone_from(p, f, blocks, from + 1, found)
        }
    }
}

/// Uses of `params[from..]` made uses of `args`.
pub open spec fn params_replaced(p: ProgramV, params: Seq<Inst>, args: Seq<Inst>, from: int) -> ProgramV
    decreases params.len() - from,
{
    if from >= params.len() || from >= args.len() {
        p
    } else {
        params_replaced(p.replace_uses(params[from], args[from]), params, args, from + 1)
    }
}

/// The arguments that transfer `t` passes to `b`.
pub open spec fn args_to(p: ProgramV, t: Inst, b: BasicBlock) -> Seq<Inst> {
    match p.op(t) {
        Op::Branch(x, _, _) => if x == b {
            p.t_args(t)
        } else {
            p.f_args(t)
        },
        _ => p.args(t),
    }
}

/// Transfer `t` to `b` made to pass nothing.
pub open spec fn args_dropped(p: ProgramV, t: Inst, b: BasicBlock) -> ProgramV {
    match p.op(t) {
        Op::Branch(x, y, _) => if x == b {
            p.set_inst(t, Op::Branch(x, y, 0), seq![p.arg(t, 0)] + p.f_args(t), Type::Unit)
        } else {
            p.set_inst(t, Op::Branch(x, y, p.t_args(t).len() as usize), seq![p.arg(t, 0)] + p.t_args(t), Type::Unit)
        },
        Op::Jump(x) => p.set_inst(t, Op::Jump(x), Seq::empty(), Type::Unit),
        _ => p,
    }
}

/// The parameters of block `b`, to which only `t` leads, replaced by what `t` passes.
pub open spec fn phi_folded(p: ProgramV, b: BasicBlock, t: Inst) -> ProgramV {
    args_dropped(
        params_replaced(p, p.block(b).params, args_to(p, t, b), 0).set_block_params(b, Seq::empty()),
        t,
        b,
    )
}

pub open spec fn phis_folded(p: ProgramV, list: Seq<(BasicBlock, Inst)>, from: int) -> ProgramV
    decreases list.len() - from,
{
    if from >= list.len() {
        p
    } else {
        phis_folded(phi_folded(p, list[from].0, list[from].1), list, from + 1)
    }
}

/// The blocks `blocks[from..]` taken out of the layout of `f`; what they hold stays.
pub open spec fn blocks_detached(p: ProgramV, f: Function, blocks: Seq<BasicBlock>, from: int) -> ProgramV
    decreases blocks.len() - from,
{
    if from >= blocks.len() {
        p
    } else {
        blocks_detached(p.detach_block(f, blocks[from]), f, blocks, from + 1)
    }
}

/// Function `f` after the constants `m` were put to use.
pub open spec fn rewritten(p: ProgramV, f: Function, m: Map<usize, VariableStatus>) -> ProgramV {
    let a = literals_placed(p, f, m, p.placed(f), p.placed(f).len() as int);
    let b = branches_folded(a, a.func(f).blocks, 0, false).0;
    let c = blocks_detached(b, f, deserted_from(b, b.func(f).blocks, 0, Seq::empty()), 0);
    let d = if entry_of(c, f) is None {
        c
    } else {
        islands_removed(c, f, c.func(f).blocks.len(), false).0
    };
    phis_folded(d, lone_from(d, f, d.func(f).blocks, 0, Seq::empty()), 0)
}

impl SparseConditionConstantPropagation {
    fn visit_first(
        data: &Program,
        f: Function,
        map: &mut InstStatusMap,
        flow: &mut Vec<(BasicBlock, BasicBlock)>,
        known: &mut Vec<BasicBlock>,
        ssa: &mut Vec<Inst>,
        st: Ghost<RunV>,
    ) -> (ok: bool)
        requires
            st@.flow == (FlowV { status: old(map)@, flow: old(flow)@, known: old(known)@ }),
            st@.ssa == old(ssa)@,
        ensures
            ok == (visited_first(data@, f, st@) is Some),
            ok ==> visited_first(data@, f, st@) == Some(
                (RunV {
                    flow: FlowV { status: final(map)@, flow: final(flow)@, known: final(known)@ },
                    ssa: final(ssa)@,
                    ..st@
                }),
            ),
    {
        if ssa.len() == 0 {
            return true;
        }
        let first = ssa[0];
        if !may_visit(data, f, map, first, Ghost(st@.flow)) {
            return false;
        }
        let ghost before = ssa@;
        ssa.remove(0);
        assert(ssa@ =~= before.drop_first());
        match process_instruction(data, f, map, first, flow, known) {
            Some(mut more) => {
                ssa.append(&mut more);
            },
            None => {
                assert(ssa@ =~= before.drop_first() + Seq::empty());
            },
        }
        true
    }

    /// What is known of the values of `f`; `None` where the propagation meets an instruction that it
    /// cannot visit: one without a rule, one that reads a value of which nothing is known yet, or a
    /// division of constants by zero.
    pub fn propagate(data: &Program, f: Function, entry: BasicBlock) -> (r: Option<InstStatusMap>)
        ensures
            (match r {
                Some(m) => Some(m@),
                None => None,
            }) == solved(data@, f, entry),
    {
        let mut map = InstStatusMap::new();
        let n: usize = data.num_insts();
        let mut k: usize = 0;
        while k < n
            invariant
                k <= n,
                n == data@.insts.len(),
                literals_from(data@, 0, Map::empty()) == literals_from(data@, k as int, map@),
            decreases n - k,
        {
            match data.op(Inst(k)) {
                Op::Integer(c) => {
                    map.insert_or_merge(Inst(k), VariableStatus::new_with_const(c));
                },
                Op::Float(_) => {
                    map.insert_or_merge(Inst(k), VariableStatus::Bottom);
                },
                _ => {},
            }
            k += 1;
        }
        let params = data.params(f);
        let ghost literals = map@;
        let mut k: usize = 0;
        while k < params.len()
            invariant
                k <= params@.len(),
                params_noted(params@, 0, literals) == params_noted(params@, k as int, map@),
            decreases params@.len() - k,
        {
            map.insert_or_merge(params[k], VariableStatus::new_variable());
            k += 1;
        }
        let mut flow = vec![(entry, entry)];
        let mut known = vec![entry];
        let mut ssa: Vec<Inst> = Vec::new();
        let mut edges: Vec<(BasicBlock, BasicBlock)> = Vec::new();
        let mut entered: Vec<BasicBlock> = Vec::new();
        let mut rounds: usize = usize::MAX;
        let ghost start = initial(data@, f, entry);
        assert(flow@ =~= seq![(entry, entry)]);
        assert(known@ =~= seq![entry]);
        assert((RunV {
            flow: FlowV { status: map@, flow: flow@, known: known@ },
            ssa: ssa@,
            edges: edges@,
            entered: entered@,
        }) =~= start);
        while rounds > 0 && (flow.len() > 0 || ssa.len() > 0)
            invariant
                start == initial(data@, f, entry),
                propagated(data@, f, start, usize::MAX as nat) == propagated(
                    data@,
                    f,
                    (RunV {
                        flow: FlowV { status: map@, flow: flow@, known: known@ },
                        ssa: ssa@,
                        edges: edges@,
                        entered: entered@,
                    }),
                    rounds as nat,
                ),
            decreases rounds,
        {
            rounds -= 1;
            let ghost before = RunV {
                flow: FlowV { status: map@, flow: flow@, known: known@ },
                ssa: ssa@,
                edges: edges@,
                entered: entered@,
            };
            let mut visit = true;
            if flow.len() > 0 {
                let ghost was = flow@;
                let e = flow.remove(0);
                assert(flow@ =~= was.drop_first());
                if has_edge(&edges, e) {
                    visit = false;
                } else {
                    edges.push(e);
                    if !has_block(&entered, e.1) {
                        entered.push(e.1);
                        let mut more = data.block_insts(e.1);
                        ssa.append(&mut more);
                    }
                }
            }
            if visit {
                let ghost st = RunV {
                    flow: FlowV { status: map@, flow: flow@, known: known@ },
                    ssa: ssa@,
                    edges: edges@,
                    entered: entered@,
                };
                assert(round(data@, f, before) == visited_first(data@, f, st));
                if !Self::visit_first(data, f, &mut map, &mut flow, &mut known, &mut ssa, Ghost(st)) {
                    return None;
                }
            }
        }
        Some(map)
    }

    /// Whether the propagation over `f` meets only instructions that it can visit.
    pub fn can_run_on(&self, data: &Program, f: Function) -> (r: bool)
        ensures
            r == (entry_of(data@, f) is None || solved(data@, f, entry_of(data@, f)->0) is Some),
    {
        let blocks = data.basicblocks(f);
        if blocks.len() == 0 || blocks[0].0 >= data.num_blocks() {
            return true;
        }
        match Self::propagate(data, f, blocks[0]) {
            Some(_) => true,
            None => false,
        }
    }

    /// Finds what is constant in `f` and puts it to use.
    pub fn run_on(&self, data: &mut Program, f: Function)
        requires
            entry_of(old(data)@, f) is None || solved(old(data)@, f, entry_of(old(data)@, f)->0) is Some,
        ensures
            final(data)@ == (match entry_of(old(data)@, f) {
                None => old(data)@,
                Some(entry) => rewritten(old(data)@, f, solved(old(data)@, f, entry)->0),
            }),
    {
        let blocks = data.basicblocks(f);
        if blocks.len() == 0 || blocks[0].0 >= data.num_blocks() {
            return;
        }
        let map = Self::propagate(data, f, blocks[0]).unwrap();
        Self::place_literals(data, f, &map);
        let blocks = data.basicblocks(f);
        fold_block_branches(data, &blocks, false);
        Self::remove_deserted(data, f);
        let mut ubb = UnreachableBasicBlock;
        ubb.run_on(data, f);
        Self::fold_phis(data, f);
    }

    fn place_literals(data: &mut Program, f: Function, map: &InstStatusMap)
        ensures
            final(data)@ == literals_placed(
                old(data)@,
                f,
                map@,
                old(data)@.placed(f),
                old(data)@.placed(f).len() as int,
            ),
    {
        let insts = data.placed_insts(f);
        let mut k: usize = insts.len();
        while k > 0
            invariant
                k <= insts@.len(),
                literals_placed(old(data)@, f, map@, insts@, insts@.len() as int) == literals_placed(
                    data@,
                    f,
                    map@,
                    insts@,
                    k as int,
                ),
            decreases k,
        {
            let i = insts[k - 1];
            if let Some(c) = map.get(i).as_const() {
                let none: Vec<Inst> = Vec::new();
                assert(none@ =~= Seq::empty());
                data.set_inst(i, Op::Integer(c), none, Type::I32);
                if let Some(b) = data.parent_bb(f, i) {
                    data.detach_layout_inst(b, i);
                }
            }
            k -= 1;
        }
    }

    fn remove_deserted(data: &mut Program, f: Function)
        ensures
            final(data)@ == blocks_detached(
                old(data)@,
                f,
                deserted_from(old(data)@, old(data)@.func(f).blocks, 0, Seq::empty()),
                0,
            ),
    {
        let blocks = data.basicblocks(f);
        let mut list: Vec<BasicBlock> = Vec::new();
        assert(list@ =~= Seq::empty());
        let mut k: usize = 0;
        while k < blocks.len()
            invariant
                k <= blocks@.len(),
                data@ == old(data)@,
                deserted_from(data@, blocks@, 0, Seq::empty()) == deserted_from(data@, blocks@, k as int, list@),
            decreases blocks@.len() - k,
        {
            if blocks[k] != blocks[0] && data.block_users(blocks[k]).len() == 0 {
                list.push(blocks[k]);
            }
            k += 1;
        }
        let mut k: usize = 0;
        while k < list.len()
            invariant
                k <= list@.len(),
                blocks_detached(old(data)@, f, list@, 0) == blocks_detached(
                    data@,
                    f,
                    list@,
                    k as int,
                ),
            decreases list@.len() - k,
        {
            data.detach_block(f, list[k]);
            k += 1;
        }
    }

    fn standing(data: &Program, f: Function, users: &Vec<Inst>) -> (r: Vec<Inst>)
        ensures
            r@ == standing_from(data@, f, users@, 0, Seq::empty()),
    {
        let mut r: Vec<Inst> = Vec::new();
        assert(r@ =~= Seq::empty());
        let mut k: usize = 0;
        while k < users.len()
            invariant
                k <= users@.len(),
                standing_from(data@, f, users@, 0, Seq::empty()) == standing_from(data@, f, users@, k as int, r@),
            decreases users@.len() - k,
        {
            if data.parent_bb(f, users[k]).is_some() {
                r.push(users[k]);
            }
            k += 1;
        }
        r
    }

    fn fold_phis(data: &mut Program, f: Function)
        ensures
            final(data)@ == phis_folded(
                old(data)@,
                lone_from(old(data)@, f, old(data)@.func(f).blocks, 0, Seq::empty()),
                0,
            ),
    {
        let blocks = data.basicblocks(f);
        let mut list: Vec<(BasicBlock, Inst)> = Vec::new();
        assert(list@ =~= Seq::empty());
        let mut k: usize = 0;
        while k < blocks.len()
            invariant
                k <= blocks@.len(),
                data@ == old(data)@,
                lone_from(data@, f, blocks@, 0, Seq::empty()) == lone_from(data@, f, blocks@, k as int, list@),
            decreases blocks@.len() - k,
        {
            let users = data.block_users(blocks[k]);
            let standing = Self::standing(data, f, &users);
            if data.block_params(blocks[k]).len() > 0 && standing.len() == 1 {
                list.push((blocks[k], standing[0]));
            }
            k += 1;
        }
        let mut k: usize = 0;
        while k < list.len()
            invariant
                k <= list@.len(),
                phis_folded(old(data)@, list@, 0) == phis_folded(data@, list@, k as int),
            decreases list@.len() - k,
        {
            Self::fold_phi(data, list[k].0, list[k].1);
            k += 1;
        }
    }

    fn fold_phi(data: &mut Program, b: BasicBlock, t: Inst)
        ensures
            final(data)@ == phi_folded(old(data)@, b, t),
    {
        let params = data.block_params(b);
        let args = match data.op(t) {
            Op::Branch(x, _, _) => if x == b {
                data.t_args(t)
            } else {
                data.f_args(t)
            },
            _ => data.args(t),
        };
        let mut k: usize = 0;
        while k < params.len() && k < args.len()
            invariant
                k <= params@.len(),
                k <= args@.len(),
                params_replaced(old(data)@, params@, args@, 0) == params_replaced(data@, params@, args@, k as int),
            decreases params@.len() - k,
        {
            data.replace_uses(params[k], args[k]);
            k += 1;
        }
        let none: Vec<Inst> = Vec::new();
        assert(none@ =~= Seq::empty());
        data.set_block_params(b, none);
        match data.op(t) {
            Op::Branch(x, y, _) => {
                let cond = data.arg(t, 0);
                if x == b {
                    let rest = data.f_args(t);
                    let all = prepended(cond, &rest);
                    data.set_inst(t, Op::Branch(x, y, 0), all, Type::Unit);
                } else {
                    let rest = data.t_args(t);
                    let n: usize = rest.len();
                    let all = prepended(cond, &rest);
                    data.set_inst(t, Op::Branch(x, y, n), all, Type::Unit);
                }
            },
            Op::Jump(x) => {
                let none: Vec<Inst> = Vec::new();
                assert(none@ =~= Seq::empty());
                data.set_inst(t, Op::Jump(x), none, Type::Unit);
            },
            _ => {},
        }
    }
}

fn has_edge(v: &Vec<(BasicBlock, BasicBlock)>, x: (BasicBlock, BasicBlock)) -> (r: bool)
    ensures
        r == v@.contains(x),
{
    let mut i: usize = 0;
    while i < v.len()
        invariant
            i <= v@.len(),
            forall|k: int| 0 <= k < i ==> v@[k] != x,
        decreases v@.len() - i,
    {
        if v[i].0 == x.0 && v[i].1 == x.1 {
            assert(v@[i as int] == x);
            return true;
        }
        assert(v@[i as int] != x);
        i += 1;
    }
    false
}

} // verus!
