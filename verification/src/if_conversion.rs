//! Branches whose arms only choose values turned into straight-line code.

use vstd::prelude::*;

use crate::arith::int_op;
use crate::cfg::{entry_of, tree_of, DomTree, TreeV};
use crate::ir::{copy_vec, has_block, has_inst, BasicBlock, BinaryOp, Function, Inst, Op, ProgramV, Type};
use crate::program::Program;

verus! {

pub struct IfConversion;

/// What becomes of one parameter of the merge block.
#[derive(Clone, Copy, Debug, PartialEq, Eq, Structural)]
pub enum MergedValue {
    /// Both edges pass the same value.
    Common(Inst),
    /// A select between the two values.
    Select(Inst, Inst),
    /// A logical operation on zero-or-one values.
    BoolBinary(BinaryOp, Inst, Inst),
}

/// A branch that can be turned into straight-line code.
pub struct Candidate {
    pub head: BasicBlock,
    pub terminator: Inst,
    pub merge: BasicBlock,
    pub cond: Inst,
    pub values: Vec<MergedValue>,
    pub remove_blocks: Vec<BasicBlock>,
    pub arm: BasicBlock,
    pub move_insts: Vec<Inst>,
}

#[verifier::ext_equal]
pub struct CandidateV {
    pub head: BasicBlock,
    pub terminator: Inst,
    pub merge: BasicBlock,
    pub cond: Inst,
    pub values: Seq<MergedValue>,
    pub remove_blocks: Seq<BasicBlock>,
    pub arm: BasicBlock,
    pub move_insts: Seq<Inst>,
}

impl View for Candidate {
    type V = CandidateV;

    open spec fn view(&self) -> CandidateV {
        CandidateV {
            head: self.head,
            terminator: self.terminator,
            merge: self.merge,
            cond: self.cond,
            values: self.values@,
            remove_blocks: self.remove_blocks@,
            arm: self.arm,
            move_insts: self.move_insts@,
        }
    }
}

/// A value without operands that is the same everywhere.
pub open spec fn is_const(op: Op) -> bool {
    op is Integer || op is Float || op is ZeroInit || op is Undef || op is Aggregate
}

/// Whether the operation is a constant.
pub fn constant_op(op: Op) -> (r: bool)
    ensures
        r == is_const(op),
{
    matches!(op, Op::Integer(_) | Op::Float(_) | Op::ZeroInit | Op::Undef | Op::Aggregate)
}

/// `v` is a comparison or one of the literals zero and one.
pub open spec fn is_zero_one(p: ProgramV, v: Inst) -> bool {
    match p.op(v) {
        Op::Binary(op) => op.compares(),
        Op::Integer(k) => k == 0 || k == 1,
        _ => false,
    }
}

/// The logical operation that chooses between `if_true` and `if_false` by `cond`.
pub open spec fn land_lor(p: ProgramV, cond: Inst, if_true: Inst, if_false: Inst) -> Option<(BinaryOp, Inst, Inst)> {
    if is_zero_one(p, cond) && is_zero_one(p, if_true) && p.op(if_false) == Op::Integer(0) {
        Some((BinaryOp::And, cond, if_true))
    } else if is_zero_one(p, cond) && if_true == cond && is_zero_one(p, if_false) {
        Some((BinaryOp::Or, cond, if_false))
    } else {
        None
    }
}

/// Block `b` ends in a jump: the jump, its target and its arguments.
pub open spec fn arm_of(p: ProgramV, b: BasicBlock) -> Option<(Inst, BasicBlock, Seq<Inst>)> {
    match p.op(p.terminator(b)) {
        Op::Jump(t) => Some((p.terminator(b), t, p.args(p.terminator(b)))),
        _ => None,
    }
}

/// Block `b` is nothing but a jump.
pub open spec fn empty_arm_of(p: ProgramV, b: BasicBlock) -> Option<(Inst, BasicBlock, Seq<Inst>)> {
    if p.block(b).insts.len() != 1 {
        None
    } else {
        arm_of(p, b)
    }
}

/// The first of blocks `from..` of `f` that has `v` as a parameter.
pub open spec fn param_block_from(p: ProgramV, f: Function, v: Inst, from: int) -> Option<BasicBlock>
    decreases p.func(f).blocks.len() - from,
{
    if from >= p.func(f).blocks.len() {
        None
    } else if p.block(p.func(f).blocks[from]).params.contains(v) {
        Some(p.func(f).blocks[from])
    } else {
        param_block_from(p, f, v, from + 1)
    }
}

/// Those of `users[from..]` that stand in `f`, behind `found`.
pub open spec fn placed_users_from(p: ProgramV, f: Function, users: Seq<Inst>, from: int, found: Seq<Inst>) -> Seq<Inst>
    decreases users.len() - from,
{
    if from >= users.len() {
        found
    } else if p.parent_bb(f, users[from]) is Some {
        placed_users_from(p, f, users, from + 1, found.push(users[from]))
    } else {
        placed_users_from(p, f, users, from + 1, found)
    }
}

/// Exactly the terminators `expected` of `f` lead to block `b`.
pub open spec fn has_exact_users(p: ProgramV, f: Function, b: BasicBlock, expected: Seq<Inst>) -> bool {
    let users = placed_users_from(p, f, p.block_users(b), 0, Seq::empty());
    users.len() == expected.len() && forall|k: int| 0 <= k < expected.len() ==> users.contains(#[trigger] expected[k])
}

/// Block `a` dominates block `b`, by the control flow that `t` remembers.
///
/// A block that `t` does not reach counts as dominated by every block: nothing runs there.
pub open spec fn dominates_by(t: TreeV, a: BasicBlock, b: BasicBlock) -> bool {
    a == b || t.entry == a.0 || !t.contains(b) || (t.contains(a) && t.dominates(a, b))
}

/// `v` can be used at the end of block `head`.
pub open spec fn is_available(p: ProgramV, f: Function, t: TreeV, v: Inst, head: BasicBlock) -> bool {
    if p.inst(v).global || is_const(p.op(v)) || p.block(head).params.contains(v) {
        true
    } else if p.op(v) is BlockArgRef {
        match param_block_from(p, f, v, 0) {
            Some(b) => dominates_by(t, b, head),
            None => false,
        }
    } else {
        match p.parent_bb(f, v) {
            None => false,
            Some(b) => if b == head {
                p.terminator(head) != v
            } else {
                dominates_by(t, b, head)
            },
        }
    }
}

pub open spec fn all_available(p: ProgramV, f: Function, t: TreeV, args: Seq<Inst>, head: BasicBlock) -> bool {
    forall|k: int| 0 <= k < args.len() ==> is_available(p, f, t, #[trigger] args[k], head)
}

/// `i` is an integer operation that cannot fail, on values of `chain` or available at `head`.
pub open spec fn can_hoist(p: ProgramV, f: Function, t: TreeV, i: Inst, head: BasicBlock, chain: Seq<Inst>) -> bool {
    match p.op(i) {
        Op::Binary(op) => {
            &&& p.ty(i) is I32
            &&& p.ty(p.arg(i, 0)) is I32
            &&& p.ty(p.arg(i, 1)) is I32
            &&& !(op is Div || op is Rem)
            &&& chain.contains(p.arg(i, 0)) || is_available(p, f, t, p.arg(i, 0), head)
            &&& chain.contains(p.arg(i, 1)) || is_available(p, f, t, p.arg(i, 1), head)
        },
        _ => false,
    }
}

/// The instructions `insts[from..]` before the closing jump, each feeding only the one behind it,
/// added to `moved`; `None` where one of them cannot be moved.
pub open spec fn moves_from(
    p: ProgramV,
    f: Function,
    t: TreeV,
    head: BasicBlock,
    insts: Seq<Inst>,
    from: int,
    moved: Seq<Inst>,
) -> Option<Seq<Inst>>
    decreases insts.len() - from,
{
    if from + 1 >= insts.len() {
        Some(moved)
    } else if !can_hoist(p, f, t, insts[from], head, moved) {
        None
    } else if p.users(insts[from]) != seq![insts[from + 1]] {
        None
    } else {
        moves_from(p, f, t, head, insts, from + 1, moved.push(insts[from]))
    }
}

/// What becomes of parameters `from..` of a merge block, behind `found`.
pub open spec fn merged_from(
    p: ProgramV,
    cond: Inst,
    params: Seq<Inst>,
    ta: Seq<Inst>,
    fa: Seq<Inst>,
    from: int,
    found: Seq<MergedValue>,
) -> Option<Seq<MergedValue>>
    decreases params.len() - from,
{
    if from >= params.len() {
        Some(found)
    } else {
        let ty = p.ty(params[from]);
        if ty is Unit || p.ty(ta[from]) != ty || p.ty(fa[from]) != ty {
            None
        } else {
            merged_from(p, cond, params, ta, fa, from + 1, found.push(merged(p, cond, ta[from], fa[from])))
        }
    }
}

/// The value that `cond` chooses between `a` and `b`.
pub open spec fn merged(p: ProgramV, cond: Inst, a: Inst, b: Inst) -> MergedValue {
    if a == b {
        MergedValue::Common(a)
    } else {
        match land_lor(p, cond, a, b) {
            Some((op, l, r)) => MergedValue::BoolBinary(op, l, r),
            None => MergedValue::Select(a, b),
        }
    }
}

/// Some parameter needs a new instruction.
pub open spec fn any_choice(values: Seq<MergedValue>) -> bool {
    exists|k: int| 0 <= k < values.len() && !(#[trigger] values[k] is Common)
}

/// The candidate with these edges, where the merge block's parameters can be replaced.
pub open spec fn finished(
    p: ProgramV,
    t: TreeV,
    head: BasicBlock,
    terminator: Inst,
    merge: BasicBlock,
    cond: Inst,
    ta: Seq<Inst>,
    fa: Seq<Inst>,
    remove_blocks: Seq<BasicBlock>,
    arm: BasicBlock,
    move_insts: Seq<Inst>,
) -> Option<CandidateV> {
    let params = p.block(merge).params;
    if merge == head || !dominates_by(t, head, merge) || params.len() != ta.len() || params.len() != fa.len() {
        None
    } else {
        match merged_from(p, cond, params, ta, fa, 0, Seq::empty()) {
            Some(values) => if any_choice(values) {
                Some(CandidateV { head, terminator, merge, cond, values, remove_blocks, arm, move_insts })
            } else {
                None
            },
            None => None,
        }
    }
}

/// Both arms are mere jumps to one merge block.
pub open spec fn is_diamond(p: ProgramV, f: Function, t: TreeV, head: BasicBlock, a: BasicBlock, b: BasicBlock) -> bool {
    let term = p.terminator(head);
    match (empty_arm_of(p, a), empty_arm_of(p, b)) {
        (Some((tj, tm, ta)), Some((fj, fm, fa))) => {
            &&& tm == fm && tm != head && tm != a && tm != b
            &&& p.block(a).params.len() == 0 && p.block(b).params.len() == 0
            &&& p.t_args(term).len() == 0 && p.f_args(term).len() == 0
            &&& has_exact_users(p, f, a, seq![term])
            &&& has_exact_users(p, f, b, seq![term])
            &&& has_exact_users(p, f, tm, seq![tj, fj])
            &&& all_available(p, f, t, ta, head)
            &&& all_available(p, f, t, fa, head)
        },
        _ => false,
    }
}

/// Arm `x` ends in a jump to block `m`.
pub open spec fn arm_leads_to(p: ProgramV, x: BasicBlock, m: BasicBlock) -> bool {
    arm_of(p, x) is Some && (arm_of(p, x)->0).1 == m
}

/// One arm falls through to the merge block, the other one is the merge block itself.
pub open spec fn triangle(
    p: ProgramV,
    f: Function,
    t: TreeV,
    head: BasicBlock,
    arm: BasicBlock,
    merge: BasicBlock,
    arm_on_true: bool,
) -> Option<CandidateV> {
    let term = p.terminator(head);
    let edge_args = if arm_on_true {
        p.t_args(term)
    } else {
        p.f_args(term)
    };
    let direct = if arm_on_true {
        p.f_args(term)
    } else {
        p.t_args(term)
    };
    if merge == head || merge == arm || p.block(arm).params.len() != 0 || edge_args.len() != 0 || !has_exact_users(
        p,
        f,
        arm,
        seq![term],
    ) {
        None
    } else {
        let (jump, _, arm_args) = arm_of(p, arm)->0;
        if !has_exact_users(p, f, merge, seq![term, jump]) {
            None
        } else {
            match moves_from(p, f, t, head, p.block(arm).insts, 0, Seq::empty()) {
                None => None,
                Some(moved) => if !available_or_moved(p, f, t, arm_args, head, moved) || !all_available(
                    p,
                    f,
                    t,
                    direct,
                    head,
                ) {
                    None
                } else if arm_on_true {
                    finished(p, t, head, term, merge, p.arg(term, 0), arm_args, direct, seq![arm], arm, moved)
                } else {
                    finished(p, t, head, term, merge, p.arg(term, 0), direct, arm_args, seq![arm], arm, moved)
                },
            }
        }
    }
}

pub open spec fn available_or_moved(
    p: ProgramV,
    f: Function,
    t: TreeV,
    args: Seq<Inst>,
    head: BasicBlock,
    moved: Seq<Inst>,
) -> bool {
    forall|k: int| 0 <= k < args.len() ==> moved.contains(#[trigger] args[k]) || is_available(p, f, t, args[k], head)
}

/// The candidate whose branch ends block `head`.
pub open spec fn candidate_at(p: ProgramV, f: Function, t: TreeV, head: BasicBlock) -> Option<CandidateV> {
    let term = p.terminator(head);
    match p.op(term) {
        Op::Branch(a, b, _) => if !(p.ty(p.arg(term, 0)) is I32) {
            None
        } else if a == b {
            if a == head || !has_exact_users(p, f, a, seq![term]) || !all_available(p, f, t, p.t_args(term), head)
                || !all_available(p, f, t, p.f_args(term), head) {
                None
            } else {
                finished(
                    p,
                    t,
                    head,
                    term,
                    a,
                    p.arg(term, 0),
                    p.t_args(term),
                    p.f_args(term),
                    Seq::empty(),
                    head,
                    Seq::empty(),
                )
            }
        } else if a == head || b == head {
            None
        } else if is_diamond(p, f, t, head, a, b) {
            let (_, merge, ta) = arm_of(p, a)->0;
            let fa = (arm_of(p, b)->0).2;
            finished(p, t, head, term, merge, p.arg(term, 0), ta, fa, seq![a, b], head, Seq::empty())
        } else if arm_leads_to(p, a, b) {
            triangle(p, f, t, head, a, b, true)
        } else if arm_leads_to(p, b, a) {
            triangle(p, f, t, head, b, a, false)
        } else {
            None
        },
        _ => None,
    }
}

/// The instructions `insts[from..]` moved from block `arm` to the end of block `head`.
pub open spec fn moved_to(p: ProgramV, arm: BasicBlock, head: BasicBlock, insts: Seq<Inst>, from: int) -> ProgramV
    decreases insts.len() - from,
{
    if from >= insts.len() {
        p
    } else {
        moved_to(p.detach(arm, insts[from]).append(head, insts[from]), arm, head, insts, from + 1)
    }
}

/// Instructions for `values[from..]` made at the end of block `head`: the program, and the values
/// that replace the parameters, behind `found`.
pub open spec fn choices_made(
    p: ProgramV,
    head: BasicBlock,
    cond: Inst,
    values: Seq<MergedValue>,
    from: int,
    found: Seq<Inst>,
) -> (ProgramV, Seq<Inst>)
    decreases values.len() - from,
{
    if from >= values.len() {
        (p, found)
    } else {
        match values[from] {
            MergedValue::Common(v) => choices_made(p, head, cond, values, from + 1, found.push(v)),
            MergedValue::Select(a, b) => choices_made(
                p.push_inst(Op::Select, seq![cond, a, b], p.ty(a), false).append(head, p.next_inst()),
                head,
                cond,
                values,
                from + 1,
                found.push(p.next_inst()),
            ),
            MergedValue::BoolBinary(op, l, r) => choices_made(
                p.push_inst(Op::Binary(op), seq![l, r], p.binary_ty(op, l), false).append(head, p.next_inst()),
                head,
                cond,
                values,
                from + 1,
                found.push(p.next_inst()),
            ),
        }
    }
}

/// Uses of `params[from..]` made uses of `values[from..]`.
pub open spec fn params_replaced(p: ProgramV, params: Seq<Inst>, values: Seq<Inst>, from: int) -> ProgramV
    decreases params.len() - from,
{
    if from >= params.len() || from >= values.len() {
        p
    } else {
        params_replaced(p.replace_uses(params[from], values[from]), params, values, from + 1)
    }
}

/// Blocks `blocks[from..]` taken out of `f`.
pub open spec fn arms_removed(p: ProgramV, f: Function, blocks: Seq<BasicBlock>, from: int) -> ProgramV
    decreases blocks.len() - from,
{
    if from >= blocks.len() {
        p
    } else {
        arms_removed(p.remove_block(f, blocks[from]), f, blocks, from + 1)
    }
}

/// The program after the branch of candidate `c` became straight-line code.
pub open spec fn converted(p: ProgramV, f: Function, c: CandidateV) -> ProgramV {
    let params = p.block(c.merge).params;
    let p1 = moved_to(p.remove(c.head, c.terminator), c.arm, c.head, c.move_insts, 0);
    let (p2, values) = choices_made(p1, c.head, c.cond, c.values, 0, Seq::empty());
    let p3 = params_replaced(p2, params, values, 0).set_block_params(c.merge, Seq::empty()).erase_all(params, 0);
    let p4 = p3.push_inst(Op::Jump(c.merge), Seq::empty(), Type::Unit, false).append(c.head, p3.next_inst());
    arms_removed(p4, f, c.remove_blocks, 0)
}

/// Candidates at `heads[from..]` converted in turn. Dominance is that of tree `t`.
pub open spec fn all_converted(p: ProgramV, f: Function, t: TreeV, heads: Seq<BasicBlock>, from: int, changed: bool) -> (
    ProgramV,
    bool,
)
    decreases heads.len() - from,
{
    if from >= heads.len() {
        (p, changed)
    } else if !p.func(f).blocks.contains(heads[from]) {
        all_converted(p, f, t, heads, from + 1, changed)
    } else {
        match candidate_at(p, f, t, heads[from]) {
            Some(c) => all_converted(converted(p, f, c), f, t, heads, from + 1, true),
            None => all_converted(p, f, t, heads, from + 1, changed),
        }
    }
}

/// The candidates of the functions `layout[from..]` converted.
pub open spec fn converted_everywhere(p: ProgramV, layout: Seq<Function>, from: int, changed: bool) -> (ProgramV, bool)
    decreases layout.len() - from,
{
    if from >= layout.len() {
        (p, changed)
    } else {
        let (q, here) = if entry_of(p, layout[from]) is None {
            (p, false)
        } else {
            all_converted(p, layout[from], tree_of(p, layout[from]), p.func(layout[from]).blocks, 0, false)
        };
        converted_everywhere(q, layout, from + 1, changed || here)
    }
}

impl IfConversion {
    /// Converts every candidate of every function. True when anything changed.
    pub fn run(&mut self, program: &mut Program) -> (changed: bool)
        ensures
            (final(program)@, changed) == converted_everywhere(old(program)@, old(program)@.layout, 0, false),
    {
        let layout = program.function_layout();
        let mut changed = false;
        let mut k: usize = 0;
        while k < layout.len()
            invariant
                k <= layout@.len(),
                converted_everywhere(old(program)@, layout@, 0, false) == converted_everywhere(program@, layout@, k as int, changed),
            decreases layout@.len() - k,
        {
            let here = self.run_on(program, layout[k]);
            changed = changed || here;
            k += 1;
        }
        changed
    }

    /// Converts every candidate of `f`. True when something changed.
    pub fn run_on(&mut self, data: &mut Program, f: Function) -> (changed: bool)
        ensures
            (final(data)@, changed) == if entry_of(old(data)@, f) is None {
                (old(data)@, false)
            } else {
                all_converted(old(data)@, f, tree_of(old(data)@, f), old(data)@.func(f).blocks, 0, false)
            },
    {
        let tree = match DomTree::new(data, f) {
            Some(t) => t,
            None => {
                return false;
            },
        };
        let heads = data.basicblocks(f);
        let mut changed = false;
        let mut k: usize = 0;
        while k < heads.len()
            invariant
                k <= heads@.len(),
                tree.wf(),
                all_converted(old(data)@, f, tree@, heads@, 0, false) == all_converted(
                    data@,
                    f,
                    tree@,
                    heads@,
                    k as int,
                    changed,
                ),
            decreases heads@.len() - k,
        {
            let now = data.basicblocks(f);
            if has_block(&now, heads[k]) {
                if let Some(c) = self.candidate(data, f, heads[k], &tree) {
                    self.apply(data, f, c);
                    changed = true;
                }
            }
            k += 1;
        }
        changed
    }

    /// The candidate whose branch ends block `head`.
    pub fn candidate(&self, data: &Program, f: Function, head: BasicBlock, tree: &DomTree) -> (r: Option<Candidate>)
        requires
            tree.wf(),
        ensures
            match r {
                Some(c) => candidate_at(data@, f, tree@, head) == Some(c@),
                None => candidate_at(data@, f, tree@, head) is None,
            },
    {
        let term = data.terminator(head);
        match data.op(term) {
            Op::Branch(a, b, _) => {
                let cond = data.arg(term, 0);
                if !data.is_i32(cond) {
                    return None;
                }
                let t_args = data.t_args(term);
                let f_args = data.f_args(term);
                if a == b {
                    let only = vec![term];
                    assert(only@ =~= seq![term]);
                    if a == head || !self.exact_users(data, f, a, &only) || !self.all_available_at(
                        data,
                        f,
                        &t_args,
                        head,
                        tree,
                    ) || !self.all_available_at(data, f, &f_args, head, tree) {
                        return None;
                    }
                    let blocks: Vec<BasicBlock> = Vec::new();
                    let moved: Vec<Inst> = Vec::new();
                    assert(blocks@ =~= Seq::empty());
                    assert(moved@ =~= Seq::empty());
                    return self.finish_candidate(data, head, term, a, cond, &t_args, &f_args, blocks, head, moved, tree);
                }
                if a == head || b == head {
                    return None;
                }
                if self.diamond(data, f, head, a, b, tree) {
                    let ja = data.terminator(a);
                    let jb = data.terminator(b);
                    if let Op::Jump(merge) = data.op(ja) {
                        let blocks = vec![a, b];
                        let moved: Vec<Inst> = Vec::new();
                        assert(blocks@ =~= seq![a, b]);
                        assert(moved@ =~= Seq::empty());
                        let ta = data.args(ja);
                        let fa = data.args(jb);
                        return self.finish_candidate(data, head, term, merge, cond, &ta, &fa, blocks, head, moved, tree);
                    }
                }
                if let Some((_, m, _)) = self.arm(data, a) {
                    if m == b {
                        return self.triangle_candidate(data, f, head, a, b, true, tree);
                    }
                }
                if let Some((_, m, _)) = self.arm(data, b) {
                    if m == a {
                        return self.triangle_candidate(data, f, head, b, a, false, tree);
                    }
                }
                None
            },
            _ => None,
        }
    }

    fn diamond(&self, data: &Program, f: Function, head: BasicBlock, a: BasicBlock, b: BasicBlock, tree: &DomTree) -> (r:
        bool)
        requires
            tree.wf(),
        ensures
            r == is_diamond(data@, f, tree@, head, a, b),
    {
        let term = data.terminator(head);
        match (self.empty_arm(data, a), self.empty_arm(data, b)) {
            (Some((tj, tm, ta)), Some((fj, fm, fa))) => {
                let only = vec![term];
                let both = vec![tj, fj];
                assert(only@ =~= seq![term]);
                assert(both@ =~= seq![tj, fj]);
                tm == fm && tm != head && tm != a && tm != b && data.block_params(a).len() == 0 && data.block_params(
                    b,
                ).len() == 0 && data.t_args(term).len() == 0 && data.f_args(term).len() == 0 && self.exact_users(
                    data,
                    f,
                    a,
                    &only,
                ) && self.exact_users(data, f, b, &only) && self.exact_users(data, f, tm, &both)
                    && self.all_available_at(data, f, &ta, head, tree) && self.all_available_at(
                    data,
                    f,
                    &fa,
                    head,
                    tree,
                )
            },
            _ => false,
        }
    }

    fn triangle_candidate(
        &self,
        data: &Program,
        f: Function,
        head: BasicBlock,
        arm: BasicBlock,
        merge: BasicBlock,
        arm_on_true: bool,
        tree: &DomTree,
    ) -> (r: Option<Candidate>)
        requires
            tree.wf(),
            arm_of(data@, arm) is Some,
        ensures
            match r {
                Some(c) => triangle(data@, f, tree@, head, arm, merge, arm_on_true) == Some(c@),
                None => triangle(data@, f, tree@, head, arm, merge, arm_on_true) is None,
            },
    {
        let term = data.terminator(head);
        let cond = data.arg(term, 0);
        let (edge_args, direct) = if arm_on_true {
            (data.t_args(term), data.f_args(term))
        } else {
            (data.f_args(term), data.t_args(term))
        };
        let only = vec![term];
        assert(only@ =~= seq![term]);
        if merge == head || merge == arm || data.block_params(arm).len() != 0 || edge_args.len() != 0
            || !self.exact_users(data, f, arm, &only) {
            return None;
        }
        let jump = data.terminator(arm);
        let arm_args = data.args(jump);
        let both = vec![term, jump];
        assert(both@ =~= seq![term, jump]);
        if !self.exact_users(data, f, merge, &both) {
            return None;
        }
        let moved = match self.movable(data, f, head, arm, tree) {
            Some(m) => m,
            None => {
                return None;
            },
        };
        if !self.all_available_or(data, f, &arm_args, head, &moved, tree) || !self.all_available_at(
            data,
            f,
            &direct,
            head,
            tree,
        ) {
            return None;
        }
        let blocks = vec![arm];
        assert(blocks@ =~= seq![arm]);
        if arm_on_true {
            self.finish_candidate(data, head, term, merge, cond, &arm_args, &direct, blocks, arm, moved, tree)
        } else {
            self.finish_candidate(data, head, term, merge, cond, &direct, &arm_args, blocks, arm, moved, tree)
        }
    }

    fn movable(&self, data: &Program, f: Function, head: BasicBlock, arm: BasicBlock, tree: &DomTree) -> (r: Option<
        Vec<Inst>,
    >)
        requires
            tree.wf(),
        ensures
            match r {
                Some(m) => moves_from(data@, f, tree@, head, data@.block(arm).insts, 0, Seq::empty()) == Some(m@),
                None => moves_from(data@, f, tree@, head, data@.block(arm).insts, 0, Seq::empty()) is None,
            },
    {
        let insts = data.block_insts(arm);
        let mut moved: Vec<Inst> = Vec::new();
        assert(moved@ =~= Seq::empty());
        let mut k: usize = 0;
        while k < insts.len() && k + 1 < insts.len()
            invariant
                k <= insts@.len(),
                tree.wf(),
                insts@ == data@.block(arm).insts,
                moves_from(data@, f, tree@, head, insts@, 0, Seq::empty()) == moves_from(
                    data@,
                    f,
                    tree@,
                    head,
                    insts@,
                    k as int,
                    moved@,
                ),
            decreases insts@.len() - k,
        {
            if !self.safe_arm_binary(data, f, insts[k], head, &moved, tree) {
                return None;
            }
            let users = data.users(insts[k]);
            if users.len() != 1 || users[0] != insts[k + 1] {
                assert(users@ != seq![insts@[k + 1]]);
                return None;
            }
            assert(users@ =~= seq![insts@[k + 1]]);
            moved.push(insts[k]);
            k += 1;
        }
        Some(moved)
    }

    /// Decides what becomes of the parameters of `merge`.
    pub fn finish_candidate(
        &self,
        data: &Program,
        head: BasicBlock,
        terminator: Inst,
        merge: BasicBlock,
        cond: Inst,
        true_args: &Vec<Inst>,
        false_args: &Vec<Inst>,
        remove_blocks: Vec<BasicBlock>,
        arm: BasicBlock,
        move_insts: Vec<Inst>,
        tree: &DomTree,
    ) -> (r: Option<Candidate>)
        requires
            tree.wf(),
        ensures
            ({
                let want = finished(
                    data@,
                    tree@,
                    head,
                    terminator,
                    merge,
                    cond,
                    true_args@,
                    false_args@,
                    remove_blocks@,
                    arm,
                    move_insts@,
                );
                match r {
                    Some(c) => want == Some(c@),
                    None => want is None,
                }
            }),
    {
        if merge == head || !self.dominates(tree, head, merge) {
            return None;
        }
        let params = data.block_params(merge);
        if params.len() != true_args.len() || params.len() != false_args.len() {
            return None;
        }
        let values = match self.merge_values(data, cond, &params, true_args, false_args) {
            Some(v) => v,
            None => {
                return None;
            },
        };
        let mut choice = false;
        let mut k: usize = 0;
        while k < values.len() && !choice
            invariant
                k <= values@.len(),
                choice ==> any_choice(values@),
                !choice ==> forall|j: int| 0 <= j < k ==> #[trigger] values@[j] is Common,
            decreases values@.len() - k, !choice as int,
        {
            match values[k] {
                MergedValue::Common(_) => {},
                _ => {
                    assert(!(values@[k as int] is Common));
                    choice = true;
                },
            }
            k += 1;
        }
        if !choice {
            return None;
        }
        Some(Candidate { head, terminator, merge, cond, values, remove_blocks, arm, move_insts })
    }

    fn merge_values(&self, data: &Program, cond: Inst, params: &Vec<Inst>, ta: &Vec<Inst>, fa: &Vec<Inst>) -> (r: Option<
        Vec<MergedValue>,
    >)
        requires
            params@.len() == ta@.len(),
            params@.len() == fa@.len(),
        ensures
            match r {
                Some(v) => merged_from(data@, cond, params@, ta@, fa@, 0, Seq::empty()) == Some(v@),
                None => merged_from(data@, cond, params@, ta@, fa@, 0, Seq::empty()) is None,
            },
    {
        let mut values: Vec<MergedValue> = Vec::new();
        assert(values@ =~= Seq::empty());
        let mut k: usize = 0;
        while k < params.len()
            invariant
                k <= params@.len(),
                params@.len() == ta@.len(),
                params@.len() == fa@.len(),
                merged_from(data@, cond, params@, ta@, fa@, 0, Seq::empty()) == merged_from(
                    data@,
                    cond,
                    params@,
                    ta@,
                    fa@,
                    k as int,
                    values@,
                ),
            decreases params@.len() - k,
        {
            let ty = data.ty(params[k]);
            if ty.is_unit() || !data.ty(ta[k]).same(&ty) || !data.ty(fa[k]).same(&ty) {
                return None;
            }
            let v = if ta[k] == fa[k] {
                MergedValue::Common(ta[k])
            } else {
                match self.fold_land_lor(data, cond, ta[k], fa[k]) {
                    Some((op, l, r)) => MergedValue::BoolBinary(op, l, r),
                    None => MergedValue::Select(ta[k], fa[k]),
                }
            };
            values.push(v);
            k += 1;
        }
        Some(values)
    }

    /// The logical operation that chooses between `if_true` and `if_false` by `cond`.
    pub fn fold_land_lor(&self, data: &Program, cond: Inst, if_true: Inst, if_false: Inst) -> (r: Option<
        (BinaryOp, Inst, Inst),
    >)
        ensures
            r == land_lor(data@, cond, if_true, if_false),
    {
        if self.zero_one(data, cond) && self.zero_one(data, if_true) && self.is_zero_const(data, if_false) {
            return Some((BinaryOp::And, cond, if_true));
        }
        if self.zero_one(data, cond) && if_true == cond && self.zero_one(data, if_false) {
            return Some((BinaryOp::Or, cond, if_false));
        }
        None
    }

    /// Whether `value` is a comparison or one of the literals zero and one.
    pub fn zero_one(&self, data: &Program, value: Inst) -> (r: bool)
        ensures
            r == is_zero_one(data@, value),
    {
        match data.op(value) {
            Op::Binary(op) => op.is_compare(),
            Op::Integer(k) => k == 0 || k == 1,
            _ => false,
        }
    }

    pub fn is_zero_const(&self, data: &Program, value: Inst) -> (r: bool)
        ensures
            r == (data@.op(value) == Op::Integer(0)),
    {
        matches!(data.op(value), Op::Integer(0))
    }

    /// The jump that is all of block `bb`, with its target and arguments.
    pub fn empty_arm(&self, data: &Program, bb: BasicBlock) -> (r: Option<(Inst, BasicBlock, Vec<Inst>)>)
        ensures
            match r {
                Some((j, t, a)) => empty_arm_of(data@, bb) == Some((j, t, a@)),
                None => empty_arm_of(data@, bb) is None,
            },
    {
        if data.block_insts(bb).len() != 1 {
            return None;
        }
        self.arm(data, bb)
    }

    /// The jump that ends block `bb`, with its target and arguments.
    pub fn arm(&self, data: &Program, bb: BasicBlock) -> (r: Option<(Inst, BasicBlock, Vec<Inst>)>)
        ensures
            match r {
                Some((j, t, a)) => arm_of(data@, bb) == Some((j, t, a@)),
                None => arm_of(data@, bb) is None,
            },
    {
        let jump = data.terminator(bb);
        match data.op(jump) {
            Op::Jump(t) => Some((jump, t, data.args(jump))),
            _ => None,
        }
    }

    fn safe_arm_binary(&self, data: &Program, f: Function, inst: Inst, head: BasicBlock, chain: &Vec<Inst>, tree: &DomTree) -> (r:
        bool)
        requires
            tree.wf(),
        ensures
            r == can_hoist(data@, f, tree@, inst, head, chain@),
    {
        match data.op(inst) {
            Op::Binary(op) => {
                let lhs = data.arg(inst, 0);
                let rhs = data.arg(inst, 1);
                data.is_i32(inst) && data.is_i32(lhs) && data.is_i32(rhs) && !matches!(op, BinaryOp::Div | BinaryOp::Rem)
                    && (has_inst(chain, lhs) || self.available_at(data, f, lhs, head, tree)) && (has_inst(chain, rhs)
                    || self.available_at(data, f, rhs, head, tree))
            },
            _ => false,
        }
    }

    /// Whether `value` can be used at the end of block `head`.
    pub fn available_at(&self, data: &Program, f: Function, value: Inst, head: BasicBlock, tree: &DomTree) -> (r: bool)
        requires
            tree.wf(),
        ensures
            r == is_available(data@, f, tree@, value, head),
    {
        let op = data.op(value);
        let params = data.block_params(head);
        if data.is_global(value) || matches!(
            op,
            Op::Integer(_) | Op::Float(_) | Op::ZeroInit | Op::Undef | Op::Aggregate
        ) || has_inst(&params, value) {
            return true;
        }
        if let Op::BlockArgRef = op {
            return match self.block_of_param(data, f, value) {
                Some(b) => self.dominates(tree, b, head),
                None => false,
            };
        }
        match data.parent_bb(f, value) {
            None => false,
            Some(b) => if b == head {
                data.terminator(head) != value
            } else {
                self.dominates(tree, b, head)
            },
        }
    }

    fn all_available_at(&self, data: &Program, f: Function, args: &Vec<Inst>, head: BasicBlock, tree: &DomTree) -> (r: bool)
        requires
            tree.wf(),
        ensures
            r == all_available(data@, f, tree@, args@, head),
    {
        let mut k: usize = 0;
        while k < args.len()
            invariant
                k <= args@.len(),
                tree.wf(),
                forall|j: int| 0 <= j < k ==> is_available(data@, f, tree@, #[trigger] args@[j], head),
            decreases args@.len() - k,
        {
            if !self.available_at(data, f, args[k], head, tree) {
                assert(!is_available(data@, f, tree@, args@[k as int], head));
                return false;
            }
            k += 1;
        }
        true
    }

    fn all_available_or(
        &self,
        data: &Program,
        f: Function,
        args: &Vec<Inst>,
        head: BasicBlock,
        moved: &Vec<Inst>,
        tree: &DomTree,
    ) -> (r: bool)
        requires
            tree.wf(),
        ensures
            r == available_or_moved(data@, f, tree@, args@, head, moved@),
    {
        let mut k: usize = 0;
        while k < args.len()
            invariant
                k <= args@.len(),
                tree.wf(),
                forall|j: int|
                    0 <= j < k ==> moved@.contains(#[trigger] args@[j]) || is_available(
                        data@,
                        f,
                        tree@,
                        args@[j],
                        head,
                    ),
            decreases args@.len() - k,
        {
            if !has_inst(moved, args[k]) && !self.available_at(data, f, args[k], head, tree) {
                assert(!moved@.contains(args@[k as int]));
                return false;
            }
            k += 1;
        }
        true
    }

    /// The block of `f` that has `value` as a parameter.
    pub fn block_of_param(&self, data: &Program, f: Function, value: Inst) -> (r: Option<BasicBlock>)
        ensures
            r == param_block_from(data@, f, value, 0),
    {
        let blocks = data.basicblocks(f);
        let mut k: usize = 0;
        while k < blocks.len()
            invariant
                k <= blocks@.len(),
                blocks@ == data@.func(f).blocks,
                param_block_from(data@, f, value, 0) == param_block_from(data@, f, value, k as int),
            decreases blocks@.len() - k,
        {
            let params = data.block_params(blocks[k]);
            if has_inst(&params, value) {
                return Some(blocks[k]);
            }
            k += 1;
        }
        None
    }

    fn dominates(&self, tree: &DomTree, dominator: BasicBlock, block: BasicBlock) -> (r: bool)
        requires
            tree.wf(),
        ensures
            r == dominates_by(tree@, dominator, block),
    {
        dominator == block || tree.entry_block() == dominator || !tree.is_reached(block) || (tree.is_reached(dominator)
            && tree.dominates(dominator, block))
    }

    /// Whether exactly the terminators `expected` of `f` lead to block `bb`.
    pub fn exact_users(&self, data: &Program, f: Function, bb: BasicBlock, expected: &Vec<Inst>) -> (r: bool)
        ensures
            r == has_exact_users(data@, f, bb, expected@),
    {
        let users = data.block_users(bb);
        let mut found: Vec<Inst> = Vec::new();
        assert(found@ =~= Seq::empty());
        let mut k: usize = 0;
        while k < users.len()
            invariant
                k <= users@.len(),
                placed_users_from(data@, f, users@, 0, Seq::empty()) == placed_users_from(
                    data@,
                    f,
                    users@,
                    k as int,
                    found@,
                ),
            decreases users@.len() - k,
        {
            if data.parent_bb(f, users[k]).is_some() {
                found.push(users[k]);
            }
            k += 1;
        }
        if found.len() != expected.len() {
            return false;
        }
        let mut all = true;
        let mut k: usize = 0;
        while k < expected.len() && all
            invariant
                k <= expected@.len(),
                all ==> forall|j: int| 0 <= j < k ==> found@.contains(#[trigger] expected@[j]),
                !all ==> exists|j: int| 0 <= j < expected@.len() && !found@.contains(#[trigger] expected@[j]),
            decreases expected@.len() - k, all as int,
        {
            if !has_inst(&found, expected[k]) {
                assert(!found@.contains(expected@[k as int]));
                all = false;
            }
            k += 1;
        }
        all
    }

    /// Turns candidate `c` into straight-line code.
    pub fn apply(&self, data: &mut Program, f: Function, c: Candidate)
        ensures
            final(data)@ == converted(old(data)@, f, c@),
    {
        let params = data.block_params(c.merge);
        data.remove_layout_inst(c.head, c.terminator);
        let ghost start = data@;
        let mut k: usize = 0;
        while k < c.move_insts.len()
            invariant
                k <= c.move_insts@.len(),
                moved_to(start, c.arm, c.head, c.move_insts@, 0) == moved_to(
                    data@,
                    c.arm,
                    c.head,
                    c.move_insts@,
                    k as int,
                ),
            decreases c.move_insts@.len() - k,
        {
            data.detach_layout_inst(c.arm, c.move_insts[k]);
            data.insert_inst(c.head, c.move_insts[k]);
            k += 1;
        }
        let ghost p1 = data@;
        let mut values: Vec<Inst> = Vec::new();
        assert(values@ =~= Seq::empty());
        let mut k: usize = 0;
        while k < c.values.len()
            invariant
                k <= c.values@.len(),
                choices_made(p1, c.head, c.cond, c.values@, 0, Seq::empty()) == choices_made(
                    data@,
                    c.head,
                    c.cond,
                    c.values@,
                    k as int,
                    values@,
                ),
            decreases c.values@.len() - k,
        {
            match c.values[k] {
                MergedValue::Common(v) => {
                    values.push(v);
                },
                MergedValue::Select(a, b) => {
                    let i = data.select(c.cond, a, b);
                    data.insert_inst(c.head, i);
                    values.push(i);
                },
                MergedValue::BoolBinary(op, l, r) => {
                    let i = data.binary(op, l, r);
                    data.insert_inst(c.head, i);
                    values.push(i);
                },
            }
            k += 1;
        }
        let ghost p2 = data@;
        let mut k: usize = 0;
        while k < params.len() && k < values.len()
            invariant
                k <= params@.len(),
                k <= values@.len(),
                params_replaced(p2, params@, values@, 0) == params_replaced(data@, params@, values@, k as int),
            decreases params@.len() - k,
        {
            data.replace_uses(params[k], values[k]);
            k += 1;
        }
        let none: Vec<Inst> = Vec::new();
        assert(none@ =~= Seq::empty());
        data.set_block_params(c.merge, copy_vec(&none));
        data.erase_all(&params);
        let jump = data.jump(c.merge, none);
        data.insert_inst(c.head, jump);
        let ghost p4 = data@;
        let mut k: usize = 0;
        while k < c.remove_blocks.len()
            invariant
                k <= c.remove_blocks@.len(),
                arms_removed(p4, f, c.remove_blocks@, 0) == arms_removed(data@, f, c.remove_blocks@, k as int),
            decreases c.remove_blocks@.len() - k,
        {
            data.remove_layout_basicblock(f, c.remove_blocks[k]);
            k += 1;
        }
    }
}

/// The value that a merged parameter gets when values are as `env` says.
pub open spec fn merged_meaning(v: MergedValue, cond: Inst, env: spec_fn(Inst) -> i32) -> i32 {
    match v {
        MergedValue::Common(x) => env(x),
        MergedValue::Select(a, b) => if env(cond) != 0 {
            env(a)
        } else {
            env(b)
        },
        MergedValue::BoolBinary(op, l, r) => int_op(op, env(l), env(r)),
    }
}

/// What replaces a parameter of the merge block has the value that the branch would have passed:
/// the true edge's argument when the condition is not zero, else the false edge's.
pub proof fn merged_value_is_the_passed_one(p: ProgramV, cond: Inst, a: Inst, b: Inst, env: spec_fn(Inst) -> i32)
    requires
        forall|v: Inst| #[trigger] is_zero_one(p, v) ==> env(v) == 0 || env(v) == 1,
        forall|v: Inst| #[trigger] p.op(v) is Integer ==> env(v) == p.op(v)->Integer_0,
    ensures
        merged_meaning(merged(p, cond, a, b), cond, env) == (if env(cond) != 0 {
            env(a)
        } else {
            env(b)
        }),
{
    assert(0i32 & 0i32 == 0 && 0i32 & 1i32 == 0 && 1i32 & 0i32 == 0 && 1i32 & 1i32 == 1) by (bit_vector);
    assert(0i32 | 0i32 == 0 && 0i32 | 1i32 == 1 && 1i32 | 0i32 == 1 && 1i32 | 1i32 == 1) by (bit_vector);
    assert(is_zero_one(p, cond) || !is_zero_one(p, cond));
    assert(is_zero_one(p, a) || !is_zero_one(p, a));
    assert(is_zero_one(p, b) || !is_zero_one(p, b));
    assert(p.op(b) == Op::Integer(0i32) ==> env(b) == 0);
}

} // verus!
