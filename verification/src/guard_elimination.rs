//! Folding of tests for negative values that never are.

use vstd::prelude::*;

use crate::arith::{defined, division_keeps_sign, int_op};
use crate::blocked_reduction::nth;
use crate::ipsccp::{call_sites, sites};
use crate::ir::{has_inst, inst_position, position, BasicBlock, BinaryOp, Function, Inst, Op, ProgramV, Type};
use crate::program::Program;
use crate::program_order::Node;

verus! {

pub struct GuardElimination;

/// The operation and operands of a binary instruction.
pub fn binary_of(data: &Program, inst: Inst) -> (r: Option<(BinaryOp, Inst, Inst)>)
    ensures
        r == (match data@.op(inst) {
            Op::Binary(op) => Some((op, data@.arg(inst, 0), data@.arg(inst, 1))),
            _ => None,
        }),
{
    match data.op(inst) {
        Op::Binary(op) => Some((op, data.arg(inst, 0), data.arg(inst, 1))),
        _ => None,
    }
}

/// The block from `from` on that has `i` as parameter.
pub open spec fn block_of_param(p: ProgramV, i: Inst, from: int) -> Option<BasicBlock>
    decreases p.blocks.len() - from,
{
    if from >= p.blocks.len() {
        None
    } else if p.block(BasicBlock(from as usize)).params.contains(i) {
        Some(BasicBlock(from as usize))
    } else {
        block_of_param(p, i, from + 1)
    }
}

/// What the transfers `users[from..]` pass to parameter `idx` of `b`, behind `found`; no value at all
/// where one passes too few.
pub open spec fn fed_from(p: ProgramV, users: Seq<Inst>, b: BasicBlock, idx: int, from: int, found: Seq<Inst>) -> Seq<Inst>
    decreases users.len() - from,
{
    if from >= users.len() {
        found
    } else {
        let u = users[from];
        let next = match p.op(u) {
            Op::Jump(x) => if x == b {
                found.push(nth(p.args(u), idx))
            } else {
                found
            },
            Op::Branch(x, y, _) => {
                let one = if x == b {
                    found.push(nth(p.t_args(u), idx))
                } else {
                    found
                };
                if y == b {
                    one.push(nth(p.f_args(u), idx))
                } else {
                    one
                }
            },
            _ => found,
        };
        fed_from(p, users, b, idx, from + 1, next)
    }
}

/// What the calls `calls[from..]` pass as argument `idx`, behind `found`.
pub open spec fn called_with(p: ProgramV, calls: Seq<Node>, idx: int, from: int, found: Seq<Inst>) -> Seq<Inst>
    decreases calls.len() - from,
{
    if from >= calls.len() {
        found
    } else {
        called_with(p, calls, idx, from + 1, found.push(nth(p.args(calls[from].inst), idx)))
    }
}

/// What the functions from `from` on with entry `b` are called with as argument `idx`, behind `found`;
/// `None` where one of them is not called.
pub open spec fn entered_with(p: ProgramV, b: BasicBlock, idx: int, from: int, found: Seq<Inst>) -> Option<Seq<Inst>>
    decreases p.funcs.len() - from,
{
    if from >= p.funcs.len() {
        Some(found)
    } else {
        let f = Function(from as usize);
        if p.func(f).blocks.len() > 0 && p.func(f).blocks[0] == b {
            let calls = sites(p, f);
            if calls.len() == 0 {
                None
            } else {
                entered_with(p, b, idx, from + 1, called_with(p, calls, idx, 0, found))
            }
        } else {
            entered_with(p, b, idx, from + 1, found)
        }
    }
}

/// What the instructions `insts[from..]` of a function give its caller, behind `found`.
pub open spec fn given_back(p: ProgramV, insts: Seq<Inst>, from: int, found: Seq<Inst>) -> Seq<Inst>
    decreases insts.len() - from,
{
    if from >= insts.len() {
        found
    } else {
        let i = insts[from];
        given_back(
            p,
            insts,
            from + 1,
            match p.op(i) {
                Op::Return => found.push(p.arg(i, 0)),
                Op::TailCall(_) => found.push(i),
                _ => found,
            },
        )
    }
}

/// The values that `i` gets its value from: what is passed to a parameter, what a function gives back.
/// `None` where they are not all known.
pub open spec fn sources(p: ProgramV, i: Inst) -> Option<Seq<Inst>> {
    match p.op(i) {
        Op::BlockArgRef => match block_of_param(p, i, 0) {
            Some(b) => {
                let idx = position(p.block(b).params, i, 0);
                entered_with(p, b, idx, 0, fed_from(p, p.block_users(b), b, idx, 0, Seq::empty()))
            },
            None => None,
        },
        Op::Call(g) => if p.func(g).blocks.len() == 0 {
            None
        } else {
            Some(given_back(p, p.placed(g), 0, Seq::empty()))
        },
        Op::TailCall(g) => if p.func(g).blocks.len() == 0 {
            None
        } else {
            Some(given_back(p, p.placed(g), 0, Seq::empty()))
        },
        _ => None,
    }
}

/// Value `i` is marked.
pub open spec fn marked(marks: Seq<bool>, i: Inst) -> bool {
    i.0 < marks.len() && marks[i.0 as int]
}

/// All of `list[from..]` are marked.
pub open spec fn all_marked(marks: Seq<bool>, list: Seq<Inst>, from: int) -> bool
    decreases list.len() - from,
{
    from >= list.len() || (marked(marks, list[from]) && all_marked(marks, list, from + 1))
}

/// An operation on `i32` gives no negative value when those of its operands that are marked are not
/// negative.
pub open spec fn keeps_sign(op: BinaryOp, a: bool, b: bool) -> bool {
    match op {
        BinaryOp::And => a || b,
        BinaryOp::Or => a && b,
        BinaryOp::Xor => a && b,
        BinaryOp::Rem => a,
        BinaryOp::Div => a && b,
        BinaryOp::Shr => a,
        BinaryOp::Sar => a,
        BinaryOp::Min => a && b,
        BinaryOp::Max => a || b,
        _ => op.compares(),
    }
}

/// Value `i` is not negative if the marked values are not.
pub open spec fn follows(p: ProgramV, marks: Seq<bool>, i: Inst) -> bool {
    match p.op(i) {
        Op::Integer(c) => c >= 0,
        Op::Binary(op) => p.ty(p.arg(i, 0)) is I32 && keeps_sign(
            op,
            marked(marks, p.arg(i, 0)),
            marked(marks, p.arg(i, 1)),
        ),
        Op::Select => marked(marks, p.arg(i, 1)) && marked(marks, p.arg(i, 2)),
        _ => match sources(p, i) {
            Some(s) => all_marked(marks, s, 0),
            None => false,
        },
    }
}

/// The marks from `from` on taken away where they do not follow.
pub open spec fn swept(p: ProgramV, marks: Seq<bool>, from: int) -> Seq<bool>
    decreases marks.len() - from,
{
    if from >= marks.len() || from < 0 {
        marks
    } else if marks[from] && !follows(p, marks, Inst(from as usize)) {
        swept(p, marks.update(from, false), from + 1)
    } else {
        swept(p, marks, from + 1)
    }
}

/// Marks taken away until all that are left follow, in at most `rounds` sweeps; none are left where
/// that is not enough.
pub open spec fn settled(p: ProgramV, marks: Seq<bool>, rounds: nat) -> Seq<bool>
    decreases rounds,
{
    if rounds == 0 {
        Seq::new(marks.len(), |k: int| false)
    } else if swept(p, marks, 0) == marks {
        marks
    } else {
        settled(p, swept(p, marks, 0), (rounds - 1) as nat)
    }
}

/// Which values of `p` are never negative.
pub open spec fn never_negative(p: ProgramV) -> Seq<bool> {
    settled(p, Seq::new(p.insts.len(), |k: int| true), p.insts.len() + 1)
}

/// All marks follow from the marks.
pub open spec fn closed(p: ProgramV, marks: Seq<bool>) -> bool {
    forall|i: Inst| #[trigger] marked(marks, i) ==> follows(p, marks, i)
}

pub(crate) fn find_block_of_param(p: &Program, i: Inst) -> (r: Option<BasicBlock>)
    ensures
        r == block_of_param(p@, i, 0),
{
    let n: usize = p.num_blocks();
    let mut k: usize = 0;
    while k < n
        invariant
            k <= n,
            n == p@.blocks.len(),
            block_of_param(p@, i, 0) == block_of_param(p@, i, k as int),
        decreases n - k,
    {
        let params = p.block_params(BasicBlock(k));
        if has_inst(&params, i) {
            return Some(BasicBlock(k));
        }
        k += 1;
    }
    None
}

fn at(v: &Vec<Inst>, k: usize) -> (r: Inst)
    ensures
        r == nth(v@, k as int),
{
    if k < v.len() {
        v[k]
    } else {
        Inst(usize::MAX)
    }
}

pub(crate) fn collect_fed(p: &Program, b: BasicBlock, idx: usize) -> (r: Vec<Inst>)
    ensures
        r@ == fed_from(p@, p@.block_users(b), b, idx as int, 0, Seq::empty()),
{
    let users = p.block_users(b);
    let mut r: Vec<Inst> = Vec::new();
    assert(r@ =~= Seq::empty());
    let mut k: usize = 0;
    while k < users.len()
        invariant
            k <= users@.len(),
            fed_from(p@, users@, b, idx as int, 0, Seq::empty()) == fed_from(
                p@,
                users@,
                b,
                idx as int,
                k as int,
                r@,
            ),
        decreases users@.len() - k,
    {
        let u = users[k];
        match p.op(u) {
            Op::Jump(x) => {
                if x == b {
                    let args = p.args(u);
                    r.push(at(&args, idx));
                }
            },
            Op::Branch(x, y, _) => {
                if x == b {
                    let args = p.t_args(u);
                    r.push(at(&args, idx));
                }
                if y == b {
                    let args = p.f_args(u);
                    r.push(at(&args, idx));
                }
            },
            _ => {},
        }
        k += 1;
    }
    r
}

fn collect_entered(p: &Program, b: BasicBlock, idx: usize, found: Vec<Inst>) -> (r: Option<Vec<Inst>>)
    ensures
        match r {
            Some(v) => entered_with(p@, b, idx as int, 0, found@) == Some(v@),
            None => entered_with(p@, b, idx as int, 0, found@) is None,
        },
{
    let ghost start = found@;
    let mut r = found;
    let n: usize = p.num_funcs();
    let mut k: usize = 0;
    while k < n
        invariant
            k <= n,
            n == p@.funcs.len(),
            start == found@,
            entered_with(p@, b, idx as int, 0, start) == entered_with(p@, b, idx as int, k as int, r@),
        decreases n - k,
    {
        let f = Function(k);
        let blocks = p.basicblocks(f);
        if blocks.len() > 0 && blocks[0] == b {
            let calls = call_sites(p, f);
            if calls.len() == 0 {
                return None;
            }
            let ghost mid = r@;
            let mut j: usize = 0;
            while j < calls.len()
                invariant
                    j <= calls@.len(),
                    called_with(p@, calls@, idx as int, 0, mid) == called_with(p@, calls@, idx as int, j as int, r@),
                decreases calls@.len() - j,
            {
                let args = p.args(calls[j].inst);
                r.push(at(&args, idx));
                j += 1;
            }
        }
        k += 1;
    }
    Some(r)
}

fn collect_given(p: &Program, g: Function) -> (r: Vec<Inst>)
    ensures
        r@ == given_back(p@, p@.placed(g), 0, Seq::empty()),
{
    let insts = p.placed_insts(g);
    let mut r: Vec<Inst> = Vec::new();
    assert(r@ =~= Seq::empty());
    let mut k: usize = 0;
    while k < insts.len()
        invariant
            k <= insts@.len(),
            given_back(p@, insts@, 0, Seq::empty()) == given_back(p@, insts@, k as int, r@),
        decreases insts@.len() - k,
    {
        match p.op(insts[k]) {
            Op::Return => {
                r.push(p.arg(insts[k], 0));
            },
            Op::TailCall(_) => {
                r.push(insts[k]);
            },
            _ => {},
        }
        k += 1;
    }
    r
}

fn collect_sources(p: &Program, i: Inst) -> (r: Option<Vec<Inst>>)
    ensures
        match r {
            Some(v) => sources(p@, i) == Some(v@),
            None => sources(p@, i) is None,
        },
{
    match p.op(i) {
        Op::BlockArgRef => {
            match find_block_of_param(p, i) {
                Some(b) => {
                    let params = p.block_params(b);
                    let idx = inst_position(&params, i);
                    let fed = collect_fed(p, b, idx);
                    collect_entered(p, b, idx, fed)
                },
                None => None,
            }
        },
        Op::Call(g) | Op::TailCall(g) => {
            if p.is_decl(g) {
                None
            } else {
                Some(collect_given(p, g))
            }
        },
        _ => None,
    }
}

fn is_marked(marks: &Vec<bool>, i: Inst) -> (r: bool)
    ensures
        r == marked(marks@, i),
{
    i.0 < marks.len() && marks[i.0]
}

fn are_all_marked(marks: &Vec<bool>, list: &Vec<Inst>) -> (r: bool)
    ensures
        r == all_marked(marks@, list@, 0),
{
    let mut k: usize = 0;
    while k < list.len()
        invariant
            k <= list@.len(),
            all_marked(marks@, list@, 0) == all_marked(marks@, list@, k as int),
        decreases list@.len() - k,
    {
        if !is_marked(marks, list[k]) {
            return false;
        }
        k += 1;
    }
    true
}

fn does_keep_sign(op: BinaryOp, a: bool, b: bool) -> (r: bool)
    ensures
        r == keeps_sign(op, a, b),
{
    match op {
        BinaryOp::And => a || b,
        BinaryOp::Or => a && b,
        BinaryOp::Xor => a && b,
        BinaryOp::Rem => a,
        BinaryOp::Div => a && b,
        BinaryOp::Shr => a,
        BinaryOp::Sar => a,
        BinaryOp::Min => a && b,
        BinaryOp::Max => a || b,
        _ => op.is_compare(),
    }
}

fn does_follow(p: &Program, marks: &Vec<bool>, i: Inst) -> (r: bool)
    ensures
        r == follows(p@, marks@, i),
{
    match p.op(i) {
        Op::Integer(c) => c >= 0,
        Op::Binary(op) => {
            let a = p.arg(i, 0);
            let b = p.arg(i, 1);
            p.is_i32(a) && does_keep_sign(op, is_marked(marks, a), is_marked(marks, b))
        },
        Op::Select => is_marked(marks, p.arg(i, 1)) && is_marked(marks, p.arg(i, 2)),
        _ => match collect_sources(p, i) {
            Some(s) => are_all_marked(marks, &s),
            None => false,
        },
    }
}

fn sweep(p: &Program, marks: &mut Vec<bool>) -> (changed: bool)
    ensures
        final(marks)@ == swept(p@, old(marks)@, 0),
        final(marks)@.len() == old(marks)@.len(),
        changed == (final(marks)@ != old(marks)@),
{
    let ghost start = marks@;
    let mut changed = false;
    let mut k: usize = 0;
    while k < marks.len()
        invariant
            k <= marks@.len(),
            marks@.len() == start.len(),
            swept(p@, start, 0) == swept(p@, marks@, k as int),
            forall|j: int| k <= j < start.len() ==> marks@[j] == start[j],
            !changed ==> marks@ == start,
            changed ==> exists|j: int| 0 <= j < start.len() && #[trigger] start[j] && !marks@[j],
        decreases marks@.len() - k,
    {
        if marks[k] && !does_follow(p, marks, Inst(k)) {
            let ghost before = marks@;
            marks.set(k, false);
            changed = true;
            assert(start[k as int] && !marks@[k as int]);
        }
        k += 1;
    }
    changed
}

/// Which values of `p` are never negative.
pub fn nonneg_values(p: &Program) -> (marks: Vec<bool>)
    ensures
        marks@ == never_negative(p@),
{
    let n: usize = p.num_insts();
    let mut marks: Vec<bool> = Vec::new();
    let mut k: usize = 0;
    while k < n
        invariant
            k <= n,
            marks@.len() == k,
            forall|j: int| 0 <= j < k ==> marks@[j],
        decreases n - k,
    {
        marks.push(true);
        k += 1;
    }
    assert(marks@ =~= Seq::new(p@.insts.len(), |k: int| true));
    let mut rounds: usize = n;
    let ghost start = marks@;
    loop
        invariant
            rounds <= n,
            n == p@.insts.len(),
            marks@.len() == n,
            never_negative(p@) == settled(p@, start, (n + 1) as nat),
            settled(p@, start, (n + 1) as nat) == settled(p@, marks@, (rounds + 1) as nat),
        decreases rounds,
    {
        let ghost before = marks@;
        if !sweep(p, &mut marks) {
            assert(marks@ == before);
            return marks;
        }
        assert(settled(p@, before, (rounds + 1) as nat) == settled(p@, marks@, rounds as nat));
        if rounds == 0 {
            let mut none: Vec<bool> = Vec::new();
            let mut k: usize = 0;
            while k < n
                invariant
                    k <= n,
                    none@.len() == k,
                    forall|j: int| 0 <= j < k ==> !none@[j],
                decreases n - k,
            {
                none.push(false);
                k += 1;
            }
            assert(none@ =~= Seq::new(marks@.len(), |k: int| false));
            return none;
        }
        rounds -= 1;
    }
}

/// The value that a branch tests for being negative.
pub open spec fn tested(p: ProgramV, t: Inst) -> Option<Inst> {
    let c = p.arg(t, 0);
    if p.op(t) is Branch && p.op(c) == Op::Binary(BinaryOp::Lt) && p.op(p.arg(c, 1)) == Op::Integer(0) {
        Some(p.arg(c, 0))
    } else {
        None
    }
}

/// The tests at the ends of `blocks[from..]` that never succeed made jumps.
pub open spec fn guards_folded(p: ProgramV, marks: Seq<bool>, blocks: Seq<BasicBlock>, from: int, changed: bool) -> (
    ProgramV,
    bool,
)
    decreases blocks.len() - from,
{
    if from >= blocks.len() {
        (p, changed)
    } else {
        let t = p.terminator(blocks[from]);
        match tested(p, t) {
            Some(x) => if marked(marks, x) {
                guards_folded(
                    p.set_inst(t, Op::Jump(p.op(t)->Branch_1), p.f_args(t), Type::Unit),
                    marks,
                    blocks,
                    from + 1,
                    true,
                )
            } else {
                guards_folded(p, marks, blocks, from + 1, changed)
            },
            None => guards_folded(p, marks, blocks, from + 1, changed),
        }
    }
}

/// The tests of the functions `layout[from..]` that never succeed made jumps.
pub open spec fn all_guards_folded(p: ProgramV, marks: Seq<bool>, layout: Seq<Function>, from: int, changed: bool) -> (
    ProgramV,
    bool,
)
    decreases layout.len() - from,
{
    if from >= layout.len() {
        (p, changed)
    } else {
        let (q, here) = guards_folded(p, marks, p.func(layout[from]).blocks, 0, changed);
        all_guards_folded(q, marks, layout, from + 1, here)
    }
}

impl GuardElimination {
    /// Makes tests for negative values that never are jumps. True when anything changed.
    pub fn run(&mut self, program: &mut Program) -> (changed: bool)
        ensures
            (final(program)@, changed) == all_guards_folded(
                old(program)@,
                never_negative(old(program)@),
                old(program)@.layout,
                0,
                false,
            ),
    {
        let marks = nonneg_values(program);
        let layout = program.function_layout();
        let mut changed = false;
        let mut k: usize = 0;
        while k < layout.len()
            invariant
                k <= layout@.len(),
                all_guards_folded(old(program)@, marks@, layout@, 0, false) == all_guards_folded(
                    program@,
                    marks@,
                    layout@,
                    k as int,
                    changed,
                ),
            decreases layout@.len() - k,
        {
            let blocks = program.basicblocks(layout[k]);
            let ghost start = (program@, changed);
            let mut j: usize = 0;
            while j < blocks.len()
                invariant
                    j <= blocks@.len(),
                    guards_folded(start.0, marks@, blocks@, 0, start.1) == guards_folded(
                        program@,
                        marks@,
                        blocks@,
                        j as int,
                        changed,
                    ),
                decreases blocks@.len() - j,
            {
                let t = program.terminator(blocks[j]);
                if let Op::Branch(_, e, _) = program.op(t) {
                    if let Some((BinaryOp::Lt, x, zero)) = binary_of(program, program.arg(t, 0)) {
                        if program.op(zero) == Op::Integer(0) && is_marked(&marks, x) {
                            let args = program.f_args(t);
                            program.set_inst(t, Op::Jump(e), args, Type::Unit);
                            changed = true;
                        }
                    }
                }
                j += 1;
            }
            k += 1;
        }
        changed
    }
}

/// A run as the values it computes one after the other: each from values computed before.
pub open spec fn computed(p: ProgramV, run: Seq<(Inst, i32)>) -> bool {
    forall|k: int| 0 <= k < run.len() ==> #[trigger] explained(p, run, k)
}

/// Value `x` of `i` was computed before step `k`.
pub open spec fn was(run: Seq<(Inst, i32)>, k: int, i: Inst, x: i32) -> bool {
    exists|j: int| 0 <= j < k && #[trigger] run[j] == (i, x)
}

/// Step `k` is what its instruction gives for values computed before.
pub open spec fn explained(p: ProgramV, run: Seq<(Inst, i32)>, k: int) -> bool {
    let (i, v) = run[k];
    match p.op(i) {
        Op::Integer(c) => v == c,
        Op::Binary(op) => p.ty(p.arg(i, 0)) is I32 ==> exists|x: i32, y: i32|
            #![trigger was(run, k, p.arg(i, 0), x), was(run, k, p.arg(i, 1), y)]
            was(run, k, p.arg(i, 0), x) && was(run, k, p.arg(i, 1), y) && defined(op, y) && v == int_op(op, x, y),
        Op::Select => was(run, k, p.arg(i, 1), v) || was(run, k, p.arg(i, 2), v),
        _ => match sources(p, i) {
            Some(s) => exists|n: int| 0 <= n < s.len() && was(run, k, #[trigger] s[n], v),
            None => true,
        },
    }
}

proof fn lemma_all_marked(marks: Seq<bool>, list: Seq<Inst>, from: int, n: int)
    requires
        0 <= from <= n < list.len(),
        all_marked(marks, list, from),
    ensures
        marked(marks, list[n]),
    decreases n - from,
{
    if from < n {
        lemma_all_marked(marks, list, from + 1, n);
    }
}

proof fn lemma_keeps_sign(op: BinaryOp, x: i32, y: i32, a: bool, b: bool)
    requires
        keeps_sign(op, a, b),
        a ==> x >= 0,
        b ==> y >= 0,
        defined(op, y),
    ensures
        int_op(op, x, y) >= 0,
{
    match op {
        BinaryOp::And => {
            assert(x >= 0 || y >= 0 ==> x & y >= 0) by (bit_vector);
        },
        BinaryOp::Or => {
            assert(x >= 0 && y >= 0 ==> x | y >= 0) by (bit_vector);
        },
        BinaryOp::Xor => {
            assert(x >= 0 && y >= 0 ==> x ^ y >= 0) by (bit_vector);
        },
        BinaryOp::Shr => {
            let s = (y as u32) % 32;
            assert(x >= 0 && s < 32 ==> ((x as u32) >> s) as i32 >= 0) by (bit_vector);
        },
        BinaryOp::Sar => {
            let s = (y as u32) % 32;
            assert(x >= 0 && s < 32 ==> x >> s >= 0) by (bit_vector);
        },
        BinaryOp::Rem => {
            division_keeps_sign(x, y);
        },
        BinaryOp::Div => {
            division_keeps_sign(x, y);
        },
        _ => {},
    }
}

/// Where all marks follow from the marks, a marked value is never negative, in any run.
pub proof fn marked_values_are_not_negative(p: ProgramV, marks: Seq<bool>, run: Seq<(Inst, i32)>, k: int)
    requires
        closed(p, marks),
        computed(p, run),
        0 <= k < run.len(),
        marked(marks, run[k].0),
    ensures
        run[k].1 >= 0,
    decreases k, 1int,
{
    let (i, v) = run[k];
    assert(explained(p, run, k));
    assert(follows(p, marks, i));
    match p.op(i) {
        Op::Integer(_) => {},
        Op::Binary(op) => {
            let (x, y) = choose|x: i32, y: i32|
                #![trigger was(run, k, p.arg(i, 0), x), was(run, k, p.arg(i, 1), y)]
                was(run, k, p.arg(i, 0), x) && was(run, k, p.arg(i, 1), y) && defined(op, y) && v == int_op(op, x, y);
            if marked(marks, p.arg(i, 0)) {
                lemma_was(p, marks, run, k, p.arg(i, 0), x);
            }
            if marked(marks, p.arg(i, 1)) {
                lemma_was(p, marks, run, k, p.arg(i, 1), y);
            }
            lemma_keeps_sign(op, x, y, marked(marks, p.arg(i, 0)), marked(marks, p.arg(i, 1)));
        },
        Op::Select => {
            if was(run, k, p.arg(i, 1), v) {
                lemma_was(p, marks, run, k, p.arg(i, 1), v);
            } else {
                lemma_was(p, marks, run, k, p.arg(i, 2), v);
            }
        },
        _ => {
            let s = sources(p, i)->0;
            let n = choose|n: int| 0 <= n < s.len() && was(run, k, #[trigger] s[n], v);
            lemma_all_marked(marks, s, 0, n);
            lemma_was(p, marks, run, k, s[n], v);
        },
    }
}

proof fn lemma_was(p: ProgramV, marks: Seq<bool>, run: Seq<(Inst, i32)>, k: int, i: Inst, x: i32)
    requires
        closed(p, marks),
        computed(p, run),
        0 <= k < run.len(),
        marked(marks, i),
        was(run, k, i, x),
    ensures
        x >= 0,
    decreases k, 0int,
{
    let j = choose|j: int| 0 <= j < k && #[trigger] run[j] == (i, x);
    marked_values_are_not_negative(p, marks, run, j);
}

proof fn lemma_swept(p: ProgramV, marks: Seq<bool>, from: int)
    requires
        0 <= from <= marks.len(),
    ensures
        swept(p, marks, from).len() == marks.len(),
        forall|j: int| 0 <= j < marks.len() ==> (#[trigger] swept(p, marks, from)[j]) ==> marks[j],
        swept(p, marks, from) == marks ==> forall|j: int|
            from <= j < marks.len() ==> (#[trigger] marks[j]) ==> follows(p, marks, Inst(j as usize)),
    decreases marks.len() - from,
{
    if from < marks.len() {
        if marks[from] && !follows(p, marks, Inst(from as usize)) {
            let next = marks.update(from, false);
            lemma_swept(p, next, from + 1);
            assert(!next[from]);
            assert(!swept(p, marks, from)[from]);
        } else {
            lemma_swept(p, marks, from + 1);
        }
    }
}

proof fn lemma_settled(p: ProgramV, marks: Seq<bool>, rounds: nat)
    requires
        marks.len() <= usize::MAX + 1,
    ensures
        closed(p, settled(p, marks, rounds)),
    decreases rounds,
{
    if rounds > 0 {
        lemma_swept(p, marks, 0);
        if swept(p, marks, 0) == marks {
            assert forall|i: Inst| #[trigger] marked(marks, i) implies follows(p, marks, i) by {
                assert(marks[i.0 as int]);
                assert(Inst(i.0 as int as usize) == i);
            }
        } else {
            lemma_settled(p, swept(p, marks, 0), (rounds - 1) as nat);
        }
    }
}

/// No value that is found never to be negative is negative in any run.
pub proof fn never_negative_is_sound(p: ProgramV, run: Seq<(Inst, i32)>, k: int)
    requires
        p.insts.len() <= usize::MAX,
        computed(p, run),
        0 <= k < run.len(),
        marked(never_negative(p), run[k].0),
    ensures
        run[k].1 >= 0,
{
    lemma_settled(p, Seq::new(p.insts.len(), |k: int| true), p.insts.len() + 1);
    marked_values_are_not_negative(p, never_negative(p), run, k);
}

} // verus!
