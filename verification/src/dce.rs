//! Removal of dead instructions, block parameters, blocks and functions.

use vstd::prelude::*;

use crate::cfg::{cfg_edges, entry_of, none, reverse_postorder, rpo_path, DomTree};
use crate::effects::{call_graph, is_removable, may_run, removable};
use crate::graph::{lemma_unseen_mark, reachable, reaches, unseen};
use crate::ir::{has_inst, nothing, BasicBlock, Function, Inst, Op, ProgramV, Type};
use crate::program::{branch_args, Program};

verus! {

pub struct DeadPhiElimination;

pub struct DeadCodeElimination;

pub struct UnreachableBasicBlock;

pub struct JumpOnlyElimination;

pub struct DeadFunctionElimination;

/// Any function may have side effects.
pub fn has_side_effect(_func: Function) -> (r: bool)
    ensures
        r,
{
    true
}

/// `i` must stay whatever becomes of its result: it transfers control, writes memory, or calls a
/// function other than in one of the `removable` calls.
pub open spec fn critical(p: ProgramV, i: Inst, removable: Seq<Inst>) -> bool {
    match p.op(i) {
        Op::Branch(_, _, _) => true,
        Op::Jump(_) => true,
        Op::Store => true,
        Op::MemZero(_) => true,
        Op::MemZeroDyn => true,
        Op::Return => true,
        Op::TailCall(_) => true,
        Op::Call(_) => !removable.contains(i),
        _ => false,
    }
}

pub fn is_critical(value: Inst, data: &Program, removable_calls: &Vec<Inst>) -> (r: bool)
    ensures
        r == critical(data@, value, removable_calls@),
{
    match data.op(value) {
        Op::Branch(_, _, _) => true,
        Op::Jump(_) => true,
        Op::Store => true,
        Op::MemZero(_) => true,
        Op::MemZeroDyn => true,
        Op::Return => true,
        Op::TailCall(_) => true,
        Op::Call(_) => !has_inst(removable_calls, value),
        _ => false,
    }
}

/// `i` is a local value that a critical instruction of `f` needs through `n` operands.
pub open spec fn needed_in(p: ProgramV, f: Function, removable: Seq<Inst>, i: Inst, n: nat) -> bool
    decreases n,
{
    i.0 < p.insts.len() && !p.inst(i).global && if n == 0 {
        p.placed(f).contains(i) && critical(p, i, removable)
    } else {
        exists|u: Inst| #[trigger] p.args(u).contains(i) && needed_in(p, f, removable, u, (n - 1) as nat)
    }
}

/// `i` is live in `f`: critical, or an operand of something live.
pub open spec fn live(p: ProgramV, f: Function, removable: Seq<Inst>, i: Inst) -> bool {
    exists|n: nat| needed_in(p, f, removable, i, n)
}

/// What is live keeps its local operands live.
pub proof fn operands_of_live_are_live(p: ProgramV, f: Function, removable: Seq<Inst>, u: Inst, i: Inst)
    requires
        live(p, f, removable, u),
        p.args(u).contains(i),
        i.0 < p.insts.len(),
        !p.inst(i).global,
    ensures
        live(p, f, removable, i),
{
    let n = choose|n: nat| needed_in(p, f, removable, u, n);
    assert(needed_in(p, f, removable, i, n + 1));
}

/// Marks cover everything live when they hold the critical instructions and are closed under operands.
proof fn lemma_marks_cover(p: ProgramV, f: Function, removable: Seq<Inst>, marks: Seq<bool>, i: Inst, n: nat)
    requires
        needed_in(p, f, removable, i, n),
        marks.len() == p.insts.len(),
        forall|x: Inst|
            #[trigger] p.placed(f).contains(x) && critical(p, x, removable) && x.0 < p.insts.len() && !p.inst(x).global
                ==> marks[x.0 as int],
        forall|u: Inst, x: Inst|
            u.0 < p.insts.len() && marks[u.0 as int] && #[trigger] p.args(u).contains(x) && x.0 < p.insts.len()
                && !p.inst(x).global ==> marks[x.0 as int],
    ensures
        marks[i.0 as int],
    decreases n,
{
    if n > 0 {
        let u = choose|u: Inst|
            #[trigger] p.args(u).contains(i) && needed_in(p, f, removable, u, (n - 1) as nat);
        lemma_marks_cover(p, f, removable, marks, u, (n - 1) as nat);
    }
}

/// Marks `i` and queues it, unless it is global, unknown or marked already.
fn mark(p: &Program, marks: &mut Vec<bool>, queue: &mut Vec<Inst>, i: Inst)
    requires
        old(marks)@.len() == p@.insts.len(),
    ensures
        final(marks)@.len() == old(marks)@.len(),
        ({
            let fresh = i.0 < p@.insts.len() && !p@.inst(i).global && !old(marks)@[i.0 as int];
            &&& fresh ==> final(marks)@ == old(marks)@.update(i.0 as int, true) && final(queue)@ == old(queue)@.push(i)
                && unseen(final(marks)@) + 1 == unseen(old(marks)@)
            &&& !fresh ==> final(marks)@ == old(marks)@ && final(queue)@ == old(queue)@
        }),
{
    if i.0 < p.num_insts() && !p.is_global(i) && !marks[i.0] {
        proof {
            lemma_unseen_mark(marks@, i.0 as int);
        }
        marks.set(i.0, true);
        queue.push(i);
    }
}

/// Invariant of the marking: marks are live, and each is queued or has its operands marked.
spec fn marking(p: ProgramV, f: Function, removable: Seq<Inst>, marks: Seq<bool>, queue: Seq<Inst>) -> bool {
    &&& marks.len() == p.insts.len()
    &&& forall|i: int| 0 <= i < marks.len() && #[trigger] marks[i] ==> live(p, f, removable, Inst(i as usize))
    &&& forall|k: int| 0 <= k < queue.len() ==> (#[trigger] queue[k]).0 < marks.len() && marks[queue[k].0 as int]
    &&& forall|u: Inst, x: Inst|
        u.0 < marks.len() && marks[u.0 as int] && !queue.contains(u) && #[trigger] p.args(u).contains(x) && x.0
            < p.insts.len() && !p.inst(x).global ==> marks[x.0 as int]
}

proof fn lemma_marking_grows(
    p: ProgramV,
    f: Function,
    removable: Seq<Inst>,
    marks: Seq<bool>,
    queue: Seq<Inst>,
    i: Inst,
)
    requires
        marking(p, f, removable, marks, queue),
        i.0 < marks.len(),
        !marks[i.0 as int],
        live(p, f, removable, i),
    ensures
        marking(p, f, removable, marks.update(i.0 as int, true), queue.push(i)),
{
    let m = marks.update(i.0 as int, true);
    let q = queue.push(i);
    assert forall|u: Inst, x: Inst|
        u.0 < m.len() && m[u.0 as int] && !q.contains(u) && #[trigger] p.args(u).contains(x) && x.0 < p.insts.len()
            && !p.inst(x).global implies m[x.0 as int] by {
        assert(q[queue.len() as int] == i);
        if queue.contains(u) {
            let k = choose|k: int| 0 <= k < queue.len() && queue[k] == u;
            assert(q[k] == u);
        }
        assert(u != i);
        assert(marks[u.0 as int]);
    }
    assert forall|k: int| 0 <= k < q.len() implies (#[trigger] q[k]).0 < m.len() && m[q[k].0 as int] by {
        if k < queue.len() {
            assert(q[k] == queue[k]);
        }
    }
    assert forall|k: int| 0 <= k < m.len() && #[trigger] m[k] implies live(p, f, removable, Inst(k as usize)) by {
        if k != i.0 {
            assert(marks[k]);
        }
    }
}

/// Marks what is live in `f`.
pub fn live_insts(data: &Program, f: Function, removable_calls: &Vec<Inst>) -> (marks: Vec<bool>)
    ensures
        marks@.len() == data@.insts.len(),
        forall|i: int|
            0 <= i < marks@.len() ==> (#[trigger] marks@[i] <==> live(
                data@,
                f,
                removable_calls@,
                Inst(i as usize),
            )),
{
    let n: usize = data.num_insts();
    let mut marks: Vec<bool> = Vec::new();
    while marks.len() < n
        invariant
            marks@.len() <= n,
            forall|t: int| 0 <= t < marks@.len() ==> !#[trigger] marks@[t],
        decreases n - marks@.len(),
    {
        marks.push(false);
    }
    let mut queue: Vec<Inst> = Vec::new();
    let insts = data.placed_insts(f);
    let ghost p = data@;
    let ghost rem = removable_calls@;
    let mut k: usize = 0;
    while k < insts.len()
        invariant
            k <= insts@.len(),
            p == data@,
            rem == removable_calls@,
            insts@ == p.placed(f),
            marking(p, f, rem, marks@, queue@),
            forall|j: int|
                0 <= j < k && critical(p, #[trigger] insts@[j], rem) && insts@[j].0 < p.insts.len() && !p.inst(
                    insts@[j],
                ).global ==> marks@[insts@[j].0 as int],
        decreases insts@.len() - k,
    {
        let i = insts[k];
        if is_critical(i, data, removable_calls) {
            proof {
                assert(insts@[k as int] == i);
                if i.0 < p.insts.len() && !p.inst(i).global {
                    assert(needed_in(p, f, rem, i, 0));
                    if !marks@[i.0 as int] {
                        lemma_marking_grows(p, f, rem, marks@, queue@, i);
                    }
                }
            }
            mark(data, &mut marks, &mut queue, i);
        }
        k += 1;
    }
    assert forall|x: Inst|
        #[trigger] p.placed(f).contains(x) && critical(p, x, rem) && x.0 < p.insts.len() && !p.inst(
            x,
        ).global implies marks@[x.0 as int] by {
        let j = choose|j: int| 0 <= j < insts@.len() && insts@[j] == x;
        assert(critical(p, insts@[j], rem));
    }
    while queue.len() > 0
        invariant
            p == data@,
            rem == removable_calls@,
            marking(p, f, rem, marks@, queue@),
            forall|x: Inst|
                #[trigger] p.placed(f).contains(x) && critical(p, x, rem) && x.0 < p.insts.len() && !p.inst(x).global
                    ==> marks@[x.0 as int],
        decreases unseen(marks@) + queue@.len(),
    {
        let ghost total = unseen(marks@) + queue@.len();
        let ghost before = queue@;
        let u = queue.pop().unwrap();
        let ghost rest = queue@;
        assert(before == rest.push(u));
        assert(before[rest.len() as int] == u);
        let args = data.args(u);
        let mut j: usize = 0;
        while j < args.len()
            invariant
                j <= args@.len(),
                p == data@,
                rem == removable_calls@,
                args@ == p.args(u),
                u.0 < marks@.len(),
                marks@[u.0 as int],
                live(p, f, rem, u),
                marks@.len() == p.insts.len(),
                unseen(marks@) + queue@.len() < total,
                forall|i: int| 0 <= i < marks@.len() && #[trigger] marks@[i] ==> live(p, f, rem, Inst(i as usize)),
                forall|m: int|
                    0 <= m < queue@.len() ==> (#[trigger] queue@[m]).0 < marks@.len() && marks@[queue@[m].0 as int],
                forall|v: Inst, x: Inst|
                    v != u && v.0 < marks@.len() && marks@[v.0 as int] && !queue@.contains(v) && #[trigger] p.args(
                        v,
                    ).contains(x) && x.0 < p.insts.len() && !p.inst(x).global ==> marks@[x.0 as int],
                forall|m: int|
                    0 <= m < j && (#[trigger] args@[m]).0 < p.insts.len() && !p.inst(args@[m]).global
                        ==> marks@[args@[m].0 as int],
                forall|x: Inst|
                    #[trigger] p.placed(f).contains(x) && critical(p, x, rem) && x.0 < p.insts.len() && !p.inst(
                        x,
                    ).global ==> marks@[x.0 as int],
            decreases args@.len() - j,
        {
            let i = args[j];
            let ghost m0 = marks@;
            let ghost q0 = queue@;
            proof {
                assert(args@[j as int] == i);
                if i.0 < p.insts.len() && !p.inst(i).global {
                    operands_of_live_are_live(p, f, rem, u, i);
                }
            }
            mark(data, &mut marks, &mut queue, i);
            proof {
                assert forall|v: Inst, x: Inst|
                    v != u && v.0 < marks@.len() && marks@[v.0 as int] && !queue@.contains(v) && #[trigger] p.args(
                        v,
                    ).contains(x) && x.0 < p.insts.len() && !p.inst(x).global implies marks@[x.0 as int] by {
                    if queue@ != q0 {
                        assert(queue@[q0.len() as int] == i);
                        if q0.contains(v) {
                            let m = choose|m: int| 0 <= m < q0.len() && q0[m] == v;
                            assert(queue@[m] == v);
                        }
                        assert(v != i);
                        assert(m0[v.0 as int]);
                    }
                }
                assert forall|m: int| 0 <= m < queue@.len() implies (#[trigger] queue@[m]).0 < marks@.len()
                    && marks@[queue@[m].0 as int] by {
                    if m < q0.len() {
                        assert(queue@[m] == q0[m]);
                    }
                }
                assert forall|m: int| 0 <= m < marks@.len() && #[trigger] marks@[m] implies live(
                    p,
                    f,
                    rem,
                    Inst(m as usize),
                ) by {
                    if m != i.0 {
                        assert(m0[m]);
                    }
                }
            }
            j += 1;
        }
        assert(marking(p, f, rem, marks@, queue@)) by {
            assert forall|v: Inst, x: Inst|
                v.0 < marks@.len() && marks@[v.0 as int] && !queue@.contains(v) && #[trigger] p.args(v).contains(x)
                    && x.0 < p.insts.len() && !p.inst(x).global implies marks@[x.0 as int] by {
                if v == u {
                    let m = choose|m: int| 0 <= m < args@.len() && args@[m] == x;
                    assert(args@[m].0 < p.insts.len());
                }
            }
        }
    }
    assert forall|i: int| 0 <= i < marks@.len() && live(p, f, rem, Inst(i as usize)) implies #[trigger] marks@[i] by {
        let x = Inst(i as usize);
        let m = choose|m: nat| needed_in(p, f, rem, x, m);
        lemma_marks_cover(p, f, rem, marks@, x, m);
    }
    marks
}

/// Those of `insts[from..]` that are live (or dead, where `keep` is false), behind `found`.
pub open spec fn sifted(
    p: ProgramV,
    f: Function,
    removable: Seq<Inst>,
    insts: Seq<Inst>,
    keep: bool,
    from: int,
    found: Seq<Inst>,
) -> Seq<Inst>
    decreases insts.len() - from,
{
    if from >= insts.len() {
        found
    } else if live(p, f, removable, insts[from]) == keep {
        sifted(p, f, removable, insts, keep, from + 1, found.push(insts[from]))
    } else {
        sifted(p, f, removable, insts, keep, from + 1, found)
    }
}

/// Blocks `blocks[from..]` of `q` reduced to what is live in `p`, the dead instructions emptied.
pub open spec fn swept(
    p: ProgramV,
    q: ProgramV,
    f: Function,
    removable: Seq<Inst>,
    blocks: Seq<BasicBlock>,
    from: int,
    changed: bool,
) -> (ProgramV, bool)
    decreases blocks.len() - from,
{
    if from >= blocks.len() {
        (q, changed)
    } else {
        let insts = q.block(blocks[from]).insts;
        let kept = sifted(p, f, removable, insts, true, 0, Seq::empty());
        let dead = sifted(p, f, removable, insts, false, 0, Seq::empty());
        swept(
            p,
            q.set_block_insts(blocks[from], kept).erase_all(dead, 0),
            f,
            removable,
            blocks,
            from + 1,
            changed || dead.len() > 0,
        )
    }
}

/// Sifting keeps exactly the live instructions, in order.
pub proof fn sifting_is_filtering(p: ProgramV, f: Function, removable: Seq<Inst>, insts: Seq<Inst>, keep: bool)
    ensures
        sifted(p, f, removable, insts, keep, 0, Seq::empty()) == insts.filter(
            |i: Inst| live(p, f, removable, i) == keep,
        ),
{
    let pred = |i: Inst| live(p, f, removable, i) == keep;
    reveal(Seq::filter);
    assert(insts.take(0) =~= Seq::empty());
    lemma_sifted(p, f, removable, insts, keep, 0);
}

proof fn lemma_sifted(p: ProgramV, f: Function, removable: Seq<Inst>, insts: Seq<Inst>, keep: bool, from: int)
    requires
        0 <= from <= insts.len(),
    ensures
        ({
            let pred = |i: Inst| live(p, f, removable, i) == keep;
            sifted(p, f, removable, insts, keep, from, insts.take(from).filter(pred)) == insts.filter(pred)
        }),
    decreases insts.len() - from,
{
    let pred = |i: Inst| live(p, f, removable, i) == keep;
    if from < insts.len() {
        reveal(Seq::filter);
        assert(insts.take(from + 1).drop_last() =~= insts.take(from));
        assert(insts.take(from + 1).last() == insts[from]);
        lemma_sifted(p, f, removable, insts, keep, from + 1);
    } else {
        assert(insts.take(from) =~= insts);
    }
}

/// The calls among `insts[from..]` whose callee leaves no trace, behind `found`.
pub open spec fn removable_calls_in(p: ProgramV, insts: Seq<Inst>, from: int, found: Seq<Inst>) -> Seq<Inst>
    decreases insts.len() - from,
{
    if from >= insts.len() {
        found
    } else {
        match p.op(insts[from]) {
            Op::Call(g) => if removable(p, g) {
                removable_calls_in(p, insts, from + 1, found.push(insts[from]))
            } else {
                removable_calls_in(p, insts, from + 1, found)
            },
            _ => removable_calls_in(p, insts, from + 1, found),
        }
    }
}

/// Functions `layout[from..]` swept in turn. Which calls may be dropped is judged by program `a`.
pub open spec fn all_swept(a: ProgramV, p: ProgramV, layout: Seq<Function>, from: int, changed: bool) -> (ProgramV, bool)
    decreases layout.len() - from,
{
    if from >= layout.len() {
        (p, changed)
    } else {
        let f = layout[from];
        let calls = removable_calls_in(a, a.placed(f), 0, Seq::empty());
        let (q, here) = swept(p, p, f, calls, p.func(f).blocks, 0, false);
        all_swept(a, q, layout, from + 1, changed || here)
    }
}

impl DeadCodeElimination {
    /// Removes the dead instructions of every function. True when something changed.
    pub fn run(&mut self, program: &mut Program) -> (changed: bool)
        ensures
            (final(program)@, changed) == all_swept(old(program)@, old(program)@, old(program)@.layout, 0, false),
    {
        let layout = program.function_layout();
        let mut calls: Vec<Vec<Inst>> = Vec::new();
        let mut k: usize = 0;
        while k < layout.len()
            invariant
                k <= layout@.len(),
                calls@.len() == k,
                program@ == old(program)@,
                forall|j: int|
                    0 <= j < k ==> (#[trigger] calls@[j])@ == removable_calls_in(
                        program@,
                        program@.placed(layout@[j]),
                        0,
                        Seq::empty(),
                    ),
            decreases layout@.len() - k,
        {
            calls.push(Self::droppable_calls(program, layout[k]));
            k += 1;
        }
        let mut changed = false;
        let mut k: usize = 0;
        while k < layout.len()
            invariant
                k <= layout@.len(),
                calls@.len() == layout@.len(),
                layout@ == old(program)@.layout,
                forall|j: int|
                    0 <= j < layout@.len() ==> (#[trigger] calls@[j])@ == removable_calls_in(
                        old(program)@,
                        old(program)@.placed(layout@[j]),
                        0,
                        Seq::empty(),
                    ),
                all_swept(old(program)@, old(program)@, layout@, 0, false) == all_swept(
                    old(program)@,
                    program@,
                    layout@,
                    k as int,
                    changed,
                ),
            decreases layout@.len() - k,
        {
            let here = self.run_on_func(program, layout[k], &calls[k]);
            changed = changed || here;
            k += 1;
        }
        changed
    }

    /// The calls of `f` whose callee leaves no trace.
    fn droppable_calls(program: &Program, f: Function) -> (calls: Vec<Inst>)
        ensures
            calls@ == removable_calls_in(program@, program@.placed(f), 0, Seq::empty()),
    {
        let insts = program.placed_insts(f);
        let mut calls: Vec<Inst> = Vec::new();
        assert(calls@ =~= Seq::empty());
        let mut j: usize = 0;
        while j < insts.len()
            invariant
                j <= insts@.len(),
                removable_calls_in(program@, insts@, 0, Seq::empty()) == removable_calls_in(
                    program@,
                    insts@,
                    j as int,
                    calls@,
                ),
            decreases insts@.len() - j,
        {
            if let Op::Call(g) = program.op(insts[j]) {
                if is_removable(program, g) {
                    calls.push(insts[j]);
                }
            }
            j += 1;
        }
        calls
    }

    /// Removes the dead instructions of `f`, keeping every call.
    pub fn run_on(&mut self, data: &mut Program, f: Function) -> (changed: bool)
        ensures
            (final(data)@, changed) == swept(
                old(data)@,
                old(data)@,
                f,
                Seq::empty(),
                old(data)@.func(f).blocks,
                0,
                false,
            ),
    {
        let calls: Vec<Inst> = Vec::new();
        assert(calls@ =~= Seq::empty());
        self.run_on_func(data, f, &calls)
    }

    /// Removes the instructions of `f` that are not live. True when there were any.
    pub fn run_on_func(&self, data: &mut Program, f: Function, removable_calls: &Vec<Inst>) -> (changed: bool)
        ensures
            (final(data)@, changed) == swept(
                old(data)@,
                old(data)@,
                f,
                removable_calls@,
                old(data)@.func(f).blocks,
                0,
                false,
            ),
    {
        let marks = live_insts(data, f, removable_calls);
        let blocks = data.basicblocks(f);
        let ghost p = data@;
        let mut changed = false;
        let mut k: usize = 0;
        while k < blocks.len()
            invariant
                k <= blocks@.len(),
                blocks@ == p.func(f).blocks,
                marks@.len() == p.insts.len(),
                forall|i: int|
                    0 <= i < marks@.len() ==> (#[trigger] marks@[i] <==> live(
                        p,
                        f,
                        removable_calls@,
                        Inst(i as usize),
                    )),
                swept(p, p, f, removable_calls@, blocks@, 0, false) == swept(
                    p,
                    data@,
                    f,
                    removable_calls@,
                    blocks@,
                    k as int,
                    changed,
                ),
            decreases blocks@.len() - k,
        {
            let insts = data.block_insts(blocks[k]);
            let mut kept: Vec<Inst> = Vec::new();
            let mut dead: Vec<Inst> = Vec::new();
            assert(kept@ =~= Seq::empty());
            assert(dead@ =~= Seq::empty());
            let mut j: usize = 0;
            while j < insts.len()
                invariant
                    j <= insts@.len(),
                    marks@.len() == p.insts.len(),
                    forall|i: int|
                        0 <= i < marks@.len() ==> (#[trigger] marks@[i] <==> live(
                            p,
                            f,
                            removable_calls@,
                            Inst(i as usize),
                        )),
                    sifted(p, f, removable_calls@, insts@, true, 0, Seq::empty()) == sifted(
                        p,
                        f,
                        removable_calls@,
                        insts@,
                        true,
                        j as int,
                        kept@,
                    ),
                    sifted(p, f, removable_calls@, insts@, false, 0, Seq::empty()) == sifted(
                        p,
                        f,
                        removable_calls@,
                        insts@,
                        false,
                        j as int,
                        dead@,
                    ),
                decreases insts@.len() - j,
            {
                let i = insts[j];
                let alive = i.0 < marks.len() && marks[i.0];
                assert(alive == live(p, f, removable_calls@, i)) by {
                    if i.0 < marks@.len() {
                        assert(marks@[i.0 as int] == live(p, f, removable_calls@, Inst(i.0 as int as usize)));
                    } else if live(p, f, removable_calls@, i) {
                        let n = choose|n: nat| needed_in(p, f, removable_calls@, i, n);
                        assert(i.0 < p.insts.len());
                    }
                }
                if alive {
                    kept.push(i);
                } else {
                    dead.push(i);
                }
                j += 1;
            }
            data.replace_block_insts(blocks[k], kept);
            data.erase_all(&dead);
            changed = changed || dead.len() > 0;
            k += 1;
        }
        changed
    }
}

/// What the edges seen so far pass for one parameter: nothing yet, one value, or different values.
pub enum Fed {
    Nothing,
    One(Inst),
    Several,
}

/// One more edge passes `x`.
pub open spec fn feed(state: Fed, x: Inst) -> Fed {
    match state {
        Fed::Nothing => Fed::One(x),
        Fed::One(v) => if v == x {
            Fed::One(v)
        } else {
            Fed::Several
        },
        Fed::Several => Fed::Several,
    }
}

/// Element `k` of an argument list, nothing where it is too short.
pub open spec fn pick(args: Seq<Inst>, k: int) -> Inst {
    if 0 <= k < args.len() {
        args[k]
    } else {
        nothing()
    }
}

/// What terminator `t` passes for parameter `k` of block `b`, added to `state`. The two arms of a
/// branch count separately.
pub open spec fn fed_by(p: ProgramV, t: Inst, b: BasicBlock, k: int, state: Fed) -> Fed {
    match p.op(t) {
        Op::Jump(x) => if x == b {
            feed(state, pick(p.args(t), k))
        } else {
            state
        },
        Op::Branch(x, y, _) => {
            let s = if x == b {
                feed(state, pick(p.t_args(t), k))
            } else {
                state
            };
            if y == b {
                feed(s, pick(p.f_args(t), k))
            } else {
                s
            }
        },
        _ => state,
    }
}

/// What `blocks[from..]` pass for parameter `k` of block `b`, added to `state`.
pub open spec fn fed_from(p: ProgramV, blocks: Seq<BasicBlock>, b: BasicBlock, k: int, from: int, state: Fed) -> Fed
    decreases blocks.len() - from,
{
    if from >= blocks.len() {
        state
    } else {
        fed_from(p, blocks, b, k, from + 1, fed_by(p, p.terminator(blocks[from]), b, k, state))
    }
}

/// The one value that every edge passes for parameter `k` of block `b`, where it is another value
/// than the parameter itself.
pub open spec fn forwarded_value(p: ProgramV, blocks: Seq<BasicBlock>, b: BasicBlock, k: int) -> Option<Inst> {
    match fed_from(p, blocks, b, k, 0, Fed::Nothing) {
        Fed::One(v) => if v != pick(p.block(b).params, k) && v != nothing() {
            Some(v)
        } else {
            None
        },
        _ => None,
    }
}

/// Forwarded parameters `k..` of block `b` with their values, behind `found`.
pub open spec fn forwarded_in(p: ProgramV, blocks: Seq<BasicBlock>, b: BasicBlock, k: int, found: Seq<(Inst, Inst)>) -> Seq<
    (Inst, Inst),
>
    decreases p.block(b).params.len() - k,
{
    if k >= p.block(b).params.len() {
        found
    } else {
        match forwarded_value(p, blocks, b, k) {
            Some(v) => forwarded_in(p, blocks, b, k + 1, found.push((p.block(b).params[k], v))),
            None => forwarded_in(p, blocks, b, k + 1, found),
        }
    }
}

/// Forwarded parameters of `blocks[from..]` except those of `entry`, behind `found`.
pub open spec fn forwarded_from(
    p: ProgramV,
    blocks: Seq<BasicBlock>,
    entry: BasicBlock,
    from: int,
    found: Seq<(Inst, Inst)>,
) -> Seq<(Inst, Inst)>
    decreases blocks.len() - from,
{
    if from >= blocks.len() {
        found
    } else if blocks[from] == entry {
        forwarded_from(p, blocks, entry, from + 1, found)
    } else {
        forwarded_from(p, blocks, entry, from + 1, forwarded_in(p, blocks, blocks[from], 0, found))
    }
}

/// The parameters of `f` that only forward one value, with that value. Entry parameters never do.
pub open spec fn forwarded(p: ProgramV, f: Function) -> Seq<(Inst, Inst)> {
    match entry_of(p, f) {
        Some(e) => forwarded_from(p, reverse_postorder(p, f), e, 0, Seq::empty()),
        None => Seq::empty(),
    }
}

/// The value forwarded by `v` itself according to `pairs[from..]`.
pub open spec fn looked_up(pairs: Seq<(Inst, Inst)>, v: Inst, from: int) -> Option<Inst>
    decreases pairs.len() - from,
{
    if from >= pairs.len() {
        None
    } else if pairs[from].0 == v {
        Some(pairs[from].1)
    } else {
        looked_up(pairs, v, from + 1)
    }
}

/// The end of the forwarding chain that starts at `v`, at most `hops` links long.
pub open spec fn chain_end(pairs: Seq<(Inst, Inst)>, v: Inst, hops: nat) -> Inst
    decreases hops,
{
    if hops == 0 {
        v
    } else {
        match looked_up(pairs, v, 0) {
            Some(w) => chain_end(pairs, w, (hops - 1) as nat),
            None => v,
        }
    }
}

/// The uses of `pairs[from..]`'s parameters made uses of the values at the end of their chains.
pub open spec fn forwards_applied(p: ProgramV, pairs: Seq<(Inst, Inst)>, from: int) -> ProgramV
    decreases pairs.len() - from,
{
    if from >= pairs.len() {
        p
    } else {
        forwards_applied(
            p.replace_uses(pairs[from].0, chain_end(pairs, pairs[from].1, pairs.len())),
            pairs,
            from + 1,
        )
    }
}

/// Which parameters `params[from..]` nobody uses, behind `found`.
pub open spec fn unused_from(p: ProgramV, params: Seq<Inst>, from: int, found: Seq<bool>) -> Seq<bool>
    decreases params.len() - from,
{
    if from >= params.len() {
        found
    } else {
        unused_from(p, params, from + 1, found.push(!p.is_used(params[from])))
    }
}

/// `s[from..]` without the positions that `drop` marks, behind `found`.
pub open spec fn masked_from<T>(s: Seq<T>, drop: Seq<bool>, from: int, found: Seq<T>) -> Seq<T>
    decreases s.len() - from,
{
    if from >= s.len() {
        found
    } else if from < drop.len() && drop[from] {
        masked_from(s, drop, from + 1, found)
    } else {
        masked_from(s, drop, from + 1, found.push(s[from]))
    }
}

/// `s` without the positions that `drop` marks.
pub open spec fn masked<T>(s: Seq<T>, drop: Seq<bool>) -> Seq<T> {
    masked_from(s, drop, 0, Seq::empty())
}

/// Terminator `t` passing to `b` only the arguments that `drop` does not mark.
pub open spec fn trimmed(p: ProgramV, t: Inst, b: BasicBlock, drop: Seq<bool>) -> ProgramV {
    match p.op(t) {
        Op::Jump(x) => p.set_inst(t, Op::Jump(x), masked(p.args(t), drop), Type::Unit),
        Op::Branch(x, y, _) => {
            let ta = if x == b {
                masked(p.t_args(t), drop)
            } else {
                p.t_args(t)
            };
            let fa = if y == b {
                masked(p.f_args(t), drop)
            } else {
                p.f_args(t)
            };
            p.set_inst(t, Op::Branch(x, y, ta.len() as usize), seq![p.arg(t, 0)] + ta + fa, Type::Unit)
        },
        _ => p,
    }
}

/// Those of `users[from..]` that stand in `f` trimmed.
pub open spec fn all_trimmed(p: ProgramV, f: Function, users: Seq<Inst>, b: BasicBlock, drop: Seq<bool>, from: int) -> ProgramV
    decreases users.len() - from,
{
    if from >= users.len() {
        p
    } else if p.parent_bb(f, users[from]) is Some {
        all_trimmed(trimmed(p, users[from], b, drop), f, users, b, drop, from + 1)
    } else {
        all_trimmed(p, f, users, b, drop, from + 1)
    }
}

/// Block `b` without the parameters that `drop` marks, and every edge to it without their arguments.
pub open spec fn params_dropped(p: ProgramV, f: Function, b: BasicBlock, drop: Seq<bool>) -> ProgramV {
    let q = p.set_block_params(b, masked(p.block(b).params, drop));
    all_trimmed(q, f, q.block_users(b), b, drop, 0)
}

/// Unused parameters of `blocks[from..]` dropped. What is unused is judged by program `p`.
pub open spec fn unused_dropped(
    p: ProgramV,
    q: ProgramV,
    f: Function,
    blocks: Seq<BasicBlock>,
    from: int,
    changed: bool,
) -> (ProgramV, bool)
    decreases blocks.len() - from,
{
    if from >= blocks.len() {
        (q, changed)
    } else {
        let drop = if from == 0 {
            Seq::empty()
        } else {
            unused_from(p, p.block(blocks[from]).params, 0, Seq::empty())
        };
        if drop.contains(true) {
            unused_dropped(p, params_dropped(q, f, blocks[from], drop), f, blocks, from + 1, true)
        } else {
            unused_dropped(p, q, f, blocks, from + 1, changed)
        }
    }
}

/// The program after forwarded and unused block parameters of `f` were removed, and whether any were.
pub open spec fn phis_cleaned(p: ProgramV, f: Function) -> (ProgramV, bool) {
    let pairs = forwarded(p, f);
    let q = forwards_applied(p, pairs, 0);
    unused_dropped(q, q, f, q.func(f).blocks, 0, pairs.len() > 0)
}

/// Argument `arg` is passed for parameter `param`.
pub open spec fn passed_for(args: Seq<Inst>, params: Seq<Inst>, param: Inst, arg: Inst) -> bool {
    exists|i: int| 0 <= i < params.len() && #[trigger] params[i] == param && args[i] == arg
}

/// Dropping the same positions from arguments and parameters keeps them aligned: what was passed
/// for a parameter that stays is still passed for it.
pub proof fn dropping_keeps_alignment(args: Seq<Inst>, params: Seq<Inst>, drop: Seq<bool>)
    requires
        args.len() == params.len(),
    ensures
        masked(args, drop).len() == masked(params, drop).len(),
        forall|j: int|
            0 <= j < masked(params, drop).len() ==> passed_for(
                args,
                params,
                #[trigger] masked(params, drop)[j],
                masked(args, drop)[j],
            ),
{
    lemma_masked_aligned(args, params, drop, 0, Seq::empty(), Seq::empty());
}

proof fn lemma_masked_aligned(
    args: Seq<Inst>,
    params: Seq<Inst>,
    drop: Seq<bool>,
    from: int,
    fa: Seq<Inst>,
    fp: Seq<Inst>,
)
    requires
        args.len() == params.len(),
        0 <= from <= args.len(),
        fa.len() == fp.len(),
        forall|j: int| 0 <= j < fp.len() ==> passed_for(args, params, #[trigger] fp[j], fa[j]),
    ensures
        masked_from(args, drop, from, fa).len() == masked_from(params, drop, from, fp).len(),
        forall|j: int|
            0 <= j < masked_from(params, drop, from, fp).len() ==> passed_for(
                args,
                params,
                #[trigger] masked_from(params, drop, from, fp)[j],
                masked_from(args, drop, from, fa)[j],
            ),
    decreases args.len() - from,
{
    if from < args.len() {
        if from < drop.len() && drop[from] {
            lemma_masked_aligned(args, params, drop, from + 1, fa, fp);
        } else {
            let na = fa.push(args[from]);
            let np = fp.push(params[from]);
            assert forall|j: int| 0 <= j < np.len() implies passed_for(args, params, #[trigger] np[j], na[j]) by {
                if j < fp.len() {
                    assert(fp[j] == np[j]);
                } else {
                    assert(params[from] == np[j]);
                }
            }
            lemma_masked_aligned(args, params, drop, from + 1, na, np);
        }
    }
}

fn fed_by_terminator(p: &Program, t: Inst, b: BasicBlock, k: usize, state: Fed) -> (r: Fed)
    ensures
        r == fed_by(p@, t, b, k as int, state),
{
    match p.op(t) {
        Op::Jump(x) => if x == b {
            add_feed(state, p.arg(t, k))
        } else {
            state
        },
        Op::Branch(x, y, _) => {
            let s = if x == b {
                let args = p.t_args(t);
                add_feed(state, picked(&args, k))
            } else {
                state
            };
            if y == b {
                let args = p.f_args(t);
                add_feed(s, picked(&args, k))
            } else {
                s
            }
        },
        _ => state,
    }
}

fn add_feed(state: Fed, x: Inst) -> (r: Fed)
    ensures
        r == feed(state, x),
{
    match state {
        Fed::Nothing => Fed::One(x),
        Fed::One(v) => if v == x {
            Fed::One(v)
        } else {
            Fed::Several
        },
        Fed::Several => Fed::Several,
    }
}

fn picked(args: &Vec<Inst>, k: usize) -> (r: Inst)
    ensures
        r == pick(args@, k as int),
{
    if k < args.len() {
        args[k]
    } else {
        Inst(usize::MAX)
    }
}

fn value_forwarded(p: &Program, blocks: &Vec<BasicBlock>, b: BasicBlock, k: usize) -> (r: Option<Inst>)
    ensures
        r == forwarded_value(p@, blocks@, b, k as int),
{
    let mut state = Fed::Nothing;
    let mut i: usize = 0;
    while i < blocks.len()
        invariant
            i <= blocks@.len(),
            fed_from(p@, blocks@, b, k as int, 0, Fed::Nothing) == fed_from(
                p@,
                blocks@,
                b,
                k as int,
                i as int,
                state,
            ),
        decreases blocks@.len() - i,
    {
        state = fed_by_terminator(p, p.terminator(blocks[i]), b, k, state);
        i += 1;
    }
    match state {
        Fed::One(v) => {
            let params = p.block_params(b);
            if v != picked(&params, k) && v.0 != usize::MAX {
                Some(v)
            } else {
                None
            }
        },
        _ => None,
    }
}

/// The parameters of `f` that only forward one value.
pub fn forwarded_block_params(p: &Program, f: Function) -> (r: Vec<(Inst, Inst)>)
    ensures
        r@ == forwarded(p@, f),
{
    let mut r: Vec<(Inst, Inst)> = Vec::new();
    assert(r@ =~= Seq::empty());
    let all = p.basicblocks(f);
    if all.len() == 0 || all[0].0 >= p.num_blocks() {
        return r;
    }
    let entry = all[0];
    let blocks = rpo_path(p, f);
    let mut i: usize = 0;
    while i < blocks.len()
        invariant
            i <= blocks@.len(),
            forwarded_from(p@, blocks@, entry, 0, Seq::empty()) == forwarded_from(p@, blocks@, entry, i as int, r@),
        decreases blocks@.len() - i,
    {
        let b = blocks[i];
        if b != entry {
            let params = p.block_params(b);
            let ghost start = r@;
            let mut k: usize = 0;
            while k < params.len()
                invariant
                    k <= params@.len(),
                    params@ == p@.block(b).params,
                    forwarded_in(p@, blocks@, b, 0, start) == forwarded_in(p@, blocks@, b, k as int, r@),
                decreases params@.len() - k,
            {
                if let Some(v) = value_forwarded(p, &blocks, b, k) {
                    r.push((params[k], v));
                }
                k += 1;
            }
        }
        i += 1;
    }
    r
}

fn look_up(pairs: &Vec<(Inst, Inst)>, v: Inst) -> (r: Option<Inst>)
    ensures
        r == looked_up(pairs@, v, 0),
{
    let mut i: usize = 0;
    while i < pairs.len()
        invariant
            i <= pairs@.len(),
            looked_up(pairs@, v, 0) == looked_up(pairs@, v, i as int),
        decreases pairs@.len() - i,
    {
        if pairs[i].0 == v {
            return Some(pairs[i].1);
        }
        i += 1;
    }
    None
}

fn end_of_chain(pairs: &Vec<(Inst, Inst)>, v: Inst, hops: usize) -> (r: Inst)
    ensures
        r == chain_end(pairs@, v, hops as nat),
    decreases hops,
{
    if hops == 0 {
        return v;
    }
    match look_up(pairs, v) {
        Some(w) => end_of_chain(pairs, w, hops - 1),
        None => v,
    }
}

fn mask(s: &Vec<Inst>, drop: &Vec<bool>) -> (r: Vec<Inst>)
    ensures
        r@ == masked(s@, drop@),
{
    let mut r: Vec<Inst> = Vec::new();
    assert(r@ =~= Seq::empty());
    let mut i: usize = 0;
    while i < s.len()
        invariant
            i <= s@.len(),
            masked(s@, drop@) == masked_from(s@, drop@, i as int, r@),
        decreases s@.len() - i,
    {
        if !(i < drop.len() && drop[i]) {
            r.push(s[i]);
        }
        i += 1;
    }
    r
}

fn unused_params(p: &Program, b: BasicBlock) -> (r: Vec<bool>)
    ensures
        r@ == unused_from(p@, p@.block(b).params, 0, Seq::empty()),
{
    let params = p.block_params(b);
    let mut r: Vec<bool> = Vec::new();
    assert(r@ =~= Seq::empty());
    let mut i: usize = 0;
    while i < params.len()
        invariant
            i <= params@.len(),
            unused_from(p@, params@, 0, Seq::empty()) == unused_from(p@, params@, i as int, r@),
        decreases params@.len() - i,
    {
        let used = p.is_used(params[i]);
        r.push(!used);
        i += 1;
    }
    r
}

fn any_true(v: &Vec<bool>) -> (r: bool)
    ensures
        r == v@.contains(true),
{
    let mut i: usize = 0;
    while i < v.len()
        invariant
            i <= v@.len(),
            forall|k: int| 0 <= k < i ==> !#[trigger] v@[k],
        decreases v@.len() - i,
    {
        if v[i] {
            assert(v@[i as int] == true);
            return true;
        }
        i += 1;
    }
    false
}

impl DeadPhiElimination {
    /// Cleans up the block parameters of every function. True when something changed.
    pub fn run(&mut self, program: &mut Program) -> (changed: bool)
        ensures
            (final(program)@, changed) == all_phis_cleaned(old(program)@, old(program)@.layout, 0, false),
    {
        let layout = program.function_layout();
        let mut changed = false;
        let mut k: usize = 0;
        while k < layout.len()
            invariant
                k <= layout@.len(),
                layout@ == old(program)@.layout,
                all_phis_cleaned(old(program)@, layout@, 0, false) == all_phis_cleaned(
                    program@,
                    layout@,
                    k as int,
                    changed,
                ),
            decreases layout@.len() - k,
        {
            let here = self.run_on(program, layout[k]);
            changed = changed || here;
            k += 1;
        }
        changed
    }

    /// Replaces block parameters of `f` that only forward one value by that value, and drops
    /// unused parameters together with their arguments. Entry parameters stay.
    pub fn run_on(&mut self, data: &mut Program, f: Function) -> (changed: bool)
        ensures
            (final(data)@, changed) == phis_cleaned(old(data)@, f),
    {
        let pairs = forwarded_block_params(data, f);
        let mut i: usize = 0;
        while i < pairs.len()
            invariant
                i <= pairs@.len(),
                forwards_applied(old(data)@, pairs@, 0) == forwards_applied(data@, pairs@, i as int),
            decreases pairs@.len() - i,
        {
            let v = end_of_chain(&pairs, pairs[i].1, pairs.len());
            data.replace_uses(pairs[i].0, v);
            i += 1;
        }
        let ghost q = data@;
        let blocks = data.basicblocks(f);
        let mut masks: Vec<Vec<bool>> = Vec::new();
        let mut k: usize = 0;
        while k < blocks.len()
            invariant
                k <= blocks@.len(),
                data@ == q,
                masks@.len() == k,
                forall|j: int|
                    0 <= j < k ==> (#[trigger] masks@[j])@ == if j == 0 {
                        Seq::empty()
                    } else {
                        unused_from(q, q.block(blocks@[j]).params, 0, Seq::empty())
                    },
            decreases blocks@.len() - k,
        {
            if k == 0 {
                let none: Vec<bool> = Vec::new();
                assert(none@ =~= Seq::empty());
                masks.push(none);
            } else {
                masks.push(unused_params(data, blocks[k]));
            }
            k += 1;
        }
        let mut changed = pairs.len() > 0;
        let mut k: usize = 0;
        while k < blocks.len()
            invariant
                k <= blocks@.len(),
                masks@.len() == blocks@.len(),
                forall|j: int|
                    0 <= j < blocks@.len() ==> (#[trigger] masks@[j])@ == if j == 0 {
                        Seq::empty()
                    } else {
                        unused_from(q, q.block(blocks@[j]).params, 0, Seq::empty())
                    },
                unused_dropped(q, q, f, blocks@, 0, pairs@.len() > 0) == unused_dropped(
                    q,
                    data@,
                    f,
                    blocks@,
                    k as int,
                    changed,
                ),
            decreases blocks@.len() - k,
        {
            if any_true(&masks[k]) {
                Self::drop_params(data, f, blocks[k], &masks[k]);
                changed = true;
            }
            k += 1;
        }
        changed
    }

    fn drop_params(data: &mut Program, f: Function, b: BasicBlock, drop: &Vec<bool>)
        ensures
            final(data)@ == params_dropped(old(data)@, f, b, drop@),
    {
        let params = data.block_params(b);
        data.set_block_params(b, mask(&params, drop));
        let users = data.block_users(b);
        let ghost q = data@;
        let mut i: usize = 0;
        while i < users.len()
            invariant
                i <= users@.len(),
                all_trimmed(q, f, users@, b, drop@, 0) == all_trimmed(data@, f, users@, b, drop@, i as int),
            decreases users@.len() - i,
        {
            let t = users[i];
            if data.parent_bb(f, t).is_some() {
                match data.op(t) {
                    Op::Jump(x) => {
                        let args = data.args(t);
                        data.set_inst(t, Op::Jump(x), mask(&args, drop), Type::Unit);
                    },
                    Op::Branch(x, y, _) => {
                        let c = data.arg(t, 0);
                        let ta = data.t_args(t);
                        let fa = data.f_args(t);
                        let ta = if x == b {
                            mask(&ta, drop)
                        } else {
                            ta
                        };
                        let fa = if y == b {
                            mask(&fa, drop)
                        } else {
                            fa
                        };
                        data.set_inst(t, Op::Branch(x, y, ta.len()), branch_args(c, &ta, &fa), Type::Unit);
                    },
                    _ => {},
                }
            }
            i += 1;
        }
    }
}

/// The block parameters of functions `layout[from..]` cleaned up in turn.
pub open spec fn all_phis_cleaned(p: ProgramV, layout: Seq<Function>, from: int, changed: bool) -> (ProgramV, bool)
    decreases layout.len() - from,
{
    if from >= layout.len() {
        (p, changed)
    } else {
        let (q, here) = phis_cleaned(p, layout[from]);
        all_phis_cleaned(q, layout, from + 1, changed || here)
    }
}

/// Nobody uses any of `insts`.
pub open spec fn all_unused(p: ProgramV, insts: Seq<Inst>) -> bool {
    forall|k: int| 0 <= k < insts.len() ==> !p.is_used(#[trigger] insts[k])
}

/// Block `b` of `f` is not reached from the entry, and nobody uses its instructions.
pub open spec fn is_island(p: ProgramV, f: Function, b: BasicBlock) -> bool {
    !(entry_of(p, f) is Some && b.0 < p.blocks.len() && reaches(
        cfg_edges(p, f),
        none(),
        (entry_of(p, f)->0).0 as int,
        b.0 as int,
    )) && all_unused(p, p.block(b).insts)
}

/// The islands among `blocks[from..]`, behind `found`.
pub open spec fn islands_from(p: ProgramV, f: Function, blocks: Seq<BasicBlock>, from: int, found: Seq<BasicBlock>) -> Seq<
    BasicBlock,
>
    decreases blocks.len() - from,
{
    if from >= blocks.len() {
        found
    } else if is_island(p, f, blocks[from]) {
        islands_from(p, f, blocks, from + 1, found.push(blocks[from]))
    } else {
        islands_from(p, f, blocks, from + 1, found)
    }
}

/// Blocks `blocks[from..]` taken out of `f`.
pub open spec fn blocks_removed(p: ProgramV, f: Function, blocks: Seq<BasicBlock>, from: int) -> ProgramV
    decreases blocks.len() - from,
{
    if from >= blocks.len() {
        p
    } else {
        blocks_removed(p.remove_block(f, blocks[from]), f, blocks, from + 1)
    }
}

/// Islands of `f` removed until there are none, for at most `rounds` rounds.
pub open spec fn islands_removed(p: ProgramV, f: Function, rounds: nat, changed: bool) -> (ProgramV, bool)
    decreases rounds,
{
    let islands = islands_from(p, f, p.func(f).blocks, 0, Seq::empty());
    if rounds == 0 || islands.len() == 0 {
        (p, changed)
    } else {
        islands_removed(blocks_removed(p, f, islands, 0), f, (rounds - 1) as nat, true)
    }
}

fn none_used(p: &Program, insts: &Vec<Inst>) -> (r: bool)
    ensures
        r == all_unused(p@, insts@),
{
    let mut i: usize = 0;
    while i < insts.len()
        invariant
            i <= insts@.len(),
            forall|k: int| 0 <= k < i ==> !p@.is_used(#[trigger] insts@[k]),
        decreases insts@.len() - i,
    {
        if p.is_used(insts[i]) {
            assert(p@.is_used(insts@[i as int]));
            return false;
        }
        i += 1;
    }
    true
}

/// The functions `layout[from..]` without the blocks that are not reached.
pub open spec fn islands_removed_everywhere(p: ProgramV, layout: Seq<Function>, from: int, changed: bool) -> (ProgramV, bool)
    decreases layout.len() - from,
{
    if from >= layout.len() {
        (p, changed)
    } else {
        let (q, here) = if entry_of(p, layout[from]) is None {
            (p, false)
        } else {
            islands_removed(p, layout[from], p.func(layout[from]).blocks.len(), false)
        };
        islands_removed_everywhere(q, layout, from + 1, changed || here)
    }
}

impl UnreachableBasicBlock {
    /// Removes the blocks of every function that are not reached. True when anything changed.
    pub fn run(&mut self, program: &mut Program) -> (changed: bool)
        ensures
            (final(program)@, changed) == islands_removed_everywhere(old(program)@, old(program)@.layout, 0, false),
    {
        let layout = program.function_layout();
        let mut changed = false;
        let mut k: usize = 0;
        while k < layout.len()
            invariant
                k <= layout@.len(),
                islands_removed_everywhere(old(program)@, layout@, 0, false) == islands_removed_everywhere(program@, layout@, k as int, changed),
            decreases layout@.len() - k,
        {
            let here = self.run_on(program, layout[k]);
            changed = changed || here;
            k += 1;
        }
        changed
    }

    /// Removes the blocks of `f` that are not reached from its entry and whose values nobody uses.
    ///
    /// Each round removes at least one block, so as many rounds as there are blocks are enough.
    pub fn run_on(&mut self, data: &mut Program, f: Function) -> (changed: bool)
        ensures
            (final(data)@, changed) == if entry_of(old(data)@, f) is None {
                (old(data)@, false)
            } else {
                islands_removed(old(data)@, f, old(data)@.func(f).blocks.len(), false)
            },
    {
        let blocks = data.basicblocks(f);
        if blocks.len() == 0 || blocks[0].0 >= data.num_blocks() {
            return false;
        }
        let mut changed = false;
        let mut rounds: usize = blocks.len();
        while rounds > 0
            invariant
                entry_of(old(data)@, f) is Some,
                islands_removed(old(data)@, f, old(data)@.func(f).blocks.len(), false) == islands_removed(
                    data@,
                    f,
                    rounds as nat,
                    changed,
                ),
            decreases rounds,
        {
            let islands = Self::islands(data, f);
            if islands.len() == 0 {
                return changed;
            }
            let ghost start = data@;
            let mut i: usize = 0;
            while i < islands.len()
                invariant
                    i <= islands@.len(),
                    blocks_removed(start, f, islands@, 0) == blocks_removed(data@, f, islands@, i as int),
                decreases islands@.len() - i,
            {
                data.remove_layout_basicblock(f, islands[i]);
                i += 1;
            }
            changed = true;
            rounds -= 1;
        }
        changed
    }

    fn islands(data: &Program, f: Function) -> (r: Vec<BasicBlock>)
        ensures
            r@ == islands_from(data@, f, data@.func(f).blocks, 0, Seq::empty()),
    {
        let blocks = data.basicblocks(f);
        let tree = DomTree::new(data, f);
        let mut r: Vec<BasicBlock> = Vec::new();
        assert(r@ =~= Seq::empty());
        let mut i: usize = 0;
        while i < blocks.len()
            invariant
                i <= blocks@.len(),
                match tree {
                    Some(d) => d.describes(data@, f),
                    None => entry_of(data@, f) is None,
                },
                islands_from(data@, f, blocks@, 0, Seq::empty()) == islands_from(data@, f, blocks@, i as int, r@),
            decreases blocks@.len() - i,
        {
            let reached = match &tree {
                Some(d) => d.is_reached(blocks[i]),
                None => false,
            };
            let insts = data.block_insts(blocks[i]);
            if !reached && none_used(data, &insts) {
                r.push(blocks[i]);
            }
            i += 1;
        }
        r
    }
}

/// The position in `layout[from..]` of the first function named `main`.
pub open spec fn main_at(p: ProgramV, layout: Seq<Function>, from: int) -> Option<Function>
    decreases layout.len() - from,
{
    if from >= layout.len() {
        None
    } else if p.func(layout[from]).name == "main"@ {
        Some(layout[from])
    } else {
        main_at(p, layout, from + 1)
    }
}

/// The function named `main`.
pub open spec fn main_of(p: ProgramV) -> Option<Function> {
    main_at(p, p.layout, 0)
}

/// `f` is only declared, or a run of `main` may get to it.
pub open spec fn is_wanted(p: ProgramV, main: Function, f: Function) -> bool {
    p.func(f).blocks.len() == 0 || may_run(p, main, f)
}

/// Those of `layout[from..]` that are wanted, behind `found`.
pub open spec fn wanted_from(p: ProgramV, main: Function, layout: Seq<Function>, from: int, found: Seq<Function>) -> Seq<
    Function,
>
    decreases layout.len() - from,
{
    if from >= layout.len() {
        found
    } else if is_wanted(p, main, layout[from]) {
        wanted_from(p, main, layout, from + 1, found.push(layout[from]))
    } else {
        wanted_from(p, main, layout, from + 1, found)
    }
}

/// The function named `main`.
pub fn get_main_function(p: &Program) -> (r: Option<Function>)
    ensures
        r == main_of(p@),
{
    let layout = p.function_layout();
    let name = "main".to_owned();
    let mut i: usize = 0;
    while i < layout.len()
        invariant
            i <= layout@.len(),
            name@ == "main"@,
            layout@ == p@.layout,
            main_at(p@, layout@, 0) == main_at(p@, layout@, i as int),
        decreases layout@.len() - i,
    {
        let here = p.func_name(layout[i]);
        if here.eq(&name) {
            return Some(layout[i]);
        }
        i += 1;
    }
    None
}

impl DeadFunctionElimination {
    /// Takes out of the layout every defined function that a run of `main` cannot get to.
    /// True when there was one.
    pub fn run(&mut self, program: &mut Program) -> (changed: bool)
        requires
            main_of(old(program)@) is Some,
            (main_of(old(program)@)->0).0 < old(program)@.funcs.len(),
        ensures
            ({
                let p = old(program)@;
                let wanted = wanted_from(p, main_of(p)->0, p.layout, 0, Seq::empty());
                &&& final(program)@ == (ProgramV { layout: wanted, ..p })
                &&& changed == (wanted.len() != p.layout.len())
            }),
    {
        let main = get_main_function(program).unwrap();
        let edges = call_graph(program);
        let n: usize = program.num_funcs();
        let seen = reachable(n, &edges, main.0, usize::MAX);
        let layout = program.function_layout();
        let mut wanted: Vec<Function> = Vec::new();
        assert(wanted@ =~= Seq::empty());
        let mut i: usize = 0;
        while i < layout.len()
            invariant
                i <= layout@.len(),
                n == program@.funcs.len(),
                seen@.len() == n,
                forall|t: int|
                    0 <= t < n ==> (#[trigger] seen@[t] <==> reaches(
                        crate::effects::call_edges(program@),
                        usize::MAX as int,
                        main.0 as int,
                        t,
                    )),
                wanted_from(program@, main, layout@, 0, Seq::empty()) == wanted_from(
                    program@,
                    main,
                    layout@,
                    i as int,
                    wanted@,
                ),
            decreases layout@.len() - i,
        {
            let f = layout[i];
            let keep = program.is_decl(f) || (f.0 < n && seen[f.0]);
            proof {
                if f.0 >= n {
                    assert(program@.func(f).blocks.len() == 0);
                } else {
                    assert(seen@[f.0 as int] == may_run(program@, main, f));
                }
            }
            if keep {
                wanted.push(f);
            }
            i += 1;
        }
        let changed = wanted.len() != layout.len();
        program.set_layout(wanted);
        changed
    }
}

proof fn lemma_wanted(p: ProgramV, main: Function, layout: Seq<Function>, from: int, found: Seq<Function>, f: Function)
    requires
        0 <= from <= layout.len(),
    ensures
        wanted_from(p, main, layout, from, found).contains(f) <==> found.contains(f) || (is_wanted(p, main, f)
            && exists|k: int| from <= k < layout.len() && #[trigger] layout[k] == f),
    decreases layout.len() - from,
{
    if from < layout.len() {
        let g = layout[from];
        let next = if is_wanted(p, main, g) {
            found.push(g)
        } else {
            found
        };
        lemma_wanted(p, main, layout, from + 1, next, f);
        if is_wanted(p, main, g) {
            assert(next[found.len() as int] == g);
            if found.contains(f) {
                let i = choose|i: int| 0 <= i < found.len() && found[i] == f;
                assert(next[i] == f);
            }
            if next.contains(f) && !found.contains(f) {
                let i = choose|i: int| 0 <= i < next.len() && next[i] == f;
                if i < found.len() {
                    assert(found[i] == f);
                }
            }
        }
    }
}

/// A function stays in the layout exactly when it stood there and is a declaration or may be run
/// from `main`; so everything that a kept function calls stays too.
pub proof fn kept_functions_are_closed(p: ProgramV, main: Function, f: Function)
    ensures
        wanted_from(p, main, p.layout, 0, Seq::empty()).contains(f) <==> p.layout.contains(f) && is_wanted(p, main, f),
{
    lemma_wanted(p, main, p.layout, 0, Seq::empty(), f);
    assert((exists|k: int| 0 <= k < p.layout.len() && #[trigger] p.layout[k] == f) <==> p.layout.contains(f));
}

} // verus!
