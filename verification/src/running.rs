//! What the propagation over the whole program finds holds in every run, memory included.
//!
//! A run is a list of steps with calls and returns; what a load gets is what the last write before it put into
//! its cell. Where the write is not resolved, or is made by a function that is only declared, that may be
//! anything. Nothing that the propagation knows enters into what a run is.

use vstd::prelude::*;

use crate::cfg::none;
use crate::dce::main_of;
use crate::effects::call_roots;
use crate::fixpoint::finished;
use crate::graph::reach_in;
use crate::ipsccp::{first_of, known, next_of, solved, start_of, StateV};
use crate::ir::{Function, Inst, Op, ProgramV};
use crate::lattice::{cell_of, CellKey, Lattice, RootKey};
use crate::mem_state::{
    end_of, fold_from, is_cleared, key_of_root, starts_as_zero, target_of, value_read,
};
use crate::noting::{
    has_whole_stores, is_forgotten, is_noted, noted, notes_are_what_is_known,
    what_was_visited_is_noted,
};
use crate::program_order::Node;
use crate::traces::{
    accounted, complete, computed, explained, follows, gives_back, hands, has_value, lemma_complete,
    lemma_in_placed, lemma_trace, lemma_value, lemma_visited, passes, ran, traces, typed_program,
    Event,
};
use crate::ways::{
    all_links, all_stores, call_links, can_end, comes_after, entry_links, exit, flow_links, gets_to,
    inner, is_small, is_way, link, link_to, links, links_from, links_in, may_be_first,
    may_have_cleared, may_have_stored, points, stores_from, stores_in, stores_to, sure_calls_from,
    sure_calls_in, surely_stores, tail_links, walls_of,
};

verus! {

/// A step of a run: an instruction is run, or a call, run at step `call`, comes back. `start` is the step at which
/// its run of the function started; `value` is what it gives or stores, and `handed` what it passes to parameters.
pub struct StepV {
    pub node: Node,
    pub back: bool,
    pub start: int,
    pub call: int,
    pub value: i32,
    pub handed: Seq<(Inst, i32)>,
}

/// The step gives an integer.
pub open spec fn gives(p: ProgramV, s: StepV) -> bool {
    p.ty(s.node.inst) is I32 && match p.op(s.node.inst) {
        Op::Binary(_) | Op::Select | Op::Cast | Op::Load | Op::Fma | Op::VectorOp => true,
        Op::Call(g) => s.back || p.func(g).blocks.len() == 0,
        Op::TailCall(_) => s.back,
        _ => false,
    }
}

pub open spec fn run_event(s: StepV) -> Seq<Event> {
    if s.back {
        Seq::empty()
    } else {
        seq![Event::Runs(s.node)]
    }
}

pub open spec fn value_event(p: ProgramV, s: StepV) -> Seq<Event> {
    if gives(p, s) {
        seq![Event::Gives(s.node.inst, s.value)]
    } else {
        Seq::empty()
    }
}

pub open spec fn handed_events(s: StepV) -> Seq<Event> {
    Seq::new(s.handed.len(), |j: int| Event::Gives(s.handed[j].0, s.handed[j].1))
}

/// What happens in the first `k` steps.
pub open spec fn events(p: ProgramV, r: Seq<StepV>, k: int) -> Seq<Event>
    decreases k,
{
    if k <= 0 {
        Seq::empty()
    } else {
        events(p, r, k - 1) + run_event(r[k - 1]) + value_event(p, r[k - 1]) + handed_events(r[k - 1])
    }
}

/// What happened when step `k` gives its value.
pub open spec fn so_far(p: ProgramV, r: Seq<StepV>, k: int) -> Seq<Event> {
    events(p, r, k) + run_event(r[k])
}

/// The function that the instruction calls, where it has a body.
pub open spec fn callee(p: ProgramV, i: Inst) -> Option<Function> {
    match p.op(i) {
        Op::Call(g) => if p.func(g).blocks.len() > 0 {
            Some(g)
        } else {
            None
        },
        Op::TailCall(g) => if p.func(g).blocks.len() > 0 {
            Some(g)
        } else {
            None
        },
        _ => None,
    }
}

/// The step ends its run of the function.
pub open spec fn ends(p: ProgramV, s: StepV) -> bool {
    if s.back {
        p.op(s.node.inst) is TailCall
    } else {
        p.op(s.node.inst) is Return
    }
}

/// Step `k`, in the same run of the function, follows step `k - 1`.
pub open spec fn goes_on(p: ProgramV, r: Seq<StepV>, k: int) -> bool {
    let q = r[k - 1];
    let n = r[k].node;
    &&& q.start == r[k].start
    &&& q.node.func == n.func
    &&& if q.back {
        p.op(q.node.inst) is Call && next_of(p, n.func, q.node.inst) == Some(n.inst)
    } else {
        match p.op(q.node.inst) {
            Op::Return => false,
            Op::TailCall(_) => false,
            Op::Call(_) => callee(p, q.node.inst) is None && next_of(p, n.func, q.node.inst) == Some(n.inst),
            _ => follows(p, events(p, r, k), events(p, r, k).len() as int, q.node, n),
        }
    }
}

/// The call at step `c` comes back at step `k`.
pub open spec fn comes_back(p: ProgramV, r: Seq<StepV>, c: int, k: int) -> bool {
    &&& 0 <= c
    &&& c + 1 < k
    &&& !r[c].back
    &&& r[k].node == r[c].node
    &&& r[k].start == r[c].start
    &&& callee(p, r[c].node.inst) is Some
    &&& r[c + 1].start == c + 1
    &&& r[k - 1].start == c + 1
    &&& ends(p, r[k - 1])
}

/// Step `k` is what comes next.
pub open spec fn is_next(p: ProgramV, r: Seq<StepV>, k: int) -> bool {
    let n = r[k].node;
    if r[k].back {
        comes_back(p, r, r[k].call, k)
    } else if r[k].start == k {
        if k == 0 {
            main_of(p) == Some(n.func) && start_of(p, n.func) == Some(n.inst)
        } else {
            !r[k - 1].back && callee(p, r[k - 1].node.inst) == Some(n.func) && start_of(p, n.func) == Some(n.inst)
        }
    } else {
        0 <= r[k].start < k && goes_on(p, r, k)
    }
}

/// A write through `addr` of function `f` whose offset is not known may hit the object.
pub open spec fn may_hit(p: ProgramV, f: Function, addr: Inst, root: RootKey) -> bool {
    match target_of(p, f, addr) {
        Some(x) => x == root,
        None => true,
    }
}

/// A call of `g`, which is only declared, may write to the object.
pub open spec fn may_write(p: ProgramV, g: Function, f: Function, root: RootKey) -> bool {
    match call_roots(p, g, f, true) {
        Some(roots) => exists|k: int| 0 <= k < roots.len() && key_of_root(#[trigger] roots[k]) == root,
        None => true,
    }
}

/// A cell that is written at step `s` is that of the run of the function that started at `start`: a local belongs to
/// one run, a global to all.
pub open spec fn is_same_run(key: CellKey, s: StepV, start: int) -> bool {
    key is Local ==> s.start == start
}

/// Step `s` writes to cell `key` of the run that started at `start`, or may.
pub open spec fn touches(p: ProgramV, s: StepV, key: CellKey, start: int) -> bool {
    let i = s.node.inst;
    let f = s.node.func;
    !s.back && match p.op(i) {
        Op::Store => match cell_of(p, f, p.arg(i, 1)) {
            Some((x, _)) => x == key && is_same_run(key, s, start),
            None => may_hit(p, f, p.arg(i, 1), key.object()),
        },
        Op::MemZero(len) => match cell_of(p, f, p.arg(i, 0)) {
            Some((x, root)) => root == key.object() && x.at() <= key.at() < end_of(x.at(), len as int) && is_same_run(
                key,
                s,
                start,
            ),
            None => may_hit(p, f, p.arg(i, 0), key.object()),
        },
        Op::MemZeroDyn => may_hit(p, f, p.arg(i, 0), key.object()),
        Op::Call(g) => p.func(g).blocks.len() == 0 && may_write(p, g, f, key.object()),
        Op::TailCall(g) => p.func(g).blocks.len() == 0 && may_write(p, g, f, key.object()),
        _ => false,
    }
}

/// What step `s` put into the cell may be `v`.
pub open spec fn puts(p: ProgramV, s: StepV, v: i32) -> bool {
    let i = s.node.inst;
    match p.op(i) {
        Op::Store => cell_of(p, s.node.func, p.arg(i, 1)) is Some ==> v == s.value,
        Op::MemZero(_) => cell_of(p, s.node.func, p.arg(i, 0)) is Some ==> v == 0,
        _ => true,
    }
}

/// Step `m` is the last before step `k` to write to the cell.
pub open spec fn is_last_write(p: ProgramV, r: Seq<StepV>, m: int, k: int, key: CellKey) -> bool {
    &&& 0 <= m < k
    &&& touches(p, r[m], key, r[k].start)
    &&& forall|j: int| m < j < k ==> !touches(p, #[trigger] r[j], key, r[k].start)
}

/// A cell that was not written may hold `v`: a global starts as zero or as anything, a local has no value.
pub open spec fn begins_as(p: ProgramV, key: CellKey, v: i32) -> bool {
    key is Global && (starts_as_zero(p, key) ==> v == 0)
}

/// The load of step `k` gives what the last write before it put into its cell.
pub open spec fn loads(p: ProgramV, r: Seq<StepV>, k: int) -> bool {
    let n = r[k].node;
    match cell_of(p, n.func, p.arg(n.inst, 0)) {
        Some((key, _)) => {
            ||| exists|m: int| #[trigger] is_last_write(p, r, m, k, key) && puts(p, r[m], r[k].value)
            ||| (forall|j: int| 0 <= j < k ==> !touches(p, #[trigger] r[j], key, r[k].start)) && begins_as(
                p,
                key,
                r[k].value,
            )
        },
        None => true,
    }
}

/// Step `k` gives, stores and passes on what follows from what was given before.
pub open spec fn is_explained(p: ProgramV, r: Seq<StepV>, k: int) -> bool {
    let s = r[k];
    let t = so_far(p, r, k);
    let n = t.len() as int;
    &&& gives(p, s) ==> if p.op(s.node.inst) is Load {
        loads(p, r, k)
    } else {
        computed(p, t, n, s.node, s.value)
    }
    &&& !s.back && p.op(s.node.inst) is Store && p.ty(p.arg(s.node.inst, 0)) is I32 ==> has_value(
        p,
        t,
        n,
        p.arg(s.node.inst, 0),
        s.value,
    )
    &&& s.handed.len() > 0 ==> !s.back
    &&& forall|j: int|
        0 <= j < s.handed.len() ==> p.op((#[trigger] s.handed[j]).0) is BlockArgRef && passes(
            p,
            t,
            n,
            s.node,
            s.handed[j].0,
            s.handed[j].1,
        )
}

pub open spec fn is_step(p: ProgramV, r: Seq<StepV>, k: int) -> bool {
    is_next(p, r, k) && is_explained(p, r, k)
}

/// The steps are a run of the program from the start of `main` on.
pub open spec fn is_run(p: ProgramV, r: Seq<StepV>) -> bool {
    forall|k: int| 0 <= k < r.len() ==> #[trigger] is_step(p, r, k)
}

/// The events are those of a run in which a load gives what the last write put into its cell.
pub open spec fn runs_with_memory(p: ProgramV, t: Seq<Event>) -> bool {
    exists|r: Seq<StepV>| #[trigger] is_run(p, r) && t == events(p, r, r.len() as int)
}

/// The instruction stands in its function.
pub open spec fn is_placed(p: ProgramV, n: Node) -> bool {
    &&& n.func.0 < p.funcs.len()
    &&& p.placed(n.func).contains(n.inst)
    &&& n.inst.0 < p.insts.len()
}

/// The instructions of the first steps stand in their functions.
pub open spec fn all_placed(p: ProgramV, r: Seq<StepV>, k: int) -> bool {
    forall|j: int| 0 <= j < k ==> is_placed(p, (#[trigger] r[j]).node)
}

proof fn lemma_has_links(
    p: ProgramV,
    walls: Seq<Inst>,
    calls: bool,
    f: Function,
    insts: Seq<Inst>,
    from: int,
    found: Seq<(usize, usize)>,
    i: Inst,
    e: (usize, usize),
)
    requires
        0 <= from <= insts.len(),
        found.contains(e) || (links(p, walls, calls, f, i).contains(e) && exists|k: int|
            from <= k < insts.len() && #[trigger] insts[k] == i),
    ensures
        links_in(p, walls, calls, f, insts, from, found).contains(e),
    decreases insts.len() - from,
{
    if from < insts.len() {
        let here = links(p, walls, calls, f, insts[from]);
        let next = found + here;
        if found.contains(e) {
            assert(next[found.index_of(e)] == e);
        } else if insts[from] == i {
            assert(next[found.len() + here.index_of(e)] == e);
        }
        lemma_has_links(p, walls, calls, f, insts, from + 1, next, i, e);
    }
}

proof fn lemma_in_links(
    p: ProgramV,
    walls: Seq<Inst>,
    calls: bool,
    f: int,
    found: Seq<(usize, usize)>,
    n: Node,
    e: (usize, usize),
)
    requires
        0 <= f <= p.funcs.len(),
        found.contains(e) || (f <= n.func.0 && is_placed(p, n) && links(p, walls, calls, n.func, n.inst).contains(e)),
    ensures
        links_from(p, walls, calls, f, found).contains(e),
    decreases p.funcs.len() - f,
{
    if f < p.funcs.len() {
        let g = Function(f as usize);
        let insts = p.placed(g);
        if n.func == g && !found.contains(e) {
            let k = insts.index_of(n.inst);
            assert(insts[k] == n.inst);
        }
        if found.contains(e) || n.func == g {
            lemma_has_links(p, walls, calls, g, insts, 0, found, n.inst, e);
        }
        lemma_in_links(p, walls, calls, f + 1, links_in(p, walls, calls, g, insts, 0, found), n, e);
    }
}

/// A way goes on over a link.
proof fn lemma_way_on(p: ProgramV, walls: Seq<Inst>, calls: bool, s: int, n: Node, a: int, b: int)
    requires
        is_small(p),
        is_placed(p, n),
        is_way(p, walls, calls, s, a),
        0 <= a < points(p),
        0 <= b < points(p),
        links(p, walls, calls, n.func, n.inst).contains((a as usize, b as usize)),
    ensures
        is_way(p, walls, calls, s, b),
{
    let edges = all_links(p, walls, calls);
    let e = (a as usize, b as usize);
    lemma_in_links(p, walls, calls, 0, Seq::empty(), n, e);
    let k = edges.index_of(e);
    let m = choose|m: nat| reach_in(edges, none(), s, a, m);
    assert(edges[k].1 == b && edges[k].0 == a);
    assert(reach_in(edges, none(), s, b, m + 1));
}

/// The link from instruction `i` to the one that control gets to.
pub open spec fn is_flow(p: ProgramV, f: Function, i: Inst, x: Inst) -> bool {
    match p.op(i) {
        Op::Jump(t) => first_of(p, t) == Some(x),
        Op::Branch(t, e, _) => first_of(p, t) == Some(x) || first_of(p, e) == Some(x),
        Op::Return => false,
        Op::TailCall(_) => false,
        _ => next_of(p, f, i) == Some(x),
    }
}

proof fn lemma_flow_link(p: ProgramV, f: Function, i: Inst, x: Inst, lift: int)
    requires
        is_small(p),
        is_flow(p, f, i, x),
        i.0 < p.insts.len(),
        x.0 < p.insts.len(),
        lift == 0 || lift == p.insts.len(),
    ensures
        flow_links(p, f, i, lift).contains(((i.0 + lift) as usize, (x.0 + lift) as usize)),
{
    let e = ((i.0 + lift) as usize, (x.0 + lift) as usize);
    let to = link_to(p, i, Some(x), lift);
    assert(to[0] == e);
    match p.op(i) {
        Op::Branch(t, f2, _) => {
            let a = link_to(p, i, first_of(p, t), lift);
            let b = link_to(p, i, first_of(p, f2), lift);
            if first_of(p, t) == Some(x) {
                assert((a + b)[0] == e);
            } else {
                assert((a + b)[a.len() as int] == e);
            }
        },
        _ => {
            assert(flow_links(p, f, i, lift)[0] == e);
        },
    }
}

/// The links of an instruction that is no wall hold those to where control gets.
proof fn lemma_open_links(p: ProgramV, walls: Seq<Inst>, calls: bool, f: Function, i: Inst, e: (usize, usize))
    requires
        !walls.contains(i),
        flow_links(p, f, i, 0).contains(e) || (calls && (flow_links(p, f, i, p.insts.len() as int).contains(e)
            || tail_links(p, f, i).contains(e))),
    ensures
        links(p, walls, calls, f, i).contains(e),
{
    let a = flow_links(p, f, i, 0);
    let b = flow_links(p, f, i, p.insts.len() as int);
    let c = tail_links(p, f, i);
    let d = call_links(p, f, i);
    if calls {
        let all = a + b + c + d;
        assert(links(p, walls, calls, f, i) == all);
        if a.contains(e) {
            assert(all[a.index_of(e)] == e);
        } else if b.contains(e) {
            assert(all[a.len() + b.index_of(e)] == e);
        } else {
            assert(all[a.len() + b.len() + c.index_of(e)] == e);
        }
    }
}

proof fn lemma_call_link(p: ProgramV, walls: Seq<Inst>, f: Function, i: Inst, e: (usize, usize))
    requires
        call_links(p, f, i).contains(e),
    ensures
        links(p, walls, true, f, i).contains(e),
{
    let d = call_links(p, f, i);
    let open = if walls.contains(i) {
        Seq::empty()
    } else {
        flow_links(p, f, i, 0) + flow_links(p, f, i, p.insts.len() as int) + tail_links(p, f, i)
    };
    assert((open + d)[open.len() + d.index_of(e)] == e);
}

/// A run of a function starts before its steps, and steps since then belong to it or to later runs.
proof fn lemma_nested(p: ProgramV, r: Seq<StepV>, k: int)
    requires
        is_run(p, r),
        0 <= k < r.len(),
    ensures
        0 <= r[k].start <= k,
        r[r[k].start].start == r[k].start,
        !r[r[k].start].back,
        r[k].node.func == r[r[k].start].node.func,
        forall|i: int| r[k].start <= i <= k ==> (#[trigger] r[i]).start >= r[k].start,
    decreases k,
{
    assert(is_step(p, r, k));
    if r[k].back {
        let c = r[k].call;
        lemma_nested(p, r, c);
        lemma_nested(p, r, k - 1);
        assert forall|i: int| r[k].start <= i <= k implies (#[trigger] r[i]).start >= r[k].start by {
            if c < i && i < k {
                assert(r[i].start >= c + 1);
            }
        }
    } else if r[k].start != k {
        lemma_nested(p, r, k - 1);
    }
}

/// The step before step `k` in the same run of the function, over a call that came back.
pub open spec fn before(r: Seq<StepV>, k: int) -> int {
    if r[k - 1].back {
        r[k - 1].call
    } else {
        k - 1
    }
}

proof fn lemma_before(p: ProgramV, r: Seq<StepV>, k: int)
    requires
        is_run(p, r),
        0 <= k < r.len(),
        !r[k].back,
        r[k].start != k,
    ensures
        ({
            let q = before(r, k);
            &&& 0 <= q < k
            &&& !r[q].back
            &&& r[q].start == r[k].start
            &&& r[q].node.func == r[k].node.func
            &&& is_flow(p, r[k].node.func, r[q].node.inst, r[k].node.inst)
        }),
{
    assert(is_step(p, r, k));
    let m = r[k - 1];
    if m.back {
        assert(is_step(p, r, k - 1));
    } else {
        assert(goes_on(p, r, k));
    }
}

/// Between two steps of one run of a function, from the first on, control got over the steps of that run; where
/// none of them is a wall there is a way.
proof fn lemma_chain(p: ProgramV, r: Seq<StepV>, walls: Seq<Inst>, i: int, k: int)
    requires
        is_run(p, r),
        is_small(p),
        all_placed(p, r, k + 1),
        0 <= i < k < r.len(),
        !r[i].back,
        !r[k].back,
        r[i].start == r[k].start,
        callee(p, r[i].node.inst) is None,
        forall|j: int|
            i < j < k && !(#[trigger] r[j]).back && r[j].start == r[k].start ==> !walls.contains(r[j].node.inst),
    ensures
        comes_after(p, walls, false, r[i].node, r[k].node.inst),
    decreases k,
{
    lemma_nested(p, r, k);
    lemma_nested(p, r, i);
    assert(r[k].start != k);
    lemma_before(p, r, k);
    let q = before(r, k);
    let x = r[k].node.inst;
    let outs = flow_links(p, r[i].node.func, r[i].node.inst, 0);
    if q < i {
        assert(r[k - 1].back);
        assert(is_step(p, r, k - 1));
        lemma_nested(p, r, k - 1);
        if i < k - 1 {
            lemma_nested(p, r, k - 2);
            assert(r[k - 2].start == q + 1);
            assert(r[i].start >= q + 1);
        }
        lemma_nested(p, r, q);
    } else if q == i {
        lemma_flow_link(p, r[i].node.func, r[i].node.inst, x, 0);
        let e = (r[i].node.inst.0, x.0);
        let a = outs.index_of(e);
        assert(outs[a] == e);
        assert(reach_in(all_links(p, walls, false), none(), x.0 as int, x.0 as int, 0));
        assert(gets_to(p, walls, false, outs[a].1 as int, x));
    } else {
        lemma_chain(p, r, walls, i, q);
        let y = r[q].node.inst;
        let a = choose|a: int| 0 <= a < outs.len() && gets_to(p, walls, false, (#[trigger] outs[a]).1 as int, y);
        lemma_flow_link(p, r[q].node.func, y, x, 0);
        lemma_open_links(p, walls, false, r[q].node.func, y, (y.0, x.0));
        lemma_way_on(p, walls, false, outs[a].1 as int, r[q].node, y.0 as int, x.0 as int);
        assert(gets_to(p, walls, false, outs[a].1 as int, x));
    }
}

/// From the start of a run of a function control got to its steps.
proof fn lemma_inside(p: ProgramV, r: Seq<StepV>, walls: Seq<Inst>, k: int)
    requires
        is_run(p, r),
        is_small(p),
        all_placed(p, r, k + 1),
        0 <= k < r.len(),
        !r[k].back,
        forall|j: int|
            r[k].start <= j < k && !(#[trigger] r[j]).back && r[j].start == r[k].start ==> !walls.contains(r[j].node.inst),
    ensures
        is_way(p, walls, false, r[r[k].start].node.inst.0 as int, r[k].node.inst.0 as int),
    decreases k,
{
    lemma_nested(p, r, k);
    let s = r[k].start;
    let x = r[k].node.inst;
    if s == k {
        assert(reach_in(all_links(p, walls, false), none(), x.0 as int, x.0 as int, 0));
    } else {
        lemma_before(p, r, k);
        let q = before(r, k);
        let y = r[q].node.inst;
        lemma_nested(p, r, q);
        lemma_inside(p, r, walls, q);
        lemma_flow_link(p, r[q].node.func, y, x, 0);
        lemma_open_links(p, walls, false, r[q].node.func, y, (y.0, x.0));
        lemma_way_on(p, walls, false, r[s].node.inst.0 as int, r[q].node, y.0 as int, x.0 as int);
    }
}

/// Some way leads to point `t` from behind step `i`, or from the start of the program where that is before the first
/// step.
pub open spec fn got(p: ProgramV, r: Seq<StepV>, walls: Seq<Inst>, i: int, t: int) -> bool {
    if i < 0 {
        is_way(p, walls, true, inner(p, r[0].node.inst), t)
    } else {
        let outs = flow_links(p, r[i].node.func, r[i].node.inst, 0);
        exists|a: int| 0 <= a < outs.len() && is_way(p, walls, true, (#[trigger] outs[a]).1 as int, t)
    }
}

proof fn lemma_got_on(p: ProgramV, r: Seq<StepV>, walls: Seq<Inst>, i: int, n: Node, a: int, b: int)
    requires
        is_small(p),
        is_placed(p, n),
        got(p, r, walls, i, a),
        0 <= a < points(p),
        0 <= b < points(p),
        links(p, walls, true, n.func, n.inst).contains((a as usize, b as usize)),
    ensures
        got(p, r, walls, i, b),
{
    if i < 0 {
        lemma_way_on(p, walls, true, inner(p, r[0].node.inst), n, a, b);
    } else {
        let outs = flow_links(p, r[i].node.func, r[i].node.inst, 0);
        let c = choose|c: int| 0 <= c < outs.len() && is_way(p, walls, true, (#[trigger] outs[c]).1 as int, a);
        lemma_way_on(p, walls, true, outs[c].1 as int, n, a, b);
        assert(is_way(p, walls, true, outs[c].1 as int, b));
    }
}

/// Step `j`, after step `i`, passes a wall: it runs one, or a call that was made since comes back that is one.
pub open spec fn passes_wall(p: ProgramV, r: Seq<StepV>, walls: Seq<Inst>, i: int, j: int) -> bool {
    walls.contains(r[j].node.inst) && if r[j].back {
        r[j].call > i
    } else {
        callee(p, r[j].node.inst) is None
    }
}

/// The point of the instruction of step `k`: that of the way back out where its run of the function was there at
/// step `i`, else that of the way in.
pub open spec fn point_of(p: ProgramV, r: Seq<StepV>, i: int, k: int) -> int {
    if r[k].start <= i {
        r[k].node.inst.0 as int
    } else {
        inner(p, r[k].node.inst)
    }
}

/// Step `i` is before the first, or runs an instruction that goes on in its function.
pub open spec fn is_source(p: ProgramV, r: Seq<StepV>, i: int) -> bool {
    i == -1 || (0 <= i < r.len() && !r[i].back && (p.op(r[i].node.inst) is Store || p.op(r[i].node.inst) is MemZero))
}

/// Where step `k` is got to.
pub open spec fn is_got(p: ProgramV, r: Seq<StepV>, walls: Seq<Inst>, i: int, k: int) -> bool {
    if !r[k].back {
        got(p, r, walls, i, point_of(p, r, i, k))
    } else {
        r[k].call < i ==> got(p, r, walls, i, exit(p, callee(p, r[k].node.inst)->0))
    }
}

/// Control goes on from the instruction of step `q` to that of step `k`, in the same run of the function.
proof fn lemma_goes_on(p: ProgramV, r: Seq<StepV>, walls: Seq<Inst>, i: int, q: int, k: int)
    requires
        is_small(p),
        is_placed(p, r[q].node),
        is_placed(p, r[k].node),
        r[q].start == r[k].start,
        is_flow(p, r[q].node.func, r[q].node.inst, r[k].node.inst),
        !walls.contains(r[q].node.inst),
        got(p, r, walls, i, point_of(p, r, i, q)),
    ensures
        got(p, r, walls, i, point_of(p, r, i, k)),
{
    let n = r[q].node;
    let x = r[k].node.inst;
    let lift = if r[k].start <= i {
        0int
    } else {
        p.insts.len() as int
    };
    lemma_flow_link(p, n.func, n.inst, x, lift);
    let e = ((n.inst.0 + lift) as usize, (x.0 + lift) as usize);
    lemma_open_links(p, walls, true, n.func, n.inst, e);
    lemma_got_on(p, r, walls, i, n, n.inst.0 + lift, x.0 + lift);
}

/// Control goes into the function that the instruction of step `q` calls.
proof fn lemma_goes_in(p: ProgramV, r: Seq<StepV>, walls: Seq<Inst>, i: int, q: int, s: Inst)
    requires
        is_small(p),
        is_placed(p, r[q].node),
        callee(p, r[q].node.inst) is Some,
        start_of(p, callee(p, r[q].node.inst)->0) == Some(s),
        s.0 < p.insts.len(),
        got(p, r, walls, i, point_of(p, r, i, q)),
    ensures
        got(p, r, walls, i, inner(p, s)),
{
    let n = r[q].node;
    let g = callee(p, n.inst)->0;
    let a = link(p, n.inst.0 as int, inner(p, s));
    let b = link(p, inner(p, n.inst), inner(p, s));
    let e = (point_of(p, r, i, q) as usize, inner(p, s) as usize);
    assert(entry_links(p, n.inst, g) == a + b);
    if r[q].start <= i {
        assert((a + b)[0] == e);
    } else {
        assert((a + b)[1] == e);
    }
    let d = call_links(p, n.func, n.inst);
    assert(d[(a + b).index_of(e)] == e);
    lemma_call_link(p, walls, n.func, n.inst, e);
    lemma_got_on(p, r, walls, i, n, point_of(p, r, i, q), inner(p, s));
}

/// A function that was running at step `i` ends at step `k`.
proof fn lemma_goes_out(p: ProgramV, r: Seq<StepV>, walls: Seq<Inst>, i: int, k: int)
    requires
        is_run(p, r),
        is_small(p),
        all_placed(p, r, k + 1),
        is_source(p, r, i),
        i < k < r.len(),
        r[k].start <= i,
        ends(p, r[k]),
        is_got(p, r, walls, i, k),
        r[k].back && r[k].call > i ==> got(p, r, walls, i, point_of(p, r, i, r[k].call)) && !walls.contains(
            r[k].node.inst,
        ),
        r[k].back ==> r[k].call != i,
    ensures
        got(p, r, walls, i, exit(p, r[k].node.func)),
{
    let n = r[k].node;
    assert(is_placed(p, n));
    let out = exit(p, n.func);
    if !r[k].back {
        let d = call_links(p, n.func, n.inst);
        let e = (n.inst.0, out as usize);
        assert(d[0] == e);
        lemma_call_link(p, walls, n.func, n.inst, e);
        lemma_got_on(p, r, walls, i, n, n.inst.0 as int, out);
    } else {
        let c = r[k].call;
        assert(is_step(p, r, k));
        if c > i {
            let d = tail_links(p, n.func, n.inst);
            let e = (n.inst.0, out as usize);
            assert(d[0] == e);
            lemma_open_links(p, walls, true, n.func, n.inst, e);
            lemma_got_on(p, r, walls, i, n, n.inst.0 as int, out);
        } else {
            let g = callee(p, n.inst)->0;
            assert(g.0 < p.funcs.len());
            let a = entry_links(p, n.inst, g);
            let e = (exit(p, g) as usize, out as usize);
            let d = call_links(p, n.func, n.inst);
            assert(d[a.len() as int] == e);
            lemma_call_link(p, walls, n.func, n.inst, e);
            lemma_got_on(p, r, walls, i, n, exit(p, g), out);
        }
    }
}

/// Every step after step `i` is got to by a way, where no wall is passed between them.
#[verifier::rlimit(40)]
proof fn lemma_reached(p: ProgramV, r: Seq<StepV>, walls: Seq<Inst>, i: int, k: int)
    requires
        is_run(p, r),
        is_small(p),
        all_placed(p, r, k + 1),
        is_source(p, r, i),
        i < k < r.len(),
        forall|j: int| i < j < k ==> !#[trigger] passes_wall(p, r, walls, i, j),
    ensures
        is_got(p, r, walls, i, k),
    decreases k,
{
    lemma_nested(p, r, k);
    assert(is_step(p, r, k));
    assert(is_placed(p, r[k].node));
    let x = r[k].node.inst;
    if r[k].back {
        let c = r[k].call;
        if c < i {
            lemma_nested(p, r, k - 1);
            lemma_nested(p, r, c + 1);
            assert(!ends(p, r[i]));
            assert(k - 1 > i) by {
                if k - 1 < i {
                    assert(false);
                }
            }
            lemma_reached(p, r, walls, i, k - 1);
            if r[k - 1].back {
                assert(is_step(p, r, k - 1));
                let d = r[k - 1].call;
                assert(d != i);
                if d > i {
                    lemma_reached(p, r, walls, i, d);
                    assert(!passes_wall(p, r, walls, i, k - 1));
                }
            }
            lemma_goes_out(p, r, walls, i, k - 1);
            // The function that ends is the one that was called.
            assert(is_step(p, r, c + 1));
            assert(r[k - 1].node.func == r[c + 1].node.func);
        }
    } else if r[k].start == k {
        if k == 0 {
            assert(reach_in(all_links(p, walls, true), none(), inner(p, x), inner(p, x), 0));
        } else if k - 1 == i {
            assert(callee(p, r[i].node.inst) is None);
        } else {
            lemma_reached(p, r, walls, i, k - 1);
            lemma_goes_in(p, r, walls, i, k - 1, x);
        }
    } else {
        lemma_before(p, r, k);
        let q = before(r, k);
        assert(is_placed(p, r[q].node));
        if q == i {
            let outs = flow_links(p, r[i].node.func, r[i].node.inst, 0);
            lemma_flow_link(p, r[i].node.func, r[i].node.inst, x, 0);
            lemma_nested(p, r, i);
            let e = (r[i].node.inst.0, x.0);
            let a = outs.index_of(e);
            assert(outs[a] == e);
            assert(reach_in(all_links(p, walls, true), none(), x.0 as int, x.0 as int, 0));
            assert(is_way(p, walls, true, outs[a].1 as int, x.0 as int));
        } else if q > i {
            lemma_reached(p, r, walls, i, q);
            assert(!passes_wall(p, r, walls, i, k - 1));
            assert(is_step(p, r, k - 1));
            lemma_goes_on(p, r, walls, i, q, k);
        } else {
            // The call was made before step `i` and came back after it.
            assert(r[k - 1].back);
            assert(is_step(p, r, k - 1));
            assert(k - 1 != i);
            lemma_reached(p, r, walls, i, k - 1);
            let n = r[q].node;
            let g = callee(p, n.inst)->0;
            assert(g.0 < p.funcs.len());
            let a = entry_links(p, n.inst, g);
            let e = (exit(p, g) as usize, x.0);
            let d = call_links(p, n.func, n.inst);
            assert(d[a.len() as int] == e);
            lemma_call_link(p, walls, n.func, n.inst, e);
            lemma_got_on(p, r, walls, i, n, exit(p, g), x.0 as int);
            lemma_nested(p, r, q);
        }
    }
}

proof fn lemma_stores_in(p: ProgramV, key: CellKey, f: Function, insts: Seq<Inst>, from: int, found: Seq<Inst>, x: Inst)
    requires
        0 <= from,
        stores_in(p, key, f, insts, from, found).contains(x),
    ensures
        found.contains(x) || stores_to(p, key, f, x),
    decreases insts.len() - from,
{
    if from < insts.len() {
        if stores_to(p, key, f, insts[from]) {
            let next = found.push(insts[from]);
            lemma_stores_in(p, key, f, insts, from + 1, next, x);
            if next.contains(x) {
                let k = next.index_of(x);
                if k < found.len() {
                    assert(found[k] == x);
                }
            }
        } else {
            lemma_stores_in(p, key, f, insts, from + 1, found, x);
        }
    }
}

/// What is listed as a store to `key` is one.
proof fn lemma_stores(p: ProgramV, key: CellKey, f: int, found: Seq<Inst>, x: Inst)
    requires
        0 <= f,
        stores_from(p, key, f, found).contains(x),
    ensures
        found.contains(x) || exists|g: Function| #[trigger] stores_to(p, key, g, x),
    decreases p.funcs.len() - f,
{
    if f < p.funcs.len() {
        let g = Function(f as usize);
        let next = stores_in(p, key, g, p.placed(g), 0, found);
        lemma_stores(p, key, f + 1, next, x);
        if next.contains(x) {
            lemma_stores_in(p, key, g, p.placed(g), 0, found, x);
        }
    }
}

proof fn lemma_sure_in(p: ProgramV, stores: Seq<Inst>, insts: Seq<Inst>, from: int, found: Seq<Inst>, x: Inst)
    requires
        0 <= from,
        sure_calls_in(p, stores, insts, from, found).contains(x),
    ensures
        found.contains(x) || surely_stores(p, stores, x),
    decreases insts.len() - from,
{
    if from < insts.len() {
        if surely_stores(p, stores, insts[from]) {
            let next = found.push(insts[from]);
            lemma_sure_in(p, stores, insts, from + 1, next, x);
            if next.contains(x) {
                let k = next.index_of(x);
                if k < found.len() {
                    assert(found[k] == x);
                }
            }
        } else {
            lemma_sure_in(p, stores, insts, from + 1, found, x);
        }
    }
}

/// A wall is a store or a call that does not return without one.
proof fn lemma_sure(p: ProgramV, stores: Seq<Inst>, f: int, found: Seq<Inst>, x: Inst)
    requires
        0 <= f,
        sure_calls_from(p, stores, f, found).contains(x),
    ensures
        found.contains(x) || surely_stores(p, stores, x),
    decreases p.funcs.len() - f,
{
    if f < p.funcs.len() {
        let insts = p.placed(Function(f as usize));
        let next = sure_calls_in(p, stores, insts, 0, found);
        lemma_sure(p, stores, f + 1, next, x);
        if next.contains(x) {
            lemma_sure_in(p, stores, insts, 0, found, x);
        }
    }
}

/// A step that runs a listed store to a global cell writes to it.
proof fn lemma_store_touches(p: ProgramV, s: StepV, key: CellKey, start: int)
    requires
        !s.back,
        key is Global || (key matches CellKey::Local(f, _, _) && f == s.node.func && s.start == start),
        all_stores(p, key).contains(s.node.inst),
    ensures
        touches(p, s, key, start),
{
    lemma_stores(p, key, 0, Seq::empty(), s.node.inst);
    let g = choose|g: Function| #[trigger] stores_to(p, key, g, s.node.inst);
    assert(stores_to(p, key, g, s.node.inst));
    assert(cell_of(p, s.node.func, p.arg(s.node.inst, 1)) is Some);
}

/// Where nothing writes to the global cell between two steps, no wall of it is passed.
proof fn lemma_no_walls(p: ProgramV, r: Seq<StepV>, key: CellKey, i: int, k: int, j: int)
    requires
        is_run(p, r),
        is_small(p),
        all_placed(p, r, k + 1),
        key is Global,
        -1 <= i < j < k < r.len(),
        forall|x: int| i < x < k ==> !touches(p, #[trigger] r[x], key, r[k].start),
    ensures
        !passes_wall(p, r, walls_of(p, key), i, j),
{
    let stores = all_stores(p, key);
    if passes_wall(p, r, walls_of(p, key), i, j) {
        let n = r[j].node;
        lemma_sure(p, stores, 0, stores, n.inst);
        if !r[j].back {
            if stores.contains(n.inst) {
                lemma_store_touches(p, r[j], key, r[k].start);
            }
        } else {
            assert(is_step(p, r, j));
            let c = r[j].call;
            if stores.contains(n.inst) {
                lemma_stores(p, key, 0, Seq::empty(), n.inst);
            }
            assert(surely_stores(p, stores, n.inst));
            let g = callee(p, n.inst)->0;
            let e = if r[j - 1].back {
                r[j - 1].call
            } else {
                j - 1
            };
            assert(is_step(p, r, j - 1));
            lemma_nested(p, r, j - 1);
            lemma_nested(p, r, e);
            assert(is_step(p, r, c + 1));
            assert(r[e].start == c + 1 && !r[e].back);
            assert forall|x: int| r[e].start <= x < e && !(#[trigger] r[x]).back && r[x].start == r[e].start implies !stores.contains(
                r[x].node.inst,
            ) by {
                if stores.contains(r[x].node.inst) {
                    lemma_store_touches(p, r[x], key, r[k].start);
                }
            }
            lemma_inside(p, r, stores, e);
            let insts = p.placed(g);
            assert(r[e].node.func == g);
            assert(is_placed(p, r[e].node));
            let a = insts.index_of(r[e].node.inst);
            assert(insts[a] == r[e].node.inst);
            assert(start_of(p, g) == Some(r[c + 1].node.inst));
            assert(can_end(p, stores, g, start_of(p, g)->0));
        }
    }
}

/// A store that was run before a load to its cell is one that may have been.
proof fn lemma_may_have_stored(p: ProgramV, r: Seq<StepV>, m: int, k: int, key: CellKey)
    requires
        is_run(p, r),
        all_placed(p, r, k + 1),
        0 <= m < k < r.len(),
        !r[m].back,
        !r[k].back,
        p.op(r[m].node.inst) is Store,
        is_same_run(key, r[m], r[k].start),
    ensures
        may_have_stored(p, key, r[m].node, r[k].node),
{
    if is_small(p) {
        let none_at_all = Seq::<Inst>::empty();
        if key is Local {
            lemma_chain(p, r, none_at_all, m, k);
        } else {
            lemma_reached(p, r, none_at_all, m, k);
            let outs = flow_links(p, r[m].node.func, r[m].node.inst, 0);
            let a = choose|a: int|
                0 <= a < outs.len() && is_way(
                    p,
                    none_at_all,
                    true,
                    (#[trigger] outs[a]).1 as int,
                    point_of(p, r, m, k),
                );
            assert(gets_to(p, none_at_all, true, outs[a].1 as int, r[k].node.inst));
        }
    }
}

/// An instruction that made a cell zero and was the last to write to it is one that may have been.
proof fn lemma_may_have_cleared(p: ProgramV, r: Seq<StepV>, m: int, k: int, key: CellKey)
    requires
        is_run(p, r),
        all_placed(p, r, k + 1),
        is_last_write(p, r, m, k, key),
        k < r.len(),
        !r[m].back,
        !r[k].back,
        p.op(r[m].node.inst) is MemZero,
        is_same_run(key, r[m], r[k].start),
        key matches CellKey::Local(f, _, _) ==> f == r[k].node.func,
    ensures
        may_have_cleared(p, key, r[m].node, r[k].node),
{
    if is_small(p) {
        if key is Local {
            let walls = all_stores(p, key);
            assert forall|j: int| m < j < k && !(#[trigger] r[j]).back && r[j].start == r[k].start implies !walls.contains(
                r[j].node.inst,
            ) by {
                if walls.contains(r[j].node.inst) {
                    lemma_nested(p, r, j);
                    lemma_nested(p, r, k);
                    lemma_store_touches(p, r[j], key, r[k].start);
                }
            }
            lemma_chain(p, r, walls, m, k);
        } else {
            let walls = walls_of(p, key);
            assert forall|j: int| m < j < k implies !#[trigger] passes_wall(p, r, walls, m, j) by {
                lemma_no_walls(p, r, key, m, k, j);
            }
            lemma_reached(p, r, walls, m, k);
            let outs = flow_links(p, r[m].node.func, r[m].node.inst, 0);
            let a = choose|a: int|
                0 <= a < outs.len() && is_way(p, walls, true, (#[trigger] outs[a]).1 as int, point_of(p, r, m, k));
            assert(gets_to(p, walls, true, outs[a].1 as int, r[k].node.inst));
        }
    }
}

/// A load before which nothing wrote to its global cell is one that may be the first.
proof fn lemma_may_be_first(p: ProgramV, r: Seq<StepV>, k: int, key: CellKey)
    requires
        is_run(p, r),
        all_placed(p, r, k + 1),
        0 <= k < r.len(),
        !r[k].back,
        key is Global,
        forall|j: int| 0 <= j < k ==> !touches(p, #[trigger] r[j], key, r[k].start),
    ensures
        may_be_first(p, key, r[k].node),
{
    if is_small(p) {
        let walls = walls_of(p, key);
        assert forall|j: int| -1 < j < k implies !#[trigger] passes_wall(p, r, walls, -1, j) by {
            lemma_no_walls(p, r, key, -1, k, j);
        }
        lemma_reached(p, r, walls, -1, k);
        lemma_nested(p, r, k);
        assert(is_step(p, r, 0));
        lemma_nested(p, r, 0);
        assert(is_placed(p, r[0].node));
    }
}

/// What a counted store puts into the cell is met into what is read.
proof fn lemma_fold_meets(
    p: ProgramV,
    key: CellKey,
    load: Node,
    writers: Seq<(CellKey, Node, Lattice)>,
    from: int,
    folded: Lattice,
    prior: Seq<(Function, crate::ir::BasicBlock)>,
    e: int,
)
    requires
        0 <= from,
        from <= e < writers.len() ==> writers[e].0 == key && may_have_stored(p, key, writers[e].1, load),
    ensures
        ({
            let v = fold_from(p, key, load, writers, from, folded, prior).0;
            &&& v.meet(folded) == v
            &&& from <= e < writers.len() ==> v.meet(writers[e].2) == v
        }),
    decreases writers.len() - from,
{
    if from < writers.len() {
        let (k, w, v) = writers[from];
        if k != key || (crate::program_order::relation(p, w, load) == 0 && !may_have_stored(p, key, w, load)) {
            lemma_fold_meets(p, key, load, writers, from + 1, folded, prior, e);
        } else {
            let next = match p.parent_bb(w.func, w.inst) {
                Some(b) => if crate::program_order::relation(p, w, load) == 0 || crate::mem_state::is_behind(p, w, load) {
                    prior
                } else {
                    prior.push((w.func, b))
                },
                None => prior,
            };
            lemma_fold_meets(p, key, load, writers, from + 1, folded.meet(v), next, e);
            let end = fold_from(p, key, load, writers, from, folded, prior).0;
            assert(end.meet(folded.meet(v)) == end);
            assert(end.meet(folded) == end && end.meet(v) == end);
        }
    }
}

/// `u` begins with the first `k` events of `t`.
pub open spec fn continues(t: Seq<Event>, k: int, u: Seq<Event>) -> bool {
    0 <= k <= t.len() && k <= u.len() && forall|j: int| 0 <= j < k ==> #[trigger] u[j] == t[j]
}

proof fn lemma_more(p: ProgramV, t: Seq<Event>, k: int, u: Seq<Event>, l: int)
    requires
        continues(t, k, u),
        k <= l <= u.len(),
    ensures
        forall|n: Node| ran(t, k, n) ==> #[trigger] ran(u, l, n),
        forall|a: Inst, v: i32| has_value(p, t, k, a, v) ==> #[trigger] has_value(p, u, l, a, v),
{
    assert forall|n: Node| ran(t, k, n) implies #[trigger] ran(u, l, n) by {
        let j = choose|j: int| 0 <= j < k && #[trigger] t[j] == Event::Runs(n);
        assert(u[j] == Event::Runs(n));
    }
    assert forall|a: Inst, v: i32| has_value(p, t, k, a, v) implies #[trigger] has_value(p, u, l, a, v) by {
        match p.op(a) {
            Op::Integer(_) => {},
            Op::Float(_) => {},
            _ => {
                let j = choose|j: int| 0 <= j < k && #[trigger] t[j] == Event::Gives(a, v);
                assert(u[j] == Event::Gives(a, v));
            },
        }
    }
}

proof fn lemma_follows_more(p: ProgramV, t: Seq<Event>, k: int, u: Seq<Event>, l: int, m: Node, n: Node)
    requires
        continues(t, k, u),
        k <= l <= u.len(),
        follows(p, t, k, m, n),
    ensures
        follows(p, u, l, m, n),
{
    lemma_more(p, t, k, u, l);
    if let Op::Branch(a, b, _) = p.op(m.inst) {
        let v = choose|v: i32|
            #[trigger] has_value(p, t, k, p.arg(m.inst, 0), v) && first_of(
                p,
                if v != 0 {
                    a
                } else {
                    b
                },
            ) == Some(n.inst);
        assert(has_value(p, u, l, p.arg(m.inst, 0), v));
    }
}

proof fn lemma_hands_more(
    p: ProgramV,
    t: Seq<Event>,
    k: int,
    u: Seq<Event>,
    l: int,
    args: Seq<Inst>,
    params: Seq<Inst>,
    x: Inst,
    v: i32,
)
    requires
        continues(t, k, u),
        k <= l <= u.len(),
        hands(p, t, k, args, params, x, v),
    ensures
        hands(p, u, l, args, params, x, v),
{
    lemma_more(p, t, k, u, l);
    let r = choose|r: int| 0 <= r < args.len() && r < params.len() && params[r] == x && has_value(p, t, k, #[trigger] args[r], v);
    assert(has_value(p, u, l, args[r], v));
}

proof fn lemma_passes_more(p: ProgramV, t: Seq<Event>, k: int, u: Seq<Event>, l: int, m: Node, x: Inst, v: i32)
    requires
        continues(t, k, u),
        k <= l <= u.len(),
        passes(p, t, k, m, x, v),
    ensures
        passes(p, u, l, m, x, v),
{
    lemma_more(p, t, k, u, l);
    let i = m.inst;
    match p.op(i) {
        Op::Jump(b) => lemma_hands_more(p, t, k, u, l, p.args(i), p.block(b).params, x, v),
        Op::Branch(a, b, _) => {
            let c = choose|c: i32|
                #[trigger] has_value(p, t, k, p.arg(i, 0), c) && (if c != 0 {
                    hands(p, t, k, p.t_args(i), p.block(a).params, x, v)
                } else {
                    hands(p, t, k, p.f_args(i), p.block(b).params, x, v)
                });
            assert(has_value(p, u, l, p.arg(i, 0), c));
            if c != 0 {
                lemma_hands_more(p, t, k, u, l, p.t_args(i), p.block(a).params, x, v);
            } else {
                lemma_hands_more(p, t, k, u, l, p.f_args(i), p.block(b).params, x, v);
            }
        },
        Op::Call(g) => lemma_hands_more(p, t, k, u, l, p.args(i), p.func(g).params, x, v),
        Op::TailCall(g) => lemma_hands_more(p, t, k, u, l, p.args(i), p.func(g).params, x, v),
        _ => {},
    }
}

proof fn lemma_back_more(p: ProgramV, t: Seq<Event>, k: int, u: Seq<Event>, l: int, g: Function, v: i32)
    requires
        continues(t, k, u),
        k <= l <= u.len(),
        exists|m: Node| #[trigger] ran(t, k, m) && gives_back(p, t, k, m, g, v),
    ensures
        exists|m: Node| #[trigger] ran(u, l, m) && gives_back(p, u, l, m, g, v),
{
    lemma_more(p, t, k, u, l);
    let m = choose|m: Node| #[trigger] ran(t, k, m) && gives_back(p, t, k, m, g, v);
    assert(ran(u, l, m) && gives_back(p, u, l, m, g, v));
}

proof fn lemma_computed_more(p: ProgramV, t: Seq<Event>, k: int, u: Seq<Event>, l: int, n: Node, v: i32)
    requires
        continues(t, k, u),
        k <= l <= u.len(),
        computed(p, t, k, n, v),
    ensures
        computed(p, u, l, n, v),
{
    lemma_more(p, t, k, u, l);
    let x = n.inst;
    match p.op(x) {
        Op::Binary(op) => {
            let (a, b) = choose|a: i32, b: i32|
                #![trigger has_value(p, t, k, p.arg(x, 0), a), has_value(p, t, k, p.arg(x, 1), b)]
                has_value(p, t, k, p.arg(x, 0), a) && has_value(p, t, k, p.arg(x, 1), b) && (p.ty(p.arg(x, 0)) is I32
                    ==> crate::arith::defined(op, b) && v == crate::arith::int_op(op, a, b));
            assert(has_value(p, u, l, p.arg(x, 0), a) && has_value(p, u, l, p.arg(x, 1), b));
        },
        Op::Select => {
            let c = choose|c: i32|
                #[trigger] has_value(p, t, k, p.arg(x, 0), c) && has_value(
                    p,
                    t,
                    k,
                    if c != 0 {
                        p.arg(x, 1)
                    } else {
                        p.arg(x, 2)
                    },
                    v,
                );
            assert(has_value(p, u, l, p.arg(x, 0), c));
        },
        Op::Call(g) => {
            if p.func(g).blocks.len() > 0 {
                lemma_back_more(p, t, k, u, l, g, v);
            }
        },
        Op::TailCall(g) => {
            lemma_back_more(p, t, k, u, l, g, v);
        },
        _ => {},
    }
}

/// A step that is explained stays explained when the trace goes on.
proof fn lemma_explained_more(p: ProgramV, st: StateV, t: Seq<Event>, u: Seq<Event>, k: int)
    requires
        0 <= k < t.len(),
        continues(t, t.len() as int, u),
        explained(p, st, t, k),
    ensures
        explained(p, st, u, k),
{
    assert(u[k] == t[k]);
    assert(continues(t, k, u));
    lemma_more(p, t, k, u, k);
    match t[k] {
        Event::Runs(n) => {
            if !(n.func == main_of(p)->0 && start_of(p, main_of(p)->0) == Some(n.inst)) {
                let m = choose|m: Node| #[trigger] ran(t, k, m) && follows(p, t, k, m, n);
                lemma_follows_more(p, t, k, u, k, m, n);
                assert(ran(u, k, m));
            }
        },
        Event::Gives(x, v) => {
            if p.op(x) is BlockArgRef {
                let m = choose|m: Node| #[trigger] ran(t, k, m) && passes(p, t, k, m, x, v);
                lemma_passes_more(p, t, k, u, k, m, x, v);
                assert(ran(u, k, m));
            } else {
                let n = choose|n: Node|
                    #[trigger] ran(t, k, n) && n.inst == x && crate::traces::comes(p, st, t, k, n, v);
                if !(p.op(x) is Load) {
                    lemma_computed_more(p, t, k, u, k, n, v);
                }
                assert(ran(u, k, n));
            }
        },
    }
}

/// The events of fewer steps are the first of those of more.
proof fn lemma_events(p: ProgramV, r: Seq<StepV>, m: int, k: int)
    requires
        0 <= m < k,
    ensures
        continues(so_far(p, r, m), so_far(p, r, m).len() as int, events(p, r, k)),
        continues(events(p, r, m), events(p, r, m).len() as int, events(p, r, k)),
    decreases k,
{
    let last = events(p, r, k - 1);
    let all = events(p, r, k);
    assert(all == last + run_event(r[k - 1]) + value_event(p, r[k - 1]) + handed_events(r[k - 1]));
    assert forall|j: int| 0 <= j < last.len() implies #[trigger] all[j] == last[j] by {}
    if m < k - 1 {
        lemma_events(p, r, m, k - 1);
        let t = so_far(p, r, m);
        assert forall|j: int| 0 <= j < t.len() implies #[trigger] all[j] == t[j] by {
            assert(last[j] == t[j]);
        }
        let u = events(p, r, m);
        assert forall|j: int| 0 <= j < u.len() implies #[trigger] all[j] == u[j] by {
            assert(last[j] == u[j]);
        }
    } else {
        let t = so_far(p, r, m);
        assert(t == last + run_event(r[k - 1]));
        assert forall|j: int| 0 <= j < t.len() implies #[trigger] all[j] == t[j] by {}
    }
}

/// An instruction that was run at an earlier step was run.
proof fn lemma_ran_step(p: ProgramV, r: Seq<StepV>, j: int, k: int)
    requires
        0 <= j < k,
        !r[j].back,
    ensures
        ran(events(p, r, k), events(p, r, k).len() as int, r[j].node),
{
    lemma_events(p, r, j, k);
    let t = so_far(p, r, j);
    let at = events(p, r, j).len() as int;
    assert(t[at] == Event::Runs(r[j].node));
    assert(events(p, r, k)[at] == t[at]);
}

/// What is known of the end of the propagation, and of what it notes.
pub open spec fn is_end(p: ProgramV, st: StateV) -> bool {
    &&& complete(p, st)
    &&& forall|n: Node| st.node_seen.contains(n) ==> #[trigger] is_noted(p, st.mem, n)
    &&& forall|k: int|
        0 <= k < st.mem.writers.len() && st.node_seen.contains((#[trigger] st.mem.writers[k]).1) ==> st.mem.writers[k].2
            == noted(known(st.lat, p.arg(st.mem.writers[k].1.inst, 0)))
}

/// The instructions of a trace stand in their functions.
proof fn lemma_all_placed(p: ProgramV, st: StateV, r: Seq<StepV>, k: int)
    requires
        is_end(p, st),
        is_run(p, r),
        0 <= k < r.len(),
        forall|j: int| 0 <= j < so_far(p, r, k).len() ==> accounted(p, st, #[trigger] so_far(p, r, k)[j]),
    ensures
        all_placed(p, r, k + 1),
        forall|j: int| 0 <= j <= k ==> st.node_seen.contains((#[trigger] r[j]).node),
{
    let t = so_far(p, r, k);
    assert forall|j: int| 0 <= j <= k implies is_placed(p, (#[trigger] r[j]).node) && st.node_seen.contains(r[j].node) by {
        assert(is_step(p, r, j));
        let c = if r[j].back {
            r[j].call
        } else {
            j
        };
        let n = r[c].node;
        assert(st.node_seen.contains(n)) by {
            if c < k {
                lemma_ran_step(p, r, c, k);
                let u = events(p, r, k);
                let at = choose|at: int| 0 <= at < u.len() && #[trigger] u[at] == Event::Runs(n);
                assert(t[at] == u[at]);
            } else {
                assert(t[events(p, r, k).len() as int] == Event::Runs(n));
            }
        }
        lemma_visited(p, st, n);
        lemma_in_placed(p, n.func, n.inst, 0, Seq::empty());
        assert(p.func(n.func).blocks.len() > 0);
    }
}

/// What a load that is found constant gets is that constant.
#[verifier::rlimit(40)]
proof fn lemma_load(p: ProgramV, st: StateV, r: Seq<StepV>, k: int, key: CellKey, c: i32)
    requires
        is_end(p, st),
        is_run(p, r),
        0 <= k < r.len(),
        !r[k].back,
        p.op(r[k].node.inst) is Load,
        loads(p, r, k),
        cell_of(p, r[k].node.func, p.arg(r[k].node.inst, 0)) matches Some((x, _)) && x == key,
        forall|j: int| 0 <= j < so_far(p, r, k).len() ==> accounted(p, st, #[trigger] so_far(p, r, k)[j]),
        value_read(p, st.mem, key, r[k].node) == Lattice::Constant(c),
    ensures
        r[k].value == c,
{
    lemma_all_placed(p, st, r, k);
    let load = r[k].node;
    let m = st.mem;
    let (folded, prior) = fold_from(p, key, load, m.writers, 0, Lattice::Top, Seq::empty());
    if exists|w: int| #[trigger] is_last_write(p, r, w, k, key) && puts(p, r[w], r[k].value) {
        let w = choose|w: int| #[trigger] is_last_write(p, r, w, k, key) && puts(p, r[w], r[k].value);
        let n = r[w].node;
        let i = n.inst;
        assert(st.node_seen.contains(n));
        assert(is_noted(p, m, n));
        assert(is_step(p, r, w));
        match p.op(i) {
            Op::Store => {
                if cell_of(p, n.func, p.arg(i, 1)) is Some {
                    lemma_may_have_stored(p, r, w, k, key);
                    let e = choose|e: int|
                        0 <= e < m.writers.len() && (#[trigger] m.writers[e]).0 == key && m.writers[e].1 == n;
                    lemma_fold_meets(p, key, load, m.writers, 0, Lattice::Top, Seq::empty(), e);
                    assert(m.writers[e].2 == noted(known(st.lat, p.arg(i, 0))));
                    assert(known(st.lat, p.arg(i, 0)) == Lattice::Constant(c));
                    assert(p.ty(p.arg(i, 0)) is I32);
                    let t = so_far(p, r, w);
                    let u = so_far(p, r, k);
                    lemma_events(p, r, w, k);
                    assert forall|j: int| 0 <= j < t.len() implies #[trigger] u[j] == t[j] by {
                        assert(events(p, r, k)[j] == t[j]);
                    }
                    lemma_more(p, t, t.len() as int, u, u.len() as int);
                    assert(has_value(p, u, u.len() as int, p.arg(i, 0), r[w].value));
                    lemma_value(p, st, u, u.len() as int, p.arg(i, 0), r[w].value);
                }
            },
            Op::MemZero(len) => {
                if let Some((x, root)) = cell_of(p, n.func, p.arg(i, 0)) {
                    lemma_may_have_cleared(p, r, w, k, key);
                    let e = (root, x.at(), end_of(x.at(), len as int), n);
                    let at = m.clears.index_of(e);
                    assert(m.clears[at] == e);
                    assert(is_cleared(p, m.clears, key, load));
                }
            },
            Op::MemZeroDyn => {},
            Op::Call(g) => {
                assert(is_forgotten(p, m, g, n.func));
            },
            Op::TailCall(g) => {
                assert(is_forgotten(p, m, g, n.func));
            },
            _ => {},
        }
    } else {
        lemma_may_be_first(p, r, k, key);
    }
}

/// The instruction of step `k` is run where the steps before it lead.
proof fn lemma_runs_on(p: ProgramV, st: StateV, r: Seq<StepV>, k: int)
    requires
        is_end(p, st),
        is_run(p, r),
        0 <= k < r.len(),
        traces(p, st, events(p, r, k)),
    ensures
        traces(p, st, so_far(p, r, k)),
{
    let t = events(p, r, k);
    let u = so_far(p, r, k);
    assert(is_step(p, r, k));
    assert(continues(t, t.len() as int, u));
    assert forall|j: int| 0 <= j < u.len() implies #[trigger] explained(p, st, u, j) by {
        if j < t.len() {
            assert(explained(p, st, t, j));
            lemma_explained_more(p, st, t, u, j);
        } else {
            let n = r[k].node;
            assert(u[j] == Event::Runs(n));
            assert(j == t.len());
            if r[k].start == k && k > 0 {
                let q = r[k - 1].node;
                lemma_ran_step(p, r, k - 1, k);
                lemma_more(p, t, j, u, j);
                assert(ran(u, j, q) && follows(p, u, j, q, n));
            } else if r[k].start != k {
                lemma_before(p, r, k);
                let c = before(r, k);
                let q = r[c].node;
                lemma_ran_step(p, r, c, k);
                lemma_more(p, t, j, u, j);
                assert(follows(p, u, j, q, n)) by {
                    if r[k - 1].back {
                        assert(is_step(p, r, k - 1));
                    } else {
                        assert(goes_on(p, r, k));
                        if !(p.op(q.inst) is Call) {
                            lemma_follows_more(p, t, j, u, j, q, n);
                        }
                    }
                }
                assert(ran(u, j, q));
            }
        }
    }
}

/// The events of a run are a trace.
#[verifier::rlimit(30)]
proof fn lemma_traced(p: ProgramV, st: StateV, r: Seq<StepV>, k: int)
    requires
        is_end(p, st),
        is_run(p, r),
        0 <= k <= r.len(),
    ensures
        traces(p, st, events(p, r, k)),
    decreases k,
{
    if k > 0 {
        let s = r[k - 1];
        let n = s.node;
        lemma_traced(p, st, r, k - 1);
        lemma_runs_on(p, st, r, k - 1);
        let t = so_far(p, r, k - 1);
        let u = events(p, r, k);
        lemma_trace(p, st, t, t.len() as int);
        lemma_events(p, r, k - 1, k);
        assert(is_step(p, r, k - 1));
        assert(ran(t, t.len() as int, n)) by {
            if s.back {
                lemma_ran_step(p, r, s.call, k - 1);
                let e = events(p, r, k - 1);
                assert(continues(e, e.len() as int, t));
                lemma_more(p, e, e.len() as int, t, t.len() as int);
            } else {
                assert(t[events(p, r, k - 1).len() as int] == Event::Runs(n));
            }
        }
        let given = value_event(p, s);
        assert(u == t + given + handed_events(s));
        assert forall|j: int| 0 <= j < u.len() implies #[trigger] explained(p, st, u, j) by {
            if j < t.len() {
                assert(explained(p, st, t, j));
                lemma_explained_more(p, st, t, u, j);
            } else {
                assert(continues(t, t.len() as int, u));
                lemma_more(p, t, t.len() as int, u, j);
                assert(ran(u, j, n));
                if j < t.len() + given.len() {
                    assert(u[j] == Event::Gives(n.inst, s.value));
                    if p.op(n.inst) is Load {
                        assert(is_next(p, r, k - 1));
                        assert(!s.back);
                        if let Some((key, _)) = cell_of(p, n.func, p.arg(n.inst, 0)) {
                            if let Lattice::Constant(c) = value_read(p, st.mem, key, n) {
                                lemma_load(p, st, r, k - 1, key, c);
                            }
                        }
                    } else {
                        lemma_computed_more(p, t, t.len() as int, u, j, n, s.value);
                    }
                    assert(crate::traces::comes(p, st, u, j, n, s.value));
                } else {
                    let h = j - t.len() - given.len();
                    let (x, v) = s.handed[h];
                    assert(u[j] == handed_events(s)[h]);
                    assert(passes(p, t, t.len() as int, n, x, v)) by {
                        assert(s.handed[h].0 == x);
                    }
                    lemma_passes_more(p, t, t.len() as int, u, j, n, x, v);
                }
            }
        }
    }
}

/// In every run of the program, memory included, an instruction that is run was visited by the propagation, and a
/// value that is found constant has that value.
pub proof fn constants_hold_in_every_run_with_memory(p: ProgramV, t: Seq<Event>, k: int)
    requires
        typed_program(p),
        has_whole_stores(p),
        main_of(p) is Some,
        start_of(p, main_of(p)->0) is Some,
        finished(solved(p, usize::MAX as nat)),
        runs_with_memory(p, t),
        0 <= k < t.len(),
    ensures
        match t[k] {
            Event::Runs(n) => solved(p, usize::MAX as nat).node_seen.contains(n),
            Event::Gives(x, v) => match known(solved(p, usize::MAX as nat).lat, x) {
                Lattice::Constant(c) => v == c,
                Lattice::Bottom => true,
                Lattice::Top => false,
            },
        },
{
    let st = solved(p, usize::MAX as nat);
    lemma_complete(p);
    assert forall|n: Node| st.node_seen.contains(n) implies #[trigger] is_noted(p, st.mem, n) by {
        what_was_visited_is_noted(p, n);
    }
    assert forall|j: int|
        0 <= j < st.mem.writers.len() && st.node_seen.contains((#[trigger] st.mem.writers[j]).1) implies st.mem.writers[j].2
        == noted(known(st.lat, p.arg(st.mem.writers[j].1.inst, 0))) by {
        notes_are_what_is_known(p, j);
    }
    let r = choose|r: Seq<StepV>| #[trigger] is_run(p, r) && t == events(p, r, r.len() as int);
    lemma_traced(p, st, r, r.len() as int);
    lemma_trace(p, st, t, t.len() as int);
    assert(accounted(p, st, t[k]));
}

} // verus!
