//! Elimination of values that were computed before.

use rustc_hash::FxHashMap;
use vstd::prelude::*;

use crate::cfg::{entry_of, immediate, is_immediate, reverse_postorder, rpo_path, tree_of, DomTree, TreeV};
use crate::effects::{effects_of, has_object, removable, touched, Effects};
use crate::ir::{block_position, position, BasicBlock, Function, Inst, Op, ProgramV};
use crate::memory::{base_of, object_of, MemObject};
use crate::numbering::{call_numbered, expressible, is_expressible, numbered, Numbers, NumbersV, Scope, ScopeV};
use crate::program::Program;
use crate::table::{fx_empty, fx_get, fx_insert, fx_remove};

verus! {

pub struct GlobalInstNumbering;

/// A call whose result may stand for later calls with its number.
#[derive(Clone, Copy, Debug, PartialEq, Eq, Structural)]
pub struct CallLeader {
    pub number: usize,
    pub leader: Inst,
    pub callee: Function,
}

/// What writes memory: a write to one object, or a call.
#[derive(Clone, Copy, Debug, PartialEq, Eq, Structural)]
pub enum Writer {
    Object(MemObject),
    Call(Function),
}

/// One of `reads[from..]` is in `writes`.
pub open spec fn meets(reads: Seq<MemObject>, writes: Seq<MemObject>, from: int) -> bool
    decreases reads.len() - from,
{
    from < reads.len() && (writes.contains(reads[from]) || meets(reads, writes, from + 1))
}

/// A call of `callee` may read what `w` writes, by the effects of functions in `a`.
pub open spec fn hits(a: ProgramV, w: Writer, callee: Function) -> bool {
    let reads = touched(a, callee, false);
    if callee.0 >= a.funcs.len() {
        true
    } else if reads.len() == 0 {
        false
    } else {
        match w {
            Writer::Object(o) => o is Unknown || reads.contains(o) || reads.contains(MemObject::Unknown),
            Writer::Call(g) => g.0 >= a.funcs.len() || (touched(a, g, true).len() > 0 && (reads.contains(
                MemObject::Unknown,
            ) || touched(a, g, true).contains(MemObject::Unknown) || meets(reads, touched(a, g, true), 0))),
        }
    }
}

/// How value `v` writes memory, where it may.
pub open spec fn writer_of(a: ProgramV, v: Inst) -> Option<Writer> {
    match a.op(v) {
        Op::Store => Some(Writer::Object(object_of(a, a.arg(v, 1)))),
        Op::MemZero(_) => Some(Writer::Object(object_of(a, a.arg(v, 0)))),
        Op::MemZeroDyn => Some(Writer::Object(object_of(a, a.arg(v, 0)))),
        Op::Call(g) => Some(Writer::Call(g)),
        _ => None,
    }
}

/// How the values `values[from..]` write memory, behind `found`.
pub open spec fn writers_in(a: ProgramV, values: Seq<Inst>, from: int, found: Seq<Writer>) -> Seq<Writer>
    decreases values.len() - from,
{
    if from >= values.len() {
        found
    } else {
        match writer_of(a, values[from]) {
            Some(w) => writers_in(a, values, from + 1, found.push(w)),
            None => writers_in(a, values, from + 1, found),
        }
    }
}

/// A call of `callee` may read what one of `writers[from..]` writes.
pub open spec fn any_hits(a: ProgramV, writers: Seq<Writer>, callee: Function, from: int) -> bool
    decreases writers.len() - from,
{
    from < writers.len() && (hits(a, writers[from], callee) || any_hits(a, writers, callee, from + 1))
}

/// How block `b` writes memory.
pub open spec fn block_writers(a: ProgramV, b: BasicBlock) -> Seq<Writer> {
    writers_in(a, a.block(b).params + a.block(b).insts, 0, Seq::empty())
}

/// `w` writes no memory at all.
pub open spec fn spares_loads(a: ProgramV, w: Writer) -> bool {
    match w {
        Writer::Object(_) => false,
        Writer::Call(g) => !writes_memory(a, g),
    }
}

/// A call of `g` may write memory.
pub open spec fn writes_memory(a: ProgramV, g: Function) -> bool {
    g.0 >= a.funcs.len() || touched(a, g, true).len() > 0
}

/// The leaders `calls[from..]` that `w` leaves valid, behind `found`.
pub open spec fn spared(a: ProgramV, w: Writer, calls: Seq<CallLeader>, from: int, found: Seq<CallLeader>) -> Seq<CallLeader>
    decreases calls.len() - from,
{
    if from >= calls.len() {
        found
    } else if hits(a, w, calls[from].callee) {
        spared(a, w, calls, from + 1, found)
    } else {
        spared(a, w, calls, from + 1, found.push(calls[from]))
    }
}

/// The leader for number `n`, that of calls of `g`, among `calls[from..]`.
pub open spec fn call_leader(calls: Seq<CallLeader>, n: usize, g: Function, from: int) -> Option<Inst>
    decreases calls.len() - from,
{
    if from >= calls.len() {
        None
    } else if calls[from].number == n && calls[from].callee == g {
        Some(calls[from].leader)
    } else {
        call_leader(calls, n, g, from + 1)
    }
}

/// What the walk over a function carries: numbers, and the values that may stand for later ones: by
/// number, loads by address, and calls.
#[verifier::ext_equal]
pub struct WalkV {
    pub numbers: NumbersV,
    pub leaders: Map<usize, Inst>,
    pub loads: Map<usize, Inst>,
    pub calls: Seq<CallLeader>,
    pub changed: bool,
}

/// What a block added: its leaders go when the walk leaves it.
#[verifier::ext_equal]
pub struct AddedV {
    pub leaders: Seq<usize>,
    pub loads: Seq<usize>,
    pub calls: Seq<usize>,
}

/// Memory written by `w`: no load keeps its value, unless nothing is written, and the calls that may read
/// it none either.
pub open spec fn write_seen(a: ProgramV, st: WalkV, w: Writer) -> WalkV {
    WalkV {
        loads: if spares_loads(a, w) {
            st.loads
        } else {
            Map::empty()
        },
        calls: spared(a, w, st.calls, 0, Seq::empty()),
        ..st
    }
}

/// Uses of `v` made uses of `leader`.
pub open spec fn led(p: ProgramV, st: WalkV, v: Inst, leader: Inst) -> (ProgramV, WalkV) {
    if v != leader && p.is_used(v) {
        (p.replace_uses(v, leader), WalkV { changed: true, ..st })
    } else {
        (p, st)
    }
}

/// What the walk looks at besides: which values are numbered by what they compute, how deep operands
/// are followed, and the blocks in the order in which they are walked.
pub struct PlanV {
    pub scope: ScopeV,
    pub fuel: nat,
    pub way: Seq<BasicBlock>,
    pub pure_calls: Seq<bool>,
}

/// A call of `g` leaves no trace but its result.
pub open spec fn is_pure(plan: PlanV, g: Function) -> bool {
    g.0 < plan.pure_calls.len() && plan.pure_calls[g.0 as int]
}

/// What visiting `v` does to memory.
pub open spec fn memory_seen(a: ProgramV, st: WalkV, v: Inst) -> WalkV {
    match writer_of(a, v) {
        Some(w) => write_seen(a, st, w),
        None => st,
    }
}

/// Load `v` visited.
pub open spec fn load_seen(p: ProgramV, plan: PlanV, st: WalkV, v: Inst, added: AddedV) -> (ProgramV, WalkV, AddedV) {
    let addr = p.arg(v, 0);
    if st.loads.contains_key(addr.0) {
        let (q, next) = led(p, st, v, st.loads[addr.0]);
        let numbers = numbered(q, plan.scope, next.numbers, v, plan.fuel).0;
        (q, WalkV { numbers, ..next }, added)
    } else {
        let numbers = numbered(p, plan.scope, st.numbers, v, plan.fuel).0;
        (
            p,
            WalkV { numbers, loads: st.loads.insert(addr.0, v), ..st },
            AddedV { loads: added.loads.push(addr.0), ..added },
        )
    }
}

/// Call `v` of `g`, which leaves no trace but its result, visited.
pub open spec fn call_seen(p: ProgramV, plan: PlanV, st: WalkV, v: Inst, g: Function, added: AddedV) -> (
    ProgramV,
    WalkV,
    AddedV,
) {
    let (table, n) = call_numbered(p, plan.scope, st.numbers, v, plan.fuel);
    let numbers = numbered(p, plan.scope, table, v, plan.fuel).0;
    let next = WalkV { numbers, ..st };
    match call_leader(next.calls, n, g, 0) {
        Some(leader) => {
            let (q, done) = led(p, next, v, leader);
            (q, done, added)
        },
        None => (
            p,
            WalkV { calls: next.calls.push(CallLeader { number: n, leader: v, callee: g }), ..next },
            AddedV { calls: added.calls.push(n), ..added },
        ),
    }
}

/// Value `v` visited that is no load.
pub open spec fn value_seen(p: ProgramV, plan: PlanV, st: WalkV, v: Inst, added: AddedV) -> (ProgramV, WalkV, AddedV) {
    match p.op(v) {
        Op::Call(g) => if is_pure(plan, g) {
            call_seen(p, plan, st, v, g, added)
        } else {
            (p, WalkV { numbers: numbered(p, plan.scope, st.numbers, v, plan.fuel).0, ..st }, added)
        },
        _ => {
            let (numbers, n) = numbered(p, plan.scope, st.numbers, v, plan.fuel);
            let next = WalkV { numbers, ..st };
            if !expressible(p, plan.scope, v) {
                (p, next, added)
            } else if next.leaders.contains_key(n) {
                let (q, done) = led(p, next, v, next.leaders[n]);
                (q, done, added)
            } else {
                (
                    p,
                    WalkV { leaders: next.leaders.insert(n, v), ..next },
                    AddedV { leaders: added.leaders.push(n), ..added },
                )
            }
        },
    }
}

/// Value `v` visited.
pub open spec fn seen(a: ProgramV, p: ProgramV, plan: PlanV, st: WalkV, v: Inst, added: AddedV) -> (ProgramV, WalkV, AddedV) {
    if p.op(v) is Load {
        load_seen(p, plan, st, v, added)
    } else {
        value_seen(p, plan, memory_seen(a, st, v), v, added)
    }
}

/// The values `values[from..]` visited.
pub open spec fn all_seen(
    a: ProgramV,
    p: ProgramV,
    plan: PlanV,
    st: WalkV,
    values: Seq<Inst>,
    from: int,
    added: AddedV,
) -> (ProgramV, WalkV, AddedV)
    decreases values.len() - from,
{
    if from >= values.len() {
        (p, st, added)
    } else {
        let (q, next, more) = seen(a, p, plan, st, values[from], added);
        all_seen(a, q, plan, next, values, from + 1, more)
    }
}

/// `m` without the keys `keys[from..]`.
pub open spec fn keys_dropped(m: Map<usize, Inst>, keys: Seq<usize>, from: int) -> Map<usize, Inst>
    decreases keys.len() - from,
{
    if from >= keys.len() {
        m
    } else {
        keys_dropped(m.remove(keys[from]), keys, from + 1)
    }
}

/// The leaders `calls[from..]` whose number is not in `numbers`, behind `found`.
pub open spec fn calls_dropped(calls: Seq<CallLeader>, numbers: Seq<usize>, from: int, found: Seq<CallLeader>) -> Seq<
    CallLeader,
>
    decreases calls.len() - from,
{
    if from >= calls.len() {
        found
    } else if numbers.contains(calls[from].number) {
        calls_dropped(calls, numbers, from + 1, found)
    } else {
        calls_dropped(calls, numbers, from + 1, found.push(calls[from]))
    }
}

/// The state after the walk left a block that added `added`.
pub open spec fn left(st: WalkV, added: AddedV) -> WalkV {
    WalkV {
        leaders: keys_dropped(st.leaders, added.leaders, 0),
        loads: keys_dropped(st.loads, added.loads, 0),
        calls: calls_dropped(st.calls, added.calls, 0, Seq::empty()),
        ..st
    }
}

/// One of `edges[from..]` leads to `b` from a reached block that is not before it in `way`.
pub open spec fn heads_loop(tree: TreeV, way: Seq<BasicBlock>, b: BasicBlock, from: int) -> bool
    decreases tree.edges.len() - from,
{
    from < tree.edges.len() && ((tree.edges[from].1 == b.0 && tree.contains(BasicBlock(tree.edges[from].0)) && position(
        way,
        BasicBlock(tree.edges[from].0),
        0,
    ) >= position(way, b, 0)) || heads_loop(tree, way, b, from + 1))
}

/// One of the edges `from..` leaves a reached block that is not before `b` in `way`, from where control gets
/// to `b`, and in which something is written that a call of `callee` may read.
pub open spec fn loop_hits(
    a: ProgramV,
    tree: TreeV,
    way: Seq<BasicBlock>,
    b: BasicBlock,
    callee: Function,
    from: int,
) -> bool
    decreases tree.edges.len() - from,
{
    from < tree.edges.len() && ((tree.contains(BasicBlock(tree.edges[from].0)) && position(
        way,
        BasicBlock(tree.edges[from].0),
        0,
    ) >= position(way, b, 0) && tree.flows(BasicBlock(tree.edges[from].1), b) && any_hits(
        a,
        block_writers(a, BasicBlock(tree.edges[from].0)),
        callee,
        0,
    )) || loop_hits(a, tree, way, b, callee, from + 1))
}

/// The leaders `calls[from..]` that a loop through `b` leaves valid, behind `found`.
pub open spec fn loop_spared(
    a: ProgramV,
    tree: TreeV,
    way: Seq<BasicBlock>,
    b: BasicBlock,
    calls: Seq<CallLeader>,
    from: int,
    found: Seq<CallLeader>,
) -> Seq<CallLeader>
    decreases calls.len() - from,
{
    if from >= calls.len() {
        found
    } else if loop_hits(a, tree, way, b, calls[from].callee, 0) {
        loop_spared(a, tree, way, b, calls, from + 1, found)
    } else {
        loop_spared(a, tree, way, b, calls, from + 1, found.push(calls[from]))
    }
}

/// The children of `b` in the dominance tree among `order[from..]`, behind `found`.
pub open spec fn children_from(tree: TreeV, order: Seq<BasicBlock>, b: BasicBlock, from: int, found: Seq<BasicBlock>) -> Seq<
    BasicBlock,
>
    decreases order.len() - from,
{
    if from >= order.len() {
        found
    } else if immediate(tree, order, b, order[from]) {
        children_from(tree, order, b, from + 1, found.push(order[from]))
    } else {
        children_from(tree, order, b, from + 1, found)
    }
}

/// The state on entering block `b`: where a loop comes back to it, no load keeps its value, nor do the calls
/// that may read what the loop writes.
pub open spec fn header_seen(a: ProgramV, tree: TreeV, way: Seq<BasicBlock>, st: WalkV, b: BasicBlock) -> WalkV {
    if heads_loop(tree, way, b, 0) {
        WalkV { loads: Map::empty(), calls: loop_spared(a, tree, way, b, st.calls, 0, Seq::empty()), ..st }
    } else {
        st
    }
}

/// Block `b`, and after it the blocks below it in the dominance tree, to depth `depth`.
pub open spec fn way_from(tree: TreeV, order: Seq<BasicBlock>, b: BasicBlock, depth: nat) -> Seq<BasicBlock>
    decreases depth, 0int, 0int,
{
    if depth == 0 {
        Seq::empty()
    } else {
        seq![b] + ways_from(tree, order, children_from(tree, order, b, 0, Seq::empty()), 0, (depth - 1) as nat)
    }
}

/// The blocks `blocks[from..]`, each with those below it.
pub open spec fn ways_from(tree: TreeV, order: Seq<BasicBlock>, blocks: Seq<BasicBlock>, from: int, depth: nat) -> Seq<
    BasicBlock,
>
    decreases depth, 1int, blocks.len() - from,
{
    if from >= blocks.len() {
        Seq::empty()
    } else {
        way_from(tree, order, blocks[from], depth) + ways_from(tree, order, blocks, from + 1, depth)
    }
}

pub open spec fn nothing_added() -> AddedV {
    AddedV { leaders: Seq::empty(), loads: Seq::empty(), calls: Seq::empty() }
}

/// Block `b` walked, and after it the blocks below it in the dominance tree, to depth `depth`.
pub open spec fn walked(
    a: ProgramV,
    p: ProgramV,
    plan: PlanV,
    tree: TreeV,
    order: Seq<BasicBlock>,
    st: WalkV,
    b: BasicBlock,
    depth: nat,
) -> (ProgramV, WalkV)
    decreases depth, 0int, 0int,
{
    if depth == 0 {
        (p, st)
    } else {
        let (q, next, added) = all_seen(
            a,
            p,
            plan,
            header_seen(a, tree, plan.way, st, b),
            p.block(b).params + p.block(b).insts,
            0,
            nothing_added(),
        );
        let (r, done) = all_walked(
            a,
            q,
            plan,
            tree,
            order,
            next,
            children_from(tree, order, b, 0, Seq::empty()),
            0,
            (depth - 1) as nat,
        );
        (r, left(done, added))
    }
}

/// The blocks `blocks[from..]` walked.
pub open spec fn all_walked(
    a: ProgramV,
    p: ProgramV,
    plan: PlanV,
    tree: TreeV,
    order: Seq<BasicBlock>,
    st: WalkV,
    blocks: Seq<BasicBlock>,
    from: int,
    depth: nat,
) -> (ProgramV, WalkV)
    decreases depth, 1int, blocks.len() - from,
{
    if from >= blocks.len() {
        (p, st)
    } else {
        let (q, next) = walked(a, p, plan, tree, order, st, blocks[from], depth);
        all_walked(a, q, plan, tree, order, next, blocks, from + 1, depth)
    }
}

/// Calls of which functions leave no trace but their result, from function `from` on behind `found`.
pub open spec fn pure_from(a: ProgramV, from: int, found: Seq<bool>) -> Seq<bool>
    decreases a.funcs.len() - from,
{
    if from >= a.funcs.len() {
        found
    } else {
        pure_from(a, from + 1, found.push(removable(a, Function(from as usize))))
    }
}

/// Which values are numbered by what they compute.
pub open spec fn scope_of() -> ScopeV {
    ScopeV { strict: false }
}

/// How function `f` of `a` is walked.
pub open spec fn plan_of(a: ProgramV, f: Function) -> PlanV {
    let order = reverse_postorder(a, f);
    PlanV {
        scope: scope_of(),
        fuel: a.insts.len(),
        way: way_from(tree_of(a, f), order, entry_of(a, f)->0, order.len()),
        pure_calls: pure_from(a, 0, Seq::empty()),
    }
}

pub open spec fn fresh_walk() -> WalkV {
    WalkV {
        numbers: NumbersV { by_inst: Map::empty(), keys: Seq::empty() },
        leaders: Map::empty(),
        loads: Map::empty(),
        calls: Seq::empty(),
        changed: false,
    }
}

/// Function `f` with the values that were computed before replaced.
pub open spec fn reduced(p: ProgramV, f: Function) -> (ProgramV, bool) {
    match entry_of(p, f) {
        None => (p, false),
        Some(entry) => {
            let order = reverse_postorder(p, f);
            let (q, st) = walked(p, p, plan_of(p, f), tree_of(p, f), order, fresh_walk(), entry, order.len());
            (q, st.changed)
        },
    }
}

/// The functions `layout[from..]` reduced.
pub open spec fn all_reduced(p: ProgramV, layout: Seq<Function>, from: int, changed: bool) -> (ProgramV, bool)
    decreases layout.len() - from,
{
    if from >= layout.len() {
        (p, changed)
    } else {
        let (q, here) = reduced(p, layout[from]);
        all_reduced(q, layout, from + 1, changed || here)
    }
}

struct Walk {
    numbers: Numbers,
    leaders: FxHashMap<usize, Inst>,
    loads: FxHashMap<usize, Inst>,
    calls: Vec<CallLeader>,
    changed: bool,
}

impl View for Walk {
    type V = WalkV;

    closed spec fn view(&self) -> WalkV {
        WalkV {
            numbers: self.numbers@,
            leaders: self.leaders@,
            loads: self.loads@,
            calls: self.calls@,
            changed: self.changed,
        }
    }
}

struct Added {
    leaders: Vec<usize>,
    loads: Vec<usize>,
    calls: Vec<usize>,
}

impl View for Added {
    type V = AddedV;

    closed spec fn view(&self) -> AddedV {
        AddedV { leaders: self.leaders@, loads: self.loads@, calls: self.calls@ }
    }
}

/// What is known of the program that the walk started on.
struct Facts {
    effects: Vec<Effects>,
    writers: Vec<Option<Writer>>,
    writes: Vec<Vec<Writer>>,
    scope: Scope,
    fuel: usize,
    tree: DomTree,
    order: Vec<BasicBlock>,
    way: Vec<BasicBlock>,
    pure_calls: Vec<bool>,
    program: Ghost<ProgramV>,
}

impl Facts {
    spec fn wf(&self) -> bool {
        &&& self.tree.wf()
        &&& self.effects@.len() == self.program@.funcs.len()
        &&& forall|k: int|
            0 <= k < self.effects@.len() ==> (#[trigger] self.effects@[k]).describes(
                self.program@,
                Function(k as usize),
            )
        &&& self.writers@.len() == self.program@.insts.len()
        &&& forall|k: int|
            0 <= k < self.writers@.len() ==> #[trigger] self.writers@[k] == writer_of(self.program@, Inst(k as usize))
        &&& self.writes@.len() == self.program@.blocks.len()
        &&& forall|k: int|
            0 <= k < self.writes@.len() ==> (#[trigger] self.writes@[k])@ == block_writers(
                self.program@,
                BasicBlock(k as usize),
            )
    }

    spec fn plan(&self) -> PlanV {
        PlanV { scope: self.scope@, fuel: self.fuel as nat, way: self.way@, pure_calls: self.pure_calls@ }
    }
}

fn has_number(v: &Vec<usize>, n: usize) -> (r: bool)
    ensures
        r == v@.contains(n),
{
    let mut i: usize = 0;
    while i < v.len()
        invariant
            i <= v@.len(),
            forall|k: int| 0 <= k < i ==> v@[k] != n,
        decreases v@.len() - i,
    {
        if v[i] == n {
            assert(v@[i as int] == n);
            return true;
        }
        i += 1;
    }
    false
}

fn overlap(reads: &Vec<MemObject>, writes: &Vec<MemObject>) -> (r: bool)
    ensures
        r == meets(reads@, writes@, 0),
{
    let mut k: usize = 0;
    while k < reads.len()
        invariant
            k <= reads@.len(),
            meets(reads@, writes@, 0) == meets(reads@, writes@, k as int),
        decreases reads@.len() - k,
    {
        if has_object(writes, reads[k]) {
            return true;
        }
        k += 1;
    }
    false
}

impl Facts {
    fn hit(&self, w: Writer, callee: Function) -> (r: bool)
        requires
            self.wf(),
        ensures
            r == hits(self.program@, w, callee),
    {
        if callee.0 >= self.effects.len() {
            return true;
        }
        let reads = &self.effects[callee.0].reads;
        assert(self.effects@[callee.0 as int].describes(self.program@, Function(callee.0 as int as usize)));
        if reads.len() == 0 {
            return false;
        }
        match w {
            Writer::Object(o) => o == MemObject::Unknown || has_object(reads, o) || has_object(reads, MemObject::Unknown),
            Writer::Call(g) => {
                if g.0 >= self.effects.len() {
                    return true;
                }
                let writes = &self.effects[g.0].writes;
                assert(self.effects@[g.0 as int].describes(self.program@, Function(g.0 as int as usize)));
                writes.len() > 0 && (has_object(reads, MemObject::Unknown) || has_object(writes, MemObject::Unknown)
                    || overlap(reads, writes))
            },
        }
    }

    fn writes(&self, g: Function) -> (r: bool)
        requires
            self.wf(),
        ensures
            r == writes_memory(self.program@, g),
    {
        if g.0 >= self.effects.len() {
            return true;
        }
        assert(self.effects@[g.0 as int].describes(self.program@, Function(g.0 as int as usize)));
        self.effects[g.0].writes.len() > 0
    }

    fn hit_by_any(&self, writers: &Vec<Writer>, callee: Function) -> (r: bool)
        requires
            self.wf(),
        ensures
            r == any_hits(self.program@, writers@, callee, 0),
    {
        let mut k: usize = 0;
        while k < writers.len()
            invariant
                k <= writers@.len(),
                self.wf(),
                any_hits(self.program@, writers@, callee, 0) == any_hits(self.program@, writers@, callee, k as int),
            decreases writers@.len() - k,
        {
            if self.hit(writers[k], callee) {
                return true;
            }
            k += 1;
        }
        false
    }

    /// Whether block `x` is reached and not before `b` on the way.
    fn is_behind(&self, x: BasicBlock, b: BasicBlock) -> (r: bool)
        requires
            self.wf(),
        ensures
            r == (self.tree@.contains(x) && position(self.way@, x, 0) >= position(self.way@, b, 0)),
    {
        self.tree.is_reached(x) && block_position(&self.way, x) >= block_position(&self.way, b)
    }

    fn heads(&self, b: BasicBlock, edges: &Vec<(usize, usize)>) -> (r: bool)
        requires
            self.wf(),
            edges@ == self.tree@.edges,
        ensures
            r == heads_loop(self.tree@, self.way@, b, 0),
    {
        let mut k: usize = 0;
        while k < edges.len()
            invariant
                k <= edges@.len(),
                self.wf(),
                edges@ == self.tree@.edges,
                heads_loop(self.tree@, self.way@, b, 0) == heads_loop(self.tree@, self.way@, b, k as int),
            decreases edges@.len() - k,
        {
            if edges[k].1 == b.0 && self.is_behind(BasicBlock(edges[k].0), b) {
                return true;
            }
            k += 1;
        }
        false
    }

    fn loop_hit(&self, b: BasicBlock, edges: &Vec<(usize, usize)>, callee: Function) -> (r: bool)
        requires
            self.wf(),
            edges@ == self.tree@.edges,
        ensures
            r == loop_hits(self.program@, self.tree@, self.way@, b, callee, 0),
    {
        let mut k: usize = 0;
        while k < edges.len()
            invariant
                k <= edges@.len(),
                self.wf(),
                edges@ == self.tree@.edges,
                loop_hits(self.program@, self.tree@, self.way@, b, callee, 0) == loop_hits(
                    self.program@,
                    self.tree@,
                    self.way@,
                    b,
                    callee,
                    k as int,
                ),
            decreases edges@.len() - k,
        {
            let x = BasicBlock(edges[k].0);
            if x.0 < self.writes.len() && self.is_behind(x, b) && self.tree.flows(BasicBlock(edges[k].1), b) {
                assert(self.writes@[x.0 as int]@ == block_writers(self.program@, BasicBlock(x.0 as int as usize)));
                if self.hit_by_any(&self.writes[x.0], callee) {
                    return true;
                }
            } else {
                proof {
                    if x.0 >= self.writes@.len() {
                        lemma_no_writers(self.program@, x);
                    }
                }
            }
            k += 1;
        }
        false
    }
}

fn child_list(tree: &DomTree, order: &Vec<BasicBlock>, b: BasicBlock) -> (r: Vec<BasicBlock>)
    requires
        tree.wf(),
    ensures
        r@ == children_from(tree@, order@, b, 0, Seq::empty()),
{
    let mut r: Vec<BasicBlock> = Vec::new();
    assert(r@ =~= Seq::empty());
    let mut k: usize = 0;
    while k < order.len()
        invariant
            k <= order@.len(),
            tree.wf(),
            children_from(tree@, order@, b, 0, Seq::empty()) == children_from(tree@, order@, b, k as int, r@),
        decreases order@.len() - k,
    {
        if is_immediate(tree, order, b, order[k]) {
            r.push(order[k]);
        }
        k += 1;
    }
    r
}

impl Walk {
    fn spare(&mut self, facts: &Facts, w: Writer)
        requires
            facts.wf(),
        ensures
            final(self)@ == (WalkV {
                calls: spared(facts.program@, w, old(self)@.calls, 0, Seq::empty()),
                ..old(self)@
            }),
    {
        let mut kept: Vec<CallLeader> = Vec::new();
        assert(kept@ =~= Seq::empty());
        let mut k: usize = 0;
        while k < self.calls.len()
            invariant
                k <= self.calls@.len(),
                facts.wf(),
                self@ == old(self)@,
                spared(facts.program@, w, self.calls@, 0, Seq::empty()) == spared(
                    facts.program@,
                    w,
                    self.calls@,
                    k as int,
                    kept@,
                ),
            decreases self.calls@.len() - k,
        {
            if !facts.hit(w, self.calls[k].callee) {
                kept.push(self.calls[k]);
            }
            k += 1;
        }
        self.calls = kept;
    }

    fn see_write(&mut self, facts: &Facts, w: Writer)
        requires
            facts.wf(),
        ensures
            final(self)@ == write_seen(facts.program@, old(self)@, w),
    {
        let spared = match w {
            Writer::Object(_) => false,
            Writer::Call(g) => !facts.writes(g),
        };
        if !spared {
            self.loads = fx_empty();
        }
        self.spare(facts, w);
    }

    fn see_header(&mut self, facts: &Facts, b: BasicBlock)
        requires
            facts.wf(),
        ensures
            final(self)@ == header_seen(facts.program@, facts.tree@, facts.way@, old(self)@, b),
    {
        let edges = facts.tree.edge_list();
        if !facts.heads(b, &edges) {
            return;
        }
        let mut kept: Vec<CallLeader> = Vec::new();
        assert(kept@ =~= Seq::empty());
        let mut k: usize = 0;
        while k < self.calls.len()
            invariant
                k <= self.calls@.len(),
                facts.wf(),
                edges@ == facts.tree@.edges,
                self@ == old(self)@,
                loop_spared(facts.program@, facts.tree@, facts.way@, b, self.calls@, 0, Seq::empty()) == loop_spared(
                    facts.program@,
                    facts.tree@,
                    facts.way@,
                    b,
                    self.calls@,
                    k as int,
                    kept@,
                ),
            decreases self.calls@.len() - k,
        {
            if !facts.loop_hit(b, &edges, self.calls[k].callee) {
                kept.push(self.calls[k]);
            }
            k += 1;
        }
        self.calls = kept;
        self.loads = fx_empty();
    }

    fn lead(&mut self, data: &mut Program, v: Inst, leader: Inst)
        ensures
            (final(data)@, final(self)@) == led(old(data)@, old(self)@, v, leader),
    {
        if v != leader && data.is_used(v) {
            data.replace_uses(v, leader);
            self.changed = true;
        }
    }

    fn see_memory(&mut self, facts: &Facts, v: Inst)
        requires
            facts.wf(),
        ensures
            final(self)@ == memory_seen(facts.program@, old(self)@, v),
    {
        if v.0 < facts.writers.len() {
            assert(facts.writers@[v.0 as int] == writer_of(facts.program@, Inst(v.0 as int as usize)));
            if let Some(w) = facts.writers[v.0] {
                self.see_write(facts, w);
            }
        }
    }

    fn see_load(&mut self, facts: &Facts, data: &mut Program, v: Inst, added: &mut Added)
        ensures
            (final(data)@, final(self)@, final(added)@) == load_seen(
                old(data)@,
                facts.plan(),
                old(self)@,
                v,
                old(added)@,
            ),
    {
        let addr = data.arg(v, 0);
        match fx_get(&self.loads, addr.0) {
            Some(leader) => {
                self.lead(data, v, leader);
                self.numbers.number(data, &facts.scope, v, facts.fuel);
            },
            None => {
                self.numbers.number(data, &facts.scope, v, facts.fuel);
                fx_insert(&mut self.loads, addr.0, v);
                added.loads.push(addr.0);
            },
        }
    }

    fn leading_call(&self, n: usize, g: Function) -> (r: Option<Inst>)
        ensures
            r == call_leader(self@.calls, n, g, 0),
    {
        let mut k: usize = 0;
        while k < self.calls.len()
            invariant
                k <= self.calls@.len(),
                call_leader(self@.calls, n, g, 0) == call_leader(self@.calls, n, g, k as int),
            decreases self.calls@.len() - k,
        {
            if self.calls[k].number == n && self.calls[k].callee == g {
                return Some(self.calls[k].leader);
            }
            k += 1;
        }
        None
    }

    fn see_value(&mut self, facts: &Facts, data: &mut Program, v: Inst, added: &mut Added)
        ensures
            (final(data)@, final(self)@, final(added)@) == value_seen(
                old(data)@,
                facts.plan(),
                old(self)@,
                v,
                old(added)@,
            ),
    {
        match data.op(v) {
            Op::Call(g) => {
                if g.0 < facts.pure_calls.len() && facts.pure_calls[g.0] {
                    let n: usize = self.numbers.number_call(data, &facts.scope, v, facts.fuel);
                    self.numbers.number(data, &facts.scope, v, facts.fuel);
                    match self.leading_call(n, g) {
                        Some(leader) => {
                            self.lead(data, v, leader);
                        },
                        None => {
                            self.calls.push(CallLeader { number: n, leader: v, callee: g });
                            added.calls.push(n);
                        },
                    }
                } else {
                    self.numbers.number(data, &facts.scope, v, facts.fuel);
                }
            },
            _ => {
                let n: usize = self.numbers.number(data, &facts.scope, v, facts.fuel);
                if !is_expressible(data, &facts.scope, v) {
                    return;
                }
                match fx_get(&self.leaders, n) {
                    Some(leader) => {
                        self.lead(data, v, leader);
                    },
                    None => {
                        fx_insert(&mut self.leaders, n, v);
                        added.leaders.push(n);
                    },
                }
            },
        }
    }

    fn see(&mut self, facts: &Facts, data: &mut Program, v: Inst, added: &mut Added)
        requires
            facts.wf(),
        ensures
            (final(data)@, final(self)@, final(added)@) == seen(
                facts.program@,
                old(data)@,
                facts.plan(),
                old(self)@,
                v,
                old(added)@,
            ),
    {
        match data.op(v) {
            Op::Load => {
                self.see_load(facts, data, v, added);
            },
            _ => {
                self.see_memory(facts, v);
                self.see_value(facts, data, v, added);
            },
        }
    }

    fn leave(&mut self, added: &Added)
        ensures
            final(self)@ == left(old(self)@, added@),
    {
        let ghost before = self@;
        drop_keys(&mut self.leaders, &added.leaders);
        drop_keys(&mut self.loads, &added.loads);
        let mut kept: Vec<CallLeader> = Vec::new();
        assert(kept@ =~= Seq::empty());
        let mut k: usize = 0;
        while k < self.calls.len()
            invariant
                k <= self.calls@.len(),
                self.calls@ == before.calls,
                self.numbers@ == before.numbers,
                self.changed == before.changed,
                self.leaders@ == keys_dropped(before.leaders, added@.leaders, 0),
                self.loads@ == keys_dropped(before.loads, added@.loads, 0),
                calls_dropped(self.calls@, added@.calls, 0, Seq::empty()) == calls_dropped(
                    self.calls@,
                    added@.calls,
                    k as int,
                    kept@,
                ),
            decreases self.calls@.len() - k,
        {
            if !has_number(&added.calls, self.calls[k].number) {
                kept.push(self.calls[k]);
            }
            k += 1;
        }
        self.calls = kept;
    }

    fn walk(&mut self, facts: &Facts, data: &mut Program, b: BasicBlock, depth: usize)
        requires
            facts.wf(),
        ensures
            (final(data)@, final(self)@) == walked(
                facts.program@,
                old(data)@,
                facts.plan(),
                facts.tree@,
                facts.order@,
                old(self)@,
                b,
                depth as nat,
            ),
        decreases depth, 0int, 0int,
    {
        if depth == 0 {
            return;
        }
        self.see_header(facts, b);
        let mut values = data.block_params(b);
        let mut insts = data.block_insts(b);
        values.append(&mut insts);
        let mut added = Added { leaders: Vec::new(), loads: Vec::new(), calls: Vec::new() };
        assert(added@ =~= nothing_added());
        let ghost start = (data@, self@);
        let mut k: usize = 0;
        while k < values.len()
            invariant
                k <= values@.len(),
                facts.wf(),
                all_seen(facts.program@, start.0, facts.plan(), start.1, values@, 0, nothing_added()) == all_seen(
                    facts.program@,
                    data@,
                    facts.plan(),
                    self@,
                    values@,
                    k as int,
                    added@,
                ),
            decreases values@.len() - k,
        {
            self.see(facts, data, values[k], &mut added);
            k += 1;
        }
        let children = child_list(&facts.tree, &facts.order, b);
        self.walk_all(facts, data, &children, depth - 1);
        self.leave(&added);
    }

    fn walk_all(&mut self, facts: &Facts, data: &mut Program, blocks: &Vec<BasicBlock>, depth: usize)
        requires
            facts.wf(),
        ensures
            (final(data)@, final(self)@) == all_walked(
                facts.program@,
                old(data)@,
                facts.plan(),
                facts.tree@,
                facts.order@,
                old(self)@,
                blocks@,
                0,
                depth as nat,
            ),
        decreases depth, 1int, blocks@.len(),
    {
        let ghost start = (data@, self@);
        let mut k: usize = 0;
        while k < blocks.len()
            invariant
                k <= blocks@.len(),
                facts.wf(),
                all_walked(
                    facts.program@,
                    start.0,
                    facts.plan(),
                    facts.tree@,
                    facts.order@,
                    start.1,
                    blocks@,
                    0,
                    depth as nat,
                ) == all_walked(
                    facts.program@,
                    data@,
                    facts.plan(),
                    facts.tree@,
                    facts.order@,
                    self@,
                    blocks@,
                    k as int,
                    depth as nat,
                ),
            decreases blocks@.len() - k,
        {
            self.walk(facts, data, blocks[k], depth);
            k += 1;
        }
    }
}

fn drop_keys(m: &mut FxHashMap<usize, Inst>, keys: &Vec<usize>)
    ensures
        final(m)@ == keys_dropped(old(m)@, keys@, 0),
{
    let mut k: usize = 0;
    while k < keys.len()
        invariant
            k <= keys@.len(),
            keys_dropped(old(m)@, keys@, 0) == keys_dropped(m@, keys@, k as int),
        decreases keys@.len() - k,
    {
        fx_remove(m, keys[k]);
        k += 1;
    }
}

/// A block that is not there writes nothing.
proof fn lemma_no_writers(a: ProgramV, b: BasicBlock)
    requires
        b.0 >= a.blocks.len(),
    ensures
        block_writers(a, b) == Seq::<Writer>::empty(),
{
    assert((a.block(b).params + a.block(b).insts).len() == 0);
}

fn all_writers(data: &Program) -> (r: Vec<Option<Writer>>)
    ensures
        r@.len() == data@.insts.len(),
        forall|k: int| 0 <= k < r@.len() ==> #[trigger] r@[k] == writer_of(data@, Inst(k as usize)),
{
    let n: usize = data.num_insts();
    let mut r: Vec<Option<Writer>> = Vec::new();
    let mut k: usize = 0;
    while k < n
        invariant
            k <= n,
            n == data@.insts.len(),
            r@.len() == k,
            forall|j: int| 0 <= j < k ==> #[trigger] r@[j] == writer_of(data@, Inst(j as usize)),
        decreases n - k,
    {
        let v = Inst(k);
        let w: Option<Writer> = match data.op(v) {
            Op::Store => Some(Writer::Object(base_of(data, data.arg(v, 1)))),
            Op::MemZero(_) | Op::MemZeroDyn => Some(Writer::Object(base_of(data, data.arg(v, 0)))),
            Op::Call(g) => Some(Writer::Call(g)),
            _ => None,
        };
        r.push(w);
        k += 1;
    }
    r
}

fn all_block_writers(data: &Program, writers: &Vec<Option<Writer>>) -> (r: Vec<Vec<Writer>>)
    requires
        writers@.len() == data@.insts.len(),
        forall|k: int| 0 <= k < writers@.len() ==> #[trigger] writers@[k] == writer_of(data@, Inst(k as usize)),
    ensures
        r@.len() == data@.blocks.len(),
        forall|k: int| 0 <= k < r@.len() ==> (#[trigger] r@[k])@ == block_writers(data@, BasicBlock(k as usize)),
{
    let n: usize = data.num_blocks();
    let mut r: Vec<Vec<Writer>> = Vec::new();
    let mut k: usize = 0;
    while k < n
        invariant
            k <= n,
            n == data@.blocks.len(),
            writers@.len() == data@.insts.len(),
            forall|j: int| 0 <= j < writers@.len() ==> #[trigger] writers@[j] == writer_of(data@, Inst(j as usize)),
            r@.len() == k,
            forall|j: int| 0 <= j < k ==> (#[trigger] r@[j])@ == block_writers(data@, BasicBlock(j as usize)),
        decreases n - k,
    {
        let b = BasicBlock(k);
        let mut values = data.block_params(b);
        let mut insts = data.block_insts(b);
        values.append(&mut insts);
        let mut found: Vec<Writer> = Vec::new();
        assert(found@ =~= Seq::empty());
        let mut j: usize = 0;
        while j < values.len()
            invariant
                j <= values@.len(),
                writers@.len() == data@.insts.len(),
                forall|i: int| 0 <= i < writers@.len() ==> #[trigger] writers@[i] == writer_of(data@, Inst(i as usize)),
                writers_in(data@, values@, 0, Seq::empty()) == writers_in(data@, values@, j as int, found@),
            decreases values@.len() - j,
        {
            let v = values[j];
            if v.0 < writers.len() {
                assert(writers@[v.0 as int] == writer_of(data@, Inst(v.0 as int as usize)));
                if let Some(w) = writers[v.0] {
                    found.push(w);
                }
            }
            j += 1;
        }
        r.push(found);
        k += 1;
    }
    r
}

fn walk_order(tree: &DomTree, order: &Vec<BasicBlock>, b: BasicBlock, depth: usize) -> (r: Vec<BasicBlock>)
    requires
        tree.wf(),
    ensures
        r@ == way_from(tree@, order@, b, depth as nat),
    decreases depth,
{
    let mut r: Vec<BasicBlock> = Vec::new();
    if depth == 0 {
        assert(r@ =~= Seq::empty());
        return r;
    }
    r.push(b);
    let children = child_list(tree, order, b);
    let mut k: usize = 0;
    assert(r@ =~= seq![b]);
    while k < children.len()
        invariant
            k <= children@.len(),
            tree.wf(),
            0 < depth,
            r@ + ways_from(tree@, order@, children@, k as int, (depth - 1) as nat) == seq![b] + ways_from(
                tree@,
                order@,
                children@,
                0,
                (depth - 1) as nat,
            ),
        decreases children@.len() - k,
    {
        let mut below = walk_order(tree, order, children[k], depth - 1);
        let ghost before = r@;
        let ghost more = below@;
        r.append(&mut below);
        assert(r@ + ways_from(tree@, order@, children@, k + 1, (depth - 1) as nat) =~= before + (more + ways_from(
            tree@,
            order@,
            children@,
            k + 1,
            (depth - 1) as nat,
        )));
        k += 1;
    }
    assert(r@ + ways_from(tree@, order@, children@, k as int, (depth - 1) as nat) =~= r@);
    r
}

impl GlobalInstNumbering {
    /// Replaces in every function the values that were computed before. True when anything changed.
    pub fn run(&mut self, program: &mut Program) -> (changed: bool)
        ensures
            (final(program)@, changed) == all_reduced(old(program)@, old(program)@.layout, 0, false),
    {
        let layout = program.function_layout();
        let mut changed = false;
        let mut k: usize = 0;
        while k < layout.len()
            invariant
                k <= layout@.len(),
                all_reduced(old(program)@, layout@, 0, false) == all_reduced(program@, layout@, k as int, changed),
            decreases layout@.len() - k,
        {
            let here = self.run_on(program, layout[k]);
            changed = changed || here;
            k += 1;
        }
        changed
    }

    /// Replaces the values of `f` that were computed before by the earlier ones. True when anything
    /// changed.
    pub fn run_on(&mut self, data: &mut Program, f: Function) -> (changed: bool)
        ensures
            (final(data)@, changed) == reduced(old(data)@, f),
    {
        let tree = match DomTree::new(data, f) {
            None => {
                return false;
            },
            Some(t) => t,
        };
        let order = rpo_path(data, f);
        let n: usize = data.num_funcs();
        let mut effects: Vec<Effects> = Vec::new();
        let mut pure_calls: Vec<bool> = Vec::new();
        assert(pure_calls@ =~= Seq::empty());
        let mut k: usize = 0;
        while k < n
            invariant
                k <= n,
                n == data@.funcs.len(),
                data@ == old(data)@,
                effects@.len() == k,
                forall|j: int|
                    0 <= j < k ==> (#[trigger] effects@[j]).describes(data@, Function(j as usize)),
                pure_from(data@, 0, Seq::empty()) == pure_from(data@, k as int, pure_calls@),
            decreases n - k,
        {
            let e = effects_of(data, Function(k));
            pure_calls.push(e.is_removable());
            effects.push(e);
            k += 1;
        }
        let entry = tree.entry_block();
        let fuel: usize = data.num_insts();
        let depth: usize = order.len();
        let writers = all_writers(data);
        let writes = all_block_writers(data, &writers);
        let way = walk_order(&tree, &order, entry, depth);
        let facts = Facts {
            effects,
            writers,
            writes,
            scope: Scope { strict: false },
            fuel,
            tree,
            order,
            way,
            pure_calls,
            program: Ghost(data@),
        };
        let mut walk = Walk {
            numbers: Numbers::new(),
            leaders: fx_empty(),
            loads: fx_empty(),
            calls: Vec::new(),
            changed: false,
        };
        assert(walk@ =~= fresh_walk());
        walk.walk(&facts, data, entry, depth);
        walk.changed
    }
}

} // verus!
