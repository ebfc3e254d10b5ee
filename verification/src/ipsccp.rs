//! Interprocedural sparse conditional constant propagation.

use vstd::prelude::*;

use crate::arith::{defined, fold_int, int_op};
use crate::dce::{get_main_function, main_of};
use crate::ir::{inst_position, position, BasicBlock, BinaryOp, Function, Inst, Op, ProgramV, Type};
use crate::lattice::{cell_of, resolve_cell, Lattice, RootKey};
use crate::mem_state::{
    call_cleared, clear_noted, end_of, extend_nodes, loads_of, roots_cleared, value_read, write_blurred, written, zeroed,
    MemState, MemV,
};
use crate::program::Program;
use crate::program_order::{Node, OrderInfo};

verus! {

pub struct IPSCCP;

/// Folds an integer operation.
pub fn mathematic_operation(op: BinaryOp, lhs: i32, rhs: i32) -> (r: i32)
    requires
        defined(op, rhs),
    ensures
        r == int_op(op, lhs, rhs),
{
    fold_int(op, lhs, rhs)
}

/// The integer that a single-precision literal with these bits truncates to; `None` for values that
/// are not finite or do not fit.
pub open spec fn truncated(bits: u32) -> Option<i32> {
    let e = (bits >> 23) & 0xff;
    let negative = (bits >> 31) == 1;
    let m = ((bits & 0x7f_ffff) | 0x80_0000) as u64;
    if e < 127 {
        Some(0)
    } else if e < 158 {
        let mag = (m << (e - 127) as u64) >> 23;
        if negative {
            Some((-(mag as int)) as i32)
        } else {
            Some(mag as i32)
        }
    } else if bits == 0xcf00_0000 {
        Some(i32::MIN)
    } else {
        None
    }
}

/// Truncates a single-precision literal given by its bits.
pub fn fold_float_bits(bits: u32) -> (r: Option<i32>)
    ensures
        r == truncated(bits),
{
    let e: u32 = (bits >> 23) & 0xff;
    let m: u64 = ((bits & 0x7f_ffff) | 0x80_0000) as u64;
    if e < 127 {
        return Some(0);
    }
    if e < 158 {
        let s: u64 = (e - 127) as u64;
        assert((((bits & 0x7f_ffff) | 0x80_0000) as u64) < 0x100_0000) by (bit_vector);
        assert((m << s) >> 23 <= 0x7fff_ffff) by (bit_vector)
            requires
                m < 0x100_0000,
                s <= 30,
        ;
        let mag: u64 = (m << s) >> 23;
        if (bits >> 31) == 1 {
            Some((-(mag as i64)) as i32)
        } else {
            Some(mag as i32)
        }
    } else if bits == 0xcf00_0000 {
        Some(i32::MIN)
    } else {
        None
    }
}

/// The propagation as a value: what is known of values and memory, what is still to be visited, and
/// what was visited.
#[verifier::ext_equal]
pub struct StateV {
    pub lat: Seq<Lattice>,
    pub mem: MemV,
    pub nodes: Seq<Node>,
    pub edges: Seq<(Node, Node)>,
    pub edge_seen: Seq<(Node, Node)>,
    pub node_seen: Seq<Node>,
    pub block_seen: Seq<(Function, BasicBlock)>,
    pub relay: Seq<Node>,
    pub again: Seq<Node>,
}

pub struct Solver {
    pub lat: Vec<Lattice>,
    pub mem: MemState,
    pub nodes: Vec<Node>,
    pub edges: Vec<(Node, Node)>,
    pub edge_seen: Vec<(Node, Node)>,
    pub node_seen: Vec<Node>,
    pub block_seen: Vec<(Function, BasicBlock)>,
    pub relay: Vec<Node>,
    pub again: Vec<Node>,
}

impl View for Solver {
    type V = StateV;

    open spec fn view(&self) -> StateV {
        StateV {
            lat: self.lat@,
            mem: self.mem@,
            nodes: self.nodes@,
            edges: self.edges@,
            edge_seen: self.edge_seen@,
            node_seen: self.node_seen@,
            block_seen: self.block_seen@,
            relay: self.relay@,
            again: self.again@,
        }
    }
}

/// What is known of `i`.
pub open spec fn known(lat: Seq<Lattice>, i: Inst) -> Lattice {
    if i.0 < lat.len() {
        lat[i.0 as int]
    } else {
        Lattice::Top
    }
}

/// Those of `users[..upto]` that stand in a visited block of `f`, the last one first, behind `found`.
pub open spec fn affected_among(
    p: ProgramV,
    seen: Seq<(Function, BasicBlock)>,
    f: Function,
    users: Seq<Inst>,
    upto: int,
    found: Seq<Node>,
) -> Seq<Node>
    decreases upto,
{
    if upto <= 0 {
        found
    } else {
        let u = users[upto - 1];
        match p.parent_bb(f, u) {
            Some(b) => if seen.contains((f, b)) {
                affected_among(p, seen, f, users, upto - 1, found.push(Node { func: f, inst: u }))
            } else {
                affected_among(p, seen, f, users, upto - 1, found)
            },
            None => affected_among(p, seen, f, users, upto - 1, found),
        }
    }
}

/// The visited users of `n`.
///
/// A load is visited before a store that was made earlier, so that a branch on what memory held before
/// the store counts both ways.
pub open spec fn affected(p: ProgramV, seen: Seq<(Function, BasicBlock)>, n: Node) -> Seq<Node> {
    affected_among(p, seen, n.func, p.users(n.inst), p.users(n.inst).len() as int, Seq::empty())
}

/// Meeting `v` into what is known of `n` changes it.
pub open spec fn lowers(st: StateV, n: Node, v: Lattice) -> bool {
    n.inst.0 < st.lat.len() && st.lat[n.inst.0 as int].meet(v) != st.lat[n.inst.0 as int]
}

/// `v` met into what is known of `n`; its users are visited again when that changes it.
pub open spec fn lowered(p: ProgramV, st: StateV, n: Node, v: Lattice) -> StateV {
    if lowers(st, n, v) {
        StateV {
            lat: st.lat.update(n.inst.0 as int, st.lat[n.inst.0 as int].meet(v)),
            nodes: st.nodes + affected(p, st.block_seen, n),
            ..st
        }
    } else {
        st
    }
}

/// What is known of `n` replaced by `v`; its users are visited again when that changes it.
pub open spec fn replaced(p: ProgramV, st: StateV, n: Node, v: Lattice) -> StateV {
    if n.inst.0 < st.lat.len() && st.lat[n.inst.0 as int] != v {
        StateV {
            lat: st.lat.update(n.inst.0 as int, v),
            nodes: st.nodes + affected(p, st.block_seen, n),
            ..st
        }
    } else {
        st
    }
}

/// Arguments `args[from..]` passed to the parameters of `callee`.
pub open spec fn passed(p: ProgramV, st: StateV, args: Seq<Inst>, callee: Function, params: Seq<Inst>, from: int) -> StateV
    decreases args.len() - from,
{
    if from >= args.len() || from >= params.len() {
        st
    } else {
        passed(
            p,
            lowered(p, st, Node { func: callee, inst: params[from] }, known(st.lat, args[from])),
            args,
            callee,
            params,
            from + 1,
        )
    }
}

/// Calls of `f` among `insts[from..]` of `g`, behind `found`.
pub open spec fn sites_in(p: ProgramV, g: Function, insts: Seq<Inst>, f: Function, from: int, found: Seq<Node>) -> Seq<Node>
    decreases insts.len() - from,
{
    if from >= insts.len() {
        found
    } else if p.op(insts[from]) == Op::Call(f) || p.op(insts[from]) == Op::TailCall(f) {
        sites_in(p, g, insts, f, from + 1, found.push(Node { func: g, inst: insts[from] }))
    } else {
        sites_in(p, g, insts, f, from + 1, found)
    }
}

/// Calls of `f` in functions `layout[from..]`, behind `found`.
pub open spec fn sites_from(p: ProgramV, layout: Seq<Function>, f: Function, from: int, found: Seq<Node>) -> Seq<Node>
    decreases layout.len() - from,
{
    if from >= layout.len() {
        found
    } else {
        sites_from(p, layout, f, from + 1, sites_in(p, layout[from], p.placed(layout[from]), f, 0, found))
    }
}

/// All calls of `f`.
pub open spec fn sites(p: ProgramV, f: Function) -> Seq<Node> {
    sites_from(p, p.layout, f, 0, Seq::empty())
}

/// `v` returned to the calls `calls[from..]`; a tail call that changes passes it on later.
pub open spec fn returned(p: ProgramV, st: StateV, calls: Seq<Node>, v: Lattice, from: int) -> StateV
    decreases calls.len() - from,
{
    if from >= calls.len() {
        st
    } else {
        let c = calls[from];
        let next = lowered(p, st, c, v);
        let again = if lowers(st, c, v) && p.op(c.inst) is TailCall {
            StateV { relay: next.relay.push(c), ..next }
        } else {
            next
        };
        returned(p, again, calls, v, from + 1)
    }
}

/// What a binary operation gives for operands of which `a` and `b` are known.
pub open spec fn binary_value(op: BinaryOp, a: Lattice, b: Lattice) -> Lattice {
    match (a, b) {
        (Lattice::Bottom, _) => Lattice::Bottom,
        (_, Lattice::Bottom) => Lattice::Bottom,
        (Lattice::Constant(x), Lattice::Constant(y)) => if defined(op, y) {
            Lattice::Constant(int_op(op, x, y))
        } else {
            Lattice::Bottom
        },
        _ => Lattice::Top,
    }
}

/// What a select gives.
pub open spec fn select_value(c: Lattice, a: Lattice, b: Lattice) -> Lattice {
    match c {
        Lattice::Top => Lattice::Top,
        Lattice::Constant(k) => if k != 0 {
            a
        } else {
            b
        },
        Lattice::Bottom => a.meet(b),
    }
}

/// What a cast gives.
pub open spec fn cast_value(p: ProgramV, i: Inst) -> Lattice {
    match (p.ty(i), p.op(p.arg(i, 0))) {
        (Type::I32, Op::Float(bits)) => match truncated(bits) {
            Some(k) => Lattice::Constant(k),
            None => Lattice::Bottom,
        },
        _ => Lattice::Bottom,
    }
}

/// The first instruction of block `b`.
pub open spec fn first_of(p: ProgramV, b: BasicBlock) -> Option<Inst> {
    if p.block(b).insts.len() > 0 {
        Some(p.block(b).insts[0])
    } else {
        None
    }
}

/// The instruction behind `i` in its block of `f`.
pub open spec fn next_of(p: ProgramV, f: Function, i: Inst) -> Option<Inst> {
    match p.parent_bb(f, i) {
        Some(b) => {
            let k = position(p.block(b).insts, i, 0) + 1;
            if 0 <= k < p.block(b).insts.len() {
                Some(p.block(b).insts[k])
            } else {
                None
            }
        },
        None => None,
    }
}

/// The first instruction of `f`.
pub open spec fn start_of(p: ProgramV, f: Function) -> Option<Inst> {
    if p.func(f).blocks.len() > 0 {
        first_of(p, p.func(f).blocks[0])
    } else {
        None
    }
}

/// The edge from `n` to `i` of `f` taken, where it is new.
pub open spec fn edge_taken(st: StateV, n: Node, f: Function, i: Option<Inst>) -> StateV {
    match i {
        None => st,
        Some(x) => {
            let e = (n, Node { func: f, inst: x });
            if st.edge_seen.contains(e) {
                st
            } else {
                StateV { edge_seen: st.edge_seen.push(e), edges: st.edges.push(e), ..st }
            }
        },
    }
}

/// Memory written through an address that is not resolved.
pub open spec fn blurred(p: ProgramV, st: StateV, f: Function, addr: Inst) -> StateV {
    let (mem, again) = write_blurred(p, st.mem, f, addr, st.again);
    StateV { mem, again, ..st }
}

/// Store `n` visited.
pub open spec fn store_visited(p: ProgramV, st: StateV, n: Node) -> StateV {
    match cell_of(p, n.func, p.arg(n.inst, 1)) {
        Some((key, root)) => {
            let (mem, changed) = written(st.mem, key, n, known(st.lat, p.arg(n.inst, 0)));
            let again = if changed {
                st.again + loads_of(mem.loaders, root, 0, Seq::empty())
            } else {
                st.again
            };
            StateV { mem, again, ..st }
        },
        None => blurred(p, st, n.func, p.arg(n.inst, 1)),
    }
}

/// Clearing `n` of `len` bytes visited; `None` for a length that is not constant.
pub open spec fn clear_visited(p: ProgramV, st: StateV, n: Node, len: Option<usize>) -> StateV {
    match (cell_of(p, n.func, p.arg(n.inst, 0)), len) {
        (Some((key, root)), Some(len)) => {
            let (wider, grown) = zeroed(st.mem, root, key.at(), end_of(key.at(), len as int));
            let (mem, new) = clear_noted(wider, root, key.at(), end_of(key.at(), len as int), n);
            let again = if grown || new {
                st.again + loads_of(mem.loaders, root, 0, Seq::empty())
            } else {
                st.again
            };
            StateV { mem, again, ..st }
        },
        (Some((_, root)), None) => {
            let (mem, again) = roots_cleared(st.mem, seq![root], 0, st.again);
            StateV { mem, again, ..st }
        },
        (None, _) => blurred(p, st, n.func, p.arg(n.inst, 0)),
    }
}

/// Load `n` visited.
pub open spec fn load_visited(p: ProgramV, st: StateV, n: Node) -> StateV {
    match cell_of(p, n.func, p.arg(n.inst, 0)) {
        Some((key, root)) => if p.ty(n.inst) is I32 {
            let next = replaced(p, st, n, value_read(p, st.mem, key, n));
            if next.mem.loaders.contains((root, n)) {
                next
            } else {
                StateV { mem: MemV { loaders: next.mem.loaders.push((root, n)), ..next.mem }, ..next }
            }
        } else {
            lowered(p, st, n, Lattice::Bottom)
        },
        None => lowered(p, st, n, Lattice::Bottom),
    }
}

/// Memory after `n` called `g`.
pub open spec fn call_forgotten(p: ProgramV, st: StateV, n: Node, g: Function) -> StateV {
    let (mem, again) = call_cleared(p, st.mem, g, n.func, st.again);
    StateV { mem, again, ..st }
}

/// Call `n` of `g` visited.
pub open spec fn call_visited(p: ProgramV, st: StateV, n: Node, g: Function) -> StateV {
    let next = if p.func(g).blocks.len() == 0 {
        lowered(p, st, n, Lattice::Bottom)
    } else {
        passed(p, st, p.args(n.inst), g, p.func(g).params, 0)
    };
    call_forgotten(p, next, n, g)
}

/// Tail call `n` of `g` visited: what it gives goes to the callers of its function.
pub open spec fn tail_call_visited(p: ProgramV, st: StateV, n: Node, g: Function) -> StateV {
    let next = if p.func(g).blocks.len() == 0 {
        st
    } else {
        passed(p, st, p.args(n.inst), g, p.func(g).params, 0)
    };
    call_forgotten(p, returned(p, next, sites(p, n.func), known(next.lat, n.inst), 0), n, g)
}

/// Branch `n` visited: arguments go along the edges that may be taken.
pub open spec fn branch_visited(p: ProgramV, st: StateV, n: Node, t: BasicBlock, f: BasicBlock) -> StateV {
    match known(st.lat, p.arg(n.inst, 0)) {
        Lattice::Top => st,
        Lattice::Constant(c) => if c != 0 {
            passed(p, st, p.t_args(n.inst), n.func, p.block(t).params, 0)
        } else {
            passed(p, st, p.f_args(n.inst), n.func, p.block(f).params, 0)
        },
        Lattice::Bottom => passed(
            p,
            passed(p, st, p.t_args(n.inst), n.func, p.block(t).params, 0),
            p.f_args(n.inst),
            n.func,
            p.block(f).params,
            0,
        ),
    }
}

/// What visiting `n` does to what is known.
pub open spec fn transferred(p: ProgramV, st: StateV, n: Node) -> StateV {
    let i = n.inst;
    match p.op(i) {
        Op::GetElemPtr => lowered(p, st, n, Lattice::Bottom),
        Op::Alloc => lowered(p, st, n, Lattice::Bottom),
        Op::Fma => lowered(p, st, n, Lattice::Bottom),
        Op::VectorOp => lowered(p, st, n, Lattice::Bottom),
        Op::Load => load_visited(p, st, n),
        Op::Binary(op) => lowered(
            p,
            st,
            n,
            binary_value(op, known(st.lat, p.arg(i, 0)), known(st.lat, p.arg(i, 1))),
        ),
        Op::Select => lowered(
            p,
            st,
            n,
            select_value(known(st.lat, p.arg(i, 0)), known(st.lat, p.arg(i, 1)), known(st.lat, p.arg(i, 2))),
        ),
        Op::Cast => lowered(p, st, n, cast_value(p, i)),
        Op::Jump(t) => passed(p, st, p.args(i), n.func, p.block(t).params, 0),
        Op::Branch(t, f, _) => branch_visited(p, st, n, t, f),
        Op::Store => store_visited(p, st, n),
        Op::MemZero(len) => clear_visited(p, st, n, Some(len)),
        Op::MemZeroDyn => clear_visited(p, st, n, None),
        Op::Call(g) => call_visited(p, st, n, g),
        Op::TailCall(g) => tail_call_visited(p, st, n, g),
        Op::Return => if p.args(i).len() > 0 {
            returned(p, st, sites(p, n.func), known(st.lat, p.arg(i, 0)), 0)
        } else {
            st
        },
        _ => st,
    }
}

/// The edges out of `n` taken.
pub open spec fn left(p: ProgramV, st: StateV, n: Node) -> StateV {
    let i = n.inst;
    match p.op(i) {
        Op::Branch(t, f, _) => match known(st.lat, p.arg(i, 0)) {
            Lattice::Top => st,
            Lattice::Constant(c) => edge_taken(
                st,
                n,
                n.func,
                first_of(
                    p,
                    if c != 0 {
                        t
                    } else {
                        f
                    },
                ),
            ),
            Lattice::Bottom => edge_taken(
                edge_taken(st, n, n.func, first_of(p, t)),
                n,
                n.func,
                first_of(p, f),
            ),
        },
        Op::Return => st,
        Op::Jump(t) => edge_taken(st, n, n.func, first_of(p, t)),
        Op::TailCall(g) => edge_taken(st, n, g, start_of(p, g)),
        Op::Call(g) => edge_taken(
            edge_taken(st, n, g, start_of(p, g)),
            n,
            n.func,
            next_of(p, n.func, i),
        ),
        _ => edge_taken(st, n, n.func, next_of(p, n.func, i)),
    }
}

/// One edge of the list entered: its block counts as visited, its instruction is visited once.
pub open spec fn entered(p: ProgramV, st: StateV) -> StateV {
    if st.edges.len() == 0 {
        st
    } else {
        let d = st.edges[0].1;
        let seen = match p.parent_bb(d.func, d.inst) {
            Some(b) => if st.block_seen.contains((d.func, b)) {
                st.block_seen
            } else {
                st.block_seen.push((d.func, b))
            },
            None => st.block_seen,
        };
        let fresh = !st.node_seen.contains(d);
        StateV {
            edges: st.edges.drop_first(),
            block_seen: seen,
            node_seen: if fresh {
                st.node_seen.push(d)
            } else {
                st.node_seen
            },
            nodes: if fresh {
                st.nodes.push(d)
            } else {
                st.nodes
            },
            ..st
        }
    }
}

/// One round of the propagation: one edge is entered, one instruction is visited.
pub open spec fn round(p: ProgramV, st: StateV) -> StateV {
    let a = entered(p, st);
    let b = if a.nodes.len() == 0 {
        a
    } else {
        let n = a.nodes[0];
        let c = StateV { nodes: a.nodes.drop_first(), ..a };
        left(p, transferred(p, c, n), n)
    };
    StateV { nodes: b.nodes + b.relay + b.again, relay: Seq::empty(), again: Seq::empty(), ..b }
}

/// Rounds until nothing is left to visit, at most `rounds` of them.
pub open spec fn propagated(p: ProgramV, st: StateV, rounds: nat) -> StateV
    decreases rounds,
{
    if rounds == 0 || (st.edges.len() == 0 && st.nodes.len() == 0) {
        st
    } else {
        propagated(p, round(p, st), (rounds - 1) as nat)
    }
}

/// What is known of `i` before anything was visited: literals.
pub open spec fn initial_value(op: Op) -> Lattice {
    match op {
        Op::Integer(k) => Lattice::Constant(k),
        Op::Float(_) => Lattice::Bottom,
        _ => Lattice::Top,
    }
}

/// What is known of instructions `from..` before anything was visited, behind `found`.
pub open spec fn initial_from(p: ProgramV, from: int, found: Seq<Lattice>) -> Seq<Lattice>
    decreases p.insts.len() - from,
{
    if from >= p.insts.len() {
        found
    } else {
        initial_from(p, from + 1, found.push(initial_value(p.op(Inst(from as usize)))))
    }
}

/// The globals `globals[from..]` that start as zero noted in memory.
pub open spec fn globals_zeroed(p: ProgramV, m: MemV, globals: Seq<Inst>, from: int) -> MemV
    decreases globals.len() - from,
{
    if from >= globals.len() {
        m
    } else {
        let g = globals[from];
        let next = if p.op(g) is GlobalAlloc && p.op(p.arg(g, 0)) is ZeroInit {
            zeroed(m, RootKey::Global(g), 0, end_of(0, p.ty(g).pointee().bytes())).0
        } else {
            m
        };
        globals_zeroed(p, next, globals, from + 1)
    }
}

pub open spec fn empty_memory() -> MemV {
    MemV {
        writers: Seq::empty(),
        zero: Seq::empty(),
        clears: Seq::empty(),
        cleared: Seq::empty(),
        lost: false,
        loaders: Seq::empty(),
    }
}

/// The propagation before its first round, starting at instruction `first` of `main`.
pub open spec fn initial(p: ProgramV, main: Function, first: Inst) -> StateV {
    let start = Node { func: main, inst: first };
    StateV {
        lat: initial_from(p, 0, Seq::empty()),
        mem: globals_zeroed(p, empty_memory(), p.globals, 0),
        nodes: Seq::empty(),
        edges: seq![(start, start)],
        edge_seen: seq![(start, start)],
        node_seen: Seq::empty(),
        block_seen: Seq::empty(),
        relay: Seq::empty(),
        again: Seq::empty(),
    }
}

/// The function of the layout from `from` on in which `i` stands.
pub open spec fn owner_from(p: ProgramV, layout: Seq<Function>, i: Inst, from: int) -> Option<(Function, BasicBlock)>
    decreases layout.len() - from,
{
    if from >= layout.len() {
        None
    } else {
        match p.parent_bb(layout[from], i) {
            Some(b) => Some((layout[from], b)),
            None => owner_from(p, layout, i, from + 1),
        }
    }
}

/// Literal `c` put in place of `i`. A call or a parameter keeps its place and only has its uses
/// replaced; anything else becomes a literal outside the blocks.
pub open spec fn constant_placed(p: ProgramV, i: Inst, c: i32, changed: bool) -> (ProgramV, bool) {
    match p.op(i) {
        Op::Call(_) => constant_used(p, i, c, changed),
        Op::TailCall(_) => constant_used(p, i, c, changed),
        Op::BlockArgRef => constant_used(p, i, c, changed),
        _ => {
            let q = p.set_inst(i, Op::Integer(c), Seq::empty(), Type::I32);
            match owner_from(q, q.layout, i, 0) {
                Some((_, b)) => (q.detach(b, i), true),
                None => (q, changed),
            }
        },
    }
}

/// The uses of `i` replaced by literal `c`.
pub open spec fn constant_used(p: ProgramV, i: Inst, c: i32, changed: bool) -> (ProgramV, bool) {
    if p.is_used(i) {
        (p.push_inst(Op::Integer(c), Seq::empty(), Type::I32, false).replace_uses(i, p.next_inst()), true)
    } else {
        (p, changed)
    }
}

/// The constants found for instructions `from..` put in place.
pub open spec fn constants_placed(p: ProgramV, lat: Seq<Lattice>, from: int, changed: bool) -> (ProgramV, bool)
    decreases lat.len() - from,
{
    if from >= lat.len() {
        (p, changed)
    } else {
        match lat[from] {
            Lattice::Constant(c) => {
                let (q, now) = constant_placed(p, Inst(from as usize), c, changed);
                constants_placed(q, lat, from + 1, now)
            },
            _ => constants_placed(p, lat, from + 1, changed),
        }
    }
}

/// Branches on literals that end `blocks[from..]` turned into jumps.
pub open spec fn branches_folded(p: ProgramV, blocks: Seq<BasicBlock>, from: int, changed: bool) -> (ProgramV, bool)
    decreases blocks.len() - from,
{
    if from >= blocks.len() {
        (p, changed)
    } else {
        let t = p.terminator(blocks[from]);
        match (p.op(t), p.op(p.arg(t, 0))) {
            (Op::Branch(a, b, _), Op::Integer(k)) => branches_folded(
                if k == 0 {
                    p.set_inst(t, Op::Jump(b), p.f_args(t), Type::Unit)
                } else {
                    p.set_inst(t, Op::Jump(a), p.t_args(t), Type::Unit)
                },
                blocks,
                from + 1,
                true,
            ),
            _ => branches_folded(p, blocks, from + 1, changed),
        }
    }
}

/// Branches folded in functions `layout[from..]`.
pub open spec fn all_branches_folded(p: ProgramV, layout: Seq<Function>, from: int, changed: bool) -> (ProgramV, bool)
    decreases layout.len() - from,
{
    if from >= layout.len() {
        (p, changed)
    } else {
        let (q, here) = branches_folded(p, p.func(layout[from]).blocks, 0, changed);
        all_branches_folded(q, layout, from + 1, here)
    }
}

/// Nothing leads to block `b`, and nobody uses its values.
pub open spec fn is_abandoned(p: ProgramV, b: BasicBlock) -> bool {
    p.block_users(b).len() == 0 && crate::dce::all_unused(p, p.block(b).insts)
}

/// The abandoned blocks among `blocks[from..]` of `f`, behind `found`. The entry never is.
pub open spec fn abandoned_in(
    p: ProgramV,
    f: Function,
    blocks: Seq<BasicBlock>,
    from: int,
    found: Seq<(Function, BasicBlock)>,
) -> Seq<(Function, BasicBlock)>
    decreases blocks.len() - from,
{
    if from >= blocks.len() {
        found
    } else if blocks[from] != blocks[0] && is_abandoned(p, blocks[from]) {
        abandoned_in(p, f, blocks, from + 1, found.push((f, blocks[from])))
    } else {
        abandoned_in(p, f, blocks, from + 1, found)
    }
}

pub open spec fn abandoned_from(
    p: ProgramV,
    layout: Seq<Function>,
    from: int,
    found: Seq<(Function, BasicBlock)>,
) -> Seq<(Function, BasicBlock)>
    decreases layout.len() - from,
{
    if from >= layout.len() {
        found
    } else {
        abandoned_from(
            p,
            layout,
            from + 1,
            abandoned_in(p, layout[from], p.func(layout[from]).blocks, 0, found),
        )
    }
}

pub open spec fn abandoned_removed(p: ProgramV, list: Seq<(Function, BasicBlock)>, from: int) -> ProgramV
    decreases list.len() - from,
{
    if from >= list.len() {
        p
    } else {
        abandoned_removed(p.remove_block(list[from].0, list[from].1), list, from + 1)
    }
}

/// The program after the constants `lat` were put to use, and whether anything changed.
pub open spec fn rewritten(p: ProgramV, lat: Seq<Lattice>) -> (ProgramV, bool) {
    let (q, a) = constants_placed(p, lat, 0, false);
    let (r, b) = all_branches_folded(q, q.layout, 0, a);
    let list = abandoned_from(r, r.layout, 0, Seq::empty());
    (abandoned_removed(r, list, 0), b || list.len() > 0)
}

fn has_node(v: &Vec<Node>, x: Node) -> (r: bool)
    ensures
        r == v@.contains(x),
{
    let mut i: usize = 0;
    while i < v.len()
        invariant
            i <= v@.len(),
            forall|k: int| 0 <= k < i ==> v@[k] != x,
        decreases v@.len() - i,
    {
        if v[i] == x {
            assert(v@[i as int] == x);
            return true;
        }
        i += 1;
    }
    false
}

fn has_edge(v: &Vec<(Node, Node)>, x: (Node, Node)) -> (r: bool)
    ensures
        r == v@.contains(x),
{
    let mut i: usize = 0;
    while i < v.len()
        invariant
            i <= v@.len(),
            forall|k: int| 0 <= k < i ==> v@[k] != x,
        decreases v@.len() - i,
    {
        if v[i].0 == x.0 && v[i].1 == x.1 {
            assert(v@[i as int] == x);
            return true;
        }
        assert(v@[i as int] != x);
        i += 1;
    }
    false
}

fn has_place(v: &Vec<(Function, BasicBlock)>, f: Function, b: BasicBlock) -> (r: bool)
    ensures
        r == v@.contains((f, b)),
{
    let mut i: usize = 0;
    while i < v.len()
        invariant
            i <= v@.len(),
            forall|k: int| 0 <= k < i ==> v@[k] != (f, b),
        decreases v@.len() - i,
    {
        if v[i].0 == f && v[i].1 == b {
            assert(v@[i as int] == (f, b));
            return true;
        }
        assert(v@[i as int] != (f, b));
        i += 1;
    }
    false
}

fn has_loader(v: &Vec<(RootKey, Node)>, root: RootKey, n: Node) -> (r: bool)
    ensures
        r == v@.contains((root, n)),
{
    let mut i: usize = 0;
    while i < v.len()
        invariant
            i <= v@.len(),
            forall|k: int| 0 <= k < i ==> v@[k] != (root, n),
        decreases v@.len() - i,
    {
        if v[i].0 == root && v[i].1 == n {
            assert(v@[i as int] == (root, n));
            return true;
        }
        assert(v@[i as int] != (root, n));
        i += 1;
    }
    false
}

fn byte_end(off: i64, len: usize) -> (r: i64)
    ensures
        r == end_of(off, len as int),
{
    let e: i128 = off as i128 + len as i128;
    if e <= 0x7fff_ffff_ffff_ffff {
        e as i64
    } else {
        i64::MAX
    }
}

/// All calls of `f`.
pub fn call_sites(p: &Program, f: Function) -> (r: Vec<Node>)
    ensures
        r@ == sites(p@, f),
{
    let layout = p.function_layout();
    let mut r: Vec<Node> = Vec::new();
    assert(r@ =~= Seq::empty());
    let mut k: usize = 0;
    while k < layout.len()
        invariant
            k <= layout@.len(),
            sites_from(p@, layout@, f, 0, Seq::empty()) == sites_from(p@, layout@, f, k as int, r@),
        decreases layout@.len() - k,
    {
        let g = layout[k];
        let insts = p.placed_insts(g);
        let ghost start = r@;
        let mut j: usize = 0;
        while j < insts.len()
            invariant
                j <= insts@.len(),
                sites_in(p@, g, insts@, f, 0, start) == sites_in(p@, g, insts@, f, j as int, r@),
            decreases insts@.len() - j,
        {
            let hit = match p.op(insts[j]) {
                Op::Call(h) => h == f,
                Op::TailCall(h) => h == f,
                _ => false,
            };
            if hit {
                r.push(Node { func: g, inst: insts[j] });
            }
            j += 1;
        }
        k += 1;
    }
    r
}

pub fn first_inst(p: &Program, b: BasicBlock) -> (r: Option<Inst>)
    ensures
        r == first_of(p@, b),
{
    let insts = p.block_insts(b);
    if insts.len() > 0 {
        Some(insts[0])
    } else {
        None
    }
}

pub fn start_inst(p: &Program, f: Function) -> (r: Option<Inst>)
    ensures
        r == start_of(p@, f),
{
    let blocks = p.basicblocks(f);
    if blocks.len() > 0 {
        first_inst(p, blocks[0])
    } else {
        None
    }
}

pub fn following(p: &Program, f: Function, i: Inst) -> (r: Option<Inst>)
    ensures
        r == next_of(p@, f, i),
{
    match p.parent_bb(f, i) {
        Some(b) => {
            let insts = p.block_insts(b);
            let k = inst_position(&insts, i);
            if k < insts.len() && k + 1 < insts.len() {
                Some(insts[k + 1])
            } else {
                None
            }
        },
        None => None,
    }
}

impl Solver {
    fn get(&self, i: Inst) -> (r: Lattice)
        ensures
            r == known(self@.lat, i),
    {
        if i.0 < self.lat.len() {
            self.lat[i.0]
        } else {
            Lattice::Top
        }
    }

    fn revisit_users(&mut self, p: &Program, n: Node)
        ensures
            final(self)@ == (StateV {
                nodes: old(self)@.nodes + affected(p@, old(self)@.block_seen, n),
                ..old(self)@
            }),
    {
        let users = p.users(n.inst);
        let mut found: Vec<Node> = Vec::new();
        assert(found@ =~= Seq::empty());
        let mut k: usize = users.len();
        while k > 0
            invariant
                k <= users@.len(),
                affected_among(p@, self@.block_seen, n.func, users@, users@.len() as int, Seq::empty())
                    == affected_among(p@, self@.block_seen, n.func, users@, k as int, found@),
            decreases k,
        {
            k -= 1;
            if let Some(b) = p.parent_bb(n.func, users[k]) {
                if has_place(&self.block_seen, n.func, b) {
                    found.push(Node { func: n.func, inst: users[k] });
                }
            }
        }
        extend_nodes(&mut self.nodes, &found);
    }

    fn lower(&mut self, p: &Program, n: Node, v: Lattice) -> (changed: bool)
        ensures
            final(self)@ == lowered(p@, old(self)@, n, v),
            changed == lowers(old(self)@, n, v),
    {
        if n.inst.0 >= self.lat.len() {
            return false;
        }
        let old_value = self.lat[n.inst.0];
        let new_value = old_value.merge(v);
        if new_value == old_value {
            return false;
        }
        self.lat.set(n.inst.0, new_value);
        self.revisit_users(p, n);
        true
    }

    fn replace(&mut self, p: &Program, n: Node, v: Lattice)
        ensures
            final(self)@ == replaced(p@, old(self)@, n, v),
    {
        if n.inst.0 < self.lat.len() && self.lat[n.inst.0] != v {
            self.lat.set(n.inst.0, v);
            self.revisit_users(p, n);
        }
    }

    fn pass(&mut self, p: &Program, args: &Vec<Inst>, callee: Function, params: &Vec<Inst>)
        ensures
            final(self)@ == passed(p@, old(self)@, args@, callee, params@, 0),
    {
        let mut k: usize = 0;
        while k < args.len() && k < params.len()
            invariant
                k <= args@.len(),
                k <= params@.len(),
                passed(p@, old(self)@, args@, callee, params@, 0) == passed(
                    p@,
                    self@,
                    args@,
                    callee,
                    params@,
                    k as int,
                ),
            decreases args@.len() - k,
        {
            let v = self.get(args[k]);
            self.lower(p, Node { func: callee, inst: params[k] }, v);
            k += 1;
        }
    }

    fn give_back(&mut self, p: &Program, calls: &Vec<Node>, v: Lattice)
        ensures
            final(self)@ == returned(p@, old(self)@, calls@, v, 0),
    {
        let mut k: usize = 0;
        while k < calls.len()
            invariant
                k <= calls@.len(),
                returned(p@, old(self)@, calls@, v, 0) == returned(p@, self@, calls@, v, k as int),
            decreases calls@.len() - k,
        {
            let c = calls[k];
            if self.lower(p, c, v) {
                if let Op::TailCall(_) = p.op(c.inst) {
                    self.relay.push(c);
                }
            }
            k += 1;
        }
    }

    fn blur(&mut self, p: &Program, f: Function, addr: Inst)
        ensures
            final(self)@ == blurred(p@, old(self)@, f, addr),
    {
        self.mem.blur(p, f, addr, &mut self.again);
    }

    fn visit_store(&mut self, p: &Program, n: Node)
        ensures
            final(self)@ == store_visited(p@, old(self)@, n),
    {
        let dest = p.arg(n.inst, 1);
        match resolve_cell(p, n.func, dest) {
            Some((key, root)) => {
                let v = self.get(p.arg(n.inst, 0));
                if self.mem.write(key, n, v) {
                    let loads = self.mem.loads(root);
                    extend_nodes(&mut self.again, &loads);
                }
            },
            None => {
                self.blur(p, n.func, dest);
            },
        }
    }

    fn visit_clear(&mut self, p: &Program, n: Node, len: Option<usize>)
        ensures
            final(self)@ == clear_visited(p@, old(self)@, n, len),
    {
        let dest = p.arg(n.inst, 0);
        match (resolve_cell(p, n.func, dest), len) {
            (Some((key, root)), Some(len)) => {
                let from = key.offset();
                let to = byte_end(from, len);
                let grown = self.mem.mem_zero(root, from, to);
                let new = self.mem.note_clear(root, from, to, n);
                if grown || new {
                    let loads = self.mem.loads(root);
                    extend_nodes(&mut self.again, &loads);
                }
            },
            (Some((_, root)), None) => {
                let one = vec![root];
                assert(one@ =~= seq![root]);
                self.mem.clear_all(&one, &mut self.again);
            },
            (None, _) => {
                self.blur(p, n.func, dest);
            },
        }
    }

    fn visit_load(&mut self, p: &Program, n: Node, ord: &OrderInfo)
        requires
            ord.describes(p@),
        ensures
            final(self)@ == load_visited(p@, old(self)@, n),
    {
        match resolve_cell(p, n.func, p.arg(n.inst, 0)) {
            Some((key, root)) => {
                if p.is_i32(n.inst) {
                    let v = self.mem.read(p, key, n, ord);
                    self.replace(p, n, v);
                    if !has_loader(&self.mem.loaders, root, n) {
                        self.mem.loaders.push((root, n));
                    }
                } else {
                    self.lower(p, n, Lattice::Bottom);
                }
            },
            None => {
                self.lower(p, n, Lattice::Bottom);
            },
        }
    }

    fn visit_call(&mut self, p: &Program, n: Node, g: Function)
        ensures
            final(self)@ == call_visited(p@, old(self)@, n, g),
    {
        if p.is_decl(g) {
            self.lower(p, n, Lattice::Bottom);
        } else {
            let args = p.args(n.inst);
            let params = p.params(g);
            self.pass(p, &args, g, &params);
        }
        self.mem.invalidate_call(p, g, n.func, &mut self.again);
    }

    fn visit_tail_call(&mut self, p: &Program, n: Node, g: Function)
        ensures
            final(self)@ == tail_call_visited(p@, old(self)@, n, g),
    {
        if !p.is_decl(g) {
            let args = p.args(n.inst);
            let params = p.params(g);
            self.pass(p, &args, g, &params);
        }
        let v = self.get(n.inst);
        let calls = call_sites(p, n.func);
        self.give_back(p, &calls, v);
        self.mem.invalidate_call(p, g, n.func, &mut self.again);
    }

    fn visit_branch(&mut self, p: &Program, n: Node, t: BasicBlock, f: BasicBlock)
        ensures
            final(self)@ == branch_visited(p@, old(self)@, n, t, f),
    {
        let ta = p.t_args(n.inst);
        let fa = p.f_args(n.inst);
        let tp = p.block_params(t);
        let fp = p.block_params(f);
        match self.get(p.arg(n.inst, 0)) {
            Lattice::Top => {},
            Lattice::Constant(c) => {
                if c != 0 {
                    self.pass(p, &ta, n.func, &tp);
                } else {
                    self.pass(p, &fa, n.func, &fp);
                }
            },
            Lattice::Bottom => {
                self.pass(p, &ta, n.func, &tp);
                self.pass(p, &fa, n.func, &fp);
            },
        }
    }

    fn transfer(&mut self, p: &Program, n: Node, ord: &OrderInfo)
        requires
            ord.describes(p@),
        ensures
            final(self)@ == transferred(p@, old(self)@, n),
    {
        let i = n.inst;
        match p.op(i) {
            Op::GetElemPtr | Op::Alloc | Op::Fma | Op::VectorOp => {
                self.lower(p, n, Lattice::Bottom);
            },
            Op::Load => {
                self.visit_load(p, n, ord);
            },
            Op::Binary(op) => {
                let v = match (self.get(p.arg(i, 0)), self.get(p.arg(i, 1))) {
                    (Lattice::Bottom, _) => Lattice::Bottom,
                    (_, Lattice::Bottom) => Lattice::Bottom,
                    (Lattice::Constant(x), Lattice::Constant(y)) => if y == 0 && matches!(
                        op,
                        BinaryOp::Div | BinaryOp::Rem
                    ) {
                        Lattice::Bottom
                    } else {
                        Lattice::Constant(mathematic_operation(op, x, y))
                    },
                    _ => Lattice::Top,
                };
                self.lower(p, n, v);
            },
            Op::Select => {
                let a = self.get(p.arg(i, 1));
                let b = self.get(p.arg(i, 2));
                let v = match self.get(p.arg(i, 0)) {
                    Lattice::Top => Lattice::Top,
                    Lattice::Constant(k) => if k != 0 {
                        a
                    } else {
                        b
                    },
                    Lattice::Bottom => a.merge(b),
                };
                self.lower(p, n, v);
            },
            Op::Cast => {
                let v = match (p.ty(i), p.op(p.arg(i, 0))) {
                    (Type::I32, Op::Float(bits)) => match fold_float_bits(bits) {
                        Some(k) => Lattice::Constant(k),
                        None => Lattice::Bottom,
                    },
                    _ => Lattice::Bottom,
                };
                self.lower(p, n, v);
            },
            Op::Jump(t) => {
                let args = p.args(i);
                let params = p.block_params(t);
                self.pass(p, &args, n.func, &params);
            },
            Op::Branch(t, f, _) => {
                self.visit_branch(p, n, t, f);
            },
            Op::Store => {
                self.visit_store(p, n);
            },
            Op::MemZero(len) => {
                self.visit_clear(p, n, Some(len));
            },
            Op::MemZeroDyn => {
                self.visit_clear(p, n, None);
            },
            Op::Call(g) => {
                self.visit_call(p, n, g);
            },
            Op::TailCall(g) => {
                self.visit_tail_call(p, n, g);
            },
            Op::Return => {
                if p.num_args(i) > 0 {
                    let v = self.get(p.arg(i, 0));
                    let calls = call_sites(p, n.func);
                    self.give_back(p, &calls, v);
                }
            },
            _ => {},
        }
    }

    fn take_edge(&mut self, n: Node, f: Function, i: Option<Inst>)
        ensures
            final(self)@ == edge_taken(old(self)@, n, f, i),
    {
        if let Some(x) = i {
            let e = (n, Node { func: f, inst: x });
            if !has_edge(&self.edge_seen, e) {
                self.edge_seen.push(e);
                self.edges.push(e);
            }
        }
    }

    fn leave(&mut self, p: &Program, n: Node)
        ensures
            final(self)@ == left(p@, old(self)@, n),
    {
        let i = n.inst;
        match p.op(i) {
            Op::Branch(t, f, _) => {
                match self.get(p.arg(i, 0)) {
                    Lattice::Top => {},
                    Lattice::Constant(c) => {
                        let b = if c != 0 {
                            t
                        } else {
                            f
                        };
                        self.take_edge(n, n.func, first_inst(p, b));
                    },
                    Lattice::Bottom => {
                        self.take_edge(n, n.func, first_inst(p, t));
                        self.take_edge(n, n.func, first_inst(p, f));
                    },
                }
            },
            Op::Return => {},
            Op::Jump(t) => {
                self.take_edge(n, n.func, first_inst(p, t));
            },
            Op::TailCall(g) => {
                self.take_edge(n, g, start_inst(p, g));
            },
            Op::Call(g) => {
                self.take_edge(n, g, start_inst(p, g));
                self.take_edge(n, n.func, following(p, n.func, i));
            },
            _ => {
                self.take_edge(n, n.func, following(p, n.func, i));
            },
        }
    }

    fn enter(&mut self, p: &Program)
        ensures
            final(self)@ == entered(p@, old(self)@),
    {
        if self.edges.len() == 0 {
            return;
        }
        let ghost before = self.edges@;
        let e = self.edges.remove(0);
        assert(self.edges@ =~= before.drop_first());
        let d = e.1;
        if let Some(b) = p.parent_bb(d.func, d.inst) {
            if !has_place(&self.block_seen, d.func, b) {
                self.block_seen.push((d.func, b));
            }
        }
        if !has_node(&self.node_seen, d) {
            self.node_seen.push(d);
            self.nodes.push(d);
        }
    }

    fn step(&mut self, p: &Program, ord: &OrderInfo)
        requires
            ord.describes(p@),
        ensures
            final(self)@ == round(p@, old(self)@),
    {
        self.enter(p);
        if self.nodes.len() > 0 {
            let ghost before = self.nodes@;
            let n = self.nodes.remove(0);
            assert(self.nodes@ =~= before.drop_first());
            self.transfer(p, n, ord);
            self.leave(p, n);
        }
        let relay = crate::ir::copy_vec(&self.relay);
        let again = crate::ir::copy_vec(&self.again);
        extend_nodes(&mut self.nodes, &relay);
        extend_nodes(&mut self.nodes, &again);
        self.relay = Vec::new();
        self.again = Vec::new();
        assert(self.relay@ =~= Seq::empty());
        assert(self.again@ =~= Seq::empty());
    }

    /// The propagation before its first round.
    fn start(p: &Program, main: Function, first: Inst) -> (r: Solver)
        ensures
            r@ == initial(p@, main, first),
    {
        let mut lat: Vec<Lattice> = Vec::new();
        assert(lat@ =~= Seq::empty());
        let n: usize = p.num_insts();
        let mut k: usize = 0;
        while k < n
            invariant
                k <= n,
                n == p@.insts.len(),
                initial_from(p@, 0, Seq::empty()) == initial_from(p@, k as int, lat@),
            decreases n - k,
        {
            let v = match p.op(Inst(k)) {
                Op::Integer(c) => Lattice::Constant(c),
                Op::Float(_) => Lattice::Bottom,
                _ => Lattice::Top,
            };
            lat.push(v);
            k += 1;
        }
        let mut mem = MemState::new();
        let globals = p.global_inst_layout();
        let mut k: usize = 0;
        while k < globals.len()
            invariant
                k <= globals@.len(),
                globals_zeroed(p@, empty_memory(), globals@, 0) == globals_zeroed(p@, mem@, globals@, k as int),
            decreases globals@.len() - k,
        {
            let g = globals[k];
            match (p.op(g), p.op(p.arg(g, 0))) {
                (Op::GlobalAlloc, Op::ZeroInit) => {
                    let to = match p.ty(g).dereference().size() {
                        Some(n) => byte_end(0, n),
                        None => {
                            assert(p@.ty(g).pointee().bytes() > usize::MAX);
                            Self::beyond(p, g)
                        },
                    };
                    mem.mem_zero(RootKey::Global(g), 0, to);
                },
                _ => {},
            }
            k += 1;
        }
        let s = Node { func: main, inst: first };
        let edges = vec![(s, s)];
        let edge_seen = vec![(s, s)];
        assert(edges@ =~= seq![(s, s)]);
        assert(edge_seen@ =~= seq![(s, s)]);
        let r = Solver {
            lat,
            mem,
            nodes: Vec::new(),
            edges,
            edge_seen,
            node_seen: Vec::new(),
            block_seen: Vec::new(),
            relay: Vec::new(),
            again: Vec::new(),
        };
        assert(r@ =~= initial(p@, main, first));
        r
    }

    /// The end of a global that is larger than the address space.
    fn beyond(p: &Program, g: Inst) -> (r: i64)
        requires
            p@.ty(g).pointee().bytes() > usize::MAX,
        ensures
            r == end_of(0, p@.ty(g).pointee().bytes()),
    {
        wide_end(&p.ty(g).dereference())
    }
}

/// The last offset of a value of type `ty` that a 64-bit offset can name.
pub(crate) fn wide_end(ty: &Type) -> (r: i64)
    ensures
        r == end_of(0, ty.bytes()),
    decreases ty,
{
    match ty {
        Type::Unit => 0,
        Type::I32 => 4,
        Type::F32 => 4,
        Type::Pointer(_) => 8,
        Type::Array(t, n) => {
            let inner = wide_end(&**t);
            let _bytes = ty.size();
            let _inner_bytes = (&**t).size();
            let product: i128 = mul_wide(inner, *n);
            proof {
                let b = (**t).bytes();
                let m = *n as int;
                if b <= i64::MAX {
                    assert(inner == b);
                } else {
                    assert(inner == i64::MAX);
                    if m >= 1 {
                        assert(b * m >= b && inner * m >= inner) by (nonlinear_arith)
                            requires
                                b >= 0,
                                m >= 1,
                                inner >= 0,
                        ;
                    } else {
                        assert(b * m == 0 && inner * m == 0) by (nonlinear_arith)
                            requires
                                m == 0,
                        ;
                    }
                }
            }
            if product <= 0x7fff_ffff_ffff_ffff {
                product as i64
            } else {
                i64::MAX
            }
        },
    }
}

fn mul_wide(a: i64, n: usize) -> (r: i128)
    requires
        a >= 0,
    ensures
        r == a * n,
{
    assert(0 <= a * n <= 0x7fff_ffff_ffff_ffff * 0xffff_ffff_ffff_ffff) by (nonlinear_arith)
        requires
            0 <= a <= 0x7fff_ffff_ffff_ffff,
            0 <= n <= 0xffff_ffff_ffff_ffff,
    ;
    (a as i128) * (n as i128)
}

pub fn owner(p: &Program, i: Inst) -> (r: Option<(Function, BasicBlock)>)
    ensures
        r == owner_from(p@, p@.layout, i, 0),
{
    let layout = p.function_layout();
    let mut k: usize = 0;
    while k < layout.len()
        invariant
            k <= layout@.len(),
            layout@ == p@.layout,
            owner_from(p@, layout@, i, 0) == owner_from(p@, layout@, i, k as int),
        decreases layout@.len() - k,
    {
        if let Some(b) = p.parent_bb(layout[k], i) {
            return Some((layout[k], b));
        }
        k += 1;
    }
    None
}

/// Puts literal `c` in place of `i`.
fn place_constant(p: &mut Program, i: Inst, c: i32, changed: bool) -> (r: bool)
    ensures
        (final(p)@, r) == constant_placed(old(p)@, i, c, changed),
{
    match p.op(i) {
        Op::Call(_) | Op::TailCall(_) | Op::BlockArgRef => {
            if p.is_used(i) {
                let lit = p.integer(c);
                p.replace_uses(i, lit);
                true
            } else {
                changed
            }
        },
        _ => {
            let none: Vec<Inst> = Vec::new();
            assert(none@ =~= Seq::empty());
            p.set_inst(i, Op::Integer(c), none, Type::I32);
            match owner(p, i) {
                Some((_, b)) => {
                    p.detach_layout_inst(b, i);
                    true
                },
                None => changed,
            }
        },
    }
}

/// Puts the constants `lat` in place.
fn place_constants(p: &mut Program, lat: &Vec<Lattice>) -> (changed: bool)
    ensures
        (final(p)@, changed) == constants_placed(old(p)@, lat@, 0, false),
{
    let mut changed = false;
    let mut k: usize = 0;
    while k < lat.len()
        invariant
            k <= lat@.len(),
            constants_placed(old(p)@, lat@, 0, false) == constants_placed(p@, lat@, k as int, changed),
        decreases lat@.len() - k,
    {
        if let Lattice::Constant(c) = lat[k] {
            changed = place_constant(p, Inst(k), c, changed);
        }
        k += 1;
    }
    changed
}

/// Turns branches on literals that end `blocks` into jumps.
pub fn fold_block_branches(p: &mut Program, blocks: &Vec<BasicBlock>, start: bool) -> (changed: bool)
    ensures
        (final(p)@, changed) == branches_folded(old(p)@, blocks@, 0, start),
{
    let mut changed = start;
    let mut j: usize = 0;
    while j < blocks.len()
        invariant
            j <= blocks@.len(),
            branches_folded(old(p)@, blocks@, 0, start) == branches_folded(p@, blocks@, j as int, changed),
        decreases blocks@.len() - j,
    {
        let t = p.terminator(blocks[j]);
        match (p.op(t), p.op(p.arg(t, 0))) {
            (Op::Branch(a, b, _), Op::Integer(c)) => {
                if c == 0 {
                    let args = p.f_args(t);
                    p.set_inst(t, Op::Jump(b), args, Type::Unit);
                } else {
                    let args = p.t_args(t);
                    p.set_inst(t, Op::Jump(a), args, Type::Unit);
                }
                changed = true;
            },
            _ => {},
        }
        j += 1;
    }
    changed
}

/// Turns branches on literals into jumps.
fn fold_branches(p: &mut Program, start: bool) -> (changed: bool)
    ensures
        (final(p)@, changed) == all_branches_folded(old(p)@, old(p)@.layout, 0, start),
{
    let layout = p.function_layout();
    let mut changed = start;
    let mut k: usize = 0;
    while k < layout.len()
        invariant
            k <= layout@.len(),
            all_branches_folded(old(p)@, layout@, 0, start) == all_branches_folded(p@, layout@, k as int, changed),
        decreases layout@.len() - k,
    {
        let blocks = p.basicblocks(layout[k]);
        changed = fold_block_branches(p, &blocks, changed);
        k += 1;
    }
    changed
}

fn unused_insts(p: &Program, insts: &Vec<Inst>) -> (r: bool)
    ensures
        r == crate::dce::all_unused(p@, insts@),
{
    let mut i: usize = 0;
    while i < insts.len()
        invariant
            i <= insts@.len(),
            forall|k: int| 0 <= k < i ==> !p@.is_used(#[trigger] insts@[k]),
        decreases insts@.len() - i,
    {
        if p.is_used(insts[i]) {
            assert(p@.is_used(insts@[i as int]));
            return false;
        }
        i += 1;
    }
    true
}

/// Removes the abandoned blocks.
fn remove_abandoned(p: &mut Program) -> (changed: bool)
    ensures
        ({
            let list = abandoned_from(old(p)@, old(p)@.layout, 0, Seq::empty());
            final(p)@ == abandoned_removed(old(p)@, list, 0) && changed == (list.len() > 0)
        }),
{
    let layout = p.function_layout();
    let mut list: Vec<(Function, BasicBlock)> = Vec::new();
    assert(list@ =~= Seq::empty());
    let mut k: usize = 0;
    while k < layout.len()
        invariant
            k <= layout@.len(),
            p@ == old(p)@,
            abandoned_from(p@, layout@, 0, Seq::empty()) == abandoned_from(p@, layout@, k as int, list@),
        decreases layout@.len() - k,
    {
        let f = layout[k];
        let blocks = p.basicblocks(f);
        let ghost start = list@;
        let mut j: usize = 0;
        while j < blocks.len()
            invariant
                j <= blocks@.len(),
                p@ == old(p)@,
                abandoned_in(p@, f, blocks@, 0, start) == abandoned_in(p@, f, blocks@, j as int, list@),
            decreases blocks@.len() - j,
        {
            let b = blocks[j];
            let insts = p.block_insts(b);
            if b != blocks[0] && p.block_users(b).len() == 0 && unused_insts(p, &insts) {
                list.push((f, b));
            }
            j += 1;
        }
        k += 1;
    }
    let mut k: usize = 0;
    while k < list.len()
        invariant
            k <= list@.len(),
            abandoned_removed(old(p)@, list@, 0) == abandoned_removed(p@, list@, k as int),
        decreases list@.len() - k,
    {
        p.remove_layout_basicblock(list[k].0, list[k].1);
        k += 1;
    }
    list.len() > 0
}

/// The values found constant from `main` on, in at most `rounds` rounds.
pub open spec fn solved(p: ProgramV, rounds: nat) -> StateV {
    let main = main_of(p)->0;
    propagated(p, initial(p, main, start_of(p, main)->0), rounds)
}

impl IPSCCP {
    /// Finds what is constant in every run of `main` and puts it to use. True when something changed.
    ///
    /// The number of rounds is bounded by the largest machine integer.
    pub fn run(&mut self, program: &mut Program) -> (changed: bool)
        requires
            main_of(old(program)@) is Some,
            start_of(old(program)@, main_of(old(program)@)->0) is Some,
        ensures
            (final(program)@, changed) == rewritten(old(program)@, solved(old(program)@, usize::MAX as nat).lat),
    {
        let lat = Self::solve(program);
        let a = place_constants(program, &lat);
        let b = fold_branches(program, a);
        let c = remove_abandoned(program);
        b || c
    }

    /// What is known of every instruction in every run of `main`.
    pub fn solve(program: &Program) -> (lat: Vec<Lattice>)
        requires
            main_of(program@) is Some,
            start_of(program@, main_of(program@)->0) is Some,
        ensures
            lat@ == solved(program@, usize::MAX as nat).lat,
    {
        let main = get_main_function(program).unwrap();
        let first = start_inst(program, main).unwrap();
        let ord = OrderInfo::new(program);
        let mut solver = Solver::start(program, main, first);
        let ghost start = solver@;
        let mut rounds: usize = usize::MAX;
        while rounds > 0 && (solver.edges.len() > 0 || solver.nodes.len() > 0)
            invariant
                ord.describes(program@),
                propagated(program@, start, usize::MAX as nat) == propagated(program@, solver@, rounds as nat),
            decreases rounds,
        {
            solver.step(program, &ord);
            rounds -= 1;
        }
        solver.lat
    }
}

} // verus!
