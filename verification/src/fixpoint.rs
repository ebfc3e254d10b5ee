//! What the propagation over the whole program ends in.

use vstd::prelude::*;

use crate::dce::main_of;
use crate::ipsccp::{
    affected, affected_among, binary_value, branch_visited, call_forgotten, call_visited,
    cast_value, clear_visited, edge_taken, empty_memory, entered, first_of, globals_zeroed, initial,
    initial_from, initial_value, known, left, load_visited, lowered, lowers, next_of, passed,
    propagated, replaced, returned, round, select_value, sites, sites_from, sites_in, solved,
    start_of, store_visited, tail_call_visited, transferred, StateV,
};
use crate::ir::{BasicBlock, Function, Inst, Op, ProgramV};
use crate::lattice::{cell_of, CellKey, Lattice, RootKey};
use crate::mem_state::{
    all_loads, all_lost, clear_noted, loads_of, root_cleared, roots_cleared, target_of, value_read, write_blurred, written,
    zeroed, MemV,
};
use crate::memory_reads::{clearing_is_local, forgetting_is_local, writing_is_local, zeroing_is_local};
use crate::program_order::Node;
use crate::propagation::{lemma_parent, lemma_users};

verus! {

/// Instruction `n` stands in its function.
pub open spec fn sited(p: ProgramV, n: Node) -> bool {
    p.parent_bb(n.func, n.inst) is Some
}

/// `x` is a parameter of `f` or of a block of it, or stands in it.
pub open spec fn home(p: ProgramV, f: Function, x: Inst) -> bool {
    ||| p.parent_bb(f, x) is Some
    ||| p.func(f).params.contains(x)
    ||| exists|b: BasicBlock| p.func(f).blocks.contains(b) && #[trigger] p.block(b).params.contains(x)
}

/// An instruction of `f` stands nowhere else, takes its operands from its own function, and leads to blocks
/// of it.
pub open spec fn own(p: ProgramV, f: Function, i: Inst) -> bool {
    &&& i.0 < p.insts.len()
    &&& forall|g: Function| #[trigger] p.parent_bb(g, i) is Some ==> g == f
    &&& forall|x: Inst, g: Function| #[trigger] p.args(i).contains(x) && #[trigger] home(p, g, x) ==> g == f
    &&& match p.op(i) {
        Op::Jump(t) => p.func(f).blocks.contains(t),
        Op::Branch(t, e, n) => n < p.args(i).len() && p.func(f).blocks.contains(t) && p.func(f).blocks.contains(e),
        Op::BlockArgRef => false,
        Op::Binary(_) => p.args(i).len() == 2,
        Op::Select => p.args(i).len() == 3,
        _ => true,
    }
}

/// Every instruction that stands in a function belongs to it, and parameters are parameters.
pub open spec fn separate(p: ProgramV) -> bool {
    &&& p.insts.len() <= usize::MAX
    &&& forall|f: Function, i: Inst| #[trigger] p.parent_bb(f, i) is Some ==> own(p, f, i)
    &&& forall|f: Function, x: Inst| #[trigger] p.func(f).params.contains(x) ==> p.op(x) is BlockArgRef
    &&& forall|b: BasicBlock, x: Inst| #[trigger] p.block(b).params.contains(x) ==> p.op(x) is BlockArgRef
}

/// `n` is still to be visited.
pub open spec fn pending(st: StateV, n: Node) -> bool {
    st.nodes.contains(n) || st.relay.contains(n) || st.again.contains(n)
}

/// `n` stands in a block that was reached.
pub open spec fn reached(p: ProgramV, st: StateV, n: Node) -> bool {
    sited(p, n) && st.block_seen.contains((n.func, p.parent_bb(n.func, n.inst)->0))
}

/// What is passed is taken in by the parameters.
pub open spec fn taken_in(lat: Seq<Lattice>, args: Seq<Inst>, params: Seq<Inst>) -> bool {
    forall|k: int|
        0 <= k < args.len() && k < params.len() && params[k].0 < lat.len() ==> known(lat, #[trigger] params[k]).below(
            known(lat, args[k]),
        )
}

/// What is returned is taken in by the calls.
pub open spec fn handed_back(lat: Seq<Lattice>, calls: Seq<Node>, v: Lattice) -> bool {
    forall|k: int| 0 <= k < calls.len() && calls[k].inst.0 < lat.len() ==> known(lat, (#[trigger] calls[k]).inst).below(v)
}

/// The edge from `n` to `i` of `f`, where there is such an instruction, was taken.
pub open spec fn goes(st: StateV, n: Node, f: Function, i: Option<Inst>) -> bool {
    match i {
        Some(x) => st.edge_seen.contains((n, Node { func: f, inst: x })),
        None => true,
    }
}

/// What is known of `n`, and what it passes on, follows from what is known of its operands and of memory.
pub open spec fn values_settled(p: ProgramV, st: StateV, n: Node) -> bool {
    let i = n.inst;
    let lat = st.lat;
    match p.op(i) {
        Op::GetElemPtr | Op::Alloc | Op::Fma | Op::VectorOp => known(lat, i) == Lattice::Bottom,
        Op::Load => match cell_of(p, n.func, p.arg(i, 0)) {
            Some((key, root)) => if p.ty(i) is I32 {
                known(lat, i) == value_read(p, st.mem, key, n) && st.mem.loaders.contains((root, n))
            } else {
                known(lat, i) == Lattice::Bottom
            },
            None => known(lat, i) == Lattice::Bottom,
        },
        Op::Binary(op) => known(lat, i).below(binary_value(op, known(lat, p.arg(i, 0)), known(lat, p.arg(i, 1)))),
        Op::Select => known(lat, i).below(
            select_value(known(lat, p.arg(i, 0)), known(lat, p.arg(i, 1)), known(lat, p.arg(i, 2))),
        ),
        Op::Cast => known(lat, i).below(cast_value(p, i)),
        Op::Jump(t) => taken_in(lat, p.args(i), p.block(t).params),
        Op::Branch(t, e, _) => match known(lat, p.arg(i, 0)) {
            Lattice::Top => true,
            Lattice::Constant(c) => if c != 0 {
                taken_in(lat, p.t_args(i), p.block(t).params)
            } else {
                taken_in(lat, p.f_args(i), p.block(e).params)
            },
            Lattice::Bottom => taken_in(lat, p.t_args(i), p.block(t).params) && taken_in(
                lat,
                p.f_args(i),
                p.block(e).params,
            ),
        },
        Op::Return => p.args(i).len() > 0 ==> handed_back(lat, sites(p, n.func), known(lat, p.arg(i, 0))),
        Op::Call(g) => if p.func(g).blocks.len() == 0 {
            known(lat, i) == Lattice::Bottom
        } else {
            taken_in(lat, p.args(i), p.func(g).params)
        },
        Op::TailCall(g) => {
            &&& p.func(g).blocks.len() > 0 ==> taken_in(lat, p.args(i), p.func(g).params)
            &&& handed_back(lat, sites(p, n.func), known(lat, i))
        },
        _ => true,
    }
}

/// The edges that `n` may take were taken.
pub open spec fn edges_settled(p: ProgramV, st: StateV, n: Node) -> bool {
    let i = n.inst;
    match p.op(i) {
        Op::Jump(t) => goes(st, n, n.func, first_of(p, t)),
        Op::Branch(t, e, _) => match known(st.lat, p.arg(i, 0)) {
            Lattice::Top => true,
            Lattice::Constant(c) => if c != 0 {
                goes(st, n, n.func, first_of(p, t))
            } else {
                goes(st, n, n.func, first_of(p, e))
            },
            Lattice::Bottom => goes(st, n, n.func, first_of(p, t)) && goes(st, n, n.func, first_of(p, e)),
        },
        Op::Return => true,
        Op::Call(g) => goes(st, n, g, start_of(p, g)) && goes(st, n, n.func, next_of(p, n.func, i)),
        Op::TailCall(g) => goes(st, n, g, start_of(p, g)),
        _ => goes(st, n, n.func, next_of(p, n.func, i)),
    }
}

/// What is known of `n`, and what was done about it, follows from what is known elsewhere.
pub open spec fn settled(p: ProgramV, st: StateV, n: Node) -> bool {
    values_settled(p, st, n) && edges_settled(p, st, n)
}

/// Nothing but what `n` does is known otherwise in `next`: where it is, everything that depends on it will
/// be visited.
pub open spec fn stirred(p: ProgramV, st: StateV, next: StateV, n: Node, x: Inst) -> bool {
    ||| known(next.lat, x) == known(st.lat, x)
    ||| {
        &&& x == n.inst || p.op(x) is BlockArgRef || p.op(x) is Call || p.op(x) is TailCall
        &&& p.op(x) is Load || known(next.lat, x).below(known(st.lat, x))
        &&& forall|m: Node| reached(p, st, m) && p.args(m.inst).contains(x) ==> #[trigger] pending(next, m)
        &&& p.op(x) is TailCall ==> forall|m: Node| reached(p, st, m) && m.inst == x ==> #[trigger] pending(next, m)
    }
}

/// A load that is registered reads what it did, or will be visited.
pub open spec fn recalled(p: ProgramV, st: StateV, next: StateV, root: RootKey, load: Node) -> bool {
    &&& next.mem.loaders.contains((root, load))
    &&& pending(next, load) || forall|key: CellKey|
        key.object() == root ==> #[trigger] value_read(p, next.mem, key, load) == value_read(p, st.mem, key, load)
}

pub open spec fn all_sited(p: ProgramV, st: StateV) -> bool {
    &&& forall|m: Node| #[trigger] pending(st, m) ==> sited(p, m)
    &&& forall|r: RootKey, m: Node| #[trigger] st.mem.loaders.contains((r, m)) ==> sited(p, m)
}

/// What a visit of `n` may do, apart from the edges it takes.
pub open spec fn moves(p: ProgramV, st: StateV, next: StateV, n: Node) -> bool {
    &&& next.lat.len() == st.lat.len()
    &&& next.node_seen == st.node_seen
    &&& next.block_seen == st.block_seen
    &&& next.edges == st.edges
    &&& next.edge_seen == st.edge_seen
    &&& all_sited(p, st) ==> all_sited(p, next)
    &&& forall|m: Node| pending(st, m) ==> #[trigger] pending(next, m)
    &&& forall|x: Inst| #[trigger] stirred(p, st, next, n, x)
    &&& forall|root: RootKey, load: Node|
        st.mem.loaders.contains((root, load)) ==> #[trigger] recalled(p, st, next, root, load)
}

proof fn lemma_nothing_moves(p: ProgramV, st: StateV, n: Node)
    ensures
        moves(p, st, st, n),
{
}

pub(crate) proof fn lemma_moves_on(p: ProgramV, st: StateV, mid: StateV, next: StateV, n: Node)
    requires
        moves(p, st, mid, n),
        moves(p, mid, next, n),
    ensures
        moves(p, st, next, n),
{
    assert forall|m: Node| pending(st, m) implies #[trigger] pending(next, m) by {
        assert(pending(mid, m));
    }
    assert forall|x: Inst| #[trigger] stirred(p, st, next, n, x) by {
        assert(stirred(p, st, mid, n, x));
        assert(stirred(p, mid, next, n, x));
        assert forall|m: Node|
            known(mid.lat, x) != known(st.lat, x) && reached(p, st, m) && p.args(m.inst).contains(x) implies
            #[trigger] pending(next, m) by {
            assert(pending(mid, m));
        }
        assert forall|m: Node|
            known(mid.lat, x) != known(st.lat, x) && p.op(x) is TailCall && reached(p, st, m) && m.inst == x implies
            #[trigger] pending(next, m) by {
            assert(pending(mid, m));
        }
        assert forall|m: Node|
            known(next.lat, x) != known(mid.lat, x) && reached(p, st, m) && p.args(m.inst).contains(x) implies
            #[trigger] pending(next, m) by {
            assert(reached(p, mid, m));
        }
        assert forall|m: Node|
            known(next.lat, x) != known(mid.lat, x) && p.op(x) is TailCall && reached(p, st, m) && m.inst == x implies
            #[trigger] pending(next, m) by {
            assert(reached(p, mid, m));
        }
    }
    assert forall|root: RootKey, load: Node| st.mem.loaders.contains((root, load)) implies #[trigger] recalled(
        p,
        st,
        next,
        root,
        load,
    ) by {
        assert(recalled(p, st, mid, root, load));
        assert(recalled(p, mid, next, root, load));
        if !pending(next, load) {
            assert(!pending(mid, load));
            assert forall|key: CellKey| key.object() == root implies #[trigger] value_read(p, next.mem, key, load)
                == value_read(p, st.mem, key, load) by {
                assert(value_read(p, next.mem, key, load) == value_read(p, mid.mem, key, load));
                assert(value_read(p, mid.mem, key, load) == value_read(p, st.mem, key, load));
            }
        }
    }
}

proof fn lemma_affected(
    p: ProgramV,
    seen: Seq<(Function, BasicBlock)>,
    f: Function,
    users: Seq<Inst>,
    upto: int,
    found: Seq<Node>,
    j: Inst,
)
    requires
        0 <= upto <= users.len(),
        found.contains(Node { func: f, inst: j }) || (exists|k: int| 0 <= k < upto && #[trigger] users[k] == j),
        p.parent_bb(f, j) is Some,
        seen.contains((f, p.parent_bb(f, j)->0)),
    ensures
        affected_among(p, seen, f, users, upto, found).contains(Node { func: f, inst: j }),
    decreases upto,
{
    if upto > 0 {
        let u = users[upto - 1];
        let node = Node { func: f, inst: u };
        let next = match p.parent_bb(f, u) {
            Some(b) => if seen.contains((f, b)) {
                found.push(node)
            } else {
                found
            },
            None => found,
        };
        let wanted = Node { func: f, inst: j };
        if found.contains(wanted) {
            let k = found.index_of(wanted);
            assert(next[k] == wanted);
        } else if u == j {
            assert(next[found.len() as int] == wanted);
        }
        lemma_affected(p, seen, f, users, upto - 1, next, j);
    }
}

proof fn lemma_affected_sited(
    p: ProgramV,
    seen: Seq<(Function, BasicBlock)>,
    f: Function,
    users: Seq<Inst>,
    upto: int,
    found: Seq<Node>,
)
    requires
        0 <= upto <= users.len(),
        forall|m: Node| #[trigger] found.contains(m) ==> sited(p, m),
    ensures
        forall|m: Node| #[trigger] affected_among(p, seen, f, users, upto, found).contains(m) ==> sited(p, m),
    decreases upto,
{
    if upto > 0 {
        let u = users[upto - 1];
        let node = Node { func: f, inst: u };
        let next = match p.parent_bb(f, u) {
            Some(b) => if seen.contains((f, b)) {
                found.push(node)
            } else {
                found
            },
            None => found,
        };
        assert forall|m: Node| #[trigger] next.contains(m) implies sited(p, m) by {
            let k = next.index_of(m);
            if k < found.len() {
                assert(found[k] == m);
                assert(found.contains(m));
            }
        }
        lemma_affected_sited(p, seen, f, users, upto - 1, next);
        assert(affected_among(p, seen, f, users, upto, found) == affected_among(p, seen, f, users, upto - 1, next));
    }
}

/// Every reached user of `c` will be visited.
proof fn lemma_woken(p: ProgramV, st: StateV, c: Node, m: Node)
    requires
        separate(p),
        home(p, c.func, c.inst),
        reached(p, st, m),
        p.args(m.inst).contains(c.inst),
    ensures
        affected(p, st.block_seen, c).contains(m),
{
    assert(own(p, m.func, m.inst));
    assert(c.func == m.func);
    lemma_users(p, c.inst, m.inst, 0, Seq::empty());
    let users = p.users(c.inst);
    let k = users.index_of(m.inst);
    assert(users[k] == m.inst);
    lemma_affected(p, st.block_seen, c.func, users, users.len() as int, Seq::empty(), m.inst);
    assert(m == Node { func: c.func, inst: m.inst });
}

proof fn lemma_nodes_grow(p: ProgramV, st: StateV, next: StateV, more: Seq<Node>)
    requires
        next.nodes == st.nodes + more,
        next.relay == st.relay,
        next.again == st.again,
        forall|m: Node| #[trigger] more.contains(m) ==> sited(p, m),
    ensures
        forall|m: Node| pending(st, m) || more.contains(m) ==> #[trigger] pending(next, m),
        forall|m: Node| #[trigger] pending(next, m) ==> pending(st, m) || sited(p, m),
{
    assert forall|m: Node| pending(st, m) || more.contains(m) implies #[trigger] pending(next, m) by {
        if st.nodes.contains(m) {
            let k = st.nodes.index_of(m);
            assert(next.nodes[k] == m);
        } else if more.contains(m) {
            let k = more.index_of(m);
            assert(next.nodes[st.nodes.len() + k] == m);
        }
    }
    assert forall|m: Node| #[trigger] pending(next, m) implies pending(st, m) || sited(p, m) by {
        if next.nodes.contains(m) {
            let k = next.nodes.index_of(m);
            if k < st.nodes.len() {
                assert(st.nodes[k] == m);
            } else {
                assert(more[k - st.nodes.len()] == m);
                assert(more.contains(m));
            }
        }
    }
}

/// Lowering what is known of `c`.
pub(crate) proof fn lemma_lowered(p: ProgramV, st: StateV, n: Node, c: Node, v: Lattice)
    requires
        separate(p),
        home(p, c.func, c.inst),
        c.inst == n.inst || p.op(c.inst) is BlockArgRef || p.op(c.inst) is Call,
        !(p.op(c.inst) is TailCall),
    ensures
        moves(p, st, lowered(p, st, c, v), n),
        c.inst.0 < st.lat.len() ==> known(lowered(p, st, c, v).lat, c.inst) == known(st.lat, c.inst).meet(v),
        known(lowered(p, st, c, v).lat, c.inst).below(known(st.lat, c.inst)),
        lowered(p, st, c, v).mem == st.mem,
        forall|x: Inst| x != c.inst ==> #[trigger] known(lowered(p, st, c, v).lat, x) == known(st.lat, x),
{
    let next = lowered(p, st, c, v);
    if lowers(st, c, v) {
        let more = affected(p, st.block_seen, c);
        let users = p.users(c.inst);
        lemma_affected_sited(p, st.block_seen, c.func, users, users.len() as int, Seq::empty());
        lemma_nodes_grow(p, st, next, more);
        assert forall|x: Inst| #[trigger] stirred(p, st, next, n, x) by {
            if x.0 == c.inst.0 {
                assert(x == c.inst);
                assert forall|m: Node| reached(p, st, m) && p.args(m.inst).contains(x) implies #[trigger] pending(next, m) by {
                    lemma_woken(p, st, c, m);
                }
            }
        }
        assert forall|x: Inst| x != c.inst implies #[trigger] known(next.lat, x) == known(st.lat, x) by {
            assert(x.0 != c.inst.0);
        }
    }
}

/// Replacing what is known of load `n`.
proof fn lemma_replaced(p: ProgramV, st: StateV, n: Node, v: Lattice)
    requires
        separate(p),
        sited(p, n),
        p.op(n.inst) is Load,
    ensures
        moves(p, st, replaced(p, st, n, v), n),
        n.inst.0 < st.lat.len() ==> known(replaced(p, st, n, v).lat, n.inst) == v,
        replaced(p, st, n, v).mem == st.mem,
{
    let next = replaced(p, st, n, v);
    if n.inst.0 < st.lat.len() && st.lat[n.inst.0 as int] != v {
        let more = affected(p, st.block_seen, n);
        let users = p.users(n.inst);
        lemma_affected_sited(p, st.block_seen, n.func, users, users.len() as int, Seq::empty());
        lemma_nodes_grow(p, st, next, more);
        assert forall|x: Inst| #[trigger] stirred(p, st, next, n, x) by {
            if x.0 == n.inst.0 {
                assert(x == n.inst);
                assert forall|m: Node| reached(p, st, m) && p.args(m.inst).contains(x) implies #[trigger] pending(next, m) by {
                    lemma_woken(p, st, n, m);
                }
            }
        }
    }
}

/// Passing arguments to the parameters of a block or function of `f`.
pub(crate) proof fn lemma_passed(p: ProgramV, st: StateV, n: Node, args: Seq<Inst>, f: Function, params: Seq<Inst>, from: int)
    requires
        separate(p),
        0 <= from,
        forall|k: int| 0 <= k < params.len() ==> home(p, f, #[trigger] params[k]) && p.op(params[k]) is BlockArgRef,
    ensures
        moves(p, st, passed(p, st, args, f, params, from), n),
        passed(p, st, args, f, params, from).mem == st.mem,
    decreases args.len() - from,
{
    if from < args.len() && from < params.len() {
        let c = Node { func: f, inst: params[from] };
        let mid = lowered(p, st, c, known(st.lat, args[from]));
        assert(home(p, f, params[from]));
        lemma_lowered(p, st, n, c, known(st.lat, args[from]));
        lemma_passed(p, mid, n, args, f, params, from + 1);
        lemma_moves_on(p, st, mid, passed(p, mid, args, f, params, from + 1), n);
    }
}

/// Arguments that were passed are taken in, or will be passed again.
proof fn lemma_taken_in(p: ProgramV, st: StateV, n: Node, args: Seq<Inst>, f: Function, params: Seq<Inst>, from: int)
    requires
        separate(p),
        0 <= from,
        forall|k: int| 0 <= k < params.len() ==> home(p, f, #[trigger] params[k]) && p.op(params[k]) is BlockArgRef,
        forall|k: int| 0 <= k < args.len() ==> p.args(n.inst).contains(#[trigger] args[k]),
        reached(p, st, n),
    ensures
        ({
            let next = passed(p, st, args, f, params, from);
            pending(next, n) || forall|k: int|
                from <= k < args.len() && k < params.len() && params[k].0 < next.lat.len() ==> known(
                    next.lat,
                    #[trigger] params[k],
                ).below(known(next.lat, args[k]))
        }),
    decreases args.len() - from,
{
    let next = passed(p, st, args, f, params, from);
    if from < args.len() && from < params.len() {
        let x = params[from];
        let c = Node { func: f, inst: x };
        let v = known(st.lat, args[from]);
        let mid = lowered(p, st, c, v);
        assert(home(p, f, x));
        lemma_lowered(p, st, n, c, v);
        lemma_passed(p, mid, n, args, f, params, from + 1);
        assert(reached(p, mid, n));
        lemma_taken_in(p, mid, n, args, f, params, from + 1);
        if !pending(next, n) {
            assert(stirred(p, mid, next, n, x));
            assert(stirred(p, mid, next, n, args[from]));
            assert(known(mid.lat, args[from]) == v);
            assert(known(next.lat, args[from]) == v);
            assert(p.op(x) is BlockArgRef);
        }
    }
}

/// Returning a value to calls.
proof fn lemma_returned(p: ProgramV, st: StateV, n: Node, calls: Seq<Node>, v: Lattice, from: int)
    requires
        separate(p),
        0 <= from,
        forall|k: int|
            0 <= k < calls.len() ==> sited(p, #[trigger] calls[k]) && (p.op(calls[k].inst) is Call || p.op(calls[k].inst)
                is TailCall),
    ensures
        ({
            let next = returned(p, st, calls, v, from);
            &&& moves(p, st, next, n)
            &&& next.mem == st.mem
            &&& forall|k: int|
                from <= k < calls.len() && calls[k].inst.0 < next.lat.len() ==> known(
                    next.lat,
                    (#[trigger] calls[k]).inst,
                ).below(v)
        }),
    decreases calls.len() - from,
{
    if from < calls.len() {
        let c = calls[from];
        let mid = lowered(p, st, c, v);
        let held = if lowers(st, c, v) && p.op(c.inst) is TailCall {
            StateV { relay: mid.relay.push(c), ..mid }
        } else {
            mid
        };
        assert(sited(p, c));
        lemma_call_lowered(p, st, n, c, v);
        lemma_returned(p, held, n, calls, v, from + 1);
        let next = returned(p, held, calls, v, from + 1);
        lemma_moves_on(p, st, held, next, n);
        assert(stirred(p, held, next, n, c.inst));
    }
}

/// Lowering what is known of a call; a tail call is visited again.
proof fn lemma_call_lowered(p: ProgramV, st: StateV, n: Node, c: Node, v: Lattice)
    requires
        separate(p),
        sited(p, c),
        p.op(c.inst) is Call || p.op(c.inst) is TailCall,
    ensures
        ({
            let mid = lowered(p, st, c, v);
            let held = if lowers(st, c, v) && p.op(c.inst) is TailCall {
                StateV { relay: mid.relay.push(c), ..mid }
            } else {
                mid
            };
            &&& moves(p, st, held, n)
            &&& held.mem == st.mem
            &&& c.inst.0 < st.lat.len() ==> known(held.lat, c.inst).below(v)
        }),
{
    let mid = lowered(p, st, c, v);
    let held = if lowers(st, c, v) && p.op(c.inst) is TailCall {
        StateV { relay: mid.relay.push(c), ..mid }
    } else {
        mid
    };
    if lowers(st, c, v) {
        let more = affected(p, st.block_seen, c);
        let users = p.users(c.inst);
        lemma_affected_sited(p, st.block_seen, c.func, users, users.len() as int, Seq::empty());
        lemma_nodes_grow(p, st, mid, more);
        if p.op(c.inst) is TailCall {
            assert(held.relay[mid.relay.len() as int] == c);
            assert(held.relay.contains(c));
            assert forall|m: Node| pending(mid, m) implies #[trigger] pending(held, m) by {
                if mid.relay.contains(m) {
                    let k = mid.relay.index_of(m);
                    assert(held.relay[k] == m);
                }
            }
            assert forall|m: Node| #[trigger] pending(held, m) implies pending(mid, m) || m == c by {
                if held.relay.contains(m) {
                    let k = held.relay.index_of(m);
                    if k < mid.relay.len() {
                        assert(mid.relay[k] == m);
                    }
                }
            }
        }
        assert forall|m: Node| pending(st, m) implies #[trigger] pending(held, m) by {
            assert(pending(mid, m));
        }
        assert forall|x: Inst| #[trigger] stirred(p, st, held, n, x) by {
            if x.0 == c.inst.0 {
                assert(x == c.inst);
                assert forall|m: Node| reached(p, st, m) && p.args(m.inst).contains(x) implies #[trigger] pending(held, m) by {
                    lemma_woken(p, st, c, m);
                    assert(pending(mid, m));
                }
                assert forall|m: Node| p.op(x) is TailCall && reached(p, st, m) && m.inst == x implies #[trigger] pending(
                    held,
                    m,
                ) by {
                    assert(own(p, c.func, c.inst));
                    assert(p.parent_bb(m.func, x) is Some);
                    assert(m == c);
                }
            }
        }
        assert forall|m: Node| all_sited(p, st) && #[trigger] pending(held, m) implies sited(p, m) by {
            assert(pending(mid, m) || m == c);
        }
    }
}

proof fn lemma_loads(loaders: Seq<(RootKey, Node)>, root: RootKey, from: int, found: Seq<Node>)
    requires
        0 <= from <= loaders.len(),
    ensures
        forall|m: Node|
            #[trigger] loads_of(loaders, root, from, found).contains(m) <==> found.contains(m) || exists|k: int|
                from <= k < loaders.len() && #[trigger] loaders[k] == (root, m),
    decreases loaders.len() - from,
{
    let r = loads_of(loaders, root, from, found);
    if from < loaders.len() {
        let next = if loaders[from].0 == root {
            found.push(loaders[from].1)
        } else {
            found
        };
        lemma_loads(loaders, root, from + 1, next);
        assert(r == loads_of(loaders, root, from + 1, next));
        assert forall|m: Node| #[trigger] r.contains(m) implies found.contains(m) || exists|k: int|
            from <= k < loaders.len() && #[trigger] loaders[k] == (root, m) by {
            if next.contains(m) && !found.contains(m) {
                let k = next.index_of(m);
                assert(next[k] == loaders[from].1);
                assert(loaders[from] == (root, m));
            }
        }
        assert forall|m: Node|
            found.contains(m) || (exists|k: int| from <= k < loaders.len() && #[trigger] loaders[k] == (root, m)) implies
            #[trigger] r.contains(m) by {
            if found.contains(m) {
                let k = found.index_of(m);
                assert(next[k] == m);
            } else {
                let k = choose|k: int| from <= k < loaders.len() && #[trigger] loaders[k] == (root, m);
                if k == from {
                    assert(next[found.len() as int] == m);
                }
            }
        }
    }
}

/// Memory after some of it changed: loads of objects that changed look again.
pub open spec fn mem_moves(p: ProgramV, m: MemV, next: MemV, again: Seq<Node>, more: Seq<Node>) -> bool {
    &&& next.loaders == m.loaders
    &&& forall|l: Node| again.contains(l) ==> #[trigger] more.contains(l)
    &&& forall|l: Node| #[trigger] more.contains(l) ==> again.contains(l) || exists|r: RootKey|
        #[trigger] m.loaders.contains((r, l))
    &&& forall|key: CellKey, l: Node|
        m.loaders.contains((key.object(), l)) ==> more.contains(l) || #[trigger] value_read(p, next, key, l) == value_read(
            p,
            m,
            key,
            l,
        )
}

proof fn lemma_mem_moves(p: ProgramV, st: StateV, next: StateV, n: Node)
    requires
        mem_moves(p, st.mem, next.mem, st.again, next.again),
        next == (StateV { mem: next.mem, again: next.again, ..st }),
    ensures
        moves(p, st, next, n),
{
    assert forall|m: Node| pending(st, m) implies #[trigger] pending(next, m) by {}
    assert forall|m: Node| all_sited(p, st) && #[trigger] pending(next, m) implies sited(p, m) by {
        if next.again.contains(m) && !st.again.contains(m) {
            let r = choose|r: RootKey| #[trigger] st.mem.loaders.contains((r, m));
            assert(st.mem.loaders.contains((r, m)));
        } else {
            assert(pending(st, m));
        }
    }
    assert forall|root: RootKey, load: Node| st.mem.loaders.contains((root, load)) implies #[trigger] recalled(
        p,
        st,
        next,
        root,
        load,
    ) by {
        if !pending(next, load) {
            assert forall|key: CellKey| key.object() == root implies #[trigger] value_read(p, next.mem, key, load)
                == value_read(p, st.mem, key, load) by {
                assert(st.mem.loaders.contains((key.object(), load)));
            }
        }
    }
}

/// Loads of `root` added to the list.
proof fn lemma_root_changed(p: ProgramV, m: MemV, next: MemV, root: RootKey, again: Seq<Node>, changed: bool)
    requires
        next.loaders == m.loaders,
        forall|key: CellKey, l: Node|
            key.object() != root || !changed ==> #[trigger] value_read(p, next, key, l) == value_read(p, m, key, l),
    ensures
        mem_moves(
            p,
            m,
            next,
            again,
            if changed {
                again + loads_of(next.loaders, root, 0, Seq::empty())
            } else {
                again
            },
        ),
{
    let loads = loads_of(next.loaders, root, 0, Seq::empty());
    let more = if changed {
        again + loads
    } else {
        again
    };
    lemma_loads(next.loaders, root, 0, Seq::empty());
    assert forall|l: Node| again.contains(l) implies #[trigger] more.contains(l) by {
        let k = again.index_of(l);
        assert(more[k] == l);
    }
    assert forall|l: Node| #[trigger] more.contains(l) implies again.contains(l) || exists|r: RootKey|
        #[trigger] m.loaders.contains((r, l)) by {
        let k = more.index_of(l);
        if k < again.len() {
            assert(again[k] == l);
        } else {
            assert(loads[k - again.len()] == l);
            assert(loads.contains(l));
            let j = choose|j: int| 0 <= j < next.loaders.len() && #[trigger] next.loaders[j] == (root, l);
            assert(m.loaders.contains((root, l)));
        }
    }
    assert forall|key: CellKey, l: Node| m.loaders.contains((key.object(), l)) implies more.contains(l) || #[trigger] value_read(
        p,
        next,
        key,
        l,
    ) == value_read(p, m, key, l) by {
        if key.object() == root && changed {
            let j = m.loaders.index_of((root, l));
            assert(next.loaders[j] == (root, l));
            assert(loads.contains(l));
            let k = loads.index_of(l);
            assert(more[again.len() + k] == l);
        }
    }
}

proof fn lemma_mem_moves_on(p: ProgramV, m: MemV, mid: MemV, next: MemV, again: Seq<Node>, some: Seq<Node>, more: Seq<Node>)
    requires
        mem_moves(p, m, mid, again, some),
        mem_moves(p, mid, next, some, more),
    ensures
        mem_moves(p, m, next, again, more),
{
    assert forall|l: Node| again.contains(l) implies #[trigger] more.contains(l) by {
        assert(some.contains(l));
    }
    assert forall|l: Node| #[trigger] more.contains(l) implies again.contains(l) || exists|r: RootKey|
        #[trigger] m.loaders.contains((r, l)) by {
        if !some.contains(l) {
            let r = choose|r: RootKey| #[trigger] mid.loaders.contains((r, l));
            assert(m.loaders.contains((r, l)));
        }
    }
    assert forall|key: CellKey, l: Node| m.loaders.contains((key.object(), l)) implies more.contains(l) || #[trigger] value_read(
        p,
        next,
        key,
        l,
    ) == value_read(p, m, key, l) by {
        assert(mid.loaders.contains((key.object(), l)));
        assert(some.contains(l) || value_read(p, mid, key, l) == value_read(p, m, key, l));
    }
}

proof fn lemma_roots_cleared(p: ProgramV, m: MemV, roots: Seq<RootKey>, from: int, again: Seq<Node>)
    requires
        0 <= from,
    ensures
        mem_moves(p, m, roots_cleared(m, roots, from, again).0, again, roots_cleared(m, roots, from, again).1),
    decreases roots.len() - from,
{
    if from < roots.len() {
        let (mid, changed) = root_cleared(m, roots[from]);
        assert forall|key: CellKey, l: Node| key.object() != roots[from] || !changed implies #[trigger] value_read(
            p,
            mid,
            key,
            l,
        ) == value_read(p, m, key, l) by {
            forgetting_is_local(p, m, roots[from], key, l);
        }
        lemma_root_changed(p, m, mid, roots[from], again, changed);
        let some = if changed {
            again + loads_of(mid.loaders, roots[from], 0, Seq::empty())
        } else {
            again
        };
        lemma_roots_cleared(p, mid, roots, from + 1, some);
        let (next, more) = roots_cleared(mid, roots, from + 1, some);
        lemma_mem_moves_on(p, m, mid, next, again, some, more);
    }
}

proof fn lemma_all_loads(loaders: Seq<(RootKey, Node)>, from: int, found: Seq<Node>)
    requires
        0 <= from <= loaders.len(),
    ensures
        ({
            let r = all_loads(loaders, from, found);
            &&& forall|l: Node| found.contains(l) ==> #[trigger] r.contains(l)
            &&& forall|k: int| from <= k < loaders.len() ==> r.contains((#[trigger] loaders[k]).1)
            &&& forall|l: Node| #[trigger] r.contains(l) ==> found.contains(l) || exists|k: int|
                from <= k < loaders.len() && (#[trigger] loaders[k]).1 == l
        }),
    decreases loaders.len() - from,
{
    if from < loaders.len() {
        let next = found.push(loaders[from].1);
        lemma_all_loads(loaders, from + 1, next);
        assert(next[found.len() as int] == loaders[from].1);
        assert forall|l: Node| found.contains(l) implies #[trigger] next.contains(l) by {
            assert(next[found.index_of(l)] == l);
        }
        assert forall|l: Node| #[trigger] next.contains(l) implies found.contains(l) || l == loaders[from].1 by {
            let k = next.index_of(l);
            if k < found.len() {
                assert(found[k] == l);
            }
        }
        let r = all_loads(loaders, from, found);
        assert(r == all_loads(loaders, from + 1, next));
        assert(next.contains(loaders[from].1));
        assert forall|k: int| from <= k < loaders.len() implies r.contains((#[trigger] loaders[k]).1) by {
            if k == from {
                assert(r.contains(loaders[from].1));
            }
        }
        assert forall|l: Node| #[trigger] r.contains(l) implies found.contains(l) || exists|k: int|
            from <= k < loaders.len() && (#[trigger] loaders[k]).1 == l by {
            if !next.contains(l) {
                let k = choose|k: int| from + 1 <= k < loaders.len() && (#[trigger] loaders[k]).1 == l;
                assert(loaders[k].1 == l);
            } else if !found.contains(l) {
                assert(loaders[from].1 == l);
            }
        }
    }
}

proof fn lemma_all_lost(p: ProgramV, m: MemV, again: Seq<Node>)
    ensures
        mem_moves(p, m, all_lost(m, again).0, again, all_lost(m, again).1),
{
    let (next, more) = all_lost(m, again);
    if !m.lost {
        let loads = all_loads(m.loaders, 0, Seq::empty());
        lemma_all_loads(m.loaders, 0, Seq::empty());
        assert(more == again + loads);
        assert forall|l: Node| again.contains(l) implies #[trigger] more.contains(l) by {
            assert(more[again.index_of(l)] == l);
        }
        assert forall|l: Node| #[trigger] more.contains(l) implies again.contains(l) || exists|r: RootKey|
            #[trigger] m.loaders.contains((r, l)) by {
            let k = more.index_of(l);
            if k < again.len() {
                assert(again[k] == l);
            } else {
                assert(loads[k - again.len()] == l);
                assert(loads.contains(l));
                let j = choose|j: int| 0 <= j < m.loaders.len() && (#[trigger] m.loaders[j]).1 == l;
                assert(m.loaders.contains((m.loaders[j].0, l)));
            }
        }
        assert forall|key: CellKey, l: Node| m.loaders.contains((key.object(), l)) implies more.contains(l)
            || #[trigger] value_read(p, next, key, l) == value_read(p, m, key, l) by {
            let j = m.loaders.index_of((key.object(), l));
            assert(loads.contains(m.loaders[j].1));
            let k = loads.index_of(l);
            assert(more[again.len() + k] == l);
        }
    }
}

proof fn lemma_blurred(p: ProgramV, m: MemV, f: Function, addr: Inst, again: Seq<Node>)
    ensures
        mem_moves(p, m, write_blurred(p, m, f, addr, again).0, again, write_blurred(p, m, f, addr, again).1),
{
    match target_of(p, f, addr) {
        Some(root) => lemma_roots_cleared(p, m, seq![root], 0, again),
        None => lemma_all_lost(p, m, again),
    }
}

proof fn lemma_store_visited(p: ProgramV, st: StateV, n: Node)
    ensures
        moves(p, st, store_visited(p, st, n), n),
{
    let next = store_visited(p, st, n);
    match cell_of(p, n.func, p.arg(n.inst, 1)) {
        Some((key, root)) => {
            let v = known(st.lat, p.arg(n.inst, 0));
            let (mem, changed) = written(st.mem, key, n, v);
            assert(root == key.object());
            assert forall|k: CellKey, l: Node| k.object() != root || !changed implies #[trigger] value_read(p, mem, k, l)
                == value_read(p, st.mem, k, l) by {
                writing_is_local(p, st.mem, key, n, v, k, l);
            }
            lemma_root_changed(p, st.mem, mem, root, st.again, changed);
            lemma_mem_moves(p, st, next, n);
        },
        None => {
            lemma_blurred(p, st.mem, n.func, p.arg(n.inst, 1), st.again);
            lemma_mem_moves(p, st, next, n);
        },
    }
}

proof fn lemma_clear_visited(p: ProgramV, st: StateV, n: Node, len: Option<usize>)
    ensures
        moves(p, st, clear_visited(p, st, n, len), n),
{
    let next = clear_visited(p, st, n, len);
    match (cell_of(p, n.func, p.arg(n.inst, 0)), len) {
        (Some((key, root)), Some(len)) => {
            let to = crate::mem_state::end_of(key.at(), len as int);
            let (wider, grown) = zeroed(st.mem, root, key.at(), to);
            let (mem, new) = clear_noted(wider, root, key.at(), to, n);
            let changed = grown || new;
            assert forall|k: CellKey, l: Node| k.object() != root || !changed implies #[trigger] value_read(p, mem, k, l)
                == value_read(p, st.mem, k, l) by {
                zeroing_is_local(p, st.mem, root, key.at(), to, k, l);
                clearing_is_local(p, wider, root, key.at(), to, n, k, l);
            }
            lemma_root_changed(p, st.mem, mem, root, st.again, changed);
        },
        (Some((_, root)), None) => {
            lemma_roots_cleared(p, st.mem, seq![root], 0, st.again);
        },
        (None, _) => {
            lemma_blurred(p, st.mem, n.func, p.arg(n.inst, 0), st.again);
        },
    }
    lemma_mem_moves(p, st, next, n);
}

proof fn lemma_call_forgotten(p: ProgramV, st: StateV, n: Node, g: Function)
    ensures
        moves(p, st, call_forgotten(p, st, n, g), n),
        call_forgotten(p, st, n, g).lat == st.lat,
{
    match crate::effects::call_roots(p, g, n.func, true) {
        Some(roots) => {
            lemma_roots_cleared(p, st.mem, crate::mem_state::keys_from(roots, 0, Seq::empty()), 0, st.again);
        },
        None => {
            lemma_all_lost(p, st.mem, st.again);
        },
    }
    lemma_mem_moves(p, st, call_forgotten(p, st, n, g), n);
}

/// Registering a load does not change what is read.
proof fn lemma_load_visited(p: ProgramV, st: StateV, n: Node)
    requires
        separate(p),
        sited(p, n),
        p.op(n.inst) is Load,
        st.lat.len() == p.insts.len(),
    ensures
        ({
            let next = load_visited(p, st, n);
            &&& moves(p, st, next, n)
            &&& match cell_of(p, n.func, p.arg(n.inst, 0)) {
                Some((key, root)) => if p.ty(n.inst) is I32 {
                    known(next.lat, n.inst) == value_read(p, next.mem, key, n) && next.mem.loaders.contains((root, n))
                } else {
                    known(next.lat, n.inst) == Lattice::Bottom
                },
                None => known(next.lat, n.inst) == Lattice::Bottom,
            }
        }),
{
    let next = load_visited(p, st, n);
    assert(own(p, n.func, n.inst));
    match cell_of(p, n.func, p.arg(n.inst, 0)) {
        Some((key, root)) => if p.ty(n.inst) is I32 {
            let v = value_read(p, st.mem, key, n);
            let mid = replaced(p, st, n, v);
            lemma_replaced(p, st, n, v);
            if !mid.mem.loaders.contains((root, n)) {
                assert(next.mem.loaders[mid.mem.loaders.len() as int] == (root, n));
                assert forall|m: Node| pending(mid, m) implies #[trigger] pending(next, m) by {}
                assert forall|r: RootKey, l: Node| mid.mem.loaders.contains((r, l)) implies next.mem.loaders.contains((r, l)) by {
                    let k = mid.mem.loaders.index_of((r, l));
                    assert(next.mem.loaders[k] == (r, l));
                }
                assert forall|r: RootKey, l: Node| #[trigger] next.mem.loaders.contains((r, l)) implies mid.mem.loaders.contains(
                    (r, l),
                ) || l == n by {
                    let k = next.mem.loaders.index_of((r, l));
                    if k < mid.mem.loaders.len() {
                        assert(mid.mem.loaders[k] == (r, l));
                    }
                }
                assert forall|m: Node| all_sited(p, mid) && #[trigger] pending(next, m) implies sited(p, m) by {
                    assert(pending(mid, m));
                }
                assert forall|r: RootKey, l: Node| mid.mem.loaders.contains((r, l)) implies #[trigger] recalled(
                    p,
                    mid,
                    next,
                    r,
                    l,
                ) by {}
                assert forall|x: Inst| #[trigger] stirred(p, mid, next, n, x) by {}
                assert(moves(p, mid, next, n));
                lemma_moves_on(p, st, mid, next, n);
            }
        } else {
            lemma_lowered(p, st, n, n, Lattice::Bottom);
        },
        None => {
            lemma_lowered(p, st, n, n, Lattice::Bottom);
        },
    }
}

pub(crate) proof fn lemma_has_parent(p: ProgramV, f: Function, i: Inst, b: BasicBlock, from: int)
    requires
        0 <= from,
        exists|k: int| from <= k < p.func(f).blocks.len() && #[trigger] p.func(f).blocks[k] == b,
        p.block(b).insts.contains(i),
    ensures
        p.parent_from(f, i, from) is Some,
    decreases p.func(f).blocks.len() - from,
{
    let k = choose|k: int| from <= k < p.func(f).blocks.len() && #[trigger] p.func(f).blocks[k] == b;
    if !p.block(p.func(f).blocks[from]).insts.contains(i) {
        assert(k > from);
        lemma_has_parent(p, f, i, b, from + 1);
    }
}

pub(crate) proof fn lemma_placed(p: ProgramV, f: Function, from: int, found: Seq<Inst>)
    requires
        0 <= from,
        forall|i: Inst| #[trigger] found.contains(i) ==> p.parent_bb(f, i) is Some,
    ensures
        forall|i: Inst| #[trigger] p.placed_from(f, from, found).contains(i) ==> p.parent_bb(f, i) is Some,
    decreases p.func(f).blocks.len() - from,
{
    if from < p.func(f).blocks.len() {
        let b = p.func(f).blocks[from];
        let next = found + p.block(b).insts;
        assert forall|i: Inst| #[trigger] next.contains(i) implies p.parent_bb(f, i) is Some by {
            let k = next.index_of(i);
            if k < found.len() {
                assert(found[k] == i);
                assert(found.contains(i));
            } else {
                assert(p.block(b).insts[k - found.len()] == i);
                assert(p.block(b).insts.contains(i));
                lemma_has_parent(p, f, i, b, 0);
            }
        }
        lemma_placed(p, f, from + 1, next);
        assert(p.placed_from(f, from, found) == p.placed_from(f, from + 1, next));
    }
}

/// Calls are calls, and stand in their functions.
pub open spec fn all_calls(p: ProgramV, list: Seq<Node>) -> bool {
    forall|k: int|
        0 <= k < list.len() ==> sited(p, #[trigger] list[k]) && (p.op(list[k].inst) is Call || p.op(list[k].inst) is TailCall)
}

proof fn lemma_sites_in(p: ProgramV, g: Function, insts: Seq<Inst>, f: Function, from: int, found: Seq<Node>)
    requires
        0 <= from,
        all_calls(p, found),
        forall|i: Inst| #[trigger] insts.contains(i) ==> p.parent_bb(g, i) is Some,
    ensures
        all_calls(p, sites_in(p, g, insts, f, from, found)),
    decreases insts.len() - from,
{
    if from < insts.len() {
        assert(insts.contains(insts[from]));
        if p.op(insts[from]) == Op::Call(f) || p.op(insts[from]) == Op::TailCall(f) {
            lemma_sites_in(p, g, insts, f, from + 1, found.push(Node { func: g, inst: insts[from] }));
        } else {
            lemma_sites_in(p, g, insts, f, from + 1, found);
        }
    }
}

pub(crate) proof fn lemma_sites(p: ProgramV, layout: Seq<Function>, f: Function, from: int, found: Seq<Node>)
    requires
        0 <= from,
        all_calls(p, found),
    ensures
        all_calls(p, sites_from(p, layout, f, from, found)),
    decreases layout.len() - from,
{
    if from < layout.len() {
        lemma_placed(p, layout[from], 0, Seq::empty());
        lemma_sites_in(p, layout[from], p.placed(layout[from]), f, 0, found);
        lemma_sites(p, layout, f, from + 1, sites_in(p, layout[from], p.placed(layout[from]), f, 0, found));
    }
}

pub(crate) proof fn lemma_block_params(p: ProgramV, f: Function, b: BasicBlock)
    requires
        separate(p),
        p.func(f).blocks.contains(b),
    ensures
        forall|k: int|
            0 <= k < p.block(b).params.len() ==> home(p, f, #[trigger] p.block(b).params[k]) && p.op(p.block(b).params[k])
                is BlockArgRef,
{
    assert forall|k: int| 0 <= k < p.block(b).params.len() implies home(p, f, #[trigger] p.block(b).params[k]) && p.op(
        p.block(b).params[k],
    ) is BlockArgRef by {
        assert(p.block(b).params.contains(p.block(b).params[k]));
    }
}

pub(crate) proof fn lemma_func_params(p: ProgramV, f: Function)
    requires
        separate(p),
    ensures
        forall|k: int|
            0 <= k < p.func(f).params.len() ==> home(p, f, #[trigger] p.func(f).params[k]) && p.op(p.func(f).params[k]) is BlockArgRef,
{
    assert forall|k: int| 0 <= k < p.func(f).params.len() implies home(p, f, #[trigger] p.func(f).params[k]) && p.op(
        p.func(f).params[k],
    ) is BlockArgRef by {
        assert(p.func(f).params.contains(p.func(f).params[k]));
    }
}

proof fn lemma_args_of(p: ProgramV, i: Inst)
    ensures
        forall|k: int| 0 <= k < p.args(i).len() ==> p.args(i).contains(#[trigger] p.args(i)[k]),
        p.op(i) is Branch ==> forall|k: int|
            0 <= k < p.t_args(i).len() ==> p.args(i).contains(#[trigger] p.t_args(i)[k]),
        p.op(i) is Branch ==> forall|k: int|
            0 <= k < p.f_args(i).len() ==> p.args(i).contains(#[trigger] p.f_args(i)[k]),
{
    if let Op::Branch(_, _, n) = p.op(i) {
        assert forall|k: int| 0 <= k < p.t_args(i).len() implies p.args(i).contains(#[trigger] p.t_args(i)[k]) by {
            assert(p.t_args(i)[k] == p.args(i)[k + 1]);
        }
        assert forall|k: int| 0 <= k < p.f_args(i).len() implies p.args(i).contains(#[trigger] p.f_args(i)[k]) by {
            assert(p.f_args(i)[k] == p.args(i)[k + n + 1]);
        }
    }
}

/// What passing on leaves stays while nothing changes that it depends on.
proof fn lemma_taken_in_kept(
    p: ProgramV,
    st: StateV,
    next: StateV,
    n: Node,
    m: Node,
    args: Seq<Inst>,
    params: Seq<Inst>,
)
    requires
        moves(p, st, next, n),
        taken_in(st.lat, args, params),
        reached(p, st, m),
        !pending(next, m),
        forall|k: int| 0 <= k < args.len() ==> p.args(m.inst).contains(#[trigger] args[k]),
        forall|k: int| 0 <= k < params.len() ==> p.op(#[trigger] params[k]) is BlockArgRef,
    ensures
        taken_in(next.lat, args, params),
{
    assert forall|k: int| 0 <= k < args.len() && k < params.len() && params[k].0 < next.lat.len() implies known(
        next.lat,
        #[trigger] params[k],
    ).below(known(next.lat, args[k])) by {
        assert(stirred(p, st, next, n, params[k]));
        assert(stirred(p, st, next, n, args[k]));
        assert(known(st.lat, params[k]).below(known(st.lat, args[k])));
    }
}

proof fn lemma_handed_back_kept(p: ProgramV, st: StateV, next: StateV, n: Node, calls: Seq<Node>, v: Lattice)
    requires
        moves(p, st, next, n),
        all_calls(p, calls),
        handed_back(st.lat, calls, v),
    ensures
        handed_back(next.lat, calls, v),
{
    assert forall|k: int| 0 <= k < calls.len() && calls[k].inst.0 < next.lat.len() implies known(
        next.lat,
        (#[trigger] calls[k]).inst,
    ).below(v) by {
        assert(stirred(p, st, next, n, calls[k].inst));
    }
}

/// What is known of `m` stays settled while nothing changes that it depends on.
proof fn lemma_values_kept(p: ProgramV, st: StateV, next: StateV, n: Node, m: Node)
    requires
        separate(p),
        moves(p, st, next, n),
        values_settled(p, st, m),
        reached(p, st, m),
        !pending(next, m),
        m != n,
        sited(p, n),
    ensures
        values_settled(p, next, m),
        p.op(m.inst) is Branch ==> known(next.lat, p.arg(m.inst, 0)) == known(st.lat, p.arg(m.inst, 0)),
{
    let i = m.inst;
    assert(own(p, m.func, i));
    lemma_args_of(p, i);
    assert(stirred(p, st, next, n, i));
    if i == n.inst {
        assert(p.parent_bb(n.func, i) is Some);
        assert(m == n);
    }
    match p.op(i) {
        Op::Load => {
            if let Some((key, root)) = cell_of(p, m.func, p.arg(i, 0)) {
                if p.ty(i) is I32 {
                    assert(recalled(p, st, next, root, m));
                    assert(key.object() == root);
                }
            }
        },
        Op::Binary(_) => {
            assert(p.args(i)[0] == p.arg(i, 0) && p.args(i)[1] == p.arg(i, 1));
            assert(stirred(p, st, next, n, p.arg(i, 0)));
            assert(stirred(p, st, next, n, p.arg(i, 1)));
        },
        Op::Select => {
            assert(p.args(i)[0] == p.arg(i, 0) && p.args(i)[1] == p.arg(i, 1) && p.args(i)[2] == p.arg(i, 2));
            assert(stirred(p, st, next, n, p.arg(i, 0)));
            assert(stirred(p, st, next, n, p.arg(i, 1)));
            assert(stirred(p, st, next, n, p.arg(i, 2)));
        },
        Op::Jump(t) => {
            lemma_block_params(p, m.func, t);
            lemma_taken_in_kept(p, st, next, n, m, p.args(i), p.block(t).params);
        },
        Op::Branch(t, e, _) => {
            assert(p.args(i)[0] == p.arg(i, 0));
            assert(stirred(p, st, next, n, p.arg(i, 0)));
            lemma_block_params(p, m.func, t);
            lemma_block_params(p, m.func, e);
            if taken_in(st.lat, p.t_args(i), p.block(t).params) {
                lemma_taken_in_kept(p, st, next, n, m, p.t_args(i), p.block(t).params);
            }
            if taken_in(st.lat, p.f_args(i), p.block(e).params) {
                lemma_taken_in_kept(p, st, next, n, m, p.f_args(i), p.block(e).params);
            }
        },
        Op::Return => {
            if p.args(i).len() > 0 {
                assert(p.args(i)[0] == p.arg(i, 0));
                assert(stirred(p, st, next, n, p.arg(i, 0)));
                lemma_sites(p, p.layout, m.func, 0, Seq::empty());
                lemma_handed_back_kept(p, st, next, n, sites(p, m.func), known(st.lat, p.arg(i, 0)));
            }
        },
        Op::Call(g) => {
            lemma_func_params(p, g);
            if p.func(g).blocks.len() > 0 {
                lemma_taken_in_kept(p, st, next, n, m, p.args(i), p.func(g).params);
            }
        },
        Op::TailCall(g) => {
            lemma_func_params(p, g);
            if p.func(g).blocks.len() > 0 {
                lemma_taken_in_kept(p, st, next, n, m, p.args(i), p.func(g).params);
            }
            lemma_sites(p, p.layout, m.func, 0, Seq::empty());
            lemma_handed_back_kept(p, st, next, n, sites(p, m.func), known(st.lat, i));
        },
        _ => {},
    }
}

/// A visit of `n` moves only what it should, and leaves `n` settled or to be visited again.
pub(crate) proof fn lemma_transferred(p: ProgramV, st: StateV, n: Node)
    requires
        separate(p),
        sited(p, n),
        st.lat.len() == p.insts.len(),
    ensures
        moves(p, st, transferred(p, st, n), n),
        reached(p, st, n) ==> pending(transferred(p, st, n), n) || values_settled(p, transferred(p, st, n), n),
{
    let i = n.inst;
    let next = transferred(p, st, n);
    assert(own(p, n.func, i));
    lemma_args_of(p, i);
    lemma_nothing_moves(p, st, n);
    match p.op(i) {
        Op::GetElemPtr | Op::Alloc | Op::Fma | Op::VectorOp => {
            lemma_lowered(p, st, n, n, Lattice::Bottom);
        },
        Op::Load => {
            lemma_load_visited(p, st, n);
        },
        Op::Binary(op) => {
            let a = p.arg(i, 0);
            let b = p.arg(i, 1);
            let v = binary_value(op, known(st.lat, a), known(st.lat, b));
            lemma_lowered(p, st, n, n, v);
            assert(p.args(i)[0] == a && p.args(i)[1] == b);
            assert(stirred(p, st, next, n, a));
            assert(stirred(p, st, next, n, b));
        },
        Op::Select => {
            let c = p.arg(i, 0);
            let a = p.arg(i, 1);
            let b = p.arg(i, 2);
            let v = select_value(known(st.lat, c), known(st.lat, a), known(st.lat, b));
            lemma_lowered(p, st, n, n, v);
            assert(p.args(i)[0] == c && p.args(i)[1] == a && p.args(i)[2] == b);
            assert(stirred(p, st, next, n, c));
            assert(stirred(p, st, next, n, a));
            assert(stirred(p, st, next, n, b));
        },
        Op::Cast => {
            lemma_lowered(p, st, n, n, cast_value(p, i));
        },
        Op::Jump(t) => {
            lemma_block_params(p, n.func, t);
            lemma_passed(p, st, n, p.args(i), n.func, p.block(t).params, 0);
            if reached(p, st, n) {
                lemma_taken_in(p, st, n, p.args(i), n.func, p.block(t).params, 0);
            }
        },
        Op::Branch(t, e, _) => {
            lemma_branch(p, st, n, t, e);
        },
        Op::Store => {
            lemma_store_visited(p, st, n);
        },
        Op::MemZero(len) => {
            lemma_clear_visited(p, st, n, Some(len));
        },
        Op::MemZeroDyn => {
            lemma_clear_visited(p, st, n, None);
        },
        Op::Call(g) => {
            lemma_call(p, st, n, g);
        },
        Op::TailCall(g) => {
            lemma_tail_call(p, st, n, g);
        },
        Op::Return => {
            if p.args(i).len() > 0 {
                let v = known(st.lat, p.arg(i, 0));
                lemma_sites(p, p.layout, n.func, 0, Seq::empty());
                lemma_returned(p, st, n, sites(p, n.func), v, 0);
                assert(p.args(i)[0] == p.arg(i, 0));
                assert(stirred(p, st, next, n, p.arg(i, 0)));
            }
        },
        _ => {},
    }
}

proof fn lemma_branch(p: ProgramV, st: StateV, n: Node, t: BasicBlock, e: BasicBlock)
    requires
        separate(p),
        sited(p, n),
        p.op(n.inst) is Branch,
        p.op(n.inst)->Branch_0 == t,
        p.op(n.inst)->Branch_1 == e,
    ensures
        moves(p, st, branch_visited(p, st, n, t, e), n),
        reached(p, st, n) ==> pending(branch_visited(p, st, n, t, e), n) || values_settled(
            p,
            branch_visited(p, st, n, t, e),
            n,
        ),
{
    let i = n.inst;
    let next = branch_visited(p, st, n, t, e);
    assert(own(p, n.func, i));
    lemma_args_of(p, i);
    lemma_nothing_moves(p, st, n);
    lemma_block_params(p, n.func, t);
    lemma_block_params(p, n.func, e);
    let tp = p.block(t).params;
    let ep = p.block(e).params;
    lemma_passed(p, st, n, p.t_args(i), n.func, tp, 0);
    lemma_passed(p, st, n, p.f_args(i), n.func, ep, 0);
    let mid = passed(p, st, p.t_args(i), n.func, tp, 0);
    lemma_passed(p, mid, n, p.f_args(i), n.func, ep, 0);
    let last = passed(p, mid, p.f_args(i), n.func, ep, 0);
    lemma_moves_on(p, st, mid, last, n);
    if reached(p, st, n) {
        lemma_taken_in(p, st, n, p.t_args(i), n.func, tp, 0);
        lemma_taken_in(p, st, n, p.f_args(i), n.func, ep, 0);
        assert(reached(p, mid, n));
        lemma_taken_in(p, mid, n, p.f_args(i), n.func, ep, 0);
        if !pending(last, n) {
            assert(!pending(mid, n));
            lemma_taken_in_kept(p, mid, last, n, n, p.t_args(i), tp);
        }
        assert(p.args(i)[0] == p.arg(i, 0));
        assert(stirred(p, st, next, n, p.arg(i, 0)));
    }
}

proof fn lemma_call(p: ProgramV, st: StateV, n: Node, g: Function)
    requires
        separate(p),
        sited(p, n),
        p.op(n.inst) == Op::Call(g),
        st.lat.len() == p.insts.len(),
    ensures
        moves(p, st, call_visited(p, st, n, g), n),
        reached(p, st, n) ==> pending(call_visited(p, st, n, g), n) || values_settled(p, call_visited(p, st, n, g), n),
{
    let i = n.inst;
    let next = call_visited(p, st, n, g);
    assert(own(p, n.func, i));
    lemma_args_of(p, i);
    lemma_func_params(p, g);
    let mid = if p.func(g).blocks.len() == 0 {
        lowered(p, st, n, Lattice::Bottom)
    } else {
        passed(p, st, p.args(i), g, p.func(g).params, 0)
    };
    if p.func(g).blocks.len() == 0 {
        lemma_lowered(p, st, n, n, Lattice::Bottom);
    } else {
        lemma_passed(p, st, n, p.args(i), g, p.func(g).params, 0);
        if reached(p, st, n) {
            lemma_taken_in(p, st, n, p.args(i), g, p.func(g).params, 0);
        }
    }
    lemma_call_forgotten(p, mid, n, g);
    lemma_moves_on(p, st, mid, next, n);
    if pending(mid, n) {
        assert(pending(next, n));
    }
}

proof fn lemma_tail_call(p: ProgramV, st: StateV, n: Node, g: Function)
    requires
        separate(p),
        sited(p, n),
        p.op(n.inst) == Op::TailCall(g),
        st.lat.len() == p.insts.len(),
    ensures
        moves(p, st, tail_call_visited(p, st, n, g), n),
        reached(p, st, n) ==> pending(tail_call_visited(p, st, n, g), n) || values_settled(
            p,
            tail_call_visited(p, st, n, g),
            n,
        ),
{
    let i = n.inst;
    let last = tail_call_visited(p, st, n, g);
    assert(own(p, n.func, i));
    lemma_args_of(p, i);
    lemma_func_params(p, g);
    lemma_nothing_moves(p, st, n);
    let params = p.func(g).params;
    let next = if p.func(g).blocks.len() == 0 {
        st
    } else {
        passed(p, st, p.args(i), g, params, 0)
    };
    if p.func(g).blocks.len() > 0 {
        lemma_passed(p, st, n, p.args(i), g, params, 0);
        if reached(p, st, n) {
            lemma_taken_in(p, st, n, p.args(i), g, params, 0);
        }
    }
    let calls = sites(p, n.func);
    let v = known(next.lat, i);
    lemma_sites(p, p.layout, n.func, 0, Seq::empty());
    lemma_returned(p, next, n, calls, v, 0);
    let back = returned(p, next, calls, v, 0);
    lemma_moves_on(p, st, next, back, n);
    lemma_call_forgotten(p, back, n, g);
    lemma_moves_on(p, st, back, last, n);
    if reached(p, st, n) {
        assert(reached(p, next, n));
        assert(stirred(p, next, back, n, i));
        if !pending(last, n) {
            assert(!pending(back, n));
            assert(!pending(next, n));
            if p.func(g).blocks.len() > 0 {
                assert(taken_in(next.lat, p.args(i), params));
                lemma_taken_in_kept(p, next, back, n, n, p.args(i), params);
            }
        }
    }
}

/// What taking edges out of `n` may do.
pub open spec fn branches(p: ProgramV, st: StateV, next: StateV) -> bool {
    &&& next == (StateV { edges: next.edges, edge_seen: next.edge_seen, ..st })
    &&& forall|e: (Node, Node)| st.edges.contains(e) ==> #[trigger] next.edges.contains(e)
    &&& forall|e: (Node, Node)| st.edge_seen.contains(e) ==> #[trigger] next.edge_seen.contains(e)
    &&& forall|e: (Node, Node)| #[trigger] next.edge_seen.contains(e) ==> st.edge_seen.contains(e) || next.edges.contains(e)
    &&& forall|e: (Node, Node)| #[trigger] next.edges.contains(e) ==> st.edges.contains(e) || sited(p, e.1)
}

proof fn lemma_edge_taken(p: ProgramV, st: StateV, n: Node, f: Function, i: Option<Inst>)
    requires
        i is Some ==> sited(p, Node { func: f, inst: i->0 }),
    ensures
        branches(p, st, edge_taken(st, n, f, i)),
        goes(edge_taken(st, n, f, i), n, f, i),
{
    let next = edge_taken(st, n, f, i);
    if let Some(x) = i {
        let d = (n, Node { func: f, inst: x });
        if !st.edge_seen.contains(d) {
            assert(next.edge_seen[st.edge_seen.len() as int] == d);
            assert(next.edges[st.edges.len() as int] == d);
            assert forall|e: (Node, Node)| st.edges.contains(e) implies #[trigger] next.edges.contains(e) by {
                let k = st.edges.index_of(e);
                assert(next.edges[k] == e);
            }
            assert forall|e: (Node, Node)| st.edge_seen.contains(e) implies #[trigger] next.edge_seen.contains(e) by {
                let k = st.edge_seen.index_of(e);
                assert(next.edge_seen[k] == e);
            }
            assert forall|e: (Node, Node)| #[trigger] next.edge_seen.contains(e) implies st.edge_seen.contains(e)
                || next.edges.contains(e) by {
                let k = next.edge_seen.index_of(e);
                if k < st.edge_seen.len() {
                    assert(st.edge_seen[k] == e);
                }
            }
            assert forall|e: (Node, Node)| #[trigger] next.edges.contains(e) implies st.edges.contains(e) || sited(p, e.1) by {
                let k = next.edges.index_of(e);
                if k < st.edges.len() {
                    assert(st.edges[k] == e);
                }
            }
        }
    }
}

proof fn lemma_branches_on(p: ProgramV, st: StateV, mid: StateV, next: StateV)
    requires
        branches(p, st, mid),
        branches(p, mid, next),
    ensures
        branches(p, st, next),
{
    assert forall|e: (Node, Node)| st.edges.contains(e) implies #[trigger] next.edges.contains(e) by {
        assert(mid.edges.contains(e));
    }
    assert forall|e: (Node, Node)| st.edge_seen.contains(e) implies #[trigger] next.edge_seen.contains(e) by {
        assert(mid.edge_seen.contains(e));
    }
    assert forall|e: (Node, Node)| #[trigger] next.edge_seen.contains(e) implies st.edge_seen.contains(e)
        || next.edges.contains(e) by {
        if mid.edge_seen.contains(e) && !st.edge_seen.contains(e) {
            assert(mid.edges.contains(e));
        }
    }
    assert forall|e: (Node, Node)| #[trigger] next.edges.contains(e) implies st.edges.contains(e) || sited(p, e.1) by {
        assert(mid.edges.contains(e) || !mid.edges.contains(e));
    }
}

proof fn lemma_first_sited(p: ProgramV, f: Function, b: BasicBlock)
    requires
        p.func(f).blocks.contains(b),
    ensures
        first_of(p, b) is Some ==> sited(p, Node { func: f, inst: first_of(p, b)->0 }),
{
    if first_of(p, b) is Some {
        let i = p.block(b).insts[0];
        assert(p.block(b).insts.contains(i));
        let k = p.func(f).blocks.index_of(b);
        assert(p.func(f).blocks[k] == b);
        lemma_has_parent(p, f, i, b, 0);
    }
}

pub(crate) proof fn lemma_start_sited(p: ProgramV, f: Function)
    ensures
        start_of(p, f) is Some ==> sited(p, Node { func: f, inst: start_of(p, f)->0 }),
{
    if p.func(f).blocks.len() > 0 {
        assert(p.func(f).blocks.contains(p.func(f).blocks[0]));
        lemma_first_sited(p, f, p.func(f).blocks[0]);
    }
}

proof fn lemma_next_sited(p: ProgramV, f: Function, i: Inst)
    ensures
        next_of(p, f, i) is Some ==> sited(p, Node { func: f, inst: next_of(p, f, i)->0 }),
{
    if next_of(p, f, i) is Some {
        lemma_parent(p, f, i, 0);
        let b = p.parent_bb(f, i)->0;
        let x = next_of(p, f, i)->0;
        assert(p.block(b).insts.contains(x));
        let k = p.func(f).blocks.index_of(b);
        assert(p.func(f).blocks[k] == b);
        lemma_has_parent(p, f, x, b, 0);
    }
}

pub(crate) proof fn lemma_left(p: ProgramV, st: StateV, n: Node)
    requires
        separate(p),
        sited(p, n),
    ensures
        branches(p, st, left(p, st, n)),
        edges_settled(p, left(p, st, n), n),
{
    let i = n.inst;
    assert(own(p, n.func, i));
    lemma_next_sited(p, n.func, i);
    match p.op(i) {
        Op::Branch(t, e, _) => {
            lemma_first_sited(p, n.func, t);
            lemma_first_sited(p, n.func, e);
            lemma_edge_taken(p, st, n, n.func, first_of(p, t));
            lemma_edge_taken(p, st, n, n.func, first_of(p, e));
            let mid = edge_taken(st, n, n.func, first_of(p, t));
            lemma_edge_taken(p, mid, n, n.func, first_of(p, e));
            lemma_branches_on(p, st, mid, edge_taken(mid, n, n.func, first_of(p, e)));
        },
        Op::Return => {},
        Op::Jump(t) => {
            lemma_first_sited(p, n.func, t);
            lemma_edge_taken(p, st, n, n.func, first_of(p, t));
        },
        Op::TailCall(g) => {
            lemma_start_sited(p, g);
            lemma_edge_taken(p, st, n, g, start_of(p, g));
        },
        Op::Call(g) => {
            lemma_start_sited(p, g);
            lemma_edge_taken(p, st, n, g, start_of(p, g));
            let mid = edge_taken(st, n, g, start_of(p, g));
            lemma_edge_taken(p, mid, n, n.func, next_of(p, n.func, i));
            lemma_branches_on(p, st, mid, edge_taken(mid, n, n.func, next_of(p, n.func, i)));
        },
        _ => {
            lemma_edge_taken(p, st, n, n.func, next_of(p, n.func, i));
        },
    }
}

/// Between two rounds every visited instruction is settled or will be visited again.
pub open spec fn settling(p: ProgramV, st: StateV) -> bool {
    &&& st.lat.len() == p.insts.len()
    &&& st.relay.len() == 0
    &&& st.again.len() == 0
    &&& all_sited(p, st)
    &&& forall|e: (Node, Node)| #[trigger] st.edges.contains(e) ==> sited(p, e.1)
    &&& forall|e: (Node, Node)| #[trigger] st.edge_seen.contains(e) ==> st.edges.contains(e) || st.node_seen.contains(e.1)
    &&& forall|m: Node|
        #[trigger] st.node_seen.contains(m) ==> reached(p, st, m) && (pending(st, m) || settled(p, st, m))
}

pub(crate) proof fn lemma_entered(p: ProgramV, st: StateV)
    requires
        settling(p, st),
    ensures
        settling(p, entered(p, st)),
{
    if st.edges.len() > 0 {
        let next = entered(p, st);
        let e = st.edges[0];
        let d = e.1;
        assert(st.edges.contains(e));
        assert(sited(p, d));
        let b = p.parent_bb(d.func, d.inst)->0;
        let fresh = !st.node_seen.contains(d);
        if !st.block_seen.contains((d.func, b)) {
            assert(next.block_seen[st.block_seen.len() as int] == (d.func, b));
        }
        assert forall|x: (Function, BasicBlock)| st.block_seen.contains(x) implies #[trigger] next.block_seen.contains(x) by {
            let k = st.block_seen.index_of(x);
            assert(next.block_seen[k] == x);
        }
        assert forall|m: Node| pending(st, m) implies #[trigger] pending(next, m) by {
            if st.nodes.contains(m) {
                let k = st.nodes.index_of(m);
                assert(next.nodes[k] == m);
            }
        }
        if fresh {
            assert(next.nodes[st.nodes.len() as int] == d);
            assert(next.node_seen[st.node_seen.len() as int] == d);
        }
        assert(next.node_seen.contains(d));
        assert forall|m: Node| #[trigger] pending(next, m) implies sited(p, m) by {
            if next.nodes.contains(m) {
                let k = next.nodes.index_of(m);
                if k < st.nodes.len() {
                    assert(st.nodes[k] == m);
                    assert(pending(st, m));
                }
            }
        }
        assert forall|x: (Node, Node)| #[trigger] next.edges.contains(x) implies sited(p, x.1) by {
            let k = next.edges.index_of(x);
            assert(st.edges[k + 1] == x);
            assert(st.edges.contains(x));
        }
        assert forall|m: Node| st.node_seen.contains(m) implies #[trigger] next.node_seen.contains(m) by {
            let k = st.node_seen.index_of(m);
            assert(next.node_seen[k] == m);
        }
        assert forall|x: (Node, Node)| #[trigger] next.edge_seen.contains(x) implies next.edges.contains(x)
            || next.node_seen.contains(x.1) by {
            if st.edges.contains(x) && x != e {
                let k = st.edges.index_of(x);
                assert(next.edges[k - 1] == x);
            }
        }
        assert forall|m: Node| #[trigger] next.node_seen.contains(m) implies reached(p, next, m) && (pending(next, m)
            || settled(p, next, m)) by {
            let k = next.node_seen.index_of(m);
            if k < st.node_seen.len() {
                assert(st.node_seen[k] == m);
                assert(st.node_seen.contains(m));
                assert(reached(p, st, m));
                assert(next.block_seen.contains((m.func, p.parent_bb(m.func, m.inst)->0)));
                if !pending(next, m) {
                    assert(!pending(st, m));
                    assert(settled(p, st, m));
                }
            } else {
                assert(m == d);
            }
        }
    }
}

proof fn lemma_goes_kept(p: ProgramV, st: StateV, next: StateV, m: Node)
    requires
        edges_settled(p, st, m),
        p.op(m.inst) is Branch ==> known(next.lat, p.arg(m.inst, 0)) == known(st.lat, p.arg(m.inst, 0)),
        forall|e: (Node, Node)| st.edge_seen.contains(e) ==> #[trigger] next.edge_seen.contains(e),
    ensures
        edges_settled(p, next, m),
{
}

pub(crate) proof fn lemma_round(p: ProgramV, st: StateV)
    requires
        separate(p),
        settling(p, st),
    ensures
        settling(p, round(p, st)),
{
    let a = entered(p, st);
    lemma_entered(p, st);
    let b = if a.nodes.len() == 0 {
        a
    } else {
        let n = a.nodes[0];
        let c = StateV { nodes: a.nodes.drop_first(), ..a };
        left(p, transferred(p, c, n), n)
    };
    let next = round(p, st);
    if a.nodes.len() > 0 {
        let n = a.nodes[0];
        let c = StateV { nodes: a.nodes.drop_first(), ..a };
        let t = transferred(p, c, n);
        assert(a.nodes.contains(n));
        assert(pending(a, n));
        assert(sited(p, n));
        lemma_transferred(p, c, n);
        lemma_left(p, t, n);
        assert forall|m: Node| pending(a, m) && m != n implies #[trigger] pending(c, m) by {
            let k = a.nodes.index_of(m);
            assert(a.nodes[k] == m);
            assert(c.nodes[k - 1] == m);
        }
        assert forall|m: Node| #[trigger] pending(c, m) implies pending(a, m) by {
            if c.nodes.contains(m) {
                let k = c.nodes.index_of(m);
                assert(a.nodes[k + 1] == m);
            }
        }
        assert(all_sited(p, c));
        assert(all_sited(p, t));
        assert forall|m: Node| #[trigger] pending(b, m) == pending(t, m) by {}
        assert forall|e: (Node, Node)| #[trigger] b.edges.contains(e) implies sited(p, e.1) by {
            if t.edges.contains(e) {
                assert(a.edges.contains(e));
            }
        }
        assert forall|e: (Node, Node)| #[trigger] b.edge_seen.contains(e) implies b.edges.contains(e)
            || b.node_seen.contains(e.1) by {
            if t.edge_seen.contains(e) {
                assert(a.edge_seen.contains(e));
                if a.edges.contains(e) {
                    assert(t.edges.contains(e));
                }
            }
        }
        assert forall|m: Node| #[trigger] b.node_seen.contains(m) implies reached(p, b, m) && (pending(b, m) || settled(
            p,
            b,
            m,
        )) by {
            assert(a.node_seen.contains(m));
            assert(reached(p, a, m));
            assert(reached(p, c, m));
            if !pending(b, m) {
                assert(!pending(t, m));
                if m == n {
                    assert(values_settled(p, t, n));
                    assert(values_settled(p, b, n));
                } else {
                    assert(!pending(c, m));
                    assert(!pending(a, m));
                    assert(settled(p, a, m));
                    assert(values_settled(p, c, m) && edges_settled(p, c, m));
                    lemma_values_kept(p, c, t, n, m);
                    lemma_goes_kept(p, c, t, m);
                    lemma_goes_kept(p, t, b, m);
                    assert(values_settled(p, b, m));
                }
            }
        }
    }
    assert forall|m: Node| pending(b, m) implies #[trigger] pending(next, m) by {
        lemma_listed(b, m);
    }
    assert forall|m: Node| #[trigger] pending(next, m) implies pending(b, m) by {
        let k = next.nodes.index_of(m);
        let l = b.nodes.len();
        let r = b.relay.len();
        if k < l {
            assert(b.nodes[k] == m);
        } else if k < l + r {
            assert(b.relay[k - l] == m);
        } else {
            assert(b.again[k - l - r] == m);
        }
    }
    assert forall|m: Node| #[trigger] next.node_seen.contains(m) implies reached(p, next, m) && (pending(next, m) || settled(
        p,
        next,
        m,
    )) by {
        assert(b.node_seen.contains(m));
        if !pending(next, m) {
            assert(!pending(b, m));
            assert(settled(p, b, m));
        }
    }
}

pub(crate) proof fn lemma_listed(st: StateV, m: Node)
    requires
        pending(st, m),
    ensures
        (st.nodes + st.relay + st.again).contains(m),
{
    let all = st.nodes + st.relay + st.again;
    if st.nodes.contains(m) {
        let k = st.nodes.index_of(m);
        assert(all[k] == m);
    } else if st.relay.contains(m) {
        let k = st.relay.index_of(m);
        assert(all[st.nodes.len() + k] == m);
    } else {
        let k = st.again.index_of(m);
        assert(all[st.nodes.len() + st.relay.len() + k] == m);
    }
}

pub(crate) proof fn lemma_propagated(p: ProgramV, st: StateV, rounds: nat)
    requires
        separate(p),
        settling(p, st),
    ensures
        settling(p, propagated(p, st, rounds)),
    decreases rounds,
{
    if rounds > 0 && !(st.edges.len() == 0 && st.nodes.len() == 0) {
        lemma_round(p, st);
        lemma_propagated(p, round(p, st), (rounds - 1) as nat);
    }
}

proof fn lemma_initial_len(p: ProgramV, from: int, found: Seq<Lattice>)
    requires
        0 <= from <= p.insts.len(),
        found.len() == from,
    ensures
        initial_from(p, from, found).len() == p.insts.len(),
    decreases p.insts.len() - from,
{
    if from < p.insts.len() {
        lemma_initial_len(p, from + 1, found.push(initial_value(p.op(Inst(from as usize)))));
    }
}

proof fn lemma_globals(p: ProgramV, m: MemV, globals: Seq<Inst>, from: int)
    requires
        0 <= from,
    ensures
        globals_zeroed(p, m, globals, from).loaders == m.loaders,
    decreases globals.len() - from,
{
    if from < globals.len() {
        let g = globals[from];
        let next = if p.op(g) is GlobalAlloc && p.op(p.arg(g, 0)) is ZeroInit {
            zeroed(m, RootKey::Global(g), 0, crate::mem_state::end_of(0, p.ty(g).pointee().bytes())).0
        } else {
            m
        };
        lemma_globals(p, next, globals, from + 1);
    }
}

pub(crate) proof fn lemma_initial(p: ProgramV, main: Function, first: Inst)
    requires
        sited(p, Node { func: main, inst: first }),
    ensures
        settling(p, initial(p, main, first)),
{
    let st = initial(p, main, first);
    let start = Node { func: main, inst: first };
    lemma_initial_len(p, 0, Seq::empty());
    lemma_globals(p, empty_memory(), p.globals, 0);
    assert(st.edges[0] == (start, start));
    assert forall|e: (Node, Node)| #[trigger] st.edges.contains(e) implies sited(p, e.1) by {
        assert(e == (start, start));
    }
    assert forall|m: Node| !#[trigger] pending(st, m) by {}
}

/// The propagation has come to its end.
pub open spec fn finished(st: StateV) -> bool {
    st.edges.len() == 0 && st.nodes.len() == 0
}

/// When the propagation has come to its end, what is known of every instruction that it visited, and what
/// was done about it, follows from what is known of its operands and of memory: a load is what memory
/// holds for it, parameters have taken in what every edge and every call that may be taken passes to
/// them, and calls what their functions return.
pub proof fn visited_instructions_are_settled(p: ProgramV, n: Node)
    requires
        separate(p),
        main_of(p) is Some,
        start_of(p, main_of(p)->0) is Some,
        finished(solved(p, usize::MAX as nat)),
        solved(p, usize::MAX as nat).node_seen.contains(n),
    ensures
        settled(p, solved(p, usize::MAX as nat), n),
{
    let main = main_of(p)->0;
    let first = start_of(p, main)->0;
    lemma_start_sited(p, main);
    lemma_initial(p, main, first);
    lemma_propagated(p, initial(p, main, first), usize::MAX as nat);
    let st = solved(p, usize::MAX as nat);
    assert(!pending(st, n));
}

/// When the propagation has come to its end, every edge that it took leads to an instruction that it
/// visited.
pub proof fn taken_edges_lead_to_visited(p: ProgramV, e: (Node, Node))
    requires
        separate(p),
        main_of(p) is Some,
        start_of(p, main_of(p)->0) is Some,
        finished(solved(p, usize::MAX as nat)),
        solved(p, usize::MAX as nat).edge_seen.contains(e),
    ensures
        solved(p, usize::MAX as nat).node_seen.contains(e.1),
{
    let main = main_of(p)->0;
    let first = start_of(p, main)->0;
    lemma_start_sited(p, main);
    lemma_initial(p, main, first);
    lemma_propagated(p, initial(p, main, first), usize::MAX as nat);
}

} // verus!
