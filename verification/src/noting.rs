//! What the propagation notes of stores is what it knows of what they store.

use vstd::prelude::*;

use crate::dce::main_of;
use crate::fixpoint::{
    finished, lemma_entered, lemma_initial, lemma_left, lemma_propagated, lemma_round, lemma_start_sited, lemma_transferred, pending, reached,
    separate, settling, sited,
};
use crate::ipsccp::{
    call_forgotten, entered, globals_zeroed, initial, known, left, passed, propagated, returned, round, solved, start_of,
    transferred, StateV,
};
use crate::ir::{Function, Inst, Op, ProgramV};
use crate::lattice::{cell_of, CellKey, Lattice, RootKey};
use crate::effects::{call_roots, WriteRoot};
use crate::mem_state::{
    all_lost, end_of, keys_from, root_cleared, roots_cleared, target_of, write_blurred, writer_at, written, MemV,
};
use crate::program_order::Node;

verus! {

/// What is noted of a store of a value of which `v` is known.
pub open spec fn noted(v: Lattice) -> Lattice {
    if v == Lattice::Top {
        Lattice::Bottom
    } else {
        v
    }
}

/// The entry is that of a store to its cell.
pub open spec fn is_store(p: ProgramV, e: (CellKey, Node, Lattice)) -> bool {
    &&& p.op(e.1.inst) is Store
    &&& cell_of(p, e.1.func, p.arg(e.1.inst, 1)) matches Some((key, _)) && key == e.0
}

/// The entry says of its store what is known of what it stores.
pub open spec fn is_current(p: ProgramV, st: StateV, e: (CellKey, Node, Lattice)) -> bool {
    e.2 == noted(known(st.lat, p.arg(e.1.inst, 0)))
}

/// No store has two entries.
pub open spec fn is_unique(writers: Seq<(CellKey, Node, Lattice)>) -> bool {
    forall|i: int, j: int|
        0 <= i < j < writers.len() ==> (#[trigger] writers[i]).1 != (#[trigger] writers[j]).1
}

/// What the entry says is what is known, or its store will be visited.
spec fn is_sound(p: ProgramV, st: StateV, e: (CellKey, Node, Lattice)) -> bool {
    is_store(p, e) && (is_current(p, st, e) || pending(st, e.1) || !st.node_seen.contains(e.1))
}

/// What a write through `addr` whose offset is not known may hit is forgotten.
pub open spec fn is_blurred(p: ProgramV, m: MemV, f: Function, addr: Inst) -> bool {
    m.lost || (target_of(p, f, addr) matches Some(root) && m.cleared.contains(root))
}

/// What a function that is only declared may write is forgotten.
pub open spec fn is_forgotten(p: ProgramV, m: MemV, g: Function, f: Function) -> bool {
    m.lost || match call_roots(p, g, f, true) {
        Some(roots) => forall|k: int|
            0 <= k < roots.len() ==> m.cleared.contains(crate::mem_state::key_of_root(#[trigger] roots[k])),
        None => false,
    }
}

/// What instruction `n` writes is noted: the store to its cell, the bytes made zero, or that something unknown
/// was written.
pub open spec fn is_noted(p: ProgramV, m: MemV, n: Node) -> bool {
    let i = n.inst;
    match p.op(i) {
        Op::Store => match cell_of(p, n.func, p.arg(i, 1)) {
            Some((key, _)) => exists|k: int|
                0 <= k < m.writers.len() && (#[trigger] m.writers[k]).0 == key && m.writers[k].1 == n,
            None => is_blurred(p, m, n.func, p.arg(i, 1)),
        },
        Op::MemZero(len) => match cell_of(p, n.func, p.arg(i, 0)) {
            Some((key, root)) => m.clears.contains((root, key.at(), end_of(key.at(), len as int), n)),
            None => is_blurred(p, m, n.func, p.arg(i, 0)),
        },
        Op::MemZeroDyn => is_blurred(p, m, n.func, p.arg(i, 0)),
        Op::Call(g) => p.func(g).blocks.len() == 0 ==> is_forgotten(p, m, g, n.func),
        Op::TailCall(g) => p.func(g).blocks.len() == 0 ==> is_forgotten(p, m, g, n.func),
        _ => true,
    }
}

/// What is noted of stores is current, or the store will be visited, and what was visited is noted.
spec fn holds_notes(p: ProgramV, st: StateV) -> bool {
    &&& is_unique(st.mem.writers)
    &&& forall|k: int| 0 <= k < st.mem.writers.len() ==> is_sound(p, st, #[trigger] st.mem.writers[k])
    &&& forall|n: Node| st.node_seen.contains(n) && !pending(st, n) ==> #[trigger] is_noted(p, st.mem, n)
}

/// `next` has the entries of `m`, and whatever else `m` notes.
spec fn keeps_entries(m: MemV, next: MemV) -> bool {
    &&& next.writers == m.writers
    &&& keeps_marks(m, next)
}

/// Whatever else than stores `m` notes, `next` notes.
spec fn keeps_marks(m: MemV, next: MemV) -> bool {
    &&& m.lost ==> next.lost
    &&& forall|r: RootKey| #[trigger] m.cleared.contains(r) ==> next.cleared.contains(r)
    &&& forall|e: (RootKey, i64, i64, Node)| #[trigger] m.clears.contains(e) ==> next.clears.contains(e)
}

/// What is noted stays noted.
proof fn lemma_stays_noted(p: ProgramV, m: MemV, next: MemV, n: Node)
    requires
        is_noted(p, m, n),
        keeps_marks(m, next),
        forall|k: int| 0 <= k < m.writers.len() ==> k < next.writers.len() && (#[trigger] next.writers[k]).0
            == m.writers[k].0 && next.writers[k].1 == m.writers[k].1,
    ensures
        is_noted(p, next, n),
{
    let i = n.inst;
    if p.op(i) is Store {
        if let Some((key, _)) = cell_of(p, n.func, p.arg(i, 1)) {
            let k = choose|k: int| 0 <= k < m.writers.len() && (#[trigger] m.writers[k]).0 == key && m.writers[k].1 == n;
            assert(next.writers[k].0 == key && next.writers[k].1 == n);
        }
    }
}

proof fn lemma_all_cleared(m: MemV, roots: Seq<RootKey>, from: int, again: Seq<Node>)
    requires
        0 <= from,
    ensures
        keeps_entries(m, roots_cleared(m, roots, from, again).0),
        forall|k: int|
            from <= k < roots.len() ==> roots_cleared(m, roots, from, again).0.cleared.contains(#[trigger] roots[k]),
    decreases roots.len() - from,
{
    if from < roots.len() {
        let (next, changed) = root_cleared(m, roots[from]);
        assert forall|r: RootKey| #[trigger] m.cleared.contains(r) implies next.cleared.contains(r) by {
            assert(next.cleared[m.cleared.index_of(r)] == r);
        }
        assert(next.cleared.contains(roots[from])) by {
            if !m.cleared.contains(roots[from]) {
                assert(next.cleared[m.cleared.len() as int] == roots[from]);
            }
        }
        let more = if changed {
            again + crate::mem_state::loads_of(next.loaders, roots[from], 0, Seq::empty())
        } else {
            again
        };
        lemma_all_cleared(next, roots, from + 1, more);
    }
}

proof fn lemma_lost(m: MemV, again: Seq<Node>)
    ensures
        keeps_entries(m, all_lost(m, again).0),
        all_lost(m, again).0.lost,
{
}

proof fn lemma_blurred(p: ProgramV, m: MemV, f: Function, addr: Inst, again: Seq<Node>)
    ensures
        keeps_entries(m, write_blurred(p, m, f, addr, again).0),
        is_blurred(p, write_blurred(p, m, f, addr, again).0, f, addr),
{
    match target_of(p, f, addr) {
        Some(root) => {
            let roots = seq![root];
            lemma_all_cleared(m, roots, 0, again);
            assert(roots_cleared(m, roots, 0, again).0.cleared.contains(roots[0]));
        },
        None => lemma_lost(m, again),
    }
}

proof fn lemma_keys(roots: Seq<WriteRoot>, from: int, found: Seq<RootKey>)
    requires
        0 <= from <= roots.len(),
    ensures
        ({
            let r = keys_from(roots, from, found);
            &&& r.len() == found.len() + roots.len() - from
            &&& forall|k: int| 0 <= k < found.len() ==> #[trigger] r[k] == found[k]
            &&& forall|k: int|
                from <= k < roots.len() ==> r[found.len() + k - from] == crate::mem_state::key_of_root(#[trigger] roots[k])
        }),
    decreases roots.len() - from,
{
    if from < roots.len() {
        let key = crate::mem_state::key_of_root(roots[from]);
        lemma_keys(roots, from + 1, found.push(key));
        let r = keys_from(roots, from, found);
        assert(r[found.len() as int] == found.push(key)[found.len() as int]);
        assert forall|k: int| 0 <= k < found.len() implies #[trigger] r[k] == found[k] by {
            assert(r[k] == found.push(key)[k]);
        }
    }
}

proof fn lemma_passed(p: ProgramV, st: StateV, args: Seq<Inst>, g: Function, params: Seq<Inst>, from: int)
    ensures
        passed(p, st, args, g, params, from).mem == st.mem,
    decreases args.len() - from,
{
    if from < args.len() && from < params.len() {
        lemma_passed(
            p,
            crate::ipsccp::lowered(p, st, Node { func: g, inst: params[from] }, known(st.lat, args[from])),
            args,
            g,
            params,
            from + 1,
        );
    }
}

proof fn lemma_returned(p: ProgramV, st: StateV, calls: Seq<Node>, v: Lattice, from: int)
    ensures
        returned(p, st, calls, v, from).mem == st.mem,
    decreases calls.len() - from,
{
    if from < calls.len() {
        let c = calls[from];
        let mid = crate::ipsccp::lowered(p, st, c, v);
        let held = if crate::ipsccp::lowers(st, c, v) && p.op(c.inst) is TailCall {
            StateV { relay: mid.relay.push(c), ..mid }
        } else {
            mid
        };
        lemma_returned(p, held, calls, v, from + 1);
        assert(returned(p, st, calls, v, from) == returned(p, held, calls, v, from + 1));
    }
}

proof fn lemma_forgotten(p: ProgramV, st: StateV, n: Node, g: Function)
    ensures
        keeps_entries(st.mem, call_forgotten(p, st, n, g).mem),
        p.func(g).blocks.len() == 0 ==> is_forgotten(p, call_forgotten(p, st, n, g).mem, g, n.func),
{
    if p.func(g).blocks.len() == 0 {
        match call_roots(p, g, n.func, true) {
            Some(roots) => {
                let keys = keys_from(roots, 0, Seq::empty());
                lemma_all_cleared(st.mem, keys, 0, st.again);
                lemma_keys(roots, 0, Seq::empty());
                let next = call_forgotten(p, st, n, g).mem;
                assert forall|k: int| 0 <= k < roots.len() implies next.cleared.contains(
                    crate::mem_state::key_of_root(#[trigger] roots[k]),
                ) by {
                    assert(next.cleared.contains(keys[k]));
                }
            },
            None => {
                lemma_lost(st.mem, st.again);
            },
        }
    }
}

/// Whatever else than a store is visited adds no entry, and is noted.
proof fn lemma_no_entry(p: ProgramV, st: StateV, n: Node)
    requires
        !(p.op(n.inst) is Store) || cell_of(p, n.func, p.arg(n.inst, 1)) is None,
    ensures
        keeps_entries(st.mem, transferred(p, st, n).mem),
        is_noted(p, transferred(p, st, n).mem, n),
{
    let i = n.inst;
    match p.op(i) {
        Op::Jump(t) => {
            lemma_passed(p, st, p.args(i), n.func, p.block(t).params, 0);
        },
        Op::Branch(t, e, _) => {
            lemma_passed(p, st, p.t_args(i), n.func, p.block(t).params, 0);
            lemma_passed(p, st, p.f_args(i), n.func, p.block(e).params, 0);
            lemma_passed(
                p,
                passed(p, st, p.t_args(i), n.func, p.block(t).params, 0),
                p.f_args(i),
                n.func,
                p.block(e).params,
                0,
            );
        },
        Op::Store => {
            lemma_blurred(p, st.mem, n.func, p.arg(i, 1), st.again);
        },
        Op::MemZero(len) => {
            match cell_of(p, n.func, p.arg(i, 0)) {
                Some((key, root)) => {
                    let e = (root, key.at(), end_of(key.at(), len as int), n);
                    let wider = crate::mem_state::zeroed(st.mem, root, e.1, e.2).0;
                    let mem = transferred(p, st, n).mem;
                    assert(mem == crate::mem_state::clear_noted(wider, root, e.1, e.2, n).0);
                    assert forall|x: (RootKey, i64, i64, Node)| #[trigger] st.mem.clears.contains(x) implies mem.clears.contains(
                        x,
                    ) by {
                        assert(mem.clears[st.mem.clears.index_of(x)] == x);
                    }
                    if !wider.clears.contains(e) {
                        assert(mem.clears[wider.clears.len() as int] == e);
                    }
                },
                None => {
                    lemma_blurred(p, st.mem, n.func, p.arg(i, 0), st.again);
                },
            }
        },
        Op::MemZeroDyn => {
            match cell_of(p, n.func, p.arg(i, 0)) {
                Some((key, root)) => {
                    let roots = seq![root];
                    lemma_all_cleared(st.mem, roots, 0, st.again);
                    assert(roots_cleared(st.mem, roots, 0, st.again).0.cleared.contains(roots[0]));
                    assert(target_of(p, n.func, p.arg(i, 0)) == Some(root));
                },
                None => {
                    lemma_blurred(p, st.mem, n.func, p.arg(i, 0), st.again);
                },
            }
        },
        Op::Call(g) => {
            let next = if p.func(g).blocks.len() == 0 {
                crate::ipsccp::lowered(p, st, n, Lattice::Bottom)
            } else {
                passed(p, st, p.args(i), g, p.func(g).params, 0)
            };
            lemma_passed(p, st, p.args(i), g, p.func(g).params, 0);
            lemma_forgotten(p, next, n, g);
        },
        Op::TailCall(g) => {
            let next = if p.func(g).blocks.len() == 0 {
                st
            } else {
                passed(p, st, p.args(i), g, p.func(g).params, 0)
            };
            lemma_passed(p, st, p.args(i), g, p.func(g).params, 0);
            let calls = crate::ipsccp::sites(p, n.func);
            lemma_returned(p, next, calls, known(next.lat, i), 0);
            lemma_forgotten(p, returned(p, next, calls, known(next.lat, i), 0), n, g);
        },
        Op::Return => {
            lemma_returned(p, st, crate::ipsccp::sites(p, n.func), known(st.lat, p.arg(i, 0)), 0);
        },
        _ => {},
    }
}

proof fn lemma_writer(s: Seq<(CellKey, Node, Lattice)>, key: CellKey, w: Node, from: int)
    requires
        0 <= from <= s.len(),
    ensures
        from <= writer_at(s, key, w, from) <= s.len(),
        writer_at(s, key, w, from) < s.len() ==> s[writer_at(s, key, w, from)].0 == key && s[writer_at(s, key, w, from)].1
            == w,
        forall|k: int|
            from <= k < writer_at(s, key, w, from) ==> !((#[trigger] s[k]).0 == key && s[k].1 == w),
    decreases s.len() - from,
{
    if from < s.len() && !(s[from].0 == key && s[from].1 == w) {
        lemma_writer(s, key, w, from + 1);
    }
}

/// Stores have a value and an address.
pub open spec fn has_whole_stores(p: ProgramV) -> bool {
    forall|n: Node| #[trigger] sited(p, n) && p.op(n.inst) is Store ==> p.args(n.inst).len() == 2
}

proof fn lemma_visited(p: ProgramV, a: StateV, n: Node)
    requires
        separate(p),
        has_whole_stores(p),
        settling(p, a),
        holds_notes(p, a),
        a.nodes.len() > 0,
        n == a.nodes[0],
    ensures
        holds_notes(p, transferred(p, (StateV { nodes: a.nodes.drop_first(), ..a }), n)),
        is_noted(p, transferred(p, (StateV { nodes: a.nodes.drop_first(), ..a }), n).mem, n),
{
    let c = StateV { nodes: a.nodes.drop_first(), ..a };
    let t = transferred(p, c, n);
    assert(a.nodes.contains(n));
    assert(pending(a, n));
    lemma_transferred(p, c, n);
    let old = c.mem.writers;
    assert forall|m: Node| pending(a, m) && m != n implies #[trigger] pending(c, m) by {
        if a.nodes.contains(m) {
            let k = a.nodes.index_of(m);
            assert(a.nodes[k] == m);
            assert(c.nodes[k - 1] == m);
        }
    }
    assert forall|k: int| 0 <= k < old.len() && (#[trigger] old[k]).1 != n implies is_sound(p, t, old[k]) by {
        let w = old[k].1;
        let x = p.arg(w.inst, 0);
        assert(is_sound(p, a, a.mem.writers[k]));
        if a.node_seen.contains(w) {
            assert(reached(p, a, w));
            assert(sited(p, w));
            assert(p.args(w.inst)[0] == x);
            assert(p.args(w.inst).contains(x));
            assert(crate::fixpoint::stirred(p, c, t, n, x));
            if pending(a, w) {
                assert(pending(c, w));
                assert(pending(t, w));
            } else if known(t.lat, x) != known(c.lat, x) {
                assert(reached(p, c, w));
                assert(pending(t, w));
            }
        }
    }
    let target = cell_of(p, n.func, p.arg(n.inst, 1));
    if p.op(n.inst) is Store && target is Some {
        let (key, root) = target->0;
        let value = known(c.lat, p.arg(n.inst, 0));
        let (mem, changed) = written(c.mem, key, n, value);
        assert(t.mem == mem && t.lat == c.lat);
        lemma_writer(old, key, n, 0);
        let at = writer_at(old, key, n, 0);
        assert forall|k: int| 0 <= k < old.len() && (#[trigger] old[k]).1 == n implies k == at by {
            assert(is_sound(p, a, a.mem.writers[k]));
            if at < k {
                assert(old[at].1 == old[k].1);
            }
        }
        let s = t.mem.writers;
        assert forall|k: int| 0 <= k < s.len() implies is_sound(p, t, #[trigger] s[k]) by {
            if k < old.len() && k != at {
                assert(s[k] == old[k]);
            } else {
                assert(s[k] == (key, n, noted(value)));
            }
        }
        assert(is_unique(s)) by {
            assert forall|i: int, j: int| 0 <= i < j < s.len() implies (#[trigger] s[i]).1 != (#[trigger] s[j]).1 by {
                if i < old.len() {
                    assert(s[i].1 == old[i].1);
                }
                if j < old.len() {
                    assert(s[j].1 == old[j].1);
                    assert(old[i].1 != old[j].1);
                } else {
                    assert(s[j].1 == n);
                }
            }
        }
        assert(is_noted(p, t.mem, n)) by {
            if at < old.len() {
                assert(s[at] == (key, n, noted(value)));
            } else {
                assert(s[old.len() as int] == (key, n, noted(value)));
            }
        }
        assert forall|m: Node| t.node_seen.contains(m) && !pending(t, m) implies #[trigger] is_noted(p, t.mem, m) by {
            if m != n {
                assert(!pending(a, m)) by {
                    if pending(a, m) {
                        assert(pending(c, m));
                        assert(pending(t, m));
                    }
                }
                assert(is_noted(p, a.mem, m));
                lemma_stays_noted(p, a.mem, t.mem, m);
            }
        }
    } else {
        lemma_no_entry(p, c, n);
        assert forall|m: Node| t.node_seen.contains(m) && !pending(t, m) implies #[trigger] is_noted(p, t.mem, m) by {
            if m != n {
                assert(!pending(a, m)) by {
                    if pending(a, m) {
                        assert(pending(c, m));
                        assert(pending(t, m));
                    }
                }
                assert(is_noted(p, a.mem, m));
                lemma_stays_noted(p, a.mem, t.mem, m);
            }
        }
        let s = t.mem.writers;
        assert forall|k: int| 0 <= k < s.len() implies is_sound(p, t, #[trigger] s[k]) by {
            assert(s[k] == old[k]);
            assert(is_sound(p, a, a.mem.writers[k]));
            if s[k].1 == n {
                assert(cell_of(p, n.func, p.arg(n.inst, 1)) is Some);
            }
        }
    }
}

proof fn lemma_entered_notes(p: ProgramV, st: StateV)
    requires
        settling(p, st),
        holds_notes(p, st),
    ensures
        holds_notes(p, entered(p, st)),
{
    let a = entered(p, st);
    if st.edges.len() > 0 {
        let d = st.edges[0].1;
        assert forall|m: Node| #[trigger] pending(st, m) implies pending(a, m) by {
            if st.nodes.contains(m) {
                let k = st.nodes.index_of(m);
                assert(a.nodes[k] == m);
            }
        }
        if !st.node_seen.contains(d) {
            assert(a.nodes[st.nodes.len() as int] == d);
            assert(a.nodes.contains(d));
        }
        assert forall|m: Node| #[trigger] a.node_seen.contains(m) implies m == d || st.node_seen.contains(m) by {
            let k = a.node_seen.index_of(m);
            assert(a.node_seen[k] == m);
            if k < st.node_seen.len() {
                assert(st.node_seen[k] == m);
            }
        }
        assert forall|k: int| 0 <= k < a.mem.writers.len() implies is_sound(p, a, #[trigger] a.mem.writers[k]) by {
            let e = st.mem.writers[k];
            assert(is_sound(p, st, e));
            if e.1 == d && !st.node_seen.contains(d) {
                assert(pending(a, d));
            }
        }
        assert forall|n: Node| a.node_seen.contains(n) && !pending(a, n) implies #[trigger] is_noted(p, a.mem, n) by {
            assert(!pending(st, n));
            if n == d && !st.node_seen.contains(d) {
                assert(pending(a, d));
            }
        }
    }
}

proof fn lemma_round_notes(p: ProgramV, st: StateV)
    requires
        separate(p),
        has_whole_stores(p),
        settling(p, st),
        holds_notes(p, st),
    ensures
        holds_notes(p, round(p, st)),
{
    let a = entered(p, st);
    lemma_entered(p, st);
    lemma_entered_notes(p, st);
    let next = round(p, st);
    let b = if a.nodes.len() == 0 {
        a
    } else {
        let n = a.nodes[0];
        let c = StateV { nodes: a.nodes.drop_first(), ..a };
        left(p, transferred(p, c, n), n)
    };
    if a.nodes.len() > 0 {
        let n = a.nodes[0];
        let c = StateV { nodes: a.nodes.drop_first(), ..a };
        let t = transferred(p, c, n);
        assert(a.nodes.contains(n));
        assert(pending(a, n));
        lemma_visited(p, a, n);
        lemma_left(p, t, n);
        assert(b.lat == t.lat && b.mem == t.mem && b.node_seen == t.node_seen);
        assert forall|k: int| 0 <= k < b.mem.writers.len() implies is_sound(p, b, #[trigger] b.mem.writers[k]) by {
            assert(is_sound(p, t, t.mem.writers[k]));
        }
        assert forall|m: Node| b.node_seen.contains(m) && !pending(b, m) implies #[trigger] is_noted(p, b.mem, m) by {
            if pending(t, m) {
                assert(pending(b, m));
            }
            assert(is_noted(p, t.mem, m));
        }
    }
    let all = b.nodes + b.relay + b.again;
    assert forall|m: Node| #[trigger] pending(b, m) implies pending(next, m) by {
        if b.nodes.contains(m) {
            let k = b.nodes.index_of(m);
            assert(all[k] == m);
        } else if b.relay.contains(m) {
            let k = b.relay.index_of(m);
            assert(all[b.nodes.len() + k] == m);
        } else {
            let k = b.again.index_of(m);
            assert(all[b.nodes.len() + b.relay.len() + k] == m);
        }
    }
    assert forall|k: int| 0 <= k < next.mem.writers.len() implies is_sound(p, next, #[trigger] next.mem.writers[k]) by {
        assert(is_sound(p, b, b.mem.writers[k]));
    }
    assert forall|m: Node| next.node_seen.contains(m) && !pending(next, m) implies #[trigger] is_noted(p, next.mem, m) by {
        assert(!pending(b, m));
    }
}

proof fn lemma_propagated_notes(p: ProgramV, st: StateV, rounds: nat)
    requires
        separate(p),
        has_whole_stores(p),
        settling(p, st),
        holds_notes(p, st),
    ensures
        holds_notes(p, propagated(p, st, rounds)),
    decreases rounds,
{
    if rounds > 0 && !(st.edges.len() == 0 && st.nodes.len() == 0) {
        lemma_round(p, st);
        lemma_round_notes(p, st);
        lemma_propagated_notes(p, round(p, st), (rounds - 1) as nat);
    }
}

proof fn lemma_globals(p: ProgramV, m: MemV, globals: Seq<Inst>, from: int)
    ensures
        globals_zeroed(p, m, globals, from).writers == m.writers,
    decreases globals.len() - from,
{
    if from < globals.len() {
        let g = globals[from];
        let next = if p.op(g) is GlobalAlloc && p.op(p.arg(g, 0)) is ZeroInit {
            crate::mem_state::zeroed(
                m,
                RootKey::Global(g),
                0,
                crate::mem_state::end_of(0, p.ty(g).pointee().bytes()),
            ).0
        } else {
            m
        };
        lemma_globals(p, next, globals, from + 1);
    }
}

/// When nothing is left to visit, what is noted of a store that was visited is what is known of what it stores.
pub proof fn notes_are_what_is_known(p: ProgramV, k: int)
    requires
        separate(p),
        has_whole_stores(p),
        main_of(p) is Some,
        start_of(p, main_of(p)->0) is Some,
        finished(solved(p, usize::MAX as nat)),
        0 <= k < solved(p, usize::MAX as nat).mem.writers.len(),
    ensures
        ({
            let st = solved(p, usize::MAX as nat);
            let e = st.mem.writers[k];
            is_store(p, e) && (st.node_seen.contains(e.1) ==> is_current(p, st, e))
        }),
{
    let st = solved(p, usize::MAX as nat);
    let main = main_of(p)->0;
    let first = start_of(p, main)->0;
    let begin = initial(p, main, first);
    lemma_start_sited(p, main);
    lemma_initial(p, main, first);
    lemma_globals(p, crate::ipsccp::empty_memory(), p.globals, 0);
    assert(begin.mem.writers.len() == 0);
    lemma_propagated(p, begin, usize::MAX as nat);
    lemma_propagated_notes(p, begin, usize::MAX as nat);
    assert(!pending(st, st.mem.writers[k].1));
    assert(is_sound(p, st, st.mem.writers[k]));
}

/// When nothing is left to visit, what was visited and writes memory is noted.
pub proof fn what_was_visited_is_noted(p: ProgramV, n: Node)
    requires
        separate(p),
        has_whole_stores(p),
        main_of(p) is Some,
        start_of(p, main_of(p)->0) is Some,
        finished(solved(p, usize::MAX as nat)),
        solved(p, usize::MAX as nat).node_seen.contains(n),
    ensures
        is_noted(p, solved(p, usize::MAX as nat).mem, n),
{
    let st = solved(p, usize::MAX as nat);
    let main = main_of(p)->0;
    let first = start_of(p, main)->0;
    let begin = initial(p, main, first);
    lemma_start_sited(p, main);
    lemma_initial(p, main, first);
    lemma_globals(p, crate::ipsccp::empty_memory(), p.globals, 0);
    assert(begin.mem.writers.len() == 0);
    lemma_propagated(p, begin, usize::MAX as nat);
    lemma_propagated_notes(p, begin, usize::MAX as nat);
    assert(!pending(st, n));
}

} // verus!
