//! Stores that go were never to be seen.

use vstd::prelude::*;

use crate::dse::{
    after_load, after_store, cell_at, cleared_len, dead_removed, disturbs, entry_from, forgotten,
    forwards_made, in_bytes, in_roots, is_writeback, may_step, nothing_found, pending_apart,
    pending_untouched, resolved, scanned, scanned_all, scanned_blocks, stores_cleaned, untouched,
    width_of, writebacks_from, zeros_apart, zeros_stored, zeros_unread, Cell, Memory, ScanV, ZeroV,
};
use crate::effects::{call_roots, WriteRoot};
use crate::ir::{BasicBlock, Function, Inst, Op, ProgramV};
use crate::memory::MemObject;

verus! {

/// What an instruction that does not disturb a cell does to memory leaves the cell as it was.
proof fn lemma_undisturbed(
    p: ProgramV,
    f: Function,
    env: spec_fn(Inst) -> int,
    i: Inst,
    m: Memory,
    w: Memory,
    cell: Cell,
)
    requires
        may_step(p, f, env, i, m, w),
        !disturbs(p, f, i, cell),
    ensures
        w(cell) == m(cell),
{
}

/// Memory went through `states` while the instructions `steps` of `f` ran.
pub open spec fn ran(p: ProgramV, f: Function, env: spec_fn(Inst) -> int, steps: Seq<Inst>, states: Seq<Memory>) -> bool {
    &&& states.len() == steps.len() + 1
    &&& forall|t: int| 0 <= t < steps.len() ==> may_step(p, f, env, #[trigger] steps[t], states[t], states[t + 1])
}

/// Instruction `i` is one of `insts` other than the one at position `k`.
pub open spec fn is_other(insts: Seq<Inst>, k: int, i: Inst) -> bool {
    exists|j: int| 0 <= j < insts.len() && j != k && #[trigger] insts[j] == i
}

proof fn lemma_cell_rests(
    p: ProgramV,
    f: Function,
    env: spec_fn(Inst) -> int,
    insts: Seq<Inst>,
    k: int,
    steps: Seq<Inst>,
    states: Seq<Memory>,
    upto: int,
)
    requires
        is_writeback(p, f, insts, k),
        ran(p, f, env, steps, states),
        0 <= upto <= steps.len(),
        forall|t: int| 0 <= t < upto ==> is_other(insts, k, #[trigger] steps[t]),
    ensures
        states[upto](cell_at(p, p.arg(insts[k], 1))->0) == states[0](cell_at(p, p.arg(insts[k], 1))->0),
    decreases upto,
{
    if upto > 0 {
        let cell = cell_at(p, p.arg(insts[k], 1))->0;
        lemma_cell_rests(p, f, env, insts, k, steps, states, upto - 1);
        let i = steps[upto - 1];
        assert(is_other(insts, k, i));
        let j = choose|j: int| 0 <= j < insts.len() && j != k && #[trigger] insts[j] == i;
        assert(!disturbs(p, f, insts[j], cell));
        lemma_undisturbed(p, f, env, i, states[upto - 1], states[upto], cell);
    }
}

/// A store that is taken for a write-back changes nothing: from the load of its value to the store, whatever
/// else of the function runs in between, its cell holds that value.
pub proof fn write_back_stores_what_is_there(
    p: ProgramV,
    f: Function,
    env: spec_fn(Inst) -> int,
    insts: Seq<Inst>,
    k: int,
    steps: Seq<Inst>,
    states: Seq<Memory>,
    cell: Cell,
)
    requires
        0 <= k < insts.len(),
        is_writeback(p, f, insts, k),
        ran(p, f, env, steps, states),
        steps.len() >= 2,
        steps[0] == p.arg(insts[k], 0),
        steps.last() == insts[k],
        forall|t: int| 0 <= t < steps.len() - 1 ==> is_other(insts, k, #[trigger] steps[t]),
    ensures
        states.last()(cell) == states[steps.len() - 1](cell),
{
    let n = steps.len() - 1;
    let own = cell_at(p, p.arg(insts[k], 1))->0;
    lemma_cell_rests(p, f, env, insts, k, steps, states, n);
    assert(may_step(p, f, env, steps[0], states[0], states[1]));
    assert(may_step(p, f, env, steps[n], states[n], states[n + 1]));
    assert(states[n + 1](own) == env(p.arg(insts[k], 0)));
}

/// Instruction `i` may read the cell.
pub open spec fn may_read(p: ProgramV, f: Function, i: Inst, cell: Cell) -> bool {
    match p.op(i) {
        Op::Load => cell_at(p, p.arg(i, 0)) is None || cell_at(p, p.arg(i, 0)) == Some(cell),
        Op::Call(g) => match call_roots(p, g, f, false) {
            Some(roots) => in_roots(cell, roots),
            None => true,
        },
        _ => false,
    }
}

/// Load `i` is among those whose users get the stored value.
pub open spec fn is_forwarded(forwards: Seq<(Inst, Inst)>, i: Inst) -> bool {
    exists|k: int| 0 <= k < forwards.len() && (#[trigger] forwards[k]).0 == i
}

/// The instruction at position `a` stores to a cell that nothing after it up to position `b` reads, but
/// for loads whose users get the stored value.
pub open spec fn unread(
    p: ProgramV,
    f: Function,
    insts: Seq<Inst>,
    forwards: Seq<(Inst, Inst)>,
    a: int,
    b: int,
    cell: Cell,
) -> bool {
    &&& 0 <= a < b <= insts.len()
    &&& p.op(insts[a]) is Store
    &&& cell_at(p, p.arg(insts[a], 1)) == Some(cell)
    &&& forall|j: int|
        a < j < b && may_read(p, f, #[trigger] insts[j], cell) ==> p.op(insts[j]) is Load && is_forwarded(
            forwards,
            insts[j],
        )
}

/// The store of entry `e` stands before position `upto` and is unread up to it.
pub open spec fn entry_unread(
    p: ProgramV,
    f: Function,
    insts: Seq<Inst>,
    forwards: Seq<(Inst, Inst)>,
    upto: int,
    e: (Cell, Inst, Inst),
) -> bool {
    exists|a: int| insts[a] == e.1 && #[trigger] unread(p, f, insts, forwards, a, upto, e.0)
}

/// Every pending store is unread so far.
pub open spec fn pending_unread(p: ProgramV, f: Function, insts: Seq<Inst>, st: ScanV, upto: int) -> bool {
    forall|k: int|
        0 <= k < st.pending.len() ==> entry_unread(p, f, insts, st.forwards, upto, #[trigger] st.pending[k])
}

/// Store `s` is followed by another store to its cell, unread up to it.
pub open spec fn overwritten_unread(
    p: ProgramV,
    f: Function,
    insts: Seq<Inst>,
    forwards: Seq<(Inst, Inst)>,
    s: Inst,
) -> bool {
    exists|a: int, b: int, cell: Cell|
        #[trigger] unread(p, f, insts, forwards, a, b, cell) && insts[a] == s && b < insts.len() && p.op(insts[b]) is Store
            && cell_at(p, p.arg(insts[b], 1)) == Some(cell)
}

proof fn lemma_entry(pending: Seq<(Cell, Inst, Inst)>, cell: Cell, from: int)
    requires
        0 <= from <= pending.len(),
    ensures
        from <= entry_from(pending, cell, from) <= pending.len(),
        entry_from(pending, cell, from) < pending.len() ==> pending[entry_from(pending, cell, from)].0 == cell,
        forall|k: int|
            from <= k < pending.len() && (#[trigger] pending[k]).0 == cell ==> entry_from(pending, cell, from)
                < pending.len(),
    decreases pending.len() - from,
{
    if from < pending.len() && pending[from].0 != cell {
        lemma_entry(pending, cell, from + 1);
    }
}

proof fn lemma_apart(
    pending: Seq<(Cell, Inst, Inst)>,
    root: MemObject,
    off: int,
    len: int,
    from: int,
    kept: Seq<(Cell, Inst, Inst)>,
)
    requires
        0 <= from <= pending.len(),
        forall|k: int| 0 <= k < kept.len() ==> pending.contains(#[trigger] kept[k]),
    ensures
        forall|k: int|
            0 <= k < pending_apart(pending, root, off, len, from, kept).len() ==> pending.contains(
                #[trigger] pending_apart(pending, root, off, len, from, kept)[k],
            ),
    decreases pending.len() - from,
{
    if from < pending.len() {
        let next = if in_bytes(pending[from].0, root, off, len) {
            kept
        } else {
            kept.push(pending[from])
        };
        assert(pending_apart(pending, root, off, len, from, kept) == pending_apart(
            pending,
            root,
            off,
            len,
            from + 1,
            next,
        ));
        assert forall|k: int| 0 <= k < next.len() implies pending.contains(#[trigger] next[k]) by {
            if k < kept.len() {
                assert(next[k] == kept[k]);
            } else {
                assert(next[k] == pending[from]);
            }
        }
        lemma_apart(pending, root, off, len, from + 1, next);
    }
}

/// Entry `e` is one of `pending` that a call does not touch.
pub open spec fn spared_entry(
    pending: Seq<(Cell, Inst, Inst)>,
    writes: Option<Seq<WriteRoot>>,
    reads: Option<Seq<WriteRoot>>,
    e: (Cell, Inst, Inst),
) -> bool {
    pending.contains(e) && untouched(e.0, writes, reads)
}

proof fn lemma_untouched(
    pending: Seq<(Cell, Inst, Inst)>,
    writes: Option<Seq<WriteRoot>>,
    reads: Option<Seq<WriteRoot>>,
    from: int,
    kept: Seq<(Cell, Inst, Inst)>,
)
    requires
        0 <= from <= pending.len(),
        forall|k: int| 0 <= k < kept.len() ==> spared_entry(pending, writes, reads, #[trigger] kept[k]),
    ensures
        forall|k: int|
            0 <= k < pending_untouched(pending, writes, reads, from, kept).len() ==> spared_entry(
                pending,
                writes,
                reads,
                #[trigger] pending_untouched(pending, writes, reads, from, kept)[k],
            ),
    decreases pending.len() - from,
{
    if from < pending.len() {
        let next = if untouched(pending[from].0, writes, reads) {
            kept.push(pending[from])
        } else {
            kept
        };
        assert(pending_untouched(pending, writes, reads, from, kept) == pending_untouched(
            pending,
            writes,
            reads,
            from + 1,
            next,
        ));
        assert forall|k: int| 0 <= k < next.len() implies spared_entry(pending, writes, reads, #[trigger] next[k]) by {
            if k < kept.len() {
                assert(next[k] == kept[k]);
            } else {
                assert(next[k] == pending[from]);
            }
        }
        lemma_untouched(pending, writes, reads, from + 1, next);
    }
}

/// The forwarded loads so far are the first of those later.
pub open spec fn prolongs(forwards: Seq<(Inst, Inst)>, more: Seq<(Inst, Inst)>) -> bool {
    forwards.len() <= more.len() && forall|k: int| 0 <= k < forwards.len() ==> #[trigger] more[k] == forwards[k]
}

proof fn lemma_still_unread(
    p: ProgramV,
    f: Function,
    insts: Seq<Inst>,
    forwards: Seq<(Inst, Inst)>,
    more: Seq<(Inst, Inst)>,
    a: int,
    b: int,
    cell: Cell,
)
    requires
        unread(p, f, insts, forwards, a, b, cell),
        prolongs(forwards, more),
    ensures
        unread(p, f, insts, more, a, b, cell),
{
    assert forall|j: int| a < j < b && may_read(p, f, #[trigger] insts[j], cell) implies p.op(insts[j]) is Load
        && is_forwarded(more, insts[j]) by {
        let k = choose|k: int| 0 <= k < forwards.len() && (#[trigger] forwards[k]).0 == insts[j];
        assert(more[k].0 == insts[j]);
    }
}

/// An entry that stays pending over one more instruction stays unread.
proof fn lemma_stays_unread(
    p: ProgramV,
    f: Function,
    insts: Seq<Inst>,
    st: ScanV,
    more: Seq<(Inst, Inst)>,
    at: int,
    e: (Cell, Inst, Inst),
)
    requires
        0 <= at < insts.len(),
        pending_unread(p, f, insts, st, at),
        st.pending.contains(e),
        prolongs(st.forwards, more),
        may_read(p, f, insts[at], e.0) ==> p.op(insts[at]) is Load && is_forwarded(more, insts[at]),
    ensures
        entry_unread(p, f, insts, more, at + 1, e),
{
    let k = st.pending.index_of(e);
    assert(st.pending[k] == e);
    let a = choose|a: int| insts[a] == e.1 && #[trigger] unread(p, f, insts, st.forwards, a, at, e.0);
    lemma_still_unread(p, f, insts, st.forwards, more, a, at, e.0);
    assert forall|j: int| a < j < at + 1 && may_read(p, f, #[trigger] insts[j], e.0) implies p.op(insts[j]) is Load
        && is_forwarded(more, insts[j]) by {}
    assert(unread(p, f, insts, more, a, at + 1, e.0));
}

/// Stores found covered after the first `skip` are overwritten before they are read.
pub open spec fn covered_unread(p: ProgramV, f: Function, insts: Seq<Inst>, st: ScanV, skip: int) -> bool {
    forall|k: int|
        skip <= k < st.covered.len() ==> overwritten_unread(p, f, insts, st.forwards, #[trigger] st.covered[k])
}

proof fn lemma_covered_prolonged(p: ProgramV, f: Function, insts: Seq<Inst>, st: ScanV, next: ScanV, skip: int)
    requires
        covered_unread(p, f, insts, st, skip),
        next.covered == st.covered,
        prolongs(st.forwards, next.forwards),
    ensures
        covered_unread(p, f, insts, next, skip),
{
    assert forall|k: int| skip <= k < next.covered.len() implies overwritten_unread(
        p,
        f,
        insts,
        next.forwards,
        #[trigger] next.covered[k],
    ) by {
        assert(overwritten_unread(p, f, insts, st.forwards, st.covered[k]));
        let (a, b, cell) = choose|a: int, b: int, cell: Cell|
            #[trigger] unread(p, f, insts, st.forwards, a, b, cell) && insts[a] == st.covered[k] && b < insts.len() && p.op(
                insts[b],
            ) is Store && cell_at(p, p.arg(insts[b], 1)) == Some(cell);
        lemma_still_unread(p, f, insts, st.forwards, next.forwards, a, b, cell);
    }
}

proof fn lemma_store_unread(p: ProgramV, f: Function, insts: Seq<Inst>, st: ScanV, at: int, skip: int)
    requires
        0 <= at < insts.len(),
        0 <= skip <= st.covered.len(),
        p.op(insts[at]) is Store,
        pending_unread(p, f, insts, st, at),
        covered_unread(p, f, insts, st, skip),
    ensures
        pending_unread(p, f, insts, after_store(p, st, insts[at]), at + 1),
        covered_unread(p, f, insts, after_store(p, st, insts[at]), skip),
{
    let i = insts[at];
    let next = after_store(p, st, i);
    match cell_at(p, p.arg(i, 1)) {
        None => {},
        Some(cell) => {
            let k = entry_from(st.pending, cell, 0);
            lemma_entry(st.pending, cell, 0);
            assert forall|j: int| 0 <= j < next.pending.len() implies entry_unread(
                p,
                f,
                insts,
                next.forwards,
                at + 1,
                #[trigger] next.pending[j],
            ) by {
                if next.pending[j] == (cell, i, p.arg(i, 0)) {
                    assert(insts[at] == next.pending[j].1);
                    assert(unread(p, f, insts, next.forwards, at, at + 1, next.pending[j].0));
                } else {
                    assert(next.pending[j] == st.pending[j]);
                    assert(st.pending.contains(st.pending[j]));
                    assert(!may_read(p, f, insts[at], st.pending[j].0));
                    lemma_stays_unread(p, f, insts, st, next.forwards, at, st.pending[j]);
                }
            }
            assert forall|j: int| skip <= j < next.covered.len() implies overwritten_unread(
                p,
                f,
                insts,
                next.forwards,
                #[trigger] next.covered[j],
            ) by {
                if j < st.covered.len() {
                    assert(next.covered[j] == st.covered[j]);
                } else {
                    assert(next.covered[j] == st.pending[k].1);
                    assert(entry_unread(p, f, insts, st.forwards, at, st.pending[k]));
                    let a = choose|a: int|
                        insts[a] == st.pending[k].1 && #[trigger] unread(p, f, insts, st.forwards, a, at, cell);
                    assert(unread(p, f, insts, next.forwards, a, at, cell));
                }
            }
        },
    }
}

proof fn lemma_load_unread(p: ProgramV, f: Function, insts: Seq<Inst>, st: ScanV, at: int, skip: int)
    requires
        0 <= at < insts.len(),
        p.op(insts[at]) is Load,
        pending_unread(p, f, insts, st, at),
        covered_unread(p, f, insts, st, skip),
    ensures
        pending_unread(p, f, insts, after_load(p, st, insts[at]), at + 1),
        covered_unread(p, f, insts, after_load(p, st, insts[at]), skip),
{
    let i = insts[at];
    let next = after_load(p, st, i);
    lemma_covered_prolonged(p, f, insts, st, next, skip);
    match cell_at(p, p.arg(i, 0)) {
        None => {},
        Some(cell) => {
            let k = entry_from(st.pending, cell, 0);
            lemma_entry(st.pending, cell, 0);
            assert forall|j: int| 0 <= j < next.pending.len() implies entry_unread(
                p,
                f,
                insts,
                next.forwards,
                at + 1,
                #[trigger] next.pending[j],
            ) by {
                if next.pending[j].0 == cell {
                    assert(next.forwards[st.forwards.len() as int].0 == i);
                    assert(is_forwarded(next.forwards, i));
                }
                lemma_stays_unread(p, f, insts, st, next.forwards, at, st.pending[j]);
            }
        },
    }
}

proof fn lemma_scan_unread(p: ProgramV, f: Function, insts: Seq<Inst>, st: ScanV, at: int, skip: int)
    requires
        0 <= at < insts.len(),
        0 <= skip <= st.covered.len(),
        pending_unread(p, f, insts, st, at),
        covered_unread(p, f, insts, st, skip),
    ensures
        pending_unread(p, f, insts, scanned(p, f, st, insts[at]), at + 1),
        covered_unread(p, f, insts, scanned(p, f, st, insts[at]), skip),
{
    let i = insts[at];
    let next = scanned(p, f, st, i);
    if p.op(i) is Store {
        lemma_store_unread(p, f, insts, st, at, skip);
    } else if p.op(i) is Load {
        lemma_load_unread(p, f, insts, st, at, skip);
    } else {
        lemma_covered_prolonged(p, f, insts, st, next, skip);
        assert forall|j: int| 0 <= j < next.pending.len() implies entry_unread(
                p,
                f,
                insts,
                next.forwards,
                at + 1,
                #[trigger] next.pending[j],
            ) by {
            let e = next.pending[j];
            match p.op(i) {
                Op::Call(g) => {
                    let writes = call_roots(p, g, f, true);
                    let reads = call_roots(p, g, f, false);
                    lemma_untouched(st.pending, writes, reads, 0, Seq::empty());
                    assert(spared_entry(st.pending, writes, reads, e));
                },
                Op::MemZero(_) => {
                    let (root, off) = cell_at(p, p.arg(i, 0))->0;
                    lemma_apart(st.pending, root, off as int, cleared_len(p, i), 0, Seq::empty());
                    assert(st.pending.contains(e));
                },
                Op::MemZeroDyn => {
                    let (root, off) = cell_at(p, p.arg(i, 0))->0;
                    lemma_apart(st.pending, root, off as int, cleared_len(p, i), 0, Seq::empty());
                    assert(st.pending.contains(e));
                },
                _ => {
                    assert(st.pending[j] == e);
                },
            }
            lemma_stays_unread(p, f, insts, st, next.forwards, at, e);
        }
    }
}

proof fn lemma_scan_grows(p: ProgramV, f: Function, st: ScanV, i: Inst)
    ensures
        st.covered.len() <= scanned(p, f, st, i).covered.len(),
{
}

proof fn lemma_block_unread(p: ProgramV, f: Function, insts: Seq<Inst>, st: ScanV, at: int, skip: int)
    requires
        0 <= at <= insts.len(),
        0 <= skip <= st.covered.len(),
        pending_unread(p, f, insts, st, at),
        covered_unread(p, f, insts, st, skip),
    ensures
        covered_unread(p, f, insts, scanned_all(p, f, st, insts, at), skip),
    decreases insts.len() - at,
{
    if at < insts.len() {
        lemma_scan_unread(p, f, insts, st, at, skip);
        lemma_scan_grows(p, f, st, insts[at]);
        lemma_block_unread(p, f, insts, scanned(p, f, st, insts[at]), at + 1, skip);
    }
}

/// Every store that the scan of a block finds covered is followed in the block by another store to its cell,
/// and nothing between the two reads the cell but loads whose users get the stored value.
pub proof fn covered_stores_are_not_read(p: ProgramV, f: Function, insts: Seq<Inst>, st: ScanV, k: int)
    requires
        st.covered.len() <= k < scanned_all(p, f, forgotten(st), insts, 0).covered.len(),
    ensures
        ({
            let done = scanned_all(p, f, forgotten(st), insts, 0);
            overwritten_unread(p, f, insts, done.forwards, done.covered[k])
        }),
{
    lemma_block_unread(p, f, insts, forgotten(st), 0, st.covered.len() as int);
}

/// Instruction `i` may read one of the `len` bytes at `off` of `root`.
pub open spec fn may_read_bytes(p: ProgramV, i: Inst, root: MemObject, off: int, len: int) -> bool {
    match p.op(i) {
        Op::Load => match cell_at(p, p.arg(i, 0)) {
            Some(cell) => in_bytes(cell, root, off, len),
            None => true,
        },
        Op::Call(_) => true,
        _ => false,
    }
}

/// The instruction at position `a` clears the `len` bytes at `off` of `root`, which nothing after it up to
/// position `b` reads.
pub open spec fn cleared_unread(p: ProgramV, insts: Seq<Inst>, a: int, b: int, root: MemObject, off: int, len: int) -> bool {
    &&& 0 <= a < b <= insts.len()
    &&& p.op(insts[a]) is MemZero
    &&& cell_at(p, p.arg(insts[a], 0)) is Some
    &&& (cell_at(p, p.arg(insts[a], 0))->0).0 == root
    &&& (cell_at(p, p.arg(insts[a], 0))->0).1 == off
    &&& cleared_len(p, insts[a]) == len
    &&& forall|j: int| a < j < b ==> !may_read_bytes(p, #[trigger] insts[j], root, off, len)
}

/// Instruction `i` stores over byte `x` of `root`.
pub open spec fn stores_byte(p: ProgramV, i: Inst, root: MemObject, x: int) -> bool {
    &&& p.op(i) is Store
    &&& cell_at(p, p.arg(i, 1)) is Some
    &&& (cell_at(p, p.arg(i, 1))->0).0 == root
    &&& (cell_at(p, p.arg(i, 1))->0).1 <= x < (cell_at(p, p.arg(i, 1))->0).1 + width_of(p.ty(p.arg(i, 0)))
}

/// Byte `x` of `root` is stored over between positions `a` and `b`.
pub open spec fn byte_stored(p: ProgramV, insts: Seq<Inst>, a: int, b: int, root: MemObject, x: int) -> bool {
    exists|j: int| a < j < b && stores_byte(p, #[trigger] insts[j], root, x)
}

/// The clearing at position `a` is unread up to `upto`, and its bytes that count as covered are stored over.
pub open spec fn clearing_at(p: ProgramV, insts: Seq<Inst>, a: int, upto: int, z: ZeroV) -> bool {
    &&& insts[a] == z.inst
    &&& cleared_unread(p, insts, a, upto, z.root, z.off, z.len)
    &&& forall|x: int| #[trigger] z.covered.contains(x) ==> byte_stored(p, insts, a, upto, z.root, x)
}

pub open spec fn clearing_holds(p: ProgramV, insts: Seq<Inst>, upto: int, z: ZeroV) -> bool {
    exists|a: int| #[trigger] clearing_at(p, insts, a, upto, z)
}

pub open spec fn clearings_hold(p: ProgramV, insts: Seq<Inst>, upto: int, zeros: Seq<ZeroV>) -> bool {
    forall|k: int| 0 <= k < zeros.len() ==> clearing_holds(p, insts, upto, #[trigger] zeros[k])
}

/// Clearing `i` is followed by stores over all of its bytes, none of which is read up to the last of them.
pub open spec fn wholly_overwritten(p: ProgramV, insts: Seq<Inst>, i: Inst) -> bool {
    exists|a: int, b: int, root: MemObject, off: int, len: int|
        insts[a] == i && #[trigger] cleared_unread(p, insts, a, b, root, off, len) && forall|x: int|
            off <= x < off + len ==> #[trigger] byte_stored(p, insts, a, b, root, x)
}

pub open spec fn all_overwritten(p: ProgramV, insts: Seq<Inst>, dead: Seq<Inst>, skip: int) -> bool {
    forall|k: int| skip <= k < dead.len() ==> wholly_overwritten(p, insts, #[trigger] dead[k])
}

/// A clearing that the instruction at `at` does not read holds on, with what that instruction stores.
proof fn lemma_clearing_on(p: ProgramV, insts: Seq<Inst>, at: int, z: ZeroV, s: int, e: int)
    requires
        0 <= at < insts.len(),
        clearing_holds(p, insts, at, z),
        !may_read_bytes(p, insts[at], z.root, z.off, z.len),
        forall|x: int| s <= x < e ==> stores_byte(p, insts[at], z.root, x),
    ensures
        clearing_holds(p, insts, at + 1, z.with(s, e)),
        clearing_holds(p, insts, at + 1, z),
        z.with(s, e).is_covered() ==> wholly_overwritten(p, insts, z.inst),
{
    let a = choose|a: int| #[trigger] clearing_at(p, insts, a, at, z);
    assert forall|x: int| byte_stored(p, insts, a, at, z.root, x) implies #[trigger] byte_stored(
        p,
        insts,
        a,
        at + 1,
        z.root,
        x,
    ) by {
        let j = choose|j: int| a < j < at && stores_byte(p, #[trigger] insts[j], z.root, x);
        assert(a < j < at + 1 && stores_byte(p, insts[j], z.root, x));
    }
    let w = z.with(s, e);
    assert forall|x: int| #[trigger] w.covered.contains(x) implies byte_stored(p, insts, a, at + 1, w.root, x) by {
        if z.covered.contains(x) {
            assert(byte_stored(p, insts, a, at, z.root, x));
        } else {
            assert(s <= x < e);
            assert(a < at < at + 1 && stores_byte(p, insts[at], z.root, x));
        }
    }
    assert(clearing_at(p, insts, a, at + 1, w));
    assert forall|x: int| #[trigger] z.covered.contains(x) implies byte_stored(p, insts, a, at + 1, z.root, x) by {
        assert(byte_stored(p, insts, a, at, z.root, x));
    }
    assert(clearing_at(p, insts, a, at + 1, z));
    if w.is_covered() {
        assert forall|x: int| z.off <= x < z.off + z.len implies #[trigger] byte_stored(p, insts, a, at + 1, z.root, x) by {
            assert(w.covered.contains(x));
        }
        assert(cleared_unread(p, insts, a, at + 1, z.root, z.off, z.len));
    }
}

proof fn lemma_zeros_stored(
    p: ProgramV,
    insts: Seq<Inst>,
    at: int,
    zeros: Seq<ZeroV>,
    root: MemObject,
    lo: int,
    hi: int,
    kept: Seq<ZeroV>,
    dead: Seq<Inst>,
    skip: int,
)
    requires
        0 <= at < insts.len(),
        0 <= skip <= dead.len(),
        clearings_hold(p, insts, at, zeros),
        clearings_hold(p, insts, at + 1, kept),
        all_overwritten(p, insts, dead, skip),
        p.op(insts[at]) is Store,
        cell_at(p, p.arg(insts[at], 1)) is Some,
        (cell_at(p, p.arg(insts[at], 1))->0).0 == root,
        (cell_at(p, p.arg(insts[at], 1))->0).1 == lo,
        hi == lo + width_of(p.ty(p.arg(insts[at], 0))),
    ensures
        clearings_hold(p, insts, at + 1, zeros_stored(zeros, root, lo, hi, kept, dead).0),
        all_overwritten(p, insts, zeros_stored(zeros, root, lo, hi, kept, dead).1, skip),
    decreases zeros.len(),
{
    if zeros.len() > 0 {
        let m = zeros[0];
        let rest = zeros.drop_first();
        assert(clearing_holds(p, insts, at, zeros[0]));
        assert(clearings_hold(p, insts, at, rest)) by {
            assert forall|k: int| 0 <= k < rest.len() implies clearing_holds(p, insts, at, #[trigger] rest[k]) by {
                assert(rest[k] == zeros[k + 1]);
            }
        }
        let s = if lo > m.off {
            lo
        } else {
            m.off
        };
        let e = if hi < m.off + m.len {
            hi
        } else {
            m.off + m.len
        };
        if m.root != root || s >= e {
            lemma_clearing_on(p, insts, at, m, 0, 0);
            assert(clearings_hold(p, insts, at + 1, kept.push(m)));
            lemma_zeros_stored(p, insts, at, rest, root, lo, hi, kept.push(m), dead, skip);
        } else {
            lemma_clearing_on(p, insts, at, m, s, e);
            if m.with(s, e).is_covered() {
                let more = dead.push(m.inst);
                assert forall|k: int| skip <= k < more.len() implies wholly_overwritten(p, insts, #[trigger] more[k]) by {
                    if k < dead.len() {
                        assert(more[k] == dead[k]);
                    }
                }
                lemma_zeros_stored(p, insts, at, rest, root, lo, hi, kept, more, skip);
            } else {
                assert(clearings_hold(p, insts, at + 1, kept.push(m.with(s, e))));
                lemma_zeros_stored(p, insts, at, rest, root, lo, hi, kept.push(m.with(s, e)), dead, skip);
            }
        }
    }
}

proof fn lemma_zeros_unread(p: ProgramV, insts: Seq<Inst>, at: int, zeros: Seq<ZeroV>, cell: Cell, kept: Seq<ZeroV>)
    requires
        0 <= at < insts.len(),
        clearings_hold(p, insts, at, zeros),
        clearings_hold(p, insts, at + 1, kept),
        p.op(insts[at]) is Load,
        cell_at(p, p.arg(insts[at], 0)) == Some(cell),
    ensures
        clearings_hold(p, insts, at + 1, zeros_unread(zeros, cell, kept)),
    decreases zeros.len(),
{
    if zeros.len() > 0 {
        let m = zeros[0];
        let rest = zeros.drop_first();
        assert(clearing_holds(p, insts, at, zeros[0]));
        assert(clearings_hold(p, insts, at, rest)) by {
            assert forall|k: int| 0 <= k < rest.len() implies clearing_holds(p, insts, at, #[trigger] rest[k]) by {
                assert(rest[k] == zeros[k + 1]);
            }
        }
        if in_bytes(cell, m.root, m.off, m.len) {
            lemma_zeros_unread(p, insts, at, rest, cell, kept);
        } else {
            lemma_clearing_on(p, insts, at, m, 0, 0);
            assert(clearings_hold(p, insts, at + 1, kept.push(m)));
            lemma_zeros_unread(p, insts, at, rest, cell, kept.push(m));
        }
    }
}

proof fn lemma_zeros_apart(
    p: ProgramV,
    insts: Seq<Inst>,
    at: int,
    zeros: Seq<ZeroV>,
    root: MemObject,
    off: int,
    len: int,
    kept: Seq<ZeroV>,
)
    requires
        0 <= at < insts.len(),
        clearings_hold(p, insts, at, zeros),
        clearings_hold(p, insts, at + 1, kept),
        p.op(insts[at]) is MemZero || p.op(insts[at]) is MemZeroDyn,
    ensures
        clearings_hold(p, insts, at + 1, zeros_apart(zeros, root, off, len, kept)),
    decreases zeros.len(),
{
    if zeros.len() > 0 {
        let m = zeros[0];
        let rest = zeros.drop_first();
        assert(clearing_holds(p, insts, at, zeros[0]));
        assert(clearings_hold(p, insts, at, rest)) by {
            assert forall|k: int| 0 <= k < rest.len() implies clearing_holds(p, insts, at, #[trigger] rest[k]) by {
                assert(rest[k] == zeros[k + 1]);
            }
        }
        if m.root != root || m.off >= off + len || off >= m.off + m.len {
            lemma_clearing_on(p, insts, at, m, 0, 0);
            assert(clearings_hold(p, insts, at + 1, kept.push(m)));
            lemma_zeros_apart(p, insts, at, rest, root, off, len, kept.push(m));
        } else {
            lemma_zeros_apart(p, insts, at, rest, root, off, len, kept);
        }
    }
}

proof fn lemma_scan_clears(p: ProgramV, f: Function, insts: Seq<Inst>, st: ScanV, at: int, skip: int)
    requires
        0 <= at < insts.len(),
        0 <= skip <= st.dead.len(),
        clearings_hold(p, insts, at, st.zeros),
        all_overwritten(p, insts, st.dead, skip),
    ensures
        clearings_hold(p, insts, at + 1, scanned(p, f, st, insts[at]).zeros),
        all_overwritten(p, insts, scanned(p, f, st, insts[at]).dead, skip),
{
    let i = insts[at];
    let next = scanned(p, f, st, i);
    if p.op(i) is Store {
        match cell_at(p, p.arg(i, 1)) {
            None => {},
            Some(cell) => {
                let width = width_of(p.ty(p.arg(i, 0)));
                if width > 0 {
                    lemma_zeros_stored(
                        p,
                        insts,
                        at,
                        st.zeros,
                        cell.0,
                        cell.1 as int,
                        cell.1 + width,
                        Seq::empty(),
                        st.dead,
                        skip,
                    );
                } else {
                    lemma_clearings_on(p, insts, at, st.zeros);
                }
            },
        }
    } else if p.op(i) is Load {
        match cell_at(p, p.arg(i, 0)) {
            None => {},
            Some(cell) => lemma_zeros_unread(p, insts, at, st.zeros, cell, Seq::empty()),
        }
    } else if p.op(i) is MemZero || p.op(i) is MemZeroDyn {
        match cell_at(p, p.arg(i, 0)) {
            None => {},
            Some((root, off)) => {
                let len = cleared_len(p, i);
                lemma_zeros_apart(p, insts, at, st.zeros, root, off as int, len, Seq::empty());
                let apart = zeros_apart(st.zeros, root, off as int, len, Seq::empty());
                if len != i64::MAX {
                    let z = ZeroV { inst: i, root, off: off as int, len, covered: Set::empty() };
                    assert(clearing_at(p, insts, at, at + 1, z));
                    assert(next.zeros == apart.push(z));
                }
            },
        }
    } else if !(p.op(i) is Call) {
        lemma_clearings_on(p, insts, at, st.zeros);
    }
}

proof fn lemma_clearings_on(p: ProgramV, insts: Seq<Inst>, at: int, zeros: Seq<ZeroV>)
    requires
        0 <= at < insts.len(),
        clearings_hold(p, insts, at, zeros),
        !(p.op(insts[at]) is Load),
        !(p.op(insts[at]) is Call),
    ensures
        clearings_hold(p, insts, at + 1, zeros),
{
    assert forall|k: int| 0 <= k < zeros.len() implies clearing_holds(p, insts, at + 1, #[trigger] zeros[k]) by {
        lemma_clearing_on(p, insts, at, zeros[k], 0, 0);
    }
}

proof fn lemma_dead_grows(zeros: Seq<ZeroV>, root: MemObject, lo: int, hi: int, kept: Seq<ZeroV>, dead: Seq<Inst>)
    ensures
        dead.len() <= zeros_stored(zeros, root, lo, hi, kept, dead).1.len(),
    decreases zeros.len(),
{
    if zeros.len() > 0 {
        let m = zeros[0];
        let rest = zeros.drop_first();
        let s = if lo > m.off {
            lo
        } else {
            m.off
        };
        let e = if hi < m.off + m.len {
            hi
        } else {
            m.off + m.len
        };
        lemma_dead_grows(rest, root, lo, hi, kept.push(m), dead);
        lemma_dead_grows(rest, root, lo, hi, kept, dead.push(m.inst));
        lemma_dead_grows(rest, root, lo, hi, kept.push(m.with(s, e)), dead);
    }
}

proof fn lemma_block_clears(p: ProgramV, f: Function, insts: Seq<Inst>, st: ScanV, at: int, skip: int)
    requires
        0 <= at <= insts.len(),
        0 <= skip <= st.dead.len(),
        clearings_hold(p, insts, at, st.zeros),
        all_overwritten(p, insts, st.dead, skip),
    ensures
        all_overwritten(p, insts, scanned_all(p, f, st, insts, at).dead, skip),
    decreases insts.len() - at,
{
    if at < insts.len() {
        let i = insts[at];
        lemma_scan_clears(p, f, insts, st, at, skip);
        if p.op(i) is Store {
            if let Some(cell) = cell_at(p, p.arg(i, 1)) {
                lemma_dead_grows(
                    st.zeros,
                    cell.0,
                    cell.1 as int,
                    cell.1 + width_of(p.ty(p.arg(i, 0))),
                    Seq::empty(),
                    st.dead,
                );
            }
        }
        lemma_block_clears(p, f, insts, scanned(p, f, st, i), at + 1, skip);
    }
}

/// Every clearing that the scan of a block finds dead is followed in the block by stores over all the bytes
/// that it clears, and none of these is read before.
pub proof fn dead_clearings_are_overwritten(p: ProgramV, f: Function, insts: Seq<Inst>, st: ScanV, k: int)
    requires
        st.dead.len() <= k < scanned_all(p, f, forgotten(st), insts, 0).dead.len(),
    ensures
        wholly_overwritten(p, insts, scanned_all(p, f, forgotten(st), insts, 0).dead[k]),
{
    lemma_block_clears(p, f, insts, forgotten(st), 0, st.dead.len() as int);
}

/// No value that a load gives way to is a load that gave way before it, or the load itself.
pub open spec fn leads_forward(forwards: Seq<(Inst, Inst)>) -> bool {
    forall|j: int, k: int| 0 <= j <= k < forwards.len() ==> (#[trigger] forwards[j]).0 != (#[trigger] forwards[k]).1
}

proof fn lemma_resolved(forwards: Seq<(Inst, Inst)>, v: Inst, from: int)
    requires
        0 <= from <= forwards.len(),
        leads_forward(forwards),
        forall|j: int| 0 <= j < from ==> (#[trigger] forwards[j]).0 != v,
    ensures
        forall|j: int| 0 <= j < forwards.len() ==> (#[trigger] forwards[j]).0 != resolved(forwards, v, from),
    decreases forwards.len() - from,
{
    if from < forwards.len() {
        let w = if forwards[from].0 == v {
            forwards[from].1
        } else {
            v
        };
        assert forall|j: int| 0 <= j < from + 1 implies (#[trigger] forwards[j]).0 != w by {
            if w != v {
                assert(forwards[j].0 != forwards[from].1);
            }
        }
        lemma_resolved(forwards, w, from + 1);
    }
}

proof fn lemma_scan_leads(p: ProgramV, f: Function, st: ScanV, i: Inst)
    requires
        leads_forward(st.forwards),
    ensures
        leads_forward(scanned(p, f, st, i).forwards),
{
    let next = scanned(p, f, st, i);
    if p.op(i) is Load && next.forwards.len() > st.forwards.len() {
        let cell = cell_at(p, p.arg(i, 0))->0;
        let k = entry_from(st.pending, cell, 0);
        lemma_resolved(st.forwards, st.pending[k].2, 0);
        let v = resolved(st.forwards, st.pending[k].2, 0);
        assert forall|j: int, n: int| 0 <= j <= n < next.forwards.len() implies (#[trigger] next.forwards[j]).0 != (
        #[trigger] next.forwards[n]).1 by {
            if n < st.forwards.len() {
                assert(st.forwards[j].0 != st.forwards[n].1);
            } else if j < st.forwards.len() {
                assert(st.forwards[j].0 != v);
            }
        }
    }
}

proof fn lemma_block_leads(p: ProgramV, f: Function, st: ScanV, insts: Seq<Inst>, from: int)
    requires
        leads_forward(st.forwards),
    ensures
        leads_forward(scanned_all(p, f, st, insts, from).forwards),
    decreases insts.len() - from,
{
    if from < insts.len() {
        lemma_scan_leads(p, f, st, insts[from]);
        lemma_block_leads(p, f, scanned(p, f, st, insts[from]), insts, from + 1);
    }
}

proof fn lemma_blocks_lead(p: ProgramV, f: Function, st: ScanV, blocks: Seq<BasicBlock>, from: int)
    requires
        leads_forward(st.forwards),
    ensures
        leads_forward(scanned_blocks(p, f, st, blocks, from).forwards),
    decreases blocks.len() - from,
{
    if from < blocks.len() {
        let insts = p.block(blocks[from]).insts;
        lemma_block_leads(p, f, forgotten(st), insts, 0);
        lemma_blocks_lead(p, f, scanned_all(p, f, forgotten(st), insts, 0), blocks, from + 1);
    }
}

/// Nothing in `q` uses one of the first `n` loads of `forwards`.
pub open spec fn unused(q: ProgramV, forwards: Seq<(Inst, Inst)>, n: int) -> bool {
    forall|i: int, k: int, j: int|
        0 <= i < q.insts.len() && 0 <= k < q.insts[i].args.len() && 0 <= j < n ==> #[trigger] q.insts[i].args[k] != (
        #[trigger] forwards[j]).0
}

proof fn lemma_forwards_made(q: ProgramV, forwards: Seq<(Inst, Inst)>, from: int)
    requires
        0 <= from <= forwards.len(),
        leads_forward(forwards),
        unused(q, forwards, from),
    ensures
        unused(forwards_made(q, forwards, from), forwards, forwards.len() as int),
    decreases forwards.len() - from,
{
    if from < forwards.len() {
        reveal(ProgramV::replace_uses);
        let (a, b) = forwards[from];
        let next = q.replace_uses(a, b);
        assert forall|i: int, k: int, j: int|
            0 <= i < next.insts.len() && 0 <= k < next.insts[i].args.len() && 0 <= j < from + 1 implies
            #[trigger] next.insts[i].args[k] != (#[trigger] forwards[j]).0 by {
            assert(next.insts[i] == q.insts[i].replaced(a, b));
            let old_arg = q.insts[i].args[k];
            if old_arg == a {
                assert(next.insts[i].args[k] == b);
                assert(forwards[j].0 != forwards[from].1);
            } else {
                assert(next.insts[i].args[k] == old_arg);
                if j < from {
                    assert(q.insts[i].args[k] != forwards[j].0);
                }
            }
        }
        lemma_forwards_made(next, forwards, from + 1);
    }
}

proof fn lemma_dead_unused(q: ProgramV, f: Function, dead: Seq<Inst>, from: int, changed: bool, forwards: Seq<(Inst, Inst)>)
    requires
        unused(q, forwards, forwards.len() as int),
    ensures
        unused(dead_removed(q, f, dead, from, changed).0, forwards, forwards.len() as int),
    decreases dead.len() - from,
{
    if from < dead.len() {
        match q.parent_bb(f, dead[from]) {
            Some(b) => {
                reveal(ProgramV::set_inst);
                reveal(ProgramV::set_block_insts);
                let next = q.remove(b, dead[from]);
                assert forall|i: int, k: int, j: int|
                    0 <= i < next.insts.len() && 0 <= k < next.insts[i].args.len() && 0 <= j < forwards.len() implies
                    #[trigger] next.insts[i].args[k] != (#[trigger] forwards[j]).0 by {
                    if i != dead[from].0 {
                        assert(q.insts[i].args[k] != forwards[j].0);
                    }
                }
                lemma_dead_unused(next, f, dead, from + 1, true, forwards);
            },
            None => lemma_dead_unused(q, f, dead, from + 1, changed, forwards),
        }
    }
}

/// Nothing in the program that comes out uses a load whose users get the stored value: what such a load reads
/// matters no more.
pub proof fn forwarded_loads_are_unused(p: ProgramV, f: Function, u: Inst, k: int)
    requires
        0 <= k < stores_cleaned(p, f).0.args(u).len(),
    ensures
        !is_forwarded(
            scanned_blocks(p, f, nothing_found(), p.func(f).blocks, 0).forwards,
            stores_cleaned(p, f).0.args(u)[k],
        ),
{
    let found = scanned_blocks(p, f, nothing_found(), p.func(f).blocks, 0);
    let made = forwards_made(p, found.forwards, 0);
    let dead = writebacks_from(p, f, p.placed(f), 0, Seq::empty()) + found.covered + found.dead;
    lemma_blocks_lead(p, f, nothing_found(), p.func(f).blocks, 0);
    lemma_forwards_made(p, found.forwards, 0);
    lemma_dead_unused(made, f, dead, 0, found.forwards.len() > 0, found.forwards);
    let q = stores_cleaned(p, f).0;
    if is_forwarded(found.forwards, q.args(u)[k]) {
        let j = choose|j: int| 0 <= j < found.forwards.len() && (#[trigger] found.forwards[j]).0 == q.args(u)[k];
        assert(q.insts[u.0 as int].args[k] != found.forwards[j].0);
    }
}

} // verus!
