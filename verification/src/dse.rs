//! Removal of dead stores and forwarding of stored values to loads.

use vstd::prelude::*;

use crate::effects::{call_read_roots, call_roots, call_write_roots, AbstractObject, WriteRoot};
use crate::ir::{BasicBlock, Function, Inst, Op, ProgramV, Type};
use crate::memory::{base_of, byte_offset, constant_offset, object_of, MemObject};
use crate::program::Program;

verus! {

pub struct DSE;

/// A place in memory: an object and a byte offset.
pub type Cell = (MemObject, i64);

/// The cell that `addr` names: a known object at a constant offset.
pub open spec fn cell_at(p: ProgramV, addr: Inst) -> Option<Cell> {
    match (object_of(p, addr), constant_offset(p, addr)) {
        (MemObject::Alloc(a), Some(off)) => Some((MemObject::Alloc(a), off as i64)),
        (MemObject::Global(g), Some(off)) => Some((MemObject::Global(g), off as i64)),
        _ => None,
    }
}

pub fn resolve_cell(p: &Program, addr: Inst) -> (r: Option<Cell>)
    ensures
        r == cell_at(p@, addr),
{
    match (base_of(p, addr), byte_offset(p, addr)) {
        (MemObject::Alloc(a), Some(off)) => Some((MemObject::Alloc(a), off)),
        (MemObject::Global(g), Some(off)) => Some((MemObject::Global(g), off)),
        _ => None,
    }
}

/// The object of a cell of `func`.
pub open spec fn object_in(cell: Cell, func: Function) -> AbstractObject {
    match cell.0 {
        MemObject::Global(g) => AbstractObject::Global(g),
        MemObject::Alloc(a) => AbstractObject::Alloc(func, a),
        MemObject::Unknown => AbstractObject::Unknown,
    }
}

pub fn cell_to_object(cell: &Cell, func: Function) -> (r: AbstractObject)
    ensures
        r == object_in(*cell, func),
{
    match cell.0 {
        MemObject::Global(g) => AbstractObject::Global(g),
        MemObject::Alloc(a) => AbstractObject::Alloc(func, a),
        MemObject::Unknown => AbstractObject::Unknown,
    }
}

/// The object that a root stands for.
pub open spec fn base_behind(root: WriteRoot) -> MemObject {
    match root {
        WriteRoot::Global(g) => MemObject::Global(g),
        WriteRoot::Local(_, a) => MemObject::Alloc(a),
    }
}

pub fn root_to_base(root: &WriteRoot) -> (r: MemObject)
    ensures
        r == base_behind(*root),
{
    match root {
        WriteRoot::Global(g) => MemObject::Global(*g),
        WriteRoot::Local(_, a) => MemObject::Alloc(*a),
    }
}

/// The cell lies in the object that `root` stands for.
pub fn cell_matches_root(cell: &Cell, root: &WriteRoot) -> (r: bool)
    ensures
        r == (cell.0 == base_behind(*root)),
{
    match (cell.0, root) {
        (MemObject::Global(g), WriteRoot::Global(h)) => g == *h,
        (MemObject::Alloc(a), WriteRoot::Local(_, b)) => a == *b,
        _ => false,
    }
}

/// The cell lies in the `len` bytes at offset `off` of `root`.
pub open spec fn in_bytes(cell: Cell, root: MemObject, off: int, len: int) -> bool {
    cell.0 == root && off <= cell.1 < off + len
}

pub fn cell_in_range(cell: &Cell, root: MemObject, off: i64, len: i64) -> (r: bool)
    ensures
        r == in_bytes(*cell, root, off as int, len as int),
{
    cell.0 == root && off <= cell.1 && (cell.1 as i128) < (off as i128) + (len as i128)
}

/// A clearing of memory that nothing has read since, with the bytes overwritten since.
pub struct LiveMemZero {
    pub inst: Inst,
    pub root: MemObject,
    pub off: i64,
    pub len: i64,
    pub covered: Vec<(i128, i128)>,
}

pub struct ZeroV {
    pub inst: Inst,
    pub root: MemObject,
    pub off: int,
    pub len: int,
    pub covered: Set<int>,
}

/// `x` lies in one of the half-open intervals.
pub open spec fn in_intervals(c: Seq<(i128, i128)>, x: int) -> bool {
    exists|k: int| 0 <= k < c.len() && (#[trigger] c[k]).0 <= x < c[k].1
}

/// `x` lies in one of the intervals or between `lo` and `hi`.
pub open spec fn in_either(c: Seq<(i128, i128)>, lo: int, hi: int, x: int) -> bool {
    in_intervals(c, x) || lo <= x < hi
}

/// Nonempty intervals in ascending order with gaps between them.
pub open spec fn separated(c: Seq<(i128, i128)>) -> bool {
    &&& forall|k: int| 0 <= k < c.len() ==> (#[trigger] c[k]).0 < c[k].1
    &&& forall|i: int, j: int| 0 <= i < j < c.len() ==> (#[trigger] c[i]).1 < (#[trigger] c[j]).0
}

/// The integers from `s` up to `e`.
pub open spec fn span(s: int, e: int) -> Set<int> {
    Set::new(|x: int| s <= x < e)
}

impl View for LiveMemZero {
    type V = ZeroV;

    open spec fn view(&self) -> ZeroV {
        ZeroV {
            inst: self.inst,
            root: self.root,
            off: self.off as int,
            len: self.len as int,
            covered: Set::new(|x: int| in_intervals(self.covered@, x)),
        }
    }
}

impl ZeroV {
    /// Every cleared byte has been overwritten.
    pub open spec fn is_covered(self) -> bool {
        forall|x: int| self.off <= x < self.off + self.len ==> #[trigger] self.covered.contains(x)
    }

    pub open spec fn with(self, s: int, e: int) -> ZeroV {
        ZeroV { covered: self.covered.union(span(s, e)), ..self }
    }
}

/// Whether the intervals contain everything from `start` up to `end`.
fn contains_span(c: &Vec<(i128, i128)>, start: i128, end: i128) -> (r: bool)
    requires
        separated(c@),
        start < end,
    ensures
        r == (forall|x: int| start <= x < end ==> #[trigger] in_intervals(c@, x)),
{
    let mut cur: i128 = start;
    let mut k: usize = 0;
    while k < c.len()
        invariant
            k <= c@.len(),
            separated(c@),
            start <= cur,
            start < end,
            cur < end,
            forall|x: int| start <= x < cur ==> #[trigger] in_intervals(c@, x),
            forall|j: int| 0 <= j < k ==> (#[trigger] c@[j]).1 <= cur,
        decreases c@.len() - k,
    {
        let a: i128 = c[k].0;
        let b: i128 = c[k].1;
        assert(c@[k as int] == (a, b));
        if a > cur {
            assert(!in_intervals(c@, cur as int)) by {
                if in_intervals(c@, cur as int) {
                    let j = choose|j: int| 0 <= j < c@.len() && (#[trigger] c@[j]).0 <= cur < c@[j].1;
                    if j > k {
                        assert(c@[k as int].1 < c@[j].0);
                    }
                }
            }
            return false;
        }
        if b > cur {
            assert forall|x: int| start <= x < b implies #[trigger] in_intervals(c@, x) by {
                if x >= cur {
                    assert(c@[k as int].0 <= x < c@[k as int].1);
                }
            }
            cur = b;
        }
        if cur >= end {
            return true;
        }
        k += 1;
    }
    assert(!in_intervals(c@, cur as int));
    false
}

/// Notes that the bytes from `s` up to `e` were overwritten. True when every cleared byte has been.
pub fn record_coverage(m: &mut LiveMemZero, s: i128, e: i128) -> (r: bool)
    requires
        separated(old(m).covered@),
        old(m).len > 0,
    ensures
        separated(final(m).covered@),
        final(m)@.covered == (if s < e {
            old(m)@.covered.union(span(s as int, e as int))
        } else {
            old(m)@.covered
        }),
        final(m).inst == old(m).inst,
        final(m).root == old(m).root,
        final(m).off == old(m).off,
        final(m).len == old(m).len,
        r == (s < e && final(m)@.is_covered()),
{
    if s >= e {
        return false;
    }
    let ghost start = m.covered@;
    let mut new_s: i128 = s;
    let mut new_e: i128 = e;
    let mut i: usize = 0;
    while i < m.covered.len()
        invariant_except_break
            i <= m.covered@.len(),
        invariant
            m.inst == old(m).inst,
            m.root == old(m).root,
            m.off == old(m).off,
            m.len == old(m).len,
            separated(m.covered@),
            new_s < new_e,
            s < e,
            forall|k: int| 0 <= k < i ==> (#[trigger] m.covered@[k]).1 < new_s,
            forall|x: int|
                #[trigger] in_either(m.covered@, new_s as int, new_e as int, x) == in_either(
                    start,
                    s as int,
                    e as int,
                    x,
                ),
        ensures
            i <= m.covered@.len(),
            forall|k: int| i <= k < m.covered@.len() ==> (#[trigger] m.covered@[k]).0 > new_e,
        decreases m.covered@.len() - i,
    {
        let a: i128 = m.covered[i].0;
        let b: i128 = m.covered[i].1;
        let ghost before = m.covered@;
        assert(before[i as int] == (a, b));
        if b < new_s {
            i += 1;
            continue;
        }
        if a > new_e {
            assert forall|k: int| i <= k < m.covered@.len() implies (#[trigger] m.covered@[k]).0 > new_e by {
                if k > i {
                    assert(before[i as int].1 < before[k].0);
                }
            }
            break;
        }
        let ghost old_s = new_s;
        let ghost old_e = new_e;
        if a < new_s {
            new_s = a;
        }
        if b > new_e {
            new_e = b;
        }
        m.covered.remove(i);
        proof {
            let c = m.covered@;
            assert forall|k: int| 0 <= k < c.len() implies (#[trigger] c[k]).0 < c[k].1 by {
                let o = if k < i { k } else { k + 1 };
                assert(c[k] == before[o]);
            }
            assert forall|x: int, y: int| 0 <= x < y < c.len() implies (#[trigger] c[x]).1 < (#[trigger] c[y]).0 by {
                let ox = if x < i { x } else { x + 1 };
                let oy = if y < i { y } else { y + 1 };
                assert(c[x] == before[ox] && c[y] == before[oy]);
            }
            assert forall|k: int| 0 <= k < i implies (#[trigger] c[k]).1 < new_s by {
                assert(c[k] == before[k]);
                assert(before[k].1 < before[i as int].0);
            }
            assert forall|x: int|
                #[trigger] in_either(c, new_s as int, new_e as int, x) == in_either(start, s as int, e as int, x) by {
                if in_intervals(c, x) {
                    let k = choose|k: int| 0 <= k < c.len() && (#[trigger] c[k]).0 <= x < c[k].1;
                    let o = if k < i { k } else { k + 1 };
                    assert(before[o].0 <= x < before[o].1);
                    assert(in_intervals(before, x));
                }
                if in_intervals(before, x) {
                    let k = choose|k: int| 0 <= k < before.len() && (#[trigger] before[k]).0 <= x < before[k].1;
                    if k < i {
                        assert(c[k].0 <= x < c[k].1);
                    } else if k > i {
                        assert(c[k - 1].0 <= x < c[k - 1].1);
                    }
                }
                if new_s <= x < new_e && !(old_s <= x < old_e) {
                    assert(before[i as int].0 <= x < before[i as int].1);
                    assert(in_intervals(before, x));
                }
                assert(in_either(before, old_s as int, old_e as int, x) == in_either(start, s as int, e as int, x));
            }
        }
    }
    let ghost before = m.covered@;
    m.covered.insert(i, (new_s, new_e));
    proof {
        let c = m.covered@;
        assert(c[i as int] == (new_s, new_e));
        assert forall|k: int| 0 <= k < c.len() implies (#[trigger] c[k]).0 < c[k].1 by {
            if k != i {
                let o = if k < i { k } else { k - 1 };
                assert(c[k] == before[o]);
            }
        }
        assert forall|x: int, y: int| 0 <= x < y < c.len() implies (#[trigger] c[x]).1 < (#[trigger] c[y]).0 by {
            if x < i {
                assert(c[x] == before[x]);
            } else if x > i {
                assert(c[x] == before[x - 1]);
            }
            if y < i {
                assert(c[y] == before[y]);
            } else if y > i {
                assert(c[y] == before[y - 1]);
            }
        }
        assert forall|x: int| in_intervals(c, x) == #[trigger] in_either(start, s as int, e as int, x) by {
            assert(in_either(before, new_s as int, new_e as int, x) == in_either(start, s as int, e as int, x));
            if in_intervals(c, x) {
                let k = choose|k: int| 0 <= k < c.len() && (#[trigger] c[k]).0 <= x < c[k].1;
                if k < i {
                    assert(before[k].0 <= x < before[k].1);
                } else if k > i {
                    assert(before[k - 1].0 <= x < before[k - 1].1);
                }
            }
            if in_intervals(before, x) {
                let k = choose|k: int| 0 <= k < before.len() && (#[trigger] before[k]).0 <= x < before[k].1;
                if k < i {
                    assert(c[k].0 <= x < c[k].1);
                } else {
                    assert(c[k + 1].0 <= x < c[k + 1].1);
                }
            }
            if new_s <= x < new_e {
                assert(c[i as int].0 <= x < c[i as int].1);
            }
        }
        assert forall|x: int| m@.covered.contains(x) == old(m)@.covered.union(span(s as int, e as int)).contains(x) by {
            assert(in_intervals(c, x) == in_either(start, s as int, e as int, x));
        }
        assert(m@.covered =~= old(m)@.covered.union(span(s as int, e as int)));
    }
    let lo: i128 = m.off as i128;
    let hi: i128 = lo + m.len as i128;
    let r = contains_span(&m.covered, lo, hi);
    proof {
        assert forall|x: int| m@.covered.contains(x) == in_intervals(m.covered@, x) by {}
        if r {
            assert forall|x: int| m@.off <= x < m@.off + m@.len implies #[trigger] m@.covered.contains(x) by {
                assert(in_intervals(m.covered@, x));
            }
        } else {
            assert(!m@.is_covered()) by {
                let x = choose|x: int| lo <= x < hi && !#[trigger] in_intervals(m.covered@, x);
                assert(!m@.covered.contains(x));
            }
        }
    }
    r
}

/// What is known while a block is scanned: stores not read yet with their values, clearings not read
/// yet, and the findings so far.
#[verifier::ext_equal]
pub struct ScanV {
    pub pending: Seq<(Cell, Inst, Inst)>,
    pub zeros: Seq<ZeroV>,
    pub covered: Seq<Inst>,
    pub forwards: Seq<(Inst, Inst)>,
    pub dead: Seq<Inst>,
}

pub struct Scan {
    pub pending: Vec<(Cell, Inst, Inst)>,
    pub zeros: Vec<LiveMemZero>,
    pub covered: Vec<Inst>,
    pub forwards: Vec<(Inst, Inst)>,
    pub dead: Vec<Inst>,
}

pub open spec fn zero_views(zeros: Seq<LiveMemZero>) -> Seq<ZeroV> {
    Seq::new(zeros.len(), |i: int| zeros[i]@)
}

pub open spec fn zeros_wf(zeros: Seq<LiveMemZero>) -> bool {
    forall|i: int| 0 <= i < zeros.len() ==> separated((#[trigger] zeros[i]).covered@)
}

impl View for Scan {
    type V = ScanV;

    open spec fn view(&self) -> ScanV {
        ScanV {
            pending: self.pending@,
            zeros: zero_views(self.zeros@),
            covered: self.covered@,
            forwards: self.forwards@,
            dead: self.dead@,
        }
    }
}

/// The entry for `cell` among `pending[from..]`.
pub open spec fn entry_from(pending: Seq<(Cell, Inst, Inst)>, cell: Cell, from: int) -> int
    decreases pending.len() - from,
{
    if from >= pending.len() {
        pending.len() as int
    } else if pending[from].0 == cell {
        from
    } else {
        entry_from(pending, cell, from + 1)
    }
}

/// The clearings `zeros` after the bytes from `lo` up to `hi` of `root` were overwritten: those that
/// stay behind `kept`, those fully overwritten behind `dead`.
pub open spec fn zeros_stored(
    zeros: Seq<ZeroV>,
    root: MemObject,
    lo: int,
    hi: int,
    kept: Seq<ZeroV>,
    dead: Seq<Inst>,
) -> (Seq<ZeroV>, Seq<Inst>)
    decreases zeros.len(),
{
    if zeros.len() == 0 {
        (kept, dead)
    } else {
        let m = zeros[0];
        let s = if lo > m.off {
            lo
        } else {
            m.off
        };
        let e = if hi < m.off + m.len {
            hi
        } else {
            m.off + m.len
        };
        if m.root != root || s >= e {
            zeros_stored(zeros.drop_first(), root, lo, hi, kept.push(m), dead)
        } else if m.with(s, e).is_covered() {
            zeros_stored(zeros.drop_first(), root, lo, hi, kept, dead.push(m.inst))
        } else {
            zeros_stored(zeros.drop_first(), root, lo, hi, kept.push(m.with(s, e)), dead)
        }
    }
}

/// The clearings that do not contain `cell`, behind `kept`.
pub open spec fn zeros_unread(zeros: Seq<ZeroV>, cell: Cell, kept: Seq<ZeroV>) -> Seq<ZeroV>
    decreases zeros.len(),
{
    if zeros.len() == 0 {
        kept
    } else if in_bytes(cell, zeros[0].root, zeros[0].off, zeros[0].len) {
        zeros_unread(zeros.drop_first(), cell, kept)
    } else {
        zeros_unread(zeros.drop_first(), cell, kept.push(zeros[0]))
    }
}

/// The clearings that do not overlap the `len` bytes at `off` of `root`, behind `kept`.
pub open spec fn zeros_apart(zeros: Seq<ZeroV>, root: MemObject, off: int, len: int, kept: Seq<ZeroV>) -> Seq<ZeroV>
    decreases zeros.len(),
{
    if zeros.len() == 0 {
        kept
    } else {
        let m = zeros[0];
        if m.root != root || m.off >= off + len || off >= m.off + m.len {
            zeros_apart(zeros.drop_first(), root, off, len, kept.push(m))
        } else {
            zeros_apart(zeros.drop_first(), root, off, len, kept)
        }
    }
}

/// The pending stores outside the `len` bytes at `off` of `root`, from position `from` on, behind `kept`.
pub open spec fn pending_apart(
    pending: Seq<(Cell, Inst, Inst)>,
    root: MemObject,
    off: int,
    len: int,
    from: int,
    kept: Seq<(Cell, Inst, Inst)>,
) -> Seq<(Cell, Inst, Inst)>
    decreases pending.len() - from,
{
    if from >= pending.len() {
        kept
    } else if in_bytes(pending[from].0, root, off, len) {
        pending_apart(pending, root, off, len, from + 1, kept)
    } else {
        pending_apart(pending, root, off, len, from + 1, kept.push(pending[from]))
    }
}

/// The cell lies in one of the objects that the roots stand for.
pub open spec fn in_roots(cell: Cell, roots: Seq<WriteRoot>) -> bool {
    exists|k: int| 0 <= k < roots.len() && cell.0 == base_behind(#[trigger] roots[k])
}

/// A call with these roots neither writes nor reads the cell.
pub open spec fn untouched(cell: Cell, writes: Option<Seq<WriteRoot>>, reads: Option<Seq<WriteRoot>>) -> bool {
    writes is Some && reads is Some && !in_roots(cell, writes->0) && !in_roots(cell, reads->0)
}

/// The pending stores that a call does not touch, from position `from` on, behind `kept`.
pub open spec fn pending_untouched(
    pending: Seq<(Cell, Inst, Inst)>,
    writes: Option<Seq<WriteRoot>>,
    reads: Option<Seq<WriteRoot>>,
    from: int,
    kept: Seq<(Cell, Inst, Inst)>,
) -> Seq<(Cell, Inst, Inst)>
    decreases pending.len() - from,
{
    if from >= pending.len() {
        kept
    } else if untouched(pending[from].0, writes, reads) {
        pending_untouched(pending, writes, reads, from + 1, kept.push(pending[from]))
    } else {
        pending_untouched(pending, writes, reads, from + 1, kept)
    }
}

/// The number of bytes that a value of type `ty` takes; zero where it does not fit.
pub open spec fn width_of(ty: Type) -> int {
    if ty.bytes() <= i64::MAX && ty.bytes() <= usize::MAX {
        ty.bytes()
    } else {
        0
    }
}

/// The number of bytes that `i` clears; the largest number where it is not constant.
pub open spec fn cleared_len(p: ProgramV, i: Inst) -> int {
    match p.op(i) {
        Op::MemZero(n) => if n < i64::MAX {
            n as int
        } else {
            i64::MAX as int
        },
        _ => i64::MAX as int,
    }
}

/// Nothing is known about memory any more.
pub open spec fn forgotten(st: ScanV) -> ScanV {
    ScanV { pending: Seq::empty(), zeros: Seq::empty(), ..st }
}

pub open spec fn after_store(p: ProgramV, st: ScanV, i: Inst) -> ScanV {
    match cell_at(p, p.arg(i, 1)) {
        None => forgotten(st),
        Some(cell) => {
            let src = p.arg(i, 0);
            let k = entry_from(st.pending, cell, 0);
            let (pending, covered) = if 0 <= k < st.pending.len() {
                (st.pending.update(k, (cell, i, src)), st.covered.push(st.pending[k].1))
            } else {
                (st.pending.push((cell, i, src)), st.covered)
            };
            let width = width_of(p.ty(src));
            let (zeros, dead) = if width > 0 {
                zeros_stored(st.zeros, cell.0, cell.1 as int, cell.1 + width, Seq::empty(), st.dead)
            } else {
                (st.zeros, st.dead)
            };
            ScanV { pending, zeros, covered, forwards: st.forwards, dead }
        },
    }
}

/// What value `v` becomes when the uses of the loads `forwards[from..]` are made uses of the stored values in
/// turn.
pub open spec fn resolved(forwards: Seq<(Inst, Inst)>, v: Inst, from: int) -> Inst
    decreases forwards.len() - from,
{
    if from >= forwards.len() {
        v
    } else {
        resolved(
            forwards,
            if forwards[from].0 == v {
                forwards[from].1
            } else {
                v
            },
            from + 1,
        )
    }
}

/// A load of a cell that a pending store wrote gets what that store stored, seen through the loads found so far.
/// Where that is the load itself nothing is known any more.
pub open spec fn after_load(p: ProgramV, st: ScanV, i: Inst) -> ScanV {
    match cell_at(p, p.arg(i, 0)) {
        None => forgotten(st),
        Some(cell) => {
            let k = entry_from(st.pending, cell, 0);
            let zeros = zeros_unread(st.zeros, cell, Seq::empty());
            if 0 <= k < st.pending.len() {
                let v = resolved(st.forwards, st.pending[k].2, 0);
                if v == i {
                    forgotten(st)
                } else {
                    ScanV { zeros, forwards: st.forwards.push((i, v)), ..st }
                }
            } else {
                ScanV { zeros, ..st }
            }
        },
    }
}

pub open spec fn after_clear(p: ProgramV, st: ScanV, i: Inst) -> ScanV {
    match cell_at(p, p.arg(i, 0)) {
        None => forgotten(st),
        Some((root, off)) => {
            let len = cleared_len(p, i);
            let apart = zeros_apart(st.zeros, root, off as int, len, Seq::empty());
            ScanV {
                pending: pending_apart(st.pending, root, off as int, len, 0, Seq::empty()),
                zeros: if len != i64::MAX {
                    apart.push(ZeroV { inst: i, root, off: off as int, len, covered: Set::empty() })
                } else {
                    apart
                },
                ..st
            }
        },
    }
}

pub open spec fn after_call(p: ProgramV, f: Function, st: ScanV, g: Function) -> ScanV {
    ScanV {
        pending: pending_untouched(
            st.pending,
            call_roots(p, g, f, true),
            call_roots(p, g, f, false),
            0,
            Seq::empty(),
        ),
        zeros: Seq::empty(),
        ..st
    }
}

/// What is known after instruction `i` of `f`.
pub open spec fn scanned(p: ProgramV, f: Function, st: ScanV, i: Inst) -> ScanV {
    match p.op(i) {
        Op::Store => after_store(p, st, i),
        Op::Load => after_load(p, st, i),
        Op::MemZero(_) => after_clear(p, st, i),
        Op::MemZeroDyn => after_clear(p, st, i),
        Op::Call(g) => after_call(p, f, st, g),
        _ => st,
    }
}

/// What is known after `insts[from..]`.
pub open spec fn scanned_all(p: ProgramV, f: Function, st: ScanV, insts: Seq<Inst>, from: int) -> ScanV
    decreases insts.len() - from,
{
    if from >= insts.len() {
        st
    } else {
        scanned_all(p, f, scanned(p, f, st, insts[from]), insts, from + 1)
    }
}

/// The findings of blocks `blocks[from..]`, each scanned with nothing known, behind those of `st`.
pub open spec fn scanned_blocks(p: ProgramV, f: Function, st: ScanV, blocks: Seq<BasicBlock>, from: int) -> ScanV
    decreases blocks.len() - from,
{
    if from >= blocks.len() {
        st
    } else {
        scanned_blocks(
            p,
            f,
            scanned_all(p, f, forgotten(st), p.block(blocks[from]).insts, 0),
            blocks,
            from + 1,
        )
    }
}

/// Instruction `i` may change the cell. What is written through an unknown address may be any cell.
pub open spec fn disturbs(p: ProgramV, f: Function, i: Inst, cell: Cell) -> bool {
    match p.op(i) {
        Op::Store => cell_at(p, p.arg(i, 1)) is None || cell_at(p, p.arg(i, 1)) == Some(cell),
        Op::Call(g) => match call_roots(p, g, f, true) {
            Some(roots) => in_roots(cell, roots),
            None => true,
        },
        Op::MemZero(_) => cell_at(p, p.arg(i, 0)) is None || clears(p, i, cell),
        Op::MemZeroDyn => cell_at(p, p.arg(i, 0)) is None || clears(p, i, cell),
        _ => false,
    }
}

/// Instruction `i` clears memory that contains the cell, as far as its address is known.
pub open spec fn clears(p: ProgramV, i: Inst, cell: Cell) -> bool {
    match cell_at(p, p.arg(i, 0)) {
        Some((root, off)) => in_bytes(cell, root, off as int, cleared_len(p, i)),
        None => false,
    }
}

/// The instruction at position `k` only stores back what a load of the same cell gave, and nothing
/// else in the function writes that cell.
pub open spec fn is_writeback(p: ProgramV, f: Function, insts: Seq<Inst>, k: int) -> bool {
    let i = insts[k];
    let cell = cell_at(p, p.arg(i, 1));
    let src = p.arg(i, 0);
    &&& p.op(i) is Store
    &&& cell is Some
    &&& p.op(src) is Load
    &&& cell_at(p, p.arg(src, 0)) == cell
    &&& forall|j: int| 0 <= j < insts.len() && j != k ==> !disturbs(p, f, #[trigger] insts[j], cell->0)
}

/// The write-backs among `insts[from..]`, behind `found`.
pub open spec fn writebacks_from(p: ProgramV, f: Function, insts: Seq<Inst>, from: int, found: Seq<Inst>) -> Seq<Inst>
    decreases insts.len() - from,
{
    if from >= insts.len() {
        found
    } else if is_writeback(p, f, insts, from) {
        writebacks_from(p, f, insts, from + 1, found.push(insts[from]))
    } else {
        writebacks_from(p, f, insts, from + 1, found)
    }
}

/// The uses of loads `forwards[from..]` made uses of the stored values.
pub open spec fn forwards_made(p: ProgramV, forwards: Seq<(Inst, Inst)>, from: int) -> ProgramV
    decreases forwards.len() - from,
{
    if from >= forwards.len() {
        p
    } else {
        forwards_made(p.replace_uses(forwards[from].0, forwards[from].1), forwards, from + 1)
    }
}

/// Those of `dead[from..]` that stand in `f` taken out.
pub open spec fn dead_removed(p: ProgramV, f: Function, dead: Seq<Inst>, from: int, changed: bool) -> (ProgramV, bool)
    decreases dead.len() - from,
{
    if from >= dead.len() {
        (p, changed)
    } else {
        match p.parent_bb(f, dead[from]) {
            Some(b) => dead_removed(p.remove(b, dead[from]), f, dead, from + 1, true),
            None => dead_removed(p, f, dead, from + 1, changed),
        }
    }
}

pub open spec fn nothing_found() -> ScanV {
    ScanV {
        pending: Seq::empty(),
        zeros: Seq::empty(),
        covered: Seq::empty(),
        forwards: Seq::empty(),
        dead: Seq::empty(),
    }
}

/// The program after stores and loads of `f` were cleaned up, and whether anything changed.
pub open spec fn stores_cleaned(p: ProgramV, f: Function) -> (ProgramV, bool) {
    let writebacks = writebacks_from(p, f, p.placed(f), 0, Seq::empty());
    let found = scanned_blocks(p, f, nothing_found(), p.func(f).blocks, 0);
    dead_removed(
        forwards_made(p, found.forwards, 0),
        f,
        writebacks + found.covered + found.dead,
        0,
        found.forwards.len() > 0,
    )
}

/// Functions `layout[from..]` cleaned up in turn, declarations left alone.
pub open spec fn all_stores_cleaned(p: ProgramV, layout: Seq<Function>, from: int, changed: bool) -> (ProgramV, bool)
    decreases layout.len() - from,
{
    if from >= layout.len() {
        (p, changed)
    } else if p.func(layout[from]).blocks.len() == 0 {
        all_stores_cleaned(p, layout, from + 1, changed)
    } else {
        let (q, here) = stores_cleaned(p, layout[from]);
        all_stores_cleaned(q, layout, from + 1, changed || here)
    }
}

fn same_cell(a: Cell, b: Cell) -> (r: bool)
    ensures
        r == (a == b),
{
    a.0 == b.0 && a.1 == b.1
}

fn pending_entry(pending: &Vec<(Cell, Inst, Inst)>, cell: Cell) -> (r: usize)
    ensures
        r == entry_from(pending@, cell, 0),
        r <= pending@.len(),
{
    let mut k: usize = 0;
    while k < pending.len()
        invariant
            k <= pending@.len(),
            entry_from(pending@, cell, 0) == entry_from(pending@, cell, k as int),
        decreases pending@.len() - k,
    {
        if same_cell(pending[k].0, cell) {
            return k;
        }
        k += 1;
    }
    k
}

fn resolve(forwards: &Vec<(Inst, Inst)>, v: Inst) -> (r: Inst)
    ensures
        r == resolved(forwards@, v, 0),
{
    let mut r = v;
    let mut k: usize = 0;
    while k < forwards.len()
        invariant
            k <= forwards@.len(),
            resolved(forwards@, v, 0) == resolved(forwards@, r, k as int),
        decreases forwards@.len() - k,
    {
        if forwards[k].0 == r {
            r = forwards[k].1;
        }
        k += 1;
    }
    r
}

fn any_root(cell: Cell, roots: &Vec<WriteRoot>) -> (r: bool)
    ensures
        r == in_roots(cell, roots@),
{
    let mut k: usize = 0;
    while k < roots.len()
        invariant
            k <= roots@.len(),
            forall|j: int| 0 <= j < k ==> cell.0 != base_behind(#[trigger] roots@[j]),
        decreases roots@.len() - k,
    {
        if cell_matches_root(&cell, &roots[k]) {
            assert(cell.0 == base_behind(roots@[k as int]));
            return true;
        }
        k += 1;
    }
    false
}

fn len_cleared(p: &Program, i: Inst) -> (r: i64)
    ensures
        r == cleared_len(p@, i),
{
    match p.op(i) {
        Op::MemZero(n) => if (n as u64) < 0x7fff_ffff_ffff_ffff {
            n as i64
        } else {
            i64::MAX
        },
        _ => i64::MAX,
    }
}

impl Scan {
    fn forget(&mut self)
        ensures
            final(self)@ == forgotten(old(self)@),
            zeros_wf(final(self).zeros@),
    {
        self.pending = Vec::new();
        self.zeros = Vec::new();
        assert(self.pending@ =~= Seq::empty());
        assert(zero_views(self.zeros@) =~= Seq::empty());
    }

    fn overwrite(&mut self, root: MemObject, lo: i128, hi: i128)
        requires
            zeros_wf(old(self).zeros@),
        ensures
            zeros_wf(final(self).zeros@),
            ({
                let (zeros, dead) = zeros_stored(
                    old(self)@.zeros,
                    root,
                    lo as int,
                    hi as int,
                    Seq::empty(),
                    old(self)@.dead,
                );
                final(self)@ == (ScanV { zeros, dead, ..old(self)@ })
            }),
    {
        let ghost start = self@;
        let mut rest: Vec<LiveMemZero> = Vec::new();
        std::mem::swap(&mut rest, &mut self.zeros);
        let mut kept: Vec<LiveMemZero> = Vec::new();
        assert(zero_views(kept@) =~= Seq::empty());
        while rest.len() > 0
            invariant
                zeros_wf(rest@),
                zeros_wf(kept@),
                self.zeros@.len() == 0,
                self.pending@ == start.pending,
                self.covered@ == start.covered,
                self.forwards@ == start.forwards,
                zeros_stored(start.zeros, root, lo as int, hi as int, Seq::empty(), start.dead) == zeros_stored(
                    zero_views(rest@),
                    root,
                    lo as int,
                    hi as int,
                    zero_views(kept@),
                    self.dead@,
                ),
            decreases rest@.len(),
        {
            let ghost before = rest@;
            let ghost kept_before = zero_views(kept@);
            assert(separated(before[0].covered@));
            let mut m = rest.remove(0);
            assert(zero_views(rest@) =~= zero_views(before).drop_first());
            assert forall|i: int| 0 <= i < rest@.len() implies separated((#[trigger] rest@[i]).covered@) by {
                assert(rest@[i] == before[i + 1]);
            }
            let off: i128 = m.off as i128;
            let end: i128 = off + m.len as i128;
            let s: i128 = if lo > off {
                lo
            } else {
                off
            };
            let e: i128 = if hi < end {
                hi
            } else {
                end
            };
            let ghost m0 = m@;
            if m.root != root || s >= e {
                kept.push(m);
                assert(zero_views(kept@) =~= kept_before.push(m0));
            } else {
                let done = record_coverage(&mut m, s, e);
                assert(m@ == m0.with(s as int, e as int));
                if done {
                    self.dead.push(m.inst);
                } else {
                    let ghost m1 = m@;
                    kept.push(m);
                    assert(zero_views(kept@) =~= kept_before.push(m1));
                }
            }
        }
        self.zeros = kept;
    }

    fn unread(&mut self, cell: Cell)
        requires
            zeros_wf(old(self).zeros@),
        ensures
            zeros_wf(final(self).zeros@),
            final(self)@ == (ScanV { zeros: zeros_unread(old(self)@.zeros, cell, Seq::empty()), ..old(self)@ }),
    {
        let ghost start = self@;
        let mut rest: Vec<LiveMemZero> = Vec::new();
        std::mem::swap(&mut rest, &mut self.zeros);
        let mut kept: Vec<LiveMemZero> = Vec::new();
        assert(zero_views(kept@) =~= Seq::empty());
        while rest.len() > 0
            invariant
                zeros_wf(rest@),
                zeros_wf(kept@),
                self.pending@ == start.pending,
                self.covered@ == start.covered,
                self.forwards@ == start.forwards,
                self.dead@ == start.dead,
                zeros_unread(start.zeros, cell, Seq::empty()) == zeros_unread(
                    zero_views(rest@),
                    cell,
                    zero_views(kept@),
                ),
            decreases rest@.len(),
        {
            let ghost before = rest@;
            let ghost kept_before = zero_views(kept@);
            assert(separated(before[0].covered@));
            let m = rest.remove(0);
            assert(zero_views(rest@) =~= zero_views(before).drop_first());
            assert forall|i: int| 0 <= i < rest@.len() implies separated((#[trigger] rest@[i]).covered@) by {
                assert(rest@[i] == before[i + 1]);
            }
            let ghost m0 = m@;
            if !cell_in_range(&cell, m.root, m.off, m.len) {
                kept.push(m);
                assert(zero_views(kept@) =~= kept_before.push(m0));
            }
        }
        self.zeros = kept;
    }

    fn apart(&mut self, root: MemObject, off: i64, len: i64)
        requires
            zeros_wf(old(self).zeros@),
        ensures
            zeros_wf(final(self).zeros@),
            final(self)@ == (ScanV {
                pending: pending_apart(old(self)@.pending, root, off as int, len as int, 0, Seq::empty()),
                zeros: zeros_apart(old(self)@.zeros, root, off as int, len as int, Seq::empty()),
                ..old(self)@
            }),
    {
        let ghost start = self@;
        let mut rest: Vec<LiveMemZero> = Vec::new();
        std::mem::swap(&mut rest, &mut self.zeros);
        let mut kept: Vec<LiveMemZero> = Vec::new();
        assert(zero_views(kept@) =~= Seq::empty());
        while rest.len() > 0
            invariant
                zeros_wf(rest@),
                zeros_wf(kept@),
                self.pending@ == start.pending,
                self.covered@ == start.covered,
                self.forwards@ == start.forwards,
                self.dead@ == start.dead,
                zeros_apart(start.zeros, root, off as int, len as int, Seq::empty()) == zeros_apart(
                    zero_views(rest@),
                    root,
                    off as int,
                    len as int,
                    zero_views(kept@),
                ),
            decreases rest@.len(),
        {
            let ghost before = rest@;
            let ghost kept_before = zero_views(kept@);
            assert(separated(before[0].covered@));
            let m = rest.remove(0);
            assert(zero_views(rest@) =~= zero_views(before).drop_first());
            assert forall|i: int| 0 <= i < rest@.len() implies separated((#[trigger] rest@[i]).covered@) by {
                assert(rest@[i] == before[i + 1]);
            }
            let ghost m0 = m@;
            let lo: i128 = off as i128;
            let hi: i128 = lo + len as i128;
            let mlo: i128 = m.off as i128;
            let mhi: i128 = mlo + m.len as i128;
            if m.root != root || mlo >= hi || lo >= mhi {
                kept.push(m);
                assert(zero_views(kept@) =~= kept_before.push(m0));
            }
        }
        self.zeros = kept;
        let mut left: Vec<(Cell, Inst, Inst)> = Vec::new();
        assert(left@ =~= Seq::empty());
        let mut k: usize = 0;
        while k < self.pending.len()
            invariant
                k <= self.pending@.len(),
                self.pending@ == start.pending,
                pending_apart(start.pending, root, off as int, len as int, 0, Seq::empty()) == pending_apart(
                    start.pending,
                    root,
                    off as int,
                    len as int,
                    k as int,
                    left@,
                ),
            decreases self.pending@.len() - k,
        {
            if !cell_in_range(&self.pending[k].0, root, off, len) {
                left.push(self.pending[k]);
            }
            k += 1;
        }
        self.pending = left;
    }

    /// Takes note of instruction `i` of `f`.
    fn step(&mut self, p: &Program, f: Function, i: Inst)
        requires
            zeros_wf(old(self).zeros@),
        ensures
            zeros_wf(final(self).zeros@),
            final(self)@ == scanned(p@, f, old(self)@, i),
    {
        match p.op(i) {
            Op::Store => {
                self.store(p, i);
            },
            Op::Load => {
                let ghost start = self@;
                match resolve_cell(p, p.arg(i, 0)) {
                    None => {
                        self.forget();
                    },
                    Some(cell) => {
                        let k = pending_entry(&self.pending, cell);
                        if k < self.pending.len() {
                            let v = resolve(&self.forwards, self.pending[k].2);
                            if v == i {
                                self.forget();
                                return;
                            }
                            self.forwards.push((i, v));
                        }
                        self.unread(cell);
                        assert(self@ =~= after_load(p@, start, i));
                    },
                }
            },
            Op::MemZero(_) => {
                self.clear(p, i);
            },
            Op::MemZeroDyn => {
                self.clear(p, i);
            },
            Op::Call(g) => {
                self.call(p, f, g);
            },
            _ => {},
        }
    }

    fn store(&mut self, p: &Program, i: Inst)
        requires
            zeros_wf(old(self).zeros@),
        ensures
            zeros_wf(final(self).zeros@),
            final(self)@ == after_store(p@, old(self)@, i),
    {
        let ghost start = self@;
        match resolve_cell(p, p.arg(i, 1)) {
            None => {
                self.forget();
            },
            Some(cell) => {
                let src = p.arg(i, 0);
                let k = pending_entry(&self.pending, cell);
                if k < self.pending.len() {
                    self.covered.push(self.pending[k].1);
                    self.pending.set(k, (cell, i, src));
                } else {
                    self.pending.push((cell, i, src));
                }
                let width: i64 = match p.ty(src).size() {
                    Some(n) => if (n as u64) <= 0x7fff_ffff_ffff_ffff {
                        n as i64
                    } else {
                        0
                    },
                    None => 0,
                };
                assert(width == width_of(p@.ty(src)));
                if width > 0 {
                    self.overwrite(cell.0, cell.1 as i128, cell.1 as i128 + width as i128);
                }
                assert(self@ =~= after_store(p@, start, i));
            },
        }
    }

    fn clear(&mut self, p: &Program, i: Inst)
        requires
            zeros_wf(old(self).zeros@),
        ensures
            zeros_wf(final(self).zeros@),
            final(self)@ == after_clear(p@, old(self)@, i),
    {
        let ghost start = self@;
        match resolve_cell(p, p.arg(i, 0)) {
            None => {
                self.forget();
            },
            Some((root, off)) => {
                let len = len_cleared(p, i);
                self.apart(root, off, len);
                if len != i64::MAX {
                    let ghost before = self.zeros@;
                    let m = LiveMemZero { inst: i, root, off, len, covered: Vec::new() };
                    assert(m@.covered =~= Set::empty());
                    let ghost m0 = m@;
                    self.zeros.push(m);
                    assert(zero_views(self.zeros@) =~= zero_views(before).push(m0));
                }
                assert(self@ =~= after_clear(p@, start, i));
            },
        }
    }

    fn call(&mut self, p: &Program, f: Function, g: Function)
        ensures
            zeros_wf(final(self).zeros@),
            final(self)@ == after_call(p@, f, old(self)@, g),
    {
        let ghost start = self@;
        let writes = call_write_roots(p, g, f);
        let reads = call_read_roots(p, g, f);
        let ghost wv = call_roots(p@, g, f, true);
        let ghost rv = call_roots(p@, g, f, false);
        self.zeros = Vec::new();
        assert(zero_views(self.zeros@) =~= Seq::empty());
        let mut left: Vec<(Cell, Inst, Inst)> = Vec::new();
        assert(left@ =~= Seq::empty());
        let mut k: usize = 0;
        while k < self.pending.len()
            invariant
                k <= self.pending@.len(),
                self.pending@ == start.pending,
                match writes {
                    Some(v) => wv == Some(v@),
                    None => wv is None,
                },
                match reads {
                    Some(v) => rv == Some(v@),
                    None => rv is None,
                },
                pending_untouched(start.pending, wv, rv, 0, Seq::empty()) == pending_untouched(
                    start.pending,
                    wv,
                    rv,
                    k as int,
                    left@,
                ),
            decreases self.pending@.len() - k,
        {
            let cell = self.pending[k].0;
            let keep = match (&writes, &reads) {
                (Some(w), Some(r)) => !any_root(cell, w) && !any_root(cell, r),
                _ => false,
            };
            if keep {
                left.push(self.pending[k]);
            }
            k += 1;
        }
        self.pending = left;
    }
}

fn may_disturb(p: &Program, f: Function, i: Inst, cell: Cell) -> (r: bool)
    ensures
        r == disturbs(p@, f, i, cell),
{
    match p.op(i) {
        Op::Store => match resolve_cell(p, p.arg(i, 1)) {
            Some(c) => same_cell(c, cell),
            None => true,
        },
        Op::Call(g) => match call_write_roots(p, g, f) {
            Some(roots) => any_root(cell, &roots),
            None => true,
        },
        Op::MemZero(_) | Op::MemZeroDyn => match resolve_cell(p, p.arg(i, 0)) {
            Some((root, off)) => {
                let len = len_cleared(p, i);
                cell_in_range(&cell, root, off, len)
            },
            None => true,
        },
        _ => false,
    }
}

fn writes_back(p: &Program, f: Function, insts: &Vec<Inst>, k: usize) -> (r: bool)
    requires
        k < insts@.len(),
    ensures
        r == is_writeback(p@, f, insts@, k as int),
{
    let i = insts[k];
    match p.op(i) {
        Op::Store => {},
        _ => {
            return false;
        },
    }
    let cell = match resolve_cell(p, p.arg(i, 1)) {
        Some(c) => c,
        None => {
            return false;
        },
    };
    let src = p.arg(i, 0);
    match p.op(src) {
        Op::Load => {},
        _ => {
            return false;
        },
    }
    match resolve_cell(p, p.arg(src, 0)) {
        Some(c) => {
            if !same_cell(c, cell) {
                return false;
            }
        },
        None => {
            return false;
        },
    }
    let mut quiet = true;
    let mut j: usize = 0;
    while j < insts.len() && quiet
        invariant
            j <= insts@.len(),
            quiet ==> forall|m: int| 0 <= m < j && m != k ==> !disturbs(p@, f, #[trigger] insts@[m], cell),
            !quiet ==> exists|m: int| 0 <= m < insts@.len() && m != k && disturbs(p@, f, #[trigger] insts@[m], cell),
        decreases insts@.len() - j, quiet as int,
    {
        if j != k && may_disturb(p, f, insts[j], cell) {
            assert(disturbs(p@, f, insts@[j as int], cell));
            quiet = false;
        }
        j += 1;
    }
    quiet
}

/// Cleans up the stores and loads of `f`. True when something changed.
pub fn run_on_func(data: &mut Program, f: Function) -> (changed: bool)
    ensures
        (final(data)@, changed) == stores_cleaned(old(data)@, f),
{
    let insts = data.placed_insts(f);
    let ghost p = data@;
    let mut removals: Vec<Inst> = Vec::new();
    assert(removals@ =~= Seq::empty());
    let mut k: usize = 0;
    while k < insts.len()
        invariant
            k <= insts@.len(),
            data@ == p,
            writebacks_from(p, f, insts@, 0, Seq::empty()) == writebacks_from(p, f, insts@, k as int, removals@),
        decreases insts@.len() - k,
    {
        if writes_back(data, f, &insts, k) {
            removals.push(insts[k]);
        }
        k += 1;
    }
    let blocks = data.basicblocks(f);
    let mut scan = Scan {
        pending: Vec::new(),
        zeros: Vec::new(),
        covered: Vec::new(),
        forwards: Vec::new(),
        dead: Vec::new(),
    };
    assert(scan@ =~= nothing_found());
    let mut k: usize = 0;
    while k < blocks.len()
        invariant
            k <= blocks@.len(),
            data@ == p,
            zeros_wf(scan.zeros@),
            scanned_blocks(p, f, nothing_found(), blocks@, 0) == scanned_blocks(p, f, scan@, blocks@, k as int),
        decreases blocks@.len() - k,
    {
        scan.forget();
        let here = data.block_insts(blocks[k]);
        let ghost start = scan@;
        let mut j: usize = 0;
        while j < here.len()
            invariant
                j <= here@.len(),
                data@ == p,
                zeros_wf(scan.zeros@),
                scanned_all(p, f, start, here@, 0) == scanned_all(p, f, scan@, here@, j as int),
            decreases here@.len() - j,
        {
            scan.step(data, f, here[j]);
            j += 1;
        }
        k += 1;
    }
    let ghost found = scan@;
    let mut changed = scan.forwards.len() > 0;
    let mut k: usize = 0;
    while k < scan.forwards.len()
        invariant
            k <= scan.forwards@.len(),
            forwards_made(p, scan.forwards@, 0) == forwards_made(data@, scan.forwards@, k as int),
        decreases scan.forwards@.len() - k,
    {
        data.replace_uses(scan.forwards[k].0, scan.forwards[k].1);
        k += 1;
    }
    let removals = crate::ir::joined(&removals, &scan.covered);
    let removals = crate::ir::joined(&removals, &scan.dead);
    let ghost q = data@;
    let mut k: usize = 0;
    while k < removals.len()
        invariant
            k <= removals@.len(),
            dead_removed(q, f, removals@, 0, found.forwards.len() > 0) == dead_removed(
                data@,
                f,
                removals@,
                k as int,
                changed,
            ),
        decreases removals@.len() - k,
    {
        if let Some(b) = data.parent_bb(f, removals[k]) {
            data.remove_layout_inst(b, removals[k]);
            changed = true;
        }
        k += 1;
    }
    changed
}

impl DSE {
    /// Cleans up every defined function. True when something changed.
    pub fn run(&mut self, program: &mut Program) -> (changed: bool)
        ensures
            (final(program)@, changed) == all_stores_cleaned(old(program)@, old(program)@.layout, 0, false),
    {
        let layout = program.function_layout();
        let mut changed = false;
        let mut k: usize = 0;
        while k < layout.len()
            invariant
                k <= layout@.len(),
                layout@ == old(program)@.layout,
                all_stores_cleaned(old(program)@, layout@, 0, false) == all_stores_cleaned(
                    program@,
                    layout@,
                    k as int,
                    changed,
                ),
            decreases layout@.len() - k,
        {
            if !program.is_decl(layout[k]) {
                let here = run_on_func(program, layout[k]);
                changed = changed || here;
            }
            k += 1;
        }
        changed
    }
}

/// Memory contents by cell.
pub type Memory = spec_fn(Cell) -> int;

/// Running instruction `i` of `f` may take memory from `m` to `w`, where values are as `env` says.
///
/// A store through an unresolved address and a call with unknown effects may change anything.
pub open spec fn may_step(p: ProgramV, f: Function, env: spec_fn(Inst) -> int, i: Inst, m: Memory, w: Memory) -> bool {
    match p.op(i) {
        Op::Store => match cell_at(p, p.arg(i, 1)) {
            Some(cell) => forall|c: Cell| #[trigger] w(c) == (if c == cell {
                env(p.arg(i, 0))
            } else {
                m(c)
            }),
            None => true,
        },
        Op::Load => {
            &&& forall|c: Cell| #[trigger] w(c) == m(c)
            &&& cell_at(p, p.arg(i, 0)) is Some ==> env(i) == m(cell_at(p, p.arg(i, 0))->0)
        },
        Op::MemZero(_) => cell_at(p, p.arg(i, 0)) is Some ==> forall|c: Cell|
            !clears(p, i, c) ==> #[trigger] w(c) == m(c),
        Op::MemZeroDyn => cell_at(p, p.arg(i, 0)) is Some ==> forall|c: Cell|
            !clears(p, i, c) ==> #[trigger] w(c) == m(c),
        Op::Call(g) => match call_roots(p, g, f, true) {
            Some(roots) => forall|c: Cell| !in_roots(c, roots) ==> #[trigger] w(c) == m(c),
            None => true,
        },
        _ => forall|c: Cell| #[trigger] w(c) == m(c),
    }
}

/// Every pending store's cell still holds the stored value.
pub open spec fn pending_holds(st: ScanV, env: spec_fn(Inst) -> int, m: Memory) -> bool {
    forall|k: int| 0 <= k < st.pending.len() ==> m((#[trigger] st.pending[k]).0) == env(st.pending[k].2)
}

/// Every load found so far has the value that is forwarded to its users.
pub open spec fn forwards_hold(st: ScanV, env: spec_fn(Inst) -> int) -> bool {
    forall|k: int| 0 <= k < st.forwards.len() ==> env((#[trigger] st.forwards[k]).0) == env(st.forwards[k].1)
}

proof fn lemma_entry(pending: Seq<(Cell, Inst, Inst)>, cell: Cell, from: int)
    requires
        0 <= from <= pending.len(),
    ensures
        from <= entry_from(pending, cell, from) <= pending.len(),
        entry_from(pending, cell, from) < pending.len() ==> pending[entry_from(pending, cell, from)].0 == cell,
        forall|k: int| from <= k < entry_from(pending, cell, from) ==> (#[trigger] pending[k]).0 != cell,
    decreases pending.len() - from,
{
    if from < pending.len() && pending[from].0 != cell {
        lemma_entry(pending, cell, from + 1);
    }
}

/// No two pending stores are to the same cell.
pub open spec fn one_per_cell(pending: Seq<(Cell, Inst, Inst)>) -> bool {
    forall|i: int, j: int| 0 <= i < j < pending.len() ==> (#[trigger] pending[i]).0 != (#[trigger] pending[j]).0
}

proof fn lemma_untouched_sub(
    pending: Seq<(Cell, Inst, Inst)>,
    writes: Option<Seq<WriteRoot>>,
    reads: Option<Seq<WriteRoot>>,
    from: int,
    kept: Seq<(Cell, Inst, Inst)>,
)
    requires
        0 <= from <= pending.len(),
        one_per_cell(pending),
        one_per_cell(kept),
        forall|k: int| 0 <= k < kept.len() ==> untouched((#[trigger] kept[k]).0, writes, reads),
        forall|k: int| 0 <= k < kept.len() ==> exists|j: int| 0 <= j < from && pending[j] == #[trigger] kept[k],
    ensures
        ({
            let r = pending_untouched(pending, writes, reads, from, kept);
            &&& one_per_cell(r)
            &&& forall|k: int| 0 <= k < r.len() ==> untouched((#[trigger] r[k]).0, writes, reads)
            &&& forall|k: int| 0 <= k < r.len() ==> pending.contains(#[trigger] r[k])
        }),
    decreases pending.len() - from,
{
    if from < pending.len() {
        if untouched(pending[from].0, writes, reads) {
            let next = kept.push(pending[from]);
            assert forall|i: int, j: int| 0 <= i < j < next.len() implies (#[trigger] next[i]).0 != (#[trigger] next[j]).0 by {
                if j == kept.len() {
                    assert(next[i] == kept[i]);
                    let o = choose|o: int| 0 <= o < from && pending[o] == kept[i];
                    assert(pending[o].0 != pending[from].0);
                }
            }
            assert forall|k: int| 0 <= k < next.len() implies exists|j: int|
                0 <= j < from + 1 && pending[j] == #[trigger] next[k] by {
                if k < kept.len() {
                    assert(next[k] == kept[k]);
                    let o = choose|o: int| 0 <= o < from && pending[o] == kept[k];
                    assert(pending[o] == next[k]);
                } else {
                    assert(pending[from] == next[k]);
                }
            }
            lemma_untouched_sub(pending, writes, reads, from + 1, next);
        } else {
            lemma_untouched_sub(pending, writes, reads, from + 1, kept);
        }
    } else {
        assert forall|k: int| 0 <= k < kept.len() implies pending.contains(#[trigger] kept[k]) by {
            let o = choose|o: int| 0 <= o < from && pending[o] == kept[k];
            assert(pending[o] == kept[k]);
        }
    }
}

proof fn lemma_apart_sub(
    pending: Seq<(Cell, Inst, Inst)>,
    root: MemObject,
    off: int,
    len: int,
    from: int,
    kept: Seq<(Cell, Inst, Inst)>,
)
    requires
        0 <= from <= pending.len(),
        one_per_cell(pending),
        one_per_cell(kept),
        forall|k: int| 0 <= k < kept.len() ==> !in_bytes((#[trigger] kept[k]).0, root, off, len),
        forall|k: int| 0 <= k < kept.len() ==> exists|j: int| 0 <= j < from && pending[j] == #[trigger] kept[k],
    ensures
        ({
            let r = pending_apart(pending, root, off, len, from, kept);
            &&& one_per_cell(r)
            &&& forall|k: int| 0 <= k < r.len() ==> !in_bytes((#[trigger] r[k]).0, root, off, len)
            &&& forall|k: int| 0 <= k < r.len() ==> pending.contains(#[trigger] r[k])
        }),
    decreases pending.len() - from,
{
    if from < pending.len() {
        if !in_bytes(pending[from].0, root, off, len) {
            let next = kept.push(pending[from]);
            assert forall|i: int, j: int| 0 <= i < j < next.len() implies (#[trigger] next[i]).0 != (#[trigger] next[j]).0 by {
                if j == kept.len() {
                    assert(next[i] == kept[i]);
                    let o = choose|o: int| 0 <= o < from && pending[o] == kept[i];
                    assert(pending[o].0 != pending[from].0);
                }
            }
            assert forall|k: int| 0 <= k < next.len() implies exists|j: int|
                0 <= j < from + 1 && pending[j] == #[trigger] next[k] by {
                if k < kept.len() {
                    assert(next[k] == kept[k]);
                    let o = choose|o: int| 0 <= o < from && pending[o] == kept[k];
                    assert(pending[o] == next[k]);
                } else {
                    assert(pending[from] == next[k]);
                }
            }
            lemma_apart_sub(pending, root, off, len, from + 1, next);
        } else {
            lemma_apart_sub(pending, root, off, len, from + 1, kept);
        }
    } else {
        assert forall|k: int| 0 <= k < kept.len() implies pending.contains(#[trigger] kept[k]) by {
            let o = choose|o: int| 0 <= o < from && pending[o] == kept[k];
            assert(pending[o] == kept[k]);
        }
    }
}

proof fn lemma_resolved_value(forwards: Seq<(Inst, Inst)>, env: spec_fn(Inst) -> int, v: Inst, from: int)
    requires
        0 <= from,
        forall|k: int| 0 <= k < forwards.len() ==> env((#[trigger] forwards[k]).0) == env(forwards[k].1),
    ensures
        env(resolved(forwards, v, from)) == env(v),
    decreases forwards.len() - from,
{
    if from < forwards.len() {
        let w = if forwards[from].0 == v {
            forwards[from].1
        } else {
            v
        };
        lemma_resolved_value(forwards, env, w, from + 1);
    }
}

/// Scanning is sound: as long as the memory behaves, every pending store's cell holds its value
/// after each instruction, and every load whose uses are forwarded has the forwarded value.
pub proof fn scanning_is_sound(
    p: ProgramV,
    f: Function,
    env: spec_fn(Inst) -> int,
    st: ScanV,
    i: Inst,
    m: Memory,
    w: Memory,
)
    requires
        pending_holds(st, env, m),
        forwards_hold(st, env),
        one_per_cell(st.pending),
        may_step(p, f, env, i, m, w),
    ensures
        pending_holds(scanned(p, f, st, i), env, w),
        forwards_hold(scanned(p, f, st, i), env),
        one_per_cell(scanned(p, f, st, i).pending),
{
    let next = scanned(p, f, st, i);
    match p.op(i) {
        Op::Store => {
            if let Some(cell) = cell_at(p, p.arg(i, 1)) {
                let k = entry_from(st.pending, cell, 0);
                lemma_entry(st.pending, cell, 0);
                assert forall|a: int, b: int| 0 <= a < b < next.pending.len() implies (#[trigger] next.pending[a]).0 != (
                #[trigger] next.pending[b]).0 by {
                    if a < st.pending.len() && b < st.pending.len() {
                        assert(st.pending[a].0 != st.pending[b].0);
                    }
                }
                assert forall|a: int| 0 <= a < next.pending.len() implies w((#[trigger] next.pending[a]).0) == env(
                    next.pending[a].2,
                ) by {
                    if k < st.pending.len() {
                        if a != k {
                            assert(next.pending[a] == st.pending[a]);
                            if a < k {
                                assert(st.pending[a].0 != st.pending[k].0);
                            } else {
                                assert(st.pending[k].0 != st.pending[a].0);
                            }
                        }
                    } else if a < st.pending.len() {
                        assert(next.pending[a] == st.pending[a]);
                    }
                }
            }
        },
        Op::Load => {
            if let Some(cell) = cell_at(p, p.arg(i, 0)) {
                let k = entry_from(st.pending, cell, 0);
                lemma_entry(st.pending, cell, 0);
                if k < st.pending.len() {
                    assert(m(st.pending[k].0) == env(st.pending[k].2));
                    lemma_resolved_value(st.forwards, env, st.pending[k].2, 0);
                }
            }
        },
        Op::MemZero(_) => {
            lemma_clear_sound(p, env, st, i, m, w);
        },
        Op::MemZeroDyn => {
            lemma_clear_sound(p, env, st, i, m, w);
        },
        Op::Call(g) => {
            let writes = call_roots(p, g, f, true);
            let reads = call_roots(p, g, f, false);
            lemma_untouched_sub(st.pending, writes, reads, 0, Seq::empty());
            assert forall|a: int| 0 <= a < next.pending.len() implies w((#[trigger] next.pending[a]).0) == env(
                next.pending[a].2,
            ) by {
                assert(untouched(next.pending[a].0, writes, reads));
                assert(st.pending.contains(next.pending[a]));
                let o = choose|o: int| 0 <= o < st.pending.len() && st.pending[o] == next.pending[a];
                assert(m(st.pending[o].0) == env(st.pending[o].2));
            }
        },
        _ => {
            assert forall|a: int| 0 <= a < next.pending.len() implies w((#[trigger] next.pending[a]).0) == env(
                next.pending[a].2,
            ) by {}
        },
    }
}

proof fn lemma_clear_sound(p: ProgramV, env: spec_fn(Inst) -> int, st: ScanV, i: Inst, m: Memory, w: Memory)
    requires
        pending_holds(st, env, m),
        forwards_hold(st, env),
        one_per_cell(st.pending),
        cell_at(p, p.arg(i, 0)) is Some ==> forall|c: Cell| !clears(p, i, c) ==> #[trigger] w(c) == m(c),
    ensures
        pending_holds(after_clear(p, st, i), env, w),
        forwards_hold(after_clear(p, st, i), env),
        one_per_cell(after_clear(p, st, i).pending),
{
    let next = after_clear(p, st, i);
    if let Some((root, off)) = cell_at(p, p.arg(i, 0)) {
        let len = cleared_len(p, i);
        lemma_apart_sub(st.pending, root, off as int, len, 0, Seq::empty());
        assert forall|a: int| 0 <= a < next.pending.len() implies w((#[trigger] next.pending[a]).0) == env(
            next.pending[a].2,
        ) by {
            assert(!in_bytes(next.pending[a].0, root, off as int, len));
            assert(!clears(p, i, next.pending[a].0));
            assert(st.pending.contains(next.pending[a]));
            let o = choose|o: int| 0 <= o < st.pending.len() && st.pending[o] == next.pending[a];
            assert(m(st.pending[o].0) == env(st.pending[o].2));
        }
    }
}

} // verus!
