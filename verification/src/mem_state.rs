//! What constant propagation knows about memory.

use vstd::prelude::*;

use crate::effects::{call_roots, call_write_roots, WriteRoot};
use crate::ipsccp::wide_end;
use crate::ir::{copy_vec, BasicBlock, Function, Inst, Op, ProgramV};
use crate::lattice::{joined_from, merge_zero_interval, CellKey, Lattice, RootKey};
use crate::memory::{base_of, object_of, MemObject};
use crate::program::Program;
use crate::ways::{
    cleared_maybe, first_maybe, may_be_first, may_have_cleared, may_have_stored, stored_maybe,
};
use crate::program_order::{init_reaches, place, relation, Node, OrderInfo};

verus! {

/// Memory as a value: the value each store last put into its cell, the byte ranges that are zero, which
/// instructions made which bytes zero, the objects about which nothing can be said, whether nothing can be said
/// of any, and the loads from each object.
#[verifier::ext_equal]
pub struct MemV {
    pub writers: Seq<(CellKey, Node, Lattice)>,
    pub zero: Seq<(RootKey, i64, i64)>,
    pub clears: Seq<(RootKey, i64, i64, Node)>,
    pub cleared: Seq<RootKey>,
    pub lost: bool,
    pub loaders: Seq<(RootKey, Node)>,
}

pub struct MemState {
    pub writers: Vec<(CellKey, Node, Lattice)>,
    pub zero: Vec<(RootKey, i64, i64)>,
    pub clears: Vec<(RootKey, i64, i64, Node)>,
    pub cleared: Vec<RootKey>,
    pub lost: bool,
    pub loaders: Vec<(RootKey, Node)>,
}

impl View for MemState {
    type V = MemV;

    open spec fn view(&self) -> MemV {
        MemV {
            writers: self.writers@,
            zero: self.zero@,
            clears: self.clears@,
            cleared: self.cleared@,
            lost: self.lost,
            loaders: self.loaders@,
        }
    }
}

/// The store stands in the load's block, at or behind the load.
pub open spec fn is_behind(p: ProgramV, w: Node, load: Node) -> bool {
    match (p.parent_bb(w.func, w.inst), p.parent_bb(load.func, load.inst)) {
        (Some(sb), Some(lb)) => w.func == load.func && sb == lb && place(p, sb, w.inst) >= place(p, lb, load.inst),
        _ => false,
    }
}

/// The meet of what `writers[from..]` put into `key` that the load may see, and the blocks of the
/// stores on the way to it, added to `folded` and `prior`.
pub open spec fn fold_from(
    p: ProgramV,
    key: CellKey,
    load: Node,
    writers: Seq<(CellKey, Node, Lattice)>,
    from: int,
    folded: Lattice,
    prior: Seq<(Function, BasicBlock)>,
) -> (Lattice, Seq<(Function, BasicBlock)>)
    decreases writers.len() - from,
{
    if from >= writers.len() {
        (folded, prior)
    } else {
        let (k, w, v) = writers[from];
        if k != key || (relation(p, w, load) == 0 && !may_have_stored(p, key, w, load)) {
            fold_from(p, key, load, writers, from + 1, folded, prior)
        } else {
            let next = match p.parent_bb(w.func, w.inst) {
                Some(b) => if relation(p, w, load) == 0 || is_behind(p, w, load) {
                    prior
                } else {
                    prior.push((w.func, b))
                },
                None => prior,
            };
            fold_from(p, key, load, writers, from + 1, folded.meet(v), next)
        }
    }
}

/// The cell lies in a range that is zero.
pub open spec fn in_zero(zero: Seq<(RootKey, i64, i64)>, key: CellKey) -> bool {
    exists|k: int|
        0 <= k < zero.len() && (#[trigger] zero[k]).0 == key.object() && zero[k].1 <= key.at() < zero[k].2
}

/// The global cell starts as zero.
pub open spec fn starts_as_zero(p: ProgramV, key: CellKey) -> bool {
    match key {
        CellKey::Global(g, off) => p.op(g) is GlobalAlloc && p.op(p.arg(g, 0)) is ZeroInit && 0 <= off < end_of(
            0,
            p.ty(g).pointee().bytes(),
        ),
        CellKey::Local(_, _, _) => false,
    }
}

/// One of the instructions that made the cell zero may be the last before the load that wrote to it.
pub open spec fn is_cleared(p: ProgramV, clears: Seq<(RootKey, i64, i64, Node)>, key: CellKey, load: Node) -> bool {
    exists|k: int|
        0 <= k < clears.len() && (#[trigger] clears[k]).0 == key.object() && clears[k].1 <= key.at() < clears[k].2
            && may_have_cleared(p, key, clears[k].3, load)
}

/// What the load gets from cell `key`.
///
/// A store counts where it stands before the load or may have been run before it. Where some way to the load runs no
/// store, the load may get what was there before: zero, where the cell starts as zero or was made zero, and anything,
/// where it is a global that starts otherwise. A local that was not written has no value.
pub open spec fn value_read(p: ProgramV, m: MemV, key: CellKey, load: Node) -> Lattice {
    if m.lost || m.cleared.contains(key.object()) {
        Lattice::Bottom
    } else {
        let (folded, prior) = fold_from(p, key, load, m.writers, 0, Lattice::Top, Seq::empty());
        let open = init_reaches(p, load, prior);
        let first = may_be_first(p, key, load);
        let v = if key is Global && !starts_as_zero(p, key) && (open || first) {
            Lattice::Bottom
        } else if (open && in_zero(m.zero, key)) || first || is_cleared(p, m.clears, key, load) {
            folded.meet(Lattice::Constant(0))
        } else {
            folded
        };
        if v == Lattice::Top {
            Lattice::Bottom
        } else {
            v
        }
    }
}

/// The entry of store `w` to `key` at or after position `from`.
pub open spec fn writer_at(writers: Seq<(CellKey, Node, Lattice)>, key: CellKey, w: Node, from: int) -> int
    decreases writers.len() - from,
{
    if from >= writers.len() {
        writers.len() as int
    } else if writers[from].0 == key && writers[from].1 == w {
        from
    } else {
        writer_at(writers, key, w, from + 1)
    }
}

pub open spec fn with_root(roots: Seq<RootKey>, root: RootKey) -> Seq<RootKey> {
    if roots.contains(root) {
        roots
    } else {
        roots.push(root)
    }
}

/// Memory after store `w` put `value` into `key`, and whether what the store puts there changed.
pub open spec fn written(m: MemV, key: CellKey, w: Node, value: Lattice) -> (MemV, bool) {
    let v = if value == Lattice::Top {
        Lattice::Bottom
    } else {
        value
    };
    let k = writer_at(m.writers, key, w, 0);
    let writers = if 0 <= k < m.writers.len() {
        m.writers.update(k, (key, w, v))
    } else {
        m.writers.push((key, w, v))
    };
    (
        MemV { writers, ..m },
        !(0 <= k < m.writers.len() && m.writers[k].2 == v),
    )
}

/// Those of `zero[from..]` in other objects than `root`, behind `found`.
pub open spec fn zero_elsewhere(
    zero: Seq<(RootKey, i64, i64)>,
    root: RootKey,
    from: int,
    found: Seq<(RootKey, i64, i64)>,
) -> Seq<(RootKey, i64, i64)>
    decreases zero.len() - from,
{
    if from >= zero.len() {
        found
    } else if zero[from].0 == root {
        zero_elsewhere(zero, root, from + 1, found)
    } else {
        zero_elsewhere(zero, root, from + 1, found.push(zero[from]))
    }
}

/// Memory after nothing can be said of `root` any more, and whether that is new.
pub open spec fn root_cleared(m: MemV, root: RootKey) -> (MemV, bool) {
    (MemV { cleared: with_root(m.cleared, root), ..m }, !m.cleared.contains(root))
}

/// The zero ranges of `root` among `zero[from..]`, behind `found`.
pub open spec fn ranges_of(zero: Seq<(RootKey, i64, i64)>, root: RootKey, from: int, found: Seq<(i64, i64)>) -> Seq<
    (i64, i64),
>
    decreases zero.len() - from,
{
    if from >= zero.len() {
        found
    } else if zero[from].0 == root {
        ranges_of(zero, root, from + 1, found.push((zero[from].1, zero[from].2)))
    } else {
        ranges_of(zero, root, from + 1, found)
    }
}

/// `ranges[from..]` as zero ranges of `root`, behind `found`.
pub open spec fn as_zero(ranges: Seq<(i64, i64)>, root: RootKey, from: int, found: Seq<(RootKey, i64, i64)>) -> Seq<
    (RootKey, i64, i64),
>
    decreases ranges.len() - from,
{
    if from >= ranges.len() {
        found
    } else {
        as_zero(ranges, root, from + 1, found.push((root, ranges[from].0, ranges[from].1)))
    }
}

/// The end of `len` bytes at `off`, the largest offset where it would lie beyond.
pub open spec fn end_of(off: i64, len: int) -> i64 {
    if off + len <= i64::MAX {
        (off + len) as i64
    } else {
        i64::MAX
    }
}

/// Memory after the bytes of `root` from `from` to `to` became zero, and whether its zero ranges changed.
pub open spec fn zeroed(m: MemV, root: RootKey, from: i64, to: i64) -> (MemV, bool) {
    let before = ranges_of(m.zero, root, 0, Seq::empty());
    let ranges = joined_from(before, 0, from, to);
    (
        MemV {
            zero: as_zero(ranges, root, 0, zero_elsewhere(m.zero, root, 0, Seq::empty())),
            ..m
        },
        ranges != before,
    )
}

/// Memory after it was noted that `n` made the bytes of `root` from `from` to `to` zero, and whether that is new.
pub open spec fn clear_noted(m: MemV, root: RootKey, from: i64, to: i64, n: Node) -> (MemV, bool) {
    if m.clears.contains((root, from, to, n)) {
        (m, false)
    } else {
        (MemV { clears: m.clears.push((root, from, to, n)), ..m }, true)
    }
}

/// The loads from `root` among `loaders[from..]`, behind `found`.
pub open spec fn loads_of(loaders: Seq<(RootKey, Node)>, root: RootKey, from: int, found: Seq<Node>) -> Seq<Node>
    decreases loaders.len() - from,
{
    if from >= loaders.len() {
        found
    } else if loaders[from].0 == root {
        loads_of(loaders, root, from + 1, found.push(loaders[from].1))
    } else {
        loads_of(loaders, root, from + 1, found)
    }
}

/// The nodes of `loaders[from..]`, behind `found`.
pub open spec fn all_loads(loaders: Seq<(RootKey, Node)>, from: int, found: Seq<Node>) -> Seq<Node>
    decreases loaders.len() - from,
{
    if from >= loaders.len() {
        found
    } else {
        all_loads(loaders, from + 1, found.push(loaders[from].1))
    }
}

/// Nothing can be said of any object any more; the loads that must look again, behind `again`.
pub open spec fn all_lost(m: MemV, again: Seq<Node>) -> (MemV, Seq<Node>) {
    if m.lost {
        (m, again)
    } else {
        (MemV { lost: true, ..m }, again + all_loads(m.loaders, 0, Seq::empty()))
    }
}

/// Every object of `roots[from..]` forgotten; the loads that must look again, behind `again`.
pub open spec fn roots_cleared(m: MemV, roots: Seq<RootKey>, from: int, again: Seq<Node>) -> (MemV, Seq<Node>)
    decreases roots.len() - from,
{
    if from >= roots.len() {
        (m, again)
    } else {
        let (next, changed) = root_cleared(m, roots[from]);
        if changed {
            roots_cleared(next, roots, from + 1, again + loads_of(next.loaders, roots[from], 0, Seq::empty()))
        } else {
            roots_cleared(next, roots, from + 1, again)
        }
    }
}

pub open spec fn key_of_root(root: WriteRoot) -> RootKey {
    match root {
        WriteRoot::Global(g) => RootKey::Global(g),
        WriteRoot::Local(f, a) => RootKey::Local(f, a),
    }
}

/// `roots[from..]` as objects of memory, behind `found`.
pub open spec fn keys_from(roots: Seq<WriteRoot>, from: int, found: Seq<RootKey>) -> Seq<RootKey>
    decreases roots.len() - from,
{
    if from >= roots.len() {
        found
    } else {
        keys_from(roots, from + 1, found.push(key_of_root(roots[from])))
    }
}

/// Memory after `func` called `callee`. What a function with a body writes is noted where it is written; what
/// one that is only declared may write is forgotten, all of it where that is not known.
pub open spec fn call_cleared(p: ProgramV, m: MemV, callee: Function, func: Function, again: Seq<Node>) -> (MemV, Seq<Node>) {
    if p.func(callee).blocks.len() > 0 {
        (m, again)
    } else {
        match call_roots(p, callee, func, true) {
            Some(roots) => roots_cleared(m, keys_from(roots, 0, Seq::empty()), 0, again),
            None => all_lost(m, again),
        }
    }
}

/// The object that a write through `addr` hits, where it is known.
pub open spec fn target_of(p: ProgramV, func: Function, addr: Inst) -> Option<RootKey> {
    match object_of(p, addr) {
        MemObject::Global(g) => Some(RootKey::Global(g)),
        MemObject::Alloc(a) => Some(RootKey::Local(func, a)),
        MemObject::Unknown => None,
    }
}

/// Memory after a write through `addr`, the offset of which is not known: its object is forgotten, and where it
/// is not known every object, those met later too.
pub open spec fn write_blurred(p: ProgramV, m: MemV, func: Function, addr: Inst, again: Seq<Node>) -> (MemV, Seq<Node>) {
    match target_of(p, func, addr) {
        Some(root) => roots_cleared(m, seq![root], 0, again),
        None => all_lost(m, again),
    }
}

fn has_root(v: &Vec<RootKey>, x: RootKey) -> (r: bool)
    ensures
        r == v@.contains(x),
{
    let mut i: usize = 0;
    while i < v.len()
        invariant
            i <= v@.len(),
            forall|k: int| 0 <= k < i ==> v@[k] != x,
        decreases v@.len() - i,
    {
        if v[i] == x {
            assert(v@[i as int] == x);
            return true;
        }
        i += 1;
    }
    false
}

fn add_root(v: &mut Vec<RootKey>, x: RootKey)
    ensures
        final(v)@ == with_root(old(v)@, x),
{
    if !has_root(v, x) {
        v.push(x);
    }
}

fn behind(p: &Program, w: Node, load: Node) -> (r: bool)
    ensures
        r == is_behind(p@, w, load),
{
    match (p.parent_bb(w.func, w.inst), p.parent_bb(load.func, load.inst)) {
        (Some(sb), Some(lb)) => {
            if w.func == load.func && sb == lb {
                let insts = p.block_insts(sb);
                crate::ir::inst_position(&insts, w.inst) >= crate::ir::inst_position(&insts, load.inst)
            } else {
                false
            }
        },
        _ => false,
    }
}

fn same_ranges(a: &Vec<(i64, i64)>, b: &Vec<(i64, i64)>) -> (r: bool)
    ensures
        r == (a@ == b@),
{
    if a.len() != b.len() {
        return false;
    }
    let mut k: usize = 0;
    while k < a.len()
        invariant
            k <= a@.len(),
            a@.len() == b@.len(),
            forall|j: int| 0 <= j < k ==> a@[j] == b@[j],
        decreases a@.len() - k,
    {
        if a[k].0 != b[k].0 || a[k].1 != b[k].1 {
            assert(a@[k as int] != b@[k as int]);
            return false;
        }
        k += 1;
    }
    assert(a@ =~= b@);
    true
}

impl MemState {
    pub fn new() -> (r: MemState)
        ensures
            r@ == (MemV {
                writers: Seq::empty(),
                zero: Seq::empty(),
                clears: Seq::empty(),
                cleared: Seq::empty(),
                lost: false,
                loaders: Seq::empty(),
            }),
    {
        let r = MemState {
            writers: Vec::new(),
            zero: Vec::new(),
            clears: Vec::new(),
            cleared: Vec::new(),
            lost: false,
            loaders: Vec::new(),
        };
        assert(r@ =~= (MemV {
            writers: Seq::empty(),
            zero: Seq::empty(),
            clears: Seq::empty(),
            cleared: Seq::empty(),
            lost: false,
            loaders: Seq::empty(),
        }));
        r
    }

    fn cell_fold(&self, p: &Program, key: CellKey, load: Node, ord: &OrderInfo) -> (r: (
        Lattice,
        Vec<(Function, BasicBlock)>,
    ))
        requires
            ord.describes(p@),
        ensures
            (r.0, r.1@) == fold_from(p@, key, load, self@.writers, 0, Lattice::Top, Seq::empty()),
    {
        let mut folded = Lattice::Top;
        let mut prior: Vec<(Function, BasicBlock)> = Vec::new();
        assert(prior@ =~= Seq::empty());
        let mut k: usize = 0;
        while k < self.writers.len()
            invariant
                k <= self.writers@.len(),
                ord.describes(p@),
                fold_from(p@, key, load, self.writers@, 0, Lattice::Top, Seq::empty()) == fold_from(
                    p@,
                    key,
                    load,
                    self.writers@,
                    k as int,
                    folded,
                    prior@,
                ),
            decreases self.writers@.len() - k,
        {
            let (c, w, v) = self.writers[k];
            if c == key {
                let related = ord.writer_relation(p, w, load) != 0;
                if related || stored_maybe(p, key, w, load) {
                    folded = folded.merge(v);
                    if let Some(b) = p.parent_bb(w.func, w.inst) {
                        if related && !behind(p, w, load) {
                            prior.push((w.func, b));
                        }
                    }
                }
            }
            k += 1;
        }
        (folded, prior)
    }

    /// Whether one of the instructions that made the cell zero may be the last before the load that wrote to it.
    fn was_cleared(&self, p: &Program, key: CellKey, load: Node) -> (r: bool)
        ensures
            r == is_cleared(p@, self@.clears, key, load),
    {
        let mut k: usize = 0;
        while k < self.clears.len()
            invariant
                k <= self.clears@.len(),
                forall|j: int|
                    0 <= j < k ==> !((#[trigger] self.clears@[j]).0 == key.object() && self.clears@[j].1 <= key.at()
                        < self.clears@[j].2 && may_have_cleared(p@, key, self.clears@[j].3, load)),
            decreases self.clears@.len() - k,
        {
            let (root, from, to, z) = self.clears[k];
            assert(self.clears@[k as int] == (root, from, to, z));
            if root == key.root() && from <= key.offset() && key.offset() < to && cleared_maybe(p, key, z, load) {
                return true;
            }
            k += 1;
        }
        false
    }

    fn is_zero(&self, key: CellKey) -> (r: bool)
        ensures
            r == in_zero(self@.zero, key),
    {
        let mut k: usize = 0;
        while k < self.zero.len()
            invariant
                k <= self.zero@.len(),
                forall|j: int|
                    0 <= j < k ==> !((#[trigger] self.zero@[j]).0 == key.object() && self.zero@[j].1 <= key.at()
                        < self.zero@[j].2),
            decreases self.zero@.len() - k,
        {
            let (root, from, to) = self.zero[k];
            assert(self.zero@[k as int] == (root, from, to));
            if root == key.root() && from <= key.offset() && key.offset() < to {
                return true;
            }
            k += 1;
        }
        false
    }

    /// What the load gets from cell `key`.
    pub fn read(&self, p: &Program, key: CellKey, load: Node, ord: &OrderInfo) -> (r: Lattice)
        requires
            ord.describes(p@),
        ensures
            r == value_read(p@, self@, key, load),
    {
        if self.lost || has_root(&self.cleared, key.root()) {
            return Lattice::Bottom;
        }
        let (folded, prior) = self.cell_fold(p, key, load, ord);
        if folded == Lattice::Bottom {
            return Lattice::Bottom;
        }
        let open = ord.init_reachable(p, load, &prior);
        let unknown_start = match key {
            CellKey::Global(_, _) => !zero_at_start(p, key),
            CellKey::Local(_, _, _) => false,
        };
        let v = if unknown_start && (open || first_maybe(p, key, load)) {
            Lattice::Bottom
        } else if (open && self.is_zero(key)) || first_maybe(p, key, load) || self.was_cleared(p, key, load) {
            folded.merge(Lattice::Constant(0))
        } else {
            folded
        };
        if v == Lattice::Top {
            Lattice::Bottom
        } else {
            v
        }
    }

    /// Notes that store `w` puts `value` into `key`. True when that is new, so that the loads of the object
    /// have to look again.
    pub fn write(&mut self, key: CellKey, w: Node, value: Lattice) -> (changed: bool)
        ensures
            (final(self)@, changed) == written(old(self)@, key, w, value),
    {
        let ghost start = self@;
        let v = if value == Lattice::Top {
            Lattice::Bottom
        } else {
            value
        };
        let mut k: usize = 0;
        while k < self.writers.len() && !(self.writers[k].0 == key && self.writers[k].1 == w)
            invariant
                k <= self.writers@.len(),
                writer_at(self.writers@, key, w, 0) == writer_at(self.writers@, key, w, k as int),
            decreases self.writers@.len() - k,
        {
            k += 1;
        }
        let changed = k >= self.writers.len() || self.writers[k].2 != v;
        if k < self.writers.len() {
            self.writers.set(k, (key, w, v));
        } else {
            self.writers.push((key, w, v));
        }
        assert(self@ =~= written(start, key, w, value).0);
        changed
    }

    /// Forgets everything about `root`, for good. True when that is new.
    pub fn clear(&mut self, root: RootKey) -> (changed: bool)
        ensures
            (final(self)@, changed) == root_cleared(old(self)@, root),
    {
        let ghost start = self@;
        let changed = !has_root(&self.cleared, root);
        add_root(&mut self.cleared, root);
        assert(self@ =~= root_cleared(start, root).0);
        changed
    }

    /// Forgets everything about all objects, for good; the loads that must look again are added to `again`.
    pub fn lose(&mut self, again: &mut Vec<Node>)
        ensures
            (final(self)@, final(again)@) == all_lost(old(self)@, old(again)@),
    {
        if self.lost {
            return;
        }
        self.lost = true;
        let ghost start = again@;
        let mut loads: Vec<Node> = Vec::new();
        assert(loads@ =~= Seq::empty());
        let mut k: usize = 0;
        while k < self.loaders.len()
            invariant
                k <= self.loaders@.len(),
                all_loads(self.loaders@, 0, Seq::empty()) == all_loads(self.loaders@, k as int, loads@),
            decreases self.loaders@.len() - k,
        {
            loads.push(self.loaders[k].1);
            k += 1;
        }
        extend_nodes(again, &loads);
        assert(self@ =~= all_lost(old(self)@, start).0);
    }

    /// Notes that `n` made the bytes of `root` from `from` to `to` zero. True when that is new.
    pub fn note_clear(&mut self, root: RootKey, from: i64, to: i64, n: Node) -> (changed: bool)
        ensures
            (final(self)@, changed) == clear_noted(old(self)@, root, from, to, n),
    {
        let ghost start = self@;
        let mut k: usize = 0;
        while k < self.clears.len()
            invariant
                k <= self.clears@.len(),
                self@ == old(self)@,
                forall|j: int| 0 <= j < k ==> self.clears@[j] != (root, from, to, n),
            decreases self.clears@.len() - k,
        {
            let (r, f, t, m) = self.clears[k];
            if r == root && f == from && t == to && m == n {
                assert(self.clears@[k as int] == (root, from, to, n));
                return false;
            }
            k += 1;
        }
        self.clears.push((root, from, to, n));
        assert(self@ =~= clear_noted(start, root, from, to, n).0);
        true
    }

    fn zero_but(&self, root: RootKey) -> (r: Vec<(RootKey, i64, i64)>)
        ensures
            r@ == zero_elsewhere(self@.zero, root, 0, Seq::empty()),
    {
        let mut r: Vec<(RootKey, i64, i64)> = Vec::new();
        assert(r@ =~= Seq::empty());
        let mut k: usize = 0;
        while k < self.zero.len()
            invariant
                k <= self.zero@.len(),
                zero_elsewhere(self.zero@, root, 0, Seq::empty()) == zero_elsewhere(
                    self.zero@,
                    root,
                    k as int,
                    r@,
                ),
            decreases self.zero@.len() - k,
        {
            if self.zero[k].0 != root {
                r.push(self.zero[k]);
            }
            k += 1;
        }
        r
    }

    /// Notes that the bytes of `root` from `from` to `to` are zero. True when its zero ranges changed.
    pub fn mem_zero(&mut self, root: RootKey, from: i64, to: i64) -> (changed: bool)
        ensures
            (final(self)@, changed) == zeroed(old(self)@, root, from, to),
    {
        let ghost start = self@;
        let mut ranges: Vec<(i64, i64)> = Vec::new();
        assert(ranges@ =~= Seq::empty());
        let mut k: usize = 0;
        while k < self.zero.len()
            invariant
                k <= self.zero@.len(),
                ranges_of(self.zero@, root, 0, Seq::empty()) == ranges_of(self.zero@, root, k as int, ranges@),
            decreases self.zero@.len() - k,
        {
            if self.zero[k].0 == root {
                ranges.push((self.zero[k].1, self.zero[k].2));
            }
            k += 1;
        }
        let before = copy_vec(&ranges);
        merge_zero_interval(&mut ranges, from, to);
        let mut zero = self.zero_but(root);
        let ghost others = zero@;
        let mut k: usize = 0;
        while k < ranges.len()
            invariant
                k <= ranges@.len(),
                as_zero(ranges@, root, 0, others) == as_zero(ranges@, root, k as int, zero@),
            decreases ranges@.len() - k,
        {
            zero.push((root, ranges[k].0, ranges[k].1));
            k += 1;
        }
        let changed = !same_ranges(&before, &ranges);
        self.zero = zero;
        assert(self@ =~= zeroed(start, root, from, to).0);
        changed
    }

    /// The loads from `root`.
    pub fn loads(&self, root: RootKey) -> (r: Vec<Node>)
        ensures
            r@ == loads_of(self@.loaders, root, 0, Seq::empty()),
    {
        let mut r: Vec<Node> = Vec::new();
        assert(r@ =~= Seq::empty());
        let mut k: usize = 0;
        while k < self.loaders.len()
            invariant
                k <= self.loaders@.len(),
                loads_of(self.loaders@, root, 0, Seq::empty()) == loads_of(self.loaders@, root, k as int, r@),
            decreases self.loaders@.len() - k,
        {
            if self.loaders[k].0 == root {
                r.push(self.loaders[k].1);
            }
            k += 1;
        }
        r
    }

    /// Forgets everything about `roots`; the loads that must look again are added to `again`.
    pub fn clear_all(&mut self, roots: &Vec<RootKey>, again: &mut Vec<Node>)
        ensures
            (final(self)@, final(again)@) == roots_cleared(old(self)@, roots@, 0, old(again)@),
    {
        let mut k: usize = 0;
        while k < roots.len()
            invariant
                k <= roots@.len(),
                roots_cleared(old(self)@, roots@, 0, old(again)@) == roots_cleared(self@, roots@, k as int, again@),
            decreases roots@.len() - k,
        {
            if self.clear(roots[k]) {
                let loads = self.loads(roots[k]);
                extend_nodes(again, &loads);
            }
            k += 1;
        }
    }

    /// Forgets what a call of `callee` from `func` may write.
    pub fn invalidate_call(&mut self, p: &Program, callee: Function, func: Function, again: &mut Vec<Node>)
        ensures
            (final(self)@, final(again)@) == call_cleared(p@, old(self)@, callee, func, old(again)@),
    {
        if p.basicblocks(callee).len() > 0 {
            return;
        }
        match call_write_roots(p, callee, func) {
            Some(roots) => {
                let mut keys: Vec<RootKey> = Vec::new();
                assert(keys@ =~= Seq::empty());
                let mut k: usize = 0;
                while k < roots.len()
                    invariant
                        k <= roots@.len(),
                        keys_from(roots@, 0, Seq::empty()) == keys_from(roots@, k as int, keys@),
                    decreases roots@.len() - k,
                {
                    match roots[k] {
                        WriteRoot::Global(g) => {
                            keys.push(RootKey::Global(g));
                        },
                        WriteRoot::Local(f, a) => {
                            keys.push(RootKey::Local(f, a));
                        },
                    }
                    k += 1;
                }
                self.clear_all(&keys, again);
            },
            None => {
                self.lose(again);
            },
        }
    }

    /// The object that a write through `addr` hits, where it is known.
    pub fn possible_targets(p: &Program, func: Function, addr: Inst) -> (r: Option<RootKey>)
        ensures
            r == target_of(p@, func, addr),
    {
        match base_of(p, addr) {
            MemObject::Global(g) => Some(RootKey::Global(g)),
            MemObject::Alloc(a) => Some(RootKey::Local(func, a)),
            MemObject::Unknown => None,
        }
    }

    /// Forgets what a write through `addr`, the offset of which is not known, may hit.
    pub fn blur(&mut self, p: &Program, func: Function, addr: Inst, again: &mut Vec<Node>)
        ensures
            (final(self)@, final(again)@) == write_blurred(p@, old(self)@, func, addr, old(again)@),
    {
        match MemState::possible_targets(p, func, addr) {
            Some(root) => {
                let roots = vec![root];
                assert(roots@ =~= seq![root]);
                self.clear_all(&roots, again);
            },
            None => {
                self.lose(again);
            },
        }
    }
}

fn zero_at_start(p: &Program, key: CellKey) -> (r: bool)
    ensures
        r == starts_as_zero(p@, key),
{
    match key {
        CellKey::Global(g, off) => {
            let zero = match (p.op(g), p.op(p.arg(g, 0))) {
                (Op::GlobalAlloc, Op::ZeroInit) => true,
                _ => false,
            };
            zero && 0 <= off && off < wide_end(&p.ty(g).dereference())
        },
        CellKey::Local(_, _, _) => false,
    }
}

/// Adds `more` behind `v`.
pub fn extend_nodes(v: &mut Vec<Node>, more: &Vec<Node>)
    ensures
        final(v)@ == old(v)@ + more@,
{
    let mut k: usize = 0;
    let ghost start = v@;
    while k < more.len()
        invariant
            k <= more@.len(),
            v@ == start + more@.take(k as int),
        decreases more@.len() - k,
    {
        v.push(more[k]);
        assert(start + more@.take(k + 1) =~= (start + more@.take(k as int)).push(more@[k as int]));
        k += 1;
    }
    assert(more@.take(more@.len() as int) =~= more@);
}

} // verus!
