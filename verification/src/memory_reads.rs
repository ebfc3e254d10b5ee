//! On what a read of memory depends.

use vstd::prelude::*;

use crate::ir::{BasicBlock, Function, ProgramV};
use crate::lattice::{CellKey, Lattice, RootKey};
use crate::mem_state::{
    as_zero, clear_noted, fold_from, in_zero, is_behind, is_cleared, ranges_of, root_cleared, value_read, with_root,
    writer_at, written, zero_elsewhere, zeroed, MemV,
};
use crate::program_order::{relation, Node};
use crate::ways::{may_have_cleared, may_have_stored};

verus! {

/// What one entry adds to what a load sees.
pub open spec fn fold_one(
    p: ProgramV,
    key: CellKey,
    load: Node,
    e: (CellKey, Node, Lattice),
    acc: (Lattice, Seq<(Function, BasicBlock)>),
) -> (Lattice, Seq<(Function, BasicBlock)>) {
    let (k, w, v) = e;
    if k != key || (relation(p, w, load) == 0 && !may_have_stored(p, key, w, load)) {
        acc
    } else {
        (
            acc.0.meet(v),
            match p.parent_bb(w.func, w.inst) {
                Some(b) => if relation(p, w, load) == 0 || is_behind(p, w, load) {
                    acc.1
                } else {
                    acc.1.push((w.func, b))
                },
                None => acc.1,
            },
        )
    }
}

proof fn lemma_fold_push(
    p: ProgramV,
    key: CellKey,
    load: Node,
    s: Seq<(CellKey, Node, Lattice)>,
    e: (CellKey, Node, Lattice),
    from: int,
    folded: Lattice,
    prior: Seq<(Function, BasicBlock)>,
)
    requires
        0 <= from <= s.len(),
    ensures
        fold_from(p, key, load, s.push(e), from, folded, prior) == fold_one(
            p,
            key,
            load,
            e,
            fold_from(p, key, load, s, from, folded, prior),
        ),
    decreases s.len() - from,
{
    let t = s.push(e);
    if from < s.len() {
        assert(t[from] == s[from]);
        let (f, q) = fold_one(p, key, load, s[from], (folded, prior));
        lemma_fold_push(p, key, load, s, e, from + 1, f, q);
    } else {
        let (f, q) = fold_one(p, key, load, e, (folded, prior));
        assert(t[from] == e);
        assert(fold_from(p, key, load, t, from, folded, prior) == fold_from(p, key, load, t, from + 1, f, q));
    }
}

proof fn lemma_fold_update(
    p: ProgramV,
    key: CellKey,
    load: Node,
    s: Seq<(CellKey, Node, Lattice)>,
    k: int,
    e: (CellKey, Node, Lattice),
    from: int,
    folded: Lattice,
    prior: Seq<(Function, BasicBlock)>,
)
    requires
        0 <= from <= s.len(),
        0 <= k < s.len(),
        s[k].0 != key,
        e.0 != key,
    ensures
        fold_from(p, key, load, s.update(k, e), from, folded, prior) == fold_from(p, key, load, s, from, folded, prior),
    decreases s.len() - from,
{
    if from < s.len() {
        let (f, q) = fold_one(p, key, load, s[from], (folded, prior));
        lemma_fold_update(p, key, load, s, k, e, from + 1, f, q);
    }
}

proof fn lemma_zero_elsewhere_holds(s: Seq<(RootKey, i64, i64)>, root: RootKey, from: int, found: Seq<(RootKey, i64, i64)>)
    requires
        0 <= from <= s.len(),
    ensures
        forall|e: (RootKey, i64, i64)|
            #[trigger] zero_elsewhere(s, root, from, found).contains(e) <==> found.contains(e) || (e.0 != root && exists|
                k: int,
            | from <= k < s.len() && #[trigger] s[k] == e),
        zero_elsewhere(s, root, from, found).len() <= found.len() + s.len() - from,
    decreases s.len() - from,
{
    let r = zero_elsewhere(s, root, from, found);
    if from < s.len() {
        let next = if s[from].0 == root {
            found
        } else {
            found.push(s[from])
        };
        lemma_zero_elsewhere_holds(s, root, from + 1, next);
        assert(r == zero_elsewhere(s, root, from + 1, next));
        assert forall|e: (RootKey, i64, i64)| #[trigger] r.contains(e) implies found.contains(e) || (e.0 != root && exists|
            k: int,
        | from <= k < s.len() && #[trigger] s[k] == e) by {
            if next.contains(e) && !found.contains(e) {
                let k = next.index_of(e);
                assert(next[k] == s[from]);
                assert(s[from] == e);
            }
        }
        assert forall|e: (RootKey, i64, i64)|
            found.contains(e) || (e.0 != root && exists|k: int| from <= k < s.len() && #[trigger] s[k] == e) implies
            #[trigger] r.contains(e) by {
            if found.contains(e) {
                let k = found.index_of(e);
                assert(next[k] == e);
            } else {
                let k = choose|k: int| from <= k < s.len() && #[trigger] s[k] == e;
                if k == from {
                    assert(next[found.len() as int] == e);
                }
            }
        }
    }
}

proof fn lemma_as_zero_holds(ranges: Seq<(i64, i64)>, root: RootKey, from: int, found: Seq<(RootKey, i64, i64)>)
    requires
        0 <= from <= ranges.len(),
    ensures
        forall|e: (RootKey, i64, i64)|
            #[trigger] as_zero(ranges, root, from, found).contains(e) <==> found.contains(e) || (e.0 == root && exists|k: int|
                from <= k < ranges.len() && #[trigger] ranges[k] == (e.1, e.2)),
    decreases ranges.len() - from,
{
    let r = as_zero(ranges, root, from, found);
    if from < ranges.len() {
        let x = (root, ranges[from].0, ranges[from].1);
        let next = found.push(x);
        lemma_as_zero_holds(ranges, root, from + 1, next);
        assert(r == as_zero(ranges, root, from + 1, next));
        assert forall|e: (RootKey, i64, i64)| #[trigger] r.contains(e) implies found.contains(e) || (e.0 == root && exists|
            k: int,
        | from <= k < ranges.len() && #[trigger] ranges[k] == (e.1, e.2)) by {
            if next.contains(e) && !found.contains(e) {
                let k = next.index_of(e);
                assert(next[k] == x);
                assert(ranges[from] == (e.1, e.2));
            }
        }
        assert forall|e: (RootKey, i64, i64)|
            found.contains(e) || (e.0 == root && exists|k: int| from <= k < ranges.len() && #[trigger] ranges[k] == (
                e.1,
                e.2,
            )) implies #[trigger] r.contains(e) by {
            if found.contains(e) {
                let k = found.index_of(e);
                assert(next[k] == e);
            } else {
                let k = choose|k: int| from <= k < ranges.len() && #[trigger] ranges[k] == (e.1, e.2);
                if k == from {
                    assert(e == x);
                    assert(next[found.len() as int] == e);
                }
            }
        }
    }
}

proof fn lemma_ranges_hold(s: Seq<(RootKey, i64, i64)>, root: RootKey, from: int, found: Seq<(i64, i64)>)
    requires
        0 <= from <= s.len(),
    ensures
        forall|e: (i64, i64)|
            #[trigger] ranges_of(s, root, from, found).contains(e) <==> found.contains(e) || exists|k: int|
                from <= k < s.len() && #[trigger] s[k] == (root, e.0, e.1),
    decreases s.len() - from,
{
    let r = ranges_of(s, root, from, found);
    if from < s.len() {
        let next = if s[from].0 == root {
            found.push((s[from].1, s[from].2))
        } else {
            found
        };
        lemma_ranges_hold(s, root, from + 1, next);
        assert(r == ranges_of(s, root, from + 1, next));
        assert forall|e: (i64, i64)| #[trigger] r.contains(e) implies found.contains(e) || exists|k: int|
            from <= k < s.len() && #[trigger] s[k] == (root, e.0, e.1) by {
            if next.contains(e) && !found.contains(e) {
                let k = next.index_of(e);
                assert(next[k] == (s[from].1, s[from].2));
                assert(s[from] == (root, e.0, e.1));
            }
        }
        assert forall|e: (i64, i64)|
            found.contains(e) || (exists|k: int| from <= k < s.len() && #[trigger] s[k] == (root, e.0, e.1)) implies
            #[trigger] r.contains(e) by {
            if found.contains(e) {
                let k = found.index_of(e);
                assert(next[k] == e);
            } else {
                let k = choose|k: int| from <= k < s.len() && #[trigger] s[k] == (root, e.0, e.1);
                if k == from {
                    assert(next[found.len() as int] == e);
                }
            }
        }
    }
}

proof fn lemma_writer_at(s: Seq<(CellKey, Node, Lattice)>, key: CellKey, w: Node, from: int)
    requires
        0 <= from <= s.len(),
    ensures
        from <= writer_at(s, key, w, from) <= s.len(),
        writer_at(s, key, w, from) < s.len() ==> s[writer_at(s, key, w, from)].0 == key && s[writer_at(s, key, w, from)].1 == w,
    decreases s.len() - from,
{
    if from < s.len() && !(s[from].0 == key && s[from].1 == w) {
        lemma_writer_at(s, key, w, from + 1);
    }
}

/// A store changes what loads of its object read, and only where what it puts there is new.
pub proof fn writing_is_local(p: ProgramV, m: MemV, cell: CellKey, w: Node, value: Lattice, key: CellKey, load: Node)
    requires
        key.object() != cell.object() || !written(m, cell, w, value).1,
    ensures
        value_read(p, written(m, cell, w, value).0, key, load) == value_read(p, m, key, load),
{
    let (next, changed) = written(m, cell, w, value);
    let k = writer_at(m.writers, cell, w, 0);
    lemma_writer_at(m.writers, cell, w, 0);
    let v = if value == Lattice::Top {
        Lattice::Bottom
    } else {
        value
    };
    if !changed {
        assert(next.writers =~= m.writers);
    } else if k < m.writers.len() {
        lemma_fold_update(p, key, load, m.writers, k, (cell, w, v), 0, Lattice::Top, Seq::empty());
    } else {
        lemma_fold_push(p, key, load, m.writers, (cell, w, v), 0, Lattice::Top, Seq::empty());
    }
}

proof fn lemma_with_root(roots: Seq<RootKey>, root: RootKey, r: RootKey)
    ensures
        with_root(roots, root).contains(r) == (roots.contains(r) || r == root),
{
    let next = with_root(roots, root);
    if roots.contains(r) {
        let k = roots.index_of(r);
        assert(next[k] == r);
    }
    if r == root && !roots.contains(root) {
        assert(next[roots.len() as int] == root);
    }
    if next.contains(r) && !roots.contains(r) {
        let k = next.index_of(r);
        assert(k == roots.len());
    }
}

/// Forgetting an object changes what loads of that object read, and only where that is new.
pub proof fn forgetting_is_local(p: ProgramV, m: MemV, root: RootKey, key: CellKey, load: Node)
    requires
        key.object() != root || !root_cleared(m, root).1,
    ensures
        value_read(p, root_cleared(m, root).0, key, load) == value_read(p, m, key, load),
{
    lemma_with_root(m.cleared, root, key.object());
}

/// Noting that bytes were made zero changes what loads of that object read, and only where that is new.
pub proof fn clearing_is_local(
    p: ProgramV,
    m: MemV,
    root: RootKey,
    from: i64,
    to: i64,
    n: Node,
    key: CellKey,
    load: Node,
)
    requires
        key.object() != root || !clear_noted(m, root, from, to, n).1,
    ensures
        value_read(p, clear_noted(m, root, from, to, n).0, key, load) == value_read(p, m, key, load),
{
    let next = clear_noted(m, root, from, to, n).0;
    assert(is_cleared(p, next.clears, key, load) == is_cleared(p, m.clears, key, load)) by {
        if is_cleared(p, m.clears, key, load) {
            let k = choose|k: int|
                0 <= k < m.clears.len() && (#[trigger] m.clears[k]).0 == key.object() && m.clears[k].1 <= key.at()
                    < m.clears[k].2 && may_have_cleared(p, key, m.clears[k].3, load);
            assert(next.clears[k] == m.clears[k]);
        }
        if is_cleared(p, next.clears, key, load) {
            let k = choose|k: int|
                0 <= k < next.clears.len() && (#[trigger] next.clears[k]).0 == key.object() && next.clears[k].1
                    <= key.at() < next.clears[k].2 && may_have_cleared(p, key, next.clears[k].3, load);
            assert(next.clears[k] == m.clears[k]);
        }
    }
}

proof fn lemma_same_zero(a: Seq<(RootKey, i64, i64)>, b: Seq<(RootKey, i64, i64)>, key: CellKey)
    requires
        forall|e: (RootKey, i64, i64)| e.0 == key.object() ==> #[trigger] a.contains(e) == b.contains(e),
    ensures
        in_zero(a, key) == in_zero(b, key),
{
    if in_zero(a, key) {
        let j = choose|j: int| 0 <= j < a.len() && (#[trigger] a[j]).0 == key.object() && a[j].1 <= key.at() < a[j].2;
        assert(a.contains(a[j]));
        assert(b.contains(a[j]));
        let i = b.index_of(a[j]);
        assert(b[i] == a[j]);
    }
    if in_zero(b, key) {
        let j = choose|j: int| 0 <= j < b.len() && (#[trigger] b[j]).0 == key.object() && b[j].1 <= key.at() < b[j].2;
        assert(b.contains(b[j]));
        assert(a.contains(b[j]));
        let i = a.index_of(b[j]);
        assert(a[i] == b[j]);
    }
}

/// Making bytes zero changes what loads of that object read, and only where its zero ranges change.
pub proof fn zeroing_is_local(p: ProgramV, m: MemV, root: RootKey, from: i64, to: i64, key: CellKey, load: Node)
    requires
        key.object() != root || !zeroed(m, root, from, to).1,
    ensures
        value_read(p, zeroed(m, root, from, to).0, key, load) == value_read(p, m, key, load),
{
    let (next, changed) = zeroed(m, root, from, to);
    let before = ranges_of(m.zero, root, 0, Seq::empty());
    let ranges = crate::lattice::joined_from(before, 0, from, to);
    let others = zero_elsewhere(m.zero, root, 0, Seq::empty());
    lemma_zero_elsewhere_holds(m.zero, root, 0, Seq::empty());
    lemma_as_zero_holds(ranges, root, 0, others);
    lemma_ranges_hold(m.zero, root, 0, Seq::empty());
    assert forall|e: (RootKey, i64, i64)| e.0 == key.object() implies #[trigger] m.zero.contains(e) == next.zero.contains(
        e,
    ) by {
        if key.object() == root {
            assert(before.contains((e.1, e.2)) == m.zero.contains(e)) by {
                if m.zero.contains(e) {
                    let i = m.zero.index_of(e);
                    assert(m.zero[i] == (root, e.1, e.2));
                }
            }
            if before.contains((e.1, e.2)) {
                let i = before.index_of((e.1, e.2));
                assert(ranges[i] == (e.1, e.2));
            }
            if next.zero.contains(e) {
                assert(before.contains((e.1, e.2)));
            }
        } else {
            if m.zero.contains(e) {
                let i = m.zero.index_of(e);
                assert(m.zero[i] == e);
            }
        }
    }
    lemma_same_zero(m.zero, next.zero, key);
}

} // verus!
