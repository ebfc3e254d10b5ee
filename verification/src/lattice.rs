//! The constant lattice and the memory contents known by constant propagation.

use vstd::prelude::*;

use crate::ir::{Function, Inst, ProgramV};
use crate::memory::{base_of, byte_offset, constant_offset, object_of, MemObject};
use crate::program::Program;

verus! {

/// What is known of a value: nothing yet, one constant, or that it varies.
#[derive(Clone, Copy, Debug, PartialEq, Eq, Structural)]
pub enum Lattice {
    Top,
    Constant(i32),
    Bottom,
}

impl Lattice {
    /// What is known of a value that is either of two.
    pub open spec fn meet(self, other: Lattice) -> Lattice {
        match (self, other) {
            (Lattice::Top, v) => v,
            (v, Lattice::Top) => v,
            (Lattice::Constant(a), Lattice::Constant(b)) => if a == b {
                self
            } else {
                Lattice::Bottom
            },
            _ => Lattice::Bottom,
        }
    }

    /// `self` claims no more than `other`.
    pub open spec fn below(self, other: Lattice) -> bool {
        self.meet(other) == self
    }

    /// The meet.
    pub fn merge(self, new: Lattice) -> (r: Lattice)
        ensures
            r == self.meet(new),
    {
        match (self, new) {
            (Lattice::Top, v) => v,
            (Lattice::Constant(lhs), rhs) => match rhs {
                Lattice::Top => self,
                Lattice::Constant(r) => if lhs == r {
                    self
                } else {
                    Lattice::Bottom
                },
                Lattice::Bottom => Lattice::Bottom,
            },
            (Lattice::Bottom, _) => Lattice::Bottom,
        }
    }

    /// Lowers to the meet with `new`. True when that changed anything.
    pub fn update(&mut self, new: Lattice) -> (changed: bool)
        ensures
            *final(self) == old(self).meet(new),
            changed == (*final(self) != *old(self)),
    {
        let now = self.merge(new);
        let changed = now != *self;
        *self = now;
        changed
    }
}

/// Meeting is commutative, associative and idempotent.
pub proof fn meet_is_a_meet(a: Lattice, b: Lattice, c: Lattice)
    ensures
        a.meet(b) == b.meet(a),
        a.meet(b).meet(c) == a.meet(b.meet(c)),
        a.meet(a) == a,
        a.meet(Lattice::Top) == a,
        a.meet(Lattice::Bottom) == Lattice::Bottom,
{
}

/// The meet is the greatest lower bound: below both, and above everything below both.
pub proof fn meet_is_greatest_lower_bound(a: Lattice, b: Lattice, c: Lattice)
    ensures
        a.meet(b).below(a),
        a.meet(b).below(b),
        c.below(a) && c.below(b) ==> c.below(a.meet(b)),
{
}

/// How far a value can still be lowered.
pub open spec fn height(a: Lattice) -> nat {
    match a {
        Lattice::Top => 2,
        Lattice::Constant(_) => 1,
        Lattice::Bottom => 0,
    }
}

/// Every change by an update goes strictly down, so a value changes at most twice.
pub proof fn updates_descend(a: Lattice, b: Lattice)
    ensures
        a.meet(b) != a ==> height(a.meet(b)) < height(a),
{
}

/// A cell of memory by its object and byte offset.
#[derive(Clone, Copy, Debug, PartialEq, Eq, Hash, Structural)]
pub enum CellKey {
    Local(Function, Inst, i64),
    Global(Inst, i64),
}

/// An object in memory.
#[derive(Clone, Copy, Debug, PartialEq, Eq, Hash, Structural)]
pub enum RootKey {
    Local(Function, Inst),
    Global(Inst),
}

impl CellKey {
    pub open spec fn at(self) -> i64 {
        match self {
            CellKey::Local(_, _, off) => off,
            CellKey::Global(_, off) => off,
        }
    }

    pub open spec fn object(self) -> RootKey {
        match self {
            CellKey::Local(f, i, _) => RootKey::Local(f, i),
            CellKey::Global(i, _) => RootKey::Global(i),
        }
    }

    /// The byte offset.
    pub fn offset(self) -> (r: i64)
        ensures
            r == self.at(),
    {
        match self {
            CellKey::Local(_, _, off) => off,
            CellKey::Global(_, off) => off,
        }
    }

    /// The object.
    pub fn root(self) -> (r: RootKey)
        ensures
            r == self.object(),
    {
        match self {
            CellKey::Local(f, i, _) => RootKey::Local(f, i),
            CellKey::Global(i, _) => RootKey::Global(i),
        }
    }
}

/// The cell that `addr` names in `func`, with its object.
pub open spec fn cell_of(p: ProgramV, func: Function, addr: Inst) -> Option<(CellKey, RootKey)> {
    match (object_of(p, addr), constant_offset(p, addr)) {
        (MemObject::Alloc(a), Some(off)) => Some((CellKey::Local(func, a, off as i64), RootKey::Local(func, a))),
        (MemObject::Global(g), Some(off)) => Some((CellKey::Global(g, off as i64), RootKey::Global(g))),
        _ => None,
    }
}

pub fn resolve_cell(p: &Program, func: Function, addr: Inst) -> (r: Option<(CellKey, RootKey)>)
    ensures
        r == cell_of(p@, func, addr),
{
    match (base_of(p, addr), byte_offset(p, addr)) {
        (MemObject::Alloc(a), Some(off)) => Some((CellKey::Local(func, a, off), RootKey::Local(func, a))),
        (MemObject::Global(g), Some(off)) => Some((CellKey::Global(g, off), RootKey::Global(g))),
        _ => None,
    }
}

/// The intervals `ranges` with the one from `from` to `to` put in at or after position `i`, joined with
/// every interval that it overlaps or touches.
pub open spec fn joined_from(ranges: Seq<(i64, i64)>, i: int, from: i64, to: i64) -> Seq<(i64, i64)>
    decreases ranges.len() - i,
{
    if i < 0 || i >= ranges.len() {
        ranges.push((from, to))
    } else {
        let (l, r) = ranges[i];
        if r < from {
            joined_from(ranges, i + 1, from, to)
        } else if l > to {
            ranges.insert(i, (from, to))
        } else {
            joined_from(
                ranges.remove(i),
                i,
                if l < from {
                    l
                } else {
                    from
                },
                if r > to {
                    r
                } else {
                    to
                },
            )
        }
    }
}

/// `x` lies in one of the half-open intervals.
pub open spec fn in_ranges(ranges: Seq<(i64, i64)>, x: int) -> bool {
    exists|k: int| 0 <= k < ranges.len() && (#[trigger] ranges[k]).0 <= x < ranges[k].1
}

/// Puts the interval from `from` to `to` into a list of intervals.
pub fn merge_zero_interval(ranges: &mut Vec<(i64, i64)>, from: i64, to: i64)
    ensures
        final(ranges)@ == joined_from(old(ranges)@, 0, from, to),
{
    let mut from: i64 = from;
    let mut to: i64 = to;
    let mut i: usize = 0;
    let ghost whole = joined_from(ranges@, 0, from, to);
    while i < ranges.len()
        invariant_except_break
            i <= ranges@.len(),
            whole == joined_from(ranges@, i as int, from, to),
        ensures
            i <= ranges@.len(),
            whole == ranges@.insert(i as int, (from, to)),
        decreases ranges@.len() - i,
    {
        let l: i64 = ranges[i].0;
        let r: i64 = ranges[i].1;
        if r < from {
            i += 1;
            if i >= ranges.len() {
                assert(ranges@.push((from, to)) =~= ranges@.insert(i as int, (from, to)));
            }
            continue;
        }
        if l > to {
            break;
        }
        if l < from {
            from = l;
        }
        if r > to {
            to = r;
        }
        ranges.remove(i);
        if i >= ranges.len() {
            assert(ranges@.push((from, to)) =~= ranges@.insert(i as int, (from, to)));
        }
    }
    ranges.insert(i, (from, to));
}

/// Ascending intervals with gaps between them.
pub open spec fn ascending_ranges(ranges: Seq<(i64, i64)>) -> bool {
    &&& forall|k: int| 0 <= k < ranges.len() ==> (#[trigger] ranges[k]).0 < ranges[k].1
    &&& forall|i: int, j: int| 0 <= i < j < ranges.len() ==> (#[trigger] ranges[i]).1 < (#[trigger] ranges[j]).0
}

/// Ascending intervals that may touch but do not overlap.
pub open spec fn ordered_ranges(ranges: Seq<(i64, i64)>) -> bool {
    &&& forall|k: int| 0 <= k < ranges.len() ==> (#[trigger] ranges[k]).0 < ranges[k].1
    &&& forall|i: int, j: int| 0 <= i < j < ranges.len() ==> (#[trigger] ranges[i]).1 <= (#[trigger] ranges[j]).0
}

/// Joining an interval adds exactly its points and keeps the list ascending, and the gaps where there were gaps.
pub proof fn joining_is_union(ranges: Seq<(i64, i64)>, from: i64, to: i64)
    requires
        ordered_ranges(ranges),
        from < to,
    ensures
        ordered_ranges(joined_from(ranges, 0, from, to)),
        ascending_ranges(ranges) ==> ascending_ranges(joined_from(ranges, 0, from, to)),
        forall|x: int| #[trigger] in_ranges(joined_from(ranges, 0, from, to), x) <==> in_ranges(ranges, x) || from <= x < to,
{
    lemma_union(ranges, 0, from, to);
    if ascending_ranges(ranges) {
        lemma_gaps(ranges, 0, from, to);
    }
}

proof fn lemma_gaps(ranges: Seq<(i64, i64)>, i: int, from: i64, to: i64)
    requires
        0 <= i <= ranges.len(),
        ascending_ranges(ranges),
        from < to,
        forall|k: int| 0 <= k < i ==> (#[trigger] ranges[k]).1 < from,
    ensures
        ascending_ranges(joined_from(ranges, i, from, to)),
    decreases ranges.len() - i,
{
    let whole = joined_from(ranges, i, from, to);
    if i >= ranges.len() || ranges[i].0 > to {
        let at = if i >= ranges.len() {
            ranges.len() as int
        } else {
            i
        };
        if i < ranges.len() && ranges[i].1 < from {
            lemma_gaps(ranges, i + 1, from, to);
        } else {
            assert(whole =~= ranges.insert(at, (from, to)));
            assert(whole[at] == (from, to));
            assert forall|k: int| 0 <= k < whole.len() implies (#[trigger] whole[k]).0 < whole[k].1 by {
                if k < at {
                    assert(whole[k] == ranges[k]);
                } else if k > at {
                    assert(whole[k] == ranges[k - 1]);
                }
            }
            assert forall|a: int, b: int| 0 <= a < b < whole.len() implies (#[trigger] whole[a]).1 < (#[trigger] whole[b]).0 by {
                if a < at {
                    assert(whole[a] == ranges[a]);
                } else if a > at {
                    assert(whole[a] == ranges[a - 1]);
                }
                if b < at {
                    assert(whole[b] == ranges[b]);
                } else if b > at {
                    assert(whole[b] == ranges[b - 1]);
                    if a == at && b - 1 > i {
                        assert(ranges[i].1 < ranges[b - 1].0);
                    }
                }
            }
        }
    } else if ranges[i].1 < from {
        lemma_gaps(ranges, i + 1, from, to);
    } else {
        let (l, r) = ranges[i];
        let nf = if l < from {
            l
        } else {
            from
        };
        let nt = if r > to {
            r
        } else {
            to
        };
        let rest = ranges.remove(i);
        assert forall|k: int| 0 <= k < rest.len() implies (#[trigger] rest[k]).0 < rest[k].1 by {
            let o = if k < i { k } else { k + 1 };
            assert(rest[k] == ranges[o]);
        }
        assert forall|a: int, b: int| 0 <= a < b < rest.len() implies (#[trigger] rest[a]).1 < (#[trigger] rest[b]).0 by {
            let oa = if a < i { a } else { a + 1 };
            let ob = if b < i { b } else { b + 1 };
            assert(rest[a] == ranges[oa] && rest[b] == ranges[ob]);
        }
        assert forall|k: int| 0 <= k < i implies (#[trigger] rest[k]).1 < nf by {
            assert(rest[k] == ranges[k]);
            assert(ranges[k].1 < ranges[i].0);
        }
        lemma_gaps(rest, i, nf, nt);
    }
}

proof fn lemma_union(ranges: Seq<(i64, i64)>, i: int, from: i64, to: i64)
    requires
        0 <= i <= ranges.len(),
        ordered_ranges(ranges),
        from < to,
        forall|k: int| 0 <= k < i ==> (#[trigger] ranges[k]).1 <= from,
    ensures
        ordered_ranges(joined_from(ranges, i, from, to)),
        forall|x: int| #[trigger] in_ranges(joined_from(ranges, i, from, to), x) <==> in_ranges(ranges, x) || from <= x < to,
    decreases ranges.len() - i,
{
    let whole = joined_from(ranges, i, from, to);
    if i >= ranges.len() || ranges[i].0 > to {
        let at = if i >= ranges.len() {
            ranges.len() as int
        } else {
            i
        };
        if i < ranges.len() && ranges[i].1 < from {
            lemma_union(ranges, i + 1, from, to);
        } else {
            assert(whole =~= ranges.insert(at, (from, to)));
            assert(whole[at] == (from, to));
            assert forall|k: int| 0 <= k < whole.len() implies (#[trigger] whole[k]).0 < whole[k].1 by {
                if k < at {
                    assert(whole[k] == ranges[k]);
                } else if k > at {
                    assert(whole[k] == ranges[k - 1]);
                }
            }
            assert forall|a: int, b: int| 0 <= a < b < whole.len() implies (#[trigger] whole[a]).1 <= (#[trigger] whole[b]).0 by {
                if a < at {
                    assert(whole[a] == ranges[a]);
                } else if a > at {
                    assert(whole[a] == ranges[a - 1]);
                }
                if b < at {
                    assert(whole[b] == ranges[b]);
                } else if b > at {
                    assert(whole[b] == ranges[b - 1]);
                    if a == at && b - 1 > i {
                        assert(ranges[i].1 <= ranges[b - 1].0);
                    }
                }
            }
            assert forall|x: int| #[trigger] in_ranges(whole, x) <==> in_ranges(ranges, x) || from <= x < to by {
                if in_ranges(ranges, x) {
                    let k = choose|k: int| 0 <= k < ranges.len() && (#[trigger] ranges[k]).0 <= x < ranges[k].1;
                    if k < at {
                        assert(whole[k].0 <= x < whole[k].1);
                    } else {
                        assert(whole[k + 1].0 <= x < whole[k + 1].1);
                    }
                }
                if from <= x < to {
                    assert(whole[at].0 <= x < whole[at].1);
                }
                if in_ranges(whole, x) {
                    let k = choose|k: int| 0 <= k < whole.len() && (#[trigger] whole[k]).0 <= x < whole[k].1;
                    if k < at {
                        assert(ranges[k].0 <= x < ranges[k].1);
                    } else if k > at {
                        assert(ranges[k - 1].0 <= x < ranges[k - 1].1);
                    }
                }
            }
        }
    } else if ranges[i].1 < from {
        lemma_union(ranges, i + 1, from, to);
    } else {
        let (l, r) = ranges[i];
        let nf = if l < from {
            l
        } else {
            from
        };
        let nt = if r > to {
            r
        } else {
            to
        };
        let rest = ranges.remove(i);
        assert forall|k: int| 0 <= k < rest.len() implies (#[trigger] rest[k]).0 < rest[k].1 by {
            let o = if k < i { k } else { k + 1 };
            assert(rest[k] == ranges[o]);
        }
        assert forall|a: int, b: int| 0 <= a < b < rest.len() implies (#[trigger] rest[a]).1 <= (#[trigger] rest[b]).0 by {
            let oa = if a < i { a } else { a + 1 };
            let ob = if b < i { b } else { b + 1 };
            assert(rest[a] == ranges[oa] && rest[b] == ranges[ob]);
        }
        assert forall|k: int| 0 <= k < i implies (#[trigger] rest[k]).1 <= nf by {
            assert(rest[k] == ranges[k]);
            assert(ranges[k].1 <= ranges[i].0);
        }
        lemma_union(rest, i, nf, nt);
        assert forall|x: int| #[trigger] in_ranges(whole, x) <==> in_ranges(ranges, x) || from <= x < to by {
            assert(in_ranges(whole, x) <==> in_ranges(rest, x) || nf <= x < nt);
            if in_ranges(rest, x) {
                let k = choose|k: int| 0 <= k < rest.len() && (#[trigger] rest[k]).0 <= x < rest[k].1;
                let o = if k < i { k } else { k + 1 };
                assert(ranges[o].0 <= x < ranges[o].1);
            }
            if in_ranges(ranges, x) {
                let k = choose|k: int| 0 <= k < ranges.len() && (#[trigger] ranges[k]).0 <= x < ranges[k].1;
                if k < i {
                    assert(rest[k].0 <= x < rest[k].1);
                } else if k > i {
                    assert(rest[k - 1].0 <= x < rest[k - 1].1);
                }
            }
            if nf <= x < nt && !(from <= x < to) {
                assert(ranges[i].0 <= x < ranges[i].1);
            }
        }
    }
}

} // verus!
