//! What calling a function may do.

use vstd::prelude::*;

use crate::graph::{reach_in, reachable, reaches};
use crate::cfg::{in_range, none};
use crate::ir::{Function, Inst, Op, ProgramV, Type};
use crate::memory::{base_of, object_of, MemObject};
use crate::program::Program;

verus! {

/// The function that `i` transfers control to, where it is a call.
pub open spec fn callee_of(p: ProgramV, i: Inst) -> Option<Function> {
    match p.op(i) {
        Op::Call(g) => Some(g),
        Op::TailCall(g) => Some(g),
        _ => None,
    }
}

/// Calls made by `insts[from..]` of `f` as edges of the call graph, behind `found`.
pub open spec fn calls_in(p: ProgramV, f: usize, insts: Seq<Inst>, from: int, found: Seq<(usize, usize)>) -> Seq<
    (usize, usize),
>
    decreases insts.len() - from,
{
    if from >= insts.len() {
        found
    } else {
        let next = match callee_of(p, insts[from]) {
            Some(g) => if g.0 < p.funcs.len() {
                found.push((f, g.0))
            } else {
                found
            },
            None => found,
        };
        calls_in(p, f, insts, from + 1, next)
    }
}

/// Calls made by functions `f..`, behind `found`.
pub open spec fn calls_from(p: ProgramV, f: int, found: Seq<(usize, usize)>) -> Seq<(usize, usize)>
    decreases p.funcs.len() - f,
{
    if f >= p.funcs.len() {
        found
    } else {
        calls_from(p, f + 1, calls_in(p, f as usize, p.placed(Function(f as usize)), 0, found))
    }
}

/// The call graph.
pub open spec fn call_edges(p: ProgramV) -> Seq<(usize, usize)> {
    calls_from(p, 0, Seq::empty())
}

/// Calling `f` may run `g`.
pub open spec fn may_run(p: ProgramV, f: Function, g: Function) -> bool {
    reaches(call_edges(p), none(), f.0 as int, g.0 as int)
}

/// The object that `i` writes (or reads, where `writing` is false), unless it is the function's own.
pub open spec fn touched_at(p: ProgramV, i: Inst, writing: bool) -> Option<MemObject> {
    let o = match p.op(i) {
        Op::Store => if writing {
            Some(object_of(p, p.arg(i, 1)))
        } else {
            None
        },
        Op::MemZero(_) => if writing {
            Some(object_of(p, p.arg(i, 0)))
        } else {
            None
        },
        Op::MemZeroDyn => if writing {
            Some(object_of(p, p.arg(i, 0)))
        } else {
            None
        },
        Op::Load => if writing {
            None
        } else {
            Some(object_of(p, p.arg(i, 0)))
        },
        _ => None,
    };
    match o {
        Some(MemObject::Alloc(_)) => None,
        _ => o,
    }
}

/// Objects touched by `insts[from..]`, behind `found`.
pub open spec fn touched_in(p: ProgramV, insts: Seq<Inst>, writing: bool, from: int, found: Seq<MemObject>) -> Seq<
    MemObject,
>
    decreases insts.len() - from,
{
    if from >= insts.len() {
        found
    } else {
        match touched_at(p, insts[from], writing) {
            Some(o) => touched_in(p, insts, writing, from + 1, found.push(o)),
            None => touched_in(p, insts, writing, from + 1, found),
        }
    }
}

/// Function `g` is handed an address.
pub open spec fn takes_address(p: ProgramV, g: Function) -> bool {
    let tys = p.func(g).param_tys;
    exists|k: int| 0 <= k < tys.len() && #[trigger] tys[k] is Pointer
}

/// Objects touched by function `g`, behind `found`. One that is only declared knows no object of the program; it may
/// touch anything where it is handed an address, and nothing where it is not.
pub open spec fn touched_by(p: ProgramV, g: Function, writing: bool, found: Seq<MemObject>) -> Seq<MemObject> {
    if p.func(g).blocks.len() == 0 {
        if takes_address(p, g) {
            found.push(MemObject::Unknown)
        } else {
            found
        }
    } else {
        touched_in(p, p.placed(g), writing, 0, found)
    }
}

/// Objects touched by those of functions `g..` that a call of `f` may run, behind `found`.
pub open spec fn touched_from(p: ProgramV, f: Function, writing: bool, g: int, found: Seq<MemObject>) -> Seq<MemObject>
    decreases p.funcs.len() - g,
{
    if g >= p.funcs.len() {
        found
    } else if may_run(p, f, Function(g as usize)) {
        touched_from(p, f, writing, g + 1, touched_by(p, Function(g as usize), writing, found))
    } else {
        touched_from(p, f, writing, g + 1, found)
    }
}

/// Objects that a call of `f` may write, or read.
pub open spec fn touched(p: ProgramV, f: Function, writing: bool) -> Seq<MemObject> {
    touched_from(p, f, writing, 0, Seq::empty())
}

/// A call of `f` may run a function that is only declared, hence may do input or output.
pub open spec fn does_io(p: ProgramV, f: Function) -> bool {
    f.0 >= p.funcs.len() || exists|g: int|
        0 <= g < p.funcs.len() && #[trigger] may_run(p, f, Function(g as usize)) && p.func(
            Function(g as usize),
        ).blocks.len() == 0
}

/// A call of `f` leaves no trace but its result.
pub open spec fn removable(p: ProgramV, f: Function) -> bool {
    !does_io(p, f) && touched(p, f, true).len() == 0
}

/// An object that a call may write or read, as its caller names it.
#[derive(Clone, Copy, Debug, PartialEq, Eq, Hash, Structural)]
pub enum WriteRoot {
    Global(Inst),
    Local(Function, Inst),
}

/// An object, local ones together with their function.
#[derive(Clone, Copy, Debug, PartialEq, Eq, Hash, Structural)]
pub enum AbstractObject {
    Global(Inst),
    Alloc(Function, Inst),
    Unknown,
}

/// The roots that stand for `objects[from..]` in `func`, behind `found`; `None` where one is unknown.
pub open spec fn roots_from(objects: Seq<MemObject>, func: Function, from: int, found: Seq<WriteRoot>) -> Option<
    Seq<WriteRoot>,
>
    decreases objects.len() - from,
{
    if from >= objects.len() {
        Some(found)
    } else {
        match objects[from] {
            MemObject::Global(g) => roots_from(objects, func, from + 1, found.push(WriteRoot::Global(g))),
            MemObject::Alloc(a) => roots_from(objects, func, from + 1, found.push(WriteRoot::Local(func, a))),
            MemObject::Unknown => None,
        }
    }
}

/// The roots that a call of `callee` from `func` may write (or read); `None` where they are not known.
pub open spec fn call_roots(p: ProgramV, callee: Function, func: Function, writing: bool) -> Option<Seq<WriteRoot>> {
    if callee.0 < p.funcs.len() {
        roots_from(touched(p, callee, writing), func, 0, Seq::empty())
    } else {
        None
    }
}

/// The roots for a list of objects.
pub fn to_roots(objects: &Vec<MemObject>, func: Function) -> (r: Option<Vec<WriteRoot>>)
    ensures
        match r {
            Some(v) => roots_from(objects@, func, 0, Seq::empty()) == Some(v@),
            None => roots_from(objects@, func, 0, Seq::empty()) is None,
        },
{
    let mut r: Vec<WriteRoot> = Vec::new();
    assert(r@ =~= Seq::empty());
    let mut k: usize = 0;
    while k < objects.len()
        invariant
            k <= objects@.len(),
            roots_from(objects@, func, 0, Seq::empty()) == roots_from(objects@, func, k as int, r@),
        decreases objects@.len() - k,
    {
        match objects[k] {
            MemObject::Global(g) => {
                r.push(WriteRoot::Global(g));
            },
            MemObject::Alloc(a) => {
                r.push(WriteRoot::Local(func, a));
            },
            MemObject::Unknown => {
                return None;
            },
        }
        k += 1;
    }
    Some(r)
}

/// The roots that a call of `callee` from `func` may write.
pub fn call_write_roots(p: &Program, callee: Function, func: Function) -> (r: Option<Vec<WriteRoot>>)
    ensures
        match r {
            Some(v) => call_roots(p@, callee, func, true) == Some(v@),
            None => call_roots(p@, callee, func, true) is None,
        },
{
    if callee.0 < p.num_funcs() {
        let e = effects_of(p, callee);
        to_roots(&e.writes, func)
    } else {
        None
    }
}

/// The roots that a call of `callee` from `func` may read.
pub fn call_read_roots(p: &Program, callee: Function, func: Function) -> (r: Option<Vec<WriteRoot>>)
    ensures
        match r {
            Some(v) => call_roots(p@, callee, func, false) == Some(v@),
            None => call_roots(p@, callee, func, false) is None,
        },
{
    if callee.0 < p.num_funcs() {
        let e = effects_of(p, callee);
        to_roots(&e.reads, func)
    } else {
        None
    }
}

/// What a call of one function may do.
pub struct Effects {
    pub io: bool,
    pub reads: Vec<MemObject>,
    pub writes: Vec<MemObject>,
}

impl Effects {
    pub open spec fn describes(&self, p: ProgramV, f: Function) -> bool {
        &&& self.io == does_io(p, f)
        &&& self.reads@ == touched(p, f, false)
        &&& self.writes@ == touched(p, f, true)
    }

    /// Whether the call may be dropped when its result is unused.
    pub fn is_removable(&self) -> (r: bool)
        ensures
            r == (!self.io && self.writes@.len() == 0),
    {
        !self.io && self.writes.len() == 0
    }

    /// Whether `o` may be among the objects read.
    pub fn may_read(&self, o: MemObject) -> (r: bool)
        ensures
            r == (self.reads@.contains(o) || self.reads@.contains(MemObject::Unknown)),
    {
        has_object(&self.reads, o) || has_object(&self.reads, MemObject::Unknown)
    }

    /// Whether `o` may be among the objects written.
    pub fn may_write(&self, o: MemObject) -> (r: bool)
        ensures
            r == (self.writes@.contains(o) || self.writes@.contains(MemObject::Unknown)),
    {
        has_object(&self.writes, o) || has_object(&self.writes, MemObject::Unknown)
    }
}

/// Whether `v` holds `o`.
pub fn has_object(v: &Vec<MemObject>, o: MemObject) -> (r: bool)
    ensures
        r == v@.contains(o),
{
    let mut i: usize = 0;
    while i < v.len()
        invariant
            i <= v@.len(),
            forall|k: int| 0 <= k < i ==> v@[k] != o,
        decreases v@.len() - i,
    {
        if v[i] == o {
            assert(v@[i as int] == o);
            return true;
        }
        i += 1;
    }
    false
}

fn called(p: &Program, i: Inst) -> (r: Option<Function>)
    ensures
        r == callee_of(p@, i),
{
    match p.op(i) {
        Op::Call(g) => Some(g),
        Op::TailCall(g) => Some(g),
        _ => None,
    }
}

/// The call graph over all functions.
pub fn call_graph(p: &Program) -> (edges: Vec<(usize, usize)>)
    ensures
        edges@ == call_edges(p@),
        in_range(edges@, p@.funcs.len() as int),
{
    let n: usize = p.num_funcs();
    let mut edges: Vec<(usize, usize)> = Vec::new();
    let mut f: usize = 0;
    while f < n
        invariant
            f <= n,
            n == p@.funcs.len(),
            in_range(edges@, n as int),
            call_edges(p@) == calls_from(p@, f as int, edges@),
        decreases n - f,
    {
        let insts = p.placed_insts(Function(f));
        let ghost start = edges@;
        let mut k: usize = 0;
        while k < insts.len()
            invariant
                k <= insts@.len(),
                f < n,
                n == p@.funcs.len(),
                in_range(edges@, n as int),
                calls_in(p@, f, insts@, 0, start) == calls_in(p@, f, insts@, k as int, edges@),
            decreases insts@.len() - k,
        {
            if let Some(g) = called(p, insts[k]) {
                if g.0 < n {
                    edges.push((f, g.0));
                }
            }
            k += 1;
        }
        f += 1;
    }
    edges
}

/// The object that `i` touches.
pub fn object_touched(p: &Program, i: Inst, writing: bool) -> (r: Option<MemObject>)
    ensures
        r == touched_at(p@, i, writing),
{
    let o = match p.op(i) {
        Op::Store => if writing {
            Some(base_of(p, p.arg(i, 1)))
        } else {
            None
        },
        Op::MemZero(_) => if writing {
            Some(base_of(p, p.arg(i, 0)))
        } else {
            None
        },
        Op::MemZeroDyn => if writing {
            Some(base_of(p, p.arg(i, 0)))
        } else {
            None
        },
        Op::Load => if writing {
            None
        } else {
            Some(base_of(p, p.arg(i, 0)))
        },
        _ => None,
    };
    match o {
        Some(MemObject::Alloc(_)) => None,
        _ => o,
    }
}

fn is_handed_address(p: &Program, g: Function) -> (r: bool)
    ensures
        r == takes_address(p@, g),
{
    let n: usize = p.num_params(g);
    let mut k: usize = 0;
    while k < n
        invariant
            k <= n,
            n == p@.func(g).param_tys.len(),
            forall|j: int| 0 <= j < k ==> !(#[trigger] p@.func(g).param_tys[j] is Pointer),
        decreases n - k,
    {
        if let Type::Pointer(_) = p.param_ty(g, k) {
            assert(p@.func(g).param_tys[k as int] is Pointer);
            return true;
        }
        k += 1;
    }
    false
}

fn objects_touched(p: &Program, f: Function, seen: &Vec<bool>, writing: bool) -> (r: Vec<MemObject>)
    requires
        seen@.len() == p@.funcs.len(),
        forall|g: int| 0 <= g < seen@.len() ==> #[trigger] seen@[g] == may_run(p@, f, Function(g as usize)),
    ensures
        r@ == touched(p@, f, writing),
{
    let mut r: Vec<MemObject> = Vec::new();
    let mut g: usize = 0;
    while g < seen.len()
        invariant
            g <= seen@.len(),
            seen@.len() == p@.funcs.len(),
            forall|h: int| 0 <= h < seen@.len() ==> #[trigger] seen@[h] == may_run(p@, f, Function(h as usize)),
            touched(p@, f, writing) == touched_from(p@, f, writing, g as int, r@),
        decreases seen@.len() - g,
    {
        if seen[g] && p.is_decl(Function(g)) {
            if is_handed_address(p, Function(g)) {
                r.push(MemObject::Unknown);
            }
        } else if seen[g] {
            let insts = p.placed_insts(Function(g));
            let ghost start = r@;
            let mut k: usize = 0;
            while k < insts.len()
                invariant
                    k <= insts@.len(),
                    touched_in(p@, insts@, writing, 0, start) == touched_in(p@, insts@, writing, k as int, r@),
                decreases insts@.len() - k,
            {
                if let Some(o) = object_touched(p, insts[k], writing) {
                    r.push(o);
                }
                k += 1;
            }
        }
        g += 1;
    }
    r
}

/// What a call of `f` may do.
pub fn effects_of(p: &Program, f: Function) -> (r: Effects)
    requires
        f.0 < p@.funcs.len(),
    ensures
        r.describes(p@, f),
{
    let edges = call_graph(p);
    let n: usize = p.num_funcs();
    let seen = reachable(n, &edges, f.0, usize::MAX);
    assert forall|g: int| 0 <= g < seen@.len() implies #[trigger] seen@[g] == may_run(p@, f, Function(g as usize)) by {}
    let mut io = false;
    let mut g: usize = 0;
    while g < n && !io
        invariant
            g <= n,
            n == p@.funcs.len(),
            n == seen@.len(),
            f.0 < n,
            forall|h: int| 0 <= h < n ==> #[trigger] seen@[h] == may_run(p@, f, Function(h as usize)),
            io ==> does_io(p@, f),
            !io ==> forall|h: int|
                0 <= h < g ==> !(#[trigger] may_run(p@, f, Function(h as usize)) && p@.func(
                    Function(h as usize),
                ).blocks.len() == 0),
        decreases n - g, !io as int,
    {
        assert(seen@[g as int] == may_run(p@, f, Function(g)));
        if seen[g] && p.is_decl(Function(g)) {
            assert(may_run(p@, f, Function(g as int as usize)));
            io = true;
        }
        g += 1;
    }
    let reads = objects_touched(p, f, &seen, false);
    let writes = objects_touched(p, f, &seen, true);
    Effects { io, reads, writes }
}

/// Whether a call of `f` may be dropped when its result is unused.
pub fn is_removable(p: &Program, f: Function) -> (r: bool)
    ensures
        r == removable(p@, f),
{
    if f.0 >= p.num_funcs() {
        return false;
    }
    effects_of(p, f).is_removable()
}

proof fn lemma_touched_in(p: ProgramV, insts: Seq<Inst>, writing: bool, from: int, found: Seq<MemObject>, o: MemObject)
    requires
        0 <= from <= insts.len(),
    ensures
        touched_in(p, insts, writing, from, found).contains(o) <==> found.contains(o) || exists|k: int|
            from <= k < insts.len() && #[trigger] touched_at(p, insts[k], writing) == Some(o),
    decreases insts.len() - from,
{
    if from < insts.len() {
        let next = match touched_at(p, insts[from], writing) {
            Some(x) => found.push(x),
            None => found,
        };
        lemma_touched_in(p, insts, writing, from + 1, next, o);
        if let Some(x) = touched_at(p, insts[from], writing) {
            assert(next[found.len() as int] == x);
            if found.contains(o) {
                let i = choose|i: int| 0 <= i < found.len() && found[i] == o;
                assert(next[i] == o);
            }
            if next.contains(o) && !found.contains(o) {
                let i = choose|i: int| 0 <= i < next.len() && next[i] == o;
                assert(i == found.len() ==> x == o);
                if i < found.len() {
                    assert(found[i] == o);
                }
            }
        }
    }
}

/// Running function `g` may touch `o`.
pub open spec fn may_touch(p: ProgramV, g: Function, writing: bool, o: MemObject) -> bool {
    if p.func(g).blocks.len() == 0 {
        takes_address(p, g) && o == MemObject::Unknown
    } else {
        exists|k: int| 0 <= k < p.placed(g).len() && #[trigger] touched_at(p, p.placed(g)[k], writing) == Some(o)
    }
}

proof fn lemma_touched_from(p: ProgramV, f: Function, writing: bool, g: int, found: Seq<MemObject>, o: MemObject)
    requires
        0 <= g <= p.funcs.len(),
    ensures
        touched_from(p, f, writing, g, found).contains(o) <==> found.contains(o) || exists|h: int|
            g <= h < p.funcs.len() && #[trigger] may_run(p, f, Function(h as usize)) && may_touch(
                p,
                Function(h as usize),
                writing,
                o,
            ),
    decreases p.funcs.len() - g,
{
    if g < p.funcs.len() {
        let here = Function(g as usize);
        if may_run(p, f, here) {
            let next = touched_by(p, here, writing, found);
            lemma_touched_in(p, p.placed(here), writing, 0, found, o);
            if p.func(here).blocks.len() == 0 && takes_address(p, here) {
                assert(next[found.len() as int] == MemObject::Unknown);
                if found.contains(o) {
                    let i = choose|i: int| 0 <= i < found.len() && found[i] == o;
                    assert(next[i] == o);
                }
                if next.contains(o) && !found.contains(o) {
                    let i = choose|i: int| 0 <= i < next.len() && next[i] == o;
                    if i < found.len() {
                        assert(found[i] == o);
                    }
                }
            }
            assert(next.contains(o) <==> found.contains(o) || may_touch(p, here, writing, o));
            lemma_touched_from(p, f, writing, g + 1, next, o);
        } else {
            lemma_touched_from(p, f, writing, g + 1, found, o);
        }
    }
}

/// The objects a call may touch are exactly those that some function it may run touches.
pub proof fn touched_is_exact(p: ProgramV, f: Function, writing: bool, o: MemObject)
    ensures
        touched(p, f, writing).contains(o) <==> exists|h: int|
            0 <= h < p.funcs.len() && #[trigger] may_run(p, f, Function(h as usize)) && may_touch(
                p,
                Function(h as usize),
                writing,
                o,
            ),
{
    lemma_touched_from(p, f, writing, 0, Seq::empty(), o);
}

proof fn lemma_calls_in(p: ProgramV, f: usize, insts: Seq<Inst>, from: int, found: Seq<(usize, usize)>, e: (usize, usize))
    requires
        0 <= from <= insts.len(),
        found.contains(e) || (e.0 == f && e.1 < p.funcs.len() && exists|k: int|
            from <= k < insts.len() && (p.op(#[trigger] insts[k]) == Op::Call(Function(e.1)) || p.op(insts[k])
                == Op::TailCall(Function(e.1)))),
    ensures
        calls_in(p, f, insts, from, found).contains(e),
    decreases insts.len() - from,
{
    if from < insts.len() {
        let next = match callee_of(p, insts[from]) {
            Some(g) => if g.0 < p.funcs.len() {
                found.push((f, g.0))
            } else {
                found
            },
            None => found,
        };
        if found.contains(e) {
            let k = found.index_of(e);
            assert(next[k] == e);
        } else {
            let k = choose|k: int|
                from <= k < insts.len() && (p.op(#[trigger] insts[k]) == Op::Call(Function(e.1)) || p.op(insts[k])
                    == Op::TailCall(Function(e.1)));
            if k == from {
                assert(next[found.len() as int] == e);
            }
        }
        lemma_calls_in(p, f, insts, from + 1, next, e);
    }
}

proof fn lemma_calls_from(p: ProgramV, f: int, found: Seq<(usize, usize)>, g: Function, i: Inst, h: Function)
    requires
        p.funcs.len() <= usize::MAX,
        0 <= f,
        found.contains((g.0, h.0)) || (f <= g.0 < p.funcs.len() && h.0 < p.funcs.len() && p.placed(g).contains(i) && (p.op(i)
            == Op::Call(h) || p.op(i) == Op::TailCall(h))),
    ensures
        calls_from(p, f, found).contains((g.0, h.0)),
    decreases p.funcs.len() - f,
{
    if f < p.funcs.len() {
        let insts = p.placed(Function(f as usize));
        if !found.contains((g.0, h.0)) && f == g.0 {
            assert(Function(f as usize) == g);
            let k = insts.index_of(i);
            assert(insts[k] == i);
            assert(Function(h.0) == h);
        }
        if found.contains((g.0, h.0)) || f == g.0 {
            lemma_calls_in(p, f as usize, insts, 0, found, (g.0, h.0));
        }
        lemma_calls_from(p, f + 1, calls_in(p, f as usize, insts, 0, found), g, i, h);
    }
}

/// Running `f` may come to `g`: it is `f`, or an instruction of what it may come to calls it.
pub open spec fn comes_to(p: ProgramV, f: Function, g: Function, n: nat) -> bool
    decreases n,
{
    if n == 0 {
        f == g
    } else {
        exists|h: Function, i: Inst|
            comes_to(p, f, h, (n - 1) as nat) && h.0 < p.funcs.len() && #[trigger] p.placed(h).contains(i) && (p.op(i)
                == Op::Call(g) || p.op(i) == Op::TailCall(g))
    }
}

/// A function that a call may come to, however far down, is one that it may run.
pub proof fn calls_are_followed(p: ProgramV, f: Function, g: Function, n: nat)
    requires
        p.funcs.len() <= usize::MAX,
        comes_to(p, f, g, n),
        g.0 < p.funcs.len(),
    ensures
        may_run(p, f, g),
    decreases n,
{
    if n == 0 {
        assert(reach_in(call_edges(p), none(), f.0 as int, g.0 as int, 0));
    } else {
        let (h, i) = choose|h: Function, i: Inst|
            comes_to(p, f, h, (n - 1) as nat) && h.0 < p.funcs.len() && #[trigger] p.placed(h).contains(i) && (p.op(i)
                == Op::Call(g) || p.op(i) == Op::TailCall(g));
        calls_are_followed(p, f, h, (n - 1) as nat);
        lemma_calls_from(p, 0, Seq::empty(), h, i, g);
        let edges = call_edges(p);
        let k = edges.index_of((h.0, g.0));
        let m = choose|m: nat| reach_in(edges, none(), f.0 as int, h.0 as int, m);
        assert(edges[k].1 == g.0);
        assert(reach_in(edges, none(), f.0 as int, g.0 as int, m + 1));
    }
}

proof fn lemma_roots(objects: Seq<MemObject>, func: Function, from: int, found: Seq<WriteRoot>)
    requires
        0 <= from <= objects.len(),
    ensures
        roots_from(objects, func, from, found) matches Some(roots) ==> {
            &&& forall|k: int| from <= k < objects.len() ==> #[trigger] objects[k] != MemObject::Unknown
            &&& forall|r: WriteRoot| #[trigger] found.contains(r) ==> roots.contains(r)
            &&& forall|k: int|
                from <= k < objects.len() ==> ((#[trigger] objects[k]) matches MemObject::Global(g) ==> roots.contains(
                    WriteRoot::Global(g),
                ))
        },
    decreases objects.len() - from,
{
    if from < objects.len() && objects[from] != MemObject::Unknown {
        let r = match objects[from] {
            MemObject::Global(g) => WriteRoot::Global(g),
            MemObject::Alloc(a) => WriteRoot::Local(func, a),
            MemObject::Unknown => WriteRoot::Global(crate::ir::nothing()),
        };
        let next = found.push(r);
        lemma_roots(objects, func, from + 1, next);
        assert(next[found.len() as int] == r);
        assert(next.contains(r));
        assert forall|x: WriteRoot| #[trigger] found.contains(x) implies next.contains(x) by {
            let k = found.index_of(x);
            assert(next[k] == x);
        }
    }
}

/// A call that may come to a function without a body that is handed an address, as any of its parameters, may read
/// and write everything.
pub proof fn an_address_handed_out_may_be_used(
    p: ProgramV,
    callee: Function,
    func: Function,
    g: Function,
    n: nat,
    k: int,
    writing: bool,
)
    requires
        p.funcs.len() <= usize::MAX,
        comes_to(p, callee, g, n),
        g.0 < p.funcs.len(),
        p.func(g).blocks.len() == 0,
        0 <= k < p.func(g).param_tys.len(),
        p.func(g).param_tys[k] is Pointer,
    ensures
        call_roots(p, callee, func, writing) is None,
{
    calls_are_followed(p, callee, g, n);
    touched_is_exact(p, callee, writing, MemObject::Unknown);
    assert(Function(g.0) == g);
    let h = g.0 as int;
    assert(may_run(p, callee, Function(h as usize)) && may_touch(p, Function(h as usize), writing, MemObject::Unknown));
    let objects = touched(p, callee, writing);
    let j = objects.index_of(MemObject::Unknown);
    lemma_roots(objects, func, 0, Seq::empty());
    assert(objects[j] == MemObject::Unknown);
}

/// Instruction `i` writes, or reads, through address `addr`.
pub open spec fn goes_through(p: ProgramV, i: Inst, writing: bool, addr: Inst) -> bool {
    if writing {
        (p.op(i) is Store && addr == p.arg(i, 1)) || ((p.op(i) is MemZero || p.op(i) is MemZeroDyn) && addr == p.arg(i, 0))
    } else {
        p.op(i) is Load && addr == p.arg(i, 0)
    }
}

/// A call that may come to an instruction that writes, or reads, a global says so, and one that may come to an
/// instruction whose object is not known says that it may touch everything.
pub proof fn what_a_call_touches_is_told(
    p: ProgramV,
    callee: Function,
    func: Function,
    g: Function,
    n: nat,
    i: Inst,
    writing: bool,
    addr: Inst,
)
    requires
        p.funcs.len() <= usize::MAX,
        comes_to(p, callee, g, n),
        g.0 < p.funcs.len(),
        p.placed(g).contains(i),
        goes_through(p, i, writing, addr),
    ensures
        object_of(p, addr) is Unknown ==> call_roots(p, callee, func, writing) is None,
        object_of(p, addr) matches MemObject::Global(x) ==> (call_roots(p, callee, func, writing) matches Some(roots)
            ==> roots.contains(WriteRoot::Global(x))),
        writing && !(object_of(p, addr) is Alloc) ==> !removable(p, callee),
{
    let o = object_of(p, addr);
    if !(o is Alloc) {
        calls_are_followed(p, callee, g, n);
        touched_is_exact(p, callee, writing, o);
        assert(Function(g.0) == g);
        let h = g.0 as int;
        let k = p.placed(g).index_of(i);
        assert(p.placed(g)[k] == i);
        assert(touched_at(p, p.placed(g)[k], writing) == Some(o));
        if p.func(g).blocks.len() == 0 {
            assert(p.placed(g) =~= Seq::empty());
        }
        assert(may_run(p, callee, Function(h as usize)) && may_touch(p, Function(h as usize), writing, o));
        let objects = touched(p, callee, writing);
        let j = objects.index_of(o);
        assert(objects[j] == o);
        lemma_roots(objects, func, 0, Seq::empty());
    }
}

/// A call that may come to a function without a body may do input or output, and is not removed.
pub proof fn functions_without_a_body_do_io(p: ProgramV, callee: Function, g: Function, n: nat)
    requires
        p.funcs.len() <= usize::MAX,
        comes_to(p, callee, g, n),
        g.0 < p.funcs.len(),
        p.func(g).blocks.len() == 0,
    ensures
        does_io(p, callee),
        !removable(p, callee),
{
    calls_are_followed(p, callee, g, n);
    assert(Function(g.0) == g);
    let h = g.0 as int;
    assert(may_run(p, callee, Function(h as usize)) && p.func(Function(h as usize)).blocks.len() == 0);
}

} // verus!
