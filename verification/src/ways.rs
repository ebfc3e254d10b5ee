//! Where control may get in the whole program.
//!
//! A way follows control in a function, over calls that return, into callees, and back out to the callers of
//! the function that it began in. What a completed call did is not followed; a wall stops a way.

use vstd::prelude::*;

use crate::cfg::none;
use crate::dce::{get_main_function, main_of};
use crate::graph::{reachable, reaches};
use crate::ipsccp::{first_inst, first_of, following, next_of, start_inst, start_of};
use crate::ir::{has_inst, Function, Inst, Op, ProgramV};
use crate::lattice::{cell_of, resolve_cell, CellKey};
use crate::program::Program;
use crate::program_order::Node;

verus! {

/// Programs beyond this size are not looked into: every way is taken to be there.
pub const LIMIT: usize = 0x1000_0000;

pub open spec fn is_small(p: ProgramV) -> bool {
    p.insts.len() <= LIMIT && p.funcs.len() <= LIMIT
}

/// Each instruction twice, as reached while still going back out and after going in, and the end of each
/// function.
pub open spec fn points(p: ProgramV) -> int {
    2 * p.insts.len() as int + p.funcs.len() as int
}

/// Instruction `i` after going into a callee.
pub open spec fn inner(p: ProgramV, i: Inst) -> int {
    p.insts.len() as int + i.0
}

/// The end of function `f`.
pub open spec fn exit(p: ProgramV, f: Function) -> int {
    2 * p.insts.len() as int + f.0
}

pub open spec fn link(p: ProgramV, a: int, b: int) -> Seq<(usize, usize)> {
    if 0 <= a < points(p) && 0 <= b < points(p) {
        seq![(a as usize, b as usize)]
    } else {
        Seq::empty()
    }
}

/// The link to instruction `to`, where there is one; both ends are raised by `lift`.
pub open spec fn link_to(p: ProgramV, i: Inst, to: Option<Inst>, lift: int) -> Seq<(usize, usize)> {
    match to {
        Some(x) => if i.0 < p.insts.len() && x.0 < p.insts.len() {
            link(p, i.0 + lift, x.0 + lift)
        } else {
            Seq::empty()
        },
        None => Seq::empty(),
    }
}

/// Where control gets from `i` in its function, over a call that returns.
pub open spec fn flow_links(p: ProgramV, f: Function, i: Inst, lift: int) -> Seq<(usize, usize)> {
    match p.op(i) {
        Op::Jump(t) => link_to(p, i, first_of(p, t), lift),
        Op::Branch(t, e, _) => link_to(p, i, first_of(p, t), lift) + link_to(p, i, first_of(p, e), lift),
        Op::Return => Seq::empty(),
        Op::TailCall(_) => Seq::empty(),
        _ => link_to(p, i, next_of(p, f, i), lift),
    }
}

/// A tail call that returns ends its function.
pub open spec fn tail_links(p: ProgramV, f: Function, i: Inst) -> Seq<(usize, usize)> {
    if p.op(i) is TailCall {
        link(p, i.0 as int, exit(p, f))
    } else {
        Seq::empty()
    }
}

/// The call at `i` goes into `g`.
pub open spec fn entry_links(p: ProgramV, i: Inst, g: Function) -> Seq<(usize, usize)> {
    match start_of(p, g) {
        Some(s) => if i.0 < p.insts.len() && s.0 < p.insts.len() {
            link(p, i.0 as int, inner(p, s)) + link(p, inner(p, i), inner(p, s))
        } else {
            Seq::empty()
        },
        None => Seq::empty(),
    }
}

/// The end of `g` leads back behind the call at `i` of function `f`.
pub open spec fn call_links(p: ProgramV, f: Function, i: Inst) -> Seq<(usize, usize)> {
    match p.op(i) {
        Op::Return => link(p, i.0 as int, exit(p, f)),
        Op::Call(g) => entry_links(p, i, g) + (match next_of(p, f, i) {
            Some(x) => if x.0 < p.insts.len() {
                link(p, exit(p, g), x.0 as int)
            } else {
                Seq::empty()
            },
            None => Seq::empty(),
        }),
        Op::TailCall(g) => entry_links(p, i, g) + link(p, exit(p, g), exit(p, f)),
        _ => Seq::empty(),
    }
}

/// The links of instruction `i`; behind the walls nothing follows in the function. With `calls` the links
/// between functions count too.
pub open spec fn links(p: ProgramV, walls: Seq<Inst>, calls: bool, f: Function, i: Inst) -> Seq<(usize, usize)> {
    let open = if walls.contains(i) {
        Seq::empty()
    } else if calls {
        flow_links(p, f, i, 0) + flow_links(p, f, i, p.insts.len() as int) + tail_links(p, f, i)
    } else {
        flow_links(p, f, i, 0)
    };
    if calls {
        open + call_links(p, f, i)
    } else {
        open
    }
}

/// The links of `insts[from..]` of `f`, behind `found`.
pub open spec fn links_in(
    p: ProgramV,
    walls: Seq<Inst>,
    calls: bool,
    f: Function,
    insts: Seq<Inst>,
    from: int,
    found: Seq<(usize, usize)>,
) -> Seq<(usize, usize)>
    decreases insts.len() - from,
{
    if from >= insts.len() {
        found
    } else {
        links_in(p, walls, calls, f, insts, from + 1, found + links(p, walls, calls, f, insts[from]))
    }
}

/// The links of functions `f..`, behind `found`.
pub open spec fn links_from(p: ProgramV, walls: Seq<Inst>, calls: bool, f: int, found: Seq<(usize, usize)>) -> Seq<
    (usize, usize),
>
    decreases p.funcs.len() - f,
{
    if f >= p.funcs.len() {
        found
    } else {
        let g = Function(f as usize);
        links_from(p, walls, calls, f + 1, links_in(p, walls, calls, g, p.placed(g), 0, found))
    }
}

pub open spec fn all_links(p: ProgramV, walls: Seq<Inst>, calls: bool) -> Seq<(usize, usize)> {
    links_from(p, walls, calls, 0, Seq::empty())
}

/// Some way leads from point `s` to point `t`.
pub open spec fn is_way(p: ProgramV, walls: Seq<Inst>, calls: bool, s: int, t: int) -> bool {
    reaches(all_links(p, walls, calls), none(), s, t)
}

/// Some way leads from point `s` to instruction `i`.
pub open spec fn gets_to(p: ProgramV, walls: Seq<Inst>, calls: bool, s: int, i: Inst) -> bool {
    is_way(p, walls, calls, s, i.0 as int) || (calls && is_way(p, walls, calls, s, inner(p, i)))
}

/// Some way leads from behind instruction `w` to instruction `i`.
pub open spec fn comes_after(p: ProgramV, walls: Seq<Inst>, calls: bool, w: Node, i: Inst) -> bool {
    let outs = flow_links(p, w.func, w.inst, 0);
    exists|k: int| 0 <= k < outs.len() && gets_to(p, walls, calls, (#[trigger] outs[k]).1 as int, i)
}

/// Some way leads from the start of the program to instruction `i`.
pub open spec fn comes_from_start(p: ProgramV, walls: Seq<Inst>, i: Inst) -> bool {
    match main_of(p) {
        Some(main) => match start_of(p, main) {
            Some(s) => s.0 < p.insts.len() && is_way(p, walls, true, inner(p, s), inner(p, i)),
            None => false,
        },
        None => false,
    }
}

/// Instruction `i` of `f` is a store to `key`.
pub open spec fn stores_to(p: ProgramV, key: CellKey, f: Function, i: Inst) -> bool {
    p.op(i) is Store && (cell_of(p, f, p.arg(i, 1)) matches Some((k, _)) && k == key)
}

/// The stores to `key` among `insts[from..]` of `f`, behind `found`.
pub open spec fn stores_in(p: ProgramV, key: CellKey, f: Function, insts: Seq<Inst>, from: int, found: Seq<Inst>) -> Seq<
    Inst,
>
    decreases insts.len() - from,
{
    if from >= insts.len() {
        found
    } else if stores_to(p, key, f, insts[from]) {
        stores_in(p, key, f, insts, from + 1, found.push(insts[from]))
    } else {
        stores_in(p, key, f, insts, from + 1, found)
    }
}

/// The stores to `key` in functions `f..`, behind `found`.
pub open spec fn stores_from(p: ProgramV, key: CellKey, f: int, found: Seq<Inst>) -> Seq<Inst>
    decreases p.funcs.len() - f,
{
    if f >= p.funcs.len() {
        found
    } else {
        let g = Function(f as usize);
        stores_from(p, key, f + 1, stores_in(p, key, g, p.placed(g), 0, found))
    }
}

/// All stores to `key`.
pub open spec fn all_stores(p: ProgramV, key: CellKey) -> Seq<Inst> {
    stores_from(p, key, 0, Seq::empty())
}

/// A run of `g` may end without passing one of `stores`.
pub open spec fn can_end(p: ProgramV, stores: Seq<Inst>, g: Function, s: Inst) -> bool {
    let insts = p.placed(g);
    exists|k: int|
        0 <= k < insts.len() && (p.op(#[trigger] insts[k]) is Return || p.op(insts[k]) is TailCall) && is_way(
            p,
            stores,
            false,
            s.0 as int,
            insts[k].0 as int,
        )
}

/// The call at `i` does not return without passing one of `stores`.
pub open spec fn surely_stores(p: ProgramV, stores: Seq<Inst>, i: Inst) -> bool {
    match p.op(i) {
        Op::Call(g) => start_of(p, g) is Some && !can_end(p, stores, g, start_of(p, g)->0),
        Op::TailCall(g) => start_of(p, g) is Some && !can_end(p, stores, g, start_of(p, g)->0),
        _ => false,
    }
}

/// The calls among `insts[from..]` that do not return without passing one of `stores`, behind `found`.
pub open spec fn sure_calls_in(p: ProgramV, stores: Seq<Inst>, insts: Seq<Inst>, from: int, found: Seq<Inst>) -> Seq<Inst>
    decreases insts.len() - from,
{
    if from >= insts.len() {
        found
    } else if surely_stores(p, stores, insts[from]) {
        sure_calls_in(p, stores, insts, from + 1, found.push(insts[from]))
    } else {
        sure_calls_in(p, stores, insts, from + 1, found)
    }
}

/// Such calls in functions `f..`, behind `found`.
pub open spec fn sure_calls_from(p: ProgramV, stores: Seq<Inst>, f: int, found: Seq<Inst>) -> Seq<Inst>
    decreases p.funcs.len() - f,
{
    if f >= p.funcs.len() {
        found
    } else {
        sure_calls_from(p, stores, f + 1, sure_calls_in(p, stores, p.placed(Function(f as usize)), 0, found))
    }
}

/// What surely stores to `key`: the stores, and the calls that do not return without one.
pub open spec fn walls_of(p: ProgramV, key: CellKey) -> Seq<Inst> {
    sure_calls_from(p, all_stores(p, key), 0, all_stores(p, key))
}

/// Store `w` to `key` may have been run when the load is: in the same run of the function, where the cell is
/// local, else in any.
pub open spec fn may_have_stored(p: ProgramV, key: CellKey, w: Node, load: Node) -> bool {
    !is_small(p) || match key {
        CellKey::Local(_, _, _) => comes_after(p, Seq::empty(), false, w, load.inst),
        CellKey::Global(_, _) => comes_after(p, Seq::empty(), true, w, load.inst),
    }
}

/// The clearing of memory at `z` may be the last write to `key` before the load.
pub open spec fn may_have_cleared(p: ProgramV, key: CellKey, z: Node, load: Node) -> bool {
    !is_small(p) || match key {
        CellKey::Local(_, _, _) => comes_after(p, all_stores(p, key), false, z, load.inst),
        CellKey::Global(_, _) => comes_after(p, walls_of(p, key), true, z, load.inst),
    }
}

/// The load may be run before anything is stored to the global cell `key`.
pub open spec fn may_be_first(p: ProgramV, key: CellKey, load: Node) -> bool {
    key is Global && (!is_small(p) || comes_from_start(p, walls_of(p, key), load.inst))
}

/// The links stay among the points.
pub open spec fn in_points(p: ProgramV, s: Seq<(usize, usize)>) -> bool {
    forall|k: int| 0 <= k < s.len() ==> (#[trigger] s[k]).0 < points(p) && s[k].1 < points(p)
}

fn push_link(p: &Program, out: &mut Vec<(usize, usize)>, a: usize, b: usize)
    requires
        is_small(p@),
        in_points(p@, old(out)@),
    ensures
        final(out)@ == old(out)@ + link(p@, a as int, b as int),
        in_points(p@, final(out)@),
{
    let n: usize = 2 * p.num_insts() + p.num_funcs();
    let ghost start = out@;
    if a < n && b < n {
        out.push((a, b));
        assert(out@ =~= start + seq![(a, b)]);
    } else {
        assert(out@ =~= start + Seq::empty());
    }
}

fn push_link_to(p: &Program, out: &mut Vec<(usize, usize)>, i: Inst, to: Option<Inst>, lift: usize)
    requires
        is_small(p@),
        lift <= p@.insts.len(),
        in_points(p@, old(out)@),
    ensures
        final(out)@ == old(out)@ + link_to(p@, i, to, lift as int),
        in_points(p@, final(out)@),
{
    let n: usize = p.num_insts();
    let ghost start = out@;
    if let Some(x) = to {
        if i.0 < n && x.0 < n {
            push_link(p, out, i.0 + lift, x.0 + lift);
            return;
        }
    }
    assert(out@ =~= start + Seq::empty());
}

fn push_flow(p: &Program, out: &mut Vec<(usize, usize)>, f: Function, i: Inst, lift: usize)
    requires
        is_small(p@),
        lift <= p@.insts.len(),
        in_points(p@, old(out)@),
    ensures
        final(out)@ == old(out)@ + flow_links(p@, f, i, lift as int),
        in_points(p@, final(out)@),
{
    let ghost start = out@;
    match p.op(i) {
        Op::Jump(t) => {
            push_link_to(p, out, i, first_inst(p, t), lift);
        },
        Op::Branch(t, e, _) => {
            push_link_to(p, out, i, first_inst(p, t), lift);
            push_link_to(p, out, i, first_inst(p, e), lift);
            assert(out@ =~= start + flow_links(p@, f, i, lift as int));
        },
        Op::Return | Op::TailCall(_) => {
            assert(out@ =~= start + flow_links(p@, f, i, lift as int));
        },
        _ => {
            push_link_to(p, out, i, following(p, f, i), lift);
        },
    }
}

fn push_entry(p: &Program, out: &mut Vec<(usize, usize)>, i: Inst, g: Function)
    requires
        is_small(p@),
        in_points(p@, old(out)@),
    ensures
        final(out)@ == old(out)@ + entry_links(p@, i, g),
        in_points(p@, final(out)@),
{
    let n: usize = p.num_insts();
    let ghost start = out@;
    if let Some(s) = start_inst(p, g) {
        if i.0 < n && s.0 < n {
            push_link(p, out, i.0, n + s.0);
            push_link(p, out, n + i.0, n + s.0);
            assert(out@ =~= start + entry_links(p@, i, g));
            return;
        }
    }
    assert(out@ =~= start + Seq::empty());
}

fn push_calls(p: &Program, out: &mut Vec<(usize, usize)>, f: Function, i: Inst)
    requires
        is_small(p@),
        f.0 < p@.funcs.len(),
        in_points(p@, old(out)@),
    ensures
        final(out)@ == old(out)@ + call_links(p@, f, i),
        in_points(p@, final(out)@),
{
    let n: usize = p.num_insts();
    let m: usize = p.num_funcs();
    let ghost start = out@;
    match p.op(i) {
        Op::Return => {
            push_link(p, out, i.0, 2 * n + f.0);
        },
        Op::Call(g) => {
            push_entry(p, out, i, g);
            let ghost mid = out@;
            if let Some(x) = following(p, f, i) {
                if x.0 < n && g.0 < m {
                    push_link(p, out, 2 * n + g.0, x.0);
                } else {
                    assert(out@ =~= mid + Seq::empty());
                }
            } else {
                assert(out@ =~= mid + Seq::empty());
            }
            assert(out@ =~= start + call_links(p@, f, i));
        },
        Op::TailCall(g) => {
            push_entry(p, out, i, g);
            let ghost mid = out@;
            if g.0 < m {
                push_link(p, out, 2 * n + g.0, 2 * n + f.0);
            } else {
                assert(out@ =~= mid + Seq::empty());
            }
            assert(out@ =~= start + call_links(p@, f, i));
        },
        _ => {
            assert(out@ =~= start + Seq::empty());
        },
    }
}

fn push_links(p: &Program, out: &mut Vec<(usize, usize)>, walls: &Vec<Inst>, calls: bool, f: Function, i: Inst)
    requires
        is_small(p@),
        f.0 < p@.funcs.len(),
        in_points(p@, old(out)@),
    ensures
        final(out)@ == old(out)@ + links(p@, walls@, calls, f, i),
        in_points(p@, final(out)@),
{
    let n: usize = p.num_insts();
    let ghost start = out@;
    if !has_inst(walls, i) {
        push_flow(p, out, f, i, 0);
        if calls {
            push_flow(p, out, f, i, n);
            let ghost mid = out@;
            match p.op(i) {
                Op::TailCall(_) => {
                    push_link(p, out, i.0, 2 * n + f.0);
                },
                _ => {
                    assert(out@ =~= mid + Seq::empty());
                },
            }
        }
    }
    if calls {
        push_calls(p, out, f, i);
    }
    assert(out@ =~= start + links(p@, walls@, calls, f, i));
}

fn link_list(p: &Program, walls: &Vec<Inst>, calls: bool) -> (out: Vec<(usize, usize)>)
    requires
        is_small(p@),
    ensures
        out@ == all_links(p@, walls@, calls),
        in_points(p@, out@),
{
    let m: usize = p.num_funcs();
    let mut out: Vec<(usize, usize)> = Vec::new();
    assert(out@ =~= Seq::empty());
    let mut f: usize = 0;
    while f < m
        invariant
            f <= m == p@.funcs.len(),
            is_small(p@),
            in_points(p@, out@),
            all_links(p@, walls@, calls) == links_from(p@, walls@, calls, f as int, out@),
        decreases m - f,
    {
        let g = Function(f);
        let insts = p.placed_insts(g);
        let ghost before = out@;
        let mut k: usize = 0;
        while k < insts.len()
            invariant
                k <= insts@.len(),
                is_small(p@),
                g.0 < p@.funcs.len(),
                in_points(p@, out@),
                links_in(p@, walls@, calls, g, insts@, 0, before) == links_in(
                    p@,
                    walls@,
                    calls,
                    g,
                    insts@,
                    k as int,
                    out@,
                ),
            decreases insts@.len() - k,
        {
            push_links(p, &mut out, walls, calls, g, insts[k]);
            k += 1;
        }
        f += 1;
    }
    out
}

fn fits(p: &Program) -> (r: bool)
    ensures
        r == is_small(p@),
{
    p.num_insts() <= LIMIT && p.num_funcs() <= LIMIT
}

/// Marks the points that are reached from `s`.
fn reached_from(p: &Program, walls: &Vec<Inst>, calls: bool, s: usize) -> (seen: Vec<bool>)
    requires
        is_small(p@),
        s < points(p@),
    ensures
        seen@.len() == points(p@),
        forall|t: int| 0 <= t < points(p@) ==> #[trigger] seen@[t] == is_way(p@, walls@, calls, s as int, t),
{
    let edges = link_list(p, walls, calls);
    let n: usize = 2 * p.num_insts() + p.num_funcs();
    reachable(n, &edges, s, usize::MAX)
}

/// A way stays among the points.
pub(crate) proof fn lemma_way_in_points(p: ProgramV, walls: Seq<Inst>, calls: bool, s: int, t: int)
    requires
        is_small(p),
        0 <= s < points(p),
        is_way(p, walls, calls, s, t),
    ensures
        0 <= t < points(p),
{
    let edges = all_links(p, walls, calls);
    let n = choose|n: nat| crate::graph::reach_in(edges, none(), s, t, n);
    lemma_links_in_points(p, walls, calls, 0, Seq::empty());
    if n > 0 {
        let k = choose|k: int|
            0 <= k < edges.len() && (#[trigger] edges[k]).1 == t && crate::graph::reach_in(
                edges,
                none(),
                s,
                edges[k].0 as int,
                (n - 1) as nat,
            );
        assert(edges[k].1 < points(p));
    }
}

proof fn lemma_links_in_points(p: ProgramV, walls: Seq<Inst>, calls: bool, f: int, found: Seq<(usize, usize)>)
    requires
        in_points(p, found),
        is_small(p),
    ensures
        in_points(p, links_from(p, walls, calls, f, found)),
    decreases p.funcs.len() - f,
{
    if f < p.funcs.len() {
        let g = Function(f as usize);
        lemma_links_in(p, walls, calls, g, p.placed(g), 0, found);
        lemma_links_in_points(p, walls, calls, f + 1, links_in(p, walls, calls, g, p.placed(g), 0, found));
    }
}

proof fn lemma_joined(p: ProgramV, a: Seq<(usize, usize)>, b: Seq<(usize, usize)>)
    requires
        in_points(p, a),
        in_points(p, b),
    ensures
        in_points(p, a + b),
{
    let c = a + b;
    assert forall|k: int| 0 <= k < c.len() implies (#[trigger] c[k]).0 < points(p) && c[k].1 < points(p) by {
        if k < a.len() {
            assert(c[k] == a[k]);
        } else {
            assert(c[k] == b[k - a.len()]);
        }
    }
}

proof fn lemma_flow_in_points(p: ProgramV, f: Function, i: Inst, lift: int)
    requires
        is_small(p),
    ensures
        in_points(p, flow_links(p, f, i, lift)),
{
    if let Op::Branch(t, e, _) = p.op(i) {
        lemma_joined(p, link_to(p, i, first_of(p, t), lift), link_to(p, i, first_of(p, e), lift));
    }
}

proof fn lemma_entry_in_points(p: ProgramV, i: Inst, g: Function)
    requires
        is_small(p),
    ensures
        in_points(p, entry_links(p, i, g)),
{
    if let Some(s) = start_of(p, g) {
        lemma_joined(p, link(p, i.0 as int, inner(p, s)), link(p, inner(p, i), inner(p, s)));
    }
}

proof fn lemma_links_of(p: ProgramV, walls: Seq<Inst>, calls: bool, f: Function, i: Inst)
    requires
        is_small(p),
    ensures
        in_points(p, links(p, walls, calls, f, i)),
{
    let n = p.insts.len() as int;
    let a = flow_links(p, f, i, 0);
    let b = flow_links(p, f, i, n);
    let c = tail_links(p, f, i);
    let d = call_links(p, f, i);
    lemma_flow_in_points(p, f, i, 0);
    lemma_flow_in_points(p, f, i, n);
    lemma_joined(p, a, b);
    lemma_joined(p, a + b, c);
    assert(in_points(p, d)) by {
        match p.op(i) {
            Op::Call(g) => {
                let back = match next_of(p, f, i) {
                    Some(x) => if x.0 < p.insts.len() {
                        link(p, exit(p, g), x.0 as int)
                    } else {
                        Seq::empty()
                    },
                    None => Seq::empty(),
                };
                lemma_entry_in_points(p, i, g);
                lemma_joined(p, entry_links(p, i, g), back);
            },
            Op::TailCall(g) => {
                lemma_entry_in_points(p, i, g);
                lemma_joined(p, entry_links(p, i, g), link(p, exit(p, g), exit(p, f)));
            },
            _ => {},
        }
    }
    let open = if walls.contains(i) {
        Seq::empty()
    } else if calls {
        a + b + c
    } else {
        a
    };
    lemma_joined(p, open, d);
}

proof fn lemma_links_in(
    p: ProgramV,
    walls: Seq<Inst>,
    calls: bool,
    f: Function,
    insts: Seq<Inst>,
    from: int,
    found: Seq<(usize, usize)>,
)
    requires
        in_points(p, found),
        is_small(p),
        0 <= from,
    ensures
        in_points(p, links_in(p, walls, calls, f, insts, from, found)),
    decreases insts.len() - from,
{
    if from < insts.len() {
        lemma_links_of(p, walls, calls, f, insts[from]);
        lemma_joined(p, found, links(p, walls, calls, f, insts[from]));
        lemma_links_in(p, walls, calls, f, insts, from + 1, found + links(p, walls, calls, f, insts[from]));
    }
}

fn reaches_inst(p: &Program, walls: &Vec<Inst>, calls: bool, s: usize, i: Inst) -> (r: bool)
    requires
        is_small(p@),
        s < points(p@),
    ensures
        r == gets_to(p@, walls@, calls, s as int, i),
{
    let seen = reached_from(p, walls, calls, s);
    let n: usize = p.num_insts();
    proof {
        if is_way(p@, walls@, calls, s as int, i.0 as int) {
            lemma_way_in_points(p@, walls@, calls, s as int, i.0 as int);
        }
        if is_way(p@, walls@, calls, s as int, inner(p@, i)) {
            lemma_way_in_points(p@, walls@, calls, s as int, inner(p@, i));
        }
    }
    if i.0 < seen.len() && seen[i.0] {
        return true;
    }
    calls && i.0 < seen.len() && n + i.0 < seen.len() && seen[n + i.0]
}

/// Whether some way leads from behind `w` to `i`.
pub fn leads_from(p: &Program, walls: &Vec<Inst>, calls: bool, w: Node, i: Inst) -> (r: bool)
    requires
        is_small(p@),
    ensures
        r == comes_after(p@, walls@, calls, w, i),
{
    let mut outs: Vec<(usize, usize)> = Vec::new();
    assert(outs@ =~= Seq::empty());
    push_flow(p, &mut outs, w.func, w.inst, 0);
    assert(outs@ =~= flow_links(p@, w.func, w.inst, 0));
    let mut k: usize = 0;
    while k < outs.len()
        invariant
            k <= outs@.len(),
            is_small(p@),
            in_points(p@, outs@),
            outs@ == flow_links(p@, w.func, w.inst, 0),
            forall|j: int| 0 <= j < k ==> !gets_to(p@, walls@, calls, (#[trigger] outs@[j]).1 as int, i),
        decreases outs@.len() - k,
    {
        assert(outs@[k as int].1 < points(p@));
        if reaches_inst(p, walls, calls, outs[k].1, i) {
            assert(gets_to(p@, walls@, calls, outs@[k as int].1 as int, i));
            return true;
        }
        k += 1;
    }
    false
}

fn stores_list(p: &Program, key: CellKey) -> (r: Vec<Inst>)
    ensures
        r@ == all_stores(p@, key),
{
    let m: usize = p.num_funcs();
    let mut out: Vec<Inst> = Vec::new();
    assert(out@ =~= Seq::empty());
    let mut f: usize = 0;
    while f < m
        invariant
            f <= m == p@.funcs.len(),
            all_stores(p@, key) == stores_from(p@, key, f as int, out@),
        decreases m - f,
    {
        let g = Function(f);
        let insts = p.placed_insts(g);
        let ghost before = out@;
        let mut k: usize = 0;
        while k < insts.len()
            invariant
                k <= insts@.len(),
                stores_in(p@, key, g, insts@, 0, before) == stores_in(p@, key, g, insts@, k as int, out@),
            decreases insts@.len() - k,
        {
            let i = insts[k];
            if p.op(i) == Op::Store {
                if let Some((c, _)) = resolve_cell(p, g, p.arg(i, 1)) {
                    if c == key {
                        out.push(i);
                    }
                }
            }
            k += 1;
        }
        f += 1;
    }
    out
}

fn ends(p: &Program, stores: &Vec<Inst>, g: Function, s: Inst) -> (r: bool)
    requires
        is_small(p@),
    ensures
        r == can_end(p@, stores@, g, s),
{
    let insts = p.placed_insts(g);
    let n: usize = 2 * p.num_insts() + p.num_funcs();
    let ghost inside = s.0 < n;
    let seen = if s.0 < n {
        reached_from(p, stores, false, s.0)
    } else {
        Vec::new()
    };
    let mut k: usize = 0;
    while k < insts.len()
        invariant
            k <= insts@.len(),
            n == points(p@),
            is_small(p@),
            insts@ == p@.placed(g),
            s.0 < n ==> seen@.len() == n && forall|t: int|
                0 <= t < n ==> #[trigger] seen@[t] == is_way(p@, stores@, false, s.0 as int, t),
            forall|j: int|
                0 <= j < k ==> !((p@.op(#[trigger] insts@[j]) is Return || p@.op(insts@[j]) is TailCall) && is_way(
                    p@,
                    stores@,
                    false,
                    s.0 as int,
                    insts@[j].0 as int,
                )),
        decreases insts@.len() - k,
    {
        let i = insts[k];
        let is_end = match p.op(i) {
            Op::Return | Op::TailCall(_) => true,
            _ => false,
        };
        if is_end {
            if s.0 < n {
                if i.0 < n && seen[i.0] {
                    assert(is_way(p@, stores@, false, s.0 as int, insts@[k as int].0 as int));
                    return true;
                }
                proof {
                    if is_way(p@, stores@, false, s.0 as int, i.0 as int) {
                        lemma_way_in_points(p@, stores@, false, s.0 as int, i.0 as int);
                    }
                }
            } else {
                if s.0 == i.0 && s.0 != usize::MAX {
                    proof {
                        assert(crate::graph::reach_in(all_links(p@, stores@, false), none(), s.0 as int, i.0 as int, 0));
                        assert(is_way(p@, stores@, false, s.0 as int, insts@[k as int].0 as int));
                    }
                    return true;
                }
                proof {
                    lemma_no_way_outside(p@, stores@, false, s.0 as int, i.0 as int);
                }
            }
        }
        k += 1;
    }
    false
}

/// From outside of the points no way leads anywhere else.
proof fn lemma_no_way_outside(p: ProgramV, walls: Seq<Inst>, calls: bool, s: int, t: int)
    requires
        is_small(p),
        s >= points(p),
        s != t || s == none(),
    ensures
        !is_way(p, walls, calls, s, t),
{
    let edges = all_links(p, walls, calls);
    lemma_links_in_points(p, walls, calls, 0, Seq::empty());
    assert forall|n: nat| !crate::graph::reach_in(edges, none(), s, t, n) by {
        lemma_none_outside(p, edges, s, t, n);
    }
}

proof fn lemma_none_outside(p: ProgramV, edges: Seq<(usize, usize)>, s: int, t: int, n: nat)
    requires
        in_points(p, edges),
        s >= points(p),
        s != t || s == none() || n > 0,
    ensures
        !crate::graph::reach_in(edges, none(), s, t, n),
    decreases n,
{
    if n > 0 && crate::graph::reach_in(edges, none(), s, t, n) {
        let k = choose|k: int|
            0 <= k < edges.len() && (#[trigger] edges[k]).1 == t && crate::graph::reach_in(
                edges,
                none(),
                s,
                edges[k].0 as int,
                (n - 1) as nat,
            );
        assert(edges[k].0 < points(p));
        lemma_none_outside(p, edges, s, edges[k].0 as int, (n - 1) as nat);
    }
}

fn stores_surely(p: &Program, stores: &Vec<Inst>, i: Inst) -> (r: bool)
    requires
        is_small(p@),
    ensures
        r == surely_stores(p@, stores@, i),
{
    match p.op(i) {
        Op::Call(g) | Op::TailCall(g) => match start_inst(p, g) {
            Some(s) => !ends(p, stores, g, s),
            None => false,
        },
        _ => false,
    }
}

fn wall_list(p: &Program, key: CellKey) -> (r: Vec<Inst>)
    requires
        is_small(p@),
    ensures
        r@ == walls_of(p@, key),
{
    let stores = stores_list(p, key);
    let m: usize = p.num_funcs();
    let mut out: Vec<Inst> = crate::ir::copy_vec(&stores);
    let mut f: usize = 0;
    while f < m
        invariant
            f <= m == p@.funcs.len(),
            is_small(p@),
            walls_of(p@, key) == sure_calls_from(p@, stores@, f as int, out@),
        decreases m - f,
    {
        let insts = p.placed_insts(Function(f));
        let ghost before = out@;
        let mut k: usize = 0;
        while k < insts.len()
            invariant
                k <= insts@.len(),
                is_small(p@),
                sure_calls_in(p@, stores@, insts@, 0, before) == sure_calls_in(p@, stores@, insts@, k as int, out@),
            decreases insts@.len() - k,
        {
            if stores_surely(p, &stores, insts[k]) {
                out.push(insts[k]);
            }
            k += 1;
        }
        f += 1;
    }
    out
}

/// Whether store `w` to `key` may have been run when the load is.
pub fn stored_maybe(p: &Program, key: CellKey, w: Node, load: Node) -> (r: bool)
    ensures
        r == may_have_stored(p@, key, w, load),
{
    if !fits(p) {
        return true;
    }
    let open: Vec<Inst> = Vec::new();
    assert(open@ =~= Seq::empty());
    match key {
        CellKey::Local(_, _, _) => leads_from(p, &open, false, w, load.inst),
        CellKey::Global(_, _) => leads_from(p, &open, true, w, load.inst),
    }
}

/// Whether the clearing at `z` may be the last write to `key` before the load.
pub fn cleared_maybe(p: &Program, key: CellKey, z: Node, load: Node) -> (r: bool)
    ensures
        r == may_have_cleared(p@, key, z, load),
{
    if !fits(p) {
        return true;
    }
    match key {
        CellKey::Local(_, _, _) => {
            let walls = stores_list(p, key);
            leads_from(p, &walls, false, z, load.inst)
        },
        CellKey::Global(_, _) => {
            let walls = wall_list(p, key);
            leads_from(p, &walls, true, z, load.inst)
        },
    }
}

/// Whether the load may be run before anything is stored to the global cell `key`.
pub fn first_maybe(p: &Program, key: CellKey, load: Node) -> (r: bool)
    ensures
        r == may_be_first(p@, key, load),
{
    match key {
        CellKey::Local(_, _, _) => false,
        CellKey::Global(_, _) => {
            if !fits(p) {
                return true;
            }
            let walls = wall_list(p, key);
            match get_main_function(p) {
                Some(main) => match start_inst(p, main) {
                    Some(s) => {
                        let n: usize = p.num_insts();
                        if s.0 < n {
                            let seen = reached_from(p, &walls, true, n + s.0);
                            proof {
                                if is_way(p@, walls@, true, inner(p@, s), inner(p@, load.inst)) {
                                    lemma_way_in_points(p@, walls@, true, inner(p@, s), inner(p@, load.inst));
                                }
                            }
                            load.inst.0 < seen.len() && n + load.inst.0 < seen.len() && seen[n + load.inst.0]
                        } else {
                            false
                        }
                    },
                    None => false,
                },
                None => false,
            }
        },
    }
}

} // verus!
