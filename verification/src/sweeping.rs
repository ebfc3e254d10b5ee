//! What the removal of dead code leaves.

use vstd::prelude::*;

use crate::cfg::{cfg_edges, edges_from, edges_out, entry_of, none};
use crate::dce::{
    blocks_removed, critical, fed_by, fed_from, forwarded_value, is_island, islands_from,
    islands_removed, live, needed_in, operands_of_live_are_live, pick, sifted, sifting_is_filtering,
    swept, Fed,
};
use crate::graph::{reach_in, reaches};
use crate::ir::{position, position_is_first, without, BasicBlock, Function, Inst, Op, ProgramV};
use crate::scoping::{lemma_places_stay, placed_once, stands};

verus! {

/// What is live stays as it is.
pub open spec fn live_kept(p: ProgramV, q: ProgramV, f: Function, removable: Seq<Inst>) -> bool {
    forall|i: Inst| #[trigger] live(p, f, removable, i) ==> q.inst(i) == p.inst(i)
}

/// Those of `insts` that are live in `f`, in order.
pub open spec fn live_ones(p: ProgramV, f: Function, removable: Seq<Inst>, insts: Seq<Inst>) -> Seq<Inst> {
    insts.filter(|i: Inst| live(p, f, removable, i) == true)
}

proof fn lemma_erased(q: ProgramV, dead: Seq<Inst>, from: int, i: Inst)
    requires
        0 <= from <= dead.len(),
        forall|k: int| from <= k < dead.len() ==> #[trigger] dead[k] != i,
    ensures
        q.erase_all(dead, from).inst(i) == q.inst(i),
        q.erase_all(dead, from).blocks == q.blocks,
    decreases dead.len() - from,
{
    if from < dead.len() {
        reveal(ProgramV::set_inst);
        lemma_erased(q.erase(dead[from]), dead, from + 1, i);
    }
}

proof fn lemma_swept(
    p: ProgramV,
    q: ProgramV,
    f: Function,
    removable: Seq<Inst>,
    blocks: Seq<BasicBlock>,
    from: int,
    changed: bool,
    b: BasicBlock,
)
    requires
        0 <= from <= blocks.len(),
        live_kept(p, q, f, removable),
        blocks.no_duplicates(),
        b.0 < q.blocks.len(),
    ensures
        ({
            let r = swept(p, q, f, removable, blocks, from, changed).0;
            &&& live_kept(p, r, f, removable)
            &&& r.blocks.len() == q.blocks.len()
            &&& r.block(b).params == q.block(b).params
            &&& blocks.skip(from).contains(b) ==> r.block(b).insts == live_ones(p, f, removable, q.block(b).insts)
            &&& !blocks.skip(from).contains(b) ==> r.block(b).insts == q.block(b).insts
        }),
    decreases blocks.len() - from,
{
    if from < blocks.len() {
        let here = blocks[from];
        let insts = q.block(here).insts;
        let kept = sifted(p, f, removable, insts, true, 0, Seq::empty());
        let dead = sifted(p, f, removable, insts, false, 0, Seq::empty());
        sifting_is_filtering(p, f, removable, insts, true);
        sifting_is_filtering(p, f, removable, insts, false);
        let mid = q.set_block_insts(here, kept);
        let next = mid.erase_all(dead, 0);
        reveal(ProgramV::set_block_insts);
        let pred = |i: Inst| live(p, f, removable, i) == false;
        assert forall|i: Inst| #[trigger] live(p, f, removable, i) implies next.inst(i) == p.inst(i) by {
            assert forall|k: int| 0 <= k < dead.len() implies #[trigger] dead[k] != i by {
                insts.lemma_filter_pred(pred, k);
            }
            lemma_erased(mid, dead, 0, i);
        }
        assert(next.blocks == mid.blocks) by {
            lemma_shell_stays(mid, dead, 0);
        }
        lemma_swept(p, next, f, removable, blocks, from + 1, changed || dead.len() > 0, b);
        assert(blocks.skip(from)[0] == here);
        if blocks.skip(from + 1).contains(b) {
            let k = blocks.skip(from + 1).index_of(b);
            assert(blocks.skip(from)[k + 1] == b);
            assert(blocks[from + 1 + k] == b);
            assert(b != here);
        }
        if blocks.skip(from).contains(b) && b != here {
            let k = blocks.skip(from).index_of(b);
            assert(blocks.skip(from + 1)[k - 1] == b);
        }
    } else {
        assert(blocks.skip(from) =~= Seq::empty());
    }
}

/// Sweeping a function leaves in each of its blocks exactly the live instructions, in their order, with
/// their operands; parameters stay.
pub proof fn sweeping_keeps_the_live(p: ProgramV, f: Function, removable: Seq<Inst>, b: BasicBlock)
    requires
        p.func(f).blocks.no_duplicates(),
        p.func(f).blocks.contains(b),
        b.0 < p.blocks.len(),
    ensures
        ({
            let q = swept(p, p, f, removable, p.func(f).blocks, 0, false).0;
            &&& live_kept(p, q, f, removable)
            &&& q.block(b).params == p.block(b).params
            &&& q.block(b).insts == live_ones(p, f, removable, p.block(b).insts)
        }),
{
    assert(p.func(f).blocks.skip(0) =~= p.func(f).blocks);
    lemma_swept(p, p, f, removable, p.func(f).blocks, 0, false, b);
}

/// What is live is the least that has the critical instructions of `f` and the local operands of what it has:
/// whatever has these has all that is live.
pub proof fn live_is_the_least(p: ProgramV, f: Function, removable: Seq<Inst>, keep: Set<Inst>, i: Inst)
    requires
        forall|x: Inst|
            #[trigger] p.placed(f).contains(x) && critical(p, x, removable) && !p.inst(x).global ==> keep.contains(x),
        forall|u: Inst, x: Inst|
            keep.contains(u) && #[trigger] p.args(u).contains(x) && !p.inst(x).global ==> keep.contains(x),
        live(p, f, removable, i),
    ensures
        keep.contains(i),
{
    lemma_least(p, f, removable, keep, i, choose|n: nat| needed_in(p, f, removable, i, n));
}

proof fn lemma_least(p: ProgramV, f: Function, removable: Seq<Inst>, keep: Set<Inst>, i: Inst, n: nat)
    requires
        forall|x: Inst|
            #[trigger] p.placed(f).contains(x) && critical(p, x, removable) && !p.inst(x).global ==> keep.contains(x),
        forall|u: Inst, x: Inst|
            keep.contains(u) && #[trigger] p.args(u).contains(x) && !p.inst(x).global ==> keep.contains(x),
        needed_in(p, f, removable, i, n),
    ensures
        keep.contains(i),
    decreases n,
{
    if n > 0 {
        let u = choose|u: Inst| #[trigger] p.args(u).contains(i) && needed_in(p, f, removable, u, (n - 1) as nat);
        lemma_least(p, f, removable, keep, u, (n - 1) as nat);
    }
}

/// A transfer, a write, a return, or a call that may leave a trace is never swept away, nor is anything
/// that it uses.
pub proof fn effects_survive(p: ProgramV, f: Function, removable: Seq<Inst>, b: BasicBlock, i: Inst)
    requires
        p.func(f).blocks.no_duplicates(),
        p.func(f).blocks.contains(b),
        b.0 < p.blocks.len(),
        p.block(b).insts.contains(i),
        critical(p, i, removable),
        i.0 < p.insts.len(),
        !p.inst(i).global,
    ensures
        ({
            let q = swept(p, p, f, removable, p.func(f).blocks, 0, false).0;
            &&& q.block(b).insts.contains(i)
            &&& q.inst(i) == p.inst(i)
            &&& forall|x: Inst|
                #[trigger] p.args(i).contains(x) && x.0 < p.insts.len() && !p.inst(x).global ==> q.inst(x) == p.inst(x)
        }),
{
    sweeping_keeps_the_live(p, f, removable, b);
    lemma_placed_in(p, f, 0, Seq::empty(), i);
    assert(p.func(f).blocks[p.func(f).blocks.index_of(b)] == b);
    assert(needed_in(p, f, removable, i, 0));
    assert(live(p, f, removable, i));
    let pred = |x: Inst| live(p, f, removable, x) == true;
    let k = p.block(b).insts.index_of(i);
    p.block(b).insts.lemma_filter_contains_rev(pred, i);
    let q = swept(p, p, f, removable, p.func(f).blocks, 0, false).0;
    assert forall|x: Inst|
        #[trigger] p.args(i).contains(x) && x.0 < p.insts.len() && !p.inst(x).global implies q.inst(x) == p.inst(x) by {
        operands_of_live_are_live(p, f, removable, i, x);
    }
}

/// Where no call may be removed, none is.
pub proof fn every_call_survives(p: ProgramV, f: Function, b: BasicBlock, i: Inst)
    requires
        p.func(f).blocks.no_duplicates(),
        p.func(f).blocks.contains(b),
        b.0 < p.blocks.len(),
        p.block(b).insts.contains(i),
        p.op(i) is Call,
        i.0 < p.insts.len(),
        !p.inst(i).global,
    ensures
        swept(p, p, f, Seq::empty(), p.func(f).blocks, 0, false).0.block(b).insts.contains(i),
{
    effects_survive(p, f, Seq::empty(), b, i);
}

/// Terminator `t` passes `v` for parameter `k` of block `b` on each of its edges to it.
pub open spec fn always_passes(p: ProgramV, t: Inst, b: BasicBlock, k: int, v: Inst) -> bool {
    match p.op(t) {
        Op::Jump(x) => x == b ==> pick(p.args(t), k) == v,
        Op::Branch(x, y, _) => (x == b ==> pick(p.t_args(t), k) == v) && (y == b ==> pick(p.f_args(t), k) == v),
        _ => true,
    }
}

proof fn lemma_fed(p: ProgramV, blocks: Seq<BasicBlock>, b: BasicBlock, k: int, from: int, state: Fed, v: Inst)
    requires
        0 <= from <= blocks.len(),
        fed_from(p, blocks, b, k, from, state) == Fed::One(v),
    ensures
        state is Nothing || state == Fed::One(v),
        forall|j: int| from <= j < blocks.len() ==> always_passes(p, p.terminator(#[trigger] blocks[j]), b, k, v),
    decreases blocks.len() - from,
{
    if from < blocks.len() {
        let t = p.terminator(blocks[from]);
        lemma_fed(p, blocks, b, k, from + 1, fed_by(p, t, b, k, state), v);
    }
}

/// A parameter that is said to forward one value gets that value on every edge to its block.
pub proof fn forwarded_parameter_gets_one_value(p: ProgramV, blocks: Seq<BasicBlock>, b: BasicBlock, k: int)
    ensures
        forwarded_value(p, blocks, b, k) matches Some(v) ==> forall|j: int|
            0 <= j < blocks.len() ==> always_passes(p, p.terminator(#[trigger] blocks[j]), b, k, v),
{
    match forwarded_value(p, blocks, b, k) {
        Some(v) => lemma_fed(p, blocks, b, k, 0, Fed::Nothing, v),
        None => {},
    }
}

/// Block `b` of `f` is reached from the entry.
pub open spec fn reached(p: ProgramV, f: Function, b: BasicBlock) -> bool {
    entry_of(p, f) is Some && b.0 < p.blocks.len() && reaches(
        cfg_edges(p, f),
        none(),
        (entry_of(p, f)->0).0 as int,
        b.0 as int,
    )
}

/// Handles can name all blocks and instructions.
pub open spec fn nameable(p: ProgramV) -> bool {
    p.blocks.len() <= usize::MAX && p.insts.len() <= usize::MAX
}

/// Block `b` is in `f` in `q` as it was in `p`, with the instructions that it had.
pub open spec fn block_stays(p: ProgramV, q: ProgramV, f: Function, b: BasicBlock) -> bool {
    q.func(f).blocks.contains(b) && forall|k: int|
        0 <= k < p.block(b).insts.len() ==> q.inst(#[trigger] p.block(b).insts[k]) == p.inst(p.block(b).insts[k])
}

/// The blocks of `f` that are reached in `p` are in `q` as they were.
pub open spec fn retains(p: ProgramV, q: ProgramV, f: Function) -> bool {
    &&& q.blocks == p.blocks
    &&& q.funcs.len() == p.funcs.len()
    &&& q.insts.len() == p.insts.len()
    &&& entry_of(q, f) == entry_of(p, f)
    &&& forall|b: BasicBlock| reached(p, f, b) && p.func(f).blocks.contains(b) ==> #[trigger] block_stays(p, q, f, b)
}

proof fn lemma_edges_from(p: ProgramV, blocks: Seq<BasicBlock>, from: int, found: Seq<(usize, usize)>, e: (usize, usize))
    requires
        0 <= from <= blocks.len(),
    ensures
        edges_from(p, blocks, from, found).contains(e) <==> found.contains(e) || exists|k: int|
            from <= k < blocks.len() && edges_out(p, #[trigger] blocks[k]).contains(e),
    decreases blocks.len() - from,
{
    if from < blocks.len() {
        let next = found + edges_out(p, blocks[from]);
        lemma_edges_from(p, blocks, from + 1, next, e);
        if found.contains(e) {
            let k = found.index_of(e);
            assert(next[k] == e);
        }
        if edges_out(p, blocks[from]).contains(e) {
            let k = edges_out(p, blocks[from]).index_of(e);
            assert(next[found.len() + k] == e);
        }
        if next.contains(e) && !found.contains(e) {
            let k = next.index_of(e);
            assert(k >= found.len());
            assert(edges_out(p, blocks[from])[k - found.len()] == e);
        }
    }
}

/// An edge leaves a block of the function.
proof fn lemma_edge_source(p: ProgramV, b: BasicBlock, e: (usize, usize))
    ensures
        edges_out(p, b).contains(e) ==> e.0 == b.0 && b.0 < p.blocks.len() && e.1 < p.blocks.len(),
{
    if edges_out(p, b).contains(e) {
        let k = edges_out(p, b).index_of(e);
        assert(edges_out(p, b)[k] == e);
    }
}

proof fn lemma_reach_stays(p: ProgramV, q: ProgramV, f: Function, t: int, n: nat)
    requires
        retains(p, q, f),
        nameable(p),
        entry_of(p, f) is Some,
        reach_in(cfg_edges(p, f), none(), (entry_of(p, f)->0).0 as int, t, n),
    ensures
        reach_in(cfg_edges(q, f), none(), (entry_of(p, f)->0).0 as int, t, n),
    decreases n,
{
    let edges = cfg_edges(p, f);
    let more = cfg_edges(q, f);
    let entry = (entry_of(p, f)->0).0 as int;
    if n > 0 {
        let k = choose|k: int|
            0 <= k < edges.len() && (#[trigger] edges[k]).1 == t && reach_in(
                edges,
                none(),
                entry,
                edges[k].0 as int,
                (n - 1) as nat,
            );
        let e = edges[k];
        lemma_reach_stays(p, q, f, e.0 as int, (n - 1) as nat);
        lemma_edges_from(p, p.func(f).blocks, 0, Seq::empty(), e);
        assert(edges.contains(e));
        let j = choose|j: int|
            0 <= j < p.func(f).blocks.len() && edges_out(p, #[trigger] p.func(f).blocks[j]).contains(e);
        let c = p.func(f).blocks[j];
        lemma_edge_source(p, c, e);
        assert(reached(p, f, c));
        assert(block_stays(p, q, f, c));
        if p.block(c).insts.len() > 0 {
            let last = p.block(c).insts.len() - 1;
            assert(q.inst(p.block(c).insts[last]) == p.inst(p.block(c).insts[last]));
        }
        assert(q.terminator(c) == p.terminator(c));
        assert(q.op(q.terminator(c)) == p.op(p.terminator(c)));
        assert(edges_out(q, c) == edges_out(p, c));
        let i = q.func(f).blocks.index_of(c);
        assert(edges_out(q, q.func(f).blocks[i]).contains(e));
        lemma_edges_from(q, q.func(f).blocks, 0, Seq::empty(), e);
        let m = more.index_of(e);
        assert(more[m].1 == t && reach_in(more, none(), entry, more[m].0 as int, (n - 1) as nat));
    }
}

proof fn lemma_reached_stays(p: ProgramV, q: ProgramV, f: Function, b: BasicBlock)
    requires
        retains(p, q, f),
        nameable(p),
        reached(p, f, b),
    ensures
        reached(q, f, b),
{
    let n = choose|n: nat| reach_in(cfg_edges(p, f), none(), (entry_of(p, f)->0).0 as int, b.0 as int, n);
    lemma_reach_stays(p, q, f, b.0 as int, n);
}

/// Block `x`, which is not reached in `p`, taken out of `q`.
proof fn lemma_block_removed(p: ProgramV, q: ProgramV, f: Function, x: BasicBlock)
    requires
        retains(p, q, f),
        placed_once(p),
        nameable(p),
        entry_of(p, f) is Some,
        !reached(p, f, x),
        f.0 < p.funcs.len(),
    ensures
        retains(p, q.remove_block(f, x), f),
{
    let mid = q.detach_block(f, x);
    let r = q.remove_block(f, x);
    let gone = q.block(x).insts;
    reveal(ProgramV::set_func_blocks);
    let old_blocks = q.func(f).blocks;
    let entry = entry_of(p, f)->0;
    assert(reached(p, f, entry)) by {
        assert(reach_in(cfg_edges(p, f), none(), entry.0 as int, entry.0 as int, 0));
    }
    position_is_first(old_blocks, x, 0);
    let at = position(old_blocks, x, 0);
    assert(old_blocks[0] == entry);
    assert(at != 0);
    lemma_shell_stays(mid, gone, 0);
    assert(r.func(f).blocks == without(old_blocks, x));
    assert(r.func(f).blocks[0] == entry);
    assert forall|b: BasicBlock| reached(p, f, b) && p.func(f).blocks.contains(b) implies #[trigger] block_stays(
        p,
        r,
        f,
        b,
    ) by {
        assert(block_stays(p, q, f, b));
        assert(b != x);
        let i = old_blocks.index_of(b);
        if i < at || at == old_blocks.len() {
            assert(r.func(f).blocks[i] == b);
        } else {
            assert(r.func(f).blocks[i - 1] == b);
        }
        assert forall|k: int| 0 <= k < p.block(b).insts.len() implies r.inst(#[trigger] p.block(b).insts[k]) == p.inst(
            p.block(b).insts[k],
        ) by {
            let v = p.block(b).insts[k];
            assert forall|j: int| 0 <= j < gone.len() implies #[trigger] gone[j] != v by {
                if gone[j] == v {
                    assert(stands(p, b, p.block(b).params.len() + k, v));
                    assert(stands(p, x, p.block(x).params.len() + j, v));
                }
            }
            lemma_erased(mid, gone, 0, v);
            assert(q.inst(v) == p.inst(v));
        }
    }
}

pub(crate) proof fn lemma_shell_stays(q: ProgramV, dead: Seq<Inst>, from: int)
    requires
        0 <= from <= dead.len(),
    ensures
        q.erase_all(dead, from).blocks == q.blocks,
        q.erase_all(dead, from).funcs == q.funcs,
        q.erase_all(dead, from).insts.len() == q.insts.len(),
    decreases dead.len() - from,
{
    if from < dead.len() {
        reveal(ProgramV::set_inst);
        lemma_shell_stays(q.erase(dead[from]), dead, from + 1);
    }
}

proof fn lemma_blocks_removed(p: ProgramV, q: ProgramV, f: Function, blocks: Seq<BasicBlock>, from: int)
    requires
        0 <= from <= blocks.len(),
        retains(p, q, f),
        placed_once(p),
        nameable(p),
        entry_of(p, f) is Some,
        f.0 < p.funcs.len(),
        forall|k: int| 0 <= k < blocks.len() ==> !reached(p, f, #[trigger] blocks[k]),
    ensures
        retains(p, blocks_removed(q, f, blocks, from), f),
    decreases blocks.len() - from,
{
    if from < blocks.len() {
        lemma_block_removed(p, q, f, blocks[from]);
        lemma_blocks_removed(p, q.remove_block(f, blocks[from]), f, blocks, from + 1);
    }
}

proof fn lemma_islands(p: ProgramV, f: Function, blocks: Seq<BasicBlock>, from: int, found: Seq<BasicBlock>)
    requires
        0 <= from <= blocks.len(),
        forall|k: int| 0 <= k < found.len() ==> !reached(p, f, #[trigger] found[k]),
    ensures
        forall|k: int|
            0 <= k < islands_from(p, f, blocks, from, found).len() ==> !reached(
                p,
                f,
                #[trigger] islands_from(p, f, blocks, from, found)[k],
            ),
    decreases blocks.len() - from,
{
    if from < blocks.len() {
        let next = if is_island(p, f, blocks[from]) {
            found.push(blocks[from])
        } else {
            found
        };
        assert(islands_from(p, f, blocks, from, found) == islands_from(p, f, blocks, from + 1, next));
        assert forall|k: int| 0 <= k < next.len() implies !reached(p, f, #[trigger] next[k]) by {
            if k < found.len() {
                assert(next[k] == found[k]);
            }
        }
        lemma_islands(p, f, blocks, from + 1, next);
    }
}

/// However many rounds are made, every block that is reached from the entry stays in its function with
/// all its instructions.
pub proof fn reached_blocks_stay(p: ProgramV, f: Function, rounds: nat, changed: bool)
    requires
        placed_once(p),
        nameable(p),
        entry_of(p, f) is Some,
    ensures
        retains(p, islands_removed(p, f, rounds, changed).0, f),
    decreases rounds,
{
    assert(f.0 < p.funcs.len());
    assert(retains(p, p, f));
    let islands = islands_from(p, f, p.func(f).blocks, 0, Seq::empty());
    if rounds > 0 && islands.len() > 0 {
        lemma_islands(p, f, p.func(f).blocks, 0, Seq::empty());
        lemma_blocks_removed(p, p, f, islands, 0);
        let q = blocks_removed(p, f, islands, 0);
        lemma_places_stay(p, q);
        reached_blocks_stay(q, f, (rounds - 1) as nat, true);
        let r = islands_removed(q, f, (rounds - 1) as nat, true).0;
        assert forall|b: BasicBlock| reached(p, f, b) && p.func(f).blocks.contains(b) implies #[trigger] block_stays(
            p,
            r,
            f,
            b,
        ) by {
            lemma_reached_stays(p, q, f, b);
            assert(block_stays(p, q, f, b));
            assert(block_stays(q, r, f, b));
            assert forall|k: int| 0 <= k < p.block(b).insts.len() implies r.inst(#[trigger] p.block(b).insts[k]) == p.inst(
                p.block(b).insts[k],
            ) by {
                assert(q.block(b).insts[k] == p.block(b).insts[k]);
                assert(r.inst(q.block(b).insts[k]) == q.inst(q.block(b).insts[k]));
            }
        }
    }
}

proof fn lemma_swept_shell(
    p: ProgramV,
    q: ProgramV,
    f: Function,
    removable: Seq<Inst>,
    blocks: Seq<BasicBlock>,
    from: int,
    changed: bool,
)
    ensures
        ({
            let r = swept(p, q, f, removable, blocks, from, changed).0;
            &&& r.funcs == q.funcs
            &&& r.insts.len() == q.insts.len()
            &&& r.blocks.len() == q.blocks.len()
        }),
    decreases blocks.len() - from,
{
    if from < blocks.len() {
        let insts = q.block(blocks[from]).insts;
        let kept = sifted(p, f, removable, insts, true, 0, Seq::empty());
        let dead = sifted(p, f, removable, insts, false, 0, Seq::empty());
        let mid = q.set_block_insts(blocks[from], kept);
        assert(mid.funcs == q.funcs && mid.insts == q.insts && mid.blocks.len() == q.blocks.len()) by {
            reveal(ProgramV::set_block_insts);
        }
        lemma_erase_shell(mid, dead, 0);
        lemma_swept_shell(p, mid.erase_all(dead, 0), f, removable, blocks, from + 1, changed || dead.len() > 0);
    }
}

proof fn lemma_erase_shell(q: ProgramV, dead: Seq<Inst>, from: int)
    ensures
        q.erase_all(dead, from).funcs == q.funcs,
        q.erase_all(dead, from).blocks == q.blocks,
        q.erase_all(dead, from).insts.len() == q.insts.len(),
    decreases dead.len() - from,
{
    if from < dead.len() {
        reveal(ProgramV::set_inst);
        lemma_erase_shell(q.erase(dead[from]), dead, from + 1);
    }
}

proof fn lemma_placed_in(p: ProgramV, f: Function, from: int, found: Seq<Inst>, i: Inst)
    requires
        0 <= from,
    ensures
        p.placed_from(f, from, found).contains(i) == (found.contains(i) || exists|n: int|
            from <= n < p.func(f).blocks.len() && p.block(#[trigger] p.func(f).blocks[n]).insts.contains(i)),
    decreases p.func(f).blocks.len() - from,
{
    if from < p.func(f).blocks.len() {
        let here = p.block(p.func(f).blocks[from]).insts;
        let next = found + here;
        lemma_placed_in(p, f, from + 1, next, i);
        if found.contains(i) {
            let k = found.index_of(i);
            assert(next[k] == i);
        }
        if here.contains(i) {
            let k = here.index_of(i);
            assert(next[found.len() + k] == i);
        }
        if next.contains(i) && !found.contains(i) {
            let k = next.index_of(i);
            assert(k >= found.len());
            assert(here[k - found.len()] == i);
            assert(p.block(p.func(f).blocks[from]).insts.contains(i));
        }
    }
}

/// What is live stays live.
proof fn lemma_live_stays(p: ProgramV, f: Function, removable: Seq<Inst>, i: Inst, n: nat)
    requires
        p.func(f).blocks.no_duplicates(),
        forall|b: BasicBlock| #[trigger] p.func(f).blocks.contains(b) ==> b.0 < p.blocks.len(),
        needed_in(p, f, removable, i, n),
    ensures
        needed_in(swept(p, p, f, removable, p.func(f).blocks, 0, false).0, f, removable, i, n),
    decreases n,
{
    let blocks = p.func(f).blocks;
    let q = swept(p, p, f, removable, blocks, 0, false).0;
    lemma_swept_shell(p, p, f, removable, blocks, 0, false);
    assert(live(p, f, removable, i));
    if n == 0 {
        lemma_placed_in(p, f, 0, Seq::empty(), i);
        let k = choose|k: int| 0 <= k < blocks.len() && p.block(#[trigger] blocks[k]).insts.contains(i);
        let b = blocks[k];
        assert(blocks.contains(b));
        sweeping_keeps_the_live(p, f, removable, b);
        let pred = |x: Inst| live(p, f, removable, x) == true;
        p.block(b).insts.lemma_filter_contains_rev(pred, i);
        assert(q.block(q.func(f).blocks[k]).insts.contains(i));
        lemma_placed_in(q, f, 0, Seq::empty(), i);
        assert(q.inst(i) == p.inst(i));
    } else {
        let u = choose|u: Inst|
            #[trigger] p.args(u).contains(i) && needed_in(p, f, removable, u, (n - 1) as nat);
        lemma_live_stays(p, f, removable, u, (n - 1) as nat);
        assert(live(p, f, removable, u));
        lemma_live_kept(p, f, removable);
        assert(q.inst(u) == p.inst(u));
        assert(q.args(u).contains(i));
        assert(q.inst(i) == p.inst(i));
    }
}

proof fn lemma_live_kept(p: ProgramV, f: Function, removable: Seq<Inst>)
    requires
        p.func(f).blocks.no_duplicates(),
        forall|b: BasicBlock| #[trigger] p.func(f).blocks.contains(b) ==> b.0 < p.blocks.len(),
    ensures
        live_kept(p, swept(p, p, f, removable, p.func(f).blocks, 0, false).0, f, removable),
{
    if p.func(f).blocks.len() > 0 {
        assert(p.func(f).blocks.contains(p.func(f).blocks[0]));
        sweeping_keeps_the_live(p, f, removable, p.func(f).blocks[0]);
    }
}

proof fn lemma_all_live(p: ProgramV, f: Function, removable: Seq<Inst>, insts: Seq<Inst>, keep: bool, from: int, found: Seq<Inst>)
    requires
        0 <= from <= insts.len(),
        forall|k: int| 0 <= k < insts.len() ==> live(p, f, removable, #[trigger] insts[k]),
    ensures
        sifted(p, f, removable, insts, keep, from, found) == if keep {
            found + insts.skip(from)
        } else {
            found
        },
    decreases insts.len() - from,
{
    if from < insts.len() {
        assert(live(p, f, removable, insts[from]));
        if keep {
            lemma_all_live(p, f, removable, insts, keep, from + 1, found.push(insts[from]));
            assert(found.push(insts[from]) + insts.skip(from + 1) =~= found + insts.skip(from));
        } else {
            lemma_all_live(p, f, removable, insts, keep, from + 1, found);
        }
    } else if keep {
        assert(found + insts.skip(from) =~= found);
    }
}

proof fn lemma_nothing_swept(
    q: ProgramV,
    f: Function,
    removable: Seq<Inst>,
    blocks: Seq<BasicBlock>,
    from: int,
    changed: bool,
)
    requires
        0 <= from <= blocks.len(),
        forall|b: BasicBlock, k: int|
            blocks.contains(b) && 0 <= k < q.block(b).insts.len() ==> live(q, f, removable, #[trigger] q.block(b).insts[k]),
    ensures
        swept(q, q, f, removable, blocks, from, changed) == (q, changed),
    decreases blocks.len() - from,
{
    if from < blocks.len() {
        let b = blocks[from];
        let insts = q.block(b).insts;
        assert(blocks.contains(b));
        lemma_all_live(q, f, removable, insts, true, 0, Seq::empty());
        lemma_all_live(q, f, removable, insts, false, 0, Seq::empty());
        assert(Seq::<Inst>::empty() + insts.skip(0) =~= insts);
        assert(q.set_block_insts(b, insts) == q) by {
            reveal(ProgramV::set_block_insts);
            if b.0 < q.blocks.len() {
                assert(q.set_block_insts(b, insts).blocks =~= q.blocks);
            }
        }
        assert(q.erase_all(Seq::empty(), 0) == q);
        lemma_nothing_swept(q, f, removable, blocks, from + 1, changed);
    }
}

/// Sweeping a function a second time, with the same calls to drop, removes nothing.
pub proof fn sweeping_twice_is_sweeping_once(p: ProgramV, f: Function, removable: Seq<Inst>)
    requires
        p.func(f).blocks.no_duplicates(),
        forall|b: BasicBlock| #[trigger] p.func(f).blocks.contains(b) ==> b.0 < p.blocks.len(),
    ensures
        ({
            let q = swept(p, p, f, removable, p.func(f).blocks, 0, false).0;
            swept(q, q, f, removable, q.func(f).blocks, 0, false) == (q, false)
        }),
{
    let blocks = p.func(f).blocks;
    let q = swept(p, p, f, removable, blocks, 0, false).0;
    lemma_swept_shell(p, p, f, removable, blocks, 0, false);
    assert forall|b: BasicBlock, k: int| blocks.contains(b) && 0 <= k < q.block(b).insts.len() implies live(
        q,
        f,
        removable,
        #[trigger] q.block(b).insts[k],
    ) by {
        let i = q.block(b).insts[k];
        sweeping_keeps_the_live(p, f, removable, b);
        let pred = |x: Inst| live(p, f, removable, x) == true;
        p.block(b).insts.lemma_filter_pred(pred, k);
        let n = choose|n: nat| needed_in(p, f, removable, i, n);
        lemma_live_stays(p, f, removable, i, n);
    }
    lemma_nothing_swept(q, f, removable, blocks, 0, false);
}

/// Some instruction of block `b` is not live.
pub open spec fn has_dead(p: ProgramV, f: Function, removable: Seq<Inst>, b: BasicBlock) -> bool {
    exists|k: int| 0 <= k < p.block(b).insts.len() && !live(p, f, removable, #[trigger] p.block(b).insts[k])
}

proof fn lemma_sifted_some(p: ProgramV, f: Function, removable: Seq<Inst>, insts: Seq<Inst>, from: int, found: Seq<Inst>)
    requires
        0 <= from,
        sifted(p, f, removable, insts, false, from, found).len() > found.len(),
    ensures
        exists|k: int| from <= k < insts.len() && !live(p, f, removable, #[trigger] insts[k]),
    decreases insts.len() - from,
{
    if from < insts.len() && live(p, f, removable, insts[from]) {
        lemma_sifted_some(p, f, removable, insts, from + 1, found);
    }
}

proof fn lemma_sifted_has(
    p: ProgramV,
    f: Function,
    removable: Seq<Inst>,
    insts: Seq<Inst>,
    from: int,
    found: Seq<Inst>,
    k: int,
)
    requires
        0 <= from,
        found.len() > 0 || from <= k < insts.len() && !live(p, f, removable, insts[k]),
    ensures
        sifted(p, f, removable, insts, false, from, found).len() > 0,
    decreases insts.len() - from,
{
    if from < insts.len() {
        if live(p, f, removable, insts[from]) {
            lemma_sifted_has(p, f, removable, insts, from + 1, found, k);
        } else {
            lemma_sifted_has(p, f, removable, insts, from + 1, found.push(insts[from]), k);
        }
    }
}

proof fn lemma_sweep_reports(
    p: ProgramV,
    q: ProgramV,
    f: Function,
    removable: Seq<Inst>,
    blocks: Seq<BasicBlock>,
    from: int,
    changed: bool,
)
    requires
        0 <= from <= blocks.len(),
        blocks.no_duplicates(),
        forall|n: int| from <= n < blocks.len() ==> q.block(#[trigger] blocks[n]) == p.block(blocks[n]),
    ensures
        swept(p, q, f, removable, blocks, from, changed).1 == (changed || exists|n: int|
            from <= n < blocks.len() && has_dead(p, f, removable, #[trigger] blocks[n])),
    decreases blocks.len() - from,
{
    if from < blocks.len() {
        let b = blocks[from];
        let insts = q.block(b).insts;
        let kept = sifted(p, f, removable, insts, true, 0, Seq::empty());
        let dead = sifted(p, f, removable, insts, false, 0, Seq::empty());
        let mid = q.set_block_insts(b, kept);
        let next = mid.erase_all(dead, 0);
        if has_dead(p, f, removable, b) {
            let k = choose|k: int| 0 <= k < p.block(b).insts.len() && !live(p, f, removable, #[trigger] p.block(b).insts[k]);
            lemma_sifted_has(p, f, removable, insts, 0, Seq::empty(), k);
        }
        if dead.len() > 0 {
            lemma_sifted_some(p, f, removable, insts, 0, Seq::empty());
            let k = choose|k: int| 0 <= k < insts.len() && !live(p, f, removable, #[trigger] insts[k]);
            assert(!live(p, f, removable, p.block(b).insts[k]));
        }
        lemma_erase_shell(mid, dead, 0);
        assert forall|n: int| from + 1 <= n < blocks.len() implies next.block(#[trigger] blocks[n]) == p.block(blocks[n]) by {
            reveal(ProgramV::set_block_insts);
            assert(blocks[n] != b);
            assert(q.block(blocks[n]) == p.block(blocks[n]));
        }
        lemma_sweep_reports(p, next, f, removable, blocks, from + 1, changed || dead.len() > 0);
        assert((dead.len() > 0) == has_dead(p, f, removable, blocks[from]));
        if exists|n: int| from + 1 <= n < blocks.len() && has_dead(p, f, removable, #[trigger] blocks[n]) {
            let n = choose|n: int| from + 1 <= n < blocks.len() && has_dead(p, f, removable, #[trigger] blocks[n]);
            assert(from <= n < blocks.len() && has_dead(p, f, removable, blocks[n]));
        }
    }
}

/// Sweeping a function says that something changed exactly where something in it was dead.
pub proof fn sweeping_tells_of_dead_code(p: ProgramV, f: Function, removable: Seq<Inst>)
    requires
        p.func(f).blocks.no_duplicates(),
    ensures
        swept(p, p, f, removable, p.func(f).blocks, 0, false).1 == exists|n: int|
            0 <= n < p.func(f).blocks.len() && has_dead(p, f, removable, #[trigger] p.func(f).blocks[n]),
{
    lemma_sweep_reports(p, p, f, removable, p.func(f).blocks, 0, false);
}

} // verus!
