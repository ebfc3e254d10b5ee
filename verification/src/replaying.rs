//! A block whose dead stores are gone reads what it read: every load that is still used gets its value.

use vstd::prelude::*;

use crate::dse::{
    cell_at, clears, disturbs, forgotten, in_bytes, in_roots, is_writeback, may_step, nothing_found, scanned, scanned_all,
    scanned_blocks, stores_cleaned, width_of, writebacks_from, zeros_stored, Cell, Memory, ScanV, ZeroV,
};
use crate::effects::call_roots;
use crate::ir::{BasicBlock, Function, Inst, Op, ProgramV};
use crate::memory::MemObject;
use crate::scoping::{placed_once, stands};
use crate::storing::{
    byte_stored, cleared_unread, covered_stores_are_not_read, dead_clearings_are_overwritten, forwarded_loads_are_unused,
    is_forwarded, may_read, may_read_bytes, overwritten_unread, prolongs, ran, stores_byte, unread, wholly_overwritten,
};

verus! {

/// What the scan of `f` finds.
pub open spec fn findings(p: ProgramV, f: Function) -> ScanV {
    scanned_blocks(p, f, nothing_found(), p.func(f).blocks, 0)
}

/// The stores and clearings of `f` that go.
pub open spec fn going(p: ProgramV, f: Function) -> Seq<Inst> {
    writebacks_from(p, f, p.placed(f), 0, Seq::empty()) + findings(p, f).covered + findings(p, f).dead
}

/// No store among `insts` reaches into the cell from elsewhere.
pub open spec fn is_apart(p: ProgramV, insts: Seq<Inst>, c: Cell) -> bool {
    forall|j: int|
        0 <= j < insts.len() && stores_byte(p, #[trigger] insts[j], c.0, c.1 as int) ==> cell_at(p, p.arg(insts[j], 1))
            == Some(c)
}

/// What is written to a cell by something that may write it: the same in both runs, or nothing in either.
pub open spec fn written_alike(m: Memory, w: Memory, m2: Memory, w2: Memory, c: Cell) -> bool {
    w2(c) == w(c) || (w(c) == m(c) && w2(c) == m2(c))
}

/// Instruction `i`, which makes `w` of memory `m`, makes `w2` of `m2` in the same way.
pub open spec fn steps_alike(p: ProgramV, f: Function, i: Inst, m: Memory, w: Memory, m2: Memory, w2: Memory) -> bool {
    match p.op(i) {
        Op::Store => match cell_at(p, p.arg(i, 1)) {
            Some(cell) => forall|c: Cell| #[trigger]
                w2(c) == if c == cell {
                    w(c)
                } else {
                    m2(c)
                },
            None => forall|c: Cell| #[trigger] written_alike(m, w, m2, w2, c),
        },
        Op::MemZero(_) => clears_alike(p, i, m, w, m2, w2),
        Op::MemZeroDyn => clears_alike(p, i, m, w, m2, w2),
        Op::Call(g) => match call_roots(p, g, f, true) {
            Some(roots) => forall|c: Cell|
                if in_roots(c, roots) {
                    #[trigger] written_alike(m, w, m2, w2, c)
                } else {
                    w2(c) == m2(c)
                },
            None => forall|c: Cell| #[trigger] written_alike(m, w, m2, w2, c),
        },
        _ => forall|c: Cell| #[trigger] w2(c) == m2(c),
    }
}

pub open spec fn clears_alike(p: ProgramV, i: Inst, m: Memory, w: Memory, m2: Memory, w2: Memory) -> bool {
    match cell_at(p, p.arg(i, 0)) {
        Some(_) => forall|c: Cell| #[trigger]
            w2(c) == if clears(p, i, c) {
                w(c)
            } else {
                m2(c)
            },
        None => forall|c: Cell| #[trigger] written_alike(m, w, m2, w2, c),
    }
}

/// All that instruction `i` may read is the same in both memories.
pub open spec fn reads_alike(p: ProgramV, f: Function, insts: Seq<Inst>, i: Inst, m: Memory, m2: Memory) -> bool {
    forall|c: Cell| is_apart(p, insts, c) && may_read(p, f, i, c) ==> #[trigger] m2(c) == m(c)
}

/// Memory went through `after` while the block ran without what goes, where it went through `before` with it:
/// an instruction that reads the same does the same.
pub open spec fn replays(
    p: ProgramV,
    f: Function,
    insts: Seq<Inst>,
    gone: Seq<Inst>,
    before: Seq<Memory>,
    after: Seq<Memory>,
) -> bool {
    &&& before.len() == insts.len() + 1
    &&& after.len() == insts.len() + 1
    &&& forall|c: Cell| #[trigger] after[0](c) == before[0](c)
    &&& forall|t: int|
        0 <= t < insts.len() ==> if gone.contains(#[trigger] insts[t]) {
            forall|c: Cell| #[trigger] after[t + 1](c) == after[t](c)
        } else {
            p.op(insts[t]) is Load || reads_alike(p, f, insts, insts[t], before[t], after[t]) ==> steps_alike(
                p,
                f,
                insts[t],
                before[t],
                before[t + 1],
                after[t],
                after[t + 1],
            )
        }
}

/// What position `a` writes to cell `c` is written over at position `b`, and in between only loads that give way
/// read it.
pub open spec fn is_window(p: ProgramV, f: Function, insts: Seq<Inst>, forwards: Seq<(Inst, Inst)>, a: int, b: int, c: Cell) -> bool {
    &&& 0 <= a < b < insts.len()
    &&& disturbs(p, f, insts[a], c)
    &&& p.op(insts[b]) is Store
    &&& cell_at(p, p.arg(insts[b], 1)) == Some(c)
    &&& forall|j: int|
        a < j < b && may_read(p, f, #[trigger] insts[j], c) ==> p.op(insts[j]) is Load && is_forwarded(
            forwards,
            insts[j],
        )
}

/// At position `t` cell `c` holds what was written before a store that is gone, and it will be written over.
pub open spec fn is_stale(p: ProgramV, f: Function, insts: Seq<Inst>, forwards: Seq<(Inst, Inst)>, t: int, c: Cell) -> bool {
    exists|a: int, b: int| a < t <= b && #[trigger] is_window(p, f, insts, forwards, a, b, c)
}

/// The findings of `next` go on from those of `st`.
pub open spec fn finds_more(st: ScanV, next: ScanV) -> bool {
    &&& st.covered.len() <= next.covered.len()
    &&& forall|k: int| 0 <= k < st.covered.len() ==> #[trigger] next.covered[k] == st.covered[k]
    &&& st.dead.len() <= next.dead.len()
    &&& forall|k: int| 0 <= k < st.dead.len() ==> #[trigger] next.dead[k] == st.dead[k]
    &&& prolongs(st.forwards, next.forwards)
}

proof fn lemma_zeros_more(zeros: Seq<ZeroV>, root: MemObject, lo: int, hi: int, kept: Seq<ZeroV>, dead: Seq<Inst>)
    ensures
        ({
            let out = zeros_stored(zeros, root, lo, hi, kept, dead).1;
            dead.len() <= out.len() && forall|k: int| 0 <= k < dead.len() ==> #[trigger] out[k] == dead[k]
        }),
    decreases zeros.len(),
{
    if zeros.len() > 0 {
        let m = zeros[0];
        let rest = zeros.drop_first();
        let s = if lo > m.off {
            lo
        } else {
            m.off
        };
        let e = if hi < m.off + m.len {
            hi
        } else {
            m.off + m.len
        };
        let out = zeros_stored(zeros, root, lo, hi, kept, dead).1;
        if m.root != root || s >= e {
            lemma_zeros_more(rest, root, lo, hi, kept.push(m), dead);
        } else if m.with(s, e).is_covered() {
            let more = dead.push(m.inst);
            lemma_zeros_more(rest, root, lo, hi, kept, more);
            assert forall|k: int| 0 <= k < dead.len() implies #[trigger] out[k] == dead[k] by {
                assert(out[k] == more[k]);
            }
        } else {
            lemma_zeros_more(rest, root, lo, hi, kept.push(m.with(s, e)), dead);
        }
    }
}

proof fn lemma_scan_more(p: ProgramV, f: Function, st: ScanV, i: Inst)
    ensures
        finds_more(st, scanned(p, f, st, i)),
{
    if p.op(i) is Store {
        if let Some(cell) = cell_at(p, p.arg(i, 1)) {
            let width = width_of(p.ty(p.arg(i, 0)));
            lemma_zeros_more(st.zeros, cell.0, cell.1 as int, cell.1 + width, Seq::empty(), st.dead);
        }
    }
}

proof fn lemma_more_twice(a: ScanV, b: ScanV, c: ScanV)
    requires
        finds_more(a, b),
        finds_more(b, c),
    ensures
        finds_more(a, c),
{
    assert forall|k: int| 0 <= k < a.covered.len() implies #[trigger] c.covered[k] == a.covered[k] by {
        assert(b.covered[k] == a.covered[k]);
    }
    assert forall|k: int| 0 <= k < a.dead.len() implies #[trigger] c.dead[k] == a.dead[k] by {
        assert(b.dead[k] == a.dead[k]);
    }
    assert forall|k: int| 0 <= k < a.forwards.len() implies #[trigger] c.forwards[k] == a.forwards[k] by {
        assert(b.forwards[k] == a.forwards[k]);
    }
}

proof fn lemma_block_more(p: ProgramV, f: Function, st: ScanV, insts: Seq<Inst>, from: int)
    ensures
        finds_more(st, scanned_all(p, f, st, insts, from)),
    decreases insts.len() - from,
{
    if from < insts.len() {
        let next = scanned(p, f, st, insts[from]);
        lemma_scan_more(p, f, st, insts[from]);
        lemma_block_more(p, f, next, insts, from + 1);
        lemma_more_twice(st, next, scanned_all(p, f, st, insts, from));
    }
}

proof fn lemma_blocks_more(p: ProgramV, f: Function, st: ScanV, blocks: Seq<BasicBlock>, from: int)
    ensures
        finds_more(st, scanned_blocks(p, f, st, blocks, from)),
    decreases blocks.len() - from,
{
    if from < blocks.len() {
        let insts = p.block(blocks[from]).insts;
        let next = scanned_all(p, f, forgotten(st), insts, 0);
        lemma_block_more(p, f, forgotten(st), insts, 0);
        lemma_blocks_more(p, f, next, blocks, from + 1);
        lemma_more_twice(forgotten(st), next, scanned_blocks(p, f, st, blocks, from));
    }
}

/// Store `s` is covered in one of the blocks.
pub open spec fn covered_somewhere(p: ProgramV, f: Function, blocks: Seq<BasicBlock>, forwards: Seq<(Inst, Inst)>, s: Inst) -> bool {
    exists|n: int|
        0 <= n < blocks.len() && overwritten_unread(p, f, p.block(#[trigger] blocks[n]).insts, forwards, s)
}

/// Clearing `s` is dead in one of the blocks.
pub open spec fn dead_somewhere(p: ProgramV, blocks: Seq<BasicBlock>, s: Inst) -> bool {
    exists|n: int| 0 <= n < blocks.len() && wholly_overwritten(p, p.block(#[trigger] blocks[n]).insts, s)
}

proof fn lemma_overwritten_more(
    p: ProgramV,
    f: Function,
    insts: Seq<Inst>,
    forwards: Seq<(Inst, Inst)>,
    more: Seq<(Inst, Inst)>,
    s: Inst,
)
    requires
        overwritten_unread(p, f, insts, forwards, s),
        prolongs(forwards, more),
    ensures
        overwritten_unread(p, f, insts, more, s),
{
    let (a, b, cell) = choose|a: int, b: int, cell: Cell|
        #[trigger] unread(p, f, insts, forwards, a, b, cell) && insts[a] == s && b < insts.len() && p.op(insts[b]) is Store
            && cell_at(p, p.arg(insts[b], 1)) == Some(cell);
    assert forall|j: int| a < j < b && may_read(p, f, #[trigger] insts[j], cell) implies p.op(insts[j]) is Load
        && is_forwarded(more, insts[j]) by {
        let k = choose|k: int| 0 <= k < forwards.len() && (#[trigger] forwards[k]).0 == insts[j];
        assert(more[k].0 == insts[j]);
    }
    assert(unread(p, f, insts, more, a, b, cell));
}

proof fn lemma_found(p: ProgramV, f: Function, st: ScanV, blocks: Seq<BasicBlock>, from: int)
    requires
        0 <= from,
    ensures
        ({
            let all = scanned_blocks(p, f, st, blocks, from);
            &&& forall|k: int|
                st.covered.len() <= k < all.covered.len() ==> covered_somewhere(
                    p,
                    f,
                    blocks,
                    all.forwards,
                    #[trigger] all.covered[k],
                )
            &&& forall|k: int| st.dead.len() <= k < all.dead.len() ==> dead_somewhere(p, blocks, #[trigger] all.dead[k])
        }),
    decreases blocks.len() - from,
{
    if from < blocks.len() {
        let insts = p.block(blocks[from]).insts;
        let next = scanned_all(p, f, forgotten(st), insts, 0);
        let all = scanned_blocks(p, f, st, blocks, from);
        lemma_block_more(p, f, forgotten(st), insts, 0);
        lemma_blocks_more(p, f, next, blocks, from + 1);
        lemma_found(p, f, next, blocks, from + 1);
        assert forall|k: int| st.covered.len() <= k < all.covered.len() implies covered_somewhere(
            p,
            f,
            blocks,
            all.forwards,
            #[trigger] all.covered[k],
        ) by {
            if k < next.covered.len() {
                covered_stores_are_not_read(p, f, insts, st, k);
                lemma_overwritten_more(p, f, insts, next.forwards, all.forwards, next.covered[k]);
                assert(p.block(blocks[from]).insts == insts);
            }
        }
        assert forall|k: int| st.dead.len() <= k < all.dead.len() implies dead_somewhere(p, blocks, #[trigger] all.dead[k]) by {
            if k < next.dead.len() {
                dead_clearings_are_overwritten(p, f, insts, st, k);
                assert(p.block(blocks[from]).insts == insts);
            }
        }
    }
}

proof fn lemma_writebacks(p: ProgramV, f: Function, insts: Seq<Inst>, from: int, found: Seq<Inst>, i: Inst)
    requires
        0 <= from,
        writebacks_from(p, f, insts, from, found).contains(i),
    ensures
        found.contains(i) || exists|k: int| 0 <= k < insts.len() && #[trigger] insts[k] == i && is_writeback(p, f, insts, k),
    decreases insts.len() - from,
{
    if from < insts.len() {
        if is_writeback(p, f, insts, from) {
            let more = found.push(insts[from]);
            lemma_writebacks(p, f, insts, from + 1, more, i);
            if more.contains(i) {
                let k = more.index_of(i);
                if k < found.len() {
                    assert(found[k] == i);
                } else {
                    assert(insts[from] == i);
                }
            }
        } else {
            lemma_writebacks(p, f, insts, from + 1, found, i);
        }
    }
}

proof fn lemma_placed_has(p: ProgramV, f: Function, from: int, found: Seq<Inst>, i: Inst)
    requires
        0 <= from,
        found.contains(i) || exists|n: int|
            from <= n < p.func(f).blocks.len() && p.block(#[trigger] p.func(f).blocks[n]).insts.contains(i),
    ensures
        p.placed_from(f, from, found).contains(i),
    decreases p.func(f).blocks.len() - from,
{
    if from < p.func(f).blocks.len() {
        let here = p.block(p.func(f).blocks[from]).insts;
        let next = found + here;
        if found.contains(i) {
            let k = found.index_of(i);
            assert(next[k] == i);
        } else {
            let n = choose|n: int|
                from <= n < p.func(f).blocks.len() && p.block(#[trigger] p.func(f).blocks[n]).insts.contains(i);
            if n == from {
                let k = here.index_of(i);
                assert(next[found.len() + k] == i);
            }
        }
        lemma_placed_has(p, f, from + 1, next, i);
    }
}

proof fn lemma_one_place(p: ProgramV, b: BasicBlock, t: int, c: BasicBlock, a: int)
    requires
        placed_once(p),
        0 <= t < p.block(b).insts.len(),
        0 <= a < p.block(c).insts.len(),
        p.block(b).insts[t] == p.block(c).insts[a],
    ensures
        b == c,
        t == a,
{
    let x = p.block(b).insts[t];
    assert(stands(p, b, p.block(b).params.len() + t, x));
    assert(stands(p, c, p.block(c).params.len() + a, x));
}

/// Where a store or a clearing goes as covered or dead, each cell that it writes is written over before it is
/// read.
proof fn lemma_window_opens(p: ProgramV, f: Function, b: BasicBlock, t: int, c: Cell)
    requires
        placed_once(p),
        0 <= t < p.block(b).insts.len(),
        findings(p, f).covered.contains(p.block(b).insts[t]) || findings(p, f).dead.contains(p.block(b).insts[t]),
        is_apart(p, p.block(b).insts, c),
    ensures
        p.op(p.block(b).insts[t]) is Store || p.op(p.block(b).insts[t]) is MemZero,
        p.op(p.block(b).insts[t]) is Store ==> cell_at(p, p.arg(p.block(b).insts[t], 1)) is Some,
        p.op(p.block(b).insts[t]) is MemZero ==> cell_at(p, p.arg(p.block(b).insts[t], 0)) is Some,
        disturbs(p, f, p.block(b).insts[t], c) ==> is_stale(
            p,
            f,
            p.block(b).insts,
            findings(p, f).forwards,
            t + 1,
            c,
        ),
{
    let insts = p.block(b).insts;
    let x = insts[t];
    let all = findings(p, f);
    let blocks = p.func(f).blocks;
    lemma_found(p, f, nothing_found(), blocks, 0);
    if all.covered.contains(x) {
        let k = all.covered.index_of(x);
        assert(covered_somewhere(p, f, blocks, all.forwards, all.covered[k]));
        let n = choose|n: int|
            0 <= n < blocks.len() && overwritten_unread(p, f, p.block(#[trigger] blocks[n]).insts, all.forwards, x);
        let there = p.block(blocks[n]).insts;
        let (a, e, cell) = choose|a: int, e: int, cell: Cell|
            #[trigger] unread(p, f, there, all.forwards, a, e, cell) && there[a] == x && e < there.len() && p.op(there[e]) is Store
                && cell_at(p, p.arg(there[e], 1)) == Some(cell);
        lemma_one_place(p, b, t, blocks[n], a);
        if disturbs(p, f, x, c) {
            assert(is_window(p, f, insts, all.forwards, t, e, c));
        }
    } else {
        let k = all.dead.index_of(x);
        assert(dead_somewhere(p, blocks, all.dead[k]));
        let n = choose|n: int| 0 <= n < blocks.len() && wholly_overwritten(p, p.block(#[trigger] blocks[n]).insts, x);
        let there = p.block(blocks[n]).insts;
        let (a, e, root, off, len) = choose|a: int, e: int, root: MemObject, off: int, len: int|
            there[a] == x && #[trigger] cleared_unread(p, there, a, e, root, off, len) && forall|y: int|
                off <= y < off + len ==> #[trigger] byte_stored(p, there, a, e, root, y);
        lemma_one_place(p, b, t, blocks[n], a);
        if disturbs(p, f, x, c) {
            assert(in_bytes(c, root, off, len));
            assert(byte_stored(p, insts, t, e, root, c.1 as int));
            let j = choose|j: int| t < j < e && stores_byte(p, #[trigger] insts[j], root, c.1 as int);
            assert(stores_byte(p, insts[j], c.0, c.1 as int));
            assert forall|i: int| t < i < j && may_read(p, f, #[trigger] insts[i], c) implies p.op(insts[i]) is Load
                && is_forwarded(all.forwards, insts[i]) by {
                assert(!may_read_bytes(p, insts[i], root, off, len));
            }
            assert(is_window(p, f, insts, all.forwards, t, j, c));
        }
    }
}

/// A store that ends a window is no write-back: something else writes its cell.
proof fn lemma_end_stays(p: ProgramV, f: Function, b: BasicBlock, a: int, e: int, c: Cell)
    requires
        placed_once(p),
        p.func(f).blocks.contains(b),
        is_window(p, f, p.block(b).insts, findings(p, f).forwards, a, e, c),
    ensures
        !writebacks_from(p, f, p.placed(f), 0, Seq::empty()).contains(p.block(b).insts[e]),
{
    let insts = p.block(b).insts;
    let all = p.placed(f);
    let x = insts[e];
    if writebacks_from(p, f, all, 0, Seq::empty()).contains(x) {
        lemma_writebacks(p, f, all, 0, Seq::empty(), x);
        let k = choose|k: int| 0 <= k < all.len() && #[trigger] all[k] == x && is_writeback(p, f, all, k);
        let n = p.func(f).blocks.index_of(b);
        assert(p.block(p.func(f).blocks[n]).insts.contains(insts[a]));
        lemma_placed_has(p, f, 0, Seq::empty(), insts[a]);
        let j = all.index_of(insts[a]);
        assert(all[j] == insts[a]);
        if j == k {
            lemma_one_place(p, b, a, b, e);
        }
        assert(!disturbs(p, f, all[j], c));
    }
}

/// Up to position `t` the memories agree but for cells that will be written over.
pub open spec fn agree_so_far(
    p: ProgramV,
    f: Function,
    insts: Seq<Inst>,
    before: Seq<Memory>,
    after: Seq<Memory>,
    t: int,
) -> bool {
    forall|c: Cell|
        is_apart(p, insts, c) ==> #[trigger] after[t](c) == before[t](c) || is_stale(
            p,
            f,
            insts,
            findings(p, f).forwards,
            t,
            c,
        )
}

/// A run of block `b` with memory going through `before`, and one without what goes, through `after`. What stores
/// back what is there changes nothing.
pub open spec fn is_replay(
    p: ProgramV,
    f: Function,
    env: spec_fn(Inst) -> int,
    b: BasicBlock,
    before: Seq<Memory>,
    after: Seq<Memory>,
) -> bool {
    let insts = p.block(b).insts;
    &&& placed_once(p)
    &&& p.func(f).blocks.contains(b)
    &&& ran(p, f, env, insts, before)
    &&& replays(p, f, insts, going(p, f), before, after)
    &&& forall|t: int, c: Cell|
        0 <= t < insts.len() && writebacks_from(p, f, p.placed(f), 0, Seq::empty()).contains(insts[t]) ==> (
        #[trigger] before[t + 1](c) == before[t](c))
}

proof fn lemma_kept_reads(
    p: ProgramV,
    f: Function,
    env: spec_fn(Inst) -> int,
    b: BasicBlock,
    before: Seq<Memory>,
    after: Seq<Memory>,
    t: int,
)
    requires
        is_replay(p, f, env, b, before, after),
        0 <= t < p.block(b).insts.len(),
        agree_so_far(p, f, p.block(b).insts, before, after, t),
    ensures
        (p.op(p.block(b).insts[t]) is Load && is_forwarded(findings(p, f).forwards, p.block(b).insts[t])) || reads_alike(
            p,
            f,
            p.block(b).insts,
            p.block(b).insts[t],
            before[t],
            after[t],
        ),
{
    let insts = p.block(b).insts;
    let fw = findings(p, f).forwards;
    if !(p.op(insts[t]) is Load && is_forwarded(fw, insts[t])) {
        assert forall|c: Cell| is_apart(p, insts, c) && may_read(p, f, insts[t], c) implies #[trigger] after[t](c)
            == before[t](c) by {
            if is_stale(p, f, insts, fw, t, c) {
                let (a, e) = choose|a: int, e: int| a < t <= e && #[trigger] is_window(p, f, insts, fw, a, e, c);
            }
        }
    }
}

proof fn lemma_agree(
    p: ProgramV,
    f: Function,
    env: spec_fn(Inst) -> int,
    b: BasicBlock,
    before: Seq<Memory>,
    after: Seq<Memory>,
    t: int,
)
    requires
        is_replay(p, f, env, b, before, after),
        0 <= t <= p.block(b).insts.len(),
    ensures
        agree_so_far(p, f, p.block(b).insts, before, after, t),
    decreases t,
{
    let insts = p.block(b).insts;
    let fw = findings(p, f).forwards;
    if t > 0 {
        let s = t - 1;
        let i = insts[s];
        lemma_agree(p, f, env, b, before, after, s);
        lemma_kept_reads(p, f, env, b, before, after, s);
        let backs = writebacks_from(p, f, p.placed(f), 0, Seq::empty());
        let gone = going(p, f);
        assert(may_step(p, f, env, insts[s], before[s], before[s + 1]));
        assert(gone.contains(i) == (backs.contains(i) || findings(p, f).covered.contains(i) || findings(
            p,
            f,
        ).dead.contains(i))) by {
            lemma_joined(backs, findings(p, f).covered, i);
            lemma_joined(backs + findings(p, f).covered, findings(p, f).dead, i);
        }
        assert forall|c: Cell| is_apart(p, insts, c) implies #[trigger] after[t](c) == before[t](c) || is_stale(
            p,
            f,
            insts,
            fw,
            t,
            c,
        ) by {
            assert(after[s](c) == before[s](c) || is_stale(p, f, insts, fw, s, c));
            lemma_cell_step(p, f, env, b, before, after, s, c);
        }
    }
}

proof fn lemma_joined(a: Seq<Inst>, b: Seq<Inst>, i: Inst)
    ensures
        (a + b).contains(i) == (a.contains(i) || b.contains(i)),
{
    if a.contains(i) {
        let k = a.index_of(i);
        assert((a + b)[k] == i);
    }
    if b.contains(i) {
        let k = b.index_of(i);
        assert((a + b)[a.len() + k] == i);
    }
    if (a + b).contains(i) {
        let k = (a + b).index_of(i);
        if k < a.len() {
            assert(a[k] == i);
        } else {
            assert(b[k - a.len()] == i);
        }
    }
}

proof fn lemma_cell_step(
    p: ProgramV,
    f: Function,
    env: spec_fn(Inst) -> int,
    b: BasicBlock,
    before: Seq<Memory>,
    after: Seq<Memory>,
    s: int,
    c: Cell,
)
    requires
        is_replay(p, f, env, b, before, after),
        0 <= s < p.block(b).insts.len(),
        is_apart(p, p.block(b).insts, c),
        after[s](c) == before[s](c) || is_stale(p, f, p.block(b).insts, findings(p, f).forwards, s, c),
        (p.op(p.block(b).insts[s]) is Load) || reads_alike(
            p,
            f,
            p.block(b).insts,
            p.block(b).insts[s],
            before[s],
            after[s],
        ),
        going(p, f).contains(p.block(b).insts[s]) == (writebacks_from(p, f, p.placed(f), 0, Seq::empty()).contains(
            p.block(b).insts[s],
        ) || findings(p, f).covered.contains(p.block(b).insts[s]) || findings(p, f).dead.contains(p.block(b).insts[s])),
    ensures
        after[s + 1](c) == before[s + 1](c) || is_stale(
            p,
            f,
            p.block(b).insts,
            findings(p, f).forwards,
            s + 1,
            c,
        ),
{
    let insts = p.block(b).insts;
    let fw = findings(p, f).forwards;
    let i = insts[s];
    let backs = writebacks_from(p, f, p.placed(f), 0, Seq::empty());
    let found = findings(p, f);
    assert(may_step(p, f, env, insts[s], before[s], before[s + 1]));
    let stale = is_stale(p, f, insts, fw, s, c);
    let (a, e) = choose|a: int, e: int| a < s <= e && #[trigger] is_window(p, f, insts, fw, a, e, c);
    if stale && s < e {
        assert(a < s + 1 <= e && is_window(p, f, insts, fw, a, e, c));
    } else {
        if stale {
            lemma_end_stays(p, f, b, a, e, c);
        }
        if going(p, f).contains(i) {
            assert(after[s + 1](c) == after[s](c));
            if found.covered.contains(i) || found.dead.contains(i) {
                lemma_window_opens(p, f, b, s, c);
                if !disturbs(p, f, i, c) {
                    assert(before[s + 1](c) == before[s](c));
                }
            } else {
                assert(backs.contains(i));
                assert(before[s + 1](c) == before[s](c));
            }
        } else {
            assert(steps_alike(p, f, insts[s], before[s], before[s + 1], after[s], after[s + 1]));
            match p.op(i) {
                Op::Store => {
                    if cell_at(p, p.arg(i, 1)) is None {
                        assert(written_alike(before[s], before[s + 1], after[s], after[s + 1], c));
                    }
                },
                Op::MemZero(_) => {
                    if cell_at(p, p.arg(i, 0)) is None {
                        assert(written_alike(before[s], before[s + 1], after[s], after[s + 1], c));
                    }
                },
                Op::MemZeroDyn => {
                    if cell_at(p, p.arg(i, 0)) is None {
                        assert(written_alike(before[s], before[s + 1], after[s], after[s + 1], c));
                    }
                },
                Op::Call(_) => {
                    assert(written_alike(before[s], before[s + 1], after[s], after[s + 1], c) || after[s + 1](c)
                        == after[s](c));
                },
                _ => {},
            }
        }
    }
}

/// Without the stores and clearings that go, a block reads and leaves what it read and left: every instruction
/// but a load whose users get the stored value finds what it reads as it was, and so does what runs after the
/// block.
pub proof fn blocks_read_the_same(
    p: ProgramV,
    f: Function,
    env: spec_fn(Inst) -> int,
    b: BasicBlock,
    before: Seq<Memory>,
    after: Seq<Memory>,
)
    requires
        is_replay(p, f, env, b, before, after),
    ensures
        forall|t: int|
            0 <= t < p.block(b).insts.len() ==> (p.op(p.block(b).insts[t]) is Load && is_forwarded(
                findings(p, f).forwards,
                p.block(b).insts[t],
            )) || #[trigger] reads_alike(p, f, p.block(b).insts, p.block(b).insts[t], before[t], after[t]),
        forall|c: Cell|
            is_apart(p, p.block(b).insts, c) ==> #[trigger] after[p.block(b).insts.len() as int](c) == before[p.block(
                b,
            ).insts.len() as int](c),
{
    let insts = p.block(b).insts;
    let n = insts.len() as int;
    assert forall|t: int| 0 <= t < insts.len() implies (p.op(insts[t]) is Load && is_forwarded(
        findings(p, f).forwards,
        insts[t],
    )) || #[trigger] reads_alike(p, f, insts, insts[t], before[t], after[t]) by {
        lemma_agree(p, f, env, b, before, after, t);
        lemma_kept_reads(p, f, env, b, before, after, t);
    }
    lemma_agree(p, f, env, b, before, after, n);
    assert forall|c: Cell| is_apart(p, insts, c) implies #[trigger] after[n](c) == before[n](c) by {
        if is_stale(p, f, insts, findings(p, f).forwards, n, c) {
            let (a, e) = choose|a: int, e: int|
                a < n <= e && #[trigger] is_window(p, f, insts, findings(p, f).forwards, a, e, c);
        }
    }
}

/// Every load that the program that comes out still uses reads what it read.
pub proof fn used_loads_read_the_same(
    p: ProgramV,
    f: Function,
    env: spec_fn(Inst) -> int,
    b: BasicBlock,
    before: Seq<Memory>,
    after: Seq<Memory>,
    t: int,
    u: Inst,
    k: int,
)
    requires
        is_replay(p, f, env, b, before, after),
        0 <= t < p.block(b).insts.len(),
        p.op(p.block(b).insts[t]) is Load,
        cell_at(p, p.arg(p.block(b).insts[t], 0)) is Some,
        is_apart(p, p.block(b).insts, cell_at(p, p.arg(p.block(b).insts[t], 0))->0),
        0 <= k < stores_cleaned(p, f).0.args(u).len(),
        stores_cleaned(p, f).0.args(u)[k] == p.block(b).insts[t],
    ensures
        after[t](cell_at(p, p.arg(p.block(b).insts[t], 0))->0) == env(p.block(b).insts[t]),
{
    let insts = p.block(b).insts;
    forwarded_loads_are_unused(p, f, u, k);
    blocks_read_the_same(p, f, env, b, before, after);
    assert(reads_alike(p, f, insts, insts[t], before[t], after[t]));
    assert(may_step(p, f, env, insts[t], before[t], before[t + 1]));
}

} // verus!
