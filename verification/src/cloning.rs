//! Copies of instructions for another place.

use rustc_hash::FxHashMap;
use vstd::prelude::*;

use crate::ir::{BasicBlock, Function, Inst, Op, ProgramV};
use crate::program::Program;
use crate::table::{fx_get, fx_insert};

verus! {

/// The block that stands for `b` by the first of `pairs[from..]` that names it.
pub open spec fn sent(pairs: Seq<(BasicBlock, BasicBlock)>, b: BasicBlock, from: int) -> Option<BasicBlock>
    decreases pairs.len() - from,
{
    if from >= pairs.len() {
        None
    } else if pairs[from].0 == b {
        Some(pairs[from].1)
    } else {
        sent(pairs, b, from + 1)
    }
}

/// The block that stands for `b`, or `b` where none does.
pub open spec fn moved_block(pairs: Seq<(BasicBlock, BasicBlock)>, b: BasicBlock) -> BasicBlock {
    match sent(pairs, b, 0) {
        Some(x) => x,
        None => b,
    }
}

/// The operation with the blocks it names replaced by those that stand for them.
pub open spec fn moved(op: Op, pairs: Seq<(BasicBlock, BasicBlock)>) -> Op {
    match op {
        Op::Jump(b) => Op::Jump(moved_block(pairs, b)),
        Op::Branch(t, f, n) => Op::Branch(moved_block(pairs, t), moved_block(pairs, f), n),
        _ => op,
    }
}

/// Instruction `i` of `f` copied: what stands for it in `m` where something does, a new instruction
/// where its block is sent somewhere, and `i` itself otherwise.
pub open spec fn cloned(
    p: ProgramV,
    f: Function,
    pairs: Seq<(BasicBlock, BasicBlock)>,
    m: Map<usize, Inst>,
    i: Inst,
    fuel: nat,
) -> (ProgramV, Map<usize, Inst>, Inst)
    decreases fuel, 0int, 0int,
{
    if p.inst(i).global {
        (p, m, i)
    } else if m.contains_key(i.0) {
        (p, m, m[i.0])
    } else if fuel == 0 {
        (p, m, i)
    } else {
        match p.parent_bb(f, i) {
            None => (p, m, i),
            Some(b) => match sent(pairs, b, 0) {
                None => (p, m, i),
                Some(dest) => {
                    let shell = p.next_inst();
                    let (q, more, args) = all_cloned(
                        p.push_inst(Op::Undef, Seq::empty(), p.ty(i), false),
                        f,
                        pairs,
                        m.insert(i.0, shell),
                        p.args(i),
                        0,
                        Seq::empty(),
                        (fuel - 1) as nat,
                    );
                    (q.set_inst(shell, moved(p.op(i), pairs), args, p.ty(i)).append(dest, shell), more, shell)
                },
            },
        }
    }
}

/// The instructions `args[from..]` copied, the copies behind `out`.
pub open spec fn all_cloned(
    p: ProgramV,
    f: Function,
    pairs: Seq<(BasicBlock, BasicBlock)>,
    m: Map<usize, Inst>,
    args: Seq<Inst>,
    from: int,
    out: Seq<Inst>,
    fuel: nat,
) -> (ProgramV, Map<usize, Inst>, Seq<Inst>)
    decreases fuel, 1int, args.len() - from,
{
    if from >= args.len() {
        (p, m, out)
    } else {
        let (q, more, r) = cloned(p, f, pairs, m, args[from], fuel);
        all_cloned(q, f, pairs, more, args, from + 1, out.push(r), fuel)
    }
}

/// The block that stands for `b`.
pub fn sent_to(pairs: &Vec<(BasicBlock, BasicBlock)>, b: BasicBlock) -> (r: Option<BasicBlock>)
    ensures
        r == sent(pairs@, b, 0),
{
    let mut k: usize = 0;
    while k < pairs.len()
        invariant
            k <= pairs@.len(),
            sent(pairs@, b, 0) == sent(pairs@, b, k as int),
        decreases pairs@.len() - k,
    {
        if pairs[k].0 == b {
            return Some(pairs[k].1);
        }
        k += 1;
    }
    None
}

fn move_block(pairs: &Vec<(BasicBlock, BasicBlock)>, b: BasicBlock) -> (r: BasicBlock)
    ensures
        r == moved_block(pairs@, b),
{
    match sent_to(pairs, b) {
        Some(x) => x,
        None => b,
    }
}

pub fn move_op(op: Op, pairs: &Vec<(BasicBlock, BasicBlock)>) -> (r: Op)
    ensures
        r == moved(op, pairs@),
{
    match op {
        Op::Jump(b) => Op::Jump(move_block(pairs, b)),
        Op::Branch(t, f, n) => Op::Branch(move_block(pairs, t), move_block(pairs, f), n),
        _ => op,
    }
}

/// Copies instruction `i` of `f` and what it needs.
pub fn clone_inst(
    p: &mut Program,
    f: Function,
    pairs: &Vec<(BasicBlock, BasicBlock)>,
    m: &mut FxHashMap<usize, Inst>,
    i: Inst,
    fuel: usize,
) -> (r: Inst)
    ensures
        (final(p)@, final(m)@, r) == cloned(old(p)@, f, pairs@, old(m)@, i, fuel as nat),
    decreases fuel, 0int, 0int,
{
    if p.is_global(i) {
        return i;
    }
    if let Some(r) = fx_get(m, i.0) {
        return r;
    }
    if fuel == 0 {
        return i;
    }
    let dest = match p.parent_bb(f, i) {
        None => {
            return i;
        },
        Some(b) => match sent_to(pairs, b) {
            None => {
                return i;
            },
            Some(d) => d,
        },
    };
    let op = p.op(i);
    let args = p.args(i);
    let ty = p.ty(i);
    let shell_ty = p.ty(i);
    let shell = p.undef(shell_ty);
    fx_insert(m, i.0, shell);
    let copies = clone_all(p, f, pairs, m, &args, fuel - 1);
    p.set_inst(shell, move_op(op, pairs), copies, ty);
    p.insert_inst(dest, shell);
    shell
}

/// Copies the instructions `args`.
pub fn clone_all(
    p: &mut Program,
    f: Function,
    pairs: &Vec<(BasicBlock, BasicBlock)>,
    m: &mut FxHashMap<usize, Inst>,
    args: &Vec<Inst>,
    fuel: usize,
) -> (out: Vec<Inst>)
    ensures
        (final(p)@, final(m)@, out@) == all_cloned(
            old(p)@,
            f,
            pairs@,
            old(m)@,
            args@,
            0,
            Seq::empty(),
            fuel as nat,
        ),
    decreases fuel, 1int, args@.len(),
{
    let ghost start = (p@, m@);
    let mut out: Vec<Inst> = Vec::new();
    assert(out@ =~= Seq::empty());
    let mut k: usize = 0;
    while k < args.len()
        invariant
            k <= args@.len(),
            all_cloned(start.0, f, pairs@, start.1, args@, 0, Seq::empty(), fuel as nat) == all_cloned(
                p@,
                f,
                pairs@,
                m@,
                args@,
                k as int,
                out@,
                fuel as nat,
            ),
        decreases args@.len() - k,
    {
        let r = clone_inst(p, f, pairs, m, args[k], fuel);
        out.push(r);
        k += 1;
    }
    out
}

} // verus!
