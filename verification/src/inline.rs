//! Bodies of small functions put in place of calls.

use rustc_hash::FxHashMap;
use vstd::prelude::*;

use crate::blocked_reduction::nth;
use crate::cfg::{entry_of, none, reverse_postorder, rpo_path, tree_of, DomTree};
use crate::cloning::{move_op, moved, moved_block, sent_to};
use crate::effects::{call_edges, call_graph, may_run};
use crate::graph::{reachable, reaches};
use crate::invariant_reduction_hoisting::{blocks_copied, copy_blocks, CopyV};
use crate::ipsccp::{call_sites, sites};
use crate::ir::{has_block, inst_position, position, sliced, BasicBlock, Function, Inst, Op, ProgramV, Type};
use crate::loops::{find_loops, loops_of, views, LoopV};
use crate::names::concat3;
use crate::program::Program;
use crate::program_order::Node;
use crate::table::{fx_empty, fx_get, fx_insert};

verus! {

pub struct Inline;

pub const CALL_SIZE_LIMIT: usize = 40;

pub const TOTAL_SIZE_LIMIT: usize = 100;

pub const CALL_SIZE_LIMIT_LOOP: usize = 200;

pub const TOTAL_SIZE_LIMIT_LOOP: usize = 300;

/// The number of instructions of `f`.
pub fn estimate_size(data: &Program, f: Function) -> (r: usize)
    ensures
        r == data@.placed(f).len(),
{
    data.placed_insts(f).len()
}

/// A call to be replaced by the body of its callee.
#[verifier::ext_equal]
pub struct Site {
    pub callee: Function,
    pub caller: Function,
    pub call: Inst,
    pub block: BasicBlock,
}

/// One call graph edge out of `f` among `edges[from..]` leads back to it.
pub open spec fn calls_back(edges: Seq<(usize, usize)>, f: Function, from: int) -> bool
    decreases edges.len() - from,
{
    from < edges.len() && ((edges[from].0 == f.0 && reaches(edges, none(), edges[from].1 as int, f.0 as int))
        || calls_back(edges, f, from + 1))
}

/// A call of `f` may call `f` again.
pub open spec fn recurs(p: ProgramV, f: Function) -> bool {
    calls_back(call_edges(p), f, 0)
}

/// One of the loops `loops[from..]` holds `b`.
pub open spec fn some_loop_has(loops: Seq<LoopV>, b: BasicBlock, from: int) -> bool
    decreases loops.len() - from,
{
    from < loops.len() && (loops[from].body.contains(b) || some_loop_has(loops, b, from + 1))
}

/// Call `n` stands in a loop of its function.
pub open spec fn in_loop(p: ProgramV, n: Node) -> bool {
    match p.parent_bb(n.func, n.inst) {
        Some(b) => entry_of(p, n.func) is Some && some_loop_has(
            loops_of(tree_of(p, n.func), reverse_postorder(p, n.func)),
            b,
            0,
        ),
        None => false,
    }
}

/// One of the calls `calls[from..]` stands in a loop.
pub open spec fn some_in_loop(p: ProgramV, calls: Seq<Node>, from: int) -> bool
    decreases calls.len() - from,
{
    from < calls.len() && (in_loop(p, calls[from]) || some_in_loop(p, calls, from + 1))
}

/// The first of `calls[from..]` that neither stands in `callee` nor in a function that it may run.
pub open spec fn open_call(p: ProgramV, callee: Function, calls: Seq<Node>, from: int) -> Option<Node>
    decreases calls.len() - from,
{
    if from >= calls.len() {
        None
    } else if calls[from].func != callee && calls[from].func.0 < p.funcs.len() && !may_run(p, callee, calls[from].func) {
        Some(calls[from])
    } else {
        open_call(p, callee, calls, from + 1)
    }
}

/// The arguments `args[from..]` have the types `tys`.
pub open spec fn args_match(p: ProgramV, args: Seq<Inst>, tys: Seq<Type>, from: int) -> bool
    decreases args.len() - from,
{
    from >= args.len() || from >= tys.len() || (p.ty(args[from]) == tys[from] && args_match(p, args, tys, from + 1))
}

/// A body of `size` instructions called `n` times may be put in place of the calls.
pub open spec fn affordable(p: ProgramV, size: nat, calls: Seq<Node>) -> bool {
    let total = size * calls.len();
    (size <= 40 && total <= 100) || (size <= 200 && total <= 300 && some_in_loop(p, calls, 0))
}

/// Control goes from `op` only to `blocks`.
pub open spec fn stays_within(op: Op, blocks: Seq<BasicBlock>) -> bool {
    match op {
        Op::Jump(b) => blocks.contains(b),
        Op::Branch(t, f, _) => blocks.contains(t) && blocks.contains(f),
        Op::Return => true,
        _ => false,
    }
}

/// All of `args[from..]` exist.
pub open spec fn args_exist(p: ProgramV, args: Seq<Inst>, from: int) -> bool
    decreases args.len() - from,
{
    from >= args.len() || (!(p.op(args[from]) is Removed) && args_exist(p, args, from + 1))
}

/// The instructions `insts[from..]` can be copied: only the last ends the block, it stays among
/// `blocks`, none makes a global, and their operands exist.
pub open spec fn insts_portable(p: ProgramV, insts: Seq<Inst>, blocks: Seq<BasicBlock>, from: int) -> bool
    decreases insts.len() - from,
{
    from >= insts.len() || (!(p.op(insts[from]) is GlobalAlloc) && !(p.op(insts[from]) is TailCall) && args_exist(
        p,
        p.args(insts[from]),
        0,
    ) && (from == insts.len() - 1) == (p.op(insts[from]) is Jump || p.op(insts[from]) is Branch || p.op(
        insts[from],
    ) is Return) && (from == insts.len() - 1 ==> stays_within(p.op(insts[from]), blocks)) && insts_portable(
        p,
        insts,
        blocks,
        from + 1,
    ))
}

/// The blocks `blocks[from..]` can be copied.
pub open spec fn blocks_portable(p: ProgramV, blocks: Seq<BasicBlock>, from: int) -> bool
    decreases blocks.len() - from,
{
    from >= blocks.len() || (p.block(blocks[from]).insts.len() > 0 && insts_portable(
        p,
        p.block(blocks[from]).insts,
        blocks,
        0,
    ) && blocks_portable(p, blocks, from + 1))
}

/// The call of `callee` that is to be replaced, where there is one.
pub open spec fn site_of(p: ProgramV, callee: Function) -> Option<Site> {
    let calls = sites(p, callee);
    let f = p.func(callee);
    if entry_of(p, callee) is None || recurs(p, callee) || calls.len() == 0 || !affordable(
        p,
        p.placed(callee).len(),
        calls,
    ) {
        None
    } else {
        match open_call(p, callee, calls, 0) {
            None => None,
            Some(n) => match p.parent_bb(n.func, n.inst) {
                None => None,
                Some(b) => if p.op(n.inst) == Op::Call(callee) && p.ty(n.inst) == f.ret_ty && p.args(n.inst).len()
                    == f.param_tys.len() && args_match(p, p.args(n.inst), f.param_tys, 0) && !(p.ty(n.inst) is Unit
                    && p.is_used(n.inst)) && blocks_portable(p, f.blocks, 0) {
                    Some(Site { callee, caller: n.func, call: n.inst, block: b })
                } else {
                    None
                },
            },
        }
    }
}

/// The first call to be replaced of the functions `layout[from..]`.
pub open spec fn site_from(p: ProgramV, layout: Seq<Function>, from: int) -> Option<Site>
    decreases layout.len() - from,
{
    if from >= layout.len() {
        None
    } else {
        match site_of(p, layout[from]) {
            Some(s) => Some(s),
            None => site_from(p, layout, from + 1),
        }
    }
}

/// Block `b` split behind `i`: what follows goes to a new block right behind it.
pub open spec fn split_after(p: ProgramV, f: Function, b: BasicBlock, i: Inst, name: Seq<char>, tys: Seq<Type>) -> ProgramV {
    let c = p.next_block();
    let insts = p.block(b).insts;
    let k = position(insts, i, 0) + 1;
    let cut = if k <= insts.len() {
        k
    } else {
        insts.len() as int
    };
    p.basic_block(name, tys).insert_bb_after(f, b, c).set_block_insts(b, insts.subrange(0, cut)).set_block_insts(
        c,
        insts.subrange(cut, insts.len() as int),
    )
}

/// A place for each of `insts[from..]` at the end of block `c`, and which place is whose behind `m`.
pub open spec fn places_made(p: ProgramV, m: Map<usize, Inst>, insts: Seq<Inst>, c: BasicBlock, from: int) -> (
    ProgramV,
    Map<usize, Inst>,
)
    decreases insts.len() - from,
{
    if from >= insts.len() {
        (p, m)
    } else {
        let place = p.next_inst();
        places_made(
            p.push_inst(Op::Undef, Seq::empty(), p.ty(insts[from]), false).append(c, place),
            m.insert(insts[from].0, place),
            insts,
            c,
            from + 1,
        )
    }
}

/// Places in the copies of the blocks `pairs[from..]` for their instructions.
pub open spec fn all_places_made(p: ProgramV, m: Map<usize, Inst>, pairs: Seq<(BasicBlock, BasicBlock)>, from: int) -> (
    ProgramV,
    Map<usize, Inst>,
)
    decreases pairs.len() - from,
{
    if from >= pairs.len() {
        (p, m)
    } else {
        let (q, more) = places_made(p, m, p.block(pairs[from].0).insts, pairs[from].1, 0);
        all_places_made(q, more, pairs, from + 1)
    }
}

/// What stands for value `a` in the copy.
pub open spec fn stand_in(p: ProgramV, m: Map<usize, Inst>, a: Inst) -> Inst {
    if !p.inst(a).global && m.contains_key(a.0) {
        m[a.0]
    } else {
        a
    }
}

pub open spec fn stand_ins(p: ProgramV, m: Map<usize, Inst>, args: Seq<Inst>) -> Seq<Inst> {
    Seq::new(args.len(), |k: int| stand_in(p, m, args[k]))
}

/// The places of `insts[from..]` filled with copies of them.
pub open spec fn places_filled(
    p: ProgramV,
    m: Map<usize, Inst>,
    pairs: Seq<(BasicBlock, BasicBlock)>,
    insts: Seq<Inst>,
    from: int,
) -> ProgramV
    decreases insts.len() - from,
{
    if from >= insts.len() {
        p
    } else {
        let i = insts[from];
        places_filled(
            p.set_inst(stand_in(p, m, i), moved(p.op(i), pairs), stand_ins(p, m, p.args(i)), p.ty(i)),
            m,
            pairs,
            insts,
            from + 1,
        )
    }
}

/// The places in the copies of the blocks `pairs[from..]` filled.
pub open spec fn all_places_filled(
    p: ProgramV,
    m: Map<usize, Inst>,
    pairs: Seq<(BasicBlock, BasicBlock)>,
    from: int,
) -> ProgramV
    decreases pairs.len() - from,
{
    if from >= pairs.len() {
        p
    } else {
        all_places_filled(places_filled(p, m, pairs, p.block(pairs[from].0).insts, 0), m, pairs, from + 1)
    }
}

/// The bodies of the blocks `pairs` copied: every instruction in its order, the values of the blocks replaced
/// by their copies.
pub open spec fn bodies_ported(p: ProgramV, m: Map<usize, Inst>, pairs: Seq<(BasicBlock, BasicBlock)>) -> ProgramV {
    let (q, more) = all_places_made(p, m, pairs, 0);
    all_places_filled(q, more, pairs, 0)
}

/// The returns at the ends of the copies `pairs[from..]` made jumps to `c` with what they return.
pub open spec fn returns_routed(p: ProgramV, pairs: Seq<(BasicBlock, BasicBlock)>, c: BasicBlock, from: int) -> ProgramV
    decreases pairs.len() - from,
{
    if from >= pairs.len() {
        p
    } else {
        let t = p.terminator(pairs[from].1);
        returns_routed(
            if p.op(t) is Return {
                p.set_inst(t, Op::Jump(c), p.args(t), Type::Unit)
            } else {
                p
            },
            pairs,
            c,
            from + 1,
        )
    }
}

/// The types of the parameters of the block that gets what a call of type `ty` gives.
pub open spec fn result_types(ty: Type) -> Seq<Type> {
    if ty is Unit {
        Seq::empty()
    } else {
        seq![ty]
    }
}

/// The call of `s` replaced by a copy of the body of its callee.
pub open spec fn inlined(p: ProgramV, s: Site) -> ProgramV {
    let args = p.args(s.call);
    let ty = p.ty(s.call);
    let c = p.next_block();
    let p1 = split_after(
        p,
        s.caller,
        s.block,
        s.call,
        ""@ + p.block(s.block).name + "_inline_cont"@,
        result_types(p.func(s.callee).ret_ty),
    );
    let blocks = p1.func(s.callee).blocks;
    let st = blocks_copied(
        (CopyV { p: p1, pairs: Seq::empty(), m: Map::empty(), anchor: s.block }),
        s.caller,
        ""@,
        "_"@ + p1.func(s.callee).name + "_inline"@,
        blocks,
        0,
    );
    let p2 = bodies_ported(st.p, st.m, st.pairs);
    let p3 = returns_routed(p2, st.pairs, c, 0);
    let p4 = if ty is Unit {
        p3
    } else {
        p3.replace_uses(s.call, nth(p3.block(c).params, 0))
    };
    let p5 = p4.remove(s.block, s.call);
    p5.push_inst(Op::Jump(moved_block(st.pairs, nth_block(blocks, 0))), args, Type::Unit, false).append(
        s.block,
        p5.next_inst(),
    )
}

/// The first block of a list that has one.
pub open spec fn nth_block(s: Seq<BasicBlock>, k: int) -> BasicBlock {
    if 0 <= k < s.len() {
        s[k]
    } else {
        BasicBlock(usize::MAX)
    }
}

/// Calls replaced as long as there is one to replace, at most `rounds` times.
pub open spec fn all_inlined(p: ProgramV, rounds: nat, changed: bool) -> (ProgramV, bool)
    decreases rounds,
{
    if rounds == 0 {
        (p, changed)
    } else {
        match site_from(p, p.layout, 0) {
            None => (p, changed),
            Some(s) => all_inlined(inlined(p, s), (rounds - 1) as nat, true),
        }
    }
}

fn is_recursive(p: &Program, f: Function) -> (r: bool)
    ensures
        r == recurs(p@, f),
{
    let edges = call_graph(p);
    let n: usize = p.num_funcs();
    let mut k: usize = 0;
    while k < edges.len()
        invariant
            k <= edges@.len(),
            edges@ == call_edges(p@),
            crate::cfg::in_range(edges@, n as int),
            calls_back(edges@, f, 0) == calls_back(edges@, f, k as int),
        decreases edges@.len() - k,
    {
        let e = edges[k];
        assert(edges@[k as int] == e);
        if e.0 == f.0 && f.0 < n {
            let seen = reachable(n, &edges, e.1, usize::MAX);
            if seen[f.0] {
                return true;
            }
        }
        k += 1;
    }
    false
}

fn reaches_function(p: &Program, f: Function, g: Function) -> (r: bool)
    requires
        f.0 < p@.funcs.len(),
    ensures
        r == (g.0 < p@.funcs.len() && may_run(p@, f, g)),
{
    let edges = call_graph(p);
    let n: usize = p.num_funcs();
    if g.0 >= n {
        return false;
    }
    let seen = reachable(n, &edges, f.0, usize::MAX);
    seen[g.0]
}

fn stands_in_loop(p: &Program, n: Node) -> (r: bool)
    ensures
        r == in_loop(p@, n),
{
    let b = match p.parent_bb(n.func, n.inst) {
        Some(b) => b,
        None => {
            return false;
        },
    };
    let tree = match DomTree::new(p, n.func) {
        Some(t) => t,
        None => {
            return false;
        },
    };
    let order = rpo_path(p, n.func);
    let loops = find_loops(&tree, &order);
    let mut k: usize = 0;
    while k < loops.len()
        invariant
            k <= loops@.len(),
            entry_of(p@, n.func) is Some,
            p@.parent_bb(n.func, n.inst) == Some(b),
            views(loops@) == loops_of(tree_of(p@, n.func), reverse_postorder(p@, n.func)),
            some_loop_has(views(loops@), b, 0) == some_loop_has(views(loops@), b, k as int),
        decreases loops@.len() - k,
    {
        assert(views(loops@)[k as int] == loops@[k as int]@);
        if loops[k].contains(b) {
            return true;
        }
        k += 1;
    }
    false
}

fn do_args_match(p: &Program, args: &Vec<Inst>, f: Function) -> (r: bool)
    ensures
        r == args_match(p@, args@, p@.func(f).param_tys, 0),
{
    let n: usize = p.num_params(f);
    let mut k: usize = 0;
    while k < args.len() && k < n
        invariant
            k <= args@.len(),
            k <= n,
            n == p@.func(f).param_tys.len(),
            args_match(p@, args@, p@.func(f).param_tys, 0) == args_match(p@, args@, p@.func(f).param_tys, k as int),
        decreases args@.len() - k,
    {
        let ty = p.param_ty(f, k);
        if !p.ty(args[k]).same(&ty) {
            return false;
        }
        k += 1;
    }
    true
}

fn do_args_exist(p: &Program, args: &Vec<Inst>) -> (r: bool)
    ensures
        r == args_exist(p@, args@, 0),
{
    let mut k: usize = 0;
    while k < args.len()
        invariant
            k <= args@.len(),
            args_exist(p@, args@, 0) == args_exist(p@, args@, k as int),
        decreases args@.len() - k,
    {
        if !p.has_inst_data(args[k]) {
            return false;
        }
        k += 1;
    }
    true
}

fn does_stay_within(op: Op, blocks: &Vec<BasicBlock>) -> (r: bool)
    ensures
        r == stays_within(op, blocks@),
{
    match op {
        Op::Jump(b) => has_block(blocks, b),
        Op::Branch(t, f, _) => has_block(blocks, t) && has_block(blocks, f),
        Op::Return => true,
        _ => false,
    }
}

fn are_insts_portable(p: &Program, insts: &Vec<Inst>, blocks: &Vec<BasicBlock>) -> (r: bool)
    ensures
        r == insts_portable(p@, insts@, blocks@, 0),
{
    let mut k: usize = 0;
    while k < insts.len()
        invariant
            k <= insts@.len(),
            insts_portable(p@, insts@, blocks@, 0) == insts_portable(p@, insts@, blocks@, k as int),
        decreases insts@.len() - k,
    {
        let op = p.op(insts[k]);
        let args = p.args(insts[k]);
        let last = k == insts.len() - 1;
        let ends = matches!(op, Op::Jump(_) | Op::Branch(_, _, _) | Op::Return);
        if matches!(op, Op::GlobalAlloc | Op::TailCall(_)) || !do_args_exist(p, &args) || last != ends || (last
            && !does_stay_within(op, blocks)) {
            return false;
        }
        k += 1;
    }
    true
}

fn are_blocks_portable(p: &Program, blocks: &Vec<BasicBlock>) -> (r: bool)
    ensures
        r == blocks_portable(p@, blocks@, 0),
{
    let mut k: usize = 0;
    while k < blocks.len()
        invariant
            k <= blocks@.len(),
            blocks_portable(p@, blocks@, 0) == blocks_portable(p@, blocks@, k as int),
        decreases blocks@.len() - k,
    {
        let insts = p.block_insts(blocks[k]);
        if insts.len() == 0 || !are_insts_portable(p, &insts, blocks) {
            return false;
        }
        k += 1;
    }
    true
}

impl Inline {
    /// Whether one of `callsites` stands in a loop of its function.
    pub fn any_callsite_in_loop(program: &Program, callsites: &Vec<Node>) -> (r: bool)
        ensures
            r == some_in_loop(program@, callsites@, 0),
    {
        let mut k: usize = 0;
        while k < callsites.len()
            invariant
                k <= callsites@.len(),
                some_in_loop(program@, callsites@, 0) == some_in_loop(program@, callsites@, k as int),
            decreases callsites@.len() - k,
        {
            if stands_in_loop(program, callsites[k]) {
                return true;
            }
            k += 1;
        }
        false
    }

    fn is_affordable(program: &Program, size: usize, calls: &Vec<Node>) -> (r: bool)
        ensures
            r == affordable(program@, size as nat, calls@),
    {
        let n: usize = calls.len();
        if size > CALL_SIZE_LIMIT_LOOP || (size > 0 && n > TOTAL_SIZE_LIMIT_LOOP) {
            assert(size > 0 && n > 300 ==> size * n > 300) by (nonlinear_arith);
            return false;
        }
        assert(size <= 200 && n <= 300 ==> size * n <= 60000) by (nonlinear_arith);
        assert(size == 0 ==> size * n == 0) by (nonlinear_arith);
        let total: usize = if size == 0 {
            0
        } else {
            size * n
        };
        if size <= CALL_SIZE_LIMIT && total <= TOTAL_SIZE_LIMIT {
            return true;
        }
        total <= TOTAL_SIZE_LIMIT_LOOP && Self::any_callsite_in_loop(program, calls)
    }

    fn find_site(program: &Program, callee: Function) -> (r: Option<Site>)
        ensures
            r == site_of(program@, callee),
    {
        let blocks = program.basicblocks(callee);
        if blocks.len() == 0 || blocks[0].0 >= program.num_blocks() {
            return None;
        }
        let calls = call_sites(program, callee);
        let size: usize = estimate_size(program, callee);
        if is_recursive(program, callee) || calls.len() == 0 || !Self::is_affordable(program, size, &calls) {
            return None;
        }
        let mut k: usize = 0;
        while k < calls.len()
            invariant
                k <= calls@.len(),
                entry_of(program@, callee) is Some,
                callee.0 < program@.funcs.len(),
                calls@ == sites(program@, callee),
                blocks@ == program@.func(callee).blocks,
                !recurs(program@, callee),
                calls@.len() > 0,
                affordable(program@, program@.placed(callee).len(), calls@),
                open_call(program@, callee, calls@, 0) == open_call(program@, callee, calls@, k as int),
            decreases calls@.len() - k,
        {
            let n = calls[k];
            if n.func != callee && !reaches_function(program, callee, n.func) && n.func.0 < program.num_funcs() {
                let b = match program.parent_bb(n.func, n.inst) {
                    Some(b) => b,
                    None => {
                        return None;
                    },
                };
                let args = program.args(n.inst);
                let ty = program.ty(n.inst);
                let ret = program.ret_ty(callee);
                if program.op(n.inst) != Op::Call(callee) || !ty.same(&ret) || args.len() != program.num_params(callee)
                    || !do_args_match(program, &args, callee) || (ty.is_unit() && program.is_used(n.inst))
                    || !are_blocks_portable(program, &blocks) {
                    return None;
                }
                return Some(Site { callee, caller: n.func, call: n.inst, block: b });
            }
            k += 1;
        }
        None
    }

    /// The first call that is to be replaced.
    pub fn find_candidate(program: &Program) -> (r: Option<Site>)
        ensures
            r == site_from(program@, program@.layout, 0),
    {
        let layout = program.function_layout();
        let mut k: usize = 0;
        while k < layout.len()
            invariant
                k <= layout@.len(),
                layout@ == program@.layout,
                site_from(program@, layout@, 0) == site_from(program@, layout@, k as int),
            decreases layout@.len() - k,
        {
            if let Some(s) = Self::find_site(program, layout[k]) {
                return Some(s);
            }
            k += 1;
        }
        None
    }

    fn split(program: &mut Program, f: Function, b: BasicBlock, i: Inst, name: String, tys: Vec<Type>) -> (c: BasicBlock)
        ensures
            final(program)@ == split_after(old(program)@, f, b, i, name@, tys@),
            c == old(program)@.next_block(),
    {
        let insts = program.block_insts(b);
        let at = inst_position(&insts, i);
        let cut: usize = if at < insts.len() {
            at + 1
        } else {
            insts.len()
        };
        let head = sliced(&insts, 0, cut);
        let tail = sliced(&insts, cut, insts.len());
        let c = program.basic_block(name, tys);
        program.insert_bb_after(f, b, c);
        program.replace_block_insts(b, head);
        program.replace_block_insts(c, tail);
        c
    }

    fn make_places(program: &mut Program, m: &mut FxHashMap<usize, Inst>, pairs: &Vec<(BasicBlock, BasicBlock)>)
        ensures
            (final(program)@, final(m)@) == all_places_made(old(program)@, old(m)@, pairs@, 0),
    {
        let ghost start = (program@, m@);
        let mut k: usize = 0;
        while k < pairs.len()
            invariant
                k <= pairs@.len(),
                all_places_made(start.0, start.1, pairs@, 0) == all_places_made(program@, m@, pairs@, k as int),
            decreases pairs@.len() - k,
        {
            let insts = program.block_insts(pairs[k].0);
            let c = pairs[k].1;
            let ghost mid = (program@, m@);
            let mut j: usize = 0;
            while j < insts.len()
                invariant
                    j <= insts@.len(),
                    places_made(mid.0, mid.1, insts@, c, 0) == places_made(program@, m@, insts@, c, j as int),
                decreases insts@.len() - j,
            {
                let ty = program.ty(insts[j]);
                let place = program.undef(ty);
                program.insert_inst(c, place);
                fx_insert(m, insts[j].0, place);
                j += 1;
            }
            k += 1;
        }
    }

    fn stand_in(program: &Program, m: &FxHashMap<usize, Inst>, a: Inst) -> (r: Inst)
        ensures
            r == stand_in(program@, m@, a),
    {
        if program.is_global(a) {
            return a;
        }
        match fx_get(m, a.0) {
            Some(x) => x,
            None => a,
        }
    }

    fn stand_ins(program: &Program, m: &FxHashMap<usize, Inst>, args: &Vec<Inst>) -> (r: Vec<Inst>)
        ensures
            r@ == stand_ins(program@, m@, args@),
    {
        let mut r: Vec<Inst> = Vec::new();
        let mut k: usize = 0;
        while k < args.len()
            invariant
                k <= args@.len(),
                r@.len() == k,
                forall|j: int| 0 <= j < k ==> r@[j] == stand_in(program@, m@, args@[j]),
            decreases args@.len() - k,
        {
            r.push(Self::stand_in(program, m, args[k]));
            k += 1;
        }
        assert(r@ =~= stand_ins(program@, m@, args@));
        r
    }

    fn fill_places(program: &mut Program, m: &FxHashMap<usize, Inst>, pairs: &Vec<(BasicBlock, BasicBlock)>)
        ensures
            final(program)@ == all_places_filled(old(program)@, m@, pairs@, 0),
    {
        let mut k: usize = 0;
        while k < pairs.len()
            invariant
                k <= pairs@.len(),
                all_places_filled(old(program)@, m@, pairs@, 0) == all_places_filled(program@, m@, pairs@, k as int),
            decreases pairs@.len() - k,
        {
            let insts = program.block_insts(pairs[k].0);
            let ghost mid = program@;
            let mut j: usize = 0;
            while j < insts.len()
                invariant
                    j <= insts@.len(),
                    places_filled(mid, m@, pairs@, insts@, 0) == places_filled(program@, m@, pairs@, insts@, j as int),
                decreases insts@.len() - j,
            {
                let i = insts[j];
                let place = Self::stand_in(program, m, i);
                let op = move_op(program.op(i), pairs);
                let args = Self::stand_ins(program, m, &program.args(i));
                let ty = program.ty(i);
                program.set_inst(place, op, args, ty);
                j += 1;
            }
            k += 1;
        }
    }

    fn route_returns(program: &mut Program, pairs: &Vec<(BasicBlock, BasicBlock)>, c: BasicBlock)
        ensures
            final(program)@ == returns_routed(old(program)@, pairs@, c, 0),
    {
        let mut k: usize = 0;
        while k < pairs.len()
            invariant
                k <= pairs@.len(),
                returns_routed(old(program)@, pairs@, c, 0) == returns_routed(program@, pairs@, c, k as int),
            decreases pairs@.len() - k,
        {
            let t = program.terminator(pairs[k].1);
            if let Op::Return = program.op(t) {
                let args = program.args(t);
                program.set_inst(t, Op::Jump(c), args, Type::Unit);
            }
            k += 1;
        }
    }

    fn replace(program: &mut Program, s: &Site)
        ensures
            final(program)@ == inlined(old(program)@, *s),
    {
        let args = program.args(s.call);
        let ty = program.ty(s.call);
        let ret = program.ret_ty(s.callee);
        let mut tys: Vec<Type> = Vec::new();
        if !ret.is_unit() {
            tys.push(ret);
        }
        assert(tys@ =~= result_types(program@.func(s.callee).ret_ty));
        let name = concat3("", program.block_name(s.block).as_str(), "_inline_cont");
        let c = Self::split(program, s.caller, s.block, s.call, name, tys);
        let blocks = program.basicblocks(s.callee);
        let suffix = concat3("_", program.func_name(s.callee).as_str(), "_inline");
        let mut pairs: Vec<(BasicBlock, BasicBlock)> = Vec::new();
        assert(pairs@ =~= Seq::empty());
        let mut m: FxHashMap<usize, Inst> = fx_empty();
        copy_blocks(program, s.caller, "", suffix.as_str(), &blocks, s.block, &mut pairs, &mut m);
        Self::make_places(program, &mut m, &pairs);
        Self::fill_places(program, &m, &pairs);
        Self::route_returns(program, &pairs, c);
        if !ty.is_unit() {
            let params = program.block_params(c);
            let result = if params.len() > 0 {
                params[0]
            } else {
                Inst(usize::MAX)
            };
            program.replace_uses(s.call, result);
        }
        program.remove_layout_inst(s.block, s.call);
        let first = if blocks.len() > 0 {
            blocks[0]
        } else {
            BasicBlock(usize::MAX)
        };
        let entry = match sent_to(&pairs, first) {
            Some(x) => x,
            None => first,
        };
        let jump = program.jump(entry, args);
        program.insert_inst(s.block, jump);
    }

    /// Replaces calls by bodies as long as there is one to replace, at most as often as the largest
    /// machine integer. True when anything changed.
    pub fn run(&mut self, program: &mut Program) -> (changed: bool)
        ensures
            (final(program)@, changed) == all_inlined(old(program)@, usize::MAX as nat, false),
    {
        let mut changed = false;
        let mut rounds: usize = usize::MAX;
        while rounds > 0
            invariant
                all_inlined(old(program)@, usize::MAX as nat, false) == all_inlined(
                    program@,
                    rounds as nat,
                    changed,
                ),
            decreases rounds,
        {
            match Self::find_candidate(program) {
                None => {
                    return changed;
                },
                Some(s) => {
                    Self::replace(program, &s);
                    changed = true;
                },
            }
            rounds -= 1;
        }
        changed
    }
}

} // verus!
