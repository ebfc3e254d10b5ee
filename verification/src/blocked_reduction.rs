//! Running a strided multiply-and-subtract loop in four lanes.

use rustc_hash::FxHashMap;
use vstd::prelude::*;

use crate::arith::{int_op, wrap32};
use crate::cloning::{clone_inst, cloned};
use crate::cfg::{entry_of, reverse_postorder, rpo_path, tree_of, DomTree, TreeV};
use crate::edges::{edge_args, incoming, incoming_edges, Edge};
use crate::if_conversion::is_const;
use crate::ir::{
    has_inst, inst_position, joined, nothing, position, position_is_first, BasicBlock, BinaryOp, Function, Inst, Op,
    ProgramV, Type,
};
use crate::loops::{find_loops, loops_of, views, Loop, LoopV};
use crate::program::Program;
use crate::table::{fx_empty, fx_get, fx_insert};

verus! {

pub const UNROLL_FACTOR: usize = 4;

pub struct BlockedReduction;

/// The loop to be run in lanes, with the parts its values play.
#[verifier::ext_equal]
pub struct CandidateV {
    pub header: BasicBlock,
    pub body: BasicBlock,
    pub exit: BasicBlock,
    pub k_param: Inst,
    pub acc_param: Inst,
    pub ctr_param: Inst,
    pub ptr_param: Inst,
    pub acc_back: Inst,
    pub k_back: Inst,
    pub ctr_back: Inst,
    pub ptr_back: Inst,
    pub passthroughs: Seq<(Inst, usize)>,
    pub bound: Inst,
    pub stride: i64,
    pub header_params: Seq<Inst>,
    pub exit_args: Seq<Inst>,
}

pub struct Candidate {
    pub header: BasicBlock,
    pub body: BasicBlock,
    pub exit: BasicBlock,
    pub k_param: Inst,
    pub acc_param: Inst,
    pub ctr_param: Inst,
    pub ptr_param: Inst,
    pub acc_back: Inst,
    pub k_back: Inst,
    pub ctr_back: Inst,
    pub ptr_back: Inst,
    pub passthroughs: Vec<(Inst, usize)>,
    pub bound: Inst,
    pub stride: i64,
    pub header_params: Vec<Inst>,
    pub exit_args: Vec<Inst>,
}

impl View for Candidate {
    type V = CandidateV;

    open spec fn view(&self) -> CandidateV {
        CandidateV {
            header: self.header,
            body: self.body,
            exit: self.exit,
            k_param: self.k_param,
            acc_param: self.acc_param,
            ctr_param: self.ctr_param,
            ptr_param: self.ptr_param,
            acc_back: self.acc_back,
            k_back: self.k_back,
            ctr_back: self.ctr_back,
            ptr_back: self.ptr_back,
            passthroughs: self.passthroughs@,
            bound: self.bound,
            stride: self.stride,
            header_params: self.header_params@,
            exit_args: self.exit_args@,
        }
    }
}

/// Entry `k` of `s`; no value at all where there are fewer.
pub open spec fn nth(s: Seq<Inst>, k: int) -> Inst {
    if 0 <= k < s.len() {
        s[k]
    } else {
        nothing()
    }
}

fn at(v: &Vec<Inst>, k: usize) -> (r: Inst)
    ensures
        r == nth(v@, k as int),
{
    if k < v.len() {
        v[k]
    } else {
        Inst(usize::MAX)
    }
}

/// Value `i` is the literal `value`.
pub open spec fn literal_is(p: ProgramV, i: Inst, value: i64) -> bool {
    p.op(i) matches Op::Integer(v) && v == value
}

/// Whether `inst` is the literal `value`.
pub fn is_constant(data: &Program, inst: Inst, value: i64) -> (r: bool)
    ensures
        r == literal_is(data@, inst, value),
{
    match data.op(inst) {
        Op::Integer(v) => v as i64 == value,
        _ => false,
    }
}

/// The address computation that a load reads through.
pub open spec fn load_address(p: ProgramV, load: Inst) -> Option<Inst> {
    if p.op(load) is Load && p.op(p.arg(load, 0)) is GetElemPtr {
        Some(p.arg(load, 0))
    } else {
        None
    }
}

/// The address computation that `load` reads through.
pub fn gep_of(data: &Program, load: Inst) -> (r: Option<Inst>)
    ensures
        r == load_address(data@, load),
{
    match data.op(load) {
        Op::Load => {
            let src = data.arg(load, 0);
            match data.op(src) {
                Op::GetElemPtr => Some(src),
                _ => None,
            }
        },
        _ => None,
    }
}

/// The offset of an address computation with one literal offset.
pub open spec fn only_offset(p: ProgramV, gep: Inst) -> Option<i64> {
    if p.args(gep).len() == 2 {
        match p.op(p.arg(gep, 1)) {
            Op::Integer(v) => Some(v as i64),
            _ => None,
        }
    } else {
        None
    }
}

/// The offset of an address computation with one literal offset.
pub fn constant_offset(data: &Program, gep: Inst) -> (r: Option<i64>)
    ensures
        r == only_offset(data@, gep),
{
    if data.num_args(gep) != 2 {
        return None;
    }
    match data.op(data.arg(gep, 1)) {
        Op::Integer(v) => Some(v as i64),
        _ => None,
    }
}

/// What parameter `param` receives along those of `edges[from..]` that come from outside the loop;
/// `None` where more than one does.
pub open spec fn received(
    p: ProgramV,
    l: LoopV,
    edges: Seq<Edge>,
    params: Seq<Inst>,
    param: Inst,
    from: int,
    found: Option<Inst>,
) -> Option<Inst>
    decreases edges.len() - from,
{
    if from >= edges.len() {
        found
    } else if l.body.contains(edges[from].from) {
        received(p, l, edges, params, param, from + 1, found)
    } else if found is Some {
        None
    } else {
        let k = position(params, param, 0);
        if k >= params.len() {
            None
        } else {
            let args = edge_args(p, edges[from]);
            received(
                p,
                l,
                edges,
                params,
                param,
                from + 1,
                if k < args.len() {
                    Some(args[k])
                } else {
                    None
                },
            )
        }
    }
}

/// What `param` of the header receives on entry to the loop.
pub open spec fn entry_value(p: ProgramV, order: Seq<BasicBlock>, l: LoopV, param: Inst) -> Option<Inst> {
    received(p, l, incoming(p, order, l.header), p.block(l.header).params, param, 0, None)
}

/// What `param` of the header receives on entry to the loop; `None` where the loop has several
/// entries.
pub fn init_arg(data: &Program, order: &Vec<BasicBlock>, looop: &Loop, param: Inst) -> (r: Option<Inst>)
    ensures
        r == entry_value(data@, order@, looop@, param),
{
    let edges = incoming_edges(data, order, looop.header);
    let params = data.block_params(looop.header);
    let mut found: Option<Inst> = None;
    let mut k: usize = 0;
    while k < edges.len()
        invariant
            k <= edges@.len(),
            edges@ == incoming(data@, order@, looop@.header),
            params@ == data@.block(looop@.header).params,
            entry_value(data@, order@, looop@, param) == received(
                data@,
                looop@,
                edges@,
                params@,
                param,
                k as int,
                found,
            ),
        decreases edges@.len() - k,
    {
        let e = edges[k];
        if !looop.contains(e.from) {
            if found.is_some() {
                return None;
            }
            let n = inst_position(&params, param);
            if n >= params.len() {
                return None;
            }
            let args = e.args(data);
            found = if n < args.len() {
                Some(args[n])
            } else {
                None
            };
        }
        k += 1;
    }
    found
}

/// The first of `blocks[from..]` that has `v` as parameter.
pub open spec fn param_owner(p: ProgramV, blocks: Seq<BasicBlock>, v: Inst, from: int) -> Option<BasicBlock>
    decreases blocks.len() - from,
{
    if from >= blocks.len() {
        None
    } else if p.block(blocks[from]).params.contains(v) {
        Some(blocks[from])
    } else {
        param_owner(p, blocks, v, from + 1)
    }
}

/// Block `b` dominates the header `h` and is another block.
pub open spec fn strictly_above(tree: TreeV, h: BasicBlock, b: BasicBlock) -> bool {
    b != h && tree.dominates(b, h)
}

/// Value `v` can be used in a block right before the loop with header `h`.
pub open spec fn known_before(p: ProgramV, f: Function, tree: TreeV, h: BasicBlock, v: Inst) -> bool {
    if p.inst(v).global {
        true
    } else {
        match p.parent_bb(f, v) {
            Some(b) => strictly_above(tree, h, b),
            None => if is_const(p.op(v)) {
                true
            } else {
                match param_owner(p, p.func(f).blocks, v, 0) {
                    Some(b) => strictly_above(tree, h, b),
                    None => true,
                }
            },
        }
    }
}

/// Whether `value` can be used in a block right before the loop.
pub fn dominates_loop_entry(data: &Program, f: Function, tree: &DomTree, looop: &Loop, value: Inst) -> (r: bool)
    requires
        tree.wf(),
    ensures
        r == known_before(data@, f, tree@, looop@.header, value),
{
    if data.is_global(value) {
        return true;
    }
    match data.parent_bb(f, value) {
        Some(b) => b != looop.header && tree.dominates(b, looop.header),
        None => {
            if crate::if_conversion::constant_op(data.op(value)) {
                return true;
            }
            let blocks = data.basicblocks(f);
            let mut k: usize = 0;
            while k < blocks.len()
                invariant
                    k <= blocks@.len(),
                    tree.wf(),
                    !data@.inst(value).global,
                    data@.parent_bb(f, value) is None,
                    !is_const(data@.op(value)),
                    blocks@ == data@.func(f).blocks,
                    param_owner(data@, blocks@, value, 0) == param_owner(data@, blocks@, value, k as int),
                decreases blocks@.len() - k,
            {
                let params = data.block_params(blocks[k]);
                if has_inst(&params, value) {
                    return blocks[k] != looop.header && tree.dominates(blocks[k], looop.header);
                }
                k += 1;
            }
            true
        },
    }
}

/// Those of `edges[from..]` that come from outside the loop, by their blocks, behind `found`.
pub open spec fn outside_from(l: LoopV, edges: Seq<Edge>, from: int, found: Seq<BasicBlock>) -> Seq<BasicBlock>
    decreases edges.len() - from,
{
    if from >= edges.len() {
        found
    } else if l.body.contains(edges[from].from) {
        outside_from(l, edges, from + 1, found)
    } else {
        outside_from(l, edges, from + 1, found.push(edges[from].from))
    }
}

/// The block from which the loop is entered, where one edge enters it.
pub open spec fn preheader_of(p: ProgramV, order: Seq<BasicBlock>, l: LoopV) -> Option<BasicBlock> {
    let ways = outside_from(l, incoming(p, order, l.header), 0, Seq::empty());
    if ways.len() == 1 {
        Some(ways[0])
    } else {
        None
    }
}

/// The block from which the loop is entered, where one edge enters it.
pub fn ensure_preheader(data: &Program, order: &Vec<BasicBlock>, looop: &Loop) -> (r: Option<BasicBlock>)
    ensures
        r == preheader_of(data@, order@, looop@),
{
    let edges = incoming_edges(data, order, looop.header);
    let mut ways: Vec<BasicBlock> = Vec::new();
    assert(ways@ =~= Seq::empty());
    let mut k: usize = 0;
    while k < edges.len()
        invariant
            k <= edges@.len(),
            outside_from(looop@, edges@, 0, Seq::empty()) == outside_from(looop@, edges@, k as int, ways@),
        decreases edges@.len() - k,
    {
        if !looop.contains(edges[k].from) {
            ways.push(edges[k].from);
        }
        k += 1;
    }
    if ways.len() == 1 {
        Some(ways[0])
    } else {
        None
    }
}

/// The parts found so far among the parameters of a header.
#[verifier::ext_equal]
pub struct RolesV {
    pub k: Option<Inst>,
    pub acc: Option<Inst>,
    pub ctr: Option<Inst>,
    pub ptr: Option<Inst>,
    pub passthroughs: Seq<(Inst, usize)>,
}

struct Roles {
    k: Option<Inst>,
    acc: Option<Inst>,
    ctr: Option<Inst>,
    ptr: Option<Inst>,
    passthroughs: Vec<(Inst, usize)>,
}

impl View for Roles {
    type V = RolesV;

    closed spec fn view(&self) -> RolesV {
        RolesV { k: self.k, acc: self.acc, ctr: self.ctr, ptr: self.ptr, passthroughs: self.passthroughs@ }
    }
}

/// The loop gives `back` for `param`: one less.
pub open spec fn counts_down(p: ProgramV, param: Inst, back: Inst) -> bool {
    p.op(back) == Op::Binary(BinaryOp::Sub) && p.arg(back, 0) == param && literal_is(p, p.arg(back, 1), 1)
}

/// The loop gives `back` for `param`: one more.
pub open spec fn counts_up(p: ProgramV, param: Inst, back: Inst) -> bool {
    p.op(back) == Op::Binary(BinaryOp::Add) && p.arg(back, 0) == param && literal_is(p, p.arg(back, 1), 1)
}

/// The loop gives `back` for `param`: a product less.
pub open spec fn takes_product(p: ProgramV, param: Inst, back: Inst) -> bool {
    p.op(back) == Op::Binary(BinaryOp::Sub) && p.arg(back, 0) == param && p.op(p.arg(back, 1)) == Op::Binary(
        BinaryOp::Mul,
    )
}

/// The loop gives `back` for `param`: an address computed from it.
pub open spec fn moves_on(p: ProgramV, param: Inst, back: Inst) -> bool {
    p.op(back) is GetElemPtr && p.arg(back, 0) == param
}

/// Parameter `param`, number `index`, which the loop gives `back`, assigned its part; `None` where it
/// has none, or where another parameter has it.
pub open spec fn role_added(p: ProgramV, r: RolesV, param: Inst, back: Inst, index: usize) -> Option<RolesV> {
    let whole = p.ty(param) is I32;
    if whole && counts_down(p, param, back) {
        if r.ctr is Some {
            None
        } else {
            Some(RolesV { ctr: Some(param), ..r })
        }
    } else if whole && counts_up(p, param, back) {
        if r.k is Some {
            None
        } else {
            Some(RolesV { k: Some(param), ..r })
        }
    } else if whole && takes_product(p, param, back) {
        if r.acc is Some {
            None
        } else {
            Some(RolesV { acc: Some(param), ..r })
        }
    } else if p.ty(param) is Pointer && moves_on(p, param, back) {
        if r.ptr is Some {
            None
        } else {
            Some(RolesV { ptr: Some(param), ..r })
        }
    } else if back == param {
        Some(RolesV { passthroughs: r.passthroughs.push((param, index)), ..r })
    } else {
        None
    }
}

/// The parts of `params[from..]`, which the loop gives `backs`, added to `r`.
pub open spec fn roles_from(p: ProgramV, params: Seq<Inst>, backs: Seq<Inst>, from: int, r: RolesV) -> Option<RolesV>
    decreases params.len() - from,
{
    if from >= params.len() || from >= backs.len() {
        Some(r)
    } else {
        match role_added(p, r, params[from], backs[from], from as usize) {
            Some(next) => roles_from(p, params, backs, from + 1, next),
            None => None,
        }
    }
}

pub open spec fn no_roles() -> RolesV {
    RolesV { k: None, acc: None, ctr: None, ptr: None, passthroughs: Seq::empty() }
}

fn add_role(p: &Program, r: Roles, param: Inst, back: Inst, index: usize) -> (out: Option<Roles>)
    ensures
        match out {
            Some(x) => role_added(p@, r@, param, back, index) == Some(x@),
            None => role_added(p@, r@, param, back, index) is None,
        },
{
    let mut r = r;
    let ours = p.arg(back, 0) == param;
    let counts = ours && is_constant(p, p.arg(back, 1), 1);
    let whole = p.is_i32(param);
    let ty = p.ty(param);
    let pointer = matches!(ty, Type::Pointer(_));
    let op = p.op(back);
    if whole && op == Op::Binary(BinaryOp::Sub) && counts {
        if r.ctr.is_some() {
            return None;
        }
        r.ctr = Some(param);
        Some(r)
    } else if whole && op == Op::Binary(BinaryOp::Add) && counts {
        if r.k.is_some() {
            return None;
        }
        r.k = Some(param);
        Some(r)
    } else if whole && op == Op::Binary(BinaryOp::Sub) && ours && p.op(p.arg(back, 1)) == Op::Binary(BinaryOp::Mul) {
        if r.acc.is_some() {
            return None;
        }
        r.acc = Some(param);
        Some(r)
    } else if pointer && op == Op::GetElemPtr && ours {
        if r.ptr.is_some() {
            return None;
        }
        r.ptr = Some(param);
        Some(r)
    } else if back == param {
        r.passthroughs.push((param, index));
        Some(r)
    } else {
        None
    }
}

fn find_roles(p: &Program, params: &Vec<Inst>, backs: &Vec<Inst>) -> (out: Option<Roles>)
    ensures
        match out {
            Some(x) => roles_from(p@, params@, backs@, 0, no_roles()) == Some(x@),
            None => roles_from(p@, params@, backs@, 0, no_roles()) is None,
        },
{
    let mut r = Roles { k: None, acc: None, ctr: None, ptr: None, passthroughs: Vec::new() };
    assert(r@ =~= no_roles());
    let mut k: usize = 0;
    while k < params.len() && k < backs.len()
        invariant
            k <= params@.len(),
            k <= backs@.len(),
            roles_from(p@, params@, backs@, 0, no_roles()) == roles_from(p@, params@, backs@, k as int, r@),
        decreases params@.len() - k,
    {
        match add_role(p, r, params[k], backs[k], k) {
            Some(x) => {
                r = x;
            },
            None => {
                return None;
            },
        }
        k += 1;
    }
    Some(r)
}

/// One of `args[from..]` is `v`.
pub open spec fn any_is(args: Seq<Inst>, v: Inst, from: int) -> bool
    decreases args.len() - from,
{
    from < args.len() && (args[from] == v || any_is(args, v, from + 1))
}

/// The operation writes memory, calls, or makes a global.
pub open spec fn stirs(op: Op) -> bool {
    op is Store || op is Call || op is TailCall || op is MemZero || op is MemZeroDyn || op is GlobalAlloc
}

/// None of `insts[from..upto]` writes memory or calls.
pub open spec fn calm(p: ProgramV, insts: Seq<Inst>, from: int, upto: int) -> bool
    decreases upto - from,
{
    from >= upto || (!stirs(p.op(insts[from])) && calm(p, insts, from + 1, upto))
}

/// The number under which `v` is carried through from `from` on; the number of carried values where it
/// is not.
pub open spec fn carried(list: Seq<(Inst, usize)>, v: Inst, from: int) -> int
    decreases list.len() - from,
{
    if from >= list.len() {
        list.len() as int
    } else if list[from].0 == v {
        from
    } else {
        carried(list, v, from + 1)
    }
}

/// Each of `args[from..]` is carried through, or the next counter, or the next sum.
pub open spec fn rebuildable(list: Seq<(Inst, usize)>, k_back: Inst, acc_back: Inst, args: Seq<Inst>, from: int) -> bool
    decreases args.len() - from,
{
    from >= args.len() || ((carried(list, args[from], 0) < list.len() || args[from] == k_back || args[from]
        == acc_back) && rebuildable(list, k_back, acc_back, args, from + 1))
}

/// The block of a two-block loop that is not its header.
pub open spec fn other_block(l: LoopV) -> BasicBlock {
    if l.body[0] != l.header {
        l.body[0]
    } else {
        l.body[1]
    }
}

/// The sum of the loop is a sum less the product of two loads: one from a row that does not move,
/// indexed by `k`, and one from the moving column pointer.
pub open spec fn sums_products(
    p: ProgramV,
    f: Function,
    l: LoopV,
    acc_back: Inst,
    k_param: Inst,
    ptr_param: Inst,
) -> bool {
    let mul = p.arg(acc_back, 1);
    p.op(acc_back) is Binary && p.op(mul) is Binary && match (
        load_address(p, p.arg(mul, 0)),
        load_address(p, p.arg(mul, 1)),
    ) {
        (Some(row), Some(col)) => {
            &&& p.arg(col, 0) == ptr_param
            &&& match p.parent_bb(f, p.arg(row, 0)) {
                Some(b) => !l.body.contains(b),
                None => true,
            }
            &&& any_is(p.args(row), k_param, 1)
        },
        _ => false,
    }
}

/// Sum and counter serve nothing but their own updates: of the first `upto` instructions only `acc_back` and
/// `ctr_back` use any of `ours`.
pub open spec fn held_apart(
    p: ProgramV,
    insts: Seq<Inst>,
    upto: int,
    ours: Seq<Inst>,
    acc_back: Inst,
    ctr_back: Inst,
) -> bool {
    forall|k: int, j: int|
        0 <= k < upto && insts[k] != acc_back && insts[k] != ctr_back && 0 <= j < p.args(insts[k]).len()
            ==> !ours.contains(#[trigger] p.args(insts[k])[j])
}

/// Each of `users[from..]` that stands in a block of `f` stands in the loop.
pub open spec fn users_inside(p: ProgramV, f: Function, l: LoopV, users: Seq<Inst>, from: int) -> bool
    decreases users.len() - from,
{
    from >= users.len() || (match p.parent_bb(f, users[from]) {
        Some(b) => l.body.contains(b),
        None => true,
    } && users_inside(p, f, l, users, from + 1))
}

/// What uses `values[from..]` in `f` stands in the loop.
pub open spec fn used_inside(p: ProgramV, f: Function, l: LoopV, values: Seq<Inst>, from: int) -> bool
    decreases values.len() - from,
{
    from >= values.len() || (users_inside(p, f, l, p.users(values[from]), 0) && used_inside(p, f, l, values, from + 1))
}

/// Parameter `k_param` of the header is zero on entry to the loop.
pub open spec fn starts_at_zero(p: ProgramV, order: Seq<BasicBlock>, l: LoopV, k_param: Inst) -> bool {
    entry_value(p, order, l, k_param) matches Some(z) && literal_is(p, z, 0)
}

/// The header `b` does nothing but go on to the body, which it gives nothing.
pub open spec fn only_jumps(p: ProgramV, b: BasicBlock) -> bool {
    p.block(b).insts.len() == 1 && p.op(p.terminator(b)) is Jump && p.args(p.terminator(b)).len() == 0
}

/// The loop `l` read as a reduction that can be run in lanes.
pub open spec fn candidate(p: ProgramV, f: Function, tree: TreeV, order: Seq<BasicBlock>, l: LoopV) -> Option<CandidateV> {
    if l.body.len() != 2 || l.latches.len() != 1 {
        None
    } else {
        let header = l.header;
        let body = other_block(l);
        let insts = p.block(body).insts;
        let t = p.terminator(body);
        match p.op(t) {
            Op::Branch(x, y, _) => {
                let exit = y;
                let backs = p.t_args(t);
                let params = p.block(header).params;
                if body == header || l.latches[0] != body || !only_jumps(p, header) || x != header || l.body.contains(
                    exit,
                ) {
                    None
                } else {
                    match roles_from(p, params, backs, 0, no_roles()) {
                        Some(r) => match (r.k, r.acc, r.ctr, r.ptr) {
                            (Some(k_param), Some(acc_param), Some(ctr_param), Some(ptr_param)) => {
                                let acc_back = nth(backs, position(params, acc_param, 0));
                                let k_back = nth(backs, position(params, k_param, 0));
                                let ctr_back = nth(backs, position(params, ctr_param, 0));
                                let ptr_back = nth(backs, position(params, ptr_param, 0));
                                let exit_args = p.f_args(t);
                                match (only_offset(p, ptr_back), entry_value(p, order, l, ctr_param)) {
                                    (Some(stride), Some(bound)) => if p.arg(t, 0) == ctr_back && sums_products(
                                        p,
                                        f,
                                        l,
                                        acc_back,
                                        k_param,
                                        ptr_param,
                                    ) && p.op(ptr_back) is GetElemPtr && p.arg(ptr_back, 0) == ptr_param && calm(
                                        p,
                                        insts,
                                        0,
                                        insts.len() - 1,
                                    ) && held_apart(
                                        p,
                                        insts,
                                        insts.len() - 1,
                                        seq![acc_param, ctr_param, acc_back, ctr_back],
                                        acc_back,
                                        ctr_back,
                                    ) && starts_at_zero(p, order, l, k_param) && used_inside(p, f, l, params, 0)
                                        && used_inside(p, f, l, insts, 0) && rebuildable(
                                        r.passthroughs,
                                        k_back,
                                        acc_back,
                                        exit_args,
                                        0,
                                    ) && known_before(p, f, tree, header, bound) {
                                        Some(
                                            CandidateV {
                                                header,
                                                body,
                                                exit,
                                                k_param,
                                                acc_param,
                                                ctr_param,
                                                ptr_param,
                                                acc_back,
                                                k_back,
                                                ctr_back,
                                                ptr_back,
                                                passthroughs: r.passthroughs,
                                                bound,
                                                stride,
                                                header_params: params,
                                                exit_args,
                                            },
                                        )
                                    } else {
                                        None
                                    },
                                    _ => None,
                                }
                            },
                            _ => None,
                        },
                        None => None,
                    }
                }
            },
            _ => None,
        }
    }
}

fn contains_from(args: &Vec<Inst>, v: Inst, from: usize) -> (r: bool)
    ensures
        r == any_is(args@, v, from as int),
{
    let mut k: usize = from;
    while k < args.len()
        invariant
            any_is(args@, v, from as int) == any_is(args@, v, k as int),
        decreases args@.len() - k,
    {
        if args[k] == v {
            return true;
        }
        k += 1;
    }
    false
}

pub(crate) fn is_calm(p: &Program, insts: &Vec<Inst>, upto: usize) -> (r: bool)
    requires
        upto <= insts@.len(),
    ensures
        r == calm(p@, insts@, 0, upto as int),
{
    let mut k: usize = 0;
    while k < upto
        invariant
            k <= upto <= insts@.len(),
            calm(p@, insts@, 0, upto as int) == calm(p@, insts@, k as int, upto as int),
        decreases upto - k,
    {
        let loud = matches!(
            p.op(insts[k]),
            Op::Store | Op::Call(_) | Op::TailCall(_) | Op::MemZero(_) | Op::MemZeroDyn | Op::GlobalAlloc
        );
        if loud {
            return false;
        }
        k += 1;
    }
    true
}

fn is_held_apart(p: &Program, insts: &Vec<Inst>, upto: usize, ours: &Vec<Inst>, acc_back: Inst, ctr_back: Inst) -> (r: bool)
    requires
        upto <= insts@.len(),
    ensures
        r == held_apart(p@, insts@, upto as int, ours@, acc_back, ctr_back),
{
    let mut k: usize = 0;
    while k < upto
        invariant
            k <= upto <= insts@.len(),
            held_apart(p@, insts@, k as int, ours@, acc_back, ctr_back),
        decreases upto - k,
    {
        if insts[k] != acc_back && insts[k] != ctr_back {
            let args = p.args(insts[k]);
            let mut j: usize = 0;
            while j < args.len()
                invariant
                    k < upto <= insts@.len(),
                    j <= args@.len(),
                    args@ == p@.args(insts@[k as int]),
                    insts@[k as int] != acc_back && insts@[k as int] != ctr_back,
                    forall|n: int| 0 <= n < j ==> !ours@.contains(#[trigger] args@[n]),
                decreases args@.len() - j,
            {
                if has_inst(ours, args[j]) {
                    assert(ours@.contains(p@.args(insts@[k as int])[j as int]));
                    return false;
                }
                j += 1;
            }
        }
        k += 1;
    }
    true
}

fn all_used_inside(p: &Program, f: Function, l: &Loop, values: &Vec<Inst>) -> (r: bool)
    ensures
        r == used_inside(p@, f, l@, values@, 0),
{
    let mut k: usize = 0;
    while k < values.len()
        invariant
            k <= values@.len(),
            used_inside(p@, f, l@, values@, 0) == used_inside(p@, f, l@, values@, k as int),
        decreases values@.len() - k,
    {
        let users = p.users(values[k]);
        let mut j: usize = 0;
        while j < users.len()
            invariant
                k < values@.len(),
                j <= users@.len(),
                users@ == p@.users(values@[k as int]),
                used_inside(p@, f, l@, values@, 0) == used_inside(p@, f, l@, values@, k as int),
                users_inside(p@, f, l@, users@, 0) == users_inside(p@, f, l@, users@, j as int),
            decreases users@.len() - j,
        {
            let inside = match p.parent_bb(f, users[j]) {
                Some(b) => l.contains(b),
                None => true,
            };
            if !inside {
                return false;
            }
            j += 1;
        }
        k += 1;
    }
    true
}

fn is_zero_at_entry(p: &Program, order: &Vec<BasicBlock>, l: &Loop, k_param: Inst) -> (r: bool)
    ensures
        r == starts_at_zero(p@, order@, l@, k_param),
{
    match init_arg(p, order, l, k_param) {
        Some(z) => is_constant(p, z, 0),
        None => false,
    }
}

fn does_only_jump(p: &Program, b: BasicBlock) -> (r: bool)
    ensures
        r == only_jumps(p@, b),
{
    let insts = p.block_insts(b);
    insts.len() == 1 && matches!(p.op(p.terminator(b)), Op::Jump(_)) && p.num_args(p.terminator(b)) == 0
}

fn carried_at(list: &Vec<(Inst, usize)>, v: Inst) -> (r: usize)
    ensures
        r == carried(list@, v, 0),
        r <= list@.len(),
{
    let mut k: usize = 0;
    while k < list.len()
        invariant
            k <= list@.len(),
            carried(list@, v, 0) == carried(list@, v, k as int),
        decreases list@.len() - k,
    {
        if list[k].0 == v {
            return k;
        }
        k += 1;
    }
    k
}

fn can_rebuild(list: &Vec<(Inst, usize)>, k_back: Inst, acc_back: Inst, args: &Vec<Inst>) -> (r: bool)
    ensures
        r == rebuildable(list@, k_back, acc_back, args@, 0),
{
    let mut k: usize = 0;
    while k < args.len()
        invariant
            k <= args@.len(),
            rebuildable(list@, k_back, acc_back, args@, 0) == rebuildable(list@, k_back, acc_back, args@, k as int),
        decreases args@.len() - k,
    {
        if carried_at(list, args[k]) >= list.len() && args[k] != k_back && args[k] != acc_back {
            return false;
        }
        k += 1;
    }
    true
}

fn takes_products(p: &Program, f: Function, l: &Loop, acc_back: Inst, k_param: Inst, ptr_param: Inst) -> (r: bool)
    ensures
        r == sums_products(p@, f, l@, acc_back, k_param, ptr_param),
{
    let mul = p.arg(acc_back, 1);
    if !matches!(p.op(acc_back), Op::Binary(_)) || !matches!(p.op(mul), Op::Binary(_)) {
        return false;
    }
    match (gep_of(p, p.arg(mul, 0)), gep_of(p, p.arg(mul, 1))) {
        (Some(row), Some(col)) => {
            if p.arg(col, 0) != ptr_param {
                return false;
            }
            let still = match p.parent_bb(f, p.arg(row, 0)) {
                Some(b) => !l.contains(b),
                None => true,
            };
            let args = p.args(row);
            still && contains_from(&args, k_param, 1)
        },
        _ => false,
    }
}

/// The type of every parameter of the lane loop: four sums, the index, the counter, four pointers, and
/// what is carried through.
pub open spec fn lane_types(p: ProgramV, cand: CandidateV) -> Seq<Type> {
    let ptr = p.ty(cand.ptr_param);
    seq![Type::I32, Type::I32, Type::I32, Type::I32, Type::I32, Type::I32, ptr, ptr, ptr, ptr] + Seq::new(
        cand.passthroughs.len(),
        |k: int| p.ty(nth(cand.header_params, cand.passthroughs[k].1 as int)),
    )
}

/// The types of the parameters of the lane loop.
pub fn main_block_types(data: &Program, cand: &Candidate) -> (r: Vec<Type>)
    ensures
        r@ == lane_types(data@, cand@),
{
    let mut types: Vec<Type> = Vec::new();
    let mut k: usize = 0;
    while k < UNROLL_FACTOR + 2
        invariant
            k <= 6,
            types@.len() == k,
            forall|j: int| 0 <= j < k ==> types@[j] == Type::I32,
        decreases 6 - k,
    {
        types.push(Type::I32);
        k += 1;
    }
    let mut k: usize = 0;
    while k < UNROLL_FACTOR
        invariant
            k <= 4,
            types@.len() == k + 6,
            forall|j: int| 0 <= j < 6 ==> types@[j] == Type::I32,
            forall|j: int| 6 <= j < 6 + k ==> types@[j] == data@.ty(cand.ptr_param),
        decreases 4 - k,
    {
        types.push(data.ty(cand.ptr_param));
        k += 1;
    }
    let mut k: usize = 0;
    while k < cand.passthroughs.len()
        invariant
            k <= cand.passthroughs@.len(),
            types@.len() == k + 10,
            forall|j: int| 0 <= j < 6 ==> types@[j] == Type::I32,
            forall|j: int| 6 <= j < 10 ==> types@[j] == data@.ty(cand.ptr_param),
            forall|j: int|
                10 <= j < 10 + k ==> types@[j] == data@.ty(
                    nth(cand@.header_params, cand@.passthroughs[j - 10].1 as int),
                ),
        decreases cand.passthroughs@.len() - k,
    {
        let v = at(&cand.header_params, cand.passthroughs[k].1);
        types.push(data.ty(v));
        assert(types@[k + 10] == data@.ty(nth(cand@.header_params, cand@.passthroughs[k as int].1 as int)));
        k += 1;
    }
    assert(types@ =~= lane_types(data@, cand@));
    types
}

impl BlockedReduction {
    /// Reads a loop as a reduction that can be run in lanes.
    pub fn find_candidate(data: &Program, f: Function, tree: &DomTree, order: &Vec<BasicBlock>, looop: &Loop) -> (r: Option<
        Candidate,
    >)
        requires
            tree.wf(),
        ensures
            match r {
                Some(c) => candidate(data@, f, tree@, order@, looop@) == Some(c@),
                None => candidate(data@, f, tree@, order@, looop@) is None,
            },
    {
        if looop.body.len() != 2 || looop.latches.len() != 1 {
            return None;
        }
        let header = looop.header;
        let body = if looop.body[0] != header {
            looop.body[0]
        } else {
            looop.body[1]
        };
        let t = data.terminator(body);
        let (x, y) = match data.op(t) {
            Op::Branch(x, y, _) => (x, y),
            _ => {
                return None;
            },
        };
        if body == header || looop.latches[0] != body || !does_only_jump(data, header) || x != header {
            return None;
        }
        let (exit, backs) = (y, data.t_args(t));
        if looop.contains(exit) {
            return None;
        }
        let params = data.block_params(header);
        let r = match find_roles(data, &params, &backs) {
            Some(r) => r,
            None => {
                return None;
            },
        };
        let (k_param, acc_param, ctr_param, ptr_param) = match (r.k, r.acc, r.ctr, r.ptr) {
            (Some(k), Some(a), Some(c), Some(p)) => (k, a, c, p),
            _ => {
                return None;
            },
        };
        let acc_back = at(&backs, inst_position(&params, acc_param));
        let k_back = at(&backs, inst_position(&params, k_param));
        let ctr_back = at(&backs, inst_position(&params, ctr_param));
        let ptr_back = at(&backs, inst_position(&params, ptr_param));
        if data.arg(t, 0) != ctr_back || !takes_products(data, f, looop, acc_back, k_param, ptr_param) {
            return None;
        }
        if !matches!(data.op(ptr_back), Op::GetElemPtr) || data.arg(ptr_back, 0) != ptr_param {
            return None;
        }
        let stride = match constant_offset(data, ptr_back) {
            Some(s) => s,
            None => {
                return None;
            },
        };
        let insts = data.block_insts(body);
        let n: usize = insts.len();
        if n > 0 && !is_calm(data, &insts, n - 1) {
            return None;
        }
        let ours = vec![acc_param, ctr_param, acc_back, ctr_back];
        assert(ours@ =~= seq![acc_param, ctr_param, acc_back, ctr_back]);
        if n > 0 && !is_held_apart(data, &insts, n - 1, &ours, acc_back, ctr_back) {
            return None;
        }
        if !is_zero_at_entry(data, order, looop, k_param) || !all_used_inside(data, f, looop, &params)
            || !all_used_inside(data, f, looop, &insts) {
            return None;
        }
        let exit_args = data.f_args(t);
        if !can_rebuild(&r.passthroughs, k_back, acc_back, &exit_args) {
            return None;
        }
        let bound = match init_arg(data, order, looop, ctr_param) {
            Some(b) => b,
            None => {
                return None;
            },
        };
        if !dominates_loop_entry(data, f, tree, looop, bound) {
            return None;
        }
        Some(
            Candidate {
                header,
                body,
                exit,
                k_param,
                acc_param,
                ctr_param,
                ptr_param,
                acc_back,
                k_back,
                ctr_back,
                ptr_back,
                passthroughs: r.passthroughs,
                bound,
                stride,
                header_params: params,
                exit_args,
            },
        )
    }
}

/// A new block with the given name and parameter types placed behind `anchor` in `f`.
pub open spec fn block_after(p: ProgramV, f: Function, anchor: BasicBlock, name: Seq<char>, tys: Seq<Type>) -> ProgramV {
    p.basic_block(name, tys).insert_bb_after(f, anchor, p.next_block())
}

fn add_block_after(p: &mut Program, f: Function, anchor: BasicBlock, name: String, tys: Vec<Type>) -> (b: BasicBlock)
    ensures
        final(p)@ == block_after(old(p)@, f, anchor, name@, tys@),
        b == old(p)@.next_block(),
{
    let b = p.basic_block(name, tys);
    p.insert_bb_after(f, anchor, b);
    b
}

/// The blocks of the lane loop.
pub struct LaneBlocks {
    pub guard: BasicBlock,
    pub header: BasicBlock,
    pub body: BasicBlock,
    pub exit: BasicBlock,
}

/// The four new blocks placed behind `pre`.
pub open spec fn lane_blocks(p: ProgramV, f: Function, pre: BasicBlock, tys: Seq<Type>) -> (ProgramV, LaneBlocks) {
    let guard = p.next_block();
    let p1 = block_after(p, f, pre, "blocked_guard"@, Seq::empty());
    let header = p1.next_block();
    let p2 = block_after(p1, f, guard, "blocked_main_header"@, tys);
    let body = p2.next_block();
    let p3 = block_after(p2, f, header, "blocked_main_body"@, tys);
    let exit = p3.next_block();
    let p4 = block_after(p3, f, body, "blocked_main_exit"@, tys);
    (p4, LaneBlocks { guard, header, body, exit })
}

fn make_lane_blocks(p: &mut Program, f: Function, pre: BasicBlock, cand: &Candidate) -> (b: LaneBlocks)
    ensures
        (final(p)@, b) == lane_blocks(old(p)@, f, pre, lane_types(old(p)@, cand@)),
{
    let header_tys = main_block_types(p, cand);
    let body_tys = main_block_types(p, cand);
    let exit_tys = main_block_types(p, cand);
    let none: Vec<Type> = Vec::new();
    assert(none@ =~= Seq::empty());
    let guard = add_block_after(p, f, pre, "blocked_guard".to_string(), none);
    let header = add_block_after(p, f, guard, "blocked_main_header".to_string(), header_tys);
    let body = add_block_after(p, f, header, "blocked_main_body".to_string(), body_tys);
    let exit = add_block_after(p, f, body, "blocked_main_exit".to_string(), exit_tys);
    LaneBlocks { guard, header, body, exit }
}

/// The literal `v` made.
pub open spec fn literal_made(p: ProgramV, v: i32) -> ProgramV {
    p.push_inst(Op::Integer(v), Seq::empty(), Type::I32, false)
}

/// A binary operation made, not placed.
pub open spec fn binary_made(p: ProgramV, op: BinaryOp, lhs: Inst, rhs: Inst) -> ProgramV {
    p.push_inst(Op::Binary(op), seq![lhs, rhs], p.binary_ty(op, lhs), false)
}

/// An address with one offset made and placed at the end of `b`.
pub open spec fn address_placed(p: ProgramV, b: BasicBlock, base: Inst, offset: Inst) -> ProgramV {
    p.push_inst(Op::GetElemPtr, seq![base] + seq![offset], p.gep_ty(base, 1), false).append(b, p.next_inst())
}

fn place_address(p: &mut Program, b: BasicBlock, base: Inst, offset: Inst) -> (r: Inst)
    ensures
        final(p)@ == address_placed(old(p)@, b, base, offset),
        r == old(p)@.next_inst(),
{
    let offsets = vec![offset];
    assert(offsets@ =~= seq![offset]);
    let r = p.get_elem_ptr(base, offsets);
    p.insert_inst(b, r);
    r
}

/// The column pointers of lanes `lane..`, each `stride` behind the one before, made in `b` behind
/// `out`.
pub open spec fn lane_pointers(
    p: ProgramV,
    b: BasicBlock,
    base: Inst,
    stride: i64,
    lane: int,
    out: Seq<Inst>,
) -> (ProgramV, Seq<Inst>)
    decreases 4 - lane,
{
    if lane >= 4 {
        (p, out)
    } else if lane == 0 {
        lane_pointers(p, b, base, stride, 1, out.push(base))
    } else {
        let q = literal_made(p, (lane * stride) as i32);
        lane_pointers(address_placed(q, b, base, p.next_inst()), b, base, stride, lane + 1, out.push(q.next_inst()))
    }
}

fn make_lane_pointers(p: &mut Program, b: BasicBlock, base: Inst, stride: i64) -> (out: Vec<Inst>)
    ensures
        (final(p)@, out@) == lane_pointers(old(p)@, b, base, stride, 0, Seq::empty()),
{
    let mut out: Vec<Inst> = Vec::new();
    assert(out@ =~= Seq::empty());
    let mut lane: usize = 0;
    while lane < UNROLL_FACTOR
        invariant
            lane <= 4,
            lane_pointers(old(p)@, b, base, stride, 0, Seq::empty()) == lane_pointers(
                p@,
                b,
                base,
                stride,
                lane as int,
                out@,
            ),
        decreases 4 - lane,
    {
        if lane == 0 {
            out.push(base);
        } else {
            assert(-0x1_0000_0000_0000_0000_0000 < lane * stride < 0x1_0000_0000_0000_0000_0000) by (nonlinear_arith)
                requires
                    0 <= lane <= 4,
            ;
            let off: i128 = (lane as i128) * (stride as i128);
            #[verifier::truncate]
            let lit = p.integer(off as i32);
            let r = place_address(p, b, base, lit);
            out.push(r);
        }
        lane += 1;
    }
    out
}

/// The entries of `args` that are carried through, by `list[from..]`, behind `out`.
pub open spec fn carried_args(args: Seq<Inst>, list: Seq<(Inst, usize)>, from: int, out: Seq<Inst>) -> Seq<Inst>
    decreases list.len() - from,
{
    if from >= list.len() {
        out
    } else {
        carried_args(args, list, from + 1, out.push(nth(args, list[from].1 as int)))
    }
}

fn push_carried(args: &Vec<Inst>, list: &Vec<(Inst, usize)>, out: &mut Vec<Inst>)
    ensures
        final(out)@ == carried_args(args@, list@, 0, old(out)@),
{
    let mut k: usize = 0;
    while k < list.len()
        invariant
            k <= list@.len(),
            carried_args(args@, list@, 0, old(out)@) == carried_args(args@, list@, k as int, out@),
        decreases list@.len() - k,
    {
        let v = at(args, list[k].1);
        out.push(v);
        k += 1;
    }
}

/// The guard: with at least four rounds to do, all but the remainder go to the lane loop. Gives the
/// literal four as well.
pub open spec fn guard_built(p: ProgramV, cand: CandidateV, b: LaneBlocks, args: Seq<Inst>) -> (ProgramV, Inst) {
    let zero = p.next_inst();
    let p1 = literal_made(p, 0);
    let four = p1.next_inst();
    let p2 = literal_made(p1, 4);
    let neg_four = p2.next_inst();
    let p3 = literal_made(p2, (-4) as i32);
    let test = p3.next_inst();
    let p4 = binary_made(p3, BinaryOp::Ge, cand.bound, four);
    let masked = p4.next_inst();
    let p5 = binary_made(p4, BinaryOp::And, cand.bound, neg_four);
    let ptr_in = nth(args, position(cand.header_params, cand.ptr_param, 0));
    let (p6, ptrs) = lane_pointers(p5, b.guard, ptr_in, cand.stride, 0, Seq::empty());
    let start = carried_args(
        args,
        cand.passthroughs,
        0,
        seq![zero, zero, zero, zero, zero, masked] + ptrs,
    );
    let branch = p6.next_inst();
    let p7 = p6.push_inst(
        Op::Branch(b.header, cand.header, start.len() as usize),
        seq![test] + start + args,
        Type::Unit,
        false,
    );
    (p7.append(b.guard, test).append(b.guard, masked).append(b.guard, branch), four)
}

fn build_guard(p: &mut Program, cand: &Candidate, b: &LaneBlocks, args: &Vec<Inst>) -> (four: Inst)
    ensures
        (final(p)@, four) == guard_built(old(p)@, cand@, *b, args@),
{
    let zero = p.integer(0);
    let four = p.integer(4);
    let neg_four = p.integer(-4);
    let test = p.binary(BinaryOp::Ge, cand.bound, four);
    let masked = p.binary(BinaryOp::And, cand.bound, neg_four);
    let ptr_in = at(args, inst_position(&cand.header_params, cand.ptr_param));
    let ptrs = make_lane_pointers(p, b.guard, ptr_in, cand.stride);
    let head = vec![zero, zero, zero, zero, zero, masked];
    assert(head@ =~= seq![zero, zero, zero, zero, zero, masked]);
    let mut start = joined(&head, &ptrs);
    push_carried(args, &cand.passthroughs, &mut start);
    let rest = crate::ir::copy_vec(args);
    let branch = p.branch(test, b.header, start, cand.header, rest);
    p.insert_inst(b.guard, test);
    p.insert_inst(b.guard, masked);
    p.insert_inst(b.guard, branch);
    four
}

/// The instructions of `insts[from..upto]` copied, but for the updates of index, counter and pointer.
pub open spec fn body_cloned(
    p: ProgramV,
    f: Function,
    pairs: Seq<(BasicBlock, BasicBlock)>,
    cand: CandidateV,
    m: Map<usize, Inst>,
    insts: Seq<Inst>,
    from: int,
    fuel: nat,
) -> (ProgramV, Map<usize, Inst>)
    decreases insts.len() - from,
{
    if from >= insts.len() - 1 {
        (p, m)
    } else if insts[from] == cand.k_back || insts[from] == cand.ctr_back || insts[from] == cand.ptr_back {
        body_cloned(p, f, pairs, cand, m, insts, from + 1, fuel)
    } else {
        let (q, more, _) = cloned(p, f, pairs, m, insts[from], fuel);
        body_cloned(q, f, pairs, cand, more, insts, from + 1, fuel)
    }
}

/// What stands in a lane for the values that the loop carries through from `from` on, beside `m`.
pub open spec fn passed_on(list: Seq<(Inst, usize)>, through: Seq<Inst>, from: int, m: Map<usize, Inst>) -> Map<usize, Inst>
    decreases list.len() - from,
{
    if from >= list.len() {
        m
    } else {
        passed_on(list, through, from + 1, m.insert(list[from].0.0, nth(through, from)))
    }
}

/// What stands in a lane for the parameters of the loop: what it carries through, its pointer, its sum and its
/// index.
pub open spec fn lane_map(cand: CandidateV, through: Seq<Inst>, index: Inst, sum: Inst, ptr: Inst) -> Map<usize, Inst> {
    passed_on(cand.passthroughs, through, 0, Map::empty()).insert(cand.ptr_param.0, ptr).insert(
        cand.acc_param.0,
        sum,
    ).insert(cand.k_param.0, index)
}

/// The body copied for one lane, with its index, sum and pointer, and with what it carries through; gives the
/// lane's next sum.
pub open spec fn lane_built(
    p: ProgramV,
    f: Function,
    cand: CandidateV,
    l: LoopV,
    b: LaneBlocks,
    lane: int,
    index: Inst,
    sum: Inst,
    ptr: Inst,
    through: Seq<Inst>,
    fuel: nat,
) -> (ProgramV, Inst) {
    let p1 = literal_made(p, lane as i32);
    let kml = p1.next_inst();
    let p2 = binary_made(p1, BinaryOp::Add, index, p.next_inst()).append(b.body, kml);
    let pairs = Seq::new(l.body.len(), |k: int| (l.body[k], b.body));
    let m = lane_map(cand, through, kml, sum, ptr);
    let (p3, more) = body_cloned(p2, f, pairs, cand, m, p2.block(cand.body).insts, 0, fuel);
    (
        p3,
        if more.contains_key(cand.acc_back.0) {
            more[cand.acc_back.0]
        } else {
            cand.acc_back
        },
    )
}

fn build_lane(
    p: &mut Program,
    f: Function,
    cand: &Candidate,
    l: &Loop,
    b: &LaneBlocks,
    lane: usize,
    index: Inst,
    sum: Inst,
    ptr: Inst,
    through: &Vec<Inst>,
    fuel: usize,
) -> (next: Inst)
    requires
        lane < 4,
    ensures
        (final(p)@, next) == lane_built(
            old(p)@,
            f,
            cand@,
            l@,
            *b,
            lane as int,
            index,
            sum,
            ptr,
            through@,
            fuel as nat,
        ),
{
    let lit = p.integer(lane as i32);
    let kml = p.binary(BinaryOp::Add, index, lit);
    p.insert_inst(b.body, kml);
    let mut pairs: Vec<(BasicBlock, BasicBlock)> = Vec::new();
    let mut k: usize = 0;
    while k < l.body.len()
        invariant
            k <= l.body@.len(),
            pairs@.len() == k,
            forall|j: int| 0 <= j < k ==> pairs@[j] == (l.body@[j], b.body),
        decreases l.body@.len() - k,
    {
        pairs.push((l.body[k], b.body));
        k += 1;
    }
    assert(pairs@ =~= Seq::new(l@.body.len(), |k: int| (l@.body[k], b.body)));
    let mut m: FxHashMap<usize, Inst> = fx_empty();
    let mut k: usize = 0;
    while k < cand.passthroughs.len()
        invariant
            k <= cand.passthroughs@.len(),
            passed_on(cand@.passthroughs, through@, 0, Map::empty()) == passed_on(
                cand@.passthroughs,
                through@,
                k as int,
                m@,
            ),
        decreases cand.passthroughs@.len() - k,
    {
        let v = at(through, k);
        fx_insert(&mut m, cand.passthroughs[k].0.0, v);
        k += 1;
    }
    fx_insert(&mut m, cand.ptr_param.0, ptr);
    fx_insert(&mut m, cand.acc_param.0, sum);
    fx_insert(&mut m, cand.k_param.0, kml);
    let insts = p.block_insts(cand.body);
    let ghost start = (p@, m@);
    let mut k: usize = 0;
    while k < insts.len() && k < insts.len() - 1
        invariant
            k <= insts@.len(),
            body_cloned(start.0, f, pairs@, cand@, start.1, insts@, 0, fuel as nat) == body_cloned(
                p@,
                f,
                pairs@,
                cand@,
                m@,
                insts@,
                k as int,
                fuel as nat,
            ),
        decreases insts@.len() - k,
    {
        let i = insts[k];
        if i != cand.k_back && i != cand.ctr_back && i != cand.ptr_back {
            clone_inst(p, f, &pairs, &mut m, i, fuel);
        }
        k += 1;
    }
    match fx_get(&m, cand.acc_back.0) {
        Some(x) => x,
        None => cand.acc_back,
    }
}

/// The lanes `lane..` built, their next sums behind `out`.
pub open spec fn lanes_built(
    p: ProgramV,
    f: Function,
    cand: CandidateV,
    l: LoopV,
    b: LaneBlocks,
    main: Seq<Inst>,
    params: Seq<Inst>,
    lane: int,
    out: Seq<Inst>,
    fuel: nat,
) -> (ProgramV, Seq<Inst>)
    decreases 4 - lane,
{
    if lane >= 4 {
        (p, out)
    } else {
        let (q, next) = lane_built(
            p,
            f,
            cand,
            l,
            b,
            lane,
            nth(main, 4),
            nth(params, lane),
            nth(params, 6 + lane),
            tail_of(main, 10, cand.passthroughs.len()),
            fuel,
        );
        lanes_built(q, f, cand, l, b, main, params, lane + 1, out.push(next), fuel)
    }
}

/// The column pointers of lanes `lane..` moved four rounds on, in `b`, behind `out`.
pub open spec fn pointers_moved(p: ProgramV, b: BasicBlock, params: Seq<Inst>, step: Inst, lane: int, out: Seq<Inst>) -> (
    ProgramV,
    Seq<Inst>,
)
    decreases 4 - lane,
{
    if lane >= 4 {
        (p, out)
    } else {
        pointers_moved(
            address_placed(p, b, nth(params, 6 + lane), step),
            b,
            params,
            step,
            lane + 1,
            out.push(p.next_inst()),
        )
    }
}

/// The lane loop built: its header only jumps to the body, which does four rounds and goes back while
/// rounds are left.
pub open spec fn main_built(p: ProgramV, f: Function, cand: CandidateV, l: LoopV, b: LaneBlocks, four: Inst) -> ProgramV {
    let main = p.block(b.header).params;
    let params = p.block(b.body).params;
    let p1 = p.push_inst(Op::Jump(b.body), main, Type::Unit, false).append(b.header, p.next_inst());
    let (p2, sums) = lanes_built(p1, f, cand, l, b, main, params, 0, Seq::empty(), p1.insts.len());
    let index = p2.next_inst();
    let p3 = binary_made(p2, BinaryOp::Add, nth(main, 4), four).append(b.body, index);
    let left = p3.next_inst();
    let p4 = binary_made(p3, BinaryOp::Sub, nth(main, 5), four).append(b.body, left);
    let step = p4.next_inst();
    let p5 = literal_made(p4, (4 * cand.stride) as i32);
    let (p6, backs) = pointers_moved(p5, b.body, params, step, 0, sums.push(index).push(left));
    let all = backs + tail_of(main, 10, cand.passthroughs.len());
    let branch = p6.next_inst();
    p6.push_inst(
        Op::Branch(b.header, b.exit, all.len() as usize),
        seq![left] + all + all,
        Type::Unit,
        false,
    ).append(b.body, branch)
}

/// The `n` entries of `s` from `from` on.
pub open spec fn tail_of(s: Seq<Inst>, from: int, n: nat) -> Seq<Inst> {
    Seq::new(n, |k: int| nth(s, from + k))
}

fn take_tail(s: &Vec<Inst>, from: usize, n: usize) -> (r: Vec<Inst>)
    requires
        from <= 10,
    ensures
        r@ == tail_of(s@, from as int, n as nat),
{
    let mut r: Vec<Inst> = Vec::new();
    let mut k: usize = 0;
    while k < n
        invariant
            k <= n,
            from <= 10,
            r@.len() == k,
            forall|j: int| 0 <= j < k ==> r@[j] == nth(s@, from + j),
        decreases n - k,
    {
        let v = if k < s.len() && from < s.len() - k {
            s[from + k]
        } else {
            Inst(usize::MAX)
        };
        r.push(v);
        k += 1;
    }
    assert(r@ =~= tail_of(s@, from as int, n as nat));
    r
}

fn build_main(p: &mut Program, f: Function, cand: &Candidate, l: &Loop, b: &LaneBlocks, four: Inst)
    ensures
        final(p)@ == main_built(old(p)@, f, cand@, l@, *b, four),
{
    let main = p.block_params(b.header);
    let params = p.block_params(b.body);
    let copy = crate::ir::copy_vec(&main);
    let jump = p.jump(b.body, copy);
    p.insert_inst(b.header, jump);
    let fuel: usize = p.num_insts();
    let through = take_tail(&main, 10, cand.passthroughs.len());
    let mut sums: Vec<Inst> = Vec::new();
    assert(sums@ =~= Seq::empty());
    let ghost p1 = p@;
    let mut lane: usize = 0;
    while lane < UNROLL_FACTOR
        invariant
            lane <= 4,
            fuel == p1.insts.len(),
            through@ == tail_of(main@, 10, cand@.passthroughs.len()),
            lanes_built(p1, f, cand@, l@, *b, main@, params@, 0, Seq::empty(), fuel as nat) == lanes_built(
                p@,
                f,
                cand@,
                l@,
                *b,
                main@,
                params@,
                lane as int,
                sums@,
                fuel as nat,
            ),
        decreases 4 - lane,
    {
        let next = build_lane(
            p,
            f,
            cand,
            l,
            b,
            lane,
            at(&main, 4),
            at(&params, lane),
            at(&params, 6 + lane),
            &through,
            fuel,
        );
        sums.push(next);
        lane += 1;
    }
    let index = p.binary(BinaryOp::Add, at(&main, 4), four);
    p.insert_inst(b.body, index);
    let left = p.binary(BinaryOp::Sub, at(&main, 5), four);
    p.insert_inst(b.body, left);
    let off: i128 = 4 * (cand.stride as i128);
    #[verifier::truncate]
    let step = p.integer(off as i32);
    sums.push(index);
    sums.push(left);
    let mut backs = sums;
    let ghost p5 = p@;
    let ghost first = backs@;
    let mut lane: usize = 0;
    while lane < UNROLL_FACTOR
        invariant
            lane <= 4,
            pointers_moved(p5, b.body, params@, step, 0, first) == pointers_moved(
                p@,
                b.body,
                params@,
                step,
                lane as int,
                backs@,
            ),
        decreases 4 - lane,
    {
        let r = place_address(p, b.body, at(&params, 6 + lane), step);
        backs.push(r);
        lane += 1;
    }
    let all = joined(&backs, &through);
    let again = crate::ir::copy_vec(&all);
    let branch = p.branch(left, b.header, all, b.exit, again);
    p.insert_inst(b.body, branch);
}

/// What the loop is given for the parameters `params[from..]` of its header to do the remainder.
pub open spec fn remainder_args(
    cand: CandidateV,
    exit: Seq<Inst>,
    sum: Inst,
    left: Inst,
    from: int,
    out: Seq<Inst>,
) -> Seq<Inst>
    decreases cand.header_params.len() - from,
{
    if from >= cand.header_params.len() {
        out
    } else {
        let v = cand.header_params[from];
        let w = if v == cand.k_param {
            nth(exit, 4)
        } else if v == cand.acc_param {
            sum
        } else if v == cand.ctr_param {
            left
        } else if v == cand.ptr_param {
            nth(exit, 6)
        } else {
            nth(exit, 10 + carried(cand.passthroughs, v, 0))
        };
        remainder_args(cand, exit, sum, left, from + 1, out.push(w))
    }
}

/// What the exit is given for its arguments `args[from..]` when nothing remains.
pub open spec fn final_args(cand: CandidateV, exit: Seq<Inst>, sum: Inst, args: Seq<Inst>, from: int, out: Seq<Inst>) -> Seq<
    Inst,
>
    decreases args.len() - from,
{
    if from >= args.len() {
        out
    } else {
        let v = args[from];
        let w = if v == cand.k_back {
            nth(exit, 4)
        } else if v == cand.acc_back {
            sum
        } else {
            nth(exit, 10 + carried(cand.passthroughs, v, 0))
        };
        final_args(cand, exit, sum, args, from + 1, out.push(w))
    }
}

/// The end of the lane loop built: the sums of the lanes are added up, and the loop does the remainder
/// where there is one.
pub open spec fn exit_built(p: ProgramV, cand: CandidateV, b: LaneBlocks, sum_in: Inst) -> ProgramV {
    let exit = p.block(b.exit).params;
    let s01 = p.next_inst();
    let p1 = binary_made(p, BinaryOp::Add, nth(exit, 0), nth(exit, 1));
    let s23 = p1.next_inst();
    let p2 = binary_made(p1, BinaryOp::Add, nth(exit, 2), nth(exit, 3));
    let total = p2.next_inst();
    let p3 = binary_made(p2, BinaryOp::Add, s01, s23);
    let sum = p3.next_inst();
    let p4 = binary_made(p3, BinaryOp::Add, sum_in, total);
    let left = p4.next_inst();
    let p5 = binary_made(p4, BinaryOp::Sub, cand.bound, nth(exit, 4));
    let again = remainder_args(cand, exit, sum, left, 0, Seq::empty());
    let done = final_args(cand, exit, sum, cand.exit_args, 0, Seq::empty());
    let branch = p5.next_inst();
    let p6 = p5.push_inst(
        Op::Branch(cand.header, cand.exit, again.len() as usize),
        seq![left] + again + done,
        Type::Unit,
        false,
    );
    p6.append(b.exit, s01).append(b.exit, s23).append(b.exit, total).append(b.exit, sum).append(b.exit, left).append(
        b.exit,
        branch,
    )
}

fn carried_value(exit: &Vec<Inst>, n: usize) -> (r: Inst)
    ensures
        r == nth(exit@, 10 + n),
{
    if exit.len() > 10 && n < exit.len() - 10 {
        exit[10 + n]
    } else {
        Inst(usize::MAX)
    }
}

fn build_exit(p: &mut Program, cand: &Candidate, b: &LaneBlocks, sum_in: Inst)
    ensures
        final(p)@ == exit_built(old(p)@, cand@, *b, sum_in),
{
    let exit = p.block_params(b.exit);
    let s01 = p.binary(BinaryOp::Add, at(&exit, 0), at(&exit, 1));
    let s23 = p.binary(BinaryOp::Add, at(&exit, 2), at(&exit, 3));
    let total = p.binary(BinaryOp::Add, s01, s23);
    let sum = p.binary(BinaryOp::Add, sum_in, total);
    let left = p.binary(BinaryOp::Sub, cand.bound, at(&exit, 4));
    let mut again: Vec<Inst> = Vec::new();
    assert(again@ =~= Seq::empty());
    let mut k: usize = 0;
    while k < cand.header_params.len()
        invariant
            k <= cand.header_params@.len(),
            remainder_args(cand@, exit@, sum, left, 0, Seq::empty()) == remainder_args(
                cand@,
                exit@,
                sum,
                left,
                k as int,
                again@,
            ),
        decreases cand.header_params@.len() - k,
    {
        let v = cand.header_params[k];
        let w = if v == cand.k_param {
            at(&exit, 4)
        } else if v == cand.acc_param {
            sum
        } else if v == cand.ctr_param {
            left
        } else if v == cand.ptr_param {
            at(&exit, 6)
        } else {
            carried_value(&exit, carried_at(&cand.passthroughs, v))
        };
        again.push(w);
        k += 1;
    }
    let mut done: Vec<Inst> = Vec::new();
    assert(done@ =~= Seq::empty());
    let mut k: usize = 0;
    while k < cand.exit_args.len()
        invariant
            k <= cand.exit_args@.len(),
            final_args(cand@, exit@, sum, cand.exit_args@, 0, Seq::empty()) == final_args(
                cand@,
                exit@,
                sum,
                cand.exit_args@,
                k as int,
                done@,
            ),
        decreases cand.exit_args@.len() - k,
    {
        let v = cand.exit_args[k];
        let w = if v == cand.k_back {
            at(&exit, 4)
        } else if v == cand.acc_back {
            sum
        } else {
            carried_value(&exit, carried_at(&cand.passthroughs, v))
        };
        done.push(w);
        k += 1;
    }
    let branch = p.branch(left, cand.header, again, cand.exit, done);
    p.insert_inst(b.exit, s01);
    p.insert_inst(b.exit, s23);
    p.insert_inst(b.exit, total);
    p.insert_inst(b.exit, sum);
    p.insert_inst(b.exit, left);
    p.insert_inst(b.exit, branch);
}

/// The loop of `cand` run in four lanes; `None` where the loop has no block of its own before it, or
/// does not compute its sum in its body.
pub open spec fn blocked(p: ProgramV, f: Function, order: Seq<BasicBlock>, l: LoopV, cand: CandidateV) -> Option<ProgramV> {
    match preheader_of(p, order, l) {
        None => None,
        Some(pre) => if p.op(p.terminator(pre)) is Jump && p.block(cand.body).insts.contains(cand.acc_back) {
            let args = p.args(p.terminator(pre));
            let (p1, b) = lane_blocks(p, f, pre, lane_types(p, cand));
            let (p2, four) = guard_built(p1, cand, b, args);
            let p3 = main_built(p2, f, cand, l, b, four);
            let p4 = exit_built(p3, cand, b, nth(args, position(cand.header_params, cand.acc_param, 0)));
            Some(p4.set_inst(p4.terminator(pre), Op::Jump(b.guard), Seq::empty(), Type::Unit))
        } else {
            None
        },
    }
}

/// The first of the loops `loops[from..]` that can be run in lanes is.
pub open spec fn first_blocked(
    p: ProgramV,
    f: Function,
    tree: TreeV,
    order: Seq<BasicBlock>,
    loops: Seq<LoopV>,
    from: int,
) -> (ProgramV, bool)
    decreases loops.len() - from,
{
    if from >= loops.len() {
        (p, false)
    } else {
        match candidate(p, f, tree, order, loops[from]) {
            Some(c) => match blocked(p, f, order, loops[from], c) {
                Some(q) => (q, true),
                None => first_blocked(p, f, tree, order, loops, from + 1),
            },
            None => first_blocked(p, f, tree, order, loops, from + 1),
        }
    }
}

/// Function `f` with one loop run in lanes, where one can be.
pub open spec fn with_lanes(p: ProgramV, f: Function) -> (ProgramV, bool) {
    if entry_of(p, f) is None {
        (p, false)
    } else {
        let order = reverse_postorder(p, f);
        let tree = tree_of(p, f);
        first_blocked(p, f, tree, order, loops_of(tree, order), 0)
    }
}

/// The functions `layout[from..]`, each with its first such reduction in lanes.
pub open spec fn lanes_everywhere(p: ProgramV, layout: Seq<Function>, from: int, changed: bool) -> (ProgramV, bool)
    decreases layout.len() - from,
{
    if from >= layout.len() {
        (p, changed)
    } else {
        let (q, here) = with_lanes(p, layout[from]);
        lanes_everywhere(q, layout, from + 1, changed || here)
    }
}

impl BlockedReduction {
    /// Runs the loop of `cand` in four lanes. False, with nothing changed, where that cannot be done.
    pub fn apply(data: &mut Program, f: Function, order: &Vec<BasicBlock>, looop: &Loop, cand: &Candidate) -> (r: bool)
        ensures
            match blocked(old(data)@, f, order@, looop@, cand@) {
                Some(q) => r && final(data)@ == q,
                None => !r && final(data)@ == old(data)@,
            },
    {
        let pre = match ensure_preheader(data, order, looop) {
            Some(b) => b,
            None => {
                return false;
            },
        };
        let t = data.terminator(pre);
        let insts = data.block_insts(cand.body);
        if !matches!(data.op(t), Op::Jump(_)) || !has_inst(&insts, cand.acc_back) {
            return false;
        }
        let args = data.args(t);
        let b = make_lane_blocks(data, f, pre, cand);
        let four = build_guard(data, cand, &b, &args);
        build_main(data, f, cand, looop, &b, four);
        let sum_in = at(&args, inst_position(&cand.header_params, cand.acc_param));
        build_exit(data, cand, &b, sum_in);
        let t = data.terminator(pre);
        let none: Vec<Inst> = Vec::new();
        assert(none@ =~= Seq::empty());
        data.set_inst(t, Op::Jump(b.guard), none, Type::Unit);
        true
    }

    /// Runs in every function the first such reduction in four lanes. True when anything changed.
    pub fn run(&mut self, program: &mut Program) -> (changed: bool)
        ensures
            (final(program)@, changed) == lanes_everywhere(old(program)@, old(program)@.layout, 0, false),
    {
        let layout = program.function_layout();
        let mut changed = false;
        let mut k: usize = 0;
        while k < layout.len()
            invariant
                k <= layout@.len(),
                lanes_everywhere(old(program)@, layout@, 0, false) == lanes_everywhere(program@, layout@, k as int, changed),
            decreases layout@.len() - k,
        {
            let here = self.run_on(program, layout[k]);
            changed = changed || here;
            k += 1;
        }
        changed
    }

    /// Runs the first loop of `f` that is such a reduction in four lanes. True when there was one.
    pub fn run_on(&mut self, data: &mut Program, f: Function) -> (changed: bool)
        ensures
            (final(data)@, changed) == with_lanes(old(data)@, f),
    {
        let tree = match DomTree::new(data, f) {
            None => {
                return false;
            },
            Some(t) => t,
        };
        let order = rpo_path(data, f);
        let loops = find_loops(&tree, &order);
        let mut k: usize = 0;
        while k < loops.len()
            invariant
                k <= loops@.len(),
                data@ == old(data)@,
                tree.wf(),
                tree@ == tree_of(data@, f),
                order@ == reverse_postorder(data@, f),
                entry_of(data@, f) is Some,
                views(loops@) == loops_of(tree@, order@),
                with_lanes(data@, f) == first_blocked(data@, f, tree@, order@, views(loops@), k as int),
            decreases loops@.len() - k,
        {
            assert(views(loops@)[k as int] == loops@[k as int]@);
            if let Some(c) = Self::find_candidate(data, f, &tree, &order, &loops[k]) {
                if Self::apply(data, f, &order, &loops[k], &c) {
                    return true;
                }
            }
            k += 1;
        }
        false
    }
}

/// The sum after the loop took the terms `t[..n]` off `acc` one by one.
pub open spec fn scalar_sum(acc: i32, t: Seq<i32>, n: nat) -> i32
    decreases n,
{
    if n == 0 {
        acc
    } else {
        int_op(BinaryOp::Sub, scalar_sum(acc, t, (n - 1) as nat), t[n - 1])
    }
}

/// The sum of lane `lane` after `n` rounds of four terms, starting at zero.
pub open spec fn lane_sum(t: Seq<i32>, lane: int, n: nat) -> i32
    decreases n,
{
    if n == 0 {
        0
    } else {
        int_op(BinaryOp::Sub, lane_sum(t, lane, (n - 1) as nat), t[4 * (n - 1) + lane])
    }
}

proof fn lemma_wraps(x: int) -> (q: int)
    ensures
        wrap32(x) == x + q * 0x1_0000_0000,
{
    let m = x % 0x1_0000_0000;
    if m > 0x7fff_ffff {
        -(x / 0x1_0000_0000) - 1
    } else {
        -(x / 0x1_0000_0000)
    }
}

proof fn lemma_sub(a: i32, b: i32) -> (q: int)
    ensures
        int_op(BinaryOp::Sub, a, b) == a - b + q * 0x1_0000_0000,
{
    lemma_wraps(a - b)
}

#[verifier::opaque]
spec fn add32(a: i32, b: i32) -> i32 {
    int_op(BinaryOp::Add, a, b)
}

proof fn lemma_add(a: i32, b: i32) -> (q: int)
    ensures
        add32(a, b) == a + b + q * 0x1_0000_0000,
{
    reveal(add32);
    lemma_wraps(a + b)
}

proof fn lemma_close(r: i32, s: i32, k: int)
    requires
        r == s + k * 0x1_0000_0000,
    ensures
        r == s,
{
}

proof fn lemma_four(acc: i32, l0: i32, l1: i32, l2: i32, l3: i32, s: i32, q: int)
    requires
        s == acc + l0 + l1 + l2 + l3 + q * 0x1_0000_0000,
    ensures
        add32(acc, add32(add32(l0, l1), add32(l2, l3))) == s,
{
    let a = lemma_add(l0, l1);
    let b = lemma_add(l2, l3);
    let c = lemma_add(add32(l0, l1), add32(l2, l3));
    let d = lemma_add(acc, add32(add32(l0, l1), add32(l2, l3)));
    lemma_close(add32(acc, add32(add32(l0, l1), add32(l2, l3))), s, a + b + c + d - q);
}

proof fn lemma_scalar_step(acc: i32, t: Seq<i32>, n: nat) -> (q: int)
    ensures
        scalar_sum(acc, t, n + 1) == scalar_sum(acc, t, n) - t[n as int] + q * 0x1_0000_0000,
{
    lemma_sub(scalar_sum(acc, t, n), t[n as int])
}

proof fn lemma_lane_step(t: Seq<i32>, lane: int, n: nat) -> (q: int)
    ensures
        lane_sum(t, lane, n + 1) == lane_sum(t, lane, n) - t[4 * n + lane] + q * 0x1_0000_0000,
{
    lemma_sub(lane_sum(t, lane, n), t[4 * n + lane])
}

proof fn lemma_lanes(acc: i32, t: Seq<i32>, n: nat) -> (q: int)
    ensures
        scalar_sum(acc, t, 4 * n) == acc + lane_sum(t, 0, n) + lane_sum(t, 1, n) + lane_sum(t, 2, n) + lane_sum(
            t,
            3,
            n,
        ) + q * 0x1_0000_0000,
    decreases n,
{
    if n == 0 {
        0
    } else {
        let m = (n - 1) as nat;
        let q = lemma_lanes(acc, t, m);
        let a = lemma_scalar_step(acc, t, 4 * m);
        let b = lemma_scalar_step(acc, t, 4 * m + 1);
        let c = lemma_scalar_step(acc, t, 4 * m + 2);
        let d = lemma_scalar_step(acc, t, 4 * m + 3);
        let e = lemma_lane_step(t, 0, m);
        let f = lemma_lane_step(t, 1, m);
        let g = lemma_lane_step(t, 2, m);
        let h = lemma_lane_step(t, 3, m);
        assert(4 * n == 4 * m + 3 + 1);
        q + a + b + c + d - e - f - g - h
    }
}

/// Four lanes that start at zero and each take every fourth term off, added up the way the lane loop
/// does and added to the sum at entry, give what the loop gives.
pub proof fn lanes_add_up(acc: i32, t: Seq<i32>, n: nat)
    requires
        t.len() >= 4 * n,
    ensures
        int_op(
            BinaryOp::Add,
            acc,
            int_op(
                BinaryOp::Add,
                int_op(BinaryOp::Add, lane_sum(t, 0, n), lane_sum(t, 1, n)),
                int_op(BinaryOp::Add, lane_sum(t, 2, n), lane_sum(t, 3, n)),
            ),
        ) == scalar_sum(acc, t, 4 * n),
{
    let q = lemma_lanes(acc, t, n);
    lemma_four(
        acc,
        lane_sum(t, 0, n),
        lane_sum(t, 1, n),
        lane_sum(t, 2, n),
        lane_sum(t, 3, n),
        scalar_sum(acc, t, 4 * n),
        q,
    );
    reveal(add32);
}

/// The rounds split between the lane loop and the remainder: with a bound of at least four the lanes do
/// a positive multiple of four rounds, and fewer than four remain.
pub proof fn rounds_are_split(bound: i32)
    requires
        bound >= 4,
    ensures
        ({
            let masked = int_op(BinaryOp::And, bound, (-4) as i32);
            let left = int_op(BinaryOp::Sub, bound, masked);
            &&& 4 <= masked <= bound
            &&& masked % 4 == 0
            &&& 0 <= left < 4
            &&& masked + left == bound
        }),
{
    assert(4 <= bound & -4i32 && bound & -4i32 <= bound && (bound & -4i32) % 4 == 0 && bound - (bound & -4i32) < 4)
        by (bit_vector)
        requires
            bound >= 4,
    ;
}

/// Parameter `param`, which the loop gives `back`, is index, sum, counter or pointer.
pub open spec fn has_part(p: ProgramV, param: Inst, back: Inst) -> bool {
    (p.ty(param) is I32 && (counts_down(p, param, back) || counts_up(p, param, back) || takes_product(p, param, back))) || (
    p.ty(param) is Pointer && moves_on(p, param, back))
}

/// Value `x` is the index, the sum, the counter or the pointer.
pub open spec fn is_part(r: RolesV, x: Inst) -> bool {
    r.k == Some(x) || r.acc == Some(x) || r.ctr == Some(x) || r.ptr == Some(x)
}

/// Parameter number `i` is a part, or comes back as it was.
pub open spec fn is_placed(r: RolesV, params: Seq<Inst>, i: int) -> bool {
    is_part(r, params[i]) || r.passthroughs.contains((params[i], i as usize))
}

/// The parts found among the first `n` parameters are what they are called, and each of these parameters has
/// its part or comes back as it was.
pub open spec fn roles_hold(p: ProgramV, params: Seq<Inst>, backs: Seq<Inst>, n: int, r: RolesV) -> bool {
    &&& r.k matches Some(x) ==> exists|i: int|
        0 <= i < n && #[trigger] params[i] == x && counts_up(p, x, backs[i]) && has_part(p, x, backs[i])
    &&& r.acc matches Some(x) ==> exists|i: int|
        0 <= i < n && #[trigger] params[i] == x && takes_product(p, x, backs[i]) && has_part(p, x, backs[i])
    &&& r.ctr matches Some(x) ==> exists|i: int|
        0 <= i < n && #[trigger] params[i] == x && counts_down(p, x, backs[i]) && has_part(p, x, backs[i])
    &&& r.ptr matches Some(x) ==> exists|i: int|
        0 <= i < n && #[trigger] params[i] == x && moves_on(p, x, backs[i]) && has_part(p, x, backs[i])
    &&& forall|j: int|
        0 <= j < r.passthroughs.len() ==> {
            let (x, i) = #[trigger] r.passthroughs[j];
            i < n && params[i as int] == x && backs[i as int] == x && !has_part(p, x, x)
        }
    &&& forall|i: int| 0 <= i < n ==> #[trigger] is_placed(r, params, i)
}

proof fn lemma_roles(p: ProgramV, params: Seq<Inst>, backs: Seq<Inst>, from: int, r: RolesV)
    requires
        0 <= from <= params.len() <= usize::MAX,
        from <= backs.len(),
        roles_hold(p, params, backs, from, r),
    ensures
        roles_from(p, params, backs, from, r) matches Some(all) ==> roles_hold(
            p,
            params,
            backs,
            if params.len() <= backs.len() {
                params.len() as int
            } else {
                backs.len() as int
            },
            all,
        ),
    decreases params.len() - from,
{
    if from < params.len() && from < backs.len() {
        let (x, back) = (params[from], backs[from]);
        match role_added(p, r, x, back, from as usize) {
            Some(next) => {
                assert(params[from] == x);
                assert(roles_hold(p, params, backs, from + 1, next)) by {
                    assert forall|j: int| 0 <= j < next.passthroughs.len() implies {
                        let (y, i) = #[trigger] next.passthroughs[j];
                        i < from + 1 && params[i as int] == y && backs[i as int] == y && !has_part(p, y, y)
                    } by {
                        if j < r.passthroughs.len() {
                            assert(next.passthroughs[j] == r.passthroughs[j]);
                        }
                    }
                    assert forall|i: int| 0 <= i < from + 1 implies #[trigger] is_placed(next, params, i) by {
                        if i < from {
                            assert(is_placed(r, params, i));
                            let e = (params[i], i as usize);
                            if r.passthroughs.contains(e) {
                                let j = r.passthroughs.index_of(e);
                                assert(next.passthroughs[j] == e);
                            }
                        } else if next.passthroughs.len() > r.passthroughs.len() {
                            assert(next.passthroughs[r.passthroughs.len() as int] == (x, from as usize));
                        }
                    }
                }
                lemma_roles(p, params, backs, from + 1, next);
            },
            None => {},
        }
    }
}

/// What the end of block `body` gives the parameters of `header`.
pub open spec fn given_back(p: ProgramV, header: BasicBlock, body: BasicBlock) -> Seq<Inst> {
    let t = p.terminator(body);
    match p.op(t) {
        Op::Branch(x, _, _) => if x == header {
            p.t_args(t)
        } else {
            p.f_args(t)
        },
        _ => Seq::empty(),
    }
}

/// A loop that is run in lanes is what it is taken for: each round takes a product off its sum, goes on by one
/// in its index, moves its pointer by a fixed distance, and counts down by one to the end; everything else it
/// carries stays as it was. Each parameter of the header is exactly one of these.
pub proof fn rounds_are_alike(p: ProgramV, f: Function, tree: TreeV, order: Seq<BasicBlock>, l: LoopV)
    requires
        candidate(p, f, tree, order, l) is Some,
        p.block(l.header).params.len() <= usize::MAX,
        p.block(l.header).params.no_duplicates(),
        given_back(p, l.header, other_block(l)).len() == p.block(l.header).params.len(),
    ensures
        ({
            let c = candidate(p, f, tree, order, l)->0;
            &&& seq![c.k_param, c.acc_param, c.ctr_param, c.ptr_param].no_duplicates()
            &&& forall|i: int|
                0 <= i < c.header_params.len() ==> (seq![c.k_param, c.acc_param, c.ctr_param, c.ptr_param].contains(
                    #[trigger] c.header_params[i],
                ) != c.passthroughs.contains((c.header_params[i], i as usize)))
            &&& takes_product(p, c.acc_param, c.acc_back)
            &&& counts_up(p, c.k_param, c.k_back)
            &&& counts_down(p, c.ctr_param, c.ctr_back)
            &&& moves_on(p, c.ptr_param, c.ptr_back)
            &&& only_offset(p, c.ptr_back) == Some(c.stride)
            &&& p.arg(p.terminator(c.body), 0) == c.ctr_back
            &&& forall|j: int|
                0 <= j < c.passthroughs.len() ==> {
                    let (x, i) = #[trigger] c.passthroughs[j];
                    nth(c.header_params, i as int) == x && nth(given_back(p, c.header, c.body), i as int) == x
                }
        }),
{
    let c = candidate(p, f, tree, order, l)->0;
    let params = p.block(l.header).params;
    let backs = given_back(p, l.header, other_block(l));
    lemma_roles(p, params, backs, 0, no_roles());
    let r = roles_from(p, params, backs, 0, no_roles())->0;
    position_is_first(params, c.acc_param, 0);
    position_is_first(params, c.k_param, 0);
    position_is_first(params, c.ctr_param, 0);
    position_is_first(params, c.ptr_param, 0);
    assert(c.passthroughs == r.passthroughs);
    let parts = seq![c.k_param, c.acc_param, c.ctr_param, c.ptr_param];
    assert forall|i: int| 0 <= i < params.len() implies (parts.contains(#[trigger] params[i]) != c.passthroughs.contains(
        (params[i], i as usize),
    )) by {
        assert(is_placed(r, params, i));
        let x = params[i];
        if is_part(r, x) {
            assert(parts[0] == x || parts[1] == x || parts[2] == x || parts[3] == x);
            if c.passthroughs.contains((x, i as usize)) {
                let j = c.passthroughs.index_of((x, i as usize));
                assert(r.passthroughs[j] == (x, i as usize));
            }
        } else if parts.contains(x) {
            let k = parts.index_of(x);
            assert(parts[k] == x);
        }
    }
}

/// The parts of a loop that is run in lanes are parameters of its header, and what the loop gives back for each is
/// its update.
pub proof fn parts_are_parameters(p: ProgramV, f: Function, tree: TreeV, order: Seq<BasicBlock>, l: LoopV)
    requires
        candidate(p, f, tree, order, l) is Some,
        p.block(l.header).params.len() <= usize::MAX,
    ensures
        ({
            let c = candidate(p, f, tree, order, l)->0;
            let backs = given_back(p, c.header, c.body);
            &&& c.header == l.header && c.body == other_block(l) && c.header_params == p.block(l.header).params
            &&& c.header_params.contains(c.k_param) && c.k_back == nth(backs, position(c.header_params, c.k_param, 0))
            &&& c.header_params.contains(c.acc_param) && c.acc_back == nth(
                backs,
                position(c.header_params, c.acc_param, 0),
            )
            &&& c.header_params.contains(c.ctr_param) && c.ctr_back == nth(
                backs,
                position(c.header_params, c.ctr_param, 0),
            )
            &&& c.header_params.contains(c.ptr_param) && c.ptr_back == nth(
                backs,
                position(c.header_params, c.ptr_param, 0),
            )
            &&& forall|j: int| 0 <= j < c.passthroughs.len() ==> (#[trigger] c.passthroughs[j]).1 < c.header_params.len()
        }),
{
    let params = p.block(l.header).params;
    lemma_roles(p, params, given_back(p, l.header, other_block(l)), 0, no_roles());
}

} // verus!
