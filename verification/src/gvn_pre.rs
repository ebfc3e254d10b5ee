//! Elimination of `i32` computations in join blocks that the ways into the block already did.

use vstd::prelude::*;

use crate::cfg::{entry_of, immediate, is_immediate, reverse_postorder, rpo_path, tree_of, DomTree, TreeV};
use crate::edges::{arg_appended, edge_args, incoming, incoming_edges, redirected, Edge, EdgeArm};
use crate::ir::{
    before, has_inst, inst_position, position, BasicBlock, BinaryOp, Function, Inst, Op, ProgramV, Type,
};
use crate::numbering::{all_numbered, binary_key, is_safe_op, make_binary_key, safe_op, Key, KeyV, Numbers, NumbersV, Scope, ScopeV};
use crate::program::Program;

verus! {

pub struct GVNPRE;

/// The instructions from number `from` on, behind `found`.
pub open spec fn insts_from(p: ProgramV, from: int, found: Seq<Inst>) -> Seq<Inst>
    decreases p.insts.len() - from,
{
    if from >= p.insts.len() {
        found
    } else {
        insts_from(p, from + 1, found.push(Inst(from as usize)))
    }
}

/// The numbers of all values of `p`: literals and the `i32` operations that are defined everywhere by
/// what they compute, all others by themselves.
pub open spec fn value_numbers(p: ProgramV) -> Map<usize, usize> {
    all_numbered(
        p,
        ScopeV { strict: true },
        NumbersV { by_inst: Map::empty(), keys: Seq::empty() },
        insts_from(p, 0, Seq::empty()),
        0,
        Seq::empty(),
        p.insts.len(),
    ).0.by_inst
}

/// What `op` computes on `lhs` and `rhs`; `None` where it is no candidate.
pub open spec fn expr(p: ProgramV, nums: Map<usize, usize>, op: BinaryOp, lhs: Inst, rhs: Inst) -> Option<KeyV> {
    if p.ty(lhs) is I32 && p.ty(rhs) is I32 && is_safe_op(op) && nums.contains_key(lhs.0) && nums.contains_key(rhs.0) {
        Some(binary_key(op, Type::I32, Type::I32, nums[lhs.0], nums[rhs.0]))
    } else {
        None
    }
}

/// What instruction `i` computes, where it is a candidate.
pub open spec fn expr_at(p: ProgramV, nums: Map<usize, usize>, i: Inst) -> Option<KeyV> {
    match p.op(i) {
        Op::Binary(op) => expr(p, nums, op, p.arg(i, 0), p.arg(i, 1)),
        _ => None,
    }
}

/// The last of `insts[..upto]` that computes `key`.
pub open spec fn last_with(p: ProgramV, nums: Map<usize, usize>, insts: Seq<Inst>, key: KeyV, upto: int) -> Option<Inst>
    decreases upto,
{
    if upto <= 0 || upto > insts.len() {
        None
    } else if expr_at(p, nums, insts[upto - 1]) == Some(key) {
        Some(insts[upto - 1])
    } else {
        last_with(p, nums, insts, key, upto - 1)
    }
}

/// The closest block of `order[from..]` that dominates `b`.
pub open spec fn parent_from(tree: TreeV, order: Seq<BasicBlock>, b: BasicBlock, from: int) -> Option<BasicBlock>
    decreases order.len() - from,
{
    if from >= order.len() {
        None
    } else if immediate(tree, order, order[from], b) {
        Some(order[from])
    } else {
        parent_from(tree, order, b, from + 1)
    }
}

/// The value that holds `key` at the end of `b`: computed in `b`, or on the way to it.
pub open spec fn leader_at(
    p: ProgramV,
    nums: Map<usize, usize>,
    tree: TreeV,
    order: Seq<BasicBlock>,
    b: BasicBlock,
    key: KeyV,
    depth: nat,
) -> Option<Inst>
    decreases depth,
{
    if depth == 0 {
        None
    } else {
        match last_with(p, nums, p.block(b).insts, key, p.block(b).insts.len() as int) {
            Some(i) => Some(i),
            None => match parent_from(tree, order, b, 0) {
                Some(x) => leader_at(p, nums, tree, order, x, key, (depth - 1) as nat),
                None => None,
            },
        }
    }
}

/// Operand `v` of an instruction of `b` as edge `e` gives it: a parameter becomes its argument.
pub open spec fn translated(p: ProgramV, b: BasicBlock, e: Edge, v: Inst) -> Option<Inst> {
    let k = position(p.block(b).params, v, 0);
    if k >= p.block(b).params.len() {
        Some(v)
    } else if k < edge_args(p, e).len() {
        Some(edge_args(p, e)[k])
    } else {
        None
    }
}

/// The first of `order[from..]` that holds `v` as instruction.
pub open spec fn home(p: ProgramV, order: Seq<BasicBlock>, v: Inst, from: int) -> Option<BasicBlock>
    decreases order.len() - from,
{
    if from >= order.len() {
        None
    } else if p.block(order[from]).insts.contains(v) {
        Some(order[from])
    } else {
        home(p, order, v, from + 1)
    }
}

/// The first of `order[from..]` that holds `v` as parameter.
pub open spec fn param_home(p: ProgramV, order: Seq<BasicBlock>, v: Inst, from: int) -> Option<BasicBlock>
    decreases order.len() - from,
{
    if from >= order.len() {
        None
    } else if p.block(order[from]).params.contains(v) {
        Some(order[from])
    } else {
        param_home(p, order, v, from + 1)
    }
}

/// Value `v` can be used right before transfer `t` of block `b`.
pub open spec fn usable(
    p: ProgramV,
    f: Function,
    tree: TreeV,
    order: Seq<BasicBlock>,
    b: BasicBlock,
    t: Inst,
    v: Inst,
) -> bool {
    if p.inst(v).global || p.func(f).params.contains(v) || p.op(v) is Integer {
        true
    } else {
        match home(p, order, v, 0) {
            Some(d) => if d != b {
                tree.dominates(d, b)
            } else {
                home(p, order, t, 0) is Some && position(p.block(d).insts, v, 0) < position(
                    p.block(home(p, order, t, 0)->0).insts,
                    t,
                    0,
                )
            },
            None => match param_home(p, order, v, 0) {
                Some(d) => tree.dominates(d, b),
                None => false,
            },
        }
    }
}

/// Edge `e` to `b` passes as many values as `b` has parameters, of the same types.
pub open spec fn edge_fits(p: ProgramV, b: BasicBlock, e: Edge) -> bool {
    let args = edge_args(p, e);
    let params = p.block(b).params;
    args.len() == params.len() && forall|k: int|
        0 <= k < args.len() ==> #[trigger] p.ty(args[k]) == p.ty(params[k])
}

/// What one edge offers for a computation: the operands it passes, and a value that already holds the
/// result.
pub struct Offer {
    pub lhs: Inst,
    pub rhs: Inst,
    pub leader: Option<Inst>,
}

/// What edge `e` offers for computation `i` of block `b`; `None` where the computation cannot be done
/// at the end of the edge's block.
pub open spec fn offer(
    p: ProgramV,
    f: Function,
    nums: Map<usize, usize>,
    tree: TreeV,
    order: Seq<BasicBlock>,
    b: BasicBlock,
    i: Inst,
    op: BinaryOp,
    e: Edge,
) -> Option<Offer> {
    match (translated(p, b, e, p.arg(i, 0)), translated(p, b, e, p.arg(i, 1))) {
        (Some(lhs), Some(rhs)) => match expr(p, nums, op, lhs, rhs) {
            Some(key) => if usable(p, f, tree, order, e.from, e.terminator, lhs) && usable(
                p,
                f,
                tree,
                order,
                e.from,
                e.terminator,
                rhs,
            ) {
                let leader = match leader_at(p, nums, tree, order, e.from, key, order.len()) {
                    Some(x) => if p.ty(x) == p.ty(i) && usable(p, f, tree, order, e.from, e.terminator, x) {
                        Some(x)
                    } else {
                        None
                    },
                    None => None,
                };
                Some(Offer { lhs, rhs, leader })
            } else {
                None
            },
            None => None,
        },
        _ => None,
    }
}

/// What the edges `edges[from..]` offer, behind `found`; `None` where one offers nothing.
pub open spec fn offers(
    p: ProgramV,
    f: Function,
    nums: Map<usize, usize>,
    tree: TreeV,
    order: Seq<BasicBlock>,
    b: BasicBlock,
    i: Inst,
    op: BinaryOp,
    edges: Seq<Edge>,
    from: int,
    found: Seq<Offer>,
) -> Option<Seq<Offer>>
    decreases edges.len() - from,
{
    if from >= edges.len() {
        Some(found)
    } else {
        match offer(p, f, nums, tree, order, b, i, op, edges[from]) {
            Some(o) => offers(p, f, nums, tree, order, b, i, op, edges, from + 1, found.push(o)),
            None => None,
        }
    }
}

/// How many of `list[from..]` have no value yet.
pub open spec fn gaps(list: Seq<Offer>, from: int) -> nat
    decreases list.len() - from,
{
    if from >= list.len() {
        0
    } else {
        (if list[from].leader is None {
            1nat
        } else {
            0nat
        }) + gaps(list, from + 1)
    }
}

/// The first of `list[from..]` that has no value yet.
pub open spec fn first_gap(list: Seq<Offer>, from: int) -> int
    decreases list.len() - from,
{
    if from >= list.len() || list[from].leader is None {
        from
    } else {
        first_gap(list, from + 1)
    }
}

/// All of `list[from..]` have the value that the first has.
pub open spec fn all_alike(list: Seq<Offer>, from: int) -> bool
    decreases list.len() - from,
{
    from >= list.len() || (list[from].leader == list[0].leader && all_alike(list, from + 1))
}

/// The offers are worth taking: no value missing and not all the same, or one value missing.
pub open spec fn worthwhile(list: Seq<Offer>) -> bool {
    (gaps(list, 0) == 0 && !all_alike(list, 0)) || gaps(list, 0) == 1
}

/// The offers for computation `i` of `b`, where they are worth taking.
pub open spec fn chosen(
    p: ProgramV,
    f: Function,
    nums: Map<usize, usize>,
    tree: TreeV,
    order: Seq<BasicBlock>,
    b: BasicBlock,
    i: Inst,
    edges: Seq<Edge>,
) -> Option<Seq<Offer>> {
    match p.op(i) {
        Op::Binary(op) => if expr_at(p, nums, i) is None || !(p.ty(i) is I32) {
            None
        } else {
            match offers(p, f, nums, tree, order, b, i, op, edges, 0, Seq::empty()) {
                Some(list) => if worthwhile(list) {
                    Some(list)
                } else {
                    None
                },
                None => None,
            }
        },
        _ => None,
    }
}

/// Block `b` is a join that may be rewritten: at least two edges lead to it, none of them back from a
/// block it dominates, and all fit its parameters.
pub open spec fn is_join(p: ProgramV, tree: TreeV, b: BasicBlock, edges: Seq<Edge>) -> bool {
    edges.len() >= 2 && forall|k: int|
        0 <= k < edges.len() ==> !tree.dominates(b, (#[trigger] edges[k]).from) && edge_fits(p, b, edges[k])
}

/// The first computation among `insts[from..]` of `b` that is worth replacing.
pub open spec fn found_in(
    p: ProgramV,
    f: Function,
    nums: Map<usize, usize>,
    tree: TreeV,
    order: Seq<BasicBlock>,
    b: BasicBlock,
    insts: Seq<Inst>,
    edges: Seq<Edge>,
    from: int,
) -> Option<(Inst, Seq<Offer>)>
    decreases insts.len() - from,
{
    if from >= insts.len() {
        None
    } else {
        match chosen(p, f, nums, tree, order, b, insts[from], edges) {
            Some(list) => Some((insts[from], list)),
            None => found_in(p, f, nums, tree, order, b, insts, edges, from + 1),
        }
    }
}

/// The first computation of the blocks `order[from..]` that is worth replacing.
pub open spec fn found_from(
    p: ProgramV,
    f: Function,
    nums: Map<usize, usize>,
    tree: TreeV,
    order: Seq<BasicBlock>,
    from: int,
) -> Option<(BasicBlock, Inst, Seq<Offer>)>
    decreases order.len() - from,
{
    if from >= order.len() {
        None
    } else {
        let b = order[from];
        let edges = incoming(p, order, b);
        let here = if is_join(p, tree, b, edges) {
            found_in(p, f, nums, tree, order, b, p.block(b).insts, edges, 0)
        } else {
            None
        };
        match here {
            Some((i, list)) => Some((b, i, list)),
            None => found_from(p, f, nums, tree, order, from + 1),
        }
    }
}

/// The values of `list[from..]` passed along `edges`; `inserted` where one is missing. The edge `skip`
/// is left out.
pub open spec fn values_passed(
    p: ProgramV,
    edges: Seq<Edge>,
    list: Seq<Offer>,
    inserted: Inst,
    skip: int,
    from: int,
) -> ProgramV
    decreases edges.len() - from,
{
    if from >= edges.len() || from >= list.len() {
        p
    } else if from == skip {
        values_passed(p, edges, list, inserted, skip, from + 1)
    } else {
        let v = match list[from].leader {
            Some(x) => x,
            None => inserted,
        };
        values_passed(arg_appended(p, edges[from], v), edges, list, inserted, skip, from + 1)
    }
}

/// Computation `i` of `b` replaced by a parameter that the edges supply.
pub open spec fn replaced_by_param(p: ProgramV, b: BasicBlock, i: Inst) -> ProgramV {
    p.add_param(b, p.ty(i)).replace_uses(i, p.next_inst()).remove(b, i)
}

/// Computation `i` of `b` replaced where every edge has its value.
pub open spec fn applied(p: ProgramV, b: BasicBlock, i: Inst, edges: Seq<Edge>, list: Seq<Offer>) -> ProgramV {
    replaced_by_param(values_passed(p, edges, list, i, -1, 0), b, i)
}

/// Computation `i` of `b` replaced where edge `gap` lacks its value: it is computed at the end of the
/// edge's block where that has one way out, and otherwise in a new block on the edge.
pub open spec fn applied_with_insertion(
    p: ProgramV,
    f: Function,
    b: BasicBlock,
    i: Inst,
    edges: Seq<Edge>,
    list: Seq<Offer>,
    gap: int,
    op: BinaryOp,
) -> ProgramV {
    let e = edges[gap];
    let lhs = list[gap].lhs;
    let rhs = list[gap].rhs;
    let inserted = p.next_inst();
    let q = p.push_inst(Op::Binary(op), seq![lhs, rhs], p.binary_ty(op, lhs), false);
    if e.arm is Jump {
        let r = q.set_block_insts(e.from, before(q.block(e.from).insts, e.terminator, inserted));
        replaced_by_param(values_passed(r, edges, list, inserted, -1, 0), b, i)
    } else {
        let passed = edge_args(q, e);
        let split = q.next_block();
        let r = q.basic_block("gvn_pre_split"@, Seq::empty()).push_bb_back(f, split).append(split, inserted);
        let s = redirected(r, e, split, Seq::empty());
        let jump = s.next_inst();
        let t = s.push_inst(Op::Jump(b), passed.push(inserted), Type::Unit, false).append(split, jump);
        replaced_by_param(values_passed(t, edges, list, inserted, gap, 0), b, i)
    }
}

/// Function `f` after one replacement, where one is worth it.
pub open spec fn joined_once(p: ProgramV, f: Function) -> (ProgramV, bool) {
    match entry_of(p, f) {
        None => (p, false),
        Some(_) => {
            let order = reverse_postorder(p, f);
            match found_from(p, f, value_numbers(p), tree_of(p, f), order, 0) {
                None => (p, false),
                Some((b, i, list)) => {
                    let edges = incoming(p, order, b);
                    if gaps(list, 0) == 0 {
                        (applied(p, b, i, edges, list), true)
                    } else {
                        (
                            applied_with_insertion(
                                p,
                                f,
                                b,
                                i,
                                edges,
                                list,
                                first_gap(list, 0),
                                p.op(i)->Binary_0,
                            ),
                            true,
                        )
                    }
                },
            }
        },
    }
}

/// One replacement in each of the functions `layout[from..]`.
pub open spec fn all_joined(p: ProgramV, layout: Seq<Function>, from: int, changed: bool) -> (ProgramV, bool)
    decreases layout.len() - from,
{
    if from >= layout.len() {
        (p, changed)
    } else {
        let (q, here) = joined_once(p, layout[from]);
        all_joined(q, layout, from + 1, changed || here)
    }
}

struct Context {
    nums: Numbers,
    tree: DomTree,
    order: Vec<BasicBlock>,
}

impl Context {
    spec fn wf(&self) -> bool {
        self.tree.wf()
    }

    fn expr(&self, p: &Program, op: BinaryOp, lhs: Inst, rhs: Inst) -> (r: Option<Key>)
        ensures
            match r {
                Some(k) => expr(p@, self.nums@.by_inst, op, lhs, rhs) == Some(k@),
                None => expr(p@, self.nums@.by_inst, op, lhs, rhs) is None,
            },
    {
        if !p.is_i32(lhs) || !p.is_i32(rhs) || !safe_op(op) {
            return None;
        }
        match (self.nums.get(lhs), self.nums.get(rhs)) {
            (Some(a), Some(b)) => Some(make_binary_key(op, Type::I32, Type::I32, a, b)),
            _ => None,
        }
    }

    fn computes(&self, p: &Program, i: Inst, key: &Key) -> (r: bool)
        ensures
            r == (expr_at(p@, self.nums@.by_inst, i) == Some(key@)),
    {
        match p.op(i) {
            Op::Binary(op) => match self.expr(p, op, p.arg(i, 0), p.arg(i, 1)) {
                Some(k) => k.same(key),
                None => false,
            },
            _ => false,
        }
    }

    fn last_with(&self, p: &Program, insts: &Vec<Inst>, key: &Key) -> (r: Option<Inst>)
        ensures
            r == last_with(p@, self.nums@.by_inst, insts@, key@, insts@.len() as int),
    {
        let mut k: usize = insts.len();
        while k > 0
            invariant
                k <= insts@.len(),
                last_with(p@, self.nums@.by_inst, insts@, key@, insts@.len() as int) == last_with(
                    p@,
                    self.nums@.by_inst,
                    insts@,
                    key@,
                    k as int,
                ),
            decreases k,
        {
            if self.computes(p, insts[k - 1], key) {
                return Some(insts[k - 1]);
            }
            k -= 1;
        }
        None
    }

    fn parent(&self, b: BasicBlock) -> (r: Option<BasicBlock>)
        requires
            self.wf(),
        ensures
            r == parent_from(self.tree@, self.order@, b, 0),
    {
        let mut k: usize = 0;
        while k < self.order.len()
            invariant
                k <= self.order@.len(),
                self.wf(),
                parent_from(self.tree@, self.order@, b, 0) == parent_from(self.tree@, self.order@, b, k as int),
            decreases self.order@.len() - k,
        {
            if is_immediate(&self.tree, &self.order, self.order[k], b) {
                return Some(self.order[k]);
            }
            k += 1;
        }
        None
    }

    fn leader(&self, p: &Program, b: BasicBlock, key: &Key) -> (r: Option<Inst>)
        requires
            self.wf(),
        ensures
            r == leader_at(p@, self.nums@.by_inst, self.tree@, self.order@, b, key@, self.order@.len()),
    {
        let mut depth: usize = self.order.len();
        let mut at = b;
        while depth > 0
            invariant
                self.wf(),
                leader_at(p@, self.nums@.by_inst, self.tree@, self.order@, b, key@, self.order@.len()) == leader_at(
                    p@,
                    self.nums@.by_inst,
                    self.tree@,
                    self.order@,
                    at,
                    key@,
                    depth as nat,
                ),
            decreases depth,
        {
            let insts = p.block_insts(at);
            if let Some(i) = self.last_with(p, &insts, key) {
                return Some(i);
            }
            match self.parent(at) {
                Some(x) => {
                    at = x;
                },
                None => {
                    return None;
                },
            }
            depth -= 1;
        }
        None
    }

    fn home(&self, p: &Program, v: Inst) -> (r: Option<BasicBlock>)
        ensures
            r == home(p@, self.order@, v, 0),
    {
        let mut k: usize = 0;
        while k < self.order.len()
            invariant
                k <= self.order@.len(),
                home(p@, self.order@, v, 0) == home(p@, self.order@, v, k as int),
            decreases self.order@.len() - k,
        {
            let insts = p.block_insts(self.order[k]);
            if has_inst(&insts, v) {
                return Some(self.order[k]);
            }
            k += 1;
        }
        None
    }

    fn param_home(&self, p: &Program, v: Inst) -> (r: Option<BasicBlock>)
        ensures
            r == param_home(p@, self.order@, v, 0),
    {
        let mut k: usize = 0;
        while k < self.order.len()
            invariant
                k <= self.order@.len(),
                param_home(p@, self.order@, v, 0) == param_home(p@, self.order@, v, k as int),
            decreases self.order@.len() - k,
        {
            let params = p.block_params(self.order[k]);
            if has_inst(&params, v) {
                return Some(self.order[k]);
            }
            k += 1;
        }
        None
    }

    fn value_available_before(&self, p: &Program, f: Function, b: BasicBlock, t: Inst, v: Inst) -> (r: bool)
        requires
            self.wf(),
        ensures
            r == usable(p@, f, self.tree@, self.order@, b, t, v),
    {
        let params = p.params(f);
        if p.is_global(v) || has_inst(&params, v) || matches!(p.op(v), Op::Integer(_)) {
            return true;
        }
        match self.home(p, v) {
            Some(d) => {
                if d != b {
                    return self.tree.dominates(d, b);
                }
                match self.home(p, t) {
                    Some(h) => {
                        let here = p.block_insts(d);
                        let there = p.block_insts(h);
                        inst_position(&here, v) < inst_position(&there, t)
                    },
                    None => false,
                }
            },
            None => match self.param_home(p, v) {
                Some(d) => self.tree.dominates(d, b),
                None => false,
            },
        }
    }

    fn offer(&self, p: &Program, f: Function, b: BasicBlock, i: Inst, op: BinaryOp, e: Edge) -> (r: Option<Offer>)
        requires
            self.wf(),
        ensures
            r == offer(p@, f, self.nums@.by_inst, self.tree@, self.order@, b, i, op, e),
    {
        let lhs = match translated_operand(p, b, e, p.arg(i, 0)) {
            Some(x) => x,
            None => {
                return None;
            },
        };
        let rhs = match translated_operand(p, b, e, p.arg(i, 1)) {
            Some(x) => x,
            None => {
                return None;
            },
        };
        let key = match self.expr(p, op, lhs, rhs) {
            Some(k) => k,
            None => {
                return None;
            },
        };
        if !self.value_available_before(p, f, e.from, e.terminator, lhs) || !self.value_available_before(
            p,
            f,
            e.from,
            e.terminator,
            rhs,
        ) {
            return None;
        }
        let leader = match self.leader(p, e.from, &key) {
            Some(x) => if p.same_ty(x, i) && self.value_available_before(p, f, e.from, e.terminator, x) {
                Some(x)
            } else {
                None
            },
            None => None,
        };
        Some(Offer { lhs, rhs, leader })
    }

    fn offers(&self, p: &Program, f: Function, b: BasicBlock, i: Inst, op: BinaryOp, edges: &Vec<Edge>) -> (r: Option<
        Vec<Offer>,
    >)
        requires
            self.wf(),
        ensures
            match r {
                Some(v) => offers(
                    p@,
                    f,
                    self.nums@.by_inst,
                    self.tree@,
                    self.order@,
                    b,
                    i,
                    op,
                    edges@,
                    0,
                    Seq::empty(),
                ) == Some(v@),
                None => offers(
                    p@,
                    f,
                    self.nums@.by_inst,
                    self.tree@,
                    self.order@,
                    b,
                    i,
                    op,
                    edges@,
                    0,
                    Seq::empty(),
                ) is None,
            },
    {
        let mut list: Vec<Offer> = Vec::new();
        assert(list@ =~= Seq::empty());
        let mut k: usize = 0;
        while k < edges.len()
            invariant
                k <= edges@.len(),
                self.wf(),
                offers(p@, f, self.nums@.by_inst, self.tree@, self.order@, b, i, op, edges@, 0, Seq::empty()) == offers(
                    p@,
                    f,
                    self.nums@.by_inst,
                    self.tree@,
                    self.order@,
                    b,
                    i,
                    op,
                    edges@,
                    k as int,
                    list@,
                ),
            decreases edges@.len() - k,
        {
            match self.offer(p, f, b, i, op, edges[k]) {
                Some(o) => {
                    list.push(o);
                },
                None => {
                    return None;
                },
            }
            k += 1;
        }
        Some(list)
    }

    fn weigh(&self, p: &Program, f: Function, b: BasicBlock, i: Inst, edges: &Vec<Edge>) -> (r: Option<Vec<Offer>>)
        requires
            self.wf(),
        ensures
            match r {
                Some(v) => chosen(p@, f, self.nums@.by_inst, self.tree@, self.order@, b, i, edges@) == Some(v@),
                None => chosen(p@, f, self.nums@.by_inst, self.tree@, self.order@, b, i, edges@) is None,
            },
    {
        match p.op(i) {
            Op::Binary(op) => {
                if self.expr(p, op, p.arg(i, 0), p.arg(i, 1)).is_none() || !p.is_i32(i) {
                    return None;
                }
                match self.offers(p, f, b, i, op, edges) {
                    Some(list) => {
                        if is_worthwhile(&list) {
                            Some(list)
                        } else {
                            None
                        }
                    },
                    None => None,
                }
            },
            _ => None,
        }
    }

    fn find_in(&self, p: &Program, f: Function, b: BasicBlock, edges: &Vec<Edge>) -> (r: Option<(Inst, Vec<Offer>)>)
        requires
            self.wf(),
        ensures
            match r {
                Some((i, v)) => found_in(
                    p@,
                    f,
                    self.nums@.by_inst,
                    self.tree@,
                    self.order@,
                    b,
                    p@.block(b).insts,
                    edges@,
                    0,
                ) == Some((i, v@)),
                None => found_in(
                    p@,
                    f,
                    self.nums@.by_inst,
                    self.tree@,
                    self.order@,
                    b,
                    p@.block(b).insts,
                    edges@,
                    0,
                ) is None,
            },
    {
        let insts = p.block_insts(b);
        let mut k: usize = 0;
        while k < insts.len()
            invariant
                k <= insts@.len(),
                self.wf(),
                insts@ == p@.block(b).insts,
                found_in(p@, f, self.nums@.by_inst, self.tree@, self.order@, b, insts@, edges@, 0) == found_in(
                    p@,
                    f,
                    self.nums@.by_inst,
                    self.tree@,
                    self.order@,
                    b,
                    insts@,
                    edges@,
                    k as int,
                ),
            decreases insts@.len() - k,
        {
            if let Some(list) = self.weigh(p, f, b, insts[k], edges) {
                return Some((insts[k], list));
            }
            k += 1;
        }
        None
    }

    fn joins(&self, p: &Program, b: BasicBlock, edges: &Vec<Edge>) -> (r: bool)
        requires
            self.wf(),
        ensures
            r == is_join(p@, self.tree@, b, edges@),
    {
        if edges.len() < 2 {
            return false;
        }
        let mut k: usize = 0;
        while k < edges.len()
            invariant
                k <= edges@.len(),
                self.wf(),
                forall|j: int|
                    0 <= j < k ==> !self.tree@.dominates(b, (#[trigger] edges@[j]).from) && edge_fits(
                        p@,
                        b,
                        edges@[j],
                    ),
            decreases edges@.len() - k,
        {
            if self.tree.dominates(b, edges[k].from) || !GVNPRE::edge_is_valid(p, b, edges[k]) {
                assert(self.tree@.dominates(b, edges@[k as int].from) || !edge_fits(p@, b, edges@[k as int]));
                return false;
            }
            k += 1;
        }
        true
    }

    fn find(&self, p: &Program, f: Function) -> (r: Option<(BasicBlock, Inst, Vec<Offer>)>)
        requires
            self.wf(),
        ensures
            match r {
                Some((b, i, v)) => found_from(p@, f, self.nums@.by_inst, self.tree@, self.order@, 0) == Some((b, i, v@)),
                None => found_from(p@, f, self.nums@.by_inst, self.tree@, self.order@, 0) is None,
            },
    {
        let mut k: usize = 0;
        while k < self.order.len()
            invariant
                k <= self.order@.len(),
                self.wf(),
                found_from(p@, f, self.nums@.by_inst, self.tree@, self.order@, 0) == found_from(
                    p@,
                    f,
                    self.nums@.by_inst,
                    self.tree@,
                    self.order@,
                    k as int,
                ),
            decreases self.order@.len() - k,
        {
            let b = self.order[k];
            let edges = incoming_edges(p, &self.order, b);
            if self.joins(p, b, &edges) {
                if let Some((i, list)) = self.find_in(p, f, b, &edges) {
                    return Some((b, i, list));
                }
            }
            k += 1;
        }
        None
    }
}

fn translated_operand(p: &Program, b: BasicBlock, e: Edge, v: Inst) -> (r: Option<Inst>)
    ensures
        r == translated(p@, b, e, v),
{
    let params = p.block_params(b);
    let k = inst_position(&params, v);
    if k >= params.len() {
        return Some(v);
    }
    let args = e.args(p);
    if k < args.len() {
        Some(args[k])
    } else {
        None
    }
}

fn count_gaps(list: &Vec<Offer>) -> (r: usize)
    ensures
        r == gaps(list@, 0),
{
    let mut n: usize = 0;
    let mut k: usize = 0;
    while k < list.len()
        invariant
            k <= list@.len(),
            n <= k,
            gaps(list@, 0) == n + gaps(list@, k as int),
        decreases list@.len() - k,
    {
        if list[k].leader.is_none() {
            n += 1;
        }
        k += 1;
    }
    n
}

fn same_leader(a: Option<Inst>, b: Option<Inst>) -> (r: bool)
    ensures
        r == (a == b),
{
    match (a, b) {
        (Some(x), Some(y)) => x == y,
        (None, None) => true,
        _ => false,
    }
}

fn is_worthwhile(list: &Vec<Offer>) -> (r: bool)
    ensures
        r == worthwhile(list@),
{
    let n: usize = count_gaps(list);
    if n > 0 {
        return n == 1;
    }
    let mut k: usize = 0;
    while k < list.len()
        invariant
            k <= list@.len(),
            gaps(list@, 0) == 0,
            all_alike(list@, 0) == all_alike(list@, k as int),
        decreases list@.len() - k,
    {
        if !same_leader(list[k].leader, list[0].leader) {
            return true;
        }
        k += 1;
    }
    false
}

fn pass_values(p: &mut Program, edges: &Vec<Edge>, list: &Vec<Offer>, inserted: Inst, skip: Option<usize>)
    ensures
        final(p)@ == values_passed(
            old(p)@,
            edges@,
            list@,
            inserted,
            match skip {
                Some(s) => s as int,
                None => -1,
            },
            0,
        ),
{
    let ghost skipped: int = match skip {
        Some(s) => s as int,
        None => -1,
    };
    let mut k: usize = 0;
    while k < edges.len() && k < list.len()
        invariant
            k <= edges@.len(),
            k <= list@.len(),
            skipped == (match skip {
                Some(s) => s as int,
                None => -1,
            }),
            values_passed(old(p)@, edges@, list@, inserted, skipped, 0) == values_passed(
                p@,
                edges@,
                list@,
                inserted,
                skipped,
                k as int,
            ),
        decreases edges@.len() - k,
    {
        let left_out = match skip {
            Some(s) => s == k,
            None => false,
        };
        if !left_out {
            let v = match list[k].leader {
                Some(x) => x,
                None => inserted,
            };
            edges[k].append_arg(p, v);
        }
        k += 1;
    }
}

fn replace_by_param(p: &mut Program, b: BasicBlock, i: Inst)
    ensures
        final(p)@ == replaced_by_param(old(p)@, b, i),
{
    let ty = p.ty(i);
    let param = p.add_param(b, ty);
    p.replace_uses(i, param);
    p.remove_layout_inst(b, i);
}

impl GVNPRE {
    /// Whether edge `e` to `b` passes as many values as `b` has parameters, of the same types.
    pub fn edge_is_valid(data: &Program, b: BasicBlock, e: Edge) -> (r: bool)
        ensures
            r == edge_fits(data@, b, e),
    {
        let args = e.args(data);
        let params = data.block_params(b);
        if args.len() != params.len() {
            return false;
        }
        let mut k: usize = 0;
        while k < args.len()
            invariant
                k <= args@.len(),
                args@ == edge_args(data@, e),
                params@ == data@.block(b).params,
                args@.len() == params@.len(),
                forall|j: int| 0 <= j < k ==> #[trigger] data@.ty(args@[j]) == data@.ty(params@[j]),
            decreases args@.len() - k,
        {
            if !data.same_ty(args[k], params[k]) {
                assert(data@.ty(args@[k as int]) != data@.ty(params@[k as int]));
                return false;
            }
            k += 1;
        }
        true
    }

    /// Replaces computation `i` of `b` by a parameter that every edge supplies with its value.
    pub fn apply(data: &mut Program, b: BasicBlock, i: Inst, edges: &Vec<Edge>, list: &Vec<Offer>)
        ensures
            final(data)@ == applied(old(data)@, b, i, edges@, list@),
    {
        pass_values(data, edges, list, i, None);
        replace_by_param(data, b, i);
    }

    /// Replaces computation `i` of `b` by a parameter; edge `gap` gets its value from a new
    /// computation.
    pub fn apply_insertion(
        data: &mut Program,
        f: Function,
        b: BasicBlock,
        i: Inst,
        edges: &Vec<Edge>,
        list: &Vec<Offer>,
        gap: usize,
        op: BinaryOp,
    )
        requires
            gap < edges@.len(),
            gap < list@.len(),
        ensures
            final(data)@ == applied_with_insertion(old(data)@, f, b, i, edges@, list@, gap as int, op),
    {
        let e = edges[gap];
        let inserted = data.binary(op, list[gap].lhs, list[gap].rhs);
        match e.arm {
            EdgeArm::Jump => {
                data.insert_inst_before(e.from, e.terminator, inserted);
                pass_values(data, edges, list, inserted, None);
            },
            _ => {
                let mut passed = e.args(data);
                let none: Vec<Type> = Vec::new();
                assert(none@ =~= Seq::empty());
                let split = data.basic_block("gvn_pre_split".to_string(), none);
                data.push_bb_back(f, split);
                data.insert_inst(split, inserted);
                let no_args: Vec<Inst> = Vec::new();
                assert(no_args@ =~= Seq::empty());
                e.retarget(data, split, no_args);
                passed.push(inserted);
                let jump = data.jump(b, passed);
                data.insert_inst(split, jump);
                pass_values(data, edges, list, inserted, Some(gap));
            },
        }
        replace_by_param(data, b, i);
    }

    /// Makes one replacement in every function where one is worth it. True when anything changed.
    pub fn run(&mut self, program: &mut Program) -> (changed: bool)
        ensures
            (final(program)@, changed) == all_joined(old(program)@, old(program)@.layout, 0, false),
    {
        let layout = program.function_layout();
        let mut changed = false;
        let mut k: usize = 0;
        while k < layout.len()
            invariant
                k <= layout@.len(),
                all_joined(old(program)@, layout@, 0, false) == all_joined(program@, layout@, k as int, changed),
            decreases layout@.len() - k,
        {
            let here = self.run_on(program, layout[k]);
            changed = changed || here;
            k += 1;
        }
        changed
    }

    /// Replaces one computation in a join block of `f` that is already done on all ways into the block,
    /// or on all but one. True when there was such a computation.
    pub fn run_on(&mut self, data: &mut Program, f: Function) -> (changed: bool)
        ensures
            (final(data)@, changed) == joined_once(old(data)@, f),
    {
        let tree = match DomTree::new(data, f) {
            None => {
                return false;
            },
            Some(t) => t,
        };
        let order = rpo_path(data, f);
        let n: usize = data.num_insts();
        let mut all: Vec<Inst> = Vec::new();
        assert(all@ =~= Seq::empty());
        let mut k: usize = 0;
        while k < n
            invariant
                k <= n,
                n == data@.insts.len(),
                insts_from(data@, 0, Seq::empty()) == insts_from(data@, k as int, all@),
            decreases n - k,
        {
            all.push(Inst(k));
            k += 1;
        }
        let mut nums = Numbers::new();
        let scope = Scope { strict: true };
        nums.number_all(data, &scope, &all, n);
        let cx = Context { nums, tree, order };
        match cx.find(data, f) {
            None => false,
            Some((b, i, list)) => {
                proof {
                    lemma_found(data@, f, cx.nums@.by_inst, cx.tree@, cx.order@, 0);
                    lemma_first_gap(list@, 0);
                }
                let edges = incoming_edges(data, &cx.order, b);
                if count_gaps(&list) == 0 {
                    Self::apply(data, b, i, &edges, &list);
                } else {
                    let op = match data.op(i) {
                        Op::Binary(op) => op,
                        _ => BinaryOp::Add,
                    };
                    let mut gap: usize = 0;
                    while gap < list.len() && list[gap].leader.is_some()
                        invariant
                            gap <= list@.len(),
                            first_gap(list@, 0) == first_gap(list@, gap as int),
                        decreases list@.len() - gap,
                    {
                        gap += 1;
                    }
                    Self::apply_insertion(data, f, b, i, &edges, &list, gap, op);
                }
                true
            },
        }
    }
}

proof fn lemma_offers_len(
    p: ProgramV,
    f: Function,
    nums: Map<usize, usize>,
    tree: TreeV,
    order: Seq<BasicBlock>,
    b: BasicBlock,
    i: Inst,
    op: BinaryOp,
    edges: Seq<Edge>,
    from: int,
    found: Seq<Offer>,
)
    requires
        0 <= from <= edges.len(),
        found.len() == from,
    ensures
        match offers(p, f, nums, tree, order, b, i, op, edges, from, found) {
            Some(list) => list.len() == edges.len(),
            None => true,
        },
    decreases edges.len() - from,
{
    if from < edges.len() {
        match offer(p, f, nums, tree, order, b, i, op, edges[from]) {
            Some(o) => {
                lemma_offers_len(p, f, nums, tree, order, b, i, op, edges, from + 1, found.push(o));
            },
            None => {},
        }
    }
}

proof fn lemma_found_in(
    p: ProgramV,
    f: Function,
    nums: Map<usize, usize>,
    tree: TreeV,
    order: Seq<BasicBlock>,
    b: BasicBlock,
    insts: Seq<Inst>,
    edges: Seq<Edge>,
    from: int,
)
    ensures
        match found_in(p, f, nums, tree, order, b, insts, edges, from) {
            Some((i, list)) => p.op(i) is Binary && list.len() == edges.len() && worthwhile(list),
            None => true,
        },
    decreases insts.len() - from,
{
    if from < insts.len() {
        let i = insts[from];
        match p.op(i) {
            Op::Binary(op) => {
                lemma_offers_len(p, f, nums, tree, order, b, i, op, edges, 0, Seq::empty());
            },
            _ => {},
        }
        lemma_found_in(p, f, nums, tree, order, b, insts, edges, from + 1);
    }
}

proof fn lemma_found(p: ProgramV, f: Function, nums: Map<usize, usize>, tree: TreeV, order: Seq<BasicBlock>, from: int)
    ensures
        match found_from(p, f, nums, tree, order, from) {
            Some((b, i, list)) => p.op(i) is Binary && list.len() == incoming(p, order, b).len() && worthwhile(list),
            None => true,
        },
    decreases order.len() - from,
{
    if from < order.len() {
        let b = order[from];
        let edges = incoming(p, order, b);
        lemma_found_in(p, f, nums, tree, order, b, p.block(b).insts, edges, 0);
        lemma_found(p, f, nums, tree, order, from + 1);
    }
}

proof fn lemma_first_gap(list: Seq<Offer>, from: int)
    requires
        0 <= from <= list.len(),
    ensures
        from <= first_gap(list, from) <= list.len(),
        gaps(list, from) > 0 ==> first_gap(list, from) < list.len(),
    decreases list.len() - from,
{
    if from < list.len() && list[from].leader is Some {
        lemma_first_gap(list, from + 1);
    }
}

} // verus!
