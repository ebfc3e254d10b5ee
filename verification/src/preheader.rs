//! Blocks of their own before loops.

use vstd::prelude::*;

use crate::edges::{edge_args, incoming, incoming_edges, redirected, Edge, EdgeArm};
use crate::ir::{BasicBlock, Function, Op, ProgramV, Type};
use crate::loops::{Loop, LoopV};
use crate::names::concat3;
use crate::program::Program;

verus! {

/// The block before a loop: one that was there, or a new one.
#[derive(Clone, Copy, Debug, PartialEq, Eq, Structural)]
pub enum EnsurePreheader {
    Existing(BasicBlock),
    Created(BasicBlock),
}

/// Those of `edges[from..]` that come from outside the loop, behind `found`.
pub open spec fn entering_from(l: LoopV, edges: Seq<Edge>, from: int, found: Seq<Edge>) -> Seq<Edge>
    decreases edges.len() - from,
{
    if from >= edges.len() {
        found
    } else if l.body.contains(edges[from].from) {
        entering_from(l, edges, from + 1, found)
    } else {
        entering_from(l, edges, from + 1, found.push(edges[from]))
    }
}

/// The types of the parameters of `b`.
pub open spec fn param_types(p: ProgramV, b: BasicBlock) -> Seq<Type> {
    Seq::new(p.block(b).params.len(), |k: int| p.ty(p.block(b).params[k]))
}

/// The edges `edges[from..]` made to lead to `b`.
pub open spec fn all_redirected(p: ProgramV, edges: Seq<Edge>, b: BasicBlock, from: int) -> ProgramV
    decreases edges.len() - from,
{
    if from >= edges.len() {
        p
    } else {
        all_redirected(redirected(p, edges[from], b, edge_args(p, edges[from])), edges, b, from + 1)
    }
}

/// The loop given a block of its own before it, where it has none.
pub open spec fn with_preheader(p: ProgramV, f: Function, order: Seq<BasicBlock>, l: LoopV) -> Option<
    (ProgramV, EnsurePreheader),
> {
    let ways = entering_from(l, incoming(p, order, l.header), 0, Seq::empty());
    if ways.len() == 0 {
        None
    } else if ways.len() == 1 && ways[0].arm is Jump {
        Some((p, EnsurePreheader::Existing(ways[0].from)))
    } else {
        let b = p.next_block();
        let q = p.basic_block(p.block(l.header).name + "_preheader"@ + ""@, param_types(p, l.header)).insert_bb_after(
            f,
            ways[0].from,
            b,
        );
        let r = q.push_inst(Op::Jump(l.header), q.block(b).params, Type::Unit, false).append(b, q.next_inst());
        Some((all_redirected(r, ways, b, 0), EnsurePreheader::Created(b)))
    }
}

/// The types of the parameters of `b`.
pub fn block_param_types(p: &Program, b: BasicBlock) -> (r: Vec<Type>)
    ensures
        r@ == param_types(p@, b),
{
    let params = p.block_params(b);
    let mut r: Vec<Type> = Vec::new();
    let mut k: usize = 0;
    while k < params.len()
        invariant
            k <= params@.len(),
            params@ == p@.block(b).params,
            r@.len() == k,
            forall|j: int| 0 <= j < k ==> r@[j] == p@.ty(params@[j]),
        decreases params@.len() - k,
    {
        r.push(p.ty(params[k]));
        k += 1;
    }
    assert(r@ =~= param_types(p@, b));
    r
}

/// Gives the loop a block of its own before it, where it has none. `None` where nothing leads into the
/// loop from outside.
pub fn ensure_preheader(data: &mut Program, f: Function, order: &Vec<BasicBlock>, looop: &Loop) -> (r: Option<EnsurePreheader>)
    ensures
        match with_preheader(old(data)@, f, order@, looop@) {
            Some((q, e)) => final(data)@ == q && r == Some(e),
            None => final(data)@ == old(data)@ && r is None,
        },
{
    let edges = incoming_edges(data, order, looop.header);
    let mut ways: Vec<Edge> = Vec::new();
    assert(ways@ =~= Seq::empty());
    let mut k: usize = 0;
    while k < edges.len()
        invariant
            k <= edges@.len(),
            data@ == old(data)@,
            edges@ == incoming(data@, order@, looop@.header),
            entering_from(looop@, edges@, 0, Seq::empty()) == entering_from(looop@, edges@, k as int, ways@),
        decreases edges@.len() - k,
    {
        if !looop.contains(edges[k].from) {
            ways.push(edges[k]);
        }
        k += 1;
    }
    if ways.len() == 0 {
        return None;
    }
    if ways.len() == 1 && ways[0].arm == EdgeArm::Jump {
        return Some(EnsurePreheader::Existing(ways[0].from));
    }
    let name = concat3(data.block_name(looop.header).as_str(), "_preheader", "");
    let tys = block_param_types(data, looop.header);
    let b = data.basic_block(name, tys);
    data.insert_bb_after(f, ways[0].from, b);
    let params = data.block_params(b);
    let jump = data.jump(looop.header, params);
    data.insert_inst(b, jump);
    let ghost start = data@;
    let mut k: usize = 0;
    while k < ways.len()
        invariant
            k <= ways@.len(),
            all_redirected(start, ways@, b, 0) == all_redirected(data@, ways@, b, k as int),
        decreases ways@.len() - k,
    {
        let args = ways[k].args(data);
        ways[k].retarget(data, b, args);
        k += 1;
    }
    Some(EnsurePreheader::Created(b))
}

} // verus!
