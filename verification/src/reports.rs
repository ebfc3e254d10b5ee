//! What a pass that reports no change leaves: the program as it was.

use vstd::prelude::*;

use crate::blocked_reduction::{first_blocked, lanes_everywhere, with_lanes};
use crate::boolean_simplify::{all_simplified, functions_simplified};
use crate::cfg::{entry_of, reverse_postorder, tree_of, TreeV};
use crate::chain_to_switch::{chain_converted, chains_converted, chains_converted_everywhere};
use crate::column_major::{all_exchanged, candidates_of, worthy_from};
use crate::dce::{
    all_phis_cleaned, all_swept, forwarded, islands_removed, islands_removed_everywhere, phis_cleaned, sifted,
    sifting_is_filtering, swept, unused_dropped,
};
use crate::dse::{all_stores_cleaned, dead_removed, stores_cleaned};
use crate::guard_elimination::{all_guards_folded, guards_folded};
use crate::gvn::{all_reduced, all_seen, all_walked, reduced, seen, walked, AddedV, PlanV, WalkV};
use crate::gvn_pre::{all_joined, joined_once};
use crate::if_conversion::{all_converted, candidate_at, converted_everywhere};
use crate::inline::all_inlined;
use crate::invariant_reduction_hoisting::{first_hoisted, hoisting_everywhere, with_hoisting};
use crate::ir::{BasicBlock, Function, Inst, ProgramV};
use crate::loops::{loops_of, LoopV};

verus! {

proof fn lemma_simplified(p: ProgramV, f: Function, rounds: nat, changed: bool)
    ensures
        changed ==> all_simplified(p, f, rounds, changed).1,
        !all_simplified(p, f, rounds, changed).1 ==> all_simplified(p, f, rounds, changed).0 == p,
    decreases rounds,
{
    if rounds > 0 {
        if let Some(q) = crate::boolean_simplify::one_simplified(p, f, p.placed(f), 0) {
            lemma_simplified(q, f, (rounds - 1) as nat, true);
        }
    }
}

/// Boolean simplification that reports no change has made none.
pub proof fn simplification_reports_changes(p: ProgramV, layout: Seq<Function>, from: int, changed: bool)
    requires
        !functions_simplified(p, layout, from, changed).1,
    ensures
        !changed,
        functions_simplified(p, layout, from, changed).0 == p,
    decreases layout.len() - from,
{
    if from < layout.len() {
        let (q, here) = all_simplified(p, layout[from], usize::MAX as nat, false);
        lemma_simplified(p, layout[from], usize::MAX as nat, false);
        simplification_reports_changes(q, layout, from + 1, changed || here);
    }
}

proof fn lemma_chains(p: ProgramV, f: Function, heads: Seq<BasicBlock>, from: int, changed: bool)
    ensures
        changed ==> chains_converted(p, f, heads, from, changed).1,
        !chains_converted(p, f, heads, from, changed).1 ==> chains_converted(p, f, heads, from, changed).0 == p,
    decreases heads.len() - from,
{
    if from < heads.len() {
        if !p.func(f).blocks.contains(heads[from]) {
            lemma_chains(p, f, heads, from + 1, changed);
        } else {
            match chain_converted(p, f, heads[from]) {
                Some(q) => lemma_chains(q, f, heads, from + 1, true),
                None => lemma_chains(p, f, heads, from + 1, changed),
            }
        }
    }
}

/// Chain conversion that reports no change has made none.
pub proof fn chain_conversion_reports_changes(p: ProgramV, layout: Seq<Function>, from: int, changed: bool)
    requires
        !chains_converted_everywhere(p, layout, from, changed).1,
    ensures
        !changed,
        chains_converted_everywhere(p, layout, from, changed).0 == p,
    decreases layout.len() - from,
{
    if from < layout.len() {
        let blocks = p.func(layout[from]).blocks;
        let (q, here) = chains_converted(p, layout[from], blocks, 0, false);
        lemma_chains(p, layout[from], blocks, 0, false);
        chain_conversion_reports_changes(q, layout, from + 1, changed || here);
    }
}

proof fn lemma_conversions(p: ProgramV, f: Function, t: TreeV, heads: Seq<BasicBlock>, from: int, changed: bool)
    ensures
        changed ==> all_converted(p, f, t, heads, from, changed).1,
        !all_converted(p, f, t, heads, from, changed).1 ==> all_converted(p, f, t, heads, from, changed).0 == p,
    decreases heads.len() - from,
{
    if from < heads.len() {
        if !p.func(f).blocks.contains(heads[from]) {
            lemma_conversions(p, f, t, heads, from + 1, changed);
        } else {
            match candidate_at(p, f, t, heads[from]) {
                Some(c) => lemma_conversions(crate::if_conversion::converted(p, f, c), f, t, heads, from + 1, true),
                None => lemma_conversions(p, f, t, heads, from + 1, changed),
            }
        }
    }
}

/// If-conversion that reports no change has made none.
pub proof fn if_conversion_reports_changes(p: ProgramV, layout: Seq<Function>, from: int, changed: bool)
    requires
        !converted_everywhere(p, layout, from, changed).1,
    ensures
        !changed,
        converted_everywhere(p, layout, from, changed).0 == p,
    decreases layout.len() - from,
{
    if from < layout.len() {
        let f = layout[from];
        if entry_of(p, f) is None {
            if_conversion_reports_changes(p, layout, from + 1, changed);
        } else {
            let (q, here) = all_converted(p, f, tree_of(p, f), p.func(f).blocks, 0, false);
            lemma_conversions(p, f, tree_of(p, f), p.func(f).blocks, 0, false);
            if_conversion_reports_changes(q, layout, from + 1, changed || here);
        }
    }
}

proof fn lemma_blocked(p: ProgramV, f: Function, tree: TreeV, order: Seq<BasicBlock>, loops: Seq<LoopV>, from: int)
    ensures
        !first_blocked(p, f, tree, order, loops, from).1 ==> first_blocked(p, f, tree, order, loops, from).0 == p,
    decreases loops.len() - from,
{
    if from < loops.len() {
        lemma_blocked(p, f, tree, order, loops, from + 1);
    }
}

/// Blocking reductions that reports no change has made none.
pub proof fn blocking_reports_changes(p: ProgramV, layout: Seq<Function>, from: int, changed: bool)
    requires
        !lanes_everywhere(p, layout, from, changed).1,
    ensures
        !changed,
        lanes_everywhere(p, layout, from, changed).0 == p,
    decreases layout.len() - from,
{
    if from < layout.len() {
        let (q, here) = with_lanes(p, layout[from]);
        let order = reverse_postorder(p, layout[from]);
        let tree = tree_of(p, layout[from]);
        lemma_blocked(p, layout[from], tree, order, loops_of(tree, order), 0);
        blocking_reports_changes(q, layout, from + 1, changed || here);
    }
}

proof fn lemma_hoisted(p: ProgramV, f: Function, order: Seq<BasicBlock>, loops: Seq<LoopV>, from: int)
    ensures
        !first_hoisted(p, f, order, loops, from).1 ==> first_hoisted(p, f, order, loops, from).0 == p,
    decreases loops.len() - from,
{
    if from < loops.len() {
        lemma_hoisted(p, f, order, loops, from + 1);
    }
}

/// Hoisting of reductions that reports no change has made none.
pub proof fn hoisting_reports_changes(p: ProgramV, layout: Seq<Function>, from: int, changed: bool)
    requires
        !hoisting_everywhere(p, layout, from, changed).1,
    ensures
        !changed,
        hoisting_everywhere(p, layout, from, changed).0 == p,
    decreases layout.len() - from,
{
    if from < layout.len() {
        let (q, here) = with_hoisting(p, layout[from]);
        let order = reverse_postorder(p, layout[from]);
        lemma_hoisted(p, layout[from], order, loops_of(tree_of(p, layout[from]), order), 0);
        hoisting_reports_changes(q, layout, from + 1, changed || here);
    }
}

/// Exchanging matrix layouts that reports no change has made none.
pub proof fn exchange_reports_changes(p: ProgramV)
    requires
        worthy_from(p, candidates_of(p), 0, Seq::empty()).len() == 0,
    ensures
        all_exchanged(p, worthy_from(p, candidates_of(p), 0, Seq::empty()), 0) == p,
{
}

proof fn lemma_all_kept(p: ProgramV, f: Function, removable: Seq<Inst>, insts: Seq<Inst>)
    requires
        sifted(p, f, removable, insts, false, 0, Seq::empty()).len() == 0,
    ensures
        sifted(p, f, removable, insts, true, 0, Seq::empty()) == insts,
{
    sifting_is_filtering(p, f, removable, insts, false);
    sifting_is_filtering(p, f, removable, insts, true);
    let dead = |i: Inst| crate::dce::live(p, f, removable, i) == false;
    let kept = |i: Inst| crate::dce::live(p, f, removable, i) == true;
    lemma_none_filtered(insts, dead, kept);
}

proof fn lemma_none_filtered(insts: Seq<Inst>, dead: spec_fn(Inst) -> bool, kept: spec_fn(Inst) -> bool)
    requires
        forall|i: Inst| #[trigger] kept(i) == !dead(i),
        insts.filter(dead).len() == 0,
    ensures
        insts.filter(kept) == insts,
    decreases insts.len(),
{
    reveal(Seq::filter);
    if insts.len() > 0 {
        lemma_none_filtered(insts.drop_last(), dead, kept);
        assert(insts.drop_last().push(insts.last()) =~= insts);
    }
}

proof fn lemma_same_insts(p: ProgramV, b: BasicBlock)
    ensures
        p.set_block_insts(b, p.block(b).insts) == p,
{
    reveal(ProgramV::set_block_insts);
    if b.0 < p.blocks.len() {
        assert(p.blocks.update(b.0 as int, crate::ir::BlockV { insts: p.block(b).insts, ..p.blocks[b.0 as int] }) =~= p.blocks);
    }
}

proof fn lemma_swept(p: ProgramV, q: ProgramV, f: Function, removable: Seq<Inst>, blocks: Seq<BasicBlock>, from: int, changed: bool)
    ensures
        changed ==> swept(p, q, f, removable, blocks, from, changed).1,
        !swept(p, q, f, removable, blocks, from, changed).1 ==> swept(p, q, f, removable, blocks, from, changed).0 == q,
    decreases blocks.len() - from,
{
    if from < blocks.len() {
        let insts = q.block(blocks[from]).insts;
        let kept = sifted(p, f, removable, insts, true, 0, Seq::empty());
        let dead = sifted(p, f, removable, insts, false, 0, Seq::empty());
        let next = q.set_block_insts(blocks[from], kept).erase_all(dead, 0);
        lemma_swept(p, next, f, removable, blocks, from + 1, changed || dead.len() > 0);
        if dead.len() == 0 {
            lemma_all_kept(p, f, removable, insts);
            lemma_same_insts(q, blocks[from]);
        }
    }
}

/// Dead code elimination that reports no change has made none.
pub proof fn dead_code_elimination_reports_changes(
    a: ProgramV,
    p: ProgramV,
    layout: Seq<Function>,
    from: int,
    changed: bool,
)
    requires
        !all_swept(a, p, layout, from, changed).1,
    ensures
        !changed,
        all_swept(a, p, layout, from, changed).0 == p,
    decreases layout.len() - from,
{
    if from < layout.len() {
        let f = layout[from];
        let calls = crate::dce::removable_calls_in(a, a.placed(f), 0, Seq::empty());
        let (q, here) = swept(p, p, f, calls, p.func(f).blocks, 0, false);
        lemma_swept(p, p, f, calls, p.func(f).blocks, 0, false);
        dead_code_elimination_reports_changes(a, q, layout, from + 1, changed || here);
    }
}

proof fn lemma_unused(p: ProgramV, q: ProgramV, f: Function, blocks: Seq<BasicBlock>, from: int, changed: bool)
    ensures
        changed ==> unused_dropped(p, q, f, blocks, from, changed).1,
        !unused_dropped(p, q, f, blocks, from, changed).1 ==> unused_dropped(p, q, f, blocks, from, changed).0 == q,
    decreases blocks.len() - from,
{
    if from < blocks.len() {
        let drop = if from == 0 {
            Seq::empty()
        } else {
            crate::dce::unused_from(p, p.block(blocks[from]).params, 0, Seq::empty())
        };
        if drop.contains(true) {
            lemma_unused(p, crate::dce::params_dropped(q, f, blocks[from], drop), f, blocks, from + 1, true);
        } else {
            lemma_unused(p, q, f, blocks, from + 1, changed);
        }
    }
}

/// Dead parameter elimination that reports no change has made none.
pub proof fn dead_phi_elimination_reports_changes(p: ProgramV, layout: Seq<Function>, from: int, changed: bool)
    requires
        !all_phis_cleaned(p, layout, from, changed).1,
    ensures
        !changed,
        all_phis_cleaned(p, layout, from, changed).0 == p,
    decreases layout.len() - from,
{
    if from < layout.len() {
        let f = layout[from];
        let (r, here) = phis_cleaned(p, f);
        let pairs = forwarded(p, f);
        let q = crate::dce::forwards_applied(p, pairs, 0);
        lemma_unused(q, q, f, q.func(f).blocks, 0, pairs.len() > 0);
        dead_phi_elimination_reports_changes(r, layout, from + 1, changed || here);
    }
}

proof fn lemma_islands(p: ProgramV, f: Function, rounds: nat, changed: bool)
    ensures
        changed ==> islands_removed(p, f, rounds, changed).1,
        !islands_removed(p, f, rounds, changed).1 ==> islands_removed(p, f, rounds, changed).0 == p,
    decreases rounds,
{
    let islands = crate::dce::islands_from(p, f, p.func(f).blocks, 0, Seq::empty());
    if rounds > 0 && islands.len() > 0 {
        lemma_islands(crate::dce::blocks_removed(p, f, islands, 0), f, (rounds - 1) as nat, true);
    }
}

/// Removal of unreached blocks that reports no change has made none.
pub proof fn block_removal_reports_changes(p: ProgramV, layout: Seq<Function>, from: int, changed: bool)
    requires
        !islands_removed_everywhere(p, layout, from, changed).1,
    ensures
        !changed,
        islands_removed_everywhere(p, layout, from, changed).0 == p,
    decreases layout.len() - from,
{
    if from < layout.len() {
        let f = layout[from];
        if entry_of(p, f) is None {
            block_removal_reports_changes(p, layout, from + 1, changed);
        } else {
            let (q, here) = islands_removed(p, f, p.func(f).blocks.len(), false);
            lemma_islands(p, f, p.func(f).blocks.len(), false);
            block_removal_reports_changes(q, layout, from + 1, changed || here);
        }
    }
}

proof fn lemma_dead_removed(p: ProgramV, f: Function, dead: Seq<Inst>, from: int, changed: bool)
    ensures
        changed ==> dead_removed(p, f, dead, from, changed).1,
        !dead_removed(p, f, dead, from, changed).1 ==> dead_removed(p, f, dead, from, changed).0 == p,
    decreases dead.len() - from,
{
    if from < dead.len() {
        match p.parent_bb(f, dead[from]) {
            Some(b) => lemma_dead_removed(p.remove(b, dead[from]), f, dead, from + 1, true),
            None => lemma_dead_removed(p, f, dead, from + 1, changed),
        }
    }
}

/// Dead store elimination that reports no change has made none.
pub proof fn dead_store_elimination_reports_changes(p: ProgramV, layout: Seq<Function>, from: int, changed: bool)
    requires
        !all_stores_cleaned(p, layout, from, changed).1,
    ensures
        !changed,
        all_stores_cleaned(p, layout, from, changed).0 == p,
    decreases layout.len() - from,
{
    if from < layout.len() {
        let f = layout[from];
        if p.func(f).blocks.len() == 0 {
            dead_store_elimination_reports_changes(p, layout, from + 1, changed);
        } else {
            let (q, here) = stores_cleaned(p, f);
            let writebacks = crate::dse::writebacks_from(p, f, p.placed(f), 0, Seq::empty());
            let found = crate::dse::scanned_blocks(p, f, crate::dse::nothing_found(), p.func(f).blocks, 0);
            lemma_dead_removed(
                crate::dse::forwards_made(p, found.forwards, 0),
                f,
                writebacks + found.covered + found.dead,
                0,
                found.forwards.len() > 0,
            );
            dead_store_elimination_reports_changes(q, layout, from + 1, changed || here);
        }
    }
}

proof fn lemma_guards(p: ProgramV, marks: Seq<bool>, blocks: Seq<BasicBlock>, from: int, changed: bool)
    ensures
        changed ==> guards_folded(p, marks, blocks, from, changed).1,
        !guards_folded(p, marks, blocks, from, changed).1 ==> guards_folded(p, marks, blocks, from, changed).0 == p,
    decreases blocks.len() - from,
{
    if from < blocks.len() {
        let t = p.terminator(blocks[from]);
        let q = p.set_inst(t, crate::ir::Op::Jump(p.op(t)->Branch_1), p.f_args(t), crate::ir::Type::Unit);
        lemma_guards(q, marks, blocks, from + 1, true);
        lemma_guards(p, marks, blocks, from + 1, changed);
    }
}

/// Guard elimination that reports no change has made none.
pub proof fn guard_elimination_reports_changes(
    p: ProgramV,
    marks: Seq<bool>,
    layout: Seq<Function>,
    from: int,
    changed: bool,
)
    requires
        !all_guards_folded(p, marks, layout, from, changed).1,
    ensures
        !changed,
        all_guards_folded(p, marks, layout, from, changed).0 == p,
    decreases layout.len() - from,
{
    if from < layout.len() {
        let (q, here) = guards_folded(p, marks, p.func(layout[from]).blocks, 0, changed);
        lemma_guards(p, marks, p.func(layout[from]).blocks, 0, changed);
        guard_elimination_reports_changes(q, marks, layout, from + 1, here);
    }
}

proof fn lemma_all_seen(a: ProgramV, p: ProgramV, plan: PlanV, st: WalkV, values: Seq<Inst>, from: int, added: AddedV)
    ensures
        ({
            let (q, next, _) = all_seen(a, p, plan, st, values, from, added);
            &&& st.changed ==> next.changed
            &&& !next.changed ==> q == p
        }),
    decreases values.len() - from,
{
    if from < values.len() {
        let (q, next, more) = seen(a, p, plan, st, values[from], added);
        lemma_all_seen(a, q, plan, next, values, from + 1, more);
    }
}

proof fn lemma_walked(
    a: ProgramV,
    p: ProgramV,
    plan: PlanV,
    tree: TreeV,
    order: Seq<BasicBlock>,
    st: WalkV,
    b: BasicBlock,
    depth: nat,
)
    ensures
        ({
            let (q, next) = walked(a, p, plan, tree, order, st, b, depth);
            &&& st.changed ==> next.changed
            &&& !next.changed ==> q == p
        }),
    decreases depth, 0int, 0int,
{
    if depth > 0 {
        let start = crate::gvn::header_seen(a, tree, plan.way, st, b);
        let values = p.block(b).params + p.block(b).insts;
        let (q, next, added) = all_seen(a, p, plan, start, values, 0, crate::gvn::nothing_added());
        lemma_all_seen(a, p, plan, start, values, 0, crate::gvn::nothing_added());
        let children = crate::gvn::children_from(tree, order, b, 0, Seq::empty());
        lemma_all_walked(a, q, plan, tree, order, next, children, 0, (depth - 1) as nat);
    }
}

proof fn lemma_all_walked(
    a: ProgramV,
    p: ProgramV,
    plan: PlanV,
    tree: TreeV,
    order: Seq<BasicBlock>,
    st: WalkV,
    blocks: Seq<BasicBlock>,
    from: int,
    depth: nat,
)
    ensures
        ({
            let (q, next) = all_walked(a, p, plan, tree, order, st, blocks, from, depth);
            &&& st.changed ==> next.changed
            &&& !next.changed ==> q == p
        }),
    decreases depth, 1int, blocks.len() - from,
{
    if from < blocks.len() {
        let (q, next) = walked(a, p, plan, tree, order, st, blocks[from], depth);
        lemma_walked(a, p, plan, tree, order, st, blocks[from], depth);
        lemma_all_walked(a, q, plan, tree, order, next, blocks, from + 1, depth);
    }
}

/// Value numbering that reports no change has made none.
pub proof fn numbering_reports_changes(p: ProgramV, layout: Seq<Function>, from: int, changed: bool)
    requires
        !all_reduced(p, layout, from, changed).1,
    ensures
        !changed,
        all_reduced(p, layout, from, changed).0 == p,
    decreases layout.len() - from,
{
    if from < layout.len() {
        let f = layout[from];
        let (q, here) = reduced(p, f);
        if let Some(entry) = entry_of(p, f) {
            let order = reverse_postorder(p, f);
            lemma_walked(p, p, crate::gvn::plan_of(p, f), tree_of(p, f), order, crate::gvn::fresh_walk(), entry, order.len());
        }
        numbering_reports_changes(q, layout, from + 1, changed || here);
    }
}

/// Elimination of partial redundancies that reports no change has made none.
pub proof fn redundancy_elimination_reports_changes(p: ProgramV, layout: Seq<Function>, from: int, changed: bool)
    requires
        !all_joined(p, layout, from, changed).1,
    ensures
        !changed,
        all_joined(p, layout, from, changed).0 == p,
    decreases layout.len() - from,
{
    if from < layout.len() {
        let (q, here) = joined_once(p, layout[from]);
        redundancy_elimination_reports_changes(q, layout, from + 1, changed || here);
    }
}

/// Inlining that reports no change has made none.
pub proof fn inlining_reports_changes(p: ProgramV, rounds: nat, changed: bool)
    ensures
        changed ==> all_inlined(p, rounds, changed).1,
        !all_inlined(p, rounds, changed).1 ==> all_inlined(p, rounds, changed).0 == p,
    decreases rounds,
{
    if rounds > 0 {
        if let Some(s) = crate::inline::site_from(p, p.layout, 0) {
            inlining_reports_changes(crate::inline::inlined(p, s), (rounds - 1) as nat, true);
        }
    }
}

} // verus!
