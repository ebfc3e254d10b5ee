//! Block parameters that were removed, as the program that comes out says it.

use vstd::prelude::*;

use crate::cfg::entry_of;
use crate::dce::{
    all_trimmed, chain_end, dropping_keeps_alignment, forwarded, forwarded_from, forwarded_in, forwarded_value, forwards_applied,
    looked_up, masked, masked_from, params_dropped, passed_for, phis_cleaned, trimmed, unused_dropped, unused_from,
};
use crate::entering::branches_suit;
use crate::ir::{BasicBlock, Function, Inst, Op, ProgramV};
use crate::sweeping::always_passes;

verus! {

/// Parameter `x` of a block other than `entry` gets `v` on every edge of `blocks`.
pub open spec fn only_gets(p: ProgramV, blocks: Seq<BasicBlock>, entry: BasicBlock, x: Inst, v: Inst) -> bool {
    exists|b: BasicBlock, k: int|
        b != entry && blocks.contains(b) && 0 <= k < p.block(b).params.len() && #[trigger] p.block(b).params[k] == x && (forall|
            j: int,
        |
            0 <= j < blocks.len() ==> always_passes(p, p.terminator(#[trigger] blocks[j]), b, k, v))
}

/// Of each of `pairs` the first is a parameter that only gets the second.
spec fn all_forward(p: ProgramV, blocks: Seq<BasicBlock>, entry: BasicBlock, pairs: Seq<(Inst, Inst)>) -> bool {
    forall|j: int| 0 <= j < pairs.len() ==> only_gets(p, blocks, entry, (#[trigger] pairs[j]).0, pairs[j].1)
}

proof fn lemma_forwarded_in(
    p: ProgramV,
    blocks: Seq<BasicBlock>,
    entry: BasicBlock,
    b: BasicBlock,
    k: int,
    found: Seq<(Inst, Inst)>,
)
    requires
        0 <= k,
        b != entry,
        blocks.contains(b),
        all_forward(p, blocks, entry, found),
    ensures
        all_forward(p, blocks, entry, forwarded_in(p, blocks, b, k, found)),
    decreases p.block(b).params.len() - k,
{
    if k < p.block(b).params.len() {
        match forwarded_value(p, blocks, b, k) {
            Some(v) => {
                crate::sweeping::forwarded_parameter_gets_one_value(p, blocks, b, k);
                assert(p.block(b).params[k] == p.block(b).params[k]);
                assert(only_gets(p, blocks, entry, p.block(b).params[k], v));
                let next = found.push((p.block(b).params[k], v));
                assert forall|j: int| 0 <= j < next.len() implies only_gets(p, blocks, entry, (#[trigger] next[j]).0, next[j].1) by {
                    if j < found.len() {
                        assert(next[j] == found[j]);
                    }
                }
                lemma_forwarded_in(p, blocks, entry, b, k + 1, next);
            },
            None => {
                lemma_forwarded_in(p, blocks, entry, b, k + 1, found);
            },
        }
    }
}

proof fn lemma_forwarded_from(p: ProgramV, blocks: Seq<BasicBlock>, entry: BasicBlock, from: int, found: Seq<(Inst, Inst)>)
    requires
        0 <= from,
        all_forward(p, blocks, entry, found),
    ensures
        all_forward(p, blocks, entry, forwarded_from(p, blocks, entry, from, found)),
    decreases blocks.len() - from,
{
    if from < blocks.len() {
        if blocks[from] == entry {
            lemma_forwarded_from(p, blocks, entry, from + 1, found);
        } else {
            assert(blocks.contains(blocks[from]));
            lemma_forwarded_in(p, blocks, entry, blocks[from], 0, found);
            lemma_forwarded_from(p, blocks, entry, from + 1, forwarded_in(p, blocks, blocks[from], 0, found));
        }
    }
}

/// The values `e` are those of a run in which parameters that only forward a value have that value.
pub open spec fn follows(p: ProgramV, f: Function, e: spec_fn(Inst) -> int) -> bool {
    entry_of(p, f) matches Some(entry) ==> forall|x: Inst, v: Inst| #[trigger]
        only_gets(p, crate::cfg::reverse_postorder(p, f), entry, x, v) ==> e(x) == e(v)
}

proof fn lemma_looked_up(pairs: Seq<(Inst, Inst)>, v: Inst, from: int, e: spec_fn(Inst) -> int)
    requires
        0 <= from,
        forall|j: int| 0 <= j < pairs.len() ==> e((#[trigger] pairs[j]).0) == e(pairs[j].1),
    ensures
        looked_up(pairs, v, from) matches Some(w) ==> e(w) == e(v),
    decreases pairs.len() - from,
{
    if from < pairs.len() {
        lemma_looked_up(pairs, v, from + 1, e);
    }
}

proof fn lemma_chain_end(pairs: Seq<(Inst, Inst)>, v: Inst, hops: nat, e: spec_fn(Inst) -> int)
    requires
        forall|j: int| 0 <= j < pairs.len() ==> e((#[trigger] pairs[j]).0) == e(pairs[j].1),
    ensures
        e(chain_end(pairs, v, hops)) == e(v),
    decreases hops,
{
    if hops > 0 {
        lemma_looked_up(pairs, v, 0, e);
        match looked_up(pairs, v, 0) {
            Some(w) => lemma_chain_end(pairs, w, (hops - 1) as nat, e),
            None => {},
        }
    }
}

/// Each instruction of `q` is that of `p`, but that it may use other values, which are as those it used.
pub open spec fn uses_the_same(p: ProgramV, q: ProgramV, e: spec_fn(Inst) -> int) -> bool {
    &&& q.blocks == p.blocks
    &&& q.funcs == p.funcs
    &&& q.insts.len() == p.insts.len()
    &&& forall|i: Inst| #[trigger] q.op(i) == p.op(i)
    &&& forall|i: Inst| #[trigger] q.ty(i) == p.ty(i)
    &&& forall|i: Inst| (#[trigger] q.args(i)).len() == p.args(i).len()
    &&& forall|i: Inst, k: int| 0 <= k < p.args(i).len() ==> e(#[trigger] q.args(i)[k]) == e(p.args(i)[k])
}

proof fn lemma_applied(p: ProgramV, pairs: Seq<(Inst, Inst)>, from: int, e: spec_fn(Inst) -> int)
    requires
        0 <= from,
        forall|j: int| 0 <= j < pairs.len() ==> e((#[trigger] pairs[j]).0) == e(pairs[j].1),
    ensures
        uses_the_same(p, forwards_applied(p, pairs, from), e),
    decreases pairs.len() - from,
{
    let q = forwards_applied(p, pairs, from);
    if from < pairs.len() {
        let (x, v) = pairs[from];
        let w = chain_end(pairs, v, pairs.len());
        let r = p.replace_uses(x, w);
        reveal(ProgramV::replace_uses);
        lemma_chain_end(pairs, v, pairs.len(), e);
        lemma_applied(r, pairs, from + 1, e);
        assert(e(x) == e(w));
        assert forall|i: Inst| #[trigger] q.op(i) == p.op(i) by {
            assert(q.op(i) == r.op(i));
        }
        assert forall|i: Inst| #[trigger] q.ty(i) == p.ty(i) by {
            assert(q.ty(i) == r.ty(i));
        }
        assert forall|i: Inst| (#[trigger] q.args(i)).len() == p.args(i).len() by {
            assert(q.args(i).len() == r.args(i).len());
        }
        assert forall|i: Inst, k: int| 0 <= k < p.args(i).len() implies e(#[trigger] q.args(i)[k]) == e(p.args(i)[k]) by {
            assert(e(q.args(i)[k]) == e(r.args(i)[k]));
        }
    }
}

/// A parameter that only forwards a value gives way to a value that is the same. What is forwarded is passed to the
/// parameter on every edge, so in every run in which forwarding parameters have their values, each instruction uses
/// values as it did.
pub proof fn forwarded_values_are_the_same(p: ProgramV, f: Function, e: spec_fn(Inst) -> int)
    requires
        follows(p, f, e),
    ensures
        uses_the_same(p, forwards_applied(p, forwarded(p, f), 0), e),
{
    let pairs = forwarded(p, f);
    match entry_of(p, f) {
        Some(entry) => {
            lemma_forwarded_from(p, crate::cfg::reverse_postorder(p, f), entry, 0, Seq::empty());
            assert forall|j: int| 0 <= j < pairs.len() implies e((#[trigger] pairs[j]).0) == e(pairs[j].1) by {
                assert(only_gets(p, crate::cfg::reverse_postorder(p, f), entry, pairs[j].0, pairs[j].1));
            }
        },
        None => {},
    }
    lemma_applied(p, pairs, 0, e);
}

proof fn lemma_masked_nothing(s: Seq<Inst>, from: int, found: Seq<Inst>)
    requires
        0 <= from <= s.len(),
    ensures
        masked_from(s, Seq::empty(), from, found) == found + s.skip(from),
    decreases s.len() - from,
{
    if from < s.len() {
        lemma_masked_nothing(s, from + 1, found.push(s[from]));
        assert(found.push(s[from]) + s.skip(from + 1) =~= found + s.skip(from));
    } else {
        assert(found + s.skip(from) =~= found);
    }
}

proof fn lemma_masked_short(s: Seq<Inst>, drop: Seq<bool>, from: int, found: Seq<Inst>)
    requires
        0 <= from <= s.len(),
    ensures
        masked_from(s, drop, from, found).len() <= found.len() + s.len() - from,
    decreases s.len() - from,
{
    if from < s.len() {
        lemma_masked_short(s, drop, from + 1, found);
        lemma_masked_short(s, drop, from + 1, found.push(s[from]));
    }
}

/// What transfer `t` of `q` passes is what that of `p` passes without the positions that are dropped at the block that it
/// leads to; any other instruction is as it was.
spec fn is_trimmed(p: ProgramV, q: ProgramV, drops: spec_fn(BasicBlock) -> Seq<bool>, t: Inst) -> bool {
    match p.op(t) {
        Op::Jump(x) => q.op(t) == Op::Jump(x) && q.args(t) == masked(p.args(t), drops(x)),
        Op::Branch(x, y, _) => {
            &&& q.op(t) matches Op::Branch(u, v, n)
            &&& u == x
            &&& v == y
            &&& n + 1 <= q.args(t).len()
            &&& q.arg(t, 0) == p.arg(t, 0)
            &&& q.t_args(t) == masked(p.t_args(t), drops(x))
            &&& q.f_args(t) == masked(p.f_args(t), drops(y))
        },
        _ => q.inst(t) == p.inst(t),
    }
}

/// Program `q` is `p` without the parameters that `drops` marks.
spec fn is_cut(p: ProgramV, q: ProgramV, f: Function, drops: spec_fn(BasicBlock) -> Seq<bool>) -> bool {
    &&& q.blocks.len() == p.blocks.len()
    &&& q.funcs == p.funcs
    &&& q.insts.len() == p.insts.len()
    &&& forall|b: BasicBlock| (#[trigger] q.block(b)).insts == p.block(b).insts && q.block(b).params == masked(
        p.block(b).params,
        drops(b),
    )
    &&& forall|t: Inst| #[trigger] is_trimmed(p, q, drops, t) || p.parent_bb(f, t) is None
}

proof fn lemma_same_parent(p: ProgramV, q: ProgramV, f: Function, t: Inst, from: int)
    requires
        q.funcs == p.funcs,
        forall|b: BasicBlock| (#[trigger] q.block(b)).insts == p.block(b).insts,
        0 <= from,
    ensures
        q.parent_from(f, t, from) == p.parent_from(f, t, from),
    decreases p.func(f).blocks.len() - from,
{
    if from < p.func(f).blocks.len() {
        assert(q.block(p.func(f).blocks[from]).insts == p.block(p.func(f).blocks[from]).insts);
        lemma_same_parent(p, q, f, t, from + 1);
    }
}

/// What one transfer is once it is trimmed.
spec fn is_trimmed_at(p: ProgramV, q: ProgramV, b: BasicBlock, drop: Seq<bool>, t: Inst) -> bool {
    is_trimmed(
        p,
        q,
        |x: BasicBlock|
            if x == b {
                drop
            } else {
                Seq::empty()
            },
        t,
    )
}

proof fn lemma_trimmed(p: ProgramV, t: Inst, b: BasicBlock, drop: Seq<bool>)
    requires
        p.inst(t).targets(b),
        t.0 < p.insts.len(),
        p.op(t) matches Op::Branch(_, _, n) ==> n + 1 <= p.args(t).len(),
    ensures
        is_trimmed_at(p, trimmed(p, t, b, drop), b, drop, t),
        trimmed(p, t, b, drop).blocks == p.blocks,
        trimmed(p, t, b, drop).funcs == p.funcs,
        trimmed(p, t, b, drop).insts.len() == p.insts.len(),
        forall|i: Inst| i != t ==> #[trigger] trimmed(p, t, b, drop).inst(i) == p.inst(i),
{
    reveal(ProgramV::set_inst);
    let q = trimmed(p, t, b, drop);
    match p.op(t) {
        Op::Branch(x, y, n) => {
            lemma_masked_nothing(p.t_args(t), 0, Seq::empty());
            lemma_masked_nothing(p.f_args(t), 0, Seq::empty());
            assert(p.t_args(t).skip(0) =~= p.t_args(t) && p.f_args(t).skip(0) =~= p.f_args(t));
            assert(Seq::<Inst>::empty() + p.t_args(t) =~= p.t_args(t) && Seq::<Inst>::empty() + p.f_args(t) =~= p.f_args(t));
            let ta = if x == b {
                masked(p.t_args(t), drop)
            } else {
                p.t_args(t)
            };
            let fa = if y == b {
                masked(p.f_args(t), drop)
            } else {
                p.f_args(t)
            };
            lemma_masked_short(p.t_args(t), drop, 0, Seq::empty());
            assert(p.t_args(t).len() == n);
            assert(ta.len() <= n);
            let args = seq![p.arg(t, 0)] + ta + fa;
            assert(q.args(t) == args);
            assert(args.subrange(1, ta.len() as int + 1) =~= ta);
            assert(args.subrange(ta.len() as int + 1, args.len() as int) =~= fa);
            assert(q.t_args(t) == ta && q.f_args(t) == fa);
        },
        _ => {},
    }
}

proof fn lemma_all_trimmed(p: ProgramV, f: Function, users: Seq<Inst>, b: BasicBlock, drop: Seq<bool>, from: int)
    requires
        0 <= from <= users.len(),
        users.no_duplicates(),
        forall|k: int| 0 <= k < users.len() ==> p.inst(#[trigger] users[k]).targets(b) && users[k].0 < p.insts.len(),
        branches_suit(p),
    ensures
        ({
            let q = all_trimmed(p, f, users, b, drop, from);
            &&& q.blocks == p.blocks
            &&& q.funcs == p.funcs
            &&& q.insts.len() == p.insts.len()
            &&& forall|k: int|
                from <= k < users.len() && p.parent_bb(f, #[trigger] users[k]) is Some ==> is_trimmed_at(p, q, b, drop, users[k])
            &&& forall|i: Inst|
                (forall|k: int| from <= k < users.len() ==> #[trigger] users[k] != i) ==> #[trigger] q.inst(i) == p.inst(i)
        }),
    decreases users.len() - from,
{
    let q = all_trimmed(p, f, users, b, drop, from);
    if from < users.len() {
        let u = users[from];
        if p.parent_bb(f, u) is Some {
            let r = trimmed(p, u, b, drop);
            assert(p.inst(u).targets(b));
            assert(p.op(u) matches Op::Branch(_, _, n) ==> n + 1 <= p.args(u).len());
            lemma_trimmed(p, u, b, drop);
            assert forall|k: int| from + 1 <= k < users.len() implies r.inst(#[trigger] users[k]).targets(b) && users[k].0
                < r.insts.len() by {
                assert(users[k] != u);
                assert(r.inst(users[k]) == p.inst(users[k]));
            }
            assert(branches_suit(r)) by {
                assert forall|i: Inst| (#[trigger] r.op(i)) is Branch implies (r.op(i) matches Op::Branch(_, _, n) && n + 1
                    <= r.args(i).len()) by {
                    if i != u {
                        assert(r.inst(i) == p.inst(i));
                        assert(p.op(i) is Branch);
                    }
                }
            }
            assert(r.inst(u).targets(b));
            lemma_all_trimmed(r, f, users, b, drop, from + 1);
            assert(q == all_trimmed(r, f, users, b, drop, from + 1));
            assert(q.inst(u) == r.inst(u)) by {
                assert forall|k: int| from + 1 <= k < users.len() implies #[trigger] users[k] != u by {}
            }
            assert forall|k: int| from <= k < users.len() && p.parent_bb(f, #[trigger] users[k]) is Some implies is_trimmed_at(
                p,
                q,
                b,
                drop,
                users[k],
            ) by {
                if k > from {
                    lemma_same_parent(p, r, f, users[k], 0);
                    assert(r.inst(users[k]) == p.inst(users[k]));
                    assert(is_trimmed_at(r, q, b, drop, users[k]));
                }
            }
            assert forall|i: Inst|
                (forall|k: int| from <= k < users.len() ==> #[trigger] users[k] != i) implies #[trigger] q.inst(i) == p.inst(
                i,
            ) by {
                assert(users[from] != i);
                assert(r.inst(i) == p.inst(i));
            }
        } else {
            lemma_all_trimmed(p, f, users, b, drop, from + 1);
        }
    }
}

proof fn lemma_users_once(p: ProgramV, b: BasicBlock, from: int, found: Seq<Inst>)
    requires
        0 <= from,
        p.insts.len() <= usize::MAX,
        found.no_duplicates(),
        forall|k: int| 0 <= k < found.len() ==> p.inst(#[trigger] found[k]).targets(b) && found[k].0 < from && found[k].0
            < p.insts.len(),
    ensures
        ({
            let users = p.block_users_from(b, from, found);
            &&& users.no_duplicates()
            &&& forall|k: int| 0 <= k < users.len() ==> p.inst(#[trigger] users[k]).targets(b) && users[k].0 < p.insts.len()
        }),
    decreases p.insts.len() - from,
{
    if from < p.insts.len() {
        if p.insts[from].targets(b) {
            lemma_users_once(p, b, from + 1, found.push(Inst(from as usize)));
        } else {
            lemma_users_once(p, b, from + 1, found);
        }
    }
}

/// Dropping at one more block.
#[verifier::spinoff_prover]
proof fn lemma_drop_step(
    p: ProgramV,
    q: ProgramV,
    f: Function,
    drops: spec_fn(BasicBlock) -> Seq<bool>,
    b: BasicBlock,
    drop: Seq<bool>,
)
    requires
        is_cut(p, q, f, drops),
        drops(b) == Seq::<bool>::empty(),
        b.0 < p.blocks.len(),
        p.insts.len() <= usize::MAX,
        branches_suit(p),
        branches_suit(q),
    ensures
        is_cut(
            p,
            params_dropped(q, f, b, drop),
            f,
            |x: BasicBlock|
                if x == b {
                    drop
                } else {
                    drops(x)
                },
        ),
        branches_suit(params_dropped(q, f, b, drop)),
{
    let s = q.set_block_params(b, masked(q.block(b).params, drop));
    let users = s.block_users(b);
    let r = all_trimmed(s, f, users, b, drop, 0);
    let more = |x: BasicBlock|
        if x == b {
            drop
        } else {
            drops(x)
        };
    assert(s.insts == q.insts && s.funcs == q.funcs && s.blocks.len() == q.blocks.len() && s.block(b).insts == q.block(
        b,
    ).insts && s.block(b).params == masked(q.block(b).params, drop) && forall|x: BasicBlock|
        x != b ==> #[trigger] s.block(x) == q.block(x)) by {
        reveal(ProgramV::set_block_params);
    }
    assert(branches_suit(s)) by {
        assert forall|i: Inst| (#[trigger] s.op(i)) is Branch implies (s.op(i) matches Op::Branch(_, _, n) && n + 1 <= s.args(
            i,
        ).len()) by {
            assert(q.op(i) is Branch);
        }
    }
    lemma_users_once(s, b, 0, Seq::empty());
    lemma_all_trimmed(s, f, users, b, drop, 0);
    lemma_masked_nothing(p.block(b).params, 0, Seq::empty());
    assert(p.block(b).params.skip(0) =~= p.block(b).params);
    assert(q.block(b).params =~= p.block(b).params);
    assert forall|x: BasicBlock| (#[trigger] r.block(x)).insts == p.block(x).insts && r.block(x).params == masked(
        p.block(x).params,
        more(x),
    ) by {
        assert(q.block(x).insts == p.block(x).insts);
        if x != b {
            assert(s.block(x) == q.block(x));
        }
    }
    assert forall|t: Inst| #[trigger] is_trimmed(p, r, more, t) || p.parent_bb(f, t) is None by {
        if p.parent_bb(f, t) is Some {
            assert(is_trimmed(p, q, drops, t));
            lemma_same_parent(p, s, f, t, 0);
            if s.inst(t).targets(b) {
                assert(t.0 < s.insts.len());
                crate::chain_to_switch::lemma_block_users(s, b, t, 0, Seq::empty());
                let k = users.index_of(t);
                assert(users[k] == t);
                assert(is_trimmed_at(s, r, b, drop, t));
                assert(s.inst(t) == q.inst(t));
                match p.op(t) {
                    Op::Jump(x) => {
                        lemma_masked_nothing(p.args(t), 0, Seq::empty());
                        assert(p.args(t).skip(0) =~= p.args(t));
                        assert(q.args(t) =~= p.args(t));
                    },
                    Op::Branch(x, y, _) => {
                        lemma_masked_nothing(p.t_args(t), 0, Seq::empty());
                        lemma_masked_nothing(p.f_args(t), 0, Seq::empty());
                        assert(p.t_args(t).skip(0) =~= p.t_args(t) && p.f_args(t).skip(0) =~= p.f_args(t));
                        lemma_masked_nothing(q.t_args(t), 0, Seq::empty());
                        lemma_masked_nothing(q.f_args(t), 0, Seq::empty());
                        assert(q.t_args(t).skip(0) =~= q.t_args(t) && q.f_args(t).skip(0) =~= q.f_args(t));
                        if x == b {
                            assert(q.t_args(t) =~= p.t_args(t));
                        } else {
                            assert(r.t_args(t) =~= q.t_args(t));
                        }
                        if y == b {
                            assert(q.f_args(t) =~= p.f_args(t));
                        } else {
                            assert(r.f_args(t) =~= q.f_args(t));
                        }
                    },
                    _ => {},
                }
            } else {
                assert forall|k: int| 0 <= k < users.len() implies #[trigger] users[k] != t by {
                    assert(s.inst(users[k]).targets(b));
                }
                assert(r.inst(t) == s.inst(t));
            }
        }
    }
    assert(branches_suit(r)) by {
        assert forall|i: Inst| (#[trigger] r.op(i)) is Branch implies (r.op(i) matches Op::Branch(_, _, n) && n + 1 <= r.args(
            i,
        ).len()) by {
            if users.contains(i) && s.parent_bb(f, i) is Some {
                let k = users.index_of(i);
                assert(users[k] == i);
                assert(is_trimmed_at(s, r, b, drop, i));
            } else {
                assert(r.inst(i) == s.inst(i)) by {
                    lemma_left(s, f, users, b, drop, 0, i);
                }
                assert(s.op(i) is Branch);
            }
        }
    }
}

proof fn lemma_left(p: ProgramV, f: Function, users: Seq<Inst>, b: BasicBlock, drop: Seq<bool>, from: int, i: Inst)
    requires
        0 <= from,
        !users.contains(i) || p.parent_bb(f, i) is None,
    ensures
        all_trimmed(p, f, users, b, drop, from).inst(i) == p.inst(i),
    decreases users.len() - from,
{
    if from < users.len() {
        assert(users.contains(users[from]));
        let u = users[from];
        if p.parent_bb(f, u) is Some {
            reveal(ProgramV::set_inst);
            let r = trimmed(p, u, b, drop);
            assert(r.blocks == p.blocks && r.funcs == p.funcs);
            lemma_same_parent(p, r, f, i, 0);
            lemma_left(r, f, users, b, drop, from + 1, i);
        } else {
            lemma_left(p, f, users, b, drop, from + 1, i);
        }
    }
}

proof fn lemma_unused(p: ProgramV, params: Seq<Inst>, from: int, found: Seq<bool>)
    requires
        0 <= from <= params.len(),
        found.len() == from,
        forall|k: int| 0 <= k < from ==> #[trigger] found[k] == !p.is_used(params[k]),
    ensures
        unused_from(p, params, from, found).len() == params.len(),
        forall|k: int| 0 <= k < params.len() ==> #[trigger] unused_from(p, params, from, found)[k] == !p.is_used(params[k]),
    decreases params.len() - from,
{
    if from < params.len() {
        lemma_unused(p, params, from + 1, found.push(!p.is_used(params[from])));
    }
}

proof fn lemma_kept(s: Seq<Inst>, drop: Seq<bool>, from: int, found: Seq<Inst>, k: int)
    requires
        0 <= from,
        0 <= k < s.len(),
        found.contains(s[k]) || (from <= k && !(k < drop.len() && drop[k])),
    ensures
        masked_from(s, drop, from, found).contains(s[k]),
    decreases s.len() - from,
{
    if from < s.len() {
        let next = found.push(s[from]);
        if found.contains(s[k]) {
            assert(next[found.index_of(s[k])] == s[k]);
        }
        assert(next[found.len() as int] == s[from]);
        if from < drop.len() && drop[from] {
            lemma_kept(s, drop, from + 1, found, k);
        } else {
            lemma_kept(s, drop, from + 1, next, k);
        }
    }
}

/// The parameters of `x` that are dropped, where `x` is one of the first `n` blocks but the very first.
spec fn marks(p: ProgramV, blocks: Seq<BasicBlock>, n: int, x: BasicBlock) -> Seq<bool> {
    let k = blocks.index_of(x);
    let drop = unused_from(p, p.block(x).params, 0, Seq::empty());
    if blocks.contains(x) && 0 < k < n && drop.contains(true) {
        drop
    } else {
        Seq::empty()
    }
}

proof fn lemma_cut_alike(
    p: ProgramV,
    q: ProgramV,
    f: Function,
    a: spec_fn(BasicBlock) -> Seq<bool>,
    b: spec_fn(BasicBlock) -> Seq<bool>,
)
    requires
        is_cut(p, q, f, a),
        forall|x: BasicBlock| #[trigger] a(x) == b(x),
    ensures
        is_cut(p, q, f, b),
{
    assert forall|x: BasicBlock| (#[trigger] q.block(x)).insts == p.block(x).insts && q.block(x).params == masked(
        p.block(x).params,
        b(x),
    ) by {
        assert(a(x) == b(x));
    }
    assert forall|t: Inst| #[trigger] is_trimmed(p, q, b, t) || p.parent_bb(f, t) is None by {
        if p.parent_bb(f, t) is Some {
            assert(is_trimmed(p, q, a, t));
            match p.op(t) {
                Op::Jump(x) => {
                    assert(a(x) == b(x));
                },
                Op::Branch(x, y, _) => {
                    assert(a(x) == b(x) && a(y) == b(y));
                },
                _ => {},
            }
        }
    }
}

proof fn lemma_unused_dropped(p: ProgramV, q: ProgramV, f: Function, blocks: Seq<BasicBlock>, from: int, changed: bool)
    requires
        0 <= from <= blocks.len(),
        blocks.no_duplicates(),
        forall|k: int| 0 <= k < blocks.len() ==> (#[trigger] blocks[k]).0 < p.blocks.len(),
        is_cut(p, q, f, |x: BasicBlock| marks(p, blocks, from, x)),
        p.insts.len() <= usize::MAX,
        branches_suit(p),
        branches_suit(q),
    ensures
        is_cut(
            p,
            unused_dropped(p, q, f, blocks, from, changed).0,
            f,
            |x: BasicBlock| marks(p, blocks, blocks.len() as int, x),
        ),
    decreases blocks.len() - from,
{
    let now = |x: BasicBlock| marks(p, blocks, from, x);
    let next = |x: BasicBlock| marks(p, blocks, from + 1, x);
    if from < blocks.len() {
        let b = blocks[from];
        let drop = if from == 0 {
            Seq::empty()
        } else {
            unused_from(p, p.block(b).params, 0, Seq::empty())
        };
        assert(blocks.index_of(b) == from) by {
            assert(blocks.contains(b));
            assert(blocks[blocks.index_of(b)] == b);
        }
        assert(now(b) == Seq::<bool>::empty());
        assert forall|x: BasicBlock| x != b implies #[trigger] now(x) == next(x) by {
            if blocks.contains(x) {
                assert(blocks[blocks.index_of(x)] == x);
            }
        }
        if drop.contains(true) {
            let with = |x: BasicBlock|
                if x == b {
                    drop
                } else {
                    now(x)
                };
            lemma_drop_step(p, q, f, now, b, drop);
            let r = params_dropped(q, f, b, drop);
            assert forall|x: BasicBlock| #[trigger] with(x) == next(x) by {
                if x == b {
                    assert(blocks.contains(b));
                } else {
                    assert(now(x) == next(x));
                }
            }
            lemma_cut_alike(p, r, f, with, next);
            lemma_unused_dropped(p, r, f, blocks, from + 1, true);
        } else {
            assert forall|x: BasicBlock| #[trigger] now(x) == next(x) by {}
            lemma_cut_alike(p, q, f, now, next);
            lemma_unused_dropped(p, q, f, blocks, from + 1, changed);
        }
    } else {
        let all = |x: BasicBlock| marks(p, blocks, blocks.len() as int, x);
        assert forall|x: BasicBlock| #[trigger] now(x) == all(x) by {}
        lemma_cut_alike(p, q, f, now, all);
    }
}

/// The values `a` are passed for the parameters `params` of `q` as `from` are for those of `p`.
pub open spec fn still_passes(from: Seq<Inst>, old_params: Seq<Inst>, to: Seq<Inst>, params: Seq<Inst>) -> bool {
    &&& to.len() == params.len()
    &&& forall|j: int| 0 <= j < params.len() ==> passed_for(from, old_params, #[trigger] params[j], to[j])
}

/// Transfer `t` passes to each block that it leads to what it passed, for the parameters that stay.
pub open spec fn transfers_alike(p: ProgramV, q: ProgramV, t: Inst) -> bool {
    match p.op(t) {
        Op::Jump(x) => {
            &&& q.op(t) == Op::Jump(x)
            &&& p.args(t).len() == p.block(x).params.len() ==> still_passes(
                p.args(t),
                p.block(x).params,
                q.args(t),
                q.block(x).params,
            )
        },
        Op::Branch(x, y, _) => {
            &&& q.op(t) matches Op::Branch(u, v, _)
            &&& u == x
            &&& v == y
            &&& q.arg(t, 0) == p.arg(t, 0)
            &&& p.t_args(t).len() == p.block(x).params.len() ==> still_passes(
                p.t_args(t),
                p.block(x).params,
                q.t_args(t),
                q.block(x).params,
            )
            &&& p.f_args(t).len() == p.block(y).params.len() ==> still_passes(
                p.f_args(t),
                p.block(y).params,
                q.f_args(t),
                q.block(y).params,
            )
        },
        _ => q.inst(t) == p.inst(t),
    }
}

/// Program `q` is `p` without parameters that nothing uses, and without what was passed for them.
pub open spec fn only_drops(p: ProgramV, q: ProgramV, f: Function) -> bool {
    &&& q.funcs == p.funcs
    &&& forall|b: BasicBlock| (#[trigger] q.block(b)).insts == p.block(b).insts
    &&& forall|b: BasicBlock, k: int|
        0 <= k < p.block(b).params.len() && p.is_used(#[trigger] p.block(b).params[k]) ==> q.block(b).params.contains(
            p.block(b).params[k],
        )
    &&& p.func(f).blocks.len() > 0 ==> q.block(p.func(f).blocks[0]).params == p.block(p.func(f).blocks[0]).params
    &&& forall|t: Inst| #[trigger] transfers_alike(p, q, t) || p.parent_bb(f, t) is None
}

/// Only parameters that nothing uses are dropped, and never those of the first block. Each parameter that stays is
/// passed what it was passed, on every edge, and nothing else changes.
pub proof fn what_stays_is_still_passed(p: ProgramV, f: Function, changed: bool)
    requires
        p.insts.len() <= usize::MAX,
        branches_suit(p),
        p.func(f).blocks.no_duplicates(),
        forall|k: int| 0 <= k < p.func(f).blocks.len() ==> (#[trigger] p.func(f).blocks[k]).0 < p.blocks.len(),
    ensures
        only_drops(p, unused_dropped(p, p, f, p.func(f).blocks, 0, changed).0, f),
{
    let blocks = p.func(f).blocks;
    let q = unused_dropped(p, p, f, blocks, 0, changed).0;
    let none = |x: BasicBlock| marks(p, blocks, 0, x);
    let all = |x: BasicBlock| marks(p, blocks, blocks.len() as int, x);
    assert(is_cut(p, p, f, none)) by {
        assert forall|b: BasicBlock| (#[trigger] p.block(b)).insts == p.block(b).insts && p.block(b).params == masked(
            p.block(b).params,
            none(b),
        ) by {
            lemma_masked_nothing(p.block(b).params, 0, Seq::empty());
            assert(Seq::empty() + p.block(b).params.skip(0) =~= p.block(b).params);
        }
        assert forall|t: Inst| #[trigger] is_trimmed(p, p, none, t) || p.parent_bb(f, t) is None by {
            lemma_masked_nothing(p.args(t), 0, Seq::empty());
            assert(Seq::empty() + p.args(t).skip(0) =~= p.args(t));
            lemma_masked_nothing(p.t_args(t), 0, Seq::empty());
            assert(Seq::empty() + p.t_args(t).skip(0) =~= p.t_args(t));
            lemma_masked_nothing(p.f_args(t), 0, Seq::empty());
            assert(Seq::empty() + p.f_args(t).skip(0) =~= p.f_args(t));
            assert(p.op(t) matches Op::Branch(_, _, n) ==> n + 1 <= p.args(t).len());
        }
    }
    lemma_unused_dropped(p, p, f, blocks, 0, changed);
    assert(is_cut(p, q, f, all));
    assert forall|b: BasicBlock, k: int|
        0 <= k < p.block(b).params.len() && p.is_used(#[trigger] p.block(b).params[k]) implies q.block(b).params.contains(
        p.block(b).params[k],
    ) by {
        assert(q.block(b).params == masked(p.block(b).params, all(b)));
        lemma_unused(p, p.block(b).params, 0, Seq::empty());
        lemma_kept(p.block(b).params, all(b), 0, Seq::empty(), k);
    }
    if blocks.len() > 0 {
        let b = blocks[0];
        assert(blocks.index_of(b) == 0) by {
            assert(blocks.contains(b));
            assert(blocks[blocks.index_of(b)] == b);
        }
        assert(q.block(b).params == masked(p.block(b).params, all(b)));
        lemma_masked_nothing(p.block(b).params, 0, Seq::empty());
        assert(Seq::empty() + p.block(b).params.skip(0) =~= p.block(b).params);
    }
    assert forall|t: Inst| #[trigger] transfers_alike(p, q, t) || p.parent_bb(f, t) is None by {
        if p.parent_bb(f, t) is Some {
            assert(is_trimmed(p, q, all, t));
            match p.op(t) {
                Op::Jump(x) => {
                    assert(q.block(x).params == masked(p.block(x).params, all(x)));
                    if p.args(t).len() == p.block(x).params.len() {
                        dropping_keeps_alignment(p.args(t), p.block(x).params, all(x));
                    }
                },
                Op::Branch(x, y, _) => {
                    assert(q.block(x).params == masked(p.block(x).params, all(x)));
                    assert(q.block(y).params == masked(p.block(y).params, all(y)));
                    if p.t_args(t).len() == p.block(x).params.len() {
                        dropping_keeps_alignment(p.t_args(t), p.block(x).params, all(x));
                    }
                    if p.f_args(t).len() == p.block(y).params.len() {
                        dropping_keeps_alignment(p.f_args(t), p.block(y).params, all(y));
                    }
                },
                _ => {},
            }
        }
    }
}

/// Removing parameters keeps what a run computes: first the uses of parameters that only forward a value become uses of
/// the same values, and then only what nothing uses is dropped.
pub proof fn removed_parameters_are_not_missed(p: ProgramV, f: Function, e: spec_fn(Inst) -> int)
    requires
        follows(p, f, e),
        p.insts.len() <= usize::MAX,
        branches_suit(p),
        p.func(f).blocks.no_duplicates(),
        forall|k: int| 0 <= k < p.func(f).blocks.len() ==> (#[trigger] p.func(f).blocks[k]).0 < p.blocks.len(),
    ensures
        exists|m: ProgramV| #[trigger] uses_the_same(p, m, e) && only_drops(m, phis_cleaned(p, f).0, f),
{
    let pairs = forwarded(p, f);
    let m = forwards_applied(p, pairs, 0);
    forwarded_values_are_the_same(p, f, e);
    assert(branches_suit(m)) by {
        assert forall|i: Inst| (#[trigger] m.op(i)) is Branch implies (m.op(i) matches Op::Branch(_, _, n) && n + 1 <= m.args(
            i,
        ).len()) by {
            assert(m.op(i) == p.op(i));
            assert(m.args(i).len() == p.args(i).len());
        }
    }
    what_stays_is_still_passed(m, f, pairs.len() > 0);
}

} // verus!
