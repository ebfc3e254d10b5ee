//! What replacing values by their leaders keeps.
//!
//! A leader has the number of the value that it stands for, so both are the same; a load or a call reads
//! what its leader read, since a write ends the lead of what it may change.

use vstd::prelude::*;

use crate::gvn::{
    all_seen, all_walked, call_leader, calls_dropped, children_from, fresh_walk, header_seen, hits,
    is_pure, keys_dropped, led, left, loop_hits, loop_spared, memory_seen, nothing_added, plan_of,
    reduced, scope_of, seen, spared, spares_loads, walked, way_from, ways_from, write_seen,
    writer_of, AddedV, CallLeader, PlanV, WalkV, Writer,
};
use crate::ir::{BasicBlock, Function, Inst, Op, ProgramV, Type};
use crate::cfg::{entry_of, reverse_postorder, tree_of, TreeV};
use crate::quieting::{
    all_calm, comes_first, is_setting, lemma_all_seen_quiet, lemma_comes_first, lemma_header_calm,
    lemma_next_block_calm, lemma_replaced_on, lemma_seen_quiet, lemma_setting, lemma_walked_quiet,
    lemma_way_split, lemma_ways_split, quiet_between, reads_like, replaced_quietly,
};
use crate::scoping::{
    above, defined_above, inherits, leaders_above, lemma_all_seen_above, lemma_children_below,
    lemma_leaders_move, lemma_places_stay, lemma_seen_above, lemma_subsides_above,
    lemma_walked_above, placed_once, stands, subsides, values_of,
};
use crate::numbering::{
    all_numbered, call_numbered, computes, expressible, fits, interned, key_of, lemma_all_numbered,
    lemma_keys_grow, lemma_listed, lemma_number_of_key, lemma_one_grows, listed, numbered,
    numbering_is_sound, own_key, symmetric, KeyV, Meaning, NumbersV, ScopeV,
};

verus! {

/// Instruction `i` has in `q` operands with the values and types that it had in `p`.
pub open spec fn operands_alike(p: ProgramV, q: ProgramV, env: spec_fn(Inst) -> int, i: Inst) -> bool {
    &&& q.op(i) == p.op(i)
    &&& q.ty(i) == p.ty(i)
    &&& q.args(i).len() == p.args(i).len()
    &&& forall|k: int|
        0 <= k < p.args(i).len() ==> env(#[trigger] q.args(i)[k]) == env(p.args(i)[k]) && q.ty(q.args(i)[k]) == p.ty(
            p.args(i)[k],
        )
}

/// The instructions of `q` are those of `p`, in the same places, with operands that have the same values.
pub open spec fn alike(p: ProgramV, q: ProgramV, env: spec_fn(Inst) -> int) -> bool {
    &&& q.blocks == p.blocks
    &&& q.funcs == p.funcs
    &&& q.layout == p.layout
    &&& q.globals == p.globals
    &&& q.insts.len() == p.insts.len()
    &&& forall|i: Inst| #[trigger] operands_alike(p, q, env, i)
}

/// Every load has one operand, which points to what it gives.
pub open spec fn loads_typed(p: ProgramV) -> bool {
    forall|i: Inst| #[trigger]
        p.op(i) is Load ==> p.args(i).len() == 1 && p.ty(p.args(i)[0]) == Type::Pointer(Box::new(p.ty(i)))
}

/// Two loads of one address, or two calls of one function with the same arguments, give the same where one
/// comes first on every walk to the other, and nothing that they read is written between them.
pub open spec fn same_if_quiet(p: ProgramV, f: Function, env: spec_fn(Inst) -> int, l: Inst, v: Inst) -> bool {
    reads_like(p, l, v) && p.ty(l) == p.ty(v) && p.args(l).map_values(env) == p.args(v).map_values(env) && comes_first(
        p,
        tree_of(p, f),
        l,
        v,
    ) && quiet_between(p, f, l, v) ==> env(l) == env(v)
}

/// Memory changes by writes only.
pub open spec fn changes_by_writes(p: ProgramV, f: Function, env: spec_fn(Inst) -> int) -> bool {
    forall|l: Inst, v: Inst| #[trigger] same_if_quiet(p, f, env, l, v)
}

/// A number stands for values of one type.
pub open spec fn numbers_typed(p: ProgramV, t: NumbersV) -> bool {
    forall|i: usize| #[trigger]
        t.by_inst.contains_key(i) ==> t.by_inst[i] < t.keys.len() && t.keys[t.by_inst[i] as int].ty == p.ty(Inst(i))
}

/// Value `l` is what number `n` stands for.
pub open spec fn stands_for(p: ProgramV, env: spec_fn(Inst) -> int, t: NumbersV, vals: Seq<int>, n: usize, l: Inst) -> bool {
    n < vals.len() && n < t.keys.len() && env(l) == vals[n as int] && p.ty(l) == t.keys[n as int].ty
}

/// Load `l` is of address `addr`.
pub open spec fn loaded_from(p: ProgramV, env: spec_fn(Inst) -> int, addr: usize, l: Inst) -> bool {
    &&& p.op(l) is Load
    &&& env(p.args(l)[0]) == env(Inst(addr))
    &&& p.ty(p.args(l)[0]) == p.ty(Inst(addr))
}

/// Number `c.number` stands for what call `c.leader` calls and with which arguments.
pub open spec fn called_as(p: ProgramV, env: spec_fn(Inst) -> int, t: NumbersV, vals: Seq<int>, c: CallLeader) -> bool {
    &&& p.op(c.leader) == Op::Call(c.callee)
    &&& c.number < t.keys.len()
    &&& t.keys[c.number as int].ty == p.ty(c.leader)
    &&& is_called_with(p, env, vals, t.keys[c.number as int].args, c.leader)
}

/// The arguments of call `i` have the values that `nums` stand for.
pub open spec fn is_called_with(p: ProgramV, env: spec_fn(Inst) -> int, vals: Seq<int>, nums: Seq<usize>, i: Inst) -> bool {
    nums.len() == p.args(i).len() && forall|j: int|
        0 <= j < nums.len() ==> (#[trigger] nums[j]) < vals.len() && vals[nums[j] as int] == env(p.args(i)[j])
}

/// The leaders of a walk have the values that they stand for, loads and calls where nothing was written.
pub open spec fn holds(p: ProgramV, st: WalkV, m: Meaning, env: spec_fn(Inst) -> int, vals: Seq<int>) -> bool {
    &&& fits(m, env, st.numbers, vals)
    &&& numbers_typed(p, st.numbers)
    &&& forall|n: usize| #[trigger]
        st.leaders.contains_key(n) ==> stands_for(p, env, st.numbers, vals, n, st.leaders[n])
    &&& forall|x: usize| #[trigger] st.loads.contains_key(x) ==> loaded_from(p, env, x, st.loads[x])
    &&& forall|k: int| 0 <= k < st.calls.len() ==> called_as(p, env, st.numbers, vals, #[trigger] st.calls[k])
}

proof fn lemma_alike_chain(p: ProgramV, q: ProgramV, r: ProgramV, env: spec_fn(Inst) -> int)
    requires
        alike(p, q, env),
        alike(q, r, env),
    ensures
        alike(p, r, env),
{
    assert forall|i: Inst| #[trigger] operands_alike(p, r, env, i) by {
        assert(operands_alike(p, q, env, i));
        assert(operands_alike(q, r, env, i));
        assert forall|k: int| 0 <= k < p.args(i).len() implies env(#[trigger] r.args(i)[k]) == env(p.args(i)[k]) && r.ty(
            r.args(i)[k],
        ) == p.ty(p.args(i)[k]) by {
            assert(env(r.args(i)[k]) == env(q.args(i)[k]));
        }
    }
}

proof fn lemma_alike_self(p: ProgramV, env: spec_fn(Inst) -> int)
    ensures
        alike(p, p, env),
{
}

/// What the instructions of a program satisfy, those of one like it do.
proof fn lemma_alike_computes(
    p: ProgramV,
    q: ProgramV,
    s: ScopeV,
    m: Meaning,
    env: spec_fn(Inst) -> int,
)
    requires
        alike(p, q, env),
        computes(p, s, m, env),
    ensures
        computes(q, s, m, env),
        forall|i: Inst| #[trigger] q.ty(i) == p.ty(i),
{
    assert forall|i: Inst| #[trigger] q.ty(i) == p.ty(i) by {
        assert(operands_alike(p, q, env, i));
    }
    assert forall|i: Inst| #[trigger] expressible(q, s, i) implies env(i) == (match q.op(i) {
        Op::Binary(op) => m(q.op(i), q.ty(i), q.ty(q.arg(i, 0)), q.args(i).map_values(env)),
        Op::Cast => m(q.op(i), q.ty(i), q.ty(q.arg(i, 0)), q.args(i).map_values(env)),
        Op::GetElemPtr => m(q.op(i), q.ty(i), q.ty(q.arg(i, 0)), q.args(i).map_values(env)),
        _ => m(q.op(i), q.ty(i), Type::Unit, q.args(i).map_values(env)),
    }) by {
        assert(operands_alike(p, q, env, i));
        if p.args(i).len() > 0 {
            assert(q.ty(q.args(i)[0]) == p.ty(p.args(i)[0])) by {
                assert(env(q.args(i)[0]) == env(p.args(i)[0]));
            }
        }
        if p.args(i).len() > 1 {
            assert(q.ty(q.args(i)[1]) == p.ty(p.args(i)[1])) by {
                assert(env(q.args(i)[1]) == env(p.args(i)[1]));
            }
        }
        assert(expressible(p, s, i));
        assert(q.args(i).map_values(env) =~= p.args(i).map_values(env)) by {
            assert forall|k: int| 0 <= k < p.args(i).len() implies q.args(i).map_values(env)[k] == p.args(i).map_values(
                env,
            )[k] by {
                assert(env(q.args(i)[k]) == env(p.args(i)[k]));
            }
        }
    }
}

/// Uses of a value made uses of one with its value and type.
proof fn lemma_led(p: ProgramV, st: WalkV, v: Inst, leader: Inst, env: spec_fn(Inst) -> int)
    requires
        env(v) == env(leader),
        p.ty(v) == p.ty(leader),
    ensures
        alike(p, led(p, st, v, leader).0, env),
{
    let q = p.replace_uses(v, leader);
    reveal(ProgramV::replace_uses);
    assert forall|i: Inst| #[trigger] q.ty(i) == p.ty(i) by {
        if i.0 < p.insts.len() {
            assert(q.insts[i.0 as int] == p.insts[i.0 as int].replaced(v, leader));
        }
    }
    assert forall|i: Inst| #[trigger] operands_alike(p, q, env, i) by {
        if i.0 < p.insts.len() {
            assert(q.insts[i.0 as int] == p.insts[i.0 as int].replaced(v, leader));
        }
        assert(q.ty(i) == p.ty(i));
    }
    assert(alike(p, q, env));
    lemma_alike_self(p, env);
}

/// The keys of `t` are the first of `r`.
pub open spec fn extends(t: NumbersV, r: NumbersV) -> bool {
    t.keys.len() <= r.keys.len() && forall|j: int| 0 <= j < t.keys.len() ==> #[trigger] r.keys[j] == t.keys[j]
}

proof fn lemma_interned_typed(p: ProgramV, t: NumbersV, i: Inst, key: KeyV)
    requires
        numbers_typed(p, t),
        key.ty == p.ty(i),
        interned(t, i, key).0.keys.len() < usize::MAX,
    ensures
        numbers_typed(p, interned(t, i, key).0),
        extends(t, interned(t, i, key).0),
        interned(t, i, key).1 < interned(t, i, key).0.keys.len(),
        interned(t, i, key).0.keys[interned(t, i, key).1 as int].ty == p.ty(i),
{
    lemma_number_of_key(t.keys, key, 0);
    let r = interned(t, i, key).0;
    assert forall|j: usize| #[trigger] r.by_inst.contains_key(j) implies r.by_inst[j] < r.keys.len()
        && r.keys[r.by_inst[j] as int].ty == p.ty(Inst(j)) by {
        if j != i.0 {
            assert(t.by_inst.contains_key(j));
        }
    }
}

proof fn lemma_numbered_typed(p: ProgramV, s: ScopeV, t: NumbersV, i: Inst, fuel: nat)
    requires
        numbers_typed(p, t),
        numbered(p, s, t, i, fuel).0.keys.len() < usize::MAX,
    ensures
        numbers_typed(p, numbered(p, s, t, i, fuel).0),
        extends(t, numbered(p, s, t, i, fuel).0),
        numbered(p, s, t, i, fuel).1 < numbered(p, s, t, i, fuel).0.keys.len(),
        numbered(p, s, t, i, fuel).0.keys[numbered(p, s, t, i, fuel).1 as int].ty == p.ty(i),
    decreases fuel, 0int, 0int,
{
    if !t.by_inst.contains_key(i.0) && (fuel == 0 || !expressible(p, s, i)) {
        lemma_interned_typed(p, t, i, own_key(p.ty(i), i));
    } else if !t.by_inst.contains_key(i.0) {
        let (next, nums) = all_numbered(p, s, t, p.args(i), 0, Seq::empty(), (fuel - 1) as nat);
        lemma_all_numbered_typed(p, s, t, p.args(i), 0, Seq::empty(), (fuel - 1) as nat);
        lemma_interned_typed(p, next, i, key_of(p, i, nums));
    }
}

proof fn lemma_all_numbered_typed(
    p: ProgramV,
    s: ScopeV,
    t: NumbersV,
    args: Seq<Inst>,
    from: int,
    nums: Seq<usize>,
    fuel: nat,
)
    requires
        numbers_typed(p, t),
        all_numbered(p, s, t, args, from, nums, fuel).0.keys.len() < usize::MAX,
    ensures
        numbers_typed(p, all_numbered(p, s, t, args, from, nums, fuel).0),
        extends(t, all_numbered(p, s, t, args, from, nums, fuel).0),
    decreases fuel, 1int, args.len() - from,
{
    if from < args.len() {
        let (next, n) = numbered(p, s, t, args[from], fuel);
        lemma_keys_grow(p, s, next, args, from + 1, nums.push(n), fuel);
        lemma_numbered_typed(p, s, t, args[from], fuel);
        lemma_all_numbered_typed(p, s, next, args, from + 1, nums.push(n), fuel);
        let r = all_numbered(p, s, next, args, from + 1, nums.push(n), fuel).0;
        assert forall|j: int| 0 <= j < t.keys.len() implies #[trigger] r.keys[j] == t.keys[j] by {
            assert(next.keys[j] == t.keys[j]);
        }
    }
}

/// A longer table keeps what the leaders stand for.
proof fn lemma_table_grows(
    p: ProgramV,
    st: WalkV,
    t: NumbersV,
    m: Meaning,
    env: spec_fn(Inst) -> int,
    vals: Seq<int>,
    more: Seq<int>,
)
    requires
        holds(p, st, m, env, vals),
        fits(m, env, t, more),
        numbers_typed(p, t),
        extends(st.numbers, t),
        vals.len() <= more.len(),
        forall|j: int| 0 <= j < vals.len() ==> vals[j] == more[j],
    ensures
        holds(p, WalkV { numbers: t, ..st }, m, env, more),
{
    let next = WalkV { numbers: t, ..st };
    assert forall|x: usize| #[trigger] next.leaders.contains_key(x) implies stands_for(
        p,
        env,
        t,
        more,
        x,
        next.leaders[x],
    ) by {
        assert(st.leaders.contains_key(x));
        assert(t.keys[x as int] == st.numbers.keys[x as int]);
    }
    assert forall|k: int| 0 <= k < next.calls.len() implies called_as(p, env, t, more, #[trigger] next.calls[k]) by {
        let c = st.calls[k];
        assert(called_as(p, env, st.numbers, vals, c));
        assert(t.keys[c.number as int] == st.numbers.keys[c.number as int]);
        let nums = t.keys[c.number as int].args;
        assert forall|j: int| 0 <= j < nums.len() implies (#[trigger] nums[j]) < more.len() && more[nums[j] as int] == env(
            p.args(c.leader)[j],
        ) by {
            assert(nums[j] < vals.len());
        }
    }
}

proof fn lemma_typed_alike(p: ProgramV, q: ProgramV, t: NumbersV)
    requires
        numbers_typed(p, t),
        forall|i: Inst| #[trigger] q.ty(i) == p.ty(i),
    ensures
        numbers_typed(q, t),
{
    assert forall|i: usize| #[trigger] t.by_inst.contains_key(i) implies t.by_inst[i] < t.keys.len()
        && t.keys[t.by_inst[i] as int].ty == q.ty(Inst(i)) by {
        assert(q.ty(Inst(i)) == p.ty(Inst(i)));
    }
}

/// Numbering one more value of a program like `p` keeps what the leaders stand for.
proof fn lemma_number_holds(
    p: ProgramV,
    q: ProgramV,
    plan: PlanV,
    st: WalkV,
    v: Inst,
    m: Meaning,
    env: spec_fn(Inst) -> int,
    vals: Seq<int>,
) -> (more: Seq<int>)
    requires
        alike(p, q, env),
        computes(p, plan.scope, m, env),
        symmetric(m),
        holds(p, st, m, env, vals),
        numbered(q, plan.scope, st.numbers, v, plan.fuel).0.keys.len() < usize::MAX,
    ensures
        ({
            let (t, n) = numbered(q, plan.scope, st.numbers, v, plan.fuel);
            holds(p, WalkV { numbers: t, ..st }, m, env, more) && stands_for(p, env, t, more, n, v)
        }),
{
    let (t, n) = numbered(q, plan.scope, st.numbers, v, plan.fuel);
    lemma_alike_computes(p, q, plan.scope, m, env);
    lemma_typed_alike(p, q, st.numbers);
    lemma_numbered_typed(q, plan.scope, st.numbers, v, plan.fuel);
    let more = numbering_is_sound(q, plan.scope, m, env, st.numbers, vals, v, plan.fuel);
    assert(q.ty(v) == p.ty(v));
    lemma_typed_alike(q, p, t);
    lemma_table_grows(p, st, t, m, env, vals, more);
    more
}

/// Numbering what a call calls, and with which arguments, keeps what the leaders stand for.
proof fn lemma_call_holds(
    p: ProgramV,
    q: ProgramV,
    plan: PlanV,
    st: WalkV,
    v: Inst,
    g: Function,
    m: Meaning,
    env: spec_fn(Inst) -> int,
    vals: Seq<int>,
) -> (more: Seq<int>)
    requires
        alike(p, q, env),
        p.op(v) == Op::Call(g),
        computes(p, plan.scope, m, env),
        symmetric(m),
        holds(p, st, m, env, vals),
        call_numbered(q, plan.scope, st.numbers, v, plan.fuel).0.keys.len() < usize::MAX,
    ensures
        ({
            let (t, n) = call_numbered(q, plan.scope, st.numbers, v, plan.fuel);
            holds(p, WalkV { numbers: t, ..st }, m, env, more) && called_as(
                p,
                env,
                t,
                more,
                CallLeader { number: n, leader: v, callee: g },
            )
        }),
{
    let args = q.args(v);
    let (mid, nums) = all_numbered(q, plan.scope, st.numbers, args, 0, Seq::empty(), plan.fuel);
    let key = key_of(q, v, nums);
    let (t, n) = listed(mid, key);
    lemma_alike_computes(p, q, plan.scope, m, env);
    lemma_typed_alike(p, q, st.numbers);
    lemma_number_of_key(mid.keys, key, 0);
    assert(mid.keys.len() <= t.keys.len());
    lemma_all_numbered_typed(q, plan.scope, st.numbers, args, 0, Seq::empty(), plan.fuel);
    let some = lemma_all_numbered(q, plan.scope, m, env, st.numbers, vals, args, 0, Seq::empty(), plan.fuel);
    assert(operands_alike(p, q, env, v));
    assert(key.args == nums);
    let more = lemma_listed(m, env, mid, some, key);
    assert(numbers_typed(q, t)) by {
        assert forall|i: usize| #[trigger] t.by_inst.contains_key(i) implies t.by_inst[i] < t.keys.len()
            && t.keys[t.by_inst[i] as int].ty == q.ty(Inst(i)) by {
            assert(mid.by_inst.contains_key(i));
        }
    }
    assert(extends(st.numbers, t)) by {
        assert forall|j: int| 0 <= j < st.numbers.keys.len() implies #[trigger] t.keys[j] == st.numbers.keys[j] by {
            assert(mid.keys[j] == st.numbers.keys[j]);
        }
    }
    lemma_typed_alike(q, p, t);
    lemma_table_grows(p, st, t, m, env, vals, more);
    assert(q.ty(v) == p.ty(v));
    assert forall|j: int| 0 <= j < nums.len() implies (#[trigger] nums[j]) < more.len() && more[nums[j] as int] == env(
        p.args(v)[j],
    ) by {
        assert(env(q.args(v)[j]) == env(p.args(v)[j]));
    }
    more
}

pub(crate) proof fn lemma_call_leader(calls: Seq<CallLeader>, n: usize, g: Function, from: int)
    requires
        0 <= from,
    ensures
        call_leader(calls, n, g, from) matches Some(l) ==> exists|k: int|
            0 <= k < calls.len() && (#[trigger] calls[k]).number == n && calls[k].leader == l
                && calls[k].callee == g,
    decreases calls.len() - from,
{
    if from < calls.len() {
        if calls[from].number != n || calls[from].callee != g {
            lemma_call_leader(calls, n, g, from + 1);
        }
    }
}

/// The leaders that a write by `w` leaves are those whose callee cannot read what it writes.
proof fn lemma_spared(a: ProgramV, w: Writer, calls: Seq<CallLeader>, from: int, found: Seq<CallLeader>)
    requires
        0 <= from <= calls.len(),
    ensures
        forall|c: CallLeader| #[trigger]
            spared(a, w, calls, from, found).contains(c) <==> found.contains(c) || (calls.skip(from).contains(c)
                && !hits(a, w, c.callee)),
    decreases calls.len() - from,
{
    let r = spared(a, w, calls, from, found);
    if from < calls.len() {
        let here = calls[from];
        let next = if hits(a, w, here.callee) {
            found
        } else {
            found.push(here)
        };
        assert(r == spared(a, w, calls, from + 1, next));
        lemma_spared(a, w, calls, from + 1, next);
        assert forall|c: CallLeader| #[trigger]
            r.contains(c) <==> found.contains(c) || (calls.skip(from).contains(c) && !hits(a, w, c.callee)) by {
            assert(calls.skip(from)[0] == here);
            if calls.skip(from + 1).contains(c) {
                let k = calls.skip(from + 1).index_of(c);
                assert(calls.skip(from)[k + 1] == c);
            }
            if calls.skip(from).contains(c) && c != here {
                let k = calls.skip(from).index_of(c);
                assert(k > 0);
                assert(calls.skip(from + 1)[k - 1] == c);
            }
            if found.contains(c) {
                let k = found.index_of(c);
                assert(next[k] == c);
            }
            if next.contains(c) && !found.contains(c) {
                let k = next.index_of(c);
                assert(k == found.len());
            }
            if !hits(a, w, here.callee) {
                assert(next[found.len() as int] == here);
            }
        }
    } else {
        assert(calls.skip(from) =~= Seq::empty());
    }
}

/// The leaders of `next` are leaders of `st`.
pub open spec fn fewer(st: WalkV, next: WalkV) -> bool {
    &&& next.numbers == st.numbers
    &&& next.leaders.submap_of(st.leaders)
    &&& next.loads.submap_of(st.loads)
    &&& forall|k: int| 0 <= k < next.calls.len() ==> st.calls.contains(#[trigger] next.calls[k])
}

proof fn lemma_fewer_holds(
    p: ProgramV,
    st: WalkV,
    next: WalkV,
    m: Meaning,
    env: spec_fn(Inst) -> int,
    vals: Seq<int>,
)
    requires
        holds(p, st, m, env, vals),
        fewer(st, next),
    ensures
        holds(p, next, m, env, vals),
{
    assert forall|n: usize| #[trigger] next.leaders.contains_key(n) implies stands_for(
        p,
        env,
        next.numbers,
        vals,
        n,
        next.leaders[n],
    ) by {
        assert(next.leaders.dom().contains(n));
        assert(st.leaders.contains_key(n));
    }
    assert forall|x: usize| #[trigger] next.loads.contains_key(x) implies loaded_from(p, env, x, next.loads[x]) by {
        assert(next.loads.dom().contains(x));
        assert(st.loads.contains_key(x));
    }
    assert forall|k: int| 0 <= k < next.calls.len() implies called_as(
        p,
        env,
        next.numbers,
        vals,
        #[trigger] next.calls[k],
    ) by {
        let j = st.calls.index_of(next.calls[k]);
        assert(st.calls[j] == next.calls[k]);
    }
}

pub(crate) proof fn lemma_write_fewer(a: ProgramV, st: WalkV, w: Writer)
    ensures
        fewer(st, write_seen(a, st, w)),
        fewer(st, WalkV { calls: spared(a, w, st.calls, 0, Seq::empty()), ..st }),
{
    let r = spared(a, w, st.calls, 0, Seq::empty());
    lemma_spared(a, w, st.calls, 0, Seq::empty());
    assert(st.calls.skip(0) =~= st.calls);
    assert forall|k: int| 0 <= k < r.len() implies st.calls.contains(#[trigger] r[k]) by {
        assert(r.contains(r[k]));
    }
}

pub(crate) proof fn lemma_memory_fewer(a: ProgramV, st: WalkV, v: Inst)
    ensures
        fewer(st, memory_seen(a, st, v)),
{
    assert forall|k: int| 0 <= k < st.calls.len() implies st.calls.contains(#[trigger] st.calls[k]) by {}
    match writer_of(a, v) {
        Some(w) => lemma_write_fewer(a, st, w),
        None => {},
    }
}

/// What a loop spares of `calls[from..]`, and the rest of `found`.
pub(crate) proof fn lemma_loop_spared(
    a: ProgramV,
    tree: TreeV,
    way: Seq<BasicBlock>,
    b: BasicBlock,
    calls: Seq<CallLeader>,
    from: int,
    found: Seq<CallLeader>,
)
    requires
        0 <= from <= calls.len(),
        forall|k: int|
            0 <= k < found.len() ==> calls.contains(#[trigger] found[k]) && !loop_hits(
                a,
                tree,
                way,
                b,
                found[k].callee,
                0,
            ),
    ensures
        ({
            let r = loop_spared(a, tree, way, b, calls, from, found);
            forall|k: int|
                0 <= k < r.len() ==> calls.contains(#[trigger] r[k]) && !loop_hits(a, tree, way, b, r[k].callee, 0)
        }),
    decreases calls.len() - from,
{
    if from < calls.len() {
        let next = if loop_hits(a, tree, way, b, calls[from].callee, 0) {
            found
        } else {
            found.push(calls[from])
        };
        assert(loop_spared(a, tree, way, b, calls, from, found) == loop_spared(a, tree, way, b, calls, from + 1, next));
        assert forall|k: int| 0 <= k < next.len() implies calls.contains(#[trigger] next[k]) && !loop_hits(
            a,
            tree,
            way,
            b,
            next[k].callee,
            0,
        ) by {
            if k < found.len() {
                assert(next[k] == found[k]);
            } else {
                assert(next[k] == calls[from]);
            }
        }
        lemma_loop_spared(a, tree, way, b, calls, from + 1, next);
    }
}

pub(crate) proof fn lemma_header_fewer(a: ProgramV, tree: TreeV, way: Seq<BasicBlock>, st: WalkV, b: BasicBlock)
    ensures
        fewer(st, header_seen(a, tree, way, st, b)),
{
    assert forall|k: int| 0 <= k < st.calls.len() implies st.calls.contains(#[trigger] st.calls[k]) by {}
    lemma_loop_spared(a, tree, way, b, st.calls, 0, Seq::empty());
}

pub(crate) proof fn lemma_keys_dropped(m: Map<usize, Inst>, keys: Seq<usize>, from: int)
    requires
        0 <= from <= keys.len(),
    ensures
        keys_dropped(m, keys, from).submap_of(m),
        forall|x: usize| #[trigger]
            keys_dropped(m, keys, from).contains_key(x) <==> m.contains_key(x) && !keys.skip(from).contains(x),
    decreases keys.len() - from,
{
    if from < keys.len() {
        lemma_keys_dropped(m.remove(keys[from]), keys, from + 1);
        assert forall|x: usize| #[trigger]
            keys_dropped(m, keys, from).contains_key(x) <==> m.contains_key(x) && !keys.skip(from).contains(x) by {
            assert(keys.skip(from)[0] == keys[from]);
            if keys.skip(from + 1).contains(x) {
                let k = keys.skip(from + 1).index_of(x);
                assert(keys.skip(from)[k + 1] == x);
            }
            if keys.skip(from).contains(x) && x != keys[from] {
                let k = keys.skip(from).index_of(x);
                assert(keys.skip(from + 1)[k - 1] == x);
            }
        }
    } else {
        assert(keys.skip(from) =~= Seq::empty());
    }
}

proof fn lemma_calls_dropped(calls: Seq<CallLeader>, numbers: Seq<usize>, from: int, found: Seq<CallLeader>)
    requires
        0 <= from <= calls.len(),
        forall|k: int| 0 <= k < found.len() ==> calls.contains(#[trigger] found[k]),
    ensures
        forall|k: int|
            0 <= k < calls_dropped(calls, numbers, from, found).len() ==> calls.contains(
                #[trigger] calls_dropped(calls, numbers, from, found)[k],
            ),
    decreases calls.len() - from,
{
    if from < calls.len() {
        let next = if numbers.contains(calls[from].number) {
            found
        } else {
            found.push(calls[from])
        };
        assert(calls_dropped(calls, numbers, from, found) == calls_dropped(calls, numbers, from + 1, next));
        assert forall|k: int| 0 <= k < next.len() implies calls.contains(#[trigger] next[k]) by {
            if k < found.len() {
                assert(next[k] == found[k]);
            } else {
                assert(next[k] == calls[from]);
            }
        }
        lemma_calls_dropped(calls, numbers, from + 1, next);
    }
}

pub(crate) proof fn lemma_left_fewer(st: WalkV, added: AddedV)
    ensures
        fewer(st, left(st, added)),
{
    lemma_keys_dropped(st.leaders, added.leaders, 0);
    lemma_keys_dropped(st.loads, added.loads, 0);
    lemma_calls_dropped(st.calls, added.calls, 0, Seq::empty());
}

proof fn lemma_seen_grows(a: ProgramV, p: ProgramV, plan: PlanV, st: WalkV, v: Inst, added: AddedV)
    ensures
        st.numbers.keys.len() <= seen(a, p, plan, st, v, added).1.numbers.keys.len(),
{
    let addr = p.arg(v, 0);
    let (q, next) = led(p, st, v, st.loads[addr.0]);
    lemma_one_grows(q, plan.scope, next.numbers, v, plan.fuel);
    lemma_one_grows(p, plan.scope, st.numbers, v, plan.fuel);
    let mid = memory_seen(a, st, v);
    lemma_one_grows(p, plan.scope, mid.numbers, v, plan.fuel);
    lemma_call_grows(p, plan, mid.numbers, v);
    let table = call_numbered(p, plan.scope, mid.numbers, v, plan.fuel).0;
    lemma_one_grows(p, plan.scope, table, v, plan.fuel);
}

proof fn lemma_call_grows(p: ProgramV, plan: PlanV, t: NumbersV, v: Inst)
    ensures
        t.keys.len() <= call_numbered(p, plan.scope, t, v, plan.fuel).0.keys.len(),
{
    lemma_keys_grow(p, plan.scope, t, p.args(v), 0, Seq::empty(), plan.fuel);
}

/// A value visited: the leaders still have the values that they stand for, and the program acts as it did.
proof fn lemma_seen(
    p: ProgramV,
    q: ProgramV,
    f: Function,
    plan: PlanV,
    tree: TreeV,
    order: Seq<BasicBlock>,
    st: WalkV,
    n: int,
    j: int,
    v: Inst,
    added: AddedV,
    m: Meaning,
    env: spec_fn(Inst) -> int,
    vals: Seq<int>,
) -> (more: Seq<int>)
    requires
        is_setting(p, f, plan, tree, order),
        0 <= n < plan.way.len(),
        stands(p, plan.way[n], j, v),
        leaders_above(q, tree, st, plan.way[n], j),
        all_calm(p, tree, plan.way, st, n, j, n + 1),
        replaced_quietly(p, q, f, plan.way, n, j),
        alike(p, q, env),
        computes(p, plan.scope, m, env),
        symmetric(m),
        loads_typed(p),
        changes_by_writes(p, f, env),
        holds(p, st, m, env, vals),
        seen(p, q, plan, st, v, added).1.numbers.keys.len() < usize::MAX,
    ensures
        alike(p, seen(p, q, plan, st, v, added).0, env),
        holds(p, seen(p, q, plan, st, v, added).1, m, env, more),
{
    let (end, done, _) = seen(p, q, plan, st, v, added);
    lemma_alike_computes(p, q, plan.scope, m, env);
    lemma_seen_quiet(p, q, f, plan, tree, order, st, added, n, j, v);
    assert(operands_alike(p, q, env, v));
    if q.op(v) is Load {
        let addr = q.arg(v, 0);
        assert(p.op(v) is Load);
        assert(q.args(v)[0] == addr);
        assert(env(addr) == env(p.args(v)[0]) && q.ty(addr) == p.ty(p.args(v)[0])) by {
            assert(env(q.args(v)[0]) == env(p.args(v)[0]));
        }
        assert(p.ty(addr) == q.ty(addr));
        assert(Inst(addr.0) == addr);
        if st.loads.contains_key(addr.0) {
            let l = st.loads[addr.0];
            assert(loaded_from(p, env, addr.0, l));
            assert(p.args(l).map_values(env) =~= p.args(v).map_values(env));
            assert(p.ty(l) == p.ty(v));
            lemma_comes_first(p, q, tree, l, v, plan.way[n], j);
            assert(same_if_quiet(p, f, env, l, v));
            assert(q.ty(l) == p.ty(l) && q.ty(v) == p.ty(v));
            lemma_led(q, st, v, l, env);
            let (r, next) = led(q, st, v, l);
            lemma_alike_chain(p, q, r, env);
            lemma_number_holds(p, r, plan, next, v, m, env, vals)
        } else {
            let more = lemma_number_holds(p, q, plan, st, v, m, env, vals);
            let base = WalkV { numbers: numbered(q, plan.scope, st.numbers, v, plan.fuel).0, ..st };
            assert forall|x: usize| #[trigger] done.loads.contains_key(x) implies loaded_from(p, env, x, done.loads[x]) by {
                if x != addr.0 {
                    assert(base.loads.contains_key(x));
                }
            }
            more
        }
    } else {
        let mid = memory_seen(p, st, v);
        lemma_memory_fewer(p, st, v);
        lemma_fewer_holds(p, st, mid, m, env, vals);
        match q.op(v) {
            Op::Call(g) => {
                if is_pure(plan, g) {
                    let (table, number) = call_numbered(q, plan.scope, mid.numbers, v, plan.fuel);
                    let numbers = numbered(q, plan.scope, table, v, plan.fuel).0;
                    let here = CallLeader { number, leader: v, callee: g };
                    lemma_one_grows(q, plan.scope, table, v, plan.fuel);
                    let some = lemma_call_holds(p, q, plan, mid, v, g, m, env, vals);
                    // The call is called as its own leader would be.
                    let listed_too = WalkV { calls: mid.calls.push(here), numbers: table, ..mid };
                    assert forall|k: int| 0 <= k < listed_too.calls.len() implies called_as(
                        p,
                        env,
                        table,
                        some,
                        #[trigger] listed_too.calls[k],
                    ) by {
                        if k < mid.calls.len() {
                            assert(listed_too.calls[k] == (WalkV { numbers: table, ..mid }).calls[k]);
                        }
                    }
                    assert(holds(p, listed_too, m, env, some)) by {
                        let base = WalkV { numbers: table, ..mid };
                        assert(holds(p, base, m, env, some));
                        assert forall|x: usize| #[trigger] listed_too.leaders.contains_key(x) implies stands_for(
                            p,
                            env,
                            table,
                            some,
                            x,
                            listed_too.leaders[x],
                        ) by {
                            assert(base.leaders.contains_key(x));
                        }
                        assert forall|x: usize| #[trigger] listed_too.loads.contains_key(x) implies loaded_from(
                            p,
                            env,
                            x,
                            listed_too.loads[x],
                        ) by {
                            assert(base.loads.contains_key(x));
                        }
                    }
                    let more = lemma_number_holds(p, q, plan, listed_too, v, m, env, some);
                    let full = WalkV { numbers, ..listed_too };
                    let next = WalkV { numbers, ..mid };
                    assert(full.calls[mid.calls.len() as int] == here);
                    assert(called_as(p, env, numbers, more, here));
                    assert(fewer(full, next)) by {
                        assert forall|k: int| 0 <= k < next.calls.len() implies full.calls.contains(#[trigger] next.calls[k]) by {
                            assert(full.calls[k] == next.calls[k]);
                        }
                    }
                    lemma_fewer_holds(p, full, next, m, env, more);
                    lemma_call_leader(next.calls, number, g, 0);
                    match call_leader(next.calls, number, g, 0) {
                        Some(l) => {
                            let k = choose|k: int|
                                0 <= k < next.calls.len() && (#[trigger] next.calls[k]).number == number
                                    && next.calls[k].leader == l && next.calls[k].callee == g;
                            assert(called_as(p, env, numbers, more, next.calls[k]));
                            assert(mid.calls[k] == next.calls[k]);
                            assert(quiet_between(p, f, l, v));
                            assert(above(q, tree, l, plan.way[n], j)) by {
                                lemma_memory_fewer(p, st, v);
                                assert(st.calls.contains(mid.calls[k]));
                                let i = st.calls.index_of(mid.calls[k]);
                                assert(st.calls[i].leader == l);
                            }
                            lemma_comes_first(p, q, tree, l, v, plan.way[n], j);
                            assert(p.args(l).map_values(env) =~= p.args(v).map_values(env)) by {
                                let nums = numbers.keys[number as int].args;
                                assert forall|i: int| 0 <= i < p.args(l).len() implies env(#[trigger] p.args(l)[i]) == env(
                                    p.args(v)[i],
                                ) by {
                                    assert(nums[i] < more.len());
                                }
                            }
                            assert(same_if_quiet(p, f, env, l, v));
                            assert(q.ty(l) == p.ty(l) && q.ty(v) == p.ty(v));
                            lemma_led(q, next, v, l, env);
                            lemma_alike_chain(p, q, led(q, next, v, l).0, env);
                        },
                        None => {
                            assert(done == full);
                        },
                    }
                    more
                } else {
                    lemma_number_holds(p, q, plan, mid, v, m, env, vals)
                }
            },
            _ => {
                let (numbers, number) = numbered(q, plan.scope, mid.numbers, v, plan.fuel);
                let next = WalkV { numbers, ..mid };
                let more = lemma_number_holds(p, q, plan, mid, v, m, env, vals);
                if expressible(q, plan.scope, v) {
                    if next.leaders.contains_key(number) {
                        let l = next.leaders[number];
                        assert(stands_for(p, env, numbers, more, number, l));
                        assert(q.ty(l) == p.ty(l) && q.ty(v) == p.ty(v));
                        lemma_led(q, next, v, l, env);
                        lemma_alike_chain(p, q, led(q, next, v, l).0, env);
                    } else {
                        assert forall|x: usize| #[trigger] done.leaders.contains_key(x) implies stands_for(
                            p,
                            env,
                            done.numbers,
                            more,
                            x,
                            done.leaders[x],
                        ) by {
                            if x != number {
                                assert(next.leaders.contains_key(x));
                            }
                        }
                    }
                }
                more
            },
        }
    }
}

proof fn lemma_all_seen_grows(
    a: ProgramV,
    p: ProgramV,
    plan: PlanV,
    st: WalkV,
    values: Seq<Inst>,
    from: int,
    added: AddedV,
)
    ensures
        st.numbers.keys.len() <= all_seen(a, p, plan, st, values, from, added).1.numbers.keys.len(),
    decreases values.len() - from,
{
    if from < values.len() {
        let (q, next, more) = seen(a, p, plan, st, values[from], added);
        lemma_seen_grows(a, p, plan, st, values[from], added);
        lemma_all_seen_grows(a, q, plan, next, values, from + 1, more);
    }
}

proof fn lemma_walked_grows(
    a: ProgramV,
    p: ProgramV,
    plan: PlanV,
    tree: TreeV,
    order: Seq<BasicBlock>,
    st: WalkV,
    b: BasicBlock,
    depth: nat,
)
    ensures
        st.numbers.keys.len() <= walked(a, p, plan, tree, order, st, b, depth).1.numbers.keys.len(),
    decreases depth, 0int, 0int,
{
    if depth > 0 {
        let values = p.block(b).params + p.block(b).insts;
        let start = header_seen(a, tree, plan.way, st, b);
        let (q, next, added) = all_seen(a, p, plan, start, values, 0, nothing_added());
        lemma_all_seen_grows(a, p, plan, start, values, 0, nothing_added());
        let below = children_from(tree, order, b, 0, Seq::empty());
        lemma_all_walked_grows(a, q, plan, tree, order, next, below, 0, (depth - 1) as nat);
    }
}

proof fn lemma_all_walked_grows(
    a: ProgramV,
    p: ProgramV,
    plan: PlanV,
    tree: TreeV,
    order: Seq<BasicBlock>,
    st: WalkV,
    blocks: Seq<BasicBlock>,
    from: int,
    depth: nat,
)
    ensures
        st.numbers.keys.len() <= all_walked(a, p, plan, tree, order, st, blocks, from, depth).1.numbers.keys.len(),
    decreases depth, 1int, blocks.len() - from,
{
    if from < blocks.len() {
        let (q, next) = walked(a, p, plan, tree, order, st, blocks[from], depth);
        lemma_walked_grows(a, p, plan, tree, order, st, blocks[from], depth);
        lemma_all_walked_grows(a, q, plan, tree, order, next, blocks, from + 1, depth);
    }
}

proof fn lemma_all_seen(
    p: ProgramV,
    q: ProgramV,
    f: Function,
    plan: PlanV,
    tree: TreeV,
    order: Seq<BasicBlock>,
    base: WalkV,
    st: WalkV,
    n: int,
    from: int,
    added: AddedV,
    m: Meaning,
    env: spec_fn(Inst) -> int,
    vals: Seq<int>,
) -> (more: Seq<int>)
    requires
        is_setting(p, f, plan, tree, order),
        0 <= n < plan.way.len(),
        placed_once(q),
        defined_above(q, tree),
        0 <= from <= values_of(p, plan.way[n]).len(),
        leaders_above(q, tree, st, plan.way[n], from),
        inherits(base, st, added),
        all_calm(p, tree, plan.way, st, n, from, n + 1),
        replaced_quietly(p, q, f, plan.way, n, from),
        alike(p, q, env),
        computes(p, plan.scope, m, env),
        symmetric(m),
        loads_typed(p),
        changes_by_writes(p, f, env),
        holds(p, st, m, env, vals),
        all_seen(p, q, plan, st, values_of(p, plan.way[n]), from, added).1.numbers.keys.len() < usize::MAX,
    ensures
        alike(p, all_seen(p, q, plan, st, values_of(p, plan.way[n]), from, added).0, env),
        holds(p, all_seen(p, q, plan, st, values_of(p, plan.way[n]), from, added).1, m, env, more),
    decreases values_of(p, plan.way[n]).len() - from,
{
    let b = plan.way[n];
    let values = values_of(p, b);
    if from >= values.len() {
        vals
    } else {
        let v = values[from];
        assert(values_of(q, b) == values);
        assert(stands(p, b, from, v) && stands(q, b, from, v));
        let (r, next, more) = seen(p, q, plan, st, v, added);
        lemma_all_seen_grows(p, r, plan, next, values, from + 1, more);
        let mid = lemma_seen(p, q, f, plan, tree, order, st, n, from, v, added, m, env, vals);
        lemma_seen_quiet(p, q, f, plan, tree, order, st, added, n, from, v);
        lemma_seen_above(p, q, plan, tree, base, st, added, b, from, v);
        lemma_places_stay(q, r);
        lemma_all_seen(p, r, f, plan, tree, order, base, next, n, from + 1, more, m, env, mid)
    }
}

proof fn lemma_walked(
    p: ProgramV,
    q: ProgramV,
    f: Function,
    plan: PlanV,
    tree: TreeV,
    order: Seq<BasicBlock>,
    st: WalkV,
    b: BasicBlock,
    n: int,
    depth: nat,
    m: Meaning,
    env: spec_fn(Inst) -> int,
    vals: Seq<int>,
) -> (more: Seq<int>)
    requires
        is_setting(p, f, plan, tree, order),
        placed_once(q),
        defined_above(q, tree),
        leaders_above(q, tree, st, b, 0),
        all_calm(p, tree, plan.way, st, n, 0, n),
        replaced_quietly(p, q, f, plan.way, n, 0),
        0 <= n,
        n + way_from(tree, order, b, depth).len() <= plan.way.len(),
        plan.way.subrange(n, n + way_from(tree, order, b, depth).len()) == way_from(tree, order, b, depth),
        alike(p, q, env),
        computes(p, plan.scope, m, env),
        symmetric(m),
        loads_typed(p),
        changes_by_writes(p, f, env),
        holds(p, st, m, env, vals),
        walked(p, q, plan, tree, order, st, b, depth).1.numbers.keys.len() < usize::MAX,
    ensures
        alike(p, walked(p, q, plan, tree, order, st, b, depth).0, env),
        holds(p, walked(p, q, plan, tree, order, st, b, depth).1, m, env, more),
    decreases depth, 0int, 0int,
{
    if depth == 0 {
        vals
    } else {
        let way = plan.way;
        let here = way_from(tree, order, b, depth);
        let blocks = children_from(tree, order, b, 0, Seq::empty());
        let rest = ways_from(tree, order, blocks, 0, (depth - 1) as nat);
        lemma_way_split(tree, order, way, b, n, depth);
        let values = values_of(q, b);
        assert(values == values_of(p, b));
        let start = header_seen(p, tree, way, st, b);
        let (r, next, added) = all_seen(p, q, plan, start, values, 0, nothing_added());
        let (t, done) = all_walked(p, r, plan, tree, order, next, blocks, 0, (depth - 1) as nat);
        assert(walked(p, q, plan, tree, order, st, b, depth) == (t, left(done, added)));
        lemma_all_walked_grows(p, r, plan, tree, order, next, blocks, 0, (depth - 1) as nat);
        lemma_header_calm(p, tree, way, st, n);
        lemma_header_fewer(p, tree, way, st, b);
        lemma_fewer_holds(p, st, start, m, env, vals);
        assert(subsides(st, start));
        assert(inherits(start, start, nothing_added())) by {
            assert forall|k: int| 0 <= k < start.calls.len() implies start.calls.contains(#[trigger] start.calls[k]) by {}
        }
        lemma_subsides_above(q, tree, st, start, b, 0);
        lemma_all_seen_quiet(p, q, f, plan, tree, order, start, start, n, 0, nothing_added());
        lemma_all_seen_above(p, q, plan, tree, start, start, b, values, 0, nothing_added());
        let mid = lemma_all_seen(p, q, f, plan, tree, order, start, start, n, 0, nothing_added(), m, env, vals);
        lemma_places_stay(q, r);
        lemma_next_block_calm(p, tree, way, next, n);
        lemma_replaced_on(p, r, f, way, n, values.len() as int, n + 1, 0);
        lemma_children_below(tree, order, b, 0, Seq::empty());
        let more = lemma_all_walked(
            p,
            r,
            f,
            plan,
            tree,
            order,
            next,
            b,
            values.len() as int,
            blocks,
            0,
            n + 1,
            (depth - 1) as nat,
            m,
            env,
            mid,
        );
        lemma_left_fewer(done, added);
        lemma_fewer_holds(p, done, left(done, added), m, env, more);
        more
    }
}

proof fn lemma_all_walked(
    p: ProgramV,
    q: ProgramV,
    f: Function,
    plan: PlanV,
    tree: TreeV,
    order: Seq<BasicBlock>,
    st: WalkV,
    b: BasicBlock,
    end: int,
    blocks: Seq<BasicBlock>,
    from: int,
    n: int,
    depth: nat,
    m: Meaning,
    env: spec_fn(Inst) -> int,
    vals: Seq<int>,
) -> (more: Seq<int>)
    requires
        is_setting(p, f, plan, tree, order),
        placed_once(q),
        defined_above(q, tree),
        leaders_above(q, tree, st, b, end),
        crate::scoping::below(tree, b, blocks),
        all_calm(p, tree, plan.way, st, n, 0, n),
        replaced_quietly(p, q, f, plan.way, n, 0),
        0 <= from,
        0 <= n,
        n + ways_from(tree, order, blocks, from, depth).len() <= plan.way.len(),
        plan.way.subrange(n, n + ways_from(tree, order, blocks, from, depth).len()) == ways_from(
            tree,
            order,
            blocks,
            from,
            depth,
        ),
        alike(p, q, env),
        computes(p, plan.scope, m, env),
        symmetric(m),
        loads_typed(p),
        changes_by_writes(p, f, env),
        holds(p, st, m, env, vals),
        all_walked(p, q, plan, tree, order, st, blocks, from, depth).1.numbers.keys.len() < usize::MAX,
    ensures
        alike(p, all_walked(p, q, plan, tree, order, st, blocks, from, depth).0, env),
        holds(p, all_walked(p, q, plan, tree, order, st, blocks, from, depth).1, m, env, more),
    decreases depth, 1int, blocks.len() - from,
{
    if from >= blocks.len() {
        vals
    } else {
        let c = blocks[from];
        let mid = n + way_from(tree, order, c, depth).len();
        lemma_ways_split(tree, order, plan.way, blocks, from, n, depth);
        lemma_leaders_move(q, q, tree, st, b, end, c, 0);
        let (r, next) = walked(p, q, plan, tree, order, st, c, depth);
        lemma_all_walked_grows(p, r, plan, tree, order, next, blocks, from + 1, depth);
        lemma_walked_quiet(p, q, f, plan, tree, order, st, c, n, depth);
        let some = lemma_walked(p, q, f, plan, tree, order, st, c, n, depth, m, env, vals);
        lemma_walked_above(p, q, plan, tree, order, st, c, depth);
        lemma_places_stay(q, r);
        lemma_leaders_move(q, r, tree, st, b, end, b, end);
        lemma_subsides_above(r, tree, st, next, b, end);
        lemma_all_walked(p, r, f, plan, tree, order, next, b, end, blocks, from + 1, mid, depth, m, env, some)
    }
}

/// How many numbers the walk over `f` gives.
pub open spec fn numbers_given(p: ProgramV, f: Function) -> nat {
    match entry_of(p, f) {
        None => 0,
        Some(entry) => {
            let order = reverse_postorder(p, f);
            walked(p, p, plan_of(p, f), tree_of(p, f), order, fresh_walk(), entry, order.len()).1.numbers.keys.len()
        },
    }
}

/// Replacing values by those computed before keeps the value of every operand of every instruction,
/// whatever the operations mean, where memory changes by writes only.
pub proof fn replacing_keeps_values(p: ProgramV, f: Function, m: Meaning, env: spec_fn(Inst) -> int)
    requires
        placed_once(p),
        defined_above(p, tree_of(p, f)),
        p.blocks.len() <= usize::MAX,
        computes(p, scope_of(), m, env),
        symmetric(m),
        loads_typed(p),
        changes_by_writes(p, f, env),
        numbers_given(p, f) < usize::MAX,
    ensures
        alike(p, reduced(p, f).0, env),
{
    lemma_alike_self(p, env);
    let order = reverse_postorder(p, f);
    if entry_of(p, f) is Some && order.len() > 0 {
        let entry = entry_of(p, f)->0;
        let st = fresh_walk();
        let plan = plan_of(p, f);
        assert(fits(m, env, st.numbers, Seq::empty()));
        assert(holds(p, st, m, env, Seq::empty()));
        lemma_setting(p, f);
        assert(plan.way.subrange(0, plan.way.len() as int) =~= plan.way);
        lemma_walked(p, p, f, plan, tree_of(p, f), order, st, entry, 0, order.len(), m, env, Seq::empty());
    }
}

/// A write leaves no load in the lead, unless it is a call that writes nothing, and of the calls exactly
/// those whose callee cannot read what is written.
pub proof fn invalidation_is_precise(a: ProgramV, st: WalkV, w: Writer)
    ensures
        write_seen(a, st, w).loads == (if spares_loads(a, w) {
            st.loads
        } else {
            Map::empty()
        }),
        forall|c: CallLeader| #[trigger]
            write_seen(a, st, w).calls.contains(c) <==> st.calls.contains(c) && !hits(a, w, c.callee),
        write_seen(a, st, w).leaders == st.leaders,
{
    lemma_spared(a, w, st.calls, 0, Seq::empty());
    assert(st.calls.skip(0) =~= st.calls);
}

} // verus!
