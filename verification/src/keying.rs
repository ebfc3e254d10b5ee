//! Which values share a number: those of one key, and never values of two types.

use vstd::prelude::*;

use crate::ir::{BinaryOp, Inst, Op, ProgramV};
use crate::numbering::{
    all_numbered, binary_key, expressible, interned, key_of, lemma_number_of_key, number_of_key, numbered, own_key, KeyV,
    NumbersV, ScopeV,
};

verus! {

/// The operands of a value that is numbered by what it computes come before it.
pub open spec fn is_ranked(p: ProgramV, s: ScopeV, rank: spec_fn(Inst) -> nat) -> bool {
    forall|i: Inst, k: int|
        expressible(p, s, i) && 0 <= k < p.args(i).len() ==> rank(#[trigger] p.args(i)[k]) < rank(i)
}

/// The numbers of the operands of `i`.
pub open spec fn operand_numbers(p: ProgramV, t: NumbersV, i: Inst) -> Seq<usize> {
    Seq::new(p.args(i).len(), |k: int| t.by_inst[p.args(i)[k].0])
}

/// All operands of `i` have numbers.
pub open spec fn operands_numbered(p: ProgramV, t: NumbersV, i: Inst) -> bool {
    forall|k: int| 0 <= k < p.args(i).len() ==> t.by_inst.contains_key((#[trigger] p.args(i)[k]).0)
}

/// Key `key` is one that value `i` may be numbered by: its own, or what it computes from the numbers of its
/// operands.
pub open spec fn is_key_of(p: ProgramV, s: ScopeV, t: NumbersV, i: Inst, key: KeyV) -> bool {
    key == own_key(p.ty(i), i) || (expressible(p, s, i) && operands_numbered(p, t, i) && key == key_of(
        p,
        i,
        operand_numbers(p, t, i),
    ))
}

/// The table is in order: no key has two numbers, and each value has the number of a key of its own.
pub open spec fn in_order(p: ProgramV, s: ScopeV, t: NumbersV) -> bool {
    &&& t.keys.len() <= usize::MAX
    &&& forall|m: int, n: int| 0 <= m < n < t.keys.len() ==> #[trigger] t.keys[m] != #[trigger] t.keys[n]
    &&& forall|x: usize| #[trigger]
        t.by_inst.contains_key(x) ==> t.by_inst[x] < t.keys.len() && is_key_of(
            p,
            s,
            t,
            Inst(x),
            t.keys[t.by_inst[x] as int],
        )
}

/// Table `more` says what `t` says, and more only of values of rank at most `r`.
pub open spec fn goes_on(t: NumbersV, more: NumbersV, rank: spec_fn(Inst) -> nat, r: nat) -> bool {
    &&& t.keys.len() <= more.keys.len()
    &&& forall|n: int| 0 <= n < t.keys.len() ==> #[trigger] more.keys[n] == t.keys[n]
    &&& forall|x: usize| #[trigger]
        t.by_inst.contains_key(x) ==> more.by_inst.contains_key(x) && more.by_inst[x] == t.by_inst[x]
    &&& forall|x: usize| #[trigger]
        more.by_inst.contains_key(x) && !t.by_inst.contains_key(x) ==> rank(Inst(x)) <= r
}

proof fn lemma_key_stays(p: ProgramV, s: ScopeV, t: NumbersV, more: NumbersV, i: Inst, key: KeyV)
    requires
        is_key_of(p, s, t, i, key),
        forall|x: usize| #[trigger]
            t.by_inst.contains_key(x) ==> more.by_inst.contains_key(x) && more.by_inst[x] == t.by_inst[x],
    ensures
        is_key_of(p, s, more, i, key),
{
    if key != own_key(p.ty(i), i) {
        assert forall|k: int| 0 <= k < p.args(i).len() implies more.by_inst.contains_key((#[trigger] p.args(i)[k]).0) by {
            assert(t.by_inst.contains_key(p.args(i)[k].0));
        }
        assert forall|k: int| 0 <= k < p.args(i).len() implies operand_numbers(p, more, i)[k] == operand_numbers(p, t, i)[k] by {
            assert(t.by_inst.contains_key(p.args(i)[k].0));
        }
        assert(operand_numbers(p, more, i) =~= operand_numbers(p, t, i));
    }
}

proof fn lemma_interned(p: ProgramV, s: ScopeV, t: NumbersV, rank: spec_fn(Inst) -> nat, i: Inst, key: KeyV)
    requires
        in_order(p, s, t),
        !t.by_inst.contains_key(i.0),
        is_key_of(p, s, t, i, key),
        t.keys.len() < usize::MAX,
    ensures
        ({
            let (more, n) = interned(t, i, key);
            &&& in_order(p, s, more)
            &&& goes_on(t, more, rank, rank(i))
            &&& more.by_inst.contains_key(i.0)
            &&& more.by_inst[i.0] == n
            &&& more.keys[n as int] == key
        }),
{
    let (more, n) = interned(t, i, key);
    lemma_number_of_key(t.keys, key, 0);
    let at = number_of_key(t.keys, key, 0);
    assert(more.keys[at] == key);
    assert forall|m: int, k: int| 0 <= m < k < more.keys.len() implies #[trigger] more.keys[m] != #[trigger] more.keys[k] by {
        if k == t.keys.len() {
            lemma_not_there(t.keys, key, 0, m);
        }
    }
    assert(Inst(i.0) == i);
    assert forall|x: usize| #[trigger] more.by_inst.contains_key(x) implies more.by_inst[x] < more.keys.len() && is_key_of(
        p,
        s,
        more,
        Inst(x),
        more.keys[more.by_inst[x] as int],
    ) by {
        if x == i.0 {
            lemma_key_stays(p, s, t, more, i, key);
        } else {
            assert(t.by_inst.contains_key(x));
            lemma_key_stays(p, s, t, more, Inst(x), t.keys[t.by_inst[x] as int]);
        }
    }
}

proof fn lemma_not_there(keys: Seq<KeyV>, key: KeyV, from: int, m: int)
    requires
        0 <= from <= m < keys.len(),
        number_of_key(keys, key, from) == keys.len(),
    ensures
        keys[m] != key,
    decreases m - from,
{
    if from < m {
        lemma_not_there(keys, key, from + 1, m);
    }
}

proof fn lemma_goes_on_twice(a: NumbersV, b: NumbersV, c: NumbersV, rank: spec_fn(Inst) -> nat, r: nat, q: nat)
    requires
        goes_on(a, b, rank, r),
        goes_on(b, c, rank, q),
    ensures
        goes_on(a, c, rank, if r > q { r } else { q }),
{
    assert forall|n: int| 0 <= n < a.keys.len() implies #[trigger] c.keys[n] == a.keys[n] by {
        assert(b.keys[n] == a.keys[n]);
    }
    assert forall|x: usize| #[trigger] a.by_inst.contains_key(x) implies c.by_inst.contains_key(x) && c.by_inst[x]
        == a.by_inst[x] by {
        assert(b.by_inst.contains_key(x));
    }
    assert forall|x: usize| #[trigger] c.by_inst.contains_key(x) && !a.by_inst.contains_key(x) implies rank(Inst(x)) <= (
    if r > q { r } else { q }) by {
        assert(b.by_inst.contains_key(x) || !b.by_inst.contains_key(x));
    }
}

/// Numbering a value keeps the table in order, leaves every number that was given, and gives the value a
/// number.
pub proof fn numbering_keeps_order(
    p: ProgramV,
    s: ScopeV,
    t: NumbersV,
    rank: spec_fn(Inst) -> nat,
    i: Inst,
    fuel: nat,
)
    requires
        in_order(p, s, t),
        is_ranked(p, s, rank),
        numbered(p, s, t, i, fuel).0.keys.len() < usize::MAX,
    ensures
        ({
            let (more, n) = numbered(p, s, t, i, fuel);
            &&& in_order(p, s, more)
            &&& goes_on(t, more, rank, rank(i))
            &&& more.by_inst.contains_key(i.0)
            &&& more.by_inst[i.0] == n
            &&& fuel > 0 && expressible(p, s, i) && !t.by_inst.contains_key(i.0) ==> operands_numbered(p, more, i)
                && more.keys[n as int] == key_of(p, i, operand_numbers(p, more, i))
        }),
    decreases fuel, 0int, 0int,
{
    if !t.by_inst.contains_key(i.0) {
        if fuel == 0 || !expressible(p, s, i) {
            let key = own_key(p.ty(i), i);
            lemma_number_of_key(t.keys, key, 0);
            lemma_interned(p, s, t, rank, i, key);
        } else {
            let (next, nums) = all_numbered(p, s, t, p.args(i), 0, Seq::empty(), (fuel - 1) as nat);
            let key = key_of(p, i, nums);
            lemma_number_of_key(next.keys, key, 0);
            assert(next.keys.len() <= numbered(p, s, t, i, fuel).0.keys.len());
            lemma_all_in_order(p, s, t, rank, p.args(i), 0, Seq::empty(), (fuel - 1) as nat, rank(i));
            assert(nums =~= operand_numbers(p, next, i)) by {
                assert forall|k: int| 0 <= k < nums.len() implies nums[k] == operand_numbers(p, next, i)[k] by {
                    assert(next.by_inst.contains_key(p.args(i)[k].0));
                }
            }
            assert(operands_numbered(p, next, i));
            if next.by_inst.contains_key(i.0) {
                assert(rank(Inst(i.0)) < rank(i));
                assert(Inst(i.0) == i);
            }
            lemma_interned(p, s, next, rank, i, key);
            let more = numbered(p, s, t, i, fuel).0;
            lemma_goes_on_twice(t, next, more, rank, rank(i), rank(i));
            assert forall|k: int| 0 <= k < p.args(i).len() implies more.by_inst.contains_key((#[trigger] p.args(i)[k]).0)
                && more.by_inst[p.args(i)[k].0] == next.by_inst[p.args(i)[k].0] by {
                assert(next.by_inst.contains_key(p.args(i)[k].0));
            }
            assert(operand_numbers(p, more, i) =~= operand_numbers(p, next, i));
        }
    }
}

proof fn lemma_all_in_order(
    p: ProgramV,
    s: ScopeV,
    t: NumbersV,
    rank: spec_fn(Inst) -> nat,
    args: Seq<Inst>,
    from: int,
    nums: Seq<usize>,
    fuel: nat,
    r: nat,
)
    requires
        0 <= from <= args.len(),
        nums.len() == from,
        in_order(p, s, t),
        is_ranked(p, s, rank),
        all_numbered(p, s, t, args, from, nums, fuel).0.keys.len() < usize::MAX,
        forall|k: int| 0 <= k < args.len() ==> rank(#[trigger] args[k]) < r,
        forall|k: int|
            0 <= k < from ==> t.by_inst.contains_key((#[trigger] args[k]).0) && t.by_inst[args[k].0] == nums[k],
    ensures
        ({
            let (more, all) = all_numbered(p, s, t, args, from, nums, fuel);
            &&& in_order(p, s, more)
            &&& goes_on(t, more, rank, (r - 1) as nat)
            &&& all.len() == args.len()
            &&& forall|k: int|
                0 <= k < args.len() ==> more.by_inst.contains_key((#[trigger] args[k]).0) && more.by_inst[args[k].0]
                    == all[k]
        }),
    decreases fuel, 1int, args.len() - from,
{
    if from < args.len() {
        let (next, n) = numbered(p, s, t, args[from], fuel);
        let more = all_numbered(p, s, t, args, from, nums, fuel).0;
        lemma_all_grow(p, s, next, args, from + 1, nums.push(n), fuel);
        assert(rank(args[from]) < r);
        numbering_keeps_order(p, s, t, rank, args[from], fuel);
        assert forall|k: int| 0 <= k < from + 1 implies next.by_inst.contains_key((#[trigger] args[k]).0)
            && next.by_inst[args[k].0] == nums.push(n)[k] by {
            if k < from {
                assert(t.by_inst.contains_key(args[k].0));
            }
        }
        lemma_all_in_order(p, s, next, rank, args, from + 1, nums.push(n), fuel, r);
        lemma_goes_on_twice(t, next, more, rank, rank(args[from]), (r - 1) as nat);
    }
}

proof fn lemma_grows(p: ProgramV, s: ScopeV, t: NumbersV, i: Inst, fuel: nat)
    ensures
        numbered(p, s, t, i, fuel).0.keys.len() >= t.keys.len(),
    decreases fuel, 0int, 0int,
{
    if !t.by_inst.contains_key(i.0) && fuel > 0 && expressible(p, s, i) {
        lemma_all_grow(p, s, t, p.args(i), 0, Seq::empty(), (fuel - 1) as nat);
    }
}

proof fn lemma_all_grow(p: ProgramV, s: ScopeV, t: NumbersV, args: Seq<Inst>, from: int, nums: Seq<usize>, fuel: nat)
    ensures
        all_numbered(p, s, t, args, from, nums, fuel).0.keys.len() >= t.keys.len(),
    decreases fuel, 1int, args.len() - from,
{
    if from < args.len() {
        let (next, n) = numbered(p, s, t, args[from], fuel);
        lemma_grows(p, s, t, args[from], fuel);
        lemma_all_grow(p, s, next, args, from + 1, nums.push(n), fuel);
    }
}

/// Table `more` has a number for `i` and all numbers that `t` has.
spec fn holds(t: NumbersV, more: NumbersV, i: Inst, n: usize) -> bool {
    &&& t.by_inst.submap_of(more.by_inst)
    &&& more.by_inst.contains_key(i.0)
    &&& more.by_inst[i.0] == n
}

proof fn lemma_holds(p: ProgramV, s: ScopeV, t: NumbersV, i: Inst, fuel: nat)
    ensures
        holds(t, numbered(p, s, t, i, fuel).0, i, numbered(p, s, t, i, fuel).1),
    decreases fuel, 0int, 0int,
{
    if !t.by_inst.contains_key(i.0) && fuel > 0 && expressible(p, s, i) {
        lemma_all_hold(p, s, t, p.args(i), 0, Seq::empty(), (fuel - 1) as nat);
    }
}

proof fn lemma_all_hold(p: ProgramV, s: ScopeV, t: NumbersV, args: Seq<Inst>, from: int, nums: Seq<usize>, fuel: nat)
    ensures
        t.by_inst.submap_of(all_numbered(p, s, t, args, from, nums, fuel).0.by_inst),
    decreases fuel, 1int, args.len() - from,
{
    if from < args.len() {
        let (next, n) = numbered(p, s, t, args[from], fuel);
        lemma_holds(p, s, t, args[from], fuel);
        lemma_all_hold(p, s, next, args, from + 1, nums.push(n), fuel);
        let all = all_numbered(p, s, next, args, from + 1, nums.push(n), fuel).0;
        assert forall|x: usize| #[trigger] t.by_inst.contains_key(x) implies all.by_inst.contains_key(x)
            && all.by_inst[x] == t.by_inst[x] by {
            assert(next.by_inst.contains_key(x));
            assert(all.by_inst.contains_key(x));
        }
    }
}

/// Numbering a value again gives the number that it has, whatever was numbered in between.
pub proof fn renumbering_gives_the_same(p: ProgramV, s: ScopeV, t: NumbersV, i: Inst, j: Inst, fuel: nat)
    ensures
        ({
            let (t1, n) = numbered(p, s, t, i, fuel);
            let t2 = numbered(p, s, t1, j, fuel).0;
            numbered(p, s, t2, i, fuel) == (t2, n)
        }),
{
    lemma_holds(p, s, t, i, fuel);
    lemma_holds(p, s, numbered(p, s, t, i, fuel).0, j, fuel);
}

/// Key `key` is the own key of `i`, or one of what `i` computes.
pub open spec fn suits(p: ProgramV, s: ScopeV, i: Inst, key: KeyV) -> bool {
    key == own_key(p.ty(i), i) || (expressible(p, s, i) && exists|nums: Seq<usize>| key == #[trigger] key_of(p, i, nums))
}

/// Each value has the number of a key that suits it.
pub open spec fn is_suited(p: ProgramV, s: ScopeV, t: NumbersV) -> bool {
    forall|x: usize| #[trigger]
        t.by_inst.contains_key(x) ==> t.by_inst[x] < t.keys.len() && suits(p, s, Inst(x), t.keys[t.by_inst[x] as int])
}

proof fn lemma_interned_suits(p: ProgramV, s: ScopeV, t: NumbersV, i: Inst, key: KeyV)
    requires
        is_suited(p, s, t),
        suits(p, s, i, key),
        interned(t, i, key).0.keys.len() <= usize::MAX,
    ensures
        is_suited(p, s, interned(t, i, key).0),
{
    let (more, n) = interned(t, i, key);
    lemma_number_of_key(t.keys, key, 0);
    assert(Inst(i.0) == i);
    assert forall|x: usize| #[trigger] more.by_inst.contains_key(x) implies more.by_inst[x] < more.keys.len() && suits(
        p,
        s,
        Inst(x),
        more.keys[more.by_inst[x] as int],
    ) by {
        if x != i.0 {
            assert(t.by_inst.contains_key(x));
            assert(more.keys[t.by_inst[x] as int] == t.keys[t.by_inst[x] as int]);
        }
    }
}

/// Numbering a value leaves every value with a key that suits it.
pub proof fn numbering_suits(p: ProgramV, s: ScopeV, t: NumbersV, i: Inst, fuel: nat)
    requires
        is_suited(p, s, t),
        numbered(p, s, t, i, fuel).0.keys.len() <= usize::MAX,
    ensures
        is_suited(p, s, numbered(p, s, t, i, fuel).0),
    decreases fuel, 0int, 0int,
{
    if !t.by_inst.contains_key(i.0) {
        if fuel == 0 || !expressible(p, s, i) {
            lemma_interned_suits(p, s, t, i, own_key(p.ty(i), i));
        } else {
            let (next, nums) = all_numbered(p, s, t, p.args(i), 0, Seq::empty(), (fuel - 1) as nat);
            assert(interned(next, i, key_of(p, i, nums)).0.keys.len() >= next.keys.len());
            lemma_all_suit(p, s, t, p.args(i), 0, Seq::empty(), (fuel - 1) as nat);
            lemma_interned_suits(p, s, next, i, key_of(p, i, nums));
        }
    }
}

proof fn lemma_all_suit(p: ProgramV, s: ScopeV, t: NumbersV, args: Seq<Inst>, from: int, nums: Seq<usize>, fuel: nat)
    requires
        is_suited(p, s, t),
        all_numbered(p, s, t, args, from, nums, fuel).0.keys.len() <= usize::MAX,
    ensures
        is_suited(p, s, all_numbered(p, s, t, args, from, nums, fuel).0),
    decreases fuel, 1int, args.len() - from,
{
    if from < args.len() {
        let (next, n) = numbered(p, s, t, args[from], fuel);
        lemma_all_grow(p, s, next, args, from + 1, nums.push(n), fuel);
        numbering_suits(p, s, t, args[from], fuel);
        lemma_all_suit(p, s, next, args, from + 1, nums.push(n), fuel);
    }
}

/// Values that share a number have one type.
pub proof fn types_do_not_mix(p: ProgramV, s: ScopeV, t: NumbersV, i: Inst, j: Inst)
    requires
        is_suited(p, s, t),
        t.by_inst.contains_key(i.0),
        t.by_inst.contains_key(j.0),
        t.by_inst[i.0] == t.by_inst[j.0],
    ensures
        p.ty(i) == p.ty(j),
{
    let key = t.keys[t.by_inst[i.0] as int];
    assert(Inst(i.0) == i && Inst(j.0) == j);
    assert(suits(p, s, Inst(i.0), key));
    assert(suits(p, s, Inst(j.0), key));
}

/// A value that is not numbered by what it computes, as a load or a call is not, shares its number with no
/// other.
pub proof fn own_numbers_are_not_shared(p: ProgramV, s: ScopeV, t: NumbersV, i: Inst, j: Inst)
    requires
        is_suited(p, s, t),
        !expressible(p, s, i),
        t.by_inst.contains_key(i.0),
        t.by_inst.contains_key(j.0),
        t.by_inst[i.0] == t.by_inst[j.0],
    ensures
        i == j,
{
    let key = t.keys[t.by_inst[i.0] as int];
    assert(Inst(i.0) == i && Inst(j.0) == j);
    assert(suits(p, s, Inst(i.0), key));
    assert(suits(p, s, Inst(j.0), key));
}

/// A load is not numbered by what it computes, nor is a call.
pub proof fn loads_are_their_own(p: ProgramV, s: ScopeV, i: Inst)
    ensures
        p.op(i) is Load ==> !expressible(p, s, i),
        p.op(i) is Call ==> !expressible(p, s, i),
{
}

/// Instruction `i` computes `op` of `x` and `y`.
pub open spec fn is_binary(p: ProgramV, i: Inst, op: BinaryOp, x: Inst, y: Inst) -> bool {
    p.op(i) == Op::Binary(op) && p.args(i) == seq![x, y]
}

/// Operation `other` on exchanged operands computes what `op` computes on operands of the given kind.
pub open spec fn mirrors(p: ProgramV, op: BinaryOp, other: BinaryOp, x: Inst) -> bool {
    (other == op && op.commutes() && p.ty(x) is I32) || (op.mirrored() == Some(other) && other.mirrored() == Some(op))
}

/// Values that compute the same of exchanged operands share a number: sums and the like of words, and
/// comparisons turned round where the operands have two numbers.
pub proof fn exchanged_operands_share_a_number(
    p: ProgramV,
    s: ScopeV,
    t: NumbersV,
    rank: spec_fn(Inst) -> nat,
    i: Inst,
    j: Inst,
    op: BinaryOp,
    other: BinaryOp,
    x: Inst,
    y: Inst,
    fuel: nat,
)
    requires
        in_order(p, s, t),
        is_ranked(p, s, rank),
        is_binary(p, i, op, x, y),
        is_binary(p, j, other, y, x),
        mirrors(p, op, other, x),
        p.ty(i) == p.ty(j),
        p.ty(x) == p.ty(y),
        expressible(p, s, i),
        expressible(p, s, j),
        !t.by_inst.contains_key(i.0),
        !numbered(p, s, t, i, fuel).0.by_inst.contains_key(j.0),
        fuel > 0,
        numbered(p, s, numbered(p, s, t, i, fuel).0, j, fuel).0.keys.len() < usize::MAX,
    ensures
        ({
            let (t1, n) = numbered(p, s, t, i, fuel);
            let (t2, m) = numbered(p, s, t1, j, fuel);
            other == op || t2.by_inst[x.0] != t2.by_inst[y.0] ==> m == n
        }),
{
    let (t1, n) = numbered(p, s, t, i, fuel);
    let (t2, m) = numbered(p, s, t1, j, fuel);
    lemma_grows(p, s, t1, j, fuel);
    numbering_keeps_order(p, s, t, rank, i, fuel);
    numbering_keeps_order(p, s, t1, rank, j, fuel);
    assert(p.args(i)[0] == x && p.args(i)[1] == y);
    assert(p.args(j)[0] == y && p.args(j)[1] == x);
    assert(t1.by_inst.contains_key(x.0) && t1.by_inst.contains_key(y.0)) by {
        assert(t1.by_inst.contains_key(p.args(i)[0].0));
        assert(t1.by_inst.contains_key(p.args(i)[1].0));
    }
    let (a, b) = (t2.by_inst[x.0], t2.by_inst[y.0]);
    assert(t1.keys[n as int] == binary_key(op, p.ty(i), p.ty(x), a, b));
    assert(t2.keys[m as int] == binary_key(other, p.ty(j), p.ty(y), b, a));
    assert(t2.keys[n as int] == t1.keys[n as int]);
    if other == op || a != b {
        assert(binary_key(op, p.ty(i), p.ty(x), a, b) =~= binary_key(other, p.ty(j), p.ty(y), b, a));
        if n != m {
            if n < m {
                assert(t2.keys[n as int] != t2.keys[m as int]);
            } else {
                assert(t2.keys[m as int] != t2.keys[n as int]);
            }
        }
    }
}

} // verus!
