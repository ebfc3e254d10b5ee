//! A loop run in four lanes leaves with what it left with: four rounds at a time and the remainder one by one.

use vstd::prelude::*;

use crate::arith::int_op;
use crate::blocked_reduction::{
    candidate, carried, counts_down, counts_up, final_args, given_back, held_apart, lane_sum,
    lanes_add_up, moves_on, nth, only_offset, other_block, rebuildable, remainder_args,
    rounds_are_alike, rounds_are_split, scalar_sum, takes_product, CandidateV,
};
use crate::cfg::TreeV;
use crate::copying::{computed_in_order, outcome};
use crate::ir::{position, position_is_first, BasicBlock, BinaryOp, Function, Inst, Op, ProgramV, Type};
use crate::loops::LoopV;

verus! {

/// What a round of the loop computes, in order.
pub open spec fn work_of(p: ProgramV, c: CandidateV) -> Seq<Inst> {
    p.block(c.body).insts.drop_last()
}

/// The values at the end of a round that starts with the values `v`.
pub open spec fn worked(
    p: ProgramV,
    meaning: spec_fn(Op, Type, Seq<int>) -> int,
    c: CandidateV,
    v: spec_fn(Inst) -> int,
) -> spec_fn(Inst) -> int {
    computed_in_order(p, meaning, v, work_of(p, c))
}

/// The values with which the round after one that starts with `v` starts.
pub open spec fn next_round(
    p: ProgramV,
    meaning: spec_fn(Op, Type, Seq<int>) -> int,
    c: CandidateV,
    v: spec_fn(Inst) -> int,
) -> spec_fn(Inst) -> int {
    let w = worked(p, meaning, c, v);
    |x: Inst|
        if c.header_params.contains(x) {
            w(given_back(p, c.header, c.body)[position(c.header_params, x, 0)])
        } else {
            w(x)
        }
}

/// The values with which a round starts that comes after `n` rounds, the first of which starts with `v`.
pub open spec fn after_rounds(
    p: ProgramV,
    meaning: spec_fn(Op, Type, Seq<int>) -> int,
    c: CandidateV,
    v: spec_fn(Inst) -> int,
    n: nat,
) -> spec_fn(Inst) -> int
    decreases n,
{
    if n == 0 {
        v
    } else {
        next_round(p, meaning, c, after_rounds(p, meaning, c, v, (n - 1) as nat))
    }
}

/// The counter at the end of round `n`.
pub open spec fn tested(
    p: ProgramV,
    meaning: spec_fn(Op, Type, Seq<int>) -> int,
    c: CandidateV,
    v: spec_fn(Inst) -> int,
    n: nat,
) -> int {
    worked(p, meaning, c, after_rounds(p, meaning, c, v, n))(c.ctr_back)
}

/// The loop entered with the values `v` does `n` rounds.
pub open spec fn does_rounds(
    p: ProgramV,
    meaning: spec_fn(Op, Type, Seq<int>) -> int,
    c: CandidateV,
    v: spec_fn(Inst) -> int,
    n: nat,
) -> bool {
    &&& n > 0
    &&& forall|j: nat| j < n - 1 ==> #[trigger] tested(p, meaning, c, v, j) != 0
    &&& tested(p, meaning, c, v, (n - 1) as nat) == 0
}

/// What the exit receives where the loop is entered with the values `v` and does `n` rounds.
pub open spec fn leaves_with(
    p: ProgramV,
    meaning: spec_fn(Op, Type, Seq<int>) -> int,
    c: CandidateV,
    v: spec_fn(Inst) -> int,
    n: nat,
) -> Seq<int> {
    let w = worked(p, meaning, c, after_rounds(p, meaning, c, v, (n - 1) as nat));
    Seq::new(c.exit_args.len(), |j: int| w(c.exit_args[j]))
}

/// The values of the parameters of the lane loop: the sums and pointers of the lanes, the index and what is left.
#[verifier::ext_equal]
pub struct LanesV {
    pub sums: Seq<int>,
    pub ptrs: Seq<int>,
    pub index: int,
    pub left: int,
}

/// The values that a copy of the body for lane `lane` computes with.
pub open spec fn lane_values(c: CandidateV, v: spec_fn(Inst) -> int, s: LanesV, lane: int) -> spec_fn(Inst) -> int {
    |x: Inst|
        if x == c.k_param {
            int_op(BinaryOp::Add, s.index as i32, lane as i32) as int
        } else if x == c.acc_param {
            s.sums[lane]
        } else if x == c.ptr_param {
            s.ptrs[lane]
        } else {
            v(x)
        }
}

/// The lane loop as the guard enters it: `size` is what the pointer moves by for an offset of one.
pub open spec fn lanes_start(c: CandidateV, v: spec_fn(Inst) -> int, size: int) -> LanesV {
    LanesV {
        sums: seq![0, 0, 0, 0],
        ptrs: Seq::new(4, |lane: int| v(c.ptr_param) + size * (lane * c.stride)),
        index: 0,
        left: int_op(BinaryOp::And, v(c.bound) as i32, (-4) as i32) as int,
    }
}

/// One round of the lane loop.
pub open spec fn lanes_step(
    p: ProgramV,
    meaning: spec_fn(Op, Type, Seq<int>) -> int,
    c: CandidateV,
    v: spec_fn(Inst) -> int,
    size: int,
    s: LanesV,
) -> LanesV {
    LanesV {
        sums: Seq::new(4, |lane: int| worked(p, meaning, c, lane_values(c, v, s, lane))(c.acc_back)),
        ptrs: Seq::new(4, |lane: int| s.ptrs[lane] + size * (4 * c.stride)),
        index: int_op(BinaryOp::Add, s.index as i32, 4) as int,
        left: int_op(BinaryOp::Sub, s.left as i32, 4) as int,
    }
}

/// The lane loop after `n` rounds.
pub open spec fn lanes_after(
    p: ProgramV,
    meaning: spec_fn(Op, Type, Seq<int>) -> int,
    c: CandidateV,
    v: spec_fn(Inst) -> int,
    size: int,
    n: nat,
) -> LanesV
    decreases n,
{
    if n == 0 {
        lanes_start(c, v, size)
    } else {
        lanes_step(p, meaning, c, v, size, lanes_after(p, meaning, c, v, size, (n - 1) as nat))
    }
}

/// The sum with which the lane loop ends.
pub open spec fn sum_of_lanes(acc: int, s: LanesV) -> int {
    int_op(
        BinaryOp::Add,
        acc as i32,
        int_op(
            BinaryOp::Add,
            int_op(BinaryOp::Add, s.sums[0] as i32, s.sums[1] as i32),
            int_op(BinaryOp::Add, s.sums[2] as i32, s.sums[3] as i32),
        ),
    ) as int
}

/// The values `e` at the end of the lane loop are those that it ends with in state `s`: `exit` are the parameters
/// there, `sum` and `left` the sum and the number of rounds that remain.
pub open spec fn ends_lanes(
    c: CandidateV,
    v: spec_fn(Inst) -> int,
    s: LanesV,
    e: spec_fn(Inst) -> int,
    exit: Seq<Inst>,
    sum: Inst,
    left: Inst,
) -> bool {
    &&& e(nth(exit, 4)) == s.index
    &&& e(nth(exit, 6)) == s.ptrs[0]
    &&& forall|k: int|
        0 <= k < c.passthroughs.len() ==> e(#[trigger] nth(exit, 10 + k)) == v(c.passthroughs[k].0)
    &&& e(sum) == sum_of_lanes(v(c.acc_param), s)
    &&& e(left) == int_op(BinaryOp::Sub, v(c.bound) as i32, s.index as i32)
}

/// What a round computes is in order: nothing is computed twice, what is used was computed before, and no
/// parameter of the header and no literal is computed; the product and the updates are part of it, and every
/// parameter has an update.
pub open spec fn is_in_order(p: ProgramV, c: CandidateV) -> bool {
    let work = work_of(p, c);
    &&& p.block(c.body).insts.len() > 0
    &&& work.no_duplicates()
    &&& c.header_params.no_duplicates()
    &&& c.header_params.len() <= usize::MAX
    &&& given_back(p, c.header, c.body).len() == c.header_params.len()
    &&& forall|i: int| 0 <= i < c.header_params.len() ==> p.op(#[trigger] c.header_params[i]) is BlockArgRef
    &&& forall|k: int|
        0 <= k < work.len() ==> !(p.op(#[trigger] work[k]) is BlockArgRef) && !(p.op(work[k]) is Integer)
    &&& forall|k: int| 0 <= k < work.len() && p.op(#[trigger] work[k]) is Binary ==> p.args(work[k]).len() == 2
    &&& forall|k: int, j: int|
        0 <= k < work.len() && 0 <= j < p.args(work[k]).len() && work.contains(#[trigger] p.args(work[k])[j])
            ==> work.take(k).contains(p.args(work[k])[j])
    &&& work.contains(p.arg(c.acc_back, 1))
    &&& work.contains(c.acc_back)
    &&& work.contains(c.k_back)
    &&& work.contains(c.ctr_back)
    &&& work.contains(c.ptr_back)
}

/// Operations mean what they do on thirty-two bits, and an offset moves the pointer of the loop by `size` for one.
pub open spec fn means_well(
    p: ProgramV,
    meaning: spec_fn(Op, Type, Seq<int>) -> int,
    c: CandidateV,
    size: int,
) -> bool {
    &&& forall|op: BinaryOp, t: Type, a: Seq<int>|
        i32::MIN <= #[trigger] meaning(Op::Binary(op), t, a) <= i32::MAX
    &&& forall|t: Type, a: Seq<int>|
        a.len() == 2 && i32::MIN <= a[0] <= i32::MAX && i32::MIN <= a[1] <= i32::MAX ==> #[trigger] meaning(
            Op::Binary(BinaryOp::Add),
            t,
            a,
        ) == int_op(BinaryOp::Add, a[0] as i32, a[1] as i32)
    &&& forall|t: Type, a: Seq<int>|
        a.len() == 2 && i32::MIN <= a[0] <= i32::MAX && i32::MIN <= a[1] <= i32::MAX ==> #[trigger] meaning(
            Op::Binary(BinaryOp::Sub),
            t,
            a,
        ) == int_op(BinaryOp::Sub, a[0] as i32, a[1] as i32)
    &&& forall|a: Seq<int>|
        a.len() == 2 ==> #[trigger] meaning(Op::GetElemPtr, p.ty(c.ptr_back), a) == a[0] + size * a[1]
}

/// The values `v` are such as the loop is entered with: literals have their values, the index is zero, and the
/// counter is what it is to count down from.
pub open spec fn enters(p: ProgramV, c: CandidateV, v: spec_fn(Inst) -> int) -> bool {
    &&& forall|i: Inst| p.op(i) matches Op::Integer(x) ==> #[trigger] v(i) == x
    &&& v(c.k_param) == 0
    &&& v(c.ctr_param) == v(c.bound)
    &&& i32::MIN <= v(c.bound) <= i32::MAX
    &&& i32::MIN <= v(c.acc_param) <= i32::MAX
}

proof fn lemma_settled(
    p: ProgramV,
    meaning: spec_fn(Op, Type, Seq<int>) -> int,
    v: spec_fn(Inst) -> int,
    order: Seq<Inst>,
)
    requires
        order.no_duplicates(),
        forall|k: int, j: int|
            0 <= k < order.len() && 0 <= j < p.args(order[k]).len() && order.contains(#[trigger] p.args(order[k])[j])
                ==> order.take(k).contains(p.args(order[k])[j]),
    ensures
        ({
            let w = computed_in_order(p, meaning, v, order);
            &&& forall|x: Inst| !order.contains(x) ==> #[trigger] w(x) == v(x)
            &&& forall|x: Inst| order.contains(x) ==> #[trigger] w(x) == outcome(p, meaning, w, x)
        }),
    decreases order.len(),
{
    let w = computed_in_order(p, meaning, v, order);
    if order.len() > 0 {
        let less = order.drop_last();
        let last = order.last();
        let n = order.len() - 1;
        let u = computed_in_order(p, meaning, v, less);
        assert forall|k: int, j: int|
            0 <= k < less.len() && 0 <= j < p.args(less[k]).len() && less.contains(#[trigger] p.args(less[k])[j]) implies less.take(
            k,
        ).contains(p.args(less[k])[j]) by {
            let a = p.args(order[k])[j];
            assert(less[k] == order[k]);
            let i = less.index_of(a);
            assert(order[i] == a);
            assert(order.contains(a));
            assert(order.take(k) =~= less.take(k));
        }
        lemma_settled(p, meaning, v, less);
        assert(!less.contains(last)) by {
            if less.contains(last) {
                let i = less.index_of(last);
                assert(order[i] == order[n]);
            }
        }
        assert forall|x: Inst| !order.contains(x) implies #[trigger] w(x) == v(x) by {
            assert(order[n] == last);
            if less.contains(x) {
                let i = less.index_of(x);
                assert(order[i] == x);
            }
            assert(u(x) == v(x));
        }
        assert forall|x: Inst| order.contains(x) implies #[trigger] w(x) == outcome(p, meaning, w, x) by {
            let k = order.index_of(x);
            let a = Seq::new(p.args(x).len(), |j: int| w(p.args(x)[j]));
            let b = Seq::new(p.args(x).len(), |j: int| u(p.args(x)[j]));
            assert forall|j: int| 0 <= j < p.args(x).len() implies a[j] == b[j] by {
                let y = p.args(order[k])[j];
                if y == last {
                    assert(order[n] == last);
                    assert(order.contains(y));
                    assert(order.take(k).contains(y));
                    let i = order.take(k).index_of(y);
                    assert(order[i] == y);
                }
            }
            assert(a =~= b);
            if x != last {
                assert(less[k] == x);
                assert(less.contains(x));
                assert(u(x) == outcome(p, meaning, u, x));
            }
        }
    }
}

proof fn lemma_alike(
    p: ProgramV,
    meaning: spec_fn(Op, Type, Seq<int>) -> int,
    v: spec_fn(Inst) -> int,
    w: spec_fn(Inst) -> int,
    order: Seq<Inst>,
    ours: Seq<Inst>,
    n: int,
)
    requires
        0 <= n <= order.len(),
        forall|k: int, j: int|
            0 <= k < order.len() && !ours.contains(order[k]) && 0 <= j < p.args(order[k]).len() ==> !ours.contains(
                #[trigger] p.args(order[k])[j],
            ),
        forall|k: int, j: int|
            0 <= k < order.len() && 0 <= j < p.args(order[k]).len() && order.contains(#[trigger] p.args(order[k])[j])
                ==> order.take(k).contains(p.args(order[k])[j]),
        forall|y: Inst| !ours.contains(y) && !order.contains(y) ==> #[trigger] v(y) == w(y),
    ensures
        forall|x: Inst|
            !ours.contains(x) && (order.take(n).contains(x) || !order.contains(x)) ==> #[trigger] computed_in_order(
                p,
                meaning,
                v,
                order.take(n),
            )(x) == computed_in_order(p, meaning, w, order.take(n))(x),
    decreases n,
{
    let some = order.take(n);
    if n > 0 {
        let less = order.take(n - 1);
        lemma_alike(p, meaning, v, w, order, ours, n - 1);
        assert(some.drop_last() =~= less);
        let last = order[n - 1];
        assert(some.last() == last);
        let a = computed_in_order(p, meaning, v, less);
        let b = computed_in_order(p, meaning, w, less);
        assert forall|x: Inst|
            !ours.contains(x) && (some.contains(x) || !order.contains(x)) implies #[trigger] computed_in_order(
            p,
            meaning,
            v,
            some,
        )(x) == computed_in_order(p, meaning, w, some)(x) by {
            if x == last {
                let s = Seq::new(p.args(x).len(), |j: int| a(p.args(x)[j]));
                let t = Seq::new(p.args(x).len(), |j: int| b(p.args(x)[j]));
                assert forall|j: int| 0 <= j < p.args(x).len() implies s[j] == t[j] by {
                    let y = p.args(order[n - 1])[j];
                    assert(!ours.contains(y));
                    assert(order.contains(y) ==> less.contains(y));
                    assert(a(y) == b(y));
                }
                assert(s =~= t);
            } else {
                if some.contains(x) {
                    let i = some.index_of(x);
                    assert(less[i] == x);
                }
                assert(a(x) == b(x));
            }
        }
    }
}

/// What the loop has for sum and counter.
pub open spec fn own_of(c: CandidateV) -> Seq<Inst> {
    seq![c.acc_param, c.ctr_param, c.acc_back, c.ctr_back]
}

/// The loop is one that can be run in lanes.
spec fn is_shaped(p: ProgramV, c: CandidateV) -> bool {
    let backs = given_back(p, c.header, c.body);
    let at = |x: Inst| position(c.header_params, x, 0);
    &&& seq![c.k_param, c.acc_param, c.ctr_param, c.ptr_param].no_duplicates()
    &&& c.header_params.contains(c.k_param) && backs[at(c.k_param)] == c.k_back
    &&& c.header_params.contains(c.acc_param) && backs[at(c.acc_param)] == c.acc_back
    &&& c.header_params.contains(c.ctr_param) && backs[at(c.ctr_param)] == c.ctr_back
    &&& c.header_params.contains(c.ptr_param) && backs[at(c.ptr_param)] == c.ptr_back
    &&& forall|i: int|
        0 <= i < c.header_params.len() && !seq![c.k_param, c.acc_param, c.ctr_param, c.ptr_param].contains(
            #[trigger] c.header_params[i],
        ) ==> backs[i] == c.header_params[i] && c.passthroughs.contains((c.header_params[i], i as usize))
    &&& forall|j: int|
        0 <= j < c.passthroughs.len() ==> c.header_params.contains((#[trigger] c.passthroughs[j]).0) && !seq![
            c.k_param,
            c.acc_param,
            c.ctr_param,
            c.ptr_param,
        ].contains(c.passthroughs[j].0)
    &&& takes_product(p, c.acc_param, c.acc_back)
    &&& counts_up(p, c.k_param, c.k_back)
    &&& counts_down(p, c.ctr_param, c.ctr_back)
    &&& moves_on(p, c.ptr_param, c.ptr_back)
    &&& only_offset(p, c.ptr_back) == Some(c.stride)
    &&& held_apart(p, work_of(p, c), work_of(p, c).len() as int, own_of(c), c.acc_back, c.ctr_back)
    &&& rebuildable(c.passthroughs, c.k_back, c.acc_back, c.exit_args, 0)
}

proof fn lemma_shaped(p: ProgramV, f: Function, tree: TreeV, order: Seq<BasicBlock>, l: LoopV)
    requires
        candidate(p, f, tree, order, l) is Some,
        is_in_order(p, candidate(p, f, tree, order, l)->0),
    ensures
        is_shaped(p, candidate(p, f, tree, order, l)->0),
{
    let c = candidate(p, f, tree, order, l)->0;
    let params = p.block(l.header).params;
    let backs = given_back(p, l.header, other_block(l));
    let insts = p.block(c.body).insts;
    let work = work_of(p, c);
    let parts = seq![c.k_param, c.acc_param, c.ctr_param, c.ptr_param];
    rounds_are_alike(p, f, tree, order, l);
    crate::blocked_reduction::parts_are_parameters(p, f, tree, order, l);
    position_is_first(params, c.acc_param, 0);
    position_is_first(params, c.k_param, 0);
    position_is_first(params, c.ctr_param, 0);
    position_is_first(params, c.ptr_param, 0);
    assert(params[position(params, c.acc_param, 0)] == c.acc_param);
    assert(params[position(params, c.k_param, 0)] == c.k_param);
    assert(params[position(params, c.ctr_param, 0)] == c.ctr_param);
    assert(params[position(params, c.ptr_param, 0)] == c.ptr_param);
    assert forall|i: int| 0 <= i < params.len() && !parts.contains(#[trigger] params[i]) implies backs[i] == params[i]
        && c.passthroughs.contains((params[i], i as usize)) by {
        let e = (params[i], i as usize);
        let j = c.passthroughs.index_of(e);
        assert(c.passthroughs[j] == e);
    }
    assert forall|j: int| 0 <= j < c.passthroughs.len() implies params.contains((#[trigger] c.passthroughs[j]).0) && !parts.contains(
        c.passthroughs[j].0,
    ) by {
        let (x, i) = c.passthroughs[j];
        assert(params[i as int] == x);
        assert(c.passthroughs.contains((x, i)));
    }
    assert forall|k: int, j: int|
        0 <= k < work.len() && work[k] != c.acc_back && work[k] != c.ctr_back && 0 <= j < p.args(work[k]).len() implies !own_of(
        c,
    ).contains(#[trigger] p.args(work[k])[j]) by {
        assert(work[k] == insts[k]);
        assert(p.args(insts[k])[j] == p.args(work[k])[j]);
    }
}

/// The product of a round that starts with the values `v`.
spec fn product(p: ProgramV, meaning: spec_fn(Op, Type, Seq<int>) -> int, c: CandidateV, v: spec_fn(Inst) -> int) -> int {
    worked(p, meaning, c, v)(p.arg(c.acc_back, 1))
}

/// Literals have their values.
spec fn reads_literals(p: ProgramV, v: spec_fn(Inst) -> int) -> bool {
    forall|i: Inst| p.op(i) matches Op::Integer(x) ==> #[trigger] v(i) == x
}

spec fn fits(x: int) -> bool {
    i32::MIN <= x <= i32::MAX
}

proof fn lemma_round(
    p: ProgramV,
    meaning: spec_fn(Op, Type, Seq<int>) -> int,
    c: CandidateV,
    size: int,
    v: spec_fn(Inst) -> int,
)
    requires
        is_in_order(p, c),
        is_shaped(p, c),
        means_well(p, meaning, c, size),
        reads_literals(p, v),
    ensures
        ({
            let w = worked(p, meaning, c, v);
            &&& forall|x: Inst| !work_of(p, c).contains(x) ==> #[trigger] w(x) == v(x)
            &&& fits(product(p, meaning, c, v))
            &&& fits(v(c.k_param)) ==> w(c.k_back) == int_op(BinaryOp::Add, v(c.k_param) as i32, 1)
            &&& fits(v(c.ctr_param)) ==> w(c.ctr_back) == int_op(BinaryOp::Sub, v(c.ctr_param) as i32, 1)
            &&& fits(v(c.acc_param)) ==> w(c.acc_back) == int_op(
                BinaryOp::Sub,
                v(c.acc_param) as i32,
                product(p, meaning, c, v) as i32,
            )
            &&& w(c.ptr_back) == v(c.ptr_param) + size * c.stride
        }),
{
    let w = worked(p, meaning, c, v);
    let work = work_of(p, c);
    lemma_settled(p, meaning, v, work);
    assert forall|x: Inst| #[trigger] c.header_params.contains(x) implies !work.contains(x) by {
        let i = c.header_params.index_of(x);
        assert(p.op(c.header_params[i]) is BlockArgRef);
        if work.contains(x) {
            let k = work.index_of(x);
            assert(!(p.op(work[k]) is BlockArgRef));
        }
    }
    assert forall|x: Inst| p.op(x) is Integer implies #[trigger] w(x) == v(x) by {
        if work.contains(x) {
            let k = work.index_of(x);
            assert(!(p.op(work[k]) is Integer));
        }
    }
    let mul = p.arg(c.acc_back, 1);
    assert(w(mul) == outcome(p, meaning, w, mul));
    assert(fits(w(mul)));
    let in_work = |x: Inst| work[work.index_of(x)] == x;
    assert(in_work(c.k_back) && in_work(c.ctr_back) && in_work(c.acc_back));
    assert(p.args(c.k_back).len() == 2 && p.args(c.ctr_back).len() == 2 && p.args(c.acc_back).len() == 2);
    assert(v(p.arg(c.k_back, 1)) == 1);
    assert(v(p.arg(c.ctr_back, 1)) == 1);
    assert(v(p.arg(c.ptr_back, 1)) == c.stride);
    assert(Seq::new(2, |k: int| w(p.args(c.k_back)[k])) =~= seq![v(c.k_param), 1]);
    assert(Seq::new(2, |k: int| w(p.args(c.ctr_back)[k])) =~= seq![v(c.ctr_param), 1]);
    assert(Seq::new(2, |k: int| w(p.args(c.acc_back)[k])) =~= seq![v(c.acc_param), w(mul)]);
    assert(Seq::new(2, |k: int| w(p.args(c.ptr_back)[k])) =~= seq![v(c.ptr_param), c.stride as int]);
    assert(w(c.k_back) == outcome(p, meaning, w, c.k_back));
    assert(w(c.ctr_back) == outcome(p, meaning, w, c.ctr_back));
    assert(w(c.acc_back) == outcome(p, meaning, w, c.acc_back));
    assert(w(c.ptr_back) == outcome(p, meaning, w, c.ptr_back));
}

/// The values `v` and `w` are the same but for what a round computes, the sum and the counter.
spec fn agree_apart(p: ProgramV, c: CandidateV, v: spec_fn(Inst) -> int, w: spec_fn(Inst) -> int) -> bool {
    forall|y: Inst| !own_of(c).contains(y) && !work_of(p, c).contains(y) ==> #[trigger] v(y) == w(y)
}

proof fn lemma_product(
    p: ProgramV,
    meaning: spec_fn(Op, Type, Seq<int>) -> int,
    c: CandidateV,
    v: spec_fn(Inst) -> int,
    w: spec_fn(Inst) -> int,
)
    requires
        is_in_order(p, c),
        is_shaped(p, c),
        agree_apart(p, c, v, w),
    ensures
        product(p, meaning, c, v) == product(p, meaning, c, w),
{
    let work = work_of(p, c);
    let own = own_of(c);
    assert forall|k: int, j: int|
        0 <= k < work.len() && !own.contains(work[k]) && 0 <= j < p.args(work[k]).len() implies !own.contains(
        #[trigger] p.args(work[k])[j],
    ) by {
        assert(own[2] == c.acc_back && own[3] == c.ctr_back);
    }
    lemma_alike(p, meaning, v, w, work, own, work.len() as int);
    assert(work.take(work.len() as int) =~= work);
    let mul = p.arg(c.acc_back, 1);
    assert(!own.contains(mul)) by {
        if own.contains(mul) {
            let k = own.index_of(mul);
            assert(own[k] == mul);
            let i = c.header_params.index_of(c.acc_param);
            let j = c.header_params.index_of(c.ctr_param);
            assert(p.op(c.header_params[i]) is BlockArgRef);
            assert(p.op(c.header_params[j]) is BlockArgRef);
        }
    }
}

/// The values with which round `i` of the loop starts, but for sum and counter.
spec fn round_values(c: CandidateV, v: spec_fn(Inst) -> int, size: int, i: int) -> spec_fn(Inst) -> int {
    |x: Inst|
        if x == c.k_param {
            i
        } else if x == c.ptr_param {
            v(c.ptr_param) + size * (i * c.stride)
        } else {
            v(x)
        }
}

/// The products of the rounds.
spec fn terms(
    p: ProgramV,
    meaning: spec_fn(Op, Type, Seq<int>) -> int,
    c: CandidateV,
    v: spec_fn(Inst) -> int,
    size: int,
    n: nat,
) -> Seq<i32> {
    Seq::new(n, |i: int| product(p, meaning, c, round_values(c, v, size, i)) as i32)
}

/// What holds of the values `r` with which round `j` starts.
spec fn round_holds(
    p: ProgramV,
    meaning: spec_fn(Op, Type, Seq<int>) -> int,
    c: CandidateV,
    v: spec_fn(Inst) -> int,
    size: int,
    n: nat,
    j: nat,
    r: spec_fn(Inst) -> int,
) -> bool {
    &&& r(c.k_param) == j
    &&& r(c.ctr_param) == n - j
    &&& r(c.ptr_param) == v(c.ptr_param) + size * (j * c.stride)
    &&& r(c.acc_param) == scalar_sum(v(c.acc_param) as i32, terms(p, meaning, c, v, size, n), j)
    &&& forall|x: Inst|
        !work_of(p, c).contains(x) && !seq![c.k_param, c.acc_param, c.ctr_param, c.ptr_param].contains(x)
            ==> #[trigger] r(x) == v(x)
}

proof fn lemma_literals(p: ProgramV, c: CandidateV, v: spec_fn(Inst) -> int, r: spec_fn(Inst) -> int)
    requires
        is_in_order(p, c),
        is_shaped(p, c),
        reads_literals(p, v),
        forall|x: Inst|
            !work_of(p, c).contains(x) && !seq![c.k_param, c.acc_param, c.ctr_param, c.ptr_param].contains(x)
                ==> #[trigger] r(x) == v(x),
    ensures
        reads_literals(p, r),
{
    let parts = seq![c.k_param, c.acc_param, c.ctr_param, c.ptr_param];
    assert forall|i: Inst| p.op(i) matches Op::Integer(x) implies #[trigger] r(i) == (p.op(i)->Integer_0) by {
        if work_of(p, c).contains(i) {
            let k = work_of(p, c).index_of(i);
            assert(!(p.op(work_of(p, c)[k]) is Integer));
        }
        if parts.contains(i) {
            let k = parts.index_of(i);
            assert(parts[k] == i);
            let n = c.header_params.index_of(i);
            assert(p.op(c.header_params[n]) is BlockArgRef);
        }
        assert(v(i) == (p.op(i)->Integer_0));
    }
}

proof fn lemma_step(
    p: ProgramV,
    meaning: spec_fn(Op, Type, Seq<int>) -> int,
    c: CandidateV,
    v: spec_fn(Inst) -> int,
    size: int,
    n: nat,
    j: nat,
    r: spec_fn(Inst) -> int,
)
    requires
        is_in_order(p, c),
        is_shaped(p, c),
        means_well(p, meaning, c, size),
        reads_literals(p, v),
        fits(v(c.acc_param)),
        j < n <= i32::MAX,
        round_holds(p, meaning, c, v, size, n, j, r),
    ensures
        round_holds(p, meaning, c, v, size, n, j + 1, next_round(p, meaning, c, r)),
        worked(p, meaning, c, r)(c.ctr_back) == n - j - 1,
        worked(p, meaning, c, r)(c.k_back) == j + 1,
        worked(p, meaning, c, r)(c.acc_back) == scalar_sum(
            v(c.acc_param) as i32,
            terms(p, meaning, c, v, size, n),
            j + 1,
        ),
{
    let parts = seq![c.k_param, c.acc_param, c.ctr_param, c.ptr_param];
    let work = work_of(p, c);
    let t = terms(p, meaning, c, v, size, n);
    lemma_literals(p, c, v, r);
    lemma_round(p, meaning, c, size, r);
    assert(parts[0] == c.k_param && parts[1] == c.acc_param && parts[2] == c.ctr_param && parts[3] == c.ptr_param);
    let w = worked(p, meaning, c, r);
    let other = round_values(c, v, size, j as int);
    assert(agree_apart(p, c, r, other)) by {
        let own = own_of(c);
        assert(own[0] == c.acc_param && own[1] == c.ctr_param);
        assert forall|y: Inst| !own.contains(y) && !work.contains(y) implies #[trigger] r(y) == other(y) by {
            if parts.contains(y) {
                let k = parts.index_of(y);
                assert(parts[k] == y);
            }
        }
    }
    lemma_product(p, meaning, c, r, other);
    assert(t[j as int] == product(p, meaning, c, r));
    assert(int_op(BinaryOp::Add, j as i32, 1) == j + 1);
    assert(int_op(BinaryOp::Sub, (n - j) as i32, 1) == n - j - 1);
    let next = next_round(p, meaning, c, r);
    assert(next(c.k_param) == w(c.k_back));
    assert(next(c.ctr_param) == w(c.ctr_back));
    assert(next(c.acc_param) == w(c.acc_back));
    assert(next(c.ptr_param) == w(c.ptr_back));
    assert(size * (j * c.stride) + size * c.stride == size * ((j + 1) * c.stride)) by (nonlinear_arith);
    assert forall|x: Inst| !work.contains(x) && !parts.contains(x) implies #[trigger] next(x) == v(x) by {
        if c.header_params.contains(x) {
            let i = position(c.header_params, x, 0);
            position_is_first(c.header_params, x, 0);
            let k = c.header_params.index_of(x);
            assert(c.header_params[k] == x);
            assert(c.header_params[i] == x);
            assert(given_back(p, c.header, c.body)[i] == x);
        }
        assert(w(x) == r(x));
    }
}

proof fn lemma_rounds(
    p: ProgramV,
    meaning: spec_fn(Op, Type, Seq<int>) -> int,
    c: CandidateV,
    v: spec_fn(Inst) -> int,
    size: int,
    n: nat,
    j: nat,
)
    requires
        is_in_order(p, c),
        is_shaped(p, c),
        means_well(p, meaning, c, size),
        enters(p, c, v),
        v(c.bound) == n,
        j <= n,
    ensures
        round_holds(p, meaning, c, v, size, n, j, after_rounds(p, meaning, c, v, j)),
    decreases j,
{
    if j == 0 {
        assert(size * (0int * c.stride) == 0) by (nonlinear_arith);
    } else {
        lemma_rounds(p, meaning, c, v, size, n, (j - 1) as nat);
        lemma_step(p, meaning, c, v, size, n, (j - 1) as nat, after_rounds(p, meaning, c, v, (j - 1) as nat));
    }
}

/// What holds of the lane loop after `i` rounds.
spec fn lanes_hold(
    p: ProgramV,
    meaning: spec_fn(Op, Type, Seq<int>) -> int,
    c: CandidateV,
    v: spec_fn(Inst) -> int,
    size: int,
    n: nat,
    i: nat,
    s: LanesV,
) -> bool {
    let t = terms(p, meaning, c, v, size, n);
    &&& s.index == 4 * i
    &&& s.left == 4 * (n / 4) - 4 * i
    &&& s.sums.len() == 4
    &&& forall|lane: int| 0 <= lane < 4 ==> #[trigger] s.sums[lane] == lane_sum(t, lane, i)
    &&& forall|lane: int| 0 <= lane < 4 ==> #[trigger] s.ptrs[lane] == v(c.ptr_param) + size * ((4 * i + lane) * c.stride)
}

proof fn lemma_lanes_step(
    p: ProgramV,
    meaning: spec_fn(Op, Type, Seq<int>) -> int,
    c: CandidateV,
    v: spec_fn(Inst) -> int,
    size: int,
    n: nat,
    i: nat,
    s: LanesV,
)
    requires
        is_in_order(p, c),
        is_shaped(p, c),
        means_well(p, meaning, c, size),
        enters(p, c, v),
        v(c.bound) == n,
        i < n / 4,
        lanes_hold(p, meaning, c, v, size, n, i, s),
    ensures
        lanes_hold(p, meaning, c, v, size, n, i + 1, lanes_step(p, meaning, c, v, size, s)),
{
    let parts = seq![c.k_param, c.acc_param, c.ctr_param, c.ptr_param];
    let t = terms(p, meaning, c, v, size, n);
    let next = lanes_step(p, meaning, c, v, size, s);
    assert(parts[0] == c.k_param && parts[1] == c.acc_param && parts[2] == c.ctr_param && parts[3] == c.ptr_param);
    assert forall|lane: int| 0 <= lane < 4 implies #[trigger] next.sums[lane] == lane_sum(t, lane, i + 1) by {
        let at = 4 * i + lane;
        let r = lane_values(c, v, s, lane);
        assert(int_op(BinaryOp::Add, s.index as i32, lane as i32) == at);
        lemma_literals(p, c, v, r);
        lemma_round(p, meaning, c, size, r);
        let other = round_values(c, v, size, at);
        assert(agree_apart(p, c, r, other)) by {
            let own = own_of(c);
            assert(own[0] == c.acc_param && own[1] == c.ctr_param);
        }
        lemma_product(p, meaning, c, r, other);
        assert(t[at] == product(p, meaning, c, r));
        assert(r(c.acc_param) == s.sums[lane]);
    }
    assert forall|lane: int| 0 <= lane < 4 implies #[trigger] next.ptrs[lane] == v(c.ptr_param) + size * ((4 * (i + 1)
        + lane) * c.stride) by {
        assert(s.ptrs[lane] == v(c.ptr_param) + size * ((4 * i + lane) * c.stride));
        assert(size * ((4 * i + lane) * c.stride) + size * (4 * c.stride) == size * ((4 * (i + 1) + lane) * c.stride))
            by (nonlinear_arith);
    }
    assert(int_op(BinaryOp::Add, s.index as i32, 4) == 4 * (i + 1));
    assert(int_op(BinaryOp::Sub, s.left as i32, 4) == 4 * (n / 4) - 4 * (i + 1));
}

proof fn lemma_lanes(
    p: ProgramV,
    meaning: spec_fn(Op, Type, Seq<int>) -> int,
    c: CandidateV,
    v: spec_fn(Inst) -> int,
    size: int,
    n: nat,
    i: nat,
)
    requires
        is_in_order(p, c),
        is_shaped(p, c),
        means_well(p, meaning, c, size),
        enters(p, c, v),
        v(c.bound) == n,
        n >= 4,
        i <= n / 4,
    ensures
        lanes_hold(p, meaning, c, v, size, n, i, lanes_after(p, meaning, c, v, size, i)),
    decreases i,
{
    if i == 0 {
        rounds_are_split(n as i32);
        assert(4 * (n / 4) == int_op(BinaryOp::And, n as i32, (-4) as i32));
        let s = lanes_start(c, v, size);
        assert forall|lane: int| 0 <= lane < 4 implies #[trigger] s.ptrs[lane] == v(c.ptr_param) + size * ((4 * 0nat + lane)
            * c.stride) by {
            assert(4 * 0nat + lane == lane);
        }
    } else {
        let j = (i - 1) as nat;
        lemma_lanes(p, meaning, c, v, size, n, j);
        lemma_lanes_step(p, meaning, c, v, size, n, j, lanes_after(p, meaning, c, v, size, j));
    }
}

proof fn lemma_together(
    p: ProgramV,
    meaning: spec_fn(Op, Type, Seq<int>) -> int,
    c: CandidateV,
    v: spec_fn(Inst) -> int,
    u: spec_fn(Inst) -> int,
    n: nat,
)
    requires
        is_in_order(p, c),
        forall|x: Inst| !work_of(p, c).contains(x) ==> #[trigger] u(x) == v(x),
    ensures
        ({
            let a = after_rounds(p, meaning, c, v, n);
            let b = after_rounds(p, meaning, c, u, n);
            &&& forall|x: Inst| !work_of(p, c).contains(x) ==> #[trigger] b(x) == a(x)
            &&& forall|x: Inst| #[trigger] worked(p, meaning, c, b)(x) == worked(p, meaning, c, a)(x)
        }),
    decreases n,
{
    let work = work_of(p, c);
    let a = after_rounds(p, meaning, c, v, n);
    let b = after_rounds(p, meaning, c, u, n);
    if n > 0 {
        lemma_together(p, meaning, c, v, u, (n - 1) as nat);
        let a1 = worked(p, meaning, c, after_rounds(p, meaning, c, v, (n - 1) as nat));
        let b1 = worked(p, meaning, c, after_rounds(p, meaning, c, u, (n - 1) as nat));
        assert forall|x: Inst| !work.contains(x) implies #[trigger] b(x) == a(x) by {
            let y = given_back(p, c.header, c.body)[position(c.header_params, x, 0)];
            assert(b1(y) == a1(y));
            assert(b1(x) == a1(x));
        }
    }
    lemma_alike(p, meaning, b, a, work, Seq::empty(), work.len() as int);
    assert(work.take(work.len() as int) =~= work);
}

proof fn lemma_further(
    p: ProgramV,
    meaning: spec_fn(Op, Type, Seq<int>) -> int,
    c: CandidateV,
    v: spec_fn(Inst) -> int,
    m: nat,
    n: nat,
)
    ensures
        after_rounds(p, meaning, c, after_rounds(p, meaning, c, v, m), n) == after_rounds(p, meaning, c, v, m + n),
    decreases n,
{
    if n > 0 {
        lemma_further(p, meaning, c, v, m, (n - 1) as nat);
        assert((m + n - 1) as nat == m + (n - 1) as nat);
    }
}

/// What the loop is given for parameter `x` of its header to do the remainder.
spec fn remainder_arg(c: CandidateV, exit: Seq<Inst>, sum: Inst, left: Inst, x: Inst) -> Inst {
    if x == c.k_param {
        nth(exit, 4)
    } else if x == c.acc_param {
        sum
    } else if x == c.ctr_param {
        left
    } else if x == c.ptr_param {
        nth(exit, 6)
    } else {
        nth(exit, 10 + carried(c.passthroughs, x, 0))
    }
}

proof fn lemma_remainder(c: CandidateV, exit: Seq<Inst>, sum: Inst, left: Inst, from: int, out: Seq<Inst>)
    requires
        0 <= from <= c.header_params.len(),
        out.len() == from,
        forall|i: int| 0 <= i < from ==> #[trigger] out[i] == remainder_arg(c, exit, sum, left, c.header_params[i]),
    ensures
        ({
            let all = remainder_args(c, exit, sum, left, from, out);
            &&& all.len() == c.header_params.len()
            &&& forall|i: int|
                0 <= i < all.len() ==> #[trigger] all[i] == remainder_arg(c, exit, sum, left, c.header_params[i])
        }),
    decreases c.header_params.len() - from,
{
    if from < c.header_params.len() {
        let w = remainder_arg(c, exit, sum, left, c.header_params[from]);
        lemma_remainder(c, exit, sum, left, from + 1, out.push(w));
    }
}

/// What the exit is given for its argument `x` when nothing remains.
spec fn final_arg(c: CandidateV, exit: Seq<Inst>, sum: Inst, x: Inst) -> Inst {
    if x == c.k_back {
        nth(exit, 4)
    } else if x == c.acc_back {
        sum
    } else {
        nth(exit, 10 + carried(c.passthroughs, x, 0))
    }
}

proof fn lemma_final(c: CandidateV, exit: Seq<Inst>, sum: Inst, from: int, out: Seq<Inst>)
    requires
        0 <= from <= c.exit_args.len(),
        out.len() == from,
        forall|i: int| 0 <= i < from ==> #[trigger] out[i] == final_arg(c, exit, sum, c.exit_args[i]),
        rebuildable(c.passthroughs, c.k_back, c.acc_back, c.exit_args, from),
        forall|i: int| 0 <= i < from ==> #[trigger] can_give(c, c.exit_args[i]),
    ensures
        ({
            let all = final_args(c, exit, sum, c.exit_args, from, out);
            &&& all.len() == c.exit_args.len()
            &&& forall|i: int| 0 <= i < all.len() ==> #[trigger] all[i] == final_arg(c, exit, sum, c.exit_args[i])
            &&& forall|i: int| 0 <= i < all.len() ==> #[trigger] can_give(c, c.exit_args[i])
        }),
    decreases c.exit_args.len() - from,
{
    if from < c.exit_args.len() {
        let w = final_arg(c, exit, sum, c.exit_args[from]);
        assert(can_give(c, c.exit_args[from]));
        lemma_final(c, exit, sum, from + 1, out.push(w));
    }
}

/// The lane loop has `x` for the exit.
spec fn can_give(c: CandidateV, x: Inst) -> bool {
    carried(c.passthroughs, x, 0) < c.passthroughs.len() || x == c.k_back || x == c.acc_back
}

proof fn lemma_carried(list: Seq<(Inst, usize)>, x: Inst, from: int)
    requires
        0 <= from <= list.len(),
    ensures
        from <= carried(list, x, from) <= list.len(),
        carried(list, x, from) < list.len() ==> list[carried(list, x, from)].0 == x,
        forall|k: int| from <= k < list.len() && (#[trigger] list[k]).0 == x ==> carried(list, x, from) < list.len(),
    decreases list.len() - from,
{
    if from < list.len() && list[from].0 != x {
        lemma_carried(list, x, from + 1);
    }
}

/// The values `u` are those with which the loop is entered to do the remainder: the parameters have what the end
/// of the lane loop gives them, and what a round does not compute is as it was.
pub open spec fn re_enters(
    p: ProgramV,
    c: CandidateV,
    v: spec_fn(Inst) -> int,
    e: spec_fn(Inst) -> int,
    u: spec_fn(Inst) -> int,
    again: Seq<Inst>,
) -> bool {
    &&& forall|i: int| 0 <= i < c.header_params.len() ==> u(#[trigger] c.header_params[i]) == e(again[i])
    &&& forall|x: Inst|
        !work_of(p, c).contains(x) && !c.header_params.contains(x) ==> #[trigger] u(x) == v(x)
}

proof fn lemma_left(
    p: ProgramV,
    meaning: spec_fn(Op, Type, Seq<int>) -> int,
    c: CandidateV,
    size: int,
    v: spec_fn(Inst) -> int,
    e: spec_fn(Inst) -> int,
    exit: Seq<Inst>,
    sum: Inst,
    left: Inst,
)
    requires
        is_in_order(p, c),
        is_shaped(p, c),
        means_well(p, meaning, c, size),
        enters(p, c, v),
        v(c.bound) >= 4,
        ends_lanes(c, v, lanes_after(p, meaning, c, v, size, (v(c.bound) / 4) as nat), e, exit, sum, left),
    ensures
        ({
            let n = v(c.bound) as nat;
            let m = n / 4;
            let s = lanes_after(p, meaning, c, v, size, m);
            &&& forall|i: nat|
                i <= m ==> ((#[trigger] lanes_after(p, meaning, c, v, size, i)).left == 0 <==> i == m)
            &&& e(left) == n % 4
            &&& e(sum) == scalar_sum(v(c.acc_param) as i32, terms(p, meaning, c, v, size, n), 4 * m)
            &&& e(nth(exit, 4)) == 4 * m
            &&& e(nth(exit, 6)) == v(c.ptr_param) + size * (4 * m * c.stride)
            &&& round_holds(p, meaning, c, v, size, n, 4 * m, after_rounds(p, meaning, c, v, 4 * m))
        }),
{
    let n = v(c.bound) as nat;
    let m = n / 4;
    let t = terms(p, meaning, c, v, size, n);
    let s = lanes_after(p, meaning, c, v, size, m);
    assert forall|i: nat| i <= m implies ((#[trigger] lanes_after(p, meaning, c, v, size, i)).left == 0 <==> i == m) by {
        lemma_lanes(p, meaning, c, v, size, n, i);
    }
    lemma_lanes(p, meaning, c, v, size, n, m);
    lanes_add_up(v(c.acc_param) as i32, t, m);
    assert(s.sums[0] == lane_sum(t, 0, m) && s.sums[1] == lane_sum(t, 1, m) && s.sums[2] == lane_sum(t, 2, m)
        && s.sums[3] == lane_sum(t, 3, m));
    assert(int_op(BinaryOp::Sub, n as i32, (4 * m) as i32) == n - 4 * m);
    lemma_rounds(p, meaning, c, v, size, n, 4 * m);
    assert(s.ptrs[0] == v(c.ptr_param) + size * ((4 * m + 0) * c.stride));
}

proof fn lemma_none_left(
    p: ProgramV,
    meaning: spec_fn(Op, Type, Seq<int>) -> int,
    c: CandidateV,
    size: int,
    v: spec_fn(Inst) -> int,
    e: spec_fn(Inst) -> int,
    exit: Seq<Inst>,
    sum: Inst,
    left: Inst,
)
    requires
        is_in_order(p, c),
        is_shaped(p, c),
        means_well(p, meaning, c, size),
        enters(p, c, v),
        v(c.bound) >= 4,
        ends_lanes(c, v, lanes_after(p, meaning, c, v, size, (v(c.bound) / 4) as nat), e, exit, sum, left),
        v(c.bound) % 4 == 0,
    ensures
        ({
            let done = final_args(c, exit, sum, c.exit_args, 0, Seq::empty());
            Seq::new(done.len(), |j: int| e(done[j])) == leaves_with(p, meaning, c, v, v(c.bound) as nat)
        }),
{
    let n = v(c.bound) as nat;
    let m = n / 4;
    let done = final_args(c, exit, sum, c.exit_args, 0, Seq::empty());
    lemma_left(p, meaning, c, size, v, e, exit, sum, left);
    assert(4 * m == n);
    let last = after_rounds(p, meaning, c, v, (n - 1) as nat);
    let w = worked(p, meaning, c, last);
    lemma_rounds(p, meaning, c, v, size, n, (n - 1) as nat);
    lemma_step(p, meaning, c, v, size, n, (n - 1) as nat, last);
    lemma_literals(p, c, v, last);
    lemma_round(p, meaning, c, size, last);
    lemma_final(c, exit, sum, 0, Seq::empty());
    assert forall|j: int| 0 <= j < done.len() implies e(#[trigger] done[j]) == w(c.exit_args[j]) by {
        let x = c.exit_args[j];
        assert(can_give(c, x));
        assert(done[j] == final_arg(c, exit, sum, x));
        if x != c.k_back && x != c.acc_back {
            lemma_carried(c.passthroughs, x, 0);
            let k = carried(c.passthroughs, x, 0);
            assert(e(nth(exit, 10 + k)) == v(c.passthroughs[k].0));
            lemma_param(p, c, x);
            assert(last(x) == v(x));
            assert(w(x) == last(x));
        }
    }
    assert(Seq::new(done.len(), |j: int| e(done[j])) =~= leaves_with(p, meaning, c, v, n));
}

proof fn lemma_some_left(
    p: ProgramV,
    meaning: spec_fn(Op, Type, Seq<int>) -> int,
    c: CandidateV,
    size: int,
    v: spec_fn(Inst) -> int,
    e: spec_fn(Inst) -> int,
    u: spec_fn(Inst) -> int,
    exit: Seq<Inst>,
    sum: Inst,
    left: Inst,
)
    requires
        is_in_order(p, c),
        is_shaped(p, c),
        means_well(p, meaning, c, size),
        enters(p, c, v),
        v(c.bound) >= 4,
        ends_lanes(c, v, lanes_after(p, meaning, c, v, size, (v(c.bound) / 4) as nat), e, exit, sum, left),
        v(c.bound) % 4 != 0,
        re_enters(p, c, v, e, u, remainder_args(c, exit, sum, left, 0, Seq::empty())),
    ensures
        ({
            let n = v(c.bound) as nat;
            &&& does_rounds(p, meaning, c, u, n % 4)
            &&& leaves_with(p, meaning, c, u, n % 4) == leaves_with(p, meaning, c, v, n)
        }),
{
    let n = v(c.bound) as nat;
    let m = n / 4;
    let work = work_of(p, c);
    let parts = seq![c.k_param, c.acc_param, c.ctr_param, c.ptr_param];
    let again = remainder_args(c, exit, sum, left, 0, Seq::empty());
    let r = after_rounds(p, meaning, c, v, 4 * m);
    lemma_left(p, meaning, c, size, v, e, exit, sum, left);
    lemma_counted(p, meaning, c, v, size, n);
    let k = n % 4;
    lemma_remainder(c, exit, sum, left, 0, Seq::empty());
    assert forall|x: Inst| !work.contains(x) implies #[trigger] u(x) == r(x) by {
        if c.header_params.contains(x) {
            let i = c.header_params.index_of(x);
            assert(c.header_params[i] == x);
            assert(u(x) == e(again[i]));
            assert(again[i] == remainder_arg(c, exit, sum, left, x));
            if !parts.contains(x) {
                assert(c.passthroughs.contains((x, i as usize)));
                let j = c.passthroughs.index_of((x, i as usize));
                assert(c.passthroughs[j].0 == x);
                lemma_carried(c.passthroughs, x, 0);
                let q = carried(c.passthroughs, x, 0);
                assert(e(nth(exit, 10 + q)) == v(c.passthroughs[q].0));
                assert(r(x) == v(x));
                assert(parts[0] == c.k_param && parts[1] == c.acc_param && parts[2] == c.ctr_param && parts[3]
                    == c.ptr_param);
            } else {
                let q = parts.index_of(x);
                assert(parts[q] == x);
            }
        } else {
            assert(!parts.contains(x)) by {
                if parts.contains(x) {
                    let q = parts.index_of(x);
                    assert(parts[q] == x);
                }
            }
        }
    }
    assert forall|j: nat| #[trigger] tested(p, meaning, c, u, j) == tested(p, meaning, c, v, 4 * m + j) by {
        lemma_together(p, meaning, c, r, u, j);
        lemma_further(p, meaning, c, v, 4 * m, j);
    }
    lemma_together(p, meaning, c, r, u, (k - 1) as nat);
    lemma_further(p, meaning, c, v, 4 * m, (k - 1) as nat);
    assert(4 * m + (k - 1) as nat == (n - 1) as nat);
    assert(leaves_with(p, meaning, c, u, k) =~= leaves_with(p, meaning, c, v, n));
    assert forall|j: nat| j < k - 1 implies #[trigger] tested(p, meaning, c, u, j) != 0 by {
        assert(tested(p, meaning, c, v, 4 * m + j) != 0);
    }
}

/// A loop that is entered with `n` rounds to do, at least four, does `n` rounds. Run in lanes it does a quarter of
/// them, rounded down, in rounds of four and, where any remain, the remainder one by one, and either way the exit
/// receives what it received. `e` are the values at the end of the lane loop, where its parameters are `exit`, and
/// `u` those with which the loop is entered for the remainder.
pub proof fn lanes_leave_with_the_same(
    p: ProgramV,
    f: Function,
    tree: TreeV,
    order: Seq<BasicBlock>,
    l: LoopV,
    meaning: spec_fn(Op, Type, Seq<int>) -> int,
    size: int,
    v: spec_fn(Inst) -> int,
    e: spec_fn(Inst) -> int,
    u: spec_fn(Inst) -> int,
    exit: Seq<Inst>,
    sum: Inst,
    left: Inst,
)
    requires
        candidate(p, f, tree, order, l) is Some,
        ({
            let c = candidate(p, f, tree, order, l)->0;
            let again = remainder_args(c, exit, sum, left, 0, Seq::empty());
            &&& is_in_order(p, c)
            &&& means_well(p, meaning, c, size)
            &&& enters(p, c, v)
            &&& v(c.bound) >= 4
            &&& ends_lanes(c, v, lanes_after(p, meaning, c, v, size, (v(c.bound) / 4) as nat), e, exit, sum, left)
            &&& re_enters(p, c, v, e, u, again)
        }),
    ensures
        ({
            let c = candidate(p, f, tree, order, l)->0;
            let n = v(c.bound) as nat;
            let done = final_args(c, exit, sum, c.exit_args, 0, Seq::empty());
            &&& does_rounds(p, meaning, c, v, n)
            &&& forall|i: nat|
                i <= n / 4 ==> ((#[trigger] lanes_after(p, meaning, c, v, size, i)).left == 0 <==> i == n / 4)
            &&& e(left) == n % 4
            &&& n % 4 == 0 ==> Seq::new(done.len(), |j: int| e(done[j])) == leaves_with(p, meaning, c, v, n)
            &&& n % 4 != 0 ==> does_rounds(p, meaning, c, u, n % 4) && leaves_with(p, meaning, c, u, n % 4) == leaves_with(
                p,
                meaning,
                c,
                v,
                n,
            )
        }),
{
    let c = candidate(p, f, tree, order, l)->0;
    lemma_shaped(p, f, tree, order, l);
    lemma_left(p, meaning, c, size, v, e, exit, sum, left);
    lemma_counted(p, meaning, c, v, size, v(c.bound) as nat);
    if v(c.bound) % 4 == 0 {
        lemma_none_left(p, meaning, c, size, v, e, exit, sum, left);
    } else {
        lemma_some_left(p, meaning, c, size, v, e, u, exit, sum, left);
    }
}

proof fn lemma_counted(
    p: ProgramV,
    meaning: spec_fn(Op, Type, Seq<int>) -> int,
    c: CandidateV,
    v: spec_fn(Inst) -> int,
    size: int,
    n: nat,
)
    requires
        is_in_order(p, c),
        is_shaped(p, c),
        means_well(p, meaning, c, size),
        enters(p, c, v),
        v(c.bound) == n,
        n > 0,
    ensures
        does_rounds(p, meaning, c, v, n),
{
    assert forall|j: nat| j < n implies #[trigger] tested(p, meaning, c, v, j) == n - j - 1 by {
        lemma_rounds(p, meaning, c, v, size, n, j);
        lemma_step(p, meaning, c, v, size, n, j, after_rounds(p, meaning, c, v, j));
    }
    assert(tested(p, meaning, c, v, (n - 1) as nat) == 0);
}

proof fn lemma_param(p: ProgramV, c: CandidateV, x: Inst)
    requires
        is_in_order(p, c),
        is_shaped(p, c),
        carried(c.passthroughs, x, 0) < c.passthroughs.len(),
    ensures
        !work_of(p, c).contains(x),
        !seq![c.k_param, c.acc_param, c.ctr_param, c.ptr_param].contains(x),
{
    lemma_carried(c.passthroughs, x, 0);
    let k = carried(c.passthroughs, x, 0);
    assert(c.header_params.contains(c.passthroughs[k].0));
    let i = c.header_params.index_of(x);
    assert(p.op(c.header_params[i]) is BlockArgRef);
    if work_of(p, c).contains(x) {
        let j = work_of(p, c).index_of(x);
        assert(!(p.op(work_of(p, c)[j]) is BlockArgRef));
    }
}

} // verus!
