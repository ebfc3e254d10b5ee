//! What the constant propagation finds holds in every run of the function.

use vstd::prelude::*;

use crate::arith::{defined, int_op};
use crate::const_prop::{
    affected, affected_from, args_passed, binary_status, edge_followed, initial, literals_from,
    lowers, noted, operand_status, params_noted, passed_status, processed, propagated, round,
    saturated, settled, solved, status_of, taken, visitable, visited_first, FlowV, RunV,
    VariableStatus,
};
use crate::floats::{casts_to, folds_are_casts};
use crate::ir::{BasicBlock, Function, Inst, Op, ProgramV, Type};
use crate::values::{leads, values};

verus! {

/// What transfer `i` passes to `params`, position by position: as many values, of their types.
pub open spec fn fitting(p: ProgramV, args: Seq<Inst>, params: Seq<Inst>) -> bool {
    args.len() == params.len() && forall|k: int|
        0 <= k < args.len() ==> p.ty(#[trigger] args[k]) == p.ty(params[k])
}

/// Instruction `i` of block `b` of `f` stands there only, leads to blocks of `f` with what they take, and
/// has the type of what it computes.
pub open spec fn sound_inst(p: ProgramV, f: Function, b: BasicBlock, i: Inst) -> bool {
    let blocks = p.func(f).blocks;
    &&& i.0 < p.insts.len()
    &&& p.parent_bb(f, i) == Some(b)
    &&& match p.op(i) {
        Op::Jump(t) => blocks.contains(t) && fitting(p, p.args(i), p.block(t).params),
        Op::Branch(t, e, n) => {
            &&& n < p.args(i).len()
            &&& blocks.contains(t) && fitting(p, p.t_args(i), p.block(t).params)
            &&& blocks.contains(e) && fitting(p, p.f_args(i), p.block(e).params)
        },
        Op::Binary(op) => p.args(i).len() == 2 && (if op.compares() {
            p.ty(i) is I32
        } else {
            p.ty(i) == p.ty(p.arg(i, 0))
        }),
        Op::Integer(_) => false,
        Op::BlockArgRef => false,
        _ => true,
    }
}

/// The blocks of `f`, the first of which is `entry`, hold what they should.
pub open spec fn sound_function(p: ProgramV, f: Function, entry: BasicBlock) -> bool {
    let blocks = p.func(f).blocks;
    &&& p.insts.len() <= usize::MAX
    &&& blocks.contains(entry)
    &&& p.block(entry).params == p.func(f).params
    &&& forall|b: BasicBlock, i: Inst|
        blocks.contains(b) && #[trigger] p.block(b).insts.contains(i) ==> sound_inst(p, f, b, i)
    &&& forall|b: BasicBlock, i: Inst|
        blocks.contains(b) && #[trigger] p.block(b).params.contains(i) ==> p.op(i) is BlockArgRef
    &&& forall|i: Inst| p.op(i) is Integer ==> #[trigger] p.ty(i) is I32
}

/// A parameter has an entry, and is noted as a constant only where that is passed.
pub open spec fn covers(p: ProgramV, m: Map<usize, VariableStatus>, param: Inst, arg: Inst) -> bool {
    m.contains_key(param.0) && (status_of(m, param) is Constant ==> passed_status(p, m, arg) == status_of(m, param))
}

pub open spec fn all_covered(p: ProgramV, m: Map<usize, VariableStatus>, args: Seq<Inst>, params: Seq<Inst>) -> bool {
    forall|k: int| 0 <= k < args.len() && k < params.len() ==> #[trigger] covers(p, m, params[k], args[k])
}

/// The edge from `b` to `t` was followed or will be, and what it passes is noted.
pub open spec fn edge_done(p: ProgramV, st: RunV, b: BasicBlock, t: BasicBlock, args: Seq<Inst>) -> bool {
    (st.flow.flow.contains((b, t)) || st.edges.contains((b, t))) && all_covered(p, st.flow.status, args, p.block(t).params)
}

/// What is noted of instruction `i` of block `b` follows from what is noted of its operands.
pub open spec fn consistent(p: ProgramV, st: RunV, b: BasicBlock, i: Inst) -> bool {
    let m = st.flow.status;
    match p.op(i) {
        Op::Binary(op) => match status_of(m, i) {
            VariableStatus::Constant(c) => match (operand_status(p, m, p.arg(i, 0)), operand_status(p, m, p.arg(i, 1))) {
                (VariableStatus::Constant(x), VariableStatus::Constant(y)) => defined(op, y) && c == int_op(op, x, y),
                _ => false,
            },
            _ => true,
        },
        Op::Cast => match status_of(m, i) {
            VariableStatus::Constant(c) => p.ty(i) is I32 && (match p.op(p.arg(i, 0)) {
                Op::Float(bits) => c == saturated(bits),
                _ => false,
            }),
            _ => true,
        },
        Op::Jump(t) => edge_done(p, st, b, t, p.args(i)),
        Op::Branch(t, e, _) => match status_of(m, p.arg(i, 0)) {
            VariableStatus::Top => false,
            VariableStatus::Constant(c) => if c != 0 {
                edge_done(p, st, b, t, p.t_args(i))
            } else {
                edge_done(p, st, b, e, p.f_args(i))
            },
            VariableStatus::Bottom => edge_done(p, st, b, t, p.t_args(i)) && edge_done(p, st, b, e, p.f_args(i)),
        },
        Op::Store => true,
        Op::Return => true,
        _ => !(status_of(m, i) is Constant),
    }
}

/// Constants are integers, and literals are noted as what they are.
pub open spec fn statuses_fit(p: ProgramV, f: Function, m: Map<usize, VariableStatus>) -> bool {
    &&& forall|i: Inst| #[trigger] status_of(m, i) is Constant ==> p.ty(i) is I32 && (p.op(i) is Integer || valued(p, i))
    &&& forall|i: Inst|
        p.op(i) is Integer && i.0 < p.insts.len() ==> #[trigger] status_of(m, i) == VariableStatus::Constant(
            p.op(i)->Integer_0,
        )
    &&& forall|k: int|
        0 <= k < p.func(f).params.len() ==> status_of(m, #[trigger] p.func(f).params[k]) == VariableStatus::Bottom
}

/// Every instruction of an entered block is still to be visited or consistent.
pub open spec fn closing(p: ProgramV, f: Function, entry: BasicBlock, st: RunV) -> bool {
    let blocks = p.func(f).blocks;
    &&& statuses_fit(p, f, st.flow.status)
    &&& st.flow.flow.contains((entry, entry)) || st.edges.contains((entry, entry))
    &&& forall|e: (BasicBlock, BasicBlock)| #[trigger] st.edges.contains(e) ==> st.entered.contains(e.1)
    &&& forall|e: (BasicBlock, BasicBlock)|
        #[trigger] st.flow.flow.contains(e) ==> st.flow.known.contains(e.1) && blocks.contains(e.1)
    &&& forall|b: BasicBlock| #[trigger] st.entered.contains(b) ==> st.flow.known.contains(b) && blocks.contains(b)
    &&& all_placed(p, f, st.flow.known, st.ssa)
    &&& forall|b: BasicBlock, i: Inst|
        st.entered.contains(b) && #[trigger] p.block(b).insts.contains(i) ==> st.ssa.contains(i) || consistent(p, st, b, i)
}

pub(crate) proof fn lemma_users(p: ProgramV, x: Inst, j: Inst, from: int, found: Seq<Inst>)
    requires
        0 <= from <= p.insts.len() <= usize::MAX,
        found.contains(j) || (from <= j.0 < p.insts.len() && p.args(j).contains(x)),
    ensures
        p.users_from(x, from, found).contains(j),
    decreases p.insts.len() - from,
{
    if from < p.insts.len() {
        let here = Inst(from as usize);
        if p.insts[from].args.contains(x) {
            let next = found.push(here);
            if found.contains(j) {
                let k = found.index_of(j);
                assert(next[k] == j);
            } else if j.0 == from {
                assert(next[found.len() as int] == j);
            }
            lemma_users(p, x, j, from + 1, next);
        } else {
            lemma_users(p, x, j, from + 1, found);
        }
    }
}

proof fn lemma_affected(p: ProgramV, f: Function, known: Seq<BasicBlock>, users: Seq<Inst>, from: int, found: Seq<Inst>, j: Inst)
    requires
        0 <= from,
        found.contains(j) || (exists|k: int| from <= k < users.len() && #[trigger] users[k] == j),
        p.parent_bb(f, j) is Some,
        known.contains(p.parent_bb(f, j)->0),
    ensures
        affected_from(p, f, known, users, from, found).contains(j),
    decreases users.len() - from,
{
    if from < users.len() {
        let hit = match p.parent_bb(f, users[from]) {
            Some(b) => known.contains(b),
            None => false,
        };
        let next = if hit {
            found.push(users[from])
        } else {
            found
        };
        if found.contains(j) {
            let k = found.index_of(j);
            assert(next[k] == j);
        } else if users[from] == j {
            assert(next[found.len() as int] == j);
        }
        lemma_affected(p, f, known, users, from + 1, next, j);
    }
}

/// Every placed user of `x` in a known block is affected.
proof fn lemma_is_affected(p: ProgramV, f: Function, known: Seq<BasicBlock>, x: Inst, j: Inst)
    requires
        p.insts.len() <= usize::MAX,
        j.0 < p.insts.len(),
        p.args(j).contains(x),
        p.parent_bb(f, j) is Some,
        known.contains(p.parent_bb(f, j)->0),
    ensures
        affected(p, f, known, x).contains(j),
{
    lemma_users(p, x, j, 0, Seq::empty());
    let k = p.users(x).index_of(j);
    assert(p.users(x)[k] == j);
    lemma_affected(p, f, known, p.users(x), 0, Seq::empty(), j);
}

proof fn lemma_affected_placed(p: ProgramV, f: Function, known: Seq<BasicBlock>, users: Seq<Inst>, from: int, found: Seq<Inst>)
    requires
        0 <= from,
        forall|j: Inst| #[trigger] found.contains(j) ==> p.parent_bb(f, j) is Some && known.contains(p.parent_bb(f, j)->0),
    ensures
        forall|j: Inst| #[trigger] affected_from(p, f, known, users, from, found).contains(j) ==> p.parent_bb(f, j) is Some
            && known.contains(p.parent_bb(f, j)->0),
    decreases users.len() - from,
{
    if from < users.len() {
        let hit = match p.parent_bb(f, users[from]) {
            Some(b) => known.contains(b),
            None => false,
        };
        let next = if hit {
            found.push(users[from])
        } else {
            found
        };
        assert forall|j: Inst| #[trigger] next.contains(j) implies p.parent_bb(f, j) is Some && known.contains(
            p.parent_bb(f, j)->0,
        ) by {
            let k = next.index_of(j);
            if k < found.len() {
                assert(found[k] == j);
                assert(found.contains(j));
            }
        }
        lemma_affected_placed(p, f, known, users, from + 1, next);
        assert(affected_from(p, f, known, users, from, found) == affected_from(p, f, known, users, from + 1, next));
    }
}

/// What a visit of `i` may do to what is noted of `x`: nothing, note it first, or lower it so that its users
/// are visited again.
pub open spec fn change(
    p: ProgramV,
    f: Function,
    known: Seq<BasicBlock>,
    i: Inst,
    m: Map<usize, VariableStatus>,
    n: Map<usize, VariableStatus>,
    again: Seq<Inst>,
    x: Inst,
) -> bool {
    ||| n.contains_key(x.0) == m.contains_key(x.0) && (m.contains_key(x.0) ==> n[x.0] == m[x.0])
    ||| {
        &&& x == i || p.op(x) is BlockArgRef
        &&& n.contains_key(x.0)
        &&& m.contains_key(x.0) ==> {
            &&& m[x.0] is Constant
            &&& n[x.0] is Bottom
            &&& forall|j: Inst| #[trigger] p.args(j).contains(x) && listed(p, f, known, j) ==> again.contains(j)
        }
    }
}

/// Instruction `j` stands in a known block.
pub open spec fn listed(p: ProgramV, f: Function, known: Seq<BasicBlock>, j: Inst) -> bool {
    j.0 < p.insts.len() && p.parent_bb(f, j) is Some && known.contains(p.parent_bb(f, j)->0)
}

pub open spec fn evolves(
    p: ProgramV,
    f: Function,
    known: Seq<BasicBlock>,
    i: Inst,
    m: Map<usize, VariableStatus>,
    n: Map<usize, VariableStatus>,
    again: Seq<Inst>,
) -> bool {
    forall|x: Inst| #[trigger] change(p, f, known, i, m, n, again, x)
}

pub open spec fn all_placed(p: ProgramV, f: Function, known: Seq<BasicBlock>, list: Seq<Inst>) -> bool {
    forall|j: Inst| #[trigger] list.contains(j) ==> p.parent_bb(f, j) is Some && known.contains(p.parent_bb(f, j)->0)
}

proof fn lemma_evolves_further(
    p: ProgramV,
    f: Function,
    known: Seq<BasicBlock>,
    i: Inst,
    m: Map<usize, VariableStatus>,
    n: Map<usize, VariableStatus>,
    o: Map<usize, VariableStatus>,
    first: Seq<Inst>,
    second: Seq<Inst>,
)
    requires
        evolves(p, f, known, i, m, n, first),
        evolves(p, f, known, i, n, o, second),
        forall|j: Inst| first.contains(j) ==> #[trigger] second.contains(j),
    ensures
        evolves(p, f, known, i, m, o, second),
{
    assert forall|x: Inst| #[trigger] change(p, f, known, i, m, o, second, x) by {
        assert(change(p, f, known, i, m, n, first, x));
        assert(change(p, f, known, i, n, o, second, x));
    }
}

proof fn lemma_settled(p: ProgramV, f: Function, st: FlowV, i: Inst, x: Inst, s: VariableStatus)
    requires
        p.insts.len() <= usize::MAX,
        x == i || p.op(x) is BlockArgRef,
    ensures
        ({
            let (next, more) = settled(p, f, st, x, s);
            let again = match more {
                Some(l) => l,
                None => Seq::empty(),
            };
            &&& next.known == st.known
            &&& next.flow == st.flow
            &&& evolves(p, f, st.known, i, st.status, next.status, again)
            &&& all_placed(p, f, st.known, again)
        }),
{
    let (next, more) = settled(p, f, st, x, s);
    let again = match more {
        Some(l) => l,
        None => Seq::empty(),
    };
    lemma_affected_placed(p, f, st.known, p.users(x), 0, Seq::empty());
    assert forall|y: Inst| #[trigger] change(p, f, st.known, i, st.status, next.status, again, y) by {
        if y.0 == x.0 {
            assert(y == x);
            assert forall|j: Inst|
                lowers(st.status, x, s) && #[trigger] p.args(j).contains(x) && listed(p, f, st.known, j) implies again.contains(
                j,
            ) by {
                lemma_is_affected(p, f, st.known, x, j);
            }
        }
    }
}

proof fn lemma_covers(
    p: ProgramV,
    f: Function,
    known: Seq<BasicBlock>,
    i: Inst,
    m: Map<usize, VariableStatus>,
    n: Map<usize, VariableStatus>,
    again: Seq<Inst>,
    j: Inst,
    param: Inst,
    arg: Inst,
)
    requires
        covers(p, m, param, arg),
        evolves(p, f, known, i, m, n, again),
        listed(p, f, known, j),
        p.args(j).contains(arg),
    ensures
        covers(p, n, param, arg) || again.contains(j),
{
    assert(change(p, f, known, i, m, n, again, param));
    assert(change(p, f, known, i, m, n, again, arg));
}

/// What is passed to parameters is noted, and what that lowers is visited again.
proof fn lemma_args_passed(
    p: ProgramV,
    f: Function,
    st: FlowV,
    i: Inst,
    args: Seq<Inst>,
    params: Seq<Inst>,
    from: int,
    again: Seq<Inst>,
)
    requires
        0 <= from,
        p.insts.len() <= usize::MAX,
        statuses_fit(p, f, st.status),
        fitting(p, args, params),
        all_placed(p, f, st.known, again),
        listed(p, f, st.known, i),
        forall|k: int| 0 <= k < args.len() ==> p.args(i).contains(#[trigger] args[k]),
        forall|k: int| 0 <= k < params.len() ==> p.op(#[trigger] params[k]) is BlockArgRef,
        forall|x: Inst| p.op(x) is Integer ==> #[trigger] p.ty(x) is I32,
    ensures
        ({
            let (next, more) = args_passed(p, f, st, args, params, from, again);
            &&& next.known == st.known
            &&& next.flow == st.flow
            &&& evolves(p, f, st.known, i, st.status, next.status, more)
            &&& all_placed(p, f, st.known, more)
            &&& forall|j: Inst| again.contains(j) ==> #[trigger] more.contains(j)
            &&& statuses_fit(p, f, next.status)
            &&& more.contains(i) || forall|k: int|
                from <= k < args.len() ==> covers(p, next.status, #[trigger] params[k], args[k])
        }),
    decreases args.len() - from,
{
    if from >= args.len() {
        assert forall|x: Inst| #[trigger] change(p, f, st.known, i, st.status, st.status, again, x) by {}
    } else {
        let param = params[from];
        let arg = args[from];
        let s = passed_status(p, st.status, arg);
        let (mid, some) = settled(p, f, st, param, s);
        let list = match some {
            Some(l) => again + l,
            None => again,
        };
        let fresh = match some {
            Some(l) => l,
            None => Seq::empty(),
        };
        lemma_settled(p, f, st, i, param, s);
        assert forall|j: Inst| again.contains(j) || fresh.contains(j) implies #[trigger] list.contains(j) by {
            if again.contains(j) {
                let k = again.index_of(j);
                assert(list[k] == j);
            } else {
                let k = fresh.index_of(j);
                assert(list[again.len() + k] == j);
            }
        }
        assert forall|j: Inst| #[trigger] list.contains(j) implies p.parent_bb(f, j) is Some && st.known.contains(
            p.parent_bb(f, j)->0,
        ) by {
            let k = list.index_of(j);
            if k < again.len() {
                assert(again[k] == j);
                assert(again.contains(j));
            } else {
                assert(fresh[k - again.len()] == j);
                assert(fresh.contains(j));
            }
        }
        assert(statuses_fit(p, f, mid.status)) by {
            assert(s is Constant ==> p.ty(arg) is I32) by {
                assert(status_of(st.status, arg) is Constant ==> p.ty(arg) is I32);
            }
            assert(p.ty(arg) == p.ty(param));
            assert forall|x: Inst| #[trigger] status_of(mid.status, x) is Constant implies p.ty(x) is I32 && (p.op(x)
                is Integer || valued(p, x)) by {
                assert(status_of(st.status, x) is Constant ==> p.ty(x) is I32);
                if x.0 == param.0 {
                    assert(x == param);
                }
            }
            assert forall|x: Inst|
                p.op(x) is Integer && x.0 < p.insts.len() implies #[trigger] status_of(mid.status, x)
                == VariableStatus::Constant(p.op(x)->Integer_0) by {
                assert(x != param);
                assert(status_of(st.status, x) == VariableStatus::Constant(p.op(x)->Integer_0));
            }
            assert forall|k: int| 0 <= k < p.func(f).params.len() implies status_of(
                mid.status,
                #[trigger] p.func(f).params[k],
            ) == VariableStatus::Bottom by {
                assert(status_of(st.status, p.func(f).params[k]) == VariableStatus::Bottom);
            }
        }
        lemma_args_passed(p, f, mid, i, args, params, from + 1, list);
        let (next, more) = args_passed(p, f, mid, args, params, from + 1, list);
        assert(evolves(p, f, st.known, i, st.status, next.status, more)) by {
            assert forall|j: Inst| fresh.contains(j) implies #[trigger] more.contains(j) by {
                assert(list.contains(j));
            }
            lemma_evolves_further(p, f, st.known, i, st.status, mid.status, next.status, fresh, more);
        }
        assert(covers(p, mid.status, param, arg));
        lemma_covers(p, f, st.known, i, mid.status, next.status, more, i, param, arg);
        assert forall|j: Inst| again.contains(j) implies #[trigger] more.contains(j) by {
            assert(list.contains(j));
        }
    }
}

pub(crate) proof fn lemma_parent(p: ProgramV, f: Function, i: Inst, from: int)
    requires
        0 <= from,
        p.parent_from(f, i, from) is Some,
    ensures
        p.func(f).blocks.contains(p.parent_from(f, i, from)->0),
        p.block(p.parent_from(f, i, from)->0).insts.contains(i),
    decreases p.func(f).blocks.len() - from,
{
    if !p.block(p.func(f).blocks[from]).insts.contains(i) {
        lemma_parent(p, f, i, from + 1);
    }
}

/// A transfer that was followed or will be stays so, and what is noted of other instructions stays
/// consistent or is visited again.
proof fn lemma_consistent_kept(
    p: ProgramV,
    f: Function,
    i: Inst,
    st: RunV,
    next: RunV,
    again: Seq<Inst>,
    b: BasicBlock,
    j: Inst,
)
    requires
        consistent(p, st, b, j),
        evolves(p, f, st.flow.known, i, st.flow.status, next.flow.status, again),
        j != i,
        sound_inst(p, f, b, j),
        st.flow.known.contains(b),
        !again.contains(j),
        forall|e: (BasicBlock, BasicBlock)|
            st.flow.flow.contains(e) || st.edges.contains(e) ==> #[trigger] next.flow.flow.contains(e)
                || next.edges.contains(e),
    ensures
        consistent(p, next, b, j),
{
    let known = st.flow.known;
    let m = st.flow.status;
    let n = next.flow.status;
    assert(listed(p, f, known, j));
    assert(change(p, f, known, i, m, n, again, j));
    match p.op(j) {
        Op::Binary(op) => {
            let x = p.arg(j, 0);
            let y = p.arg(j, 1);
            assert(p.args(j)[0] == x && p.args(j)[1] == y);
            assert(p.args(j).contains(x) && p.args(j).contains(y));
            assert(change(p, f, known, i, m, n, again, x));
            assert(change(p, f, known, i, m, n, again, y));
        },
        Op::Jump(t) => {
            lemma_edge_kept(p, f, i, st, next, again, b, j, t, p.args(j));
        },
        Op::Branch(t, e, k) => {
            let c = p.arg(j, 0);
            assert(p.args(j)[0] == c);
            assert(p.args(j).contains(c));
            assert(change(p, f, known, i, m, n, again, c));
            assert forall|q: int| 0 <= q < p.t_args(j).len() implies p.args(j).contains(#[trigger] p.t_args(j)[q]) by {
                assert(p.t_args(j)[q] == p.args(j)[q + 1]);
            }
            assert forall|q: int| 0 <= q < p.f_args(j).len() implies p.args(j).contains(#[trigger] p.f_args(j)[q]) by {
                assert(p.f_args(j)[q] == p.args(j)[q + k + 1]);
            }
            if edge_done(p, st, b, t, p.t_args(j)) {
                lemma_edge_kept(p, f, i, st, next, again, b, j, t, p.t_args(j));
            }
            if edge_done(p, st, b, e, p.f_args(j)) {
                lemma_edge_kept(p, f, i, st, next, again, b, j, e, p.f_args(j));
            }
        },
        _ => {},
    }
}

proof fn lemma_edge_kept(
    p: ProgramV,
    f: Function,
    i: Inst,
    st: RunV,
    next: RunV,
    again: Seq<Inst>,
    b: BasicBlock,
    j: Inst,
    t: BasicBlock,
    args: Seq<Inst>,
)
    requires
        edge_done(p, st, b, t, args),
        evolves(p, f, st.flow.known, i, st.flow.status, next.flow.status, again),
        listed(p, f, st.flow.known, j),
        !again.contains(j),
        forall|k: int| 0 <= k < args.len() ==> p.args(j).contains(#[trigger] args[k]),
        forall|e: (BasicBlock, BasicBlock)|
            st.flow.flow.contains(e) || st.edges.contains(e) ==> #[trigger] next.flow.flow.contains(e)
                || next.edges.contains(e),
    ensures
        edge_done(p, next, b, t, args),
{
    let params = p.block(t).params;
    assert(next.flow.flow.contains((b, t)) || next.edges.contains((b, t)));
    assert forall|k: int| 0 <= k < args.len() && k < params.len() implies #[trigger] covers(
        p,
        next.flow.status,
        params[k],
        args[k],
    ) by {
        assert(covers(p, st.flow.status, params[k], args[k]));
        lemma_covers(p, f, st.flow.known, i, st.flow.status, next.flow.status, again, j, params[k], args[k]);
    }
}

proof fn lemma_known_grows(
    p: ProgramV,
    f: Function,
    known: Seq<BasicBlock>,
    more: Seq<BasicBlock>,
    i: Inst,
    m: Map<usize, VariableStatus>,
    n: Map<usize, VariableStatus>,
    again: Seq<Inst>,
)
    requires
        evolves(p, f, more, i, m, n, again),
        forall|b: BasicBlock| known.contains(b) ==> #[trigger] more.contains(b),
    ensures
        evolves(p, f, known, i, m, n, again),
{
    assert forall|x: Inst| #[trigger] change(p, f, known, i, m, n, again, x) by {
        assert(change(p, f, more, i, m, n, again, x));
    }
}

/// What following an edge of transfer `i` leaves.
pub open spec fn followed(
    p: ProgramV,
    f: Function,
    st: FlowV,
    i: Inst,
    next: FlowV,
    again: Seq<Inst>,
    more: Seq<Inst>,
) -> bool {
    &&& forall|b: BasicBlock| st.known.contains(b) ==> #[trigger] next.known.contains(b)
    &&& forall|e: (BasicBlock, BasicBlock)| st.flow.contains(e) ==> #[trigger] next.flow.contains(e)
    &&& forall|e: (BasicBlock, BasicBlock)|
        #[trigger] next.flow.contains(e) ==> st.flow.contains(e) || (next.known.contains(e.1) && p.func(f).blocks.contains(e.1))
    &&& evolves(p, f, st.known, i, st.status, next.status, more)
    &&& all_placed(p, f, next.known, more)
    &&& forall|j: Inst| again.contains(j) ==> #[trigger] more.contains(j)
    &&& statuses_fit(p, f, next.status)
}

proof fn lemma_taken(
    p: ProgramV,
    f: Function,
    st: FlowV,
    i: Inst,
    b: BasicBlock,
    t: BasicBlock,
    args: Seq<Inst>,
    again: Seq<Inst>,
)
    requires
        p.insts.len() <= usize::MAX,
        statuses_fit(p, f, st.status),
        p.func(f).blocks.contains(t),
        fitting(p, args, p.block(t).params),
        all_placed(p, f, st.known, again),
        listed(p, f, st.known, i),
        p.parent_bb(f, i) == Some(b),
        forall|k: int| 0 <= k < args.len() ==> p.args(i).contains(#[trigger] args[k]),
        forall|x: Inst| #[trigger] p.block(t).params.contains(x) ==> p.op(x) is BlockArgRef,
        forall|x: Inst| p.op(x) is Integer ==> #[trigger] p.ty(x) is I32,
    ensures
        ({
            let (next, more) = taken(p, f, st, i, t, args, again);
            &&& followed(p, f, st, i, next, again, more)
            &&& next.flow.contains((b, t))
            &&& next.known.contains(t)
            &&& more.contains(i) || all_covered(p, next.status, args, p.block(t).params)
        }),
{
    let params = p.block(t).params;
    assert forall|k: int| 0 <= k < params.len() implies p.op(#[trigger] params[k]) is BlockArgRef by {
        assert(params.contains(params[k]));
    }
    lemma_args_passed(p, f, st, i, args, params, 0, again);
    let (mid, more) = args_passed(p, f, st, args, params, 0, again);
    let next = edge_followed(mid, b, t);
    assert(next.flow[mid.flow.len() as int] == (b, t));
    if !st.known.contains(t) {
        assert(next.known[mid.known.len() as int] == t);
    }
    assert forall|c: BasicBlock| st.known.contains(c) implies #[trigger] next.known.contains(c) by {
        let k = st.known.index_of(c);
        assert(next.known[k] == c);
    }
    assert forall|e: (BasicBlock, BasicBlock)| st.flow.contains(e) implies #[trigger] next.flow.contains(e) by {
        let k = st.flow.index_of(e);
        assert(next.flow[k] == e);
    }
    assert forall|e: (BasicBlock, BasicBlock)| #[trigger] next.flow.contains(e) implies st.flow.contains(e) || (
    next.known.contains(e.1) && p.func(f).blocks.contains(e.1)) by {
        let k = next.flow.index_of(e);
        if k < st.flow.len() {
            assert(st.flow[k] == e);
        }
    }
    if !more.contains(i) {
        assert forall|k: int| 0 <= k < args.len() && k < params.len() implies #[trigger] covers(
            p,
            next.status,
            params[k],
            args[k],
        ) by {}
    }
}

/// What a visit of `i` leaves: it is consistent or visited again.
proof fn lemma_processed(p: ProgramV, f: Function, entry: BasicBlock, st: RunV, i: Inst, b: BasicBlock)
    requires
        sound_function(p, f, entry),
        p.func(f).blocks.contains(b),
        p.block(b).insts.contains(i),
        st.flow.known.contains(b),
        statuses_fit(p, f, st.flow.status),
        visitable(p, f, st.flow, i),
    ensures
        ({
            let (next, some) = processed(p, f, st.flow, i);
            let more = match some {
                Some(l) => l,
                None => Seq::empty(),
            };
            &&& followed(p, f, st.flow, i, next, Seq::empty(), more)
            &&& more.contains(i) || consistent(p, RunV { flow: next, ..st }, b, i)
        }),
{
    assert(sound_inst(p, f, b, i));
    assert(listed(p, f, st.flow.known, i));
    let none = Seq::<Inst>::empty();
    let (next, some) = processed(p, f, st.flow, i);
    let more = match some {
        Some(l) => l,
        None => none,
    };
    let after = RunV { flow: next, ..st };
    match p.op(i) {
        Op::Jump(t) => {
            assert forall|k: int| 0 <= k < p.args(i).len() implies p.args(i).contains(#[trigger] p.args(i)[k]) by {}
            lemma_taken(p, f, st.flow, i, b, t, p.args(i), none);
        },
        Op::Branch(t, e, n) => {
            lemma_branch_args(p, i);
            match status_of(st.flow.status, p.arg(i, 0)) {
                VariableStatus::Constant(c) => if c != 0 {
                    lemma_taken(p, f, st.flow, i, b, t, p.t_args(i), none);
                } else {
                    lemma_taken(p, f, st.flow, i, b, e, p.f_args(i), none);
                },
                _ => {
                    lemma_taken(p, f, st.flow, i, b, t, p.t_args(i), none);
                    let (mid, first) = taken(p, f, st.flow, i, t, p.t_args(i), none);
                    lemma_taken(p, f, mid, i, b, e, p.f_args(i), first);
                    lemma_known_grows(p, f, st.flow.known, mid.known, i, mid.status, next.status, more);
                    lemma_evolves_further(
                        p,
                        f,
                        st.flow.known,
                        i,
                        st.flow.status,
                        mid.status,
                        next.status,
                        first,
                        more,
                    );
                    if !more.contains(i) {
                        let half = RunV { flow: mid, ..st };
                        assert(!first.contains(i));
                        assert(edge_done(p, half, b, t, p.t_args(i)));
                        lemma_edge_kept(p, f, i, half, after, more, b, i, t, p.t_args(i));
                    }
                },
            }
            if !more.contains(i) {
                let c = p.arg(i, 0);
                assert(p.args(i)[0] == c);
                assert(p.args(i).contains(c));
                assert(change(p, f, st.flow.known, i, st.flow.status, next.status, more, c));
            }
        },
        _ => {
            lemma_value_processed(p, f, st, i, b);
        },
    }
}

proof fn lemma_branch_args(p: ProgramV, i: Inst)
    requires
        p.op(i) is Branch,
        p.op(i)->Branch_2 < p.args(i).len(),
    ensures
        forall|q: int| 0 <= q < p.t_args(i).len() ==> p.args(i).contains(#[trigger] p.t_args(i)[q]),
        forall|q: int| 0 <= q < p.f_args(i).len() ==> p.args(i).contains(#[trigger] p.f_args(i)[q]),
{
    let n = p.op(i)->Branch_2;
    assert forall|q: int| 0 <= q < p.t_args(i).len() implies p.args(i).contains(#[trigger] p.t_args(i)[q]) by {
        assert(p.t_args(i)[q] == p.args(i)[q + 1]);
    }
    assert forall|q: int| 0 <= q < p.f_args(i).len() implies p.args(i).contains(#[trigger] p.f_args(i)[q]) by {
        assert(p.f_args(i)[q] == p.args(i)[q + n + 1]);
    }
}

/// The same of an instruction that is no transfer.
proof fn lemma_value_processed(p: ProgramV, f: Function, st: RunV, i: Inst, b: BasicBlock)
    requires
        p.insts.len() <= usize::MAX,
        sound_inst(p, f, b, i),
        statuses_fit(p, f, st.flow.status),
        visitable(p, f, st.flow, i),
        listed(p, f, st.flow.known, i),
        !(p.op(i) is Jump),
        !(p.op(i) is Branch),
        forall|x: Inst| p.op(x) is Integer ==> #[trigger] p.ty(x) is I32,
        forall|x: Inst| #[trigger] p.func(f).params.contains(x) ==> p.op(x) is BlockArgRef,
    ensures
        ({
            let (next, some) = processed(p, f, st.flow, i);
            let more = match some {
                Some(l) => l,
                None => Seq::empty(),
            };
            &&& followed(p, f, st.flow, i, next, Seq::empty(), more)
            &&& more.contains(i) || consistent(p, RunV { flow: next, ..st }, b, i)
        }),
{
    let m = st.flow.status;
    let (next, some) = processed(p, f, st.flow, i);
    let none = Seq::<Inst>::empty();
    let more = match some {
        Some(l) => l,
        None => none,
    };
    let s = match p.op(i) {
        Op::Binary(op) => binary_status(op, operand_status(p, m, p.arg(i, 0)), operand_status(p, m, p.arg(i, 1))),
        Op::Cast => match (p.ty(i), p.op(p.arg(i, 0))) {
            (Type::I32, Op::Float(bits)) => VariableStatus::Constant(saturated(bits)),
            _ => VariableStatus::Bottom,
        },
        _ => VariableStatus::Bottom,
    };
    if p.op(i) is Store || p.op(i) is Return {
        assert(next == st.flow);
        assert forall|x: Inst| #[trigger] change(p, f, st.flow.known, i, m, m, more, x) by {}
    } else {
        assert((next, some) == settled(p, f, st.flow, i, s));
        lemma_settled(p, f, st.flow, i, i, s);
        if p.op(i) is Binary {
            let x = p.arg(i, 0);
            let y = p.arg(i, 1);
            assert(p.args(i)[0] == x && p.args(i)[1] == y);
            assert(p.args(i).contains(x) && p.args(i).contains(y));
            assert(change(p, f, st.flow.known, i, m, next.status, more, x));
            assert(change(p, f, st.flow.known, i, m, next.status, more, y));
            assert(status_of(m, x) is Constant ==> p.ty(x) is I32);
        }
        assert(s is Constant ==> p.ty(i) is I32);
        assert forall|x: Inst| #[trigger] status_of(next.status, x) is Constant implies p.ty(x) is I32 && (p.op(x)
            is Integer || valued(p, x)) by {
            assert(status_of(m, x) is Constant ==> p.ty(x) is I32);
            if x.0 == i.0 {
                assert(x == i);
            }
        }
        assert forall|x: Inst|
            p.op(x) is Integer && x.0 < p.insts.len() implies #[trigger] status_of(next.status, x)
            == VariableStatus::Constant(p.op(x)->Integer_0) by {
            assert(status_of(m, x) == VariableStatus::Constant(p.op(x)->Integer_0));
            assert(x != i);
        }
        assert forall|k: int| 0 <= k < p.func(f).params.len() implies status_of(
            next.status,
            #[trigger] p.func(f).params[k],
        ) == VariableStatus::Bottom by {
            assert(status_of(m, p.func(f).params[k]) == VariableStatus::Bottom);
            assert(p.func(f).params.contains(p.func(f).params[k]));
        }
        assert(statuses_fit(p, f, next.status));
    }
}

/// The edges known of move from one list to the other.
proof fn lemma_edges_move(p: ProgramV, st: RunV, next: RunV, b: BasicBlock, j: Inst)
    requires
        consistent(p, st, b, j),
        next.flow.status == st.flow.status,
        forall|e: (BasicBlock, BasicBlock)|
            st.flow.flow.contains(e) || st.edges.contains(e) ==> #[trigger] next.flow.flow.contains(e)
                || next.edges.contains(e),
    ensures
        consistent(p, next, b, j),
{
    if let Op::Jump(t) = p.op(j) {
        assert(next.flow.flow.contains((b, t)) || next.edges.contains((b, t)));
    }
    if let Op::Branch(t, e, _) = p.op(j) {
        if edge_done(p, st, b, t, p.t_args(j)) {
            assert(next.flow.flow.contains((b, t)) || next.edges.contains((b, t)));
        }
        if edge_done(p, st, b, e, p.f_args(j)) {
            assert(next.flow.flow.contains((b, e)) || next.edges.contains((b, e)));
        }
    }
}

proof fn lemma_visited_first(p: ProgramV, f: Function, entry: BasicBlock, st: RunV)
    requires
        sound_function(p, f, entry),
        closing(p, f, entry, st),
        visited_first(p, f, st) is Some,
    ensures
        closing(p, f, entry, visited_first(p, f, st)->0),
{
    if st.ssa.len() > 0 {
        let i = st.ssa[0];
        let next = visited_first(p, f, st)->0;
        assert(st.ssa.contains(i));
        lemma_parent(p, f, i, 0);
        let b = p.parent_bb(f, i)->0;
        lemma_processed(p, f, entry, st, i, b);
        let (flow, some) = processed(p, f, st.flow, i);
        let more = match some {
            Some(l) => l,
            None => Seq::empty(),
        };
        let rest = st.ssa.drop_first();
        assert(next.ssa =~= rest + more);
        assert forall|j: Inst| rest.contains(j) || more.contains(j) implies #[trigger] next.ssa.contains(j) by {
            if rest.contains(j) {
                let k = rest.index_of(j);
                assert(next.ssa[k] == j);
            } else {
                let k = more.index_of(j);
                assert(next.ssa[rest.len() + k] == j);
            }
        }
        assert forall|j: Inst| #[trigger] next.ssa.contains(j) implies p.parent_bb(f, j) is Some
            && next.flow.known.contains(p.parent_bb(f, j)->0) by {
            let k = next.ssa.index_of(j);
            if k < rest.len() {
                assert(st.ssa[k + 1] == j);
                assert(st.ssa.contains(j));
            } else {
                assert(more[k - rest.len()] == j);
                assert(more.contains(j));
            }
        }
        assert(all_placed(p, f, next.flow.known, next.ssa));
        let half = RunV { flow, ..st };
        assert forall|c: BasicBlock, j: Inst|
            next.entered.contains(c) && #[trigger] p.block(c).insts.contains(j) implies next.ssa.contains(j) || consistent(
            p,
            next,
            c,
            j,
        ) by {
            assert(sound_inst(p, f, c, j));
            if j == i {
                assert(c == b);
                if !more.contains(i) {
                    lemma_edges_move(p, half, next, b, i);
                }
            } else if !next.ssa.contains(j) {
                if st.ssa.contains(j) {
                    let k = st.ssa.index_of(j);
                    assert(rest[k - 1] == j);
                    assert(rest.contains(j));
                }
                assert(consistent(p, st, c, j));
                assert(!more.contains(j));
                lemma_consistent_kept(p, f, i, st, next, more, c, j);
            }
        }
    }
}

proof fn lemma_round(p: ProgramV, f: Function, entry: BasicBlock, st: RunV)
    requires
        sound_function(p, f, entry),
        closing(p, f, entry, st),
        round(p, f, st) is Some,
    ensures
        closing(p, f, entry, round(p, f, st)->0),
{
    if st.flow.flow.len() == 0 {
        lemma_visited_first(p, f, entry, st);
    } else {
        let e = st.flow.flow[0];
        let left = st.flow.flow.drop_first();
        assert(st.flow.flow.contains(e));
        let rest = RunV { flow: FlowV { flow: left, ..st.flow }, ..st };
        let mid = if st.edges.contains(e) {
            rest
        } else if st.entered.contains(e.1) {
            RunV { edges: st.edges.push(e), ..rest }
        } else {
            RunV {
                edges: st.edges.push(e),
                entered: st.entered.push(e.1),
                ssa: st.ssa + p.block(e.1).insts,
                ..rest
            }
        };
        if !st.edges.contains(e) {
            assert(mid.edges[st.edges.len() as int] == e);
        }
        assert forall|d: (BasicBlock, BasicBlock)| st.flow.flow.contains(d) || st.edges.contains(d) implies
            #[trigger] mid.flow.flow.contains(d) || mid.edges.contains(d) by {
            if st.edges.contains(d) {
                let k = st.edges.index_of(d);
                assert(mid.edges[k] == d);
            } else if d != e {
                let k = st.flow.flow.index_of(d);
                assert(left[k - 1] == d);
            }
        }
        if !st.edges.contains(e) && !st.entered.contains(e.1) {
            assert(mid.entered[st.entered.len() as int] == e.1);
        }
        assert forall|c: BasicBlock| st.entered.contains(c) implies #[trigger] mid.entered.contains(c) by {
            let k = st.entered.index_of(c);
            assert(mid.entered[k] == c);
        }
        assert forall|c: BasicBlock| #[trigger] mid.entered.contains(c) implies st.entered.contains(c) || c == e.1 by {
            let k = mid.entered.index_of(c);
            if k < st.entered.len() {
                assert(st.entered[k] == c);
            }
        }
        assert forall|d: (BasicBlock, BasicBlock)| #[trigger] mid.edges.contains(d) implies mid.entered.contains(d.1) by {
            let k = mid.edges.index_of(d);
            if k < st.edges.len() {
                assert(st.edges[k] == d);
                assert(st.edges.contains(d));
            } else {
                assert(d == e);
            }
        }
        assert forall|d: (BasicBlock, BasicBlock)| #[trigger] mid.flow.flow.contains(d) implies mid.flow.known.contains(d.1)
            && p.func(f).blocks.contains(d.1) by {
            let k = left.index_of(d);
            assert(st.flow.flow[k + 1] == d);
            assert(st.flow.flow.contains(d));
        }
        assert forall|j: Inst| st.ssa.contains(j) implies #[trigger] mid.ssa.contains(j) by {
            let k = st.ssa.index_of(j);
            assert(mid.ssa[k] == j);
        }
        assert forall|j: Inst| #[trigger] mid.ssa.contains(j) implies p.parent_bb(f, j) is Some
            && mid.flow.known.contains(p.parent_bb(f, j)->0) by {
            let k = mid.ssa.index_of(j);
            if k < st.ssa.len() {
                assert(st.ssa[k] == j);
                assert(st.ssa.contains(j));
            } else {
                assert(p.block(e.1).insts[k - st.ssa.len()] == j);
                assert(p.block(e.1).insts.contains(j));
                assert(sound_inst(p, f, e.1, j));
            }
        }
        assert(all_placed(p, f, mid.flow.known, mid.ssa));
        assert forall|c: BasicBlock, j: Inst|
            mid.entered.contains(c) && #[trigger] p.block(c).insts.contains(j) implies mid.ssa.contains(j) || consistent(
            p,
            mid,
            c,
            j,
        ) by {
            if st.entered.contains(c) {
                if !st.ssa.contains(j) {
                    lemma_edges_move(p, st, mid, c, j);
                }
            } else {
                let k = p.block(c).insts.index_of(j);
                assert(mid.ssa[st.ssa.len() + k] == j);
            }
        }
        assert(closing(p, f, entry, mid));
        if !st.edges.contains(e) {
            lemma_visited_first(p, f, entry, mid);
        }
    }
}

proof fn lemma_propagated(p: ProgramV, f: Function, entry: BasicBlock, st: RunV, rounds: nat)
    requires
        sound_function(p, f, entry),
        closing(p, f, entry, st),
        propagated(p, f, st, rounds) is Some,
    ensures
        closing(p, f, entry, propagated(p, f, st, rounds)->0),
    decreases rounds,
{
    if rounds > 0 && !(st.flow.flow.len() == 0 && st.ssa.len() == 0) {
        lemma_round(p, f, entry, st);
        lemma_propagated(p, f, entry, round(p, f, st)->0, (rounds - 1) as nat);
    }
}

proof fn lemma_literals(p: ProgramV, from: int, m: Map<usize, VariableStatus>)
    requires
        0 <= from <= p.insts.len() <= usize::MAX,
        forall|x: Inst| x.0 >= from ==> !#[trigger] m.contains_key(x.0),
        forall|x: Inst| #[trigger] m.contains_key(x.0) ==> p.op(x) is Integer || p.op(x) is Float,
        forall|x: Inst|
            x.0 < from && p.op(x) is Integer ==> #[trigger] m.contains_key(x.0) && m[x.0] == VariableStatus::Constant(
                p.op(x)->Integer_0,
            ),
        forall|x: Inst| #[trigger] m.contains_key(x.0) && p.op(x) is Float ==> m[x.0] == VariableStatus::Bottom,
    ensures
        ({
            let n = literals_from(p, from, m);
            &&& forall|x: Inst| #[trigger] n.contains_key(x.0) ==> p.op(x) is Integer || p.op(x) is Float
            &&& forall|x: Inst|
                x.0 < p.insts.len() && p.op(x) is Integer ==> #[trigger] n.contains_key(x.0) && n[x.0]
                    == VariableStatus::Constant(p.op(x)->Integer_0)
            &&& forall|x: Inst| #[trigger] n.contains_key(x.0) && p.op(x) is Float ==> n[x.0] == VariableStatus::Bottom
        }),
    decreases p.insts.len() - from,
{
    if from < p.insts.len() {
        let i = Inst(from as usize);
        assert(!m.contains_key(i.0));
        let n = match p.op(i) {
            Op::Integer(k) => noted(m, i, VariableStatus::Constant(k)),
            Op::Float(_) => noted(m, i, VariableStatus::Bottom),
            _ => m,
        };
        assert forall|x: Inst| #[trigger] n.contains_key(x.0) implies p.op(x) is Integer || p.op(x) is Float by {
            if x.0 == i.0 {
                assert(x == i);
            } else {
                assert(m.contains_key(x.0));
            }
        }
        assert forall|x: Inst| x.0 < from + 1 && p.op(x) is Integer implies #[trigger] n.contains_key(x.0) && n[x.0]
            == VariableStatus::Constant(p.op(x)->Integer_0) by {
            if x.0 == i.0 {
                assert(x == i);
            } else {
                assert(m.contains_key(x.0));
            }
        }
        assert forall|x: Inst| #[trigger] n.contains_key(x.0) && p.op(x) is Float implies n[x.0] == VariableStatus::Bottom by {
            if x.0 == i.0 {
                assert(x == i);
            } else {
                assert(m.contains_key(x.0));
            }
        }
        lemma_literals(p, from + 1, n);
    }
}

proof fn lemma_params(p: ProgramV, params: Seq<Inst>, from: int, m: Map<usize, VariableStatus>)
    requires
        0 <= from,
        forall|k: int| 0 <= k < params.len() ==> p.op(#[trigger] params[k]) is BlockArgRef,
        forall|x: Inst|
            p.op(x) is BlockArgRef && #[trigger] m.contains_key(x.0) ==> m[x.0] == VariableStatus::Bottom,
        forall|k: int| 0 <= k < from && k < params.len() ==> m.contains_key((#[trigger] params[k]).0),
    ensures
        ({
            let n = params_noted(params, from, m);
            &&& forall|x: Inst|
                p.op(x) is BlockArgRef && #[trigger] n.contains_key(x.0) ==> n[x.0] == VariableStatus::Bottom
            &&& forall|k: int| 0 <= k < params.len() ==> n.contains_key((#[trigger] params[k]).0)
            &&& forall|x: Inst|
                !(p.op(x) is BlockArgRef) ==> #[trigger] n.contains_key(x.0) == m.contains_key(x.0) && n[x.0] == m[x.0]
        }),
    decreases params.len() - from,
{
    if from < params.len() {
        let n = noted(m, params[from], VariableStatus::Bottom);
        assert forall|x: Inst| p.op(x) is BlockArgRef && #[trigger] n.contains_key(x.0) implies n[x.0]
            == VariableStatus::Bottom by {
            if x.0 != params[from].0 {
                assert(m.contains_key(x.0));
            }
        }
        lemma_params(p, params, from + 1, n);
    }
}

proof fn lemma_initial(p: ProgramV, f: Function, entry: BasicBlock)
    requires
        sound_function(p, f, entry),
    ensures
        closing(p, f, entry, initial(p, f, entry)),
{
    let st = initial(p, f, entry);
    let params = p.func(f).params;
    lemma_literals(p, 0, Map::empty());
    let lits = literals_from(p, 0, Map::empty());
    assert forall|k: int| 0 <= k < params.len() implies p.op(#[trigger] params[k]) is BlockArgRef by {
        assert(p.block(entry).params.contains(params[k]));
    }
    lemma_params(p, params, 0, lits);
    let m = st.flow.status;
    assert(st.flow.flow[0] == (entry, entry));
    assert forall|x: Inst| #[trigger] status_of(m, x) is Constant implies p.ty(x) is I32 && (p.op(x) is Integer || valued(
        p,
        x,
    )) by {
        if !(p.op(x) is BlockArgRef) {
            assert(m.contains_key(x.0) == lits.contains_key(x.0));
        }
    }
    assert forall|x: Inst| p.op(x) is Integer && x.0 < p.insts.len() implies #[trigger] status_of(m, x)
        == VariableStatus::Constant(p.op(x)->Integer_0) by {
        assert(lits.contains_key(x.0));
        assert(m.contains_key(x.0) == lits.contains_key(x.0));
    }
    assert(st.flow.known[0] == entry);
    assert(st.ssa.len() == 0 && st.edges.len() == 0 && st.entered.len() == 0);
}

/// `i` gets a value when block `b` is run.
pub open spec fn set_in(p: ProgramV, b: BasicBlock, i: Inst) -> bool {
    p.block(b).insts.contains(i) || p.block(b).params.contains(i)
}

/// `i` has got a value by step `k` of `run`.
pub open spec fn set_by(p: ProgramV, run: Seq<(BasicBlock, spec_fn(Inst) -> i32)>, k: int, i: Inst) -> bool {
    exists|m: int| 0 <= m <= k && #[trigger] set_in(p, run[m].0, i)
}

/// `i` is a parameter or computes a value.
pub open spec fn valued(p: ProgramV, i: Inst) -> bool {
    match p.op(i) {
        Op::Binary(_) => true,
        Op::Cast => true,
        Op::BlockArgRef => true,
        Op::Load => true,
        Op::Call(_) => true,
        Op::GetElemPtr => true,
        Op::Alloc => true,
        _ => false,
    }
}

/// Operand `a` has its value when the instruction at position `q` of the block of step `k` is run.
pub open spec fn ready(p: ProgramV, run: Seq<(BasicBlock, spec_fn(Inst) -> i32)>, k: int, q: int, a: Inst) -> bool {
    valued(p, a) ==> {
        ||| p.block(run[k].0).params.contains(a)
        ||| exists|r: int| 0 <= r < q && #[trigger] p.block(run[k].0).insts[r] == a
        ||| k > 0 && set_by(p, run, k - 1, a) && !p.block(run[k].0).insts.contains(a)
    }
}

/// The instruction at position `q` of the block of step `k` is run on values that are there, and gives
/// what it computes.
pub open spec fn performed(p: ProgramV, run: Seq<(BasicBlock, spec_fn(Inst) -> i32)>, k: int, q: int) -> bool {
    let env = run[k].1;
    let i = p.block(run[k].0).insts[q];
    &&& forall|r: int| 0 <= r < p.args(i).len() ==> ready(p, run, k, q, #[trigger] p.args(i)[r])
    &&& match p.op(i) {
        Op::Binary(op) => p.ty(p.arg(i, 0)) is I32 ==> env(i) == int_op(op, env(p.arg(i, 0)), env(p.arg(i, 1))),
        Op::Cast => match (p.ty(i), p.op(p.arg(i, 0))) {
            (Type::I32, Op::Float(bits)) => casts_to(bits, env(i)),
            _ => true,
        },
        _ => true,
    }
}

/// Step `k` of `run` runs its block with what the step before passes to it; the values that are not set
/// in the block stay.
pub open spec fn proceeds(p: ProgramV, run: Seq<(BasicBlock, spec_fn(Inst) -> i32)>, k: int) -> bool {
    let (b, env) = run[k];
    &&& forall|i: Inst| p.op(i) is Integer ==> #[trigger] env(i) == p.op(i)->Integer_0
    &&& forall|q: int| 0 <= q < p.block(b).insts.len() ==> #[trigger] performed(p, run, k, q)
    &&& k > 0 ==> {
        let (prev, old_env) = run[k - 1];
        let t = p.terminator(prev);
        &&& p.block(prev).insts.len() > 0
        &&& leads(p, old_env, t) is Some
        &&& (leads(p, old_env, t)->0).0 == b
        &&& forall|r: int|
            0 <= r < p.block(b).params.len() ==> env(#[trigger] p.block(b).params[r]) == (leads(p, old_env, t)->0).1[r]
        &&& forall|i: Inst| !set_in(p, b, i) ==> #[trigger] env(i) == old_env(i)
    }
}

/// A run of `f` from `entry` on, block by block, each with the values that there are at its end.
pub open spec fn runs(p: ProgramV, entry: BasicBlock, run: Seq<(BasicBlock, spec_fn(Inst) -> i32)>) -> bool {
    &&& run.len() > 0 ==> run[0].0 == entry
    &&& forall|k: int| 0 <= k < run.len() ==> #[trigger] proceeds(p, run, k)
}

/// Nothing is left to be followed or visited.
pub open spec fn finished(st: RunV) -> bool {
    st.flow.flow.len() == 0 && st.ssa.len() == 0
}

/// What is noted as constant at step `k` is that constant.
pub open spec fn holds_at(
    p: ProgramV,
    m: Map<usize, VariableStatus>,
    run: Seq<(BasicBlock, spec_fn(Inst) -> i32)>,
    k: int,
    i: Inst,
) -> bool {
    match status_of(m, i) {
        VariableStatus::Constant(c) => run[k].1(i) == c,
        _ => true,
    }
}

proof fn lemma_passed(
    p: ProgramV,
    f: Function,
    st: RunV,
    run: Seq<(BasicBlock, spec_fn(Inst) -> i32)>,
    k: int,
    t: BasicBlock,
    args: Seq<Inst>,
    r: int,
)
    requires
        all_covered(p, st.flow.status, args, p.block(t).params),
        args.len() == p.block(t).params.len(),
        0 <= r < args.len(),
        proceeds(p, run, k),
        valued(p, args[r]) ==> holds_at(p, st.flow.status, run, k, args[r]),
        statuses_fit(p, f, st.flow.status),
    ensures
        match status_of(st.flow.status, p.block(t).params[r]) {
            VariableStatus::Constant(c) => run[k].1(args[r]) == c,
            _ => true,
        },
{
    assert(covers(p, st.flow.status, p.block(t).params[r], args[r]));
}

/// What the propagation has noted of the values that are set by step `k`, and that it has entered the
/// block of that step.
proof fn lemma_run(
    p: ProgramV,
    f: Function,
    entry: BasicBlock,
    st: RunV,
    run: Seq<(BasicBlock, spec_fn(Inst) -> i32)>,
    k: int,
)
    requires
        sound_function(p, f, entry),
        closing(p, f, entry, st),
        finished(st),
        runs(p, entry, run),
        0 <= k < run.len(),
    ensures
        st.entered.contains(run[k].0),
        forall|i: Inst| #[trigger] valued(p, i) && set_by(p, run, k, i) ==> holds_at(p, st.flow.status, run, k, i),
    decreases k,
{
    let m = st.flow.status;
    let (b, env) = run[k];
    assert(proceeds(p, run, k));
    if k == 0 {
        assert(st.edges.contains((entry, entry)));
        assert forall|i: Inst| p.block(b).params.contains(i) implies #[trigger] holds_at(p, m, run, k, i) by {
            let r = p.block(b).params.index_of(i);
            assert(p.func(f).params[r] == i);
        }
    } else {
        lemma_run(p, f, entry, st, run, k - 1);
        lemma_entered(p, f, entry, st, run, k);
    }
    assert(st.entered.contains(b));
    lemma_block(p, f, entry, st, run, k, p.block(b).insts.len() as int);
    assert forall|i: Inst| #[trigger] valued(p, i) && set_by(p, run, k, i) implies holds_at(p, m, run, k, i) by {
        if p.block(b).insts.contains(i) {
            let q = p.block(b).insts.index_of(i);
            assert(holds_at(p, m, run, k, p.block(b).insts[q]));
        } else if !p.block(b).params.contains(i) {
            let n = choose|n: int| 0 <= n <= k && #[trigger] set_in(p, run[n].0, i);
            assert(!set_in(p, b, i));
            assert(set_in(p, run[n].0, i));
            assert(n < k);
            assert(set_by(p, run, k - 1, i));
            assert(holds_at(p, m, run, k - 1, i));
            assert(env(i) == run[k - 1].1(i));
        }
    }
}

/// The block of step `k` is entered, and what is noted of its parameters holds.
proof fn lemma_entered(
    p: ProgramV,
    f: Function,
    entry: BasicBlock,
    st: RunV,
    run: Seq<(BasicBlock, spec_fn(Inst) -> i32)>,
    k: int,
)
    requires
        sound_function(p, f, entry),
        closing(p, f, entry, st),
        finished(st),
        runs(p, entry, run),
        0 < k < run.len(),
        st.entered.contains(run[k - 1].0),
        forall|i: Inst| #[trigger] valued(p, i) && set_by(p, run, k - 1, i) ==> holds_at(p, st.flow.status, run, k - 1, i),
    ensures
        st.entered.contains(run[k].0),
        forall|i: Inst| p.block(run[k].0).params.contains(i) ==> #[trigger] holds_at(p, st.flow.status, run, k, i),
{
    let m = st.flow.status;
    let (b, env) = run[k];
    let (prev, old_env) = run[k - 1];
    let insts = p.block(prev).insts;
    let t = p.terminator(prev);
    let last = insts.len() - 1;
    assert(proceeds(p, run, k));
    assert(proceeds(p, run, k - 1));
    assert(insts[last] == t);
    assert(insts.contains(t));
    assert(sound_inst(p, f, prev, t));
    assert(consistent(p, st, prev, t));
    assert(performed(p, run, k - 1, last));
    // operands of the transfer have their values
    assert forall|r: int| 0 <= r < p.args(t).len() && valued(p, #[trigger] p.args(t)[r]) implies holds_at(
        p,
        m,
        run,
        k - 1,
        p.args(t)[r],
    ) by {
        let a = p.args(t)[r];
        assert(ready(p, run, k - 1, last, a));
        lemma_ready_is_set(p, run, k - 1, last, a);
    }
    let args = match p.op(t) {
        Op::Jump(_) => p.args(t),
        _ => if old_env(p.arg(t, 0)) != 0 {
            p.t_args(t)
        } else {
            p.f_args(t)
        },
    };
    if p.op(t) is Branch {
        let c = p.arg(t, 0);
        assert(p.args(t)[0] == c);
        lemma_branch_args(p, t);
        if let VariableStatus::Constant(x) = status_of(m, c) {
            assert(p.op(c) is Integer || valued(p, c));
            assert(old_env(c) == x);
        }
    } else {
        assert(p.op(t) is Jump);
    }
    assert(edge_done(p, st, prev, b, args));
    assert(!st.flow.flow.contains((prev, b)));
    assert(st.edges.contains((prev, b)));
    assert((leads(p, old_env, t)->0).1 == values(old_env, args));
    assert forall|i: Inst| p.block(b).params.contains(i) implies #[trigger] holds_at(p, m, run, k, i) by {
        let r = p.block(b).params.index_of(i);
        assert(p.block(b).params[r] == i);
        assert(args.len() == p.block(b).params.len());
        let a = args[r];
        assert(p.args(t).contains(a)) by {
            if p.op(t) is Jump {
                assert(p.args(t)[r] == a);
            }
        }
        let w = p.args(t).index_of(a);
        assert(p.args(t)[w] == a);
        lemma_passed(p, f, st, run, k - 1, b, args, r);
        assert(env(p.block(b).params[r]) == values(old_env, args)[r]);
    }
}

proof fn lemma_ready_is_set(p: ProgramV, run: Seq<(BasicBlock, spec_fn(Inst) -> i32)>, k: int, q: int, a: Inst)
    requires
        0 <= k < run.len(),
        0 <= q < p.block(run[k].0).insts.len(),
        ready(p, run, k, q, a),
        valued(p, a),
    ensures
        set_by(p, run, k, a),
{
    if p.block(run[k].0).params.contains(a) {
        assert(set_in(p, run[k].0, a));
    } else if k > 0 && set_by(p, run, k - 1, a) {
        let n = choose|n: int| 0 <= n <= k - 1 && #[trigger] set_in(p, run[n].0, a);
        assert(set_in(p, run[n].0, a));
    } else {
        let r = choose|r: int| 0 <= r < q && #[trigger] p.block(run[k].0).insts[r] == a;
        assert(p.block(run[k].0).insts.contains(a));
        assert(set_in(p, run[k].0, a));
    }
}

/// What is noted of the first `upto` instructions of the block of step `k` holds.
proof fn lemma_block(
    p: ProgramV,
    f: Function,
    entry: BasicBlock,
    st: RunV,
    run: Seq<(BasicBlock, spec_fn(Inst) -> i32)>,
    k: int,
    upto: int,
)
    requires
        sound_function(p, f, entry),
        closing(p, f, entry, st),
        finished(st),
        runs(p, entry, run),
        0 <= k < run.len(),
        st.entered.contains(run[k].0),
        forall|i: Inst| p.block(run[k].0).params.contains(i) ==> #[trigger] holds_at(p, st.flow.status, run, k, i),
        k > 0 ==> forall|i: Inst|
            #[trigger] valued(p, i) && set_by(p, run, k - 1, i) ==> holds_at(p, st.flow.status, run, k - 1, i),
        0 <= upto <= p.block(run[k].0).insts.len(),
    ensures
        forall|q: int|
            0 <= q < upto && valued(p, #[trigger] p.block(run[k].0).insts[q]) ==> holds_at(
                p,
                st.flow.status,
                run,
                k,
                p.block(run[k].0).insts[q],
            ),
    decreases upto,
{
    if upto > 0 {
        lemma_block(p, f, entry, st, run, k, upto - 1);
        let m = st.flow.status;
        let (b, env) = run[k];
        let insts = p.block(b).insts;
        let i = insts[upto - 1];
        assert(insts.contains(i));
        assert(proceeds(p, run, k));
        assert(performed(p, run, k, upto - 1));
        assert(sound_inst(p, f, b, i));
        assert(consistent(p, st, b, i));
        if p.op(i) is Binary && status_of(m, i) is Constant {
            let x = p.arg(i, 0);
            let y = p.arg(i, 1);
            assert(p.args(i)[0] == x && p.args(i)[1] == y);
            lemma_operand(p, f, entry, st, run, k, upto - 1, x);
            lemma_operand(p, f, entry, st, run, k, upto - 1, y);
        }
        if p.op(i) is Cast && status_of(m, i) is Constant {
            if let Op::Float(bits) = p.op(p.arg(i, 0)) {
                folds_are_casts(bits, env(i));
            }
        }
    }
}

/// An operand that is noted as constant has that value when the instruction is run.
proof fn lemma_operand(
    p: ProgramV,
    f: Function,
    entry: BasicBlock,
    st: RunV,
    run: Seq<(BasicBlock, spec_fn(Inst) -> i32)>,
    k: int,
    q: int,
    a: Inst,
)
    requires
        sound_function(p, f, entry),
        closing(p, f, entry, st),
        runs(p, entry, run),
        0 <= k < run.len(),
        0 <= q < p.block(run[k].0).insts.len(),
        ready(p, run, k, q, a),
        forall|i: Inst| p.block(run[k].0).params.contains(i) ==> #[trigger] holds_at(p, st.flow.status, run, k, i),
        k > 0 ==> forall|i: Inst|
            #[trigger] valued(p, i) && set_by(p, run, k - 1, i) ==> holds_at(p, st.flow.status, run, k - 1, i),
        forall|r: int|
            0 <= r < q && valued(p, #[trigger] p.block(run[k].0).insts[r]) ==> holds_at(
                p,
                st.flow.status,
                run,
                k,
                p.block(run[k].0).insts[r],
            ),
        operand_status(p, st.flow.status, a) is Constant,
    ensures
        run[k].1(a) == (operand_status(p, st.flow.status, a)->Constant_0),
        p.ty(a) is I32,
{
    let m = st.flow.status;
    let (b, env) = run[k];
    assert(proceeds(p, run, k));
    if p.op(a) is Integer {
        assert(env(a) == p.op(a)->Integer_0);
    } else {
        assert(status_of(m, a) is Constant);
        assert(valued(p, a));
        if p.block(b).params.contains(a) {
            assert(holds_at(p, m, run, k, a));
        } else if exists|r: int| 0 <= r < q && #[trigger] p.block(b).insts[r] == a {
            let r = choose|r: int| 0 <= r < q && #[trigger] p.block(b).insts[r] == a;
            assert(holds_at(p, m, run, k, p.block(b).insts[r]));
        } else {
            assert(set_by(p, run, k - 1, a));
            assert(holds_at(p, m, run, k - 1, a));
            assert(!set_in(p, b, a));
            assert(env(a) == run[k - 1].1(a));
        }
    }
}

/// The state that the propagation over `f` ends in.
pub open spec fn end_of(p: ProgramV, f: Function, entry: BasicBlock) -> Option<RunV> {
    propagated(p, f, initial(p, f, entry), usize::MAX as nat)
}

/// The propagation comes to an end at which what is noted of every instruction of an entered block
/// follows from what is noted of its operands.
pub proof fn propagation_is_closed(p: ProgramV, f: Function, entry: BasicBlock, b: BasicBlock, i: Inst)
    requires
        sound_function(p, f, entry),
        end_of(p, f, entry) is Some,
        finished(end_of(p, f, entry)->0),
        (end_of(p, f, entry)->0).entered.contains(b),
        p.block(b).insts.contains(i),
    ensures
        consistent(p, end_of(p, f, entry)->0, b, i),
{
    lemma_initial(p, f, entry);
    lemma_propagated(p, f, entry, initial(p, f, entry), usize::MAX as nat);
}

/// Every block that a run of `f` reaches was entered by the propagation.
pub proof fn reached_blocks_are_entered(
    p: ProgramV,
    f: Function,
    entry: BasicBlock,
    run: Seq<(BasicBlock, spec_fn(Inst) -> i32)>,
    k: int,
)
    requires
        sound_function(p, f, entry),
        end_of(p, f, entry) is Some,
        finished(end_of(p, f, entry)->0),
        runs(p, entry, run),
        0 <= k < run.len(),
    ensures
        (end_of(p, f, entry)->0).entered.contains(run[k].0),
{
    lemma_initial(p, f, entry);
    lemma_propagated(p, f, entry, initial(p, f, entry), usize::MAX as nat);
    lemma_run(p, f, entry, end_of(p, f, entry)->0, run, k);
}

/// A value that the propagation finds constant has that value in every run of `f`, from when it is first
/// set.
pub proof fn constants_hold_in_every_run(
    p: ProgramV,
    f: Function,
    entry: BasicBlock,
    run: Seq<(BasicBlock, spec_fn(Inst) -> i32)>,
    k: int,
    i: Inst,
)
    requires
        sound_function(p, f, entry),
        solved(p, f, entry) is Some,
        finished(end_of(p, f, entry)->0),
        runs(p, entry, run),
        0 <= k < run.len(),
        set_by(p, run, k, i),
        valued(p, i),
    ensures
        match status_of(solved(p, f, entry)->0, i) {
            VariableStatus::Constant(c) => run[k].1(i) == c,
            _ => true,
        },
{
    lemma_initial(p, f, entry);
    lemma_propagated(p, f, entry, initial(p, f, entry), usize::MAX as nat);
    lemma_run(p, f, entry, end_of(p, f, entry)->0, run, k);
    assert(holds_at(p, solved(p, f, entry)->0, run, k, i));
}

} // verus!
