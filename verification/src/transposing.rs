//! A matrix stored by columns gives back what was stored, since all its uses are known and all are exchanged.

use vstd::prelude::*;

use crate::column_major::{
    accesses_exchanged, accesses_from, accesses_hold, all_leaves, candidate_at, columns_made, exchange_keeps_cells,
    exchange_twice_is_nothing, exchanged, exchanged_type, initializer_transposed, is_exchanged, leaves, lemma_cell_exists, memory_users, named, root_exchanged,
    touches, transposed, Access, CandidateV, RootKind,
};
use crate::ipsccp::owner_from;
use crate::ir::{Inst, InstV, Op, ProgramV, Type};
use crate::propagation::lemma_users;

verus! {

/// Instruction `u` clears matrix `root`.
pub open spec fn clears(p: ProgramV, root: Inst, u: Inst) -> bool {
    (p.op(u) is MemZero || p.op(u) is MemZeroDyn) && p.arg(u, 0) == root
}

/// Access `x` says what address computation `x.gep` of matrix `root` says, and only loads and stores use the
/// address.
pub open spec fn is_access(p: ProgramV, root: Inst, x: Access) -> bool {
    &&& p.op(x.gep) is GetElemPtr
    &&& p.args(x.gep).len() == 4
    &&& p.arg(x.gep, 0) == root
    &&& x.row == p.arg(x.gep, 2)
    &&& x.column == p.arg(x.gep, 3)
    &&& memory_users(p, x.gep) == Some(x.memory_user_count)
}

proof fn lemma_accesses(p: ProgramV, root: Inst, users: Seq<Inst>, from: int, found: Seq<Access>)
    requires
        0 <= from,
        forall|k: int| 0 <= k < found.len() ==> is_access(p, root, #[trigger] found[k]),
    ensures
        accesses_from(p, root, users, from, found) matches Some(all) ==> {
            &&& found.len() <= all.len()
            &&& forall|k: int| 0 <= k < found.len() ==> #[trigger] all[k] == found[k]
            &&& forall|k: int| 0 <= k < all.len() ==> is_access(p, root, #[trigger] all[k])
            &&& forall|j: int|
                from <= j < users.len() ==> clears(p, root, #[trigger] users[j]) || exists|k: int|
                    0 <= k < all.len() && (#[trigger] all[k]).gep == users[j]
        },
    decreases users.len() - from,
{
    if from < users.len() && accesses_from(p, root, users, from, found) is Some {
        let u = users[from];
        let all = accesses_from(p, root, users, from, found)->0;
        if p.op(u) is GetElemPtr {
            let (f, _) = owner_from(p, p.layout, u, 0)->0;
            let x = Access {
                function: f,
                gep: u,
                row: p.arg(u, 2),
                column: p.arg(u, 3),
                memory_user_count: memory_users(p, u)->0,
            };
            let more = found.push(x);
            assert forall|k: int| 0 <= k < more.len() implies is_access(p, root, #[trigger] more[k]) by {
                if k < found.len() {
                    assert(more[k] == found[k]);
                }
            }
            lemma_accesses(p, root, users, from + 1, more);
            assert(all[found.len() as int] == more[found.len() as int]);
            assert forall|k: int| 0 <= k < found.len() implies #[trigger] all[k] == found[k] by {
                assert(all[k] == more[k]);
            }
        } else {
            lemma_accesses(p, root, users, from + 1, found);
        }
    }
}

/// Whatever uses a matrix that is stored by columns is known: it clears the matrix, or it is one of the
/// accesses, whose addresses only loads and stores use.
pub proof fn every_use_is_known(p: ProgramV, root: Inst, kind: RootKind, u: Inst)
    requires
        candidate_at(p, root, kind) is Some,
        p.insts.len() <= usize::MAX,
        p.args(u).contains(root),
    ensures
        ({
            let c = candidate_at(p, root, kind)->0;
            clears(p, root, u) || exists|k: int|
                0 <= k < c.accesses.len() && (#[trigger] c.accesses[k]).gep == u && is_access(p, root, c.accesses[k])
        }),
{
    lemma_accesses(p, root, p.users(root), 0, Seq::empty());
    lemma_users(p, root, u, 0, Seq::empty());
    let j = p.users(root).index_of(u);
    assert(p.users(root)[j] == u);
    let c = candidate_at(p, root, kind)->0;
    assert(c.accesses == accesses_from(p, root, p.users(root), 0, Seq::empty())->0);
    if !clears(p, root, u) {
        let k = choose|k: int| 0 <= k < c.accesses.len() && (#[trigger] c.accesses[k]).gep == p.users(root)[j];
        assert(is_access(p, root, c.accesses[k]));
    }
}

/// Address computation `i` of a matrix made to give the column first.
pub open spec fn access_exchanged(p: ProgramV, c: CandidateV, i: Inst) -> InstV {
    InstV {
        op: Op::GetElemPtr,
        args: seq![c.root, p.arg(i, 1), p.arg(i, 3), p.arg(i, 2)],
        ty: Type::Pointer(Box::new(c.element_ty)),
        global: p.inst(i).global,
        name: p.inst(i).name,
    }
}

/// One of the first `n` accesses computes its address by `i`.
pub open spec fn among(accesses: Seq<Access>, n: int, i: Inst) -> bool {
    exists|k: int| 0 <= k < n && (#[trigger] accesses[k]).gep == i
}

/// In `q` the first `n` accesses of matrix `c` are exchanged, and the other instructions of `p` but for the
/// matrix itself are as they were.
pub open spec fn partly_exchanged(p: ProgramV, c: CandidateV, q: ProgramV, n: int) -> bool {
    &&& p.insts.len() <= q.insts.len()
    &&& q.blocks == p.blocks
    &&& q.funcs == p.funcs
    &&& q.layout == p.layout
    &&& q.globals == p.globals
    &&& q.ty(c.root) == Type::Pointer(Box::new(exchanged_type(c)))
    &&& forall|i: Inst|
        i.0 < p.insts.len() && i != c.root ==> #[trigger] q.inst(i) == if among(c.accesses, n, i) {
            access_exchanged(p, c, i)
        } else {
            p.inst(i)
        }
}

proof fn lemma_accesses_exchanged(p: ProgramV, c: CandidateV, q: ProgramV, n: int)
    requires
        partly_exchanged(p, c, q, n),
        0 <= n <= c.accesses.len(),
        c.root.0 < p.insts.len(),
        !(p.op(c.root) is GetElemPtr),
        forall|k: int| 0 <= k < c.accesses.len() ==> is_access(p, c.root, #[trigger] c.accesses[k]),
    ensures
        ({
            let r = accesses_exchanged(q, c.root, c.accesses, n);
            &&& partly_exchanged(p, c, r, c.accesses.len() as int)
            &&& r.insts.len() == q.insts.len()
            &&& r.inst(c.root) == q.inst(c.root)
            &&& forall|i: Inst| p.insts.len() <= i.0 ==> #[trigger] r.inst(i) == q.inst(i)
        }),
    decreases c.accesses.len() - n,
{
    if n < c.accesses.len() {
        reveal(ProgramV::set_inst);
        reveal(ProgramV::set_name);
        let x = c.accesses[n];
        assert(is_access(p, c.root, x));
        assert(x.gep.0 < p.insts.len());
        assert(x.gep != c.root);
        let args = seq![c.root, q.arg(x.gep, 1), x.column, x.row];
        let s = q.set_inst(x.gep, Op::GetElemPtr, args, q.gep_ty(c.root, 3));
        let r = named(s, x.gep, q.inst(x.gep).name);
        assert(q.arg(x.gep, 1) == p.arg(x.gep, 1));
        assert(q.gep_ty(c.root, 3) == Type::Pointer(Box::new(c.element_ty))) by {
            reveal_with_fuel(Type::element_at, 3);
        }
        assert(r.inst(x.gep) == access_exchanged(p, c, x.gep));
        assert forall|i: Inst| i.0 < p.insts.len() && i != c.root implies #[trigger] r.inst(i) == if among(
            c.accesses,
            n + 1,
            i,
        ) {
            access_exchanged(p, c, i)
        } else {
            p.inst(i)
        } by {
            assert(q.inst(i) == if among(c.accesses, n, i) {
                access_exchanged(p, c, i)
            } else {
                p.inst(i)
            });
            if i == x.gep {
                assert(c.accesses[n].gep == i);
            } else if among(c.accesses, n + 1, i) {
                let k = choose|k: int| 0 <= k < n + 1 && (#[trigger] c.accesses[k]).gep == i;
                assert(c.accesses[k].gep == i);
            }
        }
        lemma_accesses_exchanged(p, c, r, n + 1);
    }
}

/// Program `q` holds what `p` held, and more instructions.
pub open spec fn prolonged(p: ProgramV, q: ProgramV) -> bool {
    &&& p.insts.len() <= q.insts.len()
    &&& q.blocks == p.blocks
    &&& q.funcs == p.funcs
    &&& q.layout == p.layout
    &&& q.globals == p.globals
    &&& forall|i: int| 0 <= i < p.insts.len() ==> #[trigger] q.insts[i] == p.insts[i]
}

/// Instruction `i` lists the cells of column `k`.
pub open spec fn lists_column(i: InstV, cells: Seq<Inst>, rows: int, k: int) -> bool {
    i.op is Aggregate && i.args == cells.subrange(k * rows, k * rows + rows)
}

proof fn lemma_columns_made(p: ProgramV, cells: Seq<Inst>, rows: int, columns: int, from: int, found: Seq<Inst>)
    requires
        0 <= from <= columns,
    ensures
        ({
            let (q, parts) = columns_made(p, cells, rows, columns, from, found);
            &&& prolonged(p, q)
            &&& q.insts.len() == p.insts.len() + columns - from
            &&& parts.len() == found.len() + columns - from
            &&& forall|k: int| 0 <= k < found.len() ==> #[trigger] parts[k] == found[k]
            &&& forall|k: int|
                found.len() <= k < parts.len() ==> #[trigger] parts[k] == Inst(
                    (p.insts.len() + k - found.len()) as usize,
                )
            &&& forall|k: int|
                p.insts.len() <= k < q.insts.len() ==> lists_column(
                    #[trigger] q.insts[k],
                    cells,
                    rows,
                    from + k - p.insts.len(),
                )
        }),
    decreases columns - from,
{
    if from < columns {
        reveal(ProgramV::push_inst);
        let args = cells.subrange(from * rows, from * rows + rows);
        let ty = Type::Array(
            Box::new(p.ty(if args.len() > 0 { args[0] } else { crate::ir::nothing() })),
            args.len() as usize,
        );
        let next = p.push_inst(Op::Aggregate, args, ty, true);
        let more = found.push(p.next_inst());
        lemma_columns_made(next, cells, rows, columns, from + 1, more);
        let (q, parts) = columns_made(p, cells, rows, columns, from, found);
        assert forall|i: int| 0 <= i < p.insts.len() implies #[trigger] q.insts[i] == p.insts[i] by {
            assert(q.insts[i] == next.insts[i]);
        }
        assert(q.insts[p.insts.len() as int] == next.insts[p.insts.len() as int]);
        assert forall|k: int| 0 <= k < found.len() implies #[trigger] parts[k] == found[k] by {
            assert(parts[k] == more[k]);
        }
        assert(parts[found.len() as int] == more[found.len() as int]);
    }
}

/// Value `l` is listed by some aggregate.
pub open spec fn is_listed(p: ProgramV, l: Inst) -> bool {
    exists|a: Inst| #[trigger] p.args(a).contains(l) && p.op(a) is Aggregate
}

proof fn lemma_leaves_listed(p: ProgramV, i: Inst, fuel: nat, l: Inst)
    requires
        leaves(p, i, fuel).contains(l),
    ensures
        is_listed(p, l) || (l == i && !(fuel > 0 && p.op(i) is Aggregate)),
    decreases fuel, 0int, 0int,
{
    if fuel > 0 && p.op(i) is Aggregate {
        lemma_all_leaves_listed(p, i, 0, Seq::empty(), (fuel - 1) as nat, l);
    }
}

proof fn lemma_all_leaves_listed(p: ProgramV, a: Inst, from: int, found: Seq<Inst>, fuel: nat, l: Inst)
    requires
        p.op(a) is Aggregate,
        0 <= from,
        all_leaves(p, p.args(a), from, found, fuel).contains(l),
    ensures
        found.contains(l) || is_listed(p, l),
    decreases fuel, 1int, p.args(a).len() - from,
{
    let args = p.args(a);
    if from < args.len() {
        let here = leaves(p, args[from], fuel);
        lemma_all_leaves_listed(p, a, from + 1, found + here, fuel, l);
        if (found + here).contains(l) && !found.contains(l) {
            let k = (found + here).index_of(l);
            assert((found + here)[k] == l);
            if k < found.len() {
                assert(found[k] == l);
            }
            assert(here[k - found.len()] == l);
            lemma_leaves_listed(p, args[from], fuel, l);
            assert(args.contains(args[from]));
        }
    }
}

/// Matrix `c` with all its uses, as it is found in `p`.
pub open spec fn is_found(p: ProgramV, c: CandidateV) -> bool {
    &&& candidate_at(p, c.root, c.kind) == Some(c)
    &&& match c.kind {
        RootKind::Local(_) => p.op(c.root) is Alloc,
        RootKind::Global { init } => p.op(c.root) is GlobalAlloc && init == p.arg(c.root, 0),
    }
}

/// What storing matrix `c` by columns adds to `p`: instructions that use only listed values and one another.
pub open spec fn adds_listed(p: ProgramV, q: ProgramV) -> bool {
    forall|k: int, a: Inst|
        p.insts.len() <= k < q.insts.len() && #[trigger] q.insts[k].args.contains(a) ==> is_listed(p, a)
            || p.insts.len() <= a.0 < q.insts.len()
}

proof fn lemma_initializer(p: ProgramV, init: Inst, c: CandidateV, ty: Type)
    requires
        p.insts.len() > 0,
        p.op(init) is Aggregate ==> leaves(p, init, p.insts.len()).len() == c.rows * c.columns,
        initializer_transposed(p, init, c, ty).0.insts.len() <= usize::MAX,
    ensures
        ({
            let (q, made) = initializer_transposed(p, init, c, ty);
            &&& prolonged(p, q)
            &&& p.insts.len() <= made.0 < q.insts.len()
            &&& q.ty(made) == ty
            &&& adds_listed(p, q)
        }),
{
    reveal(ProgramV::push_inst);
    let (rows, columns) = (c.rows as int, c.columns as int);
    let (q, made) = initializer_transposed(p, init, c, ty);
    if p.op(init) is Aggregate {
        let old_cells = leaves(p, init, p.insts.len());
        let cells = transposed(old_cells, rows, columns);
        let (mid, parts) = columns_made(p, cells, rows, columns, 0, Seq::empty());
        lemma_columns_made(p, cells, rows, columns, 0, Seq::empty());
        assert(q.insts.len() == mid.insts.len() + 1);
        assert forall|k: int, a: Inst|
            p.insts.len() <= k < q.insts.len() && #[trigger] q.insts[k].args.contains(a) implies is_listed(p, a)
            || p.insts.len() <= a.0 < q.insts.len() by {
            let args = q.insts[k].args;
            let j = args.index_of(a);
            assert(args[j] == a);
            if k < mid.insts.len() {
                assert(q.insts[k] == mid.insts[k]);
                let col = k - p.insts.len();
                assert(lists_column(mid.insts[k], cells, rows, col));
                assert(0 <= col * rows && col * rows + rows <= rows * columns) by (nonlinear_arith)
                    requires
                        0 <= col < columns,
                        0 <= rows,
                ;
                let at = col * rows + j;
                assert(cells[at] == a);
                lemma_cell_exists(at, rows, columns);
                assert(old_cells.contains(a));
                lemma_leaves_listed(p, init, p.insts.len(), a);
            } else {
                assert(args == parts);
                assert(parts[j] == Inst((p.insts.len() + j) as usize));
            }
        }
    } else {
        assert forall|k: int, a: Inst|
            p.insts.len() <= k < q.insts.len() && #[trigger] q.insts[k].args.contains(a) implies is_listed(p, a)
            || p.insts.len() <= a.0 < q.insts.len() by {
            assert(q.insts[k].args == Seq::<Inst>::empty());
        }
    }
}

proof fn lemma_root_exchanged(p: ProgramV, c: CandidateV)
    requires
        is_found(p, c),
        root_exchanged(p, c).insts.len() <= usize::MAX,
    ensures
        ({
            let q = root_exchanged(p, c);
            &&& c.root.0 < p.insts.len()
            &&& partly_exchanged(p, c, q, 0)
            &&& adds_listed(p, q)
            &&& forall|a: Inst| #[trigger] q.args(c.root).contains(a) ==> p.insts.len() <= a.0 < q.insts.len()
            &&& c.kind is Global ==> q.op(c.root) is GlobalAlloc && q.args(c.root).len() == 1 && q.ty(q.arg(c.root, 0))
                == exchanged_type(c)
        }),
{
    reveal(ProgramV::set_inst);
    reveal(ProgramV::set_name);
    let ty = exchanged_type(c);
    let q = root_exchanged(p, c);
    match c.kind {
        RootKind::Local(_) => {
            assert forall|i: Inst| i.0 < p.insts.len() && i != c.root implies #[trigger] q.inst(i) == p.inst(i) by {}
        },
        RootKind::Global { init } => {
            let (mid, made) = initializer_transposed(p, init, c, ty);
            let s = mid.set_inst(c.root, Op::GlobalAlloc, seq![made], Type::Pointer(Box::new(ty)));
            assert(s.insts.len() == mid.insts.len());
            assert(q.insts.len() == mid.insts.len());
            lemma_initializer(p, init, c, ty);
            assert forall|i: Inst| i.0 < p.insts.len() && i != c.root implies #[trigger] q.inst(i) == p.inst(i) by {
                assert(mid.insts[i.0 as int] == p.insts[i.0 as int]);
            }
            assert forall|k: int, a: Inst|
                p.insts.len() <= k < q.insts.len() && #[trigger] q.insts[k].args.contains(a) implies is_listed(p, a)
                || p.insts.len() <= a.0 < q.insts.len() by {
                assert(mid.insts[k].args.contains(a));
            }
        },
    }
}

/// Storing a matrix by columns changes the matrix and its accesses and nothing else: each access gives the
/// column first, and keeps its place, its name and the type of the cell.
pub proof fn exchanging_is_precise(p: ProgramV, c: CandidateV)
    requires
        is_found(p, c),
        exchanged(p, c).insts.len() <= usize::MAX,
    ensures
        partly_exchanged(p, c, exchanged(p, c), c.accesses.len() as int),
{
    lemma_exchanged(p, c);
}

proof fn lemma_exchanged(p: ProgramV, c: CandidateV)
    requires
        is_found(p, c),
        exchanged(p, c).insts.len() <= usize::MAX,
    ensures
        ({
            let q = root_exchanged(p, c);
            let r = exchanged(p, c);
            &&& c.root.0 < p.insts.len()
            &&& r.insts.len() == q.insts.len()
            &&& partly_exchanged(p, c, r, c.accesses.len() as int)
            &&& r.inst(c.root) == q.inst(c.root)
            &&& forall|i: Inst| p.insts.len() <= i.0 ==> #[trigger] r.inst(i) == q.inst(i)
            &&& forall|k: int| 0 <= k < c.accesses.len() ==> is_access(p, c.root, #[trigger] c.accesses[k])
        }),
{
    lemma_accesses(p, c.root, p.users(c.root), 0, Seq::empty());
    lemma_exchange_grows(root_exchanged(p, c), c.root, c.accesses, 0);
    lemma_root_exchanged(p, c);
    lemma_accesses_exchanged(p, c, root_exchanged(p, c), 0);
}

proof fn lemma_exchange_grows(p: ProgramV, root: Inst, accesses: Seq<Access>, from: int)
    requires
        0 <= from,
    ensures
        accesses_exchanged(p, root, accesses, from).insts.len() == p.insts.len(),
    decreases accesses.len() - from,
{
    if from < accesses.len() {
        reveal(ProgramV::set_inst);
        reveal(ProgramV::set_name);
        let x = accesses[from];
        let q = p.set_inst(
            x.gep,
            Op::GetElemPtr,
            seq![root, p.arg(x.gep, 1), x.column, x.row],
            p.gep_ty(root, 3),
        );
        lemma_exchange_grows(named(q, x.gep, p.inst(x.gep).name), root, accesses, from + 1);
    }
}

proof fn lemma_no_more_users(p: ProgramV, i: Inst, from: int, found: Seq<Inst>)
    requires
        0 <= from,
        forall|j: int| from <= j < p.insts.len() ==> !(#[trigger] p.insts[j]).args.contains(i),
    ensures
        p.users_from(i, from, found) == found,
    decreases p.insts.len() - from,
{
    if from < p.insts.len() {
        assert(!p.insts[from].args.contains(i));
        lemma_no_more_users(p, i, from + 1, found);
    }
}

proof fn lemma_same_users(p: ProgramV, q: ProgramV, i: Inst, from: int, found: Seq<Inst>)
    requires
        0 <= from <= p.insts.len() <= q.insts.len(),
        forall|j: int|
            0 <= j < p.insts.len() ==> (#[trigger] q.insts[j]).args.contains(i) == p.insts[j].args.contains(i),
        forall|j: int| p.insts.len() <= j < q.insts.len() ==> !(#[trigger] q.insts[j]).args.contains(i),
    ensures
        q.users_from(i, from, found) == p.users_from(i, from, found),
    decreases p.insts.len() - from,
{
    if from < p.insts.len() {
        assert(q.insts[from].args.contains(i) == p.insts[from].args.contains(i));
        if p.insts[from].args.contains(i) {
            lemma_same_users(p, q, i, from + 1, found.push(Inst(from as usize)));
        } else {
            lemma_same_users(p, q, i, from + 1, found);
        }
    } else {
        lemma_no_more_users(q, i, from, found);
    }
}

/// What uses the address of an access loads from it or stores to it.
proof fn lemma_users_touch(p: ProgramV, gep: Inst, u: Inst)
    requires
        memory_users(p, gep) is Some,
        p.insts.len() <= usize::MAX,
        p.args(u).contains(gep),
    ensures
        touches(p, gep, u),
{
    lemma_users(p, gep, u, 0, Seq::empty());
    let k = p.users(gep).index_of(u);
    assert(p.users(gep)[k] == u);
}

proof fn lemma_users_exist(p: ProgramV, i: Inst, from: int, found: Seq<Inst>)
    requires
        0 <= from,
        p.insts.len() <= usize::MAX,
        forall|k: int| 0 <= k < found.len() ==> (#[trigger] found[k]).0 < p.insts.len(),
    ensures
        forall|k: int|
            0 <= k < p.users_from(i, from, found).len() ==> (#[trigger] p.users_from(i, from, found)[k]).0 < p.insts.len(),
    decreases p.insts.len() - from,
{
    if from < p.insts.len() {
        if p.insts[from].args.contains(i) {
            let more = found.push(Inst(from as usize));
            lemma_users_exist(p, i, from + 1, more);
            assert(p.users_from(i, from, found) == p.users_from(i, from + 1, more));
        } else {
            lemma_users_exist(p, i, from + 1, found);
            assert(p.users_from(i, from, found) == p.users_from(i, from + 1, found));
        }
    } else {
        assert(p.users_from(i, from, found) == found);
    }
}

/// The loads and stores of an access stay what they were.
proof fn lemma_users_stay(p: ProgramV, c: CandidateV, n: int)
    requires
        is_found(p, c),
        exchanged(p, c).insts.len() <= usize::MAX,
        0 <= n < c.accesses.len(),
    ensures
        memory_users(exchanged(p, c), c.accesses[n].gep) == Some(c.accesses[n].memory_user_count),
{
    let gep = c.accesses[n].gep;
    let q = root_exchanged(p, c);
    let r = exchanged(p, c);
    lemma_exchanged(p, c);
    lemma_root_exchanged(p, c);
    assert(is_access(p, c.root, c.accesses[n]));
    assert(gep.0 < p.insts.len());
    if p.args(c.root).contains(gep) {
        lemma_users_touch(p, gep, c.root);
    }
    assert forall|j: int| 0 <= j < p.insts.len() implies (#[trigger] r.insts[j]).args.contains(gep)
        == p.insts[j].args.contains(gep) by {
        let i = Inst(j as usize);
        assert(r.inst(i) == r.insts[j]);
        assert(p.inst(i) == p.insts[j]);
        if i == c.root {
            assert(!q.args(c.root).contains(gep));
        } else if among(c.accesses, c.accesses.len() as int, i) {
            let k = choose|k: int| 0 <= k < c.accesses.len() && (#[trigger] c.accesses[k]).gep == i;
            assert(is_access(p, c.root, c.accesses[k]));
            let before = p.args(i);
            let after = r.args(i);
            assert(after == seq![before[0], before[1], before[3], before[2]]);
            if before.contains(gep) {
                let at = before.index_of(gep);
                assert(before[at] == gep);
                assert(after[0] == gep || after[1] == gep || after[2] == gep || after[3] == gep);
            }
            if after.contains(gep) {
                let at = after.index_of(gep);
                assert(after[at] == gep);
                assert(before[0] == gep || before[1] == gep || before[2] == gep || before[3] == gep);
            }
        }
    }
    assert forall|j: int| p.insts.len() <= j < r.insts.len() implies !(#[trigger] r.insts[j]).args.contains(gep) by {
        let i = Inst(j as usize);
        assert(r.inst(i) == q.inst(i));
        if q.insts[j].args.contains(gep) {
            let a = choose|a: Inst| #[trigger] p.args(a).contains(gep) && p.op(a) is Aggregate;
            lemma_users_touch(p, gep, a);
        }
    }
    lemma_same_users(p, r, gep, 0, Seq::empty());
    lemma_users_exist(p, gep, 0, Seq::empty());
    let users = p.users(gep);
    assert forall|k: int| 0 <= k < users.len() implies touches(r, gep, #[trigger] users[k]) by {
        let u = users[k];
        assert(touches(p, gep, u));
        if among(c.accesses, c.accesses.len() as int, u) {
            let m = choose|m: int| 0 <= m < c.accesses.len() && (#[trigger] c.accesses[m]).gep == u;
            assert(is_access(p, c.root, c.accesses[m]));
        }
        assert(r.inst(u) == p.inst(u));
    }
}

proof fn lemma_accesses_hold(p: ProgramV, c: CandidateV, from: int)
    requires
        is_found(p, c),
        exchanged(p, c).insts.len() <= usize::MAX,
        0 <= from <= c.accesses.len(),
    ensures
        accesses_hold(exchanged(p, c), c.root, c.accesses, from),
    decreases c.accesses.len() - from,
{
    if from < c.accesses.len() {
        lemma_exchanged(p, c);
        lemma_users_stay(p, c, from);
        let x = c.accesses[from];
        assert(is_access(p, c.root, x));
        assert(among(c.accesses, c.accesses.len() as int, x.gep));
        assert(exchanged(p, c).inst(x.gep) == access_exchanged(p, c, x.gep));
        lemma_accesses_hold(p, c, from + 1);
    }
}

/// A matrix stored by columns is found to be so: its type, its initial value and its accesses say it, and the
/// accesses are used as often as they were.
pub proof fn rewriting_is_verified(p: ProgramV, c: CandidateV)
    requires
        is_found(p, c),
        exchanged(p, c).insts.len() <= usize::MAX,
    ensures
        is_exchanged(exchanged(p, c), c, exchanged_type(c)),
{
    lemma_exchanged(p, c);
    lemma_root_exchanged(p, c);
    lemma_accesses_hold(p, c, 0);
    let q = root_exchanged(p, c);
    if c.kind is Global {
        assert(q.args(c.root).contains(q.args(c.root)[0]));
    }
}

/// Two accesses meet in the matrix by columns where they met in the matrix by rows, and nowhere else.
pub proof fn cells_stay_apart(rows: int, columns: int, i: int, j: int, k: int, l: int)
    requires
        0 <= i < rows,
        0 <= k < rows,
        0 <= j < columns,
        0 <= l < columns,
    ensures
        (j * rows + i == l * rows + k) == (i * columns + j == k * columns + l),
{
    lemma_same_cell(rows, j, i, l, k);
    lemma_same_cell(columns, i, j, k, l);
}

proof fn lemma_same_cell(n: int, a: int, x: int, b: int, y: int)
    requires
        0 <= x < n,
        0 <= y < n,
    ensures
        (a * n + x == b * n + y) == (a == b && x == y),
{
    if a * n + x == b * n + y {
        assert(a == b && x == y) by (nonlinear_arith)
            requires
                a * n + x == b * n + y,
                0 <= x < n,
                0 <= y < n,
        ;
    }
}

/// Initial values whose parts are no aggregates themselves are their own parts.
proof fn lemma_flat(p: ProgramV, args: Seq<Inst>, from: int, found: Seq<Inst>, fuel: nat)
    requires
        0 <= from <= args.len(),
        forall|k: int| 0 <= k < args.len() ==> !(p.op(#[trigger] args[k]) is Aggregate),
    ensures
        all_leaves(p, args, from, found, fuel) == found + args.subrange(from, args.len() as int),
    decreases args.len() - from,
{
    if from < args.len() {
        assert(!(p.op(args[from]) is Aggregate));
        assert(leaves(p, args[from], fuel) == seq![args[from]]);
        lemma_flat(p, args, from + 1, found + seq![args[from]], fuel);
        assert(found + seq![args[from]] + args.subrange(from + 1, args.len() as int) =~= found + args.subrange(
            from,
            args.len() as int,
        ));
    } else {
        assert(found + args.subrange(from, args.len() as int) =~= found);
    }
}

proof fn lemma_columns_flat(q: ProgramV, parts: Seq<Inst>, cells: Seq<Inst>, rows: int, from: int, fuel: nat)
    requires
        rows >= 0,
        fuel > 0,
        0 <= from <= parts.len(),
        cells.len() == rows * parts.len(),
        forall|k: int| 0 <= k < parts.len() ==> lists_column(q.inst(#[trigger] parts[k]), cells, rows, k),
        forall|k: int| 0 <= k < cells.len() ==> !(q.op(#[trigger] cells[k]) is Aggregate),
    ensures
        all_leaves(q, parts, from, cells.subrange(0, from * rows), fuel) == cells,
    decreases parts.len() - from,
{
    let n = parts.len();
    assert(0 <= from * rows <= rows * n) by (nonlinear_arith)
        requires
            0 <= from <= n,
            rows >= 0,
    ;
    if from < n {
        let here = cells.subrange(from * rows, from * rows + rows);
        assert((from + 1) * rows == from * rows + rows && from * rows + rows <= rows * n) by (nonlinear_arith)
            requires
                0 <= from < n,
                rows >= 0,
        ;
        assert(lists_column(q.inst(parts[from]), cells, rows, from));
        assert forall|k: int| 0 <= k < here.len() implies !(q.op(#[trigger] here[k]) is Aggregate) by {
            assert(here[k] == cells[from * rows + k]);
        }
        lemma_flat(q, here, 0, Seq::empty(), (fuel - 1) as nat);
        assert(leaves(q, parts[from], fuel) =~= here);
        assert(cells.subrange(0, from * rows) + here =~= cells.subrange(0, (from + 1) * rows));
        lemma_columns_flat(q, parts, cells, rows, from + 1, fuel);
    } else {
        assert(n * rows == rows * n) by (nonlinear_arith);
        assert(cells.subrange(0, from * rows) =~= cells);
    }
}

/// The initial value of a matrix by columns lists the cells of the one by rows, rearranged.
pub proof fn initializer_is_rearranged(p: ProgramV, init: Inst, c: CandidateV, ty: Type, fuel: nat)
    requires
        p.op(init) is Aggregate,
        leaves(p, init, p.insts.len()).len() == c.rows * c.columns,
        forall|k: int|
            0 <= k < leaves(p, init, p.insts.len()).len() ==> (#[trigger] leaves(p, init, p.insts.len())[k]).0
                < p.insts.len() && !(p.op(leaves(p, init, p.insts.len())[k]) is Aggregate),
        initializer_transposed(p, init, c, ty).0.insts.len() <= usize::MAX,
        fuel >= 2,
    ensures
        ({
            let (q, made) = initializer_transposed(p, init, c, ty);
            leaves(q, made, fuel) == transposed(leaves(p, init, p.insts.len()), c.rows as int, c.columns as int)
        }),
{
    reveal(ProgramV::push_inst);
    let (rows, columns) = (c.rows as int, c.columns as int);
    let (q, made) = initializer_transposed(p, init, c, ty);
    let old_cells = leaves(p, init, p.insts.len());
    let cells = transposed(old_cells, rows, columns);
    let (mid, parts) = columns_made(p, cells, rows, columns, 0, Seq::empty());
    lemma_columns_made(p, cells, rows, columns, 0, Seq::empty());
    assert(q.insts.len() == mid.insts.len() + 1);
    assert(rows * columns >= 0) by (nonlinear_arith)
        requires
            rows >= 0,
            columns >= 0,
    ;
    assert forall|k: int| 0 <= k < parts.len() implies lists_column(q.inst(#[trigger] parts[k]), cells, rows, k) by {
        assert(parts[k] == Inst((p.insts.len() + k) as usize));
        assert(lists_column(mid.insts[p.insts.len() + k], cells, rows, k));
        assert(q.inst(parts[k]) == mid.insts[p.insts.len() + k]);
    }
    assert forall|k: int| 0 <= k < cells.len() implies !(q.op(#[trigger] cells[k]) is Aggregate) by {
        lemma_cell_exists(k, rows, columns);
        let a = old_cells[(k % rows) * columns + k / rows];
        assert(cells[k] == a);
        assert(mid.insts[a.0 as int] == p.insts[a.0 as int]);
        assert(q.inst(a) == p.inst(a));
    }
    assert(q.args(made) == parts);
    assert(cells.subrange(0, 0 * rows) =~= Seq::empty());
    lemma_columns_flat(q, parts, cells, rows, 0, (fuel - 1) as nat);
}

/// Cell `j` of column `i` of the rearranged initial value is cell `i` of row `j` of the old one, and the
/// rearranged one has the type that it is to have.
pub proof fn each_cell_moves_to_its_column(
    p: ProgramV,
    init: Inst,
    c: CandidateV,
    ty: Type,
    fuel: nat,
    row: int,
    column: int,
)
    requires
        p.op(init) is Aggregate,
        leaves(p, init, p.insts.len()).len() == c.rows * c.columns,
        forall|k: int|
            0 <= k < leaves(p, init, p.insts.len()).len() ==> (#[trigger] leaves(p, init, p.insts.len())[k]).0
                < p.insts.len() && !(p.op(leaves(p, init, p.insts.len())[k]) is Aggregate),
        initializer_transposed(p, init, c, ty).0.insts.len() <= usize::MAX,
        fuel >= 2,
        0 <= row < c.rows,
        0 <= column < c.columns,
    ensures
        ({
            let (q, made) = initializer_transposed(p, init, c, ty);
            &&& q.op(made) is Aggregate
            &&& q.ty(made) == ty
            &&& leaves(q, made, fuel)[column * c.rows + row] == leaves(p, init, p.insts.len())[row * c.columns + column]
        }),
{
    reveal(ProgramV::push_inst);
    initializer_is_rearranged(p, init, c, ty, fuel);
    exchange_keeps_cells(leaves(p, init, p.insts.len()), c.rows as int, c.columns as int, row, column);
}

/// The matrix `c` with rows and columns exchanged.
pub open spec fn turned(c: CandidateV) -> CandidateV {
    CandidateV { rows: c.columns, columns: c.rows, ..c }
}

/// Rearranging an initial value and then rearranging what came out gives the cells back in their order.
pub proof fn rearranging_twice_gives_the_cells_back(
    p: ProgramV,
    init: Inst,
    c: CandidateV,
    ty: Type,
    back: Type,
    fuel: nat,
)
    requires
        p.op(init) is Aggregate,
        leaves(p, init, p.insts.len()).len() == c.rows * c.columns,
        forall|k: int|
            0 <= k < leaves(p, init, p.insts.len()).len() ==> (#[trigger] leaves(p, init, p.insts.len())[k]).0
                < p.insts.len() && !(p.op(leaves(p, init, p.insts.len())[k]) is Aggregate),
        ({
            let (q, made) = initializer_transposed(p, init, c, ty);
            initializer_transposed(q, made, turned(c), back).0.insts.len() <= usize::MAX
        }),
        fuel >= 2,
    ensures
        ({
            let (q, made) = initializer_transposed(p, init, c, ty);
            let (r, again) = initializer_transposed(q, made, turned(c), back);
            leaves(r, again, fuel) == leaves(p, init, p.insts.len())
        }),
{
    reveal(ProgramV::push_inst);
    let (rows, columns) = (c.rows as int, c.columns as int);
    let old_cells = leaves(p, init, p.insts.len());
    let (q, made) = initializer_transposed(p, init, c, ty);
    let (r, again) = initializer_transposed(q, made, turned(c), back);
    let cells = transposed(old_cells, rows, columns);
    let (mid, _) = columns_made(p, cells, rows, columns, 0, Seq::empty());
    lemma_columns_made(p, cells, rows, columns, 0, Seq::empty());
    let turned_cells = transposed(leaves(q, made, q.insts.len()), columns, rows);
    let (last, _) = columns_made(q, turned_cells, columns, rows, 0, Seq::empty());
    lemma_columns_made(q, turned_cells, columns, rows, 0, Seq::empty());
    assert(columns * rows == rows * columns) by (nonlinear_arith);
    initializer_is_rearranged(p, init, c, ty, fuel);
    initializer_is_rearranged(p, init, c, ty, q.insts.len());
    assert forall|k: int| 0 <= k < cells.len() implies (#[trigger] cells[k]).0 < q.insts.len() && !(q.op(
        cells[k],
    ) is Aggregate) by {
        lemma_cell_exists(k, rows, columns);
        let a = old_cells[(k % rows) * columns + k / rows];
        assert(cells[k] == a);
        assert(mid.insts[a.0 as int] == p.insts[a.0 as int]);
        assert(q.inst(a) == p.inst(a));
    }
    initializer_is_rearranged(q, made, turned(c), back, fuel);
    exchange_twice_is_nothing(old_cells, rows, columns);
}

} // verus!
