//! Storing a matrix by columns where its loops run down the columns.

use vstd::prelude::*;

use crate::blocked_reduction::param_owner;
use crate::cfg::{entry_of, reverse_postorder, rpo_path, tree_of, DomTree, TreeV};
use crate::induction::{
    classify_derived_induction_variable, derived, exit_of, find_ivs, induction_trip_count, iteration_value_bounds,
    iv_views, ivs_of, literal_of, normalize_strict_exit, range_of, trips, BasicInductionVariable, IvV,
};
use crate::ipsccp::{owner, owner_from};
use crate::ir::{has_inst, BasicBlock, Function, Inst, Op, ProgramV, Type};
use crate::loops::{find_loops, loops_of, views, Loop, LoopV};
use crate::program::Program;

verus! {

pub struct ColumnMajor;

/// Where a matrix lives: in a function, or as a global with an initial value.
#[derive(Clone, Copy, Debug, PartialEq, Eq, Structural)]
pub enum RootKind {
    Local(Function),
    Global { init: Inst },
}

/// One access to a matrix: the address computation, its indices, and how many loads and stores use it.
#[derive(Clone, Copy, Debug, PartialEq, Eq, Structural)]
pub struct Access {
    pub function: Function,
    pub gep: Inst,
    pub row: Inst,
    pub column: Inst,
    pub memory_user_count: usize,
}

/// A matrix all of whose uses are known.
#[verifier::ext_equal]
pub struct CandidateV {
    pub root: Inst,
    pub kind: RootKind,
    pub rows: usize,
    pub columns: usize,
    pub element_ty: Type,
    pub accesses: Seq<Access>,
}

pub struct Candidate {
    pub root: Inst,
    pub kind: RootKind,
    pub rows: usize,
    pub columns: usize,
    pub element_ty: Type,
    pub accesses: Vec<Access>,
}

impl View for Candidate {
    type V = CandidateV;

    open spec fn view(&self) -> CandidateV {
        CandidateV {
            root: self.root,
            kind: self.kind,
            rows: self.rows,
            columns: self.columns,
            element_ty: self.element_ty,
            accesses: self.accesses@,
        }
    }
}

/// The literal that `value` is.
pub fn integer_constant(data: &Program, value: Inst) -> (r: Option<i32>)
    ensures
        r == literal_of(data@, value),
{
    crate::induction::integer_constant(data, value)
}

/// The element type and the numbers of rows and columns of the matrix that a pointer type points to;
/// `None` where it is no matrix of scalars, or one larger than memory.
pub open spec fn matrix_of(ty: Type) -> Option<(Type, usize, usize)> {
    match ty {
        Type::Pointer(outer) => match *outer {
            Type::Array(inner, rows) => match *inner {
                Type::Array(element, columns) => if (*element).scalar() && rows * columns <= usize::MAX && rows * columns
                    * (*element).bytes() <= usize::MAX && (*element).bytes() <= usize::MAX {
                    Some((*element, rows, columns))
                } else {
                    None
                },
                _ => None,
            },
            _ => None,
        },
        _ => None,
    }
}

/// The element type and the numbers of rows and columns of the matrix that a pointer type points to.
pub fn matrix_type(ty: &Type) -> (r: Option<(Type, usize, usize)>)
    ensures
        r == matrix_of(*ty),
{
    match ty {
        Type::Pointer(outer) => match &**outer {
            Type::Array(inner, rows) => match &**inner {
                Type::Array(element, columns) => {
                    if !element.is_scalar() {
                        return None;
                    }
                    let size = match element.size() {
                        Some(n) => n,
                        None => {
                            return None;
                        },
                    };
                    let cells = match rows.checked_mul(*columns) {
                        Some(n) => n,
                        None => {
                            return None;
                        },
                    };
                    match cells.checked_mul(size) {
                        Some(_) => Some(((**element).clone(), *rows, *columns)),
                        None => None,
                    }
                },
                _ => None,
            },
            _ => None,
        },
        _ => None,
    }
}

/// `user` loads from or stores to address `gep`.
pub open spec fn touches(p: ProgramV, gep: Inst, user: Inst) -> bool {
    (p.op(user) is Load && p.arg(user, 0) == gep) || (p.op(user) is Store && p.arg(user, 1) == gep)
}

/// How many loads and stores use address `gep`; `None` where nothing uses it or something else does.
pub open spec fn memory_users(p: ProgramV, gep: Inst) -> Option<usize> {
    let users = p.users(gep);
    if users.len() > 0 && forall|k: int| 0 <= k < users.len() ==> touches(p, gep, #[trigger] users[k]) {
        Some(users.len() as usize)
    } else {
        None
    }
}

/// How many loads and stores use address `gep`.
pub fn collect_gep_memory_users(data: &Program, gep: Inst) -> (r: Option<usize>)
    ensures
        r == memory_users(data@, gep),
{
    let users = data.users(gep);
    if users.len() == 0 {
        return None;
    }
    let mut k: usize = 0;
    while k < users.len()
        invariant
            k <= users@.len(),
            users@ == data@.users(gep),
            forall|j: int| 0 <= j < k ==> touches(data@, gep, #[trigger] users@[j]),
        decreases users@.len() - k,
    {
        let ok = match data.op(users[k]) {
            Op::Load => data.arg(users[k], 0) == gep,
            Op::Store => data.arg(users[k], 1) == gep,
            _ => false,
        };
        if !ok {
            assert(!touches(data@, gep, users@[k as int]));
            return None;
        }
        k += 1;
    }
    Some(users.len())
}

/// The uses `users[from..]` of matrix `root` read as accesses, behind `found`; `None` where one is
/// neither an access by row and column nor a clearing of the matrix.
pub open spec fn accesses_from(p: ProgramV, root: Inst, users: Seq<Inst>, from: int, found: Seq<Access>) -> Option<Seq<Access>>
    decreases users.len() - from,
{
    if from >= users.len() {
        Some(found)
    } else {
        let u = users[from];
        if p.inst(u).global {
            None
        } else {
            match p.op(u) {
                Op::GetElemPtr => match (memory_users(p, u), owner_from(p, p.layout, u, 0)) {
                    (Some(n), Some((f, _))) => if p.arg(u, 0) == root && p.args(u).len() == 4 {
                        accesses_from(
                            p,
                            root,
                            users,
                            from + 1,
                            found.push(
                                Access {
                                    function: f,
                                    gep: u,
                                    row: p.arg(u, 2),
                                    column: p.arg(u, 3),
                                    memory_user_count: n,
                                },
                            ),
                        )
                    } else {
                        None
                    },
                    _ => None,
                },
                Op::MemZero(_) => if p.arg(u, 0) == root {
                    accesses_from(p, root, users, from + 1, found)
                } else {
                    None
                },
                Op::MemZeroDyn => if p.arg(u, 0) == root {
                    accesses_from(p, root, users, from + 1, found)
                } else {
                    None
                },
                _ => None,
            }
        }
    }
}

/// The parts of an initial value from left to right, to depth `fuel`.
pub open spec fn leaves(p: ProgramV, i: Inst, fuel: nat) -> Seq<Inst>
    decreases fuel, 0int, 0int,
{
    if fuel > 0 && p.op(i) is Aggregate {
        all_leaves(p, p.args(i), 0, Seq::empty(), (fuel - 1) as nat)
    } else {
        seq![i]
    }
}

/// The parts of the initial values `args[from..]`, behind `found`.
pub open spec fn all_leaves(p: ProgramV, args: Seq<Inst>, from: int, found: Seq<Inst>, fuel: nat) -> Seq<Inst>
    decreases fuel, 1int, args.len() - from,
{
    if from >= args.len() {
        found
    } else {
        all_leaves(p, args, from + 1, found + leaves(p, args[from], fuel), fuel)
    }
}

/// The parts of an initial value from left to right.
pub fn flatten(p: &Program, i: Inst, fuel: usize) -> (r: Vec<Inst>)
    ensures
        r@ == leaves(p@, i, fuel as nat),
    decreases fuel, 0int, 0int,
{
    match p.op(i) {
        Op::Aggregate => {
            if fuel > 0 {
                let args = p.args(i);
                return flatten_all(p, &args, fuel - 1);
            }
        },
        _ => {},
    }
    let r = vec![i];
    assert(r@ =~= seq![i]);
    r
}

fn flatten_all(p: &Program, args: &Vec<Inst>, fuel: usize) -> (r: Vec<Inst>)
    ensures
        r@ == all_leaves(p@, args@, 0, Seq::empty(), fuel as nat),
    decreases fuel, 1int, args@.len(),
{
    let mut r: Vec<Inst> = Vec::new();
    assert(r@ =~= Seq::empty());
    let mut k: usize = 0;
    while k < args.len()
        invariant
            k <= args@.len(),
            all_leaves(p@, args@, 0, Seq::empty(), fuel as nat) == all_leaves(p@, args@, k as int, r@, fuel as nat),
        decreases args@.len() - k,
    {
        let mut more = flatten(p, args[k], fuel);
        r.append(&mut more);
        k += 1;
    }
    r
}

/// The initial value of a global matrix can be rearranged: it is zero, or lists all cells.
pub open spec fn initializer_fits(p: ProgramV, kind: RootKind, rows: usize, columns: usize) -> bool {
    match kind {
        RootKind::Local(_) => true,
        RootKind::Global { init } => p.op(init) is ZeroInit || (p.op(init) is Aggregate && leaves(p, init, p.insts.len()).len()
            == rows * columns),
    }
}

/// Whether the initial value of a global matrix can be rearranged.
pub fn valid_initializer(program: &Program, candidate: &Candidate) -> (r: bool)
    ensures
        r == initializer_fits(program@, candidate@.kind, candidate@.rows, candidate@.columns),
{
    match candidate.kind {
        RootKind::Local(_) => true,
        RootKind::Global { init } => match program.op(init) {
            Op::ZeroInit => true,
            Op::Aggregate => {
                let n: usize = program.num_insts();
                let cells: usize = flatten(program, init, n).len();
                match candidate.rows.checked_mul(candidate.columns) {
                    Some(m) => cells == m,
                    None => false,
                }
            },
            _ => false,
        },
    }
}

/// Matrix `root` with all its uses, where it is one and they are known.
pub open spec fn candidate_at(p: ProgramV, root: Inst, kind: RootKind) -> Option<CandidateV> {
    match (matrix_of(p.ty(root)), accesses_from(p, root, p.users(root), 0, Seq::empty())) {
        (Some((element_ty, rows, columns)), Some(accesses)) => if accesses.len() > 0 && initializer_fits(
            p,
            kind,
            rows,
            columns,
        ) {
            Some(CandidateV { root, kind, rows, columns, element_ty, accesses })
        } else {
            None
        },
        _ => None,
    }
}

/// The matrices allocated by the instructions `insts[from..]` of `f`, behind `found`.
pub open spec fn locals_in(p: ProgramV, f: Function, insts: Seq<Inst>, from: int, found: Seq<CandidateV>) -> Seq<CandidateV>
    decreases insts.len() - from,
{
    if from >= insts.len() {
        found
    } else if p.op(insts[from]) is Alloc {
        match candidate_at(p, insts[from], RootKind::Local(f)) {
            Some(c) => locals_in(p, f, insts, from + 1, found.push(c)),
            None => locals_in(p, f, insts, from + 1, found),
        }
    } else {
        locals_in(p, f, insts, from + 1, found)
    }
}

/// The matrices of the functions `layout[from..]`, behind `found`.
pub open spec fn locals_from(p: ProgramV, layout: Seq<Function>, from: int, found: Seq<CandidateV>) -> Seq<CandidateV>
    decreases layout.len() - from,
{
    if from >= layout.len() {
        found
    } else {
        locals_from(p, layout, from + 1, locals_in(p, layout[from], p.placed(layout[from]), 0, found))
    }
}

/// The matrices among the globals `globals[from..]`, behind `found`.
pub open spec fn globals_from(p: ProgramV, globals: Seq<Inst>, from: int, found: Seq<CandidateV>) -> Seq<CandidateV>
    decreases globals.len() - from,
{
    if from >= globals.len() {
        found
    } else if p.op(globals[from]) is GlobalAlloc {
        match candidate_at(p, globals[from], RootKind::Global { init: p.arg(globals[from], 0) }) {
            Some(c) => globals_from(p, globals, from + 1, found.push(c)),
            None => globals_from(p, globals, from + 1, found),
        }
    } else {
        globals_from(p, globals, from + 1, found)
    }
}

/// All matrices whose uses are known.
pub open spec fn candidates_of(p: ProgramV) -> Seq<CandidateV> {
    globals_from(p, p.globals, 0, locals_from(p, p.layout, 0, Seq::empty()))
}

pub open spec fn candidate_views(v: Seq<Candidate>) -> Seq<CandidateV> {
    Seq::new(v.len(), |k: int| v[k]@)
}

fn collect_accesses(p: &Program, root: Inst) -> (r: Option<Vec<Access>>)
    ensures
        match r {
            Some(v) => accesses_from(p@, root, p@.users(root), 0, Seq::empty()) == Some(v@),
            None => accesses_from(p@, root, p@.users(root), 0, Seq::empty()) is None,
        },
{
    let users = p.users(root);
    let mut found: Vec<Access> = Vec::new();
    assert(found@ =~= Seq::empty());
    let mut k: usize = 0;
    while k < users.len()
        invariant
            k <= users@.len(),
            users@ == p@.users(root),
            accesses_from(p@, root, users@, 0, Seq::empty()) == accesses_from(p@, root, users@, k as int, found@),
        decreases users@.len() - k,
    {
        let u = users[k];
        if p.is_global(u) {
            return None;
        }
        match p.op(u) {
            Op::GetElemPtr => {
                match (collect_gep_memory_users(p, u), owner(p, u)) {
                    (Some(n), Some((f, _))) => {
                        if p.arg(u, 0) != root || p.num_args(u) != 4 {
                            return None;
                        }
                        found.push(
                            Access {
                                function: f,
                                gep: u,
                                row: p.arg(u, 2),
                                column: p.arg(u, 3),
                                memory_user_count: n,
                            },
                        );
                    },
                    _ => {
                        return None;
                    },
                }
            },
            Op::MemZero(_) | Op::MemZeroDyn => {
                if p.arg(u, 0) != root {
                    return None;
                }
            },
            _ => {
                return None;
            },
        }
        k += 1;
    }
    Some(found)
}

fn collect_candidate(p: &Program, root: Inst, kind: RootKind) -> (r: Option<Candidate>)
    ensures
        match r {
            Some(c) => candidate_at(p@, root, kind) == Some(c@),
            None => candidate_at(p@, root, kind) is None,
        },
{
    let (element_ty, rows, columns) = match matrix_type(&p.ty(root)) {
        Some(m) => m,
        None => {
            return None;
        },
    };
    let accesses = match collect_accesses(p, root) {
        Some(a) => a,
        None => {
            return None;
        },
    };
    let c = Candidate { root, kind, rows, columns, element_ty, accesses };
    if c.accesses.len() > 0 && valid_initializer(p, &c) {
        Some(c)
    } else {
        None
    }
}

/// All matrices whose uses are known.
pub fn collect_candidates(program: &Program) -> (r: Vec<Candidate>)
    ensures
        candidate_views(r@) == candidates_of(program@),
{
    let layout = program.function_layout();
    let mut r: Vec<Candidate> = Vec::new();
    assert(candidate_views(r@) =~= Seq::empty());
    let mut k: usize = 0;
    while k < layout.len()
        invariant
            k <= layout@.len(),
            locals_from(program@, layout@, 0, Seq::empty()) == locals_from(
                program@,
                layout@,
                k as int,
                candidate_views(r@),
            ),
        decreases layout@.len() - k,
    {
        let f = layout[k];
        let insts = program.placed_insts(f);
        let ghost start = candidate_views(r@);
        let mut j: usize = 0;
        while j < insts.len()
            invariant
                j <= insts@.len(),
                locals_in(program@, f, insts@, 0, start) == locals_in(
                    program@,
                    f,
                    insts@,
                    j as int,
                    candidate_views(r@),
                ),
            decreases insts@.len() - j,
        {
            if let Op::Alloc = program.op(insts[j]) {
                if let Some(c) = collect_candidate(program, insts[j], RootKind::Local(f)) {
                    let ghost was = candidate_views(r@);
                    let ghost v = c@;
                    r.push(c);
                    assert(candidate_views(r@) =~= was.push(v));
                }
            }
            j += 1;
        }
        k += 1;
    }
    let globals = program.global_inst_layout();
    let ghost start = candidate_views(r@);
    let mut k: usize = 0;
    while k < globals.len()
        invariant
            k <= globals@.len(),
            globals_from(program@, globals@, 0, start) == globals_from(
                program@,
                globals@,
                k as int,
                candidate_views(r@),
            ),
        decreases globals@.len() - k,
    {
        let g = globals[k];
        if let Op::GlobalAlloc = program.op(g) {
            let init = program.arg(g, 0);
            if let Some(c) = collect_candidate(program, g, RootKind::Global { init }) {
                let ghost was = candidate_views(r@);
                let ghost v = c@;
                r.push(c);
                assert(candidate_views(r@) =~= was.push(v));
            }
        }
        k += 1;
    }
    r
}

/// Value `v` is the same in all rounds of loop `l` of `f`.
pub open spec fn unchanging(p: ProgramV, f: Function, l: LoopV, v: Inst) -> bool {
    if p.inst(v).global || literal_of(p, v) is Some || p.func(f).params.contains(v) {
        true
    } else if p.op(v) is BlockArgRef {
        match param_owner(p, p.func(f).blocks, v, 0) {
            Some(b) => !l.body.contains(b),
            None => false,
        }
    } else {
        match p.parent_bb(f, v) {
            Some(b) => !l.body.contains(b),
            None => false,
        }
    }
}

fn find_param_owner(p: &Program, f: Function, v: Inst) -> (r: Option<BasicBlock>)
    ensures
        r == param_owner(p@, p@.func(f).blocks, v, 0),
{
    let blocks = p.basicblocks(f);
    let mut k: usize = 0;
    while k < blocks.len()
        invariant
            k <= blocks@.len(),
            blocks@ == p@.func(f).blocks,
            param_owner(p@, blocks@, v, 0) == param_owner(p@, blocks@, v, k as int),
        decreases blocks@.len() - k,
    {
        let params = p.block_params(blocks[k]);
        if has_inst(&params, v) {
            return Some(blocks[k]);
        }
        k += 1;
    }
    None
}

fn is_loop_invariant(p: &Program, f: Function, l: &Loop, v: Inst) -> (r: bool)
    ensures
        r == unchanging(p@, f, l@, v),
{
    let params = p.params(f);
    if p.is_global(v) || integer_constant(p, v).is_some() || has_inst(&params, v) {
        return true;
    }
    let home = match p.op(v) {
        Op::BlockArgRef => find_param_owner(p, f, v),
        _ => p.parent_bb(f, v),
    };
    match home {
        Some(b) => !l.contains(b),
        None => false,
    }
}

/// How often the counter `iv` is in index `v`: `None` where the index is no multiple of it.
pub open spec fn coefficient(p: ProgramV, f: Function, l: LoopV, iv: IvV, v: Inst, range: Option<(i64, i64)>) -> Option<i32> {
    if v == iv.param {
        Some(1)
    } else if unchanging(p, f, l, v) {
        Some(0)
    } else {
        match range {
            Some((lo, hi)) => match derived(p, iv.param, v, lo, hi, p.insts.len()) {
                Some(d) => Some(d.a),
                None => None,
            },
            None => None,
        }
    }
}

fn index_coefficient(
    p: &Program,
    f: Function,
    l: &Loop,
    iv: &BasicInductionVariable,
    v: Inst,
    range: Option<(i64, i64)>,
) -> (r: Option<i32>)
    requires
        range matches Some((lo, hi)) ==> -0x8000_0000 - 1 <= lo <= 0x8000_0000 && -0x8000_0000 - 1 <= hi <= 0x8000_0000,
    ensures
        r == coefficient(p@, f, l@, iv@, v, range),
{
    if v == iv.param {
        return Some(1);
    }
    if is_loop_invariant(p, f, l, v) {
        return Some(0);
    }
    match range {
        Some((lo, hi)) => {
            let n: usize = p.num_insts();
            match classify_derived_induction_variable(p, iv.param, v, lo, hi, n) {
                Some(d) => Some(d.a),
                None => None,
            }
        },
        None => None,
    }
}

/// By how much row and column move in a round of loop `l`, by its counters `ivs[from..]`; `None` where
/// that is not known.
pub open spec fn delta_from(
    p: ProgramV,
    f: Function,
    l: LoopV,
    ivs: Seq<IvV>,
    row: Inst,
    column: Inst,
    from: int,
    found: Option<(i64, i64)>,
) -> Option<(i64, i64)>
    decreases ivs.len() - from,
{
    if from >= ivs.len() {
        if found is Some {
            found
        } else if unchanging(p, f, l, row) && unchanging(p, f, l, column) {
            Some((0i64, 0i64))
        } else {
            None
        }
    } else {
        match exit_of(p, l, ivs[from]) {
            None => delta_from(p, f, l, ivs, row, column, from + 1, found),
            Some(exit) => {
                let range = range_of(p, ivs[from], exit);
                match (coefficient(p, f, l, ivs[from], row, range), coefficient(p, f, l, ivs[from], column, range)) {
                    (Some(a), Some(b)) => if a == 0 && b == 0 {
                        delta_from(p, f, l, ivs, row, column, from + 1, found)
                    } else if found is Some {
                        None
                    } else {
                        delta_from(
                            p,
                            f,
                            l,
                            ivs,
                            row,
                            column,
                            from + 1,
                            Some(((a * ivs[from].step) as i64, (b * ivs[from].step) as i64)),
                        )
                    },
                    _ => None,
                }
            },
        }
    }
}

fn product(x: i32, y: i32) -> (r: i64)
    ensures
        r == (x * y) as i64,
{
    assert(-0x4000_0000_0000_0000 <= x * y <= 0x4000_0000_0000_0000) by (nonlinear_arith)
        requires
            -0x8000_0000 <= x <= 0x7fff_ffff,
            -0x8000_0000 <= y <= 0x7fff_ffff,
    ;
    (x as i64) * (y as i64)
}

fn classify_access_delta(
    p: &Program,
    f: Function,
    l: &Loop,
    ivs: &Vec<BasicInductionVariable>,
    row: Inst,
    column: Inst,
) -> (r: Option<(i64, i64)>)
    ensures
        r == delta_from(p@, f, l@, iv_views(ivs@), row, column, 0, None),
{
    let mut found: Option<(i64, i64)> = None;
    let mut k: usize = 0;
    while k < ivs.len()
        invariant
            k <= ivs@.len(),
            delta_from(p@, f, l@, iv_views(ivs@), row, column, 0, None) == delta_from(
                p@,
                f,
                l@,
                iv_views(ivs@),
                row,
                column,
                k as int,
                found,
            ),
        decreases ivs@.len() - k,
    {
        let iv = &ivs[k];
        assert(iv_views(ivs@)[k as int] == iv@);
        if let Some(exit) = normalize_strict_exit(p, l, iv) {
            let range = iteration_value_bounds(p, iv, exit);
            match (index_coefficient(p, f, l, iv, row, range), index_coefficient(p, f, l, iv, column, range)) {
                (Some(a), Some(b)) => {
                    if a != 0 || b != 0 {
                        if found.is_some() {
                            return None;
                        }
                        found = Some((product(a, iv.step), product(b, iv.step)));
                    }
                },
                _ => {
                    return None;
                },
            }
        }
        k += 1;
    }
    if found.is_some() {
        found
    } else if is_loop_invariant(p, f, l, row) && is_loop_invariant(p, f, l, column) {
        Some((0, 0))
    } else {
        None
    }
}

/// The values of index `v` by the counters `ivs[from..]` of a loop.
pub open spec fn bounds_by(p: ProgramV, l: LoopV, ivs: Seq<IvV>, v: Inst, from: int) -> Option<(int, int)>
    decreases ivs.len() - from,
{
    if from >= ivs.len() {
        None
    } else {
        let iv = ivs[from];
        let here = match exit_of(p, l, iv) {
            Some(exit) => match range_of(p, iv, exit) {
                Some((lo, hi)) => if v == iv.param {
                    Some((lo as int, hi as int))
                } else {
                    match derived(p, iv.param, v, lo, hi, p.insts.len()) {
                        Some(d) => {
                            let x = d.a * lo + d.b;
                            let y = d.a * hi + d.b;
                            Some((
                                if x <= y {
                                    x
                                } else {
                                    y
                                },
                                if x <= y {
                                    y
                                } else {
                                    x
                                },
                            ))
                        },
                        None => None,
                    }
                },
                None => None,
            },
            None => None,
        };
        if here is Some {
            here
        } else {
            bounds_by(p, l, ivs, v, from + 1)
        }
    }
}

/// The values of index `v` in block `b` by the loops `loops[from..]` that hold it. The header of a loop is
/// no part of its rounds here: it also runs when the counter has reached the bound.
pub open spec fn bounds_from(p: ProgramV, order: Seq<BasicBlock>, loops: Seq<LoopV>, b: BasicBlock, v: Inst, from: int) -> Option<
    (int, int),
>
    decreases loops.len() - from,
{
    if from >= loops.len() {
        None
    } else if !loops[from].body.contains(b) || loops[from].header == b {
        bounds_from(p, order, loops, b, v, from + 1)
    } else {
        match bounds_by(p, loops[from], ivs_of(p, order, loops[from]), v, 0) {
            Some(r) => Some(r),
            None => bounds_from(p, order, loops, b, v, from + 1),
        }
    }
}

/// Index `v` in block `b` is always within a dimension of `n`.
pub open spec fn within(p: ProgramV, order: Seq<BasicBlock>, loops: Seq<LoopV>, b: BasicBlock, v: Inst, n: usize) -> bool {
    match literal_of(p, v) {
        Some(c) => 0 <= c < n,
        None => match bounds_from(p, order, loops, b, v, 0) {
            Some((lo, hi)) => 0 <= lo && hi < n,
            None => false,
        },
    }
}

/// Whether a pair of mathematical values is that pair of machine values.
pub open spec fn pair_view(r: Option<(i64, i64)>) -> Option<(int, int)> {
    match r {
        Some((a, b)) => Some((a as int, b as int)),
        None => None,
    }
}

fn evaluate(a: i32, b: i32, at: i64) -> (r: i64)
    requires
        -0x8000_0000 - 1 <= at <= 0x8000_0000,
    ensures
        r == a * at + b,
{
    assert(-0x4000_0000_8000_0000 <= a * at <= 0x4000_0000_8000_0000) by (nonlinear_arith)
        requires
            -0x8000_0000 <= a <= 0x7fff_ffff,
            -0x8000_0000 - 1 <= at <= 0x8000_0000,
    ;
    (a as i64) * at + (b as i64)
}

fn find_bounds_by(p: &Program, l: &Loop, ivs: &Vec<BasicInductionVariable>, v: Inst) -> (r: Option<(i64, i64)>)
    ensures
        pair_view(r) == bounds_by(p@, l@, iv_views(ivs@), v, 0),
{
    let n: usize = p.num_insts();
    let mut k: usize = 0;
    while k < ivs.len()
        invariant
            k <= ivs@.len(),
            n == p@.insts.len(),
            bounds_by(p@, l@, iv_views(ivs@), v, 0) == bounds_by(p@, l@, iv_views(ivs@), v, k as int),
        decreases ivs@.len() - k,
    {
        let iv = &ivs[k];
        assert(iv_views(ivs@)[k as int] == iv@);
        if let Some(exit) = normalize_strict_exit(p, l, iv) {
            if let Some((lo, hi)) = iteration_value_bounds(p, iv, exit) {
                if v == iv.param {
                    return Some((lo, hi));
                }
                if let Some(d) = classify_derived_induction_variable(p, iv.param, v, lo, hi, n) {
                    let x: i64 = evaluate(d.a, d.b, lo);
                    let y: i64 = evaluate(d.a, d.b, hi);
                    return if x <= y {
                        Some((x, y))
                    } else {
                        Some((y, x))
                    };
                }
            }
        }
        k += 1;
    }
    None
}

fn index_in_bounds(p: &Program, order: &Vec<BasicBlock>, loops: &Vec<Loop>, b: BasicBlock, v: Inst, n: usize) -> (r: bool)
    ensures
        r == within(p@, order@, views(loops@), b, v, n),
{
    if let Some(c) = integer_constant(p, v) {
        return c >= 0 && (c as u64) < n as u64;
    }
    let mut k: usize = 0;
    while k < loops.len()
        invariant
            k <= loops@.len(),
            literal_of(p@, v) is None,
            bounds_from(p@, order@, views(loops@), b, v, 0) == bounds_from(
                p@,
                order@,
                views(loops@),
                b,
                v,
                k as int,
            ),
        decreases loops@.len() - k,
    {
        let l = &loops[k];
        assert(views(loops@)[k as int] == l@);
        if l.contains(b) && l.header != b {
            let ivs = find_ivs(p, order, l);
            if let Some((lo, hi)) = find_bounds_by(p, l, &ivs, v) {
                return lo >= 0 && (hi < 0 || (hi as u64) < n as u64);
            }
        }
        k += 1;
    }
    false
}

/// The loop of `loops[from..]` with the fewest blocks that holds `b`, or `best`.
pub open spec fn innermost_from(loops: Seq<LoopV>, b: BasicBlock, from: int, best: Option<int>) -> Option<int>
    decreases loops.len() - from,
{
    if from >= loops.len() {
        best
    } else {
        let better = loops[from].body.contains(b) && match best {
            Some(j) => loops[from].body.len() < loops[j].body.len(),
            None => true,
        };
        innermost_from(
            loops,
            b,
            from + 1,
            if better {
                Some(from)
            } else {
                best
            },
        )
    }
}

fn find_innermost(loops: &Vec<Loop>, b: BasicBlock) -> (r: Option<usize>)
    ensures
        match r {
            Some(k) => k < loops@.len() && innermost_from(views(loops@), b, 0, None) == Some(k as int),
            None => innermost_from(views(loops@), b, 0, None) is None,
        },
{
    let mut best: Option<usize> = None;
    let mut k: usize = 0;
    while k < loops.len()
        invariant
            k <= loops@.len(),
            best matches Some(j) ==> j < loops@.len(),
            innermost_from(views(loops@), b, 0, None) == innermost_from(
                views(loops@),
                b,
                k as int,
                match best {
                    Some(j) => Some(j as int),
                    None => None,
                },
            ),
        decreases loops@.len() - k,
    {
        assert(views(loops@)[k as int] == loops@[k as int]@);
        if loops[k].contains(b) {
            let better = match best {
                Some(j) => {
                    assert(views(loops@)[j as int] == loops@[j as int]@);
                    loops[k].body.len() < loops[j].body.len()
                },
                None => true,
            };
            if better {
                best = Some(k);
            }
        }
        k += 1;
    }
    best
}

/// `x`, at most the largest 128-bit number.
pub open spec fn capped(x: int) -> int {
    if x > u128::MAX {
        u128::MAX as int
    } else {
        x
    }
}

fn capped_mul(x: u128, y: u128) -> (r: u128)
    ensures
        r == capped(x * y),
{
    if x == 0 || y == 0 {
        assert(x * y == 0) by (nonlinear_arith)
            requires
                x == 0 || y == 0,
        ;
        return 0;
    }
    let q: u128 = u128::MAX / x;
    proof {
        let m = u128::MAX as int;
        assert(q == m / (x as int));
        assert(m == x * q + m % (x as int)) by (nonlinear_arith)
            requires
                x > 0,
                q == m / (x as int),
        ;
        assert(0 <= m % (x as int) < x) by (nonlinear_arith)
            requires
                x > 0,
        ;
        if y > q {
            assert(x * y >= x * q + x) by (nonlinear_arith)
                requires
                    y >= q + 1,
                    x > 0,
            ;
        } else {
            assert(0 <= x * y <= x * q) by (nonlinear_arith)
                requires
                    0 <= y <= q,
                    x > 0,
            ;
        }
    }
    if y > q {
        u128::MAX
    } else {
        x * y
    }
}

fn capped_add(x: u128, y: u128) -> (r: u128)
    ensures
        r == capped(x + y),
{
    if y > u128::MAX - x {
        u128::MAX
    } else {
        x + y
    }
}

/// How many rounds a loop runs at most, by the first of its counters `ivs[from..]` that tells.
pub open spec fn loop_trips(p: ProgramV, l: LoopV, ivs: Seq<IvV>, from: int) -> Option<int>
    decreases ivs.len() - from,
{
    if from >= ivs.len() {
        None
    } else {
        let here = match exit_of(p, l, ivs[from]) {
            Some(exit) => trips(p, ivs[from], exit),
            None => None,
        };
        if here is Some {
            here
        } else {
            loop_trips(p, l, ivs, from + 1)
        }
    }
}

/// How often block `b` runs by the loops `loops[from..]` that hold it, times `n`; `None` where one of
/// them is not counted.
pub open spec fn executions_from(p: ProgramV, order: Seq<BasicBlock>, loops: Seq<LoopV>, b: BasicBlock, from: int, n: int) -> Option<
    int,
>
    decreases loops.len() - from,
{
    if from >= loops.len() {
        Some(n)
    } else if !loops[from].body.contains(b) {
        executions_from(p, order, loops, b, from + 1, n)
    } else {
        match loop_trips(p, loops[from], ivs_of(p, order, loops[from]), 0) {
            Some(t) => executions_from(p, order, loops, b, from + 1, capped(n * t)),
            None => None,
        }
    }
}

fn find_trips(p: &Program, l: &Loop, ivs: &Vec<BasicInductionVariable>) -> (r: Option<u64>)
    ensures
        match r {
            Some(n) => loop_trips(p@, l@, iv_views(ivs@), 0) == Some(n as int),
            None => loop_trips(p@, l@, iv_views(ivs@), 0) is None,
        },
{
    let mut k: usize = 0;
    while k < ivs.len()
        invariant
            k <= ivs@.len(),
            loop_trips(p@, l@, iv_views(ivs@), 0) == loop_trips(p@, l@, iv_views(ivs@), k as int),
        decreases ivs@.len() - k,
    {
        assert(iv_views(ivs@)[k as int] == ivs@[k as int]@);
        if let Some(exit) = normalize_strict_exit(p, l, &ivs[k]) {
            if let Some(n) = induction_trip_count(p, &ivs[k], exit) {
                return Some(n);
            }
        }
        k += 1;
    }
    None
}

/// How often block `b` runs by the loops that hold it; `None` where one of them is not counted.
pub fn loop_nest_executions(p: &Program, order: &Vec<BasicBlock>, loops: &Vec<Loop>, b: BasicBlock) -> (r: Option<u128>)
    ensures
        match r {
            Some(n) => executions_from(p@, order@, views(loops@), b, 0, 1) == Some(n as int),
            None => executions_from(p@, order@, views(loops@), b, 0, 1) is None,
        },
{
    let mut n: u128 = 1;
    let mut k: usize = 0;
    while k < loops.len()
        invariant
            k <= loops@.len(),
            executions_from(p@, order@, views(loops@), b, 0, 1) == executions_from(
                p@,
                order@,
                views(loops@),
                b,
                k as int,
                n as int,
            ),
        decreases loops@.len() - k,
    {
        assert(views(loops@)[k as int] == loops@[k as int]@);
        if loops[k].contains(b) {
            let ivs = find_ivs(p, order, &loops[k]);
            match find_trips(p, &loops[k], &ivs) {
                Some(t) => {
                    n = capped_mul(n, t as u128);
                },
                None => {
                    return None;
                },
            }
        }
        k += 1;
    }
    Some(n)
}

/// The distance in bytes between cells whose indices differ by the given amounts; `None` where it does
/// not fit.
pub open spec fn stride_of(major: i64, minor: i64, minor_len: usize, size: usize) -> Option<usize> {
    let cells = major * minor_len + minor;
    let bytes = (if cells < 0 {
        -cells
    } else {
        cells
    }) * size;
    if bytes <= usize::MAX {
        Some(bytes as usize)
    } else {
        None
    }
}

/// The distance in bytes between cells whose indices differ by the given amounts.
pub fn byte_stride(major_delta: i64, minor_delta: i64, minor_len: usize, element_size: usize) -> (r: Option<usize>)
    ensures
        r == stride_of(major_delta, minor_delta, minor_len, element_size),
{
    assert(-0x8000_0000_0000_0000 * 0xffff_ffff_ffff_ffff <= major_delta * minor_len <= 0x7fff_ffff_ffff_ffff
        * 0xffff_ffff_ffff_ffff) by (nonlinear_arith)
        requires
            -0x8000_0000_0000_0000 <= major_delta <= 0x7fff_ffff_ffff_ffff,
            0 <= minor_len <= 0xffff_ffff_ffff_ffff,
    ;
    let cells: i128 = (major_delta as i128) * (minor_len as i128) + (minor_delta as i128);
    let size: u128 = element_size as u128;
    let count: u128 = if cells < 0 {
        (-(cells + 1)) as u128 + 1
    } else {
        cells as u128
    };
    if size == 0 {
        assert(count * 0 == 0) by (nonlinear_arith);
        return Some(0);
    }
    let limit: u128 = usize::MAX as u128;
    if count > limit {
        assert(count * size > limit) by (nonlinear_arith)
            requires
                count > limit,
                size >= 1,
        ;
        return None;
    }
    assert(0 <= count * size <= 0xffff_ffff_ffff_ffff * 0xffff_ffff_ffff_ffff) by (nonlinear_arith)
        requires
            0 <= count <= 0xffff_ffff_ffff_ffff,
            0 <= size <= 0xffff_ffff_ffff_ffff,
    ;
    let bytes: u128 = count * size;
    if bytes <= limit {
        Some(bytes as usize)
    } else {
        None
    }
}

/// What an access costs: the strides by rows and by columns, and how often it is done.
#[derive(Clone, Copy, Debug, PartialEq, Eq, Structural)]
pub struct AccessCost {
    pub current_stride: usize,
    pub transposed_stride: usize,
    pub weight: u128,
}

/// What a step of `stride` bytes costs: the cache lines it covers, and more where it leaves the page.
pub open spec fn stride_penalty(stride: usize) -> int {
    (if stride < 64 {
        1
    } else {
        (stride as int + 63) / 64
    }) + (if stride >= 4096 {
        64int
    } else {
        0int
    })
}

/// The cost of the accesses `costs[from..]` on top of `sum`, as the matrix is or by columns.
pub open spec fn total_cost(costs: Seq<AccessCost>, transposed: bool, from: int, sum: int) -> int
    decreases costs.len() - from,
{
    if from >= costs.len() {
        sum
    } else {
        let stride = if transposed {
            costs[from].transposed_stride
        } else {
            costs[from].current_stride
        };
        total_cost(costs, transposed, from + 1, capped(sum + capped(costs[from].weight * stride_penalty(stride))))
    }
}

/// One of `costs[from..]` steps from cell to cell only by columns.
pub open spec fn gains_unit(costs: Seq<AccessCost>, size: usize, from: int) -> bool
    decreases costs.len() - from,
{
    from < costs.len() && ((costs[from].current_stride > size && costs[from].transposed_stride == size) || gains_unit(
        costs,
        size,
        from + 1,
    ))
}

/// Storing the matrix by columns pays: an access becomes one from cell to cell, and the cost goes down
/// by at least eight and by at least a tenth.
pub open spec fn pays(costs: Seq<AccessCost>, size: usize) -> bool {
    let now = total_cost(costs, false, 0, 0);
    let then_cost = total_cost(costs, true, 0, 0);
    gains_unit(costs, size, 0) && now - then_cost >= 8 && capped((now - then_cost) * 10) >= now
}

fn penalty(stride: usize) -> (r: u128)
    ensures
        r == stride_penalty(stride),
{
    let lines: u128 = if stride < 64 {
        1
    } else {
        (stride as u128 + 63) / 64
    };
    if stride >= 4096 {
        lines + 64
    } else {
        lines
    }
}

fn sum_costs(costs: &Vec<AccessCost>, transposed: bool) -> (r: u128)
    ensures
        r == total_cost(costs@, transposed, 0, 0),
{
    let mut sum: u128 = 0;
    let mut k: usize = 0;
    while k < costs.len()
        invariant
            k <= costs@.len(),
            total_cost(costs@, transposed, 0, 0) == total_cost(costs@, transposed, k as int, sum as int),
        decreases costs@.len() - k,
    {
        let stride: usize = if transposed {
            costs[k].transposed_stride
        } else {
            costs[k].current_stride
        };
        let here: u128 = capped_mul(costs[k].weight, penalty(stride));
        sum = capped_add(sum, here);
        k += 1;
    }
    sum
}

/// Whether storing the matrix by columns pays.
pub fn is_profitable(costs: &Vec<AccessCost>, size: usize) -> (r: bool)
    ensures
        r == pays(costs@, size),
{
    let mut unit = false;
    let mut k: usize = 0;
    while k < costs.len() && !unit
        invariant
            k <= costs@.len(),
            gains_unit(costs@, size, 0) == (unit || gains_unit(costs@, size, k as int)),
        decreases costs@.len() - k,
    {
        if costs[k].current_stride > size && costs[k].transposed_stride == size {
            unit = true;
        }
        k += 1;
    }
    let now: u128 = sum_costs(costs, false);
    let later: u128 = sum_costs(costs, true);
    if !unit || now < later || now - later < 8 {
        return false;
    }
    capped_mul(now - later, 10) >= now
}

/// All of `latches[from..]` are dominated by `b`.
pub open spec fn runs_every_round(tree: TreeV, latches: Seq<BasicBlock>, b: BasicBlock, from: int) -> bool
    decreases latches.len() - from,
{
    from >= latches.len() || (tree.dominates(b, latches[from]) && runs_every_round(tree, latches, b, from + 1))
}

fn does_run_every_round(tree: &DomTree, latches: &Vec<BasicBlock>, b: BasicBlock) -> (r: bool)
    requires
        tree.wf(),
    ensures
        r == runs_every_round(tree@, latches@, b, 0),
{
    let mut k: usize = 0;
    while k < latches.len()
        invariant
            k <= latches@.len(),
            tree.wf(),
            runs_every_round(tree@, latches@, b, 0) == runs_every_round(tree@, latches@, b, k as int),
        decreases latches@.len() - k,
    {
        if !tree.dominates(b, latches[k]) {
            return false;
        }
        k += 1;
    }
    true
}

/// What is found out about an access.
#[derive(Clone, Copy, Debug, PartialEq, Eq, Structural)]
pub enum Verdict {
    /// It rules the change out.
    Rejected,
    /// It costs the same either way.
    Indifferent,
    Costs(AccessCost),
}

/// What access `x` to a matrix of `rows` by `columns` cells of `size` bytes costs.
pub open spec fn verdict(p: ProgramV, c: CandidateV, x: Access) -> Verdict {
    let f = x.function;
    if entry_of(p, f) is None {
        Verdict::Rejected
    } else {
        let order = reverse_postorder(p, f);
        let tree = tree_of(p, f);
        let loops = loops_of(tree, order);
        let size = c.element_ty.bytes() as usize;
        match p.parent_bb(f, x.gep) {
            None => Verdict::Rejected,
            Some(b) => if !within(p, order, loops, b, x.row, c.rows) || !within(p, order, loops, b, x.column, c.columns) {
                Verdict::Rejected
            } else {
                match innermost_from(loops, b, 0, None) {
                    None => Verdict::Indifferent,
                    Some(k) => {
                        let l = loops[k];
                        match delta_from(p, f, l, ivs_of(p, order, l), x.row, x.column, 0, None) {
                            Some((dr, dc)) => if !runs_every_round(tree, l.latches, b, 0) {
                                Verdict::Rejected
                            } else {
                                match (stride_of(dr, dc, c.columns, size), stride_of(dc, dr, c.rows, size)) {
                                    (Some(now), Some(later)) => if now == 0 && later == 0 {
                                        Verdict::Indifferent
                                    } else {
                                        match executions_from(p, order, loops, b, 0, 1) {
                                            Some(n) => Verdict::Costs(
                                                AccessCost {
                                                    current_stride: now,
                                                    transposed_stride: later,
                                                    weight: capped(n * x.memory_user_count) as u128,
                                                },
                                            ),
                                            None => Verdict::Rejected,
                                        }
                                    },
                                    _ => Verdict::Rejected,
                                }
                            },
                            None => Verdict::Rejected,
                        }
                    },
                }
            },
        }
    }
}

fn judge(p: &Program, c: &Candidate, x: Access) -> (r: Verdict)
    requires
        c.element_ty.bytes() <= usize::MAX,
    ensures
        r == verdict(p@, c@, x),
{
    let f = x.function;
    let tree = match DomTree::new(p, f) {
        None => {
            return Verdict::Rejected;
        },
        Some(t) => t,
    };
    let order = rpo_path(p, f);
    let loops = find_loops(&tree, &order);
    let size: usize = match c.element_ty.size() {
        Some(n) => n,
        None => 0,
    };
    let b = match p.parent_bb(f, x.gep) {
        None => {
            return Verdict::Rejected;
        },
        Some(b) => b,
    };
    if !index_in_bounds(p, &order, &loops, b, x.row, c.rows) || !index_in_bounds(
        p,
        &order,
        &loops,
        b,
        x.column,
        c.columns,
    ) {
        return Verdict::Rejected;
    }
    let k: usize = match find_innermost(&loops, b) {
        None => {
            return Verdict::Indifferent;
        },
        Some(k) => k,
    };
    assert(views(loops@)[k as int] == loops@[k as int]@);
    let ivs = find_ivs(p, &order, &loops[k]);
    let (dr, dc) = match classify_access_delta(p, f, &loops[k], &ivs, x.row, x.column) {
        Some(d) => d,
        None => {
            return Verdict::Rejected;
        },
    };
    if !does_run_every_round(&tree, &loops[k].latches, b) {
        return Verdict::Rejected;
    }
    match (byte_stride(dr, dc, c.columns, size), byte_stride(dc, dr, c.rows, size)) {
        (Some(now), Some(later)) => {
            if now == 0 && later == 0 {
                return Verdict::Indifferent;
            }
            match loop_nest_executions(p, &order, &loops, b) {
                Some(n) => Verdict::Costs(
                    AccessCost {
                        current_stride: now,
                        transposed_stride: later,
                        weight: capped_mul(n, x.memory_user_count as u128),
                    },
                ),
                None => Verdict::Rejected,
            }
        },
        _ => Verdict::Rejected,
    }
}

/// What the accesses from `from` on cost, behind `found`; `None` where one rules the change out.
pub open spec fn costs_from(p: ProgramV, c: CandidateV, from: int, found: Seq<AccessCost>) -> Option<Seq<AccessCost>>
    decreases c.accesses.len() - from,
{
    if from >= c.accesses.len() {
        Some(found)
    } else {
        match verdict(p, c, c.accesses[from]) {
            Verdict::Rejected => None,
            Verdict::Indifferent => costs_from(p, c, from + 1, found),
            Verdict::Costs(x) => costs_from(p, c, from + 1, found.push(x)),
        }
    }
}

/// Storing matrix `c` by columns is possible and pays.
pub open spec fn worth_it(p: ProgramV, c: CandidateV) -> bool {
    c.element_ty.bytes() <= usize::MAX && match costs_from(p, c, 0, Seq::empty()) {
        Some(costs) => pays(costs, c.element_ty.bytes() as usize),
        None => false,
    }
}

/// Whether storing a matrix by columns is possible and pays.
pub fn candidate_is_profitable(program: &Program, candidate: &Candidate) -> (r: bool)
    ensures
        r == worth_it(program@, candidate@),
{
    let size: usize = match candidate.element_ty.size() {
        Some(n) => n,
        None => {
            return false;
        },
    };
    let mut costs: Vec<AccessCost> = Vec::new();
    assert(costs@ =~= Seq::empty());
    let mut k: usize = 0;
    while k < candidate.accesses.len()
        invariant
            k <= candidate.accesses@.len(),
            candidate.element_ty.bytes() <= usize::MAX,
            costs_from(program@, candidate@, 0, Seq::empty()) == costs_from(
                program@,
                candidate@,
                k as int,
                costs@,
            ),
        decreases candidate.accesses@.len() - k,
    {
        match judge(program, candidate, candidate.accesses[k]) {
            Verdict::Rejected => {
                return false;
            },
            Verdict::Indifferent => {},
            Verdict::Costs(x) => {
                costs.push(x);
            },
        }
        k += 1;
    }
    is_profitable(&costs, size)
}

/// The cells of a matrix of `rows` by `columns`, listed by columns instead of by rows.
pub open spec fn transposed(cells: Seq<Inst>, rows: int, columns: int) -> Seq<Inst> {
    Seq::new((rows * columns) as nat, |k: int| cells[(k % rows) * columns + k / rows])
}

/// The type of a matrix with rows and columns exchanged.
pub open spec fn exchanged_type(c: CandidateV) -> Type {
    Type::Array(Box::new(Type::Array(Box::new(c.element_ty), c.rows)), c.columns)
}

/// The initial values of the columns `from..` made of `cells`, behind `found`.
pub open spec fn columns_made(p: ProgramV, cells: Seq<Inst>, rows: int, columns: int, from: int, found: Seq<Inst>) -> (
    ProgramV,
    Seq<Inst>,
)
    decreases columns - from,
{
    if from >= columns {
        (p, found)
    } else {
        let parts = cells.subrange(from * rows, from * rows + rows);
        let ty = Type::Array(
            Box::new(p.ty(if parts.len() > 0 { parts[0] } else { crate::ir::nothing() })),
            parts.len() as usize,
        );
        columns_made(
            p.push_inst(Op::Aggregate, parts, ty, true),
            cells,
            rows,
            columns,
            from + 1,
            found.push(p.next_inst()),
        )
    }
}

/// The initial value `init` of matrix `c` rearranged by columns.
pub open spec fn initializer_transposed(p: ProgramV, init: Inst, c: CandidateV, ty: Type) -> (ProgramV, Inst) {
    match p.op(init) {
        Op::Aggregate => {
            let cells = transposed(leaves(p, init, p.insts.len()), c.rows as int, c.columns as int);
            let (q, parts) = columns_made(p, cells, c.rows as int, c.columns as int, 0, Seq::empty());
            (q.push_inst(Op::Aggregate, parts, ty, true), q.next_inst())
        },
        _ => (p.push_inst(Op::ZeroInit, Seq::empty(), ty, true), p.next_inst()),
    }
}

fn transpose_cells(cells: &Vec<Inst>, rows: usize, columns: usize) -> (r: Vec<Inst>)
    requires
        cells@.len() == rows * columns,
    ensures
        r@ == transposed(cells@, rows as int, columns as int),
{
    let n: usize = cells.len();
    let mut r: Vec<Inst> = Vec::new();
    let mut k: usize = 0;
    while k < n
        invariant
            k <= n,
            n == cells@.len(),
            n == rows * columns,
            r@.len() == k,
            forall|j: int| 0 <= j < k ==> r@[j] == cells@[(j % rows as int) * columns + j / rows as int],
        decreases n - k,
    {
        proof {
            lemma_cell_exists(k as int, rows as int, columns as int);
        }
        let at: usize = (k % rows) * columns + k / rows;
        r.push(cells[at]);
        k += 1;
    }
    assert(r@ =~= transposed(cells@, rows as int, columns as int));
    r
}

pub(crate) proof fn lemma_cell_exists(k: int, rows: int, columns: int)
    requires
        0 <= k < rows * columns,
        rows >= 0,
        columns >= 0,
    ensures
        rows > 0,
        0 <= k % rows < rows,
        0 <= k / rows < columns,
        0 <= (k % rows) * columns,
        (k % rows) * columns + k / rows < rows * columns,
{
    assert(rows > 0) by (nonlinear_arith)
        requires
            0 <= k < rows * columns,
            rows >= 0,
            columns >= 0,
    ;
    assert(0 <= k % rows < rows && k == (k / rows) * rows + k % rows) by (nonlinear_arith)
        requires
            rows > 0,
    ;
    assert(0 <= k / rows < columns) by (nonlinear_arith)
        requires
            0 <= k < rows * columns,
            rows > 0,
            0 <= k % rows < rows,
            k == (k / rows) * rows + k % rows,
    ;
    let i = k % rows;
    let j = k / rows;
    assert(0 <= i * columns && i * columns + j < rows * columns) by (nonlinear_arith)
        requires
            0 <= i < rows,
            0 <= j < columns,
    ;
}

/// Rearranges the initial value `init` of a matrix by columns.
pub fn transpose_initializer(program: &mut Program, init: Inst, candidate: &Candidate, new_matrix_ty: &Type) -> (r: Inst)
    requires
        initializer_fits(
            old(program)@,
            RootKind::Global { init },
            candidate@.rows,
            candidate@.columns,
        ),
    ensures
        (final(program)@, r) == initializer_transposed(old(program)@, init, candidate@, *new_matrix_ty),
{
    match program.op(init) {
        Op::Aggregate => {
            let n: usize = program.num_insts();
            let old_cells = flatten(program, init, n);
            let cells = transpose_cells(&old_cells, candidate.rows, candidate.columns);
            let rows: usize = candidate.rows;
            let columns: usize = candidate.columns;
            let mut parts: Vec<Inst> = Vec::new();
            assert(parts@ =~= Seq::empty());
            let ghost start = program@;
            let mut k: usize = 0;
            while k < columns
                invariant
                    k <= columns,
                    cells@.len() == rows * columns,
                    columns_made(start, cells@, rows as int, columns as int, 0, Seq::empty()) == columns_made(
                        program@,
                        cells@,
                        rows as int,
                        columns as int,
                        k as int,
                        parts@,
                    ),
                decreases columns - k,
            {
                let total: usize = cells.len();
                assert(0 <= k * rows && k * rows + rows <= rows * columns) by (nonlinear_arith)
                    requires
                        0 <= k < columns,
                        0 <= rows,
                ;
                let lo: usize = k * rows;
                let part = crate::ir::sliced(&cells, lo, lo + rows);
                let made = program.aggregate(part);
                parts.push(made);
                k += 1;
            }
            program.push_inst(Op::Aggregate, parts, new_matrix_ty.clone(), true)
        },
        _ => program.zero_init(new_matrix_ty.clone()),
    }
}

/// The name `name` given back to `i`, where there is one.
pub open spec fn named(p: ProgramV, i: Inst, name: Option<Seq<char>>) -> ProgramV {
    if name is Some {
        p.set_name(i, name)
    } else {
        p
    }
}

/// Gives `inst` its name back, where it had one.
pub fn restore_name(data: &mut Program, inst: Inst, name: Option<String>)
    ensures
        final(data)@ == named(
            old(data)@,
            inst,
            match name {
                Some(s) => Some(s@),
                None => None,
            },
        ),
{
    if name.is_some() {
        data.set_name(inst, name);
    }
}

/// The accesses `accesses[from..]` made to give the column first.
pub open spec fn accesses_exchanged(p: ProgramV, root: Inst, accesses: Seq<Access>, from: int) -> ProgramV
    decreases accesses.len() - from,
{
    if from >= accesses.len() {
        p
    } else {
        let x = accesses[from];
        let q = p.set_inst(
            x.gep,
            Op::GetElemPtr,
            seq![root, p.arg(x.gep, 1), x.column, x.row],
            p.gep_ty(root, 3),
        );
        accesses_exchanged(named(q, x.gep, p.inst(x.gep).name), root, accesses, from + 1)
    }
}

/// Matrix `c` stored by columns.
pub open spec fn root_exchanged(p: ProgramV, c: CandidateV) -> ProgramV {
    let ty = exchanged_type(c);
    let name = p.inst(c.root).name;
    match c.kind {
        RootKind::Local(_) => named(
            p.set_inst(c.root, Op::Alloc, Seq::empty(), Type::Pointer(Box::new(ty))),
            c.root,
            name,
        ),
        RootKind::Global { init } => {
            let (q, made) = initializer_transposed(p, init, c, ty);
            named(q.set_inst(c.root, Op::GlobalAlloc, seq![made], Type::Pointer(Box::new(ty))), c.root, name)
        },
    }
}

/// Matrix `c` stored by columns, with all its accesses.
pub open spec fn exchanged(p: ProgramV, c: CandidateV) -> ProgramV {
    accesses_exchanged(root_exchanged(p, c), c.root, c.accesses, 0)
}

fn exchange_root(program: &mut Program, candidate: &Candidate)
    requires
        initializer_fits(old(program)@, candidate@.kind, candidate@.rows, candidate@.columns),
    ensures
        final(program)@ == root_exchanged(old(program)@, candidate@),
{
    let new_ty = Type::Array(
        Box::new(Type::Array(Box::new(candidate.element_ty.clone()), candidate.rows)),
        candidate.columns,
    );
    let name = program.name(candidate.root);
    match candidate.kind {
        RootKind::Local(_) => {
            let none: Vec<Inst> = Vec::new();
            assert(none@ =~= Seq::empty());
            program.set_inst(candidate.root, Op::Alloc, none, Type::Pointer(Box::new(new_ty)));
        },
        RootKind::Global { init } => {
            let made = transpose_initializer(program, init, candidate, &new_ty);
            let args = vec![made];
            assert(args@ =~= seq![made]);
            program.set_inst(candidate.root, Op::GlobalAlloc, args, Type::Pointer(Box::new(new_ty)));
        },
    }
    restore_name(program, candidate.root, name);
}

/// Stores a matrix by columns, with all its accesses.
pub fn rewrite_candidate(program: &mut Program, candidate: &Candidate)
    requires
        initializer_fits(old(program)@, candidate@.kind, candidate@.rows, candidate@.columns),
    ensures
        final(program)@ == exchanged(old(program)@, candidate@),
{
    exchange_root(program, candidate);
    let ghost start = program@;
    let mut k: usize = 0;
    while k < candidate.accesses.len()
        invariant
            k <= candidate.accesses@.len(),
            accesses_exchanged(start, candidate.root, candidate.accesses@, 0) == accesses_exchanged(
                program@,
                candidate.root,
                candidate.accesses@,
                k as int,
            ),
        decreases candidate.accesses@.len() - k,
    {
        let x = candidate.accesses[k];
        let name = program.name(x.gep);
        let zero = program.arg(x.gep, 1);
        let ty = Type::Pointer(Box::new(program.ty(candidate.root).dereference().element(2)));
        let args = vec![candidate.root, zero, x.column, x.row];
        assert(args@ =~= seq![candidate.root, zero, x.column, x.row]);
        program.set_inst(x.gep, Op::GetElemPtr, args, ty);
        restore_name(program, x.gep, name);
        k += 1;
    }
}

/// The accesses `accesses[from..]` give the column first, and are used as often as they were.
pub open spec fn accesses_hold(p: ProgramV, root: Inst, accesses: Seq<Access>, from: int) -> bool
    decreases accesses.len() - from,
{
    from >= accesses.len() || (p.op(accesses[from].gep) is GetElemPtr && p.arg(accesses[from].gep, 0) == root && p.arg(
        accesses[from].gep,
        2,
    ) == accesses[from].column && p.arg(accesses[from].gep, 3) == accesses[from].row && memory_users(
        p,
        accesses[from].gep,
    ) == Some(accesses[from].memory_user_count) && accesses_hold(p, root, accesses, from + 1))
}

/// Matrix `c` is stored by columns: its type, its initial value and all its accesses say so.
pub open spec fn is_exchanged(p: ProgramV, c: CandidateV, ty: Type) -> bool {
    p.ty(c.root) == Type::Pointer(Box::new(ty)) && (match c.kind {
        RootKind::Local(_) => true,
        RootKind::Global { .. } => p.op(c.root) is GlobalAlloc && p.ty(p.arg(c.root, 0)) == ty,
    }) && accesses_hold(p, c.root, c.accesses, 0)
}

/// Whether a matrix is stored by columns.
pub fn verify_rewrite(program: &Program, candidate: &Candidate, new_matrix_ty: &Type) -> (r: bool)
    ensures
        r == is_exchanged(program@, candidate@, *new_matrix_ty),
{
    let ty = program.ty(candidate.root);
    let right = match &ty {
        Type::Pointer(t) => (&**t).same(new_matrix_ty),
        _ => false,
    };
    if !right {
        return false;
    }
    match candidate.kind {
        RootKind::Local(_) => {},
        RootKind::Global { .. } => {
            let init_ty = program.ty(program.arg(candidate.root, 0));
            if !matches!(program.op(candidate.root), Op::GlobalAlloc) || !init_ty.same(new_matrix_ty) {
                return false;
            }
        },
    }
    let mut k: usize = 0;
    while k < candidate.accesses.len()
        invariant
            k <= candidate.accesses@.len(),
            program@.ty(candidate@.root) == Type::Pointer(Box::new(*new_matrix_ty)),
            match candidate@.kind {
                RootKind::Local(_) => true,
                RootKind::Global { .. } => program@.op(candidate@.root) is GlobalAlloc && program@.ty(
                    program@.arg(candidate@.root, 0),
                ) == *new_matrix_ty,
            },
            accesses_hold(program@, candidate.root, candidate.accesses@, 0) == accesses_hold(
                program@,
                candidate.root,
                candidate.accesses@,
                k as int,
            ),
        decreases candidate.accesses@.len() - k,
    {
        let x = candidate.accesses[k];
        let users = match collect_gep_memory_users(program, x.gep) {
            Some(n) => n == x.memory_user_count,
            None => false,
        };
        if !matches!(program.op(x.gep), Op::GetElemPtr) || program.arg(x.gep, 0) != candidate.root || program.arg(x.gep, 2)
            != x.column || program.arg(x.gep, 3) != x.row || !users {
            return false;
        }
        k += 1;
    }
    true
}

/// The matrices of `list[from..]` that are worth storing by columns, behind `found`.
pub open spec fn worthy_from(p: ProgramV, list: Seq<CandidateV>, from: int, found: Seq<CandidateV>) -> Seq<CandidateV>
    decreases list.len() - from,
{
    if from >= list.len() {
        found
    } else if worth_it(p, list[from]) {
        worthy_from(p, list, from + 1, found.push(list[from]))
    } else {
        worthy_from(p, list, from + 1, found)
    }
}

/// The matrices `list[from..]` stored by columns. One whose initial value no longer fits is left alone.
pub open spec fn all_exchanged(p: ProgramV, list: Seq<CandidateV>, from: int) -> ProgramV
    decreases list.len() - from,
{
    if from >= list.len() {
        p
    } else if initializer_fits(p, list[from].kind, list[from].rows, list[from].columns) {
        all_exchanged(exchanged(p, list[from]), list, from + 1)
    } else {
        all_exchanged(p, list, from + 1)
    }
}

spec fn picked(all: Seq<Candidate>, chosen: Seq<usize>) -> Seq<CandidateV> {
    Seq::new(chosen.len(), |j: int| all[chosen[j] as int]@)
}

impl ColumnMajor {
    /// Stores the matrices by columns for which that pays. True when there were any.
    pub fn run(&mut self, program: &mut Program) -> (changed: bool)
        ensures
            ({
                let list = worthy_from(old(program)@, candidates_of(old(program)@), 0, Seq::empty());
                final(program)@ == all_exchanged(old(program)@, list, 0) && changed == (list.len() > 0)
            }),
    {
        let all = collect_candidates(program);
        let mut chosen: Vec<usize> = Vec::new();
        assert(picked(all@, chosen@) =~= Seq::empty());
        let mut k: usize = 0;
        while k < all.len()
            invariant
                k <= all@.len(),
                program@ == old(program)@,
                candidate_views(all@) == candidates_of(old(program)@),
                forall|j: int| 0 <= j < chosen@.len() ==> (#[trigger] chosen@[j]) < all@.len(),
                worthy_from(program@, candidate_views(all@), 0, Seq::empty()) == worthy_from(
                    program@,
                    candidate_views(all@),
                    k as int,
                    picked(all@, chosen@),
                ),
            decreases all@.len() - k,
        {
            assert(candidate_views(all@)[k as int] == all@[k as int]@);
            if candidate_is_profitable(program, &all[k]) {
                let ghost was = picked(all@, chosen@);
                chosen.push(k);
                assert(picked(all@, chosen@) =~= was.push(all@[k as int]@));
            }
            k += 1;
        }
        let mut k: usize = 0;
        while k < chosen.len()
            invariant
                k <= chosen@.len(),
                forall|j: int| 0 <= j < chosen@.len() ==> (#[trigger] chosen@[j]) < all@.len(),
                all_exchanged(old(program)@, picked(all@, chosen@), 0) == all_exchanged(
                    program@,
                    picked(all@, chosen@),
                    k as int,
                ),
            decreases chosen@.len() - k,
        {
            assert(picked(all@, chosen@)[k as int] == all@[chosen@[k as int] as int]@);
            let c = &all[chosen[k]];
            if valid_initializer(program, c) {
                rewrite_candidate(program, c);
            }
            k += 1;
        }
        chosen.len() > 0
    }
}

/// The cell in row `i` and column `j` is where the exchanged indices say: cell `j * rows + i` of the
/// matrix by columns is cell `i * columns + j` of the matrix by rows.
pub proof fn exchange_keeps_cells(cells: Seq<Inst>, rows: int, columns: int, i: int, j: int)
    requires
        0 <= i < rows,
        0 <= j < columns,
        cells.len() == rows * columns,
    ensures
        0 <= j * rows + i < rows * columns,
        transposed(cells, rows, columns)[j * rows + i] == cells[i * columns + j],
{
    let k = j * rows + i;
    assert(0 <= k < rows * columns) by (nonlinear_arith)
        requires
            0 <= i < rows,
            0 <= j < columns,
            k == j * rows + i,
    ;
    lemma_split(j, i, rows);
}

proof fn lemma_split(j: int, i: int, rows: int)
    requires
        0 <= i < rows,
    ensures
        (j * rows + i) / rows == j,
        (j * rows + i) % rows == i,
{
    vstd::arithmetic::div_mod::lemma_fundamental_div_mod_converse(j * rows + i, rows, j, i);
}

/// Exchanging rows and columns twice gives the matrix back.
pub proof fn exchange_twice_is_nothing(cells: Seq<Inst>, rows: int, columns: int)
    requires
        rows >= 0,
        columns >= 0,
        cells.len() == rows * columns,
    ensures
        transposed(transposed(cells, rows, columns), columns, rows) == cells,
{
    let once = transposed(cells, rows, columns);
    let twice = transposed(once, columns, rows);
    assert(rows * columns == columns * rows) by (nonlinear_arith);
    assert forall|k: int| 0 <= k < cells.len() implies twice[k] == cells[k] by {
        lemma_cell_exists(k, columns, rows);
        let j = k % columns;
        let i = k / columns;
        assert(k == i * columns + j) by (nonlinear_arith)
            requires
                columns > 0,
                j == k % columns,
                i == k / columns,
        ;
        exchange_keeps_cells(cells, rows, columns, i, j);
    }
    assert(twice =~= cells);
}

} // verus!
