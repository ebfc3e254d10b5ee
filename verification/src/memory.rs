//! Which memory an address refers to.

use vstd::prelude::*;

use crate::blocked_reduction::nth;
use crate::boolean_simplify::literal;
use crate::chain_to_switch::lemma_block_users;
use crate::guard_elimination::{block_of_param, collect_fed, fed_from, find_block_of_param};
use crate::ir::{inst_position, nothing, position, BasicBlock, Function, Inst, Op, ProgramV, Type};
use crate::program::Program;
use crate::propagation::lemma_users;

verus! {

/// The object an address points into.
#[derive(Clone, Copy, Debug, PartialEq, Eq, Hash, Structural)]
pub enum MemObject {
    Alloc(Inst),
    Global(Inst),
    Unknown,
}

/// The value that the address computations of `addr` start from, following at most `depth` of them.
pub open spec fn root_at(p: ProgramV, addr: Inst, depth: nat) -> Inst
    decreases depth,
{
    if depth == 0 {
        nothing()
    } else if p.op(addr) is GetElemPtr {
        root_at(p, p.arg(addr, 0), (depth - 1) as nat)
    } else {
        addr
    }
}

/// The value that the address computations of `addr` start from.
pub open spec fn root_of(p: ProgramV, addr: Inst) -> Inst {
    root_at(p, addr, p.insts.len())
}

/// The object that `root` makes.
pub open spec fn object_made(p: ProgramV, root: Inst) -> MemObject {
    match p.op(root) {
        Op::Alloc => MemObject::Alloc(root),
        Op::GlobalAlloc => MemObject::Global(root),
        _ => MemObject::Unknown,
    }
}

/// A function starts with block `b`.
pub open spec fn starts_a_function(p: ProgramV, b: BasicBlock) -> bool {
    exists|k: int|
        0 <= k < p.funcs.len() && (#[trigger] p.func(Function(k as usize))).blocks.len() > 0 && p.func(
            Function(k as usize),
        ).blocks[0] == b
}

/// All that transfers hand to the block parameter `x`; nothing where calls hand something to it too.
pub open spec fn handed_to(p: ProgramV, x: Inst) -> Seq<Inst> {
    match block_of_param(p, x, 0) {
        Some(b) => if starts_a_function(p, b) {
            Seq::empty()
        } else {
            fed_from(p, p.block_users(b), b, position(p.block(b).params, x, 0), 0, Seq::empty())
        },
        None => Seq::empty(),
    }
}

/// The one value that the uses `users[from..]` of `slot` store there, beside `found`; `None` where they store two,
/// or do anything but store there and load from there.
pub open spec fn only_stored(p: ProgramV, slot: Inst, users: Seq<Inst>, from: int, found: Option<Inst>) -> Option<Inst>
    decreases users.len() - from,
{
    if from >= users.len() {
        found
    } else {
        let u = users[from];
        if p.op(u) is Load {
            only_stored(p, slot, users, from + 1, found)
        } else if p.op(u) is Store && p.arg(u, 0) != slot && found is None {
            only_stored(p, slot, users, from + 1, Some(p.arg(u, 0)))
        } else {
            None
        }
    }
}

/// All that the address `root`, which is no address computation, can be: what a block parameter is handed, and what
/// was stored where it is loaded from.
pub open spec fn sources(p: ProgramV, root: Inst) -> Seq<Inst> {
    match p.op(root) {
        Op::BlockArgRef => handed_to(p, root),
        Op::Load => if p.op(p.arg(root, 0)) is Alloc {
            match only_stored(p, p.arg(root, 0), p.users(p.arg(root, 0)), 0, None) {
                Some(v) => seq![v],
                None => Seq::empty(),
            }
        } else {
            Seq::empty()
        },
        _ => Seq::empty(),
    }
}

/// The one object that `values[from..]` point into, beside `found`; those computed from `root` itself say nothing.
pub open spec fn common_object(p: ProgramV, root: Inst, values: Seq<Inst>, from: int, found: MemObject) -> MemObject
    decreases values.len() - from,
{
    if from >= values.len() {
        found
    } else {
        let r = root_of(p, values[from]);
        let o = object_made(p, r);
        if r == root {
            common_object(p, root, values, from + 1, found)
        } else if o == MemObject::Unknown || (found != MemObject::Unknown && found != o) {
            MemObject::Unknown
        } else {
            common_object(p, root, values, from + 1, o)
        }
    }
}

/// The object that `addr` points into: what its computation starts from, or the one object that this is whatever
/// block it was handed by and whatever was stored.
pub open spec fn object_of(p: ProgramV, addr: Inst) -> MemObject {
    let root = root_of(p, addr);
    if p.op(root) is BlockArgRef || p.op(root) is Load {
        common_object(p, root, sources(p, root), 0, MemObject::Unknown)
    } else {
        object_made(p, root)
    }
}

/// `x` where it is a 64-bit integer.
pub open spec fn fitted(x: int) -> Option<int> {
    if i64::MIN <= x <= i64::MAX {
        Some(x)
    } else {
        None
    }
}

/// Bytes that the offsets `args[from..]` of an address computation add; `args[1]` steps over whole
/// values of type `ty`, each further one goes one array level down.
pub open spec fn offset_bytes(p: ProgramV, ty: Type, args: Seq<Inst>, from: int) -> Option<int>
    decreases args.len() - from,
{
    if from >= args.len() {
        Some(0)
    } else {
        let size = ty.element_at((from - 1) as nat).bytes();
        match (literal(p, args[from]), offset_bytes(p, ty, args, from + 1)) {
            (Some(k), Some(rest)) => if size > usize::MAX {
                None
            } else {
                match fitted(k * size) {
                    Some(step) => fitted(step + rest),
                    None => None,
                }
            },
            _ => None,
        }
    }
}

/// The constant distance of `addr` from the start of its object, following at most `depth` computations from a
/// value that is `start` away from it.
pub open spec fn offset_at(p: ProgramV, addr: Inst, start: int, depth: nat) -> Option<int>
    decreases depth,
{
    if depth == 0 {
        None
    } else {
        match p.op(addr) {
            Op::GetElemPtr => match (
                offset_at(p, p.arg(addr, 0), start, (depth - 1) as nat),
                offset_bytes(p, p.ty(p.arg(addr, 0)).pointee(), p.args(addr), 1),
            ) {
                (Some(base), Some(more)) => fitted(base + more),
                _ => None,
            },
            _ => Some(start),
        }
    }
}

/// The one distance from its object that all of `values[from..]` have, beside `found`; those that are `root` itself
/// say nothing.
pub open spec fn common_offset(p: ProgramV, root: Inst, values: Seq<Inst>, from: int, found: Option<int>) -> Option<int>
    decreases values.len() - from,
{
    if from >= values.len() {
        found
    } else {
        let moved = offset_at(p, values[from], 0, p.insts.len());
        if root_of(p, values[from]) == root {
            if values[from] == root {
                common_offset(p, root, values, from + 1, found)
            } else {
                None
            }
        } else if moved is None || (found is Some && found != moved) {
            None
        } else {
            common_offset(p, root, values, from + 1, moved)
        }
    }
}

/// The constant byte offset of `addr` in its object, where it is known.
pub open spec fn constant_offset(p: ProgramV, addr: Inst) -> Option<int> {
    let root = root_of(p, addr);
    if p.op(root) is BlockArgRef || p.op(root) is Load {
        match common_offset(p, root, sources(p, root), 0, None) {
            Some(start) => offset_at(p, addr, start, p.insts.len()),
            None => None,
        }
    } else {
        offset_at(p, addr, 0, p.insts.len())
    }
}

fn root_within(p: &Program, addr: Inst, depth: usize) -> (r: Inst)
    ensures
        r == root_at(p@, addr, depth as nat),
    decreases depth,
{
    if depth == 0 {
        return Inst(usize::MAX);
    }
    match p.op(addr) {
        Op::GetElemPtr => root_within(p, p.arg(addr, 0), depth - 1),
        _ => addr,
    }
}

fn find_root(p: &Program, addr: Inst) -> (r: Inst)
    ensures
        r == root_of(p@, addr),
{
    root_within(p, addr, p.num_insts())
}

fn find_object(p: &Program, root: Inst) -> (r: MemObject)
    ensures
        r == object_made(p@, root),
{
    match p.op(root) {
        Op::Alloc => MemObject::Alloc(root),
        Op::GlobalAlloc => MemObject::Global(root),
        _ => MemObject::Unknown,
    }
}

fn is_a_start(p: &Program, b: BasicBlock) -> (r: bool)
    ensures
        r == starts_a_function(p@, b),
{
    let n: usize = p.num_funcs();
    let mut k: usize = 0;
    while k < n
        invariant
            k <= n == p@.funcs.len(),
            forall|j: int|
                0 <= j < k ==> !((#[trigger] p@.func(Function(j as usize))).blocks.len() > 0 && p@.func(
                    Function(j as usize),
                ).blocks[0] == b),
        decreases n - k,
    {
        let blocks = p.basicblocks(Function(k));
        if blocks.len() > 0 && blocks[0] == b {
            assert(p@.func(Function(k as int as usize)).blocks[0] == b);
            return true;
        }
        k += 1;
    }
    false
}

fn find_sources(p: &Program, root: Inst) -> (r: Vec<Inst>)
    ensures
        r@ == sources(p@, root),
{
    match p.op(root) {
        Op::BlockArgRef => {
            if let Some(b) = find_block_of_param(p, root) {
                if !is_a_start(p, b) {
                    let params = p.block_params(b);
                    return collect_fed(p, b, inst_position(&params, root));
                }
            }
        },
        Op::Load => {
            let slot = p.arg(root, 0);
            if p.op(slot) == Op::Alloc {
                if let Some(v) = find_only_stored(p, slot) {
                    let r = vec![v];
                    assert(r@ =~= seq![v]);
                    return r;
                }
            }
        },
        _ => {},
    }
    let none: Vec<Inst> = Vec::new();
    assert(none@ =~= Seq::empty());
    none
}

fn find_only_stored(p: &Program, slot: Inst) -> (r: Option<Inst>)
    ensures
        r == only_stored(p@, slot, p@.users(slot), 0, None),
{
    let users = p.users(slot);
    let mut found: Option<Inst> = None;
    let mut k: usize = 0;
    while k < users.len()
        invariant
            k <= users@.len(),
            users@ == p@.users(slot),
            only_stored(p@, slot, users@, 0, None) == only_stored(p@, slot, users@, k as int, found),
        decreases users@.len() - k,
    {
        let u = users[k];
        match p.op(u) {
            Op::Load => {},
            Op::Store => {
                if p.arg(u, 0) == slot || found.is_some() {
                    return None;
                }
                found = Some(p.arg(u, 0));
            },
            _ => {
                return None;
            },
        }
        k += 1;
    }
    found
}

fn find_common_object(p: &Program, root: Inst) -> (r: MemObject)
    ensures
        r == common_object(p@, root, sources(p@, root), 0, MemObject::Unknown),
{
    let values = find_sources(p, root);
    let mut found = MemObject::Unknown;
    let mut k: usize = 0;
    while k < values.len()
        invariant
            k <= values@.len(),
            values@ == sources(p@, root),
            common_object(p@, root, values@, 0, MemObject::Unknown) == common_object(p@, root, values@, k as int, found),
        decreases values@.len() - k,
    {
        let r = find_root(p, values[k]);
        if r != root {
            let o = find_object(p, r);
            if o == MemObject::Unknown || (found != MemObject::Unknown && found != o) {
                return MemObject::Unknown;
            }
            found = o;
        }
        k += 1;
    }
    found
}

/// The object that `addr` points into.
pub fn base_of(p: &Program, addr: Inst) -> (r: MemObject)
    ensures
        r == object_of(p@, addr),
{
    let root = find_root(p, addr);
    match p.op(root) {
        Op::BlockArgRef | Op::Load => find_common_object(p, root),
        _ => find_object(p, root),
    }
}

fn fit(x: i128) -> (r: Option<i64>)
    ensures
        match r {
            Some(v) => fitted(x as int) == Some(v as int),
            None => fitted(x as int) is None,
        },
{
    if -0x8000_0000_0000_0000 <= x && x <= 0x7fff_ffff_ffff_ffff {
        Some(x as i64)
    } else {
        None
    }
}

fn bytes_of_offsets(p: &Program, ty: &Type, args: &Vec<Inst>, from: usize) -> (r: Option<i64>)
    requires
        1 <= from <= args@.len(),
    ensures
        match r {
            Some(v) => offset_bytes(p@, *ty, args@, from as int) == Some(v as int),
            None => offset_bytes(p@, *ty, args@, from as int) is None,
        },
    decreases args@.len() - from,
{
    if from >= args.len() {
        return Some(0);
    }
    let rest: i64 = match bytes_of_offsets(p, ty, args, from + 1) {
        Some(v) => v,
        None => {
            return None;
        },
    };
    let k: i32 = match p.op(args[from]) {
        Op::Integer(v) => v,
        _ => {
            return None;
        },
    };
    let size: usize = match ty.element(from - 1).size() {
        Some(v) => v,
        None => {
            return None;
        },
    };
    assert(-0x8000_0000 * 0xffff_ffff_ffff_ffff <= k * size <= 0x8000_0000 * 0xffff_ffff_ffff_ffff) by (nonlinear_arith)
        requires
            -0x8000_0000 <= k <= 0x7fff_ffff,
            0 <= size <= 0xffff_ffff_ffff_ffff,
    ;
    let product: i128 = (k as i128) * (size as i128);
    match fit(product) {
        Some(step) => fit(step as i128 + rest as i128),
        None => None,
    }
}

fn offset_within(p: &Program, addr: Inst, start: i64, depth: usize) -> (r: Option<i64>)
    ensures
        match r {
            Some(v) => offset_at(p@, addr, start as int, depth as nat) == Some(v as int),
            None => offset_at(p@, addr, start as int, depth as nat) is None,
        },
    decreases depth,
{
    if depth == 0 {
        return None;
    }
    match p.op(addr) {
        Op::GetElemPtr => {
            let base = p.arg(addr, 0);
            let args = p.args(addr);
            let ty = p.ty(base).dereference();
            let below = offset_within(p, base, start, depth - 1);
            let more = if args.len() >= 1 {
                bytes_of_offsets(p, &ty, &args, 1)
            } else {
                Some(0)
            };
            match (below, more) {
                (Some(a), Some(b)) => fit(a as i128 + b as i128),
                _ => None,
            }
        },
        _ => Some(start),
    }
}

fn find_common_offset(p: &Program, root: Inst) -> (r: Option<i64>)
    ensures
        match r {
            Some(v) => common_offset(p@, root, sources(p@, root), 0, None) == Some(v as int),
            None => common_offset(p@, root, sources(p@, root), 0, None) is None,
        },
{
    let values = find_sources(p, root);
    let n: usize = p.num_insts();
    let mut found: Option<i64> = None;
    let mut k: usize = 0;
    while k < values.len()
        invariant
            k <= values@.len(),
            n == p@.insts.len(),
            values@ == sources(p@, root),
            common_offset(p@, root, values@, 0, None) == common_offset(
                p@,
                root,
                values@,
                k as int,
                match found {
                    Some(v) => Some(v as int),
                    None => None,
                },
            ),
        decreases values@.len() - k,
    {
        let moved = offset_within(p, values[k], 0, n);
        if find_root(p, values[k]) == root {
            if values[k] != root {
                return None;
            }
        } else {
            match (moved, found) {
                (None, _) => {
                    return None;
                },
                (Some(a), Some(b)) => {
                    if a != b {
                        return None;
                    }
                },
                (Some(_), None) => {},
            }
            found = moved;
        }
        k += 1;
    }
    found
}

/// The constant byte offset of `addr` in its object.
pub fn byte_offset(p: &Program, addr: Inst) -> (r: Option<i64>)
    ensures
        match r {
            Some(v) => constant_offset(p@, addr) == Some(v as int),
            None => constant_offset(p@, addr) is None,
        },
{
    let root = find_root(p, addr);
    match p.op(root) {
        Op::BlockArgRef | Op::Load => match find_common_offset(p, root) {
            Some(start) => offset_within(p, addr, start, p.num_insts()),
            None => None,
        },
        _ => offset_within(p, addr, 0, p.num_insts()),
    }
}

/// Where an address points: an object and a distance from its start.
#[verifier::ext_equal]
pub struct PlaceV {
    pub object: MemObject,
    pub offset: int,
}

/// Address `addr`, which points to `at`, points into the object that it is found to point into, and as far from its
/// start as it is found to.
pub open spec fn is_right(p: ProgramV, addr: Inst, at: PlaceV) -> bool {
    object_of(p, addr) != MemObject::Unknown ==> at.object == object_of(p, addr) && (constant_offset(p, addr) matches Some(o)
        ==> at.offset == o)
}

proof fn lemma_found_once(p: ProgramV, root: Inst, values: Seq<Inst>, from: int, found: MemObject, k: int)
    requires
        0 <= from <= k < values.len() || (0 <= from && found != MemObject::Unknown && k < from),
        common_object(p, root, values, from, found) != MemObject::Unknown,
    ensures
        from <= k && root_of(p, values[k]) != root ==> object_made(p, root_of(p, values[k])) == common_object(
            p,
            root,
            values,
            from,
            found,
        ),
        found != MemObject::Unknown ==> common_object(p, root, values, from, found) == found,
    decreases values.len() - from,
{
    if from < values.len() {
        let r = root_of(p, values[from]);
        let o = object_made(p, r);
        let next = if r == root {
            found
        } else {
            o
        };
        if k > from || next != MemObject::Unknown {
            lemma_found_once(p, root, values, from + 1, next, k);
        }
    }
}

proof fn lemma_offset_once(p: ProgramV, root: Inst, values: Seq<Inst>, from: int, found: Option<int>, k: int)
    requires
        0 <= from <= k < values.len() || (0 <= from && found is Some && k < from),
        common_offset(p, root, values, from, found) is Some,
    ensures
        from <= k ==> if root_of(p, values[k]) == root {
            values[k] == root
        } else {
            offset_at(p, values[k], 0, p.insts.len()) == common_offset(p, root, values, from, found)
        },
        found is Some ==> common_offset(p, root, values, from, found) == found,
    decreases values.len() - from,
{
    if from < values.len() {
        let moved = offset_at(p, values[from], 0, p.insts.len());
        let next = if root_of(p, values[from]) == root {
            found
        } else {
            moved
        };
        if k > from || next is Some {
            lemma_offset_once(p, root, values, from + 1, next, k);
        }
    }
}

/// Whichever of its sources an address comes from, it points where it is found to: where that source points rightly,
/// so does what is handed on from it, or loaded after it was stored.
pub proof fn what_is_handed_on_points_rightly(p: ProgramV, x: Inst, s: Inst, at: PlaceV)
    requires
        p.op(x) is BlockArgRef || p.op(x) is Load,
        0 < p.insts.len(),
        sources(p, x).contains(s),
        is_right(p, s, at),
    ensures
        is_right(p, x, at),
{
    let values = sources(p, x);
    let k = values.index_of(s);
    assert(values[k] == s);
    assert(root_of(p, x) == x);
    if object_of(p, x) != MemObject::Unknown {
        lemma_found_once(p, x, values, 0, MemObject::Unknown, k);
        if constant_offset(p, x) is Some {
            lemma_offset_once(p, x, values, 0, None, k);
        }
    }
}

proof fn lemma_deeper(p: ProgramV, x: Inst, start: int, d: nat)
    requires
        p.insts.len() <= usize::MAX,
    ensures
        p.op(root_at(p, x, d)) is Removed || root_at(p, x, d + 1) == root_at(p, x, d),
        offset_at(p, x, start, d) is None || offset_at(p, x, start, d + 1) == offset_at(p, x, start, d),
    decreases d,
{
    if d > 0 && p.op(x) is GetElemPtr {
        lemma_deeper(p, p.arg(x, 0), start, (d - 1) as nat);
    }
}

/// An address computed from one that points rightly points rightly: it points into the same object, and as much
/// further on as its offsets say.
pub proof fn what_is_computed_points_rightly(p: ProgramV, x: Inst, at: PlaceV, to: PlaceV)
    requires
        p.insts.len() <= usize::MAX,
        p.op(x) is GetElemPtr,
        is_right(p, p.arg(x, 0), at),
        to.object == at.object,
        offset_bytes(p, p.ty(p.arg(x, 0)).pointee(), p.args(x), 1) matches Some(more) ==> to.offset == at.offset + more,
    ensures
        is_right(p, x, to),
{
    let base = p.arg(x, 0);
    let n = p.insts.len();
    if n > 0 && object_of(p, x) != MemObject::Unknown {
        let root = root_of(p, x);
        lemma_deeper(p, base, 0, (n - 1) as nat);
        assert(root == root_at(p, base, (n - 1) as nat));
        assert(root_of(p, base) == root);
        if p.op(root) is BlockArgRef || p.op(root) is Load {
            if let Some(start) = common_offset(p, root, sources(p, root), 0, None) {
                lemma_deeper(p, base, start, (n - 1) as nat);
            }
        }
    }
}

/// Transfer `u` hands `a` to parameter `k` of block `b`.
pub open spec fn hands(p: ProgramV, u: Inst, b: BasicBlock, k: int, a: Inst) -> bool {
    match p.op(u) {
        Op::Jump(x) => x == b && 0 <= k < p.args(u).len() && p.args(u)[k] == a,
        Op::Branch(x, y, _) => (x == b && 0 <= k < p.t_args(u).len() && p.t_args(u)[k] == a) || (y == b && 0 <= k < p.f_args(
            u,
        ).len() && p.f_args(u)[k] == a),
        _ => false,
    }
}

proof fn lemma_fed_all(p: ProgramV, users: Seq<Inst>, b: BasicBlock, k: int, from: int, found: Seq<Inst>, j: int, a: Inst)
    requires
        0 <= from,
        found.contains(a) || (from <= j < users.len() && hands(p, users[j], b, k, a)),
    ensures
        fed_from(p, users, b, k, from, found).contains(a),
    decreases users.len() - from,
{
    if from < users.len() {
        let u = users[from];
        let (x, y, z) = (nth(p.args(u), k), nth(p.t_args(u), k), nth(p.f_args(u), k));
        let one = found.push(y);
        let next = match p.op(u) {
            Op::Jump(t) => if t == b {
                found.push(x)
            } else {
                found
            },
            Op::Branch(s, t, _) => {
                let first = if s == b {
                    one
                } else {
                    found
                };
                if t == b {
                    first.push(z)
                } else {
                    first
                }
            },
            _ => found,
        };
        assert(fed_from(p, users, b, k, from, found) == fed_from(p, users, b, k, from + 1, next));
        if found.contains(a) {
            let i = found.index_of(a);
            assert(found.push(x)[i] == a && one[i] == a && found.push(z)[i] == a && one.push(z)[i] == a);
            assert(next.contains(a));
        } else if j == from {
            let n = found.len() as int;
            assert(found.push(x)[n] == x && one[n] == y && one.push(z)[n] == y && one.push(z)[n + 1] == z && found.push(z)[n]
                == z);
            assert(next.contains(a));
        }
        lemma_fed_all(p, users, b, k, from + 1, next, j, a);
    }
}

proof fn lemma_param_block(p: ProgramV, x: Inst, b: BasicBlock, from: int)
    requires
        0 <= from <= b.0 < p.blocks.len() <= usize::MAX,
        p.block(b).params.contains(x),
        forall|y: BasicBlock| y != b ==> !(#[trigger] p.block(y)).params.contains(x),
    ensures
        block_of_param(p, x, from) == Some(b),
    decreases p.blocks.len() - from,
{
    if from < b.0 {
        assert(!p.block(BasicBlock(from as usize)).params.contains(x));
        lemma_param_block(p, x, b, from + 1);
    } else {
        assert(BasicBlock(from as usize) == b);
    }
}

/// Where it is known what a parameter of a block points into, nothing but its sources is handed to it: no transfer hands
/// it anything else, and no call does.
pub proof fn nothing_else_is_handed(p: ProgramV, x: Inst, b: BasicBlock, k: int, u: Inst, a: Inst)
    requires
        p.op(x) is BlockArgRef,
        p.insts.len() <= usize::MAX,
        p.blocks.len() <= usize::MAX,
        0 <= k < p.block(b).params.len(),
        p.block(b).params[k] == x,
        p.block(b).params.no_duplicates(),
        forall|y: BasicBlock| y != b ==> !(#[trigger] p.block(y)).params.contains(x),
        object_of(p, x) != MemObject::Unknown,
        u.0 < p.insts.len(),
        hands(p, u, b, k, a),
    ensures
        sources(p, x).contains(a),
        forall|g: Function| #[trigger] p.func(g).blocks.len() > 0 ==> p.func(g).blocks[0] != b,
{
    assert(root_of(p, x) == x);
    lemma_param_block(p, x, b, 0);
    let users = p.block_users(b);
    crate::ir::position_is_first(p.block(b).params, x, 0);
    assert(position(p.block(b).params, x, 0) == k);
    lemma_block_users(p, b, u, 0, Seq::empty());
    let j = users.index_of(u);
    assert(users[j] == u);
    lemma_fed_all(p, users, b, k, 0, Seq::empty(), j, a);
    assert forall|g: Function| #[trigger] p.func(g).blocks.len() > 0 implies p.func(g).blocks[0] != b by {
        if p.func(g).blocks[0] == b {
            assert(g == Function(g.0 as int as usize));
            assert(starts_a_function(p, b));
            assert(sources(p, x).len() == 0);
        }
    }
}

proof fn lemma_only_stored(p: ProgramV, slot: Inst, users: Seq<Inst>, from: int, found: Option<Inst>, j: int)
    requires
        0 <= from,
        only_stored(p, slot, users, from, found) is Some,
        from <= j < users.len() || found is Some,
    ensures
        found is Some ==> only_stored(p, slot, users, from, found) == found,
        from <= j < users.len() ==> p.op(users[j]) is Load || (p.op(users[j]) is Store && p.arg(users[j], 0) != slot && only_stored(
            p,
            slot,
            users,
            from,
            found,
        ) == Some(p.arg(users[j], 0))),
    decreases users.len() - from,
{
    if from < users.len() {
        let u = users[from];
        let next = if p.op(u) is Load {
            found
        } else {
            Some(p.arg(u, 0))
        };
        if j > from || next is Some {
            lemma_only_stored(p, slot, users, from + 1, next, j);
        }
    }
}

/// Where it is known what a loaded address points into, it was loaded from a slot that is used for nothing but to load
/// from it, and to store its source there.
pub proof fn nothing_else_is_stored(p: ProgramV, x: Inst, u: Inst)
    requires
        p.op(x) is Load,
        p.insts.len() <= usize::MAX,
        object_of(p, x) != MemObject::Unknown,
        u.0 < p.insts.len(),
        p.args(u).contains(p.arg(x, 0)),
    ensures
        p.op(p.arg(x, 0)) is Alloc,
        p.op(u) is Load || (p.op(u) is Store && p.arg(u, 0) != p.arg(x, 0) && sources(p, x) == seq![p.arg(u, 0)]),
{
    assert(root_of(p, x) == x);
    let slot = p.arg(x, 0);
    let users = p.users(slot);
    assert(sources(p, x).len() > 0);
    lemma_users(p, slot, u, 0, Seq::empty());
    let j = users.index_of(u);
    assert(users[j] == u);
    lemma_only_stored(p, slot, users, 0, None, j);
}

} // verus!
