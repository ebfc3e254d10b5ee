//! Counters of loops, and values that follow them.

use vstd::prelude::*;

use crate::edges::{edge_args, incoming, incoming_edges, Edge};
use crate::ir::{BasicBlock, BinaryOp, Inst, Op, ProgramV};
use crate::loops::{Loop, LoopV};
use crate::program::Program;

verus! {

/// A parameter of a loop header that every round moves by the same step.
#[verifier::ext_equal]
pub struct IvV {
    pub param: Inst,
    pub initials: Seq<Inst>,
    pub step: i32,
}

pub struct BasicInductionVariable {
    pub param: Inst,
    pub initials: Vec<Inst>,
    pub step: i32,
}

impl View for BasicInductionVariable {
    type V = IvV;

    open spec fn view(&self) -> IvV {
        IvV { param: self.param, initials: self.initials@, step: self.step }
    }
}

/// The literal that `i` is.
pub open spec fn literal_of(p: ProgramV, i: Inst) -> Option<i32> {
    match p.op(i) {
        Op::Integer(v) => Some(v),
        _ => None,
    }
}

/// The literal that `value` is.
pub fn integer_constant(data: &Program, value: Inst) -> (r: Option<i32>)
    ensures
        r == literal_of(data@, value),
{
    match data.op(value) {
        Op::Integer(v) => Some(v),
        _ => None,
    }
}

/// What `v` adds to `param`, where it is a sum or difference of the two.
pub open spec fn step_by(p: ProgramV, param: Inst, v: Inst) -> Option<i32> {
    let a = p.arg(v, 0);
    let b = p.arg(v, 1);
    match p.op(v) {
        Op::Binary(BinaryOp::Add) => if a == param {
            literal_of(p, b)
        } else if b == param {
            literal_of(p, a)
        } else {
            None
        },
        Op::Binary(BinaryOp::Sub) => if a == param {
            match literal_of(p, b) {
                Some(c) => if c > i32::MIN {
                    Some((-c) as i32)
                } else {
                    None
                },
                None => None,
            }
        } else {
            None
        },
        _ => None,
    }
}

fn find_step(p: &Program, param: Inst, v: Inst) -> (r: Option<i32>)
    ensures
        r == step_by(p@, param, v),
{
    let a = p.arg(v, 0);
    let b = p.arg(v, 1);
    match p.op(v) {
        Op::Binary(BinaryOp::Add) => {
            if a == param {
                integer_constant(p, b)
            } else if b == param {
                integer_constant(p, a)
            } else {
                None
            }
        },
        Op::Binary(BinaryOp::Sub) => {
            if a == param {
                match integer_constant(p, b) {
                    Some(c) => if c > i32::MIN {
                        Some(-c)
                    } else {
                        None
                    },
                    None => None,
                }
            } else {
                None
            }
        },
        _ => None,
    }
}

/// Parameter number `idx` looked at along the edges `edges[from..]`: from inside the loop it gets
/// itself moved by one step, from outside a first value.
pub open spec fn iv_scan(
    p: ProgramV,
    l: LoopV,
    edges: Seq<Edge>,
    param: Inst,
    idx: int,
    from: int,
    step: Option<i32>,
    initials: Seq<Inst>,
) -> Option<IvV>
    decreases edges.len() - from,
{
    if from >= edges.len() {
        match step {
            Some(s) => if s != 0 && initials.len() > 0 {
                Some(IvV { param, initials, step: s })
            } else {
                None
            },
            None => None,
        }
    } else {
        let args = edge_args(p, edges[from]);
        if idx >= args.len() {
            None
        } else if l.body.contains(edges[from].from) {
            match step_by(p, param, args[idx]) {
                Some(s) => if step is None || step == Some(s) {
                    iv_scan(p, l, edges, param, idx, from + 1, Some(s), initials)
                } else {
                    None
                },
                None => None,
            }
        } else {
            iv_scan(p, l, edges, param, idx, from + 1, step, initials.push(args[idx]))
        }
    }
}

/// The counters among the parameters `params[from..]` of the header, behind `found`.
pub open spec fn ivs_from(p: ProgramV, l: LoopV, edges: Seq<Edge>, params: Seq<Inst>, from: int, found: Seq<IvV>) -> Seq<IvV>
    decreases params.len() - from,
{
    if from >= params.len() {
        found
    } else {
        match iv_scan(p, l, edges, params[from], from, 0, None, Seq::empty()) {
            Some(iv) => ivs_from(p, l, edges, params, from + 1, found.push(iv)),
            None => ivs_from(p, l, edges, params, from + 1, found),
        }
    }
}

/// The counters of loop `l`.
pub open spec fn ivs_of(p: ProgramV, order: Seq<BasicBlock>, l: LoopV) -> Seq<IvV> {
    ivs_from(p, l, incoming(p, order, l.header), p.block(l.header).params, 0, Seq::empty())
}

pub open spec fn iv_views(v: Seq<BasicInductionVariable>) -> Seq<IvV> {
    Seq::new(v.len(), |k: int| v[k]@)
}

fn scan_iv(p: &Program, l: &Loop, edges: &Vec<Edge>, param: Inst, idx: usize) -> (r: Option<BasicInductionVariable>)
    ensures
        match r {
            Some(iv) => iv_scan(p@, l@, edges@, param, idx as int, 0, None, Seq::empty()) == Some(iv@),
            None => iv_scan(p@, l@, edges@, param, idx as int, 0, None, Seq::empty()) is None,
        },
{
    let mut step: Option<i32> = None;
    let mut initials: Vec<Inst> = Vec::new();
    assert(initials@ =~= Seq::empty());
    let mut k: usize = 0;
    while k < edges.len()
        invariant
            k <= edges@.len(),
            iv_scan(p@, l@, edges@, param, idx as int, 0, None, Seq::empty()) == iv_scan(
                p@,
                l@,
                edges@,
                param,
                idx as int,
                k as int,
                step,
                initials@,
            ),
        decreases edges@.len() - k,
    {
        let args = edges[k].args(p);
        if idx >= args.len() {
            return None;
        }
        if l.contains(edges[k].from) {
            match find_step(p, param, args[idx]) {
                Some(s) => {
                    let fits = match step {
                        None => true,
                        Some(t) => t == s,
                    };
                    if !fits {
                        return None;
                    }
                    step = Some(s);
                },
                None => {
                    return None;
                },
            }
        } else {
            initials.push(args[idx]);
        }
        k += 1;
    }
    match step {
        Some(s) => {
            if s != 0 && initials.len() > 0 {
                Some(BasicInductionVariable { param, initials, step: s })
            } else {
                None
            }
        },
        None => None,
    }
}

/// The counters of loop `l`.
pub fn find_ivs(p: &Program, order: &Vec<BasicBlock>, l: &Loop) -> (r: Vec<BasicInductionVariable>)
    ensures
        iv_views(r@) == ivs_of(p@, order@, l@),
{
    let edges = incoming_edges(p, order, l.header);
    let params = p.block_params(l.header);
    let mut r: Vec<BasicInductionVariable> = Vec::new();
    assert(iv_views(r@) =~= Seq::empty());
    let mut k: usize = 0;
    while k < params.len()
        invariant
            k <= params@.len(),
            edges@ == incoming(p@, order@, l@.header),
            params@ == p@.block(l@.header).params,
            ivs_of(p@, order@, l@) == ivs_from(p@, l@, edges@, params@, k as int, iv_views(r@)),
        decreases params@.len() - k,
    {
        if let Some(iv) = scan_iv(p, l, &edges, params[k], k) {
            let ghost was = iv_views(r@);
            let ghost v = iv@;
            r.push(iv);
            assert(iv_views(r@) =~= was.push(v));
        }
        k += 1;
    }
    r
}

/// What ends a loop: its counter reaches the bound from below, or from above.
#[derive(Clone, Copy, Debug, PartialEq, Eq, Structural)]
pub struct InductionExit {
    pub bound: Inst,
    pub forward: bool,
}

/// The comparison of `param` with another value that `c` makes, and that value.
pub open spec fn compared(p: ProgramV, c: Inst, param: Inst) -> Option<(BinaryOp, Inst)> {
    match p.op(c) {
        Op::Binary(op) => if op.compares() && p.arg(c, 0) == param {
            Some((op, p.arg(c, 1)))
        } else if op.compares() && p.arg(c, 1) == param {
            match op.mirrored() {
                Some(m) => Some((m, p.arg(c, 0))),
                None => None,
            }
        } else {
            None
        },
        _ => None,
    }
}

/// How counter `iv` ends loop `l`: the header leaves the loop once the counter is no longer strictly
/// before the bound that it moves towards.
pub open spec fn exit_of(p: ProgramV, l: LoopV, iv: IvV) -> Option<InductionExit> {
    let t = p.terminator(l.header);
    match p.op(t) {
        Op::Branch(x, y, _) => if l.body.contains(x) == l.body.contains(y) {
            None
        } else {
            match compared(p, p.arg(t, 0), iv.param) {
                Some((op, bound)) => {
                    let stays = if l.body.contains(x) {
                        Some(op)
                    } else {
                        op.complement()
                    };
                    if stays == Some(BinaryOp::Lt) && iv.step > 0 {
                        Some(InductionExit { bound, forward: true })
                    } else if stays == Some(BinaryOp::Gt) && iv.step < 0 {
                        Some(InductionExit { bound, forward: false })
                    } else {
                        None
                    }
                },
                None => None,
            }
        },
        _ => None,
    }
}

fn find_comparison(p: &Program, c: Inst, param: Inst) -> (r: Option<(BinaryOp, Inst)>)
    ensures
        r == compared(p@, c, param),
{
    match p.op(c) {
        Op::Binary(op) => {
            if op.is_compare() && p.arg(c, 0) == param {
                Some((op, p.arg(c, 1)))
            } else if op.is_compare() && p.arg(c, 1) == param {
                match op.swap_compare_args() {
                    Some(m) => Some((m, p.arg(c, 0))),
                    None => None,
                }
            } else {
                None
            }
        },
        _ => None,
    }
}

/// How counter `iv` ends loop `l`.
pub fn normalize_strict_exit(p: &Program, l: &Loop, iv: &BasicInductionVariable) -> (r: Option<InductionExit>)
    ensures
        r == exit_of(p@, l@, iv@),
{
    let t = p.terminator(l.header);
    match p.op(t) {
        Op::Branch(x, y, _) => {
            let x_in = l.contains(x);
            if x_in == l.contains(y) {
                return None;
            }
            match find_comparison(p, p.arg(t, 0), iv.param) {
                Some((op, bound)) => {
                    let stays = if x_in {
                        Some(op)
                    } else {
                        op.complement_integer_compare()
                    };
                    match stays {
                        Some(BinaryOp::Lt) => if iv.step > 0 {
                            Some(InductionExit { bound, forward: true })
                        } else {
                            None
                        },
                        Some(BinaryOp::Gt) => if iv.step < 0 {
                            Some(InductionExit { bound, forward: false })
                        } else {
                            None
                        },
                        _ => None,
                    }
                },
                None => None,
            }
        },
        _ => None,
    }
}

/// The least and the greatest of the literals `list[from..]` and those before; `None` where one is no
/// literal.
pub open spec fn extremes(p: ProgramV, list: Seq<Inst>, from: int, found: Option<(i32, i32)>) -> Option<(i32, i32)>
    decreases list.len() - from,
{
    if from >= list.len() {
        found
    } else {
        match literal_of(p, list[from]) {
            Some(v) => {
                let next = match found {
                    Some((lo, hi)) => (
                        if v < lo {
                            v
                        } else {
                            lo
                        },
                        if v > hi {
                            v
                        } else {
                            hi
                        },
                    ),
                    None => (v, v),
                };
                extremes(p, list, from + 1, Some(next))
            },
            None => None,
        }
    }
}

fn find_extremes(p: &Program, list: &Vec<Inst>) -> (r: Option<(i32, i32)>)
    ensures
        r == extremes(p@, list@, 0, None),
{
    let mut found: Option<(i32, i32)> = None;
    let mut k: usize = 0;
    while k < list.len()
        invariant
            k <= list@.len(),
            extremes(p@, list@, 0, None) == extremes(p@, list@, k as int, found),
        decreases list@.len() - k,
    {
        match integer_constant(p, list[k]) {
            Some(v) => {
                let next = match found {
                    Some((lo, hi)) => (
                        if v < lo {
                            v
                        } else {
                            lo
                        },
                        if v > hi {
                            v
                        } else {
                            hi
                        },
                    ),
                    None => (v, v),
                };
                found = Some(next);
            },
            None => {
                return None;
            },
        }
        k += 1;
    }
    found
}

/// The values that a counter with first values from `lo` to `hi` takes while it is before `bound`;
/// `None` where its last step may leave the range of the type.
pub open spec fn span(lo: i32, hi: i32, step: i32, bound: i32, forward: bool) -> Option<(i64, i64)> {
    if forward {
        if bound - 1 + step > i32::MAX {
            None
        } else {
            Some((
                lo as i64,
                if hi >= bound - 1 {
                    hi as i64
                } else {
                    (bound - 1) as i64
                },
            ))
        }
    } else {
        if bound + 1 + step < i32::MIN {
            None
        } else {
            Some((
                if lo <= bound + 1 {
                    lo as i64
                } else {
                    (bound + 1) as i64
                },
                hi as i64,
            ))
        }
    }
}

/// The least and the greatest value that counter `iv` takes in the body of its loop, where its first
/// values and its bound are literals.
pub open spec fn range_of(p: ProgramV, iv: IvV, exit: InductionExit) -> Option<(i64, i64)> {
    match (extremes(p, iv.initials, 0, None), literal_of(p, exit.bound)) {
        (Some((lo, hi)), Some(bound)) => span(lo, hi, iv.step, bound, exit.forward),
        _ => None,
    }
}

/// The values that counter `iv` takes in the body of its loop.
pub fn iteration_value_bounds(p: &Program, iv: &BasicInductionVariable, exit: InductionExit) -> (r: Option<(i64, i64)>)
    ensures
        r == range_of(p@, iv@, exit),
{
    match (find_extremes(p, &iv.initials), integer_constant(p, exit.bound)) {
        (Some((lo, hi)), Some(bound)) => {
            let b: i64 = bound as i64;
            let s: i64 = iv.step as i64;
            if exit.forward {
                if b - 1 + s > 0x7fff_ffff {
                    None
                } else {
                    Some((lo as i64, if hi as i64 >= b - 1 {
                        hi as i64
                    } else {
                        b - 1
                    }))
                }
            } else {
                if b + 1 + s < -0x8000_0000 {
                    None
                } else {
                    Some((if lo as i64 <= b + 1 {
                        lo as i64
                    } else {
                        b + 1
                    }, hi as i64))
                }
            }
        },
        _ => None,
    }
}

/// How often a counter that starts at `first` is before `bound` when it moves by `step`.
pub open spec fn rounds(first: i32, step: i32, bound: i32) -> int {
    if step > 0 {
        if first >= bound {
            0
        } else {
            (bound - first + step - 1) / (step as int)
        }
    } else if step < 0 {
        if first <= bound {
            0
        } else {
            (first - bound - step - 1) / (-(step as int))
        }
    } else {
        0
    }
}

/// How many rounds the loop runs at most, where the first values of its counter and the bound are
/// literals.
pub open spec fn trips(p: ProgramV, iv: IvV, exit: InductionExit) -> Option<int> {
    match (extremes(p, iv.initials, 0, None), literal_of(p, exit.bound)) {
        (Some((lo, hi)), Some(bound)) => Some(
            rounds(
                if exit.forward {
                    lo
                } else {
                    hi
                },
                iv.step,
                bound,
            ),
        ),
        _ => None,
    }
}

fn count_rounds(first: i32, step: i32, bound: i32) -> (r: u64)
    ensures
        r == rounds(first, step, bound),
{
    let f: i64 = first as i64;
    let s: i64 = step as i64;
    let b: i64 = bound as i64;
    if s > 0 {
        if f >= b {
            0
        } else {
            let n: u64 = (b - f + s - 1) as u64;
            let d: u64 = s as u64;
            n / d
        }
    } else if s < 0 {
        if f <= b {
            0
        } else {
            let n: u64 = (f - b - s - 1) as u64;
            let d: u64 = (-s) as u64;
            n / d
        }
    } else {
        0
    }
}

/// How many rounds the loop runs at most.
pub fn induction_trip_count(p: &Program, iv: &BasicInductionVariable, exit: InductionExit) -> (r: Option<u64>)
    ensures
        match r {
            Some(n) => trips(p@, iv@, exit) == Some(n as int),
            None => trips(p@, iv@, exit) is None,
        },
{
    match (find_extremes(p, &iv.initials), integer_constant(p, exit.bound)) {
        (Some((lo, hi)), Some(bound)) => {
            let first = if exit.forward {
                lo
            } else {
                hi
            };
            Some(count_rounds(first, iv.step, bound))
        },
        _ => None,
    }
}

/// A value that is `a` times a counter plus `b`.
#[derive(Clone, Copy, Debug, PartialEq, Eq, Structural)]
pub struct Linear {
    pub a: i32,
    pub b: i32,
}

/// `x` is in the range of `i32`.
pub open spec fn is_word(x: int) -> bool {
    i32::MIN <= x <= i32::MAX
}

/// The value `a * c + b` for counters `c` from `lo` to `hi`, where it never leaves the range of the
/// type.
pub open spec fn linear(a: int, b: int, lo: i64, hi: i64) -> Option<Linear> {
    if is_word(a) && is_word(b) && is_word(a * lo + b) && is_word(a * hi + b) {
        Some(Linear { a: a as i32, b: b as i32 })
    } else {
        None
    }
}

/// Value `v` as a multiple of the counter `param`, which runs from `lo` to `hi`, plus a literal.
pub open spec fn derived(p: ProgramV, param: Inst, v: Inst, lo: i64, hi: i64, depth: nat) -> Option<Linear>
    decreases depth,
{
    if depth == 0 {
        None
    } else if v == param {
        linear(1, 0, lo, hi)
    } else {
        match p.op(v) {
            Op::Integer(c) => linear(0, c as int, lo, hi),
            Op::Binary(op) => match (
                derived(p, param, p.arg(v, 0), lo, hi, (depth - 1) as nat),
                derived(p, param, p.arg(v, 1), lo, hi, (depth - 1) as nat),
            ) {
                (Some(x), Some(y)) => match op {
                    BinaryOp::Add => linear(x.a + y.a, x.b + y.b, lo, hi),
                    BinaryOp::Sub => linear(x.a - y.a, x.b - y.b, lo, hi),
                    BinaryOp::Mul => if x.a == 0 {
                        linear(x.b * y.a, x.b * y.b, lo, hi)
                    } else if y.a == 0 {
                        linear(y.b * x.a, y.b * x.b, lo, hi)
                    } else {
                        None
                    },
                    _ => None,
                },
                _ => None,
            },
            _ => None,
        }
    }
}

fn make_linear(a: i64, b: i64, lo: i64, hi: i64) -> (r: Option<Linear>)
    requires
        -0x8000_0000 - 1 <= lo <= 0x8000_0000,
        -0x8000_0000 - 1 <= hi <= 0x8000_0000,
    ensures
        r == linear(a as int, b as int, lo, hi),
{
    if a < -0x8000_0000 || a > 0x7fff_ffff || b < -0x8000_0000 || b > 0x7fff_ffff {
        return None;
    }
    assert(-0x4000_0000_8000_0000 <= a * lo <= 0x4000_0000_8000_0000) by (nonlinear_arith)
        requires
            -0x8000_0000 <= a <= 0x7fff_ffff,
            -0x8000_0000 - 1 <= lo <= 0x8000_0000,
    ;
    assert(-0x4000_0000_8000_0000 <= a * hi <= 0x4000_0000_8000_0000) by (nonlinear_arith)
        requires
            -0x8000_0000 <= a <= 0x7fff_ffff,
            -0x8000_0000 - 1 <= hi <= 0x8000_0000,
    ;
    let x: i64 = a * lo + b;
    let y: i64 = a * hi + b;
    if x < -0x8000_0000 || x > 0x7fff_ffff || y < -0x8000_0000 || y > 0x7fff_ffff {
        return None;
    }
    Some(Linear { a: a as i32, b: b as i32 })
}

fn times(x: i32, y: i32) -> (r: i64)
    ensures
        r == x * y,
{
    assert(-0x4000_0000_0000_0000 <= x * y <= 0x4000_0000_0000_0000) by (nonlinear_arith)
        requires
            -0x8000_0000 <= x <= 0x7fff_ffff,
            -0x8000_0000 <= y <= 0x7fff_ffff,
    ;
    (x as i64) * (y as i64)
}

/// Value `v` as a multiple of the counter `param`, which runs from `lo` to `hi`, plus a literal.
pub fn classify_derived_induction_variable(p: &Program, param: Inst, v: Inst, lo: i64, hi: i64, depth: usize) -> (r: Option<
    Linear,
>)
    requires
        -0x8000_0000 - 1 <= lo <= 0x8000_0000,
        -0x8000_0000 - 1 <= hi <= 0x8000_0000,
    ensures
        r == derived(p@, param, v, lo, hi, depth as nat),
    decreases depth,
{
    if depth == 0 {
        return None;
    }
    if v == param {
        return make_linear(1, 0, lo, hi);
    }
    match p.op(v) {
        Op::Integer(c) => make_linear(0, c as i64, lo, hi),
        Op::Binary(op) => {
            let x = classify_derived_induction_variable(p, param, p.arg(v, 0), lo, hi, depth - 1);
            let y = classify_derived_induction_variable(p, param, p.arg(v, 1), lo, hi, depth - 1);
            match (x, y) {
                (Some(x), Some(y)) => match op {
                    BinaryOp::Add => make_linear(x.a as i64 + y.a as i64, x.b as i64 + y.b as i64, lo, hi),
                    BinaryOp::Sub => make_linear(x.a as i64 - y.a as i64, x.b as i64 - y.b as i64, lo, hi),
                    BinaryOp::Mul => {
                        if x.a == 0 {
                            make_linear(times(x.b, y.a), times(x.b, y.b), lo, hi)
                        } else if y.a == 0 {
                            make_linear(times(y.b, x.a), times(y.b, x.b), lo, hi)
                        } else {
                            None
                        }
                    },
                    _ => None,
                },
                _ => None,
            }
        },
        _ => None,
    }
}

/// While a counter has not reached its bound, its value is within its range, and the next step stays in
/// the range of the type.
pub proof fn counter_stays_in_span(lo: i32, hi: i32, step: i32, bound: i32, forward: bool, first: i32, k: nat)
    requires
        lo <= first <= hi,
        forward ==> step > 0,
        !forward ==> step < 0,
        span(lo, hi, step, bound, forward) is Some,
        forward ==> first + k * step < bound,
        !forward ==> first + k * step > bound,
    ensures
        ({
            let (least, greatest) = span(lo, hi, step, bound, forward)->0;
            let value = first + k * step;
            least <= value <= greatest && is_word(value + step)
        }),
{
    if forward {
        assert(k * step >= 0) by (nonlinear_arith)
            requires
                step > 0,
                k >= 0,
        ;
    } else {
        assert(k * step <= 0) by (nonlinear_arith)
            requires
                step < 0,
                k >= 0,
        ;
    }
}

/// A value that follows a counter is what its multiple and its offset say, for every counter in the
/// range: the words that compute it never wrap.
pub proof fn derived_value_is_linear(
    p: ProgramV,
    env: spec_fn(Inst) -> i32,
    param: Inst,
    v: Inst,
    lo: i64,
    hi: i64,
    depth: nat,
)
    requires
        lo <= env(param) <= hi,
        forall|i: Inst|
            (#[trigger] p.op(i)) matches Op::Integer(c) ==> env(i) == c,
        forall|i: Inst|
            (#[trigger] p.op(i)) matches Op::Binary(op) ==> (op == BinaryOp::Add || op == BinaryOp::Sub || op
                == BinaryOp::Mul) ==> env(i) == crate::arith::int_op(op, env(p.arg(i, 0)), env(p.arg(i, 1))),
        derived(p, param, v, lo, hi, depth) is Some,
    ensures
        env(v) == derived(p, param, v, lo, hi, depth)->0.a * env(param) + derived(p, param, v, lo, hi, depth)->0.b,
    decreases depth,
{
    let r = derived(p, param, v, lo, hi, depth)->0;
    let c = env(param) as int;
    if v == param {
        assert(r.a * c == c) by (nonlinear_arith)
            requires
                r.a == 1,
        ;
    } else {
        match p.op(v) {
            Op::Binary(op) => {
                let x = derived(p, param, p.arg(v, 0), lo, hi, (depth - 1) as nat)->0;
                let y = derived(p, param, p.arg(v, 1), lo, hi, (depth - 1) as nat)->0;
                derived_value_is_linear(p, env, param, p.arg(v, 0), lo, hi, (depth - 1) as nat);
                derived_value_is_linear(p, env, param, p.arg(v, 1), lo, hi, (depth - 1) as nat);
                lemma_linear_between(r.a as int, r.b as int, lo as int, hi as int, c);
                let ex = env(p.arg(v, 0)) as int;
                let ey = env(p.arg(v, 1)) as int;
                assert(p.op(v) == Op::Binary(op));
                if op == BinaryOp::Add {
                    assert(r.a * c == x.a * c + y.a * c) by (nonlinear_arith)
                        requires
                            r.a == x.a + y.a,
                    ;
                    assert(ex + ey == r.a * c + r.b);
                } else if op == BinaryOp::Sub {
                    assert(r.a * c == x.a * c - y.a * c) by (nonlinear_arith)
                        requires
                            r.a == x.a - y.a,
                    ;
                    assert(ex - ey == r.a * c + r.b);
                } else if x.a == 0 {
                    assert(ex * ey == r.a * c + r.b) by (nonlinear_arith)
                        requires
                            x.a == 0,
                            ex == x.a * c + x.b,
                            ey == y.a * c + y.b,
                            r.a == x.b * y.a,
                            r.b == x.b * y.b,
                    ;
                } else {
                    assert(ex * ey == r.a * c + r.b) by (nonlinear_arith)
                        requires
                            y.a == 0,
                            ex == x.a * c + x.b,
                            ey == y.a * c + y.b,
                            r.a == y.b * x.a,
                            r.b == y.b * x.b,
                    ;
                }
                lemma_word_wraps(r.a * c + r.b);
            },
            _ => {
                assert(r.a * c == 0) by (nonlinear_arith)
                    requires
                        r.a == 0,
                ;
            },
        }
    }
}

proof fn lemma_word_wraps(x: int)
    requires
        is_word(x),
    ensures
        crate::arith::wrap32(x) == x,
{
}

proof fn lemma_linear_between(a: int, b: int, lo: int, hi: int, c: int)
    requires
        lo <= c <= hi,
        is_word(a * lo + b),
        is_word(a * hi + b),
    ensures
        is_word(a * c + b),
{
    if a >= 0 {
        assert(a * lo <= a * c <= a * hi) by (nonlinear_arith)
            requires
                a >= 0,
                lo <= c <= hi,
        ;
    } else {
        assert(a * hi <= a * c <= a * lo) by (nonlinear_arith)
            requires
                a < 0,
                lo <= c <= hi,
        ;
    }
}

} // verus!
