//! Simplification of boolean computations, branches and selects.

use vstd::prelude::*;

use crate::arith::{complement_negates, truth};
use crate::ir::{BasicBlock, BinaryOp, Function, Inst, Op, ProgramV, Type};
use crate::program::{branch_args, Program};
use crate::values::{
    agrees, all_agree, kept, lemma_emptied, lemma_kept_is_reflexive, lemma_kept_is_transitive,
    lemma_literal_added, lemma_moved, lemma_remade,
    lemma_replaced, lemma_replaced_args, typed, well_typed, with_value,
};

verus! {

pub struct BooleanSimplification;

/// The value of an integer literal.
pub open spec fn literal(p: ProgramV, i: Inst) -> Option<i32> {
    match p.op(i) {
        Op::Integer(v) => Some(v),
        _ => None,
    }
}

/// `i` compares a value with zero: the value, and whether for equality.
pub open spec fn zero_test(p: ProgramV, i: Inst) -> Option<(Inst, bool)> {
    match p.op(i) {
        Op::Binary(op) => if !(op is Eq || op is NotEq) {
            None
        } else if literal(p, p.arg(i, 0)) == Some(0i32) {
            Some((p.arg(i, 1), op is Eq))
        } else if literal(p, p.arg(i, 1)) == Some(0i32) {
            Some((p.arg(i, 0), op is Eq))
        } else {
            None
        },
        _ => None,
    }
}

pub open spec fn is_bit(v: Option<i32>) -> bool {
    v == Some(0i32) || v == Some(1i32)
}

/// `i` tests a value against zero or one: the value and the literal.
pub open spec fn bit_test(p: ProgramV, i: Inst) -> Option<(Inst, i32)> {
    match p.op(i) {
        Op::Binary(op) => if !(op is Eq || op is NotEq) {
            None
        } else if is_bit(literal(p, p.arg(i, 0))) {
            Some((p.arg(i, 1), literal(p, p.arg(i, 0))->0))
        } else if is_bit(literal(p, p.arg(i, 1))) {
            Some((p.arg(i, 0), literal(p, p.arg(i, 1))->0))
        } else {
            None
        },
        _ => None,
    }
}

/// `v` is zero or one: a literal, a comparison, or a select between such values.
///
/// Selects are followed at most `depth` deep; a cycle of selects runs out of depth.
pub open spec fn canonical(p: ProgramV, v: Inst, depth: nat) -> bool
    decreases depth,
{
    if depth == 0 {
        false
    } else {
        match p.op(v) {
            Op::Integer(k) => k == 0 || k == 1,
            Op::Binary(op) => op.compares(),
            Op::Select => canonical(p, p.arg(v, 1), (depth - 1) as nat) && canonical(p, p.arg(v, 2), (depth - 1) as nat),
            _ => false,
        }
    }
}

/// `canonical` to the depth of the whole program, which is as good as any depth.
pub open spec fn canonical_bool(p: ProgramV, v: Inst) -> bool {
    canonical(p, v, p.insts.len())
}

/// More depth finds no less.
proof fn lemma_deeper(p: ProgramV, v: Inst, d: nat, e: nat)
    requires
        canonical(p, v, d),
        d <= e,
    ensures
        canonical(p, v, e),
    decreases d,
{
    if p.op(v) is Select {
        lemma_deeper(p, p.arg(v, 1), (d - 1) as nat, (e - 1) as nat);
        lemma_deeper(p, p.arg(v, 2), (d - 1) as nat, (e - 1) as nat);
    }
}

/// A value that takes `d` steps leans on one that takes `d - 1` steps, and so on down to one step.
proof fn lemma_ladder(p: ProgramV, v: Inst, d: nat) -> (s: Seq<int>)
    requires
        d > 0,
        canonical(p, v, d),
        !canonical(p, v, (d - 1) as nat),
    ensures
        s.len() == d,
        forall|k: int| 0 <= k < d ==> 0 <= #[trigger] s[k] < p.insts.len(),
        forall|k: int|
            0 <= k < d ==> canonical(p, Inst(#[trigger] s[k] as usize), (k + 1) as nat) && !canonical(
                p,
                Inst(s[k] as usize),
                k as nat,
            ),
    decreases d,
{
    if d == 1 {
        seq![v.0 as int]
    } else {
        let e = (d - 1) as nat;
        if !(p.op(v) is Select) {
            assert(canonical(p, v, 1));
            lemma_deeper(p, v, 1, e);
        }
        let a = if canonical(p, p.arg(v, 1), (e - 1) as nat) {
            p.arg(v, 2)
        } else {
            p.arg(v, 1)
        };
        let s = lemma_ladder(p, a, e);
        s.push(v.0 as int)
    }
}

/// The depth of the whole program is enough: what is seen to be zero or one by following selects to any
/// depth is seen by `canonical_bool`, however the selects share their operands.
pub proof fn any_depth_is_enough(p: ProgramV, v: Inst, d: nat)
    requires
        canonical(p, v, d),
    ensures
        canonical_bool(p, v),
    decreases d,
{
    if d <= p.insts.len() {
        lemma_deeper(p, v, d, p.insts.len());
    } else if canonical(p, v, (d - 1) as nat) {
        any_depth_is_enough(p, v, (d - 1) as nat);
    } else {
        let s = lemma_ladder(p, v, d);
        assert forall|j: int, k: int| 0 <= j < s.len() && 0 <= k < s.len() && j != k implies s[j] != s[k] by {
            if s[j] == s[k] {
                let (low, high) = if j < k {
                    (j, k)
                } else {
                    (k, j)
                };
                lemma_deeper(p, Inst(s[low] as usize), (low + 1) as nat, high as nat);
            }
        }
        s.unique_seq_to_set();
        let all = vstd::set_lib::set_int_range(0, p.insts.len() as int);
        vstd::set_lib::lemma_int_range(0, p.insts.len() as int);
        assert(s.to_set().subset_of(all));
        vstd::set_lib::lemma_len_subset(s.to_set(), all);
    }
}

/// Every use of `i` made a use of `v`, and `i` taken out of its block.
pub open spec fn value_replaced(p: ProgramV, f: Function, i: Inst, v: Inst) -> ProgramV {
    let q = p.replace_uses(i, v);
    match q.parent_bb(f, i) {
        Some(b) => q.remove(b, i),
        None => q,
    }
}

/// The program after `i`, a binary operation, was simplified; `None` where no rule applies.
pub open spec fn binary_simplified(p: ProgramV, f: Function, i: Inst, op: BinaryOp) -> Option<ProgramV> {
    if op.compares() && p.ty(p.arg(i, 0)) is I32 && p.arg(i, 0) == p.arg(i, 1) {
        let v = truth(op is Eq || op is Ge || op is Le);
        Some(value_replaced(p.push_inst(Op::Integer(v), Seq::empty(), Type::I32, false), f, i, p.next_inst()))
    } else {
        match bit_test(p, i) {
            None => None,
            Some((v, k)) => if !canonical_bool(p, v) {
                None
            } else if (op is NotEq) == (k == 0) {
                Some(value_replaced(p, f, i, v))
            } else {
                match p.op(v) {
                    Op::Binary(inner) => if inner.compares() && p.ty(p.arg(v, 0)) is I32 {
                        Some(
                            p.set_inst(
                                i,
                                Op::Binary(inner.complement()->0),
                                seq![p.arg(v, 0), p.arg(v, 1)],
                                Type::I32,
                            ),
                        )
                    } else {
                        None
                    },
                    _ => None,
                }
            },
        }
    }
}

/// The program after branch `i` was simplified; `None` where no rule applies.
pub open spec fn branch_simplified(
    p: ProgramV,
    i: Inst,
    t: BasicBlock,
    f: BasicBlock,
) -> Option<ProgramV> {
    match zero_test(p, p.arg(i, 0)) {
        None => None,
        Some((v, is_eq)) => if !(p.ty(v) is I32) {
            None
        } else if is_eq {
            Some(
                p.set_inst(
                    i,
                    Op::Branch(f, t, p.f_args(i).len() as usize),
                    seq![v] + p.f_args(i) + p.t_args(i),
                    Type::Unit,
                ),
            )
        } else {
            Some(
                p.set_inst(
                    i,
                    Op::Branch(t, f, p.t_args(i).len() as usize),
                    seq![v] + p.t_args(i) + p.f_args(i),
                    Type::Unit,
                ),
            )
        },
    }
}

/// The program after select `i` was simplified; `None` where no rule applies.
pub open spec fn select_simplified(p: ProgramV, f: Function, i: Inst) -> Option<ProgramV> {
    let c = p.arg(i, 0);
    let a = p.arg(i, 1);
    let b = p.arg(i, 2);
    let test = zero_test(p, c);
    if a == b {
        Some(value_replaced(p, f, i, a))
    } else if a == c && literal(p, b) == Some(0i32) {
        Some(value_replaced(p, f, i, c))
    } else if test is Some && p.ty((test->0).0) is I32 {
        let v = (test->0).0;
        if (test->0).1 {
            Some(p.set_inst(i, Op::Select, seq![v, b, a], p.ty(b)))
        } else {
            Some(p.set_inst(i, Op::Select, seq![v, a, b], p.ty(a)))
        }
    } else if !(p.ty(i) is I32) || !canonical_bool(p, c) {
        None
    } else if literal(p, a) == Some(1i32) && literal(p, b) == Some(0i32) {
        Some(value_replaced(p, f, i, c))
    } else if literal(p, a) == Some(0i32) && literal(p, b) == Some(1i32) {
        let q = p.push_inst(Op::Integer(0), Seq::empty(), Type::I32, false);
        Some(q.set_inst(i, Op::Binary(BinaryOp::Eq), seq![c, p.next_inst()], Type::I32))
    } else {
        None
    }
}

/// The program after instruction `i` was simplified; `None` where no rule applies.
pub open spec fn simplified(p: ProgramV, f: Function, i: Inst) -> Option<ProgramV> {
    match p.op(i) {
        Op::Binary(op) => binary_simplified(p, f, i, op),
        Op::Branch(t, e, _) => branch_simplified(p, i, t, e),
        Op::Select => select_simplified(p, f, i),
        _ => None,
    }
}

/// The first of `insts[from..]` that can be simplified is.
pub open spec fn one_simplified(p: ProgramV, f: Function, insts: Seq<Inst>, from: int) -> Option<ProgramV>
    decreases insts.len() - from,
{
    if from >= insts.len() {
        None
    } else {
        match simplified(p, f, insts[from]) {
            Some(q) => Some(q),
            None => one_simplified(p, f, insts, from + 1),
        }
    }
}

/// Simplification repeated until nothing in `f` can be simplified, for at most `rounds` rounds.
pub open spec fn all_simplified(p: ProgramV, f: Function, rounds: nat, changed: bool) -> (ProgramV, bool)
    decreases rounds,
{
    if rounds == 0 {
        (p, changed)
    } else {
        match one_simplified(p, f, p.placed(f), 0) {
            None => (p, changed),
            Some(q) => all_simplified(q, f, (rounds - 1) as nat, true),
        }
    }
}

impl BooleanSimplification {
    /// Simplifies every function of the layout. True when something changed.
    pub fn run(&mut self, program: &mut Program) -> (changed: bool)
        ensures
            (final(program)@, changed) == functions_simplified(old(program)@, old(program)@.layout, 0, false),
    {
        let layout = program.function_layout();
        let mut changed = false;
        let mut k: usize = 0;
        while k < layout.len()
            invariant
                k <= layout@.len(),
                layout@ == old(program)@.layout,
                functions_simplified(old(program)@, layout@, 0, false) == functions_simplified(
                    program@,
                    layout@,
                    k as int,
                    changed,
                ),
            decreases layout@.len() - k,
        {
            let here = self.run_on(program, layout[k]);
            changed = changed || here;
            k += 1;
        }
        changed
    }

    /// Simplifies `f` until no rule applies any more. True when something changed.
    ///
    /// The number of rounds is bounded by the largest machine integer.
    pub fn run_on(&mut self, data: &mut Program, f: Function) -> (changed: bool)
        ensures
            (final(data)@, changed) == all_simplified(old(data)@, f, usize::MAX as nat, false),
    {
        let mut changed = false;
        let mut rounds: usize = usize::MAX;
        while rounds > 0
            invariant
                all_simplified(old(data)@, f, usize::MAX as nat, false) == all_simplified(
                    data@,
                    f,
                    rounds as nat,
                    changed,
                ),
            decreases rounds,
        {
            let insts = data.placed_insts(f);
            let ghost start = data@;
            let mut any = false;
            let mut k: usize = 0;
            while k < insts.len() && !any
                invariant
                    k <= insts@.len(),
                    !any ==> data@ == start,
                    !any ==> one_simplified(start, f, insts@, 0) == one_simplified(start, f, insts@, k as int),
                    any ==> one_simplified(start, f, insts@, 0) == Some(data@),
                decreases insts@.len() - k, !any as int,
            {
                any = self.simplify_inst(data, f, insts[k]);
                k += 1;
            }
            if !any {
                return changed;
            }
            changed = true;
            rounds -= 1;
        }
        changed
    }

    /// Applies the first rule that fits instruction `inst` of function `f`.
    pub fn simplify_inst(&self, data: &mut Program, f: Function, inst: Inst) -> (r: bool)
        ensures
            match simplified(old(data)@, f, inst) {
                Some(q) => r && final(data)@ == q,
                None => !r && final(data)@ == old(data)@,
            },
    {
        match data.op(inst) {
            Op::Binary(op) => self.simplify_binary(data, f, inst, op),
            Op::Branch(t, e, _) => self.simplify_branch(data, inst, t, e),
            Op::Select => self.simplify_select(data, f, inst),
            _ => false,
        }
    }

    /// Simplifies the binary operation `inst`.
    pub fn simplify_binary(&self, data: &mut Program, f: Function, inst: Inst, op: BinaryOp) -> (r: bool)
        requires
            old(data)@.op(inst) == Op::Binary(op),
        ensures
            match binary_simplified(old(data)@, f, inst, op) {
                Some(q) => r && final(data)@ == q,
                None => !r && final(data)@ == old(data)@,
            },
    {
        let lhs = data.arg(inst, 0);
        let rhs = data.arg(inst, 1);
        if op.is_compare() && data.is_i32(lhs) && lhs == rhs {
            let value: i32 = match op {
                BinaryOp::Eq | BinaryOp::Ge | BinaryOp::Le => 1,
                _ => 0,
            };
            let replacement = data.integer(value);
            self.replace_value(data, f, inst, replacement);
            return true;
        }
        let (value, expected) = match self.boolean_comparison(data, inst) {
            Some(found) => found,
            None => {
                return false;
            },
        };
        let depth = data.num_insts();
        if !self.is_canonical_bool(data, value, depth) {
            return false;
        }
        if matches!(op, BinaryOp::NotEq) == (expected == 0) {
            self.replace_value(data, f, inst, value);
            return true;
        }
        match data.op(value) {
            Op::Binary(inner) => {
                let l = data.arg(value, 0);
                let r = data.arg(value, 1);
                if !inner.is_compare() || !data.is_i32(l) {
                    return false;
                }
                match inner.complement_integer_compare() {
                    Some(c) => {
                        let args = vec![l, r];
                        assert(args@ =~= seq![l, r]);
                        data.set_inst(inst, Op::Binary(c), args, Type::I32);
                        true
                    },
                    None => false,
                }
            },
            _ => false,
        }
    }

    /// Strips a zero test off the condition of branch `inst`, exchanging the arms for `== 0`.
    pub fn simplify_branch(&self, data: &mut Program, inst: Inst, t: BasicBlock, e: BasicBlock) -> (r: bool)
        ensures
            match branch_simplified(old(data)@, inst, t, e) {
                Some(q) => r && final(data)@ == q,
                None => !r && final(data)@ == old(data)@,
            },
    {
        let cond = data.arg(inst, 0);
        let (value, expected) = match self.zero_comparison(data, cond) {
            Some(found) => found,
            None => {
                return false;
            },
        };
        if !data.is_i32(value) {
            return false;
        }
        let t_args = data.t_args(inst);
        let f_args = data.f_args(inst);
        if expected {
            let n = f_args.len();
            data.set_inst(inst, Op::Branch(e, t, n), branch_args(value, &f_args, &t_args), Type::Unit);
        } else {
            let n = t_args.len();
            data.set_inst(inst, Op::Branch(t, e, n), branch_args(value, &t_args, &f_args), Type::Unit);
        }
        true
    }

    /// Simplifies the select `inst`.
    pub fn simplify_select(&self, data: &mut Program, f: Function, inst: Inst) -> (r: bool)
        requires
            old(data)@.op(inst) == Op::Select,
        ensures
            match select_simplified(old(data)@, f, inst) {
                Some(q) => r && final(data)@ == q,
                None => !r && final(data)@ == old(data)@,
            },
    {
        let cond = data.arg(inst, 0);
        let if_true = data.arg(inst, 1);
        let if_false = data.arg(inst, 2);
        if if_true == if_false {
            self.replace_value(data, f, inst, if_true);
            return true;
        }
        if if_true == cond && self.is_zero(data, if_false) {
            self.replace_value(data, f, inst, cond);
            return true;
        }
        if let Some((value, is_eq)) = self.zero_comparison(data, cond) {
            if data.is_i32(value) {
                if is_eq {
                    let ty = data.ty(if_false);
                    let args = vec![value, if_false, if_true];
                    assert(args@ =~= seq![value, if_false, if_true]);
                    data.set_inst(inst, Op::Select, args, ty);
                } else {
                    let ty = data.ty(if_true);
                    let args = vec![value, if_true, if_false];
                    assert(args@ =~= seq![value, if_true, if_false]);
                    data.set_inst(inst, Op::Select, args, ty);
                }
                return true;
            }
        }
        let depth = data.num_insts();
        if !data.is_i32(inst) || !self.is_canonical_bool(data, cond, depth) {
            return false;
        }
        if self.is_one(data, if_true) && self.is_zero(data, if_false) {
            self.replace_value(data, f, inst, cond);
            return true;
        }
        if self.is_zero(data, if_true) && self.is_one(data, if_false) {
            let zero = data.integer(0);
            let args = vec![cond, zero];
            assert(args@ =~= seq![cond, zero]);
            data.set_inst(inst, Op::Binary(BinaryOp::Eq), args, Type::I32);
            return true;
        }
        false
    }

    /// The value that `inst` compares with zero, and whether for equality.
    pub fn zero_comparison(&self, data: &Program, inst: Inst) -> (r: Option<(Inst, bool)>)
        ensures
            r == zero_test(data@, inst),
    {
        let is_eq = match data.op(inst) {
            Op::Binary(BinaryOp::Eq) => true,
            Op::Binary(BinaryOp::NotEq) => false,
            _ => {
                return None;
            },
        };
        let lhs = data.arg(inst, 0);
        let rhs = data.arg(inst, 1);
        if self.is_zero(data, lhs) {
            Some((rhs, is_eq))
        } else if self.is_zero(data, rhs) {
            Some((lhs, is_eq))
        } else {
            None
        }
    }

    /// The value that `inst` tests against zero or one, and that literal.
    pub fn boolean_comparison(&self, data: &Program, inst: Inst) -> (r: Option<(Inst, i32)>)
        ensures
            r == bit_test(data@, inst),
    {
        match data.op(inst) {
            Op::Binary(op) => {
                if !matches!(op, BinaryOp::Eq | BinaryOp::NotEq) {
                    return None;
                }
            },
            _ => {
                return None;
            },
        }
        let lhs = data.arg(inst, 0);
        let rhs = data.arg(inst, 1);
        if let Some(value) = self.integer_constant(data, lhs) {
            if value == 0 || value == 1 {
                return Some((rhs, value));
            }
        }
        if let Some(value) = self.integer_constant(data, rhs) {
            if value == 0 || value == 1 {
                return Some((lhs, value));
            }
        }
        None
    }

    /// Whether `value` is known to be zero or one, following selects at most `depth` deep.
    pub fn is_canonical_bool(&self, data: &Program, value: Inst, depth: usize) -> (r: bool)
        ensures
            r == canonical(data@, value, depth as nat),
        decreases depth,
    {
        if depth == 0 {
            return false;
        }
        match data.op(value) {
            Op::Integer(k) => k == 0 || k == 1,
            Op::Binary(op) => op.is_compare(),
            Op::Select => {
                let a = data.arg(value, 1);
                let b = data.arg(value, 2);
                self.is_canonical_bool(data, a, depth - 1) && self.is_canonical_bool(data, b, depth - 1)
            },
            _ => false,
        }
    }

    pub fn integer_constant(&self, data: &Program, inst: Inst) -> (r: Option<i32>)
        ensures
            r == literal(data@, inst),
    {
        match data.op(inst) {
            Op::Integer(v) => Some(v),
            _ => None,
        }
    }

    pub fn is_zero(&self, data: &Program, inst: Inst) -> (r: bool)
        ensures
            r == (literal(data@, inst) == Some(0i32)),
    {
        matches!(data.op(inst), Op::Integer(0))
    }

    pub fn is_one(&self, data: &Program, inst: Inst) -> (r: bool)
        ensures
            r == (literal(data@, inst) == Some(1i32)),
    {
        matches!(data.op(inst), Op::Integer(1))
    }

    /// Makes every use of `inst` a use of `replacement` and takes `inst` out of its block.
    pub fn replace_value(&self, data: &mut Program, f: Function, inst: Inst, replacement: Inst)
        ensures
            final(data)@ == value_replaced(old(data)@, f, inst, replacement),
    {
        data.replace_uses(inst, replacement);
        if let Some(bb) = data.parent_bb(f, inst) {
            data.remove_layout_inst(bb, inst);
        }
    }
}

/// The functions `layout[from..]` simplified in turn.
pub open spec fn functions_simplified(p: ProgramV, layout: Seq<Function>, from: int, changed: bool) -> (ProgramV, bool)
    decreases layout.len() - from,
{
    if from >= layout.len() {
        (p, changed)
    } else {
        let (q, here) = all_simplified(p, layout[from], usize::MAX as nat, false);
        functions_simplified(q, layout, from + 1, changed || here)
    }
}

/// Each binary operation and each select ranks above its operands: none depends on itself.
pub open spec fn ordered(p: ProgramV, rank: spec_fn(Inst) -> nat) -> bool {
    forall|i: Inst, k: int|
        (p.op(i) is Binary || p.op(i) is Select) && 0 <= k < p.args(i).len() ==> rank(#[trigger] p.args(i)[k]) < rank(i)
}

proof fn lemma_canonical(p: ProgramV, env: spec_fn(Inst) -> i32, v: Inst, depth: nat)
    requires
        well_typed(p),
        all_agree(p, env),
        canonical(p, v, depth),
    ensures
        env(v) == 0 || env(v) == 1,
        p.ty(v) is I32,
        v.0 < p.insts.len(),
    decreases depth,
{
    assert(agrees(p, env, v));
    assert(typed(p, v));
    if p.op(v) is Select {
        lemma_canonical(p, env, p.arg(v, 1), (depth - 1) as nat);
        lemma_canonical(p, env, p.arg(v, 2), (depth - 1) as nat);
    }
}

/// The values and the ranks of a program that another one keeps.
pub struct Kept {
    pub later: spec_fn(Inst) -> i32,
    pub rank: spec_fn(Inst) -> nat,
}

pub open spec fn keeps(p: ProgramV, env: spec_fn(Inst) -> i32, q: ProgramV, k: Kept) -> bool {
    kept(p, env, q, k.later) && ordered(q, k.rank)
}

proof fn lemma_value_replaced(
    p: ProgramV,
    env: spec_fn(Inst) -> i32,
    rank: spec_fn(Inst) -> nat,
    f: Function,
    i: Inst,
    v: Inst,
)
    requires
        well_typed(p),
        all_agree(p, env),
        ordered(p, rank),
        p.op(i) is Binary || p.op(i) is Select,
        env(i) == env(v),
        p.ty(i) == p.ty(v),
        v.0 < p.insts.len(),
        rank(v) < rank(i),
    ensures
        kept(p, env, value_replaced(p, f, i, v), env),
        ordered(value_replaced(p, f, i, v), rank),
{
    let q = p.replace_uses(i, v);
    lemma_replaced(p, env, i, v);
    assert(ordered(q, rank)) by {
        assert forall|j: Inst, k: int|
            (q.op(j) is Binary || q.op(j) is Select) && 0 <= k < q.args(j).len() implies rank(#[trigger] q.args(j)[k])
            < rank(j) by {
            lemma_replaced_args(p, i, v, j);
            assert(rank(p.args(j)[k]) < rank(j));
        }
    }
    if let Some(b) = q.parent_bb(f, i) {
        assert(!q.is_used(i)) by {
            if q.is_used(i) {
                let u = choose|u: int| 0 <= u < q.insts.len() && (#[trigger] q.insts[u]).args.contains(i);
                let k = q.insts[u].args.index_of(i);
                lemma_replaced_args(p, i, v, Inst(u as usize));
                assert(q.args(Inst(u as usize))[k] == i);
            }
        }
        let d = q.detach(b, i);
        assert(d.insts == q.insts) by {
            reveal(ProgramV::set_block_insts);
        }
        lemma_moved(q, d, env);
        lemma_kept_is_transitive(p, env, q, env, d, env);
        assert(!d.is_used(i)) by {
            if d.is_used(i) {
                let u = choose|u: int| 0 <= u < d.insts.len() && (#[trigger] d.insts[u]).args.contains(i);
                assert(q.insts[u].args.contains(i));
            }
        }
        assert(d.inst(i) == q.inst(i) && q.op(i) == p.op(i));
        lemma_emptied(d, env, i);
        let e = d.erase(i);
        lemma_kept_is_transitive(p, env, d, env, e, env);
        assert(ordered(e, rank)) by {
            reveal(ProgramV::set_inst);
            assert forall|j: Inst, k: int|
                (e.op(j) is Binary || e.op(j) is Select) && 0 <= k < e.args(j).len() implies rank(
                #[trigger] e.args(j)[k],
            ) < rank(j) by {
                assert(e.inst(j) == q.inst(j));
                assert(rank(q.args(j)[k]) < rank(j));
            }
        }
    }
}

/// One simplification leaves every value and everything that the program does as it was.
pub proof fn simplifying_keeps_values(
    p: ProgramV,
    env: spec_fn(Inst) -> i32,
    rank: spec_fn(Inst) -> nat,
    f: Function,
    i: Inst,
) -> (k: Kept)
    requires
        well_typed(p),
        all_agree(p, env),
        ordered(p, rank),
        simplified(p, f, i) is Some,
        (simplified(p, f, i)->0).insts.len() < usize::MAX,
    ensures
        keeps(p, env, simplified(p, f, i)->0, k),
{
    let same = Kept { later: env, rank };
    assert(typed(p, i));
    assert(agrees(p, env, i));
    match p.op(i) {
        Op::Binary(op) => lemma_binary(p, env, rank, f, i, op),
        Op::Branch(t, e, _) => {
            lemma_branch(p, env, rank, i, t, e);
            same
        },
        Op::Select => lemma_select(p, env, rank, f, i),
        _ => same,
    }
}

proof fn lemma_pushed_len(p: ProgramV, k: i32)
    ensures
        p.push_inst(Op::Integer(k), Seq::empty(), Type::I32, false).insts.len() == p.insts.len() + 1,
{
    reveal(ProgramV::push_inst);
}

proof fn lemma_replaced_len(p: ProgramV, f: Function, i: Inst, v: Inst)
    ensures
        value_replaced(p, f, i, v).insts.len() == p.insts.len(),
{
    reveal(ProgramV::replace_uses);
    reveal(ProgramV::set_block_insts);
    reveal(ProgramV::set_inst);
}

proof fn lemma_literal_ranked(p: ProgramV, env: spec_fn(Inst) -> i32, rank: spec_fn(Inst) -> nat, k: i32) -> (r: Kept)
    requires
        well_typed(p),
        all_agree(p, env),
        ordered(p, rank),
        p.insts.len() + 1 < usize::MAX,
    ensures
        keeps(p, env, p.push_inst(Op::Integer(k), Seq::empty(), Type::I32, false), r),
        (r.later)(p.next_inst()) == k,
        (r.rank)(p.next_inst()) == 0,
        forall|j: Inst| j != p.next_inst() ==> #[trigger] (r.rank)(j) == rank(j),
{
    let n = p.next_inst();
    let q = p.push_inst(Op::Integer(k), Seq::empty(), Type::I32, false);
    lemma_literal_added(p, env, k);
    let ranked = |j: Inst|
        if j == n {
            0nat
        } else {
            rank(j)
        };
    assert(ordered(q, ranked)) by {
        assert forall|j: Inst, m: int|
            (q.op(j) is Binary || q.op(j) is Select) && 0 <= m < q.args(j).len() implies ranked(#[trigger] q.args(j)[m])
            < ranked(j) by {
            assert(q.inst(j) == p.inst(j));
            assert(typed(p, j));
            assert(p.args(j)[m].0 < p.insts.len());
            assert(rank(p.args(j)[m]) < rank(j));
        }
    }
    Kept { later: with_value(env, n, k), rank: ranked }
}

proof fn lemma_remade_ordered(
    p: ProgramV,
    rank: spec_fn(Inst) -> nat,
    i: Inst,
    op: Op,
    args: Seq<Inst>,
    ty: Type,
)
    requires
        ordered(p, rank),
        forall|k: int| 0 <= k < args.len() ==> rank(#[trigger] args[k]) < rank(i),
    ensures
        ordered(p.set_inst(i, op, args, ty), rank),
{
    let q = p.set_inst(i, op, args, ty);
    reveal(ProgramV::set_inst);
    assert forall|j: Inst, k: int|
        (q.op(j) is Binary || q.op(j) is Select) && 0 <= k < q.args(j).len() implies rank(#[trigger] q.args(j)[k]) < rank(
        j,
    ) by {
        if j != i {
            assert(q.inst(j) == p.inst(j));
            assert(rank(p.args(j)[k]) < rank(j));
        } else if i.0 >= p.insts.len() {
            assert(q.inst(j) == p.inst(j));
        }
    }
}

proof fn lemma_binary(
    p: ProgramV,
    env: spec_fn(Inst) -> i32,
    rank: spec_fn(Inst) -> nat,
    f: Function,
    i: Inst,
    op: BinaryOp,
) -> (k: Kept)
    requires
        well_typed(p),
        all_agree(p, env),
        ordered(p, rank),
        p.op(i) == Op::Binary(op),
        binary_simplified(p, f, i, op) is Some,
        (binary_simplified(p, f, i, op)->0).insts.len() < usize::MAX,
    ensures
        keeps(p, env, binary_simplified(p, f, i, op)->0, k),
{
    let same = Kept { later: env, rank };
    assert(typed(p, i));
    assert(agrees(p, env, i));
    let a = p.arg(i, 0);
    let b = p.arg(i, 1);
    if op.compares() && p.ty(a) is I32 && a == b {
        let v = truth(op is Eq || op is Ge || op is Le);
        let q = p.push_inst(Op::Integer(v), Seq::empty(), Type::I32, false);
        let n = p.next_inst();
        lemma_operands(p, rank, i);
        lemma_pushed_len(p, v);
        lemma_replaced_len(q, f, i, n);
        lemma_literal_added(p, env, v);
        let r = lemma_literal_ranked(p, env, rank, v);
        assert(q.inst(i) == p.inst(i));
        assert((r.later)(i) == env(i));
        assert(agrees(q, r.later, n));
        lemma_value_replaced(q, r.later, r.rank, f, i, n);
        lemma_kept_is_transitive(p, env, q, r.later, value_replaced(q, f, i, n), r.later);
        r
    } else {
        let (v, k) = bit_test(p, i)->0;
        lemma_canonical(p, env, v, p.insts.len());
        assert(agrees(p, env, a));
        assert(agrees(p, env, b));
        assert(typed(p, a));
        assert(typed(p, b));
        lemma_operands(p, rank, i);
        if (op is NotEq) == (k == 0) {
            lemma_value_replaced(p, env, rank, f, i, v);
        } else {
            let inner = p.op(v)->Binary_0;
            let args = seq![p.arg(v, 0), p.arg(v, 1)];
            let made = Op::Binary(inner.complement()->0);
            let q = p.set_inst(i, made, args, Type::I32);
            assert(agrees(p, env, v));
            assert(typed(p, v));
            lemma_operands(p, rank, v);
            complement_negates(inner, env(p.arg(v, 0)), env(p.arg(v, 1)));
            assert(q.inst(i).op == made && q.inst(i).args == args && q.inst(i).ty == Type::I32 && q.insts.len()
                == p.insts.len()) by {
                reveal(ProgramV::set_inst);
            }
            assert(q.arg(i, 0) == args[0] && q.arg(i, 1) == args[1]);
            assert(q.ty(q.arg(i, 0)) is I32) by {
                reveal(ProgramV::set_inst);
            }
            lemma_remade(p, env, i, made, args, Type::I32);
            lemma_remade_ordered(p, rank, i, made, args, Type::I32);
        }
        same
    }
}

/// The operands of a binary operation exist and rank below it.
proof fn lemma_operands(p: ProgramV, rank: spec_fn(Inst) -> nat, i: Inst)
    requires
        well_typed(p),
        ordered(p, rank),
        p.op(i) is Binary || p.op(i) is Select,
    ensures
        p.arg(i, 0).0 < p.insts.len(),
        p.arg(i, 1).0 < p.insts.len(),
        rank(p.arg(i, 0)) < rank(i),
        rank(p.arg(i, 1)) < rank(i),
        p.op(i) is Select ==> p.arg(i, 2).0 < p.insts.len() && rank(p.arg(i, 2)) < rank(i),
{
    assert(typed(p, i));
    assert(p.args(i)[0] == p.arg(i, 0));
    assert(p.args(i)[1] == p.arg(i, 1));
    if p.op(i) is Select {
        assert(p.args(i)[2] == p.arg(i, 2));
    }
}

/// A test against zero tells whether the tested value is zero.
proof fn lemma_zero_test(p: ProgramV, env: spec_fn(Inst) -> i32, rank: spec_fn(Inst) -> nat, c: Inst)
    requires
        well_typed(p),
        all_agree(p, env),
        ordered(p, rank),
        zero_test(p, c) is Some,
        p.ty((zero_test(p, c)->0).0) is I32,
    ensures
        ({
            let (v, is_eq) = zero_test(p, c)->0;
            &&& (env(c) != 0) == ((env(v) == 0) == is_eq)
            &&& v.0 < p.insts.len()
            &&& rank(v) < rank(c)
        }),
{
    lemma_operands(p, rank, c);
    assert(agrees(p, env, c));
    assert(agrees(p, env, p.arg(c, 0)));
    assert(agrees(p, env, p.arg(c, 1)));
    assert(typed(p, p.arg(c, 0)));
}

proof fn lemma_branch(
    p: ProgramV,
    env: spec_fn(Inst) -> i32,
    rank: spec_fn(Inst) -> nat,
    i: Inst,
    t: BasicBlock,
    e: BasicBlock,
)
    requires
        well_typed(p),
        all_agree(p, env),
        ordered(p, rank),
        p.op(i) is Branch,
        p.op(i)->Branch_0 == t,
        p.op(i)->Branch_1 == e,
        branch_simplified(p, i, t, e) is Some,
    ensures
        kept(p, env, branch_simplified(p, i, t, e)->0, env),
        ordered(branch_simplified(p, i, t, e)->0, rank),
{
    assert(typed(p, i));
    let c = p.arg(i, 0);
    let (v, is_eq) = zero_test(p, c)->0;
    lemma_zero_test(p, env, rank, c);
    let n = p.op(i)->Branch_2;
    let ta = p.t_args(i);
    let fa = p.f_args(i);
    let (op, args) = if is_eq {
        (Op::Branch(e, t, fa.len() as usize), seq![v] + fa + ta)
    } else {
        (Op::Branch(t, e, ta.len() as usize), seq![v] + ta + fa)
    };
    let q = p.set_inst(i, op, args, Type::Unit);
    assert(q.inst(i).op == op && q.inst(i).args == args && q.inst(i).ty == Type::Unit && q.insts.len() == p.insts.len())
        by {
        reveal(ProgramV::set_inst);
    }
    assert forall|k: int| 0 <= k < args.len() implies (#[trigger] args[k]).0 < p.insts.len() by {
        if k > 0 {
            let m = if is_eq {
                if k - 1 < fa.len() {
                    n + k
                } else {
                    k - fa.len()
                }
            } else {
                k
            };
            assert(args[k] == p.args(i)[m]);
        }
    }
    if is_eq {
        assert(q.t_args(i) =~= fa);
        assert(q.f_args(i) =~= ta);
    } else {
        assert(q.t_args(i) =~= ta);
        assert(q.f_args(i) =~= fa);
    }
    assert(q.arg(i, 0) == v);
    lemma_remade(p, env, i, op, args, Type::Unit);
    assert forall|j: Inst, k: int|
        (q.op(j) is Binary || q.op(j) is Select) && 0 <= k < q.args(j).len() implies rank(#[trigger] q.args(j)[k]) < rank(
        j,
    ) by {
        assert(j != i);
        assert(q.inst(j) == p.inst(j)) by {
            reveal(ProgramV::set_inst);
        }
        assert(rank(p.args(j)[k]) < rank(j));
    }
}

proof fn lemma_select(p: ProgramV, env: spec_fn(Inst) -> i32, rank: spec_fn(Inst) -> nat, f: Function, i: Inst) -> (k: Kept)
    requires
        well_typed(p),
        all_agree(p, env),
        ordered(p, rank),
        p.op(i) is Select,
        select_simplified(p, f, i) is Some,
        (select_simplified(p, f, i)->0).insts.len() < usize::MAX,
    ensures
        keeps(p, env, select_simplified(p, f, i)->0, k),
{
    let same = Kept { later: env, rank };
    let c = p.arg(i, 0);
    let a = p.arg(i, 1);
    let b = p.arg(i, 2);
    let test = zero_test(p, c);
    lemma_operands(p, rank, i);
    assert(typed(p, i));
    assert(agrees(p, env, i));
    assert(agrees(p, env, a));
    assert(agrees(p, env, b));
    if a == b {
        lemma_value_replaced(p, env, rank, f, i, a);
        same
    } else if a == c && literal(p, b) == Some(0i32) {
        lemma_value_replaced(p, env, rank, f, i, c);
        same
    } else if test is Some && p.ty((test->0).0) is I32 {
        let v = (test->0).0;
        lemma_zero_test(p, env, rank, c);
        let args = if (test->0).1 {
            seq![v, b, a]
        } else {
            seq![v, a, b]
        };
        let q = p.set_inst(i, Op::Select, args, p.ty(i));
        assert(q.inst(i).op == Op::Select && q.inst(i).args == args && q.inst(i).ty == p.ty(i) && q.insts.len()
            == p.insts.len() && q.ty(a) == p.ty(a) && q.ty(b) == p.ty(b)) by {
            reveal(ProgramV::set_inst);
        }
        assert(q.arg(i, 0) == v && q.arg(i, 1) == args[1] && q.arg(i, 2) == args[2]);
        lemma_remade(p, env, i, Op::Select, args, p.ty(i));
        lemma_remade_ordered(p, rank, i, Op::Select, args, p.ty(i));
        same
    } else {
        lemma_canonical(p, env, c, p.insts.len());
        if literal(p, a) == Some(1i32) && literal(p, b) == Some(0i32) {
            lemma_value_replaced(p, env, rank, f, i, c);
            same
        } else {
            let n = p.next_inst();
            let q = p.push_inst(Op::Integer(0), Seq::empty(), Type::I32, false);
            let args = seq![c, n];
            let op = Op::Binary(BinaryOp::Eq);
            let r = q.set_inst(i, op, args, Type::I32);
            lemma_pushed_len(p, 0);
            assert(r.insts.len() == q.insts.len()) by {
                reveal(ProgramV::set_inst);
            }
            lemma_literal_added(p, env, 0);
            let k = lemma_literal_ranked(p, env, rank, 0);
            assert(q.inst(i) == p.inst(i));
            assert(q.inst(c) == p.inst(c));
            assert((k.later)(i) == env(i) && (k.later)(c) == env(c));
            assert(r.inst(i).op == op && r.inst(i).args == args && r.inst(i).ty == Type::I32 && r.ty(c) == q.ty(c)) by {
                reveal(ProgramV::set_inst);
            }
            assert(r.arg(i, 0) == c && r.arg(i, 1) == n);
            lemma_remade(q, k.later, i, op, args, Type::I32);
            lemma_remade_ordered(q, k.rank, i, op, args, Type::I32);
            lemma_kept_is_transitive(p, env, q, k.later, r, k.later);
            k
        }
    }
}

proof fn lemma_grows(p: ProgramV, f: Function, i: Inst)
    requires
        simplified(p, f, i) is Some,
    ensures
        (simplified(p, f, i)->0).insts.len() >= p.insts.len(),
{
    reveal(ProgramV::push_inst);
    reveal(ProgramV::replace_uses);
    reveal(ProgramV::set_block_insts);
    reveal(ProgramV::set_inst);
}

proof fn lemma_one(p: ProgramV, env: spec_fn(Inst) -> i32, rank: spec_fn(Inst) -> nat, f: Function, insts: Seq<Inst>, from: int) -> (k:
    Kept)
    requires
        0 <= from,
        well_typed(p),
        all_agree(p, env),
        ordered(p, rank),
        one_simplified(p, f, insts, from) is Some,
        (one_simplified(p, f, insts, from)->0).insts.len() < usize::MAX,
    ensures
        keeps(p, env, one_simplified(p, f, insts, from)->0, k),
    decreases insts.len() - from,
{
    match simplified(p, f, insts[from]) {
        Some(_) => simplifying_keeps_values(p, env, rank, f, insts[from]),
        None => lemma_one(p, env, rank, f, insts, from + 1),
    }
}

proof fn lemma_one_grows(p: ProgramV, f: Function, insts: Seq<Inst>, from: int)
    requires
        one_simplified(p, f, insts, from) is Some,
    ensures
        (one_simplified(p, f, insts, from)->0).insts.len() >= p.insts.len(),
    decreases insts.len() - from,
{
    match simplified(p, f, insts[from]) {
        Some(_) => lemma_grows(p, f, insts[from]),
        None => lemma_one_grows(p, f, insts, from + 1),
    }
}

proof fn lemma_rounds_grow(p: ProgramV, f: Function, rounds: nat, changed: bool)
    ensures
        all_simplified(p, f, rounds, changed).0.insts.len() >= p.insts.len(),
    decreases rounds,
{
    if rounds > 0 {
        if let Some(q) = one_simplified(p, f, p.placed(f), 0) {
            lemma_one_grows(p, f, p.placed(f), 0);
            lemma_rounds_grow(q, f, (rounds - 1) as nat, true);
        }
    }
}

proof fn lemma_rounds(
    p: ProgramV,
    env: spec_fn(Inst) -> i32,
    rank: spec_fn(Inst) -> nat,
    f: Function,
    rounds: nat,
    changed: bool,
) -> (k: Kept)
    requires
        well_typed(p),
        all_agree(p, env),
        ordered(p, rank),
        all_simplified(p, f, rounds, changed).0.insts.len() < usize::MAX,
    ensures
        keeps(p, env, all_simplified(p, f, rounds, changed).0, k),
    decreases rounds,
{
    lemma_kept_is_reflexive(p, env);
    if rounds == 0 {
        Kept { later: env, rank }
    } else {
        match one_simplified(p, f, p.placed(f), 0) {
            None => Kept { later: env, rank },
            Some(q) => {
                lemma_rounds_grow(q, f, (rounds - 1) as nat, true);
                let a = lemma_one(p, env, rank, f, p.placed(f), 0);
                let b = lemma_rounds(q, a.later, a.rank, f, (rounds - 1) as nat, true);
                lemma_kept_is_transitive(
                    p,
                    env,
                    q,
                    a.later,
                    all_simplified(q, f, (rounds - 1) as nat, true).0,
                    b.later,
                );
                b
            },
        }
    }
}

proof fn lemma_functions_grow(p: ProgramV, layout: Seq<Function>, from: int, changed: bool)
    ensures
        functions_simplified(p, layout, from, changed).0.insts.len() >= p.insts.len(),
    decreases layout.len() - from,
{
    if from < layout.len() {
        let (q, here) = all_simplified(p, layout[from], usize::MAX as nat, false);
        lemma_rounds_grow(p, layout[from], usize::MAX as nat, false);
        lemma_functions_grow(q, layout, from + 1, changed || here);
    }
}

/// The pass leaves every value and everything that a program does as it was: whatever values satisfy
/// what the program computed, they satisfy what it computes afterwards, and every instruction that acts
/// on them does the same.
pub proof fn simplification_keeps_values(
    p: ProgramV,
    env: spec_fn(Inst) -> i32,
    rank: spec_fn(Inst) -> nat,
    layout: Seq<Function>,
    from: int,
    changed: bool,
) -> (k: Kept)
    requires
        well_typed(p),
        all_agree(p, env),
        ordered(p, rank),
        0 <= from,
        functions_simplified(p, layout, from, changed).0.insts.len() < usize::MAX,
    ensures
        keeps(p, env, functions_simplified(p, layout, from, changed).0, k),
    decreases layout.len() - from,
{
    if from >= layout.len() {
        lemma_kept_is_reflexive(p, env);
        Kept { later: env, rank }
    } else {
        let (q, here) = all_simplified(p, layout[from], usize::MAX as nat, false);
        lemma_functions_grow(q, layout, from + 1, changed || here);
        let a = lemma_rounds(p, env, rank, layout[from], usize::MAX as nat, false);
        let b = simplification_keeps_values(q, a.later, a.rank, layout, from + 1, changed || here);
        lemma_kept_is_transitive(
            p,
            env,
            q,
            a.later,
            functions_simplified(q, layout, from + 1, changed || here).0,
            b.later,
        );
        b
    }
}

} // verus!
