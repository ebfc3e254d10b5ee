//! Value numbers: values with the same number compute the same thing.

use rustc_hash::FxHashMap;
use vstd::prelude::*;

use crate::ir::{BinaryOp, Inst, Op, ProgramV, Type};
use crate::program::Program;
use crate::table::{fx_empty, fx_get, fx_insert};

verus! {

/// What a value computes, in terms of the numbers of its operands; `own` is set for a value that is
/// only ever equal to itself.
#[verifier::ext_equal]
pub struct KeyV {
    pub op: Op,
    pub ty: Type,
    pub from: Type,
    pub args: Seq<usize>,
    pub own: Option<Inst>,
}

pub struct Key {
    pub op: Op,
    pub ty: Type,
    pub from: Type,
    pub args: Vec<usize>,
    pub own: Option<Inst>,
}

impl View for Key {
    type V = KeyV;

    open spec fn view(&self) -> KeyV {
        KeyV { op: self.op, ty: self.ty, from: self.from, args: self.args@, own: self.own }
    }
}

impl Key {
    /// Whether two keys are the same.
    pub fn same(&self, other: &Key) -> (r: bool)
        ensures
            r == (self@ == other@),
    {
        let own = match (self.own, other.own) {
            (Some(a), Some(b)) => a == b,
            (None, None) => true,
            _ => false,
        };
        if !own || self.op != other.op || !self.ty.same(&other.ty) || !self.from.same(&other.from) {
            return false;
        }
        if self.args.len() != other.args.len() {
            assert(self@.args.len() != other@.args.len());
            return false;
        }
        let mut k: usize = 0;
        while k < self.args.len()
            invariant
                k <= self.args@.len(),
                self.args@.len() == other.args@.len(),
                forall|j: int| 0 <= j < k ==> self.args@[j] == other.args@[j],
            decreases self.args@.len() - k,
        {
            if self.args[k] != other.args[k] {
                assert(self@.args[k as int] != other@.args[k as int]);
                return false;
            }
            k += 1;
        }
        assert(self@.args =~= other@.args);
        true
    }
}

/// The numbers given so far: by value, and what each number stands for.
#[verifier::ext_equal]
pub struct NumbersV {
    pub by_inst: Map<usize, usize>,
    pub keys: Seq<KeyV>,
}

/// Which values have a number by what they compute: `strict` admits only literals and the `i32`
/// operations that are defined everywhere.
pub struct ScopeV {
    pub strict: bool,
}

pub struct Scope {
    pub strict: bool,
}

impl View for Scope {
    type V = ScopeV;

    open spec fn view(&self) -> ScopeV {
        ScopeV { strict: self.strict }
    }
}

/// The `i32` operations that give a value for all operands and mean the same everywhere.
pub open spec fn is_safe_op(op: BinaryOp) -> bool {
    matches!(
        op,
        BinaryOp::Add | BinaryOp::Sub | BinaryOp::Mul | BinaryOp::And | BinaryOp::Or | BinaryOp::Xor | BinaryOp::Eq
            | BinaryOp::NotEq | BinaryOp::Gt | BinaryOp::Lt | BinaryOp::Ge | BinaryOp::Le
    )
}

pub fn safe_op(op: BinaryOp) -> (r: bool)
    ensures
        r == is_safe_op(op),
{
    matches!(
        op,
        BinaryOp::Add | BinaryOp::Sub | BinaryOp::Mul | BinaryOp::And | BinaryOp::Or | BinaryOp::Xor | BinaryOp::Eq
            | BinaryOp::NotEq | BinaryOp::Gt | BinaryOp::Lt | BinaryOp::Ge | BinaryOp::Le
    )
}

/// Value `i` is numbered by what it computes.
pub open spec fn expressible(p: ProgramV, s: ScopeV, i: Inst) -> bool {
    match p.op(i) {
        Op::Integer(_) => true,
        Op::Float(_) => !s.strict,
        Op::Binary(op) => p.args(i).len() == 2 && (!s.strict || (is_safe_op(op) && p.ty(p.arg(i, 0)) is I32 && p.ty(
            p.arg(i, 1),
        ) is I32)),
        Op::Cast => !s.strict,
        Op::Select => !s.strict,
        Op::GetElemPtr => !s.strict,
        _ => false,
    }
}

/// An operation on numbers with its operands in one order: exchanged where the first is larger and
/// the operation has a mirror image. Floating-point arithmetic has none.
pub open spec fn ordered(op: BinaryOp, from: Type, lhs: usize, rhs: usize) -> (BinaryOp, usize, usize) {
    if lhs <= rhs {
        (op, lhs, rhs)
    } else if op.commutes() && from is I32 {
        (op, rhs, lhs)
    } else {
        match op.mirrored() {
            Some(m) => (m, rhs, lhs),
            None => (op, lhs, rhs),
        }
    }
}

/// The key of a binary operation.
pub open spec fn binary_key(op: BinaryOp, ty: Type, from: Type, lhs: usize, rhs: usize) -> KeyV {
    let (o, a, b) = ordered(op, from, lhs, rhs);
    KeyV { op: Op::Binary(o), ty, from, args: seq![a, b], own: None }
}

/// The key of a value that is only equal to itself.
pub open spec fn own_key(ty: Type, i: Inst) -> KeyV {
    KeyV { op: Op::Removed, ty, from: Type::Unit, args: Seq::empty(), own: Some(i) }
}

/// The key of value `i`, whose operands have numbers `nums`.
pub open spec fn key_of(p: ProgramV, i: Inst, nums: Seq<usize>) -> KeyV {
    match p.op(i) {
        Op::Binary(op) => if nums.len() == 2 {
            binary_key(op, p.ty(i), p.ty(p.arg(i, 0)), nums[0], nums[1])
        } else {
            own_key(p.ty(i), i)
        },
        Op::Cast => KeyV { op: Op::Cast, ty: p.ty(i), from: p.ty(p.arg(i, 0)), args: nums, own: None },
        Op::GetElemPtr => KeyV { op: Op::GetElemPtr, ty: p.ty(i), from: p.ty(p.arg(i, 0)), args: nums, own: None },
        _ => KeyV { op: p.op(i), ty: p.ty(i), from: Type::Unit, args: nums, own: None },
    }
}

/// The first number from `from` on that stands for `key`; the number of keys where none does.
pub open spec fn number_of_key(keys: Seq<KeyV>, key: KeyV, from: int) -> int
    decreases keys.len() - from,
{
    if from >= keys.len() {
        keys.len() as int
    } else if keys[from] == key {
        from
    } else {
        number_of_key(keys, key, from + 1)
    }
}

/// Value `i` numbered by its key.
pub open spec fn interned(t: NumbersV, i: Inst, key: KeyV) -> (NumbersV, usize) {
    let n = number_of_key(t.keys, key, 0);
    (
        NumbersV {
            by_inst: t.by_inst.insert(i.0, n as usize),
            keys: if n < t.keys.len() {
                t.keys
            } else {
                t.keys.push(key)
            },
        },
        n as usize,
    )
}

/// Value `i` numbered, looking at operands to depth `fuel`.
pub open spec fn numbered(p: ProgramV, s: ScopeV, t: NumbersV, i: Inst, fuel: nat) -> (NumbersV, usize)
    decreases fuel, 0int, 0int,
{
    if t.by_inst.contains_key(i.0) {
        (t, t.by_inst[i.0])
    } else if fuel == 0 || !expressible(p, s, i) {
        interned(t, i, own_key(p.ty(i), i))
    } else {
        let (next, nums) = all_numbered(p, s, t, p.args(i), 0, Seq::empty(), (fuel - 1) as nat);
        interned(next, i, key_of(p, i, nums))
    }
}

/// The values `args[from..]` numbered, their numbers behind `nums`.
pub open spec fn all_numbered(
    p: ProgramV,
    s: ScopeV,
    t: NumbersV,
    args: Seq<Inst>,
    from: int,
    nums: Seq<usize>,
    fuel: nat,
) -> (NumbersV, Seq<usize>)
    decreases fuel, 1int, args.len() - from,
{
    if from >= args.len() {
        (t, nums)
    } else {
        let (next, n) = numbered(p, s, t, args[from], fuel);
        all_numbered(p, s, next, args, from + 1, nums.push(n), fuel)
    }
}

/// The number that stands for `key`, which belongs to no value.
pub open spec fn listed(t: NumbersV, key: KeyV) -> (NumbersV, usize) {
    let n = number_of_key(t.keys, key, 0);
    (
        NumbersV {
            by_inst: t.by_inst,
            keys: if n < t.keys.len() {
                t.keys
            } else {
                t.keys.push(key)
            },
        },
        n as usize,
    )
}

/// The number that stands for what call `i` calls and with which arguments. It is not the number of `i`:
/// what the call gives depends on memory too.
pub open spec fn call_numbered(p: ProgramV, s: ScopeV, t: NumbersV, i: Inst, fuel: nat) -> (NumbersV, usize) {
    let (next, nums) = all_numbered(p, s, t, p.args(i), 0, Seq::empty(), fuel);
    listed(next, key_of(p, i, nums))
}

pub struct Numbers {
    by_inst: FxHashMap<usize, usize>,
    keys: Vec<Key>,
}

impl View for Numbers {
    type V = NumbersV;

    closed spec fn view(&self) -> NumbersV {
        NumbersV { by_inst: self.by_inst@, keys: Seq::new(self.keys@.len(), |k: int| self.keys@[k]@) }
    }
}

/// Whether `i` is numbered by what it computes.
pub fn is_expressible(p: &Program, s: &Scope, i: Inst) -> (r: bool)
    ensures
        r == expressible(p@, s@, i),
{
    match p.op(i) {
        Op::Integer(_) => true,
        Op::Float(_) => !s.strict,
        Op::Binary(op) => p.num_args(i) == 2 && (!s.strict || (safe_op(op) && p.is_i32(p.arg(i, 0)) && p.is_i32(
            p.arg(i, 1),
        ))),
        Op::Cast => !s.strict,
        Op::Select => !s.strict,
        Op::GetElemPtr => !s.strict,
        _ => false,
    }
}

/// The key of a binary operation on numbers.
pub fn make_binary_key(op: BinaryOp, ty: Type, from: Type, lhs: usize, rhs: usize) -> (r: Key)
    ensures
        r@ == binary_key(op, ty, from, lhs, rhs),
{
    let (o, a, b) = if lhs <= rhs {
        (op, lhs, rhs)
    } else if op.is_commutative() && from.is_i32() {
        (op, rhs, lhs)
    } else {
        match op.swap_compare_args() {
            Some(m) => (m, rhs, lhs),
            None => (op, lhs, rhs),
        }
    };
    let args = vec![a, b];
    assert(args@ =~= seq![a, b]);
    Key { op: Op::Binary(o), ty, from, args, own: None }
}

fn make_own_key(ty: Type, i: Inst) -> (r: Key)
    ensures
        r@ == own_key(ty, i),
{
    let r = Key { op: Op::Removed, ty, from: Type::Unit, args: Vec::new(), own: Some(i) };
    assert(r@ =~= own_key(ty, i));
    r
}

fn make_key(p: &Program, i: Inst, nums: Vec<usize>) -> (r: Key)
    ensures
        r@ == key_of(p@, i, nums@),
{
    match p.op(i) {
        Op::Binary(op) => if nums.len() == 2 {
            make_binary_key(op, p.ty(i), p.ty(p.arg(i, 0)), nums[0], nums[1])
        } else {
            make_own_key(p.ty(i), i)
        },
        Op::Cast => Key { op: Op::Cast, ty: p.ty(i), from: p.ty(p.arg(i, 0)), args: nums, own: None },
        Op::GetElemPtr => Key { op: Op::GetElemPtr, ty: p.ty(i), from: p.ty(p.arg(i, 0)), args: nums, own: None },
        op => Key { op, ty: p.ty(i), from: Type::Unit, args: nums, own: None },
    }
}

impl Numbers {
    pub fn new() -> (r: Numbers)
        ensures
            r@ == (NumbersV { by_inst: Map::empty(), keys: Seq::empty() }),
    {
        let r = Numbers { by_inst: fx_empty(), keys: Vec::new() };
        assert(r@.keys =~= Seq::empty());
        r
    }

    /// The number of `i`, where it has one.
    pub fn get(&self, i: Inst) -> (r: Option<usize>)
        ensures
            r == (if self@.by_inst.contains_key(i.0) {
                Some(self@.by_inst[i.0])
            } else {
                None
            }),
    {
        fx_get(&self.by_inst, i.0)
    }

    fn intern(&mut self, i: Inst, key: Key) -> (n: usize)
        ensures
            (final(self)@, n) == interned(old(self)@, i, key@),
    {
        let mut n: usize = 0;
        while n < self.keys.len() && !self.keys[n].same(&key)
            invariant
                n <= self.keys@.len(),
                self@ == old(self)@,
                self@.keys.len() == self.keys@.len(),
                number_of_key(self@.keys, key@, 0) == number_of_key(self@.keys, key@, n as int),
            decreases self.keys@.len() - n,
        {
            assert(self@.keys[n as int] == self.keys@[n as int]@);
            n += 1;
        }
        fx_insert(&mut self.by_inst, i.0, n);
        if n == self.keys.len() {
            let ghost before = self@.keys;
            self.keys.push(key);
            assert(self@.keys =~= before.push(key@));
        } else {
            assert(self@.keys[n as int] == self.keys@[n as int]@);
            assert(self@.keys =~= old(self)@.keys);
        }
        n
    }

    fn list(&mut self, key: Key) -> (n: usize)
        ensures
            (final(self)@, n) == listed(old(self)@, key@),
    {
        let mut n: usize = 0;
        while n < self.keys.len() && !self.keys[n].same(&key)
            invariant
                n <= self.keys@.len(),
                self@ == old(self)@,
                self@.keys.len() == self.keys@.len(),
                number_of_key(self@.keys, key@, 0) == number_of_key(self@.keys, key@, n as int),
            decreases self.keys@.len() - n,
        {
            assert(self@.keys[n as int] == self.keys@[n as int]@);
            n += 1;
        }
        if n == self.keys.len() {
            let ghost before = self@.keys;
            self.keys.push(key);
            assert(self@.keys =~= before.push(key@));
        } else {
            assert(self@.keys[n as int] == self.keys@[n as int]@);
        }
        n
    }

    /// The number that stands for what call `i` calls and with which arguments.
    pub fn number_call(&mut self, p: &Program, s: &Scope, i: Inst, fuel: usize) -> (n: usize)
        ensures
            (final(self)@, n) == call_numbered(p@, s@, old(self)@, i, fuel as nat),
    {
        let args = p.args(i);
        let nums = self.number_all(p, s, &args, fuel);
        self.list(make_key(p, i, nums))
    }

    /// The number of `i`.
    pub fn number(&mut self, p: &Program, s: &Scope, i: Inst, fuel: usize) -> (n: usize)
        ensures
            (final(self)@, n) == numbered(p@, s@, old(self)@, i, fuel as nat),
        decreases fuel, 0int, 0int,
    {
        match fx_get(&self.by_inst, i.0) {
            Some(n) => n,
            None => {
                if fuel == 0 || !is_expressible(p, s, i) {
                    self.intern(i, make_own_key(p.ty(i), i))
                } else {
                    let args = p.args(i);
                    let nums = self.number_all(p, s, &args, fuel - 1);
                    self.intern(i, make_key(p, i, nums))
                }
            },
        }
    }

    /// The numbers of `args`.
    pub fn number_all(&mut self, p: &Program, s: &Scope, args: &Vec<Inst>, fuel: usize) -> (nums: Vec<usize>)
        ensures
            (final(self)@, nums@) == all_numbered(p@, s@, old(self)@, args@, 0, Seq::empty(), fuel as nat),
        decreases fuel, 1int, args@.len(),
    {
        let mut nums: Vec<usize> = Vec::new();
        assert(nums@ =~= Seq::empty());
        let mut k: usize = 0;
        while k < args.len()
            invariant
                k <= args@.len(),
                all_numbered(p@, s@, old(self)@, args@, 0, Seq::empty(), fuel as nat) == all_numbered(
                    p@,
                    s@,
                    self@,
                    args@,
                    k as int,
                    nums@,
                    fuel as nat,
                ),
            decreases args@.len() - k,
        {
            let n: usize = self.number(p, s, args[k], fuel);
            nums.push(n);
            k += 1;
        }
        nums
    }
}

/// What operations mean: a value for an operation, its type, the type of its first operand, and the
/// values of its operands.
pub type Meaning = spec_fn(Op, Type, Type, Seq<int>) -> int;

/// Values `env` are what the instructions of `p` compute.
pub open spec fn computes(p: ProgramV, s: ScopeV, m: Meaning, env: spec_fn(Inst) -> int) -> bool {
    forall|i: Inst| #[trigger]
        expressible(p, s, i) ==> env(i) == (match p.op(i) {
            Op::Binary(op) => m(p.op(i), p.ty(i), p.ty(p.arg(i, 0)), p.args(i).map_values(env)),
            Op::Cast => m(p.op(i), p.ty(i), p.ty(p.arg(i, 0)), p.args(i).map_values(env)),
            Op::GetElemPtr => m(p.op(i), p.ty(i), p.ty(p.arg(i, 0)), p.args(i).map_values(env)),
            _ => m(p.op(i), p.ty(i), Type::Unit, p.args(i).map_values(env)),
        })
}

/// What a binary operation means.
pub open spec fn binary_meaning(m: Meaning, op: BinaryOp, ty: Type, from: Type, x: int, y: int) -> int {
    m(Op::Binary(op), ty, from, seq![x, y])
}

/// Exchanging the operands of an operation that commutes, or of a comparison turned round, does not
/// change its meaning.
pub open spec fn symmetric(m: Meaning) -> bool {
    forall|op: BinaryOp, ty: Type, from: Type, x: int, y: int|
        (op.commutes() && from is I32 ==> #[trigger] binary_meaning(m, op, ty, from, x, y) == binary_meaning(
            m,
            op,
            ty,
            from,
            y,
            x,
        )) && (op.mirrored() is Some ==> binary_meaning(m, op, ty, from, x, y) == binary_meaning(
            m,
            op.mirrored()->0,
            ty,
            from,
            y,
            x,
        ))
}

/// The value that a key stands for, numbers standing for `vals`.
pub open spec fn key_value(m: Meaning, env: spec_fn(Inst) -> int, vals: Seq<int>, k: KeyV) -> int {
    match k.own {
        Some(i) => env(i),
        None => m(k.op, k.ty, k.from, Seq::new(k.args.len(), |j: int| vals[k.args[j] as int])),
    }
}

/// The operands of a key are numbered below `n`.
pub open spec fn below(k: KeyV, n: int) -> bool {
    forall|j: int| 0 <= j < k.args.len() ==> (#[trigger] k.args[j]) < n
}

/// Numbers stand for `vals`, and every numbered value has the value that its number stands for.
pub open spec fn fits(m: Meaning, env: spec_fn(Inst) -> int, t: NumbersV, vals: Seq<int>) -> bool {
    &&& vals.len() == t.keys.len()
    &&& t.keys.len() <= usize::MAX
    &&& forall|n: int|
        0 <= n < t.keys.len() ==> below(#[trigger] t.keys[n], n) && vals[n] == key_value(m, env, vals, t.keys[n])
    &&& forall|i: usize| #[trigger]
        t.by_inst.contains_key(i) ==> t.by_inst[i] < t.keys.len() && env(Inst(i)) == vals[t.by_inst[i] as int]
}

pub(crate) proof fn lemma_number_of_key(keys: Seq<KeyV>, key: KeyV, from: int)
    requires
        0 <= from <= keys.len(),
    ensures
        ({
            let n = number_of_key(keys, key, from);
            from <= n <= keys.len() && (n < keys.len() ==> keys[n] == key)
        }),
    decreases keys.len() - from,
{
    if from < keys.len() && keys[from] != key {
        lemma_number_of_key(keys, key, from + 1);
    }
}

proof fn lemma_key_value_extends(m: Meaning, env: spec_fn(Inst) -> int, vals: Seq<int>, more: Seq<int>, k: KeyV)
    requires
        vals.len() <= more.len(),
        forall|j: int| 0 <= j < vals.len() ==> vals[j] == more[j],
        below(k, vals.len() as int),
    ensures
        key_value(m, env, vals, k) == key_value(m, env, more, k),
{
    assert(Seq::new(k.args.len(), |j: int| vals[k.args[j] as int]) =~= Seq::new(
        k.args.len(),
        |j: int| more[k.args[j] as int],
    ));
}

proof fn lemma_interned(m: Meaning, env: spec_fn(Inst) -> int, t: NumbersV, vals: Seq<int>, i: Inst, key: KeyV) -> (more:
    Seq<int>)
    requires
        fits(m, env, t, vals),
        below(key, vals.len() as int),
        env(i) == key_value(m, env, vals, key),
        t.keys.len() < usize::MAX,
    ensures
        fits(m, env, interned(t, i, key).0, more),
        vals.len() <= more.len() <= vals.len() + 1,
        forall|j: int| 0 <= j < vals.len() ==> vals[j] == more[j],
        interned(t, i, key).1 < more.len(),
        more[interned(t, i, key).1 as int] == env(i),
{
    lemma_number_of_key(t.keys, key, 0);
    let n = number_of_key(t.keys, key, 0);
    let r = interned(t, i, key).0;
    if n < t.keys.len() {
        assert(vals[n] == key_value(m, env, vals, t.keys[n]));
        vals
    } else {
        let more = vals.push(env(i));
        assert forall|k: int| 0 <= k < r.keys.len() implies below(#[trigger] r.keys[k], k) && more[k] == key_value(
            m,
            env,
            more,
            r.keys[k],
        ) by {
            if k < t.keys.len() {
                assert(r.keys[k] == t.keys[k]);
                assert(below(t.keys[k], k));
                lemma_key_value_extends(m, env, vals, more, t.keys[k]);
            } else {
                lemma_key_value_extends(m, env, vals, more, key);
            }
        }
        more
    }
}

/// The key of a value stands for what it computes.
proof fn lemma_key_of(
    p: ProgramV,
    s: ScopeV,
    m: Meaning,
    env: spec_fn(Inst) -> int,
    vals: Seq<int>,
    i: Inst,
    nums: Seq<usize>,
)
    requires
        computes(p, s, m, env),
        symmetric(m),
        expressible(p, s, i),
        nums.len() == p.args(i).len(),
        forall|j: int| 0 <= j < nums.len() ==> (#[trigger] nums[j]) < vals.len() && vals[nums[j] as int] == env(p.args(i)[j]),
    ensures
        below(key_of(p, i, nums), vals.len() as int),
        key_value(m, env, vals, key_of(p, i, nums)) == env(i),
{
    let k = key_of(p, i, nums);
    let operands = p.args(i).map_values(env);
    match p.op(i) {
        Op::Binary(op) => {
            let from = p.ty(p.arg(i, 0));
            let x = env(p.args(i)[0]);
            let y = env(p.args(i)[1]);
            assert(operands =~= seq![x, y]);
            assert(env(i) == binary_meaning(m, op, p.ty(i), from, x, y));
            let given = Seq::new(k.args.len(), |j: int| vals[k.args[j] as int]);
            let (o, a, b) = ordered(op, from, nums[0], nums[1]);
            if a == nums[0] && b == nums[1] && o == op {
                assert(given =~= seq![x, y]);
            } else {
                assert(given =~= seq![y, x]);
            }
        },
        _ => {
            assert(Seq::new(k.args.len(), |j: int| vals[k.args[j] as int]) =~= operands);
        },
    }
}

/// Listing a key keeps numbers true to values.
pub(crate) proof fn lemma_listed(m: Meaning, env: spec_fn(Inst) -> int, t: NumbersV, vals: Seq<int>, key: KeyV) -> (more:
    Seq<int>)
    requires
        fits(m, env, t, vals),
        below(key, vals.len() as int),
        t.keys.len() < usize::MAX,
    ensures
        fits(m, env, listed(t, key).0, more),
        vals.len() <= more.len() <= vals.len() + 1,
        forall|j: int| 0 <= j < vals.len() ==> vals[j] == more[j],
        listed(t, key).1 < more.len(),
        listed(t, key).0.keys[listed(t, key).1 as int] == key,
{
    lemma_number_of_key(t.keys, key, 0);
    let n = number_of_key(t.keys, key, 0);
    let r = listed(t, key).0;
    if n < t.keys.len() {
        vals
    } else {
        let more = vals.push(key_value(m, env, vals, key));
        assert forall|k: int| 0 <= k < r.keys.len() implies below(#[trigger] r.keys[k], k) && more[k] == key_value(
            m,
            env,
            more,
            r.keys[k],
        ) by {
            if k < t.keys.len() {
                assert(r.keys[k] == t.keys[k]);
                assert(below(t.keys[k], k));
                lemma_key_value_extends(m, env, vals, more, t.keys[k]);
            } else {
                lemma_key_value_extends(m, env, vals, more, key);
            }
        }
        more
    }
}

/// Numbering keeps numbers true to values.
pub proof fn numbering_is_sound(
    p: ProgramV,
    s: ScopeV,
    m: Meaning,
    env: spec_fn(Inst) -> int,
    t: NumbersV,
    vals: Seq<int>,
    i: Inst,
    fuel: nat,
) -> (more: Seq<int>)
    requires
        computes(p, s, m, env),
        symmetric(m),
        fits(m, env, t, vals),
        numbered(p, s, t, i, fuel).0.keys.len() < usize::MAX,
    ensures
        fits(m, env, numbered(p, s, t, i, fuel).0, more),
        vals.len() <= more.len(),
        forall|j: int| 0 <= j < vals.len() ==> vals[j] == more[j],
        numbered(p, s, t, i, fuel).1 < more.len(),
        more[numbered(p, s, t, i, fuel).1 as int] == env(i),
    decreases fuel, 0int, 0int,
{
    if t.by_inst.contains_key(i.0) {
        assert(Inst(i.0) == i);
        vals
    } else if fuel == 0 || !expressible(p, s, i) {
        lemma_interned(m, env, t, vals, i, own_key(p.ty(i), i))
    } else {
        let (next, nums) = all_numbered(p, s, t, p.args(i), 0, Seq::empty(), (fuel - 1) as nat);
        let mid = lemma_all_numbered(p, s, m, env, t, vals, p.args(i), 0, Seq::empty(), (fuel - 1) as nat);
        lemma_key_of(p, s, m, env, mid, i, nums);
        lemma_interned(m, env, next, mid, i, key_of(p, i, nums))
    }
}

pub(crate) proof fn lemma_keys_grow(p: ProgramV, s: ScopeV, t: NumbersV, args: Seq<Inst>, from: int, nums: Seq<usize>, fuel: nat)
    ensures
        all_numbered(p, s, t, args, from, nums, fuel).0.keys.len() >= t.keys.len(),
    decreases fuel, 1int, args.len() - from,
{
    if from < args.len() {
        lemma_one_grows(p, s, t, args[from], fuel);
        let (next, n) = numbered(p, s, t, args[from], fuel);
        lemma_keys_grow(p, s, next, args, from + 1, nums.push(n), fuel);
    }
}

pub(crate) proof fn lemma_one_grows(p: ProgramV, s: ScopeV, t: NumbersV, i: Inst, fuel: nat)
    ensures
        numbered(p, s, t, i, fuel).0.keys.len() >= t.keys.len(),
    decreases fuel, 0int, 0int,
{
    if !t.by_inst.contains_key(i.0) && fuel > 0 && expressible(p, s, i) {
        lemma_keys_grow(p, s, t, p.args(i), 0, Seq::empty(), (fuel - 1) as nat);
    }
}

pub(crate) proof fn lemma_all_numbered(
    p: ProgramV,
    s: ScopeV,
    m: Meaning,
    env: spec_fn(Inst) -> int,
    t: NumbersV,
    vals: Seq<int>,
    args: Seq<Inst>,
    from: int,
    nums: Seq<usize>,
    fuel: nat,
) -> (more: Seq<int>)
    requires
        computes(p, s, m, env),
        symmetric(m),
        fits(m, env, t, vals),
        0 <= from <= args.len(),
        nums.len() == from,
        forall|j: int| 0 <= j < from ==> (#[trigger] nums[j]) < vals.len() && vals[nums[j] as int] == env(args[j]),
        all_numbered(p, s, t, args, from, nums, fuel).0.keys.len() < usize::MAX,
    ensures
        ({
            let (r, out) = all_numbered(p, s, t, args, from, nums, fuel);
            &&& fits(m, env, r, more)
            &&& vals.len() <= more.len()
            &&& forall|j: int| 0 <= j < vals.len() ==> vals[j] == more[j]
            &&& out.len() == args.len()
            &&& forall|j: int|
                0 <= j < out.len() ==> (#[trigger] out[j]) < more.len() && more[out[j] as int] == env(args[j])
        }),
    decreases fuel, 1int, args.len() - from,
{
    if from >= args.len() {
        vals
    } else {
        let (next, n) = numbered(p, s, t, args[from], fuel);
        lemma_keys_grow(p, s, next, args, from + 1, nums.push(n), fuel);
        let mid = numbering_is_sound(p, s, m, env, t, vals, args[from], fuel);
        lemma_all_numbered(p, s, m, env, next, mid, args, from + 1, nums.push(n), fuel)
    }
}

/// Values with the same number are the same, whatever the operations mean, as long as exchanging
/// operands keeps the meaning where the numbering exchanges them.
pub proof fn same_number_same_value(
    p: ProgramV,
    s: ScopeV,
    m: Meaning,
    env: spec_fn(Inst) -> int,
    args: Seq<Inst>,
    a: int,
    b: int,
    fuel: nat,
)
    requires
        computes(p, s, m, env),
        symmetric(m),
        0 <= a < args.len(),
        0 <= b < args.len(),
        ({
            let start = NumbersV { by_inst: Map::empty(), keys: Seq::empty() };
            let (r, nums) = all_numbered(p, s, start, args, 0, Seq::empty(), fuel);
            r.keys.len() < usize::MAX && nums[a] == nums[b]
        }),
    ensures
        env(args[a]) == env(args[b]),
{
    let start = NumbersV { by_inst: Map::empty(), keys: Seq::empty() };
    let more = lemma_all_numbered(p, s, m, env, start, Seq::empty(), args, 0, Seq::empty(), fuel);
}

} // verus!
