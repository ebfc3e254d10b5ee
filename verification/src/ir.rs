//! The intermediate representation: an arena of instructions, basic blocks
//! whose parameters play the role of phi nodes, and functions that order them.

use vstd::prelude::*;

verus! {

/// Handle of an instruction or value.
#[derive(Clone, Copy, Debug, PartialEq, Eq, Hash, PartialOrd, Ord, Structural)]
pub struct Inst(pub usize);

/// Handle of a basic block.
#[derive(Clone, Copy, Debug, PartialEq, Eq, Hash, PartialOrd, Ord, Structural)]
pub struct BasicBlock(pub usize);

/// Handle of a function.
#[derive(Clone, Copy, Debug, PartialEq, Eq, Hash, PartialOrd, Ord, Structural)]
pub struct Function(pub usize);

#[derive(Clone, Copy, Debug, PartialEq, Eq, Hash, Structural)]
pub enum BinaryOp {
    NotEq,
    Eq,
    Gt,
    Lt,
    Ge,
    Le,
    Add,
    Sub,
    Mul,
    Div,
    Rem,
    And,
    Or,
    Xor,
    Shl,
    Shr,
    Sar,
    Min,
    Max,
}

/// Value types.
#[derive(Debug, PartialEq, Eq)]
pub enum Type {
    Unit,
    I32,
    F32,
    Pointer(Box<Type>),
    Array(Box<Type>, usize),
}

/// What an instruction does; its operands are kept beside it in a uniform list.
///
/// `Branch(t, f, n)` has the operands `cond`, then `n` arguments for `t`, then those for `f`.
/// `MemZero(n)` clears `n` bytes at its operand; `MemZeroDyn` takes the length as a second operand.
#[derive(Clone, Copy, Debug, PartialEq, Eq, Hash, Structural)]
pub enum Op {
    Integer(i32),
    Float(u32),
    ZeroInit,
    Undef,
    Aggregate,
    BlockArgRef,
    GlobalAlloc,
    Alloc,
    Load,
    Store,
    MemZero(usize),
    MemZeroDyn,
    GetElemPtr,
    Binary(BinaryOp),
    Cast,
    Select,
    Fma,
    VectorOp,
    Branch(BasicBlock, BasicBlock, usize),
    Jump(BasicBlock),
    Return,
    Call(Function),
    TailCall(Function),
    Removed,
}

impl Clone for Type {
    fn clone(&self) -> (r: Self)
        ensures
            r == *self,
        decreases self,
    {
        match self {
            Type::Unit => Type::Unit,
            Type::I32 => Type::I32,
            Type::F32 => Type::F32,
            Type::Pointer(t) => Type::Pointer(Box::new((&**t).clone())),
            Type::Array(t, n) => Type::Array(Box::new((&**t).clone()), *n),
        }
    }
}

impl Type {
    pub fn get_unit() -> (r: Type)
        ensures
            r == Type::Unit,
    {
        Type::Unit
    }

    pub fn get_i32() -> (r: Type)
        ensures
            r == Type::I32,
    {
        Type::I32
    }

    pub fn get_f32() -> (r: Type)
        ensures
            r == Type::F32,
    {
        Type::F32
    }

    pub fn get_pointer(t: Type) -> (r: Type)
        ensures
            r == Type::Pointer(Box::new(t)),
    {
        Type::Pointer(Box::new(t))
    }

    pub fn get_array(t: Type, n: usize) -> (r: Type)
        ensures
            r == Type::Array(Box::new(t), n),
    {
        Type::Array(Box::new(t), n)
    }

    /// Structural equality.
    pub fn same(&self, other: &Type) -> (r: bool)
        ensures
            r == (*self == *other),
        decreases self,
    {
        match (self, other) {
            (Type::Unit, Type::Unit) => true,
            (Type::I32, Type::I32) => true,
            (Type::F32, Type::F32) => true,
            (Type::Pointer(a), Type::Pointer(b)) => (&**a).same(&**b),
            (Type::Array(a, n), Type::Array(b, m)) => *n == *m && (&**a).same(&**b),
            _ => false,
        }
    }

    /// Scalars are the integers, the floats and the pointers.
    pub open spec fn scalar(self) -> bool {
        self is I32 || self is F32 || self is Pointer
    }

    pub fn is_scalar(&self) -> (r: bool)
        ensures
            r == self.scalar(),
    {
        matches!(self, Type::I32 | Type::F32 | Type::Pointer(_))
    }

    pub fn is_i32(&self) -> (r: bool)
        ensures
            r == (*self is I32),
    {
        matches!(self, Type::I32)
    }

    pub fn is_unit(&self) -> (r: bool)
        ensures
            r == (*self is Unit),
    {
        matches!(self, Type::Unit)
    }

    /// Size in bytes.
    pub open spec fn bytes(self) -> int
        decreases self,
    {
        match self {
            Type::Unit => 0,
            Type::I32 => 4,
            Type::F32 => 4,
            Type::Pointer(_) => 8,
            Type::Array(t, n) => (*t).bytes() * n,
        }
    }

    /// Size in bytes, where it fits.
    pub fn size(&self) -> (r: Option<usize>)
        ensures
            self.bytes() >= 0,
            r == (if self.bytes() <= usize::MAX { Some(self.bytes() as usize) } else { None::<usize> }),
        decreases self,
    {
        match self {
            Type::Unit => Some(0),
            Type::I32 => Some(4),
            Type::F32 => Some(4),
            Type::Pointer(_) => Some(8),
            Type::Array(t, n) => {
                let inner = (&**t).size();
                if *n == 0 {
                    assert((**t).bytes() * 0 == 0);
                    Some(0)
                } else {
                    proof {
                        let b = (**t).bytes();
                        let m = *n as int;
                        assert(b * m >= b && b * m >= 0) by (nonlinear_arith)
                            requires
                                b >= 0,
                                m >= 1,
                        ;
                    }
                    match inner {
                        Some(s) => s.checked_mul(*n),
                        None => None,
                    }
                }
            },
        }
    }

    /// The type behind a pointer; `Unit` for anything else.
    pub open spec fn pointee(self) -> Type {
        match self {
            Type::Pointer(t) => *t,
            _ => Type::Unit,
        }
    }

    pub fn dereference(&self) -> (r: Type)
        ensures
            r == self.pointee(),
    {
        match self {
            Type::Pointer(t) => (&**t).clone(),
            _ => Type::Unit,
        }
    }

    /// The type an address computation with `depth` offsets below the first one ends in.
    pub open spec fn element_at(self, depth: nat) -> Type
        decreases depth,
    {
        if depth == 0 {
            self
        } else {
            match self {
                Type::Array(t, _) => (*t).element_at((depth - 1) as nat),
                _ => self,
            }
        }
    }

    pub fn element(&self, depth: usize) -> (r: Type)
        ensures
            r == self.element_at(depth as nat),
        decreases depth,
    {
        if depth == 0 {
            self.clone()
        } else {
            match self {
                Type::Array(t, _) => (&**t).element(depth - 1),
                _ => self.clone(),
            }
        }
    }
}

impl BinaryOp {
    pub open spec fn compares(self) -> bool {
        matches!(
            self,
            BinaryOp::NotEq | BinaryOp::Eq | BinaryOp::Gt | BinaryOp::Lt | BinaryOp::Ge | BinaryOp::Le
        )
    }

    pub fn is_compare(self) -> (r: bool)
        ensures
            r == self.compares(),
    {
        matches!(
            self,
            BinaryOp::NotEq | BinaryOp::Eq | BinaryOp::Gt | BinaryOp::Lt | BinaryOp::Ge | BinaryOp::Le
        )
    }

    /// The comparison that holds exactly where this one does not.
    pub open spec fn complement(self) -> Option<BinaryOp> {
        match self {
            BinaryOp::NotEq => Some(BinaryOp::Eq),
            BinaryOp::Eq => Some(BinaryOp::NotEq),
            BinaryOp::Gt => Some(BinaryOp::Le),
            BinaryOp::Lt => Some(BinaryOp::Ge),
            BinaryOp::Ge => Some(BinaryOp::Lt),
            BinaryOp::Le => Some(BinaryOp::Gt),
            _ => None,
        }
    }

    pub fn complement_integer_compare(self) -> (r: Option<BinaryOp>)
        ensures
            r == self.complement(),
    {
        match self {
            BinaryOp::NotEq => Some(BinaryOp::Eq),
            BinaryOp::Eq => Some(BinaryOp::NotEq),
            BinaryOp::Gt => Some(BinaryOp::Le),
            BinaryOp::Lt => Some(BinaryOp::Ge),
            BinaryOp::Ge => Some(BinaryOp::Lt),
            BinaryOp::Le => Some(BinaryOp::Gt),
            _ => None,
        }
    }

    /// The comparison that means the same with its operands exchanged.
    pub open spec fn mirrored(self) -> Option<BinaryOp> {
        match self {
            BinaryOp::NotEq => Some(BinaryOp::NotEq),
            BinaryOp::Eq => Some(BinaryOp::Eq),
            BinaryOp::Gt => Some(BinaryOp::Lt),
            BinaryOp::Lt => Some(BinaryOp::Gt),
            BinaryOp::Ge => Some(BinaryOp::Le),
            BinaryOp::Le => Some(BinaryOp::Ge),
            _ => None,
        }
    }

    pub fn swap_compare_args(self) -> (r: Option<BinaryOp>)
        ensures
            r == self.mirrored(),
    {
        match self {
            BinaryOp::NotEq => Some(BinaryOp::NotEq),
            BinaryOp::Eq => Some(BinaryOp::Eq),
            BinaryOp::Gt => Some(BinaryOp::Lt),
            BinaryOp::Lt => Some(BinaryOp::Gt),
            BinaryOp::Ge => Some(BinaryOp::Le),
            BinaryOp::Le => Some(BinaryOp::Ge),
            _ => None,
        }
    }

    /// Operations on `i32` whose operands may be exchanged.
    pub open spec fn commutes(self) -> bool {
        matches!(
            self,
            BinaryOp::Add | BinaryOp::Mul | BinaryOp::And | BinaryOp::Or | BinaryOp::Xor | BinaryOp::Eq | BinaryOp::NotEq
                | BinaryOp::Min | BinaryOp::Max
        )
    }

    pub fn is_commutative(self) -> (r: bool)
        ensures
            r == self.commutes(),
    {
        matches!(
            self,
            BinaryOp::Add | BinaryOp::Mul | BinaryOp::And | BinaryOp::Or | BinaryOp::Xor | BinaryOp::Eq | BinaryOp::NotEq
                | BinaryOp::Min | BinaryOp::Max
        )
    }
}

/// An instruction as a value.
#[verifier::ext_equal]
pub struct InstV {
    pub op: Op,
    pub args: Seq<Inst>,
    pub ty: Type,
    pub global: bool,
    pub name: Option<Seq<char>>,
}

/// A basic block as a value.
#[verifier::ext_equal]
pub struct BlockV {
    pub name: Seq<char>,
    pub params: Seq<Inst>,
    pub insts: Seq<Inst>,
}

/// A function as a value. Its first block is the entry; one without blocks is a declaration.
#[verifier::ext_equal]
pub struct FuncV {
    pub name: Seq<char>,
    pub ret_ty: Type,
    pub param_tys: Seq<Type>,
    pub params: Seq<Inst>,
    pub blocks: Seq<BasicBlock>,
}

/// A program as a value.
#[verifier::ext_equal]
pub struct ProgramV {
    pub insts: Seq<InstV>,
    pub blocks: Seq<BlockV>,
    pub funcs: Seq<FuncV>,
    pub layout: Seq<Function>,
    pub globals: Seq<Inst>,
}

/// What a handle that names nothing stands for.
pub open spec fn absent_inst() -> InstV {
    InstV { op: Op::Removed, args: Seq::empty(), ty: Type::Unit, global: false, name: None }
}

/// The handle that names nothing.
pub open spec fn nothing() -> Inst {
    Inst(usize::MAX)
}

pub open spec fn absent_block() -> BlockV {
    BlockV { name: Seq::empty(), params: Seq::empty(), insts: Seq::empty() }
}

pub open spec fn absent_func() -> FuncV {
    FuncV {
        name: Seq::empty(),
        ret_ty: Type::Unit,
        param_tys: Seq::empty(),
        params: Seq::empty(),
        blocks: Seq::empty(),
    }
}

/// The first position at or after `from` that holds `x`; the length where there is none.
pub open spec fn position<T>(s: Seq<T>, x: T, from: int) -> int
    decreases s.len() - from,
{
    if from >= s.len() {
        s.len() as int
    } else if s[from] == x {
        from
    } else {
        position(s, x, from + 1)
    }
}

/// `s` without the first occurrence of `x`.
pub open spec fn without<T>(s: Seq<T>, x: T) -> Seq<T> {
    let k = position(s, x, 0);
    if 0 <= k < s.len() {
        s.remove(k)
    } else {
        s
    }
}

/// `s` with `x` put right behind the first `anchor`, or at the end where there is none.
pub open spec fn after<T>(s: Seq<T>, anchor: T, x: T) -> Seq<T> {
    let k = position(s, anchor, 0);
    if 0 <= k < s.len() {
        s.insert(k + 1, x)
    } else {
        s.push(x)
    }
}

/// `s` with `x` put right before the first `anchor`, or at the end where there is none.
pub open spec fn before<T>(s: Seq<T>, anchor: T, x: T) -> Seq<T> {
    let k = position(s, anchor, 0);
    if 0 <= k < s.len() {
        s.insert(k, x)
    } else {
        s.push(x)
    }
}

pub proof fn position_is_first<T>(s: Seq<T>, x: T, from: int)
    requires
        0 <= from <= s.len(),
    ensures
        from <= position(s, x, from) <= s.len(),
        position(s, x, from) < s.len() ==> s[position(s, x, from)] == x,
        forall|k: int| from <= k < position(s, x, from) ==> s[k] != x,
    decreases s.len() - from,
{
    if from < s.len() && s[from] != x {
        position_is_first(s, x, from + 1);
    }
}

impl InstV {
    /// The instruction with every use of `old_value` made a use of `new_value`.
    pub open spec fn replaced(self, old_value: Inst, new_value: Inst) -> InstV {
        InstV {
            args: Seq::new(self.args.len(), |k: int| if self.args[k] == old_value { new_value } else { self.args[k] }),
            ..self
        }
    }

    pub open spec fn targets(self, b: BasicBlock) -> bool {
        match self.op {
            Op::Branch(t, f, _) => t == b || f == b,
            Op::Jump(t) => t == b,
            _ => false,
        }
    }
}

impl ProgramV {
    pub open spec fn inst(self, i: Inst) -> InstV {
        if i.0 < self.insts.len() {
            self.insts[i.0 as int]
        } else {
            absent_inst()
        }
    }

    pub open spec fn op(self, i: Inst) -> Op {
        self.inst(i).op
    }

    pub open spec fn args(self, i: Inst) -> Seq<Inst> {
        self.inst(i).args
    }

    /// Operand `k`; no value at all where there are fewer.
    pub open spec fn arg(self, i: Inst, k: int) -> Inst {
        let a = self.inst(i).args;
        if 0 <= k < a.len() {
            a[k]
        } else {
            nothing()
        }
    }

    pub open spec fn ty(self, i: Inst) -> Type {
        self.inst(i).ty
    }

    pub open spec fn block(self, b: BasicBlock) -> BlockV {
        if b.0 < self.blocks.len() {
            self.blocks[b.0 as int]
        } else {
            absent_block()
        }
    }

    pub open spec fn func(self, f: Function) -> FuncV {
        if f.0 < self.funcs.len() {
            self.funcs[f.0 as int]
        } else {
            absent_func()
        }
    }

    /// The last instruction of a block.
    pub open spec fn terminator(self, b: BasicBlock) -> Inst {
        let s = self.block(b).insts;
        if s.len() == 0 {
            nothing()
        } else {
            s.last()
        }
    }

    /// Arguments that the true edge of a branch passes.
    pub open spec fn t_args(self, i: Inst) -> Seq<Inst> {
        match self.op(i) {
            Op::Branch(_, _, n) => if n + 1 <= self.args(i).len() {
                self.args(i).subrange(1, n + 1)
            } else {
                Seq::empty()
            },
            _ => Seq::empty(),
        }
    }

    /// Arguments that the false edge of a branch passes.
    pub open spec fn f_args(self, i: Inst) -> Seq<Inst> {
        match self.op(i) {
            Op::Branch(_, _, n) => if n + 1 <= self.args(i).len() {
                self.args(i).subrange(n + 1, self.args(i).len() as int)
            } else {
                Seq::empty()
            },
            _ => Seq::empty(),
        }
    }

    pub open spec fn is_used(self, i: Inst) -> bool {
        exists|u: int| 0 <= u < self.insts.len() && (#[trigger] self.insts[u]).args.contains(i)
    }

    /// The handle that the next instruction gets.
    pub open spec fn next_inst(self) -> Inst {
        Inst(self.insts.len() as usize)
    }

    pub open spec fn next_block(self) -> BasicBlock {
        BasicBlock(self.blocks.len() as usize)
    }

    #[verifier::opaque]
    pub open spec fn push_inst(self, op: Op, args: Seq<Inst>, ty: Type, global: bool) -> ProgramV {
        ProgramV { insts: self.insts.push(InstV { op, args, ty, global, name: None }), ..self }
    }

    /// The program with instruction `i` made anew in place, without a name.
    #[verifier::opaque]
    pub open spec fn set_inst(self, i: Inst, op: Op, args: Seq<Inst>, ty: Type) -> ProgramV {
        if i.0 < self.insts.len() {
            ProgramV {
                insts: self.insts.update(
                    i.0 as int,
                    InstV { op, args, ty, global: self.insts[i.0 as int].global, name: None },
                ),
                ..self
            }
        } else {
            self
        }
    }

    #[verifier::opaque]
    pub open spec fn set_name(self, i: Inst, name: Option<Seq<char>>) -> ProgramV {
        if i.0 < self.insts.len() {
            ProgramV { insts: self.insts.update(i.0 as int, InstV { name, ..self.insts[i.0 as int] }), ..self }
        } else {
            self
        }
    }

    #[verifier::opaque]
    pub open spec fn set_block_insts(self, b: BasicBlock, insts: Seq<Inst>) -> ProgramV {
        if b.0 < self.blocks.len() {
            ProgramV { blocks: self.blocks.update(b.0 as int, BlockV { insts, ..self.blocks[b.0 as int] }), ..self }
        } else {
            self
        }
    }

    #[verifier::opaque]
    pub open spec fn set_block_params(self, b: BasicBlock, params: Seq<Inst>) -> ProgramV {
        if b.0 < self.blocks.len() {
            ProgramV { blocks: self.blocks.update(b.0 as int, BlockV { params, ..self.blocks[b.0 as int] }), ..self }
        } else {
            self
        }
    }

    #[verifier::opaque]
    pub open spec fn set_func_blocks(self, f: Function, blocks: Seq<BasicBlock>) -> ProgramV {
        if f.0 < self.funcs.len() {
            ProgramV { funcs: self.funcs.update(f.0 as int, FuncV { blocks, ..self.funcs[f.0 as int] }), ..self }
        } else {
            self
        }
    }

    #[verifier::opaque]
    pub open spec fn set_func_params(self, f: Function, params: Seq<Inst>) -> ProgramV {
        if f.0 < self.funcs.len() {
            ProgramV { funcs: self.funcs.update(f.0 as int, FuncV { params, ..self.funcs[f.0 as int] }), ..self }
        } else {
            self
        }
    }

    #[verifier::opaque]
    pub open spec fn push_block(self, name: Seq<char>) -> ProgramV {
        ProgramV {
            blocks: self.blocks.push(BlockV { name, params: Seq::empty(), insts: Seq::empty() }),
            ..self
        }
    }

    /// The program with every use of `old_value` made a use of `new_value`.
    #[verifier::opaque]
    pub open spec fn replace_uses(self, old_value: Inst, new_value: Inst) -> ProgramV {
        ProgramV {
            insts: Seq::new(self.insts.len(), |k: int| self.insts[k].replaced(old_value, new_value)),
            ..self
        }
    }

    /// Instruction `i` appended to block `b`.
    pub open spec fn append(self, b: BasicBlock, i: Inst) -> ProgramV {
        self.set_block_insts(b, self.block(b).insts.push(i))
    }

    /// Instruction `i` taken out of block `b`; it keeps its data.
    pub open spec fn detach(self, b: BasicBlock, i: Inst) -> ProgramV {
        self.set_block_insts(b, without(self.block(b).insts, i))
    }

    /// Instruction `i` emptied: it uses nothing from now on.
    pub open spec fn erase(self, i: Inst) -> ProgramV {
        self.set_inst(i, Op::Removed, Seq::empty(), Type::Unit)
    }

    /// Instruction `i` taken out of block `b` and emptied.
    pub open spec fn remove(self, b: BasicBlock, i: Inst) -> ProgramV {
        self.detach(b, i).erase(i)
    }

    /// A parameter of type `ty` added to block `b`.
    pub open spec fn add_param(self, b: BasicBlock, ty: Type) -> ProgramV {
        let p = self.push_inst(Op::BlockArgRef, Seq::empty(), ty, false);
        p.set_block_params(b, p.block(b).params.push(self.next_inst()))
    }

    /// Parameters of types `tys[from..]` added to block `b`.
    pub open spec fn add_params(self, b: BasicBlock, tys: Seq<Type>, from: int) -> ProgramV
        decreases tys.len() - from,
    {
        if from >= tys.len() {
            self
        } else {
            self.add_param(b, tys[from]).add_params(b, tys, from + 1)
        }
    }

    /// A new block with parameters of types `tys`, not placed in any function.
    pub open spec fn basic_block(self, name: Seq<char>, tys: Seq<Type>) -> ProgramV {
        self.push_block(name).add_params(self.next_block(), tys, 0)
    }

    pub open spec fn push_bb_back(self, f: Function, b: BasicBlock) -> ProgramV {
        self.set_func_blocks(f, self.func(f).blocks.push(b))
    }

    pub open spec fn insert_bb_after(self, f: Function, anchor: BasicBlock, b: BasicBlock) -> ProgramV {
        self.set_func_blocks(f, after(self.func(f).blocks, anchor, b))
    }

    pub open spec fn detach_block(self, f: Function, b: BasicBlock) -> ProgramV {
        self.set_func_blocks(f, without(self.func(f).blocks, b))
    }

    /// The instructions `insts[from..]` emptied.
    pub open spec fn erase_all(self, insts: Seq<Inst>, from: int) -> ProgramV
        decreases insts.len() - from,
    {
        if from >= insts.len() {
            self
        } else {
            self.erase(insts[from]).erase_all(insts, from + 1)
        }
    }

    /// Block `b` taken out of `f`, its instructions emptied.
    pub open spec fn remove_block(self, f: Function, b: BasicBlock) -> ProgramV {
        self.detach_block(f, b).erase_all(self.block(b).insts, 0)
    }

    /// The instructions `insts[from..]` taken out of block `b` and emptied.
    pub open spec fn remove_all(self, b: BasicBlock, insts: Seq<Inst>, from: int) -> ProgramV
        decreases insts.len() - from,
    {
        if from >= insts.len() {
            self
        } else {
            self.remove(b, insts[from]).remove_all(b, insts, from + 1)
        }
    }

    /// The block of `f` that holds `i`, looked for from position `from`.
    pub open spec fn parent_from(self, f: Function, i: Inst, from: int) -> Option<BasicBlock>
        decreases self.func(f).blocks.len() - from,
    {
        if from >= self.func(f).blocks.len() {
            None
        } else if self.block(self.func(f).blocks[from]).insts.contains(i) {
            Some(self.func(f).blocks[from])
        } else {
            self.parent_from(f, i, from + 1)
        }
    }

    /// The block of `f` in which `i` stands.
    pub open spec fn parent_bb(self, f: Function, i: Inst) -> Option<BasicBlock> {
        self.parent_from(f, i, 0)
    }

    /// The instructions of blocks `from..` of `f` in layout order, behind `found`.
    pub open spec fn placed_from(self, f: Function, from: int, found: Seq<Inst>) -> Seq<Inst>
        decreases self.func(f).blocks.len() - from,
    {
        if from >= self.func(f).blocks.len() {
            found
        } else {
            self.placed_from(f, from + 1, found + self.block(self.func(f).blocks[from]).insts)
        }
    }

    /// The instructions of `f` in layout order.
    pub open spec fn placed(self, f: Function) -> Seq<Inst> {
        self.placed_from(f, 0, Seq::empty())
    }

    /// Users of `i` from instruction `from` on, in arena order, behind `found`.
    pub open spec fn users_from(self, i: Inst, from: int, found: Seq<Inst>) -> Seq<Inst>
        decreases self.insts.len() - from,
    {
        if from >= self.insts.len() {
            found
        } else if self.insts[from].args.contains(i) {
            self.users_from(i, from + 1, found.push(Inst(from as usize)))
        } else {
            self.users_from(i, from + 1, found)
        }
    }

    /// The instructions that use `i`, in arena order.
    pub open spec fn users(self, i: Inst) -> Seq<Inst> {
        self.users_from(i, 0, Seq::empty())
    }

    /// Control transfers to `b` from instruction `from` on, in arena order, behind `found`.
    pub open spec fn block_users_from(self, b: BasicBlock, from: int, found: Seq<Inst>) -> Seq<Inst>
        decreases self.insts.len() - from,
    {
        if from >= self.insts.len() {
            found
        } else if self.insts[from].targets(b) {
            self.block_users_from(b, from + 1, found.push(Inst(from as usize)))
        } else {
            self.block_users_from(b, from + 1, found)
        }
    }

    pub open spec fn block_users(self, b: BasicBlock) -> Seq<Inst> {
        self.block_users_from(b, 0, Seq::empty())
    }

    /// The type of a computation with `op` on `lhs`.
    pub open spec fn binary_ty(self, op: BinaryOp, lhs: Inst) -> Type {
        if op.compares() {
            Type::I32
        } else {
            self.ty(lhs)
        }
    }

    /// The type of an address computed from `base` with `n` offsets.
    pub open spec fn gep_ty(self, base: Inst, n: int) -> Type {
        Type::Pointer(Box::new(self.ty(base).pointee().element_at((if n > 0 { n - 1 } else { 0 }) as nat)))
    }
}

/// A copy of a vector.
pub fn copy_vec<T: Copy>(v: &Vec<T>) -> (r: Vec<T>)
    ensures
        r@ == v@,
{
    let mut r: Vec<T> = Vec::new();
    let mut i: usize = 0;
    while i < v.len()
        invariant
            i <= v@.len(),
            r@ == v@.take(i as int),
        decreases v@.len() - i,
    {
        r.push(v[i]);
        assert(v@.take(i + 1) =~= v@.take(i as int).push(v@[i as int]));
        i += 1;
    }
    assert(v@.take(v@.len() as int) =~= v@);
    r
}

/// Whether `v` holds `x`.
pub fn has_inst(v: &Vec<Inst>, x: Inst) -> (r: bool)
    ensures
        r == v@.contains(x),
{
    let mut i: usize = 0;
    while i < v.len()
        invariant
            i <= v@.len(),
            forall|k: int| 0 <= k < i ==> v@[k] != x,
        decreases v@.len() - i,
    {
        if v[i] == x {
            assert(v@[i as int] == x);
            return true;
        }
        i += 1;
    }
    false
}

/// Whether `v` holds `x`.
pub fn has_block(v: &Vec<BasicBlock>, x: BasicBlock) -> (r: bool)
    ensures
        r == v@.contains(x),
{
    let mut i: usize = 0;
    while i < v.len()
        invariant
            i <= v@.len(),
            forall|k: int| 0 <= k < i ==> v@[k] != x,
        decreases v@.len() - i,
    {
        if v[i] == x {
            assert(v@[i as int] == x);
            return true;
        }
        i += 1;
    }
    false
}

/// The first position of `x` in `v`; the length where there is none.
pub fn inst_position(v: &Vec<Inst>, x: Inst) -> (r: usize)
    ensures
        r == position(v@, x, 0),
        r <= v@.len(),
        r < v@.len() ==> v@[r as int] == x,
{
    let mut i: usize = 0;
    while i < v.len()
        invariant
            i <= v@.len(),
            position(v@, x, 0) == position(v@, x, i as int),
        decreases v@.len() - i,
    {
        if v[i] == x {
            return i;
        }
        i += 1;
    }
    i
}

/// The first position of `x` in `v`; the length where there is none.
pub fn block_position(v: &Vec<BasicBlock>, x: BasicBlock) -> (r: usize)
    ensures
        r == position(v@, x, 0),
        r <= v@.len(),
        r < v@.len() ==> v@[r as int] == x,
{
    let mut i: usize = 0;
    while i < v.len()
        invariant
            i <= v@.len(),
            position(v@, x, 0) == position(v@, x, i as int),
        decreases v@.len() - i,
    {
        if v[i] == x {
            return i;
        }
        i += 1;
    }
    i
}

/// `a` followed by `b`.
pub fn joined(a: &Vec<Inst>, b: &Vec<Inst>) -> (r: Vec<Inst>)
    ensures
        r@ == a@ + b@,
{
    let mut r = copy_vec(a);
    let mut i: usize = 0;
    while i < b.len()
        invariant
            i <= b@.len(),
            r@ == a@ + b@.take(i as int),
        decreases b@.len() - i,
    {
        r.push(b[i]);
        assert(a@ + b@.take(i + 1) =~= (a@ + b@.take(i as int)).push(b@[i as int]));
        i += 1;
    }
    assert(b@.take(b@.len() as int) =~= b@);
    r
}

/// The part of `v` from `lo` up to `hi`.
pub fn sliced(v: &Vec<Inst>, lo: usize, hi: usize) -> (r: Vec<Inst>)
    requires
        lo <= hi <= v@.len(),
    ensures
        r@ == v@.subrange(lo as int, hi as int),
{
    let mut r: Vec<Inst> = Vec::new();
    let mut i: usize = lo;
    while i < hi
        invariant
            lo <= i <= hi <= v@.len(),
            r@ == v@.subrange(lo as int, i as int),
        decreases hi - i,
    {
        r.push(v[i]);
        assert(v@.subrange(lo as int, i + 1) =~= v@.subrange(lo as int, i as int).push(v@[i as int]));
        i += 1;
    }
    r
}

} // verus!
