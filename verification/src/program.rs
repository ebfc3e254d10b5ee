//! The executable program: construction, inspection and rewriting.

use vstd::prelude::*;

use crate::ir::{
    before, block_position, copy_vec, has_inst, inst_position, nothing, sliced, BasicBlock,
    BinaryOp, BlockV, FuncV, Function, Inst, InstV, Op, ProgramV, Type,
};

verus! {

struct InstData {
    op: Op,
    args: Vec<Inst>,
    ty: Type,
    global: bool,
    name: Option<String>,
}

struct BlockData {
    name: String,
    params: Vec<Inst>,
    insts: Vec<Inst>,
}

struct FuncData {
    name: String,
    ret_ty: Type,
    param_tys: Vec<Type>,
    params: Vec<Inst>,
    blocks: Vec<BasicBlock>,
}

/// A program: instructions, blocks and functions, each named by a handle.
///
/// Looking up a handle that names nothing gives an empty entry, never a failure.
pub struct Program {
    insts: Vec<InstData>,
    blocks: Vec<BlockData>,
    funcs: Vec<FuncData>,
    layout: Vec<Function>,
    globals: Vec<Inst>,
}

spec fn inst_view(d: InstData) -> InstV {
    InstV {
        op: d.op,
        args: d.args@,
        ty: d.ty,
        global: d.global,
        name: match d.name {
            Some(s) => Some(s@),
            None => None,
        },
    }
}

spec fn block_view(d: BlockData) -> BlockV {
    BlockV { name: d.name@, params: d.params@, insts: d.insts@ }
}

spec fn func_view(d: FuncData) -> FuncV {
    FuncV { name: d.name@, ret_ty: d.ret_ty, param_tys: d.param_tys@, params: d.params@, blocks: d.blocks@ }
}

impl View for Program {
    type V = ProgramV;

    closed spec fn view(&self) -> ProgramV {
        ProgramV {
            insts: Seq::new(self.insts@.len(), |k: int| inst_view(self.insts@[k])),
            blocks: Seq::new(self.blocks@.len(), |k: int| block_view(self.blocks@[k])),
            funcs: Seq::new(self.funcs@.len(), |k: int| func_view(self.funcs@[k])),
            layout: self.layout@,
            globals: self.globals@,
        }
    }
}

/// Makes every use of `old_value` in one instruction a use of `new_value`.
fn replace_in(d: &mut InstData, old_value: Inst, new_value: Inst)
    ensures
        inst_view(*final(d)) == inst_view(*old(d)).replaced(old_value, new_value),
{
    let mut i: usize = 0;
    let ghost start = inst_view(*d);
    while i < d.args.len()
        invariant
            i <= d.args@.len(),
            d.args@.len() == start.args.len(),
            d.op == start.op,
            d.ty == start.ty,
            d.global == start.global,
            inst_view(*d).name == start.name,
            forall|k: int|
                0 <= k < i ==> d.args@[k] == (if start.args[k] == old_value { new_value } else { start.args[k] }),
            forall|k: int| i <= k < start.args.len() ==> d.args@[k] == start.args[k],
        decreases d.args@.len() - i,
    {
        if d.args[i] == old_value {
            d.args.set(i, new_value);
        }
        i += 1;
    }
    assert(inst_view(*d) =~= start.replaced(old_value, new_value));
}

impl Program {
    /// The empty program.
    pub fn new() -> (r: Program)
        ensures
            r@ == (ProgramV {
                insts: Seq::empty(),
                blocks: Seq::empty(),
                funcs: Seq::empty(),
                layout: Seq::empty(),
                globals: Seq::empty(),
            }),
    {
        let r = Program {
            insts: Vec::new(),
            blocks: Vec::new(),
            funcs: Vec::new(),
            layout: Vec::new(),
            globals: Vec::new(),
        };
        assert(r@.insts =~= Seq::empty());
        assert(r@.blocks =~= Seq::empty());
        assert(r@.funcs =~= Seq::empty());
        r
    }

    pub fn num_insts(&self) -> (r: usize)
        ensures
            r == self@.insts.len(),
    {
        self.insts.len()
    }

    pub fn num_blocks(&self) -> (r: usize)
        ensures
            r == self@.blocks.len(),
    {
        self.blocks.len()
    }

    pub fn num_funcs(&self) -> (r: usize)
        ensures
            r == self@.funcs.len(),
    {
        self.funcs.len()
    }

    /// What instruction `i` does.
    pub fn op(&self, i: Inst) -> (r: Op)
        ensures
            r == self@.op(i),
    {
        if i.0 < self.insts.len() {
            self.insts[i.0].op
        } else {
            Op::Removed
        }
    }

    /// Operand `k` of instruction `i`.
    pub fn arg(&self, i: Inst, k: usize) -> (r: Inst)
        ensures
            r == self@.arg(i, k as int),
    {
        if i.0 < self.insts.len() && k < self.insts[i.0].args.len() {
            self.insts[i.0].args[k]
        } else {
            Inst(usize::MAX)
        }
    }

    pub fn num_args(&self, i: Inst) -> (r: usize)
        ensures
            r == self@.args(i).len(),
    {
        if i.0 < self.insts.len() {
            self.insts[i.0].args.len()
        } else {
            0
        }
    }

    /// All operands of instruction `i`.
    pub fn args(&self, i: Inst) -> (r: Vec<Inst>)
        ensures
            r@ == self@.args(i),
    {
        if i.0 < self.insts.len() {
            copy_vec(&self.insts[i.0].args)
        } else {
            Vec::new()
        }
    }

    /// Whether instruction `i` has `x` among its operands.
    pub fn uses(&self, i: Inst, x: Inst) -> (r: bool)
        ensures
            r == self@.args(i).contains(x),
    {
        if i.0 < self.insts.len() {
            has_inst(&self.insts[i.0].args, x)
        } else {
            false
        }
    }

    pub fn ty(&self, i: Inst) -> (r: Type)
        ensures
            r == self@.ty(i),
    {
        if i.0 < self.insts.len() {
            self.insts[i.0].ty.clone()
        } else {
            Type::Unit
        }
    }

    pub fn is_i32(&self, i: Inst) -> (r: bool)
        ensures
            r == (self@.ty(i) is I32),
    {
        if i.0 < self.insts.len() {
            self.insts[i.0].ty.is_i32()
        } else {
            false
        }
    }

    /// Whether two values have the same type.
    pub fn same_ty(&self, a: Inst, b: Inst) -> (r: bool)
        ensures
            r == (self@.ty(a) == self@.ty(b)),
    {
        self.ty(a).same(&self.ty(b))
    }

    pub fn is_global(&self, i: Inst) -> (r: bool)
        ensures
            r == self@.inst(i).global,
    {
        if i.0 < self.insts.len() {
            self.insts[i.0].global
        } else {
            false
        }
    }

    pub fn name(&self, i: Inst) -> (r: Option<String>)
        ensures
            match r {
                Some(s) => self@.inst(i).name == Some(s@),
                None => self@.inst(i).name is None,
            },
    {
        if i.0 < self.insts.len() {
            match &self.insts[i.0].name {
                Some(s) => Some(s.clone()),
                None => None,
            }
        } else {
            None
        }
    }

    /// Whether `i` names an instruction that was not removed.
    pub fn has_inst_data(&self, i: Inst) -> (r: bool)
        ensures
            r == !(self@.op(i) is Removed),
    {
        !matches!(self.op(i), Op::Removed)
    }

    pub fn block_name(&self, b: BasicBlock) -> (r: String)
        ensures
            r@ == self@.block(b).name,
    {
        if b.0 < self.blocks.len() {
            self.blocks[b.0].name.clone()
        } else {
            String::new()
        }
    }

    pub fn block_params(&self, b: BasicBlock) -> (r: Vec<Inst>)
        ensures
            r@ == self@.block(b).params,
    {
        if b.0 < self.blocks.len() {
            copy_vec(&self.blocks[b.0].params)
        } else {
            Vec::new()
        }
    }

    pub fn block_insts(&self, b: BasicBlock) -> (r: Vec<Inst>)
        ensures
            r@ == self@.block(b).insts,
    {
        if b.0 < self.blocks.len() {
            copy_vec(&self.blocks[b.0].insts)
        } else {
            Vec::new()
        }
    }

    pub fn terminator(&self, b: BasicBlock) -> (r: Inst)
        ensures
            r == self@.terminator(b),
    {
        if b.0 < self.blocks.len() && self.blocks[b.0].insts.len() > 0 {
            let n: usize = self.blocks[b.0].insts.len();
            self.blocks[b.0].insts[n - 1]
        } else {
            Inst(usize::MAX)
        }
    }

    /// The blocks of `f` in layout order.
    pub fn basicblocks(&self, f: Function) -> (r: Vec<BasicBlock>)
        ensures
            r@ == self@.func(f).blocks,
    {
        if f.0 < self.funcs.len() {
            copy_vec(&self.funcs[f.0].blocks)
        } else {
            Vec::new()
        }
    }

    pub fn params(&self, f: Function) -> (r: Vec<Inst>)
        ensures
            r@ == self@.func(f).params,
    {
        if f.0 < self.funcs.len() {
            copy_vec(&self.funcs[f.0].params)
        } else {
            Vec::new()
        }
    }

    pub fn num_params(&self, f: Function) -> (r: usize)
        ensures
            r == self@.func(f).param_tys.len(),
    {
        if f.0 < self.funcs.len() {
            self.funcs[f.0].param_tys.len()
        } else {
            0
        }
    }

    /// The type of parameter `k` of `f`.
    pub fn param_ty(&self, f: Function, k: usize) -> (r: Type)
        requires
            k < self@.func(f).param_tys.len(),
        ensures
            r == self@.func(f).param_tys[k as int],
    {
        self.funcs[f.0].param_tys[k].clone()
    }

    pub fn ret_ty(&self, f: Function) -> (r: Type)
        ensures
            r == self@.func(f).ret_ty,
    {
        if f.0 < self.funcs.len() {
            self.funcs[f.0].ret_ty.clone()
        } else {
            Type::Unit
        }
    }

    pub fn func_name(&self, f: Function) -> (r: String)
        ensures
            r@ == self@.func(f).name,
    {
        if f.0 < self.funcs.len() {
            self.funcs[f.0].name.clone()
        } else {
            String::new()
        }
    }

    /// A function without blocks is only declared.
    pub fn is_decl(&self, f: Function) -> (r: bool)
        ensures
            r == (self@.func(f).blocks.len() == 0),
    {
        if f.0 < self.funcs.len() {
            self.funcs[f.0].blocks.len() == 0
        } else {
            true
        }
    }

    pub fn function_layout(&self) -> (r: Vec<Function>)
        ensures
            r@ == self@.layout,
    {
        copy_vec(&self.layout)
    }

    pub fn global_inst_layout(&self) -> (r: Vec<Inst>)
        ensures
            r@ == self@.globals,
    {
        copy_vec(&self.globals)
    }

    /// Arguments passed on the true edge of branch `i`.
    pub fn t_args(&self, i: Inst) -> (r: Vec<Inst>)
        ensures
            r@ == self@.t_args(i),
    {
        match self.op(i) {
            Op::Branch(_, _, n) => {
                let a = self.args(i);
                if n < a.len() {
                    sliced(&a, 1, n + 1)
                } else {
                    Vec::new()
                }
            },
            _ => Vec::new(),
        }
    }

    /// Arguments passed on the false edge of branch `i`.
    pub fn f_args(&self, i: Inst) -> (r: Vec<Inst>)
        ensures
            r@ == self@.f_args(i),
    {
        match self.op(i) {
            Op::Branch(_, _, n) => {
                let a = self.args(i);
                if n < a.len() {
                    sliced(&a, n + 1, a.len())
                } else {
                    Vec::new()
                }
            },
            _ => Vec::new(),
        }
    }

    /// The block of `f` in which `i` stands.
    pub fn parent_bb(&self, f: Function, i: Inst) -> (r: Option<BasicBlock>)
        ensures
            r == self@.parent_bb(f, i),
    {
        let blocks = self.basicblocks(f);
        let mut k: usize = 0;
        while k < blocks.len()
            invariant
                k <= blocks@.len(),
                blocks@ == self@.func(f).blocks,
                self@.parent_bb(f, i) == self@.parent_from(f, i, k as int),
            decreases blocks@.len() - k,
        {
            let insts = self.block_insts(blocks[k]);
            if has_inst(&insts, i) {
                return Some(blocks[k]);
            }
            k += 1;
        }
        None
    }

    /// The instructions of `f` in layout order.
    pub fn placed_insts(&self, f: Function) -> (r: Vec<Inst>)
        ensures
            r@ == self@.placed(f),
    {
        let blocks = self.basicblocks(f);
        let mut r: Vec<Inst> = Vec::new();
        let mut k: usize = 0;
        while k < blocks.len()
            invariant
                k <= blocks@.len(),
                blocks@ == self@.func(f).blocks,
                self@.placed(f) == self@.placed_from(f, k as int, r@),
            decreases blocks@.len() - k,
        {
            let insts = self.block_insts(blocks[k]);
            r = crate::ir::joined(&r, &insts);
            k += 1;
        }
        r
    }

    /// The instructions that use `i`, in arena order.
    pub fn users(&self, i: Inst) -> (r: Vec<Inst>)
        ensures
            r@ == self@.users(i),
    {
        let mut r: Vec<Inst> = Vec::new();
        let mut k: usize = 0;
        while k < self.insts.len()
            invariant
                k <= self@.insts.len(),
                self@.insts.len() == self.insts@.len(),
                self@.users(i) == self@.users_from(i, k as int, r@),
            decreases self.insts@.len() - k,
        {
            if has_inst(&self.insts[k].args, i) {
                r.push(Inst(k));
            }
            k += 1;
        }
        r
    }

    /// The control transfers to block `b`, in arena order.
    pub fn block_users(&self, b: BasicBlock) -> (r: Vec<Inst>)
        ensures
            r@ == self@.block_users(b),
    {
        let mut r: Vec<Inst> = Vec::new();
        let mut k: usize = 0;
        while k < self.insts.len()
            invariant
                k <= self@.insts.len(),
                self@.insts.len() == self.insts@.len(),
                self@.block_users(b) == self@.block_users_from(b, k as int, r@),
            decreases self.insts@.len() - k,
        {
            let hit = match self.insts[k].op {
                Op::Branch(t, f, _) => t == b || f == b,
                Op::Jump(t) => t == b,
                _ => false,
            };
            assert(hit == self@.insts[k as int].targets(b));
            if hit {
                r.push(Inst(k));
            }
            k += 1;
        }
        r
    }

    /// Whether any instruction uses `i`.
    pub fn is_used(&self, i: Inst) -> (r: bool)
        ensures
            r == self@.is_used(i),
    {
        let mut k: usize = 0;
        while k < self.insts.len()
            invariant
                k <= self.insts@.len(),
                self@.insts.len() == self.insts@.len(),
                forall|u: int| 0 <= u < k ==> !(#[trigger] self@.insts[u]).args.contains(i),
            decreases self.insts@.len() - k,
        {
            if has_inst(&self.insts[k].args, i) {
                assert(self@.insts[k as int].args.contains(i));
                return true;
            }
            assert(!self@.insts[k as int].args.contains(i));
            k += 1;
        }
        false
    }

    /// Adds an instruction that stands in no block.
    pub fn push_inst(&mut self, op: Op, args: Vec<Inst>, ty: Type, global: bool) -> (r: Inst)
        ensures
            final(self)@ == old(self)@.push_inst(op, args@, ty, global),
            r == old(self)@.next_inst(),
            r.0 == old(self)@.insts.len(),
    {
        let r = Inst(self.insts.len());
        let ghost before = self@;
        self.insts.push(InstData { op, args, ty, global, name: None });
        proof {
            reveal(ProgramV::push_inst);
            assert(self@ =~= before.push_inst(op, args@, ty, global));
        }
        r
    }

    /// Makes instruction `i` anew in place. Its name is dropped.
    pub fn set_inst(&mut self, i: Inst, op: Op, args: Vec<Inst>, ty: Type)
        ensures
            final(self)@ == old(self)@.set_inst(i, op, args@, ty),
    {
        let ghost before = self@;
        if i.0 < self.insts.len() {
            let global = self.insts[i.0].global;
            self.insts.set(i.0, InstData { op, args, ty, global, name: None });
        }
        proof {
            reveal(ProgramV::set_inst);
            assert(self@ =~= before.set_inst(i, op, args@, ty));
        }
    }

    /// Empties instruction `i`.
    pub fn erase(&mut self, i: Inst)
        ensures
            final(self)@ == old(self)@.erase(i),
    {
        let none: Vec<Inst> = Vec::new();
        assert(none@ =~= Seq::empty());
        self.set_inst(i, Op::Removed, none, Type::Unit);
    }

    pub fn set_name(&mut self, i: Inst, name: Option<String>)
        ensures
            final(self)@ == old(self)@.set_name(
                i,
                match name {
                    Some(s) => Some(s@),
                    None => None,
                },
            ),
    {
        let ghost before = self@;
        let ghost given = name;
        if i.0 < self.insts.len() {
            let d = InstData {
                op: self.insts[i.0].op,
                args: copy_vec(&self.insts[i.0].args),
                ty: self.insts[i.0].ty.clone(),
                global: self.insts[i.0].global,
                name,
            };
            self.insts.set(i.0, d);
        }
        proof {
            reveal(ProgramV::set_name);
            assert(self@ =~= before.set_name(
                i,
                match given {
                    Some(s) => Some(s@),
                    None => None,
                },
            ));
        }
    }

    fn set_block_insts(&mut self, b: BasicBlock, insts: Vec<Inst>)
        ensures
            final(self)@ == old(self)@.set_block_insts(b, insts@),
    {
        let ghost before = self@;
        if b.0 < self.blocks.len() {
            let d = BlockData {
                name: self.blocks[b.0].name.clone(),
                params: copy_vec(&self.blocks[b.0].params),
                insts,
            };
            self.blocks.set(b.0, d);
        }
        proof {
            reveal(ProgramV::set_block_insts);
            assert(self@ =~= before.set_block_insts(b, insts@));
        }
    }

    pub fn set_block_params(&mut self, b: BasicBlock, params: Vec<Inst>)
        ensures
            final(self)@ == old(self)@.set_block_params(b, params@),
    {
        let ghost before = self@;
        if b.0 < self.blocks.len() {
            let d = BlockData {
                name: self.blocks[b.0].name.clone(),
                params,
                insts: copy_vec(&self.blocks[b.0].insts),
            };
            self.blocks.set(b.0, d);
        }
        proof {
            reveal(ProgramV::set_block_params);
            assert(self@ =~= before.set_block_params(b, params@));
        }
    }

    fn set_func_blocks(&mut self, f: Function, blocks: Vec<BasicBlock>)
        ensures
            final(self)@ == old(self)@.set_func_blocks(f, blocks@),
    {
        let ghost before = self@;
        if f.0 < self.funcs.len() {
            let mut param_tys: Vec<Type> = Vec::new();
            let mut k: usize = 0;
            while k < self.funcs[f.0].param_tys.len()
                invariant
                    f.0 < self.funcs@.len(),
                    k <= self.funcs@[f.0 as int].param_tys@.len(),
                    param_tys@ == self.funcs@[f.0 as int].param_tys@.take(k as int),
                decreases self.funcs@[f.0 as int].param_tys@.len() - k,
            {
                param_tys.push(self.funcs[f.0].param_tys[k].clone());
                assert(self.funcs@[f.0 as int].param_tys@.take(k + 1) =~= self.funcs@[f.0 as int].param_tys@.take(
                    k as int,
                ).push(self.funcs@[f.0 as int].param_tys@[k as int]));
                k += 1;
            }
            assert(param_tys@ =~= self.funcs@[f.0 as int].param_tys@);
            let d = FuncData {
                name: self.funcs[f.0].name.clone(),
                ret_ty: self.funcs[f.0].ret_ty.clone(),
                param_tys,
                params: copy_vec(&self.funcs[f.0].params),
                blocks,
            };
            self.funcs.set(f.0, d);
        }
        proof {
            reveal(ProgramV::set_func_blocks);
            assert(self@ =~= before.set_func_blocks(f, blocks@));
        }
    }

    /// Puts `i` at the end of block `b`.
    pub fn insert_inst(&mut self, b: BasicBlock, i: Inst)
        ensures
            final(self)@ == old(self)@.append(b, i),
    {
        let mut insts = self.block_insts(b);
        insts.push(i);
        self.set_block_insts(b, insts);
    }

    /// Puts `i` right before the first `anchor` in block `b`.
    pub fn insert_inst_before(&mut self, b: BasicBlock, anchor: Inst, i: Inst)
        ensures
            final(self)@ == old(self)@.set_block_insts(b, before(old(self)@.block(b).insts, anchor, i)),
    {
        let mut insts = self.block_insts(b);
        let k = inst_position(&insts, anchor);
        if k < insts.len() {
            insts.insert(k, i);
        } else {
            insts.push(i);
        }
        self.set_block_insts(b, insts);
    }

    /// Takes `i` out of block `b`; it keeps its data.
    pub fn detach_layout_inst(&mut self, b: BasicBlock, i: Inst)
        ensures
            final(self)@ == old(self)@.detach(b, i),
    {
        let mut insts = self.block_insts(b);
        let k = inst_position(&insts, i);
        if k < insts.len() {
            insts.remove(k);
        }
        self.set_block_insts(b, insts);
    }

    /// Takes `i` out of block `b` and empties it.
    pub fn remove_layout_inst(&mut self, b: BasicBlock, i: Inst)
        ensures
            final(self)@ == old(self)@.remove(b, i),
    {
        self.detach_layout_inst(b, i);
        self.erase(i);
    }

    /// Empties the given instructions.
    pub fn erase_all(&mut self, insts: &Vec<Inst>)
        ensures
            final(self)@ == old(self)@.erase_all(insts@, 0),
    {
        let mut k: usize = 0;
        while k < insts.len()
            invariant
                k <= insts@.len(),
                old(self)@.erase_all(insts@, 0) == self@.erase_all(insts@, k as int),
            decreases insts@.len() - k,
        {
            self.erase(insts[k]);
            k += 1;
        }
    }

    /// Takes the given instructions out of block `b` and empties them.
    pub fn remove_all(&mut self, b: BasicBlock, insts: &Vec<Inst>)
        ensures
            final(self)@ == old(self)@.remove_all(b, insts@, 0),
    {
        let mut k: usize = 0;
        while k < insts.len()
            invariant
                k <= insts@.len(),
                old(self)@.remove_all(b, insts@, 0) == self@.remove_all(b, insts@, k as int),
            decreases insts@.len() - k,
        {
            self.remove_layout_inst(b, insts[k]);
            k += 1;
        }
    }

    /// Takes block `b` out of `f` and empties its instructions.
    pub fn remove_layout_basicblock(&mut self, f: Function, b: BasicBlock)
        ensures
            final(self)@ == old(self)@.remove_block(f, b),
    {
        let insts = self.block_insts(b);
        self.detach_block(f, b);
        self.erase_all(&insts);
    }

    /// Replaces the instructions of block `b`.
    pub fn replace_block_insts(&mut self, b: BasicBlock, insts: Vec<Inst>)
        ensures
            final(self)@ == old(self)@.set_block_insts(b, insts@),
    {
        self.set_block_insts(b, insts);
    }

    /// Makes every use of `old_value` a use of `new_value`.
    pub fn replace_uses(&mut self, old_value: Inst, new_value: Inst)
        ensures
            final(self)@ == old(self)@.replace_uses(old_value, new_value),
    {
        let ghost start = *self;
        let mut k: usize = 0;
        while k < self.insts.len()
            invariant
                k <= self.insts@.len(),
                self.insts@.len() == start.insts@.len(),
                self.blocks == start.blocks,
                self.funcs == start.funcs,
                self.layout == start.layout,
                self.globals == start.globals,
                forall|j: int|
                    0 <= j < k ==> inst_view(#[trigger] self.insts@[j]) == inst_view(start.insts@[j]).replaced(
                        old_value,
                        new_value,
                    ),
                forall|j: int| k <= j < start.insts@.len() ==> #[trigger] self.insts@[j] == start.insts@[j],
            decreases self.insts@.len() - k,
        {
            replace_in(&mut self.insts[k], old_value, new_value);
            k += 1;
        }
        proof {
            reveal(ProgramV::replace_uses);
            assert(self@ =~= start@.replace_uses(old_value, new_value));
        }
    }

    fn push_block(&mut self, name: String) -> (r: BasicBlock)
        ensures
            final(self)@ == old(self)@.push_block(name@),
            r == old(self)@.next_block(),
            r.0 == old(self)@.blocks.len(),
    {
        let ghost before = self@;
        let r = BasicBlock(self.blocks.len());
        self.blocks.push(BlockData { name, params: Vec::new(), insts: Vec::new() });
        proof {
            reveal(ProgramV::push_block);
            assert(self@ =~= before.push_block(name@));
        }
        r
    }

    /// Adds a parameter to block `b`.
    pub fn add_param(&mut self, b: BasicBlock, ty: Type) -> (r: Inst)
        ensures
            final(self)@ == old(self)@.add_param(b, ty),
            r == old(self)@.next_inst(),
    {
        let none: Vec<Inst> = Vec::new();
        assert(none@ =~= Seq::empty());
        let r = self.push_inst(Op::BlockArgRef, none, ty, false);
        let mut params = self.block_params(b);
        params.push(r);
        self.set_block_params(b, params);
        r
    }

    /// Makes a block with parameters of the given types. It is not placed in a function yet.
    pub fn basic_block(&mut self, name: String, tys: Vec<Type>) -> (r: BasicBlock)
        ensures
            final(self)@ == old(self)@.basic_block(name@, tys@),
            r == old(self)@.next_block(),
            r.0 == old(self)@.blocks.len(),
    {
        let r = self.push_block(name);
        let mut k: usize = 0;
        while k < tys.len()
            invariant
                k <= tys@.len(),
                old(self)@.basic_block(name@, tys@) == self@.add_params(r, tys@, k as int),
            decreases tys@.len() - k,
        {
            self.add_param(r, tys[k].clone());
            k += 1;
        }
        r
    }

    /// Puts block `b` at the end of `f`.
    pub fn push_bb_back(&mut self, f: Function, b: BasicBlock)
        ensures
            final(self)@ == old(self)@.push_bb_back(f, b),
    {
        let mut blocks = self.basicblocks(f);
        blocks.push(b);
        self.set_func_blocks(f, blocks);
    }

    /// Puts block `b` right behind `anchor` in `f`.
    pub fn insert_bb_after(&mut self, f: Function, anchor: BasicBlock, b: BasicBlock)
        ensures
            final(self)@ == old(self)@.insert_bb_after(f, anchor, b),
    {
        let mut blocks = self.basicblocks(f);
        let k = block_position(&blocks, anchor);
        if k < blocks.len() {
            blocks.insert(k + 1, b);
        } else {
            blocks.push(b);
        }
        self.set_func_blocks(f, blocks);
    }

    /// Takes block `b` out of `f`.
    pub fn detach_block(&mut self, f: Function, b: BasicBlock)
        ensures
            final(self)@ == old(self)@.detach_block(f, b),
    {
        let mut blocks = self.basicblocks(f);
        let k = block_position(&blocks, b);
        if k < blocks.len() {
            blocks.remove(k);
        }
        self.set_func_blocks(f, blocks);
    }

    /// Replaces the order of functions.
    pub fn set_layout(&mut self, layout: Vec<Function>)
        ensures
            final(self)@ == (ProgramV { layout: layout@, ..old(self)@ }),
    {
        let ghost before = self@;
        self.layout = layout;
        assert(self@ =~= (ProgramV { layout: layout@, ..before }));
    }

    /// Declares a function.
    pub fn new_function(&mut self, ret_ty: Type, name: String, param_tys: Vec<Type>) -> (r: Function)
        ensures
            r.0 == old(self)@.funcs.len(),
            final(self)@ == (ProgramV {
                funcs: old(self)@.funcs.push(
                    FuncV { name: name@, ret_ty, param_tys: param_tys@, params: Seq::empty(), blocks: Seq::empty() },
                ),
                layout: old(self)@.layout.push(r),
                ..old(self)@
            }),
    {
        let ghost before = self@;
        let r = Function(self.funcs.len());
        self.funcs.push(FuncData { name, ret_ty, param_tys, params: Vec::new(), blocks: Vec::new() });
        self.layout.push(r);
        assert(self@ =~= (ProgramV {
            funcs: before.funcs.push(
                FuncV { name: name@, ret_ty, param_tys: param_tys@, params: Seq::empty(), blocks: Seq::empty() },
            ),
            layout: before.layout.push(r),
            ..before
        }));
        r
    }

    fn set_func_params(&mut self, f: Function, params: Vec<Inst>)
        ensures
            final(self)@ == old(self)@.set_func_params(f, params@),
    {
        let ghost start = *self;
        if f.0 < self.funcs.len() {
            let d = &mut self.funcs[f.0];
            d.params = params;
        }
        proof {
            reveal(ProgramV::set_func_params);
            assert(self@ =~= start@.set_func_params(f, params@));
        }
    }

    /// Gives `f` its entry block, whose parameters are those of the function.
    pub fn add_entry_block(&mut self, f: Function) -> (r: BasicBlock)
        ensures
            r == old(self)@.next_block(),
            ({
                let made = old(self)@.basic_block("entry"@, old(self)@.func(f).param_tys);
                final(self)@ == made.set_func_params(f, made.block(r).params).push_bb_back(f, r)
            }),
    {
        let mut tys: Vec<Type> = Vec::new();
        let n = self.num_params(f);
        let mut k: usize = 0;
        while k < n
            invariant
                k <= n,
                n == self@.func(f).param_tys.len(),
                tys@ == self@.func(f).param_tys.take(k as int),
            decreases n - k,
        {
            tys.push(self.param_ty(f, k));
            assert(self@.func(f).param_tys.take(k + 1) =~= self@.func(f).param_tys.take(k as int).push(
                self@.func(f).param_tys[k as int],
            ));
            k += 1;
        }
        assert(tys@ =~= self@.func(f).param_tys);
        let r = self.basic_block("entry".to_owned(), tys);
        let params = self.block_params(r);
        self.set_func_params(f, params);
        self.push_bb_back(f, r);
        r
    }

    pub fn integer(&mut self, v: i32) -> (r: Inst)
        ensures
            final(self)@ == old(self)@.push_inst(Op::Integer(v), Seq::empty(), Type::I32, false),
            r == old(self)@.next_inst(),
            r.0 == old(self)@.insts.len(),
    {
        let none: Vec<Inst> = Vec::new();
        assert(none@ =~= Seq::empty());
        self.push_inst(Op::Integer(v), none, Type::I32, false)
    }

    /// A float literal, given by its bits.
    pub fn float_bits(&mut self, bits: u32) -> (r: Inst)
        ensures
            final(self)@ == old(self)@.push_inst(Op::Float(bits), Seq::empty(), Type::F32, false),
            r == old(self)@.next_inst(),
    {
        let none: Vec<Inst> = Vec::new();
        assert(none@ =~= Seq::empty());
        self.push_inst(Op::Float(bits), none, Type::F32, false)
    }

    pub fn binary(&mut self, op: BinaryOp, lhs: Inst, rhs: Inst) -> (r: Inst)
        ensures
            final(self)@ == old(self)@.push_inst(
                Op::Binary(op),
                seq![lhs, rhs],
                old(self)@.binary_ty(op, lhs),
                false,
            ),
            r == old(self)@.next_inst(),
            r.0 == old(self)@.insts.len(),
    {
        let ty = if op.is_compare() {
            Type::I32
        } else {
            self.ty(lhs)
        };
        let args = vec![lhs, rhs];
        assert(args@ =~= seq![lhs, rhs]);
        self.push_inst(Op::Binary(op), args, ty, false)
    }

    pub fn jump(&mut self, target: BasicBlock, args: Vec<Inst>) -> (r: Inst)
        ensures
            final(self)@ == old(self)@.push_inst(Op::Jump(target), args@, Type::Unit, false),
            r == old(self)@.next_inst(),
            r.0 == old(self)@.insts.len(),
    {
        self.push_inst(Op::Jump(target), args, Type::Unit, false)
    }

    pub fn branch(&mut self, cond: Inst, t: BasicBlock, t_args: Vec<Inst>, f: BasicBlock, f_args: Vec<Inst>) -> (r: Inst)
        ensures
            final(self)@ == old(self)@.push_inst(
                Op::Branch(t, f, t_args@.len() as usize),
                seq![cond] + t_args@ + f_args@,
                Type::Unit,
                false,
            ),
            r == old(self)@.next_inst(),
            r.0 == old(self)@.insts.len(),
    {
        let n = t_args.len();
        let args = branch_args(cond, &t_args, &f_args);
        self.push_inst(Op::Branch(t, f, n), args, Type::Unit, false)
    }

    pub fn ret(&mut self, value: Option<Inst>) -> (r: Inst)
        ensures
            final(self)@ == old(self)@.push_inst(
                Op::Return,
                match value {
                    Some(v) => seq![v],
                    None => Seq::empty(),
                },
                Type::Unit,
                false,
            ),
            r == old(self)@.next_inst(),
    {
        let mut args: Vec<Inst> = Vec::new();
        if let Some(v) = value {
            args.push(v);
            assert(args@ =~= seq![v]);
        } else {
            assert(args@ =~= Seq::empty());
        }
        self.push_inst(Op::Return, args, Type::Unit, false)
    }

    pub fn call_with_type(&mut self, callee: Function, args: Vec<Inst>, ty: Type) -> (r: Inst)
        ensures
            final(self)@ == old(self)@.push_inst(Op::Call(callee), args@, ty, false),
            r == old(self)@.next_inst(),
    {
        self.push_inst(Op::Call(callee), args, ty, false)
    }

    pub fn call(&mut self, callee: Function, args: Vec<Inst>) -> (r: Inst)
        ensures
            final(self)@ == old(self)@.push_inst(Op::Call(callee), args@, old(self)@.func(callee).ret_ty, false),
            r == old(self)@.next_inst(),
    {
        let ty = self.ret_ty(callee);
        self.push_inst(Op::Call(callee), args, ty, false)
    }

    pub fn tail_call(&mut self, callee: Function, args: Vec<Inst>) -> (r: Inst)
        ensures
            final(self)@ == old(self)@.push_inst(Op::TailCall(callee), args@, Type::Unit, false),
            r == old(self)@.next_inst(),
    {
        self.push_inst(Op::TailCall(callee), args, Type::Unit, false)
    }

    pub fn alloc_local(&mut self, ty: Type) -> (r: Inst)
        ensures
            final(self)@ == old(self)@.push_inst(Op::Alloc, Seq::empty(), Type::Pointer(Box::new(ty)), false),
            r == old(self)@.next_inst(),
    {
        let none: Vec<Inst> = Vec::new();
        assert(none@ =~= Seq::empty());
        self.push_inst(Op::Alloc, none, Type::get_pointer(ty), false)
    }

    pub fn load(&mut self, src: Inst) -> (r: Inst)
        ensures
            final(self)@ == old(self)@.push_inst(Op::Load, seq![src], old(self)@.ty(src).pointee(), false),
            r == old(self)@.next_inst(),
    {
        let ty = self.ty(src).dereference();
        let args = vec![src];
        assert(args@ =~= seq![src]);
        self.push_inst(Op::Load, args, ty, false)
    }

    pub fn store(&mut self, src: Inst, dest: Inst) -> (r: Inst)
        ensures
            final(self)@ == old(self)@.push_inst(Op::Store, seq![src, dest], Type::Unit, false),
            r == old(self)@.next_inst(),
    {
        let args = vec![src, dest];
        assert(args@ =~= seq![src, dest]);
        self.push_inst(Op::Store, args, Type::Unit, false)
    }

    pub fn mem_zero(&mut self, dest: Inst, len: usize) -> (r: Inst)
        ensures
            final(self)@ == old(self)@.push_inst(Op::MemZero(len), seq![dest], Type::Unit, false),
            r == old(self)@.next_inst(),
    {
        let args = vec![dest];
        assert(args@ =~= seq![dest]);
        self.push_inst(Op::MemZero(len), args, Type::Unit, false)
    }

    pub fn get_elem_ptr(&mut self, base: Inst, offsets: Vec<Inst>) -> (r: Inst)
        ensures
            final(self)@ == old(self)@.push_inst(
                Op::GetElemPtr,
                seq![base] + offsets@,
                old(self)@.gep_ty(base, offsets@.len() as int),
                false,
            ),
            r == old(self)@.next_inst(),
            r.0 == old(self)@.insts.len(),
    {
        let depth: usize = if offsets.len() > 0 {
            offsets.len() - 1
        } else {
            0
        };
        let ty = Type::get_pointer(self.ty(base).dereference().element(depth));
        let args = prepended(base, &offsets);
        self.push_inst(Op::GetElemPtr, args, ty, false)
    }

    pub fn cast(&mut self, src: Inst, ty: Type) -> (r: Inst)
        ensures
            final(self)@ == old(self)@.push_inst(Op::Cast, seq![src], ty, false),
            r == old(self)@.next_inst(),
    {
        let args = vec![src];
        assert(args@ =~= seq![src]);
        self.push_inst(Op::Cast, args, ty, false)
    }

    pub fn select(&mut self, cond: Inst, t: Inst, f: Inst) -> (r: Inst)
        ensures
            final(self)@ == old(self)@.push_inst(Op::Select, seq![cond, t, f], old(self)@.ty(t), false),
            r == old(self)@.next_inst(),
            r.0 == old(self)@.insts.len(),
    {
        let ty = self.ty(t);
        let args = vec![cond, t, f];
        assert(args@ =~= seq![cond, t, f]);
        self.push_inst(Op::Select, args, ty, false)
    }

    pub fn undef(&mut self, ty: Type) -> (r: Inst)
        ensures
            final(self)@ == old(self)@.push_inst(Op::Undef, Seq::empty(), ty, false),
            r == old(self)@.next_inst(),
    {
        let none: Vec<Inst> = Vec::new();
        assert(none@ =~= Seq::empty());
        self.push_inst(Op::Undef, none, ty, false)
    }

    /// A global value that is all zeros.
    pub fn zero_init(&mut self, ty: Type) -> (r: Inst)
        ensures
            final(self)@ == old(self)@.push_inst(Op::ZeroInit, Seq::empty(), ty, true),
            r == old(self)@.next_inst(),
    {
        let none: Vec<Inst> = Vec::new();
        assert(none@ =~= Seq::empty());
        self.push_inst(Op::ZeroInit, none, ty, true)
    }

    pub fn global_integer(&mut self, v: i32) -> (r: Inst)
        ensures
            final(self)@ == old(self)@.push_inst(Op::Integer(v), Seq::empty(), Type::I32, true),
            r == old(self)@.next_inst(),
    {
        let none: Vec<Inst> = Vec::new();
        assert(none@ =~= Seq::empty());
        self.push_inst(Op::Integer(v), none, Type::I32, true)
    }

    /// A global value made of parts that share the type of the first one.
    pub fn aggregate(&mut self, parts: Vec<Inst>) -> (r: Inst)
        ensures
            final(self)@ == old(self)@.push_inst(
                Op::Aggregate,
                parts@,
                Type::Array(
                    Box::new(old(self)@.ty(if parts@.len() > 0 { parts@[0] } else { nothing() })),
                    parts@.len() as usize,
                ),
                true,
            ),
            r == old(self)@.next_inst(),
    {
        let first = if parts.len() > 0 {
            parts[0]
        } else {
            Inst(usize::MAX)
        };
        let ty = Type::get_array(self.ty(first), parts.len());
        self.push_inst(Op::Aggregate, parts, ty, true)
    }

    /// A global variable with an initial value.
    pub fn global_alloc(&mut self, init: Inst) -> (r: Inst)
        ensures
            ({
                let made = old(self)@.push_inst(
                    Op::GlobalAlloc,
                    seq![init],
                    Type::Pointer(Box::new(old(self)@.ty(init))),
                    true,
                );
                final(self)@ == (ProgramV { globals: made.globals.push(r), ..made })
            }),
            r == old(self)@.next_inst(),
    {
        let ty = Type::get_pointer(self.ty(init));
        let args = vec![init];
        assert(args@ =~= seq![init]);
        let r = self.push_inst(Op::GlobalAlloc, args, ty, true);
        let ghost made = self@;
        self.globals.push(r);
        assert(self@ =~= (ProgramV { globals: made.globals.push(r), ..made }));
        r
    }
}

/// The operand list of a branch.
pub fn branch_args(cond: Inst, t_args: &Vec<Inst>, f_args: &Vec<Inst>) -> (r: Vec<Inst>)
    ensures
        r@ == seq![cond] + t_args@ + f_args@,
{
    let head = prepended(cond, t_args);
    crate::ir::joined(&head, f_args)
}

/// `first` followed by `rest`.
pub fn prepended(first: Inst, rest: &Vec<Inst>) -> (r: Vec<Inst>)
    ensures
        r@ == seq![first] + rest@,
{
    let head = vec![first];
    assert(head@ =~= seq![first]);
    crate::ir::joined(&head, rest)
}

} // verus!
