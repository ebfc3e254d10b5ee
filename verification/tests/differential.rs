//! Programs compute the same before and after the passes.

use std::collections::HashMap;

use raana_opt::blocked_reduction::BlockedReduction;
use raana_opt::boolean_simplify::BooleanSimplification;
use raana_opt::chain_to_switch::ChainToSwitch;
use raana_opt::column_major::ColumnMajor;
use raana_opt::const_prop::SparseConditionConstantPropagation;
use raana_opt::dce::{
    DeadCodeElimination, DeadFunctionElimination, DeadPhiElimination, UnreachableBasicBlock,
};
use raana_opt::dse::DSE;
use raana_opt::guard_elimination::GuardElimination;
use raana_opt::gvn::GlobalInstNumbering;
use raana_opt::gvn_pre::GVNPRE;
use raana_opt::if_conversion::IfConversion;
use raana_opt::inline::Inline;
use raana_opt::invariant_reduction_hoisting::InvariantReductionHoisting;
use raana_opt::ipsccp::IPSCCP;
use raana_opt::ir::{BasicBlock, BinaryOp, Function, Inst, Op, Type};
use raana_opt::program::Program;

#[derive(Clone, Copy, Debug, PartialEq, Eq)]
enum Value {
    Int(i32),
    Address(usize, i64),
}

/// Runs a program on integers and addresses of memory objects.
struct Machine<'a> {
    program: &'a Program,
    memory: Vec<HashMap<i64, i32>>,
    globals: HashMap<usize, usize>,
    input: Vec<i32>,
    fuel: usize,
}

impl<'a> Machine<'a> {
    fn new(program: &'a Program, input: Vec<i32>) -> Machine<'a> {
        let mut machine = Machine {
            program,
            memory: Vec::new(),
            globals: HashMap::new(),
            input,
            fuel: 20_000,
        };
        for global in program.global_inst_layout() {
            let init = program.arg(global, 0);
            let mut cells = HashMap::new();
            machine.initialise(init, 0, &mut cells);
            machine.globals.insert(global.0, machine.memory.len());
            machine.memory.push(cells);
        }
        machine
    }

    fn initialise(&self, init: Inst, at: i64, cells: &mut HashMap<i64, i32>) {
        match self.program.op(init) {
            Op::Integer(v) => {
                cells.insert(at, v);
            }
            Op::Aggregate => {
                let mut place = at;
                for part in self.program.args(init) {
                    self.initialise(part, place, cells);
                    place += self.program.ty(part).size().unwrap_or(0) as i64;
                }
            }
            _ => {}
        }
    }

    fn value(&self, env: &HashMap<usize, Value>, i: Inst) -> Value {
        match self.program.op(i) {
            Op::Integer(v) => Value::Int(v),
            Op::GlobalAlloc => Value::Address(self.globals[&i.0], 0),
            Op::Undef | Op::ZeroInit => Value::Int(0),
            _ => *env.get(&i.0).unwrap_or_else(|| panic!("{i:?} has no value")),
        }
    }

    fn number(&self, env: &HashMap<usize, Value>, i: Inst) -> i32 {
        match self.value(env, i) {
            Value::Int(v) => v,
            other => panic!("{i:?} is {other:?}"),
        }
    }

    fn address(&self, env: &HashMap<usize, Value>, i: Inst) -> (usize, i64) {
        match self.value(env, i) {
            Value::Address(object, offset) => (object, offset),
            other => panic!("{i:?} is {other:?}"),
        }
    }

    fn values(&self, env: &HashMap<usize, Value>, args: &[Inst]) -> Vec<Value> {
        args.iter().map(|&a| self.value(env, a)).collect()
    }

    fn stepped(&self, env: &HashMap<usize, Value>, i: Inst) -> Value {
        let args = self.program.args(i);
        let (object, mut offset) = self.address(env, args[0]);
        let mut ty = match self.program.ty(args[0]) {
            Type::Pointer(t) => *t,
            other => panic!("{other:?} is no pointer"),
        };
        for (k, &index) in args[1..].iter().enumerate() {
            if k > 0 {
                ty = match ty {
                    Type::Array(t, _) => *t,
                    other => panic!("{other:?} is no array"),
                };
            }
            offset += self.number(env, index) as i64 * ty.size().unwrap_or(0) as i64;
        }
        Value::Address(object, offset)
    }

    fn call(&mut self, f: Function, args: Vec<Value>) -> Value {
        if self.program.is_decl(f) {
            return Value::Int(self.input.pop().expect("input"));
        }
        let blocks = self.program.basicblocks(f);
        let mut env: HashMap<usize, Value> = HashMap::new();
        let mut block = blocks[0];
        let mut passed = args;
        loop {
            let params = self.program.block_params(block);
            assert_eq!(params.len(), passed.len(), "arguments of {block:?}");
            for (param, value) in params.iter().zip(passed) {
                env.insert(param.0, value);
            }
            let mut next: Option<(BasicBlock, Vec<Value>)> = None;
            for i in self.program.block_insts(block) {
                assert!(self.fuel > 0, "out of fuel");
                self.fuel -= 1;
                let args = self.program.args(i);
                match self.program.op(i) {
                    Op::Binary(op) => {
                        let v = binary(op, self.number(&env, args[0]), self.number(&env, args[1]));
                        env.insert(i.0, Value::Int(v));
                    }
                    Op::Select => {
                        let chosen = if self.number(&env, args[0]) != 0 { args[1] } else { args[2] };
                        env.insert(i.0, self.value(&env, chosen));
                    }
                    Op::Alloc => {
                        env.insert(i.0, Value::Address(self.memory.len(), 0));
                        self.memory.push(HashMap::new());
                    }
                    Op::GetElemPtr => {
                        let address = self.stepped(&env, i);
                        env.insert(i.0, address);
                    }
                    Op::Load => {
                        let (object, offset) = self.address(&env, args[0]);
                        let v = *self.memory[object].get(&offset).unwrap_or(&0);
                        env.insert(i.0, Value::Int(v));
                    }
                    Op::Store => {
                        let (object, offset) = self.address(&env, args[1]);
                        let v = self.number(&env, args[0]);
                        self.memory[object].insert(offset, v);
                    }
                    Op::MemZero(len) => {
                        let (object, offset) = self.address(&env, args[0]);
                        self.memory[object].retain(|&at, _| at < offset || at >= offset + len as i64);
                    }
                    Op::Call(g) => {
                        let given = self.values(&env, &args);
                        let v = self.call(g, given);
                        env.insert(i.0, v);
                    }
                    Op::Jump(target) => next = Some((target, self.values(&env, &args))),
                    Op::Branch(t, e, _) => {
                        next = if self.number(&env, args[0]) != 0 {
                            Some((t, self.values(&env, &self.program.t_args(i))))
                        } else {
                            Some((e, self.values(&env, &self.program.f_args(i))))
                        };
                    }
                    Op::Return => {
                        return if args.is_empty() { Value::Int(0) } else { self.value(&env, args[0]) };
                    }
                    Op::Integer(_) => {}
                    other => panic!("cannot run {other:?}"),
                }
            }
            let (target, given) = next.unwrap_or_else(|| panic!("{block:?} does not end"));
            block = target;
            passed = given;
        }
    }
}

fn binary(op: BinaryOp, a: i32, b: i32) -> i32 {
    match op {
        BinaryOp::NotEq => (a != b) as i32,
        BinaryOp::Eq => (a == b) as i32,
        BinaryOp::Gt => (a > b) as i32,
        BinaryOp::Lt => (a < b) as i32,
        BinaryOp::Ge => (a >= b) as i32,
        BinaryOp::Le => (a <= b) as i32,
        BinaryOp::Add => a.wrapping_add(b),
        BinaryOp::Sub => a.wrapping_sub(b),
        BinaryOp::Mul => a.wrapping_mul(b),
        BinaryOp::Div => a.wrapping_div(b),
        BinaryOp::Rem => a.wrapping_rem(b),
        BinaryOp::And => a & b,
        BinaryOp::Or => a | b,
        BinaryOp::Xor => a ^ b,
        BinaryOp::Shl => a.wrapping_shl(b as u32),
        BinaryOp::Shr => (a as u32).wrapping_shr(b as u32) as i32,
        BinaryOp::Sar => a.wrapping_shr(b as u32),
        BinaryOp::Min => a.min(b),
        BinaryOp::Max => a.max(b),
    }
}

/// Small numbers in a fixed order.
struct Dice(u64);

impl Dice {
    fn roll(&mut self, sides: u64) -> u64 {
        self.0 = self.0.wrapping_mul(6364136223846793005).wrapping_add(1442695040888963407);
        (self.0 >> 33) % sides
    }
}

/// Builds a function statement by statement; variables are values that blocks pass on.
struct Builder<'a> {
    program: &'a mut Program,
    function: Function,
    block: BasicBlock,
    vars: Vec<Inst>,
    local: Inst,
    global: Inst,
    callees: Vec<Function>,
    memory: bool,
    dice: &'a mut Dice,
}

const OPS: [BinaryOp; 12] = [
    BinaryOp::Add,
    BinaryOp::Sub,
    BinaryOp::Mul,
    BinaryOp::And,
    BinaryOp::Or,
    BinaryOp::Xor,
    BinaryOp::Lt,
    BinaryOp::Eq,
    BinaryOp::NotEq,
    BinaryOp::Ge,
    BinaryOp::Gt,
    BinaryOp::Le,
];

impl<'a> Builder<'a> {
    fn put(&mut self, i: Inst) -> Inst {
        self.program.insert_inst(self.block, i);
        i
    }

    fn literal(&mut self, v: i32) -> Inst {
        self.program.integer(v)
    }

    fn pick(&mut self) -> Inst {
        if self.dice.roll(4) == 0 {
            let v = self.dice.roll(5) as i32 - 1;
            self.literal(v)
        } else {
            let k = self.dice.roll(self.vars.len() as u64) as usize;
            self.vars[k]
        }
    }

    fn assign(&mut self, v: Inst) {
        let k = self.dice.roll(self.vars.len() as u64) as usize;
        self.vars[k] = v;
    }

    fn condition(&mut self) -> Inst {
        let (a, b) = (self.pick(), self.pick());
        let op = OPS[6 + self.dice.roll(6) as usize];
        let c = self.program.binary(op, a, b);
        self.put(c)
    }

    fn fresh(&mut self, name: &str, params: usize) -> BasicBlock {
        let b = self.program.basic_block(name.into(), vec![Type::get_i32(); params]);
        self.program.push_bb_back(self.function, b);
        b
    }

    fn place(&mut self) -> Inst {
        let index = if self.dice.roll(3) == 0 {
            let mask = self.literal(3);
            let v = self.pick();
            let masked = self.program.binary(BinaryOp::And, v, mask);
            self.put(masked)
        } else {
            let k = self.dice.roll(4) as i32;
            self.literal(k)
        };
        let zero = self.literal(0);
        let address = if self.dice.roll(2) == 0 {
            self.program.get_elem_ptr(self.local, vec![zero, index])
        } else {
            let row = self.dice.roll(3) as i32;
            let row = self.literal(row);
            self.program.get_elem_ptr(self.global, vec![zero, row, index])
        };
        self.put(address)
    }

    fn statement(&mut self, depth: usize) {
        let kind = if self.memory && self.dice.roll(2) == 0 {
            3 + self.dice.roll(3)
        } else {
            self.dice.roll(if depth == 0 { 6 } else { 10 })
        };
        match kind {
            0..=2 => {
                let (a, b) = (self.pick(), self.pick());
                let op = OPS[self.dice.roll(12) as usize];
                let v = self.program.binary(op, a, b);
                self.put(v);
                self.assign(v);
            }
            3 => {
                let address = self.place();
                let load = self.program.load(address);
                self.put(load);
                self.assign(load);
            }
            4 if self.memory && self.dice.roll(3) == 0 => self.move_on(),
            4 => {
                let address = self.place();
                let v = self.pick();
                let store = self.program.store(v, address);
                self.put(store);
            }
            5 => {
                if let Some(&g) = self.callees.last() {
                    let args = vec![self.pick(), self.pick()];
                    let call = self.program.call(g, args);
                    self.put(call);
                    self.assign(call);
                }
            }
            6..=7 => self.branch(depth),
            8 => self.repeat(depth),
            _ => self.chain(),
        }
    }

    /// Hands a number from cell to cell, by loads and stores in turn.
    fn move_on(&mut self) {
        let mut v = self.pick();
        for _ in 0..1 + self.dice.roll(3) {
            let address = self.place();
            let store = self.program.store(v, address);
            self.put(store);
            v = self.program.load(address);
            self.put(v);
        }
        self.assign(v);
    }

    fn branch(&mut self, depth: usize) {
        let cond = self.condition();
        let n = self.vars.len();
        let then = self.fresh("then", 0);
        let merge = self.fresh("merge", n);
        let saved = self.vars.clone();
        if self.dice.roll(2) == 0 {
            let other = self.fresh("else", 0);
            let br = self.program.branch(cond, then, vec![], other, vec![]);
            self.put(br);
            self.block = other;
            for _ in 0..self.dice.roll(3) {
                self.statement(depth - 1);
            }
            let jump = self.program.jump(merge, self.vars.clone());
            self.put(jump);
        } else {
            let br = self.program.branch(cond, then, vec![], merge, saved.clone());
            self.put(br);
        }
        self.vars = saved;
        self.block = then;
        for _ in 0..self.dice.roll(3) {
            self.statement(depth - 1);
        }
        let jump = self.program.jump(merge, self.vars.clone());
        self.put(jump);
        self.block = merge;
        self.vars = self.program.block_params(merge);
    }

    fn repeat(&mut self, depth: usize) {
        let n = self.vars.len();
        let header = self.fresh("header", n + 1);
        let body = self.fresh("body", 0);
        let exit = self.fresh("exit", 0);
        let zero = self.literal(0);
        let mut entering = self.vars.clone();
        entering.push(zero);
        let jump = self.program.jump(header, entering);
        self.put(jump);
        self.block = header;
        let params = self.program.block_params(header);
        let counter = params[n];
        let bound = self.dice.roll(4) as i32;
        let bound = self.literal(bound);
        let more = self.program.binary(BinaryOp::Lt, counter, bound);
        self.put(more);
        let br = self.program.branch(more, body, vec![], exit, vec![]);
        self.put(br);
        self.vars = params[..n].to_vec();
        let leaving = self.vars.clone();
        self.block = body;
        for _ in 0..self.dice.roll(3) {
            self.statement(depth - 1);
        }
        let one = self.literal(1);
        let step = self.program.binary(BinaryOp::Add, counter, one);
        self.put(step);
        let mut around = self.vars.clone();
        around.push(step);
        let jump = self.program.jump(header, around);
        self.put(jump);
        self.block = exit;
        self.vars = leaving;
    }

    fn chain(&mut self) {
        let x = self.pick();
        let cases = 3 + self.dice.roll(5) as i32;
        let merge = self.fresh("joined", 1);
        for k in 0..cases {
            let here = self.fresh("case", 0);
            let next = self.fresh("next", 0);
            if k == 0 {
                let jump = self.program.jump(next, vec![]);
                self.put(jump);
                self.block = next;
                let after = self.fresh("after", 0);
                self.tested(x, k, here, after);
                self.answer(here, merge, k);
                self.block = after;
            } else {
                self.tested(x, k * 2 % 7, here, next);
                self.answer(here, merge, k);
                self.block = next;
            }
        }
        let last = self.literal(-1);
        let jump = self.program.jump(merge, vec![last]);
        self.put(jump);
        self.block = merge;
        let v = self.program.block_params(merge)[0];
        self.assign(v);
    }

    fn tested(&mut self, x: Inst, k: i32, here: BasicBlock, next: BasicBlock) {
        let literal = self.literal(k);
        let test = self.program.binary(BinaryOp::Eq, x, literal);
        self.put(test);
        let br = self.program.branch(test, here, vec![], next, vec![]);
        self.put(br);
    }

    fn answer(&mut self, here: BasicBlock, merge: BasicBlock, k: i32) {
        let v = self.literal(k * 10);
        let jump = self.program.jump(merge, vec![v]);
        self.program.insert_inst(here, jump);
    }
}

fn add_function(
    program: &mut Program,
    name: &str,
    global: Inst,
    callees: Vec<Function>,
    memory: bool,
    dice: &mut Dice,
    depth: usize,
    length: u64,
) -> Function {
    let function = program.new_function(Type::get_i32(), name.into(), vec![Type::get_i32(); 2]);
    let entry = program.add_entry_block(function);
    let params = program.params(function);
    let local = program.alloc_local(Type::get_array(Type::get_i32(), 4));
    program.insert_inst(entry, local);
    let clear = program.mem_zero(local, 16);
    program.insert_inst(entry, clear);
    let mut vars = params;
    let start = program.integer(dice.roll(3) as i32);
    vars.push(start);
    let mut builder =
        Builder { program, function, block: entry, vars, local, global, callees, memory, dice };
    for _ in 0..length {
        builder.statement(depth);
    }
    let (a, b) = (builder.vars[0], builder.vars[2]);
    let sum = builder.program.binary(BinaryOp::Add, a, b);
    builder.put(sum);
    let total = builder.program.binary(BinaryOp::Xor, sum, builder.vars[1]);
    builder.put(total);
    let ret = builder.program.ret(Some(total));
    builder.put(ret);
    function
}

/// A program that reads two numbers and works on them; it depends on nothing but `seed`.
fn generated(seed: u64) -> (Program, Function) {
    let mut dice = Dice(seed.wrapping_mul(2654435761).wrapping_add(12345));
    let mut program = Program::new();
    let init = if seed % 3 == 0 {
        let rows: Vec<Inst> = (0..3)
            .map(|r| {
                let cells = (0..4).map(|k| program.integer(r * 4 + k - 2)).collect();
                program.aggregate(cells)
            })
            .collect();
        program.aggregate(rows)
    } else {
        program.zero_init(Type::get_array(Type::get_array(Type::get_i32(), 4), 3))
    };
    let global = program.global_alloc(init);
    let memory = seed % 2 == 1;
    let helper = add_function(&mut program, "helper", global, vec![], memory, &mut dice, 1, 4);
    let work = add_function(&mut program, "work", global, vec![helper], memory, &mut dice, 3, 8);
    let getint = program.new_function(Type::get_i32(), "getint".into(), vec![]);
    let main = program.new_function(Type::get_i32(), "main".into(), vec![]);
    let entry = program.add_entry_block(main);
    let a = program.call(getint, vec![]);
    let b = program.call(getint, vec![]);
    let first = program.call(work, vec![a, b]);
    let second = program.call(work, vec![b, a]);
    let three = program.integer(3);
    let scaled = program.binary(BinaryOp::Mul, second, three);
    let result = program.binary(BinaryOp::Xor, first, scaled);
    let ret = program.ret(Some(result));
    for i in [a, b, first, second, scaled, result, ret] {
        program.insert_inst(entry, i);
    }
    (program, main)
}

const INPUTS: [(i32, i32); 6] = [(0, 0), (1, -1), (2, 5), (-3, 7), (100, 3), (i32::MAX, i32::MIN)];

fn results(program: &Program, main: Function) -> Vec<Value> {
    INPUTS
        .iter()
        .map(|&(a, b)| {
            let mut machine = Machine::new(program, vec![b, a]);
            machine.call(main, vec![])
        })
        .collect()
}

/// Runs `pass` on the programs of `seeds`, of which it changes at least `least`.
fn keeps_results(name: &str, seeds: std::ops::Range<u64>, least: usize, pass: fn(&mut Program) -> bool) {
    let mut hits = 0;
    for seed in seeds {
        let (mut program, main) = generated(seed);
        let before = results(&program, main);
        if pass(&mut program) {
            hits += 1;
        }
        assert_eq!(results(&program, main), before, "{name} on seed {seed}");
    }
    assert!(hits >= least, "{name} changed only {hits}");
}

fn constant_propagation(program: &mut Program) -> bool {
    let mut changed = false;
    for f in program.function_layout() {
        if SparseConditionConstantPropagation.can_run_on(program, f) {
            SparseConditionConstantPropagation.run_on(program, f);
            changed = true;
        }
    }
    changed
}

#[test]
fn boolean_simplification_keeps_results() {
    keeps_results("boolean simplification", 0..400, 300, |p| BooleanSimplification.run(p));
}

#[test]
fn chain_conversion_keeps_results() {
    keeps_results("chain conversion", 0..400, 200, |p| ChainToSwitch.run(p));
}

#[test]
fn constant_propagation_keeps_results() {
    keeps_results("constant propagation", 0..400, 400, constant_propagation);
}

#[test]
fn dead_code_elimination_keeps_results() {
    keeps_results("dead code", 0..400, 200, |p| DeadCodeElimination.run(p));
}

#[test]
fn dead_parameter_elimination_keeps_results() {
    keeps_results("dead parameters", 0..400, 300, |p| DeadPhiElimination.run(p));
}

#[test]
fn dead_store_elimination_keeps_results() {
    keeps_results("dead stores", 0..400, 2, |p| DSE.run(p));
}

#[test]
fn value_numbering_keeps_results() {
    keeps_results("value numbering", 0..400, 40, |p| GlobalInstNumbering.run(p));
}

#[test]
fn redundancy_elimination_keeps_results() {
    keeps_results("redundancy elimination", 0..400, 2, |p| {
        let mut changed = false;
        for _ in 0..4 {
            changed |= GVNPRE.run(p);
        }
        changed
    });
}

#[test]
fn branch_conversion_keeps_results() {
    keeps_results("branch conversion", 0..400, 50, |p| IfConversion.run(p));
}

#[test]
fn inlining_keeps_results() {
    keeps_results("inlining", 0..400, 250, |p| Inline.run(p));
}

#[test]
fn interprocedural_propagation_keeps_results() {
    keeps_results("interprocedural propagation", 0..400, 350, |p| IPSCCP.run(p));
}

#[test]
fn guard_elimination_keeps_results() {
    keeps_results("guard elimination", 0..400, 3, |p| GuardElimination.run(p));
}

/// A nest of two loops that sums up a row again and again, beside values that it carries round and may
/// change; it depends on nothing but `seed`.
fn generated_nest(seed: u64) -> (Program, Function) {
    let mut dice = Dice(seed.wrapping_mul(2654435761).wrapping_add(54321));
    let mut program = Program::new();
    let zero_row = program.zero_init(Type::get_array(Type::get_i32(), 8));
    let row = program.global_alloc(zero_row);
    let getint = program.new_function(Type::get_i32(), "getint".into(), vec![]);
    let main = program.new_function(Type::get_i32(), "main".into(), vec![]);
    let entry = program.add_entry_block(main);
    let others = dice.roll(3) as usize;
    let i32s = |n: usize| vec![Type::get_i32(); n];
    let outer = program.basic_block("outer".into(), i32s(2 + others));
    let within = program.basic_block("within".into(), vec![]);
    let inner = program.basic_block("inner".into(), i32s(2));
    let inner_body = program.basic_block("inner_body".into(), vec![]);
    let latch = program.basic_block("latch".into(), vec![]);
    let exit = program.basic_block("exit".into(), vec![]);
    for block in [outer, within, inner, inner_body, latch, exit] {
        program.push_bb_back(main, block);
    }
    let (zero, one) = (program.integer(0), program.integer(1));
    let given = [program.call(getint, vec![]), program.call(getint, vec![])];
    for call in given {
        program.insert_inst(entry, call);
    }
    for k in 0..8 {
        let index = program.integer(k);
        let at = program.get_elem_ptr(row, vec![zero, index]);
        let v = program.binary(BinaryOp::Mul, given[(k % 2) as usize], index);
        let store = program.store(v, at);
        for x in [at, v, store] {
            program.insert_inst(entry, x);
        }
    }
    let mut entering = vec![if dice.roll(4) == 0 { one } else { zero }, given[dice.roll(2) as usize]];
    entering.extend((0..others).map(|k| given[k % 2]));
    let enter = program.jump(outer, entering);
    program.insert_inst(entry, enter);

    let params = program.block_params(outer);
    let (r, acc) = (params[0], params[1]);
    let rounds = program.integer(dice.roll(5) as i32);
    let more = program.binary(BinaryOp::Lt, r, rounds);
    let br = program.branch(more, within, vec![], exit, vec![]);
    program.insert_inst(outer, more);
    program.insert_inst(outer, br);
    let start = program.jump(inner, vec![zero, acc]);
    program.insert_inst(within, start);

    let (i, sum) = (program.block_params(inner)[0], program.block_params(inner)[1]);
    let width = program.integer(dice.roll(9) as i32);
    let on = program.binary(BinaryOp::Lt, i, width);
    let br = program.branch(on, inner_body, vec![], latch, vec![]);
    program.insert_inst(inner, on);
    program.insert_inst(inner, br);
    let at = program.get_elem_ptr(row, vec![zero, i]);
    let load = program.load(at);
    let factor = match dice.roll(4) {
        0 if others > 0 => params[2],
        1 => given[0],
        2 => i,
        _ => one,
    };
    let term = program.binary(OPS[dice.roll(6) as usize], load, factor);
    let sum2 = program.binary(BinaryOp::Add, sum, term);
    let i2 = program.binary(BinaryOp::Add, i, one);
    let around = program.jump(inner, vec![i2, sum2]);
    for x in [at, load, term, sum2, i2, around] {
        program.insert_inst(inner_body, x);
    }

    let r2 = program.binary(BinaryOp::Add, r, one);
    program.insert_inst(latch, r2);
    let mut back = vec![r2, sum];
    for &other in &params[2..] {
        if dice.roll(4) == 0 {
            let changed = program.binary(BinaryOp::Add, other, one);
            program.insert_inst(latch, changed);
            back.push(changed);
        } else {
            back.push(other);
        }
    }
    let jump = program.jump(outer, back);
    program.insert_inst(latch, jump);

    let mut total = acc;
    for &other in &params[2..] {
        total = program.binary(BinaryOp::Xor, total, other);
        program.insert_inst(exit, total);
    }
    let ret = program.ret(Some(total));
    program.insert_inst(exit, ret);
    (program, main)
}

#[test]
fn loop_passes_keep_results() {
    let loop_passes = |p: &mut Program| {
        let blocked = BlockedReduction.run(p);
        InvariantReductionHoisting.run(p) || blocked
    };
    keeps_results("loop passes", 0..500, 0, loop_passes);
    let mut hits = 0;
    for seed in 0..500 {
        let (mut program, main) = generated_nest(seed);
        let before = results(&program, main);
        if loop_passes(&mut program) {
            hits += 1;
        }
        assert_eq!(results(&program, main), before, "loop passes on nest {seed}");
    }
    assert!(hits >= 50, "loop passes changed only {hits}");
}

#[test]
fn pass_sequence_keeps_results() {
    keeps_results("pass sequence", 0..400, 400, |p| {
        let mut changed = IPSCCP.run(p);
        changed |= UnreachableBasicBlock.run(p);
        changed |= DeadPhiElimination.run(p);
        changed |= BooleanSimplification.run(p);
        changed |= GVNPRE.run(p);
        changed |= DeadCodeElimination.run(p);
        changed |= GlobalInstNumbering.run(p);
        changed |= DSE.run(p);
        changed |= Inline.run(p);
        changed |= IfConversion.run(p);
        changed |= GlobalInstNumbering.run(p);
        changed |= DeadCodeElimination.run(p);
        changed |= DeadFunctionElimination.run(p);
        changed
    });
}

/// The loop `acc = acc - a[k] * b[k * stride]` for `bound` rounds, counted down; the function takes the
/// rows, the columns, the number of rounds and the first value of `acc`. Where `carried`, the loop hands the rows
/// on from round to round.
fn countdown(program: &mut Program, stride: i32, carried: bool) -> Function {
    let function = program.new_function(
        Type::get_i32(),
        "countdown".into(),
        vec![
            Type::get_pointer(Type::get_array(Type::get_i32(), 64)),
            Type::get_pointer(Type::get_i32()),
            Type::get_i32(),
            Type::get_i32(),
        ],
    );
    let entry = program.add_entry_block(function);
    let given = program.params(function);
    let (i32_ty, ptr_ty) = (Type::get_i32(), Type::get_pointer(Type::get_i32()));
    let header = program
        .basic_block("header".into(), vec![i32_ty.clone(), i32_ty.clone(), i32_ty.clone(), ptr_ty]);
    let body = program.basic_block("body".into(), vec![]);
    let exit = program.basic_block("exit".into(), vec![i32_ty.clone(), i32_ty]);
    for block in [header, body, exit] {
        program.push_bb_back(function, block);
    }
    let params = program.block_params(header);
    let (k, acc, ctr, ptr) = (params[0], params[1], params[2], params[3]);
    let zero = program.integer(0);
    let one = program.integer(1);
    let mut entering = vec![zero, given[3], given[2], given[1]];
    let rows = if carried {
        entering.push(given[0]);
        program.add_param(header, Type::get_pointer(Type::get_array(Type::get_i32(), 64)))
    } else {
        given[0]
    };
    let enter = program.jump(header, entering);
    program.insert_inst(entry, enter);
    let down = program.jump(body, vec![]);
    program.insert_inst(header, down);
    let row_at = program.get_elem_ptr(rows, vec![zero, k]);
    let row = program.load(row_at);
    let column_at = program.get_elem_ptr(ptr, vec![zero]);
    let column = program.load(column_at);
    let product = program.binary(BinaryOp::Mul, row, column);
    let acc2 = program.binary(BinaryOp::Sub, acc, product);
    let k2 = program.binary(BinaryOp::Add, k, one);
    let ctr2 = program.binary(BinaryOp::Sub, ctr, one);
    let step = program.integer(stride);
    let ptr2 = program.get_elem_ptr(ptr, vec![step]);
    let mut again = vec![k2, acc2, ctr2, ptr2];
    if carried {
        again.push(rows);
    }
    let back = program.branch(ctr2, header, again, exit, vec![k2, acc2]);
    for i in [row_at, row, column_at, column, product, acc2, k2, ctr2, ptr2, back] {
        program.insert_inst(body, i);
    }
    let result = program.block_params(exit)[1];
    let ret = program.ret(Some(result));
    program.insert_inst(exit, ret);
    function
}

#[test]
fn four_lanes_give_what_one_gives() {
    for (stride, carried) in [(1, false), (3, false), (2, true)] {
        let mut program = Program::new();
        let function = countdown(&mut program, stride, carried);
        let rows: HashMap<i64, i32> = (0..64).map(|k| (k * 4, k as i32 * 3 - 20)).collect();
        let columns: HashMap<i64, i32> = (0..64).map(|k| (k * 4, 50 - k as i32 * k as i32)).collect();
        let result = |program: &Program, rounds: i32, start: i32| {
            let mut machine = Machine::new(program, vec![]);
            machine.memory = vec![rows.clone(), columns.clone()];
            machine.call(
                function,
                vec![
                    Value::Address(0, 0),
                    Value::Address(1, 0),
                    Value::Int(rounds),
                    Value::Int(start),
                ],
            )
        };
        let expected = |rounds: i32, start: i32| {
            (0..rounds as i64).fold(start, |acc, k| {
                acc.wrapping_sub(rows[&(k * 4)].wrapping_mul(columns[&(k * stride as i64 * 4)]))
            })
        };
        for rounds in 1..=17 {
            assert_eq!(result(&program, rounds, 5), Value::Int(expected(rounds, 5)));
        }
        assert!(BlockedReduction.run(&mut program));
        for rounds in 1..=17 {
            assert_eq!(
                result(&program, rounds, 5),
                Value::Int(expected(rounds, 5)),
                "{rounds} rounds with stride {stride}"
            );
        }
    }
}

/// The nest `for r in 0..rounds { for i in 0..width { acc += a[i] } }`.
fn nest(program: &mut Program) -> Function {
    let i32_ty = Type::get_i32();
    let function = program.new_function(
        Type::get_i32(),
        "nest".into(),
        vec![
            Type::get_i32(),
            Type::get_i32(),
            Type::get_pointer(Type::get_array(Type::get_i32(), 16)),
        ],
    );
    let entry = program.add_entry_block(function);
    let given = program.params(function);
    let outer = program.basic_block("outer".into(), vec![i32_ty.clone(), i32_ty.clone()]);
    let within = program.basic_block("within".into(), vec![]);
    let inner = program.basic_block("inner".into(), vec![i32_ty.clone(), i32_ty]);
    let inner_body = program.basic_block("inner_body".into(), vec![]);
    let latch = program.basic_block("latch".into(), vec![]);
    let exit = program.basic_block("exit".into(), vec![]);
    for block in [outer, within, inner, inner_body, latch, exit] {
        program.push_bb_back(function, block);
    }
    let zero = program.integer(0);
    let one = program.integer(1);
    let enter = program.jump(outer, vec![zero, zero]);
    program.insert_inst(entry, enter);
    let (r, acc) = (program.block_params(outer)[0], program.block_params(outer)[1]);
    let more = program.binary(BinaryOp::Lt, r, given[0]);
    let br = program.branch(more, within, vec![], exit, vec![]);
    program.insert_inst(outer, more);
    program.insert_inst(outer, br);
    let start = program.jump(inner, vec![zero, acc]);
    program.insert_inst(within, start);
    let (i, sum) = (program.block_params(inner)[0], program.block_params(inner)[1]);
    let on = program.binary(BinaryOp::Lt, i, given[1]);
    let br = program.branch(on, inner_body, vec![], latch, vec![]);
    program.insert_inst(inner, on);
    program.insert_inst(inner, br);
    let at = program.get_elem_ptr(given[2], vec![zero, i]);
    let load = program.load(at);
    let sum2 = program.binary(BinaryOp::Add, sum, load);
    let i2 = program.binary(BinaryOp::Add, i, one);
    let around = program.jump(inner, vec![i2, sum2]);
    for x in [at, load, sum2, i2, around] {
        program.insert_inst(inner_body, x);
    }
    let r2 = program.binary(BinaryOp::Add, r, one);
    let back = program.jump(outer, vec![r2, sum]);
    program.insert_inst(latch, r2);
    program.insert_inst(latch, back);
    let ret = program.ret(Some(acc));
    program.insert_inst(exit, ret);
    function
}

#[test]
fn a_hoisted_reduction_gives_what_the_nest_gives() {
    let mut program = Program::new();
    let function = nest(&mut program);
    let cells: HashMap<i64, i32> = (0..16).map(|k| (k * 4, k as i32 * k as i32 - 9)).collect();
    let result = |program: &Program, rounds: i32, width: i32| {
        let mut machine = Machine::new(program, vec![]);
        machine.memory = vec![cells.clone()];
        machine.call(
            function,
            vec![Value::Int(rounds), Value::Int(width), Value::Address(0, 0)],
        )
    };
    let expected = |rounds: i32, width: i32| {
        rounds.max(0) * (0..width.max(0) as i64).map(|k| cells[&(k * 4)]).sum::<i32>()
    };
    assert!(InvariantReductionHoisting.run(&mut program));
    for rounds in -1..6 {
        for width in -1..16 {
            assert_eq!(
                result(&program, rounds, width),
                Value::Int(expected(rounds, width)),
                "{rounds} rounds of {width}"
            );
        }
    }
}

/// Fills column three of a matrix row by row, then adds it up.
fn filled_and_summed(program: &mut Program) -> Function {
    let i32_ty = Type::get_i32();
    let function = program.new_function(Type::get_i32(), "filled".into(), vec![]);
    let entry = program.add_entry_block(function);
    let fill = program.basic_block("fill".into(), vec![i32_ty.clone()]);
    let fill_body = program.basic_block("fill_body".into(), vec![]);
    let add = program.basic_block("add".into(), vec![i32_ty.clone(), i32_ty]);
    let add_body = program.basic_block("add_body".into(), vec![]);
    let exit = program.basic_block("exit".into(), vec![]);
    for block in [fill, fill_body, add, add_body, exit] {
        program.push_bb_back(function, block);
    }
    let matrix =
        program.alloc_local(Type::get_array(Type::get_array(Type::get_i32(), 64), 32));
    let zero = program.integer(0);
    let one = program.integer(1);
    let three = program.integer(3);
    let bound = program.integer(32);
    let enter = program.jump(fill, vec![zero]);
    program.insert_inst(entry, matrix);
    program.insert_inst(entry, enter);

    let i = program.block_params(fill)[0];
    let more = program.binary(BinaryOp::Lt, i, bound);
    let br = program.branch(more, fill_body, vec![], add, vec![zero, zero]);
    program.insert_inst(fill, more);
    program.insert_inst(fill, br);
    let at = program.get_elem_ptr(matrix, vec![zero, i, three]);
    let square = program.binary(BinaryOp::Mul, i, i);
    let store = program.store(square, at);
    let i2 = program.binary(BinaryOp::Add, i, one);
    let back = program.jump(fill, vec![i2]);
    for x in [at, square, store, i2, back] {
        program.insert_inst(fill_body, x);
    }

    let (j, sum) = (program.block_params(add)[0], program.block_params(add)[1]);
    let more = program.binary(BinaryOp::Lt, j, bound);
    let br = program.branch(more, add_body, vec![], exit, vec![]);
    program.insert_inst(add, more);
    program.insert_inst(add, br);
    let at = program.get_elem_ptr(matrix, vec![zero, j, three]);
    let load = program.load(at);
    let sum2 = program.binary(BinaryOp::Add, sum, load);
    let j2 = program.binary(BinaryOp::Add, j, one);
    let back = program.jump(add, vec![j2, sum2]);
    for x in [at, load, sum2, j2, back] {
        program.insert_inst(add_body, x);
    }
    let ret = program.ret(Some(sum));
    program.insert_inst(exit, ret);
    function
}

#[test]
fn a_matrix_kept_by_columns_gives_back_what_was_stored() {
    let mut program = Program::new();
    let function = filled_and_summed(&mut program);
    let result = |program: &Program| Machine::new(program, vec![]).call(function, vec![]);
    let expected = Value::Int((0..32).map(|k| k * k).sum());
    assert_eq!(result(&program), expected);
    assert!(ColumnMajor.run(&mut program));
    assert_eq!(result(&program), expected);
}

/// A program whose `main` reads one number, stores to a global that starts as `init`, calls `f` twice and returns
/// what `f` gave the second time; `f` is built by `body`.
fn called_twice(
    init: i32,
    body: fn(&mut Program, Function, Inst),
) -> (Program, Function) {
    let mut program = Program::new();
    let first = if init == 0 { program.zero_init(Type::get_i32()) } else { program.integer(init) };
    let global = program.global_alloc(first);
    let f = program.new_function(Type::get_i32(), "f".into(), vec![Type::get_i32()]);
    body(&mut program, f, global);
    let getint = program.new_function(Type::get_i32(), "getint".into(), vec![]);
    let main = program.new_function(Type::get_i32(), "main".into(), vec![]);
    let entry = program.add_entry_block(main);
    let a = program.call(getint, vec![]);
    let one = program.call(f, vec![a]);
    let two = program.call(f, vec![a]);
    let load = program.load(global);
    let hundred = program.integer(100);
    let scaled = program.binary(BinaryOp::Mul, load, hundred);
    let sum = program.binary(BinaryOp::Add, one, two);
    let total = program.binary(BinaryOp::Add, sum, scaled);
    let ret = program.ret(Some(total));
    for i in [a, one, two, load, scaled, sum, total, ret] {
        program.insert_inst(entry, i);
    }
    (program, main)
}

fn propagation_keeps(what: &str, program: &mut Program, main: Function) {
    let before = results(program, main);
    IPSCCP.run(program);
    assert_eq!(results(program, main), before, "{what}");
}

/// The second run of the function reads what the first one stored.
#[test]
fn a_load_before_a_store_reads_what_an_earlier_run_stored() {
    for init in [0, 3] {
        let (mut program, main) = called_twice(init, |program, f, global| {
            let entry = program.add_entry_block(f);
            let load = program.load(global);
            let five = program.integer(5);
            let store = program.store(five, global);
            let ret = program.ret(Some(load));
            for i in [load, store, ret] {
                program.insert_inst(entry, i);
            }
        });
        propagation_keeps("load before store", &mut program, main);
    }
}

/// The global keeps what it starts as where the store is passed by.
#[test]
fn a_store_on_one_way_does_not_hide_what_was_there() {
    for init in [0, 3] {
        let (mut program, main) = called_twice(init, |program, f, global| {
            let entry = program.add_entry_block(f);
            let cond = program.params(f)[0];
            let then = program.basic_block("then".into(), vec![]);
            let join = program.basic_block("join".into(), vec![]);
            program.push_bb_back(f, then);
            program.push_bb_back(f, join);
            let branch = program.branch(cond, then, vec![], join, vec![]);
            program.insert_inst(entry, branch);
            let seven = program.integer(7);
            let store = program.store(seven, global);
            let jump = program.jump(join, vec![]);
            program.insert_inst(then, store);
            program.insert_inst(then, jump);
            let load = program.load(global);
            let ret = program.ret(Some(load));
            program.insert_inst(join, load);
            program.insert_inst(join, ret);
        });
        propagation_keeps("store on one way", &mut program, main);
    }
}

/// What `main` stored is there after a call that may store.
#[test]
fn a_call_that_may_store_does_not_hide_what_was_stored() {
    for init in [0, 3] {
        let mut program = Program::new();
        let first = if init == 0 { program.zero_init(Type::get_i32()) } else { program.integer(init) };
        let global = program.global_alloc(first);
        let f = program.new_function(Type::get_i32(), "f".into(), vec![Type::get_i32()]);
        let entry = program.add_entry_block(f);
        let cond = program.params(f)[0];
        let then = program.basic_block("then".into(), vec![]);
        let join = program.basic_block("join".into(), vec![]);
        program.push_bb_back(f, then);
        program.push_bb_back(f, join);
        let branch = program.branch(cond, then, vec![], join, vec![]);
        program.insert_inst(entry, branch);
        let seven = program.integer(7);
        let store = program.store(seven, global);
        let jump = program.jump(join, vec![]);
        program.insert_inst(then, store);
        program.insert_inst(then, jump);
        let ret = program.ret(Some(cond));
        program.insert_inst(join, ret);
        let getint = program.new_function(Type::get_i32(), "getint".into(), vec![]);
        let main = program.new_function(Type::get_i32(), "main".into(), vec![]);
        let entry = program.add_entry_block(main);
        let a = program.call(getint, vec![]);
        let five = program.integer(5);
        let store = program.store(five, global);
        let call = program.call(f, vec![a]);
        let load = program.load(global);
        let ret = program.ret(Some(load));
        for i in [a, store, call, load, ret] {
            program.insert_inst(entry, i);
        }
        propagation_keeps("call that may store", &mut program, main);
    }
}

/// A call behind the load stores for sure, one on a way to it may not have run.
#[test]
fn a_call_behind_a_load_does_not_hide_what_was_there() {
    for init in [0, 3] {
        let mut program = Program::new();
        let first = if init == 0 { program.zero_init(Type::get_i32()) } else { program.integer(init) };
        let global = program.global_alloc(first);
        let f = program.new_function(Type::get_unit(), "f".into(), vec![]);
        let entry = program.add_entry_block(f);
        let seven = program.integer(7);
        let store = program.store(seven, global);
        let ret = program.ret(None);
        program.insert_inst(entry, store);
        program.insert_inst(entry, ret);
        let getint = program.new_function(Type::get_i32(), "getint".into(), vec![]);
        let main = program.new_function(Type::get_i32(), "main".into(), vec![]);
        let entry = program.add_entry_block(main);
        let then = program.basic_block("then".into(), vec![]);
        let join = program.basic_block("join".into(), vec![]);
        program.push_bb_back(main, then);
        program.push_bb_back(main, join);
        let a = program.call(getint, vec![]);
        let branch = program.branch(a, then, vec![], join, vec![]);
        program.insert_inst(entry, a);
        program.insert_inst(entry, branch);
        let call = program.call(f, vec![]);
        let jump = program.jump(join, vec![]);
        program.insert_inst(then, call);
        program.insert_inst(then, jump);
        let load = program.load(global);
        let again = program.call(f, vec![]);
        let ret = program.ret(Some(load));
        for i in [load, again, ret] {
            program.insert_inst(join, i);
        }
        propagation_keeps("call behind the load", &mut program, main);
    }
}

/// What is stored behind a call that stores is what is there, however late the argument of the call is known.
#[test]
fn a_store_behind_a_call_that_stores_is_read() {
    let mut program = Program::new();
    let zero = program.zero_init(Type::get_i32());
    let global = program.global_alloc(zero);
    let k = program.new_function(Type::get_i32(), "k".into(), vec![]);
    let entry = program.add_entry_block(k);
    let nine = program.integer(9);
    let ret = program.ret(Some(nine));
    program.insert_inst(entry, ret);
    let h = program.new_function(Type::get_unit(), "h".into(), vec![Type::get_i32()]);
    let entry = program.add_entry_block(h);
    let given = program.params(h)[0];
    let store = program.store(given, global);
    let ret = program.ret(None);
    program.insert_inst(entry, store);
    program.insert_inst(entry, ret);
    let main = program.new_function(Type::get_i32(), "main".into(), vec![]);
    let entry = program.add_entry_block(main);
    let a = program.call(k, vec![]);
    let call = program.call(h, vec![a]);
    let five = program.integer(5);
    let store = program.store(five, global);
    let load = program.load(global);
    let ret = program.ret(Some(load));
    for i in [a, call, store, load, ret] {
        program.insert_inst(entry, i);
    }
    propagation_keeps("store behind a call", &mut program, main);
}
