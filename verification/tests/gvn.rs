//! Value numbering over the dominator tree.

use raana_opt::gvn::GlobalInstNumbering;
use raana_opt::ir::{BasicBlock, BinaryOp, Inst, Op, Type};
use raana_opt::program::Program;

fn return_value(program: &Program, bb: BasicBlock) -> Inst {
    let ret = program.terminator(bb);
    assert_eq!(program.op(ret), Op::Return);
    assert_eq!(program.num_args(ret), 1);
    program.arg(ret, 0)
}

fn binary_operands(program: &Program, value: Inst) -> (Inst, Inst) {
    assert!(matches!(program.op(value), Op::Binary(_)));
    (program.arg(value, 0), program.arg(value, 1))
}

#[test]
fn eliminates_transitive_congruence_in_one_run() {
    let mut program = Program::new();
    let function = program.new_function(
        Type::get_i32(),
        "transitive".into(),
        vec![Type::get_i32(), Type::get_i32()],
    );
    let entry = program.add_entry_block(function);
    let (x, y) = (program.params(function)[0], program.params(function)[1]);
    let one_a = program.integer(1);
    let one_b = program.integer(1);
    let add_a = program.binary(BinaryOp::Add, x, one_a);
    let add_b = program.binary(BinaryOp::Add, x, one_b);
    let mul_a = program.binary(BinaryOp::Mul, add_a, y);
    let mul_b = program.binary(BinaryOp::Mul, add_b, y);
    let difference = program.binary(BinaryOp::Sub, mul_a, mul_b);
    let ret = program.ret(Some(difference));
    for value in [one_a, one_b, add_a, add_b, mul_a, mul_b, difference, ret] {
        program.insert_inst(entry, value);
    }

    assert!(GlobalInstNumbering.run(&mut program));
    assert!(!GlobalInstNumbering.run(&mut program));
    assert_eq!(binary_operands(&program, difference), (mul_a, mul_a));
    assert!(program.users(mul_b).is_empty());
    assert!(program.users(mul_a).contains(&difference));
}

#[test]
fn keeps_cast_result_types_separate() {
    let mut program = Program::new();
    let function =
        program.new_function(Type::get_i32(), "typed_cast".into(), vec![Type::get_i32()]);
    let entry = program.add_entry_block(function);
    let source = program.params(function)[0];
    let cast_i32 = program.cast(source, Type::get_i32());
    let cast_f32 = program.cast(source, Type::get_f32());
    let duplicate_i32 = program.cast(source, Type::get_i32());
    let zero_i32 = program.integer(0);
    let zero_f32 = program.float_bits(0);
    let int_use = program.binary(BinaryOp::Add, duplicate_i32, zero_i32);
    let float_use = program.binary(BinaryOp::Add, cast_f32, zero_f32);
    let ret = program.ret(Some(int_use));
    for value in [
        cast_i32,
        cast_f32,
        duplicate_i32,
        zero_i32,
        zero_f32,
        int_use,
        float_use,
        ret,
    ] {
        program.insert_inst(entry, value);
    }

    assert!(GlobalInstNumbering.run(&mut program));
    assert_eq!(binary_operands(&program, int_use).0, cast_i32);
    assert_eq!(binary_operands(&program, float_use).0, cast_f32);
    assert_eq!(program.ty(cast_f32), Type::get_f32());
}

#[test]
fn commutes_integer_but_not_float_arithmetic() {
    let mut program = Program::new();
    let function = program.new_function(
        Type::get_i32(),
        "commutativity".into(),
        vec![
            Type::get_i32(),
            Type::get_i32(),
            Type::get_f32(),
            Type::get_f32(),
        ],
    );
    let entry = program.add_entry_block(function);
    let (x, y, a, b) = (
        program.params(function)[0],
        program.params(function)[1],
        program.params(function)[2],
        program.params(function)[3],
    );
    let int_xy = program.binary(BinaryOp::Add, x, y);
    let int_yx = program.binary(BinaryOp::Add, y, x);
    let float_ab = program.binary(BinaryOp::Add, a, b);
    let float_ba = program.binary(BinaryOp::Add, b, a);
    let float_difference = program.binary(BinaryOp::Sub, float_ab, float_ba);
    let result = program.binary(BinaryOp::Sub, int_xy, int_yx);
    let ret = program.ret(Some(result));
    for value in [
        int_xy,
        int_yx,
        float_ab,
        float_ba,
        float_difference,
        result,
        ret,
    ] {
        program.insert_inst(entry, value);
    }

    assert!(GlobalInstNumbering.run(&mut program));
    assert_eq!(binary_operands(&program, result), (int_xy, int_xy));
    assert_eq!(
        binary_operands(&program, float_difference),
        (float_ab, float_ba)
    );
}

#[test]
fn uses_dominating_leaders_without_crossing_siblings() {
    let mut program = Program::new();
    let function = program.new_function(
        Type::get_i32(),
        "dominance".into(),
        vec![Type::get_i32(), Type::get_i32(), Type::get_i32()],
    );
    let entry = program.add_entry_block(function);
    let left = program.basic_block("left".into(), vec![]);
    let right = program.basic_block("right".into(), vec![]);
    for bb in [left, right] {
        program.push_bb_back(function, bb);
    }
    let (cond, x, y) = (program.params(function)[0], program.params(function)[1], program.params(function)[2]);
    let branch = program.branch(cond, left, vec![], right, vec![]);
    program.insert_inst(entry, branch);

    let left_first = program.binary(BinaryOp::Add, x, y);
    let left_second = program.binary(BinaryOp::Add, y, x);
    let left_ret = program.ret(Some(left_second));
    for value in [left_first, left_second, left_ret] {
        program.insert_inst(left, value);
    }

    let right_first = program.binary(BinaryOp::Add, x, y);
    let right_second = program.binary(BinaryOp::Add, y, x);
    let right_ret = program.ret(Some(right_second));
    for value in [right_first, right_second, right_ret] {
        program.insert_inst(right, value);
    }

    assert!(GlobalInstNumbering.run(&mut program));
    assert_eq!(return_value(&program, left), left_first);
    assert_eq!(return_value(&program, right), right_first);
    assert_ne!(return_value(&program, right), left_first);
}

#[test]
fn reuses_a_parent_block_leader() {
    let mut program = Program::new();
    let function = program.new_function(
        Type::get_i32(),
        "parent".into(),
        vec![Type::get_i32(), Type::get_i32()],
    );
    let entry = program.add_entry_block(function);
    let child = program.basic_block("child".into(), vec![]);
    program.push_bb_back(function, child);
    let (x, y) = (program.params(function)[0], program.params(function)[1]);
    let leader = program.binary(BinaryOp::Add, x, y);
    let jump = program.jump(child, vec![]);
    program.insert_inst(entry, leader);
    program.insert_inst(entry, jump);
    let duplicate = program.binary(BinaryOp::Add, y, x);
    let ret = program.ret(Some(duplicate));
    program.insert_inst(child, duplicate);
    program.insert_inst(child, ret);

    assert!(GlobalInstNumbering.run(&mut program));
    assert_eq!(return_value(&program, child), leader);
}

#[test]
fn does_not_cse_memory_or_calls() {
    let mut program = Program::new();
    // A side-effecting callee: getint performs I/O.
    let callee = program.new_function(Type::get_i32(), "getint".into(), vec![]);
    let function = program.new_function(Type::get_i32(), "effects".into(), vec![]);
    let entry = program.basic_block("entry".into(), vec![]);
    program.push_bb_back(function, entry);
    let alloc = program.alloc_local(Type::get_i32());
    let load_a = program.load(alloc);
    let load_b = program.load(alloc);
    let call_a = program.call_with_type(callee, vec![], Type::get_i32());
    let call_b = program.call_with_type(callee, vec![], Type::get_i32());
    let loads = program.binary(BinaryOp::Add, load_a, load_b);
    let calls = program.binary(BinaryOp::Add, call_a, call_b);
    let result = program.binary(BinaryOp::Add, loads, calls);
    let ret = program.ret(Some(result));
    for value in [
        alloc, load_a, load_b, call_a, call_b, loads, calls, result, ret,
    ] {
        program.insert_inst(entry, value);
    }

    assert!(GlobalInstNumbering.run(&mut program));
    // Loads of the same address are CSE'd unless a store intervenes;
    // side-effecting calls are never CSE'd.
    assert_eq!(binary_operands(&program, loads), (load_a, load_a));
    assert_eq!(binary_operands(&program, calls), (call_a, call_b));
}

#[test]
fn cses_identical_pure_calls() {
    let mut program = Program::new();
    // A strictly pure callee returning its argument.
    let callee = program.new_function(Type::get_i32(), "pure_fn".into(), vec![Type::get_i32()]);
    let entry = program.add_entry_block(callee);
    let p = program.params(callee)[0];
    let ret = program.ret(Some(p));
    program.insert_inst(entry, ret);

    let function =
        program.new_function(Type::get_i32(), "cse_calls".into(), vec![Type::get_i32()]);
    let entry = program.add_entry_block(function);
    let x = program.params(function)[0];
    let call_a = program.call_with_type(callee, vec![x], Type::get_i32());
    let call_b = program.call_with_type(callee, vec![x], Type::get_i32());
    let sum = program.binary(BinaryOp::Add, call_a, call_b);
    let ret = program.ret(Some(sum));
    for value in [call_a, call_b, sum, ret] {
        program.insert_inst(entry, value);
    }

    assert!(GlobalInstNumbering.run(&mut program));
    assert_eq!(binary_operands(&program, sum), (call_a, call_a));
    assert!(program.users(call_b).is_empty());
}

#[test]
fn store_to_read_global_blocks_call_cse() {
    let mut program = Program::new();
    let zero_init = program.global_integer(0);
    let gv = program.global_alloc(zero_init);
    // A read-only callee reading gv[0].
    let callee = program.new_function(Type::get_i32(), "reads_global".into(), vec![]);
    program.add_entry_block(callee);
    {
        let entry = program.basicblocks(callee)[0];
        let zero = program.integer(0);
        let gep = program.get_elem_ptr(gv, vec![zero]);
        let load = program.load(gep);
        let ret = program.ret(Some(load));
        program.insert_inst(entry, zero);
        program.insert_inst(entry, gep);
        program.insert_inst(entry, load);
        program.insert_inst(entry, ret);
    }
    let function = program.new_function(Type::get_i32(), "conflicted".into(), vec![]);
    program.add_entry_block(function);
    let call_a;
    let call_b;
    let sum;
    {
        let entry = program.basicblocks(function)[0];
        call_a = program.call_with_type(callee, vec![], Type::get_i32());
        program.insert_inst(entry, call_a);
        let zero = program.integer(0);
        let gep = program.get_elem_ptr(gv, vec![zero]);
        let one = program.integer(1);
        let store = program.store(one, gep);
        program.insert_inst(entry, gep);
        program.insert_inst(entry, store);
        call_b = program.call_with_type(callee, vec![], Type::get_i32());
        program.insert_inst(entry, call_b);
        sum = program.binary(BinaryOp::Add, call_a, call_b);
        program.insert_inst(entry, sum);
        let ret = program.ret(Some(sum));
        program.insert_inst(entry, ret);
    }

    // Nothing else in this function is CSE-able, so the pass may report
    // no change; the guarantee is that the call was not merged.
    GlobalInstNumbering.run(&mut program);
    // The store to a global the callee reads must invalidate the leader.
    assert_eq!(binary_operands(&program, sum), (call_a, call_b));
}

#[test]
fn store_to_local_does_not_block_call_cse() {
    let mut program = Program::new();
    let zero_init = program.global_integer(0);
    let gv = program.global_alloc(zero_init);
    let callee = program.new_function(Type::get_i32(), "reads_global".into(), vec![]);
    program.add_entry_block(callee);
    {
        let entry = program.basicblocks(callee)[0];
        let zero = program.integer(0);
        let gep = program.get_elem_ptr(gv, vec![zero]);
        let load = program.load(gep);
        let ret = program.ret(Some(load));
        program.insert_inst(entry, zero);
        program.insert_inst(entry, gep);
        program.insert_inst(entry, load);
        program.insert_inst(entry, ret);
    }
    let function = program.new_function(Type::get_i32(), "unconflicted".into(), vec![]);
    program.add_entry_block(function);
    let call_a;
    let call_b;
    let sum;
    {
        let entry = program.basicblocks(function)[0];
        call_a = program.call_with_type(callee, vec![], Type::get_i32());
        program.insert_inst(entry, call_a);
        let slot = program.alloc_local(Type::get_i32());
        let one = program.integer(1);
        let store = program.store(one, slot);
        program.insert_inst(entry, slot);
        program.insert_inst(entry, store);
        call_b = program.call_with_type(callee, vec![], Type::get_i32());
        program.insert_inst(entry, call_b);
        sum = program.binary(BinaryOp::Add, call_a, call_b);
        program.insert_inst(entry, sum);
        let ret = program.ret(Some(sum));
        program.insert_inst(entry, ret);
    }

    assert!(GlobalInstNumbering.run(&mut program));
    // A local store cannot alias gv, so the second call merges.
    assert_eq!(binary_operands(&program, sum), (call_a, call_a));
}

#[test]
fn read_only_call_does_not_invalidate_load_leaders() {
    let mut program = Program::new();
    // A pure void callee: no I/O, no writes.
    let callee = program.new_function(Type::get_unit(), "pure_void".into(), vec![]);
    let entry = program.add_entry_block(callee);
    let ret = program.ret(None);
    program.insert_inst(entry, ret);

    let function = program.new_function(Type::get_i32(), "loads_across_call".into(), vec![]);
    let entry = program.add_entry_block(function);
    let slot = program.alloc_local(Type::get_i32());
    let load_a = program.load(slot);
    let call = program.call_with_type(callee, vec![], Type::get_unit());
    let load_b = program.load(slot);
    let sum = program.binary(BinaryOp::Add, load_a, load_b);
    let ret = program.ret(Some(sum));
    for value in [slot, load_a, call, load_b, sum, ret] {
        program.insert_inst(entry, value);
    }

    assert!(GlobalInstNumbering.run(&mut program));
    // A read-only call cannot clobber the slot, so the second load merges.
    assert_eq!(binary_operands(&program, sum), (load_a, load_a));
}

#[test]
fn store_invalidates_load_leader() {
    let mut program = Program::new();
    let function = program.new_function(Type::get_i32(), "store".into(), vec![]);
    let entry = program.basic_block("entry".into(), vec![]);
    program.push_bb_back(function, entry);
    let alloc = program.alloc_local(Type::get_i32());
    let load_a = program.load(alloc);
    let zero = program.integer(0);
    let store = program.store(zero, alloc);
    let load_b = program.load(alloc);
    let sum = program.binary(BinaryOp::Add, load_a, load_b);
    let ret = program.ret(Some(sum));
    for value in [alloc, load_a, zero, store, load_b, sum, ret] {
        program.insert_inst(entry, value);
    }

    assert!(!GlobalInstNumbering.run(&mut program));
    assert_eq!(
        binary_operands(&program, sum),
        (load_a, load_b),
        "the store between the loads must prevent CSE"
    );
}

#[test]
fn keeps_tail_calls_unique_and_rewrites_their_arguments() {
    let mut program = Program::new();
    let function =
        program.new_function(Type::get_i32(), "tail_call".into(), vec![Type::get_i32()]);
    let entry = program.add_entry_block(function);
    let one_a = program.integer(1);
    let one_b = program.integer(1);
    let tail_call = program.tail_call(function, vec![one_b]);
    for value in [one_a, one_b, tail_call] {
        program.insert_inst(entry, value);
    }

    assert!(GlobalInstNumbering.run(&mut program));
    assert!(!GlobalInstNumbering.run(&mut program));
    assert_eq!(program.op(tail_call), Op::TailCall(function));
    assert_eq!(program.args(tail_call), vec![one_a]);
}

#[test]
fn canonicalizes_swapped_comparisons() {
    let mut program = Program::new();
    let function = program.new_function(
        Type::get_i32(),
        "compare".into(),
        vec![Type::get_i32(), Type::get_i32()],
    );
    let entry = program.add_entry_block(function);
    let (x, y) = (program.params(function)[0], program.params(function)[1]);
    let less = program.binary(BinaryOp::Lt, x, y);
    let greater = program.binary(BinaryOp::Gt, y, x);
    let result = program.binary(BinaryOp::Sub, less, greater);
    let ret = program.ret(Some(result));
    for value in [less, greater, result, ret] {
        program.insert_inst(entry, value);
    }

    assert!(GlobalInstNumbering.run(&mut program));
    assert_eq!(
        binary_operands(&program, result),
        (less, less)
    );
}

/// A function that reads the global `gv`.
fn reader_of(program: &mut Program, gv: Inst) -> raana_opt::ir::Function {
    let callee = program.new_function(Type::get_i32(), "reads".into(), vec![]);
    let entry = program.add_entry_block(callee);
    let load = program.load(gv);
    let ret = program.ret(Some(load));
    program.insert_inst(entry, load);
    program.insert_inst(entry, ret);
    callee
}

#[test]
fn values_of_calls_around_a_store_are_not_merged() {
    let mut program = Program::new();
    let init = program.global_integer(0);
    let gv = program.global_alloc(init);
    let callee = reader_of(&mut program, gv);
    let function = program.new_function(Type::get_i32(), "around".into(), vec![]);
    let entry = program.add_entry_block(function);
    let one = program.integer(1);
    let call_a = program.call(callee, vec![]);
    let sum_a = program.binary(BinaryOp::Add, call_a, one);
    let store = program.store(one, gv);
    let call_b = program.call(callee, vec![]);
    let sum_b = program.binary(BinaryOp::Add, call_b, one);
    let difference = program.binary(BinaryOp::Sub, sum_a, sum_b);
    let ret = program.ret(Some(difference));
    for inst in [call_a, sum_a, store, call_b, sum_b, difference, ret] {
        program.insert_inst(entry, inst);
    }
    GlobalInstNumbering.run(&mut program);
    assert_eq!(binary_operands(&program, difference), (sum_a, sum_b));
    assert_eq!(binary_operands(&program, sum_b), (call_b, one));
}

/// A call of a reader before a loop and one inside it; inside, the loop also writes `written`.
fn calls_around_a_header(write_read_global: bool) -> (Program, Inst, Inst, Inst) {
    let mut program = Program::new();
    let init_a = program.global_integer(0);
    let read = program.global_alloc(init_a);
    let init_b = program.global_integer(0);
    let other = program.global_alloc(init_b);
    let callee = reader_of(&mut program, read);
    let function = program.new_function(Type::get_i32(), "looping".into(), vec![Type::get_i32()]);
    let entry = program.add_entry_block(function);
    let header = program.basic_block("header".into(), vec![]);
    let body = program.basic_block("body".into(), vec![]);
    let exit = program.basic_block("exit".into(), vec![]);
    for block in [header, body, exit] {
        program.push_bb_back(function, block);
    }
    let again = program.params(function)[0];
    let before = program.call(callee, vec![]);
    let enter = program.jump(header, vec![]);
    program.insert_inst(entry, before);
    program.insert_inst(entry, enter);
    let inside = program.call(callee, vec![]);
    let sum = program.binary(BinaryOp::Add, before, inside);
    let test = program.branch(again, body, vec![], exit, vec![]);
    for inst in [inside, sum, test] {
        program.insert_inst(header, inst);
    }
    let store = program.store(sum, if write_read_global { read } else { other });
    let back = program.jump(header, vec![]);
    program.insert_inst(body, store);
    program.insert_inst(body, back);
    let ret = program.ret(Some(sum));
    program.insert_inst(exit, ret);
    (program, before, inside, sum)
}

#[test]
fn call_before_a_loop_that_spares_it_leads_inside() {
    let (mut program, before, _, sum) = calls_around_a_header(false);
    assert!(GlobalInstNumbering.run(&mut program));
    assert_eq!(binary_operands(&program, sum), (before, before));
}

#[test]
fn call_before_a_loop_that_writes_what_it_reads_does_not_lead() {
    let (mut program, before, inside, sum) = calls_around_a_header(true);
    GlobalInstNumbering.run(&mut program);
    assert_eq!(binary_operands(&program, sum), (before, inside));
}
