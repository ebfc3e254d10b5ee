//! Dead instructions, parameters, blocks and functions.

use raana_opt::dce::{DeadCodeElimination, DeadFunctionElimination, DeadPhiElimination};
use raana_opt::ir::{BinaryOp, Function, Op, Type};
use raana_opt::program::Program;

/// A function with an entry block and a bare `ret`.
fn empty_function(program: &mut Program, name: &str) -> Function {
    let function = program.new_function(Type::get_unit(), name.into(), vec![]);
    let entry = program.add_entry_block(function);
    let ret = program.ret(None);
    program.insert_inst(entry, ret);
    function
}

#[test]
fn preserves_mem_zero_and_its_allocation() {
    let mut program = Program::new();
    let function = program.new_function(Type::get_unit(), "clear".into(), vec![]);
    let entry = program.add_entry_block(function);
    let alloc = program.alloc_local(Type::get_array(Type::get_i32(), 4));
    let clear = program.mem_zero(alloc, 16);
    program.insert_inst(entry, clear);
    let one = program.integer(1);
    let dead = program.binary(BinaryOp::Add, one, one);
    program.insert_inst(entry, dead);
    let ret = program.ret(None);
    program.insert_inst(entry, ret);

    assert!(DeadCodeElimination.run(&mut program));
    let insts = program.block_insts(entry);
    assert!(insts.iter().any(|&inst| inst == clear));
    assert!(!insts.iter().any(|&inst| inst == dead));
    assert!(program.users(alloc).contains(&clear));
}

#[test]
fn removes_call_to_pure_function_with_unused_result() {
    let mut program = Program::new();
    let callee = empty_function(&mut program, "callee");
    let caller = program.new_function(Type::get_unit(), "caller".into(), vec![]);
    let entry = program.add_entry_block(caller);
    let call = program.call(callee, vec![]);
    program.insert_inst(entry, call);
    let ret = program.ret(None);
    program.insert_inst(entry, ret);

    assert!(DeadCodeElimination.run(&mut program));
    let insts = program.block_insts(entry);
    assert!(!insts.iter().any(|&inst| inst == call));
    assert_eq!(insts.len(), 1); // only the ret remains
}

#[test]
fn keeps_call_to_io_function() {
    let mut program = Program::new();
    // A declaration is enough: the analysis keys on the callee name.
    let getint = program.new_function(Type::get_i32(), "getint".into(), vec![]);
    let caller = program.new_function(Type::get_unit(), "caller".into(), vec![]);
    let entry = program.add_entry_block(caller);
    let call = program.call(getint, vec![]);
    program.insert_inst(entry, call);
    let ret = program.ret(None);
    program.insert_inst(entry, ret);

    assert!(!DeadCodeElimination.run(&mut program));
    assert!(program.block_insts(entry).contains(&call));
}

#[test]
fn keeps_call_to_function_writing_a_global() {
    let mut program = Program::new();
    let init = program.zero_init(Type::get_i32());
    let global = program.global_alloc(init);
    let writer = program.new_function(Type::get_unit(), "writer".into(), vec![]);
    let entry = program.add_entry_block(writer);
    let one = program.integer(1);
    let store = program.store(one, global);
    program.insert_inst(entry, store);
    let ret = program.ret(None);
    program.insert_inst(entry, ret);

    let caller = program.new_function(Type::get_unit(), "caller".into(), vec![]);
    let entry = program.add_entry_block(caller);
    let call = program.call(writer, vec![]);
    program.insert_inst(entry, call);
    let ret = program.ret(None);
    program.insert_inst(entry, ret);

    assert!(!DeadCodeElimination.run(&mut program));
    assert!(program.block_insts(entry).contains(&call));
}

#[test]
fn keeps_call_whose_result_is_used() {
    let mut program = Program::new();
    let callee = program.new_function(Type::get_i32(), "callee".into(), vec![]);
    {
        let entry = program.add_entry_block(callee);
        let one = program.integer(1);
        let ret = program.ret(Some(one));
        program.insert_inst(entry, ret);
    }
    let caller = program.new_function(Type::get_i32(), "caller".into(), vec![]);
    let entry = program.add_entry_block(caller);
    let call = program.call(callee, vec![]);
    program.insert_inst(entry, call);
    let ret = program.ret(Some(call));
    program.insert_inst(entry, ret);

    assert!(!DeadCodeElimination.run(&mut program));
    assert!(program.block_insts(entry).contains(&call));
}

#[test]
fn removes_pure_unused_calls_but_keeps_io_calls() {
    let mut program = Program::new();
    // A strictly pure callee with no body at all.
    let pure_callee = program.new_function(Type::get_i32(), "pure".into(), vec![]);
    let pure_entry = program.add_entry_block(pure_callee);
    // Constants stay outside the block layout; only the return is laid out.
    let one = program.integer(1);
    let pure_ret = program.ret(Some(one));
    program.insert_inst(pure_entry, pure_ret);

    // A library I/O function (no body; identified by name).
    let io_callee = program.new_function(Type::get_i32(), "getint".into(), vec![]);

    let function = program.new_function(Type::get_unit(), "caller".into(), vec![]);
    let entry = program.add_entry_block(function);
    let pure_call = program.call_with_type(pure_callee, vec![], Type::get_i32());
    program.insert_inst(entry, pure_call);
    let io_call = program.call_with_type(io_callee, vec![], Type::get_i32());
    program.insert_inst(entry, io_call);
    let ret = program.ret(None);
    program.insert_inst(entry, ret);

    assert!(DeadCodeElimination.run(&mut program));
    let insts = program.block_insts(entry);
    assert!(
        !insts.iter().any(|&inst| inst == pure_call),
        "unused pure call must be removed"
    );
    assert!(
        insts.iter().any(|&inst| inst == io_call),
        "I/O call must be kept"
    );
}

#[test]
fn keeps_pure_calls_whose_result_is_used() {
    let mut program = Program::new();
    let pure_callee = program.new_function(Type::get_i32(), "pure".into(), vec![]);
    let pure_entry = program.add_entry_block(pure_callee);
    let one = program.integer(1);
    let pure_ret = program.ret(Some(one));
    program.insert_inst(pure_entry, pure_ret);

    let function = program.new_function(Type::get_i32(), "caller".into(), vec![]);
    let entry = program.add_entry_block(function);
    let pure_call = program.call_with_type(pure_callee, vec![], Type::get_i32());
    program.insert_inst(entry, pure_call);
    let ret = program.ret(Some(pure_call));
    program.insert_inst(entry, ret);

    assert!(!DeadCodeElimination.run(&mut program));
    let insts = program.block_insts(entry);
    assert!(insts.iter().any(|&inst| inst == pure_call));
}

#[test]
fn never_forwards_entry_abi_parameters_from_backedges() {
    let mut program = Program::new();
    let function =
        program.new_function(Type::get_i32(), "entry_loop".into(), vec![Type::get_i32()]);
    let entry = program.add_entry_block(function);
    let exit = program.basic_block("exit".into(), vec![]);
    program.push_bb_back(function, exit);
    let parameter = program.params(function)[0];
    let zero = program.integer(0);
    let branch = program.branch(parameter, entry, vec![zero], exit, vec![]);
    program.insert_inst(entry, branch);
    let ret = program.ret(Some(parameter));
    program.insert_inst(exit, ret);

    assert!(!DeadPhiElimination.run(&mut program));
    assert!(matches!(program.op(branch), Op::Branch(..)), "entry terminator must remain a branch");
    assert_eq!(program.arg(branch, 0), parameter);
    assert_eq!(program.op(ret), Op::Return);
    assert_eq!(program.args(ret), vec![parameter]);
}

#[test]
fn removes_dead_param_from_both_same_target_branch_arms() {
    let mut program = Program::new();
    let function =
        program.new_function(Type::get_unit(), "dead_phi".into(), vec![Type::get_i32()]);
    let entry = program.add_entry_block(function);
    let merge = program.basic_block("merge".into(), vec![Type::get_i32()]);
    program.push_bb_back(function, merge);

    let cond = program.params(function)[0];
    let zero = program.integer(0);
    let one = program.integer(1);
    let branch = program.branch(cond, merge, vec![zero], merge, vec![one]);
    program.insert_inst(entry, branch);
    let ret = program.ret(None);
    program.insert_inst(merge, ret);

    assert!(DeadPhiElimination.run(&mut program));
    assert!(program.block_params(merge).is_empty());
    assert!(matches!(program.op(branch), Op::Branch(..)), "entry terminator must remain a branch");
    assert!(program.t_args(branch).is_empty());
    assert!(program.f_args(branch).is_empty());
}

#[test]
fn eliminates_a_block_parameter_forwarding_one_value() {
    let mut program = Program::new();
    let function = program.new_function(Type::get_i32(), "forwarded_phi".into(), vec![]);
    let entry = program.add_entry_block(function);
    let merge = program.basic_block("merge".into(), vec![Type::get_i32()]);
    program.push_bb_back(function, merge);
    let value = program.integer(7);
    let jump = program.jump(merge, vec![value]);
    program.insert_inst(entry, jump);
    let parameter = program.block_params(merge)[0];
    let ret = program.ret(Some(parameter));
    program.insert_inst(merge, ret);

    assert!(DeadPhiElimination.run(&mut program));
    assert!(program.block_params(merge).is_empty());
    assert!(matches!(program.op(jump), Op::Jump(_)), "entry must still jump to merge");
    assert!(program.args(jump).is_empty());
    assert_eq!(program.op(ret), Op::Return);
    assert_eq!(program.args(ret), vec![value]);
}

#[test]
fn jump_args_stay_aligned_when_trailing_params_are_dead() {
    // A block whose *trailing* parameters are dead: the jump arguments
    // must drop the same positions, keeping earlier args aligned.
    let mut program = Program::new();
    let function =
        program.new_function(Type::get_unit(), "dead_tail".into(), vec![Type::get_i32()]);
    let entry = program.add_entry_block(function);
    let merge = program.basic_block(
        "merge".into(),
        vec![
            Type::get_i32(),
            Type::get_i32(),
            Type::get_i32(),
            Type::get_i32(),
            Type::get_i32(),
            Type::get_i32(),
            Type::get_i32(),
            Type::get_i32(),
            Type::get_i32(),
        ],
    );
    program.push_bb_back(function, merge);
    let cond = program.params(function)[0];
    let zero = program.integer(0);
    let one = program.integer(1);
    let branch = program.branch(cond, merge, vec![one; 9], merge, vec![zero; 9]);
    program.insert_inst(entry, branch);
    // Only params 7 and 8 are unused; use the others so only the tail
    // two get removed.
    for i in 0..7 {
        let p = program.block_params(merge)[i];
        let _use = program.binary(BinaryOp::Add, p, one);
        program.insert_inst(merge, _use);
    }
    let ret = program.ret(None);
    program.insert_inst(merge, ret);

    assert!(DeadPhiElimination.run(&mut program));
    assert_eq!(program.block_params(merge).len(), 7);
    // The jump into merge must still carry exactly 7 args.
    let mut found = false;
    for block in program.basicblocks(function) {
        for inst in program.block_insts(block) {
            if let Op::Branch(t_target, f_target, _) = program.op(inst) {
                if t_target == merge && f_target == merge {
                    assert_eq!(program.t_args(inst).len(), 7);
                    assert_eq!(program.f_args(inst).len(), 7);
                    found = true;
                }
            }
        }
    }
    assert!(found);
}

#[test]
fn removes_an_unreferenced_function() {
    let mut program = Program::new();
    let main = program.new_function(Type::get_unit(), "main".into(), vec![]);
    let a = program.new_function(Type::get_unit(), "a".into(), vec![]);
    let b = program.new_function(Type::get_unit(), "b".into(), vec![]);
    let dead = program.new_function(Type::get_unit(), "dead".into(), vec![]);

    for (func, calls) in [(main, vec![a]), (a, vec![b]), (b, vec![]), (dead, vec![])] {
        let entry = program.add_entry_block(func);
        for &callee in &calls {
            let call = program.call(callee, vec![]);
            program.insert_inst(entry, call);
        }
        let ret = program.ret(None);
        program.insert_inst(entry, ret);
    }

    assert!(DeadFunctionElimination.run(&mut program));
    let layout = program.function_layout();
    assert!(layout.contains(&main));
    assert!(layout.contains(&a));
    assert!(layout.contains(&b));
    assert!(!layout.contains(&dead));
}

#[test]
fn removes_transitively_dead_functions() {
    let mut program = Program::new();
    let main = program.new_function(Type::get_unit(), "main".into(), vec![]);
    let d = program.new_function(Type::get_unit(), "d".into(), vec![]);
    let e = program.new_function(Type::get_unit(), "e".into(), vec![]);

    for (func, calls) in [(main, vec![]), (d, vec![e]), (e, vec![])] {
        let entry = program.add_entry_block(func);
        for &callee in &calls {
            let call = program.call(callee, vec![]);
            program.insert_inst(entry, call);
        }
        let ret = program.ret(None);
        program.insert_inst(entry, ret);
    }

    assert!(DeadFunctionElimination.run(&mut program));
    let layout = program.function_layout();
    assert!(layout.contains(&main));
    assert!(!layout.contains(&d));
    assert!(!layout.contains(&e));
}

#[test]
fn removes_a_self_recursive_function() {
    let mut program = Program::new();
    let main = program.new_function(Type::get_unit(), "main".into(), vec![]);
    let f = program.new_function(Type::get_unit(), "f".into(), vec![]);

    for (func, calls) in [(main, vec![]), (f, vec![f])] {
        let entry = program.add_entry_block(func);
        for &callee in &calls {
            let call = program.call(callee, vec![]);
            program.insert_inst(entry, call);
        }
        let ret = program.ret(None);
        program.insert_inst(entry, ret);
    }

    assert!(DeadFunctionElimination.run(&mut program));
    assert!(!program.function_layout().contains(&f));
}

#[test]
fn preserves_decl_and_main() {
    let mut program = Program::new();
    let main = program.new_function(Type::get_unit(), "main".into(), vec![]);
    let unused_decl = program.new_function(Type::get_unit(), "unused_decl".into(), vec![]);

    // `unused_decl` is a declaration stub (no basic blocks) and is never
    // called: it must be preserved, as must `main`.
    let entry = program.add_entry_block(main);
    let ret = program.ret(None);
    program.insert_inst(entry, ret);

    assert!(!DeadFunctionElimination.run(&mut program));
    let layout = program.function_layout();
    assert!(layout.contains(&main));
    assert!(layout.contains(&unused_decl));
}

#[test]
fn sweeping_again_finds_nothing_and_calls_stay_where_none_may_go() {
    let mut program = Program::new();
    let pure = program.new_function(Type::get_i32(), "pure".into(), vec![]);
    let inside = program.add_entry_block(pure);
    let five = program.integer(5);
    let give = program.ret(Some(five));
    program.insert_inst(inside, give);
    let main = program.new_function(Type::get_i32(), "main".into(), vec![Type::get_i32()]);
    let entry = program.add_entry_block(main);
    let x = program.params(main)[0];
    let call = program.call(pure, vec![]);
    let dead = program.binary(BinaryOp::Add, x, x);
    let live = program.binary(BinaryOp::Mul, x, x);
    let ret = program.ret(Some(live));
    for inst in [call, dead, live, ret] {
        program.insert_inst(entry, inst);
    }

    assert!(DeadCodeElimination.run_on_func(&mut program, main, &vec![]));
    assert_eq!(program.block_insts(entry), vec![call, live, ret]);
    assert!(!DeadCodeElimination.run_on_func(&mut program, main, &vec![]));
    assert!(DeadCodeElimination.run_on_func(&mut program, main, &vec![call]));
    assert_eq!(program.block_insts(entry), vec![live, ret]);
}
