//! Calls replaced by the bodies they run.

use raana_opt::inline::{Inline, CALL_SIZE_LIMIT};
use raana_opt::ir::{BasicBlock, BinaryOp, Function, Inst, Op, Type};
use raana_opt::program::Program;

#[test]
fn inlines_a_single_call_and_routes_the_result_through_a_continuation() {
    let mut program = Program::new();
    let callee = program.new_function(Type::get_i32(), "add_one".into(), vec![Type::get_i32()]);
    {
        let entry = program.add_entry_block(callee);
        let param = program.params(callee)[0];
        let one = program.integer(1);
        let add = program.binary(BinaryOp::Add, param, one);
        let ret = program.ret(Some(add));
        program.insert_inst(entry, add);
        program.insert_inst(entry, ret);
    }

    let main = program.new_function(Type::get_i32(), "main".into(), vec![]);
    {
        let ret_ty = program.ret_ty(callee);
        let entry = program.add_entry_block(main);
        let forty_one = program.integer(41);
        let call = program.call_with_type(callee, vec![forty_one], ret_ty);
        let ret = program.ret(Some(call));
        program.insert_inst(entry, call);
        program.insert_inst(entry, ret);
    }

    assert!(Inline.run(&mut program));
    assert!(!Inline.run(&mut program));

    assert_eq!(program.basicblocks(main).len(), 3);
    assert!(program.placed_insts(main).into_iter().all(|inst| !matches!(program.op(inst), Op::Call(_))));
    let continuation = *program.basicblocks(main).last().unwrap();
    assert_eq!(program.block_params(continuation).len(), 1);
    let ret = program.terminator(continuation);
    assert_eq!(program.op(ret), Op::Return);
    assert_eq!(program.args(ret), vec![program.block_params(continuation)[0]]);
}

#[test]
fn preserves_argument_order_for_many_params_with_array_parameters() {
    // Inlining a callee
    // with many (incl. array) parameters must keep jump arguments in
    // positional order.
    let mut program = Program::new();
    let arr_ty = Type::get_array(Type::get_i32(), 2);
    let callee = program.new_function(
        Type::get_i32(),
        "func".into(),
        vec![
            Type::get_i32(),
            Type::get_pointer(arr_ty.clone()),
            Type::get_i32(),
            Type::get_pointer(Type::get_i32()),
            Type::get_i32(),
            Type::get_i32(),
            Type::get_pointer(Type::get_i32()),
            Type::get_i32(),
            Type::get_i32(),
        ],
    );
    {
        let entry = program.add_entry_block(callee);
        let params: Vec<Inst> = program.params(callee).to_vec();
        let sum = program.binary(BinaryOp::Add, params[0], params[2]);
        let sum = program.binary(BinaryOp::Add, sum, params[4]);
        let sum = program.binary(BinaryOp::Add, sum, params[5]);
        let sum = program.binary(BinaryOp::Add, sum, params[7]);
        let sum = program.binary(BinaryOp::Add, sum, params[8]);
        program.insert_inst(entry, sum);
        let ret = program.ret(Some(sum));
        program.insert_inst(entry, ret);
    }

    let main = program.new_function(Type::get_i32(), "main".into(), vec![]);
    let (call, args) = {
        let ret_ty = program.ret_ty(callee);
        let entry = program.add_entry_block(main);
        let args: Vec<_> = (1..=9).map(|v| program.integer(v)).collect();
        let mut call_args = args.clone();
        // Array/pointer parameters receive distinct pointer values so a
        // positional shuffle is detectable; the scalar constants stay at
        // their slots.
        let arr_ptr = program.alloc_local(arr_ty.clone());
        let int_ptr = program.alloc_local(Type::get_i32());
        call_args[1] = arr_ptr;
        call_args[3] = int_ptr;
        call_args[6] = int_ptr;
        let call = program.call_with_type(callee, call_args, ret_ty);
        program.insert_inst(entry, call);
        let ret = program.ret(None);
        program.insert_inst(entry, ret);
        (call, args)
    };
    let _ = call;
    let _ = args;

    assert!(Inline.run(&mut program));
    // Find the jump into the cloned entry and check positional mapping.
    let mut found = false;
    for block in program.basicblocks(main) {
        for inst in program.block_insts(block) {
            if let Op::Jump(target) = program.op(inst) {
                let params = program.block_params(target);
                let jump_args = program.args(inst);
                assert_eq!(params.len(), jump_args.len());
                for (arg, param) in jump_args.iter().zip(params.iter()) {
                    assert_eq!(
                        program.ty(*arg),
                        program.ty(*param),
                        "arg/param type mismatch at position"
                    );
                }
                // The argument constants must keep their positional
                // values (1..=9), i.e. no shuffle by the cloner.
                for (i, arg) in jump_args.iter().enumerate() {
                    if let Op::Integer(value) = program.op(*arg) {
                        assert_eq!(value, (i + 1) as i32, "argument {i} shuffled");
                    }
                }
                found = true;
            }
        }
    }
    assert!(found, "expected an inlined entry jump");
}

#[test]
fn does_not_inline_a_leaf_with_a_large_total_callsite_cost() {
    // A leaf with several callsites is only inlined while the total
    // estimated size (size x callsites) stays within the budget. This
    // callee's body exceeds the per-call limit, so it stays a call.
    let mut program = Program::new();
    let callee = program.new_function(Type::get_i32(), "value".into(), vec![]);
    {
        let entry = program.add_entry_block(callee);
        let mut acc: Inst = program.integer(0);
        for i in 1..=CALL_SIZE_LIMIT + 1 {
            let int = program.integer(i as i32);
            let add = program.binary(BinaryOp::Add, acc, int);
            program.insert_inst(entry, add);
            acc = add;
        }
        let ret = program.ret(Some(acc));
        program.insert_inst(entry, ret);
    }
    let main = program.new_function(Type::get_i32(), "main".into(), vec![]);
    {
        let entry = program.add_entry_block(main);
        let first = program.call_with_type(callee, vec![], Type::get_i32());
        let second = program.call_with_type(callee, vec![], Type::get_i32());
        let add = program.binary(BinaryOp::Add, first, second);
        let ret = program.ret(Some(add));
        for inst in [first, second, add, ret] {
            program.insert_inst(entry, inst);
        }
    }

    assert!(!Inline.run(&mut program));
}

#[test]
fn merges_multiple_returns_through_one_continuation() {
    let mut program = Program::new();
    let callee = program.new_function(Type::get_i32(), "choose".into(), vec![Type::get_i32()]);
    {
        let entry = program.add_entry_block(callee);
        let then_block = program.basic_block("then".into(), vec![]);
        let else_block = program.basic_block("else".into(), vec![]);
        program.push_bb_back(callee, then_block);
        program.push_bb_back(callee, else_block);
        let one = program.integer(1);
        let two = program.integer(2);
        let condition = program.params(callee)[0];
        let branch =
            program.branch(condition, then_block, vec![], else_block, vec![]);
        let then_ret = program.ret(Some(one));
        let else_ret = program.ret(Some(two));
        program.insert_inst(entry, branch);
        program.insert_inst(then_block, then_ret);
        program.insert_inst(else_block, else_ret);
    }
    let main = program.new_function(Type::get_i32(), "main".into(), vec![]);
    {
        let entry = program.add_entry_block(main);
        let condition = program.integer(1);
        let call =
            program.call_with_type(callee, vec![condition], Type::get_i32());
        let ret = program.ret(Some(call));
        program.insert_inst(entry, call);
        program.insert_inst(entry, ret);
    }

    assert!(Inline.run(&mut program));

    let continuation = *program.basicblocks(main).last().unwrap();
    let incoming_returns = program.basicblocks(main)
        .into_iter()
        .filter(|&block| {
            let jump = program.terminator(block);
            program.op(jump) == Op::Jump(continuation) && program.num_args(jump) == 1
        })
        .count();
    assert_eq!(incoming_returns, 2);
}

#[test]
fn does_not_inline_across_a_recursive_call_cycle() {
    let mut program = Program::new();
    let a = program.new_function(Type::get_i32(), "a".into(), vec![]);
    let b = program.new_function(Type::get_i32(), "b".into(), vec![]);
    {
        let entry = program.add_entry_block(a);
        let call = program.call_with_type(b, vec![], Type::get_i32());
        let ret = program.ret(Some(call));
        program.insert_inst(entry, call);
        program.insert_inst(entry, ret);
    }
    {
        let entry = program.add_entry_block(b);
        let call = program.call_with_type(a, vec![], Type::get_i32());
        let ret = program.ret(Some(call));
        program.insert_inst(entry, call);
        program.insert_inst(entry, ret);
    }
    let main = program.new_function(Type::get_i32(), "main".into(), vec![]);
    {
        let entry = program.add_entry_block(main);
        let call = program.call_with_type(a, vec![], Type::get_i32());
        let ret = program.ret(Some(call));
        program.insert_inst(entry, call);
        program.insert_inst(entry, ret);
    }

    assert!(!Inline.run(&mut program));
}

/// Build a leaf callee whose layout holds exactly `insts` instructions
/// (`insts - 1` chained adds plus one return), so `estimate_size`
/// reports `insts`.
fn build_leaf(program: &mut Program, name: &str, insts: usize) -> Function {
    let callee = program.new_function(Type::get_i32(), name.into(), vec![]);
    let entry = program.add_entry_block(callee);
    let mut acc: Inst = program.integer(0);
    for i in 1..insts {
        let int = program.integer(i as i32);
        let add = program.binary(BinaryOp::Add, acc, int);
        program.insert_inst(entry, add);
        acc = add;
    }
    let ret = program.ret(Some(acc));
    program.insert_inst(entry, ret);
    callee
}

/// Build a `main` with a natural loop
/// `entry -> header(i) -> body -> header` (branch on `i < 10`, `exit`
/// returns 0). `body` is left empty for the caller to fill and must end
/// with a jump back to `header`. Returns `(main, header, body)`.
fn build_loop_main(program: &mut Program) -> (Function, BasicBlock, BasicBlock) {
    let main = program.new_function(Type::get_i32(), "main".into(), vec![]);
    let entry = program.add_entry_block(main);
    let header = program.basic_block("header".into(), vec![Type::get_i32()]);
    let body = program.basic_block("body".into(), vec![]);
    let exit = program.basic_block("exit".into(), vec![]);
    program.push_bb_back(main, header);
    program.push_bb_back(main, body);
    program.push_bb_back(main, exit);

    let one = program.integer(1);
    let ten = program.integer(10);
    let zero = program.integer(0);
    let entry_jump = program.jump(header, vec![one]);
    program.insert_inst(entry, entry_jump);

    let i = program.block_params(header)[0];
    let cond = program.binary(BinaryOp::Lt, i, ten);
    let branch = program.branch(cond, body, vec![], exit, vec![]);
    program.insert_inst(header, cond);
    program.insert_inst(header, branch);

    let ret = program.ret(Some(zero));
    program.insert_inst(exit, ret);
    (main, header, body)
}

/// Finish a `body` produced by `build_loop_main`: append the given
/// instructions, then increment the header induction variable and jump
/// back to the header.
fn finish_loop_body(
    program: &mut Program,
    header: BasicBlock,
    body: BasicBlock,
    insts: &[Inst],
) {
    let i = program.block_params(header)[0];
    let one = program.integer(1);
    let increment = program.binary(BinaryOp::Add, i, one);
    let backedge = program.jump(header, vec![increment]);
    for &inst in insts {
        program.insert_inst(body, inst);
    }
    program.insert_inst(body, increment);
    program.insert_inst(body, backedge);
}

fn assert_main_has_no_calls(program: &Program, main: Function) {
    assert!(program.placed_insts(main).into_iter().all(|inst| !matches!(program.op(inst), Op::Call(_))));
}

#[test]
fn inlines_an_oversized_callee_when_the_call_sits_in_a_natural_loop() {
    // A callee above CALL_SIZE_LIMIT is still inlined when its callsite
    // runs inside a natural loop: the removed call overhead is paid once
    // per iteration.
    let mut program = Program::new();
    let callee = build_leaf(&mut program, "big_leaf", CALL_SIZE_LIMIT + 1);
    let (main, header, body) = build_loop_main(&mut program);
    let call = program.call_with_type(
        callee,
        vec![],
        Type::get_i32(),
    );
    finish_loop_body(&mut program, header, body, &[call]);

    assert!(Inline.run(&mut program));
    assert!(!Inline.run(&mut program));
    assert_main_has_no_calls(&program, main);
}

#[test]
fn does_not_inline_an_oversized_callee_outside_a_loop() {
    // The same oversized callee stays a call when its callsite is not
    // loop-resident: the relaxed budget must only apply to in-loop calls.
    let mut program = Program::new();
    let callee = build_leaf(&mut program, "big_leaf", CALL_SIZE_LIMIT + 1);
    let main = program.new_function(Type::get_i32(), "main".into(), vec![]);
    {
        let entry = program.add_entry_block(main);
        let call = program.call_with_type(callee, vec![], Type::get_i32());
        let ret = program.ret(Some(call));
        program.insert_inst(entry, call);
        program.insert_inst(entry, ret);
    }

    assert!(!Inline.run(&mut program));
}

#[test]
fn inlines_a_multi_callsite_callee_when_its_callsites_sit_in_a_loop() {
    // 34 insts x 3 callsites = 102 exceeds TOTAL_SIZE_LIMIT (100), so
    // the strict model rejects it; the in-loop total budget covers it.
    let mut program = Program::new();
    let callee = build_leaf(&mut program, "leaf", 34);
    let (main, header, body) = build_loop_main(&mut program);
    let calls: Vec<_> = (0..3)
        .map(|_| {
            program.call_with_type(callee, vec![], Type::get_i32())
        })
        .collect();
    finish_loop_body(&mut program, header, body, &calls);

    assert!(Inline.run(&mut program));
    assert!(!Inline.run(&mut program));
    assert_main_has_no_calls(&program, main);
}

#[test]
fn does_not_inline_a_multi_callsite_callee_outside_a_loop() {
    // The same 34-inst x 3-callsite shape outside any loop stays a call
    // because 102 > TOTAL_SIZE_LIMIT and no loop relaxes the budget.
    let mut program = Program::new();
    let callee = build_leaf(&mut program, "leaf", 34);
    let main = program.new_function(Type::get_i32(), "main".into(), vec![]);
    {
        let entry = program.add_entry_block(main);
        let first = program.call_with_type(callee, vec![], Type::get_i32());
        let second = program.call_with_type(callee, vec![], Type::get_i32());
        let third = program.call_with_type(callee, vec![], Type::get_i32());
        let add = program.binary(BinaryOp::Add, first, second);
        let add2 = program.binary(BinaryOp::Add, add, third);
        let ret = program.ret(Some(add2));
        for inst in [first, second, third, add, add2, ret] {
            program.insert_inst(entry, inst);
        }
    }

    assert!(!Inline.run(&mut program));
}
