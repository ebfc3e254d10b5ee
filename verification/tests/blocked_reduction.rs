//! Countdown reductions in four lanes.

use raana_opt::blocked_reduction::BlockedReduction;
use raana_opt::ir::{BinaryOp, Function, Op, Type};
use raana_opt::program::Program;

/// Build the countdown msub reduction loop:
/// `acc = acc - A[k] * B[k]` for `ctr` steps, with a column pointer that
/// advances by `stride` elements each iteration. Header params
/// `[k, acc, ctr, ptr]`; the body is a single test-at-bottom block.
fn build_reduction(program: &mut Program, bound: i32, stride: i32) -> Function {
    let function = program.new_function(
        Type::get_i32(),
        "blocked_reduction".into(),
        vec![
            Type::get_pointer(Type::get_array(Type::get_i32(), 64)),
            Type::get_pointer(Type::get_i32()),
        ],
    );
    let entry = program.add_entry_block(function);
    let row_base = program.params(function)[0];
    let col_base = program.params(function)[1];
    let header = program.basic_block(
        "header".into(),
        vec![
            Type::get_i32(),
            Type::get_i32(),
            Type::get_i32(),
            Type::get_pointer(Type::get_i32()),
        ],
    );
    let body = program.basic_block("body".into(), vec![]);
    let exit = program.basic_block("exit".into(), vec![Type::get_i32(), Type::get_i32()]);
    for block in [header, body, exit] {
        program.push_bb_back(function, block);
    }

    let params = program.block_params(header).to_vec();
    let (k, acc, ctr, ptr) = (params[0], params[1], params[2], params[3]);
    let header_jump = program.jump(body, vec![]);
    program.insert_inst(header, header_jump);

    let zero = program.integer(0);
    let bound_inst = program.integer(bound);
    let entry_jump = program.jump(header, vec![zero, zero, bound_inst, col_base]);
    program.insert_inst(entry, entry_jump);

    let one = program.integer(1);
    let row_gep = program.get_elem_ptr(row_base, vec![zero, k]);
    let row_load = program.load(row_gep);
    let col_gep = program.get_elem_ptr(ptr, vec![zero]);
    let col_load = program.load(col_gep);
    let mul = program.binary(BinaryOp::Mul, row_load, col_load);
    let acc_update = program.binary(BinaryOp::Sub, acc, mul);
    let k_update = program.binary(BinaryOp::Add, k, one);
    let ctr_update = program.binary(BinaryOp::Sub, ctr, one);
    let stride_inst = program.integer(stride);
    let ptr_update = program.get_elem_ptr(ptr, vec![stride_inst]);
    for inst in [
        row_gep, row_load, col_gep, col_load, mul, acc_update, k_update, ctr_update, ptr_update,
    ] {
        program.insert_inst(body, inst);
    }
    let back = program.branch(
        ctr_update,
        header,
        vec![k_update, acc_update, ctr_update, ptr_update],
        exit,
        vec![k_update, acc_update],
    );
    program.insert_inst(body, back);

    let exit_acc = program.block_params(exit)[1];
    let ret = program.ret(Some(exit_acc));
    program.insert_inst(exit, ret);
    function
}

fn run(program: &mut Program, function: Function) -> bool {
    BlockedReduction.run_on(program, function)
}

#[test]
fn blocks_a_bound_eight_countdown_reduction() {
    let mut program = Program::new();
    let function = build_reduction(&mut program, 8, 6);
    let block_count = program.basicblocks(function).len();

    assert!(run(&mut program, function), "the reduction must be blocked");
    assert_eq!(
        program.basicblocks(function).len(),
        block_count + 4,
        "versioning + main header/body/exit are added"
    );
    // The versioning guard branches to the main loop when bound >= 4.
    let guard = program
        .basicblocks(function)
        .into_iter()
        .find(|&b| program.block_name(b).contains("blocked_guard"))
        .expect("the versioning block must exist");
    let terminator = program.terminator(guard);
    assert!(
        matches!(program.op(terminator), Op::Branch(..)),
        "the guard ends in a branch"
    );
}

#[test]
fn leaves_a_two_trip_countdown_loop_alone() {
    // bound = 2 (< 4): the versioning guard always takes the original
    // loop, but the pass still applies (the guard exists) and the original
    // loop remains for the scalar epilogue.
    let mut program = Program::new();
    let function = build_reduction(&mut program, 2, 6);
    let block_count = program.basicblocks(function).len();
    assert!(run(&mut program, function));
    assert_eq!(program.basicblocks(function).len(), block_count + 4);
}

#[test]
fn leaves_a_loop_with_two_indices_alone() {
    let mut program = Program::new();
    let function = build_reduction(&mut program, 8, 6);
    let blocks = program.basicblocks(function);
    let (entry, header, body) = (blocks[0], blocks[1], blocks[2]);
    let second = program.add_param(header, Type::get_i32());
    let one = program.integer(1);
    let zero = program.integer(0);
    let more = program.binary(BinaryOp::Add, second, one);
    let back = program.terminator(body);
    program.insert_inst_before(body, back, more);
    let enter = program.terminator(entry);
    let mut args = program.args(enter);
    args.push(zero);
    program.set_inst(enter, Op::Jump(header), args, Type::get_unit());
    let (Op::Branch(t, e, _), cond) = (program.op(back), program.arg(back, 0)) else {
        panic!("the body ends in a branch");
    };
    let mut again = program.t_args(back);
    again.push(more);
    let n = again.len();
    let mut args = vec![cond];
    args.extend(again);
    args.extend(program.f_args(back));
    program.set_inst(back, Op::Branch(t, e, n), args, Type::get_unit());

    assert!(!run(&mut program, function));
    assert_eq!(program.basicblocks(function).len(), blocks.len());
}

/// The values of the body of the reduction, in order: the two addresses and loads, the product and the updates
/// of sum, index, counter and pointer, and the branch.
fn body_of(program: &Program, function: Function) -> Vec<raana_opt::ir::Inst> {
    program.block_insts(program.basicblocks(function)[2])
}

fn is_left_alone(program: &mut Program, function: Function) {
    let blocks = program.basicblocks(function).len();
    assert!(!run(program, function));
    assert_eq!(program.basicblocks(function).len(), blocks);
}

#[test]
fn leaves_an_index_that_starts_elsewhere_alone() {
    let mut program = Program::new();
    let function = build_reduction(&mut program, 8, 6);
    let blocks = program.basicblocks(function);
    let enter = program.terminator(blocks[0]);
    let mut args = program.args(enter);
    args[0] = program.integer(1);
    program.set_inst(enter, Op::Jump(blocks[1]), args, Type::get_unit());
    is_left_alone(&mut program, function);
}

#[test]
fn leaves_a_header_that_stores_alone() {
    let mut program = Program::new();
    let function = build_reduction(&mut program, 8, 6);
    let header = program.basicblocks(function)[1];
    let index = program.block_params(header)[0];
    let column = program.params(function)[1];
    let store = program.store(index, column);
    let jump = program.terminator(header);
    program.insert_inst_before(header, jump, store);
    is_left_alone(&mut program, function);
}

#[test]
fn leaves_a_loop_that_goes_on_at_zero_alone() {
    let mut program = Program::new();
    let function = build_reduction(&mut program, 8, 6);
    let back = *body_of(&program, function).last().unwrap();
    let Op::Branch(header, exit, _) = program.op(back) else {
        panic!("the body ends in a branch");
    };
    let (again, done) = (program.t_args(back), program.f_args(back));
    let mut args = vec![program.arg(back, 0)];
    args.extend(&done);
    args.extend(&again);
    program.set_inst(back, Op::Branch(exit, header, done.len()), args, Type::get_unit());
    is_left_alone(&mut program, function);
}

#[test]
fn leaves_a_sum_that_is_used_in_a_round_alone() {
    let mut program = Program::new();
    let function = build_reduction(&mut program, 8, 6);
    let blocks = program.basicblocks(function);
    let acc = program.block_params(blocks[1])[1];
    let row_at = body_of(&program, function)[0];
    let mut args = program.args(row_at);
    args[1] = acc;
    let ty = program.ty(row_at);
    program.set_inst(row_at, Op::GetElemPtr, args, ty);
    is_left_alone(&mut program, function);
}

#[test]
fn leaves_a_sum_that_is_used_behind_the_loop_alone() {
    let mut program = Program::new();
    let function = build_reduction(&mut program, 8, 6);
    let exit = program.basicblocks(function)[3];
    let sum = body_of(&program, function)[5];
    let ret = program.terminator(exit);
    program.set_inst(ret, Op::Return, vec![sum], Type::get_unit());
    is_left_alone(&mut program, function);
}
