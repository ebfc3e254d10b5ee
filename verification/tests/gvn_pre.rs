//! Partial redundancies.

use raana_opt::gvn_pre::GVNPRE;
use raana_opt::ir::{BasicBlock, BinaryOp, Inst, Op, Type};
use raana_opt::program::Program;

fn returned_value(program: &Program, bb: BasicBlock) -> Inst {
    let ret = program.terminator(bb);
    assert_eq!(program.op(ret), Op::Return);
    assert_eq!(program.num_args(ret), 1);
    program.arg(ret, 0)
}

#[test]
fn eliminates_diamond_recomputation_with_commuted_arm() {
    let mut program = Program::new();
    let function = program.new_function(
        Type::get_i32(),
        "diamond".into(),
        vec![Type::get_i32(), Type::get_i32(), Type::get_i32()],
    );
    let head = program.add_entry_block(function);
    let left = program.basic_block("left".into(), vec![]);
    let right = program.basic_block("right".into(), vec![]);
    let merge = program.basic_block("merge".into(), vec![]);
    for bb in [left, right, merge] {
        program.push_bb_back(function, bb);
    }
    let (cond, x, y) = (program.params(function)[0], program.params(function)[1], program.params(function)[2]);
    let branch = program.branch(cond, left, vec![], right, vec![]);
    program.insert_inst(head, branch);
    let left_add = program.binary(BinaryOp::Add, x, y);
    let left_jump = program.jump(merge, vec![]);
    program.insert_inst(left, left_add);
    program.insert_inst(left, left_jump);
    let right_add = program.binary(BinaryOp::Add, y, x);
    let right_jump = program.jump(merge, vec![]);
    program.insert_inst(right, right_add);
    program.insert_inst(right, right_jump);
    let recomputation = program.binary(BinaryOp::Add, x, y);
    let ret = program.ret(Some(recomputation));
    program.insert_inst(merge, recomputation);
    program.insert_inst(merge, ret);

    assert!(GVNPRE.run(&mut program));
    let param = program.block_params(merge)[0];
    assert_eq!(returned_value(&program, merge), param);
    assert_eq!(program.parent_bb(function, recomputation), None);
    assert!(matches!(program.op(left_jump), Op::Jump(_)));
    assert_eq!(program.args(left_jump), vec![left_add]);
    assert!(matches!(program.op(right_jump), Op::Jump(_)));
    assert_eq!(program.args(right_jump), vec![right_add]);
}

#[test]
fn inserts_on_non_critical_missing_edge() {
    let mut program = Program::new();
    let function = program.new_function(
        Type::get_i32(),
        "negative".into(),
        vec![Type::get_i32(), Type::get_i32(), Type::get_i32()],
    );
    let head = program.add_entry_block(function);
    let left = program.basic_block("left".into(), vec![]);
    let right = program.basic_block("right".into(), vec![]);
    let merge = program.basic_block("merge".into(), vec![]);
    for bb in [left, right, merge] {
        program.push_bb_back(function, bb);
    }
    let (cond, x, y) = (program.params(function)[0], program.params(function)[1], program.params(function)[2]);
    let branch = program.branch(cond, left, vec![], right, vec![]);
    program.insert_inst(head, branch);
    let left_add = program.binary(BinaryOp::Add, x, y);
    let left_jump = program.jump(merge, vec![]);
    program.insert_inst(left, left_add);
    program.insert_inst(left, left_jump);
    let right_jump = program.jump(merge, vec![]);
    program.insert_inst(right, right_jump);
    let recomputation = program.binary(BinaryOp::Add, x, y);
    let ret = program.ret(Some(recomputation));
    program.insert_inst(merge, recomputation);
    program.insert_inst(merge, ret);

    let mut pass = GVNPRE;
    assert!(pass.run(&mut program));
    assert!(!pass.run(&mut program));
    let param = program.block_params(merge)[0];
    assert_eq!(returned_value(&program, merge), param);
    assert_eq!(program.parent_bb(function, recomputation), None);
    assert!(matches!(program.op(left_jump), Op::Jump(_)));
    assert_eq!(program.args(left_jump), vec![left_add]);
    let right_insts = program.block_insts(right);
    assert_eq!(right_insts.len(), 2);
    let inserted = right_insts[0];
    assert_eq!(program.op(inserted), Op::Binary(BinaryOp::Add));
    assert_eq!(program.args(inserted), vec![x, y]);
    assert!(matches!(program.op(right_jump), Op::Jump(_)));
    assert_eq!(program.args(right_jump), vec![inserted]);
}

#[test]
fn splits_critical_missing_edge() {
    let mut program = Program::new();
    let function = program.new_function(
        Type::get_i32(),
        "critical".into(),
        vec![Type::get_i32(), Type::get_i32(), Type::get_i32()],
    );
    let head = program.add_entry_block(function);
    let left = program.basic_block("left".into(), vec![]);
    let right = program.basic_block("right".into(), vec![]);
    let merge = program.basic_block("merge".into(), vec![]);
    let exit = program.basic_block("exit".into(), vec![]);
    for bb in [left, right, merge, exit] {
        program.push_bb_back(function, bb);
    }
    let (cond, x, y) = (program.params(function)[0], program.params(function)[1], program.params(function)[2]);
    let head_branch = program.branch(cond, left, vec![], right, vec![]);
    program.insert_inst(head, head_branch);
    let left_add = program.binary(BinaryOp::Add, x, y);
    let left_jump = program.jump(merge, vec![]);
    program.insert_inst(left, left_add);
    program.insert_inst(left, left_jump);
    let right_branch = program.branch(cond, merge, vec![], exit, vec![]);
    program.insert_inst(right, right_branch);
    let recomputation = program.binary(BinaryOp::Add, x, y);
    let merge_ret = program.ret(Some(recomputation));
    program.insert_inst(merge, recomputation);
    program.insert_inst(merge, merge_ret);
    let zero = program.integer(0);
    let exit_ret = program.ret(Some(zero));
    program.insert_inst(exit, exit_ret);

    let mut pass = GVNPRE;
    assert!(pass.run(&mut program));
    assert!(!pass.run(&mut program));
    assert_eq!(program.basicblocks(function).len(), 6);
    let Op::Branch(split, f_target, _) = program.op(right_branch) else {
        panic!("expected branch")
    };
    assert_ne!(split, merge);
    assert_eq!(f_target, exit);
    assert!(program.t_args(right_branch).is_empty());
    let split_insts = program.block_insts(split);
    assert_eq!(split_insts.len(), 2);
    let inserted = split_insts[0];
    assert_eq!(program.op(inserted), Op::Binary(BinaryOp::Add));
    assert_eq!(program.op(split_insts[1]), Op::Jump(merge));
    assert_eq!(program.args(split_insts[1]), vec![inserted]);
    assert!(matches!(program.op(left_jump), Op::Jump(_)));
    assert_eq!(program.args(left_jump), vec![left_add]);
    assert_eq!(returned_value(&program, merge), program.block_params(merge)[0]);
}

#[test]
fn splits_only_missing_same_target_parallel_arm() {
    let mut program = Program::new();
    let function = program.new_function(
        Type::get_i32(),
        "parallel_missing".into(),
        vec![Type::get_i32(), Type::get_i32(), Type::get_i32()],
    );
    let head = program.add_entry_block(function);
    let merge = program.basic_block("merge".into(), vec![Type::get_i32(), Type::get_i32()]);
    program.push_bb_back(function, merge);
    let (cond, x, y) = (program.params(function)[0], program.params(function)[1], program.params(function)[2]);
    let xy = program.binary(BinaryOp::Sub, x, y);
    let branch = program.branch(cond, merge, vec![x, y], merge, vec![y, x]);
    program.insert_inst(head, xy);
    program.insert_inst(head, branch);
    let params = program.block_params(merge).clone();
    let recomputation = program.binary(BinaryOp::Sub, params[0], params[1]);
    let ret = program.ret(Some(recomputation));
    program.insert_inst(merge, recomputation);
    program.insert_inst(merge, ret);

    let mut pass = GVNPRE;
    assert!(pass.run(&mut program));
    assert!(!pass.run(&mut program));
    let Op::Branch(t_target, split, _) = program.op(branch) else {
        panic!("expected branch")
    };
    assert_eq!(t_target, merge);
    assert_eq!(program.t_args(branch), vec![x, y, xy]);
    assert_ne!(split, merge);
    assert!(program.f_args(branch).is_empty());
    let split_insts = program.block_insts(split);
    let inserted = split_insts[0];
    assert_eq!(program.op(inserted), Op::Binary(BinaryOp::Sub));
    assert_eq!(program.args(inserted), vec![y, x]);
    assert_eq!(program.op(split_insts[1]), Op::Jump(merge));
    assert_eq!(program.args(split_insts[1]), vec![y, x, inserted]);
}

#[test]
fn translates_phi_operands_for_inserted_expression() {
    let mut program = Program::new();
    let function = program.new_function(
        Type::get_i32(),
        "phi_insert".into(),
        vec![Type::get_i32(), Type::get_i32(), Type::get_i32()],
    );
    let head = program.add_entry_block(function);
    let left = program.basic_block("left".into(), vec![]);
    let right = program.basic_block("right".into(), vec![]);
    let merge = program.basic_block("merge".into(), vec![Type::get_i32(), Type::get_i32()]);
    for bb in [left, right, merge] {
        program.push_bb_back(function, bb);
    }
    let (cond, x, y) = (program.params(function)[0], program.params(function)[1], program.params(function)[2]);
    let head_branch = program.branch(cond, left, vec![], right, vec![]);
    program.insert_inst(head, head_branch);
    let left_add = program.binary(BinaryOp::Add, x, y);
    let left_jump = program.jump(merge, vec![x, y]);
    program.insert_inst(left, left_add);
    program.insert_inst(left, left_jump);
    let right_jump = program.jump(merge, vec![y, x]);
    program.insert_inst(right, right_jump);
    let params = program.block_params(merge).clone();
    let recomputation = program.binary(BinaryOp::Add, params[0], params[1]);
    let ret = program.ret(Some(recomputation));
    program.insert_inst(merge, recomputation);
    program.insert_inst(merge, ret);

    assert!(GVNPRE.run(&mut program));
    let right_insts = program.block_insts(right);
    let inserted = right_insts[0];
    assert_eq!(program.op(inserted), Op::Binary(BinaryOp::Add));
    assert_eq!(program.args(inserted), vec![y, x]);
    assert!(matches!(program.op(right_jump), Op::Jump(_)));
    assert_eq!(program.args(right_jump), vec![y, x, inserted]);
    assert!(matches!(program.op(left_jump), Op::Jump(_)));
    assert_eq!(program.args(left_jump), vec![x, y, left_add]);
}

#[test]
fn rejects_loop_header_with_backedge() {
    let mut program = Program::new();
    let function = program.new_function(
        Type::get_i32(),
        "loop".into(),
        vec![Type::get_i32(), Type::get_i32(), Type::get_i32()],
    );
    let entry = program.add_entry_block(function);
    let header = program.basic_block("header".into(), vec![]);
    let latch = program.basic_block("latch".into(), vec![]);
    let exit = program.basic_block("exit".into(), vec![]);
    for bb in [header, latch, exit] {
        program.push_bb_back(function, bb);
    }
    let (cond, x, y) = (program.params(function)[0], program.params(function)[1], program.params(function)[2]);
    let entry_add = program.binary(BinaryOp::Add, x, y);
    let entry_jump = program.jump(header, vec![]);
    program.insert_inst(entry, entry_add);
    program.insert_inst(entry, entry_jump);
    let recomputation = program.binary(BinaryOp::Add, x, y);
    let header_branch = program.branch(cond, latch, vec![], exit, vec![]);
    program.insert_inst(header, recomputation);
    program.insert_inst(header, header_branch);
    let latch_jump = program.jump(header, vec![]);
    program.insert_inst(latch, latch_jump);
    let ret = program.ret(Some(recomputation));
    program.insert_inst(exit, ret);

    assert!(!GVNPRE.run(&mut program));
    assert!(program.block_params(header).is_empty());
    assert_eq!(program.parent_bb(function, recomputation), Some(header));
}

#[test]
fn rejects_unsafe_binary_operation() {
    let mut program = Program::new();
    let function = program.new_function(
        Type::get_i32(),
        "unsafe".into(),
        vec![Type::get_i32(), Type::get_i32(), Type::get_i32()],
    );
    let head = program.add_entry_block(function);
    let left = program.basic_block("left".into(), vec![]);
    let right = program.basic_block("right".into(), vec![]);
    let merge = program.basic_block("merge".into(), vec![]);
    for bb in [left, right, merge] {
        program.push_bb_back(function, bb);
    }
    let (cond, x, y) = (program.params(function)[0], program.params(function)[1], program.params(function)[2]);
    let branch = program.branch(cond, left, vec![], right, vec![]);
    program.insert_inst(head, branch);
    let left_div = program.binary(BinaryOp::Div, x, y);
    let left_jump = program.jump(merge, vec![]);
    program.insert_inst(left, left_div);
    program.insert_inst(left, left_jump);
    let right_jump = program.jump(merge, vec![]);
    program.insert_inst(right, right_jump);
    let recomputation = program.binary(BinaryOp::Div, x, y);
    let ret = program.ret(Some(recomputation));
    program.insert_inst(merge, recomputation);
    program.insert_inst(merge, ret);

    assert!(!GVNPRE.run(&mut program));
    assert!(program.block_params(merge).is_empty());
    assert_eq!(program.parent_bb(function, recomputation), Some(merge));
}

#[test]
fn preserves_same_target_true_and_false_edges() {
    let mut program = Program::new();
    let function = program.new_function(
        Type::get_i32(),
        "parallel".into(),
        vec![Type::get_i32(), Type::get_i32(), Type::get_i32()],
    );
    let head = program.add_entry_block(function);
    let merge = program.basic_block("merge".into(), vec![Type::get_i32(), Type::get_i32()]);
    program.push_bb_back(function, merge);
    let (cond, x, y) = (program.params(function)[0], program.params(function)[1], program.params(function)[2]);
    let xy = program.binary(BinaryOp::Sub, x, y);
    let yx = program.binary(BinaryOp::Sub, y, x);
    let branch = program.branch(cond, merge, vec![x, y], merge, vec![y, x]);
    for inst in [xy, yx, branch] {
        program.insert_inst(head, inst);
    }
    let params = program.block_params(merge).clone();
    let recomputation = program.binary(BinaryOp::Sub, params[0], params[1]);
    let ret = program.ret(Some(recomputation));
    program.insert_inst(merge, recomputation);
    program.insert_inst(merge, ret);

    assert!(GVNPRE.run(&mut program));
    let result = program.block_params(merge)[2];
    assert_eq!(returned_value(&program, merge), result);
    assert_eq!(program.op(branch), Op::Branch(merge, merge, 3));
    assert_eq!(program.t_args(branch), vec![x, y, xy]);
    assert_eq!(program.f_args(branch), vec![y, x, yx]);
}

#[test]
fn keeps_a_computation_whose_operand_is_not_there_on_an_edge() {
    // `y` is computed in the join itself, so no edge can compute `x + y` before it.
    let mut program = Program::new();
    let function = program.new_function(
        Type::get_i32(),
        "late_operand".into(),
        vec![Type::get_i32(), Type::get_i32()],
    );
    let head = program.add_entry_block(function);
    let left = program.basic_block("left".into(), vec![]);
    let right = program.basic_block("right".into(), vec![]);
    let merge = program.basic_block("merge".into(), vec![]);
    for bb in [left, right, merge] {
        program.push_bb_back(function, bb);
    }
    let (cond, x) = (program.params(function)[0], program.params(function)[1]);
    let branch = program.branch(cond, left, vec![], right, vec![]);
    program.insert_inst(head, branch);
    let left_jump = program.jump(merge, vec![]);
    program.insert_inst(left, left_jump);
    let right_jump = program.jump(merge, vec![]);
    program.insert_inst(right, right_jump);
    let cell = program.alloc_local(Type::get_i32());
    let y = program.load(cell);
    let sum = program.binary(BinaryOp::Add, x, y);
    let ret = program.ret(Some(sum));
    for inst in [cell, y, sum, ret] {
        program.insert_inst(merge, inst);
    }

    assert!(!GVNPRE.run(&mut program));
    assert_eq!(returned_value(&program, merge), sum);
    assert_eq!(program.args(left_jump), vec![]);
}
