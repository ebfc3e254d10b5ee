//! Branches turned into selections.

use raana_opt::if_conversion::IfConversion;
use raana_opt::ir::{BinaryOp, Function, Op, Type};
use raana_opt::program::Program;

fn select_count(program: &Program, function: Function) -> usize {
    program.placed_insts(function).into_iter().filter(|&inst| program.op(inst) == Op::Select).count()
}

fn run(program: &mut Program) {
    IfConversion.run(program);
}

#[test]
fn converts_same_target_branch_atomically() {
    let mut program = Program::new();
    let function = program.new_function(Type::get_i32(), "same".into(), vec![Type::get_i32()]);
    let head = program.add_entry_block(function);
    let merge = program.basic_block("merge".into(), vec![Type::get_i32(), Type::get_i32()]);
    program.push_bb_back(function, merge);
    let cond = program.params(function)[0];
    let one = program.integer(1);
    let two = program.integer(2);
    let branch =
        program.branch(cond, merge, vec![one, two], merge, vec![two, two]);
    program.insert_inst(head, branch);
    let params = program.block_params(merge).clone();
    let sum = program.binary(BinaryOp::Add, params[0], params[1]);
    program.insert_inst(merge, sum);
    let ret = program.ret(Some(sum));
    program.insert_inst(merge, ret);

    run(&mut program);
    assert_eq!(program.basicblocks(function).len(), 2);
    assert_eq!(select_count(&program, function), 1);
    assert!(program.block_params(merge).is_empty());
    let terminator = program.terminator(head);
    assert_eq!(program.op(terminator), Op::Jump(merge));
    assert!(program.args(terminator).is_empty());
}

#[test]
fn converts_empty_diamond_with_dominating_values() {
    let mut program = Program::new();
    let function =
        program.new_function(Type::get_i32(), "diamond".into(), vec![Type::get_i32()]);
    let head = program.add_entry_block(function);
    let yes = program.basic_block("yes".into(), vec![]);
    let no = program.basic_block("no".into(), vec![]);
    let merge = program.basic_block("merge".into(), vec![Type::get_i32()]);
    for bb in [yes, no, merge] {
        program.push_bb_back(function, bb);
    }
    let cond = program.params(function)[0];
    let one = program.integer(1);
    let dominating = program.binary(BinaryOp::Add, cond, one);
    program.insert_inst(head, dominating);
    let branch = program.branch(cond, yes, vec![], no, vec![]);
    program.insert_inst(head, branch);
    let yes_jump = program.jump(merge, vec![dominating]);
    program.insert_inst(yes, yes_jump);
    let no_jump = program.jump(merge, vec![one]);
    program.insert_inst(no, no_jump);
    let param = program.block_params(merge)[0];
    let ret = program.ret(Some(param));
    program.insert_inst(merge, ret);

    run(&mut program);
    assert_eq!(program.basicblocks(function), vec![head, merge]);
    assert_eq!(select_count(&program, function), 1);
}

#[test]
fn converts_abs_triangle_with_sub_zero_x() {
    let mut program = Program::new();
    let function = program.new_function(Type::get_i32(), "abs".into(), vec![Type::get_i32()]);
    let head = program.add_entry_block(function);
    let neg = program.basic_block("neg".into(), vec![]);
    let merge = program.basic_block("merge".into(), vec![Type::get_i32()]);
    for bb in [neg, merge] {
        program.push_bb_back(function, bb);
    }
    let x = program.params(function)[0];
    let zero = program.integer(0);
    let branch = program.branch(x, merge, vec![x], neg, vec![]);
    program.insert_inst(head, branch);
    let negate = program.binary(BinaryOp::Sub, zero, x);
    program.insert_inst(neg, negate);
    let jump = program.jump(merge, vec![negate]);
    program.insert_inst(neg, jump);
    let param = program.block_params(merge)[0];
    let ret = program.ret(Some(param));
    program.insert_inst(merge, ret);

    run(&mut program);
    assert_eq!(program.basicblocks(function), vec![head, merge]);
    assert_eq!(program.parent_bb(function, negate), Some(head));
    assert_eq!(select_count(&program, function), 1);
}

#[test]
fn rejects_arm_local_with_external_user() {
    let mut program = Program::new();
    let function =
        program.new_function(Type::get_i32(), "external".into(), vec![Type::get_i32()]);
    let head = program.add_entry_block(function);
    let arm = program.basic_block("arm".into(), vec![]);
    let merge = program.basic_block("merge".into(), vec![Type::get_i32()]);
    for bb in [arm, merge] {
        program.push_bb_back(function, bb);
    }
    let x = program.params(function)[0];
    let zero = program.integer(0);
    let branch = program.branch(x, merge, vec![x], arm, vec![]);
    program.insert_inst(head, branch);
    let local = program.binary(BinaryOp::Sub, zero, x);
    program.insert_inst(arm, local);
    let jump = program.jump(merge, vec![local]);
    program.insert_inst(arm, jump);
    let param = program.block_params(merge)[0];
    let external = program.binary(BinaryOp::Add, param, local);
    program.insert_inst(merge, external);
    let ret = program.ret(Some(external));
    program.insert_inst(merge, ret);

    run(&mut program);
    assert_eq!(program.basicblocks(function).len(), 3);
    assert_eq!(select_count(&program, function), 0);
    assert!(matches!(program.op(branch), Op::Branch(..)));
}

#[test]
fn rejects_merge_with_extra_predecessor_and_trapping_binary() {
    let mut program = Program::new();
    let function =
        program.new_function(Type::get_i32(), "negative".into(), vec![Type::get_i32()]);
    let head = program.add_entry_block(function);
    let arm = program.basic_block("arm".into(), vec![]);
    let extra = program.basic_block("extra".into(), vec![]);
    let merge = program.basic_block("merge".into(), vec![Type::get_i32()]);
    for bb in [arm, extra, merge] {
        program.push_bb_back(function, bb);
    }
    let x = program.params(function)[0];
    let one = program.integer(1);
    let branch = program.branch(x, merge, vec![x], arm, vec![]);
    program.insert_inst(head, branch);
    let div = program.binary(BinaryOp::Div, one, x);
    program.insert_inst(arm, div);
    let arm_jump = program.jump(merge, vec![div]);
    program.insert_inst(arm, arm_jump);
    let extra_jump = program.jump(merge, vec![one]);
    program.insert_inst(extra, extra_jump);
    let param = program.block_params(merge)[0];
    let ret = program.ret(Some(param));
    program.insert_inst(merge, ret);

    run(&mut program);
    assert_eq!(program.basicblocks(function).len(), 4);
    assert_eq!(select_count(&program, function), 0);
}

#[test]
fn converts_same_target_loop_preserving_the_loop() {
    // A branch whose merge reaches the head used to be rejected wholesale;
    //  relaxes this to a dominance check, so the loop survives but the
    // branch becomes a select (correct: head dominates merge, and the
    // select's operands are all available at head).
    let mut program = Program::new();
    let function = program.new_function(Type::get_unit(), "loop".into(), vec![Type::get_i32()]);
    let head = program.add_entry_block(function);
    let merge = program.basic_block("merge".into(), vec![Type::get_i32()]);
    for bb in [merge] {
        program.push_bb_back(function, bb);
    }
    let cond = program.params(function)[0];
    let one = program.integer(1);
    let two = program.integer(2);
    let branch = program.branch(cond, merge, vec![one], merge, vec![two]);
    program.insert_inst(head, branch);
    let backedge = program.jump(head, vec![cond]);
    program.insert_inst(merge, backedge);

    run(&mut program);
    assert_eq!(program.basicblocks(function).len(), 2, "loop must survive");
    assert_eq!(select_count(&program, function), 1);
    assert_eq!(program.op(backedge), Op::Jump(head));
}

#[test]
fn folds_land_triangle_into_band() {
    // `if (bit_a == 1 && bit_b == 1) result += power` (land shape):
    //   head: c1 = eq ...; br c1, rhs, merge(0, ...)
    //   rhs:  c2 = eq ...; jump merge(c2, ...)
    // folds to band(c1, c2) in head, rhs deleted.
    let mut program = Program::new();
    let function = program.new_function(Type::get_i32(), "land".into(), vec![Type::get_i32()]);
    let head = program.add_entry_block(function);
    let rhs = program.basic_block("rhs".into(), vec![]);
    let merge = program.basic_block("merge".into(), vec![Type::get_i32(), Type::get_i32()]);
    for bb in [rhs, merge] {
        program.push_bb_back(function, bb);
    }
    let a = program.params(function)[0];
    let one_a = program.integer(1);
    let c1 = program.binary(BinaryOp::Eq, a, one_a);
    program.insert_inst(head, c1);
    let seven = program.integer(7);
    let pass = program.binary(BinaryOp::Add, a, seven);
    program.insert_inst(head, pass);
    let zero = program.integer(0);
    let two_a = program.integer(2);
    let c2 = program.binary(BinaryOp::Eq, a, two_a);
    program.insert_inst(rhs, c2);
    let branch = program.branch(c1, rhs, vec![], merge, vec![zero, pass]);
    program.insert_inst(head, branch);
    let rhs_jump = program.jump(merge, vec![c2, pass]);
    program.insert_inst(rhs, rhs_jump);
    let param = program.block_params(merge)[0];
    let ret = program.ret(Some(param));
    program.insert_inst(merge, ret);

    run(&mut program);
    assert_eq!(program.basicblocks(function).len(), 2, "rhs block must be removed");
    assert_eq!(select_count(&program, function), 0);
    let band_count = program
        .placed_insts(function)
        .into_iter()
        .filter(|&inst| program.op(inst) == Op::Binary(BinaryOp::And) && program.users(inst).len() == 1)
        .count();
    assert_eq!(band_count, 1, "one band must replace the land branch");
    assert!(program.parent_bb(function, c2).is_some_and(|bb| bb == head));
}

#[test]
fn folds_lor_triangle_into_bor() {
    // `if (bit_a == 1 || bit_b == 1) ...` (lor shape):
    //   head: c1 = eq ...; br c1, merge(c1, ...), rhs
    //   rhs:  c2 = eq ...; jump merge(c2, ...)
    // folds to bor(c1, c2) in head, rhs deleted.
    let mut program = Program::new();
    let function = program.new_function(Type::get_i32(), "lor".into(), vec![Type::get_i32()]);
    let head = program.add_entry_block(function);
    let rhs = program.basic_block("rhs".into(), vec![]);
    let merge = program.basic_block("merge".into(), vec![Type::get_i32(), Type::get_i32()]);
    for bb in [rhs, merge] {
        program.push_bb_back(function, bb);
    }
    let a = program.params(function)[0];
    let one_a = program.integer(1);
    let c1 = program.binary(BinaryOp::Eq, a, one_a);
    program.insert_inst(head, c1);
    let seven = program.integer(7);
    let pass = program.binary(BinaryOp::Add, a, seven);
    program.insert_inst(head, pass);
    let branch = program.branch(c1, merge, vec![c1, pass], rhs, vec![]);
    program.insert_inst(head, branch);
    let two_a = program.integer(2);
    let c2 = program.binary(BinaryOp::Eq, a, two_a);
    program.insert_inst(rhs, c2);
    let rhs_jump = program.jump(merge, vec![c2, pass]);
    program.insert_inst(rhs, rhs_jump);
    let param = program.block_params(merge)[0];
    let ret = program.ret(Some(param));
    program.insert_inst(merge, ret);

    run(&mut program);
    assert_eq!(program.basicblocks(function).len(), 2, "rhs block must be removed");
    assert_eq!(select_count(&program, function), 0);
    let bor_count = program
        .placed_insts(function)
        .into_iter()
        .filter(|&inst| program.op(inst) == Op::Binary(BinaryOp::Or) && program.users(inst).len() == 1)
        .count();
    assert_eq!(bor_count, 1, "one bor must replace the lor branch");
}

#[test]
fn converts_loop_accumulator_with_speculation() {
    // `while (len) { if (bit_a == 1 && bit_b == 1)
    // result += power; ... }` - the inner triangle's merge is reachable
    // from its head through the loop back-edge, which the old
    // `reaches(merge, head)` guard rejected. head dominates merge, so the
    // accumulator now converts to a select.
    let mut program = Program::new();
    let function = program.new_function(Type::get_i32(), "acc".into(), vec![Type::get_i32()]);
    let head = program.add_entry_block(function);
    let arm = program.basic_block("arm".into(), vec![]);
    let merge = program.basic_block("merge".into(), vec![Type::get_i32()]);
    for bb in [arm, merge] {
        program.push_bb_back(function, bb);
    }
    let a = program.params(function)[0];
    let one_a = program.integer(1);
    let cond = program.binary(BinaryOp::Eq, a, one_a);
    program.insert_inst(head, cond);
    let branch = program.branch(cond, arm, vec![], merge, vec![a]);
    program.insert_inst(head, branch);
    // arm: result' = result + power (operands dominate head).
    let one_b = program.integer(1);
    let inc = program.binary(BinaryOp::Add, a, one_b);
    program.insert_inst(arm, inc);
    let arm_jump = program.jump(merge, vec![inc]);
    program.insert_inst(arm, arm_jump);
    let param = program.block_params(merge)[0];
    let back = program.jump(head, vec![param]);
    program.insert_inst(merge, back);

    run(&mut program);
    assert_eq!(program.basicblocks(function).len(), 2, "arm must be removed, loop survives");
    assert_eq!(select_count(&program, function), 1);
    assert!(program.parent_bb(function, inc).is_some_and(|bb| bb == head));
    assert_eq!(program.op(back), Op::Jump(head));
}

#[test]
fn keeps_a_branch_whose_arm_passes_what_is_not_there() {
    // The arm passes a value that it loads itself: a load is not moved to the head.
    let mut program = Program::new();
    let function = program.new_function(Type::get_i32(), "arm_load".into(), vec![Type::get_i32()]);
    let head = program.add_entry_block(function);
    let arm = program.basic_block("arm".into(), vec![]);
    let merge = program.basic_block("merge".into(), vec![Type::get_i32()]);
    program.push_bb_back(function, arm);
    program.push_bb_back(function, merge);
    let x = program.params(function)[0];
    let cell = program.alloc_local(Type::get_i32());
    let branch = program.branch(x, arm, vec![], merge, vec![x]);
    program.insert_inst(head, cell);
    program.insert_inst(head, branch);
    let loaded = program.load(cell);
    let jump = program.jump(merge, vec![loaded]);
    program.insert_inst(arm, loaded);
    program.insert_inst(arm, jump);
    let param = program.block_params(merge)[0];
    let ret = program.ret(Some(param));
    program.insert_inst(merge, ret);

    run(&mut program);
    assert!(matches!(program.op(branch), Op::Branch(_, _, _)));
    assert_eq!(select_count(&program, function), 0);
}
