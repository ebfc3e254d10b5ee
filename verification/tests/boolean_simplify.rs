//! Comparisons with constants and truth tests.

use raana_opt::boolean_simplify::BooleanSimplification;
use raana_opt::ir::{BasicBlock, BinaryOp, Inst, Op, Type};
use raana_opt::program::Program;

fn run(program: &mut Program) {
    BooleanSimplification.run(program);
}

fn returned_value(program: &Program, bb: BasicBlock) -> Inst {
    let ret = program.terminator(bb);
    assert_eq!(program.op(ret), Op::Return);
    assert_eq!(program.num_args(ret), 1);
    program.arg(ret, 0)
}

#[test]
fn removes_compare_truthiness_wrapper() {
    let mut program = Program::new();
    let function =
        program.new_function(Type::get_i32(), "truthy".into(), vec![Type::get_i32()]);
    let entry = program.add_entry_block(function);
    let x = program.params(function)[0];
    let zero = program.integer(0);
    let compare = program.binary(BinaryOp::Lt, x, zero);
    let wrapped = program.binary(BinaryOp::NotEq, compare, zero);
    let ret = program.ret(Some(wrapped));
    for inst in [compare, wrapped, ret] {
        program.insert_inst(entry, inst);
    }

    run(&mut program);
    assert_eq!(returned_value(&program, entry), compare);
}

#[test]
fn complements_integer_compare_against_zero() {
    let mut program = Program::new();
    let function =
        program.new_function(Type::get_i32(), "inverse".into(), vec![Type::get_i32()]);
    let entry = program.add_entry_block(function);
    let x = program.params(function)[0];
    let zero = program.integer(0);
    let compare = program.binary(BinaryOp::Lt, x, zero);
    let inverse = program.binary(BinaryOp::Eq, compare, zero);
    let ret = program.ret(Some(inverse));
    for inst in [compare, inverse, ret] {
        program.insert_inst(entry, inst);
    }

    run(&mut program);
    assert_eq!(program.op(inverse), Op::Binary(BinaryOp::Ge));
    assert_eq!(program.args(inverse), vec![x, zero]);
    assert_eq!(returned_value(&program, entry), inverse);
}

#[test]
fn retains_float_relational_complement() {
    let mut program = Program::new();
    let function = program.new_function(Type::get_i32(), "float".into(), vec![Type::get_f32()]);
    let entry = program.add_entry_block(function);
    let x = program.params(function)[0];
    let zero_float = program.float_bits(0);
    let zero_int = program.integer(0);
    let compare = program.binary(BinaryOp::Lt, x, zero_float);
    let inverse = program.binary(BinaryOp::Eq, compare, zero_int);
    let ret = program.ret(Some(inverse));
    for inst in [compare, inverse, ret] {
        program.insert_inst(entry, inst);
    }

    run(&mut program);
    assert_eq!(program.op(inverse), Op::Binary(BinaryOp::Eq));
    assert_eq!(program.args(inverse), vec![compare, zero_int]);
}

#[test]
fn strips_branch_truthiness_and_swaps_zero_test_edges() {
    let mut program = Program::new();
    let function =
        program.new_function(Type::get_unit(), "branch".into(), vec![Type::get_i32()]);
    let entry = program.add_entry_block(function);
    let yes = program.basic_block("yes".into(), vec![]);
    let no = program.basic_block("no".into(), vec![]);
    for bb in [yes, no] {
        program.push_bb_back(function, bb);
    }
    let x = program.params(function)[0];
    let zero = program.integer(0);
    let cond = program.binary(BinaryOp::Eq, x, zero);
    let branch = program.branch(cond, yes, vec![], no, vec![]);
    let yes_ret = program.ret(None);
    let no_ret = program.ret(None);
    for (bb, inst) in [(entry, cond), (entry, branch), (yes, yes_ret), (no, no_ret)] {
        program.insert_inst(bb, inst);
    }

    run(&mut program);
    let Op::Branch(t_target, f_target, _) = program.op(branch) else {
        panic!("expected branch");
    };
    assert_eq!(program.arg(branch, 0), x);
    assert_eq!((t_target, f_target), (no, yes));
}

#[test]
fn simplifies_select_truthiness_without_substituting_arbitrary_truthy_value() {
    let mut program = Program::new();
    let function =
        program.new_function(Type::get_i32(), "select".into(), vec![Type::get_i32()]);
    let entry = program.add_entry_block(function);
    let x = program.params(function)[0];
    let zero = program.integer(0);
    let one = program.integer(1);
    let cond = program.binary(BinaryOp::NotEq, x, zero);
    let select = program.select(cond, one, zero);
    let ret = program.ret(Some(select));
    for inst in [cond, select, ret] {
        program.insert_inst(entry, inst);
    }

    run(&mut program);
    let result = returned_value(&program, entry);
    assert_eq!(program.op(result), Op::Select);
    assert_eq!(program.args(result), vec![x, one, zero]);
}

#[test]
fn swaps_select_arms_for_zero_test() {
    let mut program = Program::new();
    let function =
        program.new_function(Type::get_i32(), "select_zero".into(), vec![Type::get_i32()]);
    let entry = program.add_entry_block(function);
    let x = program.params(function)[0];
    let zero = program.integer(0);
    let if_true = program.integer(10);
    let if_false = program.integer(20);
    let cond = program.binary(BinaryOp::Eq, x, zero);
    let select = program.select(cond, if_true, if_false);
    let ret = program.ret(Some(select));
    for inst in [cond, select, ret] {
        program.insert_inst(entry, inst);
    }

    run(&mut program);
    let result = returned_value(&program, entry);
    assert_eq!(program.op(result), Op::Select);
    assert_eq!(program.args(result), vec![x, if_false, if_true]);
}

#[test]
fn follows_selects_however_deep() {
    let mut program = Program::new();
    let function =
        program.new_function(Type::get_i32(), "deep".into(), vec![Type::get_i32()]);
    let entry = program.add_entry_block(function);
    let x = program.params(function)[0];
    let zero = program.integer(0);
    let one = program.integer(1);
    let compare = program.binary(BinaryOp::Lt, x, zero);
    program.insert_inst(entry, compare);
    let mut chosen = compare;
    for _ in 0..8 {
        chosen = program.select(x, one, chosen);
        program.insert_inst(entry, chosen);
    }
    let wrapped = program.binary(BinaryOp::NotEq, chosen, zero);
    let ret = program.ret(Some(wrapped));
    program.insert_inst(entry, wrapped);
    program.insert_inst(entry, ret);

    run(&mut program);
    assert_eq!(returned_value(&program, entry), chosen);
}
