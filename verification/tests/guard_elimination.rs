//! Tests for negative values.

use raana_opt::guard_elimination::GuardElimination;
use raana_opt::ir::{BinaryOp, Function, Inst, Op, Type};
use raana_opt::program::Program;

/// `g(x)`: `br (x < 0), neg, nonneg; neg: ret 0; nonneg: ret x`.
fn build_guard(program: &mut Program, name: &str, use_param: bool) -> (Function, Inst) {
    let f = program.new_function(Type::get_i32(), name.into(), vec![Type::get_i32()]);
    let (branch, _) = {
        let entry = program.add_entry_block(f);
        let neg = program.basic_block("neg".into(), vec![]);
        let pos = program.basic_block("pos".into(), vec![]);
        program.push_bb_back(f, neg);
        program.push_bb_back(f, pos);
        let x = program.params(f)[0];
        let guard = if use_param {
            x
        } else {
            let five = program.integer(5);
            program.insert_inst(entry, five);
            five
        };
        let zero = program.integer(0);
        let cond = program.binary(BinaryOp::Lt, guard, zero);
        let branch = program.branch(cond, neg, vec![], pos, vec![]);
        program.insert_inst(entry, cond);
        program.insert_inst(entry, branch);
        let ret_zero = program.ret(Some(zero));
        program.insert_inst(neg, ret_zero);
        let ret_x = program.ret(Some(x));
        program.insert_inst(pos, ret_x);
        (branch, x)
    };
    (f, branch)
}

#[test]
fn folds_guard_on_constant_nonneg_and_keeps_param_guard() {
    let mut program = Program::new();
    let (_, const_branch) = build_guard(&mut program, "f_const", false);
    let (param_guard, param_branch) = build_guard(&mut program, "f_param", true);

    // `main` calls `f_param(load)` (input-derived), so the parameter guard
    // must stay; the constant guard is provably never taken.
    let main = program.new_function(Type::get_i32(), "main".into(), vec![]);
    {
        let entry = program.add_entry_block(main);
        let ptr = program.alloc_local(Type::get_i32());
        let load = program.load(ptr);
        let call =
            program.call_with_type(param_guard, vec![load], Type::get_i32());
        let ret = program.ret(None);
        program.insert_inst(entry, load);
        program.insert_inst(entry, call);
        program.insert_inst(entry, ret);
    }

    let mut pass = GuardElimination;
    pass.run(&mut program);

    assert!(
        matches!(program.op(const_branch), Op::Jump(_)),
        "constant guard must fold to a jump"
    );
    assert!(
        matches!(program.op(param_branch), Op::Branch(..)),
        "input-derived guard must stay a branch"
    );
}
