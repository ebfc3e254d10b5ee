//! Constants across calls and memory.

use raana_opt::ipsccp::IPSCCP;
use raana_opt::ir::{BinaryOp, Function, Inst, Op, Type};
use raana_opt::program::Program;

fn build_float_cast(value: f32) -> (Program, Function, Inst, Inst) {
    let mut program = Program::new();
    let main = program.new_function(Type::get_i32(), "main".into(), vec![]);
    let entry = program.add_entry_block(main);
    let source = program.float_bits(value.to_bits());
    let cast = program.cast(source, Type::get_i32());
    let ret = program.ret(Some(cast));
    program.insert_inst(entry, cast);
    program.insert_inst(entry, ret);
    (program, main, cast, ret)
}

fn assert_float_cast_folds(value: f32, expected: i32) {
    let (mut program, main, cast, ret) = build_float_cast(value);

    assert!(IPSCCP.run(&mut program));

    assert_eq!(program.op(cast), Op::Integer(expected));
    assert_eq!(program.parent_bb(main, cast), None);
    assert_eq!(program.op(ret), Op::Return);
    assert_eq!(program.args(ret), vec![cast]);
}

#[test]
fn folds_in_range_float_literals_to_i32() {
    assert_float_cast_folds(3.75, 3);
    assert_float_cast_folds(-2.75, -2);
    assert_float_cast_folds(i32::MIN as f32, i32::MIN);
}

#[test]
fn keeps_non_finite_and_out_of_range_float_casts() {
    for value in [i32::MAX as f32, 1.0e10, f32::INFINITY, f32::NAN] {
        let (mut program, _, cast, _) = build_float_cast(value);

        assert!(!IPSCCP.run(&mut program));
        assert_eq!(program.op(cast), Op::Cast);
    }
}

/// Build a self-recursive tail-call function and verify that IPSCCP does
/// not mis-propagate a parameter that varies across recursive tail calls.
///
/// ```text
/// fun(n: i32, dep: i32) -> i32:
///     if n == 0: return dep      // base case - dep must stay variable
///     else: tail_call fun(n - 1, dep + 1)
/// main(): return fun(2, 0)
/// ```
///
/// With correct tail-call argument propagation, `dep` receives both
/// `Constant(0)` (from main) and `Constant(1)` (from the recursive
/// `dep+1`), converging to `Bottom`. Without the fix, IPSCCP would only
/// see the non-tail call `fun(2, 0)` and constant-propagate `dep` to `0`,
/// replacing the `ret dep` with `ret 0`.
#[test]
fn tail_call_args_prevent_constant_mispropagation() {
    let mut program = Program::new();

    // fun(n: i32, dep: i32) -> i32
    let fun = program.new_function(
        Type::get_i32(),
        "fun".into(),
        vec![Type::get_i32(), Type::get_i32()],
    );
    let dep_param = {
        let entry = program.add_entry_block(fun);
        let params = program.block_params(entry);
        let n = params[0];
        let dep = params[1];

        let base = program.basic_block("base".into(), vec![]);
        let rec = program.basic_block("rec".into(), vec![]);
        program.push_bb_back(fun, base);
        program.push_bb_back(fun, rec);

        // entry: br (n == 0), base, rec
        // (Integer constants are not placed in the layout - IPSCCP
        // initialises their lattice in Stage 0.1.)
        let zero = program.integer(0);
        let cond = program.binary(BinaryOp::Eq, n, zero);
        let br = program.branch(cond, base, vec![], rec, vec![]);
        program.insert_inst(entry, cond);
        program.insert_inst(entry, br);

        // base: ret dep
        let ret_dep = program.ret(Some(dep));
        program.insert_inst(base, ret_dep);

        // rec: tail_call fun(n - 1, dep + 1)
        let one = program.integer(1);
        let nm1 = program.binary(BinaryOp::Sub, n, one);
        let one2 = program.integer(1);
        let depp1 = program.binary(BinaryOp::Add, dep, one2);
        let tc = program.tail_call(fun, vec![nm1, depp1]);
        program.insert_inst(rec, nm1);
        program.insert_inst(rec, depp1);
        program.insert_inst(rec, tc);

        dep
    };

    // main() -> i32: return fun(2, 0)
    let main = program.new_function(Type::get_i32(), "main".into(), vec![]);
    {
        let entry = program.add_entry_block(main);
        let two = program.integer(2);
        let zero = program.integer(0);
        let call = program.call_with_type(fun, vec![two, zero], Type::get_i32());
        let ret = program.ret(Some(call));
        program.insert_inst(entry, call);
        program.insert_inst(entry, ret);
    }

    IPSCCP.run(&mut program);

    // After IPSCCP, `dep` must still be a BlockArgRef (not folded to an
    // Integer constant). If the tail-call arm were missing, dep's lattice
    // would be Constant(0) and `replace_inst_with` would have mutated its
    // data to Integer(0).
    assert!(
        matches!(program.op(dep_param), Op::BlockArgRef),
        "dep parameter was constant-propagated - tail-call arg propagation is broken"
    );
}

#[test]
fn constant_block_param_replaces_uses_without_mutating_param() {
    let mut program = Program::new();
    let main = program.new_function(Type::get_i32(), "main".into(), vec![]);
    let (param, ret) = {
        let entry = program.add_entry_block(main);
        let target = program.basic_block("target".into(), vec![Type::get_i32()]);
        program.push_bb_back(main, target);

        let seven = program.integer(7);
        let jump = program.jump(target, vec![seven]);
        program.insert_inst(entry, jump);

        let param = program.block_params(target)[0];
        let ret = program.ret(Some(param));
        program.insert_inst(target, ret);
        (param, ret)
    };

    assert!(IPSCCP.run(&mut program));

    assert_eq!(program.op(param), Op::BlockArgRef);
    assert_eq!(program.op(ret), Op::Return);
    let value = program.arg(ret, 0);
    assert_eq!(program.op(value), Op::Integer(7));

}

#[test]
fn constant_function_param_replaces_uses_without_mutating_abi_param() {
    let mut program = Program::new();
    let callee = program.new_function(Type::get_i32(), "callee".into(), vec![Type::get_i32()]);
    let (param, ret) = {
        let entry = program.add_entry_block(callee);
        let param = program.params(callee)[0];
        let ret = program.ret(Some(param));
        program.insert_inst(entry, ret);
        (param, ret)
    };

    let main = program.new_function(Type::get_i32(), "main".into(), vec![]);
    {
        let entry = program.add_entry_block(main);
        let seven = program.integer(7);
        let call = program.call_with_type(callee, vec![seven], Type::get_i32());
        let ret = program.ret(Some(call));
        program.insert_inst(entry, call);
        program.insert_inst(entry, ret);
    }

    assert!(IPSCCP.run(&mut program));

    assert_eq!(program.op(param), Op::BlockArgRef);
    assert_eq!(program.op(program.params(callee)[0]), Op::BlockArgRef);
    assert_eq!(program.op(ret), Op::Return);
    let value = program.arg(ret, 0);
    assert_eq!(program.op(value), Op::Integer(7));

}

// --- main-memory simulation (constant-offset cells) ---

fn new_global(program: &mut Program) -> Inst {
    let init = program.zero_init(Type::get_i32());
    program.global_alloc(init)
}

#[test]
fn folds_store_load_roundtrip_on_global_cell() {
    let mut program = Program::new();
    let global = new_global(&mut program);
    let main = program.new_function(Type::get_i32(), "main".into(), vec![]);
    let (load, ret) = {
        let entry = program.add_entry_block(main);
        let zero = program.integer(0);
        let gep = program.get_elem_ptr(global, vec![zero]);
        program.insert_inst(entry, gep);
        let five = program.integer(5);
        let store = program.store(five, gep);
        program.insert_inst(entry, store);
        let load = program.load(gep);
        program.insert_inst(entry, load);
        let ret = program.ret(Some(load));
        program.insert_inst(entry, ret);
        (load, ret)
    };

    assert!(IPSCCP.run(&mut program));
    assert_eq!(program.op(load), Op::Integer(5));
    assert_eq!(program.op(ret), Op::Return);
    assert_eq!(program.args(ret), vec![load]);
}

#[test]
fn zero_initialized_global_load_folds_to_zero() {
    let mut program = Program::new();
    let global = new_global(&mut program);
    let main = program.new_function(Type::get_i32(), "main".into(), vec![]);
    let (load, _ret) = {
        let entry = program.add_entry_block(main);
        let zero = program.integer(0);
        let gep = program.get_elem_ptr(global, vec![zero]);
        program.insert_inst(entry, gep);
        let load = program.load(gep);
        program.insert_inst(entry, load);
        let ret = program.ret(Some(load));
        program.insert_inst(entry, ret);
        (load, ret)
    };

    assert!(IPSCCP.run(&mut program));
    assert_eq!(program.op(load), Op::Integer(0));
}

#[test]
fn mem_zero_makes_local_array_loads_zero() {
    let mut program = Program::new();
    let main = program.new_function(Type::get_i32(), "main".into(), vec![]);
    let (load, _ret) = {
        let entry = program.add_entry_block(main);
        let alloc = program.alloc_local(Type::get_array(Type::get_i32(), 4));
        program.insert_inst(entry, alloc);
        let clear = program.mem_zero(alloc, 16);
        program.insert_inst(entry, clear);
        let zero = program.integer(0);
        let gep = program.get_elem_ptr(alloc, vec![zero, zero]);
        program.insert_inst(entry, gep);
        let load = program.load(gep);
        program.insert_inst(entry, load);
        let ret = program.ret(Some(load));
        program.insert_inst(entry, ret);
        (load, ret)
    };

    assert!(IPSCCP.run(&mut program));
    assert_eq!(program.op(load), Op::Integer(0));
}

#[test]
fn call_to_writer_invalidates_global_cell() {
    let mut program = Program::new();
    let global = new_global(&mut program);
    // The writer stores its (unknown) argument into the global.
    let writer = program.new_function(Type::get_unit(), "writer".into(), vec![Type::get_i32()]);
    {
        let entry = program.add_entry_block(writer);
        let param = program.params(writer)[0];
        let store = program.store(param, global);
        program.insert_inst(entry, store);
        let ret = program.ret(None);
        program.insert_inst(entry, ret);
    }
    let main = program.new_function(Type::get_i32(), "main".into(), vec![]);
    // An unknown value flows into the writer's parameter.
    let getint = program.new_function(Type::get_i32(), "getint".into(), vec![]);
    let (load, _ret) = {
        let entry = program.add_entry_block(main);
        let zero = program.integer(0);
        let gep = program.get_elem_ptr(global, vec![zero]);
        program.insert_inst(entry, gep);
        let five = program.integer(5);
        let store = program.store(five, gep);
        program.insert_inst(entry, store);
        let input = program.call(getint, vec![]);
        program.insert_inst(entry, input);
        let call = program.call(writer, vec![input]);
        program.insert_inst(entry, call);
        let load = program.load(gep);
        program.insert_inst(entry, load);
        let ret = program.ret(Some(load));
        program.insert_inst(entry, ret);
        (load, ret)
    };

    let _ = IPSCCP.run(&mut program);
    // The writer may have overwritten the cell with an unknown value:
    // the load stays a load.
    assert_eq!(program.op(load), Op::Load);
}

#[test]
fn caller_store_blocks_zero_merge_in_callee() {
    let mut program = Program::new();
    let global = new_global(&mut program);
    let getint = program.new_function(Type::get_i32(), "getint".into(), vec![]);
    let helper = program.new_function(Type::get_i32(), "helper".into(), vec![]);
    let main = program.new_function(Type::get_i32(), "main".into(), vec![]);
    let load = {
        let entry = program.add_entry_block(helper);
        let zero = program.integer(0);
        let gep = program.get_elem_ptr(global, vec![zero]);
        program.insert_inst(entry, gep);
        let load = program.load(gep);
        program.insert_inst(entry, load);
        let ret = program.ret(Some(load));
        program.insert_inst(entry, ret);
        load
    };
    {
        let entry = program.add_entry_block(main);
        let zero = program.integer(0);
        let gep = program.get_elem_ptr(global, vec![zero]);
        program.insert_inst(entry, gep);
        let input = program.call(getint, vec![]);
        program.insert_inst(entry, input);
        let store = program.store(input, gep);
        program.insert_inst(entry, store);
        let call = program.call(helper, vec![]);
        program.insert_inst(entry, call);
        let ret = program.ret(Some(call));
        program.insert_inst(entry, ret);
    }

    let _ = IPSCCP.run(&mut program);
    assert_eq!(program.op(load), Op::Load);
}

#[test]
fn call_to_deterministic_writer_folds_load() {
    let mut program = Program::new();
    let global = new_global(&mut program);
    // The writer stores a compile-time constant into the global.
    let writer = program.new_function(Type::get_unit(), "writer".into(), vec![]);
    {
        let entry = program.add_entry_block(writer);
        let one = program.integer(1);
        let store = program.store(one, global);
        program.insert_inst(entry, store);
        let ret = program.ret(None);
        program.insert_inst(entry, ret);
    }
    let main = program.new_function(Type::get_i32(), "main".into(), vec![]);
    let (load, _ret) = {
        let entry = program.add_entry_block(main);
        let zero = program.integer(0);
        let gep = program.get_elem_ptr(global, vec![zero]);
        program.insert_inst(entry, gep);
        let call = program.call(writer, vec![]);
        program.insert_inst(entry, call);
        let load = program.load(gep);
        program.insert_inst(entry, load);
        let ret = program.ret(Some(load));
        program.insert_inst(entry, ret);
        (load, ret)
    };

    assert!(IPSCCP.run(&mut program));
    // The callee's constant store is modeled: the load folds to 1.
    assert_eq!(program.op(load), Op::Integer(1));
}

#[test]
fn distinct_offsets_do_not_share_cells() {
    let mut program = Program::new();
    let global = new_global(&mut program);
    let main = program.new_function(Type::get_i32(), "main".into(), vec![]);
    let (load, _ret) = {
        let entry = program.add_entry_block(main);
        let zero = program.integer(0);
        let one = program.integer(1);
        let gep0 = program.get_elem_ptr(global, vec![zero]);
        let gep1 = program.get_elem_ptr(global, vec![one]);
        program.insert_inst(entry, gep0);
        program.insert_inst(entry, gep1);
        let five = program.integer(5);
        let store = program.store(five, gep0);
        program.insert_inst(entry, store);
        let load = program.load(gep1);
        program.insert_inst(entry, load);
        let ret = program.ret(Some(load));
        program.insert_inst(entry, ret);
        (load, ret)
    };

    let _ = IPSCCP.run(&mut program);
    // g[1] was never written: still a load.
    assert_eq!(program.op(load), Op::Load);
}

#[test]
fn divergent_stores_merge_to_bottom() {
    let mut program = Program::new();
    let global = new_global(&mut program);
    let main = program.new_function(Type::get_i32(), "main".into(), vec![]);
    let (load, _ret) = {
        let entry = program.add_entry_block(main);
        let then_block = program.basic_block("then".into(), vec![]);
        let else_block = program.basic_block("else".into(), vec![]);
        let merge = program.basic_block("merge".into(), vec![]);
        for block in [then_block, else_block, merge] {
            program.push_bb_back(main, block);
        }

        let zero = program.integer(0);
        let gep = program.get_elem_ptr(global, vec![zero]);
        program.insert_inst(entry, gep);
        let one = program.integer(1);
        let store_one = program.store(one, gep);
        program.insert_inst(entry, store_one);
        let cond = program.load(gep);
        program.insert_inst(entry, cond);
        let branch = program.branch(cond, then_block, vec![], else_block, vec![]);
        program.insert_inst(entry, branch);

        let two = program.integer(2);
        let store_two = program.store(two, gep);
        program.insert_inst(else_block, store_two);
        let jump_t = program.jump(merge, vec![]);
        program.insert_inst(then_block, jump_t);
        let jump_e = program.jump(merge, vec![]);
        program.insert_inst(else_block, jump_e);

        let load = program.load(gep);
        program.insert_inst(merge, load);
        let ret = program.ret(Some(load));
        program.insert_inst(merge, ret);
        (load, ret)
    };

    let _ = IPSCCP.run(&mut program);
    // Two different constant writers on different paths: Bottom, so the
    // load is not folded to either.
    assert_eq!(program.op(load), Op::Load);
}

#[test]
fn load_before_store_in_same_block_stays_zero() {
    let mut program = Program::new();
    let global = new_global(&mut program);
    let main = program.new_function(Type::get_i32(), "main".into(), vec![]);
    let (load, _ret) = {
        let entry = program.add_entry_block(main);
        let zero = program.integer(0);
        let gep = program.get_elem_ptr(global, vec![zero]);
        program.insert_inst(entry, gep);
        let load = program.load(gep);
        program.insert_inst(entry, load);
        let five = program.integer(5);
        let store = program.store(five, gep);
        program.insert_inst(entry, store);
        let ret = program.ret(Some(load));
        program.insert_inst(entry, ret);
        (load, ret)
    };

    assert!(IPSCCP.run(&mut program));
    assert_eq!(program.op(load), Op::Integer(0));
}

#[test]
fn loop_carried_cell_load_not_folded_to_init() {
    let mut program = Program::new();
    let global = new_global(&mut program);
    let main = program.new_function(Type::get_i32(), "main".into(), vec![Type::get_i32()]);
    let (load, _ret) = {
        let entry = program.add_entry_block(main);
        let header = program.basic_block("header".into(), vec![Type::get_i32()]);
        let body = program.basic_block("body".into(), vec![]);
        let exit = program.basic_block("exit".into(), vec![]);
        program.push_bb_back(main, header);
        program.push_bb_back(main, body);
        program.push_bb_back(main, exit);
        let bound = program.params(main)[0];
        let zero = program.integer(0);
        let gep = program.get_elem_ptr(global, vec![zero]);
        program.insert_inst(entry, gep);
        let entry_jump = program.jump(header, vec![zero]);
        program.insert_inst(entry, entry_jump);

        let r = program.block_params(header)[0];
        let test = program.binary(BinaryOp::Lt, r, bound);
        let branch = program.branch(test, body, vec![], exit, vec![]);
        program.insert_inst(header, test);
        program.insert_inst(header, branch);
        let load = program.load(gep);
        program.insert_inst(body, load);
        let one = program.integer(1);
        let sub = program.binary(BinaryOp::Sub, one, load);
        program.insert_inst(body, sub);
        let store = program.store(sub, gep);
        program.insert_inst(body, store);
        let r2 = program.binary(BinaryOp::Add, r, one);
        program.insert_inst(body, r2);
        let back = program.jump(header, vec![r2]);
        program.insert_inst(body, back);

        let ret = program.ret(Some(load));
        program.insert_inst(exit, ret);
        (load, ret)
    };

    let _ = IPSCCP.run(&mut program);
    assert_eq!(program.op(load), Op::Load);
}

#[test]
fn single_writer_on_one_branch_keeps_load() {
    let mut program = Program::new();
    let global = new_global(&mut program);
    let main = program.new_function(Type::get_i32(), "main".into(), vec![]);
    let (load, _ret) = {
        let entry = program.add_entry_block(main);
        let then_block = program.basic_block("then".into(), vec![]);
        let merge = program.basic_block("merge".into(), vec![]);
        program.push_bb_back(main, then_block);
        program.push_bb_back(main, merge);

        let zero = program.integer(0);
        let gep = program.get_elem_ptr(global, vec![zero]);
        program.insert_inst(entry, gep);
        let alloc = program.alloc_local(Type::get_i32());
        program.insert_inst(entry, alloc);
        let cond = program.load(alloc);
        program.insert_inst(entry, cond);
        let branch = program.branch(cond, then_block, vec![], merge, vec![]);
        program.insert_inst(entry, branch);

        let seven = program.integer(7);
        let store = program.store(seven, gep);
        program.insert_inst(then_block, store);
        let jump = program.jump(merge, vec![]);
        program.insert_inst(then_block, jump);

        let load = program.load(gep);
        program.insert_inst(merge, load);
        let ret = program.ret(Some(load));
        program.insert_inst(merge, ret);
        (load, ret)
    };

    let _ = IPSCCP.run(&mut program);
    assert_eq!(program.op(load), Op::Load);
}

#[test]
fn identical_writers_on_both_branches_fold() {
    let mut program = Program::new();
    let global = new_global(&mut program);
    let main = program.new_function(Type::get_i32(), "main".into(), vec![]);
    let (load, _ret) = {
        let entry = program.add_entry_block(main);
        let then_block = program.basic_block("then".into(), vec![]);
        let else_block = program.basic_block("else".into(), vec![]);
        let merge = program.basic_block("merge".into(), vec![]);
        for block in [then_block, else_block, merge] {
            program.push_bb_back(main, block);
        }

        let zero = program.integer(0);
        let gep = program.get_elem_ptr(global, vec![zero]);
        program.insert_inst(entry, gep);
        let alloc = program.alloc_local(Type::get_i32());
        program.insert_inst(entry, alloc);
        let cond = program.load(alloc);
        program.insert_inst(entry, cond);
        let branch = program.branch(cond, then_block, vec![], else_block, vec![]);
        program.insert_inst(entry, branch);

        let five = program.integer(5);
        let store_t = program.store(five, gep);
        program.insert_inst(then_block, store_t);
        let jump_t = program.jump(merge, vec![]);
        program.insert_inst(then_block, jump_t);
        let five2 = program.integer(5);
        let store_e = program.store(five2, gep);
        program.insert_inst(else_block, store_e);
        let jump_e = program.jump(merge, vec![]);
        program.insert_inst(else_block, jump_e);

        let load = program.load(gep);
        program.insert_inst(merge, load);
        let ret = program.ret(Some(load));
        program.insert_inst(merge, ret);
        (load, ret)
    };

    assert!(IPSCCP.run(&mut program));
    assert_eq!(program.op(load), Op::Integer(5));
}

#[test]
fn load_before_call_to_writer_stays_zero() {
    let mut program = Program::new();
    let global = new_global(&mut program);
    // The writer stores a compile-time constant into the global.
    let writer = program.new_function(Type::get_unit(), "writer".into(), vec![]);
    {
        let entry = program.add_entry_block(writer);
        let one = program.integer(1);
        let store = program.store(one, global);
        program.insert_inst(entry, store);
        let ret = program.ret(None);
        program.insert_inst(entry, ret);
    }
    let main = program.new_function(Type::get_i32(), "main".into(), vec![]);
    let (load, _ret) = {
        let entry = program.add_entry_block(main);
        let zero = program.integer(0);
        let gep = program.get_elem_ptr(global, vec![zero]);
        program.insert_inst(entry, gep);
        let load = program.load(gep);
        program.insert_inst(entry, load);
        let call = program.call(writer, vec![]);
        program.insert_inst(entry, call);
        let ret = program.ret(Some(load));
        program.insert_inst(entry, ret);
        (load, ret)
    };

    let _ = IPSCCP.run(&mut program);
    let kind = program.op(load);
    assert!(
        matches!(kind, Op::Load)
            || matches!(kind, Op::Integer(0)),
        "load after a later call must not fold to the callee's value, got {kind:?}"
    );
}

#[test]
fn zero_initialized_f32_global_load_stays_load() {
    let mut program = Program::new();
    let init = program.zero_init(Type::get_f32());
    let global = program.global_alloc(init);
    let main = program.new_function(Type::get_i32(), "main".into(), vec![]);
    let (load, _ret) = {
        let entry = program.add_entry_block(main);
        let zero = program.integer(0);
        let gep = program.get_elem_ptr(global, vec![zero]);
        program.insert_inst(entry, gep);
        let load = program.load(gep);
        program.insert_inst(entry, load);
        let ret = program.ret(Some(load));
        program.insert_inst(entry, ret);
        (load, ret)
    };

    let _ = IPSCCP.run(&mut program);
    assert_eq!(program.op(load), Op::Load);
}

#[test]
fn dynamic_index_store_invalidates_static_load() {
    let mut program = Program::new();
    let getint = program.new_function(Type::get_i32(), "getint".into(), vec![]);
    let main = program.new_function(Type::get_i32(), "main".into(), vec![]);
    let (load, _ret) = {
        let entry = program.add_entry_block(main);
        let alloc = program.alloc_local(Type::get_array(Type::get_i32(), 4));
        program.insert_inst(entry, alloc);
        let clear = program.mem_zero(alloc, 16);
        program.insert_inst(entry, clear);
        let idx = program.call(getint, vec![]);
        program.insert_inst(entry, idx);
        let gep_dyn = program.get_elem_ptr(alloc, vec![idx]);
        program.insert_inst(entry, gep_dyn);
        let five = program.integer(5);
        let store = program.store(five, gep_dyn);
        program.insert_inst(entry, store);
        let zero = program.integer(0);
        let gep3 = program.get_elem_ptr(alloc, vec![zero, zero]);
        program.insert_inst(entry, gep3);
        let load = program.load(gep3);
        program.insert_inst(entry, load);
        let ret = program.ret(Some(load));
        program.insert_inst(entry, ret);
        (load, ret)
    };

    let _ = IPSCCP.run(&mut program);
    assert_eq!(program.op(load), Op::Load);
}

/// `main` writes 7 through `L`'s parameter, which is `a` or `b`, or writes 1 to `a`; then it reads `a`.
fn writes_through_a_parameter() -> (Program, Inst) {
    let mut program = Program::new();
    let getint = program.new_function(Type::get_i32(), "getint".into(), vec![]);
    let main = program.new_function(Type::get_i32(), "main".into(), vec![]);
    let entry = program.add_entry_block(main);
    let x = program.basic_block("x".into(), vec![]);
    let l = program.basic_block("l".into(), vec![Type::get_pointer(Type::get_i32())]);
    let r = program.basic_block("r".into(), vec![]);
    let m = program.basic_block("m".into(), vec![]);
    for block in [x, l, r, m] {
        program.push_bb_back(main, block);
    }
    let a = program.alloc_local(Type::get_i32());
    let b = program.alloc_local(Type::get_i32());
    let c1 = program.call(getint, vec![]);
    let c2 = program.call(getint, vec![]);
    let first = program.branch(c1, l, vec![a], x, vec![]);
    for inst in [a, b, c1, c2, first] {
        program.insert_inst(entry, inst);
    }
    let second = program.branch(c2, l, vec![b], r, vec![]);
    program.insert_inst(x, second);
    let seven = program.integer(7);
    let target = program.block_params(l)[0];
    let store_seven = program.store(seven, target);
    let from_l = program.jump(m, vec![]);
    program.insert_inst(l, store_seven);
    program.insert_inst(l, from_l);
    let one = program.integer(1);
    let store_one = program.store(one, a);
    let from_r = program.jump(m, vec![]);
    program.insert_inst(r, store_one);
    program.insert_inst(r, from_r);
    let load = program.load(a);
    let ret = program.ret(Some(load));
    program.insert_inst(m, load);
    program.insert_inst(m, ret);
    (program, load)
}

#[test]
fn write_through_a_parameter_keeps_later_loads() {
    let (mut program, load) = writes_through_a_parameter();
    let _ = IPSCCP.run(&mut program);
    assert_eq!(program.op(load), Op::Load);
}

#[test]
fn unresolved_write_reaches_objects_that_are_met_later() {
    // The write goes through a loaded address before the global is met anywhere.
    let mut program = Program::new();
    let global = new_global(&mut program);
    let main = program.new_function(
        Type::get_i32(),
        "main".into(),
        vec![Type::get_pointer(Type::get_i32())],
    );
    let entry = program.add_entry_block(main);
    let somewhere = program.params(main)[0];
    let five = program.integer(5);
    let store = program.store(five, somewhere);
    let load = program.load(global);
    let ret = program.ret(Some(load));
    for inst in [store, load, ret] {
        program.insert_inst(entry, inst);
    }
    let _ = IPSCCP.run(&mut program);
    assert_eq!(program.op(load), Op::Load);
}

#[test]
fn store_after_a_call_does_not_reach_the_callee() {
    let mut program = Program::new();
    let global = new_global(&mut program);
    let reader = program.new_function(Type::get_i32(), "reader".into(), vec![]);
    let inside = program.add_entry_block(reader);
    let load = program.load(global);
    let ret = program.ret(Some(load));
    program.insert_inst(inside, load);
    program.insert_inst(inside, ret);
    let main = program.new_function(Type::get_i32(), "main".into(), vec![]);
    let entry = program.add_entry_block(main);
    let call = program.call(reader, vec![]);
    let nine = program.integer(9);
    let store = program.store(nine, global);
    let back = program.ret(Some(call));
    for inst in [call, store, back] {
        program.insert_inst(entry, inst);
    }
    assert!(IPSCCP.run(&mut program));
    assert_eq!(program.op(load), Op::Integer(0));
}

#[test]
fn store_before_a_second_call_reaches_the_callee() {
    let mut program = Program::new();
    let global = new_global(&mut program);
    let reader = program.new_function(Type::get_i32(), "reader".into(), vec![]);
    let inside = program.add_entry_block(reader);
    let load = program.load(global);
    let ret = program.ret(Some(load));
    program.insert_inst(inside, load);
    program.insert_inst(inside, ret);
    let main = program.new_function(Type::get_i32(), "main".into(), vec![]);
    let entry = program.add_entry_block(main);
    let first = program.call(reader, vec![]);
    let nine = program.integer(9);
    let store = program.store(nine, global);
    let second = program.call(reader, vec![]);
    let back = program.ret(Some(second));
    for inst in [first, store, second, back] {
        program.insert_inst(entry, inst);
    }
    let _ = IPSCCP.run(&mut program);
    assert_eq!(program.op(load), Op::Load);
}

/// `main` writes 3 to a local, calls a function without a body, with the local where `hand` says so, and reads it.
fn call_between_write_and_read(hand: bool) -> (Program, Inst) {
    let mut program = Program::new();
    let param_tys = if hand { vec![Type::get_pointer(Type::get_i32())] } else { vec![] };
    let outside = program.new_function(Type::get_i32(), "outside".into(), param_tys);
    let main = program.new_function(Type::get_i32(), "main".into(), vec![]);
    let entry = program.add_entry_block(main);
    let local = program.alloc_local(Type::get_i32());
    let three = program.integer(3);
    let store = program.store(three, local);
    let call = program.call(outside, if hand { vec![local] } else { vec![] });
    let load = program.load(local);
    let ret = program.ret(Some(load));
    for inst in [local, store, call, load, ret] {
        program.insert_inst(entry, inst);
    }
    (program, load)
}

#[test]
fn function_without_a_body_or_an_address_changes_nothing() {
    let (mut program, load) = call_between_write_and_read(false);
    assert!(IPSCCP.run(&mut program));
    assert_eq!(program.op(load), Op::Integer(3));
}

#[test]
fn function_without_a_body_may_write_through_an_address() {
    let (mut program, load) = call_between_write_and_read(true);
    let _ = IPSCCP.run(&mut program);
    assert_eq!(program.op(load), Op::Load);
}
