//! Matrices kept by columns.

use raana_opt::column_major::{
    collect_candidates, flatten, rewrite_candidate, transpose_initializer, verify_rewrite, Candidate, ColumnMajor,
    RootKind,
};
use raana_opt::ir::{BinaryOp, Function, Inst, Op, Type};
use raana_opt::program::Program;

struct LoopFixture {
    function: Function,
    alloc: Inst,
    gep: Inst,
    row: Inst,
    column: Inst,
    load: Inst,
}

fn build_loop(row_varies: bool, bound_value: i32) -> (Program, LoopFixture) {
    let matrix_ty = Type::get_array(Type::get_array(Type::get_i32(), 64), 32);
    let mut program = Program::new();
    let function = program.new_function(Type::get_unit(), "column_major".into(), vec![]);
    let entry = program.add_entry_block(function);
    let header = program.basic_block("header".into(), vec![Type::get_i32()]);
    let body = program.basic_block("body".into(), vec![]);
    let exit = program.basic_block("exit".into(), vec![]);
    for block in [header, body, exit] {
        program.push_bb_back(function, block);
    }

    let alloc = program.alloc_local(matrix_ty);
    let zero = program.integer(0);
    let entry_jump = program.jump(header, vec![zero]);
    for inst in [alloc, entry_jump] {
        program.insert_inst(entry, inst);
    }

    let iv = program.block_params(header)[0];
    let bound = program.integer(bound_value);
    let condition = program.binary(BinaryOp::Lt, iv, bound);
    let branch = program.branch(condition, body, vec![], exit, vec![]);
    for inst in [condition, branch] {
        program.insert_inst(header, inst);
    }

    let fixed = program.integer(3);
    let (row, column) = if row_varies { (iv, fixed) } else { (fixed, iv) };
    let gep = program.get_elem_ptr(alloc, vec![zero, row, column]);
    let load = program.load(gep);
    let one = program.integer(1);
    let next = program.binary(BinaryOp::Add, iv, one);
    let backedge = program.jump(header, vec![next]);
    for inst in [gep, load, next, backedge] {
        program.insert_inst(body, inst);
    }

    let ret = program.ret(None);
    program.insert_inst(exit, ret);

    (
        program,
        LoopFixture {
            function,
            alloc,
            gep,
            row,
            column,
            load,
        },
    )
}

fn build_row_varying_loop() -> (Program, LoopFixture) {
    build_loop(true, 32)
}

#[test]
fn transposes_a_hot_row_varying_local_matrix_access() {
    let (mut program, fixture) = build_row_varying_loop();

    assert!(ColumnMajor.run(&mut program));

    let expected = Type::get_pointer(Type::get_array(Type::get_array(Type::get_i32(), 32), 64));
    assert_eq!(program.ty(fixture.alloc), expected);
    assert_eq!(program.op(fixture.gep), Op::GetElemPtr);
    assert_eq!(program.arg(fixture.gep, 0), fixture.alloc);
    assert_eq!(program.arg(fixture.gep, 2), fixture.column);
    assert_eq!(program.arg(fixture.gep, 3), fixture.row);
}

#[test]
fn rejects_an_out_of_bounds_induction_range() {
    let (mut program, _) = build_loop(true, 33);

    assert!(!ColumnMajor.run(&mut program));
}

#[test]
fn keeps_an_existing_unit_stride_layout() {
    let (mut program, fixture) = build_loop(false, 32);
    let old_ty = program.ty(fixture.alloc);

    assert!(!ColumnMajor.run(&mut program));
    assert_eq!(program.ty(fixture.alloc), old_ty);
}

#[test]
fn preserves_multiple_memory_users_of_one_gep() {
    let (mut program, fixture) = build_row_varying_loop();
    let block = program.parent_bb(fixture.function, fixture.load).unwrap();
    let second_load = program.load(fixture.gep);
    program.insert_inst_before(block, fixture.load, second_load);

    assert!(ColumnMajor.run(&mut program));
    assert_eq!(program.users(fixture.gep).len(), 2);
    assert!(program.users(fixture.gep).contains(&fixture.load));
    assert!(program.users(fixture.gep).contains(&second_load));
    assert_eq!(program.parent_bb(fixture.function, second_load), Some(block));
}

#[test]
fn transposes_a_zero_initialized_global_through_the_full_pass() {
    let mut program = Program::new();
    let old_ty = Type::get_array(Type::get_array(Type::get_i32(), 64), 32);
    let init = program.zero_init(old_ty);
    let global = program.global_alloc(init);
    let function = program.new_function(Type::get_unit(), "main".into(), vec![]);
    let entry = program.add_entry_block(function);
    let header = program.basic_block("header".into(), vec![Type::get_i32()]);
    let body = program.basic_block("body".into(), vec![]);
    let exit = program.basic_block("exit".into(), vec![]);
    for block in [header, body, exit] {
        program.push_bb_back(function, block);
    }
    let zero = program.integer(0);
    let entry_jump = program.jump(header, vec![zero]);
    program.insert_inst(entry, entry_jump);
    let row = program.block_params(header)[0];
    let bound = program.integer(32);
    let condition = program.binary(BinaryOp::Lt, row, bound);
    let branch = program.branch(condition, body, vec![], exit, vec![]);
    for inst in [condition, branch] {
        program.insert_inst(header, inst);
    }
    let column = program.integer(1);
    let gep = program.get_elem_ptr(global, vec![zero, row, column]);
    let load = program.load(gep);
    let one = program.integer(1);
    let next = program.binary(BinaryOp::Add, row, one);
    let backedge = program.jump(header, vec![next]);
    for inst in [gep, load, next, backedge] {
        program.insert_inst(body, inst);
    }
    let ret = program.ret(None);
    program.insert_inst(exit, ret);

    assert!(ColumnMajor.run(&mut program));
    let expected = Type::get_pointer(Type::get_array(Type::get_array(Type::get_i32(), 32), 64));
    assert_eq!(program.ty(global), expected);
    assert_eq!(program.op(global), Op::GlobalAlloc);
    assert_eq!(program.op(program.arg(global, 0)), Op::ZeroInit);
}

#[test]
fn transposes_rectangular_global_aggregate_leaves() {
    let mut program = Program::new();
    let leaves = (0..6)
        .map(|value| program.global_integer(value))
        .collect::<Vec<_>>();
    let first = program.aggregate(leaves[0..3].to_vec());
    let second = program.aggregate(leaves[3..6].to_vec());
    let init = program.aggregate(vec![first, second]);
    let global = program.global_alloc(init);
    let function = program.new_function(Type::get_unit(), "main".into(), vec![]);
    let entry = program.add_entry_block(function);
    let ret = program.ret(None);
    program.insert_inst(entry, ret);

    let candidate = Candidate {
        root: global,
        kind: RootKind::Global { init },
        rows: 2,
        columns: 3,
        element_ty: Type::get_i32(),
        accesses: Vec::new(),
    };
    let new_ty = Type::get_array(Type::get_array(Type::get_i32(), 2), 3);
    let new_init = transpose_initializer(&mut program, init, &candidate, &new_ty);
    assert_eq!(program.op(new_init), Op::Aggregate);
    let flattened = flatten(&program, new_init, usize::MAX);
    assert_eq!(
        flattened,
        vec![
            leaves[0], leaves[3], leaves[1], leaves[4], leaves[2], leaves[5]
        ]
    );
    assert_eq!(program.ty(new_init), new_ty);
}

#[test]
fn rejects_a_matrix_pointer_that_escapes_through_a_call() {
    let (mut program, fixture) = build_row_varying_loop();
    let ty = program.ty(fixture.alloc);
    let callee = program.new_function(Type::get_unit(), "consume".into(), vec![ty]);
    let entry = program.basicblocks(fixture.function)[0];
    let call =
        program.call_with_type(callee, vec![fixture.alloc], Type::get_unit());
    let terminator = program.terminator(entry);
    program.insert_inst_before(entry, terminator, call);

    assert!(!ColumnMajor.run(&mut program));
}

#[test]
fn a_rewritten_matrix_is_found_rewritten() {
    let (mut program, fixture) = build_row_varying_loop();
    let before = program.num_insts();
    let found = collect_candidates(&program);
    assert_eq!(found.len(), 1);
    assert_eq!(found[0].accesses.len(), 1);
    let new_ty = Type::get_array(Type::get_array(Type::get_i32(), 32), 64);
    assert!(!verify_rewrite(&program, &found[0], &new_ty));

    rewrite_candidate(&mut program, &found[0]);

    assert!(verify_rewrite(&program, &found[0], &new_ty));
    assert_eq!(program.num_insts(), before);
    assert_eq!(program.ty(fixture.gep), Type::get_pointer(Type::get_i32()));
    assert_eq!(program.args(fixture.load), vec![fixture.gep]);
}

/// The matrix is read in the header of a loop, which runs once more when the counter has reached its bound.
#[test]
fn rejects_an_access_in_the_header_of_its_loop() {
    let matrix_ty = Type::get_array(Type::get_array(Type::get_i32(), 64), 32);
    let mut program = Program::new();
    let function = program.new_function(Type::get_unit(), "header_access".into(), vec![]);
    let entry = program.add_entry_block(function);
    let header = program.basic_block("header".into(), vec![Type::get_i32()]);
    let body = program.basic_block("body".into(), vec![]);
    let exit = program.basic_block("exit".into(), vec![]);
    for block in [header, body, exit] {
        program.push_bb_back(function, block);
    }
    let alloc = program.alloc_local(matrix_ty);
    let zero = program.integer(0);
    let entry_jump = program.jump(header, vec![zero]);
    for inst in [alloc, entry_jump] {
        program.insert_inst(entry, inst);
    }
    let iv = program.block_params(header)[0];
    let fixed = program.integer(3);
    let gep = program.get_elem_ptr(alloc, vec![zero, iv, fixed]);
    let load = program.load(gep);
    let bound = program.integer(32);
    let condition = program.binary(BinaryOp::Lt, iv, bound);
    let branch = program.branch(condition, body, vec![], exit, vec![]);
    for inst in [gep, load, condition, branch] {
        program.insert_inst(header, inst);
    }
    let one = program.integer(1);
    let next = program.binary(BinaryOp::Add, iv, one);
    let backedge = program.jump(header, vec![next]);
    for inst in [next, backedge] {
        program.insert_inst(body, inst);
    }
    let ret = program.ret(None);
    program.insert_inst(exit, ret);

    assert!(!ColumnMajor.run(&mut program));
}

#[test]
fn rearranging_an_initial_value_twice_gives_it_back() {
    let mut program = Program::new();
    let cells = (10..16).map(|value| program.global_integer(value)).collect::<Vec<_>>();
    let first = program.aggregate(cells[0..3].to_vec());
    let second = program.aggregate(cells[3..6].to_vec());
    let init = program.aggregate(vec![first, second]);
    let global = program.global_alloc(init);
    let by_rows = Type::get_array(Type::get_array(Type::get_i32(), 3), 2);
    let by_columns = Type::get_array(Type::get_array(Type::get_i32(), 2), 3);
    let matrix = |init: Inst, rows: usize, columns: usize| Candidate {
        root: global,
        kind: RootKind::Global { init },
        rows,
        columns,
        element_ty: Type::get_i32(),
        accesses: Vec::new(),
    };
    let once = transpose_initializer(&mut program, init, &matrix(init, 2, 3), &by_columns);
    let columns = flatten(&program, once, usize::MAX);
    for row in 0..2 {
        for column in 0..3 {
            assert_eq!(columns[column * 2 + row], cells[row * 3 + column]);
        }
    }
    let twice = transpose_initializer(&mut program, once, &matrix(once, 3, 2), &by_rows);
    assert_eq!(flatten(&program, twice, usize::MAX), cells);
    assert_eq!(program.ty(twice), by_rows);
}
