//! Loops that add the same in every round.

use raana_opt::invariant_reduction_hoisting::InvariantReductionHoisting;
use raana_opt::ir::{BinaryOp, Function, Op, Type};
use raana_opt::program::Program;

/// Build a `for r in 0..R { for i in 0..T { acc += a[i]; } }` nest. The
/// outer loop carries `[r, acc]` and the inner loop carries `[i, acc]`.
fn build_nest(program: &mut Program, symbolic_bound: bool) -> Function {
    let function = program.new_function(
        Type::get_i32(),
        "nest".into(),
        vec![
            Type::get_i32(),
            Type::get_i32(),
            Type::get_pointer(Type::get_array(Type::get_i32(), 16)),
        ],
    );
    let entry = program.add_entry_block(function);
    let (r_bound, t_bound) = if symbolic_bound {
        (program.params(function)[0], program.params(function)[1])
    } else {
        (program.integer(2), program.integer(8))
    };
    let base = program.params(function)[2];

    let outer = program.basic_block("outer".into(), vec![Type::get_i32(), Type::get_i32()]);
    let outer_body = program.basic_block("outer_body".into(), vec![]);
    let inner = program.basic_block("inner".into(), vec![Type::get_i32(), Type::get_i32()]);
    let inner_body = program.basic_block("inner_body".into(), vec![]);
    let inner_exit = program.basic_block("inner_exit".into(), vec![]);
    let outer_latch = program.basic_block("outer_latch".into(), vec![]);
    let outer_exit = program.basic_block("exit".into(), vec![]);
    for block in [
        outer,
        outer_body,
        inner,
        inner_body,
        inner_exit,
        outer_latch,
        outer_exit,
    ] {
        program.push_bb_back(function, block);
    }

    let zero = program.integer(0);
    let one = program.integer(1);
    let entry_jump = program.jump(outer, vec![zero, zero]);
    program.insert_inst(entry, entry_jump);

    let r = program.block_params(outer)[0];
    let acc = program.block_params(outer)[1];
    let r_test = program.binary(BinaryOp::Lt, r, r_bound);
    let outer_branch =
        program.branch(r_test, outer_body, vec![], outer_exit, vec![]);
    program.insert_inst(outer, r_test);
    program.insert_inst(outer, outer_branch);

    let enter_inner = program.jump(inner, vec![zero, acc]);
    program.insert_inst(outer_body, enter_inner);

    let i = program.block_params(inner)[0];
    let inner_acc = program.block_params(inner)[1];
    let i_test = program.binary(BinaryOp::Lt, i, t_bound);
    let inner_branch =
        program.branch(i_test, inner_body, vec![], inner_exit, vec![]);
    program.insert_inst(inner, i_test);
    program.insert_inst(inner, inner_branch);

    let gep = program.get_elem_ptr(base, vec![zero, i]);
    let load = program.load(gep);
    let acc2 = program.binary(BinaryOp::Add, inner_acc, load);
    let i2 = program.binary(BinaryOp::Add, i, one);
    for inst in [gep, load, acc2, i2] {
        program.insert_inst(inner_body, inst);
    }
    let inner_back = program.jump(inner, vec![i2, acc2]);
    program.insert_inst(inner_body, inner_back);

    let r2 = program.binary(BinaryOp::Add, r, one);
    program.insert_inst(inner_exit, r2);
    let outer_back = program.jump(outer, vec![r2, inner_acc]);
    program.insert_inst(inner_exit, outer_back);

    let ret = program.ret(Some(acc));
    program.insert_inst(outer_exit, ret);
    function
}

fn run(program: &mut Program, function: Function) -> bool {
    InvariantReductionHoisting.run_on(program, function)
}

#[test]
fn degrades_an_invariant_outer_reduction_nest() {
    let mut program = Program::new();
    let function = build_nest(&mut program, true);
    let original_blocks = program.basicblocks(function).len();
    let changed = run(&mut program, function);
    assert!(changed);

    // A compute-once clone of the nest plus the `compute_done` block were
    // added (4 nest blocks + done).
    let new_blocks = program.basicblocks(function).len();
    assert!(new_blocks >= original_blocks + 5);

    // `compute_done` receives `D_total` and jumps into the degraded loop.
    let done = program
        .basicblocks(function)
        .into_iter()
        .find(|&b| program.block_name(b).starts_with("irh_done"))
        .expect("compute_done must exist");
    let Op::Jump(outer) = program.op(program.terminator(done)) else {
        panic!("compute_done must end in a jump");
    };
    // The degraded outer header carries an extra `D_total` carrier param.
    assert_eq!(program.block_params(outer).len(), 3);

    // The degraded header branches straight to the latch, skipping the nest.
    let Op::Branch(latch, outside, _) = program.op(program.terminator(outer)) else {
        panic!("outer header must branch");
    };
    assert_eq!(
        program
            .block_name(outside)
            .trim_end_matches(|c: char| c.is_ascii_digit() || c == '_'),
        "exit"
    );
    let latch_jump = program.terminator(latch);
    assert_eq!(program.op(latch_jump), Op::Jump(outer));
    assert_eq!(program.num_args(latch_jump), 3);

    // The second application must be stable (the degraded loop is no longer
    // a non-trivial nest).
    assert!(!run(&mut program, function));
    assert_eq!(
        program.basicblocks(function).len(),
        new_blocks
    );

    // Every terminator that still targets the degraded header must supply
    // the carrier argument, including the original (now unreachable)
    // latch edge: `used_by` reverse links survive until DCE, and
    // DeadPhiElimination walks them to trim arguments, so a stale edge
    // with a short argument list would misalign them.
    let stale_edges = program.block_users(outer);
    assert!(
        stale_edges.len() >= 3,
        "compute_done + degraded latch + original latch must target the header"
    );
    for inst in stale_edges {
        match program.op(inst) {
            Op::Jump(_) => {
                assert_eq!(
                    program.num_args(inst),
                    3,
                    "stale jump edge must carry the carrier"
                );
            }
            Op::Branch(t_target, f_target, _) => {
                if t_target == outer {
                    assert_eq!(program.t_args(inst).len(), 3);
                }
                if f_target == outer {
                    assert_eq!(program.f_args(inst).len(), 3);
                }
            }
            _ => panic!("a terminator targeting the header must be a jump or branch"),
        }
    }
}

#[test]
fn skips_a_nest_with_a_store_in_the_outer_body() {
    let mut program = Program::new();
    let function =
        program.new_function(Type::get_i32(), "store_nest".into(), vec![Type::get_i32()]);
    let entry = program.add_entry_block(function);
    let bound = program.params(function)[0];
    let outer = program.basic_block("outer".into(), vec![Type::get_i32(), Type::get_i32()]);
    let body = program.basic_block("body".into(), vec![]);
    let exit = program.basic_block("exit".into(), vec![]);
    for block in [outer, body, exit] {
        program.push_bb_back(function, block);
    }
    let zero = program.integer(0);
    let entry_jump = program.jump(outer, vec![zero, zero]);
    program.insert_inst(entry, entry_jump);
    let r = program.block_params(outer)[0];
    let acc = program.block_params(outer)[1];
    let one = program.integer(1);
    let test = program.binary(BinaryOp::Lt, r, bound);
    let branch = program.branch(test, body, vec![], exit, vec![]);
    program.insert_inst(outer, test);
    program.insert_inst(outer, branch);
    let slot = program.alloc_local(Type::get_i32());
    let store = program.store(zero, slot);
    let acc2 = program.binary(BinaryOp::Add, acc, one);
    let r2 = program.binary(BinaryOp::Add, r, one);
    for inst in [slot, store, acc2, r2] {
        program.insert_inst(body, inst);
    }
    let back = program.jump(outer, vec![r2, acc2]);
    program.insert_inst(body, back);
    let ret = program.ret(Some(acc));
    program.insert_inst(exit, ret);

    let blocks = program.basicblocks(function).len();
    assert!(
        !run(&mut program, function),
        "a store in the body must veto"
    );
    assert_eq!(
        program.basicblocks(function).len(),
        blocks
    );
}

/// The nest with its step made `left - right`: the sum less what is read, or the other way round.
fn subtracting_nest(program: &mut Program, sum_first: bool) -> Function {
    let function = build_nest(program, true);
    let body = program.basicblocks(function)[4];
    let insts = program.block_insts(body);
    let (load, step) = (insts[1], insts[2]);
    let sum = program.args(step)[0];
    let args = if sum_first { vec![sum, load] } else { vec![load, sum] };
    program.set_inst(step, Op::Binary(BinaryOp::Sub), args, Type::get_i32());
    function
}

#[test]
fn a_sum_may_be_taken_from() {
    let mut program = Program::new();
    let function = subtracting_nest(&mut program, true);
    assert!(run(&mut program, function));
}

#[test]
fn a_sum_may_not_be_taken_off() {
    let mut program = Program::new();
    let function = subtracting_nest(&mut program, false);
    let blocks = program.basicblocks(function).len();
    assert!(!run(&mut program, function));
    assert_eq!(program.basicblocks(function).len(), blocks);
}

#[test]
fn the_counter_may_not_be_added_to_the_sum() {
    let mut program = Program::new();
    let function = build_nest(&mut program, true);
    let latch = program.basicblocks(function)[5];
    let back = program.terminator(latch);
    let header = program.basicblocks(function)[1];
    let (moved, sum) = (program.args(back)[0], program.args(back)[1]);
    let counter = program.block_params(header)[0];
    let more = program.binary(BinaryOp::Add, sum, counter);
    program.insert_inst_before(latch, back, more);
    program.set_inst(back, Op::Jump(header), vec![moved, more], Type::get_unit());
    let blocks = program.basicblocks(function).len();
    assert!(!run(&mut program, function));
    assert_eq!(program.basicblocks(function).len(), blocks);
}

/// The nest with a third value carried round the outer loop, which comes back as it was or one larger.
fn carrying_nest(program: &mut Program, changes: bool) -> Function {
    let function = build_nest(program, true);
    let blocks = program.basicblocks(function);
    let (entry, outer, latch) = (blocks[0], blocks[1], blocks[5]);
    let third = program.add_param(outer, Type::get_i32());
    let one = program.integer(1);
    let enter = program.terminator(entry);
    let mut args = program.args(enter);
    args.push(one);
    program.set_inst(enter, Op::Jump(outer), args, Type::get_unit());
    let back = program.terminator(latch);
    let mut args = program.args(back);
    if changes {
        let more = program.binary(BinaryOp::Add, third, one);
        program.insert_inst_before(latch, back, more);
        args.push(more);
    } else {
        args.push(third);
    }
    program.set_inst(back, Op::Jump(outer), args, Type::get_unit());
    function
}

#[test]
fn another_value_may_be_carried_round() {
    let mut program = Program::new();
    let function = carrying_nest(&mut program, false);
    assert!(run(&mut program, function));
}

#[test]
fn another_value_may_not_change_in_a_round() {
    let mut program = Program::new();
    let function = carrying_nest(&mut program, true);
    let blocks = program.basicblocks(function).len();
    assert!(!run(&mut program, function));
    assert_eq!(program.basicblocks(function).len(), blocks);
}

/// The pass finds nothing to do.
fn left_alone(program: &mut Program, function: Function) {
    let blocks = program.basicblocks(function).len();
    assert!(!run(program, function));
    assert_eq!(program.basicblocks(function).len(), blocks);
}

#[test]
fn the_header_may_not_store() {
    let mut program = Program::new();
    let function = build_nest(&mut program, true);
    let outer = program.basicblocks(function)[1];
    let base = program.params(function)[2];
    let r = program.block_params(outer)[0];
    let zero = program.integer(0);
    let at = program.get_elem_ptr(base, vec![zero, zero]);
    let store = program.store(r, at);
    let test = program.block_insts(outer)[0];
    program.insert_inst_before(outer, test, at);
    program.insert_inst_before(outer, test, store);
    left_alone(&mut program, function);
}

#[test]
fn the_counter_may_not_move_twice_in_a_round() {
    let mut program = Program::new();
    let function = build_nest(&mut program, true);
    let blocks = program.basicblocks(function);
    let back = program.terminator(blocks[5]);
    let mut args = program.args(back);
    let one = program.integer(1);
    let again = program.binary(BinaryOp::Add, args[0], one);
    program.insert_inst_before(blocks[5], back, again);
    args[0] = again;
    program.set_inst(back, Op::Jump(blocks[1]), args, Type::get_unit());
    left_alone(&mut program, function);
}

#[test]
fn the_counter_may_not_come_of_another_value() {
    let mut program = Program::new();
    let function = build_nest(&mut program, true);
    let blocks = program.basicblocks(function);
    let r2 = program.block_insts(blocks[5])[0];
    let (bound, one) = (program.params(function)[1], program.integer(1));
    program.set_inst(r2, Op::Binary(BinaryOp::Add), vec![bound, one], Type::get_i32());
    left_alone(&mut program, function);
}

#[test]
fn the_sum_may_not_be_added_to_itself() {
    let mut program = Program::new();
    let function = build_nest(&mut program, true);
    let blocks = program.basicblocks(function);
    let back = program.terminator(blocks[5]);
    let mut args = program.args(back);
    let (one, two) = (program.integer(1), program.integer(2));
    let more = program.binary(BinaryOp::Add, args[1], one);
    let other = program.binary(BinaryOp::Add, args[1], two);
    let doubled = program.binary(BinaryOp::Add, more, other);
    for i in [more, other, doubled] {
        program.insert_inst_before(blocks[5], back, i);
    }
    args[1] = doubled;
    program.set_inst(back, Op::Jump(blocks[1]), args, Type::get_unit());
    left_alone(&mut program, function);
}

#[test]
fn the_sum_may_not_start_anew_in_a_round() {
    let mut program = Program::new();
    let function = build_nest(&mut program, true);
    let blocks = program.basicblocks(function);
    let enter = program.terminator(blocks[4]);
    let mut args = program.args(enter);
    args[1] = program.integer(0);
    program.set_inst(enter, Op::Jump(blocks[3]), args, Type::get_unit());
    left_alone(&mut program, function);
}
