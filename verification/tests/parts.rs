//! The parts that the passes are made of.

use raana_opt::arith::fold_int;
use raana_opt::cfg::{rpo_path, DomTree};
use raana_opt::chain_to_switch::ChainToSwitch;
use raana_opt::cloning::clone_inst;
use raana_opt::column_major::{byte_stride, is_profitable, matrix_type, AccessCost};
use raana_opt::const_prop::{SparseConditionConstantPropagation, VariableStatus};
use raana_opt::dce::{
    forwarded_block_params, get_main_function, live_insts, DeadCodeElimination, UnreachableBasicBlock,
};
use raana_opt::dse::{cell_to_object, record_coverage, root_to_base, LiveMemZero, DSE};
use raana_opt::edges::{incoming_edges, EdgeArm};
use raana_opt::effects::{call_graph, effects_of, is_removable, AbstractObject, WriteRoot};
use raana_opt::graph::reachable;
use raana_opt::gvn::GlobalInstNumbering;
use raana_opt::guard_elimination::nonneg_values;
use raana_opt::induction::{
    find_ivs, induction_trip_count, iteration_value_bounds, normalize_strict_exit,
};
use raana_opt::inline::{estimate_size, Inline};
use raana_opt::ipsccp::{fold_float_bits, IPSCCP};
use raana_opt::ir::{BasicBlock, BinaryOp, Function, Inst, Op, Type};
use raana_opt::lattice::{merge_zero_interval, CellKey, Lattice, RootKey};
use raana_opt::loops::find_loops;
use raana_opt::mem_state::MemState;
use raana_opt::memory::{base_of, byte_offset, MemObject};
use raana_opt::names::{concat3, numbered};
use raana_opt::numbering::{Numbers, Scope};
use raana_opt::program::Program;
use raana_opt::program_order::{Node, OrderInfo};
use rustc_hash::FxHashMap;

#[test]
fn integers_fold_as_the_machine_computes() {
    assert_eq!(fold_int(BinaryOp::Add, i32::MAX, 1), i32::MIN);
    assert_eq!(fold_int(BinaryOp::Sub, i32::MIN, 1), i32::MAX);
    assert_eq!(fold_int(BinaryOp::Mul, 65_536, 65_537), 65_536);
    assert_eq!(fold_int(BinaryOp::Div, -7, 2), -3);
    assert_eq!(fold_int(BinaryOp::Rem, -7, 2), -1);
    assert_eq!(fold_int(BinaryOp::Div, 7, -2), -3);
    assert_eq!(fold_int(BinaryOp::Rem, 7, -2), 1);
    assert_eq!(fold_int(BinaryOp::Div, i32::MIN, -1), i32::MIN);
    assert_eq!(fold_int(BinaryOp::Rem, i32::MIN, -1), 0);
    assert_eq!(fold_int(BinaryOp::Shl, 1, 33), 2);
    assert_eq!(fold_int(BinaryOp::Shr, -1, 31), 1);
    assert_eq!(fold_int(BinaryOp::Sar, -8, 1), -4);
    assert_eq!(fold_int(BinaryOp::And, 12, 10), 8);
    assert_eq!(fold_int(BinaryOp::Or, 12, 10), 14);
    assert_eq!(fold_int(BinaryOp::Xor, 12, 10), 6);
    assert_eq!(fold_int(BinaryOp::Lt, -1, 0), 1);
    assert_eq!(fold_int(BinaryOp::Ge, -1, 0), 0);
    assert_eq!(fold_int(BinaryOp::Min, -1, 0), -1);
    assert_eq!(fold_int(BinaryOp::Max, -1, 0), 0);
}

const COMPARISONS: [BinaryOp; 6] = [
    BinaryOp::Eq,
    BinaryOp::NotEq,
    BinaryOp::Lt,
    BinaryOp::Le,
    BinaryOp::Gt,
    BinaryOp::Ge,
];

const NUMBERS: [i32; 6] = [i32::MIN, -1, 0, 1, 2, i32::MAX];

#[test]
fn a_complement_negates_and_a_mirror_exchanges() {
    for op in COMPARISONS {
        let complement = op.complement_integer_compare().unwrap();
        let mirror = op.swap_compare_args().unwrap();
        for a in NUMBERS {
            for b in NUMBERS {
                assert_eq!(fold_int(complement, a, b), 1 - fold_int(op, a, b));
                assert_eq!(fold_int(mirror, b, a), fold_int(op, a, b));
            }
        }
    }
    assert_eq!(BinaryOp::Add.complement_integer_compare(), None);
    assert_eq!(BinaryOp::Sub.swap_compare_args(), None);
    assert!(BinaryOp::Xor.is_commutative() && !BinaryOp::Sub.is_commutative());
}

#[test]
fn division_by_a_positive_number_keeps_the_sign() {
    for a in NUMBERS {
        for b in [1, 2, i32::MAX] {
            let quotient = fold_int(BinaryOp::Div, a, b);
            assert!(a < 0 || quotient >= 0);
            assert!(a > 0 || quotient <= 0);
        }
    }
}

#[test]
fn float_literals_are_truncated_where_they_fit() {
    let folded = |x: f32| fold_float_bits(x.to_bits());
    assert_eq!(folded(3.99), Some(3));
    assert_eq!(folded(-3.99), Some(-3));
    assert_eq!(folded(0.5), Some(0));
    assert_eq!(folded(-0.0), Some(0));
    assert_eq!(folded(16_777_217.0), Some(16_777_216));
    assert_eq!(folded(-2_147_483_648.0), Some(i32::MIN));
    assert_eq!(folded(2_147_483_520.0), Some(2_147_483_520));
    assert_eq!(folded(2_147_483_648.0), None);
    assert_eq!(folded(f32::INFINITY), None);
    assert_eq!(folded(f32::NAN), None);
    for x in [1.0f32, -1.0, 123456.79, -99999.5, 2e9, 1e-30] {
        assert_eq!(folded(x), Some(x as i32));
    }
}

#[test]
fn what_is_known_only_descends() {
    let all = [Lattice::Top, Lattice::Constant(3), Lattice::Constant(4), Lattice::Bottom];
    for a in all {
        assert_eq!(a.merge(a), a);
        assert_eq!(a.merge(Lattice::Top), a);
        assert_eq!(a.merge(Lattice::Bottom), Lattice::Bottom);
        for b in all {
            assert_eq!(a.merge(b), b.merge(a));
            let mut now = a;
            assert_eq!(now.update(b), now != a);
            assert_eq!(now, a.merge(b));
            for c in all {
                assert_eq!(a.merge(b).merge(c), a.merge(b.merge(c)));
            }
        }
    }
    assert_eq!(Lattice::Constant(3).merge(Lattice::Constant(4)), Lattice::Bottom);
}

#[test]
fn a_status_that_meets_another_varies() {
    let mut status = VariableStatus::new_with_const(3);
    assert!(!status.update(VariableStatus::new_with_const(3)));
    assert_eq!(status.as_const(), Some(3));
    assert!(status.update(VariableStatus::new_with_const(4)));
    assert_eq!(status, VariableStatus::new_variable());
    assert_eq!(status.as_const(), None);
    assert!(!status.update(VariableStatus::new_with_const(3)));
}

#[test]
fn cleared_intervals_are_joined() {
    let mut ranges = vec![];
    merge_zero_interval(&mut ranges, 0, 4);
    merge_zero_interval(&mut ranges, 8, 12);
    assert_eq!(ranges.len(), 2);
    merge_zero_interval(&mut ranges, 4, 8);
    assert_eq!(ranges, vec![(0, 12)]);
    merge_zero_interval(&mut ranges, 2, 3);
    assert_eq!(ranges, vec![(0, 12)]);
}

#[test]
fn coverage_is_complete_when_every_byte_is_stored_over() {
    let mut clearing = LiveMemZero {
        inst: Inst(0),
        root: MemObject::Unknown,
        off: 0,
        len: 12,
        covered: vec![],
    };
    assert!(!record_coverage(&mut clearing, 8, 12));
    assert!(!record_coverage(&mut clearing, 0, 4));
    assert!(!record_coverage(&mut clearing, 2, 2));
    assert_eq!(clearing.covered, vec![(0, 4), (8, 12)]);
    assert!(record_coverage(&mut clearing, 3, 9));
    assert_eq!(clearing.covered, vec![(0, 12)]);
}

#[test]
fn cells_and_roots_name_their_objects() {
    let f = Function(1);
    let (local, global) = (Inst(5), Inst(6));
    assert_eq!(cell_to_object(&(MemObject::Alloc(local), 4), f), AbstractObject::Alloc(f, local));
    assert_eq!(cell_to_object(&(MemObject::Global(global), 0), f), AbstractObject::Global(global));
    assert_eq!(root_to_base(&WriteRoot::Local(f, local)), MemObject::Alloc(local));
    assert_eq!(root_to_base(&WriteRoot::Global(global)), MemObject::Global(global));
}

#[test]
fn strides_are_distances_in_bytes() {
    assert_eq!(byte_stride(1, 0, 64, 4), Some(256));
    assert_eq!(byte_stride(0, 1, 64, 4), Some(4));
    assert_eq!(byte_stride(-1, 2, 64, 4), Some(248));
    assert_eq!(byte_stride(0, 0, 64, 4), Some(0));
    assert_eq!(byte_stride(i64::MAX, 0, usize::MAX, 4), None);
}

#[test]
fn an_exchange_pays_when_it_saves_enough_and_reaches_unit_stride() {
    let access = |current_stride: usize, transposed_stride: usize, weight: u128| AccessCost {
        current_stride,
        transposed_stride,
        weight,
    };
    // Four lines against one, three times: nine saved of twelve.
    assert!(is_profitable(&vec![access(256, 4, 3)], 4));
    // Two times: six saved are fewer than eight.
    assert!(!is_profitable(&vec![access(256, 4, 2)], 4));
    // Cheaper, but not by single elements.
    assert!(!is_profitable(&vec![access(256, 8, 100)], 4));
    // A large cost that stays makes the saving small.
    assert!(!is_profitable(&vec![access(256, 4, 3), access(64, 64, 100)], 4));
    assert!(!is_profitable(&vec![], 4));
}

#[test]
fn a_matrix_is_an_array_of_arrays_of_scalars() {
    let row = Type::get_array(Type::get_i32(), 5);
    let matrix = Type::get_array(row.clone(), 3);
    let at = |ty: Type| matrix_type(&Type::get_pointer(ty));
    assert_eq!(at(matrix.clone()), Some((Type::get_i32(), 3, 5)));
    assert_eq!(at(row), None);
    assert_eq!(at(Type::get_array(matrix.clone(), 2)), None);
    assert_eq!(matrix_type(&matrix), None);
}

#[test]
fn names_are_put_together() {
    assert_eq!(numbered("chain_case_", 0), "chain_case_0");
    assert_eq!(numbered("chain_case_", -17), "chain_case_-17");
    assert_eq!(numbered("", i32::MIN), i32::MIN.to_string());
    assert_eq!(concat3("a", "_b", "c"), "a_bc");
}

#[test]
fn reaching_can_avoid_a_node() {
    let edges = vec![(0, 1), (1, 2), (0, 2), (2, 3), (4, 0)];
    assert_eq!(reachable(5, &edges, 0, usize::MAX), vec![true, true, true, true, false]);
    assert_eq!(reachable(5, &edges, 0, 2), vec![true, true, false, false, false]);
}

/// entry -> (left | right) -> join -> (entry-like loop header) with the blocks
/// `[entry, left, right, join, island]`.
fn diamond() -> (Program, Function, Vec<BasicBlock>) {
    let mut program = Program::new();
    let function = program.new_function(Type::get_i32(), "diamond".into(), vec![Type::get_i32()]);
    let entry = program.add_entry_block(function);
    let left = program.basic_block("left".into(), vec![]);
    let right = program.basic_block("right".into(), vec![]);
    let join = program.basic_block("join".into(), vec![Type::get_i32()]);
    let island = program.basic_block("island".into(), vec![]);
    for b in [left, right, join, island] {
        program.push_bb_back(function, b);
    }
    let x = program.params(function)[0];
    let br = program.branch(x, left, vec![], right, vec![]);
    program.insert_inst(entry, br);
    for b in [left, right, island] {
        let jump = program.jump(join, vec![x]);
        program.insert_inst(b, jump);
    }
    let ret = program.ret(Some(program.block_params(join)[0]));
    program.insert_inst(join, ret);
    (program, function, vec![entry, left, right, join, island])
}

#[test]
fn dominance_is_an_order_of_reached_blocks() {
    let (program, function, b) = diamond();
    let tree = DomTree::new(&program, function).unwrap();
    assert!(tree.dominates(b[0], b[3]) && tree.dominates(b[0], b[0]));
    assert!(!tree.dominates(b[1], b[3]) && !tree.dominates(b[2], b[3]));
    assert!(!tree.dominates(b[3], b[0]));
    assert!(!tree.is_reached(b[4]) && !tree.dominates(b[0], b[4]));
    assert_eq!(rpo_path(&program, function), vec![b[0], b[2], b[1], b[3]]);
    for x in &b {
        for y in &b {
            assert!(x == y || !(tree.dominates(*x, *y) && tree.dominates(*y, *x)));
            for z in &b {
                assert!(!(tree.dominates(*x, *y) && tree.dominates(*y, *z)) || tree.dominates(*x, *z));
            }
        }
    }
}

#[test]
fn an_edge_takes_one_more_argument_without_touching_its_sibling() {
    let mut program = Program::new();
    let function = program.new_function(Type::get_i32(), "twin".into(), vec![Type::get_i32()]);
    let entry = program.add_entry_block(function);
    let target = program.basic_block("target".into(), vec![Type::get_i32()]);
    program.push_bb_back(function, target);
    let x = program.params(function)[0];
    let one = program.integer(1);
    let two = program.integer(2);
    let br = program.branch(x, target, vec![one], target, vec![two]);
    program.insert_inst(entry, br);
    let edges = incoming_edges(&program, &vec![entry, target], target);
    assert_eq!(edges.len(), 2);
    assert_eq!((edges[0].arm, edges[1].arm), (EdgeArm::True, EdgeArm::False));
    edges[0].append_arg(&mut program, x);
    assert_eq!(edges[0].args(&program), vec![one, x]);
    assert_eq!(edges[1].args(&program), vec![two]);
    assert_eq!(edges[0].target(&program), Some(target));
}

#[test]
fn blocks_that_are_reached_stay() {
    let (mut program, function, b) = diamond();
    assert!(UnreachableBasicBlock.run(&mut program));
    assert_eq!(program.basicblocks(function), b[..4].to_vec());
    assert!(!UnreachableBasicBlock.run(&mut program));
}

#[test]
fn a_parameter_with_one_source_forwards_it() {
    let (program, function, b) = diamond();
    let x = program.params(function)[0];
    let param = program.block_params(b[3])[0];
    assert_eq!(forwarded_block_params(&program, function), vec![(param, x)]);
}

#[test]
fn live_is_what_effects_need() {
    let mut program = Program::new();
    let function = program.new_function(Type::get_i32(), "live".into(), vec![Type::get_i32()]);
    let entry = program.add_entry_block(function);
    let x = program.params(function)[0];
    let needed = program.binary(BinaryOp::Add, x, x);
    let unused = program.binary(BinaryOp::Mul, x, x);
    let slot = program.alloc_local(Type::get_i32());
    let store = program.store(needed, slot);
    let ret = program.ret(Some(x));
    for i in [needed, unused, slot, store, ret] {
        program.insert_inst(entry, i);
    }
    let marks = live_insts(&program, function, &vec![]);
    for (i, expected) in [(needed, true), (unused, false), (slot, true), (store, true), (ret, true)] {
        assert_eq!(marks[i.0], expected);
    }
    assert!(DeadCodeElimination.run_on(&mut program, function));
    assert_eq!(program.block_insts(entry), vec![needed, slot, store, ret]);
    assert_eq!(program.args(needed), vec![x, x]);
    assert!(!DeadCodeElimination.run_on(&mut program, function));
}

#[test]
fn effects_follow_calls() {
    let mut program = Program::new();
    let zero = program.zero_init(Type::get_i32());
    let global = program.global_alloc(zero);
    let writer = program.new_function(Type::get_unit(), "writer".into(), vec![]);
    let entry = program.add_entry_block(writer);
    let one = program.integer(1);
    let store = program.store(one, global);
    let ret = program.ret(None);
    program.insert_inst(entry, store);
    program.insert_inst(entry, ret);
    let caller = program.new_function(Type::get_i32(), "main".into(), vec![]);
    let entry = program.add_entry_block(caller);
    let call = program.call(writer, vec![]);
    let load = program.load(global);
    let ret = program.ret(Some(load));
    for i in [call, load, ret] {
        program.insert_inst(entry, i);
    }
    assert_eq!(call_graph(&program), vec![(caller.0, writer.0)]);
    let object = MemObject::Global(global);
    assert!(effects_of(&program, writer).may_write(object));
    assert!(!effects_of(&program, writer).may_read(object));
    assert!(effects_of(&program, caller).may_write(object));
    assert!(effects_of(&program, caller).may_read(object));
    assert!(!is_removable(&program, writer));
    assert_eq!(get_main_function(&program), Some(caller));
    assert_eq!(estimate_size(&program, caller), 3);
}

#[test]
fn addresses_resolve_to_objects_and_offsets() {
    let mut program = Program::new();
    let array = program.alloc_local(Type::get_array(Type::get_array(Type::get_i32(), 4), 3));
    let zero = program.integer(0);
    let two = program.integer(2);
    let three = program.integer(3);
    let cell = program.get_elem_ptr(array, vec![zero, two, three]);
    assert_eq!(base_of(&program, cell), MemObject::Alloc(array));
    assert_eq!(byte_offset(&program, cell), Some(44));
    assert_eq!(byte_offset(&program, array), Some(0));
    let on = program.get_elem_ptr(cell, vec![two]);
    assert_eq!(byte_offset(&program, on), Some(52));
}

#[test]
fn addresses_that_are_handed_on_or_kept_resolve_too() {
    let mut program = Program::new();
    let function = program.new_function(Type::get_unit(), "handed".into(), vec![]);
    let entry = program.add_entry_block(function);
    let pointer = Type::get_pointer(Type::get_i32());
    let block = program.basic_block("block".into(), vec![pointer.clone(), pointer.clone()]);
    program.push_bb_back(function, block);
    let array = program.alloc_local(Type::get_array(Type::get_i32(), 8));
    let (zero, one, three) = (program.integer(0), program.integer(1), program.integer(3));
    let cell = program.get_elem_ptr(array, vec![zero, three]);
    let start = program.get_elem_ptr(array, vec![zero, zero]);
    let enter = program.jump(block, vec![cell, start]);
    for i in [array, cell, start, enter] {
        program.insert_inst(entry, i);
    }
    let (still, moving) = (program.block_params(block)[0], program.block_params(block)[1]);
    let on = program.get_elem_ptr(moving, vec![one]);
    let again = program.jump(block, vec![still, on]);
    program.insert_inst(block, on);
    program.insert_inst(block, again);
    assert_eq!(base_of(&program, still), MemObject::Alloc(array));
    assert_eq!(byte_offset(&program, still), Some(12));
    assert_eq!(base_of(&program, moving), MemObject::Alloc(array));
    assert_eq!(byte_offset(&program, moving), None);
    let next = program.get_elem_ptr(still, vec![one]);
    assert_eq!(byte_offset(&program, next), Some(16));

    let slot = program.alloc_local(pointer);
    let kept = program.store(cell, slot);
    let loaded = program.load(slot);
    assert_eq!(base_of(&program, loaded), MemObject::Alloc(array));
    assert_eq!(byte_offset(&program, loaded), Some(12));
    let other = program.store(start, slot);
    assert_eq!(base_of(&program, loaded), MemObject::Unknown);
    assert_ne!(kept, other);
}

#[test]
fn equal_computations_share_a_number() {
    let mut program = Program::new();
    let f = program.new_function(Type::get_i32(), "numbers".into(), vec![Type::get_i32(); 2]);
    program.add_entry_block(f);
    let (x, y) = (program.params(f)[0], program.params(f)[1]);
    let sum = program.binary(BinaryOp::Add, x, y);
    let turned = program.binary(BinaryOp::Add, y, x);
    let less = program.binary(BinaryOp::Lt, x, y);
    let greater = program.binary(BinaryOp::Gt, y, x);
    let difference = program.binary(BinaryOp::Sub, x, y);
    let other = program.binary(BinaryOp::Sub, y, x);
    let slot = program.alloc_local(Type::get_i32());
    let (read, read_again) = (program.load(slot), program.load(slot));
    let scope = Scope { strict: true };
    let mut numbers = Numbers::new();
    let fuel = program.num_insts();
    assert_eq!(numbers.get(sum), None);
    let mut number = |i: Inst| numbers.number(&program, &scope, i, fuel);
    assert_eq!(number(sum), number(turned));
    assert_eq!(number(less), number(greater));
    assert_ne!(number(difference), number(other));
    assert_ne!(number(x), number(y));
    assert_ne!(number(read), number(read_again));
    assert_eq!(number(read), number(read));
    let of_sum = number(sum);
    assert_eq!(numbers.get(sum), Some(of_sum));
}

/// `for (i = from; i < bound; i += step) {}` with the loop's blocks.
fn counted(from: i32, bound: i32, step: i32) -> (Program, Function, Inst) {
    let mut program = Program::new();
    let function = program.new_function(Type::get_unit(), "counted".into(), vec![]);
    let entry = program.add_entry_block(function);
    let header = program.basic_block("header".into(), vec![Type::get_i32()]);
    let body = program.basic_block("body".into(), vec![]);
    let exit = program.basic_block("exit".into(), vec![]);
    for b in [header, body, exit] {
        program.push_bb_back(function, b);
    }
    let i = program.block_params(header)[0];
    let from = program.integer(from);
    let bound = program.integer(bound);
    let step = program.integer(step);
    let enter = program.jump(header, vec![from]);
    program.insert_inst(entry, enter);
    let more = program.binary(BinaryOp::Lt, i, bound);
    let br = program.branch(more, body, vec![], exit, vec![]);
    program.insert_inst(header, more);
    program.insert_inst(header, br);
    let next = program.binary(BinaryOp::Add, i, step);
    let back = program.jump(header, vec![next]);
    program.insert_inst(body, next);
    program.insert_inst(body, back);
    let ret = program.ret(None);
    program.insert_inst(exit, ret);
    (program, function, i)
}

#[test]
fn counted_loops_have_trip_counts_and_bounds() {
    for (from, bound, step, trips, last) in [(0, 10, 1, 10, 9), (0, 10, 3, 4, 9), (-4, 5, 2, 5, 4)] {
        let (program, function, i) = counted(from, bound, step);
        let tree = DomTree::new(&program, function).unwrap();
        let order = rpo_path(&program, function);
        let loops = find_loops(&tree, &order);
        assert_eq!(loops.len(), 1);
        let ivs = find_ivs(&program, &order, &loops[0]);
        assert_eq!(ivs.len(), 1);
        assert_eq!((ivs[0].param, ivs[0].step), (i, step));
        let exit = normalize_strict_exit(&program, &loops[0], &ivs[0]).unwrap();
        assert_eq!(induction_trip_count(&program, &ivs[0], exit), Some(trips));
        let (low, high) = iteration_value_bounds(&program, &ivs[0], exit).unwrap();
        assert!(low <= from as i64 && last <= high);
    }
    let (program, function, _) = counted(5, 5, 1);
    let tree = DomTree::new(&program, function).unwrap();
    let order = rpo_path(&program, function);
    let loops = find_loops(&tree, &order);
    let ivs = find_ivs(&program, &order, &loops[0]);
    let exit = normalize_strict_exit(&program, &loops[0], &ivs[0]).unwrap();
    assert_eq!(induction_trip_count(&program, &ivs[0], exit), Some(0));
}

#[test]
fn a_parameter_that_gets_no_negative_value_is_never_negative() {
    for (given, expected) in [(0, true), (7, true), (-1, false)] {
        let mut program = Program::new();
        let callee = program.new_function(Type::get_i32(), "half".into(), vec![Type::get_i32()]);
        let entry = program.add_entry_block(callee);
        let x = program.params(callee)[0];
        let two = program.integer(2);
        let half = program.binary(BinaryOp::Div, x, two);
        let less = program.binary(BinaryOp::Sub, x, two);
        let ret = program.ret(Some(half));
        for i in [half, less, ret] {
            program.insert_inst(entry, i);
        }
        let main = program.new_function(Type::get_i32(), "main".into(), vec![]);
        let entry = program.add_entry_block(main);
        let argument = program.integer(given);
        let call = program.call(callee, vec![argument]);
        let ret = program.ret(Some(call));
        program.insert_inst(entry, call);
        program.insert_inst(entry, ret);
        let marks = nonneg_values(&program);
        assert_eq!(marks[x.0], expected);
        assert_eq!(marks[half.0], expected);
        assert!(!marks[less.0]);
    }
}

#[test]
fn memory_knows_what_the_stores_before_a_load_agree_on() {
    let mut program = Program::new();
    let f = program.new_function(Type::get_i32(), "main".into(), vec![]);
    let entry = program.add_entry_block(f);
    let slot = program.alloc_local(Type::get_array(Type::get_i32(), 2));
    let zero = program.integer(0);
    let one = program.integer(1);
    let at = program.get_elem_ptr(slot, vec![zero, one]);
    let first = program.store(zero, at);
    let second = program.store(one, at);
    let load = program.load(at);
    let ret = program.ret(Some(load));
    for i in [slot, at, first, second, load, ret] {
        program.insert_inst(entry, i);
    }
    let order = OrderInfo::new(&program);
    let key = CellKey::Local(f, slot, 4);
    let node = |inst: Inst| Node { func: f, inst };
    let mut memory = MemState::new();
    assert!(memory.write(key, node(first), Lattice::Constant(0)));
    assert!(!memory.write(key, node(first), Lattice::Constant(0)));
    assert_eq!(memory.read(&program, key, node(load), &order), Lattice::Constant(0));
    assert!(memory.write(key, node(second), Lattice::Constant(1)));
    assert_eq!(memory.read(&program, key, node(load), &order), Lattice::Bottom);
    let other = CellKey::Local(f, slot, 0);
    assert!(memory.mem_zero(RootKey::Local(f, slot), 0, 4));
    assert!(!memory.mem_zero(RootKey::Local(f, slot), 0, 4));
    assert_eq!(memory.read(&program, other, node(load), &order), Lattice::Constant(0));
}

/// `if (x == 0) return 0; .. if (x == n - 1) return n - 1; return -1;`
fn tested_in_turn(cases: i32) -> (Program, Function, BasicBlock) {
    let mut program = Program::new();
    let function = program.new_function(Type::get_i32(), "turns".into(), vec![Type::get_i32()]);
    let entry = program.add_entry_block(function);
    let x = program.params(function)[0];
    let mut here = entry;
    for k in 0..cases {
        let handler = program.basic_block("handler".into(), vec![]);
        let next = program.basic_block("next".into(), vec![]);
        program.push_bb_back(function, handler);
        program.push_bb_back(function, next);
        let literal = program.integer(k);
        let test = program.binary(BinaryOp::Eq, x, literal);
        let br = program.branch(test, handler, vec![], next, vec![]);
        program.insert_inst(here, test);
        program.insert_inst(here, br);
        let ret = program.ret(Some(literal));
        program.insert_inst(handler, ret);
        here = next;
    }
    let none = program.integer(-1);
    let ret = program.ret(Some(none));
    program.insert_inst(here, ret);
    (program, function, entry)
}

/// The value that `x` leads to from `block` on, and how many values it is compared with on the way.
fn looked_up(program: &Program, function: Function, block: BasicBlock, x: i32) -> (i32, usize) {
    let mut at = block;
    let mut compared: Vec<i32> = vec![];
    loop {
        let end = program.terminator(at);
        match program.op(end) {
            Op::Return => match program.op(program.arg(end, 0)) {
                Op::Integer(v) => return (v, compared.len()),
                other => panic!("{other:?}"),
            },
            Op::Branch(t, e, _) => {
                let test = program.arg(end, 0);
                assert_eq!(program.arg(test, 0), program.params(function)[0]);
                let (op, k) = match (program.op(test), program.op(program.arg(test, 1))) {
                    (Op::Binary(op), Op::Integer(k)) => (op, k),
                    other => panic!("{other:?}"),
                };
                if compared.last() != Some(&k) {
                    compared.push(k);
                }
                at = if fold_int(op, x, k) != 0 { t } else { e };
            }
            other => panic!("{other:?}"),
        }
    }
}

#[test]
fn a_tree_leads_where_the_chain_led_in_logarithmic_depth() {
    for (cases, levels) in [(4, 3), (7, 3), (8, 4), (15, 4), (16, 5)] {
        let (mut program, function, entry) = tested_in_turn(cases);
        let before: Vec<i32> =
            (-2..cases + 2).map(|x| looked_up(&program, function, entry, x).0).collect();
        assert!(ChainToSwitch.run(&mut program));
        let mut deepest = 0;
        for (k, x) in (-2..cases + 2).enumerate() {
            let (v, compared) = looked_up(&program, function, entry, x);
            assert_eq!(v, before[k]);
            deepest = deepest.max(compared);
        }
        assert_eq!(deepest, levels, "{cases} cases");
    }
    let (mut program, _, _) = tested_in_turn(3);
    assert!(!ChainToSwitch.run(&mut program));
}

#[test]
fn constants_are_propagated_through_branches() {
    let (mut program, function, b) = diamond();
    assert!(SparseConditionConstantPropagation.can_run_on(&program, function));
    let one = program.integer(1);
    let two = program.binary(BinaryOp::Add, one, one);
    program.insert_inst_before(b[0], program.terminator(b[0]), two);
    let condition = program.binary(BinaryOp::Eq, two, one);
    program.insert_inst_before(b[0], program.terminator(b[0]), condition);
    let x = program.params(function)[0];
    let end = program.terminator(b[0]);
    program.set_inst(end, Op::Branch(b[1], b[2], 0), vec![condition], Type::get_unit());
    let left = program.terminator(b[1]);
    program.set_inst(left, Op::Jump(b[3]), vec![x], Type::get_unit());
    let right = program.terminator(b[2]);
    program.set_inst(right, Op::Jump(b[3]), vec![two], Type::get_unit());
    SparseConditionConstantPropagation.run_on(&mut program, function);
    let returned = program.arg(program.terminator(b[3]), 0);
    assert_eq!(program.op(returned), Op::Integer(2));
}

#[test]
fn a_write_through_an_unknown_address_keeps_a_write_back() {
    for unknown in [false, true] {
        let mut program = Program::new();
        let zero = program.zero_init(Type::get_i32());
        let global = program.global_alloc(zero);
        let function = program.new_function(
            Type::get_unit(),
            "promoted".into(),
            vec![Type::get_pointer(Type::get_i32())],
        );
        let entry = program.add_entry_block(function);
        let pointer = program.params(function)[0];
        let load = program.load(global);
        program.insert_inst(entry, load);
        let seven = program.integer(7);
        if unknown {
            let elsewhere = program.store(seven, pointer);
            program.insert_inst(entry, elsewhere);
        }
        let back = program.store(load, global);
        let ret = program.ret(None);
        program.insert_inst(entry, back);
        program.insert_inst(entry, ret);
        assert_eq!(DSE.run(&mut program), !unknown);
        assert_eq!(program.block_insts(entry).contains(&back), unknown);
    }
}

#[test]
fn an_unrelated_write_leaves_a_call_in_the_lead() {
    for related in [false, true] {
        let mut program = Program::new();
        let zero = program.zero_init(Type::get_i32());
        let read = program.global_alloc(zero);
        let zero = program.zero_init(Type::get_i32());
        let other = program.global_alloc(zero);
        let reader = program.new_function(Type::get_i32(), "reader".into(), vec![]);
        let entry = program.add_entry_block(reader);
        let load = program.load(read);
        let ret = program.ret(Some(load));
        program.insert_inst(entry, load);
        program.insert_inst(entry, ret);
        let main = program.new_function(Type::get_i32(), "main".into(), vec![Type::get_i32()]);
        let entry = program.add_entry_block(main);
        let x = program.params(main)[0];
        let first = program.call(reader, vec![]);
        let store = program.store(x, if related { read } else { other });
        let second = program.call(reader, vec![]);
        let sum = program.binary(BinaryOp::Add, first, second);
        let ret = program.ret(Some(sum));
        for i in [first, store, second, sum, ret] {
            program.insert_inst(entry, i);
        }
        assert_eq!(GlobalInstNumbering.run(&mut program), !related);
        assert_eq!(program.arg(sum, 1), if related { second } else { first });
    }
}

#[test]
fn an_inlined_body_keeps_the_order_of_its_instructions() {
    let mut program = Program::new();
    let zero = program.zero_init(Type::get_i32());
    let global = program.global_alloc(zero);
    let callee = program.new_function(Type::get_i32(), "bump".into(), vec![Type::get_i32()]);
    let entry = program.add_entry_block(callee);
    // The block that uses a value stands in the list before the block that defines it.
    let last = program.basic_block("last".into(), vec![]);
    let first = program.basic_block("first".into(), vec![]);
    program.push_bb_back(callee, last);
    program.push_bb_back(callee, first);
    let go = program.jump(first, vec![]);
    program.insert_inst(entry, go);
    let given = program.params(callee)[0];
    let store = program.store(given, global);
    let load = program.load(global);
    let on = program.jump(last, vec![]);
    for i in [store, load, on] {
        program.insert_inst(first, i);
    }
    let sum = program.binary(BinaryOp::Add, load, given);
    let ret = program.ret(Some(sum));
    program.insert_inst(last, sum);
    program.insert_inst(last, ret);
    let main = program.new_function(Type::get_i32(), "main".into(), vec![]);
    let home = program.add_entry_block(main);
    let five = program.integer(5);
    let call = program.call(callee, vec![five]);
    let ret = program.ret(Some(call));
    program.insert_inst(home, call);
    program.insert_inst(home, ret);

    assert!(Inline.run(&mut program));
    let Op::Jump(copy) = program.op(program.terminator(home)) else {
        panic!("the call became no jump");
    };
    assert_eq!(program.args(program.terminator(home)), vec![five]);
    let Op::Jump(first_copy) = program.op(program.terminator(copy)) else {
        panic!("the entry does not jump");
    };
    let ops: Vec<Op> = program.block_insts(first_copy).iter().map(|&i| program.op(i)).collect();
    assert_eq!(&ops[..2], &[Op::Store, Op::Load]);
    let Op::Jump(last_copy) = program.op(ops_end(&program, first_copy)) else {
        panic!("the copy does not go on");
    };
    let sum_copy = program.block_insts(last_copy)[0];
    assert_eq!(program.arg(sum_copy, 0), program.block_insts(first_copy)[1]);
    let Op::Jump(behind) = program.op(ops_end(&program, last_copy)) else {
        panic!("the return became no jump");
    };
    assert_eq!(program.args(ops_end(&program, last_copy)), vec![sum_copy]);
    let result = program.block_params(behind)[0];
    assert_eq!(program.arg(program.terminator(behind), 0), result);
}

fn ops_end(program: &Program, block: BasicBlock) -> Inst {
    program.terminator(block)
}

#[test]
fn constants_cross_calls() {
    let mut program = Program::new();
    let callee = program.new_function(Type::get_i32(), "twice".into(), vec![Type::get_i32()]);
    let entry = program.add_entry_block(callee);
    let x = program.params(callee)[0];
    let sum = program.binary(BinaryOp::Add, x, x);
    let ret = program.ret(Some(sum));
    program.insert_inst(entry, sum);
    program.insert_inst(entry, ret);
    let main = program.new_function(Type::get_i32(), "main".into(), vec![]);
    let home = program.add_entry_block(main);
    let five = program.integer(5);
    let call = program.call(callee, vec![five]);
    let ret = program.ret(Some(call));
    program.insert_inst(home, call);
    program.insert_inst(home, ret);
    assert!(IPSCCP.run(&mut program));
    assert_eq!(program.op(program.arg(program.terminator(home), 0)), Op::Integer(10));
}

#[test]
fn a_copy_does_with_the_copies_what_the_original_does() {
    let mut program = Program::new();
    let function = program.new_function(Type::get_i32(), "copy".into(), vec![Type::get_i32()]);
    let entry = program.add_entry_block(function);
    let place = program.basic_block("place".into(), vec![]);
    program.push_bb_back(function, place);
    let x = program.params(function)[0];
    let two = program.integer(2);
    let seven = program.integer(7);
    let double = program.binary(BinaryOp::Mul, x, two);
    program.insert_inst(entry, double);
    let sum = program.binary(BinaryOp::Add, double, x);
    program.insert_inst(entry, sum);
    let before = program.num_insts();

    let mut known: FxHashMap<usize, Inst> = FxHashMap::default();
    known.insert(x.0, seven);
    let copy = clone_inst(&mut program, function, &vec![(entry, place)], &mut known, sum, before);

    let inner = known[&double.0];
    assert_eq!(known[&sum.0], copy);
    assert_eq!(program.op(copy), Op::Binary(BinaryOp::Add));
    assert_eq!(program.args(copy), vec![inner, seven]);
    assert_eq!(program.op(inner), Op::Binary(BinaryOp::Mul));
    assert_eq!(program.args(inner), vec![seven, two]);
    assert_eq!(program.block_insts(place), vec![inner, copy]);
    assert_eq!(program.block_insts(entry), vec![double, sum]);
    assert_eq!(program.args(sum), vec![double, x]);
    assert_eq!(program.num_insts(), before + 2);
}
