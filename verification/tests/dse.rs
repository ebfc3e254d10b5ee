//! Stores that nothing reads.

use raana_opt::dse::DSE;
use raana_opt::ir::{Inst, Op, Type};
use raana_opt::program::Program;

fn new_global(program: &mut Program) -> Inst {
    let init = program.zero_init(Type::get_i32());
    program.global_alloc(init)
}

#[test]
fn smoke() {
    assert!(true);
}

/// `load global; store v, global` with no other write: the store is a
/// GSP-style redundant write-back and must be removed.
#[test]
fn removes_redundant_writeback_of_load_value() {
    let mut program = Program::new();
    let global = new_global(&mut program);
    let function = program.new_function(Type::get_unit(), "f".into(), vec![]);
    let (load, store, ret) = {
        let entry = program.add_entry_block(function);
        let load = program.load(global);
        program.insert_inst(entry, load);
        let store = program.store(load, global);
        program.insert_inst(entry, store);
        let ret = program.ret(None);
        program.insert_inst(entry, ret);
        (load, store, ret)
    };
    let _ = load;
    let _ = ret;

    assert!(DSE.run(&mut program));
    // The store instruction must be gone from the layout.
    let mut found_store = false;
    for block in program.basicblocks(function) {
        for inst in program.block_insts(block) {
            if matches!(program.op(inst), Op::Store) {
                found_store = true;
            }
        }
    }
    assert!(!found_store, "redundant write-back store should be removed");
}

/// The write-back is NOT redundant when the cell is written in between:
/// `store 5; load; store load-value` - the final store forwards the
/// modified value and must stay. The intermediate load is forwarded and
/// the first store is covered, so only the write-back store survives.
#[test]
fn keeps_writeback_when_cell_is_modified() {
    let mut program = Program::new();
    let global = new_global(&mut program);
    let function = program.new_function(Type::get_unit(), "f".into(), vec![]);
    let (load, store, ret) = {
        let entry = program.add_entry_block(function);
        let five = program.integer(5);
        let first_store = program.store(five, global);
        program.insert_inst(entry, first_store);
        let load = program.load(global);
        program.insert_inst(entry, load);
        let store = program.store(load, global);
        program.insert_inst(entry, store);
        let ret = program.ret(None);
        program.insert_inst(entry, ret);
        (load, store, ret)
    };
    let _ = ret;

    assert!(DSE.run(&mut program));
    // The load is forwarded: it no longer has any user.
    assert!(
        program.users(load).is_empty(),
        "load must be forwarded (no remaining users)"
    );
    // The write-back store (of the modified value) must survive.
    assert!(
        matches!(program.op(store), Op::Store),
        "write-back after a real write must survive"
    );
    let mut stores = Vec::new();
    for block in program.basicblocks(function) {
        for inst in program.block_insts(block) {
            if matches!(program.op(inst), Op::Store) {
                stores.push(inst);
            }
        }
    }
    assert_eq!(stores, vec![store], "only the write-back store remains");
}

/// `store 1; store 2` to the same cell with no read in between: the
/// first store is dead.
#[test]
fn removes_covered_store() {
    let mut program = Program::new();
    let global = new_global(&mut program);
    let function = program.new_function(Type::get_unit(), "f".into(), vec![]);
    let (first, second, ret) = {
        let entry = program.add_entry_block(function);
        let one = program.integer(1);
        let two = program.integer(2);
        let first = program.store(one, global);
        program.insert_inst(entry, first);
        let second = program.store(two, global);
        program.insert_inst(entry, second);
        let ret = program.ret(None);
        program.insert_inst(entry, ret);
        (first, second, ret)
    };
    let _ = ret;

    assert!(DSE.run(&mut program));
    let mut stores = Vec::new();
    for block in program.basicblocks(function) {
        for inst in program.block_insts(block) {
            if matches!(program.op(inst), Op::Store) {
                stores.push(inst);
            }
        }
    }
    assert_eq!(stores, vec![second], "first covered store must go");
}

/// `store 1; load; store 2`: the load is forwarded to 1 and the first
/// store is covered; only `store 2` remains. (Forwarding makes the
/// intermediate load a non-reader of memory.)
#[test]
fn keeps_store_read_in_between() {
    let mut program = Program::new();
    let global = new_global(&mut program);
    let function = program.new_function(Type::get_unit(), "f".into(), vec![]);
    let (first, second, load, ret) = {
        let entry = program.add_entry_block(function);
        let one = program.integer(1);
        let two = program.integer(2);
        let first = program.store(one, global);
        program.insert_inst(entry, first);
        let load = program.load(global);
        program.insert_inst(entry, load);
        let second = program.store(two, global);
        program.insert_inst(entry, second);
        let ret = program.ret(None);
        program.insert_inst(entry, ret);
        (first, second, load, ret)
    };
    let _ = ret;

    assert!(DSE.run(&mut program));
    // The load was forwarded to the value of the first store: no users.
    assert!(
        program.users(load).is_empty(),
        "load must be forwarded (no remaining users)"
    );
    let mut stores = Vec::new();
    for block in program.basicblocks(function) {
        for inst in program.block_insts(block) {
            if matches!(program.op(inst), Op::Store) {
                stores.push(inst);
            }
        }
    }
    assert_eq!(stores, vec![second], "only the covering store remains");
    let _ = first;
}

/// A store through an unknown address may alias any cell: pending
/// stores must not be dropped across it.
#[test]
fn keeps_store_across_unknown_address_store() {
    let mut program = Program::new();
    let global = new_global(&mut program);
    let function = program.new_function(Type::get_unit(), "f".into(), vec![Type::get_i32()]);
    let (first, second, ret) = {
        let entry = program.add_entry_block(function);
        let one = program.integer(1);
        let two = program.integer(2);
        let first = program.store(one, global);
        program.insert_inst(entry, first);
        // A store through the (unknown) parameter address.
        let param = program.params(function)[0];
        let unknown_store = program.store(two, param);
        program.insert_inst(entry, unknown_store);
        let second = program.store(two, global);
        program.insert_inst(entry, second);
        let ret = program.ret(None);
        program.insert_inst(entry, ret);
        (first, second, ret)
    };
    let _ = ret;

    assert!(!DSE.run(&mut program));
    let mut stores = Vec::new();
    for block in program.basicblocks(function) {
        for inst in program.block_insts(block) {
            if matches!(program.op(inst), Op::Store) {
                stores.push(inst);
            }
        }
    }
    assert_eq!(
        stores.len(),
        3,
        "no store may be dropped across an unknown write"
    );
}

/// A MemZero covering the cell is a read/write barrier: the pending
/// store before it cannot be forwarded across or dropped.
#[test]
fn memzero_barrier_stops_forwarding_and_removal() {
    let mut program = Program::new();
    let function = program.new_function(Type::get_unit(), "f".into(), vec![]);
    let (first, second, load, ret) = {
        let entry = program.add_entry_block(function);
        let alloc = program.alloc_local(Type::get_i32());
        program.insert_inst(entry, alloc);
        let five = program.integer(5);
        let first = program.store(five, alloc);
        program.insert_inst(entry, first);
        let zero = program.mem_zero(alloc, 4);
        program.insert_inst(entry, zero);
        let load = program.load(alloc);
        program.insert_inst(entry, load);
        let second = program.store(load, alloc);
        program.insert_inst(entry, second);
        let ret = program.ret(None);
        program.insert_inst(entry, ret);
        (first, second, load, ret)
    };
    let _ = ret;

    assert!(!DSE.run(&mut program));
    // The load was NOT forwarded (memzero cleared the pending store).
    assert_eq!(program.op(load), Op::Load);
    // Both stores survive.
    let mut stores = Vec::new();
    for block in program.basicblocks(function) {
        for inst in program.block_insts(block) {
            if matches!(program.op(inst), Op::Store) {
                stores.push(inst);
            }
        }
    }
    assert_eq!(stores.len(), 2, "memzero barrier must keep both stores");
}

/// `memzero a[4], 16` followed by stores of all 4 i32 elements: every
/// byte of the range is overwritten before any read - the MemZero is
/// dead and must be removed.
#[test]
fn removes_memzero_fully_covered_by_stores() {
    let mut program = Program::new();
    let function = program.new_function(Type::get_unit(), "f".into(), vec![]);
    let (memzero, ret) = {
        let entry = program.add_entry_block(function);
        let alloc = program.alloc_local(Type::get_array(Type::get_i32(), 4));
        program.insert_inst(entry, alloc);
        let zero = program.integer(0);
        program.insert_inst(entry, zero);
        let memzero = program.mem_zero(alloc, 16);
        program.insert_inst(entry, memzero);
        for i in 0..4 {
            let idx = program.integer(i);
            program.insert_inst(entry, idx);
            let ptr = program.get_elem_ptr(alloc, vec![zero, idx]);
            program.insert_inst(entry, ptr);
            let val = program.integer(i + 1);
            program.insert_inst(entry, val);
            let store = program.store(val, ptr);
            program.insert_inst(entry, store);
        }
        let ret = program.ret(None);
        program.insert_inst(entry, ret);
        (memzero, ret)
    };
    let _ = ret;

    assert!(DSE.run(&mut program));
    let mut memzeros = Vec::new();
    let mut stores = 0;
    for block in program.basicblocks(function) {
        for inst in program.block_insts(block) {
            match program.op(inst) {
                Op::MemZero(_) => memzeros.push(inst),
                Op::Store => stores += 1,
                _ => {}
            }
        }
    }
    assert!(memzeros.is_empty(), "fully covered memzero must be removed");
    assert_eq!(stores, 4, "covering stores must survive");
    let _ = memzero;
}

/// `memzero a[4], 16` with only the first two elements stored: bytes
/// [8, 16) are never overwritten - the MemZero must survive.
#[test]
fn keeps_memzero_partially_covered() {
    let mut program = Program::new();
    let function = program.new_function(Type::get_unit(), "f".into(), vec![]);
    let (memzero, ret) = {
        let entry = program.add_entry_block(function);
        let alloc = program.alloc_local(Type::get_array(Type::get_i32(), 4));
        program.insert_inst(entry, alloc);
        let zero = program.integer(0);
        program.insert_inst(entry, zero);
        let memzero = program.mem_zero(alloc, 16);
        program.insert_inst(entry, memzero);
        for i in 0..2 {
            let idx = program.integer(i);
            program.insert_inst(entry, idx);
            let ptr = program.get_elem_ptr(alloc, vec![zero, idx]);
            program.insert_inst(entry, ptr);
            let val = program.integer(i + 1);
            program.insert_inst(entry, val);
            let store = program.store(val, ptr);
            program.insert_inst(entry, store);
        }
        let ret = program.ret(None);
        program.insert_inst(entry, ret);
        (memzero, ret)
    };
    let _ = ret;

    assert!(!DSE.run(&mut program), "nothing may change");
    let mut memzeros = Vec::new();
    for block in program.basicblocks(function) {
        for inst in program.block_insts(block) {
            if matches!(program.op(inst), Op::MemZero(_)) {
                memzeros.push(inst);
            }
        }
    }
    assert_eq!(memzeros.len(), 1, "partially covered memzero must survive");
    let _ = memzero;
}

/// A load of any byte in the MemZero's range observes the zeroing:
/// the MemZero must survive even if later stores cover it fully.
#[test]
fn keeps_memzero_read_in_between() {
    let mut program = Program::new();
    let function = program.new_function(Type::get_unit(), "f".into(), vec![]);
    let (memzero, ret) = {
        let entry = program.add_entry_block(function);
        let alloc = program.alloc_local(Type::get_array(Type::get_i32(), 4));
        program.insert_inst(entry, alloc);
        let zero = program.integer(0);
        program.insert_inst(entry, zero);
        let memzero = program.mem_zero(alloc, 16);
        program.insert_inst(entry, memzero);
        for i in 0..3 {
            let idx = program.integer(i);
            program.insert_inst(entry, idx);
            let ptr = program.get_elem_ptr(alloc, vec![zero, idx]);
            program.insert_inst(entry, ptr);
            let val = program.integer(i + 1);
            program.insert_inst(entry, val);
            let store = program.store(val, ptr);
            program.insert_inst(entry, store);
        }
        // Read a byte of the zeroed range before the final store.
        let first_ptr = program.get_elem_ptr(alloc, vec![zero, zero]);
        program.insert_inst(entry, first_ptr);
        let load = program.load(first_ptr);
        program.insert_inst(entry, load);
        let idx3 = program.integer(3);
        program.insert_inst(entry, idx3);
        let last_ptr = program.get_elem_ptr(alloc, vec![zero, idx3]);
        program.insert_inst(entry, last_ptr);
        let val = program.integer(9);
        program.insert_inst(entry, val);
        let store = program.store(val, last_ptr);
        program.insert_inst(entry, store);
        let ret = program.ret(None);
        program.insert_inst(entry, ret);
        (memzero, ret)
    };
    let _ = ret;

    DSE.run(&mut program);
    let mut memzeros = Vec::new();
    for block in program.basicblocks(function) {
        for inst in program.block_insts(block) {
            if matches!(program.op(inst), Op::MemZero(_)) {
                memzeros.push(inst);
            }
        }
    }
    assert_eq!(
        memzeros.len(),
        1,
        "memzero observed by an intervening load must survive"
    );
    let _ = memzero;
}

/// `store 5; l1 = load; store l1; l2 = load; ret l2`: both loads give way to the stored value, and one store of it
/// is left.
#[test]
fn forwards_through_a_load_that_was_forwarded() {
    let mut program = Program::new();
    let global = new_global(&mut program);
    let function = program.new_function(Type::get_i32(), "f".into(), vec![]);
    let entry = program.add_entry_block(function);
    let five = program.integer(5);
    let first = program.store(five, global);
    let l1 = program.load(global);
    let second = program.store(l1, global);
    let l2 = program.load(global);
    let ret = program.ret(Some(l2));
    for inst in [first, l1, second, l2, ret] {
        program.insert_inst(entry, inst);
    }

    assert!(DSE.run(&mut program));
    assert_eq!(program.args(ret), vec![five]);
    assert!(program.users(l1).is_empty() && program.users(l2).is_empty());
    let stores: Vec<Inst> = program
        .block_insts(entry)
        .into_iter()
        .filter(|&i| program.op(i) == Op::Store)
        .collect();
    assert_eq!(stores.len(), 1);
    assert_eq!(program.args(stores[0]), vec![five, global]);
}

#[test]
fn forwards_through_a_chain_of_cells() {
    let mut program = Program::new();
    let (a, b, c) = (new_global(&mut program), new_global(&mut program), new_global(&mut program));
    let function = program.new_function(Type::get_i32(), "f".into(), vec![]);
    let entry = program.add_entry_block(function);
    let seven = program.integer(7);
    let s1 = program.store(seven, a);
    let l1 = program.load(a);
    let s2 = program.store(l1, b);
    let l2 = program.load(b);
    let s3 = program.store(l2, c);
    let zero = program.integer(0);
    let s4 = program.store(zero, a);
    let l3 = program.load(c);
    let ret = program.ret(Some(l3));
    for inst in [s1, l1, s2, l2, s3, s4, l3, ret] {
        program.insert_inst(entry, inst);
    }

    assert!(DSE.run(&mut program));
    assert_eq!(program.args(ret), vec![seven]);
    assert_eq!(program.args(s2), vec![seven, b]);
    assert_eq!(program.args(s3), vec![seven, c]);
    assert!(!program.block_insts(entry).contains(&s1));
}

/// The block is handed the same address on both of its ways in.
#[test]
fn forwards_through_an_address_that_a_block_is_handed() {
    let mut program = Program::new();
    let global = new_global(&mut program);
    let function = program.new_function(Type::get_i32(), "f".into(), vec![Type::get_i32()]);
    let entry = program.add_entry_block(function);
    let cond = program.params(function)[0];
    let other = program.basic_block("other".into(), vec![]);
    let join = program.basic_block("join".into(), vec![Type::get_pointer(Type::get_i32())]);
    program.push_bb_back(function, other);
    program.push_bb_back(function, join);
    let branch = program.branch(cond, other, vec![], join, vec![global]);
    program.insert_inst(entry, branch);
    let jump = program.jump(join, vec![global]);
    program.insert_inst(other, jump);
    let address = program.block_params(join)[0];
    let five = program.integer(5);
    let store = program.store(five, address);
    let load = program.load(global);
    let ret = program.ret(Some(load));
    for inst in [store, load, ret] {
        program.insert_inst(join, inst);
    }

    assert!(DSE.run(&mut program));
    assert_eq!(program.args(ret), vec![five]);
}

/// The block may be handed either of two addresses.
#[test]
fn leaves_a_load_after_a_store_to_one_of_two_cells() {
    let mut program = Program::new();
    let (global, second) = (new_global(&mut program), new_global(&mut program));
    let function = program.new_function(Type::get_i32(), "f".into(), vec![Type::get_i32()]);
    let entry = program.add_entry_block(function);
    let cond = program.params(function)[0];
    let other = program.basic_block("other".into(), vec![]);
    let join = program.basic_block("join".into(), vec![Type::get_pointer(Type::get_i32())]);
    program.push_bb_back(function, other);
    program.push_bb_back(function, join);
    let branch = program.branch(cond, other, vec![], join, vec![global]);
    program.insert_inst(entry, branch);
    let jump = program.jump(join, vec![second]);
    program.insert_inst(other, jump);
    let address = program.block_params(join)[0];
    let five = program.integer(5);
    let store = program.store(five, address);
    let load = program.load(global);
    let ret = program.ret(Some(load));
    for inst in [store, load, ret] {
        program.insert_inst(join, inst);
    }

    DSE.run(&mut program);
    assert_eq!(program.args(ret), vec![load]);
    assert!(program.block_insts(join).contains(&store));
}

/// The address is kept in a cell of its own that is written once.
#[test]
fn forwards_through_an_address_that_was_stored() {
    let mut program = Program::new();
    let global = new_global(&mut program);
    let function = program.new_function(Type::get_i32(), "f".into(), vec![]);
    let entry = program.add_entry_block(function);
    let slot = program.alloc_local(Type::get_pointer(Type::get_i32()));
    let keep = program.store(global, slot);
    let address = program.load(slot);
    let five = program.integer(5);
    let store = program.store(five, address);
    let load = program.load(global);
    let ret = program.ret(Some(load));
    for inst in [slot, keep, address, store, load, ret] {
        program.insert_inst(entry, inst);
    }

    assert!(DSE.run(&mut program));
    assert_eq!(program.args(ret), vec![five]);
}

/// What a function is called with may be any address.
#[test]
fn leaves_a_load_after_a_store_through_a_parameter() {
    let mut program = Program::new();
    let global = new_global(&mut program);
    let function =
        program.new_function(Type::get_i32(), "f".into(), vec![Type::get_pointer(Type::get_i32())]);
    let entry = program.add_entry_block(function);
    let address = program.params(function)[0];
    let (five, six) = (program.integer(5), program.integer(6));
    let first = program.store(six, global);
    let store = program.store(five, address);
    let load = program.load(global);
    let ret = program.ret(Some(load));
    for inst in [first, store, load, ret] {
        program.insert_inst(entry, inst);
    }

    DSE.run(&mut program);
    assert_eq!(program.args(ret), vec![load]);
    assert!(program.block_insts(entry).contains(&first));
}
