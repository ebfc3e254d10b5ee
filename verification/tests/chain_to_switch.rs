//! Chains of equality tests.

use raana_opt::chain_to_switch::ChainToSwitch;
use raana_opt::ir::{BasicBlock, BinaryOp, Function, Op, Type};
use raana_opt::program::Program;

fn build_chain(
    program: &mut Program,
    len: usize,
) -> (Function, BasicBlock, Vec<BasicBlock>, BasicBlock) {
    let func = program.new_function(Type::get_i32(), "chain".to_owned(), vec![Type::get_i32()]);
    let (entry, exit) = {
        let entry = program.basic_block("entry".to_owned(), vec![Type::get_i32()]);
        let exit = program.basic_block("exit".to_owned(), vec![]);
        program.push_bb_back(func, entry);
        program.push_bb_back(func, exit);
        (entry, exit)
    };
    let mut cases = Vec::new();
    {
        let x = program.block_params(entry)[0];
        // Pre-create every chain block so the false target of a test is
        // exactly the next chain block.
        let chain_blocks: Vec<BasicBlock> = (1..=len)
            .map(|k| {
                if k == 1 {
                    entry
                } else {
                    let bb = program.basic_block(format!("case_{k}"), vec![]);
                    program.push_bb_back(func, bb);
                    bb
                }
            })
            .collect();
        for (k, &case) in chain_blocks.iter().enumerate() {
            let k = k + 1;
            let k_inst = program.integer(k as i32);
            let test = program.binary(BinaryOp::Eq, x, k_inst);
            program.insert_inst(case, test);
            let handler = program.basic_block(format!("ret_{k}"), vec![]);
            program.push_bb_back(func, handler);
            let value = program.integer((k * 2) as i32);
            program.insert_inst(handler, value);
            let next = if k < len { chain_blocks[k] } else { exit };
            let br = program.branch(test, handler, vec![], next, vec![]);
            program.insert_inst(case, br);
            cases.push(case);
        }
    }
    (func, entry, cases, exit)
}

#[test]
fn converts_an_equality_chain_into_a_balanced_tree() {
    let mut program = Program::new();
    let (func, entry, cases, exit) = build_chain(&mut program, 6);
    assert!(ChainToSwitch.run_on(&mut program, func));
    let block_list = program.basicblocks(func);
    // The old chain blocks are gone (except the entry, which survives as
    // the tree root), replaced by the tree.
    for case in cases {
        if case != entry {
            assert!(!block_list.contains(&case));
        }
    }
    // The entry block survives as the tree root and still tests x.
    let entry_insts = program.block_insts(entry);
    assert_eq!(program.op(entry_insts[0]), Op::Binary(BinaryOp::Eq));
    // The default block is still reachable from the tree.
    assert!(program.block_users(exit).len() >= 1);
}

#[test]
fn rejects_chains_shorter_than_four_links() {
    let mut program = Program::new();
    let (func, _, cases, _) = build_chain(&mut program, 3);
    assert!(!ChainToSwitch.run_on(&mut program, func));
    for case in cases {
        assert!(program.block_insts(case).len() == 2);
    }
}

/// Every transfer in `func` leads to a block that is laid out.
fn lands(program: &Program, func: Function) -> bool {
    let blocks = program.basicblocks(func);
    blocks.iter().all(|&b| {
        program.block_insts(b).into_iter().all(|i| match program.op(i) {
            Op::Jump(t) => blocks.contains(&t),
            Op::Branch(t, f, _) => blocks.contains(&t) && blocks.contains(&f),
            _ => true,
        })
    })
}

#[test]
fn a_chain_that_is_entered_in_its_middle_stays() {
    let mut program = Program::new();
    let (func, _, cases, _) = build_chain(&mut program, 5);
    let side = program.basic_block("side".to_owned(), vec![]);
    program.push_bb_back(func, side);
    let jump = program.jump(cases[3], vec![]);
    program.insert_inst(side, jump);
    let before = program.basicblocks(func);

    assert!(lands(&program, func));
    assert!(!ChainToSwitch.run_on(&mut program, func));
    assert_eq!(program.basicblocks(func), before);
    assert!(lands(&program, func));
}

#[test]
fn the_rest_of_a_chain_is_converted_where_it_is_entered() {
    let mut program = Program::new();
    let (func, entry, cases, _) = build_chain(&mut program, 6);
    let side = program.basic_block("side".to_owned(), vec![]);
    program.push_bb_back(func, side);
    let jump = program.jump(cases[1], vec![]);
    program.insert_inst(side, jump);

    assert!(ChainToSwitch.run_on(&mut program, func));
    assert!(lands(&program, func));
    let blocks = program.basicblocks(func);
    assert!(blocks.contains(&entry) && blocks.contains(&cases[1]) && !blocks.contains(&cases[2]));
}

#[test]
fn a_chain_that_handles_a_case_by_a_link_stays() {
    let mut program = Program::new();
    let (func, entry, cases, _) = build_chain(&mut program, 4);
    let branch = program.terminator(entry);
    let cond = program.arg(branch, 0);
    program.set_inst(branch, Op::Branch(cases[2], cases[1], 0), vec![cond], Type::get_unit());

    assert!(!ChainToSwitch.run_on(&mut program, func));
    assert!(lands(&program, func));
}

#[test]
fn a_converted_chain_leaves_no_transfer_to_nowhere() {
    let mut program = Program::new();
    let (func, _, _, _) = build_chain(&mut program, 7);
    assert!(lands(&program, func));
    assert!(ChainToSwitch.run_on(&mut program, func));
    assert!(lands(&program, func));
}
