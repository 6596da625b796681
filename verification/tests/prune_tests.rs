#![allow(dead_code, unused_imports)]

use arandu_mir::amir::{
    AmirBasicBlock, AmirConstant, AmirFunc, AmirLocal, AmirOperand, AmirPlace, AmirProjection, AmirRvalue, AmirStmt,
    AmirTemp, AmirTerminator, BlockParam, DenseRange, Span, SymbolId, compute_cfg_edges,
};
use arandu_mir::prune::prune_dummy_loads_stores;

fn span0() -> Span {
    Span { file_id: 0, start: 0, end: 0 }
}

fn sym(file_id: u32, local_id: u32) -> SymbolId {
    SymbolId { file_id, local_id }
}

fn int_temp(id: usize) -> AmirTemp {
    AmirTemp { id, ty: 1, is_copy: true, is_nullable: false, span: span0() }
}

fn bool_temp(id: usize) -> AmirTemp {
    AmirTemp { id, ty: 2, is_copy: true, is_nullable: false, span: span0() }
}

fn local(id: usize, is_memory: bool) -> AmirLocal {
    AmirLocal { id, ty: 1, is_memory, symbol: None, span: span0(), use_span: None }
}

fn place(l: usize) -> AmirPlace {
    AmirPlace { local: l, projections: Vec::new() }
}

fn bool_const(b: bool) -> AmirOperand {
    AmirOperand::Constant(AmirConstant::Bool(b))
}

fn ret_block(id: usize, statements: DenseRange) -> AmirBasicBlock {
    AmirBasicBlock { id, statements, params: DenseRange::empty(), terminator: AmirTerminator::Return }
}

fn goto_block(id: usize, statements: DenseRange, target: usize, args: Vec<AmirOperand>) -> AmirBasicBlock {
    AmirBasicBlock { id, statements, params: DenseRange::empty(), terminator: AmirTerminator::Goto { target, args } }
}

fn branch_block(id: usize, statements: DenseRange, condition: AmirOperand, if_true: usize, if_false: usize) -> AmirBasicBlock {
    AmirBasicBlock {
        id,
        statements,
        params: DenseRange::empty(),
        terminator: AmirTerminator::Branch {
            condition,
            if_true,
            true_args: Vec::new(),
            if_false,
            false_args: Vec::new(),
        },
    }
}

fn make_func(
    blocks: Vec<AmirBasicBlock>,
    stmts: Vec<AmirStmt>,
    temps: Vec<AmirTemp>,
    locals: Vec<AmirLocal>,
    block_params: Vec<BlockParam>,
) -> AmirFunc {
    let cfg = compute_cfg_edges(&blocks);
    AmirFunc {
        symbol: sym(0, 0),
        return_type: 0,
        receiver: None,
        params: Vec::new(),
        locals,
        temps,
        blocks,
        block_params,
        stmts,
        cfg,
    }
}

/// One block holding `statements`, returning.
fn single_block_func(statements: Vec<AmirStmt>, temps: Vec<AmirTemp>) -> AmirFunc {
    let n = statements.len();
    make_func(vec![ret_block(0, DenseRange::new(0, n))], statements, temps, Vec::new(), Vec::new())
}

fn block_stmt(func: &AmirFunc, block: usize, k: usize) -> &AmirStmt {
    &func.stmts[func.blocks[block].statements.start + k]
}

#[test]
fn test_prune_dummy_loads_stores() {
    let stmts = vec![
        AmirStmt::Store { lhs: place(0), rhs: AmirOperand::Copy(0) },
        AmirStmt::Store { lhs: place(1), rhs: AmirOperand::Copy(0) },
        AmirStmt::Assign { lhs: 0, rhs: AmirRvalue::Load(place(0)) },
        AmirStmt::Assign { lhs: 1, rhs: AmirRvalue::Load(place(1)) },
    ];
    let block = AmirBasicBlock { id: 0, params: DenseRange::empty(), statements: DenseRange::new(0, 4), terminator: AmirTerminator::Return };
    let mut func = make_func(vec![block], stmts, Vec::new(), vec![local(0, false), local(1, true)], Vec::new());
    func.cfg.successors = Vec::new();
    func.cfg.predecessors = Vec::new();

    prune_dummy_loads_stores(&mut func);

    let new_block = &func.blocks[0];
    assert_eq!(new_block.statements.len, 2);
    let new_stmt_0 = &func.stmts[new_block.statements.start];
    let new_stmt_1 = &func.stmts[new_block.statements.start + 1];
    if let AmirStmt::Store { lhs, .. } = new_stmt_0 {
        assert_eq!(lhs.local, 1);
    } else {
        panic!("Expected Store statement, got {:?}", new_stmt_0);
    }
    if let AmirStmt::Assign { rhs: AmirRvalue::Load(place), .. } = new_stmt_1 {
        assert_eq!(place.local, 1);
    } else {
        panic!("Expected Assign/Load statement, got {:?}", new_stmt_1);
    }
}

#[test]
fn prune_keeps_projected_accesses_and_recomputes_cfg() {
    let field = AmirPlace { local: 0, projections: vec![AmirProjection::Field(sym(0, 7))] };
    let stmts = vec![
        AmirStmt::Store { lhs: field.clone(), rhs: AmirOperand::Copy(0) },
        AmirStmt::Assign { lhs: 0, rhs: AmirRvalue::Load(field) },
        AmirStmt::Store { lhs: place(0), rhs: AmirOperand::Copy(0) },
    ];
    let blocks = vec![goto_block(0, DenseRange::new(0, 2), 1, Vec::new()), ret_block(1, DenseRange::new(2, 1))];
    let mut func = make_func(blocks, stmts, vec![int_temp(0)], vec![local(0, false)], Vec::new());
    func.cfg.successors = Vec::new();
    func.cfg.predecessors = Vec::new();
    prune_dummy_loads_stores(&mut func);
    assert_eq!(func.blocks[0].statements, DenseRange::new(0, 2));
    assert_eq!(func.blocks[1].statements, DenseRange::new(2, 0));
    assert_eq!(func.stmts.len(), 2);
    assert_eq!(func.cfg.successors[0], vec![1]);
    assert_eq!(func.cfg.predecessors[1], vec![0]);
}

#[test]
fn prune_copies_statements_of_overlapping_ranges() {
    let stmts = vec![AmirStmt::Store { lhs: place(0), rhs: AmirOperand::Copy(0) }];
    let blocks = vec![goto_block(0, DenseRange::new(0, 1), 1, Vec::new()), ret_block(1, DenseRange::new(0, 1))];
    let mut func = make_func(blocks, stmts, vec![int_temp(0)], vec![local(0, true)], Vec::new());
    prune_dummy_loads_stores(&mut func);
    assert_eq!(func.stmts.len(), 2);
    assert_eq!(func.blocks[0].statements, DenseRange::new(0, 1));
    assert_eq!(func.blocks[1].statements, DenseRange::new(1, 1));
}

#[test]
fn prune_twice_changes_nothing_more() {
    let stmts = vec![
        AmirStmt::Store { lhs: place(0), rhs: AmirOperand::Copy(0) },
        AmirStmt::Store { lhs: place(1), rhs: AmirOperand::Copy(0) },
        AmirStmt::Assign { lhs: 0, rhs: AmirRvalue::Load(place(0)) },
        AmirStmt::Assign { lhs: 1, rhs: AmirRvalue::Load(place(1)) },
    ];
    let block = AmirBasicBlock { id: 0, params: DenseRange::empty(), statements: DenseRange::new(0, 4), terminator: AmirTerminator::Return };
    let mut func = make_func(vec![block], stmts, Vec::new(), vec![local(0, false), local(1, true)], Vec::new());
    prune_dummy_loads_stores(&mut func);
    let stmts_once = format!("{:?}", func.stmts);
    let blocks_once = format!("{:?}", func.blocks);
    prune_dummy_loads_stores(&mut func);
    assert_eq!(format!("{:?}", func.stmts), stmts_once);
    assert_eq!(format!("{:?}", func.blocks), blocks_once);
    assert_eq!(func.stmts.len(), 2);
}
