#![allow(dead_code, unused_imports)]

use arandu_mir::amir::{
    AmirBasicBlock, AmirConstant, AmirFunc, AmirLocal, AmirOperand, AmirPlace, AmirRvalue, AmirStmt, AmirTemp,
    AmirTerminator, BinaryOp, BlockParam, DenseRange, Span, SymbolId, UnaryOp, compute_cfg_edges,
};
use arandu_mir::diagnostics::DiagCode;
use arandu_mir::literal_pool::{AmirLiteralEntry, AmirLiteralPool};
use arandu_mir::optimize::{
    AmirProgram, OptLevel, optimize_amir, optimize_amir_checked, optimize_amir_checked_with_level, optimize_amir_func,
    optimize_amir_with_level,
};
use arandu_mir::sccp::sccp;

fn span0() -> Span {
    Span { file_id: 0, start: 0, end: 0 }
}

fn sym(file_id: u32, local_id: u32) -> SymbolId {
    SymbolId { file_id, local_id }
}

fn int_temp(id: usize) -> AmirTemp {
    AmirTemp { id, ty: 1, is_copy: true, is_nullable: false, span: span0() }
}

fn bool_temp(id: usize) -> AmirTemp {
    AmirTemp { id, ty: 2, is_copy: true, is_nullable: false, span: span0() }
}

fn local(id: usize, is_memory: bool) -> AmirLocal {
    AmirLocal { id, ty: 1, is_memory, symbol: None, span: span0(), use_span: None }
}

fn place(l: usize) -> AmirPlace {
    AmirPlace { local: l, projections: Vec::new() }
}

fn bool_const(b: bool) -> AmirOperand {
    AmirOperand::Constant(AmirConstant::Bool(b))
}

fn ret_block(id: usize, statements: DenseRange) -> AmirBasicBlock {
    AmirBasicBlock { id, statements, params: DenseRange::empty(), terminator: AmirTerminator::Return }
}

fn goto_block(id: usize, statements: DenseRange, target: usize, args: Vec<AmirOperand>) -> AmirBasicBlock {
    AmirBasicBlock { id, statements, params: DenseRange::empty(), terminator: AmirTerminator::Goto { target, args } }
}

fn branch_block(id: usize, statements: DenseRange, condition: AmirOperand, if_true: usize, if_false: usize) -> AmirBasicBlock {
    AmirBasicBlock {
        id,
        statements,
        params: DenseRange::empty(),
        terminator: AmirTerminator::Branch {
            condition,
            if_true,
            true_args: Vec::new(),
            if_false,
            false_args: Vec::new(),
        },
    }
}

fn make_func(
    blocks: Vec<AmirBasicBlock>,
    stmts: Vec<AmirStmt>,
    temps: Vec<AmirTemp>,
    locals: Vec<AmirLocal>,
    block_params: Vec<BlockParam>,
) -> AmirFunc {
    let cfg = compute_cfg_edges(&blocks);
    AmirFunc {
        symbol: sym(0, 0),
        return_type: 0,
        receiver: None,
        params: Vec::new(),
        locals,
        temps,
        blocks,
        block_params,
        stmts,
        cfg,
    }
}

/// One block holding `statements`, returning.
fn single_block_func(statements: Vec<AmirStmt>, temps: Vec<AmirTemp>) -> AmirFunc {
    let n = statements.len();
    make_func(vec![ret_block(0, DenseRange::new(0, n))], statements, temps, Vec::new(), Vec::new())
}

fn block_stmt(func: &AmirFunc, block: usize, k: usize) -> &AmirStmt {
    &func.stmts[func.blocks[block].statements.start + k]
}

fn pool_entry(pool: &AmirLiteralPool, stmt: &AmirStmt) -> AmirLiteralEntry {
    match stmt {
        AmirStmt::Assign { rhs: AmirRvalue::Use(AmirOperand::Constant(AmirConstant::Pool(id))), .. } => pool.get(*id).clone(),
        other => panic!("expected a folded pool constant, got {other:?}"),
    }
}

fn diamond(condition: bool) -> AmirFunc {
    let stmts = vec![
        AmirStmt::Assign { lhs: 0, rhs: AmirRvalue::Use(bool_const(condition)) },
        AmirStmt::Store { lhs: place(0), rhs: bool_const(true) },
        AmirStmt::Store { lhs: place(1), rhs: bool_const(false) },
    ];
    let blocks = vec![
        branch_block(0, DenseRange::new(0, 1), AmirOperand::Copy(0), 1, 2),
        goto_block(1, DenseRange::new(1, 1), 3, Vec::new()),
        goto_block(2, DenseRange::new(2, 1), 3, Vec::new()),
        ret_block(3, DenseRange::empty()),
    ];
    make_func(blocks, stmts, vec![bool_temp(0)], vec![local(0, false), local(1, false)], Vec::new())
}

#[test]
fn folds_integer_binary_and_comparison() {
    let mut pool = AmirLiteralPool::default();
    let two = AmirConstant::Pool(pool.intern_int(2));
    let three = AmirConstant::Pool(pool.intern_int(3));
    let mut f = single_block_func(
        vec![
            AmirStmt::Assign {
                lhs: 0,
                rhs: AmirRvalue::Binary { op: BinaryOp::Add, left: AmirOperand::Constant(two), right: AmirOperand::Constant(three) },
            },
            AmirStmt::Assign {
                lhs: 1,
                rhs: AmirRvalue::Binary { op: BinaryOp::Gt, left: AmirOperand::Copy(0), right: AmirOperand::Constant(three) },
            },
        ],
        vec![int_temp(0), bool_temp(1)],
    );
    sccp(&mut f, &mut pool);
    assert!(matches!(
        block_stmt(&f, 0, 1),
        AmirStmt::Assign { rhs: AmirRvalue::Use(AmirOperand::Constant(AmirConstant::Bool(true))), .. }
    ));
}

#[test]
fn fold_not_bool() {
    let mut pool = AmirLiteralPool::default();
    let mut f = single_block_func(
        vec![AmirStmt::Assign { lhs: 0, rhs: AmirRvalue::Unary { op: UnaryOp::Not, operand: bool_const(false) } }],
        vec![bool_temp(0)],
    );
    sccp(&mut f, &mut pool);
    assert!(matches!(
        block_stmt(&f, 0, 0),
        AmirStmt::Assign { rhs: AmirRvalue::Use(AmirOperand::Constant(AmirConstant::Bool(true))), .. }
    ));
}

#[test]
fn fold_neg_int() {
    let mut pool = AmirLiteralPool::default();
    let five = AmirConstant::Pool(pool.intern_int(5));
    let mut f = single_block_func(
        vec![AmirStmt::Assign { lhs: 0, rhs: AmirRvalue::Unary { op: UnaryOp::Neg, operand: AmirOperand::Constant(five) } }],
        vec![int_temp(0)],
    );
    sccp(&mut f, &mut pool);
    assert_eq!(pool_entry(&pool, block_stmt(&f, 0, 0)), AmirLiteralEntry::Int(-5));
}

#[test]
fn fold_int_mul() {
    let mut pool = AmirLiteralPool::default();
    let a = AmirConstant::Pool(pool.intern_int(7));
    let b = AmirConstant::Pool(pool.intern_int(6));
    let mut f = single_block_func(
        vec![AmirStmt::Assign {
            lhs: 0,
            rhs: AmirRvalue::Binary { op: BinaryOp::Mul, left: AmirOperand::Constant(a), right: AmirOperand::Constant(b) },
        }],
        vec![int_temp(0)],
    );
    sccp(&mut f, &mut pool);
    assert_eq!(pool_entry(&pool, block_stmt(&f, 0, 0)), AmirLiteralEntry::Int(42));
}

#[test]
fn fold_bool_and_or() {
    let mut pool = AmirLiteralPool::default();
    let mut f = single_block_func(
        vec![
            AmirStmt::Assign {
                lhs: 0,
                rhs: AmirRvalue::Binary { op: BinaryOp::And, left: bool_const(true), right: bool_const(false) },
            },
            AmirStmt::Assign {
                lhs: 1,
                rhs: AmirRvalue::Binary { op: BinaryOp::Or, left: bool_const(false), right: bool_const(true) },
            },
        ],
        vec![bool_temp(0), bool_temp(1)],
    );
    sccp(&mut f, &mut pool);
    assert!(matches!(
        block_stmt(&f, 0, 0),
        AmirStmt::Assign { rhs: AmirRvalue::Use(AmirOperand::Constant(AmirConstant::Bool(false))), .. }
    ));
    assert!(matches!(
        block_stmt(&f, 0, 1),
        AmirStmt::Assign { rhs: AmirRvalue::Use(AmirOperand::Constant(AmirConstant::Bool(true))), .. }
    ));
}

#[test]
fn sccp_dead_branch_proven_by_constant_condition() {
    let stmts = vec![
        AmirStmt::Assign { lhs: 0, rhs: AmirRvalue::Use(bool_const(false)) },
        AmirStmt::Store { lhs: place(0), rhs: bool_const(true) },
        AmirStmt::Store { lhs: place(1), rhs: bool_const(false) },
    ];
    let blocks = vec![
        branch_block(0, DenseRange::new(0, 1), AmirOperand::Copy(0), 1, 2),
        ret_block(1, DenseRange::new(1, 1)),
        ret_block(2, DenseRange::new(2, 1)),
    ];
    let mut func = make_func(blocks, stmts, vec![bool_temp(0)], vec![local(0, false), local(1, false)], Vec::new());
    let mut pool = AmirLiteralPool::default();
    assert!(sccp(&mut func, &mut pool));
    assert!(matches!(func.blocks[0].terminator, AmirTerminator::Goto { target: 2, .. }));
}

#[test]
fn dce_removes_unused_pure_assigns_and_keeps_alloc() {
    let mut f = single_block_func(
        vec![
            AmirStmt::Assign { lhs: 1, rhs: AmirRvalue::Use(bool_const(true)) },
            AmirStmt::Assign { lhs: 2, rhs: AmirRvalue::Alloc(bool_const(true)) },
        ],
        vec![bool_temp(0), bool_temp(1), bool_temp(2)],
    );
    optimize_amir_func(&mut f, &mut AmirLiteralPool::default()).unwrap();
    assert_eq!(f.blocks[0].statements.len, 1);
    assert!(matches!(block_stmt(&f, 0, 0), AmirStmt::Assign { rhs: AmirRvalue::Alloc(_), .. }));
}

#[test]
fn dce_removes_unused_binary() {
    let mut pool = AmirLiteralPool::default();
    let a = AmirConstant::Pool(pool.intern_int(3));
    let mut f = single_block_func(
        vec![AmirStmt::Assign {
            lhs: 1,
            rhs: AmirRvalue::Binary { op: BinaryOp::Add, left: AmirOperand::Constant(a), right: AmirOperand::Constant(a) },
        }],
        vec![int_temp(0), int_temp(1)],
    );
    optimize_amir_func(&mut f, &mut pool).unwrap();
    assert_eq!(f.blocks[0].statements.len, 0);
}

#[test]
fn dce_keeps_call_side_effect() {
    let mut f = single_block_func(
        vec![AmirStmt::Call { lhs: Some(0), callee: AmirOperand::FunctionRef(sym(0, 1)), args: Vec::new(), return_borrow: None }],
        vec![bool_temp(0)],
    );
    optimize_amir_func(&mut f, &mut AmirLiteralPool::default()).unwrap();
    assert_eq!(f.blocks[0].statements.len, 1);
}

#[test]
fn whole_pipeline_dead_branch_elimination() {
    let mut func = diamond(true);
    optimize_amir_func(&mut func, &mut AmirLiteralPool::default()).unwrap();
    assert_eq!(func.blocks.len(), 1);
    assert_eq!(func.blocks[0].statements.len, 2);
    assert!(matches!(func.blocks[0].terminator, AmirTerminator::Return));
}

#[test]
fn program_level_pipeline_optimizes_every_function() {
    let mut program = AmirProgram { funcs: vec![diamond(true), diamond(false)], literal_pool: AmirLiteralPool::default() };
    optimize_amir(&mut program).unwrap();
    for func in &program.funcs {
        assert_eq!(func.blocks.len(), 1);
        assert_eq!(func.blocks[0].statements.len, 2);
    }
}

#[test]
fn o0_runs_no_pass() {
    let mut program = AmirProgram { funcs: vec![diamond(true)], literal_pool: AmirLiteralPool::default() };
    optimize_amir_with_level(&mut program, OptLevel::O0).unwrap();
    assert_eq!(program.funcs[0].blocks.len(), 4);
    assert_eq!(program.funcs[0].stmts.len(), 3);
}

#[test]
fn checked_pipeline_rejects_malformed_amir() {
    let mut bad = diamond(true);
    bad.blocks[1].terminator = AmirTerminator::Goto { target: 9, args: Vec::new() };
    let mut program = AmirProgram { funcs: vec![diamond(true), bad], literal_pool: AmirLiteralPool::default() };
    let error = optimize_amir_checked(&mut program).unwrap_err();
    assert_eq!(error.code, DiagCode::ICEO001);
    assert_eq!(error.message, "malformed AMIR rejected by validation");
    // Nothing was optimized.
    assert_eq!(program.funcs[0].blocks.len(), 4);
}

#[test]
fn checked_pipeline_accepts_valid_amir() {
    let mut program = AmirProgram { funcs: vec![diamond(false)], literal_pool: AmirLiteralPool::default() };
    optimize_amir_checked_with_level(&mut program, OptLevel::O2).unwrap();
    assert_eq!(program.funcs[0].blocks.len(), 1);
}
