#![allow(dead_code, unused_imports)]

use arandu_mir::amir::{
    AmirBasicBlock, AmirConstant, AmirFunc, AmirLocal, AmirOperand, AmirPlace, AmirRvalue, AmirStmt, AmirTemp,
    AmirTerminator, BinaryOp, BlockParam, DenseRange, GenArenaDomain, Span, SymbolId, compute_cfg_edges,
};
use arandu_mir::dce::mark_sweep_dce;
use arandu_mir::diagnostics::{DiagCode, Severity};

fn span0() -> Span {
    Span { file_id: 0, start: 0, end: 0 }
}

fn sym(file_id: u32, local_id: u32) -> SymbolId {
    SymbolId { file_id, local_id }
}

fn int_temp(id: usize) -> AmirTemp {
    AmirTemp { id, ty: 1, is_copy: true, is_nullable: false, span: span0() }
}

fn bool_temp(id: usize) -> AmirTemp {
    AmirTemp { id, ty: 2, is_copy: true, is_nullable: false, span: span0() }
}

fn local(id: usize, is_memory: bool) -> AmirLocal {
    AmirLocal { id, ty: 1, is_memory, symbol: None, span: span0(), use_span: None }
}

fn place(l: usize) -> AmirPlace {
    AmirPlace { local: l, projections: Vec::new() }
}

fn bool_const(b: bool) -> AmirOperand {
    AmirOperand::Constant(AmirConstant::Bool(b))
}

fn ret_block(id: usize, statements: DenseRange) -> AmirBasicBlock {
    AmirBasicBlock { id, statements, params: DenseRange::empty(), terminator: AmirTerminator::Return }
}

fn goto_block(id: usize, statements: DenseRange, target: usize, args: Vec<AmirOperand>) -> AmirBasicBlock {
    AmirBasicBlock { id, statements, params: DenseRange::empty(), terminator: AmirTerminator::Goto { target, args } }
}

fn branch_block(id: usize, statements: DenseRange, condition: AmirOperand, if_true: usize, if_false: usize) -> AmirBasicBlock {
    AmirBasicBlock {
        id,
        statements,
        params: DenseRange::empty(),
        terminator: AmirTerminator::Branch {
            condition,
            if_true,
            true_args: Vec::new(),
            if_false,
            false_args: Vec::new(),
        },
    }
}

fn make_func(
    blocks: Vec<AmirBasicBlock>,
    stmts: Vec<AmirStmt>,
    temps: Vec<AmirTemp>,
    locals: Vec<AmirLocal>,
    block_params: Vec<BlockParam>,
) -> AmirFunc {
    let cfg = compute_cfg_edges(&blocks);
    AmirFunc {
        symbol: sym(0, 0),
        return_type: 0,
        receiver: None,
        params: Vec::new(),
        locals,
        temps,
        blocks,
        block_params,
        stmts,
        cfg,
    }
}

/// One block holding `statements`, returning.
fn single_block_func(statements: Vec<AmirStmt>, temps: Vec<AmirTemp>) -> AmirFunc {
    let n = statements.len();
    make_func(vec![ret_block(0, DenseRange::new(0, n))], statements, temps, Vec::new(), Vec::new())
}

fn block_stmt(func: &AmirFunc, block: usize, k: usize) -> &AmirStmt {
    &func.stmts[func.blocks[block].statements.start + k]
}

#[test]
fn keeps_call_side_effect() {
    let mut f = single_block_func(
        vec![AmirStmt::Call { lhs: Some(0), callee: AmirOperand::FunctionRef(sym(0, 1)), args: Vec::new(), return_borrow: None }],
        vec![bool_temp(0)],
    );
    assert!(!mark_sweep_dce(&mut f).unwrap());
    assert_eq!(f.blocks[0].statements.len, 1);
}

#[test]
fn removes_unused_assign() {
    let mut f = single_block_func(
        vec![AmirStmt::Assign { lhs: 1, rhs: AmirRvalue::Use(bool_const(true)) }],
        vec![bool_temp(0), bool_temp(1)],
    );
    assert!(mark_sweep_dce(&mut f).unwrap());
    assert_eq!(f.blocks[0].statements.len, 0);
}

#[test]
fn keeps_gen_operation_when_result_is_unused() {
    let mut f = single_block_func(
        vec![AmirStmt::Assign {
            lhs: 1,
            rhs: AmirRvalue::GenInsert { value: AmirOperand::Copy(0), payload_ty: 1, arena: GenArenaDomain { id: 0 }, origin: 4 },
        }],
        vec![int_temp(0), int_temp(1)],
    );
    assert!(!mark_sweep_dce(&mut f).unwrap());
    assert_eq!(f.blocks[0].statements.len, 1);
}

#[test]
fn keeps_binary_when_result_is_used() {
    let mut f = single_block_func(
        vec![
            AmirStmt::Assign {
                lhs: 1,
                rhs: AmirRvalue::Binary {
                    op: BinaryOp::Add,
                    left: AmirOperand::Constant(AmirConstant::Pool(0)),
                    right: AmirOperand::Constant(AmirConstant::Pool(1)),
                },
            },
            AmirStmt::Store { lhs: place(0), rhs: AmirOperand::Copy(1) },
        ],
        vec![int_temp(0), int_temp(1)],
    );
    assert!(!mark_sweep_dce(&mut f).unwrap());
    assert_eq!(f.blocks[0].statements.len, 2);
}

#[test]
fn removes_unreachable_chain() {
    let mut f = single_block_func(
        vec![
            AmirStmt::Assign {
                lhs: 2,
                rhs: AmirRvalue::Binary { op: BinaryOp::Add, left: AmirOperand::Copy(1), right: bool_const(true) },
            },
            AmirStmt::Assign {
                lhs: 1,
                rhs: AmirRvalue::Binary { op: BinaryOp::Mul, left: AmirOperand::Copy(0), right: bool_const(true) },
            },
            AmirStmt::Assign { lhs: 0, rhs: AmirRvalue::Use(bool_const(true)) },
        ],
        vec![bool_temp(0), bool_temp(1), bool_temp(2)],
    );
    assert!(mark_sweep_dce(&mut f).unwrap());
    assert_eq!(f.blocks[0].statements.len, 1);
}

#[test]
fn noop_when_nothing_to_remove() {
    let mut f = single_block_func(vec![AmirStmt::Store { lhs: place(0), rhs: bool_const(true) }], vec![]);
    assert!(!mark_sweep_dce(&mut f).unwrap());
    assert_eq!(f.blocks[0].statements.len, 1);
}

#[test]
fn black_box_is_an_observable_root_and_keeps_its_input_definition() {
    let mut f = single_block_func(
        vec![
            AmirStmt::Assign { lhs: 1, rhs: AmirRvalue::Use(bool_const(true)) },
            AmirStmt::Assign { lhs: 2, rhs: AmirRvalue::BlackBox { value: AmirOperand::Copy(1), value_ty: 1 } },
        ],
        vec![int_temp(0), int_temp(1), int_temp(2)],
    );
    assert!(!mark_sweep_dce(&mut f).unwrap());
    assert_eq!(f.blocks[0].statements.len, 2);
}

#[test]
fn keeps_all_return_slot_defs_on_branches() {
    let stmts = vec![
        AmirStmt::Assign { lhs: 0, rhs: AmirRvalue::Use(bool_const(true)) },
        AmirStmt::Assign { lhs: 0, rhs: AmirRvalue::Use(bool_const(false)) },
    ];
    let blocks = vec![
        branch_block(0, DenseRange::empty(), bool_const(true), 1, 2),
        ret_block(1, DenseRange::new(0, 1)),
        ret_block(2, DenseRange::new(1, 1)),
    ];
    let mut f = make_func(blocks, stmts, vec![bool_temp(0)], Vec::new(), Vec::new());
    assert!(!mark_sweep_dce(&mut f).unwrap());
    assert_eq!(f.blocks[1].statements.len, 1);
    assert_eq!(f.blocks[2].statements.len, 1);
}

#[test]
fn keeps_all_branch_defs_for_a_live_join_use() {
    let stmts = vec![
        AmirStmt::Assign { lhs: 1, rhs: AmirRvalue::Use(bool_const(true)) },
        AmirStmt::Assign { lhs: 1, rhs: AmirRvalue::Use(bool_const(false)) },
        AmirStmt::Store { lhs: place(0), rhs: AmirOperand::Move(1) },
    ];
    let blocks = vec![
        branch_block(0, DenseRange::empty(), bool_const(true), 1, 2),
        goto_block(1, DenseRange::new(0, 1), 3, Vec::new()),
        goto_block(2, DenseRange::new(1, 1), 3, Vec::new()),
        ret_block(3, DenseRange::new(2, 1)),
    ];
    let mut f = make_func(blocks, stmts, vec![bool_temp(0), bool_temp(1)], Vec::new(), Vec::new());
    assert!(!mark_sweep_dce(&mut f).unwrap());
    assert_eq!(f.blocks[1].statements.len, 1);
    assert_eq!(f.blocks[2].statements.len, 1);
    assert_eq!(f.blocks[3].statements.len, 1);
}

#[test]
fn keeps_assign_only_used_as_goto_arg() {
    let stmts = vec![
        AmirStmt::Assign { lhs: 1, rhs: AmirRvalue::Use(bool_const(true)) },
        AmirStmt::Assign { lhs: 0, rhs: AmirRvalue::Use(bool_const(false)) },
    ];
    let blocks = vec![
        goto_block(0, DenseRange::new(0, 1), 1, vec![AmirOperand::Copy(1)]),
        ret_block(1, DenseRange::new(1, 1)),
    ];
    let mut f = make_func(blocks, stmts, vec![bool_temp(0), bool_temp(1)], Vec::new(), Vec::new());
    assert!(!mark_sweep_dce(&mut f).unwrap());
    assert_eq!(f.blocks[0].statements.len, 1);
}

#[test]
fn dce_overlapping_statement_ranges_return_ice() {
    let stmts = vec![
        AmirStmt::Assign { lhs: 0, rhs: AmirRvalue::Use(bool_const(true)) },
        AmirStmt::Assign { lhs: 1, rhs: AmirRvalue::Use(bool_const(false)) },
    ];
    let blocks = vec![ret_block(0, DenseRange::new(0, 1)), ret_block(1, DenseRange::new(0, 1))];
    let mut f = make_func(blocks, stmts, vec![int_temp(0), int_temp(1)], Vec::new(), Vec::new());
    let error = mark_sweep_dce(&mut f).unwrap_err();
    assert_eq!(error.code, DiagCode::ICEO001);
}

#[test]
fn dce_ice_names_the_first_repeated_statement() {
    let stmts = vec![
        AmirStmt::Assign { lhs: 0, rhs: AmirRvalue::Use(bool_const(true)) },
        AmirStmt::Assign { lhs: 1, rhs: AmirRvalue::Use(bool_const(false)) },
    ];
    let blocks = vec![ret_block(0, DenseRange::new(0, 1)), ret_block(1, DenseRange::new(0, 1))];
    let mut f = make_func(blocks, stmts, vec![int_temp(0), int_temp(1)], Vec::new(), Vec::new());
    let error = mark_sweep_dce(&mut f).unwrap_err();
    assert_eq!(error.severity, Severity::Ice);
    assert_eq!(error.message, "DCE encountered duplicate or out-of-range statement id 0");
    assert_eq!(f.stmts.len(), 0);
}

#[test]
fn dce_keeps_the_defining_chain_of_a_store() {
    // t2 = t1 + t1; t1 = use true; store _0 <- t2; t3 = use false (dead)
    let stmts = vec![
        AmirStmt::Assign { lhs: 1, rhs: AmirRvalue::Use(bool_const(true)) },
        AmirStmt::Assign { lhs: 3, rhs: AmirRvalue::Use(bool_const(false)) },
        AmirStmt::Assign {
            lhs: 2,
            rhs: AmirRvalue::Binary { op: BinaryOp::Add, left: AmirOperand::Copy(1), right: AmirOperand::Copy(1) },
        },
        AmirStmt::Store { lhs: place(0), rhs: AmirOperand::Copy(2) },
    ];
    let mut f = single_block_func(stmts, vec![int_temp(0), int_temp(1), int_temp(2), int_temp(3)]);
    assert!(mark_sweep_dce(&mut f).unwrap());
    assert_eq!(f.blocks[0].statements, DenseRange::new(0, 3));
    assert!(matches!(f.stmts[0], AmirStmt::Assign { lhs: 1, .. }));
    assert!(matches!(f.stmts[1], AmirStmt::Assign { lhs: 2, .. }));
    assert!(matches!(f.stmts[2], AmirStmt::Store { .. }));
    // A second run finds nothing more to remove.
    assert!(!mark_sweep_dce(&mut f).unwrap());
}

#[test]
fn dce_lays_out_blocks_consecutively() {
    let stmts = vec![
        AmirStmt::Assign { lhs: 1, rhs: AmirRvalue::Use(bool_const(true)) },
        AmirStmt::Store { lhs: place(0), rhs: bool_const(true) },
        AmirStmt::Assign { lhs: 1, rhs: AmirRvalue::Use(bool_const(false)) },
        AmirStmt::Store { lhs: place(0), rhs: bool_const(false) },
    ];
    let blocks = vec![goto_block(0, DenseRange::new(0, 2), 1, Vec::new()), ret_block(1, DenseRange::new(2, 2))];
    let mut f = make_func(blocks, stmts, vec![int_temp(0), int_temp(1)], Vec::new(), Vec::new());
    assert!(mark_sweep_dce(&mut f).unwrap());
    assert_eq!(f.blocks[0].statements, DenseRange::new(0, 1));
    assert_eq!(f.blocks[1].statements, DenseRange::new(1, 1));
    assert_eq!(f.stmts.len(), 2);
}
