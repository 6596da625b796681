#![allow(dead_code, unused_imports)]

use arandu_mir::amir::{
    AmirBasicBlock, AmirConstant, AmirFunc, AmirLocal, AmirOperand, AmirPlace, AmirRvalue, AmirStmt, AmirTemp,
    AmirTerminator, BinaryOp, BlockParam, DenseRange, Span, SymbolId, UnaryOp, compute_cfg_edges,
};
use arandu_mir::literal_pool::{AmirLiteralEntry, AmirLiteralPool};
use arandu_mir::sccp::{fold_binary, fold_unary, meet, reverse_post_order, sccp, LatticeVal};

fn span0() -> Span {
    Span { file_id: 0, start: 0, end: 0 }
}

fn sym(file_id: u32, local_id: u32) -> SymbolId {
    SymbolId { file_id, local_id }
}

fn int_temp(id: usize) -> AmirTemp {
    AmirTemp { id, ty: 1, is_copy: true, is_nullable: false, span: span0() }
}

fn bool_temp(id: usize) -> AmirTemp {
    AmirTemp { id, ty: 2, is_copy: true, is_nullable: false, span: span0() }
}

fn local(id: usize, is_memory: bool) -> AmirLocal {
    AmirLocal { id, ty: 1, is_memory, symbol: None, span: span0(), use_span: None }
}

fn place(l: usize) -> AmirPlace {
    AmirPlace { local: l, projections: Vec::new() }
}

fn bool_const(b: bool) -> AmirOperand {
    AmirOperand::Constant(AmirConstant::Bool(b))
}

fn ret_block(id: usize, statements: DenseRange) -> AmirBasicBlock {
    AmirBasicBlock { id, statements, params: DenseRange::empty(), terminator: AmirTerminator::Return }
}

fn goto_block(id: usize, statements: DenseRange, target: usize, args: Vec<AmirOperand>) -> AmirBasicBlock {
    AmirBasicBlock { id, statements, params: DenseRange::empty(), terminator: AmirTerminator::Goto { target, args } }
}

fn branch_block(id: usize, statements: DenseRange, condition: AmirOperand, if_true: usize, if_false: usize) -> AmirBasicBlock {
    AmirBasicBlock {
        id,
        statements,
        params: DenseRange::empty(),
        terminator: AmirTerminator::Branch {
            condition,
            if_true,
            true_args: Vec::new(),
            if_false,
            false_args: Vec::new(),
        },
    }
}

fn make_func(
    blocks: Vec<AmirBasicBlock>,
    stmts: Vec<AmirStmt>,
    temps: Vec<AmirTemp>,
    locals: Vec<AmirLocal>,
    block_params: Vec<BlockParam>,
) -> AmirFunc {
    let cfg = compute_cfg_edges(&blocks);
    AmirFunc {
        symbol: sym(0, 0),
        return_type: 0,
        receiver: None,
        params: Vec::new(),
        locals,
        temps,
        blocks,
        block_params,
        stmts,
        cfg,
    }
}

/// One block holding `statements`, returning.
fn single_block_func(statements: Vec<AmirStmt>, temps: Vec<AmirTemp>) -> AmirFunc {
    let n = statements.len();
    make_func(vec![ret_block(0, DenseRange::new(0, n))], statements, temps, Vec::new(), Vec::new())
}

fn block_stmt(func: &AmirFunc, block: usize, k: usize) -> &AmirStmt {
    &func.stmts[func.blocks[block].statements.start + k]
}

fn pool_int(pool: &AmirLiteralPool, c: &AmirConstant) -> Option<i128> {
    pool.const_as_i128(c)
}

#[test]
fn negative_right_shift_is_not_folded_without_signedness() {
    let mut pool = AmirLiteralPool::default();
    let minus_one = AmirConstant::Pool(pool.intern_int(-1));
    let one = AmirConstant::Pool(pool.intern_int(1));

    assert_eq!(fold_binary(BinaryOp::ShiftRight, minus_one, one, &mut pool), None);
}

#[test]
fn call_result_contribution_keeps_join_overdefined() {
    let mut pool = AmirLiteralPool::default();
    let stmts = vec![AmirStmt::Call {
        lhs: Some(1),
        callee: AmirOperand::FunctionRef(sym(0, 1)),
        args: Vec::new(),
        return_borrow: None,
    }];
    let blocks = vec![
        branch_block(0, DenseRange::empty(), AmirOperand::Copy(0), 1, 2),
        goto_block(1, DenseRange::new(0, 1), 3, vec![AmirOperand::Copy(1)]),
        goto_block(2, DenseRange::empty(), 3, vec![bool_const(false)]),
        AmirBasicBlock {
            id: 3,
            statements: DenseRange::empty(),
            params: DenseRange::new(0, 1),
            terminator: AmirTerminator::Branch {
                condition: AmirOperand::Copy(2),
                if_true: 4,
                true_args: Vec::new(),
                if_false: 5,
                false_args: Vec::new(),
            },
        },
        ret_block(4, DenseRange::empty()),
        ret_block(5, DenseRange::empty()),
    ];
    let mut func = make_func(
        blocks,
        stmts,
        vec![bool_temp(0), bool_temp(1), bool_temp(2)],
        vec![local(0, false)],
        vec![BlockParam { id: 2, local: 0, ty: 2, moved: false }],
    );
    let _ = sccp(&mut func, &mut pool);
    assert!(matches!(func.blocks[3].terminator, AmirTerminator::Branch { .. }));
}

#[test]
fn block_param_meet_same_constant_from_two_preds() {
    let mut pool = AmirLiteralPool::default();
    let five = AmirConstant::Pool(pool.intern_int(5));
    let stmts = vec![AmirStmt::Assign { lhs: 2, rhs: AmirRvalue::Use(AmirOperand::Copy(1)) }];
    let blocks = vec![
        AmirBasicBlock {
            id: 0,
            statements: DenseRange::empty(),
            params: DenseRange::empty(),
            terminator: AmirTerminator::Branch {
                condition: bool_const(true),
                if_true: 1,
                true_args: Vec::new(),
                if_false: 2,
                false_args: vec![AmirOperand::Constant(five)],
            },
        },
        goto_block(1, DenseRange::empty(), 2, vec![AmirOperand::Constant(five)]),
        AmirBasicBlock { id: 2, statements: DenseRange::new(0, 1), params: DenseRange::new(0, 1), terminator: AmirTerminator::Return },
    ];
    let mut func = make_func(
        blocks,
        stmts,
        vec![int_temp(0), int_temp(1), int_temp(2)],
        vec![local(0, false)],
        vec![BlockParam { id: 1, local: 0, ty: 1, moved: false }],
    );
    assert!(sccp(&mut func, &mut pool));
    match block_stmt(&func, 2, 0) {
        AmirStmt::Assign { rhs: AmirRvalue::Use(AmirOperand::Constant(c)), .. } => {
            assert_eq!(pool_int(&pool, c), Some(5));
        },
        other => panic!("expected folded assign, got {other:?}"),
    }
}

#[test]
fn block_param_meet_different_constants_is_overdefined() {
    let mut pool = AmirLiteralPool::default();
    let one = AmirConstant::Pool(pool.intern_int(1));
    let two = AmirConstant::Pool(pool.intern_int(2));
    let stmts = vec![
        AmirStmt::Assign { lhs: 2, rhs: AmirRvalue::Use(AmirOperand::Copy(1)) },
        AmirStmt::Store { lhs: place(0), rhs: AmirOperand::Copy(2) },
    ];
    let blocks = vec![
        branch_block(0, DenseRange::empty(), AmirOperand::Copy(0), 1, 2),
        goto_block(1, DenseRange::empty(), 3, vec![AmirOperand::Constant(one)]),
        goto_block(2, DenseRange::empty(), 3, vec![AmirOperand::Constant(two)]),
        AmirBasicBlock { id: 3, statements: DenseRange::new(0, 2), params: DenseRange::new(0, 1), terminator: AmirTerminator::Return },
    ];
    let mut func = make_func(
        blocks,
        stmts,
        vec![int_temp(0), int_temp(1), int_temp(2)],
        vec![local(0, false)],
        vec![BlockParam { id: 1, local: 0, ty: 1, moved: false }],
    );
    let _ = sccp(&mut func, &mut pool);
    match block_stmt(&func, 3, 0) {
        AmirStmt::Assign { rhs: AmirRvalue::Use(AmirOperand::Constant(_)), .. } => {
            panic!("phi with disagreeing preds must not fold to a constant")
        },
        AmirStmt::Assign { rhs: AmirRvalue::Use(AmirOperand::Copy(t)), .. } => assert_eq!(*t, 1),
        other => panic!("unexpected {other:?}"),
    }
}

#[test]
fn fold_binary_arithmetic_values() {
    let mut pool = AmirLiteralPool::default();
    let seven = AmirConstant::Pool(pool.intern_int(7));
    let six = AmirConstant::Pool(pool.intern_int(6));
    let zero = AmirConstant::Pool(pool.intern_int(0));
    let r = fold_binary(BinaryOp::Mul, seven, six, &mut pool).unwrap();
    assert_eq!(pool.const_as_i128(&r), Some(42));
    let r = fold_binary(BinaryOp::Sub, six, seven, &mut pool).unwrap();
    assert_eq!(pool.const_as_i128(&r), Some(-1));
    assert_eq!(fold_binary(BinaryOp::Div, seven, zero, &mut pool), None);
    assert_eq!(fold_binary(BinaryOp::Lt, six, seven, &mut pool), Some(AmirConstant::Bool(true)));
    let r = fold_binary(BinaryOp::ShiftRight, seven, AmirConstant::Pool(pool.intern_int(1)), &mut pool).unwrap();
    assert_eq!(pool.const_as_i128(&r), Some(3));
}

#[test]
fn fold_binary_overflow_is_not_folded() {
    let mut pool = AmirLiteralPool::default();
    let max = AmirConstant::Pool(pool.intern_int(i128::MAX));
    let one = AmirConstant::Pool(pool.intern_int(1));
    assert_eq!(fold_binary(BinaryOp::Add, max, one, &mut pool), None);
}

#[test]
fn fold_unary_not_and_neg() {
    let mut pool = AmirLiteralPool::default();
    assert_eq!(fold_unary(UnaryOp::Not, AmirConstant::Bool(false), &mut pool), Some(AmirConstant::Bool(true)));
    let five = AmirConstant::Pool(pool.intern_int(5));
    let r = fold_unary(UnaryOp::Neg, five, &mut pool).unwrap();
    assert_eq!(pool.const_as_i128(&r), Some(-5));
    assert_eq!(pool.get(match r {
        AmirConstant::Pool(id) => id,
        _ => panic!("expected a pool constant"),
    }), &AmirLiteralEntry::Int(-5));
}

#[test]
fn meet_is_the_lattice_meet() {
    let a = LatticeVal::Constant(AmirConstant::Bool(true));
    let b = LatticeVal::Constant(AmirConstant::Bool(false));
    assert_eq!(meet(LatticeVal::Undefined, a), a);
    assert_eq!(meet(a, a), a);
    assert_eq!(meet(a, b), LatticeVal::Overdefined);
    assert_eq!(meet(a, LatticeVal::Overdefined), LatticeVal::Overdefined);
    assert_eq!(meet(meet(a, b), LatticeVal::Undefined), meet(a, meet(b, LatticeVal::Undefined)));
}

#[test]
fn reverse_post_order_lists_reachable_blocks_entry_first() {
    // 0 -> {1, 2}, 1 -> 3, 2 -> 3, 3 returns, 4 is unreachable.
    let blocks = vec![
        branch_block(0, DenseRange::empty(), bool_const(true), 1, 2),
        goto_block(1, DenseRange::empty(), 3, Vec::new()),
        goto_block(2, DenseRange::empty(), 3, Vec::new()),
        ret_block(3, DenseRange::empty()),
        goto_block(4, DenseRange::empty(), 3, Vec::new()),
    ];
    let func = make_func(blocks, Vec::new(), Vec::new(), Vec::new(), Vec::new());
    let rpo = reverse_post_order(&func);
    assert_eq!(rpo, vec![0, 2, 1, 3]);
}
