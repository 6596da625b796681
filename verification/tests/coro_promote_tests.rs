#![allow(dead_code, unused_imports)]

use arandu_mir::amir::{
    AmirBasicBlock, AmirConstant, AmirFunc, AmirLocal, AmirOperand, AmirPlace, AmirProjection, AmirRvalue, AmirStmt,
    AmirTemp, AmirTerminator, BlockParam, DenseRange, Span, SymbolId, UnaryOp, compute_cfg_edges,
};
use arandu_mir::coro_promote::promote_escaped_coroutines;

fn span0() -> Span {
    Span { file_id: 0, start: 0, end: 0 }
}

fn sym(file_id: u32, local_id: u32) -> SymbolId {
    SymbolId { file_id, local_id }
}

fn temp(id: usize) -> AmirTemp {
    AmirTemp { id, ty: 1, is_copy: false, is_nullable: false, span: span0() }
}

fn local(id: usize) -> AmirLocal {
    AmirLocal { id, ty: 1, is_memory: true, symbol: None, span: span0(), use_span: None }
}

/// Blocks laid out one after another over one statement table.
fn build_func(blocks: Vec<(Vec<AmirStmt>, AmirTerminator)>, nt: usize, nl: usize) -> AmirFunc {
    let mut stmts = Vec::new();
    let mut amir_blocks = Vec::new();
    for (b, (list, terminator)) in blocks.into_iter().enumerate() {
        let start = stmts.len();
        let n = list.len();
        stmts.extend(list);
        amir_blocks.push(AmirBasicBlock {
            id: b,
            statements: DenseRange::new(start, n),
            params: DenseRange::empty(),
            terminator,
        });
    }
    let cfg = compute_cfg_edges(&amir_blocks);
    AmirFunc {
        symbol: sym(0, 0),
        return_type: 1,
        receiver: None,
        params: Vec::new(),
        locals: (0..nl).map(local).collect(),
        temps: (0..nt).map(temp).collect(),
        blocks: amir_blocks,
        block_params: Vec::new(),
        stmts,
        cfg,
    }
}

/// `_1 = ready(_2)` built on the stack.
fn ready(lhs: usize, value: usize) -> AmirStmt {
    AmirStmt::Assign {
        lhs,
        rhs: AmirRvalue::CoroutineReady { value: AmirOperand::Copy(value), payload_ty: 9, stack: true },
    }
}

fn assign(lhs: usize, rhs: AmirRvalue) -> AmirStmt {
    AmirStmt::Assign { lhs, rhs }
}

fn on_stack(func: &AmirFunc, i: usize) -> bool {
    match &func.stmts[i] {
        AmirStmt::Assign { rhs: AmirRvalue::CoroutineReady { stack, .. }, .. } => *stack,
        _ => panic!("statement {} should build a coroutine", i),
    }
}

#[test]
fn returned_coroutine_moves_to_the_heap() {
    let mut f = build_func(
        vec![(
            vec![ready(1, 2), assign(0, AmirRvalue::Use(AmirOperand::Move(1)))],
            AmirTerminator::Return,
        )],
        3,
        0,
    );
    promote_escaped_coroutines(&mut f);
    assert!(!on_stack(&f, 0));
    assert!(matches!(
        f.stmts[0],
        AmirStmt::Assign {
            lhs: 1,
            rhs: AmirRvalue::CoroutineReady { value: AmirOperand::Copy(2), payload_ty: 9, stack: false }
        }
    ));
}

#[test]
fn awaited_coroutine_stays_on_the_stack() {
    let mut f = build_func(
        vec![(
            vec![
                ready(1, 2),
                assign(3, AmirRvalue::Unary { op: UnaryOp::Await, operand: AmirOperand::Move(1) }),
                assign(0, AmirRvalue::Use(AmirOperand::Copy(3))),
            ],
            AmirTerminator::Return,
        )],
        4,
        0,
    );
    promote_escaped_coroutines(&mut f);
    assert!(on_stack(&f, 0));
}

#[test]
fn coroutine_passed_through_a_local_to_a_call_moves_to_the_heap() {
    let mut f = build_func(
        vec![(
            vec![
                ready(1, 2),
                AmirStmt::Store { lhs: AmirPlace { local: 0, projections: Vec::new() }, rhs: AmirOperand::Move(1) },
                assign(3, AmirRvalue::Load(AmirPlace { local: 0, projections: Vec::new() })),
                AmirStmt::Call {
                    lhs: None,
                    callee: AmirOperand::FunctionRef(sym(0, 7)),
                    args: vec![AmirOperand::Copy(3)],
                    return_borrow: None,
                },
            ],
            AmirTerminator::Unreachable,
        )],
        4,
        1,
    );
    promote_escaped_coroutines(&mut f);
    assert!(!on_stack(&f, 0));
}

#[test]
fn coroutine_stored_into_a_field_moves_to_the_heap() {
    let mut f = build_func(
        vec![(
            vec![
                ready(1, 2),
                AmirStmt::Store {
                    lhs: AmirPlace { local: 0, projections: vec![AmirProjection::Field(sym(0, 3))] },
                    rhs: AmirOperand::Move(1),
                },
            ],
            AmirTerminator::Unreachable,
        )],
        3,
        1,
    );
    promote_escaped_coroutines(&mut f);
    assert!(!on_stack(&f, 0));
}

#[test]
fn coroutine_stored_into_a_whole_local_stays_on_the_stack() {
    let mut f = build_func(
        vec![(
            vec![
                ready(1, 2),
                AmirStmt::Store { lhs: AmirPlace { local: 0, projections: Vec::new() }, rhs: AmirOperand::Move(1) },
            ],
            AmirTerminator::Unreachable,
        )],
        3,
        1,
    );
    promote_escaped_coroutines(&mut f);
    assert!(on_stack(&f, 0));
}

#[test]
fn coroutine_passed_as_block_argument_to_a_call_moves_to_the_heap() {
    let mut f = build_func(
        vec![
            (vec![ready(1, 2)], AmirTerminator::Goto { target: 1, args: vec![AmirOperand::Move(1)] }),
            (
                vec![AmirStmt::Call {
                    lhs: None,
                    callee: AmirOperand::FunctionRef(sym(0, 7)),
                    args: vec![AmirOperand::Copy(3)],
                    return_borrow: None,
                }],
                AmirTerminator::Unreachable,
            ),
        ],
        4,
        1,
    );
    f.block_params = vec![BlockParam { id: 3, local: 0, ty: 1, moved: false }];
    f.blocks[1].params = DenseRange::new(0, 1);
    promote_escaped_coroutines(&mut f);
    assert!(!on_stack(&f, 0));
}

#[test]
fn only_escaping_coroutines_are_promoted() {
    let mut f = build_func(
        vec![(
            vec![
                ready(1, 5),
                ready(2, 5),
                assign(3, AmirRvalue::Tuple { items: vec![AmirOperand::Copy(5), AmirOperand::Move(2)] }),
                assign(0, AmirRvalue::Use(AmirOperand::Move(3))),
                assign(4, AmirRvalue::Unary { op: UnaryOp::Await, operand: AmirOperand::Move(1) }),
            ],
            AmirTerminator::Return,
        )],
        6,
        0,
    );
    promote_escaped_coroutines(&mut f);
    assert!(on_stack(&f, 0));
    assert!(!on_stack(&f, 1));
    assert_eq!(f.stmts.len(), 5);
    assert_eq!(f.blocks.len(), 1);
}
