#![allow(dead_code, unused_imports)]

use arandu_mir::amir::{
    AmirBasicBlock, AmirConstant, AmirFunc, AmirLocal, AmirOperand, AmirPlace, AmirProjection, AmirRvalue, AmirStmt,
    AmirTemp, AmirTerminator, BinaryOp, BlockParam, DenseRange, Span, SymbolId, compute_cfg_edges,
};
use arandu_mir::literal_pool::{AmirLiteralEntry, AmirLiteralPool};
use arandu_mir::move_lattice::{LocalMoveState, join_move_state, place_is_prefix, places_overlap, tracked_move_place};
use arandu_mir::optimize::optimize_amir_func;
use arandu_mir::remap::{remap_op, remap_place, remap_stmt, remap_terminator};
use arandu_mir::splice::splice_call;

fn span0() -> Span {
    Span { file_id: 0, start: 0, end: 0 }
}

fn sym(file_id: u32, local_id: u32) -> SymbolId {
    SymbolId { file_id, local_id }
}

fn int_temp(id: usize) -> AmirTemp {
    AmirTemp { id, ty: 1, is_copy: true, is_nullable: false, span: span0() }
}

fn local(id: usize, is_memory: bool) -> AmirLocal {
    AmirLocal { id, ty: 1, is_memory, symbol: None, span: span0(), use_span: None }
}

fn ret_block(id: usize, statements: DenseRange) -> AmirBasicBlock {
    AmirBasicBlock { id, statements, params: DenseRange::empty(), terminator: AmirTerminator::Return }
}

/// Builds a function whose blocks hold the given statements and
/// terminators, laid out one after another.
fn build_func(
    blocks: Vec<(Vec<AmirStmt>, AmirTerminator)>,
    temps: Vec<AmirTemp>,
    params: Vec<usize>,
    locals: Vec<AmirLocal>,
) -> AmirFunc {
    let mut stmts = Vec::new();
    let mut amir_blocks = Vec::new();
    for (b, (list, terminator)) in blocks.into_iter().enumerate() {
        let start = stmts.len();
        let n = list.len();
        stmts.extend(list);
        amir_blocks.push(AmirBasicBlock {
            id: b,
            statements: DenseRange::new(start, n),
            params: DenseRange::empty(),
            terminator,
        });
    }
    let cfg = compute_cfg_edges(&amir_blocks);
    AmirFunc {
        symbol: sym(0, 0),
        return_type: 1,
        receiver: None,
        params,
        locals,
        temps,
        blocks: amir_blocks,
        block_params: Vec::new(),
        stmts,
        cfg,
    }
}

fn block_stmt(func: &AmirFunc, block: usize, k: usize) -> &AmirStmt {
    &func.stmts[func.blocks[block].statements.start + k]
}

fn goto(target: usize) -> AmirTerminator {
    AmirTerminator::Goto { target, args: Vec::new() }
}

/// `add_ten(x) = x + 10`: temp 0 is the return register, temp 1 the parameter.
fn add_ten(pool: &mut AmirLiteralPool) -> AmirFunc {
    let c10 = pool.intern_int(10);
    let mut f = build_func(
        vec![(
            vec![AmirStmt::Assign {
                lhs: 0,
                rhs: AmirRvalue::Binary {
                    op: BinaryOp::Add,
                    left: AmirOperand::Copy(1),
                    right: AmirOperand::Constant(AmirConstant::Pool(c10)),
                },
            }],
            AmirTerminator::Return,
        )],
        vec![int_temp(0), int_temp(1)],
        vec![1],
        Vec::new(),
    );
    f.symbol = sym(0, 10);
    f
}

/// `main() = add_ten(5)`: temp 1 holds the argument, temp 2 the result.
fn calls_add_ten(pool: &mut AmirLiteralPool) -> AmirFunc {
    let c5 = pool.intern_int(5);
    build_func(
        vec![(
            vec![
                AmirStmt::Assign { lhs: 1, rhs: AmirRvalue::Use(AmirOperand::Constant(AmirConstant::Pool(c5))) },
                AmirStmt::Call {
                    lhs: Some(2),
                    callee: AmirOperand::FunctionRef(sym(0, 10)),
                    args: vec![AmirOperand::Copy(1)],
                    return_borrow: None,
                },
                AmirStmt::Assign { lhs: 0, rhs: AmirRvalue::Use(AmirOperand::Copy(2)) },
            ],
            AmirTerminator::Return,
        )],
        vec![int_temp(0), int_temp(1), int_temp(2)],
        Vec::new(),
        Vec::new(),
    )
}

#[test]
fn splice_lays_out_head_callee_and_resume_blocks() {
    let mut pool = AmirLiteralPool::default();
    let callee = add_ten(&mut pool);
    let mut caller = calls_add_ten(&mut pool);
    assert!(splice_call(&mut caller, 0, 1, Some(2), &[AmirOperand::Copy(1)], &callee));

    // The callee's parameter temp gets the fresh id 3; its return register is temp 2.
    assert_eq!(caller.temps.len(), 4);
    assert_eq!(caller.temps[3], int_temp(3));
    assert_eq!(caller.blocks.len(), 3);
    for (b, block) in caller.blocks.iter().enumerate() {
        assert_eq!(block.id, b);
    }

    // Head: the statement before the call, then the argument hand-over.
    assert_eq!(caller.blocks[0].statements, DenseRange::new(0, 2));
    assert!(matches!(block_stmt(&caller, 0, 0), AmirStmt::Assign { lhs: 1, .. }));
    assert!(matches!(
        block_stmt(&caller, 0, 1),
        AmirStmt::Assign { lhs: 3, rhs: AmirRvalue::Use(AmirOperand::Copy(1)) }
    ));
    assert!(matches!(caller.blocks[0].terminator, AmirTerminator::Goto { target: 1, ref args } if args.is_empty()));

    // The callee body, renamed; its return jumps to the resume block.
    assert_eq!(caller.blocks[1].statements, DenseRange::new(2, 1));
    assert!(matches!(
        block_stmt(&caller, 1, 0),
        AmirStmt::Assign {
            lhs: 2,
            rhs: AmirRvalue::Binary { op: BinaryOp::Add, left: AmirOperand::Copy(3), .. }
        }
    ));
    assert!(matches!(caller.blocks[1].terminator, AmirTerminator::Goto { target: 2, ref args } if args.is_empty()));

    // Resume: the statement after the call and the old terminator.
    assert_eq!(caller.blocks[2].statements, DenseRange::new(3, 1));
    assert!(matches!(
        block_stmt(&caller, 2, 0),
        AmirStmt::Assign { lhs: 0, rhs: AmirRvalue::Use(AmirOperand::Copy(2)) }
    ));
    assert!(matches!(caller.blocks[2].terminator, AmirTerminator::Return));
    assert_eq!(caller.stmts.len(), 4);

    // The edge lists follow the new terminators.
    assert_eq!(caller.cfg.successors, vec![vec![1], vec![2], vec![]]);
    assert_eq!(caller.cfg.predecessors, vec![vec![], vec![0], vec![1]]);
}

#[test]
fn spliced_add_ten_folds_to_fifteen() {
    let mut pool = AmirLiteralPool::default();
    let callee = add_ten(&mut pool);
    let mut caller = calls_add_ten(&mut pool);
    assert!(splice_call(&mut caller, 0, 1, Some(2), &[AmirOperand::Copy(1)], &callee));
    for s in &caller.stmts {
        assert!(!matches!(s, AmirStmt::Call { .. }));
    }
    optimize_amir_func(&mut caller, &mut pool).unwrap();
    let mut found = false;
    for b in &caller.blocks {
        for k in 0..b.statements.len {
            if let AmirStmt::Assign { lhs: 0, rhs: AmirRvalue::Use(AmirOperand::Constant(AmirConstant::Pool(id))) } =
                &caller.stmts[b.statements.start + k]
            {
                if *pool.get(*id) == AmirLiteralEntry::Int(15) {
                    found = true;
                }
            }
        }
    }
    assert!(found);
}

#[test]
fn splice_without_result_adds_a_result_temp() {
    let mut pool = AmirLiteralPool::default();
    let mut callee = add_ten(&mut pool);
    callee.return_type = 7;
    let mut caller = calls_add_ten(&mut pool);
    caller.temps[0].span = Span { file_id: 3, start: 4, end: 5 };
    assert!(splice_call(&mut caller, 0, 1, None, &[AmirOperand::Copy(1)], &callee));
    assert_eq!(caller.temps.len(), 5);
    assert_eq!(
        caller.temps[3],
        AmirTemp { id: 3, ty: 7, is_copy: true, is_nullable: false, span: Span { file_id: 3, start: 4, end: 5 } }
    );
    assert_eq!(caller.temps[4], int_temp(4));
    // The callee's return register is the new result temp.
    assert!(matches!(block_stmt(&caller, 1, 0), AmirStmt::Assign { lhs: 3, .. }));
    assert!(matches!(
        block_stmt(&caller, 0, 1),
        AmirStmt::Assign { lhs: 4, rhs: AmirRvalue::Use(AmirOperand::Copy(1)) }
    ));
}

#[test]
fn splice_refuses_arity_mismatch() {
    let mut pool = AmirLiteralPool::default();
    let callee = add_ten(&mut pool);
    let mut caller = calls_add_ten(&mut pool);
    assert!(!splice_call(&mut caller, 0, 1, Some(2), &[], &callee));
    assert_eq!(caller.temps.len(), 3);
    assert_eq!(caller.blocks.len(), 1);
    assert_eq!(caller.stmts.len(), 3);
}

#[test]
fn splice_refuses_missing_block_or_statement() {
    let mut pool = AmirLiteralPool::default();
    let callee = add_ten(&mut pool);
    let mut caller = calls_add_ten(&mut pool);
    assert!(!splice_call(&mut caller, 1, 1, Some(2), &[AmirOperand::Copy(1)], &callee));
    assert!(!splice_call(&mut caller, 0, 3, Some(2), &[AmirOperand::Copy(1)], &callee));
    assert_eq!(caller.temps.len(), 3);
    assert_eq!(caller.blocks.len(), 1);
    assert_eq!(caller.stmts.len(), 3);
}

#[test]
fn splice_refuses_suspending_callee_after_adding_its_temps() {
    let mut pool = AmirLiteralPool::default();
    let callee = build_func(
        vec![
            (
                Vec::new(),
                AmirTerminator::Suspend { future: AmirOperand::Copy(1), resume: 1, args: Vec::new() },
            ),
            (Vec::new(), AmirTerminator::Return),
        ],
        vec![int_temp(0), int_temp(1), int_temp(2)],
        vec![1],
        vec![local(0, false)],
    );
    let mut caller = calls_add_ten(&mut pool);
    assert!(!splice_call(&mut caller, 0, 1, Some(2), &[AmirOperand::Copy(1)], &callee));
    // Temps 1 and 2 of the callee and its local were added before the refusal.
    assert_eq!(caller.temps.len(), 5);
    assert_eq!(caller.temps[3], int_temp(3));
    assert_eq!(caller.temps[4], int_temp(4));
    assert_eq!(caller.locals.len(), 1);
    assert_eq!(caller.blocks.len(), 1);
    assert_eq!(caller.stmts.len(), 3);
}

#[test]
fn splice_renames_locals_params_and_every_return() {
    // Callee: block 0 branches on its parameter; block 1 jumps to block 2
    // passing a value for block 2's parameter; both 1 and 2 return.
    let mut callee = build_func(
        vec![
            (
                vec![AmirStmt::StorageLive(0)],
                AmirTerminator::Branch {
                    condition: AmirOperand::Copy(1),
                    if_true: 1,
                    true_args: Vec::new(),
                    if_false: 2,
                    false_args: vec![AmirOperand::Copy(1)],
                },
            ),
            (vec![AmirStmt::StorageDead(0)], AmirTerminator::Return),
            (Vec::new(), AmirTerminator::Return),
        ],
        vec![int_temp(0), int_temp(1), int_temp(2)],
        vec![1],
        vec![local(0, true)],
    );
    callee.block_params = vec![BlockParam { id: 2, local: 0, ty: 1, moved: false }];
    callee.blocks[2].params = DenseRange::new(0, 1);
    let mut pool = AmirLiteralPool::default();
    let mut caller = calls_add_ten(&mut pool);
    caller.locals = vec![local(0, false), local(1, false)];
    assert!(splice_call(&mut caller, 0, 1, Some(2), &[AmirOperand::Copy(1)], &callee));

    // Callee temps 1 and 2 become 3 and 4; its local 0 becomes local 2.
    assert_eq!(caller.temps.len(), 5);
    assert_eq!(caller.locals.len(), 3);
    assert_eq!(
        caller.locals[2],
        AmirLocal { id: 2, ty: 1, is_memory: true, symbol: None, span: span0(), use_span: None }
    );
    assert_eq!(caller.blocks.len(), 5);
    assert!(matches!(block_stmt(&caller, 1, 0), AmirStmt::StorageLive(2)));
    assert!(matches!(block_stmt(&caller, 2, 0), AmirStmt::StorageDead(2)));
    match &caller.blocks[1].terminator {
        AmirTerminator::Branch { condition, if_true, if_false, false_args, .. } => {
            assert_eq!(*condition, AmirOperand::Copy(3));
            assert_eq!(*if_true, 2);
            assert_eq!(*if_false, 3);
            assert_eq!(*false_args, vec![AmirOperand::Copy(3)]);
        },
        _ => panic!("the entry block of the callee should still branch"),
    }
    assert!(matches!(caller.blocks[2].terminator, AmirTerminator::Goto { target: 4, .. }));
    assert!(matches!(caller.blocks[3].terminator, AmirTerminator::Goto { target: 4, .. }));
    let p = caller.blocks[3].params;
    assert_eq!(p.len, 1);
    assert_eq!(caller.block_params[p.start], BlockParam { id: 4, local: 2, ty: 1, moved: false });
    assert_eq!(caller.blocks[4].params.len, 0);
    assert!(matches!(caller.blocks[4].terminator, AmirTerminator::Return));
}

#[test]
fn remap_renames_temps_locals_and_returns() {
    let temp_map = vec![7, 8, 9];
    let local_map = vec![4, 5];
    assert_eq!(remap_op(&AmirOperand::Move(2), &temp_map), AmirOperand::Move(9));
    assert_eq!(remap_op(&AmirOperand::FunctionRef(sym(1, 2)), &temp_map), AmirOperand::FunctionRef(sym(1, 2)));
    let place = AmirPlace {
        local: 1,
        projections: vec![AmirProjection::Field(sym(0, 3)), AmirProjection::Index(AmirOperand::Copy(0))],
    };
    let q = remap_place(&place, &temp_map, &local_map);
    assert_eq!(q.local, 5);
    assert_eq!(q.projections, vec![AmirProjection::Field(sym(0, 3)), AmirProjection::Index(AmirOperand::Copy(7))]);
    let s = remap_stmt(&AmirStmt::Store { lhs: place, rhs: AmirOperand::Copy(1) }, &temp_map, &local_map);
    match s {
        AmirStmt::Store { lhs, rhs } => {
            assert_eq!(lhs.local, 5);
            assert_eq!(rhs, AmirOperand::Copy(8));
        },
        _ => panic!("a store stays a store"),
    }
    let block_map = vec![10, 11];
    let t = remap_terminator(&AmirTerminator::Return, &temp_map, &block_map, Some(12));
    assert!(matches!(t, AmirTerminator::Goto { target: 12, ref args } if args.is_empty()));
    let t = remap_terminator(&AmirTerminator::Return, &temp_map, &block_map, None);
    assert!(matches!(t, AmirTerminator::Return));
    let t = remap_terminator(
        &AmirTerminator::Goto { target: 1, args: vec![AmirOperand::Copy(2)] },
        &temp_map,
        &block_map,
        None,
    );
    assert!(matches!(t, AmirTerminator::Goto { target: 11, ref args } if *args == vec![AmirOperand::Copy(9)]));
}

#[test]
fn move_states_join_to_maybe_moved_on_disagreement() {
    let available = LocalMoveState::Available;
    let moved = LocalMoveState::Moved;
    let maybe = LocalMoveState::MaybeMoved;
    assert_eq!(join_move_state(available, available), available);
    assert_eq!(join_move_state(moved, moved), moved);
    assert_eq!(join_move_state(available, moved), maybe);
    assert_eq!(join_move_state(moved, available), maybe);
    assert_eq!(join_move_state(maybe, available), maybe);
    // The join does not depend on the order of three predecessors.
    let states = [available, moved, maybe];
    for a in states {
        for b in states {
            for c in states {
                assert_eq!(
                    join_move_state(join_move_state(a, b), c),
                    join_move_state(a, join_move_state(b, c))
                );
            }
        }
    }
}

#[test]
fn field_paths_overlap_by_prefix() {
    let root = AmirPlace { local: 3, projections: Vec::new() };
    let field = AmirPlace { local: 3, projections: vec![AmirProjection::Field(sym(0, 1))] };
    let other = AmirPlace { local: 3, projections: vec![AmirProjection::Field(sym(0, 2))] };
    let nested = AmirPlace {
        local: 3,
        projections: vec![AmirProjection::Field(sym(0, 1)), AmirProjection::Field(sym(0, 5))],
    };
    assert!(place_is_prefix(&root, &nested));
    assert!(place_is_prefix(&field, &nested));
    assert!(!place_is_prefix(&nested, &field));
    assert!(places_overlap(&nested, &field));
    assert!(!places_overlap(&field, &other));
    assert!(!places_overlap(&root, &AmirPlace { local: 4, projections: Vec::new() }));

    assert_eq!(tracked_move_place(&nested).projections, nested.projections);
    let indexed = AmirPlace {
        local: 3,
        projections: vec![AmirProjection::Field(sym(0, 1)), AmirProjection::Index(AmirOperand::Copy(0))],
    };
    let recorded = tracked_move_place(&indexed);
    assert_eq!(recorded.local, 3);
    assert!(recorded.projections.is_empty());
    assert!(tracked_move_place(&root).projections.is_empty());
}
