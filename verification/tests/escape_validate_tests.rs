#![allow(dead_code, unused_imports)]

use arandu_mir::amir::{
    AmirBasicBlock, AmirConstant, AmirFunc, AmirLocal, AmirOperand, AmirPlace, AmirProjection, AmirRvalue, AmirStmt,
    AmirTemp, AmirTerminator, BlockParam, BorrowPath, BorrowSource, DenseRange, ReturnBorrowDependency,
    ReturnBorrowSummary, Span, SymbolId, compute_cfg_edges,
};
use arandu_mir::escape::{
    EscapeEvent, EscapeKind, has_projected_borrow, is_return_temp, local_span, operand_stack_place,
    return_escape_is_declared, temp_span,
};
use arandu_mir::diagnostics::{DiagCode, Severity};
use arandu_mir::escape::o004_diag;
use arandu_mir::validate::func_ready;

fn span0() -> Span {
    Span { file_id: 0, start: 0, end: 0 }
}

fn sym(file_id: u32, local_id: u32) -> SymbolId {
    SymbolId { file_id, local_id }
}

fn int_temp(id: usize) -> AmirTemp {
    AmirTemp { id, ty: 1, is_copy: true, is_nullable: false, span: span0() }
}

fn bool_temp(id: usize) -> AmirTemp {
    AmirTemp { id, ty: 2, is_copy: true, is_nullable: false, span: span0() }
}

fn local(id: usize, is_memory: bool) -> AmirLocal {
    AmirLocal { id, ty: 1, is_memory, symbol: None, span: span0(), use_span: None }
}

fn place(l: usize) -> AmirPlace {
    AmirPlace { local: l, projections: Vec::new() }
}

fn bool_const(b: bool) -> AmirOperand {
    AmirOperand::Constant(AmirConstant::Bool(b))
}

fn ret_block(id: usize, statements: DenseRange) -> AmirBasicBlock {
    AmirBasicBlock { id, statements, params: DenseRange::empty(), terminator: AmirTerminator::Return }
}

fn goto_block(id: usize, statements: DenseRange, target: usize, args: Vec<AmirOperand>) -> AmirBasicBlock {
    AmirBasicBlock { id, statements, params: DenseRange::empty(), terminator: AmirTerminator::Goto { target, args } }
}

fn branch_block(id: usize, statements: DenseRange, condition: AmirOperand, if_true: usize, if_false: usize) -> AmirBasicBlock {
    AmirBasicBlock {
        id,
        statements,
        params: DenseRange::empty(),
        terminator: AmirTerminator::Branch {
            condition,
            if_true,
            true_args: Vec::new(),
            if_false,
            false_args: Vec::new(),
        },
    }
}

fn make_func(
    blocks: Vec<AmirBasicBlock>,
    stmts: Vec<AmirStmt>,
    temps: Vec<AmirTemp>,
    locals: Vec<AmirLocal>,
    block_params: Vec<BlockParam>,
) -> AmirFunc {
    let cfg = compute_cfg_edges(&blocks);
    AmirFunc {
        symbol: sym(0, 0),
        return_type: 0,
        receiver: None,
        params: Vec::new(),
        locals,
        temps,
        blocks,
        block_params,
        stmts,
        cfg,
    }
}

/// One block holding `statements`, returning.
fn single_block_func(statements: Vec<AmirStmt>, temps: Vec<AmirTemp>) -> AmirFunc {
    let n = statements.len();
    make_func(vec![ret_block(0, DenseRange::new(0, n))], statements, temps, Vec::new(), Vec::new())
}

fn block_stmt(func: &AmirFunc, block: usize, k: usize) -> &AmirStmt {
    &func.stmts[func.blocks[block].statements.start + k]
}

fn event(kind: EscapeKind, place_local: usize) -> EscapeEvent {
    EscapeEvent { kind, place_local, span: span0(), block: 0, reason: "test" }
}

fn summary_naming(index: u32) -> ReturnBorrowSummary {
    ReturnBorrowSummary {
        dependencies: vec![ReturnBorrowDependency {
            result_path: BorrowPath(Vec::new()),
            sources: vec![BorrowSource { parameter_index: index, parameter_path: BorrowPath(Vec::new()) }],
        }],
    }
}

#[test]
fn declared_return_escapes_name_the_local() {
    let s = summary_naming(2);
    assert!(return_escape_is_declared(&event(EscapeKind::Return, 2), Some(&s)));
    assert!(!return_escape_is_declared(&event(EscapeKind::Return, 1), Some(&s)));
    assert!(!return_escape_is_declared(&event(EscapeKind::HeapStore, 2), Some(&s)));
    assert!(!return_escape_is_declared(&event(EscapeKind::Return, 2), None));
}

#[test]
fn return_temp_is_zero_or_first_parameter() {
    let mut f = single_block_func(Vec::new(), vec![int_temp(0), int_temp(1)]);
    assert!(is_return_temp(0, &f));
    assert!(!is_return_temp(1, &f));
    f.params = vec![1];
    assert!(is_return_temp(1, &f));
}

#[test]
fn stack_places_follow_temps() {
    let map = vec![None, Some(4)];
    assert_eq!(operand_stack_place(&AmirOperand::Move(1), &map), Some(4));
    assert_eq!(operand_stack_place(&AmirOperand::Copy(0), &map), None);
    assert_eq!(operand_stack_place(&AmirOperand::Copy(7), &map), None);
    assert_eq!(operand_stack_place(&bool_const(true), &map), None);
}

#[test]
fn projected_borrows_are_found_in_block_ranges_only() {
    let field = AmirPlace { local: 0, projections: vec![AmirProjection::Deref] };
    let stmts = vec![
        AmirStmt::Assign { lhs: 0, rhs: AmirRvalue::Borrow(place(0)) },
        AmirStmt::Assign { lhs: 0, rhs: AmirRvalue::BorrowMut(field) },
    ];
    let mut f = make_func(vec![ret_block(0, DenseRange::new(0, 1))], stmts, vec![int_temp(0)], vec![local(0, false)], Vec::new());
    assert!(!has_projected_borrow(&f, 0));
    f.blocks[0].statements = DenseRange::new(0, 2);
    assert!(has_projected_borrow(&f, 0));
    assert!(!has_projected_borrow(&f, 1));
}

#[test]
fn spans_fall_back_when_out_of_range() {
    let mut f = single_block_func(Vec::new(), vec![int_temp(0)]);
    f.locals = vec![AmirLocal { id: 0, ty: 1, is_memory: false, symbol: None, span: Span { file_id: 3, start: 4, end: 9 }, use_span: None }];
    assert_eq!(local_span(0, &f), Span { file_id: 3, start: 4, end: 9 });
    assert_eq!(local_span(5, &f), span0());
    assert_eq!(temp_span(0, &f), Some(span0()));
    assert_eq!(temp_span(3, &f), None);
}

#[test]
fn validation_accepts_well_formed_functions() {
    let stmts = vec![AmirStmt::Store { lhs: place(0), rhs: AmirOperand::Copy(0) }];
    let f = make_func(vec![ret_block(0, DenseRange::new(0, 1))], stmts, vec![int_temp(0)], vec![local(0, false)], Vec::new());
    assert!(func_ready(&f));
}

#[test]
fn validation_rejects_each_kind_of_dangling_id() {
    let stmts = vec![AmirStmt::Store { lhs: place(0), rhs: AmirOperand::Copy(0) }];
    let good = make_func(vec![ret_block(0, DenseRange::new(0, 1))], stmts, vec![int_temp(0)], vec![local(0, false)], Vec::new());

    let mut bad_range = good.clone();
    bad_range.blocks[0].statements = DenseRange::new(0, 2);
    assert!(!func_ready(&bad_range));

    let mut bad_temp = good.clone();
    bad_temp.temps = Vec::new();
    assert!(!func_ready(&bad_temp));

    let mut bad_local = good.clone();
    bad_local.locals = Vec::new();
    assert!(!func_ready(&bad_local));

    let mut bad_id = good.clone();
    bad_id.blocks[0].id = 3;
    assert!(!func_ready(&bad_id));

    let mut bad_target = good.clone();
    bad_target.blocks[0].terminator = AmirTerminator::Goto { target: 1, args: Vec::new() };
    assert!(!func_ready(&bad_target));

    let mut bad_cfg = good.clone();
    bad_cfg.cfg.predecessors = Vec::new();
    assert!(!func_ready(&bad_cfg));
}

#[test]
fn o004_diag_explains_the_escape() {
    let span = Span { file_id: 1, start: 10, end: 14 };
    let d = o004_diag("buf", span, 3, "returned to the caller", true);
    assert_eq!(d.code, DiagCode::O004GenerationalFallback);
    assert_eq!(d.severity, Severity::Error);
    assert_eq!(d.message, "generational fallback: 'buf' escapes stack-limited borrow window");
    assert_eq!(d.span, span);
    assert_eq!(
        d.notes,
        vec![
            "this scope forbids generational fallback (`@NoFallback` or `--no-generational-fallback`)".to_string(),
            "escape path: local `buf` -> AMIR block 3 -> storage that may outlive the borrow".to_string(),
            "returned to the caller".to_string(),
        ]
    );
    assert_eq!(d.labels.len(), 1);
    assert_eq!(d.labels[0].span, span);
    assert_eq!(d.labels[0].message, "escape crosses the stack-only borrow boundary");
    assert_eq!(
        d.hints,
        vec![
            "stack-first alternatives: shorten the borrow, pass the owner, return owned data, or use an explicit heap type"
                .to_string()
        ]
    );
    let n = o004_diag("x", span, 12, "stored", false);
    assert_eq!(n.severity, Severity::Note);
    assert_eq!(n.notes[1], "escape path: local `x` -> AMIR block 12 -> storage that may outlive the borrow");
    assert!(n.notes[0].starts_with("not a silent heap promotion"));
}
