#![allow(dead_code, unused_imports)]

use arandu_mir::amir::{
    AmirBasicBlock, AmirConstant, AmirFunc, AmirLocal, AmirOperand, AmirPlace, AmirRvalue, AmirStmt, AmirTemp,
    AmirTerminator, BlockParam, DenseRange, Span, SymbolId, compute_cfg_edges,
};
use arandu_mir::diagnostics::DiagCode;
use arandu_mir::simplify_cfg::simplify_cfg;

fn span0() -> Span {
    Span { file_id: 0, start: 0, end: 0 }
}

fn sym(file_id: u32, local_id: u32) -> SymbolId {
    SymbolId { file_id, local_id }
}

fn int_temp(id: usize) -> AmirTemp {
    AmirTemp { id, ty: 1, is_copy: true, is_nullable: false, span: span0() }
}

fn bool_temp(id: usize) -> AmirTemp {
    AmirTemp { id, ty: 2, is_copy: true, is_nullable: false, span: span0() }
}

fn local(id: usize, is_memory: bool) -> AmirLocal {
    AmirLocal { id, ty: 1, is_memory, symbol: None, span: span0(), use_span: None }
}

fn place(l: usize) -> AmirPlace {
    AmirPlace { local: l, projections: Vec::new() }
}

fn bool_const(b: bool) -> AmirOperand {
    AmirOperand::Constant(AmirConstant::Bool(b))
}

fn ret_block(id: usize, statements: DenseRange) -> AmirBasicBlock {
    AmirBasicBlock { id, statements, params: DenseRange::empty(), terminator: AmirTerminator::Return }
}

fn goto_block(id: usize, statements: DenseRange, target: usize, args: Vec<AmirOperand>) -> AmirBasicBlock {
    AmirBasicBlock { id, statements, params: DenseRange::empty(), terminator: AmirTerminator::Goto { target, args } }
}

fn branch_block(id: usize, statements: DenseRange, condition: AmirOperand, if_true: usize, if_false: usize) -> AmirBasicBlock {
    AmirBasicBlock {
        id,
        statements,
        params: DenseRange::empty(),
        terminator: AmirTerminator::Branch {
            condition,
            if_true,
            true_args: Vec::new(),
            if_false,
            false_args: Vec::new(),
        },
    }
}

fn make_func(
    blocks: Vec<AmirBasicBlock>,
    stmts: Vec<AmirStmt>,
    temps: Vec<AmirTemp>,
    locals: Vec<AmirLocal>,
    block_params: Vec<BlockParam>,
) -> AmirFunc {
    let cfg = compute_cfg_edges(&blocks);
    AmirFunc {
        symbol: sym(0, 0),
        return_type: 0,
        receiver: None,
        params: Vec::new(),
        locals,
        temps,
        blocks,
        block_params,
        stmts,
        cfg,
    }
}

/// One block holding `statements`, returning.
fn single_block_func(statements: Vec<AmirStmt>, temps: Vec<AmirTemp>) -> AmirFunc {
    let n = statements.len();
    make_func(vec![ret_block(0, DenseRange::new(0, n))], statements, temps, Vec::new(), Vec::new())
}

fn block_stmt(func: &AmirFunc, block: usize, k: usize) -> &AmirStmt {
    &func.stmts[func.blocks[block].statements.start + k]
}

fn cfg_func(blocks: Vec<AmirBasicBlock>, stmts: Vec<AmirStmt>) -> AmirFunc {
    make_func(blocks, stmts, vec![int_temp(0)], Vec::new(), Vec::new())
}

fn block_params_of(func: &AmirFunc, b: usize) -> Vec<BlockParam> {
    let r = func.blocks[b].params;
    func.block_params[r.start..r.start + r.len].to_vec()
}

#[test]
fn empty_goto_cycles_terminate_and_preserve_divergence() {
    for targets in [&[0usize][..], &[1, 0], &[1, 2, 1]] {
        let blocks = targets
            .iter()
            .enumerate()
            .map(|(id, &target)| goto_block(id, DenseRange::empty(), target, Vec::new()))
            .collect();
        let mut func = cfg_func(blocks, Vec::new());
        simplify_cfg(&mut func).unwrap();
        assert!(!func.blocks.is_empty());
        for block in &func.blocks {
            let AmirTerminator::Goto { target, args } = &block.terminator else {
                panic!("simplification must preserve an infinite loop");
            };
            assert!(*target < func.blocks.len());
            assert!(args.is_empty());
        }
        assert!(!simplify_cfg(&mut func).unwrap(), "must reach a fixpoint");
    }
}

#[test]
fn unreachable_sweep_remaps_suspend_resume_and_preserves_arguments() {
    let entry = AmirBasicBlock {
        id: 0,
        statements: DenseRange::empty(),
        params: DenseRange::empty(),
        terminator: AmirTerminator::Suspend { future: AmirOperand::Copy(0), resume: 2, args: vec![AmirOperand::Copy(1)] },
    };
    let dead = ret_block(1, DenseRange::empty());
    let mut resume = ret_block(2, DenseRange::empty());
    resume.params = DenseRange::new(0, 1);
    let mut func = make_func(
        vec![entry, dead, resume],
        Vec::new(),
        vec![int_temp(0), int_temp(1), int_temp(2)],
        Vec::new(),
        vec![BlockParam { id: 2, local: 0, ty: 1, moved: false }],
    );
    assert!(simplify_cfg(&mut func).unwrap());
    assert_eq!(func.blocks.len(), 2);
    let AmirTerminator::Suspend { future, resume, args } = &func.blocks[0].terminator else {
        panic!("suspend must survive unreachable removal");
    };
    assert_eq!(*future, AmirOperand::Copy(0));
    assert_eq!(*resume, 1);
    assert_eq!(args, &[AmirOperand::Copy(1)]);
    assert_eq!(block_params_of(&func, 1)[0].id, 2);
    assert_eq!(func.cfg.successors[0], vec![1]);
    assert!(!simplify_cfg(&mut func).unwrap());
}

#[test]
fn jump_thread_skips_empty_goto_chain() {
    let mut func = cfg_func(
        vec![
            goto_block(0, DenseRange::empty(), 1, Vec::new()),
            goto_block(1, DenseRange::empty(), 2, Vec::new()),
            ret_block(2, DenseRange::empty()),
        ],
        Vec::new(),
    );
    assert!(simplify_cfg(&mut func).unwrap());
    assert_eq!(func.blocks.len(), 1);
    assert!(matches!(func.blocks[0].terminator, AmirTerminator::Return));
}

#[test]
fn jump_thread_no_change_when_no_chain() {
    let mut func = cfg_func(vec![ret_block(0, DenseRange::empty())], Vec::new());
    assert!(!simplify_cfg(&mut func).unwrap());
}

#[test]
fn merge_single_pred_single_succ() {
    let stmts = vec![
        AmirStmt::Store { lhs: place(0), rhs: bool_const(true) },
        AmirStmt::Store { lhs: place(1), rhs: bool_const(false) },
    ];
    let mut func = cfg_func(vec![goto_block(0, DenseRange::new(0, 1), 1, Vec::new()), ret_block(1, DenseRange::new(1, 1))], stmts);
    assert!(simplify_cfg(&mut func).unwrap());
    let b0 = &func.blocks[0];
    assert_eq!(b0.statements.len, 2);
    assert!(matches!(b0.terminator, AmirTerminator::Return));
}

#[test]
fn remove_unreachable_removes_orphaned_blocks() {
    let mut func = cfg_func(
        vec![ret_block(0, DenseRange::empty()), ret_block(1, DenseRange::empty()), ret_block(2, DenseRange::empty())],
        Vec::new(),
    );
    assert!(simplify_cfg(&mut func).unwrap());
    assert_eq!(func.blocks.len(), 1);
}

#[test]
fn remove_unreachable_rewrites_terminator_targets() {
    let mut func = cfg_func(
        vec![goto_block(0, DenseRange::empty(), 1, Vec::new()), ret_block(1, DenseRange::empty()), ret_block(2, DenseRange::empty())],
        Vec::new(),
    );
    assert!(simplify_cfg(&mut func).unwrap());
    assert_eq!(func.blocks.len(), 1);
    assert!(matches!(func.blocks[0].terminator, AmirTerminator::Return));
}

#[test]
fn no_change_when_all_reachable() {
    let mut func = cfg_func(vec![ret_block(0, DenseRange::empty())], Vec::new());
    assert!(!simplify_cfg(&mut func).unwrap());
}

#[test]
fn does_not_merge_across_suspend() {
    let mut func = make_func(
        vec![
            AmirBasicBlock {
                id: 0,
                statements: DenseRange::empty(),
                params: DenseRange::empty(),
                terminator: AmirTerminator::Suspend { future: AmirOperand::Copy(0), resume: 1, args: vec![AmirOperand::Copy(1)] },
            },
            AmirBasicBlock { id: 1, statements: DenseRange::empty(), params: DenseRange::new(0, 1), terminator: AmirTerminator::Return },
        ],
        Vec::new(),
        vec![int_temp(0), int_temp(1), int_temp(2)],
        Vec::new(),
        vec![BlockParam { id: 2, local: 0, ty: 1, moved: false }],
    );
    let _ = simplify_cfg(&mut func).unwrap();
    assert_eq!(func.blocks.len(), 2, "resume must not be merged away");
    assert!(
        matches!(func.blocks[0].terminator, AmirTerminator::Suspend { .. }),
        "Suspend frontier must survive simplify_cfg"
    );
    assert!(!block_params_of(&func, 1).is_empty());
}

#[test]
fn does_not_merge_goto_with_args_into_param_block() {
    let mut func = make_func(
        vec![
            goto_block(0, DenseRange::empty(), 1, vec![AmirOperand::Copy(0)]),
            AmirBasicBlock { id: 1, statements: DenseRange::empty(), params: DenseRange::new(0, 1), terminator: AmirTerminator::Return },
        ],
        Vec::new(),
        vec![int_temp(0), int_temp(1)],
        Vec::new(),
        vec![BlockParam { id: 1, local: 0, ty: 1, moved: false }],
    );
    let _ = simplify_cfg(&mut func).unwrap();
    assert_eq!(func.blocks.len(), 2);
    assert!(matches!(func.blocks[0].terminator, AmirTerminator::Goto { .. }));
}

#[test]
fn simplify_cfg_removes_goto_chain() {
    let mut func = cfg_func(
        vec![
            goto_block(0, DenseRange::empty(), 1, Vec::new()),
            goto_block(1, DenseRange::empty(), 2, Vec::new()),
            ret_block(2, DenseRange::empty()),
        ],
        Vec::new(),
    );
    assert!(simplify_cfg(&mut func).unwrap());
    assert_eq!(func.blocks.len(), 1);
}

#[test]
fn simplify_cfg_overlapping_statement_ranges_return_ice() {
    let stmts = vec![AmirStmt::Assign { lhs: 0, rhs: AmirRvalue::Use(bool_const(true)) }];
    let shared = DenseRange::new(0, 1);
    let mut func = cfg_func(vec![goto_block(0, shared, 1, Vec::new()), ret_block(1, shared)], stmts);
    let error = simplify_cfg(&mut func).unwrap_err();
    assert_eq!(error.code, DiagCode::ICEO001);
}

#[test]
fn simplify_cfg_recomputes_predecessors() {
    let mut func = cfg_func(
        vec![
            branch_block(0, DenseRange::empty(), AmirOperand::Copy(0), 1, 2),
            goto_block(1, DenseRange::empty(), 3, Vec::new()),
            goto_block(2, DenseRange::empty(), 3, Vec::new()),
            ret_block(3, DenseRange::empty()),
        ],
        Vec::new(),
    );
    let _ = simplify_cfg(&mut func).unwrap();
    let n = func.blocks.len();
    assert_eq!(func.cfg.predecessors.len(), n);
    assert_eq!(func.cfg.successors.len(), n);
}
