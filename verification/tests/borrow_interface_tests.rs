#![allow(dead_code, unused_imports)]

use std::collections::BTreeSet;

use arandu_mir::amir::{
    AmirBasicBlock, AmirFunc, AmirOperand, AmirConstant, AmirPlace, AmirRvalue, AmirStmt, AmirTemp, AmirTerminator,
    BlockParam, BorrowPath, BorrowPathSegment, BorrowSource, DenseRange, ReturnBorrowDependency, ReturnBorrowSummary,
    Span, SwitchOtherwise, SwitchTarget, SymbolId, compute_cfg_edges,
};
use arandu_mir::borrow_interface::{
    OriginEntry, OriginMap, StructField, TypeFacts, ValueShape, aggregate_origins, empty_origins, merge_origins,
    operand_origins, prefix_origins, strip_prefix, transfer_statement, transfer_terminator,
};

fn path(segs: Vec<BorrowPathSegment>) -> BorrowPath {
    BorrowPath(segs)
}

fn field(name: &str) -> BorrowPathSegment {
    BorrowPathSegment::Field(name.as_bytes().to_vec())
}

fn source(index: u32, segs: Vec<BorrowPathSegment>) -> BorrowSource {
    BorrowSource { parameter_index: index, parameter_path: path(segs) }
}

fn map(entries: Vec<(Vec<BorrowPathSegment>, Vec<BorrowSource>)>) -> OriginMap {
    OriginMap {
        entries: entries.into_iter().map(|(p, sources)| OriginEntry { path: path(p), sources }).collect(),
    }
}

/// Every (path, source) pair a map records, written out.
fn pairs(m: &OriginMap) -> BTreeSet<(String, String)> {
    let mut out = BTreeSet::new();
    for e in &m.entries {
        for s in &e.sources {
            out.insert((format!("{:?}", e.path), format!("{:?}", s)));
        }
    }
    out
}

fn pair(p: Vec<BorrowPathSegment>, s: BorrowSource) -> (String, String) {
    (format!("{:?}", path(p)), format!("{:?}", s))
}

#[test]
fn operand_origins_reads_the_temp() {
    let temps = vec![empty_origins(), map(vec![(vec![], vec![source(0, vec![])])])];
    let r = operand_origins(AmirOperand::Copy(1), &temps);
    assert_eq!(pairs(&r), BTreeSet::from([pair(vec![], source(0, vec![]))]));
    assert!(pairs(&operand_origins(AmirOperand::Constant(AmirConstant::Nil), &temps)).is_empty());
    assert!(pairs(&operand_origins(AmirOperand::Move(7), &temps)).is_empty());
}

#[test]
fn origins_prefix_then_strip_give_the_sources_back() {
    let input = map(vec![
        (vec![], vec![source(0, vec![])]),
        (vec![BorrowPathSegment::Tuple(1)], vec![source(1, vec![field("x")])]),
    ]);
    let mut out = empty_origins();
    prefix_origins(&mut out, &input, field("inner"));
    assert_eq!(
        pairs(&out),
        BTreeSet::from([
            pair(vec![field("inner")], source(0, vec![])),
            pair(vec![field("inner"), BorrowPathSegment::Tuple(1)], source(1, vec![field("x")])),
        ])
    );
    let back = strip_prefix(&out, &field("inner"));
    assert_eq!(pairs(&back), pairs(&input));
    // Paths under another segment are dropped; the root is kept.
    let other = strip_prefix(&input, &BorrowPathSegment::Tuple(0));
    assert_eq!(pairs(&other), BTreeSet::from([pair(vec![], source(0, vec![]))]));
}

#[test]
fn merge_reports_only_new_sources() {
    let mut target = map(vec![(vec![], vec![source(0, vec![])])]);
    let mut same = map(vec![(vec![], vec![source(0, vec![])])]);
    assert!(!merge_origins(&mut target, &mut same));
    let mut more = map(vec![(vec![], vec![source(0, vec![]), source(2, vec![])]), (vec![field("f")], vec![source(1, vec![])])]);
    assert!(merge_origins(&mut target, &mut more));
    assert_eq!(
        pairs(&target),
        BTreeSet::from([
            pair(vec![], source(0, vec![])),
            pair(vec![], source(2, vec![])),
            pair(vec![field("f")], source(1, vec![])),
        ])
    );
    let mut again = map(vec![(vec![field("f")], vec![source(1, vec![])])]);
    assert!(!merge_origins(&mut target, &mut again));
}

#[test]
fn aggregate_puts_each_operand_behind_its_slot() {
    let temps = vec![
        map(vec![(vec![], vec![source(0, vec![])])]),
        map(vec![(vec![field("a")], vec![source(1, vec![])])]),
    ];
    let ops = vec![AmirOperand::Copy(1), AmirOperand::Constant(AmirConstant::Bool(true)), AmirOperand::Move(0)];
    let r = aggregate_origins(&ops, &temps);
    assert_eq!(
        pairs(&r),
        BTreeSet::from([
            pair(vec![BorrowPathSegment::Tuple(0), field("a")], source(1, vec![])),
            pair(vec![BorrowPathSegment::Tuple(2)], source(0, vec![])),
        ])
    );
}

fn temp(id: usize) -> AmirTemp {
    AmirTemp { id, ty: 1, is_copy: true, is_nullable: false, span: Span { file_id: 0, start: 0, end: 0 } }
}

#[test]
fn transfer_terminator_feeds_block_parameters_in_order() {
    // Block 1 has parameters _2 and _3; the jump passes _1 and then _2.
    let blocks = vec![
        AmirBasicBlock {
            id: 0,
            statements: DenseRange::empty(),
            params: DenseRange::empty(),
            terminator: AmirTerminator::Goto { target: 1, args: vec![AmirOperand::Copy(1), AmirOperand::Copy(2)] },
        },
        AmirBasicBlock {
            id: 1,
            statements: DenseRange::empty(),
            params: DenseRange::new(0, 2),
            terminator: AmirTerminator::Return,
        },
    ];
    let cfg = compute_cfg_edges(&blocks);
    let func = AmirFunc {
        symbol: SymbolId { file_id: 0, local_id: 0 },
        return_type: 1,
        receiver: None,
        params: vec![1],
        locals: Vec::new(),
        temps: (0..4).map(temp).collect(),
        blocks,
        block_params: vec![
            BlockParam { id: 2, local: 0, ty: 1, moved: false },
            BlockParam { id: 3, local: 0, ty: 1, moved: false },
        ],
        stmts: Vec::new(),
        cfg,
    };
    let mut temps = vec![
        empty_origins(),
        map(vec![(vec![], vec![source(0, vec![])])]),
        empty_origins(),
        empty_origins(),
    ];
    let mut changed = false;
    let term = func.blocks[0].terminator.clone();
    transfer_terminator(&func, &term, &mut temps, &mut changed);
    assert!(changed);
    assert_eq!(pairs(&temps[2]), BTreeSet::from([pair(vec![], source(0, vec![]))]));
    // The second argument is read after the first was merged.
    assert_eq!(pairs(&temps[3]), BTreeSet::from([pair(vec![], source(0, vec![]))]));
    let mut changed_again = false;
    transfer_terminator(&func, &term, &mut temps, &mut changed_again);
    assert!(!changed_again);
}

fn typed_temp(id: usize, ty: u32) -> AmirTemp {
    AmirTemp { id, ty, is_copy: true, is_nullable: false, span: Span { file_id: 0, start: 0, end: 0 } }
}

/// A function with one empty block and temps of the given types.
fn func_with_temps(tys: Vec<u32>) -> AmirFunc {
    let blocks = vec![AmirBasicBlock {
        id: 0,
        statements: DenseRange::empty(),
        params: DenseRange::empty(),
        terminator: AmirTerminator::Return,
    }];
    let cfg = compute_cfg_edges(&blocks);
    AmirFunc {
        symbol: SymbolId { file_id: 0, local_id: 0 },
        return_type: 0,
        receiver: None,
        params: vec![0],
        locals: Vec::new(),
        temps: tys.iter().enumerate().map(|(i, ty)| typed_temp(i, *ty)).collect(),
        blocks,
        block_params: Vec::new(),
        stmts: Vec::new(),
        cfg,
    }
}

/// Type 0 is plain, type 1 an option, type 2 a result, type 3 a struct
/// with fields `a` (position 0) and `b` (position 1).
fn facts() -> TypeFacts {
    TypeFacts {
        shapes: vec![ValueShape::OtherType, ValueShape::OptionType, ValueShape::ResultType, ValueShape::OtherType],
        struct_fields: vec![
            Vec::new(),
            Vec::new(),
            Vec::new(),
            vec![
                StructField { index: 0, name: b"a".to_vec() },
                StructField { index: 1, name: b"b".to_vec() },
            ],
        ],
        variant_tags: vec![(7, 2)],
    }
}

fn param_source() -> BorrowSource {
    source(0, vec![])
}

#[test]
fn transfer_statement_wraps_a_payload_in_some() {
    let func = func_with_temps(vec![0, 1]);
    let mut temps = vec![map(vec![(vec![], vec![param_source()])]), empty_origins()];
    let mut locals: Vec<OriginMap> = Vec::new();
    let mut changed = false;
    let stmt = AmirStmt::Assign {
        lhs: 1,
        rhs: AmirRvalue::EnumConstruct { variant_tag: 1, payload: Some(AmirOperand::Copy(0)) },
    };
    transfer_statement(&func, &stmt, &facts(), &Vec::new(), &mut temps, &mut locals, &mut changed);
    assert!(changed);
    assert_eq!(pairs(&temps[1]), BTreeSet::from([pair(vec![BorrowPathSegment::OptionSome], param_source())]));
    // Running it again adds nothing.
    let mut again = false;
    transfer_statement(&func, &stmt, &facts(), &Vec::new(), &mut temps, &mut locals, &mut again);
    assert!(!again);
}

#[test]
fn transfer_statement_reads_a_named_field() {
    let func = func_with_temps(vec![3, 0]);
    let mut temps = vec![
        map(vec![
            (vec![field("a")], vec![param_source()]),
            (vec![field("b")], vec![source(1, vec![])]),
        ]),
        empty_origins(),
    ];
    let mut locals: Vec<OriginMap> = Vec::new();
    let mut changed = false;
    let stmt = AmirStmt::Assign { lhs: 1, rhs: AmirRvalue::FieldAccess { base: AmirOperand::Copy(0), field: 1 } };
    transfer_statement(&func, &stmt, &facts(), &Vec::new(), &mut temps, &mut locals, &mut changed);
    assert!(changed);
    assert_eq!(pairs(&temps[1]), BTreeSet::from([pair(vec![], source(1, vec![]))]));
}

#[test]
fn transfer_statement_reads_a_variant_payload_slot() {
    let func = func_with_temps(vec![0, 0]);
    let mut temps = vec![
        map(vec![(vec![BorrowPathSegment::Variant(2), BorrowPathSegment::Payload(0)], vec![param_source()])]),
        empty_origins(),
    ];
    let mut locals: Vec<OriginMap> = Vec::new();
    let mut changed = false;
    // Variant 7 has tag 2 in the facts.
    let stmt = AmirStmt::Assign {
        lhs: 1,
        rhs: AmirRvalue::EnumPayload { value: AmirOperand::Copy(0), variant: 7, index: 0 },
    };
    transfer_statement(&func, &stmt, &facts(), &Vec::new(), &mut temps, &mut locals, &mut changed);
    assert!(changed);
    assert_eq!(pairs(&temps[1]), BTreeSet::from([pair(vec![], param_source())]));
}

#[test]
fn transfer_statement_stores_into_a_whole_local_and_borrows_it_back() {
    let func = func_with_temps(vec![0, 0]);
    let mut temps = vec![map(vec![(vec![], vec![param_source()])]), empty_origins()];
    let mut locals = vec![empty_origins()];
    let mut changed = false;
    let store = AmirStmt::Store { lhs: AmirPlace { local: 0, projections: Vec::new() }, rhs: AmirOperand::Copy(0) };
    transfer_statement(&func, &store, &facts(), &Vec::new(), &mut temps, &mut locals, &mut changed);
    assert!(changed);
    assert_eq!(pairs(&locals[0]), BTreeSet::from([pair(vec![], param_source())]));
    let borrow = AmirStmt::Assign { lhs: 1, rhs: AmirRvalue::Borrow(AmirPlace { local: 0, projections: Vec::new() }) };
    let mut changed2 = false;
    transfer_statement(&func, &borrow, &facts(), &Vec::new(), &mut temps, &mut locals, &mut changed2);
    assert!(changed2);
    assert_eq!(pairs(&temps[1]), BTreeSet::from([pair(vec![], param_source())]));
}

#[test]
fn transfer_statement_follows_a_callee_summary() {
    let func = func_with_temps(vec![0, 0]);
    let mut temps = vec![map(vec![(vec![field("x")], vec![param_source()])]), empty_origins()];
    let mut locals: Vec<OriginMap> = Vec::new();
    let callee = SymbolId { file_id: 0, local_id: 9 };
    // The callee returns, at its root, what its first argument holds at `x`.
    let summary = ReturnBorrowSummary {
        dependencies: vec![ReturnBorrowDependency { result_path: path(vec![]), sources: vec![source(0, vec![field("x")])] }],
    };
    let sums = vec![(callee, summary)];
    let call = AmirStmt::Call {
        lhs: Some(1),
        callee: AmirOperand::FunctionRef(callee),
        args: vec![AmirOperand::Copy(0)],
        return_borrow: None,
    };
    let mut changed = false;
    transfer_statement(&func, &call, &facts(), &sums, &mut temps, &mut locals, &mut changed);
    assert!(changed);
    assert_eq!(pairs(&temps[1]), BTreeSet::from([pair(vec![], param_source())]));
    // A callee without a summary passes nothing.
    let unknown = AmirStmt::Call {
        lhs: Some(1),
        callee: AmirOperand::FunctionRef(SymbolId { file_id: 0, local_id: 10 }),
        args: vec![AmirOperand::Copy(0)],
        return_borrow: None,
    };
    let mut changed3 = false;
    transfer_statement(&func, &unknown, &facts(), &sums, &mut temps, &mut locals, &mut changed3);
    assert!(!changed3);
}

#[test]
fn transfer_statement_puts_array_elements_and_fields_behind_their_segments() {
    let func = func_with_temps(vec![0, 0, 0]);
    let mut temps = vec![map(vec![(vec![], vec![param_source()])]), empty_origins(), empty_origins()];
    let mut locals: Vec<OriginMap> = Vec::new();
    let mut changed = false;
    let arr = AmirStmt::Assign { lhs: 1, rhs: AmirRvalue::Array { items: vec![AmirOperand::Copy(0)] } };
    transfer_statement(&func, &arr, &facts(), &Vec::new(), &mut temps, &mut locals, &mut changed);
    assert_eq!(pairs(&temps[1]), BTreeSet::from([pair(vec![BorrowPathSegment::ArrayElement], param_source())]));
    let lit = AmirStmt::Assign {
        lhs: 2,
        rhs: AmirRvalue::StructLiteral {
            struct_symbol: SymbolId { file_id: 0, local_id: 3 },
            fields: vec![(b"ptr".to_vec(), AmirOperand::Copy(0))],
        },
    };
    transfer_statement(&func, &lit, &facts(), &Vec::new(), &mut temps, &mut locals, &mut changed);
    assert_eq!(pairs(&temps[2]), BTreeSet::from([pair(vec![field("ptr")], param_source())]));
}
