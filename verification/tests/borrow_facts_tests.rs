#![allow(dead_code, unused_imports)]

use arandu_mir::amir::{AmirOperand, AmirPlace, AmirProjection, AmirRvalue, BorrowPath, BorrowPathSegment, SymbolId};
use arandu_mir::borrow_facts::{
    BlockBorrowSummary, BorrowState, HolderPath, HolderProjection, LoanKind, ProgramPoint, block_borrow_summaries,
};
use arandu_mir::holder_paths::{
    holder_path_from_contract, merge_local_paths, merge_temp_paths, new_loan, place_path, prefix_paths,
    rvalue_holder_paths, strip_paths, strip_variant_payload,
};

fn path(steps: &[HolderProjection]) -> HolderPath {
    HolderPath(steps.to_vec())
}

fn sorted(mut v: Vec<HolderPath>) -> Vec<HolderPath> {
    v.sort();
    v
}

#[test]
fn borrow_state_tracks_loans_by_kind() {
    let mut s = BorrowState::new(4);
    assert!(!s.maybe_borrowed(2));
    s.activate(LoanKind::Shared, 2);
    s.activate(LoanKind::Exclusive, 9);
    assert!(s.maybe_shared(2));
    assert!(!s.maybe_exclusive(2));
    assert!(s.maybe_exclusive(9));
    assert!(s.maybe_borrowed(9));
    assert!(!s.maybe_borrowed(3));
    assert_eq!(s.shared.len(), 1);
}

#[test]
fn default_borrow_state_is_empty() {
    let s = BorrowState::default();
    assert!(!s.maybe_borrowed(0));
    assert_eq!(s.exclusive.len(), 0);
}

#[test]
fn summaries_count_locals_per_block() {
    let mut a = BorrowState::new(3);
    a.activate(LoanKind::Shared, 0);
    a.activate(LoanKind::Shared, 1);
    a.activate(LoanKind::Shared, 1);
    let mut b = BorrowState::new(3);
    b.activate(LoanKind::Exclusive, 2);
    let summaries = block_borrow_summaries(&vec![a.clone(), b.clone()], &vec![b, a], &vec![3, 1, 7]);
    assert_eq!(summaries.len(), 2);
    assert_eq!(
        summaries[0],
        BlockBorrowSummary { shared_in: 2, exclusive_in: 0, borrow_sites: 3, shared_out: 0, exclusive_out: 1 }
    );
    assert_eq!(
        summaries[1],
        BlockBorrowSummary { shared_in: 0, exclusive_in: 1, borrow_sites: 1, shared_out: 2, exclusive_out: 0 }
    );
}

#[test]
fn prefix_then_strip_gives_the_paths_back() {
    let input = vec![path(&[]), path(&[HolderProjection::Element, HolderProjection::Deref])];
    let prefix = path(&[HolderProjection::Slot(1)]);
    let stored = prefix_paths(&input, &prefix);
    assert_eq!(
        sorted(stored.clone()),
        sorted(vec![path(&[HolderProjection::Slot(1)]), path(&[HolderProjection::Slot(1), HolderProjection::Element, HolderProjection::Deref])])
    );
    assert_eq!(sorted(strip_paths(&stored, &prefix)), sorted(input));
}

#[test]
fn strip_keeps_only_paths_below_the_prefix() {
    let input = vec![
        path(&[HolderProjection::Slot(0), HolderProjection::Deref]),
        path(&[HolderProjection::Slot(1)]),
        path(&[HolderProjection::Slot(0)]),
    ];
    let out = strip_paths(&input, &path(&[HolderProjection::Slot(0)]));
    assert_eq!(sorted(out), sorted(vec![path(&[HolderProjection::Deref]), path(&[])]));
}

#[test]
fn payload_selection_ignores_the_variant_tag_and_dedups() {
    let input = vec![
        path(&[HolderProjection::Variant(1), HolderProjection::Payload(0), HolderProjection::Element]),
        path(&[HolderProjection::Variant(2), HolderProjection::Payload(0), HolderProjection::Element]),
        path(&[HolderProjection::Variant(2), HolderProjection::Payload(1)]),
        path(&[HolderProjection::Payload(0)]),
    ];
    let out = strip_variant_payload(&input, 0);
    assert_eq!(out, vec![path(&[HolderProjection::Element])]);
}

#[test]
fn place_paths_name_fields_and_collapse_indices() {
    let place = AmirPlace {
        local: 3,
        projections: vec![
            AmirProjection::Field(SymbolId { file_id: 2, local_id: 5 }),
            AmirProjection::Index(arandu_mir::amir::AmirOperand::Copy(0)),
            AmirProjection::Deref,
        ],
    };
    assert_eq!(
        place_path(&place),
        path(&[HolderProjection::NamedField { file_id: 2, local_id: 5 }, HolderProjection::Element, HolderProjection::Deref])
    );
}

#[test]
fn contract_paths_digest_field_names() {
    let contract = BorrowPath(vec![
        BorrowPathSegment::Tuple(1),
        BorrowPathSegment::Field(b"a".to_vec()),
        BorrowPathSegment::Field(Vec::new()),
        BorrowPathSegment::OptionSome,
        BorrowPathSegment::ArrayElement,
    ]);
    // FNV-1a of "a" and of the empty name.
    assert_eq!(
        holder_path_from_contract(&contract),
        path(&[
            HolderProjection::Slot(1),
            HolderProjection::NamedField { file_id: u32::MAX, local_id: 0xe40c292c },
            HolderProjection::NamedField { file_id: u32::MAX, local_id: 2166136261 },
            HolderProjection::OptionSome,
            HolderProjection::Element,
        ])
    );
}

#[test]
fn program_points_compare_by_block_and_index() {
    let p = ProgramPoint { block: 2, stmt_index: 0 };
    assert_eq!(p, ProgramPoint { block: 2, stmt_index: 0 });
    assert_ne!(p, ProgramPoint { block: 2, stmt_index: 1 });
}

#[test]
fn new_loan_is_held_by_its_borrow_temp_at_the_root() {
    let loan = new_loan(LoanKind::Shared, AmirPlace { local: 1, projections: Vec::new() }, 2, 0, false, 4, 3);
    assert_eq!(loan.holder_temp_paths.len(), 4);
    assert_eq!(loan.holder_local_paths.len(), 3);
    assert_eq!(loan.holder_temp_paths[2], vec![path(&[])]);
    assert!(loan.holder_temp_paths[0].is_empty());
    assert!(loan.holder_temps.contains(2));
    assert!(!loan.holder_temps.contains(0));
    assert!(!loan.holder_locals.contains(1));
}

#[test]
fn rvalue_holder_paths_follow_aggregates_and_projections() {
    let loan = new_loan(LoanKind::Shared, AmirPlace { local: 0, projections: Vec::new() }, 1, 0, false, 4, 2);
    // A tuple holds the loan in the slot of the holder.
    let tuple = AmirRvalue::Tuple { items: vec![AmirOperand::Copy(0), AmirOperand::Copy(1)] };
    assert_eq!(rvalue_holder_paths(&tuple, &loan), vec![path(&[HolderProjection::Slot(1)])]);
    // An array holds it in its elements.
    let arr = AmirRvalue::Array { items: vec![AmirOperand::Copy(1)] };
    assert_eq!(rvalue_holder_paths(&arr, &loan), vec![path(&[HolderProjection::Element])]);
    // An enum payload wraps it behind the variant and slot 0.
    let ctor = AmirRvalue::EnumConstruct { variant_tag: 3, payload: Some(AmirOperand::Move(1)) };
    assert_eq!(
        rvalue_holder_paths(&ctor, &loan),
        vec![path(&[HolderProjection::Variant(3), HolderProjection::Payload(0)])]
    );
    // Values that cannot hold a reference hold nothing.
    let len = AmirRvalue::Len(AmirOperand::Copy(1));
    assert!(rvalue_holder_paths(&len, &loan).is_empty());
}

#[test]
fn merging_holder_paths_reports_only_new_paths() {
    let mut loan = new_loan(LoanKind::Exclusive, AmirPlace { local: 0, projections: Vec::new() }, 0, 0, false, 3, 2);
    assert!(merge_temp_paths(&mut loan, 2, vec![path(&[HolderProjection::Slot(0)])]));
    assert!(loan.holder_temps.contains(2));
    assert!(!merge_temp_paths(&mut loan, 2, vec![path(&[HolderProjection::Slot(0)])]));
    // A temp past the table changes nothing.
    assert!(!merge_temp_paths(&mut loan, 9, vec![path(&[])]));
    // Storing the holder into a local, then loading a field of it back.
    assert!(merge_local_paths(&mut loan, 1, vec![path(&[HolderProjection::Slot(0)])]));
    assert!(loan.holder_locals.contains(1));
    let load = AmirRvalue::Load(AmirPlace { local: 1, projections: Vec::new() });
    assert_eq!(rvalue_holder_paths(&load, &loan), vec![path(&[HolderProjection::Slot(0)])]);
    let field = AmirRvalue::FieldAccess { base: AmirOperand::Copy(2), field: 0 };
    assert_eq!(rvalue_holder_paths(&field, &loan), vec![path(&[])]);
}
