//! Renaming of temps and locals when a callee body is spliced into a caller:
//! every temp `t` becomes `temp_map[t]` and every local `l` becomes
//! `local_map[l]`; everything else is kept.

use vstd::prelude::*;
use crate::amir::{
    AmirOperand, AmirPlace, AmirProjection, AmirRvalue, AmirStmt, AmirTerminator, BlockId, LocalId, SwitchOtherwise,
    SwitchTarget, SymbolId, TempId, operands_ok, place_index_operands, rvalue_operands, stmt_def, stmt_operands,
    switch_args, terminator_operands, terminator_targets, targets_in_range,
};

verus! {

pub open spec fn spec_remap_op(op: AmirOperand, tm: Seq<TempId>) -> AmirOperand {
    match op {
        AmirOperand::Copy(t) => AmirOperand::Copy(tm[t as int]),
        AmirOperand::Move(t) => AmirOperand::Move(tm[t as int]),
        _ => op,
    }
}

pub open spec fn spec_remap_ops(ops: Seq<AmirOperand>, tm: Seq<TempId>) -> Seq<AmirOperand> {
    ops.map_values(|op: AmirOperand| spec_remap_op(op, tm))
}

pub open spec fn spec_remap_projection(p: AmirProjection, tm: Seq<TempId>) -> AmirProjection {
    match p {
        AmirProjection::Index(op) => AmirProjection::Index(spec_remap_op(op, tm)),
        _ => p,
    }
}

/// `new` is `old` with its root local and index operands renamed.
pub open spec fn place_remapped(old: AmirPlace, new: AmirPlace, tm: Seq<TempId>, lm: Seq<LocalId>) -> bool {
    &&& new.local == lm[old.local as int]
    &&& new.projections@ == old.projections@.map_values(|p: AmirProjection| spec_remap_projection(p, tm))
}

/// The fields of a struct literal with the same names and renamed operands.
pub open spec fn fields_remapped(
    old: Seq<(Vec<u8>, AmirOperand)>,
    new: Seq<(Vec<u8>, AmirOperand)>,
    tm: Seq<TempId>,
) -> bool {
    &&& new.len() == old.len()
    &&& forall|k: int|
        0 <= k < old.len() ==> (#[trigger] new[k]).0@ == old[k].0@ && new[k].1 == spec_remap_op(old[k].1, tm)
}

/// `new` is `old` with every temp and local renamed.
pub open spec fn rvalue_remapped(old: AmirRvalue, new: AmirRvalue, tm: Seq<TempId>, lm: Seq<LocalId>) -> bool {
    match (old, new) {
        (AmirRvalue::Use(a), AmirRvalue::Use(b)) => b == spec_remap_op(a, tm),
        (AmirRvalue::Binary { op, left, right }, AmirRvalue::Binary { op: op2, left: l2, right: r2 }) => op2 == op
            && l2 == spec_remap_op(left, tm) && r2 == spec_remap_op(right, tm),
        (AmirRvalue::Unary { op, operand }, AmirRvalue::Unary { op: op2, operand: o2 }) => op2 == op && o2
            == spec_remap_op(operand, tm),
        (AmirRvalue::FieldAccess { base, field }, AmirRvalue::FieldAccess { base: b2, field: f2 }) => f2 == field
            && b2 == spec_remap_op(base, tm),
        (
            AmirRvalue::StructLiteral { struct_symbol, fields },
            AmirRvalue::StructLiteral { struct_symbol: s2, fields: f2 },
        ) => s2 == struct_symbol && fields_remapped(fields@, f2@, tm),
        (AmirRvalue::IndexAccess { base, index }, AmirRvalue::IndexAccess { base: b2, index: i2 }) => b2
            == spec_remap_op(base, tm) && i2 == spec_remap_op(index, tm),
        (AmirRvalue::Array { items }, AmirRvalue::Array { items: i2 }) => i2@ == spec_remap_ops(items@, tm),
        (AmirRvalue::Tuple { items }, AmirRvalue::Tuple { items: i2 }) => i2@ == spec_remap_ops(items@, tm),
        (AmirRvalue::Discriminant { value }, AmirRvalue::Discriminant { value: v2 }) => v2 == spec_remap_op(
            value,
            tm,
        ),
        (
            AmirRvalue::EnumPayload { value, variant, index },
            AmirRvalue::EnumPayload { value: v2, variant: var2, index: i2 },
        ) => v2 == spec_remap_op(value, tm) && var2 == variant && i2 == index,
        (
            AmirRvalue::EnumConstruct { variant_tag, payload },
            AmirRvalue::EnumConstruct { variant_tag: t2, payload: p2 },
        ) => t2 == variant_tag && p2 == match payload {
            Some(p) => Some(spec_remap_op(p, tm)),
            None => None,
        },
        (AmirRvalue::Len(a), AmirRvalue::Len(b)) => b == spec_remap_op(a, tm),
        (AmirRvalue::SliceData(a), AmirRvalue::SliceData(b)) => b == spec_remap_op(a, tm),
        (AmirRvalue::SliceView { owner, data, len }, AmirRvalue::SliceView { owner: o2, data: d2, len: l2 }) => o2
            == spec_remap_op(owner, tm) && d2 == spec_remap_op(data, tm) && l2 == spec_remap_op(len, tm),
        (
            AmirRvalue::SliceSubslice { slice, start, len },
            AmirRvalue::SliceSubslice { slice: s2, start: st2, len: l2 },
        ) => s2 == spec_remap_op(slice, tm) && st2 == spec_remap_op(start, tm) && l2 == spec_remap_op(len, tm),
        (AmirRvalue::StrBytes { source }, AmirRvalue::StrBytes { source: s2 }) => s2 == spec_remap_op(source, tm),
        (AmirRvalue::StrView { owner }, AmirRvalue::StrView { owner: o2 }) => o2 == spec_remap_op(owner, tm),
        (AmirRvalue::Alloc(a), AmirRvalue::Alloc(b)) => b == spec_remap_op(a, tm),
        (AmirRvalue::Load(p), AmirRvalue::Load(q)) => place_remapped(p, q, tm, lm),
        (AmirRvalue::Borrow(p), AmirRvalue::Borrow(q)) => place_remapped(p, q, tm, lm),
        (AmirRvalue::BorrowMut(p), AmirRvalue::BorrowMut(q)) => place_remapped(p, q, tm, lm),
        (
            AmirRvalue::RelativeBorrow { local, mutable },
            AmirRvalue::RelativeBorrow { local: l2, mutable: m2 },
        ) => l2 == lm[local as int] && m2 == mutable,
        (
            AmirRvalue::CoroutineReady { value, payload_ty, stack },
            AmirRvalue::CoroutineReady { value: v2, payload_ty: p2, stack: s2 },
        ) => v2 == spec_remap_op(value, tm) && p2 == payload_ty && s2 == stack,
        (
            AmirRvalue::GenInsert { value, payload_ty, arena, origin },
            AmirRvalue::GenInsert { value: v2, payload_ty: p2, arena: a2, origin: o2 },
        ) => v2 == spec_remap_op(value, tm) && p2 == payload_ty && a2 == arena && o2 == origin,
        (
            AmirRvalue::GenGet { gen_ref, payload_ty, arena, origin },
            AmirRvalue::GenGet { gen_ref: g2, payload_ty: p2, arena: a2, origin: o2 },
        ) => g2 == spec_remap_op(gen_ref, tm) && p2 == payload_ty && a2 == arena && o2 == origin,
        (
            AmirRvalue::GenSet { gen_ref, value, payload_ty, arena, origin },
            AmirRvalue::GenSet { gen_ref: g2, value: v2, payload_ty: p2, arena: a2, origin: o2 },
        ) => g2 == spec_remap_op(gen_ref, tm) && v2 == spec_remap_op(value, tm) && p2 == payload_ty && a2 == arena
            && o2 == origin,
        (
            AmirRvalue::GenUpsert { gen_ref, value, payload_ty, arena, origin },
            AmirRvalue::GenUpsert { gen_ref: g2, value: v2, payload_ty: p2, arena: a2, origin: o2 },
        ) => g2 == spec_remap_op(gen_ref, tm) && v2 == spec_remap_op(value, tm) && p2 == payload_ty && a2 == arena
            && o2 == origin,
        (
            AmirRvalue::GenRemove { gen_ref, payload_ty, arena, origin },
            AmirRvalue::GenRemove { gen_ref: g2, payload_ty: p2, arena: a2, origin: o2 },
        ) => g2 == spec_remap_op(gen_ref, tm) && p2 == payload_ty && a2 == arena && o2 == origin,
        (AmirRvalue::StringInterp { parts }, AmirRvalue::StringInterp { parts: p2 }) => p2@ == spec_remap_ops(
            parts@,
            tm,
        ),
        (AmirRvalue::ToStr { value, src_ty }, AmirRvalue::ToStr { value: v2, src_ty: s2 }) => v2 == spec_remap_op(
            value,
            tm,
        ) && s2 == src_ty,
        (AmirRvalue::BlackBox { value, value_ty }, AmirRvalue::BlackBox { value: v2, value_ty: t2 }) => v2
            == spec_remap_op(value, tm) && t2 == value_ty,
        _ => false,
    }
}

/// The locals an rvalue names directly are below `nl`.
pub open spec fn rvalue_locals_below(rv: AmirRvalue, nl: nat) -> bool {
    match rv {
        AmirRvalue::Load(p) => p.local < nl,
        AmirRvalue::Borrow(p) => p.local < nl,
        AmirRvalue::BorrowMut(p) => p.local < nl,
        AmirRvalue::RelativeBorrow { local, .. } => local < nl,
        _ => true,
    }
}

/// `new` is `old` with every temp and local renamed; the borrow contract of a
/// call is carried over as a copy.
pub open spec fn stmt_remapped(old: AmirStmt, new: AmirStmt, tm: Seq<TempId>, lm: Seq<LocalId>) -> bool {
    match (old, new) {
        (AmirStmt::Assign { lhs, rhs }, AmirStmt::Assign { lhs: l2, rhs: r2 }) => l2 == tm[lhs as int]
            && rvalue_remapped(rhs, r2, tm, lm),
        (AmirStmt::Store { lhs, rhs }, AmirStmt::Store { lhs: l2, rhs: r2 }) => place_remapped(lhs, l2, tm, lm) && r2
            == spec_remap_op(rhs, tm),
        (
            AmirStmt::Call { lhs, callee, args, return_borrow },
            AmirStmt::Call { lhs: l2, callee: c2, args: a2, return_borrow: rb2 },
        ) => l2 == match lhs {
            Some(t) => Some(tm[t as int]),
            None => None,
        } && c2 == spec_remap_op(callee, tm) && a2@ == spec_remap_ops(args@, tm) && crate::amir::return_borrow_view(
            rb2,
        ) == crate::amir::return_borrow_view(return_borrow),
        (AmirStmt::Free(a), AmirStmt::Free(b)) => b == spec_remap_op(a, tm),
        (AmirStmt::Destroy(p), AmirStmt::Destroy(q)) => place_remapped(p, q, tm, lm),
        (AmirStmt::StorageLive(l), AmirStmt::StorageLive(l2)) => l2 == lm[l as int],
        (AmirStmt::StorageDead(l), AmirStmt::StorageDead(l2)) => l2 == lm[l as int],
        (AmirStmt::Nop, AmirStmt::Nop) => true,
        _ => false,
    }
}

/// The temps and locals of a statement all have an entry in the maps.
pub open spec fn stmt_mappable(s: AmirStmt, nt: nat, nl: nat) -> bool {
    &&& operands_ok(stmt_operands(s), nt)
    &&& match stmt_def(s) {
        Some(t) => t < nt,
        None => true,
    }
    &&& crate::amir::stmt_locals_ok(s, nl)
}

pub fn remap_op(op: &AmirOperand, temp_map: &Vec<TempId>) -> (r: AmirOperand)
    requires
        crate::amir::operand_ok(*op, temp_map@.len()),
    ensures
        r == spec_remap_op(*op, temp_map@),
{
    match op {
        AmirOperand::Copy(t) => AmirOperand::Copy(temp_map[*t]),
        AmirOperand::Move(t) => AmirOperand::Move(temp_map[*t]),
        AmirOperand::Constant(c) => AmirOperand::Constant(*c),
        AmirOperand::FunctionRef(s) => AmirOperand::FunctionRef(*s),
        AmirOperand::GlobalRef(s) => AmirOperand::GlobalRef(*s),
    }
}

/// Every operand of a list, renamed.
pub fn remap_ops(ops: &Vec<AmirOperand>, temp_map: &Vec<TempId>) -> (r: Vec<AmirOperand>)
    requires
        operands_ok(ops@, temp_map@.len()),
    ensures
        r@ == spec_remap_ops(ops@, temp_map@),
{
    let n = ops.len();
    let mut out: Vec<AmirOperand> = Vec::new();
    let mut i: usize = 0;
    while i < n
        invariant
            n == ops@.len(),
            i <= n,
            operands_ok(ops@, temp_map@.len()),
            out@ == spec_remap_ops(ops@.take(i as int), temp_map@),
        decreases n - i,
    {
        assert(crate::amir::operand_ok(ops@[i as int], temp_map@.len()));
        out.push(remap_op(&ops[i], temp_map));
        proof {
            assert(out@ =~= spec_remap_ops(ops@.take(i + 1), temp_map@));
        }
        i = i + 1;
    }
    proof {
        assert(ops@.take(n as int) == ops@);
    }
    out
}

pub fn remap_place(place: &AmirPlace, temp_map: &Vec<TempId>, local_map: &Vec<LocalId>) -> (r: AmirPlace)
    requires
        place.local < local_map@.len(),
        operands_ok(place_index_operands(place.projections@), temp_map@.len()),
    ensures
        place_remapped(*place, r, temp_map@, local_map@),
{
    let n = place.projections.len();
    let mut out: Vec<AmirProjection> = Vec::new();
    let mut i: usize = 0;
    while i < n
        invariant
            n == place.projections@.len(),
            i <= n,
            operands_ok(place_index_operands(place.projections@), temp_map@.len()),
            out@ == place.projections@.take(i as int).map_values(
                |p: AmirProjection| spec_remap_projection(p, temp_map@),
            ),
        decreases n - i,
    {
        let step = match &place.projections[i] {
            AmirProjection::Field(s) => AmirProjection::Field(*s),
            AmirProjection::Index(op) => {
                proof {
                    lemma_index_operand_ok(place.projections@, i as int, temp_map@.len());
                }
                AmirProjection::Index(remap_op(op, temp_map))
            },
            AmirProjection::Deref => AmirProjection::Deref,
        };
        out.push(step);
        proof {
            assert(out@ =~= place.projections@.take(i + 1).map_values(
                |p: AmirProjection| spec_remap_projection(p, temp_map@),
            ));
        }
        i = i + 1;
    }
    proof {
        assert(place.projections@.take(n as int) == place.projections@);
    }
    AmirPlace { local: local_map[place.local], projections: out }
}

proof fn lemma_index_operand_ok(projs: Seq<AmirProjection>, i: int, nt: nat)
    requires
        0 <= i < projs.len(),
        operands_ok(place_index_operands(projs), nt),
    ensures
        projs[i] matches AmirProjection::Index(op) ==> crate::amir::operand_ok(op, nt),
    decreases projs.len(),
{
    let rest = place_index_operands(projs.drop_last());
    assert(operands_ok(rest, nt)) by {
        assert forall|k: int| 0 <= k < rest.len() implies crate::amir::operand_ok(#[trigger] rest[k], nt) by {
            assert(place_index_operands(projs)[k] == rest[k]);
        }
    }
    if i < projs.len() - 1 {
        assert(projs.drop_last()[i] == projs[i]);
        lemma_index_operand_ok(projs.drop_last(), i, nt);
    } else {
        match projs[i] {
            AmirProjection::Index(op) => {
                assert(place_index_operands(projs)[rest.len() as int] == op);
            },
            _ => {},
        }
    }
}

fn remap_fields(fields: &Vec<(Vec<u8>, AmirOperand)>, temp_map: &Vec<TempId>) -> (r: Vec<(Vec<u8>, AmirOperand)>)
    requires
        operands_ok(fields@.map_values(|f: (Vec<u8>, AmirOperand)| f.1), temp_map@.len()),
    ensures
        fields_remapped(fields@, r@, temp_map@),
{
    let n = fields.len();
    let mut out: Vec<(Vec<u8>, AmirOperand)> = Vec::new();
    let mut i: usize = 0;
    while i < n
        invariant
            n == fields@.len(),
            i <= n,
            operands_ok(fields@.map_values(|f: (Vec<u8>, AmirOperand)| f.1), temp_map@.len()),
            out@.len() == i,
            forall|k: int|
                0 <= k < i ==> (#[trigger] out@[k]).0@ == fields@[k].0@ && out@[k].1 == spec_remap_op(
                    fields@[k].1,
                    temp_map@,
                ),
        decreases n - i,
    {
        assert(crate::amir::operand_ok(fields@.map_values(|f: (Vec<u8>, AmirOperand)| f.1)[i as int], temp_map@.len()));
        let name = crate::amir::copy_bytes(&fields[i].0);
        out.push((name, remap_op(&fields[i].1, temp_map)));
        i = i + 1;
    }
    out
}

proof fn lemma_ops_ok_parts(ops: Seq<AmirOperand>, nt: nat)
    requires
        operands_ok(ops, nt),
    ensures
        forall|i: int| 0 <= i < ops.len() ==> crate::amir::operand_ok(#[trigger] ops[i], nt),
{
}

pub fn remap_rvalue(rv: &AmirRvalue, temp_map: &Vec<TempId>, local_map: &Vec<LocalId>) -> (r: AmirRvalue)
    requires
        operands_ok(rvalue_operands(*rv), temp_map@.len()),
        rvalue_locals_below(*rv, local_map@.len()),
    ensures
        rvalue_remapped(*rv, r, temp_map@, local_map@),
{
    let ghost ops = rvalue_operands(*rv);
    proof {
        lemma_ops_ok_parts(ops, temp_map@.len());
    }
    match rv {
        AmirRvalue::Use(op) => {
            assert(ops[0] == *op);
            AmirRvalue::Use(remap_op(op, temp_map))
        },
        AmirRvalue::Binary { op, left, right } => {
            assert(ops[0] == *left && ops[1] == *right);
            AmirRvalue::Binary { op: *op, left: remap_op(left, temp_map), right: remap_op(right, temp_map) }
        },
        AmirRvalue::Unary { op, operand } => {
            assert(ops[0] == *operand);
            AmirRvalue::Unary { op: *op, operand: remap_op(operand, temp_map) }
        },
        AmirRvalue::FieldAccess { base, field } => {
            assert(ops[0] == *base);
            AmirRvalue::FieldAccess { base: remap_op(base, temp_map), field: *field }
        },
        AmirRvalue::StructLiteral { struct_symbol, fields } => AmirRvalue::StructLiteral {
            struct_symbol: *struct_symbol,
            fields: remap_fields(fields, temp_map),
        },
        AmirRvalue::IndexAccess { base, index } => {
            assert(ops[0] == *base && ops[1] == *index);
            AmirRvalue::IndexAccess { base: remap_op(base, temp_map), index: remap_op(index, temp_map) }
        },
        AmirRvalue::Array { items } => AmirRvalue::Array { items: remap_ops(items, temp_map) },
        AmirRvalue::Tuple { items } => AmirRvalue::Tuple { items: remap_ops(items, temp_map) },
        AmirRvalue::Discriminant { value } => {
            assert(ops[0] == *value);
            AmirRvalue::Discriminant { value: remap_op(value, temp_map) }
        },
        AmirRvalue::EnumPayload { value, variant, index } => {
            assert(ops[0] == *value);
            AmirRvalue::EnumPayload { value: remap_op(value, temp_map), variant: *variant, index: *index }
        },
        AmirRvalue::EnumConstruct { variant_tag, payload } => {
            let p2 = match payload {
                Some(p) => {
                    assert(ops[0] == *p);
                    Some(remap_op(p, temp_map))
                },
                None => None,
            };
            AmirRvalue::EnumConstruct { variant_tag: *variant_tag, payload: p2 }
        },
        AmirRvalue::Len(op) => {
            assert(ops[0] == *op);
            AmirRvalue::Len(remap_op(op, temp_map))
        },
        AmirRvalue::SliceData(op) => {
            assert(ops[0] == *op);
            AmirRvalue::SliceData(remap_op(op, temp_map))
        },
        AmirRvalue::SliceView { owner, data, len } => {
            assert(ops[0] == *owner && ops[1] == *data && ops[2] == *len);
            AmirRvalue::SliceView {
                owner: remap_op(owner, temp_map),
                data: remap_op(data, temp_map),
                len: remap_op(len, temp_map),
            }
        },
        AmirRvalue::SliceSubslice { slice, start, len } => {
            assert(ops[0] == *slice && ops[1] == *start && ops[2] == *len);
            AmirRvalue::SliceSubslice {
                slice: remap_op(slice, temp_map),
                start: remap_op(start, temp_map),
                len: remap_op(len, temp_map),
            }
        },
        AmirRvalue::StrBytes { source } => {
            assert(ops[0] == *source);
            AmirRvalue::StrBytes { source: remap_op(source, temp_map) }
        },
        AmirRvalue::StrView { owner } => {
            assert(ops[0] == *owner);
            AmirRvalue::StrView { owner: remap_op(owner, temp_map) }
        },
        AmirRvalue::Alloc(op) => {
            assert(ops[0] == *op);
            AmirRvalue::Alloc(remap_op(op, temp_map))
        },
        AmirRvalue::Load(place) => AmirRvalue::Load(remap_place(place, temp_map, local_map)),
        AmirRvalue::Borrow(place) => AmirRvalue::Borrow(remap_place(place, temp_map, local_map)),
        AmirRvalue::BorrowMut(place) => AmirRvalue::BorrowMut(remap_place(place, temp_map, local_map)),
        AmirRvalue::RelativeBorrow { local, mutable } => AmirRvalue::RelativeBorrow {
            local: local_map[*local],
            mutable: *mutable,
        },
        AmirRvalue::CoroutineReady { value, payload_ty, stack } => {
            assert(ops[0] == *value);
            AmirRvalue::CoroutineReady { value: remap_op(value, temp_map), payload_ty: *payload_ty, stack: *stack }
        },
        AmirRvalue::GenInsert { value, payload_ty, arena, origin } => {
            assert(ops[0] == *value);
            AmirRvalue::GenInsert {
                value: remap_op(value, temp_map),
                payload_ty: *payload_ty,
                arena: *arena,
                origin: *origin,
            }
        },
        AmirRvalue::GenGet { gen_ref, payload_ty, arena, origin } => {
            assert(ops[0] == *gen_ref);
            AmirRvalue::GenGet {
                gen_ref: remap_op(gen_ref, temp_map),
                payload_ty: *payload_ty,
                arena: *arena,
                origin: *origin,
            }
        },
        AmirRvalue::GenSet { gen_ref, value, payload_ty, arena, origin } => {
            assert(ops[0] == *gen_ref && ops[1] == *value);
            AmirRvalue::GenSet {
                gen_ref: remap_op(gen_ref, temp_map),
                value: remap_op(value, temp_map),
                payload_ty: *payload_ty,
                arena: *arena,
                origin: *origin,
            }
        },
        AmirRvalue::GenUpsert { gen_ref, value, payload_ty, arena, origin } => {
            assert(ops[0] == *gen_ref && ops[1] == *value);
            AmirRvalue::GenUpsert {
                gen_ref: remap_op(gen_ref, temp_map),
                value: remap_op(value, temp_map),
                payload_ty: *payload_ty,
                arena: *arena,
                origin: *origin,
            }
        },
        AmirRvalue::GenRemove { gen_ref, payload_ty, arena, origin } => {
            assert(ops[0] == *gen_ref);
            AmirRvalue::GenRemove {
                gen_ref: remap_op(gen_ref, temp_map),
                payload_ty: *payload_ty,
                arena: *arena,
                origin: *origin,
            }
        },
        AmirRvalue::StringInterp { parts } => AmirRvalue::StringInterp { parts: remap_ops(parts, temp_map) },
        AmirRvalue::ToStr { value, src_ty } => {
            assert(ops[0] == *value);
            AmirRvalue::ToStr { value: remap_op(value, temp_map), src_ty: *src_ty }
        },
        AmirRvalue::BlackBox { value, value_ty } => {
            assert(ops[0] == *value);
            AmirRvalue::BlackBox { value: remap_op(value, temp_map), value_ty: *value_ty }
        },
    }
}

pub fn remap_stmt(stmt: &AmirStmt, temp_map: &Vec<TempId>, local_map: &Vec<LocalId>) -> (r: AmirStmt)
    requires
        stmt_mappable(*stmt, temp_map@.len(), local_map@.len()),
    ensures
        stmt_remapped(*stmt, r, temp_map@, local_map@),
{
    let ghost ops = stmt_operands(*stmt);
    proof {
        lemma_ops_ok_parts(ops, temp_map@.len());
    }
    match stmt {
        AmirStmt::Assign { lhs, rhs } => {
            assert(ops == rvalue_operands(*rhs));
            AmirStmt::Assign { lhs: temp_map[*lhs], rhs: remap_rvalue(rhs, temp_map, local_map) }
        },
        AmirStmt::Store { lhs, rhs } => {
            let ghost idx = place_index_operands(lhs.projections@);
            assert(ops[0] == *rhs);
            assert(operands_ok(idx, temp_map@.len())) by {
                assert forall|k: int| 0 <= k < idx.len() implies crate::amir::operand_ok(#[trigger] idx[k], temp_map@.len()) by {
                    assert(ops[k + 1] == idx[k]);
                }
            }
            AmirStmt::Store { lhs: remap_place(lhs, temp_map, local_map), rhs: remap_op(rhs, temp_map) }
        },
        AmirStmt::Call { lhs, callee, args, return_borrow } => {
            assert(ops[0] == *callee);
            assert(operands_ok(args@, temp_map@.len())) by {
                assert forall|k: int| 0 <= k < args@.len() implies crate::amir::operand_ok(#[trigger] args@[k], temp_map@.len()) by {
                    assert(ops[k + 1] == args@[k]);
                }
            }
            let l2 = match lhs {
                Some(t) => Some(temp_map[*t]),
                None => None,
            };
            AmirStmt::Call {
                lhs: l2,
                callee: remap_op(callee, temp_map),
                args: remap_ops(args, temp_map),
                return_borrow: crate::amir::copy_return_borrow(return_borrow),
            }
        },
        AmirStmt::Free(op) => {
            assert(ops[0] == *op);
            AmirStmt::Free(remap_op(op, temp_map))
        },
        AmirStmt::StorageLive(l) => AmirStmt::StorageLive(local_map[*l]),
        AmirStmt::StorageDead(l) => AmirStmt::StorageDead(local_map[*l]),
        AmirStmt::Destroy(p) => AmirStmt::Destroy(remap_place(p, temp_map, local_map)),
        AmirStmt::Nop => AmirStmt::Nop,
    }
}

/// `new` is `old` with temps renamed through `tm` and target blocks through
/// `bm`; a `Return` becomes a jump to `ret` when one is given.
pub open spec fn terminator_remapped(
    old: AmirTerminator,
    new: AmirTerminator,
    tm: Seq<TempId>,
    bm: Seq<BlockId>,
    ret: Option<BlockId>,
) -> bool {
    match (old, new) {
        (AmirTerminator::Goto { target, args }, AmirTerminator::Goto { target: t2, args: a2 }) => t2
            == bm[target as int] && a2@ == spec_remap_ops(args@, tm),
        (
            AmirTerminator::Branch { condition, if_true, true_args, if_false, false_args },
            AmirTerminator::Branch {
                condition: c2,
                if_true: t2,
                true_args: ta2,
                if_false: f2,
                false_args: fa2,
            },
        ) => c2 == spec_remap_op(condition, tm) && t2 == bm[if_true as int] && ta2@ == spec_remap_ops(true_args@, tm)
            && f2 == bm[if_false as int] && fa2@ == spec_remap_ops(false_args@, tm),
        (
            AmirTerminator::SwitchInt { discriminant, targets, otherwise },
            AmirTerminator::SwitchInt { discriminant: d2, targets: ts2, otherwise: o2 },
        ) => {
            &&& d2 == spec_remap_op(discriminant, tm)
            &&& ts2@.len() == targets@.len()
            &&& forall|k: int|
                0 <= k < targets@.len() ==> (#[trigger] ts2@[k]).value == targets@[k].value && ts2@[k].target
                    == bm[targets@[k].target as int] && ts2@[k].args@ == spec_remap_ops(targets@[k].args@, tm)
            &&& o2.target == bm[otherwise.target as int]
            &&& o2.args@ == spec_remap_ops(otherwise.args@, tm)
        },
        (
            AmirTerminator::Suspend { future, resume, args },
            AmirTerminator::Suspend { future: f2, resume: r2, args: a2 },
        ) => f2 == spec_remap_op(future, tm) && r2 == bm[resume as int] && a2@ == spec_remap_ops(args@, tm),
        (AmirTerminator::Return, AmirTerminator::Return) => ret is None,
        (AmirTerminator::Return, AmirTerminator::Goto { target, args }) => ret == Some(target) && args@.len() == 0,
        (AmirTerminator::Unreachable, AmirTerminator::Unreachable) => true,
        _ => false,
    }
}

/// The jump arguments of one switch arm are among those of all arms.
pub proof fn lemma_switch_args_parts(targets: Seq<SwitchTarget>, k: int, nt: nat)
    requires
        0 <= k < targets.len(),
        operands_ok(switch_args(targets), nt),
    ensures
        operands_ok(targets[k].args@, nt),
    decreases targets.len(),
{
    let front = switch_args(targets.drop_last());
    assert(switch_args(targets) == front + targets.last().args@);
    if k < targets.len() - 1 {
        assert(operands_ok(front, nt)) by {
            assert forall|i: int| 0 <= i < front.len() implies crate::amir::operand_ok(#[trigger] front[i], nt) by {
                assert(switch_args(targets)[i] == front[i]);
            }
        }
        assert(targets.drop_last()[k] == targets[k]);
        lemma_switch_args_parts(targets.drop_last(), k, nt);
    } else {
        assert forall|i: int| 0 <= i < targets[k].args@.len() implies crate::amir::operand_ok(
            #[trigger] targets[k].args@[i],
            nt,
        ) by {
            assert(switch_args(targets)[front.len() + i] == targets[k].args@[i]);
        }
    }
}

fn remap_switch_targets(targets: &Vec<SwitchTarget>, temp_map: &Vec<TempId>, block_map: &Vec<BlockId>) -> (r: Vec<
    SwitchTarget,
>)
    requires
        operands_ok(switch_args(targets@), temp_map@.len()),
        forall|k: int| 0 <= k < targets@.len() ==> (#[trigger] targets@[k]).target < block_map@.len(),
    ensures
        r@.len() == targets@.len(),
        forall|k: int|
            0 <= k < targets@.len() ==> (#[trigger] r@[k]).value == targets@[k].value && r@[k].target
                == block_map@[targets@[k].target as int] && r@[k].args@ == spec_remap_ops(targets@[k].args@, temp_map@),
{
    let n = targets.len();
    let mut out: Vec<SwitchTarget> = Vec::new();
    let mut i: usize = 0;
    while i < n
        invariant
            n == targets@.len(),
            i <= n,
            operands_ok(switch_args(targets@), temp_map@.len()),
            forall|k: int| 0 <= k < targets@.len() ==> (#[trigger] targets@[k]).target < block_map@.len(),
            out@.len() == i,
            forall|k: int|
                0 <= k < i ==> (#[trigger] out@[k]).value == targets@[k].value && out@[k].target
                    == block_map@[targets@[k].target as int] && out@[k].args@ == spec_remap_ops(
                    targets@[k].args@,
                    temp_map@,
                ),
        decreases n - i,
    {
        proof {
            lemma_switch_args_parts(targets@, i as int, temp_map@.len());
        }
        let t = &targets[i];
        let args = remap_ops(&t.args, temp_map);
        out.push(SwitchTarget { value: t.value, target: block_map[t.target], args });
        i = i + 1;
    }
    out
}

/// Renames the temps and target blocks of a terminator; a `Return` becomes a
/// jump to `ret` when one is given.
pub fn remap_terminator(
    t: &AmirTerminator,
    temp_map: &Vec<TempId>,
    block_map: &Vec<BlockId>,
    ret: Option<BlockId>,
) -> (r: AmirTerminator)
    requires
        operands_ok(terminator_operands(*t), temp_map@.len()),
        targets_in_range(*t, block_map@.len()),
    ensures
        terminator_remapped(*t, r, temp_map@, block_map@, ret),
{
    let ghost ops = terminator_operands(*t);
    proof {
        lemma_ops_ok_parts(ops, temp_map@.len());
    }
    match t {
        AmirTerminator::Goto { target, args } => {
            assert(terminator_targets(*t)[0] == *target);
            AmirTerminator::Goto { target: block_map[*target], args: remap_ops(args, temp_map) }
        },
        AmirTerminator::Branch { condition, if_true, true_args, if_false, false_args } => {
            assert(terminator_targets(*t)[0] == *if_true);
            assert(terminator_targets(*t)[1] == *if_false);
            assert(ops[0] == *condition);
            assert(operands_ok(true_args@, temp_map@.len())) by {
                assert forall|k: int| 0 <= k < true_args@.len() implies crate::amir::operand_ok(
                    #[trigger] true_args@[k],
                    temp_map@.len(),
                ) by {
                    assert(ops[k + 1] == true_args@[k]);
                }
            }
            assert(operands_ok(false_args@, temp_map@.len())) by {
                assert forall|k: int| 0 <= k < false_args@.len() implies crate::amir::operand_ok(
                    #[trigger] false_args@[k],
                    temp_map@.len(),
                ) by {
                    assert(ops[k + 1 + true_args@.len()] == false_args@[k]);
                }
            }
            AmirTerminator::Branch {
                condition: remap_op(condition, temp_map),
                if_true: block_map[*if_true],
                true_args: remap_ops(true_args, temp_map),
                if_false: block_map[*if_false],
                false_args: remap_ops(false_args, temp_map),
            }
        },
        AmirTerminator::SwitchInt { discriminant, targets, otherwise } => {
            let ghost sa = switch_args(targets@);
            assert(ops[0] == *discriminant);
            assert(operands_ok(sa, temp_map@.len())) by {
                assert forall|k: int| 0 <= k < sa.len() implies crate::amir::operand_ok(#[trigger] sa[k], temp_map@.len()) by {
                    assert(ops[k + 1] == sa[k]);
                }
            }
            assert(operands_ok(otherwise.args@, temp_map@.len())) by {
                assert forall|k: int| 0 <= k < otherwise.args@.len() implies crate::amir::operand_ok(
                    #[trigger] otherwise.args@[k],
                    temp_map@.len(),
                ) by {
                    assert(ops[k + 1 + sa.len()] == otherwise.args@[k]);
                }
            }
            assert forall|k: int| 0 <= k < targets@.len() implies (#[trigger] targets@[k]).target < block_map@.len() by {
                assert(terminator_targets(*t)[k] == targets@[k].target);
            }
            assert(terminator_targets(*t)[targets@.len() as int] == otherwise.target);
            let ts = remap_switch_targets(targets, temp_map, block_map);
            AmirTerminator::SwitchInt {
                discriminant: remap_op(discriminant, temp_map),
                targets: ts,
                otherwise: SwitchOtherwise {
                    target: block_map[otherwise.target],
                    args: remap_ops(&otherwise.args, temp_map),
                },
            }
        },
        AmirTerminator::Suspend { future, resume, args } => {
            assert(terminator_targets(*t)[0] == *resume);
            assert(ops[0] == *future);
            assert(operands_ok(args@, temp_map@.len())) by {
                assert forall|k: int| 0 <= k < args@.len() implies crate::amir::operand_ok(#[trigger] args@[k], temp_map@.len()) by {
                    assert(ops[k + 1] == args@[k]);
                }
            }
            AmirTerminator::Suspend {
                future: remap_op(future, temp_map),
                resume: block_map[*resume],
                args: remap_ops(args, temp_map),
            }
        },
        AmirTerminator::Return => match ret {
            Some(b) => AmirTerminator::Goto { target: b, args: Vec::new() },
            None => AmirTerminator::Return,
        },
        AmirTerminator::Unreachable => AmirTerminator::Unreachable,
    }
}


/// The targets of a renamed terminator are renamed targets, and a `Return`
/// sent to `ret` targets `ret`: all of them stay below `n` when the block
/// map and `ret` do.
pub proof fn lemma_remapped_targets(
    t: AmirTerminator,
    r: AmirTerminator,
    tm: Seq<TempId>,
    bm: Seq<BlockId>,
    ret: Option<BlockId>,
    n: nat,
)
    requires
        terminator_remapped(t, r, tm, bm, ret),
        targets_in_range(t, bm.len()),
        forall|i: int| 0 <= i < bm.len() ==> #[trigger] bm[i] < n,
        ret matches Some(x) ==> x < n,
    ensures
        targets_in_range(r, n),
{
    match (t, r) {
        (
            AmirTerminator::SwitchInt { discriminant, targets, otherwise },
            AmirTerminator::SwitchInt { discriminant: d2, targets: ts2, otherwise: o2 },
        ) => {
            let a = targets@.map_values(|s: SwitchTarget| s.target);
            let b = ts2@.map_values(|s: SwitchTarget| s.target);
            assert forall|i: int| 0 <= i < terminator_targets(r).len() implies #[trigger] terminator_targets(r)[i]
                < n by {
                if i < b.len() {
                    assert(terminator_targets(r)[i] == b[i]);
                    assert(terminator_targets(t)[i] == a[i]);
                    assert(a[i] < bm.len());
                } else {
                    assert(terminator_targets(t)[i] == otherwise.target);
                }
            }
        },
        (AmirTerminator::Goto { target, .. }, AmirTerminator::Goto { target: t2, .. }) => {
            assert(terminator_targets(t)[0] == target);
            assert(terminator_targets(r)[0] == t2);
        },
        (AmirTerminator::Branch { if_true, if_false, .. }, AmirTerminator::Branch { if_true: a2, if_false: b2, .. }) => {
            assert(terminator_targets(t)[0] == if_true);
            assert(terminator_targets(t)[1] == if_false);
            assert(terminator_targets(r)[0] == a2);
            assert(terminator_targets(r)[1] == b2);
        },
        (AmirTerminator::Suspend { resume, .. }, AmirTerminator::Suspend { resume: r2, .. }) => {
            assert(terminator_targets(t)[0] == resume);
            assert(terminator_targets(r)[0] == r2);
        },
        (AmirTerminator::Return, AmirTerminator::Goto { target, .. }) => {
            assert(terminator_targets(r)[0] == target);
        },
        _ => {},
    }
}


/// Renaming commutes with collecting the index operands of a place.
pub proof fn lemma_remap_index_operands(projs: Seq<AmirProjection>, tm: Seq<TempId>)
    ensures
        place_index_operands(projs.map_values(|p: AmirProjection| spec_remap_projection(p, tm)))
            == spec_remap_ops(place_index_operands(projs), tm),
    decreases projs.len(),
{
    let m = projs.map_values(|p: AmirProjection| spec_remap_projection(p, tm));
    if projs.len() > 0 {
        let front = projs.drop_last();
        lemma_remap_index_operands(front, tm);
        assert(m.drop_last() =~= front.map_values(|p: AmirProjection| spec_remap_projection(p, tm)));
        let rest = place_index_operands(front);
        match projs.last() {
            AmirProjection::Index(op) => {
                assert(spec_remap_ops(rest.push(op), tm) =~= spec_remap_ops(rest, tm).push(spec_remap_op(op, tm)));
            },
            _ => {},
        }
    } else {
        assert(spec_remap_ops(place_index_operands(projs), tm) =~= Seq::<AmirOperand>::empty());
    }
}

/// Renaming commutes with collecting the jump arguments of switch arms.
pub proof fn lemma_remap_switch_args(targets: Seq<SwitchTarget>, new: Seq<SwitchTarget>, tm: Seq<TempId>)
    requires
        new.len() == targets.len(),
        forall|k: int| 0 <= k < targets.len() ==> (#[trigger] new[k]).args@ == spec_remap_ops(targets[k].args@, tm),
    ensures
        switch_args(new) == spec_remap_ops(switch_args(targets), tm),
    decreases targets.len(),
{
    if targets.len() > 0 {
        lemma_remap_switch_args(targets.drop_last(), new.drop_last(), tm);
        let a = switch_args(targets.drop_last());
        let b = targets.last().args@;
        assert(new.last() == new[new.len() - 1]);
        assert(spec_remap_ops(a + b, tm) =~= spec_remap_ops(a, tm) + spec_remap_ops(b, tm));
    } else {
        assert(spec_remap_ops(switch_args(targets), tm) =~= Seq::<AmirOperand>::empty());
    }
}

/// Renaming a concatenation renames each part.
proof fn lemma_remap_ops_concat(a: Seq<AmirOperand>, b: Seq<AmirOperand>, tm: Seq<TempId>)
    ensures
        spec_remap_ops(a + b, tm) == spec_remap_ops(a, tm) + spec_remap_ops(b, tm),
{
    assert(spec_remap_ops(a + b, tm) =~= spec_remap_ops(a, tm) + spec_remap_ops(b, tm));
}

/// The operands of a renamed rvalue are the renamed operands.
pub proof fn lemma_remapped_rvalue_operands(rv: AmirRvalue, r: AmirRvalue, tm: Seq<TempId>, lm: Seq<LocalId>)
    requires
        rvalue_remapped(rv, r, tm, lm),
    ensures
        rvalue_operands(r) == spec_remap_ops(rvalue_operands(rv), tm),
{
    let ops = rvalue_operands(rv);
    match (rv, r) {
        (AmirRvalue::StructLiteral { fields, .. }, AmirRvalue::StructLiteral { fields: f2, .. }) => {
            assert(rvalue_operands(r) =~= spec_remap_ops(ops, tm));
        },
        (AmirRvalue::Array { .. }, _) => {},
        (AmirRvalue::Tuple { .. }, _) => {},
        (AmirRvalue::StringInterp { .. }, _) => {},
        (AmirRvalue::Load(p), AmirRvalue::Load(q)) => {
            lemma_remap_index_operands(p.projections@, tm);
        },
        (AmirRvalue::Borrow(p), AmirRvalue::Borrow(q)) => {
            lemma_remap_index_operands(p.projections@, tm);
        },
        (AmirRvalue::BorrowMut(p), AmirRvalue::BorrowMut(q)) => {
            lemma_remap_index_operands(p.projections@, tm);
        },
        _ => {
            assert(rvalue_operands(r) =~= spec_remap_ops(ops, tm));
        },
    }
}

/// The operands of a renamed statement are the renamed operands.
pub proof fn lemma_remapped_stmt_operands(s: AmirStmt, r: AmirStmt, tm: Seq<TempId>, lm: Seq<LocalId>)
    requires
        stmt_remapped(s, r, tm, lm),
    ensures
        stmt_operands(r) == spec_remap_ops(stmt_operands(s), tm),
{
    match (s, r) {
        (AmirStmt::Assign { rhs, .. }, AmirStmt::Assign { rhs: r2, .. }) => {
            lemma_remapped_rvalue_operands(rhs, r2, tm, lm);
        },
        (AmirStmt::Store { lhs, rhs }, AmirStmt::Store { lhs: l2, rhs: r2 }) => {
            lemma_remap_index_operands(lhs.projections@, tm);
            lemma_remap_ops_concat(seq![rhs], place_index_operands(lhs.projections@), tm);
            assert(spec_remap_ops(seq![rhs], tm) =~= seq![r2]);
        },
        (AmirStmt::Call { callee, args, .. }, AmirStmt::Call { callee: c2, args: a2, .. }) => {
            lemma_remap_ops_concat(seq![callee], args@, tm);
            assert(spec_remap_ops(seq![callee], tm) =~= seq![c2]);
        },
        (AmirStmt::Free(a), AmirStmt::Free(b)) => {
            assert(spec_remap_ops(seq![a], tm) =~= seq![b]);
        },
        (AmirStmt::Destroy(p), AmirStmt::Destroy(q)) => {
            lemma_remap_index_operands(p.projections@, tm);
        },
        _ => {
            assert(spec_remap_ops(stmt_operands(s), tm) =~= Seq::<AmirOperand>::empty());
        },
    }
}

/// The operands of a renamed terminator are the renamed operands.
pub proof fn lemma_remapped_terminator_operands(
    t: AmirTerminator,
    r: AmirTerminator,
    tm: Seq<TempId>,
    bm: Seq<BlockId>,
    ret: Option<BlockId>,
)
    requires
        terminator_remapped(t, r, tm, bm, ret),
    ensures
        terminator_operands(r) == spec_remap_ops(terminator_operands(t), tm),
{
    match (t, r) {
        (
            AmirTerminator::Branch { condition, true_args, false_args, .. },
            AmirTerminator::Branch { condition: c2, true_args: ta2, false_args: fa2, .. },
        ) => {
            lemma_remap_ops_concat(seq![condition] + true_args@, false_args@, tm);
            lemma_remap_ops_concat(seq![condition], true_args@, tm);
            assert(spec_remap_ops(seq![condition], tm) =~= seq![c2]);
        },
        (
            AmirTerminator::SwitchInt { discriminant, targets, otherwise },
            AmirTerminator::SwitchInt { discriminant: d2, targets: ts2, otherwise: o2 },
        ) => {
            lemma_remap_switch_args(targets@, ts2@, tm);
            lemma_remap_ops_concat(seq![discriminant] + switch_args(targets@), otherwise.args@, tm);
            lemma_remap_ops_concat(seq![discriminant], switch_args(targets@), tm);
            assert(spec_remap_ops(seq![discriminant], tm) =~= seq![d2]);
        },
        (
            AmirTerminator::Suspend { future, args, .. },
            AmirTerminator::Suspend { future: f2, args: a2, .. },
        ) => {
            lemma_remap_ops_concat(seq![future], args@, tm);
            assert(spec_remap_ops(seq![future], tm) =~= seq![f2]);
        },
        (AmirTerminator::Goto { .. }, _) => {},
        _ => {
            assert(terminator_operands(r) =~= spec_remap_ops(terminator_operands(t), tm));
        },
    }
}

/// Renamed operands are valid below `n` when the map's values are.
pub proof fn lemma_remapped_ops_ok(ops: Seq<AmirOperand>, tm: Seq<TempId>, n: nat)
    requires
        operands_ok(ops, tm.len()),
        forall|i: int| 0 <= i < tm.len() ==> #[trigger] tm[i] < n,
    ensures
        operands_ok(spec_remap_ops(ops, tm), n),
{
    let m = spec_remap_ops(ops, tm);
    assert forall|i: int| 0 <= i < m.len() implies crate::amir::operand_ok(#[trigger] m[i], n) by {
        assert(crate::amir::operand_ok(ops[i], tm.len()));
        match ops[i] {
            AmirOperand::Copy(t) => {
                assert(tm[t as int] < n);
            },
            AmirOperand::Move(t) => {
                assert(tm[t as int] < n);
            },
            _ => {},
        }
    }
}

/// A renamed statement is valid below `nt` temps and `nl` locals when the
/// maps' values are.
pub proof fn lemma_remapped_stmt_ok(s: AmirStmt, r: AmirStmt, tm: Seq<TempId>, lm: Seq<LocalId>, nt: nat, nl: nat)
    requires
        stmt_remapped(s, r, tm, lm),
        stmt_mappable(s, tm.len(), lm.len()),
        forall|i: int| 0 <= i < tm.len() ==> #[trigger] tm[i] < nt,
        forall|i: int| 0 <= i < lm.len() ==> #[trigger] lm[i] < nl,
    ensures
        crate::amir::stmt_ok(r, nt, nl),
{
    lemma_remapped_stmt_operands(s, r, tm, lm);
    lemma_remapped_ops_ok(stmt_operands(s), tm, nt);
    match (s, r) {
        (AmirStmt::Assign { lhs, rhs }, AmirStmt::Assign { lhs: l2, rhs: r2 }) => {
            assert(tm[lhs as int] < nt);
            match (rhs, r2) {
                (AmirRvalue::Load(p), AmirRvalue::Load(q)) => {
                    assert(lm[p.local as int] < nl);
                },
                (AmirRvalue::Borrow(p), AmirRvalue::Borrow(q)) => {
                    assert(lm[p.local as int] < nl);
                },
                (AmirRvalue::BorrowMut(p), AmirRvalue::BorrowMut(q)) => {
                    assert(lm[p.local as int] < nl);
                },
                (AmirRvalue::RelativeBorrow { local, .. }, AmirRvalue::RelativeBorrow { local: l3, .. }) => {
                    assert(lm[local as int] < nl);
                },
                _ => {},
            }
        },
        (AmirStmt::Store { lhs, .. }, AmirStmt::Store { .. }) => {
            assert(lm[lhs.local as int] < nl);
        },
        (AmirStmt::Call { lhs, .. }, AmirStmt::Call { .. }) => {
            if let Some(t) = lhs {
                assert(tm[t as int] < nt);
            }
        },
        (AmirStmt::Destroy(p), AmirStmt::Destroy(q)) => {
            assert(lm[p.local as int] < nl);
        },
        (AmirStmt::StorageLive(l), AmirStmt::StorageLive(l2)) => {
            assert(lm[l as int] < nl);
        },
        (AmirStmt::StorageDead(l), AmirStmt::StorageDead(l2)) => {
            assert(lm[l as int] < nl);
        },
        _ => {},
    }
}

} // verus!
