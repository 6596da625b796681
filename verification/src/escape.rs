//! Escape events: references derived from stack locals that leave the
//! static borrow window of their function, and the facts about AMIR that
//! classify them.

use vstd::prelude::*;
use crate::amir::{
    AmirFunc, AmirOperand, AmirPlace, AmirRvalue, AmirStmt, BlockId, BorrowPath, LocalId, ReturnBorrowSummary,
    Span, SymbolId, TempId,
};
use crate::diagnostics::{DiagCode, Diagnostic, Severity, decimal, push_decimal};
use crate::sccp::{covered, covered_prefix};

verus! {

/// How a reference escapes the current function's static window.
#[derive(Clone, Copy, Debug, PartialEq, Eq, Structural)]
pub enum EscapeKind {
    /// Returning a reference derived from a stack local.
    Return,
    /// Storing a stack-derived reference into memory that outlives the frame.
    HeapStore,
}

#[derive(Clone, Debug)]
pub struct EscapeEvent {
    pub kind: EscapeKind,
    pub place_local: LocalId,
    pub span: Span,
    pub block: BlockId,
    /// Human-readable reason, for explanations.
    pub reason: &'static str,
}

/// `t` holds the function's return value: temp `_0` or the first parameter.
pub open spec fn spec_is_return_temp(t: TempId, func: AmirFunc) -> bool {
    t == 0 || (func.params@.len() > 0 && func.params@[0] == t)
}

pub fn is_return_temp(t: TempId, func: &AmirFunc) -> (b: bool)
    ensures
        b == spec_is_return_temp(t, *func),
{
    t == 0 || (func.params.len() > 0 && func.params[0] == t)
}

/// The stack local a temp operand's reference was derived from, if known.
pub open spec fn spec_operand_stack_place(op: AmirOperand, temp_to_place: Seq<Option<LocalId>>) -> Option<
    LocalId,
> {
    match op {
        AmirOperand::Copy(t) => if t < temp_to_place.len() {
            temp_to_place[t as int]
        } else {
            None
        },
        AmirOperand::Move(t) => if t < temp_to_place.len() {
            temp_to_place[t as int]
        } else {
            None
        },
        _ => None,
    }
}

pub fn operand_stack_place(op: &AmirOperand, temp_to_place: &Vec<Option<LocalId>>) -> (r: Option<LocalId>)
    ensures
        r == spec_operand_stack_place(*op, temp_to_place@),
{
    match op {
        AmirOperand::Copy(t) => if *t < temp_to_place.len() {
            temp_to_place[*t]
        } else {
            None
        },
        AmirOperand::Move(t) => if *t < temp_to_place.len() {
            temp_to_place[*t]
        } else {
            None
        },
        _ => None,
    }
}

/// A return escape is declared when the exported borrow contract names the
/// escaping local as a source parameter.
pub open spec fn spec_return_escape_is_declared(kind: EscapeKind, place_local: LocalId, summary: Option<
    ReturnBorrowSummary,
>) -> bool {
    kind == EscapeKind::Return && match summary {
        Some(s) => names_source(s, place_local),
        None => false,
    }
}

/// The contract names `local` as a source parameter of some dependency.
pub open spec fn names_source(s: ReturnBorrowSummary, local: LocalId) -> bool {
    exists|d: int, k: int|
        0 <= d < s.dependencies@.len() && 0 <= k < s.dependencies@[d].sources@.len()
            && #[trigger] s.dependencies@[d].sources@[k].parameter_index == local
}

fn summary_names_source(s: &ReturnBorrowSummary, local: LocalId) -> (b: bool)
    ensures
        b == names_source(*s, local),
{
    let nd = s.dependencies.len();
    let mut d: usize = 0;
    while d < nd
        invariant
            nd == s.dependencies@.len(),
            d <= nd,
            forall|dd: int, k: int|
                0 <= dd < d && 0 <= k < s.dependencies@[dd].sources@.len()
                    ==> #[trigger] s.dependencies@[dd].sources@[k].parameter_index != local,
        decreases nd - d,
    {
        let dep = &s.dependencies[d];
        let ns = dep.sources.len();
        let mut k: usize = 0;
        while k < ns
            invariant
                nd == s.dependencies@.len(),
                d < nd,
                *dep == s.dependencies@[d as int],
                ns == dep.sources@.len(),
                k <= ns,
                forall|kk: int| 0 <= kk < k ==> #[trigger] dep.sources@[kk].parameter_index != local,
            decreases ns - k,
        {
            if dep.sources[k].parameter_index as usize == local {
                proof {
                    assert(s.dependencies@[d as int].sources@[k as int].parameter_index == local);
                }
                return true;
            }
            k = k + 1;
        }
        d = d + 1;
    }
    false
}

pub fn return_escape_is_declared(event: &EscapeEvent, summary: Option<&ReturnBorrowSummary>) -> (b: bool)
    ensures
        b == spec_return_escape_is_declared(
            event.kind,
            event.place_local,
            match summary {
                Some(s) => Some(*s),
                None => None,
            },
        ),
{
    match event.kind {
        EscapeKind::HeapStore => false,
        EscapeKind::Return => match summary {
            None => false,
            Some(s) => summary_names_source(s, event.place_local),
        },
    }
}

/// Some statement of some block borrows a projection of `local`.
pub open spec fn spec_has_projected_borrow(func: AmirFunc, local: LocalId) -> bool {
    exists|i: int|
        0 <= i < func.stmts@.len() && covered(func.blocks@, i) && borrows_projection_spec(
            #[trigger] func.stmts@[i],
            local,
        )
}

fn borrows_projection_of(s: &AmirStmt, local: LocalId) -> (b: bool)
    ensures
        b == borrows_projection_spec(*s, local),
{
    match s {
        AmirStmt::Assign { rhs, .. } => match rhs {
            AmirRvalue::Borrow(p) => p.local == local && p.projections.len() > 0,
            AmirRvalue::BorrowMut(p) => p.local == local && p.projections.len() > 0,
            _ => false,
        },
        _ => false,
    }
}

pub fn has_projected_borrow(func: &AmirFunc, local: LocalId) -> (b: bool)
    requires
        forall|b: int| 0 <= b < func.blocks@.len() ==> #[trigger] func.block_ranges_ok(b),
    ensures
        b == spec_has_projected_borrow(*func, local),
{
    let nb = func.blocks.len();
    let ns = func.stmts.len();
    let mut bi: usize = 0;
    while bi < nb
        invariant
            nb == func.blocks@.len(),
            ns == func.stmts@.len(),
            bi <= nb,
            forall|b: int| 0 <= b < func.blocks@.len() ==> #[trigger] func.block_ranges_ok(b),
            forall|i: int|
                0 <= i < func.stmts@.len() && covered_prefix(func.blocks@, bi as int, 0, i)
                    ==> !borrows_projection_spec(#[trigger] func.stmts@[i], local),
        decreases nb - bi,
    {
        let r = func.blocks[bi].statements;
        proof {
            assert(func.block_ranges_ok(bi as int));
        }
        let mut j: usize = 0;
        while j < r.len
            invariant
                nb == func.blocks@.len(),
                bi < nb,
                r == func.blocks@[bi as int].statements,
                r.start + r.len <= func.stmts@.len(),
                ns == func.stmts@.len(),
                j <= r.len,
                forall|i: int| r.start <= i < r.start + j ==> !borrows_projection_spec(#[trigger] func.stmts@[i], local),
            decreases r.len - j,
        {
            if borrows_projection_of(&func.stmts[r.start + j], local) {
                proof {
                    let i = (r.start + j) as int;
                    assert(covered(func.blocks@, i));
                    assert(borrows_projection_spec(func.stmts@[i], local));
                }
                return true;
            }
            j = j + 1;
        }
        proof {
            assert forall|i: int|
                0 <= i < func.stmts@.len() && covered_prefix(func.blocks@, bi + 1, 0, i)
                    implies !borrows_projection_spec(#[trigger] func.stmts@[i], local) by {
                let b = choose|b: int|
                    0 <= b < bi + 1 && func.blocks@[b].statements.start <= i < func.blocks@[b].statements.start
                        + #[trigger] func.blocks@[b].statements.len;
                if b < bi {
                    assert(covered_prefix(func.blocks@, bi as int, 0, i));
                }
            }
        }
        bi = bi + 1;
    }
    proof {
        assert forall|i: int| 0 <= i < func.stmts@.len() && covered(func.blocks@, i) implies !borrows_projection_spec(
            #[trigger] func.stmts@[i],
            local,
        ) by {
            let b = choose|b: int|
                0 <= b < func.blocks@.len() && func.blocks@[b].statements.start <= i < func.blocks@[b].statements.start
                    + #[trigger] func.blocks@[b].statements.len;
            assert(covered_prefix(func.blocks@, nb as int, 0, i));
        }
    }
    false
}

/// A statement borrows a projection of `local`.
pub open spec fn borrows_projection_spec(s: AmirStmt, local: LocalId) -> bool {
    match s {
        AmirStmt::Assign { rhs, .. } => match rhs {
            AmirRvalue::Borrow(p) => p.local == local && p.projections@.len() > 0,
            AmirRvalue::BorrowMut(p) => p.local == local && p.projections@.len() > 0,
            _ => false,
        },
        _ => false,
    }
}

/// The span of a local's declaration, or the empty span when out of range.
pub fn local_span(local: LocalId, func: &AmirFunc) -> (s: Span)
    ensures
        s == if local < func.locals@.len() {
            func.locals@[local as int].span
        } else {
            Span { file_id: 0, start: 0, end: 0 }
        },
{
    if local < func.locals.len() {
        func.locals[local].span
    } else {
        Span { file_id: 0, start: 0, end: 0 }
    }
}

/// The span of a temp, when in range.
pub fn temp_span(t: TempId, func: &AmirFunc) -> (s: Option<Span>)
    ensures
        s == if t < func.temps@.len() {
            Some(func.temps@[t as int].span)
        } else {
            None::<Span>
        },
{
    if t < func.temps.len() {
        Some(func.temps[t].span)
    } else {
        None
    }
}

/// The span of a place's root local.
pub fn place_span(place: &AmirPlace, func: &AmirFunc) -> (s: Span)
    ensures
        s == if place.local < func.locals@.len() {
            func.locals@[place.local as int].span
        } else {
            Span { file_id: 0, start: 0, end: 0 }
        },
{
    local_span(place.local, func)
}


/// The message of the generational-fallback diagnostic for local `name`.
pub open spec fn o004_message(name: Seq<char>) -> Seq<char> {
    "generational fallback: '"@ + name + "' escapes stack-limited borrow window"@
}

/// The note that traces the escape of local `name` out of `block`.
pub open spec fn o004_path_note(name: Seq<char>, block: nat) -> Seq<char> {
    "escape path: local `"@ + name + "` -> AMIR block "@ + decimal(block) + " -> storage that may outlive the borrow"@
}

/// The first note: why the fallback is refused, or that it is recorded.
pub open spec fn o004_first_note(as_error: bool) -> Seq<char> {
    if as_error {
        "this scope forbids generational fallback (`@NoFallback` or `--no-generational-fallback`)"@
    } else {
        "not a silent heap promotion: this note records why the static borrow window was insufficient"@
    }
}

/// The diagnostic for a local whose borrow escapes the stack-only window:
/// an error where the scope forbids the generational fallback, a note
/// otherwise.
pub fn o004_diag(name: &str, span: Span, block: BlockId, reason: &str, as_error: bool) -> (d: Diagnostic)
    ensures
        d.code == DiagCode::O004GenerationalFallback,
        d.severity == (if as_error {
            Severity::Error
        } else {
            Severity::Note
        }),
        d.message@ == o004_message(name@),
        d.span == span,
        d.notes@.len() == 3,
        d.notes@[0]@ == o004_first_note(as_error),
        d.notes@[1]@ == o004_path_note(name@, block as nat),
        d.notes@[2]@ == reason@,
        d.labels@.len() == 1,
        d.labels@[0].span == span,
        d.labels@[0].message@ == "escape crosses the stack-only borrow boundary"@,
        d.hints@.len() == 1,
        d.hints@[0]@ == "stack-first alternatives: shorten the borrow, pass the owner, return owned data, or use an explicit heap type"@,
{
    let mut msg = "generational fallback: '".to_owned();
    msg.push_str(name);
    msg.push_str("' escapes stack-limited borrow window");
    let d = if as_error {
        Diagnostic::error(DiagCode::O004GenerationalFallback, msg, span).with_note(
            "this scope forbids generational fallback (`@NoFallback` or `--no-generational-fallback`)".to_owned(),
        )
    } else {
        Diagnostic::note(DiagCode::O004GenerationalFallback, msg, span).with_note(
            "not a silent heap promotion: this note records why the static borrow window was insufficient".to_owned(),
        )
    };
    let mut path = "escape path: local `".to_owned();
    path.push_str(name);
    path.push_str("` -> AMIR block ");
    push_decimal(&mut path, block);
    path.push_str(" -> storage that may outlive the borrow");
    let d = d.with_label(span, "escape crosses the stack-only borrow boundary".to_owned()).with_note(path).with_note(
        reason.to_owned(),
    ).with_hint(
        "stack-first alternatives: shorten the borrow, pass the owner, return owned data, or use an explicit heap type".to_owned(),
    );
    proof {
        assert(d.notes@[1]@ == o004_path_note(name@, block as nat));
    }
    d
}

} // verus!
