//! Mark-sweep dead code elimination (Cooper & Torczon, Engineering a
//! Compiler, ch. 10).
//!
//! Mark: the roots are everything observable outside the function: stores to
//! the return slot `_0`, every definition of the return temp `_0`, side
//! effects (calls, stores, frees, destroys, storage markers, allocations,
//! generational-arena operations, black boxes) and every operand a
//! terminator reads (conditions and jump arguments).  The defining
//! statements of every temp a live statement reads are live in turn.  A temp
//! may have several definitions (one per incoming path before φ
//! materialization): all of them are kept.
//!
//! Sweep: every unmarked statement is removed by rebuilding the table.

use vstd::prelude::*;
use std::collections::VecDeque;
use crate::amir::{
    AmirFunc, lemma_range_total_mono, range_total, AmirRvalue, AmirStmt, TempId, operand_temps, stmt_temps_ok, stmt_operand_list, stmt_operands,
    terminator_operand_list, terminator_operands, uses_temp,
};
use crate::diagnostics::{DiagCode, Diagnostic, Severity, decimal, push_decimal};
use crate::instr_list::{InstrList, instr_list_get, instr_list_items, instr_list_len, instr_list_new, instr_list_push};
use crate::sccp::{count_false, covered, covered_prefix, lemma_count_false_mono, lemma_count_false_set};
use crate::simplify_cfg::{optimization_span, same_frame};
use crate::stmt_table::{first_repeat, flat, lemma_flat_bound, lemma_flat_prefix, range_ids, rebuild_from_lists, views};

verus! {

/// Statements whose effect is observable whether or not their result is used.
pub open spec fn spec_has_side_effect(s: AmirStmt) -> bool {
    match s {
        AmirStmt::Call { .. } => true,
        AmirStmt::Store { .. } => true,
        AmirStmt::Free(_) => true,
        AmirStmt::Destroy(_) => true,
        AmirStmt::StorageLive(_) => true,
        AmirStmt::StorageDead(_) => true,
        AmirStmt::Assign { rhs, .. } => match rhs {
            AmirRvalue::Alloc(_) => true,
            AmirRvalue::GenInsert { .. } => true,
            AmirRvalue::GenGet { .. } => true,
            AmirRvalue::GenSet { .. } => true,
            AmirRvalue::GenUpsert { .. } => true,
            AmirRvalue::GenRemove { .. } => true,
            AmirRvalue::BlackBox { .. } => true,
            _ => false,
        },
        AmirStmt::Nop => false,
    }
}

pub fn has_side_effect(stmt: &AmirStmt) -> (b: bool)
    ensures
        b == spec_has_side_effect(*stmt),
{
    match stmt {
        AmirStmt::Call { .. } => true,
        AmirStmt::Store { .. } => true,
        AmirStmt::Free(_) => true,
        AmirStmt::Destroy(_) => true,
        AmirStmt::StorageLive(_) => true,
        AmirStmt::StorageDead(_) => true,
        AmirStmt::Assign { rhs, .. } => match rhs {
            AmirRvalue::Alloc(_) => true,
            AmirRvalue::GenInsert { .. } => true,
            AmirRvalue::GenGet { .. } => true,
            AmirRvalue::GenSet { .. } => true,
            AmirRvalue::GenUpsert { .. } => true,
            AmirRvalue::GenRemove { .. } => true,
            AmirRvalue::BlackBox { .. } => true,
            _ => false,
        },
        AmirStmt::Nop => false,
    }
}

/// A store to the whole return slot `_0`.
pub open spec fn is_return_store(s: AmirStmt) -> bool {
    s matches AmirStmt::Store { lhs, .. } && lhs.local == 0 && lhs.projections@.len() == 0
}

fn return_store(s: &AmirStmt) -> (b: bool)
    ensures
        b == is_return_store(*s),
{
    match s {
        AmirStmt::Store { lhs, .. } => lhs.local == 0 && lhs.projections.len() == 0,
        _ => false,
    }
}

/// Statement `d` lies in some block and assigns temp `t`.
pub open spec fn is_def_of(func: AmirFunc, d: int, t: TempId) -> bool {
    &&& 0 <= d < func.stmts@.len()
    &&& covered(func.blocks@, d)
    &&& func.stmts@[d] matches AmirStmt::Assign { lhs, .. } && lhs == t
}

/// The roots of the mark phase.
pub open spec fn dce_seed(func: AmirFunc, i: int) -> bool {
    ||| (0 <= i < func.stmts@.len() && covered(func.blocks@, i) && (is_return_store(func.stmts@[i])
        || spec_has_side_effect(func.stmts@[i])))
    ||| is_def_of(func, i, 0)
    ||| exists|b: int, t: TempId|
        #![trigger uses_temp(terminator_operands(func.blocks@[b].terminator), t), is_def_of(func, i, t)]
        0 <= b < func.blocks@.len() && uses_temp(terminator_operands(func.blocks@[b].terminator), t)
            && is_def_of(func, i, t)
}

/// Statement `j` reads a temp that statement `i` defines.
pub open spec fn dce_step(func: AmirFunc, j: int, i: int) -> bool {
    &&& 0 <= j < func.stmts@.len()
    &&& exists|t: TempId| uses_temp(stmt_operands(func.stmts@[j]), t) && #[trigger] is_def_of(func, i, t)
}

/// `c` starts at a root and each statement of it defines a temp that the
/// one before reads.
pub open spec fn dce_chain(func: AmirFunc, c: Seq<int>) -> bool {
    &&& c.len() > 0
    &&& dce_seed(func, c[0])
    &&& forall|k: int| 1 <= k < c.len() ==> dce_step(func, c[k - 1], #[trigger] c[k])
}

/// Statement `i` is live: a chain of reads leads to it from a root.
pub open spec fn dce_live(func: AmirFunc, i: int) -> bool {
    exists|c: Seq<int>| #[trigger] dce_chain(func, c) && c.last() == i
}

/// Whether a statement id is live in `func`.
pub open spec fn is_live_id(func: AmirFunc) -> spec_fn(usize) -> bool {
    |i: usize| dce_live(func, i as int)
}

/// The live statement ids of block `b`, in order.
pub open spec fn live_ids(func: AmirFunc, b: int) -> Seq<usize> {
    range_ids(func.blocks@[b].statements).filter(is_live_id(func))
}

/// The live statement ids of every block.
pub open spec fn live_lists(func: AmirFunc) -> Seq<Seq<usize>> {
    Seq::new(func.blocks@.len(), |b: int| live_ids(func, b))
}

/// `new` is `old` with exactly its live statements kept, block by block.
pub open spec fn swept(old: AmirFunc, new: AmirFunc) -> bool {
    let ids = flat(live_lists(old));
    &&& same_frame(old, new)
    &&& new.block_params == old.block_params
    &&& new.cfg == old.cfg
    &&& new.blocks@.len() == old.blocks@.len()
    &&& new.stmts@.len() == ids.len()
    &&& forall|i: int| 0 <= i < ids.len() ==> #[trigger] new.stmts@[i] == old.stmts@[ids[i] as int]
    &&& forall|b: int|
        0 <= b < old.blocks@.len() ==> (#[trigger] new.blocks@[b]).id == old.blocks@[b].id
            && new.blocks@[b].params == old.blocks@[b].params && new.blocks@[b].terminator
            == old.blocks@[b].terminator && new.blocks@[b].statements == (crate::amir::DenseRange {
            start: flat(live_lists(old).take(b)).len() as usize,
            len: live_ids(old, b).len() as usize,
        })
}

/// The internal error reported when the sweep meets a statement id twice.
fn dce_duplicate_ice(index: usize, span: crate::amir::Span) -> (d: Diagnostic)
    ensures
        d.code == DiagCode::ICEO001,
        d.severity == Severity::Ice,
        d.span == span,
        d.message@ == "DCE encountered duplicate or out-of-range statement id "@ + decimal(index as nat),
{
    let mut msg = "DCE encountered duplicate or out-of-range statement id ".to_owned();
    push_decimal(&mut msg, index);
    Diagnostic::ice(DiagCode::ICEO001, msg, span)
}


/// For every temp, the statements in block ranges that assign it.
fn build_defs(func: &AmirFunc) -> (defs: Vec<InstrList>)
    requires
        func.wf_shape(),
        range_total(*func, func.blocks@.len() as int) <= usize::MAX / 32,
    ensures
        defs@.len() == func.temps@.len(),
        forall|t: int, k: int|
            0 <= t < defs@.len() && 0 <= k < instr_list_items(defs@[t]).len() ==> is_def_of(
                *func,
                #[trigger] instr_list_items(defs@[t])[k] as int,
                t as usize,
            ),
        forall|t: TempId, d: int|
            t < defs@.len() && #[trigger] is_def_of(*func, d, t) ==> instr_list_items(defs@[t as int]).contains(
                d as usize,
            ),
{
    let nt = func.temps.len();
    let nb = func.blocks.len();
    let ns = func.stmts.len();
    let mut defs: Vec<InstrList> = Vec::new();
    let mut t: usize = 0;
    while t < nt
        invariant
            t <= nt,
            defs@.len() == t,
            forall|u: int| 0 <= u < t ==> instr_list_items(#[trigger] defs@[u]).len() == 0,
        decreases nt - t,
    {
        defs.push(instr_list_new());
        t = t + 1;
    }
    let mut bi: usize = 0;
    while bi < nb
        invariant
            func.wf_shape(),
            nb == func.blocks@.len(),
            nt == func.temps@.len(),
            ns == func.stmts@.len(),
            range_total(*func, nb as int) <= usize::MAX / 32,
            bi <= nb,
            defs@.len() == nt,
            forall|t: int, k: int|
                0 <= t < defs@.len() && 0 <= k < instr_list_items(defs@[t]).len() ==> is_def_of(
                    *func,
                    #[trigger] instr_list_items(defs@[t])[k] as int,
                    t as usize,
                ),
            forall|t: TempId, d: int|
                t < nt && 0 <= d < func.stmts@.len() && covered_prefix(func.blocks@, bi as int, 0, d)
                    && (func.stmts@[d] matches AmirStmt::Assign { lhs, .. } && lhs == t)
                    ==> #[trigger] instr_list_items(defs@[t as int]).contains(d as usize),
            forall|t: int| 0 <= t < nt ==> instr_list_items(#[trigger] defs@[t]).len() <= range_total(
                *func,
                bi as int,
            ),
        decreases nb - bi,
    {
        let r = func.blocks[bi].statements;
        proof {
            assert(func.block_ranges_ok(bi as int));
            lemma_range_total_mono(*func, bi + 1, nb as int);
        }
        let mut j: usize = 0;
        while j < r.len
            invariant
                func.wf_shape(),
                nb == func.blocks@.len(),
                nt == func.temps@.len(),
                bi < nb,
                r == func.blocks@[bi as int].statements,
                r.start + r.len <= func.stmts@.len(),
                ns == func.stmts@.len(),
                range_total(*func, bi as int) + r.len <= usize::MAX / 32,
                j <= r.len,
                defs@.len() == nt,
                forall|t: int, k: int|
                    0 <= t < defs@.len() && 0 <= k < instr_list_items(defs@[t]).len() ==> is_def_of(
                        *func,
                        #[trigger] instr_list_items(defs@[t])[k] as int,
                        t as usize,
                    ),
                forall|t: TempId, d: int|
                    t < nt && 0 <= d < func.stmts@.len() && covered_prefix(func.blocks@, bi as int, j as int, d)
                        && (func.stmts@[d] matches AmirStmt::Assign { lhs, .. } && lhs == t)
                        ==> #[trigger] instr_list_items(defs@[t as int]).contains(d as usize),
                forall|t: int| 0 <= t < nt ==> instr_list_items(#[trigger] defs@[t]).len() <= range_total(
                    *func,
                    bi as int,
                ) + j,
            decreases r.len - j,
        {
            let id = r.start + j;
            let ghost before = defs@;
            match &func.stmts[id] {
                AmirStmt::Assign { lhs, .. } => {
                    let l = *lhs;
                    assert(stmt_temps_ok(func.stmts@[id as int], nt as nat));
                    assert(instr_list_items(defs@[l as int]).len() <= usize::MAX / 32);
                    instr_list_push(&mut defs[l], id);
                    proof {
                        assert(covered(func.blocks@, id as int)) by {
                            assert(func.blocks@[bi as int].statements.start <= id < func.blocks@[bi as int].statements.start
                                + func.blocks@[bi as int].statements.len);
                        }
                        assert forall|t: int, k: int|
                            0 <= t < defs@.len() && 0 <= k < instr_list_items(defs@[t]).len() implies is_def_of(
                                *func,
                                #[trigger] instr_list_items(defs@[t])[k] as int,
                                t as usize,
                            ) by {
                            if t != l as int {
                                assert(defs@[t] == before[t]);
                            } else if k < instr_list_items(before[t]).len() {
                                assert(instr_list_items(defs@[t])[k] == instr_list_items(before[t])[k]);
                            }
                        }
                        assert forall|t: TempId, d: int|
                            t < nt && 0 <= d < func.stmts@.len() && covered_prefix(func.blocks@, bi as int, j + 1, d)
                                && (func.stmts@[d] matches AmirStmt::Assign { lhs, .. } && lhs == t)
                                implies #[trigger] instr_list_items(defs@[t as int]).contains(d as usize) by {
                            if d == id {
                                assert(instr_list_items(defs@[t as int]).last() == id);
                            } else {
                                assert(covered_prefix(func.blocks@, bi as int, j as int, d));
                                assert(instr_list_items(before[t as int]).contains(d as usize));
                                if t != l {
                                    assert(defs@[t as int] == before[t as int]);
                                } else {
                                    let w = choose|w: int| 0 <= w < instr_list_items(before[t as int]).len()
                                        && instr_list_items(before[t as int])[w] == d as usize;
                                    assert(instr_list_items(defs@[t as int])[w] == d as usize);
                                }
                            }
                        }
                        assert forall|t: int| 0 <= t < nt implies instr_list_items(#[trigger] defs@[t]).len()
                            <= range_total(*func, bi as int) + j + 1 by {
                            if t != l as int {
                                assert(defs@[t] == before[t]);
                            }
                        }
                    }
                },
                _ => {
                    proof {
                        assert forall|t: TempId, d: int|
                            t < nt && 0 <= d < func.stmts@.len() && covered_prefix(func.blocks@, bi as int, j + 1, d)
                                && (func.stmts@[d] matches AmirStmt::Assign { lhs, .. } && lhs == t)
                                implies #[trigger] instr_list_items(defs@[t as int]).contains(d as usize) by {
                            if d != id {
                                assert(covered_prefix(func.blocks@, bi as int, j as int, d));
                            }
                        }
                    }
                },
            }
            j = j + 1;
        }
        proof {
            assert forall|t: TempId, d: int|
                t < nt && 0 <= d < func.stmts@.len() && covered_prefix(func.blocks@, bi + 1, 0, d)
                    && (func.stmts@[d] matches AmirStmt::Assign { lhs, .. } && lhs == t)
                    implies #[trigger] instr_list_items(defs@[t as int]).contains(d as usize) by {
                let b = choose|b: int|
                    0 <= b < bi + 1 && func.blocks@[b].statements.start <= d < func.blocks@[b].statements.start
                        + #[trigger] func.blocks@[b].statements.len;
                if b < bi {
                    assert(covered_prefix(func.blocks@, bi as int, r.len as int, d));
                } else {
                    assert(covered_prefix(func.blocks@, bi as int, r.len as int, d));
                }
            }
        }
        bi = bi + 1;
    }
    proof {
        assert forall|t: TempId, d: int|
            t < defs@.len() && #[trigger] is_def_of(*func, d, t) implies instr_list_items(defs@[t as int]).contains(
                d as usize,
            ) by {
            let b = choose|b: int|
                0 <= b < func.blocks@.len() && func.blocks@[b].statements.start <= d < func.blocks@[b].statements.start
                    + #[trigger] func.blocks@[b].statements.len;
            assert(covered_prefix(func.blocks@, nb as int, 0, d));
        }
    }
    defs
}


/// Every marked statement is live.
spec fn marks_sound(func: AmirFunc, live: Seq<bool>) -> bool {
    forall|i: int| 0 <= i < live.len() && #[trigger] live[i] ==> dce_live(func, i)
}

/// Every queued statement is marked.
spec fn queue_marked(live: Seq<bool>, q: Seq<usize>) -> bool {
    forall|k: int| 0 <= k < q.len() ==> (#[trigger] q[k]) < live.len() && live[q[k] as int]
}

/// Every definition of every temp statement `j` reads is marked.
spec fn processed(func: AmirFunc, live: Seq<bool>, j: int) -> bool {
    forall|t: TempId, d: int|
        uses_temp(stmt_operands(func.stmts@[j]), t) && #[trigger] is_def_of(func, d, t) ==> live[d]
}

/// Marked statements that are not queued, other than `p`, are processed.
spec fn closed_but(func: AmirFunc, live: Seq<bool>, q: Seq<usize>, p: int) -> bool {
    forall|j: int|
        0 <= j < live.len() && #[trigger] live[j] && !q.contains(j as usize) && j != p ==> processed(
            func,
            live,
            j,
        )
}

proof fn lemma_processed_mono(func: AmirFunc, l1: Seq<bool>, l2: Seq<bool>, j: int)
    requires
        l1.len() == l2.len(),
        l1.len() == func.stmts@.len(),
        forall|x: int| 0 <= x < l1.len() && #[trigger] l1[x] ==> l2[x],
        processed(func, l1, j),
    ensures
        processed(func, l2, j),
{
    assert forall|t: TempId, d: int|
        uses_temp(stmt_operands(func.stmts@[j]), t) && #[trigger] is_def_of(func, d, t) implies l2[d] by {
        assert(l1[d]);
    }
}

/// Marks statement `i` live and queues it, unless it already is marked.
fn mark(func: &AmirFunc, live: &mut Vec<bool>, queue: &mut VecDeque<usize>, i: usize, Ghost(p): Ghost<int>)
    requires
        old(live)@.len() == func.stmts@.len(),
        i < old(live)@.len(),
        dce_live(*func, i as int),
        marks_sound(*func, old(live)@),
        queue_marked(old(live)@, old(queue)@),
        closed_but(*func, old(live)@, old(queue)@, p),
    ensures
        final(live)@ == old(live)@.update(i as int, true),
        marks_sound(*func, final(live)@),
        queue_marked(final(live)@, final(queue)@),
        closed_but(*func, final(live)@, final(queue)@, p),
        final(queue)@.len() + count_false(final(live)@) == old(queue)@.len() + count_false(old(live)@),
{
    if !live[i] {
        proof {
            lemma_count_false_set(live@, i as int);
        }
        let ghost l0 = live@;
        let ghost q0 = queue@;
        live.set(i, true);
        queue.push_back(i);
        proof {
            assert forall|j: int|
                0 <= j < live@.len() && #[trigger] live@[j] && !queue@.contains(j as usize) && j != p
                    implies processed(*func, live@, j) by {
                assert(queue@[queue@.len() - 1] == i);
                assert(j != i);
                assert(l0[j]);
                if q0.contains(j as usize) {
                    let w = choose|w: int| 0 <= w < q0.len() && q0[w] == j as usize;
                    assert(queue@[w] == j as usize);
                }
                lemma_processed_mono(*func, l0, live@, j);
            }
            assert forall|k: int| 0 <= k < queue@.len() implies (#[trigger] queue@[k]) < live@.len()
                && live@[queue@[k] as int] by {
                if k < q0.len() {
                    assert(queue@[k] == q0[k]);
                }
            }
        }
    } else {
        proof {
            assert(live@ == live@.update(i as int, true));
        }
    }
}

/// Marks every statement of `defs`.
fn mark_defs(func: &AmirFunc, live: &mut Vec<bool>, queue: &mut VecDeque<usize>, defs: &InstrList, Ghost(p): Ghost<int>)
    requires
        old(live)@.len() == func.stmts@.len(),
        forall|k: int|
            0 <= k < instr_list_items(*defs).len() ==> #[trigger] instr_list_items(*defs)[k] < func.stmts@.len()
                && dce_live(*func, instr_list_items(*defs)[k] as int),
        marks_sound(*func, old(live)@),
        queue_marked(old(live)@, old(queue)@),
        closed_but(*func, old(live)@, old(queue)@, p),
    ensures
        final(live)@.len() == old(live)@.len(),
        forall|x: int| 0 <= x < old(live)@.len() && #[trigger] old(live)@[x] ==> final(live)@[x],
        forall|k: int|
            0 <= k < instr_list_items(*defs).len() ==> final(live)@[#[trigger] instr_list_items(*defs)[k] as int],
        marks_sound(*func, final(live)@),
        queue_marked(final(live)@, final(queue)@),
        closed_but(*func, final(live)@, final(queue)@, p),
        final(queue)@.len() + count_false(final(live)@) == old(queue)@.len() + count_false(old(live)@),
{
    let ghost l0 = live@;
    let ghost q0 = queue@;
    let n = instr_list_len(defs);
    let mut k: usize = 0;
    while k < n
        invariant
            n == instr_list_items(*defs).len(),
            k <= n,
            live@.len() == func.stmts@.len(),
            l0.len() == live@.len(),
            forall|kk: int|
                0 <= kk < instr_list_items(*defs).len() ==> #[trigger] instr_list_items(*defs)[kk] < func.stmts@.len()
                    && dce_live(*func, instr_list_items(*defs)[kk] as int),
            forall|x: int| 0 <= x < l0.len() && #[trigger] l0[x] ==> live@[x],
            forall|kk: int| 0 <= kk < k ==> live@[#[trigger] instr_list_items(*defs)[kk] as int],
            marks_sound(*func, live@),
            queue_marked(live@, queue@),
            closed_but(*func, live@, queue@, p),
            queue@.len() + count_false(live@) == q0.len() + count_false(l0),
        decreases n - k,
    {
        let d = instr_list_get(defs, k);
        mark(func, live, queue, d, Ghost(p));
        k = k + 1;
    }
}


/// The roots among the statements of the blocks before `bi`, and every
/// definition of `_0`, are marked.
spec fn seeded_upto(func: AmirFunc, live: Seq<bool>, bi: int) -> bool {
    &&& forall|d: int| #[trigger] is_def_of(func, d, 0) ==> live[d]
    &&& forall|b: int, t: TempId, d: int|
        #![trigger uses_temp(terminator_operands(func.blocks@[b].terminator), t), is_def_of(func, d, t)]
        0 <= b < bi && uses_temp(terminator_operands(func.blocks@[b].terminator), t) && is_def_of(func, d, t)
            ==> live[d]
    &&& forall|i: int|
        0 <= i < func.stmts@.len() && covered_prefix(func.blocks@, bi, 0, i) && (is_return_store(func.stmts@[i])
            || spec_has_side_effect(func.stmts@[i])) ==> #[trigger] live[i]
}

proof fn lemma_seeded_mono(func: AmirFunc, l1: Seq<bool>, l2: Seq<bool>, bi: int)
    requires
        l1.len() == l2.len(),
        l1.len() == func.stmts@.len(),
        forall|x: int| 0 <= x < l1.len() && #[trigger] l1[x] ==> l2[x],
        seeded_upto(func, l1, bi),
    ensures
        seeded_upto(func, l2, bi),
{
    assert forall|d: int| #[trigger] is_def_of(func, d, 0) implies l2[d] by {
        assert(l1[d]);
    }
    assert forall|b: int, t: TempId, d: int|
        #![trigger uses_temp(terminator_operands(func.blocks@[b].terminator), t), is_def_of(func, d, t)]
        0 <= b < bi && uses_temp(terminator_operands(func.blocks@[b].terminator), t) && is_def_of(func, d, t)
            implies l2[d] by {
        assert(l1[d]);
    }
    assert forall|i: int|
        0 <= i < func.stmts@.len() && covered_prefix(func.blocks@, bi, 0, i) && (is_return_store(func.stmts@[i])
            || spec_has_side_effect(func.stmts@[i])) implies #[trigger] l2[i] by {
        assert(l1[i]);
    }
}

proof fn lemma_seed_live(func: AmirFunc, i: int)
    requires
        dce_seed(func, i),
    ensures
        dce_live(func, i),
{
    let c = seq![i];
    assert(dce_chain(func, c));
}

proof fn lemma_step_live(func: AmirFunc, j: int, t: TempId, d: int)
    requires
        0 <= j < func.stmts@.len(),
        dce_live(func, j),
        uses_temp(stmt_operands(func.stmts@[j]), t),
        is_def_of(func, d, t),
    ensures
        dce_live(func, d),
{
    let c = choose|c: Seq<int>| #[trigger] dce_chain(func, c) && c.last() == j;
    let c2 = c.push(d);
    assert forall|k: int| 1 <= k < c2.len() implies dce_step(func, c2[k - 1], #[trigger] c2[k]) by {
        if k < c.len() {
            assert(c2[k] == c[k]);
            assert(c2[k - 1] == c[k - 1]);
        } else {
            assert(c2[k - 1] == j);
            assert(c2[k] == d);
        }
    }
    assert(dce_chain(func, c2));
}

/// A marking that holds every root and is closed under "reads a temp
/// defined by" holds every statement of a chain from a root.
proof fn lemma_chain_marked(func: AmirFunc, live: Seq<bool>, c: Seq<int>, k: int)
    requires
        live.len() == func.stmts@.len(),
        seeded_upto(func, live, func.blocks@.len() as int),
        forall|j: int| 0 <= j < live.len() && #[trigger] live[j] ==> processed(func, live, j),
        dce_chain(func, c),
        0 <= k < c.len(),
    ensures
        0 <= c[k] < live.len() && live[c[k]],
    decreases k,
{
    let nb = func.blocks@.len() as int;
    let i = c[k];
    if k == 0 {
        if 0 <= i < func.stmts@.len() && covered(func.blocks@, i) && (is_return_store(func.stmts@[i])
            || spec_has_side_effect(func.stmts@[i])) {
            let b = choose|b: int|
                0 <= b < func.blocks@.len() && func.blocks@[b].statements.start <= i
                    < func.blocks@[b].statements.start + #[trigger] func.blocks@[b].statements.len;
            assert(covered_prefix(func.blocks@, nb, 0, i));
        } else if is_def_of(func, i, 0) {
        } else {
            let (b, t) = choose|b: int, t: TempId|
                #![trigger uses_temp(terminator_operands(func.blocks@[b].terminator), t), is_def_of(func, i, t)]
                0 <= b < func.blocks@.len() && uses_temp(terminator_operands(func.blocks@[b].terminator), t)
                    && is_def_of(func, i, t);
            assert(uses_temp(terminator_operands(func.blocks@[b].terminator), t) && is_def_of(func, i, t));
        }
    } else {
        lemma_chain_marked(func, live, c, k - 1);
        let j = c[k - 1];
        assert(dce_step(func, j, c[k]));
        let t = choose|t: TempId| uses_temp(stmt_operands(func.stmts@[j]), t) && #[trigger] is_def_of(func, i, t);
        assert(processed(func, live, j));
        assert(is_def_of(func, i, t));
    }
}

/// The mark phase: `live[i]` holds exactly for the live statements.
fn mark_live(func: &AmirFunc) -> (live: Vec<bool>)
    requires
        func.wf_shape(),
        func.temps@.len() > 0,
        range_total(*func, func.blocks@.len() as int) <= usize::MAX / 32,
    ensures
        live@.len() == func.stmts@.len(),
        forall|i: int| 0 <= i < live@.len() ==> (#[trigger] live@[i] <==> dce_live(*func, i)),
{
    let n = func.stmts.len();
    let nt = func.temps.len();
    let nb = func.blocks.len();
    let defs_of = build_defs(func);
    let mut live: Vec<bool> = Vec::new();
    let mut i: usize = 0;
    while i < n
        invariant
            i <= n,
            live@.len() == i,
            forall|k: int| 0 <= k < i ==> !#[trigger] live@[k],
        decreases n - i,
    {
        live.push(false);
        i = i + 1;
    }
    let mut queue: VecDeque<usize> = VecDeque::new();
    proof {
        assert(queue@.len() == 0);
    }
    // Every definition of the return temp `_0` is a root.
    proof {
        assert forall|k: int|
            0 <= k < instr_list_items(defs_of@[0]).len() implies #[trigger] instr_list_items(defs_of@[0])[k]
                < func.stmts@.len() && dce_live(*func, instr_list_items(defs_of@[0])[k] as int) by {
            let d = instr_list_items(defs_of@[0])[k] as int;
            assert(is_def_of(*func, d, 0));
            lemma_seed_live(*func, d);
        }
    }
    mark_defs(func, &mut live, &mut queue, &defs_of[0], Ghost(-1));
    proof {
        assert forall|d: int| #[trigger] is_def_of(*func, d, 0) implies live@[d] by {
            assert(instr_list_items(defs_of@[0]).contains(d as usize));
            let w = choose|w: int| 0 <= w < instr_list_items(defs_of@[0]).len()
                && instr_list_items(defs_of@[0])[w] == d as usize;
            assert(live@[instr_list_items(defs_of@[0])[w] as int]);
        }
    }
    // Roots of each block: definitions of every temp its terminator reads,
    // stores to the return slot and side effects.
    let mut bi: usize = 0;
    while bi < nb
        invariant
            func.wf_shape(),
            nb == func.blocks@.len(),
            nt == func.temps@.len(),
            n == func.stmts@.len(),
            bi <= nb,
            live@.len() == n,
            defs_of@.len() == nt,
            forall|t: int, k: int|
                0 <= t < defs_of@.len() && 0 <= k < instr_list_items(defs_of@[t]).len() ==> is_def_of(
                    *func,
                    #[trigger] instr_list_items(defs_of@[t])[k] as int,
                    t as usize,
                ),
            forall|t: TempId, d: int|
                t < defs_of@.len() && #[trigger] is_def_of(*func, d, t) ==> instr_list_items(
                    defs_of@[t as int],
                ).contains(d as usize),
            seeded_upto(*func, live@, bi as int),
            marks_sound(*func, live@),
            queue_marked(live@, queue@),
            closed_but(*func, live@, queue@, -1),
        decreases nb - bi,
    {
        let ghost l_block = live@;
        let ops = terminator_operand_list(&func.blocks[bi].terminator);
        let temps = operand_temps(&ops);
        let nm = temps.len();
        let mut m: usize = 0;
        while m < nm
            invariant
                func.wf_shape(),
                nb == func.blocks@.len(),
                nt == func.temps@.len(),
                n == func.stmts@.len(),
                bi < nb,
                nm == temps@.len(),
                ops@ == terminator_operands(func.blocks@[bi as int].terminator),
                forall|i: int| 0 <= i < temps@.len() ==> uses_temp(ops@, #[trigger] temps@[i]),
                m <= nm,
                live@.len() == n,
                defs_of@.len() == nt,
                forall|t: int, k: int|
                    0 <= t < defs_of@.len() && 0 <= k < instr_list_items(defs_of@[t]).len() ==> is_def_of(
                        *func,
                        #[trigger] instr_list_items(defs_of@[t])[k] as int,
                        t as usize,
                    ),
                forall|t: TempId, d: int|
                    t < defs_of@.len() && #[trigger] is_def_of(*func, d, t) ==> instr_list_items(
                        defs_of@[t as int],
                    ).contains(d as usize),
                forall|x: int| 0 <= x < n && #[trigger] l_block[x] ==> live@[x],
                l_block.len() == n,
                seeded_upto(*func, l_block, bi as int),
                forall|mm: int, d: int| 0 <= mm < m && #[trigger] is_def_of(*func, d, temps@[mm]) ==> live@[d],
                marks_sound(*func, live@),
                queue_marked(live@, queue@),
                closed_but(*func, live@, queue@, -1),
            decreases nm - m,
        {
            let t = temps[m];
            proof {
                assert(uses_temp(ops@, t));
                let w = choose|w: int| 0 <= w < ops@.len() && crate::amir::operand_temp(ops@[w]) == Some(t);
                assert(crate::amir::operands_ok(terminator_operands(func.blocks@[bi as int].terminator), nt as nat));
                assert(crate::amir::operand_ok(ops@[w], nt as nat));
                assert forall|k: int|
                    0 <= k < instr_list_items(defs_of@[t as int]).len() implies #[trigger] instr_list_items(
                        defs_of@[t as int],
                    )[k] < func.stmts@.len() && dce_live(*func, instr_list_items(defs_of@[t as int])[k] as int) by {
                    let d = instr_list_items(defs_of@[t as int])[k] as int;
                    assert(is_def_of(*func, d, t));
                    assert(uses_temp(terminator_operands(func.blocks@[bi as int].terminator), t)
                        && is_def_of(*func, d, t));
                    lemma_seed_live(*func, d);
                }
            }
            let ghost l_before = live@;
            mark_defs(func, &mut live, &mut queue, &defs_of[t], Ghost(-1));
            proof {
                assert forall|mm: int, d: int| 0 <= mm < m + 1 && #[trigger] is_def_of(*func, d, temps@[mm])
                    implies live@[d] by {
                    if mm < m {
                        assert(l_before[d]);
                    } else {
                        assert(instr_list_items(defs_of@[t as int]).contains(d as usize));
                        let w = choose|w: int| 0 <= w < instr_list_items(defs_of@[t as int]).len()
                            && instr_list_items(defs_of@[t as int])[w] == d as usize;
                        assert(live@[instr_list_items(defs_of@[t as int])[w] as int]);
                    }
                }
                assert forall|x: int| 0 <= x < n && #[trigger] l_block[x] implies live@[x] by {
                    assert(l_before[x]);
                }
            }
            m = m + 1;
        }
        let r = func.blocks[bi].statements;
        proof {
            assert(func.block_ranges_ok(bi as int));
        }
        let mut j: usize = 0;
        while j < r.len
            invariant
                func.wf_shape(),
                nb == func.blocks@.len(),
                n == func.stmts@.len(),
                bi < nb,
                r == func.blocks@[bi as int].statements,
                r.start + r.len <= n,
                j <= r.len,
                live@.len() == n,
                forall|x: int| 0 <= x < n && #[trigger] l_block[x] ==> live@[x],
                l_block.len() == n,
                seeded_upto(*func, l_block, bi as int),
                forall|t: TempId, d: int|
                    uses_temp(terminator_operands(func.blocks@[bi as int].terminator), t) && #[trigger] is_def_of(
                        *func,
                        d,
                        t,
                    ) ==> live@[d],
                forall|i: int|
                    0 <= i < n && r.start <= i < r.start + j && (is_return_store(func.stmts@[i])
                        || spec_has_side_effect(func.stmts@[i])) ==> #[trigger] live@[i],
                marks_sound(*func, live@),
                queue_marked(live@, queue@),
                closed_but(*func, live@, queue@, -1),
            decreases r.len - j,
        {
            let id = r.start + j;
            if return_store(&func.stmts[id]) || has_side_effect(&func.stmts[id]) {
                proof {
                    assert(covered(func.blocks@, id as int)) by {
                        assert(func.blocks@[bi as int].statements.start <= id < func.blocks@[bi as int].statements.start
                            + func.blocks@[bi as int].statements.len);
                    }
                    lemma_seed_live(*func, id as int);
                }
                let ghost l_before = live@;
                mark(func, &mut live, &mut queue, id, Ghost(-1));
                proof {
                    assert forall|x: int| 0 <= x < n && #[trigger] l_block[x] implies live@[x] by {
                        assert(l_before[x]);
                    }
                    assert forall|t: TempId, d: int|
                        uses_temp(terminator_operands(func.blocks@[bi as int].terminator), t) && #[trigger] is_def_of(
                            *func,
                            d,
                            t,
                        ) implies live@[d] by {
                        assert(l_before[d]);
                    }
                    assert forall|i: int|
                        0 <= i < n && r.start <= i < r.start + j + 1 && (is_return_store(func.stmts@[i])
                            || spec_has_side_effect(func.stmts@[i])) implies #[trigger] live@[i] by {
                        if i != id {
                            assert(l_before[i]);
                        }
                    }
                }
            }
            j = j + 1;
        }
        proof {
            lemma_seeded_mono(*func, l_block, live@, bi as int);
            assert forall|b: int, t: TempId, d: int|
                #![trigger uses_temp(terminator_operands(func.blocks@[b].terminator), t), is_def_of(*func, d, t)]
                0 <= b < bi + 1 && uses_temp(terminator_operands(func.blocks@[b].terminator), t) && is_def_of(
                    *func,
                    d,
                    t,
                ) implies live@[d] by {
                if b < bi {
                    assert(uses_temp(terminator_operands(func.blocks@[b].terminator), t) && is_def_of(*func, d, t));
                }
            }
            assert forall|i: int|
                0 <= i < func.stmts@.len() && covered_prefix(func.blocks@, bi + 1, 0, i) && (is_return_store(
                    func.stmts@[i],
                ) || spec_has_side_effect(func.stmts@[i])) implies #[trigger] live@[i] by {
                let b = choose|b: int|
                    0 <= b < bi + 1 && func.blocks@[b].statements.start <= i < func.blocks@[b].statements.start
                        + #[trigger] func.blocks@[b].statements.len;
                if b < bi {
                    assert(covered_prefix(func.blocks@, bi as int, 0, i));
                }
            }
        }
        bi = bi + 1;
    }
    // Propagation: the definitions of every temp a live statement reads are live.
    while queue.len() > 0
        invariant
            func.wf_shape(),
            nb == func.blocks@.len(),
            nt == func.temps@.len(),
            n == func.stmts@.len(),
            live@.len() == n,
            defs_of@.len() == nt,
            forall|t: int, k: int|
                0 <= t < defs_of@.len() && 0 <= k < instr_list_items(defs_of@[t]).len() ==> is_def_of(
                    *func,
                    #[trigger] instr_list_items(defs_of@[t])[k] as int,
                    t as usize,
                ),
            forall|t: TempId, d: int|
                t < defs_of@.len() && #[trigger] is_def_of(*func, d, t) ==> instr_list_items(
                    defs_of@[t as int],
                ).contains(d as usize),
            seeded_upto(*func, live@, nb as int),
            marks_sound(*func, live@),
            queue_marked(live@, queue@),
            closed_but(*func, live@, queue@, -1),
        decreases count_false(live@), queue@.len(),
    {
        let ghost q0 = queue@;
        let ghost l0 = live@;
        let popped = queue.pop_front();
        let j = popped.unwrap();
        proof {
            assert(q0[0] == j);
            assert(live@[j as int]);
            assert forall|jj: int|
                0 <= jj < live@.len() && #[trigger] live@[jj] && !queue@.contains(jj as usize) && jj != j
                    implies processed(*func, live@, jj) by {
                if q0.contains(jj as usize) {
                    let w = choose|w: int| 0 <= w < q0.len() && q0[w] == jj as usize;
                    assert(w != 0);
                    assert(queue@[w - 1] == jj as usize);
                }
            }
            assert forall|k: int| 0 <= k < queue@.len() implies (#[trigger] queue@[k]) < live@.len()
                && live@[queue@[k] as int] by {
                assert(queue@[k] == q0[k + 1]);
            }
        }
        let ghost q1 = queue@;
        let ops = stmt_operand_list(&func.stmts[j]);
        let temps = operand_temps(&ops);
        let nm = temps.len();
        let mut m: usize = 0;
        while m < nm
            invariant
                func.wf_shape(),
                nt == func.temps@.len(),
                n == func.stmts@.len(),
                j < n,
                dce_live(*func, j as int),
                nm == temps@.len(),
                ops@ == stmt_operands(func.stmts@[j as int]),
                forall|i: int| 0 <= i < temps@.len() ==> uses_temp(ops@, #[trigger] temps@[i]),
                m <= nm,
                live@.len() == n,
                defs_of@.len() == nt,
                forall|t: int, k: int|
                    0 <= t < defs_of@.len() && 0 <= k < instr_list_items(defs_of@[t]).len() ==> is_def_of(
                        *func,
                        #[trigger] instr_list_items(defs_of@[t])[k] as int,
                        t as usize,
                    ),
                forall|t: TempId, d: int|
                    t < defs_of@.len() && #[trigger] is_def_of(*func, d, t) ==> instr_list_items(
                        defs_of@[t as int],
                    ).contains(d as usize),
                forall|x: int| 0 <= x < n && #[trigger] l0[x] ==> live@[x],
                l0.len() == n,
                seeded_upto(*func, l0, nb as int),
                nb == func.blocks@.len(),
                forall|mm: int, d: int| 0 <= mm < m && #[trigger] is_def_of(*func, d, temps@[mm]) ==> live@[d],
                live@[j as int],
                marks_sound(*func, live@),
                queue_marked(live@, queue@),
                closed_but(*func, live@, queue@, j as int),
                queue@.len() + count_false(live@) == q1.len() + count_false(l0),
            decreases nm - m,
        {
            let t = temps[m];
            proof {
                assert(uses_temp(ops@, t));
                let w = choose|w: int| 0 <= w < ops@.len() && crate::amir::operand_temp(ops@[w]) == Some(t);
                assert(stmt_temps_ok(func.stmts@[j as int], nt as nat));
                assert(crate::amir::operand_ok(ops@[w], nt as nat));
                assert forall|k: int|
                    0 <= k < instr_list_items(defs_of@[t as int]).len() implies #[trigger] instr_list_items(
                        defs_of@[t as int],
                    )[k] < func.stmts@.len() && dce_live(*func, instr_list_items(defs_of@[t as int])[k] as int) by {
                    let d = instr_list_items(defs_of@[t as int])[k] as int;
                    assert(is_def_of(*func, d, t));
                    lemma_step_live(*func, j as int, t, d);
                }
            }
            let ghost l_before = live@;
            mark_defs(func, &mut live, &mut queue, &defs_of[t], Ghost(j as int));
            proof {
                assert forall|mm: int, d: int| 0 <= mm < m + 1 && #[trigger] is_def_of(*func, d, temps@[mm])
                    implies live@[d] by {
                    if mm < m {
                        assert(l_before[d]);
                    } else {
                        assert(instr_list_items(defs_of@[t as int]).contains(d as usize));
                        let w = choose|w: int| 0 <= w < instr_list_items(defs_of@[t as int]).len()
                            && instr_list_items(defs_of@[t as int])[w] == d as usize;
                        assert(live@[instr_list_items(defs_of@[t as int])[w] as int]);
                    }
                }
                assert forall|x: int| 0 <= x < n && #[trigger] l0[x] implies live@[x] by {
                    assert(l_before[x]);
                }
            }
            m = m + 1;
        }
        proof {
            assert(processed(*func, live@, j as int)) by {
                assert forall|t: TempId, d: int|
                    uses_temp(stmt_operands(func.stmts@[j as int]), t) && #[trigger] is_def_of(*func, d, t)
                        implies live@[d] by {
                    assert(temps@.contains(t));
                    let w = choose|w: int| 0 <= w < temps@.len() && temps@[w] == t;
                    assert(is_def_of(*func, d, temps@[w]));
                }
            }
            lemma_seeded_mono(*func, l0, live@, nb as int);
            lemma_count_false_mono(l0, live@);
        }
    }
    proof {
        assert forall|jj: int| 0 <= jj < live@.len() && #[trigger] live@[jj] implies processed(*func, live@, jj) by {
            assert(!queue@.contains(jj as usize));
        }
        assert forall|i: int| 0 <= i < live@.len() implies (#[trigger] live@[i] <==> dce_live(*func, i)) by {
            if dce_live(*func, i) {
                let c = choose|c: Seq<int>| #[trigger] dce_chain(*func, c) && c.last() == i;
                lemma_chain_marked(*func, live@, c, c.len() - 1);
            }
        }
    }
    live
}


/// The live statement ids of every block, block by block.
fn live_id_lists(func: &AmirFunc, live: &Vec<bool>) -> (lists: Vec<Vec<usize>>)
    requires
        func.wf_shape(),
        live@.len() == func.stmts@.len(),
        forall|i: int| 0 <= i < live@.len() ==> (#[trigger] live@[i] <==> dce_live(*func, i)),
    ensures
        views(lists@) == live_lists(*func),
        forall|g: int, j: int|
            0 <= g < lists@.len() && 0 <= j < lists@[g]@.len() ==> #[trigger] lists@[g]@[j] < func.stmts@.len(),
{
    let nb = func.blocks.len();
    let ns = func.stmts.len();
    let mut lists: Vec<Vec<usize>> = Vec::new();
    let mut bi: usize = 0;
    while bi < nb
        invariant
            func.wf_shape(),
            nb == func.blocks@.len(),
            ns == func.stmts@.len(),
            live@.len() == func.stmts@.len(),
            forall|i: int| 0 <= i < live@.len() ==> (#[trigger] live@[i] <==> dce_live(*func, i)),
            bi <= nb,
            views(lists@) == live_lists(*func).take(bi as int),
            forall|g: int, j: int|
                0 <= g < lists@.len() && 0 <= j < lists@[g]@.len() ==> #[trigger] lists@[g]@[j] < func.stmts@.len(),
        decreases nb - bi,
    {
        let r = func.blocks[bi].statements;
        proof {
            assert(func.block_ranges_ok(bi as int));
        }
        let ghost ids = range_ids(r);
        let mut l: Vec<usize> = Vec::new();
        let mut j: usize = 0;
        while j < r.len
            invariant
                r.start + r.len <= func.stmts@.len(),
                ns == func.stmts@.len(),
                live@.len() == func.stmts@.len(),
                forall|i: int| 0 <= i < live@.len() ==> (#[trigger] live@[i] <==> dce_live(*func, i)),
                ids == range_ids(r),
                j <= r.len,
                l@ == ids.take(j as int).filter(is_live_id(*func)),
                forall|k: int| 0 <= k < l@.len() ==> #[trigger] l@[k] < r.start + j,
            decreases r.len - j,
        {
            let id = r.start + j;
            let ghost before = l@;
            if live[id] {
                l.push(id);
            }
            proof {
                let a = ids.take(j as int);
                let b = ids.take(j + 1);
                assert(b.drop_last() == a);
                assert(b.last() == id);
                reveal(Seq::filter);
                assert(b.filter(is_live_id(*func)) == if is_live_id(*func)(id) {
                    a.filter(is_live_id(*func)).push(id)
                } else {
                    a.filter(is_live_id(*func))
                });
                assert(l@ == b.filter(is_live_id(*func)));
            }
            j = j + 1;
        }
        proof {
            assert(ids.take(r.len as int) == ids);
            assert(l@ == live_ids(*func, bi as int));
        }
        let ghost lists0 = lists@;
        proof {
            assert(views(lists0).len() == lists0.len());
            assert(lists0.len() == bi);
        }
        lists.push(l);
        proof {
            assert(views(lists@) =~= live_lists(*func).take(bi + 1)) by {
                assert forall|g: int| 0 <= g < bi + 1 implies #[trigger] views(lists@)[g] == live_lists(*func).take(
                    bi + 1,
                )[g] by {
                    if g < bi {
                        assert(lists@[g] == lists0[g]);
                        assert(views(lists0)[g] == live_lists(*func).take(bi as int)[g]);
                    }
                }
            }
            assert forall|g: int, jj: int|
                0 <= g < lists@.len() && 0 <= jj < lists@[g]@.len() implies #[trigger] lists@[g]@[jj]
                < func.stmts@.len() by {
                if g < bi {
                    assert(lists@[g] == lists0[g]);
                }
            }
        }
        bi = bi + 1;
    }
    proof {
        assert(live_lists(*func).take(nb as int) == live_lists(*func));
    }
    lists
}

proof fn lemma_swept_total(old: AmirFunc, new: AmirFunc, k: int)
    requires
        swept(old, new),
        0 <= k <= old.blocks@.len(),
    ensures
        range_total(new, k) <= range_total(old, k),
    decreases k,
{
    if k > 0 {
        lemma_swept_total(old, new, k - 1);
        let b = k - 1;
        range_ids(old.blocks@[b].statements).lemma_filter_len(is_live_id(old));
        assert(new.blocks@[b].statements.len == live_ids(old, b).len() as usize);
    }
}

/// Nothing can be removed: the table or the temp table is empty, or every
/// statement is live.
pub open spec fn dce_noop(func: AmirFunc) -> bool {
    ||| func.stmts@.len() == 0
    ||| func.temps@.len() == 0
    ||| forall|i: int| 0 <= i < func.stmts@.len() ==> dce_live(func, i)
}

/// The sweep met a live statement id twice (statement ranges of blocks
/// overlap): `d` reports the first such id, and `new` is `old` with its
/// statement table emptied.
pub open spec fn dce_failed(old: AmirFunc, new: AmirFunc, d: Diagnostic) -> bool {
    let ids = flat(live_lists(old));
    &&& d.code == DiagCode::ICEO001
    &&& d.severity == Severity::Ice
    &&& d.span == crate::simplify_cfg::spec_optimization_span(old)
    &&& exists|p: int|
        first_repeat(ids, p) && d.message@ == "DCE encountered duplicate or out-of-range statement id "@
            + decimal(ids[p] as nat)
    &&& same_frame(old, new)
    &&& new.blocks == old.blocks
    &&& new.block_params == old.block_params
    &&& new.cfg == old.cfg
    &&& new.stmts@.len() == 0
}

/// A statement whose effect is observable whether or not anything reads
/// what it defines: a call, a store, a free, a drop, a storage marker, or an
/// assignment that allocates, touches a generational arena or is a black box.
pub open spec fn observable_effect(s: AmirStmt) -> bool {
    ||| s is Call
    ||| s is Store
    ||| s is Free
    ||| s is Destroy
    ||| s is StorageLive
    ||| s is StorageDead
    ||| (s matches AmirStmt::Assign { rhs, .. } && (rhs is Alloc || rhs is GenInsert || rhs is GenGet || rhs is GenSet
        || rhs is GenUpsert || rhs is GenRemove || rhs is BlackBox))
}

/// DCE keeps every statement of a block whose effect is observable: it is
/// live, it is among the live statements of its block, and the function
/// DCE returns still holds it.
pub proof fn lemma_dce_keeps_effects(old: AmirFunc, new: AmirFunc, res: Result<bool, Diagnostic>, b: int, i: int)
    requires
        dce_post(old, new, res),
        res is Ok,
        0 <= b < old.blocks@.len(),
        old.blocks@[b].statements.start <= i < old.blocks@[b].statements.start + old.blocks@[b].statements.len,
        i < old.stmts@.len(),
        old.blocks@[b].statements.start + old.blocks@[b].statements.len <= usize::MAX,
        observable_effect(old.stmts@[i]),
    ensures
        dce_live(old, i),
        live_ids(old, b).contains(i as usize),
        new.stmts@.contains(old.stmts@[i]),
{
    assert(covered(old.blocks@, i));
    let c = seq![i];
    assert(dce_seed(old, i));
    assert(dce_chain(old, c));
    assert(dce_live(old, i));
    let r = old.blocks@[b].statements;
    let k = i - r.start;
    assert(range_ids(r)[k] == i as usize);
    assert((is_live_id(old))(range_ids(r)[k]));
    range_ids(r).lemma_filter_contains(is_live_id(old), k);
    assert(live_ids(old, b).contains(i as usize));
    match res {
        Ok(true) => {
            let ls = live_lists(old);
            assert(ls[b] == live_ids(old, b));
            lemma_flat_contains(ls, b, i as usize);
            let ids = flat(ls);
            let p = choose|p: int| 0 <= p < ids.len() && ids[p] == i as usize;
            assert(new.stmts@[p] == old.stmts@[ids[p] as int]);
            assert(new.stmts@.contains(old.stmts@[i]));
        },
        _ => {
            assert(new.stmts@[i] == old.stmts@[i]);
        },
    }
}

/// Liveness flows back along reads: a statement of a block that assigns a
/// temp read by a live statement, or by the terminator of some block, or the
/// return temp `_0`, is live; so is a whole store into the return slot.
pub proof fn lemma_dce_live_roots_and_reads(func: AmirFunc, i: int, t: TempId)
    requires
        0 <= i < func.stmts@.len(),
        covered(func.blocks@, i),
    ensures
        func.stmts@[i] matches AmirStmt::Assign { lhs, .. } && lhs == 0 ==> dce_live(func, i),
        func.stmts@[i] matches AmirStmt::Store { lhs, .. } && lhs.local == 0 && lhs.projections@.len() == 0
            ==> dce_live(func, i),
        (func.stmts@[i] matches AmirStmt::Assign { lhs, .. } && lhs == t && exists|b: int|
            0 <= b < func.blocks@.len() && #[trigger] uses_temp(terminator_operands(func.blocks@[b].terminator), t))
            ==> dce_live(func, i),
        (func.stmts@[i] matches AmirStmt::Assign { lhs, .. } && lhs == t && exists|j: int|
            0 <= j < func.stmts@.len() && #[trigger] dce_live(func, j) && uses_temp(stmt_operands(func.stmts@[j]), t))
            ==> dce_live(func, i),
{
    let s = func.stmts@[i];
    if s matches AmirStmt::Assign { lhs, .. } && lhs == 0 {
        assert(is_def_of(func, i, 0));
        assert(dce_chain(func, seq![i]));
    }
    if s matches AmirStmt::Store { lhs, .. } && lhs.local == 0 && lhs.projections@.len() == 0 {
        assert(dce_chain(func, seq![i]));
    }
    if s matches AmirStmt::Assign { lhs, .. } && lhs == t {
        assert(is_def_of(func, i, t));
        if exists|b: int|
            0 <= b < func.blocks@.len() && #[trigger] uses_temp(terminator_operands(func.blocks@[b].terminator), t) {
            assert(dce_seed(func, i));
            assert(dce_chain(func, seq![i]));
        }
        if exists|j: int|
            0 <= j < func.stmts@.len() && #[trigger] dce_live(func, j) && uses_temp(stmt_operands(func.stmts@[j]), t) {
            let j = choose|j: int|
                0 <= j < func.stmts@.len() && #[trigger] dce_live(func, j) && uses_temp(stmt_operands(func.stmts@[j]), t);
            let c = choose|c: Seq<int>| #[trigger] dce_chain(func, c) && c.last() == j;
            let c2 = c.push(i);
            assert(dce_step(func, j, i));
            assert forall|k: int| 1 <= k < c2.len() implies dce_step(func, c2[k - 1], #[trigger] c2[k]) by {
                if k < c.len() {
                    assert(c2[k] == c[k] && c2[k - 1] == c[k - 1]);
                }
            }
            assert(dce_chain(func, c2));
            assert(c2.last() == i);
        }
    }
}

/// What a run of mark-sweep DCE on `old` promises of its result `new`: no
/// change when nothing is dead; otherwise exactly the live statements kept,
/// or an internal error when the live statement ids repeat.
pub open spec fn dce_post(old: AmirFunc, new: AmirFunc, res: Result<bool, Diagnostic>) -> bool {
    match res {
        Ok(false) => dce_noop(old) && new == old,
        Ok(true) => {
            &&& !dce_noop(old)
            &&& flat(live_lists(old)).no_duplicates()
            &&& swept(old, new)
            &&& new.wf_shape()
            &&& old.wf_body() ==> new.wf_body()
            &&& range_total(new, new.blocks@.len() as int) <= range_total(old, old.blocks@.len() as int)
        },
        Err(d) => {
            &&& !dce_noop(old)
            &&& !flat(live_lists(old)).no_duplicates()
            &&& dce_failed(old, new, d)
        },
    }
}

/// Mark-sweep dead code elimination.  Returns whether any statement was
/// removed.
pub fn mark_sweep_dce(func: &mut AmirFunc) -> (res: Result<bool, Diagnostic>)
    requires
        old(func).wf_shape(),
        range_total(*old(func), old(func).blocks@.len() as int) <= usize::MAX / 32,
    ensures
        dce_post(*old(func), *final(func), res),
{
    let n_stmts = func.stmts.len();
    let n_temps = func.temps.len();
    if n_stmts == 0 || n_temps == 0 {
        return Ok(false);
    }
    let live = mark_live(func);
    let mut any_removed = false;
    let mut i: usize = 0;
    while i < n_stmts
        invariant
            n_stmts == live@.len(),
            i <= n_stmts,
            any_removed <==> exists|k: int| 0 <= k < i && !#[trigger] live@[k],
        decreases n_stmts - i,
    {
        if !live[i] {
            any_removed = true;
        }
        i = i + 1;
    }
    if !any_removed {
        proof {
            assert forall|k: int| 0 <= k < func.stmts@.len() implies dce_live(*func, k) by {
                assert(live@[k]);
            }
        }
        return Ok(false);
    }
    let lists = live_id_lists(func, &live);
    let span = optimization_span(func);
    let ghost f0 = *func;
    let nb = func.blocks.len();
    let mut old_stmts: Vec<AmirStmt> = Vec::new();
    std::mem::swap(&mut old_stmts, &mut func.stmts);
    match rebuild_from_lists(old_stmts, &lists) {
        Err(x) => {
            let d = dce_duplicate_ice(x, span);
            proof {
                let ids = flat(live_lists(f0));
                let p = choose|p: int| first_repeat(flat(views(lists@)), p) && flat(views(lists@))[p] == x;
                assert(first_repeat(ids, p));
            }
            Err(d)
        },
        Ok((new_stmts, new_ranges)) => {
            func.stmts = new_stmts;
            let ghost nst = func.stmts@;
            let mut b: usize = 0;
            while b < nb
                invariant
                    nb == func.blocks@.len(),
                    nb == f0.blocks@.len(),
                    b <= nb,
                    func.stmts@ == nst,
                    new_ranges@.len() == nb,
                    views(lists@) == live_lists(f0),
                    forall|g: int| 0 <= g < nb ==> #[trigger] new_ranges@[g] == (crate::amir::DenseRange {
                        start: flat(views(lists@).take(g)).len() as usize,
                        len: lists@[g]@.len() as usize,
                    }),
                    forall|g: int|
                        0 <= g < nb ==> (#[trigger] func.blocks@[g]).id == f0.blocks@[g].id
                            && func.blocks@[g].params == f0.blocks@[g].params && func.blocks@[g].terminator
                            == f0.blocks@[g].terminator,
                    forall|g: int| 0 <= g < b ==> (#[trigger] func.blocks@[g]).statements == new_ranges@[g],
                    same_frame(f0, *func),
                    func.block_params == f0.block_params,
                    func.cfg == f0.cfg,
                decreases nb - b,
            {
                func.blocks[b].statements = new_ranges[b];
                b = b + 1;
            }
            proof {
                let ls = live_lists(f0);
                let ids = flat(ls);
                lemma_flat_bound(ls, f0.stmts@.len());
                assert forall|g: int| 0 <= g < nb implies (#[trigger] func.blocks@[g]).statements == (
                crate::amir::DenseRange {
                    start: flat(ls.take(g)).len() as usize,
                    len: live_ids(f0, g).len() as usize,
                }) by {
                    assert(views(lists@)[g] == lists@[g]@);
                    assert(ls[g] == live_ids(f0, g));
                }
                assert(swept(f0, *func));
                assert forall|g: int| 0 <= g < nb implies #[trigger] func.block_ranges_ok(g) by {
                    lemma_flat_prefix(ls, g);
                    assert(f0.block_ranges_ok(g));
                }
                assert forall|k: int| 0 <= k < func.stmts@.len() implies crate::amir::stmt_temps_ok(
                    #[trigger] func.stmts@[k],
                    func.temps@.len(),
                ) && f0.stmts@.contains(func.stmts@[k]) by {
                    assert(func.stmts@[k] == f0.stmts@[ids[k] as int]);
                    assert(ids[k] < f0.stmts@.len());
                }
                assert(crate::amir::drawn_from(f0, *func));
                crate::amir::lemma_wf_body_parts(f0);
                crate::amir::lemma_wf_body_parts(*func);
                if f0.wf_body() {
                    crate::amir::lemma_drawn_locals(f0, *func, f0.locals@.len());
                }
                assert forall|g: int| 0 <= g < nb implies crate::amir::operands_ok(
                    terminator_operands(#[trigger] func.blocks@[g].terminator),
                    func.temps@.len(),
                ) by {
                    assert(crate::amir::operands_ok(terminator_operands(f0.blocks@[g].terminator), f0.temps@.len()));
                }
                assert forall|g: int| 0 <= g < nb implies #[trigger] func.blocks@[g].id == g by {
                    assert(f0.blocks@[g].id == g);
                }
                lemma_swept_total(f0, *func, nb as int);
                assert(crate::amir::blocks_targets_in_range(func.blocks@)) by {
                    assert(crate::amir::blocks_targets_in_range(f0.blocks@));
                    assert forall|g: int| 0 <= g < nb implies #[trigger] func.blocks@[g].terminator
                        == f0.blocks@[g].terminator by {
                    }
                }
            }
            Ok(true)
        },
    }
}


proof fn lemma_chain_congruent(f1: AmirFunc, f2: AmirFunc, c: Seq<int>)
    requires
        f1.stmts@ == f2.stmts@,
        f1.blocks@ == f2.blocks@,
        dce_chain(f1, c),
    ensures
        dce_chain(f2, c),
{
    if !(0 <= c[0] < f1.stmts@.len() && covered(f1.blocks@, c[0]) && (is_return_store(f1.stmts@[c[0]])
        || spec_has_side_effect(f1.stmts@[c[0]]))) && !is_def_of(f1, c[0], 0) {
        let (b, t) = choose|b: int, t: TempId|
            #![trigger uses_temp(terminator_operands(f1.blocks@[b].terminator), t), is_def_of(f1, c[0], t)]
            0 <= b < f1.blocks@.len() && uses_temp(terminator_operands(f1.blocks@[b].terminator), t)
                && is_def_of(f1, c[0], t);
        assert(is_def_of(f2, c[0], t));
        assert(uses_temp(terminator_operands(f2.blocks@[b].terminator), t));
    }
    assert(dce_seed(f2, c[0]));
    assert forall|k: int| 1 <= k < c.len() implies dce_step(f2, c[k - 1], #[trigger] c[k]) by {
        assert(dce_step(f1, c[k - 1], c[k]));
        let t = choose|t: TempId| uses_temp(stmt_operands(f1.stmts@[c[k - 1]]), t) && #[trigger] is_def_of(
            f1,
            c[k],
            t,
        );
        assert(is_def_of(f2, c[k], t));
    }
}

/// Liveness reads only the statements, the blocks and the temps: a function
/// that agrees on them has nothing to remove exactly when `f1` has nothing.
pub proof fn lemma_dce_noop_congruent(f1: AmirFunc, f2: AmirFunc)
    requires
        f1.stmts@ == f2.stmts@,
        f1.blocks@ == f2.blocks@,
        f1.temps@ == f2.temps@,
    ensures
        dce_noop(f1) == dce_noop(f2),
{
    assert forall|i: int| dce_live(f1, i) implies dce_live(f2, i) by {
        let c = choose|c: Seq<int>| #[trigger] dce_chain(f1, c) && c.last() == i;
        lemma_chain_congruent(f1, f2, c);
    }
    assert forall|i: int| dce_live(f2, i) implies dce_live(f1, i) by {
        let c = choose|c: Seq<int>| #[trigger] dce_chain(f2, c) && c.last() == i;
        lemma_chain_congruent(f2, f1, c);
    }
}

proof fn lemma_flat_contains(ls: Seq<Seq<usize>>, b: int, x: usize)
    requires
        0 <= b < ls.len(),
        ls[b].contains(x),
    ensures
        flat(ls).contains(x),
    decreases ls.len(),
{
    let front = flat(ls.drop_last());
    if b == ls.len() - 1 {
        let w = choose|w: int| 0 <= w < ls[b].len() && ls[b][w] == x;
        assert(flat(ls)[front.len() + w] == x);
    } else {
        assert(ls.drop_last()[b] == ls[b]);
        lemma_flat_contains(ls.drop_last(), b, x);
        let w = choose|w: int| 0 <= w < front.len() && front[w] == x;
        assert(flat(ls)[w] == x);
    }
}

proof fn lemma_live_covered(func: AmirFunc, i: int)
    requires
        dce_live(func, i),
    ensures
        0 <= i < func.stmts@.len(),
        covered(func.blocks@, i),
{
    let c = choose|c: Seq<int>| #[trigger] dce_chain(func, c) && c.last() == i;
    if c.len() == 1 {
        assert(dce_seed(func, c[0]));
        if !(0 <= i < func.stmts@.len() && covered(func.blocks@, i)) {
            if !is_def_of(func, i, 0) {
                let (b, t) = choose|b: int, t: TempId|
                    #![trigger uses_temp(terminator_operands(func.blocks@[b].terminator), t), is_def_of(func, i, t)]
                    0 <= b < func.blocks@.len() && uses_temp(terminator_operands(func.blocks@[b].terminator), t)
                        && is_def_of(func, i, t);
            }
        }
    } else {
        let k = c.len() - 1;
        assert(dce_step(func, c[k - 1], c[k]));
    }
}

/// Dead code elimination keeps every live statement: roots (side effects,
/// stores to the return slot, definitions of `_0` and of every temp a
/// terminator reads) and everything they transitively read.
pub proof fn lemma_live_statements_kept(func: AmirFunc, i: int)
    requires
        dce_live(func, i),
    ensures
        flat(live_lists(func)).contains(i as usize),
{
    lemma_live_covered(func, i);
    let b = choose|b: int|
        0 <= b < func.blocks@.len() && func.blocks@[b].statements.start <= i < func.blocks@[b].statements.start
            + #[trigger] func.blocks@[b].statements.len;
    let r = func.blocks@[b].statements;
    let ids = range_ids(r);
    let k = i - r.start;
    assert(func.stmts@.len() == func.stmts.len());
    assert(ids[k] == i as usize);
    ids.lemma_filter_contains(is_live_id(func), k);
    assert(live_lists(func)[b] == live_ids(func, b));
    lemma_flat_contains(live_lists(func), b, i as usize);
}

/// Every side-effecting statement of a block survives dead code
/// elimination.
pub proof fn lemma_side_effects_kept(func: AmirFunc, i: int)
    requires
        0 <= i < func.stmts@.len(),
        covered(func.blocks@, i),
        spec_has_side_effect(func.stmts@[i]),
    ensures
        flat(live_lists(func)).contains(i as usize),
{
    lemma_seed_live(func, i);
    lemma_live_statements_kept(func, i);
}

} // verus!
