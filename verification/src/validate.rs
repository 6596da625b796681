//! Structural validation of AMIR functions: the executable counterpart of
//! the well-formedness the passes rely on.

use vstd::prelude::*;
use crate::amir::{
    AmirFunc, AmirOperand, AmirRvalue, AmirStmt, BlockId, operand_ok, operands_ok, range_total, stmt_locals_ok,
    stmt_ok, stmt_operand_list, stmt_operands, successor_list, targets_in_range, terminator_operand_list,
    terminator_operands,
};

verus! {

/// Every operand of `ops` reads a temp below `nt`, if any.
fn operands_in_range(ops: &Vec<AmirOperand>, nt: usize) -> (ok: bool)
    ensures
        ok == operands_ok(ops@, nt as nat),
{
    let n = ops.len();
    let mut i: usize = 0;
    while i < n
        invariant
            n == ops@.len(),
            i <= n,
            forall|k: int| 0 <= k < i ==> operand_ok(#[trigger] ops@[k], nt as nat),
        decreases n - i,
    {
        let ok = match &ops[i] {
            AmirOperand::Copy(t) => *t < nt,
            AmirOperand::Move(t) => *t < nt,
            _ => true,
        };
        if !ok {
            return false;
        }
        i = i + 1;
    }
    true
}

/// The locals a statement names directly are below `nl`.
fn stmt_locals_in_range(s: &AmirStmt, nl: usize) -> (ok: bool)
    ensures
        ok == stmt_locals_ok(*s, nl as nat),
{
    match s {
        AmirStmt::Assign { rhs, .. } => match rhs {
            AmirRvalue::Load(p) => p.local < nl,
            AmirRvalue::Borrow(p) => p.local < nl,
            AmirRvalue::BorrowMut(p) => p.local < nl,
            AmirRvalue::RelativeBorrow { local, .. } => *local < nl,
            _ => true,
        },
        AmirStmt::Store { lhs, .. } => lhs.local < nl,
        AmirStmt::Destroy(p) => p.local < nl,
        AmirStmt::StorageLive(l) => *l < nl,
        AmirStmt::StorageDead(l) => *l < nl,
        _ => true,
    }
}

/// A statement reads and defines temps below `nt` and names locals below `nl`.
fn stmt_in_range(s: &AmirStmt, nt: usize, nl: usize) -> (ok: bool)
    ensures
        ok == stmt_ok(*s, nt as nat, nl as nat),
{
    let ops = stmt_operand_list(s);
    if !operands_in_range(&ops, nt) {
        return false;
    }
    let def_ok = match s {
        AmirStmt::Assign { lhs, .. } => *lhs < nt,
        AmirStmt::Call { lhs, .. } => match lhs {
            Some(t) => *t < nt,
            None => true,
        },
        _ => true,
    };
    def_ok && stmt_locals_in_range(s, nl)
}

/// Every target of a successor list is below `nb`.
fn targets_below(succs: &Vec<BlockId>, nb: usize) -> (ok: bool)
    ensures
        ok == forall|k: int| 0 <= k < succs@.len() ==> #[trigger] succs@[k] < nb,
{
    let n = succs.len();
    let mut i: usize = 0;
    while i < n
        invariant
            n == succs@.len(),
            i <= n,
            forall|k: int| 0 <= k < i ==> #[trigger] succs@[k] < nb,
        decreases n - i,
    {
        if succs[i] >= nb {
            return false;
        }
        i = i + 1;
    }
    true
}

/// The blocks are numbered in order, their ranges lie inside the side
/// tables, and their terminators jump to blocks and read temps in range.
fn blocks_valid(func: &AmirFunc) -> (ok: bool)
    ensures
        ok == {
            &&& forall|b: int| 0 <= b < func.blocks@.len() ==> #[trigger] func.blocks@[b].id == b
            &&& forall|b: int| 0 <= b < func.blocks@.len() ==> #[trigger] func.block_ranges_ok(b)
            &&& crate::amir::blocks_targets_in_range(func.blocks@)
            &&& forall|b: int|
                0 <= b < func.blocks@.len() ==> operands_ok(
                    terminator_operands(#[trigger] func.blocks@[b].terminator),
                    func.temps@.len(),
                )
        },
{
    let nb = func.blocks.len();
    let ns = func.stmts.len();
    let np = func.block_params.len();
    let nt = func.temps.len();
    let mut b: usize = 0;
    while b < nb
        invariant
            nb == func.blocks@.len(),
            ns == func.stmts@.len(),
            np == func.block_params@.len(),
            nt == func.temps@.len(),
            b <= nb,
            forall|k: int| 0 <= k < b ==> #[trigger] func.blocks@[k].id == k,
            forall|k: int| 0 <= k < b ==> #[trigger] func.block_ranges_ok(k),
            forall|k: int| 0 <= k < b ==> targets_in_range(#[trigger] func.blocks@[k].terminator, nb as nat),
            forall|k: int|
                0 <= k < b ==> operands_ok(terminator_operands(#[trigger] func.blocks@[k].terminator), nt as nat),
        decreases nb - b,
    {
        let blk = &func.blocks[b];
        if blk.id != b {
            return false;
        }
        let r = blk.statements;
        if r.len > ns || r.start > ns - r.len {
            proof {
                assert(!func.block_ranges_ok(b as int));
            }
            return false;
        }
        let p = blk.params;
        if p.len > np || p.start > np - p.len {
            proof {
                assert(!func.block_ranges_ok(b as int));
            }
            return false;
        }
        let succs = successor_list(&blk.terminator);
        if !targets_below(&succs, nb) {
            proof {
                let k = choose|k: int| 0 <= k < succs@.len() && !(succs@[k] < nb);
                assert(!targets_in_range(func.blocks@[b as int].terminator, nb as nat));
                assert(!crate::amir::blocks_targets_in_range(func.blocks@));
            }
            return false;
        }
        let ops = terminator_operand_list(&blk.terminator);
        if !operands_in_range(&ops, nt) {
            return false;
        }
        b = b + 1;
    }
    true
}

/// Every statement, block parameter, parameter and the receiver names temps
/// and locals in range.
fn side_tables_valid(func: &AmirFunc) -> (ok: bool)
    ensures
        ok == {
            let nt = func.temps@.len();
            let nl = func.locals@.len();
            &&& forall|i: int| 0 <= i < func.stmts@.len() ==> stmt_ok(#[trigger] func.stmts@[i], nt, nl)
            &&& forall|i: int|
                0 <= i < func.block_params@.len() ==> #[trigger] func.block_params@[i].id < nt
                    && func.block_params@[i].local < nl
            &&& forall|i: int| 0 <= i < func.params@.len() ==> #[trigger] func.params@[i] < nt
            &&& match func.receiver {
                Some(r) => r.temp < nt,
                None => true,
            }
        },
{
    let nt = func.temps.len();
    let nl = func.locals.len();
    let ns = func.stmts.len();
    let mut i: usize = 0;
    while i < ns
        invariant
            ns == func.stmts@.len(),
            nt == func.temps@.len(),
            nl == func.locals@.len(),
            i <= ns,
            forall|k: int| 0 <= k < i ==> stmt_ok(#[trigger] func.stmts@[k], nt as nat, nl as nat),
        decreases ns - i,
    {
        if !stmt_in_range(&func.stmts[i], nt, nl) {
            return false;
        }
        i = i + 1;
    }
    let np = func.block_params.len();
    let mut i: usize = 0;
    while i < np
        invariant
            np == func.block_params@.len(),
            nt == func.temps@.len(),
            nl == func.locals@.len(),
            i <= np,
            forall|k: int|
                0 <= k < i ==> #[trigger] func.block_params@[k].id < nt && func.block_params@[k].local < nl,
        decreases np - i,
    {
        if func.block_params[i].id >= nt || func.block_params[i].local >= nl {
            return false;
        }
        i = i + 1;
    }
    let nparams = func.params.len();
    let mut i: usize = 0;
    while i < nparams
        invariant
            nparams == func.params@.len(),
            nt == func.temps@.len(),
            i <= nparams,
            forall|k: int| 0 <= k < i ==> #[trigger] func.params@[k] < nt,
        decreases nparams - i,
    {
        if func.params[i] >= nt {
            return false;
        }
        i = i + 1;
    }
    match &func.receiver {
        Some(r) => r.temp < nt,
        None => true,
    }
}

/// The total length of all statement ranges stays within `limit`.
fn positions_within(func: &AmirFunc, limit: usize) -> (ok: bool)
    ensures
        ok == (range_total(*func, func.blocks@.len() as int) <= limit),
{
    let nb = func.blocks.len();
    let mut total: usize = 0;
    let mut b: usize = 0;
    while b < nb
        invariant
            nb == func.blocks@.len(),
            b <= nb,
            total == range_total(*func, b as int),
            total <= limit,
        decreases nb - b,
    {
        let len = func.blocks[b].statements.len;
        if len > limit - total {
            proof {
                crate::amir::lemma_range_total_mono(*func, b + 1, nb as int);
            }
            return false;
        }
        total = total + len;
        b = b + 1;
    }
    true
}

/// Whether `func` is structurally valid, has one predecessor list per
/// block and stays within the statement-position bound.
pub fn func_ready(func: &AmirFunc) -> (ok: bool)
    ensures
        ok == crate::optimize::pipeline_ready(*func),
{
    blocks_valid(func) && side_tables_valid(func) && func.cfg.predecessors.len() == func.blocks.len()
        && positions_within(func, usize::MAX / 32)
}

} // verus!
