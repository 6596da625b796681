//! CFG simplification: jump threading, block merging and removal of
//! unreachable blocks, iterated to a fixpoint.

use vstd::prelude::*;
use std::collections::VecDeque;
use crate::amir::{
    AmirBasicBlock, AmirFunc, AmirOperand, BlockParam, AmirTerminator, BlockId, CfgEdges, DenseRange, Span,
    SwitchOtherwise, SwitchTarget, cfg_matches, compute_cfg_edges, lemma_range_total_same, range_total, terminator_targets,
};
use crate::diagnostics::{DiagCode, Diagnostic, Severity, decimal, push_decimal};
use crate::sccp::{count_false, lemma_count_false_set, lemma_count_false_mono};
use crate::analysis_limits::CFG_SIMPLIFY_MAX_OUTER_ITERS;
use crate::stmt_table::{
    blocks_ids, group_range, groups_distinct, groups_ids, lemma_group_ranges_disjoint, lemma_groups_ids_in,
    lemma_groups_ids_no_dup, lemma_groups_ids_prefix, ranges_disjoint, ranges_fit, rebuild_table, views,
};

verus! {

// ---------------------------------------------------------------------------
// Diagnostics helpers
// ---------------------------------------------------------------------------

/// The span reported by internal errors of the optimizer: the first temp,
/// else the first local, else the start of the function's file.
pub open spec fn spec_optimization_span(func: AmirFunc) -> Span {
    if func.temps@.len() > 0 {
        func.temps@[0].span
    } else if func.locals@.len() > 0 {
        func.locals@[0].span
    } else {
        Span { file_id: func.symbol.file_id, start: 0, end: 0 }
    }
}

pub fn optimization_span(func: &AmirFunc) -> (s: Span)
    ensures
        s == spec_optimization_span(*func),
{
    if func.temps.len() > 0 {
        func.temps[0].span
    } else if func.locals.len() > 0 {
        func.locals[0].span
    } else {
        Span { file_id: func.symbol.file_id, start: 0, end: 0 }
    }
}

/// The internal error reported when a rebuild meets a statement id twice.
pub fn duplicate_stmt_ice(phase: &str, index: usize, span: Span) -> (d: Diagnostic)
    ensures
        d.code == DiagCode::ICEO001,
        d.severity == Severity::Ice,
        d.span == span,
        d.message@ == "CFG "@ + phase@ + " encountered duplicate or out-of-range statement id "@
            + decimal(index as nat),
{
    let mut msg = "CFG ".to_owned();
    msg.push_str(phase);
    msg.push_str(" encountered duplicate or out-of-range statement id ");
    push_decimal(&mut msg, index);
    Diagnostic::ice(DiagCode::ICEO001, msg, span)
}

// ---------------------------------------------------------------------------
// Jump threading
// ---------------------------------------------------------------------------

/// A block with no statements, no parameters and a `Goto` without arguments.
pub open spec fn is_empty_goto(b: AmirBasicBlock) -> bool {
    &&& b.statements.len == 0
    &&& b.params.len == 0
    &&& b.terminator matches AmirTerminator::Goto { args, .. } && args@.len() == 0
}

pub open spec fn goto_target(t: AmirTerminator) -> BlockId {
    match t {
        AmirTerminator::Goto { target, .. } => target,
        _ => 0,
    }
}

/// Following empty `Goto` blocks from `b` for at most `fuel` blocks: the
/// first block that is not an empty `Goto`, or `None` when the walk does not
/// leave the chain.
pub open spec fn chain_end(blocks: Seq<AmirBasicBlock>, b: BlockId, fuel: nat) -> Option<BlockId>
    decreases fuel,
{
    if fuel == 0 {
        None
    } else if !is_empty_goto(blocks[b as int]) {
        Some(b)
    } else {
        chain_end(blocks, goto_target(blocks[b as int].terminator), (fuel - 1) as nat)
    }
}

/// Where a jump to `b` can go directly: the end of the empty-`Goto` chain
/// from `b`, or `b` itself when that chain is a cycle.
pub open spec fn resolved_target(blocks: Seq<AmirBasicBlock>, b: BlockId) -> BlockId {
    match chain_end(blocks, b, blocks.len()) {
        Some(x) => x,
        None => b,
    }
}

proof fn lemma_chain_end_in_range(blocks: Seq<AmirBasicBlock>, b: BlockId, fuel: nat)
    requires
        crate::amir::blocks_targets_in_range(blocks),
        b < blocks.len(),
    ensures
        chain_end(blocks, b, fuel) matches Some(x) ==> x < blocks.len(),
    decreases fuel,
{
    if fuel > 0 && is_empty_goto(blocks[b as int]) {
        assert(terminator_targets(blocks[b as int].terminator)[0] == goto_target(
            blocks[b as int].terminator,
        ));
        assert(crate::amir::targets_in_range(blocks[b as int].terminator, blocks.len()));
        lemma_chain_end_in_range(blocks, goto_target(blocks[b as int].terminator), (fuel - 1) as nat);
    }
}

/// Follows the chain of empty `Goto` blocks from `block`.  A terminating
/// chain visits each block at most once; a longer walk is a cycle, and the
/// original edge into it is kept.
fn resolve_goto_chain(func: &AmirFunc, block: BlockId) -> (r: BlockId)
    requires
        func.wf_shape(),
        block < func.blocks@.len(),
    ensures
        r == resolved_target(func.blocks@, block),
        r < func.blocks@.len(),
{
    let n = func.blocks.len();
    let original = block;
    let mut cur = block;
    let mut i: usize = 0;
    while i < n
        invariant
            func.wf_shape(),
            n == func.blocks@.len(),
            i <= n,
            cur < n,
            original == block,
            chain_end(func.blocks@, original, n as nat) == chain_end(func.blocks@, cur, (n - i) as nat),
        decreases n - i,
    {
        let b = &func.blocks[cur];
        if b.statements.len != 0 || b.params.len != 0 {
            assert(!is_empty_goto(func.blocks@[cur as int]));
            assert(chain_end(func.blocks@, cur, (n - i) as nat) == Some(cur));
            assert(chain_end(func.blocks@, original, n as nat) == Some(cur));
            assert(func.blocks@.len() == n as nat);
            assert(resolved_target(func.blocks@, block) == cur);
            return cur;
        }
        match &b.terminator {
            AmirTerminator::Goto { target, args } => {
                if args.len() != 0 {
                    assert(!is_empty_goto(func.blocks@[cur as int]));
                    assert(chain_end(func.blocks@, cur, (n - i) as nat) == Some(cur));
                    assert(chain_end(func.blocks@, original, n as nat) == Some(cur));
                    assert(resolved_target(func.blocks@, block) == cur);
                    return cur;
                }
                assert(is_empty_goto(func.blocks@[cur as int]));
                assert(terminator_targets(func.blocks@[cur as int].terminator)[0] == *target);
                assert(crate::amir::targets_in_range(func.blocks@[cur as int].terminator, n as nat));
                cur = *target;
            },
            _ => {
                assert(!is_empty_goto(func.blocks@[cur as int]));
                assert(chain_end(func.blocks@, cur, (n - i) as nat) == Some(cur));
                assert(chain_end(func.blocks@, original, n as nat) == Some(cur));
                assert(resolved_target(func.blocks@, block) == cur);
                return cur;
            },
        }
        i = i + 1;
    }
    proof {
        lemma_chain_end_in_range(func.blocks@, original, n as nat);
    }
    original
}

/// Every block but `b` is unchanged.
pub open spec fn others_unchanged(old: Seq<AmirBasicBlock>, new: Seq<AmirBasicBlock>, b: int) -> bool {
    &&& new.len() == old.len()
    &&& forall|i: int| 0 <= i < old.len() && i != b ==> #[trigger] new[i] == old[i]
}

/// The function without its blocks and CFG lists is unchanged.
pub open spec fn same_frame(old: AmirFunc, new: AmirFunc) -> bool {
    &&& new.symbol == old.symbol
    &&& new.return_type == old.return_type
    &&& new.receiver == old.receiver
    &&& new.params@ == old.params@
    &&& new.locals@ == old.locals@
    &&& new.temps@ == old.temps@
}

/// Jump threading at `bid`: when it ends in an argument-free `Goto` into a
/// chain of empty `Goto` blocks, it jumps to the end of the chain directly.
fn thread_block(func: &mut AmirFunc, bid: BlockId) -> (changed: bool)
    requires
        old(func).wf_shape_cfg(),
        bid < old(func).blocks@.len(),
    ensures
        final(func).wf_shape_cfg(),
        match old(func).blocks@[bid as int].terminator {
            AmirTerminator::Goto { target, args } => if args@.len() == 0 && resolved_target(
                old(func).blocks@,
                target,
            ) != target {
                &&& changed
                &&& same_frame(*old(func), *final(func))
                &&& final(func).stmts == old(func).stmts
                &&& final(func).block_params == old(func).block_params
                &&& crate::amir::drawn_from(*old(func), *final(func))
                &&& others_unchanged(old(func).blocks@, final(func).blocks@, bid as int)
                &&& final(func).blocks@[bid as int].id == bid
                &&& final(func).blocks@[bid as int].statements == old(func).blocks@[bid as int].statements
                &&& final(func).blocks@[bid as int].params == old(func).blocks@[bid as int].params
                &&& crate::sccp::is_goto(
                    final(func).blocks@[bid as int].terminator,
                    resolved_target(old(func).blocks@, target),
                    seq![],
                )
            } else {
                !changed && *final(func) == *old(func)
            },
            _ => !changed && *final(func) == *old(func),
        },
{
    let nb = func.blocks.len();
    let target = match &func.blocks[bid].terminator {
        AmirTerminator::Goto { target, args } => {
            if args.len() != 0 {
                return false;
            }
            *target
        },
        _ => {
            return false;
        },
    };
    assert(terminator_targets(func.blocks@[bid as int].terminator)[0] == target);
    assert(crate::amir::targets_in_range(func.blocks@[bid as int].terminator, nb as nat));
    let final_target = resolve_goto_chain(func, target);
    if final_target == target {
        return false;
    }
    let ghost f0 = *func;
    func.blocks[bid].terminator = AmirTerminator::Goto { target: final_target, args: Vec::new() };
    proof {
        assert forall|b: int| 0 <= b < nb implies crate::amir::targets_in_range(
            #[trigger] func.blocks@[b].terminator,
            nb as nat,
        ) by {
            if b == bid {
                assert(terminator_targets(func.blocks@[b].terminator) == seq![final_target]);
            } else {
                assert(crate::amir::targets_in_range(f0.blocks@[b].terminator, nb as nat));
            }
        }
        assert forall|b: int| 0 <= b < nb implies crate::amir::operands_ok(
            crate::amir::terminator_operands(#[trigger] func.blocks@[b].terminator),
            func.temps@.len(),
        ) by {
            if b == bid {
                assert(crate::amir::terminator_operands(func.blocks@[b].terminator).len() == 0);
            }
        }
        assert forall|b: int| 0 <= b < nb implies #[trigger] func.block_ranges_ok(b) by {
            assert(f0.block_ranges_ok(b));
        }
        assert forall|b: int| 0 <= b < nb implies #[trigger] func.blocks@[b].id == b by {
            assert(f0.blocks@[b].id == b);
        }
    }
    func.cfg = compute_cfg_edges(&func.blocks);
    proof {
        assert forall|b: int| 0 <= b < nb implies crate::amir::targets_in_range(
            #[trigger] func.blocks@[b].terminator,
            nb as nat,
        ) by {
            if b == bid {
                assert(terminator_targets(func.blocks@[b].terminator) == seq![final_target]);
            } else {
                assert(crate::amir::targets_in_range(f0.blocks@[b].terminator, nb as nat));
            }
        }
        assert forall|b: int| 0 <= b < nb implies crate::amir::operands_ok(
            crate::amir::terminator_operands(#[trigger] func.blocks@[b].terminator),
            func.temps@.len(),
        ) by {
            if b == bid {
                assert(crate::amir::terminator_operands(func.blocks@[b].terminator).len() == 0);
            }
        }
        assert forall|b: int| 0 <= b < nb implies #[trigger] func.block_ranges_ok(b) by {
            assert(f0.block_ranges_ok(b));
        }
        assert forall|b: int| 0 <= b < nb implies #[trigger] func.blocks@[b].id == b by {
            assert(f0.blocks@[b].id == b);
        }
    }
    assert(func.wf_shape());
    true
}

// ---------------------------------------------------------------------------
// Block merging
// ---------------------------------------------------------------------------

/// The statement ranges of the blocks.
pub open spec fn stmt_ranges(blocks: Seq<AmirBasicBlock>) -> Seq<DenseRange> {
    blocks.map_values(|b: AmirBasicBlock| b.statements)
}

/// How merging `from` into `into` regroups statements: `into` takes its own
/// statements followed by those of `from`, `from` is left empty.
pub open spec fn merge_groups(nb: nat, into: int, from: int) -> Seq<Seq<usize>> {
    Seq::new(
        nb,
        |g: int|
            if g == into {
                seq![into as usize, from as usize]
            } else if g == from {
                seq![]
            } else {
                seq![g as usize]
            },
    )
}

/// The function rebuilt with the statements regrouped by `groups` (one group
/// per block); the block table keeps its length, ids and parameters.
pub open spec fn regrouped(old: AmirFunc, new: AmirFunc, groups: Seq<Seq<usize>>) -> bool {
    let ids = groups_ids(stmt_ranges(old.blocks@), groups);
    &&& same_frame(old, new)
    &&& new.block_params == old.block_params
    &&& new.blocks@.len() == old.blocks@.len()
    &&& new.stmts@.len() == ids.len()
    &&& forall|i: int| 0 <= i < ids.len() ==> #[trigger] new.stmts@[i] == old.stmts@[ids[i] as int]
    &&& forall|g: int|
        0 <= g < old.blocks@.len() ==> (#[trigger] new.blocks@[g]).id == old.blocks@[g].id
            && new.blocks@[g].params == old.blocks@[g].params && new.blocks@[g].statements
            == group_range(stmt_ranges(old.blocks@), groups, g)
}

/// `new` is `old` with block `from` merged into block `into`.
pub open spec fn merged(old: AmirFunc, new: AmirFunc, into: int, from: int) -> bool {
    &&& regrouped(old, new, merge_groups(old.blocks@.len(), into, from))
    &&& new.blocks@[into].terminator == old.blocks@[from].terminator
    &&& new.blocks@[from].terminator == AmirTerminator::Unreachable
    &&& forall|g: int|
        0 <= g < old.blocks@.len() && g != into && g != from ==> (#[trigger] new.blocks@[g]).terminator
            == old.blocks@[g].terminator
}

/// Merging fails exactly when the rebuilt table would take a statement id
/// twice: when statement ranges of blocks overlap.
pub open spec fn merge_fails(old: AmirFunc, into: int, from: int) -> bool {
    !groups_ids(stmt_ranges(old.blocks@), merge_groups(old.blocks@.len(), into, from)).no_duplicates()
}

proof fn lemma_regroup_wf(old: AmirFunc, new: AmirFunc, groups: Seq<Seq<usize>>)
    requires
        old.wf_shape(),
        regrouped(old, new, groups),
        groups.len() == old.blocks@.len(),
        crate::stmt_table::rebuild_ok(stmt_ranges(old.blocks@), groups, old.stmts@.len()),
        forall|b: int| 0 <= b < new.blocks@.len() ==> crate::amir::targets_in_range(
            #[trigger] new.blocks@[b].terminator, new.blocks@.len()),
        forall|b: int| 0 <= b < new.blocks@.len() ==> crate::amir::operands_ok(
            crate::amir::terminator_operands(#[trigger] new.blocks@[b].terminator), new.temps@.len()),
    ensures
        new.wf_shape(),
        crate::amir::drawn_from(old, new),
{
    let ranges = stmt_ranges(old.blocks@);
    let ids = groups_ids(ranges, groups);
    lemma_groups_ids_in(ranges, groups, old.stmts@.len());
    assert forall|b: int| 0 <= b < new.blocks@.len() implies #[trigger] new.block_ranges_ok(b) by {
        lemma_groups_ids_prefix(ranges, groups, b);
        assert(groups.take(b + 1).len() == b + 1);
        assert(old.block_ranges_ok(b));
    }
    assert forall|i: int| 0 <= i < new.stmts@.len() implies crate::amir::stmt_temps_ok(
        #[trigger] new.stmts@[i], new.temps@.len()) && old.stmts@.contains(new.stmts@[i]) by {
        assert(ids[i] < old.stmts@.len());
        assert(crate::amir::stmt_temps_ok(old.stmts@[ids[i] as int], old.temps@.len()));
    }
    assert forall|b: int| 0 <= b < new.blocks@.len() implies #[trigger] new.blocks@[b].id == b by {
        assert(old.blocks@[b].id == b);
    }
    assert forall|i: int| 0 <= i < new.block_params@.len() implies old.block_params@.contains(
        #[trigger] new.block_params@[i],
    ) by {
        assert(old.block_params@[i] == new.block_params@[i]);
    }
}

/// Merges block `from` into block `into`, rebuilding the statement table.
fn merge_two_blocks(func: &mut AmirFunc, into: BlockId, from: BlockId) -> (res: Result<(), Diagnostic>)
    requires
        old(func).wf_shape_cfg(),
        into < old(func).blocks@.len(),
        from < old(func).blocks@.len(),
        into != from,
    ensures
        match res {
            Ok(()) => final(func).wf_shape_cfg() && merged(*old(func), *final(func), into as int, from as int)
                && !merge_fails(*old(func), into as int, from as int) && crate::amir::drawn_from(
                *old(func),
                *final(func),
            ),
            Err(d) => d.code == DiagCode::ICEO001 && merge_fails(*old(func), into as int, from as int),
        },
{
    let ghost f0 = *func;
    let nb = func.blocks.len();
    let mut ranges: Vec<DenseRange> = Vec::new();
    let mut b: usize = 0;
    while b < nb
        invariant
            nb == func.blocks@.len(),
            b <= nb,
            ranges@ == stmt_ranges(func.blocks@).take(b as int),
        decreases nb - b,
    {
        ranges.push(func.blocks[b].statements);
        proof {
            assert(stmt_ranges(func.blocks@).take(b + 1) == stmt_ranges(func.blocks@).take(b as int).push(
                func.blocks@[b as int].statements,
            ));
        }
        b = b + 1;
    }
    assert(stmt_ranges(func.blocks@).take(nb as int) == stmt_ranges(func.blocks@));
    let mut groups: Vec<Vec<usize>> = Vec::new();
    let mut g: usize = 0;
    while g < nb
        invariant
            g <= nb,
            into < nb,
            from < nb,
            views(groups@) == merge_groups(nb as nat, into as int, from as int).take(g as int),
        decreases nb - g,
    {
        let mut grp: Vec<usize> = Vec::new();
        if g == into {
            grp.push(into);
            grp.push(from);
        } else if g != from {
            grp.push(g);
        }
        groups.push(grp);
        proof {
            let mg = merge_groups(nb as nat, into as int, from as int);
            assert(mg.take(g + 1) == mg.take(g as int).push(mg[g as int]));
            assert(grp@ =~= mg[g as int]);
            assert(views(groups@) =~= mg.take(g + 1));
        }
        g = g + 1;
    }
    let ghost mg = merge_groups(nb as nat, into as int, from as int);
    assert(mg.take(nb as int) == mg);
    let span = optimization_span(func);
    let mut old_stmts: Vec<crate::amir::AmirStmt> = Vec::new();
    std::mem::swap(&mut old_stmts, &mut func.stmts);
    proof {
        assert forall|bb: int| 0 <= bb < ranges@.len() implies #[trigger] ranges@[bb].start + ranges@[bb].len
            <= old_stmts@.len() by {
            assert(f0.block_ranges_ok(bb));
        }
    }
    match rebuild_table(old_stmts, &ranges, &groups) {
        Err(x) => Err(duplicate_stmt_ice("block merge", x, span)),
        Ok((new_stmts, new_ranges)) => {
            let mut t = AmirTerminator::Unreachable;
            std::mem::swap(&mut t, &mut func.blocks[from].terminator);
            func.blocks[into].terminator = t;
            func.stmts = new_stmts;
            let ghost nst = func.stmts@;
            let mut i: usize = 0;
            while i < nb
                invariant
                    nb == func.blocks@.len(),
                    into < nb,
                    from < nb,
                    i <= nb,
                    func.stmts@ == nst,
                    forall|k: int| 0 <= k < nb ==> #[trigger] new_ranges@[k] == group_range(ranges@, views(groups@), k),
                    new_ranges@.len() == nb,
                    forall|k: int| 0 <= k < nb ==> (#[trigger] func.blocks@[k]).id == f0.blocks@[k].id
                        && func.blocks@[k].params == f0.blocks@[k].params,
                    func.blocks@[into as int].terminator == f0.blocks@[from as int].terminator,
                    func.blocks@[from as int].terminator == AmirTerminator::Unreachable,
                    forall|k: int|
                        0 <= k < nb && k != into && k != from ==> (#[trigger] func.blocks@[k]).terminator
                            == f0.blocks@[k].terminator,
                    forall|k: int| 0 <= k < i ==> (#[trigger] func.blocks@[k]).statements == new_ranges@[k],
                    same_frame(f0, *func),
                    func.block_params == f0.block_params,
                decreases nb - i,
            {
                func.blocks[i].statements = new_ranges[i];
                i = i + 1;
            }
            proof {
                assert forall|k: int| 0 <= k < nb implies crate::amir::targets_in_range(
                    #[trigger] func.blocks@[k].terminator, nb as nat) && crate::amir::operands_ok(
                    crate::amir::terminator_operands(func.blocks@[k].terminator), func.temps@.len()) by {
                    if k == into {
                        assert(crate::amir::targets_in_range(f0.blocks@[from as int].terminator, nb as nat));
                        assert(crate::amir::operands_ok(
                            crate::amir::terminator_operands(f0.blocks@[from as int].terminator),
                            f0.temps@.len(),
                        ));
                    } else if k != from {
                        assert(crate::amir::targets_in_range(f0.blocks@[k].terminator, nb as nat));
                        assert(crate::amir::operands_ok(
                            crate::amir::terminator_operands(f0.blocks@[k].terminator),
                            f0.temps@.len(),
                        ));
                    }
                }
            }
            func.cfg = compute_cfg_edges(&func.blocks);
            proof {
                assert(regrouped(f0, *func, mg));
                lemma_regroup_wf(f0, *func, mg);
            }
            Ok(())
        },
    }
}

/// `bid` ends in an argument-free `Goto` to a different block whose only
/// predecessor is `bid` and which has no parameters: merging them is pure
/// fallthrough.  (A `Suspend`, `Branch` or `SwitchInt` is a control edge,
/// and block parameters cannot be dropped.)
pub open spec fn can_merge(func: AmirFunc, bid: int) -> bool {
    &&& func.blocks@[bid].terminator matches AmirTerminator::Goto { target, args } && args@.len()
        == 0
    &&& goto_target(func.blocks@[bid].terminator) != bid
    &&& func.cfg.predecessors@[goto_target(func.blocks@[bid].terminator) as int]@ == seq![bid as usize]
    &&& func.blocks@[goto_target(func.blocks@[bid].terminator) as int].params.len == 0
}

/// Threading would shorten the argument-free `Goto` that ends block `b`.
pub open spec fn threadable(blocks: Seq<AmirBasicBlock>, b: int) -> bool {
    blocks[b].terminator matches AmirTerminator::Goto { target, args } && args@.len() == 0
        && resolved_target(blocks, target) != target
}

/// `bid` is the only block whose terminator jumps to `t`.
pub open spec fn sole_pred(blocks: Seq<AmirBasicBlock>, t: int, bid: int) -> bool {
    forall|p: int|
        0 <= p < blocks.len() ==> (#[trigger] terminator_targets(blocks[p].terminator).contains(
            t as usize,
        ) <==> p == bid)
}

/// `can_merge`, read off the terminators instead of the CFG lists.
pub open spec fn mergeable(blocks: Seq<AmirBasicBlock>, bid: int) -> bool {
    &&& blocks[bid].terminator matches AmirTerminator::Goto { args, .. } && args@.len() == 0
    &&& goto_target(blocks[bid].terminator) != bid
    &&& sole_pred(blocks, goto_target(blocks[bid].terminator) as int, bid)
    &&& blocks[goto_target(blocks[bid].terminator) as int].params.len == 0
}

/// Nothing is left to simplify: every block is reached from the entry, no
/// jump can be threaded and no block can be merged with its successor.
pub open spec fn simplified(blocks: Seq<AmirBasicBlock>) -> bool {
    &&& forall|b: int| 0 <= b < blocks.len() ==> !#[trigger] threadable(blocks, b)
    &&& forall|b: int| 0 <= b < blocks.len() ==> !#[trigger] mergeable(blocks, b)
    &&& forall|i: int| 0 <= i < blocks.len() ==> #[trigger] entry_reaches(blocks, i)
}

/// With CFG lists that match the terminators, `can_merge` and `mergeable`
/// agree.
proof fn lemma_can_merge_mergeable(func: AmirFunc, bid: BlockId)
    requires
        func.wf_shape_cfg(),
        bid < func.blocks@.len(),
        func.blocks@.len() <= usize::MAX,
    ensures
        can_merge(func, bid as int) == mergeable(func.blocks@, bid as int),
{
    let blocks = func.blocks@;
    let t = blocks[bid as int].terminator;
    if t matches AmirTerminator::Goto { target, args } && args@.len() == 0 {
        let g = goto_target(t);
        assert(crate::amir::targets_in_range(t, blocks.len()));
        assert(terminator_targets(t)[0] == g);
        assert(g < blocks.len());
        let preds = func.cfg.predecessors@[g as int]@;
        assert(crate::amir::is_pred_list(blocks, g as int, preds));
        if preds == seq![bid] {
            assert(preds[0] == bid);
            assert(terminator_targets(blocks[preds[0] as int].terminator).contains(g as usize));
            assert forall|p: int| 0 <= p < blocks.len() implies (#[trigger] terminator_targets(
                blocks[p].terminator,
            ).contains(g as usize) <==> p == bid) by {
                if terminator_targets(blocks[p].terminator).contains(g as usize) {
                    assert(preds.contains(p as usize));
                    let i = choose|i: int| 0 <= i < preds.len() && preds[i] == p as usize;
                    assert(i == 0);
                }
            }
        }
        if sole_pred(blocks, g as int, bid as int) {
            assert(terminator_targets(t).contains(g as usize));
            assert(preds.contains(bid));
            assert forall|i: int| 0 <= i < preds.len() implies preds[i] == bid by {
                assert(terminator_targets(blocks[preds[i] as int].terminator).contains(g as usize));
            }
            if preds.len() > 1 {
                assert(preds[0] < preds[1]);
            }
            assert(preds =~= seq![bid]);
        }
    }
}

/// Merges `bid` with its successor when `can_merge` holds.
fn merge_block_candidate(func: &mut AmirFunc, bid: BlockId) -> (res: Result<bool, Diagnostic>)
    requires
        old(func).wf_shape_cfg(),
        bid < old(func).blocks@.len(),
    ensures
        !can_merge(*old(func), bid as int) ==> res == Ok::<bool, Diagnostic>(false) && *final(func)
            == *old(func),
        can_merge(*old(func), bid as int) ==> match res {
            Ok(b) => b && final(func).wf_shape_cfg() && merged(
                *old(func),
                *final(func),
                bid as int,
                goto_target(old(func).blocks@[bid as int].terminator) as int,
            ) && !merge_fails(
                *old(func),
                bid as int,
                goto_target(old(func).blocks@[bid as int].terminator) as int,
            ) && crate::amir::drawn_from(*old(func), *final(func)),
            Err(d) => d.code == DiagCode::ICEO001 && merge_fails(
                *old(func),
                bid as int,
                goto_target(old(func).blocks@[bid as int].terminator) as int,
            ),
        },
{
    let nb = func.blocks.len();
    match &func.blocks[bid].terminator {
        AmirTerminator::Goto { args, .. } => {
            if args.len() != 0 {
                return Ok(false);
            }
        },
        _ => {
            return Ok(false);
        },
    }
    let succs = &func.cfg.successors[bid];
    assert(succs@ == terminator_targets(func.blocks@[bid as int].terminator));
    if succs.len() != 1 {
        return Ok(false);
    }
    let succ = succs[0];
    assert(crate::amir::targets_in_range(func.blocks@[bid as int].terminator, nb as nat));
    assert(succ == goto_target(func.blocks@[bid as int].terminator));
    if succ >= nb || succ == bid {
        return Ok(false);
    }
    let preds = &func.cfg.predecessors[succ];
    if preds.len() != 1 || preds[0] != bid {
        assert(preds@ != seq![bid]);
        return Ok(false);
    }
    assert(preds@ =~= seq![bid]);
    if func.blocks[succ].params.len != 0 {
        return Ok(false);
    }
    match merge_two_blocks(func, bid, succ) {
        Ok(()) => Ok(true),
        Err(d) => Err(d),
    }
}

// ---------------------------------------------------------------------------
// Disjoint statement ranges
// ---------------------------------------------------------------------------

proof fn lemma_stmt_ranges_fit(f: AmirFunc)
    requires
        f.wf_shape(),
    ensures
        ranges_fit(stmt_ranges(f.blocks@)),
        stmt_ranges(f.blocks@).len() == f.blocks@.len(),
{
    assert forall|b: int| 0 <= b < stmt_ranges(f.blocks@).len() implies #[trigger] stmt_ranges(f.blocks@)[b].start
        + stmt_ranges(f.blocks@)[b].len <= usize::MAX by {
        assert(f.block_ranges_ok(b));
        assert(f.stmts@.len() == f.stmts.len());
    }
}

/// With disjoint statement ranges a merge never fails.
proof fn lemma_disjoint_merge_ok(f: AmirFunc, into: int, from: int)
    requires
        f.wf_shape(),
        ranges_disjoint(stmt_ranges(f.blocks@)),
        0 <= into < f.blocks@.len(),
        0 <= from < f.blocks@.len(),
        into != from,
    ensures
        !merge_fails(f, into, from),
{
    let nb = f.blocks@.len();
    let gs = merge_groups(nb, into, from);
    assert(f.blocks@.len() == f.blocks.len());
    lemma_stmt_ranges_fit(f);
    assert forall|g: int, j: int| 0 <= g < gs.len() && 0 <= j < gs[g].len() implies #[trigger] gs[g][j]
        < stmt_ranges(f.blocks@).len() by {}
    assert(groups_distinct(gs)) by {
        assert forall|g1: int, j1: int, g2: int, j2: int|
            0 <= g1 < gs.len() && 0 <= j1 < gs[g1].len() && 0 <= g2 < gs.len() && 0 <= j2 < gs[g2].len() && (g1
                != g2 || j1 != j2) implies #[trigger] gs[g1][j1] != #[trigger] gs[g2][j2] by {
            assert(gs[g1] == if g1 == into {
                seq![into as usize, from as usize]
            } else if g1 == from {
                seq![]
            } else {
                seq![g1 as usize]
            });
            assert(gs[g2] == if g2 == into {
                seq![into as usize, from as usize]
            } else if g2 == from {
                seq![]
            } else {
                seq![g2 as usize]
            });
        }
    }
    lemma_groups_ids_no_dup(stmt_ranges(f.blocks@), gs);
}

/// With disjoint statement ranges the sweep of unreachable blocks never
/// fails.
proof fn lemma_disjoint_sweep_ok(f: AmirFunc)
    requires
        f.wf_shape(),
        ranges_disjoint(stmt_ranges(f.blocks@)),
    ensures
        !sweep_fails(f),
{
    let mark = reach_marks(f.blocks@);
    let gs = keep_groups(mark);
    lemma_stmt_ranges_fit(f);
    assert(f.blocks@.len() == f.blocks.len());
    lemma_kept_props(mark);
    assert forall|g: int, j: int| 0 <= g < gs.len() && 0 <= j < gs[g].len() implies #[trigger] gs[g][j]
        < stmt_ranges(f.blocks@).len() by {
        assert(gs[g] == seq![kept(mark)[g]]);
    }
    assert(groups_distinct(gs)) by {
        assert forall|g1: int, j1: int, g2: int, j2: int|
            0 <= g1 < gs.len() && 0 <= j1 < gs[g1].len() && 0 <= g2 < gs.len() && 0 <= j2 < gs[g2].len() && (g1
                != g2 || j1 != j2) implies #[trigger] gs[g1][j1] != #[trigger] gs[g2][j2] by {
            assert(gs[g1] == seq![kept(mark)[g1]]);
            assert(gs[g2] == seq![kept(mark)[g2]]);
            assert(rank(mark, kept(mark)[g1] as int) == g1);
            assert(rank(mark, kept(mark)[g2] as int) == g2);
        }
    }
    lemma_groups_ids_no_dup(stmt_ranges(f.blocks@), gs);
}

/// A merge rebuilds the table with the ranges of the blocks one after the
/// other.
proof fn lemma_merged_disjoint(old: AmirFunc, new: AmirFunc, into: int, from: int)
    requires
        merged(old, new, into, from),
    ensures
        ranges_disjoint(stmt_ranges(new.blocks@)),
{
    let gs = merge_groups(old.blocks@.len(), into, from);
    assert(new.stmts@.len() == new.stmts.len());
    assert forall|g: int| 0 <= g < gs.len() implies #[trigger] stmt_ranges(new.blocks@)[g] == group_range(
        stmt_ranges(old.blocks@),
        gs,
        g,
    ) by {
        assert(new.blocks@[g].statements == group_range(stmt_ranges(old.blocks@), gs, g));
    }
    lemma_group_ranges_disjoint(stmt_ranges(old.blocks@), gs, stmt_ranges(new.blocks@));
}

/// The sweep rebuilds the table with the ranges of the kept blocks one
/// after the other.
proof fn lemma_compacted_disjoint(old: AmirFunc, new: AmirFunc, mark: Seq<bool>)
    requires
        compacted(old, new, mark),
    ensures
        ranges_disjoint(stmt_ranges(new.blocks@)),
{
    let gs = keep_groups(mark);
    assert(new.stmts@.len() == new.stmts.len());
    assert forall|g: int| 0 <= g < gs.len() implies #[trigger] stmt_ranges(new.blocks@)[g] == group_range(
        stmt_ranges(old.blocks@),
        gs,
        g,
    ) by {
        assert(new.blocks@[g].statements == group_range(stmt_ranges(old.blocks@), gs, g));
    }
    lemma_group_ranges_disjoint(stmt_ranges(old.blocks@), gs, stmt_ranges(new.blocks@));
}

// ---------------------------------------------------------------------------
// Reachability
// ---------------------------------------------------------------------------

/// `p` is a walk along terminator edges that starts at the entry block.
pub open spec fn is_entry_path(blocks: Seq<AmirBasicBlock>, p: Seq<BlockId>) -> bool {
    &&& p.len() > 0
    &&& p[0] == 0
    &&& forall|k: int| 0 <= k < p.len() ==> #[trigger] p[k] < blocks.len()
    &&& forall|k: int|
        0 <= k < p.len() - 1 ==> terminator_targets(blocks[#[trigger] p[k] as int].terminator).contains(
            p[k + 1],
        )
}

/// Block `x` can be reached from the entry block.
pub open spec fn entry_reaches(blocks: Seq<AmirBasicBlock>, x: int) -> bool {
    exists|p: Seq<BlockId>| is_entry_path(blocks, p) && p.last() == x
}

/// Every target of a marked block is marked.
pub open spec fn closed_marks(blocks: Seq<AmirBasicBlock>, mark: Seq<bool>) -> bool {
    forall|i: int, j: int|
        0 <= i < blocks.len() && mark[i] && 0 <= j < terminator_targets(blocks[i].terminator).len()
            ==> #[trigger] mark[terminator_targets(#[trigger] blocks[i].terminator)[j] as int]
}

pub proof fn lemma_path_extend(blocks: Seq<AmirBasicBlock>, b: int, s: BlockId)
    requires
        entry_reaches(blocks, b),
        0 <= b < blocks.len(),
        s < blocks.len(),
        terminator_targets(blocks[b].terminator).contains(s),
    ensures
        entry_reaches(blocks, s as int),
{
    let p = choose|p: Seq<BlockId>| is_entry_path(blocks, p) && p.last() == b;
    let q = p.push(s);
    assert forall|k: int| 0 <= k < q.len() - 1 implies terminator_targets(
        blocks[#[trigger] q[k] as int].terminator,
    ).contains(q[k + 1]) by {
        if k < p.len() - 1 {
            assert(q[k] == p[k] && q[k + 1] == p[k + 1]);
        } else {
            assert(q[k] == b && q[k + 1] == s);
        }
    }
    assert(is_entry_path(blocks, q) && q.last() == s);
}

pub proof fn lemma_closed_complete(blocks: Seq<AmirBasicBlock>, mark: Seq<bool>, p: Seq<BlockId>)
    requires
        mark.len() == blocks.len(),
        blocks.len() > 0,
        mark[0],
        closed_marks(blocks, mark),
        is_entry_path(blocks, p),
    ensures
        mark[p.last() as int],
    decreases p.len(),
{
    if p.len() > 1 {
        let q = p.drop_last();
        assert(is_entry_path(blocks, q));
        lemma_closed_complete(blocks, mark, q);
        let k = p.len() - 2;
        assert(q.last() == p[k]);
        assert(terminator_targets(blocks[p[k] as int].terminator).contains(p[k + 1]));
        let t = terminator_targets(blocks[p[k] as int].terminator);
        let j = choose|j: int| 0 <= j < t.len() && t[j] == p[k + 1];
        assert(mark[t[j] as int]);
    }
}

/// Marks the blocks reachable from the entry (breadth-first over the CFG
/// successor lists).
fn reachable_blocks(func: &AmirFunc) -> (mark: Vec<bool>)
    requires
        func.wf_shape_cfg(),
        func.blocks@.len() > 0,
    ensures
        mark@.len() == func.blocks@.len(),
        forall|i: int| 0 <= i < mark@.len() ==> #[trigger] mark@[i] == entry_reaches(func.blocks@, i),
        mark@[0],
        closed_marks(func.blocks@, mark@),
{
    let n = func.blocks.len();
    let mut mark: Vec<bool> = Vec::new();
    let mut k: usize = 0;
    while k < n
        invariant
            mark@.len() == k,
            k <= n,
            forall|j: int| 0 <= j < k ==> !#[trigger] mark@[j],
        decreases n - k,
    {
        mark.push(false);
        k = k + 1;
    }
    mark.set(0, true);
    let mut queue: VecDeque<BlockId> = VecDeque::new();
    queue.push_back(0);
    proof {
        let p = seq![0usize];
        assert(is_entry_path(func.blocks@, p) && p.last() == 0);
        assert forall|i: int| 0 <= i < n && #[trigger] mark@[i] implies entry_reaches(func.blocks@, i) && queue@.contains(i as usize) by {
            assert(i == 0);
            assert(queue@[0] == 0);
        }
    }
    while queue.len() > 0
        invariant
            func.wf_shape_cfg(),
            n == func.blocks@.len(),
            mark@.len() == n,
            mark@[0],
            forall|q: int| 0 <= q < queue@.len() ==> #[trigger] queue@[q] < n && mark@[queue@[q] as int],
            forall|i: int|
                0 <= i < n && #[trigger] mark@[i] ==> queue@.contains(i as usize) || forall|j: int|
                    0 <= j < terminator_targets(func.blocks@[i].terminator).len() ==> mark@[terminator_targets(
                        func.blocks@[i].terminator,
                    )[j] as int],
            forall|i: int| 0 <= i < n && #[trigger] mark@[i] ==> entry_reaches(func.blocks@, i),
        decreases 2 * count_false(mark@) + queue@.len(),
    {
        let ghost q0 = queue@;
        let b = queue.pop_front().unwrap();
        assert(b == q0[0]);
        let succs = &func.cfg.successors[b];
        assert(succs@ == terminator_targets(func.blocks@[b as int].terminator));
        assert(crate::amir::targets_in_range(func.blocks@[b as int].terminator, n as nat));
        let ghost cf0 = count_false(mark@);
        let ghost ql0 = queue@.len();
        proof {
            assert forall|i: int| 0 <= i < n && i != b && #[trigger] mark@[i] && q0.contains(i as usize) implies queue@.contains(i as usize) by {
                let w = choose|w: int| 0 <= w < q0.len() && q0[w] == i as usize;
                assert(w != 0);
                assert(queue@[w - 1] == i as usize);
            }
        }
        let m = succs.len();
        let mut j: usize = 0;
        while j < m
            invariant
                func.wf_shape_cfg(),
                n == func.blocks@.len(),
                b < n,
                mark@[b as int],
                m == succs@.len(),
                j <= m,
                succs@ == terminator_targets(func.blocks@[b as int].terminator),
                crate::amir::targets_in_range(func.blocks@[b as int].terminator, n as nat),
                mark@.len() == n,
                mark@[0],
                forall|q: int| 0 <= q < queue@.len() ==> #[trigger] queue@[q] < n && mark@[queue@[q] as int],
                forall|i: int|
                    0 <= i < n && i != b && #[trigger] mark@[i] ==> queue@.contains(i as usize) || forall|jj: int|
                        0 <= jj < terminator_targets(func.blocks@[i].terminator).len() ==> mark@[terminator_targets(
                            func.blocks@[i].terminator,
                        )[jj] as int],
                forall|jj: int| 0 <= jj < j ==> mark@[#[trigger] succs@[jj] as int],
                forall|i: int| 0 <= i < n && #[trigger] mark@[i] ==> entry_reaches(func.blocks@, i),
                2 * count_false(mark@) + queue@.len() <= 2 * cf0 + ql0,
            decreases m - j,
        {
            let s = succs[j];
            assert(s < n);
            if !mark[s] {
                proof {
                    lemma_count_false_set(mark@, s as int);
                    assert(terminator_targets(func.blocks@[b as int].terminator)[j as int] == s);
                    lemma_path_extend(func.blocks@, b as int, s);
                }
                let ghost before = queue@;
                mark.set(s, true);
                queue.push_back(s);
                proof {
                    assert forall|i: int|
                        0 <= i < n && i != b && #[trigger] mark@[i] implies queue@.contains(i as usize)
                            || forall|jj: int|
                            0 <= jj < terminator_targets(func.blocks@[i].terminator).len() ==> mark@[terminator_targets(
                                func.blocks@[i].terminator,
                            )[jj] as int] by {
                        if i == s {
                            assert(queue@[queue@.len() - 1] == s);
                        } else if before.contains(i as usize) {
                            let w = choose|w: int| 0 <= w < before.len() && before[w] == i as usize;
                            assert(queue@[w] == i as usize);
                        }
                    }
                }
            }
            j = j + 1;
        }
        proof {
            assert forall|i: int|
                0 <= i < n && #[trigger] mark@[i] implies queue@.contains(i as usize) || forall|jj: int|
                    0 <= jj < terminator_targets(func.blocks@[i].terminator).len() ==> mark@[terminator_targets(
                        func.blocks@[i].terminator,
                    )[jj] as int] by {
                if i == b {
                    assert forall|jj: int| 0 <= jj < terminator_targets(func.blocks@[i].terminator).len() implies mark@[
                        terminator_targets(func.blocks@[i].terminator)[jj] as int] by {
                        assert(succs@[jj] == terminator_targets(func.blocks@[i].terminator)[jj]);
                    }
                }
            }
            assert(q0.len() > 0);
        }
    }
    proof {
        assert forall|i: int, j: int|
            0 <= i < n && mark@[i] && 0 <= j < terminator_targets(func.blocks@[i].terminator).len() implies #[trigger] mark@[
            terminator_targets(#[trigger] func.blocks@[i].terminator)[j] as int] by {
            assert(!queue@.contains(i as usize));
        }
        assert forall|i: int| 0 <= i < mark@.len() implies #[trigger] mark@[i] == entry_reaches(func.blocks@, i) by {
            if entry_reaches(func.blocks@, i) {
                let p = choose|p: Seq<BlockId>| is_entry_path(func.blocks@, p) && p.last() == i;
                lemma_closed_complete(func.blocks@, mark@, p);
            }
        }
    }
    mark
}

// ---------------------------------------------------------------------------
// Block renumbering
// ---------------------------------------------------------------------------

/// Number of `true` entries.
pub open spec fn count_true(s: Seq<bool>) -> nat
    decreases s.len(),
{
    if s.len() == 0 {
        0
    } else {
        count_true(s.drop_last()) + if s.last() {
            1nat
        } else {
            0nat
        }
    }
}

/// The new index of a kept block: the number of kept blocks before it.
pub open spec fn rank(mark: Seq<bool>, i: int) -> nat {
    count_true(mark.take(i))
}

/// The indices of the kept blocks, in order.
pub open spec fn kept(mark: Seq<bool>) -> Seq<usize>
    decreases mark.len(),
{
    if mark.len() == 0 {
        seq![]
    } else {
        kept(mark.drop_last()) + if mark.last() {
            seq![(mark.len() - 1) as usize]
        } else {
            seq![]
        }
    }
}

/// One statement group per kept block.
pub open spec fn keep_groups(mark: Seq<bool>) -> Seq<Seq<usize>> {
    kept(mark).map_values(|i: usize| seq![i])
}

/// Old block index to new block index, `None` for removed blocks.
pub open spec fn rank_map(mark: Seq<bool>) -> Seq<Option<BlockId>> {
    Seq::new(mark.len(), |i: int| if mark[i] { Some(rank(mark, i) as usize) } else { None })
}

pub open spec fn map_block(map: Seq<Option<BlockId>>, t: BlockId) -> BlockId {
    match map[t as int] {
        Some(x) => x,
        None => t,
    }
}

/// `new_t` is `old_t` with every target block renamed through `map`.
pub open spec fn remapped(old_t: AmirTerminator, new_t: AmirTerminator, map: Seq<Option<BlockId>>) -> bool {
    match (old_t, new_t) {
        (AmirTerminator::Goto { target, args }, AmirTerminator::Goto { target: t2, args: a2 }) => t2
            == map_block(map, target) && a2@ == args@,
        (
            AmirTerminator::Branch { condition, if_true, true_args, if_false, false_args },
            AmirTerminator::Branch {
                condition: c2,
                if_true: t2,
                true_args: ta2,
                if_false: f2,
                false_args: fa2,
            },
        ) => c2 == condition && t2 == map_block(map, if_true) && f2 == map_block(map, if_false)
            && ta2@ == true_args@ && fa2@ == false_args@,
        (
            AmirTerminator::SwitchInt { discriminant, targets, otherwise },
            AmirTerminator::SwitchInt { discriminant: d2, targets: ts2, otherwise: o2 },
        ) => {
            &&& d2 == discriminant
            &&& ts2@.len() == targets@.len()
            &&& forall|j: int|
                0 <= j < targets@.len() ==> (#[trigger] ts2@[j]).value == targets@[j].value
                    && ts2@[j].target == map_block(map, targets@[j].target) && ts2@[j].args@
                    == targets@[j].args@
            &&& o2.target == map_block(map, otherwise.target)
            &&& o2.args@ == otherwise.args@
        },
        (
            AmirTerminator::Suspend { future, resume, args },
            AmirTerminator::Suspend { future: f2, resume: r2, args: a2 },
        ) => f2 == future && r2 == map_block(map, resume) && a2@ == args@,
        (AmirTerminator::Return, AmirTerminator::Return) => true,
        (AmirTerminator::Unreachable, AmirTerminator::Unreachable) => true,
        _ => false,
    }
}

/// Renames the target blocks of a terminator through `map`; a block without
/// a new name keeps its index.
fn remap_terminator(term: &AmirTerminator, map: &Vec<Option<BlockId>>) -> (r: AmirTerminator)
    requires
        forall|i: int| 0 <= i < terminator_targets(*term).len() ==> #[trigger] terminator_targets(*term)[i]
            < map@.len(),
    ensures
        remapped(*term, r, map@),
{
    match term {
        AmirTerminator::Goto { target, args } => {
            assert(terminator_targets(*term)[0] == *target);
            let t = match map[*target] {
                Some(x) => x,
                None => *target,
            };
            AmirTerminator::Goto { target: t, args: crate::sccp::clone_operands(args) }
        },
        AmirTerminator::Branch { condition, if_true, true_args, if_false, false_args } => {
            assert(terminator_targets(*term)[0] == *if_true);
            assert(terminator_targets(*term)[1] == *if_false);
            let t = match map[*if_true] {
                Some(x) => x,
                None => *if_true,
            };
            let f = match map[*if_false] {
                Some(x) => x,
                None => *if_false,
            };
            AmirTerminator::Branch {
                condition: *condition,
                if_true: t,
                true_args: crate::sccp::clone_operands(true_args),
                if_false: f,
                false_args: crate::sccp::clone_operands(false_args),
            }
        },
        AmirTerminator::SwitchInt { discriminant, targets, otherwise } => {
            let n = targets.len();
            let mut out: Vec<SwitchTarget> = Vec::new();
            let mut j: usize = 0;
            while j < n
                invariant
                    n == targets@.len(),
                    j <= n,
                    out@.len() == j,
                    terminator_targets(*term) == targets@.map_values(|s: SwitchTarget| s.target).push(
                        otherwise.target,
                    ),
                    forall|i: int| 0 <= i < terminator_targets(*term).len() ==> #[trigger] terminator_targets(*term)[i]
                        < map@.len(),
                    forall|k: int|
                        0 <= k < j ==> (#[trigger] out@[k]).value == targets@[k].value && out@[k].target
                            == map_block(map@, targets@[k].target) && out@[k].args@ == targets@[k].args@,
                decreases n - j,
            {
                let tg = targets[j].target;
                assert(terminator_targets(*term)[j as int] == tg);
                let t = match map[tg] {
                    Some(x) => x,
                    None => tg,
                };
                out.push(
                    SwitchTarget {
                        value: targets[j].value,
                        target: t,
                        args: crate::sccp::clone_operands(&targets[j].args),
                    },
                );
                j = j + 1;
            }
            assert(terminator_targets(*term)[n as int] == otherwise.target);
            let ot = match map[otherwise.target] {
                Some(x) => x,
                None => otherwise.target,
            };
            AmirTerminator::SwitchInt {
                discriminant: *discriminant,
                targets: out,
                otherwise: SwitchOtherwise {
                    target: ot,
                    args: crate::sccp::clone_operands(&otherwise.args),
                },
            }
        },
        AmirTerminator::Suspend { future, resume, args } => {
            assert(terminator_targets(*term)[0] == *resume);
            let r = match map[*resume] {
                Some(x) => x,
                None => *resume,
            };
            AmirTerminator::Suspend {
                future: *future,
                resume: r,
                args: crate::sccp::clone_operands(args),
            }
        },
        AmirTerminator::Return => AmirTerminator::Return,
        AmirTerminator::Unreachable => AmirTerminator::Unreachable,
    }
}

proof fn lemma_switch_args_eq(a: Seq<SwitchTarget>, b: Seq<SwitchTarget>)
    requires
        a.len() == b.len(),
        forall|j: int| 0 <= j < a.len() ==> (#[trigger] a[j]).args@ == b[j].args@,
    ensures
        crate::amir::switch_args(a) == crate::amir::switch_args(b),
    decreases a.len(),
{
    if a.len() > 0 {
        lemma_switch_args_eq(a.drop_last(), b.drop_last());
        assert(a.last().args@ == b.last().args@);
    }
}

/// A renamed terminator reads the same operands and targets the renamed
/// blocks.
proof fn lemma_remapped(old_t: AmirTerminator, new_t: AmirTerminator, map: Seq<Option<BlockId>>)
    requires
        remapped(old_t, new_t, map),
    ensures
        crate::amir::terminator_operands(new_t) == crate::amir::terminator_operands(old_t),
        terminator_targets(new_t).len() == terminator_targets(old_t).len(),
        forall|i: int| 0 <= i < terminator_targets(old_t).len() ==> #[trigger] terminator_targets(new_t)[i]
            == map_block(map, terminator_targets(old_t)[i]),
{
    match (old_t, new_t) {
        (
            AmirTerminator::SwitchInt { discriminant, targets, otherwise },
            AmirTerminator::SwitchInt { discriminant: d2, targets: ts2, otherwise: o2 },
        ) => {
            lemma_switch_args_eq(ts2@, targets@);
            let a = targets@.map_values(|s: SwitchTarget| s.target);
            let b = ts2@.map_values(|s: SwitchTarget| s.target);
            assert forall|i: int| 0 <= i < terminator_targets(old_t).len() implies #[trigger] terminator_targets(
                new_t,
            )[i] == map_block(map, terminator_targets(old_t)[i]) by {
                if i < a.len() {
                    assert(terminator_targets(old_t)[i] == a[i]);
                    assert(terminator_targets(new_t)[i] == b[i]);
                }
            }
        },
        _ => {},
    }
}

pub proof fn lemma_count_true_take(mark: Seq<bool>, i: int)
    requires
        0 <= i < mark.len(),
    ensures
        count_true(mark.take(i + 1)) == count_true(mark.take(i)) + if mark[i] {
            1nat
        } else {
            0nat
        },
        kept(mark.take(i + 1)) == kept(mark.take(i)) + if mark[i] {
            seq![i as usize]
        } else {
            seq![]
        },
{
    assert(mark.take(i + 1).drop_last() == mark.take(i));
}

proof fn lemma_kept_props(mark: Seq<bool>)
    requires
        mark.len() <= usize::MAX,
    ensures
        kept(mark).len() == count_true(mark),
        forall|k: int|
            0 <= k < kept(mark).len() ==> #[trigger] kept(mark)[k] < mark.len() && mark[kept(mark)[k] as int]
                && rank(mark, kept(mark)[k] as int) == k,
        forall|i: int| 0 <= i < mark.len() && mark[i] ==> #[trigger] rank(mark, i) < count_true(mark)
            && kept(mark)[rank(mark, i) as int] == i,
    decreases mark.len(),
{
    if mark.len() > 0 {
        let m = mark.drop_last();
        lemma_kept_props(m);
        let n = mark.len() - 1;
        assert(mark.take(n) == m);
        assert(kept(mark) == kept(m) + if mark.last() {
            seq![(mark.len() - 1) as usize]
        } else {
            seq![]
        });
        assert(count_true(mark) == count_true(m) + if mark.last() {
            1nat
        } else {
            0nat
        });
        assert forall|k: int| 0 <= k < kept(mark).len() implies #[trigger] kept(mark)[k] < mark.len()
            && mark[kept(mark)[k] as int] && rank(mark, kept(mark)[k] as int) == k by {
            if k < kept(m).len() {
                assert(kept(mark)[k] == kept(m)[k]);
                let x = kept(m)[k] as int;
                assert(mark.take(x) == m.take(x));
                assert(mark[x] == m[x]);
            } else {
                assert(mark.last());
                assert(kept(mark)[k] == n);
            }
        }
        assert forall|i: int| 0 <= i < mark.len() && mark[i] implies #[trigger] rank(mark, i) < count_true(mark)
            && kept(mark)[rank(mark, i) as int] == i by {
            if i < n {
                assert(mark.take(i) == m.take(i));
                assert(m[i] == mark[i]);
                assert(rank(m, i) < count_true(m));
                assert(kept(mark)[rank(m, i) as int] == kept(m)[rank(m, i) as int]);
            } else {
                assert(rank(mark, i) == count_true(m));
                assert(kept(mark)[kept(m).len() as int] == n);
            }
        }
    }
}

// ---------------------------------------------------------------------------
// Unreachable block removal
// ---------------------------------------------------------------------------

/// Which blocks the entry reaches.
pub open spec fn reach_marks(blocks: Seq<AmirBasicBlock>) -> Seq<bool> {
    Seq::new(blocks.len(), |i: int| entry_reaches(blocks, i))
}

/// The parameters of the blocks `kp`, concatenated.
pub open spec fn kept_params(f: AmirFunc, kp: Seq<usize>) -> Seq<BlockParam>
    decreases kp.len(),
{
    if kp.len() == 0 {
        seq![]
    } else {
        kept_params(f, kp.drop_last()) + f.block_params_spec(kp.last() as int)
    }
}

/// `new` keeps exactly the marked blocks of `old`, renumbered densely in
/// order, with their statements, parameters and renamed terminators.
pub open spec fn compacted(old: AmirFunc, new: AmirFunc, mark: Seq<bool>) -> bool {
    let kp = kept(mark);
    let groups = keep_groups(mark);
    let ids = groups_ids(stmt_ranges(old.blocks@), groups);
    &&& same_frame(old, new)
    &&& new.blocks@.len() == kp.len()
    &&& new.stmts@.len() == ids.len()
    &&& forall|i: int| 0 <= i < ids.len() ==> #[trigger] new.stmts@[i] == old.stmts@[ids[i] as int]
    &&& new.block_params@ == kept_params(old, kp)
    &&& forall|k: int|
        0 <= k < kp.len() ==> {
            &&& (#[trigger] new.blocks@[k]).id == k
            &&& new.blocks@[k].statements == group_range(stmt_ranges(old.blocks@), groups, k)
            &&& new.blocks@[k].params == (DenseRange {
                start: kept_params(old, kp.take(k)).len() as usize,
                len: old.blocks@[kp[k] as int].params.len,
            })
            &&& remapped(old.blocks@[kp[k] as int].terminator, new.blocks@[k].terminator, rank_map(mark))
        }
}

/// Removal fails exactly when the statement ranges of kept blocks overlap.
pub open spec fn sweep_fails(old: AmirFunc) -> bool {
    !groups_ids(stmt_ranges(old.blocks@), keep_groups(reach_marks(old.blocks@))).no_duplicates()
}

proof fn lemma_all_true(s: Seq<bool>)
    requires
        count_true(s) == s.len(),
    ensures
        forall|i: int| 0 <= i < s.len() ==> #[trigger] s[i],
    decreases s.len(),
{
    if s.len() > 0 {
        let m = s.drop_last();
        if !s.last() {
            lemma_count_true_le(m);
        }
        lemma_count_true_le(m);
        lemma_all_true(m);
        assert forall|i: int| 0 <= i < s.len() implies #[trigger] s[i] by {
            if i < m.len() {
                assert(m[i] == s[i]);
            }
        }
    }
}

proof fn lemma_count_true_le(s: Seq<bool>)
    ensures
        count_true(s) <= s.len(),
    decreases s.len(),
{
    if s.len() > 0 {
        lemma_count_true_le(s.drop_last());
    }
}

proof fn lemma_kept_params_take(f: AmirFunc, kp: Seq<usize>, k: int)
    requires
        0 <= k < kp.len(),
    ensures
        kept_params(f, kp.take(k + 1)) == kept_params(f, kp.take(k)) + f.block_params_spec(kp[k] as int),
{
    assert(kp.take(k + 1).drop_last() == kp.take(k));
}

proof fn lemma_kept_params_prefix(f: AmirFunc, kp: Seq<usize>, k: int)
    requires
        0 <= k < kp.len(),
    ensures
        kept_params(f, kp.take(k)).len() + f.block_params_spec(kp[k] as int).len() <= kept_params(f, kp).len(),
    decreases kp.len(),
{
    lemma_kept_params_take(f, kp, k);
    if k < kp.len() - 1 {
        let front = kp.drop_last();
        assert(front.take(k) == kp.take(k));
        assert(front[k] == kp[k]);
        lemma_kept_params_prefix(f, front, k);
    } else {
        assert(kp.take(k) == kp.drop_last());
    }
}

/// Every prefix of an entry path is an entry path.
proof fn lemma_entry_path_prefix(blocks: Seq<AmirBasicBlock>, p: Seq<BlockId>, j: int)
    requires
        is_entry_path(blocks, p),
        0 <= j < p.len(),
    ensures
        entry_reaches(blocks, p[j] as int),
{
    let q = p.take(j + 1);
    assert forall|k: int| 0 <= k < q.len() - 1 implies terminator_targets(
        blocks[#[trigger] q[k] as int].terminator,
    ).contains(q[k + 1]) by {
        assert(q[k] == p[k]);
        assert(q[k + 1] == p[k + 1]);
    }
    assert(is_entry_path(blocks, q));
    assert(q.last() == p[j]);
}

/// An edge between kept blocks survives their renumbering.
proof fn lemma_compacted_edge(old: AmirFunc, new: AmirFunc, mark: Seq<bool>, a: int, b: BlockId)
    requires
        crate::amir::blocks_targets_in_range(old.blocks@),
        mark.len() == old.blocks@.len(),
        mark.len() <= usize::MAX,
        compacted(old, new, mark),
        0 <= a < mark.len(),
        mark[a],
        b < mark.len(),
        mark[b as int],
        terminator_targets(old.blocks@[a].terminator).contains(b),
    ensures
        rank(mark, a) < new.blocks@.len(),
        terminator_targets(new.blocks@[rank(mark, a) as int].terminator).contains(rank(mark, b as int) as usize),
{
    let kp = kept(mark);
    lemma_kept_props(mark);
    let r = rank(mark, a) as int;
    assert(kp[r] == a);
    let ot = old.blocks@[a].terminator;
    let nt = new.blocks@[r].terminator;
    assert(remapped(ot, nt, rank_map(mark)));
    lemma_remapped(ot, nt, rank_map(mark));
    let i = choose|i: int| 0 <= i < terminator_targets(ot).len() && terminator_targets(ot)[i] == b;
    assert(rank_map(mark)[b as int] == Some(rank(mark, b as int) as usize));
    assert(terminator_targets(nt)[i] == rank(mark, b as int) as usize);
}

/// A kept block stays reachable after the renumbering: its walk from the
/// entry is renumbered along with the blocks.
proof fn lemma_compacted_reach_one(
    old: Seq<AmirBasicBlock>,
    new: Seq<AmirBasicBlock>,
    mark: Seq<bool>,
    o: int,
)
    requires
        old.len() > 0,
        mark == reach_marks(old),
        mark.len() <= usize::MAX,
        0 <= o < mark.len(),
        mark[o],
        count_true(mark) == new.len(),
        forall|a: int, b: BlockId|
            0 <= a < mark.len() && mark[a] && b < mark.len() && mark[b as int]
                && #[trigger] terminator_targets(old[a].terminator).contains(b) ==> terminator_targets(
                new[rank(mark, a) as int].terminator,
            ).contains(rank(mark, b as int) as usize),
    ensures
        entry_reaches(new, rank(mark, o) as int),
{
    lemma_kept_props(mark);
    lemma_count_true_le(mark);
    let p = choose|p: Seq<BlockId>| is_entry_path(old, p) && p.last() == o;
    let q = p.map_values(|b: BlockId| rank(mark, b as int) as usize);
    assert forall|j: int| 0 <= j < p.len() implies #[trigger] mark[p[j] as int] by {
        lemma_entry_path_prefix(old, p, j);
    }
    assert(mark.take(0) =~= Seq::<bool>::empty());
    assert(q[0] == 0);
    assert forall|j: int| 0 <= j < q.len() implies #[trigger] q[j] < new.len() by {
        assert(mark[p[j] as int]);
    }
    assert forall|j: int| 0 <= j < q.len() - 1 implies terminator_targets(
        new[#[trigger] q[j] as int].terminator,
    ).contains(q[j + 1]) by {
        assert(mark[p[j] as int]);
        assert(mark[p[j + 1] as int]);
        assert(terminator_targets(old[p[j] as int].terminator).contains(p[j + 1]));
        assert(q[j] as int == rank(mark, p[j] as int));
        assert(q[j + 1] == rank(mark, p[j + 1] as int) as usize);
    }
    assert(is_entry_path(new, q));
    assert(q.last() as int == rank(mark, o));
}

/// After removing the blocks the entry does not reach, the entry reaches
/// every block that is left.
proof fn lemma_compacted_reach(old: AmirFunc, new: AmirFunc, mark: Seq<bool>)
    requires
        crate::amir::blocks_targets_in_range(old.blocks@),
        old.blocks@.len() > 0,
        mark == reach_marks(old.blocks@),
        mark.len() <= usize::MAX,
        compacted(old, new, mark),
    ensures
        forall|k: int| 0 <= k < new.blocks@.len() ==> #[trigger] entry_reaches(new.blocks@, k),
{
    let kp = kept(mark);
    lemma_kept_props(mark);
    assert forall|a: int, b: BlockId|
        0 <= a < mark.len() && mark[a] && b < mark.len() && mark[b as int]
            && #[trigger] terminator_targets(old.blocks@[a].terminator).contains(b) implies terminator_targets(
        new.blocks@[rank(mark, a) as int].terminator,
    ).contains(rank(mark, b as int) as usize) by {
        lemma_compacted_edge(old, new, mark, a, b);
    }
    assert forall|k: int| 0 <= k < new.blocks@.len() implies #[trigger] entry_reaches(new.blocks@, k) by {
        let o = kp[k] as int;
        lemma_compacted_reach_one(old.blocks@, new.blocks@, mark, o);
    }
}

/// Removes the blocks the entry does not reach, renumbering the others in
/// order and rebuilding the statement and parameter tables.
fn remove_unreachable_blocks(func: &mut AmirFunc) -> (res: Result<bool, Diagnostic>)
    requires
        old(func).wf_shape_cfg(),
    ensures
        old(func).blocks@.len() == 0 || (forall|i: int|
            0 <= i < old(func).blocks@.len() ==> entry_reaches(old(func).blocks@, i))
            ==> res == Ok::<bool, Diagnostic>(false) && *final(func) == *old(func),
        old(func).blocks@.len() > 0 && !(forall|i: int|
            0 <= i < old(func).blocks@.len() ==> entry_reaches(old(func).blocks@, i)) ==> match res {
            Ok(b) => b && final(func).wf_shape_cfg() && compacted(
                *old(func),
                *final(func),
                reach_marks(old(func).blocks@),
            ) && !sweep_fails(*old(func)) && crate::amir::drawn_from(*old(func), *final(func)),
            Err(d) => d.code == DiagCode::ICEO001 && sweep_fails(*old(func)),
        },
        res is Ok ==> forall|i: int| 0 <= i < final(func).blocks@.len() ==> #[trigger] entry_reaches(
            final(func).blocks@,
            i,
        ),
{
    let ghost f0 = *func;
    let n = func.blocks.len();
    if n == 0 {
        return Ok(false);
    }
    let reachable = reachable_blocks(func);
    let ghost mark = reachable@;
    assert(mark == reach_marks(f0.blocks@));
    proof {
        lemma_kept_props(mark);
    }
    // Old index -> new index.
    let mut old_to_new: Vec<Option<BlockId>> = Vec::new();
    let mut count: usize = 0;
    let mut i: usize = 0;
    while i < n
        invariant
            n == mark.len(),
            reachable@ == mark,
            i <= n,
            count == count_true(mark.take(i as int)),
            count <= i,
            old_to_new@ == rank_map(mark).take(i as int),
        decreases n - i,
    {
        proof {
            lemma_count_true_take(mark, i as int);
        }
        if reachable[i] {
            old_to_new.push(Some(count));
            count = count + 1;
        } else {
            old_to_new.push(None);
        }
        proof {
            assert(old_to_new@ =~= rank_map(mark).take(i + 1));
        }
        i = i + 1;
    }
    assert(mark.take(n as int) == mark);
    assert(rank_map(mark).take(n as int) == rank_map(mark));
    if count == n {
        proof {
            lemma_all_true(mark);
            assert forall|k: int| 0 <= k < n implies entry_reaches(f0.blocks@, k) by {
                assert(mark[k]);
            }
        }
        return Ok(false);
    }
    proof {
        if forall|k: int| 0 <= k < n ==> entry_reaches(f0.blocks@, k) {
            assert(forall|k: int| 0 <= k < n ==> #[trigger] mark[k]);
            lemma_count_all(mark);
        }
    }

    // Statement ranges of the old blocks.
    let mut ranges: Vec<DenseRange> = Vec::new();
    let mut b: usize = 0;
    while b < n
        invariant
            n == func.blocks@.len(),
            b <= n,
            ranges@ == stmt_ranges(func.blocks@).take(b as int),
        decreases n - b,
    {
        ranges.push(func.blocks[b].statements);
        proof {
            assert(stmt_ranges(func.blocks@).take(b + 1) == stmt_ranges(func.blocks@).take(b as int).push(
                func.blocks@[b as int].statements,
            ));
        }
        b = b + 1;
    }
    assert(stmt_ranges(func.blocks@).take(n as int) == stmt_ranges(func.blocks@));

    let nbp = func.block_params.len();
    let mut new_blocks: Vec<AmirBasicBlock> = Vec::new();
    let mut new_params: Vec<BlockParam> = Vec::new();
    let mut groups: Vec<Vec<usize>> = Vec::new();
    let mut old: usize = 0;
    while old < n
        invariant
            *func == f0,
            f0.wf_shape_cfg(),
            n == f0.blocks@.len(),
            nbp == f0.block_params@.len(),
            mark.len() == n,
            reachable@ == mark,
            closed_marks(f0.blocks@, mark),
            old_to_new@ == rank_map(mark),
            old <= n,
            new_blocks@.len() == kept(mark.take(old as int)).len(),
            new_blocks@.len() == count_true(mark.take(old as int)),
            new_params@ == kept_params(f0, kept(mark.take(old as int))),
            views(groups@) == keep_groups(mark.take(old as int)),
            forall|k: int|
                0 <= k < new_blocks@.len() ==> {
                    let o = kept(mark.take(old as int))[k];
                    &&& (#[trigger] new_blocks@[k]).id == k
                    &&& new_blocks@[k].params == (DenseRange {
                        start: kept_params(f0, kept(mark.take(old as int)).take(k)).len() as usize,
                        len: f0.blocks@[o as int].params.len,
                    })
                    &&& remapped(f0.blocks@[o as int].terminator, new_blocks@[k].terminator, rank_map(mark))
                },
        decreases n - old,
    {
        proof {
            lemma_count_true_take(mark, old as int);
        }
        let ghost kp0 = kept(mark.take(old as int));
        let ghost kp1 = kept(mark.take(old + 1));
        if reachable[old] {
            let r = func.blocks[old].params;
            assert(f0.block_ranges_ok(old as int));
            let param_start = new_params.len();
            let ghost p0 = new_params@;
            let mut k: usize = 0;
            while k < r.len
                invariant
                    *func == f0,
                    k <= r.len,
                    r == f0.blocks@[old as int].params,
                    r.start + r.len <= nbp,
                    nbp == f0.block_params@.len(),
                    new_params@ == p0 + f0.block_params_spec(old as int).take(k as int),
                decreases r.len - k,
            {
                new_params.push(func.block_params[r.start + k]);
                proof {
                    let sp = f0.block_params_spec(old as int);
                    assert(sp.take(k + 1) == sp.take(k as int).push(sp[k as int]));
                }
                k = k + 1;
            }
            proof {
                let sp = f0.block_params_spec(old as int);
                assert(sp.take(r.len as int) == sp);
                assert(kp1 == kp0.push(old as usize));
                assert(kp1.drop_last() == kp0);
                assert(f0.blocks@[old as int].terminator == func.blocks@[old as int].terminator);
                assert(crate::amir::targets_in_range(f0.blocks@[old as int].terminator, n as nat));
            }
            let term = remap_terminator(&func.blocks[old].terminator, &old_to_new);
            let new_id = new_blocks.len();
            new_blocks.push(
                AmirBasicBlock {
                    id: new_id,
                    statements: DenseRange::empty(),
                    params: DenseRange { start: param_start, len: r.len },
                    terminator: term,
                },
            );
            let mut grp: Vec<usize> = Vec::new();
            grp.push(old);
            let ghost g0 = groups@;
            groups.push(grp);
            proof {
                assert(views(g0) == keep_groups(mark.take(old as int)));
                lemma_count_true_take(mark, old as int);
                assert(mark[old as int]);
                assert(kp1 =~= kp0.push(old as usize));
                assert(views(g0).len() == g0.len());
                assert(keep_groups(mark.take(old as int)).len() == kp0.len());
                assert(g0.len() == kp0.len());
                assert forall|j: int| 0 <= j < views(groups@).len() implies #[trigger] views(groups@)[j]
                    == keep_groups(mark.take(old + 1))[j] by {
                    if j < g0.len() {
                        assert(views(groups@)[j] == views(g0)[j]);
                        assert(keep_groups(mark.take(old + 1))[j] == seq![kp1[j]]);
                        assert(kp1[j] == kp0[j]);
                    } else {
                        assert(views(groups@)[j] == seq![old as usize]);
                    }
                }
                assert(views(groups@) =~= keep_groups(mark.take(old + 1)));
                assert forall|kk: int| 0 <= kk < new_blocks@.len() implies {
                    let o = kp1[kk];
                    &&& (#[trigger] new_blocks@[kk]).id == kk
                    &&& new_blocks@[kk].params == (DenseRange {
                        start: kept_params(f0, kp1.take(kk)).len() as usize,
                        len: f0.blocks@[o as int].params.len,
                    })
                    &&& remapped(f0.blocks@[o as int].terminator, new_blocks@[kk].terminator, rank_map(mark))
                } by {
                    assert(kp1.take(kk) == kp0.take(kk) || kk == kp0.len());
                    if kk < kp0.len() {
                        assert(kp1[kk] == kp0[kk]);
                        assert(kp1.take(kk) == kp0.take(kk));
                    } else {
                        assert(kp1.take(kk) == kp0);
                    }
                }
            }
        } else {
            proof {
                assert(kp1 == kp0);
                assert(views(groups@) =~= keep_groups(mark.take(old + 1)));
            }
        }
        old = old + 1;
    }
    assert(mark.take(n as int) == mark);

    let span = optimization_span(func);
    let mut old_stmts: Vec<crate::amir::AmirStmt> = Vec::new();
    std::mem::swap(&mut old_stmts, &mut func.stmts);
    proof {
        assert forall|bb: int| 0 <= bb < ranges@.len() implies #[trigger] ranges@[bb].start + ranges@[bb].len
            <= old_stmts@.len() by {
            assert(f0.block_ranges_ok(bb));
        }
        assert forall|g: int, j: int|
            0 <= g < views(groups@).len() && 0 <= j < views(groups@)[g].len() implies #[trigger] views(groups@)[g][j]
                < ranges@.len() by {
            assert(views(groups@)[g] == seq![kept(mark)[g]]);
        }
    }
    match rebuild_table(old_stmts, &ranges, &groups) {
        Err(x) => Err(duplicate_stmt_ice("unreachable sweep", x, span)),
        Ok((new_stmts, new_ranges)) => {
            let nn = new_blocks.len();
            let mut k: usize = 0;
            while k < nn
                invariant
                    nn == new_blocks@.len(),
                    new_ranges@.len() == nn,
                    k <= nn,
                    forall|kk: int| 0 <= kk < nn ==> #[trigger] new_ranges@[kk] == group_range(ranges@, views(groups@), kk),
                    forall|kk: int|
                        0 <= kk < nn ==> {
                            let o = kept(mark)[kk];
                            &&& (#[trigger] new_blocks@[kk]).id == kk
                            &&& new_blocks@[kk].params == (DenseRange {
                                start: kept_params(f0, kept(mark).take(kk)).len() as usize,
                                len: f0.blocks@[o as int].params.len,
                            })
                            &&& remapped(f0.blocks@[o as int].terminator, new_blocks@[kk].terminator, rank_map(mark))
                        },
                    forall|kk: int| 0 <= kk < k ==> (#[trigger] new_blocks@[kk]).statements == new_ranges@[kk],
                decreases nn - k,
            {
                new_blocks[k].statements = new_ranges[k];
                k = k + 1;
            }
            func.blocks = new_blocks;
            func.block_params = new_params;
            func.stmts = new_stmts;
            proof {
                lemma_compacted_wf(f0, *func, mark);
            }
            func.cfg = compute_cfg_edges(&func.blocks);
            proof {
                lemma_compacted_wf(f0, *func, mark);
                lemma_compacted_reach(f0, *func, mark);
            }
            Ok(true)
        },
    }
}

proof fn lemma_count_all(s: Seq<bool>)
    requires
        forall|i: int| 0 <= i < s.len() ==> #[trigger] s[i],
    ensures
        count_true(s) == s.len(),
    decreases s.len(),
{
    if s.len() > 0 {
        lemma_count_all(s.drop_last());
    }
}

proof fn lemma_compacted_wf(old: AmirFunc, new: AmirFunc, mark: Seq<bool>)
    requires
        old.wf_shape_cfg(),
        mark == reach_marks(old.blocks@),
        closed_marks(old.blocks@, mark),
        mark.len() <= usize::MAX,
        compacted(old, new, mark),
    ensures
        new.wf_shape(),
        crate::amir::blocks_targets_in_range(new.blocks@),
        crate::amir::drawn_from(old, new),
{
    let kp = kept(mark);
    let groups = keep_groups(mark);
    let ranges = stmt_ranges(old.blocks@);
    let nb = old.blocks@.len();
    let nt = old.temps@.len();
    lemma_kept_props(mark);
    assert forall|g: int, j: int| 0 <= g < groups.len() && 0 <= j < groups[g].len() implies #[trigger] groups[g][j]
        < ranges.len() by {
        assert(groups[g] == seq![kp[g]]);
    }
    assert forall|b: int| 0 <= b < ranges.len() implies #[trigger] ranges[b].start + ranges[b].len
        <= old.stmts@.len() by {
        assert(old.block_ranges_ok(b));
    }
    lemma_groups_ids_in(ranges, groups, old.stmts@.len());
    lemma_kept_params_valid(old, kp);
    assert forall|k: int| 0 <= k < new.blocks@.len() implies #[trigger] new.block_ranges_ok(k) by {
        lemma_groups_ids_prefix(ranges, groups, k);
        lemma_kept_params_prefix(old, kp, k);
        assert(old.block_ranges_ok(kp[k] as int));
    }
    assert forall|k: int| 0 <= k < new.blocks@.len() implies crate::amir::targets_in_range(
        #[trigger] new.blocks@[k].terminator, new.blocks@.len()) && crate::amir::operands_ok(
        crate::amir::terminator_operands(new.blocks@[k].terminator), nt) by {
        let o = kp[k] as int;
        let ot = old.blocks@[o].terminator;
        lemma_remapped(ot, new.blocks@[k].terminator, rank_map(mark));
        assert(crate::amir::targets_in_range(ot, nb));
        assert(crate::amir::operands_ok(crate::amir::terminator_operands(ot), nt));
        assert forall|i: int| 0 <= i < terminator_targets(new.blocks@[k].terminator).len() implies #[trigger] terminator_targets(
            new.blocks@[k].terminator)[i] < new.blocks@.len() by {
            let t = terminator_targets(ot)[i];
            assert(t < nb);
            assert(mark[t as int]);
            assert(rank_map(mark)[t as int] == Some(rank(mark, t as int) as usize));
        }
    }
    assert forall|i: int| 0 <= i < new.stmts@.len() implies crate::amir::stmt_temps_ok(
        #[trigger] new.stmts@[i], nt) && old.stmts@.contains(new.stmts@[i]) by {
        let ids = groups_ids(ranges, groups);
        assert(ids[i] < old.stmts@.len());
        assert(crate::amir::stmt_temps_ok(old.stmts@[ids[i] as int], nt));
    }
}

/// Every parameter of `kept_params` is a parameter of the old table.
proof fn lemma_kept_params_valid(f: AmirFunc, kp: Seq<usize>)
    requires
        f.wf_shape(),
        forall|k: int| 0 <= k < kp.len() ==> #[trigger] kp[k] < f.blocks@.len(),
    ensures
        forall|i: int| 0 <= i < kept_params(f, kp).len() ==> (#[trigger] kept_params(f, kp)[i]).id
            < f.temps@.len() && f.block_params@.contains(kept_params(f, kp)[i]),
    decreases kp.len(),
{
    if kp.len() > 0 {
        let front = kp.drop_last();
        assert forall|k: int| 0 <= k < front.len() implies #[trigger] front[k] < f.blocks@.len() by {
            assert(front[k] == kp[k]);
        }
        lemma_kept_params_valid(f, front);
        let last = kp.last() as int;
        assert(kp[kp.len() - 1] < f.blocks@.len());
        assert(f.block_ranges_ok(last));
        let a = kept_params(f, front);
        let sp = f.block_params_spec(last);
        assert forall|i: int| 0 <= i < kept_params(f, kp).len() implies (#[trigger] kept_params(f, kp)[i]).id
            < f.temps@.len() && f.block_params@.contains(kept_params(f, kp)[i]) by {
            if i < a.len() {
                assert(kept_params(f, kp)[i] == a[i]);
            } else {
                let j = i - a.len();
                assert(kept_params(f, kp)[i] == sp[j]);
                let r = f.blocks@[last].params;
                assert(sp[j] == f.block_params@[r.start + j]);
            }
        }
    }
}

// ---------------------------------------------------------------------------
// Driver
// ---------------------------------------------------------------------------

/// With the ranges laid out group after group, the range total is the
/// number of ids the groups take.
proof fn lemma_range_total_groups(new: AmirFunc, ranges: Seq<DenseRange>, groups: Seq<Seq<usize>>, k: int)
    requires
        0 <= k <= groups.len(),
        new.blocks@.len() == groups.len(),
        groups_ids(ranges, groups).len() <= usize::MAX,
        forall|g: int| 0 <= g < groups.len() ==> #[trigger] new.blocks@[g].statements == group_range(ranges, groups, g),
    ensures
        range_total(new, k) == groups_ids(ranges, groups.take(k)).len(),
    decreases k,
{
    if k > 0 {
        lemma_range_total_groups(new, ranges, groups, k - 1);
        lemma_groups_ids_prefix(ranges, groups, k - 1);
        assert(new.blocks@[k - 1].statements == group_range(ranges, groups, k - 1));
    } else {
        assert(groups.take(0) =~= Seq::<Seq<usize>>::empty());
    }
}

proof fn lemma_merge_total(old: AmirFunc, into: int, from: int, k: int)
    requires
        0 <= into < old.blocks@.len(),
        0 <= from < old.blocks@.len(),
        into != from,
        0 <= k <= old.blocks@.len(),
    ensures
        groups_ids(stmt_ranges(old.blocks@), merge_groups(old.blocks@.len(), into, from).take(k)).len() + (if into
            >= k && from < k {
            old.blocks@[from].statements.len as int
        } else {
            0
        }) == range_total(old, k) + (if into < k && from >= k {
            old.blocks@[from].statements.len as int
        } else {
            0
        }),
    decreases k,
{
    let rs = stmt_ranges(old.blocks@);
    let mg = merge_groups(old.blocks@.len(), into, from);
    assert(old.blocks@.len() == old.blocks.len());
    if k == 0 {
        assert(mg.take(0) =~= Seq::<Seq<usize>>::empty());
    } else {
        let g = k - 1;
        lemma_merge_total(old, into, from, g);
        assert(mg.take(k).drop_last() == mg.take(g));
        assert(mg.take(k).last() == mg[g]);
        if g == into {
            let two = seq![into as usize, from as usize];
            assert(two.drop_last() =~= seq![into as usize]);
            assert(seq![into as usize].drop_last() =~= Seq::<usize>::empty());
            reveal_with_fuel(blocks_ids, 3);
            assert(blocks_ids(rs, two).len() == rs[into].len + rs[from].len);
        } else if g == from {
        } else {
            assert(seq![g as usize].drop_last() =~= Seq::<usize>::empty());
            reveal_with_fuel(blocks_ids, 2);
            assert(blocks_ids(rs, seq![g as usize]).len() == rs[g].len);
        }
    }
}

/// Merging two blocks keeps the range total.
proof fn lemma_merged_total(old: AmirFunc, new: AmirFunc, into: int, from: int)
    requires
        merged(old, new, into, from),
        0 <= into < old.blocks@.len(),
        0 <= from < old.blocks@.len(),
        into != from,
    ensures
        range_total(new, new.blocks@.len() as int) == range_total(old, old.blocks@.len() as int),
{
    let rs = stmt_ranges(old.blocks@);
    let mg = merge_groups(old.blocks@.len(), into, from);
    let nb = old.blocks@.len() as int;
    assert(new.stmts@.len() == new.stmts.len());
    lemma_range_total_groups(new, rs, mg, nb);
    assert(mg.take(nb) == mg);
    lemma_merge_total(old, into, from, nb);
}

proof fn lemma_keep_total(old: AmirFunc, mark: Seq<bool>)
    requires
        mark.len() <= old.blocks@.len(),
    ensures
        groups_ids(stmt_ranges(old.blocks@), keep_groups(mark)).len() <= range_total(old, mark.len() as int),
    decreases mark.len(),
{
    let rs = stmt_ranges(old.blocks@);
    assert(old.blocks@.len() == old.blocks.len());
    if mark.len() > 0 {
        let m = mark.drop_last();
        lemma_keep_total(old, m);
        let x = (mark.len() - 1) as usize;
        if mark.last() {
            assert(kept(mark) == kept(m).push(x));
            assert(keep_groups(mark) =~= keep_groups(m).push(seq![x]));
            assert(keep_groups(mark).drop_last() == keep_groups(m));
            assert(seq![x].drop_last() =~= Seq::<usize>::empty());
            reveal_with_fuel(blocks_ids, 2);
            assert(blocks_ids(rs, seq![x]).len() == rs[x as int].len);
        } else {
            assert(kept(mark) =~= kept(m));
            assert(keep_groups(mark) == keep_groups(m));
        }
    }
}

/// Removing blocks does not increase the range total.
proof fn lemma_compacted_total(old: AmirFunc, new: AmirFunc, mark: Seq<bool>)
    requires
        compacted(old, new, mark),
        mark.len() == old.blocks@.len(),
    ensures
        range_total(new, new.blocks@.len() as int) <= range_total(old, old.blocks@.len() as int),
{
    let rs = stmt_ranges(old.blocks@);
    let kg = keep_groups(mark);
    assert(new.stmts@.len() == new.stmts.len());
    assert(kg.len() == kept(mark).len());
    lemma_range_total_groups(new, rs, kg, kg.len() as int);
    assert(kg.take(kg.len() as int) == kg);
    lemma_keep_total(old, mark);
}

/// What a run of CFG simplification on `old` promises of its result `new`.
pub open spec fn simplify_post(old: AmirFunc, new: AmirFunc, res: Result<bool, Diagnostic>) -> bool {
    match res {
        Ok(changed) => {
            &&& changed == !simplified(old.blocks@)
            &&& new.wf_shape_cfg()
            &&& old.wf_body() ==> new.wf()
            &&& forall|i: int| 0 <= i < new.blocks@.len() ==> #[trigger] entry_reaches(new.blocks@, i)
            &&& same_frame(old, new)
            &&& range_total(new, new.blocks@.len() as int) <= range_total(old, old.blocks@.len() as int)
            &&& !changed ==> new.blocks@ == old.blocks@ && new.stmts@ == old.stmts@ && new.block_params@
                == old.block_params@
            &&& crate::amir::drawn_from(old, new)
            &&& ranges_disjoint(stmt_ranges(old.blocks@)) ==> ranges_disjoint(stmt_ranges(new.blocks@))
        },
        Err(d) => {
            &&& d.code == DiagCode::ICEO001
            &&& !simplified(old.blocks@)
            &&& !ranges_disjoint(stmt_ranges(old.blocks@))
        },
    }
}

/// CFG simplification: jump threading and block merging over a worklist,
/// then removal of unreachable blocks, repeated until nothing changes (or
/// the outer iteration bound is reached).  The CFG lists are recomputed
/// first, since earlier passes rewrite terminators without updating them.
///
/// Returns whether anything changed, which is exactly when the blocks were
/// not `simplified` already.  An internal error is reported only when
/// statement ranges of blocks overlap (a merge or the sweep would then move
/// a statement twice); with disjoint ranges the result is `Ok`, its ranges
/// are disjoint again and its statements are drawn from the input.
pub fn simplify_cfg(func: &mut AmirFunc) -> (res: Result<bool, Diagnostic>)
    requires
        old(func).wf_shape(),
    ensures
        simplify_post(*old(func), *final(func), res),
{
    let ghost f0 = *func;
    func.cfg = compute_cfg_edges(&func.blocks);
    proof {
        assert forall|b: int| 0 <= b < func.blocks@.len() implies #[trigger] func.block_ranges_ok(b) by {
            assert(f0.block_ranges_ok(b));
        }
        lemma_range_total_same(f0, *func, f0.blocks@.len() as int);
        assert forall|i: int| 0 <= i < func.stmts@.len() implies f0.stmts@.contains(#[trigger] func.stmts@[i]) by {
            assert(f0.stmts@[i] == func.stmts@[i]);
        }
        assert forall|i: int| 0 <= i < func.block_params@.len() implies f0.block_params@.contains(
            #[trigger] func.block_params@[i],
        ) by {
            assert(f0.block_params@[i] == func.block_params@[i]);
        }
    }
    let mut changed = false;
    let mut outer_iters: u32 = 0;
    loop
        invariant_except_break
            outer_iters > 0 ==> changed,
        invariant
            func.wf_shape_cfg(),
            same_frame(f0, *func),
            range_total(*func, func.blocks@.len() as int) <= range_total(f0, f0.blocks@.len() as int),
            outer_iters <= CFG_SIMPLIFY_MAX_OUTER_ITERS,
            !changed ==> func.blocks@ == f0.blocks@ && func.stmts@ == f0.stmts@ && func.block_params@
                == f0.block_params@,
            changed ==> !simplified(f0.blocks@),
            f0 == *old(func),
            crate::amir::drawn_from(f0, *func),
            ranges_disjoint(stmt_ranges(f0.blocks@)) ==> ranges_disjoint(stmt_ranges(func.blocks@)),
            outer_iters > 0 ==> forall|i: int| 0 <= i < func.blocks@.len() ==> #[trigger] entry_reaches(
                func.blocks@,
                i,
            ),
        ensures
            !changed ==> simplified(f0.blocks@),
            outer_iters > 0,
        decreases CFG_SIMPLIFY_MAX_OUTER_ITERS - outer_iters,
    {
        if outer_iters >= CFG_SIMPLIFY_MAX_OUTER_ITERS {
            break;
        }
        outer_iters = outer_iters + 1;
        let ghost before_round = *func;
        let ghost first = !changed;
        let mut local = false;

        // Phase 1: jump threading and block merging with a local worklist.
        let nb = func.blocks.len();
        let mut worklist: VecDeque<BlockId> = VecDeque::new();
        let mut i: usize = 0;
        while i < nb
            invariant
                i <= nb,
                worklist@ == Seq::new(i as nat, |k: int| k as usize),
            decreases nb - i,
        {
            worklist.push_back(i);
            i = i + 1;
            assert(worklist@ =~= Seq::new(i as nat, |k: int| k as usize));
        }
        let max_visits: usize = if nb > usize::MAX / 4 {
            usize::MAX
        } else if nb * 4 > 16 {
            nb * 4
        } else {
            16
        };
        let mut visited: u64 = 0;
        loop
            invariant
                func.wf_shape_cfg(),
                same_frame(f0, *func),
                range_total(*func, func.blocks@.len() as int) <= range_total(f0, f0.blocks@.len() as int),
                visited <= max_visits as u64,
                !local ==> *func == before_round,
                nb == before_round.blocks@.len(),
                nb <= max_visits,
                before_round.wf_shape_cfg(),
                first ==> before_round.blocks@ == f0.blocks@,
                first && simplified(f0.blocks@) ==> !local,
                !first ==> !simplified(f0.blocks@),
                f0 == *old(func),
                crate::amir::drawn_from(f0, *func),
                ranges_disjoint(stmt_ranges(f0.blocks@)) ==> ranges_disjoint(stmt_ranges(func.blocks@)),
                !local ==> visited <= nb && worklist@ == Seq::new(
                    (nb - visited) as nat,
                    |k: int| (visited + k) as usize,
                ),
                !local ==> forall|b: int| 0 <= b < visited ==> !#[trigger] threadable(before_round.blocks@, b),
                !local ==> forall|b: int| 0 <= b < visited ==> !#[trigger] mergeable(before_round.blocks@, b),
            ensures
                !local ==> visited == nb,
            decreases max_visits as u64 - visited,
        {
            let bid = match worklist.pop_front() {
                Some(b) => b,
                None => {
                    break;
                },
            };
            if visited >= max_visits as u64 {
                break;
            }
            visited = visited + 1;
            if bid >= func.blocks.len() {
                continue;
            }
            proof {
                if first && simplified(f0.blocks@) && !local {
                    assert(!threadable(before_round.blocks@, bid as int));
                    assert(!mergeable(before_round.blocks@, bid as int));
                }
            }
            let ghost before_thread = *func;
            let threaded = thread_block(func, bid);
            proof {
                assert forall|b: int| 0 <= b < func.blocks@.len() implies #[trigger] func.blocks@[b].statements
                    == before_thread.blocks@[b].statements by {
                    if threaded && b != bid {
                        assert(func.blocks@[b] == before_thread.blocks@[b]);
                    }
                }
                lemma_range_total_same(before_thread, *func, func.blocks@.len() as int);
                if threaded {
                    crate::amir::lemma_drawn_trans(f0, before_thread, *func);
                }
                assert(stmt_ranges(func.blocks@) =~= stmt_ranges(before_thread.blocks@));
            }
            let ghost before_merge = *func;
            proof {
                lemma_can_merge_mergeable(before_merge, bid);
            }
            let merged_now = match merge_block_candidate(func, bid) {
                Ok(m) => m,
                Err(d) => {
                    proof {
                        if ranges_disjoint(stmt_ranges(f0.blocks@)) {
                            let t = before_merge.blocks@[bid as int].terminator;
                            assert(crate::amir::targets_in_range(t, before_merge.blocks@.len()));
                            assert(terminator_targets(t)[0] == goto_target(t));
                            lemma_disjoint_merge_ok(before_merge, bid as int, goto_target(t) as int);
                        }
                    }
                    return Err(d);
                },
            };
            proof {
                if can_merge(before_merge, bid as int) {
                    let t = before_merge.blocks@[bid as int].terminator;
                    assert(crate::amir::targets_in_range(t, before_merge.blocks@.len()));
                    assert(terminator_targets(t)[0] == goto_target(t));
                    lemma_merged_total(
                        before_merge,
                        *func,
                        bid as int,
                        goto_target(before_merge.blocks@[bid as int].terminator) as int,
                    );
                    crate::amir::lemma_drawn_trans(f0, before_merge, *func);
                    lemma_merged_disjoint(
                        before_merge,
                        *func,
                        bid as int,
                        goto_target(before_merge.blocks@[bid as int].terminator) as int,
                    );
                }
            }
            if threaded || merged_now {
                local = true;
                let preds = &func.cfg.predecessors[bid];
                let np = preds.len();
                let mut k: usize = 0;
                while k < np
                    invariant
                        k <= np,
                        np == preds@.len(),
                    decreases np - k,
                {
                    worklist.push_back(preds[k]);
                    k = k + 1;
                }
                let succs = &func.cfg.successors[bid];
                let ns = succs.len();
                let mut k: usize = 0;
                while k < ns
                    invariant
                        k <= ns,
                        ns == succs@.len(),
                    decreases ns - k,
                {
                    worklist.push_back(succs[k]);
                    k = k + 1;
                }
            }
        }

        // Phase 2: unreachable removal (indices shift, CFG recomputed).
        let ghost before_remove = *func;
        let removed = match remove_unreachable_blocks(func) {
            Ok(r) => r,
            Err(d) => {
                proof {
                    if ranges_disjoint(stmt_ranges(f0.blocks@)) {
                        lemma_disjoint_sweep_ok(before_remove);
                    }
                }
                return Err(d);
            },
        };
        proof {
            if removed {
                lemma_compacted_disjoint(before_remove, *func, reach_marks(before_remove.blocks@));
                lemma_compacted_total(before_remove, *func, reach_marks(before_remove.blocks@));
                crate::amir::lemma_drawn_trans(f0, before_remove, *func);
            }
        }
        local = local || removed;
        changed = changed || local;
        if !local {
            break;
        }
    }
    proof {
        if f0.wf_body() {
            crate::amir::lemma_wf_body_parts(f0);
            crate::amir::lemma_drawn_locals(f0, *func, f0.locals@.len());
            crate::amir::lemma_wf_body_parts(*func);
        }
    }
    Ok(changed)
}

} // verus!
