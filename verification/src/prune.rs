//! Removal of the redundant whole-local loads and stores that lowering
//! leaves behind for locals that live in SSA values rather than memory.

use vstd::prelude::*;
use crate::amir::{AmirFunc, AmirLocal, AmirRvalue, AmirStmt, DenseRange, blocks_targets_in_range, cfg_matches, compute_cfg_edges};
use crate::sccp::covered;
use crate::simplify_cfg::same_frame;
use crate::stmt_table::{flat, lemma_flat_prefix, range_ids, rebuild_from_lists, views};

verus! {

/// A store to, or a load from, a whole local that does not live in memory.
pub open spec fn is_dummy_access(s: AmirStmt, locals: Seq<AmirLocal>) -> bool {
    match s {
        AmirStmt::Store { lhs, .. } => lhs.projections@.len() == 0 && !locals[lhs.local as int].is_memory,
        AmirStmt::Assign { rhs, .. } => match rhs {
            AmirRvalue::Load(place) => place.projections@.len() == 0 && !locals[place.local as int].is_memory,
            _ => false,
        },
        _ => false,
    }
}

/// The locals the pruning decision reads are in range.
pub open spec fn prune_locals_ok(s: AmirStmt, nl: nat) -> bool {
    match s {
        AmirStmt::Store { lhs, .. } => lhs.projections@.len() == 0 ==> lhs.local < nl,
        AmirStmt::Assign { rhs, .. } => match rhs {
            AmirRvalue::Load(place) => place.projections@.len() == 0 ==> place.local < nl,
            _ => true,
        },
        _ => true,
    }
}

/// What pruning may run on: terminators jump to blocks, and the locals of
/// every statement in a block range that pruning inspects exist.
pub open spec fn prune_ready(func: AmirFunc) -> bool {
    &&& blocks_targets_in_range(func.blocks@)
    &&& forall|b: int|
        0 <= b < func.blocks@.len() ==> #[trigger] func.blocks@[b].statements.start + func.blocks@[b].statements.len
            <= usize::MAX
    &&& forall|i: int|
        0 <= i < func.stmts@.len() && covered(func.blocks@, i) ==> prune_locals_ok(
            #[trigger] func.stmts@[i],
            func.locals@.len(),
        )
}

/// Statement id `i` of a block range is kept: it exists and is no dummy access.
pub open spec fn is_kept_id(func: AmirFunc) -> spec_fn(usize) -> bool {
    |i: usize| i < func.stmts@.len() && !is_dummy_access(func.stmts@[i as int], func.locals@)
}

/// The kept statement ids of block `b`, in order.
pub open spec fn kept_ids(func: AmirFunc, b: int) -> Seq<usize> {
    range_ids(func.blocks@[b].statements).filter(is_kept_id(func))
}

/// The kept statement ids of every block.
pub open spec fn kept_lists(func: AmirFunc) -> Seq<Seq<usize>> {
    Seq::new(func.blocks@.len(), |b: int| kept_ids(func, b))
}

fn dummy_access(s: &AmirStmt, locals: &Vec<AmirLocal>) -> (b: bool)
    requires
        prune_locals_ok(*s, locals@.len()),
    ensures
        b == is_dummy_access(*s, locals@),
{
    match s {
        AmirStmt::Store { lhs, .. } => lhs.projections.len() == 0 && !locals[lhs.local].is_memory,
        AmirStmt::Assign { rhs, .. } => match rhs {
            AmirRvalue::Load(place) => place.projections.len() == 0 && !locals[place.local].is_memory,
            _ => false,
        },
        _ => false,
    }
}

/// The kept ids of every block.
fn kept_id_lists(func: &AmirFunc) -> (lists: Vec<Vec<usize>>)
    requires
        prune_ready(*func),
    ensures
        views(lists@) == kept_lists(*func),
        forall|g: int, j: int|
            0 <= g < lists@.len() && 0 <= j < lists@[g]@.len() ==> #[trigger] lists@[g]@[j] < func.stmts@.len(),
{
    let nb = func.blocks.len();
    let ns = func.stmts.len();
    let mut lists: Vec<Vec<usize>> = Vec::new();
    let mut bi: usize = 0;
    while bi < nb
        invariant
            prune_ready(*func),
            nb == func.blocks@.len(),
            ns == func.stmts@.len(),
            bi <= nb,
            views(lists@) == kept_lists(*func).take(bi as int),
            forall|g: int, j: int|
                0 <= g < lists@.len() && 0 <= j < lists@[g]@.len() ==> #[trigger] lists@[g]@[j] < func.stmts@.len(),
        decreases nb - bi,
    {
        let r = func.blocks[bi].statements;
        let ghost ids = range_ids(r);
        let mut l: Vec<usize> = Vec::new();
        let mut j: usize = 0;
        while j < r.len
            invariant
                prune_ready(*func),
                nb == func.blocks@.len(),
                bi < nb,
                r == func.blocks@[bi as int].statements,
                ns == func.stmts@.len(),
                ids == range_ids(r),
                j <= r.len,
                l@ == ids.take(j as int).filter(is_kept_id(*func)),
                forall|k: int| 0 <= k < l@.len() ==> #[trigger] l@[k] < ns,
            decreases r.len - j,
        {
            let ghost before = l@;
            if r.start <= ns && j < ns - r.start {
                let id = r.start + j;
                proof {
                    assert(covered(func.blocks@, id as int)) by {
                        assert(func.blocks@[bi as int].statements.start <= id < func.blocks@[bi as int].statements.start
                            + func.blocks@[bi as int].statements.len);
                    }
                }
                if !dummy_access(&func.stmts[id], &func.locals) {
                    l.push(id);
                }
            }
            proof {
                let a = ids.take(j as int);
                let b = ids.take(j + 1);
                assert(b.drop_last() == a);
                assert(func.blocks@[bi as int].statements.start + func.blocks@[bi as int].statements.len <= usize::MAX);
                assert(b.last() == r.start + j);
                reveal(Seq::filter);
                if is_kept_id(*func)(b.last()) {
                    assert(l@ == a.filter(is_kept_id(*func)).push(b.last()));
                } else {
                    assert(l@ == a.filter(is_kept_id(*func)));
                }
                assert(l@ == b.filter(is_kept_id(*func)));
            }
            j = j + 1;
        }
        proof {
            assert(ids.take(r.len as int) == ids);
        }
        let ghost lists0 = lists@;
        proof {
            assert(views(lists0).len() == lists0.len());
        }
        lists.push(l);
        proof {
            assert(views(lists@) =~= kept_lists(*func).take(bi + 1)) by {
                assert forall|g: int| 0 <= g < bi + 1 implies #[trigger] views(lists@)[g] == kept_lists(*func).take(
                    bi + 1,
                )[g] by {
                    if g < bi {
                        assert(lists@[g] == lists0[g]);
                        assert(views(lists0)[g] == kept_lists(*func).take(bi as int)[g]);
                    }
                }
            }
            assert forall|g: int, jj: int|
                0 <= g < lists@.len() && 0 <= jj < lists@[g]@.len() implies #[trigger] lists@[g]@[jj]
                < func.stmts@.len() by {
                if g < bi {
                    assert(lists@[g] == lists0[g]);
                }
            }
        }
        bi = bi + 1;
    }
    proof {
        assert(kept_lists(*func).take(nb as int) == kept_lists(*func));
    }
    lists
}

/// The ids of every list, list after list.
fn flatten_ids(lists: &Vec<Vec<usize>>) -> (ids: Vec<usize>)
    ensures
        ids@ == flat(views(lists@)),
{
    let ghost ls = views(lists@);
    let ng = lists.len();
    let mut ids: Vec<usize> = Vec::new();
    let mut g: usize = 0;
    while g < ng
        invariant
            ng == lists@.len(),
            ls == views(lists@),
            g <= ng,
            ids@ == flat(ls.take(g as int)),
        decreases ng - g,
    {
        let l = &lists[g];
        let ghost base = ids@;
        let m = l.len();
        let mut j: usize = 0;
        while j < m
            invariant
                m == l@.len(),
                j <= m,
                ids@ == base + l@.take(j as int),
            decreases m - j,
        {
            ids.push(l[j]);
            proof {
                assert(l@.take(j + 1) == l@.take(j as int).push(l@[j as int]));
            }
            j = j + 1;
        }
        proof {
            assert(l@.take(m as int) == l@);
            assert(ls.take(g + 1).drop_last() == ls.take(g as int));
            assert(ls.take(g + 1).last() == l@);
        }
        g = g + 1;
    }
    proof {
        assert(ls.take(ng as int) == ls);
    }
    ids
}

/// Whether some id occurs twice in `ids`, all below `n`.
fn has_repeat(ids: &Vec<usize>, n: usize) -> (b: bool)
    requires
        forall|i: int| 0 <= i < ids@.len() ==> #[trigger] ids@[i] < n,
    ensures
        b == !ids@.no_duplicates(),
{
    let mut seen: Vec<bool> = Vec::new();
    let mut k: usize = 0;
    while k < n
        invariant
            k <= n,
            seen@.len() == k,
            forall|x: int| 0 <= x < k ==> !#[trigger] seen@[x],
        decreases n - k,
    {
        seen.push(false);
        k = k + 1;
    }
    let m = ids.len();
    let mut p: usize = 0;
    while p < m
        invariant
            m == ids@.len(),
            p <= m,
            seen@.len() == n,
            forall|i: int| 0 <= i < ids@.len() ==> #[trigger] ids@[i] < n,
            ids@.take(p as int).no_duplicates(),
            forall|x: int| 0 <= x < n ==> (#[trigger] seen@[x] <==> ids@.take(p as int).contains(x as usize)),
        decreases m - p,
    {
        let x = ids[p];
        if seen[x] {
            proof {
                let w = choose|w: int| 0 <= w < p && #[trigger] ids@.take(p as int)[w] == x;
                assert(ids@[w] == ids@[p as int]);
            }
            return true;
        }
        seen.set(x, true);
        proof {
            assert(ids@.take(p + 1) == ids@.take(p as int).push(x));
            assert forall|x2: int| 0 <= x2 < n implies (#[trigger] seen@[x2] <==> ids@.take(p + 1).contains(
                x2 as usize,
            )) by {
                crate::amir::lemma_take_push_contains(ids@, p as int, x2);
            }
        }
        p = p + 1;
    }
    proof {
        assert(ids@.take(m as int) == ids@);
    }
    false
}

proof fn lemma_flat_member(ls: Seq<Seq<usize>>, k: int)
    requires
        0 <= k < flat(ls).len(),
    ensures
        exists|b: int, j: int| 0 <= b < ls.len() && 0 <= j < ls[b].len() && #[trigger] ls[b][j] == flat(ls)[k],
    decreases ls.len(),
{
    let front = flat(ls.drop_last());
    if k < front.len() {
        lemma_flat_member(ls.drop_last(), k);
        let (b, j) = choose|b: int, j: int|
            0 <= b < ls.drop_last().len() && 0 <= j < ls.drop_last()[b].len() && #[trigger] ls.drop_last()[b][j]
                == front[k];
        assert(ls[b][j] == flat(ls)[k]);
    } else {
        let b = ls.len() - 1;
        assert(ls[b][k - front.len()] == flat(ls)[k]);
    }
}

/// No statement that pruning keeps is a dummy access.
proof fn lemma_kept_not_dummy(func: AmirFunc, k: int)
    requires
        0 <= k < flat(kept_lists(func)).len(),
    ensures
        flat(kept_lists(func))[k] < func.stmts@.len(),
        !is_dummy_access(func.stmts@[flat(kept_lists(func))[k] as int], func.locals@),
{
    let ls = kept_lists(func);
    lemma_flat_member(ls, k);
    let (b, j) = choose|b: int, j: int| 0 <= b < ls.len() && 0 <= j < ls[b].len() && #[trigger] ls[b][j] == flat(ls)[k];
    assert(ls[b] == kept_ids(func, b));
    range_ids(func.blocks@[b].statements).lemma_filter_pred(is_kept_id(func), j);
}

/// The blocks of `new` are those of `old` with their statement ranges laid
/// out list after list.
pub open spec fn pruned_blocks(old: AmirFunc, new: AmirFunc) -> bool {
    let ls = kept_lists(old);
    &&& new.blocks@.len() == old.blocks@.len()
    &&& forall|b: int|
        0 <= b < old.blocks@.len() ==> (#[trigger] new.blocks@[b]).id == old.blocks@[b].id
            && new.blocks@[b].params == old.blocks@[b].params && new.blocks@[b].terminator
            == old.blocks@[b].terminator && new.blocks@[b].statements == (DenseRange {
            start: flat(ls.take(b)).len() as usize,
            len: kept_ids(old, b).len() as usize,
        })
}

/// Removes every store to and load from a whole local that does not live in
/// memory, block by block, and recomputes the CFG lists.
pub fn prune_dummy_loads_stores(func: &mut AmirFunc)
    requires
        prune_ready(*old(func)),
    ensures
        same_frame(*old(func), *final(func)),
        final(func).block_params == old(func).block_params,
        pruned_blocks(*old(func), *final(func)),
        cfg_matches(final(func).cfg, final(func).blocks@),
        final(func).stmts@.len() == flat(kept_lists(*old(func))).len(),
        flat(kept_lists(*old(func))).no_duplicates() ==> forall|k: int|
            0 <= k < final(func).stmts@.len() ==> #[trigger] final(func).stmts@[k] == old(func).stmts@[flat(
                kept_lists(*old(func)),
            )[k] as int],
        flat(kept_lists(*old(func))).no_duplicates() ==> forall|k: int|
            0 <= k < final(func).stmts@.len() ==> !is_dummy_access(#[trigger] final(func).stmts@[k], final(func).locals@),
{
    let ghost f0 = *func;
    let lists = kept_id_lists(func);
    let ids = flatten_ids(&lists);
    let ns = func.stmts.len();
    proof {
        crate::stmt_table::lemma_flat_bound(views(lists@), ns as nat);
    }
    let nb = func.blocks.len();
    let mut new_ranges: Vec<DenseRange> = Vec::new();
    if has_repeat(&ids, ns) {
        // Overlapping block ranges keep a statement twice: copy it.
        let mut new_stmts: Vec<AmirStmt> = Vec::new();
        let mut g: usize = 0;
        while g < nb
            invariant
                nb == lists@.len(),
                ns == func.stmts@.len(),
                g <= nb,
                *func == f0,
                views(lists@) == kept_lists(f0),
                forall|gg: int, j: int|
                    0 <= gg < lists@.len() && 0 <= j < lists@[gg]@.len() ==> #[trigger] lists@[gg]@[j] < ns,
                new_stmts@.len() == flat(views(lists@).take(g as int)).len(),
                new_ranges@.len() == g,
                forall|gg: int| 0 <= gg < g ==> #[trigger] new_ranges@[gg] == (DenseRange {
                    start: flat(views(lists@).take(gg)).len() as usize,
                    len: lists@[gg]@.len() as usize,
                }),
            decreases nb - g,
        {
            proof {
                lemma_flat_prefix(views(lists@), g as int);
                assert(views(lists@)[g as int] == lists@[g as int]@);
            }
            let start = new_stmts.len();
            let l = &lists[g];
            let m = l.len();
            let mut j: usize = 0;
            while j < m
                invariant
                    m == l@.len(),
                    *l == lists@[g as int],
                    g < nb,
                    nb == lists@.len(),
                    ns == func.stmts@.len(),
                    forall|gg: int, jj: int|
                        0 <= gg < lists@.len() && 0 <= jj < lists@[gg]@.len() ==> #[trigger] lists@[gg]@[jj] < ns,
                    j <= m,
                    new_stmts@.len() == start + j,
                decreases m - j,
            {
                let id = l[j];
                new_stmts.push(func.stmts[id].clone());
                j = j + 1;
            }
            new_ranges.push(DenseRange { start, len: m });
            g = g + 1;
        }
        proof {
            assert(views(lists@).take(nb as int) == views(lists@));
        }
        func.stmts = new_stmts;
    } else {
        let mut old_stmts: Vec<AmirStmt> = Vec::new();
        std::mem::swap(&mut old_stmts, &mut func.stmts);
        match rebuild_from_lists(old_stmts, &lists) {
            Ok((new_stmts, ranges)) => {
                func.stmts = new_stmts;
                new_ranges = ranges;
            },
            Err(_) => {
                proof {
                    assert(false);
                }
            },
        }
    }
    let ghost nst = func.stmts@;
    let mut b: usize = 0;
    while b < nb
        invariant
            nb == func.blocks@.len(),
            nb == f0.blocks@.len(),
            b <= nb,
            func.stmts@ == nst,
            new_ranges@.len() == nb,
            views(lists@) == kept_lists(f0),
            forall|g: int| 0 <= g < nb ==> #[trigger] new_ranges@[g] == (DenseRange {
                start: flat(views(lists@).take(g)).len() as usize,
                len: lists@[g]@.len() as usize,
            }),
            forall|g: int|
                0 <= g < nb ==> (#[trigger] func.blocks@[g]).id == f0.blocks@[g].id && func.blocks@[g].params
                    == f0.blocks@[g].params && func.blocks@[g].terminator == f0.blocks@[g].terminator,
            forall|g: int| 0 <= g < b ==> (#[trigger] func.blocks@[g]).statements == new_ranges@[g],
            same_frame(f0, *func),
            func.block_params == f0.block_params,
        decreases nb - b,
    {
        func.blocks[b].statements = new_ranges[b];
        b = b + 1;
    }
    proof {
        assert(blocks_targets_in_range(func.blocks@)) by {
            assert forall|g: int| 0 <= g < nb implies crate::amir::targets_in_range(
                #[trigger] func.blocks@[g].terminator,
                nb as nat,
            ) by {
                assert(crate::amir::targets_in_range(f0.blocks@[g].terminator, nb as nat));
            }
        }
        let ls = kept_lists(f0);
        assert forall|g: int| 0 <= g < nb implies (#[trigger] func.blocks@[g]).statements == (DenseRange {
            start: flat(ls.take(g)).len() as usize,
            len: kept_ids(f0, g).len() as usize,
        }) by {
            assert(views(lists@)[g] == lists@[g]@);
            assert(ls[g] == kept_ids(f0, g));
        }
    }
    func.cfg = compute_cfg_edges(&func.blocks);
    proof {
        if flat(kept_lists(f0)).no_duplicates() {
            assert forall|k: int| 0 <= k < func.stmts@.len() implies !is_dummy_access(
                #[trigger] func.stmts@[k],
                func.locals@,
            ) by {
                lemma_kept_not_dummy(f0, k);
            }
        }
    }
}


/// What one call of `prune_dummy_loads_stores` promises of its result.
pub open spec fn prune_result(old: AmirFunc, new: AmirFunc) -> bool {
    &&& same_frame(old, new)
    &&& new.block_params == old.block_params
    &&& pruned_blocks(old, new)
    &&& cfg_matches(new.cfg, new.blocks@)
    &&& new.stmts@.len() == flat(kept_lists(old)).len()
    &&& flat(kept_lists(old)).no_duplicates() ==> forall|k: int|
        0 <= k < new.stmts@.len() ==> #[trigger] new.stmts@[k] == old.stmts@[flat(kept_lists(old))[k] as int]
    &&& flat(kept_lists(old)).no_duplicates() ==> forall|k: int|
        0 <= k < new.stmts@.len() ==> !is_dummy_access(#[trigger] new.stmts@[k], new.locals@)
}

proof fn lemma_filter_all<A>(s: Seq<A>, pred: spec_fn(A) -> bool)
    requires
        forall|i: int| 0 <= i < s.len() ==> pred(#[trigger] s[i]),
    ensures
        s.filter(pred) == s,
    decreases s.len(),
{
    reveal(Seq::filter);
    if s.len() > 0 {
        lemma_filter_all(s.drop_last(), pred);
        assert(s.drop_last().push(s.last()) =~= s);
    }
}

/// Pruning is idempotent: when the block ranges of `f0` hold no statement
/// twice, pruning the result `f1` again keeps every statement and every
/// block as they are.
pub proof fn lemma_prune_idempotent(f0: AmirFunc, f1: AmirFunc, f2: AmirFunc)
    requires
        flat(kept_lists(f0)).no_duplicates(),
        prune_result(f0, f1),
        prune_result(f1, f2),
    ensures
        flat(kept_lists(f1)).no_duplicates(),
        f2.stmts@ == f1.stmts@,
        f2.blocks@ == f1.blocks@,
{
    let ls0 = kept_lists(f0);
    let ls1 = kept_lists(f1);
    let nb = f0.blocks@.len() as int;
    let n1 = f1.stmts@.len() as int;
    assert(f1.stmts@.len() == f1.stmts.len());
    // The range of block `b` in `f1` starts where the kept ids of the blocks
    // before it end.
    assert forall|b: int| 0 <= b < nb implies (#[trigger] f1.blocks@[b]).statements.start == flat(ls0.take(b)).len()
        && f1.blocks@[b].statements.start + f1.blocks@[b].statements.len == flat(ls0.take(b + 1)).len()
        && flat(ls0.take(b + 1)).len() <= n1 by {
        lemma_flat_prefix(ls0, b);
        assert(ls0[b] == kept_ids(f0, b));
        assert(ls0.take(nb) == ls0);
        lemma_flat_take_mono(ls0, b + 1, nb);
    }
    // Every statement of `f1` is kept, so each block keeps its whole range.
    assert forall|b: int| 0 <= b < nb implies #[trigger] ls1[b] == range_ids(f1.blocks@[b].statements) by {
        let r = f1.blocks@[b].statements;
        assert forall|i: int| 0 <= i < range_ids(r).len() implies (is_kept_id(f1))(#[trigger] range_ids(r)[i]) by {
            assert(range_ids(r)[i] == r.start + i);
            assert(!is_dummy_access(f1.stmts@[r.start + i], f1.locals@));
        }
        lemma_filter_all(range_ids(r), is_kept_id(f1));
    }
    // So the kept ids of `f1`, block after block, are 0, 1, 2, ...
    assert forall|b: int| 0 <= b <= nb implies #[trigger] flat(ls1.take(b)) =~= Seq::new(
        flat(ls0.take(b)).len(),
        |k: int| k as usize,
    ) by {
        lemma_flat_identity(f0, f1, b);
    }
    assert(ls1.take(nb) == ls1);
    assert(ls0.take(nb) == ls0);
    assert(flat(ls1) =~= Seq::new(n1 as nat, |k: int| k as usize));
    assert forall|i: int, j: int| 0 <= i < flat(ls1).len() && 0 <= j < flat(ls1).len() && i != j implies flat(ls1)[i]
        != flat(ls1)[j] by {}
    assert(f2.stmts@ =~= f1.stmts@);
    assert forall|b: int| 0 <= b < nb implies #[trigger] f2.blocks@[b] == f1.blocks@[b] by {
        assert(f1.blocks@[b].statements.start == flat(ls0.take(b)).len());
        assert(flat(ls1.take(b)).len() == flat(ls0.take(b)).len());
        assert(kept_ids(f1, b) == ls1[b]);
    }
    assert(f2.blocks@ =~= f1.blocks@);
}

proof fn lemma_flat_take_mono(ls: Seq<Seq<usize>>, a: int, b: int)
    requires
        0 <= a <= b <= ls.len(),
    ensures
        flat(ls.take(a)).len() <= flat(ls.take(b)).len(),
    decreases b - a,
{
    if a < b {
        lemma_flat_take_mono(ls, a, b - 1);
        lemma_flat_prefix(ls, b - 1);
    }
}

proof fn lemma_flat_identity(f0: AmirFunc, f1: AmirFunc, b: int)
    requires
        0 <= b <= f0.blocks@.len(),
        f1.blocks@.len() == f0.blocks@.len(),
        forall|c: int| 0 <= c < f0.blocks@.len() ==> (#[trigger] f1.blocks@[c]).statements.start == flat(
            kept_lists(f0).take(c),
        ).len() && f1.blocks@[c].statements.start + f1.blocks@[c].statements.len == flat(
            kept_lists(f0).take(c + 1),
        ).len() && flat(kept_lists(f0).take(c + 1)).len() <= f1.stmts@.len(),
        forall|c: int| 0 <= c < f0.blocks@.len() ==> #[trigger] kept_lists(f1)[c] == range_ids(
            f1.blocks@[c].statements,
        ),
        f1.stmts@.len() <= usize::MAX,
    ensures
        flat(kept_lists(f1).take(b)) =~= Seq::new(flat(kept_lists(f0).take(b)).len(), |k: int| k as usize),
    decreases b,
{
    let ls0 = kept_lists(f0);
    let ls1 = kept_lists(f1);
    if b > 0 {
        lemma_flat_identity(f0, f1, b - 1);
        lemma_flat_prefix(ls1, b - 1);
        lemma_flat_prefix(ls0, b - 1);
        let r = f1.blocks@[b - 1].statements;
        assert(ls1[b - 1] == range_ids(r));
        let prev = flat(ls1.take(b - 1));
        let cur = flat(ls1.take(b));
        assert(cur == prev + range_ids(r));
        assert forall|k: int| 0 <= k < cur.len() implies cur[k] == k as usize by {
            if k >= prev.len() {
                assert(cur[k] == range_ids(r)[k - prev.len()]);
            }
        }
    } else {
        assert(ls1.take(0) =~= Seq::<Seq<usize>>::empty());
        assert(ls0.take(0) =~= Seq::<Seq<usize>>::empty());
    }
}

} // verus!
