//! Rebuilding the flat statement table of a function from the statement
//! ranges of its blocks, moving every statement exactly once.

use vstd::prelude::*;
use crate::amir::{AmirStmt, DenseRange};

verus! {

/// The statement ids of a range, in order.
pub open spec fn range_ids(r: DenseRange) -> Seq<usize> {
    Seq::new(r.len as nat, |i: int| (r.start + i) as usize)
}

/// The statement ids of the blocks of `order`, block after block.
pub open spec fn blocks_ids(ranges: Seq<DenseRange>, order: Seq<usize>) -> Seq<usize>
    decreases order.len(),
{
    if order.len() == 0 {
        seq![]
    } else {
        blocks_ids(ranges, order.drop_last()) + range_ids(ranges[order.last() as int])
    }
}

/// The statement ids of every group of blocks, group after group.
pub open spec fn groups_ids(ranges: Seq<DenseRange>, groups: Seq<Seq<usize>>) -> Seq<usize>
    decreases groups.len(),
{
    if groups.len() == 0 {
        seq![]
    } else {
        groups_ids(ranges, groups.drop_last()) + blocks_ids(ranges, groups.last())
    }
}

pub open spec fn views(gs: Seq<Vec<usize>>) -> Seq<Seq<usize>> {
    gs.map_values(|v: Vec<usize>| v@)
}

/// Ranges lie inside a table of `n` statements and groups name blocks in range.
pub open spec fn rebuild_ok(ranges: Seq<DenseRange>, groups: Seq<Seq<usize>>, n: nat) -> bool {
    &&& forall|b: int| 0 <= b < ranges.len() ==> #[trigger] ranges[b].start + ranges[b].len <= n
    &&& forall|g: int, j: int|
        0 <= g < groups.len() && 0 <= j < groups[g].len() ==> #[trigger] groups[g][j] < ranges.len()
}

/// The new range of group `g` in the rebuilt table.
pub open spec fn group_range(ranges: Seq<DenseRange>, groups: Seq<Seq<usize>>, g: int) -> DenseRange {
    DenseRange {
        start: groups_ids(ranges, groups.take(g)).len() as usize,
        len: blocks_ids(ranges, groups[g]).len() as usize,
    }
}

proof fn lemma_blocks_ids_bound(ranges: Seq<DenseRange>, order: Seq<usize>, n: nat)
    requires
        forall|b: int| 0 <= b < ranges.len() ==> #[trigger] ranges[b].start + ranges[b].len <= n,
        forall|j: int| 0 <= j < order.len() ==> #[trigger] order[j] < ranges.len(),
    ensures
        forall|i: int| 0 <= i < blocks_ids(ranges, order).len() ==> #[trigger] blocks_ids(ranges, order)[i] < n,
    decreases order.len(),
{
    if order.len() > 0 {
        let front = order.drop_last();
        assert forall|j: int| 0 <= j < front.len() implies #[trigger] front[j] < ranges.len() by {
            assert(front[j] == order[j]);
        }
        lemma_blocks_ids_bound(ranges, front, n);
        let r = ranges[order.last() as int];
        assert(order[order.len() - 1] < ranges.len());
        let a = blocks_ids(ranges, front);
        let all = blocks_ids(ranges, order);
        assert forall|i: int| 0 <= i < all.len() implies #[trigger] all[i] < n by {
            if i >= a.len() {
                assert(all[i] == range_ids(r)[i - a.len()]);
            } else {
                assert(all[i] == a[i]);
            }
        }
    }
}

/// Moves every element of `v` into its own slot.
pub fn into_slots(v: Vec<AmirStmt>) -> (r: Vec<Option<AmirStmt>>)
    ensures
        r@.len() == v@.len(),
        forall|i: int| 0 <= i < v@.len() ==> #[trigger] r@[i] == Some(v@[i]),
{
    let ghost orig = v@;
    let mut v = v;
    let n = v.len();
    let mut rev: Vec<Option<AmirStmt>> = Vec::new();
    while v.len() > 0
        invariant
            v@ == orig.take(v@.len() as int),
            v@.len() + rev@.len() == n,
            n == orig.len(),
            forall|j: int| 0 <= j < rev@.len() ==> #[trigger] rev@[j] == Some(orig[n - 1 - j]),
        decreases v@.len(),
    {
        let x = v.pop().unwrap();
        rev.push(Some(x));
    }
    let mut out: Vec<Option<AmirStmt>> = Vec::new();
    while rev.len() > 0
        invariant
            rev@.len() + out@.len() == n,
            n == orig.len(),
            forall|j: int| 0 <= j < rev@.len() ==> #[trigger] rev@[j] == Some(orig[n - 1 - j]),
            forall|i: int| 0 <= i < out@.len() ==> #[trigger] out@[i] == Some(orig[i]),
        decreases rev@.len(),
    {
        let x = rev.pop().unwrap();
        out.push(x);
    }
    out
}

/// Collects the statement ids of every group and the number of ids each
/// group contributes.
fn collect_ids(ranges: &Vec<DenseRange>, groups: &Vec<Vec<usize>>) -> (res: (Vec<usize>, Vec<usize>))
    requires
        forall|b: int| 0 <= b < ranges@.len() ==> #[trigger] ranges@[b].start + ranges@[b].len <= usize::MAX,
        forall|g: int, j: int|
            0 <= g < groups@.len() && 0 <= j < groups@[g]@.len() ==> #[trigger] groups@[g]@[j]
                < ranges@.len(),
    ensures
        res.0@ == groups_ids(ranges@, views(groups@)),
        res.1@.len() == groups@.len(),
        forall|g: int|
            0 <= g < groups@.len() ==> #[trigger] res.1@[g] == blocks_ids(ranges@, groups@[g]@).len(),
{
    let mut ids: Vec<usize> = Vec::new();
    let mut lens: Vec<usize> = Vec::new();
    let ng = groups.len();
    let mut g: usize = 0;
    while g < ng
        invariant
            ng == groups@.len(),
            g <= ng,
            forall|gg: int, j: int|
                0 <= gg < groups@.len() && 0 <= j < groups@[gg]@.len() ==> #[trigger] groups@[gg]@[j]
                    < ranges@.len(),
            forall|b: int| 0 <= b < ranges@.len() ==> #[trigger] ranges@[b].start + ranges@[b].len <= usize::MAX,
            ids@ == groups_ids(ranges@, views(groups@).take(g as int)),
            lens@.len() == g,
            forall|gg: int| 0 <= gg < g ==> #[trigger] lens@[gg] == blocks_ids(ranges@, groups@[gg]@).len(),
        decreases ng - g,
    {
        let grp = &groups[g];
        let start = ids.len();
        let ghost base = ids@;
        let m = grp.len();
        let mut j: usize = 0;
        while j < m
            invariant
                m == grp@.len(),
                j <= m,
                grp == groups@[g as int],
                g < ng,
                ng == groups@.len(),
                forall|gg: int, jj: int|
                    0 <= gg < groups@.len() && 0 <= jj < groups@[gg]@.len() ==> #[trigger] groups@[gg]@[jj]
                        < ranges@.len(),
                forall|b: int| 0 <= b < ranges@.len() ==> #[trigger] ranges@[b].start + ranges@[b].len <= usize::MAX,
                ids@ == base + blocks_ids(ranges@, grp@.take(j as int)),
                start == base.len(),
            decreases m - j,
        {
            let r = ranges[grp[j]];
            let ghost before = ids@;
            let mut k: usize = 0;
            while k < r.len
                invariant
                    k <= r.len,
                    r.start + r.len <= usize::MAX,
                    ids@ == before + range_ids(r).take(k as int),
                decreases r.len - k,
            {
                ids.push(r.start + k);
                proof {
                    assert(range_ids(r).take(k + 1) == range_ids(r).take(k as int).push(
                        (r.start + k) as usize,
                    ));
                }
                k = k + 1;
            }
            proof {
                assert(range_ids(r).take(r.len as int) == range_ids(r));
                assert(grp@.take(j + 1).drop_last() == grp@.take(j as int));
                assert(grp@.take(j + 1).last() == grp@[j as int]);
            }
            j = j + 1;
        }
        proof {
            assert(grp@.take(m as int) == grp@);
            let vs = views(groups@);
            assert(vs.take(g + 1).drop_last() == vs.take(g as int));
            assert(vs.take(g + 1).last() == grp@);
        }
        lens.push(ids.len() - start);
        g = g + 1;
    }
    proof {
        assert(views(groups@).take(ng as int) == views(groups@));
    }
    (ids, lens)
}

/// Position `p` of `s` holds the first id that already occurred before it.
pub open spec fn first_repeat(s: Seq<usize>, p: int) -> bool {
    &&& 0 <= p < s.len()
    &&& s.take(p).no_duplicates()
    &&& s.take(p).contains(s[p])
}

/// Moves the statement of every id of `ids` out of its slot, in order;
/// fails on the first id whose slot was already emptied.
fn take_all(slots: &mut Vec<Option<AmirStmt>>, ids: &Vec<usize>) -> (res: Result<Vec<AmirStmt>, usize>)
    requires
        forall|i: int| 0 <= i < ids@.len() ==> #[trigger] ids@[i] < old(slots)@.len(),
        forall|j: int| 0 <= j < old(slots)@.len() ==> (#[trigger] old(slots)@[j]) is Some,
    ensures
        match res {
            Ok(out) => ids@.no_duplicates() && out@.len() == ids@.len() && forall|i: int|
                0 <= i < ids@.len() ==> Some(#[trigger] out@[i]) == old(slots)@[ids@[i] as int],
            Err(x) => !ids@.no_duplicates() && ids@.contains(x) && exists|p: int|
                first_repeat(ids@, p) && ids@[p] == x,
        },
{
    let ghost orig = slots@;
    let ns = slots.len();
    let n = ids.len();
    let mut out: Vec<AmirStmt> = Vec::new();
    let mut p: usize = 0;
    while p < n
        invariant
            n == ids@.len(),
            p <= n,
            slots@.len() == orig.len(),
            ns == orig.len(),
            forall|i: int| 0 <= i < ids@.len() ==> #[trigger] ids@[i] < orig.len(),
            forall|j: int| 0 <= j < orig.len() ==> (#[trigger] orig[j]) is Some,
            ids@.take(p as int).no_duplicates(),
            forall|j: int|
                0 <= j < orig.len() ==> #[trigger] slots@[j] == if ids@.take(p as int).contains(j as usize) {
                    None
                } else {
                    orig[j]
                },
            out@.len() == p,
            forall|i: int| 0 <= i < p ==> Some(#[trigger] out@[i]) == orig[ids@[i] as int],
        decreases n - p,
    {
        let x = ids[p];
        let t = slots[x].take();
        match t {
            None => {
                proof {
                    assert(ids@.take(p as int).contains(x));
                    let w = choose|w: int| 0 <= w < p && #[trigger] ids@.take(p as int)[w] == x;
                    assert(ids@[w] == ids@[p as int]);
                    assert(ids@.contains(x));
                    assert(first_repeat(ids@, p as int));
                }
                return Err(x);
            },
            Some(st) => {
                out.push(st);
                proof {
                    assert(ids@.take(p + 1) == ids@.take(p as int).push(x));
                    assert(!ids@.take(p as int).contains(x));
                    assert forall|a: int, b: int|
                        0 <= a < b < p + 1 implies #[trigger] ids@.take(p + 1)[a] != #[trigger] ids@.take(p + 1)[b] by {
                        if b == p {
                            assert(ids@.take(p as int)[a] == ids@.take(p + 1)[a]);
                        } else {
                            assert(ids@.take(p as int)[a] == ids@.take(p + 1)[a]);
                            assert(ids@.take(p as int)[b] == ids@.take(p + 1)[b]);
                        }
                    }
                    assert forall|j: int| 0 <= j < orig.len() implies #[trigger] slots@[j] == if ids@.take(
                        p + 1,
                    ).contains(j as usize) {
                        None
                    } else {
                        orig[j]
                    } by {
                        crate::amir::lemma_take_push_contains(ids@, p as int, j);
                    }
                }
                p = p + 1;
            },
        }
    }
    assert(ids@.take(n as int) == ids@);
    Ok(out)
}

pub proof fn lemma_groups_ids_prefix(ranges: Seq<DenseRange>, gs: Seq<Seq<usize>>, g: int)
    requires
        0 <= g < gs.len(),
    ensures
        groups_ids(ranges, gs.take(g)).len() + blocks_ids(ranges, gs[g]).len() <= groups_ids(
            ranges,
            gs,
        ).len(),
        groups_ids(ranges, gs.take(g + 1)) == groups_ids(ranges, gs.take(g)) + blocks_ids(
            ranges,
            gs[g],
        ),
    decreases gs.len(),
{
    assert(gs.take(g + 1).drop_last() == gs.take(g));
    if g < gs.len() - 1 {
        let front = gs.drop_last();
        assert(front.take(g) == gs.take(g));
        assert(front.take(g + 1) == gs.take(g + 1));
        assert(front[g] == gs[g]);
        lemma_groups_ids_prefix(ranges, front, g);
    } else {
        assert(gs.take(g) == gs.drop_last());
    }
}

/// Rebuilds a statement table: group `g` of the result holds, in order, the
/// statements of the blocks `groups[g]`.  Fails when a statement id would be
/// moved twice, that is when the selected ranges overlap.
pub fn rebuild_table(stmts: Vec<AmirStmt>, ranges: &Vec<DenseRange>, groups: &Vec<Vec<usize>>) -> (res:
    Result<(Vec<AmirStmt>, Vec<DenseRange>), usize>)
    requires
        rebuild_ok(ranges@, views(groups@), stmts@.len()),
    ensures
        match res {
            Ok((new_stmts, new_ranges)) => {
                &&& groups_ids(ranges@, views(groups@)).no_duplicates()
                &&& new_stmts@.len() == groups_ids(ranges@, views(groups@)).len()
                &&& forall|i: int|
                    0 <= i < new_stmts@.len() ==> #[trigger] new_stmts@[i] == stmts@[groups_ids(
                        ranges@,
                        views(groups@),
                    )[i] as int]
                &&& new_ranges@.len() == groups@.len()
                &&& forall|g: int|
                    0 <= g < groups@.len() ==> #[trigger] new_ranges@[g] == group_range(
                        ranges@,
                        views(groups@),
                        g,
                    )
            },
            Err(x) => !groups_ids(ranges@, views(groups@)).no_duplicates(),
        },
{
    let n = stmts.len();
    proof {
        assert forall|g: int, j: int|
            0 <= g < groups@.len() && 0 <= j < groups@[g]@.len() implies #[trigger] groups@[g]@[j]
                < ranges@.len() by {
            assert(views(groups@)[g] == groups@[g]@);
        }
    }
    let (ids, lens) = collect_ids(ranges, groups);
    let total = ids.len();
    let ghost gs = views(groups@);
    proof {
        lemma_groups_ids_in(ranges@, gs, n as nat);
    }
    let ghost orig = stmts@;
    let mut slots = into_slots(stmts);
    let taken = take_all(&mut slots, &ids);
    match taken {
        Err(x) => Err(x),
        Ok(new_stmts) => {
            let ng = groups.len();
            let mut new_ranges: Vec<DenseRange> = Vec::new();
            let mut start: usize = 0;
            let mut g: usize = 0;
            while g < ng
                invariant
                    ng == groups@.len(),
                    gs == views(groups@),
                    g <= ng,
                    lens@.len() == ng,
                    forall|gg: int| 0 <= gg < ng ==> #[trigger] lens@[gg] == blocks_ids(ranges@, groups@[gg]@).len(),
                    ids@ == groups_ids(ranges@, gs),
                    total == ids@.len(),
                    start == groups_ids(ranges@, gs.take(g as int)).len(),
                    new_ranges@.len() == g,
                    forall|gg: int| 0 <= gg < g ==> #[trigger] new_ranges@[gg] == group_range(ranges@, gs, gg),
                decreases ng - g,
            {
                proof {
                    lemma_groups_ids_prefix(ranges@, gs, g as int);
                    assert(gs[g as int] == groups@[g as int]@);
                }
                let len = lens[g];
                new_ranges.push(DenseRange { start, len });
                start = start + len;
                g = g + 1;
            }
            Ok((new_stmts, new_ranges))
        },
    }
}

pub proof fn lemma_groups_ids_in(ranges: Seq<DenseRange>, gs: Seq<Seq<usize>>, n: nat)
    requires
        rebuild_ok(ranges, gs, n),
    ensures
        forall|i: int| 0 <= i < groups_ids(ranges, gs).len() ==> #[trigger] groups_ids(ranges, gs)[i] < n,
    decreases gs.len(),
{
    if gs.len() > 0 {
        let front = gs.drop_last();
        assert forall|g: int, j: int|
            0 <= g < front.len() && 0 <= j < front[g].len() implies #[trigger] front[g][j] < ranges.len() by {
            assert(front[g] == gs[g]);
        }
        lemma_groups_ids_in(ranges, front, n);
        let last = gs.last();
        assert forall|j: int| 0 <= j < last.len() implies #[trigger] last[j] < ranges.len() by {
            assert(gs[gs.len() - 1][j] < ranges.len());
        }
        lemma_blocks_ids_bound(ranges, last, n);
        let a = groups_ids(ranges, front);
        let all = groups_ids(ranges, gs);
        assert forall|i: int| 0 <= i < all.len() implies #[trigger] all[i] < n by {
            if i < a.len() {
                assert(all[i] == a[i]);
            } else {
                assert(all[i] == blocks_ids(ranges, last)[i - a.len()]);
            }
        }
    }
}

/// The lists concatenated.
pub open spec fn flat(lists: Seq<Seq<usize>>) -> Seq<usize>
    decreases lists.len(),
{
    if lists.len() == 0 {
        seq![]
    } else {
        flat(lists.drop_last()) + lists.last()
    }
}

pub proof fn lemma_flat_prefix(lists: Seq<Seq<usize>>, g: int)
    requires
        0 <= g < lists.len(),
    ensures
        flat(lists.take(g)).len() + lists[g].len() <= flat(lists).len(),
        flat(lists.take(g + 1)) == flat(lists.take(g)) + lists[g],
    decreases lists.len(),
{
    assert(lists.take(g + 1).drop_last() == lists.take(g));
    if g < lists.len() - 1 {
        let front = lists.drop_last();
        assert(front.take(g) == lists.take(g));
        assert(front.take(g + 1) == lists.take(g + 1));
        assert(front[g] == lists[g]);
        lemma_flat_prefix(front, g);
    } else {
        assert(lists.take(g) == lists.drop_last());
    }
}

pub proof fn lemma_flat_bound(lists: Seq<Seq<usize>>, n: nat)
    requires
        forall|g: int, j: int| 0 <= g < lists.len() && 0 <= j < lists[g].len() ==> #[trigger] lists[g][j] < n,
    ensures
        forall|i: int| 0 <= i < flat(lists).len() ==> #[trigger] flat(lists)[i] < n,
    decreases lists.len(),
{
    if lists.len() > 0 {
        let front = lists.drop_last();
        assert forall|g: int, j: int| 0 <= g < front.len() && 0 <= j < front[g].len() implies #[trigger] front[g][j]
            < n by {
            assert(front[g] == lists[g]);
        }
        lemma_flat_bound(front, n);
        let a = flat(front);
        assert forall|i: int| 0 <= i < flat(lists).len() implies #[trigger] flat(lists)[i] < n by {
            if i < a.len() {
                assert(flat(lists)[i] == a[i]);
            } else {
                assert(flat(lists)[i] == lists.last()[i - a.len()]);
                assert(lists[lists.len() - 1][i - a.len()] < n);
            }
        }
    }
}

/// Rebuilds a statement table from explicit id lists: group `g` of the
/// result holds the statements `lists[g]`, in order.  Fails when an id is
/// taken twice.
pub fn rebuild_from_lists(stmts: Vec<AmirStmt>, lists: &Vec<Vec<usize>>) -> (res: Result<
    (Vec<AmirStmt>, Vec<DenseRange>),
    usize,
>)
    requires
        forall|g: int, j: int|
            0 <= g < lists@.len() && 0 <= j < lists@[g]@.len() ==> #[trigger] lists@[g]@[j] < stmts@.len(),
    ensures
        match res {
            Ok((new_stmts, new_ranges)) => {
                &&& flat(views(lists@)).no_duplicates()
                &&& new_stmts@.len() == flat(views(lists@)).len()
                &&& forall|i: int|
                    0 <= i < new_stmts@.len() ==> #[trigger] new_stmts@[i] == stmts@[flat(views(lists@))[i] as int]
                &&& new_ranges@.len() == lists@.len()
                &&& forall|g: int|
                    0 <= g < lists@.len() ==> #[trigger] new_ranges@[g] == (DenseRange {
                        start: flat(views(lists@).take(g)).len() as usize,
                        len: lists@[g]@.len() as usize,
                    })
            },
            Err(x) => !flat(views(lists@)).no_duplicates() && exists|p: int|
                first_repeat(flat(views(lists@)), p) && flat(views(lists@))[p] == x,
        },
{
    let ghost ls = views(lists@);
    let ng = lists.len();
    let mut ids: Vec<usize> = Vec::new();
    let mut g: usize = 0;
    while g < ng
        invariant
            ng == lists@.len(),
            ls == views(lists@),
            g <= ng,
            ids@ == flat(ls.take(g as int)),
        decreases ng - g,
    {
        let l = &lists[g];
        let ghost base = ids@;
        let m = l.len();
        let mut j: usize = 0;
        while j < m
            invariant
                m == l@.len(),
                j <= m,
                ids@ == base + l@.take(j as int),
            decreases m - j,
        {
            ids.push(l[j]);
            proof {
                assert(l@.take(j + 1) == l@.take(j as int).push(l@[j as int]));
            }
            j = j + 1;
        }
        proof {
            assert(l@.take(m as int) == l@);
            assert(ls.take(g + 1).drop_last() == ls.take(g as int));
            assert(ls.take(g + 1).last() == l@);
        }
        g = g + 1;
    }
    assert(ls.take(ng as int) == ls);
    let total = ids.len();
    proof {
        assert forall|gg: int, j: int| 0 <= gg < ls.len() && 0 <= j < ls[gg].len() implies #[trigger] ls[gg][j]
            < stmts@.len() by {
            assert(ls[gg] == lists@[gg]@);
        }
        lemma_flat_bound(ls, stmts@.len());
    }
    let mut slots = into_slots(stmts);
    match take_all(&mut slots, &ids) {
        Err(x) => Err(x),
        Ok(new_stmts) => {
            let mut new_ranges: Vec<DenseRange> = Vec::new();
            let mut start: usize = 0;
            let mut g: usize = 0;
            while g < ng
                invariant
                    ng == lists@.len(),
                    ls == views(lists@),
                    g <= ng,
                    ids@ == flat(ls),
                    total == ids@.len(),
                    start == flat(ls.take(g as int)).len(),
                    new_ranges@.len() == g,
                    forall|gg: int| 0 <= gg < g ==> #[trigger] new_ranges@[gg] == (DenseRange {
                        start: flat(ls.take(gg)).len() as usize,
                        len: lists@[gg]@.len() as usize,
                    }),
                decreases ng - g,
            {
                proof {
                    lemma_flat_prefix(ls, g as int);
                    assert(ls[g as int] == lists@[g as int]@);
                }
                let len = lists[g].len();
                new_ranges.push(DenseRange { start, len });
                start = start + len;
                g = g + 1;
            }
            Ok((new_stmts, new_ranges))
        },
    }
}


/// Statement id `x` lies in range `r`.
pub open spec fn in_range(r: DenseRange, x: int) -> bool {
    r.start <= x < r.start + r.len
}

/// No statement id lies in the ranges of two different blocks.
pub open spec fn ranges_disjoint(ranges: Seq<DenseRange>) -> bool {
    forall|b1: int, b2: int, x: int|
        0 <= b1 < ranges.len() && 0 <= b2 < ranges.len() && b1 != b2 && #[trigger] in_range(ranges[b1], x)
            ==> !#[trigger] in_range(ranges[b2], x)
}

/// No block is named twice, in one group or across groups.
pub open spec fn groups_distinct(groups: Seq<Seq<usize>>) -> bool {
    forall|g1: int, j1: int, g2: int, j2: int|
        0 <= g1 < groups.len() && 0 <= j1 < groups[g1].len() && 0 <= g2 < groups.len() && 0 <= j2
            < groups[g2].len() && (g1 != g2 || j1 != j2) ==> #[trigger] groups[g1][j1] != #[trigger] groups[g2][j2]
}

/// Every range ends within `usize`.
pub open spec fn ranges_fit(ranges: Seq<DenseRange>) -> bool {
    forall|b: int| 0 <= b < ranges.len() ==> #[trigger] ranges[b].start + ranges[b].len <= usize::MAX
}

proof fn lemma_concat_no_dup(a: Seq<usize>, b: Seq<usize>)
    requires
        a.no_duplicates(),
        b.no_duplicates(),
        forall|i: int, j: int| 0 <= i < a.len() && 0 <= j < b.len() ==> a[i] != b[j],
    ensures
        (a + b).no_duplicates(),
{
    let c = a + b;
    assert forall|i: int, j: int| 0 <= i < c.len() && 0 <= j < c.len() && i != j implies c[i] != c[j] by {
        if i < a.len() && j < a.len() {
            assert(c[i] == a[i] && c[j] == a[j]);
        } else if i < a.len() {
            assert(c[i] == a[i] && c[j] == b[j - a.len()]);
        } else if j < a.len() {
            assert(c[j] == a[j] && c[i] == b[i - a.len()]);
        } else {
            assert(c[i] == b[i - a.len()] && c[j] == b[j - a.len()]);
        }
    }
}

/// Every id the blocks of `order` hold lies in the range of one of them.
pub proof fn lemma_blocks_ids_member(ranges: Seq<DenseRange>, order: Seq<usize>, k: int)
    requires
        ranges_fit(ranges),
        forall|j: int| 0 <= j < order.len() ==> #[trigger] order[j] < ranges.len(),
        0 <= k < blocks_ids(ranges, order).len(),
    ensures
        exists|j: int| 0 <= j < order.len() && in_range(ranges[#[trigger] order[j] as int], blocks_ids(ranges, order)[k] as int),
    decreases order.len(),
{
    let front = order.drop_last();
    let a = blocks_ids(ranges, front);
    let r = ranges[order.last() as int];
    if k < a.len() {
        assert forall|j: int| 0 <= j < front.len() implies #[trigger] front[j] < ranges.len() by {
            assert(front[j] == order[j]);
        }
        lemma_blocks_ids_member(ranges, front, k);
        let j = choose|j: int| 0 <= j < front.len() && in_range(ranges[#[trigger] front[j] as int], a[k] as int);
        assert(order[j] == front[j]);
        assert(blocks_ids(ranges, order)[k] == a[k]);
    } else {
        let i = k - a.len();
        assert(blocks_ids(ranges, order)[k] == range_ids(r)[i]);
        assert(r.start + r.len <= usize::MAX);
        assert(in_range(ranges[order[order.len() - 1] as int], blocks_ids(ranges, order)[k] as int));
    }
}

/// With disjoint ranges, the blocks of an order without repeats hold no id
/// twice.
pub proof fn lemma_blocks_ids_no_dup(ranges: Seq<DenseRange>, order: Seq<usize>)
    requires
        ranges_fit(ranges),
        ranges_disjoint(ranges),
        order.no_duplicates(),
        forall|j: int| 0 <= j < order.len() ==> #[trigger] order[j] < ranges.len(),
    ensures
        blocks_ids(ranges, order).no_duplicates(),
    decreases order.len(),
{
    if order.len() > 0 {
        let front = order.drop_last();
        let last = order.last();
        assert forall|j: int| 0 <= j < front.len() implies #[trigger] front[j] < ranges.len() by {
            assert(front[j] == order[j]);
        }
        assert(front.no_duplicates()) by {
            assert forall|i: int, j: int| 0 <= i < front.len() && 0 <= j < front.len() && i != j implies front[i]
                != front[j] by {
                assert(front[i] == order[i] && front[j] == order[j]);
            }
        }
        lemma_blocks_ids_no_dup(ranges, front);
        let a = blocks_ids(ranges, front);
        let r = ranges[last as int];
        let b = range_ids(r);
        assert(r.start + r.len <= usize::MAX);
        assert forall|i: int, j: int| 0 <= i < a.len() && 0 <= j < b.len() implies a[i] != b[j] by {
            lemma_blocks_ids_member(ranges, front, i);
            let w = choose|w: int| 0 <= w < front.len() && in_range(ranges[#[trigger] front[w] as int], a[i] as int);
            assert(front[w] == order[w]);
            assert(order[w] != order[order.len() - 1]);
            assert(in_range(ranges[last as int], b[j] as int));
            if a[i] == b[j] {
                assert(in_range(ranges[front[w] as int], a[i] as int));
            }
        }
        lemma_concat_no_dup(a, b);
    }
}

/// With disjoint ranges, groups that name no block twice hold no id twice.
pub proof fn lemma_groups_ids_no_dup(ranges: Seq<DenseRange>, groups: Seq<Seq<usize>>)
    requires
        ranges_fit(ranges),
        ranges_disjoint(ranges),
        groups_distinct(groups),
        forall|g: int, j: int| 0 <= g < groups.len() && 0 <= j < groups[g].len() ==> #[trigger] groups[g][j] < ranges.len(),
    ensures
        groups_ids(ranges, groups).no_duplicates(),
    decreases groups.len(),
{
    if groups.len() > 0 {
        let front = groups.drop_last();
        let gl = groups.len() - 1;
        let last = groups[gl];
        assert forall|g: int, j: int| 0 <= g < front.len() && 0 <= j < front[g].len() implies #[trigger] front[g][j]
            < ranges.len() by {
            assert(front[g] == groups[g]);
        }
        assert(groups_distinct(front)) by {
            assert forall|g1: int, j1: int, g2: int, j2: int|
                0 <= g1 < front.len() && 0 <= j1 < front[g1].len() && 0 <= g2 < front.len() && 0 <= j2
                    < front[g2].len() && (g1 != g2 || j1 != j2) implies #[trigger] front[g1][j1]
                    != #[trigger] front[g2][j2] by {
                assert(front[g1] == groups[g1] && front[g2] == groups[g2]);
                assert(groups[g1][j1] != groups[g2][j2]);
            }
        }
        lemma_groups_ids_no_dup(ranges, front);
        assert forall|j: int| 0 <= j < last.len() implies #[trigger] last[j] < ranges.len() by {
            assert(groups[gl][j] < ranges.len());
        }
        assert(last.no_duplicates()) by {
            assert forall|i: int, j: int| 0 <= i < last.len() && 0 <= j < last.len() && i != j implies last[i]
                != last[j] by {
                assert(groups[gl][i] != groups[gl][j]);
            }
        }
        lemma_blocks_ids_no_dup(ranges, last);
        let a = groups_ids(ranges, front);
        let b = blocks_ids(ranges, last);
        assert forall|i: int, j: int| 0 <= i < a.len() && 0 <= j < b.len() implies a[i] != b[j] by {
            lemma_groups_ids_member(ranges, front, i);
            let (g, w) = choose|g: int, w: int|
                0 <= g < front.len() && 0 <= w < front[g].len() && in_range(
                    ranges[#[trigger] front[g][w] as int],
                    a[i] as int,
                );
            lemma_blocks_ids_member(ranges, last, j);
            let v = choose|v: int| 0 <= v < last.len() && in_range(ranges[#[trigger] last[v] as int], b[j] as int);
            assert(front[g] == groups[g]);
            assert(groups[g][w] != groups[gl][v]);
            if a[i] == b[j] {
                assert(in_range(ranges[front[g][w] as int], a[i] as int));
                assert(in_range(ranges[last[v] as int], a[i] as int));
            }
        }
        lemma_concat_no_dup(a, b);
    }
}

/// Every id the groups hold lies in the range of a block of some group.
pub proof fn lemma_groups_ids_member(ranges: Seq<DenseRange>, groups: Seq<Seq<usize>>, k: int)
    requires
        ranges_fit(ranges),
        forall|g: int, j: int| 0 <= g < groups.len() && 0 <= j < groups[g].len() ==> #[trigger] groups[g][j] < ranges.len(),
        0 <= k < groups_ids(ranges, groups).len(),
    ensures
        exists|g: int, w: int|
            0 <= g < groups.len() && 0 <= w < groups[g].len() && in_range(
                ranges[#[trigger] groups[g][w] as int],
                groups_ids(ranges, groups)[k] as int,
            ),
    decreases groups.len(),
{
    let front = groups.drop_last();
    let gl = groups.len() - 1;
    let a = groups_ids(ranges, front);
    if k < a.len() {
        assert forall|g: int, j: int| 0 <= g < front.len() && 0 <= j < front[g].len() implies #[trigger] front[g][j]
            < ranges.len() by {
            assert(front[g] == groups[g]);
        }
        lemma_groups_ids_member(ranges, front, k);
        let (g, w) = choose|g: int, w: int|
            0 <= g < front.len() && 0 <= w < front[g].len() && in_range(ranges[#[trigger] front[g][w] as int], a[k] as int);
        assert(front[g] == groups[g]);
        assert(groups_ids(ranges, groups)[k] == a[k]);
        assert(in_range(ranges[groups[g][w] as int], groups_ids(ranges, groups)[k] as int));
    } else {
        let last = groups[gl];
        assert forall|j: int| 0 <= j < last.len() implies #[trigger] last[j] < ranges.len() by {
            assert(groups[gl][j] < ranges.len());
        }
        lemma_blocks_ids_member(ranges, last, k - a.len());
        let v = choose|v: int|
            0 <= v < last.len() && in_range(ranges[#[trigger] last[v] as int], blocks_ids(ranges, last)[k - a.len()] as int);
        assert(groups_ids(ranges, groups)[k] == blocks_ids(ranges, last)[k - a.len()]);
        assert(in_range(ranges[groups[gl][v] as int], groups_ids(ranges, groups)[k] as int));
    }
}

/// The ranges of a rebuilt table lie one after the other.
pub proof fn lemma_group_ranges_disjoint(ranges: Seq<DenseRange>, groups: Seq<Seq<usize>>, new: Seq<DenseRange>)
    requires
        groups_ids(ranges, groups).len() <= usize::MAX,
        new.len() == groups.len(),
        forall|g: int| 0 <= g < groups.len() ==> #[trigger] new[g] == group_range(ranges, groups, g),
    ensures
        ranges_disjoint(new),
        ranges_fit(new),
{
    assert forall|g: int| 0 <= g < groups.len() implies (#[trigger] new[g]).start + new[g].len == groups_ids(
        ranges,
        groups.take(g + 1),
    ).len() && new[g].start + new[g].len <= usize::MAX by {
        lemma_groups_ids_prefix(ranges, groups, g);
        lemma_groups_ids_take_mono(ranges, groups, g + 1, groups.len() as int);
        assert(groups.take(groups.len() as int) == groups);
    }
    assert forall|b1: int, b2: int, x: int|
        0 <= b1 < new.len() && 0 <= b2 < new.len() && b1 != b2 && #[trigger] in_range(new[b1], x) implies !#[trigger] in_range(
        new[b2],
        x,
    ) by {
        lemma_groups_ids_prefix(ranges, groups, b1);
        lemma_groups_ids_prefix(ranges, groups, b2);
        if b1 < b2 {
            lemma_groups_ids_take_mono(ranges, groups, b1 + 1, b2);
        } else {
            lemma_groups_ids_take_mono(ranges, groups, b2 + 1, b1);
        }
    }
}

proof fn lemma_groups_ids_take_mono(ranges: Seq<DenseRange>, groups: Seq<Seq<usize>>, a: int, b: int)
    requires
        0 <= a <= b <= groups.len(),
    ensures
        groups_ids(ranges, groups.take(a)).len() <= groups_ids(ranges, groups.take(b)).len(),
    decreases b - a,
{
    if a < b {
        lemma_groups_ids_take_mono(ranges, groups, a, b - 1);
        lemma_groups_ids_prefix(ranges, groups, b - 1);
    }
}

} // verus!
