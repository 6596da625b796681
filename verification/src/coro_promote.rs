//! Heap promotion of escaping stack coroutines: a coroutine value built on
//! the stack must move to the heap when it can outlive the frame, that is
//! when it flows, through assignments, locals and block arguments, into a
//! call argument, a projected store or the return value.

use vstd::prelude::*;
use crate::amir::{
    AmirFunc, AmirOperand, AmirRvalue, AmirStmt, AmirTerminator, BlockId, DenseRange, SwitchTarget, SymbolId, TempId,
    UnaryOp, operand_temp, operands_ok, stmt_ok, switch_args, targets_in_range, terminator_operands,
    terminator_targets, uses_temp,
};
use crate::remap::lemma_switch_args_parts;
use crate::sccp::{count_false, lemma_count_false_set};
use crate::stmt_table::{flat, lemma_flat_bound, range_ids};

verus! {

/// `a -> b` is an edge of the graph whose predecessor lists are `pg`.
pub open spec fn pg_edge(pg: Seq<Seq<usize>>, a: int, b: int) -> bool {
    &&& 0 <= a < pg.len()
    &&& 0 <= b < pg.len()
    &&& pg[b].contains(a as usize)
}

/// `c` walks edges backwards from a seed: `c[0]` is a seed and each `c[k]`
/// has an edge into `c[k - 1]`.
pub open spec fn back_chain(pg: Seq<Seq<usize>>, seeds: Seq<bool>, c: Seq<int>) -> bool {
    &&& c.len() > 0
    &&& 0 <= c[0] < seeds.len()
    &&& seeds[c[0]]
    &&& forall|k: int| 1 <= k < c.len() ==> pg_edge(pg, #[trigger] c[k], c[k - 1])
}

/// Node `a` reaches a seed along edges.
pub open spec fn reaches_seed(pg: Seq<Seq<usize>>, seeds: Seq<bool>, a: int) -> bool {
    exists|c: Seq<int>| #[trigger] back_chain(pg, seeds, c) && c.last() == a
}

pub open spec fn pg_view(pg: Seq<Vec<usize>>) -> Seq<Seq<usize>> {
    pg.map_values(|v: Vec<usize>| v@)
}

/// Every predecessor of a marked node that is neither on the stack nor `p`
/// is marked.
spec fn closed_but(pg: Seq<Seq<usize>>, marked: Seq<bool>, stack: Seq<usize>, p: int) -> bool {
    forall|x: int, a: int|
        #![trigger marked[x], pg_edge(pg, a, x)]
        0 <= x < marked.len() && marked[x] && !stack.contains(x as usize) && x != p && pg_edge(pg, a, x)
            ==> marked[a]
}

proof fn lemma_extend_chain(pg: Seq<Seq<usize>>, seeds: Seq<bool>, b: int, a: int)
    requires
        reaches_seed(pg, seeds, b),
        pg_edge(pg, a, b),
    ensures
        reaches_seed(pg, seeds, a),
{
    let c = choose|c: Seq<int>| #[trigger] back_chain(pg, seeds, c) && c.last() == b;
    let c2 = c.push(a);
    assert forall|k: int| 1 <= k < c2.len() implies pg_edge(pg, #[trigger] c2[k], c2[k - 1]) by {
        if k < c.len() {
            assert(c2[k] == c[k]);
            assert(c2[k - 1] == c[k - 1]);
        }
    }
    assert(back_chain(pg, seeds, c2));
}

proof fn lemma_chain_marked(pg: Seq<Seq<usize>>, seeds: Seq<bool>, marked: Seq<bool>, c: Seq<int>, k: int)
    requires
        marked.len() == seeds.len(),
        pg.len() == seeds.len(),
        forall|b: int, j: int| 0 <= b < pg.len() && 0 <= j < pg[b].len() ==> #[trigger] pg[b][j] < seeds.len(),
        forall|x: int| 0 <= x < seeds.len() && #[trigger] seeds[x] ==> marked[x],
        closed_but(pg, marked, Seq::empty(), -1),
        back_chain(pg, seeds, c),
        0 <= k < c.len(),
    ensures
        0 <= c[k] < marked.len() && marked[c[k]],
    decreases k,
{
    if k > 0 {
        lemma_chain_marked(pg, seeds, marked, c, k - 1);
        assert(pg_edge(pg, c[k], c[k - 1]));
        assert(!Seq::<usize>::empty().contains(c[k - 1] as usize));
        assert(marked[c[k - 1]]);
    }
}

/// Marks exactly the nodes that reach a seed, by a backward search.
fn backward_closure(pg: &Vec<Vec<usize>>, seeds: &Vec<bool>) -> (marked: Vec<bool>)
    requires
        pg@.len() == seeds@.len(),
        forall|b: int, k: int|
            0 <= b < pg@.len() && 0 <= k < pg@[b]@.len() ==> #[trigger] pg@[b]@[k] < seeds@.len(),
    ensures
        marked@.len() == seeds@.len(),
        forall|a: int| 0 <= a < marked@.len() ==> (#[trigger] marked@[a] <==> reaches_seed(pg_view(pg@), seeds@, a)),
{
    let ghost g = pg_view(pg@);
    let n = seeds.len();
    let mut marked: Vec<bool> = Vec::new();
    let mut stack: Vec<usize> = Vec::new();
    let mut i: usize = 0;
    while i < n
        invariant
            n == seeds@.len(),
            g == pg_view(pg@),
            g.len() == n,
            i <= n,
            marked@.len() == i,
            forall|x: int| 0 <= x < i ==> #[trigger] marked@[x] == seeds@[x],
            forall|k: int| 0 <= k < stack@.len() ==> (#[trigger] stack@[k]) < i && marked@[stack@[k] as int],
            forall|x: int| 0 <= x < i && #[trigger] marked@[x] ==> stack@.contains(x as usize),
        decreases n - i,
    {
        let ghost s0 = stack@;
        let ghost m0 = marked@;
        marked.push(seeds[i]);
        if seeds[i] {
            stack.push(i);
        }
        proof {
            assert forall|x: int| 0 <= x < i + 1 && #[trigger] marked@[x] implies stack@.contains(x as usize) by {
                if x == i {
                    assert(stack@[stack@.len() - 1] == i);
                } else {
                    assert(m0[x]);
                    assert(s0.contains(x as usize));
                    let w = choose|w: int| 0 <= w < s0.len() && s0[w] == x as usize;
                    assert(stack@[w] == x as usize);
                }
            }
            assert forall|k: int| 0 <= k < stack@.len() implies (#[trigger] stack@[k]) < i + 1
                && marked@[stack@[k] as int] by {
                if k < s0.len() {
                    assert(stack@[k] == s0[k]);
                }
            }
        }
        i = i + 1;
    }
    proof {
        assert forall|x: int| 0 <= x < n && #[trigger] marked@[x] implies reaches_seed(g, seeds@, x) by {
            let c = seq![x];
            assert(back_chain(g, seeds@, c));
        }
    }
    while stack.len() > 0
        invariant
            n == seeds@.len(),
            g == pg_view(pg@),
            g.len() == n,
            forall|b: int, k: int|
                0 <= b < pg@.len() && 0 <= k < pg@[b]@.len() ==> #[trigger] pg@[b]@[k] < seeds@.len(),
            marked@.len() == n,
            forall|x: int| 0 <= x < n && #[trigger] seeds@[x] ==> marked@[x],
            forall|x: int| 0 <= x < n && #[trigger] marked@[x] ==> reaches_seed(g, seeds@, x),
            forall|k: int| 0 <= k < stack@.len() ==> (#[trigger] stack@[k]) < n && marked@[stack@[k] as int],
            closed_but(g, marked@, stack@, -1),
        decreases 2 * count_false(marked@) + stack@.len(),
    {
        let ghost s_full = stack@;
        let b = stack.pop().unwrap();
        let ghost st0 = stack@;
        let ghost m0 = marked@;
        proof {
            assert(s_full == st0.push(b));
            assert forall|x: int, y: int|
                #![trigger marked@[x], pg_edge(g, y, x)]
                0 <= x < marked@.len() && marked@[x] && !stack@.contains(x as usize) && x != b && pg_edge(g, y, x)
                    implies marked@[y] by {
                if s_full.contains(x as usize) {
                    let w = choose|w: int| 0 <= w < s_full.len() && s_full[w] == x as usize;
                    if w < st0.len() {
                        assert(st0[w] == x as usize);
                    }
                }
            }
            assert forall|kk: int| 0 <= kk < stack@.len() implies (#[trigger] stack@[kk]) < n
                && marked@[stack@[kk] as int] by {
                assert(stack@[kk] == s_full[kk]);
            }
        }
        let preds = &pg[b];
        assert(g[b as int] == preds@);
        let np = preds.len();
        let mut k: usize = 0;
        while k < np
            invariant
                n == seeds@.len(),
                g == pg_view(pg@),
                g.len() == n,
                b < n,
                np == preds@.len(),
                preds@ == g[b as int],
                forall|bb: int, kk: int|
                    0 <= bb < pg@.len() && 0 <= kk < pg@[bb]@.len() ==> #[trigger] pg@[bb]@[kk] < seeds@.len(),
                k <= np,
                marked@.len() == n,
                marked@[b as int],
                forall|x: int| 0 <= x < n && #[trigger] seeds@[x] ==> marked@[x],
                forall|x: int| 0 <= x < n && #[trigger] marked@[x] ==> reaches_seed(g, seeds@, x),
                forall|kk: int| 0 <= kk < stack@.len() ==> (#[trigger] stack@[kk]) < n && marked@[stack@[kk] as int],
                closed_but(g, marked@, stack@, b as int),
                forall|kk: int| 0 <= kk < k ==> marked@[#[trigger] preds@[kk] as int],
                2 * count_false(marked@) + stack@.len() <= 2 * count_false(m0) + st0.len(),
            decreases np - k,
        {
            let a = preds[k];
            assert(pg@[b as int]@[k as int] == a);
            if !marked[a] {
                let ghost mb = marked@;
                let ghost sb = stack@;
                proof {
                    lemma_count_false_set(marked@, a as int);
                    assert(pg_edge(g, a as int, b as int));
                    lemma_extend_chain(g, seeds@, b as int, a as int);
                }
                marked.set(a, true);
                stack.push(a);
                proof {
                    assert forall|x: int, y: int|
                        #![trigger marked@[x], pg_edge(g, y, x)]
                        0 <= x < marked@.len() && marked@[x] && !stack@.contains(x as usize) && x != b && pg_edge(g, y, x)
                            implies marked@[y] by {
                        assert(stack@[stack@.len() - 1] == a);
                        assert(x != a);
                        assert(mb[x]);
                        if sb.contains(x as usize) {
                            let w = choose|w: int| 0 <= w < sb.len() && sb[w] == x as usize;
                            assert(stack@[w] == x as usize);
                        }
                        assert(mb[y]);
                    }
                    assert forall|kk: int| 0 <= kk < stack@.len() implies (#[trigger] stack@[kk]) < n
                        && marked@[stack@[kk] as int] by {
                        if kk < sb.len() {
                            assert(stack@[kk] == sb[kk]);
                        }
                    }
                }
            }
            k = k + 1;
        }
        proof {
            assert forall|x: int, y: int|
                #![trigger marked@[x], pg_edge(g, y, x)]
                0 <= x < marked@.len() && marked@[x] && !stack@.contains(x as usize) && x != -1 && pg_edge(g, y, x)
                    implies marked@[y] by {
                if x == b {
                    assert(g[b as int].contains(y as usize));
                    let w = choose|w: int| 0 <= w < preds@.len() && preds@[w] == y as usize;
                    assert(marked@[preds@[w] as int]);
                }
            }
        }
    }
    proof {
        assert forall|a: int| 0 <= a < marked@.len() implies (#[trigger] marked@[a] <==> reaches_seed(g, seeds@, a)) by {
            if reaches_seed(g, seeds@, a) {
                let c = choose|c: Seq<int>| #[trigger] back_chain(g, seeds@, c) && c.last() == a;
                assert(closed_but(g, marked@, Seq::empty(), -1)) by {
                    assert(stack@ =~= Seq::<usize>::empty());
                }
                lemma_chain_marked(g, seeds@, marked@, c, c.len() - 1);
            }
        }
    }
    marked
}


/// The statement ids of every block, block by block.
pub open spec fn block_id_lists(func: AmirFunc) -> Seq<Seq<usize>> {
    Seq::new(func.blocks@.len(), |b: int| range_ids(func.blocks@[b].statements))
}

/// The order in which the analysis visits statements: each block's range,
/// block by block.
pub open spec fn visit_order(func: AmirFunc) -> Seq<usize> {
    flat(block_id_lists(func))
}

/// `s` builds a coroutine value on the stack into temp `t`.
pub open spec fn is_stack_coro_def(s: AmirStmt, t: TempId) -> bool {
    match s {
        AmirStmt::Assign { lhs, rhs } => lhs == t && match rhs {
            AmirRvalue::CoroutineReady { stack, .. } => stack,
            _ => false,
        },
        _ => false,
    }
}

/// The last statement in `vis` that builds a stack coroutine into `t`.
pub open spec fn last_coro_def(stmts: Seq<AmirStmt>, vis: Seq<usize>, t: TempId) -> Option<usize>
    decreases vis.len(),
{
    if vis.len() == 0 {
        None
    } else if is_stack_coro_def(stmts[vis.last() as int], t) {
        Some(vis.last())
    } else {
        last_coro_def(stmts, vis.drop_last(), t)
    }
}

/// The statement ids of block `b`, in order.
fn push_range_ids(r: DenseRange, out: &mut Vec<usize>)
    requires
        r.start + r.len <= usize::MAX,
    ensures
        final(out)@ == old(out)@ + range_ids(r),
{
    let ghost base = out@;
    let mut j: usize = 0;
    while j < r.len
        invariant
            r.start + r.len <= usize::MAX,
            j <= r.len,
            out@ == base + range_ids(r).take(j as int),
        decreases r.len - j,
    {
        out.push(r.start + j);
        proof {
            assert(range_ids(r).take(j + 1) =~= range_ids(r).take(j as int).push((r.start + j) as usize));
        }
        j = j + 1;
    }
    proof {
        assert(range_ids(r).take(r.len as int) =~= range_ids(r));
    }
}

/// The visiting order, as a vector.
fn visit_ids(func: &AmirFunc) -> (v: Vec<usize>)
    requires
        func.wf_body(),
    ensures
        v@ == visit_order(*func),
        forall|p: int| 0 <= p < v@.len() ==> (#[trigger] v@[p]) < func.stmts@.len(),
{
    let ghost lists = block_id_lists(*func);
    let nb = func.blocks.len();
    let n_stmts = func.stmts.len();
    let mut v: Vec<usize> = Vec::new();
    let mut b: usize = 0;
    while b < nb
        invariant
            func.wf_body(),
            nb == func.blocks@.len(),
            n_stmts == func.stmts@.len(),
            lists == block_id_lists(*func),
            b <= nb,
            v@ == flat(lists.take(b as int)),
        decreases nb - b,
    {
        assert(func.block_ranges_ok(b as int));
        let r = func.blocks[b].statements;
        push_range_ids(r, &mut v);
        proof {
            assert(lists.take(b + 1).drop_last() =~= lists.take(b as int));
            assert(lists.take(b + 1).last() == lists[b as int]);
        }
        b = b + 1;
    }
    proof {
        assert(lists.take(nb as int) =~= lists);
        assert forall|g: int, j: int| 0 <= g < lists.len() && 0 <= j < lists[g].len() implies #[trigger] lists[g][j]
            < func.stmts@.len() by {
            assert(func.block_ranges_ok(g));
        }
        lemma_flat_bound(lists, func.stmts@.len());
    }
    v
}

/// For each temp, the last statement in the visiting order that builds a
/// stack coroutine into it.
fn stack_coro_defs(func: &AmirFunc, vis: &Vec<usize>) -> (m: Vec<Option<usize>>)
    requires
        func.wf_body(),
        vis@ == visit_order(*func),
        forall|p: int| 0 <= p < vis@.len() ==> (#[trigger] vis@[p]) < func.stmts@.len(),
    ensures
        m@.len() == func.temps@.len(),
        forall|t: int| 0 <= t < m@.len() ==> #[trigger] m@[t] == last_coro_def(func.stmts@, vis@, t as usize),
{
    let nt = func.temps.len();
    let mut m: Vec<Option<usize>> = Vec::new();
    let mut t: usize = 0;
    while t < nt
        invariant
            t <= nt,
            m@.len() == t,
            forall|u: int| 0 <= u < t ==> #[trigger] m@[u] == None::<usize>,
        decreases nt - t,
    {
        m.push(None);
        t = t + 1;
    }
    let n = vis.len();
    let mut p: usize = 0;
    while p < n
        invariant
            func.wf_body(),
            nt == func.temps@.len(),
            n == vis@.len(),
            forall|q: int| 0 <= q < vis@.len() ==> (#[trigger] vis@[q]) < func.stmts@.len(),
            p <= n,
            m@.len() == nt,
            forall|u: int| 0 <= u < nt ==> #[trigger] m@[u] == last_coro_def(func.stmts@, vis@.take(p as int), u as usize),
        decreases n - p,
    {
        let i = vis[p];
        let ghost before = m@;
        proof {
            assert(vis@.take(p + 1).drop_last() =~= vis@.take(p as int));
            assert(vis@.take(p + 1).last() == i);
        }
        match &func.stmts[i] {
            AmirStmt::Assign { lhs, rhs: AmirRvalue::CoroutineReady { stack, .. } } => {
                if *stack {
                    assert(crate::amir::stmt_ok(func.stmts@[i as int], nt as nat, func.locals@.len()));
                    m.set(*lhs, Some(i));
                }
            },
            _ => {},
        }
        proof {
            assert forall|u: int| 0 <= u < nt implies #[trigger] m@[u] == last_coro_def(
                func.stmts@,
                vis@.take(p + 1),
                u as usize,
            ) by {
                assert(before[u] == last_coro_def(func.stmts@, vis@.take(p as int), u as usize));
            }
        }
        p = p + 1;
    }
    proof {
        assert(vis@.take(n as int) =~= vis@);
    }
    m
}


/// The rvalues that pass the origins of their operands on to the temp they
/// define: moves and copies, projections, aggregates and arithmetic, but
/// not an awaited value.
pub open spec fn passes_origins(rv: AmirRvalue) -> bool {
    match rv {
        AmirRvalue::Use(..) => true,
        AmirRvalue::Discriminant { .. } => true,
        AmirRvalue::EnumPayload { .. } => true,
        AmirRvalue::Len(..) => true,
        AmirRvalue::Alloc(..) => true,
        AmirRvalue::ToStr { .. } => true,
        AmirRvalue::CoroutineReady { .. } => true,
        AmirRvalue::Unary { op, .. } => op != UnaryOp::Await,
        AmirRvalue::Binary { .. } => true,
        AmirRvalue::FieldAccess { .. } => true,
        AmirRvalue::StructLiteral { .. } => true,
        AmirRvalue::IndexAccess { .. } => true,
        AmirRvalue::Array { .. } => true,
        AmirRvalue::Tuple { .. } => true,
        AmirRvalue::EnumConstruct { .. } => true,
        _ => false,
    }
}

/// The node a statement passes origins to: the temp it defines, or the
/// local it stores into (temps are nodes below `nt`, local `l` is node
/// `nt + l`).
pub open spec fn flow_target(s: AmirStmt, nt: nat) -> Option<int> {
    match s {
        AmirStmt::Assign { lhs, .. } => Some(lhs as int),
        AmirStmt::Store { lhs, .. } => Some(nt + lhs.local),
        _ => None,
    }
}

/// Node `a` is one the statement takes origins from.
pub open spec fn flow_from(s: AmirStmt, nt: nat, a: int) -> bool {
    match s {
        AmirStmt::Assign { rhs, .. } => match rhs {
            AmirRvalue::Load(p) => a == nt + p.local,
            _ => 0 <= a <= usize::MAX && passes_origins(rhs) && uses_temp(
                crate::amir::rvalue_operands(rhs),
                a as usize,
            ),
        },
        AmirStmt::Store { rhs, .. } => 0 <= a <= usize::MAX && operand_temp(rhs) == Some(a as usize),
        _ => false,
    }
}

/// The jumps of a terminator that hand arguments to block parameters.
pub open spec fn jumps(t: AmirTerminator) -> Seq<(BlockId, Seq<AmirOperand>)> {
    match t {
        AmirTerminator::Goto { target, args } => seq![(target, args@)],
        AmirTerminator::Branch { if_true, true_args, if_false, false_args, .. } => seq![
            (if_true, true_args@),
            (if_false, false_args@),
        ],
        AmirTerminator::SwitchInt { targets, otherwise, .. } => targets@.map_values(
            |s: SwitchTarget| (s.target, s.args@),
        ).push((otherwise.target, otherwise.args@)),
        _ => seq![],
    }
}

/// A jump to `target` with `args` passes the origins of temp `a` to the
/// parameter temp `b` of the target.
pub open spec fn pair_flow(func: AmirFunc, target: BlockId, args: Seq<AmirOperand>, a: int, b: int) -> bool {
    exists|j: int|
        0 <= j < args.len() && j < func.block_params_spec(target as int).len() && 0 <= a <= usize::MAX && operand_temp(
            #[trigger] args[j],
        ) == Some(a as usize) && func.block_params_spec(target as int)[j].id == b
}

/// Origins flow from node `a` to node `b`: through a visited statement, or
/// through a jump argument of some block.
pub open spec fn flow_edge(func: AmirFunc, a: int, b: int) -> bool {
    let vis = visit_order(func);
    let nt = func.temps@.len();
    ||| exists|p: int|
        0 <= p < vis.len() && flow_target(func.stmts@[vis[p] as int], nt) == Some(b) && #[trigger] flow_from(
            func.stmts@[vis[p] as int],
            nt,
            a,
        )
    ||| exists|k: int, e: int|
        0 <= k < func.blocks@.len() && 0 <= e < jumps(func.blocks@[k].terminator).len() && #[trigger] pair_flow(
            func,
            jumps(func.blocks@[k].terminator)[e].0,
            jumps(func.blocks@[k].terminator)[e].1,
            a,
            b,
        )
}

/// Collects the nodes a statement takes origins from.
fn flow_sources(s: &AmirStmt, nt: usize, nl: usize) -> (r: Vec<usize>)
    requires
        crate::amir::stmt_ok(*s, nt as nat, nl as nat),
        nt + nl <= usize::MAX,
    ensures
        forall|a: int| 0 <= a < nt + nl ==> (r@.contains(a as usize) <==> flow_from(*s, nt as nat, a)),
        forall|k: int| 0 <= k < r@.len() ==> (#[trigger] r@[k]) < nt + nl && flow_from(*s, nt as nat, r@[k] as int),
{
    match s {
        AmirStmt::Assign { rhs, .. } => match rhs {
            AmirRvalue::Load(p) => {
                let mut r: Vec<usize> = Vec::new();
                r.push(nt + p.local);
                proof {
                    assert forall|a: int| 0 <= a < nt + nl implies (r@.contains(a as usize) <==> flow_from(
                        *s,
                        nt as nat,
                        a,
                    )) by {
                        if a == nt + p.local {
                            assert(r@[0] == a as usize);
                        }
                    }
                }
                r
            },
            _ => {
                let passes = match rhs {
                    AmirRvalue::Unary { op, .. } => match op {
                        UnaryOp::Await => false,
                        _ => true,
                    },
                    AmirRvalue::Use(..) => true,
                    AmirRvalue::Discriminant { .. } => true,
                    AmirRvalue::EnumPayload { .. } => true,
                    AmirRvalue::Len(..) => true,
                    AmirRvalue::Alloc(..) => true,
                    AmirRvalue::ToStr { .. } => true,
                    AmirRvalue::CoroutineReady { .. } => true,
                    AmirRvalue::Binary { .. } => true,
                    AmirRvalue::FieldAccess { .. } => true,
                    AmirRvalue::StructLiteral { .. } => true,
                    AmirRvalue::IndexAccess { .. } => true,
                    AmirRvalue::Array { .. } => true,
                    AmirRvalue::Tuple { .. } => true,
                    AmirRvalue::EnumConstruct { .. } => true,
                    _ => false,
                };
                assert(passes == passes_origins(*rhs));
                if passes {
                    let ops = crate::amir::rvalue_operand_list(rhs);
                    let r = crate::amir::operand_temps(&ops);
                    proof {
                        assert forall|k: int| 0 <= k < r@.len() implies (#[trigger] r@[k]) < nt + nl && flow_from(
                            *s,
                            nt as nat,
                            r@[k] as int,
                        ) by {
                            assert(uses_temp(ops@, r@[k]));
                            let w = choose|w: int| 0 <= w < ops@.len() && operand_temp(ops@[w]) == Some(r@[k]);
                            assert(crate::amir::operand_ok(ops@[w], nt as nat));
                        }
                    }
                    r
                } else {
                    Vec::new()
                }
            },
        },
        AmirStmt::Store { rhs, .. } => {
            let mut r: Vec<usize> = Vec::new();
            match rhs {
                AmirOperand::Copy(t) => r.push(*t),
                AmirOperand::Move(t) => r.push(*t),
                _ => {},
            }
            proof {
                assert(crate::amir::stmt_operands(*s)[0] == *rhs);
                assert(crate::amir::operand_ok(*rhs, nt as nat));
                assert forall|a: int| 0 <= a < nt + nl implies (r@.contains(a as usize) <==> flow_from(
                    *s,
                    nt as nat,
                    a,
                )) by {
                    if flow_from(*s, nt as nat, a) {
                        assert(r@[0] == a as usize);
                    }
                }
            }
            r
        },
        _ => Vec::new(),
    }
}


/// Every listed predecessor is a node below `n` with a flow edge into its
/// node.
spec fn preds_sound(func: AmirFunc, preds: Seq<Vec<usize>>, n: nat) -> bool {
    &&& preds.len() == n
    &&& forall|b: int, k: int|
        0 <= b < n && 0 <= k < preds[b]@.len() ==> #[trigger] preds[b]@[k] < n && flow_edge(
            func,
            preds[b]@[k] as int,
            b,
        )
}

/// Every entry of a list of `p1` is still in the list of `p2`.
spec fn grows(p1: Seq<Vec<usize>>, p2: Seq<Vec<usize>>) -> bool {
    &&& p1.len() == p2.len()
    &&& forall|b: int, a: usize| 0 <= b < p1.len() && #[trigger] p1[b]@.contains(a) ==> p2[b]@.contains(a)
}

/// The edges of the first `np` visited statements are listed.
spec fn stmts_done(func: AmirFunc, preds: Seq<Vec<usize>>, np: int) -> bool {
    let vis = visit_order(func);
    let nt = func.temps@.len();
    forall|p: int, a: int|
        0 <= p < np && #[trigger] flow_from(func.stmts@[vis[p] as int], nt, a) ==> preds[flow_target(
            func.stmts@[vis[p] as int],
            nt,
        ).unwrap()]@.contains(a as usize)
}

/// The jump edges of the first `nk` blocks are listed.
spec fn jumps_done(func: AmirFunc, preds: Seq<Vec<usize>>, nk: int) -> bool {
    forall|k: int, e: int, a: int, b: int|
        0 <= k < nk && 0 <= e < jumps(func.blocks@[k].terminator).len() && #[trigger] pair_flow(
            func,
            jumps(func.blocks@[k].terminator)[e].0,
            jumps(func.blocks@[k].terminator)[e].1,
            a,
            b,
        ) ==> preds[b]@.contains(a as usize)
}

proof fn lemma_grows_trans(p1: Seq<Vec<usize>>, p2: Seq<Vec<usize>>, p3: Seq<Vec<usize>>)
    requires
        grows(p1, p2),
        grows(p2, p3),
    ensures
        grows(p1, p3),
{
    assert forall|b: int, a: usize| 0 <= b < p1.len() && #[trigger] p1[b]@.contains(a) implies p3[b]@.contains(a) by {
        assert(p2[b]@.contains(a));
    }
}

proof fn lemma_done_grows(func: AmirFunc, p1: Seq<Vec<usize>>, p2: Seq<Vec<usize>>, np: int, nk: int, n: nat)
    requires
        grows(p1, p2),
        p1.len() == n,
        stmts_done(func, p1, np),
        jumps_done(func, p1, nk),
        0 <= np <= visit_order(func).len(),
        0 <= nk <= func.blocks@.len(),
        forall|a: int, b: int| flow_edge(func, a, b) ==> 0 <= a < n && 0 <= b < n,
    ensures
        stmts_done(func, p2, np),
        jumps_done(func, p2, nk),
{
    let vis = visit_order(func);
    let nt = func.temps@.len();
    assert forall|p: int, a: int|
        0 <= p < np && #[trigger] flow_from(func.stmts@[vis[p] as int], nt, a) implies p2[flow_target(
            func.stmts@[vis[p] as int],
            nt,
        ).unwrap()]@.contains(a as usize) by {
        let b = flow_target(func.stmts@[vis[p] as int], nt).unwrap();
        assert(p1[b]@.contains(a as usize));
        assert(flow_target(func.stmts@[vis[p] as int], nt) == Some(b));
        assert(flow_edge(func, a, b));
    }
    assert forall|k: int, e: int, a: int, b: int|
        0 <= k < nk && 0 <= e < jumps(func.blocks@[k].terminator).len() && #[trigger] pair_flow(
            func,
            jumps(func.blocks@[k].terminator)[e].0,
            jumps(func.blocks@[k].terminator)[e].1,
            a,
            b,
        ) implies p2[b]@.contains(a as usize) by {
        assert(p1[b]@.contains(a as usize));
        assert(flow_edge(func, a, b));
    }
}

/// Lists `a` as a predecessor of `b`.
fn add_edge(preds: &mut Vec<Vec<usize>>, a: usize, b: usize, Ghost(func): Ghost<AmirFunc>, Ghost(n): Ghost<nat>)
    requires
        preds_sound(func, old(preds)@, n),
        a < n,
        b < n,
        flow_edge(func, a as int, b as int),
    ensures
        preds_sound(func, final(preds)@, n),
        grows(old(preds)@, final(preds)@),
        final(preds)@[b as int]@.contains(a),
{
    let ghost before = preds@;
    preds[b].push(a);
    proof {
        assert(preds@[b as int]@ == before[b as int]@.push(a));
        assert(preds@[b as int]@[before[b as int]@.len() as int] == a);
        assert forall|x: int, k: int| 0 <= x < n && 0 <= k < preds@[x]@.len() implies #[trigger] preds@[x]@[k] < n
            && flow_edge(func, preds@[x]@[k] as int, x) by {
            if x != b {
                assert(preds@[x] == before[x]);
            } else if k < before[b as int]@.len() {
                assert(preds@[x]@[k] == before[x]@[k]);
            }
        }
        assert forall|x: int, c: usize| 0 <= x < before.len() && #[trigger] before[x]@.contains(c) implies preds@[
            x
        ]@.contains(c) by {
            if x != b {
                assert(preds@[x] == before[x]);
            } else {
                let w = choose|w: int| 0 <= w < before[x]@.len() && before[x]@[w] == c;
                assert(preds@[x]@[w] == c);
            }
        }
    }
}


/// A jump of a valid block goes to a block of the function and passes
/// valid operands.
proof fn lemma_jump_ok(func: AmirFunc, k: int, e: int)
    requires
        func.wf_body(),
        0 <= k < func.blocks@.len(),
        0 <= e < jumps(func.blocks@[k].terminator).len(),
    ensures
        jumps(func.blocks@[k].terminator)[e].0 < func.blocks@.len(),
        operands_ok(jumps(func.blocks@[k].terminator)[e].1, func.temps@.len()),
{
    let t = func.blocks@[k].terminator;
    let nt = func.temps@.len();
    let ops = terminator_operands(t);
    assert(targets_in_range(t, func.blocks@.len()));
    assert(operands_ok(ops, nt));
    match t {
        AmirTerminator::Goto { target, args } => {
            assert(terminator_targets(t)[0] == target);
        },
        AmirTerminator::Branch { condition, if_true, true_args, if_false, false_args } => {
            assert(terminator_targets(t)[0] == if_true);
            assert(terminator_targets(t)[1] == if_false);
            if e == 0 {
                assert forall|i: int| 0 <= i < true_args@.len() implies crate::amir::operand_ok(
                    #[trigger] true_args@[i],
                    nt,
                ) by {
                    assert(ops[1 + i] == true_args@[i]);
                }
            } else {
                assert forall|i: int| 0 <= i < false_args@.len() implies crate::amir::operand_ok(
                    #[trigger] false_args@[i],
                    nt,
                ) by {
                    assert(ops[1 + true_args@.len() + i] == false_args@[i]);
                }
            }
        },
        AmirTerminator::SwitchInt { discriminant, targets, otherwise } => {
            let sa = switch_args(targets@);
            assert(operands_ok(sa, nt)) by {
                assert forall|i: int| 0 <= i < sa.len() implies crate::amir::operand_ok(#[trigger] sa[i], nt) by {
                    assert(ops[1 + i] == sa[i]);
                }
            }
            if e < targets@.len() {
                lemma_switch_args_parts(targets@, e, nt);
                assert(terminator_targets(t)[e] == targets@[e].target);
            } else {
                assert(terminator_targets(t)[targets@.len() as int] == otherwise.target);
                assert forall|i: int| 0 <= i < otherwise.args@.len() implies crate::amir::operand_ok(
                    #[trigger] otherwise.args@[i],
                    nt,
                ) by {
                    assert(ops[1 + sa.len() + i] == otherwise.args@[i]);
                }
            }
        },
        _ => {},
    }
}

/// The entries of the visiting order index statements.
proof fn lemma_visit_bound(func: AmirFunc)
    requires
        func.wf_body(),
    ensures
        forall|p: int| 0 <= p < visit_order(func).len() ==> #[trigger] visit_order(func)[p] < func.stmts@.len(),
{
    let lists = block_id_lists(func);
    assert forall|g: int, j: int| 0 <= g < lists.len() && 0 <= j < lists[g].len() implies #[trigger] lists[g][j]
        < func.stmts@.len() by {
        assert(func.block_ranges_ok(g));
    }
    lemma_flat_bound(lists, func.stmts@.len());
}

/// Flow edges join nodes below `nt + nl`.
proof fn lemma_flow_edge_range(func: AmirFunc, a: int, b: int)
    requires
        func.wf_body(),
        flow_edge(func, a, b),
    ensures
        0 <= a < func.temps@.len() + func.locals@.len(),
        0 <= b < func.temps@.len() + func.locals@.len(),
{
    let vis = visit_order(func);
    let nt = func.temps@.len();
    let nl = func.locals@.len();
    lemma_visit_bound(func);
    if exists|p: int|
        0 <= p < vis.len() && flow_target(func.stmts@[vis[p] as int], nt) == Some(b) && #[trigger] flow_from(
            func.stmts@[vis[p] as int],
            nt,
            a,
        ) {
        let p = choose|p: int|
            0 <= p < vis.len() && flow_target(func.stmts@[vis[p] as int], nt) == Some(b) && #[trigger] flow_from(
                func.stmts@[vis[p] as int],
                nt,
                a,
            );
        let s = func.stmts@[vis[p] as int];
        assert(stmt_ok(s, nt, nl));
        match s {
            AmirStmt::Assign { rhs, .. } => match rhs {
                AmirRvalue::Load(_) => {},
                _ => {
                    let ops = crate::amir::rvalue_operands(rhs);
                    assert(ops == crate::amir::stmt_operands(s));
                    let w = choose|w: int| 0 <= w < ops.len() && operand_temp(ops[w]) == Some(a as usize);
                    assert(crate::amir::operand_ok(ops[w], nt));
                    assert(a < nt);
                },
            },
            AmirStmt::Store { rhs, .. } => {
                assert(crate::amir::stmt_operands(s)[0] == rhs);
                assert(crate::amir::operand_ok(rhs, nt));
            },
            _ => {},
        }
    } else {
        let (k, e) = choose|k: int, e: int|
            0 <= k < func.blocks@.len() && 0 <= e < jumps(func.blocks@[k].terminator).len() && #[trigger] pair_flow(
                func,
                jumps(func.blocks@[k].terminator)[e].0,
                jumps(func.blocks@[k].terminator)[e].1,
                a,
                b,
            );
        lemma_jump_ok(func, k, e);
        let target = jumps(func.blocks@[k].terminator)[e].0;
        let args = jumps(func.blocks@[k].terminator)[e].1;
        let j = choose|j: int|
            0 <= j < args.len() && j < func.block_params_spec(target as int).len() && 0 <= a <= usize::MAX && operand_temp(
                #[trigger] args[j],
            ) == Some(a as usize) && func.block_params_spec(target as int)[j].id == b;
        assert(crate::amir::operand_ok(args[j], nt));
        assert(func.block_ranges_ok(target as int));
        assert(func.block_params_spec(target as int)[j] == func.block_params@[func.blocks@[target as int].params.start
            + j]);
    }
}


/// Every flow edge joins nodes below `nt + nl`.
proof fn lemma_flow_edges_range(func: AmirFunc)
    requires
        func.wf_body(),
    ensures
        forall|a: int, b: int|
            flow_edge(func, a, b) ==> 0 <= a < func.temps@.len() + func.locals@.len() && 0 <= b < func.temps@.len()
                + func.locals@.len(),
{
    assert forall|a: int, b: int| flow_edge(func, a, b) implies 0 <= a < func.temps@.len() + func.locals@.len() && 0
        <= b < func.temps@.len() + func.locals@.len() by {
        lemma_flow_edge_range(func, a, b);
    }
}

/// Lists the edges of the jump `e` of block `k`, which goes to `target`
/// with `args`: argument `j` flows into parameter `j` of the target.
fn add_pair_edges(
    func: &AmirFunc,
    target: BlockId,
    args: &Vec<AmirOperand>,
    preds: &mut Vec<Vec<usize>>,
    Ghost(k): Ghost<int>,
    Ghost(e): Ghost<int>,
)
    requires
        func.wf_body(),
        func.temps@.len() + func.locals@.len() <= usize::MAX,
        0 <= k < func.blocks@.len(),
        0 <= e < jumps(func.blocks@[k].terminator).len(),
        jumps(func.blocks@[k].terminator)[e] == (target, args@),
        preds_sound(*func, old(preds)@, func.temps@.len() + func.locals@.len()),
    ensures
        preds_sound(*func, final(preds)@, func.temps@.len() + func.locals@.len()),
        grows(old(preds)@, final(preds)@),
        forall|a: int, b: int| #[trigger] pair_flow(*func, target, args@, a, b) ==> final(preds)@[b]@.contains(
            a as usize,
        ),
{
    let ghost n = func.temps@.len() + func.locals@.len();
    let ghost p0 = preds@;
    proof {
        lemma_jump_ok(*func, k, e);
    }
    let nt = func.temps.len();
    let n_params = func.block_params.len();
    let pr = func.blocks[target].params;
    assert(func.block_ranges_ok(target as int));
    let m = if args.len() < pr.len {
        args.len()
    } else {
        pr.len
    };
    let mut j: usize = 0;
    while j < m
        invariant
            func.wf_body(),
            nt == func.temps@.len(),
            n == func.temps@.len() + func.locals@.len(),
            n <= usize::MAX,
            0 <= k < func.blocks@.len(),
            0 <= e < jumps(func.blocks@[k].terminator).len(),
            jumps(func.blocks@[k].terminator)[e] == (target, args@),
            target < func.blocks@.len(),
            operands_ok(args@, nt as nat),
            pr == func.blocks@[target as int].params,
            pr.start + pr.len <= func.block_params@.len(),
            n_params == func.block_params@.len(),
            m <= args@.len(),
            m <= pr.len,
            m == args@.len() || m == pr.len,
            j <= m,
            preds_sound(*func, preds@, n),
            grows(p0, preds@),
            forall|jj: int|
                0 <= jj < j && operand_temp(#[trigger] args@[jj]) is Some ==> preds@[func.block_params_spec(
                    target as int,
                )[jj].id as int]@.contains(operand_temp(args@[jj]).unwrap()),
        decreases m - j,
    {
        let bp = func.block_params[pr.start + j];
        assert(func.block_params_spec(target as int)[j as int] == bp);
        let src = match args[j] {
            AmirOperand::Copy(t) => Some(t),
            AmirOperand::Move(t) => Some(t),
            _ => None,
        };
        let ghost pb = preds@;
        match src {
            Some(t) => {
                proof {
                    assert(crate::amir::operand_ok(args@[j as int], nt as nat));
                    assert(pair_flow(*func, target, args@, t as int, bp.id as int));
                    assert(flow_edge(*func, t as int, bp.id as int)) by {
                        assert(pair_flow(
                            *func,
                            jumps(func.blocks@[k].terminator)[e].0,
                            jumps(func.blocks@[k].terminator)[e].1,
                            t as int,
                            bp.id as int,
                        ));
                    }
                }
                add_edge(preds, t, bp.id, Ghost(*func), Ghost(n));
                proof {
                    lemma_grows_trans(p0, pb, preds@);
                }
            },
            None => {},
        }
        proof {
            assert forall|jj: int|
                0 <= jj < j + 1 && operand_temp(#[trigger] args@[jj]) is Some implies preds@[func.block_params_spec(
                    target as int,
                )[jj].id as int]@.contains(operand_temp(args@[jj]).unwrap()) by {
                if jj < j {
                    let b = func.block_params_spec(target as int)[jj].id as int;
                    assert(pb[b]@.contains(operand_temp(args@[jj]).unwrap()));
                    assert(func.block_params_spec(target as int)[jj] == func.block_params@[pr.start + jj]);
                    assert(b < nt);
                }
            }
        }
        j = j + 1;
    }
    proof {
        assert forall|a: int, b: int| #[trigger] pair_flow(*func, target, args@, a, b) implies preds@[
            b
        ]@.contains(a as usize) by {
            let jj = choose|jj: int|
                0 <= jj < args@.len() && jj < func.block_params_spec(target as int).len() && 0 <= a <= usize::MAX
                    && operand_temp(#[trigger] args@[jj]) == Some(a as usize) && func.block_params_spec(
                    target as int,
                )[jj].id == b;
            assert(jj < m);
            assert(operand_temp(args@[jj]) is Some);
        }
    }
}


/// The predecessor lists of the flow graph: `preds[b]` holds `a` exactly
/// when origins flow from `a` to `b`.
fn flow_preds(func: &AmirFunc, vis: &Vec<usize>) -> (preds: Vec<Vec<usize>>)
    requires
        func.wf_body(),
        func.temps@.len() + func.locals@.len() <= usize::MAX,
        vis@ == visit_order(*func),
    ensures
        preds@.len() == func.temps@.len() + func.locals@.len(),
        forall|b: int, k: int|
            0 <= b < preds@.len() && 0 <= k < preds@[b]@.len() ==> #[trigger] preds@[b]@[k] < preds@.len(),
        forall|a: int, b: int|
            0 <= a < preds@.len() && 0 <= b < preds@.len() ==> (preds@[b]@.contains(a as usize) <==> flow_edge(
                *func,
                a,
                b,
            )),
{
    let nt = func.temps.len();
    let nl = func.locals.len();
    let n = nt + nl;
    let ghost gn = n as nat;
    let mut preds: Vec<Vec<usize>> = Vec::new();
    let mut x: usize = 0;
    while x < n
        invariant
            x <= n,
            preds@.len() == x,
            forall|y: int| 0 <= y < x ==> (#[trigger] preds@[y])@.len() == 0,
        decreases n - x,
    {
        preds.push(Vec::new());
        x = x + 1;
    }
    proof {
        lemma_visit_bound(*func);
        assert(stmts_done(*func, preds@, 0));
        assert(jumps_done(*func, preds@, 0));
    }
    let nv = vis.len();
    let mut p: usize = 0;
    while p < nv
        invariant
            func.wf_body(),
            nt == func.temps@.len(),
            nl == func.locals@.len(),
            n == nt + nl,
            gn == n,
            vis@ == visit_order(*func),
            nv == vis@.len(),
            forall|q: int| 0 <= q < vis@.len() ==> (#[trigger] vis@[q]) < func.stmts@.len(),
            p <= nv,
            preds_sound(*func, preds@, gn),
            stmts_done(*func, preds@, p as int),
            jumps_done(*func, preds@, 0),
        decreases nv - p,
    {
        let i = vis[p];
        let s = &func.stmts[i];
        assert(stmt_ok(*s, nt as nat, nl as nat));
        let target: Option<usize> = match s {
            AmirStmt::Assign { lhs, .. } => Some(*lhs),
            AmirStmt::Store { lhs, .. } => Some(nt + lhs.local),
            _ => None,
        };
        let srcs = flow_sources(s, nt, nl);
        let ghost p_start = preds@;
        match target {
            Some(b) => {
                let ns = srcs.len();
                let mut q: usize = 0;
                while q < ns
                    invariant
                        func.wf_body(),
                        nt == func.temps@.len(),
                        nl == func.locals@.len(),
                        gn == nt + nl,
                        vis@ == visit_order(*func),
                        p < vis@.len(),
                        i == vis@[p as int],
                        *s == func.stmts@[i as int],
                        flow_target(*s, nt as nat) == Some(b as int),
                        b < gn,
                        ns == srcs@.len(),
                        forall|k: int| 0 <= k < srcs@.len() ==> (#[trigger] srcs@[k]) < nt + nl && flow_from(
                            *s,
                            nt as nat,
                            srcs@[k] as int,
                        ),
                        q <= ns,
                        preds_sound(*func, preds@, gn),
                        grows(p_start, preds@),
                        forall|k: int| 0 <= k < q ==> preds@[b as int]@.contains(#[trigger] srcs@[k]),
                    decreases ns - q,
                {
                    let a = srcs[q];
                    let ghost pb = preds@;
                    proof {
                        assert(flow_from(*s, nt as nat, a as int));
                        assert(flow_edge(*func, a as int, b as int)) by {
                            assert(flow_from(func.stmts@[vis@[p as int] as int], nt as nat, a as int));
                        }
                    }
                    add_edge(&mut preds, a, b, Ghost(*func), Ghost(gn));
                    proof {
                        lemma_grows_trans(p_start, pb, preds@);
                        assert forall|k: int| 0 <= k < q + 1 implies preds@[b as int]@.contains(#[trigger] srcs@[k]) by {
                            if k < q {
                                assert(pb[b as int]@.contains(srcs@[k]));
                            }
                        }
                    }
                    q = q + 1;
                }
            },
            None => {},
        }
        proof {
            lemma_flow_edges_range(*func);
            lemma_done_grows(*func, p_start, preds@, p as int, 0, gn);
            assert forall|pp: int, a: int|
                0 <= pp < p + 1 && #[trigger] flow_from(func.stmts@[vis@[pp] as int], nt as nat, a) implies preds@[flow_target(
                    func.stmts@[vis@[pp] as int],
                    nt as nat,
                ).unwrap()]@.contains(a as usize) by {
                if pp == p {
                    assert(flow_edge(*func, a, flow_target(*s, nt as nat).unwrap()));
                    lemma_flow_edge_range(*func, a, flow_target(*s, nt as nat).unwrap());
                    assert(srcs@.contains(a as usize));
                    let w = choose|w: int| 0 <= w < srcs@.len() && srcs@[w] == a as usize;
                    assert(preds@[flow_target(*s, nt as nat).unwrap()]@.contains(srcs@[w]));
                }
            }
        }
        p = p + 1;
    }
    let nb = func.blocks.len();
    let mut k: usize = 0;
    while k < nb
        invariant
            func.wf_body(),
            nt == func.temps@.len(),
            nl == func.locals@.len(),
            gn == nt + nl,
            nt + nl <= usize::MAX,
            nb == func.blocks@.len(),
            vis@ == visit_order(*func),
            nv == vis@.len(),
            k <= nb,
            preds_sound(*func, preds@, gn),
            stmts_done(*func, preds@, nv as int),
            jumps_done(*func, preds@, k as int),
        decreases nb - k,
    {
        let ghost p_start = preds@;
        let ghost t = func.blocks@[k as int].terminator;
        match &func.blocks[k].terminator {
            AmirTerminator::Goto { target, args } => {
                add_pair_edges(func, *target, args, &mut preds, Ghost(k as int), Ghost(0));
            },
            AmirTerminator::Branch { if_true, true_args, if_false, false_args, .. } => {
                add_pair_edges(func, *if_true, true_args, &mut preds, Ghost(k as int), Ghost(0));
                let ghost p_mid = preds@;
                add_pair_edges(func, *if_false, false_args, &mut preds, Ghost(k as int), Ghost(1));
                proof {
                    lemma_grows_trans(p_start, p_mid, preds@);
                    assert forall|a: int, b: int| #[trigger] pair_flow(*func, *if_true, true_args@, a, b) implies preds@[
                        b
                    ]@.contains(a as usize) by {
                        assert(pair_flow(*func, jumps(t)[0].0, jumps(t)[0].1, a, b));
                        assert(flow_edge(*func, a, b));
                        lemma_flow_edge_range(*func, a, b);
                        assert(p_mid[b]@.contains(a as usize));
                    }
                }
            },
            AmirTerminator::SwitchInt { targets, otherwise, .. } => {
                let nsw = targets.len();
                let mut m: usize = 0;
                while m < nsw
                    invariant
                        func.wf_body(),
                        nt == func.temps@.len(),
                        nl == func.locals@.len(),
                        gn == nt + nl,
                        gn <= usize::MAX,
                        k < func.blocks@.len(),
                        t == func.blocks@[k as int].terminator,
                        t == (AmirTerminator::SwitchInt { discriminant: t->discriminant, targets: *targets, otherwise: *otherwise }),
                        nsw == targets@.len(),
                        m <= nsw,
                        preds_sound(*func, preds@, gn),
                        grows(p_start, preds@),
                        forall|ee: int, a: int, b: int|
                            0 <= ee < m && #[trigger] pair_flow(*func, jumps(t)[ee].0, jumps(t)[ee].1, a, b)
                                ==> preds@[b]@.contains(a as usize),
                    decreases nsw - m,
                {
                    let ghost pb = preds@;
                    assert(jumps(t)[m as int] == (targets@[m as int].target, targets@[m as int].args@));
                    add_pair_edges(func, targets[m].target, &targets[m].args, &mut preds, Ghost(k as int), Ghost(m as int));
                    proof {
                        lemma_grows_trans(p_start, pb, preds@);
                        assert forall|ee: int, a: int, b: int|
                            0 <= ee < m + 1 && #[trigger] pair_flow(*func, jumps(t)[ee].0, jumps(t)[ee].1, a, b)
                                implies preds@[b]@.contains(a as usize) by {
                            if ee < m {
                                lemma_flow_edge_range(*func, a, b);
                                assert(pb[b]@.contains(a as usize));
                            }
                        }
                    }
                    m = m + 1;
                }
                let ghost pb = preds@;
                assert(jumps(t)[nsw as int] == (otherwise.target, otherwise.args@));
                add_pair_edges(func, otherwise.target, &otherwise.args, &mut preds, Ghost(k as int), Ghost(nsw as int));
                proof {
                    lemma_grows_trans(p_start, pb, preds@);
                    assert forall|ee: int, a: int, b: int|
                        0 <= ee < nsw && #[trigger] pair_flow(*func, jumps(t)[ee].0, jumps(t)[ee].1, a, b)
                            implies preds@[b]@.contains(a as usize) by {
                        lemma_flow_edge_range(*func, a, b);
                        assert(pb[b]@.contains(a as usize));
                    }
                }
            },
            _ => {},
        }
        proof {
            lemma_flow_edges_range(*func);
            lemma_done_grows(*func, p_start, preds@, nv as int, k as int, gn);
            assert forall|kk: int, e: int, a: int, b: int|
                0 <= kk < k + 1 && 0 <= e < jumps(func.blocks@[kk].terminator).len() && #[trigger] pair_flow(
                    *func,
                    jumps(func.blocks@[kk].terminator)[e].0,
                    jumps(func.blocks@[kk].terminator)[e].1,
                    a,
                    b,
                ) implies preds@[b]@.contains(a as usize) by {
                if kk == k {
                    match t {
                        AmirTerminator::Goto { .. } => {},
                        AmirTerminator::Branch { .. } => {},
                        AmirTerminator::SwitchInt { targets, .. } => {
                            if e < targets@.len() {
                            }
                        },
                        _ => {},
                    }
                }
            }
        }
        k = k + 1;
    }
    proof {
        assert forall|a: int, b: int| 0 <= a < gn && 0 <= b < gn implies (preds@[b]@.contains(a as usize) <==> flow_edge(
            *func,
            a,
            b,
        )) by {
            if preds@[b]@.contains(a as usize) {
                let w = choose|w: int| 0 <= w < preds@[b]@.len() && preds@[b]@[w] == a as usize;
                assert(flow_edge(*func, preds@[b]@[w] as int, b));
            }
            if flow_edge(*func, a, b) {
                let vv = visit_order(*func);
                if exists|pp: int|
                    0 <= pp < vv.len() && flow_target(func.stmts@[vv[pp] as int], nt as nat) == Some(b) && #[trigger] flow_from(
                        func.stmts@[vv[pp] as int],
                        nt as nat,
                        a,
                    ) {
                    let pp = choose|pp: int|
                        0 <= pp < vv.len() && flow_target(func.stmts@[vv[pp] as int], nt as nat) == Some(b) && #[trigger] flow_from(
                            func.stmts@[vv[pp] as int],
                            nt as nat,
                            a,
                        );
                    assert(flow_from(func.stmts@[vis@[pp] as int], nt as nat, a));
                }
            }
        }
    }
    preds
}


/// Statement `s` lets the value of temp `t` escape the frame: `t` is stored
/// through a projection or passed to a call.
pub open spec fn stmt_escape(s: AmirStmt, t: int) -> bool {
    &&& 0 <= t <= usize::MAX
    &&& match s {
        AmirStmt::Store { lhs, rhs } => lhs.projections@.len() > 0 && operand_temp(rhs) == Some(t as usize),
        AmirStmt::Call { args, .. } => uses_temp(args@, t as usize),
        _ => false,
    }
}

/// Values of node `t` outlive the frame: a visited statement lets them
/// escape, or `t` is the return temp and some block returns.
pub open spec fn escape_node(func: AmirFunc, t: int) -> bool {
    let vis = visit_order(func);
    ||| exists|p: int| 0 <= p < vis.len() && #[trigger] stmt_escape(func.stmts@[vis[p] as int], t)
    ||| (t == 0 && func.temps@.len() > 0 && exists|k: int|
        0 <= k < func.blocks@.len() && (#[trigger] func.blocks@[k]).terminator is Return)
}

/// `c` leads backwards from an escape: `c[0]` escapes and each `c[k]`
/// flows into `c[k - 1]`.
pub open spec fn escape_chain(func: AmirFunc, c: Seq<int>) -> bool {
    &&& c.len() > 0
    &&& escape_node(func, c[0])
    &&& forall|k: int| 1 <= k < c.len() ==> flow_edge(func, #[trigger] c[k], c[k - 1])
}

/// The values of node `a` can flow to a place that outlives the frame.
pub open spec fn can_escape(func: AmirFunc, a: int) -> bool {
    exists|c: Seq<int>| #[trigger] escape_chain(func, c) && c.last() == a
}

/// Statement `i` is the stack coroutine that must move to the heap: the
/// last visited stack build of its temp, whose value can escape.
pub open spec fn promoted(func: AmirFunc, i: int) -> bool {
    match func.stmts@[i] {
        AmirStmt::Assign { lhs, .. } => {
            &&& is_stack_coro_def(func.stmts@[i], lhs)
            &&& last_coro_def(func.stmts@, visit_order(func), lhs) == Some(i as usize)
            &&& can_escape(func, lhs as int)
        },
        _ => false,
    }
}

/// The statement with its coroutine built on the heap.
pub open spec fn on_heap(s: AmirStmt) -> AmirStmt {
    match s {
        AmirStmt::Assign { lhs, rhs: AmirRvalue::CoroutineReady { value, payload_ty, .. } } => AmirStmt::Assign {
            lhs,
            rhs: AmirRvalue::CoroutineReady { value, payload_ty, stack: false },
        },
        _ => s,
    }
}

/// The statement `last_coro_def` finds builds a stack coroutine into `t`.
proof fn lemma_last_coro_def(stmts: Seq<AmirStmt>, vis: Seq<usize>, t: TempId)
    requires
        last_coro_def(stmts, vis, t) is Some,
    ensures
        is_stack_coro_def(stmts[last_coro_def(stmts, vis, t).unwrap() as int], t),
        vis.contains(last_coro_def(stmts, vis, t).unwrap()),
    decreases vis.len(),
{
    if !is_stack_coro_def(stmts[vis.last() as int], t) {
        lemma_last_coro_def(stmts, vis.drop_last(), t);
        let w = choose|w: int| 0 <= w < vis.drop_last().len() && vis.drop_last()[w] == last_coro_def(stmts, vis, t).unwrap();
        assert(vis[w] == vis.drop_last()[w]);
    } else {
        assert(vis[vis.len() - 1] == vis.last());
    }
}

/// Node `x` escapes through one of the first `np` visited statements.
spec fn escape_upto(func: AmirFunc, x: int, np: int) -> bool {
    exists|p: int| 0 <= p < np && #[trigger] stmt_escape(func.stmts@[visit_order(func)[p] as int], x)
}

/// One of the first `nk` blocks returns.
spec fn return_upto(func: AmirFunc, nk: int) -> bool {
    exists|k: int| 0 <= k < nk && (#[trigger] func.blocks@[k]).terminator is Return
}

/// `seeds[x]` holds exactly for the escape nodes.
fn escape_seeds(func: &AmirFunc, vis: &Vec<usize>) -> (seeds: Vec<bool>)
    requires
        func.wf_body(),
        func.temps@.len() + func.locals@.len() <= usize::MAX,
        vis@ == visit_order(*func),
    ensures
        seeds@.len() == func.temps@.len() + func.locals@.len(),
        forall|x: int| 0 <= x < seeds@.len() ==> (#[trigger] seeds@[x] <==> escape_node(*func, x)),
        forall|x: int| #[trigger] escape_node(*func, x) ==> 0 <= x < func.temps@.len(),
{
    let nt = func.temps.len();
    let nl = func.locals.len();
    let n = nt + nl;
    let mut seeds: Vec<bool> = Vec::new();
    let mut x: usize = 0;
    while x < n
        invariant
            x <= n,
            seeds@.len() == x,
            forall|y: int| 0 <= y < x ==> !#[trigger] seeds@[y],
        decreases n - x,
    {
        seeds.push(false);
        x = x + 1;
    }
    proof {
        lemma_visit_bound(*func);
    }
    let nv = vis.len();
    let mut p: usize = 0;
    while p < nv
        invariant
            func.wf_body(),
            nt == func.temps@.len(),
            n == nt + nl,
            vis@ == visit_order(*func),
            nv == vis@.len(),
            forall|q: int| 0 <= q < vis@.len() ==> (#[trigger] vis@[q]) < func.stmts@.len(),
            p <= nv,
            nl == func.locals@.len(),
            seeds@.len() == n,
            forall|y: int| 0 <= y < n ==> (#[trigger] seeds@[y] <==> escape_upto(*func, y, p as int)),
            forall|y: int| #[trigger] escape_upto(*func, y, p as int) ==> 0 <= y < nt,
        decreases nv - p,
    {
        let i = vis[p];
        let ghost s0 = seeds@;
        assert(stmt_ok(func.stmts@[i as int], nt as nat, nl as nat));
        let mut hit: Vec<usize> = Vec::new();
        match &func.stmts[i] {
            AmirStmt::Store { lhs, rhs } => {
                if lhs.projections.len() > 0 {
                    match rhs {
                        AmirOperand::Copy(t) => hit.push(*t),
                        AmirOperand::Move(t) => hit.push(*t),
                        _ => {},
                    }
                }
                proof {
                    assert(crate::amir::stmt_operands(func.stmts@[i as int])[0] == *rhs);
                    assert(crate::amir::operand_ok(*rhs, nt as nat));
                    assert forall|y: int| 0 <= y < n implies (hit@.contains(y as usize) <==> stmt_escape(
                        func.stmts@[i as int],
                        y,
                    )) by {
                        if stmt_escape(func.stmts@[i as int], y) {
                            assert(hit@[0] == y as usize);
                        }
                    }
                }
            },
            AmirStmt::Call { args, .. } => {
                hit = crate::amir::operand_temps(args);
                proof {
                    let ops = crate::amir::stmt_operands(func.stmts@[i as int]);
                    assert forall|k: int| 0 <= k < hit@.len() implies (#[trigger] hit@[k]) < nt by {
                        assert(uses_temp(args@, hit@[k]));
                        let w = choose|w: int| 0 <= w < args@.len() && operand_temp(args@[w]) == Some(hit@[k]);
                        assert(ops[1 + w] == args@[w]);
                        assert(crate::amir::operand_ok(ops[1 + w], nt as nat));
                    }
                }
            },
            _ => {},
        }
        proof {
            assert forall|k: int| 0 <= k < hit@.len() implies (#[trigger] hit@[k]) < nt by {
                match func.stmts@[i as int] {
                    AmirStmt::Store { rhs, .. } => {
                        assert(crate::amir::stmt_operands(func.stmts@[i as int])[0] == rhs);
                        assert(crate::amir::operand_ok(rhs, nt as nat));
                    },
                    _ => {},
                }
            }
            assert forall|y: int| 0 <= y < n implies (hit@.contains(y as usize) <==> stmt_escape(
                func.stmts@[i as int],
                y,
            )) by {
                match func.stmts@[i as int] {
                    AmirStmt::Store { .. } => {},
                    AmirStmt::Call { .. } => {},
                    _ => {
                        assert(!hit@.contains(y as usize));
                    },
                }
            }
        }
        let nh = hit.len();
        let mut h: usize = 0;
        while h < nh
            invariant
                nh == hit@.len(),
                h <= nh,
                seeds@.len() == n,
                s0.len() == n,
                forall|k: int| 0 <= k < hit@.len() ==> (#[trigger] hit@[k]) < nt,
                nt <= n,
                forall|y: int|
                    0 <= y < n ==> (#[trigger] seeds@[y] <==> (s0[y] || exists|w: int|
                        0 <= w < h && #[trigger] hit@[w] == y as usize)),
            decreases nh - h,
        {
            let y = hit[h];
            seeds.set(y, true);
            proof {
                assert forall|z: int| 0 <= z < n implies (#[trigger] seeds@[z] <==> (s0[z] || exists|w: int|
                    0 <= w < h + 1 && #[trigger] hit@[w] == z as usize)) by {
                    if z == y {
                        assert(hit@[h as int] == y);
                    }
                }
            }
            h = h + 1;
        }
        proof {
            assert forall|y: int| 0 <= y < n implies (#[trigger] seeds@[y] <==> escape_upto(*func, y, p + 1)) by {
                if hit@.contains(y as usize) {
                    let w = choose|w: int| 0 <= w < hit@.len() && hit@[w] == y as usize;
                    assert(hit@[w] == y as usize);
                }
                if escape_upto(*func, y, p + 1) && !escape_upto(*func, y, p as int) {
                    let q = choose|q: int| 0 <= q < p + 1 && #[trigger] stmt_escape(func.stmts@[visit_order(*func)[q] as int], y);
                    assert(q == p);
                }
                if hit@.contains(y as usize) {
                    assert(stmt_escape(func.stmts@[visit_order(*func)[p as int] as int], y));
                }
            }
            assert forall|y: int| #[trigger] escape_upto(*func, y, p + 1) implies 0 <= y < nt by {
                if !escape_upto(*func, y, p as int) {
                    let q = choose|q: int| 0 <= q < p + 1 && #[trigger] stmt_escape(func.stmts@[visit_order(*func)[q] as int], y);
                    assert(q == p);
                    let s = func.stmts@[i as int];
                    match s {
                        AmirStmt::Store { rhs, .. } => {
                            assert(crate::amir::stmt_operands(s)[0] == rhs);
                            assert(crate::amir::operand_ok(rhs, nt as nat));
                        },
                        AmirStmt::Call { args, .. } => {
                            let w = choose|w: int| 0 <= w < args@.len() && operand_temp(args@[w]) == Some(y as usize);
                            assert(crate::amir::stmt_operands(s)[1 + w] == args@[w]);
                            assert(crate::amir::operand_ok(args@[w], nt as nat));
                        },
                        _ => {},
                    }
                }
            }
        }
        p = p + 1;
    }
    let nb = func.blocks.len();
    let mut k: usize = 0;
    while k < nb
        invariant
            nt == func.temps@.len(),
            n == nt + nl,
            nb == func.blocks@.len(),
            vis@ == visit_order(*func),
            nv == vis@.len(),
            k <= nb,
            seeds@.len() == n,
            forall|y: int|
                0 <= y < n ==> (#[trigger] seeds@[y] <==> (escape_upto(*func, y, nv as int) || (y == 0 && nt > 0
                    && return_upto(*func, k as int)))),
            forall|y: int| #[trigger] escape_upto(*func, y, nv as int) ==> 0 <= y < nt,
        decreases nb - k,
    {
        let is_return = match func.blocks[k].terminator {
            AmirTerminator::Return => true,
            _ => false,
        };
        if is_return && nt > 0 {
            seeds.set(0, true);
        }
        proof {
            assert forall|y: int| 0 <= y < n implies (#[trigger] seeds@[y] <==> (escape_upto(*func, y, nv as int) || (y
                == 0 && nt > 0 && return_upto(*func, k + 1)))) by {
                if return_upto(*func, k + 1) && !return_upto(*func, k as int) {
                    let kk = choose|kk: int| 0 <= kk < k + 1 && (#[trigger] func.blocks@[kk]).terminator is Return;
                    assert(kk == k);
                }
                if is_return {
                    assert(func.blocks@[k as int].terminator is Return);
                }
            }
        }
        k = k + 1;
    }
    proof {
        assert forall|x: int| #[trigger] escape_node(*func, x) implies 0 <= x < func.temps@.len() by {
            if !(x == 0 && nt > 0) {
                assert(escape_upto(*func, x, nv as int));
            }
        }
        assert forall|x: int| 0 <= x < seeds@.len() implies (#[trigger] seeds@[x] <==> escape_node(*func, x)) by {
            if escape_node(*func, x) && !(x == 0 && nt > 0 && return_upto(*func, nb as int)) {
                assert(escape_upto(*func, x, nv as int));
            }
        }
    }
    seeds
}


/// Reaching a seed in the listed graph is escaping in the flow graph, when
/// the lists hold exactly the flow edges and the seeds exactly the escapes.
proof fn lemma_reach_is_escape(func: AmirFunc, preds: Seq<Vec<usize>>, seeds: Seq<bool>, a: int)
    requires
        func.wf_body(),
        preds.len() == func.temps@.len() + func.locals@.len(),
        seeds.len() == preds.len(),
        forall|x: int, y: int|
            0 <= x < preds.len() && 0 <= y < preds.len() ==> (preds[y]@.contains(x as usize) <==> flow_edge(
                func,
                x,
                y,
            )),
        forall|x: int| 0 <= x < seeds.len() ==> (#[trigger] seeds[x] <==> escape_node(func, x)),
        forall|x: int| #[trigger] escape_node(func, x) ==> 0 <= x < func.temps@.len(),
    ensures
        reaches_seed(pg_view(preds), seeds, a) <==> can_escape(func, a),
{
    let g = pg_view(preds);
    lemma_flow_edges_range(func);
    assert forall|x: int, y: int| pg_edge(g, x, y) <==> flow_edge(func, x, y) by {
        if 0 <= y < g.len() {
            assert(g[y] == preds[y]@);
        }
    }
    if reaches_seed(g, seeds, a) {
        let c = choose|c: Seq<int>| #[trigger] back_chain(g, seeds, c) && c.last() == a;
        assert forall|k: int| 1 <= k < c.len() implies flow_edge(func, #[trigger] c[k], c[k - 1]) by {
            assert(pg_edge(g, c[k], c[k - 1]));
        }
        assert(escape_chain(func, c));
    }
    if can_escape(func, a) {
        let c = choose|c: Seq<int>| #[trigger] escape_chain(func, c) && c.last() == a;
        assert forall|k: int| 1 <= k < c.len() implies pg_edge(g, #[trigger] c[k], c[k - 1]) by {
            assert(flow_edge(func, c[k], c[k - 1]));
        }
        assert(back_chain(g, seeds, c));
    }
}

/// Moves to the heap every stack coroutine whose value can flow to a call
/// argument, a store through a projection or the return value: the last
/// visited stack build of each such temp gets `stack: false`.  Nothing else
/// changes.
pub fn promote_escaped_coroutines(func: &mut AmirFunc)
    requires
        old(func).wf_body(),
        old(func).temps@.len() + old(func).locals@.len() <= usize::MAX,
    ensures
        final(func).stmts@.len() == old(func).stmts@.len(),
        forall|i: int|
            0 <= i < old(func).stmts@.len() ==> #[trigger] final(func).stmts@[i] == (if promoted(*old(func), i) {
                on_heap(old(func).stmts@[i])
            } else {
                old(func).stmts@[i]
            }),
        final(func).blocks == old(func).blocks,
        final(func).block_params == old(func).block_params,
        final(func).temps == old(func).temps,
        final(func).locals == old(func).locals,
        final(func).params == old(func).params,
        final(func).receiver == old(func).receiver,
        final(func).symbol == old(func).symbol,
        final(func).return_type == old(func).return_type,
        final(func).cfg == old(func).cfg,
{
    let ghost f0 = *func;
    let vis = visit_ids(func);
    let coro = stack_coro_defs(func, &vis);
    let preds = flow_preds(func, &vis);
    let seeds = escape_seeds(func, &vis);
    let marked = backward_closure(&preds, &seeds);
    proof {
        assert forall|a: int| 0 <= a < marked@.len() implies (#[trigger] marked@[a] <==> can_escape(f0, a)) by {
            lemma_reach_is_escape(f0, preds@, seeds@, a);
        }
    }
    let nt = func.temps.len();
    let ns = func.stmts.len();
    let mut t: usize = 0;
    while t < nt
        invariant
            f0.wf_body(),
            ns == f0.stmts@.len(),
            nt == f0.temps@.len(),
            coro@.len() == nt,
            forall|u: int| 0 <= u < nt ==> #[trigger] coro@[u] == last_coro_def(f0.stmts@, vis@, u as usize),
            vis@ == visit_order(f0),
            forall|q: int| 0 <= q < vis@.len() ==> (#[trigger] vis@[q]) < f0.stmts@.len(),
            marked@.len() >= nt,
            forall|a: int| 0 <= a < marked@.len() ==> (#[trigger] marked@[a] <==> can_escape(f0, a)),
            t <= nt,
            func.stmts@.len() == f0.stmts@.len(),
            forall|i: int|
                0 <= i < f0.stmts@.len() ==> #[trigger] func.stmts@[i] == (if promoted(f0, i)
                    && f0.stmts@[i]->Assign_lhs < t {
                    on_heap(f0.stmts@[i])
                } else {
                    f0.stmts@[i]
                }),
            func.blocks == f0.blocks,
            func.block_params == f0.block_params,
            func.temps == f0.temps,
            func.locals == f0.locals,
            func.params == f0.params,
            func.receiver == f0.receiver,
            func.symbol == f0.symbol,
            func.return_type == f0.return_type,
            func.cfg == f0.cfg,
        decreases nt - t,
    {
        let ghost before = func.stmts@;
        match coro[t] {
            Some(i) => {
                if marked[t] {
                    proof {
                        lemma_last_coro_def(f0.stmts@, vis@, t);
                        let w = choose|w: int| 0 <= w < vis@.len() && vis@[w] == i;
                        assert(vis@[w] < f0.stmts@.len());
                        assert(promoted(f0, i as int));
                        assert(func.stmts@[i as int] == f0.stmts@[i as int]);
                    }
                    let fresh = match &func.stmts[i] {
                        AmirStmt::Assign { lhs, rhs: AmirRvalue::CoroutineReady { value, payload_ty, .. } } => Some(
                            AmirStmt::Assign {
                                lhs: *lhs,
                                rhs: AmirRvalue::CoroutineReady { value: *value, payload_ty: *payload_ty, stack: false },
                            },
                        ),
                        _ => None,
                    };
                    match fresh {
                        Some(s) => {
                            func.stmts.set(i, s);
                        },
                        None => {},
                    }
                    assert(func.stmts@[i as int] == on_heap(f0.stmts@[i as int]));
                    assert(func.stmts@ == before.update(i as int, on_heap(f0.stmts@[i as int])));
                } else {
                    assert(func.stmts@ == before);
                }
            },
            None => {
                assert(func.stmts@ == before);
            },
        }
        proof {
            assert forall|i: int| 0 <= i < f0.stmts@.len() implies #[trigger] func.stmts@[i] == (if promoted(f0, i)
                && f0.stmts@[i]->Assign_lhs < t + 1 {
                on_heap(f0.stmts@[i])
            } else {
                f0.stmts@[i]
            }) by {
                if promoted(f0, i) && f0.stmts@[i]->Assign_lhs == t {
                    assert(coro@[t as int] == Some(i as usize));
                    assert(marked@[t as int]);
                } else if coro@[t as int] == Some(i as usize) && marked@[t as int] {
                    lemma_last_coro_def(f0.stmts@, vis@, t);
                    let w = choose|w: int| 0 <= w < vis@.len() && vis@[w] == i as usize;
                    assert(vis@[w] < f0.stmts@.len());
                    assert(promoted(f0, i));
                }
            }
        }
        t = t + 1;
    }
    proof {
        assert forall|i: int| 0 <= i < f0.stmts@.len() implies #[trigger] func.stmts@[i] == (if promoted(f0, i) {
            on_heap(f0.stmts@[i])
        } else {
            f0.stmts@[i]
        }) by {
            if promoted(f0, i) {
                assert(stmt_ok(f0.stmts@[i], f0.temps@.len(), f0.locals@.len()));
            }
        }
    }
}


/// `rhs` builds an aggregate (a tuple, an array, a struct literal or an
/// enum value with a payload) one of whose operands reads temp `a`.
pub open spec fn aggregate_reads(rhs: AmirRvalue, a: TempId) -> bool {
    ||| (rhs matches AmirRvalue::Tuple { items } && exists|j: int|
        0 <= j < items@.len() && #[trigger] operand_temp(items@[j]) == Some(a))
    ||| (rhs matches AmirRvalue::Array { items } && exists|j: int|
        0 <= j < items@.len() && #[trigger] operand_temp(items@[j]) == Some(a))
    ||| (rhs matches AmirRvalue::StructLiteral { fields, .. } && exists|j: int|
        0 <= j < fields@.len() && #[trigger] operand_temp(fields@[j].1) == Some(a))
    ||| (rhs matches AmirRvalue::EnumConstruct { payload, .. } && payload matches Some(op) && operand_temp(op) == Some(
        a,
    ))
}

/// An aggregate carries its parts: when a visited statement builds an
/// aggregate into `lhs` from an operand reading `a`, and the value of `lhs`
/// can escape the frame, so can the value of `a`.  In particular a value put
/// into an aggregate that is returned escapes.
pub proof fn lemma_aggregate_passes_escape(func: AmirFunc, p: int, a: TempId)
    requires
        0 <= p < visit_order(func).len(),
        func.stmts@[visit_order(func)[p] as int] matches AmirStmt::Assign { lhs, rhs } && aggregate_reads(rhs, a)
            && (can_escape(func, lhs as int) || (lhs == 0 && func.temps@.len() > 0 && exists|k: int|
            0 <= k < func.blocks@.len() && (#[trigger] func.blocks@[k]).terminator is Return)),
    ensures
        can_escape(func, a as int),
{
    let vis = visit_order(func);
    let s = func.stmts@[vis[p] as int];
    let nt = func.temps@.len();
    let lhs = s->Assign_lhs;
    let rhs = s->Assign_rhs;
    let ops = crate::amir::rvalue_operands(rhs);
    assert(uses_temp(ops, a)) by {
        match rhs {
            AmirRvalue::Tuple { items } => {
                let j = choose|j: int| 0 <= j < items@.len() && #[trigger] operand_temp(items@[j]) == Some(a);
                assert(ops[j] == items@[j]);
            },
            AmirRvalue::Array { items } => {
                let j = choose|j: int| 0 <= j < items@.len() && #[trigger] operand_temp(items@[j]) == Some(a);
                assert(ops[j] == items@[j]);
            },
            AmirRvalue::StructLiteral { fields, .. } => {
                let j = choose|j: int| 0 <= j < fields@.len() && #[trigger] operand_temp(fields@[j].1) == Some(a);
                assert(ops[j] == fields@[j].1);
            },
            AmirRvalue::EnumConstruct { payload, .. } => {
                assert(ops[0] == payload->Some_0);
            },
            _ => {},
        }
    }
    assert(flow_from(s, nt, a as int));
    assert(flow_target(s, nt) == Some(lhs as int));
    assert(flow_edge(func, a as int, lhs as int));
    let c: Seq<int> = if can_escape(func, lhs as int) {
        choose|c: Seq<int>| #[trigger] escape_chain(func, c) && c.last() == lhs as int
    } else {
        let k = choose|k: int| 0 <= k < func.blocks@.len() && (#[trigger] func.blocks@[k]).terminator is Return;
        assert(escape_node(func, 0));
        let c0 = seq![0int];
        assert(escape_chain(func, c0));
        c0
    };
    let c2 = c.push(a as int);
    assert forall|k: int| 1 <= k < c2.len() implies flow_edge(func, #[trigger] c2[k], c2[k - 1]) by {
        if k < c.len() {
            assert(c2[k] == c[k] && c2[k - 1] == c[k - 1]);
        } else {
            assert(c2[k] == a as int && c2[k - 1] == c.last());
        }
    }
    assert(escape_chain(func, c2));
    assert(c2.last() == a as int);
}


proof fn lemma_flow_extends_escape(func: AmirFunc, a: int, b: int)
    requires
        flow_edge(func, a, b),
        can_escape(func, b),
    ensures
        can_escape(func, a),
{
    let c = choose|c: Seq<int>| #[trigger] escape_chain(func, c) && c.last() == b;
    let c2 = c.push(a);
    assert forall|k: int| 1 <= k < c2.len() implies flow_edge(func, #[trigger] c2[k], c2[k - 1]) by {
        if k < c.len() {
            assert(c2[k] == c[k] && c2[k - 1] == c[k - 1]);
        }
    }
    assert(escape_chain(func, c2));
    assert(c2.last() == a);
}

/// What escapes directly: a temp passed to a call, a temp stored through a
/// projection, and the return temp of a function that returns.
pub proof fn lemma_escape_roots(func: AmirFunc, p: int, a: TempId)
    requires
        0 <= p < visit_order(func).len(),
    ensures
        (func.stmts@[visit_order(func)[p] as int] matches AmirStmt::Call { args, .. } && exists|j: int|
            0 <= j < args@.len() && #[trigger] operand_temp(args@[j]) == Some(a)) ==> can_escape(func, a as int),
        (func.stmts@[visit_order(func)[p] as int] matches AmirStmt::Store { lhs, rhs } && lhs.projections@.len() > 0
            && operand_temp(rhs) == Some(a)) ==> can_escape(func, a as int),
        (func.temps@.len() > 0 && exists|k: int|
            0 <= k < func.blocks@.len() && (#[trigger] func.blocks@[k]).terminator is Return) ==> can_escape(func, 0),
{
    let vis = visit_order(func);
    let s = func.stmts@[vis[p] as int];
    if stmt_escape(s, a as int) {
        assert(escape_node(func, a as int));
        assert(escape_chain(func, seq![a as int]));
    }
    if s matches AmirStmt::Call { args, .. } && exists|j: int|
        0 <= j < args@.len() && #[trigger] operand_temp(args@[j]) == Some(a) {
        assert(stmt_escape(s, a as int));
        assert(escape_chain(func, seq![a as int]));
    }
    if func.temps@.len() > 0 && exists|k: int|
        0 <= k < func.blocks@.len() && (#[trigger] func.blocks@[k]).terminator is Return {
        assert(escape_node(func, 0));
        assert(escape_chain(func, seq![0int]));
    }
}

/// Values move through copies, projections, arithmetic and stores: when a
/// visited statement computes `lhs` from an operand reading `a` (a use, a
/// unary operator other than `await`, a binary operator, a field or element
/// read, an enum payload or discriminant, a length, an allocation, a string
/// conversion or a coroutine value), or stores `a` into a whole local, and
/// what it defines can escape, so can `a`; a load passes on what the local
/// can.
pub proof fn lemma_value_flow_passes_escape(func: AmirFunc, p: int, a: TempId, l: crate::amir::LocalId)
    requires
        0 <= p < visit_order(func).len(),
    ensures
        (func.stmts@[visit_order(func)[p] as int] matches AmirStmt::Assign { lhs, rhs } && (rhs is Use
            || (rhs matches AmirRvalue::Unary { op, .. } && op != UnaryOp::Await) || rhs is Binary || rhs is FieldAccess
            || rhs is IndexAccess || rhs is Discriminant || rhs is EnumPayload || rhs is Len || rhs is Alloc
            || rhs is ToStr || rhs is CoroutineReady) && uses_temp(crate::amir::rvalue_operands(rhs), a) && can_escape(
            func,
            lhs as int,
        )) ==> can_escape(func, a as int),
        (func.stmts@[visit_order(func)[p] as int] matches AmirStmt::Store { lhs, rhs } && operand_temp(rhs) == Some(a)
            && can_escape(func, func.temps@.len() + lhs.local)) ==> can_escape(func, a as int),
        (func.stmts@[visit_order(func)[p] as int] matches AmirStmt::Assign { lhs, rhs } && rhs matches AmirRvalue::Load(
            pl,
        ) && pl.local == l && can_escape(func, lhs as int)) ==> can_escape(func, func.temps@.len() + l),
{
    let vis = visit_order(func);
    let s = func.stmts@[vis[p] as int];
    let nt = func.temps@.len();
    match s {
        AmirStmt::Assign { lhs, rhs } => {
            if (rhs is Use || (rhs matches AmirRvalue::Unary { op, .. } && op != UnaryOp::Await) || rhs is Binary
                || rhs is FieldAccess || rhs is IndexAccess || rhs is Discriminant || rhs is EnumPayload || rhs is Len
                || rhs is Alloc || rhs is ToStr || rhs is CoroutineReady) && uses_temp(
                crate::amir::rvalue_operands(rhs),
                a,
            ) && can_escape(func, lhs as int) {
                assert(flow_from(s, nt, a as int));
                assert(flow_target(s, nt) == Some(lhs as int));
                assert(flow_edge(func, a as int, lhs as int));
                lemma_flow_extends_escape(func, a as int, lhs as int);
            }
            if rhs matches AmirRvalue::Load(pl) && can_escape(func, lhs as int) {
                let pl = rhs->Load_0;
                assert(flow_from(s, nt, nt + pl.local));
                assert(flow_target(s, nt) == Some(lhs as int));
                assert(flow_edge(func, nt + pl.local, lhs as int));
                lemma_flow_extends_escape(func, nt + pl.local, lhs as int);
            }
        },
        AmirStmt::Store { lhs, rhs } => {
            if operand_temp(rhs) == Some(a) && can_escape(func, nt + lhs.local) {
                assert(flow_from(s, nt, a as int));
                assert(flow_target(s, nt) == Some(nt + lhs.local));
                assert(flow_edge(func, a as int, nt + lhs.local));
                lemma_flow_extends_escape(func, a as int, nt + lhs.local);
            }
        },
        _ => {},
    }
}


/// Values move along jumps: when a `Goto` passes temp `a` as argument `j`
/// of its target, and parameter `j` of the target can escape, so can `a`.
pub proof fn lemma_jump_passes_escape(func: AmirFunc, k: int, j: int, a: TempId)
    requires
        0 <= k < func.blocks@.len(),
        func.blocks@[k].terminator matches AmirTerminator::Goto { target, args } && 0 <= j < args@.len() && j
            < func.block_params_spec(target as int).len() && operand_temp(args@[j]) == Some(a) && can_escape(
            func,
            func.block_params_spec(target as int)[j].id as int,
        ),
    ensures
        can_escape(func, a as int),
{
    let t = func.blocks@[k].terminator;
    let target = t->Goto_target;
    let args = t->Goto_args;
    let b = func.block_params_spec(target as int)[j].id as int;
    assert(jumps(t)[0] == (target, args@));
    assert(operand_temp(args@[j]) == Some(a));
    assert(pair_flow(func, target, args@, a as int, b));
    assert(pair_flow(func, jumps(func.blocks@[k].terminator)[0].0, jumps(func.blocks@[k].terminator)[0].1, a as int, b));
    assert(jumps(func.blocks@[k].terminator).len() == 1);
    assert(flow_edge(func, a as int, b));
    lemma_flow_extends_escape(func, a as int, b);
}

} // verus!
