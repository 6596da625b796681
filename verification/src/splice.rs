//! Splicing a callee body into a caller at a call site: the caller block is
//! split at the call, the callee's blocks are appended with fresh temps and
//! locals, its returns jump to a new resume block that holds the rest of
//! the split block.

use vstd::prelude::*;
use crate::amir::{
    AmirBasicBlock, AmirFunc, AmirLocal, AmirOperand, AmirRvalue, AmirStmt, AmirTemp, AmirTerminator, BlockId,
    BlockParam, DenseRange, InstrId, LocalId, Span, TempId, TypeId, blocks_targets_in_range, cfg_matches,
    compute_cfg_edges, operands_ok, stmt_ok, terminator_operands, targets_in_range,
};
use crate::remap::{
    lemma_remapped_ops_ok, lemma_remapped_stmt_ok, lemma_remapped_targets, lemma_remapped_terminator_operands,
    remap_stmt, remap_terminator, stmt_mappable, stmt_remapped, terminator_remapped,
};

verus! {

/// The call statement `id` lies in block `bid` of `caller`.
pub open spec fn call_site_found(caller: AmirFunc, bid: BlockId, id: InstrId) -> bool {
    &&& bid < caller.blocks@.len()
    &&& caller.blocks@[bid as int].statements.start <= id
    &&& id < caller.blocks@[bid as int].statements.end()
}

/// The splice goes ahead as far as adding the callee's temps and locals: the
/// call site is found and the callee takes as many parameters as are passed.
pub open spec fn splice_applies(caller: AmirFunc, bid: BlockId, id: InstrId, nargs: nat, callee: AmirFunc) -> bool {
    callee.params@.len() == nargs && call_site_found(caller, bid, id)
}

/// The span of the caller's first parameter temp (temp 0 when it has none).
pub open spec fn splice_span(caller: AmirFunc) -> Span {
    let t = if caller.params@.len() > 0 {
        caller.params@[0] as int
    } else {
        0
    };
    caller.temps@[t].span
}

/// The caller temp that receives the callee's return register.
pub open spec fn return_dest(nt: nat, lhs: Option<TempId>) -> TempId {
    match lhs {
        Some(t) => t,
        None => nt as usize,
    }
}

/// The first caller temp id given to the callee's other temps.
pub open spec fn fresh_temp_base(nt: nat, lhs: Option<TempId>) -> nat {
    if lhs is Some {
        nt
    } else {
        nt + 1
    }
}

/// Callee temp `k` becomes caller temp `splice_temp_map(..)[k]`: the return
/// register goes to the call's result, the others to fresh temps.
pub open spec fn splice_temp_map(nt: nat, callee_nt: nat, lhs: Option<TempId>) -> Seq<TempId> {
    Seq::new(
        if callee_nt == 0 {
            1
        } else {
            callee_nt
        },
        |k: int|
            if k == 0 {
                return_dest(nt, lhs)
            } else {
                (fresh_temp_base(nt, lhs) + k - 1) as usize
            },
    )
}

/// Callee local `k` becomes caller local `nl + k`.
pub open spec fn splice_local_map(nl: nat, callee_nl: nat) -> Seq<LocalId> {
    Seq::new(callee_nl, |k: int| (nl + k) as usize)
}

/// Callee block `k` becomes caller block `nb + k`.
pub open spec fn splice_block_map(nb: nat, ncb: nat) -> Seq<BlockId> {
    Seq::new(ncb, |k: int| (nb + k) as usize)
}

/// The temp that receives a result the call site does not keep.
pub open spec fn result_temp(nt: nat, ty: TypeId, span: Span) -> AmirTemp {
    AmirTemp { id: nt as usize, ty, is_copy: true, is_nullable: false, span }
}

/// A callee temp moved into the caller under id `id`.
pub open spec fn inlined_temp(t: AmirTemp, id: nat) -> AmirTemp {
    AmirTemp { id: id as usize, ty: t.ty, is_copy: t.is_copy, is_nullable: t.is_nullable, span: t.span }
}

/// The caller's temps once the callee's are added: a result temp when the
/// call keeps no result, then every callee temp but the return register.
pub open spec fn spliced_temps(temps: Seq<AmirTemp>, callee: AmirFunc, lhs: Option<TempId>, span: Span) -> Seq<AmirTemp> {
    let head = if lhs is None {
        temps.push(result_temp(temps.len(), callee.return_type, span))
    } else {
        temps
    };
    let n: nat = if callee.temps@.len() == 0 {
        0
    } else {
        (callee.temps@.len() - 1) as nat
    };
    head + Seq::new(n, |k: int| inlined_temp(callee.temps@[k + 1], (head.len() + k) as nat))
}

/// A callee local moved into the caller under id `id`; it names no source
/// symbol there.
pub open spec fn inlined_local(l: AmirLocal, id: nat) -> AmirLocal {
    AmirLocal { id: id as usize, ty: l.ty, is_memory: l.is_memory, symbol: None, span: l.span, use_span: None }
}

/// The caller's locals once the callee's are added.
pub open spec fn spliced_locals(locals: Seq<AmirLocal>, callee: AmirFunc) -> Seq<AmirLocal> {
    locals + Seq::new(callee.locals@.len(), |k: int| inlined_local(callee.locals@[k], (locals.len() + k) as nat))
}

/// `dst[i]` is `src[i]` with temps and locals renamed, for every `i`.
pub open spec fn stmts_remapped_from(src: Seq<AmirStmt>, dst: Seq<AmirStmt>, tm: Seq<TempId>, lm: Seq<LocalId>) -> bool {
    &&& dst.len() == src.len()
    &&& forall|i: int| 0 <= i < dst.len() ==> stmt_remapped(src[i], #[trigger] dst[i], tm, lm)
}

/// A block parameter of the callee, renamed for the caller.
pub open spec fn param_remapped(old: BlockParam, new: BlockParam, tm: Seq<TempId>, lm: Seq<LocalId>) -> bool {
    new == BlockParam { id: tm[old.id as int], local: lm[old.local as int], ty: old.ty, moved: old.moved }
}

/// The statements of block `k` in a layout of blocks over a statement table.
pub open spec fn layout_stmts(bs: Seq<AmirBasicBlock>, ss: Seq<AmirStmt>, k: int) -> Seq<AmirStmt> {
    ss.subrange(bs[k].statements.start as int, bs[k].statements.start + bs[k].statements.len)
}

/// The parameters of block `k` in a layout of blocks over a parameter table.
pub open spec fn layout_params(bs: Seq<AmirBasicBlock>, ps: Seq<BlockParam>, k: int) -> Seq<BlockParam> {
    ps.subrange(bs[k].params.start as int, bs[k].params.start + bs[k].params.len)
}

/// Block ids are positions, each block's ranges start where the previous
/// block's end, and the last block ends both tables.
pub open spec fn blocks_packed(bs: Seq<AmirBasicBlock>, ns: nat, np: nat) -> bool {
    &&& forall|k: int| 0 <= k < bs.len() ==> #[trigger] bs[k].id == k
    &&& forall|k: int|
        0 <= k < bs.len() ==> (#[trigger] bs[k]).statements.end() <= ns && bs[k].params.end() <= np
    &&& bs.len() == 0 ==> ns == 0 && np == 0
    &&& bs.len() > 0 ==> {
        &&& bs[0].statements.start == 0
        &&& bs[0].params.start == 0
        &&& bs.last().statements.end() == ns
        &&& bs.last().params.end() == np
    }
    &&& forall|i: int, j: int|
        #![trigger bs[i], bs[j]]
        0 <= i && j == i + 1 && j < bs.len() ==> bs[i].statements.end() == bs[j].statements.start
            && bs[i].params.end() == bs[j].params.start
}

/// Caller block `k`, away from the call, is copied as it was.
pub open spec fn kept_block(
    c: AmirFunc,
    k: int,
    blk: AmirBasicBlock,
    stmts: Seq<AmirStmt>,
    params: Seq<BlockParam>,
    tm: Seq<TempId>,
    lm: Seq<LocalId>,
    bm: Seq<BlockId>,
) -> bool {
    &&& stmts_remapped_from(c.block_stmts_spec(k), stmts, tm, lm)
    &&& params == c.block_params_spec(k)
    &&& terminator_remapped(c.blocks@[k].terminator, blk.terminator, tm, bm, None)
}

/// The block of the call keeps the statements before the call, then passes
/// each argument to the renamed parameter temp and jumps to the callee's
/// entry block.
pub open spec fn head_block(
    c: AmirFunc,
    bid: int,
    id: int,
    blk: AmirBasicBlock,
    stmts: Seq<AmirStmt>,
    params: Seq<BlockParam>,
    callee: AmirFunc,
    args: Seq<AmirOperand>,
    tm: Seq<TempId>,
    lm: Seq<LocalId>,
    ctm: Seq<TempId>,
) -> bool {
    let start = c.blocks@[bid].statements.start as int;
    let split = id - start;
    let np = callee.params@.len();
    &&& stmts.len() == split + np
    &&& stmts_remapped_from(c.stmts@.subrange(start, id), stmts.take(split), tm, lm)
    &&& forall|p: int|
        0 <= p < np ==> stmts[split + p] == AmirStmt::Assign {
            lhs: ctm[callee.params@[p] as int],
            rhs: AmirRvalue::Use(#[trigger] args[p]),
        }
    &&& params == c.block_params_spec(bid)
    &&& match blk.terminator {
        AmirTerminator::Goto { target, args: jump_args } => target == c.blocks@.len() && jump_args@.len() == 0,
        _ => false,
    }
}

/// Callee block `i`, renamed; its returns jump to `resume`.
pub open spec fn inlined_block(
    callee: AmirFunc,
    i: int,
    blk: AmirBasicBlock,
    stmts: Seq<AmirStmt>,
    params: Seq<BlockParam>,
    tm: Seq<TempId>,
    lm: Seq<LocalId>,
    bm: Seq<BlockId>,
    resume: BlockId,
) -> bool {
    let cp = callee.block_params_spec(i);
    &&& stmts_remapped_from(callee.block_stmts_spec(i), stmts, tm, lm)
    &&& params.len() == cp.len()
    &&& forall|j: int| 0 <= j < params.len() ==> param_remapped(cp[j], #[trigger] params[j], tm, lm)
    &&& terminator_remapped(callee.blocks@[i].terminator, blk.terminator, tm, bm, Some(resume))
}

/// The resume block holds the statements after the call and the call
/// block's old terminator; it has no parameters.
pub open spec fn resume_block(
    c: AmirFunc,
    bid: int,
    id: int,
    blk: AmirBasicBlock,
    stmts: Seq<AmirStmt>,
    params: Seq<BlockParam>,
    tm: Seq<TempId>,
    lm: Seq<LocalId>,
    bm: Seq<BlockId>,
) -> bool {
    &&& stmts_remapped_from(c.stmts@.subrange(id + 1, c.blocks@[bid].statements.end()), stmts, tm, lm)
    &&& params.len() == 0
    &&& terminator_remapped(c.blocks@[bid].terminator, blk.terminator, tm, bm, None)
}

/// The ids `0 .. n`, each mapped to itself.
pub open spec fn identity(n: nat) -> Seq<usize> {
    Seq::new(n, |i: int| i as usize)
}

fn identity_vec(n: usize) -> (v: Vec<usize>)
    ensures
        v@ == identity(n as nat),
{
    let mut v: Vec<usize> = Vec::new();
    let mut i: usize = 0;
    while i < n
        invariant
            i <= n,
            v@ == identity(i as nat),
        decreases n - i,
    {
        v.push(i);
        proof {
            assert(v@ =~= identity((i + 1) as nat));
        }
        i = i + 1;
    }
    v
}

/// `dst[at ..]` holds, for each statement of `src[lo .. lo + len]`, its copy
/// with temps and locals renamed.
pub open spec fn stmts_remapped_at(
    src: Seq<AmirStmt>,
    lo: int,
    dst: Seq<AmirStmt>,
    at: int,
    len: int,
    tm: Seq<TempId>,
    lm: Seq<LocalId>,
) -> bool {
    forall|i: int| at <= i < at + len ==> stmt_remapped(src[lo + (i - at)], #[trigger] dst[i], tm, lm)
}

/// Appends the renamed copies of `src[lo .. hi]`.
fn remap_range(
    src: &Vec<AmirStmt>,
    lo: usize,
    hi: usize,
    temp_map: &Vec<TempId>,
    local_map: &Vec<LocalId>,
    out: &mut Vec<AmirStmt>,
)
    requires
        lo <= hi <= src@.len(),
        forall|i: int| lo <= i < hi ==> stmt_mappable(#[trigger] src@[i], temp_map@.len(), local_map@.len()),
    ensures
        final(out)@.len() == old(out)@.len() + (hi - lo),
        forall|i: int| 0 <= i < old(out)@.len() ==> #[trigger] final(out)@[i] == old(out)@[i],
        stmts_remapped_at(src@, lo as int, final(out)@, old(out)@.len() as int, hi - lo, temp_map@, local_map@),
{
    let ghost base = out@;
    let mut k: usize = lo;
    while k < hi
        invariant
            lo <= k <= hi <= src@.len(),
            forall|i: int| lo <= i < hi ==> stmt_mappable(#[trigger] src@[i], temp_map@.len(), local_map@.len()),
            out@.len() == base.len() + (k - lo),
            forall|i: int| 0 <= i < base.len() ==> #[trigger] out@[i] == base[i],
            stmts_remapped_at(src@, lo as int, out@, base.len() as int, k - lo, temp_map@, local_map@),
        decreases hi - k,
    {
        let s = remap_stmt(&src[k], temp_map, local_map);
        out.push(s);
        k = k + 1;
    }
}

/// Some block of `func` suspends: such a body cannot be spliced.
pub open spec fn spec_has_suspend(func: AmirFunc) -> bool {
    exists|b: int| 0 <= b < func.blocks@.len() && (#[trigger] func.blocks@[b]).terminator is Suspend
}

fn has_suspend(func: &AmirFunc) -> (r: bool)
    ensures
        r == spec_has_suspend(*func),
{
    let n = func.blocks.len();
    let mut b: usize = 0;
    while b < n
        invariant
            n == func.blocks@.len(),
            b <= n,
            forall|k: int| 0 <= k < b ==> !((#[trigger] func.blocks@[k]).terminator is Suspend),
        decreases n - b,
    {
        match func.blocks[b].terminator {
            AmirTerminator::Suspend { .. } => {
                return true;
            },
            _ => {},
        }
        b = b + 1;
    }
    false
}


/// Operand validity only gets easier with more temps.
proof fn lemma_operands_ok_mono(ops: Seq<AmirOperand>, a: nat, b: nat)
    requires
        a <= b,
        operands_ok(ops, a),
    ensures
        operands_ok(ops, b),
{
    assert forall|i: int| 0 <= i < ops.len() implies crate::amir::operand_ok(#[trigger] ops[i], b) by {
        assert(crate::amir::operand_ok(ops[i], a));
    }
}

/// A valid statement can be renamed by maps that cover its temps and locals.
proof fn lemma_stmt_mappable(s: AmirStmt, nt: nat, nl: nat, mt: nat, ml: nat)
    requires
        stmt_ok(s, nt, nl),
        nt <= mt,
        nl <= ml,
    ensures
        stmt_mappable(s, mt, ml),
{
    lemma_operands_ok_mono(crate::amir::stmt_operands(s), nt, mt);
}

/// `stmts_remapped_at` over a window read as a relation of subranges.
proof fn lemma_remapped_window(
    src: Seq<AmirStmt>,
    lo: int,
    hi: int,
    dst: Seq<AmirStmt>,
    at: int,
    tm: Seq<TempId>,
    lm: Seq<LocalId>,
)
    requires
        0 <= lo <= hi <= src.len(),
        0 <= at,
        at + (hi - lo) <= dst.len(),
        stmts_remapped_at(src, lo, dst, at, hi - lo, tm, lm),
    ensures
        stmts_remapped_from(src.subrange(lo, hi), dst.subrange(at, at + (hi - lo)), tm, lm),
{
    let a = src.subrange(lo, hi);
    let b = dst.subrange(at, at + (hi - lo));
    assert forall|i: int| 0 <= i < b.len() implies stmt_remapped(a[i], #[trigger] b[i], tm, lm) by {
        assert(b[i] == dst[at + i]);
        assert(a[i] == src[lo + i]);
        assert(stmt_remapped(src[lo + ((at + i) - at)], dst[at + i], tm, lm));
    }
}

/// Appending a block whose ranges cover the new tail of both tables keeps
/// the layout packed.
proof fn lemma_packed_push(
    bs: Seq<AmirBasicBlock>,
    ns: nat,
    np: nat,
    blk: AmirBasicBlock,
    ns2: nat,
    np2: nat,
)
    requires
        blocks_packed(bs, ns, np),
        blk.id == bs.len(),
        blk.statements.start == ns,
        blk.statements.end() == ns2,
        blk.params.start == np,
        blk.params.end() == np2,
    ensures
        blocks_packed(bs.push(blk), ns2, np2),
{
    let bs2 = bs.push(blk);
    assert forall|k: int| 0 <= k < bs2.len() implies #[trigger] bs2[k].id == k by {
        if k < bs.len() {
            assert(bs2[k] == bs[k]);
        }
    }
    assert forall|k: int| 0 <= k < bs2.len() implies #[trigger] bs2[k].statements.end() <= ns2
        && bs2[k].params.end() <= np2 by {
        if k < bs.len() {
            assert(bs2[k] == bs[k]);
            assert(bs[k].statements.end() <= ns);
        }
    }
    assert forall|i: int, j: int|
        #![trigger bs2[i], bs2[j]]
        0 <= i && j == i + 1 && j < bs2.len() implies bs2[i].statements.end() == bs2[j].statements.start
        && bs2[i].params.end() == bs2[j].params.start by {
        if j < bs.len() {
            assert(bs2[i] == bs[i]);
            assert(bs2[j] == bs[j]);
            assert(bs[i].statements.end() == bs[j].statements.start);
        } else {
            assert(bs2[i] == bs.last());
        }
    }
}

/// Growing the tables at their ends leaves the contents of the blocks laid
/// out so far unchanged.
proof fn lemma_layout_grows(
    bs: Seq<AmirBasicBlock>,
    ss: Seq<AmirStmt>,
    ps: Seq<BlockParam>,
    bs2: Seq<AmirBasicBlock>,
    ss2: Seq<AmirStmt>,
    ps2: Seq<BlockParam>,
)
    requires
        blocks_packed(bs, ss.len(), ps.len()),
        bs.len() <= bs2.len(),
        ss.len() <= ss2.len(),
        ps.len() <= ps2.len(),
        forall|k: int| 0 <= k < bs.len() ==> #[trigger] bs2[k] == bs[k],
        forall|i: int| 0 <= i < ss.len() ==> #[trigger] ss2[i] == ss[i],
        forall|i: int| 0 <= i < ps.len() ==> #[trigger] ps2[i] == ps[i],
    ensures
        forall|k: int| 0 <= k < bs.len() ==> #[trigger] layout_stmts(bs2, ss2, k) =~= layout_stmts(bs, ss, k),
        forall|k: int| 0 <= k < bs.len() ==> #[trigger] layout_params(bs2, ps2, k) =~= layout_params(bs, ps, k),
{
    assert forall|k: int| 0 <= k < bs.len() implies #[trigger] layout_stmts(bs2, ss2, k) =~= layout_stmts(bs, ss, k) by {
        assert(bs2[k] == bs[k]);
        assert(bs[k].statements.end() <= ss.len());
    }
    assert forall|k: int| 0 <= k < bs.len() implies #[trigger] layout_params(bs2, ps2, k) =~= layout_params(bs, ps, k) by {
        assert(bs2[k] == bs[k]);
        assert(bs[k].params.end() <= ps.len());
    }
}

/// The ids `base .. base + n`, in order.
fn id_run(base: usize, n: usize) -> (v: Vec<usize>)
    requires
        base + n <= usize::MAX,
    ensures
        v@ == Seq::new(n as nat, |k: int| (base + k) as usize),
{
    let mut v: Vec<usize> = Vec::new();
    let mut i: usize = 0;
    while i < n
        invariant
            base + n <= usize::MAX,
            i <= n,
            v@ == Seq::new(i as nat, |k: int| (base + k) as usize),
        decreases n - i,
    {
        v.push(base + i);
        proof {
            assert(v@ =~= Seq::new((i + 1) as nat, |k: int| (base + k) as usize));
        }
        i = i + 1;
    }
    v
}

/// The temp renaming of a splice, as a vector.
fn make_temp_map(nt: usize, callee_nt: usize, lhs: Option<TempId>) -> (m: Vec<TempId>)
    requires
        nt + callee_nt + 1 <= usize::MAX,
    ensures
        m@ == splice_temp_map(nt as nat, callee_nt as nat, lhs),
{
    let ret = match lhs {
        Some(t) => t,
        None => nt,
    };
    let base: usize = match lhs {
        Some(_) => nt,
        None => nt + 1,
    };
    let ghost target = splice_temp_map(nt as nat, callee_nt as nat, lhs);
    let mut m: Vec<TempId> = Vec::new();
    m.push(ret);
    let mut k: usize = 1;
    while k < callee_nt
        invariant
            nt + callee_nt + 1 <= usize::MAX,
            base == fresh_temp_base(nt as nat, lhs),
            ret == return_dest(nt as nat, lhs),
            1 <= k,
            k <= callee_nt || k == 1,
            target == splice_temp_map(nt as nat, callee_nt as nat, lhs),
            m@.len() == k,
            forall|j: int| 0 <= j < k ==> #[trigger] m@[j] == target[j],
        decreases callee_nt - k,
    {
        m.push(base + k - 1);
        k = k + 1;
    }
    proof {
        assert(m@ =~= target);
    }
    m
}

/// Appends the callee's temps to the caller's, as `spliced_temps` says.
fn extend_temps(temps: &mut Vec<AmirTemp>, callee: &AmirFunc, lhs: Option<TempId>, span: Span)
    requires
        old(temps)@.len() + callee.temps@.len() + 1 <= usize::MAX,
    ensures
        final(temps)@ == spliced_temps(old(temps)@, *callee, lhs, span),
{
    let ghost t0 = temps@;
    if lhs.is_none() {
        let id = temps.len();
        temps.push(AmirTemp { id, ty: callee.return_type, is_copy: true, is_nullable: false, span });
    }
    let ghost head = temps@;
    assert(head == (if lhs is None {
        t0.push(result_temp(t0.len(), callee.return_type, span))
    } else {
        t0
    }));
    let n = callee.temps.len();
    let mut k: usize = 1;
    while k < n
        invariant
            t0.len() + n + 1 <= usize::MAX,
            n == callee.temps@.len(),
            head.len() <= t0.len() + 1,
            1 <= k,
            k <= n || k == 1,
            temps@ == head + Seq::new((k - 1) as nat, |j: int| inlined_temp(callee.temps@[j + 1], (head.len() + j) as nat)),
        decreases n - k,
    {
        let t = callee.temps[k];
        let id = temps.len();
        temps.push(AmirTemp { id, ty: t.ty, is_copy: t.is_copy, is_nullable: t.is_nullable, span: t.span });
        proof {
            assert(temps@ =~= head + Seq::new(k as nat, |j: int| inlined_temp(callee.temps@[j + 1], (head.len() + j) as nat)));
        }
        k = k + 1;
    }
    proof {
        let m: nat = if n == 0 { 0 } else { (n - 1) as nat };
        assert(temps@ =~= head + Seq::new(m, |j: int| inlined_temp(callee.temps@[j + 1], (head.len() + j) as nat)));
    }
}

/// Appends the callee's locals to the caller's, as `spliced_locals` says.
fn extend_locals(locals: &mut Vec<AmirLocal>, callee: &AmirFunc)
    requires
        old(locals)@.len() + callee.locals@.len() <= usize::MAX,
    ensures
        final(locals)@ == spliced_locals(old(locals)@, *callee),
{
    let ghost l0 = locals@;
    let n = callee.locals.len();
    let mut k: usize = 0;
    while k < n
        invariant
            l0.len() + n <= usize::MAX,
            n == callee.locals@.len(),
            k <= n,
            locals@ == l0 + Seq::new(k as nat, |j: int| inlined_local(callee.locals@[j], (l0.len() + j) as nat)),
        decreases n - k,
    {
        let l = callee.locals[k];
        let id = locals.len();
        locals.push(AmirLocal { id, ty: l.ty, is_memory: l.is_memory, symbol: None, span: l.span, use_span: None });
        proof {
            assert(locals@ =~= l0 + Seq::new((k + 1) as nat, |j: int| inlined_local(callee.locals@[j], (l0.len() + j) as nat)));
        }
        k = k + 1;
    }
}

/// Appends `src[lo .. hi]`.
fn copy_params(src: &Vec<BlockParam>, lo: usize, hi: usize, out: &mut Vec<BlockParam>)
    requires
        lo <= hi <= src@.len(),
    ensures
        final(out)@ == old(out)@ + src@.subrange(lo as int, hi as int),
{
    let ghost base = out@;
    let mut k: usize = lo;
    while k < hi
        invariant
            lo <= k <= hi <= src@.len(),
            out@ == base + src@.subrange(lo as int, k as int),
        decreases hi - k,
    {
        out.push(src[k]);
        proof {
            assert(out@ =~= base + src@.subrange(lo as int, k + 1));
        }
        k = k + 1;
    }
}

/// Appends the renamed copies of the parameters `src[lo .. hi]`.
fn remap_params(
    src: &Vec<BlockParam>,
    lo: usize,
    hi: usize,
    tm: &Vec<TempId>,
    lm: &Vec<LocalId>,
    out: &mut Vec<BlockParam>,
)
    requires
        lo <= hi <= src@.len(),
        forall|i: int| lo <= i < hi ==> (#[trigger] src@[i]).id < tm@.len() && src@[i].local < lm@.len(),
    ensures
        final(out)@.len() == old(out)@.len() + (hi - lo),
        forall|i: int| 0 <= i < old(out)@.len() ==> #[trigger] final(out)@[i] == old(out)@[i],
        forall|i: int|
            old(out)@.len() <= i < final(out)@.len() ==> param_remapped(
                src@[lo + (i - old(out)@.len())],
                #[trigger] final(out)@[i],
                tm@,
                lm@,
            ),
{
    let ghost base = out@;
    let mut k: usize = lo;
    while k < hi
        invariant
            lo <= k <= hi <= src@.len(),
            forall|i: int| lo <= i < hi ==> (#[trigger] src@[i]).id < tm@.len() && src@[i].local < lm@.len(),
            out@.len() == base.len() + (k - lo),
            forall|i: int| 0 <= i < base.len() ==> #[trigger] out@[i] == base[i],
            forall|i: int|
                base.len() <= i < out@.len() ==> param_remapped(src@[lo + (i - base.len())], #[trigger] out@[i], tm@, lm@),
        decreases hi - k,
    {
        let bp = src[k];
        assert(src@[k as int].id < tm@.len());
        out.push(BlockParam { id: tm[bp.id], local: lm[bp.local], ty: bp.ty, moved: bp.moved });
        k = k + 1;
    }
}

/// Appends, for each callee parameter, the statement that hands it the
/// matching call argument.
fn push_arg_assigns(callee: &AmirFunc, args: &[AmirOperand], ctm: &Vec<TempId>, out: &mut Vec<AmirStmt>)
    requires
        callee.params@.len() == args@.len(),
        forall|p: int| 0 <= p < callee.params@.len() ==> (#[trigger] callee.params@[p]) < ctm@.len(),
    ensures
        final(out)@.len() == old(out)@.len() + args@.len(),
        forall|i: int| 0 <= i < old(out)@.len() ==> #[trigger] final(out)@[i] == old(out)@[i],
        forall|p: int|
            0 <= p < args@.len() ==> final(out)@[old(out)@.len() + p] == (AmirStmt::Assign {
                lhs: ctm@[callee.params@[p] as int],
                rhs: AmirRvalue::Use(#[trigger] args@[p]),
            }),
{
    let ghost base = out@;
    let n = args.len();
    let mut p: usize = 0;
    while p < n
        invariant
            n == args@.len(),
            callee.params@.len() == args@.len(),
            forall|q: int| 0 <= q < callee.params@.len() ==> (#[trigger] callee.params@[q]) < ctm@.len(),
            p <= n,
            out@.len() == base.len() + p,
            forall|i: int| 0 <= i < base.len() ==> #[trigger] out@[i] == base[i],
            forall|q: int|
                0 <= q < p ==> out@[base.len() + q] == (AmirStmt::Assign {
                    lhs: ctm@[callee.params@[q] as int],
                    rhs: AmirRvalue::Use(#[trigger] args@[q]),
                }),
        decreases n - p,
    {
        let t = callee.params[p];
        assert(callee.params@[p as int] < ctm@.len());
        let ghost before = out@;
        out.push(AmirStmt::Assign { lhs: ctm[t], rhs: AmirRvalue::Use(args[p]) });
        proof {
            assert forall|q: int| 0 <= q < p + 1 implies out@[base.len() + q] == AmirStmt::Assign {
                lhs: ctm@[callee.params@[q] as int],
                rhs: AmirRvalue::Use(#[trigger] args@[q]),
            } by {
                if q < p {
                    assert(out@[base.len() + q] == before[base.len() + q]);
                }
            }
        }
        p = p + 1;
    }
}


/// Lays out the caller's blocks again: every block but `bid` is copied, and
/// `bid` keeps the statements before the call, then hands the arguments to
/// the callee's parameters and jumps to the first block after the caller's.
fn push_caller_blocks(
    c: &AmirFunc,
    bid: BlockId,
    id: InstrId,
    callee: &AmirFunc,
    args: &[AmirOperand],
    ctm: &Vec<TempId>,
    it: &Vec<TempId>,
    il: &Vec<LocalId>,
    ib: &Vec<BlockId>,
    bs: &mut Vec<AmirBasicBlock>,
    ss: &mut Vec<AmirStmt>,
    ps: &mut Vec<BlockParam>,
)
    requires
        c.wf_body(),
        call_site_found(*c, bid, id),
        callee.params@.len() == args@.len(),
        forall|p: int| 0 <= p < callee.params@.len() ==> (#[trigger] callee.params@[p]) < ctm@.len(),
        it@ == identity(c.temps@.len()),
        il@ == identity(c.locals@.len()),
        ib@ == identity(c.blocks@.len()),
        old(bs)@.len() == 0,
        old(ss)@.len() == 0,
        old(ps)@.len() == 0,
    ensures
        final(bs)@.len() == c.blocks@.len(),
        blocks_packed(final(bs)@, final(ss)@.len(), final(ps)@.len()),
        forall|k: int|
            0 <= k < c.blocks@.len() && k != bid ==> kept_block(
                *c,
                k,
                #[trigger] final(bs)@[k],
                layout_stmts(final(bs)@, final(ss)@, k),
                layout_params(final(bs)@, final(ps)@, k),
                it@,
                il@,
                ib@,
            ),
        head_block(
            *c,
            bid as int,
            id as int,
            final(bs)@[bid as int],
            layout_stmts(final(bs)@, final(ss)@, bid as int),
            layout_params(final(bs)@, final(ps)@, bid as int),
            *callee,
            args@,
            it@,
            il@,
            ctm@,
        ),
{
    let nb = c.blocks.len();
    let mut b: usize = 0;
    while b < nb
        invariant
            c.wf_body(),
            call_site_found(*c, bid, id),
            callee.params@.len() == args@.len(),
            forall|p: int| 0 <= p < callee.params@.len() ==> (#[trigger] callee.params@[p]) < ctm@.len(),
            it@ == identity(c.temps@.len()),
            il@ == identity(c.locals@.len()),
            ib@ == identity(c.blocks@.len()),
            nb == c.blocks@.len(),
            b <= nb,
            bs@.len() == b,
            blocks_packed(bs@, ss@.len(), ps@.len()),
            forall|k: int|
                0 <= k < b && k != bid ==> kept_block(
                    *c,
                    k,
                    #[trigger] bs@[k],
                    layout_stmts(bs@, ss@, k),
                    layout_params(bs@, ps@, k),
                    it@,
                    il@,
                    ib@,
                ),
            bid < b ==> head_block(
                *c,
                bid as int,
                id as int,
                bs@[bid as int],
                layout_stmts(bs@, ss@, bid as int),
                layout_params(bs@, ps@, bid as int),
                *callee,
                args@,
                it@,
                il@,
                ctm@,
            ),
        decreases nb - b,
    {
        let ghost bs0 = bs@;
        let ghost ss0 = ss@;
        let ghost ps0 = ps@;
        let s_start = ss.len();
        let p_start = ps.len();
        let r = c.blocks[b].statements;
        let pr = c.blocks[b].params;
        let n_stmts = c.stmts.len();
        let n_params = c.block_params.len();
        assert(c.block_ranges_ok(b as int));
        proof {
            assert forall|i: int| r.start <= i < r.start + r.len implies stmt_mappable(
                #[trigger] c.stmts@[i],
                it@.len(),
                il@.len(),
            ) by {
                lemma_stmt_mappable(c.stmts@[i], c.temps@.len(), c.locals@.len(), it@.len(), il@.len());
            }
        }
        copy_params(&c.block_params, pr.start, pr.start + pr.len, ps);
        let term;
        if b == bid {
            remap_range(&c.stmts, r.start, id, it, il, ss);
            let ghost ss1 = ss@;
            push_arg_assigns(callee, args, ctm, ss);
            term = AmirTerminator::Goto { target: nb, args: Vec::new() };
            proof {
                lemma_remapped_window(c.stmts@, r.start as int, id as int, ss1, s_start as int, it@, il@);
                assert(ss1.subrange(s_start as int, id - r.start + s_start) =~= ss@.subrange(
                    s_start as int,
                    id - r.start + s_start,
                ));
            }
        } else {
            remap_range(&c.stmts, r.start, r.start + r.len, it, il, ss);
            proof {
                assert(targets_in_range(c.blocks@[b as int].terminator, c.blocks@.len()));
            }
            term = remap_terminator(&c.blocks[b].terminator, it, ib, None);
            proof {
                lemma_remapped_window(c.stmts@, r.start as int, r.start + r.len, ss@, s_start as int, it@, il@);
            }
        }
        let ghost ss2 = ss@;
        let ghost ps2 = ps@;
        bs.push(
            AmirBasicBlock {
                id: b,
                statements: DenseRange::new(s_start, ss.len() - s_start),
                params: DenseRange::new(p_start, ps.len() - p_start),
                terminator: term,
            },
        );
        proof {
            lemma_packed_push(bs0, ss0.len(), ps0.len(), bs@[b as int], ss@.len(), ps@.len());
            lemma_layout_grows(bs0, ss0, ps0, bs@, ss@, ps@);
            assert(bs@ == bs0.push(bs@[b as int]));
            assert(layout_params(bs@, ps@, b as int) =~= c.block_params_spec(b as int));
            assert forall|k: int| 0 <= k < b + 1 && k != bid implies kept_block(
                *c,
                k,
                #[trigger] bs@[k],
                layout_stmts(bs@, ss@, k),
                layout_params(bs@, ps@, k),
                it@,
                il@,
                ib@,
            ) by {
                if k < b {
                    assert(bs@[k] == bs0[k]);
                    assert(kept_block(*c, k, bs0[k], layout_stmts(bs0, ss0, k), layout_params(bs0, ps0, k), it@, il@, ib@));
                } else {
                    assert(layout_stmts(bs@, ss@, k) =~= ss@.subrange(s_start as int, s_start + r.len));
                }
            }
            if bid <= b {
                if bid < b {
                    assert(bs@[bid as int] == bs0[bid as int]);
                } else {
                    let st = layout_stmts(bs@, ss@, bid as int);
                    assert(st =~= ss@.subrange(s_start as int, ss@.len() as int));
                    assert(st.take(id - r.start) =~= ss@.subrange(s_start as int, id - r.start + s_start));
                    assert forall|p: int| 0 <= p < callee.params@.len() implies st[(id - r.start) + p] == (
                    AmirStmt::Assign {
                        lhs: ctm@[callee.params@[p] as int],
                        rhs: AmirRvalue::Use(#[trigger] args@[p]),
                    }) by {
                        assert(st[(id - r.start) + p] == ss@[s_start + (id - r.start) + p]);
                    }
                }
            }
        }
        b = b + 1;
    }
}


/// Lays out the callee's blocks after those already laid out, renamed by the
/// maps; their returns jump to `resume`.
fn push_inlined_blocks(
    callee: &AmirFunc,
    tm: &Vec<TempId>,
    lm: &Vec<LocalId>,
    bm: &Vec<BlockId>,
    resume: BlockId,
    bs: &mut Vec<AmirBasicBlock>,
    ss: &mut Vec<AmirStmt>,
    ps: &mut Vec<BlockParam>,
)
    requires
        callee.wf_body(),
        callee.temps@.len() <= tm@.len(),
        lm@.len() == callee.locals@.len(),
        bm@.len() == callee.blocks@.len(),
        old(bs)@.len() + callee.blocks@.len() <= usize::MAX,
        blocks_packed(old(bs)@, old(ss)@.len(), old(ps)@.len()),
    ensures
        final(bs)@.len() == old(bs)@.len() + callee.blocks@.len(),
        blocks_packed(final(bs)@, final(ss)@.len(), final(ps)@.len()),
        forall|k: int| 0 <= k < old(bs)@.len() ==> #[trigger] final(bs)@[k] == old(bs)@[k],
        forall|k: int|
            0 <= k < old(bs)@.len() ==> #[trigger] layout_stmts(final(bs)@, final(ss)@, k) == layout_stmts(
                old(bs)@,
                old(ss)@,
                k,
            ),
        forall|k: int|
            0 <= k < old(bs)@.len() ==> #[trigger] layout_params(final(bs)@, final(ps)@, k) == layout_params(
                old(bs)@,
                old(ps)@,
                k,
            ),
        forall|k: int|
            old(bs)@.len() <= k < final(bs)@.len() ==> inlined_block(
                *callee,
                k - old(bs)@.len(),
                #[trigger] final(bs)@[k],
                layout_stmts(final(bs)@, final(ss)@, k),
                layout_params(final(bs)@, final(ps)@, k),
                tm@,
                lm@,
                bm@,
                resume,
            ),
{
    let ghost bs_in = bs@;
    let ghost ss_in = ss@;
    let ghost ps_in = ps@;
    let base = bs.len();
    let ncb = callee.blocks.len();
    let mut i: usize = 0;
    while i < ncb
        invariant
            callee.wf_body(),
            callee.temps@.len() <= tm@.len(),
            lm@.len() == callee.locals@.len(),
            bm@.len() == callee.blocks@.len(),
            ncb == callee.blocks@.len(),
            base == bs_in.len(),
            base + ncb <= usize::MAX,
            blocks_packed(bs_in, ss_in.len(), ps_in.len()),
            i <= ncb,
            bs@.len() == base + i,
            ss_in.len() <= ss@.len(),
            ps_in.len() <= ps@.len(),
            blocks_packed(bs@, ss@.len(), ps@.len()),
            forall|k: int| 0 <= k < base ==> #[trigger] bs@[k] == bs_in[k],
            forall|j: int| 0 <= j < ss_in.len() ==> #[trigger] ss@[j] == ss_in[j],
            forall|j: int| 0 <= j < ps_in.len() ==> #[trigger] ps@[j] == ps_in[j],
            forall|k: int|
                base <= k < bs@.len() ==> inlined_block(
                    *callee,
                    k - base,
                    #[trigger] bs@[k],
                    layout_stmts(bs@, ss@, k),
                    layout_params(bs@, ps@, k),
                    tm@,
                    lm@,
                    bm@,
                    resume,
                ),
        decreases ncb - i,
    {
        let ghost bs0 = bs@;
        let ghost ss0 = ss@;
        let ghost ps0 = ps@;
        let s_start = ss.len();
        let p_start = ps.len();
        let r = callee.blocks[i].statements;
        let pr = callee.blocks[i].params;
        let n_stmts = callee.stmts.len();
        let n_params = callee.block_params.len();
        assert(callee.block_ranges_ok(i as int));
        proof {
            assert forall|j: int| r.start <= j < r.start + r.len implies stmt_mappable(
                #[trigger] callee.stmts@[j],
                tm@.len(),
                lm@.len(),
            ) by {
                lemma_stmt_mappable(callee.stmts@[j], callee.temps@.len(), callee.locals@.len(), tm@.len(), lm@.len());
            }
            assert forall|j: int| pr.start <= j < pr.start + pr.len implies (#[trigger] callee.block_params@[j]).id
                < tm@.len() && callee.block_params@[j].local < lm@.len() by {}
            lemma_operands_ok_mono(
                terminator_operands(callee.blocks@[i as int].terminator),
                callee.temps@.len(),
                tm@.len(),
            );
            assert(targets_in_range(callee.blocks@[i as int].terminator, callee.blocks@.len()));
        }
        remap_params(&callee.block_params, pr.start, pr.start + pr.len, tm, lm, ps);
        remap_range(&callee.stmts, r.start, r.start + r.len, tm, lm, ss);
        let term = remap_terminator(&callee.blocks[i].terminator, tm, bm, Some(resume));
        proof {
            lemma_remapped_window(callee.stmts@, r.start as int, r.start + r.len, ss@, s_start as int, tm@, lm@);
        }
        bs.push(
            AmirBasicBlock {
                id: base + i,
                statements: DenseRange::new(s_start, ss.len() - s_start),
                params: DenseRange::new(p_start, ps.len() - p_start),
                terminator: term,
            },
        );
        proof {
            let k_new = (base + i) as int;
            lemma_packed_push(bs0, ss0.len(), ps0.len(), bs@[k_new], ss@.len(), ps@.len());
            lemma_layout_grows(bs0, ss0, ps0, bs@, ss@, ps@);
            assert(bs@ == bs0.push(bs@[k_new]));
            let pl = layout_params(bs@, ps@, k_new);
            let cp = callee.block_params_spec(i as int);
            assert forall|j: int| 0 <= j < pl.len() implies param_remapped(cp[j], #[trigger] pl[j], tm@, lm@) by {
                assert(pl[j] == ps@[p_start + j]);
                assert(cp[j] == callee.block_params@[pr.start + j]);
            }
            assert forall|k: int| base <= k < bs@.len() implies inlined_block(
                *callee,
                k - base,
                #[trigger] bs@[k],
                layout_stmts(bs@, ss@, k),
                layout_params(bs@, ps@, k),
                tm@,
                lm@,
                bm@,
                resume,
            ) by {
                if k < k_new {
                    assert(bs@[k] == bs0[k]);
                    assert(inlined_block(
                        *callee,
                        k - base,
                        bs0[k],
                        layout_stmts(bs0, ss0, k),
                        layout_params(bs0, ps0, k),
                        tm@,
                        lm@,
                        bm@,
                        resume,
                    ));
                } else {
                    assert(layout_stmts(bs@, ss@, k) =~= ss@.subrange(s_start as int, s_start + r.len));
                }
            }
        }
        i = i + 1;
    }
    proof {
        lemma_layout_grows(bs_in, ss_in, ps_in, bs@, ss@, ps@);
    }
}


/// `f` is `c` with `callee` spliced in at statement `id` of block `bid`: the
/// caller's blocks keep their places, the callee's blocks follow them and
/// the resume block comes last; the edge lists match the new terminators.
pub open spec fn spliced_body(
    c: AmirFunc,
    callee: AmirFunc,
    bid: BlockId,
    id: InstrId,
    args: Seq<AmirOperand>,
    lhs: Option<TempId>,
    f: AmirFunc,
) -> bool {
    let nb = c.blocks@.len();
    let ncb = callee.blocks@.len();
    let it = identity(c.temps@.len());
    let il = identity(c.locals@.len());
    let ib = identity(nb);
    let tm = splice_temp_map(c.temps@.len(), callee.temps@.len(), lhs);
    let lm = splice_local_map(c.locals@.len(), callee.locals@.len());
    let bm = splice_block_map(nb, ncb);
    let resume = nb + ncb;
    &&& f.blocks@.len() == resume + 1
    &&& blocks_packed(f.blocks@, f.stmts@.len(), f.block_params@.len())
    &&& forall|k: int|
        0 <= k < nb && k != bid ==> kept_block(
            c,
            k,
            #[trigger] f.blocks@[k],
            f.block_stmts_spec(k),
            f.block_params_spec(k),
            it,
            il,
            ib,
        )
    &&& head_block(
        c,
        bid as int,
        id as int,
        f.blocks@[bid as int],
        f.block_stmts_spec(bid as int),
        f.block_params_spec(bid as int),
        callee,
        args,
        it,
        il,
        tm,
    )
    &&& forall|k: int|
        nb <= k < resume ==> inlined_block(
            callee,
            k - nb,
            #[trigger] f.blocks@[k],
            f.block_stmts_spec(k),
            f.block_params_spec(k),
            tm,
            lm,
            bm,
            resume as usize,
        )
    &&& resume_block(
        c,
        bid as int,
        id as int,
        f.blocks@[resume as int],
        f.block_stmts_spec(resume as int),
        f.block_params_spec(resume as int),
        it,
        il,
        ib,
    )
    &&& blocks_targets_in_range(f.blocks@)
    &&& cfg_matches(f.cfg, f.blocks@)
}

/// The parts of a function a splice does not touch beyond the temps and
/// locals: those get the callee's appended.
pub open spec fn spliced_frame(c: AmirFunc, callee: AmirFunc, lhs: Option<TempId>, f: AmirFunc) -> bool {
    &&& f.temps@ == spliced_temps(c.temps@, callee, lhs, splice_span(c))
    &&& f.locals@ == spliced_locals(c.locals@, callee)
    &&& f.symbol == c.symbol
    &&& f.return_type == c.return_type
    &&& f.receiver == c.receiver
    &&& f.params == c.params
}

/// The blocks, tables and edge lists of `f` are those of `c`.
pub open spec fn same_body(c: AmirFunc, f: AmirFunc) -> bool {
    &&& f.blocks == c.blocks
    &&& f.block_params == c.block_params
    &&& f.stmts == c.stmts
    &&& f.cfg == c.cfg
}

/// In a packed layout, statement slot `i` lies in a block at or after `j`
/// when it lies at or after the start of block `j`.
proof fn lemma_stmt_owner_from(bs: Seq<AmirBasicBlock>, ns: nat, np: nat, i: int, j: int) -> (k: int)
    requires
        blocks_packed(bs, ns, np),
        0 <= j < bs.len(),
        bs[j].statements.start <= i < ns,
    ensures
        0 <= k < bs.len(),
        bs[k].statements.start <= i < bs[k].statements.end(),
    decreases bs.len() - j,
{
    if i < bs[j].statements.end() {
        j
    } else {
        assert(j + 1 < bs.len());
        assert(bs[j].statements.end() == bs[j + 1].statements.start);
        lemma_stmt_owner_from(bs, ns, np, i, j + 1)
    }
}

/// In a packed layout, parameter slot `i` lies in a block at or after `j`
/// when it lies at or after the start of block `j`.
proof fn lemma_param_owner_from(bs: Seq<AmirBasicBlock>, ns: nat, np: nat, i: int, j: int) -> (k: int)
    requires
        blocks_packed(bs, ns, np),
        0 <= j < bs.len(),
        bs[j].params.start <= i < np,
    ensures
        0 <= k < bs.len(),
        bs[k].params.start <= i < bs[k].params.end(),
    decreases bs.len() - j,
{
    if i < bs[j].params.end() {
        j
    } else {
        assert(j + 1 < bs.len());
        assert(bs[j].params.end() == bs[j + 1].params.start);
        lemma_param_owner_from(bs, ns, np, i, j + 1)
    }
}

/// The renamings of a splice send every id below the caller's new counts.
proof fn lemma_splice_maps_bounded(c: AmirFunc, callee: AmirFunc, lhs: Option<TempId>, f: AmirFunc)
    requires
        spliced_frame(c, callee, lhs, f),
        result_fits(lhs, c.temps@.len()),
    ensures
        c.temps@.len() <= f.temps@.len(),
        c.locals@.len() <= f.locals@.len(),
        forall|i: int|
            0 <= i < splice_temp_map(c.temps@.len(), callee.temps@.len(), lhs).len() ==> #[trigger] splice_temp_map(
                c.temps@.len(),
                callee.temps@.len(),
                lhs,
            )[i] < f.temps@.len(),
        forall|i: int|
            0 <= i < splice_local_map(c.locals@.len(), callee.locals@.len()).len() ==> #[trigger] splice_local_map(
                c.locals@.len(),
                callee.locals@.len(),
            )[i] < f.locals@.len(),
        forall|i: int| 0 <= i < identity(c.temps@.len()).len() ==> #[trigger] identity(c.temps@.len())[i] < f.temps@.len(),
        forall|i: int|
            0 <= i < identity(c.locals@.len()).len() ==> #[trigger] identity(c.locals@.len())[i] < f.locals@.len(),
{
}

/// Every statement of a spliced body is valid.
proof fn lemma_spliced_stmts_ok(
    c: AmirFunc,
    callee: AmirFunc,
    bid: BlockId,
    id: InstrId,
    args: Seq<AmirOperand>,
    lhs: Option<TempId>,
    f: AmirFunc,
)
    requires
        c.wf_body(),
        callee.wf_body(),
        splice_applies(c, bid, id, args.len(), callee),
        spliced_body(c, callee, bid, id, args, lhs, f),
        spliced_frame(c, callee, lhs, f),
        result_fits(lhs, c.temps@.len()),
        operands_ok(args, c.temps@.len()),
    ensures
        forall|i: int| 0 <= i < f.stmts@.len() ==> stmt_ok(#[trigger] f.stmts@[i], f.temps@.len(), f.locals@.len()),
{
    let nt = f.temps@.len();
    let nl = f.locals@.len();
    let nb = c.blocks@.len();
    let ncb = callee.blocks@.len();
    let it = identity(c.temps@.len());
    let il = identity(c.locals@.len());
    let tm = splice_temp_map(c.temps@.len(), callee.temps@.len(), lhs);
    let lm = splice_local_map(c.locals@.len(), callee.locals@.len());
    lemma_splice_maps_bounded(c, callee, lhs, f);
    assert forall|i: int| 0 <= i < f.stmts@.len() implies stmt_ok(#[trigger] f.stmts@[i], nt, nl) by {
        let k = lemma_stmt_owner_from(f.blocks@, f.stmts@.len(), f.block_params@.len(), i, 0);
        let st = f.block_stmts_spec(k);
        let j = i - f.blocks@[k].statements.start;
        assert(st[j] == f.stmts@[i]);
        if k < nb && k != bid {
            let src = c.block_stmts_spec(k);
            assert(c.block_ranges_ok(k));
            assert(src[j] == c.stmts@[c.blocks@[k].statements.start + j]);
            lemma_stmt_mappable(src[j], c.temps@.len(), c.locals@.len(), it.len(), il.len());
            lemma_remapped_stmt_ok(src[j], st[j], it, il, nt, nl);
        } else if k == bid {
            let start = c.blocks@[k].statements.start as int;
            let split = id - start;
            assert(c.block_ranges_ok(k));
            if j < split {
                let src = c.stmts@.subrange(start, id as int);
                assert(st.take(split)[j] == st[j]);
                assert(src[j] == c.stmts@[start + j]);
                lemma_stmt_mappable(src[j], c.temps@.len(), c.locals@.len(), it.len(), il.len());
                lemma_remapped_stmt_ok(src[j], st[j], it, il, nt, nl);
            } else {
                let p = j - split;
                assert(st[split + p] == (AmirStmt::Assign {
                    lhs: tm[callee.params@[p] as int],
                    rhs: AmirRvalue::Use(args[p]),
                }));
                assert(crate::amir::operand_ok(args[p], c.temps@.len()));
                assert(callee.params@[p] < callee.temps@.len());
                assert(crate::amir::stmt_operands(st[j]) =~= seq![args[p]]);
            }
        } else if k < nb + ncb {
            let ci = k - nb;
            let src = callee.block_stmts_spec(ci);
            assert(callee.block_ranges_ok(ci));
            assert(src[j] == callee.stmts@[callee.blocks@[ci].statements.start + j]);
            lemma_stmt_mappable(src[j], callee.temps@.len(), callee.locals@.len(), tm.len(), lm.len());
            lemma_remapped_stmt_ok(src[j], st[j], tm, lm, nt, nl);
        } else {
            let src = c.stmts@.subrange(id + 1, c.blocks@[bid as int].statements.end());
            assert(c.block_ranges_ok(bid as int));
            assert(src[j] == c.stmts@[id + 1 + j]);
            lemma_stmt_mappable(src[j], c.temps@.len(), c.locals@.len(), it.len(), il.len());
            lemma_remapped_stmt_ok(src[j], st[j], it, il, nt, nl);
        }
    }
}

/// Block parameter `i` of a spliced body is valid.
#[verifier::spinoff_prover]
proof fn lemma_spliced_param_ok(
    c: AmirFunc,
    callee: AmirFunc,
    bid: BlockId,
    id: InstrId,
    args: Seq<AmirOperand>,
    lhs: Option<TempId>,
    f: AmirFunc,
    i: int,
)
    requires
        c.wf_body(),
        callee.wf_body(),
        splice_applies(c, bid, id, args.len(), callee),
        spliced_body(c, callee, bid, id, args, lhs, f),
        spliced_frame(c, callee, lhs, f),
        result_fits(lhs, c.temps@.len()),
        0 <= i < f.block_params@.len(),
    ensures
        f.block_params@[i].id < f.temps@.len() && f.block_params@[i].local < f.locals@.len(),
{
    let nt = f.temps@.len();
    let nl = f.locals@.len();
    let nb = c.blocks@.len();
    let ncb = callee.blocks@.len();
    let it = identity(c.temps@.len());
    let il = identity(c.locals@.len());
    let ib = identity(nb);
    let tm = splice_temp_map(c.temps@.len(), callee.temps@.len(), lhs);
    let lm = splice_local_map(c.locals@.len(), callee.locals@.len());
    let bm = splice_block_map(nb, ncb);
    lemma_splice_maps_bounded(c, callee, lhs, f);
    assert(f.blocks@.len() > 0);
    assert(f.blocks@[0].params.start == 0);
    let k = lemma_param_owner_from(f.blocks@, f.stmts@.len(), f.block_params@.len(), i, 0);
    let pl = f.block_params_spec(k);
    let j = i - f.blocks@[k].params.start;
    assert(0 <= j < pl.len());
    assert(pl[j] == f.block_params@[i]);
    if k < nb {
        assert(pl == c.block_params_spec(k)) by {
            if k != bid {
                assert(kept_block(c, k, f.blocks@[k], f.block_stmts_spec(k), pl, it, il, ib));
            }
        }
        assert(c.block_ranges_ok(k));
        let x = c.blocks@[k].params.start + j;
        assert(c.block_params_spec(k)[j] == c.block_params@[x]);
        assert(c.block_params@[x].id < c.temps@.len() && c.block_params@[x].local < c.locals@.len());
    } else if k < nb + ncb {
        let ci = k - nb;
        assert(inlined_block(callee, ci, f.blocks@[k], f.block_stmts_spec(k), pl, tm, lm, bm, (nb + ncb) as usize));
        assert(callee.block_ranges_ok(ci));
        let cp = callee.block_params_spec(ci);
        let x = callee.blocks@[ci].params.start + j;
        assert(cp[j] == callee.block_params@[x]);
        assert(callee.block_params@[x].id < callee.temps@.len() && callee.block_params@[x].local
            < callee.locals@.len());
        assert(param_remapped(cp[j], pl[j], tm, lm));
        assert(tm.len() >= callee.temps@.len());
        assert(lm.len() >= callee.locals@.len());
    } else {
        assert(k == nb + ncb);
        assert(pl.len() == 0);
    }
}

/// Every block parameter and every terminator of a spliced body is valid.
#[verifier::spinoff_prover]
proof fn lemma_spliced_params_terms_ok(
    c: AmirFunc,
    callee: AmirFunc,
    bid: BlockId,
    id: InstrId,
    args: Seq<AmirOperand>,
    lhs: Option<TempId>,
    f: AmirFunc,
)
    requires
        c.wf_body(),
        callee.wf_body(),
        splice_applies(c, bid, id, args.len(), callee),
        spliced_body(c, callee, bid, id, args, lhs, f),
        spliced_frame(c, callee, lhs, f),
        result_fits(lhs, c.temps@.len()),
    ensures
        forall|i: int|
            0 <= i < f.block_params@.len() ==> #[trigger] f.block_params@[i].id < f.temps@.len()
                && f.block_params@[i].local < f.locals@.len(),
        forall|b: int|
            0 <= b < f.blocks@.len() ==> operands_ok(
                terminator_operands(#[trigger] f.blocks@[b].terminator),
                f.temps@.len(),
            ),
{
    let nt = f.temps@.len();
    let nl = f.locals@.len();
    let nb = c.blocks@.len();
    let ncb = callee.blocks@.len();
    let it = identity(c.temps@.len());
    let il = identity(c.locals@.len());
    let ib = identity(nb);
    let tm = splice_temp_map(c.temps@.len(), callee.temps@.len(), lhs);
    let lm = splice_local_map(c.locals@.len(), callee.locals@.len());
    let bm = splice_block_map(nb, ncb);
    lemma_splice_maps_bounded(c, callee, lhs, f);
    assert forall|i: int| 0 <= i < f.block_params@.len() implies #[trigger] f.block_params@[i].id < nt
        && f.block_params@[i].local < nl by {
        lemma_spliced_param_ok(c, callee, bid, id, args, lhs, f, i);
    }
    assert forall|b: int| 0 <= b < f.blocks@.len() implies operands_ok(
        terminator_operands(#[trigger] f.blocks@[b].terminator),
        nt,
    ) by {
        let t = f.blocks@[b].terminator;
        if b < nb && b != bid {
            lemma_remapped_terminator_operands(c.blocks@[b].terminator, t, it, ib, None);
            lemma_remapped_ops_ok(terminator_operands(c.blocks@[b].terminator), it, nt);
        } else if b == bid {
            assert(terminator_operands(t).len() == 0);
        } else if b < nb + ncb {
            let ci = b - nb;
            lemma_remapped_terminator_operands(callee.blocks@[ci].terminator, t, tm, bm, Some((nb + ncb) as usize));
            lemma_operands_ok_mono(terminator_operands(callee.blocks@[ci].terminator), callee.temps@.len(), tm.len());
            lemma_remapped_ops_ok(terminator_operands(callee.blocks@[ci].terminator), tm, nt);
        } else {
            lemma_remapped_terminator_operands(c.blocks@[bid as int].terminator, t, it, ib, None);
            lemma_remapped_ops_ok(terminator_operands(c.blocks@[bid as int].terminator), it, nt);
        }
    }
}

/// Splicing a valid callee into a valid caller, at a call whose result temp
/// and arguments are valid in the caller, gives a valid function.
pub proof fn lemma_splice_keeps_wf(
    c: AmirFunc,
    callee: AmirFunc,
    bid: BlockId,
    id: InstrId,
    args: Seq<AmirOperand>,
    lhs: Option<TempId>,
    f: AmirFunc,
)
    requires
        c.wf_body(),
        callee.wf_body(),
        splice_applies(c, bid, id, args.len(), callee),
        spliced_body(c, callee, bid, id, args, lhs, f),
        spliced_frame(c, callee, lhs, f),
        result_fits(lhs, c.temps@.len()),
        operands_ok(args, c.temps@.len()),
    ensures
        f.wf(),
{
    lemma_spliced_stmts_ok(c, callee, bid, id, args, lhs, f);
    lemma_spliced_params_terms_ok(c, callee, bid, id, args, lhs, f);
    lemma_splice_maps_bounded(c, callee, lhs, f);
    assert forall|b: int| 0 <= b < f.blocks@.len() implies #[trigger] f.block_ranges_ok(b) by {
        assert(f.blocks@[b].statements.end() <= f.stmts@.len());
    }
    assert forall|i: int| 0 <= i < f.params@.len() implies #[trigger] f.params@[i] < f.temps@.len() by {
        assert(c.params@[i] < c.temps@.len());
    }
}

/// The call's result temp, if it keeps one, is one of `nt` temps.
pub open spec fn result_fits(lhs: Option<TempId>, nt: nat) -> bool {
    match lhs {
        Some(t) => t < nt,
        None => true,
    }
}

/// Inlines `callee` at the call statement `call_instr_id` of block
/// `caller_bid`.  The callee's temps and locals get fresh ids in the caller
/// (its return register becomes `call_lhs`, or a new temp when the call
/// keeps no result), the block is split at the call, the callee's blocks are
/// appended after the caller's, and a resume block with the rest of the
/// split block comes last.  Nothing happens, and `false` comes back, when the
/// call site is not in the block or the arity differs; a callee that
/// suspends is refused after its temps and locals were already added.
pub fn splice_call(
    caller: &mut AmirFunc,
    caller_bid: BlockId,
    call_instr_id: InstrId,
    call_lhs: Option<TempId>,
    call_args: &[AmirOperand],
    callee: &AmirFunc,
) -> (ok: bool)
    requires
        splice_applies(*old(caller), caller_bid, call_instr_id, call_args@.len(), *callee) ==> old(caller).wf_body()
            && callee.wf_body() && callee.blocks@.len() > 0 && (old(caller).params@.len() == 0
            ==> old(caller).temps@.len() > 0),
        old(caller).temps@.len() + callee.temps@.len() + 1 <= usize::MAX,
        old(caller).locals@.len() + callee.locals@.len() <= usize::MAX,
        old(caller).blocks@.len() + callee.blocks@.len() + 1 <= usize::MAX,
    ensures
        ok == (splice_applies(*old(caller), caller_bid, call_instr_id, call_args@.len(), *callee)
            && !spec_has_suspend(*callee)),
        !splice_applies(*old(caller), caller_bid, call_instr_id, call_args@.len(), *callee) ==> *final(caller)
            == *old(caller),
        splice_applies(*old(caller), caller_bid, call_instr_id, call_args@.len(), *callee) ==> spliced_frame(
            *old(caller),
            *callee,
            call_lhs,
            *final(caller),
        ),
        splice_applies(*old(caller), caller_bid, call_instr_id, call_args@.len(), *callee) && !ok ==> same_body(
            *old(caller),
            *final(caller),
        ),
        ok ==> spliced_body(*old(caller), *callee, caller_bid, call_instr_id, call_args@, call_lhs, *final(caller)),
        ok && result_fits(call_lhs, old(caller).temps@.len()) && operands_ok(call_args@, old(caller).temps@.len())
            ==> final(caller).wf(),
{
    let ghost c = *caller;
    if callee.params.len() != call_args.len() {
        return false;
    }
    let nb = caller.blocks.len();
    if caller_bid >= nb {
        return false;
    }
    let r = caller.blocks[caller_bid].statements;
    if call_instr_id < r.start || call_instr_id - r.start >= r.len {
        return false;
    }
    let nt = caller.temps.len();
    let nl = caller.locals.len();
    let n_stmts = caller.stmts.len();
    assert(c.block_ranges_ok(caller_bid as int));
    let span = if r.start < caller.stmts.len() {
        let t = if caller.params.len() > 0 {
            caller.params[0]
        } else {
            0
        };
        caller.temps[t].span
    } else {
        Span { file_id: 0, start: 0, end: 0 }
    };
    assert(span == splice_span(c));
    let tm = make_temp_map(nt, callee.temps.len(), call_lhs);
    let lm = id_run(nl, callee.locals.len());
    if has_suspend(callee) {
        extend_temps(&mut caller.temps, callee, call_lhs, span);
        extend_locals(&mut caller.locals, callee);
        return false;
    }
    let ncb = callee.blocks.len();
    let bm = id_run(nb, ncb);
    let it = identity_vec(nt);
    let il = identity_vec(nl);
    let ib = identity_vec(nb);
    let mut bs: Vec<AmirBasicBlock> = Vec::new();
    let mut ss: Vec<AmirStmt> = Vec::new();
    let mut ps: Vec<BlockParam> = Vec::new();
    proof {
        assert forall|p: int| 0 <= p < callee.params@.len() implies (#[trigger] callee.params@[p]) < tm@.len() by {}
    }
    push_caller_blocks(&*caller, caller_bid, call_instr_id, callee, call_args, &tm, &it, &il, &ib, &mut bs, &mut ss, &mut ps);
    let resume = nb + ncb;
    let ghost bs1 = bs@;
    let ghost ss1 = ss@;
    let ghost ps1 = ps@;
    push_inlined_blocks(callee, &tm, &lm, &bm, resume, &mut bs, &mut ss, &mut ps);
    let ghost bs2 = bs@;
    let ghost ss2 = ss@;
    let ghost ps2 = ps@;
    let s_start = ss.len();
    let p_start = ps.len();
    proof {
        assert forall|i: int| call_instr_id + 1 <= i < r.start + r.len implies stmt_mappable(
            #[trigger] c.stmts@[i],
            it@.len(),
            il@.len(),
        ) by {
            lemma_stmt_mappable(c.stmts@[i], c.temps@.len(), c.locals@.len(), it@.len(), il@.len());
        }
        assert(targets_in_range(c.blocks@[caller_bid as int].terminator, c.blocks@.len()));
    }
    remap_range(&caller.stmts, call_instr_id + 1, r.start + r.len, &it, &il, &mut ss);
    let term = remap_terminator(&caller.blocks[caller_bid].terminator, &it, &ib, None);
    proof {
        lemma_remapped_window(c.stmts@, call_instr_id + 1, r.start + r.len, ss@, s_start as int, it@, il@);
    }
    bs.push(
        AmirBasicBlock {
            id: resume,
            statements: DenseRange::new(s_start, ss.len() - s_start),
            params: DenseRange::new(p_start, 0),
            terminator: term,
        },
    );
    proof {
        lemma_packed_push(bs2, ss2.len(), ps2.len(), bs@[resume as int], ss@.len(), ps@.len());
        lemma_layout_grows(bs2, ss2, ps2, bs@, ss@, ps@);
        assert(bs@ == bs2.push(bs@[resume as int]));
        assert(layout_stmts(bs@, ss@, resume as int) =~= ss@.subrange(
            s_start as int,
            s_start + (r.start + r.len - (call_instr_id + 1)),
        ));
        let n = (resume + 1) as nat;
        assert forall|k: int| 0 <= k < bs@.len() implies targets_in_range(#[trigger] bs@[k].terminator, n) by {
            if k < nb && k != caller_bid {
                assert(bs@[k] == bs1[k]);
                assert(targets_in_range(c.blocks@[k].terminator, c.blocks@.len()));
                lemma_remapped_targets(c.blocks@[k].terminator, bs@[k].terminator, it@, ib@, None, n);
            } else if k == caller_bid {
                assert(bs@[k] == bs1[k]);
                assert(crate::amir::terminator_targets(bs@[k].terminator)[0] == nb);
            } else if k < resume {
                assert(targets_in_range(callee.blocks@[k - nb].terminator, callee.blocks@.len()));
                lemma_remapped_targets(callee.blocks@[k - nb].terminator, bs@[k].terminator, tm@, bm@, Some(resume), n);
            } else {
                lemma_remapped_targets(c.blocks@[caller_bid as int].terminator, bs@[k].terminator, it@, ib@, None, n);
            }
        }
        assert(blocks_targets_in_range(bs@));
    }
    let cfg = compute_cfg_edges(&bs);
    let ghost bs3 = bs@;
    let ghost ss3 = ss@;
    let ghost ps3 = ps@;
    extend_temps(&mut caller.temps, callee, call_lhs, span);
    extend_locals(&mut caller.locals, callee);
    caller.stmts = ss;
    caller.blocks = bs;
    caller.block_params = ps;
    caller.cfg = cfg;
    proof {
        let f = *caller;
        assert forall|k: int| 0 <= k < nb && k != caller_bid implies kept_block(
            c,
            k,
            #[trigger] f.blocks@[k],
            f.block_stmts_spec(k),
            f.block_params_spec(k),
            it@,
            il@,
            ib@,
        ) by {
            assert(f.blocks@[k] == bs1[k]);
            assert(f.block_stmts_spec(k) == layout_stmts(bs3, ss3, k));
            assert(f.block_params_spec(k) == layout_params(bs3, ps3, k));
            assert(layout_stmts(bs3, ss3, k) == layout_stmts(bs2, ss2, k));
            assert(layout_params(bs3, ps3, k) == layout_params(bs2, ps2, k));
            assert(f.block_stmts_spec(k) == layout_stmts(bs1, ss1, k));
            assert(f.block_params_spec(k) == layout_params(bs1, ps1, k));
        }
        let b0 = caller_bid as int;
        assert(f.blocks@[b0] == bs1[b0]);
        assert(f.block_stmts_spec(b0) == layout_stmts(bs3, ss3, b0));
        assert(f.block_params_spec(b0) == layout_params(bs3, ps3, b0));
        assert(layout_stmts(bs3, ss3, b0) == layout_stmts(bs2, ss2, b0));
        assert(layout_params(bs3, ps3, b0) == layout_params(bs2, ps2, b0));
        assert(f.block_stmts_spec(b0) == layout_stmts(bs1, ss1, b0));
        assert(f.block_params_spec(b0) == layout_params(bs1, ps1, b0));
        assert forall|k: int| nb <= k < resume implies inlined_block(
            *callee,
            k - nb,
            #[trigger] f.blocks@[k],
            f.block_stmts_spec(k),
            f.block_params_spec(k),
            tm@,
            lm@,
            bm@,
            resume,
        ) by {
            assert(f.blocks@[k] == bs2[k]);
            assert(f.block_stmts_spec(k) == layout_stmts(bs3, ss3, k));
            assert(f.block_params_spec(k) == layout_params(bs3, ps3, k));
            assert(f.block_stmts_spec(k) == layout_stmts(bs2, ss2, k));
            assert(f.block_params_spec(k) == layout_params(bs2, ps2, k));
        }
        if result_fits(call_lhs, c.temps@.len()) && operands_ok(call_args@, c.temps@.len()) {
            lemma_splice_keeps_wf(c, *callee, caller_bid, call_instr_id, call_args@, call_lhs, f);
        }
    }
    true
}

} // verus!
