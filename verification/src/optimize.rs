//! AMIR optimization entry points: the per-function pipeline (SCCP →
//! mark-sweep DCE → CFG simplification, repeated until no pass reports a
//! change) and its drivers over a whole program.

use vstd::prelude::*;
use crate::amir::{AmirFunc, lemma_range_total_same, range_total};
use crate::analysis_limits::OPT_PIPELINE_MAX_ROUNDS;
use crate::dce::{dce_noop, dce_post, lemma_dce_noop_congruent, mark_sweep_dce};
use crate::diagnostics::{DiagCode, Diagnostic, Severity};
use crate::literal_pool::{AmirLiteralEntry, AmirLiteralPool, pool_extends};
use crate::sccp::{sccp, sccp_post};
use crate::validate::func_ready;
use crate::simplify_cfg::{optimization_span, same_frame, simplify_cfg, simplify_post, spec_optimization_span};

verus! {

/// Optimization levels.  `O0` runs no pass; `O1`, `O2` and `Os` run the
/// SCCP → DCE → CFG-simplification pipeline.
#[derive(Clone, Copy, Debug, PartialEq, Eq, Structural)]
pub enum OptLevel {
    O0,
    O1,
    O2,
    Os,
}

/// A whole program: its functions and the literal pool they share.
pub struct AmirProgram {
    pub funcs: Vec<AmirFunc>,
    pub literal_pool: AmirLiteralPool,
}

/// The statement-position bound every pass of the pipeline needs: DCE keeps
/// per-local lists of statement ids in `SmallVec`s, whose growth computes a
/// capacity in bytes that must not overflow.
pub open spec fn positions_fit(func: AmirFunc) -> bool {
    range_total(func, func.blocks@.len() as int) <= usize::MAX / 32
}

/// What validation accepts: structurally valid, with one predecessor list
/// per block, within the statement-position bound.
pub open spec fn pipeline_ready(func: AmirFunc) -> bool {
    &&& func.wf_body()
    &&& func.cfg.predecessors@.len() == func.blocks@.len()
    &&& positions_fit(func)
}

/// What the pipeline may run on: `pipeline_ready` short of the bound on local
/// ids, which none of its passes reads.
pub open spec fn pipeline_fit(func: AmirFunc) -> bool {
    &&& func.wf_shape()
    &&& func.cfg.predecessors@.len() == func.blocks@.len()
    &&& positions_fit(func)
}

/// A function that validation accepts is one the pipeline may run on.
pub proof fn lemma_ready_fits(func: AmirFunc)
    requires
        pipeline_ready(func),
    ensures
        pipeline_fit(func),
{
    crate::amir::lemma_wf_body_parts(func);
}

/// The internal error reported when the pipeline keeps changing a function.
pub open spec fn no_fixpoint_message() -> Seq<char> {
    "optimization pipeline did not reach a fixpoint"@
}

/// One round of the pipeline on `f` with the pool `p`: SCCP, then DCE, then
/// CFG simplification, none of them failing, ending at `f2` with the pool
/// `p2`; `changed` tells whether any of them reported a change.
pub open spec fn pipeline_round(
    f: AmirFunc,
    p: Seq<AmirLiteralEntry>,
    f2: AmirFunc,
    p2: Seq<AmirLiteralEntry>,
    changed: bool,
) -> bool {
    exists|m1: AmirFunc, m2: AmirFunc, c1: bool, c2: bool, c3: bool|
        #![trigger sccp_post(f, m1, p, p2, c1), dce_post(m1, m2, Ok(c2)), simplify_post(m2, f2, Ok(c3))]
        {
            &&& sccp_post(f, m1, p, p2, c1)
            &&& dce_post(m1, m2, Ok(c2))
            &&& simplify_post(m2, f2, Ok(c3))
            &&& changed == (c1 || c2 || c3)
        }
}

/// A round on `f` whose DCE, run after SCCP, fails with `d`, leaving `f2`.
pub open spec fn round_fails_in_dce(
    f: AmirFunc,
    p: Seq<AmirLiteralEntry>,
    f2: AmirFunc,
    p2: Seq<AmirLiteralEntry>,
    d: Diagnostic,
) -> bool {
    exists|m1: AmirFunc, c1: bool|
        #![trigger sccp_post(f, m1, p, p2, c1), dce_post(m1, f2, Err(d))]
        sccp_post(f, m1, p, p2, c1) && dce_post(m1, f2, Err(d))
}

/// A round on `f` whose CFG simplification, run after SCCP and DCE, fails
/// with `d`, leaving `f2`.
pub open spec fn round_fails_in_simplify(
    f: AmirFunc,
    p: Seq<AmirLiteralEntry>,
    f2: AmirFunc,
    p2: Seq<AmirLiteralEntry>,
    d: Diagnostic,
) -> bool {
    exists|m1: AmirFunc, m2: AmirFunc, c1: bool, c2: bool|
        #![trigger sccp_post(f, m1, p, p2, c1), dce_post(m1, m2, Ok(c2)), simplify_post(m2, f2, Err(d))]
        {
            &&& sccp_post(f, m1, p, p2, c1)
            &&& dce_post(m1, m2, Ok(c2))
            &&& simplify_post(m2, f2, Err(d))
        }
}

/// Round `i` takes state `i` to state `i + 1` and changes something.
pub open spec fn pipeline_step(fs: Seq<AmirFunc>, ps: Seq<Seq<AmirLiteralEntry>>, i: int) -> bool {
    pipeline_round(fs[i], ps[i], fs[i + 1], ps[i + 1], true)
}

/// The function and the pool before each round of a run in which every
/// round changed something.
pub open spec fn pipeline_states(fs: Seq<AmirFunc>, ps: Seq<Seq<AmirLiteralEntry>>) -> bool {
    &&& fs.len() >= 1
    &&& ps.len() == fs.len()
    &&& forall|i: int| 0 <= i < fs.len() - 1 ==> #[trigger] pipeline_step(fs, ps, i)
}

/// How a run of the pipeline from `f0` (pool `p0`) ends in `f` (pool `p`)
/// with `res`: after rounds that each changed something, either a round
/// that changed nothing (`Ok`), or the bound on rounds reached (`Err` with
/// the no-fixpoint message), or a round in which DCE or CFG simplification
/// failed (`Err` with that pass's diagnostic).
pub open spec fn pipeline_outcome(
    f0: AmirFunc,
    p0: Seq<AmirLiteralEntry>,
    f: AmirFunc,
    p: Seq<AmirLiteralEntry>,
    res: Result<(), Diagnostic>,
) -> bool {
    exists|fs: Seq<AmirFunc>, ps: Seq<Seq<AmirLiteralEntry>>|
        {
            &&& #[trigger] pipeline_states(fs, ps)
            &&& fs[0] == f0
            &&& ps[0] == p0
            &&& match res {
                Ok(()) => fs.len() <= OPT_PIPELINE_MAX_ROUNDS && pipeline_round(fs.last(), ps.last(), f, p, false),
                Err(d) => {
                    ||| (fs.len() == OPT_PIPELINE_MAX_ROUNDS + 1 && fs.last() == f && ps.last() == p && d.message@
                        == no_fixpoint_message())
                    ||| (fs.len() <= OPT_PIPELINE_MAX_ROUNDS && round_fails_in_dce(fs.last(), ps.last(), f, p, d))
                    ||| (fs.len() <= OPT_PIPELINE_MAX_ROUNDS && round_fails_in_simplify(
                        fs.last(),
                        ps.last(),
                        f,
                        p,
                        d,
                    ))
                },
            }
        }
}

/// Runs the default per-function optimization loop until convergence: each
/// round runs SCCP, mark-sweep DCE and CFG simplification, and the loop
/// stops after the first round in which no pass reports a change.
pub fn optimize_amir_func(func: &mut AmirFunc, literal_pool: &mut AmirLiteralPool) -> (res: Result<(), Diagnostic>)
    requires
        pipeline_fit(*old(func)),
    ensures
        pool_extends(old(literal_pool).entries@, final(literal_pool).entries@),
        pipeline_outcome(*old(func), old(literal_pool).entries@, *final(func), final(literal_pool).entries@, res),
        match res {
            Ok(()) => {
                &&& final(func).wf_shape_cfg()
                &&& pipeline_fit(*final(func))
                &&& old(func).wf_body() ==> final(func).wf() && pipeline_ready(*final(func))
                &&& same_frame(*old(func), *final(func))
                &&& dce_noop(*final(func))
            },
            Err(d) => d.code == DiagCode::ICEO001,
        },
{
    let ghost f0 = *func;
    let ghost p0 = literal_pool.entries@;
    let ghost mut fs: Seq<AmirFunc> = seq![f0];
    let ghost mut ps: Seq<Seq<AmirLiteralEntry>> = seq![p0];
    let mut rounds: u32 = 0;
    let mut outcome: Result<(), Diagnostic> = Ok(());
    loop
        invariant_except_break
            pipeline_fit(*func),
            f0.wf_body() ==> func.wf_body(),
            same_frame(f0, *func),
            outcome is Ok,
            fs.last() == *func,
            ps.last() == literal_pool.entries@,
            fs.len() == rounds + 1,
        invariant
            pool_extends(p0, literal_pool.entries@),
            rounds <= OPT_PIPELINE_MAX_ROUNDS,
            pipeline_states(fs, ps),
            fs[0] == f0,
            ps[0] == p0,
        ensures
            pool_extends(p0, literal_pool.entries@),
            pipeline_outcome(f0, p0, *func, literal_pool.entries@, outcome),
            match outcome {
                Ok(()) => {
                    &&& func.wf_shape_cfg()
                    &&& pipeline_fit(*func)
                    &&& f0.wf_body() ==> func.wf() && pipeline_ready(*func)
                    &&& same_frame(f0, *func)
                    &&& dce_noop(*func)
                },
                Err(d) => d.code == DiagCode::ICEO001,
            },
        decreases OPT_PIPELINE_MAX_ROUNDS - rounds,
    {
        if rounds >= OPT_PIPELINE_MAX_ROUNDS {
            let span = optimization_span(func);
            outcome = Err(
                Diagnostic::ice(DiagCode::ICEO001, "optimization pipeline did not reach a fixpoint".to_owned(), span),
            );
            proof {
                assert(pipeline_outcome(f0, p0, *func, literal_pool.entries@, outcome));
            }
            break;
        }
        rounds = rounds + 1;
        let ghost before = *func;
        let ghost pool_before = literal_pool.entries@;
        let c1 = sccp(func, literal_pool);
        proof {
            assert forall|i: int| 0 <= i < p0.len() implies #[trigger] literal_pool.entries@[i] == p0[i] by {
                assert(pool_before[i] == p0[i]);
            }
            if before.temps@.len() > 0 && before.blocks@.len() > 0 {
                lemma_range_total_same(before, *func, before.blocks@.len() as int);
            }
        }
        let ghost after_sccp = *func;
        let ghost pool_after = literal_pool.entries@;
        let c2 = match mark_sweep_dce(func) {
            Ok(c) => c,
            Err(d) => {
                outcome = Err(d);
                proof {
                    assert(sccp_post(before, after_sccp, pool_before, pool_after, c1));
                    assert(dce_post(after_sccp, *func, Err(d)));
                    assert(round_fails_in_dce(before, pool_before, *func, pool_after, d));
                    assert(pipeline_outcome(f0, p0, *func, literal_pool.entries@, outcome));
                }
                break;
            },
        };
        let ghost after_dce = *func;
        let c3 = match simplify_cfg(func) {
            Ok(c) => c,
            Err(d) => {
                outcome = Err(d);
                proof {
                    assert(sccp_post(before, after_sccp, pool_before, pool_after, c1));
                    assert(dce_post(after_sccp, after_dce, Ok(c2)));
                    assert(simplify_post(after_dce, *func, Err(d)));
                    assert(round_fails_in_simplify(before, pool_before, *func, pool_after, d));
                    assert(pipeline_outcome(f0, p0, *func, literal_pool.entries@, outcome));
                }
                break;
            },
        };
        proof {
            assert(sccp_post(before, after_sccp, pool_before, pool_after, c1));
            assert(dce_post(after_sccp, after_dce, Ok(c2)));
            assert(simplify_post(after_dce, *func, Ok(c3)));
            assert(pipeline_round(before, pool_before, *func, literal_pool.entries@, c1 || c2 || c3));
        }
        if !c1 && !c2 && !c3 {
            proof {
                lemma_dce_noop_congruent(after_sccp, *func);
                assert(pipeline_outcome(f0, p0, *func, literal_pool.entries@, outcome));
            }
            break;
        }
        proof {
            let ghost ofs = fs;
            let ghost ops = ps;
            fs = fs.push(*func);
            ps = ps.push(literal_pool.entries@);
            assert forall|i: int| 0 <= i < fs.len() - 1 implies #[trigger] pipeline_step(fs, ps, i) by {
                if i < fs.len() - 2 {
                    assert(pipeline_step(ofs, ops, i));
                    assert(fs[i] == ofs[i] && fs[i + 1] == ofs[i + 1]);
                    assert(ps[i] == ops[i] && ps[i + 1] == ops[i + 1]);
                }
            }
        }
    }
    outcome
}

/// Every function of the program passes validation.
pub open spec fn program_ready(funcs: Seq<AmirFunc>) -> bool {
    forall|i: int| 0 <= i < funcs.len() ==> pipeline_ready(#[trigger] funcs[i])
}

/// The pipeline may run on every function of the program.
pub open spec fn program_fit(funcs: Seq<AmirFunc>) -> bool {
    forall|i: int| 0 <= i < funcs.len() ==> pipeline_fit(#[trigger] funcs[i])
}

/// `new` is `old` after the pipeline ran on every function: each still has
/// its shape (and is valid where it was), keeps its frame and has no dead
/// statement left.
pub open spec fn program_optimized(old: Seq<AmirFunc>, new: Seq<AmirFunc>) -> bool {
    &&& new.len() == old.len()
    &&& forall|i: int|
        0 <= i < old.len() ==> {
            &&& (#[trigger] new[i]).wf_shape_cfg()
            &&& pipeline_fit(new[i])
            &&& old[i].wf_body() ==> new[i].wf() && pipeline_ready(new[i])
            &&& same_frame(old[i], new[i])
            &&& dce_noop(new[i])
        }
}

/// Function `k` of the program went through the pipeline without error,
/// from pool `qs[k]` to pool `qs[k + 1]`.
pub open spec fn func_done(
    fs0: Seq<AmirFunc>,
    qs: Seq<Seq<AmirLiteralEntry>>,
    fs: Seq<AmirFunc>,
    k: int,
) -> bool {
    pipeline_outcome(fs0[k], qs[k], fs[k], qs[k + 1], Ok(()))
}

/// How a run of the pipeline over the functions `fs0` (pool `p0`) ends in
/// `fs` (pool `p`) with `res`: the functions are optimized in order, each
/// starting from the pool the previous one left; on the first error the
/// run stops and the later functions are left as they were.
pub open spec fn program_outcome(
    fs0: Seq<AmirFunc>,
    p0: Seq<AmirLiteralEntry>,
    fs: Seq<AmirFunc>,
    p: Seq<AmirLiteralEntry>,
    res: Result<(), Diagnostic>,
) -> bool {
    exists|qs: Seq<Seq<AmirLiteralEntry>>| #[trigger] program_run(fs0, p0, fs, p, res, qs)
}

/// `program_outcome`, with `qs` the pool before each function that the run
/// reached.
pub open spec fn program_run(
    fs0: Seq<AmirFunc>,
    p0: Seq<AmirLiteralEntry>,
    fs: Seq<AmirFunc>,
    p: Seq<AmirLiteralEntry>,
    res: Result<(), Diagnostic>,
    qs: Seq<Seq<AmirLiteralEntry>>,
) -> bool {
    &&& qs.len() >= 1
    &&& qs.len() <= fs0.len() + 1
    &&& qs[0] == p0
    &&& fs.len() == fs0.len()
    &&& forall|k: int| 0 <= k < qs.len() - 1 ==> #[trigger] func_done(fs0, qs, fs, k)
    &&& match res {
        Ok(()) => qs.len() == fs0.len() + 1 && qs.last() == p,
        Err(d) => {
            &&& qs.len() <= fs0.len()
            &&& pipeline_outcome(fs0[qs.len() - 1], qs.last(), fs[qs.len() - 1], p, Err(d))
            &&& forall|k: int| qs.len() <= k < fs0.len() ==> #[trigger] fs[k] == fs0[k]
        },
    }
}

/// Runs the pipeline selected by `level` on every function of `program`,
/// in order; the first internal error stops the run.
pub fn optimize_amir_with_level(program: &mut AmirProgram, level: OptLevel) -> (res: Result<(), Diagnostic>)
    requires
        level != OptLevel::O0 ==> program_fit(old(program).funcs@),
    ensures
        level == OptLevel::O0 ==> res is Ok && *final(program) == *old(program),
        pool_extends(old(program).literal_pool.entries@, final(program).literal_pool.entries@),
        final(program).funcs@.len() == old(program).funcs@.len(),
        level != OptLevel::O0 && res is Ok ==> program_optimized(old(program).funcs@, final(program).funcs@),
        res matches Err(d) ==> d.code == DiagCode::ICEO001,
        level != OptLevel::O0 ==> program_outcome(
            old(program).funcs@,
            old(program).literal_pool.entries@,
            final(program).funcs@,
            final(program).literal_pool.entries@,
            res,
        ),
{
    if level == OptLevel::O0 {
        return Ok(());
    }
    let ghost funcs0 = program.funcs@;
    let ghost p0 = program.literal_pool.entries@;
    let ghost mut qs: Seq<Seq<AmirLiteralEntry>> = seq![p0];
    let n = program.funcs.len();
    let mut outcome: Result<(), Diagnostic> = Ok(());
    let mut i: usize = 0;
    while i < n
        invariant_except_break
            outcome is Ok,
            forall|k: int| i <= k < n ==> #[trigger] program.funcs@[k] == funcs0[k],
            qs.len() == i + 1,
            qs[0] == p0,
            qs.last() == program.literal_pool.entries@,
            forall|k: int| 0 <= k < qs.len() - 1 ==> #[trigger] func_done(funcs0, qs, program.funcs@, k),
        invariant
            n == program.funcs@.len(),
            n == funcs0.len(),
            i <= n,
            program_fit(funcs0),
            pool_extends(p0, program.literal_pool.entries@),
            forall|k: int|
                0 <= k < i ==> {
                    &&& (#[trigger] program.funcs@[k]).wf_shape_cfg()
                    &&& pipeline_fit(program.funcs@[k])
                    &&& funcs0[k].wf_body() ==> program.funcs@[k].wf() && pipeline_ready(program.funcs@[k])
                    &&& same_frame(funcs0[k], program.funcs@[k])
                    &&& dce_noop(program.funcs@[k])
                },
        ensures
            n == program.funcs@.len(),
            pool_extends(p0, program.literal_pool.entries@),
            outcome is Ok ==> program_optimized(funcs0, program.funcs@),
            outcome matches Err(d) ==> d.code == DiagCode::ICEO001,
            outcome is Err ==> program_outcome(funcs0, p0, program.funcs@, program.literal_pool.entries@, outcome),
            outcome is Ok ==> qs.len() == n + 1 && qs[0] == p0 && qs.last() == program.literal_pool.entries@ && forall|k: int|
                0 <= k < qs.len() - 1 ==> #[trigger] func_done(funcs0, qs, program.funcs@, k),
        decreases n - i,
    {
        let ghost pool_before = program.literal_pool.entries@;
        let ghost funcs_before = program.funcs@;
        assert(pipeline_fit(funcs0[i as int]));
        let r = optimize_amir_func(&mut program.funcs[i], &mut program.literal_pool);
        proof {
            assert forall|k: int| 0 <= k < p0.len() implies #[trigger] program.literal_pool.entries@[k] == p0[k] by {
                assert(pool_before[k] == p0[k]);
            }
            assert forall|k: int| 0 <= k < n && k != i implies #[trigger] program.funcs@[k] == funcs_before[k] by {
            }
            assert forall|k: int| 0 <= k < qs.len() - 1 implies #[trigger] func_done(funcs0, qs, program.funcs@, k) by {
                assert(func_done(funcs0, qs, funcs_before, k));
                assert(program.funcs@[k] == funcs_before[k]);
            }
        }
        match r {
            Ok(()) => {},
            Err(d) => {
                outcome = Err(d);
                proof {
                    assert(funcs_before[i as int] == funcs0[i as int]);
                    assert(pipeline_outcome(
                        funcs0[i as int],
                        pool_before,
                        program.funcs@[i as int],
                        program.literal_pool.entries@,
                        r,
                    ));
                    assert(qs.last() == pool_before);
                    assert(qs.len() - 1 == i);
                    assert forall|k: int| qs.len() <= k < funcs0.len() implies #[trigger] program.funcs@[k] == funcs0[k] by {
                        assert(funcs_before[k] == funcs0[k]);
                    }
                    assert(program_run(funcs0, p0, program.funcs@, program.literal_pool.entries@, outcome, qs));
                }
                break;
            },
        }
        proof {
            let ghost oq = qs;
            qs = qs.push(program.literal_pool.entries@);
            assert(funcs_before[i as int] == funcs0[i as int]);
            assert forall|k: int| 0 <= k < qs.len() - 1 implies #[trigger] func_done(funcs0, qs, program.funcs@, k) by {
                if k < oq.len() - 1 {
                    assert(func_done(funcs0, oq, program.funcs@, k));
                    assert(qs[k] == oq[k] && qs[k + 1] == oq[k + 1]);
                }
            }
        }
        i = i + 1;
    }
    proof {
        if outcome is Ok {
            assert(program_run(funcs0, p0, program.funcs@, program.literal_pool.entries@, outcome, qs));
        }
    }
    outcome
}

/// Runs the default pipeline (`O1`) on every function of `program`.
pub fn optimize_amir(program: &mut AmirProgram) -> (res: Result<(), Diagnostic>)
    requires
        program_fit(old(program).funcs@),
    ensures
        pool_extends(old(program).literal_pool.entries@, final(program).literal_pool.entries@),
        final(program).funcs@.len() == old(program).funcs@.len(),
        res is Ok ==> program_optimized(old(program).funcs@, final(program).funcs@),
        res matches Err(d) ==> d.code == DiagCode::ICEO001,
        program_outcome(
            old(program).funcs@,
            old(program).literal_pool.entries@,
            final(program).funcs@,
            final(program).literal_pool.entries@,
            res,
        ),
{
    optimize_amir_with_level(program, OptLevel::O1)
}

/// The first function of `funcs` that is not ready for the pipeline.
pub open spec fn first_unready(funcs: Seq<AmirFunc>, i: int) -> bool {
    &&& 0 <= i < funcs.len()
    &&& !pipeline_ready(funcs[i])
    &&& forall|k: int| 0 <= k < i ==> pipeline_ready(#[trigger] funcs[k])
}

/// The error reported for a function that fails validation.
pub open spec fn invalid_amir(d: Diagnostic, func: AmirFunc) -> bool {
    &&& d.code == DiagCode::ICEO001
    &&& d.severity == Severity::Ice
    &&& d.message@ == "malformed AMIR rejected by validation"@
    &&& d.span == spec_optimization_span(func)
}

/// Checks every function; reports the first one that is not valid.
fn validate_program(program: &AmirProgram) -> (res: Result<(), Diagnostic>)
    ensures
        res is Ok <==> program_ready(program.funcs@),
        res matches Err(d) ==> exists|i: int| first_unready(program.funcs@, i) && invalid_amir(d, program.funcs@[i]),
{
    let n = program.funcs.len();
    let mut i: usize = 0;
    while i < n
        invariant
            n == program.funcs@.len(),
            i <= n,
            forall|k: int| 0 <= k < i ==> crate::optimize::pipeline_ready(#[trigger] program.funcs@[k]),
        decreases n - i,
    {
        if !func_ready(&program.funcs[i]) {
            let span = optimization_span(&program.funcs[i]);
            let d = Diagnostic::ice(DiagCode::ICEO001, "malformed AMIR rejected by validation".to_owned(), span);
            proof {
                assert(first_unready(program.funcs@, i as int));
            }
            return Err(d);
        }
        i = i + 1;
    }
    Ok(())
}

/// Validates every function, runs the pipeline selected by `level`, and
/// validates the result, so that malformed AMIR never reaches a pass or the
/// backend.
pub fn optimize_amir_checked_with_level(program: &mut AmirProgram, level: OptLevel) -> (res: Result<(), Diagnostic>)
    ensures
        !program_ready(old(program).funcs@) ==> *final(program) == *old(program) && (res matches Err(d) && exists|
            i: int,
        | first_unready(old(program).funcs@, i) && invalid_amir(d, old(program).funcs@[i])),
        program_ready(old(program).funcs@) ==> {
            &&& level == OptLevel::O0 ==> res is Ok && *final(program) == *old(program)
            &&& pool_extends(old(program).literal_pool.entries@, final(program).literal_pool.entries@)
            &&& final(program).funcs@.len() == old(program).funcs@.len()
            &&& level != OptLevel::O0 && res is Ok ==> program_optimized(old(program).funcs@, final(program).funcs@)
            &&& res matches Err(d) ==> d.code == DiagCode::ICEO001
            &&& level != OptLevel::O0 ==> program_outcome(
                old(program).funcs@,
                old(program).literal_pool.entries@,
                final(program).funcs@,
                final(program).literal_pool.entries@,
                res,
            )
        },
{
    match validate_program(program) {
        Ok(()) => {},
        Err(d) => {
            return Err(d);
        },
    }
    proof {
        assert forall|i: int| 0 <= i < program.funcs@.len() implies pipeline_fit(#[trigger] program.funcs@[i]) by {
            lemma_ready_fits(program.funcs@[i]);
        }
    }
    let ghost funcs0 = program.funcs@;
    let ghost pool0 = program.literal_pool.entries@;
    let r = optimize_amir_with_level(program, level);
    match r {
        Ok(()) => {},
        Err(d) => {
            return Err(d);
        },
    }
    proof {
        if level != OptLevel::O0 {
            assert forall|i: int| 0 <= i < program.funcs@.len() implies pipeline_ready(#[trigger] program.funcs@[i]) by {
                assert(pipeline_ready(funcs0[i]));
            }
            assert(program_ready(program.funcs@));
        }
    }
    let res = validate_program(program);
    proof {
        if level != OptLevel::O0 {
            assert(res is Ok);
            let qs = choose|qs: Seq<Seq<AmirLiteralEntry>>|
                #[trigger] program_run(
                    funcs0,
                    pool0,
                    program.funcs@,
                    program.literal_pool.entries@,
                    r,
                    qs,
                );
            assert(program_run(funcs0, pool0, program.funcs@, program.literal_pool.entries@, res, qs));
        }
    }
    res
}

/// Validates, optimizes with the default pipeline (`O1`) and validates again.
pub fn optimize_amir_checked(program: &mut AmirProgram) -> (res: Result<(), Diagnostic>)
    ensures
        !program_ready(old(program).funcs@) ==> *final(program) == *old(program) && (res matches Err(d) && exists|
            i: int,
        | first_unready(old(program).funcs@, i) && invalid_amir(d, old(program).funcs@[i])),
        program_ready(old(program).funcs@) ==> {
            &&& pool_extends(old(program).literal_pool.entries@, final(program).literal_pool.entries@)
            &&& final(program).funcs@.len() == old(program).funcs@.len()
            &&& res is Ok ==> program_optimized(old(program).funcs@, final(program).funcs@)
            &&& res matches Err(d) ==> d.code == DiagCode::ICEO001
            &&& program_outcome(
                old(program).funcs@,
                old(program).literal_pool.entries@,
                final(program).funcs@,
                final(program).literal_pool.entries@,
                res,
            )
        },
{
    optimize_amir_checked_with_level(program, OptLevel::O1)
}

} // verus!
