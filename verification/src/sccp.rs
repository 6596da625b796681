//! Sparse Conditional Constant Propagation (Wegman & Zadeck 1991).
//!
//! Propagates constants across basic blocks and eliminates dead branches by
//! jointly modeling value constness and CFG reachability in one fixpoint
//! iteration.  Block parameters are SSA φ nodes: the lattice value of a
//! parameter is the meet of the matching jump arguments of the reachable
//! predecessors.

use vstd::prelude::*;
use crate::amir::{
    AmirBasicBlock, AmirConstant, AmirFunc, AmirOperand, AmirRvalue, AmirStmt, AmirTerminator, BinaryOp, BlockId,
    SwitchTarget, TempId, UnaryOp, operand_ok, successor_list, switch_targets_list,
    terminator_targets,
};
use crate::literal_pool::{AmirLiteralEntry, AmirLiteralPool, const_int, is_first_int, pool_extends};
use crate::analysis_limits::DATAFLOW_FIXPOINT_HEADROOM;
use crate::simplify_cfg::{closed_marks, entry_reaches, is_entry_path};

verus! {

#[derive(Clone, Copy, Debug, PartialEq, Eq, Structural)]
pub enum LatticeVal {
    Undefined,
    Constant(AmirConstant),
    Overdefined,
}

// ---------------------------------------------------------------------------
// Lattice
// ---------------------------------------------------------------------------

/// Greatest lower bound in the constant-propagation lattice.
pub open spec fn spec_meet(a: LatticeVal, b: LatticeVal) -> LatticeVal {
    match (a, b) {
        (LatticeVal::Undefined, x) => x,
        (x, LatticeVal::Undefined) => x,
        (LatticeVal::Constant(x), LatticeVal::Constant(y)) => if x == y {
            LatticeVal::Constant(x)
        } else {
            LatticeVal::Overdefined
        },
        _ => LatticeVal::Overdefined,
    }
}

/// The lattice order: `lattice_le(a, b)` when `a` is at or below `b`
/// (`Overdefined` is the bottom, `Undefined` the top).
pub open spec fn lattice_le(a: LatticeVal, b: LatticeVal) -> bool {
    match (a, b) {
        (LatticeVal::Overdefined, _) => true,
        (_, LatticeVal::Undefined) => true,
        (LatticeVal::Constant(x), LatticeVal::Constant(y)) => x == y,
        _ => false,
    }
}

/// Height of a value: the number of strict descents still possible.
pub open spec fn lattice_height(a: LatticeVal) -> nat {
    match a {
        LatticeVal::Undefined => 2,
        LatticeVal::Constant(_) => 1,
        LatticeVal::Overdefined => 0,
    }
}

/// Meet of two lattice values:
/// `Undefined ⊓ x = x`, `Overdefined ⊓ _ = Overdefined`,
/// `Constant(a) ⊓ Constant(b) = Constant(a)` when `a == b`, else `Overdefined`.
pub fn meet(a: LatticeVal, b: LatticeVal) -> (r: LatticeVal)
    ensures
        r == spec_meet(a, b),
{
    match (a, b) {
        (LatticeVal::Undefined, x) => x,
        (x, LatticeVal::Undefined) => x,
        (LatticeVal::Constant(x), LatticeVal::Constant(y)) => {
            if x == y {
                LatticeVal::Constant(x)
            } else {
                LatticeVal::Overdefined
            }
        },
        _ => LatticeVal::Overdefined,
    }
}

/// Meet is commutative, associative and idempotent, has `Undefined` as its
/// identity and `Overdefined` as its absorbing element.
pub proof fn lemma_meet_semilattice(a: LatticeVal, b: LatticeVal, c: LatticeVal)
    ensures
        spec_meet(a, b) == spec_meet(b, a),
        spec_meet(spec_meet(a, b), c) == spec_meet(a, spec_meet(b, c)),
        spec_meet(a, a) == a,
        spec_meet(LatticeVal::Undefined, a) == a,
        spec_meet(LatticeVal::Overdefined, a) == LatticeVal::Overdefined,
{
}

/// The meet is the greatest lower bound of its arguments in `lattice_le`.
pub proof fn lemma_meet_is_glb(a: LatticeVal, b: LatticeVal, c: LatticeVal)
    ensures
        lattice_le(spec_meet(a, b), a),
        lattice_le(spec_meet(a, b), b),
        lattice_le(c, a) && lattice_le(c, b) ==> lattice_le(c, spec_meet(a, b)),
        lattice_le(a, b) <==> spec_meet(a, b) == a,
{
}

/// A meet either leaves a value unchanged or strictly lowers its height, so
/// each value changes at most twice.
pub proof fn lemma_meet_descends(a: LatticeVal, b: LatticeVal)
    ensures
        spec_meet(a, b) == a || lattice_height(spec_meet(a, b)) < lattice_height(a),
{
}

// ---------------------------------------------------------------------------
// Constant folding
// ---------------------------------------------------------------------------

/// The value a fold produces, before it is turned into a constant.
pub enum FoldValue {
    Bool(bool),
    Int(i128),
}

/// Folding of a unary operator over a constant.  Negating the smallest
/// integer has no representable result and does not fold.
pub open spec fn spec_fold_unary(op: UnaryOp, c: AmirConstant, pool: Seq<AmirLiteralEntry>) -> Option<
    FoldValue,
> {
    match (op, c) {
        (UnaryOp::Not, AmirConstant::Bool(b)) => Some(FoldValue::Bool(!b)),
        (UnaryOp::Neg, v) => match const_int(v, pool) {
            Some(x) => if x == i128::MIN {
                None
            } else {
                Some(FoldValue::Int((-x) as i128))
            },
            None => None,
        },
        (UnaryOp::BitNot, v) => match const_int(v, pool) {
            Some(x) => Some(FoldValue::Int(!x)),
            None => None,
        },
        _ => None,
    }
}

/// Folding of a binary operator over two constants: boolean connectives
/// and comparisons on booleans; checked arithmetic, bitwise operators,
/// in-range shifts and comparisons on integers.  A right shift of a negative
/// value does not fold, since constants do not carry their signedness.
pub open spec fn spec_fold_binary(
    op: BinaryOp,
    l: AmirConstant,
    r: AmirConstant,
    pool: Seq<AmirLiteralEntry>,
) -> Option<FoldValue> {
    match (l, r) {
        (AmirConstant::Bool(a), AmirConstant::Bool(b)) => match op {
            BinaryOp::And => Some(FoldValue::Bool(a && b)),
            BinaryOp::Or => Some(FoldValue::Bool(a || b)),
            BinaryOp::Equal => Some(FoldValue::Bool(a == b)),
            BinaryOp::NotEqual => Some(FoldValue::Bool(a != b)),
            _ => None,
        },
        _ => match (const_int(l, pool), const_int(r, pool)) {
            (Some(lv), Some(rv)) => spec_fold_int(op, lv, rv),
            _ => None,
        },
    }
}

pub open spec fn opt_int(v: Option<i128>) -> Option<FoldValue> {
    match v {
        Some(x) => Some(FoldValue::Int(x)),
        None => None,
    }
}

pub open spec fn spec_fold_int(op: BinaryOp, lv: i128, rv: i128) -> Option<FoldValue> {
    match op {
        BinaryOp::Add => opt_int(lv.checked_add(rv)),
        BinaryOp::Sub => opt_int(lv.checked_sub(rv)),
        BinaryOp::Mul => opt_int(lv.checked_mul(rv)),
        BinaryOp::Div => if rv != 0 {
            opt_int(lv.checked_div(rv))
        } else {
            None
        },
        BinaryOp::Mod => if rv != 0 {
            opt_int(lv.checked_rem(rv))
        } else {
            None
        },
        BinaryOp::BitOr => Some(FoldValue::Int(lv | rv)),
        BinaryOp::BitXor => Some(FoldValue::Int(lv ^ rv)),
        BinaryOp::BitAnd => Some(FoldValue::Int(lv & rv)),
        BinaryOp::ShiftLeft => if 0 <= rv < 128 {
            Some(FoldValue::Int(lv.wrapping_shl(rv as u32)))
        } else {
            None
        },
        BinaryOp::ShiftRight => if lv >= 0 && 0 <= rv < 128 {
            Some(FoldValue::Int(lv.wrapping_shr(rv as u32)))
        } else {
            None
        },
        BinaryOp::Equal => Some(FoldValue::Bool(lv == rv)),
        BinaryOp::NotEqual => Some(FoldValue::Bool(lv != rv)),
        BinaryOp::Lt => Some(FoldValue::Bool(lv < rv)),
        BinaryOp::Gt => Some(FoldValue::Bool(lv > rv)),
        BinaryOp::LtEqual => Some(FoldValue::Bool(lv <= rv)),
        BinaryOp::GtEqual => Some(FoldValue::Bool(lv >= rv)),
        _ => None,
    }
}

/// A constant `c`, read in `pool`, stands for the folded value `v`.
pub open spec fn const_denotes(c: AmirConstant, v: FoldValue, pool: Seq<AmirLiteralEntry>) -> bool {
    match v {
        FoldValue::Bool(b) => c == AmirConstant::Bool(b),
        FoldValue::Int(x) => c matches AmirConstant::Pool(id) && const_int(c, pool) == Some(x) && is_first_int(
            pool,
            id as int,
            x,
        ),
    }
}

/// The constant returned by a fold stands for the folded value, and `None`
/// is returned exactly when nothing folds.
pub open spec fn fold_result_ok(
    r: Option<AmirConstant>,
    v: Option<FoldValue>,
    pool: Seq<AmirLiteralEntry>,
) -> bool {
    match (r, v) {
        (None, None) => true,
        (Some(c), Some(x)) => const_denotes(c, x, pool),
        _ => false,
    }
}

fn int_const(val: i128, pool: &mut AmirLiteralPool) -> (c: AmirConstant)
    ensures
        pool_extends(old(pool).entries@, final(pool).entries@),
        const_denotes(c, FoldValue::Int(val), final(pool).entries@),
{
    let id = pool.intern_int(val);
    AmirConstant::Pool(id)
}

fn checked_int(val: Option<i128>, pool: &mut AmirLiteralPool) -> (c: Option<AmirConstant>)
    ensures
        pool_extends(old(pool).entries@, final(pool).entries@),
        fold_result_ok(c, opt_int(val), final(pool).entries@),
{
    match val {
        Some(v) => Some(int_const(v, pool)),
        None => None,
    }
}

/// Folds a unary operator applied to a constant.
pub fn fold_unary(op: UnaryOp, value: AmirConstant, pool: &mut AmirLiteralPool) -> (r: Option<
    AmirConstant,
>)
    ensures
        pool_extends(old(pool).entries@, final(pool).entries@),
        fold_result_ok(r, spec_fold_unary(op, value, old(pool).entries@), final(pool).entries@),
{
    match (op, value) {
        (UnaryOp::Not, AmirConstant::Bool(b)) => Some(AmirConstant::Bool(!b)),
        (UnaryOp::Neg, v) => {
            match pool.const_as_i128(&v) {
                Some(x) => {
                    if x == i128::MIN {
                        None
                    } else {
                        Some(int_const(-x, pool))
                    }
                },
                None => None,
            }
        },
        (UnaryOp::BitNot, v) => {
            match pool.const_as_i128(&v) {
                Some(x) => Some(int_const(!x, pool)),
                None => None,
            }
        },
        _ => None,
    }
}

/// Folds a binary operator applied to two constants.
pub fn fold_binary(
    op: BinaryOp,
    left: AmirConstant,
    right: AmirConstant,
    pool: &mut AmirLiteralPool,
) -> (r: Option<AmirConstant>)
    ensures
        pool_extends(old(pool).entries@, final(pool).entries@),
        fold_result_ok(
            r,
            spec_fold_binary(op, left, right, old(pool).entries@),
            final(pool).entries@,
        ),
{
    match (left, right) {
        (AmirConstant::Bool(a), AmirConstant::Bool(b)) => match op {
            BinaryOp::And => Some(AmirConstant::Bool(a && b)),
            BinaryOp::Or => Some(AmirConstant::Bool(a || b)),
            BinaryOp::Equal => Some(AmirConstant::Bool(a == b)),
            BinaryOp::NotEqual => Some(AmirConstant::Bool(a != b)),
            _ => None,
        },
        (l, r) => {
            let lv = match pool.const_as_i128(&l) {
                Some(v) => v,
                None => return None,
            };
            let rv = match pool.const_as_i128(&r) {
                Some(v) => v,
                None => return None,
            };
            match op {
                BinaryOp::Add => checked_int(lv.checked_add(rv), pool),
                BinaryOp::Sub => checked_int(lv.checked_sub(rv), pool),
                BinaryOp::Mul => checked_int(lv.checked_mul(rv), pool),
                BinaryOp::Div => {
                    if rv != 0 {
                        checked_int(lv.checked_div(rv), pool)
                    } else {
                        None
                    }
                },
                BinaryOp::Mod => {
                    if rv != 0 {
                        checked_int(lv.checked_rem(rv), pool)
                    } else {
                        None
                    }
                },
                BinaryOp::BitOr => Some(int_const(lv | rv, pool)),
                BinaryOp::BitXor => Some(int_const(lv ^ rv, pool)),
                BinaryOp::BitAnd => Some(int_const(lv & rv, pool)),
                BinaryOp::ShiftLeft => {
                    if 0 <= rv && rv < 128 {
                        Some(int_const(lv.wrapping_shl(rv as u32), pool))
                    } else {
                        None
                    }
                },
                // Constants do not carry their signedness here. A negative
                // bit pattern may be a negative `int` or a high-bit `uint`;
                // arithmetic and logical right shifts differ for it, so it is
                // left to the backend.
                BinaryOp::ShiftRight => {
                    if lv >= 0 && 0 <= rv && rv < 128 {
                        Some(int_const(lv.wrapping_shr(rv as u32), pool))
                    } else {
                        None
                    }
                },
                BinaryOp::Equal => Some(AmirConstant::Bool(lv == rv)),
                BinaryOp::NotEqual => Some(AmirConstant::Bool(lv != rv)),
                BinaryOp::Lt => Some(AmirConstant::Bool(lv < rv)),
                BinaryOp::Gt => Some(AmirConstant::Bool(lv > rv)),
                BinaryOp::LtEqual => Some(AmirConstant::Bool(lv <= rv)),
                BinaryOp::GtEqual => Some(AmirConstant::Bool(lv >= rv)),
                _ => None,
            }
        },
    }
}

// ---------------------------------------------------------------------------
// What folding computes
// ---------------------------------------------------------------------------

/// Folding a comparison of two integer constants gives the boolean the
/// comparison has on their values.
pub proof fn lemma_fold_compares(l: AmirConstant, r: AmirConstant, pool: Seq<AmirLiteralEntry>, lv: i128, rv: i128)
    requires
        const_int(l, pool) == Some(lv),
        const_int(r, pool) == Some(rv),
    ensures
        spec_fold_binary(BinaryOp::Equal, l, r, pool) == Some(FoldValue::Bool(lv == rv)),
        spec_fold_binary(BinaryOp::NotEqual, l, r, pool) == Some(FoldValue::Bool(lv != rv)),
        spec_fold_binary(BinaryOp::Lt, l, r, pool) == Some(FoldValue::Bool(lv < rv)),
        spec_fold_binary(BinaryOp::Gt, l, r, pool) == Some(FoldValue::Bool(lv > rv)),
        spec_fold_binary(BinaryOp::LtEqual, l, r, pool) == Some(FoldValue::Bool(lv <= rv)),
        spec_fold_binary(BinaryOp::GtEqual, l, r, pool) == Some(FoldValue::Bool(lv >= rv)),
{
}

/// The comparison operators agree with each other: `>=` is the negation of
/// `<` and `<=` with its operands swapped, `==` is symmetric and reflexive,
/// `!=` is its negation, and a value is `<=` and `>=` itself.
pub proof fn lemma_fold_comparisons_relate(l: AmirConstant, r: AmirConstant, pool: Seq<AmirLiteralEntry>)
    requires
        const_int(l, pool) is Some,
        const_int(r, pool) is Some,
    ensures
        spec_fold_binary(BinaryOp::GtEqual, l, r, pool) == not_bool(spec_fold_binary(BinaryOp::Lt, l, r, pool)),
        spec_fold_binary(BinaryOp::GtEqual, l, r, pool) == spec_fold_binary(BinaryOp::LtEqual, r, l, pool),
        spec_fold_binary(BinaryOp::Gt, l, r, pool) == spec_fold_binary(BinaryOp::Lt, r, l, pool),
        spec_fold_binary(BinaryOp::LtEqual, l, r, pool) == not_bool(spec_fold_binary(BinaryOp::Gt, l, r, pool)),
        spec_fold_binary(BinaryOp::Equal, l, r, pool) == spec_fold_binary(BinaryOp::Equal, r, l, pool),
        spec_fold_binary(BinaryOp::NotEqual, l, r, pool) == not_bool(spec_fold_binary(BinaryOp::Equal, l, r, pool)),
        spec_fold_binary(BinaryOp::Equal, l, l, pool) == Some(FoldValue::Bool(true)),
        spec_fold_binary(BinaryOp::LtEqual, l, l, pool) == Some(FoldValue::Bool(true)),
        spec_fold_binary(BinaryOp::GtEqual, l, l, pool) == Some(FoldValue::Bool(true)),
        spec_fold_binary(BinaryOp::Lt, l, l, pool) == Some(FoldValue::Bool(false)),
        spec_fold_binary(BinaryOp::Gt, l, l, pool) == Some(FoldValue::Bool(false)),
{
}

/// The negation of a folded boolean.
pub open spec fn not_bool(v: Option<FoldValue>) -> Option<FoldValue> {
    match v {
        Some(FoldValue::Bool(b)) => Some(FoldValue::Bool(!b)),
        _ => None,
    }
}

/// Folding integer arithmetic gives the mathematical result when it fits in
/// 128 bits and nothing otherwise; bitwise operators act on the values;
/// in-range shifts multiply by, or (of a non-negative value) divide by, a
/// power of two.
pub proof fn lemma_fold_arithmetic(l: AmirConstant, r: AmirConstant, pool: Seq<AmirLiteralEntry>, lv: i128, rv: i128)
    requires
        const_int(l, pool) == Some(lv),
        const_int(r, pool) == Some(rv),
    ensures
        spec_fold_binary(BinaryOp::Add, l, r, pool) == if i128::MIN <= lv + rv <= i128::MAX {
            Some(FoldValue::Int((lv + rv) as i128))
        } else {
            None
        },
        spec_fold_binary(BinaryOp::Sub, l, r, pool) == if i128::MIN <= lv - rv <= i128::MAX {
            Some(FoldValue::Int((lv - rv) as i128))
        } else {
            None
        },
        spec_fold_binary(BinaryOp::Mul, l, r, pool) == if i128::MIN <= lv * rv <= i128::MAX {
            Some(FoldValue::Int((lv * rv) as i128))
        } else {
            None
        },
        rv == 0 ==> spec_fold_binary(BinaryOp::Div, l, r, pool) is None && spec_fold_binary(
            BinaryOp::Mod,
            l,
            r,
            pool,
        ) is None,
        lv >= 0 && rv > 0 ==> spec_fold_binary(BinaryOp::Div, l, r, pool) == Some(FoldValue::Int((lv / rv) as i128))
            && spec_fold_binary(BinaryOp::Mod, l, r, pool) == Some(FoldValue::Int((lv % rv) as i128)),
        spec_fold_binary(BinaryOp::BitAnd, l, r, pool) == Some(FoldValue::Int(lv & rv)),
        spec_fold_binary(BinaryOp::BitOr, l, r, pool) == Some(FoldValue::Int(lv | rv)),
        spec_fold_binary(BinaryOp::BitXor, l, r, pool) == Some(FoldValue::Int(lv ^ rv)),
        (rv < 0 || rv >= 128) ==> spec_fold_binary(BinaryOp::ShiftLeft, l, r, pool) is None
            && spec_fold_binary(BinaryOp::ShiftRight, l, r, pool) is None,
        lv < 0 ==> spec_fold_binary(BinaryOp::ShiftRight, l, r, pool) is None,
        rv == 0 ==> spec_fold_binary(BinaryOp::ShiftLeft, l, r, pool) == Some(FoldValue::Int(lv))
            && (lv >= 0 ==> spec_fold_binary(BinaryOp::ShiftRight, l, r, pool) == Some(FoldValue::Int(lv))),
        spec_fold_binary(BinaryOp::And, l, r, pool) is None,
        spec_fold_binary(BinaryOp::Or, l, r, pool) is None,
{
    assert(!(l is Bool));
    if lv >= 0 && rv > 0 {
        let x = lv as int;
        let d = rv as int;
        assert(0 <= x / d <= x && 0 <= x % d < d) by (nonlinear_arith)
            requires
                x >= 0,
                d > 0,
        ;
        if x == 0 {
            assert(x / d == 0 && x % d == 0) by (nonlinear_arith)
                requires
                    x == 0,
                    d > 0,
            ;
        }
        assert(lv.checked_div(rv) == Some((lv / rv) as i128));
        assert(lv.checked_rem(rv) == Some((lv % rv) as i128));
    }
    if rv == 0 {
        assert(lv.wrapping_shl(0) == lv) by (bit_vector);
        if lv >= 0 {
            assert(lv.wrapping_shr(0) == lv) by (bit_vector);
        }
    }
}

/// In-range shifts move bits: shifting left by one doubles (wrapping at 128
/// bits), shifting a non-negative value right by one halves it.
pub proof fn lemma_fold_shift_by_one(l: AmirConstant, r: AmirConstant, pool: Seq<AmirLiteralEntry>, lv: i128)
    requires
        const_int(l, pool) == Some(lv),
        const_int(r, pool) == Some(1i128),
    ensures
        spec_fold_binary(BinaryOp::ShiftLeft, l, r, pool) == Some(FoldValue::Int(lv.wrapping_add(lv))),
        lv >= 0 ==> spec_fold_binary(BinaryOp::ShiftRight, l, r, pool) == Some(FoldValue::Int((lv / 2) as i128)),
{
    assert(!(l is Bool));
    assert(lv.wrapping_shl(1u32) == lv.wrapping_add(lv)) by (bit_vector);
    if lv >= 0 {
        assert(lv >= 0 ==> lv.wrapping_shr(1u32) == lv / 2) by (bit_vector);
    }
}

/// Division and remainder fold consistently: when both fold, the quotient
/// times the divisor plus the remainder is the dividend, and the remainder
/// is smaller than the divisor in size and has the sign of the dividend.
pub proof fn lemma_fold_div_mod(l: AmirConstant, r: AmirConstant, pool: Seq<AmirLiteralEntry>, lv: i128, rv: i128)
    requires
        const_int(l, pool) == Some(lv),
        const_int(r, pool) == Some(rv),
        rv != 0,
        !(lv == i128::MIN && rv == -1),
    ensures
        spec_fold_binary(BinaryOp::Div, l, r, pool) matches Some(FoldValue::Int(q)) && spec_fold_binary(
            BinaryOp::Mod,
            l,
            r,
            pool,
        ) matches Some(FoldValue::Int(m)) && q * rv + m == lv && (if rv > 0 {
            -rv < m < rv
        } else {
            rv < m < -rv
        }) && (lv >= 0 ==> m >= 0) && (lv <= 0 ==> m <= 0),
{
    assert(!(l is Bool));
    let x = lv as int;
    let d = rv as int;
    let (qq, mm) = lemma_trunc_div_rem(x, d);
    assert(lv.checked_div(rv) == Some(qq as i128));
    assert(lv.checked_rem(rv) == Some(mm as i128));
    assert(spec_fold_binary(BinaryOp::Div, l, r, pool) == Some(FoldValue::Int(qq as i128)));
    assert(spec_fold_binary(BinaryOp::Mod, l, r, pool) == Some(FoldValue::Int(mm as i128)));
}

/// Truncating division: the quotient and remainder Rust computes for `x`
/// and `d`, and how they make up `x`.
proof fn lemma_trunc_div_rem(x: int, d: int) -> (res: (int, int))
    requires
        d != 0,
        i128::MIN <= x <= i128::MAX,
        i128::MIN <= d <= i128::MAX,
        !(x == i128::MIN && d == -1),
    ensures
        res.0 == (if x == 0 {
            0
        } else if x > 0 && d > 0 {
            x / d
        } else if x < 0 && d < 0 {
            ((x * -1) / (d * -1))
        } else if x < 0 {
            ((x * -1) / d) * -1
        } else {
            (x / (d * -1)) * -1
        }),
        res.1 == (if x == 0 {
            0
        } else if x > 0 && d > 0 {
            x % d
        } else if x < 0 && d < 0 {
            ((x * -1) % (d * -1)) * -1
        } else if x < 0 {
            ((x * -1) % d) * -1
        } else {
            x % (d * -1)
        }),
        i128::MIN <= res.0 <= i128::MAX,
        res.0 * d + res.1 == x,
        if d > 0 {
            -d < res.1 < d
        } else {
            d < res.1 < -d
        },
        x >= 0 ==> res.1 >= 0,
        x <= 0 ==> res.1 <= 0,
{
    if x == 0 {
        (0, 0)
    } else if x > 0 && d > 0 {
        assert(x == d * (x / d) + x % d && 0 <= x % d < d && 0 <= x / d <= x) by (nonlinear_arith)
            requires
                x > 0,
                d > 0,
        ;
        assert((x / d) * d == d * (x / d)) by (nonlinear_arith);
        (x / d, x % d)
    } else if x < 0 && d < 0 {
        let a = -x;
        let b = -d;
        assert(a == b * (a / b) + a % b && 0 <= a % b < b && 0 <= a / b <= a) by (nonlinear_arith)
            requires
                a > 0,
                b > 0,
        ;
        if b == 1 {
            assert(a / b == a && a % b == 0) by (nonlinear_arith)
                requires
                    b == 1,
            ;
        } else {
            assert(a / b <= a / 2) by (nonlinear_arith)
                requires
                    a > 0,
                    b >= 2,
            ;
        }
        assert((a / b) * d + (a % b) * -1 == x) by (nonlinear_arith)
            requires
                a == b * (a / b) + a % b,
                a == -x,
                b == -d,
        ;
        assert(x * -1 == a && d * -1 == b);
        (a / b, (a % b) * -1)
    } else if x < 0 {
        let a = -x;
        assert(a == d * (a / d) + a % d && 0 <= a % d < d && 0 <= a / d <= a) by (nonlinear_arith)
            requires
                a > 0,
                d > 0,
        ;
        assert(((a / d) * -1) * d + (a % d) * -1 == x) by (nonlinear_arith)
            requires
                a == d * (a / d) + a % d,
                a == -x,
        ;
        assert(x * -1 == a);
        ((a / d) * -1, (a % d) * -1)
    } else {
        let b = -d;
        assert(x == b * (x / b) + x % b && 0 <= x % b < b && 0 <= x / b <= x) by (nonlinear_arith)
            requires
                x > 0,
                b > 0,
        ;
        assert(((x / b) * -1) * d + x % b == x) by (nonlinear_arith)
            requires
                x == b * (x / b) + x % b,
                b == -d,
        ;
        assert(d * -1 == b);
        ((x / b) * -1, x % b)
    }
}

/// Folding a unary operator: `!` negates a boolean, `-` negates an integer
/// (except the smallest, whose negation does not fit), `~` complements its
/// bits; `-` and `~` of a boolean and `!` of an integer do not fold.
pub proof fn lemma_fold_unary(c: AmirConstant, pool: Seq<AmirLiteralEntry>)
    ensures
        forall|b: bool| c == AmirConstant::Bool(b) ==> spec_fold_unary(UnaryOp::Not, c, pool) == Some(
            FoldValue::Bool(!b),
        ) && spec_fold_unary(UnaryOp::Neg, c, pool) is None && spec_fold_unary(UnaryOp::BitNot, c, pool) is None,
        forall|v: i128| const_int(c, pool) == Some(v) ==> {
            &&& spec_fold_unary(UnaryOp::Not, c, pool) is None
            &&& spec_fold_unary(UnaryOp::Neg, c, pool) == if v == i128::MIN {
                None
            } else {
                Some(FoldValue::Int((-v) as i128))
            }
            &&& spec_fold_unary(UnaryOp::BitNot, c, pool) == Some(FoldValue::Int(!v))
        },
        spec_fold_unary(UnaryOp::Deref, c, pool) is None,
        spec_fold_unary(UnaryOp::Await, c, pool) is None,
{
}

/// Folding booleans: `&&`, `||`, `==` and `!=` act on the values; nothing
/// else folds on booleans.
pub proof fn lemma_fold_bools(a: bool, b: bool, pool: Seq<AmirLiteralEntry>)
    ensures
        spec_fold_binary(BinaryOp::And, AmirConstant::Bool(a), AmirConstant::Bool(b), pool) == Some(
            FoldValue::Bool(a && b),
        ),
        spec_fold_binary(BinaryOp::Or, AmirConstant::Bool(a), AmirConstant::Bool(b), pool) == Some(
            FoldValue::Bool(a || b),
        ),
        spec_fold_binary(BinaryOp::Equal, AmirConstant::Bool(a), AmirConstant::Bool(b), pool) == Some(
            FoldValue::Bool(a == b),
        ),
        spec_fold_binary(BinaryOp::NotEqual, AmirConstant::Bool(a), AmirConstant::Bool(b), pool) == Some(
            FoldValue::Bool(a != b),
        ),
        spec_fold_binary(BinaryOp::Add, AmirConstant::Bool(a), AmirConstant::Bool(b), pool) is None,
        spec_fold_binary(BinaryOp::Lt, AmirConstant::Bool(a), AmirConstant::Bool(b), pool) is None,
{
}

// ---------------------------------------------------------------------------
// Operand and rvalue evaluation
// ---------------------------------------------------------------------------

/// The lattice value of an operand.
pub open spec fn spec_operand_lattice(op: AmirOperand, lat: Seq<LatticeVal>) -> LatticeVal {
    match op {
        AmirOperand::Constant(c) => LatticeVal::Constant(c),
        AmirOperand::Copy(t) => lat[t as int],
        AmirOperand::Move(t) => lat[t as int],
        _ => LatticeVal::Overdefined,
    }
}

fn operand_lattice(op: &AmirOperand, lattice: &Vec<LatticeVal>) -> (r: LatticeVal)
    requires
        operand_ok(*op, lattice@.len()),
    ensures
        r == spec_operand_lattice(*op, lattice@),
{
    match op {
        AmirOperand::Constant(c) => LatticeVal::Constant(*c),
        AmirOperand::Copy(t) => lattice[*t],
        AmirOperand::Move(t) => lattice[*t],
        _ => LatticeVal::Overdefined,
    }
}

/// `r` is the lattice value of a fold result: a constant standing for the
/// folded value, or `Overdefined` when nothing folds.
pub open spec fn folded_lattice(
    f: Option<FoldValue>,
    pool: Seq<AmirLiteralEntry>,
    r: LatticeVal,
) -> bool {
    match f {
        Some(v) => r matches LatticeVal::Constant(c) && const_denotes(c, v, pool),
        None => r == LatticeVal::Overdefined,
    }
}

/// `r` is the value of `rv` under `lat`: operands are looked up, unary and
/// binary operators fold over constants (`old_pool` is read, constants of the
/// result are read in `new_pool`), and every other rvalue is `Overdefined`.
pub open spec fn eval_ok(
    rv: AmirRvalue,
    lat: Seq<LatticeVal>,
    old_pool: Seq<AmirLiteralEntry>,
    new_pool: Seq<AmirLiteralEntry>,
    r: LatticeVal,
) -> bool {
    match rv {
        AmirRvalue::Use(op) => r == spec_operand_lattice(op, lat),
        AmirRvalue::Unary { op, operand } => match spec_operand_lattice(operand, lat) {
            LatticeVal::Constant(c) => folded_lattice(spec_fold_unary(op, c, old_pool), new_pool, r),
            LatticeVal::Overdefined => r == LatticeVal::Overdefined,
            LatticeVal::Undefined => r == LatticeVal::Undefined,
        },
        AmirRvalue::Binary { op, left, right } => match (
            spec_operand_lattice(left, lat),
            spec_operand_lattice(right, lat),
        ) {
            (LatticeVal::Constant(lc), LatticeVal::Constant(rc)) => folded_lattice(
                spec_fold_binary(op, lc, rc, old_pool),
                new_pool,
                r,
            ),
            (LatticeVal::Overdefined, _) => r == LatticeVal::Overdefined,
            (_, LatticeVal::Overdefined) => r == LatticeVal::Overdefined,
            _ => r == LatticeVal::Undefined,
        },
        _ => r == LatticeVal::Overdefined,
    }
}

proof fn lemma_switch_pick_in(targets: Seq<SwitchTarget>, v: i128, i: int)
    requires
        0 <= i,
    ensures
        switch_pick(targets, v, i) matches Some(j) ==> i <= j < targets.len() && targets[j].value == v,
    decreases targets.len() - i,
{
    if i < targets.len() && targets[i].value != v {
        lemma_switch_pick_in(targets, v, i + 1);
    }
}

/// Branch propagation only makes targets of the terminator reachable, and a
/// branch or switch that SCCP reduces to a jump leaves exactly that jump's
/// target live (for a switch on a known discriminant, the first arm with its
/// value); a decided boolean condition selects `if_true` or `if_false`, an
/// undecided one leaves both live.
pub proof fn lemma_live_successors_sound(t: AmirTerminator, lat: Seq<LatticeVal>, pool: Seq<AmirLiteralEntry>)
    ensures
        forall|k: int|
            0 <= k < live_successors(t, lat, pool).len() ==> terminator_targets(t).contains(
                #[trigger] live_successors(t, lat, pool)[k],
            ),
        simplified_jump(t, lat, pool) matches Some(j) ==> live_successors(t, lat, pool) == seq![j.0],
        t matches AmirTerminator::Branch { condition, if_true, if_false, .. } ==> match spec_operand_lattice(
            condition,
            lat,
        ) {
            LatticeVal::Constant(AmirConstant::Bool(b)) => live_successors(t, lat, pool) == seq![
                if b {
                    if_true
                } else {
                    if_false
                },
            ],
            _ => live_successors(t, lat, pool) == seq![if_true, if_false],
        },
{
    let tt = terminator_targets(t);
    let ls = live_successors(t, lat, pool);
    match t {
        AmirTerminator::Branch { if_true, if_false, .. } => {
            assert(tt[0] == if_true && tt[1] == if_false);
        },
        AmirTerminator::SwitchInt { discriminant, targets, otherwise } => {
            assert(tt[targets@.len() as int] == otherwise.target);
            match spec_operand_lattice(discriminant, lat) {
                LatticeVal::Constant(c) => match const_int(c, pool) {
                    Some(v) => {
                        lemma_switch_pick_in(targets@, v, 0);
                        match switch_pick(targets@, v, 0) {
                            Some(j) => {
                                assert(tt[j] == targets@[j].target);
                            },
                            None => {},
                        }
                    },
                    None => {},
                },
                _ => {},
            }
        },
        _ => {},
    }
    assert forall|k: int| 0 <= k < ls.len() implies tt.contains(#[trigger] ls[k]) by {
        match t {
            AmirTerminator::SwitchInt { discriminant, targets, otherwise } => {
                if !(ls =~= tt) {
                    lemma_switch_pick_in(targets@, const_int(spec_operand_lattice(discriminant, lat)->Constant_0, pool)->Some_0, 0);
                    let j = switch_pick(targets@, const_int(spec_operand_lattice(discriminant, lat)->Constant_0, pool)->Some_0, 0);
                    if j is Some {
                        assert(tt[j->Some_0] == ls[k]);
                    } else {
                        assert(tt[targets@.len() as int] == ls[k]);
                    }
                } else {
                    assert(tt[k] == ls[k]);
                }
            },
            AmirTerminator::Branch { .. } => {
                if ls[k] == tt[0] {
                    assert(tt[0] == ls[k]);
                } else {
                    assert(tt[1] == ls[k]);
                }
            },
            _ => {
                assert(tt[k] == ls[k]);
            },
        }
    }
}

/// A switch on a known integer goes to the first arm with that value, or to
/// its `otherwise` target when no arm has it; that target is the only live
/// one.
pub proof fn lemma_switch_decided(
    discriminant: AmirOperand,
    targets: Vec<SwitchTarget>,
    otherwise: crate::amir::SwitchOtherwise,
    lat: Seq<LatticeVal>,
    pool: Seq<AmirLiteralEntry>,
    c: AmirConstant,
    v: i128,
    j: int,
)
    requires
        spec_operand_lattice(discriminant, lat) == LatticeVal::Constant(c),
        const_int(c, pool) == Some(v),
    ensures
        (forall|k: int| 0 <= k < targets@.len() ==> #[trigger] targets@[k].value != v) ==> live_successors(
            AmirTerminator::SwitchInt { discriminant, targets, otherwise },
            lat,
            pool,
        ) == seq![otherwise.target] && simplified_jump(
            AmirTerminator::SwitchInt { discriminant, targets, otherwise },
            lat,
            pool,
        ) == Some((otherwise.target, otherwise.args@)),
        (0 <= j < targets@.len() && targets@[j].value == v && forall|k: int|
            0 <= k < j ==> #[trigger] targets@[k].value != v) ==> live_successors(
            AmirTerminator::SwitchInt { discriminant, targets, otherwise },
            lat,
            pool,
        ) == seq![targets@[j].target] && simplified_jump(
            AmirTerminator::SwitchInt { discriminant, targets, otherwise },
            lat,
            pool,
        ) == Some((targets@[j].target, targets@[j].args@)),
{
    if forall|k: int| 0 <= k < targets@.len() ==> #[trigger] targets@[k].value != v {
        lemma_switch_pick_none(targets@, v, 0);
    }
    if 0 <= j < targets@.len() && targets@[j].value == v && forall|k: int|
        0 <= k < j ==> #[trigger] targets@[k].value != v {
        lemma_switch_pick_first(targets@, v, 0, j);
    }
}

proof fn lemma_switch_pick_none(targets: Seq<SwitchTarget>, v: i128, i: int)
    requires
        0 <= i,
        forall|k: int| 0 <= k < targets.len() ==> #[trigger] targets[k].value != v,
    ensures
        switch_pick(targets, v, i) is None,
    decreases targets.len() - i,
{
    if i < targets.len() {
        lemma_switch_pick_none(targets, v, i + 1);
    }
}

proof fn lemma_switch_pick_first(targets: Seq<SwitchTarget>, v: i128, i: int, j: int)
    requires
        0 <= i <= j < targets.len(),
        targets[j].value == v,
        forall|k: int| 0 <= k < j ==> #[trigger] targets[k].value != v,
    ensures
        switch_pick(targets, v, i) == Some(j),
    decreases j - i,
{
    if i < j {
        lemma_switch_pick_first(targets, v, i + 1, j);
    }
}

/// Meeting the value an assignment produces into a nullable temp keeps only
/// `nil` as a constant: every other constant becomes `Overdefined`, and the
/// result is never above the unfiltered value.
pub proof fn lemma_nullable_filter(v: LatticeVal)
    ensures
        lattice_le(nullable_filter(v), v),
        v == LatticeVal::Constant(AmirConstant::Nil) ==> nullable_filter(v) == v,
        v == LatticeVal::Undefined ==> nullable_filter(v) == v,
        (v matches LatticeVal::Constant(c) && c != AmirConstant::Nil) ==> nullable_filter(v) == LatticeVal::Overdefined,
{
}

/// What evaluation gives: a constant operand its own constant, a temp its
/// value in the lattice; an operator applied to an `Overdefined` operand is
/// `Overdefined`; loads, borrows and calls into the heap are `Overdefined`.
pub proof fn lemma_eval_basics(
    lat: Seq<LatticeVal>,
    p: Seq<AmirLiteralEntry>,
    p2: Seq<AmirLiteralEntry>,
    r: LatticeVal,
    op: AmirOperand,
    other: AmirOperand,
    bop: BinaryOp,
    uop: UnaryOp,
)
    ensures
        forall|c: AmirConstant| op == AmirOperand::Constant(c) ==> (eval_ok(AmirRvalue::Use(op), lat, p, p2, r) <==> r
            == LatticeVal::Constant(c)),
        forall|t: TempId| (op == AmirOperand::Copy(t) || op == AmirOperand::Move(t)) ==> (eval_ok(
            AmirRvalue::Use(op),
            lat,
            p,
            p2,
            r,
        ) <==> r == lat[t as int]),
        spec_operand_lattice(op, lat) == LatticeVal::Overdefined ==> (eval_ok(
            AmirRvalue::Binary { op: bop, left: op, right: other },
            lat,
            p,
            p2,
            r,
        ) <==> r == LatticeVal::Overdefined) && (eval_ok(
            AmirRvalue::Binary { op: bop, left: other, right: op },
            lat,
            p,
            p2,
            r,
        ) <==> r == LatticeVal::Overdefined) && (eval_ok(AmirRvalue::Unary { op: uop, operand: op }, lat, p, p2, r)
            <==> r == LatticeVal::Overdefined),
        spec_operand_lattice(op, lat) == LatticeVal::Undefined && spec_operand_lattice(other, lat)
            != LatticeVal::Overdefined ==> (eval_ok(AmirRvalue::Binary { op: bop, left: op, right: other }, lat, p, p2, r)
            <==> r == LatticeVal::Undefined) && (eval_ok(
            AmirRvalue::Binary { op: bop, left: other, right: op },
            lat,
            p,
            p2,
            r,
        ) <==> r == LatticeVal::Undefined) && (eval_ok(AmirRvalue::Unary { op: uop, operand: op }, lat, p, p2, r)
            <==> r == LatticeVal::Undefined),
        forall|pl: crate::amir::AmirPlace| eval_ok(AmirRvalue::Load(pl), lat, p, p2, r) <==> r == LatticeVal::Overdefined,
        forall|pl: crate::amir::AmirPlace| eval_ok(AmirRvalue::Borrow(pl), lat, p, p2, r) <==> r == LatticeVal::Overdefined,
{
}

fn eval_rvalue(rvalue: &AmirRvalue, lattice: &Vec<LatticeVal>, pool: &mut AmirLiteralPool) -> (r:
    LatticeVal)
    requires
        crate::amir::operands_ok(crate::amir::rvalue_operands(*rvalue), lattice@.len()),
    ensures
        pool_extends(old(pool).entries@, final(pool).entries@),
        eval_ok(*rvalue, lattice@, old(pool).entries@, final(pool).entries@, r),
{
    match rvalue {
        AmirRvalue::Use(op) => {
            assert(crate::amir::rvalue_operands(*rvalue)[0] == *op);
            operand_lattice(op, lattice)
        },
        AmirRvalue::Unary { op, operand } => {
            assert(crate::amir::rvalue_operands(*rvalue)[0] == *operand);
            match operand_lattice(operand, lattice) {
                LatticeVal::Constant(c) => match fold_unary(*op, c, pool) {
                    Some(k) => LatticeVal::Constant(k),
                    None => LatticeVal::Overdefined,
                },
                LatticeVal::Overdefined => LatticeVal::Overdefined,
                LatticeVal::Undefined => LatticeVal::Undefined,
            }
        },
        AmirRvalue::Binary { op, left, right } => {
            assert(crate::amir::rvalue_operands(*rvalue)[0] == *left);
            assert(crate::amir::rvalue_operands(*rvalue)[1] == *right);
            let l = operand_lattice(left, lattice);
            let r = operand_lattice(right, lattice);
            match (l, r) {
                (LatticeVal::Constant(lc), LatticeVal::Constant(rc)) => match fold_binary(
                    *op,
                    lc,
                    rc,
                    pool,
                ) {
                    Some(k) => LatticeVal::Constant(k),
                    None => LatticeVal::Overdefined,
                },
                (LatticeVal::Overdefined, _) => LatticeVal::Overdefined,
                (_, LatticeVal::Overdefined) => LatticeVal::Overdefined,
                _ => LatticeVal::Undefined,
            }
        },
        _ => LatticeVal::Overdefined,
    }
}

/// A nullable temp only takes `nil` as a constant: a scalar constant such as
/// `0` is not the same value as `nil` at run time.
pub open spec fn nullable_filter(v: LatticeVal) -> LatticeVal {
    match v {
        LatticeVal::Constant(AmirConstant::Nil) => LatticeVal::Constant(AmirConstant::Nil),
        LatticeVal::Undefined => LatticeVal::Undefined,
        _ => LatticeVal::Overdefined,
    }
}

fn filter_nullable(v: LatticeVal) -> (r: LatticeVal)
    ensures
        r == nullable_filter(v),
{
    match v {
        LatticeVal::Constant(AmirConstant::Nil) => LatticeVal::Constant(AmirConstant::Nil),
        LatticeVal::Undefined => LatticeVal::Undefined,
        _ => LatticeVal::Overdefined,
    }
}

// ---------------------------------------------------------------------------
// Jump arguments and branch propagation
// ---------------------------------------------------------------------------

/// The arguments of the first switch arm at or after `i` that jumps to `target`.
pub open spec fn switch_args_to(targets: Seq<SwitchTarget>, target: BlockId, i: int) -> Option<
    Seq<AmirOperand>,
>
    decreases targets.len() - i,
{
    if i >= targets.len() || i < 0 {
        None
    } else if targets[i].target == target {
        Some(targets[i].args@)
    } else {
        switch_args_to(targets, target, i + 1)
    }
}

/// The jump arguments a terminator passes to `target`'s block parameters.
pub open spec fn spec_jump_args_to(t: AmirTerminator, target: BlockId) -> Option<Seq<AmirOperand>> {
    match t {
        AmirTerminator::Goto { target: g, args } => if g == target {
            Some(args@)
        } else {
            None
        },
        AmirTerminator::Suspend { resume, args, .. } => if resume == target {
            Some(args@)
        } else {
            None
        },
        AmirTerminator::Branch { if_true, true_args, if_false, false_args, .. } => if if_true
            == target {
            Some(true_args@)
        } else if if_false == target {
            Some(false_args@)
        } else {
            None
        },
        AmirTerminator::SwitchInt { targets, otherwise, .. } => match switch_args_to(
            targets@,
            target,
            0,
        ) {
            Some(a) => Some(a),
            None => if otherwise.target == target {
                Some(otherwise.args@)
            } else {
                None
            },
        },
        _ => None,
    }
}

fn switch_jump_args(targets: &Vec<SwitchTarget>, target: BlockId) -> (r: Option<&Vec<AmirOperand>>)
    ensures
        match r {
            Some(a) => switch_args_to(targets@, target, 0) == Some(a@),
            None => switch_args_to(targets@, target, 0) is None,
        },
{
    let n = targets.len();
    let mut i: usize = 0;
    while i < n
        invariant
            n == targets@.len(),
            i <= n,
            switch_args_to(targets@, target, 0) == switch_args_to(targets@, target, i as int),
        decreases n - i,
    {
        if targets[i].target == target {
            return Some(&targets[i].args);
        }
        i = i + 1;
    }
    None
}

fn jump_args_to(term: &AmirTerminator, target: BlockId) -> (r: Option<&Vec<AmirOperand>>)
    ensures
        match r {
            Some(a) => spec_jump_args_to(*term, target) == Some(a@),
            None => spec_jump_args_to(*term, target) is None,
        },
{
    match term {
        AmirTerminator::Goto { target: t, args } => {
            if *t == target {
                Some(args)
            } else {
                None
            }
        },
        AmirTerminator::Suspend { resume, args, .. } => {
            if *resume == target {
                Some(args)
            } else {
                None
            }
        },
        AmirTerminator::Branch { if_true, true_args, if_false, false_args, .. } => {
            if *if_true == target {
                Some(true_args)
            } else if *if_false == target {
                Some(false_args)
            } else {
                None
            }
        },
        AmirTerminator::SwitchInt { targets, otherwise, .. } => {
            match switch_jump_args(targets, target) {
                Some(a) => Some(a),
                None => {
                    if otherwise.target == target {
                        Some(&otherwise.args)
                    } else {
                        None
                    }
                },
            }
        },
        _ => None,
    }
}

/// The target of the first switch arm at or after `i` whose value is `v`.
pub open spec fn switch_pick(targets: Seq<SwitchTarget>, v: i128, i: int) -> Option<int>
    decreases targets.len() - i,
{
    if i >= targets.len() || i < 0 {
        None
    } else if targets[i].value == v {
        Some(i)
    } else {
        switch_pick(targets, v, i + 1)
    }
}

/// The successors a terminator makes reachable under `lat`: only the taken
/// arm when the condition or discriminant is a known constant, every target
/// otherwise.
pub open spec fn live_successors(
    t: AmirTerminator,
    lat: Seq<LatticeVal>,
    pool: Seq<AmirLiteralEntry>,
) -> Seq<BlockId> {
    match t {
        AmirTerminator::Branch { condition, if_true, if_false, .. } => match spec_operand_lattice(
            condition,
            lat,
        ) {
            LatticeVal::Constant(AmirConstant::Bool(true)) => seq![if_true],
            LatticeVal::Constant(AmirConstant::Bool(false)) => seq![if_false],
            _ => seq![if_true, if_false],
        },
        AmirTerminator::SwitchInt { discriminant, targets, otherwise } => match spec_operand_lattice(
            discriminant,
            lat,
        ) {
            LatticeVal::Constant(c) => match const_int(c, pool) {
                Some(v) => match switch_pick(targets@, v, 0) {
                    Some(j) => seq![targets@[j].target],
                    None => seq![otherwise.target],
                },
                None => terminator_targets(t),
            },
            _ => terminator_targets(t),
        },
        _ => terminator_targets(t),
    }
}

fn set_reachable(block: BlockId, reachable: &mut Vec<bool>) -> (changed: bool)
    ensures
        final(reachable)@.len() == old(reachable)@.len(),
        forall|i: int|
            0 <= i < old(reachable)@.len() ==> #[trigger] final(reachable)@[i] == (old(
                reachable,
            )@[i] || i == block),
        changed == (block < old(reachable)@.len() && !old(reachable)@[block as int]),
{
    if block < reachable.len() && !reachable[block] {
        reachable.set(block, true);
        true
    } else {
        false
    }
}

/// `new` is `old` with the blocks of `succs` that are in range marked.
pub open spec fn marks(old: Seq<bool>, new: Seq<bool>, succs: Seq<BlockId>) -> bool {
    &&& new.len() == old.len()
    &&& forall|i: int|
        0 <= i < old.len() ==> #[trigger] new[i] == (old[i] || exists|j: int|
            0 <= j < succs.len() && succs[j] == i)
}

proof fn lemma_marks_push(old: Seq<bool>, mid: Seq<bool>, new: Seq<bool>, s: Seq<BlockId>, x: BlockId)
    requires
        marks(old, mid, s),
        new.len() == mid.len(),
        forall|i: int| 0 <= i < mid.len() ==> #[trigger] new[i] == (mid[i] || i == x),
    ensures
        marks(old, new, s.push(x)),
{
    assert forall|i: int| 0 <= i < old.len() implies #[trigger] new[i] == (old[i] || exists|j: int|
        0 <= j < s.push(x).len() && s.push(x)[j] == i) by {
        if exists|j: int| 0 <= j < s.len() && s[j] == i {
            let j = choose|j: int| 0 <= j < s.len() && s[j] == i;
            assert(s.push(x)[j] == i);
        }
        if i == x {
            assert(s.push(x)[s.len() as int] == i);
        }
        if exists|j: int| 0 <= j < s.push(x).len() && s.push(x)[j] == i {
            let j = choose|j: int| 0 <= j < s.push(x).len() && s.push(x)[j] == i;
            if j < s.len() {
                assert(s[j] == i);
            }
        }
    }
}

/// Marks every block of `list` reachable.
fn mark_list(list: &Vec<BlockId>, reachable: &mut Vec<bool>) -> (changed: bool)
    ensures
        marks(old(reachable)@, final(reachable)@, list@),
        changed == (final(reachable)@ != old(reachable)@),
{
    let ghost old_r = reachable@;
    let mut changed = false;
    let n = list.len();
    let mut i: usize = 0;
    while i < n
        invariant
            n == list@.len(),
            i <= n,
            marks(old_r, reachable@, list@.take(i as int)),
            changed == (reachable@ != old_r),
        decreases n - i,
    {
        let ghost before = reachable@;
        let c = set_reachable(list[i], reachable);
        proof {
            assert(list@.take(i + 1) == list@.take(i as int).push(list@[i as int]));
            lemma_marks_push(old_r, before, reachable@, list@.take(i as int), list@[i as int]);
            if c {
                assert(reachable@[list@[i as int] as int] != old_r[list@[i as int] as int]);
            } else {
                assert(reachable@ =~= before);
            }
        }
        changed = changed || c;
        i = i + 1;
    }
    assert(list@.take(n as int) == list@);
    changed
}

/// The index of the first switch arm whose value is `val`.
fn find_switch_arm(targets: &Vec<SwitchTarget>, val: i128) -> (r: Option<usize>)
    ensures
        match r {
            Some(j) => switch_pick(targets@, val, 0) == Some(j as int) && j < targets@.len(),
            None => switch_pick(targets@, val, 0) is None,
        },
{
    let n = targets.len();
    let mut i: usize = 0;
    while i < n
        invariant
            n == targets@.len(),
            i <= n,
            switch_pick(targets@, val, 0) == switch_pick(targets@, val, i as int),
        decreases n - i,
    {
        if targets[i].value == val {
            return Some(i);
        }
        i = i + 1;
    }
    None
}

/// Marks the successors that are live under `lattice` as reachable and
/// returns whether any block was newly marked.
fn propagate_branches(
    terminator: &AmirTerminator,
    lattice: &Vec<LatticeVal>,
    pool: &AmirLiteralPool,
    reachable: &mut Vec<bool>,
) -> (changed: bool)
    requires
        crate::amir::operands_ok(crate::amir::terminator_operands(*terminator), lattice@.len()),
    ensures
        marks(old(reachable)@, final(reachable)@, live_successors(*terminator, lattice@, pool.entries@)),
        changed == (final(reachable)@ != old(reachable)@),
{
    match terminator {
        AmirTerminator::Branch { condition, if_true, if_false, .. } => {
            assert(crate::amir::terminator_operands(*terminator)[0] == *condition);
            let mut list: Vec<BlockId> = Vec::new();
            match operand_lattice(condition, lattice) {
                LatticeVal::Constant(AmirConstant::Bool(true)) => {
                    list.push(*if_true);
                },
                LatticeVal::Constant(AmirConstant::Bool(false)) => {
                    list.push(*if_false);
                },
                _ => {
                    list.push(*if_true);
                    list.push(*if_false);
                },
            }
            assert(list@ =~= live_successors(*terminator, lattice@, pool.entries@));
            mark_list(&list, reachable)
        },
        AmirTerminator::Goto { target, .. } => {
            let mut list: Vec<BlockId> = Vec::new();
            list.push(*target);
            mark_list(&list, reachable)
        },
        AmirTerminator::Suspend { resume, .. } => {
            let mut list: Vec<BlockId> = Vec::new();
            list.push(*resume);
            mark_list(&list, reachable)
        },
        AmirTerminator::SwitchInt { discriminant, targets, otherwise } => {
            assert(crate::amir::terminator_operands(*terminator)[0] == *discriminant);
            match operand_lattice(discriminant, lattice) {
                LatticeVal::Constant(c) => {
                    match pool.const_as_i128(&c) {
                        Some(val) => {
                            let mut list: Vec<BlockId> = Vec::new();
                            match find_switch_arm(targets, val) {
                                Some(j) => list.push(targets[j].target),
                                None => list.push(otherwise.target),
                            }
                            return mark_list(&list, reachable);
                        },
                        None => {},
                    }
                },
                _ => {},
            }
            let list = switch_targets_list(targets, otherwise.target);
            mark_list(&list, reachable)
        },
        AmirTerminator::Return => {
            let list: Vec<BlockId> = Vec::new();
            mark_list(&list, reachable)
        },
        AmirTerminator::Unreachable => {
            let list: Vec<BlockId> = Vec::new();
            mark_list(&list, reachable)
        },
    }
}

// ---------------------------------------------------------------------------
// Terminator simplification
// ---------------------------------------------------------------------------

/// The single jump a branch or switch reduces to when its condition or
/// discriminant is a known constant.
pub open spec fn simplified_jump(
    t: AmirTerminator,
    lat: Seq<LatticeVal>,
    pool: Seq<AmirLiteralEntry>,
) -> Option<(BlockId, Seq<AmirOperand>)> {
    match t {
        AmirTerminator::Branch { condition, if_true, true_args, if_false, false_args } => match spec_operand_lattice(
            condition,
            lat,
        ) {
            LatticeVal::Constant(AmirConstant::Bool(true)) => Some((if_true, true_args@)),
            LatticeVal::Constant(AmirConstant::Bool(false)) => Some((if_false, false_args@)),
            _ => None,
        },
        AmirTerminator::SwitchInt { discriminant, targets, otherwise } => match spec_operand_lattice(
            discriminant,
            lat,
        ) {
            LatticeVal::Constant(c) => match const_int(c, pool) {
                Some(v) => match switch_pick(targets@, v, 0) {
                    Some(j) => Some((targets@[j].target, targets@[j].args@)),
                    None => Some((otherwise.target, otherwise.args@)),
                },
                None => None,
            },
            _ => None,
        },
        _ => None,
    }
}

/// `t` is a `Goto` to `target` passing `args`.
pub open spec fn is_goto(t: AmirTerminator, target: BlockId, args: Seq<AmirOperand>) -> bool {
    t matches AmirTerminator::Goto { target: g, args: a } && g == target && a@ == args
}

/// A copy of a list of operands.
pub fn clone_operands(v: &Vec<AmirOperand>) -> (r: Vec<AmirOperand>)
    ensures
        r@ == v@,
{
    let mut out: Vec<AmirOperand> = Vec::new();
    let n = v.len();
    let mut i: usize = 0;
    while i < n
        invariant
            n == v@.len(),
            i <= n,
            out@ == v@.take(i as int),
        decreases n - i,
    {
        out.push(v[i]);
        proof {
            assert(v@.take(i + 1) == v@.take(i as int).push(v@[i as int]));
        }
        i = i + 1;
    }
    assert(v@.take(n as int) == v@);
    out
}

/// When a branch condition (or switch discriminant) is a known constant,
/// returns the single `Goto` it reduces to.
fn try_simplify_terminator(
    terminator: &AmirTerminator,
    lattice: &Vec<LatticeVal>,
    pool: &AmirLiteralPool,
) -> (r: Option<AmirTerminator>)
    requires
        crate::amir::operands_ok(crate::amir::terminator_operands(*terminator), lattice@.len()),
    ensures
        match (r, simplified_jump(*terminator, lattice@, pool.entries@)) {
            (Some(t), Some(j)) => is_goto(t, j.0, j.1),
            (None, None) => true,
            _ => false,
        },
{
    match terminator {
        AmirTerminator::Branch { condition, if_true, true_args, if_false, false_args } => {
            assert(crate::amir::terminator_operands(*terminator)[0] == *condition);
            match operand_lattice(condition, lattice) {
                LatticeVal::Constant(AmirConstant::Bool(true)) => Some(
                    AmirTerminator::Goto { target: *if_true, args: clone_operands(true_args) },
                ),
                LatticeVal::Constant(AmirConstant::Bool(false)) => Some(
                    AmirTerminator::Goto { target: *if_false, args: clone_operands(false_args) },
                ),
                _ => None,
            }
        },
        AmirTerminator::SwitchInt { discriminant, targets, otherwise } => {
            assert(crate::amir::terminator_operands(*terminator)[0] == *discriminant);
            match operand_lattice(discriminant, lattice) {
                LatticeVal::Constant(c) => {
                    match pool.const_as_i128(&c) {
                        Some(val) => match find_switch_arm(targets, val) {
                            Some(j) => Some(
                                AmirTerminator::Goto {
                                    target: targets[j].target,
                                    args: clone_operands(&targets[j].args),
                                },
                            ),
                            None => Some(
                                AmirTerminator::Goto {
                                    target: otherwise.target,
                                    args: clone_operands(&otherwise.args),
                                },
                            ),
                        },
                        None => None,
                    }
                },
                _ => None,
            }
        },
        _ => None,
    }
}

// ---------------------------------------------------------------------------
// Block parameters (φ)
// ---------------------------------------------------------------------------

pub open spec fn switch_args_ok(targets: Seq<SwitchTarget>, nt: nat) -> bool {
    forall|j: int| 0 <= j < targets.len() ==> crate::amir::operands_ok(#[trigger] targets[j].args@, nt)
}

#[verifier::spinoff_prover]
proof fn lemma_switch_args_ok(targets: Seq<SwitchTarget>, nt: nat)
    requires
        crate::amir::operands_ok(crate::amir::switch_args(targets), nt),
    ensures
        switch_args_ok(targets, nt),
    decreases targets.len(),
{
    if targets.len() > 0 {
        let front = targets.drop_last();
        let all = crate::amir::switch_args(targets);
        assert(all == crate::amir::switch_args(front) + targets.last().args@);
        assert forall|k: int| 0 <= k < crate::amir::switch_args(front).len() implies crate::amir::operand_ok(
            #[trigger] crate::amir::switch_args(front)[k],
            nt,
        ) by {
            assert(all[k] == crate::amir::switch_args(front)[k]);
        }
        lemma_switch_args_ok(front, nt);
        assert forall|k: int| 0 <= k < targets.last().args@.len() implies crate::amir::operand_ok(
            #[trigger] targets.last().args@[k],
            nt,
        ) by {
            assert(all[crate::amir::switch_args(front).len() + k] == targets.last().args@[k]);
        }
        assert forall|j: int| 0 <= j < targets.len() implies crate::amir::operands_ok(
            #[trigger] targets[j].args@,
            nt,
        ) by {
            if j < front.len() {
                assert(targets[j] == front[j]);
                assert(switch_args_ok(front, nt));
                assert(crate::amir::operands_ok(front[j].args@, nt));
            } else {
                assert(targets[j] == targets.last());
            }
        }
    }
}

proof fn lemma_switch_args_to_ok(targets: Seq<SwitchTarget>, target: BlockId, i: int, nt: nat)
    requires
        switch_args_ok(targets, nt),
    ensures
        switch_args_to(targets, target, i) matches Some(a) ==> crate::amir::operands_ok(a, nt),
    decreases targets.len() - i,
{
    if 0 <= i < targets.len() && targets[i].target != target {
        lemma_switch_args_to_ok(targets, target, i + 1, nt);
    }
}

/// Jump arguments are operands of the terminator, so they name temps in range.
proof fn lemma_jump_args_ok(t: AmirTerminator, target: BlockId, nt: nat)
    requires
        crate::amir::operands_ok(crate::amir::terminator_operands(t), nt),
    ensures
        spec_jump_args_to(t, target) matches Some(a) ==> crate::amir::operands_ok(a, nt),
{
    let ops = crate::amir::terminator_operands(t);
    match t {
        AmirTerminator::Branch { condition, true_args, false_args, .. } => {
            assert forall|k: int| 0 <= k < true_args@.len() implies crate::amir::operand_ok(
                #[trigger] true_args@[k],
                nt,
            ) by {
                assert(ops[1 + k] == true_args@[k]);
            }
            assert forall|k: int| 0 <= k < false_args@.len() implies crate::amir::operand_ok(
                #[trigger] false_args@[k],
                nt,
            ) by {
                assert(ops[1 + true_args@.len() + k] == false_args@[k]);
            }
        },
        AmirTerminator::Suspend { args, .. } => {
            assert forall|k: int| 0 <= k < args@.len() implies crate::amir::operand_ok(
                #[trigger] args@[k],
                nt,
            ) by {
                assert(ops[1 + k] == args@[k]);
            }
        },
        AmirTerminator::SwitchInt { targets, otherwise, .. } => {
            let sa = crate::amir::switch_args(targets@);
            assert forall|k: int| 0 <= k < sa.len() implies crate::amir::operand_ok(
                #[trigger] sa[k],
                nt,
            ) by {
                assert(ops[1 + k] == sa[k]);
            }
            lemma_switch_args_ok(targets@, nt);
            lemma_switch_args_to_ok(targets@, target, 0, nt);
            assert forall|k: int| 0 <= k < otherwise.args@.len() implies crate::amir::operand_ok(
                #[trigger] otherwise.args@[k],
                nt,
            ) by {
                assert(ops[1 + sa.len() + k] == otherwise.args@[k]);
            }
        },
        _ => {},
    }
}

proof fn lemma_le_trans(a: LatticeVal, b: LatticeVal, c: LatticeVal)
    requires
        lattice_le(a, b),
        lattice_le(b, c),
    ensures
        lattice_le(a, c),
{
}

/// Every value of `new` is at or below the value of `old` at the same index.
pub open spec fn descends(old: Seq<LatticeVal>, new: Seq<LatticeVal>) -> bool {
    &&& new.len() == old.len()
    &&& forall|t: int| 0 <= t < old.len() ==> lattice_le(#[trigger] new[t], old[t])
}

proof fn lemma_descends_trans(a: Seq<LatticeVal>, b: Seq<LatticeVal>, c: Seq<LatticeVal>)
    requires
        descends(a, b),
        descends(b, c),
    ensures
        descends(a, c),
{
    assert forall|t: int| 0 <= t < a.len() implies lattice_le(#[trigger] c[t], a[t]) by {
        lemma_le_trans(c[t], b[t], a[t]);
    }
}

/// Lowers `lattice[idx]` to its meet with `v`; returns whether it changed.
fn lower_to(lattice: &mut Vec<LatticeVal>, idx: usize, v: LatticeVal) -> (changed: bool)
    requires
        idx < old(lattice)@.len(),
    ensures
        final(lattice)@ == old(lattice)@.update(idx as int, spec_meet(old(lattice)@[idx as int], v)),
        descends(old(lattice)@, final(lattice)@),
        changed == (final(lattice)@ != old(lattice)@),
{
    let old_v = lattice[idx];
    let merged = meet(old_v, v);
    proof {
        lemma_meet_is_glb(old_v, v, old_v);
    }
    if merged != old_v {
        lattice.set(idx, merged);
        assert(lattice@[idx as int] != old(lattice)@[idx as int]);
        true
    } else {
        assert(lattice@ =~= old(lattice)@.update(idx as int, merged));
        false
    }
}

/// The value the edge from `pred` passes to parameter `i` of block `bid`:
/// the lattice value of the matching jump argument (filtered for a nullable
/// parameter), `Overdefined` when the jump has no such argument or the
/// terminator hands no arguments to `bid`.
pub open spec fn edge_value(func: AmirFunc, pred: BlockId, bid: BlockId, i: int, lat: Seq<LatticeVal>) -> LatticeVal {
    match spec_jump_args_to(func.blocks@[pred as int].terminator, bid) {
        None => LatticeVal::Overdefined,
        Some(args) => {
            let a = if i < args.len() {
                spec_operand_lattice(args[i], lat)
            } else {
                LatticeVal::Overdefined
            };
            if func.temps@[func.block_params_spec(bid as int)[i].id as int].is_nullable {
                nullable_filter(a)
            } else {
                a
            }
        },
    }
}

/// The meet of what the reachable ones among the first `k` listed
/// predecessors of `bid` pass to parameter `i`.
pub open spec fn incoming_meet(
    func: AmirFunc,
    bid: BlockId,
    i: int,
    lat: Seq<LatticeVal>,
    reach: Seq<bool>,
    k: nat,
) -> LatticeVal
    decreases k,
{
    if k == 0 {
        LatticeVal::Undefined
    } else {
        let prev = incoming_meet(func, bid, i, lat, reach, (k - 1) as nat);
        let p = func.cfg.predecessors@[bid as int]@[k - 1];
        if p < reach.len() && p < func.blocks@.len() && reach[p as int] {
            spec_meet(prev, edge_value(func, p, bid, i, lat))
        } else {
            prev
        }
    }
}

/// `lat` with the first `j` parameters of `bid` lowered, in order, to what
/// the reachable predecessors pass them under `lat`.
pub open spec fn params_met(func: AmirFunc, bid: BlockId, lat: Seq<LatticeVal>, reach: Seq<bool>, j: nat) -> Seq<
    LatticeVal,
>
    decreases j,
{
    if j == 0 {
        lat
    } else {
        let prev = params_met(func, bid, lat, reach, (j - 1) as nat);
        let id = func.block_params_spec(bid as int)[j - 1].id as int;
        prev.update(
            id,
            spec_meet(
                prev[id],
                incoming_meet(func, bid, j - 1, lat, reach, func.cfg.predecessors@[bid as int]@.len()),
            ),
        )
    }
}

/// The value met into parameter `i` of `bid` is at or below what each
/// reachable predecessor passes it, and is `Undefined` (no information yet)
/// when no listed predecessor is reachable.
pub proof fn lemma_incoming_meet_below(func: AmirFunc, bid: BlockId, i: int, lat: Seq<LatticeVal>, reach: Seq<bool>, k: nat)
    ensures
        forall|m: int|
            0 <= m < k && m < func.cfg.predecessors@[bid as int]@.len() && func.cfg.predecessors@[bid as int]@[m]
                < reach.len() && func.cfg.predecessors@[bid as int]@[m] < func.blocks@.len()
                && reach[func.cfg.predecessors@[bid as int]@[m] as int] ==> lattice_le(
                incoming_meet(func, bid, i, lat, reach, k),
                #[trigger] edge_value(func, func.cfg.predecessors@[bid as int]@[m], bid, i, lat),
            ),
        (forall|m: int|
            0 <= m < k ==> !(func.cfg.predecessors@[bid as int]@[m] < reach.len()
                && func.cfg.predecessors@[bid as int]@[m] < func.blocks@.len()
                && #[trigger] reach[func.cfg.predecessors@[bid as int]@[m] as int])) ==> incoming_meet(
            func,
            bid,
            i,
            lat,
            reach,
            k,
        ) == LatticeVal::Undefined,
    decreases k,
{
    if k > 0 {
        lemma_incoming_meet_below(func, bid, i, lat, reach, (k - 1) as nat);
        let prev = incoming_meet(func, bid, i, lat, reach, (k - 1) as nat);
        let cur = incoming_meet(func, bid, i, lat, reach, k);
        let p = func.cfg.predecessors@[bid as int]@[k - 1];
        if p < reach.len() && p < func.blocks@.len() && reach[p as int] {
            let e = edge_value(func, p, bid, i, lat);
            lemma_meet_is_glb(prev, e, prev);
            assert(lattice_le(cur, prev));
            assert(lattice_le(cur, e));
            assert forall|m: int|
                0 <= m < k && m < func.cfg.predecessors@[bid as int]@.len() && func.cfg.predecessors@[bid as int]@[m]
                    < reach.len() && func.cfg.predecessors@[bid as int]@[m] < func.blocks@.len()
                    && reach[func.cfg.predecessors@[bid as int]@[m] as int] implies lattice_le(
                cur,
                #[trigger] edge_value(func, func.cfg.predecessors@[bid as int]@[m], bid, i, lat),
            ) by {
                if m < k - 1 {
                    lemma_le_trans(cur, prev, edge_value(func, func.cfg.predecessors@[bid as int]@[m], bid, i, lat));
                }
            }
        } else {
            assert(cur == prev);
        }
    }
}

/// What an edge passes: `Overdefined` when the predecessor's terminator
/// hands no arguments to `bid` or too few, otherwise the lattice value of
/// the matching argument (only `nil` or no information for a nullable
/// parameter).
pub proof fn lemma_edge_value(func: AmirFunc, pred: BlockId, bid: BlockId, i: int, lat: Seq<LatticeVal>)
    requires
        0 <= i,
    ensures
        spec_jump_args_to(func.blocks@[pred as int].terminator, bid) is None ==> edge_value(func, pred, bid, i, lat)
            == LatticeVal::Overdefined,
        spec_jump_args_to(func.blocks@[pred as int].terminator, bid) matches Some(args) && i >= args.len()
            ==> edge_value(func, pred, bid, i, lat) == LatticeVal::Overdefined,
        spec_jump_args_to(func.blocks@[pred as int].terminator, bid) matches Some(args) && i < args.len()
            && !func.temps@[func.block_params_spec(bid as int)[i].id as int].is_nullable ==> edge_value(
            func,
            pred,
            bid,
            i,
            lat,
        ) == spec_operand_lattice(spec_jump_args_to(func.blocks@[pred as int].terminator, bid)->Some_0[i], lat),
        lattice_le(
            edge_value(func, pred, bid, i, lat),
            match spec_jump_args_to(func.blocks@[pred as int].terminator, bid) {
                Some(args) => if 0 <= i < args.len() {
                    spec_operand_lattice(args[i], lat)
                } else {
                    LatticeVal::Overdefined
                },
                None => LatticeVal::Overdefined,
            },
        ),
{
}

/// Values that descend from each other are equal.
proof fn lemma_descends_antisym(a: Seq<LatticeVal>, b: Seq<LatticeVal>)
    requires
        descends(a, b),
        descends(b, a),
    ensures
        a == b,
{
    assert forall|t: int| 0 <= t < a.len() implies a[t] == b[t] by {
        assert(lattice_le(b[t], a[t]));
        assert(lattice_le(a[t], b[t]));
    }
    assert(a =~= b);
}

/// When no predecessor passes anything, lowering the parameters changes
/// nothing.
proof fn lemma_params_met_idle(func: AmirFunc, bid: BlockId, lat: Seq<LatticeVal>, reach: Seq<bool>, j: nat)
    requires
        forall|i: int| 0 <= i < j ==> #[trigger] incoming_meet(
            func,
            bid,
            i,
            lat,
            reach,
            func.cfg.predecessors@[bid as int]@.len(),
        ) == LatticeVal::Undefined,
        forall|i: int| 0 <= i < j ==> (#[trigger] func.block_params_spec(bid as int)[i]).id < lat.len(),
    ensures
        params_met(func, bid, lat, reach, j) == lat,
    decreases j,
{
    if j > 0 {
        lemma_params_met_idle(func, bid, lat, reach, (j - 1) as nat);
        let id = func.block_params_spec(bid as int)[j - 1].id as int;
        assert(incoming_meet(func, bid, j - 1, lat, reach, func.cfg.predecessors@[bid as int]@.len())
            == LatticeVal::Undefined);
        assert(lat.update(id, spec_meet(lat[id], LatticeVal::Undefined)) =~= lat);
    }
}

/// Meets the jump arguments of reachable predecessors into the block
/// parameters of `bid`.  Only reachable edges contribute; an edge without
/// arguments while parameters exist makes every parameter `Overdefined`.
fn meet_block_params(
    func: &AmirFunc,
    bid: BlockId,
    lattice: &mut Vec<LatticeVal>,
    reachable: &Vec<bool>,
) -> (changed: bool)
    requires
        func.wf_shape(),
        bid < func.blocks@.len(),
        func.cfg.predecessors@.len() == func.blocks@.len(),
        old(lattice)@.len() == func.temps@.len(),
    ensures
        final(lattice)@ == params_met(
            *func,
            bid,
            old(lattice)@,
            reachable@,
            func.block_params_spec(bid as int).len(),
        ),
        changed == (final(lattice)@ != old(lattice)@),
        descends(old(lattice)@, final(lattice)@),
        forall|t: int|
            0 <= t < old(lattice)@.len() && (forall|i: int|
                0 <= i < func.block_params_spec(bid as int).len()
                    ==> #[trigger] func.block_params_spec(bid as int)[i].id != t)
                ==> final(lattice)@[t] == old(lattice)@[t],
{
    let ghost lat0 = lattice@;
    let ghost reach = reachable@;
    let r = func.blocks[bid].params;
    if r.len == 0 {
        proof {
            assert(func.block_ranges_ok(bid as int));
            assert(func.block_params_spec(bid as int).len() == 0);
        }
        return false;
    }
    let nt = func.temps.len();
    let n_params = r.len;
    let bp_len = func.block_params.len();
    assert(func.block_ranges_ok(bid as int));
    let ghost bps = func.block_params_spec(bid as int);
    assert(bps.len() == n_params);
    assert forall|i: int| 0 <= i < n_params implies #[trigger] bps[i] == func.block_params@[r.start + i] by {}
    let mut acc: Vec<LatticeVal> = Vec::new();
    let mut k: usize = 0;
    while k < n_params
        invariant
            acc@.len() == k,
            k <= n_params,
            forall|i: int| 0 <= i < k ==> #[trigger] acc@[i] == LatticeVal::Undefined,
        decreases n_params - k,
    {
        acc.push(LatticeVal::Undefined);
        k = k + 1;
    }
    let mut saw_pred = false;
    let preds = &func.cfg.predecessors[bid];
    let np = preds.len();
    let mut pi: usize = 0;
    while pi < np
        invariant
            func.wf_shape(),
            np == preds@.len(),
            *preds == func.cfg.predecessors@[bid as int],
            pi <= np,
            acc@.len() == n_params,
            lattice@ == lat0,
            reachable@ == reach,
            lattice@.len() == nt,
            nt == func.temps@.len(),
            n_params == r.len,
            r == func.blocks@[bid as int].params,
            r.start + r.len <= func.block_params@.len(),
            bp_len == func.block_params@.len(),
            bps == func.block_params_spec(bid as int),
            bps.len() == n_params,
            forall|i: int| 0 <= i < n_params ==> #[trigger] bps[i] == func.block_params@[r.start + i],
            forall|i: int| 0 <= i < n_params ==> #[trigger] acc@[i] == incoming_meet(*func, bid, i, lat0, reach, pi as nat),
            !saw_pred ==> forall|i: int| 0 <= i < n_params ==> #[trigger] incoming_meet(
                *func,
                bid,
                i,
                lat0,
                reach,
                pi as nat,
            ) == LatticeVal::Undefined,
        decreases np - pi,
    {
        let pred = preds[pi];
        pi = pi + 1;
        if pred >= reachable.len() || pred >= func.blocks.len() || !reachable[pred] {
            proof {
                assert forall|i: int| 0 <= i < n_params implies #[trigger] incoming_meet(
                    *func,
                    bid,
                    i,
                    lat0,
                    reach,
                    pi as nat,
                ) == incoming_meet(*func, bid, i, lat0, reach, (pi - 1) as nat) by {}
            }
            continue;
        }
        saw_pred = true;
        let term = &func.blocks[pred].terminator;
        proof {
            lemma_jump_args_ok(*term, bid, nt as nat);
        }
        match jump_args_to(term, bid) {
            None => {
                let mut i: usize = 0;
                while i < n_params
                    invariant
                        acc@.len() == n_params,
                        i <= n_params,
                        forall|j: int| 0 <= j < i ==> #[trigger] acc@[j] == LatticeVal::Overdefined,
                    decreases n_params - i,
                {
                    acc.set(i, LatticeVal::Overdefined);
                    i = i + 1;
                }
                proof {
                    assert forall|i: int| 0 <= i < n_params implies #[trigger] acc@[i] == incoming_meet(
                        *func,
                        bid,
                        i,
                        lat0,
                        reach,
                        pi as nat,
                    ) by {
                        assert(edge_value(*func, pred, bid, i, lat0) == LatticeVal::Overdefined);
                    }
                }
            },
            Some(args) => {
                let ghost acc0 = acc@;
                let mut i: usize = 0;
                while i < n_params
                    invariant
                        func.wf_shape(),
                        acc@.len() == n_params,
                        i <= n_params,
                        lattice@ == lat0,
                        lattice@.len() == nt,
                        nt == func.temps@.len(),
                        crate::amir::operands_ok(args@, nt as nat),
                        spec_jump_args_to(func.blocks@[pred as int].terminator, bid) == Some(args@),
                        r.start + r.len <= func.block_params@.len(),
                        bp_len == func.block_params@.len(),
                        n_params == r.len,
                        bps == func.block_params_spec(bid as int),
                        forall|j: int| 0 <= j < n_params ==> #[trigger] bps[j] == func.block_params@[r.start + j],
                        forall|j: int| i <= j < n_params ==> #[trigger] acc@[j] == acc0[j],
                        forall|j: int| 0 <= j < i ==> #[trigger] acc@[j] == spec_meet(
                            acc0[j],
                            edge_value(*func, pred, bid, j, lat0),
                        ),
                    decreases n_params - i,
                {
                    let arg_lat = if i < args.len() {
                        operand_lattice(&args[i], lattice)
                    } else {
                        LatticeVal::Overdefined
                    };
                    let param_temp = func.block_params[r.start + i].id;
                    let incoming = if func.temps[param_temp].is_nullable {
                        filter_nullable(arg_lat)
                    } else {
                        arg_lat
                    };
                    assert(incoming == edge_value(*func, pred, bid, i as int, lat0));
                    let m = meet(acc[i], incoming);
                    acc.set(i, m);
                    i = i + 1;
                }
            },
        }
    }
    if !saw_pred {
        proof {
            assert forall|i: int| 0 <= i < n_params implies (#[trigger] bps[i]).id < lat0.len() by {
                assert(func.block_params@[r.start + i].id < nt);
            }
            lemma_params_met_idle(*func, bid, lat0, reach, n_params as nat);
        }
        return false;
    }
    let ghost start = lattice@;
    let mut changed = false;
    let mut i: usize = 0;
    while i < n_params
        invariant
            func.wf_shape(),
            i <= n_params,
            acc@.len() == n_params,
            lattice@.len() == nt,
            nt == func.temps@.len(),
            r.start + r.len <= func.block_params@.len(),
            bp_len == func.block_params@.len(),
            n_params == r.len,
            r == func.blocks@[bid as int].params,
            start == lat0,
            np == func.cfg.predecessors@[bid as int]@.len(),
            bps == func.block_params_spec(bid as int),
            forall|j: int| 0 <= j < n_params ==> #[trigger] bps[j] == func.block_params@[r.start + j],
            forall|j: int| 0 <= j < n_params ==> #[trigger] acc@[j] == incoming_meet(*func, bid, j, lat0, reach, np as nat),
            lattice@ == params_met(*func, bid, lat0, reach, i as nat),
            descends(start, lattice@),
            forall|t: int|
                0 <= t < nt && (forall|j: int|
                    0 <= j < i ==> #[trigger] func.block_params@[r.start + j].id != t)
                    ==> lattice@[t] == start[t],
            changed == (lattice@ != start),
        decreases n_params - i,
    {
        let idx = func.block_params[r.start + i].id;
        let ghost before = lattice@;
        let c = lower_to(lattice, idx, acc[i]);
        proof {
            lemma_descends_trans(start, before, lattice@);
            if changed && lattice@ == start {
                lemma_descends_antisym(start, before);
            }
        }
        changed = changed || c;
        i = i + 1;
    }
    proof {
        assert forall|t: int|
            0 <= t < old(lattice)@.len() && (forall|j: int|
                0 <= j < func.block_params_spec(bid as int).len()
                    ==> #[trigger] func.block_params_spec(bid as int)[j].id != t)
            implies lattice@[t] == old(lattice)@[t] by {
            assert forall|j: int| 0 <= j < n_params implies #[trigger] func.block_params@[r.start + j].id != t by {
                assert(func.block_params_spec(bid as int)[j] == func.block_params@[r.start + j]);
            }
        }
    }
    changed
}

// ---------------------------------------------------------------------------
// Reverse post-order
// ---------------------------------------------------------------------------

/// Number of `false` entries.
pub open spec fn count_false(s: Seq<bool>) -> nat
    decreases s.len(),
{
    if s.len() == 0 {
        0
    } else {
        count_false(s.drop_last()) + if s.last() {
            0nat
        } else {
            1nat
        }
    }
}

pub proof fn lemma_count_false_set(s: Seq<bool>, b: int)
    requires
        0 <= b < s.len(),
        !s[b],
    ensures
        count_false(s.update(b, true)) + 1 == count_false(s),
    decreases s.len(),
{
    let u = s.update(b, true);
    if b < s.len() - 1 {
        assert(u.drop_last() == s.drop_last().update(b, true));
        lemma_count_false_set(s.drop_last(), b);
    } else {
        assert(u.drop_last() == s.drop_last());
    }
}

pub proof fn lemma_count_false_mono(s1: Seq<bool>, s2: Seq<bool>)
    requires
        s1.len() == s2.len(),
        forall|i: int| 0 <= i < s1.len() && #[trigger] s1[i] ==> s2[i],
    ensures
        count_false(s2) <= count_false(s1),
    decreases s1.len(),
{
    if s1.len() > 0 {
        lemma_count_false_mono(s1.drop_last(), s2.drop_last());
    }
}

/// Every block of `post` is in range and visited, and so is every target of
/// its terminator.
pub open spec fn finished_ok(blocks: Seq<AmirBasicBlock>, visited: Seq<bool>, post: Seq<BlockId>) -> bool {
    forall|k: int|
        0 <= k < post.len() ==> {
            &&& #[trigger] post[k] < blocks.len()
            &&& visited[post[k] as int]
            &&& forall|j: int|
                0 <= j < terminator_targets(blocks[post[k] as int].terminator).len() ==> visited[terminator_targets(
                    blocks[post[k] as int].terminator,
                )[j] as int]
        }
}

/// Depth-first walk from `b`: marks every unvisited block reachable from it
/// and appends them to `post` in post-order, `b` last.
fn dfs_post(func: &AmirFunc, b: BlockId, visited: &mut Vec<bool>, post: &mut Vec<BlockId>)
    requires
        func.wf_shape(),
        b < func.blocks@.len(),
        old(visited)@.len() == func.blocks@.len(),
        !old(visited)@[b as int],
        old(post)@.no_duplicates(),
        finished_ok(func.blocks@, old(visited)@, old(post)@),
        entry_reaches(func.blocks@, b as int),
    ensures
        final(visited)@.len() == func.blocks@.len(),
        forall|i: int| 0 <= i < func.blocks@.len() && #[trigger] old(visited)@[i] ==> final(visited)@[i],
        final(visited)@[b as int],
        count_false(final(visited)@) < count_false(old(visited)@),
        final(post)@.len() > old(post)@.len(),
        forall|k: int| 0 <= k < old(post)@.len() ==> #[trigger] final(post)@[k] == old(post)@[k],
        final(post)@.no_duplicates(),
        forall|k: int|
            old(post)@.len() <= k < final(post)@.len() ==> !old(visited)@[#[trigger] final(post)@[k] as int],
        forall|x: int|
            0 <= x < func.blocks@.len() && !old(visited)@[x] ==> (#[trigger] final(visited)@[x]
                <==> final(post)@.contains(x as BlockId)),
        finished_ok(func.blocks@, final(visited)@, final(post)@),
        forall|x: int|
            0 <= x < func.blocks@.len() && #[trigger] final(visited)@[x] && !old(visited)@[x] ==> entry_reaches(
                func.blocks@,
                x,
            ),
        final(post)@.last() == b,
    decreases count_false(old(visited)@),
{
    let nb = func.blocks.len();
    let ghost v0 = visited@;
    let ghost p0 = post@;
    proof {
        lemma_count_false_set(visited@, b as int);
        if p0.contains(b) {
            let k = choose|k: int| 0 <= k < p0.len() && p0[k] == b;
            assert(v0[p0[k] as int]);
        }
    }
    visited.set(b, true);
    proof {
        assert forall|k: int| 0 <= k < post@.len() implies {
            &&& #[trigger] post@[k] < func.blocks@.len()
            &&& visited@[post@[k] as int]
            &&& forall|j: int|
                0 <= j < terminator_targets(func.blocks@[post@[k] as int].terminator).len() ==> visited@[terminator_targets(
                    func.blocks@[post@[k] as int].terminator,
                )[j] as int]
        } by {
            assert(v0[post@[k] as int]);
        }
    }
    let succs = successor_list(&func.blocks[b].terminator);
    assert(crate::amir::targets_in_range(func.blocks@[b as int].terminator, nb as nat));
    let n = succs.len();
    let mut i: usize = 0;
    while i < n
        invariant
            func.wf_shape(),
            nb == func.blocks@.len(),
            n == succs@.len(),
            i <= n,
            b < nb,
            succs@ == terminator_targets(func.blocks@[b as int].terminator),
            crate::amir::targets_in_range(func.blocks@[b as int].terminator, nb as nat),
            entry_reaches(func.blocks@, b as int),
            visited@.len() == nb,
            v0 == old(visited)@,
            v0.len() == nb,
            !v0[b as int],
            forall|k: int| 0 <= k < nb && #[trigger] v0[k] ==> visited@[k],
            visited@[b as int],
            count_false(visited@) < count_false(v0),
            post@.len() >= p0.len(),
            forall|k: int| 0 <= k < p0.len() ==> #[trigger] post@[k] == p0[k],
            post@.no_duplicates(),
            !post@.contains(b),
            forall|k: int| p0.len() <= k < post@.len() ==> !v0[#[trigger] post@[k] as int],
            forall|x: int|
                0 <= x < nb && x != b && !v0[x] ==> (#[trigger] visited@[x] <==> post@.contains(x as BlockId)),
            finished_ok(func.blocks@, visited@, post@),
            forall|x: int| 0 <= x < nb && #[trigger] visited@[x] && !v0[x] ==> entry_reaches(func.blocks@, x),
            forall|jj: int| 0 <= jj < i ==> visited@[#[trigger] succs@[jj] as int],
        decreases n - i,
    {
        let s = succs[i];
        assert(s < nb);
        if !visited[s] {
            let ghost vb = visited@;
            let ghost pb = post@;
            proof {
                assert(terminator_targets(func.blocks@[b as int].terminator)[i as int] == s);
                crate::simplify_cfg::lemma_path_extend(func.blocks@, b as int, s);
            }
            dfs_post(func, s, visited, post);
            proof {
                lemma_count_false_mono(vb, visited@);
                if post@.contains(b) {
                    let k = choose|k: int| 0 <= k < post@.len() && post@[k] == b;
                    if k < pb.len() {
                        assert(pb[k] == b);
                    } else {
                        assert(!vb[post@[k] as int]);
                    }
                }
                assert forall|k: int| p0.len() <= k < post@.len() implies !v0[#[trigger] post@[k] as int] by {
                    if k < pb.len() {
                        assert(pb[k] == post@[k]);
                    } else {
                        assert(!vb[post@[k] as int]);
                    }
                }
                assert forall|x: int|
                    0 <= x < nb && x != b && !v0[x] implies (#[trigger] visited@[x] <==> post@.contains(
                        x as BlockId,
                    )) by {
                    if vb[x] {
                        assert(pb.contains(x as BlockId));
                        let k = choose|k: int| 0 <= k < pb.len() && pb[k] == x as BlockId;
                        assert(post@[k] == pb[k]);
                    }
                }
                assert forall|x: int| 0 <= x < nb && #[trigger] visited@[x] && !v0[x] implies entry_reaches(
                    func.blocks@,
                    x,
                ) by {
                    if vb[x] {
                        assert(entry_reaches(func.blocks@, x));
                    }
                }
                assert forall|jj: int| 0 <= jj < i + 1 implies visited@[#[trigger] succs@[jj] as int] by {
                    if jj < i {
                        assert(vb[succs@[jj] as int]);
                    }
                }
            }
        }
        i = i + 1;
    }
    let ghost pl = post@;
    post.push(b);
    proof {
        assert forall|k: int| 0 <= k < post@.len() implies {
            &&& #[trigger] post@[k] < func.blocks@.len()
            &&& visited@[post@[k] as int]
            &&& forall|j: int|
                0 <= j < terminator_targets(func.blocks@[post@[k] as int].terminator).len() ==> visited@[terminator_targets(
                    func.blocks@[post@[k] as int].terminator,
                )[j] as int]
        } by {
            if k < pl.len() {
                assert(post@[k] == pl[k]);
            } else {
                assert(post@[k] == b);
                assert forall|j: int| 0 <= j < terminator_targets(func.blocks@[b as int].terminator).len() implies visited@[terminator_targets(
                    func.blocks@[b as int].terminator,
                )[j] as int] by {
                    assert(succs@[j] == terminator_targets(func.blocks@[b as int].terminator)[j]);
                }
            }
        }
        assert forall|i1: int, j1: int|
            0 <= i1 < post@.len() && 0 <= j1 < post@.len() && i1 != j1 implies post@[i1] != post@[j1] by {
            if i1 < pl.len() && j1 < pl.len() {
                assert(pl[i1] != pl[j1]);
            } else if i1 < pl.len() {
                assert(pl.contains(pl[i1]));
            } else if j1 < pl.len() {
                assert(pl.contains(pl[j1]));
            }
        }
        assert forall|x: int|
            0 <= x < func.blocks@.len() && !v0[x] implies (#[trigger] visited@[x] <==> post@.contains(
                x as BlockId,
            )) by {
            if x == b {
                assert(post@[pl.len() as int] == b);
            } else {
                if pl.contains(x as BlockId) {
                    let k = choose|k: int| 0 <= k < pl.len() && pl[k] == x as BlockId;
                    assert(post@[k] == pl[k]);
                }
                if post@.contains(x as BlockId) {
                    let k = choose|k: int| 0 <= k < post@.len() && post@[k] == x as BlockId;
                    if k < pl.len() {
                        assert(pl[k] == x as BlockId);
                    }
                }
            }
        }
        assert forall|k: int| 0 <= k < p0.len() implies #[trigger] post@[k] == p0[k] by {
            assert(pl[k] == p0[k]);
        }
        assert forall|k: int| p0.len() <= k < post@.len() implies !v0[#[trigger] post@[k] as int] by {
            if k < pl.len() {
                assert(pl[k] == post@[k]);
            }
        }
    }
}

/// The blocks reachable from the entry, each once, in reverse post-order of
/// a depth-first walk that follows each terminator's targets in order; the
/// entry comes first.
pub fn reverse_post_order(func: &AmirFunc) -> (r: Vec<BlockId>)
    requires
        func.wf_shape(),
    ensures
        forall|i: int| 0 <= i < r@.len() ==> #[trigger] r@[i] < func.blocks@.len(),
        r@.no_duplicates(),
        forall|x: int|
            0 <= x < func.blocks@.len() ==> (r@.contains(x as BlockId) <==> #[trigger] entry_reaches(
                func.blocks@,
                x,
            )),
        func.blocks@.len() > 0 ==> r@.len() > 0 && r@[0] == 0,
{
    let nb = func.blocks.len();
    let mut post: Vec<BlockId> = Vec::new();
    if nb == 0 {
        return post;
    }
    let mut visited: Vec<bool> = Vec::new();
    let mut k: usize = 0;
    while k < nb
        invariant
            visited@.len() == k,
            k <= nb,
            forall|j: int| 0 <= j < k ==> !#[trigger] visited@[j],
        decreases nb - k,
    {
        visited.push(false);
        k = k + 1;
    }
    let ghost v0 = visited@;
    proof {
        let p = seq![0usize];
        assert(is_entry_path(func.blocks@, p) && p.last() == 0);
    }
    dfs_post(func, 0, &mut visited, &mut post);
    proof {
        assert forall|i: int, j: int|
            0 <= i < func.blocks@.len() && visited@[i] && 0 <= j < terminator_targets(
                func.blocks@[i].terminator,
            ).len() implies #[trigger] visited@[terminator_targets(#[trigger] func.blocks@[i].terminator)[j] as int] by {
            assert(!v0[i]);
            assert(post@.contains(i as BlockId));
            let k = choose|k: int| 0 <= k < post@.len() && post@[k] == i as BlockId;
            assert(post@[k] < func.blocks@.len());
        }
        assert(closed_marks(func.blocks@, visited@));
        assert forall|x: int| 0 <= x < func.blocks@.len() implies (post@.contains(x as BlockId)
            <==> entry_reaches(func.blocks@, x)) by {
            assert(!v0[x]);
            if entry_reaches(func.blocks@, x) {
                let p = choose|p: Seq<BlockId>| is_entry_path(func.blocks@, p) && p.last() == x;
                crate::simplify_cfg::lemma_closed_complete(func.blocks@, visited@, p);
            }
        }
    }
    let mut out: Vec<BlockId> = Vec::new();
    let n = post.len();
    let mut i: usize = n;
    while i > 0
        invariant
            i <= n,
            n == post@.len(),
            out@.len() == n - i,
            forall|j: int| 0 <= j < out@.len() ==> #[trigger] out@[j] == post@[n - 1 - j],
        decreases i,
    {
        i = i - 1;
        out.push(post[i]);
    }
    proof {
        assert forall|j: int| 0 <= j < out@.len() implies #[trigger] out@[j] < func.blocks@.len() by {
            assert(post@[n - 1 - j] < func.blocks@.len());
        }
        assert forall|i1: int, j1: int|
            0 <= i1 < out@.len() && 0 <= j1 < out@.len() && i1 != j1 implies out@[i1] != out@[j1] by {
            assert(out@[i1] == post@[n - 1 - i1]);
            assert(out@[j1] == post@[n - 1 - j1]);
        }
        assert forall|x: int| 0 <= x < func.blocks@.len() implies (out@.contains(x as BlockId)
            <==> #[trigger] entry_reaches(func.blocks@, x)) by {
            if post@.contains(x as BlockId) {
                let k = choose|k: int| 0 <= k < post@.len() && post@[k] == x as BlockId;
                assert(out@[n - 1 - k] == post@[k]);
            }
            if out@.contains(x as BlockId) {
                let k = choose|k: int| 0 <= k < out@.len() && out@[k] == x as BlockId;
                assert(out@[k] == post@[n - 1 - k]);
            }
        }
        assert(out@[0] == post@[n - 1]);
    }
    out
}

// ---------------------------------------------------------------------------
// Analysis
// ---------------------------------------------------------------------------

/// Facts the analysis guarantees of its result: one value per temp and one
/// flag per block, the entry reachable, parameters and receiver unknown.
pub open spec fn analysis_facts(func: AmirFunc, lat: Seq<LatticeVal>, reach: Seq<bool>) -> bool {
    &&& lat.len() == func.temps@.len()
    &&& reach.len() == func.blocks@.len()
    &&& reach[0]
    &&& forall|i: int| 0 <= i < func.params@.len() ==> lat[#[trigger] func.params@[i] as int] == LatticeVal::Overdefined
    &&& match func.receiver {
        Some(r) => lat[r.temp as int] == LatticeVal::Overdefined,
        None => true,
    }
}

proof fn lemma_facts_descend(func: AmirFunc, lat: Seq<LatticeVal>, new: Seq<LatticeVal>, reach: Seq<bool>)
    requires
        func.wf_shape(),
        analysis_facts(func, lat, reach),
        descends(lat, new),
    ensures
        analysis_facts(func, new, reach),
{
    assert forall|i: int| 0 <= i < func.params@.len() implies new[#[trigger] func.params@[i] as int]
        == LatticeVal::Overdefined by {
        assert(lattice_le(new[func.params@[i] as int], lat[func.params@[i] as int]));
    }
    match func.receiver {
        Some(r) => {
            assert(lattice_le(new[r.temp as int], lat[r.temp as int]));
        },
        None => {},
    }
}

/// The bound on analysis rounds: twice the blocks times the temps, plus
/// the headroom, saturating at `usize::MAX`.
fn max_iterations(n_blocks: usize, n_temps: usize) -> (r: usize)
    ensures
        r == if n_blocks * n_temps * 2 + DATAFLOW_FIXPOINT_HEADROOM <= usize::MAX {
            (n_blocks * n_temps * 2 + DATAFLOW_FIXPOINT_HEADROOM) as usize
        } else {
            usize::MAX
        },
{
    let prod = match n_blocks.checked_mul(n_temps) {
        Some(x) => match x.checked_mul(2) {
            Some(y) => y,
            None => {
                assert(n_blocks * n_temps * 2 > usize::MAX);
                usize::MAX
            },
        },
        None => {
            assert(n_blocks * n_temps * 2 > usize::MAX) by (nonlinear_arith)
                requires
                    n_blocks * n_temps > usize::MAX,
            ;
            usize::MAX
        },
    };
    prod.saturating_add(DATAFLOW_FIXPOINT_HEADROOM)
}

/// What one statement makes of the lattice and the pool.  An assignment
/// lowers its target to the meet with `v`, the value of its right-hand side
/// under `lat` (constants read in `pool`, new ones interned into `pool2`),
/// filtered when the target is nullable; a call with a result lowers that
/// result to `Overdefined`; every other statement changes nothing.
pub open spec fn stmt_step(
    func: AmirFunc,
    s: AmirStmt,
    lat: Seq<LatticeVal>,
    pool: Seq<AmirLiteralEntry>,
    lat2: Seq<LatticeVal>,
    pool2: Seq<AmirLiteralEntry>,
    v: LatticeVal,
) -> bool {
    match s {
        AmirStmt::Assign { lhs, rhs } => {
            &&& eval_ok(rhs, lat, pool, pool2, v)
            &&& pool_extends(pool, pool2)
            &&& lat2 == lat.update(
                lhs as int,
                spec_meet(
                    lat[lhs as int],
                    if func.temps@[lhs as int].is_nullable {
                        nullable_filter(v)
                    } else {
                        v
                    },
                ),
            )
        },
        AmirStmt::Call { lhs: Some(l), .. } => {
            &&& pool2 == pool
            &&& lat2 == lat.update(l as int, spec_meet(lat[l as int], LatticeVal::Overdefined))
        },
        _ => pool2 == pool && lat2 == lat,
    }
}

/// Statement `k` of block `bid` takes entry `k` of the trace to entry `k + 1`.
pub open spec fn trace_step(
    func: AmirFunc,
    bid: BlockId,
    lats: Seq<Seq<LatticeVal>>,
    pools: Seq<Seq<AmirLiteralEntry>>,
    vals: Seq<LatticeVal>,
    k: int,
) -> bool {
    stmt_step(
        func,
        func.stmts@[func.blocks@[bid as int].statements.start + k],
        lats[k],
        pools[k],
        lats[k + 1],
        pools[k + 1],
        vals[k],
    )
}

/// `lats` and `pools` hold the lattice and the pool before each statement of
/// block `bid` and after the last one; `vals` the values the statements
/// computed.
pub open spec fn block_trace(
    func: AmirFunc,
    bid: BlockId,
    lats: Seq<Seq<LatticeVal>>,
    pools: Seq<Seq<AmirLiteralEntry>>,
    vals: Seq<LatticeVal>,
) -> bool {
    let n = func.blocks@[bid as int].statements.len;
    &&& lats.len() == n + 1
    &&& pools.len() == n + 1
    &&& vals.len() == n
    &&& forall|k: int| 0 <= k < n ==> #[trigger] trace_step(func, bid, lats, pools, vals, k)
}

/// The statements of block `bid`, in order, take the lattice `lat` and the
/// pool `pool` to `lat2` and `pool2`.
pub open spec fn stmts_run(
    func: AmirFunc,
    bid: BlockId,
    lat: Seq<LatticeVal>,
    pool: Seq<AmirLiteralEntry>,
    lat2: Seq<LatticeVal>,
    pool2: Seq<AmirLiteralEntry>,
) -> bool {
    exists|lats: Seq<Seq<LatticeVal>>, pools: Seq<Seq<AmirLiteralEntry>>, vals: Seq<LatticeVal>|
        {
            &&& #[trigger] block_trace(func, bid, lats, pools, vals)
            &&& lats[0] == lat
            &&& pools[0] == pool
            &&& lats.last() == lat2
            &&& pools.last() == pool2
        }
}

/// Evaluates the statements of block `bid` in order, lowering the value of
/// every temp they define; returns whether the lattice changed.
fn eval_block_stmts(
    func: &AmirFunc,
    bid: BlockId,
    lattice: &mut Vec<LatticeVal>,
    pool: &mut AmirLiteralPool,
) -> (changed: bool)
    requires
        func.wf_shape(),
        bid < func.blocks@.len(),
        old(lattice)@.len() == func.temps@.len(),
    ensures
        stmts_run(*func, bid, old(lattice)@, old(pool).entries@, final(lattice)@, final(pool).entries@),
        changed == (final(lattice)@ != old(lattice)@),
        descends(old(lattice)@, final(lattice)@),
        pool_extends(old(pool).entries@, final(pool).entries@),
{
    let nt = func.temps.len();
    let ns = func.stmts.len();
    let r = func.blocks[bid].statements;
    assert(func.block_ranges_ok(bid as int));
    let ghost start = lattice@;
    let ghost pool0 = pool.entries@;
    let ghost mut lats: Seq<Seq<LatticeVal>> = seq![start];
    let ghost mut pools: Seq<Seq<AmirLiteralEntry>> = seq![pool0];
    let ghost mut vals: Seq<LatticeVal> = Seq::empty();
    let mut changed = false;
    let mut k: usize = 0;
    while k < r.len
        invariant
            func.wf_shape(),
            k <= r.len,
            bid < func.blocks@.len(),
            r == func.blocks@[bid as int].statements,
            r.start + r.len <= func.stmts@.len(),
            ns == func.stmts@.len(),
            nt == func.temps@.len(),
            lattice@.len() == nt,
            descends(start, lattice@),
            pool_extends(pool0, pool.entries@),
            changed == (lattice@ != start),
            lats.len() == k + 1,
            pools.len() == k + 1,
            vals.len() == k,
            lats[0] == start,
            pools[0] == pool0,
            lats[k as int] == lattice@,
            pools[k as int] == pool.entries@,
            forall|j: int| 0 <= j < k ==> #[trigger] trace_step(*func, bid, lats, pools, vals, j),
        decreases r.len - k,
    {
        let id = r.start + k;
        let ghost before = lattice@;
        let ghost pool_before = pool.entries@;
        let ghost mut v = LatticeVal::Undefined;
        assert(crate::amir::stmt_temps_ok(func.stmts@[id as int], nt as nat));
        match &func.stmts[id] {
            AmirStmt::Assign { lhs, rhs } => {
                let evaluated = eval_rvalue(rhs, lattice, pool);
                proof {
                    v = evaluated;
                }
                let fv = if func.temps[*lhs].is_nullable {
                    filter_nullable(evaluated)
                } else {
                    evaluated
                };
                let c = lower_to(lattice, *lhs, fv);
                proof {
                    if c && lattice@ == start {
                        lemma_descends_antisym(start, before);
                    }
                }
                changed = changed || c;
            },
            AmirStmt::Call { lhs: Some(lhs), .. } => {
                // A call result is a runtime definition: leaving it
                // `Undefined` would let a φ meet ignore that edge.
                let c = lower_to(lattice, *lhs, LatticeVal::Overdefined);
                proof {
                    if c && lattice@ == start {
                        lemma_descends_antisym(start, before);
                    }
                }
                changed = changed || c;
            },
            _ => {},
        }
        proof {
            lemma_descends_trans(start, before, lattice@);
            assert forall|i: int| 0 <= i < pool0.len() implies #[trigger] pool.entries@[i] == pool0[i] by {
                assert(pool_before[i] == pool0[i]);
            }
            let ghost old_lats = lats;
            let ghost old_pools = pools;
            let ghost old_vals = vals;
            lats = lats.push(lattice@);
            pools = pools.push(pool.entries@);
            vals = vals.push(v);
            assert(stmt_step(*func, func.stmts@[id as int], before, pool_before, lattice@, pool.entries@, v));
            assert forall|j: int| 0 <= j < k + 1 implies #[trigger] trace_step(*func, bid, lats, pools, vals, j) by {
                if j < k {
                    assert(trace_step(*func, bid, old_lats, old_pools, old_vals, j));
                    assert(lats[j] == old_lats[j]);
                    assert(lats[j + 1] == old_lats[j + 1]);
                    assert(pools[j] == old_pools[j]);
                    assert(pools[j + 1] == old_pools[j + 1]);
                    assert(vals[j] == old_vals[j]);
                }
            }
        }
        k = k + 1;
    }
    assert(block_trace(*func, bid, lats, pools, vals));
    assert(stmts_run(*func, bid, start, pool0, lattice@, pool.entries@));
    changed
}

/// What visiting block `bid` in a round does: nothing when the block is not
/// (yet) reachable; otherwise its parameters take the meet of what the
/// reachable predecessors pass, its statements are evaluated in order, and
/// the successors its terminator leaves live are marked reachable.
pub open spec fn block_step(
    func: AmirFunc,
    bid: BlockId,
    lat: Seq<LatticeVal>,
    reach: Seq<bool>,
    pool: Seq<AmirLiteralEntry>,
    lat2: Seq<LatticeVal>,
    reach2: Seq<bool>,
    pool2: Seq<AmirLiteralEntry>,
) -> bool {
    if !reach[bid as int] {
        lat2 == lat && reach2 == reach && pool2 == pool
    } else {
        &&& stmts_run(
            func,
            bid,
            params_met(func, bid, lat, reach, func.block_params_spec(bid as int).len()),
            pool,
            lat2,
            pool2,
        )
        &&& marks(reach, reach2, live_successors(func.blocks@[bid as int].terminator, lat2, pool2))
    }
}

/// Step `j` of a round: the visit of the `j`-th block of `order`.
pub open spec fn round_step(
    func: AmirFunc,
    order: Seq<BlockId>,
    lats: Seq<Seq<LatticeVal>>,
    reaches: Seq<Seq<bool>>,
    pools: Seq<Seq<AmirLiteralEntry>>,
    j: int,
) -> bool {
    block_step(func, order[j], lats[j], reaches[j], pools[j], lats[j + 1], reaches[j + 1], pools[j + 1])
}

/// `lats`, `reaches` and `pools` hold the state before each visit of a
/// round over `order` and after the last one.
pub open spec fn round_trace(
    func: AmirFunc,
    order: Seq<BlockId>,
    lat: Seq<LatticeVal>,
    reach: Seq<bool>,
    pool: Seq<AmirLiteralEntry>,
    lat2: Seq<LatticeVal>,
    reach2: Seq<bool>,
    pool2: Seq<AmirLiteralEntry>,
    lats: Seq<Seq<LatticeVal>>,
    reaches: Seq<Seq<bool>>,
    pools: Seq<Seq<AmirLiteralEntry>>,
) -> bool {
    &&& lats.len() == order.len() + 1
    &&& reaches.len() == order.len() + 1
    &&& pools.len() == order.len() + 1
    &&& lats[0] == lat
    &&& reaches[0] == reach
    &&& pools[0] == pool
    &&& lats.last() == lat2
    &&& reaches.last() == reach2
    &&& pools.last() == pool2
    &&& forall|j: int| 0 <= j < order.len() ==> #[trigger] round_step(func, order, lats, reaches, pools, j)
}

/// One round: the blocks of `order` are visited in turn, taking
/// (`lat`, `reach`, `pool`) to (`lat2`, `reach2`, `pool2`).
pub open spec fn round(
    func: AmirFunc,
    order: Seq<BlockId>,
    lat: Seq<LatticeVal>,
    reach: Seq<bool>,
    pool: Seq<AmirLiteralEntry>,
    lat2: Seq<LatticeVal>,
    reach2: Seq<bool>,
    pool2: Seq<AmirLiteralEntry>,
) -> bool {
    exists|lats: Seq<Seq<LatticeVal>>, reaches: Seq<Seq<bool>>, pools: Seq<Seq<AmirLiteralEntry>>|
        #[trigger] round_trace(func, order, lat, reach, pool, lat2, reach2, pool2, lats, reaches, pools)
}

/// The starting lattice: parameters and the receiver `Overdefined`, every
/// other temp `Undefined`.
pub open spec fn initial_lattice(func: AmirFunc) -> Seq<LatticeVal> {
    Seq::new(
        func.temps@.len(),
        |t: int|
            if func.params@.contains(t as TempId) || (func.receiver matches Some(r) && r.temp == t) {
                LatticeVal::Overdefined
            } else {
                LatticeVal::Undefined
            },
    )
}

/// The starting reachability: the entry block only.
pub open spec fn initial_reach(func: AmirFunc) -> Seq<bool> {
    Seq::new(func.blocks@.len(), |b: int| b == 0)
}

/// The bound on the number of rounds (see `max_iterations`).
pub open spec fn max_rounds(func: AmirFunc) -> int {
    let x = func.blocks@.len() * func.temps@.len() * 2 + DATAFLOW_FIXPOINT_HEADROOM;
    if x <= usize::MAX {
        x
    } else {
        usize::MAX as int
    }
}

/// `order` lists the blocks reachable from the entry, each once, entry first.
pub open spec fn rpo_ok(func: AmirFunc, order: Seq<BlockId>) -> bool {
    &&& forall|i: int| 0 <= i < order.len() ==> #[trigger] order[i] < func.blocks@.len()
    &&& order.no_duplicates()
    &&& forall|x: int|
        0 <= x < func.blocks@.len() ==> (order.contains(x as BlockId) <==> #[trigger] entry_reaches(
            func.blocks@,
            x,
        ))
    &&& order.len() > 0
    &&& order[0] == 0
}

/// Round `i` of a run takes state `i` to state `i + 1`.
pub open spec fn run_step(
    func: AmirFunc,
    order: Seq<BlockId>,
    lats: Seq<Seq<LatticeVal>>,
    reaches: Seq<Seq<bool>>,
    pools: Seq<Seq<AmirLiteralEntry>>,
    i: int,
) -> bool {
    round(func, order, lats[i], reaches[i], pools[i], lats[i + 1], reaches[i + 1], pools[i + 1])
}

/// The states of the analysis before each round and after the last: it
/// starts from the initial lattice and reachability, runs rounds over
/// `order`, and stops after a round that changes neither the lattice nor
/// the reachability, or when the bound on rounds is reached.
pub open spec fn analysis_run(
    func: AmirFunc,
    order: Seq<BlockId>,
    lats: Seq<Seq<LatticeVal>>,
    reaches: Seq<Seq<bool>>,
    pools: Seq<Seq<AmirLiteralEntry>>,
) -> bool {
    let n = lats.len();
    &&& n >= 1
    &&& reaches.len() == n
    &&& pools.len() == n
    &&& lats[0] == initial_lattice(func)
    &&& reaches[0] == initial_reach(func)
    &&& forall|i: int| 0 <= i < n - 1 ==> #[trigger] run_step(func, order, lats, reaches, pools, i)
    &&& n - 1 <= max_rounds(func)
    &&& forall|i: int| 0 <= i < n - 2 ==> lats[i + 1] != #[trigger] lats[i] || reaches[i + 1] != reaches[i]
    &&& n - 1 == max_rounds(func) || (n >= 2 && lats[n - 1] == lats[n - 2] && reaches[n - 1] == reaches[
        n - 2
    ])
}

/// (`lat`, `reach`, `pool`) is where the analysis over `order` ends when it
/// starts with the pool `pool0`.
pub open spec fn analysis_result(
    func: AmirFunc,
    order: Seq<BlockId>,
    pool0: Seq<AmirLiteralEntry>,
    lat: Seq<LatticeVal>,
    reach: Seq<bool>,
    pool: Seq<AmirLiteralEntry>,
) -> bool {
    exists|lats: Seq<Seq<LatticeVal>>, reaches: Seq<Seq<bool>>, pools: Seq<Seq<AmirLiteralEntry>>|
        {
            &&& #[trigger] analysis_run(func, order, lats, reaches, pools)
            &&& pools[0] == pool0
            &&& lats.last() == lat
            &&& reaches.last() == reach
            &&& pools.last() == pool
        }
}

/// `new` has every flag of `old` set.
pub open spec fn grows(old: Seq<bool>, new: Seq<bool>) -> bool {
    &&& new.len() == old.len()
    &&& forall|i: int| 0 <= i < old.len() && #[trigger] old[i] ==> new[i]
}

/// Along a descending lattice and growing reachability, a state that moved
/// away from the start cannot come back to it.
proof fn lemma_state_moves(
    l0: Seq<LatticeVal>,
    lb: Seq<LatticeVal>,
    la: Seq<LatticeVal>,
    r0: Seq<bool>,
    rb: Seq<bool>,
    ra: Seq<bool>,
)
    requires
        descends(l0, lb),
        descends(lb, la),
        grows(r0, rb),
        grows(rb, ra),
        lb != l0 || rb != r0 || la != lb || ra != rb,
    ensures
        la != l0 || ra != r0,
{
    if la == l0 && ra == r0 {
        lemma_descends_antisym(l0, lb);
        assert(rb =~= r0) by {
            assert forall|i: int| 0 <= i < r0.len() implies rb[i] == r0[i] by {
                if rb[i] {
                    assert(ra[i]);
                }
            }
        }
    }
}

/// Phase 1: lattice values and reachability, iterated over the blocks in
/// reverse post-order until a round changes nothing (with a bound on the
/// number of rounds).
fn analyse(func: &AmirFunc, pool: &mut AmirLiteralPool) -> (res: (Vec<LatticeVal>, Vec<bool>))
    requires
        func.wf_shape(),
        func.cfg.predecessors@.len() == func.blocks@.len(),
        func.temps@.len() > 0,
        func.blocks@.len() > 0,
    ensures
        analysis_facts(*func, res.0@, res.1@),
        pool_extends(old(pool).entries@, final(pool).entries@),
        exists|order: Seq<BlockId>|
            rpo_ok(*func, order) && #[trigger] analysis_result(
                *func,
                order,
                old(pool).entries@,
                res.0@,
                res.1@,
                final(pool).entries@,
            ),
{
    let nt = func.temps.len();
    let nb = func.blocks.len();
    let ghost pool0 = pool.entries@;
    let mut lattice: Vec<LatticeVal> = Vec::new();
    let mut k: usize = 0;
    while k < nt
        invariant
            lattice@.len() == k,
            k <= nt,
            forall|t: int| 0 <= t < k ==> #[trigger] lattice@[t] == LatticeVal::Undefined,
        decreases nt - k,
    {
        lattice.push(LatticeVal::Undefined);
        k = k + 1;
    }
    let np = func.params.len();
    let mut k: usize = 0;
    while k < np
        invariant
            func.wf_shape(),
            lattice@.len() == nt,
            nt == func.temps@.len(),
            np == func.params@.len(),
            k <= np,
            forall|t: int|
                0 <= t < nt ==> #[trigger] lattice@[t] == if func.params@.take(k as int).contains(t as TempId) {
                    LatticeVal::Overdefined
                } else {
                    LatticeVal::Undefined
                },
        decreases np - k,
    {
        let ghost before = lattice@;
        lattice.set(func.params[k], LatticeVal::Overdefined);
        proof {
            assert forall|t: int|
                0 <= t < nt implies #[trigger] lattice@[t] == if func.params@.take(k + 1).contains(t as TempId) {
                    LatticeVal::Overdefined
                } else {
                    LatticeVal::Undefined
                } by {
                let a = func.params@.take(k as int);
                let b = func.params@.take(k + 1);
                assert(b == a.push(func.params@[k as int]));
                if a.contains(t as TempId) {
                    let w = choose|w: int| 0 <= w < a.len() && a[w] == t as TempId;
                    assert(b[w] == t as TempId);
                }
                if b.contains(t as TempId) && t != func.params@[k as int] {
                    let w = choose|w: int| 0 <= w < b.len() && b[w] == t as TempId;
                    assert(a[w] == t as TempId);
                }
                if t == func.params@[k as int] {
                    assert(b[k as int] == t as TempId);
                }
            }
        }
        k = k + 1;
    }
    assert(func.params@.take(np as int) == func.params@);
    match func.receiver {
        Some(receiver) => {
            lattice.set(receiver.temp, LatticeVal::Overdefined);
        },
        None => {},
    }
    assert(lattice@ =~= initial_lattice(*func));
    let mut reachable: Vec<bool> = Vec::new();
    let mut k: usize = 0;
    while k < nb
        invariant
            reachable@.len() == k,
            k <= nb,
            forall|b: int| 0 <= b < k ==> !#[trigger] reachable@[b],
        decreases nb - k,
    {
        reachable.push(false);
        k = k + 1;
    }
    reachable.set(0, true);
    assert(reachable@ =~= initial_reach(*func));
    assert forall|i: int| 0 <= i < func.params@.len() implies lattice@[#[trigger] func.params@[i] as int]
        == LatticeVal::Overdefined by {
        assert(func.params@[i] < nt);
        assert(func.params@.contains(func.params@[i]));
    }
    assert(analysis_facts(*func, lattice@, reachable@));

    let rpo = reverse_post_order(func);
    assert(rpo_ok(*func, rpo@));
    let max_iters = max_iterations(nb, nt);
    assert(max_iters == max_rounds(*func));
    let ghost mut run_l: Seq<Seq<LatticeVal>> = seq![lattice@];
    let ghost mut run_r: Seq<Seq<bool>> = seq![reachable@];
    let ghost mut run_p: Seq<Seq<AmirLiteralEntry>> = seq![pool0];
    let mut iters: usize = 0;
    loop
        invariant_except_break
            iters >= 1 ==> run_l[iters as int] != run_l[iters - 1] || run_r[iters as int] != run_r[iters - 1],
        invariant
            func.wf_shape(),
            func.cfg.predecessors@.len() == func.blocks@.len(),
            nt == func.temps@.len(),
            nb == func.blocks@.len(),
            analysis_facts(*func, lattice@, reachable@),
            forall|i: int| 0 <= i < rpo@.len() ==> #[trigger] rpo@[i] < nb,
            iters <= max_iters,
            max_iters == max_rounds(*func),
            pool_extends(pool0, pool.entries@),
            run_l.len() == iters + 1,
            run_r.len() == iters + 1,
            run_p.len() == iters + 1,
            run_l[0] == initial_lattice(*func),
            run_r[0] == initial_reach(*func),
            run_p[0] == pool0,
            run_l.last() == lattice@,
            run_r.last() == reachable@,
            run_p.last() == pool.entries@,
            forall|i: int| 0 <= i < iters ==> #[trigger] run_step(*func, rpo@, run_l, run_r, run_p, i),
            forall|i: int| 0 <= i < iters - 1 ==> run_l[i + 1] != #[trigger] run_l[i] || run_r[i + 1] != run_r[i],
        ensures
            iters == max_iters || (iters >= 1 && run_l[iters as int] == run_l[iters - 1] && run_r[iters as int]
                == run_r[iters - 1]),
        decreases max_iters - iters,
    {
        if iters >= max_iters {
            break;
        }
        iters = iters + 1;
        let ghost l_start = lattice@;
        let ghost r_start = reachable@;
        let ghost p_start = pool.entries@;
        let ghost mut rl: Seq<Seq<LatticeVal>> = seq![lattice@];
        let ghost mut rr: Seq<Seq<bool>> = seq![reachable@];
        let ghost mut rp: Seq<Seq<AmirLiteralEntry>> = seq![pool.entries@];
        let mut changed = false;
        let n = rpo.len();
        let mut j: usize = 0;
        while j < n
            invariant
                func.wf_shape(),
                func.cfg.predecessors@.len() == func.blocks@.len(),
                nt == func.temps@.len(),
                nb == func.blocks@.len(),
                analysis_facts(*func, lattice@, reachable@),
                forall|i: int| 0 <= i < rpo@.len() ==> #[trigger] rpo@[i] < nb,
                n == rpo@.len(),
                j <= n,
                pool_extends(pool0, pool.entries@),
                descends(l_start, lattice@),
                grows(r_start, reachable@),
                changed ==> lattice@ != l_start || reachable@ != r_start,
                rl.len() == j + 1,
                rr.len() == j + 1,
                rp.len() == j + 1,
                rl[0] == l_start,
                rr[0] == r_start,
                rp[0] == p_start,
                rl.last() == lattice@,
                rr.last() == reachable@,
                rp.last() == pool.entries@,
                forall|i: int| 0 <= i < j ==> #[trigger] round_step(*func, rpo@, rl, rr, rp, i),
                !changed ==> lattice@ == l_start && reachable@ == r_start,
            decreases n - j,
        {
            let bid = rpo[j];
            let ghost lb = lattice@;
            let ghost rb = reachable@;
            let ghost pb = pool.entries@;
            if reachable[bid] {
                let c1 = meet_block_params(func, bid, &mut lattice, &reachable);
                proof {
                    lemma_facts_descend(*func, lb, lattice@, reachable@);
                    if changed || c1 {
                        lemma_state_moves(l_start, lb, lattice@, r_start, rb, rb);
                    }
                    lemma_descends_trans(l_start, lb, lattice@);
                }
                let ghost l1 = lattice@;
                let c2 = eval_block_stmts(func, bid, &mut lattice, pool);
                proof {
                    lemma_facts_descend(*func, l1, lattice@, reachable@);
                    if changed || c1 || c2 {
                        lemma_state_moves(l_start, l1, lattice@, r_start, rb, rb);
                    }
                    lemma_descends_trans(l_start, l1, lattice@);
                    assert forall|i: int| 0 <= i < pool0.len() implies #[trigger] pool.entries@[i] == pool0[i] by {
                        assert(pb[i] == pool0[i]);
                    }
                }
                let ghost r0 = reachable@;
                assert(crate::amir::operands_ok(
                    crate::amir::terminator_operands(func.blocks@[bid as int].terminator),
                    nt as nat,
                ));
                let c3 = propagate_branches(&func.blocks[bid].terminator, &lattice, pool, &mut reachable);
                proof {
                    assert(reachable@[0] == (r0[0] || exists|jj: int|
                        0 <= jj < live_successors(func.blocks@[bid as int].terminator, lattice@, pool.entries@).len()
                            && live_successors(func.blocks@[bid as int].terminator, lattice@, pool.entries@)[jj] == 0));
                    assert(grows(r0, reachable@));
                    if changed || c1 || c2 || c3 {
                        lemma_state_moves(l_start, lattice@, lattice@, r_start, r0, reachable@);
                    }
                    assert(grows(r_start, reachable@));
                }
                changed = changed || c1 || c2 || c3;
            }
            proof {
                assert(block_step(*func, bid, lb, rb, pb, lattice@, reachable@, pool.entries@));
                let ghost ol = rl;
                let ghost or = rr;
                let ghost op = rp;
                rl = rl.push(lattice@);
                rr = rr.push(reachable@);
                rp = rp.push(pool.entries@);
                assert forall|i: int| 0 <= i < j + 1 implies #[trigger] round_step(*func, rpo@, rl, rr, rp, i) by {
                    if i < j {
                        assert(round_step(*func, rpo@, ol, or, op, i));
                        assert(rl[i] == ol[i] && rl[i + 1] == ol[i + 1]);
                        assert(rr[i] == or[i] && rr[i + 1] == or[i + 1]);
                        assert(rp[i] == op[i] && rp[i + 1] == op[i + 1]);
                    }
                }
            }
            j = j + 1;
        }
        proof {
            assert(round_trace(*func, rpo@, l_start, r_start, p_start, lattice@, reachable@, pool.entries@, rl, rr, rp));
            assert(round(*func, rpo@, l_start, r_start, p_start, lattice@, reachable@, pool.entries@));
            let ghost ol = run_l;
            let ghost or = run_r;
            let ghost op = run_p;
            run_l = run_l.push(lattice@);
            run_r = run_r.push(reachable@);
            run_p = run_p.push(pool.entries@);
            assert forall|i: int| 0 <= i < iters implies #[trigger] run_step(*func, rpo@, run_l, run_r, run_p, i) by {
                if i < iters - 1 {
                    assert(run_step(*func, rpo@, ol, or, op, i));
                    assert(run_l[i] == ol[i] && run_l[i + 1] == ol[i + 1]);
                    assert(run_r[i] == or[i] && run_r[i + 1] == or[i + 1]);
                    assert(run_p[i] == op[i] && run_p[i + 1] == op[i + 1]);
                } else {
                    assert(run_l[i] == l_start && run_r[i] == r_start && run_p[i] == p_start);
                }
            }
            assert forall|i: int| 0 <= i < iters - 1 implies run_l[i + 1] != #[trigger] run_l[i] || run_r[i + 1]
                != run_r[i] by {
                assert(run_l[i] == ol[i] && run_l[i + 1] == ol[i + 1]);
                assert(run_r[i] == or[i] && run_r[i + 1] == or[i + 1]);
            }
        }
        if !changed {
            break;
        }
    }
    proof {
        assert(rpo_ok(*func, rpo@));
        assert(pool0 == old(pool).entries@);
        assert(analysis_run(*func, rpo@, run_l, run_r, run_p));
        assert(analysis_result(*func, rpo@, pool0, lattice@, reachable@, pool.entries@));
    }
    let res = (lattice, reachable);
    assert(rpo_ok(*func, rpo@) && analysis_result(*func, rpo@, old(pool).entries@, res.0@, res.1@, pool.entries@));
    res
}

// ---------------------------------------------------------------------------
// Monotonicity and the fixpoint of the analysis
// ---------------------------------------------------------------------------

proof fn lemma_meet_le(a: LatticeVal, b: LatticeVal)
    ensures
        lattice_le(spec_meet(a, b), a),
{
    lemma_meet_is_glb(a, b, a);
}

proof fn lemma_descends_update(lat: Seq<LatticeVal>, id: int, v: LatticeVal)
    requires
        0 <= id < lat.len(),
    ensures
        descends(lat, lat.update(id, spec_meet(lat[id], v))),
{
    lemma_meet_le(lat[id], v);
}

proof fn lemma_descends_refl(a: Seq<LatticeVal>)
    ensures
        descends(a, a),
{
}

/// Lowering block parameters only lowers the lattice.
proof fn lemma_params_met_descends(func: AmirFunc, bid: BlockId, lat: Seq<LatticeVal>, reach: Seq<bool>, j: nat)
    requires
        forall|i: int| 0 <= i < j ==> (#[trigger] func.block_params_spec(bid as int)[i]).id < lat.len(),
    ensures
        descends(lat, params_met(func, bid, lat, reach, j)),
    decreases j,
{
    if j > 0 {
        lemma_params_met_descends(func, bid, lat, reach, (j - 1) as nat);
        let prev = params_met(func, bid, lat, reach, (j - 1) as nat);
        let id = func.block_params_spec(bid as int)[j - 1].id as int;
        assert(func.block_params_spec(bid as int)[j - 1].id < lat.len());
        lemma_descends_update(
            prev,
            id,
            incoming_meet(func, bid, j - 1, lat, reach, func.cfg.predecessors@[bid as int]@.len()),
        );
        lemma_descends_trans(lat, prev, params_met(func, bid, lat, reach, j));
    }
}

/// A statement only lowers the lattice.
proof fn lemma_stmt_step_descends(
    func: AmirFunc,
    s: AmirStmt,
    lat: Seq<LatticeVal>,
    pool: Seq<AmirLiteralEntry>,
    lat2: Seq<LatticeVal>,
    pool2: Seq<AmirLiteralEntry>,
    v: LatticeVal,
)
    requires
        crate::amir::stmt_temps_ok(s, lat.len()),
        stmt_step(func, s, lat, pool, lat2, pool2, v),
    ensures
        descends(lat, lat2),
        pool_extends(pool, pool2),
{
    match s {
        AmirStmt::Assign { lhs, rhs } => {
            lemma_descends_update(
                lat,
                lhs as int,
                if func.temps@[lhs as int].is_nullable {
                    nullable_filter(v)
                } else {
                    v
                },
            );
        },
        AmirStmt::Call { lhs: Some(l), .. } => {
            lemma_descends_update(lat, l as int, LatticeVal::Overdefined);
        },
        _ => {},
    }
}

/// Along a trace of the statements of a block, the lattice only descends
/// and the pool only grows.
proof fn lemma_trace_descends(
    func: AmirFunc,
    bid: BlockId,
    lats: Seq<Seq<LatticeVal>>,
    pools: Seq<Seq<AmirLiteralEntry>>,
    vals: Seq<LatticeVal>,
    a: int,
    k: int,
)
    requires
        func.wf_shape(),
        bid < func.blocks@.len(),
        block_trace(func, bid, lats, pools, vals),
        lats[a].len() == func.temps@.len(),
        0 <= a <= k <= func.blocks@[bid as int].statements.len,
    ensures
        descends(lats[a], lats[k]),
        pool_extends(pools[a], pools[k]),
    decreases k - a,
{
    if k == a {
        lemma_descends_refl(lats[a]);
    } else {
        lemma_trace_descends(func, bid, lats, pools, vals, a, k - 1);
        let r = func.blocks@[bid as int].statements;
        assert(func.block_ranges_ok(bid as int));
        assert(trace_step(func, bid, lats, pools, vals, k - 1));
        assert(crate::amir::stmt_temps_ok(func.stmts@[r.start + k - 1], func.temps@.len()));
        lemma_stmt_step_descends(
            func,
            func.stmts@[r.start + k - 1],
            lats[k - 1],
            pools[k - 1],
            lats[k],
            pools[k],
            vals[k - 1],
        );
        lemma_descends_trans(lats[a], lats[k - 1], lats[k]);
    }
}

/// Evaluating the statements of a block only lowers the lattice and only
/// grows the pool.
proof fn lemma_stmts_run_descends(
    func: AmirFunc,
    bid: BlockId,
    lat: Seq<LatticeVal>,
    pool: Seq<AmirLiteralEntry>,
    lat2: Seq<LatticeVal>,
    pool2: Seq<AmirLiteralEntry>,
)
    requires
        func.wf_shape(),
        bid < func.blocks@.len(),
        lat.len() == func.temps@.len(),
        stmts_run(func, bid, lat, pool, lat2, pool2),
    ensures
        descends(lat, lat2),
        pool_extends(pool, pool2),
{
    let (lats, pools, vals) = choose|lats: Seq<Seq<LatticeVal>>, pools: Seq<Seq<AmirLiteralEntry>>, vals: Seq<LatticeVal>|
        {
            &&& #[trigger] block_trace(func, bid, lats, pools, vals)
            &&& lats[0] == lat
            &&& pools[0] == pool
            &&& lats.last() == lat2
            &&& pools.last() == pool2
        };
    lemma_trace_descends(func, bid, lats, pools, vals, 0, func.blocks@[bid as int].statements.len as int);
}

/// Visiting a block only lowers the lattice, only adds reachable blocks and
/// only grows the pool.
proof fn lemma_block_step_mono(
    func: AmirFunc,
    bid: BlockId,
    lat: Seq<LatticeVal>,
    reach: Seq<bool>,
    pool: Seq<AmirLiteralEntry>,
    lat2: Seq<LatticeVal>,
    reach2: Seq<bool>,
    pool2: Seq<AmirLiteralEntry>,
)
    requires
        func.wf_shape(),
        bid < func.blocks@.len(),
        lat.len() == func.temps@.len(),
        reach.len() == func.blocks@.len(),
        block_step(func, bid, lat, reach, pool, lat2, reach2, pool2),
    ensures
        descends(lat, lat2),
        grows(reach, reach2),
        pool_extends(pool, pool2),
{
    if !reach[bid as int] {
        lemma_descends_refl(lat);
    } else {
        let n = func.block_params_spec(bid as int).len();
        assert(func.block_ranges_ok(bid as int));
        assert forall|i: int| 0 <= i < n implies (#[trigger] func.block_params_spec(bid as int)[i]).id < lat.len() by {
            let r = func.blocks@[bid as int].params;
            assert(func.block_params_spec(bid as int)[i] == func.block_params@[r.start + i]);
        }
        lemma_params_met_descends(func, bid, lat, reach, n);
        let l1 = params_met(func, bid, lat, reach, n);
        lemma_stmts_run_descends(func, bid, l1, pool, lat2, pool2);
        lemma_descends_trans(lat, l1, lat2);
    }
}

proof fn lemma_grows_trans(a: Seq<bool>, b: Seq<bool>, c: Seq<bool>)
    requires
        grows(a, b),
        grows(b, c),
    ensures
        grows(a, c),
{
}

/// Along a round, the lattice only descends, reachability only grows and
/// the pool only grows.
proof fn lemma_round_chain(
    func: AmirFunc,
    order: Seq<BlockId>,
    lats: Seq<Seq<LatticeVal>>,
    reaches: Seq<Seq<bool>>,
    pools: Seq<Seq<AmirLiteralEntry>>,
    a: int,
    k: int,
)
    requires
        func.wf_shape(),
        forall|i: int| 0 <= i < order.len() ==> #[trigger] order[i] < func.blocks@.len(),
        lats.len() == order.len() + 1,
        reaches.len() == order.len() + 1,
        pools.len() == order.len() + 1,
        forall|j: int| 0 <= j < order.len() ==> #[trigger] round_step(func, order, lats, reaches, pools, j),
        lats[a].len() == func.temps@.len(),
        reaches[a].len() == func.blocks@.len(),
        0 <= a <= k <= order.len(),
    ensures
        descends(lats[a], lats[k]),
        grows(reaches[a], reaches[k]),
        pool_extends(pools[a], pools[k]),
    decreases k - a,
{
    if k == a {
        lemma_descends_refl(lats[a]);
    } else {
        lemma_round_chain(func, order, lats, reaches, pools, a, k - 1);
        assert(round_step(func, order, lats, reaches, pools, k - 1));
        assert(order[k - 1] < func.blocks@.len());
        lemma_block_step_mono(
            func,
            order[k - 1],
            lats[k - 1],
            reaches[k - 1],
            pools[k - 1],
            lats[k],
            reaches[k],
            pools[k],
        );
        lemma_descends_trans(lats[a], lats[k - 1], lats[k]);
        lemma_grows_trans(reaches[a], reaches[k - 1], reaches[k]);
    }
}

proof fn lemma_round_mono(
    func: AmirFunc,
    order: Seq<BlockId>,
    lat: Seq<LatticeVal>,
    reach: Seq<bool>,
    pool: Seq<AmirLiteralEntry>,
    lat2: Seq<LatticeVal>,
    reach2: Seq<bool>,
    pool2: Seq<AmirLiteralEntry>,
)
    requires
        func.wf_shape(),
        forall|i: int| 0 <= i < order.len() ==> #[trigger] order[i] < func.blocks@.len(),
        lat.len() == func.temps@.len(),
        reach.len() == func.blocks@.len(),
        round(func, order, lat, reach, pool, lat2, reach2, pool2),
    ensures
        descends(lat, lat2),
        grows(reach, reach2),
        pool_extends(pool, pool2),
{
    let (lats, reaches, pools) = choose|lats: Seq<Seq<LatticeVal>>, reaches: Seq<Seq<bool>>, pools: Seq<Seq<AmirLiteralEntry>>|
        round_trace(func, order, lat, reach, pool, lat2, reach2, pool2, lats, reaches, pools);
    lemma_round_chain(func, order, lats, reaches, pools, 0, order.len() as int);
}

/// At a fixpoint, the parameters of block `bid` already hold what its
/// reachable predecessors pass, evaluating its statements (from the pool
/// `pool`, interning into `pool2`) changes nothing, and every successor its
/// terminator leaves live is reachable.
pub open spec fn block_fixed(
    func: AmirFunc,
    bid: BlockId,
    lat: Seq<LatticeVal>,
    reach: Seq<bool>,
    pool: Seq<AmirLiteralEntry>,
    pool2: Seq<AmirLiteralEntry>,
) -> bool {
    &&& params_met(func, bid, lat, reach, func.block_params_spec(bid as int).len()) == lat
    &&& stmts_run(func, bid, lat, pool, lat, pool2)
    &&& marks(reach, reach, live_successors(func.blocks@[bid as int].terminator, lat, pool2))
}

/// A round that changes neither the lattice nor the reachability leaves
/// every reachable block of `order` at a fixpoint.
proof fn lemma_round_fixed(
    func: AmirFunc,
    order: Seq<BlockId>,
    lat: Seq<LatticeVal>,
    reach: Seq<bool>,
    pool: Seq<AmirLiteralEntry>,
    pool2: Seq<AmirLiteralEntry>,
)
    requires
        func.wf_shape(),
        forall|i: int| 0 <= i < order.len() ==> #[trigger] order[i] < func.blocks@.len(),
        lat.len() == func.temps@.len(),
        reach.len() == func.blocks@.len(),
        round(func, order, lat, reach, pool, lat, reach, pool2),
    ensures
        forall|j: int|
            0 <= j < order.len() && reach[order[j] as int] ==> exists|p1: Seq<AmirLiteralEntry>, p2: Seq<AmirLiteralEntry>|
                pool_extends(p2, pool2) && #[trigger] block_fixed(func, order[j], lat, reach, p1, p2),
{
    let (lats, reaches, pools) = choose|lats: Seq<Seq<LatticeVal>>, reaches: Seq<Seq<bool>>, pools: Seq<Seq<AmirLiteralEntry>>|
        round_trace(func, order, lat, reach, pool, lat, reach, pool2, lats, reaches, pools);
    let n = order.len() as int;
    assert forall|j: int| 0 <= j <= n implies lats[j] == lat && reaches[j] == reach by {
        lemma_round_chain(func, order, lats, reaches, pools, 0, j);
        lemma_round_chain(func, order, lats, reaches, pools, j, n);
        lemma_descends_antisym(lat, lats[j]);
        assert(reaches[j] =~= reach) by {
            assert forall|i: int| 0 <= i < reach.len() implies reaches[j][i] == reach[i] by {
                if reaches[j][i] {
                    assert(reaches[n][i]);
                }
            }
        }
    }
    assert forall|j: int| 0 <= j < n && reach[order[j] as int] implies exists|
        p1: Seq<AmirLiteralEntry>,
        p2: Seq<AmirLiteralEntry>,
    | pool_extends(p2, pool2) && #[trigger] block_fixed(func, order[j], lat, reach, p1, p2) by {
        let bid = order[j];
        assert(round_step(func, order, lats, reaches, pools, j));
        assert(lats[j] == lat && reaches[j] == reach);
        assert(lats[j + 1] == lat && reaches[j + 1] == reach);
        lemma_round_chain(func, order, lats, reaches, pools, j + 1, n);
        let np = func.block_params_spec(bid as int).len();
        assert(func.block_ranges_ok(bid as int));
        assert forall|i: int| 0 <= i < np implies (#[trigger] func.block_params_spec(bid as int)[i]).id < lat.len() by {
            let r = func.blocks@[bid as int].params;
            assert(func.block_params_spec(bid as int)[i] == func.block_params@[r.start + i]);
        }
        lemma_params_met_descends(func, bid, lat, reach, np);
        let l1 = params_met(func, bid, lat, reach, np);
        lemma_stmts_run_descends(func, bid, l1, pools[j], lat, pools[j + 1]);
        lemma_descends_antisym(lat, l1);
        assert(block_fixed(func, bid, lat, reach, pools[j], pools[j + 1]));
    }
}

/// Sum of the heights of the values of a lattice.
pub open spec fn height_sum(s: Seq<LatticeVal>) -> nat
    decreases s.len(),
{
    if s.len() == 0 {
        0
    } else {
        height_sum(s.drop_last()) + lattice_height(s.last())
    }
}

proof fn lemma_height_sum_descends(a: Seq<LatticeVal>, b: Seq<LatticeVal>)
    requires
        descends(a, b),
    ensures
        height_sum(b) <= height_sum(a),
        height_sum(a) <= 2 * a.len(),
        a != b ==> height_sum(b) < height_sum(a),
    decreases a.len(),
{
    if a.len() > 0 {
        let a1 = a.drop_last();
        let b1 = b.drop_last();
        assert(descends(a1, b1)) by {
            assert forall|t: int| 0 <= t < a1.len() implies lattice_le(#[trigger] b1[t], a1[t]) by {
                assert(lattice_le(b[t], a[t]));
            }
        }
        lemma_height_sum_descends(a1, b1);
        assert(lattice_le(b[a.len() - 1], a[a.len() - 1]));
        if a != b && a1 == b1 {
            assert(a.last() != b.last()) by {
                if a.last() == b.last() {
                    assert forall|i: int| 0 <= i < a.len() implies a[i] == b[i] by {
                        if i < a.len() - 1 {
                            assert(a1[i] == b1[i]);
                        }
                    }
                    assert(a =~= b);
                }
            }
        }
        if a != b && a1 != b1 {
            assert(height_sum(b1) < height_sum(a1));
        }
        assert(height_sum(a) == height_sum(a1) + lattice_height(a.last()));
        assert(height_sum(b) == height_sum(b1) + lattice_height(b.last()));
    } else {
        assert(a =~= b);
    }
}

proof fn lemma_count_false_grows(a: Seq<bool>, b: Seq<bool>)
    requires
        grows(a, b),
    ensures
        count_false(b) <= count_false(a),
        count_false(a) <= a.len(),
        a != b ==> count_false(b) < count_false(a),
    decreases a.len(),
{
    if a.len() > 0 {
        let a1 = a.drop_last();
        let b1 = b.drop_last();
        assert(grows(a1, b1)) by {
            assert forall|i: int| 0 <= i < a1.len() && #[trigger] a1[i] implies b1[i] by {
                assert(a[i]);
            }
        }
        lemma_count_false_grows(a1, b1);
        if a != b && a1 == b1 {
            assert(a.last() != b.last()) by {
                if a.last() == b.last() {
                    assert forall|i: int| 0 <= i < a.len() implies a[i] == b[i] by {
                        if i < a.len() - 1 {
                            assert(a1[i] == b1[i]);
                        }
                    }
                    assert(a =~= b);
                }
            }
        }
        assert(count_false(a) == count_false(a1) + if a.last() { 0nat } else { 1nat });
        assert(count_false(b) == count_false(b1) + if b.last() { 0nat } else { 1nat });
    } else {
        assert(a =~= b);
    }
}

/// Each round before the last lowers `height_sum + count_false` by at least
/// one.
proof fn lemma_run_potential(
    func: AmirFunc,
    order: Seq<BlockId>,
    lats: Seq<Seq<LatticeVal>>,
    reaches: Seq<Seq<bool>>,
    pools: Seq<Seq<AmirLiteralEntry>>,
    i: int,
)
    requires
        func.wf_shape(),
        func.blocks@.len() > 0,
        forall|k: int| 0 <= k < order.len() ==> #[trigger] order[k] < func.blocks@.len(),
        analysis_run(func, order, lats, reaches, pools),
        0 <= i <= lats.len() - 1,
        i <= lats.len() - 2 || i == 0,
    ensures
        lats[i].len() == func.temps@.len(),
        reaches[i].len() == func.blocks@.len(),
        height_sum(lats[i]) + count_false(reaches[i]) + i <= 2 * func.temps@.len() + func.blocks@.len(),
    decreases i,
{
    if i == 0 {
        lemma_descends_refl(lats[0]);
        lemma_height_sum_descends(lats[0], lats[0]);
        assert(grows(reaches[0], reaches[0]));
        lemma_count_false_grows(reaches[0], reaches[0]);
    } else {
        lemma_run_potential(func, order, lats, reaches, pools, i - 1);
        assert(run_step(func, order, lats, reaches, pools, i - 1));
        lemma_round_mono(
            func,
            order,
            lats[i - 1],
            reaches[i - 1],
            pools[i - 1],
            lats[i],
            reaches[i],
            pools[i],
        );
        assert(lats[i] != lats[i - 1] || reaches[i] != reaches[i - 1]);
        lemma_height_sum_descends(lats[i - 1], lats[i]);
        lemma_count_false_grows(reaches[i - 1], reaches[i]);
    }
}

/// The analysis stops at a fixpoint: its last round changes neither the
/// lattice nor the reachability (the bound on rounds is never what stops
/// it, given that twice the temps plus the blocks stays below
/// `usize::MAX`), so every block that ends up reachable has parameters that
/// hold the meet of what its reachable predecessors pass, statements that
/// leave the lattice as it is (every assignment's target at or below the
/// value its right-hand side evaluates to) and live successors that are all
/// reachable.
pub proof fn lemma_analysis_fixpoint(
    func: AmirFunc,
    order: Seq<BlockId>,
    pool0: Seq<AmirLiteralEntry>,
    lat: Seq<LatticeVal>,
    reach: Seq<bool>,
    pool: Seq<AmirLiteralEntry>,
)
    requires
        func.wf_shape(),
        func.temps@.len() > 0,
        func.blocks@.len() > 0,
        2 * func.temps@.len() + func.blocks@.len() + 1 < usize::MAX,
        rpo_ok(func, order),
        analysis_result(func, order, pool0, lat, reach, pool),
    ensures
        forall|j: int|
            0 <= j < order.len() && reach[order[j] as int] ==> exists|p1: Seq<AmirLiteralEntry>, p2: Seq<AmirLiteralEntry>|
                pool_extends(p2, pool) && #[trigger] block_fixed(func, order[j], lat, reach, p1, p2),
{
    let (lats, reaches, pools) = choose|lats: Seq<Seq<LatticeVal>>, reaches: Seq<Seq<bool>>, pools: Seq<Seq<AmirLiteralEntry>>|
        {
            &&& #[trigger] analysis_run(func, order, lats, reaches, pools)
            &&& pools[0] == pool0
            &&& lats.last() == lat
            &&& reaches.last() == reach
            &&& pools.last() == pool
        };
    let n = lats.len() as int;
    let nt = func.temps@.len() as int;
    let nb = func.blocks@.len() as int;
    if n >= 2 {
        lemma_run_potential(func, order, lats, reaches, pools, n - 2);
        assert(n - 1 <= 2 * nt + nb + 1);
    }
    assert(nb * nt * 2 + 1000 >= 2 * nt + nb + 2) by (nonlinear_arith)
        requires
            nb >= 1,
            nt >= 1,
    ;
    assert(DATAFLOW_FIXPOINT_HEADROOM == 1000);
    assert(n - 1 < max_rounds(func));
    assert(n >= 2 && lats[n - 1] == lats[n - 2] && reaches[n - 1] == reaches[n - 2]);
    lemma_run_potential(func, order, lats, reaches, pools, n - 2);
    assert(run_step(func, order, lats, reaches, pools, n - 2));
    lemma_round_fixed(func, order, lats[n - 2], reaches[n - 2], pools[n - 2], pools[n - 1]);
}

// ---------------------------------------------------------------------------
// Transformation
// ---------------------------------------------------------------------------

/// An assignment whose target is a proven constant becomes a use of that
/// constant; every other statement is kept.
pub open spec fn fold_stmt(s: AmirStmt, lat: Seq<LatticeVal>) -> AmirStmt {
    match s {
        AmirStmt::Assign { lhs, rhs } => match lat[lhs as int] {
            LatticeVal::Constant(c) => AmirStmt::Assign {
                lhs,
                rhs: AmirRvalue::Use(AmirOperand::Constant(c)),
            },
            _ => s,
        },
        _ => s,
    }
}

/// Statement `i` lies in the statement range of some block.
pub open spec fn covered(blocks: Seq<AmirBasicBlock>, i: int) -> bool {
    exists|b: int|
        0 <= b < blocks.len() && blocks[b].statements.start <= i < blocks[b].statements.start
            + #[trigger] blocks[b].statements.len
}

/// Statement `i` lies in the range of a block before `bi`, or among the
/// first `k` statements of block `bi`.
pub open spec fn covered_prefix(blocks: Seq<AmirBasicBlock>, bi: int, k: int, i: int) -> bool {
    ||| exists|b: int|
        0 <= b < bi && blocks[b].statements.start <= i < blocks[b].statements.start
            + #[trigger] blocks[b].statements.len
    ||| (bi < blocks.len() && blocks[bi].statements.start <= i < blocks[bi].statements.start + k)
}

/// The terminator of block `b` after SCCP: dead non-entry blocks become
/// `Unreachable`, branches on known constants become a `Goto`.
pub open spec fn applied_term(
    old_t: AmirTerminator,
    new_t: AmirTerminator,
    b: int,
    lat: Seq<LatticeVal>,
    reach: Seq<bool>,
    pool: Seq<AmirLiteralEntry>,
) -> bool {
    if b > 0 && !reach[b] {
        new_t == AmirTerminator::Unreachable
    } else {
        match simplified_jump(old_t, lat, pool) {
            Some(j) => is_goto(new_t, j.0, j.1),
            None => new_t == old_t,
        }
    }
}

/// `new` is `old` rewritten by the results `lat` and `reach` of the
/// analysis: folded statements and simplified terminators, everything else
/// unchanged.
pub open spec fn applied(
    old: AmirFunc,
    new: AmirFunc,
    lat: Seq<LatticeVal>,
    reach: Seq<bool>,
    pool: Seq<AmirLiteralEntry>,
) -> bool {
    &&& same_shape(old, new)
    &&& new.stmts@.len() == old.stmts@.len()
    &&& forall|i: int|
        0 <= i < old.stmts@.len() ==> #[trigger] new.stmts@[i] == if covered(old.blocks@, i) {
            fold_stmt(old.stmts@[i], lat)
        } else {
            old.stmts@[i]
        }
    &&& forall|b: int|
        0 <= b < old.blocks@.len() ==> applied_term(
            old.blocks@[b].terminator,
            #[trigger] new.blocks@[b].terminator,
            b,
            lat,
            reach,
            pool,
        )
}

/// Everything but statement payloads and terminators is unchanged.
pub open spec fn same_shape(old: AmirFunc, new: AmirFunc) -> bool {
    &&& new.symbol == old.symbol
    &&& new.return_type == old.return_type
    &&& new.receiver == old.receiver
    &&& new.params@ == old.params@
    &&& new.locals@ == old.locals@
    &&& new.temps@ == old.temps@
    &&& new.block_params@ == old.block_params@
    &&& new.cfg == old.cfg
    &&& new.blocks@.len() == old.blocks@.len()
    &&& forall|b: int|
        0 <= b < old.blocks@.len() ==> (#[trigger] new.blocks@[b]).id == old.blocks@[b].id
            && new.blocks@[b].statements == old.blocks@[b].statements && new.blocks@[b].params
            == old.blocks@[b].params
}

proof fn lemma_fold_idempotent(s: AmirStmt, lat: Seq<LatticeVal>)
    ensures
        fold_stmt(fold_stmt(s, lat), lat) == fold_stmt(s, lat),
{
}

/// The target of a simplified jump is one of the terminator's targets and
/// its arguments are operands of the terminator.
proof fn lemma_simplified_ok(t: AmirTerminator, lat: Seq<LatticeVal>, pool: Seq<AmirLiteralEntry>, nb: nat, nt: nat)
    requires
        crate::amir::targets_in_range(t, nb),
        crate::amir::operands_ok(crate::amir::terminator_operands(t), nt),
    ensures
        simplified_jump(t, lat, pool) matches Some(j) ==> j.0 < nb && crate::amir::operands_ok(j.1, nt),
{
    lemma_jump_args_ok(t, 0, nt);
    match t {
        AmirTerminator::Branch { if_true, if_false, true_args, false_args, .. } => {
            assert(terminator_targets(t)[0] == if_true);
            assert(terminator_targets(t)[1] == if_false);
            assert(terminator_targets(t)[0] < nb);
            assert(terminator_targets(t)[1] < nb);
            let ops = crate::amir::terminator_operands(t);
            assert forall|k: int| 0 <= k < true_args@.len() implies crate::amir::operand_ok(
                #[trigger] true_args@[k],
                nt,
            ) by {
                assert(ops[1 + k] == true_args@[k]);
            }
            assert forall|k: int| 0 <= k < false_args@.len() implies crate::amir::operand_ok(
                #[trigger] false_args@[k],
                nt,
            ) by {
                assert(ops[1 + true_args@.len() + k] == false_args@[k]);
            }
            assert(crate::amir::operands_ok(true_args@, nt));
            assert(crate::amir::operands_ok(false_args@, nt));
            match simplified_jump(t, lat, pool) {
                Some(j) => {
                    assert(j.0 == if_true || j.0 == if_false);
                    assert(j.1 == true_args@ || j.1 == false_args@);
                },
                None => {},
            }
        },
        AmirTerminator::SwitchInt { targets, otherwise, .. } => {
            let sa = crate::amir::switch_args(targets@);
            let ops = crate::amir::terminator_operands(t);
            assert forall|k: int| 0 <= k < sa.len() implies crate::amir::operand_ok(#[trigger] sa[k], nt) by {
                assert(ops[1 + k] == sa[k]);
            }
            lemma_switch_args_ok(targets@, nt);
            assert forall|k: int| 0 <= k < otherwise.args@.len() implies crate::amir::operand_ok(
                #[trigger] otherwise.args@[k],
                nt,
            ) by {
                assert(ops[1 + sa.len() + k] == otherwise.args@[k]);
            }
            let ts = targets@.map_values(|s: SwitchTarget| s.target);
            assert(terminator_targets(t)[ts.len() as int] == otherwise.target);
            assert forall|j: int| 0 <= j < targets@.len() implies #[trigger] targets@[j].target < nb by {
                assert(terminator_targets(t)[j] == ts[j]);
            }
            match spec_operand_lattice(t->discriminant, lat) {
                LatticeVal::Constant(c) => match const_int(c, pool) {
                    Some(v) => {
                        lemma_switch_pick_range(targets@, v, 0);
                        match switch_pick(targets@, v, 0) {
                            Some(j) => {
                                assert(switch_args_ok(targets@, nt));
                                assert(crate::amir::operands_ok(targets@[j].args@, nt));
                            },
                            None => {},
                        }
                    },
                    None => {},
                },
                _ => {},
            }
        },
        _ => {},
    }
}

proof fn lemma_switch_pick_range(targets: Seq<SwitchTarget>, v: i128, i: int)
    ensures
        switch_pick(targets, v, i) matches Some(j) ==> 0 <= j < targets.len(),
    decreases targets.len() - i,
{
    if 0 <= i < targets.len() && targets[i].value != v {
        lemma_switch_pick_range(targets, v, i + 1);
    }
}

/// Phase 2: folds every assignment whose target is a proven constant,
/// reduces branches on known constants to jumps and terminates blocks the
/// analysis found dead.
fn apply(
    func: &mut AmirFunc,
    pool: &AmirLiteralPool,
    lattice: &Vec<LatticeVal>,
    reachable: &Vec<bool>,
) -> (changed: bool)
    requires
        old(func).wf_shape(),
        lattice@.len() == old(func).temps@.len(),
        reachable@.len() == old(func).blocks@.len(),
    ensures
        final(func).wf_shape(),
        old(func).wf_body() ==> final(func).wf_body(),
        applied(*old(func), *final(func), lattice@, reachable@, pool.entries@),
        !changed ==> final(func).stmts@ == old(func).stmts@ && forall|b: int|
            0 <= b < old(func).blocks@.len() ==> (#[trigger] final(func).blocks@[b]).terminator
                == old(func).blocks@[b].terminator,
{
    let ghost f0 = *func;
    let nb = func.blocks.len();
    let ns = func.stmts.len();
    let nt = func.temps.len();
    let mut changed = false;
    let mut bi: usize = 0;
    while bi < nb
        invariant
            nb == func.blocks@.len(),
            ns == func.stmts@.len(),
            nt == func.temps@.len(),
            lattice@.len() == nt,
            bi <= nb,
            f0.stmts@.len() == ns,
            f0.wf_shape(),
            same_shape(f0, *func),
            func.stmts@.len() == ns,
            forall|i: int|
                0 <= i < ns ==> #[trigger] func.stmts@[i] == if covered_prefix(f0.blocks@, bi as int, 0, i) {
                    fold_stmt(f0.stmts@[i], lattice@)
                } else {
                    f0.stmts@[i]
                },
            forall|b: int|
                0 <= b < nb ==> match simplified_jump(f0.blocks@[b].terminator, lattice@, pool.entries@) {
                    Some(j) => if b < bi {
                        is_goto((#[trigger] func.blocks@[b]).terminator, j.0, j.1)
                    } else {
                        func.blocks@[b].terminator == f0.blocks@[b].terminator
                    },
                    None => func.blocks@[b].terminator == f0.blocks@[b].terminator,
                },
            !changed ==> func.stmts@ == f0.stmts@ && forall|b: int|
                0 <= b < nb ==> (#[trigger] func.blocks@[b]).terminator == f0.blocks@[b].terminator,
        decreases nb - bi,
    {
        let r = func.blocks[bi].statements;
        assert(r == f0.blocks@[bi as int].statements);
        assert(f0.block_ranges_ok(bi as int));
        let mut k: usize = 0;
        while k < r.len
            invariant
                nb == func.blocks@.len(),
                ns == func.stmts@.len(),
                nt == func.temps@.len(),
                lattice@.len() == nt,
                bi < nb,
                k <= r.len,
                r == f0.blocks@[bi as int].statements,
                r.start + r.len <= ns,
                f0.stmts@.len() == ns,
                f0.wf_shape(),
                same_shape(f0, *func),
                func.stmts@.len() == ns,
                forall|i: int|
                    0 <= i < ns ==> #[trigger] func.stmts@[i] == if covered_prefix(
                        f0.blocks@,
                        bi as int,
                        k as int,
                        i,
                    ) {
                        fold_stmt(f0.stmts@[i], lattice@)
                    } else {
                        f0.stmts@[i]
                    },
                forall|b: int|
                    0 <= b < nb ==> match simplified_jump(f0.blocks@[b].terminator, lattice@, pool.entries@) {
                        Some(j) => if b < bi {
                            is_goto((#[trigger] func.blocks@[b]).terminator, j.0, j.1)
                        } else {
                            func.blocks@[b].terminator == f0.blocks@[b].terminator
                        },
                        None => func.blocks@[b].terminator == f0.blocks@[b].terminator,
                    },
                !changed ==> func.stmts@ == f0.stmts@ && forall|b: int|
                    0 <= b < nb ==> (#[trigger] func.blocks@[b]).terminator == f0.blocks@[b].terminator,
            decreases r.len - k,
        {
            let id = r.start + k;
            let ghost before = func.stmts@;
            let mut new_stmt: Option<AmirStmt> = None;
            match &func.stmts[id] {
                AmirStmt::Assign { lhs, rhs } => {
                    assert(crate::amir::stmt_temps_ok(f0.stmts@[id as int], nt as nat));
                    match lattice[*lhs] {
                        LatticeVal::Constant(c) => {
                            let same = match rhs {
                                AmirRvalue::Use(AmirOperand::Constant(c2)) => *c2 == c,
                                _ => false,
                            };
                            if !same {
                                new_stmt = Some(
                                    AmirStmt::Assign {
                                        lhs: *lhs,
                                        rhs: AmirRvalue::Use(AmirOperand::Constant(c)),
                                    },
                                );
                            }
                        },
                        _ => {},
                    }
                },
                _ => {},
            }
            match new_stmt {
                Some(st) => {
                    func.stmts.set(id, st);
                    changed = true;
                },
                None => {},
            }
            proof {
                assert forall|i: int| 0 <= i < ns implies #[trigger] func.stmts@[i] == if covered_prefix(
                    f0.blocks@,
                    bi as int,
                    k + 1,
                    i,
                ) {
                    fold_stmt(f0.stmts@[i], lattice@)
                } else {
                    f0.stmts@[i]
                } by {
                    lemma_fold_idempotent(f0.stmts@[i], lattice@);
                    if i == id {
                        if covered_prefix(f0.blocks@, bi as int, k as int, i) {
                        }
                    } else {
                        assert(covered_prefix(f0.blocks@, bi as int, k + 1, i) == covered_prefix(
                            f0.blocks@,
                            bi as int,
                            k as int,
                            i,
                        ));
                    }
                }
                if !changed {
                    assert(func.stmts@ =~= f0.stmts@);
                }
            }
            k = k + 1;
        }
        // Simplify a terminator whose condition is a known constant.
        assert(f0.blocks@[bi as int].terminator == func.blocks@[bi as int].terminator);
        assert(crate::amir::operands_ok(
            crate::amir::terminator_operands(f0.blocks@[bi as int].terminator),
            nt as nat,
        ));
        let simplified = try_simplify_terminator(&func.blocks[bi].terminator, lattice, pool);
        match simplified {
            Some(t) => {
                func.blocks[bi].terminator = t;
                changed = true;
            },
            None => {},
        }
        proof {
            assert forall|i: int| 0 <= i < ns implies #[trigger] func.stmts@[i] == if covered_prefix(
                f0.blocks@,
                bi + 1,
                0,
                i,
            ) {
                fold_stmt(f0.stmts@[i], lattice@)
            } else {
                f0.stmts@[i]
            } by {
                if covered_prefix(f0.blocks@, bi as int, r.len as int, i) {
                    if f0.blocks@[bi as int].statements.start <= i < f0.blocks@[bi as int].statements.start
                        + r.len {
                        assert(0 <= bi < bi + 1 && f0.blocks@[bi as int].statements.start <= i
                            < f0.blocks@[bi as int].statements.start
                            + f0.blocks@[bi as int].statements.len);
                    }
                }
                if covered_prefix(f0.blocks@, bi + 1, 0, i) {
                    let b = choose|b: int|
                        0 <= b < bi + 1 && f0.blocks@[b].statements.start <= i
                            < f0.blocks@[b].statements.start + #[trigger] f0.blocks@[b].statements.len;
                    if b < bi {
                        assert(covered_prefix(f0.blocks@, bi as int, r.len as int, i));
                    }
                }
            }
        }
        bi = bi + 1;
    }
    // Dead blocks are terminated explicitly so the output stays valid;
    // CFG simplification removes them later.
    let mut index: usize = 1;
    while index < nb
        invariant
            nb == func.blocks@.len(),
            ns == func.stmts@.len(),
            nt == func.temps@.len(),
            reachable@.len() == nb,
            1 <= index <= nb || nb == 0,
            f0.wf_shape(),
            same_shape(f0, *func),
            func.stmts@.len() == ns,
            forall|i: int|
                0 <= i < ns ==> #[trigger] func.stmts@[i] == if covered(f0.blocks@, i) {
                    fold_stmt(f0.stmts@[i], lattice@)
                } else {
                    f0.stmts@[i]
                },
            forall|b: int|
                0 <= b < nb ==> if 0 < b < index && !reachable@[b] {
                    (#[trigger] func.blocks@[b]).terminator == AmirTerminator::Unreachable
                } else {
                    match simplified_jump(f0.blocks@[b].terminator, lattice@, pool.entries@) {
                        Some(j) => is_goto(func.blocks@[b].terminator, j.0, j.1),
                        None => func.blocks@[b].terminator == f0.blocks@[b].terminator,
                    }
                },
            !changed ==> func.stmts@ == f0.stmts@ && forall|b: int|
                0 <= b < nb ==> (#[trigger] func.blocks@[b]).terminator == f0.blocks@[b].terminator,
        decreases nb - index,
    {
        if !reachable[index] {
            let is_unreachable = match &func.blocks[index].terminator {
                AmirTerminator::Unreachable => true,
                _ => false,
            };
            if !is_unreachable {
                func.blocks[index].terminator = AmirTerminator::Unreachable;
                changed = true;
            }
        }
        index = index + 1;
    }
    proof {
        assert forall|i: int| 0 <= i < ns implies #[trigger] func.stmts@[i] == if covered(f0.blocks@, i) {
            fold_stmt(f0.stmts@[i], lattice@)
        } else {
            f0.stmts@[i]
        } by {
        }
        // Validity of the rewritten function.
        assert forall|i: int| 0 <= i < func.stmts@.len() implies crate::amir::stmt_temps_ok(
            #[trigger] func.stmts@[i],
            nt as nat,
        ) && (crate::amir::stmt_locals_ok(f0.stmts@[i], f0.locals@.len()) ==> crate::amir::stmt_locals_ok(
            func.stmts@[i],
            f0.locals@.len(),
        )) by {
            assert(crate::amir::stmt_temps_ok(f0.stmts@[i], nt as nat));
            assert(crate::amir::rvalue_operands(AmirRvalue::Use(AmirOperand::Constant(AmirConstant::Nil))).len() == 1);
        }
        assert forall|b: int| 0 <= b < nb implies crate::amir::targets_in_range(
            #[trigger] func.blocks@[b].terminator,
            nb as nat,
        ) && crate::amir::operands_ok(
            crate::amir::terminator_operands(func.blocks@[b].terminator),
            nt as nat,
        ) by {
            assert(crate::amir::targets_in_range(f0.blocks@[b].terminator, nb as nat));
            assert(crate::amir::operands_ok(
                crate::amir::terminator_operands(f0.blocks@[b].terminator),
                nt as nat,
            ));
            lemma_simplified_ok(f0.blocks@[b].terminator, lattice@, pool.entries@, nb as nat, nt as nat);
        }
        assert forall|b: int| 0 <= b < nb implies #[trigger] func.block_ranges_ok(b) by {
            assert(f0.block_ranges_ok(b));
        }
        assert forall|b: int| 0 <= b < nb implies applied_term(
            f0.blocks@[b].terminator,
            #[trigger] func.blocks@[b].terminator,
            b,
            lattice@,
            reachable@,
            pool.entries@,
        ) by {
        }
        crate::amir::lemma_wf_body_parts(f0);
        crate::amir::lemma_wf_body_parts(*func);
    }
    changed
}

/// What applying the analysis does to a statement of a block: an
/// assignment whose target is a proven constant becomes a use of that
/// constant, with the same target; every other statement is kept as it was.
pub proof fn lemma_applied_statement(
    old: AmirFunc,
    new: AmirFunc,
    lat: Seq<LatticeVal>,
    reach: Seq<bool>,
    pool: Seq<AmirLiteralEntry>,
    i: int,
    lhs: TempId,
    rhs: AmirRvalue,
    c: AmirConstant,
)
    requires
        applied(old, new, lat, reach, pool),
        0 <= i < old.stmts@.len(),
        covered(old.blocks@, i),
    ensures
        old.stmts@[i] == (AmirStmt::Assign { lhs, rhs }) && lat[lhs as int] == LatticeVal::Constant(c) ==> new.stmts@[i]
            == (AmirStmt::Assign { lhs, rhs: AmirRvalue::Use(AmirOperand::Constant(c)) }),
        old.stmts@[i] == (AmirStmt::Assign { lhs, rhs }) && !(lat[lhs as int] is Constant) ==> new.stmts@[i]
            == old.stmts@[i],
        !(old.stmts@[i] is Assign) ==> new.stmts@[i] == old.stmts@[i],
{
}

/// What a run of SCCP on `old` promises of its result `new`, with the pool
/// `pool` before and `pool2` after: structure and validity kept, and, on a
/// function with temps and blocks, the analysis over the blocks in reverse
/// post-order (`analysis_result`) whose lattice and reachability are applied
/// to fold constants and decided branches; nothing changes when `changed` is
/// false.
pub open spec fn sccp_post(
    old: AmirFunc,
    new: AmirFunc,
    pool: Seq<AmirLiteralEntry>,
    pool2: Seq<AmirLiteralEntry>,
    changed: bool,
) -> bool {
    &&& new.wf_shape()
    &&& old.wf_body() ==> new.wf_body()
    &&& pool_extends(pool, pool2)
    &&& old.temps@.len() == 0 || old.blocks@.len() == 0 ==> new == old && !changed
    &&& old.temps@.len() > 0 && old.blocks@.len() > 0 ==> exists|
        order: Seq<BlockId>,
        lat: Seq<LatticeVal>,
        reach: Seq<bool>,
    |
        {
            &&& rpo_ok(old, order)
            &&& #[trigger] analysis_result(old, order, pool, lat, reach, pool2)
            &&& analysis_facts(old, lat, reach)
            &&& applied(old, new, lat, reach, pool2)
        }
    &&& !changed ==> new.stmts@ == old.stmts@ && forall|b: int|
        0 <= b < old.blocks@.len() ==> (#[trigger] new.blocks@[b]).terminator == old.blocks@[b].terminator
}

/// Runs SCCP on `func`: analysis to a fixpoint, then folding of proven
/// constants, reduction of decided branches and termination of dead blocks.
/// The CFG lists are left as they were. Returns whether anything changed.
pub fn sccp(func: &mut AmirFunc, pool: &mut AmirLiteralPool) -> (changed: bool)
    requires
        old(func).wf_shape(),
        old(func).cfg.predecessors@.len() == old(func).blocks@.len(),
    ensures
        sccp_post(*old(func), *final(func), old(pool).entries@, final(pool).entries@, changed),
{
    let n_temps = func.temps.len();
    let n_blocks = func.blocks.len();
    if n_temps == 0 || n_blocks == 0 {
        return false;
    }
    let ghost f0 = *func;
    let (lattice, reachable) = analyse(func, pool);
    let ghost order = choose|order: Seq<BlockId>|
        rpo_ok(f0, order) && #[trigger] analysis_result(
            f0,
            order,
            old(pool).entries@,
            lattice@,
            reachable@,
            pool.entries@,
        );
    let changed = apply(func, pool, &lattice, &reachable);
    assert(rpo_ok(f0, order) && analysis_result(f0, order, old(pool).entries@, lattice@, reachable@, pool.entries@)
        && analysis_facts(f0, lattice@, reachable@) && applied(f0, *func, lattice@, reachable@, pool.entries@));
    changed
}

} // verus!
