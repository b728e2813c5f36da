//! The numeric substrate of the engine, kept abstract.
//!
//! Tensor elements are values of a type implementing [`Scalar`].  The
//! graph machinery never interprets them: every executable primitive is
//! only required to be a pure function of its arguments, pinned to the
//! implementation's own spec-level counterpart, so the evaluation order,
//! the deduplication of shared sub-expressions and the gradient routing
//! are verified once for every substrate.  The single algebraic fact the
//! engine relies on is that addition has zero as identity: gradient
//! accumulators start out all-zero.
//!
//! An exact integer model is provided for `i64`, with saturating
//! arithmetic and the nonlinear primitives kept as the identity; it
//! exercises the machinery in tests and proofs.  A floating-point
//! substrate lives outside the verified library and implements the same
//! trait.

use vstd::prelude::*;

verus! {

/// An abstract tensor element.
///
/// Each executable primitive returns exactly its spec-level counterpart,
/// so repeated evaluation over unchanged inputs is reproducible.
pub trait Scalar: Sized + Copy {
    /// Additive identity.
    spec fn spec_zero() -> Self;

    /// Multiplicative identity.
    spec fn spec_one() -> Self;

    spec fn spec_add(a: Self, b: Self) -> Self;

    spec fn spec_sub(a: Self, b: Self) -> Self;

    spec fn spec_mul(a: Self, b: Self) -> Self;

    spec fn spec_div(a: Self, b: Self) -> Self;

    spec fn spec_neg(a: Self) -> Self;

    spec fn spec_abs(a: Self) -> Self;

    /// Sign of a value: minus one, zero or one.
    spec fn spec_sgn(a: Self) -> Self;

    spec fn spec_max(a: Self, b: Self) -> Self;

    spec fn spec_exp(a: Self) -> Self;

    spec fn spec_ln(a: Self) -> Self;

    spec fn spec_sqrt(a: Self) -> Self;

    spec fn spec_tanh(a: Self) -> Self;

    /// Whether a value is strictly positive.
    spec fn spec_is_pos(a: Self) -> bool;

    /// The value standing for a count of elements, used by averaging
    /// reductions.
    spec fn spec_of_count(n: usize) -> Self;

    fn zero_val() -> (r: Self)
        ensures
            r == Self::spec_zero(),
    ;

    fn one_val() -> (r: Self)
        ensures
            r == Self::spec_one(),
    ;

    fn add_val(a: Self, b: Self) -> (r: Self)
        ensures
            r == Self::spec_add(a, b),
    ;

    fn sub_val(a: Self, b: Self) -> (r: Self)
        ensures
            r == Self::spec_sub(a, b),
    ;

    fn mul_val(a: Self, b: Self) -> (r: Self)
        ensures
            r == Self::spec_mul(a, b),
    ;

    fn div_val(a: Self, b: Self) -> (r: Self)
        ensures
            r == Self::spec_div(a, b),
    ;

    fn neg_val(a: Self) -> (r: Self)
        ensures
            r == Self::spec_neg(a),
    ;

    fn abs_val(a: Self) -> (r: Self)
        ensures
            r == Self::spec_abs(a),
    ;

    fn sgn_val(a: Self) -> (r: Self)
        ensures
            r == Self::spec_sgn(a),
    ;

    fn max_val(a: Self, b: Self) -> (r: Self)
        ensures
            r == Self::spec_max(a, b),
    ;

    fn exp_val(a: Self) -> (r: Self)
        ensures
            r == Self::spec_exp(a),
    ;

    fn ln_val(a: Self) -> (r: Self)
        ensures
            r == Self::spec_ln(a),
    ;

    fn sqrt_val(a: Self) -> (r: Self)
        ensures
            r == Self::spec_sqrt(a),
    ;

    fn tanh_val(a: Self) -> (r: Self)
        ensures
            r == Self::spec_tanh(a),
    ;

    fn is_pos_val(a: Self) -> (r: bool)
        ensures
            r == Self::spec_is_pos(a),
    ;

    fn of_count_val(n: usize) -> (r: Self)
        ensures
            r == Self::spec_of_count(n),
    ;

    /// Zero is the identity of addition, on both sides.
    proof fn add_zero_identity(a: Self)
        ensures
            Self::spec_add(Self::spec_zero(), a) == a,
            Self::spec_add(a, Self::spec_zero()) == a,
    ;
}

/// Exact integer substrate: saturating arithmetic on `i64`, division by
/// zero yielding zero, and the nonlinear primitives kept as the identity.
impl Scalar for i64 {
    open spec fn spec_zero() -> i64 {
        0
    }

    open spec fn spec_one() -> i64 {
        1
    }

    open spec fn spec_add(a: i64, b: i64) -> i64 {
        clamp_i64(a + b)
    }

    open spec fn spec_sub(a: i64, b: i64) -> i64 {
        clamp_i64(a - b)
    }

    open spec fn spec_mul(a: i64, b: i64) -> i64 {
        clamp_i64(a * b)
    }

    open spec fn spec_div(a: i64, b: i64) -> i64 {
        if b == 0 {
            0
        } else {
            clamp_i64(trunc_div(a as int, b as int))
        }
    }

    open spec fn spec_neg(a: i64) -> i64 {
        clamp_i64(-(a as int))
    }

    open spec fn spec_abs(a: i64) -> i64 {
        if a >= 0 {
            a
        } else {
            clamp_i64(-(a as int))
        }
    }

    open spec fn spec_sgn(a: i64) -> i64 {
        if a > 0 {
            1
        } else if a < 0 {
            -1i64
        } else {
            0
        }
    }

    open spec fn spec_max(a: i64, b: i64) -> i64 {
        if a >= b {
            a
        } else {
            b
        }
    }

    open spec fn spec_exp(a: i64) -> i64 {
        a
    }

    open spec fn spec_ln(a: i64) -> i64 {
        a
    }

    open spec fn spec_sqrt(a: i64) -> i64 {
        a
    }

    open spec fn spec_tanh(a: i64) -> i64 {
        a
    }

    open spec fn spec_is_pos(a: i64) -> bool {
        a > 0
    }

    open spec fn spec_of_count(n: usize) -> i64 {
        clamp_i64(n as int)
    }

    fn zero_val() -> i64 {
        0
    }

    fn one_val() -> i64 {
        1
    }

    fn add_val(a: i64, b: i64) -> i64 {
        clamp_wide(a as i128 + b as i128)
    }

    fn sub_val(a: i64, b: i64) -> i64 {
        clamp_wide(a as i128 - b as i128)
    }

    fn mul_val(a: i64, b: i64) -> i64 {
        proof {
            lemma_i64_product_in_i128(a as int, b as int);
        }
        clamp_wide(a as i128 * b as i128)
    }

    fn div_val(a: i64, b: i64) -> i64 {
        if b == 0 {
            return 0;
        }
        let ua: u64 = if a >= 0 {
            a as u64
        } else {
            (-(a as i128)) as u64
        };
        let ub: u64 = if b >= 0 {
            b as u64
        } else {
            (-(b as i128)) as u64
        };
        let q: u64 = ua / ub;
        if (a >= 0) == (b >= 0) {
            if q > i64::MAX as u64 {
                i64::MAX
            } else {
                q as i64
            }
        } else {
            if q >= 9223372036854775808u64 {
                i64::MIN
            } else {
                -(q as i64)
            }
        }
    }

    fn neg_val(a: i64) -> i64 {
        clamp_wide(-(a as i128))
    }

    fn abs_val(a: i64) -> i64 {
        if a >= 0 {
            a
        } else {
            clamp_wide(-(a as i128))
        }
    }

    fn sgn_val(a: i64) -> i64 {
        if a > 0 {
            1
        } else if a < 0 {
            -1
        } else {
            0
        }
    }

    fn max_val(a: i64, b: i64) -> i64 {
        if a >= b {
            a
        } else {
            b
        }
    }

    fn exp_val(a: i64) -> i64 {
        a
    }

    fn ln_val(a: i64) -> i64 {
        a
    }

    fn sqrt_val(a: i64) -> i64 {
        a
    }

    fn tanh_val(a: i64) -> i64 {
        a
    }

    fn is_pos_val(a: i64) -> bool {
        a > 0
    }

    fn of_count_val(n: usize) -> i64 {
        if n as u64 > i64::MAX as u64 {
            i64::MAX
        } else {
            n as i64
        }
    }

    proof fn add_zero_identity(a: i64) {
    }
}

/// Division rounding toward zero, as machine division does.
pub open spec fn trunc_div(a: int, b: int) -> int
    recommends
        b != 0,
{
    let q = abs_int(a) / abs_int(b);
    if (a >= 0) == (b >= 0) {
        q
    } else {
        -q
    }
}

/// Magnitude of an unbounded integer.
pub open spec fn abs_int(a: int) -> int {
    if a >= 0 {
        a
    } else {
        -a
    }
}

proof fn lemma_i64_product_in_i128(a: int, b: int)
    requires
        i64::MIN <= a <= i64::MAX,
        i64::MIN <= b <= i64::MAX,
    ensures
        i128::MIN <= a * b <= i128::MAX,
        i64::MIN <= a <= i64::MAX && i64::MIN <= b <= i64::MAX ==> a * b == (a as i64 as i128 as int)
            * (b as i64 as i128 as int),
{
    assert(i128::MIN <= a * b <= i128::MAX) by (nonlinear_arith)
        requires
            i64::MIN <= a <= i64::MAX,
            i64::MIN <= b <= i64::MAX,
    ;
}

/// Clamps an unbounded integer into the `i64` range.
pub open spec fn clamp_i64(x: int) -> i64 {
    if x > i64::MAX {
        i64::MAX
    } else if x < i64::MIN {
        i64::MIN
    } else {
        x as i64
    }
}

/// Executable clamp from the wide intermediate type.
fn clamp_wide(x: i128) -> (r: i64)
    ensures
        r == clamp_i64(x as int),
{
    if x > i64::MAX as i128 {
        i64::MAX
    } else if x < i64::MIN as i128 {
        i64::MIN
    } else {
        x as i64
    }
}

} // verus!
