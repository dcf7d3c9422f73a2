//! Complex scalars.
//!
//! Amplitudes are `num_complex::Complex64` values.  The verifier sees such a
//! value as an opaque token: every arithmetic operation on it is performed by
//! `num_complex` and is known here only by name.  Two scalars are the same
//! token when they hold the same number; the encoding of a not-a-number
//! component is not told apart.
//!
//! Only results that the floating-point standard fixes have a name.  The
//! modulus has none: it is computed by a routine whose last digits may
//! differ from one platform to another, so what is decided by it is stated
//! for either outcome.

use vstd::prelude::*;
use vstd::pervasive::unreached;
use num_complex::Complex64;

verus! {

/// `num_complex::Complex`, made known to the verifier with its parts
/// hidden.
#[verifier::external_type_specification]
#[verifier::external_body]
#[verifier::reject_recursive_types(T)]
pub struct ExComplex<T>(num_complex::Complex<T>);

/// The scalar `re + i·im` with integer parts, as `num_complex::c64` builds
/// it.
pub uninterp spec fn complex_of_ints(re: int, im: int) -> Complex64;

/// The real scalar holding the count `n`, as `FromPrimitive::from_u64`
/// converts it.
pub uninterp spec fn complex_of_count(n: int) -> Complex64;

/// The sum `lhs + rhs`, as `Add` of `Complex64` computes it.
pub uninterp spec fn complex_sum(lhs: Complex64, rhs: Complex64) -> Complex64;

/// The difference `lhs - rhs`, as `Sub` of `Complex64` computes it.
pub uninterp spec fn complex_difference(lhs: Complex64, rhs: Complex64) -> Complex64;

/// The product `lhs · rhs`, as `Mul` of `Complex64` computes it.
pub uninterp spec fn complex_product(lhs: Complex64, rhs: Complex64) -> Complex64;

/// The quotient `lhs / rhs`, as `Div` of `Complex64` computes it.
pub uninterp spec fn complex_quotient(lhs: Complex64, rhs: Complex64) -> Complex64;

/// Both parts of `c` divided by the integer `divisor`, as `Complex::unscale`
/// computes it.
pub uninterp spec fn complex_unscaled(c: Complex64, divisor: int) -> Complex64;

/// The complex conjugate of `c`, as `Complex::conj` computes it.
pub uninterp spec fn complex_conjugate(c: Complex64) -> Complex64;

/// The square root of the count `n` as a real scalar, as `Complex::sqrt`
/// computes it for a real operand that is not negative.
pub uninterp spec fn complex_root_of_count(n: int) -> Complex64;

/// Whether the real part of `lhs` is strictly below the real part of `rhs`,
/// as `<` compares them.
pub uninterp spec fn real_part_below(lhs: Complex64, rhs: Complex64) -> bool;

/// The text that `Display` of `Complex64` writes for `c`.
pub uninterp spec fn complex_text(c: Complex64) -> Seq<char>;

/// Formats a scalar with the `Display` impl of `Complex64`.  Trusted: the
/// text is a function of the scalar alone.
#[verifier::external_body]
pub(crate) fn complex_to_text(c: Complex64) -> (out: String)
    ensures
        out@ == complex_text(c),
{
    format!("{}", c)
}

/// Calls `num_complex::c64` on two integers.  Trusted: the result is a
/// function of the two integers alone.
#[verifier::external_body]
pub(crate) fn complex_from_ints(re: i32, im: i32) -> (out: Complex64)
    ensures
        out == complex_of_ints(re as int, im as int),
{
    num_complex::c64(re, im)
}

/// Calls `num_traits::FromPrimitive::from_u64` for `Complex64`.  Trusted:
/// the conversion never fails for this target type, and the result is a
/// function of `n` alone.
#[verifier::external_body]
pub(crate) fn complex_from_count(n: u64) -> (out: Option<Complex64>)
    ensures
        out == Some(complex_of_count(n as int)),
{
    num_traits::FromPrimitive::from_u64(n)
}

/// Calls `Add::add` of `Complex64`.  Trusted: the result is a function of
/// the two operands alone.
#[verifier::external_body]
pub(crate) fn complex_add(lhs: Complex64, rhs: Complex64) -> (out: Complex64)
    ensures
        out == complex_sum(lhs, rhs),
{
    lhs + rhs
}

/// Calls `Sub::sub` of `Complex64`.  Trusted: the result is a function of
/// the two operands alone.
#[verifier::external_body]
pub(crate) fn complex_sub(lhs: Complex64, rhs: Complex64) -> (out: Complex64)
    ensures
        out == complex_difference(lhs, rhs),
{
    lhs - rhs
}

/// Calls `Mul::mul` of `Complex64`.  Trusted: the result is a function of
/// the two operands alone.
#[verifier::external_body]
pub(crate) fn complex_mul(lhs: Complex64, rhs: Complex64) -> (out: Complex64)
    ensures
        out == complex_product(lhs, rhs),
{
    lhs * rhs
}

/// Calls `Div::div` of `Complex64` by a complex divisor.  Trusted: the
/// result is a function of the two operands alone.  A zero divisor does not
/// panic; it yields non-finite parts.
#[verifier::external_body]
pub(crate) fn complex_div(lhs: Complex64, rhs: Complex64) -> (out: Complex64)
    ensures
        out == complex_quotient(lhs, rhs),
{
    lhs / rhs
}

/// Calls `Complex::unscale` with the integer converted to a real.  Trusted:
/// the result is a function of the scalar and the integer alone.
#[verifier::external_body]
pub(crate) fn complex_unscale(c: Complex64, divisor: i32) -> (out: Complex64)
    ensures
        out == complex_unscaled(c, divisor as int),
{
    c.unscale(divisor.into())
}

/// Calls `Complex::conj`.  Trusted: the result is a function of the operand
/// alone.
#[verifier::external_body]
pub(crate) fn complex_conj(c: Complex64) -> (out: Complex64)
    ensures
        out == complex_conjugate(c),
{
    c.conj()
}

/// Calls `Complex::sqrt` on the real scalar that `num_complex::c64` builds
/// from a count.  For such an operand, real and not negative, the root is
/// the correctly rounded square root of the real part.  Trusted: the result
/// is a function of the count alone.
#[verifier::external_body]
pub(crate) fn complex_sqrt_of_count(n: u32) -> (out: Complex64)
    ensures
        out == complex_root_of_count(n as int),
{
    num_complex::c64(n, 0u32).sqrt()
}

/// Calls `Complex::norm` and carries the real result as a scalar with zero
/// imaginary part.  The modulus is computed by `hypot`, whose last digits
/// the platform decides, so nothing is promised of the result.
#[verifier::external_body]
pub(crate) fn complex_norm(c: Complex64) -> (out: Complex64) {
    Complex64::from(c.norm())
}

/// Compares the real parts of two scalars with `<`.  Trusted: the answer is
/// a function of the two operands alone.
#[verifier::external_body]
pub(crate) fn real_less(lhs: Complex64, rhs: Complex64) -> (out: bool)
    ensures
        out == real_part_below(lhs, rhs),
{
    lhs.re < rhs.re
}

/// The real scalar holding the count `n`.
pub fn complex_count(n: u64) -> (out: Complex64)
    ensures
        out == complex_of_count(n as int),
{
    match complex_from_count(n) {
        Some(count) => count,
        None => unreached(),
    }
}

/// The scalar zero.
pub open spec fn zero() -> Complex64 {
    complex_of_ints(0, 0)
}

/// The scalar one.
pub open spec fn one() -> Complex64 {
    complex_of_ints(1, 0)
}

} // verus!
