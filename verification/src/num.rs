//! Scalar numbers of the value domain.
//!
//! A number is carried as the bit pattern of an IEEE-754 binary64 value in a
//! `u64`.  The arithmetic itself is done by the `rustc_apfloat` software
//! implementation of IEEE-754, reached through the trusted wrappers below;
//! each basic operation's result is named by an uninterpreted spec function
//! (`add_bits`, `mul_bits`, ...), and everything built on top of the basic
//! operations is verified against those names.

use vstd::prelude::*;
use rustc_apfloat::Float;
use rustc_apfloat::ieee::Double;

verus! {

/// Sign bit of a binary64 bit pattern.
pub const SIGN_MASK: u64 = 0x8000_0000_0000_0000;

/// Exponent field of a binary64 bit pattern.
pub const EXP_MASK: u64 = 0x7FF0_0000_0000_0000;

/// Significand field of a binary64 bit pattern.
pub const MANT_MASK: u64 = 0x000F_FFFF_FFFF_FFFF;

/// The bit pattern of 1.0.
pub const ONE_BITS: u64 = 0x3FF0_0000_0000_0000;

/// The bit pattern of 2.0.
pub const TWO_BITS: u64 = 0x4000_0000_0000_0000;

/// The bit pattern of the natural logarithm of 2.
pub const LN2_BITS: u64 = 0x3FE6_2E42_FEFA_39EF;

/// The sum of two binary64 values, to nearest even.
pub uninterp spec fn add_bits(a: u64, b: u64) -> u64;

/// The difference of two binary64 values, to nearest even.
pub uninterp spec fn sub_bits(a: u64, b: u64) -> u64;

/// The product of two binary64 values, to nearest even.
pub uninterp spec fn mul_bits(a: u64, b: u64) -> u64;

/// The quotient of two binary64 values, to nearest even.
pub uninterp spec fn div_bits(a: u64, b: u64) -> u64;

/// The IEEE-754 `<` comparison (false when either side is NaN).
pub uninterp spec fn lt_bits(a: u64, b: u64) -> bool;

/// The IEEE-754 `<=` comparison (false when either side is NaN).
pub uninterp spec fn le_bits(a: u64, b: u64) -> bool;

/// The binary64 value nearest to the decimal number a string spells,
/// `None` when the string does not spell a number.
pub uninterp spec fn parse_bits(s: Seq<char>) -> Option<u64>;

/// The decimal rendering of a binary64 value.
pub uninterp spec fn fmt_bits(a: u64) -> Seq<char>;

/// The binary64 value nearest to an integer.
pub uninterp spec fn bits_of_i64(i: i64) -> u64;

/// A binary64 value rounded toward negative infinity to an integral value.
pub uninterp spec fn floor_bits(a: u64) -> u64;

/// A binary64 value rounded toward zero to an integral value.
pub uninterp spec fn trunc_bits(a: u64) -> u64;

/// A binary64 value converted to a 64-bit integer, rounding toward zero;
/// saturates at the ends of the integer range, and NaN converts to zero.
pub uninterp spec fn i64_of_bits(a: u64) -> i64;

/// Relies on rustc_apfloat's IEEE-754 addition (`Float::add_r`); for
/// operands that are not both NaN the sum is the same taken either way
/// around (with two NaNs `add_r` propagates the left one, so the
/// commutativity clause excludes that pair).
#[verifier::external_body]
pub fn num_add(a: u64, b: u64) -> (r: u64)
    ensures
        r == add_bits(a, b),
        !(is_nan_bits(a) && is_nan_bits(b)) ==> r == add_bits(b, a),
{
    (Double::from_bits(a as u128) + Double::from_bits(b as u128)).value.to_bits() as u64
}

/// Relies on rustc_apfloat's IEEE-754 subtraction (`Float::sub_r`).
#[verifier::external_body]
pub fn num_sub(a: u64, b: u64) -> (r: u64)
    ensures
        r == sub_bits(a, b),
{
    (Double::from_bits(a as u128) - Double::from_bits(b as u128)).value.to_bits() as u64
}

/// Relies on rustc_apfloat's IEEE-754 multiplication (`Float::mul_r`);
/// for operands that are not both NaN the product is the same taken
/// either way around (with two NaNs `mul_r` propagates the left one,
/// so the commutativity clause excludes that pair).
#[verifier::external_body]
pub fn num_mul(a: u64, b: u64) -> (r: u64)
    ensures
        r == mul_bits(a, b),
        !(is_nan_bits(a) && is_nan_bits(b)) ==> r == mul_bits(b, a),
{
    (Double::from_bits(a as u128) * Double::from_bits(b as u128)).value.to_bits() as u64
}

/// Relies on rustc_apfloat's IEEE-754 division (`Float::div_r`).
#[verifier::external_body]
pub fn num_div(a: u64, b: u64) -> (r: u64)
    ensures
        r == div_bits(a, b),
{
    (Double::from_bits(a as u128) / Double::from_bits(b as u128)).value.to_bits() as u64
}

/// Relies on rustc_apfloat's IEEE-754 ordering (`PartialOrd` on `Double`):
/// `<` holds of no pair involving a NaN.
#[verifier::external_body]
pub fn num_lt(a: u64, b: u64) -> (r: bool)
    ensures
        r == lt_bits(a, b),
{
    Double::from_bits(a as u128) < Double::from_bits(b as u128)
}

/// Relies on rustc_apfloat's IEEE-754 ordering (`PartialOrd` on `Double`):
/// `<=` holds of no pair involving a NaN.
#[verifier::external_body]
pub fn num_le(a: u64, b: u64) -> (r: bool)
    ensures
        r == le_bits(a, b),
{
    Double::from_bits(a as u128) <= Double::from_bits(b as u128)
}

/// Relies on rustc_apfloat's correctly rounded decimal parsing
/// (`Float::from_str_r` behind `str::parse`).  Text beyond a million
/// bytes is cut off before the call: `from_str_r`'s hexadecimal path
/// converts a digit-run length to a 32-bit exponent and could only
/// panic on text with over two billion digits, which the cut keeps out
/// while no number that long parses anyway.
#[verifier::external_body]
pub fn num_parse(s: &str) -> (r: Option<u64>)
    requires
        s@.len() <= 1000000,
    ensures
        r == parse_bits(s@),
{
    match s.parse::<Double>() {
        Ok(d) => Some(d.to_bits() as u64),
        Err(_) => None,
    }
}

/// Relies on rustc_apfloat's decimal rendering (`Display` on `Double`),
/// a function of the bit pattern alone.
#[verifier::external_body]
pub fn num_fmt(a: u64) -> (r: String)
    ensures
        r@ == fmt_bits(a),
{
    format!("{}", Double::from_bits(a as u128))
}

/// Relies on rustc_apfloat's integer conversion (`Float::from_i128`),
/// rounding to nearest even.
#[verifier::external_body]
pub fn num_from_i64(i: i64) -> (r: u64)
    ensures
        r == bits_of_i64(i),
{
    Double::from_i128(i as i128).value.to_bits() as u64
}

/// Relies on rustc_apfloat's `Float::round_to_integral` toward negative
/// infinity.
#[verifier::external_body]
pub fn num_floor(a: u64) -> (r: u64)
    ensures
        r == floor_bits(a),
{
    Double::from_bits(a as u128).round_to_integral(rustc_apfloat::Round::TowardNegative).value.to_bits()
        as u64
}

/// Relies on rustc_apfloat's `Float::round_to_integral` toward zero.
#[verifier::external_body]
pub fn num_trunc(a: u64) -> (r: u64)
    ensures
        r == trunc_bits(a),
{
    Double::from_bits(a as u128).round_to_integral(rustc_apfloat::Round::TowardZero).value.to_bits()
        as u64
}

/// Relies on rustc_apfloat's `Float::to_i128`, which rounds toward zero,
/// saturates out-of-range values, and sends NaN to zero.
#[verifier::external_body]
pub fn num_to_i64(a: u64) -> (r: i64)
    ensures
        r == i64_of_bits(a),
{
    Double::from_bits(a as u128).to_i128(64).value as i64
}

/// A binary64 bit pattern denotes NaN exactly when the exponent field is
/// all ones and the significand is not zero.
pub open spec fn is_nan_bits(a: u64) -> bool {
    a & EXP_MASK == EXP_MASK && a & MANT_MASK != 0
}

/// A binary64 bit pattern denotes an infinity exactly when the exponent
/// field is all ones and the significand is zero.
pub open spec fn is_inf_bits(a: u64) -> bool {
    a & EXP_MASK == EXP_MASK && a & MANT_MASK == 0
}

/// The IEEE-754 negation: the sign bit flipped.
pub open spec fn neg_bits(a: u64) -> u64 {
    a ^ SIGN_MASK
}

/// IEEE-754 equality, expressed through `<=` both ways.
pub open spec fn eq_bits(a: u64, b: u64) -> bool {
    le_bits(a, b) && le_bits(b, a)
}

pub fn num_is_nan(a: u64) -> (r: bool)
    ensures
        r == is_nan_bits(a),
{
    a & EXP_MASK == EXP_MASK && a & MANT_MASK != 0
}

pub fn num_is_inf(a: u64) -> (r: bool)
    ensures
        r == is_inf_bits(a),
{
    a & EXP_MASK == EXP_MASK && a & MANT_MASK == 0
}

pub fn num_neg(a: u64) -> (r: u64)
    ensures
        r == neg_bits(a),
{
    a ^ SIGN_MASK
}

pub fn num_eq(a: u64, b: u64) -> (r: bool)
    ensures
        r == eq_bits(a, b),
{
    num_le(a, b) && num_le(b, a)
}

/// The IEEE-754 absolute value: the sign bit cleared.
pub open spec fn abs_bits(a: u64) -> u64 {
    a & !SIGN_MASK
}

pub fn num_abs(a: u64) -> (r: u64)
    ensures
        r == abs_bits(a),
{
    a & !SIGN_MASK
}

/// A bit pattern that denotes a positive normal finite number.
pub open spec fn is_pos_normal_bits(a: u64) -> bool {
    a & SIGN_MASK == 0 && a & EXP_MASK != 0 && a & EXP_MASK != EXP_MASK
}

pub fn num_is_pos_normal(a: u64) -> (r: bool)
    ensures
        r == is_pos_normal_bits(a),
{
    a & SIGN_MASK == 0 && a & EXP_MASK != 0 && a & EXP_MASK != EXP_MASK
}

/// The truncated Taylor tail `1 + (a/k)(1 + (a/(k+1))(...))` used for the
/// exponential function; term `k` counts up to the fixed depth.
pub open spec fn exp_tail_bits(a: u64, k: int) -> u64
    decreases 26 - k,
{
    if k < 1 || k >= 26 {
        ONE_BITS
    } else {
        add_bits(ONE_BITS, mul_bits(div_bits(a, bits_of_i64(k as i64)), exp_tail_bits(a, k + 1)))
    }
}

fn exp_tail(a: u64, k: u64) -> (r: u64)
    requires
        1 <= k <= 26,
    ensures
        r == exp_tail_bits(a, k as int),
    decreases 26 - k,
{
    if k >= 26 {
        ONE_BITS
    } else {
        let q = num_div(a, num_from_i64(k as i64));
        num_add(ONE_BITS, num_mul(q, exp_tail(a, k + 1)))
    }
}

/// The truncated series `1/(2j+1) + a·(1/(2j+3) + a·(...))` used for the
/// logarithm (`a` stands for t², t = (m−1)/(m+1)).
pub open spec fn ln_tail_bits(a: u64, j: int) -> u64
    decreases 20 - j,
{
    if j < 0 || j >= 20 {
        div_bits(ONE_BITS, bits_of_i64(41))
    } else {
        add_bits(
            div_bits(ONE_BITS, bits_of_i64((2 * j + 1) as i64)),
            mul_bits(a, ln_tail_bits(a, j + 1)),
        )
    }
}

fn ln_tail(a: u64, j: u64) -> (r: u64)
    requires
        j <= 20,
    ensures
        r == ln_tail_bits(a, j as int),
    decreases 20 - j,
{
    if j >= 20 {
        num_div(ONE_BITS, num_from_i64(41))
    } else {
        let h = num_div(ONE_BITS, num_from_i64((2 * j + 1) as i64));
        num_add(h, num_mul(a, ln_tail(a, j + 1)))
    }
}

/// The natural logarithm of a positive normal number: the exponent field
/// times ln 2, plus the logarithm of the mantissa by the artanh series.
pub open spec fn ln_pos_bits(x: u64) -> u64 {
    let e = (((x >> 52) & 0x7FF) - 1023) as i64;
    let m = (x & MANT_MASK) | ONE_BITS;
    let t = div_bits(sub_bits(m, ONE_BITS), add_bits(m, ONE_BITS));
    let lnm = mul_bits(TWO_BITS, mul_bits(t, ln_tail_bits(mul_bits(t, t), 0)));
    add_bits(mul_bits(bits_of_i64(e), LN2_BITS), lnm)
}

fn ln_pos(x: u64) -> (r: u64)
    requires
        is_pos_normal_bits(x),
    ensures
        r == ln_pos_bits(x),
{
    assert(((x >> 52) & 0x7FF) <= 0x7FF) by (bit_vector);
    let ef: u64 = (x >> 52) & 0x7FF;
    let e: i64 = (ef as i64) - 1023;
    let m: u64 = (x & MANT_MASK) | ONE_BITS;
    let t = num_div(num_sub(m, ONE_BITS), num_add(m, ONE_BITS));
    let lnm = num_mul(TWO_BITS, num_mul(t, ln_tail(num_mul(t, t), 0)));
    num_add(num_mul(num_from_i64(e), LN2_BITS), lnm)
}

/// The exponential of a number: split off an integral multiple of ln 2,
/// run the Taylor series on the remainder, and scale by a power of two
/// built directly in the exponent field.  `None` on overflow; a very
/// small result flushes to zero.
pub open spec fn exp_bits(z: u64) -> Option<u64> {
    let n = i64_of_bits(div_bits(z, LN2_BITS));
    if n > 1023 {
        None
    } else if n < -1022 {
        Some(0u64)
    } else {
        let r = sub_bits(z, mul_bits(bits_of_i64(n), LN2_BITS));
        let sc = ((n + 1023) as u64) << 52;
        Some(mul_bits(exp_tail_bits(r, 1), sc))
    }
}

fn num_exp(z: u64) -> (r: Option<u64>)
    ensures
        r == exp_bits(z),
{
    let n: i64 = num_to_i64(num_div(z, LN2_BITS));
    if n > 1023 {
        None
    } else if n < -1022 {
        Some(0u64)
    } else {
        let rem = num_sub(z, num_mul(num_from_i64(n), LN2_BITS));
        let sc: u64 = ((n + 1023) as u64) << 52;
        Some(num_mul(exp_tail(rem, 1), sc))
    }
}

/// An integral power by repeated multiplication, the factors taken left
/// to right.
pub open spec fn pow_nat_bits(x: u64, n: nat) -> u64
    decreases n,
{
    if n == 0 {
        ONE_BITS
    } else {
        mul_bits(pow_nat_bits(x, (n - 1) as nat), x)
    }
}

fn pow_nat(x: u64, n: u64) -> (r: u64)
    ensures
        r == pow_nat_bits(x, n as nat),
{
    let mut acc: u64 = ONE_BITS;
    let mut i: u64 = 0;
    while i < n
        invariant
            i <= n,
            acc == pow_nat_bits(x, i as nat),
        decreases n - i,
    {
        acc = num_mul(acc, x);
        i = i + 1;
    }
    acc
}

/// Whether an exponent is integral and small enough for the repeated
/// multiplication path.
pub open spec fn is_small_int_exp(y: u64) -> bool {
    eq_bits(trunc_bits(y), y) && !is_inf_bits(y) && -65536 <= i64_of_bits(y) <= 65536
}

/// A power `x^y`.  An integral exponent multiplies out (a negative one
/// through one reciprocal); otherwise a positive normal base goes through
/// exp(y·ln x); any other base has no real power and yields `None`.
pub open spec fn pow_bits(x: u64, y: u64) -> Option<u64> {
    if is_small_int_exp(y) {
        let n = i64_of_bits(y);
        if n >= 0 {
            Some(pow_nat_bits(x, n as nat))
        } else {
            Some(div_bits(ONE_BITS, pow_nat_bits(x, (-n) as nat)))
        }
    } else if is_pos_normal_bits(x) {
        exp_bits(mul_bits(y, ln_pos_bits(x)))
    } else {
        None
    }
}

pub fn num_pow(x: u64, y: u64) -> (r: Option<u64>)
    ensures
        r == pow_bits(x, y),
{
    let t = num_trunc(y);
    let n: i64 = num_to_i64(y);
    if num_eq(t, y) && !num_is_inf(y) && -65536 <= n && n <= 65536 {
        if n >= 0 {
            Some(pow_nat(x, n as u64))
        } else {
            Some(num_div(ONE_BITS, pow_nat(x, (-n) as u64)))
        }
    } else if num_is_pos_normal(x) {
        num_exp(num_mul(y, ln_pos(x)))
    } else {
        None
    }
}

} // verus!
