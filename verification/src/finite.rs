//! Single-precision numbers handled through their IEEE-754 bit patterns.
//!
//! Every number is carried as the 32-bit pattern of its encoding. The model of
//! a pattern is [`exact_value`]: the encoded number multiplied by 2^149, which
//! is an integer for every pattern that is not a NaN. Comparisons between
//! patterns are proved to agree with the order of those integers.

use vstd::arithmetic::power2::{lemma_pow2_adds, lemma_pow2_pos, lemma_pow2_strictly_increases, pow2};
use vstd::prelude::*;

verus! {

/// The eight exponent bits of a pattern.
pub open spec fn exponent_field(bits: u32) -> nat {
    ((bits >> 23) & 0xff) as nat
}

/// The twenty-three fraction bits of a pattern.
pub open spec fn fraction_field(bits: u32) -> nat {
    (bits & 0x7f_ffff) as nat
}

/// The pattern without its sign bit.
pub open spec fn magnitude_bits(bits: u32) -> u32 {
    bits & 0x7fff_ffff
}

/// Whether the sign bit of a pattern is set.
pub open spec fn is_negative(bits: u32) -> bool {
    bits & 0x8000_0000 != 0
}

/// Whether a pattern encodes a NaN.
pub open spec fn is_nan(bits: u32) -> bool {
    magnitude_bits(bits) > 0x7f80_0000
}

/// Whether a pattern encodes a finite number (neither a NaN nor an infinity).
pub open spec fn is_finite(bits: u32) -> bool {
    magnitude_bits(bits) < 0x7f80_0000
}

/// The integer significand of a pattern: the fraction bits, with the implicit
/// leading bit for a normal number.
pub open spec fn significand(bits: u32) -> nat {
    if exponent_field(bits) == 0 {
        fraction_field(bits)
    } else {
        fraction_field(bits) + 0x80_0000
    }
}

/// The power of two by which the significand is multiplied in [`magnitude_value`].
pub open spec fn scale(bits: u32) -> nat {
    if exponent_field(bits) == 0 {
        0
    } else {
        (exponent_field(bits) - 1) as nat
    }
}

/// The absolute value of the encoded number, multiplied by 2^149.
///
/// An infinity is given the value that its exponent field would have as a
/// normal number, which lies above every finite value.
pub open spec fn magnitude_value(bits: u32) -> nat {
    significand(bits) * pow2(scale(bits))
}

/// The encoded number multiplied by 2^149. Meaningful for every pattern that
/// is not a NaN; both zeros have the value 0.
pub open spec fn exact_value(bits: u32) -> int {
    if is_negative(bits) {
        -(magnitude_value(bits) as int)
    } else {
        magnitude_value(bits) as int
    }
}

/// `a <= b` as IEEE-754 defines it: false when either side is a NaN.
pub open spec fn float_le_spec(a: u32, b: u32) -> bool {
    !is_nan(a) && !is_nan(b) && exact_value(a) <= exact_value(b)
}

/// `a < b` as IEEE-754 defines it: false when either side is a NaN.
pub open spec fn float_lt_spec(a: u32, b: u32) -> bool {
    !is_nan(a) && !is_nan(b) && exact_value(a) < exact_value(b)
}

/// `a == b` as IEEE-754 defines it: false when either side is a NaN, true for
/// the two zeros.
pub open spec fn float_eq_spec(a: u32, b: u32) -> bool {
    !is_nan(a) && !is_nan(b) && exact_value(a) == exact_value(b)
}

pub(crate) proof fn lemma_fields(bits: u32)
    ensures
        exponent_field(bits) <= 255,
        fraction_field(bits) < 0x80_0000,
        magnitude_bits(bits) == exponent_field(bits) * 0x80_0000 + fraction_field(bits),
        is_negative(bits) <==> bits >= 0x8000_0000,
        !is_negative(bits) ==> magnitude_bits(bits) == bits,
        is_negative(bits) ==> magnitude_bits(bits) == bits - 0x8000_0000,
{
    assert(((bits >> 23) & 0xff) <= 255) by (bit_vector);
    assert((bits & 0x7f_ffff) < 0x80_0000) by (bit_vector);
    assert((bits & 0x7fff_ffff) == ((bits >> 23) & 0xff) * 0x80_0000 + (bits & 0x7f_ffff))
        by (bit_vector);
    assert((bits & 0x8000_0000 != 0) <==> bits >= 0x8000_0000) by (bit_vector);
    assert(bits < 0x8000_0000 ==> (bits & 0x7fff_ffff) == bits) by (bit_vector);
    assert(bits >= 0x8000_0000 ==> (bits & 0x7fff_ffff) == bits - 0x8000_0000) by (bit_vector);
}

pub(crate) proof fn lemma_mul_strictly_ordered(a: nat, b: nat, c: nat)
    requires
        a < b,
        c > 0,
    ensures
        a * c < b * c,
{
    assert(a * c < b * c) by (nonlinear_arith)
        requires
            a < b,
            c > 0,
    ;
}

pub(crate) proof fn lemma_mul_ordered(a: nat, b: nat, c: nat)
    requires
        a <= b,
    ensures
        a * c <= b * c,
{
    assert(a * c <= b * c) by (nonlinear_arith)
        requires
            a <= b,
    ;
}

/// A pattern with the smaller magnitude bits encodes the smaller absolute value.
pub proof fn lemma_magnitude_strictly_monotonic(a: u32, b: u32)
    requires
        magnitude_bits(a) < magnitude_bits(b),
    ensures
        magnitude_value(a) < magnitude_value(b),
{
    lemma_fields(a);
    lemma_fields(b);
    let ea = exponent_field(a);
    let eb = exponent_field(b);
    let sa = scale(a);
    let sb = scale(b);
    lemma_pow2_pos(sa);
    lemma_pow2_pos(sb);
    if ea == eb {
        lemma_mul_strictly_ordered(significand(a), significand(b), pow2(sa));
    } else {
        assert(ea < eb);
        // significand(a) < 2^24 when a is normal, < 2^23 when it is subnormal.
        assert(pow2(23) == 0x80_0000 && pow2(24) == 0x100_0000) by {
            vstd::arithmetic::power2::lemma2_to64();
        }
        lemma_mul_ordered(pow2(23), significand(b), pow2(sb));
        lemma_pow2_adds(23, sb);
        if ea == 0 {
            assert(magnitude_value(a) == significand(a)) by {
                assert(pow2(0) == 1) by {
                    vstd::arithmetic::power2::lemma2_to64();
                }
            }
            assert(pow2(23) <= pow2(23 + sb)) by {
                if sb > 0 {
                    lemma_pow2_strictly_increases(23, 23 + sb);
                }
            }
        } else {
            lemma_mul_strictly_ordered(significand(a), pow2(24), pow2(sa));
            lemma_pow2_adds(24, sa);
            assert(24 + sa <= 23 + sb);
            assert(pow2(24 + sa) <= pow2(23 + sb)) by {
                if 24 + sa < 23 + sb {
                    lemma_pow2_strictly_increases(24 + sa, 23 + sb);
                }
            }
        }
    }
}

/// The absolute values of two patterns are ordered as their magnitude bits are.
pub proof fn lemma_magnitude_order(a: u32, b: u32)
    ensures
        magnitude_bits(a) < magnitude_bits(b) <==> magnitude_value(a) < magnitude_value(b),
        magnitude_bits(a) == magnitude_bits(b) <==> magnitude_value(a) == magnitude_value(b),
        magnitude_bits(a) == 0 <==> magnitude_value(a) == 0,
{
    lemma_fields(a);
    lemma_fields(b);
    if magnitude_bits(a) < magnitude_bits(b) {
        lemma_magnitude_strictly_monotonic(a, b);
    } else if magnitude_bits(b) < magnitude_bits(a) {
        lemma_magnitude_strictly_monotonic(b, a);
    } else {
        assert(exponent_field(a) == exponent_field(b) && fraction_field(a) == fraction_field(b))
            by (nonlinear_arith)
            requires
                exponent_field(a) * 0x80_0000 + fraction_field(a) == exponent_field(b) * 0x80_0000
                    + fraction_field(b),
                fraction_field(a) < 0x80_0000,
                fraction_field(b) < 0x80_0000,
        ;
    }
    if magnitude_bits(a) == 0 {
        assert(exponent_field(a) == 0 && fraction_field(a) == 0) by (nonlinear_arith)
            requires
                exponent_field(a) * 0x80_0000 + fraction_field(a) == 0,
        ;
        assert(magnitude_value(a) == 0) by (nonlinear_arith)
            requires
                magnitude_value(a) == 0 * pow2(scale(a)),
        ;
    } else {
        assert(magnitude_bits(0u32) == 0) by (bit_vector);
        lemma_magnitude_strictly_monotonic(0u32, a);
    }
}

/// Whether a pattern encodes a NaN.
pub fn float_is_nan(bits: u32) -> (r: bool)
    ensures
        r == is_nan(bits),
{
    (bits & 0x7fff_ffff) > 0x7f80_0000
}

/// Whether a pattern encodes a finite number.
pub fn float_is_finite(bits: u32) -> (r: bool)
    ensures
        r == is_finite(bits),
{
    (bits & 0x7fff_ffff) < 0x7f80_0000
}

/// Compares two patterns as the numbers they encode: `a <= b`.
pub fn float_le(a: u32, b: u32) -> (r: bool)
    ensures
        r == float_le_spec(a, b),
{
    if float_is_nan(a) || float_is_nan(b) {
        return false;
    }
    let ma: u32 = a & 0x7fff_ffff;
    let mb: u32 = b & 0x7fff_ffff;
    let na: bool = a & 0x8000_0000 != 0;
    let nb: bool = b & 0x8000_0000 != 0;
    proof {
        lemma_magnitude_order(a, b);
        lemma_magnitude_order(b, a);
    }
    if na {
        if nb {
            mb <= ma
        } else {
            true
        }
    } else {
        if nb {
            ma == 0 && mb == 0
        } else {
            ma <= mb
        }
    }
}

/// Compares two patterns as the numbers they encode: `a < b`.
pub fn float_lt(a: u32, b: u32) -> (r: bool)
    ensures
        r == float_lt_spec(a, b),
{
    if float_is_nan(a) || float_is_nan(b) {
        return false;
    }
    !float_le(b, a)
}

/// Compares two patterns as the numbers they encode: `a == b`.
pub fn float_eq(a: u32, b: u32) -> (r: bool)
    ensures
        r == float_eq_spec(a, b),
{
    float_le(a, b) && float_le(b, a)
}

/// Whether the encoded number is at least `numerator / denominator`: false
/// for a NaN.
pub open spec fn float_ge_ratio_spec(bits: u32, numerator: nat, denominator: nat) -> bool {
    !is_nan(bits) && exact_value(bits) * denominator >= numerator * pow2(149)
}

proof fn lemma_value_of_one()
    ensures
        magnitude_value(0x3f80_0000u32) == pow2(149),
        magnitude_bits(0x3f80_0000u32) == 0x3f80_0000u32,
{
    assert(((0x3f80_0000u32 >> 23) & 0xff) == 127) by (bit_vector);
    assert((0x3f80_0000u32 & 0x7f_ffff) == 0) by (bit_vector);
    assert((0x3f80_0000u32 & 0x7fff_ffff) == 0x3f80_0000u32) by (bit_vector);
    assert(pow2(23) == 0x80_0000) by {
        vstd::arithmetic::power2::lemma2_to64();
    }
    lemma_pow2_adds(23, 126);
}

proof fn lemma_cancel_scale(sig: nat, s: nat, den: nat, num: nat)
    requires
        s <= 149,
    ensures
        (sig * pow2(s)) * den >= num * pow2(149) <==> sig * den >= num * pow2((149 - s) as nat),
{
    let k = (149 - s) as nat;
    let ps = pow2(s);
    let pk = pow2(k);
    lemma_pow2_adds(s, k);
    lemma_pow2_pos(s);
    assert((sig * ps) * den == (sig * den) * ps) by (nonlinear_arith);
    assert(num * (ps * pk) == (num * pk) * ps) by (nonlinear_arith);
    assert(((sig * den) * ps >= (num * pk) * ps) <==> (sig * den >= num * pk)) by (nonlinear_arith)
        requires
            ps > 0,
    ;
}

proof fn lemma_quotient_bound(x: nat, d: nat, n: nat)
    requires
        d > 0,
    ensures
        x / d >= n <==> x >= n * d,
{
    vstd::arithmetic::div_mod::lemma_fundamental_div_mod(x as int, d as int);
    vstd::arithmetic::div_mod::lemma_mod_bound(x as int, d as int);
    let q = x / d;
    let r = x % d;
    assert(x == d * q + r);
    if q >= n {
        assert(d * q >= n * d) by (nonlinear_arith)
            requires
                q >= n,
        ;
    } else {
        assert(d * q + d <= n * d) by (nonlinear_arith)
            requires
                q + 1 <= n,
        ;
    }
}

/// Whether the encoded number is at least `numerator / denominator`, for a
/// quotient between 0 and 1. Decided exactly, in integers.
#[verifier::rlimit(40)]
pub fn float_ge_ratio(bits: u32, numerator: u64, denominator: u64) -> (r: bool)
    requires
        0 < denominator,
        numerator <= denominator,
    ensures
        r == float_ge_ratio_spec(bits, numerator as nat, denominator as nat),
{
    if float_is_nan(bits) {
        return false;
    }
    let magnitude: u32 = bits & 0x7fff_ffff;
    let negative: bool = bits & 0x8000_0000 != 0;
    proof {
        lemma_fields(bits);
        lemma_magnitude_order(bits, bits);
        lemma_pow2_pos(149);
    }
    if negative {
        proof {
            let m = magnitude_value(bits);
            let p = pow2(149);
            assert((-(m as int)) * denominator >= numerator * p <==> (m == 0 && numerator == 0))
                by (nonlinear_arith)
                requires
                    denominator > 0,
                    p > 0,
            ;
        }
        return magnitude == 0 && numerator == 0;
    }
    if magnitude >= 0x3f80_0000 {
        proof {
            lemma_value_of_one();
            lemma_magnitude_order(0x3f80_0000u32, bits);
            let m = magnitude_value(bits);
            let p = pow2(149);
            assert(m * denominator >= numerator * p) by (nonlinear_arith)
                requires
                    m >= p,
                    numerator <= denominator,
            ;
        }
        return true;
    }
    let exponent: u32 = (bits >> 23) & 0xff;
    let fraction: u32 = bits & 0x7f_ffff;
    assert(exponent <= 126) by (bit_vector)
        requires
            exponent == (bits >> 23) & 0xff,
            (bits & 0x7fff_ffff) < 0x3f80_0000,
    ;
    let sig: u32 = if exponent == 0 {
        fraction
    } else {
        fraction + 0x80_0000
    };
    let shift: u32 = if exponent == 0 {
        149
    } else {
        150 - exponent
    };
    assert(sig as u128 * denominator as u128 <= 0xffff_ffff_ffff_ffff_ffff_ff) by (nonlinear_arith)
        requires
            sig < 0x100_0000,
            denominator <= 0xffff_ffff_ffff_ffff,
    ;
    let product: u128 = sig as u128 * denominator as u128;
    proof {
        assert(sig == significand(bits));
        assert(shift == 149 - scale(bits));
        lemma_cancel_scale(sig as nat, scale(bits), denominator as nat, numerator as nat);
        lemma_pow2_pos(shift as nat);
    }
    if shift >= 128 {
        proof {
            vstd::arithmetic::power2::lemma2_to64_rest();
            vstd::arithmetic::power2::lemma2_to64();
            assert(pow2(88) == 0x100_0000_0000_0000_0000_0000) by {
                lemma_pow2_adds(64, 24);
            }
            lemma_pow2_strictly_increases(88, shift as nat);
            let pk = pow2(shift as nat);
            assert(product >= numerator * pk <==> numerator == 0) by (nonlinear_arith)
                requires
                    product < pk,
            ;
        }
        numerator == 0
    } else {
        let quotient: u128 = product >> (shift as u128);
        proof {
            vstd::bits::lemma_u128_shr_is_div(product, shift as u128);
            lemma_quotient_bound(product as nat, pow2(shift as nat), numerator as nat);
        }
        quotient >= numerator as u128
    }
}

/// The significand and the scale of a pattern.
pub(crate) fn decompose(bits: u32) -> (r: (u32, u32))
    ensures
        r.0 == significand(bits),
        r.1 == scale(bits),
        r.0 < 0x100_0000,
        r.1 <= 254,
        is_finite(bits) ==> r.1 <= 253,
        r.1 > 0 ==> r.0 >= 0x80_0000,
{
    let exponent: u32 = (bits >> 23) & 0xff;
    let fraction: u32 = bits & 0x7f_ffff;
    proof {
        lemma_fields(bits);
        assert((bits & 0x7fff_ffff) < 0x7f80_0000 ==> ((bits >> 23) & 0xff) <= 254) by (bit_vector);
    }
    if exponent == 0 {
        (fraction, 0)
    } else {
        (fraction + 0x80_0000, exponent - 1)
    }
}

/// 2^k as a 128-bit number.
pub(crate) fn power_of_two(k: u32) -> (r: u128)
    requires
        k <= 127,
    ensures
        r == pow2(k as nat),
{
    proof {
        vstd::arithmetic::power2::lemma2_to64();
        vstd::arithmetic::power2::lemma2_to64_rest();
    }
    if k < 64 {
        proof {
            lemma_pow2_strictly_increases(k as nat, 64);
            vstd::bits::lemma_u64_shl_is_mul(1, k as u64);
        }
        (1u64 << (k as u64)) as u128
    } else {
        let low: u32 = k - 64;
        proof {
            lemma_pow2_strictly_increases(low as nat, 64);
            vstd::bits::lemma_u64_shl_is_mul(1, low as u64);
            lemma_pow2_adds(low as nat, 64);
        }
        let factor: u128 = (1u64 << (low as u64)) as u128;
        assert(factor * 0x1_0000_0000_0000_0000 <= u128::MAX) by (nonlinear_arith)
            requires
                factor < 0x1_0000_0000_0000_0000,
        ;
        factor * 0x1_0000_0000_0000_0000u128
    }
}

pub(crate) proof fn lemma_scaled_bound(m: nat, k: nat, bound: nat)
    requires
        m < 0x100_0000,
        k + 24 <= bound,
    ensures
        m * pow2(k) < pow2(bound),
{
    vstd::arithmetic::power2::lemma2_to64();
    lemma_pow2_pos(k);
    lemma_mul_strictly_ordered(m, pow2(24), pow2(k));
    lemma_pow2_adds(24, k);
    if 24 + k < bound {
        lemma_pow2_strictly_increases(24 + k, bound);
    }
}

pub(crate) proof fn lemma_scaled_floor(m: nat, k: nat, bound: nat)
    requires
        m >= 0x80_0000,
        bound <= k + 23,
    ensures
        m * pow2(k) >= pow2(bound),
{
    vstd::arithmetic::power2::lemma2_to64();
    lemma_mul_ordered(pow2(23), m, pow2(k));
    lemma_pow2_adds(23, k);
    if bound < 23 + k {
        lemma_pow2_strictly_increases(bound, 23 + k);
    }
}

/// An integer that orders patterns as the numbers they encode are ordered:
/// the magnitude bits, negated for a negative number.
pub open spec fn order_key(bits: u32) -> int {
    if is_negative(bits) {
        -(magnitude_bits(bits) as int)
    } else {
        magnitude_bits(bits) as int
    }
}

/// Two patterns are ordered by their keys as by their exact values.
pub proof fn lemma_order_key(a: u32, b: u32)
    ensures
        order_key(a) <= order_key(b) <==> exact_value(a) <= exact_value(b),
        order_key(a) == order_key(b) <==> exact_value(a) == exact_value(b),
{
    lemma_magnitude_order(a, b);
    lemma_magnitude_order(b, a);
}

/// The order key of a pattern.
pub fn float_order_key(bits: u32) -> (r: i64)
    ensures
        r == order_key(bits),
        -0x8000_0000 < r < 0x8000_0000,
{
    let magnitude: u32 = bits & 0x7fff_ffff;
    assert(magnitude < 0x8000_0000) by (bit_vector)
        requires
            magnitude == bits & 0x7fff_ffff,
    ;
    if bits & 0x8000_0000 != 0 {
        -(magnitude as i64)
    } else {
        magnitude as i64
    }
}

/// The encoded number without what follows its decimal point.
pub open spec fn truncated(bits: u32) -> int {
    if is_negative(bits) {
        -((magnitude_value(bits) / pow2(149)) as int)
    } else {
        (magnitude_value(bits) / pow2(149)) as int
    }
}

/// The whole part of a finite number that is above -1 and not above the
/// largest `usize`.
pub open spec fn float_to_usize_spec(bits: u32) -> Option<usize> {
    if is_finite(bits) && 0 <= truncated(bits) <= usize::MAX {
        Some(truncated(bits) as usize)
    } else {
        None
    }
}

proof fn lemma_truncated_magnitude(sig: nat, s: nat)
    ensures
        s >= 149 ==> (sig * pow2(s)) / pow2(149) == sig * pow2((s - 149) as nat),
        s < 149 ==> (sig * pow2(s)) / pow2(149) == sig / pow2((149 - s) as nat),
{
    lemma_pow2_pos(149);
    lemma_pow2_pos(s);
    if s >= 149 {
        let rest = pow2((s - 149) as nat);
        lemma_pow2_adds(149, (s - 149) as nat);
        assert(sig * (pow2(149) * rest) == pow2(149) * (sig * rest)) by (nonlinear_arith);
        vstd::arithmetic::div_mod::lemma_div_multiples_vanish(
            (sig * rest) as int,
            pow2(149) as int,
        );
    } else {
        let rest = pow2((149 - s) as nat);
        lemma_pow2_pos((149 - s) as nat);
        lemma_pow2_adds(s, (149 - s) as nat);
        vstd::arithmetic::div_mod::lemma_div_denominator(
            (sig * pow2(s)) as int,
            pow2(s) as int,
            rest as int,
        );
        assert(sig * pow2(s) == pow2(s) * sig) by (nonlinear_arith);
        vstd::arithmetic::div_mod::lemma_div_multiples_vanish(sig as int, pow2(s) as int);
    }
}

/// The whole part of a number as a `usize`: `None` for a number that is not
/// finite, is -1 or below, or is above the largest `usize`.
#[verifier::rlimit(40)]
pub fn float_to_usize(bits: u32) -> (r: Option<usize>)
    ensures
        r == float_to_usize_spec(bits),
{
    if !float_is_finite(bits) {
        return None;
    }
    let (sig, scale_of_bits) = decompose(bits);
    let negative: bool = bits & 0x8000_0000 != 0;
    proof {
        lemma_truncated_magnitude(sig as nat, scale_of_bits as nat);
        vstd::arithmetic::power2::lemma2_to64();
    }
    let whole: u128 = if scale_of_bits >= 149 {
        let unit: u128 = power_of_two(scale_of_bits - 149);
        proof {
            lemma_scaled_bound(sig as nat, (scale_of_bits - 149) as nat, 128);
            vstd::arithmetic::power2::lemma2_to64_rest();
            lemma_pow2_adds(64, 64);
        }
        sig as u128 * unit
    } else {
        let shift: u32 = 149 - scale_of_bits;
        if shift >= 24 {
            proof {
                if shift > 24 {
                    lemma_pow2_strictly_increases(24, shift as nat);
                }
                vstd::arithmetic::div_mod::lemma_basic_div(sig as int, pow2(shift as nat) as int);
            }
            0
        } else {
            sig as u128 / power_of_two(shift)
        }
    };
    if negative {
        if whole == 0 {
            Some(0)
        } else {
            None
        }
    } else if whole <= usize::MAX as u128 {
        Some(whole as usize)
    } else {
        None
    }
}

/// The error of [`Finite::new`]: the pattern encodes a NaN or an infinity.
#[derive(Debug)]
pub struct NotFiniteError;

/// A single-precision number that is known to be finite.
#[derive(Clone, Copy, Debug)]
pub struct Finite {
    bits: u32,
}

impl Finite {
    /// The invariant of the type.
    #[verifier::type_invariant]
    spec fn well_formed(self) -> bool {
        is_finite(self.bits)
    }

    /// The bit pattern of the number.
    pub closed spec fn bits(self) -> u32 {
        self.bits
    }

    /// The number multiplied by 2^149.
    pub open spec fn value(self) -> int {
        exact_value(self.bits())
    }

    /// Accepts a pattern exactly when it encodes a finite number.
    pub fn new(bits: u32) -> (r: Result<Finite, NotFiniteError>)
        ensures
            r is Ok <==> is_finite(bits),
            r is Ok ==> r->Ok_0.bits() == bits,
    {
        if float_is_finite(bits) {
            Ok(Finite { bits })
        } else {
            Err(NotFiniteError)
        }
    }

    /// The bit pattern of the number.
    pub fn get(self) -> (bits: u32)
        ensures
            bits == self.bits(),
            is_finite(bits),
    {
        proof {
            use_type_invariant(&self);
        }
        self.bits
    }

    /// `self <= other`, as numbers.
    pub fn le(self, other: Finite) -> (r: bool)
        ensures
            r == (self.value() <= other.value()),
    {
        proof {
            use_type_invariant(&self);
            use_type_invariant(&other);
        }
        float_le(self.bits, other.bits)
    }

    /// `self < other`, as numbers.
    pub fn lt(self, other: Finite) -> (r: bool)
        ensures
            r == (self.value() < other.value()),
    {
        proof {
            use_type_invariant(&self);
            use_type_invariant(&other);
        }
        float_lt(self.bits, other.bits)
    }

    /// `self == other`, as numbers: the two zeros are equal.
    pub fn same_value(self, other: Finite) -> (r: bool)
        ensures
            r == (self.value() == other.value()),
    {
        proof {
            use_type_invariant(&self);
            use_type_invariant(&other);
        }
        float_eq(self.bits, other.bits)
    }

    /// An integer that orders finite numbers as their values do, and that
    /// two numbers share exactly when they have one value: a key for
    /// ordered maps.
    pub fn key(self) -> (r: i64)
        ensures
            r == order_key(self.bits()),
    {
        float_order_key(self.bits)
    }

    /// Whether the number is zero (of either sign).
    pub fn is_zero(self) -> (r: bool)
        ensures
            r == (self.value() == 0),
    {
        proof {
            lemma_magnitude_order(self.bits, self.bits);
        }
        (self.bits & 0x7fff_ffff) == 0
    }
}

/// Finite numbers have the order of their exact values, which is total:
/// of two finite numbers, one is at most the other.
pub proof fn lemma_finite_order_total(a: Finite, b: Finite)
    ensures
        a.value() <= b.value() || b.value() <= a.value(),
        a.value() == b.value() <==> (magnitude_bits(a.bits()) == magnitude_bits(b.bits()) && (
        is_negative(a.bits()) == is_negative(b.bits()) || magnitude_bits(a.bits()) == 0)),
{
    lemma_magnitude_order(a.bits(), b.bits());
    lemma_magnitude_order(b.bits(), a.bits());
}

} // verus!
