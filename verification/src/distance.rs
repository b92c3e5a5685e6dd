//! Whether two single precision numbers are less than a third apart,
//! decided exactly on their bit patterns.

use crate::finite::{
    decompose, exact_value, float_is_finite, float_is_nan, is_finite, is_nan, lemma_fields,
    lemma_magnitude_order, lemma_scaled_bound, lemma_scaled_floor, power_of_two,
};
use vstd::arithmetic::power2::{lemma_pow2_adds, lemma_pow2_pos, lemma_pow2_strictly_increases, pow2};
use vstd::prelude::*;

verus! {

/// Whether two finite numbers are less than `limit` apart, in exact
/// arithmetic: false where one of the two is not finite or the limit is a
/// NaN.
pub open spec fn within_distance_spec(a: u32, b: u32, limit: u32) -> bool {
    is_finite(a) && is_finite(b) && !is_nan(limit) && -exact_value(limit) < exact_value(a)
        - exact_value(b) < exact_value(limit)
}

/// Whether a significand and a scale are those of a pattern: below 2^24,
/// and at least 2^23 where the scale is not 0.
spec fn is_decomposed(m: nat, k: nat) -> bool {
    m < 0x100_0000 && k <= 254 && (k > 0 ==> m >= 0x80_0000)
}

/// Of two decomposed numbers the larger has no smaller scale.
proof fn lemma_scales_ordered(mu: nat, ku: nat, mv: nat, kv: nat)
    requires
        is_decomposed(mu, ku),
        is_decomposed(mv, kv),
        mu * pow2(ku) >= mv * pow2(kv),
    ensures
        ku >= kv,
{
    if ku < kv {
        lemma_scaled_bound(mu, ku, 24 + ku);
        lemma_scaled_floor(mv, kv, 23 + kv);
        if 24 + ku < 23 + kv {
            lemma_pow2_strictly_increases(24 + ku, 23 + kv);
        }
    }
}

/// The difference of two numbers in units of the smaller scale.
proof fn lemma_difference(mu: nat, ku: nat, mv: nat, kv: nat)
    requires
        ku >= kv,
        mu * pow2(ku) >= mv * pow2(kv),
    ensures
        mu * pow2((ku - kv) as nat) >= mv,
        mu * pow2(ku) - mv * pow2(kv) == (mu * pow2((ku - kv) as nat) - mv) * pow2(kv),
{
    let high = pow2((ku - kv) as nat);
    let unit = pow2(kv);
    lemma_pow2_adds((ku - kv) as nat, kv);
    lemma_pow2_pos(kv);
    assert(mu * (high * unit) == (mu * high) * unit) by (nonlinear_arith);
    assert((mu * high) * unit - mv * unit == (mu * high - mv) * unit) by (nonlinear_arith);
    assert(mu * high >= mv) by (nonlinear_arith)
        requires
            (mu * high) * unit >= mv * unit,
            unit > 0,
    ;
}

proof fn lemma_scaled_order(x: int, y: int, unit: nat)
    requires
        unit > 0,
    ensures
        x * unit < y * unit <==> x < y,
        x * unit == y * unit <==> x == y,
{
    assert((x * unit < y * unit <==> x < y) && (x * unit == y * unit <==> x == y))
        by (nonlinear_arith)
        requires
            unit > 0,
    ;
}

/// The sign of `(U - V) - W` for three decomposed numbers of which `U` is
/// the largest: -1 where the difference is below `W`, 0 where it is `W`, 1
/// where it is above.
#[verifier::rlimit(40)]
fn difference_sign(mu: u32, ku: u32, mv: u32, kv: u32, mw: u32, kw: u32) -> (r: i8)
    requires
        is_decomposed(mu as nat, ku as nat),
        is_decomposed(mv as nat, kv as nat),
        is_decomposed(mw as nat, kw as nat),
        mu * pow2(ku as nat) >= mv * pow2(kv as nat),
        mu * pow2(ku as nat) >= mw * pow2(kw as nat),
    ensures
        -1 <= r <= 1,
        r < 0 <==> mu * pow2(ku as nat) - mv * pow2(kv as nat) < mw * pow2(kw as nat),
        r == 0 <==> mu * pow2(ku as nat) - mv * pow2(kv as nat) == mw * pow2(kw as nat),
{
    let ghost u = mu * pow2(ku as nat);
    let ghost v = mv * pow2(kv as nat);
    let ghost w = mw * pow2(kw as nat);
    proof {
        lemma_scales_ordered(mu as nat, ku as nat, mv as nat, kv as nat);
        lemma_scales_ordered(mu as nat, ku as nat, mw as nat, kw as nat);
        vstd::arithmetic::power2::lemma2_to64();
    }
    if ku - kv <= 100 {
        proof {
            lemma_difference(mu as nat, ku as nat, mv as nat, kv as nat);
            lemma_scaled_bound(mu as nat, (ku - kv) as nat, 124);
            vstd::arithmetic::power2::lemma2_to64_rest();
            lemma_pow2_adds(64, 60);
            lemma_pow2_pos(kv as nat);
            lemma_pow2_pos(kw as nat);
        }
        let x: u128 = mu as u128 * power_of_two(ku - kv) - mv as u128;
        if kw >= kv {
            let shift: u32 = kw - kv;
            let unit: u128 = power_of_two(shift);
            proof {
                lemma_pow2_pos(shift as nat);
            }
            let quotient: u128 = x / unit;
            let rest: u128 = x % unit;
            proof {
                // W is `mw * unit` in units of the scale of V.
                lemma_pow2_adds(shift as nat, kv as nat);
                assert(mw * (unit * pow2(kv as nat)) == (mw * unit) * pow2(kv as nat))
                    by (nonlinear_arith);
                lemma_scaled_order(x as int, (mw * unit) as int, pow2(kv as nat));
                vstd::arithmetic::div_mod::lemma_fundamental_div_mod(x as int, unit as int);
                vstd::arithmetic::div_mod::lemma_mod_bound(x as int, unit as int);
                assert(x == unit * quotient + rest);
                assert((quotient < mw ==> x < mw * unit) && (quotient > mw ==> x > mw * unit) && (
                quotient == mw ==> x == mw * unit + rest)) by (nonlinear_arith)
                    requires
                        x == unit * quotient + rest,
                        0 <= rest < unit,
                ;
            }
            if quotient < mw as u128 {
                -1
            } else if quotient > mw as u128 {
                1
            } else if rest > 0 {
                1
            } else {
                0
            }
        } else {
            let shift: u32 = kv - kw;
            proof {
                // The difference is `x * 2^shift` in units of the scale of W.
                lemma_pow2_adds(shift as nat, kw as nat);
                let high = pow2(shift as nat);
                lemma_pow2_pos(shift as nat);
                assert(x * (high * pow2(kw as nat)) == (x * high) * pow2(kw as nat))
                    by (nonlinear_arith);
                lemma_scaled_order((x * high) as int, mw as int, pow2(kw as nat));
                lemma_scaled_order(mw as int, (x * high) as int, pow2(kw as nat));
                if shift >= 24 {
                    if shift > 24 {
                        lemma_pow2_strictly_increases(24, shift as nat);
                    }
                    assert(x >= 1 ==> x * high >= 0x100_0000) by (nonlinear_arith)
                        requires
                            high >= 0x100_0000,
                    ;
                } else {
                    lemma_pow2_strictly_increases(shift as nat, 24);
                }
                assert(x >= 0x100_0000 ==> x * high >= 0x100_0000) by (nonlinear_arith)
                    requires
                        high >= 1,
                ;
                assert(x == 0 ==> x * high == 0) by (nonlinear_arith);
            }
            if x == 0 {
                if mw == 0 {
                    0
                } else {
                    -1
                }
            } else if shift >= 24 || x >= 0x100_0000 {
                1
            } else {
                let unit: u128 = power_of_two(shift);
                assert(x * unit < 0x1_0000_0000_0000) by (nonlinear_arith)
                    requires
                        x < 0x100_0000,
                        unit < 0x100_0000,
                ;
                let left: u128 = x * unit;
                if left < mw as u128 {
                    -1
                } else if left > mw as u128 {
                    1
                } else {
                    0
                }
            }
        }
    } else {
        proof {
            // V is below 2^(ku - 77), and U is at least 2^(ku + 23).
            lemma_scaled_bound(mv as nat, kv as nat, (ku - 77) as nat);
            lemma_scaled_floor(mu as nat, ku as nat, (ku + 23) as nat);
            lemma_pow2_pos((ku - 77) as nat);
            if !(kw == ku && mw == mu) {
                if kw + 77 >= ku {
                    // U and W are different multiples of 2^kw.
                    lemma_pow2_adds((ku - kw) as nat, kw as nat);
                    let high = pow2((ku - kw) as nat);
                    let unit = pow2(kw as nat);
                    lemma_pow2_pos(kw as nat);
                    assert(mu * (high * unit) == (mu * high) * unit) by (nonlinear_arith);
                    lemma_scaled_order(mw as int, (mu * high) as int, unit);
                    lemma_scaled_order((mu * high) as int, mw as int, unit);
                    assert(u == (mu * high) * unit);
                    assert(mu * high >= mw);
                    if mw == mu * high {
                        // Equal values have equal scales and significands.
                        assert(w == u);
                        lemma_scales_ordered(mw as nat, kw as nat, mu as nat, ku as nat);
                        assert(kw == ku);
                        assert(high == 1);
                        assert(mu * high == mu) by (nonlinear_arith)
                            requires
                                high == 1,
                        ;
                        assert(false);
                    }
                    assert((mu * high) * unit - mw * unit >= unit) by (nonlinear_arith)
                        requires
                            mu * high > mw,
                            unit > 0,
                    ;
                    if kw > ku - 77 {
                        lemma_pow2_strictly_increases((ku - 77) as nat, kw as nat);
                    }
                } else {
                    lemma_scaled_bound(mw as nat, kw as nat, (ku - 54) as nat);
                    lemma_pow2_strictly_increases((ku - 77) as nat, (ku - 54) as nat);
                    lemma_pow2_adds(1, (ku - 54) as nat);
                    lemma_pow2_strictly_increases((ku - 53) as nat, (ku + 23) as nat);
                }
            } else {
                lemma_pow2_pos(kv as nat);
                assert(mv * pow2(kv as nat) == 0 <==> mv == 0) by (nonlinear_arith)
                    requires
                        pow2(kv as nat) > 0,
                        mv >= 0,
                ;
            }
        }
        if kw == ku && mw == mu {
            if mv > 0 {
                -1
            } else {
                0
            }
        } else {
            1
        }
    }
}

/// Whether two numbers are finite and less than `limit` apart. Decided
/// exactly, in integers.
#[verifier::rlimit(40)]
pub fn within_distance(a: u32, b: u32, limit: u32) -> (r: bool)
    ensures
        r == within_distance_spec(a, b, limit),
{
    if !float_is_finite(a) || !float_is_finite(b) || float_is_nan(limit) {
        return false;
    }
    proof {
        lemma_fields(a);
        lemma_fields(b);
        lemma_fields(limit);
        lemma_magnitude_order(a, b);
        lemma_magnitude_order(b, a);
        lemma_magnitude_order(a, limit);
        lemma_magnitude_order(limit, a);
        lemma_magnitude_order(b, limit);
        lemma_magnitude_order(limit, b);
    }
    let limit_magnitude: u32 = limit & 0x7fff_ffff;
    if limit & 0x8000_0000 != 0 || limit_magnitude == 0 {
        return false;
    }
    let a_magnitude: u32 = a & 0x7fff_ffff;
    let b_magnitude: u32 = b & 0x7fff_ffff;
    let same_sign: bool = (a & 0x8000_0000 != 0) == (b & 0x8000_0000 != 0);
    let (ma, ka) = decompose(a);
    let (mb, kb) = decompose(b);
    let (mt, kt) = decompose(limit);
    let a_larger: bool = a_magnitude >= b_magnitude;
    let (mp, kp, mq, kq) = if a_larger {
        (ma, ka, mb, kb)
    } else {
        (mb, kb, ma, ka)
    };
    let larger_magnitude: u32 = if a_larger {
        a_magnitude
    } else {
        b_magnitude
    };
    if !same_sign {
        // The distance is the sum of the two magnitudes.
        if larger_magnitude >= limit_magnitude {
            return false;
        }
        difference_sign(mt, kt, mp, kp, mq, kq) > 0
    } else {
        // The distance is the difference of the two magnitudes.
        if larger_magnitude < limit_magnitude {
            return true;
        }
        difference_sign(mp, kp, mt, kt, mq, kq) < 0
    }
}

/// The pattern of 2^-23, the distance from 1 to the next single precision
/// number.
pub const EPSILON: u32 = 0x3400_0000;

/// Whether two finite numbers are less than 2^-23 apart, in exact
/// arithmetic.
pub open spec fn within_epsilon_spec(a: u32, b: u32) -> bool {
    is_finite(a) && is_finite(b) && -(pow2(126) as int) < exact_value(a) - exact_value(b) < pow2(
        126,
    )
}

proof fn lemma_value_of_epsilon()
    ensures
        exact_value(EPSILON) == pow2(126),
        !is_nan(EPSILON),
{
    assert(((0x3400_0000u32 >> 23) & 0xff) == 104) by (bit_vector);
    assert((0x3400_0000u32 & 0x7f_ffff) == 0) by (bit_vector);
    assert((0x3400_0000u32 & 0x7fff_ffff) == 0x3400_0000u32) by (bit_vector);
    assert((0x3400_0000u32 & 0x8000_0000) == 0) by (bit_vector);
    vstd::arithmetic::power2::lemma2_to64();
    lemma_pow2_adds(23, 103);
}

/// Whether two numbers are finite and less than 2^-23 apart.
pub fn within_epsilon(a: u32, b: u32) -> (r: bool)
    ensures
        r == within_epsilon_spec(a, b),
{
    proof {
        lemma_value_of_epsilon();
    }
    within_distance(a, b, EPSILON)
}

} // verus!
