//! Conversion of IEEE-754 bit patterns to saturated unsigned integers.
//!
//! Rust's `as` from a float to an unsigned integer truncates toward zero,
//! maps NaN and every negative value to 0, and saturates at the target's
//! maximum. The functions here compute that result from the bit pattern,
//! so that a count or index stored as a float in a file can be handled
//! without floating-point arithmetic.

use vstd::prelude::*;
use vstd::arithmetic::power2::{pow2, lemma2_to64, lemma_pow2_strictly_increases, lemma_pow2_pos};
use vstd::bits::{lemma_u64_shr_is_div, lemma_u64_shl_is_mul};

verus! {

/// `v` capped at `max`.
pub open spec fn sat(v: nat, max: nat) -> nat {
    if v > max { max } else { v }
}

/// Truncated value of `m * 2^(e - bias)`, saturated at `max`.
pub open spec fn scaled_trunc(m: nat, e: nat, bias: nat, max: nat) -> nat {
    if e >= bias {
        sat(m * pow2((e - bias) as nat), max)
    } else {
        sat(m / pow2((bias - e) as nat), max)
    }
}

/// `f64::from_bits(bits) as uN` for an unsigned target whose maximum is `max`.
pub open spec fn f64_bits_to_unsigned(bits: u64, max: nat) -> nat {
    let sign = bits / 0x8000_0000_0000_0000;
    let exp = (bits / 0x10_0000_0000_0000) % 2048;
    let frac = bits % 0x10_0000_0000_0000;
    if exp == 2047 {
        if frac != 0 || sign == 1 { 0 } else { max }
    } else if sign == 1 {
        0
    } else if exp == 0 {
        scaled_trunc(frac as nat, 1, 1075, max)
    } else {
        scaled_trunc((frac + 0x10_0000_0000_0000) as nat, exp as nat, 1075, max)
    }
}

/// `f32::from_bits(bits) as uN` for an unsigned target whose maximum is `max`.
pub open spec fn f32_bits_to_unsigned(bits: u32, max: nat) -> nat {
    let sign = bits / 0x8000_0000;
    let exp = (bits / 0x80_0000) % 256;
    let frac = bits % 0x80_0000;
    if exp == 255 {
        if frac != 0 || sign == 1 { 0 } else { max }
    } else if sign == 1 {
        0
    } else if exp == 0 {
        scaled_trunc(frac as nat, 1, 150, max)
    } else {
        scaled_trunc((frac + 0x80_0000) as nat, exp as nat, 150, max)
    }
}

proof fn lemma_pow2_ge_64(k: nat)
    requires
        k >= 64,
    ensures
        pow2(k) >= 0x1_0000_0000_0000_0000,
{
    lemma2_to64();
    if k > 64 {
        lemma_pow2_strictly_increases(64, k);
    }
}

/// Truncated `m * 2^(e - bias)` saturated at `max`.
fn scaled_trunc_exec(m: u64, e: u64, bias: u64, max: u64) -> (r: u64)
    requires
        m < 0x20_0000_0000_0000,
        e <= 4096,
        bias <= 4096,
    ensures
        r == scaled_trunc(m as nat, e as nat, bias as nat, max as nat),
{
    if e >= bias {
        let k = e - bias;
        if m == 0 {
            assert(0 * pow2(k as nat) == 0);
            return 0;
        }
        if k >= 64 {
            proof {
                lemma_pow2_ge_64(k as nat);
                assert(m * pow2(k as nat) >= pow2(k as nat)) by (nonlinear_arith)
                    requires m >= 1;
            }
            return max;
        }
        proof {
            lemma2_to64();
            lemma_pow2_pos(k as nat);
        }
        // m * 2^k fits in u64 exactly when m <= u64::MAX >> k.
        let limit = 0xffff_ffff_ffff_ffffu64 >> k;
        proof {
            lemma_u64_shr_is_div(0xffff_ffff_ffff_ffffu64, k);
        }
        if m > limit {
            proof {
                let p = pow2(k as nat);
                assert(m * p > 0xffff_ffff_ffff_ffffnat) by (nonlinear_arith)
                    requires m > limit, limit == 0xffff_ffff_ffff_ffffnat / p, p > 0;
            }
            return max;
        }
        proof {
            let p = pow2(k as nat);
            assert(m * p <= 0xffff_ffff_ffff_ffffnat) by (nonlinear_arith)
                requires m <= limit, limit == 0xffff_ffff_ffff_ffffnat / p, p > 0;
            lemma_u64_shl_is_mul(m, k);
        }
        let v = m << k;
        if v > max { max } else { v }
    } else {
        let k = bias - e;
        if k >= 64 {
            proof {
                lemma_pow2_ge_64(k as nat);
                assert(m as nat / pow2(k as nat) == 0) by (nonlinear_arith)
                    requires m < pow2(k as nat), m >= 0;
            }
            return 0;
        }
        proof {
            lemma_u64_shr_is_div(m, k);
        }
        let v = m >> k;
        if v > max { max } else { v }
    }
}

/// `f64::from_bits(bits) as uN`, where `max` is `uN::MAX`.
pub fn f64_bits_to_unsigned_exec(bits: u64, max: u64) -> (r: u64)
    ensures
        r == f64_bits_to_unsigned(bits, max as nat),
{
    let sign = bits / 0x8000_0000_0000_0000;
    let exp = (bits / 0x10_0000_0000_0000) % 2048;
    let frac = bits % 0x10_0000_0000_0000;
    if exp == 2047 {
        if frac != 0 || sign == 1 { 0 } else { max }
    } else if sign == 1 {
        0
    } else if exp == 0 {
        scaled_trunc_exec(frac, 1, 1075, max)
    } else {
        scaled_trunc_exec(frac + 0x10_0000_0000_0000, exp, 1075, max)
    }
}

/// `f32::from_bits(bits) as uN`, where `max` is `uN::MAX`.
pub fn f32_bits_to_unsigned_exec(bits: u32, max: u64) -> (r: u64)
    ensures
        r == f32_bits_to_unsigned(bits, max as nat),
{
    let sign = bits / 0x8000_0000;
    let exp = (bits / 0x80_0000) % 256;
    let frac = bits % 0x80_0000;
    if exp == 255 {
        if frac != 0 || sign == 1 { 0 } else { max }
    } else if sign == 1 {
        0
    } else if exp == 0 {
        scaled_trunc_exec(frac as u64, 1, 150, max)
    } else {
        scaled_trunc_exec((frac + 0x80_0000) as u64, exp as u64, 150, max)
    }
}

} // verus!
