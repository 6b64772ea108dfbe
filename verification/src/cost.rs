//! Fixed-point word costs.
//!
//! A word's cost approximates `-ln(probability)` under a Zipf frequency
//! distribution: the word at rank `i` (0-based) in a list of `n` words costs
//! `ln((i + 1) * ln(n))`. Costs are carried as Q32.32 fixed-point values in
//! `u64`, so no floating point is involved. Negative values of the formula
//! (possible only for lists of at most two words) are clamped to zero, which
//! keeps every cost non-negative.
//!
//! Two values above every finite cost stand in for "unknown word":
//! `SENTINEL` is the cost of a single out-of-vocabulary token, and adding any
//! finite cost to it leaves it unchanged, while adding two sentinel-class
//! values gives `COST_INF`. This mirrors how IEEE saturation at a huge
//! constant would behave, and makes a segmentation with fewer unknown chunks
//! always cheaper than one with more.

use vstd::arithmetic::div_mod::lemma_div_is_ordered;
use vstd::arithmetic::div_mod::lemma_div_multiples_vanish;
use vstd::arithmetic::div_mod::lemma_fundamental_div_mod;
use vstd::arithmetic::power2::lemma2_to64;
use vstd::arithmetic::power2::lemma_pow2_adds;
use vstd::arithmetic::power2::lemma_pow2_pos;
use vstd::arithmetic::power2::pow2;
use vstd::prelude::*;

verus! {

/// Largest value of the finite cost class; finite sums clamp here.
pub const FIN_MAX: u64 = 0x0FFF_FFFF_FFFF_FFFF;

/// Cost of one unknown (out-of-vocabulary) token.
pub const SENTINEL: u64 = 0x1000_0000_0000_0000;

/// Cost of a chain holding two or more unknown tokens.
pub const COST_INF: u64 = 0xFFFF_FFFF_FFFF_FFFF;

/// The fixed-point one: 2^32.
pub const ONE_Q32: u64 = 0x1_0000_0000;

/// Twice the fixed-point one: 2^33.
pub const TWO_Q32: u64 = 0x2_0000_0000;

/// `ln 2` in Q32.32.
pub const LN2_Q32: u64 = 2977044472;

/// Upper bound on what `fixln_q32` can return (96.0 in Q32.32).
pub const MAX_LN_Q32: u64 = 0x60_0000_0000;

/// Total cost of two partial segmentations joined together. Finite costs
/// add (clamping at `FIN_MAX`); a sentinel-class value absorbs any finite
/// cost; two sentinel-class values give `COST_INF`.
pub open spec fn spec_cost_add(a: int, b: int) -> int {
    if a > FIN_MAX && b > FIN_MAX {
        COST_INF as int
    } else if a > FIN_MAX {
        a
    } else if b > FIN_MAX {
        b
    } else if a + b > FIN_MAX {
        FIN_MAX as int
    } else {
        a + b
    }
}

pub fn cost_add(a: u64, b: u64) -> (r: u64)
    ensures
        r as int == spec_cost_add(a as int, b as int),
{
    if a > FIN_MAX && b > FIN_MAX {
        COST_INF
    } else if a > FIN_MAX {
        a
    } else if b > FIN_MAX {
        b
    } else {
        let s = a + b;
        if s > FIN_MAX {
            FIN_MAX
        } else {
            s
        }
    }
}

/// Joining segmentations never lowers the cost of either side.
pub proof fn lemma_cost_add_ge(a: int, b: int)
    requires
        0 <= a <= COST_INF,
        0 <= b <= COST_INF,
    ensures
        spec_cost_add(a, b) >= a,
        spec_cost_add(a, b) >= b,
{
}

/// Mantissa after halving a value until it lies below 2^33.
pub open spec fn norm_m(x: int) -> int
    decreases x,
    when x >= 0
{
    if x >= TWO_Q32 {
        norm_m(x / 2)
    } else {
        x
    }
}

/// Number of halvings until the value lies below 2^33.
pub open spec fn norm_e(x: int) -> int
    decreases x,
    when x >= 0
{
    if x >= TWO_Q32 {
        1 + norm_e(x / 2)
    } else {
        0
    }
}

/// One step of the square-and-shift binary logarithm: square the mantissa
/// (kept in `[2^32, 2^33)`) and renormalize.
pub open spec fn sq_step_m(m: int) -> int {
    let t = (m * m) / (ONE_Q32 as int);
    if t >= TWO_Q32 {
        t / 2
    } else {
        t
    }
}

/// The bit of `log2` extracted by one square-and-shift step.
pub open spec fn sq_step_bit(m: int) -> int {
    let t = (m * m) / (ONE_Q32 as int);
    if t >= TWO_Q32 {
        1
    } else {
        0
    }
}

/// Mantissa after `j` square-and-shift steps.
pub open spec fn frac_m(m: int, j: nat) -> int
    decreases j,
{
    if j == 0 {
        m
    } else {
        sq_step_m(frac_m(m, (j - 1) as nat))
    }
}

/// Fraction bits of `log2` collected by the first `j` square-and-shift steps.
pub open spec fn frac_bits(m: int, j: nat) -> int
    decreases j,
{
    if j == 0 {
        0
    } else {
        2 * frac_bits(m, (j - 1) as nat) + sq_step_bit(frac_m(m, (j - 1) as nat))
    }
}

/// Natural logarithm of a Q32.32 value, in Q32.32, clamped below at zero:
/// `log2` is taken by normalizing to `[1, 2)` and extracting 32 fraction
/// bits, then scaled by `ln 2`.
pub open spec fn spec_fixln(x: int) -> int {
    if x <= ONE_Q32 {
        0
    } else {
        let l2 = norm_e(x) * (ONE_Q32 as int) + frac_bits(norm_m(x), 32);
        (l2 * (LN2_Q32 as int)) / (ONE_Q32 as int)
    }
}

/// Cost of the word at 0-based `rank` in a list of `n` words:
/// `ln((rank + 1) * ln(n))` in Q32.32, clamped below at zero.
pub open spec fn spec_zipf_cost(rank: int, n: int) -> int {
    spec_fixln((rank + 1) * spec_fixln(n * (ONE_Q32 as int)))
}

/// Natural logarithm of a Q32.32 value, clamped below at zero.
pub fn fixln_q32(x: u128) -> (r: u64)
    ensures
        r as int == spec_fixln(x as int),
        r <= MAX_LN_Q32,
{
    if x <= ONE_Q32 as u128 {
        return 0;
    }
    let mut m: u128 = x;
    let mut e: u64 = 0;
    proof {
        lemma2_to64();
    }
    while m >= TWO_Q32 as u128
        invariant
            m >= ONE_Q32,
            x > ONE_Q32,
            norm_m(x as int) == norm_m(m as int),
            norm_e(x as int) == norm_e(m as int) + e,
            x as int >= (m as int) * pow2(e as nat),
            e <= 95,
        decreases m,
    {
        proof {
            let mi = m as int;
            let p = pow2(e as nat) as int;
            lemma_pow2_pos(e as nat);
            lemma_pow2_adds(1, e as nat);
            lemma2_to64();
            assert(pow2((e + 1) as nat) == 2 * p);
            lemma_fundamental_div_mod(mi, 2);
            let q = mi / 2;
            assert(q * (2 * p) <= mi * p) by (nonlinear_arith)
                requires
                    q * 2 <= mi,
                    p > 0,
                    q >= 0,
            ;
            // e stays below 96: otherwise x would reach 2^128.
            if e >= 95 {
                lemma_pow2_adds(64, 31);
                assert(pow2(95) == 0x8000_0000_0000_0000_0000_0000);
                let p95 = pow2(95) as int;
                assert((m as int) * p95 >= 0x2_0000_0000 * 0x8000_0000_0000_0000_0000_0000)
                    by (nonlinear_arith)
                    requires
                        m >= 0x2_0000_0000,
                        p95 == 0x8000_0000_0000_0000_0000_0000,
                ;
                assert(false);
            }
        }
        m = m / 2;
        e = e + 1;
    }
    let mut mm: u64 = m as u64;
    let mut f: u64 = 0;
    let mut j: usize = 0;
    proof {
        lemma2_to64();
        assert(norm_m(m as int) == m as int);
        assert(norm_e(m as int) == 0);
    }
    let ghost nm: int = norm_m(x as int);
    while j < 32
        invariant
            j <= 32,
            ONE_Q32 <= mm < TWO_Q32,
            mm as int == frac_m(nm, j as nat),
            f as int == frac_bits(nm, j as nat),
            f as int <= pow2(j as nat) - 1,
        decreases 32 - j,
    {
        proof {
            assert((mm as int) * (mm as int) < 0x4_0000_0000_0000_0000) by (nonlinear_arith)
                requires
                    mm < 0x2_0000_0000,
            ;
            assert((mm as int) * (mm as int) >= 0x1_0000_0000_0000_0000) by (nonlinear_arith)
                requires
                    mm >= 0x1_0000_0000,
            ;
        }
        let prod: u128 = (mm as u128) * (mm as u128);
        proof {
            assert(prod as int == (mm as int) * (mm as int));
            assert(0x1_0000_0000_0000_0000 <= (prod as int) < 0x4_0000_0000_0000_0000);
            lemma_fundamental_div_mod(prod as int, ONE_Q32 as int);
            let pr = prod as int;
            let q = pr / (ONE_Q32 as int);
            let rm = pr % (ONE_Q32 as int);
            assert(pr == 0x1_0000_0000 * q + rm);
            assert(0 <= rm < 0x1_0000_0000);
            assert(0x1_0000_0000 <= q && q < 0x4_0000_0000) by (nonlinear_arith)
                requires
                    pr == 0x1_0000_0000 * q + rm,
                    0 <= rm < 0x1_0000_0000,
                    0x1_0000_0000_0000_0000 <= pr < 0x4_0000_0000_0000_0000,
            ;
            assert((prod as int) / (ONE_Q32 as int) == q);
        }
        let t: u64 = (prod / 0x1_0000_0000) as u64;
        proof {
            lemma_pow2_adds(1, j as nat);
            lemma2_to64();
            assert(frac_m(nm, (j + 1) as nat) == sq_step_m(frac_m(nm, j as nat)));
            assert(frac_bits(nm, (j + 1) as nat) == 2 * frac_bits(nm, j as nat) + sq_step_bit(
                frac_m(nm, j as nat),
            ));
        }
        if t >= TWO_Q32 {
            proof {
                lemma_fundamental_div_mod(t as int, 2);
                assert(0x1_0000_0000 <= (t as int) / 2 < 0x2_0000_0000);
            }
            mm = t / 2;
            f = f * 2 + 1;
        } else {
            mm = t;
            f = f * 2;
        }
        j = j + 1;
    }
    proof {
        lemma2_to64();
        assert(pow2(32) == 0x1_0000_0000);
    }
    let l2: u64 = e * ONE_Q32 + f;
    let prod2: u128 = (l2 as u128) * (LN2_Q32 as u128);
    proof {
        assert(prod2 <= 0x60_0000_0000 * (LN2_Q32 as int)) by (nonlinear_arith)
            requires
                l2 <= 0x60_0000_0000 && prod2 == (l2 as int) * (LN2_Q32 as int),
        ;
        assert((l2 as int) * (LN2_Q32 as int) <= (l2 as int) * (ONE_Q32 as int))
            by (nonlinear_arith)
            requires
                l2 >= 0,
        ;
        lemma_div_is_ordered(
            (l2 as int) * (LN2_Q32 as int),
            (l2 as int) * (ONE_Q32 as int),
            ONE_Q32 as int,
        );
        lemma_div_multiples_vanish(l2 as int, ONE_Q32 as int);
    }
    let r: u64 = (prod2 / 0x1_0000_0000) as u64;
    r
}

} // verus!
