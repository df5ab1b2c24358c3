//! Fixed-point base-2 logarithm on integers.
//!
//! `log2_scaled(x)` approximates `log2(x)` in units of `1/4096` bit: the
//! integer part is exact, and twelve fractional bits are produced by the
//! classic squaring method on a 31-fractional-bit mantissa.  The value is
//! exact on powers of two, which is what the entropy laws rest on.

use vstd::prelude::*;

verus! {

use vstd::arithmetic::power2::pow2;
use vstd::arithmetic::power2::lemma_pow2_unfold;
use vstd::arithmetic::power2::lemma_pow2_adds;
use vstd::arithmetic::power2::lemma_pow2_pos;
use vstd::arithmetic::power2::lemma_pow2_strictly_increases;
use vstd::arithmetic::power2::lemma2_to64;
use vstd::arithmetic::power2::lemma2_to64_rest;
use vstd::arithmetic::div_mod::lemma_div_is_ordered;
use vstd::arithmetic::div_mod::lemma_div_denominator;
use vstd::arithmetic::div_mod::lemma_div_multiples_vanish;
use vstd::arithmetic::div_mod::lemma_multiply_divide_lt;
use vstd::arithmetic::div_mod::lemma_fundamental_div_mod;

/// The integer part of `log2(x)`; 0 for `x < 2`.
pub open spec fn floor_log2(x: nat) -> nat
    decreases x,
{
    if x < 2 {
        0
    } else {
        1 + floor_log2(x / 2)
    }
}

/// The mantissa of `x` with 31 fractional bits: `x / 2^floor_log2(x)`,
/// scaled by `2^31`, rounded down.  For `x >= 1` it lies in `[2^31, 2^32)`.
pub open spec fn mantissa31(x: nat) -> nat {
    x * pow2(31) / pow2(floor_log2(x))
}

/// One squaring step on a mantissa with 31 fractional bits.
pub open spec fn square31(m: nat) -> nat {
    m * m / pow2(31)
}

/// `k` fractional bits of `log2(m / 2^31)` for a mantissa `m` in
/// `[2^31, 2^32)`, by repeated squaring.
pub open spec fn frac_bits(m: nat, k: nat) -> nat
    decreases k,
{
    if k == 0 {
        0
    } else if square31(m) >= pow2(32) {
        pow2((k - 1) as nat) + frac_bits(square31(m) / 2, (k - 1) as nat)
    } else {
        frac_bits(square31(m), (k - 1) as nat)
    }
}

/// `log2(x)` in fixed point, in units of `1/4096` bit.
pub open spec fn log2_scaled(x: nat) -> nat {
    floor_log2(x) * 4096 + frac_bits(mantissa31(x), 12)
}

/// The fractional bits are fewer than `2^k`.
pub proof fn lemma_frac_bits_bound(m: nat, k: nat)
    ensures
        frac_bits(m, k) < pow2(k),
    decreases k,
{
    lemma_pow2_pos(k);
    if k == 0 {
        lemma2_to64();
        assert(frac_bits(m, 0) == 0);
        assert(pow2(0) == 1);
    } else {
        let m2 = square31(m);
        lemma_pow2_unfold(k);
        lemma_pow2_pos((k - 1) as nat);
        if m2 >= pow2(32) {
            lemma_frac_bits_bound(m2 / 2, (k - 1) as nat);
        } else {
            lemma_frac_bits_bound(m2, (k - 1) as nat);
        }
    }
}

/// `floor_log2` inverts `pow2` exactly.
pub proof fn lemma_floor_log2_pow2(k: nat)
    ensures
        floor_log2(pow2(k)) == k,
    decreases k,
{
    lemma2_to64();
    if k == 0 {
    } else {
        lemma_floor_log2_pow2((k - 1) as nat);
        lemma_pow2_unfold(k);
        lemma_pow2_pos((k - 1) as nat);
        assert(pow2(k) == 2 * pow2((k - 1) as nat));
        assert(pow2(k) / 2 == pow2((k - 1) as nat)) by {
            lemma_div_multiples_vanish(pow2((k - 1) as nat) as int, 2);
        }
        assert(pow2(k) >= 2);
    }
}

/// A power of two has the smallest possible mantissa, exactly `2^31`.
pub proof fn lemma_mantissa_pow2(k: nat)
    ensures
        mantissa31(pow2(k)) == pow2(31),
{
    lemma_floor_log2_pow2(k);
    lemma_pow2_adds(k, 31);
    lemma_pow2_pos(k);
    assert(pow2(k) * pow2(31) == pow2(k + 31));
    assert(pow2(k + 31) / pow2(k) == pow2(31)) by {
        lemma_pow2_adds(k, 31);
        lemma_div_multiples_vanish(pow2(31) as int, pow2(k) as int);
        assert(pow2(k) * pow2(31) == pow2(k) as int * pow2(31) as int);
    }
}

/// Squaring an exact mantissa of one yields no fractional bits.
pub proof fn lemma_frac_bits_exact_one(k: nat)
    ensures
        frac_bits(pow2(31), k) == 0,
    decreases k,
{
    if k == 0 {
    } else {
        assert(pow2(31) * pow2(31) == pow2(62)) by {
            lemma_pow2_adds(31, 31);
        }
        assert(pow2(62) / pow2(31) == pow2(31)) by {
            lemma_pow2_adds(31, 31);
            lemma_pow2_pos(31);
            lemma_div_multiples_vanish(pow2(31) as int, pow2(31) as int);
            assert(pow2(31) * pow2(31) == pow2(31) as int * pow2(31) as int);
        }
        assert(square31(pow2(31)) == pow2(31));
        assert(pow2(31) < pow2(32)) by {
            lemma_pow2_strictly_increases(31, 32);
        }
        lemma_frac_bits_exact_one((k - 1) as nat);
    }
}

/// Doubling a positive argument raises the integer part by one.
proof fn lemma_floor_log2_double(x: nat)
    requires
        x >= 1,
    ensures
        floor_log2(2 * x) == 1 + floor_log2(x),
{
    assert(2 * x >= 2);
    assert((2 * x) / 2 == x) by {
        lemma_div_multiples_vanish(x as int, 2);
    }
}

/// Scaling the argument by 256 shifts the fixed-point logarithm by exactly
/// eight bits: the mantissa is unchanged and the integer part grows by 8.
pub proof fn lemma_log2_scaled_mul256(c: nat)
    requires
        c >= 1,
    ensures
        log2_scaled(256 * c) == 8 * 4096 + log2_scaled(c),
{
    lemma2_to64();
    let c1 = 2 * c;
    let c2 = 2 * c1;
    let c3 = 2 * c2;
    let c4 = 2 * c3;
    let c5 = 2 * c4;
    let c6 = 2 * c5;
    let c7 = 2 * c6;
    let c8 = 2 * c7;
    lemma_floor_log2_double(c);
    lemma_floor_log2_double(c1);
    lemma_floor_log2_double(c2);
    lemma_floor_log2_double(c3);
    lemma_floor_log2_double(c4);
    lemma_floor_log2_double(c5);
    lemma_floor_log2_double(c6);
    lemma_floor_log2_double(c7);
    assert(c8 == 256 * c);
    let f = floor_log2(c);
    assert(floor_log2(256 * c) == 8 + f);
    // The mantissa is unchanged: (256 * c * 2^31) / (256 * 2^f) == (c * 2^31) / 2^f.
    let a = c * pow2(31);
    lemma_pow2_pos(f);
    assert(pow2(8 + f) == 256 * pow2(f)) by {
        lemma_pow2_adds(8, f);
    }
    assert((256 * c) * pow2(31) == 256 * a) by (nonlinear_arith)
        requires
            a == c * pow2(31),
    ;
    assert(((256 * a) as int / 256) / (pow2(f) as int) == (256 * a) as int / (256 * pow2(f)) as int)
        by {
        lemma_div_denominator((256 * a) as int, 256, pow2(f) as int);
    }
    assert((256 * a) as int / 256 == a) by {
        lemma_div_multiples_vanish(a as int, 256);
    }
    assert(mantissa31(256 * c) == mantissa31(c));
}

/// The fixed-point logarithm is exact on powers of two.
pub proof fn lemma_log2_scaled_pow2(k: nat)
    ensures
        log2_scaled(pow2(k)) == k * 4096,
{
    lemma_floor_log2_pow2(k);
    lemma_mantissa_pow2(k);
    lemma_frac_bits_exact_one(12);
}

/// Fixed-point `log2`, exact in its integer part and carrying twelve
/// fractional bits computed by mantissa squaring.
pub fn log2_scaled_exec(x: u64) -> (r: u64)
    requires
        x >= 1,
    ensures
        r == log2_scaled(x as nat),
        r <= 63 * 4096 + 4095,
{
    proof {
        lemma2_to64();
        lemma2_to64_rest();
    }
    let mut t: u64 = x;
    let mut ip: u64 = 0;
    let mut p: u64 = 1;
    while t >= 2
        invariant
            1 <= t,
            ip <= 63,
            p == pow2(ip as nat),
            t as nat == x as nat / pow2(ip as nat),
            floor_log2(x as nat) == ip + floor_log2(t as nat),
            p <= x,
        decreases t,
    {
        proof {
            lemma_pow2_pos(ip as nat);
            // t >= 2 means x / p >= 2, hence 2 * p <= x, so p * 2 fits.
            assert(x as int == pow2(ip as nat) * (x as nat / pow2(ip as nat)) + x as nat % pow2(
                ip as nat,
            )) by {
                lemma_fundamental_div_mod(x as int, pow2(ip as nat) as int);
            }
            assert(pow2(ip as nat) * (t as nat) >= pow2(ip as nat) * 2) by (nonlinear_arith)
                requires
                    t >= 2,
                    pow2(ip as nat) >= 1,
            ;
            assert(2 * p <= x);
            lemma_pow2_unfold(ip as nat + 1);
            assert(pow2(ip as nat + 1) <= x);
            // The next exponent stays below 64, since pow2(64) exceeds x.
            if ip + 1 > 63 {
                lemma2_to64();
                assert(pow2(64) > x as nat);
                assert(false);
            }
            // (x / p) / 2 == x / (2 * p)
            lemma_div_denominator(x as int, pow2(ip as nat) as int, 2);
        }
        t = t / 2;
        ip = ip + 1;
        p = p * 2;
    }
    // t == 1: the integer part of the logarithm is ip, and p <= x < 2p.
    proof {
        assert(t == 1);
        assert(floor_log2(x as nat) == ip);
        lemma_pow2_pos(ip as nat);
        assert(x as int == pow2(ip as nat) * 1 + x as nat % pow2(ip as nat)) by {
            lemma_fundamental_div_mod(x as int, pow2(ip as nat) as int);
        }
        assert(p <= x && x < 2 * p);
        // ip <= 63, since pow2(ip) <= x < pow2(64).
        if ip >= 64 {
            if ip > 64 {
                lemma_pow2_strictly_increases(64, ip as nat);
            }
            assert(false);
        }
    }
    let m_wide: u128 = (x as u128) * 0x8000_0000u128 / (p as u128);
    proof {
        assert(m_wide == mantissa31(x as nat));
        // Lower bound: (p * 2^31) / p == 2^31 and x >= p.
        assert((x as nat) * pow2(31) >= (p as nat) * pow2(31)) by (nonlinear_arith)
            requires
                x >= p,
                pow2(31) >= 1,
        ;
        assert((p as int * pow2(31)) / (p as int) == pow2(31)) by {
            lemma_div_multiples_vanish(pow2(31) as int, p as int);
        }
        lemma_div_is_ordered(p as int * pow2(31), x as int * pow2(31), p as int);
        assert(m_wide >= pow2(31));
        // Upper bound: x * 2^31 < p * 2^32, so the quotient is below 2^32.
        assert((x as nat) * pow2(31) < (p as nat) * pow2(32)) by (nonlinear_arith)
            requires
                x < 2 * p,
                pow2(32) == 2 * pow2(31),
                pow2(31) >= 1,
        ;
        lemma_multiply_divide_lt(x as int * pow2(31), p as int, pow2(32) as int);
        assert(m_wide < pow2(32));
    }
    let mut m: u64 = m_wide as u64;
    let mut r: u64 = 0;
    let mut k: u64 = 0;
    while k < 12
        invariant
            k <= 12,
            pow2(31) <= m < pow2(32),
            r < pow2(k as nat),
            r * pow2((12 - k) as nat) + frac_bits(m as nat, (12 - k) as nat) == frac_bits(
                mantissa31(x as nat),
                12,
            ),
        decreases 12 - k,
    {
        proof {
            lemma2_to64();
            lemma2_to64_rest();
            assert(pow2(31) * pow2(31) == pow2(62)) by {
                lemma_pow2_adds(31, 31);
            }
            assert(pow2(32) * pow2(32) == pow2(64)) by {
                lemma_pow2_adds(32, 32);
            }
            assert((m as nat) * (m as nat) < pow2(64)) by (nonlinear_arith)
                requires
                    m < pow2(32),
                    pow2(32) * pow2(32) == pow2(64),
            ;
            assert((m as nat) * (m as nat) >= pow2(62)) by (nonlinear_arith)
                requires
                    m >= pow2(31),
                    pow2(31) * pow2(31) == pow2(62),
            ;
        }
        let mm_wide: u128 = (m as u128) * (m as u128) / 0x8000_0000u128;
        proof {
            // 2^31 <= m*m / 2^31 < 2^33
            lemma_pow2_pos(31);
            assert(pow2(62) / pow2(31) == pow2(31)) by {
                lemma_pow2_adds(31, 31);
                lemma_div_multiples_vanish(pow2(31) as int, pow2(31) as int);
                assert(pow2(31) * pow2(31) == pow2(31) as int * pow2(31) as int);
            }
            lemma_div_is_ordered(pow2(62) as int, m as int * m as int, pow2(31) as int);
            assert(mm_wide >= pow2(31));
            assert((m as nat) * (m as nat) < pow2(31) * pow2(33)) by {
                lemma_pow2_adds(31, 33);
                assert(pow2(64) == pow2(31) * pow2(33));
            }
            lemma_multiply_divide_lt(m as int * m as int, pow2(31) as int, pow2(33) as int);
            assert(mm_wide < pow2(33));
        }
        let mm: u64 = mm_wide as u64;
        let ghost old_r = r;
        let ghost old_m = m;
        let ghost j = (12 - k) as nat;
        if mm >= 0x1_0000_0000u64 {
            r = r * 2 + 1;
            m = mm / 2;
        } else {
            r = r * 2;
            m = mm;
        }
        k = k + 1;
        proof {
            assert(j >= 1);
            assert(mm as nat == square31(old_m as nat));
            assert(frac_bits(old_m as nat, j) == if mm as nat >= pow2(32) {
                pow2((j - 1) as nat) + frac_bits(mm as nat / 2, (j - 1) as nat)
            } else {
                frac_bits(mm as nat, (j - 1) as nat)
            });
            lemma_pow2_unfold(j);
            lemma_pow2_unfold(k as nat);
            assert((2 * old_r) * pow2((j - 1) as nat) == old_r * pow2(j)) by (nonlinear_arith)
                requires
                    pow2(j) == 2 * pow2((j - 1) as nat),
            ;
            assert((2 * old_r + 1) * pow2((j - 1) as nat) == old_r * pow2(j) + pow2(
                (j - 1) as nat,
            )) by (nonlinear_arith)
                requires
                    pow2(j) == 2 * pow2((j - 1) as nat),
            ;
            assert((12 - k) as nat == (j - 1) as nat);
        }
    }
    proof {
        assert(frac_bits(m as nat, 0) == 0);
        assert(r * pow2(0) == r) by {
            lemma2_to64();
        }
        assert(r == frac_bits(mantissa31(x as nat), 12));
        lemma_frac_bits_bound(mantissa31(x as nat), 12);
        lemma2_to64();
        assert(r < 4096);
    }
    ip * 4096 + r
}

} // verus!

