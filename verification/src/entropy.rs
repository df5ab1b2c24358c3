//! Shannon-entropy estimation over byte windows, in exact fixed-point
//! arithmetic.
//!
//! The entropy of a window is `log2(n) - (1/n) * sum_b count(b) * log2(count(b))`
//! bits per byte, which this module computes in units of `1/4096` bit with
//! the fixed-point logarithm of [`crate::log2`].  The estimate is clamped to
//! the byte-alphabet maximum of 8 bits per byte, and is exact whenever every
//! count is a power of two — in particular it is exactly `0` on a constant
//! window and exactly `8 * 4096` on a window holding each byte value once.

use vstd::prelude::*;

verus! {

use vstd::multiset::Multiset;
use vstd::arithmetic::div_mod::lemma_div_is_ordered;
use vstd::arithmetic::div_mod::lemma_div_multiples_vanish;
use crate::log2::log2_scaled;
use crate::log2::log2_scaled_exec;
use crate::log2::lemma_log2_scaled_mul256;

broadcast use vstd::seq_lib::group_to_multiset_ensures, vstd::multiset::group_multiset_axioms;

/// How many times byte value `b` occurs in `s`.
pub open spec fn count_in(s: Seq<u8>, b: u8) -> nat {
    s.to_multiset().count(b)
}

/// The contribution of one byte value to the entropy sum.
pub open spec fn entropy_term(c: nat) -> nat {
    if c == 0 {
        0
    } else {
        c * log2_scaled(c)
    }
}

/// `sum_{b < k} entropy_term(count_in(s, b))`.
pub open spec fn entropy_sum_upto(s: Seq<u8>, k: int) -> nat
    decreases k,
{
    if k <= 0 {
        0
    } else {
        entropy_sum_upto(s, k - 1) + entropy_term(count_in(s, (k - 1) as u8))
    }
}

/// Shannon entropy of `s` in units of `1/4096` bit per byte, clamped to
/// the byte-alphabet maximum of `8 * 4096`; `0` for an empty sequence.
pub open spec fn entropy_scaled_of(s: Seq<u8>) -> nat {
    if s.len() == 0 {
        0
    } else {
        let total = s.len() * log2_scaled(s.len());
        let sum = entropy_sum_upto(s, 256);
        if sum >= total {
            0
        } else {
            let raw = (total - sum) as nat / s.len();
            if raw > 8 * 4096 {
                (8 * 4096) as nat
            } else {
                raw
            }
        }
    }
}

/// How many of the 256 byte values occur in `s` at all, looking at values
/// below `k`.
pub open spec fn distinct_upto(s: Seq<u8>, k: int) -> nat
    decreases k,
{
    if k <= 0 {
        0
    } else {
        distinct_upto(s, k - 1) + if count_in(s, (k - 1) as u8) > 0 {
            1nat
        } else {
            0nat
        }
    }
}

/// How many distinct byte values occur in `s`.
pub open spec fn distinct_count(s: Seq<u8>) -> nat {
    distinct_upto(s, 256)
}

/// Frequency histogram: entry `b` counts the occurrences of byte value `b`.
pub(crate) fn build_histogram(data: &[u8]) -> (freq: Vec<u64>)
    ensures
        freq@.len() == 256,
        forall|b: u8| #[trigger] freq@[b as int] == count_in(data@, b),
{
    let mut freq: Vec<u64> = vec![0u64; 256];
    let mut i: usize = 0;
    proof {
        assert(data@.take(0) =~= Seq::<u8>::empty());
        assert(Seq::<u8>::empty().to_multiset() =~= Multiset::<u8>::empty());
    }
    while i < data.len()
        invariant
            freq@.len() == 256,
            i <= data@.len(),
            forall|b: u8| #[trigger] freq@[b as int] == count_in(data@.take(i as int), b),
            forall|b: u8| #[trigger] freq@[b as int] <= i,
        decreases data@.len() - i,
    {
        let byte: u8 = data[i];
        let idx: usize = byte as usize;
        let c: u64 = freq[idx];
        freq[idx] = c + 1;
        proof {
            assert(data@.take(i as int + 1) =~= data@.take(i as int).push(data@[i as int]));
            assert(data@.take(i as int).push(byte).to_multiset() =~= data@.take(
                i as int,
            ).to_multiset().insert(byte));
        }
        i = i + 1;
    }
    proof {
        assert(data@.take(data@.len() as int) =~= data@);
    }
    freq
}

/// Shannon entropy of `data` in units of `1/4096` bit per byte, between
/// `0` and `8 * 4096` inclusive.
pub fn entropy_scaled_bytes(data: &[u8]) -> (r: u64)
    ensures
        r == entropy_scaled_of(data@),
        r <= 8 * 4096,
{
    let n: usize = data.len();
    if n == 0 {
        return 0;
    }
    let freq = build_histogram(data);
    let log_n: u64 = log2_scaled_exec(n as u64);
    proof {
        assert((n as u128) * (log_n as u128) <= 0xFFFF_FFFF_FFFF_FFFFu128 * 0x3_FFFFu128)
            by (nonlinear_arith)
            requires
                n as u128 <= 0xFFFF_FFFF_FFFF_FFFFu128,
                log_n as u128 <= 0x3_FFFFu128,
        ;
    }
    let total: u128 = (n as u128) * (log_n as u128);
    let mut sum: u128 = 0;
    let mut b: usize = 0;
    while b < 256
        invariant
            freq@.len() == 256,
            forall|v: u8| #[trigger] freq@[v as int] == count_in(data@, v),
            b <= 256,
            sum == entropy_sum_upto(data@, b as int),
            sum <= (b as u128) * 0x4_0000_0000_0000_0000_0000u128,
        decreases 256 - b,
    {
        let c: u64 = freq[b];
        proof {
            assert(c == count_in(data@, b as u8));
            vstd::multiset::axiom_count_le_len(data@.to_multiset(), b as u8);
            assert(c <= data@.len());
        }
        if c > 0 {
            let lc: u64 = log2_scaled_exec(c);
            proof {
                assert((c as u128) * (lc as u128) <= 0xFFFF_FFFF_FFFF_FFFFu128 * 0x3_FFFFu128)
                    by (nonlinear_arith)
                    requires
                        c <= 0xFFFF_FFFF_FFFF_FFFFu64,
                        lc <= 0x3_FFFFu64,
                ;
            }
            sum = sum + (c as u128) * (lc as u128);
            proof {
                assert(entropy_term(c as nat) == (c as nat) * log2_scaled(c as nat));
            }
        }
        proof {
            assert(entropy_sum_upto(data@, b as int + 1) == entropy_sum_upto(data@, b as int)
                + entropy_term(count_in(data@, b as u8)));
        }
        b = b + 1;
    }
    if sum >= total {
        return 0;
    }
    let raw_wide: u128 = (total - sum) / (n as u128);
    proof {
        assert((n as int * log_n as int) / (n as int) == log_n as int) by {
            lemma_div_multiples_vanish(log_n as int, n as int);
        }
        lemma_div_is_ordered((total - sum) as int, total as int, n as int);
        assert(raw_wide <= log_n);
    }
    let raw: u64 = raw_wide as u64;
    if raw > 8 * 4096 {
        8 * 4096
    } else {
        raw
    }
}

/// How many distinct byte values occur in `data`; at most 256.
pub fn byte_diversity(data: &[u8]) -> (r: usize)
    ensures
        r == distinct_count(data@),
        r <= 256,
{
    let freq = build_histogram(data);
    let mut r: usize = 0;
    let mut b: usize = 0;
    while b < 256
        invariant
            freq@.len() == 256,
            forall|v: u8| #[trigger] freq@[v as int] == count_in(data@, v),
            b <= 256,
            r == distinct_upto(data@, b as int),
            r <= b,
        decreases 256 - b,
    {
        if freq[b] > 0 {
            r = r + 1;
        }
        proof {
            assert(freq@[b as int] == count_in(data@, b as u8));
        }
        b = b + 1;
    }
    r
}

/// The entropy estimate never exceeds the byte-alphabet maximum of 8 bits
/// per byte, whatever the window.
pub proof fn lemma_entropy_bounded(s: Seq<u8>)
    ensures
        entropy_scaled_of(s) <= 8 * 4096,
{
}

/// In a constant sequence, the constant accounts for every position and
/// every other byte value is absent.
proof fn lemma_count_constant(s: Seq<u8>, b: u8)
    requires
        forall|i: int| 0 <= i < s.len() ==> s[i] == b,
    ensures
        count_in(s, b) == s.len(),
        forall|c: u8| c != b ==> count_in(s, c) == 0,
    decreases s.len(),
{
    if s.len() == 0 {
        assert(s.to_multiset() =~= Multiset::<u8>::empty());
    } else {
        let pre = s.drop_last();
        lemma_count_constant(pre, b);
        assert(s =~= pre.push(b));
        assert(pre.push(b).to_multiset() =~= pre.to_multiset().insert(b));
    }
}

/// If only the byte value `b` occurs at all, the entropy sum collapses to
/// its single term.
proof fn lemma_entropy_sum_single(s: Seq<u8>, b: u8, k: int)
    requires
        forall|c: u8| c != b ==> count_in(s, c) == 0,
        k <= 256,
    ensures
        entropy_sum_upto(s, k) == if b < k {
            entropy_term(count_in(s, b))
        } else {
            0
        },
    decreases k,
{
    if k <= 0 {
    } else {
        lemma_entropy_sum_single(s, b, k - 1);
        if (k - 1) as u8 != b {
            assert(count_in(s, (k - 1) as u8) == 0);
        }
    }
}

/// The entropy of a constant sequence is exactly zero.
pub proof fn lemma_entropy_constant(s: Seq<u8>, b: u8)
    requires
        forall|i: int| 0 <= i < s.len() ==> s[i] == b,
    ensures
        entropy_scaled_of(s) == 0,
{
    if s.len() == 0 {
    } else {
        lemma_count_constant(s, b);
        lemma_entropy_sum_single(s, b, 256);
        assert(entropy_sum_upto(s, 256) == entropy_term(s.len()));
        assert(entropy_term(s.len()) == s.len() * log2_scaled(s.len()));
    }
}

/// When every byte value occurs equally often, every term of the entropy
/// sum is the same.
proof fn lemma_entropy_sum_uniform(s: Seq<u8>, c: nat, k: int)
    requires
        forall|b: u8| count_in(s, b) == c,
        0 <= k <= 256,
    ensures
        entropy_sum_upto(s, k) == k * entropy_term(c),
    decreases k,
{
    if k <= 0 {
    } else {
        lemma_entropy_sum_uniform(s, c, k - 1);
        assert(count_in(s, (k - 1) as u8) == c);
        assert(k * entropy_term(c) == (k - 1) * entropy_term(c) + entropy_term(c))
            by (nonlinear_arith);
    }
}

/// A sequence in which all 256 byte values are equally represented has the
/// maximal entropy, exactly 8 bits per byte.
pub proof fn lemma_entropy_uniform(s: Seq<u8>, c: nat)
    requires
        c >= 1,
        s.len() == 256 * c,
        forall|b: u8| count_in(s, b) == c,
    ensures
        entropy_scaled_of(s) == 8 * 4096,
{
    lemma_entropy_sum_uniform(s, c, 256);
    lemma_log2_scaled_mul256(c);
    let lc = log2_scaled(c);
    let total = s.len() * log2_scaled(s.len());
    let sum = entropy_sum_upto(s, 256);
    assert(entropy_term(c) == c * lc);
    assert(sum == 256 * (c * lc));
    assert(total == (256 * c) * (8 * 4096 + lc));
    assert(total == (256 * c) * (8 * 4096) + 256 * (c * lc)) by (nonlinear_arith)
        requires
            total == (256 * c) * (8 * 4096 + lc),
    ;
    assert(total - sum == (256 * c) * (8 * 4096));
    assert(sum < total) by {
        assert((256 * c) * (8 * 4096) >= 8 * 4096) by (nonlinear_arith)
            requires
                c >= 1,
        ;
    }
    assert(((256 * c) as int * (8 * 4096)) / (256 * c) as int == 8 * 4096) by {
        lemma_div_multiples_vanish(8 * 4096int, (256 * c) as int);
    }
    assert((total - sum) as nat / s.len() == 8 * 4096);
}

} // verus!
