//! Shared integer machinery behind the square roots of the concrete
//! formats: an exact power of two, an integer square root by bisection, and
//! the normalization loop that scales a positive significand into the
//! bracket where its integer square root has exactly the format's
//! significand width.

use vstd::arithmetic::mul::*;
use vstd::arithmetic::power2::*;
use vstd::prelude::*;

verus! {

/// Two to the power `k`, as an unsigned 128-bit value.
pub(crate) fn pow2_u128(k: u32) -> (r: u128)
    requires
        k < 128,
    ensures
        r == pow2(k as nat),
{
    let mut i: u32 = 0;
    let mut r: u128 = 1;
    proof {
        lemma2_to64();
    }
    while i < k
        invariant
            i <= k,
            k < 128,
            r == pow2(i as nat),
        decreases k - i,
    {
        proof {
            lemma_pow2_strictly_increases(i as nat, 127);
            lemma_pow2_adds(63, 64);
            lemma_pow2_adds(63, 63);
            lemma2_to64();
            lemma2_to64_rest();
            lemma_pow2_unfold((i + 1) as nat);
        }
        r = r * 2;
        i = i + 1;
    }
    r
}

/// The integer square root of `a`, found by bisection between the given
/// bracket ends.
pub(crate) fn isqrt_u128(a: u128, lo0: u128, hi0: u128) -> (s: u128)
    requires
        lo0 * lo0 <= a,
        a < hi0 * hi0,
        lo0 < hi0,
        hi0 <= 0x1000_0000_0000_0000,
    ensures
        s * s <= a,
        a < (s + 1) * (s + 1),
        lo0 <= s < hi0,
{
    let mut lo = lo0;
    let mut hi = hi0;
    while lo + 1 < hi
        invariant
            lo * lo <= a,
            a < hi * hi,
            lo0 <= lo < hi <= hi0,
            hi0 <= 0x1000_0000_0000_0000,
        decreases hi - lo,
    {
        let mid: u128 = lo + (hi - lo) / 2;
        proof {
            assert(mid < hi0);
            assert(mid * mid < 0x1000_0000_0000_0000 * 0x1000_0000_0000_0000) by (nonlinear_arith)
                requires
                    mid < 0x1000_0000_0000_0000,
            ;
        }
        if mid * mid <= a {
            lo = mid;
        } else {
            hi = mid;
        }
    }
    lo
}

/// Scales a positive value `a0 * 2^(u0 - c)` (for a fixed, caller-chosen
/// offset `c`) by powers of four until its integer square root has exactly
/// `p` bits, and returns that square root together with the remaining
/// exponent. The ghost argument `mag` names the value being rooted, scaled
/// so that `a0 * pow2(u0) == mag * pow2(2p - 1)`; the result brackets
/// `mag * pow2(2p - 1)` between the squares of two neighboring integers of
/// `p` bits, shifted by the returned exponent.
pub(crate) fn sqrt_norm(a0: u128, u0: u32, p: u32, Ghost(mag): Ghost<nat>) -> (res: (u128, u32))
    requires
        8 <= p <= 60,
        1 <= a0,
        a0 < pow2((p + 2) as nat),
        mag >= 1,
        a0 * pow2(u0 as nat) == mag * pow2((2 * p - 1) as nat),
    ensures
        pow2((p - 1) as nat) <= res.0 < pow2(p as nat),
        res.1 % 2 == u0 % 2,
        res.1 <= u0,
        res.0 * res.0 * pow2(res.1 as nat) <= mag * pow2((2 * p - 1) as nat),
        mag * pow2((2 * p - 1) as nat) < (res.0 + 1) * (res.0 + 1) * pow2(res.1 as nat),
{
    let th = pow2_u128(2 * p - 2);
    let mut a = a0;
    let mut u = u0;
    proof {
        lemma_pow2_strictly_increases((p + 2) as nat, (2 * p) as nat);
    }
    while a < th
        invariant
            th == pow2((2 * p - 2) as nat),
            8 <= p <= 60,
            mag >= 1,
            1 <= a,
            a < pow2((2 * p) as nat),
            u % 2 == u0 % 2,
            u <= u0,
            a * pow2(u as nat) == mag * pow2((2 * p - 1) as nat),
        decreases u,
    {
        proof {
            // The loop cannot run below exponent zero: with u <= 1 the
            // scaled value would already be at least the threshold.
            lemma_pow2_pos((2 * p - 2) as nat);
            lemma_pow2_pos(u as nat);
            if u < 2 {
                assert(pow2(u as nat) <= 2) by {
                    lemma2_to64();
                };
                assert(a * pow2(u as nat) <= a * 2) by (nonlinear_arith)
                    requires
                        pow2(u as nat) <= 2,
                        a >= 1,
                ;
                assert(mag * pow2((2 * p - 1) as nat) >= pow2((2 * p - 1) as nat))
                    by (nonlinear_arith)
                    requires
                        mag >= 1,
                        pow2((2 * p - 1) as nat) >= 0,
                ;
                assert(pow2((2 * p - 1) as nat) == 2 * pow2((2 * p - 2) as nat)) by {
                    lemma_pow2_unfold((2 * p - 1) as nat);
                };
                assert(false);
            }
            assert(pow2((u - 2) as nat) * 4 == pow2(u as nat)) by {
                lemma_pow2_adds((u - 2) as nat, 2);
                lemma2_to64();
            };
            assert((a * 4) * pow2((u - 2) as nat) == a * pow2(u as nat)) by (nonlinear_arith)
                requires
                    pow2((u - 2) as nat) * 4 == pow2(u as nat),
            ;
            assert(a * 4 < pow2((2 * p) as nat)) by {
                lemma_pow2_adds((2 * p - 2) as nat, 2);
                lemma2_to64();
            };
            assert(pow2((2 * p) as nat) <= pow2(120)) by {
                if 2 * p < 120 {
                    lemma_pow2_strictly_increases((2 * p) as nat, 120);
                }
            };
            assert(pow2(120) == 0x100_0000_0000_0000 * 0x1_0000_0000_0000_0000) by {
                lemma_pow2_adds(56, 64);
                lemma2_to64_rest();
            };
        }
        a = a * 4;
        u = u - 2;
    }
    proof {
        lemma_pow2_adds((p - 1) as nat, (p - 1) as nat);
        lemma_pow2_adds(p as nat, p as nat);
        if p < 60 {
            lemma_pow2_strictly_increases(p as nat, 60);
        }
        lemma2_to64();
        lemma2_to64_rest();
    }
    let lo = pow2_u128(p - 1);
    let hi = pow2_u128(p);
    proof {
        assert(lo * lo <= a);
        assert(a < hi * hi);
    }
    let s = isqrt_u128(a, lo, hi);
    proof {
        lemma_pow2_pos(u as nat);
        lemma_mul_inequality((s * s) as int, a as int, pow2(u as nat) as int);
        lemma_mul_strict_inequality(a as int, ((s + 1) * (s + 1)) as int, pow2(u as nat) as int);
    }
    (s, u)
}

} // verus!
