//! Small arithmetic helpers used by the capacity planner: ceiling division
//! and base-two logarithms on `usize`.
use vstd::prelude::*;

verus! {

use vstd::arithmetic::div_mod::{lemma_fundamental_div_mod, lemma_fundamental_div_mod_converse};
use vstd::arithmetic::power2::pow2;

/// The multiplicative slack built into capacity sizing to leave room for gaps.
pub const MAX_SPARSENESS: usize = 4;

/// Width of the single segment that a freshly created array starts with.
pub const LARGEST_EMPTY_SEGMENT: usize = 4;

/// Ceiling of `a / b`.
pub fn ceil_div(a: usize, b: usize) -> (r: usize)
    requires
        1 <= a,
        1 <= b,
    ensures
        1 <= r,
        a <= r * b,
        (r - 1) * b < a,
        r == (a + b - 1) / (b as int),
{
    let q = (a - 1) / b;
    proof {
        lemma_fundamental_div_mod((a - 1) as int, b as int);
        let m = (a - 1) as int % (b as int);
        assert(a + b - 1 == (b as int) * (q + 1) + m) by (nonlinear_arith)
            requires
                (a - 1) as int == (b as int) * (q as int) + m;
        lemma_fundamental_div_mod_converse((a + b - 1) as int, b as int, q + 1, m);
        assert(a <= (1 + q) * b && q * b < a) by (nonlinear_arith)
            requires
                (a - 1) as int == (b as int) * (q as int) + m,
                0 <= m < b;
    }
    1 + q
}

/// The number of binary digits of `a`: the smallest `r` with `a < 2^r`.
fn last_bit_set(a: usize) -> (r: usize)
    requires
        a <= 0x4000_0000,
    ensures
        a < pow2(r as nat),
        r > 0 ==> pow2((r - 1) as nat) <= a,
        r <= 31,
{
    let mut x = a;
    let mut r: usize = 0;
    proof {
        vstd::arithmetic::power2::lemma2_to64();
    }
    while x > 0
        invariant
            x == a as nat / pow2(r as nat),
            r > 0 ==> pow2((r - 1) as nat) <= a,
            r <= 31,
            a <= 0x4000_0000,
        decreases x,
    {
        proof {
            vstd::arithmetic::power2::lemma_pow2_pos(r as nat);
            vstd::arithmetic::power2::lemma_pow2_unfold((r + 1) as nat);
            vstd::arithmetic::div_mod::lemma_div_denominator(
                a as int,
                pow2(r as nat) as int,
                2,
            );
            assert(x / 2 == a as nat / pow2((r + 1) as nat));
            vstd::arithmetic::div_mod::lemma_fundamental_div_mod(
                a as int,
                pow2(r as nat) as int,
            );
            // x >= 1 means pow2(r) <= a.
            assert(pow2(r as nat) <= a) by (nonlinear_arith)
                requires
                    a as int == pow2(r as nat) * x + (a as int % (pow2(r as nat) as int)),
                    (a as int % (pow2(r as nat) as int)) >= 0,
                    x >= 1,
                    pow2(r as nat) >= 1;
            if r == 31 {
                vstd::arithmetic::power2::lemma2_to64();
                assert(pow2(31) > 0x4000_0000);
                assert(false);
            }
        }
        x = x / 2;
        r = r + 1;
    }
    proof {
        vstd::arithmetic::power2::lemma_pow2_pos(r as nat);
        vstd::arithmetic::div_mod::lemma_fundamental_div_mod(a as int, pow2(r as nat) as int);
        assert(a < pow2(r as nat)) by (nonlinear_arith)
            requires
                a as int == pow2(r as nat) * (a as nat / pow2(r as nat)) + (a as int % (pow2(
                    r as nat,
                ) as int)),
                a as nat / pow2(r as nat) == 0,
                (a as int % (pow2(r as nat) as int)) < pow2(r as nat),
                pow2(r as nat) >= 1;
    }
    r
}

/// The smallest `r` with `2^r >= a` (so `2^r` is the tightest power-of-two cover).
pub fn ceil_log2(a: usize) -> (r: usize)
    requires
        1 <= a,
        a <= 0x4000_0000,
    ensures
        a <= pow2(r as nat),
        r > 0 ==> pow2((r - 1) as nat) < a,
        r <= 31,
{
    last_bit_set(a - 1)
}

/// The largest `r` with `2^r <= a`.
pub fn floor_log2(a: usize) -> (r: usize)
    requires
        1 <= a,
        a <= 0x4000_0000,
    ensures
        pow2(r as nat) <= a,
        a < pow2((r + 1) as nat),
        r < 31,
{
    let b = last_bit_set(a);
    proof {
        if b == 0 {
            assert(pow2(0) == 1) by {
                vstd::arithmetic::power2::lemma2_to64();
            }
            assert(false);
        }
    }
    b - 1
}

/// The smallest power of two that is at least `a`.
pub fn ceil_hyper(a: usize) -> (r: usize)
    requires
        1 <= a,
        a <= 0x4000_0000,
    ensures
        a <= r,
        r < 2 * a,
        exists|k: nat| k <= 31 && r == pow2(k),
{
    let e = ceil_log2(a);
    proof {
        vstd::arithmetic::power2::lemma2_to64();
        vstd::bits::lemma_usize_shl_is_mul(1, e as usize);
        if e > 0 {
            vstd::arithmetic::power2::lemma_pow2_unfold(e as nat);
        }
        assert(pow2(e as nat) <= 0x8000_0000);
    }
    1usize << e
}

} // verus!
