//! Small integer helpers shared by the rank and select structures: ceiling
//! division, division with remainder, ceiling base-2 logarithm, and popcount.

use vstd::prelude::*;

verus! {

use vstd::arithmetic::power2::{
    pow2, lemma_pow2_unfold, lemma_pow2_strictly_increases, lemma2_to64, lemma2_to64_rest,
};
use vstd::arithmetic::div_mod::{lemma_fundamental_div_mod, lemma_fundamental_div_mod_converse};

/// Ceiling of `log2(n)` as a mathematical function: the smallest `k` with
/// `n <= pow2(k)`, taking the value 0 for `n <= 1`.
pub open spec fn clog2(n: nat) -> nat
    decreases n,
{
    if n <= 1 {
        0
    } else {
        1 + clog2((n + 1) / 2)
    }
}

/// Number of 1-bits in the binary representation of `x`.
pub open spec fn popcnt(x: nat) -> nat
    decreases x,
{
    if x == 0 {
        0
    } else {
        x % 2 + popcnt(x / 2)
    }
}

/// `clog2` deserves its name: `n` fits under `pow2(clog2(n))` and, for
/// `n >= 2`, no smaller exponent suffices.
pub proof fn lemma_clog2_bounds(n: nat)
    ensures
        n <= 1 ==> clog2(n) == 0,
        n >= 1 ==> n <= pow2(clog2(n)),
        n >= 2 ==> clog2(n) >= 1 && pow2((clog2(n) - 1) as nat) < n,
    decreases n,
{
    if n <= 1 {
        lemma2_to64();
    } else {
        let m = (n + 1) / 2;
        lemma_clog2_bounds(m);
        lemma_pow2_unfold((1 + clog2(m)) as nat);
        if m >= 2 {
            lemma_pow2_unfold(clog2(m));
        } else {
            lemma2_to64();
        }
    }
}

/// `clog2(n)` is the unique `k >= 1` squeezed by `pow2(k - 1) < n <= pow2(k)`.
pub proof fn lemma_clog2_is(n: nat, k: nat)
    requires
        n >= 2,
        k >= 1,
        pow2((k - 1) as nat) < n,
        n <= pow2(k),
    ensures
        clog2(n) == k,
{
    lemma_clog2_bounds(n);
    let c = clog2(n);
    if c < k {
        if c < k - 1 {
            lemma_pow2_strictly_increases(c, (k - 1) as nat);
        }
        assert(pow2(c) <= pow2((k - 1) as nat));
        assert(false);
    }
    if k < c {
        if k < c - 1 {
            lemma_pow2_strictly_increases(k, (c - 1) as nat);
        }
        assert(pow2(k) <= pow2((c - 1) as nat));
        assert(false);
    }
}

/// A number below `pow2(k)` has at most `k` set bits.
pub proof fn lemma_popcnt_bound(x: nat, k: nat)
    requires
        x < pow2(k),
    ensures
        popcnt(x) <= k,
    decreases k,
{
    if k == 0 {
        lemma2_to64();
        assert(x == 0);
    } else if x == 0 {
    } else {
        lemma_pow2_unfold(k);
        lemma_popcnt_bound(x / 2, (k - 1) as nat);
    }
}

/// Ceiling division `⌈a / b⌉`.
pub fn ceil_div(a: u64, b: u64) -> (r: u64)
    requires
        b >= 1,
    ensures
        r == (a + b - 1) as int / b as int,
        r * b >= a,
        a == 0 ==> r == 0,
        a >= 1 ==> r >= 1 && (r - 1) * b < a,
{
    if a == 0 {
        proof {
            vstd::arithmetic::div_mod::lemma_div_pos_is_pos((b - 1) as int, b as int);
            vstd::arithmetic::div_mod::lemma_basic_div((b - 1) as int, b as int);
        }
        return 0;
    }
    let q = (a - 1) / b;
    let r = q + 1;
    proof {
        lemma_fundamental_div_mod((a - 1) as int, b as int);
        let rem = (a - 1) as int % b as int;
        assert((a + b - 1) as int == (q + 1) * b + rem) by (nonlinear_arith)
            requires
                (a - 1) as int == b * (q as int) + rem,
        ;
        lemma_fundamental_div_mod_converse((a + b - 1) as int, b as int, (q + 1) as int, rem);
        assert((q + 1) * b >= a && q * b < a) by (nonlinear_arith)
            requires
                (a - 1) as int == b * (q as int) + rem,
                0 <= rem < b,
        ;
    }
    r
}

/// Euclidean quotient and remainder in one call.
pub fn div_with_remainder(a: u64, b: u64) -> (r: (u64, u64))
    requires
        b >= 1,
    ensures
        r.0 == a as int / b as int,
        r.1 == a as int % b as int,
        a == r.0 * b + r.1,
        r.1 < b,
{
    let div = a / b;
    let rem = a % b;
    proof {
        lemma_fundamental_div_mod(a as int, b as int);
    }
    (div, rem)
}

/// `pow2(k)` as a machine word.
pub(crate) fn two_pow(k: u64) -> (r: u64)
    requires
        k <= 63,
    ensures
        r == pow2(k as nat),
{
    let mut j: u64 = 0;
    let mut p: u64 = 1;
    proof {
        lemma2_to64();
    }
    while j < k
        invariant
            j <= k <= 63,
            p == pow2(j as nat),
        decreases k - j,
    {
        proof {
            lemma_pow2_unfold((j + 1) as nat);
            lemma_pow2_strictly_increases((j + 1) as nat, 64);
            lemma2_to64();
            lemma2_to64_rest();
        }
        p = p * 2;
        j = j + 1;
    }
    p
}

/// Ceiling base-2 logarithm: the smallest `k` with `n <= pow2(k)`, and 0 for
/// `n <= 1`.
pub fn log2_ceil(n: u64) -> (r: u64)
    ensures
        r == clog2(n as nat),
{
    if n <= 1 {
        return 0;
    }
    let mut k: u64 = 1;
    let mut p: u64 = 2;
    proof {
        lemma2_to64();
    }
    while p < n && k < 63
        invariant
            2 <= n,
            1 <= k <= 63,
            p == pow2(k as nat),
            pow2((k - 1) as nat) < n,
        decreases 64 - k,
    {
        proof {
            lemma_pow2_unfold((k + 1) as nat);
            lemma_pow2_strictly_increases((k + 1) as nat, 64);
            lemma2_to64();
            lemma2_to64_rest();
        }
        p = p * 2;
        k = k + 1;
    }
    if p >= n {
        proof {
            lemma_clog2_is(n as nat, k as nat);
        }
        k
    } else {
        proof {
            lemma2_to64();
            lemma_clog2_is(n as nat, 64);
        }
        64
    }
}

/// Number of 1-bits in the binary representation of `x`.
pub fn popcount(x: u64) -> (r: u32)
    ensures
        r == popcnt(x as nat),
{
    proof {
        lemma2_to64();
        lemma_popcnt_bound(x as nat, 64);
    }
    let mut v = x;
    let mut r: u32 = 0;
    while v > 0
        invariant
            r + popcnt(v as nat) == popcnt(x as nat),
            popcnt(x as nat) <= 64,
        decreases v,
    {
        r = r + (v % 2) as u32;
        v = v / 2;
    }
    r
}

} // verus!
