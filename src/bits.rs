//! Bit counting on unsigned integers, stated over `nat` and computed by
//! verified loops.
use vstd::prelude::*;
use vstd::arithmetic::div_mod::lemma_mod_breakdown;
use vstd::arithmetic::power2::{
    pow2,
    lemma_pow2_unfold,
    lemma_pow2_pos,
    lemma_pow2_strictly_increases,
    lemma2_to64,
};
use vstd::bits::lemma_usize_shl_is_mul;

verus! {

/// Number of set bits of `n`.
pub open spec fn popcount(n: nat) -> nat
    decreases n,
{
    if n == 0 {
        0
    } else {
        n % 2 + popcount(n / 2)
    }
}

/// Number of consecutive set bits at the low end of `n`.
pub open spec fn trailing_ones(n: nat) -> nat
    decreases n,
{
    if n % 2 == 1 {
        1 + trailing_ones(n / 2)
    } else {
        0
    }
}

/// Number of consecutive clear bits at the low end of a positive `n`.
pub open spec fn trailing_zeros(n: nat) -> nat
    decreases n,
{
    if n == 0 || n % 2 == 1 {
        0
    } else {
        1 + trailing_zeros(n / 2)
    }
}

/// Index of the highest set bit of a positive `n`.
pub open spec fn ilog2(n: nat) -> nat
    decreases n,
{
    if n < 2 {
        0
    } else {
        1 + ilog2(n / 2)
    }
}

/// `n` is a multiple of `2^k`.
pub open spec fn aligned(n: nat, k: nat) -> bool {
    n % pow2(k) == 0
}

pub proof fn lemma_popcount_le(n: nat)
    ensures
        popcount(n) <= n,
    decreases n,
{
    if n > 0 {
        lemma_popcount_le(n / 2);
    }
}

/// A positive number is a multiple of `2^k` exactly when it has at least `k`
/// trailing zeros.
pub proof fn lemma_aligned_iff_trailing_zeros(n: nat, k: nat)
    requires
        n > 0,
    ensures
        aligned(n, k) <==> trailing_zeros(n) >= k,
    decreases k,
{
    if k > 0 {
        let p = pow2((k - 1) as nat);
        lemma_pow2_unfold(k);
        lemma_pow2_pos((k - 1) as nat);
        lemma_mod_breakdown(n as int, 2, p as int);
        assert(n % pow2(k) == 2 * ((n / 2) % p) + n % 2);
        if n % 2 == 0 {
            lemma_aligned_iff_trailing_zeros(n / 2, (k - 1) as nat);
            assert(trailing_zeros(n) == 1 + trailing_zeros(n / 2));
        } else {
            assert(trailing_zeros(n) == 0);
        }
    } else {
        lemma2_to64();
    }
}

/// The trailing ones of `n` are the trailing zeros of `n + 1`.
pub proof fn lemma_trailing_ones_of_predecessor(n: nat)
    ensures
        trailing_ones(n) == trailing_zeros(n + 1),
    decreases n,
{
    if n % 2 == 1 {
        lemma_trailing_ones_of_predecessor(n / 2);
        assert((n + 1) / 2 == n / 2 + 1);
    }
}

/// `n` has at least `k` trailing ones exactly when `n + 1` is a multiple of `2^k`.
pub proof fn lemma_aligned_iff_trailing_ones(n: nat, k: nat)
    ensures
        aligned(n + 1, k) <==> trailing_ones(n) >= k,
{
    lemma_trailing_ones_of_predecessor(n);
    lemma_aligned_iff_trailing_zeros(n + 1, k);
}

/// A positive multiple of `2^k` is at least `2^k`.
pub proof fn lemma_aligned_ge(n: nat, k: nat)
    requires
        n > 0,
        aligned(n, k),
    ensures
        pow2(k) <= n,
{
    lemma_pow2_pos(k);
    if n < pow2(k) {
        vstd::arithmetic::div_mod::lemma_small_mod(n, pow2(k));
    }
}

/// `2^ilog2(n) <= n < 2^(ilog2(n) + 1)`.
pub proof fn lemma_ilog2_bounds(n: nat)
    requires
        n >= 1,
    ensures
        pow2(ilog2(n)) <= n < pow2(ilog2(n) + 1),
    decreases n,
{
    lemma_pow2_unfold(ilog2(n) + 1);
    if n >= 2 {
        lemma_ilog2_bounds(n / 2);
        lemma_pow2_unfold(ilog2(n));
    } else {
        lemma2_to64();
    }
}

/// Multiples of `2^k` are multiples of every smaller power of two.
pub proof fn lemma_aligned_weaken(n: nat, k: nat, j: nat)
    requires
        aligned(n, k),
        j <= k,
    ensures
        aligned(n, j),
{
    if n > 0 {
        lemma_aligned_iff_trailing_zeros(n, k);
        lemma_aligned_iff_trailing_zeros(n, j);
    } else {
        lemma_pow2_pos(j);
    }
}

/// Sums and differences of multiples of `2^k` are multiples of `2^k`.
pub proof fn lemma_aligned_add(a: nat, b: nat, k: nat)
    requires
        aligned(a, k),
        aligned(b, k),
    ensures
        aligned(a + b, k),
        a >= b ==> aligned((a - b) as nat, k),
{
    let m = pow2(k) as int;
    lemma_pow2_pos(k);
    vstd::arithmetic::div_mod::lemma_fundamental_div_mod(a as int, m);
    vstd::arithmetic::div_mod::lemma_fundamental_div_mod(b as int, m);
    let qa = a as int / m;
    let qb = b as int / m;
    assert(a + b == m * (qa + qb)) by (nonlinear_arith)
        requires
            a == m * qa + 0,
            b == m * qb + 0,
    ;
    assert(a - b == m * (qa - qb)) by (nonlinear_arith)
        requires
            a == m * qa + 0,
            b == m * qb + 0,
    ;
    vstd::arithmetic::div_mod::lemma_mod_multiples_basic(qa + qb, m);
    vstd::arithmetic::div_mod::lemma_mod_multiples_basic(qa - qb, m);
    vstd::arithmetic::mul::lemma_mul_is_commutative(m, qa + qb);
    vstd::arithmetic::mul::lemma_mul_is_commutative(m, qa - qb);
}

/// `2^k` is a multiple of `2^j` for `j <= k`.
pub proof fn lemma_pow2_aligned(k: nat, j: nat)
    requires
        j <= k,
    ensures
        aligned(pow2(k), j),
{
    lemma_pow2_pos(k);
    lemma_pow2_pos(j);
    vstd::arithmetic::power2::lemma_pow2_adds(j, (k - j) as nat);
    vstd::arithmetic::div_mod::lemma_mod_multiples_basic(pow2((k - j) as nat) as int, pow2(j) as int);
}

/// A positive `n` is a multiple of `2^trailing_zeros(n)` and of no higher power.
pub proof fn lemma_trailing_zeros_exact(n: nat)
    requires
        n > 0,
    ensures
        aligned(n, trailing_zeros(n)),
        !aligned(n, trailing_zeros(n) + 1),
{
    lemma_aligned_iff_trailing_zeros(n, trailing_zeros(n));
    lemma_aligned_iff_trailing_zeros(n, trailing_zeros(n) + 1);
}

/// Adding `2^t` to a multiple of `2^t` that is not a multiple of `2^(t+1)`
/// carries into bit `t + 1`.
pub proof fn lemma_aligned_carry(a: nat, t: nat)
    requires
        aligned(a, t),
        !aligned(a, t + 1),
    ensures
        aligned(a + pow2(t), t + 1),
{
    let m = pow2(t) as int;
    lemma_pow2_unfold(t + 1);
    lemma_pow2_pos(t);
    lemma_mod_breakdown(a as int, m, 2);
    assert(m * 2 == 2 * m);
    let r = (a as int / m) % 2;
    assert(a % pow2(t + 1) == m * r);
    assert(r == 1) by {
        if r == 0 {
            assert(m * r == 0);
        }
    }
    let q = a as int / pow2(t + 1) as int;
    vstd::arithmetic::div_mod::lemma_fundamental_div_mod(a as int, pow2(t + 1) as int);
    assert(a + m == 2 * m * (q + 1)) by (nonlinear_arith)
        requires
            a == (2 * m) * q + m,
    ;
    vstd::arithmetic::div_mod::lemma_mod_multiples_basic(q + 1, 2 * m);
    vstd::arithmetic::mul::lemma_mul_is_commutative(2 * m, q + 1);
}

/// Two distinct multiples of `2^k` lie at least `2^k` apart.
pub proof fn lemma_aligned_gap(a: nat, b: nat, k: nat)
    requires
        aligned(a, k),
        aligned(b, k),
        a < b,
    ensures
        a + pow2(k) <= b,
{
    lemma_aligned_add(b, a, k);
    lemma_aligned_ge((b - a) as nat, k);
}

/// Counts of low bits of a `usize` fit comfortably in a `u32`.
pub proof fn lemma_bit_counts_fit(n: nat)
    requires
        n <= usize::MAX,
    ensures
        trailing_ones(n) <= usize::BITS,
        n > 0 ==> trailing_zeros(n) < usize::BITS,
        n > 0 ==> ilog2(n) < usize::BITS,
{
    lemma2_to64();
    lemma_trailing_ones_of_predecessor(n);
    lemma_trailing_zeros_exact(n + 1);
    lemma_aligned_ge(n + 1, trailing_zeros(n + 1));
    if trailing_zeros(n + 1) > usize::BITS {
        lemma_pow2_strictly_increases(usize::BITS as nat, trailing_zeros(n + 1));
    }
    if n > 0 {
        lemma_trailing_zeros_exact(n);
        lemma_aligned_ge(n, trailing_zeros(n));
        lemma_pow2_fits_usize(trailing_zeros(n));
        lemma_ilog2_bounds(n);
        lemma_pow2_fits_usize(ilog2(n));
    }
}

/// Relates `pow2` to the range of `usize`.
pub proof fn lemma_pow2_fits_usize(k: nat)
    requires
        pow2(k) <= usize::MAX,
    ensures
        k < usize::BITS,
{
    lemma2_to64();
    if k >= usize::BITS {
        if k > usize::BITS {
            lemma_pow2_strictly_increases(usize::BITS as nat, k);
        }
    }
}

/// Returns `2^k`.
pub fn pow2_of(k: u32) -> (r: usize)
    requires
        pow2(k as nat) <= usize::MAX,
    ensures
        r == pow2(k as nat),
{
    proof {
        lemma_pow2_fits_usize(k as nat);
        lemma_usize_shl_is_mul(1, k as usize);
    }
    1usize << (k as usize)
}

/// Returns the number of set bits of `x`.
pub fn count_ones_of(x: usize) -> (r: usize)
    ensures
        r == popcount(x as nat),
{
    let mut v: usize = x;
    let mut c: usize = 0;
    proof {
        lemma_popcount_le(x as nat);
    }
    while v > 0
        invariant
            c + popcount(v as nat) == popcount(x as nat),
            popcount(x as nat) <= x,
        decreases v,
    {
        c = c + v % 2;
        v = v / 2;
    }
    c
}

/// Returns the number of consecutive set bits at the low end of `x`.
pub fn trailing_ones_of(x: usize) -> (r: u32)
    ensures
        r == trailing_ones(x as nat),
{
    let mut v: usize = x;
    let mut c: u32 = 0;
    proof {
        lemma_bit_counts_fit(x as nat);
    }
    while v % 2 == 1
        invariant
            c + trailing_ones(v as nat) == trailing_ones(x as nat),
            trailing_ones(x as nat) <= usize::BITS,
        decreases v,
    {
        c = c + 1;
        v = v / 2;
    }
    c
}

/// Returns the number of consecutive clear bits at the low end of a positive `x`.
pub fn trailing_zeros_of(x: usize) -> (r: u32)
    requires
        x > 0,
    ensures
        r == trailing_zeros(x as nat),
{
    let mut v: usize = x;
    let mut c: u32 = 0;
    proof {
        lemma_bit_counts_fit(x as nat);
    }
    while v % 2 == 0
        invariant
            v > 0,
            c + trailing_zeros(v as nat) == trailing_zeros(x as nat),
            trailing_zeros(x as nat) < usize::BITS,
        decreases v,
    {
        c = c + 1;
        v = v / 2;
    }
    c
}

/// Returns the index of the highest set bit of a positive `x`.
pub fn ilog2_of(x: usize) -> (r: u32)
    requires
        x > 0,
    ensures
        r == ilog2(x as nat),
{
    let mut v: usize = x;
    let mut c: u32 = 0;
    proof {
        lemma_bit_counts_fit(x as nat);
    }
    while v >= 2
        invariant
            v > 0,
            c + ilog2(v as nat) == ilog2(x as nat),
            ilog2(x as nat) < usize::BITS,
        decreases v,
    {
        c = c + 1;
        v = v / 2;
    }
    c
}

} // verus!
