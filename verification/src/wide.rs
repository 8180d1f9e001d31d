//! Shifts, masks and bit lengths on machine words, stated as integer
//! arithmetic on powers of two.

use vstd::arithmetic::div_mod::*;
use vstd::arithmetic::mul::*;
use vstd::arithmetic::power2::*;
use vstd::bits::*;
use vstd::prelude::*;

verus! {

/// The number of bits needed to write `n`: zero for zero, and otherwise one
/// more than the position of the leading one.
pub open spec fn bit_length(n: nat) -> nat
    decreases n,
{
    if n == 0 {
        0
    } else {
        1 + bit_length(n / 2)
    }
}

/// `bit_length(n)` is the only width whose range of values holds `n` at its top.
pub proof fn lemma_bit_length(n: nat)
    ensures
        n < pow2(bit_length(n)),
        n > 0 ==> bit_length(n) > 0 && pow2((bit_length(n) - 1) as nat) <= n,
    decreases n,
{
    lemma2_to64();
    if n > 0 {
        lemma_bit_length(n / 2);
        lemma_pow2_unfold(bit_length(n));
        if n / 2 > 0 {
            lemma_pow2_unfold((bit_length(n) - 1) as nat);
        }
    }
}

pub proof fn lemma_bit_length_unique(n: nat, k: nat)
    requires
        k > 0,
        pow2((k - 1) as nat) <= n < pow2(k),
    ensures
        bit_length(n) == k,
{
    lemma_bit_length(n);
    lemma_pow2_pos((k - 1) as nat);
    let b = bit_length(n);
    if b < k {
        lemma_pow2_monotone(b, (k - 1) as nat);
    } else if b > k {
        lemma_pow2_monotone(k, (b - 1) as nat);
    }
}

pub proof fn lemma_pow2_monotone(a: nat, b: nat)
    requires
        a <= b,
    ensures
        pow2(a) <= pow2(b),
{
    if a < b {
        lemma_pow2_strictly_increases(a, b);
    }
}

/// Every power of two below the 128th fits a `u128`.
pub proof fn lemma_pow2_fits(n: nat)
    ensures
        pow2(n) > 0,
        n < 128 ==> pow2(n) <= 0x8000_0000_0000_0000_0000_0000_0000_0000,
        n <= 128 ==> pow2(n) <= u128::MAX + 1,
        n < 64 ==> pow2(n) <= 0x8000_0000_0000_0000,
        pow2(128) == u128::MAX + 1,
        pow2(64) == u64::MAX + 1,
{
    lemma2_to64();
    lemma2_to64_rest();
    lemma_pow2_adds(64, 64);
    lemma_pow2_adds(64, 63);
    lemma_pow2_pos(n);
    if n < 128 {
        lemma_pow2_monotone(n, 127);
    }
    if n < 64 {
        lemma_pow2_monotone(n, 63);
    }
}

proof fn lemma_u128_shl_is_mul(x: u128, shift: u128)
    requires
        shift < 128,
        x * pow2(shift as nat) <= u128::MAX,
    ensures
        (x << shift) == x * pow2(shift as nat),
    decreases shift,
{
    lemma2_to64();
    if shift == 0 {
        assert(x << 0u128 == x) by (bit_vector);
        lemma_mul_basics(x as int);
    } else {
        let below = (shift - 1) as u128;
        lemma_pow2_unfold(shift as nat);
        let p = pow2(below as nat) as int;
        assert(x * p <= x * (2 * p)) by (nonlinear_arith)
            requires
                p >= 0,
        ;
        lemma_u128_shl_is_mul(x, below);
        assert(x << shift == ((x << below) * 2) as u128) by (bit_vector)
            requires
                0 < shift < 128,
                below == shift - 1,
        ;
        assert((x * p) * 2 == x * (2 * p)) by (nonlinear_arith);
    }
}

/// `m * 2^d`, for a product that fits.
pub fn shl128(m: u128, d: u32) -> (r: u128)
    requires
        d < 128,
        m * pow2(d as nat) <= u128::MAX,
    ensures
        r == m * pow2(d as nat),
{
    proof {
        lemma_u128_shl_is_mul(m, d as u128);
    }
    m << (d as u128)
}

/// The integer part of `m / 2^d`.
pub fn shr128(m: u128, d: u32) -> (r: u128)
    requires
        d < 128,
    ensures
        r == m as nat / pow2(d as nat),
{
    proof {
        lemma_u128_shr_is_div(m, d as u128);
    }
    m >> (d as u128)
}

/// The low `d` bits of `m`: its remainder modulo `2^d`.
pub fn low128(m: u128, d: u32) -> (r: u128)
    requires
        d < 128,
    ensures
        r == m as nat % pow2(d as nat),
{
    let q = shr128(m, d);
    proof {
        lemma_pow2_fits(d as nat);
        lemma_fundamental_div_mod(m as int, pow2(d as nat) as int);
        lemma_mul_is_commutative(q as int, pow2(d as nat) as int);
        lemma_mod_bound(m as int, pow2(d as nat) as int);
    }
    m - shl128(q, d)
}

/// `x * 2^d`, for a product that fits.
pub fn shl64(x: u64, d: u32) -> (r: u64)
    requires
        d < 64,
        x * pow2(d as nat) <= u64::MAX,
    ensures
        r == x * pow2(d as nat),
{
    proof {
        lemma_u64_shl_is_mul(x, d as u64);
    }
    x << (d as u64)
}

/// The integer part of `x / 2^d`.
pub fn shr64(x: u64, d: u32) -> (r: u64)
    requires
        d < 64,
    ensures
        r == x as nat / pow2(d as nat),
{
    proof {
        lemma_u64_shr_is_div(x, d as u64);
    }
    x >> (d as u64)
}

/// The low `d` bits of `x`: its remainder modulo `2^d`.
pub fn low64(x: u64, d: u32) -> (r: u64)
    requires
        d <= 64,
    ensures
        r == x as nat % pow2(d as nat),
{
    if d == 64 {
        proof {
            lemma_pow2_fits(64);
            lemma_small_mod(x as nat, pow2(64));
        }
        return x;
    }
    let q = shr64(x, d);
    proof {
        lemma_pow2_fits(d as nat);
        lemma_fundamental_div_mod(x as int, pow2(d as nat) as int);
        lemma_mul_is_commutative(q as int, pow2(d as nat) as int);
        lemma_mod_bound(x as int, pow2(d as nat) as int);
    }
    x - shl64(q, d)
}

/// The number of significant bits in `m`.
pub fn bit_len(m: u128) -> (r: u32)
    ensures
        r == bit_length(m as nat),
        r <= 128,
        (m as nat) < pow2(r as nat),
        m > 0 ==> r > 0 && pow2((r - 1) as nat) <= m,
{
    let mut n: u32 = 0;
    let mut v: u128 = m;
    let mut s: u32 = 64;
    proof {
        lemma2_to64();
        lemma_pow2_fits(0);
        lemma_bit_length(m as nat);
        assert(m as nat / 1 == m as nat);
    }
    while s > 0
        invariant
            s == 64 || s == 32 || s == 16 || s == 8 || s == 4 || s == 2 || s == 1 || s == 0,
            n + 2 * s <= 128,
            v == m as nat / pow2(n as nat),
            (v as nat) < pow2(if s == 0 { 1nat } else { (2 * s) as nat }),
            n > 0 ==> v > 0,
            n % 2 == 0 || s == 0,
        decreases s,
    {
        let high = shr128(v, s);
        proof {
            lemma_pow2_fits(n as nat);
            lemma_pow2_fits(s as nat);
            lemma_pow2_adds(n as nat, s as nat);
            lemma_pow2_adds(s as nat, s as nat);
            lemma_div_denominator(m as int, pow2(n as nat) as int, pow2(s as nat) as int);
            lemma_fundamental_div_mod(v as int, pow2(s as nat) as int);
            lemma_mod_bound(v as int, pow2(s as nat) as int);
            lemma2_to64();
            if high == 0 {
                lemma_mul_basics(pow2(s as nat) as int);
            } else {
                assert(high < pow2(s as nat)) by (nonlinear_arith)
                    requires
                        v as int == pow2(s as nat) as int * high as int + v as int % pow2(
                            s as nat,
                        ) as int,
                        0 <= v as int % pow2(s as nat) as int,
                        (v as int) < pow2(s as nat) as int * pow2(s as nat) as int,
                        pow2(s as nat) > 0,
                ;
            }
        }
        if high != 0 {
            v = high;
            n = n + s;
        }
        s = s / 2;
    }
    proof {
        lemma2_to64();
        lemma_pow2_fits(n as nat);
        lemma_pow2_unfold((n + 1) as nat);
        lemma_fundamental_div_mod(m as int, pow2(n as nat) as int);
        lemma_mod_bound(m as int, pow2(n as nat) as int);
        if v == 0 {
            assert(n == 0);
            assert(m == 0);
        } else {
            assert(v == 1);
            lemma_mul_basics(pow2(n as nat) as int);
            lemma_bit_length_unique(m as nat, (n + 1) as nat);
        }
    }
    if v == 0 {
        0
    } else {
        n + 1
    }
}

} // verus!
