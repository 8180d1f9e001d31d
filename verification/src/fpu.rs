//! Soft-float for the F and D extensions.
//!
//! Every operation is computed exactly in integers and rounded exactly once,
//! rather than handed to the host's `f32`/`f64`. Host arithmetic would be
//! wrong in three ways that matter here: it rounds to nearest-even only, so
//! the four other rounding modes would be unimplementable; it does not report
//! the five exception flags `fcsr` accumulates; and it is free to produce any
//! NaN it likes, where RISC-V pins down a single canonical one.
//!
//! A value is carried as `m * 2^e` with `m` an integer significand held in a
//! `u128`. Whenever an operation has to discard bits it makes the low bit of
//! what it keeps a one (rounding to odd), so `round_pack` can round a
//! truncated significand as correctly as an exact one, in any mode.
//!
//! Single and double precision share all of it, parameterised by `Fmt`.

use crate::exact;
use crate::exact::Exact;
use crate::wide;
use crate::wide::{bit_len, low128, low64, shl128, shl64, shr128, shr64};
use vstd::arithmetic::div_mod::*;
use vstd::arithmetic::mul::*;
use vstd::arithmetic::power2::*;
use vstd::prelude::*;

pub mod ieee;
pub mod laws;

verus! {

/// Inexact, in its `fflags` bit position.
pub const NX: u32 = 1;

/// Underflow.
pub const UF: u32 = 2;

/// Overflow.
pub const OF: u32 = 4;

/// Divide by zero.
pub const DZ: u32 = 8;

/// Invalid operation.
pub const NV: u32 = 16;

/// Underflow, which is always inexact too.
pub const UF_NX: u32 = 3;

/// Overflow, which is always inexact too.
pub const OF_NX: u32 = 5;

/// A rounding mode, as encoded in `frm` and in an instruction's rm field.
#[derive(Clone, Copy, PartialEq, Eq, Debug, Structural)]
pub enum Rm {
    /// Round to nearest, ties to even.
    Rne,
    /// Round towards zero.
    Rtz,
    /// Round down, towards minus infinity.
    Rdn,
    /// Round up, towards plus infinity.
    Rup,
    /// Round to nearest, ties away from zero.
    Rmm,
}

impl Rm {
    pub open spec fn spec_from_bits(v: u32) -> Option<Rm> {
        if v == 0 {
            Some(Rm::Rne)
        } else if v == 1 {
            Some(Rm::Rtz)
        } else if v == 2 {
            Some(Rm::Rdn)
        } else if v == 3 {
            Some(Rm::Rup)
        } else if v == 4 {
            Some(Rm::Rmm)
        } else {
            None
        }
    }

    /// Decodes a three-bit mode. The two reserved encodings and the dynamic
    /// one are `None`; an instruction naming a reserved mode is illegal, and
    /// the dynamic one has to be resolved against `frm` before it gets here.
    pub fn from_bits(v: u32) -> (r: Option<Rm>)
        ensures
            r == Rm::spec_from_bits(v),
    {
        match v {
            0 => Some(Rm::Rne),
            1 => Some(Rm::Rtz),
            2 => Some(Rm::Rdn),
            3 => Some(Rm::Rup),
            4 => Some(Rm::Rmm),
            _ => None,
        }
    }
}

/// A binary floating-point format, described by its two widths. Everything
/// else about it (the bias, the exponent range, the canonical NaN) follows
/// from these and is derived rather than tabulated.
#[derive(Clone, Copy, PartialEq, Eq, Debug, Structural)]
pub struct Fmt {
    /// Total width in bits.
    pub bits: u32,
    /// Stored significand bits, excluding the hidden one.
    pub sig: u32,
}

impl Fmt {
    /// The formats this module can compute in: at least two exponent bits, a
    /// significand that leaves room for the guard bits of a quotient or a
    /// root, and an encoding that fits a register.
    pub open spec fn valid(self) -> bool {
        &&& 1 <= self.sig <= 59
        &&& self.sig + 3 <= self.bits <= 64
        &&& self.bits - self.sig <= 25
    }

    pub open spec fn spec_single() -> Fmt {
        Fmt { bits: 32, sig: 23 }
    }

    /// IEEE 754 single precision.
    pub fn single() -> (r: Fmt)
        ensures
            r == Fmt::spec_single(),
            r.valid(),
    {
        Fmt { bits: 32, sig: 23 }
    }

    pub open spec fn spec_double() -> Fmt {
        Fmt { bits: 64, sig: 52 }
    }

    /// IEEE 754 double precision.
    pub fn double() -> (r: Fmt)
        ensures
            r == Fmt::spec_double(),
            r.valid(),
    {
        Fmt { bits: 64, sig: 52 }
    }

    pub open spec fn spec_exp_bits(self) -> nat {
        (self.bits - self.sig - 1) as nat
    }

    pub open spec fn spec_bias(self) -> int {
        pow2((self.spec_exp_bits() - 1) as nat) - 1
    }

    /// The all-ones exponent field, which encodes infinity and NaN.
    pub open spec fn spec_max_field(self) -> nat {
        (pow2(self.spec_exp_bits()) - 1) as nat
    }

    /// The exponent of the least significant bit of a subnormal.
    pub open spec fn spec_min_e(self) -> int {
        1 - self.spec_bias() - self.sig
    }

    /// The encoding with a given sign and a given magnitude below it.
    pub open spec fn spec_signed(self, neg: bool, magnitude: nat) -> u64 {
        (if neg {
            pow2((self.bits - 1) as nat) + magnitude
        } else {
            magnitude
        }) as u64
    }

    pub open spec fn spec_zero(self, neg: bool) -> u64 {
        self.spec_signed(neg, 0)
    }

    /// The magnitude code of an infinity; NaNs are above it and finite
    /// numbers below.
    pub open spec fn inf_code(self) -> nat {
        self.spec_max_field() * pow2(self.sig as nat)
    }

    pub open spec fn spec_inf(self, neg: bool) -> u64 {
        self.spec_signed(neg, self.inf_code())
    }

    pub open spec fn spec_max_finite(self, neg: bool) -> u64 {
        self.spec_signed(neg, (self.inf_code() - 1) as nat)
    }

    pub open spec fn spec_nan(self) -> u64 {
        (self.inf_code() + pow2((self.sig - 1) as nat)) as u64
    }

    /// The sign bit of an encoding.
    pub open spec fn sign_of(self, x: u64) -> bool {
        (x as nat % pow2(self.bits as nat)) / pow2((self.bits - 1) as nat) == 1
    }

    /// Everything but the sign bit.
    pub open spec fn magnitude_of(self, x: u64) -> nat {
        x as nat % pow2((self.bits - 1) as nat)
    }

    pub open spec fn field_of(self, x: u64) -> nat {
        self.magnitude_of(x) / pow2(self.sig as nat)
    }

    pub open spec fn frac_of(self, x: u64) -> nat {
        self.magnitude_of(x) % pow2(self.sig as nat)
    }

    pub open spec fn is_nan(self, x: u64) -> bool {
        self.field_of(x) == self.spec_max_field() && self.frac_of(x) != 0
    }

    pub open spec fn is_snan(self, x: u64) -> bool {
        self.is_nan(x) && self.frac_of(x) < pow2((self.sig - 1) as nat)
    }

    pub open spec fn is_inf(self, x: u64) -> bool {
        self.field_of(x) == self.spec_max_field() && self.frac_of(x) == 0
    }

    pub open spec fn is_zero(self, x: u64) -> bool {
        self.field_of(x) == 0 && self.frac_of(x) == 0
    }

    /// The sizes that a valid format's widths fix.
    pub proof fn lemma_sizes(self)
        requires
            self.valid(),
        ensures
            2 <= self.spec_exp_bits() <= 24,
            pow2(self.spec_exp_bits()) == 2 * pow2((self.spec_exp_bits() - 1) as nat),
            2 <= pow2((self.spec_exp_bits() - 1) as nat) <= 0x80_0000,
            pow2((self.bits - 1) as nat) == pow2(self.spec_exp_bits()) * pow2(self.sig as nat),
            pow2((self.bits - 1) as nat) == self.inf_code() + pow2(self.sig as nat),
            pow2(self.bits as nat) == 2 * pow2((self.bits - 1) as nat),
            pow2(self.bits as nat) <= u64::MAX + 1,
            pow2(self.sig as nat) == 2 * pow2((self.sig - 1) as nat),
            pow2((self.sig + 1) as nat) == 2 * pow2(self.sig as nat),
            pow2((self.sig - 1) as nat) > 0,
            pow2(self.sig as nat) <= 0x800_0000_0000_0000,
            self.spec_max_field() * pow2(self.sig as nat) >= pow2(self.sig as nat),
    {
        let eb = self.spec_exp_bits();
        lemma2_to64();
        lemma2_to64_rest();
        lemma_pow2_unfold(eb);
        lemma_pow2_unfold(self.bits as nat);
        lemma_pow2_unfold(self.sig as nat);
        lemma_pow2_unfold((self.sig + 1) as nat);
        lemma_pow2_adds(eb, self.sig as nat);
        wide::lemma_pow2_monotone(1, (eb - 1) as nat);
        wide::lemma_pow2_monotone((eb - 1) as nat, 23);
        wide::lemma_pow2_monotone(self.sig as nat, 59);
        wide::lemma_pow2_monotone(self.bits as nat, 64);
        lemma_pow2_pos((self.sig - 1) as nat);
        let w = pow2(self.sig as nat) as int;
        let m = self.spec_max_field() as int;
        assert((m + 1) * w == m * w + w) by (nonlinear_arith);
        assert(m * w >= w) by (nonlinear_arith)
            requires
                m >= 1,
                w > 0,
        ;
    }

    fn exp_bits(self) -> (r: u32)
        requires
            self.valid(),
        ensures
            r == self.spec_exp_bits(),
    {
        self.bits - self.sig - 1
    }

    fn bias(self) -> (r: i32)
        requires
            self.valid(),
        ensures
            r == self.spec_bias(),
            1 <= r < 0x80_0000,
    {
        proof {
            self.lemma_sizes();
            lemma_mul_basics(pow2((self.spec_exp_bits() - 1) as nat) as int);
        }
        (shl64(1, self.exp_bits() - 1) - 1) as i32
    }

    fn max_field(self) -> (r: u64)
        requires
            self.valid(),
        ensures
            r == self.spec_max_field(),
    {
        proof {
            self.lemma_sizes();
            lemma_mul_basics(pow2(self.spec_exp_bits()) as int);
        }
        shl64(1, self.exp_bits()) - 1
    }

    /// The significand's top bit, which is what distinguishes a quiet NaN
    /// from a signalling one.
    fn quiet_bit(self) -> (r: u64)
        requires
            self.valid(),
        ensures
            r == pow2((self.sig - 1) as nat),
    {
        proof {
            self.lemma_sizes();
            lemma_mul_basics(pow2((self.sig - 1) as nat) as int);
        }
        shl64(1, self.sig - 1)
    }

    /// Every bit of the format, for trimming a wider register down.
    pub fn mask(self) -> (r: u64)
        ensures
            self.bits >= 64 ==> r == u64::MAX,
            self.bits < 64 ==> r == pow2(self.bits as nat) - 1,
    {
        if self.bits >= 64 {
            u64::MAX
        } else {
            proof {
                wide::lemma_pow2_fits(self.bits as nat);
                lemma_mul_basics(pow2(self.bits as nat) as int);
            }
            shl64(1, self.bits) - 1
        }
    }

    pub fn sign_mask(self) -> (r: u64)
        requires
            1 <= self.bits <= 64,
        ensures
            r == pow2((self.bits - 1) as nat),
    {
        proof {
            wide::lemma_pow2_fits((self.bits - 1) as nat);
            lemma_mul_basics(pow2((self.bits - 1) as nat) as int);
        }
        shl64(1, self.bits - 1)
    }

    /// Puts a sign bit above a magnitude.
    fn signed(self, neg: bool, magnitude: u64) -> (r: u64)
        requires
            self.valid(),
            magnitude < pow2((self.bits - 1) as nat),
        ensures
            r == self.spec_signed(neg, magnitude as nat),
            neg ==> r == pow2((self.bits - 1) as nat) + magnitude,
            !neg ==> r == magnitude,
    {
        proof {
            self.lemma_sizes();
        }
        if neg {
            self.sign_mask() + magnitude
        } else {
            magnitude
        }
    }

    /// An infinity's encoding, without its sign.
    fn inf_magnitude(self) -> (r: u64)
        requires
            self.valid(),
        ensures
            r == self.inf_code(),
            r + pow2(self.sig as nat) == pow2((self.bits - 1) as nat),
    {
        proof {
            self.lemma_sizes();
        }
        shl64(self.max_field(), self.sig)
    }

    /// The canonical quiet NaN. RISC-V produces exactly this one for every
    /// operation whose result is NaN, rather than propagating an operand's
    /// payload, so that the result does not depend on the microarchitecture.
    pub fn nan(self) -> (r: u64)
        requires
            self.valid(),
        ensures
            r == self.spec_nan(),
            r == self.inf_code() + pow2((self.sig - 1) as nat),
    {
        proof {
            self.lemma_sizes();
        }
        self.inf_magnitude() + self.quiet_bit()
    }

    pub fn inf(self, neg: bool) -> (r: u64)
        requires
            self.valid(),
        ensures
            r == self.spec_inf(neg),
    {
        proof {
            self.lemma_sizes();
        }
        self.signed(neg, self.inf_magnitude())
    }

    pub fn zero(self, neg: bool) -> (r: u64)
        requires
            1 <= self.bits <= 64,
        ensures
            r == self.spec_zero(neg),
            r == (if neg {
                pow2((self.bits - 1) as nat)
            } else {
                0
            }),
    {
        if neg {
            self.sign_mask()
        } else {
            0
        }
    }

    /// The largest finite value, which directed rounding returns in place of
    /// an infinity on overflow.
    fn max_finite(self, neg: bool) -> (r: u64)
        requires
            self.valid(),
        ensures
            r == self.spec_max_finite(neg),
    {
        proof {
            self.lemma_sizes();
        }
        self.signed(neg, self.inf_magnitude() - 1)
    }

    fn min_e(self) -> (r: i32)
        requires
            self.valid(),
        ensures
            r == self.spec_min_e(),
            -0x80_0100 <= r <= 0,
    {
        1 - self.bias() - self.sig as i32
    }
}

/// What a bit pattern denotes, with the significand of a finite non-zero
/// normalised so that every number reaching an operation has exactly
/// `sig + 1` significant bits, subnormals included. Division and square root
/// both need that: their working precision is relative to the operand, so an
/// unnormalised subnormal would yield a quotient with too few bits to round
/// correctly.
#[derive(Clone, Copy, Debug, PartialEq, Eq, Structural)]
pub enum Cls {
    Zero,
    Inf,
    Nan { signalling: bool },
    /// The number `m * 2^e`.
    Num { m: u128, e: i32 },
}

/// What an encoding denotes: `frac` units of the smallest subnormal for a zero
/// exponent field, and a significand with its hidden bit otherwise.
pub open spec fn spec_unpack(f: Fmt, x: u64) -> (bool, Cls) {
    let frac = f.frac_of(x);
    let field = f.field_of(x);
    (
        f.sign_of(x),
        if field == f.spec_max_field() {
            if frac == 0 {
                Cls::Inf
            } else {
                Cls::Nan { signalling: frac < pow2((f.sig - 1) as nat) }
            }
        } else if field == 0 {
            if frac == 0 {
                Cls::Zero
            } else {
                let shift = (f.sig + 1 - wide::bit_length(frac)) as nat;
                Cls::Num { m: (frac * pow2(shift)) as u128, e: (f.spec_min_e() - shift) as i32 }
            }
        } else {
            Cls::Num {
                m: (pow2(f.sig as nat) + frac) as u128,
                e: (field - f.spec_bias() - f.sig) as i32,
            }
        },
    )
}

/// A significand as every operation sees it: normalised, with an exponent far
/// from the ends of its type.
pub open spec fn normalised(f: Fmt, m: u128, e: i32) -> bool {
    &&& pow2(f.sig as nat) <= m < pow2((f.sig + 1) as nat)
    &&& -0x81_0000 <= e <= 0x81_0000
}

proof fn lemma_fields(f: Fmt, x: u64)
    requires
        f.valid(),
    ensures
        f.magnitude_of(x) < pow2((f.bits - 1) as nat),
        f.field_of(x) <= f.spec_max_field(),
        f.frac_of(x) < pow2(f.sig as nat),
        f.magnitude_of(x) == f.field_of(x) * pow2(f.sig as nat) + f.frac_of(x),
        (x as nat % pow2(f.bits as nat)) / pow2((f.bits - 1) as nat) <= 1,
        (x as nat % pow2(f.bits as nat)) % pow2((f.bits - 1) as nat) == f.magnitude_of(x),
{
    f.lemma_sizes();
    let top = pow2((f.bits - 1) as nat) as int;
    let w = pow2(f.sig as nat) as int;
    lemma_mod_bound(x as int, top);
    lemma_mod_bound(x as int, 2 * top);
    lemma_mod_mod(x as int, top, 2);
    let mag = f.magnitude_of(x) as int;
    lemma_fundamental_div_mod(mag, w);
    lemma_mod_bound(mag, w);
    lemma_mul_is_commutative(w, mag / w);
    let v = x as int % (2 * top);
    lemma_fundamental_div_mod(v, top);
    lemma_mod_bound(v, top);
    assert(v / top <= 1) by (nonlinear_arith)
        requires
            v < 2 * top,
            v == top * (v / top) + v % top,
            v % top >= 0,
            top > 0,
    ;
    assert(mag / w <= f.spec_max_field()) by (nonlinear_arith)
        requires
            mag < (f.spec_max_field() + 1) * w,
            mag == w * (mag / w) + mag % w,
            mag % w >= 0,
            w > 0,
    ;
}

/// Where the significand of a subnormal ends up.
proof fn lemma_subnormal(f: Fmt, frac: nat)
    requires
        f.valid(),
        0 < frac < pow2(f.sig as nat),
    ensures
        1 <= f.sig + 1 - wide::bit_length(frac) <= f.sig,
        pow2(f.sig as nat) <= frac * pow2((f.sig + 1 - wide::bit_length(frac)) as nat) < pow2(
            (f.sig + 1) as nat,
        ),
{
    f.lemma_sizes();
    wide::lemma_bit_length(frac);
    let n = wide::bit_length(frac);
    if n > f.sig {
        wide::lemma_pow2_monotone(f.sig as nat, (n - 1) as nat);
    }
    let shift = (f.sig + 1 - n) as nat;
    lemma_pow2_adds((n - 1) as nat, shift);
    lemma_pow2_adds(n, shift);
    let p = pow2(shift);
    lemma_pow2_pos(shift);
    lemma_mul_inequality(pow2((n - 1) as nat) as int, frac as int, p as int);
    lemma_mul_strict_inequality(frac as int, pow2(n) as int, p as int);
}

pub fn unpack(f: Fmt, x: u64) -> (r: (bool, Cls))
    requires
        f.valid(),
    ensures
        r == spec_unpack(f, x),
        r.1 is Num ==> normalised(f, r.1->m, r.1->e),
{
    proof {
        f.lemma_sizes();
        lemma_fields(f, x);
    }
    let x_low = low64(x, f.bits);
    let sign = shr64(x_low, f.bits - 1) != 0;
    let magnitude = low64(x_low, f.bits - 1);
    let field = shr64(magnitude, f.sig);
    let frac = low64(magnitude, f.sig);
    let cls = if field == f.max_field() {
        if frac == 0 {
            Cls::Inf
        } else {
            Cls::Nan { signalling: frac < f.quiet_bit() }
        }
    } else if field == 0 {
        if frac == 0 {
            Cls::Zero
        } else {
            // Subnormal: shift the significand up until the hidden bit
            // position is occupied, paying for it in the exponent.
            proof {
                lemma_subnormal(f, frac as nat);
            }
            let shift = f.sig + 1 - bit_len(frac as u128);
            Cls::Num { m: shl128(frac as u128, shift), e: f.min_e() - shift as i32 }
        }
    } else {
        proof {
            lemma_mul_basics(pow2(f.sig as nat) as int);
        }
        Cls::Num {
            m: (shl64(1, f.sig) + frac) as u128,
            e: field as i32 - f.bias() - f.sig as i32,
        }
    };
    (sign, cls)
}

fn is_nan(c: Cls) -> (r: bool)
    ensures
        r == (c is Nan),
{
    matches!(c, Cls::Nan { .. })
}

fn is_snan(c: Cls) -> (r: bool)
    ensures
        r == (c is Nan && c->signalling),
{
    matches!(c, Cls::Nan { signalling: true })
}

/// Where the last place of `m * 2^e` sits: one unit below the leading bit's
/// reach, or at the subnormal floor.
proof fn lemma_last_place(f: Fmt, m: nat, e: int, len: nat, last: int)
    requires
        f.valid(),
        len > 0,
        pow2((len - 1) as nat) <= m < pow2(len),
        last >= len - 1 + e - f.sig,
        last >= f.spec_min_e(),
        last == f.spec_min_e() || last == len - 1 + e - f.sig,
    ensures
        exact::dyadic(m, e).positive(),
        exact::dyadic(m, e).is_last_place(f, last),
{
    f.lemma_sizes();
    lemma_pow2_pos((len - 1) as nat);
    exact::lemma_dyadic_at(m, e, last);
    if last <= e {
        let k = (e - last) as nat;
        lemma_pow2_adds((len - 1) as nat, k);
        lemma_pow2_adds(len, k);
        lemma_pow2_pos(k);
        lemma_mul_inequality(pow2((len - 1) as nat) as int, m as int, pow2(k) as int);
        lemma_mul_strict_inequality(m as int, pow2(len) as int, pow2(k) as int);
        wide::lemma_pow2_monotone(len + k, (f.sig + 1) as nat);
    } else {
        let d = (last - e) as nat;
        let p = pow2(d) as int;
        lemma_pow2_pos(d);
        lemma_fundamental_div_mod(m as int, p);
        lemma_mod_bound(m as int, p);
        let q = m as int / p;
        let w = pow2(f.sig as nat) as int;
        lemma_pow2_adds(d, (f.sig + 1) as nat);
        wide::lemma_pow2_monotone(len, d + (f.sig + 1) as nat);
        assert(q < 2 * w) by (nonlinear_arith)
            requires
                m as int == p * q + m as int % p,
                m as int % p >= 0,
                (m as int) < p * (2 * w),
                p > 0,
        ;
        if last == len - 1 + e - f.sig {
            lemma_pow2_adds(d, f.sig as nat);
            assert(q >= w) by (nonlinear_arith)
                requires
                    m as int == p * q + m as int % p,
                    m as int % p < p,
                    m as int >= p * w,
                    p > 0,
            ;
        }
    }
}

/// Rounds `sign * m * 2^e` into `f` and encodes it, reporting the flags the
/// rounding raised.
///
/// This is the only place a result is rounded. `m` may carry any number of
/// significant bits, and its low bit may be a sticky one standing in for
/// bits discarded earlier; both cases round identically, which is the point
/// of carrying the sticky bit inside the significand rather than beside it.
pub fn round_pack(f: Fmt, sign: bool, m: u128, e: i32, rm: Rm) -> (r: (u64, u32))
    requires
        f.valid(),
    ensures
        m == 0 ==> r == (f.spec_zero(sign), 0u32),
        m > 0 ==> r == exact::rounded(f, sign, exact::dyadic(m as nat, e as int), rm),
{
    if m == 0 {
        return (f.zero(sign), 0);
    }
    let len = bit_len(m);
    let min_e = f.min_e() as i64;
    // Where the result's least significant bit has to sit: one ulp below the
    // leading bit, unless that is below the subnormal floor.
    let natural: i64 = len as i64 - 1 + e as i64 - f.sig as i64;
    let lsb: i64 = if natural > min_e {
        natural
    } else {
        min_e
    };
    let discard: i64 = lsb - e as i64;
    let ghost x = exact::dyadic(m as nat, e as int);
    proof {
        f.lemma_sizes();
        lemma_last_place(f, m as nat, e as int, len as nat, lsb as int);
        x.lemma_last_place_unique(f, lsb as int);
        x.lemma_next_place(lsb - 1);
        exact::lemma_dyadic_at(m as nat, e as int, lsb as int);
        exact::lemma_dyadic_at(m as nat, e as int, lsb - 1);
    }
    let (q, guard, sticky): (u128, bool, bool) = if discard <= 0 {
        // Nothing is lost: the value is exactly representable once shifted.
        proof {
            lemma_pow2_unfold((1 - discard) as nat);
            let a = m as int;
            let b = pow2((-discard) as nat) as int;
            assert(a * (2 * b) == 2 * (a * b)) by (nonlinear_arith);
        }
        (shl128(m, (-discard) as u32), false, false)
    } else if discard > 128 {
        proof {
            wide::lemma_pow2_fits(128);
            wide::lemma_pow2_monotone(128, (discard - 1) as nat);
            lemma_basic_div(m as int, pow2((discard - 1) as nat) as int);
            lemma_small_mod(m as nat, pow2((discard - 1) as nat));
        }
        (0, false, true)
    } else {
        let half = shr128(m, (discard - 1) as u32);
        (half / 2, half % 2 != 0, low128(m, (discard - 1) as u32) != 0)
    };

    let inexact = guard || sticky;
    let round_up = match rm {
        Rm::Rne => guard && (sticky || q % 2 == 1),
        Rm::Rtz => false,
        Rm::Rdn => sign && inexact,
        Rm::Rup => !sign && inexact,
        Rm::Rmm => guard,
    };
    assert(q == x.floor_at(lsb as int));
    let q: u128 = if round_up {
        q + 1
    } else {
        q
    };
    let ghost t = exact::rounded_at(x, lsb as int, sign, rm);
    assert(t == (q as nat, inexact));

    // One binade of encodings for every place above the lowest. Rounding up
    // out of the significand carries into the exponent by itself.
    let above: u128 = (lsb - min_e) as u128;
    proof {
        let w = pow2(f.sig as nat) as int;
        assert(above as int * w <= 0x1_0000_0000 * 0x800_0000_0000_0000) by (nonlinear_arith)
            requires
                0 <= above <= 0x1_0000_0000,
                0 <= w <= 0x800_0000_0000_0000,
        ;
    }
    let code: u128 = shl128(above, f.sig) + q;
    let limit = f.inf_magnitude();
    if code >= limit as u128 {
        // Overflow. Which infinity-or-largest-finite comes back is the one
        // rounding was heading towards.
        let to_inf = match rm {
            Rm::Rne | Rm::Rmm => true,
            Rm::Rtz => false,
            Rm::Rdn => sign,
            Rm::Rup => !sign,
        };
        let bits = if to_inf {
            f.inf(sign)
        } else {
            f.max_finite(sign)
        };
        return (bits, OF_NX);
    }
    proof {
        lemma_mul_basics(pow2(f.sig as nat) as int);
    }
    // Tininess is detected after rounding: a subnormal that rounds up to the
    // smallest normal did not underflow.
    let flags = if !inexact {
        0
    } else if (code as u64) < shl64(1, f.sig) {
        UF_NX
    } else {
        NX
    };
    (f.signed(sign, code as u64), flags)
}

/// Rescales `m * 2^e` to the exponent `base`, leaving an odd result if the
/// shift discarded anything.
fn scale(m: u128, e: i32, base: i32) -> (r: u128)
    requires
        -0x300_0000 <= e <= 0x300_0000,
        -0x300_0000 <= base <= 0x300_0000,
        m < pow2(122),
        e >= base ==> e - base < 126 && m * pow2((e - base) as nat) < pow2(126),
    ensures
        e >= base ==> r == m * pow2((e - base) as nat),
        e < base ==> r == exact::jam(
            m as nat / pow2((base - e) as nat),
            m as nat % pow2((base - e) as nat) != 0,
        ),
{
    proof {
        wide::lemma_pow2_fits(126);
    }
    if e >= base {
        shl128(m, (e - base) as u32)
    } else {
        let d: u32 = (base - e) as u32;
        if d >= 128 {
            proof {
                wide::lemma_pow2_monotone(122, d as nat);
                lemma_basic_div(m as int, pow2(d as nat) as int);
                lemma_small_mod(m as nat, pow2(d as nat));
            }
            if m != 0 {
                1
            } else {
                0
            }
        } else {
            let q = shr128(m, d);
            proof {
                lemma_pow2_unfold(d as nat);
                lemma_pow2_pos((d - 1) as nat);
                lemma_div_is_ordered_by_denominator(m as int, 1, pow2(d as nat) as int);
                lemma_div_basics(m as int);
                lemma_pow2_strictly_increases(122, 127);
            }
            if low128(m, d) != 0 && q % 2 == 0 {
                q + 1
            } else {
                q
            }
        }
    }
}

/// `n` with a sign.
pub open spec fn with_sign(neg: bool, n: nat) -> int {
    if neg {
        -(n as int)
    } else {
        n as int
    }
}

/// The lower of two exponents.
pub open spec fn low_e(ea: int, eb: int) -> int {
    if ea <= eb {
        ea
    } else {
        eb
    }
}

/// The sum of two signed dyadic fractions, in units of the lower exponent.
pub open spec fn exact_sum(sa: bool, ma: nat, ea: int, sb: bool, mb: nat, eb: int) -> int {
    let e = low_e(ea, eb);
    with_sign(sa, ma * pow2((ea - e) as nat)) + with_sign(sb, mb * pow2((eb - e) as nat))
}

pub open spec fn abs(v: int) -> nat {
    if v < 0 {
        (-v) as nat
    } else {
        v as nat
    }
}

/// The exact sum of two signed dyadic fractions, rounded once. A sum that
/// cancels is +0 except when rounding towards minus infinity.
pub open spec fn rounded_sum(
    f: Fmt,
    sa: bool,
    ma: nat,
    ea: int,
    sb: bool,
    mb: nat,
    eb: int,
    rm: Rm,
) -> (u64, u32) {
    let v = exact_sum(sa, ma, ea, sb, mb, eb);
    if v == 0 {
        (f.spec_zero(rm == Rm::Rdn), 0)
    } else {
        exact::rounded(f, v < 0, exact::dyadic(abs(v), low_e(ea, eb)), rm)
    }
}

/// Rounding `m * 2^e` gives the same as rounding `n * 2^en`, in every format
/// and every mode.
pub open spec fn rounds_alike(sign: bool, m: nat, e: int, n: nat, en: int) -> bool {
    forall|f: Fmt, rm: Rm|
        f.valid() ==> #[trigger] exact::rounded(f, sign, exact::dyadic(m, e), rm) == exact::rounded(
            f,
            sign,
            exact::dyadic(n, en),
            rm,
        )
}

/// `m * 2^e` stands in for `v * 2^ev`: rounding either gives the same.
pub open spec fn stands_for(sign: bool, m: nat, e: int, v: int, ev: int) -> bool {
    &&& m == 0 <==> v == 0
    &&& v != 0 ==> sign == (v < 0)
    &&& v != 0 ==> rounds_alike(sign, m, e, abs(v), ev)
}

/// The same number at two exponents rounds the same.
proof fn lemma_same_value(sign: bool, m: nat, e: int, n: nat, en: int, t: int)
    requires
        t <= e,
        t <= en,
        m > 0,
        m * pow2((e - t) as nat) == n * pow2((en - t) as nat),
    ensures
        rounds_alike(sign, m, e, n, en),
{
    let x = exact::dyadic(m, e);
    let y = exact::dyadic(n, en);
    let whole = m * pow2((e - t) as nat);
    lemma_pow2_pos((e - t) as nat);
    lemma_mul_strictly_positive(m as int, pow2((e - t) as nat) as int);
    assert(n > 0) by (nonlinear_arith)
        requires
            n * pow2((en - t) as nat) > 0,
    ;
    assert forall|f: Fmt, rm: Rm| f.valid() implies #[trigger] exact::rounded(f, sign, x, rm)
        == exact::rounded(f, sign, y, rm) by {
        let len = wide::bit_length(n);
        wide::lemma_bit_length(n);
        let natural = len - 1 + en - f.sig;
        let last = if natural > f.spec_min_e() {
            natural
        } else {
            f.spec_min_e()
        };
        lemma_last_place(f, n, en, len, last);
        let u = low_e(t, last - 1);
        let k = (t - u) as nat;
        lemma_pow2_adds((e - t) as nat, k);
        lemma_pow2_adds((en - t) as nat, k);
        let a = pow2((e - t) as nat) as int;
        let b = pow2((en - t) as nat) as int;
        let c = pow2(k) as int;
        assert(m as int * (a * c) == (m as int * a) * c) by (nonlinear_arith);
        assert(n as int * (b * c) == (n as int * b) * c) by (nonlinear_arith);
        exact::lemma_dyadic_at(m, e, u);
        exact::lemma_dyadic_at(n, en, u);
        exact::lemma_agree_from(x, y, u);
        exact::lemma_rounded_agree(f, sign, x, y, rm, u, last);
    }
}

/// A quantity with at least two bits to spare below any last place may be
/// truncated to odd before it is rounded.
proof fn lemma_rounded_jam(f: Fmt, sign: bool, x: Exact, t: int, rm: Rm)
    requires
        f.valid(),
        x.positive(),
        x.floor_at(t) >= pow2((f.sig + 2) as nat),
    ensures
        exact::rounded(f, sign, exact::dyadic(exact::jam(x.floor_at(t), !x.exact_at(t)), t), rm)
            == exact::rounded(f, sign, x, rm),
{
    let k = x.floor_at(t);
    let j = exact::jam(k, !x.exact_at(t));
    lemma_pow2_pos((f.sig + 2) as nat);
    exact::lemma_jam(x, t);
    let y = exact::dyadic(j, t);
    let len = wide::bit_length(j);
    wide::lemma_bit_length(j);
    if len <= f.sig + 2 {
        wide::lemma_pow2_monotone(len, (f.sig + 2) as nat);
    }
    let natural = len - 1 + t - f.sig;
    let last = if natural > f.spec_min_e() {
        natural
    } else {
        f.spec_min_e()
    };
    lemma_last_place(f, j, t, len, last);
    exact::lemma_rounded_agree(f, sign, x, y, rm, t + 1, last);
}

/// Adding a truncated operand to a much larger one. `hi` is the larger, in
/// units of `2^base` and a multiple of two of them; `lo * 2^e` reaches below
/// `base`.
proof fn lemma_sum_truncated(same: bool, sign: bool, hi: nat, lo: nat, e: int, base: int)
    requires
        e < base,
        hi % 2 == 0,
        hi >= pow2(125),
        0 < lo < pow2(122),
    ensures
        ({
            let d = (base - e) as nat;
            let b = exact::jam(lo / pow2(d), lo % pow2(d) != 0);
            let v = if same {
                hi * pow2(d) + lo as int
            } else {
                hi * pow2(d) - lo
            };
            let m = if same {
                hi + b as int
            } else {
                hi - b
            };
            &&& b < hi
            &&& m > 0
            &&& v > 0
            &&& rounds_alike(sign, m as nat, base, v as nat, e)
        }),
{
    let d = (base - e) as nat;
    let p = pow2(d) as int;
    lemma_pow2_unfold(d);
    lemma_pow2_pos((d - 1) as nat);
    let k = lo as int / p;
    let rem = lo as int % p;
    lemma_fundamental_div_mod(lo as int, p);
    lemma_mod_bound(lo as int, p);
    let b = exact::jam(lo / pow2(d), lo % pow2(d) != 0);
    let h = hi as int;
    let v = if same {
        h * p + lo
    } else {
        h * p - lo
    };
    let m = if same {
        h + b
    } else {
        h - b
    };
    // The truncated operand is small beside the other one.
    assert(k <= lo) by (nonlinear_arith)
        requires
            lo as int == p * k + rem,
            rem >= 0,
            p >= 2,
            k >= 0,
    ;
    lemma_pow2_unfold(125);
    lemma_pow2_unfold(124);
    lemma_pow2_unfold(123);
    lemma_pow2_pos(122);
    assert(k >= 0) by {
        lemma_div_pos_is_pos(lo as int, p);
    }
    assert(b < hi);
    // The integer part of the sum at `base`, and what is left over.
    let whole = if same {
        h + k
    } else if rem == 0 {
        h - k
    } else {
        h - k - 1
    };
    let rest = if same || rem == 0 {
        rem
    } else {
        p - rem
    };
    assert(v == p * whole + rest) by (nonlinear_arith)
        requires
            lo as int == p * k + rem,
            v == (if same {
                h * p + lo
            } else {
                h * p - lo
            }),
            whole == (if same {
                h + k
            } else if rem == 0 {
                h - k
            } else {
                h - k - 1
            }),
            rest == (if same || rem == 0 {
                rem
            } else {
                p - rem
            }),
    ;
    lemma_mul_is_commutative(p, whole);
    lemma_fundamental_div_mod_converse(v, p, whole, rest);
    wide::lemma_pow2_monotone(61, 122);
    assert(v > 0) by (nonlinear_arith)
        requires
            v == p * whole + rest,
            whole > 0,
            rest >= 0,
            p > 0,
    ;
    let x = exact::dyadic(v as nat, e);
    exact::lemma_dyadic_at(v as nat, e, base);
    assert(m == exact::jam(x.floor_at(base), !x.exact_at(base)));
    assert forall|f: Fmt, rm: Rm| f.valid() implies #[trigger] exact::rounded(
        f,
        sign,
        exact::dyadic(m as nat, base),
        rm,
    ) == exact::rounded(f, sign, x, rm) by {
        wide::lemma_pow2_monotone((f.sig + 2) as nat, 122);
        lemma_rounded_jam(f, sign, x, base, rm);
    }
}

/// Adds two exactly-represented signed values, keeping enough low bits that
/// the sum can still be rounded correctly.
///
/// The common exponent is placed 126 bits below the more significant
/// operand's leading bit, as deep as a `u128` can carry a sum. The depth is
/// measured from the leading bit rather than from the exponent, because `e`
/// is the weight of the *lowest* bit: a wide operand like a double-precision
/// product sits far lower than its magnitude suggests.
///
/// With the budget measured this way, bits are discarded only from an operand
/// far smaller than the other. Two such operands cannot cancel, so the sum
/// keeps the larger one's leading bits.
fn add_raw(sa: bool, ma: u128, ea: i32, sb: bool, mb: u128, eb: i32) -> (r: (bool, u128, i32))
    requires
        0 < ma < pow2(122),
        0 < mb < pow2(122),
        -0x200_0000 <= ea <= 0x200_0000,
        -0x200_0000 <= eb <= 0x200_0000,
    ensures
        -0x300_0000 <= r.2 <= 0x300_0000,
        stands_for(
            r.0,
            r.1 as nat,
            r.2 as int,
            exact_sum(sa, ma as nat, ea as int, sb, mb as nat, eb as int),
            low_e(ea as int, eb as int),
        ),
{
    let la = bit_len(ma);
    let lb = bit_len(mb);
    let ta: i32 = ea + la as i32;
    let tb: i32 = eb + lb as i32;
    let top: i32 = if ta > tb {
        ta
    } else {
        tb
    };
    let base: i32 = top - 126;
    proof {
        lemma_scaled_bounds(ma as nat, ea as int, la as nat, top as int);
        lemma_scaled_bounds(mb as nat, eb as int, lb as nat, top as int);
        wide::lemma_pow2_fits(126);
        lemma_pow2_unfold(127);
    }
    let a = scale(ma, ea, base);
    let b = scale(mb, eb, base);
    let ghost v = exact_sum(sa, ma as nat, ea as int, sb, mb as nat, eb as int);
    let ghost low = low_e(ea as int, eb as int);
    proof {
        lemma_scaled_fit(ma as nat, ea as int, base as int);
        lemma_scaled_fit(mb as nat, eb as int, base as int);
    }
    let r = if sa == sb {
        (sa, a + b, base)
    } else if a >= b {
        (sa, a - b, base)
    } else {
        (sb, b - a, base)
    };
    proof {
        if ea >= base && eb >= base {
            lemma_sum_exact(sa, ma as nat, ea as int, sb, mb as nat, eb as int, base as int);
            let total = with_sign(sa, a as nat) + with_sign(sb, b as nat);
            if r.1 > 0 {
                if base <= low {
                    let k = (low - base) as nat;
                    lemma_pow2_pos(k);
                    assert(v != 0 && (v < 0 <==> total < 0) && abs(v) * pow2(k) == r.1)
                        by (nonlinear_arith)
                        requires
                            v * pow2(k) == total,
                            total != 0,
                            abs(total) == r.1,
                            pow2(k) > 0,
                    ;
                    lemma2_to64();
                    lemma_mul_basics(r.1 as int);
                    lemma_same_value(r.0, r.1 as nat, base as int, abs(v), low, base as int);
                }
            } else {
                let k = (low - base) as nat;
                lemma_pow2_pos(k);
                assert(v == 0) by (nonlinear_arith)
                    requires
                        v * pow2(k) == 0,
                        pow2(k) > 0,
                ;
            }
        } else if eb < base {
            let d = (base - eb) as nat;
            lemma_pow2_adds((ea - base) as nat, d);
            let x = ma as int;
            let y = pow2((ea - base) as nat) as int;
            let z = pow2(d) as int;
            assert(x * (y * z) == (x * y) * z) by (nonlinear_arith);
            lemma2_to64();
            lemma_mul_basics(mb as int);
            lemma_sum_truncated(sa == sb, sa, a as nat, mb as nat, eb as int, base as int);
        } else {
            let d = (base - ea) as nat;
            lemma_pow2_adds((eb - base) as nat, d);
            let x = mb as int;
            let y = pow2((eb - base) as nat) as int;
            let z = pow2(d) as int;
            assert(x * (y * z) == (x * y) * z) by (nonlinear_arith);
            lemma2_to64();
            lemma_mul_basics(ma as int);
            lemma_sum_truncated(sa == sb, sb, b as nat, ma as nat, ea as int, base as int);
        }
    }
    r
}

/// What an operand of `add_raw` looks like in units of `2^(top - 126)`.
proof fn lemma_scaled_bounds(m: nat, e: int, len: nat, top: int)
    requires
        0 < m < pow2(122),
        len > 0,
        pow2((len - 1) as nat) <= m < pow2(len),
        e + len <= top,
    ensures
        len <= 122,
        e >= top - 126 ==> e - (top - 126) < 126 && m * pow2((e - (top - 126)) as nat) < pow2(126),
        e >= top - 126 && e + len == top ==> m * pow2((e - (top - 126)) as nat) >= pow2(125) && (m
            * pow2((e - (top - 126)) as nat)) % 2 == 0,
        e + len == top ==> e >= top - 126,
{
    if len > 122 {
        wide::lemma_pow2_monotone(122, (len - 1) as nat);
    }
    if e >= top - 126 {
        let k = (e - (top - 126)) as nat;
        lemma_pow2_pos(k);
        lemma_mul_strict_inequality(m as int, pow2(len) as int, pow2(k) as int);
        lemma_pow2_adds(len, k);
        wide::lemma_pow2_monotone(len + k, 126);
        if e + len == top {
            lemma_pow2_adds((len - 1) as nat, k);
            lemma_mul_inequality(pow2((len - 1) as nat) as int, m as int, pow2(k) as int);
            lemma_pow2_unfold(k);
            let a = m as int;
            let b = pow2((k - 1) as nat) as int;
            assert(a * (2 * b) == 2 * (a * b)) by (nonlinear_arith);
        }
    }
}

/// A truncated operand keeps its place among the small ones.
proof fn lemma_scaled_fit(m: nat, e: int, base: int)
    requires
        m < pow2(122),
    ensures
        e < base ==> exact::jam(
            m / pow2((base - e) as nat),
            m % pow2((base - e) as nat) != 0,
        ) < pow2(125),
{
    if e < base {
        let d = (base - e) as nat;
        lemma_pow2_pos(d);
        lemma_div_is_ordered_by_denominator(m as int, 1, pow2(d) as int);
        lemma_div_basics(m as int);
        lemma_pow2_unfold(125);
        lemma_pow2_unfold(124);
        lemma_pow2_unfold(123);
        lemma_pow2_pos(122);
    }
}

/// Two operands that both fit above `base` sum to the exact sum there.
proof fn lemma_sum_exact(sa: bool, ma: nat, ea: int, sb: bool, mb: nat, eb: int, base: int)
    requires
        ea >= base,
        eb >= base,
    ensures
        exact_sum(sa, ma, ea, sb, mb, eb) * pow2((low_e(ea, eb) - base) as nat) == with_sign(
            sa,
            ma * pow2((ea - base) as nat),
        ) + with_sign(sb, mb * pow2((eb - base) as nat)),
{
    let low = low_e(ea, eb);
    let k = (low - base) as nat;
    lemma_pow2_adds((ea - low) as nat, k);
    lemma_pow2_adds((eb - low) as nat, k);
    let pa = pow2((ea - low) as nat) as int;
    let pb = pow2((eb - low) as nat) as int;
    let pk = pow2(k) as int;
    let na = ma as int;
    let nb = mb as int;
    assert(na * (pa * pk) == (na * pa) * pk) by (nonlinear_arith);
    assert(nb * (pb * pk) == (nb * pb) * pk) by (nonlinear_arith);
    let x = with_sign(sa, ma * pow2((ea - low) as nat));
    let y = with_sign(sb, mb * pow2((eb - low) as nat));
    assert((x + y) * pk == x * pk + y * pk) by (nonlinear_arith);
    assert((-(na * pa)) * pk == -((na * pa) * pk)) by (nonlinear_arith);
    assert((-(nb * pb)) * pk == -((nb * pb) * pk)) by (nonlinear_arith);
}

/// The sign of an exact zero, which only the rounding mode decides: summing
/// two values that cancel gives +0 except when rounding towards -infinity.
fn zero_sign(rm: Rm) -> (r: bool)
    ensures
        r == (rm == Rm::Rdn),
{
    rm == Rm::Rdn
}

/// What an operation gives whose inputs made it meaningless.
pub open spec fn spec_invalid(f: Fmt) -> (u64, u32) {
    (f.spec_nan(), NV)
}

fn invalid(f: Fmt) -> (r: (u64, u32))
    requires
        f.valid(),
    ensures
        r == spec_invalid(f),
{
    (f.nan(), NV)
}

/// What NaN operands give: the canonical NaN, with the invalid flag set only
/// if one of them was signalling. A quiet NaN flowing through an operation is
/// not itself an exception.
pub open spec fn spec_nan_result(f: Fmt, signalling: bool) -> (u64, u32) {
    (
        f.spec_nan(),
        if signalling {
            NV
        } else {
            0
        },
    )
}

fn nan_result(f: Fmt, signalling: bool) -> (r: (u64, u32))
    requires
        f.valid(),
    ensures
        r == spec_nan_result(f, signalling),
{
    (
        f.nan(),
        if signalling {
            NV
        } else {
            0
        },
    )
}

/// Trimming a register down to a format keeps its sign and its magnitude.
proof fn lemma_trimmed(f: Fmt, x: u64)
    requires
        f.valid(),
    ensures
        x as nat % pow2(f.bits as nat) == f.spec_signed(f.sign_of(x), f.magnitude_of(x)),
        x as nat % pow2(f.bits as nat) <= u64::MAX,
{
    f.lemma_sizes();
    lemma_fields(f, x);
    let top = pow2((f.bits - 1) as nat) as int;
    let v = x as int % pow2(f.bits as nat) as int;
    lemma_fundamental_div_mod(v, top);
    lemma_mod_bound(x as int, pow2(f.bits as nat) as int);
    lemma_mul_basics(top);
}

/// `a + b`, or `a - b`: exact, and rounded once.
pub open spec fn spec_sum(f: Fmt, a: u64, b: u64, rm: Rm, negate_b: bool) -> (u64, u32) {
    let sa = f.sign_of(a);
    let sb = f.sign_of(b) != negate_b;
    if f.is_nan(a) || f.is_nan(b) {
        spec_nan_result(f, f.is_snan(a) || f.is_snan(b))
    } else if f.is_inf(a) && f.is_inf(b) && sa != sb {
        spec_invalid(f)
    } else if f.is_inf(a) {
        (f.spec_inf(sa), 0)
    } else if f.is_inf(b) {
        (f.spec_inf(sb), 0)
    } else {
        match (spec_unpack(f, a).1, spec_unpack(f, b).1) {
            (Cls::Num { m: ma, e: ea }, Cls::Num { m: mb, e: eb }) => rounded_sum(
                f,
                sa,
                ma as nat,
                ea as int,
                sb,
                mb as nat,
                eb as int,
                rm,
            ),
            (Cls::Num { .. }, _) => (f.spec_signed(sa, f.magnitude_of(a)), 0),
            (_, Cls::Num { .. }) => (f.spec_signed(sb, f.magnitude_of(b)), 0),
            _ => (
                f.spec_zero(
                    if sa == sb {
                        sa
                    } else {
                        rm == Rm::Rdn
                    },
                ),
                0,
            ),
        }
    }
}

pub fn add(f: Fmt, a: u64, b: u64, rm: Rm) -> (r: (u64, u32))
    requires
        f.valid(),
    ensures
        r == spec_sum(f, a, b, rm, false),
{
    add_or_sub(f, a, b, rm, false)
}

pub fn sub(f: Fmt, a: u64, b: u64, rm: Rm) -> (r: (u64, u32))
    requires
        f.valid(),
    ensures
        r == spec_sum(f, a, b, rm, true),
{
    add_or_sub(f, a, b, rm, true)
}

fn add_or_sub(f: Fmt, a: u64, b: u64, rm: Rm, negate_b: bool) -> (r: (u64, u32))
    requires
        f.valid(),
    ensures
        r == spec_sum(f, a, b, rm, negate_b),
{
    let (sa, ca) = unpack(f, a);
    let (sb, cb) = unpack(f, b);
    let sb = sb != negate_b;
    proof {
        f.lemma_sizes();
        lemma_fields(f, a);
        lemma_fields(f, b);
        lemma_trimmed(f, a);
        wide::lemma_pow2_monotone((f.sig + 1) as nat, 122);
        lemma_pow2_pos(f.sig as nat);
    }
    if is_nan(ca) || is_nan(cb) {
        return nan_result(f, is_snan(ca) || is_snan(cb));
    }
    match (ca, cb) {
        (Cls::Inf, Cls::Inf) => {
            // Infinities of opposite sign have no defined difference.
            if sa != sb {
                invalid(f)
            } else {
                (f.inf(sa), 0)
            }
        },
        (Cls::Inf, _) => (f.inf(sa), 0),
        (_, Cls::Inf) => (f.inf(sb), 0),
        (Cls::Zero, Cls::Zero) => {
            let sign = if sa == sb {
                sa
            } else {
                zero_sign(rm)
            };
            (f.zero(sign), 0)
        },
        (Cls::Num { m: ma, e: ea }, Cls::Num { m: mb, e: eb }) => {
            let (sign, m, e) = add_raw(sa, ma, ea, sb, mb, eb);
            if m == 0 {
                return (f.zero(zero_sign(rm)), 0);
            }
            round_pack(f, sign, m, e, rm)
        },
        (Cls::Zero, _) => (f.signed(sb, low64(b, f.bits - 1)), 0),
        _ => (low64(a, f.bits), 0),
    }
}

/// `a * b`: exact, and rounded once.
pub open spec fn spec_mul(f: Fmt, a: u64, b: u64, rm: Rm) -> (u64, u32) {
    let sign = f.sign_of(a) != f.sign_of(b);
    if f.is_nan(a) || f.is_nan(b) {
        spec_nan_result(f, f.is_snan(a) || f.is_snan(b))
    } else if (f.is_inf(a) && f.is_zero(b)) || (f.is_zero(a) && f.is_inf(b)) {
        spec_invalid(f)
    } else if f.is_inf(a) || f.is_inf(b) {
        (f.spec_inf(sign), 0)
    } else {
        match (spec_unpack(f, a).1, spec_unpack(f, b).1) {
            (Cls::Num { m: ma, e: ea }, Cls::Num { m: mb, e: eb }) => exact::rounded(
                f,
                sign,
                exact::dyadic((ma * mb) as nat, ea + eb),
                rm,
            ),
            _ => (f.spec_zero(sign), 0),
        }
    }
}

proof fn lemma_product(f: Fmt, a: u128, b: u128)
    requires
        f.valid(),
        pow2(f.sig as nat) <= a < pow2((f.sig + 1) as nat),
        pow2(f.sig as nat) <= b < pow2((f.sig + 1) as nat),
    ensures
        0 < a * b < pow2(122),
        pow2(122) <= u128::MAX,
{
    f.lemma_sizes();
    wide::lemma_pow2_fits(122);
    let w = pow2((f.sig + 1) as nat) as int;
    lemma_pow2_adds((f.sig + 1) as nat, (f.sig + 1) as nat);
    wide::lemma_pow2_monotone((2 * f.sig + 2) as nat, 122);
    assert(0 < a * b < w * w) by (nonlinear_arith)
        requires
            0 < a < w,
            0 < b < w,
    ;
}

pub fn mul(f: Fmt, a: u64, b: u64, rm: Rm) -> (r: (u64, u32))
    requires
        f.valid(),
    ensures
        r == spec_mul(f, a, b, rm),
{
    let (sa, ca) = unpack(f, a);
    let (sb, cb) = unpack(f, b);
    proof {
        f.lemma_sizes();
    }
    if is_nan(ca) || is_nan(cb) {
        return nan_result(f, is_snan(ca) || is_snan(cb));
    }
    let sign = sa != sb;
    match (ca, cb) {
        // Zero times infinity is the classic invalid case: no finite or
        // infinite answer is defensible.
        (Cls::Inf, Cls::Zero) => invalid(f),
        (Cls::Zero, Cls::Inf) => invalid(f),
        (Cls::Inf, _) => (f.inf(sign), 0),
        (_, Cls::Inf) => (f.inf(sign), 0),
        (Cls::Num { m: ma, e: ea }, Cls::Num { m: mb, e: eb }) => {
            proof {
                lemma_product(f, ma, mb);
            }
            round_pack(f, sign, ma * mb, ea + eb, rm)
        },
        _ => (f.zero(sign), 0),
    }
}

/// `a / b`: exact, and rounded once.
pub open spec fn spec_div(f: Fmt, a: u64, b: u64, rm: Rm) -> (u64, u32) {
    let sign = f.sign_of(a) != f.sign_of(b);
    if f.is_nan(a) || f.is_nan(b) {
        spec_nan_result(f, f.is_snan(a) || f.is_snan(b))
    } else if (f.is_inf(a) && f.is_inf(b)) || (f.is_zero(a) && f.is_zero(b)) {
        spec_invalid(f)
    } else if f.is_inf(a) {
        (f.spec_inf(sign), 0)
    } else if f.is_inf(b) || f.is_zero(a) {
        (f.spec_zero(sign), 0)
    } else if f.is_zero(b) {
        (f.spec_inf(sign), DZ)
    } else {
        match (spec_unpack(f, a).1, spec_unpack(f, b).1) {
            (Cls::Num { m: ma, e: ea }, Cls::Num { m: mb, e: eb }) => exact::rounded(
                f,
                sign,
                Exact::Ratio { n: ma as nat, d: mb as nat, e: ea - eb },
                rm,
            ),
            _ => spec_invalid(f),
        }
    }
}

pub fn div(f: Fmt, a: u64, b: u64, rm: Rm) -> (r: (u64, u32))
    requires
        f.valid(),
    ensures
        r == spec_div(f, a, b, rm),
{
    let (sa, ca) = unpack(f, a);
    let (sb, cb) = unpack(f, b);
    proof {
        f.lemma_sizes();
    }
    if is_nan(ca) || is_nan(cb) {
        return nan_result(f, is_snan(ca) || is_snan(cb));
    }
    let sign = sa != sb;
    match (ca, cb) {
        (Cls::Inf, Cls::Inf) => invalid(f),
        (Cls::Zero, Cls::Zero) => invalid(f),
        (Cls::Inf, _) => (f.inf(sign), 0),
        (_, Cls::Inf) => (f.zero(sign), 0),
        // A finite non-zero over zero is the one case that raises
        // divide-by-zero rather than invalid: infinity is the right answer.
        (_, Cls::Zero) => (f.inf(sign), DZ),
        (Cls::Num { m: ma, e: ea }, Cls::Num { m: mb, e: eb }) => {
            // Both significands are normalised, so shifting the dividend up
            // by 64 yields at least 63 quotient bits whatever the operands.
            proof {
                lemma2_to64();
                wide::lemma_pow2_fits(64);
                let w = pow2(f.sig as nat) as int;
                assert(ma as int * pow2(64) as int <= u128::MAX) by (nonlinear_arith)
                    requires
                        ma <= 0x1000_0000_0000_0000,
                        pow2(64) == 0x1_0000_0000_0000_0000,
                ;
            }
            let num = shl128(ma, 64);
            let q = num / mb;
            let lost = num % mb != 0;
            let ghost x = Exact::Ratio { n: ma as nat, d: mb as nat, e: ea - eb };
            let ghost t = ea - eb - 64;
            proof {
                lemma_mul_basics(mb as int);
                assert(x.num_at(t) == num);
                assert(x.den_at(t) == mb);
                lemma_quotient_bits(f, ma as nat, mb as nat);
                lemma_pow2_pos((f.sig + 2) as nat);
                lemma_rounded_jam(f, sign, x, t, rm);
                wide::lemma_pow2_fits(127);
                lemma_div_is_ordered_by_denominator(num as int, 1, mb as int);
                lemma_div_basics(num as int);
                assert(num < u128::MAX) by (nonlinear_arith)
                    requires
                        num == ma as int * pow2(64) as int,
                        ma <= 0x1000_0000_0000_0000,
                        pow2(64) == 0x1_0000_0000_0000_0000,
                ;
            }
            let q: u128 = if lost && q % 2 == 0 {
                q + 1
            } else {
                q
            };
            round_pack(f, sign, q, ea - eb - 64, rm)
        },
        _ => (f.zero(sign), 0),
    }
}

/// A quotient of normalised significands has bits to spare.
proof fn lemma_quotient_bits(f: Fmt, a: nat, b: nat)
    requires
        f.valid(),
        pow2(f.sig as nat) <= a < pow2((f.sig + 1) as nat),
        pow2(f.sig as nat) <= b < pow2((f.sig + 1) as nat),
    ensures
        (a * pow2(64)) / b >= pow2((f.sig + 2) as nat),
{
    f.lemma_sizes();
    let w = pow2(f.sig as nat) as int;
    let h = pow2((f.sig + 2) as nat) as int;
    wide::lemma_pow2_monotone((f.sig + 2) as nat, 61);
    lemma2_to64();
    lemma2_to64_rest();
    assert(a * pow2(64) >= h * b) by (nonlinear_arith)
        requires
            a >= w,
            b < 2 * w,
            w > 0,
            0 <= h <= 0x2000_0000_0000_0000,
            pow2(64) == 0x1_0000_0000_0000_0000,
    ;
    lemma_div_is_ordered(h * b, (a * pow2(64)) as int, b as int);
    lemma_div_by_multiple(h, b as int);
}

/// The square root of `a`: exact, and rounded once. Negative zero is the one
/// negative input with a defined root.
pub open spec fn spec_sqrt(f: Fmt, a: u64, rm: Rm) -> (u64, u32) {
    let sign = f.sign_of(a);
    if f.is_nan(a) {
        spec_nan_result(f, f.is_snan(a))
    } else if f.is_zero(a) {
        (f.spec_zero(sign), 0)
    } else if sign {
        spec_invalid(f)
    } else {
        match spec_unpack(f, a).1 {
            Cls::Num { m, e } => exact::rounded(
                f,
                false,
                Exact::Root { m: m as nat, e: e as int },
                rm,
            ),
            _ => (f.spec_inf(false), 0),
        }
    }
}

pub fn sqrt(f: Fmt, a: u64, rm: Rm) -> (r: (u64, u32))
    requires
        f.valid(),
    ensures
        r == spec_sqrt(f, a, rm),
{
    let (sign, ca) = unpack(f, a);
    proof {
        f.lemma_sizes();
    }
    if is_nan(ca) {
        return nan_result(f, is_snan(ca));
    }
    match ca {
        Cls::Nan { .. } => invalid(f),
        Cls::Zero => (f.zero(sign), 0),
        Cls::Inf => {
            if sign {
                invalid(f)
            } else {
                (f.inf(false), 0)
            }
        },
        Cls::Num { m, e } => {
            if sign {
                return invalid(f);
            }
            // Halving the exponent needs it even, and the radicand needs
            // twice the working precision the root does.
            let biased: u32 = (e + 0x100_0000) as u32;
            let shift: u32 = if biased % 2 == 0 {
                64
            } else {
                65
            };
            let t: i32 = ((biased - shift) / 2) as i32 - 0x80_0000;
            proof {
                assert(e - 2 * t == shift);
                lemma_radicand(f, m as nat, shift as nat);
            }
            let radicand = shl128(m, shift);
            let root = isqrt(radicand);
            let ghost x = Exact::Root { m: m as nat, e: e as int };
            proof {
                assert(x.num_at(t as int) == radicand);
                assert(x.den_at(t as int) == 1);
                lemma_mul_basics((root * root) as int);
                lemma_mul_basics(((root + 1) * (root + 1)) as int);
                exact::lemma_floor_root_unique(radicand as nat, 1, root as nat);
                lemma_root_bits(f, radicand as nat, root as nat);
                lemma_pow2_pos((f.sig + 2) as nat);
                lemma_rounded_jam(f, false, x, t as int, rm);
            }
            let lost = root * root != radicand;
            let root: u128 = if lost && root % 2 == 0 {
                root + 1
            } else {
                root
            };
            round_pack(f, false, root, t, rm)
        },
    }
}

proof fn lemma_radicand(f: Fmt, m: nat, shift: nat)
    requires
        f.valid(),
        pow2(f.sig as nat) <= m < pow2((f.sig + 1) as nat),
        64 <= shift <= 65,
    ensures
        pow2((f.sig + 64) as nat) <= m * pow2(shift) < pow2(126),
        pow2(126) <= u128::MAX,
{
    lemma_pow2_adds(f.sig as nat, shift);
    lemma_pow2_adds((f.sig + 1) as nat, shift);
    lemma_pow2_pos(shift);
    lemma_mul_inequality(pow2(f.sig as nat) as int, m as int, pow2(shift) as int);
    lemma_mul_strict_inequality(m as int, pow2((f.sig + 1) as nat) as int, pow2(shift) as int);
    wide::lemma_pow2_monotone((f.sig + 64) as nat, f.sig as nat + shift);
    wide::lemma_pow2_monotone((f.sig + 1) as nat + shift, 126);
    wide::lemma_pow2_fits(126);
}

/// A square root of a widened significand has bits to spare.
proof fn lemma_root_bits(f: Fmt, n: nat, r: nat)
    requires
        f.valid(),
        n >= pow2((f.sig + 64) as nat),
        r * r <= n < (r + 1) * (r + 1),
    ensures
        r >= pow2((f.sig + 2) as nat),
{
    let h = pow2((f.sig + 2) as nat) as int;
    lemma_pow2_adds((f.sig + 2) as nat, (f.sig + 2) as nat);
    wide::lemma_pow2_monotone((2 * f.sig + 4) as nat, (f.sig + 64) as nat);
    assert(r >= h) by (nonlinear_arith)
        requires
            h * h < (r + 1) * (r + 1),
            h >= 0,
            r >= 0,
    ;
}

/// Integer square root, truncated. Newton's iteration from an overestimate
/// converges downward and stops the first time it would rise.
fn isqrt(n: u128) -> (r: u128)
    requires
        n < pow2(126),
    ensures
        r * r <= n < (r + 1) * (r + 1),
        r < pow2(63),
        r * r <= u128::MAX,
{
    if n == 0 {
        proof {
            lemma_pow2_pos(63);
        }
        return 0;
    }
    let len = bit_len(n);
    let half: u32 = (len + 1) / 2;
    proof {
        wide::lemma_pow2_fits(126);
        lemma2_to64();
        lemma2_to64_rest();
        if len > 126 {
            wide::lemma_pow2_monotone(126, (len - 1) as nat);
        }
        wide::lemma_pow2_monotone(half as nat, 63);
        lemma_pow2_adds(63, 63);
        lemma_mul_basics(pow2(half as nat) as int);
        lemma_pow2_adds(half as nat, half as nat);
        wide::lemma_pow2_monotone(len as nat, (2 * half) as nat);
        lemma_pow2_pos(half as nat);
    }
    let mut x: u128 = shl128(1, half);
    proof {
        assert((n as int) < (x + 1) * (x + 1)) by (nonlinear_arith)
            requires
                (n as int) < x * x,
                x >= 0,
        ;
    }
    loop
        invariant
            0 < n < pow2(126),
            0 < x <= 0x8000_0000_0000_0000,
            (n as int) < (x + 1) * (x + 1),
            pow2(126) <= u128::MAX,
            pow2(126) == pow2(63) * pow2(63),
            pow2(63) == 0x8000_0000_0000_0000,
        decreases x,
    {
        let q = n / x;
        proof {
            lemma_div_is_ordered_by_denominator(n as int, 1, x as int);
            lemma_div_basics(n as int);
            lemma_fundamental_div_mod(n as int, x as int);
            lemma_mod_bound(n as int, x as int);
            assert(pow2(126) == 0x4000_0000_0000_0000_0000_0000_0000_0000) by (nonlinear_arith)
                requires
                    pow2(126) == pow2(63) * pow2(63),
                    pow2(63) == 0x8000_0000_0000_0000,
            ;
        }
        let next = (x + q) / 2;
        if next >= x {
            proof {
                assert(x * x <= n) by (nonlinear_arith)
                    requires
                        n as int == x as int * q as int + n as int % x as int,
                        n as int % x as int >= 0,
                        q >= x,
                        x > 0,
                ;
                assert(x < pow2(63)) by (nonlinear_arith)
                    requires
                        x * x <= n,
                        n < pow2(63) * pow2(63),
                        pow2(63) >= 0,
                        x >= 0,
                ;
            }
            return x;
        }
        proof {
            if x == 1 {
                assert(q == n) by {
                    lemma_div_basics(n as int);
                }
            }
            assert(x as int * (q as int + 1) == x as int * q as int + x as int)
                by (nonlinear_arith);
            lemma_newton_step(n as int, x as int, q as int, next as int);
        }
        x = next;
    }
}

/// A Newton step stays at or above the root.
proof fn lemma_newton_step(n: int, x: int, q: int, next: int)
    requires
        x > 0,
        q >= 0,
        n < x * (q + 1),
        x + q <= 2 * next + 1,
        next >= 0,
    ensures
        n < (next + 1) * (next + 1),
{
    let s = x + q + 1;
    assert(4 * (x * (q + 1)) <= s * s) by (nonlinear_arith)
        requires
            s == x + (q + 1),
    ;
    assert(s * s <= 4 * ((next + 1) * (next + 1))) by (nonlinear_arith)
        requires
            0 <= s <= 2 * (next + 1),
    ;
}

/// `(a * b) + c` with the product and the addend optionally negated: exact,
/// and rounded once. Multiplying zero by infinity is invalid even when the
/// addend is a NaN that would have decided the result anyway.
pub open spec fn spec_fma(
    f: Fmt,
    a: u64,
    b: u64,
    c: u64,
    negate_product: bool,
    negate_addend: bool,
    rm: Rm,
) -> (u64, u32) {
    let sp = (f.sign_of(a) != f.sign_of(b)) != negate_product;
    let sc = f.sign_of(c) != negate_addend;
    let product_inf = f.is_inf(a) || f.is_inf(b);
    if (f.is_inf(a) && f.is_zero(b)) || (f.is_zero(a) && f.is_inf(b)) {
        spec_invalid(f)
    } else if f.is_nan(a) || f.is_nan(b) || f.is_nan(c) {
        spec_nan_result(f, f.is_snan(a) || f.is_snan(b) || f.is_snan(c))
    } else if product_inf && f.is_inf(c) && sp != sc {
        spec_invalid(f)
    } else if product_inf {
        (f.spec_inf(sp), 0)
    } else if f.is_inf(c) {
        (f.spec_inf(sc), 0)
    } else {
        match (spec_unpack(f, a).1, spec_unpack(f, b).1, spec_unpack(f, c).1) {
            (
                Cls::Num { m: ma, e: ea },
                Cls::Num { m: mb, e: eb },
                Cls::Num { m: mc, e: ec },
            ) => rounded_sum(
                f,
                sp,
                (ma * mb) as nat,
                ea + eb,
                sc,
                mc as nat,
                ec as int,
                rm,
            ),
            (Cls::Num { m: ma, e: ea }, Cls::Num { m: mb, e: eb }, _) => exact::rounded(
                f,
                sp,
                exact::dyadic((ma * mb) as nat, ea + eb),
                rm,
            ),
            // A zero product leaves the addend, which is already rounded.
            (_, _, Cls::Num { .. }) => (f.spec_signed(sc, f.magnitude_of(c)), 0),
            _ => (
                f.spec_zero(
                    if sp == sc {
                        sp
                    } else {
                        rm == Rm::Rdn
                    },
                ),
                0,
            ),
        }
    }
}

/// The fused multiply-add family: `(a * b) + c` with one rounding, with the
/// product and the addend optionally negated to cover all four instructions.
pub fn fma(
    f: Fmt,
    a: u64,
    b: u64,
    c: u64,
    negate_product: bool,
    negate_addend: bool,
    rm: Rm,
) -> (r: (u64, u32))
    requires
        f.valid(),
    ensures
        r == spec_fma(f, a, b, c, negate_product, negate_addend, rm),
{
    let (sa, ca) = unpack(f, a);
    let (sb, cb) = unpack(f, b);
    let (sc, cc) = unpack(f, c);
    let sc = sc != negate_addend;
    let sp = (sa != sb) != negate_product;
    proof {
        f.lemma_sizes();
        lemma_fields(f, c);
        wide::lemma_pow2_monotone((f.sig + 1) as nat, 122);
    }

    let product_invalid = (matches!(ca, Cls::Inf) && matches!(cb, Cls::Zero)) || (matches!(
        ca,
        Cls::Zero
    ) && matches!(cb, Cls::Inf));
    if product_invalid {
        return invalid(f);
    }
    if is_nan(ca) || is_nan(cb) || is_nan(cc) {
        return nan_result(f, is_snan(ca) || is_snan(cb) || is_snan(cc));
    }
    let product_inf = matches!(ca, Cls::Inf) || matches!(cb, Cls::Inf);
    if product_inf {
        // An infinite product plus the opposite infinity is invalid; against
        // anything else the infinity wins.
        if matches!(cc, Cls::Inf) && sc != sp {
            return invalid(f);
        }
        return (f.inf(sp), 0);
    }
    if matches!(cc, Cls::Inf) {
        return (f.inf(sc), 0);
    }
    match (ca, cb) {
        (Cls::Num { m: ma, e: ea }, Cls::Num { m: mb, e: eb }) => {
            proof {
                lemma_product(f, ma, mb);
            }
            let m = ma * mb;
            let e = ea + eb;
            match cc {
                Cls::Num { m: mc, e: ec } => {
                    let (sign, m, e) = add_raw(sp, m, e, sc, mc, ec);
                    if m == 0 {
                        return (f.zero(zero_sign(rm)), 0);
                    }
                    round_pack(f, sign, m, e, rm)
                },
                _ => round_pack(f, sp, m, e, rm),
            }
        },
        _ => match cc {
            Cls::Zero => {
                let sign = if sp == sc {
                    sp
                } else {
                    zero_sign(rm)
                };
                (f.zero(sign), 0)
            },
            _ => (f.signed(sc, low64(c, f.bits - 1)), 0),
        },
    }
}

/// `a`, read in one format and rounded once into another.
pub open spec fn spec_convert(from: Fmt, to: Fmt, a: u64, rm: Rm) -> (u64, u32) {
    let (sign, c) = spec_unpack(from, a);
    match c {
        Cls::Nan { signalling } => spec_nan_result(to, signalling),
        Cls::Inf => (to.spec_inf(sign), 0),
        Cls::Zero => (to.spec_zero(sign), 0),
        Cls::Num { m, e } => exact::rounded(to, sign, exact::dyadic(m as nat, e as int), rm),
    }
}

/// Converts between the two precisions.
pub fn convert(from: Fmt, to: Fmt, a: u64, rm: Rm) -> (r: (u64, u32))
    requires
        from.valid(),
        to.valid(),
    ensures
        r == spec_convert(from, to, a, rm),
{
    let (sign, c) = unpack(from, a);
    match c {
        Cls::Nan { signalling } => nan_result(to, signalling),
        Cls::Inf => (to.inf(sign), 0),
        Cls::Zero => (to.zero(sign), 0),
        Cls::Num { m, e } => {
            proof {
                from.lemma_sizes();
            }
            round_pack(to, sign, m, e, rm)
        },
    }
}

/// Rounds `m * 2^e` to an integer magnitude, reporting whether anything was
/// lost. `sign` only matters because the directed modes are asymmetric.
fn round_to_int(m: u128, e: i32, sign: bool, rm: Rm) -> (r: (u128, bool))
    requires
        m < pow2(122),
        e >= 0 ==> e < 128 && m * pow2(e as nat) <= u128::MAX,
        e >= -0x81_0000,
    ensures
        r.0 == exact::rounded_at(exact::dyadic(m as nat, e as int), 0, sign, rm).0,
        r.1 == exact::rounded_at(exact::dyadic(m as nat, e as int), 0, sign, rm).1,
{
    proof {
        exact::lemma_dyadic_at(m as nat, e as int, -1);
    }
    if e >= 0 {
        proof {
            lemma_pow2_unfold((e + 1) as nat);
            let a = m as int;
            let b = pow2(e as nat) as int;
            assert(a * (2 * b) == 2 * (a * b)) by (nonlinear_arith);
        }
        return (shl128(m, e as u32), false);
    }
    let d: u32 = (-e) as u32;
    let (half, sticky): (u128, bool) = if d > 128 {
        proof {
            wide::lemma_pow2_monotone(122, (d - 1) as nat);
            lemma_basic_div(m as int, pow2((d - 1) as nat) as int);
            lemma_small_mod(m as nat, pow2((d - 1) as nat));
        }
        (0, m != 0)
    } else {
        (shr128(m, d - 1), low128(m, d - 1) != 0)
    };
    let q = half / 2;
    let guard = half % 2 != 0;
    let inexact = guard || sticky;
    let round_up = match rm {
        Rm::Rne => guard && (sticky || q % 2 == 1),
        Rm::Rtz => false,
        Rm::Rdn => sign && inexact,
        Rm::Rup => !sign && inexact,
        Rm::Rmm => guard,
    };
    if round_up {
        (q + 1, inexact)
    } else {
        (q, inexact)
    }
}

/// The largest magnitude an integer of `width` bits has on the given side of
/// zero.
pub open spec fn int_limit(width: u32, signed: bool, neg: bool) -> nat {
    if !signed {
        if neg {
            0
        } else {
            (pow2(width as nat) - 1) as nat
        }
    } else if neg {
        pow2((width - 1) as nat)
    } else {
        (pow2((width - 1) as nat) - 1) as nat
    }
}

/// An integer of the given sign and magnitude, in two's complement.
pub open spec fn spec_int_bits(neg: bool, magnitude: nat) -> u64 {
    (with_sign(neg, magnitude) % (u64::MAX + 1)) as u64
}

/// `a` as an integer of `width` bits: rounded once, or the nearest integer
/// there is when it is out of range. A NaN converts to the largest positive
/// one.
pub open spec fn spec_to_int(f: Fmt, a: u64, width: u32, signed: bool, rm: Rm) -> (u64, u32) {
    let (sign, c) = spec_unpack(f, a);
    let limit = int_limit(width, signed, sign);
    match c {
        Cls::Nan { .. } => (spec_int_bits(false, int_limit(width, signed, false)), NV),
        Cls::Inf => (spec_int_bits(sign, limit), NV),
        Cls::Zero => (0, 0),
        Cls::Num { m, e } => {
            let (q, inexact) = exact::rounded_at(
                exact::dyadic(m as nat, e as int),
                0,
                sign,
                rm,
            );
            if q > limit {
                (spec_int_bits(sign, limit), NV)
            } else {
                (
                    spec_int_bits(sign, q),
                    if inexact {
                        NX
                    } else {
                        0
                    },
                )
            }
        },
    }
}

fn int_bits(neg: bool, magnitude: u64) -> (r: u64)
    ensures
        r == spec_int_bits(neg, magnitude as nat),
{
    if neg {
        proof {
            if magnitude > 0 {
                lemma_fundamental_div_mod_converse(
                    -(magnitude as int),
                    u64::MAX + 1,
                    -1,
                    u64::MAX + 1 - magnitude,
                );
            }
        }
        0u64.wrapping_sub(magnitude)
    } else {
        magnitude
    }
}

/// Converts a float to an integer of `width` bits.
///
/// An out-of-range value does not wrap: RISC-V returns the nearest
/// representable integer and raises invalid, and nothing else. An invalid
/// conversion never also reports inexact.
pub fn to_int(f: Fmt, a: u64, width: u32, signed: bool, rm: Rm) -> (r: (u64, u32))
    requires
        f.valid(),
        1 <= width <= 64,
    ensures
        r == spec_to_int(f, a, width, signed, rm),
{
    let (sign, c) = unpack(f, a);
    proof {
        f.lemma_sizes();
        wide::lemma_pow2_fits(width as nat);
        wide::lemma_pow2_fits((width - 1) as nat);
        wide::lemma_pow2_monotone(width as nat, 64);
        lemma_mul_basics(pow2((width - 1) as nat) as int);
        lemma_pow2_unfold(width as nat);
    }
    let half = shl64(1, width - 1);
    let pos: u64 = if signed {
        half - 1
    } else {
        half - 1 + half
    };
    let neg: u64 = if signed {
        half
    } else {
        0
    };
    let limit: u64 = if sign {
        neg
    } else {
        pos
    };
    match c {
        Cls::Nan { .. } => (int_bits(false, pos), NV),
        Cls::Inf => (int_bits(sign, limit), NV),
        Cls::Zero => (0, 0),
        Cls::Num { m, e } => {
            let len = bit_len(m);
            proof {
                wide::lemma_pow2_monotone((f.sig + 1) as nat, 122);
                wide::lemma_pow2_fits(127);
                if e >= 0 {
                    lemma_pow2_adds((len - 1) as nat, e as nat);
                    lemma_pow2_adds(len as nat, e as nat);
                    lemma_pow2_pos(e as nat);
                    lemma_mul_inequality(
                        pow2((len - 1) as nat) as int,
                        m as int,
                        pow2(e as nat) as int,
                    );
                    lemma_mul_strict_inequality(
                        m as int,
                        pow2(len as nat) as int,
                        pow2(e as nat) as int,
                    );
                }
            }
            // Shifting left past the width can only be out of range, and
            // would overflow the u128 on the way.
            if e >= 0 && len as i32 + e > 127 {
                proof {
                    wide::lemma_pow2_monotone(127, (len - 1 + e) as nat);
                    lemma_pow2_strictly_increases(64, 127);
                    exact::lemma_dyadic_at(m as nat, e as int, -1);
                    lemma_pow2_unfold((e + 1) as nat);
                    let a = m as int;
                    let b = pow2(e as nat) as int;
                    assert(a * (2 * b) == 2 * (a * b)) by (nonlinear_arith);
                }
                return (int_bits(sign, limit), NV);
            }
            proof {
                if e >= 0 {
                    wide::lemma_pow2_monotone((len + e) as nat, 127);
                    wide::lemma_pow2_monotone(len as nat, (len + e) as nat);
                }
            }
            let (q, inexact) = round_to_int(m, e, sign, rm);
            if q > limit as u128 {
                return (int_bits(sign, limit), NV);
            }
            (
                int_bits(sign, q as u64),
                if inexact {
                    NX
                } else {
                    0
                },
            )
        },
    }
}

/// An integer, given by its sign and magnitude, rounded once into `f`.
pub open spec fn spec_from_int(f: Fmt, sign: bool, magnitude: u64, rm: Rm) -> (u64, u32) {
    if magnitude == 0 {
        (f.spec_zero(sign), 0)
    } else {
        exact::rounded(f, sign, exact::dyadic(magnitude as nat, 0), rm)
    }
}

/// Converts an integer to a float. The caller has already split the value
/// into a sign and a magnitude, so one routine covers signed and unsigned.
pub fn from_int(f: Fmt, sign: bool, magnitude: u64, rm: Rm) -> (r: (u64, u32))
    requires
        f.valid(),
    ensures
        r == spec_from_int(f, sign, magnitude, rm),
{
    round_pack(f, sign, magnitude as u128, 0, rm)
}

/// Where a non-NaN encoding stands in the order of numbers. Both zeroes stand
/// at the same place.
pub open spec fn spec_key(f: Fmt, x: u64) -> int {
    with_sign(f.sign_of(x), f.magnitude_of(x))
}

/// Orders two non-NaN values. Sign-and-magnitude is monotone once the
/// magnitude of a negative is negated, and both zeroes map to the same key,
/// which is what makes `-0 == +0`.
fn key(f: Fmt, x: u64) -> (r: i64)
    requires
        f.valid(),
    ensures
        r == spec_key(f, x),
{
    let (sign, _) = unpack(f, x);
    proof {
        f.lemma_sizes();
        lemma_fields(f, x);
    }
    let magnitude = low64(x, f.bits - 1) as i64;
    if sign {
        -magnitude
    } else {
        magnitude
    }
}

pub open spec fn spec_eq(f: Fmt, a: u64, b: u64) -> (bool, u32) {
    if f.is_nan(a) || f.is_nan(b) {
        (
            false,
            if f.is_snan(a) || f.is_snan(b) {
                NV
            } else {
                0
            },
        )
    } else {
        (spec_key(f, a) == spec_key(f, b), 0)
    }
}

/// `feq`: quiet, so only a signalling NaN raises invalid.
pub fn eq(f: Fmt, a: u64, b: u64) -> (r: (bool, u32))
    requires
        f.valid(),
    ensures
        r == spec_eq(f, a, b),
{
    let (_, ca) = unpack(f, a);
    let (_, cb) = unpack(f, b);
    if is_nan(ca) || is_nan(cb) {
        let flags = if is_snan(ca) || is_snan(cb) {
            NV
        } else {
            0
        };
        return (false, flags);
    }
    (key(f, a) == key(f, b), 0)
}

pub open spec fn spec_lt(f: Fmt, a: u64, b: u64, or_equal: bool) -> (bool, u32) {
    if f.is_nan(a) || f.is_nan(b) {
        (false, NV)
    } else if or_equal {
        (spec_key(f, a) <= spec_key(f, b), 0)
    } else {
        (spec_key(f, a) < spec_key(f, b), 0)
    }
}

/// `flt` and `fle`: signalling, so any NaN operand raises invalid.
pub fn lt(f: Fmt, a: u64, b: u64, or_equal: bool) -> (r: (bool, u32))
    requires
        f.valid(),
    ensures
        r == spec_lt(f, a, b, or_equal),
{
    let (_, ca) = unpack(f, a);
    let (_, cb) = unpack(f, b);
    if is_nan(ca) || is_nan(cb) {
        return (false, NV);
    }
    let (ka, kb) = (key(f, a), key(f, b));
    (
        if or_equal {
            ka <= kb
        } else {
            ka < kb
        },
        0,
    )
}

/// The operand that `fmin` or `fmax` returns: the number when exactly one
/// operand is a NaN, the canonical NaN when both are, and of two zeroes the
/// one whose sign decides.
pub open spec fn spec_min_max(f: Fmt, a: u64, b: u64, want_max: bool) -> (u64, u32) {
    let flags = if f.is_snan(a) || f.is_snan(b) {
        NV
    } else {
        0
    };
    let trimmed_a = f.spec_signed(f.sign_of(a), f.magnitude_of(a));
    let trimmed_b = f.spec_signed(f.sign_of(b), f.magnitude_of(b));
    if f.is_nan(a) && f.is_nan(b) {
        (f.spec_nan(), flags)
    } else if f.is_nan(a) {
        (trimmed_b, flags)
    } else if f.is_nan(b) {
        (trimmed_a, flags)
    } else {
        let take_a = if f.is_zero(a) && f.is_zero(b) {
            f.sign_of(a) != want_max
        } else if want_max {
            spec_key(f, a) > spec_key(f, b)
        } else {
            spec_key(f, a) < spec_key(f, b)
        };
        (
            if take_a {
                trimmed_a
            } else {
                trimmed_b
            },
            flags,
        )
    }
}

/// `fmin` and `fmax`, which return the non-NaN operand when exactly one is a
/// NaN and the canonical NaN only when both are. A quiet NaN operand does not
/// raise invalid here, but a signalling one does.
pub fn min_max(f: Fmt, a: u64, b: u64, want_max: bool) -> (r: (u64, u32))
    requires
        f.valid(),
    ensures
        r == spec_min_max(f, a, b, want_max),
{
    let (sa, ca) = unpack(f, a);
    let (_, cb) = unpack(f, b);
    let flags = if is_snan(ca) || is_snan(cb) {
        NV
    } else {
        0
    };
    proof {
        f.lemma_sizes();
        lemma_trimmed(f, a);
        lemma_trimmed(f, b);
    }
    let trimmed_a = low64(a, f.bits);
    let trimmed_b = low64(b, f.bits);
    if is_nan(ca) && is_nan(cb) {
        return (f.nan(), flags);
    }
    if is_nan(ca) {
        return (trimmed_b, flags);
    }
    if is_nan(cb) {
        return (trimmed_a, flags);
    }
    // Two zeroes compare equal however they are ordered, so which one comes
    // back has to be decided by their signs: -0 is the smaller.

    let take_a = if matches!(ca, Cls::Zero) && matches!(cb, Cls::Zero) {
        sa != want_max
    } else if want_max {
        key(f, a) > key(f, b)
    } else {
        key(f, a) < key(f, b)
    };
    (
        if take_a {
            trimmed_a
        } else {
            trimmed_b
        },
        flags,
    )
}

/// The bit position that describes an encoding, from negative infinity round
/// to a quiet NaN.
pub open spec fn spec_class(f: Fmt, a: u64) -> u64 {
    let sign = f.sign_of(a);
    let field = f.field_of(a);
    if f.is_snan(a) {
        0x100
    } else if f.is_nan(a) {
        0x200
    } else if f.is_inf(a) {
        if sign {
            0x1
        } else {
            0x80
        }
    } else if f.is_zero(a) {
        if sign {
            0x8
        } else {
            0x10
        }
    } else if field == 0 {
        if sign {
            0x4
        } else {
            0x20
        }
    } else {
        if sign {
            0x2
        } else {
            0x40
        }
    }
}

/// `fclass`: a one-hot description of the operand, from negative infinity in
/// bit 0 round to a quiet NaN in bit 9.
pub fn classify(f: Fmt, a: u64) -> (r: u64)
    requires
        f.valid(),
    ensures
        r == spec_class(f, a),
{
    let (sign, c) = unpack(f, a);
    proof {
        f.lemma_sizes();
        lemma_fields(f, a);
        if f.field_of(a) == 0 && f.frac_of(a) != 0 {
            lemma_subnormal(f, f.frac_of(a));
        }
    }
    match c {
        Cls::Inf => {
            if sign {
                0x1
            } else {
                0x80
            }
        },
        Cls::Zero => {
            if sign {
                0x8
            } else {
                0x10
            }
        },
        Cls::Nan { signalling } => {
            if signalling {
                0x100
            } else {
                0x200
            }
        },
        Cls::Num { e, .. } => {
            // Subnormal iff the unpacked exponent sits below the normal
            // floor, which unpacking a subnormal is exactly what produces.
            if e < f.min_e() {
                if sign {
                    0x4
                } else {
                    0x20
                }
            } else {
                if sign {
                    0x2
                } else {
                    0x40
                }
            }
        },
    }
}

/// The magnitude of `a` under a sign taken from `b`: as it is, inverted, or
/// combined with that of `a`.
pub open spec fn spec_sign_inject(f: Fmt, a: u64, b: u64, how: u32) -> u64 {
    let neg = if how == 0 {
        f.sign_of(b)
    } else if how == 1 {
        !f.sign_of(b)
    } else {
        f.sign_of(a) != f.sign_of(b)
    };
    f.spec_signed(neg, f.magnitude_of(a))
}

/// Sign injection, out of which negation and absolute value are built. It is
/// bit manipulation, not arithmetic: a NaN passes through unchanged.
pub fn sign_inject(f: Fmt, a: u64, b: u64, how: u32) -> (r: u64)
    requires
        f.valid(),
    ensures
        r == spec_sign_inject(f, a, b, how),
{
    let a_neg = wide::shr64(wide::low64(a, f.bits), f.bits - 1) == 1;
    let b_neg = wide::shr64(wide::low64(b, f.bits), f.bits - 1) == 1;
    let neg = if how == 0 {
        b_neg
    } else if how == 1 {
        !b_neg
    } else {
        a_neg != b_neg
    };
    proof {
        lemma_pow2_pos((f.bits - 1) as nat);
        lemma_mod_bound(a as int, pow2((f.bits - 1) as nat) as int);
    }
    f.signed(neg, wide::low64(a, f.bits - 1))
}

} // verus!
