//! Exact positive quantities, and the one rounding rule that turns them into
//! floating-point encodings.
//!
//! A product or a sum of floating-point numbers is a dyadic fraction, a
//! quotient is a fraction, and a square root need not be a fraction at all.
//! What rounding has to know of any of them is the same: at a given binary
//! scale, the integer part, and whether anything is left over.

use crate::fpu::{Fmt, Rm};
use vstd::arithmetic::div_mod::*;
use vstd::arithmetic::mul::*;
use vstd::arithmetic::power2::*;
use vstd::prelude::*;

verus! {

/// `2^e` for a positive `e`, and one otherwise.
pub open spec fn up(e: int) -> nat {
    if e > 0 {
        pow2(e as nat)
    } else {
        1
    }
}

/// The integer part of the square root of `num / den`.
pub open spec fn floor_root(num: nat, den: nat) -> nat {
    choose|r: nat| is_floor_root(num, den, r)
}

pub open spec fn is_floor_root(num: nat, den: nat, r: nat) -> bool {
    r * r * den <= num < (r + 1) * (r + 1) * den
}

/// A quantity known exactly.
pub enum Exact {
    /// `n / d * 2^e`.
    Ratio { n: nat, d: nat, e: int },
    /// The square root of `m * 2^e`.
    Root { m: nat, e: int },
}

/// `n * 2^e`.
pub open spec fn dyadic(n: nat, e: int) -> Exact {
    Exact::Ratio { n, d: 1, e }
}

impl Exact {
    pub open spec fn positive(self) -> bool {
        match self {
            Exact::Ratio { n, d, .. } => n > 0 && d > 0,
            Exact::Root { m, .. } => m > 0,
        }
    }

    /// Numerator of the quantity (or of its square) in units of `2^t`
    /// (or of `2^2t`).
    pub open spec fn num_at(self, t: int) -> nat {
        match self {
            Exact::Ratio { n, e, .. } => n * up(e - t),
            Exact::Root { m, e } => m * up(e - 2 * t),
        }
    }

    pub open spec fn den_at(self, t: int) -> nat {
        match self {
            Exact::Ratio { d, e, .. } => d * up(t - e),
            Exact::Root { e, .. } => up(2 * t - e),
        }
    }

    /// The integer part of the quantity in units of `2^t`.
    pub open spec fn floor_at(self, t: int) -> nat {
        match self {
            Exact::Ratio { .. } => self.num_at(t) / self.den_at(t),
            Exact::Root { .. } => floor_root(self.num_at(t), self.den_at(t)),
        }
    }

    /// Whether the quantity is a whole number of units of `2^t`.
    pub open spec fn exact_at(self, t: int) -> bool {
        match self {
            Exact::Ratio { .. } => self.num_at(t) % self.den_at(t) == 0,
            Exact::Root { .. } => self.floor_at(t) * self.floor_at(t) * self.den_at(t)
                == self.num_at(t),
        }
    }

    /// Whether `2^t` is the weight of the last place of this quantity in `f`:
    /// the significand then fits, and has no room to spare unless the place is
    /// the last one there is.
    pub open spec fn is_last_place(self, f: Fmt, t: int) -> bool {
        &&& t >= f.spec_min_e()
        &&& self.floor_at(t) < pow2((f.sig + 1) as nat)
        &&& t == f.spec_min_e() || self.floor_at(t) >= pow2(f.sig as nat)
    }

    pub open spec fn last_place(self, f: Fmt) -> int {
        choose|t: int| self.is_last_place(f, t)
    }
}

/// Whether rounding moves a magnitude up, away from zero. `odd` is the parity
/// of the truncated significand, `guard` the first bit dropped, and `sticky`
/// whether anything follows that bit.
pub open spec fn rounds_up(rm: Rm, sign: bool, odd: bool, guard: bool, sticky: bool) -> bool {
    match rm {
        Rm::Rne => guard && (sticky || odd),
        Rm::Rtz => false,
        Rm::Rdn => sign && (guard || sticky),
        Rm::Rup => !sign && (guard || sticky),
        Rm::Rmm => guard,
    }
}

/// Whether a magnitude past the largest finite one becomes an infinity.
pub open spec fn overflows_to_inf(rm: Rm, sign: bool) -> bool {
    match rm {
        Rm::Rne | Rm::Rmm => true,
        Rm::Rtz => false,
        Rm::Rdn => sign,
        Rm::Rup => !sign,
    }
}

/// `x` rounded to a whole number of units of `2^t`, and whether that lost
/// anything.
pub open spec fn rounded_at(x: Exact, t: int, sign: bool, rm: Rm) -> (nat, bool) {
    let halves = x.floor_at(t - 1);
    let q = halves / 2;
    let guard = halves % 2 == 1;
    let sticky = !x.exact_at(t - 1);
    let up = rounds_up(rm, sign, q % 2 == 1, guard, sticky);
    (if up {
        q + 1
    } else {
        q
    }, guard || sticky)
}

/// The encoding of `x`, with the given sign, rounded once into `f`, and the
/// flags that the rounding raises.
///
/// Consecutive magnitudes of a format have consecutive encodings, which is
/// why the encoding is the significand plus one binade of encodings for every
/// place above the lowest.
pub open spec fn rounded(f: Fmt, sign: bool, x: Exact, rm: Rm) -> (u64, u32) {
    let t = x.last_place(f);
    let (q, inexact) = rounded_at(x, t, sign, rm);
    let code = (t - f.spec_min_e()) * pow2(f.sig as nat) + q;
    if code >= f.spec_max_field() * pow2(f.sig as nat) {
        (
            if overflows_to_inf(rm, sign) {
                f.spec_inf(sign)
            } else {
                f.spec_max_finite(sign)
            },
            crate::fpu::OF_NX,
        )
    } else {
        (
            f.spec_signed(sign, code as nat),
            if !inexact {
                0
            } else if code < pow2(f.sig as nat) {
                crate::fpu::UF_NX
            } else {
                crate::fpu::NX
            },
        )
    }
}

proof fn lemma_up_pos(e: int)
    ensures
        up(e) > 0,
{
    if e > 0 {
        lemma_pow2_pos(e as nat);
    }
}

proof fn lemma_up_step(e: int)
    ensures
        e > 0 ==> up(e) == 2 * up(e - 1),
        e <= 0 ==> up(e) == 1,
{
    if e > 0 {
        lemma_pow2_unfold(e as nat);
        if e == 1 {
            lemma2_to64();
        }
    }
}

proof fn lemma_floor_root_from(num: nat, den: nat, r: nat) -> (s: nat)
    requires
        den > 0,
        r * r * den <= num,
    ensures
        is_floor_root(num, den, s),
    decreases num - r,
{
    assert(r <= num) by (nonlinear_arith)
        requires
            r * r * den <= num,
            den > 0,
    ;
    if num < (r + 1) * (r + 1) * den {
        r
    } else {
        assert(r < num) by (nonlinear_arith)
            requires
                (r + 1) * (r + 1) * den <= num,
                den > 0,
        ;
        lemma_floor_root_from(num, den, r + 1)
    }
}

pub proof fn lemma_floor_root(num: nat, den: nat)
    requires
        den > 0,
    ensures
        is_floor_root(num, den, floor_root(num, den)),
{
    assert(0nat * 0nat * den == 0) by (nonlinear_arith);
    let s = lemma_floor_root_from(num, den, 0);
}

pub proof fn lemma_floor_root_unique(num: nat, den: nat, r: nat)
    requires
        den > 0,
        is_floor_root(num, den, r),
    ensures
        floor_root(num, den) == r,
{
    lemma_floor_root(num, den);
    let s = floor_root(num, den);
    if r < s {
        lemma_scaled_squares(r + 1, s, den);
    } else if s < r {
        lemma_scaled_squares(s + 1, r, den);
    }
}

proof fn lemma_scaled_squares(a: nat, b: nat, den: nat)
    requires
        a <= b,
    ensures
        a * a * den <= b * b * den,
{
    lemma_mul_upper_bound(a as int, b as int, a as int, b as int);
    lemma_mul_inequality((a * a) as int, (b * b) as int, den as int);
}

/// Halving a fraction halves its integer part.
proof fn lemma_halve_ratio(n0: nat, d0: nat, n1: nat, d1: nat)
    requires
        d0 > 0,
        d1 > 0,
        (n0 == 2 * n1 && d0 == d1) || (n0 == n1 && d1 == 2 * d0),
    ensures
        n1 / d1 == (n0 / d0) / 2,
        n1 % d1 == 0 <==> n0 % d0 == 0 && (n0 / d0) % 2 == 0,
{
    lemma_div_denominator(n0 as int, d0 as int, 2);
    let q = (n0 / d0) as int;
    let r = (n0 % d0) as int;
    lemma_fundamental_div_mod(n0 as int, d0 as int);
    lemma_mod_bound(n0 as int, d0 as int);
    let half = q / 2;
    let odd = q % 2;
    let a = n1 as int;
    let b = d1 as int;
    assert(d0 as int * q == 2 * (d0 as int * half) + d0 as int * odd) by (nonlinear_arith)
        requires
            q == 2 * half + odd,
    ;
    assert(d0 as int * odd == (if odd == 1 {
        d0 as int
    } else {
        0
    })) by (nonlinear_arith)
        requires
            odd == 0 || odd == 1,
    ;
    if n0 == 2 * n1 && d0 == d1 {
        // 2a = 2bh + b*odd + r
        let rest = a - b * half;
        assert(2 * rest == b * odd + r);
        assert(0 <= rest < b);
        lemma_fundamental_div_mod_converse(a, b, half, rest);
    } else {
        let rest = a - b * half;
        assert(b * half == 2 * (d0 as int * half)) by (nonlinear_arith)
            requires
                b == 2 * d0 as int,
        ;
        assert(rest == d0 as int * odd + r);
        assert(0 <= rest < b);
        lemma_fundamental_div_mod_converse(a, b, half, rest);
    }
}

/// Quartering the square halves the root.
proof fn lemma_halve_root(n0: nat, d0: nat, n1: nat, d1: nat)
    requires
        d0 > 0,
        d1 > 0,
        (n0 == 4 * n1 && d0 == d1) || (n0 == n1 && d1 == 4 * d0) || (n0 == 2 * n1 && d1 == 2
            * d0),
    ensures
        floor_root(n1, d1) == floor_root(n0, d0) / 2,
        floor_root(n1, d1) * floor_root(n1, d1) * d1 == n1 <==> floor_root(n0, d0) * floor_root(
            n0,
            d0,
        ) * d0 == n0 && floor_root(n0, d0) % 2 == 0,
{
    lemma_floor_root(n0, d0);
    let r = floor_root(n0, d0);
    let h = r / 2;
    let o = r % 2;
    let hh = h * h;
    assert(r * r == 4 * hh + 4 * (h * o) + o * o) by (nonlinear_arith)
        requires
            r == 2 * h + o,
            hh == h * h,
    ;
    assert((r + 1) * (r + 1) <= 4 * ((h + 1) * (h + 1))) by (nonlinear_arith)
        requires
            r == 2 * h + o,
            o <= 1,
    ;
    let up1 = (h + 1) * (h + 1);
    assert(4 * (hh * d0) <= n0) by (nonlinear_arith)
        requires
            (4 * hh + 4 * (h * o) + o * o) * d0 <= n0,
    ;
    assert(n0 < 4 * (up1 * d0)) by (nonlinear_arith)
        requires
            n0 < (r + 1) * (r + 1) * d0,
            (r + 1) * (r + 1) <= 4 * up1,
            d0 > 0,
    ;
    assert(hh * d1 == (if d0 == d1 {
        hh * d0
    } else if d1 == 2 * d0 {
        2 * (hh * d0)
    } else {
        4 * (hh * d0)
    })) by (nonlinear_arith)
        requires
            d0 == d1 || d1 == 2 * d0 || d1 == 4 * d0,
    ;
    assert(up1 * d1 == (if d0 == d1 {
        up1 * d0
    } else if d1 == 2 * d0 {
        2 * (up1 * d0)
    } else {
        4 * (up1 * d0)
    })) by (nonlinear_arith)
        requires
            d0 == d1 || d1 == 2 * d0 || d1 == 4 * d0,
    ;
    assert(is_floor_root(n1, d1, h));
    lemma_floor_root_unique(n1, d1, h);
    let odd_part = (4 * (h * o) + o * o) * d0;
    assert(r * r * d0 == 4 * (hh * d0) + odd_part) by (nonlinear_arith)
        requires
            r * r == 4 * hh + 4 * (h * o) + o * o,
            odd_part == (4 * (h * o) + o * o) * d0,
    ;
    if o == 0 {
        assert(odd_part == 0) by (nonlinear_arith)
            requires
                o == 0,
                odd_part == (4 * (h * o) + o * o) * d0,
        ;
    } else {
        assert(odd_part > 0) by (nonlinear_arith)
            requires
                o == 1,
                d0 > 0,
                odd_part == (4 * (h * o) + o * o) * d0,
        ;
    }
}

impl Exact {
    pub proof fn lemma_den_pos(self, t: int)
        requires
            self.positive(),
        ensures
            self.den_at(t) > 0,
            self.num_at(t) > 0,
    {
        match self {
            Exact::Ratio { n, d, e } => {
                lemma_up_pos(e - t);
                lemma_up_pos(t - e);
                lemma_mul_strictly_positive(n as int, up(e - t) as int);
                lemma_mul_strictly_positive(d as int, up(t - e) as int);
            },
            Exact::Root { m, e } => {
                lemma_up_pos(e - 2 * t);
                lemma_up_pos(2 * t - e);
                lemma_mul_strictly_positive(m as int, up(e - 2 * t) as int);
            },
        }
    }

    /// Moving one place up halves the integer part, and drops a bit of it.
    pub proof fn lemma_next_place(self, t: int)
        requires
            self.positive(),
        ensures
            self.floor_at(t + 1) == self.floor_at(t) / 2,
            self.exact_at(t + 1) <==> self.exact_at(t) && self.floor_at(t) % 2 == 0,
    {
        self.lemma_den_pos(t);
        self.lemma_den_pos(t + 1);
        match self {
            Exact::Ratio { n, d, e } => {
                lemma_up_step(e - t);
                lemma_up_step(t + 1 - e);
                if e > t {
                    assert(n * (2 * up(e - t - 1)) == 2 * (n * up(e - t - 1))) by (nonlinear_arith);
                } else {
                    assert(d * (2 * up(t - e)) == 2 * (d * up(t - e))) by (nonlinear_arith);
                }
                lemma_halve_ratio(
                    self.num_at(t),
                    self.den_at(t),
                    self.num_at(t + 1),
                    self.den_at(t + 1),
                );
            },
            Exact::Root { m, e } => {
                lemma_up_step(e - 2 * t);
                lemma_up_step(e - 2 * t - 1);
                lemma_up_step(2 * t + 2 - e);
                lemma_up_step(2 * t + 1 - e);
                if e - 2 * t >= 2 {
                    assert(m * (2 * (2 * up(e - 2 * t - 2))) == 4 * (m * up(e - 2 * t - 2)))
                        by (nonlinear_arith);
                } else if e - 2 * t == 1 {
                    assert(m * (2 * up(0)) == 2 * (m * up(0))) by (nonlinear_arith);
                }
                lemma_halve_root(
                    self.num_at(t),
                    self.den_at(t),
                    self.num_at(t + 1),
                    self.den_at(t + 1),
                );
            },
        }
    }

    /// Moving `k` places up divides the integer part by `2^k`.
    pub proof fn lemma_places_up(self, t: int, k: nat)
        requires
            self.positive(),
        ensures
            self.floor_at(t + k) == self.floor_at(t) / pow2(k),
            self.exact_at(t + k) <==> self.exact_at(t) && self.floor_at(t) % pow2(k) == 0,
        decreases k,
    {
        lemma2_to64();
        if k > 0 {
            let j = (k - 1) as nat;
            self.lemma_places_up(t, j);
            self.lemma_next_place(t + j);
            lemma_pow2_unfold(k);
            lemma_pow2_pos(j);
            let v = self.floor_at(t);
            lemma_halve_ratio(v, pow2(j), v, pow2(k));
        }
    }

    /// There is at most one last place.
    pub proof fn lemma_last_place_unique(self, f: Fmt, t: int)
        requires
            self.positive(),
            self.is_last_place(f, t),
        ensures
            self.last_place(f) == t,
    {
        let u = self.last_place(f);
        assert(self.is_last_place(f, u));
        if u < t {
            self.lemma_not_both_last(f, u, t);
        } else if t < u {
            self.lemma_not_both_last(f, t, u);
        }
    }

    proof fn lemma_not_both_last(self, f: Fmt, a: int, b: int)
        requires
            self.positive(),
            a < b,
            self.is_last_place(f, a),
        ensures
            !self.is_last_place(f, b),
    {
        let k = (b - a) as nat;
        self.lemma_places_up(a, k);
        let p = pow2(k) as int;
        let v = self.floor_at(a) as int;
        lemma_pow2_unfold(k);
        lemma_pow2_pos((k - 1) as nat);
        lemma_pow2_unfold((f.sig + 1) as nat);
        lemma_fundamental_div_mod(v, p);
        lemma_mod_bound(v, p);
        let w = pow2(f.sig as nat) as int;
        if self.is_last_place(f, b) {
            assert(v >= 2 * w) by (nonlinear_arith)
                requires
                    v == p * (v / p) + v % p,
                    v % p >= 0,
                    v / p >= w,
                    w >= 0,
                    p >= 2,
            ;
        }
    }
}

/// Two quantities that look the same from some place up.
pub open spec fn agree_from(x: Exact, y: Exact, t: int) -> bool {
    forall|u: int|
        u >= t ==> #[trigger] x.floor_at(u) == y.floor_at(u) && x.exact_at(u) == y.exact_at(u)
}

pub proof fn lemma_agree_from(x: Exact, y: Exact, t: int)
    requires
        x.positive(),
        y.positive(),
        x.floor_at(t) == y.floor_at(t),
        x.exact_at(t) == y.exact_at(t),
    ensures
        agree_from(x, y, t),
{
    assert forall|u: int| u >= t implies #[trigger] x.floor_at(u) == y.floor_at(u) && x.exact_at(u)
        == y.exact_at(u) by {
        x.lemma_places_up(t, (u - t) as nat);
        y.lemma_places_up(t, (u - t) as nat);
    }
}

/// Rounding looks no further down than one place below the last one.
pub proof fn lemma_rounded_agree(f: Fmt, sign: bool, x: Exact, y: Exact, rm: Rm, t: int, last: int)
    requires
        x.positive(),
        y.positive(),
        agree_from(x, y, t),
        y.is_last_place(f, last),
        t < last,
    ensures
        rounded(f, sign, x, rm) == rounded(f, sign, y, rm),
{
    assert(x.floor_at(last) == y.floor_at(last));
    assert(x.floor_at(last - 1) == y.floor_at(last - 1));
    assert(x.is_last_place(f, last));
    x.lemma_last_place_unique(f, last);
    y.lemma_last_place_unique(f, last);
}

/// `k` units of a place, made odd if anything below the place was dropped.
pub open spec fn jam(k: nat, lost: bool) -> nat {
    if lost && k % 2 == 0 {
        k + 1
    } else {
        k
    }
}

/// Rounding to odd: truncating a quantity at some place and leaving an odd
/// remainder when anything was lost changes nothing above that place.
pub proof fn lemma_jam(x: Exact, t: int)
    requires
        x.positive(),
        x.floor_at(t) > 0,
    ensures
        dyadic(jam(x.floor_at(t), !x.exact_at(t)), t).positive(),
        agree_from(x, dyadic(jam(x.floor_at(t), !x.exact_at(t)), t), t + 1),
{
    let k = x.floor_at(t);
    let j = jam(k, !x.exact_at(t));
    let y = dyadic(j, t);
    x.lemma_next_place(t);
    y.lemma_next_place(t);
    lemma_dyadic_at(j, t, t);
    lemma2_to64();
    lemma_agree_from(x, y, t + 1);
}

/// What a dyadic fraction looks like at a place: shifted up if the place is
/// at or below its exponent, and divided down otherwise.
pub proof fn lemma_dyadic_at(n: nat, e: int, t: int)
    ensures
        t <= e ==> dyadic(n, e).floor_at(t) == n * pow2((e - t) as nat) && dyadic(n, e).exact_at(t),
        t >= e ==> dyadic(n, e).floor_at(t) == n / pow2((t - e) as nat) && (dyadic(n, e).exact_at(t)
            <==> n % pow2((t - e) as nat) == 0),
{
    lemma2_to64();
    lemma_up_pos(t - e);
    lemma_mul_basics(n as int);
    lemma_mul_basics(up(t - e) as int);
    if t <= e {
        let v = (n * up(e - t)) as int;
        assert(v / 1 == v && v % 1 == 0);
    }
    if t == e {
        assert(n as int / 1 == n as int && n as int % 1 == 0);
    }
}

/// Whether a quantity lies exactly halfway between two whole numbers of
/// `2^t`.
pub open spec fn is_tie(x: Exact, t: int) -> bool {
    x.floor_at(t - 1) % 2 == 1 && x.exact_at(t - 1)
}

/// Every mode rounds to one of the two neighbours, and only an exact quantity
/// is reported exact. The directed modes pick their side; the nearest modes
/// pick the nearer, and part on a tie: one to even, the other away from zero.
pub proof fn law_each_mode_picks_its_neighbour(x: Exact, t: int, sign: bool, rm: Rm)
    requires
        x.positive(),
    ensures
        ({
            let below = x.floor_at(t);
            let (q, inexact) = rounded_at(x, t, sign, rm);
            &&& inexact == !x.exact_at(t)
            &&& !inexact ==> q == below
            &&& inexact ==> {
                &&& q == below || q == below + 1
                &&& rm == Rm::Rtz ==> q == below
                &&& rm == Rm::Rdn ==> q == if sign { below + 1 } else { below }
                &&& rm == Rm::Rup ==> q == if sign { below } else { below + 1 }
                &&& (rm == Rm::Rne || rm == Rm::Rmm) && !is_tie(x, t) ==> q == if x.floor_at(t - 1)
                    % 2 == 1 {
                    below + 1
                } else {
                    below
                }
                &&& rm == Rm::Rne && is_tie(x, t) ==> q % 2 == 0
                &&& rm == Rm::Rmm && is_tie(x, t) ==> q == below + 1
            }
        }),
{
    x.lemma_next_place(t - 1);
}

} // verus!
