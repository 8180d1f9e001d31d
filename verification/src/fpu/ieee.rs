//! Floating-point arithmetic, said of the numbers that encodings stand for: the
//! exact sum, product, quotient or root, rounded once, and what there is
//! instead where the operands have none.

use crate::exact::{self, Exact};
use crate::fpu::laws::{
    at_least, at_most, lemma_encoded, lemma_place_exists, lemma_rounded_code, lemma_truncated,
    lemma_units_grow, lemma_unpacked, units,
};
use crate::fpu::{self, Fmt, Rm};
use vstd::arithmetic::div_mod::*;
use vstd::arithmetic::mul::*;
use vstd::arithmetic::power2::*;
use vstd::prelude::*;

verus! {

/// Single precision: a sign, eight bits of exponent and 23 of fraction. The
/// smallest number is two to the power of -149. An exponent of all ones is an
/// infinity, or a NaN where there is a fraction, which signals if its top bit
/// is clear.
pub proof fn law_the_single_format(x: u64)
    ensures
        ({
            let f = Fmt::spec_single();
            let field = (x as int / 0x80_0000) % 0x100;
            let frac = x as int % 0x80_0000;
            &&& f.valid()
            &&& f.sign_of(x) <==> (x as int / 0x8000_0000) % 2 == 1
            &&& f.magnitude_of(x) == x as int % 0x8000_0000
            &&& f.field_of(x) == field
            &&& f.frac_of(x) == frac
            &&& f.spec_min_e() == -149
            &&& f.spec_max_field() == 0xff
            &&& f.is_nan(x) <==> field == 0xff && frac != 0
            &&& f.is_snan(x) <==> field == 0xff && 0 < frac < 0x40_0000
            &&& f.is_inf(x) <==> field == 0xff && frac == 0
            &&& f.is_zero(x) <==> field == 0 && frac == 0
            &&& f.spec_zero(false) == 0 && f.spec_zero(true) == 0x8000_0000
            &&& f.spec_inf(false) == 0x7f80_0000 && f.spec_inf(true) == 0xff80_0000
            &&& f.spec_max_finite(false) == 0x7f7f_ffff && f.spec_max_finite(true) == 0xff7f_ffff
            &&& f.spec_nan() == 0x7fc0_0000
        }),
{
    lemma2_to64();
    lemma2_to64_rest();
    let n = x as int;
    assert((n % 0x1_0000_0000) / 0x8000_0000 == (n / 0x8000_0000) % 2);
    assert((n % 0x8000_0000) / 0x80_0000 == (n / 0x80_0000) % 0x100);
    assert((n % 0x8000_0000) % 0x80_0000 == n % 0x80_0000);
}

/// Double precision: a sign, eleven bits of exponent and 52 of fraction. The
/// smallest number is two to the power of -1074.
pub proof fn law_the_double_format(x: u64)
    ensures
        ({
            let f = Fmt::spec_double();
            let field = (x as int / 0x10_0000_0000_0000) % 0x800;
            let frac = x as int % 0x10_0000_0000_0000;
            &&& f.valid()
            &&& f.sign_of(x) <==> x >= 0x8000_0000_0000_0000
            &&& f.magnitude_of(x) == x as int % 0x8000_0000_0000_0000
            &&& f.field_of(x) == field
            &&& f.frac_of(x) == frac
            &&& f.spec_min_e() == -1074
            &&& f.spec_max_field() == 0x7ff
            &&& f.is_nan(x) <==> field == 0x7ff && frac != 0
            &&& f.is_snan(x) <==> field == 0x7ff && 0 < frac < 0x8_0000_0000_0000
            &&& f.is_inf(x) <==> field == 0x7ff && frac == 0
            &&& f.is_zero(x) <==> field == 0 && frac == 0
            &&& f.spec_zero(false) == 0 && f.spec_zero(true) == 0x8000_0000_0000_0000
            &&& f.spec_inf(false) == 0x7ff0_0000_0000_0000 && f.spec_inf(true)
                == 0xfff0_0000_0000_0000
            &&& f.spec_max_finite(false) == 0x7fef_ffff_ffff_ffff && f.spec_max_finite(true)
                == 0xffef_ffff_ffff_ffff
            &&& f.spec_nan() == 0x7ff8_0000_0000_0000
        }),
{
    lemma2_to64();
    lemma2_to64_rest();
    let n = x as int;
    assert(n % 0x1_0000_0000_0000_0000 == n);
    assert((n % 0x8000_0000_0000_0000) / 0x10_0000_0000_0000 == (n / 0x10_0000_0000_0000) % 0x800);
    assert((n % 0x8000_0000_0000_0000) % 0x10_0000_0000_0000 == n % 0x10_0000_0000_0000);
}

/// Whether an encoding is a number other than zero, and neither an infinity
/// nor a NaN.
pub open spec fn is_number(f: Fmt, x: u64) -> bool {
    !f.is_nan(x) && !f.is_inf(x) && !f.is_zero(x)
}

/// The number that an encoding stands for, in units of the smallest number of
/// its format.
pub open spec fn size(f: Fmt, x: u64) -> nat {
    units(f, f.magnitude_of(x))
}

/// That with its sign.
pub open spec fn value(f: Fmt, x: u64) -> int {
    if f.sign_of(x) {
        -(size(f, x) as int)
    } else {
        size(f, x) as int
    }
}

/// A number negated or not.
pub open spec fn signed(neg: bool, n: int) -> int {
    if neg {
        -n
    } else {
        n
    }
}

/// A sum of that many units of two to the power of `e`, rounded once. A sum of
/// nothing is positive, unless rounding down.
pub open spec fn total(f: Fmt, v: int, e: int, rm: Rm) -> (u64, u32) {
    if v == 0 {
        (f.spec_zero(rm == Rm::Rdn), 0)
    } else {
        exact::rounded(f, v < 0, exact::dyadic(fpu::abs(v), e), rm)
    }
}

/// What a NaN among the operands gives: the one NaN there is for results, and
/// the invalid flag (16) where one of them signals.
pub open spec fn quiet(f: Fmt, signals: bool) -> (u64, u32) {
    (
        f.spec_nan(),
        if signals {
            16
        } else {
            0
        },
    )
}

/// Adding: the infinities keep their sign, and two of opposite sign have no
/// sum. Subtracting is adding with the second sign turned. A sum with a zero
/// is the other operand, and zeroes of opposite sign give the zero that any
/// vanishing sum does.
pub proof fn law_sums_that_are_not_rounded(f: Fmt, a: u64, b: u64, rm: Rm, negate: bool)
    requires
        f.valid(),
    ensures
        ({
            let (sa, sb) = (f.sign_of(a), f.sign_of(b) != negate);
            let r = fpu::spec_sum(f, a, b, rm, negate);
            if f.is_nan(a) || f.is_nan(b) {
                r == quiet(f, f.is_snan(a) || f.is_snan(b))
            } else if f.is_inf(a) && f.is_inf(b) && sa != sb {
                r == (f.spec_nan(), 16u32)
            } else if f.is_inf(a) || f.is_inf(b) {
                r == (
                    f.spec_inf(
                        if f.is_inf(a) {
                            sa
                        } else {
                            sb
                        },
                    ),
                    0u32,
                )
            } else if f.is_zero(a) && f.is_zero(b) {
                r == (
                    f.spec_zero(
                        if sa == sb {
                            sa
                        } else {
                            rm == Rm::Rdn
                        },
                    ),
                    0u32,
                )
            } else if f.is_zero(b) {
                r == (f.spec_signed(sa, f.magnitude_of(a)), 0u32)
            } else if f.is_zero(a) {
                r == (f.spec_signed(sb, f.magnitude_of(b)), 0u32)
            } else {
                is_number(f, a) && is_number(f, b)
            }
        }),
{
}

/// Multiplying: the sign is that of one operand turned by the other's. Nothing
/// times infinity has no product.
pub proof fn law_products_that_are_not_rounded(f: Fmt, a: u64, b: u64, rm: Rm)
    requires
        f.valid(),
    ensures
        ({
            let sign = f.sign_of(a) != f.sign_of(b);
            let r = fpu::spec_mul(f, a, b, rm);
            if f.is_nan(a) || f.is_nan(b) {
                r == quiet(f, f.is_snan(a) || f.is_snan(b))
            } else if f.is_inf(a) || f.is_inf(b) {
                r == if f.is_zero(a) || f.is_zero(b) {
                    (f.spec_nan(), 16u32)
                } else {
                    (f.spec_inf(sign), 0u32)
                }
            } else if f.is_zero(a) || f.is_zero(b) {
                r == (f.spec_zero(sign), 0u32)
            } else {
                is_number(f, a) && is_number(f, b)
            }
        }),
{
    f.lemma_sizes();
}

/// Dividing: an infinity by a number is one, a number by an infinity nothing,
/// and a number by nothing an infinity with the flag for that (8). Two
/// infinities have no quotient, nor have two zeroes.
pub proof fn law_quotients_that_are_not_rounded(f: Fmt, a: u64, b: u64, rm: Rm)
    requires
        f.valid(),
    ensures
        ({
            let sign = f.sign_of(a) != f.sign_of(b);
            let r = fpu::spec_div(f, a, b, rm);
            if f.is_nan(a) || f.is_nan(b) {
                r == quiet(f, f.is_snan(a) || f.is_snan(b))
            } else if f.is_inf(a) {
                r == if f.is_inf(b) {
                    (f.spec_nan(), 16u32)
                } else {
                    (f.spec_inf(sign), 0u32)
                }
            } else if f.is_zero(a) {
                r == if f.is_zero(b) {
                    (f.spec_nan(), 16u32)
                } else {
                    (f.spec_zero(sign), 0u32)
                }
            } else if f.is_inf(b) {
                r == (f.spec_zero(sign), 0u32)
            } else if f.is_zero(b) {
                r == (f.spec_inf(sign), 8u32)
            } else {
                is_number(f, a) && is_number(f, b)
            }
        }),
{
}

/// Roots: a zero is its own, with its sign, and a negative number has none.
pub proof fn law_roots_that_are_not_rounded(f: Fmt, a: u64, rm: Rm)
    requires
        f.valid(),
    ensures
        ({
            let r = fpu::spec_sqrt(f, a, rm);
            if f.is_nan(a) {
                r == quiet(f, f.is_snan(a))
            } else if f.is_zero(a) {
                r == (f.spec_zero(f.sign_of(a)), 0u32)
            } else if f.sign_of(a) {
                r == (f.spec_nan(), 16u32)
            } else if f.is_inf(a) {
                r == (f.spec_inf(false), 0u32)
            } else {
                is_number(f, a)
            }
        }),
{
}

/// Multiplying and adding at once: a product of nothing and infinity is
/// invalid whatever is added to it, and otherwise it is the sum that decides.
pub proof fn law_fused_results_that_are_not_rounded(
    f: Fmt,
    a: u64,
    b: u64,
    c: u64,
    np: bool,
    na: bool,
    rm: Rm,
)
    requires
        f.valid(),
    ensures
        ({
            let sp = (f.sign_of(a) != f.sign_of(b)) != np;
            let sc = f.sign_of(c) != na;
            let endless = f.is_inf(a) || f.is_inf(b);
            let nothing = f.is_zero(a) || f.is_zero(b);
            let r = fpu::spec_fma(f, a, b, c, np, na, rm);
            if f.is_inf(a) && f.is_zero(b) || f.is_zero(a) && f.is_inf(b) {
                r == (f.spec_nan(), 16u32)
            } else if f.is_nan(a) || f.is_nan(b) || f.is_nan(c) {
                r == quiet(f, f.is_snan(a) || f.is_snan(b) || f.is_snan(c))
            } else if endless && f.is_inf(c) && sp != sc {
                r == (f.spec_nan(), 16u32)
            } else if endless {
                r == (f.spec_inf(sp), 0u32)
            } else if f.is_inf(c) {
                r == (f.spec_inf(sc), 0u32)
            } else if nothing && f.is_zero(c) {
                r == (
                    f.spec_zero(
                        if sp == sc {
                            sp
                        } else {
                            rm == Rm::Rdn
                        },
                    ),
                    0u32,
                )
            } else if nothing {
                r == (f.spec_signed(sc, f.magnitude_of(c)), 0u32)
            } else {
                is_number(f, a) && is_number(f, b)
            }
        }),
{
}

/// A number unpacks to as much as its encoding stands for, looked at from any
/// exponent low enough.
proof fn lemma_at(f: Fmt, x: u64, t: int)
    requires
        f.valid(),
        is_number(f, x),
        t <= f.spec_min_e() - f.sig,
    ensures
        ({
            let c = fpu::spec_unpack(f, x).1;
            &&& c is Num
            &&& c->m > 0
            &&& c->e >= t
            &&& c->m as int * pow2((c->e - t) as nat) == size(f, x) * pow2(
                (f.spec_min_e() - t) as nat,
            )
            &&& size(f, x) > 0
        }),
{
    f.lemma_sizes();
    fpu::lemma_fields(f, x);
    lemma_unpacked(f, x);
    fpu::laws::law_unpacking_keeps_the_number(f, x);
    let c = fpu::spec_unpack(f, x).1;
    let low = fpu::low_e(c->e as int, f.spec_min_e());
    let (m, u) = (c->m as int, size(f, x) as int);
    lemma_pow2_adds((c->e - low) as nat, (low - t) as nat);
    lemma_pow2_adds((f.spec_min_e() - low) as nat, (low - t) as nat);
    let (p, q, r) = (
        pow2((c->e - low) as nat) as int,
        pow2((f.spec_min_e() - low) as nat) as int,
        pow2((low - t) as nat) as int,
    );
    assert(m * (p * r) == (m * p) * r) by (nonlinear_arith);
    assert(u * (q * r) == (u * q) * r) by (nonlinear_arith);
    lemma_pow2_pos((c->e - low) as nat);
    lemma_mul_strictly_positive(m, p);
    assert(u > 0) by (nonlinear_arith)
        requires
            u * q > 0,
            u >= 0,
    ;
}

/// The same sum at two exponents rounds the same.
proof fn lemma_total(f: Fmt, v: int, ev: int, w: int, ew: int, t: int, rm: Rm)
    requires
        f.valid(),
        t <= ev,
        t <= ew,
        v * pow2((ev - t) as nat) == w * pow2((ew - t) as nat),
    ensures
        total(f, v, ev, rm) == total(f, w, ew, rm),
{
    let (p, q) = (pow2((ev - t) as nat) as int, pow2((ew - t) as nat) as int);
    lemma_pow2_pos((ev - t) as nat);
    lemma_pow2_pos((ew - t) as nat);
    assert((v == 0 <==> w == 0) && (v < 0 <==> w < 0)) by (nonlinear_arith)
        requires
            v * p == w * q,
            p > 0,
            q > 0,
    ;
    assert((-v) * p == (-w) * q) by (nonlinear_arith)
        requires
            v * p == w * q,
    ;
    if v != 0 {
        let (m, n) = (fpu::abs(v), fpu::abs(w));
        fpu::lemma_same_value(v < 0, m, ev, n, ew, t);
        assert(exact::rounded(f, v < 0, exact::dyadic(m, ev), rm) == exact::rounded(
            f,
            v < 0,
            exact::dyadic(n, ew),
            rm,
        ));
    }
}

proof fn lemma_exact_sum(sa: bool, ma: nat, ea: int, sb: bool, mb: nat, eb: int, t: int)
    requires
        t <= ea,
        t <= eb,
    ensures
        fpu::exact_sum(sa, ma, ea, sb, mb, eb) * pow2((fpu::low_e(ea, eb) - t) as nat) == signed(
            sa,
            (ma * pow2((ea - t) as nat)) as int,
        ) + signed(sb, (mb * pow2((eb - t) as nat)) as int),
{
    let e = fpu::low_e(ea, eb);
    lemma_pow2_adds((ea - e) as nat, (e - t) as nat);
    lemma_pow2_adds((eb - e) as nat, (e - t) as nat);
    let (a, b, c) = (
        pow2((ea - e) as nat) as int,
        pow2((eb - e) as nat) as int,
        pow2((e - t) as nat) as int,
    );
    let (x, y) = (ma * a, mb * b);
    assert(ma * (a * c) == x * c) by (nonlinear_arith)
        requires
            x == ma * a,
    ;
    assert(mb * (b * c) == y * c) by (nonlinear_arith)
        requires
            y == mb * b,
    ;
    assert((x + y) * c == x * c + y * c && (x - y) * c == x * c - y * c && (-x + y) * c == -(x * c)
        + y * c && (-x - y) * c == -(x * c) - y * c) by (nonlinear_arith);
}

/// The sum of two numbers is their exact sum, rounded once.
pub proof fn law_a_sum_is_the_exact_sum(f: Fmt, a: u64, b: u64, rm: Rm, negate: bool)
    requires
        f.valid(),
        is_number(f, a),
        is_number(f, b),
    ensures
        fpu::spec_sum(f, a, b, rm, negate) == total(
            f,
            value(f, a) + signed(negate, value(f, b)),
            f.spec_min_e(),
            rm,
        ),
{
    let min = f.spec_min_e();
    let t = min - f.sig;
    lemma_at(f, a, t);
    lemma_at(f, b, t);
    let (ca, cb) = (fpu::spec_unpack(f, a).1, fpu::spec_unpack(f, b).1);
    let (sa, sb) = (f.sign_of(a), f.sign_of(b) != negate);
    let v = fpu::exact_sum(sa, ca->m as nat, ca->e as int, sb, cb->m as nat, cb->e as int);
    let w = value(f, a) + signed(negate, value(f, b));
    lemma_exact_sum(sa, ca->m as nat, ca->e as int, sb, cb->m as nat, cb->e as int, t);
    let p = pow2((min - t) as nat) as int;
    let (x, y) = (size(f, a) as int, size(f, b) as int);
    assert((x + y) * p == x * p + y * p && (x - y) * p == x * p - y * p && (-x + y) * p == -(x * p)
        + y * p && (-x - y) * p == -(x * p) - y * p) by (nonlinear_arith);
    lemma_total(f, v, fpu::low_e(ca->e as int, cb->e as int), w, min, t, rm);
}

proof fn lemma_product_at(f: Fmt, a: u64, b: u64, t: int)
    requires
        f.valid(),
        is_number(f, a),
        is_number(f, b),
        t <= f.spec_min_e() - f.sig,
    ensures
        ({
            let (ca, cb) = (fpu::spec_unpack(f, a).1, fpu::spec_unpack(f, b).1);
            let (m, e) = (ca->m * cb->m, ca->e + cb->e);
            &&& ca is Num && cb is Num
            &&& m > 0
            &&& e >= 2 * t
            &&& m * pow2((e - 2 * t) as nat) == (size(f, a) * size(f, b)) * pow2(
                (2 * f.spec_min_e() - 2 * t) as nat,
            )
            &&& size(f, a) * size(f, b) > 0
        }),
{
    lemma_at(f, a, t);
    lemma_at(f, b, t);
    let (ca, cb) = (fpu::spec_unpack(f, a).1, fpu::spec_unpack(f, b).1);
    let min = f.spec_min_e();
    let (ma, mb) = (ca->m as int, cb->m as int);
    let (ua, ub) = (size(f, a) as int, size(f, b) as int);
    let (pa, pb, q) = (
        pow2((ca->e - t) as nat) as int,
        pow2((cb->e - t) as nat) as int,
        pow2((min - t) as nat) as int,
    );
    lemma_pow2_adds((ca->e - t) as nat, (cb->e - t) as nat);
    lemma_pow2_adds((min - t) as nat, (min - t) as nat);
    lemma_mul_strictly_positive(ma, mb);
    lemma_mul_strictly_positive(ua, ub);
    assert((ma * mb) * (pa * pb) == (ma * pa) * (mb * pb)) by (nonlinear_arith);
    assert((ua * ub) * (q * q) == (ua * q) * (ub * q)) by (nonlinear_arith);
}

/// The product of two numbers is their exact product, rounded once.
pub proof fn law_a_product_is_the_exact_product(f: Fmt, a: u64, b: u64, rm: Rm)
    requires
        f.valid(),
        is_number(f, a),
        is_number(f, b),
    ensures
        fpu::spec_mul(f, a, b, rm) == total(
            f,
            value(f, a) * value(f, b),
            2 * f.spec_min_e(),
            rm,
        ),
{
    let min = f.spec_min_e();
    let t = min - f.sig;
    lemma_product_at(f, a, b, t);
    let (ca, cb) = (fpu::spec_unpack(f, a).1, fpu::spec_unpack(f, b).1);
    let (ua, ub) = (size(f, a) as int, size(f, b) as int);
    let (m, e) = (ca->m * cb->m, ca->e + cb->e);
    let sign = f.sign_of(a) != f.sign_of(b);
    assert((-ua) * ub == -(ua * ub) && ua * (-ub) == -(ua * ub) && (-ua) * (-ub) == ua * ub)
        by (nonlinear_arith);
    let w = value(f, a) * value(f, b);
    let v = signed(sign, m);
    assert(w == signed(sign, ua * ub));
    let (p, q) = (pow2((e - 2 * t) as nat) as int, pow2((2 * min - 2 * t) as nat) as int);
    assert((-m) * p == -(m * p)) by (nonlinear_arith);
    assert((-(ua * ub)) * q == -((ua * ub) * q)) by (nonlinear_arith);
    lemma_total(f, v, e, w, 2 * min, 2 * t, rm);
    assert(fpu::abs(v) == m as nat);
}

/// A product and a sum at once are rounded once, together.
pub proof fn law_a_fused_result_is_exact(
    f: Fmt,
    a: u64,
    b: u64,
    c: u64,
    np: bool,
    na: bool,
    rm: Rm,
)
    requires
        f.valid(),
        is_number(f, a),
        is_number(f, b),
        is_number(f, c),
    ensures
        fpu::spec_fma(f, a, b, c, np, na, rm) == total(
            f,
            signed(np, value(f, a) * value(f, b)) + signed(na, value(f, c)) * pow2(
                (-f.spec_min_e()) as nat,
            ),
            2 * f.spec_min_e(),
            rm,
        ),
{
    f.lemma_sizes();
    let min = f.spec_min_e();
    let t = min - f.sig;
    lemma_product_at(f, a, b, t);
    lemma_at(f, c, 2 * t);
    let (ca, cb, cc) = (
        fpu::spec_unpack(f, a).1,
        fpu::spec_unpack(f, b).1,
        fpu::spec_unpack(f, c).1,
    );
    let (ua, ub, uc) = (size(f, a) as int, size(f, b) as int, size(f, c) as int);
    let (m, e) = (ca->m * cb->m, ca->e + cb->e);
    let sp = (f.sign_of(a) != f.sign_of(b)) != np;
    let sc = f.sign_of(c) != na;
    assert((-ua) * ub == -(ua * ub) && ua * (-ub) == -(ua * ub) && (-ua) * (-ub) == ua * ub)
        by (nonlinear_arith);
    let lift = pow2((-min) as nat) as int;
    let w = signed(sp, ua * ub) + signed(sc, uc) * lift;
    let v = fpu::exact_sum(sp, m as nat, e, sc, cc->m as nat, cc->e as int);
    lemma_exact_sum(sp, m as nat, e, sc, cc->m as nat, cc->e as int, 2 * t);
    let q = pow2((2 * min - 2 * t) as nat) as int;
    lemma_pow2_adds((-min) as nat, (2 * min - 2 * t) as nat);
    assert(pow2((min - 2 * t) as nat) == lift * q);
    assert(uc * (lift * q) == (uc * lift) * q) by (nonlinear_arith);
    assert((-uc) * lift == -(uc * lift)) by (nonlinear_arith);
    let (x, y) = (ua * ub, uc * lift);
    assert((x + y) * q == x * q + y * q && (x - y) * q == x * q - y * q && (-x + y) * q == -(x * q)
        + y * q && (-x - y) * q == -(x * q) - y * q) by (nonlinear_arith);
    lemma_total(f, v, fpu::low_e(e, cc->e as int), w, 2 * min, 2 * t, rm);
}

/// Quantities that look the same from some place on round the same.
proof fn lemma_alike(f: Fmt, sign: bool, x: Exact, y: Exact, rm: Rm, t: int)
    requires
        f.valid(),
        x.positive(),
        y.positive(),
        x.floor_at(t) == y.floor_at(t),
        x.exact_at(t) == y.exact_at(t),
        t < f.spec_min_e(),
    ensures
        exact::rounded(f, sign, x, rm) == exact::rounded(f, sign, y, rm),
{
    lemma_place_exists(f, y);
    exact::lemma_agree_from(x, y, t);
    exact::lemma_rounded_agree(f, sign, x, y, rm, t, y.last_place(f));
}

proof fn lemma_ratio(n: int, d: int, n2: int, d2: int)
    requires
        n >= 0,
        n2 >= 0,
        d > 0,
        d2 > 0,
        n * d2 == n2 * d,
    ensures
        n / d == n2 / d2,
        n % d == 0 <==> n2 % d2 == 0,
{
    let (q, r) = (n / d, n % d);
    lemma_fundamental_div_mod(n, d);
    lemma_mod_bound(n, d);
    let r2 = n2 - q * d2;
    assert(r2 * d == r * d2) by (nonlinear_arith)
        requires
            r2 == n2 - q * d2,
            n == d * q + r,
            n * d2 == n2 * d,
    ;
    assert(0 <= r2 < d2 && (r == 0 <==> r2 == 0)) by (nonlinear_arith)
        requires
            r2 * d == r * d2,
            0 <= r < d,
            d > 0,
            d2 > 0,
    ;
    lemma_fundamental_div_mod_converse(n2, d2, q, r2);
}

/// The quotient of two numbers is their exact quotient, rounded once.
pub proof fn law_a_quotient_is_the_exact_quotient(f: Fmt, a: u64, b: u64, rm: Rm)
    requires
        f.valid(),
        is_number(f, a),
        is_number(f, b),
    ensures
        fpu::spec_div(f, a, b, rm) == exact::rounded(
            f,
            value(f, a) < 0 != (value(f, b) < 0),
            Exact::Ratio { n: size(f, a), d: size(f, b), e: 0 },
            rm,
        ),
{
    f.lemma_sizes();
    let min = f.spec_min_e();
    let t = min - f.sig;
    lemma_at(f, a, t);
    lemma_at(f, b, t);
    let (ca, cb) = (fpu::spec_unpack(f, a).1, fpu::spec_unpack(f, b).1);
    let (ma, mb) = (ca->m as int, cb->m as int);
    let (ua, ub) = (size(f, a) as int, size(f, b) as int);
    let (ea, eb) = (ca->e as int, cb->e as int);
    let x = Exact::Ratio { n: ma as nat, d: mb as nat, e: ea - eb };
    let y = Exact::Ratio { n: ua as nat, d: ub as nat, e: 0 };
    let u = if ea - eb < t {
        ea - eb
    } else {
        t
    };
    assert(u <= 0 && u < min);
    let (pa, pb, q) = (
        pow2((ea - t) as nat) as int,
        pow2((eb - t) as nat) as int,
        pow2((min - t) as nat) as int,
    );
    lemma_pow2_pos((min - t) as nat);
    lemma_pow2_pos((eb - t) as nat);
    let (n, n2) = (pow2((ea - eb - u) as nat) as int, pow2((-u) as nat) as int);
    lemma_pow2_adds((ea - eb - u) as nat, (eb - t) as nat);
    lemma_pow2_adds((-u) as nat, (ea - t) as nat);
    assert(n * pb == n2 * pa);
    assert((ma * pa) * (ub * q) == (ua * q) * (mb * pb));
    assert((ma * ub) * pa == (ua * mb) * pb) by (nonlinear_arith)
        requires
            (ma * pa) * (ub * q) == (ua * q) * (mb * pb),
            q > 0,
    ;
    assert((ma * n) * ub == (ua * n2) * mb) by (nonlinear_arith)
        requires
            (ma * ub) * pa == (ua * mb) * pb,
            n * pb == n2 * pa,
            pb > 0,
    ;
    lemma2_to64();
    assert(exact::up(ea - eb - u) == n && exact::up(-u) == n2);
    assert(x.num_at(u) == ma * n && y.num_at(u) == ua * n2);
    lemma_mul_basics(mb);
    lemma_mul_basics(ub);
    assert(x.den_at(u) == mb && y.den_at(u) == ub);
    x.lemma_den_pos(u);
    y.lemma_den_pos(u);
    lemma_ratio(ma * n, mb, ua * n2, ub);
    lemma_alike(f, f.sign_of(a) != f.sign_of(b), x, y, rm, u);
}

/// The root of a number is its exact root, rounded once.
pub proof fn law_a_root_is_the_exact_root(f: Fmt, a: u64, rm: Rm)
    requires
        f.valid(),
        is_number(f, a),
        value(f, a) > 0,
    ensures
        fpu::spec_sqrt(f, a, rm) == exact::rounded(
            f,
            false,
            Exact::Root { m: size(f, a), e: f.spec_min_e() },
            rm,
        ),
{
    f.lemma_sizes();
    let min = f.spec_min_e();
    let t = min - f.sig;
    lemma_at(f, a, 2 * t);
    let c = fpu::spec_unpack(f, a).1;
    let x = Exact::Root { m: c->m as nat, e: c->e as int };
    let y = Exact::Root { m: size(f, a), e: min };
    lemma2_to64();
    assert(exact::up(c->e - 2 * t) == pow2((c->e - 2 * t) as nat));
    assert(x.num_at(t) == y.num_at(t) && x.den_at(t) == y.den_at(t));
    lemma_alike(f, false, x, y, rm, t);
}

/// Changing format rounds the number once, and keeps infinities and zeroes
/// with their sign.
pub proof fn law_changing_format_rounds_once(from: Fmt, to: Fmt, a: u64, rm: Rm)
    requires
        from.valid(),
        to.valid(),
    ensures
        ({
            let r = fpu::spec_convert(from, to, a, rm);
            let sign = from.sign_of(a);
            if from.is_nan(a) {
                r == quiet(to, from.is_snan(a))
            } else if from.is_inf(a) {
                r == (to.spec_inf(sign), 0u32)
            } else if from.is_zero(a) {
                r == (to.spec_zero(sign), 0u32)
            } else {
                r == total(to, value(from, a), from.spec_min_e(), rm)
            }
        }),
{
    if is_number(from, a) {
        let min = from.spec_min_e();
        let t = min - from.sig;
        lemma_at(from, a, t);
        let c = fpu::spec_unpack(from, a).1;
        let sign = from.sign_of(a);
        let (m, e, u) = (c->m as int, c->e as int, size(from, a) as int);
        let (p, q) = (pow2((e - t) as nat) as int, pow2((min - t) as nat) as int);
        assert((-m) * p == -(m * p) && (-u) * q == -(u * q)) by (nonlinear_arith);
        lemma_total(to, signed(sign, m), e, value(from, a), min, t, rm);
        assert(fpu::abs(signed(sign, m)) == m as nat);
    }
}

/// An integer becomes a number by rounding once.
pub proof fn law_an_integer_is_rounded_once(f: Fmt, neg: bool, n: u64, rm: Rm)
    ensures
        n > 0 ==> fpu::spec_from_int(f, neg, n, rm) == total(f, signed(neg, n as int), 0, rm),
        fpu::spec_from_int(f, neg, 0, rm) == (f.spec_zero(neg), 0u32),
{
}

/// The integers of a width: from, and up to.
pub open spec fn least(width: u32, with_sign: bool) -> int {
    if !with_sign {
        0
    } else if width == 32 {
        -0x8000_0000
    } else {
        -0x8000_0000_0000_0000
    }
}

pub open spec fn most(width: u32, with_sign: bool) -> int {
    if width == 32 {
        if with_sign {
            0x7fff_ffff
        } else {
            0xffff_ffff
        }
    } else {
        if with_sign {
            0x7fff_ffff_ffff_ffff
        } else {
            0xffff_ffff_ffff_ffff
        }
    }
}

/// A number becomes an integer by rounding once, and the flag for what was
/// lost (1) is raised where something was. What is out of range becomes the
/// integer nearest to it, a NaN the largest, and then the flag is the one for
/// what is invalid (16).
pub proof fn law_becoming_an_integer(f: Fmt, a: u64, width: u32, with_sign: bool, rm: Rm)
    requires
        f.valid(),
        width == 32 || width == 64,
    ensures
        ({
            let r = fpu::spec_to_int(f, a, width, with_sign, rm);
            let (low, high) = (least(width, with_sign), most(width, with_sign));
            let bits = |n: int| (n % 0x1_0000_0000_0000_0000) as u64;
            let sign = f.sign_of(a);
            if f.is_nan(a) {
                r == (bits(high), 16u32)
            } else if f.is_inf(a) {
                r == (
                    bits(
                        if sign {
                            low
                        } else {
                            high
                        },
                    ),
                    16u32,
                )
            } else if f.is_zero(a) {
                r == (0u64, 0u32)
            } else {
                let x = exact::dyadic(size(f, a), f.spec_min_e());
                let (q, lost) = exact::rounded_at(x, 0, sign, rm);
                let n = signed(sign, q as int);
                r == if n < low {
                    (bits(low), 16u32)
                } else if n > high {
                    (bits(high), 16u32)
                } else {
                    (
                        bits(n),
                        if lost {
                            1u32
                        } else {
                            0u32
                        },
                    )
                }
            }
        }),
{
    f.lemma_sizes();
    lemma2_to64();
    lemma2_to64_rest();
    if is_number(f, a) {
        let min = f.spec_min_e();
        let t = min - f.sig;
        lemma_at(f, a, t);
        let c = fpu::spec_unpack(f, a).1;
        let x = exact::dyadic(c->m as nat, c->e as int);
        let y = exact::dyadic(size(f, a), min);
        exact::lemma_dyadic_at(c->m as nat, c->e as int, t);
        exact::lemma_dyadic_at(size(f, a), min, t);
        exact::lemma_agree_from(x, y, t);
        assert(t <= -1);
        assert(x.floor_at(-1) == y.floor_at(-1) && x.exact_at(-1) == y.exact_at(-1));
    }
}

/// The order of encodings of one sign is the order of what they stand for.
proof fn lemma_order(f: Fmt, a: u64, b: u64)
    requires
        f.valid(),
    ensures
        size(f, a) < size(f, b) <==> f.magnitude_of(a) < f.magnitude_of(b),
        size(f, a) == size(f, b) <==> f.magnitude_of(a) == f.magnitude_of(b),
        size(f, a) == 0 <==> f.magnitude_of(a) == 0,
{
    let (x, y) = (f.magnitude_of(a), f.magnitude_of(b));
    if x < y {
        lemma_units_grow(f, x, y);
    } else if y < x {
        lemma_units_grow(f, y, x);
    }
    lemma_pow2_pos(f.sig as nat);
    lemma_div_basics(pow2(f.sig as nat) as int);
    lemma_small_mod(0, pow2(f.sig as nat));
    lemma_basic_div(0, pow2(f.sig as nat) as int);
    assert(units(f, 0) == 0);
    if x > 0 {
        lemma_units_grow(f, 0, x);
    }
}

/// Comparing compares the numbers, where an infinity is past them all and the
/// two zeroes are the same. A NaN compares with nothing; that is invalid (16)
/// for the ordered comparisons, and for equality where it signals.
pub proof fn law_comparing_compares_the_numbers(f: Fmt, a: u64, b: u64)
    requires
        f.valid(),
    ensures
        ({
            let nan = f.is_nan(a) || f.is_nan(b);
            let signals = f.is_snan(a) || f.is_snan(b);
            let (x, y) = (value(f, a), value(f, b));
            &&& fpu::spec_eq(f, a, b) == (
                !nan && x == y,
                if signals {
                    16u32
                } else {
                    0u32
                },
            )
            &&& fpu::spec_lt(f, a, b, false) == (
                !nan && x < y,
                if nan {
                    16u32
                } else {
                    0u32
                },
            )
            &&& fpu::spec_lt(f, a, b, true) == (
                !nan && x <= y,
                if nan {
                    16u32
                } else {
                    0u32
                },
            )
        }),
{
    lemma_order(f, a, b);
    lemma_order(f, b, a);
}

/// The smaller or the larger of two is one of them, and no other is smaller or
/// larger; of two zeroes the negative one is the smaller. One NaN gives way to
/// the other operand, and two give the NaN there is for results.
pub proof fn law_the_smaller_and_the_larger(f: Fmt, a: u64, b: u64, larger: bool)
    requires
        f.valid(),
    ensures
        ({
            let (r, flags) = fpu::spec_min_max(f, a, b, larger);
            let whole = |x: u64| f.spec_signed(f.sign_of(x), f.magnitude_of(x));
            &&& flags == if f.is_snan(a) || f.is_snan(b) {
                16u32
            } else {
                0u32
            }
            &&& f.is_nan(a) && f.is_nan(b) ==> r == f.spec_nan()
            &&& f.is_nan(a) && !f.is_nan(b) ==> r == whole(b)
            &&& f.is_nan(b) && !f.is_nan(a) ==> r == whole(a)
            &&& !f.is_nan(a) && !f.is_nan(b) ==> {
                &&& r == whole(a) || r == whole(b)
                &&& larger && value(f, a) > value(f, b) ==> r == whole(a)
                &&& larger && value(f, a) < value(f, b) ==> r == whole(b)
                &&& !larger && value(f, a) < value(f, b) ==> r == whole(a)
                &&& !larger && value(f, a) > value(f, b) ==> r == whole(b)
                &&& f.is_zero(a) && f.is_zero(b) && f.sign_of(a) != f.sign_of(b) ==> r
                    == f.spec_zero(!larger)
            }
        }),
{
    lemma_order(f, a, b);
    lemma_order(f, b, a);
    fpu::lemma_fields(f, a);
    fpu::lemma_fields(f, b);
    lemma_mul_basics(pow2(f.sig as nat) as int);
}

/// Each kind of encoding has its bit: from negative infinity, normal,
/// subnormal and zero up through the positive ones in the other order, then
/// the two kinds of NaN.
pub proof fn law_classes_are_numbered(f: Fmt, a: u64)
    requires
        f.valid(),
    ensures
        ({
            let sign = f.sign_of(a);
            let (field, frac) = (f.field_of(a), f.frac_of(a));
            let kind = fpu::spec_class(f, a);
            &&& f.is_nan(a) ==> kind == if f.is_snan(a) {
                256u64
            } else {
                512u64
            }
            &&& f.is_inf(a) ==> kind == if sign {
                1u64
            } else {
                128u64
            }
            &&& 0 < field < f.spec_max_field() ==> kind == if sign {
                2u64
            } else {
                64u64
            }
            &&& field == 0 && frac != 0 ==> kind == if sign {
                4u64
            } else {
                32u64
            }
            &&& field == 0 && frac == 0 ==> kind == if sign {
                8u64
            } else {
                16u64
            }
        }),
{
    f.lemma_sizes();
    fpu::lemma_fields(f, a);
}

/// Sign injection keeps everything of the first operand but its sign, which is
/// that of the second, or its opposite, or the two combined.
pub proof fn law_signs_are_injected(f: Fmt, a: u64, b: u64)
    requires
        f.valid(),
    ensures
        ({
            let (r, n, x) = (
                fpu::spec_sign_inject(f, a, b, 0),
                fpu::spec_sign_inject(f, a, b, 1),
                fpu::spec_sign_inject(f, a, b, 2),
            );
            &&& f.magnitude_of(r) == f.magnitude_of(a) && f.sign_of(r) == f.sign_of(b)
            &&& f.magnitude_of(n) == f.magnitude_of(a) && f.sign_of(n) == !f.sign_of(b)
            &&& f.magnitude_of(x) == f.magnitude_of(a) && f.sign_of(x) == (f.sign_of(a)
                != f.sign_of(b))
        }),
{
    fpu::lemma_fields(f, a);
    lemma_encoded(f, f.sign_of(b), f.magnitude_of(a));
    lemma_encoded(f, !f.sign_of(b), f.magnitude_of(a));
    lemma_encoded(f, f.sign_of(a) != f.sign_of(b), f.magnitude_of(a));
}

/// The flags say what became of a quantity: none (0) where it is a number of
/// the format; inexact (1) where it is not; that and underflow (3) where the
/// result is below every normal number; and inexact and overflow (5) where it
/// would be past the largest, and is that or an infinity.
pub proof fn law_what_the_flags_say(f: Fmt, sign: bool, x: Exact, rm: Rm)
    requires
        f.valid(),
        x.positive(),
    ensures
        ({
            let (v, flags) = exact::rounded(f, sign, x, rm);
            let exactly = at_least(x, size(f, v), f.spec_min_e()) && at_most(
                x,
                size(f, v),
                f.spec_min_e(),
            );
            &&& flags == 0 || flags == 1 || flags == 3 || flags == 5
            &&& flags == 0 ==> exactly && f.magnitude_of(v) < f.inf_code()
            &&& flags == 1 ==> !exactly && pow2(f.sig as nat) <= f.magnitude_of(v) < f.inf_code()
            &&& flags == 3 ==> !exactly && f.magnitude_of(v) < pow2(f.sig as nat)
            &&& flags == 5 ==> v == f.spec_inf(sign) || v == f.spec_max_finite(sign)
        }),
{
    f.lemma_sizes();
    let (d, low) = lemma_truncated(f, x);
    let t = f.spec_min_e() + d;
    lemma_rounded_code(f, sign, x, rm);
    exact::law_each_mode_picks_its_neighbour(x, t, sign, rm);
}

/// Past the largest number of the format, the nearest modes go by what the
/// next one would be if there were more: from halfway on the result is an
/// infinity, and below that the largest number. The directed modes stop at the
/// largest number where they round towards zero and go to infinity where they
/// round away from it.
pub proof fn law_how_results_overflow(f: Fmt, sign: bool, x: Exact, rm: Rm)
    requires
        f.valid(),
        x.positive(),
        !at_most(x, units(f, (f.inf_code() - 1) as nat), f.spec_min_e()),
    ensures
        ({
            let (v, flags) = exact::rounded(f, sign, x, rm);
            let twice = units(f, (f.inf_code() - 1) as nat) + units(f, f.inf_code());
            let half = at_least(x, twice, f.spec_min_e() - 1);
            let away = match rm {
                Rm::Rne => half,
                Rm::Rmm => half,
                Rm::Rtz => false,
                Rm::Rdn => sign,
                Rm::Rup => !sign,
            };
            &&& v == if away {
                f.spec_inf(sign)
            } else {
                f.spec_max_finite(sign)
            }
            &&& away ==> flags == 5
            &&& flags == 5 || flags == 1
        }),
{
    f.lemma_sizes();
    let (d, low) = lemma_truncated(f, x);
    let min = f.spec_min_e();
    let t = min + d;
    let inf = f.inf_code();
    let last = (inf - 1) as nat;
    if low < last {
        if low + 1 < last {
            lemma_units_grow(f, low + 1, last);
        }
        assert(x.floor_at(min) < units(f, low + 1));
        assert(units(f, low + 1) <= units(f, last));
        assert(at_most(x, units(f, last), min));
    }
    lemma_rounded_code(f, sign, x, rm);
    exact::law_each_mode_picks_its_neighbour(x, t, sign, rm);
    x.lemma_next_place(t - 1);
    fpu::laws::lemma_floor_below(x, min - 1, d);
    let (floor, halves, p) = (
        x.floor_at(t) as int,
        x.floor_at(t - 1) as int,
        pow2(d) as int,
    );
    lemma_pow2_pos(d);
    assert((2 * floor + 1) * p == floor * p + (floor + 1) * p) by (nonlinear_arith);
    assert(halves >= 2 * floor + 1 ==> halves * p >= (2 * floor + 1) * p) by (nonlinear_arith)
        requires
            p > 0,
    ;
    assert(halves < 2 * floor + 1 ==> (halves + 1) * p <= (2 * floor + 1) * p) by (nonlinear_arith)
        requires
            p > 0,
    ;
    let (w, top) = (pow2(f.sig as nat) as int, f.spec_max_field() as int);
    assert(top * w >= 3 * w && top * w == 2 * (top * pow2((f.sig - 1) as nat))) by (nonlinear_arith)
        requires
            top >= 3,
            w > 0,
            w == 2 * pow2((f.sig - 1) as nat),
    ;
    let (q, lost) = exact::rounded_at(x, t, sign, rm);
    let code = d * pow2(f.sig as nat) + q;
    if low >= inf {
        assert(code >= inf);
        assert(units(f, last) < units(f, inf)) by {
            lemma_units_grow(f, last, inf);
        }
        if inf < low {
            lemma_units_grow(f, inf, low);
        }
        x.lemma_next_place(min - 1);
        assert(at_least(x, units(f, last) + units(f, inf), min - 1));
    } else {
        assert(low == last && low + 1 == inf);
        assert(lost);
        assert(inf % 2 == 0 && floor % 2 == 1);
        assert(min - 1 + d == t - 1);
        assert(at_least(x, units(f, last) + units(f, inf), min - 1) <==> halves >= 2 * floor + 1);
        assert(code == last || code == inf);
        assert(pow2(f.sig as nat) <= last);
    }
}

/// What a quantity comes to at a place. Of `n / d * 2^e`, in units of `2^t`,
/// it is the largest whole number that is not past it, and exact where it is
/// the same.
pub proof fn law_what_a_ratio_comes_to(n: nat, d: nat, e: int, t: int)
    requires
        n > 0,
        d > 0,
    ensures
        ({
            let x = Exact::Ratio { n, d, e };
            let q = x.floor_at(t) as int;
            let (a, b) = if e >= t {
                ((n * pow2((e - t) as nat)) as int, d as int)
            } else {
                (n as int, (d * pow2((t - e) as nat)) as int)
            };
            &&& q * b <= a < (q + 1) * b
            &&& x.exact_at(t) <==> q * b == a
        }),
{
    let x = Exact::Ratio { n, d, e };
    x.lemma_den_pos(t);
    lemma2_to64();
    lemma_mul_basics(n as int);
    lemma_mul_basics(d as int);
    let (a, b) = (x.num_at(t) as int, x.den_at(t) as int);
    lemma_fundamental_div_mod(a, b);
    lemma_mod_bound(a, b);
    lemma_mul_is_commutative(b, a / b);
    assert((a / b + 1) * b == (a / b) * b + b) by (nonlinear_arith);
}

/// Of the square root of `m * 2^e`, in units of `2^t`, it is the largest whole
/// number whose square is not past `m * 2^e` in units of `2^2t`, and exact
/// where the square is the same.
pub proof fn law_what_a_root_comes_to(m: nat, e: int, t: int)
    requires
        m > 0,
    ensures
        ({
            let x = Exact::Root { m, e };
            let q = x.floor_at(t) as int;
            let (a, b) = if e >= 2 * t {
                ((m * pow2((e - 2 * t) as nat)) as int, 1int)
            } else {
                (m as int, pow2((2 * t - e) as nat) as int)
            };
            &&& q * q * b <= a < (q + 1) * (q + 1) * b
            &&& x.exact_at(t) <==> q * q * b == a
        }),
{
    let x = Exact::Root { m, e };
    x.lemma_den_pos(t);
    lemma2_to64();
    lemma_mul_basics(m as int);
    exact::lemma_floor_root(x.num_at(t), x.den_at(t));
}

} // verus!
