//! What holds of the soft-float arithmetic as a whole.

use crate::exact::{self, Exact};
use crate::fpu::{self, Cls, Fmt, Rm};
use crate::wide;
use vstd::arithmetic::div_mod::*;
use vstd::arithmetic::mul::*;
use vstd::arithmetic::power2::*;
use vstd::prelude::*;

verus! {

/// A magnitude code and a sign come back out of the encoding they make.
pub proof fn lemma_encoded(f: Fmt, neg: bool, code: nat)
    requires
        f.valid(),
        code < pow2((f.bits - 1) as nat),
    ensures
        f.sign_of(f.spec_signed(neg, code)) == neg,
        f.magnitude_of(f.spec_signed(neg, code)) == code,
{
    f.lemma_sizes();
    let top = pow2((f.bits - 1) as nat) as int;
    let v = f.spec_signed(neg, code) as int;
    assert(v == if neg { top + code } else { code as int });
    lemma_small_mod(v as nat, (2 * top) as nat);
    if neg {
        lemma_fundamental_div_mod_converse(v, top, 1, code as int);
    } else {
        lemma_fundamental_div_mod_converse(v, top, 0, code as int);
    }
}

/// Codes up to that of infinity are not NaNs.
proof fn lemma_not_nan(f: Fmt, neg: bool, code: nat)
    requires
        f.valid(),
        code <= f.inf_code(),
    ensures
        !f.is_nan(f.spec_signed(neg, code)),
{
    f.lemma_sizes();
    lemma_encoded(f, neg, code);
    fpu::lemma_fields(f, f.spec_signed(neg, code));
}

/// Every positive quantity has a last place in every format.
pub proof fn lemma_place_exists(f: Fmt, x: Exact)
    requires
        f.valid(),
        x.positive(),
    ensures
        x.is_last_place(f, x.last_place(f)),
{
    f.lemma_sizes();
    let floor = x.floor_at(f.spec_min_e());
    if floor < pow2((f.sig + 1) as nat) {
        assert(x.is_last_place(f, f.spec_min_e()));
    } else {
        wide::lemma_bit_length(floor);
        let len = wide::bit_length(floor);
        if len <= f.sig + 1 {
            wide::lemma_pow2_monotone(len, (f.sig + 1) as nat);
        }
        let k = (len - 1 - f.sig) as nat;
        x.lemma_places_up(f.spec_min_e(), k);
        let p = pow2(k) as int;
        lemma_pow2_pos(k);
        lemma_pow2_adds(f.sig as nat, k);
        lemma_pow2_adds((f.sig + 1) as nat, k);
        let q = floor as int / p;
        lemma_fundamental_div_mod(floor as int, p);
        lemma_mod_bound(floor as int, p);
        assert(pow2(f.sig as nat) <= q < pow2((f.sig + 1) as nat)) by (nonlinear_arith)
            requires
                pow2(f.sig as nat) * p <= floor < pow2((f.sig + 1) as nat) * p,
                floor == p * q + floor as int % p,
                0 <= floor as int % p < p,
        ;
        assert(x.is_last_place(f, f.spec_min_e() + k));
    }
}

/// Rounding never makes a NaN.
proof fn lemma_rounded_not_nan(f: Fmt, sign: bool, x: Exact, rm: Rm)
    requires
        f.valid(),
        x.positive(),
    ensures
        !f.is_nan(exact::rounded(f, sign, x, rm).0),
{
    f.lemma_sizes();
    lemma_place_exists(f, x);
    let t = x.last_place(f);
    let (q, _) = exact::rounded_at(x, t, sign, rm);
    let code = (t - f.spec_min_e()) * pow2(f.sig as nat) + q;
    assert((t - f.spec_min_e()) * pow2(f.sig as nat) >= 0) by (nonlinear_arith)
        requires
            t >= f.spec_min_e(),
    ;
    if code < f.inf_code() {
        lemma_not_nan(f, sign, code as nat);
    }
    lemma_not_nan(f, sign, f.inf_code());
    lemma_not_nan(f, sign, (f.inf_code() - 1) as nat);
}

/// What unpacking a finite nonzero number gives.
pub proof fn lemma_unpacked(f: Fmt, x: u64)
    requires
        f.valid(),
        fpu::spec_unpack(f, x).1 is Num,
    ensures
        ({
            let c = fpu::spec_unpack(f, x).1;
            let (m, e) = (c->m as nat, c->e as int);
            let (field, frac) = (f.field_of(x), f.frac_of(x));
            &&& pow2(f.sig as nat) <= m < pow2((f.sig + 1) as nat)
            &&& field > 0 ==> m == pow2(f.sig as nat) + frac && e == field - 1 + f.spec_min_e()
            &&& field == 0 ==> {
                let shift = (f.sig + 1 - wide::bit_length(frac)) as nat;
                &&& frac > 0
                &&& 1 <= shift <= f.sig
                &&& m == frac * pow2(shift)
                &&& e == f.spec_min_e() - shift
            }
            &&& field < f.spec_max_field()
        }),
{
    f.lemma_sizes();
    fpu::lemma_fields(f, x);
    if f.field_of(x) == 0 {
        fpu::lemma_subnormal(f, f.frac_of(x));
    }
}

/// A NaN operand, or an operation without a result, gives the canonical NaN,
/// and nothing else gives a NaN at all.
pub proof fn law_a_nan_result_is_canonical(
    f: Fmt,
    a: u64,
    b: u64,
    c: u64,
    rm: Rm,
    negate: (bool, bool),
)
    requires
        f.valid(),
    ensures
        ({
            let sum = fpu::spec_sum(f, a, b, rm, negate.0).0;
            f.is_nan(sum) ==> sum == f.spec_nan()
        }),
        ({
            let product = fpu::spec_mul(f, a, b, rm).0;
            f.is_nan(product) ==> product == f.spec_nan()
        }),
        ({
            let quotient = fpu::spec_div(f, a, b, rm).0;
            f.is_nan(quotient) ==> quotient == f.spec_nan()
        }),
        ({
            let root = fpu::spec_sqrt(f, a, rm).0;
            f.is_nan(root) ==> root == f.spec_nan()
        }),
        ({
            let fused = fpu::spec_fma(f, a, b, c, negate.0, negate.1, rm).0;
            f.is_nan(fused) ==> fused == f.spec_nan()
        }),
{
    f.lemma_sizes();
    fpu::lemma_fields(f, a);
    fpu::lemma_fields(f, b);
    fpu::lemma_fields(f, c);
    assert forall|neg: bool, code: nat| code <= f.inf_code() implies !f.is_nan(
        #[trigger] f.spec_signed(neg, code),
    ) by {
        lemma_not_nan(f, neg, code);
    }
    assert forall|sign: bool, x: Exact, mode: Rm| x.positive() implies !f.is_nan(
        #[trigger] exact::rounded(f, sign, x, mode).0,
    ) by {
        lemma_rounded_not_nan(f, sign, x, mode);
    }
    if fpu::spec_unpack(f, a).1 is Num {
        lemma_unpacked(f, a);
        lemma_finite_code(f, a);
    }
    if fpu::spec_unpack(f, b).1 is Num {
        lemma_unpacked(f, b);
        lemma_finite_code(f, b);
    }
    if fpu::spec_unpack(f, c).1 is Num {
        lemma_unpacked(f, c);
        lemma_finite_code(f, c);
    }
    lemma_pow2_pos(f.sig as nat);
    let (ca, cb) = (fpu::spec_unpack(f, a).1, fpu::spec_unpack(f, b).1);
    if ca is Num && cb is Num {
        lemma_mul_strictly_positive(ca->m as int, cb->m as int);
    }
}

/// The magnitude of a finite number is below that of infinity.
proof fn lemma_finite_code(f: Fmt, x: u64)
    requires
        f.valid(),
        f.field_of(x) < f.spec_max_field(),
    ensures
        f.magnitude_of(x) < f.inf_code(),
{
    f.lemma_sizes();
    fpu::lemma_fields(f, x);
    let (field, w) = (f.field_of(x) as int, pow2(f.sig as nat) as int);
    assert(field * w + w <= f.spec_max_field() * w) by (nonlinear_arith)
        requires
            field + 1 <= f.spec_max_field(),
            w >= 0,
    ;
}

/// Addition commutes, flags and all.
pub proof fn law_addition_commutes(f: Fmt, a: u64, b: u64, rm: Rm)
    ensures
        fpu::spec_sum(f, a, b, rm, false) == fpu::spec_sum(f, b, a, rm, false),
{
}

/// Subtraction is the addition of the negated operand.
pub proof fn law_subtraction_adds_the_negation(f: Fmt, a: u64, b: u64, rm: Rm)
    requires
        f.valid(),
    ensures
        fpu::spec_sum(f, a, b, rm, true) == fpu::spec_sum(
            f,
            a,
            fpu::spec_sign_inject(f, b, b, 1),
            rm,
            false,
        ),
{
    f.lemma_sizes();
    fpu::lemma_fields(f, b);
    lemma_encoded(f, !f.sign_of(b), f.magnitude_of(b));
}

/// Multiplication commutes, flags and all.
pub proof fn law_multiplication_commutes(f: Fmt, a: u64, b: u64, rm: Rm)
    ensures
        fpu::spec_mul(f, a, b, rm) == fpu::spec_mul(f, b, a, rm),
{
    let (ca, cb) = (fpu::spec_unpack(f, a).1, fpu::spec_unpack(f, b).1);
    if ca is Num && cb is Num {
        lemma_mul_is_commutative(ca->m as int, cb->m as int);
    }
}

/// Numbers are totally ordered: of two that are not NaNs, exactly one is
/// smaller or they are equal, and `<=` is one or the other. A NaN compares
/// with nothing, itself included.
pub proof fn law_comparisons_order_the_numbers(f: Fmt, a: u64, b: u64)
    ensures
        f.is_nan(a) || f.is_nan(b) ==> {
            &&& !fpu::spec_eq(f, a, b).0
            &&& !fpu::spec_lt(f, a, b, false).0
            &&& !fpu::spec_lt(f, a, b, true).0
        },
        !f.is_nan(a) && !f.is_nan(b) ==> {
            let (less, equal, more) = (
                fpu::spec_lt(f, a, b, false).0,
                fpu::spec_eq(f, a, b).0,
                fpu::spec_lt(f, b, a, false).0,
            );
            &&& less || equal || more
            &&& !(less && equal) && !(equal && more) && !(less && more)
            &&& fpu::spec_lt(f, a, b, true).0 == (less || equal)
        },
        fpu::spec_eq(f, a, b) == fpu::spec_eq(f, b, a),
{
}

/// Minimum and maximum pick one of the operands, and with one NaN it is the
/// other one.
pub proof fn law_min_and_max_pick_an_operand(f: Fmt, a: u64, b: u64, want_max: bool)
    requires
        !f.is_nan(a) || !f.is_nan(b),
    ensures
        ({
            let picked = fpu::spec_min_max(f, a, b, want_max).0;
            let whole_a = f.spec_signed(f.sign_of(a), f.magnitude_of(a));
            let whole_b = f.spec_signed(f.sign_of(b), f.magnitude_of(b));
            &&& picked == whole_a || picked == whole_b
            &&& f.is_nan(a) ==> picked == whole_b
            &&& f.is_nan(b) ==> picked == whole_a
        }),
{
}

/// Every encoding is of exactly one of the ten kinds.
pub proof fn law_every_encoding_has_one_class(f: Fmt, a: u64)
    ensures
        ({
            let class = fpu::spec_class(f, a);
            &&& class == 0x1 || class == 0x2 || class == 0x4 || class == 0x8 || class == 0x10
                || class == 0x20 || class == 0x40 || class == 0x80 || class == 0x100 || class
                == 0x200
            &&& (class == 0x100 || class == 0x200) == f.is_nan(a)
            &&& (class == 0x1 || class == 0x80) == f.is_inf(a)
            &&& (class == 0x8 || class == 0x10) == (f.is_zero(a) && !f.is_nan(a) && !f.is_inf(a))
        }),
{
}

/// Sign injection moves the sign and nothing else: negating twice changes
/// nothing, and an absolute value is its own.
pub proof fn law_negation_undoes_itself(f: Fmt, a: u64)
    requires
        f.valid(),
        a < pow2(f.bits as nat),
    ensures
        ({
            let negated = fpu::spec_sign_inject(f, a, a, 1);
            fpu::spec_sign_inject(f, negated, negated, 1) == a
        }),
        fpu::spec_sign_inject(f, a, a, 0) == a,
        f.magnitude_of(fpu::spec_sign_inject(f, a, a, 2)) == f.magnitude_of(a),
        !f.sign_of(fpu::spec_sign_inject(f, a, a, 2)),
{
    f.lemma_sizes();
    fpu::lemma_fields(f, a);
    lemma_encoded(f, !f.sign_of(a), f.magnitude_of(a));
    lemma_encoded(f, false, f.magnitude_of(a));
    let top = pow2((f.bits - 1) as nat) as int;
    lemma_small_mod(a as nat, pow2(f.bits as nat));
    lemma_fundamental_div_mod(a as int, top);
    lemma_mul_basics(top);
    assert(a as int / top == if f.sign_of(a) { 1int } else { 0int });
}

/// A number with no more significant bits than the format has, neither too
/// small nor too large for it, is kept as it is: rounding it raises no flag,
/// and unpacking the result gives the same number back.
proof fn lemma_representable(f: Fmt, sign: bool, m: nat, e: int, rm: Rm)
    requires
        f.valid(),
        m > 0,
        wide::bit_length(m) <= f.sig + 1,
        e >= f.spec_min_e(),
        wide::bit_length(m) + e <= f.spec_bias() + 1,
    ensures
        ({
            let (v, flags) = exact::rounded(f, sign, exact::dyadic(m, e), rm);
            let (out_sign, c) = fpu::spec_unpack(f, v);
            let low = fpu::low_e(e, c->e as int);
            &&& flags == 0
            &&& c is Num
            &&& out_sign == sign
            &&& (c->m as nat) * pow2((c->e - low) as nat) == m * pow2((e - low) as nat)
            &&& c->m > 0
        }),
{
    f.lemma_sizes();
    wide::lemma_bit_length(m);
    let len = wide::bit_length(m);
    let min = f.spec_min_e();
    let w = pow2(f.sig as nat) as int;
    let natural = len - 1 + e - f.sig;
    let last = if natural > min { natural } else { min };
    let x = exact::dyadic(m, e);
    fpu::lemma_last_place(f, m, e, len, last);
    x.lemma_last_place_unique(f, last);
    // Nothing is lost below the last place.
    let k = (e - last) as nat;
    let q = (m * pow2(k)) as int;
    exact::lemma_dyadic_at(m, e, last);
    exact::lemma_dyadic_at(m, e, last - 1);
    lemma_pow2_unfold((e - last + 1) as nat);
    assert(x.floor_at(last - 1) == 2 * q) by (nonlinear_arith)
        requires
            x.floor_at(last - 1) == m * pow2((e - last + 1) as nat),
            pow2((e - last + 1) as nat) == 2 * pow2(k),
            q == m * pow2(k),
    ;
    assert(exact::rounded_at(x, last, sign, rm) == (q as nat, false));
    // The encoding is in range.
    let code = (last - min) * w + q;
    assert(0 <= q < 2 * w);
    assert(code < f.inf_code()) by {
        let top = f.spec_max_field() as int;
        if last == min {
            assert(q < 2 * w && top >= 3);
            assert((last - min) * w == 0) by (nonlinear_arith)
                requires
                    last == min,
            ;
            assert(2 * w <= top * w) by (nonlinear_arith)
                requires
                    top >= 3,
                    w > 0,
            ;
        } else {
            assert(last - min + 2 <= top);
            assert((last - min) * w + 2 * w <= top * w) by (nonlinear_arith)
                requires
                    last - min + 2 <= top,
                    w > 0,
            ;
        }
    }
    assert((last - min) * w >= 0) by (nonlinear_arith)
        requires
            last >= min,
            w > 0,
    ;
    let v = f.spec_signed(sign, code as nat);
    assert(exact::rounded(f, sign, x, rm) == (v, 0u32));
    lemma_encoded(f, sign, code as nat);
    // What the encoding unpacks to.
    lemma_pow2_pos(k);
    assert(q > 0) by (nonlinear_arith)
        requires
            m > 0,
            pow2(k) > 0,
            q == m * pow2(k),
    ;
    if q >= w {
        let field = last - min + 1;
        assert(code == field * w + (q - w)) by (nonlinear_arith)
            requires
                code == (last - min) * w + q,
                field == last - min + 1,
        ;
        lemma_fundamental_div_mod_converse(code, w, field, q - w);
        assert(f.field_of(v) == field && f.frac_of(v) == q - w);
        assert(field < f.spec_max_field()) by (nonlinear_arith)
            requires
                field * w <= code,
                code < f.spec_max_field() * w,
                w > 0,
        ;
        assert(fpu::spec_unpack(f, v).1 is Num);
        lemma_unpacked(f, v);
        let c = fpu::spec_unpack(f, v).1;
        assert(c->m == q && c->e == last);
        lemma2_to64();
        assert(fpu::low_e(e, last) == last);
        lemma_mul_basics(q);
    } else {
        assert(last == min);
        assert((last - min) * w == 0) by (nonlinear_arith)
            requires
                last == min,
        ;
        lemma_fundamental_div_mod_converse(code, w, 0, q);
        assert(f.field_of(v) == 0 && f.frac_of(v) == q);
        assert(fpu::spec_unpack(f, v).1 is Num);
        lemma_unpacked(f, v);
        let c = fpu::spec_unpack(f, v).1;
        let shift = (f.sig + 1 - wide::bit_length(q as nat)) as nat;
        assert(c->m == q * pow2(shift) && c->e == min - shift);
        let low = fpu::low_e(e, c->e as int);
        assert(low == c->e);
        lemma2_to64();
        lemma_pow2_adds(k, shift);
        assert(m * (pow2(k) * pow2(shift)) == (m * pow2(k)) * pow2(shift)) by (nonlinear_arith);
        lemma_mul_basics(c->m as int);
    }
}

/// Packing undoes unpacking: a number of the format rounds to itself, in
/// every mode, and raises nothing.
pub proof fn law_a_number_rounds_to_itself(f: Fmt, a: u64, rm: Rm)
    requires
        f.valid(),
        fpu::spec_unpack(f, a).1 is Num,
    ensures
        fpu::spec_convert(f, f, a, rm) == (
            f.spec_signed(f.sign_of(a), f.magnitude_of(a)),
            0u32,
        ),
{
    f.lemma_sizes();
    fpu::lemma_fields(f, a);
    lemma_unpacked(f, a);
    lemma_finite_code(f, a);
    let c = fpu::spec_unpack(f, a).1;
    let (m, e) = (c->m as nat, c->e as int);
    let min = f.spec_min_e();
    let w = pow2(f.sig as nat) as int;
    let (field, frac) = (f.field_of(a), f.frac_of(a));
    let x = exact::dyadic(m, e);
    let last = if field > 0 { e } else { min };
    fpu::lemma_last_place(f, m, e, (f.sig + 1) as nat, last);
    x.lemma_last_place_unique(f, last);
    exact::lemma_dyadic_at(m, e, last - 1);
    lemma2_to64();
    if field > 0 {
        assert(m * pow2(1) == 2 * m) by (nonlinear_arith)
            requires
                pow2(1) == 2,
        ;
        assert(x.floor_at(last - 1) == 2 * m);
        assert((field - 1) * w + (w + frac) == field * w + frac) by (nonlinear_arith);
    } else {
        let shift = (f.sig + 1 - wide::bit_length(frac)) as nat;
        let p = pow2((shift - 1) as nat) as int;
        lemma_pow2_unfold(shift);
        lemma_pow2_pos((shift - 1) as nat);
        assert(m == (2 * frac) * p + 0) by (nonlinear_arith)
            requires
                m == frac * (2 * p),
        ;
        lemma_fundamental_div_mod_converse(m as int, p, 2 * frac as int, 0);
        assert(x.floor_at(last - 1) == 2 * frac);
        assert((last - min) * w == 0) by (nonlinear_arith)
            requires
                last == min,
        ;
    }
}

/// Whether every number of one format is a number of another.
pub open spec fn widens(from: Fmt, to: Fmt) -> bool {
    &&& from.sig <= to.sig
    &&& to.spec_min_e() <= from.spec_min_e() - from.sig
    &&& from.spec_bias() <= to.spec_bias()
}

/// Converting to a wider format is exact, and converting back gives the
/// number again, in any two rounding modes and without a flag.
pub proof fn law_widening_is_exact(from: Fmt, to: Fmt, a: u64, rm: Rm, back: Rm)
    requires
        from.valid(),
        to.valid(),
        widens(from, to),
        !from.is_nan(a),
    ensures
        ({
            let (v, flags) = fpu::spec_convert(from, to, a, rm);
            &&& flags == 0
            &&& fpu::spec_convert(to, from, v, back) == (
                from.spec_signed(from.sign_of(a), from.magnitude_of(a)),
                0u32,
            )
        }),
{
    from.lemma_sizes();
    to.lemma_sizes();
    fpu::lemma_fields(from, a);
    let (sign, c) = fpu::spec_unpack(from, a);
    let (v, flags) = fpu::spec_convert(from, to, a, rm);
    match c {
        Cls::Num { m, e } => {
            lemma_unpacked(from, a);
            wide::lemma_bit_length_unique(m as nat, (from.sig + 1) as nat);
            lemma_pow2_pos(from.sig as nat);
            lemma_representable(to, sign, m as nat, e as int, rm);
            let wide_c = fpu::spec_unpack(to, v).1;
            let low = fpu::low_e(e as int, wide_c->e as int);
            fpu::lemma_same_value(
                sign,
                wide_c->m as nat,
                wide_c->e as int,
                m as nat,
                e as int,
                low,
            );
            law_a_number_rounds_to_itself(from, a, back);
        },
        Cls::Inf => {
            lemma_encoded(to, sign, to.inf_code());
            let w = pow2(to.sig as nat) as int;
            lemma_mul_is_commutative(to.spec_max_field() as int, w);
            lemma_fundamental_div_mod_converse(
                to.inf_code() as int,
                w,
                to.spec_max_field() as int,
                0,
            );
            assert(fpu::spec_unpack(to, v) == (sign, Cls::Inf));
            assert(from.magnitude_of(a) == from.inf_code());
        },
        Cls::Zero => {
            lemma_encoded(to, sign, 0);
            lemma_pow2_pos(to.sig as nat);
            lemma_small_mod(0, pow2(to.sig as nat));
            lemma_div_basics(pow2(to.sig as nat) as int);
            assert(fpu::spec_unpack(to, v) == (sign, Cls::Zero));
            assert(from.magnitude_of(a) == 0);
        },
        Cls::Nan { .. } => {},
    }
}

/// Single precision is such a narrower format of double precision.
pub proof fn law_a_single_is_a_double()
    ensures
        widens(Fmt::spec_single(), Fmt::spec_double()),
{
    lemma2_to64();
    lemma_pow2_adds(7, 3);
}

/// `2^(sig + 1)`, one past the integers that fit the significand, is a number
/// of the format too.
proof fn lemma_first_wide_integer(f: Fmt, sign: bool, rm: Rm)
    requires
        f.valid(),
        f.sig + 1 <= f.spec_bias(),
        f.spec_min_e() <= 0,
    ensures
        ({
            let m = pow2((f.sig + 1) as nat);
            let (v, flags) = exact::rounded(f, sign, exact::dyadic(m, 0), rm);
            let (out_sign, c) = fpu::spec_unpack(f, v);
            let low = fpu::low_e(0, c->e as int);
            &&& flags == 0
            &&& c is Num
            &&& out_sign == sign
            &&& (c->m as nat) * pow2((c->e - low) as nat) == m * pow2((0 - low) as nat)
            &&& c->m > 0
        }),
{
    f.lemma_sizes();
    let top = (f.sig + 1) as int;
    let m = pow2(top as nat);
    lemma2_to64();
    wide::lemma_bit_length(1);
    assert(wide::bit_length(1) == 1) by {
        if wide::bit_length(1) > 1 {
            wide::lemma_pow2_monotone(1, (wide::bit_length(1) - 1) as nat);
        }
    }
    lemma_representable(f, sign, 1, top, rm);
    lemma_mul_basics(m as int);
    fpu::lemma_same_value(sign, 1, top, m, 0, 0);
    let v = exact::rounded(f, sign, exact::dyadic(m, 0), rm).0;
    assert(v == exact::rounded(f, sign, exact::dyadic(1, top), rm).0);
    let c = fpu::spec_unpack(f, v).1;
    let low = fpu::low_e(top, c->e as int);
    let lower = fpu::low_e(0, c->e as int);
    let k = (low - lower) as nat;
    lemma_pow2_adds((c->e - low) as nat, k);
    lemma_pow2_adds((top - low) as nat, k);
    lemma_pow2_adds(top as nat, (0 - lower) as nat);
    let (p, q) = (pow2((c->e - low) as nat) as int, pow2(k) as int);
    assert((c->m as int) * (p * q) == ((c->m as int) * p) * q) by (nonlinear_arith);
}

/// A nonzero integer within the bound survives.
proof fn lemma_integer_survives(f: Fmt, negative: bool, n: u64, rm: Rm, back: Rm)
    requires
        f.valid(),
        0 < n <= pow2((f.sig + 1) as nat),
        f.sig + 1 <= f.spec_bias(),
        f.spec_min_e() <= 0,
    ensures
        ({
            let (v, flags) = fpu::spec_from_int(f, negative, n, rm);
            &&& flags == 0
            &&& fpu::spec_to_int(f, v, 64, true, back) == (
                fpu::spec_int_bits(negative, n as nat),
                0u32,
            )
        }),
{
    f.lemma_sizes();
    let m = n as nat;
    if m == pow2((f.sig + 1) as nat) {
        lemma_first_wide_integer(f, negative, rm);
    } else {
        wide::lemma_bit_length(m);
        let len = wide::bit_length(m);
        if len > f.sig + 1 {
            wide::lemma_pow2_monotone((f.sig + 1) as nat, (len - 1) as nat);
        }
        lemma_representable(f, negative, m, 0, rm);
    }
    let (v, flags) = fpu::spec_from_int(f, negative, n, rm);
    let (sign, c) = fpu::spec_unpack(f, v);
    let (x, y) = (exact::dyadic(m, 0), exact::dyadic(c->m as nat, c->e as int));
    let low = fpu::low_e(0, c->e as int);
    // The two stand for the same number, so they agree from its units up.
    let u = fpu::low_e(low, -1);
    let k = (low - u) as nat;
    lemma_pow2_adds((0 - low) as nat, k);
    lemma_pow2_adds((c->e - low) as nat, k);
    let (p, q, r) = (
        pow2((0 - low) as nat) as int,
        pow2((c->e - low) as nat) as int,
        pow2(k) as int,
    );
    assert(m * (p * r) == (m * p) * r) by (nonlinear_arith);
    assert((c->m as int) * (q * r) == ((c->m as int) * q) * r) by (nonlinear_arith);
    exact::lemma_dyadic_at(m, 0, u);
    exact::lemma_dyadic_at(c->m as nat, c->e as int, u);
    exact::lemma_agree_from(x, y, u);
    exact::lemma_dyadic_at(m, 0, -1);
    lemma2_to64();
    lemma2_to64_rest();
    assert(m * pow2(1) == 2 * m) by (nonlinear_arith)
        requires
            pow2(1) == 2,
    ;
    assert(x.floor_at(-1) == 2 * m && x.exact_at(-1));
    assert(y.floor_at(-1) == 2 * m && y.exact_at(-1));
    assert(exact::rounded_at(y, 0, sign, back) == (m, false));
    assert(pow2((f.sig + 1) as nat) <= pow2(60)) by {
        wide::lemma_pow2_monotone((f.sig + 1) as nat, 60);
    }
}

/// An integer that fits the significand, or is one past those that do, goes to
/// floating point and comes back the same, in any two rounding modes and
/// without a flag.
pub proof fn law_small_integers_survive(f: Fmt, negative: bool, n: u64, rm: Rm, back: Rm)
    requires
        f.valid(),
        n <= pow2((f.sig + 1) as nat),
        f.sig + 1 <= f.spec_bias(),
        f.spec_min_e() <= 0,
    ensures
        ({
            let (v, flags) = fpu::spec_from_int(f, negative, n, rm);
            &&& flags == 0
            &&& fpu::spec_to_int(f, v, 64, true, back) == (
                fpu::spec_int_bits(negative, n as nat),
                0u32,
            )
        }),
{
    f.lemma_sizes();
    if n == 0 {
        lemma_encoded(f, negative, 0);
        lemma_pow2_pos(f.sig as nat);
        lemma_small_mod(0, pow2(f.sig as nat));
        lemma_div_basics(pow2(f.sig as nat) as int);
    } else {
        lemma_integer_survives(f, negative, n, rm, back);
    }
}

/// The encoding of one.
pub open spec fn one(f: Fmt) -> u64 {
    f.spec_signed(false, (f.spec_bias() * pow2(f.sig as nat)) as nat)
}

proof fn lemma_one(f: Fmt)
    requires
        f.valid(),
    ensures
        !f.is_nan(one(f)) && !f.is_inf(one(f)) && !f.is_zero(one(f)),
        ({
            let (sign, c) = fpu::spec_unpack(f, one(f));
            !sign && c is Num && c->m == pow2(f.sig as nat) && c->e == -(f.sig as int)
        }),
{
    f.lemma_sizes();
    let w = pow2(f.sig as nat) as int;
    let bias = f.spec_bias();
    assert(0 < bias * w < f.spec_max_field() * w) by (nonlinear_arith)
        requires
            0 < bias < f.spec_max_field(),
            w > 0,
    ;
    lemma_encoded(f, false, (bias * w) as nat);
    lemma_fundamental_div_mod_converse(bias * w, w, bias, 0);
    assert(f.field_of(one(f)) == bias && f.frac_of(one(f)) == 0);
}

/// A product with one added to something, against the other factor added to
/// it: the same exact sum, in two units.
proof fn lemma_sum_with_one(
    f: Fmt,
    sa: bool,
    ma: nat,
    ea: int,
    sc: bool,
    mc: nat,
    ec: int,
    rm: Rm,
)
    requires
        f.valid(),
    ensures
        fpu::rounded_sum(f, sa, ma * pow2(f.sig as nat), ea - f.sig, sc, mc, ec, rm)
            == fpu::rounded_sum(f, sa, ma, ea, sc, mc, ec, rm),
{
    let sig = f.sig as int;
    let fine = fpu::low_e(ea - sig, ec);
    let coarse = fpu::low_e(ea, ec);
    let k = (coarse - fine) as nat;
    let (pa, pc, r) = (
        pow2((ea - coarse) as nat) as int,
        pow2((ec - coarse) as nat) as int,
        pow2(k) as int,
    );
    lemma_pow2_pos(k);
    lemma_pow2_adds((ea - coarse) as nat, k);
    lemma_pow2_adds((ec - coarse) as nat, k);
    lemma_pow2_adds(sig as nat, (ea - sig - fine) as nat);
    let w = pow2(sig as nat) as int;
    let u = pow2((ea - sig - fine) as nat) as int;
    assert(w * u == pa * r);
    let a = ma as int;
    let c = mc as int;
    assert((a * w) * u == (a * pa) * r) by (nonlinear_arith)
        requires
            w * u == pa * r,
    ;
    assert(c * (pc * r) == (c * pc) * r) by (nonlinear_arith);
    let v = fpu::exact_sum(sa, ma, ea, sc, mc, ec);
    let scaled = fpu::exact_sum(sa, ma * pow2(f.sig as nat), ea - sig, sc, mc, ec);
    assert(scaled == v * r) by (nonlinear_arith)
        requires
            scaled == fpu::with_sign(sa, ((a * pa) * r) as nat) + fpu::with_sign(
                sc,
                ((c * pc) * r) as nat,
            ),
            v == fpu::with_sign(sa, (a * pa) as nat) + fpu::with_sign(sc, (c * pc) as nat),
            a * pa >= 0,
            c * pc >= 0,
            r > 0,
    ;
    if v == 0 {
        lemma_mul_basics(r);
    } else {
        assert((scaled < 0) == (v < 0) && scaled != 0 && fpu::abs(scaled) == fpu::abs(v) * r)
            by (nonlinear_arith)
            requires
                scaled == v * r,
                r > 0,
                v != 0,
        ;
        lemma2_to64();
        lemma_mul_basics(fpu::abs(scaled) as int);
        fpu::lemma_same_value(v < 0, fpu::abs(scaled), fine, fpu::abs(v), coarse, fine);
    }
}

/// A fused multiply-add with a factor of one is the sum, flags and all.
pub proof fn law_fusing_with_one_is_the_sum(f: Fmt, a: u64, c: u64, rm: Rm)
    requires
        f.valid(),
    ensures
        fpu::spec_fma(f, a, one(f), c, false, false, rm) == fpu::spec_sum(f, a, c, rm, false),
{
    f.lemma_sizes();
    lemma_one(f);
    let (ca, cc) = (fpu::spec_unpack(f, a).1, fpu::spec_unpack(f, c).1);
    if ca is Num {
        let (ma, ea) = (ca->m as nat, ca->e as int);
        lemma_unpacked(f, a);
        if cc is Num {
            lemma_sum_with_one(
                f,
                f.sign_of(a),
                ma,
                ea,
                f.sign_of(c),
                cc->m as nat,
                cc->e as int,
                rm,
            );
        } else {
            law_a_number_rounds_to_itself(f, a, rm);
            let w = pow2(f.sig as nat);
            lemma_mul_strictly_positive(ma as int, w as int);
            lemma2_to64();
            lemma_mul_basics((ma * w) as int);
            fpu::lemma_same_value(f.sign_of(a), ma * w, ea - f.sig, ma, ea, ea - f.sig);
        }
    }
}

/// A fused multiply-add of a zero with the product's sign is the product,
/// flags and all.
pub proof fn law_fusing_with_zero_is_the_product(f: Fmt, a: u64, b: u64, rm: Rm)
    requires
        f.valid(),
    ensures
        fpu::spec_fma(
            f,
            a,
            b,
            f.spec_zero(f.sign_of(a) != f.sign_of(b)),
            false,
            false,
            rm,
        ) == fpu::spec_mul(f, a, b, rm),
{
    f.lemma_sizes();
    let sign = f.sign_of(a) != f.sign_of(b);
    lemma_encoded(f, sign, 0);
    lemma_pow2_pos(f.sig as nat);
    lemma_small_mod(0, pow2(f.sig as nat));
    lemma_div_basics(pow2(f.sig as nat) as int);
}

/// Whether two encodings are the same but for the sign bit.
pub open spec fn opposite(f: Fmt, x: u64, y: u64) -> bool {
    f.sign_of(x) != f.sign_of(y) && f.magnitude_of(x) == f.magnitude_of(y)
}

/// Negating the product of a fused multiply-add flips the sign of a factor,
/// and negating the addend flips the sign of the addend. Nothing else of the
/// result changes, flags and NaNs included.
pub proof fn law_fused_negations_flip_a_sign(
    f: Fmt,
    a: u64,
    b: u64,
    c: u64,
    negate: (bool, bool),
    flipped: (u64, u64, u64),
    rm: Rm,
)
    requires
        opposite(f, a, flipped.0),
        opposite(f, b, flipped.1),
        opposite(f, c, flipped.2),
    ensures
        fpu::spec_fma(f, a, b, c, true, negate.1, rm) == fpu::spec_fma(
            f,
            flipped.0,
            b,
            c,
            false,
            negate.1,
            rm,
        ),
        fpu::spec_fma(f, a, b, c, true, negate.1, rm) == fpu::spec_fma(
            f,
            a,
            flipped.1,
            c,
            false,
            negate.1,
            rm,
        ),
        fpu::spec_fma(f, a, b, c, negate.0, true, rm) == fpu::spec_fma(
            f,
            a,
            b,
            flipped.2,
            negate.0,
            false,
            rm,
        ),
{
}

/// Negation by sign injection gives the opposite encoding, and so does
/// flipping the sign bit of either format.
pub proof fn law_flipping_the_sign_bit_negates(f: Fmt, a: u64)
    requires
        f.valid(),
    ensures
        opposite(f, a, fpu::spec_sign_inject(f, a, a, 1)),
        opposite(Fmt::spec_single(), a, a ^ 0x8000_0000),
        opposite(Fmt::spec_double(), a, a ^ 0x8000_0000_0000_0000),
{
    f.lemma_sizes();
    fpu::lemma_fields(f, a);
    lemma_encoded(f, !f.sign_of(a), f.magnitude_of(a));
    lemma2_to64();
    lemma2_to64_rest();
    let (s, d) = (a ^ 0x8000_0000, a ^ 0x8000_0000_0000_0000);
    assert(s % 0x8000_0000 == a % 0x8000_0000 && (s % 0x1_0000_0000) / 0x8000_0000 + (a
        % 0x1_0000_0000) / 0x8000_0000 == 1 && d % 0x8000_0000_0000_0000 == a
        % 0x8000_0000_0000_0000 && d / 0x8000_0000_0000_0000 + a / 0x8000_0000_0000_0000 == 1)
        by (bit_vector)
        requires
            s == a ^ 0x8000_0000,
            d == a ^ 0x8000_0000_0000_0000,
    ;
    lemma_small_mod(a as nat, pow2(64));
    lemma_small_mod(d as nat, pow2(64));
}

/// The number that a finite magnitude code encodes, in units of the smallest
/// subnormal.
pub open spec fn units(f: Fmt, code: nat) -> nat {
    let w = pow2(f.sig as nat);
    if code / w == 0 {
        code % w
    } else {
        (w + code % w) * pow2((code / w - 1) as nat)
    }
}

/// Whether a quantity is at least `n` units of `2^t`.
pub open spec fn at_least(x: Exact, n: nat, t: int) -> bool {
    x.floor_at(t) >= n
}

/// Whether a quantity is at most `n` units of `2^t`.
pub open spec fn at_most(x: Exact, n: nat, t: int) -> bool {
    x.floor_at(t) < n || (x.floor_at(t) == n && x.exact_at(t))
}

/// A number unpacks to as many units as its code says.
pub proof fn law_unpacking_keeps_the_number(f: Fmt, v: u64)
    requires
        f.valid(),
        fpu::spec_unpack(f, v).1 is Num,
    ensures
        ({
            let c = fpu::spec_unpack(f, v).1;
            let low = fpu::low_e(c->e as int, f.spec_min_e());
            (c->m as nat) * pow2((c->e - low) as nat) == units(f, f.magnitude_of(v)) * pow2(
                (f.spec_min_e() - low) as nat,
            )
        }),
{
    f.lemma_sizes();
    lemma_unpacked(f, v);
    lemma2_to64();
    let c = fpu::spec_unpack(f, v).1;
    lemma_mul_basics(c->m as int);
    lemma_mul_basics(units(f, f.magnitude_of(v)) as int);
}

/// The number whose significand is `q` in binade `d`, also at the very end of
/// the binade, where it is the first of the next.
proof fn lemma_units(f: Fmt, d: nat, q: nat)
    requires
        f.valid(),
        q <= 2 * pow2(f.sig as nat),
        d == 0 || q >= pow2(f.sig as nat),
    ensures
        units(f, d * pow2(f.sig as nat) + q) == q * pow2(d),
{
    f.lemma_sizes();
    let w = pow2(f.sig as nat) as int;
    let code = d * w + q;
    lemma2_to64();
    if q < w {
        lemma_mul_basics(w);
        lemma_mul_basics(q as int);
        lemma_fundamental_div_mod_converse(code, w, 0, q as int);
    } else if q < 2 * w {
        assert(code == (d + 1) * w + (q - w)) by (nonlinear_arith)
            requires
                code == d * w + q,
        ;
        lemma_fundamental_div_mod_converse(code, w, d as int + 1, q - w);
    } else {
        assert(code == (d + 2) * w + 0) by (nonlinear_arith)
            requires
                code == d * w + 2 * w,
        ;
        lemma_fundamental_div_mod_converse(code, w, d as int + 2, 0);
        lemma_pow2_unfold((d + 1) as nat);
        let p = pow2(d) as int;
        assert(w * (2 * p) == (2 * w) * p) by (nonlinear_arith);
    }
}

/// Consecutive codes encode ever larger numbers.
pub proof fn lemma_units_grow(f: Fmt, low: nat, high: nat)
    requires
        f.valid(),
        low < high,
    ensures
        units(f, low) < units(f, high),
    decreases high - low,
{
    f.lemma_sizes();
    let w = pow2(f.sig as nat) as int;
    let field = low as int / w;
    let d = if field > 0 { (field - 1) as nat } else { 0 };
    let q = (low - d * w) as nat;
    lemma_fundamental_div_mod(low as int, w);
    lemma_mod_bound(low as int, w);
    lemma_mul_is_commutative(w, field);
    lemma_div_pos_is_pos(low as int, w);
    assert(field > 0 ==> d * w == field * w - w) by (nonlinear_arith)
        requires
            field > 0 ==> d == field - 1,
    ;
    if field == 0 {
        lemma_mul_basics(w);
    }
    assert(q < 2 * w && (d == 0 || q >= w));
    lemma_units(f, d, q);
    lemma_units(f, d, q + 1);
    lemma_pow2_pos(d);
    assert((q + 1) * pow2(d) == q * pow2(d) + pow2(d)) by (nonlinear_arith);
    if low + 1 < high {
        lemma_units_grow(f, low + 1, high);
    }
}

/// Truncating to a coarser place and to a finer one, `d` places down.
pub proof fn lemma_floor_below(x: Exact, t: int, d: nat)
    requires
        x.positive(),
    ensures
        x.floor_at(t + d) * pow2(d) <= x.floor_at(t) < (x.floor_at(t + d) + 1) * pow2(d),
        x.exact_at(t + d) <==> x.exact_at(t) && x.floor_at(t) == x.floor_at(t + d) * pow2(d),
{
    x.lemma_places_up(t, d);
    lemma_pow2_pos(d);
    let (v, p) = (x.floor_at(t) as int, pow2(d) as int);
    lemma_fundamental_div_mod(v, p);
    lemma_mod_bound(v, p);
    lemma_mul_is_commutative(p, v / p);
    assert((v / p + 1) * p == (v / p) * p + p) by (nonlinear_arith);
}

/// Where a quantity lies among the codes of a format: its last place, the
/// code it truncates to, and how many units that is.
pub proof fn lemma_truncated(f: Fmt, x: Exact) -> (r: (nat, nat))
    requires
        f.valid(),
        x.positive(),
    ensures
        ({
            let (d, low) = r;
            let min = f.spec_min_e();
            let w = pow2(f.sig as nat);
            let floor = x.floor_at(min + d);
            &&& x.last_place(f) == min + d
            &&& floor < 2 * w
            &&& low == d * w + floor
            &&& units(f, low) == floor * pow2(d)
            &&& units(f, low + 1) == (floor + 1) * pow2(d)
            &&& low % 2 == floor % 2
            &&& at_least(x, units(f, low), min)
            &&& x.floor_at(min) < units(f, low + 1)
            &&& x.exact_at(min + d) <==> at_most(x, units(f, low), min)
        }),
{
    f.lemma_sizes();
    lemma_place_exists(f, x);
    let min = f.spec_min_e();
    let d = (x.last_place(f) - min) as nat;
    let w = pow2(f.sig as nat);
    let floor = x.floor_at(min + d);
    lemma_units(f, d, floor);
    lemma_units(f, d, floor + 1);
    lemma_floor_below(x, min, d);
    let half = pow2((f.sig - 1) as nat);
    assert(d * w == 2 * (d * half)) by (nonlinear_arith)
        requires
            w == 2 * half,
    ;
    (d, d * w + floor)
}

/// Of the numbers of the format with the sign of `x`, `inner` is the largest
/// in magnitude that is not past `x`.
pub open spec fn is_inner(f: Fmt, x: Exact, inner: u64, v: u64) -> bool {
    &&& f.magnitude_of(inner) < f.inf_code()
    &&& at_least(x, units(f, f.magnitude_of(inner)), f.spec_min_e())
    &&& f.magnitude_of(v) < f.inf_code() && at_least(
        x,
        units(f, f.magnitude_of(v)),
        f.spec_min_e(),
    ) ==> f.magnitude_of(v) <= f.magnitude_of(inner)
}

/// `outer` is the smallest in magnitude that `x` is not past, or an infinity
/// if there is none.
pub open spec fn is_outer(f: Fmt, x: Exact, outer: u64, v: u64) -> bool {
    &&& f.magnitude_of(outer) == f.inf_code() || f.magnitude_of(outer) < f.inf_code() && at_most(
        x,
        units(f, f.magnitude_of(outer)),
        f.spec_min_e(),
    )
    &&& f.magnitude_of(v) < f.inf_code() && at_most(
        x,
        units(f, f.magnitude_of(v)),
        f.spec_min_e(),
    ) ==> f.magnitude_of(v) >= f.magnitude_of(outer)
}

/// What rounding gives, by its magnitude code.
pub proof fn lemma_rounded_code(f: Fmt, sign: bool, x: Exact, rm: Rm) -> (r: (nat, nat))
    requires
        f.valid(),
        x.positive(),
    ensures
        ({
            let (v, flags) = exact::rounded(f, sign, x, rm);
            let (d, low) = r;
            let t = f.spec_min_e() + d;
            let (q, inexact) = exact::rounded_at(x, t, sign, rm);
            let code = d * pow2(f.sig as nat) + q;
            &&& x.last_place(f) == t
            &&& low == d * pow2(f.sig as nat) + x.floor_at(t)
            &&& f.sign_of(v) == sign
            &&& f.magnitude_of(v) == if code < f.inf_code() {
                code
            } else if exact::overflows_to_inf(rm, sign) {
                f.inf_code()
            } else {
                (f.inf_code() - 1) as nat
            }
            &&& flags == 0 <==> code < f.inf_code() && !inexact
            &&& flags == 0 || flags == fpu::NX || flags == fpu::UF_NX || flags == fpu::OF_NX
        }),
{
    f.lemma_sizes();
    let (d, low) = lemma_truncated(f, x);
    let t = f.spec_min_e() + d;
    let (q, inexact) = exact::rounded_at(x, t, sign, rm);
    let code = d * pow2(f.sig as nat) + q;
    if code < f.inf_code() {
        lemma_encoded(f, sign, code);
    }
    lemma_encoded(f, sign, f.inf_code());
    lemma_encoded(f, sign, (f.inf_code() - 1) as nat);
    (d, low)
}

/// Two rounded results with the same magnitude are the same encoding.
proof fn lemma_same_encoding(f: Fmt, sign: bool, x: Exact, one_mode: Rm, other: Rm)
    requires
        f.valid(),
        x.positive(),
    ensures
        ({
            let (a, b) = (
                exact::rounded(f, sign, x, one_mode).0,
                exact::rounded(f, sign, x, other).0,
            );
            f.magnitude_of(a) == f.magnitude_of(b) <==> a == b
        }),
{
    f.lemma_sizes();
    lemma_rounded_code(f, sign, x, one_mode);
    lemma_rounded_code(f, sign, x, other);
}

/// Rounding over the numbers of the format. The two directed modes bracket
/// the exact quantity with no number between them: towards zero lies the last
/// number it reaches, away from zero the first it does not pass. Every mode
/// gives one of the two, and raises no flag exactly where they are the same,
/// which is where the quantity is itself a number. `v` is any other encoding.
pub proof fn law_directed_results_bracket_the_quantity(
    f: Fmt,
    sign: bool,
    x: Exact,
    rm: Rm,
    v: u64,
)
    requires
        f.valid(),
        x.positive(),
    ensures
        ({
            let down = exact::rounded(f, sign, x, Rm::Rdn).0;
            let up = exact::rounded(f, sign, x, Rm::Rup).0;
            let (inner, outer) = if sign { (up, down) } else { (down, up) };
            let (r, flags) = exact::rounded(f, sign, x, rm);
            &&& f.sign_of(inner) == sign && f.sign_of(outer) == sign && f.sign_of(r) == sign
            &&& is_inner(f, x, inner, v)
            &&& is_outer(f, x, outer, v)
            &&& r == inner || r == outer
            &&& rm == Rm::Rtz ==> r == inner
            &&& flags == 0 <==> inner == outer
            &&& flags == 0 <==> at_most(x, units(f, f.magnitude_of(inner)), f.spec_min_e())
            &&& flags == 0 || flags == fpu::NX || flags == fpu::UF_NX || flags == fpu::OF_NX
        }),
{
    f.lemma_sizes();
    let (d, low) = lemma_truncated(f, x);
    let t = f.spec_min_e() + d;
    lemma_rounded_code(f, sign, x, Rm::Rdn);
    lemma_rounded_code(f, sign, x, Rm::Rup);
    lemma_rounded_code(f, sign, x, rm);
    exact::law_each_mode_picks_its_neighbour(x, t, sign, Rm::Rdn);
    exact::law_each_mode_picks_its_neighbour(x, t, sign, Rm::Rup);
    exact::law_each_mode_picks_its_neighbour(x, t, sign, rm);
    let inf = f.inf_code();
    let code = f.magnitude_of(v);
    let last = (inf - 1) as nat;
    if last < low {
        lemma_units_grow(f, last, low);
    }
    if code < low {
        lemma_units_grow(f, code, low);
    }
    if low + 1 < code {
        lemma_units_grow(f, low + 1, code);
    }
    lemma_same_encoding(f, sign, x, Rm::Rdn, rm);
    lemma_same_encoding(f, sign, x, Rm::Rup, rm);
    lemma_same_encoding(f, sign, x, Rm::Rdn, Rm::Rup);
}

/// The nearest modes, where both neighbours are finite and differ, pick the
/// nearer of the two. Halfway between them one picks the even significand and
/// the other the larger magnitude.
pub proof fn law_nearest_results_are_nearest(f: Fmt, sign: bool, x: Exact, rm: Rm)
    requires
        f.valid(),
        x.positive(),
        rm == Rm::Rne || rm == Rm::Rmm,
    ensures
        ({
            let down = exact::rounded(f, sign, x, Rm::Rdn).0;
            let up = exact::rounded(f, sign, x, Rm::Rup).0;
            let (inner, outer) = if sign { (up, down) } else { (down, up) };
            let r = exact::rounded(f, sign, x, rm).0;
            // Twice the midpoint of the neighbours, to hold against twice `x`.
            let twice = units(f, f.magnitude_of(inner)) + units(f, f.magnitude_of(outer));
            let t = f.spec_min_e() - 1;
            f.magnitude_of(outer) < f.inf_code() && inner != outer ==> {
                &&& !at_least(x, twice, t) ==> r == inner
                &&& !at_most(x, twice, t) ==> r == outer
                &&& at_least(x, twice, t) && at_most(x, twice, t) ==> {
                    &&& rm == Rm::Rne ==> f.magnitude_of(r) % 2 == 0
                    &&& rm == Rm::Rmm ==> r == outer
                }
            }
        }),
{
    f.lemma_sizes();
    let (d, low) = lemma_truncated(f, x);
    let t = f.spec_min_e() + d;
    lemma_rounded_code(f, sign, x, Rm::Rdn);
    lemma_rounded_code(f, sign, x, Rm::Rup);
    lemma_rounded_code(f, sign, x, rm);
    exact::law_each_mode_picks_its_neighbour(x, t, sign, Rm::Rdn);
    exact::law_each_mode_picks_its_neighbour(x, t, sign, Rm::Rup);
    exact::law_each_mode_picks_its_neighbour(x, t, sign, rm);
    lemma_same_encoding(f, sign, x, Rm::Rdn, rm);
    lemma_same_encoding(f, sign, x, Rm::Rup, rm);
    lemma_same_encoding(f, sign, x, Rm::Rdn, Rm::Rup);
    let floor = x.floor_at(t) as int;
    let halves = x.floor_at(t - 1) as int;
    x.lemma_next_place(t - 1);
    lemma_floor_below(x, f.spec_min_e() - 1, d);
    let p = pow2(d) as int;
    assert((2 * floor + 1) * p == floor * p + (floor + 1) * p) by (nonlinear_arith);
    lemma_pow2_pos(d);
    assert(halves >= 2 * floor + 1 ==> halves * p >= (2 * floor + 1) * p) by (nonlinear_arith)
        requires
            p > 0,
    ;
    let half = pow2((f.sig - 1) as nat) as int;
    let w = pow2(f.sig as nat) as int;
    assert(d * w == 2 * (d * half)) by (nonlinear_arith)
        requires
            w == 2 * half,
    ;
}

} // verus!
