//! What the floating-point instructions do, said of the words themselves.

use crate::cpu;
use crate::cpu::execute;
use crate::cpu::float;
use crate::cpu::isa;
use crate::cpu::{CpuState, Outcome, Xlen};
use crate::csr::CsrState;
use crate::decode;
use crate::fpu::{self, Fmt, Rm};
use crate::trap::Exception;
use vstd::arithmetic::div_mod::*;
use vstd::arithmetic::power2::*;
use vstd::prelude::*;

verus! {

/// The five rounding modes, by number.
pub open spec fn mode(n: int) -> Rm {
    if n == 0 {
        Rm::Rne
    } else if n == 1 {
        Rm::Rtz
    } else if n == 2 {
        Rm::Rdn
    } else if n == 3 {
        Rm::Rup
    } else {
        Rm::Rmm
    }
}

/// Bits 7:5 of `fcsr`, the dynamic rounding mode.
pub open spec fn dynamic(s: CpuState) -> int {
    (s.csrs.regs[3] as int / 0x20) % 8
}

/// The number of the mode an instruction rounds in: the one it names, or the
/// dynamic one where it names 7.
pub open spec fn mode_number(s: CpuState, w: u32) -> int {
    if isa::minor(w) == 7 {
        dynamic(s)
    } else {
        isa::minor(w)
    }
}

proof fn lemma_dynamic(v: u64)
    ensures
        (v >> 5) & 7 == (v / 0x20) % 8,
{
    assert((v >> 5) & 7 == (v / 0x20) % 8) by (bit_vector);
}

/// Whatever `fcsr` holds, an instruction that names 7 rounds as one that names
/// the mode in bits 7:5 does. The modes are numbered from 0 to 4, and no
/// instruction rounds in another.
pub proof fn law_the_dynamic_mode_is_the_one_in_fcsr(s: CpuState, n: u32)
    requires
        n < 8,
    ensures
        n < 5 ==> s.rounding(n) == Some(mode(n as int)),
        n == 5 || n == 6 ==> s.rounding(n) is None,
        dynamic(s) == n && n < 5 ==> s.rounding(7) == Some(mode(n as int)) && s.rounding(7)
            == s.rounding(n),
        dynamic(s) >= 5 ==> s.rounding(7) is None,
{
    lemma_dynamic(s.csrs.regs[3]);
}

/// The format an instruction names in bits 26:25: single or double.
pub open spec fn format(w: u32) -> Fmt {
    if (w as int / 0x200_0000) % 4 == 0 {
        Fmt { bits: 32, sig: 23 }
    } else {
        Fmt { bits: 64, sig: 52 }
    }
}

/// Bits 31:27.
pub open spec fn select(w: u32) -> int {
    w as int / 0x800_0000
}

/// What an f register holds as a number of a format. A single is in the low
/// half, and only if the upper half is all ones; otherwise it is the canonical
/// NaN.
pub open spec fn held(s: CpuState, f: Fmt, r: int) -> u64 {
    if f.bits == 64 {
        s.fregs[r]
    } else if s.fregs[r] >= 0xffff_ffff_0000_0000 {
        (s.fregs[r] - 0xffff_ffff_0000_0000) as u64
    } else {
        0x7fc0_0000
    }
}

/// What an f register is left with.
pub open spec fn kept(f: Fmt, v: u64) -> u64 {
    if f.bits == 64 {
        v
    } else {
        (0xffff_ffff_0000_0000 + v % 0x1_0000_0000) as u64
    }
}

/// The CSRs with flags raised in bits 4:0 of `fcsr`, and with FS, bits 14:13
/// of `mstatus`, dirty if the FP state was written or a flag raised.
pub open spec fn noted(c: CsrState, written: bool, flags: u32) -> CsrState {
    let r = c.regs;
    let raised = if flags == 0 {
        r
    } else {
        r.update(3, r[3] | flags as u64)
    };
    CsrState {
        regs: if written || flags != 0 {
            raised.update(0x300, r[0x300] | 0x6000)
        } else {
            raised
        },
        xlen: c.xlen,
    }
}

/// The state after an instruction that writes an f register.
pub open spec fn floated(s: CpuState, next: u64, f: Fmt, rd: int, v: (u64, u32)) -> Outcome {
    (
        CpuState {
            pc: next,
            fregs: s.fregs.update(rd, kept(f, v.0)),
            csrs: noted(s.csrs, true, v.1),
            ..s
        },
        Ok(()),
    )
}

/// The state after an instruction that writes an x register and raises flags.
pub open spec fn reported(s: CpuState, next: u64, rd: int, v: int, flags: u32) -> Outcome {
    isa::retired(CpuState { csrs: noted(s.csrs, false, flags), ..s }, next, rd, v)
}

/// Whether the FP unit is on: FS is not zero.
pub open spec fn on(s: CpuState) -> bool {
    s.csrs.regs[0x300] & 0x6000 != 0
}

proof fn lemma_dirty(m: u64)
    ensures
        (m | 0x6000) | 0x6000 == m | 0x6000,
{
    assert((m | 0x6000) | 0x6000 == m | 0x6000) by (bit_vector);
}

proof fn lemma_format(w: u32)
    ensures
        decode::field(w, 26, 25) == (w as int / 0x200_0000) % 4,
        decode::field(w, 31, 27) == select(w),
        format(w).valid(),
        (w as int / 0x200_0000) % 4 < 2 ==> float::spec_format(decode::field(w, 26, 25)) == Some(
            format(w),
        ),
        (w as int / 0x200_0000) % 4 >= 2 ==> float::spec_format(decode::field(w, 26, 25)) is None,
{
    lemma2_to64();
    assert((w as int / 0x800_0000) % 0x20 == w as int / 0x800_0000);
}

proof fn lemma_held(s: CpuState, f: Fmt, r: int)
    requires
        f == Fmt::spec_single() || f == Fmt::spec_double(),
        0 <= r < 32,
    ensures
        s.float(f, r as nat) == held(s, f, r),
{
    lemma2_to64();
    lemma2_to64_rest();
    let v = s.fregs[r];
    if f == Fmt::spec_single() {
        assert(f.spec_nan() == 0x7fc0_0000) by {
            lemma_single_sizes();
        }
        if v >= 0xffff_ffff_0000_0000 {
            assert(v % 0x1_0000_0000 == v - 0xffff_ffff_0000_0000);
        }
    }
}

proof fn lemma_single_sizes()
    ensures
        Fmt::spec_single().spec_nan() == 0x7fc0_0000,
        Fmt::spec_double().spec_nan() == 0x7ff8_0000_0000_0000,
{
    lemma2_to64();
    lemma2_to64_rest();
}

proof fn lemma_floated(s: CpuState, next: u64, f: Fmt, rd: int, v: (u64, u32))
    requires
        s.wf(),
        f == Fmt::spec_single() || f == Fmt::spec_double(),
        0 <= rd < 32,
    ensures
        (s.jump(next).set_float(f, rd as nat, v.0).accrue(v.1), Ok::<(), Exception>(())) == floated(
            s,
            next,
            f,
            rd,
            v,
        ),
        (s.jump(next).set_float(f, rd as nat, v.0), Ok::<(), Exception>(())) == floated(
            s,
            next,
            f,
            rd,
            (v.0, 0u32),
        ),
{
    lemma_dirty(s.csrs.regs[0x300]);
    let t = s.jump(next);
    let a = t.set_float(f, rd as nat, v.0).accrue(v.1);
    assert(a.csrs.regs =~= noted(s.csrs, true, v.1).regs);
    assert(t.set_float(f, rd as nat, v.0).csrs.regs =~= noted(s.csrs, true, 0).regs);
}

proof fn lemma_reported(s: CpuState, next: u64, rd: int, v: u64, flags: u32)
    requires
        s.wf(),
        0 <= rd < 32,
        v < isa::span(s.xlen),
    ensures
        (s.jump(next).set_x(rd as nat, v).accrue(flags), Ok::<(), Exception>(())) == reported(
            s,
            next,
            rd,
            v as int,
            flags,
        ),
        (s.jump(next).set_x(rd as nat, v), Ok::<(), Exception>(())) == reported(
            s,
            next,
            rd,
            v as int,
            0,
        ),
{
    let t = s.jump(next);
    let a = t.set_x(rd as nat, v).accrue(flags);
    isa::lemma_readings(s.xlen, v, v as int);
    assert(a.csrs.regs =~= noted(s.csrs, false, flags).regs);
}

/// The opcodes of the extension.
pub open spec fn is_float(w: u32) -> bool {
    let op = isa::opcode(w);
    op == 0x07 || op == 0x27 || op == 0x43 || op == 0x47 || op == 0x4b || op == 0x4f || op == 0x53
}

proof fn lemma_exec_float(s: CpuState, w: u32, here: u64, next: u64)
    requires
        is_float(w),
    ensures
        s.execute(w, here, next) == s.jump(next).exec_float(w),
{
    reveal(CpuState::execute);
    isa::lemma_word(w);
}

/// While FS is off every FP instruction is illegal.
pub proof fn law_fp_words_need_the_unit(s: CpuState, w: u32, here: u64, next: u64)
    requires
        is_float(w),
        !on(s),
    ensures
        s.execute(w, here, next) == isa::refused(s, w, next),
{
    lemma_exec_float(s, w, here, next);
    isa::lemma_word(w);
}

proof fn lemma_op_float(s: CpuState, w: u32, here: u64, next: u64)
    requires
        isa::opcode(w) == 0x53,
        on(s),
    ensures
        s.execute(w, here, next) == s.jump(next).exec_op_float(w),
{
    reveal(CpuState::execute);
    isa::lemma_word(w);
}

proof fn lemma_arith(s: CpuState, w: u32, here: u64, next: u64)
    requires
        isa::opcode(w) == 0x53,
        on(s),
        (w as int / 0x200_0000) % 4 < 2,
        select(w) < 4 || select(w) == 0xb && isa::src2(w) == 0,
    ensures
        s.execute(w, here, next) == s.jump(next).exec_arith(w, format(w)),
{
    lemma_op_float(s, w, here, next);
    isa::lemma_word(w);
    lemma_format(w);
}

/// What the five rounded operations give: FADD, FSUB, FMUL, FDIV and FSQRT.
pub open spec fn rounded_result(s: CpuState, w: u32, rm: Rm) -> (u64, u32) {
    let f = format(w);
    let (a, b) = (held(s, f, isa::src1(w)), held(s, f, isa::src2(w)));
    if select(w) == 0 {
        fpu::spec_sum(f, a, b, rm, false)
    } else if select(w) == 1 {
        fpu::spec_sum(f, a, b, rm, true)
    } else if select(w) == 2 {
        fpu::spec_mul(f, a, b, rm)
    } else if select(w) == 3 {
        fpu::spec_div(f, a, b, rm)
    } else {
        fpu::spec_sqrt(f, a, rm)
    }
}

/// FADD, FSUB, FMUL, FDIV and FSQRT round in the mode they name or, where they
/// name 7, in the one that `fcsr` holds. A mode that is neither is illegal.
pub proof fn law_rounded_arithmetic(s: CpuState, w: u32, here: u64, next: u64)
    requires
        s.wf(),
        on(s),
        isa::opcode(w) == 0x53,
        (w as int / 0x200_0000) % 4 < 2,
        select(w) < 4 || select(w) == 0xb && isa::src2(w) == 0,
    ensures
        mode_number(s, w) < 5 ==> s.execute(w, here, next) == floated(
            s,
            next,
            format(w),
            isa::dest(w),
            rounded_result(s, w, mode(mode_number(s, w))),
        ),
        mode_number(s, w) >= 5 ==> s.execute(w, here, next) == isa::refused(s, w, next),
{
    let f = format(w);
    let t = s.jump(next);
    lemma_arith(s, w, here, next);
    isa::lemma_word(w);
    lemma_format(w);
    law_the_dynamic_mode_is_the_one_in_fcsr(t, dynamic(s) as u32);
    law_the_dynamic_mode_is_the_one_in_fcsr(t, isa::minor(w) as u32);
    lemma_held(t, f, isa::src1(w));
    lemma_held(t, f, isa::src2(w));
    if mode_number(s, w) < 5 {
        let v = rounded_result(s, w, mode(mode_number(s, w)));
        lemma_floated(s, next, f, isa::dest(w), v);
    }
}

/// An instruction that defers to `fcsr` and one that names the mode held there
/// do the same, whatever the rest of the word.
pub proof fn law_deferring_is_naming(s: CpuState, w: u32, v: u32, here: u64, next: u64)
    requires
        s.wf(),
        on(s),
        isa::opcode(w) == 0x53,
        (w as int / 0x200_0000) % 4 < 2,
        select(w) < 4 || select(w) == 0xb && isa::src2(w) == 0,
        isa::minor(w) == 7,
        dynamic(s) < 5,
        v == w - 0x7000 + 0x1000 * dynamic(s),
    ensures
        s.execute(w, here, next) == s.execute(v, here, next),
        s.execute(w, here, next).1 is Ok,
{
    let (m, n) = (w as int, v as int);
    let k = (m / 0x1000 - 7 + dynamic(s));
    assert(m / 0x1000 % 8 == 7);
    assert(n / 0x1000 == k && n % 0x1000 == m % 0x1000);
    assert(k % 8 == dynamic(s) && k / 8 == (m / 0x1000) / 8);
    assert(m / 0x8000 == (m / 0x1000) / 8 && n / 0x8000 == k / 8);
    assert(m / 0x10_0000 == (m / 0x8000) / 0x20 && n / 0x10_0000 == (n / 0x8000) / 0x20);
    assert(m / 0x200_0000 == (m / 0x8000) / 0x400 && n / 0x200_0000 == (n / 0x8000) / 0x400);
    assert(m / 0x800_0000 == (m / 0x8000) / 0x1000 && n / 0x800_0000 == (n / 0x8000) / 0x1000);
    assert(m % 0x80 == (m % 0x1000) % 0x80 && n % 0x80 == (n % 0x1000) % 0x80);
    assert((m / 0x80) % 0x20 == (m % 0x1000) / 0x80 && (n / 0x80) % 0x20 == (n % 0x1000) / 0x80);
    law_rounded_arithmetic(s, w, here, next);
    law_rounded_arithmetic(s, v, here, next);
}

/// FMADD, FMSUB, FNMSUB and FNMADD: the product of the first two sources plus
/// the third, minus it, taken from it, or both negated, and rounded once.
pub proof fn law_fused_words(s: CpuState, w: u32, here: u64, next: u64)
    requires
        s.wf(),
        on(s),
        isa::opcode(w) == 0x43 || isa::opcode(w) == 0x47 || isa::opcode(w) == 0x4b || isa::opcode(w)
            == 0x4f,
    ensures
        ({
            let f = format(w);
            let (a, b) = (held(s, f, isa::src1(w)), held(s, f, isa::src2(w)));
            let c = held(s, f, select(w));
            let negate_product = isa::opcode(w) == 0x4b || isa::opcode(w) == 0x4f;
            let negate_addend = isa::opcode(w) == 0x47 || isa::opcode(w) == 0x4f;
            let known = (w as int / 0x200_0000) % 4 < 2 && mode_number(s, w) < 5;
            &&& known ==> s.execute(w, here, next) == floated(
                s,
                next,
                f,
                isa::dest(w),
                fpu::spec_fma(
                    f,
                    a,
                    b,
                    c,
                    negate_product,
                    negate_addend,
                    mode(mode_number(s, w)),
                ),
            )
            &&& !known ==> s.execute(w, here, next) == isa::refused(s, w, next)
        }),
{
    let f = format(w);
    let t = s.jump(next);
    lemma_exec_float(s, w, here, next);
    isa::lemma_word(w);
    lemma_format(w);
    law_the_dynamic_mode_is_the_one_in_fcsr(t, dynamic(s) as u32);
    law_the_dynamic_mode_is_the_one_in_fcsr(t, isa::minor(w) as u32);
    lemma_held(t, f, isa::src1(w));
    lemma_held(t, f, isa::src2(w));
    lemma_held(t, f, select(w));
    let (a, b) = (held(s, f, isa::src1(w)), held(s, f, isa::src2(w)));
    let c = held(s, f, select(w));
    let negate_product = isa::opcode(w) == 0x4b || isa::opcode(w) == 0x4f;
    let negate_addend = isa::opcode(w) == 0x47 || isa::opcode(w) == 0x4f;
    let v = fpu::spec_fma(f, a, b, c, negate_product, negate_addend, mode(mode_number(s, w)));
    lemma_floated(s, next, f, isa::dest(w), v);
}

/// FSGNJ, FSGNJN and FSGNJX, FMIN and FMAX, and FLE, FLT and FEQ.
pub proof fn law_unrounded_words(s: CpuState, w: u32, here: u64, next: u64)
    requires
        s.wf(),
        on(s),
        isa::opcode(w) == 0x53,
        (w as int / 0x200_0000) % 4 < 2,
        select(w) == 0x04 || select(w) == 0x05 || select(w) == 0x14,
    ensures
        ({
            let f = format(w);
            let (a, b) = (held(s, f, isa::src1(w)), held(s, f, isa::src2(w)));
            let f3 = isa::minor(w);
            let rd = isa::dest(w);
            let r = s.execute(w, here, next);
            let compared = if f3 == 2 {
                fpu::spec_eq(f, a, b)
            } else {
                fpu::spec_lt(f, a, b, f3 == 0)
            };
            &&& select(w) == 0x04 && f3 <= 2 ==> r == floated(
                s,
                next,
                f,
                rd,
                (fpu::spec_sign_inject(f, a, b, f3 as u32), 0u32),
            )
            &&& select(w) == 0x05 && f3 <= 1 ==> r == floated(
                s,
                next,
                f,
                rd,
                fpu::spec_min_max(f, a, b, f3 == 1),
            )
            &&& select(w) == 0x14 && f3 <= 2 ==> r == reported(
                s,
                next,
                rd,
                if compared.0 { 1 } else { 0 },
                compared.1,
            )
            &&& f3 > 2 || select(w) == 0x05 && f3 > 1 ==> r == isa::refused(s, w, next)
        }),
{
    let f = format(w);
    let t = s.jump(next);
    let rd = isa::dest(w);
    lemma_op_float(s, w, here, next);
    isa::lemma_word(w);
    lemma_format(w);
    lemma_held(t, f, isa::src1(w));
    lemma_held(t, f, isa::src2(w));
    let (a, b) = (held(s, f, isa::src1(w)), held(s, f, isa::src2(w)));
    let f3 = isa::minor(w);
    if select(w) == 0x04 {
        lemma_floated(s, next, f, rd, (fpu::spec_sign_inject(f, a, b, f3 as u32), 0u32));
    } else if select(w) == 0x05 {
        lemma_floated(s, next, f, rd, fpu::spec_min_max(f, a, b, f3 == 1));
    } else {
        let compared = if f3 == 2 {
            fpu::spec_eq(f, a, b)
        } else {
            fpu::spec_lt(f, a, b, f3 == 0)
        };
        lemma_reported(s, next, rd, if compared.0 { 1u64 } else { 0u64 }, compared.1);
    }
}

/// FCVT.S.D and FCVT.D.S: the destination's format is the word's, and the
/// source's is the other.
pub proof fn law_format_conversions(s: CpuState, w: u32, here: u64, next: u64)
    requires
        s.wf(),
        on(s),
        isa::opcode(w) == 0x53,
        (w as int / 0x200_0000) % 4 < 2,
        select(w) == 0x08,
    ensures
        ({
            let to = format(w);
            let single = Fmt { bits: 32, sig: 23 };
            let from = if to == single { Fmt { bits: 64, sig: 52 } } else { single };
            let named = isa::src2(w) == 1 - (w as int / 0x200_0000) % 4;
            let a = held(s, from, isa::src1(w));
            let known = named && mode_number(s, w) < 5;
            &&& known ==> s.execute(w, here, next) == floated(
                s,
                next,
                to,
                isa::dest(w),
                fpu::spec_convert(from, to, a, mode(mode_number(s, w))),
            )
            &&& !known ==> s.execute(w, here, next) == isa::refused(s, w, next)
        }),
{
    let to = format(w);
    let t = s.jump(next);
    let single = Fmt { bits: 32, sig: 23 };
    let from = if to == single { Fmt { bits: 64, sig: 52 } } else { single };
    lemma_op_float(s, w, here, next);
    isa::lemma_word(w);
    lemma_format(w);
    law_the_dynamic_mode_is_the_one_in_fcsr(t, dynamic(s) as u32);
    law_the_dynamic_mode_is_the_one_in_fcsr(t, isa::minor(w) as u32);
    lemma_held(t, from, isa::src1(w));
    let a = held(s, from, isa::src1(w));
    let v = fpu::spec_convert(from, to, a, mode(mode_number(s, w)));
    lemma_floated(s, next, to, isa::dest(w), v);
}

/// FCVT from an integer register: W, WU, L and LU by number, signed and
/// unsigned, and the last two only on RV64.
pub proof fn law_conversions_from_integers(s: CpuState, w: u32, here: u64, next: u64)
    requires
        s.wf(),
        on(s),
        isa::opcode(w) == 0x53,
        (w as int / 0x200_0000) % 4 < 2,
        select(w) == 0x1a,
    ensures
        ({
            let f = format(w);
            let kind = isa::src2(w);
            let known = (kind < 2 || kind < 4 && s.xlen == Xlen::Rv64) && mode_number(s, w) < 5;
            let limit = if kind < 2 { 0x1_0000_0000int } else { 0x1_0000_0000_0000_0000int };
            let raw = s.regs[isa::src1(w)] as int % limit;
            let n = if kind % 2 == 0 { isa::signed(raw, limit) } else { raw };
            let size = (if n < 0 { -n } else { n }) as u64;
            &&& known ==> s.execute(w, here, next) == floated(
                s,
                next,
                f,
                isa::dest(w),
                fpu::spec_from_int(f, n < 0, size, mode(mode_number(s, w))),
            )
            &&& !known ==> s.execute(w, here, next) == isa::refused(s, w, next)
        }),
{
    let f = format(w);
    let t = s.jump(next);
    lemma_op_float(s, w, here, next);
    isa::lemma_word(w);
    isa::lemma_operands(s, w);
    lemma_format(w);
    law_the_dynamic_mode_is_the_one_in_fcsr(t, dynamic(s) as u32);
    law_the_dynamic_mode_is_the_one_in_fcsr(t, isa::minor(w) as u32);
    let x = s.regs[isa::src1(w)];
    assert(t.x(execute::rs1(w)) == x);
    assert(Xlen::Rv32.wrap(x as int) == x as int % 0x1_0000_0000);
    let kind = isa::src2(w);
    let limit = if kind < 2 { 0x1_0000_0000int } else { 0x1_0000_0000_0000_0000int };
    let raw = x as int % limit;
    let n = if kind % 2 == 0 { isa::signed(raw, limit) } else { raw };
    let size = (if n < 0 { -n } else { n }) as u64;
    lemma_floated(
        s,
        next,
        f,
        isa::dest(w),
        fpu::spec_from_int(f, n < 0, size, mode(mode_number(s, w))),
    );
}

proof fn lemma_to_int(s: CpuState, w: u32, here: u64, next: u64)
    requires
        isa::opcode(w) == 0x53,
        on(s),
        (w as int / 0x200_0000) % 4 < 2,
        select(w) == 0x18,
    ensures
        s.execute(w, here, next) == s.jump(next).exec_to_int(w, format(w)),
{
    lemma_op_float(s, w, here, next);
    isa::lemma_word(w);
    lemma_format(w);
}

/// FCVT to an integer register. A word result is sign-extended, whether it is
/// signed or not.
#[verifier::rlimit(50)]
#[verifier::spinoff_prover]
pub proof fn law_conversions_to_integers(s: CpuState, w: u32, here: u64, next: u64)
    requires
        s.wf(),
        on(s),
        isa::opcode(w) == 0x53,
        (w as int / 0x200_0000) % 4 < 2,
        select(w) == 0x18,
    ensures
        ({
            let f = format(w);
            let kind = isa::src2(w);
            let known = (kind < 2 || kind < 4 && s.xlen == Xlen::Rv64) && mode_number(s, w) < 5;
            let width: u32 = if kind < 2 { 32 } else { 64 };
            let a = held(s, f, isa::src1(w));
            let (v, flags) = fpu::spec_to_int(f, a, width, kind % 2 == 0, mode(mode_number(s, w)));
            let result = if kind < 2 {
                isa::signed(v as int % 0x1_0000_0000, 0x1_0000_0000) % isa::span(s.xlen)
            } else {
                v as int
            };
            &&& known ==> s.execute(w, here, next) == reported(
                s,
                next,
                isa::dest(w),
                result,
                flags,
            )
            &&& !known ==> s.execute(w, here, next) == isa::refused(s, w, next)
        }),
{
    let f = format(w);
    let t = s.jump(next);
    lemma_to_int(s, w, here, next);
    isa::lemma_word(w);
    lemma_format(w);
    law_the_dynamic_mode_is_the_one_in_fcsr(t, dynamic(s) as u32);
    law_the_dynamic_mode_is_the_one_in_fcsr(t, isa::minor(w) as u32);
    lemma_held(t, f, isa::src1(w));
    let kind = isa::src2(w);
    let width: u32 = if kind < 2 { 32 } else { 64 };
    let a = held(s, f, isa::src1(w));
    let (v, flags) = fpu::spec_to_int(f, a, width, kind % 2 == 0, mode(mode_number(s, w)));
    let low = v as int % 0x1_0000_0000;
    lemma2_to64();
    isa::lemma_readings(s.xlen, 0, isa::signed(low, 0x1_0000_0000));
    let result = if kind < 2 {
        isa::signed(low, 0x1_0000_0000) % isa::span(s.xlen)
    } else {
        v as int
    };
    if kind < 2 || s.xlen == Xlen::Rv64 {
        lemma_reported(s, next, isa::dest(w), result as u64, flags);
    }
}

/// FMV and FCLASS. A move to an integer register hands over the raw bits, the
/// low half of them sign-extended for a single, and a move from one takes them
/// as they are; RV32 cannot move a double.
pub proof fn law_moves(s: CpuState, w: u32, here: u64, next: u64)
    requires
        s.wf(),
        on(s),
        isa::opcode(w) == 0x53,
        (w as int / 0x200_0000) % 4 < 2,
        select(w) == 0x1c || select(w) == 0x1e,
    ensures
        ({
            let f = format(w);
            let single = f.bits == 32;
            let f3 = isa::minor(w);
            let rd = isa::dest(w);
            let raw = s.fregs[isa::src1(w)];
            let fits = single || s.xlen == Xlen::Rv64;
            let alone = isa::src2(w) == 0;
            let r = s.execute(w, here, next);
            &&& select(w) == 0x1c && alone && f3 == 1 ==> r == reported(
                s,
                next,
                rd,
                fpu::spec_class(f, held(s, f, isa::src1(w))) as int,
                0,
            )
            &&& select(w) == 0x1c && alone && f3 == 0 && single ==> r == reported(
                s,
                next,
                rd,
                isa::signed(raw as int % 0x1_0000_0000, 0x1_0000_0000) % isa::span(s.xlen),
                0,
            )
            &&& select(w) == 0x1c && alone && f3 == 0 && !single && s.xlen == Xlen::Rv64 ==> r
                == reported(s, next, rd, raw as int, 0)
            &&& select(w) == 0x1e && alone && f3 == 0 && fits ==> r == floated(
                s,
                next,
                f,
                rd,
                (s.regs[isa::src1(w)], 0u32),
            )
            &&& !alone || f3 > 1 || f3 == 1 && select(w) == 0x1e || f3 == 0 && !fits ==> r
                == isa::refused(s, w, next)
        }),
{
    let f = format(w);
    let t = s.jump(next);
    let rd = isa::dest(w);
    lemma_op_float(s, w, here, next);
    isa::lemma_word(w);
    isa::lemma_operands(s, w);
    lemma_format(w);
    lemma_held(t, f, isa::src1(w));
    let raw = s.fregs[isa::src1(w)];
    let low = raw as int % 0x1_0000_0000;
    lemma2_to64();
    isa::lemma_readings(s.xlen, 0, isa::signed(low, 0x1_0000_0000));
    assert(t.x(execute::rs1(w)) == s.regs[isa::src1(w)]);
    if select(w) == 0x1e {
        lemma_floated(s, next, f, rd, (s.regs[isa::src1(w)], 0u32));
    } else if isa::minor(w) == 1 {
        lemma_reported(s, next, rd, fpu::spec_class(f, held(s, f, isa::src1(w))), 0);
    } else if f.bits == 32 {
        lemma_reported(
            s,
            next,
            rd,
            (isa::signed(low, 0x1_0000_0000) % isa::span(s.xlen)) as u64,
            0,
        );
    } else if s.xlen == Xlen::Rv64 {
        lemma_reported(s, next, rd, raw, 0);
    }
}

/// Of the register operations, the ones above are all there are: in single and
/// double, with no second source for a root.
pub proof fn law_unknown_fp_words_are_refused(s: CpuState, w: u32, here: u64, next: u64)
    requires
        isa::opcode(w) == 0x53,
        (w as int / 0x200_0000) % 4 >= 2 || select(w) == 0xb && isa::src2(w) != 0 || !(select(w) < 6
            || select(w) == 0x08 || select(w) == 0xb || select(w) == 0x14 || select(w) == 0x18
            || select(w) == 0x1a || select(w) == 0x1c || select(w) == 0x1e),
    ensures
        s.execute(w, here, next) == isa::refused(s, w, next),
{
    if on(s) {
        lemma_op_float(s, w, here, next);
    } else {
        law_fp_words_need_the_unit(s, w, here, next);
    }
    isa::lemma_word(w);
    lemma_format(w);
}

/// FLW and FLD put the bytes at an address in an f register, and FSW and FSD
/// put the low bytes of an f register, boxed or not, at an address.
pub proof fn law_fp_accesses(s: CpuState, w: u32, here: u64, next: u64)
    requires
        s.wf(),
        on(s),
        isa::physical(s),
        isa::opcode(w) == 0x07 || isa::opcode(w) == 0x27,
    ensures
        ({
            let known = isa::minor(w) == 2 || isa::minor(w) == 3;
            let size = if isa::minor(w) == 2 { 4int } else { 8int };
            let f = if isa::minor(w) == 2 {
                Fmt { bits: 32, sig: 23 }
            } else {
                Fmt { bits: 64, sig: 52 }
            };
            let from = (s.regs[isa::src1(w)] + isa::immediate(w)) % isa::span(s.xlen);
            let to = (s.regs[isa::src1(w)] + isa::store_offset(w)) % isa::span(s.xlen);
            let r = s.execute(w, here, next);
            &&& !known ==> r == isa::refused(s, w, next)
            &&& known && isa::opcode(w) == 0x07 && isa::in_dram(s, from, size) ==> r == floated(
                s,
                next,
                f,
                isa::dest(w),
                (isa::number(s.mem.dram, from - 0x8000_0000, size) as u64, 0u32),
            )
            &&& known && isa::opcode(w) == 0x27 && isa::in_dram(s, to, size) ==> r == (
                isa::stored(s, next, to, size, s.fregs[isa::src2(w)]),
                Ok::<(), Exception>(()),
            )
        }),
{
    let t = s.jump(next);
    lemma_exec_float(s, w, here, next);
    isa::lemma_word(w);
    isa::lemma_operands(s, w);
    let size: u64 = if isa::minor(w) == 2 { 4 } else { 8 };
    let f = if isa::minor(w) == 2 { Fmt { bits: 32, sig: 23 } } else { Fmt { bits: 64, sig: 52 } };
    let from = (s.regs[isa::src1(w)] + isa::immediate(w)) % isa::span(s.xlen);
    let to = (s.regs[isa::src1(w)] + isa::store_offset(w)) % isa::span(s.xlen);
    isa::lemma_readings(s.xlen, 0, s.regs[isa::src1(w)] + isa::immediate(w));
    isa::lemma_readings(s.xlen, 0, s.regs[isa::src1(w)] + isa::store_offset(w));
    assert(t.x(execute::rs1(w)) == s.regs[isa::src1(w)]);
    if isa::opcode(w) == 0x07 {
        if isa::in_dram(s, from, size as int) {
            isa::lemma_load(t, from as u64, size);
            let v = isa::number(s.mem.dram, from - 0x8000_0000, size as int) as u64;
            lemma_floated(s, next, f, isa::dest(w), (v, 0u32));
        }
    } else if isa::in_dram(s, to, size as int) {
        isa::lemma_store(t, to as u64, size, s.fregs[isa::src2(w)]);
    }
}

/// Whatever the way to memory is, an FP load or store asks for its bytes at its
/// address. A fault is passed on, and then no register is written.
pub proof fn law_fp_accesses_pass_faults_on(s: CpuState, w: u32, here: u64, next: u64)
    requires
        s.wf(),
        on(s),
        isa::opcode(w) == 0x07 || isa::opcode(w) == 0x27,
        isa::minor(w) == 2 || isa::minor(w) == 3,
    ensures
        ({
            let size: u64 = if isa::minor(w) == 2 { 4 } else { 8 };
            let f = if isa::minor(w) == 2 {
                Fmt { bits: 32, sig: 23 }
            } else {
                Fmt { bits: 64, sig: 52 }
            };
            let from = (s.regs[isa::src1(w)] + isa::immediate(w)) % isa::span(s.xlen);
            let to = (s.regs[isa::src1(w)] + isa::store_offset(w)) % isa::span(s.xlen);
            let t = CpuState { pc: next, ..s };
            let o = s.execute(w, here, next);
            &&& isa::opcode(w) == 0x07 ==> {
                let (a, r) = t.load(from as u64, size);
                match r {
                    Err(e) => o == (a, Err::<(), Exception>(e)),
                    Ok(v) => o == floated(a, next, f, isa::dest(w), (v, 0u32)),
                }
            }
            &&& isa::opcode(w) == 0x27 ==> o == t.store(to as u64, size, s.fregs[isa::src2(w)])
        }),
{
    let t = s.jump(next);
    lemma_exec_float(s, w, here, next);
    isa::lemma_word(w);
    isa::lemma_operands(s, w);
    let size: u64 = if isa::minor(w) == 2 { 4 } else { 8 };
    let f = if isa::minor(w) == 2 { Fmt { bits: 32, sig: 23 } } else { Fmt { bits: 64, sig: 52 } };
    let from = (s.regs[isa::src1(w)] + isa::immediate(w)) % isa::span(s.xlen);
    isa::lemma_readings(s.xlen, 0, s.regs[isa::src1(w)] + isa::immediate(w));
    isa::lemma_readings(s.xlen, 0, s.regs[isa::src1(w)] + isa::store_offset(w));
    assert(t.x(execute::rs1(w)) == s.regs[isa::src1(w)]);
    if isa::opcode(w) == 0x07 {
        cpu::access::law_a_load_changes_only_memory(t, from as u64, size);
        let (a, r) = t.load(from as u64, size);
        if let Ok(v) = r {
            let b = CpuState { mem: a.mem, ..s };
            lemma_floated(b, next, f, isa::dest(w), (v, 0u32));
        }
    }
}

} // verus!
