//! What the integer instructions do, said of the words themselves: the bits of
//! a word on one side, and registers, bytes and addresses as plain numbers on
//! the other.

use crate::alu;
use crate::cpu;
use crate::cpu::execute;
use crate::cpu::{CpuState, Outcome, Xlen};
use crate::decode;
use crate::memory::{self, MemState};
use crate::trap::{Access, Exception, Priv};
use vstd::arithmetic::div_mod::*;
use vstd::arithmetic::mul::*;
use vstd::arithmetic::power2::*;
use vstd::prelude::*;

verus! {

/// Bits 6:0 of a word.
pub open spec fn opcode(w: u32) -> int {
    w as int % 0x80
}

/// Bits 11:7, the destination.
pub open spec fn dest(w: u32) -> int {
    (w as int / 0x80) % 0x20
}

/// Bits 14:12.
pub open spec fn minor(w: u32) -> int {
    (w as int / 0x1000) % 8
}

/// Bits 19:15, the first source.
pub open spec fn src1(w: u32) -> int {
    (w as int / 0x8000) % 0x20
}

/// Bits 24:20, the second source.
pub open spec fn src2(w: u32) -> int {
    (w as int / 0x10_0000) % 0x20
}

/// Bits 31:25.
pub open spec fn major(w: u32) -> int {
    w as int / 0x200_0000
}

/// One if the top bit is set: what gives every immediate its sign.
pub open spec fn top(w: u32) -> int {
    w as int / 0x8000_0000
}

/// Bits 31:20 in two's complement.
pub open spec fn immediate(w: u32) -> int {
    w as int / 0x10_0000 - 0x1000 * top(w)
}

/// Bits 31:25 over bits 11:7 in two's complement.
pub open spec fn store_offset(w: u32) -> int {
    0x20 * major(w) + dest(w) - 0x1000 * top(w)
}

/// An even 13-bit number: bit 31 is its sign, bit 7 its bit 11, bits 30:25 its
/// bits 10:5 and bits 11:8 its bits 4:1.
pub open spec fn branch_offset(w: u32) -> int {
    2 * ((w as int / 0x100) % 0x10) + 0x20 * (major(w) % 0x40) + 0x800 * ((w as int / 0x80) % 2)
        - 0x1000 * top(w)
}

/// Bits 31:12 in place, in two's complement.
pub open spec fn upper(w: u32) -> int {
    0x1000 * (w as int / 0x1000) - 0x1_0000_0000 * top(w)
}

/// An even 21-bit number: bit 31 is its sign, bits 19:12 its bits 19:12, bit
/// 20 its bit 11 and bits 30:21 its bits 10:1.
pub open spec fn jump_offset(w: u32) -> int {
    2 * ((w as int / 0x20_0000) % 0x400) + 0x800 * ((w as int / 0x10_0000) % 2) + 0x1000 * ((
    w as int / 0x1000) % 0x100) - 0x10_0000 * top(w)
}

/// How many values a register has.
pub open spec fn span(xlen: Xlen) -> int {
    match xlen {
        Xlen::Rv32 => 0x1_0000_0000,
        Xlen::Rv64 => 0x1_0000_0000_0000_0000,
    }
}

pub open spec fn bits(xlen: Xlen) -> int {
    match xlen {
        Xlen::Rv32 => 32,
        Xlen::Rv64 => 64,
    }
}

/// A number below `limit`, read in two's complement.
pub open spec fn signed(v: int, limit: int) -> int {
    if 2 * v >= limit {
        v - limit
    } else {
        v
    }
}

/// The state after an instruction that only writes its destination.
pub open spec fn retired(s: CpuState, next: u64, rd: int, v: int) -> Outcome {
    (
        CpuState {
            pc: next,
            regs: if rd == 0 {
                s.regs
            } else {
                s.regs.update(rd, v as u64)
            },
            ..s
        },
        Ok(()),
    )
}

/// The state after an instruction that does not exist.
pub open spec fn refused(s: CpuState, w: u32, next: u64) -> Outcome {
    (CpuState { pc: next, ..s }, Err(Exception::IllegalInstruction(w)))
}

pub proof fn lemma_word(w: u32)
    ensures
        decode::field(w, 6, 0) == opcode(w),
        execute::rd(w) == dest(w),
        execute::funct3(w) == minor(w),
        execute::rs1(w) == src1(w),
        execute::rs2(w) == src2(w),
        execute::funct7(w) == major(w),
        decode::field(w, 31, 26) == w as int / 0x400_0000,
        decode::field(w, 25, 25) == (w as int / 0x200_0000) % 2,
        decode::field(w, 25, 20) == (w as int / 0x10_0000) % 0x40,
        execute::funct5(w) == w as int / 0x800_0000,
        decode::spec_imm_i(w) == immediate(w),
        decode::spec_imm_s(w) == store_offset(w),
        decode::spec_imm_b(w) == branch_offset(w),
        decode::spec_imm_u(w) == upper(w),
        decode::spec_imm_j(w) == jump_offset(w),
        -2048 <= immediate(w) < 2048,
        -2048 <= store_offset(w) < 2048,
        -0x1000 <= branch_offset(w) < 0x1000,
        -0x8000_0000 <= upper(w) < 0x8000_0000,
        -0x10_0000 <= jump_offset(w) < 0x10_0000,
{
    decode::lemma_fields(w);
    lemma2_to64();
    let n = w as int;
    assert(0 <= n / 0x8000_0000 < 2);
    assert((n / 0x400_0000) % 0x40 == n / 0x400_0000);
    assert((n / 0x800_0000) % 0x20 == n / 0x800_0000);
    assert(n / 0x10_0000 >= 0x800 <==> n >= 0x8000_0000);
}

/// The immediate of every format is the number its bits spell, whatever the
/// rest of the word holds.
pub proof fn law_immediates_are_two_s_complement(w: u32)
    ensures
        decode::spec_imm_i(w) == immediate(w),
        decode::spec_imm_s(w) == store_offset(w),
        decode::spec_imm_b(w) == branch_offset(w),
        decode::spec_imm_u(w) == upper(w),
        decode::spec_imm_j(w) == jump_offset(w),
{
    lemma_word(w);
}

proof fn lemma_fits(s: CpuState, r: int)
    requires
        s.wf(),
        0 <= r < 32,
    ensures
        s.x(r as nat) == s.regs[r],
        0 <= s.regs[r] < span(s.xlen),
        s.xlen.wrap(s.regs[r] as int) == s.regs[r],
        s.xlen.signed(s.regs[r]) == signed(s.regs[r] as int, span(s.xlen)),
{
    match s.xlen {
        Xlen::Rv32 => {},
        Xlen::Rv64 => {},
    }
}

proof fn lemma_write(s: CpuState, next: u64, rd: int, v: int)
    requires
        s.wf(),
        0 <= rd < 32,
        0 <= v < span(s.xlen),
    ensures
        (s.jump(next).set_x(rd as nat, v as u64), Ok::<(), Exception>(())) == retired(
            s,
            next,
            rd,
            v,
        ),
{
    lemma_readings(s.xlen, v as u64, v);
    let w = s.jump(next).set_x(rd as nat, v as u64);
    assert(rd != 0 ==> w.regs == s.regs.update(rd, v as u64));
}

pub proof fn lemma_operands(s: CpuState, w: u32)
    requires
        s.wf(),
    ensures
        0 <= src1(w) < 32,
        0 <= src2(w) < 32,
        0 <= dest(w) < 32,
        s.x(execute::rs1(w)) == s.regs[src1(w)],
        s.x(execute::rs2(w)) == s.regs[src2(w)],
        s.xlen.wrap(s.regs[src1(w)] as int) == s.regs[src1(w)],
        s.xlen.wrap(s.regs[src2(w)] as int) == s.regs[src2(w)],
        s.xlen.signed(s.regs[src1(w)]) == signed(s.regs[src1(w)] as int, span(s.xlen)),
        s.xlen.signed(s.regs[src2(w)]) == signed(s.regs[src2(w)] as int, span(s.xlen)),
        0 <= s.regs[src1(w)] < span(s.xlen),
        0 <= s.regs[src2(w)] < span(s.xlen),
        s.xlen.modulus() == span(s.xlen),
        s.xlen.spec_bits() == bits(s.xlen),
{
    lemma_word(w);
    lemma_fits(s, src1(w));
    lemma_fits(s, src2(w));
}

/// What the eight base operations give on numbers below `2^XLEN`, with the
/// second of a pair selected by `alt`.
#[verifier::opaque]
pub open spec fn base_result(xlen: Xlen, f3: int, alt: bool, a: u64, b: u64) -> int {
    let m = span(xlen);
    let p = pow2((b as int % bits(xlen)) as nat) as int;
    if f3 == 0 {
        if alt {
            (a - b) % m
        } else {
            (a + b) % m
        }
    } else if f3 == 1 {
        (a * p) % m
    } else if f3 == 2 {
        if signed(a as int, m) < signed(b as int, m) {
            1
        } else {
            0
        }
    } else if f3 == 3 {
        if a < b {
            1
        } else {
            0
        }
    } else if f3 == 4 {
        (a ^ b) as int
    } else if f3 == 5 {
        if alt {
            (signed(a as int, m) / p) % m
        } else {
            a as int / p
        }
    } else if f3 == 6 {
        (a | b) as int
    } else {
        (a & b) as int
    }
}

proof fn lemma_bitwise_fits(a: u64, b: u64)
    ensures
        a < 0x1_0000_0000 && b < 0x1_0000_0000 ==> (a ^ b) < 0x1_0000_0000 && (a | b)
            < 0x1_0000_0000 && (a & b) < 0x1_0000_0000,
{
    assert(a < 0x1_0000_0000 && b < 0x1_0000_0000 ==> (a ^ b) < 0x1_0000_0000 && (a | b)
        < 0x1_0000_0000 && (a & b) < 0x1_0000_0000) by (bit_vector);
}

proof fn lemma_base(xlen: Xlen, f3: u32, alt: bool, a: u64, b: u64)
    requires
        a < span(xlen),
        b < span(xlen),
        f3 < 8,
    ensures
        alu::spec_alu(xlen, f3, alt, a, b) == base_result(xlen, f3 as int, alt, a, b),
        0 <= base_result(xlen, f3 as int, alt, a, b) < span(xlen),
{
    reveal(base_result);
    let m = span(xlen);
    let p = pow2((b as int % bits(xlen)) as nat) as int;
    lemma_pow2_pos((b as int % bits(xlen)) as nat);
    lemma_readings(xlen, a, 0);
    lemma_readings(xlen, b, 0);
    if f3 == 0 {
        lemma_readings(xlen, a, a + b);
        lemma_readings(xlen, a, a - b);
    } else if f3 == 1 {
        lemma_readings(xlen, a, a * p);
    } else if f3 == 5 {
        lemma_div_is_ordered_by_denominator(a as int, 1, p);
        lemma_div_basics(a as int);
        lemma_div_pos_is_pos(a as int, p);
        lemma_readings(xlen, a, a as int / p);
        lemma_readings(xlen, a, signed(a as int, m) / p);
    } else if f3 == 4 || f3 >= 6 {
        lemma_bitwise_fits(a, b);
        lemma_readings(xlen, a, (a ^ b) as int);
        lemma_readings(xlen, a, (a | b) as int);
        lemma_readings(xlen, a, (a & b) as int);
    }
}

/// Writing back a result, or refusing the word where there is none.
proof fn lemma_finish(s: CpuState, w: u32, next: u64, v: Option<u64>)
    requires
        s.wf(),
        v matches Some(n) ==> n < span(s.xlen),
    ensures
        s.jump(next).finish(w, v) == match v {
            Some(n) => retired(s, next, dest(w), n as int),
            None => refused(s, w, next),
        },
{
    lemma_word(w);
    match v {
        Some(n) => lemma_write(s, next, dest(w), n as int),
        None => {},
    }
}

proof fn lemma_op(s: CpuState, w: u32, here: u64, next: u64)
    requires
        s.wf(),
        opcode(w) == 0x33,
    ensures
        s.execute(w, here, next) == s.jump(next).finish(
            w,
            execute::spec_op(s.xlen, w, s.regs[src1(w)], s.regs[src2(w)]),
        ),
{
    reveal(CpuState::execute);
    lemma_word(w);
    lemma_operands(s, w);
    let t = s.jump(next);
    assert(t.x(execute::rs1(w)) == s.x(execute::rs1(w)) && t.x(execute::rs2(w)) == s.x(
        execute::rs2(w),
    ));
}

proof fn lemma_op_value(xlen: Xlen, w: u32, a: u64, b: u64)
    requires
        a < span(xlen),
        b < span(xlen),
    ensures
        ({
            let alt = major(w) == 0x20;
            let paired = minor(w) == 0 || minor(w) == 5;
            let v = base_result(xlen, minor(w), alt, a, b);
            &&& 0 <= v < span(xlen)
            &&& major(w) == 0 || (alt && paired) ==> execute::spec_op(xlen, w, a, b) == Some(
                v as u64,
            )
            &&& major(w) == 1 ==> execute::spec_op(xlen, w, a, b) == Some(
                alu::spec_muldiv(xlen, minor(w) as u32, a, b),
            )
            &&& major(w) != 0 && major(w) != 1 && !(alt && paired) ==> execute::spec_op(
                xlen,
                w,
                a,
                b,
            ) is None
        }),
{
    lemma_word(w);
    lemma_base(xlen, minor(w) as u32, major(w) == 0x20, a, b);
}

/// ADD, SUB, SLL, SLT, SLTU, XOR, SRL, SRA, OR and AND: bits 14:12 select the
/// operation and bit 30 the second of a pair, over registers as numbers below
/// `2^XLEN`. Every other word of the opcode but the M extension's is illegal.
pub proof fn law_register_arithmetic(s: CpuState, w: u32, here: u64, next: u64)
    requires
        s.wf(),
        opcode(w) == 0x33,
    ensures
        ({
            let (a, b) = (s.regs[src1(w)], s.regs[src2(w)]);
            let alt = major(w) == 0x20;
            let paired = minor(w) == 0 || minor(w) == 5;
            &&& major(w) == 0 || (alt && paired) ==> s.execute(w, here, next) == retired(
                s,
                next,
                dest(w),
                base_result(s.xlen, minor(w), alt, a, b),
            )
            &&& major(w) != 0 && major(w) != 1 && !(alt && paired) ==> s.execute(w, here, next)
                == refused(s, w, next)
        }),
{
    let (a, b) = (s.regs[src1(w)], s.regs[src2(w)]);
    lemma_operands(s, w);
    lemma_op(s, w, here, next);
    lemma_op_value(s.xlen, w, a, b);
    lemma_finish(s, w, next, execute::spec_op(s.xlen, w, a, b));
}

/// What the M extension owes. A quotient and a remainder are given by what
/// they satisfy: they restore the dividend, the remainder is smaller than the
/// divisor and has the sign of the dividend.
pub open spec fn is_quotient(xlen: Xlen, f3: int, a: int, b: int, v: int) -> bool {
    let m = span(xlen);
    let (sa, sb, sv) = (signed(a, m), signed(b, m), signed(v, m));
    let overflows = sa == -(m / 2) && sb == -1;
    &&& 0 <= v < m
    &&& f3 == 4 ==> if b == 0 {
        v == m - 1
    } else if overflows {
        v == a
    } else {
        let r = sa - sv * sb;
        &&& -alu::magnitude_of(sb) < r < alu::magnitude_of(sb)
        &&& r != 0 ==> (r < 0) == (sa < 0)
    }
    &&& f3 == 5 ==> if b == 0 {
        v == m - 1
    } else {
        v * b <= a < v * b + b
    }
    &&& f3 == 6 ==> if b == 0 {
        v == a
    } else {
        &&& -alu::magnitude_of(sb) < sv < alu::magnitude_of(sb)
        &&& sv != 0 ==> (sv < 0) == (sa < 0)
        &&& exists|q: int| sa == #[trigger] (q * sb) + sv
    }
    &&& f3 == 7 ==> if b == 0 {
        v == a
    } else {
        &&& v < b
        &&& exists|q: int| a == #[trigger] (q * b) + v
    }
}

/// A product is kept in two halves: the low one, and the high one for each
/// choice of signs.
pub open spec fn is_product(xlen: Xlen, f3: int, a: int, b: int, v: int) -> bool {
    let m = span(xlen);
    let (sa, sb, sv) = (signed(a, m), signed(b, m), signed(v, m));
    &&& 0 <= v < m
    &&& f3 == 0 ==> v == (a * b) % m
    &&& f3 == 1 ==> sv * m <= sa * sb < sv * m + m
    &&& f3 == 2 ==> sv * m <= sa * b < sv * m + m
    &&& f3 == 3 ==> v * m <= a * b < v * m + m
}

/// The width's own readings are the plain ones.
pub proof fn lemma_readings(xlen: Xlen, v: u64, x: int)
    ensures
        xlen.modulus() == span(xlen),
        xlen.wrap(x) == x % span(xlen),
        0 <= xlen.wrap(x) < span(xlen),
        v < span(xlen) ==> xlen.signed(v) == signed(v as int, span(xlen)) && xlen.wrap(v as int)
            == v,
        0 <= x < span(xlen) ==> xlen.wrap(x) == x,
        -(span(xlen) / 2) <= x < span(xlen) / 2 ==> signed(xlen.wrap(x) as int, span(xlen)) == x,
{
    if 0 <= x < span(xlen) {
        lemma_small_mod(x as nat, span(xlen) as nat);
    }
    match xlen {
        Xlen::Rv32 => {},
        Xlen::Rv64 => {},
    }
}

proof fn lemma_products(xlen: Xlen, f3: u32, a: u64, b: u64)
    requires
        a < span(xlen),
        b < span(xlen),
        f3 < 4,
    ensures
        is_product(
            xlen,
            f3 as int,
            a as int,
            b as int,
            alu::spec_muldiv(xlen, f3, a, b) as int,
        ),
{
    let m = span(xlen);
    let (low, v) = (alu::spec_muldiv(xlen, 0, a, b), alu::spec_muldiv(xlen, f3, a, b));
    let (sa, sb) = (signed(a as int, m), signed(b as int, m));
    alu::law_the_product_is_split_in_two(xlen, a, b);
    lemma_readings(xlen, a, a * b);
    lemma_readings(xlen, b, (a * b) / m);
    lemma_readings(xlen, v, (sa * sb) / m);
    lemma_readings(xlen, v, (sa * b) / m);
    assert(low == (a * b) % m);
    lemma_mod_bound(a * b, m);
    assert(v < m);
}

/// The bounds of a quotient, and what it leaves.
proof fn lemma_quotient(x: int, y: int, half: int)
    requires
        y != 0,
        -half <= x < half,
        -half <= y < half,
        !(x == -half && y == -1),
    ensures
        -half <= alu::quotient(x, y) < half,
        alu::remainder(x, y) == x - alu::quotient(x, y) * y,
        -alu::magnitude_of(y) < alu::remainder(x, y) < alu::magnitude_of(y),
        alu::remainder(x, y) != 0 ==> (alu::remainder(x, y) < 0) == (x < 0),
        -half < alu::remainder(x, y) < half,
{
    let (u, v) = (alu::magnitude_of(x), alu::magnitude_of(y));
    alu::law_division_is_exact(x, y);
    lemma_mod_bound(u, v);
    lemma_fundamental_div_mod(u, v);
    lemma_div_pos_is_pos(u, v);
    lemma_div_is_ordered_by_denominator(u, 1, v);
    lemma_div_basics(u);
    if v >= 2 {
        lemma_div_is_ordered_by_denominator(u, 2, v);
    }
}

proof fn lemma_signed_quotients(xlen: Xlen, f3: u32, a: u64, b: u64)
    requires
        a < span(xlen),
        b < span(xlen),
        f3 == 4 || f3 == 6,
    ensures
        is_quotient(
            xlen,
            f3 as int,
            a as int,
            b as int,
            alu::spec_muldiv(xlen, f3, a, b) as int,
        ),
{
    let m = span(xlen);
    let (sa, sb) = (signed(a as int, m), signed(b as int, m));
    let v = alu::spec_muldiv(xlen, f3, a, b);
    lemma_readings(xlen, a, -1);
    lemma_readings(xlen, b, a as int);
    alu::law_division_is_total(xlen, a, b);
    let (x, y) = (alu::quotient(sa, sb), alu::remainder(sa, sb));
    lemma_readings(xlen, v, x);
    lemma_readings(xlen, v, y);
    assert(-(m / 2) <= sa < m / 2 && -(m / 2) <= sb < m / 2);
    if b != 0 {
        assert(sb != 0);
        if sa == -(m / 2) && sb == -1 {
            assert(sa == ((-sa) * sb) + 0);
        } else {
            lemma_quotient(sa, sb, m / 2);
            assert(sa == (x * sb) + y);
        }
    }
}

proof fn lemma_unsigned_quotients(xlen: Xlen, f3: u32, a: u64, b: u64)
    requires
        a < span(xlen),
        b < span(xlen),
        f3 == 5 || f3 == 7,
    ensures
        is_quotient(
            xlen,
            f3 as int,
            a as int,
            b as int,
            alu::spec_muldiv(xlen, f3, a, b) as int,
        ),
{
    lemma_readings(xlen, a, -1);
    lemma_readings(xlen, b, a as int);
    alu::law_division_is_total(xlen, a, b);
    if b != 0 {
        let (q, r) = (a as int / b as int, a as int % b as int);
        lemma_readings(xlen, a, q);
        lemma_readings(xlen, a, r);
        lemma_fundamental_div_mod(a as int, b as int);
        lemma_mod_bound(a as int, b as int);
        lemma_mul_is_commutative(q, b as int);
        lemma_div_pos_is_pos(a as int, b as int);
        lemma_div_is_ordered_by_denominator(a as int, 1, b as int);
        lemma_div_basics(a as int);
        assert(a == (q * b) + r);
    }
}

/// MUL, MULH, MULHSU and MULHU.
pub proof fn law_multiplication(s: CpuState, w: u32, here: u64, next: u64) -> (v: int)
    requires
        s.wf(),
        opcode(w) == 0x33,
        major(w) == 1,
        minor(w) < 4,
    ensures
        is_product(
            s.xlen,
            minor(w),
            s.regs[src1(w)] as int,
            s.regs[src2(w)] as int,
            v,
        ),
        s.execute(w, here, next) == retired(s, next, dest(w), v),
{
    let (a, b) = (s.regs[src1(w)], s.regs[src2(w)]);
    let f3 = minor(w) as u32;
    lemma_operands(s, w);
    lemma_op(s, w, here, next);
    lemma_op_value(s.xlen, w, a, b);
    lemma_products(s.xlen, f3, a, b);
    let v = alu::spec_muldiv(s.xlen, f3, a, b);
    lemma_finish(s, w, next, Some(v));
    v as int
}

/// DIV, DIVU, REM and REMU.
pub proof fn law_division(s: CpuState, w: u32, here: u64, next: u64) -> (v: int)
    requires
        s.wf(),
        opcode(w) == 0x33,
        major(w) == 1,
        minor(w) >= 4,
    ensures
        is_quotient(
            s.xlen,
            minor(w),
            s.regs[src1(w)] as int,
            s.regs[src2(w)] as int,
            v,
        ),
        s.execute(w, here, next) == retired(s, next, dest(w), v),
{
    let (a, b) = (s.regs[src1(w)], s.regs[src2(w)]);
    let f3 = minor(w) as u32;
    lemma_operands(s, w);
    lemma_op(s, w, here, next);
    lemma_op_value(s.xlen, w, a, b);
    if f3 == 4 || f3 == 6 {
        lemma_signed_quotients(s.xlen, f3, a, b);
    } else {
        lemma_unsigned_quotients(s.xlen, f3, a, b);
    }
    let v = alu::spec_muldiv(s.xlen, f3, a, b);
    lemma_finish(s, w, next, Some(v));
    v as int
}

/// The amount of an immediate shift: six bits on RV64 and five on RV32.
pub open spec fn shift_amount(xlen: Xlen, w: u32) -> u64 {
    ((w as int / 0x10_0000) % bits(xlen)) as u64
}

/// What stands above the amount: it selects the shift.
pub open spec fn shift_select(xlen: Xlen, w: u32) -> int {
    (w as int / 0x10_0000) / bits(xlen)
}

/// Whether that selects an arithmetic shift: bit 30 and nothing else.
pub open spec fn shift_is_arithmetic(xlen: Xlen, w: u32) -> bool {
    shift_select(xlen, w) == 0x400int / bits(xlen)
}

proof fn lemma_op_imm_value(xlen: Xlen, w: u32, a: u64)
    requires
        a < span(xlen),
    ensures
        ({
            let f3 = minor(w);
            let shift = f3 == 1 || f3 == 5;
            let alt = shift_is_arithmetic(xlen, w);
            let b = if shift { shift_amount(xlen, w) } else { (immediate(w) % span(xlen)) as u64 };
            let v = base_result(xlen, f3, shift && alt, a, b);
            &&& 0 <= v < span(xlen)
            &&& !shift || shift_select(xlen, w) == 0 || (alt && f3 == 5) ==> execute::spec_op_imm(
                xlen,
                w,
                a,
            ) == Some(v as u64)
            &&& shift && shift_select(xlen, w) != 0 && !(alt && f3 == 5) ==> execute::spec_op_imm(
                xlen,
                w,
                a,
            ) is None
        }),
{
    lemma_word(w);
    let f3 = minor(w);
    let shift = f3 == 1 || f3 == 5;
    let b = if shift { shift_amount(xlen, w) } else { (immediate(w) % span(xlen)) as u64 };
    let n = w as int / 0x10_0000;
    let raw = (n % 0x40) as u64;
    lemma_readings(xlen, a, immediate(w));
    lemma_base(xlen, f3 as u32, shift && shift_is_arithmetic(xlen, w), a, b);
    if shift {
        lemma_shift_fields(xlen, w);
    }
}

/// The select bits of a shift as they are looked at.
proof fn lemma_shift_fields(xlen: Xlen, w: u32)
    ensures
        ({
            let amount = (w as int / 0x10_0000) % 0x40;
            let upper_bits = w as int / 0x400_0000;
            let middle = (w as int / 0x200_0000) % 2;
            let none = xlen == Xlen::Rv32 && middle != 0;
            &&& (shift_select(xlen, w) == 0) == (!none && upper_bits == 0)
            &&& shift_is_arithmetic(xlen, w) == (!none && upper_bits == 0x10)
            &&& !none ==> amount == shift_amount(xlen, w)
        }),
{
    let n = w as int / 0x10_0000;
    assert(n / 0x40 == w as int / 0x400_0000);
    assert(n / 0x20 == w as int / 0x200_0000);
    assert(n / 0x40 == (n / 0x20) / 2);
}

proof fn lemma_op_imm(s: CpuState, w: u32, here: u64, next: u64)
    requires
        s.wf(),
        opcode(w) == 0x13,
    ensures
        s.execute(w, here, next) == s.jump(next).finish(
            w,
            execute::spec_op_imm(s.xlen, w, s.regs[src1(w)]),
        ),
{
    reveal(CpuState::execute);
    lemma_word(w);
    lemma_operands(s, w);
    assert(s.jump(next).x(execute::rs1(w)) == s.x(execute::rs1(w)));
}

/// ADDI, SLTI, SLTIU, XORI, ORI and ANDI do to a register and the immediate,
/// sign-extended to the width, what the register forms do to two registers;
/// SLLI, SRLI and SRAI shift by the amount in the word. A shift whose upper
/// bits select neither is illegal.
pub proof fn law_immediate_arithmetic(s: CpuState, w: u32, here: u64, next: u64)
    requires
        s.wf(),
        opcode(w) == 0x13,
    ensures
        ({
            let a = s.regs[src1(w)];
            let f3 = minor(w);
            let shift = f3 == 1 || f3 == 5;
            let alt = shift_is_arithmetic(s.xlen, w);
            let amount = shift_amount(s.xlen, w);
            let imm = (immediate(w) % span(s.xlen)) as u64;
            &&& !shift ==> s.execute(w, here, next) == retired(
                s,
                next,
                dest(w),
                base_result(s.xlen, f3, false, a, imm),
            )
            &&& shift && shift_select(s.xlen, w) == 0 || alt && f3 == 5 ==> s.execute(w, here, next)
                == retired(s, next, dest(w), base_result(s.xlen, f3, alt, a, amount))
            &&& shift && shift_select(s.xlen, w) != 0 && !(alt && f3 == 5) ==> s.execute(
                w,
                here,
                next,
            ) == refused(s, w, next)
        }),
{
    let a = s.regs[src1(w)];
    lemma_operands(s, w);
    lemma_op_imm(s, w, here, next);
    lemma_op_imm_value(s.xlen, w, a);
    lemma_finish(s, w, next, execute::spec_op_imm(s.xlen, w, a));
}

/// A 32-bit number sign-extended to 64 bits.
pub open spec fn widened(v: int) -> int {
    signed(v, 0x1_0000_0000) % 0x1_0000_0000_0000_0000
}

proof fn lemma_finish_word(s: CpuState, w: u32, next: u64, v: Option<u64>)
    requires
        s.wf(),
        s.xlen == Xlen::Rv64,
        v matches Some(n) ==> n < 0x1_0000_0000,
    ensures
        s.jump(next).finish_word(w, v) == match v {
            Some(n) => retired(s, next, dest(w), widened(n as int)),
            None => refused(s, w, next),
        },
{
    lemma_word(w);
    lemma2_to64();
    match v {
        Some(n) => {
            lemma_readings(Xlen::Rv64, n, signed(n as int, 0x1_0000_0000));
            lemma_write(s, next, dest(w), widened(n as int));
        },
        None => {},
    }
}

/// A word operation sees only the low half of its operands.
proof fn lemma_low_alu(f3: u32, alt: bool, a: u64, b: u64)
    requires
        f3 == 0 || f3 == 1 || f3 == 5,
    ensures
        ({
            let x = a % 0x1_0000_0000;
            let y = b % 0x1_0000_0000;
            &&& alu::spec_alu(Xlen::Rv32, f3, alt, a, b) == alu::spec_alu(Xlen::Rv32, f3, alt, x, y)
            &&& alu::spec_alu(Xlen::Rv32, f3, alt, a, b) == alu::spec_alu(Xlen::Rv32, f3, alt, x, b)
        }),
{
    let x = a % 0x1_0000_0000;
    alu::law_word_operations_ignore_the_upper_half(f3, alt, a, b);
    alu::law_word_operations_ignore_the_upper_half(f3, alt, x, b);
    assert(Xlen::Rv32.wrap(x as int) == x && Xlen::Rv32.wrap(a as int) == x);
}

proof fn lemma_low_muldiv(f3: u32, a: u64, b: u64)
    requires
        f3 == 0 || 4 <= f3 < 8,
    ensures
        alu::spec_muldiv(Xlen::Rv32, f3, a, b) == alu::spec_muldiv(
            Xlen::Rv32,
            f3,
            a % 0x1_0000_0000,
            b % 0x1_0000_0000,
        ),
{
    let m = 0x1_0000_0000int;
    let (x, y) = (a % 0x1_0000_0000, b % 0x1_0000_0000);
    lemma_mul_mod_noop(a as int, b as int, m);
    lemma_mul_mod_noop(x as int, y as int, m);
    assert(Xlen::Rv32.wrap(x as int) == x && Xlen::Rv32.wrap(a as int) == x);
    assert(Xlen::Rv32.wrap(y as int) == y && Xlen::Rv32.wrap(b as int) == y);
    assert(Xlen::Rv32.signed(x) == Xlen::Rv32.signed(a));
    assert(Xlen::Rv32.signed(y) == Xlen::Rv32.signed(b));
}

/// Which words of the word opcode exist: the operations with a pair, the left
/// shift, MULW and the four divisions.
pub open spec fn is_word_operation(w: u32) -> bool {
    let f3 = minor(w);
    ||| major(w) == 0 && (f3 == 0 || f3 == 1 || f3 == 5)
    ||| major(w) == 0x20 && (f3 == 0 || f3 == 5)
    ||| major(w) == 1 && (f3 == 0 || f3 >= 4)
}

proof fn lemma_word_op(s: CpuState, w: u32, here: u64, next: u64)
    requires
        s.wf(),
        s.xlen == Xlen::Rv64,
        opcode(w) == 0x3b,
    ensures
        ({
            let (x, y) = (s.regs[src1(w)] % 0x1_0000_0000, s.regs[src2(w)] % 0x1_0000_0000);
            s.execute(w, here, next) == if is_word_operation(w) {
                s.jump(next).finish_word(w, execute::spec_op(Xlen::Rv32, w, x, y))
            } else {
                refused(s, w, next)
            }
        }),
{
    reveal(CpuState::execute);
    lemma_word(w);
    lemma_operands(s, w);
    let t = s.jump(next);
    let (a, b) = (s.regs[src1(w)], s.regs[src2(w)]);
    assert(t.x(execute::rs1(w)) == a && t.x(execute::rs2(w)) == b);
    let f3 = minor(w) as u32;
    if major(w) == 1 {
        if f3 == 0 || f3 >= 4 {
            lemma_low_muldiv(f3, a, b);
        }
    } else if f3 == 0 || f3 == 1 || f3 == 5 {
        lemma_low_alu(f3, false, a, b);
        lemma_low_alu(f3, true, a, b);
    }
}

/// ADDW, SUBW, SLLW, SRLW and SRAW do to the low halves what RV32 does to its
/// registers, and sign-extend the result. RV32 has none of them.
pub proof fn law_word_arithmetic(s: CpuState, w: u32, here: u64, next: u64)
    requires
        s.wf(),
        opcode(w) == 0x3b,
    ensures
        ({
            let (x, y) = (s.regs[src1(w)] % 0x1_0000_0000, s.regs[src2(w)] % 0x1_0000_0000);
            let alt = major(w) == 0x20;
            &&& s.xlen == Xlen::Rv64 && is_word_operation(w) && major(w) != 1 ==> s.execute(
                w,
                here,
                next,
            ) == retired(
                s,
                next,
                dest(w),
                widened(base_result(Xlen::Rv32, minor(w), alt, x, y)),
            )
            &&& s.xlen == Xlen::Rv32 || !is_word_operation(w) ==> s.execute(w, here, next)
                == refused(s, w, next)
        }),
{
    let (x, y) = (s.regs[src1(w)] % 0x1_0000_0000, s.regs[src2(w)] % 0x1_0000_0000);
    if s.xlen == Xlen::Rv64 {
        lemma_word_op(s, w, here, next);
        lemma_op_value(Xlen::Rv32, w, x, y);
        if is_word_operation(w) && major(w) != 1 {
            lemma_finish_word(s, w, next, execute::spec_op(Xlen::Rv32, w, x, y));
        }
    } else {
        reveal(CpuState::execute);
        lemma_word(w);
    }
}

/// MULW multiplies, and DIVW, DIVUW, REMW and REMUW divide, the low halves.
pub proof fn law_word_division(s: CpuState, w: u32, here: u64, next: u64) -> (v: int)
    requires
        s.wf(),
        s.xlen == Xlen::Rv64,
        opcode(w) == 0x3b,
        major(w) == 1,
        minor(w) == 0 || minor(w) >= 4,
    ensures
        ({
            let x = s.regs[src1(w)] as int % 0x1_0000_0000;
            let y = s.regs[src2(w)] as int % 0x1_0000_0000;
            &&& minor(w) == 0 ==> is_product(Xlen::Rv32, 0, x, y, v)
            &&& minor(w) >= 4 ==> is_quotient(Xlen::Rv32, minor(w), x, y, v)
            &&& s.execute(w, here, next) == retired(s, next, dest(w), widened(v))
        }),
{
    let (x, y) = (s.regs[src1(w)] % 0x1_0000_0000, s.regs[src2(w)] % 0x1_0000_0000);
    let f3 = minor(w) as u32;
    lemma_word_op(s, w, here, next);
    lemma_op_value(Xlen::Rv32, w, x, y);
    if f3 == 0 {
        lemma_products(Xlen::Rv32, f3, x, y);
    } else if f3 == 4 || f3 == 6 {
        lemma_signed_quotients(Xlen::Rv32, f3, x, y);
    } else {
        lemma_unsigned_quotients(Xlen::Rv32, f3, x, y);
    }
    let v = alu::spec_muldiv(Xlen::Rv32, f3, x, y);
    lemma_finish_word(s, w, next, Some(v));
    v as int
}

proof fn lemma_word_op_imm(s: CpuState, w: u32, here: u64, next: u64)
    requires
        s.wf(),
        s.xlen == Xlen::Rv64,
        opcode(w) == 0x1b,
    ensures
        ({
            let x = s.regs[src1(w)] % 0x1_0000_0000;
            let f3 = minor(w);
            s.execute(w, here, next) == if f3 == 0 || f3 == 1 || f3 == 5 {
                s.jump(next).finish_word(w, execute::spec_op_imm(Xlen::Rv32, w, x))
            } else {
                refused(s, w, next)
            }
        }),
{
    reveal(CpuState::execute);
    lemma_word(w);
    lemma_operands(s, w);
    let a = s.regs[src1(w)];
    assert(s.jump(next).x(execute::rs1(w)) == a);
    let f3 = minor(w) as u32;
    let n = decode::field(w, 25, 20) as u64;
    if f3 == 0 || f3 == 1 || f3 == 5 {
        lemma_low_alu(f3, false, a, Xlen::Rv32.wrap(decode::spec_imm_i(w)));
        lemma_low_alu(f3, false, a, n);
        lemma_low_alu(f3, true, a, n);
    }
}

/// ADDIW, SLLIW, SRLIW and SRAIW do to the low half what RV32 does to its
/// registers, with a five-bit shift amount, and sign-extend the result.
pub proof fn law_word_immediate_arithmetic(s: CpuState, w: u32, here: u64, next: u64)
    requires
        s.wf(),
        opcode(w) == 0x1b,
    ensures
        ({
            let x = s.regs[src1(w)] % 0x1_0000_0000;
            let f3 = minor(w);
            let (select, alt) = (shift_select(Xlen::Rv32, w), shift_is_arithmetic(Xlen::Rv32, w));
            let shifts = f3 == 1 && select == 0 || f3 == 5 && (select == 0 || alt);
            let imm = (immediate(w) % 0x1_0000_0000) as u64;
            &&& s.xlen == Xlen::Rv64 && f3 == 0 ==> s.execute(w, here, next) == retired(
                s,
                next,
                dest(w),
                widened(base_result(Xlen::Rv32, 0, false, x, imm)),
            )
            &&& s.xlen == Xlen::Rv64 && shifts ==> s.execute(w, here, next) == retired(
                s,
                next,
                dest(w),
                widened(base_result(Xlen::Rv32, f3, alt, x, shift_amount(Xlen::Rv32, w))),
            )
            &&& s.xlen == Xlen::Rv32 || (f3 != 0 && !shifts) ==> s.execute(w, here, next)
                == refused(s, w, next)
        }),
{
    let x = s.regs[src1(w)] % 0x1_0000_0000;
    if s.xlen == Xlen::Rv64 {
        lemma_word_op_imm(s, w, here, next);
        lemma_op_imm_value(Xlen::Rv32, w, x);
        lemma_finish_word(s, w, next, execute::spec_op_imm(Xlen::Rv32, w, x));
    } else {
        reveal(CpuState::execute);
        lemma_word(w);
    }
}

/// LUI puts the upper immediate in the destination, and AUIPC adds it to the
/// address of the instruction itself.
pub proof fn law_upper_immediate_words(s: CpuState, w: u32, here: u64, next: u64)
    requires
        s.wf(),
    ensures
        opcode(w) == 0x37 ==> s.execute(w, here, next) == retired(
            s,
            next,
            dest(w),
            upper(w) % span(s.xlen),
        ),
        opcode(w) == 0x17 ==> s.execute(w, here, next) == retired(
            s,
            next,
            dest(w),
            (here + upper(w)) % span(s.xlen),
        ),
{
    lemma_word(w);
    lemma_readings(s.xlen, 0, upper(w));
    lemma_readings(s.xlen, 0, here + upper(w));
    lemma_write(s, next, dest(w), upper(w) % span(s.xlen));
    lemma_write(s, next, dest(w), (here + upper(w)) % span(s.xlen));
    if opcode(w) == 0x37 || opcode(w) == 0x17 {
        reveal(CpuState::execute);
    }
}

/// JAL jumps relative to its own address and JALR relative to a register, to
/// an even address; both leave the address of the instruction after them in
/// the destination. The register is read before it is written.
pub proof fn law_jump_words(s: CpuState, w: u32, here: u64, next: u64)
    requires
        s.wf(),
        next < span(s.xlen),
    ensures
        opcode(w) == 0x6f ==> s.execute(w, here, next) == retired(
            s,
            ((here + jump_offset(w)) % span(s.xlen)) as u64,
            dest(w),
            next as int,
        ),
        opcode(w) == 0x67 && minor(w) == 0 ==> ({
            let target = (s.regs[src1(w)] + immediate(w)) % span(s.xlen);
            s.execute(w, here, next) == retired(
                s,
                (target - target % 2) as u64,
                dest(w),
                next as int,
            )
        }),
        opcode(w) == 0x67 && minor(w) != 0 ==> s.execute(w, here, next) == refused(s, w, next),
{
    lemma_word(w);
    lemma_operands(s, w);
    lemma_readings(s.xlen, next, here + jump_offset(w));
    lemma_readings(s.xlen, next, s.regs[src1(w)] + immediate(w));
    assert(s.jump(next).x(execute::rs1(w)) == s.regs[src1(w)]);
    if opcode(w) == 0x6f || opcode(w) == 0x67 {
        reveal(CpuState::execute);
    }
}

/// BEQ, BNE, BLT, BGE, BLTU and BGEU compare two registers, as numbers or in
/// two's complement, and jump relative to their own address where it holds.
pub proof fn law_branch_words(s: CpuState, w: u32, here: u64, next: u64)
    requires
        s.wf(),
        opcode(w) == 0x63,
    ensures
        ({
            let m = span(s.xlen);
            let (a, b) = (s.regs[src1(w)] as int, s.regs[src2(w)] as int);
            let f3 = minor(w);
            let taken = f3 == 0 && a == b || f3 == 1 && a != b || f3 == 4 && signed(a, m) < signed(
                b,
                m,
            ) || f3 == 5 && signed(a, m) >= signed(b, m) || f3 == 6 && a < b || f3 == 7 && a >= b;
            let target = ((here + branch_offset(w)) % m) as u64;
            s.execute(w, here, next) == if f3 == 2 || f3 == 3 {
                refused(s, w, next)
            } else if taken {
                (CpuState { pc: target, ..s }, Ok::<(), Exception>(()))
            } else {
                (CpuState { pc: next, ..s }, Ok::<(), Exception>(()))
            }
        }),
{
    reveal(CpuState::execute);
    lemma_word(w);
    lemma_operands(s, w);
    lemma_readings(s.xlen, 0, here + branch_offset(w));
    let t = s.jump(next);
    assert(t.x(execute::rs1(w)) == s.regs[src1(w)] && t.x(execute::rs2(w)) == s.regs[src2(w)]);
}

/// A fence is a step to the next instruction, and an opcode that is none of
/// the hart's is illegal.
pub proof fn law_every_other_opcode_is_refused(s: CpuState, w: u32, here: u64, next: u64)
    ensures
        opcode(w) == 0x0f ==> s.execute(w, here, next) == (
            CpuState { pc: next, ..s },
            Ok::<(), Exception>(()),
        ),
        !(opcode(w) == 0x03 || opcode(w) == 0x07 || opcode(w) == 0x0f || opcode(w) == 0x13
            || opcode(w) == 0x17 || opcode(w) == 0x1b || opcode(w) == 0x23 || opcode(w) == 0x27
            || opcode(w) == 0x2f || opcode(w) == 0x33 || opcode(w) == 0x37 || opcode(w) == 0x3b
            || opcode(w) == 0x43 || opcode(w) == 0x47 || opcode(w) == 0x4b || opcode(w) == 0x4f
            || opcode(w) == 0x53 || opcode(w) == 0x63 || opcode(w) == 0x67 || opcode(w) == 0x6f
            || opcode(w) == 0x73) ==> s.execute(w, here, next) == refused(s, w, next),
{
    reveal(CpuState::execute);
    lemma_word(w);
}

/// The number in 1, 2, 4 or 8 bytes of DRAM, least significant first.
pub open spec fn number(d: Seq<u8>, i: int, size: int) -> int {
    if size == 1 {
        d[i] as int
    } else if size == 2 {
        d[i] + 0x100 * d[i + 1]
    } else if size == 4 {
        d[i] + 0x100 * d[i + 1] + 0x1_0000 * d[i + 2] + 0x100_0000 * d[i + 3]
    } else {
        d[i] + 0x100 * d[i + 1] + 0x1_0000 * d[i + 2] + 0x100_0000 * d[i + 3] + 0x1_0000_0000
            * d[i + 4] + 0x100_0000_0000 * d[i + 5] + 0x1_0000_0000_0000 * d[i + 6]
            + 0x100_0000_0000_0000 * d[i + 7]
    }
}

proof fn lemma_first_byte(d: Seq<u8>, i: int, n: int)
    requires
        0 <= i,
        0 < n,
        i + n <= d.len(),
    ensures
        memory::le_value(d.subrange(i, i + n)) == d[i] + 256 * memory::le_value(
            d.subrange(i + 1, i + n),
        ),
{
    assert(d.subrange(i, i + n).drop_first() =~= d.subrange(i + 1, i + n));
}

pub proof fn lemma_number(d: Seq<u8>, i: int, n: int)
    requires
        0 <= i,
        n == 1 || n == 2 || n == 4 || n == 8,
        i + n <= d.len(),
    ensures
        memory::le_value(d.subrange(i, i + n)) == number(d, i, n),
        0 <= number(d, i, n) < pow2((8 * n) as nat),
{
    let end = i + n;
    assert(memory::le_value(d.subrange(end, end)) == 0);
    lemma_first_byte(d, end - 1, 1);
    if n >= 2 {
        lemma_first_byte(d, end - 2, 2);
    }
    if n >= 4 {
        lemma_first_byte(d, end - 3, 3);
        lemma_first_byte(d, end - 4, 4);
    }
    if n >= 8 {
        lemma_first_byte(d, end - 5, 5);
        lemma_first_byte(d, end - 6, 6);
        lemma_first_byte(d, end - 7, 7);
        lemma_first_byte(d, end - 8, 8);
    }
    memory::lemma_le_value_bound(d.subrange(i, end));
}

/// In machine mode, with MPRV (bit 17 of `mstatus`) clear, addresses are
/// physical.
pub open spec fn physical(s: CpuState) -> bool {
    s.priv_mode == Priv::Machine && s.csrs.regs[0x300] & 0x2_0000 == 0
}

/// Whether `size` bytes from an address lie in DRAM, which starts at 2^31.
pub open spec fn in_dram(s: CpuState, va: int, size: int) -> bool {
    0x8000_0000 <= va && va - 0x8000_0000 + size <= s.mem.dram.len()
}

proof fn lemma_physical(s: CpuState, access: Access)
    requires
        physical(s),
    ensures
        s.untranslated(access),
{
}

pub proof fn lemma_load(s: CpuState, va: u64, size: u64)
    requires
        physical(s),
        size == 1 || size == 2 || size == 4 || size == 8,
        in_dram(s, va as int, size as int),
    ensures
        ({
            let v = number(s.mem.dram, va - 0x8000_0000, size as int);
            &&& s.load(va, size) == (s, Ok::<u64, Exception>(v as u64))
            &&& 0 <= v < pow2((8 * size) as nat)
            &&& size == 1 ==> v < 0x100
            &&& size == 2 ==> v < 0x1_0000
            &&& size == 4 ==> v < 0x1_0000_0000
            &&& v <= u64::MAX
        }),
{
    reveal(CpuState::load);
    lemma_physical(s, Access::Load);
    lemma_number(s.mem.dram, va - 0x8000_0000, size as int);
    memory::law_a_load_leaves_memory_alone(s.mem, va, size);
    lemma2_to64();
    lemma2_to64_rest();
}

/// How many bytes a load or a store moves: two to the power of the low two
/// bits of its bits 14:12.
pub open spec fn access_size(w: u32) -> int {
    if minor(w) % 4 == 0 {
        1
    } else if minor(w) % 4 == 1 {
        2
    } else if minor(w) % 4 == 2 {
        4
    } else {
        8
    }
}

/// How many values that many bytes have.
pub open spec fn access_span(w: u32) -> int {
    if minor(w) % 4 == 0 {
        0x100
    } else if minor(w) % 4 == 1 {
        0x1_0000
    } else if minor(w) % 4 == 2 {
        0x1_0000_0000
    } else {
        0x1_0000_0000_0000_0000
    }
}

/// Which loads exist: LB, LH, LW, LBU and LHU, and on RV64 also LD and LWU.
pub open spec fn is_load(xlen: Xlen, w: u32) -> bool {
    let f3 = minor(w);
    f3 == 0 || f3 == 1 || f3 == 2 || f3 == 4 || f3 == 5 || (xlen == Xlen::Rv64 && (f3 == 3 || f3
        == 6))
}

/// A load puts the number in its bytes in the destination, in two's complement
/// where bit 14 is clear and as it is where bit 14 is set, and changes nothing
/// else.
pub proof fn law_load_words(s: CpuState, w: u32, here: u64, next: u64)
    requires
        s.wf(),
        opcode(w) == 0x03,
        physical(s),
    ensures
        ({
            let va = (s.regs[src1(w)] + immediate(w)) % span(s.xlen);
            let v = number(s.mem.dram, va - 0x8000_0000, access_size(w));
            let read = if minor(w) < 4 { signed(v, access_span(w)) } else { v };
            &&& is_load(s.xlen, w) && in_dram(s, va, access_size(w)) ==> s.execute(w, here, next)
                == retired(s, next, dest(w), read % span(s.xlen))
            &&& !is_load(s.xlen, w) ==> s.execute(w, here, next) == refused(s, w, next)
        }),
{
    lemma_word(w);
    lemma_operands(s, w);
    let t = s.jump(next);
    let va = (s.regs[src1(w)] + immediate(w)) % span(s.xlen);
    lemma_readings(s.xlen, 0, s.regs[src1(w)] + immediate(w));
    assert(t.x(execute::rs1(w)) == s.regs[src1(w)]);
    lemma_exec_load(s, w, here, next);
    if is_load(s.xlen, w) && in_dram(s, va, access_size(w)) {
        let size = access_size(w) as u64;
        lemma_load(t, va as u64, size);
        let v = number(s.mem.dram, va - 0x8000_0000, access_size(w));
        let read = if minor(w) < 4 { signed(v, access_span(w)) } else { v };
        lemma2_to64();
        lemma2_to64_rest();
        lemma_readings(s.xlen, 0, read);
        assert(minor(w) < 4 ==> s.xlen.extended(v as u64, (8 * size) as nat) == read % span(
            s.xlen,
        ));
        assert(minor(w) >= 4 ==> v == read % span(s.xlen));
        lemma_write(s, next, dest(w), read % span(s.xlen));
    }
}

proof fn lemma_exec_load(s: CpuState, w: u32, here: u64, next: u64)
    requires
        opcode(w) == 0x03,
    ensures
        s.execute(w, here, next) == s.jump(next).exec_load(w),
{
    reveal(CpuState::execute);
    lemma_word(w);
}

proof fn lemma_exec_store(s: CpuState, w: u32, here: u64, next: u64)
    requires
        opcode(w) == 0x23,
    ensures
        s.execute(w, here, next) == s.jump(next).exec_store(w),
{
    reveal(CpuState::execute);
    lemma_word(w);
}

/// DRAM with the low bytes of a number put at an index.
pub open spec fn poked(d: Seq<u8>, i: int, size: int, v: int) -> Seq<u8> {
    Seq::new(
        d.len(),
        |j: int|
            if i <= j < i + size {
                ((v / pow2((8 * (j - i)) as nat) as int) % 0x100) as u8
            } else {
                d[j]
            },
    )
}

/// The state after a store of `size` bytes to DRAM: exactly those bytes have
/// changed, and the whole value is latched if that is where `tohost` is.
pub open spec fn stored(s: CpuState, next: u64, va: int, size: int, v: u64) -> CpuState {
    CpuState {
        pc: next,
        mem: MemState {
            dram: poked(s.mem.dram, va - 0x8000_0000, size, v as int),
            tohost_value: if s.mem.tohost == Some(va as u64) && v != 0 {
                Some(v)
            } else {
                s.mem.tohost_value
            },
            ..s.mem
        },
        ..s
    }
}

pub proof fn lemma_store(s: CpuState, va: u64, size: u64, v: u64)
    requires
        physical(s),
        size <= 8,
        in_dram(s, va as int, size as int),
    ensures
        s.store(va, size, v) == (
            stored(s, s.pc, va as int, size as int, v),
            Ok::<(), Exception>(()),
        ),
{
    reveal(CpuState::store);
    lemma_physical(s, Access::Store);
    let i = va - 0x8000_0000;
    assert(memory::overlay(s.mem.dram, i, memory::le_bytes(v as nat, size as nat)) =~= poked(
        s.mem.dram,
        i,
        size as int,
        v as int,
    ));
}

/// SB, SH, SW and on RV64 SD change exactly the bytes from their address on
/// that their size names, to the low bytes of the second source, and nothing
/// else. RV32 has no SD.
pub proof fn law_store_words(s: CpuState, w: u32, here: u64, next: u64)
    requires
        s.wf(),
        opcode(w) == 0x23,
        physical(s),
    ensures
        ({
            let va = (s.regs[src1(w)] + store_offset(w)) % span(s.xlen);
            let exists_here = minor(w) < 3 || minor(w) == 3 && s.xlen == Xlen::Rv64;
            &&& exists_here && in_dram(s, va, access_size(w)) ==> s.execute(w, here, next) == (
                stored(s, next, va, access_size(w), s.regs[src2(w)]),
                Ok::<(), Exception>(()),
            )
            &&& !exists_here ==> s.execute(w, here, next) == refused(s, w, next)
        }),
{
    lemma_word(w);
    lemma_operands(s, w);
    let t = s.jump(next);
    let va = (s.regs[src1(w)] + store_offset(w)) % span(s.xlen);
    lemma_readings(s.xlen, 0, s.regs[src1(w)] + store_offset(w));
    assert(t.x(execute::rs1(w)) == s.regs[src1(w)] && t.x(execute::rs2(w)) == s.regs[src2(w)]);
    lemma_exec_store(s, w, here, next);
    if in_dram(s, va, access_size(w)) {
        lemma_store(t, va as u64, access_size(w) as u64, s.regs[src2(w)]);
    }
}

/// What a load of the same size finds where a store has just been: the low
/// bytes of what was stored.
pub proof fn law_a_stored_number_loads_back(d: Seq<u8>, i: int, size: int, v: u64)
    requires
        0 <= i,
        size == 1 || size == 2 || size == 4 || size == 8,
        i + size <= d.len(),
    ensures
        number(poked(d, i, size, v as int), i, size) == v as int % pow2((8 * size) as nat) as int,
        poked(d, i, size, v as int).len() == d.len(),
        forall|j: int|
            0 <= j < d.len() && !(i <= j < i + size) ==> #[trigger] poked(d, i, size, v as int)[j]
                == d[j],
{
    let e = poked(d, i, size, v as int);
    lemma_number(e, i, size);
    memory::lemma_le_round_trip(v as nat, size as nat);
    assert(e.subrange(i, i + size) =~= memory::le_bytes(v as nat, size as nat));
}

/// What an atomic operation leaves in memory, given what was there and the
/// operand, both numbers of its size.
pub open spec fn combined(op: int, old_value: u64, operand: u64, limit: int) -> int {
    let (a, b) = (old_value as int, operand as int);
    let (sa, sb) = (signed(a, limit), signed(b, limit));
    if op == 0 {
        (a + b) % limit
    } else if op == 1 {
        b
    } else if op == 4 {
        (old_value ^ operand) as int
    } else if op == 8 {
        (old_value | operand) as int
    } else if op == 0xc {
        (old_value & operand) as int
    } else if op == 0x10 {
        if sa < sb { a } else { b }
    } else if op == 0x14 {
        if sa > sb { a } else { b }
    } else if op == 0x18 {
        if a < b { a } else { b }
    } else {
        if a > b { a } else { b }
    }
}

/// Which operations exist: AMOADD, AMOSWAP, AMOXOR, AMOOR, AMOAND, AMOMIN,
/// AMOMAX, AMOMINU and AMOMAXU.
pub open spec fn is_amo(op: int) -> bool {
    op == 0 || op == 1 || op == 4 || op == 8 || op == 0xc || op == 0x10 || op == 0x14 || op == 0x18
        || op == 0x1c
}

proof fn lemma_low_bitwise(a: u64, b: u64)
    ensures
        (a ^ b) % 0x1_0000_0000 == (a % 0x1_0000_0000) ^ (b % 0x1_0000_0000),
        (a | b) % 0x1_0000_0000 == (a % 0x1_0000_0000) | (b % 0x1_0000_0000),
        (a & b) % 0x1_0000_0000 == (a % 0x1_0000_0000) & (b % 0x1_0000_0000),
{
    assert((a ^ b) % 0x1_0000_0000 == (a % 0x1_0000_0000) ^ (b % 0x1_0000_0000) && (a | b)
        % 0x1_0000_0000 == (a % 0x1_0000_0000) | (b % 0x1_0000_0000) && (a & b) % 0x1_0000_0000
        == (a % 0x1_0000_0000) & (b % 0x1_0000_0000)) by (bit_vector);
}

proof fn lemma_combined(width: Xlen, op: u32, a: u64, b: u64)
    requires
        a < span(width),
    ensures
        is_amo(op as int) == (alu::spec_amo(width, op, a, b) is Some),
        ({
            let y = (b as int % span(width)) as u64;
            is_amo(op as int) ==> alu::spec_amo(width, op, a, b) == Some(
                combined(op as int, a, y, span(width)) as u64,
            ) && 0 <= combined(op as int, a, y, span(width)) < span(width)
        }),
{
    let m = span(width);
    let y = (b as int % m) as u64;
    lemma_readings(width, a, b as int);
    lemma_readings(width, y, y as int);
    lemma_readings(width, a, a + b);
    lemma_readings(width, a, a as int);
    lemma_low_bitwise(a, b);
    lemma_bitwise_fits(a, y);
    lemma_readings(width, a, (a ^ b) as int);
    lemma_readings(width, a, (a | b) as int);
    lemma_readings(width, a, (a & b) as int);
    assert(width.signed(b) == signed(y as int, m)) by {
        match width {
            Xlen::Rv32 => {},
            Xlen::Rv64 => {},
        }
    }
    assert((a + b) % m == (a + y) % m) by {
        match width {
            Xlen::Rv32 => {},
            Xlen::Rv64 => {},
        }
    }
}

proof fn lemma_exec_amo(s: CpuState, w: u32, here: u64, next: u64)
    requires
        opcode(w) == 0x2f,
    ensures
        s.execute(w, here, next) == s.jump(next).exec_amo(w),
{
    reveal(CpuState::execute);
    lemma_word(w);
}

/// Which of the three kinds of atomic a word is.
proof fn lemma_amo_kind(s: CpuState, w: u32, here: u64, next: u64)
    requires
        s.wf(),
        opcode(w) == 0x2f,
        minor(w) == 2 || minor(w) == 3 && s.xlen == Xlen::Rv64,
        s.regs[src1(w)] as int % access_size(w) == 0,
    ensures
        ({
            let va = s.regs[src1(w)];
            let size = access_size(w) as u64;
            let t = s.jump(next);
            let width = if minor(w) == 2 { Xlen::Rv32 } else { Xlen::Rv64 };
            let op = w as int / 0x800_0000;
            &&& is_amo(op) ==> s.execute(w, here, next) == t.exec_rmw(w, va, size, width)
            &&& op == 2 ==> s.execute(w, here, next) == t.exec_lr(w, va, size)
            &&& op == 3 ==> s.execute(w, here, next) == t.exec_sc(w, va, size)
        }),
{
    lemma_word(w);
    lemma_operands(s, w);
    lemma_exec_amo(s, w, here, next);
    assert(s.jump(next).x(execute::rs1(w)) == s.regs[src1(w)]);
    let op = (w as int / 0x800_0000) as u32;
    lemma_combined(Xlen::Rv32, op, 0, 0);
    lemma_combined(Xlen::Rv64, op, 0, 0);
}

/// What an atomic of this size leaves in its destination: the number that was
/// in memory, in two's complement.
pub open spec fn fetched(s: CpuState, w: u32) -> int {
    signed(
        number(s.mem.dram, s.regs[src1(w)] - 0x8000_0000, access_size(w)),
        access_span(w),
    ) % span(s.xlen)
}

proof fn lemma_fetched(s: CpuState, w: u32)
    requires
        s.wf(),
        in_dram(s, s.regs[src1(w)] as int, access_size(w)),
        minor(w) == 2 || minor(w) == 3 && s.xlen == Xlen::Rv64,
    ensures
        ({
            let v = number(s.mem.dram, s.regs[src1(w)] - 0x8000_0000, access_size(w));
            &&& 0 <= v < access_span(w)
            &&& s.xlen.extended(v as u64, (8 * access_size(w)) as nat) == fetched(s, w)
            &&& 0 <= fetched(s, w) < span(s.xlen)
        }),
{
    let v = number(s.mem.dram, s.regs[src1(w)] - 0x8000_0000, access_size(w));
    lemma_number(s.mem.dram, s.regs[src1(w)] - 0x8000_0000, access_size(w));
    lemma2_to64();
    lemma2_to64_rest();
    lemma_readings(s.xlen, 0, signed(v, access_span(w)));
}

/// The atomics on words, and on RV64 on doublewords: bits 31:27 select the
/// operation. Each leaves the number that was there in the destination and the
/// combination of that with the second source in memory.
pub proof fn law_atomic_words(s: CpuState, w: u32, here: u64, next: u64)
    requires
        s.wf(),
        opcode(w) == 0x2f,
        physical(s),
        minor(w) == 2 || minor(w) == 3 && s.xlen == Xlen::Rv64,
        is_amo(w as int / 0x800_0000),
        s.regs[src1(w)] as int % access_size(w) == 0,
        in_dram(s, s.regs[src1(w)] as int, access_size(w)),
    ensures
        ({
            let va = s.regs[src1(w)] as int;
            let old_value = number(s.mem.dram, va - 0x8000_0000, access_size(w));
            let operand = s.regs[src2(w)] as int % access_span(w);
            let new_value = combined(
                w as int / 0x800_0000,
                old_value as u64,
                operand as u64,
                access_span(w),
            );
            s.execute(w, here, next) == retired(
                stored(s, next, va, access_size(w), new_value as u64),
                next,
                dest(w),
                fetched(s, w),
            )
        }),
{
    lemma_word(w);
    lemma_operands(s, w);
    lemma_fetched(s, w);
    lemma_amo_kind(s, w, here, next);
    let t = s.jump(next);
    let va = s.regs[src1(w)];
    let (size, limit) = (access_size(w) as u64, access_span(w));
    assert(t.x(execute::rs2(w)) == s.regs[src2(w)]);
    let width = if minor(w) == 2 { Xlen::Rv32 } else { Xlen::Rv64 };
    let op = (w as int / 0x800_0000) as u32;
    let old_value = number(s.mem.dram, va - 0x8000_0000, size as int) as u64;
    let v = combined(op as int, old_value, (s.regs[src2(w)] as int % limit) as u64, limit) as u64;
    lemma_combined(width, op, old_value, s.regs[src2(w)]);
    lemma_rmw(t, w, va, size, width, old_value, v);
    lemma_write_after(stored(t, next, va as int, size as int, v), dest(w), fetched(s, w));
}

/// Writing the destination of an instruction that has already moved on.
proof fn lemma_write_after(t: CpuState, rd: int, v: int)
    requires
        0 <= rd < 32,
        0 <= v < span(t.xlen),
    ensures
        (t.set_x(rd as nat, v as u64), Ok::<(), Exception>(())) == retired(t, t.pc, rd, v),
{
    lemma_readings(t.xlen, v as u64, v);
}

proof fn lemma_rmw(
    t: CpuState,
    w: u32,
    va: u64,
    size: u64,
    width: Xlen,
    old_value: u64,
    v: u64,
)
    requires
        physical(t),
        size == 4 || size == 8,
        in_dram(t, va as int, size as int),
        old_value == number(t.mem.dram, va - 0x8000_0000, size as int),
        alu::spec_amo(width, execute::funct5(w), old_value, t.x(execute::rs2(w))) == Some(v),
    ensures
        t.exec_rmw(w, va, size, width) == (
            stored(t, t.pc, va as int, size as int, v).set_x(
                execute::rd(w),
                t.xlen.extended(old_value, (8 * size) as nat),
            ),
            Ok::<(), Exception>(()),
        ),
{
    reveal(CpuState::translate);
    lemma_physical(t, Access::Store);
    lemma_number(t.mem.dram, va - 0x8000_0000, size as int);
    memory::law_a_load_leaves_memory_alone(t.mem, va, size);
    let i = va - 0x8000_0000;
    assert(memory::overlay(t.mem.dram, i, memory::le_bytes(v as nat, size as nat)) =~= poked(
        t.mem.dram,
        i,
        size as int,
        v as int,
    ));
}

/// LR loads and reserves its address. SC stores where that address is
/// reserved, and says 0; elsewhere it stores nothing and says 1. Either way no
/// address stays reserved.
pub proof fn law_reservations(s: CpuState, w: u32, here: u64, next: u64)
    requires
        s.wf(),
        opcode(w) == 0x2f,
        physical(s),
        minor(w) == 2 || minor(w) == 3 && s.xlen == Xlen::Rv64,
        s.regs[src1(w)] as int % access_size(w) == 0,
        in_dram(s, s.regs[src1(w)] as int, access_size(w)),
    ensures
        ({
            let va = s.regs[src1(w)];
            let free = CpuState { reservation: None, ..s };
            &&& w as int / 0x800_0000 == 2 ==> s.execute(w, here, next) == retired(
                CpuState { reservation: Some(va), ..s },
                next,
                dest(w),
                fetched(s, w),
            )
            &&& w as int / 0x800_0000 == 3 && s.reservation == Some(va) ==> s.execute(w, here, next)
                == retired(
                stored(free, next, va as int, access_size(w), s.regs[src2(w)]),
                next,
                dest(w),
                0,
            )
            &&& w as int / 0x800_0000 == 3 && s.reservation != Some(va) ==> s.execute(w, here, next)
                == retired(free, next, dest(w), 1)
        }),
{
    lemma_word(w);
    lemma_operands(s, w);
    lemma_fetched(s, w);
    lemma_amo_kind(s, w, here, next);
    let t = s.jump(next);
    let va = s.regs[src1(w)];
    let size = access_size(w) as u64;
    assert(t.x(execute::rs2(w)) == s.regs[src2(w)]);
    lemma_load(t, va, size);
    let free = CpuState { reservation: None, ..t };
    lemma_store(free, va, size, s.regs[src2(w)]);
    lemma_write_after(CpuState { reservation: Some(va), ..t }, dest(w), fetched(s, w));
    lemma_write_after(stored(free, next, va as int, size as int, s.regs[src2(w)]), dest(w), 0);
    lemma_write_after(free, dest(w), 1);
}

/// An atomic must be naturally aligned, and says so as a load or as a store
/// does; one of another size or operation is illegal.
pub proof fn law_refused_atomics(s: CpuState, w: u32, here: u64, next: u64)
    requires
        s.wf(),
        opcode(w) == 0x2f,
    ensures
        ({
            let op = w as int / 0x800_0000;
            let va = s.regs[src1(w)];
            let known = (minor(w) == 2 || minor(w) == 3 && s.xlen == Xlen::Rv64) && (is_amo(op)
                || op == 2 || op == 3);
            &&& !known ==> s.execute(w, here, next) == refused(s, w, next)
            &&& known && va as int % access_size(w) != 0 ==> s.execute(w, here, next) == (
                CpuState { pc: next, ..s },
                Err::<(), Exception>(
                    if op == 2 {
                        Exception::LoadAddressMisaligned(va)
                    } else {
                        Exception::StoreAddressMisaligned(va)
                    },
                ),
            )
        }),
{
    lemma_word(w);
    lemma_operands(s, w);
    lemma_exec_amo(s, w, here, next);
    let t = s.jump(next);
    assert(t.x(execute::rs1(w)) == s.regs[src1(w)]);
    let op = (w as int / 0x800_0000) as u32;
    lemma_combined(Xlen::Rv32, op, 0, 0);
    lemma_combined(Xlen::Rv64, op, 0, 0);
}

/// Whatever the way to memory is, a load asks for its bytes at its address. A
/// fault is passed on and nothing is written; otherwise the destination gets
/// what came back.
pub proof fn law_loads_pass_faults_on(s: CpuState, w: u32, here: u64, next: u64)
    requires
        s.wf(),
        opcode(w) == 0x03,
        is_load(s.xlen, w),
    ensures
        ({
            let va = (s.regs[src1(w)] + immediate(w)) % span(s.xlen);
            let (a, r) = (CpuState { pc: next, ..s }).load(va as u64, access_size(w) as u64);
            match r {
                Err(e) => s.execute(w, here, next) == (a, Err::<(), Exception>(e)),
                Ok(v) => v < access_span(w) ==> s.execute(w, here, next) == retired(
                    a,
                    next,
                    dest(w),
                    (if minor(w) < 4 {
                        signed(v as int, access_span(w))
                    } else {
                        v as int
                    }) % span(s.xlen),
                ),
            }
        }),
{
    lemma_word(w);
    lemma_operands(s, w);
    let t = s.jump(next);
    let va = (s.regs[src1(w)] + immediate(w)) % span(s.xlen);
    let size = access_size(w) as u64;
    lemma_readings(s.xlen, 0, s.regs[src1(w)] + immediate(w));
    assert(t.x(execute::rs1(w)) == s.regs[src1(w)]);
    lemma_exec_load(s, w, here, next);
    cpu::access::law_a_load_changes_only_memory(t, va as u64, size);
    let (a, r) = t.load(va as u64, size);
    if let Ok(v) = r {
        if v < access_span(w) {
            let read = if minor(w) < 4 { signed(v as int, access_span(w)) } else { v as int };
            lemma2_to64();
            lemma2_to64_rest();
            lemma_readings(s.xlen, 0, read);
            assert(minor(w) < 4 ==> s.xlen.extended(v, (8 * size) as nat) == read % span(s.xlen));
            assert(minor(w) >= 4 ==> v == read % span(s.xlen));
            lemma_write_after(a, dest(w), read % span(s.xlen));
        }
    }
}

/// Whatever the way to memory is, a store hands its second source over with
/// its address and its size, and what comes of that is what comes of it.
pub proof fn law_stores_pass_faults_on(s: CpuState, w: u32, here: u64, next: u64)
    requires
        s.wf(),
        opcode(w) == 0x23,
        minor(w) < 3 || minor(w) == 3 && s.xlen == Xlen::Rv64,
    ensures
        ({
            let va = (s.regs[src1(w)] + store_offset(w)) % span(s.xlen);
            s.execute(w, here, next) == (CpuState { pc: next, ..s }).store(
                va as u64,
                access_size(w) as u64,
                s.regs[src2(w)],
            )
        }),
{
    lemma_word(w);
    lemma_operands(s, w);
    let t = s.jump(next);
    lemma_readings(s.xlen, 0, s.regs[src1(w)] + store_offset(w));
    assert(t.x(execute::rs1(w)) == s.regs[src1(w)] && t.x(execute::rs2(w)) == s.regs[src2(w)]);
    lemma_exec_store(s, w, here, next);
}

/// Whatever the way to memory is, LR loads, SC stores, and an atomic that does
/// both finds its address as a store does: its faults are those of a store. A
/// fault is passed on, no destination is written and nothing is reserved.
pub proof fn law_atomics_pass_faults_on(s: CpuState, w: u32, here: u64, next: u64)
    requires
        s.wf(),
        opcode(w) == 0x2f,
        minor(w) == 2 || minor(w) == 3 && s.xlen == Xlen::Rv64,
        s.regs[src1(w)] as int % access_size(w) == 0,
    ensures
        ({
            let (op, va) = (w as int / 0x800_0000, s.regs[src1(w)]);
            let size = access_size(w) as u64;
            let t = CpuState { pc: next, ..s };
            let free = CpuState { reservation: None, ..t };
            let o = s.execute(w, here, next);
            let (a, loaded) = t.load(va, size);
            let (b, put) = free.store(va, size, s.regs[src2(w)]);
            let (c, found) = t.translate(va, Access::Store);
            &&& op == 2 ==> match loaded {
                Err(e) => o == (a, Err::<(), Exception>(e)),
                Ok(v) => v < access_span(w) ==> o == retired(
                    CpuState { reservation: Some(va), ..a },
                    next,
                    dest(w),
                    signed(v as int, access_span(w)) % span(s.xlen),
                ),
            }
            &&& op == 3 && s.reservation == Some(va) ==> match put {
                Err(e) => o == (b, Err::<(), Exception>(e)),
                Ok(_) => o == retired(b, next, dest(w), 0),
            }
            &&& op == 3 && s.reservation != Some(va) ==> o == retired(free, next, dest(w), 1)
            &&& is_amo(op) ==> match found {
                Err(e) => o == (c, Err::<(), Exception>(e)),
                Ok(pa) => {
                    let was = number(c.mem.dram, pa - 0x8000_0000, size as int);
                    &&& c.mem.read_value(pa, size) is None ==> o == (
                        c,
                        Err::<(), Exception>(Exception::StoreAccessFault(va)),
                    )
                    &&& in_dram(c, pa as int, size as int) ==> o == retired(
                        stored(
                            c,
                            next,
                            pa as int,
                            size as int,
                            combined(
                                op,
                                was as u64,
                                (s.regs[src2(w)] as int % access_span(w)) as u64,
                                access_span(w),
                            ) as u64,
                        ),
                        next,
                        dest(w),
                        signed(was, access_span(w)) % span(s.xlen),
                    )
                },
            }
        }),
{
    lemma_word(w);
    lemma_operands(s, w);
    lemma_amo_kind(s, w, here, next);
    lemma2_to64();
    lemma2_to64_rest();
    let (op, va) = (w as int / 0x800_0000, s.regs[src1(w)]);
    let size = access_size(w) as u64;
    let t = s.jump(next);
    let free = CpuState { reservation: None, ..t };
    assert(t.x(execute::rs2(w)) == s.regs[src2(w)]);
    cpu::access::law_a_load_changes_only_memory(t, va, size);
    cpu::access::law_a_store_changes_only_memory(free, va, size, s.regs[src2(w)]);
    cpu::access::law_translating_changes_only_memory(t, va, Access::Store);
    let (a, loaded) = t.load(va, size);
    let (b, put) = free.store(va, size, s.regs[src2(w)]);
    if op == 2 {
        if let Ok(v) = loaded {
            if v < access_span(w) {
                let read = signed(v as int, access_span(w));
                lemma_readings(s.xlen, 0, read);
                assert(s.xlen.extended(v, (8 * size) as nat) == read % span(s.xlen));
                lemma_write_after(
                    CpuState { reservation: Some(va), ..a },
                    dest(w),
                    read % span(s.xlen),
                );
            }
        }
    } else if op == 3 {
        lemma_write_after(b, dest(w), 0);
        lemma_write_after(free, dest(w), 1);
    } else if is_amo(op) {
        let (c, found) = t.translate(va, Access::Store);
        if let Ok(pa) = found {
            if in_dram(c, pa as int, size as int) {
                lemma_rmw_at(t, w, va, pa);
            }
        }
    }
}

proof fn lemma_rmw_at(t: CpuState, w: u32, va: u64, pa: u64)
    requires
        minor(w) == 2 || minor(w) == 3 && t.xlen == Xlen::Rv64,
        is_amo(w as int / 0x800_0000),
        t.translate(va, Access::Store).1 == Ok::<u64, Exception>(pa),
        in_dram(t.translate(va, Access::Store).0, pa as int, access_size(w)),
    ensures
        ({
            let c = t.translate(va, Access::Store).0;
            let size = access_size(w) as u64;
            let width = if minor(w) == 2 { Xlen::Rv32 } else { Xlen::Rv64 };
            let was = number(c.mem.dram, pa - 0x8000_0000, size as int);
            let limit = access_span(w);
            t.exec_rmw(w, va, size, width) == retired(
                stored(
                    c,
                    t.pc,
                    pa as int,
                    size as int,
                    combined(
                        w as int / 0x800_0000,
                        was as u64,
                        (t.x(execute::rs2(w)) as int % limit) as u64,
                        limit,
                    ) as u64,
                ),
                t.pc,
                dest(w),
                signed(was, limit) % span(t.xlen),
            )
        }),
{
    lemma_word(w);
    lemma2_to64();
    lemma2_to64_rest();
    let c = t.translate(va, Access::Store).0;
    cpu::access::law_translating_changes_only_memory(t, va, Access::Store);
    let size = access_size(w) as u64;
    let limit = access_span(w);
    let width = if minor(w) == 2 { Xlen::Rv32 } else { Xlen::Rv64 };
    let i = pa - 0x8000_0000;
    let was = number(c.mem.dram, i, size as int);
    lemma_number(c.mem.dram, i, size as int);
    memory::law_a_load_leaves_memory_alone(c.mem, pa, size);
    let op = (w as int / 0x800_0000) as u32;
    let operand = t.x(execute::rs2(w));
    lemma_combined(width, op, was as u64, operand);
    let v = combined(op as int, was as u64, (operand as int % limit) as u64, limit) as u64;
    assert(memory::overlay(c.mem.dram, i, memory::le_bytes(v as nat, size as nat)) =~= poked(
        c.mem.dram,
        i,
        size as int,
        v as int,
    ));
    let read = signed(was, limit);
    lemma_readings(t.xlen, 0, read);
    assert(t.xlen.extended(was as u64, (8 * size) as nat) == read % span(t.xlen));
    let after = stored(c, t.pc, pa as int, size as int, v);
    assert(c.read_at(pa, size, va, Access::Store) == (c, Ok::<u64, Exception>(was as u64)));
    assert(c.write_at(pa, size, v, va) == (after, Ok::<(), Exception>(())));
    lemma_write_after(after, dest(w), read % span(t.xlen));
}

} // verus!
