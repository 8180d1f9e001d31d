//! The table of compressed instructions, said of the halfwords: the bits of a
//! halfword on one side, and the base instruction it stands for, or what that
//! instruction does, on the other.

use crate::compress;
use crate::cpu::isa;
use crate::cpu::{CpuState, Xlen};
use crate::trap::Exception;
use vstd::arithmetic::power2::*;
use vstd::prelude::*;

verus! {

/// A register-register instruction with these fields.
pub open spec fn is_r(r: Option<u32>, op: int, f3: int, f7: int, rd: int, a: int, b: int) -> bool {
    r matches Some(w) && isa::opcode(w) == op && isa::minor(w) == f3 && isa::major(w) == f7
        && isa::dest(w) == rd && isa::src1(w) == a && isa::src2(w) == b
}

/// An instruction with a 12-bit immediate and these fields.
pub open spec fn is_i(r: Option<u32>, op: int, f3: int, rd: int, a: int, imm: int) -> bool {
    r matches Some(w) && isa::opcode(w) == op && isa::minor(w) == f3 && isa::dest(w) == rd
        && isa::src1(w) == a && isa::immediate(w) == imm
}

/// A store with these fields.
pub open spec fn is_s(r: Option<u32>, op: int, f3: int, a: int, b: int, imm: int) -> bool {
    r matches Some(w) && isa::opcode(w) == op && isa::minor(w) == f3 && isa::src1(w) == a
        && isa::src2(w) == b && isa::store_offset(w) == imm
}

/// A branch with these fields.
pub open spec fn is_b(r: Option<u32>, f3: int, a: int, b: int, imm: int) -> bool {
    r matches Some(w) && isa::opcode(w) == 0x63 && isa::minor(w) == f3 && isa::src1(w) == a
        && isa::src2(w) == b && isa::branch_offset(w) == imm
}

/// A LUI with these fields.
pub open spec fn is_lui(r: Option<u32>, rd: int, imm: int) -> bool {
    r matches Some(w) && isa::opcode(w) == 0x37 && isa::dest(w) == rd && isa::upper(w) == imm
}

/// A JAL with these fields.
pub open spec fn is_jal(r: Option<u32>, rd: int, imm: int) -> bool {
    r matches Some(w) && isa::opcode(w) == 0x6f && isa::dest(w) == rd && isa::jump_offset(w) == imm
}

/// The bits of a halfword from the one with weight `unit` up, `size` values of
/// them.
pub open spec fn cut(h: u32, unit: int, size: int) -> int {
    (h as int / unit) % size
}

/// Bits 15:13, which split each quadrant in eight.
pub open spec fn row(h: u32) -> int {
    h as int / 0x2000
}

/// Bits 11:7.
pub open spec fn full(h: u32) -> int {
    cut(h, 0x80, 0x20)
}

/// Bits 6:2.
pub open spec fn second(h: u32) -> int {
    cut(h, 4, 0x20)
}

/// Bits 9:7, naming x8 to x15.
pub open spec fn high(h: u32) -> int {
    8 + cut(h, 0x80, 8)
}

/// Bits 4:2, naming x8 to x15.
pub open spec fn low(h: u32) -> int {
    8 + cut(h, 4, 8)
}

/// Bits 12 and 6:2, unsigned.
pub open spec fn amount(h: u32) -> int {
    second(h) + 0x20 * cut(h, 0x1000, 2)
}

/// Bits 12 and 6:2 in two's complement.
pub open spec fn small(h: u32) -> int {
    second(h) - 0x20 * cut(h, 0x1000, 2)
}

/// A word offset: bit 6, bits 12:10 and bit 5, from 4 up.
pub open spec fn word_offset(h: u32) -> int {
    4 * cut(h, 0x40, 2) + 8 * cut(h, 0x400, 8) + 0x40 * cut(h, 0x20, 2)
}

/// A doubleword offset: bits 12:10 and bits 6:5, from 8 up.
pub open spec fn double_offset(h: u32) -> int {
    8 * cut(h, 0x400, 8) + 0x40 * cut(h, 0x20, 4)
}

/// A jump offset, in two's complement.
pub open spec fn far(h: u32) -> int {
    2 * cut(h, 8, 8) + 0x10 * cut(h, 0x800, 2) + 0x20 * cut(h, 4, 2) + 0x40 * cut(h, 0x80, 2) + 0x80
        * cut(h, 0x40, 2) + 0x100 * cut(h, 0x200, 4) + 0x400 * cut(h, 0x100, 2) - 0x800 * cut(
        h,
        0x1000,
        2,
    )
}

/// A branch offset, in two's complement.
pub open spec fn near(h: u32) -> int {
    2 * cut(h, 8, 4) + 8 * cut(h, 0x400, 4) + 0x20 * cut(h, 4, 2) + 0x40 * cut(h, 0x20, 4) - 0x100
        * cut(h, 0x1000, 2)
}

proof fn lemma_cut(h: u32)
    requires
        h < 0x1_0000,
    ensures
        compress::at(h, 1, 0) == h as int % 4,
        compress::at(h, 15, 13) == row(h),
        compress::at(h, 12, 12) == cut(h, 0x1000, 2),
        compress::at(h, 11, 7) == full(h),
        compress::at(h, 6, 2) == second(h),
        compress::at(h, 9, 7) == cut(h, 0x80, 8),
        compress::at(h, 4, 2) == cut(h, 4, 8),
        compress::at(h, 11, 10) == cut(h, 0x400, 4),
        compress::at(h, 6, 5) == cut(h, 0x20, 4),
        compress::at(h, 10, 7) == cut(h, 0x80, 0x10),
        compress::at(h, 12, 11) == cut(h, 0x800, 4),
        compress::at(h, 5, 5) == cut(h, 0x20, 2),
        compress::at(h, 6, 6) == cut(h, 0x40, 2),
        compress::at(h, 12, 10) == cut(h, 0x400, 8),
        compress::at(h, 3, 2) == cut(h, 4, 4),
        compress::at(h, 6, 4) == cut(h, 0x10, 8),
        compress::at(h, 8, 7) == cut(h, 0x80, 4),
        compress::at(h, 12, 9) == cut(h, 0x200, 0x10),
        compress::at(h, 4, 3) == cut(h, 8, 4),
        compress::at(h, 2, 2) == cut(h, 4, 2),
        compress::at(h, 8, 8) == cut(h, 0x100, 2),
        compress::at(h, 10, 9) == cut(h, 0x200, 4),
        compress::at(h, 7, 7) == cut(h, 0x80, 2),
        compress::at(h, 11, 11) == cut(h, 0x800, 2),
        compress::at(h, 5, 3) == cut(h, 8, 8),
{
    lemma2_to64();
    let n = h as int;
    assert(n / 1 == n);
    assert((n / 0x2000) % 8 == n / 0x2000);
}

proof fn lemma_r(op: int, f3: int, f7: int, rd: int, a: int, b: int)
    requires
        0 <= op < 128,
        0 <= f3 < 8,
        0 <= f7 < 128,
        0 <= rd < 32,
        0 <= a < 32,
        0 <= b < 32,
    ensures
        is_r(Some(compress::spec_r_type(op, f3, f7, rd, a, b)), op, f3, f7, rd, a, b),
{
    isa::lemma_word(compress::spec_r_type(op, f3, f7, rd, a, b));
    compress::law_r_type_decodes(op, f3, f7, rd, a, b);
}

proof fn lemma_i(op: int, f3: int, rd: int, a: int, imm: int)
    requires
        0 <= op < 128,
        0 <= f3 < 8,
        0 <= rd < 32,
        0 <= a < 32,
        -2048 <= imm < 2048,
    ensures
        is_i(Some(compress::spec_i_type(op, f3, rd, a, imm)), op, f3, rd, a, imm),
{
    isa::lemma_word(compress::spec_i_type(op, f3, rd, a, imm));
    compress::law_i_type_decodes(op, f3, rd, a, imm);
}

proof fn lemma_s(op: int, f3: int, a: int, b: int, imm: int)
    requires
        0 <= op < 128,
        0 <= f3 < 8,
        0 <= a < 32,
        0 <= b < 32,
        -2048 <= imm < 2048,
    ensures
        is_s(Some(compress::spec_s_type(op, f3, a, b, imm)), op, f3, a, b, imm),
{
    isa::lemma_word(compress::spec_s_type(op, f3, a, b, imm));
    compress::law_s_type_decodes(op, f3, a, b, imm);
}

/// Quadrant 0: C.ADDI4SPN, C.FLD, C.LW, C.LD or C.FLW, C.FSD, C.SW, and C.SD
/// or C.FSW. The fifth row, and an offset of zero in the first, stand for
/// nothing.
#[verifier::rlimit(50)]
#[verifier::spinoff_prover]
pub proof fn law_pointer_accesses(h: u32, xlen: Xlen)
    requires
        h < 0x1_0000,
        h % 4 == 0,
    ensures
        ({
            let r = compress::spec_decompress(h, xlen);
            let rv64 = xlen == Xlen::Rv64;
            let frame = 4 * cut(h, 0x40, 2) + 8 * cut(h, 0x20, 2) + 0x10 * cut(h, 0x800, 4) + 0x40
                * cut(h, 0x80, 0x10);
            &&& row(h) == 0 && frame == 0 ==> r is None
            &&& row(h) == 0 && frame != 0 ==> is_i(r, 0x13, 0, low(h), 2, frame)
            &&& row(h) == 1 ==> is_i(r, 0x07, 3, low(h), high(h), double_offset(h))
            &&& row(h) == 2 ==> is_i(r, 0x03, 2, low(h), high(h), word_offset(h))
            &&& row(h) == 3 && rv64 ==> is_i(r, 0x03, 3, low(h), high(h), double_offset(h))
            &&& row(h) == 3 && !rv64 ==> is_i(r, 0x07, 2, low(h), high(h), word_offset(h))
            &&& row(h) == 4 ==> r is None
            &&& row(h) == 5 ==> is_s(r, 0x27, 3, high(h), low(h), double_offset(h))
            &&& row(h) == 6 ==> is_s(r, 0x23, 2, high(h), low(h), word_offset(h))
            &&& row(h) == 7 && rv64 ==> is_s(r, 0x23, 3, high(h), low(h), double_offset(h))
            &&& row(h) == 7 && !rv64 ==> is_s(r, 0x27, 2, high(h), low(h), word_offset(h))
        }),
{
    lemma_cut(h);
    let frame = 4 * cut(h, 0x40, 2) + 8 * cut(h, 0x20, 2) + 0x10 * cut(h, 0x800, 4) + 0x40 * cut(
        h,
        0x80,
        0x10,
    );
    if row(h) == 0 {
        lemma_i(0x13, 0, low(h), 2, frame);
    } else if row(h) == 1 {
        lemma_i(0x07, 3, low(h), high(h), double_offset(h));
    } else if row(h) == 2 {
        lemma_i(0x03, 2, low(h), high(h), word_offset(h));
    } else if row(h) == 3 {
        lemma_i(0x03, 3, low(h), high(h), double_offset(h));
        lemma_i(0x07, 2, low(h), high(h), word_offset(h));
    } else if row(h) == 5 {
        lemma_s(0x27, 3, high(h), low(h), double_offset(h));
    } else if row(h) == 6 {
        lemma_s(0x23, 2, high(h), low(h), word_offset(h));
    } else if row(h) == 7 {
        lemma_s(0x23, 3, high(h), low(h), double_offset(h));
        lemma_s(0x27, 2, high(h), low(h), word_offset(h));
    }
}

/// The fifth row of quadrant 1: C.SRLI, C.SRAI, C.ANDI, C.SUB, C.XOR, C.OR,
/// C.AND, and on RV64 C.SUBW and C.ADDW. RV32 cannot shift by 32 or more.
#[verifier::rlimit(50)]
#[verifier::spinoff_prover]
pub proof fn law_compact_arithmetic(h: u32, xlen: Xlen)
    requires
        h < 0x1_0000,
        h % 4 == 1,
        row(h) == 4,
    ensures
        ({
            let r = compress::spec_decompress(h, xlen);
            let rv64 = xlen == Xlen::Rv64;
            let (group, pick) = (cut(h, 0x400, 4), cut(h, 0x20, 4));
            let word = cut(h, 0x1000, 2) == 1;
            let (rd, rs) = (high(h), low(h));
            &&& group < 2 && !rv64 && amount(h) >= 32 ==> r is None
            &&& group == 0 && (rv64 || amount(h) < 32) ==> is_i(r, 0x13, 5, rd, rd, amount(h))
            &&& group == 1 && (rv64 || amount(h) < 32) ==> is_i(
                r,
                0x13,
                5,
                rd,
                rd,
                0x400 + amount(h),
            )
            &&& group == 2 ==> is_i(r, 0x13, 7, rd, rd, small(h))
            &&& group == 3 && !word && pick == 0 ==> is_r(r, 0x33, 0, 0x20, rd, rd, rs)
            &&& group == 3 && !word && pick == 1 ==> is_r(r, 0x33, 4, 0, rd, rd, rs)
            &&& group == 3 && !word && pick == 2 ==> is_r(r, 0x33, 6, 0, rd, rd, rs)
            &&& group == 3 && !word && pick == 3 ==> is_r(r, 0x33, 7, 0, rd, rd, rs)
            &&& group == 3 && word && rv64 && pick == 0 ==> is_r(r, 0x3b, 0, 0x20, rd, rd, rs)
            &&& group == 3 && word && rv64 && pick == 1 ==> is_r(r, 0x3b, 0, 0, rd, rd, rs)
            &&& group == 3 && word && (!rv64 || pick >= 2) ==> r is None
        }),
{
    lemma_cut(h);
    lemma2_to64();
    let (group, pick) = (cut(h, 0x400, 4), cut(h, 0x20, 4));
    let (rd, rs) = (high(h), low(h));
    if group == 0 {
        lemma_i(0x13, 5, rd, rd, amount(h));
    } else if group == 1 {
        lemma_i(0x13, 5, rd, rd, 0x400 + amount(h));
    } else if group == 2 {
        lemma_i(0x13, 7, rd, rd, small(h));
    } else if cut(h, 0x1000, 2) == 0 {
        lemma_r(0x33, 0, 0x20, rd, rd, rs);
        lemma_r(0x33, 4, 0, rd, rd, rs);
        lemma_r(0x33, 6, 0, rd, rd, rs);
        lemma_r(0x33, 7, 0, rd, rd, rs);
    } else {
        lemma_r(0x3b, 0, 0x20, rd, rd, rs);
        lemma_r(0x3b, 0, 0, rd, rd, rs);
    }
}

/// The rest of quadrant 1: C.ADDI, C.ADDIW or C.JAL, C.LI, C.ADDI16SP, C.LUI,
/// C.J, C.BEQZ and C.BNEZ.
#[verifier::rlimit(50)]
#[verifier::spinoff_prover]
pub proof fn law_compact_immediates_and_jumps(h: u32, xlen: Xlen)
    requires
        h < 0x1_0000,
        h % 4 == 1,
        row(h) != 4,
    ensures
        ({
            let r = compress::spec_decompress(h, xlen);
            let rv64 = xlen == Xlen::Rv64;
            let rd = full(h);
            let frame = 0x10 * cut(h, 0x40, 2) + 0x20 * cut(h, 4, 2) + 0x40 * cut(h, 0x20, 2) + 0x80
                * cut(h, 8, 4) - 0x200 * cut(h, 0x1000, 2);
            &&& row(h) == 0 ==> is_i(r, 0x13, 0, rd, rd, small(h))
            &&& row(h) == 1 && rv64 && rd == 0 ==> r is None
            &&& row(h) == 1 && rv64 && rd != 0 ==> is_i(r, 0x1b, 0, rd, rd, small(h))
            &&& row(h) == 1 && !rv64 ==> is_jal(r, 1, far(h))
            &&& row(h) == 2 ==> is_i(r, 0x13, 0, rd, 0, small(h))
            &&& row(h) == 3 && rd == 2 && frame == 0 ==> r is None
            &&& row(h) == 3 && rd == 2 && frame != 0 ==> is_i(r, 0x13, 0, 2, 2, frame)
            &&& row(h) == 3 && rd != 2 && (rd == 0 || small(h) == 0) ==> r is None
            &&& row(h) == 3 && rd != 2 && rd != 0 && small(h) != 0 ==> is_lui(
                r,
                rd,
                0x1000 * small(h),
            )
            &&& row(h) == 5 ==> is_jal(r, 0, far(h))
            &&& row(h) == 6 ==> is_b(r, 0, high(h), 0, near(h))
            &&& row(h) == 7 ==> is_b(r, 1, high(h), 0, near(h))
        }),
{
    lemma_cut(h);
    lemma2_to64();
    let rd = full(h);
    let frame = 0x10 * cut(h, 0x40, 2) + 0x20 * cut(h, 4, 2) + 0x40 * cut(h, 0x20, 2) + 0x80 * cut(
        h,
        8,
        4,
    ) - 0x200 * cut(h, 0x1000, 2);
    if row(h) == 0 {
        lemma_i(0x13, 0, rd, rd, small(h));
    } else if row(h) == 1 {
        lemma_i(0x1b, 0, rd, rd, small(h));
        lemma_jal(1, far(h));
    } else if row(h) == 2 {
        lemma_i(0x13, 0, rd, 0, small(h));
    } else if row(h) == 3 {
        lemma_i(0x13, 0, 2, 2, frame);
        isa::lemma_word(compress::spec_u_type(0x37, rd, 0x1000 * small(h)));
        compress::law_u_type_decodes(0x37, rd, 0x1000 * small(h));
    } else if row(h) == 5 {
        lemma_jal(0, far(h));
    } else {
        lemma_b(0, high(h), near(h));
        lemma_b(1, high(h), near(h));
    }
}

proof fn lemma_jal(rd: int, imm: int)
    requires
        0 <= rd < 32,
        -0x10_0000 <= imm < 0x10_0000,
        imm % 2 == 0,
    ensures
        is_jal(Some(compress::spec_j_type(rd, imm)), rd, imm),
{
    isa::lemma_word(compress::spec_j_type(rd, imm));
    compress::law_j_type_decodes(rd, imm);
}

proof fn lemma_b(f3: int, a: int, imm: int)
    requires
        0 <= f3 < 8,
        0 <= a < 32,
        -0x1000 <= imm < 0x1000,
        imm % 2 == 0,
    ensures
        is_b(Some(compress::spec_b_type(f3, a, 0, imm)), f3, a, 0, imm),
{
    isa::lemma_word(compress::spec_b_type(f3, a, 0, imm));
    compress::law_b_type_decodes(f3, a, 0, imm);
}

/// Quadrant 2: C.SLLI, C.FLDSP, C.LWSP, C.LDSP or C.FLWSP, C.JR, C.MV,
/// C.EBREAK, C.JALR, C.ADD, C.FSDSP, C.SWSP, and C.SDSP or C.FSWSP.
#[verifier::rlimit(50)]
#[verifier::spinoff_prover]
pub proof fn law_stack_accesses_and_moves(h: u32, xlen: Xlen)
    requires
        h < 0x1_0000,
        h % 4 == 2,
    ensures
        ({
            let r = compress::spec_decompress(h, xlen);
            let rv64 = xlen == Xlen::Rv64;
            let (rd, rs) = (full(h), second(h));
            let upper_bit = cut(h, 0x1000, 2);
            let load_word = 4 * cut(h, 0x10, 8) + 0x20 * upper_bit + 0x40 * cut(h, 4, 4);
            let load_double = 8 * cut(h, 0x20, 4) + 0x20 * upper_bit + 0x40 * cut(h, 4, 8);
            let store_word = 4 * cut(h, 0x200, 0x10) + 0x40 * cut(h, 0x80, 4);
            let store_double = 8 * cut(h, 0x400, 8) + 0x40 * cut(h, 0x80, 8);
            &&& row(h) == 0 && !rv64 && amount(h) >= 32 ==> r is None
            &&& row(h) == 0 && (rv64 || amount(h) < 32) ==> is_i(r, 0x13, 1, rd, rd, amount(h))
            &&& row(h) == 1 ==> is_i(r, 0x07, 3, rd, 2, load_double)
            &&& row(h) == 2 && rd == 0 ==> r is None
            &&& row(h) == 2 && rd != 0 ==> is_i(r, 0x03, 2, rd, 2, load_word)
            &&& row(h) == 3 && rv64 && rd == 0 ==> r is None
            &&& row(h) == 3 && rv64 && rd != 0 ==> is_i(r, 0x03, 3, rd, 2, load_double)
            &&& row(h) == 3 && !rv64 ==> is_i(r, 0x07, 2, rd, 2, load_word)
            &&& row(h) == 4 && upper_bit == 0 && rd == 0 ==> r is None
            &&& row(h) == 4 && upper_bit == 0 && rd != 0 && rs == 0 ==> is_i(r, 0x67, 0, 0, rd, 0)
            &&& row(h) == 4 && upper_bit == 0 && rd != 0 && rs != 0 ==> is_r(
                r,
                0x33,
                0,
                0,
                rd,
                0,
                rs,
            )
            &&& row(h) == 4 && upper_bit == 1 && rd == 0 && rs == 0 ==> r == Some(0x10_0073u32)
            &&& row(h) == 4 && upper_bit == 1 && rd != 0 && rs == 0 ==> is_i(r, 0x67, 0, 1, rd, 0)
            &&& row(h) == 4 && upper_bit == 1 && rs != 0 ==> is_r(r, 0x33, 0, 0, rd, rd, rs)
            &&& row(h) == 5 ==> is_s(r, 0x27, 3, 2, rs, store_double)
            &&& row(h) == 6 ==> is_s(r, 0x23, 2, 2, rs, store_word)
            &&& row(h) == 7 && rv64 ==> is_s(r, 0x23, 3, 2, rs, store_double)
            &&& row(h) == 7 && !rv64 ==> is_s(r, 0x27, 2, 2, rs, store_word)
        }),
{
    lemma_cut(h);
    let (rd, rs) = (full(h), second(h));
    let upper_bit = cut(h, 0x1000, 2);
    let load_word = 4 * cut(h, 0x10, 8) + 0x20 * upper_bit + 0x40 * cut(h, 4, 4);
    let load_double = 8 * cut(h, 0x20, 4) + 0x20 * upper_bit + 0x40 * cut(h, 4, 8);
    let store_word = 4 * cut(h, 0x200, 0x10) + 0x40 * cut(h, 0x80, 4);
    let store_double = 8 * cut(h, 0x400, 8) + 0x40 * cut(h, 0x80, 8);
    if row(h) == 0 {
        lemma_i(0x13, 1, rd, rd, amount(h));
    } else if row(h) == 1 {
        lemma_i(0x07, 3, rd, 2, load_double);
    } else if row(h) == 2 {
        lemma_i(0x03, 2, rd, 2, load_word);
    } else if row(h) == 3 {
        lemma_i(0x03, 3, rd, 2, load_double);
        lemma_i(0x07, 2, rd, 2, load_word);
    } else if row(h) == 4 {
        lemma_i(0x67, 0, 0, rd, 0);
        lemma_i(0x67, 0, 1, rd, 0);
        lemma_r(0x33, 0, 0, rd, 0, rs);
        lemma_r(0x33, 0, 0, rd, rd, rs);
    } else if row(h) == 5 {
        lemma_s(0x27, 3, 2, rs, store_double);
    } else if row(h) == 6 {
        lemma_s(0x23, 2, 2, rs, store_word);
    } else {
        lemma_s(0x23, 3, 2, rs, store_double);
        lemma_s(0x27, 2, 2, rs, store_word);
    }
}

/// What running the expansion of a halfword comes to.
pub open spec fn runs_to(
    s: CpuState,
    h: u32,
    here: u64,
    next: u64,
    outcome: (CpuState, Result<(), Exception>),
) -> bool {
    compress::spec_decompress(h, s.xlen) matches Some(w) && s.execute(w, here, next) == outcome
}

/// C.SUB subtracts, C.XOR, C.OR and C.AND combine bits, and C.SUBW and C.ADDW
/// work on the low halves: a register of the eight and another, into the
/// first.
#[verifier::rlimit(50)]
#[verifier::spinoff_prover]
pub proof fn law_compact_registers_combine(s: CpuState, h: u32, here: u64, next: u64)
    requires
        s.wf(),
        h < 0x1_0000,
        h % 4 == 1,
        row(h) == 4,
        cut(h, 0x400, 4) == 3,
    ensures
        ({
            let (a, b) = (s.regs[high(h)], s.regs[low(h)]);
            let pick = cut(h, 0x20, 4);
            let word = cut(h, 0x1000, 2) == 1;
            let rd = high(h);
            let m = isa::span(s.xlen);
            let k = 0x1_0000_0000int;
            &&& !word && pick == 0 ==> runs_to(
                s,
                h,
                here,
                next,
                isa::retired(s, next, rd, (a - b) % m),
            )
            &&& !word && pick == 1 ==> runs_to(
                s,
                h,
                here,
                next,
                isa::retired(s, next, rd, (a ^ b) as int),
            )
            &&& !word && pick == 2 ==> runs_to(
                s,
                h,
                here,
                next,
                isa::retired(s, next, rd, (a | b) as int),
            )
            &&& !word && pick == 3 ==> runs_to(
                s,
                h,
                here,
                next,
                isa::retired(s, next, rd, (a & b) as int),
            )
            &&& word && pick == 0 && s.xlen == Xlen::Rv64 ==> runs_to(
                s,
                h,
                here,
                next,
                isa::retired(s, next, rd, isa::widened((a as int % k - b as int % k) % k)),
            )
            &&& word && pick == 1 && s.xlen == Xlen::Rv64 ==> runs_to(
                s,
                h,
                here,
                next,
                isa::retired(s, next, rd, isa::widened((a as int % k + b as int % k) % k)),
            )
        }),
{
    law_compact_arithmetic(h, s.xlen);
    let r = compress::spec_decompress(h, s.xlen);
    reveal(isa::base_result);
    if r is Some {
        let w = r->0;
        if cut(h, 0x1000, 2) == 0 {
            isa::law_register_arithmetic(s, w, here, next);
        } else {
            isa::law_word_arithmetic(s, w, here, next);
        }
    }
}

/// C.SRLI and C.SRAI divide by a power of two, rounding down, without and with
/// sign, and C.ANDI masks.
#[verifier::rlimit(50)]
#[verifier::spinoff_prover]
pub proof fn law_compact_registers_shift(s: CpuState, h: u32, here: u64, next: u64)
    requires
        s.wf(),
        h < 0x1_0000,
        h % 4 == 1,
        row(h) == 4,
        cut(h, 0x400, 4) < 3,
        amount(h) < isa::bits(s.xlen) || cut(h, 0x400, 4) == 2,
    ensures
        ({
            let a = s.regs[high(h)];
            let group = cut(h, 0x400, 4);
            let rd = high(h);
            let m = isa::span(s.xlen);
            let p = pow2(amount(h) as nat) as int;
            &&& group == 0 ==> runs_to(s, h, here, next, isa::retired(s, next, rd, a as int / p))
            &&& group == 1 ==> runs_to(
                s,
                h,
                here,
                next,
                isa::retired(s, next, rd, (isa::signed(a as int, m) / p) % m),
            )
            &&& group == 2 ==> runs_to(
                s,
                h,
                here,
                next,
                isa::retired(s, next, rd, (a & ((small(h) % m) as u64)) as int),
            )
        }),
{
    law_compact_arithmetic(h, s.xlen);
    let w = compress::spec_decompress(h, s.xlen)->0;
    isa::law_immediate_arithmetic(s, w, here, next);
    let n = amount(h);
    if cut(h, 0x400, 4) < 2 {
        lemma_shift_word(s.xlen, w, n);
        vstd::arithmetic::div_mod::lemma_small_mod(n as nat, isa::bits(s.xlen) as nat);
    }
    reveal(isa::base_result);
}

/// An immediate that is a shift amount, alone or with bit 10 set.
proof fn lemma_shift_word(xlen: Xlen, w: u32, n: int)
    requires
        0 <= n < isa::bits(xlen),
    ensures
        isa::immediate(w) == n ==> isa::shift_amount(xlen, w) == n && isa::shift_select(xlen, w)
            == 0 && !isa::shift_is_arithmetic(xlen, w),
        isa::immediate(w) == 0x400 + n ==> isa::shift_amount(xlen, w) == n
            && isa::shift_is_arithmetic(xlen, w),
{
    let u = w as int / 0x10_0000;
    assert(0 <= u < 0x1000);
    assert(0 <= isa::top(w) < 2);
    assert(isa::immediate(w) >= 0 ==> u == isa::immediate(w));
    match xlen {
        Xlen::Rv32 => {
            assert(u == n ==> u % 32 == n && u / 32 == 0);
            assert(u == 0x400 + n ==> u % 32 == n && u / 32 == 32);
        },
        Xlen::Rv64 => {
            assert(u == n ==> u % 64 == n && u / 64 == 0);
            assert(u == 0x400 + n ==> u % 64 == n && u / 64 == 16);
        },
    }
}

/// C.ADDI, C.LI, C.LUI, C.ADDI16SP and C.ADDI4SPN add what their bits spell,
/// C.ADDIW does so in 32 bits, C.SLLI shifts, C.MV copies and C.ADD adds.
#[verifier::rlimit(50)]
#[verifier::spinoff_prover]
pub proof fn law_compact_sums(s: CpuState, h: u32, here: u64, next: u64)
    requires
        s.wf(),
        h < 0x1_0000,
        compress::spec_decompress(h, s.xlen) is Some,
    ensures
        ({
            let m = isa::span(s.xlen);
            let (rd, rs) = (full(h), second(h));
            let frame = 4 * cut(h, 0x40, 2) + 8 * cut(h, 0x20, 2) + 0x10 * cut(h, 0x800, 4) + 0x40
                * cut(h, 0x80, 0x10);
            let push = 0x10 * cut(h, 0x40, 2) + 0x20 * cut(h, 4, 2) + 0x40 * cut(h, 0x20, 2) + 0x80
                * cut(h, 8, 4) - 0x200 * cut(h, 0x1000, 2);
            &&& h % 4 == 0 && row(h) == 0 ==> runs_to(
                s,
                h,
                here,
                next,
                isa::retired(s, next, low(h), (s.regs[2] + frame) % m),
            )
            &&& h % 4 == 1 && row(h) == 0 ==> runs_to(
                s,
                h,
                here,
                next,
                isa::retired(s, next, rd, (s.regs[rd] + small(h)) % m),
            )
            &&& h % 4 == 1 && row(h) == 2 ==> runs_to(
                s,
                h,
                here,
                next,
                isa::retired(s, next, rd, small(h) % m),
            )
            &&& h % 4 == 1 && row(h) == 3 && rd == 2 ==> runs_to(
                s,
                h,
                here,
                next,
                isa::retired(s, next, 2, (s.regs[2] + push) % m),
            )
            &&& h % 4 == 1 && row(h) == 3 && rd != 2 ==> runs_to(
                s,
                h,
                here,
                next,
                isa::retired(s, next, rd, (0x1000 * small(h)) % m),
            )
            &&& h % 4 == 1 && row(h) == 1 && s.xlen == Xlen::Rv64 ==> runs_to(
                s,
                h,
                here,
                next,
                isa::retired(
                    s,
                    next,
                    rd,
                    isa::widened((s.regs[rd] + small(h)) % 0x1_0000_0000),
                ),
            )
            &&& h % 4 == 2 && row(h) == 0 ==> runs_to(
                s,
                h,
                here,
                next,
                isa::retired(s, next, rd, (s.regs[rd] * pow2(amount(h) as nat)) % m),
            )
            &&& h % 4 == 2 && row(h) == 4 && cut(h, 0x1000, 2) == 0 && rs != 0 ==> runs_to(
                s,
                h,
                here,
                next,
                isa::retired(s, next, rd, s.regs[rs] as int),
            )
            &&& h % 4 == 2 && row(h) == 4 && cut(h, 0x1000, 2) == 1 && rs != 0 ==> runs_to(
                s,
                h,
                here,
                next,
                isa::retired(s, next, rd, (s.regs[rd] + s.regs[rs]) % m),
            )
        }),
{
    let w = compress::spec_decompress(h, s.xlen)->0;
    if h % 4 == 0 && row(h) == 0 {
        law_pointer_accesses(h, s.xlen);
        lemma_addi(s, w, here, next);
    } else if h % 4 == 1 && (row(h) == 0 || row(h) == 2 || row(h) == 3) {
        law_compact_immediates_and_jumps(h, s.xlen);
        if isa::opcode(w) == 0x13 {
            lemma_addi(s, w, here, next);
        } else {
            isa::law_upper_immediate_words(s, w, here, next);
        }
    } else if h % 4 == 1 && row(h) == 1 && s.xlen == Xlen::Rv64 {
        law_compact_immediates_and_jumps(h, s.xlen);
        lemma_addiw(s, w, here, next);
    } else if h % 4 == 2 && row(h) == 0 {
        law_stack_accesses_and_moves(h, s.xlen);
        isa::law_immediate_arithmetic(s, w, here, next);
        lemma_shift_word(s.xlen, w, amount(h));
        reveal(isa::base_result);
    } else if h % 4 == 2 && row(h) == 4 {
        law_stack_accesses_and_moves(h, s.xlen);
        if second(h) != 0 {
            lemma_add(s, w, here, next);
        }
    }
}

proof fn lemma_add(s: CpuState, w: u32, here: u64, next: u64)
    requires
        s.wf(),
        isa::opcode(w) == 0x33,
        isa::minor(w) == 0,
        isa::major(w) == 0,
    ensures
        s.execute(w, here, next) == isa::retired(
            s,
            next,
            isa::dest(w),
            (s.regs[isa::src1(w)] + s.regs[isa::src2(w)]) % isa::span(s.xlen),
        ),
        isa::src1(w) == 0 ==> s.execute(w, here, next) == isa::retired(
            s,
            next,
            isa::dest(w),
            s.regs[isa::src2(w)] as int,
        ),
{
    isa::law_register_arithmetic(s, w, here, next);
    reveal(isa::base_result);
    isa::lemma_word(w);
    let b = s.regs[isa::src2(w)] as int;
    vstd::arithmetic::div_mod::lemma_small_mod(b as nat, isa::span(s.xlen) as nat);
}

proof fn lemma_addi(s: CpuState, w: u32, here: u64, next: u64)
    requires
        s.wf(),
        isa::opcode(w) == 0x13,
        isa::minor(w) == 0,
    ensures
        s.execute(w, here, next) == isa::retired(
            s,
            next,
            isa::dest(w),
            (s.regs[isa::src1(w)] + isa::immediate(w)) % isa::span(s.xlen),
        ),
        isa::src1(w) == 0 ==> s.execute(w, here, next) == isa::retired(
            s,
            next,
            isa::dest(w),
            isa::immediate(w) % isa::span(s.xlen),
        ),
{
    isa::law_immediate_arithmetic(s, w, here, next);
    reveal(isa::base_result);
    isa::lemma_word(w);
    let (a, i) = (s.regs[isa::src1(w)] as int, isa::immediate(w));
    vstd::arithmetic::div_mod::lemma_add_mod_noop_right(a, i, isa::span(s.xlen));
    let imm = (i % isa::span(s.xlen)) as u64;
    vstd::arithmetic::div_mod::lemma_mod_bound(i, isa::span(s.xlen));
    assert(imm == i % isa::span(s.xlen));
}

proof fn lemma_addiw(s: CpuState, w: u32, here: u64, next: u64)
    requires
        s.wf(),
        s.xlen == Xlen::Rv64,
        isa::opcode(w) == 0x1b,
        isa::minor(w) == 0,
    ensures
        s.execute(w, here, next) == isa::retired(
            s,
            next,
            isa::dest(w),
            isa::widened((s.regs[isa::src1(w)] + isa::immediate(w)) % 0x1_0000_0000),
        ),
{
    isa::law_word_immediate_arithmetic(s, w, here, next);
    reveal(isa::base_result);
    isa::lemma_word(w);
    let (a, i) = (s.regs[isa::src1(w)] as int, isa::immediate(w));
    vstd::arithmetic::div_mod::lemma_add_mod_noop(a, i, 0x1_0000_0000);
}

/// C.J and C.JAL jump relative to their own address, C.JR and C.JALR to a
/// register's even address, and C.BEQZ and C.BNEZ where a register of the
/// eight is or is not zero. C.JAL and C.JALR link to x1.
#[verifier::rlimit(50)]
#[verifier::spinoff_prover]
pub proof fn law_compact_jumps(s: CpuState, h: u32, here: u64, next: u64)
    requires
        s.wf(),
        next < isa::span(s.xlen),
        h < 0x1_0000,
        compress::spec_decompress(h, s.xlen) is Some,
    ensures
        ({
            let m = isa::span(s.xlen);
            let target = ((here + far(h)) % m) as u64;
            let there = ((here + near(h)) % m) as u64;
            let zero = s.regs[high(h)] == 0;
            let register = s.regs[full(h)];
            let even = (register - register % 2) as u64;
            let at = CpuState { pc: there, ..s };
            let on = CpuState { pc: next, ..s };
            let ok = Ok::<(), Exception>(());
            &&& h % 4 == 1 && row(h) == 5 ==> runs_to(
                s,
                h,
                here,
                next,
                isa::retired(s, target, 0, 0),
            )
            &&& h % 4 == 1 && row(h) == 1 && s.xlen == Xlen::Rv32 ==> runs_to(
                s,
                h,
                here,
                next,
                isa::retired(s, target, 1, next as int),
            )
            &&& h % 4 == 1 && row(h) == 6 ==> runs_to(
                s,
                h,
                here,
                next,
                (if zero { at } else { on }, ok),
            )
            &&& h % 4 == 1 && row(h) == 7 ==> runs_to(
                s,
                h,
                here,
                next,
                (if zero { on } else { at }, ok),
            )
            &&& h % 4 == 2 && row(h) == 4 && second(h) == 0 && full(h) != 0 ==> runs_to(
                s,
                h,
                here,
                next,
                isa::retired(s, even, cut(h, 0x1000, 2), next as int),
            )
        }),
{
    let w = compress::spec_decompress(h, s.xlen)->0;
    if h % 4 == 1 && row(h) != 4 {
        law_compact_immediates_and_jumps(h, s.xlen);
        if row(h) == 5 || row(h) == 1 && s.xlen == Xlen::Rv32 {
            isa::law_jump_words(s, w, here, next);
        } else if row(h) >= 6 {
            isa::law_branch_words(s, w, here, next);
        }
    } else if h % 4 == 2 && row(h) == 4 {
        law_stack_accesses_and_moves(h, s.xlen);
        if second(h) == 0 && full(h) != 0 {
            isa::law_jump_words(s, w, here, next);
            let v = s.regs[full(h)] as int;
            vstd::arithmetic::div_mod::lemma_small_mod(v as nat, isa::span(s.xlen) as nat);
        }
    }
}

} // verus!
