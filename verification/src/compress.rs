//! The C extension, implemented by expanding each 16-bit instruction into the
//! equivalent 32-bit one.
//!
//! Every RVC instruction is defined by the spec as an alias for exactly one
//! base instruction, so expanding at fetch keeps the execute path unaware that
//! C exists. The cost is this module; the benefit is that nothing downstream
//! grows a second case, and the RTL core can use the same trick.
//!
//! The immediate fields are scrambled rather than contiguous. That looks
//! gratuitous on paper but is deliberate: it keeps each immediate bit in a
//! fixed position relative to the 32-bit encodings, so hardware routes wires
//! instead of multiplexing. Vol I, "Compressed Instruction Formats".

use crate::cpu::Xlen;
use crate::decode;
use crate::decode::{bits, sext};
use vstd::arithmetic::div_mod::*;
use vstd::arithmetic::power2::*;
use vstd::prelude::*;

pub mod laws;

verus! {

pub const OP_IMM: u32 = 0x13;

pub const OP_IMM32: u32 = 0x1b;

pub const OP: u32 = 0x33;

pub const OP32: u32 = 0x3b;

pub const LOAD: u32 = 0x03;

pub const STORE: u32 = 0x23;

pub const LUI: u32 = 0x37;

pub const JALR: u32 = 0x67;

pub const LOAD_FP: u32 = 0x07;

pub const STORE_FP: u32 = 0x27;

pub const EBREAK: u32 = 0x0010_0073;

/// A register-register instruction.
pub open spec fn spec_r_type(op: int, f3: int, f7: int, rd: int, rs1: int, rs2: int) -> u32 {
    (f7 * 0x200_0000 + rs2 * 0x10_0000 + rs1 * 0x8000 + f3 * 0x1000 + rd * 0x80 + op) as u32
}

fn r_type(op: u32, f3: u32, f7: u32, rd: u32, rs1: u32, rs2: u32) -> (r: u32)
    requires
        op < 128,
        f3 < 8,
        f7 < 128,
        rd < 32,
        rs1 < 32,
        rs2 < 32,
    ensures
        r == spec_r_type(op as int, f3 as int, f7 as int, rd as int, rs1 as int, rs2 as int),
        r % 4 == op % 4,
{
    f7 * 0x200_0000 + rs2 * 0x10_0000 + rs1 * 0x8000 + f3 * 0x1000 + rd * 0x80 + op
}

/// An instruction with a 12-bit immediate and a destination.
pub open spec fn spec_i_type(op: int, f3: int, rd: int, rs1: int, imm: int) -> u32 {
    ((imm % 0x1000) * 0x10_0000 + rs1 * 0x8000 + f3 * 0x1000 + rd * 0x80 + op) as u32
}

fn i_type(op: u32, f3: u32, rd: u32, rs1: u32, imm: i32) -> (r: u32)
    requires
        op < 128,
        f3 < 8,
        rd < 32,
        rs1 < 32,
        -2048 <= imm < 2048,
    ensures
        r == spec_i_type(op as int, f3 as int, rd as int, rs1 as int, imm as int),
        r % 4 == op % 4,
{
    let imm: u32 = if imm < 0 {
        (imm + 0x1000) as u32
    } else {
        imm as u32
    };
    imm * 0x10_0000 + rs1 * 0x8000 + f3 * 0x1000 + rd * 0x80 + op
}

/// A store: a 12-bit immediate split around two sources.
pub open spec fn spec_s_type(op: int, f3: int, rs1: int, rs2: int, imm: int) -> u32 {
    let u = imm % 0x1000;
    ((u / 32) * 0x200_0000 + rs2 * 0x10_0000 + rs1 * 0x8000 + f3 * 0x1000 + (u % 32) * 0x80
        + op) as u32
}

fn s_type(op: u32, f3: u32, rs1: u32, rs2: u32, imm: i32) -> (r: u32)
    requires
        op < 128,
        f3 < 8,
        rs1 < 32,
        rs2 < 32,
        -2048 <= imm < 2048,
    ensures
        r == spec_s_type(op as int, f3 as int, rs1 as int, rs2 as int, imm as int),
        r % 4 == op % 4,
{
    let imm: u32 = if imm < 0 {
        (imm + 0x1000) as u32
    } else {
        imm as u32
    };
    (imm / 32) * 0x200_0000 + rs2 * 0x10_0000 + rs1 * 0x8000 + f3 * 0x1000 + (imm % 32) * 0x80 + op
}

/// A branch: a 13-bit even offset.
pub open spec fn spec_b_type(f3: int, rs1: int, rs2: int, imm: int) -> u32 {
    let u = imm % 0x2000;
    ((u / 0x1000) * 0x8000_0000 + ((u / 32) % 64) * 0x200_0000 + rs2 * 0x10_0000 + rs1 * 0x8000
        + f3 * 0x1000 + ((u / 2) % 16) * 0x100 + ((u / 0x800) % 2) * 0x80 + 0x63) as u32
}

fn b_type(f3: u32, rs1: u32, rs2: u32, imm: i32) -> (r: u32)
    requires
        f3 < 8,
        rs1 < 32,
        rs2 < 32,
        -0x1000 <= imm < 0x1000,
    ensures
        r == spec_b_type(f3 as int, rs1 as int, rs2 as int, imm as int),
        r % 4 == 3,
{
    let u: u32 = if imm < 0 {
        (imm + 0x2000) as u32
    } else {
        imm as u32
    };
    assert(u == imm as int % 0x2000);
    let sign = u / 0x1000;
    let high = (u / 32) % 64;
    let low = (u / 2) % 16;
    let eleventh = (u / 0x800) % 2;
    assert(sign < 2 && high < 64 && low < 16 && eleventh < 2);
    sign * 0x8000_0000 + high * 0x200_0000 + rs2 * 0x10_0000 + rs1 * 0x8000 + f3 * 0x1000 + low
        * 0x100 + eleventh * 0x80 + 0x63
}

/// An instruction with the high 20 bits of a 32-bit immediate.
pub open spec fn spec_u_type(op: int, rd: int, imm: int) -> u32 {
    (((imm % 0x1_0000_0000) / 0x1000) * 0x1000 + rd * 0x80 + op) as u32
}

fn u_type(op: u32, rd: u32, imm: i32) -> (r: u32)
    requires
        op < 128,
        rd < 32,
    ensures
        r == spec_u_type(op as int, rd as int, imm as int),
        r % 4 == op % 4,
{
    let imm: u32 = if imm < 0 {
        (imm as i64 + 0x1_0000_0000) as u32
    } else {
        imm as u32
    };
    (imm / 0x1000) * 0x1000 + rd * 0x80 + op
}

/// A jump: a 21-bit even offset.
pub open spec fn spec_j_type(rd: int, imm: int) -> u32 {
    let u = imm % 0x20_0000;
    ((u / 0x10_0000) * 0x8000_0000 + ((u / 2) % 0x400) * 0x20_0000 + ((u / 0x800) % 2) * 0x10_0000
        + ((u / 0x1000) % 0x100) * 0x1000 + rd * 0x80 + 0x6f) as u32
}

fn j_type(rd: u32, imm: i32) -> (r: u32)
    requires
        rd < 32,
        -0x10_0000 <= imm < 0x10_0000,
    ensures
        r == spec_j_type(rd as int, imm as int),
        r % 4 == 3,
{
    let u: u32 = if imm < 0 {
        (imm + 0x20_0000) as u32
    } else {
        imm as u32
    };
    assert(u == imm as int % 0x20_0000);
    let sign = u / 0x10_0000;
    let low = (u / 2) % 0x400;
    let eleventh = (u / 0x800) % 2;
    let high = (u / 0x1000) % 0x100;
    assert(sign < 2 && low < 0x400 && eleventh < 2 && high < 0x100);
    sign * 0x8000_0000 + low * 0x20_0000 + eleventh * 0x10_0000 + high * 0x1000 + rd * 0x80 + 0x6f
}

/// A scrambled immediate's layout, or a register field: bits `hi..=lo`.
pub open spec fn at(i: u32, hi: nat, lo: nat) -> int {
    decode::field(i, hi, lo) as int
}

/// The three-bit register fields in the compact formats name x8..x15, the
/// registers a compiler reaches for most often.
pub open spec fn spec_rp(i: u32, lo: nat) -> int {
    at(i, lo + 2, lo) + 8
}

fn rp(i: u32, lo: u32) -> (r: u32)
    requires
        lo <= 10,
    ensures
        r == spec_rp(i, lo as nat),
        8 <= r < 16,
{
    proof {
        lemma2_to64();
    }
    bits(i, lo + 2, lo) + 8
}

/// The C.ADDI4SPN offset: unsigned, scaled by 4.
pub open spec fn spec_imm_addi4spn(i: u32) -> int {
    at(i, 10, 7) * 0x40 + at(i, 12, 11) * 0x10 + at(i, 5, 5) * 8 + at(i, 6, 6) * 4
}

fn imm_addi4spn(i: u32) -> (r: u32)
    ensures
        r == spec_imm_addi4spn(i),
        r < 0x400,
{
    proof {
        lemma2_to64();
    }
    bits(i, 10, 7) * 0x40 + bits(i, 12, 11) * 0x10 + bits(i, 5, 5) * 8 + bits(i, 6, 6) * 4
}

/// The offset of a word access off a pointer: unsigned, scaled by 4.
pub open spec fn spec_imm_word(i: u32) -> int {
    at(i, 5, 5) * 0x40 + at(i, 12, 10) * 8 + at(i, 6, 6) * 4
}

fn imm_word(i: u32) -> (r: u32)
    ensures
        r == spec_imm_word(i),
        r < 0x80,
{
    proof {
        lemma2_to64();
    }
    bits(i, 5, 5) * 0x40 + bits(i, 12, 10) * 8 + bits(i, 6, 6) * 4
}

/// The offset of a doubleword access off a pointer: unsigned, scaled by 8.
pub open spec fn spec_imm_double(i: u32) -> int {
    at(i, 6, 5) * 0x40 + at(i, 12, 10) * 8
}

fn imm_double(i: u32) -> (r: u32)
    ensures
        r == spec_imm_double(i),
        r < 0x100,
{
    proof {
        lemma2_to64();
    }
    bits(i, 6, 5) * 0x40 + bits(i, 12, 10) * 8
}

/// The offset of a word load off the stack pointer.
pub open spec fn spec_imm_word_sp_load(i: u32) -> int {
    at(i, 3, 2) * 0x40 + at(i, 12, 12) * 0x20 + at(i, 6, 4) * 4
}

fn imm_word_sp_load(i: u32) -> (r: u32)
    ensures
        r == spec_imm_word_sp_load(i),
        r < 0x100,
{
    proof {
        lemma2_to64();
    }
    bits(i, 3, 2) * 0x40 + bits(i, 12, 12) * 0x20 + bits(i, 6, 4) * 4
}

/// The offset of a doubleword load off the stack pointer.
pub open spec fn spec_imm_double_sp_load(i: u32) -> int {
    at(i, 4, 2) * 0x40 + at(i, 12, 12) * 0x20 + at(i, 6, 5) * 8
}

fn imm_double_sp_load(i: u32) -> (r: u32)
    ensures
        r == spec_imm_double_sp_load(i),
        r < 0x200,
{
    proof {
        lemma2_to64();
    }
    bits(i, 4, 2) * 0x40 + bits(i, 12, 12) * 0x20 + bits(i, 6, 5) * 8
}

/// The offset of a word store off the stack pointer.
pub open spec fn spec_imm_word_sp_store(i: u32) -> int {
    at(i, 8, 7) * 0x40 + at(i, 12, 9) * 4
}

fn imm_word_sp_store(i: u32) -> (r: u32)
    ensures
        r == spec_imm_word_sp_store(i),
        r < 0x100,
{
    proof {
        lemma2_to64();
    }
    bits(i, 8, 7) * 0x40 + bits(i, 12, 9) * 4
}

/// The offset of a doubleword store off the stack pointer.
pub open spec fn spec_imm_double_sp_store(i: u32) -> int {
    at(i, 9, 7) * 0x40 + at(i, 12, 10) * 8
}

fn imm_double_sp_store(i: u32) -> (r: u32)
    ensures
        r == spec_imm_double_sp_store(i),
        r < 0x200,
{
    proof {
        lemma2_to64();
    }
    bits(i, 9, 7) * 0x40 + bits(i, 12, 10) * 8
}

/// The six-bit immediate of the CI format, before any sign extension.
pub open spec fn spec_imm_six(i: u32) -> int {
    at(i, 12, 12) * 0x20 + at(i, 6, 2)
}

fn imm_six(i: u32) -> (r: u32)
    ensures
        r == spec_imm_six(i),
        r < 0x40,
{
    proof {
        lemma2_to64();
    }
    bits(i, 12, 12) * 0x20 + bits(i, 6, 2)
}

/// The same immediate, sign-extended.
pub open spec fn spec_signed_six(i: u32) -> int {
    decode::sign_extended(spec_imm_six(i) as nat, 6)
}

/// The C.ADDI16SP immediate, before sign extension: scaled by 16.
pub open spec fn spec_imm_addi16sp(i: u32) -> int {
    at(i, 12, 12) * 0x200 + at(i, 4, 3) * 0x80 + at(i, 5, 5) * 0x40 + at(i, 2, 2) * 0x20 + at(
        i,
        6,
        6,
    ) * 0x10
}

fn imm_addi16sp(i: u32) -> (r: u32)
    ensures
        r == spec_imm_addi16sp(i),
        r < 0x400,
{
    proof {
        lemma2_to64();
    }
    bits(i, 12, 12) * 0x200 + bits(i, 4, 3) * 0x80 + bits(i, 5, 5) * 0x40 + bits(i, 2, 2) * 0x20
        + bits(i, 6, 6) * 0x10
}

/// The CJ format's jump offset: an 11-bit signed value scaled by 2.
pub open spec fn spec_cj_offset(i: u32) -> int {
    let raw = at(i, 12, 12) * 0x800 + at(i, 8, 8) * 0x400 + at(i, 10, 9) * 0x100 + at(i, 6, 6)
        * 0x80 + at(i, 7, 7) * 0x40 + at(i, 2, 2) * 0x20 + at(i, 11, 11) * 0x10 + at(i, 5, 3) * 2;
    decode::sign_extended(raw as nat, 12)
}

fn cj_offset(i: u32) -> (r: i32)
    ensures
        r == spec_cj_offset(i),
        -0x800 <= r < 0x800,
{
    proof {
        lemma2_to64();
    }
    let raw = bits(i, 12, 12) * 0x800 + bits(i, 8, 8) * 0x400 + bits(i, 10, 9) * 0x100 + bits(
        i,
        6,
        6,
    ) * 0x80 + bits(i, 7, 7) * 0x40 + bits(i, 2, 2) * 0x20 + bits(i, 11, 11) * 0x10 + bits(i, 5, 3)
        * 2;
    sext(raw, 12)
}

/// The CB format's branch offset: an 8-bit signed value scaled by 2.
pub open spec fn spec_cb_offset(i: u32) -> int {
    let raw = at(i, 12, 12) * 0x100 + at(i, 6, 5) * 0x40 + at(i, 2, 2) * 0x20 + at(i, 11, 10) * 8
        + at(i, 4, 3) * 2;
    decode::sign_extended(raw as nat, 9)
}

fn cb_offset(i: u32) -> (r: i32)
    ensures
        r == spec_cb_offset(i),
        -0x100 <= r < 0x100,
{
    proof {
        lemma2_to64();
    }
    let raw = bits(i, 12, 12) * 0x100 + bits(i, 6, 5) * 0x40 + bits(i, 2, 2) * 0x20
        + bits(i, 11, 10) * 8 + bits(i, 4, 3) * 2;
    sext(raw, 9)
}

/// The arithmetic group of quadrant 1.
pub open spec fn spec_arith(i: u32, rv64: bool) -> Option<u32> {
    if at(i, 11, 10) == 0 {
        if !rv64 && spec_imm_six(i) >= 32 {
            None
        } else {
            Some(spec_i_type(OP_IMM as int, 5, spec_rp(i, 7), spec_rp(i, 7), spec_imm_six(i)))
        }
    } else if at(i, 11, 10) == 1 {
        if !rv64 && spec_imm_six(i) >= 32 {
            None
        } else {
            let imm = 0x400 + spec_imm_six(i);
            Some(spec_i_type(OP_IMM as int, 5, spec_rp(i, 7), spec_rp(i, 7), imm))
        }
    } else if at(i, 11, 10) == 2 {
        Some(spec_i_type(OP_IMM as int, 7, spec_rp(i, 7), spec_rp(i, 7), spec_signed_six(i)))
    } else if at(i, 12, 12) == 0 {
        if at(i, 6, 5) == 0 {
            Some(spec_r_type(OP as int, 0, 0x20, spec_rp(i, 7), spec_rp(i, 7), spec_rp(i, 2)))
        } else if at(i, 6, 5) == 1 {
            Some(spec_r_type(OP as int, 4, 0, spec_rp(i, 7), spec_rp(i, 7), spec_rp(i, 2)))
        } else if at(i, 6, 5) == 2 {
            Some(spec_r_type(OP as int, 6, 0, spec_rp(i, 7), spec_rp(i, 7), spec_rp(i, 2)))
        } else {
            Some(spec_r_type(OP as int, 7, 0, spec_rp(i, 7), spec_rp(i, 7), spec_rp(i, 2)))
        }
    } else if rv64 && at(i, 6, 5) == 0 {
        Some(spec_r_type(OP32 as int, 0, 0x20, spec_rp(i, 7), spec_rp(i, 7), spec_rp(i, 2)))
    } else if rv64 && at(i, 6, 5) == 1 {
        Some(spec_r_type(OP32 as int, 0, 0, spec_rp(i, 7), spec_rp(i, 7), spec_rp(i, 2)))
    } else {
        None
    }
}

fn arith(i: u32, rv64: bool) -> (r: Option<u32>)
    ensures
        r == spec_arith(i, rv64),
        r matches Some(w) ==> w % 4 == 3,
{
    proof {
        lemma2_to64();
    }
    if bits(i, 11, 10) == 0 {
        // C.SRLI. On RV32 a shift of 32 or more is reserved.
        if !rv64 && imm_six(i) >= 32 {
            None
        } else {
            Some(i_type(OP_IMM, 5, rp(i, 7), rp(i, 7), imm_six(i) as i32))
        }
    } else if bits(i, 11, 10) == 1 {
        // C.SRAI. It is selected by funct6 = 0b010000, which sits in imm[11:6]:
        // that is 0x400, not 0x20 shifted.
        if !rv64 && imm_six(i) >= 32 {
            None
        } else {
            Some(i_type(OP_IMM, 5, rp(i, 7), rp(i, 7), 0x400 + imm_six(i) as i32))
        }
    } else if bits(i, 11, 10) == 2 {
        // C.ANDI, and then the register-register forms, split by bit 12 into the
        // XLEN-wide group and the RV64-only word group.
        Some(i_type(OP_IMM, 7, rp(i, 7), rp(i, 7), sext(imm_six(i), 6)))
    } else if bits(i, 12, 12) == 0 {
        if bits(i, 6, 5) == 0 {
            // C.SUB
            Some(r_type(OP, 0, 0x20, rp(i, 7), rp(i, 7), rp(i, 2)))
        } else if bits(i, 6, 5) == 1 {
            // C.XOR
            Some(r_type(OP, 4, 0, rp(i, 7), rp(i, 7), rp(i, 2)))
        } else if bits(i, 6, 5) == 2 {
            // C.OR, C.AND
            Some(r_type(OP, 6, 0, rp(i, 7), rp(i, 7), rp(i, 2)))
        } else {
            Some(r_type(OP, 7, 0, rp(i, 7), rp(i, 7), rp(i, 2)))
        }
    } else if rv64 && bits(i, 6, 5) == 0 {
        // C.SUBW
        Some(r_type(OP32, 0, 0x20, rp(i, 7), rp(i, 7), rp(i, 2)))
    } else if rv64 && bits(i, 6, 5) == 1 {
        // C.ADDW
        Some(r_type(OP32, 0, 0, rp(i, 7), rp(i, 7), rp(i, 2)))
    } else {
        None
    }
}

/// Quadrant 0: loads and stores off a pointer, plus the stack helper.
pub open spec fn spec_quadrant0(i: u32, rv64: bool) -> Option<u32> {
    let funct3 = at(i, 15, 13);
    if funct3 == 0 {
        if spec_imm_addi4spn(i) == 0 {
            None
        } else {
            Some(spec_i_type(OP_IMM as int, 0, spec_rp(i, 2), 2, spec_imm_addi4spn(i)))
        }
    } else if funct3 == 1 {
        Some(spec_i_type(LOAD_FP as int, 3, spec_rp(i, 2), spec_rp(i, 7), spec_imm_double(i)))
    } else if funct3 == 2 {
        Some(spec_i_type(LOAD as int, 2, spec_rp(i, 2), spec_rp(i, 7), spec_imm_word(i)))
    } else if funct3 == 3 {
        if rv64 {
            Some(spec_i_type(LOAD as int, 3, spec_rp(i, 2), spec_rp(i, 7), spec_imm_double(i)))
        } else {
            Some(spec_i_type(LOAD_FP as int, 2, spec_rp(i, 2), spec_rp(i, 7), spec_imm_word(i)))
        }
    } else if funct3 == 5 {
        Some(spec_s_type(STORE_FP as int, 3, spec_rp(i, 7), spec_rp(i, 2), spec_imm_double(i)))
    } else if funct3 == 6 {
        Some(spec_s_type(STORE as int, 2, spec_rp(i, 7), spec_rp(i, 2), spec_imm_word(i)))
    } else if funct3 == 7 {
        if rv64 {
            Some(spec_s_type(STORE as int, 3, spec_rp(i, 7), spec_rp(i, 2), spec_imm_double(i)))
        } else {
            Some(spec_s_type(STORE_FP as int, 2, spec_rp(i, 7), spec_rp(i, 2), spec_imm_word(i)))
        }
    } else {
        None
    }
}

fn quadrant0(i: u32, rv64: bool) -> (r: Option<u32>)
    ensures
        r == spec_quadrant0(i, rv64),
        r matches Some(w) ==> w % 4 == 3,
{
    proof {
        lemma2_to64();
    }
    let funct3 = bits(i, 15, 13);
    if funct3 == 0 {
        // C.ADDI4SPN. An all-zero halfword lands here, and is the canonical
        // illegal instruction, so a zeroed page traps.
        if imm_addi4spn(i) == 0 {
            None
        } else {
            Some(i_type(OP_IMM, 0, rp(i, 2), 2, imm_addi4spn(i) as i32))
        }
    } else if funct3 == 1 {
        // C.FLD. The offset is scaled by eight, exactly as C.LD's is.
        Some(i_type(LOAD_FP, 3, rp(i, 2), rp(i, 7), imm_double(i) as i32))
    } else if funct3 == 2 {
        // C.LW
        Some(i_type(LOAD, 2, rp(i, 2), rp(i, 7), imm_word(i) as i32))
    } else if funct3 == 3 {
        if rv64 {
            // C.LD, which takes the encoding space of C.FLW on RV64.
            Some(i_type(LOAD, 3, rp(i, 2), rp(i, 7), imm_double(i) as i32))
        } else {
            Some(i_type(LOAD_FP, 2, rp(i, 2), rp(i, 7), imm_word(i) as i32))
        }
    } else if funct3 == 5 {
        // C.FSD
        Some(s_type(STORE_FP, 3, rp(i, 7), rp(i, 2), imm_double(i) as i32))
    } else if funct3 == 6 {
        // C.SW
        Some(s_type(STORE, 2, rp(i, 7), rp(i, 2), imm_word(i) as i32))
    } else if funct3 == 7 {
        if rv64 {
            // C.SD, or C.FSW on RV32.
            Some(s_type(STORE, 3, rp(i, 7), rp(i, 2), imm_double(i) as i32))
        } else {
            Some(s_type(STORE_FP, 2, rp(i, 7), rp(i, 2), imm_word(i) as i32))
        }
    } else {
        None
    }
}

/// Quadrant 1: immediate arithmetic and control flow.
pub open spec fn spec_quadrant1(i: u32, rv64: bool) -> Option<u32> {
    let rd = at(i, 11, 7);
    let funct3 = at(i, 15, 13);
    if funct3 == 0 {
        Some(spec_i_type(OP_IMM as int, 0, rd, rd, spec_signed_six(i)))
    } else if funct3 == 1 {
        if rv64 {
            if rd == 0 {
                None
            } else {
                Some(spec_i_type(OP_IMM32 as int, 0, rd, rd, spec_signed_six(i)))
            }
        } else {
            Some(spec_j_type(1, spec_cj_offset(i)))
        }
    } else if funct3 == 2 {
        Some(spec_i_type(OP_IMM as int, 0, rd, 0, spec_signed_six(i)))
    } else if funct3 == 3 {
        if rd == 2 {
            if spec_imm_addi16sp(i) == 0 {
                None
            } else {
                let imm = decode::sign_extended(spec_imm_addi16sp(i) as nat, 10);
                Some(spec_i_type(OP_IMM as int, 0, 2, 2, imm))
            }
        } else if spec_imm_six(i) == 0 || rd == 0 {
            None
        } else {
            Some(spec_u_type(LUI as int, rd, spec_signed_six(i) * 0x1000))
        }
    } else if funct3 == 4 {
        spec_arith(i, rv64)
    } else if funct3 == 5 {
        Some(spec_j_type(0, spec_cj_offset(i)))
    } else if funct3 == 6 {
        Some(spec_b_type(0, spec_rp(i, 7), 0, spec_cb_offset(i)))
    } else {
        Some(spec_b_type(1, spec_rp(i, 7), 0, spec_cb_offset(i)))
    }
}

fn quadrant1(i: u32, rv64: bool) -> (r: Option<u32>)
    ensures
        r == spec_quadrant1(i, rv64),
        r matches Some(w) ==> w % 4 == 3,
{
    proof {
        lemma2_to64();
    }
    let rd = bits(i, 11, 7);
    let funct3 = bits(i, 15, 13);
    if funct3 == 0 {
        // C.NOP when rd is zero, C.ADDI otherwise.
        Some(i_type(OP_IMM, 0, rd, rd, sext(imm_six(i), 6)))
    } else if funct3 == 1 {
        if rv64 {
            // C.ADDIW, or C.JAL, which only exists on RV32.
            if rd == 0 {
                // rd == x0 is reserved: it would be a 32-bit truncation with nowhere
                // to put the result.
                None
            } else {
                Some(i_type(OP_IMM32, 0, rd, rd, sext(imm_six(i), 6)))
            }
        } else {
            Some(j_type(1, cj_offset(i)))
        }
    } else if funct3 == 2 {
        // C.LI
        Some(i_type(OP_IMM, 0, rd, 0, sext(imm_six(i), 6)))
    } else if funct3 == 3 {
        if rd == 2 {
            // C.ADDI16SP
            if imm_addi16sp(i) == 0 {
                None
            } else {
                Some(i_type(OP_IMM, 0, 2, 2, sext(imm_addi16sp(i), 10)))
            }
        } else if imm_six(i) == 0 || rd == 0 {
            // C.LUI. The immediate lands in bits 17:12 of the result, so it is a
            // 6-bit signed value scaled by 2^12.
            None
        } else {
            Some(u_type(LUI, rd, sext(imm_six(i), 6) * 0x1000))
        }
    } else if funct3 == 4 {
        arith(i, rv64)
    } else if funct3 == 5 {
        // C.J
        Some(j_type(0, cj_offset(i)))
    } else if funct3 == 6 {
        // C.BEQZ, C.BNEZ
        Some(b_type(0, rp(i, 7), 0, cb_offset(i)))
    } else {
        Some(b_type(1, rp(i, 7), 0, cb_offset(i)))
    }
}

/// Quadrant 2: stack-pointer-relative access and the register moves.
pub open spec fn spec_quadrant2(i: u32, rv64: bool) -> Option<u32> {
    let rd = at(i, 11, 7);
    let rs2 = at(i, 6, 2);
    let funct3 = at(i, 15, 13);
    if funct3 == 0 {
        if !rv64 && spec_imm_six(i) >= 32 {
            None
        } else {
            Some(spec_i_type(OP_IMM as int, 1, rd, rd, spec_imm_six(i)))
        }
    } else if funct3 == 1 {
        Some(spec_i_type(LOAD_FP as int, 3, rd, 2, spec_imm_double_sp_load(i)))
    } else if funct3 == 2 {
        if rd == 0 {
            None
        } else {
            Some(spec_i_type(LOAD as int, 2, rd, 2, spec_imm_word_sp_load(i)))
        }
    } else if funct3 == 3 {
        if rv64 {
            if rd == 0 {
                None
            } else {
                Some(spec_i_type(LOAD as int, 3, rd, 2, spec_imm_double_sp_load(i)))
            }
        } else {
            Some(spec_i_type(LOAD_FP as int, 2, rd, 2, spec_imm_word_sp_load(i)))
        }
    } else if funct3 == 4 {
        if at(i, 12, 12) == 0 {
            if rd == 0 {
                None
            } else if rs2 == 0 {
                Some(spec_i_type(JALR as int, 0, 0, rd, 0))
            } else {
                Some(spec_r_type(OP as int, 0, 0, rd, 0, rs2))
            }
        } else if rd == 0 && rs2 == 0 {
            Some(EBREAK)
        } else if rs2 == 0 {
            Some(spec_i_type(JALR as int, 0, 1, rd, 0))
        } else {
            Some(spec_r_type(OP as int, 0, 0, rd, rd, rs2))
        }
    } else if funct3 == 5 {
        Some(spec_s_type(STORE_FP as int, 3, 2, rs2, spec_imm_double_sp_store(i)))
    } else if funct3 == 6 {
        Some(spec_s_type(STORE as int, 2, 2, rs2, spec_imm_word_sp_store(i)))
    } else if rv64 {
        Some(spec_s_type(STORE as int, 3, 2, rs2, spec_imm_double_sp_store(i)))
    } else {
        Some(spec_s_type(STORE_FP as int, 2, 2, rs2, spec_imm_word_sp_store(i)))
    }
}

fn quadrant2(i: u32, rv64: bool) -> (r: Option<u32>)
    ensures
        r == spec_quadrant2(i, rv64),
        r matches Some(w) ==> w % 4 == 3,
{
    proof {
        lemma2_to64();
    }
    let rd = bits(i, 11, 7);
    let rs2 = bits(i, 6, 2);
    let funct3 = bits(i, 15, 13);
    if funct3 == 0 {
        // C.SLLI
        if !rv64 && imm_six(i) >= 32 {
            None
        } else {
            Some(i_type(OP_IMM, 1, rd, rd, imm_six(i) as i32))
        }
    } else if funct3 == 1 {
        // C.FLDSP. f0 is a perfectly good destination, so unlike the integer stack
        // loads there is no reserved rd.
        Some(i_type(LOAD_FP, 3, rd, 2, imm_double_sp_load(i) as i32))
    } else if funct3 == 2 {
        // C.LWSP. rd == x0 is reserved.
        if rd == 0 {
            None
        } else {
            Some(i_type(LOAD, 2, rd, 2, imm_word_sp_load(i) as i32))
        }
    } else if funct3 == 3 {
        if rv64 {
            // C.LDSP, or C.FLWSP on RV32.
            if rd == 0 {
                None
            } else {
                Some(i_type(LOAD, 3, rd, 2, imm_double_sp_load(i) as i32))
            }
        } else {
            Some(i_type(LOAD_FP, 2, rd, 2, imm_word_sp_load(i) as i32))
        }
    } else if funct3 == 4 {
        if bits(i, 12, 12) == 0 {
            if rd == 0 {
                None
            } else if rs2 == 0 {
                // C.JR, C.MV
                Some(i_type(JALR, 0, 0, rd, 0))
            } else {
                Some(r_type(OP, 0, 0, rd, 0, rs2))
            }
        } else if rd == 0 && rs2 == 0 {
            // C.EBREAK
            Some(EBREAK)
        } else if rs2 == 0 {
            // C.JALR, C.ADD
            Some(i_type(JALR, 0, 1, rd, 0))
        } else {
            Some(r_type(OP, 0, 0, rd, rd, rs2))
        }
    } else if funct3 == 5 {
        // C.FSDSP
        Some(s_type(STORE_FP, 3, 2, rs2, imm_double_sp_store(i) as i32))
    } else if funct3 == 6 {
        // C.SWSP
        Some(s_type(STORE, 2, 2, rs2, imm_word_sp_store(i) as i32))
    } else if rv64 {
        // C.SDSP, or C.FSWSP on RV32.
        Some(s_type(STORE, 3, 2, rs2, imm_double_sp_store(i) as i32))
    } else {
        Some(s_type(STORE_FP, 2, 2, rs2, imm_word_sp_store(i) as i32))
    }
}

/// The one base instruction that a 16-bit instruction stands for, if it
/// stands for any at this XLEN.
pub open spec fn spec_decompress(i: u32, xlen: Xlen) -> Option<u32> {
    let quadrant = at(i, 1, 0);
    if quadrant == 0 {
        spec_quadrant0(i, xlen == Xlen::Rv64)
    } else if quadrant == 1 {
        spec_quadrant1(i, xlen == Xlen::Rv64)
    } else if quadrant == 2 {
        spec_quadrant2(i, xlen == Xlen::Rv64)
    } else {
        None
    }
}

/// Expands one 16-bit instruction, or returns `None` if the encoding is
/// illegal or reserved at this XLEN.
///
/// The floating-point forms expand to LOAD-FP and STORE-FP, whose register
/// fields sit in the same places as the integer ones; whether the hart may
/// execute them is `mstatus.FS`'s business, not the decoder's.
pub fn decompress(i: u32, xlen: Xlen) -> (r: Option<u32>)
    ensures
        r == spec_decompress(i, xlen),
        // What comes out is a full-width instruction, never a compressed one.
        r matches Some(w) ==> w % 4 == 3,
{
    proof {
        lemma2_to64();
    }
    let rv64 = xlen == Xlen::Rv64;
    match bits(i, 1, 0) {
        0 => quadrant0(i, rv64),
        1 => quadrant1(i, rv64),
        2 => quadrant2(i, rv64),
        // 0b11 is not compressed; the caller never gets here.
        _ => None,
    }
}

/// The six fields of a word, from the opcode up, at the bit positions of the
/// register-register format, and the ways the other formats cut them.
proof fn lemma_layout(w: u32, op: int, a: int, b: int, c: int, d: int, e: int)
    requires
        0 <= op < 0x80,
        0 <= a < 0x20,
        0 <= b < 8,
        0 <= c < 0x20,
        0 <= d < 0x20,
        0 <= e < 0x80,
        w == op + 0x80 * a + 0x1000 * b + 0x8000 * c + 0x10_0000 * d + 0x200_0000 * e,
    ensures
        at(w, 6, 0) == op,
        at(w, 11, 7) == a,
        at(w, 7, 7) == a % 2,
        at(w, 11, 8) == a / 2,
        at(w, 14, 12) == b,
        at(w, 19, 12) == b + 8 * c,
        at(w, 31, 12) == b + 8 * (c + 0x20 * (d + 0x20 * e)),
        at(w, 19, 15) == c,
        at(w, 20, 20) == d % 2,
        at(w, 24, 20) == d,
        at(w, 31, 20) == d + 0x20 * e,
        at(w, 30, 21) == d / 2 + 0x10 * (e % 0x40),
        at(w, 31, 25) == e,
        at(w, 30, 25) == e % 0x40,
        at(w, 31, 31) == e / 0x40,
{
    let n = w as int;
    let r4 = d + 0x20 * e;
    let r3 = c + 0x20 * r4;
    let r2 = b + 8 * r3;
    let r1 = a + 0x20 * r2;
    assert(n % 0x80 == op && n / 0x80 == r1) by {
        lemma_fundamental_div_mod_converse(n, 0x80, r1, op);
    }
    assert(r1 % 0x20 == a && n / 0x1000 == r2) by {
        lemma_fundamental_div_mod_converse(r1, 0x20, r2, a);
        lemma_fundamental_div_mod_converse(n, 0x1000, r2, op + 0x80 * a);
    }
    assert(r1 % 2 == a % 2 && n / 0x100 == a / 2 + 0x10 * r2) by {
        lemma_fundamental_div_mod_converse(
            n,
            0x100,
            a / 2 + 0x10 * r2,
            op + 0x80 * (a % 2),
        );
    }
    assert((a / 2 + 0x10 * r2) % 0x10 == a / 2) by {
        lemma_fundamental_div_mod_converse(a / 2 + 0x10 * r2, 0x10, r2, a / 2);
    }
    assert(r2 % 8 == b && n / 0x8000 == r3) by {
        lemma_fundamental_div_mod_converse(r2, 8, r3, b);
        lemma_fundamental_div_mod_converse(n, 0x8000, r3, op + 0x80 * a + 0x1000 * b);
    }
    assert(r2 % 0x100 == b + 8 * c) by {
        lemma_fundamental_div_mod_converse(r2, 0x100, r4, b + 8 * c);
    }
    assert(r3 % 0x20 == c && n / 0x10_0000 == r4) by {
        lemma_fundamental_div_mod_converse(r3, 0x20, r4, c);
        lemma_fundamental_div_mod_converse(
            n,
            0x10_0000,
            r4,
            op + 0x80 * a + 0x1000 * b + 0x8000 * c,
        );
    }
    assert(r4 % 0x20 == d && r4 % 2 == d % 2 && n / 0x200_0000 == e) by {
        lemma_fundamental_div_mod_converse(r4, 0x20, e, d);
        lemma_fundamental_div_mod_converse(
            n,
            0x200_0000,
            e,
            op + 0x80 * a + 0x1000 * b + 0x8000 * c + 0x10_0000 * d,
        );
    }
    assert(n / 0x20_0000 == d / 2 + 0x10 * e) by {
        lemma_fundamental_div_mod_converse(
            n,
            0x20_0000,
            d / 2 + 0x10 * e,
            op + 0x80 * a + 0x1000 * b + 0x8000 * c + 0x10_0000 * (d % 2),
        );
    }
    assert((d / 2 + 0x10 * e) % 0x400 == d / 2 + 0x10 * (e % 0x40)) by {
        lemma_fundamental_div_mod_converse(
            d / 2 + 0x10 * e,
            0x400,
            e / 0x40,
            d / 2 + 0x10 * (e % 0x40),
        );
    }
    assert(n / 0x8000_0000 == e / 0x40) by {
        lemma_fundamental_div_mod_converse(
            n,
            0x8000_0000,
            e / 0x40,
            op + 0x80 * a + 0x1000 * b + 0x8000 * c + 0x10_0000 * d + 0x200_0000 * (e % 0x40),
        );
    }
    decode::lemma_fields(w);
}

/// A register-register word decodes to the fields it was built from.
pub proof fn law_r_type_decodes(op: int, f3: int, f7: int, rd: int, rs1: int, rs2: int)
    requires
        0 <= op < 128,
        0 <= f3 < 8,
        0 <= f7 < 128,
        0 <= rd < 32,
        0 <= rs1 < 32,
        0 <= rs2 < 32,
    ensures
        ({
            let w = spec_r_type(op, f3, f7, rd, rs1, rs2);
            &&& decode::field(w, 6, 0) == op
            &&& decode::field(w, 11, 7) == rd
            &&& decode::field(w, 14, 12) == f3
            &&& decode::field(w, 19, 15) == rs1
            &&& decode::field(w, 24, 20) == rs2
            &&& decode::field(w, 31, 25) == f7
        }),
{
    let w = spec_r_type(op, f3, f7, rd, rs1, rs2);
    lemma_layout(w, op, rd, f3, rs1, rs2, f7);
}

/// An immediate word decodes to the fields and the immediate it was built from.
pub proof fn law_i_type_decodes(op: int, f3: int, rd: int, rs1: int, imm: int)
    requires
        0 <= op < 128,
        0 <= f3 < 8,
        0 <= rd < 32,
        0 <= rs1 < 32,
        -2048 <= imm < 2048,
    ensures
        ({
            let w = spec_i_type(op, f3, rd, rs1, imm);
            &&& decode::field(w, 6, 0) == op
            &&& decode::field(w, 11, 7) == rd
            &&& decode::field(w, 14, 12) == f3
            &&& decode::field(w, 19, 15) == rs1
            &&& decode::spec_imm_i(w) == imm
        }),
{
    let w = spec_i_type(op, f3, rd, rs1, imm);
    lemma2_to64();
    let u = imm % 0x1000;
    lemma_layout(w, op, rd, f3, rs1, u % 32, u / 32);
}

/// A store word decodes to the fields and the offset it was built from.
pub proof fn law_s_type_decodes(op: int, f3: int, rs1: int, rs2: int, imm: int)
    requires
        0 <= op < 128,
        0 <= f3 < 8,
        0 <= rs1 < 32,
        0 <= rs2 < 32,
        -2048 <= imm < 2048,
    ensures
        ({
            let w = spec_s_type(op, f3, rs1, rs2, imm);
            &&& decode::field(w, 6, 0) == op
            &&& decode::field(w, 14, 12) == f3
            &&& decode::field(w, 19, 15) == rs1
            &&& decode::field(w, 24, 20) == rs2
            &&& decode::spec_imm_s(w) == imm
        }),
{
    let w = spec_s_type(op, f3, rs1, rs2, imm);
    lemma2_to64();
    let u = imm % 0x1000;
    lemma_layout(w, op, u % 32, f3, rs1, rs2, u / 32);
}

/// A branch word decodes to the fields and the offset it was built from.
pub proof fn law_b_type_decodes(f3: int, rs1: int, rs2: int, imm: int)
    requires
        0 <= f3 < 8,
        0 <= rs1 < 32,
        0 <= rs2 < 32,
        -0x1000 <= imm < 0x1000,
        imm % 2 == 0,
    ensures
        ({
            let w = spec_b_type(f3, rs1, rs2, imm);
            &&& decode::field(w, 6, 0) == 0x63
            &&& decode::field(w, 14, 12) == f3
            &&& decode::field(w, 19, 15) == rs1
            &&& decode::field(w, 24, 20) == rs2
            &&& decode::spec_imm_b(w) == imm
        }),
{
    let w = spec_b_type(f3, rs1, rs2, imm);
    lemma2_to64();
    let u = imm % 0x2000;
    let low = (u / 0x800) % 2 + 2 * ((u / 2) % 16);
    let high = (u / 32) % 64 + 64 * (u / 0x1000);
    let u1 = u / 32;
    let u2 = u / 0x800;
    assert(u1 == (u / 2) / 16);
    assert(u2 == u1 / 64);
    assert(u / 0x1000 == u2 / 2);
    assert(0 <= u2 / 2 < 2);
    assert(0 <= low < 0x20 && low % 2 == u2 % 2 && low / 2 == (u / 2) % 16);
    assert(0 <= high < 0x80 && high % 64 == u1 % 64 && high / 64 == u2 / 2);
    lemma_layout(w, 0x63, low, f3, rs1, rs2, high);
}

/// An upper-immediate word decodes to the fields and the immediate it was
/// built from.
pub proof fn law_u_type_decodes(op: int, rd: int, imm: int)
    requires
        0 <= op < 128,
        0 <= rd < 32,
        -0x8000_0000 <= imm < 0x8000_0000,
        imm % 0x1000 == 0,
    ensures
        ({
            let w = spec_u_type(op, rd, imm);
            &&& decode::field(w, 6, 0) == op
            &&& decode::field(w, 11, 7) == rd
            &&& decode::spec_imm_u(w) == imm
        }),
{
    let w = spec_u_type(op, rd, imm);
    lemma2_to64();
    let u = (imm % 0x1_0000_0000) / 0x1000;
    let u1 = u / 8;
    let u2 = u1 / 32;
    assert(u2 == u / 0x100);
    assert(u / 0x2000 == u2 / 32);
    assert(0 <= u2 / 32 < 0x80);
    assert(u * 0x1000 == imm % 0x1_0000_0000);
    lemma_layout(w, op, rd, u % 8, (u / 8) % 32, (u / 0x100) % 32, u / 0x2000);
}

/// A jump word decodes to the register and the offset it was built from.
pub proof fn law_j_type_decodes(rd: int, imm: int)
    requires
        0 <= rd < 32,
        -0x10_0000 <= imm < 0x10_0000,
        imm % 2 == 0,
    ensures
        ({
            let w = spec_j_type(rd, imm);
            &&& decode::field(w, 6, 0) == 0x6f
            &&& decode::field(w, 11, 7) == rd
            &&& decode::spec_imm_j(w) == imm
        }),
{
    let w = spec_j_type(rd, imm);
    lemma2_to64();
    let u = imm % 0x20_0000;
    let x = (u / 0x1000) % 0x100;
    let y = (u / 2) % 0x400;
    let mid = (u / 0x800) % 2 + 2 * (y % 16);
    let high = y / 16 + 64 * (u / 0x10_0000);
    let u1 = u / 0x800;
    let u2 = u / 0x1000;
    assert(u1 == (u / 2) / 0x400);
    assert(u2 == u1 / 2);
    assert(u / 0x10_0000 == u2 / 0x100);
    assert(0 <= u2 / 0x100 < 2);
    assert(0 <= mid < 0x20 && mid % 2 == u1 % 2 && mid / 2 == y % 16);
    assert(0 <= high < 0x80 && high % 64 == y / 16 && high / 64 == u2 / 0x100);
    lemma_layout(w, 0x6f, rd, x % 8, x / 8, mid, high);
}

/// An all-zero halfword is illegal at either width, so that execution running
/// into a zeroed page traps.
pub proof fn law_a_zero_halfword_is_illegal(xlen: Xlen)
    ensures
        spec_decompress(0, xlen) is None,
{
    lemma2_to64();
}

} // verus!
