//! Instruction field extraction. The bit positions are fixed by the base ISA
//! encoding, which is why every immediate variant can be pulled out of a raw
//! word without first knowing the opcode.

use crate::wide;
use vstd::arithmetic::div_mod::*;
use vstd::arithmetic::mul::*;
use vstd::arithmetic::power2::*;
use vstd::bits::*;
use vstd::prelude::*;

verus! {

/// Bits `hi` down to `lo` of `i`, counting from 0.
pub open spec fn field(i: u32, hi: nat, lo: nat) -> nat {
    (i as nat / pow2(lo)) % pow2((hi - lo + 1) as nat)
}

/// `v`, read as a two's complement number of `width` bits.
pub open spec fn sign_extended(v: nat, width: nat) -> int {
    if v >= pow2((width - 1) as nat) {
        v - pow2(width)
    } else {
        v as int
    }
}

/// The fields of the six instruction formats, as divisions and remainders.
pub proof fn lemma_fields(w: u32)
    ensures
        field(w, 1, 0) == w as nat % 4,
        field(w, 6, 0) == w as nat % 0x80,
        field(w, 11, 7) == (w as nat / 0x80) % 0x20,
        field(w, 7, 7) == (w as nat / 0x80) % 2,
        field(w, 11, 8) == (w as nat / 0x100) % 0x10,
        field(w, 14, 12) == (w as nat / 0x1000) % 8,
        field(w, 19, 12) == (w as nat / 0x1000) % 0x100,
        field(w, 31, 12) == w as nat / 0x1000,
        field(w, 19, 15) == (w as nat / 0x8000) % 0x20,
        field(w, 20, 20) == (w as nat / 0x10_0000) % 2,
        field(w, 24, 20) == (w as nat / 0x10_0000) % 0x20,
        field(w, 31, 20) == w as nat / 0x10_0000,
        field(w, 30, 21) == (w as nat / 0x20_0000) % 0x400,
        field(w, 30, 25) == (w as nat / 0x200_0000) % 0x40,
        field(w, 31, 25) == w as nat / 0x200_0000,
        field(w, 31, 31) == w as nat / 0x8000_0000,
        pow2(11) == 0x800,
        pow2(12) == 0x1000,
        pow2(13) == 0x2000,
        pow2(20) == 0x10_0000,
        pow2(21) == 0x20_0000,
        pow2(31) == 0x8000_0000,
        pow2(32) == 0x1_0000_0000,
{
    lemma2_to64();
    let n = w as nat;
    assert(n / 1 == n);
    assert((n / 0x1000) % 0x10_0000 == n / 0x1000);
    assert((n / 0x10_0000) % 0x1000 == n / 0x10_0000);
    assert((n / 0x200_0000) % 0x80 == n / 0x200_0000);
    assert((n / 0x8000_0000) % 2 == n / 0x8000_0000);
}

/// Extracts bits `hi..=lo`, counting from 0.
pub fn bits(i: u32, hi: u32, lo: u32) -> (r: u32)
    requires
        lo <= hi < 32,
    ensures
        r == field(i, hi as nat, lo as nat),
        r < pow2((hi - lo + 1) as nat),
{
    let width: u32 = hi - lo + 1;
    proof {
        lemma_u32_shr_is_div(i, lo);
        lemma_pow2_pos(width as nat);
        lemma_mod_bound(i as int / pow2(lo as nat) as int, pow2(width as nat) as int);
        lemma2_to64();
    }
    let shifted = i >> lo;
    if width == 32 {
        proof {
            lemma_small_mod(shifted as nat, pow2(32));
        }
        return shifted;
    }
    proof {
        lemma_u32_low_bits_mask_is_mod(shifted, width as nat);
        lemma_u32_pow2_no_overflow(width as nat);
        lemma_mul_basics(pow2(width as nat) as int);
        lemma_u32_shl_is_mul(1u32, width);
    }
    shifted & ((1u32 << width) - 1)
}

/// Sign-extends the low `width` bits of `v`.
pub fn sext(v: u32, width: u32) -> (r: i32)
    requires
        1 <= width <= 32,
    ensures
        r == sign_extended(v as nat % pow2(width as nat), width as nat),
        v < pow2(width as nat) ==> r == sign_extended(v as nat, width as nat),
{
    let low = wide::low64(v as u64, width) as u32;
    proof {
        lemma2_to64();
        lemma_pow2_pos(width as nat);
        lemma_mod_bound(v as int, pow2(width as nat) as int);
        wide::lemma_pow2_monotone(width as nat, 32);
        if v < pow2(width as nat) {
            lemma_small_mod(v as nat, pow2(width as nat));
        }
        lemma_pow2_unfold(width as nat);
        wide::lemma_pow2_monotone((width - 1) as nat, 31);
        lemma_u32_pow2_no_overflow((width - 1) as nat);
        lemma_mul_basics(pow2((width - 1) as nat) as int);
        lemma_u32_shl_is_mul(1u32, (width - 1) as u32);
    }
    let half = 1u32 << (width - 1);
    if low >= half {
        (low as i64 - 2 * half as i64) as i32
    } else {
        low as i32
    }
}

pub fn opcode(i: u32) -> (r: u32)
    ensures
        r == field(i, 6, 0),
        r < 128,
{
    proof {
        lemma2_to64();
    }
    bits(i, 6, 0)
}

pub fn rd(i: u32) -> (r: usize)
    ensures
        r == field(i, 11, 7),
        r < 32,
{
    proof {
        lemma2_to64();
    }
    bits(i, 11, 7) as usize
}

pub fn rs1(i: u32) -> (r: usize)
    ensures
        r == field(i, 19, 15),
        r < 32,
{
    proof {
        lemma2_to64();
    }
    bits(i, 19, 15) as usize
}

pub fn rs2(i: u32) -> (r: usize)
    ensures
        r == field(i, 24, 20),
        r < 32,
{
    proof {
        lemma2_to64();
    }
    bits(i, 24, 20) as usize
}

pub fn funct3(i: u32) -> (r: u32)
    ensures
        r == field(i, 14, 12),
        r < 8,
{
    proof {
        lemma2_to64();
    }
    bits(i, 14, 12)
}

pub fn funct7(i: u32) -> (r: u32)
    ensures
        r == field(i, 31, 25),
        r < 128,
{
    proof {
        lemma2_to64();
    }
    bits(i, 31, 25)
}

pub fn csr(i: u32) -> (r: u16)
    ensures
        r == field(i, 31, 20),
        r < 4096,
{
    proof {
        lemma2_to64();
    }
    bits(i, 31, 20) as u16
}

/// I-type: sign-extended [31:20].
pub open spec fn spec_imm_i(i: u32) -> int {
    sign_extended(field(i, 31, 20), 12)
}

/// I-type: sign-extended [31:20].
pub fn imm_i(i: u32) -> (r: i32)
    ensures
        r == spec_imm_i(i),
        -2048 <= r < 2048,
{
    proof {
        lemma2_to64();
    }
    sext(bits(i, 31, 20), 12)
}

/// S-type: sign-extended {[31:25], [11:7]}.
pub open spec fn spec_imm_s(i: u32) -> int {
    sign_extended(field(i, 31, 25) * 32 + field(i, 11, 7), 12)
}

/// S-type: sign-extended {[31:25], [11:7]}.
pub fn imm_s(i: u32) -> (r: i32)
    ensures
        r == spec_imm_s(i),
        -2048 <= r < 2048,
{
    proof {
        lemma2_to64();
    }
    sext(bits(i, 31, 25) * 32 + bits(i, 11, 7), 12)
}

/// B-type: sign-extended {[31], [7], [30:25], [11:8], 0}.
pub open spec fn spec_imm_b(i: u32) -> int {
    sign_extended(
        field(i, 31, 31) * 0x1000 + field(i, 7, 7) * 0x800 + field(i, 30, 25) * 0x20 + field(
            i,
            11,
            8,
        ) * 2,
        13,
    )
}

/// B-type: sign-extended {[31], [7], [30:25], [11:8], 0}.
pub fn imm_b(i: u32) -> (r: i32)
    ensures
        r == spec_imm_b(i),
        -0x1000 <= r < 0x1000,
{
    proof {
        lemma2_to64();
    }
    sext(
        bits(i, 31, 31) * 0x1000 + bits(i, 7, 7) * 0x800 + bits(i, 30, 25) * 0x20 + bits(i, 11, 8)
            * 2,
        13,
    )
}

/// U-type: [31:12] placed in the high bits.
pub open spec fn spec_imm_u(i: u32) -> int {
    sign_extended(field(i, 31, 12) * 0x1000, 32)
}

/// U-type: [31:12] placed in the high bits.
pub fn imm_u(i: u32) -> (r: i32)
    ensures
        r == spec_imm_u(i),
{
    proof {
        lemma2_to64();
    }
    sext(bits(i, 31, 12) * 0x1000, 32)
}

/// J-type: sign-extended {[31], [19:12], [20], [30:21], 0}.
pub open spec fn spec_imm_j(i: u32) -> int {
    sign_extended(
        field(i, 31, 31) * 0x10_0000 + field(i, 19, 12) * 0x1000 + field(i, 20, 20) * 0x800 + field(
            i,
            30,
            21,
        ) * 2,
        21,
    )
}

/// J-type: sign-extended {[31], [19:12], [20], [30:21], 0}.
pub fn imm_j(i: u32) -> (r: i32)
    ensures
        r == spec_imm_j(i),
        -0x10_0000 <= r < 0x10_0000,
{
    proof {
        lemma2_to64();
    }
    sext(
        bits(i, 31, 31) * 0x10_0000 + bits(i, 19, 12) * 0x1000 + bits(i, 20, 20) * 0x800 + bits(
            i,
            30,
            21,
        ) * 2,
        21,
    )
}

/// What the ABI calls each integer register.
pub const REG_NAMES: [&'static str; 32] = [
    "zero", "ra", "sp", "gp", "tp", "t0", "t1", "t2", "s0", "s1", "a0", "a1", "a2", "a3", "a4",
    "a5", "a6", "a7", "s2", "s3", "s4", "s5", "s6", "s7", "s8", "s9", "s10", "s11", "t3", "t4",
    "t5", "t6",
];

} // verus!
