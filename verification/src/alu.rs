//! Integer arithmetic, once, for both register widths.
//!
//! RV64's `*W` instructions have exactly RV32 semantics plus a sign
//! extension. So everything here takes the width to work at, and the word
//! instructions fall out of the RV32 cases rather than being a second
//! implementation to keep in step.

use crate::cpu::Xlen;
use crate::decode;
use crate::wide;
use vstd::arithmetic::div_mod::*;
use vstd::arithmetic::mul::*;
use vstd::arithmetic::power2::*;
use vstd::prelude::*;

verus! {

/// Division that rounds toward zero, as RISC-V's does.
pub open spec fn quotient(x: int, y: int) -> int {
    if (x < 0) != (y < 0) {
        -(magnitude_of(x) / magnitude_of(y))
    } else {
        magnitude_of(x) / magnitude_of(y)
    }
}

/// What such a division leaves over; it has the sign of the dividend.
pub open spec fn remainder(x: int, y: int) -> int {
    if x < 0 {
        -(magnitude_of(x) % magnitude_of(y))
    } else {
        magnitude_of(x) % magnitude_of(y)
    }
}

pub open spec fn magnitude_of(x: int) -> int {
    if x < 0 {
        -x
    } else {
        x
    }
}

impl Xlen {
    /// How many values a register of this width has.
    pub open spec fn modulus(self) -> int {
        match self {
            Xlen::Rv32 => 0x1_0000_0000,
            Xlen::Rv64 => 0x1_0000_0000_0000_0000,
        }
    }

    pub open spec fn spec_bits(self) -> u32 {
        match self {
            Xlen::Rv32 => 32,
            Xlen::Rv64 => 64,
        }
    }

    /// A number reduced to this width.
    pub open spec fn wrap(self, x: int) -> u64 {
        (x % self.modulus()) as u64
    }

    /// The low bits of a value, read as two's complement.
    pub open spec fn signed(self, v: u64) -> int {
        let low = v as int % self.modulus();
        if low >= self.modulus() / 2 {
            low - self.modulus()
        } else {
            low
        }
    }

    /// How many bits a register has.
    pub fn bits(self) -> (r: u32)
        ensures
            r == self.spec_bits(),
    {
        match self {
            Xlen::Rv32 => 32,
            Xlen::Rv64 => 64,
        }
    }

    fn size(self) -> (r: u128)
        ensures
            r == self.modulus(),
    {
        match self {
            Xlen::Rv32 => 0x1_0000_0000,
            Xlen::Rv64 => 0x1_0000_0000_0000_0000,
        }
    }

    /// Reduces a number to this width.
    fn reduce(self, x: u128) -> (r: u64)
        ensures
            r == self.wrap(x as int),
            r < self.modulus(),
    {
        match self {
            Xlen::Rv32 => (x % 0x1_0000_0000) as u64,
            Xlen::Rv64 => (x % 0x1_0000_0000_0000_0000) as u64,
        }
    }

    /// The low bits of a value.
    pub fn trunc(self, v: u64) -> (r: u64)
        ensures
            r == self.wrap(v as int),
            r < self.modulus(),
            self == Xlen::Rv64 ==> r == v,
    {
        match self {
            Xlen::Rv32 => v % 0x1_0000_0000,
            Xlen::Rv64 => v,
        }
    }

    /// A sign and a magnitude, reduced to this width.
    fn signed_result(self, negative: bool, magnitude: u128) -> (r: u64)
        ensures
            r == self.wrap(if negative { -magnitude } else { magnitude as int }),
            r < self.modulus(),
    {
        let low = self.reduce(magnitude);
        if negative && low != 0 {
            (self.size() - low as u128) as u64
        } else {
            low
        }
    }

    /// The sign and magnitude of a value read as two's complement.
    pub fn split(self, v: u64) -> (r: (bool, u64))
        ensures
            self.signed(v) == (if r.0 { -(r.1 as int) } else { r.1 as int }),
            r.1 <= self.modulus() / 2,
            r.0 ==> r.1 > 0,
    {
        let low = self.trunc(v);
        if low as u128 >= self.size() / 2 {
            (true, (self.size() - low as u128) as u64)
        } else {
            (false, low)
        }
    }

    /// A signed number at this width.
    pub fn number(self, v: i64) -> (r: u64)
        ensures
            r == self.wrap(v as int),
            r < self.modulus(),
    {
        let n = v as i128;
        if n < 0 {
            self.signed_result(true, (-n) as u128)
        } else {
            self.signed_result(false, n as u128)
        }
    }

    /// A signed immediate at this width.
    pub fn immediate(self, imm: i32) -> (r: u64)
        ensures
            r == self.wrap(imm as int),
            r < self.modulus(),
    {
        self.number(imm as i64)
    }

    /// The sum of two values, reduced to this width.
    pub fn sum(self, a: u64, b: u64) -> (r: u64)
        ensures
            r == self.wrap(a + b),
            r < self.modulus(),
    {
        self.reduce(a as u128 + b as u128)
    }

    /// A value plus a signed offset, reduced to this width.
    pub fn offset(self, base: u64, imm: i32) -> (r: u64)
        ensures
            r == self.wrap(base + imm),
            r < self.modulus(),
    {
        let r = self.sum(base, self.immediate(imm));
        assert(r == self.wrap(base + imm)) by {
            match self {
                Xlen::Rv32 => {},
                Xlen::Rv64 => {},
            }
        }
        r
    }

    /// The low `n` bits of a value, sign-extended to this width.
    pub open spec fn extended(self, v: u64, n: nat) -> u64 {
        self.wrap(decode::sign_extended(v as nat, n))
    }

    /// Sign-extends an `n`-bit value to this width, for the widths that loads
    /// and word operations have.
    pub fn extend(self, v: u64, n: u32) -> (r: u64)
        requires
            n == 8 || n == 16 || n == 32 || (n == 64 && self == Xlen::Rv64),
            v < pow2(n as nat),
        ensures
            r == self.extended(v, n as nat),
            r < self.modulus(),
    {
        proof {
            lemma2_to64();
            lemma2_to64_rest();
        }
        if n == 8 {
            if v >= 0x80 {
                self.signed_result(true, 0x100 - v as u128)
            } else {
                self.trunc(v)
            }
        } else if n == 16 {
            if v >= 0x8000 {
                self.signed_result(true, 0x1_0000 - v as u128)
            } else {
                self.trunc(v)
            }
        } else if n == 32 {
            if v >= 0x8000_0000 {
                self.signed_result(true, 0x1_0000_0000 - v as u128)
            } else {
                self.trunc(v)
            }
        } else {
            v
        }
    }
}

/// Dividing a negative number rounds down, away from zero.
proof fn lemma_floor_of_negative(m: nat, d: nat)
    requires
        d > 0,
    ensures
        (-(m as int)) / (d as int) == -((m + d - 1) / (d as int)),
{
    let q = (m + d - 1) / (d as int);
    let left = (m + d - 1) % (d as int);
    lemma_fundamental_div_mod(m + d - 1, d as int);
    lemma_mod_bound(m + d - 1, d as int);
    lemma_mul_unary_negation(d as int, q);
    lemma_mul_is_commutative(d as int, -q);
    lemma_fundamental_div_mod_converse(-(m as int), d as int, -q, d - 1 - left);
}

/// What the base integer operations give. `alt` selects SUB and SRA.
pub open spec fn spec_alu(width: Xlen, f3: u32, alt: bool, a: u64, b: u64) -> u64 {
    let shamt = (b % (width.spec_bits() as u64)) as nat;
    if f3 == 0 {
        width.wrap(if alt { a - b } else { a + b })
    } else if f3 == 1 {
        width.wrap(a * pow2(shamt))
    } else if f3 == 2 {
        if width.signed(a) < width.signed(b) { 1 } else { 0 }
    } else if f3 == 3 {
        if width.wrap(a as int) < width.wrap(b as int) { 1 } else { 0 }
    } else if f3 == 4 {
        width.wrap((a ^ b) as int)
    } else if f3 == 5 {
        if alt {
            width.wrap(width.signed(a) / (pow2(shamt) as int))
        } else {
            width.wrap(width.wrap(a as int) as int / (pow2(shamt) as int))
        }
    } else if f3 == 6 {
        width.wrap((a | b) as int)
    } else {
        width.wrap((a & b) as int)
    }
}

fn shift_left(width: Xlen, a: u64, shamt: u32) -> (r: u64)
    requires
        shamt < width.spec_bits(),
    ensures
        r == width.wrap(a * pow2(shamt as nat)),
        r < width.modulus(),
{
    let bits = width.bits();
    let low = wide::low64(a, bits - shamt);
    proof {
        let (p, c) = (pow2(shamt as nat) as int, pow2((bits - shamt) as nat) as int);
        lemma2_to64();
        lemma2_to64_rest();
        lemma_pow2_adds(shamt as nat, (bits - shamt) as nat);
        lemma_pow2_pos(shamt as nat);
        lemma_pow2_pos((bits - shamt) as nat);
        lemma_truncate_middle(a as int, p, c);
        lemma_mul_is_commutative(a as int, p);
        lemma_mul_is_commutative(low as int, p);
        lemma_mod_bound(a * p, p * c);
    }
    wide::shl64(low, shamt)
}

fn shift_right_arithmetic(width: Xlen, a: u64, shamt: u32) -> (r: u64)
    requires
        shamt < width.spec_bits(),
    ensures
        r == width.wrap(width.signed(a) / (pow2(shamt as nat) as int)),
        r < width.modulus(),
{
    let (negative, magnitude) = width.split(a);
    proof {
        wide::lemma_pow2_fits(shamt as nat);
        lemma_mul_basics(pow2(shamt as nat) as int);
        if negative {
            lemma_floor_of_negative(magnitude as nat, pow2(shamt as nat));
        }
    }
    if negative {
        let step = wide::shl64(1, shamt);
        width.signed_result(true, wide::shr128(magnitude as u128 + step as u128 - 1, shamt))
    } else {
        width.signed_result(false, wide::shr128(magnitude as u128, shamt))
    }
}

fn add_or_sub(width: Xlen, alt: bool, a: u64, b: u64) -> (r: u64)
    ensures
        r == width.wrap(if alt { a - b } else { a + b }),
        r < width.modulus(),
{
    if alt {
        let (x, y) = (width.trunc(a), width.trunc(b));
        let r = width.reduce(x as u128 + (width.size() - y as u128));
        proof {
            let m = width.modulus();
            let k = b as int / m - a as int / m + 1;
            lemma_fundamental_div_mod(a as int, m);
            lemma_fundamental_div_mod(b as int, m);
            lemma_mul_is_distributive_sub(m, b as int / m, a as int / m);
            lemma_mul_is_distributive_add(m, b as int / m - a as int / m, 1);
            assert(x + (m - y) == m * k + (a - b));
            lemma_mod_multiples_vanish(k, a - b, m);
        }
        r
    } else {
        width.sum(a, b)
    }
}

fn less_than(width: Xlen, a: u64, b: u64) -> (r: bool)
    ensures
        r == (width.signed(a) < width.signed(b)),
{
    let (an, am) = width.split(a);
    let (bn, bm) = width.split(b);
    if an {
        !bn || am > bm
    } else {
        !bn && am < bm
    }
}

fn shift_right(width: Xlen, a: u64, shamt: u32) -> (r: u64)
    requires
        shamt < width.spec_bits(),
    ensures
        r == width.wrap(width.wrap(a as int) as int / (pow2(shamt as nat) as int)),
        r < width.modulus(),
{
    width.trunc(wide::shr64(width.trunc(a), shamt))
}

/// The base integer operations. `alt` selects SUB and SRA.
pub fn alu(width: Xlen, f3: u32, alt: bool, a: u64, b: u64) -> (r: u64)
    requires
        f3 < 8,
    ensures
        r == spec_alu(width, f3, alt, a, b),
        r < width.modulus(),
{
    let shamt = (b % (width.bits() as u64)) as u32;
    match f3 {
        // ADD, SUB
        0 => add_or_sub(width, alt, a, b),
        // SLL
        1 => shift_left(width, a, shamt),
        // SLT
        2 => if less_than(width, a, b) { 1 } else { 0 },
        // SLTU
        3 => if width.trunc(a) < width.trunc(b) { 1 } else { 0 },
        // XOR
        4 => width.trunc(a ^ b),
        // SRL, SRA
        5 => if alt {
            shift_right_arithmetic(width, a, shamt)
        } else {
            shift_right(width, a, shamt)
        },
        // OR
        6 => width.trunc(a | b),
        // AND
        _ => width.trunc(a & b),
    }
}

/// What the M extension gives. Division by zero yields all ones, and leaves
/// the dividend over; signed overflow wraps. Neither traps.
pub open spec fn spec_muldiv(width: Xlen, f3: u32, a: u64, b: u64) -> u64 {
    let (ua, ub) = (width.wrap(a as int) as int, width.wrap(b as int) as int);
    let (sa, sb) = (width.signed(a), width.signed(b));
    if f3 == 0 {
        width.wrap(a * b)
    } else if f3 == 1 {
        width.wrap((sa * sb) / width.modulus())
    } else if f3 == 2 {
        width.wrap((sa * ub) / width.modulus())
    } else if f3 == 3 {
        width.wrap((ua * ub) / width.modulus())
    } else if f3 == 4 {
        if ub == 0 {
            width.wrap(-1)
        } else {
            width.wrap(quotient(sa, sb))
        }
    } else if f3 == 5 {
        if ub == 0 {
            width.wrap(-1)
        } else {
            width.wrap(ua / ub)
        }
    } else if f3 == 6 {
        if ub == 0 {
            width.wrap(ua)
        } else {
            width.wrap(remainder(sa, sb))
        }
    } else {
        if ub == 0 {
            width.wrap(ua)
        } else {
            width.wrap(ua % ub)
        }
    }
}

/// The high half of a product of magnitudes, with the sign of the product.
fn high_half(width: Xlen, negative: bool, x: u64, y: u64) -> (r: u64)
    requires
        negative ==> x <= 0x8000_0000_0000_0000,
    ensures
        r == width.wrap((if negative { -(x * y) } else { x * y }) / width.modulus()),
        r < width.modulus(),
{
    assert(x * y <= 0xffff_ffff_ffff_ffff * 0xffff_ffff_ffff_ffff) by (nonlinear_arith)
        requires
            x <= 0xffff_ffff_ffff_ffff,
            y <= 0xffff_ffff_ffff_ffff,
    ;
    assert(negative ==> x * y <= 0x8000_0000_0000_0000 * 0xffff_ffff_ffff_ffff)
        by (nonlinear_arith)
        requires
            negative ==> x <= 0x8000_0000_0000_0000,
            y <= 0xffff_ffff_ffff_ffff,
    ;
    let product = x as u128 * y as u128;
    if negative {
        proof {
            lemma_floor_of_negative(product as nat, width.modulus() as nat);
        }
        width.signed_result(true, (product + (width.size() - 1)) / width.size())
    } else {
        width.signed_result(false, product / width.size())
    }
}

/// The M extension. Division by zero and signed overflow have defined
/// results in RISC-V rather than trapping, which is why they are spelled out.
pub fn muldiv(width: Xlen, f3: u32, a: u64, b: u64) -> (r: u64)
    requires
        f3 < 8,
    ensures
        r == spec_muldiv(width, f3, a, b),
        r < width.modulus(),
{
    let (ua, ub) = (width.trunc(a), width.trunc(b));
    let (an, am) = width.split(a);
    let (bn, bm) = width.split(b);
    match f3 {
        // MUL
        0 => {
            assert(a * b <= 0xffff_ffff_ffff_ffff * 0xffff_ffff_ffff_ffff) by (nonlinear_arith)
                requires
                    a <= 0xffff_ffff_ffff_ffff,
                    b <= 0xffff_ffff_ffff_ffff,
            ;
            width.reduce(a as u128 * b as u128)
        },
        // MULH
        1 => {
            proof {
                let (x, y) = (am as int, bm as int);
                assert((-x) * y == -(x * y) && x * (-y) == -(x * y) && (-x) * (-y) == x * y)
                    by (nonlinear_arith);
                assert(x == 0 ==> x * y == 0) by (nonlinear_arith);
                assert(y == 0 ==> x * y == 0) by (nonlinear_arith);
            }
            high_half(width, an != bn, am, bm)
        },
        // MULHSU
        2 => {
            proof {
                let (x, y) = (am as int, ub as int);
                assert((-x) * y == -(x * y)) by (nonlinear_arith);
            }
            high_half(width, an, am, ub)
        },
        // MULHU
        3 => high_half(width, false, ua, ub),
        // DIV
        4 => {
            if ub == 0 {
                width.signed_result(true, 1)
            } else {
                width.signed_result(an != bn, (am / bm) as u128)
            }
        },
        // DIVU
        5 => {
            if ub == 0 {
                width.signed_result(true, 1)
            } else {
                width.signed_result(false, (ua / ub) as u128)
            }
        },
        // REM
        6 => {
            if ub == 0 {
                width.trunc(ua)
            } else {
                width.signed_result(an, (am % bm) as u128)
            }
        },
        // REMU
        _ => {
            if ub == 0 {
                width.trunc(ua)
            } else {
                width.signed_result(false, (ua % ub) as u128)
            }
        },
    }
}

/// Whether a conditional branch is taken, or `None` where the comparison is
/// not one that exists.
pub open spec fn spec_branch(width: Xlen, f3: u32, a: u64, b: u64) -> Option<bool> {
    if f3 == 0 {
        Some(width.wrap(a as int) == width.wrap(b as int))
    } else if f3 == 1 {
        Some(width.wrap(a as int) != width.wrap(b as int))
    } else if f3 == 4 {
        Some(width.signed(a) < width.signed(b))
    } else if f3 == 5 {
        Some(width.signed(a) >= width.signed(b))
    } else if f3 == 6 {
        Some(width.wrap(a as int) < width.wrap(b as int))
    } else if f3 == 7 {
        Some(width.wrap(a as int) >= width.wrap(b as int))
    } else {
        None
    }
}

pub fn branch(width: Xlen, f3: u32, a: u64, b: u64) -> (r: Option<bool>)
    ensures
        r == spec_branch(width, f3, a, b),
{
    match f3 {
        // BEQ
        0 => Some(width.trunc(a) == width.trunc(b)),
        // BNE
        1 => Some(width.trunc(a) != width.trunc(b)),
        // BLT
        4 => Some(alu(width, 2, false, a, b) == 1),
        // BGE
        5 => Some(alu(width, 2, false, a, b) == 0),
        // BLTU
        6 => Some(width.trunc(a) < width.trunc(b)),
        // BGEU
        7 => Some(width.trunc(a) >= width.trunc(b)),
        _ => None,
    }
}

/// What an atomic operation stores, given what was there and the operand.
/// `None` where there is no such operation.
pub open spec fn spec_amo(width: Xlen, f5: u32, old_value: u64, operand: u64) -> Option<u64> {
    if f5 == 0x01 {
        Some(width.wrap(operand as int))
    } else if f5 == 0x00 {
        Some(width.wrap(old_value + operand))
    } else if f5 == 0x04 {
        Some(width.wrap((old_value ^ operand) as int))
    } else if f5 == 0x0c {
        Some(width.wrap((old_value & operand) as int))
    } else if f5 == 0x08 {
        Some(width.wrap((old_value | operand) as int))
    } else if f5 == 0x10 {
        Some(
            width.wrap(
                if width.signed(old_value) < width.signed(operand) {
                    old_value as int
                } else {
                    operand as int
                },
            ),
        )
    } else if f5 == 0x14 {
        Some(
            width.wrap(
                if width.signed(old_value) < width.signed(operand) {
                    operand as int
                } else {
                    old_value as int
                },
            ),
        )
    } else if f5 == 0x18 {
        Some(
            width.wrap(
                if width.wrap(old_value as int) < width.wrap(operand as int) {
                    old_value as int
                } else {
                    operand as int
                },
            ),
        )
    } else if f5 == 0x1c {
        Some(
            width.wrap(
                if width.wrap(old_value as int) < width.wrap(operand as int) {
                    operand as int
                } else {
                    old_value as int
                },
            ),
        )
    } else {
        None
    }
}

pub fn amo(width: Xlen, f5: u32, old_value: u64, operand: u64) -> (r: Option<u64>)
    ensures
        r == spec_amo(width, f5, old_value, operand),
{
    match f5 {
        // AMOSWAP
        0x01 => Some(width.trunc(operand)),
        // AMOADD
        0x00 => Some(width.sum(old_value, operand)),
        // AMOXOR
        0x04 => Some(width.trunc(old_value ^ operand)),
        // AMOAND
        0x0c => Some(width.trunc(old_value & operand)),
        // AMOOR
        0x08 => Some(width.trunc(old_value | operand)),
        // AMOMIN, AMOMAX
        0x10 | 0x14 => {
            let less = alu(width, 2, false, old_value, operand) == 1;
            Some(width.trunc(if less == (f5 == 0x10) { old_value } else { operand }))
        },
        // AMOMINU, AMOMAXU
        0x18 | 0x1c => {
            let less = width.trunc(old_value) < width.trunc(operand);
            Some(width.trunc(if less == (f5 == 0x18) { old_value } else { operand }))
        },
        _ => None,
    }
}

/// Dividing and multiplying back, with what was left over, restores the
/// dividend, and what is left over is smaller than the divisor.
pub proof fn law_division_is_exact(x: int, y: int)
    requires
        y != 0,
    ensures
        x == quotient(x, y) * y + remainder(x, y),
        magnitude_of(remainder(x, y)) < magnitude_of(y),
{
    let (m, n) = (magnitude_of(x), magnitude_of(y));
    let (q, r) = (m / n, m % n);
    lemma_fundamental_div_mod(m, n);
    lemma_mod_bound(m, n);
    assert(n * q == q * n && (-q) * n == -(q * n) && q * (-n) == -(q * n) && (-q) * (-n) == q * n)
        by (nonlinear_arith);
}

/// Every operation stays inside the register width, so an RV32 register file
/// holds nothing above its low 32 bits.
pub proof fn law_results_fit_the_width(width: Xlen, x: int, v: u64)
    ensures
        width.wrap(x) < width.modulus(),
        -(width.modulus() / 2) <= width.signed(v) < width.modulus() / 2,
        width.wrap(width.signed(v)) == width.wrap(v as int),
        width.signed(width.wrap(x)) % width.modulus() == x % width.modulus(),
{
    match width {
        Xlen::Rv32 => {},
        Xlen::Rv64 => {},
    }
}

/// Signed and unsigned comparison disagree exactly where the operands' signs
/// differ.
pub proof fn law_signed_and_unsigned_order(width: Xlen, a: u64, b: u64)
    ensures
        (width.signed(a) < 0) == (width.signed(b) < 0) ==> spec_branch(width, 4, a, b)
            == spec_branch(width, 6, a, b),
        (width.signed(a) < 0) != (width.signed(b) < 0) ==> spec_branch(width, 4, a, b)
            != spec_branch(width, 6, a, b),
{
    match width {
        Xlen::Rv32 => {},
        Xlen::Rv64 => {},
    }
}

/// A product of registers is its high half, read as signed, and its low half.
proof fn lemma_high_half(width: Xlen, p: int)
    requires
        -(width.modulus() / 2 * width.modulus()) <= p < width.modulus() / 2 * width.modulus(),
    ensures
        width.signed(width.wrap(p / width.modulus())) * width.modulus() + p % width.modulus() == p,
{
    match width {
        Xlen::Rv32 => {},
        Xlen::Rv64 => {},
    }
}

/// MUL and the high multiplies split the full product between them, for each
/// choice of signedness.
pub proof fn law_the_product_is_split_in_two(width: Xlen, a: u64, b: u64)
    ensures
        ({
            let m = width.modulus();
            let low = spec_muldiv(width, 0, a, b) as int;
            let (ua, ub) = (width.wrap(a as int) as int, width.wrap(b as int) as int);
            let (sa, sb) = (width.signed(a), width.signed(b));
            &&& spec_muldiv(width, 3, a, b) * m + low == ua * ub
            &&& width.signed(spec_muldiv(width, 1, a, b)) * m + low == sa * sb
            &&& width.signed(spec_muldiv(width, 2, a, b)) * m + low == sa * ub
        }),
{
    let m = width.modulus();
    let (ua, ub) = (width.wrap(a as int) as int, width.wrap(b as int) as int);
    let (sa, sb) = (width.signed(a), width.signed(b));
    let half = m / 2;
    law_results_fit_the_width(width, a as int, a);
    law_results_fit_the_width(width, b as int, b);
    // All three products are congruent to the full one.
    lemma_mul_mod_noop(a as int, b as int, m);
    lemma_mul_mod_noop(ua, ub, m);
    lemma_mul_mod_noop(sa, sb, m);
    lemma_mul_mod_noop(sa, ub, m);
    lemma_small_mod(ua as nat, m as nat);
    lemma_small_mod(ub as nat, m as nat);
    assert(sa % m == ua && sb % m == ub);
    assert(0 <= ua * ub <= (m - 1) * (m - 1)) by (nonlinear_arith)
        requires
            0 <= ua <= m - 1,
            0 <= ub <= m - 1,
    ;
    assert(-(half * half) <= sa * sb <= half * half) by (nonlinear_arith)
        requires
            -half <= sa <= half,
            -half <= sb <= half,
            half >= 0,
    ;
    assert(-(half * m) <= sa * ub <= (half - 1) * m) by (nonlinear_arith)
        requires
            -half <= sa <= half - 1,
            0 <= ub <= m,
            half >= 1,
    ;
    assert(half * half < half * m) by (nonlinear_arith)
        requires
            m == 2 * half,
            half >= 1,
    ;
    lemma_high_half(width, sa * sb);
    lemma_high_half(width, sa * ub);
    lemma_fundamental_div_mod(ua * ub, m);
    lemma_mul_is_commutative(m, (ua * ub) / m);
    match width {
        Xlen::Rv32 => {},
        Xlen::Rv64 => {},
    }
}

/// Dividing by zero yields all ones and leaves the dividend over, and the one
/// signed quotient that does not fit wraps. None of these trap.
pub proof fn law_division_is_total(width: Xlen, a: u64, b: u64)
    ensures
        width.wrap(b as int) == 0 ==> {
            &&& spec_muldiv(width, 4, a, b) == width.modulus() - 1
            &&& spec_muldiv(width, 5, a, b) == width.modulus() - 1
            &&& spec_muldiv(width, 6, a, b) == width.wrap(a as int)
            &&& spec_muldiv(width, 7, a, b) == width.wrap(a as int)
        },
        width.signed(a) == -(width.modulus() / 2) && width.signed(b) == -1 ==> {
            &&& spec_muldiv(width, 4, a, b) == width.wrap(a as int)
            &&& spec_muldiv(width, 6, a, b) == 0
        },
{
    lemma_div_basics(width.modulus() / 2);
    match width {
        Xlen::Rv32 => {},
        Xlen::Rv64 => {},
    }
}

/// A word operation sees only the low half of its operands.
pub proof fn law_word_operations_ignore_the_upper_half(f3: u32, alt: bool, a: u64, b: u64)
    requires
        f3 < 4 || f3 == 5,
    ensures
        spec_alu(Xlen::Rv32, f3, alt, a, b) == spec_alu(
            Xlen::Rv32,
            f3,
            alt,
            Xlen::Rv32.wrap(a as int),
            Xlen::Rv32.wrap(b as int),
        ),
{
    let m = Xlen::Rv32.modulus();
    let (x, y) = (Xlen::Rv32.wrap(a as int), Xlen::Rv32.wrap(b as int));
    assert(b % 32 == y % 32);
    let p = pow2((b % 32) as nat) as int;
    lemma_mul_mod_noop(a as int, p, m);
    lemma_mul_mod_noop(x as int, p, m);
}

/// Only the low bits of a shift amount count: on RV32 a shift by 33 is a shift
/// by 1.
pub proof fn law_shift_amounts_wrap(width: Xlen, f3: u32, alt: bool, a: u64, b: u64)
    requires
        f3 == 1 || f3 == 5,
    ensures
        spec_alu(width, f3, alt, a, b) == spec_alu(
            width,
            f3,
            alt,
            a,
            b % (width.spec_bits() as u64),
        ),
{
    match width {
        Xlen::Rv32 => {
            assert((b % 32) % 32 == b % 32);
        },
        Xlen::Rv64 => {
            assert((b % 64) % 64 == b % 64);
        },
    }
}

} // verus!
