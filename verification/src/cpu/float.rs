//! The F and D extensions.
//!
//! The f registers are 64 bits wide at either XLEN, and a single-precision
//! value is kept boxed: in the low half, with the upper half all ones. A
//! register that is not boxed reads as the canonical NaN when it is used as a
//! single, and moves and stores do not look.

use crate::cpu::execute;
use crate::cpu::{Cpu, CpuState, Outcome, Xlen};
use crate::csr::{self, mstatus};
use crate::decode;
use crate::fpu::{self, Fmt, Rm};
use crate::trap::Exception;
use vstd::arithmetic::power2::*;
use vstd::prelude::*;

verus! {

/// An upper half of all ones.
pub const BOX: u64 = 0xffff_ffff_0000_0000;

/// A value as a register holds it.
pub open spec fn boxed(f: Fmt, v: u64) -> u64 {
    if f == Fmt::spec_double() {
        v
    } else {
        (BOX + v % 0x1_0000_0000) as u64
    }
}

/// A register's contents as a value of a format.
pub open spec fn unboxed(f: Fmt, reg: u64) -> u64 {
    if f == Fmt::spec_double() {
        reg
    } else if reg >= BOX {
        (reg % 0x1_0000_0000) as u64
    } else {
        f.spec_nan()
    }
}

/// The format an instruction names.
pub open spec fn spec_format(code: nat) -> Option<Fmt> {
    if code == 0 {
        Some(Fmt::spec_single())
    } else if code == 1 {
        Some(Fmt::spec_double())
    } else {
        None
    }
}

fn format(code: u32) -> (r: Option<Fmt>)
    ensures
        r == spec_format(code as nat),
        r matches Some(f) ==> f.valid(),
{
    match code {
        0 => Some(Fmt::single()),
        1 => Some(Fmt::double()),
        _ => None,
    }
}

/// The width and signedness of an integer that a conversion names.
pub open spec fn spec_integer(code: nat, xlen: Xlen) -> Option<(Xlen, bool)> {
    if code == 0 {
        Some((Xlen::Rv32, true))
    } else if code == 1 {
        Some((Xlen::Rv32, false))
    } else if code == 2 && xlen == Xlen::Rv64 {
        Some((Xlen::Rv64, true))
    } else if code == 3 && xlen == Xlen::Rv64 {
        Some((Xlen::Rv64, false))
    } else {
        None
    }
}

fn integer(code: usize, xlen: Xlen) -> (r: Option<(Xlen, bool)>)
    ensures
        r == spec_integer(code as nat, xlen),
{
    match code {
        // W, WU
        0 => Some((Xlen::Rv32, true)),
        1 => Some((Xlen::Rv32, false)),
        // L, LU
        2 if xlen == Xlen::Rv64 => Some((Xlen::Rv64, true)),
        3 if xlen == Xlen::Rv64 => Some((Xlen::Rv64, false)),
        _ => None,
    }
}

/// What the four basic operations give.
pub open spec fn spec_basic(f5: u32, f: Fmt, a: u64, b: u64, rm: Rm) -> (u64, u32) {
    if f5 == 0x00 {
        fpu::spec_sum(f, a, b, rm, false)
    } else if f5 == 0x01 {
        fpu::spec_sum(f, a, b, rm, true)
    } else if f5 == 0x02 {
        fpu::spec_mul(f, a, b, rm)
    } else {
        fpu::spec_div(f, a, b, rm)
    }
}

/// What the comparisons give; `funct3` selects one.
pub open spec fn spec_compare(f3: u32, f: Fmt, a: u64, b: u64) -> (bool, u32) {
    if f3 == 2 {
        fpu::spec_eq(f, a, b)
    } else {
        fpu::spec_lt(f, a, b, f3 == 0)
    }
}

impl CpuState {
    /// An f register read as a value of a format.
    pub open spec fn float(self, f: Fmt, r: nat) -> u64 {
        unboxed(f, self.fregs[r as int])
    }

    /// The state with an f register written, which makes the FP state dirty.
    pub open spec fn set_float(self, f: Fmt, r: nat, v: u64) -> CpuState {
        CpuState {
            fregs: self.fregs.update(r as int, boxed(f, v)),
            csrs: self.csrs.set_bits(csr::MSTATUS, mstatus::FS),
            ..self
        }
    }

    /// The state with exception flags added to those already raised.
    pub open spec fn accrue(self, flags: u32) -> CpuState {
        if flags == 0 {
            self
        } else {
            CpuState {
                csrs: self.csrs.set_bits(csr::FCSR, flags as u64).set_bits(
                    csr::MSTATUS,
                    mstatus::FS,
                ),
                ..self
            }
        }
    }

    /// The rounding mode an instruction names, or the dynamic one it defers
    /// to. The reserved encodings name none.
    pub open spec fn rounding(self, f3: u32) -> Option<Rm> {
        if f3 == 7 {
            Rm::spec_from_bits(((self.csrs.at(csr::FCSR) >> 5) & 7) as u32)
        } else {
            Rm::spec_from_bits(f3)
        }
    }

    pub open spec fn exec_load_float(self, inst: u32) -> Outcome {
        let f3 = execute::funct3(inst);
        if f3 != 2 && f3 != 3 {
            self.illegal(inst)
        } else {
            let f = if f3 == 2 { Fmt::spec_single() } else { Fmt::spec_double() };
            let size: u64 = if f3 == 2 { 4 } else { 8 };
            let va = self.xlen.wrap(self.x(execute::rs1(inst)) + decode::spec_imm_i(inst));
            let (after, loaded) = self.load(va, size);
            match loaded {
                Err(e) => (after, Err(e)),
                Ok(v) => (after.set_float(f, execute::rd(inst), v), Ok(())),
            }
        }
    }

    pub open spec fn exec_store_float(self, inst: u32) -> Outcome {
        let f3 = execute::funct3(inst);
        if f3 != 2 && f3 != 3 {
            self.illegal(inst)
        } else {
            let size: u64 = if f3 == 2 { 4 } else { 8 };
            let va = self.xlen.wrap(self.x(execute::rs1(inst)) + decode::spec_imm_s(inst));
            self.store(va, size, self.fregs[execute::rs2(inst) as int])
        }
    }

    /// The fused multiply-adds: `negate` says whether the product and the
    /// addend change sign.
    pub open spec fn exec_fma(self, inst: u32, negate: (bool, bool)) -> Outcome {
        let format = spec_format(decode::field(inst, 26, 25));
        let rounding = self.rounding(execute::funct3(inst));
        match (format, rounding) {
            (Some(f), Some(rm)) => {
                let (v, flags) = fpu::spec_fma(
                    f,
                    self.float(f, execute::rs1(inst)),
                    self.float(f, execute::rs2(inst)),
                    self.float(f, decode::field(inst, 31, 27)),
                    negate.0,
                    negate.1,
                    rm,
                );
                (self.set_float(f, execute::rd(inst), v).accrue(flags), Ok(()))
            },
            _ => self.illegal(inst),
        }
    }

    /// The operations that round: add, subtract, multiply, divide and root.
    pub open spec fn exec_arith(self, inst: u32, f: Fmt) -> Outcome {
        let f5 = execute::funct5(inst);
        let a = self.float(f, execute::rs1(inst));
        match self.rounding(execute::funct3(inst)) {
            None => self.illegal(inst),
            Some(rm) => {
                let (v, flags) = if f5 == 0x0b {
                    fpu::spec_sqrt(f, a, rm)
                } else {
                    spec_basic(f5, f, a, self.float(f, execute::rs2(inst)), rm)
                };
                (self.set_float(f, execute::rd(inst), v).accrue(flags), Ok(()))
            },
        }
    }

    /// Between the two formats.
    pub open spec fn exec_convert(self, inst: u32, from: Fmt, to: Fmt) -> Outcome {
        match self.rounding(execute::funct3(inst)) {
            None => self.illegal(inst),
            Some(rm) => {
                let a = self.float(from, execute::rs1(inst));
                let (v, flags) = fpu::spec_convert(from, to, a, rm);
                (self.set_float(to, execute::rd(inst), v).accrue(flags), Ok(()))
            },
        }
    }

    /// To an integer. A word result is sign-extended even when it is
    /// unsigned.
    pub open spec fn exec_to_int(self, inst: u32, f: Fmt) -> Outcome {
        let kind = spec_integer(execute::rs2(inst), self.xlen);
        let rounding = self.rounding(execute::funct3(inst));
        match (kind, rounding) {
            (Some((width, signed)), Some(rm)) => {
                let a = self.float(f, execute::rs1(inst));
                let (v, flags) = fpu::spec_to_int(f, a, width.spec_bits(), signed, rm);
                let result = if width == Xlen::Rv32 {
                    self.xlen.extended((v % 0x1_0000_0000) as u64, 32)
                } else {
                    v
                };
                (self.set_x(execute::rd(inst), result).accrue(flags), Ok(()))
            },
            _ => self.illegal(inst),
        }
    }

    /// From an integer.
    pub open spec fn exec_from_int(self, inst: u32, f: Fmt) -> Outcome {
        let kind = spec_integer(execute::rs2(inst), self.xlen);
        let rounding = self.rounding(execute::funct3(inst));
        match (kind, rounding) {
            (Some((width, signed)), Some(rm)) => {
                let x = self.x(execute::rs1(inst));
                let n = if signed { width.signed(x) } else { width.wrap(x as int) as int };
                let (v, flags) = fpu::spec_from_int(
                    f,
                    n < 0,
                    (if n < 0 { -n } else { n }) as u64,
                    rm,
                );
                (self.set_float(f, execute::rd(inst), v).accrue(flags), Ok(()))
            },
            _ => self.illegal(inst),
        }
    }

    /// To an integer register: the raw bits, or the class of the value.
    pub open spec fn exec_move_to_int(self, inst: u32, f: Fmt) -> Outcome {
        let f3 = execute::funct3(inst);
        let raw = self.fregs[execute::rs1(inst) as int];
        if execute::rs2(inst) != 0 {
            self.illegal(inst)
        } else if f3 == 1 {
            (
                self.set_x(
                    execute::rd(inst),
                    fpu::spec_class(f, self.float(f, execute::rs1(inst))),
                ),
                Ok(()),
            )
        } else if f3 == 0 && f == Fmt::spec_single() {
            (
                self.set_x(
                    execute::rd(inst),
                    self.xlen.extended((raw % 0x1_0000_0000) as u64, 32),
                ),
                Ok(()),
            )
        } else if f3 == 0 && self.xlen == Xlen::Rv64 {
            (self.set_x(execute::rd(inst), raw), Ok(()))
        } else {
            self.illegal(inst)
        }
    }

    /// From an integer register, bit for bit.
    pub open spec fn exec_move_from_int(self, inst: u32, f: Fmt) -> Outcome {
        if execute::rs2(inst) == 0 && execute::funct3(inst) == 0 && (f == Fmt::spec_single()
            || self.xlen == Xlen::Rv64) {
            (self.set_float(f, execute::rd(inst), self.x(execute::rs1(inst))), Ok(()))
        } else {
            self.illegal(inst)
        }
    }

    pub open spec fn exec_op_float(self, inst: u32) -> Outcome {
        let f5 = execute::funct5(inst);
        let f3 = execute::funct3(inst);
        let source = execute::rs2(inst);
        match spec_format(decode::field(inst, 26, 25)) {
            None => self.illegal(inst),
            Some(f) => {
                let a = self.float(f, execute::rs1(inst));
                let b = self.float(f, source);
                if f5 <= 0x03 || (f5 == 0x0b && source == 0) {
                    self.exec_arith(inst, f)
                } else if f5 == 0x04 && f3 <= 2 {
                    (
                        self.set_float(
                            f,
                            execute::rd(inst),
                            fpu::spec_sign_inject(f, a, b, f3),
                        ),
                        Ok(()),
                    )
                } else if f5 == 0x05 && f3 <= 1 {
                    let (v, flags) = fpu::spec_min_max(f, a, b, f3 == 1);
                    (self.set_float(f, execute::rd(inst), v).accrue(flags), Ok(()))
                } else if f5 == 0x14 && f3 <= 2 {
                    let (holds, flags) = spec_compare(f3, f, a, b);
                    (
                        self.set_x(execute::rd(inst), if holds { 1 } else { 0 }).accrue(flags),
                        Ok(()),
                    )
                } else if f5 == 0x08 && source == 1 && f == Fmt::spec_single() {
                    self.exec_convert(inst, Fmt::spec_double(), f)
                } else if f5 == 0x08 && source == 0 && f == Fmt::spec_double() {
                    self.exec_convert(inst, Fmt::spec_single(), f)
                } else if f5 == 0x18 {
                    self.exec_to_int(inst, f)
                } else if f5 == 0x1a {
                    self.exec_from_int(inst, f)
                } else if f5 == 0x1c {
                    self.exec_move_to_int(inst, f)
                } else if f5 == 0x1e {
                    self.exec_move_from_int(inst, f)
                } else {
                    self.illegal(inst)
                }
            },
        }
    }

    /// Every FP instruction is illegal while FS says the state is off.
    pub open spec fn exec_float(self, inst: u32) -> Outcome {
        let opcode = decode::field(inst, 6, 0);
        if !self.float_enabled() {
            self.illegal(inst)
        } else if opcode == 0x07 {
            self.exec_load_float(inst)
        } else if opcode == 0x27 {
            self.exec_store_float(inst)
        } else if opcode == 0x43 {
            self.exec_fma(inst, (false, false))
        } else if opcode == 0x47 {
            self.exec_fma(inst, (false, true))
        } else if opcode == 0x4b {
            self.exec_fma(inst, (true, false))
        } else if opcode == 0x4f {
            self.exec_fma(inst, (true, true))
        } else {
            self.exec_op_float(inst)
        }
    }
}

impl Cpu {
    fn float(&self, f: Fmt, r: usize) -> (v: u64)
        requires
            r < 32,
            f.valid(),
        ensures
            v == self@.float(f, r as nat),
    {
        let reg = self.fregs[r];
        if f == Fmt::double() {
            reg
        } else if reg >= BOX {
            reg % 0x1_0000_0000
        } else {
            f.nan()
        }
    }

    fn set_float(&mut self, f: Fmt, r: usize, v: u64)
        requires
            r < 32,
        ensures
            final(self)@ == old(self)@.set_float(f, r as nat, v),
    {
        self.fregs[r] = if f == Fmt::double() {
            v
        } else {
            BOX + v % 0x1_0000_0000
        };
        self.csrs.set_bits(csr::MSTATUS, mstatus::FS);
    }

    fn accrue(&mut self, flags: u32)
        ensures
            final(self)@ == old(self)@.accrue(flags),
    {
        if flags != 0 {
            self.csrs.set_bits(csr::FCSR, flags as u64);
            self.csrs.set_bits(csr::MSTATUS, mstatus::FS);
        }
    }

    fn rounding(&self, f3: u32) -> (r: Option<Rm>)
        ensures
            r == self@.rounding(f3),
    {
        if f3 == 7 {
            Rm::from_bits(((self.csrs.stored(csr::FCSR) >> 5) & 7) as u32)
        } else {
            Rm::from_bits(f3)
        }
    }

    fn exec_load_float(&mut self, inst: u32) -> (r: Result<(), Exception>)
        ensures
            (final(self)@, r) == old(self)@.exec_load_float(inst),
    {
        let f3 = decode::funct3(inst);
        if f3 != 2 && f3 != 3 {
            return Err(Exception::IllegalInstruction(inst));
        }
        let va = self.xlen.offset(self.rr(decode::rs1(inst)), decode::imm_i(inst));
        let (f, size): (Fmt, u64) = if f3 == 2 {
            (Fmt::single(), 4)
        } else {
            (Fmt::double(), 8)
        };
        match self.load(va, size) {
            Ok(v) => {
                self.set_float(f, decode::rd(inst), v);
                Ok(())
            },
            Err(e) => Err(e),
        }
    }

    fn exec_store_float(&mut self, inst: u32) -> (r: Result<(), Exception>)
        ensures
            (final(self)@, r) == old(self)@.exec_store_float(inst),
    {
        let f3 = decode::funct3(inst);
        if f3 != 2 && f3 != 3 {
            return Err(Exception::IllegalInstruction(inst));
        }
        let va = self.xlen.offset(self.rr(decode::rs1(inst)), decode::imm_s(inst));
        let value = self.fregs[decode::rs2(inst)];
        self.store(va, if f3 == 2 { 4 } else { 8 }, value)
    }

    fn exec_fma(&mut self, inst: u32, negate: (bool, bool)) -> (r: Result<(), Exception>)
        ensures
            (final(self)@, r) == old(self)@.exec_fma(inst, negate),
    {
        let (f, rm) = match (format(decode::bits(inst, 26, 25)), self.rounding(
            decode::funct3(inst),
        )) {
            (Some(f), Some(rm)) => (f, rm),
            _ => {
                return Err(Exception::IllegalInstruction(inst));
            },
        };
        let third = decode::bits(inst, 31, 27);
        proof {
            lemma2_to64();
        }
        let a = self.float(f, decode::rs1(inst));
        let b = self.float(f, decode::rs2(inst));
        let c = self.float(f, third as usize);
        let (v, flags) = fpu::fma(f, a, b, c, negate.0, negate.1, rm);
        self.set_float(f, decode::rd(inst), v);
        self.accrue(flags);
        Ok(())
    }

    fn exec_arith(&mut self, inst: u32, f: Fmt) -> (r: Result<(), Exception>)
        requires
            f.valid(),
        ensures
            (final(self)@, r) == old(self)@.exec_arith(inst, f),
    {
        let rm = match self.rounding(decode::funct3(inst)) {
            Some(rm) => rm,
            None => {
                return Err(Exception::IllegalInstruction(inst));
            },
        };
        let a = self.float(f, decode::rs1(inst));
        let b = self.float(f, decode::rs2(inst));
        let (v, flags) = match decode::bits(inst, 31, 27) {
            0x0b => fpu::sqrt(f, a, rm),
            0x00 => fpu::add(f, a, b, rm),
            0x01 => fpu::sub(f, a, b, rm),
            0x02 => fpu::mul(f, a, b, rm),
            _ => fpu::div(f, a, b, rm),
        };
        self.set_float(f, decode::rd(inst), v);
        self.accrue(flags);
        Ok(())
    }

    fn exec_convert(&mut self, inst: u32, from: Fmt, to: Fmt) -> (r: Result<(), Exception>)
        requires
            from.valid(),
            to.valid(),
        ensures
            (final(self)@, r) == old(self)@.exec_convert(inst, from, to),
    {
        let rm = match self.rounding(decode::funct3(inst)) {
            Some(rm) => rm,
            None => {
                return Err(Exception::IllegalInstruction(inst));
            },
        };
        let a = self.float(from, decode::rs1(inst));
        let (v, flags) = fpu::convert(from, to, a, rm);
        self.set_float(to, decode::rd(inst), v);
        self.accrue(flags);
        Ok(())
    }

    fn exec_to_int(&mut self, inst: u32, f: Fmt) -> (r: Result<(), Exception>)
        requires
            f.valid(),
        ensures
            (final(self)@, r) == old(self)@.exec_to_int(inst, f),
    {
        let (kind, rounding) = (integer(decode::rs2(inst), self.xlen), self.rounding(
            decode::funct3(inst),
        ));
        let ((width, signed), rm) = match (kind, rounding) {
            (Some(kind), Some(rm)) => (kind, rm),
            _ => {
                return Err(Exception::IllegalInstruction(inst));
            },
        };
        let a = self.float(f, decode::rs1(inst));
        let (v, flags) = fpu::to_int(f, a, width.bits(), signed, rm);
        proof {
            lemma2_to64();
        }
        let v = if width == Xlen::Rv32 {
            self.xlen.extend(v % 0x1_0000_0000, 32)
        } else {
            v
        };
        self.wr(decode::rd(inst), v);
        self.accrue(flags);
        Ok(())
    }

    fn exec_from_int(&mut self, inst: u32, f: Fmt) -> (r: Result<(), Exception>)
        requires
            f.valid(),
        ensures
            (final(self)@, r) == old(self)@.exec_from_int(inst, f),
    {
        let (kind, rounding) = (integer(decode::rs2(inst), self.xlen), self.rounding(
            decode::funct3(inst),
        ));
        let ((width, signed), rm) = match (kind, rounding) {
            (Some(kind), Some(rm)) => (kind, rm),
            _ => {
                return Err(Exception::IllegalInstruction(inst));
            },
        };
        let x = self.rr(decode::rs1(inst));
        let (sign, magnitude) = if signed {
            width.split(x)
        } else {
            (false, width.trunc(x))
        };
        let (v, flags) = fpu::from_int(f, sign, magnitude, rm);
        self.set_float(f, decode::rd(inst), v);
        self.accrue(flags);
        Ok(())
    }

    fn exec_move_to_int(&mut self, inst: u32, f: Fmt) -> (r: Result<(), Exception>)
        requires
            f.valid(),
        ensures
            (final(self)@, r) == old(self)@.exec_move_to_int(inst, f),
    {
        let f3 = decode::funct3(inst);
        let raw = self.fregs[decode::rs1(inst)];
        proof {
            lemma2_to64();
        }
        let v = if decode::rs2(inst) != 0 {
            return Err(Exception::IllegalInstruction(inst));
        } else if f3 == 1 {
            fpu::classify(f, self.float(f, decode::rs1(inst)))
        } else if f3 == 0 && f == Fmt::single() {
            self.xlen.extend(raw % 0x1_0000_0000, 32)
        } else if f3 == 0 && self.xlen == Xlen::Rv64 {
            raw
        } else {
            return Err(Exception::IllegalInstruction(inst));
        };
        self.wr(decode::rd(inst), v);
        Ok(())
    }

    fn exec_move_from_int(&mut self, inst: u32, f: Fmt) -> (r: Result<(), Exception>)
        ensures
            (final(self)@, r) == old(self)@.exec_move_from_int(inst, f),
    {
        if decode::rs2(inst) == 0 && decode::funct3(inst) == 0 && (f == Fmt::single() || self.xlen
            == Xlen::Rv64) {
            let v = self.rr(decode::rs1(inst));
            self.set_float(f, decode::rd(inst), v);
            Ok(())
        } else {
            Err(Exception::IllegalInstruction(inst))
        }
    }

    fn exec_op_float(&mut self, inst: u32) -> (r: Result<(), Exception>)
        ensures
            (final(self)@, r) == old(self)@.exec_op_float(inst),
    {
        let f = match format(decode::bits(inst, 26, 25)) {
            Some(f) => f,
            None => {
                return Err(Exception::IllegalInstruction(inst));
            },
        };
        let f5 = decode::bits(inst, 31, 27);
        let f3 = decode::funct3(inst);
        let source = decode::rs2(inst);
        let a = self.float(f, decode::rs1(inst));
        let b = self.float(f, source);
        if f5 <= 0x03 || (f5 == 0x0b && source == 0) {
            self.exec_arith(inst, f)
        } else if f5 == 0x04 && f3 <= 2 {
            self.set_float(f, decode::rd(inst), fpu::sign_inject(f, a, b, f3));
            Ok(())
        } else if f5 == 0x05 && f3 <= 1 {
            let (v, flags) = fpu::min_max(f, a, b, f3 == 1);
            self.set_float(f, decode::rd(inst), v);
            self.accrue(flags);
            Ok(())
        } else if f5 == 0x14 && f3 <= 2 {
            let (holds, flags) = if f3 == 2 {
                fpu::eq(f, a, b)
            } else {
                fpu::lt(f, a, b, f3 == 0)
            };
            self.wr(decode::rd(inst), if holds { 1 } else { 0 });
            self.accrue(flags);
            Ok(())
        } else if f5 == 0x08 && source == 1 && f == Fmt::single() {
            self.exec_convert(inst, Fmt::double(), f)
        } else if f5 == 0x08 && source == 0 && f == Fmt::double() {
            self.exec_convert(inst, Fmt::single(), f)
        } else if f5 == 0x18 {
            self.exec_to_int(inst, f)
        } else if f5 == 0x1a {
            self.exec_from_int(inst, f)
        } else if f5 == 0x1c {
            self.exec_move_to_int(inst, f)
        } else if f5 == 0x1e {
            self.exec_move_from_int(inst, f)
        } else {
            Err(Exception::IllegalInstruction(inst))
        }
    }

    /// Executes an instruction of one of the FP opcodes.
    pub(crate) fn exec_float(&mut self, inst: u32) -> (r: Result<(), Exception>)
        ensures
            (final(self)@, r) == old(self)@.exec_float(inst),
    {
        if self.csrs.stored(csr::MSTATUS) & mstatus::FS == 0 {
            return Err(Exception::IllegalInstruction(inst));
        }
        match decode::opcode(inst) {
            // LOAD-FP
            0x07 => self.exec_load_float(inst),
            // STORE-FP
            0x27 => self.exec_store_float(inst),
            // FMADD, FMSUB, FNMSUB, FNMADD
            0x43 => self.exec_fma(inst, (false, false)),
            0x47 => self.exec_fma(inst, (false, true)),
            0x4b => self.exec_fma(inst, (true, false)),
            0x4f => self.exec_fma(inst, (true, true)),
            // OP-FP
            _ => self.exec_op_float(inst),
        }
    }
}

} // verus!
