//! The integer instructions, and the dispatch to everything else.

use crate::alu;
use crate::cpu::{Cpu, CpuState, Outcome, Xlen};
use crate::decode;
use crate::trap::{Access, Exception};
use vstd::arithmetic::power2::*;
use vstd::prelude::*;

verus! {

/// The destination register of an instruction.
pub open spec fn rd(inst: u32) -> nat {
    decode::field(inst, 11, 7)
}

pub open spec fn rs1(inst: u32) -> nat {
    decode::field(inst, 19, 15)
}

pub open spec fn rs2(inst: u32) -> nat {
    decode::field(inst, 24, 20)
}

pub open spec fn funct3(inst: u32) -> u32 {
    decode::field(inst, 14, 12) as u32
}

pub open spec fn funct7(inst: u32) -> u32 {
    decode::field(inst, 31, 25) as u32
}

/// The operation of an atomic instruction, above its ordering bits.
pub open spec fn funct5(inst: u32) -> u32 {
    decode::field(inst, 31, 27) as u32
}

/// The opcodes of the F and D extensions.
pub open spec fn is_float(opcode: nat) -> bool {
    ||| opcode == 0x07
    ||| opcode == 0x27
    ||| opcode == 0x43
    ||| opcode == 0x47
    ||| opcode == 0x4b
    ||| opcode == 0x4f
    ||| opcode == 0x53
}

/// How many bytes a load reads, and whether it sign-extends them.
pub open spec fn spec_load_shape(f3: u32, xlen: Xlen) -> Option<(u64, bool)> {
    if f3 == 0 {
        Some((1, true))
    } else if f3 == 1 {
        Some((2, true))
    } else if f3 == 2 {
        Some((4, true))
    } else if f3 == 3 && xlen == Xlen::Rv64 {
        Some((8, true))
    } else if f3 == 4 {
        Some((1, false))
    } else if f3 == 5 {
        Some((2, false))
    } else if f3 == 6 && xlen == Xlen::Rv64 {
        Some((4, false))
    } else {
        None
    }
}

fn load_shape(f3: u32, xlen: Xlen) -> (r: Option<(u64, bool)>)
    ensures
        r == spec_load_shape(f3, xlen),
{
    match f3 {
        // LB, LH, LW
        0 => Some((1, true)),
        1 => Some((2, true)),
        2 => Some((4, true)),
        // LD
        3 if xlen == Xlen::Rv64 => Some((8, true)),
        // LBU, LHU
        4 => Some((1, false)),
        5 => Some((2, false)),
        // LWU
        6 if xlen == Xlen::Rv64 => Some((4, false)),
        _ => None,
    }
}

/// How many bytes a store writes.
pub open spec fn spec_store_size(f3: u32, xlen: Xlen) -> Option<u64> {
    if f3 == 0 {
        Some(1)
    } else if f3 == 1 {
        Some(2)
    } else if f3 == 2 {
        Some(4)
    } else if f3 == 3 && xlen == Xlen::Rv64 {
        Some(8)
    } else {
        None
    }
}

fn store_size(f3: u32, xlen: Xlen) -> (r: Option<u64>)
    ensures
        r == spec_store_size(f3, xlen),
{
    match f3 {
        0 => Some(1),
        1 => Some(2),
        2 => Some(4),
        3 if xlen == Xlen::Rv64 => Some(8),
        _ => None,
    }
}

/// Whether an immediate shift at this width is one that exists, and if so
/// whether it is arithmetic. The amount has one bit more on RV64; on RV32
/// that bit belongs to the operation and must be clear.
pub open spec fn spec_shift_kind(width: Xlen, f3: u32, inst: u32) -> Option<bool> {
    let top = decode::field(inst, 31, 26);
    if width == Xlen::Rv32 && decode::field(inst, 25, 25) != 0 {
        None
    } else if top == 0 {
        Some(false)
    } else if top == 0x10 && f3 == 5 {
        Some(true)
    } else {
        None
    }
}

fn shift_kind(width: Xlen, f3: u32, inst: u32) -> (r: Option<bool>)
    ensures
        r == spec_shift_kind(width, f3, inst),
{
    let top = decode::bits(inst, 31, 26);
    if width == Xlen::Rv32 && decode::bits(inst, 25, 25) != 0 {
        None
    } else if top == 0 {
        Some(false)
    } else if top == 0x10 && f3 == 5 {
        Some(true)
    } else {
        None
    }
}

/// What a register-immediate operation gives, or `None` where there is none.
pub open spec fn spec_op_imm(width: Xlen, inst: u32, a: u64) -> Option<u64> {
    let f3 = funct3(inst);
    if f3 == 1 || f3 == 5 {
        match spec_shift_kind(width, f3, inst) {
            Some(alt) => Some(
                alu::spec_alu(width, f3, alt, a, decode::field(inst, 25, 20) as u64),
            ),
            None => None,
        }
    } else {
        Some(alu::spec_alu(width, f3, false, a, width.wrap(decode::spec_imm_i(inst))))
    }
}

fn op_imm(width: Xlen, inst: u32, a: u64) -> (r: Option<u64>)
    ensures
        r == spec_op_imm(width, inst, a),
        r matches Some(v) ==> v < width.modulus(),
{
    let f3 = decode::funct3(inst);
    if f3 == 1 || f3 == 5 {
        match shift_kind(width, f3, inst) {
            Some(alt) => Some(alu::alu(width, f3, alt, a, decode::bits(inst, 25, 20) as u64)),
            None => None,
        }
    } else {
        Some(alu::alu(width, f3, false, a, width.immediate(decode::imm_i(inst))))
    }
}

/// What a register-register operation gives, or `None` where there is none.
pub open spec fn spec_op(width: Xlen, inst: u32, a: u64, b: u64) -> Option<u64> {
    let (f3, f7) = (funct3(inst), funct7(inst));
    if f7 == 0x00 {
        Some(alu::spec_alu(width, f3, false, a, b))
    } else if f7 == 0x20 && (f3 == 0 || f3 == 5) {
        Some(alu::spec_alu(width, f3, true, a, b))
    } else if f7 == 0x01 {
        Some(alu::spec_muldiv(width, f3, a, b))
    } else {
        None
    }
}

fn op(width: Xlen, inst: u32, a: u64, b: u64) -> (r: Option<u64>)
    ensures
        r == spec_op(width, inst, a, b),
        r matches Some(v) ==> v < width.modulus(),
{
    let f3 = decode::funct3(inst);
    match decode::funct7(inst) {
        0x00 => Some(alu::alu(width, f3, false, a, b)),
        0x20 if f3 == 0 || f3 == 5 => Some(alu::alu(width, f3, true, a, b)),
        0x01 => Some(alu::muldiv(width, f3, a, b)),
        _ => None,
    }
}

/// Which of the register-immediate operations have a word form.
pub open spec fn has_word_imm(f3: u32) -> bool {
    f3 == 0 || f3 == 1 || f3 == 5
}

/// Which of the register-register operations have a word form.
pub open spec fn has_word_op(f3: u32, f7: u32) -> bool {
    if f7 == 0x01 {
        f3 == 0 || f3 >= 4
    } else {
        f3 == 0 || f3 == 1 || f3 == 5
    }
}

/// Where an atomic access of this size must lie.
pub open spec fn spec_misaligned(f5: u32, addr: u64) -> Exception {
    if f5 == 0x02 {
        Exception::LoadAddressMisaligned(addr)
    } else {
        Exception::StoreAddressMisaligned(addr)
    }
}

impl CpuState {
    pub open spec fn illegal(self, inst: u32) -> Outcome {
        (self, Err(Exception::IllegalInstruction(inst)))
    }

    /// Writes a result, where there is one.
    pub open spec fn finish(self, inst: u32, value: Option<u64>) -> Outcome {
        match value {
            Some(v) => (self.set_x(rd(inst), v), Ok(())),
            None => self.illegal(inst),
        }
    }

    /// Sign-extends the result of a word operation, where there is one.
    pub open spec fn finish_word(self, inst: u32, value: Option<u64>) -> Outcome {
        match value {
            Some(v) => (self.set_x(rd(inst), self.xlen.extended(v, 32)), Ok(())),
            None => self.illegal(inst),
        }
    }

    pub open spec fn exec_branch(self, inst: u32, here: u64) -> Outcome {
        match alu::spec_branch(self.xlen, funct3(inst), self.x(rs1(inst)), self.x(rs2(inst))) {
            Some(true) => (self.jump(self.xlen.wrap(here + decode::spec_imm_b(inst))), Ok(())),
            Some(false) => (self, Ok(())),
            None => self.illegal(inst),
        }
    }

    pub open spec fn exec_load(self, inst: u32) -> Outcome {
        match spec_load_shape(funct3(inst), self.xlen) {
            None => self.illegal(inst),
            Some((size, signed)) => {
                let va = self.xlen.wrap(self.x(rs1(inst)) + decode::spec_imm_i(inst));
                let (after, loaded) = self.load(va, size);
                match loaded {
                    Err(e) => (after, Err(e)),
                    Ok(v) => (
                        after.set_x(
                            rd(inst),
                            if signed {
                                self.xlen.extended(v, (8 * size) as nat)
                            } else {
                                v
                            },
                        ),
                        Ok(()),
                    ),
                }
            },
        }
    }

    pub open spec fn exec_store(self, inst: u32) -> Outcome {
        match spec_store_size(funct3(inst), self.xlen) {
            None => self.illegal(inst),
            Some(size) => {
                let va = self.xlen.wrap(self.x(rs1(inst)) + decode::spec_imm_s(inst));
                self.store(va, size, self.x(rs2(inst)))
            },
        }
    }

    /// A load-reserved: reads, and remembers where.
    pub open spec fn exec_lr(self, inst: u32, addr: u64, size: u64) -> Outcome {
        let (after, loaded) = self.load(addr, size);
        match loaded {
            Err(e) => (after, Err(e)),
            Ok(v) => (
                CpuState { reservation: Some(addr), ..after }.set_x(
                    rd(inst),
                    self.xlen.extended(v, (8 * size) as nat),
                ),
                Ok(()),
            ),
        }
    }

    /// A store-conditional: writes only where the reservation is, and
    /// consumes it either way.
    pub open spec fn exec_sc(self, inst: u32, addr: u64, size: u64) -> Outcome {
        let freed = CpuState { reservation: None, ..self };
        if self.reservation == Some(addr) {
            let (after, stored) = freed.store(addr, size, self.x(rs2(inst)));
            match stored {
                Err(e) => (after, Err(e)),
                Ok(_) => (after.set_x(rd(inst), 0), Ok(())),
            }
        } else {
            (freed.set_x(rd(inst), 1), Ok(()))
        }
    }

    /// A read-modify-write. It needs write permission throughout, so its
    /// faults are a store's.
    pub open spec fn exec_rmw(self, inst: u32, addr: u64, size: u64, width: Xlen) -> Outcome {
        let (s1, found) = self.translate(addr, Access::Store);
        match found {
            Err(e) => (s1, Err(e)),
            Ok(pa) => {
                let (s2, read) = s1.read_at(pa, size, addr, Access::Store);
                match read {
                    Err(e) => (s2, Err(e)),
                    Ok(old_value) => {
                        let new_value = alu::spec_amo(
                            width,
                            funct5(inst),
                            old_value,
                            self.x(rs2(inst)),
                        )->0;
                        let (s3, written) = s2.write_at(pa, size, new_value, addr);
                        match written {
                            Err(e) => (s3, Err(e)),
                            Ok(_) => (
                                s3.set_x(
                                    rd(inst),
                                    self.xlen.extended(old_value, (8 * size) as nat),
                                ),
                                Ok(()),
                            ),
                        }
                    },
                }
            },
        }
    }

    /// The A extension. Unlike ordinary loads and stores, an atomic must be
    /// naturally aligned.
    pub open spec fn exec_amo(self, inst: u32) -> Outcome {
        let f3 = funct3(inst);
        let f5 = funct5(inst);
        let addr = self.x(rs1(inst));
        let size: u64 = if f3 == 2 { 4 } else { 8 };
        let width = if f3 == 2 { Xlen::Rv32 } else { Xlen::Rv64 };
        if f3 != 2 && !(f3 == 3 && self.xlen == Xlen::Rv64) {
            self.illegal(inst)
        } else if f5 != 0x02 && f5 != 0x03 && alu::spec_amo(width, f5, 0, 0) is None {
            self.illegal(inst)
        } else if addr % size != 0 {
            (self, Err(spec_misaligned(f5, addr)))
        } else if f5 == 0x02 {
            self.exec_lr(inst, addr, size)
        } else if f5 == 0x03 {
            self.exec_sc(inst, addr, size)
        } else {
            self.exec_rmw(inst, addr, size, width)
        }
    }

    /// Executes one instruction that was fetched from `here`; `next` is the
    /// address after it.
    #[verifier::opaque]
    pub open spec fn execute(self, inst: u32, here: u64, next: u64) -> Outcome {
        let opcode = decode::field(inst, 6, 0);
        let s = self.jump(next);
        let a = s.x(rs1(inst));
        let b = s.x(rs2(inst));
        if opcode == 0x37 {
            // LUI
            (s.set_x(rd(inst), s.xlen.wrap(decode::spec_imm_u(inst))), Ok(()))
        } else if opcode == 0x17 {
            // AUIPC
            (s.set_x(rd(inst), s.xlen.wrap(here + decode::spec_imm_u(inst))), Ok(()))
        } else if opcode == 0x6f {
            // JAL
            (
                s.set_x(rd(inst), next).jump(s.xlen.wrap(here + decode::spec_imm_j(inst))),
                Ok(()),
            )
        } else if opcode == 0x67 && funct3(inst) == 0 {
            // JALR
            let target = s.xlen.wrap(a + decode::spec_imm_i(inst));
            (s.set_x(rd(inst), next).jump((target - target % 2) as u64), Ok(()))
        } else if opcode == 0x63 {
            s.exec_branch(inst, here)
        } else if opcode == 0x03 {
            s.exec_load(inst)
        } else if opcode == 0x23 {
            s.exec_store(inst)
        } else if opcode == 0x13 {
            s.finish(inst, spec_op_imm(s.xlen, inst, a))
        } else if opcode == 0x33 {
            s.finish(inst, spec_op(s.xlen, inst, a, b))
        } else if opcode == 0x1b && s.xlen == Xlen::Rv64 && has_word_imm(funct3(inst)) {
            s.finish_word(inst, spec_op_imm(Xlen::Rv32, inst, a))
        } else if opcode == 0x3b && s.xlen == Xlen::Rv64 && has_word_op(
            funct3(inst),
            funct7(inst),
        ) {
            s.finish_word(inst, spec_op(Xlen::Rv32, inst, a, b))
        } else if opcode == 0x2f {
            s.exec_amo(inst)
        } else if opcode == 0x0f {
            // FENCE
            (s, Ok(()))
        } else if opcode == 0x73 {
            s.exec_system(inst)
        } else if is_float(opcode) {
            s.exec_float(inst)
        } else {
            s.illegal(inst)
        }
    }
}

impl Cpu {
    fn finish(&mut self, inst: u32, value: Option<u64>) -> (r: Result<(), Exception>)
        ensures
            (final(self)@, r) == old(self)@.finish(inst, value),
    {
        match value {
            Some(v) => {
                self.wr(decode::rd(inst), v);
                Ok(())
            },
            None => Err(Exception::IllegalInstruction(inst)),
        }
    }

    fn finish_word(&mut self, inst: u32, value: Option<u64>) -> (r: Result<(), Exception>)
        requires
            value matches Some(v) ==> v < 0x1_0000_0000,
        ensures
            (final(self)@, r) == old(self)@.finish_word(inst, value),
    {
        proof {
            lemma2_to64();
        }
        match value {
            Some(v) => {
                self.wr(decode::rd(inst), self.xlen.extend(v, 32));
                Ok(())
            },
            None => Err(Exception::IllegalInstruction(inst)),
        }
    }

    fn exec_branch(&mut self, inst: u32, here: u64) -> (r: Result<(), Exception>)
        ensures
            (final(self)@, r) == old(self)@.exec_branch(inst, here),
    {
        let (a, b) = (self.rr(decode::rs1(inst)), self.rr(decode::rs2(inst)));
        match alu::branch(self.xlen, decode::funct3(inst), a, b) {
            Some(taken) => {
                if taken {
                    self.pc = self.xlen.offset(here, decode::imm_b(inst));
                }
                Ok(())
            },
            None => Err(Exception::IllegalInstruction(inst)),
        }
    }

    fn exec_load(&mut self, inst: u32) -> (r: Result<(), Exception>)
        ensures
            (final(self)@, r) == old(self)@.exec_load(inst),
    {
        let (size, signed) = match load_shape(decode::funct3(inst), self.xlen) {
            Some(shape) => shape,
            None => {
                return Err(Exception::IllegalInstruction(inst));
            },
        };
        let va = self.xlen.offset(self.rr(decode::rs1(inst)), decode::imm_i(inst));
        match self.load(va, size) {
            Ok(v) => {
                let v = if signed {
                    self.xlen.extend(v, 8 * size as u32)
                } else {
                    v
                };
                self.wr(decode::rd(inst), v);
                Ok(())
            },
            Err(e) => Err(e),
        }
    }

    fn exec_store(&mut self, inst: u32) -> (r: Result<(), Exception>)
        ensures
            (final(self)@, r) == old(self)@.exec_store(inst),
    {
        let size = match store_size(decode::funct3(inst), self.xlen) {
            Some(size) => size,
            None => {
                return Err(Exception::IllegalInstruction(inst));
            },
        };
        let va = self.xlen.offset(self.rr(decode::rs1(inst)), decode::imm_s(inst));
        let value = self.rr(decode::rs2(inst));
        self.store(va, size, value)
    }

    fn exec_lr(&mut self, inst: u32, addr: u64, size: u64) -> (r: Result<(), Exception>)
        requires
            size == 4 || (size == 8 && old(self).xlen == Xlen::Rv64),
        ensures
            (final(self)@, r) == old(self)@.exec_lr(inst, addr, size),
    {
        match self.load(addr, size) {
            Ok(v) => {
                self.reservation = Some(addr);
                let v = self.xlen.extend(v, 8 * size as u32);
                self.wr(decode::rd(inst), v);
                Ok(())
            },
            Err(e) => Err(e),
        }
    }

    fn exec_sc(&mut self, inst: u32, addr: u64, size: u64) -> (r: Result<(), Exception>)
        requires
            size <= 8,
        ensures
            (final(self)@, r) == old(self)@.exec_sc(inst, addr, size),
    {
        let value = self.rr(decode::rs2(inst));
        let held = self.reservation == Some(addr);
        self.reservation = None;
        if !held {
            self.wr(decode::rd(inst), 1);
            return Ok(());
        }
        match self.store(addr, size, value) {
            Ok(()) => {
                self.wr(decode::rd(inst), 0);
                Ok(())
            },
            Err(e) => Err(e),
        }
    }

    fn exec_rmw(&mut self, inst: u32, addr: u64, size: u64, width: Xlen) -> (r: Result<
        (),
        Exception,
    >)
        requires
            size == 4 || (size == 8 && old(self).xlen == Xlen::Rv64),
            alu::spec_amo(width, funct5(inst), 0, 0) is Some,
        ensures
            (final(self)@, r) == old(self)@.exec_rmw(inst, addr, size, width),
    {
        let operand = self.rr(decode::rs2(inst));
        let pa = match self.translate(addr, Access::Store) {
            Ok(pa) => pa,
            Err(e) => {
                return Err(e);
            },
        };
        let old_value = match self.read_at(pa, size, addr, Access::Store) {
            Ok(v) => v,
            Err(e) => {
                return Err(e);
            },
        };
        let new_value = match alu::amo(width, decode::bits(inst, 31, 27), old_value, operand) {
            Some(v) => v,
            None => {
                return Err(Exception::IllegalInstruction(inst));
            },
        };
        match self.write_at(pa, size, new_value, addr) {
            Ok(()) => {
                let v = self.xlen.extend(old_value, 8 * size as u32);
                self.wr(decode::rd(inst), v);
                Ok(())
            },
            Err(e) => Err(e),
        }
    }

    fn exec_amo(&mut self, inst: u32) -> (r: Result<(), Exception>)
        ensures
            (final(self)@, r) == old(self)@.exec_amo(inst),
    {
        let f3 = decode::funct3(inst);
        let f5 = decode::bits(inst, 31, 27);
        let addr = self.rr(decode::rs1(inst));
        if f3 != 2 && !(f3 == 3 && self.xlen == Xlen::Rv64) {
            return Err(Exception::IllegalInstruction(inst));
        }
        let (size, width): (u64, Xlen) = if f3 == 2 {
            (4, Xlen::Rv32)
        } else {
            (8, Xlen::Rv64)
        };
        if f5 != 0x02 && f5 != 0x03 && alu::amo(width, f5, 0, 0).is_none() {
            return Err(Exception::IllegalInstruction(inst));
        }
        if addr % size != 0 {
            return Err(
                if f5 == 0x02 {
                    Exception::LoadAddressMisaligned(addr)
                } else {
                    Exception::StoreAddressMisaligned(addr)
                },
            );
        }
        match f5 {
            0x02 => self.exec_lr(inst, addr, size),
            0x03 => self.exec_sc(inst, addr, size),
            _ => self.exec_rmw(inst, addr, size, width),
        }
    }

    /// Executes one instruction that was fetched from `here`; `next` is the
    /// address after it.
    pub(crate) fn execute(&mut self, inst: u32, here: u64, next: u64) -> (r: Result<(), Exception>)
        ensures
            (final(self)@, r) == old(self)@.execute(inst, here, next),
    {
        reveal(CpuState::execute);
        let rd = decode::rd(inst);
        let (f3, f7) = (decode::funct3(inst), decode::funct7(inst));
        self.pc = next;
        let a = self.rr(decode::rs1(inst));
        let b = self.rr(decode::rs2(inst));
        match decode::opcode(inst) {
            // LUI
            0x37 => {
                let v = self.xlen.immediate(decode::imm_u(inst));
                self.wr(rd, v);
                Ok(())
            },
            // AUIPC -- relative to the instruction's own address, not the next.
            0x17 => {
                let v = self.xlen.offset(here, decode::imm_u(inst));
                self.wr(rd, v);
                Ok(())
            },
            // JAL
            0x6f => {
                self.wr(rd, next);
                self.pc = self.xlen.offset(here, decode::imm_j(inst));
                Ok(())
            },
            // JALR -- the low bit of the target is cleared by the spec.
            0x67 if f3 == 0 => {
                let target = self.xlen.offset(a, decode::imm_i(inst));
                self.wr(rd, next);
                self.pc = target - target % 2;
                Ok(())
            },
            // BRANCH
            0x63 => self.exec_branch(inst, here),
            // LOAD
            0x03 => self.exec_load(inst),
            // STORE
            0x23 => self.exec_store(inst),
            // OP-IMM
            0x13 => {
                let v = op_imm(self.xlen, inst, a);
                self.finish(inst, v)
            },
            // OP
            0x33 => {
                let v = op(self.xlen, inst, a, b);
                self.finish(inst, v)
            },
            // OP-IMM-32
            0x1b if self.xlen == Xlen::Rv64 && (f3 == 0 || f3 == 1 || f3 == 5) => {
                self.finish_word(inst, op_imm(Xlen::Rv32, inst, a))
            },
            // OP-32
            0x3b if self.xlen == Xlen::Rv64 && (f3 == 0 || f3 == 5 || (f3 == 1 && f7 != 0x01) || (f3
                >= 4 && f7 == 0x01)) => self.finish_word(inst, op(Xlen::Rv32, inst, a, b)),
            // AMO
            0x2f => self.exec_amo(inst),
            // MISC-MEM: FENCE is a no-op on a single in-order hart.
            0x0f => Ok(()),
            // SYSTEM
            0x73 => self.exec_system(inst),
            // LOAD-FP, STORE-FP, the multiply-adds and OP-FP
            0x07 | 0x27 | 0x43 | 0x47 | 0x4b | 0x4f | 0x53 => self.exec_float(inst),
            _ => Err(Exception::IllegalInstruction(inst)),
        }
    }
}

} // verus!
