//! The SYSTEM instructions: CSR access, returns from traps, and the calls
//! that cause them.

use crate::cpu::execute;
use crate::cpu::{Cpu, CpuState, Outcome};
use crate::csr::{self, mstatus};
use crate::decode;
use crate::trap::{Exception, Priv};
use vstd::prelude::*;

verus! {

/// The bit of `mcounteren` and `scounteren` that gates a counter, if this is
/// one: the low halves and the high halves are numbered alike.
pub open spec fn spec_counter_bit(addr: u16) -> Option<u64> {
    if addr == csr::CYCLE || addr == csr::CYCLEH {
        Some(1)
    } else if addr == csr::TIME || addr == csr::TIMEH {
        Some(2)
    } else if addr == csr::INSTRET || addr == csr::INSTRETH {
        Some(4)
    } else {
        None
    }
}

fn counter_bit(addr: u16) -> (r: Option<u64>)
    ensures
        r == spec_counter_bit(addr),
{
    if addr == csr::CYCLE || addr == csr::CYCLEH {
        Some(1)
    } else if addr == csr::TIME || addr == csr::TIMEH {
        Some(2)
    } else if addr == csr::INSTRET || addr == csr::INSTRETH {
        Some(4)
    } else {
        None
    }
}

/// The privilege a CSR address demands, in bits 9:8.
pub open spec fn csr_level(addr: u16) -> u16 {
    (addr / 0x100) % 4
}

/// The registers whose top two address bits are set are read-only.
pub open spec fn csr_read_only(addr: u16) -> bool {
    addr / 0x400 == 3
}

pub open spec fn is_float_csr(addr: u16) -> bool {
    csr::FFLAGS <= addr <= csr::FCSR
}

impl CpuState {
    pub open spec fn status(self) -> u64 {
        self.csrs.at(csr::MSTATUS)
    }

    /// Whether the floating-point unit is switched on.
    pub open spec fn float_enabled(self) -> bool {
        self.status() & mstatus::FS != 0
    }

    /// Whether this mode may read a counter: `mcounteren` decides for
    /// supervisor mode, and both for user mode.
    pub open spec fn counter_allowed(self, addr: u16) -> bool {
        match spec_counter_bit(addr) {
            None => true,
            Some(bit) => {
                &&& self.priv_mode == Priv::Machine || self.csrs.at(csr::MCOUNTEREN) & bit != 0
                &&& self.priv_mode != Priv::User || self.csrs.at(csr::SCOUNTEREN) & bit != 0
            },
        }
    }

    /// Whether this mode may access a CSR in this way.
    pub open spec fn csr_allowed(self, addr: u16, write: bool) -> bool {
        &&& csr::spec_exists(addr, self.xlen)
        &&& self.priv_mode.spec_bits() >= csr_level(addr)
        &&& !(write && csr_read_only(addr))
        &&& self.counter_allowed(addr)
        &&& is_float_csr(addr) ==> self.float_enabled()
        &&& !(addr == csr::SATP && self.priv_mode == Priv::Supervisor && self.status()
            & mstatus::TVM != 0)
    }

    /// A CSR written by software. The FP registers are part of the FP state,
    /// so writing one makes it dirty; writing the retired-instruction counter
    /// suppresses this instruction's own increment.
    pub open spec fn write_csr(self, addr: u16, value: u64) -> CpuState {
        let csrs = self.csrs.write(addr, value);
        CpuState {
            csrs: if is_float_csr(addr) {
                csrs.set_bits(csr::MSTATUS, mstatus::FS)
            } else {
                csrs
            },
            wrote_instret: self.wrote_instret || addr == csr::MINSTRET || addr == csr::MINSTRETH,
            ..self
        }
    }

    /// Zicsr. The old value is what the destination gets, and a set or clear
    /// of x0 does not write at all.
    pub open spec fn exec_csr(self, inst: u32) -> Outcome {
        let f3 = execute::funct3(inst);
        let addr = decode::field(inst, 31, 20) as u16;
        let source = execute::rs1(inst);
        let write = f3 % 4 == 1 || source != 0;
        if f3 % 4 == 0 || !self.csr_allowed(addr, write) {
            self.illegal(inst)
        } else {
            let old_value = self.xlen.wrap(self.csrs.read(addr) as int);
            let operand = if f3 >= 4 {
                source as u64
            } else {
                self.x(source)
            };
            let new_value = if f3 % 4 == 1 {
                operand
            } else if f3 % 4 == 2 {
                old_value | operand
            } else {
                old_value & !operand
            };
            let written = if write {
                self.write_csr(addr, new_value)
            } else {
                self
            };
            (written.set_x(execute::rd(inst), old_value), Ok(()))
        }
    }

    /// What `mstatus` holds after a return from machine mode.
    pub open spec fn status_after_mret(status: u64, to: Priv) -> u64 {
        let popped = (status & !(mstatus::MIE | mstatus::MPP)) | mstatus::MPIE;
        let enabled = if status & mstatus::MPIE != 0 {
            popped | mstatus::MIE
        } else {
            popped
        };
        if to != Priv::Machine {
            enabled & !mstatus::MPRV
        } else {
            enabled
        }
    }

    /// Returns from the machine-mode handler: the mode and the interrupt
    /// enable that the trap saved come back, and MPP drops to the least
    /// privileged mode, so that returning twice cannot land in machine mode.
    pub open spec fn mret(self) -> CpuState {
        let to = Priv::spec_from_bits((self.status() & mstatus::MPP) >> mstatus::MPP_SHIFT);
        CpuState {
            csrs: self.csrs.set(csr::MSTATUS, Self::status_after_mret(self.status(), to)),
            priv_mode: to,
            pc: self.xlen.wrap(self.csrs.at(csr::MEPC) as int),
            ..self
        }
    }

    /// What `mstatus` holds after a return from supervisor mode.
    pub open spec fn status_after_sret(status: u64) -> u64 {
        let popped = (status & !(mstatus::SIE | mstatus::SPP | mstatus::MPRV)) | mstatus::SPIE;
        if status & mstatus::SPIE != 0 {
            popped | mstatus::SIE
        } else {
            popped
        }
    }

    /// Returns from the supervisor-mode handler.
    pub open spec fn sret(self) -> CpuState {
        CpuState {
            csrs: self.csrs.set(csr::MSTATUS, Self::status_after_sret(self.status())),
            priv_mode: if self.status() & mstatus::SPP != 0 {
                Priv::Supervisor
            } else {
                Priv::User
            },
            pc: self.xlen.wrap(self.csrs.at(csr::SEPC) as int),
            ..self
        }
    }

    /// An ECALL. From supervisor mode with the firmware in place it is a
    /// call, which returns; otherwise it is a trap.
    pub open spec fn exec_ecall(self) -> Outcome {
        if self.sbi && self.priv_mode == Priv::Supervisor {
            let (after, running) = self.sbi_call();
            (CpuState { shutdown: after.shutdown || !running, ..after }, Ok(()))
        } else {
            (self, Err(Exception::EnvironmentCall))
        }
    }

    /// The instructions that are all opcode: calls, returns, WFI and
    /// SFENCE.VMA.
    pub open spec fn exec_privileged(self, inst: u32) -> Outcome {
        let which = decode::field(inst, 31, 20);
        if which == 0x000 {
            self.exec_ecall()
        } else if which == 0x001 {
            (self, Err(Exception::Breakpoint))
        } else if which == 0x302 && self.priv_mode == Priv::Machine {
            (self.mret(), Ok(()))
        } else if which == 0x102 && self.priv_mode != Priv::User && !(self.priv_mode
            == Priv::Supervisor && self.status() & mstatus::TSR != 0) {
            (self.sret(), Ok(()))
        } else if which == 0x105 && (self.priv_mode == Priv::Machine || self.status() & mstatus::TW
            == 0) {
            (self, Ok(()))
        } else if execute::funct7(inst) == 0x09 && self.priv_mode != Priv::User && !(self.priv_mode
            == Priv::Supervisor && self.status() & mstatus::TVM != 0) {
            (self, Ok(()))
        } else {
            self.illegal(inst)
        }
    }

    pub open spec fn exec_system(self, inst: u32) -> Outcome {
        if execute::funct3(inst) == 0 {
            self.exec_privileged(inst)
        } else {
            self.exec_csr(inst)
        }
    }
}

impl Cpu {
    fn csr_allowed(&self, addr: u16, write: bool) -> (r: bool)
        requires
            addr < 4096,
        ensures
            r == self@.csr_allowed(addr, write),
    {
        let status = self.csrs.stored(csr::MSTATUS);
        if !csr::exists_at(addr, self.xlen) {
            return false;
        }
        if self.priv_mode.bits() < ((addr / 0x100) % 4) as u64 {
            return false;
        }
        if write && addr / 0x400 == 3 {
            return false;
        }
        match counter_bit(addr) {
            Some(bit) => {
                if self.priv_mode != Priv::Machine && self.csrs.stored(csr::MCOUNTEREN) & bit == 0 {
                    return false;
                }
                if self.priv_mode == Priv::User && self.csrs.stored(csr::SCOUNTEREN) & bit == 0 {
                    return false;
                }
            },
            None => {},
        }
        if addr >= csr::FFLAGS && addr <= csr::FCSR && status & mstatus::FS == 0 {
            return false;
        }
        // Reading the page table root is as good as walking it, so TVM covers
        // reads of satp as well as writes.
        !(addr == csr::SATP && self.priv_mode == Priv::Supervisor && status & mstatus::TVM != 0)
    }

    fn write_csr(&mut self, addr: u16, value: u64)
        requires
            addr < 4096,
        ensures
            final(self)@ == old(self)@.write_csr(addr, value),
    {
        self.csrs.write(addr, value);
        if addr >= csr::FFLAGS && addr <= csr::FCSR {
            self.csrs.set_bits(csr::MSTATUS, mstatus::FS);
        }
        if addr == csr::MINSTRET || addr == csr::MINSTRETH {
            self.wrote_instret = true;
        }
    }

    fn exec_csr(&mut self, inst: u32) -> (r: Result<(), Exception>)
        ensures
            (final(self)@, r) == old(self)@.exec_csr(inst),
    {
        let f3 = decode::funct3(inst);
        let addr = decode::csr(inst);
        let source = decode::rs1(inst);
        let write = f3 % 4 == 1 || source != 0;
        if f3 % 4 == 0 || !self.csr_allowed(addr, write) {
            return Err(Exception::IllegalInstruction(inst));
        }
        // The read must happen before the write so that `csrrw rd, csr, rd`
        // still returns the old value.
        let old_value = self.xlen.trunc(self.csrs.read(addr));
        let operand = if f3 >= 4 {
            source as u64
        } else {
            self.rr(source)
        };
        if write {
            let new_value = match f3 % 4 {
                // CSRRW
                1 => operand,
                // CSRRS
                2 => old_value | operand,
                // CSRRC
                _ => old_value & !operand,
            };
            self.write_csr(addr, new_value);
        }
        self.wr(decode::rd(inst), old_value);
        Ok(())
    }

    fn mret(&mut self)
        ensures
            final(self)@ == old(self)@.mret(),
    {
        let status = self.csrs.stored(csr::MSTATUS);
        let to = Priv::from_bits((status & mstatus::MPP) >> mstatus::MPP_SHIFT);
        let mut popped = (status & !(mstatus::MIE | mstatus::MPP)) | mstatus::MPIE;
        if status & mstatus::MPIE != 0 {
            popped = popped | mstatus::MIE;
        }
        if to != Priv::Machine {
            popped = popped & !mstatus::MPRV;
        }
        self.pc = self.xlen.trunc(self.csrs.stored(csr::MEPC));
        self.csrs.force(csr::MSTATUS, popped);
        self.priv_mode = to;
    }

    fn sret(&mut self)
        ensures
            final(self)@ == old(self)@.sret(),
    {
        let status = self.csrs.stored(csr::MSTATUS);
        let mut popped = (status & !(mstatus::SIE | mstatus::SPP | mstatus::MPRV)) | mstatus::SPIE;
        if status & mstatus::SPIE != 0 {
            popped = popped | mstatus::SIE;
        }
        self.pc = self.xlen.trunc(self.csrs.stored(csr::SEPC));
        self.csrs.force(csr::MSTATUS, popped);
        self.priv_mode = if status & mstatus::SPP != 0 {
            Priv::Supervisor
        } else {
            Priv::User
        };
    }

    fn exec_ecall(&mut self) -> (r: Result<(), Exception>)
        ensures
            (final(self)@, r) == old(self)@.exec_ecall(),
    {
        if self.sbi && self.priv_mode == Priv::Supervisor {
            if !self.handle_sbi() {
                self.shutdown = true;
            }
            Ok(())
        } else {
            Err(Exception::EnvironmentCall)
        }
    }

    fn exec_privileged(&mut self, inst: u32) -> (r: Result<(), Exception>)
        ensures
            (final(self)@, r) == old(self)@.exec_privileged(inst),
    {
        let which = decode::bits(inst, 31, 20);
        let status = self.csrs.stored(csr::MSTATUS);
        let mode = self.priv_mode;
        if which == 0x000 {
            self.exec_ecall()
        } else if which == 0x001 {
            Err(Exception::Breakpoint)
        } else if which == 0x302 && mode == Priv::Machine {
            self.mret();
            Ok(())
        } else if which == 0x102 && mode != Priv::User && !(mode == Priv::Supervisor && status
            & mstatus::TSR != 0) {
            self.sret();
            Ok(())
        } else if which == 0x105 && (mode == Priv::Machine || status & mstatus::TW == 0) {
            // WFI may return at once, and here it does.
            Ok(())
        } else if decode::funct7(inst) == 0x09 && mode != Priv::User && !(mode == Priv::Supervisor
            && status & mstatus::TVM != 0) {
            // SFENCE.VMA: nothing is cached, so there is nothing to fence.
            Ok(())
        } else {
            Err(Exception::IllegalInstruction(inst))
        }
    }

    pub(crate) fn exec_system(&mut self, inst: u32) -> (r: Result<(), Exception>)
        ensures
            (final(self)@, r) == old(self)@.exec_system(inst),
    {
        if decode::funct3(inst) == 0 {
            self.exec_privileged(inst)
        } else {
            self.exec_csr(inst)
        }
    }
}

} // verus!
