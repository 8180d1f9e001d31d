//! One step of the hart: the platform's clock, interrupts, and one
//! instruction, with the trap taken where it raises one.

use crate::cpu::{Cpu, CpuState, Outcome, Xlen};
use crate::csr::{self, irq, mstatus};
use crate::memory::MemState;
use crate::plic;
use crate::trap::{Exception, Priv};
use crate::uart;
use vstd::prelude::*;

verus! {

/// The most urgent of some pending interrupts: external, software, timer, and
/// machine level before supervisor level.
pub open spec fn spec_most_urgent(pending: u64) -> Option<u64> {
    if pending & irq::MEIP != 0 {
        Some(11)
    } else if pending & irq::MSIP != 0 {
        Some(3)
    } else if pending & irq::MTIP != 0 {
        Some(7)
    } else if pending & irq::SEIP != 0 {
        Some(9)
    } else if pending & irq::SSIP != 0 {
        Some(1)
    } else if pending & irq::STIP != 0 {
        Some(5)
    } else {
        None
    }
}

fn most_urgent(pending: u64) -> (r: Option<u64>)
    ensures
        r == spec_most_urgent(pending),
        r matches Some(cause) ==> cause < 16,
{
    if pending & irq::MEIP != 0 {
        Some(11)
    } else if pending & irq::MSIP != 0 {
        Some(3)
    } else if pending & irq::MTIP != 0 {
        Some(7)
    } else if pending & irq::SEIP != 0 {
        Some(9)
    } else if pending & irq::SSIP != 0 {
        Some(1)
    } else if pending & irq::STIP != 0 {
        Some(5)
    } else {
        None
    }
}

/// A mode where `mstatus.MPP` keeps it.
pub open spec fn spec_mpp(mode: Priv) -> u64 {
    match mode {
        Priv::User => 0,
        Priv::Supervisor => 0x800,
        Priv::Machine => 0x1800,
    }
}

fn mpp(mode: Priv) -> (r: u64)
    ensures
        r == spec_mpp(mode),
{
    match mode {
        Priv::User => 0,
        Priv::Supervisor => 0x800,
        Priv::Machine => 0x1800,
    }
}

/// `mstatus` on entry to the machine-mode handler: the interrupt enable and
/// the mode are saved, and interrupts are off.
pub open spec fn machine_entry(status: u64, from: Priv) -> u64 {
    let cleared = status & !(mstatus::MIE | mstatus::MPIE | mstatus::MPP);
    let saved = if status & mstatus::MIE != 0 {
        cleared | mstatus::MPIE
    } else {
        cleared
    };
    saved | spec_mpp(from)
}

/// `mstatus` on entry to the supervisor-mode handler.
pub open spec fn supervisor_entry(status: u64, from: Priv) -> u64 {
    let cleared = status & !(mstatus::SIE | mstatus::SPIE | mstatus::SPP);
    let saved = if status & mstatus::SIE != 0 {
        cleared | mstatus::SPIE
    } else {
        cleared
    };
    if from == Priv::Supervisor {
        saved | mstatus::SPP
    } else {
        saved
    }
}

impl CpuState {
    /// One tick: the clock moves, the cycle and time counters read the steps
    /// taken, machine mode's own cycle counter counts on from wherever it was
    /// set, each device drives its interrupt line, and `mip` follows. A timer scheduled through the firmware raises the
    /// supervisor's interrupt on the machine timer's behalf.
    pub open spec fn tick(self) -> CpuState {
        let clint = self.mem.clint.spec_tick();
        let wires = self.mem.plic.set_level(uart::UART_IRQ, self.mem.uart.is_interrupting());
        let due = clint.mtime >= clint.mtimecmp;
        let driven = self.csrs.drive_bits(csr::MIP, irq::MSIP, clint.msip % 2 == 1).drive_bits(
            csr::MIP,
            irq::MTIP,
            due,
        ).drive_bits(csr::MIP, irq::MEIP, wires.is_pending(0)).drive_bits(
            csr::MIP,
            irq::SEIP,
            wires.is_pending(1),
        );
        let raised = if self.timer_armed && due {
            driven.set_bits(csr::MIP, irq::STIP)
        } else {
            driven
        };
        let cycle = self.cycle.wrapping_add(1);
        CpuState {
            cycle,
            mem: MemState { clint, plic: wires, ..self.mem },
            csrs: raised.set(csr::MCYCLE, raised.at(csr::MCYCLE).wrapping_add(1)).set(
                csr::CYCLE,
                cycle,
            ).set(csr::TIME, cycle),
            wrote_instret: false,
            ..self
        }
    }

    /// Whether interrupts for machine mode are being taken.
    pub open spec fn machine_enabled(self) -> bool {
        self.priv_mode != Priv::Machine || self.status() & mstatus::MIE != 0
    }

    /// Whether interrupts delegated to supervisor mode are being taken. They
    /// never interrupt machine mode.
    pub open spec fn supervisor_enabled(self) -> bool {
        self.priv_mode == Priv::User || (self.priv_mode == Priv::Supervisor && self.status()
            & mstatus::SIE != 0)
    }

    /// The interrupt to take now, if any; those for machine mode come first.
    pub open spec fn interrupt(self) -> Option<u64> {
        let pending = self.csrs.at(csr::MIP) & self.csrs.at(csr::MIE);
        let delegated = self.csrs.at(csr::MIDELEG);
        let machine = if self.machine_enabled() {
            spec_most_urgent(pending & !delegated)
        } else {
            None
        };
        if machine is Some {
            machine
        } else if self.supervisor_enabled() {
            spec_most_urgent(pending & delegated)
        } else {
            None
        }
    }

    /// The cause register's encoding: an interrupt has the top bit set.
    pub open spec fn cause_code(self, cause: u64, interrupt: bool) -> u64 {
        if interrupt {
            (self.xlen.modulus() / 2 + cause) as u64
        } else {
            cause
        }
    }

    /// Where a trap vector leads. In vectored mode interrupts fan out by
    /// cause; exceptions always land on the base address.
    pub open spec fn vector(self, tvec: u64, cause: u64, interrupt: bool) -> u64 {
        let base = tvec & !3;
        if interrupt && tvec & 3 == 1 {
            self.xlen.wrap(base + 4 * cause)
        } else {
            self.xlen.wrap(base as int)
        }
    }

    /// Whether a trap goes to supervisor mode. Delegation only applies to
    /// traps taken from supervisor or user mode.
    pub open spec fn delegated(self, cause: u64, interrupt: bool) -> bool {
        let deleg = if interrupt {
            self.csrs.at(csr::MIDELEG)
        } else {
            self.csrs.at(csr::MEDELEG)
        };
        self.priv_mode != Priv::Machine && (deleg >> cause) & 1 == 1
    }

    /// Enters the supervisor-mode handler.
    pub open spec fn enter_supervisor(
        self,
        cause: u64,
        interrupt: bool,
        tval: u64,
        epc: u64,
    ) -> CpuState {
        CpuState {
            csrs: self.csrs.write(csr::SEPC, epc).write(
                csr::SCAUSE,
                self.cause_code(cause, interrupt),
            ).write(csr::STVAL, self.xlen.wrap(tval as int)).set(
                csr::MSTATUS,
                supervisor_entry(self.status(), self.priv_mode),
            ),
            priv_mode: Priv::Supervisor,
            pc: self.vector(self.csrs.at(csr::STVEC), cause, interrupt),
            ..self
        }
    }

    /// Enters the machine-mode handler.
    pub open spec fn enter_machine(
        self,
        cause: u64,
        interrupt: bool,
        tval: u64,
        epc: u64,
    ) -> CpuState {
        CpuState {
            csrs: self.csrs.write(csr::MEPC, epc).write(
                csr::MCAUSE,
                self.cause_code(cause, interrupt),
            ).write(csr::MTVAL, self.xlen.wrap(tval as int)).set(
                csr::MSTATUS,
                machine_entry(self.status(), self.priv_mode),
            ),
            priv_mode: Priv::Machine,
            pc: self.vector(self.csrs.at(csr::MTVEC), cause, interrupt),
            ..self
        }
    }

    /// Enters a handler: saves where the trap came from and why, and jumps.
    pub open spec fn trap(self, cause: u64, interrupt: bool, tval: u64, epc: u64) -> CpuState {
        if self.delegated(cause, interrupt) {
            self.enter_supervisor(cause, interrupt, tval, epc)
        } else {
            self.enter_machine(cause, interrupt, tval, epc)
        }
    }

    /// Takes an exception raised by the instruction at `here`.
    pub open spec fn take_exception(self, e: Exception, here: u64) -> CpuState {
        self.trap(e.spec_cause_in(self.priv_mode), false, e.spec_tval(), here)
    }

    /// Counts an instruction as retired, unless it wrote the counter itself:
    /// the value written is what the next instruction reads.
    pub open spec fn retire(self) -> CpuState {
        if self.wrote_instret {
            self
        } else {
            CpuState {
                csrs: self.csrs.set(
                    csr::INSTRET,
                    self.csrs.at(csr::INSTRET).wrapping_add(1),
                ),
                ..self
            }
        }
    }

    /// Fetches, executes and retires one instruction, or takes its trap.
    pub open spec fn run_instruction(self) -> Outcome {
        let here = self.pc;
        let (fetched, word) = self.fetch();
        match word {
            Err(e) => (fetched.take_exception(e, here), Err(e)),
            Ok((inst, len)) => {
                let (done, result) = fetched.execute(inst, here, self.xlen.wrap(here + len));
                match result {
                    Ok(_) => (done.retire(), Ok(())),
                    Err(e) => (done.take_exception(e, here), Err(e)),
                }
            },
        }
    }

    /// One step: a tick, then an interrupt if one is due, and otherwise an
    /// instruction.
    #[verifier::opaque]
    pub open spec fn step(self) -> Outcome {
        let ticked = self.tick();
        match ticked.interrupt() {
            Some(cause) => (ticked.trap(cause, true, 0, ticked.pc), Ok(())),
            None => ticked.run_instruction(),
        }
    }
}

impl Cpu {
    /// Advances the clock and lets every device drive its interrupt line.
    fn tick(&mut self)
        ensures
            final(self)@ == old(self)@.tick(),
    {
        self.cycle = self.cycle.wrapping_add(1);
        self.wrote_instret = false;
        self.mem.clint.tick();
        let ringing = self.mem.uart.is_interrupting();
        self.mem.plic.set_level(uart::UART_IRQ, ringing);
        let software = self.mem.clint.msip % 2 == 1;
        let due = self.mem.clint.mtime >= self.mem.clint.mtimecmp;
        let machine = self.mem.plic.is_pending(plic::CONTEXT_MACHINE);
        let supervisor = self.mem.plic.is_pending(plic::CONTEXT_SUPERVISOR);
        self.csrs.drive_bits(csr::MIP, irq::MSIP, software);
        self.csrs.drive_bits(csr::MIP, irq::MTIP, due);
        self.csrs.drive_bits(csr::MIP, irq::MEIP, machine);
        self.csrs.drive_bits(csr::MIP, irq::SEIP, supervisor);
        if self.timer_armed && due {
            self.csrs.set_bits(csr::MIP, irq::STIP);
        }
        let count = self.csrs.stored(csr::MCYCLE);
        self.csrs.force(csr::MCYCLE, count.wrapping_add(1));
        self.csrs.force(csr::CYCLE, self.cycle);
        self.csrs.force(csr::TIME, self.cycle);
    }

    /// The interrupt to take now, if any.
    fn interrupt(&self) -> (r: Option<u64>)
        ensures
            r == self@.interrupt(),
            r matches Some(cause) ==> cause < 16,
    {
        let pending = self.csrs.stored(csr::MIP) & self.csrs.stored(csr::MIE);
        let delegated = self.csrs.stored(csr::MIDELEG);
        let status = self.csrs.stored(csr::MSTATUS);
        if self.priv_mode != Priv::Machine || status & mstatus::MIE != 0 {
            let machine = most_urgent(pending & !delegated);
            if machine.is_some() {
                return machine;
            }
        }
        if self.priv_mode == Priv::User || (self.priv_mode == Priv::Supervisor && status
            & mstatus::SIE != 0) {
            most_urgent(pending & delegated)
        } else {
            None
        }
    }

    fn cause_code(&self, cause: u64, interrupt: bool) -> (r: u64)
        requires
            cause < 16,
        ensures
            r == self@.cause_code(cause, interrupt),
    {
        if interrupt {
            match self.xlen {
                Xlen::Rv32 => 0x8000_0000 + cause,
                Xlen::Rv64 => 0x8000_0000_0000_0000 + cause,
            }
        } else {
            cause
        }
    }

    fn vector(&self, tvec: u64, cause: u64, interrupt: bool) -> (r: u64)
        requires
            cause < 16,
        ensures
            r == self@.vector(tvec, cause, interrupt),
    {
        let base = tvec & !3;
        if interrupt && tvec & 3 == 1 {
            self.xlen.sum(base, 4 * cause)
        } else {
            self.xlen.trunc(base)
        }
    }

    /// Enters a handler: saves where the trap came from and why, then jumps
    /// to the vector of the mode that takes it.
    ///
    /// `epc` is the address of the instruction that raised the exception, or
    /// that the interrupt came before -- not wherever execution left `pc`.
    fn trap(&mut self, cause: u64, interrupt: bool, tval: u64, epc: u64)
        requires
            cause < 16,
        ensures
            final(self)@ == old(self)@.trap(cause, interrupt, tval, epc),
    {
        let from = self.priv_mode;
        let status = self.csrs.stored(csr::MSTATUS);
        let code = self.cause_code(cause, interrupt);
        let value = self.xlen.trunc(tval);
        let deleg = if interrupt {
            self.csrs.stored(csr::MIDELEG)
        } else {
            self.csrs.stored(csr::MEDELEG)
        };
        if from != Priv::Machine && (deleg >> cause) & 1 == 1 {
            let tvec = self.csrs.stored(csr::STVEC);
            let mut saved = status & !(mstatus::SIE | mstatus::SPIE | mstatus::SPP);
            if status & mstatus::SIE != 0 {
                saved = saved | mstatus::SPIE;
            }
            if from == Priv::Supervisor {
                saved = saved | mstatus::SPP;
            }
            self.csrs.write(csr::SEPC, epc);
            self.csrs.write(csr::SCAUSE, code);
            self.csrs.write(csr::STVAL, value);
            self.csrs.force(csr::MSTATUS, saved);
            self.priv_mode = Priv::Supervisor;
            self.pc = self.vector(tvec, cause, interrupt);
        } else {
            let tvec = self.csrs.stored(csr::MTVEC);
            let mut saved = status & !(mstatus::MIE | mstatus::MPIE | mstatus::MPP);
            if status & mstatus::MIE != 0 {
                saved = saved | mstatus::MPIE;
            }
            saved = saved | mpp(from);
            self.csrs.write(csr::MEPC, epc);
            self.csrs.write(csr::MCAUSE, code);
            self.csrs.write(csr::MTVAL, value);
            self.csrs.force(csr::MSTATUS, saved);
            self.priv_mode = Priv::Machine;
            self.pc = self.vector(tvec, cause, interrupt);
        }
    }

    fn take_exception(&mut self, e: Exception, here: u64)
        ensures
            final(self)@ == old(self)@.take_exception(e, here),
    {
        let cause = e.cause_in(self.priv_mode);
        self.trap(cause, false, e.tval(), here);
    }

    fn retire(&mut self)
        ensures
            final(self)@ == old(self)@.retire(),
    {
        if !self.wrote_instret {
            let count = self.csrs.stored(csr::INSTRET);
            self.csrs.force(csr::INSTRET, count.wrapping_add(1));
        }
    }

    fn run_instruction(&mut self) -> (r: Result<(), Exception>)
        ensures
            (final(self)@, r) == old(self)@.run_instruction(),
    {
        // Held across execute(), which advances self.pc before it can fault.
        let here = self.pc;
        let (inst, len) = match self.fetch() {
            Ok(fetched) => fetched,
            Err(e) => {
                self.take_exception(e, here);
                return Err(e);
            },
        };
        let next = self.xlen.sum(here, len);
        match self.execute(inst, here, next) {
            Ok(()) => {
                self.retire();
                Ok(())
            },
            Err(e) => {
                self.take_exception(e, here);
                Err(e)
            },
        }
    }

    /// Fetches, executes and retires one instruction, or takes an interrupt
    /// that is due. On an exception the trap is taken here, so the hart is
    /// left ready to run the handler.
    pub fn step(&mut self) -> (r: Result<(), Exception>)
        ensures
            (final(self)@, r) == old(self)@.step(),
    {
        reveal(CpuState::step);
        self.tick();
        match self.interrupt() {
            Some(cause) => {
                let here = self.pc;
                self.trap(cause, true, 0, here);
                Ok(())
            },
            None => self.run_instruction(),
        }
    }
}

} // verus!
