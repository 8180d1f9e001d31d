//! The hart: RV32 and RV64 IMAFDC with machine, supervisor and user modes.
//!
//! `step()` executes exactly one instruction and is the unit the RTL core will
//! be diffed against: after each step the architectural state here (pc, x1..x31,
//! and the CSRs) must match the core's retire-stage state exactly.

use crate::csr::{self, irq, CsrFile, CsrState};
use crate::elf::{Elf, ElfState, SegmentState};
use crate::memory::{MemState, Memory, DRAM_BASE};
use crate::trap::{Exception, Priv};
use vstd::prelude::*;

pub mod access;
pub mod control;
pub mod cycle;
pub mod execute;
pub mod float;
pub mod float_isa;
pub mod isa;
pub mod laws;
pub mod privilege;
pub mod step;

verus! {

/// The integer register width.
#[derive(Debug, Clone, Copy, PartialEq, Eq, Structural)]
pub enum Xlen {
    Rv32,
    Rv64,
}

/// Everything a hart and its platform hold between two instructions.
#[verifier::ext_equal]
pub struct CpuState {
    pub regs: Seq<u64>,
    pub fregs: Seq<u64>,
    pub pc: u64,
    pub xlen: Xlen,
    pub priv_mode: Priv,
    pub csrs: CsrState,
    pub mem: MemState,
    pub cycle: u64,
    pub reservation: Option<u64>,
    pub timer_armed: bool,
    pub shutdown: bool,
    pub sbi: bool,
    pub wrote_instret: bool,
}

/// What executing something comes to: a state, and whether it trapped.
pub type Outcome = (CpuState, Result<(), Exception>);

impl CpuState {
    /// What an integer register reads as. x0 is hardwired to zero, and no
    /// register holds more than XLEN bits.
    pub open spec fn x(self, r: nat) -> u64 {
        if r == 0 {
            0
        } else {
            self.xlen.wrap(self.regs[r as int] as int)
        }
    }

    /// The state with an integer register written. Writes to x0 are dropped.
    pub open spec fn set_x(self, r: nat, v: u64) -> CpuState {
        if r == 0 {
            self
        } else {
            CpuState { regs: self.regs.update(r as int, self.xlen.wrap(v as int)), ..self }
        }
    }

    /// What every step keeps: x0 is zero, and neither a register nor the
    /// program counter holds more than XLEN bits.
    pub open spec fn wf(self) -> bool {
        &&& self.regs.len() == 32
        &&& self.fregs.len() == 32
        &&& self.csrs.wf()
        &&& self.csrs.xlen == self.xlen
        &&& self.regs[0] == 0
        &&& forall|i: int| 0 <= i < 32 ==> #[trigger] self.regs[i] < self.xlen.modulus()
        &&& self.pc < self.xlen.modulus()
    }

    pub open spec fn jump(self, target: u64) -> CpuState {
        CpuState { pc: target, ..self }
    }
}

pub struct Cpu {
    /// x0 is stored but always reads as zero; writes to it are dropped.
    pub regs: [u64; 32],
    /// The f registers are 64 bits wide whatever XLEN is; a single-precision
    /// value is boxed in the low half.
    pub fregs: [u64; 32],
    pub pc: u64,
    pub xlen: Xlen,
    pub priv_mode: Priv,
    pub csrs: CsrFile,
    pub mem: Memory,
    /// Steps taken since reset.
    pub cycle: u64,
    /// The address that LR has reserved and no SC has consumed.
    pub reservation: Option<u64>,
    /// Whether the firmware has a supervisor timer scheduled.
    pub timer_armed: bool,
    /// Whether the guest has asked to stop.
    pub shutdown: bool,
    /// Whether supervisor ECALLs are answered by the built-in firmware.
    pub sbi: bool,
    /// Whether this instruction has written the retired-instruction counter.
    pub wrote_instret: bool,
}

impl View for Cpu {
    type V = CpuState;

    open spec fn view(&self) -> CpuState {
        CpuState {
            regs: self.regs@,
            fregs: self.fregs@,
            pc: self.pc,
            xlen: self.xlen,
            priv_mode: self.priv_mode,
            csrs: self.csrs@,
            mem: self.mem@,
            cycle: self.cycle,
            reservation: self.reservation,
            timer_armed: self.timer_armed,
            shutdown: self.shutdown,
            sbi: self.sbi,
            wrote_instret: self.wrote_instret,
        }
    }
}

impl Cpu {
    /// What the types alone say about a hart's state.
    pub proof fn lemma_shape(&self)
        ensures
            self@.regs.len() == 32,
            self@.fregs.len() == 32,
            self@.csrs.wf(),
            self@.mem.plic.wf(),
    {
        self.csrs.lemma_wf();
        self.mem.plic.lemma_wf();
    }

    pub(crate) fn rr(&self, r: usize) -> (v: u64)
        requires
            r < 32,
        ensures
            v == self@.x(r as nat),
            v < self.xlen.modulus(),
    {
        if r == 0 {
            0
        } else {
            self.xlen.trunc(self.regs[r])
        }
    }

    pub(crate) fn wr(&mut self, r: usize, v: u64)
        requires
            r < 32,
        ensures
            final(self)@ == old(self)@.set_x(r as nat, v),
    {
        if r != 0 {
            self.regs[r] = self.xlen.trunc(v);
        }
    }
}

/// Why a program stopped. `Pass`/`Fail` come from the `tohost` protocol that
/// riscv-tests uses; the rest are this simulator's own stopping conditions.
#[derive(Debug, Clone, Copy, PartialEq, Eq, Structural)]
pub enum Exit {
    /// The payload wrote 1 to `tohost`.
    Pass,
    /// The payload wrote `(n << 1) | 1`; `n` is the number of the failing test.
    /// Of a number that is wider, these are the low 32 bits.
    Fail(u32),
    /// An ECALL from machine mode with no `tohost` symbol to interpret it.
    Ecall,
    /// A trap was raised with the vector of the mode that takes it still zero,
    /// so there is no handler to enter. Left as a distinct outcome because it
    /// is the usual symptom of a test that never got as far as installing one.
    UnhandledTrap(Exception),
    /// The guest asked the firmware to stop the machine.
    Shutdown,
    /// Ran past the step budget -- almost always an infinite loop.
    StepLimit,
}

/// What a value written to `tohost` says, if it says to terminate: bit 0 set
/// means that, and the rest is 0 for success or the failing test's number, of
/// which the low 32 bits are given.
pub open spec fn spec_report(v: u64) -> Option<Exit> {
    if v % 2 == 0 {
        None
    } else if v == 1 {
        Some(Exit::Pass)
    } else {
        Some(Exit::Fail(((v / 2) % 0x1_0000_0000) as u32))
    }
}

impl CpuState {
    /// A hart at reset: in machine mode at the start of DRAM, with the stack
    /// pointer at the top of it.
    pub open spec fn reset(mem_size: nat, xlen: Xlen) -> CpuState {
        CpuState {
            regs: Seq::new(32, |i: int| 0u64).update(2, xlen.wrap(DRAM_BASE + mem_size)),
            fregs: Seq::new(32, |i: int| 0u64),
            pc: DRAM_BASE,
            xlen,
            priv_mode: Priv::Machine,
            csrs: CsrState { regs: Seq::new(4096, |i: int| 0u64), xlen },
            mem: MemState::reset(mem_size),
            cycle: 0,
            reservation: None,
            timer_armed: false,
            shutdown: false,
            sbi: false,
            wrote_instret: false,
        }
    }

    /// A hart entered in supervisor mode, with the firmware's state set up as
    /// a kernel expects to find it.
    pub open spec fn boot_supervisor(self, entry: u64, hartid: u64, dtb: u64) -> CpuState {
        CpuState {
            pc: self.xlen.wrap(entry as int),
            priv_mode: Priv::Supervisor,
            csrs: self.csrs.write(csr::MEDELEG, KERNEL_EXCEPTIONS).write(
                csr::MIDELEG,
                irq::SUPERVISOR,
            ).write(csr::MCOUNTEREN, 7),
            sbi: true,
            ..self
        }.set_x(10, hartid).set_x(11, dtb)
    }

    /// The hart at another register width, with every register cut to it.
    pub open spec fn at_width(self, xlen: Xlen) -> CpuState {
        CpuState {
            regs: Seq::new(32, |i: int| xlen.wrap(self.regs[i] as int)),
            xlen,
            csrs: CsrState { regs: self.csrs.regs, xlen },
            ..self
        }
    }

    /// Segment `i` and those after it placed in memory, up to the first that
    /// does not fit.
    pub open spec fn load_segments(self, segments: Seq<SegmentState>, i: int) -> Outcome
        decreases segments.len() - i,
    {
        if i >= segments.len() {
            (self, Ok(()))
        } else {
            let seg = segments[i];
            match self.mem.load_at(seg.addr, seg.data) {
                None => (self, Err(Exception::StoreAccessFault(seg.addr))),
                Some(loaded) => {
                    let tail = seg.addr.wrapping_add(seg.data.len() as u64);
                    if seg.zero_len == 0 {
                        CpuState { mem: loaded, ..self }.load_segments(segments, i + 1)
                    } else {
                        match loaded.zero(tail, seg.zero_len) {
                            None => (
                                CpuState { mem: loaded, ..self },
                                Err(Exception::StoreAccessFault(tail)),
                            ),
                            Some(zeroed) => CpuState { mem: zeroed, ..self }.load_segments(
                                segments,
                                i + 1,
                            ),
                        }
                    }
                },
            }
        }
    }

    pub open spec fn load_elf(self, elf: ElfState) -> Outcome {
        let (loaded, result) = self.load_segments(elf.segments, 0);
        match result {
            Err(e) => (loaded, Err(e)),
            Ok(_) => {
                let tohost = if elf.symbols.contains_key("tohost"@) {
                    Some(elf.symbols["tohost"@])
                } else {
                    None
                };
                (
                    CpuState {
                        pc: elf.xlen.wrap(elf.entry as int),
                        mem: MemState { tohost, ..loaded.mem },
                        ..loaded.at_width(elf.xlen)
                    },
                    Ok(()),
                )
            },
        }
    }

    /// Whether the handler that the last trap entered was never installed.
    pub open spec fn no_handler(self) -> bool {
        if self.priv_mode == Priv::Machine {
            self.csrs.at(csr::MTVEC) == 0
        } else {
            self.csrs.at(csr::STVEC) == 0
        }
    }

    /// What `tohost` says, if it says anything.
    pub open spec fn report(self) -> Option<Exit> {
        match self.mem.tohost_value {
            Some(v) => spec_report(v),
            None => None,
        }
    }

    /// A write to `tohost` that does not terminate is a request that bare
    /// tests do not make; it is dropped.
    pub open spec fn drop_request(self) -> CpuState {
        CpuState { mem: MemState { tohost_value: None, ..self.mem }, ..self }
    }

    /// Whether the run is over after a step taken from mode `from`.
    pub open spec fn verdict(self, from: Priv, result: Result<(), Exception>) -> Option<Exit> {
        if self.shutdown {
            Some(Exit::Shutdown)
        } else {
            match result {
                Ok(_) => None,
                Err(e) => if e == Exception::EnvironmentCall && from == Priv::Machine
                    && self.mem.tohost is None {
                    Some(Exit::Ecall)
                } else if self.no_handler() {
                    Some(Exit::UnhandledTrap(e))
                } else {
                    None
                },
            }
        }
    }

    /// Steps until the program stops, for at most `max_steps` steps.
    pub open spec fn run(self, max_steps: nat) -> (CpuState, Exit)
        decreases max_steps,
    {
        if max_steps == 0 {
            (self, Exit::StepLimit)
        } else {
            let (after, result) = self.step();
            match after.report() {
                Some(exit) => (after, exit),
                None => {
                    let next = after.drop_request();
                    match next.verdict(self.priv_mode, result) {
                        Some(exit) => (next, exit),
                        None => next.run((max_steps - 1) as nat),
                    }
                },
            }
        }
    }
}

/// The exceptions a booted kernel handles itself: everything but its own
/// ECALLs, which are how it calls the firmware.
pub const KERNEL_EXCEPTIONS: u64 = 0xb1ff;

impl Cpu {
    pub fn new(mem_size: usize, xlen: Xlen) -> (r: Self)
        ensures
            r@ == CpuState::reset(mem_size as nat, xlen),
    {
        let mut csrs = CsrFile::new();
        csrs.set_xlen(xlen);
        let mut cpu = Cpu {
            regs: [0;32],
            fregs: [0;32],
            pc: DRAM_BASE,
            xlen,
            priv_mode: Priv::Machine,
            csrs,
            mem: Memory::new(mem_size),
            cycle: 0,
            reservation: None,
            timer_armed: false,
            shutdown: false,
            sbi: false,
            wrote_instret: false,
        };
        // Stack pointer starts at the top of DRAM, as a bare-metal ABI expects.
        cpu.regs[2] = xlen.sum(DRAM_BASE, mem_size as u64);
        assert(cpu@ =~= CpuState::reset(mem_size as nat, xlen));
        cpu
    }

    pub fn rv32(mem_size: usize) -> (r: Self)
        ensures
            r@ == CpuState::reset(mem_size as nat, Xlen::Rv32),
    {
        Self::new(mem_size, Xlen::Rv32)
    }

    pub fn rv64(mem_size: usize) -> (r: Self)
        ensures
            r@ == CpuState::reset(mem_size as nat, Xlen::Rv64),
    {
        Self::new(mem_size, Xlen::Rv64)
    }

    /// Enters a kernel the way firmware does: in supervisor mode, with the
    /// hart id in a0 and the device tree in a1, and with the firmware itself
    /// answering supervisor ECALLs from here on.
    pub fn boot_supervisor(&mut self, entry: u64, hartid: u64, dtb: u64)
        ensures
            final(self)@ == old(self)@.boot_supervisor(entry, hartid, dtb),
    {
        self.pc = self.xlen.trunc(entry);
        self.priv_mode = Priv::Supervisor;
        self.csrs.write(csr::MEDELEG, KERNEL_EXCEPTIONS);
        self.csrs.write(csr::MIDELEG, irq::SUPERVISOR);
        // Without this every rdtime in the kernel is an illegal instruction.
        self.csrs.write(csr::MCOUNTEREN, 7);
        self.sbi = true;
        self.wr(10, hartid);
        self.wr(11, dtb);
    }

    /// Changes the register width.
    fn set_width(&mut self, xlen: Xlen)
        ensures
            final(self)@ == old(self)@.at_width(xlen),
    {
        let mut i: usize = 0;
        let ghost start = self@;
        while i < 32
            invariant
                i <= 32,
                start == old(self)@,
                start.regs.len() == 32,
                self@ == (CpuState {
                    regs: Seq::new(
                        32,
                        |j: int|
                            if j < i {
                                xlen.wrap(start.regs[j] as int)
                            } else {
                                start.regs[j]
                            },
                    ),
                    ..start
                }),
            decreases 32 - i,
        {
            self.regs[i] = xlen.trunc(self.regs[i]);
            i = i + 1;
            assert(self.regs@ =~= Seq::new(
                32,
                |j: int|
                    if j < i {
                        xlen.wrap(start.regs[j] as int)
                    } else {
                        start.regs[j]
                    },
            ));
        }
        self.xlen = xlen;
        self.csrs.set_xlen(xlen);
        assert(self.regs@ =~= old(self)@.at_width(xlen).regs);
    }

    /// Loads an ELF image: its PT_LOAD segments, entry point, and the
    /// `tohost` symbol if the payload exports one. The register width comes
    /// from the ELF class.
    pub fn load_elf(&mut self, elf: &Elf) -> (r: Result<(), Exception>)
        ensures
            (final(self)@, r) == old(self)@.load_elf(elf@),
    {
        let ghost start = self@;
        let ghost segments = elf@.segments;
        let mut i: usize = 0;
        while i < elf.segments.len()
            invariant
                i <= elf.segments.len(),
                segments == elf@.segments,
                start == old(self)@,
                start.load_segments(segments, 0) == self@.load_segments(segments, i as int),
            decreases elf.segments.len() - i,
        {
            let seg = &elf.segments[i];
            assert(segments[i as int] == seg@);
            match self.mem.load_at(seg.addr, seg.data.as_slice()) {
                Ok(()) => {},
                Err(e) => {
                    return Err(e);
                },
            }
            if seg.zero_len > 0 {
                let tail = seg.addr.wrapping_add(seg.data.len() as u64);
                match self.mem.zero(tail, seg.zero_len) {
                    Ok(()) => {},
                    Err(e) => {
                        return Err(e);
                    },
                }
            }
            i = i + 1;
        }
        self.set_width(elf.xlen);
        self.pc = elf.xlen.trunc(elf.entry);
        self.mem.tohost = match elf.symbols.get("tohost") {
            Some(a) => Some(*a),
            None => None,
        };
        Ok(())
    }

    /// Steps until the program stops, for at most `max_steps` instructions.
    ///
    /// Traps are not stopping conditions on their own: a riscv-tests binary
    /// installs a handler and deliberately traps as part of the test. The run
    /// ends when the payload reports through `tohost`, when the guest shuts
    /// the machine down, or when a trap is taken with no handler installed.
    pub fn run(&mut self, max_steps: u64) -> (r: Exit)
        ensures
            (final(self)@, r) == old(self)@.run(max_steps as nat),
    {
        let ghost start = self@;
        let mut left = max_steps;
        while left > 0
            invariant
                start == old(self)@,
                start.run(max_steps as nat) == self@.run(left as nat),
            decreases left,
        {
            let from = self.priv_mode;
            let result = self.step();
            match self.mem.tohost_value {
                Some(v) => {
                    if v % 2 == 1 {
                        return if v == 1 {
                            Exit::Pass
                        } else {
                            Exit::Fail(((v / 2) % 0x1_0000_0000) as u32)
                        };
                    }
                },
                None => {},
            }
            self.mem.tohost_value = None;
            if self.shutdown {
                return Exit::Shutdown;
            }
            match result {
                Ok(()) => {},
                Err(e) => {
                    if e == Exception::EnvironmentCall && from == Priv::Machine
                        && self.mem.tohost.is_none() {
                        return Exit::Ecall;
                    }
                    let tvec = if self.priv_mode == Priv::Machine {
                        self.csrs.stored(csr::MTVEC)
                    } else {
                        self.csrs.stored(csr::STVEC)
                    };
                    if tvec == 0 {
                        return Exit::UnhandledTrap(e);
                    }
                },
            }
            left = left - 1;
        }
        Exit::StepLimit
    }
}

} // verus!
