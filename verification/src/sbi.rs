//! The Supervisor Binary Interface: the calls a RISC-V kernel makes into the
//! firmware beneath it.
//!
//! On real hardware this is OpenSBI running in machine mode. Here the
//! emulator plays that part itself, so the kernel is entered directly in
//! supervisor mode and its `ecall`s are answered in Rust. That removes a whole
//! firmware binary from the boot path, and with it a second thing that can be
//! wrong while the first one is being debugged.
//!
//! Spec: <https://github.com/riscv-non-isa/riscv-sbi-doc>

use crate::clint::Clint;
use crate::cpu::{Cpu, CpuState, Xlen};
use crate::csr::{self, irq};
use crate::memory::{self, MemState, DRAM_BASE};
use vstd::prelude::*;

pub mod laws;

verus! {

// Extension IDs. The modern ones spell a name in ASCII.
pub const EXT_BASE: u64 = 0x10;

/// "TIME"
pub const EXT_TIME: u64 = 0x5449_4D45;

/// "sPI"
pub const EXT_IPI: u64 = 0x0073_5049;

/// "RFNC"
pub const EXT_RFENCE: u64 = 0x5246_4E43;

/// "HSM"
pub const EXT_HSM: u64 = 0x0048_534D;

/// "SRST"
pub const EXT_SRST: u64 = 0x5352_5354;

/// "DBCN"
pub const EXT_DBCN: u64 = 0x4442_434E;

// The legacy extensions, from before calls returned a pair. A kernel still
// uses these for `earlycon=sbi`, which is the console that works before any
// driver is probed -- and therefore the one that shows early boot failures.
pub const LEGACY_SET_TIMER: u64 = 0x00;

pub const LEGACY_CONSOLE_PUTCHAR: u64 = 0x01;

pub const LEGACY_CONSOLE_GETCHAR: u64 = 0x02;

pub const LEGACY_CLEAR_IPI: u64 = 0x03;

pub const LEGACY_REMOTE_SFENCE_VMA_ASID: u64 = 0x07;

pub const LEGACY_SHUTDOWN: u64 = 0x08;

/// What a call returns: an error code in a0 and a value in a1.
pub struct SbiRet {
    pub error: i64,
    pub value: u64,
}

impl SbiRet {
    pub open spec fn spec_ok(value: u64) -> SbiRet {
        SbiRet { error: 0, value }
    }

    pub open spec fn spec_not_supported() -> SbiRet {
        SbiRet { error: (-2) as i64, value: 0 }
    }

    fn ok(value: u64) -> (r: SbiRet)
        ensures
            r == SbiRet::spec_ok(value),
    {
        SbiRet { error: 0, value }
    }

    fn success() -> (r: SbiRet)
        ensures
            r == SbiRet::spec_ok(0),
    {
        SbiRet { error: 0, value: 0 }
    }

    fn not_supported() -> (r: SbiRet)
        ensures
            r == SbiRet::spec_not_supported(),
    {
        SbiRet { error: -2, value: 0 }
    }
}

/// Whether probing for an extension finds it.
pub open spec fn spec_supported(eid: u64) -> bool {
    ||| eid == EXT_BASE
    ||| eid == EXT_TIME
    ||| eid == EXT_IPI
    ||| eid == EXT_RFENCE
    ||| eid == EXT_HSM
    ||| eid == EXT_SRST
    ||| eid == EXT_DBCN
    ||| eid == LEGACY_SET_TIMER
    ||| eid == LEGACY_CONSOLE_PUTCHAR
    ||| eid == LEGACY_CONSOLE_GETCHAR
    ||| eid == LEGACY_SHUTDOWN
}

fn supported(eid: u64) -> (r: bool)
    ensures
        r == spec_supported(eid),
{
    eid == EXT_BASE || eid == EXT_TIME || eid == EXT_IPI || eid == EXT_RFENCE || eid == EXT_HSM
        || eid == EXT_SRST || eid == EXT_DBCN || eid == LEGACY_SET_TIMER || eid
        == LEGACY_CONSOLE_PUTCHAR || eid == LEGACY_CONSOLE_GETCHAR || eid == LEGACY_SHUTDOWN
}

/// The bytes of a buffer in physical memory sent to the console one by one,
/// up to the first that cannot be read.
pub open spec fn spec_console_write(mem: MemState, addr: int, len: nat) -> MemState
    decreases len,
{
    if len == 0 || addr > u64::MAX {
        mem
    } else {
        match mem.read_value(addr as u64, 1) {
            None => mem,
            Some(b) => {
                let seen = mem.after_read(addr as u64, 1);
                spec_console_write(
                    MemState { uart: seen.uart.write(0, b), ..seen },
                    addr + 1,
                    (len - 1) as nat,
                )
            },
        }
    }
}

impl CpuState {
    /// Schedules the next supervisor timer interrupt, and retracts any that
    /// is already pending.
    pub open spec fn set_timer(self, when: u64) -> CpuState {
        CpuState {
            mem: MemState { clint: Clint { mtimecmp: when, ..self.mem.clint }, ..self.mem },
            timer_armed: true,
            csrs: self.csrs.clear_bits(csr::MIP, irq::STIP),
            ..self
        }
    }

    pub open spec fn console_put(self, value: u64) -> CpuState {
        CpuState { mem: MemState { uart: self.mem.uart.write(0, value), ..self.mem }, ..self }
    }

    /// Answers a legacy call, which returns a single value in a0.
    pub open spec fn legacy_call(self, eid: u64, arg: u64) -> CpuState {
        if eid == LEGACY_SET_TIMER {
            self.set_timer(arg).set_x(10, 0)
        } else if eid == LEGACY_CONSOLE_PUTCHAR {
            self.console_put(arg).set_x(10, 0)
        } else if eid == LEGACY_CONSOLE_GETCHAR {
            let taken = CpuState {
                mem: MemState { uart: self.mem.uart.take_input(), ..self.mem },
                ..self
            };
            match self.mem.uart.next_input() {
                Some(b) => taken.set_x(10, b as u64),
                None => taken.set_x(10, self.xlen.wrap(-1)),
            }
        } else if LEGACY_CLEAR_IPI <= eid <= LEGACY_REMOTE_SFENCE_VMA_ASID {
            self.set_x(10, 0)
        } else {
            self.set_x(10, self.xlen.wrap(-2))
        }
    }

    /// Answers any other call, all but the one that stops the machine.
    pub open spec fn modern_call(self, eid: u64, fid: u64, a0: u64, a1: u64) -> (CpuState, SbiRet) {
        if eid == EXT_BASE && fid == 0 {
            (self, SbiRet::spec_ok(0x200_0000))
        } else if eid == EXT_BASE && fid == 1 {
            (self, SbiRet::spec_ok(3))
        } else if eid == EXT_BASE && fid == 2 {
            (self, SbiRet::spec_ok(1))
        } else if eid == EXT_BASE && fid == 3 {
            (self, SbiRet::spec_ok(if spec_supported(a0) { 1 } else { 0 }))
        } else if eid == EXT_BASE && 4 <= fid <= 6 {
            (self, SbiRet::spec_ok(0))
        } else if eid == EXT_TIME && fid == 0 {
            (self.set_timer(a0), SbiRet::spec_ok(0))
        } else if eid == EXT_IPI && fid == 0 {
            if a1 == self.xlen.wrap(-1) || (a1 == 0 && a0 % 2 == 1) {
                (
                    CpuState { csrs: self.csrs.set_bits(csr::MIP, irq::SSIP), ..self },
                    SbiRet::spec_ok(0),
                )
            } else {
                (self, SbiRet::spec_ok(0))
            }
        } else if eid == EXT_RFENCE {
            (self, SbiRet::spec_ok(0))
        } else if eid == EXT_HSM && fid == 2 {
            (self, SbiRet::spec_ok(0))
        } else if eid == EXT_DBCN && fid == 0 {
            (
                CpuState { mem: spec_console_write(self.mem, a1 as int, a0 as nat), ..self },
                SbiRet::spec_ok(a0),
            )
        } else if eid == EXT_DBCN && fid == 2 {
            (self.console_put(a0), SbiRet::spec_ok(0))
        } else {
            (self, SbiRet::spec_not_supported())
        }
    }

    /// Answers the call in a7 and a6. The flag is false when the guest asked
    /// to shut down, which is the only call that does not return.
    pub open spec fn sbi_call(self) -> (CpuState, bool) {
        let (eid, fid) = (self.x(17), self.x(16));
        let (a0, a1) = (self.x(10), self.x(11));
        if eid < 0x10 {
            if eid == LEGACY_SHUTDOWN {
                (self, false)
            } else {
                (self.legacy_call(eid, a0), true)
            }
        } else if eid == EXT_SRST && fid == 0 {
            (self, false)
        } else {
            let (after, ret) = self.modern_call(eid, fid, a0, a1);
            (after.set_x(10, self.xlen.wrap(ret.error as int)).set_x(11, ret.value), true)
        }
    }
}

impl Cpu {
    /// Answers a legacy call. These predate the error/value split and return
    /// a single value in a0.
    fn legacy_call(&mut self, eid: u64, arg: u64)
        ensures
            final(self)@ == old(self)@.legacy_call(eid, arg),
    {
        if eid == LEGACY_SET_TIMER {
            self.set_timer(arg);
            self.wr(10, 0);
        } else if eid == LEGACY_CONSOLE_PUTCHAR {
            self.mem.uart.write(0, arg);
            self.wr(10, 0);
        } else if eid == LEGACY_CONSOLE_GETCHAR {
            // -1 means "nothing waiting", which is how a polling console
            // driver knows to come back later.
            let v = match self.mem.uart.take_input() {
                Some(b) => b as u64,
                None => self.xlen.number(-1),
            };
            self.wr(10, v);
        } else if eid >= LEGACY_CLEAR_IPI && eid <= LEGACY_REMOTE_SFENCE_VMA_ASID {
            // IPIs and remote fences are nothing to do on one hart with no
            // caches to keep coherent.
            self.wr(10, 0);
        } else {
            let v = self.xlen.number(-2);
            self.wr(10, v);
        }
    }

    /// Sends a buffer in physical memory to the console, stopping at the
    /// first byte that cannot be read.
    ///
    /// The address is physical because the kernel passes one: translating it
    /// would work only until the kernel drops its early identity mapping.
    fn console_write(&mut self, addr: u64, len: u64)
        ensures
            final(self)@ == (CpuState {
                mem: spec_console_write(old(self)@.mem, addr as int, len as nat),
                ..old(self)@
            }),
    {
        let mut i: u64 = 0;
        let ghost start = self@;
        while i < len
            invariant
                i <= len,
                self@ == (CpuState { mem: self@.mem, ..start }),
                spec_console_write(start.mem, addr as int, len as nat) == spec_console_write(
                    self@.mem,
                    addr + i,
                    (len - i) as nat,
                ),
                start == old(self)@,
            decreases len - i,
        {
            let at = match addr.checked_add(i) {
                Some(at) => at,
                None => {
                    return ;
                },
            };
            match self.mem.read(at, 1) {
                Ok(b) => self.mem.uart.write(0, b),
                Err(_) => {
                    return ;
                },
            }
            i = i + 1;
        }
    }

    /// Answers any call that returns a pair.
    fn modern_call(&mut self, eid: u64, fid: u64, a0: u64, a1: u64) -> (r: SbiRet)
        ensures
            (final(self)@, r) == old(self)@.modern_call(eid, fid, a0, a1),
    {
        if eid == EXT_BASE {
            match fid {
                // Spec version 2.0.
                0 => SbiRet::ok(0x200_0000),
                // Implementation id 3 is "rustsbi"; there is no number for "a
                // simulator's own", and claiming OpenSBI would be a lie a
                // kernel could act on.
                1 => SbiRet::ok(3),
                2 => SbiRet::ok(1),
                3 => SbiRet::ok(if supported(a0) { 1 } else { 0 }),
                // Vendor, architecture and implementation ids.
                4 | 5 | 6 => SbiRet::ok(0),
                _ => SbiRet::not_supported(),
            }
        } else if eid == EXT_TIME && fid == 0 {
            self.set_timer(a0);
            SbiRet::success()
        } else if eid == EXT_IPI && fid == 0 {
            // The only hart there is to interrupt is this one. A base of all
            // ones means every hart, whatever the mask says.
            if a1 == self.xlen.number(-1) || (a1 == 0 && a0 % 2 == 1) {
                self.csrs.set_bits(csr::MIP, irq::SSIP);
            }
            SbiRet::success()
        } else if eid == EXT_RFENCE {
            // No remote caches or TLBs to shoot down.
            SbiRet::success()
        } else if eid == EXT_HSM && fid == 2 {
            // Hart 0 is the only hart and it is already started.
            SbiRet::ok(0)
        } else if eid == EXT_DBCN && fid == 0 {
            self.console_write(a1, a0);
            SbiRet::ok(a0)
        } else if eid == EXT_DBCN && fid == 2 {
            self.mem.uart.write(0, a0);
            SbiRet::success()
        } else {
            SbiRet::not_supported()
        }
    }

    /// Handles one `ecall` from supervisor mode.
    ///
    /// Returns false if the guest asked to shut down, which is the only call
    /// that does not return to the caller.
    pub fn handle_sbi(&mut self) -> (r: bool)
        ensures
            (final(self)@, r) == old(self)@.sbi_call(),
    {
        // a7 and a6, then the arguments.
        let (eid, fid) = (self.rr(17), self.rr(16));
        let (a0, a1) = (self.rr(10), self.rr(11));
        if eid < 0x10 {
            if eid == LEGACY_SHUTDOWN {
                return false;
            }
            self.legacy_call(eid, a0);
            return true;
        }
        if eid == EXT_SRST && fid == 0 {
            return false;
        }
        let ret = self.modern_call(eid, fid, a0, a1);
        let error = self.xlen.number(ret.error);
        self.wr(10, error);
        self.wr(11, ret.value);
        true
    }

    /// Schedules the next supervisor timer interrupt.
    ///
    /// The CLINT belongs to machine mode, which the kernel cannot see, so the
    /// firmware owns `mtimecmp` and turns the expiry into `mip.STIP`. Setting
    /// a timer also retracts any interrupt already pending, which is how the
    /// kernel cancels one it no longer wants.
    fn set_timer(&mut self, when: u64)
        ensures
            final(self)@ == old(self)@.set_timer(when),
    {
        self.mem.clint.mtimecmp = when;
        self.timer_armed = true;
        self.csrs.clear_bits(csr::MIP, irq::STIP);
    }
}

/// A call answers in a0 and a1 and nowhere else: no other register moves, and
/// the hart stays in the same mode at the same place.
pub proof fn law_a_call_touches_only_its_results(s: CpuState, r: int)
    requires
        s.regs.len() == 32,
        0 <= r < 32,
        r != 10,
        r != 11,
    ensures
        s.sbi_call().0.regs[r] == s.regs[r],
        s.sbi_call().0.pc == s.pc,
        s.sbi_call().0.priv_mode == s.priv_mode,
        s.sbi_call().0.fregs == s.fregs,
{
}

/// The machine is stopped by the two shutdown calls and by no other.
pub proof fn law_only_shutdown_stops_the_machine(s: CpuState)
    ensures
        s.sbi_call().1 == !(s.x(17) == LEGACY_SHUTDOWN || (s.x(17) == EXT_SRST && s.x(16) == 0)),
{
}

/// A call to an extension that is not there is refused, and changes nothing
/// but the two result registers.
pub proof fn law_unknown_calls_are_refused(s: CpuState)
    requires
        s.x(17) >= 0x10,
        !spec_supported(s.x(17)),
    ensures
        s.sbi_call() == (s.set_x(10, s.xlen.wrap(-2)).set_x(11, 0), true),
{
}

/// Setting a timer retracts one that is already pending.
pub proof fn law_setting_a_timer_retracts_the_last(s: CpuState, when: u64)
    requires
        s.csrs.wf(),
    ensures
        s.set_timer(when).csrs.at(csr::MIP) & irq::STIP == 0,
        s.set_timer(when).timer_armed,
        s.set_timer(when).mem.clint.mtimecmp == when,
{
    let mip = s.csrs.at(csr::MIP);
    assert((mip & !irq::STIP) & irq::STIP == 0) by (bit_vector);
}

/// An IPI that names this hart, by mask or as every hart, raises the software
/// interrupt, and one that names no hart raises nothing.
pub proof fn law_an_ipi_is_raised_where_it_is_sent(s: CpuState, mask: u64, base: u64)
    requires
        s.csrs.wf(),
    ensures
        ({
            let after = s.modern_call(EXT_IPI, 0, mask, base).0;
            &&& base == s.xlen.wrap(-1) || (base == 0 && mask % 2 == 1) ==> after.csrs.at(csr::MIP)
                & irq::SSIP != 0
            &&& base == 0 && mask % 2 == 0 ==> after == s
        }),
{
    let mip = s.csrs.at(csr::MIP);
    assert((mip | irq::SSIP) & irq::SSIP != 0) by (bit_vector);
    match s.xlen {
        Xlen::Rv32 => {},
        Xlen::Rv64 => {},
    }
}

/// The debug console sends a buffer in memory whole and in order.
pub proof fn law_the_console_sends_the_buffer(mem: MemState, addr: u64, len: nat)
    requires
        mem.in_dram(addr, len as int),
        addr + len <= u64::MAX,
        !mem.uart.dlab(),
    ensures
        ({
            let after = spec_console_write(mem, addr as int, len);
            let from = addr - DRAM_BASE;
            &&& after.uart.tx == mem.uart.tx + mem.dram.subrange(from, from + len)
            &&& after.dram == mem.dram
        }),
    decreases len,
{
    let from = addr - DRAM_BASE;
    let buffer = mem.dram.subrange(from, from + len);
    if len == 0 {
        assert(mem.uart.tx + buffer =~= mem.uart.tx);
    } else {
        let cell = mem.dram.subrange(from, from + 1);
        reveal_with_fuel(memory::le_value, 2);
        assert(cell.drop_first() =~= Seq::<u8>::empty());
        let b = mem.read_value(addr, 1)->0;
        assert(b == cell[0] && b == buffer[0]);
        assert(b as u8 == buffer[0]);
        let next = MemState { uart: mem.uart.write(0, b), ..mem };
        law_the_console_sends_the_buffer(next, (addr + 1) as u64, (len - 1) as nat);
        let rest = mem.dram.subrange(from + 1, from + len);
        assert(mem.uart.tx.push(buffer[0]) + rest =~= mem.uart.tx + buffer);
    }
}

} // verus!
