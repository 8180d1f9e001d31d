//! The calls of the firmware, by number: what each does, and what it leaves in
//! a0 and a1.

use crate::cpu::isa::{self, span};
use crate::cpu::privilege::{bit, lemma_both};
use crate::cpu::CpuState;
use crate::csr::CsrState;
use crate::memory::{self, MemState};
use crate::sbi;
use crate::uart::UartState;
use vstd::prelude::*;

verus! {

/// The state with an error code in a0 and a value in a1.
pub open spec fn answered(s: CpuState, error: int, value: int) -> CpuState {
    CpuState {
        regs: s.regs.update(10, (error % span(s.xlen)) as u64).update(
            11,
            (value % span(s.xlen)) as u64,
        ),
        ..s
    }
}

/// The state with a single result, in a0.
pub open spec fn returned(s: CpuState, value: int) -> CpuState {
    CpuState { regs: s.regs.update(10, (value % span(s.xlen)) as u64), ..s }
}

proof fn lemma_answered(s: CpuState, error: int, value: u64)
    requires
        s.regs.len() == 32,
        -2 <= error <= 0,
    ensures
        s.set_x(10, s.xlen.wrap(error)).set_x(11, value) == answered(s, error, value as int),
{
    isa::lemma_readings(s.xlen, 0, error);
    isa::lemma_readings(s.xlen, 0, value as int);
    isa::lemma_readings(s.xlen, s.xlen.wrap(error), s.xlen.wrap(error) as int);
    assert(s.xlen.wrap(s.xlen.wrap(error) as int) == s.xlen.wrap(error));
}

proof fn lemma_returned(s: CpuState, value: int)
    requires
        s.regs.len() == 32,
        -2 <= value < 0x100,
    ensures
        s.set_x(10, s.xlen.wrap(value)) == returned(s, value),
        value >= 0 ==> s.set_x(10, value as u64) == returned(s, value),
{
    isa::lemma_readings(s.xlen, 0, value);
    isa::lemma_readings(s.xlen, s.xlen.wrap(value), s.xlen.wrap(value) as int);
    assert(s.xlen.wrap(s.xlen.wrap(value) as int) == s.xlen.wrap(value));
}

/// Setting the timer changes the number that the time is compared with, takes
/// back a timer interrupt of supervisor mode that is pending, and has the next
/// one raised.
pub proof fn law_what_setting_the_timer_does(s: CpuState, when: u64, k: u64)
    requires
        s.csrs.wf(),
        k < 64,
    ensures
        ({
            let t = s.set_timer(when);
            &&& t.mem.clint.mtimecmp == when
            &&& t.mem.clint.mtime == s.mem.clint.mtime
            &&& t.mem.clint.msip == s.mem.clint.msip
            &&& t.timer_armed
            &&& bit(t.csrs.regs[0x344], k) == (bit(s.csrs.regs[0x344], k) && k != 5)
            &&& t.csrs == (CsrState {
                regs: s.csrs.regs.update(0x344, t.csrs.regs[0x344]),
                ..s.csrs
            })
            &&& t == (CpuState {
                mem: MemState { clint: t.mem.clint, ..s.mem },
                timer_armed: true,
                csrs: t.csrs,
                ..s
            })
        }),
{
    lemma_both(s.csrs.regs[0x344], 0x20, k);
    lemma_one(k);
}

proof fn lemma_one(k: u64)
    by (bit_vector)
    requires
        k < 64,
    ensures
        (0x20u64 >> k) & 1 == 1 <==> k == 5,
        (0x2u64 >> k) & 1 == 1 <==> k == 1,
{
}

/// The state with the low byte of a number given to the console.
pub open spec fn put(s: CpuState, v: u64) -> CpuState {
    CpuState { mem: MemState { uart: s.mem.uart.write(0, v), ..s.mem }, ..s }
}

/// The oldest calls have their number in a7, below 16, and return in a0 alone:
/// the timer (0), a byte to the console (1), a byte from it or minus one (2),
/// five that one hart has nothing to do for (3 to 7), and the one that stops
/// the machine (8). The rest are refused.
pub proof fn law_the_oldest_calls(s: CpuState)
    requires
        s.wf(),
        s.regs[17] < 16,
    ensures
        ({
            let (n, a0) = (s.regs[17], s.regs[10]);
            let u = s.mem.uart;
            s.sbi_call() == if n == 0 {
                (returned(s.set_timer(a0), 0), true)
            } else if n == 1 {
                (returned(put(s, a0), 0), true)
            } else if n == 2 {
                if u.rx.len() == 0 {
                    (returned(s, -1), true)
                } else {
                    let taken = UartState { rx: u.rx.subrange(1, u.rx.len() as int), ..u };
                    (
                        returned(
                            CpuState { mem: MemState { uart: taken, ..s.mem }, ..s },
                            u.rx[0] as int,
                        ),
                        true,
                    )
                }
            } else if n <= 7 {
                (returned(s, 0), true)
            } else if n == 8 {
                (s, false)
            } else {
                (returned(s, -2), true)
            }
        }),
{
    let u = s.mem.uart;
    lemma_inputs(s);
    lemma_returned(s.set_timer(s.regs[10]), 0);
    lemma_returned(put(s, s.regs[10]), 0);
    lemma_returned(s, 0);
    lemma_returned(s, -1);
    lemma_returned(s, -2);
    if u.rx.len() > 0 {
        let taken = u.take_input();
        assert(u.rx.drop_first() =~= u.rx.subrange(1, u.rx.len() as int));
        lemma_returned(
            CpuState { mem: MemState { uart: taken, ..s.mem }, ..s },
            u.rx[0] as int,
        );
    }
}

proof fn lemma_inputs(s: CpuState)
    requires
        s.wf(),
    ensures
        s.x(17) == s.regs[17],
        s.x(16) == s.regs[16],
        s.x(10) == s.regs[10],
        s.x(11) == s.regs[11],
{
    isa::lemma_readings(s.xlen, s.regs[17], 0);
    isa::lemma_readings(s.xlen, s.regs[16], 0);
    isa::lemma_readings(s.xlen, s.regs[10], 0);
    isa::lemma_readings(s.xlen, s.regs[11], 0);
}

/// Whether probing for an extension finds it. The names of the modern ones are
/// spelt in ASCII: TIME, sPI, RFNC, HSM, SRST and DBCN.
pub open spec fn is_there(e: u64) -> bool {
    ||| e <= 2
    ||| e == 8
    ||| e == 0x10
    ||| e == 0x5449_4d45
    ||| e == 0x73_5049
    ||| e == 0x5246_4e43
    ||| e == 0x48_534d
    ||| e == 0x5352_5354
    ||| e == 0x4442_434e
}

/// The base extension says what there is: version 2.0 of the interface, an
/// implementation numbered 3 of version 1, whether an extension is there, and
/// zero for who made the hart.
pub proof fn law_the_base_calls(s: CpuState)
    requires
        s.wf(),
        s.regs[17] == 0x10,
    ensures
        ({
            let (f, a0) = (s.regs[16], s.regs[10]);
            s.sbi_call() == if f == 0 {
                (answered(s, 0, 0x200_0000), true)
            } else if f == 1 {
                (answered(s, 0, 3), true)
            } else if f == 2 {
                (answered(s, 0, 1), true)
            } else if f == 3 {
                (answered(s, 0, if is_there(a0) { 1 } else { 0 }), true)
            } else if f <= 6 {
                (answered(s, 0, 0), true)
            } else {
                (answered(s, -2, 0), true)
            }
        }),
{
    lemma_inputs(s);
    lemma_answered(s, 0, 0x200_0000);
    lemma_answered(s, 0, 3);
    lemma_answered(s, 0, 1);
    lemma_answered(s, 0, 0);
    lemma_answered(s, -2, 0);
}

/// Every other call. Function 0 of TIME sets the timer. Function 0 of sPI
/// raises the software interrupt where the mask in a0, counted from the hart
/// in a1, names this hart, or where a1 says all of them. RFNC and function 2
/// of HSM have nothing to do. Function 0 of SRST stops the machine. Function 0
/// of DBCN sends a0 bytes from the address in a1 to the console, and function
/// 2 the byte in a0. There is nothing else, and it is refused.
pub proof fn law_the_other_calls(s: CpuState, k: u64)
    requires
        s.wf(),
        s.regs[17] > 0x10,
        k < 64,
    ensures
        ({
            let (e, f, a0, a1) = (s.regs[17], s.regs[16], s.regs[10], s.regs[11]);
            let o = s.sbi_call();
            if e == 0x5449_4d45 && f == 0 {
                o == (answered(s.set_timer(a0), 0, 0), true)
            } else if e == 0x73_5049 && f == 0 {
                let hit = a1 == span(s.xlen) - 1 || a1 == 0 && a0 % 2 == 1;
                let mip = o.0.csrs.regs[0x344];
                &&& o == (
                    answered(
                        CpuState {
                            csrs: CsrState { regs: s.csrs.regs.update(0x344, mip), ..s.csrs },
                            ..s
                        },
                        0,
                        0,
                    ),
                    true,
                )
                &&& bit(mip, k) == (bit(s.csrs.regs[0x344], k) || k == 1 && hit)
            } else if e == 0x5246_4e43 || e == 0x48_534d && f == 2 {
                o == (answered(s, 0, 0), true)
            } else if e == 0x5352_5354 && f == 0 {
                o == (s, false)
            } else if e == 0x4442_434e && f == 0 {
                o == (
                    answered(
                        CpuState {
                            mem: sbi::spec_console_write(s.mem, a1 as int, a0 as nat),
                            ..s
                        },
                        0,
                        a0 as int,
                    ),
                    true,
                )
            } else if e == 0x4442_434e && f == 2 {
                o == (answered(put(s, a0), 0, 0), true)
            } else {
                o == (answered(s, -2, 0), true)
            }
        }),
{
    let (a0, a1) = (s.regs[10], s.regs[11]);
    lemma_inputs(s);
    lemma_one(k);
    lemma_both(s.csrs.regs[0x344], 0x2, k);
    isa::lemma_readings(s.xlen, 0, -1);
    assert(s.xlen.wrap(-1) == span(s.xlen) - 1);
    lemma_answered(s.set_timer(a0), 0, 0);
    let raised = CpuState { csrs: s.csrs.set_bits(0x344, 0x2), ..s };
    lemma_answered(raised, 0, 0);
    lemma_answered(s, 0, 0);
    lemma_answered(s, -2, 0);
    lemma_answered(put(s, a0), 0, 0);
    lemma_answered(
        CpuState { mem: sbi::spec_console_write(s.mem, a1 as int, a0 as nat), ..s },
        0,
        a0,
    );
    let mip = s.csrs.regs[0x344];
    assert(s.csrs.regs.update(0x344, mip) =~= s.csrs.regs);
}

/// A buffer that runs past the end of DRAM is sent up to there, and what lies
/// past it is not.
pub proof fn law_the_console_stops_at_the_end_of_memory(mem: MemState, addr: u64, len: nat)
    requires
        0x8000_0000 <= addr <= 0x8000_0000 + mem.dram.len() <= addr + len,
        0x8000_0000 + mem.dram.len() < u64::MAX,
        mem.uart.lcr < 0x80,
    ensures
        ({
            let after = sbi::spec_console_write(mem, addr as int, len);
            let from = addr - 0x8000_0000;
            &&& after.uart.tx == mem.uart.tx + mem.dram.subrange(from, mem.dram.len() as int)
            &&& after == (MemState {
                uart: UartState { tx: after.uart.tx, ..mem.uart },
                ..mem
            })
        }),
    decreases len,
{
    let from = addr - 0x8000_0000;
    let end = mem.dram.len() as int;
    let rest = mem.dram.subrange(from, end);
    if from == end {
        assert(mem.uart.tx + rest =~= mem.uart.tx);
    } else {
        memory::laws::law_dram_is_where_it_is(mem, addr, 1, 0);
        let b = mem.dram[from] as u64;
        memory::laws::law_writing_the_console(mem, 0, 1, b);
        memory::laws::lemma_cut(b, 1);
        let next = MemState { uart: mem.uart.write(0, b), ..mem };
        assert(next.uart == (UartState { tx: mem.uart.tx.push(mem.dram[from]), ..mem.uart }));
        law_the_console_stops_at_the_end_of_memory(next, (addr + 1) as u64, (len - 1) as nat);
        assert(mem.uart.tx.push(mem.dram[from]) + mem.dram.subrange(from + 1, end)
            =~= mem.uart.tx + rest);
    }
}

} // verus!
