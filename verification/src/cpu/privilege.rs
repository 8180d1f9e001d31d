//! Traps, interrupts and the SYSTEM instructions, said of the bits of the
//! registers: which interrupt is taken, what a trap saves and where it leads,
//! and what a return gives back.

use crate::cpu::isa::{self, dest, major, minor, opcode, refused, retired, span, src1};
use crate::cpu::step;
use crate::cpu::{CpuState, Outcome, Xlen};
use crate::decode;
use crate::trap::{Access, Exception, Priv};
use vstd::prelude::*;

verus! {

/// Whether bit `k` of a register is set.
pub open spec fn bit(v: u64, k: u64) -> bool {
    (v >> k) & 1 == 1
}

/// The interrupts there are: software, timer and external, of supervisor mode
/// (1, 5 and 9) and of machine mode (3, 7 and 11).
pub open spec fn is_interrupt(c: u64) -> bool {
    c < 12 && (c % 4 == 1 || c % 4 == 3)
}

/// How urgent an interrupt is, the smaller the sooner: machine level before
/// supervisor level, and external before software before timer.
pub open spec fn rank(c: u64) -> int {
    (if c % 4 == 3 {
        0int
    } else {
        3
    }) + (if c >= 9 {
        0int
    } else if c < 4 {
        1
    } else {
        2
    })
}

proof fn lemma_interrupt_bits(v: u64)
    by (bit_vector)
    ensures
        (v & 0x800 != 0) == ((v >> 11) & 1 == 1),
        (v & 0x8 != 0) == ((v >> 3) & 1 == 1),
        (v & 0x80 != 0) == ((v >> 7) & 1 == 1),
        (v & 0x200 != 0) == ((v >> 9) & 1 == 1),
        (v & 0x2 != 0) == ((v >> 1) & 1 == 1),
        (v & 0x20 != 0) == ((v >> 5) & 1 == 1),
        (v & 0x100 != 0) == ((v >> 8) & 1 == 1),
        (v & 0x10_0000 != 0) == ((v >> 20) & 1 == 1),
        (v & 0x20_0000 != 0) == ((v >> 21) & 1 == 1),
        (v & 0x40_0000 != 0) == ((v >> 22) & 1 == 1),
        (v & 0x6000 != 0) == ((v >> 13) & 1 == 1 || (v >> 14) & 1 == 1),
        (v & 1 != 0) == ((v >> 0) & 1 == 1),
        (v & 2 != 0) == ((v >> 1) & 1 == 1),
        (v & 4 != 0) == ((v >> 2) & 1 == 1),
        (v & 0x1800) >> 11 == 0 <==> (v >> 11) & 1 == 0 && (v >> 12) & 1 == 0,
        (v & 0x1800) >> 11 == 1 <==> (v >> 11) & 1 == 1 && (v >> 12) & 1 == 0,
        forall|k: u64| #![auto] (v >> k) & 1 == 0 || (v >> k) & 1 == 1,
{
}

pub proof fn lemma_both(a: u64, b: u64, k: u64)
    by (bit_vector)
    requires
        k < 64,
    ensures
        ((a & b) >> k) & 1 == 1 <==> (a >> k) & 1 == 1 && (b >> k) & 1 == 1,
        ((a & !b) >> k) & 1 == 1 <==> (a >> k) & 1 == 1 && (b >> k) & 1 != 1,
        ((a | b) >> k) & 1 == 1 <==> (a >> k) & 1 == 1 || (b >> k) & 1 == 1,
{
}

/// Of some pending interrupts the most urgent is found, and none only where
/// there is none.
pub proof fn law_the_most_urgent_comes_first(pending: u64, other: u64)
    ensures
        match step::spec_most_urgent(pending) {
            Some(c) => is_interrupt(c) && bit(pending, c) && (is_interrupt(other) && bit(
                pending,
                other,
            ) ==> other == c || rank(c) < rank(other)),
            None => is_interrupt(other) ==> !bit(pending, other),
        },
{
    lemma_interrupt_bits(pending);
}

/// Whether an interrupt may be taken: it is pending and enabled, and the level
/// it goes to is open to it. A delegated one goes to supervisor mode, which
/// user mode is always open to and supervisor mode where its enable says so;
/// any other goes to machine mode, which is closed only to itself.
pub open spec fn may_interrupt(s: CpuState, c: u64) -> bool {
    let r = s.csrs.regs;
    &&& is_interrupt(c)
    &&& bit(r[0x344], c)
    &&& bit(r[0x304], c)
    &&& if bit(r[0x303], c) {
        s.priv_mode == Priv::User || s.priv_mode == Priv::Supervisor && bit(r[0x300], 1)
    } else {
        s.priv_mode != Priv::Machine || bit(r[0x300], 3)
    }
}

/// The interrupt that is taken is one that may be. One that machine mode keeps
/// comes before any that it delegates, and among those the most urgent comes
/// first. None is taken only where none may be.
pub proof fn law_the_interrupt_that_is_taken(s: CpuState, other: u64)
    ensures
        match s.interrupt() {
            Some(c) => may_interrupt(s, c) && (may_interrupt(s, other) ==> {
                let (mine, its) = (bit(s.csrs.regs[0x303], c), bit(s.csrs.regs[0x303], other));
                ||| other == c
                ||| !mine && its
                ||| mine == its && rank(c) < rank(other)
            }),
            None => !may_interrupt(s, other),
        },
{
    let r = s.csrs.regs;
    let pending = r[0x344] & r[0x304];
    let deleg = r[0x303];
    lemma_interrupt_bits(r[0x300]);
    law_the_most_urgent_comes_first(pending & !deleg, other);
    law_the_most_urgent_comes_first(pending & deleg, other);
    if is_interrupt(other) {
        lemma_both(r[0x344], r[0x304], other);
        lemma_both(pending, deleg, other);
    }
    if let Some(c) = step::spec_most_urgent(pending & !deleg) {
        lemma_both(r[0x344], r[0x304], c);
        lemma_both(pending, deleg, c);
    }
    if let Some(c) = step::spec_most_urgent(pending & deleg) {
        lemma_both(r[0x344], r[0x304], c);
        lemma_both(pending, deleg, c);
    }
}

/// Every exception has the cause number the privileged architecture gives it,
/// and only a call has one per mode. An access that faults reports its
/// address, and an instruction that does not exist reports itself.
pub proof fn law_cause_numbers(a: u64, w: u32, mode: Priv)
    ensures
        Exception::InstructionAccessFault(a).spec_cause_in(mode) == 1,
        Exception::IllegalInstruction(w).spec_cause_in(mode) == 2,
        Exception::Breakpoint.spec_cause_in(mode) == 3,
        Exception::LoadAddressMisaligned(a).spec_cause_in(mode) == 4,
        Exception::LoadAccessFault(a).spec_cause_in(mode) == 5,
        Exception::StoreAddressMisaligned(a).spec_cause_in(mode) == 6,
        Exception::StoreAccessFault(a).spec_cause_in(mode) == 7,
        Exception::EnvironmentCall.spec_cause_in(Priv::User) == 8,
        Exception::EnvironmentCall.spec_cause_in(Priv::Supervisor) == 9,
        Exception::EnvironmentCall.spec_cause_in(Priv::Machine) == 11,
        Exception::EnvironmentCall.spec_cause() == 11,
        Exception::InstructionPageFault(a).spec_cause_in(mode) == 12,
        Exception::LoadPageFault(a).spec_cause_in(mode) == 13,
        Exception::StorePageFault(a).spec_cause_in(mode) == 15,
        Exception::InstructionAccessFault(a).spec_tval() == a,
        Exception::IllegalInstruction(w).spec_tval() == w,
        Exception::Breakpoint.spec_tval() == 0,
        Exception::LoadAddressMisaligned(a).spec_tval() == a,
        Exception::LoadAccessFault(a).spec_tval() == a,
        Exception::StoreAddressMisaligned(a).spec_tval() == a,
        Exception::StoreAccessFault(a).spec_tval() == a,
        Exception::EnvironmentCall.spec_tval() == 0,
        Exception::InstructionPageFault(a).spec_tval() == a,
        Exception::LoadPageFault(a).spec_tval() == a,
        Exception::StorePageFault(a).spec_tval() == a,
        Exception::spec_page_fault(Access::Fetch, a) == Exception::InstructionPageFault(a),
        Exception::spec_page_fault(Access::Load, a) == Exception::LoadPageFault(a),
        Exception::spec_page_fault(Access::Store, a) == Exception::StorePageFault(a),
        Exception::spec_access_fault(Access::Fetch, a) == Exception::InstructionAccessFault(a),
        Exception::spec_access_fault(Access::Load, a) == Exception::LoadAccessFault(a),
        Exception::spec_access_fault(Access::Store, a) == Exception::StoreAccessFault(a),
{
}

/// The two-bit number of a mode.
pub open spec fn level(mode: Priv) -> int {
    match mode {
        Priv::User => 0,
        Priv::Supervisor => 1,
        Priv::Machine => 3,
    }
}

proof fn lemma_machine_entry(status: u64, mpp: u64, k: u64)
    by (bit_vector)
    requires
        mpp == 0 || mpp == 0x800 || mpp == 0x1800,
        k < 64,
    ensures
        ({
            let cleared = status & !(0x8u64 | 0x80u64 | 0x1800u64);
            let after = (if status & 0x8 != 0 {
                cleared | 0x80
            } else {
                cleared
            }) | mpp;
            &&& (after >> 3) & 1 == 0
            &&& (after >> 7) & 1 == (status >> 3) & 1
            &&& (after >> 11) & 3 == mpp >> 11
            &&& (after >> 11) & 1 == 1 <==> mpp != 0
            &&& (after >> 12) & 1 == 1 <==> mpp == 0x1800
            &&& k != 3 && k != 7 && k != 11 && k != 12 ==> (after >> k) & 1 == (status >> k) & 1
        }),
{
}

proof fn lemma_supervisor_entry(status: u64, from: bool, k: u64)
    by (bit_vector)
    requires
        k < 64,
    ensures
        ({
            let cleared = status & !(0x2u64 | 0x20u64 | 0x100u64);
            let saved = if status & 0x2 != 0 {
                cleared | 0x20
            } else {
                cleared
            };
            let after = if from {
                saved | 0x100
            } else {
                saved
            };
            &&& (after >> 1) & 1 == 0
            &&& (after >> 5) & 1 == (status >> 1) & 1
            &&& (after >> 8) & 1 == 1 <==> from
            &&& k != 1 && k != 5 && k != 8 ==> (after >> k) & 1 == (status >> k) & 1
        }),
{
}

proof fn lemma_tvec(v: u64)
    by (bit_vector)
    ensures
        v & !3 == 4 * (v / 4),
        v & 3 == v % 4,
{
}

/// Where a trap goes: to supervisor mode where its bit of `mideleg` (for an
/// interrupt) or `medeleg` is set and it does not come from machine mode.
pub open spec fn goes_down(s: CpuState, cause: u64, interrupt: bool) -> bool {
    s.priv_mode != Priv::Machine && bit(
        if interrupt {
            s.csrs.regs[0x303]
        } else {
            s.csrs.regs[0x302]
        },
        cause,
    )
}

/// A trap saves the address it came from, its cause and its value in the
/// registers of the mode it goes to, and goes to the address that mode's
/// vector holds: the number above the low two bits, and for an interrupt in
/// vectored mode four bytes on for each cause.
pub proof fn law_a_trap_leads_to_its_vector(
    s: CpuState,
    cause: u64,
    interrupt: bool,
    tval: u64,
    epc: u64,
    a: int,
)
    requires
        s.csrs.regs.len() == 4096,
        cause < 16,
        0 <= a < 4096,
    ensures
        ({
            let t = s.trap(cause, interrupt, tval, epc);
            let down = goes_down(s, cause, interrupt);
            let base: int = if down {
                0x100
            } else {
                0x300
            };
            let tvec = s.csrs.regs[base + 5];
            let fan: int = if interrupt && tvec % 4 == 1 {
                4 * cause
            } else {
                0
            };
            let sign: int = if interrupt {
                span(s.xlen) / 2
            } else {
                0
            };
            &&& t == (CpuState { pc: t.pc, priv_mode: t.priv_mode, csrs: t.csrs, ..s })
            &&& t.csrs.xlen == s.csrs.xlen
            &&& t.priv_mode == if down {
                Priv::Supervisor
            } else {
                Priv::Machine
            }
            &&& t.pc == (4 * (tvec / 4) + fan) % span(s.xlen)
            &&& t.csrs.regs.len() == 4096
            &&& t.csrs.regs[base + 0x41] == epc
            &&& t.csrs.regs[base + 0x42] == sign + cause
            &&& t.csrs.regs[base + 0x43] == tval as int % span(s.xlen)
            &&& a != 0x300 && !(base + 0x41 <= a <= base + 0x43) ==> t.csrs.regs[a]
                == s.csrs.regs[a]
        }),
{
    let stvec = s.csrs.regs[0x105];
    let mtvec = s.csrs.regs[0x305];
    lemma_tvec(stvec);
    lemma_tvec(mtvec);
    isa::lemma_readings(s.xlen, 0, tval as int);
    isa::lemma_readings(s.xlen, 0, 4 * (stvec / 4) + 4 * cause);
    isa::lemma_readings(s.xlen, 0, 4 * (mtvec / 4) + 4 * cause);
    isa::lemma_readings(s.xlen, 0, 4 * (stvec / 4) as int);
    isa::lemma_readings(s.xlen, 0, 4 * (mtvec / 4) as int);
    match s.xlen {
        Xlen::Rv32 => {},
        Xlen::Rv64 => {},
    }
}

/// On entry to a handler interrupts of its mode are off, what they were is
/// kept beside the mode the trap came from, and no other bit of `mstatus`
/// moves.
pub proof fn law_a_trap_saves_the_mode(
    s: CpuState,
    cause: u64,
    interrupt: bool,
    tval: u64,
    epc: u64,
    k: u64,
)
    requires
        s.csrs.regs.len() == 4096,
        k < 64,
    ensures
        ({
            let before = s.csrs.regs[0x300];
            let after = s.trap(cause, interrupt, tval, epc).csrs.regs[0x300];
            if goes_down(s, cause, interrupt) {
                &&& !bit(after, 1)
                &&& bit(after, 5) == bit(before, 1)
                &&& bit(after, 8) == (s.priv_mode == Priv::Supervisor)
                &&& k != 1 && k != 5 && k != 8 ==> bit(after, k) == bit(before, k)
            } else {
                &&& !bit(after, 3)
                &&& bit(after, 7) == bit(before, 3)
                &&& bit(after, 11) == (s.priv_mode != Priv::User)
                &&& bit(after, 12) == (s.priv_mode == Priv::Machine)
                &&& k != 3 && k != 7 && k != 11 && k != 12 ==> bit(after, k) == bit(before, k)
            }
        }),
{
    let before = s.csrs.regs[0x300];
    lemma_machine_entry(before, step::spec_mpp(s.priv_mode), k);
    lemma_supervisor_entry(before, s.priv_mode == Priv::Supervisor, k);
}

proof fn lemma_mret_status(status: u64, stays: bool, k: u64)
    by (bit_vector)
    requires
        k < 64,
    ensures
        ({
            let popped = (status & !(0x8u64 | 0x1800u64)) | 0x80;
            let enabled = if status & 0x80 != 0 {
                popped | 0x8
            } else {
                popped
            };
            let after = if !stays {
                enabled & !0x2_0000
            } else {
                enabled
            };
            &&& (after >> 3) & 1 == (status >> 7) & 1
            &&& (after >> 7) & 1 == 1
            &&& (after >> 11) & 1 == 0
            &&& (after >> 12) & 1 == 0
            &&& (after >> 17) & 1 == 1 <==> stays && (status >> 17) & 1 == 1
            &&& k != 3 && k != 7 && k != 11 && k != 12 && k != 17 ==> (after >> k) & 1 == (status
                >> k) & 1
        }),
{
}

proof fn lemma_sret_status(status: u64, k: u64)
    by (bit_vector)
    requires
        k < 64,
    ensures
        ({
            let popped = (status & !(0x2u64 | 0x100u64 | 0x2_0000u64)) | 0x20;
            let after = if status & 0x20 != 0 {
                popped | 0x2
            } else {
                popped
            };
            &&& (after >> 1) & 1 == (status >> 5) & 1
            &&& (after >> 5) & 1 == 1
            &&& (after >> 8) & 1 == 0
            &&& (after >> 17) & 1 == 0
            &&& k != 1 && k != 5 && k != 8 && k != 17 ==> (after >> k) & 1 == (status >> k) & 1
        }),
{
}

/// Whether `t` is the hart back from a handler of machine mode. It is in the
/// mode and at the address that the trap saved, and takes interrupts as it did
/// before; the saved mode is then the lowest.
pub open spec fn back_from_machine(s: CpuState, t: CpuState, k: u64, a: int) -> bool {
    let before = s.csrs.regs[0x300];
    let after = t.csrs.regs[0x300];
    let to = if !bit(before, 11) && !bit(before, 12) {
        Priv::User
    } else if bit(before, 11) && !bit(before, 12) {
        Priv::Supervisor
    } else {
        Priv::Machine
    };
    &&& t == (CpuState { pc: t.pc, priv_mode: t.priv_mode, csrs: t.csrs, ..s })
    &&& t.csrs.xlen == s.csrs.xlen
    &&& t.priv_mode == to
    &&& t.pc == s.csrs.regs[0x341] as int % span(s.xlen)
    &&& bit(after, 3) == bit(before, 7)
    &&& bit(after, 7)
    &&& !bit(after, 11) && !bit(after, 12)
    &&& bit(after, 17) == (bit(before, 17) && to == Priv::Machine)
    &&& k < 64 && k != 3 && k != 7 && k != 11 && k != 12 && k != 17 ==> bit(after, k) == bit(
        before,
        k,
    )
    &&& 0 <= a < 4096 && a != 0x300 ==> t.csrs.regs[a] == s.csrs.regs[a]
}

/// Whether `t` is the hart back from a handler of supervisor mode.
pub open spec fn back_from_supervisor(s: CpuState, t: CpuState, k: u64, a: int) -> bool {
    let before = s.csrs.regs[0x300];
    let after = t.csrs.regs[0x300];
    &&& t == (CpuState { pc: t.pc, priv_mode: t.priv_mode, csrs: t.csrs, ..s })
    &&& t.csrs.xlen == s.csrs.xlen
    &&& t.priv_mode == if bit(before, 8) {
        Priv::Supervisor
    } else {
        Priv::User
    }
    &&& t.pc == s.csrs.regs[0x141] as int % span(s.xlen)
    &&& bit(after, 1) == bit(before, 5)
    &&& bit(after, 5)
    &&& !bit(after, 8) && !bit(after, 17)
    &&& k < 64 && k != 1 && k != 5 && k != 8 && k != 17 ==> bit(after, k) == bit(before, k)
    &&& 0 <= a < 4096 && a != 0x300 ==> t.csrs.regs[a] == s.csrs.regs[a]
}

proof fn lemma_returns(s: CpuState, k: u64, a: int)
    requires
        s.csrs.regs.len() == 4096,
    ensures
        back_from_machine(s, s.mret(), k, a),
        back_from_supervisor(s, s.sret(), k, a),
{
    let before = s.csrs.regs[0x300];
    let to = Priv::spec_from_bits((before & 0x1800) >> 11);
    let j: u64 = if k < 64 {
        k
    } else {
        0
    };
    lemma_interrupt_bits(before);
    lemma_mret_status(before, to == Priv::Machine, j);
    lemma_sret_status(before, j);
    isa::lemma_readings(s.xlen, 0, s.csrs.regs[0x341] as int);
    isa::lemma_readings(s.xlen, 0, s.csrs.regs[0x141] as int);
}

proof fn lemma_system(s: CpuState, w: u32, here: u64, next: u64)
    requires
        opcode(w) == 0x73,
    ensures
        s.execute(w, here, next) == s.jump(next).exec_system(w),
        decode::field(w, 31, 20) == w as int / 0x10_0000,
{
    reveal(CpuState::execute);
    isa::lemma_word(w);
    decode::lemma_fields(w);
    vstd::arithmetic::power2::lemma2_to64();
    assert((w as int / 0x10_0000) % 0x1000 == w as int / 0x10_0000);
}

/// An instruction that changes nothing but moves on.
pub open spec fn passed(s: CpuState, next: u64) -> Outcome {
    (CpuState { pc: next, ..s }, Ok(()))
}

/// The SYSTEM words without a register of their own: bits 31:20 select ECALL,
/// EBREAK, MRET, SRET and WFI, and bits 31:25 SFENCE.VMA. The firmware answers a
/// call from supervisor mode where it is there. What a mode may not do does not
/// exist for it, and neither does anything else.
pub proof fn law_system_words(s: CpuState, w: u32, here: u64, next: u64, k: u64, a: int)
    requires
        s.csrs.regs.len() == 4096,
        opcode(w) == 0x73,
        minor(w) == 0,
    ensures
        ({
            let f = w as int / 0x10_0000;
            let o = s.execute(w, here, next);
            let t = CpuState { pc: next, ..s };
            let status = s.csrs.regs[0x300];
            let above = |limit: u64|
                s.priv_mode == Priv::Machine || s.priv_mode == Priv::Supervisor && !bit(
                    status,
                    limit,
                );
            if f == 0 {
                if s.sbi && s.priv_mode == Priv::Supervisor {
                    let (after, running) = t.sbi_call();
                    o == (
                        CpuState { shutdown: after.shutdown || !running, ..after },
                        Ok::<(), Exception>(()),
                    )
                } else {
                    o == (t, Err::<(), Exception>(Exception::EnvironmentCall))
                }
            } else if f == 1 {
                o == (t, Err::<(), Exception>(Exception::Breakpoint))
            } else if f == 0x302 {
                if s.priv_mode == Priv::Machine {
                    o.1 is Ok && back_from_machine(s, o.0, k, a)
                } else {
                    o == refused(s, w, next)
                }
            } else if f == 0x102 {
                if above(22) {
                    o.1 is Ok && back_from_supervisor(s, o.0, k, a)
                } else {
                    o == refused(s, w, next)
                }
            } else if f == 0x105 {
                if s.priv_mode == Priv::Machine || !bit(status, 21) {
                    o == passed(s, next)
                } else {
                    o == refused(s, w, next)
                }
            } else if major(w) == 9 {
                if above(20) {
                    o == passed(s, next)
                } else {
                    o == refused(s, w, next)
                }
            } else {
                o == refused(s, w, next)
            }
        }),
{
    lemma_system(s, w, here, next);
    isa::lemma_word(w);
    let t = CpuState { pc: next, ..s };
    lemma_interrupt_bits(s.csrs.regs[0x300]);
    lemma_returns(t, k, a);
}

/// Whether there is a register at an address.
pub open spec fn is_register(a: int, xlen: Xlen) -> bool {
    ||| 1 <= a <= 3
    ||| a == 0x100
    ||| 0x104 <= a <= 0x106
    ||| 0x140 <= a <= 0x144
    ||| a == 0x180
    ||| 0x300 <= a <= 0x306
    ||| 0x340 <= a <= 0x344
    ||| 0x3a0 <= a <= 0x3bf
    ||| a == 0xb00
    ||| a == 0xb02
    ||| 0xc00 <= a <= 0xc02
    ||| 0xf11 <= a <= 0xf15
    ||| xlen == Xlen::Rv32 && (a == 0x310 || a == 0xb80 || a == 0xb82 || 0xc80 <= a <= 0xc82)
}

/// Whether a mode may read a register, or write it too. Bits 9:8 of its
/// address say which modes may, and its top two bits that it is only read. The
/// counters are gated one bit each, the registers of the floating-point unit
/// by that unit, and `satp` by a bit of `mstatus`.
pub open spec fn may_access(s: CpuState, a: int, write: bool) -> bool {
    let r = s.csrs.regs;
    let counter = if 0xc00 <= a <= 0xc02 {
        a - 0xc00
    } else if 0xc80 <= a <= 0xc82 {
        a - 0xc80
    } else {
        -1
    };
    &&& is_register(a, s.xlen)
    &&& level(s.priv_mode) >= (a / 0x100) % 4
    &&& a >= 0xc00 ==> !write
    &&& counter >= 0 && s.priv_mode != Priv::Machine ==> bit(r[0x306], counter as u64)
    &&& counter >= 0 && s.priv_mode == Priv::User ==> bit(r[0x106], counter as u64)
    &&& 1 <= a <= 3 ==> bit(r[0x300], 13) || bit(r[0x300], 14)
    &&& a == 0x180 && s.priv_mode == Priv::Supervisor ==> !bit(r[0x300], 20)
}

/// Which registers there are, and which mode may do what with them.
pub proof fn law_who_may_access_a_register(s: CpuState, a: u16, write: bool)
    requires
        a < 4096,
    ensures
        s.csr_allowed(a, write) == may_access(s, a as int, write),
{
    lemma_interrupt_bits(s.csrs.regs[0x300]);
    lemma_interrupt_bits(s.csrs.regs[0x306]);
    lemma_interrupt_bits(s.csrs.regs[0x106]);
}

/// What a CSR instruction writes, from what was there and its operand: the
/// operand, or all bits of both, or those of the first that are not in the
/// second.
pub open spec fn written(f3: int, was: u64, operand: u64) -> u64 {
    if f3 % 4 == 1 {
        operand
    } else if f3 % 4 == 2 {
        was | operand
    } else {
        was & !operand
    }
}

/// The CSR instructions: bits 31:20 name the register, and the first source,
/// or its number itself where bit 14 is set, is the operand. The destination
/// gets what was there. Setting or clearing with source number zero only
/// reads.
pub proof fn law_csr_words(s: CpuState, w: u32, here: u64, next: u64)
    requires
        s.wf(),
        opcode(w) == 0x73,
        minor(w) != 0,
    ensures
        ({
            let a = w as int / 0x10_0000;
            let write = minor(w) % 4 == 1 || src1(w) != 0;
            let was = (s.csrs.read(a as u16) as int % span(s.xlen)) as u64;
            let operand = if minor(w) >= 4 {
                src1(w) as u64
            } else {
                s.regs[src1(w)]
            };
            let t = CpuState { pc: next, ..s };
            let done = if write {
                t.write_csr(a as u16, written(minor(w), was, operand))
            } else {
                t
            };
            s.execute(w, here, next) == if minor(w) == 4 || !may_access(s, a, write) {
                refused(s, w, next)
            } else {
                retired(done, next, dest(w), was as int)
            }
        }),
{
    let a = w as int / 0x10_0000;
    let write = minor(w) % 4 == 1 || src1(w) != 0;
    let t = CpuState { pc: next, ..s };
    lemma_system(s, w, here, next);
    isa::lemma_word(w);
    isa::lemma_operands(s, w);
    assert(t.x(src1(w) as nat) == s.regs[src1(w)]);
    law_who_may_access_a_register(t, a as u16, write);
    let was = s.csrs.read(a as u16);
    isa::lemma_readings(s.xlen, 0, was as int);
    isa::lemma_readings(s.xlen, s.xlen.wrap(was as int), s.xlen.wrap(was as int) as int);
}

/// Writing a register of the floating-point unit makes its state dirty, and
/// writing the count of retired instructions keeps the write itself from being
/// counted. Nothing else but the register changes.
pub proof fn law_what_a_csr_write_does(s: CpuState, a: u16, v: u64, k: u64)
    requires
        s.csrs.regs.len() == 4096,
        a < 4096,
        k < 64,
    ensures
        ({
            let t = s.write_csr(a, v);
            let plain = s.csrs.write(a, v);
            &&& t == (CpuState { csrs: t.csrs, wrote_instret: t.wrote_instret, ..s })
            &&& t.wrote_instret == (s.wrote_instret || a == 0xb02 || a == 0xb82)
            &&& !(1 <= a <= 3) ==> t.csrs == plain
            &&& 1 <= a <= 3 ==> t.csrs == (crate::csr::CsrState {
                regs: plain.regs.update(0x300, t.csrs.regs[0x300]),
                ..plain
            }) && bit(t.csrs.regs[0x300], k) == (bit(plain.regs[0x300], k) || k == 13 || k == 14)
        }),
{
    lemma_both(s.csrs.write(a, v).regs[0x300], 0x6000, k);
    lemma_fs_bits(k);
}

proof fn lemma_fs_bits(k: u64)
    by (bit_vector)
    requires
        k < 64,
    ensures
        (0x6000u64 >> k) & 1 == 1 <==> k == 13 || k == 14,
{
}

} // verus!
