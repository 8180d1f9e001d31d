//! What happens between one instruction and the next, in numbers: the clock
//! and the interrupt lines, how an instruction is fetched, how an access meets
//! the end of a page, how a run ends, and what a hart starts from.

use crate::compress;
use crate::cpu::isa::{self, in_dram, number, poked, span};
use crate::cpu::privilege::{bit, lemma_both};
use crate::cpu::{self, CpuState, Exit, Xlen};
use crate::csr::CsrState;
use crate::elf::{ElfState, SegmentState};
use crate::memory::{self, MemState};
use crate::mmu;
use crate::trap::{Access, Exception, Priv};
use vstd::arithmetic::div_mod::*;
use vstd::arithmetic::power2::*;
use vstd::prelude::*;

verus! {

proof fn lemma_lines(k: u64)
    by (bit_vector)
    requires
        k < 64,
    ensures
        (0x8u64 >> k) & 1 == 1 <==> k == 3,
        (0x80u64 >> k) & 1 == 1 <==> k == 7,
        (0x800u64 >> k) & 1 == 1 <==> k == 11,
        (0x200u64 >> k) & 1 == 1 <==> k == 9,
        (0x20u64 >> k) & 1 == 1 <==> k == 5,
{
}

proof fn lemma_driven(s: CsrState, mask: u64, on: bool, k: u64)
    requires
        s.wf(),
        k < 64,
    ensures
        bit(s.drive_bits(0x344, mask, on).regs[0x344], k) == if bit(mask, k) {
            on
        } else {
            bit(s.regs[0x344], k)
        },
        s.drive_bits(0x344, mask, on) == (CsrState {
            regs: s.regs.update(0x344, s.drive_bits(0x344, mask, on).regs[0x344]),
            ..s
        }),
{
    lemma_both(s.regs[0x344], mask, k);
}

/// One more, and around to zero at the end.
pub open spec fn succ(v: u64) -> int {
    if v == 0xffff_ffff_ffff_ffff {
        0
    } else {
        v + 1
    }
}

/// A tick moves the time on by one. The console drives line 10, and the
/// pending bits follow: software from the timer's first bit, timer while the
/// time is not below the number compared with, external from what each context
/// is offered. Supervisor mode's timer is raised where the firmware has one
/// set, and no other bit moves.
#[verifier::rlimit(40)]
pub proof fn law_a_tick_drives_the_lines(s: CpuState, k: u64)
    requires
        s.csrs.wf(),
        k < 64,
    ensures
        ({
            let t = s.tick();
            let wired = s.mem.plic.set_level(10, s.mem.uart.is_interrupting());
            let due = t.mem.clint.mtime >= s.mem.clint.mtimecmp;
            &&& t.mem.clint.mtime == succ(s.mem.clint.mtime)
            &&& t.mem.clint.mtimecmp == s.mem.clint.mtimecmp
            &&& t.mem.clint.msip == s.mem.clint.msip
            &&& t.mem == (MemState { clint: t.mem.clint, plic: wired, ..s.mem })
            &&& bit(t.csrs.regs[0x344], k) == if k == 3 {
                s.mem.clint.msip % 2 == 1
            } else if k == 7 {
                due
            } else if k == 11 {
                wired.is_pending(0)
            } else if k == 9 {
                wired.is_pending(1)
            } else {
                bit(s.csrs.regs[0x344], k) || k == 5 && s.timer_armed && due
            }
        }),
{
    lemma_lines(k);
    let clint = s.mem.clint.spec_tick();
    let wired = s.mem.plic.set_level(10, s.mem.uart.is_interrupting());
    let due = clint.mtime >= clint.mtimecmp;
    let a = s.csrs.drive_bits(0x344, 0x8, clint.msip % 2 == 1);
    let b = a.drive_bits(0x344, 0x80, due);
    let c = b.drive_bits(0x344, 0x800, wired.is_pending(0));
    let d = c.drive_bits(0x344, 0x200, wired.is_pending(1));
    lemma_driven(s.csrs, 0x8, clint.msip % 2 == 1, k);
    lemma_driven(a, 0x80, due, k);
    lemma_driven(b, 0x800, wired.is_pending(0), k);
    lemma_driven(c, 0x200, wired.is_pending(1), k);
    lemma_driven(d, 0x20, true, k);
}

/// A tick counts in every counter of cycles: machine mode's own moves on from
/// wherever it was, and the two that user mode reads follow the count of
/// steps. It touches no other register but the pending bits.
pub proof fn law_a_tick_counts(s: CpuState, a: int)
    requires
        s.csrs.wf(),
        0 <= a < 4096,
    ensures
        ({
            let t = s.tick();
            &&& t.cycle == succ(s.cycle)
            &&& t.csrs.regs.len() == 4096
            &&& t.csrs.xlen == s.csrs.xlen
            &&& t.csrs.regs[0xb00] == succ(s.csrs.regs[0xb00])
            &&& t.csrs.regs[0xc00] == t.cycle
            &&& t.csrs.regs[0xc01] == t.cycle
            &&& a != 0x344 && a != 0xb00 && a != 0xc00 && a != 0xc01 ==> t.csrs.regs[a]
                == s.csrs.regs[a]
            &&& t == (CpuState {
                cycle: t.cycle,
                mem: t.mem,
                csrs: t.csrs,
                wrote_instret: false,
                ..s
            })
        }),
{
}

/// An instruction that completes is counted once, unless it wrote the count.
pub proof fn law_a_retired_instruction_is_counted(s: CpuState)
    requires
        s.csrs.wf(),
    ensures
        s.retire() == if s.wrote_instret {
            s
        } else {
            CpuState {
                csrs: CsrState {
                    regs: s.csrs.regs.update(0xc02, succ(s.csrs.regs[0xc02]) as u64),
                    ..s.csrs
                },
                ..s
            }
        },
{
}

/// A step is a tick and then one of four things. An interrupt that may be
/// taken is, with value 0, at the address of the instruction it comes before.
/// A fetch that faults traps at that address. An instruction sees the address
/// after its own bytes as the next one, and where it traps it is its own
/// address that is saved; where it does not it is counted.
pub proof fn law_what_a_step_does(s: CpuState)
    ensures
        ({
            let t = s.tick();
            let (fetched, word) = t.fetch();
            s.step() == match t.interrupt() {
                Some(c) => (t.trap(c, true, 0, s.pc), Ok::<(), Exception>(())),
                None => match word {
                    Err(e) => (
                        fetched.trap(
                            e.spec_cause_in(s.priv_mode),
                            false,
                            e.spec_tval(),
                            s.pc,
                        ),
                        Err::<(), Exception>(e),
                    ),
                    Ok((w, len)) => {
                        let (done, result) = fetched.execute(
                            w,
                            s.pc,
                            ((s.pc + len) % span(s.xlen)) as u64,
                        );
                        match result {
                            Ok(_) => (done.retire(), Ok::<(), Exception>(())),
                            Err(e) => (
                                done.trap(
                                    e.spec_cause_in(done.priv_mode),
                                    false,
                                    e.spec_tval(),
                                    s.pc,
                                ),
                                Err::<(), Exception>(e),
                            ),
                        }
                    },
                },
            }
        }),
{
    reveal(CpuState::step);
    let t = s.tick();
    cpu::access::law_a_fetch_changes_only_memory(t);
    if let Ok((w, len)) = t.fetch().1 {
        isa::lemma_readings(s.xlen, 0, s.pc + len);
    }
}

/// Every access is translated by what `satp` and `mstatus` hold, in the mode
/// the hart is in, and finding the way changes nothing but memory.
pub proof fn law_what_an_access_is_translated_by(s: CpuState, va: u64, access: Access)
    ensures
        ({
            let (mem, found) = mmu::spec_translate(
                s.mem,
                s.xlen,
                s.csrs.regs[0x180],
                s.csrs.regs[0x300],
                s.priv_mode,
                va,
                access,
            );
            s.translate(va, access) == (CpuState { mem, ..s }, found)
        }),
{
    reveal(CpuState::translate);
}

/// The number that `n` bytes of DRAM spell, least significant first.
pub open spec fn spelt(d: Seq<u8>, i: int, n: int) -> int
    decreases n,
{
    if n <= 0 {
        0
    } else {
        d[i] + 0x100 * spelt(d, i + 1, n - 1)
    }
}

proof fn lemma_spelt(d: Seq<u8>, i: int, n: int)
    requires
        0 <= i,
        0 <= n,
        i + n <= d.len(),
    ensures
        memory::le_value(d.subrange(i, i + n)) == spelt(d, i, n),
        0 <= spelt(d, i, n) < pow2((8 * n) as nat),
    decreases n,
{
    memory::lemma_le_value_bound(d.subrange(i, i + n));
    if n > 0 {
        lemma_spelt(d, i + 1, n - 1);
        assert(d.subrange(i, i + n).drop_first() =~= d.subrange(i + 1, i + 1 + (n - 1)));
    }
}

proof fn lemma_split(d: Seq<u8>, i: int, m: int, n: int)
    requires
        0 <= m,
        0 <= n,
    ensures
        spelt(d, i, m + n) == spelt(d, i, m) + pow2((8 * m) as nat) * spelt(d, i + m, n),
    decreases m,
{
    lemma2_to64();
    if m == 0 {
        let q = spelt(d, i + m, n);
        assert(pow2((8 * m) as nat) * q == q) by (nonlinear_arith)
            requires
                pow2((8 * m) as nat) == 1,
        ;
    } else {
        lemma_split(d, i + 1, m - 1, n);
        lemma_pow2_adds(8, (8 * (m - 1)) as nat);
        let (p, q, r) = (
            pow2((8 * (m - 1)) as nat) as int,
            spelt(d, i + m, n),
            spelt(d, i + 1, m - 1),
        );
        assert(0x100 * (r + p * q) == 0x100 * r + (0x100 * p) * q) by (nonlinear_arith);
        assert(pow2((8 * m) as nat) == 0x100 * p);
        assert(spelt(d, i, m) == d[i] + 0x100 * r);
        assert(spelt(d, i, m + n) == d[i] + 0x100 * spelt(d, i + 1, (m - 1) + n));
    }
}

/// How many bytes of its page are at an address and after it.
pub open spec fn to_end(va: u64) -> int {
    0x1000 - va as int % 0x1000
}

/// A translated load that stays in its page reads where its address leads. One
/// that does not has the low bytes of its number from where its address leads,
/// and the rest from where the next page does, wherever that is.
pub proof fn law_a_load_meets_the_end_of_a_page(s: CpuState, va: u64, size: u64)
    requires
        !s.untranslated(Access::Load),
        size == 1 || size == 2 || size == 4 || size == 8,
    ensures
        ({
            let n = to_end(va);
            let (s1, first) = s.translate(va, Access::Load);
            let (s2, second) = s1.translate(((va + n) % span(s.xlen)) as u64, Access::Load);
            let d = s2.mem.dram;
            &&& first matches Err(e) ==> s.load(va, size) == (s1, Err::<u64, Exception>(e))
            &&& first matches Ok(pa) ==> size <= n && in_dram(s1, pa as int, size as int)
                ==> s.load(va, size) == (
                s1,
                Ok::<u64, Exception>(number(s1.mem.dram, pa - 0x8000_0000, size as int) as u64),
            )
            &&& size > n && first is Ok ==> {
                &&& second matches Err(e) ==> s.load(va, size) == (s2, Err::<u64, Exception>(e))
                &&& second is Ok ==> {
                    let (pa, pb) = (first->Ok_0 as int, second->Ok_0 as int);
                    in_dram(s2, pa, n) && in_dram(s2, pb, size - n) ==> s.load(va, size) == (
                        s2,
                        Ok::<u64, Exception>(
                            (spelt(d, pa - 0x8000_0000, n) + pow2((8 * n) as nat) * spelt(
                                d,
                                pb - 0x8000_0000,
                                size - n,
                            )) as u64,
                        ),
                    )
                }
            }
        }),
{
    reveal(CpuState::load);
    let n = to_end(va);
    let (s1, first) = s.translate(va, Access::Load);
    let (s2, second) = s1.translate(((va + n) % span(s.xlen)) as u64, Access::Load);
    let d = s2.mem.dram;
    isa::lemma_readings(s.xlen, 0, va + n);
    assert(CpuState::to_page_end(va) == n);
    if first is Ok {
        let pa = first->Ok_0;
        let i = pa - 0x8000_0000;
        if size <= n {
            if in_dram(s1, pa as int, size as int) {
                isa::lemma_number(s1.mem.dram, i, size as int);
            }
        } else if second is Ok {
            let pb = second->Ok_0;
            let j = pb - 0x8000_0000;
            if in_dram(s2, pa as int, n) && in_dram(s2, pb as int, size - n) {
                lemma_spelt(d, i, n);
                lemma_spelt(d, j, size - n);
                lemma_split(d, i, n, size - n);
                if pb == pa + n {
                    lemma_spelt(d, i, size as int);
                }
                crate::wide::lemma_pow2_monotone((8 * n) as nat, 56);
                crate::wide::lemma_pow2_monotone((8 * (size - n)) as nat, 56);
                lemma2_to64_rest();
                let rest = (size - n) as u64;
                let after = ((va + n) % span(s.xlen)) as u64;
                assert(s2.read_at(pb, rest, after, Access::Load) == (
                    s2,
                    Ok::<u64, Exception>(spelt(d, j, size - n) as u64),
                ));
                vstd::arithmetic::mul::lemma_mul_is_commutative(
                    pow2((8 * n) as nat) as int,
                    spelt(d, j, size - n),
                );
                assert(s2.read_at(pa, n as u64, va, Access::Load) == (
                    s2,
                    Ok::<u64, Exception>(spelt(d, i, n) as u64),
                ));
            }
        }
    }
}

/// A translated store puts its bytes where a load finds them. Both pages are
/// found before any byte is stored.
pub proof fn law_a_store_meets_the_end_of_a_page(s: CpuState, va: u64, size: u64, v: u64)
    requires
        !s.untranslated(Access::Store),
        size == 1 || size == 2 || size == 4 || size == 8,
    ensures
        ({
            let n = to_end(va);
            let (s1, first) = s.translate(va, Access::Store);
            let (s2, second) = s1.translate(((va + n) % span(s.xlen)) as u64, Access::Store);
            let (t, r) = s.store(va, size, v);
            &&& first matches Err(e) ==> (t, r) == (s1, Err::<(), Exception>(e))
            &&& first matches Ok(pa) ==> size <= n && in_dram(s1, pa as int, size as int) ==> {
                &&& r is Ok
                &&& t.mem.dram == poked(s1.mem.dram, pa - 0x8000_0000, size as int, v as int)
            }
            &&& size > n && first is Ok ==> {
                &&& second matches Err(e) ==> (t, r) == (s2, Err::<(), Exception>(e))
                &&& second is Ok ==> {
                    let (pa, pb) = (first->Ok_0 as int, second->Ok_0 as int);
                    in_dram(s2, pa, n) && in_dram(s2, pb, size - n) ==> {
                        &&& r is Ok
                        &&& t.mem.dram == poked(
                            poked(s2.mem.dram, pa - 0x8000_0000, n, v as int),
                            pb - 0x8000_0000,
                            size - n,
                            v as int / pow2((8 * n) as nat) as int,
                        )
                    }
                }
            }
        }),
{
    reveal(CpuState::store);
    let n = to_end(va);
    let (s1, first) = s.translate(va, Access::Store);
    let (s2, second) = s1.translate(((va + n) % span(s.xlen)) as u64, Access::Store);
    let d = s2.mem.dram;
    let (t, r) = s.store(va, size, v);
    isa::lemma_readings(s.xlen, 0, va + n);
    assert(CpuState::to_page_end(va) == n);
    lemma_pow2_pos((8 * n) as nat);
    lemma_div_pos_is_pos(v as int, pow2((8 * n) as nat) as int);
    lemma_div_is_ordered_by_denominator(v as int, 1, pow2((8 * n) as nat) as int);
    lemma_div_basics(v as int);
    if first is Ok {
        let pa = first->Ok_0;
        let i = pa - 0x8000_0000;
        if size <= n {
            if in_dram(s1, pa as int, size as int) {
                assert(t.mem.dram =~= poked(s1.mem.dram, i, size as int, v as int));
            }
        } else if second is Ok {
            let pb = second->Ok_0;
            let j = pb - 0x8000_0000;
            if in_dram(s2, pa as int, n) && in_dram(s2, pb as int, size - n) {
                let high = v as int / pow2((8 * n) as nat) as int;
                let once = poked(d, i, n, v as int);
                let twice = poked(once, j, size - n, high);
                assert(memory::overlay(d, i, memory::le_bytes(v as nat, n as nat)) =~= once);
                assert(memory::overlay(
                    once,
                    j,
                    memory::le_bytes(high as nat, (size - n) as nat),
                ) =~= twice);
                if pb == pa + n {
                    let whole = memory::overlay(d, i, memory::le_bytes(v as nat, size as nat));
                    assert forall|b: int| 0 <= b < d.len() implies whole[b] == twice[b] by {
                        if j <= b < j + (size - n) {
                            lemma_pow2_adds((8 * n) as nat, (8 * (b - j)) as nat);
                            lemma_pow2_pos((8 * (b - j)) as nat);
                            lemma_div_denominator(
                                v as int,
                                pow2((8 * n) as nat) as int,
                                pow2((8 * (b - j)) as nat) as int,
                            );
                            assert(8 * n + 8 * (b - j) == 8 * (b - i));
                        }
                    }
                    assert(whole =~= twice);
                }
            }
        }
    }
}

/// An instruction is fetched in halves, each from where its own address leads.
/// One whose low two bits are not both set is two bytes long and stands for
/// the word it expands to; any other is four bytes long. No instruction starts
/// at an odd address.
pub proof fn law_an_instruction_is_fetched_in_halves(s: CpuState)
    ensures
        ({
            let (s1, first) = s.translate(s.pc, Access::Fetch);
            let (s2, second) = s1.translate(((s.pc + 2) % span(s.xlen)) as u64, Access::Fetch);
            &&& s.pc % 2 == 1 ==> s.fetch() == (
                s,
                Err::<(u32, u64), Exception>(Exception::InstructionAccessFault(s.pc)),
            )
            &&& s.pc % 2 == 0 && first is Err ==> s.fetch() == (
                s1,
                Err::<(u32, u64), Exception>(first->Err_0),
            )
            &&& s.pc % 2 == 0 && first is Ok && in_dram(s1, first->Ok_0 as int, 2) ==> {
                let low = number(s1.mem.dram, first->Ok_0 - 0x8000_0000, 2);
                if low % 4 != 3 {
                    s.fetch() == (
                        s1,
                        match compress::spec_decompress(low as u32, s.xlen) {
                            Some(w) => Ok::<(u32, u64), Exception>((w, 2)),
                            None => Err(Exception::IllegalInstruction(low as u32)),
                        },
                    )
                } else {
                    &&& second matches Err(e) ==> s.fetch() == (
                        s2,
                        Err::<(u32, u64), Exception>(e),
                    )
                    &&& second is Ok && in_dram(s2, second->Ok_0 as int, 2) ==> {
                        let high = number(s2.mem.dram, second->Ok_0 - 0x8000_0000, 2);
                        s.fetch() == (
                            s2,
                            Ok::<(u32, u64), Exception>(((low + 0x1_0000 * high) as u32, 4)),
                        )
                    }
                }
            }
        }),
{
    reveal(CpuState::fetch);
    let (s1, first) = s.translate(s.pc, Access::Fetch);
    let (s2, second) = s1.translate(((s.pc + 2) % span(s.xlen)) as u64, Access::Fetch);
    cpu::access::law_translating_changes_only_memory(s, s.pc, Access::Fetch);
    isa::lemma_readings(s.xlen, 0, s.pc + 2);
    if first is Ok && in_dram(s1, first->Ok_0 as int, 2) {
        isa::lemma_number(s1.mem.dram, first->Ok_0 - 0x8000_0000, 2);
        if second is Ok && in_dram(s2, second->Ok_0 as int, 2) {
            isa::lemma_number(s2.mem.dram, second->Ok_0 - 0x8000_0000, 2);
        }
    }
}

/// What is fetched or loaded where nothing answers is an access fault, and so
/// is what is stored there.
pub proof fn law_nothing_answers_with_an_access_fault(s: CpuState, va: u64, size: u64, v: u64)
    requires
        isa::physical(s),
        s.mem.read_value(va, size) is None,
    ensures
        s.load(va, size) == (s, Err::<u64, Exception>(Exception::LoadAccessFault(va))),
        s.store(va, size, v) == (s, Err::<(), Exception>(Exception::StoreAccessFault(va))),
        s.pc == va && va % 2 == 0 && size == 2 ==> s.fetch() == (
            s,
            Err::<(u32, u64), Exception>(Exception::InstructionAccessFault(va)),
        ),
{
    reveal(CpuState::load);
    reveal(CpuState::store);
    reveal(CpuState::fetch);
    reveal(CpuState::translate);
}

/// What a program says when it stops: an odd number, of which 1 is success and
/// any other names the test that failed in the bits above the lowest. An even
/// number says nothing.
pub proof fn law_what_a_report_says(n: u64, v: u64)
    requires
        n < 0x8000_0000_0000_0000,
    ensures
        cpu::spec_report(1) == Some(Exit::Pass),
        n != 0 ==> cpu::spec_report((2 * n + 1) as u64) == Some(
            Exit::Fail((n % 0x1_0000_0000) as u32),
        ),
        cpu::spec_report((2 * n) as u64) is None,
{
}

/// A run takes a step and stops where that ends it, and goes on otherwise. A
/// report ends it, then a request to stop, then a call from machine mode where
/// nobody would hear a report, then a trap to a mode that has no vector.
pub proof fn law_how_a_run_ends(s: CpuState, n: nat)
    requires
        n > 0,
    ensures
        ({
            let (t, result) = s.step();
            let kept = CpuState { mem: MemState { tohost_value: None, ..t.mem }, ..t };
            let vector = t.csrs.regs[if t.priv_mode == Priv::Machine {
                0x305
            } else {
                0x105
            }];
            s.run(n) == if t.mem.tohost_value matches Some(v) && v % 2 == 1 {
                (t, cpu::spec_report(t.mem.tohost_value->Some_0)->Some_0)
            } else if t.shutdown {
                (kept, Exit::Shutdown)
            } else if result matches Err(e) && e == Exception::EnvironmentCall && s.priv_mode
                == Priv::Machine && t.mem.tohost is None {
                (kept, Exit::Ecall)
            } else if result is Err && vector == 0 {
                (kept, Exit::UnhandledTrap(result->Err_0))
            } else {
                kept.run((n - 1) as nat)
            }
        }),
        s.run(0) == (s, Exit::StepLimit),
{
}

/// Whether a segment covers an index of DRAM: with its bytes, or with the
/// clear bytes after them.
pub open spec fn has_byte(g: SegmentState, j: int) -> bool {
    g.addr - 0x8000_0000 <= j < g.addr - 0x8000_0000 + g.data.len()
}

pub open spec fn has_zero(g: SegmentState, j: int) -> bool {
    g.addr - 0x8000_0000 + g.data.len() <= j < g.addr - 0x8000_0000 + g.data.len() + g.zero_len
}

/// The byte that segments from the first on leave at an index of DRAM.
pub open spec fn left_at(d: Seq<u8>, segments: Seq<SegmentState>, j: int) -> u8
    decreases segments.len(),
{
    if segments.len() == 0 {
        d[j]
    } else {
        let g = segments.last();
        if has_zero(g, j) {
            0
        } else if has_byte(g, j) {
            g.data[j - (g.addr - 0x8000_0000)]
        } else {
            left_at(d, segments.drop_last(), j)
        }
    }
}

/// Whether all of a segment is in DRAM.
pub open spec fn fits(d: Seq<u8>, g: SegmentState) -> bool {
    g.addr >= 0x8000_0000 && g.addr + g.data.len() + g.zero_len <= 0x8000_0000 + d.len()
}

proof fn lemma_load_segments(s: CpuState, segments: Seq<SegmentState>, i: int, start: Seq<u8>)
    requires
        0 <= i <= segments.len(),
        s.mem.dram.len() == start.len(),
        start.len() <= 0x7fff_ffff_ffff_ffff,
        forall|j: int| 0 <= j < start.len() ==> s.mem.dram[j] == #[trigger] left_at(
            start,
            segments.take(i),
            j,
        ),
    ensures
        ({
            let (t, r) = s.load_segments(segments, i);
            &&& r is Ok <==> forall|k: int| i <= k < segments.len() ==> #[trigger] fits(
                start,
                segments[k],
            )
            &&& r is Ok ==> {
                &&& t == (CpuState { mem: MemState { dram: t.mem.dram, ..s.mem }, ..s })
                &&& t.mem.dram.len() == start.len()
                &&& forall|j: int| 0 <= j < start.len() ==> t.mem.dram[j] == #[trigger] left_at(
                    start,
                    segments,
                    j,
                )
            }
        }),
    decreases segments.len() - i,
{
    if i == segments.len() {
        assert(segments.take(i) =~= segments);
    } else {
        let g = segments[i];
        let all = forall|k: int| i <= k < segments.len() ==> #[trigger] fits(start, segments[k]);
        assert(all ==> fits(start, segments[i]));
        let next = segments.take(i + 1);
        assert(next.drop_last() =~= segments.take(i));
        assert(next.last() == g);
        if fits(start, g) {
            let loaded = s.mem.load_at(g.addr, g.data).unwrap();
            let tail = g.addr.wrapping_add(g.data.len() as u64);
            assert(tail == g.addr + g.data.len());
            let mem = if g.zero_len == 0 {
                loaded
            } else {
                loaded.zero(tail, g.zero_len).unwrap()
            };
            let after = CpuState { mem, ..s };
            assert forall|j: int| 0 <= j < start.len() implies mem.dram[j] == #[trigger] left_at(
                start,
                next,
                j,
            ) by {
                assert(s.mem.dram[j] == left_at(start, segments.take(i), j));
            }
            lemma_load_segments(after, segments, i + 1, start);
            assert(s.load_segments(segments, i) == after.load_segments(segments, i + 1));
            let rest = forall|k: int|
                i + 1 <= k < segments.len() ==> #[trigger] fits(start, segments[k]);
            if rest {
                assert forall|k: int| i <= k < segments.len() implies #[trigger] fits(
                    start,
                    segments[k],
                ) by {
                    if k > i {
                        assert(i + 1 <= k);
                    }
                }
            }
        } else {
            assert(!all);
        }
    }
}

/// Loading an executable works exactly where every segment fits. Its bytes are
/// then at their addresses, with what follows them clear and later segments
/// over earlier ones; every other byte is as it was. The hart is at the entry
/// point, at the width the file asks for, and watches `tohost` if there is a
/// symbol of that name.
pub proof fn law_a_loaded_executable_is_in_memory(s: CpuState, elf: ElfState, j: int)
    requires
        s.mem.dram.len() <= 0x7fff_ffff_ffff_ffff,
        s.regs.len() == 32,
        0 <= j < s.mem.dram.len(),
    ensures
        ({
            let (t, r) = s.load_elf(elf);
            &&& r is Ok <==> forall|k: int|
                0 <= k < elf.segments.len() ==> #[trigger] fits(s.mem.dram, elf.segments[k])
            &&& r is Ok ==> {
                &&& t.mem.dram.len() == s.mem.dram.len()
                &&& t.mem.dram[j] == left_at(s.mem.dram, elf.segments, j)
                &&& t.mem == (MemState { dram: t.mem.dram, tohost: t.mem.tohost, ..s.mem })
                &&& t.mem.tohost == if elf.symbols.contains_key("tohost"@) {
                    Some(elf.symbols["tohost"@])
                } else {
                    None
                }
                &&& t.pc == elf.entry as int % span(elf.xlen)
                &&& t.xlen == elf.xlen && t.csrs.xlen == elf.xlen
                &&& t.priv_mode == s.priv_mode && t.csrs.regs == s.csrs.regs
                &&& forall|i: int|
                    0 <= i < 32 ==> #[trigger] t.regs[i] == s.regs[i] as int % span(elf.xlen)
            }
        }),
{
    let none = elf.segments.take(0);
    assert forall|b: int| 0 <= b < s.mem.dram.len() implies s.mem.dram[b] == #[trigger] left_at(
        s.mem.dram,
        none,
        b,
    ) by {}
    lemma_load_segments(s, elf.segments, 0, s.mem.dram);
    isa::lemma_readings(elf.xlen, 0, elf.entry as int);
    let (t, r) = s.load_elf(elf);
    if r is Ok {
        assert(t.mem.dram[j] == left_at(s.mem.dram, elf.segments, j));
        assert forall|i: int| 0 <= i < 32 implies #[trigger] t.regs[i] == s.regs[i] as int % span(
            elf.xlen,
        ) by {
            isa::lemma_readings(elf.xlen, 0, s.regs[i] as int);
        }
    }
}

/// A hart starts in machine mode at the start of DRAM, which is clear, as is
/// everything it holds but the stack pointer, at the end of DRAM. No timer is
/// set.
pub proof fn law_where_a_hart_starts(size: nat, xlen: Xlen, r: int, a: int, j: int)
    requires
        0 <= r < 32,
        0 <= a < 4096,
        0 <= j < size,
    ensures
        ({
            let s = CpuState::reset(size, xlen);
            &&& s.pc == 0x8000_0000 && s.priv_mode == Priv::Machine && s.xlen == xlen
                && s.csrs.xlen == xlen
            &&& s.regs.len() == 32 && s.fregs.len() == 32 && s.csrs.regs.len() == 4096
            &&& s.regs[r] == if r == 2 {
                (0x8000_0000int + size) % span(xlen)
            } else {
                0
            }
            &&& s.fregs[r] == 0
            &&& s.csrs.regs[a] == 0
            &&& s.mem.dram.len() == size && s.mem.dram[j] == 0
            &&& s.mem.tohost is None && s.mem.tohost_value is None
            &&& s.mem.clint.mtime == 0 && s.mem.clint.mtimecmp == 0xffff_ffff_ffff_ffff
                && s.mem.clint.msip == 0
            &&& s.mem.plic.levels == 0 && s.mem.plic.claimed == 0
            &&& s.mem.plic.priority.len() == 32 && s.mem.plic.priority[r] == 0
            &&& s.mem.plic.enable == seq![0u32, 0u32]
            &&& s.mem.plic.threshold == seq![0u32, 0u32]
            &&& s.mem.uart.rx.len() == 0 && s.mem.uart.tx.len() == 0 && !s.mem.uart.echo
            &&& s.mem.uart.ier == 0 && s.mem.uart.fcr == 0 && s.mem.uart.lcr == 0
                && s.mem.uart.mcr == 0 && s.mem.uart.scr == 0 && s.mem.uart.divisor_low == 0
                && s.mem.uart.divisor_high == 0
            &&& s.cycle == 0 && s.reservation is None
            &&& !s.timer_armed && !s.shutdown && !s.sbi && !s.wrote_instret
        }),
{
    isa::lemma_readings(xlen, 0, 0x8000_0000int + size);
}

/// A kernel is entered in supervisor mode with the number of its hart in a0 and
/// the address of its device tree in a1. It handles every exception but its
/// own calls and machine mode's, its three interrupts, and reads all counters;
/// its calls are answered.
pub proof fn law_how_a_kernel_is_entered(s: CpuState, entry: u64, hart: u64, tree: u64, c: u64)
    requires
        s.wf(),
        c < 64,
    ensures
        ({
            let t = s.boot_supervisor(entry, hart, tree);
            &&& t.pc == entry as int % span(s.xlen) && t.priv_mode == Priv::Supervisor && t.sbi
            &&& t.regs == s.regs.update(10, (hart as int % span(s.xlen)) as u64).update(
                11,
                (tree as int % span(s.xlen)) as u64,
            )
            &&& t.csrs == (CsrState {
                regs: s.csrs.regs.update(0x302, 0xb1ff).update(0x303, 0x222).update(0x306, 7),
                ..s.csrs
            })
            &&& bit(t.csrs.regs[0x302], c) <==> c <= 8 || c == 12 || c == 13 || c == 15
            &&& t == (CpuState {
                pc: t.pc,
                priv_mode: t.priv_mode,
                sbi: t.sbi,
                regs: t.regs,
                csrs: t.csrs,
                ..s
            })
        }),
{
    isa::lemma_readings(s.xlen, 0, entry as int);
    isa::lemma_readings(s.xlen, 0, hart as int);
    isa::lemma_readings(s.xlen, 0, tree as int);
    assert((0xb1ffu64 >> c) & 1 == 1 <==> c <= 8 || c == 12 || c == 13 || c == 15) by (bit_vector)
        requires
            c < 64,
    ;
}

} // verus!
