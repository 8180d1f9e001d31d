//! The address map, in numbers: what answers at which address, and what the
//! registers of each device do there.

use crate::cpu::isa;
use crate::memory::{self, MemState};
use crate::plic::{self, PlicState};
use crate::uart::UartState;
use vstd::arithmetic::power2::*;
use vstd::prelude::*;

verus! {

/// The low `size` bytes of a number.
pub open spec fn cut(v: u64, size: u64) -> int {
    v as int % if size == 1 {
        0x100int
    } else if size == 2 {
        0x1_0000
    } else if size == 4 {
        0x1_0000_0000
    } else {
        0x1_0000_0000_0000_0000
    }
}

pub open spec fn is_size(size: u64) -> bool {
    size == 1 || size == 2 || size == 4 || size == 8
}

pub proof fn lemma_cut(v: u64, size: u64)
    requires
        is_size(size),
    ensures
        memory::low_bytes(v, size) == cut(v, size),
        size == 8 ==> cut(v, size) == v,
        size < 8 ==> cut(v, size) < 0x1_0000_0000,
        0 <= cut(v, size) <= v,
        cut(v, size) % 0x100 == v as int % 0x100,
        size >= 4 ==> cut(v, size) % 0x1_0000_0000 == v as int % 0x1_0000_0000,
        size < 4 ==> cut(v, size) % 0x1_0000_0000 == cut(v, size),
{
    lemma2_to64();
    lemma2_to64_rest();
}

/// DRAM begins at 0x8000_0000. A number there is spelt least significant byte
/// first, and reading it changes nothing; writing it changes its bytes alone,
/// and latches it where that is the address software reports at.
pub proof fn law_dram_is_where_it_is(s: MemState, addr: u64, size: u64, v: u64)
    requires
        is_size(size),
        0x8000_0000 <= addr,
        addr + size <= 0x8000_0000 + s.dram.len(),
    ensures
        s.read_value(addr, size) == Some(
            isa::number(s.dram, addr - 0x8000_0000, size as int) as u64,
        ),
        s.after_read(addr, size) == s,
        s.write(addr, size, v) == Some(
            MemState {
                dram: isa::poked(s.dram, addr - 0x8000_0000, size as int, v as int),
                tohost_value: if s.tohost == Some(addr) && v != 0 {
                    Some(v)
                } else {
                    s.tohost_value
                },
                ..s
            },
        ),
{
    isa::lemma_number(s.dram, addr - 0x8000_0000, size as int);
    assert(memory::overlay(
        s.dram,
        addr - 0x8000_0000,
        memory::le_bytes(v as nat, size as nat),
    ) =~= isa::poked(s.dram, addr - 0x8000_0000, size as int, v as int));
}

/// Whether an address is one of a device: the timer has 64 KiB from 32 MiB on,
/// the interrupt controller 64 MiB from 192 MiB on, and the console 256 bytes
/// from 256 MiB on.
pub open spec fn is_device(addr: int) -> bool {
    ||| 0x0200_0000 <= addr < 0x0201_0000
    ||| 0x0c00_0000 <= addr < 0x1000_0000
    ||| 0x1000_0000 <= addr < 0x1000_0100
}

/// Where neither a device nor all of DRAM that is asked for answers, nothing
/// does.
pub proof fn law_nothing_else_answers(s: MemState, addr: u64, size: u64, v: u64)
    ensures
        ({
            let answers = is_device(addr as int) || 0x8000_0000 <= addr && addr + size
                <= 0x8000_0000 + s.dram.len();
            &&& s.read_value(addr, size) is Some <==> answers
            &&& s.write(addr, size, v) is Some <==> answers
        }),
{
}

/// Bytes and clears go into DRAM exactly where all of them fit, and change
/// nothing else.
pub proof fn law_images_go_into_dram(s: MemState, addr: u64, data: Seq<u8>, len: u64, j: int)
    requires
        0 <= j < s.dram.len(),
    ensures
        s.load_at(addr, data) is Some <==> 0x8000_0000 <= addr && addr + data.len() <= 0x8000_0000
            + s.dram.len(),
        s.load_at(addr, data) matches Some(t) ==> {
            let i = j - (addr - 0x8000_0000);
            &&& t == (MemState { dram: t.dram, ..s })
            &&& t.dram.len() == s.dram.len()
            &&& t.dram[j] == if 0 <= i < data.len() {
                data[i]
            } else {
                s.dram[j]
            }
        },
        s.zero(addr, len) is Some <==> 0x8000_0000 <= addr && addr + len <= 0x8000_0000
            + s.dram.len(),
        s.zero(addr, len) matches Some(t) ==> {
            let i = j - (addr - 0x8000_0000);
            &&& t == (MemState { dram: t.dram, ..s })
            &&& t.dram.len() == s.dram.len()
            &&& t.dram[j] == if 0 <= i < len {
                0
            } else {
                s.dram[j]
            }
        },
{
}

proof fn lemma_halves(v: u64, w: u64)
    by (bit_vector)
    ensures
        (v & 0xffff_ffff_0000_0000) | (w & 0xffff_ffff) == v - v % 0x1_0000_0000 + w
            % 0x1_0000_0000,
        (v & 0xffff_ffff) | (w << 32) == v % 0x1_0000_0000 + 0x1_0000_0000 * (w % 0x1_0000_0000),
        v >> 32 == v / 0x1_0000_0000,
        v & 1 == v % 2,
        v as u8 == v % 0x100,
        v as u32 == v % 0x1_0000_0000,
{
}

/// The registers of the timer: the software interrupt at its start, the number
/// compared with at 0x4000 and the time at 0xbff8, the high half of each four
/// bytes on. Everywhere else there it reads as zero.
pub proof fn law_reading_the_timer(s: MemState, addr: u64, size: u64)
    requires
        is_size(size),
        0x0200_0000 <= addr < 0x0201_0000,
    ensures
        ({
            let o = addr - 0x0200_0000;
            let c = s.clint;
            &&& s.after_read(addr, size) == s
            &&& s.read_value(addr, size) matches Some(v) && v == if o == 0 {
                cut(c.msip, size)
            } else if o == 0x4000 {
                cut(c.mtimecmp, size)
            } else if o == 0x4004 {
                cut(c.mtimecmp / 0x1_0000_0000, size)
            } else if o == 0xbff8 {
                cut(c.mtime, size)
            } else if o == 0xbffc {
                cut(c.mtime / 0x1_0000_0000, size)
            } else {
                0
            }
        }),
{
    let c = s.clint;
    lemma_halves(c.mtimecmp, 0);
    lemma_halves(c.mtime, 0);
    lemma_cut(c.msip, size);
    lemma_cut(c.mtimecmp, size);
    lemma_cut(c.mtimecmp / 0x1_0000_0000, size);
    lemma_cut(c.mtime, size);
    lemma_cut(c.mtime / 0x1_0000_0000, size);
    lemma_cut(0, size);
}

/// Eight bytes written to a register of the timer replace it; fewer replace
/// the half that they are written to. The software interrupt is one bit.
pub proof fn law_writing_the_timer(s: MemState, addr: u64, size: u64, v: u64)
    requires
        is_size(size),
        0x0200_0000 <= addr < 0x0201_0000,
    ensures
        ({
            let o = addr - 0x0200_0000;
            let c = s.clint;
            let w = cut(v, size);
            let low = |was: u64|
                if size == 8 {
                    w
                } else {
                    was - was % 0x1_0000_0000 + w
                };
            let high = |was: u64|
                was % 0x1_0000_0000 + 0x1_0000_0000 * (w % 0x1_0000_0000);
            s.write(addr, size, v) matches Some(t) && {
                &&& t == (MemState { clint: t.clint, ..s })
                &&& t.clint.msip == if o == 0 {
                    v % 2
                } else {
                    c.msip
                }
                &&& t.clint.mtimecmp == if o == 0x4000 {
                    low(c.mtimecmp)
                } else if o == 0x4004 {
                    high(c.mtimecmp)
                } else {
                    c.mtimecmp + 0
                }
                &&& t.clint.mtime == if o == 0xbff8 {
                    low(c.mtime)
                } else if o == 0xbffc {
                    high(c.mtime)
                } else {
                    c.mtime + 0
                }
            }
        }),
{
    let c = s.clint;
    let w = memory::low_bytes(v, size);
    lemma_cut(v, size);
    lemma_halves(w, 0);
    lemma_halves(c.mtimecmp, w);
    lemma_halves(c.mtime, w);
}

/// Whether the bit of a source is set.
pub open spec fn flag(word: u32, source: u32) -> bool {
    (word >> source) & 1 == 1
}

proof fn lemma_flags(a: u32, b: u32, i: u32, j: u32)
    by (bit_vector)
    requires
        i < 32,
        j < 32,
    ensures
        a & (1u32 << i) != 0 <==> (a >> i) & 1 == 1,
        ((a & b) >> i) & 1 == 1 <==> (a >> i) & 1 == 1 && (b >> i) & 1 == 1,
        ((a & !b) >> i) & 1 == 1 <==> (a >> i) & 1 == 1 && (b >> i) & 1 != 1,
        ((a | (1u32 << j)) >> i) & 1 == 1 <==> (a >> i) & 1 == 1 || i == j,
        ((a & !(1u32 << j)) >> i) & 1 == 1 <==> (a >> i) & 1 == 1 && i != j,
        ((a & !1u32) >> i) & 1 == 1 <==> (a >> i) & 1 == 1 && i != 0,
{
}

/// Whether a context would take a source: its line is up, nobody is servicing
/// it, the context has it enabled, and its priority exceeds the threshold.
pub open spec fn is_ready(s: PlicState, context: int, source: u32) -> bool {
    &&& 1 <= source < 32
    &&& flag(s.levels, source)
    &&& !flag(s.claimed, source)
    &&& flag(s.enable[context], source)
    &&& s.priority[source as int] > s.threshold[context]
}

proof fn lemma_ready(s: PlicState, context: int, source: u32)
    ensures
        s.takes(context, source) == is_ready(s, context, source),
{
    if source < 32 {
        lemma_flags(s.levels, s.claimed, source, 0);
        lemma_flags(s.pending(), s.enable[context], source, 0);
        lemma_flags(s.pending() & s.enable[context], 0, source, 0);
    }
}

/// The source a context is offered is one it would take, and of those the one
/// with the highest priority, and among equals the lowest number. It is
/// offered none only where there is none.
pub proof fn law_the_source_that_is_offered(s: PlicState, context: int, other: u32)
    ensures
        ({
            let best = s.best(context);
            &&& s.is_pending(context) == (best != 0)
            &&& if best != 0 {
                is_ready(s, context, best) && (is_ready(s, context, other) ==> {
                    ||| s.priority[best as int] > s.priority[other as int]
                    ||| s.priority[best as int] == s.priority[other as int] && best <= other
                })
            } else {
                !is_ready(s, context, other)
            }
        }),
{
    let best = s.best(context);
    lemma_ready(s, context, best);
    lemma_ready(s, context, other);
    if s.takes(context, other) {
        plic::law_arbitration_finds_the_winner(s, context, other);
    }
}

/// A line moves alone, and neither source 0 nor one past 31 has one. A claim
/// takes the source that is offered out of the running, and completing it puts
/// it back.
pub proof fn law_lines_claims_and_completions(
    s: PlicState,
    context: int,
    source: u32,
    up: bool,
    other: u32,
)
    requires
        other < 32,
    ensures
        ({
            let t = s.set_level(source, up);
            &&& t == (PlicState { levels: t.levels, ..s })
            &&& flag(t.levels, other) == if source == other && source != 0 {
                up
            } else {
                flag(s.levels, other)
            }
        }),
        ({
            let t = s.claim(context);
            let best = s.best(context);
            &&& t == (PlicState { claimed: t.claimed, ..s })
            &&& flag(t.claimed, other) == (flag(s.claimed, other) || best != 0 && other == best)
        }),
        ({
            let t = s.complete(source);
            &&& t == (PlicState { claimed: t.claimed, ..s })
            &&& flag(t.claimed, other) == (flag(s.claimed, other) && other != source)
        }),
{
    let best = s.best(context);
    lemma_flags(s.levels, 0, other, source % 32);
    lemma_flags(s.claimed, 0, other, source % 32);
    law_the_source_that_is_offered(s, context, best);
    if best != 0 {
        lemma_flags(s.claimed, 0, other, best);
    }
}

/// The registers of the interrupt controller: the priority of each source,
/// four bytes apart; at 0x1000 the sources that wait; from 0x2000 on, 0x80
/// apart, what each context has enabled; and from 0x20_0000 on, 0x1000 apart,
/// the threshold of each context, with what it is offered four bytes on.
/// Reading that claims it.
pub proof fn law_reading_the_interrupt_controller(s: MemState, n: u64, size: u64, source: u32)
    requires
        is_size(size),
        n < 0x20_0000,
        source < 32,
    ensures
        ({
            let p = s.plic;
            let at = |o: int| s.read_value((0x0c00_0000 + o) as u64, size);
            let after = |o: int| s.after_read((0x0c00_0000 + o) as u64, size);
            &&& n < 32 ==> at(4 * n) == Some(cut(p.priority[n as int] as u64, size) as u64)
                && after(4 * n) == s
            &&& 32 <= n < 0x400 ==> at(4 * n) == Some(0u64) && after(4 * n) == s
            &&& at(0x1000) == Some(cut(p.pending() as u64, size) as u64) && after(0x1000) == s
            &&& flag(p.pending(), source) == (flag(p.levels, source) && !flag(p.claimed, source))
            &&& n < 2 ==> {
                &&& at(0x2000 + 0x80 * n) == Some(cut(p.enable[n as int] as u64, size) as u64)
                &&& after(0x2000 + 0x80 * n) == s
                &&& at(0x20_0000 + 0x1000 * n) == Some(
                    cut(p.threshold[n as int] as u64, size) as u64,
                )
                &&& after(0x20_0000 + 0x1000 * n) == s
                &&& at(0x20_0004 + 0x1000 * n) == Some(cut(p.best(n as int) as u64, size) as u64)
                &&& after(0x20_0004 + 0x1000 * n) == (MemState { plic: p.claim(n as int), ..s })
            }
        }),
{
    let p = s.plic;
    lemma_flags(p.levels, p.claimed, source, 0);
    lemma_cut(0, size);
    lemma_cut(p.pending() as u64, size);
    if n < 32 {
        lemma_cut(p.priority[n as int] as u64, size);
    }
    if n < 2 {
        lemma_cut(p.enable[n as int] as u64, size);
        lemma_cut(p.threshold[n as int] as u64, size);
        lemma_cut(p.best(n as int) as u64, size);
    }
}

/// A word written to a register of the interrupt controller replaces it.
/// Source 0 has neither a priority nor an enable, and what is waiting cannot
/// be written. A word written where a claim is read completes that source.
pub proof fn law_writing_the_interrupt_controller(s: MemState, n: u64, v: u64, source: u32)
    requires
        s.plic.wf(),
        n < 0x20_0000,
        source < 32,
    ensures
        ({
            let p = s.plic;
            let w = (v as int % 0x1_0000_0000) as u32;
            let at = |o: int| s.write((0x0c00_0000 + o) as u64, 4, v);
            &&& 0 < n < 32 ==> at(4 * n) == Some(
                MemState {
                    plic: PlicState { priority: p.priority.update(n as int, w), ..p },
                    ..s
                },
            )
            &&& n == 0 || 32 <= n < 0x400 ==> at(4 * n) == Some(s)
            &&& at(0x1000) == Some(s)
            &&& n < 2 ==> {
                &&& at(0x2000 + 0x80 * n) matches Some(t) && {
                    let e = t.plic.enable[n as int];
                    &&& t == (MemState {
                        plic: PlicState { enable: p.enable.update(n as int, e), ..p },
                        ..s
                    })
                    &&& flag(e, source) == (flag(w, source) && source != 0)
                }
                &&& at(0x20_0000 + 0x1000 * n) == Some(
                    MemState {
                        plic: PlicState { threshold: p.threshold.update(n as int, w), ..p },
                        ..s
                    },
                )
                &&& at(0x20_0004 + 0x1000 * n) == Some(MemState { plic: p.complete(w), ..s })
            }
        }),
{
    let p = s.plic;
    let w = (v as int % 0x1_0000_0000) as u32;
    lemma_cut(v, 4);
    lemma_halves(memory::low_bytes(v, 4), 0);
    lemma_flags(w, 0, source, 0);
}

/// Everywhere else the interrupt controller reads as zero, and neither reading
/// nor writing changes anything: between the registers, and for contexts that
/// are not there. A priority answers at each of its four bytes.
pub proof fn law_the_rest_of_the_interrupt_controller(s: MemState, o: u64, size: u64, v: u64)
    requires
        is_size(size),
        o < 0x400_0000,
    ensures
        ({
            let addr = (0x0c00_0000 + o) as u64;
            let enable = o == 0x2000 || o == 0x2080;
            let control = o == 0x20_0000 || o == 0x20_0004 || o == 0x20_1000 || o == 0x20_1004;
            &&& o < 0x80 ==> s.read_value(addr, size) == Some(
                cut(s.plic.priority[o as int / 4] as u64, size) as u64,
            )
            &&& o >= 0x80 && o != 0x1000 && !enable && !control ==> {
                &&& s.read_value(addr, size) == Some(0u64)
                &&& s.after_read(addr, size) == s
                &&& s.write(addr, size, v) == Some(s)
            }
        }),
{
    lemma_cut(0, size);
    if o < 0x80 {
        lemma_cut(s.plic.priority[o as int / 4] as u64, size);
    }
}

proof fn lemma_uart_bits(v: u8)
    by (bit_vector)
    ensures
        v & 0x80 != 0 <==> v >= 0x80,
        v & 0x01 != 0 <==> v % 2 == 1,
        v & 0x02 != 0 <==> (v / 2) % 2 == 1,
        0x60u8 | 0x01u8 == 0x61,
{
}

/// Whether the console has something to say about the input that waits, or
/// about its output, which never does.
pub open spec fn has_input(u: UartState) -> bool {
    u.ier % 2 == 1 && u.rx.len() > 0
}

pub open spec fn has_room(u: UartState) -> bool {
    (u.ier / 2) % 2 == 1
}

/// The registers of the console, a byte each: the oldest byte of the input,
/// which reading takes, then the interrupts it has enabled, which of them
/// there is, line control, modem control, line status, modem status and
/// scratch. The top bit of line control puts the two halves of the divisor in
/// place of the first two.
pub proof fn law_reading_the_console(s: MemState, o: u64, size: u64)
    requires
        is_size(size),
        o < 0x100,
    ensures
        ({
            let u = s.uart;
            let addr = (0x1000_0000 + o) as u64;
            let divisor = u.lcr >= 0x80;
            &&& u.is_interrupting() == (has_input(u) || has_room(u))
            &&& s.read_value(addr, size) matches Some(v) && v == if o == 0 {
                if divisor {
                    u.divisor_low as int
                } else if u.rx.len() > 0 {
                    u.rx[0] as int
                } else {
                    0
                }
            } else if o == 1 {
                if divisor {
                    u.divisor_high as int
                } else {
                    u.ier as int
                }
            } else if o == 2 {
                if has_input(u) {
                    0xc4
                } else if has_room(u) {
                    0xc2
                } else {
                    0xc1
                }
            } else if o == 3 {
                u.lcr as int
            } else if o == 4 {
                u.mcr as int
            } else if o == 5 {
                if u.rx.len() > 0 {
                    0x61
                } else {
                    0x60
                }
            } else if o == 6 {
                0xb0
            } else if o == 7 {
                u.scr as int
            } else {
                0
            }
            &&& s.after_read(addr, size) == if o == 0 && !divisor && u.rx.len() > 0 {
                MemState { uart: UartState { rx: u.rx.subrange(1, u.rx.len() as int), ..u }, ..s }
            } else {
                s
            }
        }),
{
    let u = s.uart;
    lemma_uart_bits(u.lcr);
    lemma_uart_bits(u.ier);
    lemma_cut(u.read_value(o), size);
    assert(u.read_value(o) < 0x100);
    if u.rx.len() > 0 {
        assert(u.rx.drop_first() =~= u.rx.subrange(1, u.rx.len() as int));
    }
}

/// A byte written to a register of the console replaces it, but for the first,
/// which sends it, and the two status registers, which take none.
pub proof fn law_writing_the_console(s: MemState, o: u64, size: u64, v: u64)
    requires
        is_size(size),
        o < 0x100,
    ensures
        ({
            let u = s.uart;
            let b = (v as int % 0x100) as u8;
            let divisor = u.lcr >= 0x80;
            s.write((0x1000_0000 + o) as u64, size, v) == Some(
                MemState {
                    uart: if o == 0 {
                        if divisor {
                            UartState { divisor_low: b, ..u }
                        } else {
                            UartState { tx: u.tx.push(b), ..u }
                        }
                    } else if o == 1 {
                        if divisor {
                            UartState { divisor_high: b, ..u }
                        } else {
                            UartState { ier: b, ..u }
                        }
                    } else if o == 2 {
                        UartState { fcr: b, ..u }
                    } else if o == 3 {
                        UartState { lcr: b, ..u }
                    } else if o == 4 {
                        UartState { mcr: b, ..u }
                    } else if o == 7 {
                        UartState { scr: b, ..u }
                    } else {
                        u
                    },
                    ..s
                },
            )
        }),
{
    lemma_uart_bits(s.uart.lcr);
    lemma_cut(v, size);
    lemma_halves(memory::low_bytes(v, size), 0);
}

} // verus!
