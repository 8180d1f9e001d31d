//! The registers that are views of others, said bit by bit: what each shows,
//! and what a write through it reaches.

use crate::cpu::privilege::{bit, lemma_both};
use crate::cpu::Xlen;
use crate::csr::CsrState;
use vstd::prelude::*;

verus! {

/// The bits of `mstatus` that supervisor mode has a view of: SIE, SPIE, SPP,
/// FS, SUM and MXR.
pub open spec fn is_shared(k: u64) -> bool {
    k == 1 || k == 5 || k == 8 || k == 13 || k == 14 || k == 18 || k == 19
}

/// Where SD is: the top bit of a register.
pub open spec fn top(xlen: Xlen) -> u64 {
    match xlen {
        Xlen::Rv32 => 31,
        Xlen::Rv64 => 63,
    }
}

proof fn lemma_status_bits(stored: u64, k: u64)
    by (bit_vector)
    requires
        k < 64,
    ensures
        stored & 0x6000 == 0x6000 <==> (stored >> 13) & 1 == 1 && (stored >> 14) & 1 == 1,
        (0xc_6122u64 >> k) & 1 == 1 <==> k == 1 || k == 5 || k == 8 || k == 13 || k == 14 || k == 18
            || k == 19,
        (0x8000_0000_0000_0000u64 >> k) & 1 == 1 <==> k == 63,
        (0x8000_0000u64 >> k) & 1 == 1 <==> k == 31,
        (0x2u64 >> k) & 1 == 1 <==> k == 1,
{
}

/// `mstatus` shows what was stored but for its top bit, which says whether the
/// floating-point state is dirty. `sstatus` shows the bits that supervisor
/// mode shares, and that one.
pub proof fn law_what_the_status_shows(s: CsrState, k: u64)
    requires
        k < 64,
    ensures
        ({
            let stored = s.regs[0x300];
            let dirty = bit(stored, 13) && bit(stored, 14);
            &&& bit(s.read(0x300), k) == if k == top(s.xlen) {
                dirty
            } else {
                bit(stored, k)
            }
            &&& bit(s.read(0x100), k) == if k == top(s.xlen) {
                dirty
            } else {
                is_shared(k) && bit(stored, k)
            }
        }),
{
    let stored = s.regs[0x300];
    let mask = 0xc_6122u64 | s.sd();
    lemma_status_bits(stored, k);
    lemma_both(stored, s.sd(), k);
    lemma_both(s.status(), mask, k);
    lemma_both(0xc_6122, s.sd(), k);
}

/// `sie` and `sip` show the interrupts that are delegated.
pub proof fn law_what_the_interrupt_views_show(s: CsrState, k: u64)
    requires
        k < 64,
    ensures
        bit(s.read(0x104), k) == (bit(s.regs[0x304], k) && bit(s.regs[0x303], k)),
        bit(s.read(0x144), k) == (bit(s.regs[0x344], k) && bit(s.regs[0x303], k)),
{
    lemma_both(s.regs[0x304], s.regs[0x303], k);
    lemma_both(s.regs[0x344], s.regs[0x303], k);
}

proof fn lemma_numbers(v: u64)
    by (bit_vector)
    ensures
        v & 0x1f == v % 32,
        (v >> 5) & 0x7 == (v / 32) % 8,
        v >> 32 == v / 0x1_0000_0000,
        v >> 60 == v / 0x1000_0000_0000_0000,
{
}

/// The flags and the rounding mode are the low five bits of `fcsr` and the
/// three above them. The two names of the count of retired instructions show
/// one count, and the names that end in H the high half of a counter. Every
/// other register shows what it holds.
pub proof fn law_what_a_register_shows(s: CsrState, a: u16)
    ensures
        s.read(0x001) == s.regs[0x003] % 32,
        s.read(0x002) == (s.regs[0x003] / 32) % 8,
        s.read(0xb02) == s.regs[0xc02],
        s.read(0xb80) == s.regs[0xb00] / 0x1_0000_0000,
        s.read(0xb82) == s.regs[0xc02] / 0x1_0000_0000,
        s.read(0xc80) == s.regs[0xc00] / 0x1_0000_0000,
        s.read(0xc81) == s.regs[0xc01] / 0x1_0000_0000,
        s.read(0xc82) == s.regs[0xc02] / 0x1_0000_0000,
        !(a == 0x001 || a == 0x002 || a == 0x100 || a == 0x104 || a == 0x144 || a == 0x300 || a
            == 0xb02 || a == 0xb80 || a == 0xb82 || 0xc80 <= a <= 0xc82) ==> s.read(a)
            == s.regs[a as int],
{
    lemma_numbers(s.regs[0x003]);
    lemma_numbers(s.regs[0xb00]);
    lemma_numbers(s.regs[0xc00]);
    lemma_numbers(s.regs[0xc01]);
    lemma_numbers(s.regs[0xc02]);
}

/// Whether a write leaves every register but one as it was.
pub open spec fn only(s: CsrState, t: CsrState, a: int) -> bool {
    t == (CsrState { regs: s.regs.update(a, t.regs[a]), xlen: s.xlen })
}

proof fn lemma_merged(old_value: u64, new_value: u64, mask: u64, k: u64)
    requires
        k < 64,
    ensures
        bit((old_value & !mask) | (new_value & mask), k) == if bit(mask, k) {
            bit(new_value, k)
        } else {
            bit(old_value, k)
        },
{
    lemma_both(old_value, mask, k);
    lemma_both(new_value, mask, k);
    lemma_both(old_value & !mask, new_value & mask, k);
}

/// A write through a view of supervisor mode reaches the bits that are shared:
/// those of `mstatus`, the delegated ones of `mie`, and of `mip` the software
/// interrupt alone, where it is delegated.
pub proof fn law_what_a_write_through_a_view_reaches(s: CsrState, v: u64, k: u64)
    requires
        s.wf(),
        k < 64,
    ensures
        only(s, s.write(0x100, v), 0x300),
        bit(s.write(0x100, v).regs[0x300], k) == if is_shared(k) {
            bit(v, k)
        } else {
            bit(s.regs[0x300], k)
        },
        only(s, s.write(0x104, v), 0x304),
        bit(s.write(0x104, v).regs[0x304], k) == if bit(s.regs[0x303], k) {
            bit(v, k)
        } else {
            bit(s.regs[0x304], k)
        },
        only(s, s.write(0x144, v), 0x344),
        bit(s.write(0x144, v).regs[0x344], k) == if k == 1 && bit(s.regs[0x303], 1) {
            bit(v, 1)
        } else {
            bit(s.regs[0x344], k)
        },
{
    lemma_status_bits(0, k);
    lemma_merged(s.regs[0x300], v, 0xc_6122, k);
    lemma_merged(s.regs[0x304], v, s.regs[0x303], k);
    lemma_both(s.regs[0x303], 2, k);
    lemma_merged(s.regs[0x344], v, s.regs[0x303] & 2, k);
}

proof fn lemma_parts(c: u64, v: u64)
    by (bit_vector)
    ensures
        (c & !0x1f) | (v & 0x1f) == c - c % 32 + v % 32,
        (c & !0xe0) | ((v << 5) & 0xe0) == c - 32 * ((c / 32) % 8) + 32 * (v % 8),
        (c & !0xffff_ffff) | (v & 0xffff_ffff) == c - c % 0x1_0000_0000 + v % 0x1_0000_0000,
        (c & !0xffff_ffff_0000_0000) | ((v << 32) & 0xffff_ffff_0000_0000) == c % 0x1_0000_0000
            + 0x1_0000_0000 * (v % 0x1_0000_0000),
{
}

/// A write to a part of a register changes that part: the flags, the rounding
/// mode, and on RV32 each half of a counter. On RV64 a counter is written
/// whole.
pub proof fn law_what_a_write_to_a_part_reaches(s: CsrState, v: u64)
    requires
        s.wf(),
    ensures
        only(s, s.write(0x001, v), 0x003),
        s.write(0x001, v).regs[0x003] == s.regs[0x003] - s.regs[0x003] % 32 + v % 32,
        only(s, s.write(0x002, v), 0x003),
        s.write(0x002, v).regs[0x003] == s.regs[0x003] - 32 * ((s.regs[0x003] / 32) % 8) + 32 * (v
            % 8),
        only(s, s.write(0xb00, v), 0xb00),
        only(s, s.write(0xb02, v), 0xc02),
        s.xlen == Xlen::Rv64 ==> s.write(0xb00, v).regs[0xb00] == v && s.write(0xb02, v).regs[0xc02]
            == v,
        s.xlen == Xlen::Rv32 ==> {
            &&& s.write(0xb00, v).regs[0xb00] == s.regs[0xb00] - s.regs[0xb00] % 0x1_0000_0000 + v
                % 0x1_0000_0000
            &&& s.write(0xb02, v).regs[0xc02] == s.regs[0xc02] - s.regs[0xc02] % 0x1_0000_0000 + v
                % 0x1_0000_0000
        },
        only(s, s.write(0xb80, v), 0xb00),
        s.write(0xb80, v).regs[0xb00] == s.regs[0xb00] % 0x1_0000_0000 + 0x1_0000_0000 * (v
            % 0x1_0000_0000),
        only(s, s.write(0xb82, v), 0xc02),
        s.write(0xb82, v).regs[0xc02] == s.regs[0xc02] % 0x1_0000_0000 + 0x1_0000_0000 * (v
            % 0x1_0000_0000),
{
    lemma_parts(s.regs[0x003], v);
    lemma_parts(s.regs[0xb00], v);
    lemma_parts(s.regs[0xc02], v);
}

/// The counters that user mode reads cannot be written. `satp` takes a mode of
/// RV64 only if there is one of that number: none, or eight for three levels.
/// Every other register keeps what is written.
pub proof fn law_what_a_write_reaches(s: CsrState, a: u16, v: u64)
    requires
        s.wf(),
        a < 4096,
    ensures
        ({
            let t = s.write(a, v);
            let mode = v / 0x1000_0000_0000_0000;
            &&& 0xc00 <= a < 0xd00 ==> t == s
            &&& a == 0x180 ==> t == if s.xlen == Xlen::Rv32 || mode == 0 || mode == 8 {
                CsrState { regs: s.regs.update(0x180, v), xlen: s.xlen }
            } else {
                s
            }
            &&& !(0xc00 <= a < 0xd00 || a == 0x180 || a == 0x001 || a == 0x002 || a == 0x100 || a
                == 0x104 || a == 0x144 || a == 0xb00 || a == 0xb02 || a == 0xb80 || a == 0xb82)
                ==> t == (CsrState { regs: s.regs.update(a as int, v), xlen: s.xlen })
        }),
{
    lemma_numbers(v);
}

} // verus!
