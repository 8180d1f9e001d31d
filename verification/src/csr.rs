//! The control and status registers.
//!
//! A register holds every bit that is written to it. `sstatus`, `sie` and `sip`
//! are masked views of their machine counterparts rather than registers of
//! their own, as `fflags` and `frm` are of `fcsr`, and the count of retired
//! instructions has two names. Each is stored once and read through the mask
//! that its address names.

use crate::cpu::Xlen;
use vstd::prelude::*;

pub mod irq;
pub mod laws;
pub mod mstatus;

verus! {

pub const FFLAGS: u16 = 0x001;

pub const FRM: u16 = 0x002;

pub const FCSR: u16 = 0x003;

pub const SSTATUS: u16 = 0x100;

pub const SIE: u16 = 0x104;

pub const STVEC: u16 = 0x105;

pub const SCOUNTEREN: u16 = 0x106;

pub const SSCRATCH: u16 = 0x140;

pub const SEPC: u16 = 0x141;

pub const SCAUSE: u16 = 0x142;

pub const STVAL: u16 = 0x143;

pub const SIP: u16 = 0x144;

pub const SATP: u16 = 0x180;

pub const MSTATUS: u16 = 0x300;

pub const MISA: u16 = 0x301;

pub const MEDELEG: u16 = 0x302;

pub const MIDELEG: u16 = 0x303;

pub const MIE: u16 = 0x304;

pub const MTVEC: u16 = 0x305;

pub const MCOUNTEREN: u16 = 0x306;

pub const MSTATUSH: u16 = 0x310;

pub const MSCRATCH: u16 = 0x340;

pub const MEPC: u16 = 0x341;

pub const MCAUSE: u16 = 0x342;

pub const MTVAL: u16 = 0x343;

pub const MIP: u16 = 0x344;

pub const PMPCFG0: u16 = 0x3A0;

pub const PMPADDR0: u16 = 0x3B0;

pub const MCYCLE: u16 = 0xB00;

pub const MINSTRET: u16 = 0xB02;

pub const MCYCLEH: u16 = 0xB80;

pub const MINSTRETH: u16 = 0xB82;

pub const CYCLE: u16 = 0xC00;

pub const TIME: u16 = 0xC01;

pub const INSTRET: u16 = 0xC02;

pub const CYCLEH: u16 = 0xC80;

pub const TIMEH: u16 = 0xC81;

pub const INSTRETH: u16 = 0xC82;

pub const MVENDORID: u16 = 0xF11;

pub const MHARTID: u16 = 0xF14;

pub const MCONFIGPTR: u16 = 0xF15;

/// The registers, as software finds them.
#[verifier::ext_equal]
pub struct CsrState {
    /// What is stored at each address.
    pub regs: Seq<u64>,
    pub xlen: Xlen,
}

/// `new` where `mask` is set, and `old` elsewhere.
pub open spec fn spec_merge(old_value: u64, new_value: u64, mask: u64) -> u64 {
    (old_value & !mask) | (new_value & mask)
}

fn merge(old_value: u64, new_value: u64, mask: u64) -> (r: u64)
    ensures
        r == spec_merge(old_value, new_value, mask),
{
    (old_value & !mask) | (new_value & mask)
}

/// The low half of `old` replaced, for a 64-bit counter written on RV32.
pub open spec fn spec_low_half(old_value: u64, new_value: u64) -> u64 {
    spec_merge(old_value, new_value, 0xffff_ffff)
}

/// The high half of `old` replaced.
pub open spec fn spec_high_half(old_value: u64, new_value: u64) -> u64 {
    spec_merge(old_value, new_value << 32, 0xffff_ffff_0000_0000)
}

impl CsrState {
    pub open spec fn at(self, addr: u16) -> u64 {
        self.regs[addr as int]
    }

    pub open spec fn set(self, addr: u16, value: u64) -> CsrState {
        CsrState { regs: self.regs.update(addr as int, value), xlen: self.xlen }
    }

    pub open spec fn sd(self) -> u64 {
        if self.xlen == Xlen::Rv64 {
            mstatus::SD_64
        } else {
            mstatus::SD_32
        }
    }

    /// `mstatus` with the one field that is computed rather than stored: SD,
    /// which summarises FS.
    pub open spec fn status(self) -> u64 {
        let stored = self.at(MSTATUS);
        if stored & mstatus::FS == mstatus::FS {
            stored | self.sd()
        } else {
            stored & !self.sd()
        }
    }

    pub open spec fn read(self, addr: u16) -> u64 {
        if addr == FFLAGS {
            self.at(FCSR) & 0x1f
        } else if addr == FRM {
            (self.at(FCSR) >> 5) & 0x7
        } else if addr == SSTATUS {
            self.status() & (mstatus::SUPERVISOR | self.sd())
        } else if addr == SIE {
            self.at(MIE) & self.at(MIDELEG)
        } else if addr == SIP {
            self.at(MIP) & self.at(MIDELEG)
        } else if addr == MSTATUS {
            self.status()
        } else if addr == MINSTRET {
            self.at(INSTRET)
        } else if addr == MCYCLEH {
            self.at(MCYCLE) >> 32
        } else if addr == CYCLEH {
            self.at(CYCLE) >> 32
        } else if addr == MINSTRETH || addr == INSTRETH {
            self.at(INSTRET) >> 32
        } else if addr == TIMEH {
            self.at(TIME) >> 32
        } else {
            self.at(addr)
        }
    }

    /// A counter after a write at its low address, which on RV32 reaches only
    /// the low half.
    pub open spec fn set_counter(self, addr: u16, value: u64) -> CsrState {
        if self.xlen == Xlen::Rv64 {
            self.set(addr, value)
        } else {
            self.set(addr, spec_low_half(self.at(addr), value))
        }
    }

    pub open spec fn write(self, addr: u16, value: u64) -> CsrState {
        if 0xC00 <= addr < 0xD00 {
            self
        } else if addr == FFLAGS {
            self.set(FCSR, spec_merge(self.at(FCSR), value, 0x1f))
        } else if addr == FRM {
            self.set(FCSR, spec_merge(self.at(FCSR), value << 5, 0xe0))
        } else if addr == SSTATUS {
            self.set(MSTATUS, spec_merge(self.at(MSTATUS), value, mstatus::SUPERVISOR))
        } else if addr == SIE {
            self.set(MIE, spec_merge(self.at(MIE), value, self.at(MIDELEG)))
        } else if addr == SIP {
            self.set(MIP, spec_merge(self.at(MIP), value, self.at(MIDELEG) & irq::SSIP))
        } else if addr == SATP {
            if self.xlen == Xlen::Rv32 || value >> 60 == 0 || value >> 60 == 8 {
                self.set(SATP, value)
            } else {
                self
            }
        } else if addr == MCYCLE {
            self.set_counter(MCYCLE, value)
        } else if addr == MINSTRET {
            self.set_counter(INSTRET, value)
        } else if addr == MCYCLEH {
            self.set(MCYCLE, spec_high_half(self.at(MCYCLE), value))
        } else if addr == MINSTRETH {
            self.set(INSTRET, spec_high_half(self.at(INSTRET), value))
        } else {
            self.set(addr, value)
        }
    }

    pub open spec fn set_bits(self, addr: u16, bits: u64) -> CsrState {
        self.set(addr, self.at(addr) | bits)
    }

    pub open spec fn clear_bits(self, addr: u16, bits: u64) -> CsrState {
        self.set(addr, self.at(addr) & !bits)
    }

    /// Raises or retracts the bits, whichever is asked.
    pub open spec fn drive_bits(self, addr: u16, bits: u64, on: bool) -> CsrState {
        if on {
            self.set_bits(addr, bits)
        } else {
            self.clear_bits(addr, bits)
        }
    }

    pub open spec fn wf(self) -> bool {
        self.regs.len() == 4096
    }
}

/// Whether a register exists at all. Reading zero from one that does not
/// would tell software that a feature is there.
pub open spec fn spec_exists(addr: u16, xlen: Xlen) -> bool {
    ||| FFLAGS <= addr <= FCSR
    ||| addr == SSTATUS
    ||| SIE <= addr <= SCOUNTEREN
    ||| SSCRATCH <= addr <= SIP
    ||| addr == SATP
    ||| MSTATUS <= addr <= MCOUNTEREN
    ||| MSCRATCH <= addr <= MIP
    ||| PMPCFG0 <= addr < PMPADDR0 + 16
    ||| addr == MCYCLE || addr == MINSTRET
    ||| CYCLE <= addr <= INSTRET
    ||| MVENDORID <= addr <= MCONFIGPTR
    ||| xlen == Xlen::Rv32 && (addr == MSTATUSH || addr == MCYCLEH || addr == MINSTRETH || CYCLEH
        <= addr <= INSTRETH)
}

pub fn exists_at(addr: u16, xlen: Xlen) -> (r: bool)
    ensures
        r == spec_exists(addr, xlen),
{
    (FFLAGS <= addr && addr <= FCSR) || addr == SSTATUS || (SIE <= addr && addr <= SCOUNTEREN)
        || (SSCRATCH <= addr && addr <= SIP) || addr == SATP || (MSTATUS <= addr && addr
        <= MCOUNTEREN) || (MSCRATCH <= addr && addr <= MIP) || (PMPCFG0 <= addr && addr < PMPADDR0
        + 16) || addr == MCYCLE || addr == MINSTRET || (CYCLE <= addr && addr <= INSTRET) || (
    MVENDORID <= addr && addr <= MCONFIGPTR) || (xlen == Xlen::Rv32 && (addr == MSTATUSH || addr
        == MCYCLEH || addr == MINSTRETH || (CYCLEH <= addr && addr <= INSTRETH)))
}

pub struct CsrFile {
    regs: [u64; 4096],
    xlen: Xlen,
}

impl View for CsrFile {
    type V = CsrState;

    closed spec fn view(&self) -> CsrState {
        CsrState { regs: self.regs@, xlen: self.xlen }
    }
}

impl CsrFile {
    pub proof fn lemma_wf(&self)
        ensures
            self@.wf(),
    {
    }

    /// Every register zero, on RV64.
    pub fn new() -> (r: Self)
        ensures
            r@.wf(),
            r@.xlen == Xlen::Rv64,
            r@.regs == Seq::new(4096, |i: int| 0u64),
    {
        let r = CsrFile { regs: [0;4096], xlen: Xlen::Rv64 };
        assert(r.regs@ =~= Seq::new(4096, |i: int| 0u64));
        r
    }

    /// Changes the width that the registers are laid out for.
    pub fn set_xlen(&mut self, xlen: Xlen)
        ensures
            final(self)@ == (CsrState { regs: old(self)@.regs, xlen }),
    {
        self.xlen = xlen;
    }

    fn status(&self) -> (r: u64)
        ensures
            r == self@.status(),
    {
        let stored = self.regs[MSTATUS as usize];
        if stored & mstatus::FS == mstatus::FS {
            stored | self.sd()
        } else {
            stored & !self.sd()
        }
    }

    fn sd(&self) -> (r: u64)
        ensures
            r == self@.sd(),
    {
        if self.xlen == Xlen::Rv64 {
            mstatus::SD_64
        } else {
            mstatus::SD_32
        }
    }

    pub fn read(&self, addr: u16) -> (r: u64)
        requires
            addr < 4096,
        ensures
            r == self@.read(addr),
    {
        if addr == FFLAGS {
            self.regs[FCSR as usize] & 0x1f
        } else if addr == FRM {
            (self.regs[FCSR as usize] >> 5) & 0x7
        } else if addr == SSTATUS {
            self.status() & (mstatus::SUPERVISOR | self.sd())
        } else if addr == SIE {
            self.regs[MIE as usize] & self.regs[MIDELEG as usize]
        } else if addr == SIP {
            self.regs[MIP as usize] & self.regs[MIDELEG as usize]
        } else if addr == MSTATUS {
            self.status()
        } else if addr == MINSTRET {
            self.regs[INSTRET as usize]
        } else if addr == MCYCLEH {
            self.regs[MCYCLE as usize] >> 32
        } else if addr == CYCLEH {
            self.regs[CYCLE as usize] >> 32
        } else if addr == MINSTRETH || addr == INSTRETH {
            self.regs[INSTRET as usize] >> 32
        } else if addr == TIMEH {
            self.regs[TIME as usize] >> 32
        } else {
            self.regs[addr as usize]
        }
    }

    /// What is stored at an address, with no field computed or masked.
    pub fn stored(&self, addr: u16) -> (r: u64)
        requires
            addr < 4096,
        ensures
            r == self@.at(addr),
    {
        self.regs[addr as usize]
    }

    fn set_counter(&mut self, addr: u16, value: u64)
        requires
            addr < 4096,
        ensures
            final(self)@ == old(self)@.set_counter(addr, value),
    {
        if self.xlen == Xlen::Rv64 {
            self.force(addr, value);
        } else {
            let kept = self.regs[addr as usize];
            self.force(addr, merge(kept, value, 0xffff_ffff));
        }
    }

    /// Writes a register the way software does: every bit is kept, except that
    /// a view changes only the bits it shows, a counter for user mode does not
    /// change at all, and a paging mode that cannot be walked is refused.
    pub fn write(&mut self, addr: u16, value: u64)
        requires
            addr < 4096,
        ensures
            final(self)@ == old(self)@.write(addr, value),
    {
        // 0xC00..0xCFF are read-only counters; the CPU updates them directly.
        if addr >= 0xC00 && addr < 0xD00 {
            return ;
        }
        let fcsr = self.regs[FCSR as usize];
        let status = self.regs[MSTATUS as usize];
        let mie = self.regs[MIE as usize];
        let mip = self.regs[MIP as usize];
        let mideleg = self.regs[MIDELEG as usize];
        if addr == FFLAGS {
            self.force(FCSR, merge(fcsr, value, 0x1f));
        } else if addr == FRM {
            self.force(FCSR, merge(fcsr, value << 5, 0xe0));
        } else if addr == SSTATUS {
            self.force(MSTATUS, merge(status, value, mstatus::SUPERVISOR));
        } else if addr == SIE {
            self.force(MIE, merge(mie, value, mideleg));
        } else if addr == SIP {
            self.force(MIP, merge(mip, value, mideleg & irq::SSIP));
        } else if addr == SATP {
            // A mode this hart cannot walk does not stick, which is how a
            // kernel finds out what is supported.
            if self.xlen == Xlen::Rv32 || value >> 60 == 0 || value >> 60 == 8 {
                self.force(SATP, value);
            }
        } else if addr == MCYCLE {
            self.set_counter(MCYCLE, value);
        } else if addr == MINSTRET {
            self.set_counter(INSTRET, value);
        } else if addr == MCYCLEH {
            let kept = self.regs[MCYCLE as usize];
            self.force(MCYCLE, merge(kept, value << 32, 0xffff_ffff_0000_0000));
        } else if addr == MINSTRETH {
            let kept = self.regs[INSTRET as usize];
            self.force(INSTRET, merge(kept, value << 32, 0xffff_ffff_0000_0000));
        } else {
            self.force(addr, value);
        }
    }

    /// Bypasses the read-only check, for counters the CPU itself advances.
    pub fn force(&mut self, addr: u16, value: u64)
        requires
            addr < 4096,
        ensures
            final(self)@ == old(self)@.set(addr, value),
    {
        self.regs[addr as usize] = value;
    }

    /// Sets bits of a stored register.
    pub fn set_bits(&mut self, addr: u16, bits: u64)
        requires
            addr < 4096,
        ensures
            final(self)@ == old(self)@.set_bits(addr, bits),
    {
        let v = self.regs[addr as usize];
        self.force(addr, v | bits);
    }

    /// Clears bits of a stored register.
    pub fn clear_bits(&mut self, addr: u16, bits: u64)
        requires
            addr < 4096,
        ensures
            final(self)@ == old(self)@.clear_bits(addr, bits),
    {
        let v = self.regs[addr as usize];
        self.force(addr, v & !bits);
    }

    /// Sets or clears bits of a stored register, as a wire does.
    pub fn drive_bits(&mut self, addr: u16, bits: u64, on: bool)
        requires
            addr < 4096,
        ensures
            final(self)@ == old(self)@.drive_bits(addr, bits, on),
    {
        if on {
            self.set_bits(addr, bits);
        } else {
            self.clear_bits(addr, bits);
        }
    }
}

impl Default for CsrFile {
    fn default() -> (r: Self)
        ensures
            r@.wf(),
            r@.xlen == Xlen::Rv64,
            r@.regs == Seq::new(4096, |i: int| 0u64),
    {
        Self::new()
    }
}

/// `sstatus` is a window onto `mstatus`: a write through it changes the
/// supervisor's fields and no machine field, and both read the same bits.
pub proof fn law_sstatus_is_a_window(s: CsrState, value: u64)
    requires
        s.wf(),
    ensures
        s.write(SSTATUS, value).at(MSTATUS) & mstatus::SUPERVISOR == value & mstatus::SUPERVISOR,
        s.write(SSTATUS, value).at(MSTATUS) & !mstatus::SUPERVISOR == s.at(MSTATUS)
            & !mstatus::SUPERVISOR,
        s.read(SSTATUS) & mstatus::SUPERVISOR == s.read(MSTATUS) & mstatus::SUPERVISOR,
        s.read(SSTATUS) & (mstatus::MIE | mstatus::MPP | mstatus::MPRV) == 0,
{
    let (m, st, sd) = (s.at(MSTATUS), s.status(), s.sd());
    let shared = mstatus::SUPERVISOR;
    assert(((m & !shared) | (value & shared)) & shared == value & shared && ((m & !shared) | (value
        & shared)) & !shared == m & !shared && (st & (shared | sd)) & shared == st & shared && (st & (
    shared | sd)) & (mstatus::MIE | mstatus::MPP | mstatus::MPRV) == 0) by (bit_vector)
        requires
            shared == mstatus::SUPERVISOR,
            sd == mstatus::SD_64 || sd == mstatus::SD_32,
    ;
}

/// `sie` and `sip` show only what has been delegated, and a write through
/// them reaches nothing else.
pub proof fn law_delegation_masks_the_supervisor_view(s: CsrState, value: u64)
    requires
        s.wf(),
    ensures
        s.read(SIE) & !s.at(MIDELEG) == 0,
        s.read(SIP) & !s.at(MIDELEG) == 0,
        s.write(SIE, value).at(MIE) & !s.at(MIDELEG) == s.at(MIE) & !s.at(MIDELEG),
        s.write(SIE, value).read(SIE) == value & s.at(MIDELEG),
        s.write(SIP, value).at(MIP) & !irq::SSIP == s.at(MIP) & !irq::SSIP,
{
    let (e, p, d) = (s.at(MIE), s.at(MIP), s.at(MIDELEG));
    assert((e & d) & !d == 0 && (p & d) & !d == 0 && ((e & !d) | (value & d)) & !d == e & !d && ((e
        & !d) | (value & d)) & d == value & d && ((p & !(d & 0x2)) | (value & (d & 0x2))) & !0x2u64
        == p & !0x2u64) by (bit_vector);
}

/// `fflags` and `frm` are the two parts of `fcsr`: each reads back what was
/// written to it and leaves the other alone.
pub proof fn law_fcsr_has_two_parts(s: CsrState, value: u64)
    requires
        s.wf(),
    ensures
        s.write(FFLAGS, value).read(FFLAGS) == value & 0x1f,
        s.write(FFLAGS, value).read(FRM) == s.read(FRM),
        s.write(FRM, value).read(FRM) == value & 0x7,
        s.write(FRM, value).read(FFLAGS) == s.read(FFLAGS),
        s.write(FCSR, value).read(FCSR) == value,
        s.write(FCSR, value).read(FFLAGS) == value & 0x1f,
        s.write(FCSR, value).read(FRM) == (value >> 5) & 0x7,
{
    let f = s.at(FCSR);
    assert(((f & !0x1f) | (value & 0x1f)) & 0x1f == value & 0x1f && (((f & !0x1f) | (value & 0x1f))
        >> 5) & 0x7 == (f >> 5) & 0x7 && (((f & !0xe0) | ((value << 5) & 0xe0)) >> 5) & 0x7 == value
        & 0x7 && ((f & !0xe0) | ((value << 5) & 0xe0)) & 0x1f == f & 0x1f) by (bit_vector);
}

/// SD is computed, not stored: it is set exactly while FS says dirty, and no
/// write to `mstatus` can set it otherwise. Every other bit reads back.
pub proof fn law_sd_follows_fs(s: CsrState, value: u64)
    requires
        s.wf(),
    ensures
        ({
            let w = s.write(MSTATUS, value);
            &&& (w.read(MSTATUS) & w.sd() != 0) == (value & mstatus::FS == mstatus::FS)
            &&& w.read(MSTATUS) & !w.sd() == value & !w.sd()
        }),
{
    let sd = s.sd();
    assert((value | sd) & sd != 0 && (value & !sd) & sd == 0 && (value | sd) & !sd == value & !sd
        && (value & !sd) & !sd == value & !sd) by (bit_vector)
        requires
            sd == mstatus::SD_64 || sd == mstatus::SD_32,
    ;
}

/// The user-level counters cannot be written. No write at any address reaches
/// the cycle and time counters, and the count of retired instructions shows
/// what the machine-level one holds.
pub proof fn law_user_counters_are_read_only(s: CsrState, addr: u16, value: u64)
    requires
        s.wf(),
        addr < 4096,
    ensures
        0xC00 <= addr < 0xD00 ==> s.write(addr, value) == s,
        s.write(addr, value).read(CYCLE) == s.read(CYCLE),
        s.write(addr, value).read(TIME) == s.read(TIME),
        s.read(MINSTRET) == s.read(INSTRET),
{
}

/// A paging mode that cannot be walked does not stick, which is how a kernel
/// finds out what is supported; a supported one reads back.
pub proof fn law_satp_keeps_only_supported_modes(s: CsrState, value: u64)
    requires
        s.wf(),
        s.xlen == Xlen::Rv64,
    ensures
        value >> 60 == 0 || value >> 60 == 8 ==> s.write(SATP, value).read(SATP) == value,
        value >> 60 != 0 && value >> 60 != 8 ==> s.write(SATP, value) == s,
{
}

/// Whether an address names a register of its own, all of whose bits software
/// may set, rather than a view of another, a counter or a checked register.
pub open spec fn stored_whole(addr: u16) -> bool {
    &&& addr < 4096
    &&& addr != FFLAGS && addr != FRM
    &&& addr != SSTATUS && addr != MSTATUS
    &&& addr != SIE && addr != SIP
    &&& addr != SATP
    &&& addr != MCYCLE && addr != MINSTRET && addr != MCYCLEH && addr != MINSTRETH
    &&& !(0xC00 <= addr < 0xD00)
}

/// Each register holds its own value: a write to one that is stored whole
/// reads back, every bit of it, and disturbs no other that is.
pub proof fn law_registers_keep_what_is_written(s: CsrState, a: u16, b: u16, value: u64)
    requires
        s.wf(),
        stored_whole(a),
        stored_whole(b),
    ensures
        s.write(a, value).read(a) == value,
        a != b ==> s.write(a, value).read(b) == s.read(b),
{
}

} // verus!
