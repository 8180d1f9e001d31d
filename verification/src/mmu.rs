//! Virtual memory: Sv32 on RV32, Sv39 on RV64.
//!
//! The walk itself is short. What takes the space is the permission checking,
//! because every rule has a reason software depends on: SUM decides whether
//! the kernel may touch user pages, MXR whether execute-only pages are
//! readable, and the A/D bits are how the kernel learns which pages were used
//! and which need writing back.
//!
//! Vol II, "Sv32" and "Sv39".

use crate::cpu::Xlen;
use crate::csr::mstatus;
use crate::memory::{self, MemState, Memory};
use crate::trap::{Access, Exception, Priv};
use crate::wide;
use vstd::arithmetic::div_mod::*;
use vstd::arithmetic::mul::*;
use vstd::arithmetic::power2::*;
use vstd::prelude::*;

pub mod laws;

verus! {

pub const PAGE_SIZE: u64 = 4096;

// PTE flag bits: valid, readable, writable, executable, user, accessed, dirty.
pub const V: u64 = 0x1;

pub const R: u64 = 0x2;

pub const W: u64 = 0x4;

pub const X: u64 = 0x8;

pub const U: u64 = 0x10;

pub const A: u64 = 0x40;

pub const D: u64 = 0x80;

/// The physical page number starts here in every PTE format.
pub const PPN_SHIFT: u32 = 10;

/// Sv39 addresses below this are the low half.
pub const SV39_LOW_END: u64 = 0x40_0000_0000;

/// Sv39 addresses from here on are the high half.
pub const SV39_HIGH_START: u64 = 0xffff_ffc0_0000_0000;

/// The translation scheme selected by `satp`.
#[derive(Debug, Clone, Copy, PartialEq, Eq, Structural)]
pub enum Mode {
    Bare,
    Sv32,
    Sv39,
}

impl Mode {
    pub open spec fn spec_of(satp: u64, xlen: Xlen) -> Mode {
        if xlen == Xlen::Rv32 && satp >> 31 == 1 {
            Mode::Sv32
        } else if xlen == Xlen::Rv64 && satp >> 60 == 8 {
            Mode::Sv39
        } else {
            Mode::Bare
        }
    }

    /// Any other value of `satp`, including the Sv48 and Sv57 encodings this
    /// hart does not implement, reads as Bare.
    fn of(satp: u64, xlen: Xlen) -> (r: Mode)
        ensures
            r == Mode::spec_of(satp, xlen),
    {
        if xlen == Xlen::Rv32 && satp >> 31 == 1 {
            Mode::Sv32
        } else if xlen == Xlen::Rv64 && satp >> 60 == 8 {
            Mode::Sv39
        } else {
            Mode::Bare
        }
    }

    /// Levels, bits of VPN per level, and PTE size in bytes.
    pub open spec fn spec_shape(self) -> (u32, u32, u64) {
        match self {
            Mode::Sv32 => (2, 10, 4),
            Mode::Sv39 => (3, 9, 8),
            Mode::Bare => (0, 0, 0),
        }
    }

    fn shape(self) -> (r: (u32, u32, u64))
        ensures
            r == self.spec_shape(),
    {
        match self {
            Mode::Sv32 => (2, 10, 4),
            Mode::Sv39 => (3, 9, 8),
            Mode::Bare => (0, 0, 0),
        }
    }

    /// How many bits a physical page number has.
    pub open spec fn spec_ppn_bits(self) -> u32 {
        if self == Mode::Sv32 {
            22
        } else {
            44
        }
    }

    fn ppn_bits(self) -> (r: u32)
        ensures
            r == self.spec_ppn_bits(),
    {
        if self == Mode::Sv32 {
            22
        } else {
            44
        }
    }

    /// Sv39 defines only 39 address bits; the rest must be a sign extension
    /// of bit 38.
    pub open spec fn canonical(self, va: u64) -> bool {
        self == Mode::Sv39 ==> va < SV39_LOW_END || va >= SV39_HIGH_START
    }
}

/// The privilege an access is performed at. MPRV makes machine-mode loads and
/// stores behave as though they came from MPP; it never applies to fetch.
pub open spec fn spec_effective(mode: Priv, status: u64, access: Access) -> Priv {
    if access != Access::Fetch && status & mstatus::MPRV != 0 {
        Priv::spec_from_bits((status & mstatus::MPP) >> mstatus::MPP_SHIFT)
    } else {
        mode
    }
}

/// One access to be translated.
pub struct Request {
    pub scheme: Mode,
    pub effective: Priv,
    pub status: u64,
    pub va: u64,
    pub access: Access,
}

impl Request {
    pub open spec fn vpn_bits(self) -> nat {
        self.scheme.spec_shape().1 as nat
    }

    pub open spec fn pte_size(self) -> u64 {
        self.scheme.spec_shape().2
    }

    /// The part of the virtual address that indexes the table at a level.
    pub open spec fn vpn(self, level: nat) -> nat {
        (self.va as nat / pow2(12 + self.vpn_bits() * level)) % pow2(self.vpn_bits())
    }

    /// Where the entry for this address lies in a table.
    pub open spec fn pte_addr(self, table: nat, level: nat) -> u64 {
        (table + self.vpn(level) * self.pte_size()) as u64
    }

    /// The physical page number in an entry.
    pub open spec fn ppn(self, pte: u64) -> nat {
        (pte as nat / pow2(10)) % pow2(self.scheme.spec_ppn_bits() as nat)
    }

    /// Not valid, or the reserved write-without-read encoding.
    pub open spec fn invalid(pte: u64) -> bool {
        pte & V == 0 || (pte & R == 0 && pte & W != 0)
    }

    /// A pointer to the next level down, rather than a leaf.
    pub open spec fn is_pointer(pte: u64) -> bool {
        pte & (R | X) == 0
    }

    /// Whether this privilege may touch the page at all.
    pub open spec fn may_touch(self, pte: u64) -> bool {
        match self.effective {
            Priv::User => pte & U != 0,
            Priv::Supervisor => pte & U == 0 || (self.access != Access::Fetch && self.status
                & mstatus::SUM != 0),
            Priv::Machine => true,
        }
    }

    /// Whether the page allows this kind of access.
    pub open spec fn permitted(self, pte: u64) -> bool {
        match self.access {
            Access::Fetch => pte & X != 0,
            Access::Load => pte & R != 0 || (self.status & mstatus::MXR != 0 && pte & X != 0),
            Access::Store => pte & W != 0,
        }
    }

    /// A superpage must be aligned: the PPN bits below its level have to be
    /// zero, because they come from the virtual address instead.
    pub open spec fn aligned(self, pte: u64, level: nat) -> bool {
        self.ppn(pte) % pow2(self.vpn_bits() * level) == 0
    }

    /// The accessed bit, and for a store the dirty bit.
    pub open spec fn need(self) -> u64 {
        if self.access == Access::Store {
            A | D
        } else {
            A
        }
    }

    /// The page the entry names, and the offset into it, which for a superpage
    /// takes in the lower levels' part of the virtual address.
    pub open spec fn target(self, pte: u64, level: nat) -> u64 {
        (self.ppn(pte) * PAGE_SIZE + self.va as nat % pow2(12 + self.vpn_bits() * level)) as u64
    }

    /// Walks the table at `table` for `level`, and says where the address
    /// leads, if anywhere, and what the walk did to memory.
    pub open spec fn walk(self, mem: MemState, table: nat, level: nat) -> (MemState, Option<u64>)
        decreases level,
    {
        let addr = self.pte_addr(table, level);
        match mem.read_value(addr, self.pte_size()) {
            None => (mem, None),
            Some(pte) => {
                let seen = mem.after_read(addr, self.pte_size());
                if Self::invalid(pte) {
                    (seen, None)
                } else if Self::is_pointer(pte) {
                    if level == 0 {
                        (seen, None)
                    } else {
                        self.walk(seen, self.ppn(pte) * PAGE_SIZE as nat, (level - 1) as nat)
                    }
                } else if self.may_touch(pte) && self.permitted(pte) && self.aligned(pte, level) {
                    if pte & self.need() == self.need() {
                        (seen, Some(self.target(pte, level)))
                    } else {
                        match seen.write(addr, self.pte_size(), pte | self.need()) {
                            Some(marked) => (marked, Some(self.target(pte, level))),
                            None => (seen, None),
                        }
                    }
                } else {
                    (seen, None)
                }
            },
        }
    }

    /// The leaf the walk reaches, if it reaches one.
    pub open spec fn leaf(self, mem: MemState, table: nat, level: nat) -> Option<u64>
        decreases level,
    {
        let addr = self.pte_addr(table, level);
        match mem.read_value(addr, self.pte_size()) {
            None => None,
            Some(pte) => {
                if Self::invalid(pte) {
                    None
                } else if Self::is_pointer(pte) {
                    if level == 0 {
                        None
                    } else {
                        self.leaf(
                            mem.after_read(addr, self.pte_size()),
                            self.ppn(pte) * PAGE_SIZE as nat,
                            (level - 1) as nat,
                        )
                    }
                } else {
                    Some(pte)
                }
            },
        }
    }

    /// Whether no entry the walk looks at lies in a device: each is in DRAM,
    /// as a page table should be, or nothing answers there.
    pub open spec fn in_ram(self, mem: MemState, table: nat, level: nat) -> bool
        decreases level,
    {
        let addr = self.pte_addr(table, level);
        &&& mem.place(addr, self.pte_size()) is Dram || mem.place(addr, self.pte_size()) is Nothing
        &&& match mem.read_value(addr, self.pte_size()) {
            Some(pte) => !Self::invalid(pte) && Self::is_pointer(pte) && level > 0 ==> self.in_ram(
                mem,
                self.ppn(pte) * PAGE_SIZE as nat,
                (level - 1) as nat,
            ),
            None => true,
        }
    }

    /// Starts the walk at the root table.
    pub open spec fn start(self, mem: MemState, satp: u64) -> (MemState, Option<u64>) {
        let root = satp as nat % pow2(self.scheme.spec_ppn_bits() as nat);
        self.walk(mem, root * PAGE_SIZE as nat, (self.scheme.spec_shape().0 - 1) as nat)
    }
}

/// Whether an access goes to the address it names, with no translation.
pub open spec fn spec_untranslated(
    xlen: Xlen,
    satp: u64,
    status: u64,
    mode: Priv,
    access: Access,
) -> bool {
    Mode::spec_of(satp, xlen) == Mode::Bare || spec_effective(mode, status, access) == Priv::Machine
}

/// Where an access leads: the state of memory afterwards, and the physical
/// address or the page fault.
pub open spec fn spec_translate(
    mem: MemState,
    xlen: Xlen,
    satp: u64,
    status: u64,
    mode: Priv,
    va: u64,
    access: Access,
) -> (MemState, Result<u64, Exception>) {
    let effective = spec_effective(mode, status, access);
    let scheme = Mode::spec_of(satp, xlen);
    let request = Request { scheme, effective, status, va, access };
    if spec_untranslated(xlen, satp, status, mode, access) {
        (mem, Ok(va))
    } else if !scheme.canonical(va) {
        (mem, Err(Exception::spec_page_fault(access, va)))
    } else {
        let (after, found) = request.start(mem, satp);
        match found {
            Some(pa) => (after, Ok(pa)),
            None => (after, Err(Exception::spec_page_fault(access, va))),
        }
    }
}

/// A page number times the page size, plus a table offset, stays far below
/// the top of the address space.
proof fn lemma_pte_addr(request: Request, page: nat, level: nat)
    requires
        request.scheme != Mode::Bare,
        page < pow2(request.scheme.spec_ppn_bits() as nat),
    ensures
        request.vpn(level) < 1024,
        page < 0x1000_0000_0000,
        request.pte_addr(page * PAGE_SIZE as nat, level) == page * PAGE_SIZE + request.vpn(level)
            * request.pte_size(),
{
    lemma2_to64();
    lemma2_to64_rest();
    lemma_pow2_pos(12 + request.vpn_bits() * level);
    lemma_mod_bound(
        (request.va as nat / pow2(12 + request.vpn_bits() * level)) as int,
        pow2(request.vpn_bits()) as int,
    );
    assert(request.vpn(level) * request.pte_size() <= 1024 * 8) by (nonlinear_arith)
        requires
            request.vpn(level) < 1024,
            request.pte_size() <= 8,
    ;
}

/// Where the pieces of a virtual address come from, for the levels there are.
proof fn lemma_levels(request: Request, level: nat)
    requires
        request.scheme != Mode::Bare,
        level < request.scheme.spec_shape().0,
    ensures
        request.vpn_bits() * level <= 18,
{
    assert(request.vpn_bits() * level <= 18) by (nonlinear_arith)
        requires
            request.vpn_bits() == 10 && level <= 1 || request.vpn_bits() == 9 && level <= 2,
    ;
}

/// Whether an access goes to the address it names.
pub fn untranslated(xlen: Xlen, satp: u64, status: u64, mode: Priv, access: Access) -> (r: bool)
    ensures
        r == spec_untranslated(xlen, satp, status, mode, access),
{
    let effective = if access != Access::Fetch && status & mstatus::MPRV != 0 {
        Priv::from_bits((status & mstatus::MPP) >> mstatus::MPP_SHIFT)
    } else {
        mode
    };
    Mode::of(satp, xlen) == Mode::Bare || effective == Priv::Machine
}

/// Translates a virtual address, updating the A and D bits as it goes.
///
/// `mode` is the privilege the access is performed at, which is not always
/// the privilege the hart is running at: MPRV makes machine-mode loads and
/// stores behave as though they came from MPP, so a trap handler can reach
/// into the address space it interrupted.
pub fn translate(
    mem: &mut Memory,
    xlen: Xlen,
    satp: u64,
    status: u64,
    mode: Priv,
    va: u64,
    access: Access,
) -> (r: Result<u64, Exception>)
    ensures
        (final(mem)@, r) == spec_translate(old(mem)@, xlen, satp, status, mode, va, access),
{
    let effective = if access != Access::Fetch && status & mstatus::MPRV != 0 {
        Priv::from_bits((status & mstatus::MPP) >> mstatus::MPP_SHIFT)
    } else {
        mode
    };
    let scheme = Mode::of(satp, xlen);
    if scheme == Mode::Bare || effective == Priv::Machine {
        return Ok(va);
    }
    let fault = Exception::page_fault(access, va);
    let (levels, vpn_bits, pte_size) = scheme.shape();
    // Addresses that are not canonical are faulted rather than truncated, so a
    // stray pointer is caught instead of silently aliasing a valid page.
    if scheme == Mode::Sv39 && va >= SV39_LOW_END && va < SV39_HIGH_START {
        return Err(fault);
    }
    let ppn_bits = scheme.ppn_bits();
    let ghost request = Request { scheme, effective, status, va, access };
    let ghost start = old(mem)@;
    let mut page = wide::low64(satp, ppn_bits);
    let mut level = levels;
    proof {
        lemma_pow2_pos(ppn_bits as nat);
        lemma_mod_bound(satp as int, pow2(ppn_bits as nat) as int);
    }
    while level > 0
        invariant
            0 < levels,
            level <= levels,
            request == (Request { scheme, effective, status, va, access }),
            scheme != Mode::Bare,
            effective != Priv::Machine,
            (levels, vpn_bits, pte_size) == scheme.spec_shape(),
            ppn_bits == scheme.spec_ppn_bits(),
            page < pow2(ppn_bits as nat),
            fault == Exception::spec_page_fault(access, va),
            level > 0,
            request.start(start, satp) == request.walk(
                mem@,
                page as nat * PAGE_SIZE as nat,
                (level - 1) as nat,
            ),
            (request.start(start, satp).0, match request.start(start, satp).1 {
                Some(pa) => Ok::<u64, Exception>(pa),
                None => Err(fault),
            }) == spec_translate(start, xlen, satp, status, mode, va, access),
            start == old(mem)@,
        decreases level,
    {
        level = level - 1;
        proof {
            lemma_pte_addr(request, page as nat, level as nat);
            lemma_levels(request, level as nat);
            lemma_mul_is_commutative(vpn_bits as int, level as int);
        }
        let split = vpn_bits * level;
        let vpn = wide::low64(wide::shr64(va, 12 + split), vpn_bits);
        assert(vpn * pte_size <= 1024 * 8) by (nonlinear_arith)
            requires
                vpn < 1024,
                pte_size <= 8,
        ;
        let pte_addr = page * PAGE_SIZE + vpn * pte_size;
        assert(pte_addr == request.pte_addr(page as nat * PAGE_SIZE as nat, level as nat));
        let pte = match mem.read(pte_addr, pte_size) {
            Ok(pte) => pte,
            Err(_) => {
                return Err(fault);
            },
        };
        if pte & V == 0 || (pte & R == 0 && pte & W != 0) {
            return Err(fault);
        }
        let ppn = wide::low64(wide::shr64(pte, PPN_SHIFT), ppn_bits);
        proof {
            lemma_pow2_pos(ppn_bits as nat);
            lemma_mod_bound((pte as nat / pow2(10)) as int, pow2(ppn_bits as nat) as int);
        }
        if pte & (R | X) == 0 {
            if level == 0 {
                return Err(fault);
            }
            page = ppn;
            continue ;
        }
        let may_touch = match effective {
            Priv::User => pte & U != 0,
            // SUM lets the supervisor read and write user pages, but never
            // execute them: that would turn any user page into kernel code.
            Priv::Supervisor => pte & U == 0 || (access != Access::Fetch && status & mstatus::SUM
                != 0),
            Priv::Machine => true,
        };
        let permitted = match access {
            Access::Fetch => pte & X != 0,
            // MXR makes execute-only pages readable, which is how a kernel
            // reads its own instructions without mapping them writable.
            Access::Load => pte & R != 0 || (status & mstatus::MXR != 0 && pte & X != 0),
            Access::Store => pte & W != 0,
        };
        if !may_touch || !permitted || wide::low64(ppn, split) != 0 {
            return Err(fault);
        }
        // Update the accessed and dirty bits in place. The spec permits
        // faulting instead and letting software do it; updating here is what
        // the `dirty` conformance test expects.

        let need = if access == Access::Store {
            A | D
        } else {
            A
        };
        if pte & need != need {
            match mem.write(pte_addr, pte_size, pte | need) {
                Ok(()) => {},
                Err(_) => {
                    return Err(fault);
                },
            }
        }
        proof {
            lemma_pte_addr(request, ppn as nat, level as nat);
            lemma_pow2_pos((12 + split) as nat);
            lemma_mod_bound(va as int, pow2((12 + split) as nat) as int);
            wide::lemma_pow2_monotone((12 + split) as nat, 30);
            lemma2_to64();
        }
        // The high bits come from the entry, the low ones from the virtual
        // address, which is what makes a superpage bigger than a page.
        return Ok(ppn * PAGE_SIZE + wide::low64(va, 12 + split));
    }
    Err(fault)
}

/// Machine mode, and any mode with translation off, sees physical addresses.
pub proof fn law_untranslated_accesses_pass_through(
    mem: MemState,
    xlen: Xlen,
    satp: u64,
    status: u64,
    mode: Priv,
    va: u64,
    access: Access,
)
    requires
        spec_untranslated(xlen, satp, status, mode, access),
    ensures
        spec_translate(mem, xlen, satp, status, mode, va, access) == (
            mem,
            Ok::<u64, Exception>(va),
        ),
{
}

proof fn lemma_walk_offset(request: Request, mem: MemState, table: nat, level: nat)
    requires
        request.scheme != Mode::Bare,
        level < request.scheme.spec_shape().0,
        request.walk(mem, table, level).1 is Some,
    ensures
        (request.walk(mem, table, level).1->0) % PAGE_SIZE == request.va % PAGE_SIZE,
    decreases level,
{
    let addr = request.pte_addr(table, level);
    let pte = mem.read_value(addr, request.pte_size())->0;
    if Request::is_pointer(pte) {
        let seen = mem.after_read(addr, request.pte_size());
        lemma_walk_offset(request, seen, request.ppn(pte) * PAGE_SIZE as nat, (level - 1) as nat);
    } else {
        let split = request.vpn_bits() * level;
        let span = pow2(12 + split);
        lemma2_to64();
        lemma2_to64_rest();
        lemma_levels(request, level);
        lemma_pow2_pos(12 + split);
        lemma_pow2_pos(split);
        lemma_pow2_adds(12, split);
        wide::lemma_pow2_monotone(12 + split, 30);
        lemma_pow2_pos(request.scheme.spec_ppn_bits() as nat);
        lemma_mod_bound(
            (pte as nat / pow2(10)) as int,
            pow2(request.scheme.spec_ppn_bits() as nat) as int,
        );
        lemma_mod_bound(request.va as int, span as int);
        lemma_mod_mod(request.va as int, 4096, pow2(split) as int);
        lemma_mod_multiples_vanish(
            request.ppn(pte) as int,
            (request.va as nat % span) as int,
            4096,
        );
        lemma_mul_is_commutative(request.ppn(pte) as int, 4096);
    }
}

/// Translation moves pages, never bytes within a page: the offset of the
/// physical address is that of the virtual one.
pub proof fn law_the_page_offset_survives(
    mem: MemState,
    xlen: Xlen,
    satp: u64,
    status: u64,
    mode: Priv,
    va: u64,
    access: Access,
)
    requires
        spec_translate(mem, xlen, satp, status, mode, va, access).1 is Ok,
    ensures
        (spec_translate(mem, xlen, satp, status, mode, va, access).1->Ok_0) % PAGE_SIZE == va
            % PAGE_SIZE,
{
    let effective = spec_effective(mode, status, access);
    let scheme = Mode::spec_of(satp, xlen);
    let request = Request { scheme, effective, status, va, access };
    if scheme != Mode::Bare && effective != Priv::Machine {
        let root = satp as nat % pow2(scheme.spec_ppn_bits() as nat);
        lemma_walk_offset(
            request,
            mem,
            root * PAGE_SIZE as nat,
            (scheme.spec_shape().0 - 1) as nat,
        );
    }
}

proof fn lemma_failed_walk(request: Request, mem: MemState, table: nat, level: nat)
    requires
        request.walk(mem, table, level).1 is None,
    ensures
        request.walk(mem, table, level).0.dram == mem.dram,
    decreases level,
{
    let addr = request.pte_addr(table, level);
    match mem.read_value(addr, request.pte_size()) {
        Some(pte) => {
            if !Request::invalid(pte) && Request::is_pointer(pte) && level > 0 {
                let seen = mem.after_read(addr, request.pte_size());
                lemma_failed_walk(
                    request,
                    seen,
                    request.ppn(pte) * PAGE_SIZE as nat,
                    (level - 1) as nat,
                );
            }
        },
        None => {},
    }
}

/// A walk that fails, with no entry in a device, leaves memory as it was.
proof fn lemma_failed_walk_in_ram(request: Request, mem: MemState, table: nat, level: nat)
    requires
        request.walk(mem, table, level).1 is None,
        request.in_ram(mem, table, level),
    ensures
        request.walk(mem, table, level).0 == mem,
    decreases level,
{
    let addr = request.pte_addr(table, level);
    memory::law_a_load_leaves_memory_alone(mem, addr, request.pte_size());
    match mem.read_value(addr, request.pte_size()) {
        Some(pte) => {
            if !Request::invalid(pte) && Request::is_pointer(pte) && level > 0 {
                lemma_failed_walk_in_ram(
                    request,
                    mem,
                    request.ppn(pte) * PAGE_SIZE as nat,
                    (level - 1) as nat,
                );
            }
        },
        None => {},
    }
}

/// A page fault marks nothing: DRAM, and so every page table in it, is as it
/// was.
pub proof fn law_a_page_fault_marks_nothing(
    mem: MemState,
    xlen: Xlen,
    satp: u64,
    status: u64,
    mode: Priv,
    va: u64,
    access: Access,
)
    requires
        spec_translate(mem, xlen, satp, status, mode, va, access).1 is Err,
    ensures
        spec_translate(mem, xlen, satp, status, mode, va, access).0.dram == mem.dram,
{
    let effective = spec_effective(mode, status, access);
    let scheme = Mode::spec_of(satp, xlen);
    let request = Request { scheme, effective, status, va, access };
    if scheme.canonical(va) {
        let root = satp as nat % pow2(scheme.spec_ppn_bits() as nat);
        lemma_failed_walk(
            request,
            mem,
            root * PAGE_SIZE as nat,
            (scheme.spec_shape().0 - 1) as nat,
        );
    }
}

/// An address is only ever handed out by a leaf that allows the access: a
/// user page to user mode, a kernel page to fetch for the supervisor, a
/// writable one to a store.
pub proof fn law_every_access_is_permitted(
    request: Request,
    mem: MemState,
    table: nat,
    level: nat,
)
    requires
        request.walk(mem, table, level).1 is Some,
    ensures
        request.leaf(mem, table, level) matches Some(pte) && {
            &&& request.may_touch(pte) && request.permitted(pte)
            &&& request.effective == Priv::User ==> pte & U != 0
            &&& request.effective == Priv::Supervisor && request.access == Access::Fetch ==> pte & U
                == 0
            &&& request.access == Access::Store ==> pte & W != 0
        },
    decreases level,
{
    let addr = request.pte_addr(table, level);
    let pte = mem.read_value(addr, request.pte_size())->0;
    if Request::is_pointer(pte) {
        let seen = mem.after_read(addr, request.pte_size());
        law_every_access_is_permitted(
            request,
            seen,
            request.ppn(pte) * PAGE_SIZE as nat,
            (level - 1) as nat,
        );
    }
}

/// Setting the accessed and dirty bits changes nothing that a walk looks at.
proof fn lemma_marked(pte: u64, need: u64)
    requires
        need == A || need == A | D,
    ensures
        (pte | need) & V == pte & V,
        (pte | need) & R == pte & R,
        (pte | need) & W == pte & W,
        (pte | need) & X == pte & X,
        (pte | need) & U == pte & U,
        (pte | need) & (R | X) == pte & (R | X),
        (pte | need) & need == need,
        (pte | need) / 1024 == pte / 1024,
        pte < 0x1_0000_0000 ==> (pte | need) < 0x1_0000_0000,
{
    assert((pte | need) & 0x1 == pte & 0x1 && (pte | need) & 0x2 == pte & 0x2 && (pte | need) & 0x4
        == pte & 0x4 && (pte | need) & 0x8 == pte & 0x8 && (pte | need) & 0x10 == pte & 0x10 && (pte
        | need) & (0x2u64 | 0x8u64) == pte & (0x2u64 | 0x8u64) && (pte | need) & need == need && (
    pte | need) / 1024 == pte / 1024 && (pte < 0x1_0000_0000 ==> (pte | need) < 0x1_0000_0000))
        by (bit_vector)
        requires
            need == 0x40 || need == 0x40u64 | 0x80u64,
    ;
}

/// Marking a leaf leaves a leaf that the same walk finds marked.
#[verifier::spinoff_prover]
proof fn lemma_settled_leaf(request: Request, mem: MemState, table: nat, level: nat)
    requires
        request.scheme != Mode::Bare,
        ({
            let place = mem.place(request.pte_addr(table, level), request.pte_size());
            place is Dram
        }),
        ({
            let pte = mem.read_value(request.pte_addr(table, level), request.pte_size())->0;
            !Request::is_pointer(pte)
        }),
        request.walk(mem, table, level).1 is Some,
    ensures
        ({
            let (after, found) = request.walk(mem, table, level);
            let addr = request.pte_addr(table, level);
            &&& request.walk(after, table, level) == (after, found)
            &&& after == mem || exists|value: u64|
                mem.write(addr, request.pte_size(), value) == Some(after)
        }),
{
    let size = request.pte_size();
    let addr = request.pte_addr(table, level);
    let pte = mem.read_value(addr, size)->0;
    let need = request.need();
    let (after, found) = request.walk(mem, table, level);
    memory::law_a_load_leaves_memory_alone(mem, addr, size);
    if pte & need != need {
        let marked = pte | need;
        lemma_marked(pte, need);
        assert(mem.write(addr, size, marked) == Some(after));
        memory::law_a_load_reads_the_last_store(mem, addr, size, marked);
        memory::law_a_load_fits_its_size(mem, addr, size);
        assert(marked as nat % pow2((8 * size) as nat) == marked) by {
            lemma2_to64();
            lemma2_to64_rest();
            lemma_small_mod(marked as nat, pow2((8 * size) as nat));
        }
        assert(after.read_value(addr, size) == Some(marked));
        assert(after.place(addr, size) is Dram) by {
            assert(after.dram.len() == mem.dram.len());
        }
        memory::law_a_load_leaves_memory_alone(after, addr, size);
        assert(request.ppn(marked) == request.ppn(pte)) by {
            lemma2_to64();
        }
        assert(!Request::invalid(marked) && !Request::is_pointer(marked));
        assert(request.may_touch(marked) && request.permitted(marked));
        assert(request.aligned(marked, level));
        assert(request.target(marked, level) == request.target(pte, level));
        assert(request.walk(after, table, level) == (after, Some(request.target(marked, level))));
    }
}

/// Two aligned entries are the same one or do not overlap.
proof fn lemma_aligned_entries(a: u64, b: u64, size: u64)
    requires
        size == 4 || size == 8,
        a % size == 0,
        b % size == 0,
        a != b,
    ensures
        a + size <= b || b + size <= a,
{
    if size == 4 {
        assert(a % 4 == 0 && b % 4 == 0);
    } else {
        assert(a % 8 == 0 && b % 8 == 0);
    }
}

/// What a successful walk does to memory: nothing, or one aligned store over
/// the leaf it found.
#[verifier::spinoff_prover]
proof fn lemma_settled_walk(request: Request, mem: MemState, page: nat, level: nat) -> (leaf: u64)
    requires
        request.scheme != Mode::Bare,
        page < pow2(request.scheme.spec_ppn_bits() as nat),
        request.in_ram(mem, page * PAGE_SIZE as nat, level),
        request.walk(mem, page * PAGE_SIZE as nat, level).1 is Some,
    ensures
        ({
            let (after, found) = request.walk(mem, page * PAGE_SIZE as nat, level);
            let size = request.pte_size();
            &&& request.walk(after, page * PAGE_SIZE as nat, level) == (after, found)
            &&& leaf % size == 0
            &&& mem.read_value(leaf, size) matches Some(pte) && !Request::is_pointer(pte)
            &&& after == mem || exists|value: u64| mem.write(leaf, size, value) == Some(after)
        }),
    decreases level,
{
    let table = page * PAGE_SIZE as nat;
    let size = request.pte_size();
    let addr = request.pte_addr(table, level);
    let pte = mem.read_value(addr, size)->0;
    let (after, found) = request.walk(mem, table, level);
    assert(addr % size == 0) by {
        lemma_pte_addr(request, page, level);
        let v = request.vpn(level) as int;
        if size == 4 {
            assert(addr == page * 4096 + v * 4);
            assert(addr % 4 == 0);
        } else {
            assert(addr == page * 4096 + v * 8);
            assert(addr % 8 == 0);
        }
    }
    memory::law_a_load_leaves_memory_alone(mem, addr, size);
    if Request::is_pointer(pte) {
        let next = request.ppn(pte);
        assert(next < pow2(request.scheme.spec_ppn_bits() as nat)) by {
            lemma_pow2_pos(request.scheme.spec_ppn_bits() as nat);
            lemma_mod_bound(
                (pte as nat / pow2(10)) as int,
                pow2(request.scheme.spec_ppn_bits() as nat) as int,
            );
        }
        let leaf = lemma_settled_walk(request, mem, next, (level - 1) as nat);
        if after != mem {
            let value = choose|value: u64| mem.write(leaf, size, value) == Some(after);
            // The leaf is not this pointer, and both are aligned.
            assert(leaf != addr);
            lemma_aligned_entries(leaf, addr, size);
            memory::law_a_store_leaves_other_bytes_alone(mem, leaf, size, value, addr, size);
            assert(after.read_value(addr, size) == Some(pte));
            assert(after.place(addr, size) is Dram) by {
                assert(after.dram.len() == mem.dram.len());
            }
            memory::law_a_load_leaves_memory_alone(after, addr, size);
        }
        leaf
    } else {
        lemma_settled_leaf(request, mem, table, level);
        addr
    }
}

/// The A and D bits settle: translating the same access again, with no page
/// table in a device, gives the same address or the same fault and changes
/// nothing more. A fault has changed nothing in the first place.
pub proof fn law_a_second_translation_changes_nothing(
    mem: MemState,
    xlen: Xlen,
    satp: u64,
    status: u64,
    mode: Priv,
    va: u64,
    access: Access,
)
    requires
        ({
            let scheme = Mode::spec_of(satp, xlen);
            let effective = spec_effective(mode, status, access);
            let request = Request { scheme, effective, status, va, access };
            let root = satp as nat % pow2(scheme.spec_ppn_bits() as nat);
            ||| spec_untranslated(xlen, satp, status, mode, access)
            ||| !scheme.canonical(va)
            ||| request.in_ram(
                mem,
                root * PAGE_SIZE as nat,
                (scheme.spec_shape().0 - 1) as nat,
            )
        }),
    ensures
        ({
            let (after, found) = spec_translate(mem, xlen, satp, status, mode, va, access);
            &&& spec_translate(after, xlen, satp, status, mode, va, access) == (after, found)
            &&& found is Err ==> after == mem
        }),
{
    let effective = spec_effective(mode, status, access);
    let scheme = Mode::spec_of(satp, xlen);
    let request = Request { scheme, effective, status, va, access };
    if scheme != Mode::Bare && effective != Priv::Machine && scheme.canonical(va) {
        let bits = scheme.spec_ppn_bits() as nat;
        lemma_pow2_pos(bits);
        lemma_mod_bound(satp as int, pow2(bits) as int);
        let root = satp as nat % pow2(bits);
        let level = (scheme.spec_shape().0 - 1) as nat;
        if request.start(mem, satp).1 is Some {
            let leaf = lemma_settled_walk(request, mem, root, level);
        } else {
            lemma_failed_walk_in_ram(request, mem, root * PAGE_SIZE as nat, level);
        }
    }
}

} // verus!
