//! What Sv32 and Sv39 do, said of the numbers in DRAM: which entry of which
//! table is looked at, what its bits allow, and where it leads.

use crate::cpu::isa;
use crate::cpu::Xlen;
use crate::memory::{self, MemState};
use crate::mmu::{self, Mode, Request};
use crate::trap::{Access, Exception, Priv};
use vstd::arithmetic::div_mod::*;
use vstd::arithmetic::mul::*;
use vstd::arithmetic::power2::*;
use vstd::prelude::*;

verus! {

/// The privilege an access is made with: bit 17 of `mstatus` hands loads and
/// stores, and never fetches, the mode in bits 12:11.
pub open spec fn acts_as(mode: Priv, status: u64, access: Access) -> Priv {
    if access != Access::Fetch && status & 0x2_0000 != 0 {
        if (status / 0x800) % 4 == 0 {
            Priv::User
        } else if (status / 0x800) % 4 == 1 {
            Priv::Supervisor
        } else {
            Priv::Machine
        }
    } else {
        mode
    }
}

proof fn lemma_acts_as(mode: Priv, status: u64, access: Access)
    ensures
        mmu::spec_effective(mode, status, access) == acts_as(mode, status, access),
{
    assert((status & 0x1800) >> 11u32 == (status / 0x800) % 4) by (bit_vector);
}

/// Bits 63:38 all alike: the address is a sign extension of its low 39 bits.
pub open spec fn sign_extends(va: u64) -> bool {
    va as int / 0x40_0000_0000 == 0 || va as int / 0x40_0000_0000 == 0x3ff_ffff
}

/// Whether an entry leads nowhere: it is not valid, or it may be written and
/// not read.
pub open spec fn dead(pte: u64) -> bool {
    pte & 1 == 0 || (pte & 2 == 0 && pte & 4 != 0)
}

/// Whether an entry that is not dead points to another table: it may be
/// neither read nor executed.
pub open spec fn points(pte: u64) -> bool {
    pte & 2 == 0 && pte & 8 == 0
}

/// Whether a leaf lets this access through: user mode may touch only user
/// pages (bit 4); supervisor mode may touch user pages only with SUM (bit 18
/// of `mstatus`), and never execute them; and the page itself must be
/// executable, readable (or executable, with MXR, bit 19) or writable.
pub open spec fn lets(pte: u64, mode: Priv, status: u64, access: Access) -> bool {
    let user = pte & 0x10 != 0;
    &&& mode == Priv::User ==> user
    &&& mode == Priv::Supervisor && user ==> access != Access::Fetch && status & 0x4_0000 != 0
    &&& access == Access::Fetch ==> pte & 8 != 0
    &&& access == Access::Load ==> pte & 2 != 0 || status & 0x8_0000 != 0 && pte & 8 != 0
    &&& access == Access::Store ==> pte & 4 != 0
}

/// An entry with the accessed bit set, and for a store the dirty bit.
pub open spec fn used(pte: u64, access: Access) -> u64 {
    if access == Access::Store {
        pte | 0xc0
    } else {
        pte | 0x40
    }
}

/// Memory with the entry at an address so marked.
pub open spec fn marked(mem: MemState, addr: int, size: int, pte: u64, access: Access) -> MemState {
    let v = used(pte, access);
    if v == pte {
        mem
    } else {
        MemState {
            dram: isa::poked(mem.dram, addr - 0x8000_0000, size, v as int),
            tohost_value: if mem.tohost == Some(addr as u64) {
                Some(v)
            } else {
                mem.tohost_value
            },
            ..mem
        }
    }
}

/// The entry at an address in DRAM.
pub open spec fn entry(mem: MemState, addr: int, size: int) -> u64 {
    isa::number(mem.dram, addr - 0x8000_0000, size) as u64
}

pub open spec fn held(mem: MemState, addr: int, size: int) -> bool {
    0x8000_0000 <= addr && addr - 0x8000_0000 + size <= mem.dram.len()
}

proof fn lemma_flags(pte: u64, access: Access)
    ensures
        pte & (2u64 | 8u64) == 0 <==> pte & 2 == 0 && pte & 8 == 0,
        ({
            let need: u64 = if access == Access::Store { 0x40u64 | 0x80u64 } else { 0x40 };
            &&& pte | need == used(pte, access)
            &&& pte & need == need <==> used(pte, access) == pte
            &&& used(pte, access) != 0
        }),
{
    assert((pte & (2u64 | 8u64) == 0 <==> pte & 2 == 0 && pte & 8 == 0) && (0x40u64 | 0x80u64
        == 0xc0) && (pte & 0xc0 == 0xc0 <==> pte | 0xc0 == pte) && (pte & 0x40 == 0x40 <==> pte
        | 0x40 == pte) && pte | 0x40 != 0 && pte | 0xc0 != 0) by (bit_vector);
}

/// One step of a walk, on an entry in DRAM.
/// Whether nothing answers where an entry should be.
pub open spec fn absent(mem: MemState, addr: int, size: int) -> bool {
    mem.read_value(addr as u64, size as u64) is None
}

proof fn lemma_absent(request: Request, mem: MemState, page: nat, level: nat, vpn: nat)
    requires
        request.scheme != Mode::Bare,
        page < pow2(request.scheme.spec_ppn_bits() as nat),
        request.vpn(level) == vpn,
        absent(mem, page * 4096 + request.pte_size() * vpn, request.pte_size() as int),
    ensures
        request.walk(mem, page * 4096, level) == (mem, None::<u64>),
{
    mmu::lemma_pte_addr(request, page, level);
    lemma_mul_is_commutative(request.pte_size() as int, vpn as int);
}

proof fn lemma_level(request: Request, mem: MemState, page: nat, level: nat, index: nat)
    requires
        request.scheme != Mode::Bare,
        request.effective != Priv::Machine,
        page < pow2(request.scheme.spec_ppn_bits() as nat),
        level < request.scheme.spec_shape().0,
        index == request.vpn(level),
        held(mem, page * 4096 + index * request.pte_size(), request.pte_size() as int),
    ensures
        ({
            let size = request.pte_size() as int;
            let addr = page * 4096 + index * size;
            let pte = entry(mem, addr, size);
            let ppn = (pte as int / 1024) % pow2(request.scheme.spec_ppn_bits() as nat) as int;
            let split = pow2(request.vpn_bits() * level) as int;
            request.walk(mem, page * 4096, level) == if dead(pte) {
                (mem, None::<u64>)
            } else if points(pte) {
                if level == 0 {
                    (mem, None)
                } else {
                    request.walk(mem, (ppn * 4096) as nat, (level - 1) as nat)
                }
            } else if lets(pte, request.effective, request.status, request.access) && ppn % split
                == 0 {
                (
                    marked(mem, addr, size, pte, request.access),
                    Some(request.target(pte, level)),
                )
            } else {
                (mem, None)
            }
        }),
{
    let size = request.pte_size();
    let addr = request.pte_addr(page * 4096, level);
    mmu::lemma_pte_addr(request, page, level);
    assert(addr == page * 4096 + index * size);
    let i = addr - 0x8000_0000;
    isa::lemma_number(mem.dram, i, size as int);
    lemma2_to64();
    lemma2_to64_rest();
    memory::law_a_load_leaves_memory_alone(mem, addr, size);
    let pte = entry(mem, addr as int, size as int);
    assert(mem.read_value(addr, size) == Some(pte));
    lemma_flags(pte, request.access);
    let v = used(pte, request.access);
    assert(memory::overlay(mem.dram, i, memory::le_bytes(v as nat, size as nat)) =~= isa::poked(
        mem.dram,
        i,
        size as int,
        v as int,
    ));
}

/// An access that is not translated goes to the address it names: one made
/// with machine privilege, or while `satp` selects no scheme.
pub proof fn law_who_is_translated(
    mem: MemState,
    xlen: Xlen,
    satp: u64,
    status: u64,
    mode: Priv,
    va: u64,
    access: Access,
)
    requires
        acts_as(mode, status, access) == Priv::Machine || xlen == Xlen::Rv32 && satp as int
            / 0x8000_0000 != 1 || xlen == Xlen::Rv64 && satp as int / 0x1000_0000_0000_0000 != 8,
    ensures
        mmu::spec_translate(mem, xlen, satp, status, mode, va, access) == (
            mem,
            Ok::<u64, Exception>(va),
        ),
{
    lemma_acts_as(mode, status, access);
    assert(satp >> 31 == satp / 0x8000_0000 && satp >> 60 == satp / 0x1000_0000_0000_0000)
        by (bit_vector);
}

/// The page fault of each kind of access.
pub open spec fn fault(access: Access, va: u64) -> Result<u64, Exception> {
    Err(
        match access {
            Access::Fetch => Exception::InstructionPageFault(va),
            Access::Load => Exception::LoadPageFault(va),
            Access::Store => Exception::StorePageFault(va),
        },
    )
}

/// Where a leaf leads, if it lets the access through and its page number is a
/// multiple of `span` pages: to the byte of that stretch that the low bits of
/// the address name.
pub open spec fn leads(
    mem: MemState,
    addr: int,
    size: int,
    ppns: int,
    span: int,
    mode: Priv,
    status: u64,
    va: u64,
    access: Access,
) -> (MemState, Result<u64, Exception>) {
    let pte = entry(mem, addr, size);
    let ppn = (pte as int / 1024) % ppns;
    if lets(pte, mode, status, access) && ppn % span == 0 {
        (
            marked(mem, addr, size, pte, access),
            Ok((ppn * 4096 + va as int % (span * 4096)) as u64),
        )
    } else {
        (mem, fault(access, va))
    }
}

/// Sv39. The root is the page in bits 43:0 of `satp`; bits 38:30, 29:21 and
/// 20:12 of the address index three levels of tables of 8-byte entries, whose
/// bits 53:10 name a page. A leaf covers 1 GiB, 2 MiB or 4 KiB. A table that
/// nothing answers at has no entries. An address that is not the sign extension
/// of its low 39 bits faults, in either direction, and every other is walked.
pub proof fn law_sv39_walks_three_levels(
    mem: MemState,
    satp: u64,
    status: u64,
    mode: Priv,
    va: u64,
    access: Access,
)
    requires
        satp as int / 0x1000_0000_0000_0000 == 8,
        acts_as(mode, status, access) != Priv::Machine,
    ensures
        ({
            let r = mmu::spec_translate(mem, Xlen::Rv64, satp, status, mode, va, access);
            let who = acts_as(mode, status, access);
            let ppns = 0x1000_0000_0000int;
            let n = va as int;
            let a2 = (satp as int % ppns) * 4096 + 8 * ((n / 0x4000_0000) % 0x200);
            let p2 = entry(mem, a2, 8);
            let a1 = ((p2 as int / 1024) % ppns) * 4096 + 8 * ((n / 0x20_0000) % 0x200);
            let p1 = entry(mem, a1, 8);
            let a0 = ((p1 as int / 1024) % ppns) * 4096 + 8 * ((n / 0x1000) % 0x200);
            let p0 = entry(mem, a0, 8);
            let bad = (mem, fault(access, va));
            &&& !sign_extends(va) || absent(mem, a2, 8) ==> r == bad
            &&& sign_extends(va) && held(mem, a2, 8) ==> {
                &&& dead(p2) ==> r == bad
                &&& !dead(p2) && points(p2) && absent(mem, a1, 8) ==> r == bad
                &&& !dead(p2) && !points(p2) ==> r == leads(
                    mem,
                    a2,
                    8,
                    ppns,
                    0x4_0000,
                    who,
                    status,
                    va,
                    access,
                )
                &&& !dead(p2) && points(p2) && held(mem, a1, 8) ==> {
                    &&& dead(p1) ==> r == bad
                    &&& !dead(p1) && points(p1) && absent(mem, a0, 8) ==> r == bad
                    &&& !dead(p1) && !points(p1) ==> r == leads(
                        mem,
                        a1,
                        8,
                        ppns,
                        0x200,
                        who,
                        status,
                        va,
                        access,
                    )
                    &&& !dead(p1) && points(p1) && held(mem, a0, 8) ==> {
                        &&& dead(p0) || points(p0) ==> r == bad
                        &&& !dead(p0) && !points(p0) ==> r == leads(
                            mem,
                            a0,
                            8,
                            ppns,
                            1,
                            who,
                            status,
                            va,
                            access,
                        )
                    }
                }
            }
        }),
{
    lemma_acts_as(mode, status, access);
    assert(satp >> 60 == satp / 0x1000_0000_0000_0000) by (bit_vector);
    let who = acts_as(mode, status, access);
    let request = Request { scheme: Mode::Sv39, effective: who, status, va, access };
    let ppns = 0x1000_0000_0000int;
    let n = va as int;
    lemma2_to64();
    lemma2_to64_rest();
    assert(request.vpn(2) == (n / 0x4000_0000) % 0x200);
    assert(request.vpn(1) == (n / 0x20_0000) % 0x200);
    assert(request.vpn(0) == (n / 0x1000) % 0x200);
    let root = satp as int % ppns;
    let a2 = root * 4096 + 8 * ((n / 0x4000_0000) % 0x200);
    let p2 = entry(mem, a2, 8);
    let n1 = (p2 as int / 1024) % ppns;
    let a1 = n1 * 4096 + 8 * ((n / 0x20_0000) % 0x200);
    let p1 = entry(mem, a1, 8);
    let n0 = (p1 as int / 1024) % ppns;
    let a0 = n0 * 4096 + 8 * ((n / 0x1000) % 0x200);
    assert(sign_extends(va) == Mode::Sv39.canonical(va));
    if absent(mem, a2, 8) {
        lemma_absent(request, mem, root as nat, 2, request.vpn(2));
    }
    if sign_extends(va) && held(mem, a2, 8) {
        lemma_level(request, mem, root as nat, 2, request.vpn(2));
        lemma_target(request, p2, 2);
        if absent(mem, a1, 8) {
            lemma_absent(request, mem, n1 as nat, 1, request.vpn(1));
        }
        if !dead(p2) && points(p2) && held(mem, a1, 8) {
            lemma_level(request, mem, n1 as nat, 1, request.vpn(1));
            lemma_target(request, p1, 1);
            if absent(mem, a0, 8) {
                lemma_absent(request, mem, n0 as nat, 0, request.vpn(0));
            }
            if !dead(p1) && points(p1) && held(mem, a0, 8) {
                lemma_level(request, mem, n0 as nat, 0, request.vpn(0));
                lemma_target(request, entry(mem, a0, 8), 0);
            }
        }
    }
}

/// How many pages a leaf at a level covers.
pub open spec fn pages(scheme: Mode, level: nat) -> int {
    if level == 0 {
        1
    } else if scheme == Mode::Sv32 {
        0x400
    } else if level == 1 {
        0x200
    } else {
        0x4_0000
    }
}

proof fn lemma_target(request: Request, pte: u64, level: nat)
    requires
        request.scheme != Mode::Bare,
        level < request.scheme.spec_shape().0,
    ensures
        pow2(request.vpn_bits() * level) == pages(request.scheme, level),
        ({
            let ppns = if request.scheme == Mode::Sv32 { 0x40_0000int } else { 0x1000_0000_0000int };
            let ppn = (pte as int / 1024) % ppns;
            request.target(pte, level) == (ppn * 4096 + request.va as int % (pages(
                request.scheme,
                level,
            ) * 4096)) as u64
        }),
{
    lemma2_to64();
    lemma2_to64_rest();
    assert(request.vpn_bits() * 0 == 0);
    assert(request.vpn_bits() * 1 == request.vpn_bits());
    assert(request.vpn_bits() * 2 == request.vpn_bits() + request.vpn_bits());
}

/// Sv32. The root is the page in bits 21:0 of `satp`; bits 31:22 and 21:12 of
/// the address index two levels of tables of 4-byte entries, whose bits 31:10
/// name a page. A leaf covers 4 MiB or 4 KiB.
pub proof fn law_sv32_walks_two_levels(
    mem: MemState,
    satp: u64,
    status: u64,
    mode: Priv,
    va: u64,
    access: Access,
)
    requires
        satp as int / 0x8000_0000 == 1,
        acts_as(mode, status, access) != Priv::Machine,
    ensures
        ({
            let r = mmu::spec_translate(mem, Xlen::Rv32, satp, status, mode, va, access);
            let who = acts_as(mode, status, access);
            let ppns = 0x40_0000int;
            let n = va as int;
            let a1 = (satp as int % ppns) * 4096 + 4 * ((n / 0x40_0000) % 0x400);
            let p1 = entry(mem, a1, 4);
            let a0 = ((p1 as int / 1024) % ppns) * 4096 + 4 * ((n / 0x1000) % 0x400);
            let p0 = entry(mem, a0, 4);
            let bad = (mem, fault(access, va));
            &&& absent(mem, a1, 4) ==> r == bad
            &&& held(mem, a1, 4) ==> {
                &&& dead(p1) ==> r == bad
                &&& !dead(p1) && points(p1) && absent(mem, a0, 4) ==> r == bad
                &&& !dead(p1) && !points(p1) ==> r == leads(
                    mem,
                    a1,
                    4,
                    ppns,
                    0x400,
                    who,
                    status,
                    va,
                    access,
                )
                &&& !dead(p1) && points(p1) && held(mem, a0, 4) ==> {
                    &&& dead(p0) || points(p0) ==> r == bad
                    &&& !dead(p0) && !points(p0) ==> r == leads(
                        mem,
                        a0,
                        4,
                        ppns,
                        1,
                        who,
                        status,
                        va,
                        access,
                    )
                }
            }
        }),
{
    lemma_acts_as(mode, status, access);
    assert(satp >> 31 == satp / 0x8000_0000) by (bit_vector);
    let who = acts_as(mode, status, access);
    let request = Request { scheme: Mode::Sv32, effective: who, status, va, access };
    let ppns = 0x40_0000int;
    let n = va as int;
    lemma2_to64();
    lemma2_to64_rest();
    assert(request.vpn(1) == (n / 0x40_0000) % 0x400);
    assert(request.vpn(0) == (n / 0x1000) % 0x400);
    let root = satp as int % ppns;
    let a1 = root * 4096 + 4 * ((n / 0x40_0000) % 0x400);
    let p1 = entry(mem, a1, 4);
    let n0 = (p1 as int / 1024) % ppns;
    let a0 = n0 * 4096 + 4 * ((n / 0x1000) % 0x400);
    if absent(mem, a1, 4) {
        lemma_absent(request, mem, root as nat, 1, request.vpn(1));
    }
    if held(mem, a1, 4) {
        lemma_level(request, mem, root as nat, 1, request.vpn(1));
        lemma_target(request, p1, 1);
        if absent(mem, a0, 4) {
            lemma_absent(request, mem, n0 as nat, 0, request.vpn(0));
        }
        if !dead(p1) && points(p1) && held(mem, a0, 4) {
            lemma_level(request, mem, n0 as nat, 0, request.vpn(0));
            lemma_target(request, entry(mem, a0, 4), 0);
        }
    }
}

} // verus!
