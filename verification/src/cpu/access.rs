//! How the hart reaches memory: translation, then the physical access, with
//! every fault reported at a virtual address.

use crate::compress;
use crate::cpu::{Cpu, CpuState};
use crate::csr;
use crate::memory;
use crate::mmu;
use crate::trap::{Access, Exception};
use crate::wide;
use vstd::arithmetic::power2::*;
use vstd::prelude::*;

verus! {

impl CpuState {
    /// Where an access leads, and what finding out did to memory.
    #[verifier::opaque]
    pub open spec fn translate(self, va: u64, access: Access) -> (
        CpuState,
        Result<u64, Exception>,
    ) {
        let (mem, found) = mmu::spec_translate(
            self.mem,
            self.xlen,
            self.csrs.at(csr::SATP),
            self.csrs.at(csr::MSTATUS),
            self.priv_mode,
            va,
            access,
        );
        (CpuState { mem, ..self }, found)
    }

    /// Whether an access of this kind goes to the address it names.
    pub open spec fn untranslated(self, access: Access) -> bool {
        mmu::spec_untranslated(
            self.xlen,
            self.csrs.at(csr::SATP),
            self.csrs.at(csr::MSTATUS),
            self.priv_mode,
            access,
        )
    }

    /// Reads at a physical address on behalf of a virtual one.
    pub open spec fn read_at(self, pa: u64, size: u64, va: u64, access: Access) -> (
        CpuState,
        Result<u64, Exception>,
    ) {
        match self.mem.read_value(pa, size) {
            Some(v) => (CpuState { mem: self.mem.after_read(pa, size), ..self }, Ok(v)),
            None => (self, Err(Exception::spec_access_fault(access, va))),
        }
    }

    /// Writes at a physical address on behalf of a virtual one.
    pub open spec fn write_at(self, pa: u64, size: u64, value: u64, va: u64) -> (
        CpuState,
        Result<(), Exception>,
    ) {
        match self.mem.write(pa, size, value) {
            Some(mem) => (CpuState { mem, ..self }, Ok(())),
            None => (self, Err(Exception::StoreAccessFault(va))),
        }
    }

    /// How many bytes from here to the end of the page.
    pub open spec fn to_page_end(va: u64) -> u64 {
        (mmu::PAGE_SIZE - va % mmu::PAGE_SIZE) as u64
    }

    /// Loads `size` bytes. A translated access that crosses into a page which
    /// is not the next one in physical memory is made in two parts.
    #[verifier::opaque]
    pub open spec fn load(self, va: u64, size: u64) -> (CpuState, Result<u64, Exception>) {
        if self.untranslated(Access::Load) {
            self.read_at(va, size, va, Access::Load)
        } else {
            self.load_translated(va, size)
        }
    }

    pub open spec fn load_translated(self, va: u64, size: u64) -> (
        CpuState,
        Result<u64, Exception>,
    ) {
        let (s1, first) = self.translate(va, Access::Load);
        let n = Self::to_page_end(va);
        match first {
            Err(e) => (s1, Err(e)),
            Ok(pa) => if size <= n {
                s1.read_at(pa, size, va, Access::Load)
            } else {
                let next = self.xlen.wrap(va + n);
                let (s2, second) = s1.translate(next, Access::Load);
                match second {
                    Err(e) => (s2, Err(e)),
                    Ok(pb) => if pb == pa + n {
                        s2.read_at(pa, size, va, Access::Load)
                    } else {
                        let (s3, low) = s2.read_at(pa, n, va, Access::Load);
                        match low {
                            Err(e) => (s3, Err(e)),
                            Ok(low) => {
                                let (s4, high) = s3.read_at(
                                    pb,
                                    (size - n) as u64,
                                    next,
                                    Access::Load,
                                );
                                match high {
                                    Err(e) => (s4, Err(e)),
                                    Ok(high) => (
                                        s4,
                                        Ok((low + high * pow2((8 * n) as nat)) as u64),
                                    ),
                                }
                            },
                        }
                    },
                }
            },
        }
    }

    /// Stores the low `size` bytes of a register, handing the whole of it to
    /// memory. Both pages are translated, and so may fault, before anything is
    /// written.
    #[verifier::opaque]
    pub open spec fn store(self, va: u64, size: u64, value: u64) -> (
        CpuState,
        Result<(), Exception>,
    ) {
        if self.untranslated(Access::Store) {
            self.write_at(va, size, value, va)
        } else {
            self.store_translated(va, size, value)
        }
    }

    pub open spec fn store_translated(self, va: u64, size: u64, value: u64) -> (
        CpuState,
        Result<(), Exception>,
    ) {
        let (s1, first) = self.translate(va, Access::Store);
        let n = Self::to_page_end(va);
        match first {
            Err(e) => (s1, Err(e)),
            Ok(pa) => if size <= n {
                s1.write_at(pa, size, value, va)
            } else {
                let next = self.xlen.wrap(va + n);
                let (s2, second) = s1.translate(next, Access::Store);
                match second {
                    Err(e) => (s2, Err(e)),
                    Ok(pb) => if pb == pa + n {
                        s2.write_at(pa, size, value, va)
                    } else {
                        let (s3, low) = s2.write_at(pa, n, value, va);
                        match low {
                            Err(e) => (s3, Err(e)),
                            Ok(_) => s3.write_at(
                                pb,
                                (size - n) as u64,
                                (value as nat / pow2((8 * n) as nat)) as u64,
                                next,
                            ),
                        }
                    },
                }
            },
        }
    }

    /// Fetches one halfword of the instruction at `pc`. A page fault is
    /// reported at the halfword, whose page is the one to map; an access fault
    /// is reported at the instruction.
    pub open spec fn fetch_half(self, va: u64) -> (CpuState, Result<u64, Exception>) {
        let (s1, found) = self.translate(va, Access::Fetch);
        match found {
            Err(e) => (s1, Err(e)),
            Ok(pa) => s1.read_at(pa, 2, self.pc, Access::Fetch),
        }
    }

    /// Fetches one instruction, as the 32-bit word to execute and the number
    /// of bytes it took up. The two halves are fetched separately, since they
    /// may lie on different pages, and a compressed one is expanded.
    #[verifier::opaque]
    pub open spec fn fetch(self) -> (CpuState, Result<(u32, u64), Exception>) {
        if self.pc % 2 != 0 {
            (self, Err(Exception::InstructionAccessFault(self.pc)))
        } else {
            let (s1, first) = self.fetch_half(self.pc);
            match first {
                Err(e) => (s1, Err(e)),
                Ok(low) => if low % 4 != 3 {
                    match compress::spec_decompress(low as u32, self.xlen) {
                        Some(word) => (s1, Ok((word, 2))),
                        None => (s1, Err(Exception::IllegalInstruction(low as u32))),
                    }
                } else {
                    let (s2, second) = s1.fetch_half(self.xlen.wrap(self.pc + 2));
                    match second {
                        Err(e) => (s2, Err(e)),
                        Ok(high) => (s2, Ok(((low + 0x1_0000 * high) as u32, 4))),
                    }
                },
            }
        }
    }
}

impl Cpu {
    pub(crate) fn translate(&mut self, va: u64, access: Access) -> (r: Result<u64, Exception>)
        ensures
            (final(self)@, r) == old(self)@.translate(va, access),
            final(self)@ == (CpuState { mem: final(self)@.mem, ..old(self)@ }),
    {
        reveal(CpuState::translate);
        let satp = self.csrs.stored(csr::SATP);
        let status = self.csrs.stored(csr::MSTATUS);
        mmu::translate(&mut self.mem, self.xlen, satp, status, self.priv_mode, va, access)
    }

    pub(crate) fn untranslated(&self, access: Access) -> (r: bool)
        ensures
            r == self@.untranslated(access),
    {
        let satp = self.csrs.stored(csr::SATP);
        let status = self.csrs.stored(csr::MSTATUS);
        mmu::untranslated(self.xlen, satp, status, self.priv_mode, access)
    }

    pub(crate) fn read_at(&mut self, pa: u64, size: u64, va: u64, access: Access) -> (r: Result<
        u64,
        Exception,
    >)
        requires
            size <= 8,
        ensures
            (final(self)@, r) == old(self)@.read_at(pa, size, va, access),
            final(self)@ == (CpuState { mem: final(self)@.mem, ..old(self)@ }),
            r matches Ok(v) ==> v < pow2((8 * size) as nat),
    {
        proof {
            if self.mem@.read_value(pa, size) is Some {
                memory::law_a_load_fits_its_size(self.mem@, pa, size);
            }
        }
        match self.mem.read(pa, size) {
            Ok(v) => Ok(v),
            Err(_) => Err(Exception::access_fault(access, va)),
        }
    }

    pub(crate) fn write_at(&mut self, pa: u64, size: u64, value: u64, va: u64) -> (r: Result<
        (),
        Exception,
    >)
        requires
            size <= 8,
        ensures
            (final(self)@, r) == old(self)@.write_at(pa, size, value, va),
            final(self)@ == (CpuState { mem: final(self)@.mem, ..old(self)@ }),
    {
        match self.mem.write(pa, size, value) {
            Ok(()) => Ok(()),
            Err(_) => Err(Exception::StoreAccessFault(va)),
        }
    }

    /// Loads `size` bytes from a virtual address.
    pub(crate) fn load(&mut self, va: u64, size: u64) -> (r: Result<u64, Exception>)
        requires
            size <= 8,
        ensures
            (final(self)@, r) == old(self)@.load(va, size),
            final(self)@ == (CpuState { mem: final(self)@.mem, ..old(self)@ }),
            r matches Ok(v) ==> v < pow2((8 * size) as nat),
    {
        reveal(CpuState::load);
        if self.untranslated(Access::Load) {
            return self.read_at(va, size, va, Access::Load);
        }
        let n = mmu::PAGE_SIZE - va % mmu::PAGE_SIZE;
        let pa = match self.translate(va, Access::Load) {
            Ok(pa) => pa,
            Err(e) => {
                return Err(e);
            },
        };
        if size <= n {
            return self.read_at(pa, size, va, Access::Load);
        }
        let next = self.xlen.sum(va, n);
        let pb = match self.translate(next, Access::Load) {
            Ok(pb) => pb,
            Err(e) => {
                return Err(e);
            },
        };
        if pb >= n && pb - n == pa {
            return self.read_at(pa, size, va, Access::Load);
        }
        let low = match self.read_at(pa, n, va, Access::Load) {
            Ok(low) => low,
            Err(e) => {
                return Err(e);
            },
        };
        let high = match self.read_at(pb, size - n, next, Access::Load) {
            Ok(high) => high,
            Err(e) => {
                return Err(e);
            },
        };
        proof {
            let (p, q) = (pow2((8 * n) as nat) as int, pow2((8 * (size - n)) as nat) as int);
            lemma_pow2_pos((8 * n) as nat);
            lemma_pow2_adds((8 * n) as nat, (8 * (size - n)) as nat);
            wide::lemma_pow2_monotone((8 * size) as nat, 64);
            wide::lemma_pow2_fits(64);
            assert(low + high * p < p * q) by (nonlinear_arith)
                requires
                    0 <= low < p,
                    0 <= high <= q - 1,
            ;
        }
        Ok(low + wide::shl64(high, 8 * n as u32))
    }

    /// Stores the low `size` bytes of a value at a virtual address.
    pub(crate) fn store(&mut self, va: u64, size: u64, value: u64) -> (r: Result<(), Exception>)
        requires
            size <= 8,
        ensures
            (final(self)@, r) == old(self)@.store(va, size, value),
            final(self)@ == (CpuState { mem: final(self)@.mem, ..old(self)@ }),
    {
        reveal(CpuState::store);
        if self.untranslated(Access::Store) {
            return self.write_at(va, size, value, va);
        }
        let n = mmu::PAGE_SIZE - va % mmu::PAGE_SIZE;
        let pa = match self.translate(va, Access::Store) {
            Ok(pa) => pa,
            Err(e) => {
                return Err(e);
            },
        };
        if size <= n {
            return self.write_at(pa, size, value, va);
        }
        let next = self.xlen.sum(va, n);
        let pb = match self.translate(next, Access::Store) {
            Ok(pb) => pb,
            Err(e) => {
                return Err(e);
            },
        };
        if pb >= n && pb - n == pa {
            return self.write_at(pa, size, value, va);
        }
        match self.write_at(pa, n, value, va) {
            Ok(()) => {},
            Err(e) => {
                return Err(e);
            },
        }
        self.write_at(pb, size - n, wide::shr64(value, 8 * n as u32), next)
    }

    fn fetch_half(&mut self, va: u64) -> (r: Result<u64, Exception>)
        ensures
            (final(self)@, r) == old(self)@.fetch_half(va),
            final(self)@ == (CpuState { mem: final(self)@.mem, ..old(self)@ }),
            r matches Ok(v) ==> v < 0x1_0000,
    {
        proof {
            lemma2_to64();
        }
        let here = self.pc;
        match self.translate(va, Access::Fetch) {
            Ok(pa) => self.read_at(pa, 2, here, Access::Fetch),
            Err(e) => Err(e),
        }
    }

    /// Fetches the instruction at `pc`, as the word to execute and the number
    /// of bytes it took up.
    pub(crate) fn fetch(&mut self) -> (r: Result<(u32, u64), Exception>)
        ensures
            (final(self)@, r) == old(self)@.fetch(),
            final(self)@ == (CpuState { mem: final(self)@.mem, ..old(self)@ }),
    {
        reveal(CpuState::fetch);
        // Only bit 0 may fault: with C, an instruction needs no more than
        // two-byte alignment.
        let pc = self.pc;
        if pc % 2 != 0 {
            return Err(Exception::InstructionAccessFault(pc));
        }
        let low = match self.fetch_half(pc) {
            Ok(low) => low,
            Err(e) => {
                return Err(e);
            },
        };
        if low % 4 != 3 {
            return match compress::decompress(low as u32, self.xlen) {
                Some(word) => Ok((word, 2)),
                None => Err(Exception::IllegalInstruction(low as u32)),
            };
        }
        match self.fetch_half(self.xlen.sum(pc, 2)) {
            Ok(high) => Ok(((low + 0x1_0000 * high) as u32, 4)),
            Err(e) => Err(e),
        }
    }
}

/// Translating changes memory, and nothing else of the hart.
pub proof fn law_translating_changes_only_memory(s: CpuState, va: u64, access: Access)
    ensures
        s.translate(va, access).0 == (CpuState { mem: s.translate(va, access).0.mem, ..s }),
{
    reveal(CpuState::translate);
}

/// A load changes memory at most, and nothing else of the hart.
pub proof fn law_a_load_changes_only_memory(s: CpuState, va: u64, size: u64)
    ensures
        s.load(va, size).0 == (CpuState { mem: s.load(va, size).0.mem, ..s }),
{
    reveal(CpuState::load);
    let (s1, _) = s.translate(va, Access::Load);
    let next = s.xlen.wrap(va + CpuState::to_page_end(va));
    law_translating_changes_only_memory(s, va, Access::Load);
    law_translating_changes_only_memory(s1, next, Access::Load);
}

/// A store changes memory, and nothing else of the hart.
pub proof fn law_a_store_changes_only_memory(s: CpuState, va: u64, size: u64, value: u64)
    ensures
        s.store(va, size, value).0 == (CpuState { mem: s.store(va, size, value).0.mem, ..s }),
{
    reveal(CpuState::store);
    let (s1, _) = s.translate(va, Access::Store);
    let next = s.xlen.wrap(va + CpuState::to_page_end(va));
    law_translating_changes_only_memory(s, va, Access::Store);
    law_translating_changes_only_memory(s1, next, Access::Store);
}

/// A fetch changes memory at most, and nothing else of the hart.
pub proof fn law_a_fetch_changes_only_memory(s: CpuState)
    ensures
        s.fetch().0 == (CpuState { mem: s.fetch().0.mem, ..s }),
{
    reveal(CpuState::fetch);
    let (s1, _) = s.fetch_half(s.pc);
    law_translating_changes_only_memory(s, s.pc, Access::Fetch);
    law_translating_changes_only_memory(s1, s.xlen.wrap(s.pc + 2), Access::Fetch);
}

} // verus!
