//! The physical address space: little-endian DRAM at a fixed base, the
//! memory-mapped devices, and the `tohost` handshake the riscv-tests suite
//! uses to report pass/fail.

use crate::clint::{self, Clint};
use crate::plic::{self, Plic, PlicState};
use crate::trap::Exception;
use crate::uart::{self, Uart, UartState};
use crate::wide;
use vstd::arithmetic::div_mod::*;
use vstd::arithmetic::power2::*;
use vstd::prelude::*;

pub mod laws;

verus! {

/// Where DRAM appears in the physical address space. Matches the convention
/// used by SiFive boards and the riscv-tests default linker script.
pub const DRAM_BASE: u64 = 0x8000_0000;

/// The number that bytes spell, least significant first.
pub open spec fn le_value(bytes: Seq<u8>) -> nat
    decreases bytes.len(),
{
    if bytes.len() == 0 {
        0
    } else {
        bytes[0] as nat + 256 * le_value(bytes.drop_first())
    }
}

/// The low `n` bytes of a number, least significant first.
pub open spec fn le_bytes(value: nat, n: nat) -> Seq<u8> {
    Seq::new(n, |k: int| ((value / pow2((8 * k) as nat)) % 256) as u8)
}

pub proof fn lemma_le_value_bound(bytes: Seq<u8>)
    ensures
        le_value(bytes) < pow2(8 * bytes.len()),
    decreases bytes.len(),
{
    if bytes.len() == 0 {
        lemma2_to64();
    } else {
        lemma_le_value_bound(bytes.drop_first());
        lemma2_to64();
        lemma_pow2_adds(8, (8 * (bytes.len() - 1)) as nat);
    }
}

/// Spelling a number out and reading it back keeps its low bytes.
pub proof fn lemma_le_round_trip(value: nat, n: nat)
    ensures
        le_value(le_bytes(value, n)) == value % pow2(8 * n),
    decreases n,
{
    lemma2_to64();
    let bytes = le_bytes(value, n);
    if n == 0 {
    } else {
        let m = (n - 1) as nat;
        let rest = le_bytes(value / 256, m);
        assert(bytes.drop_first() =~= rest) by {
            assert forall|k: int| 0 <= k < m implies bytes.drop_first()[k] == rest[k] by {
                lemma_pow2_adds(8, (8 * k) as nat);
                lemma_pow2_pos((8 * k) as nat);
                lemma_div_denominator(value as int, 256, pow2((8 * k) as nat) as int);
            }
        }
        lemma_le_round_trip(value / 256, m);
        lemma_pow2_adds(8, 8 * m);
        lemma_pow2_pos(8 * m);
        lemma_mod_breakdown(value as int, 256, pow2(8 * m) as int);
        lemma_div_basics(value as int);
    }
}

/// The low `size` bytes of a number.
pub open spec fn low_bytes(value: u64, size: u64) -> u64 {
    (value as nat % pow2((8 * size) as nat)) as u64
}

/// What answers at a physical address.
pub enum Place {
    /// The CLINT, the PLIC or the UART, with an offset into it.
    Clint(u64),
    Plic(u64),
    Uart(u64),
    /// DRAM, with an index into it.
    Dram(int),
    Nothing,
}

/// The state of everything that has a physical address.
#[verifier::ext_equal]
pub struct MemState {
    pub dram: Seq<u8>,
    pub tohost: Option<u64>,
    pub tohost_value: Option<u64>,
    pub clint: Clint,
    pub plic: PlicState,
    pub uart: UartState,
}

/// `bytes` laid over `s` from index `i`.
pub open spec fn overlay(s: Seq<u8>, i: int, bytes: Seq<u8>) -> Seq<u8> {
    Seq::new(
        s.len(),
        |j: int|
            if i <= j < i + bytes.len() {
                bytes[j - i]
            } else {
                s[j]
            },
    )
}

impl MemState {
    pub open spec fn reset(size: nat) -> MemState {
        MemState {
            dram: Seq::new(size, |i: int| 0u8),
            tohost: None,
            tohost_value: None,
            clint: Clint::reset(),
            plic: PlicState::reset(),
            uart: UartState::reset(),
        }
    }

    /// Whether `size` bytes from `addr` all lie in DRAM.
    pub open spec fn in_dram(self, addr: u64, size: int) -> bool {
        DRAM_BASE <= addr && addr - DRAM_BASE + size <= self.dram.len()
    }

    /// What answers an access of `size` bytes at `addr`.
    pub open spec fn place(self, addr: u64, size: u64) -> Place {
        if clint::CLINT_BASE <= addr < clint::CLINT_BASE + clint::CLINT_SIZE {
            Place::Clint((addr - clint::CLINT_BASE) as u64)
        } else if plic::PLIC_BASE <= addr < plic::PLIC_BASE + plic::PLIC_SIZE {
            Place::Plic((addr - plic::PLIC_BASE) as u64)
        } else if uart::UART_BASE <= addr < uart::UART_BASE + uart::UART_SIZE {
            Place::Uart((addr - uart::UART_BASE) as u64)
        } else if self.in_dram(addr, size as int) {
            Place::Dram(addr - DRAM_BASE)
        } else {
            Place::Nothing
        }
    }

    /// What a load of `size` bytes returns, or `None` where nothing answers.
    /// A device hands over the low bytes of its register.
    pub open spec fn read_value(self, addr: u64, size: u64) -> Option<u64> {
        match self.place(addr, size) {
            Place::Clint(o) => Some(low_bytes(self.clint.spec_read(o), size)),
            Place::Plic(o) => Some(low_bytes(self.plic.read_value(o), size)),
            Place::Uart(o) => Some(low_bytes(self.uart.read_value(o), size)),
            Place::Dram(i) => Some(le_value(self.dram.subrange(i, i + size)) as u64),
            Place::Nothing => None,
        }
    }

    /// What a load leaves behind: DRAM is unmoved, but a device may react.
    pub open spec fn after_read(self, addr: u64, size: u64) -> MemState {
        match self.place(addr, size) {
            Place::Plic(o) => MemState { plic: self.plic.after_read(o), ..self },
            Place::Uart(o) => MemState { uart: self.uart.after_read(o), ..self },
            _ => self,
        }
    }

    /// What a store of `size` bytes leaves behind, or `None` where nothing
    /// answers. A device sees the bytes that are stored; `tohost` latches the
    /// whole value that was handed over, however few of its bytes are stored.
    pub open spec fn write(self, addr: u64, size: u64, value: u64) -> Option<MemState> {
        match self.place(addr, size) {
            Place::Clint(o) => Some(
                MemState { clint: self.clint.spec_write(o, size, low_bytes(value, size)), ..self },
            ),
            Place::Plic(o) => Some(
                MemState { plic: self.plic.write(o, low_bytes(value, size)), ..self },
            ),
            Place::Uart(o) => Some(
                MemState { uart: self.uart.write(o, low_bytes(value, size)), ..self },
            ),
            Place::Dram(i) => Some(
                MemState {
                    dram: overlay(self.dram, i, le_bytes(value as nat, size as nat)),
                    tohost_value: if self.tohost == Some(addr) && value != 0 {
                        Some(value)
                    } else {
                        self.tohost_value
                    },
                    ..self
                },
            ),
            Place::Nothing => None,
        }
    }

    /// DRAM with `data` placed at a physical address, or `None` where it does
    /// not fit.
    pub open spec fn load_at(self, addr: u64, data: Seq<u8>) -> Option<MemState> {
        if self.in_dram(addr, data.len() as int) {
            Some(MemState { dram: overlay(self.dram, addr - DRAM_BASE, data), ..self })
        } else {
            None
        }
    }

    pub open spec fn zero(self, addr: u64, len: u64) -> Option<MemState> {
        self.load_at(addr, Seq::new(len as nat, |i: int| 0u8))
    }
}

pub struct Memory {
    pub dram: Vec<u8>,
    /// Address the payload writes to signal termination, if it declares one.
    pub tohost: Option<u64>,
    /// Last value written to `tohost`; `Some(0)` never occurs (0 means "running").
    pub tohost_value: Option<u64>,
    pub clint: Clint,
    pub plic: Plic,
    pub uart: Uart,
}

impl View for Memory {
    type V = MemState;

    open spec fn view(&self) -> MemState {
        MemState {
            dram: self.dram@,
            tohost: self.tohost,
            tohost_value: self.tohost_value,
            clint: self.clint,
            plic: self.plic@,
            uart: self.uart@,
        }
    }
}

impl Memory {
    pub fn new(size: usize) -> (r: Self)
        ensures
            r@ == MemState::reset(size as nat),
    {
        let r = Memory {
            dram: vec![0; size],
            tohost: None,
            tohost_value: None,
            clint: Clint::default(),
            plic: Plic::default(),
            uart: Uart::default(),
        };
        assert(r@ =~= MemState::reset(size as nat));
        r
    }

    /// Lays `data` over DRAM from index `i`.
    fn place(&mut self, i: usize, data: &[u8])
        requires
            i + data.len() <= old(self).dram.len(),
        ensures
            final(self)@ == (MemState {
                dram: overlay(old(self)@.dram, i as int, data@),
                ..old(self)@
            }),
    {
        let mut k: usize = 0;
        while k < data.len()
            invariant
                k <= data.len(),
                i + data.len() <= self.dram.len(),
                self@ == (MemState {
                    dram: overlay(old(self)@.dram, i as int, data@.take(k as int)),
                    ..old(self)@
                }),
            decreases data.len() - k,
        {
            self.dram[i + k] = data[k];
            k = k + 1;
            assert(self.dram@ =~= overlay(old(self)@.dram, i as int, data@.take(k as int)));
        }
        assert(data@.take(k as int) =~= data@);
    }

    /// Copies `image` to `DRAM_BASE`, the reset entry point.
    pub fn load(&mut self, image: &[u8])
        requires
            image.len() <= old(self).dram.len(),
        ensures
            final(self)@ == (MemState {
                dram: overlay(old(self)@.dram, 0, image@),
                ..old(self)@
            }),
    {
        self.place(0, image);
    }

    /// Places `data` at an arbitrary physical address, for an ELF segment.
    pub fn load_at(&mut self, addr: u64, data: &[u8]) -> (r: Result<(), Exception>)
        ensures
            match old(self)@.load_at(addr, data@) {
                Some(s) => r == Ok::<(), Exception>(()) && final(self)@ == s,
                None => r == Err::<(), Exception>(Exception::StoreAccessFault(addr)) && final(self)@
                    == old(self)@,
            },
    {
        match self.index(addr, data.len() as u64) {
            Some(i) => {
                self.place(i, data);
                Ok(())
            },
            None => Err(Exception::StoreAccessFault(addr)),
        }
    }

    /// Clears `len` bytes, for the .bss tail of a segment.
    pub fn zero(&mut self, addr: u64, len: u64) -> (r: Result<(), Exception>)
        ensures
            match old(self)@.zero(addr, len) {
                Some(s) => r == Ok::<(), Exception>(()) && final(self)@ == s,
                None => r == Err::<(), Exception>(Exception::StoreAccessFault(addr)) && final(self)@
                    == old(self)@,
            },
    {
        let ghost zeros = Seq::new(len as nat, |i: int| 0u8);
        let i = match self.index(addr, len) {
            Some(i) => i,
            None => {
                return Err(Exception::StoreAccessFault(addr));
            },
        };
        assert(len <= self.dram.len());
        let n = len as usize;
        let mut k: usize = 0;
        while k < n
            invariant
                k <= n,
                n == len,
                i + n <= self.dram.len(),
                zeros == Seq::new(len as nat, |i: int| 0u8),
                self@ == (MemState {
                    dram: overlay(old(self)@.dram, i as int, zeros.take(k as int)),
                    ..old(self)@
                }),
            decreases n - k,
        {
            self.dram[i + k] = 0;
            k = k + 1;
            assert(self.dram@ =~= overlay(old(self)@.dram, i as int, zeros.take(k as int)));
        }
        assert(zeros.take(k as int) =~= zeros);
        Ok(())
    }

    fn index(&self, addr: u64, size: u64) -> (r: Option<usize>)
        ensures
            match r {
                Some(i) => self@.in_dram(addr, size as int) && i == addr - DRAM_BASE,
                None => !self@.in_dram(addr, size as int),
            },
    {
        if addr < DRAM_BASE {
            return None;
        }
        let off = addr - DRAM_BASE;
        let len = self.dram.len();
        match off.checked_add(size) {
            Some(end) => {
                if end > len as u64 {
                    return None;
                }
                assert(off <= end <= len);
                Some(off as usize)
            },
            None => None,
        }
    }

    /// `size` is in bytes and must be 1, 2, 4 or 8.
    pub fn read(&mut self, addr: u64, size: u64) -> (r: Result<u64, Exception>)
        requires
            size <= 8,
        ensures
            match old(self)@.read_value(addr, size) {
                Some(v) => r == Ok::<u64, Exception>(v) && final(self)@ == old(self)@.after_read(
                    addr,
                    size,
                ),
                None => r == Err::<u64, Exception>(Exception::LoadAccessFault(addr)) && final(self)@
                    == old(self)@,
            },
    {
        if clint::CLINT_BASE <= addr && addr < clint::CLINT_BASE + clint::CLINT_SIZE {
            return Ok(wide::low64(self.clint.read(addr - clint::CLINT_BASE), 8 * size as u32));
        }
        if plic::PLIC_BASE <= addr && addr < plic::PLIC_BASE + plic::PLIC_SIZE {
            return Ok(wide::low64(self.plic.read(addr - plic::PLIC_BASE), 8 * size as u32));
        }
        if uart::UART_BASE <= addr && addr < uart::UART_BASE + uart::UART_SIZE {
            return Ok(wide::low64(self.uart.read(addr - uart::UART_BASE), 8 * size as u32));
        }
        match self.index(addr, size) {
            Some(i) => Ok(self.gather(i, size as usize)),
            None => Err(Exception::LoadAccessFault(addr)),
        }
    }

    /// The number at an index of DRAM.
    fn gather(&self, i: usize, size: usize) -> (r: u64)
        requires
            size <= 8,
            i + size <= self.dram.len(),
        ensures
            r == le_value(self@.dram.subrange(i as int, i + size)),
    {
        let mut v: u64 = 0;
        let mut b: usize = size;
        while b > 0
            invariant
                b <= size <= 8,
                i + size <= self.dram.len(),
                v == le_value(self@.dram.subrange(i + b, i + size)),
            decreases b,
        {
            proof {
                let tail = self@.dram.subrange(i + b, i + size);
                lemma_le_value_bound(tail);
                wide::lemma_pow2_monotone(8 * tail.len(), 56);
                lemma2_to64_rest();
                let all = self@.dram.subrange(i + b - 1, i + size);
                assert(all.drop_first() =~= tail);
            }
            b = b - 1;
            v = v * 256 + self.dram[i + b] as u64;
        }
        v
    }

    pub fn write(&mut self, addr: u64, size: u64, value: u64) -> (r: Result<(), Exception>)
        requires
            size <= 8,
        ensures
            match old(self)@.write(addr, size, value) {
                Some(s) => r == Ok::<(), Exception>(()) && final(self)@ == s,
                None => r == Err::<(), Exception>(Exception::StoreAccessFault(addr)) && final(self)@
                    == old(self)@,
            },
    {
        let bytes = wide::low64(value, 8 * size as u32);
        if clint::CLINT_BASE <= addr && addr < clint::CLINT_BASE + clint::CLINT_SIZE {
            self.clint.write(addr - clint::CLINT_BASE, size, bytes);
            return Ok(());
        }
        if plic::PLIC_BASE <= addr && addr < plic::PLIC_BASE + plic::PLIC_SIZE {
            self.plic.write(addr - plic::PLIC_BASE, bytes);
            return Ok(());
        }
        if uart::UART_BASE <= addr && addr < uart::UART_BASE + uart::UART_SIZE {
            self.uart.write(addr - uart::UART_BASE, bytes);
            return Ok(());
        }
        let i = match self.index(addr, size) {
            Some(i) => i,
            None => {
                return Err(Exception::StoreAccessFault(addr));
            },
        };
        self.scatter(i, size as usize, value);
        if self.tohost == Some(addr) && value != 0 {
            self.tohost_value = Some(value);
        }
        Ok(())
    }

    /// Stores a number at an index of DRAM.
    fn scatter(&mut self, i: usize, size: usize, value: u64)
        requires
            size <= 8,
            i + size <= old(self).dram.len(),
        ensures
            final(self)@ == (MemState {
                dram: overlay(old(self)@.dram, i as int, le_bytes(value as nat, size as nat)),
                ..old(self)@
            }),
    {
        let mut b: usize = 0;
        assert(self.dram@ =~= overlay(old(self)@.dram, i as int, le_bytes(value as nat, 0)));
        while b < size
            invariant
                b <= size <= 8,
                i + size <= self.dram.len(),
                self@ == (MemState {
                    dram: overlay(old(self)@.dram, i as int, le_bytes(value as nat, b as nat)),
                    ..old(self)@
                }),
            decreases size - b,
        {
            self.dram[i + b] = (wide::shr64(value, 8 * b as u32) % 256) as u8;
            b = b + 1;
            assert(self.dram@ =~= overlay(
                old(self)@.dram,
                i as int,
                le_bytes(value as nat, b as nat),
            ));
        }
    }
}

/// A load from where a store has just been reads what was stored, cut to the
/// bytes the store covered.
pub proof fn law_a_load_reads_the_last_store(s: MemState, addr: u64, size: u64, value: u64)
    requires
        size <= 8,
        s.place(addr, size) is Dram,
    ensures
        s.write(addr, size, value) is Some,
        s.write(addr, size, value)->0.read_value(addr, size) == Some(low_bytes(value, size)),
{
    let t = s.write(addr, size, value)->0;
    let i = addr - DRAM_BASE;
    lemma_le_round_trip(value as nat, size as nat);
    assert(t.dram.subrange(i, i + size) =~= le_bytes(value as nat, size as nat));
}

/// A load reads nothing of a store to other bytes, and no store moves DRAM
/// except where it was aimed.
pub proof fn law_a_store_leaves_other_bytes_alone(
    s: MemState,
    addr: u64,
    size: u64,
    value: u64,
    other: u64,
    other_size: u64,
)
    requires
        s.write(addr, size, value) is Some,
        s.place(other, other_size) is Dram,
        other + other_size <= addr || addr + size <= other,
    ensures
        s.write(addr, size, value)->0.read_value(other, other_size) == s.read_value(
            other,
            other_size,
        ),
{
    let t = s.write(addr, size, value)->0;
    let i = other - DRAM_BASE;
    assert(t.dram.subrange(i, i + other_size) =~= s.dram.subrange(i, i + other_size));
}

/// A load never moves DRAM, and a load from DRAM moves nothing at all.
pub proof fn law_a_load_leaves_memory_alone(s: MemState, addr: u64, size: u64)
    ensures
        s.after_read(addr, size).dram == s.dram,
        s.place(addr, size) is Dram ==> s.after_read(addr, size) == s,
{
}

/// A load never returns more than the bytes it asked for.
pub proof fn law_a_load_fits_its_size(s: MemState, addr: u64, size: u64)
    requires
        size <= 8,
        s.read_value(addr, size) is Some,
    ensures
        s.read_value(addr, size)->0 < pow2((8 * size) as nat),
{
    let limit = pow2((8 * size) as nat);
    lemma_pow2_pos((8 * size) as nat);
    wide::lemma_pow2_monotone((8 * size) as nat, 64);
    lemma2_to64_rest();
    match s.place(addr, size) {
        Place::Dram(i) => {
            lemma_le_value_bound(s.dram.subrange(i, i + size));
        },
        Place::Clint(o) => {
            lemma_mod_bound(s.clint.spec_read(o) as int, limit as int);
        },
        Place::Plic(o) => {
            lemma_mod_bound(s.plic.read_value(o) as int, limit as int);
        },
        Place::Uart(o) => {
            lemma_mod_bound(s.uart.read_value(o) as int, limit as int);
        },
        Place::Nothing => {},
    }
}

/// The payload has reported exactly when a nonzero value was stored to
/// `tohost`, and what it reported is that value.
pub proof fn law_tohost_latches_nonzero_values(s: MemState, addr: u64, size: u64, value: u64)
    requires
        s.place(addr, size) is Dram,
    ensures
        s.write(addr, size, value)->0.tohost_value == if s.tohost == Some(addr) && value != 0 {
            Some(value)
        } else {
            s.tohost_value
        },
{
}

/// What was loaded at an address reads back byte for byte, and a cleared
/// range reads as zero.
pub proof fn law_a_loaded_image_reads_back(s: MemState, addr: u64, data: Seq<u8>, k: int)
    requires
        s.load_at(addr, data) is Some,
        0 <= k < data.len(),
        addr + k <= u64::MAX,
    ensures
        s.load_at(addr, data)->0.read_value((addr + k) as u64, 1) == Some(data[k] as u64),
{
    let t = s.load_at(addr, data)->0;
    let i = addr + k - DRAM_BASE;
    let byte = t.dram.subrange(i, i + 1);
    assert(byte.drop_first() =~= Seq::<u8>::empty());
    reveal_with_fuel(le_value, 2);
    assert(byte[0] == data[k]);
}

} // verus!
