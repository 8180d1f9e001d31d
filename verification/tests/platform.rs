//! Memory, the devices and the CSR file, without a program.

use nanoemu::clint::CLINT_BASE;
use nanoemu::cpu::Xlen;
use nanoemu::csr::{self, irq, mstatus, CsrFile};
use nanoemu::memory::Memory;
use nanoemu::mmu;
use nanoemu::plic::Plic;
use nanoemu::trap::{Access, Exception, Priv};
use nanoemu::uart::Uart;
use nanoemu::DRAM_BASE;

const MEM: usize = 1 << 20;

// --------------------------------------------------------------------- memory

#[test]
fn a_load_reads_the_last_store() {
    let mut mem = Memory::new(64);
    for (size, want) in [
        (1, 0x88),
        (2, 0x7788),
        (4, 0x5566_7788),
        (8, 0x1122_3344_5566_7788),
    ] {
        mem.write(DRAM_BASE + 16, size, 0x1122_3344_5566_7788).unwrap();
        assert_eq!(mem.read(DRAM_BASE + 16, size), Ok(want));
    }
    // Little-endian, and nothing beside it moved.
    assert_eq!(mem.read(DRAM_BASE + 16, 1), Ok(0x88));
    assert_eq!(mem.read(DRAM_BASE + 23, 1), Ok(0x11));
    assert_eq!(mem.read(DRAM_BASE + 8, 8), Ok(0));
    assert_eq!(mem.read(DRAM_BASE + 24, 8), Ok(0));
}

#[test]
fn accesses_outside_memory_fault() {
    let mut mem = Memory::new(64);
    for addr in [0, DRAM_BASE - 1, DRAM_BASE + 57, u64::MAX] {
        assert_eq!(mem.read(addr, 8), Err(Exception::LoadAccessFault(addr)));
        assert_eq!(
            mem.write(addr, 8, 1),
            Err(Exception::StoreAccessFault(addr))
        );
    }
    assert_eq!(mem.read(DRAM_BASE + 56, 8), Ok(0));
    assert_eq!(
        mem.load_at(DRAM_BASE + 60, &[1; 5]),
        Err(Exception::StoreAccessFault(DRAM_BASE + 60))
    );
    assert_eq!(
        mem.zero(DRAM_BASE, u64::MAX),
        Err(Exception::StoreAccessFault(DRAM_BASE))
    );
}

#[test]
fn images_load_where_they_are_put() {
    let mut mem = Memory::new(64);
    mem.load(&[1, 2, 3]);
    mem.load_at(DRAM_BASE + 3, &[4, 5]).unwrap();
    assert_eq!(mem.read(DRAM_BASE, 8), Ok(0x05_0403_0201));
    mem.zero(DRAM_BASE + 1, 3).unwrap();
    assert_eq!(mem.read(DRAM_BASE, 8), Ok(0x05_0000_0001));
}

#[test]
fn tohost_latches_what_is_not_zero() {
    let mut mem = Memory::new(64);
    mem.tohost = Some(DRAM_BASE + 8);
    mem.write(DRAM_BASE, 8, 3).unwrap();
    assert_eq!(mem.tohost_value, None);
    mem.write(DRAM_BASE + 8, 8, 0).unwrap();
    assert_eq!(mem.tohost_value, None);
    mem.write(DRAM_BASE + 8, 8, 5).unwrap();
    assert_eq!(mem.tohost_value, Some(5));
    // The whole value, however few of its bytes are stored.
    mem.write(DRAM_BASE + 8, 1, 0x101).unwrap();
    assert_eq!(mem.tohost_value, Some(0x101));
    assert_eq!(mem.read(DRAM_BASE + 8, 8), Ok(1));
}

#[test]
fn the_clint_is_mapped() {
    let mut mem = Memory::new(64);
    // Nothing is due until software asks.
    assert_eq!(mem.read(CLINT_BASE + 0x4000, 8), Ok(u64::MAX));
    mem.write(CLINT_BASE + 0x4000, 8, 0x1_0000_0002).unwrap();
    assert_eq!(mem.clint.mtimecmp, 0x1_0000_0002);
    mem.write(CLINT_BASE + 0x4000, 4, 7).unwrap();
    mem.write(CLINT_BASE + 0x4004, 4, 9).unwrap();
    assert_eq!(mem.clint.mtimecmp, 0x9_0000_0007);
    assert_eq!(mem.read(CLINT_BASE + 0x4004, 4), Ok(9));
    mem.write(CLINT_BASE, 4, 3).unwrap();
    assert_eq!(mem.read(CLINT_BASE, 4), Ok(1));
    mem.write(CLINT_BASE + 0xbff8, 8, 0x5_0000_0006).unwrap();
    assert_eq!(mem.read(CLINT_BASE + 0xbff8, 4), Ok(6));
    assert_eq!(mem.read(CLINT_BASE + 0xbffc, 4), Ok(5));
    mem.clint.tick();
    assert_eq!(mem.clint.mtime, 0x5_0000_0007);
    assert_eq!(mem.read(CLINT_BASE + 0x100, 4), Ok(0));
}

// -------------------------------------------------------------------- devices

#[test]
fn completing_a_claim_undoes_it() {
    let mut plic = Plic::default();
    plic.write(4 * 3, 1);
    plic.write(0x2000, 1 << 3);
    plic.set_level(3, true);
    assert!(plic.is_pending(0));
    assert_eq!(plic.read(0x20_0004), 3);
    assert!(!plic.is_pending(0));
    assert_eq!(plic.read(0x1000), 0);
    plic.write(0x20_0004, 3);
    assert!(plic.is_pending(0));
    assert_eq!(plic.read(0x1000), 1 << 3);
    // A lowered line asks no more, and no other line moved.
    plic.set_level(5, true);
    plic.set_level(3, false);
    assert!(!plic.is_pending(0));
    assert_eq!(plic.read(0x1000), 1 << 5);
}

#[test]
fn a_priority_no_higher_than_the_threshold_is_masked() {
    let mut plic = Plic::default();
    plic.write(4 * 9, 2);
    plic.write(0x2080, 1 << 9);
    plic.set_level(9, true);
    assert!(plic.is_pending(1));
    plic.write(0x20_1000, 2);
    assert_eq!(plic.read(0x20_1000), 2);
    assert!(!plic.is_pending(1));
    plic.write(0x20_1000, 1);
    assert!(plic.is_pending(1));
    assert_eq!(plic.read(4 * 9), 2);
    assert_eq!(plic.read(0x2080), 1 << 9);
    // Offsets that hold nothing read as zero and take no writes.
    plic.write(0x20_2000, 7);
    assert_eq!(plic.read(0x20_2000), 0);
    assert_eq!(plic.read(4 * 32), 0);
    assert_eq!(plic.read(0x2004), 0);
}

#[test]
fn input_comes_out_in_order() {
    let mut uart = Uart::default();
    uart.push_input(b"ab");
    uart.push_input(b"c");
    assert_eq!(uart.take_input(), Some(b'a'));
    assert_eq!(uart.read(0), b'b' as u64);
    assert_eq!(uart.read(0), b'c' as u64);
    assert_eq!(uart.take_input(), None);
    assert_eq!(uart.read(0), 0);
}

#[test]
fn output_that_is_not_utf8_is_replaced() {
    let mut uart = Uart::default();
    for b in [0x68u64, 0xff, 0x69] {
        uart.write(0, b);
    }
    assert_eq!(uart.output(), "h\u{fffd}i");
    let mut uart = Uart::default();
    for b in "h\u{e9}".bytes() {
        uart.write(0, b as u64);
    }
    assert_eq!(uart.output(), "h\u{e9}");
}

#[test]
fn only_the_holding_register_transmits() {
    let mut uart = Uart::default();
    for offset in 1..9 {
        uart.write(offset, 0x41);
    }
    assert!(uart.tx.is_empty());
    // The line control register just got 0x41, which leaves DLAB clear.
    uart.write(0, 0x42);
    assert_eq!(uart.tx, [0x42]);
    uart.write(3, 0x80);
    uart.write(0, 0x43);
    uart.write(1, 0x44);
    assert_eq!(uart.tx, [0x42]);
    assert_eq!((uart.read(0), uart.read(1)), (0x43, 0x44));
    assert_eq!(uart.read(6), 0xb0);
    assert_eq!(uart.read(7), 0x41);
    assert_eq!(uart.read(4), 0x41);
}

// ----------------------------------------------------------------------- CSRs

#[test]
fn fcsr_has_two_parts() {
    let mut csrs = CsrFile::new();
    csrs.write(csr::FCSR, 0x1ff);
    assert_eq!(csrs.read(csr::FCSR), 0x1ff);
    csrs.write(csr::FFLAGS, 0x03);
    assert_eq!(csrs.read(csr::FRM), 7);
    assert_eq!(csrs.read(csr::FFLAGS), 3);
    csrs.write(csr::FRM, 0xa);
    assert_eq!(csrs.read(csr::FRM), 2);
    assert_eq!(csrs.read(csr::FCSR), 0x143);
}

#[test]
fn sd_cannot_be_written() {
    for (xlen, sd) in [(Xlen::Rv64, 1u64 << 63), (Xlen::Rv32, 1 << 31)] {
        let mut csrs = CsrFile::default();
        csrs.set_xlen(xlen);
        csrs.write(csr::MSTATUS, !mstatus::FS);
        assert_eq!(csrs.read(csr::MSTATUS), !mstatus::FS & !sd);
        csrs.write(csr::MSTATUS, mstatus::FS);
        assert_ne!(csrs.read(csr::MSTATUS) & sd, 0);
        csrs.write(csr::MSTATUS, mstatus::FS & 0x2000);
        assert_eq!(csrs.read(csr::SSTATUS) & sd, 0);
    }
}

#[test]
fn the_supervisor_sees_only_what_is_delegated() {
    let mut csrs = CsrFile::new();
    csrs.write(csr::MIDELEG, irq::SSIP | irq::STIP);
    csrs.write(csr::MIE, irq::MTIP | irq::SEIP);
    csrs.write(csr::SIE, !0);
    assert_eq!(csrs.read(csr::SIE), irq::SSIP | irq::STIP);
    assert_eq!(
        csrs.read(csr::MIE),
        irq::MTIP | irq::SEIP | irq::SSIP | irq::STIP
    );
    csrs.set_bits(csr::MIP, irq::MTIP | irq::STIP);
    csrs.write(csr::SIP, irq::SSIP);
    assert_eq!(csrs.read(csr::SIP), irq::SSIP | irq::STIP);
    csrs.clear_bits(csr::MIP, irq::STIP);
    assert_eq!(csrs.read(csr::MIP), irq::SSIP | irq::MTIP);
}

#[test]
fn software_sets_only_the_machine_counters() {
    let mut csrs = CsrFile::new();
    csrs.force(csr::CYCLE, 4);
    csrs.force(csr::TIME, 6);
    csrs.write(csr::MCYCLE, 9);
    csrs.write(csr::CYCLE, 7);
    csrs.write(csr::TIME, 7);
    assert_eq!(csrs.read(csr::MCYCLE), 9);
    assert_eq!(csrs.read(csr::CYCLE), 4);
    assert_eq!(csrs.read(csr::TIME), 6);
    csrs.force(csr::INSTRET, 5);
    assert_eq!(csrs.read(csr::MINSTRET), 5);
    // On RV32 the halves are written apart.
    csrs.set_xlen(Xlen::Rv32);
    csrs.write(csr::MCYCLE, 1);
    csrs.write(csr::MCYCLEH, 2);
    assert_eq!(csrs.read(csr::MCYCLE), 0x2_0000_0001);
    assert_eq!(csrs.read(csr::MCYCLEH), 2);
    assert_eq!(csrs.read(csr::CYCLEH), 0);
    csrs.write(csr::MINSTRETH, 3);
    assert_eq!(csrs.read(csr::INSTRETH), 3);
}

#[test]
fn each_register_keeps_every_bit() {
    let all = [
        csr::MSCRATCH,
        csr::SSCRATCH,
        csr::MCAUSE,
        csr::SCAUSE,
        csr::MTVAL,
        csr::STVAL,
        csr::MISA,
        csr::MEDELEG,
        csr::MIDELEG,
        csr::MIE,
        csr::MIP,
        csr::MCOUNTEREN,
        csr::SCOUNTEREN,
        csr::FCSR,
    ];
    let mut csrs = CsrFile::new();
    for (i, &addr) in all.iter().enumerate() {
        csrs.write(addr, !0 - i as u64);
    }
    for (i, &addr) in all.iter().enumerate() {
        assert_eq!(csrs.read(addr), !0 - i as u64);
    }
    csrs.write(csr::MEPC, 7);
    assert_eq!(csrs.read(csr::MEPC), 7);
    csrs.write(csr::MTVEC, 0x103);
    assert_eq!(csrs.read(csr::MTVEC), 0x103);
}

#[test]
fn only_registers_that_exist_are_found() {
    assert!(csr::exists_at(csr::MSTATUS, Xlen::Rv64));
    assert!(csr::exists_at(0x3bf, Xlen::Rv64));
    assert!(!csr::exists_at(0x3c0, Xlen::Rv64));
    assert!(!csr::exists_at(csr::CYCLEH, Xlen::Rv64));
    assert!(csr::exists_at(csr::CYCLEH, Xlen::Rv32));
    assert!(!csr::exists_at(0x000, Xlen::Rv32));
}

// --------------------------------------------------------------------- traps

#[test]
fn every_exception_has_its_cause_and_value() {
    let cases = [
        (Exception::InstructionAccessFault(9), 1, 9),
        (Exception::IllegalInstruction(0x13), 2, 0x13),
        (Exception::Breakpoint, 3, 0),
        (Exception::LoadAddressMisaligned(9), 4, 9),
        (Exception::LoadAccessFault(9), 5, 9),
        (Exception::StoreAddressMisaligned(9), 6, 9),
        (Exception::StoreAccessFault(9), 7, 9),
        (Exception::EnvironmentCall, 11, 0),
        (Exception::InstructionPageFault(9), 12, 9),
        (Exception::LoadPageFault(9), 13, 9),
        (Exception::StorePageFault(9), 15, 9),
    ];
    for (e, cause, tval) in cases {
        assert_eq!(e.cause(), cause);
        assert_eq!(e.tval(), tval);
        assert_eq!(e.cause_in(Priv::Machine), cause);
    }
    assert_eq!(Exception::EnvironmentCall.cause_in(Priv::User), 8);
    assert_eq!(Exception::EnvironmentCall.cause_in(Priv::Supervisor), 9);
    assert_eq!(
        Exception::page_fault(Access::Fetch, 4),
        Exception::InstructionPageFault(4)
    );
    assert_eq!(
        Exception::access_fault(Access::Store, 4),
        Exception::StoreAccessFault(4)
    );
    for (bits, mode) in [(0, Priv::User), (1, Priv::Supervisor), (3, Priv::Machine)] {
        assert_eq!(Priv::from_bits(bits), mode);
        assert_eq!(mode.bits(), bits);
    }
    assert_eq!(Priv::from_bits(2), Priv::Machine);
}

// -------------------------------------------------------------- virtual memory

const ROOT: u64 = DRAM_BASE + 0x1000;
const LEAF: u64 = DRAM_BASE + 0x2000;

#[test]
fn sv32_walks_two_levels() {
    let mut mem = Memory::new(MEM);
    let va = 0x0040_3123u64;
    // VPN[1] is 1 and VPN[0] is 3.
    mem.write(ROOT + 4, 4, (LEAF >> 12 << 10) | 1).unwrap();
    let page = (DRAM_BASE + 0x5000) >> 12;
    mem.write(LEAF + 12, 4, (page << 10) | 0x7).unwrap();
    let satp = (1 << 31) | (ROOT >> 12);
    let go = |mem: &mut Memory, access| {
        mmu::translate(mem, Xlen::Rv32, satp, 0, Priv::Supervisor, va, access)
    };
    assert_eq!(go(&mut mem, Access::Load), Ok(DRAM_BASE + 0x5123));
    assert_eq!(mem.read(LEAF + 12, 4), Ok((page << 10) | 0x47));
    // Going again finds the bit set and changes nothing.
    let before = mem.dram.clone();
    assert_eq!(go(&mut mem, Access::Load), Ok(DRAM_BASE + 0x5123));
    assert_eq!(mem.dram, before);
    // A fault marks nothing either.
    assert_eq!(
        go(&mut mem, Access::Fetch),
        Err(Exception::InstructionPageFault(va))
    );
    assert_eq!(mem.dram, before);
    assert_eq!(go(&mut mem, Access::Store), Ok(DRAM_BASE + 0x5123));
    assert_eq!(mem.read(LEAF + 12, 4), Ok((page << 10) | 0xc7));
    // With translation off the address is physical.
    assert_eq!(
        mmu::translate(
            &mut mem,
            Xlen::Rv32,
            0,
            0,
            Priv::Supervisor,
            va,
            Access::Load
        ),
        Ok(va)
    );
}

#[test]
fn a_walk_that_leaves_memory_or_never_ends_faults() {
    let mut mem = Memory::new(MEM);
    let go = |mem: &mut Memory, satp| {
        mmu::translate(
            mem,
            Xlen::Rv64,
            satp,
            0,
            Priv::Supervisor,
            0,
            Access::Load,
        )
    };
    // The root table is nowhere. Asking again changes nothing.
    let before = mem.dram.clone();
    assert_eq!(go(&mut mem, 8 << 60), Err(Exception::LoadPageFault(0)));
    assert_eq!(go(&mut mem, 8 << 60), Err(Exception::LoadPageFault(0)));
    assert_eq!(mem.dram, before);
    // A table that points to itself at every level.
    mem.write(ROOT, 8, (ROOT >> 12 << 10) | 1).unwrap();
    let satp = (8 << 60) | (ROOT >> 12);
    assert_eq!(go(&mut mem, satp), Err(Exception::LoadPageFault(0)));
}
