//! The ELF reader and the loader behind it, on files built by hand.

use nanoemu::cpu::{Cpu, Exit, Xlen};
use nanoemu::elf::{Elf, ElfError};
use nanoemu::trap::Exception;
use nanoemu::DRAM_BASE;

const MEM: usize = 1 << 16;

fn put(b: &mut [u8], off: usize, size: usize, value: u64) {
    b[off..off + size].copy_from_slice(&value.to_le_bytes()[..size]);
}

/// A program that stores 1 to `tohost`, which sits 0x100 into the image.
///
/// `addi` puts 1 in x6; `auipc` finds the image; `sw` reports.
const REPORT: [u32; 3] = [0x0010_0313, 0x0000_0397, 0x0e63_ae23];

/// The bytes of that program.
fn code() -> Vec<u8> {
    REPORT.iter().flat_map(|w| w.to_le_bytes()).collect()
}

/// Builds a file with one segment, one section of symbols and its names.
fn build(class: u8, addr: u64, name: &[u8]) -> Vec<u8> {
    let wide = class == 2;
    let (eh, ph, sh, sym) = if wide {
        (64, 56, 64, 24)
    } else {
        (52, 32, 40, 16)
    };
    let w = if wide { 8 } else { 4 };
    let text = code();
    let text_off = eh + ph;
    let sym_off = text_off + text.len();
    let str_off = sym_off + 2 * sym;
    let sh_off = str_off + 1 + name.len() + 1;
    let mut b = vec![0u8; sh_off + 3 * sh];
    b[..4].copy_from_slice(&[0x7f, 0x45, 0x4c, 0x46]);
    b[4] = class;
    b[5] = 1;
    put(&mut b, 16, 2, 2);
    put(&mut b, 18, 2, 243);
    put(&mut b, 24, w, addr);
    if wide {
        put(&mut b, 32, 8, eh as u64);
        put(&mut b, 40, 8, sh_off as u64);
        put(&mut b, 54, 2, ph as u64);
        put(&mut b, 56, 2, 1);
        put(&mut b, 58, 2, sh as u64);
        put(&mut b, 60, 2, 3);
    } else {
        put(&mut b, 28, 4, eh as u64);
        put(&mut b, 32, 4, sh_off as u64);
        put(&mut b, 42, 2, ph as u64);
        put(&mut b, 44, 2, 1);
        put(&mut b, 46, 2, sh as u64);
        put(&mut b, 48, 2, 3);
    }
    // The program header: a loadable segment with a cleared tail.
    put(&mut b, eh, 4, 1);
    let (p_offset, p_paddr, p_filesz, p_memsz) = if wide {
        (8, 24, 32, 40)
    } else {
        (4, 12, 16, 20)
    };
    put(&mut b, eh + p_offset, w, text_off as u64);
    put(&mut b, eh + p_paddr, w, addr);
    put(&mut b, eh + p_filesz, w, text.len() as u64);
    put(&mut b, eh + p_memsz, w, text.len() as u64 + 20);
    b[text_off..text_off + text.len()].copy_from_slice(&text);
    // The second symbol has the name.
    put(&mut b, sym_off + sym, 4, 1);
    put(&mut b, sym_off + sym + w, w, addr + 0x100);
    b[str_off + 1..str_off + 1 + name.len()].copy_from_slice(name);
    // The section headers: null, the symbols, and their names.
    let (s_off, s_size, s_link, s_ent) = if wide {
        (24, 32, 40, 56)
    } else {
        (16, 20, 24, 36)
    };
    let symtab = sh_off + sh;
    put(&mut b, symtab + 4, 4, 2);
    put(&mut b, symtab + s_off, w, sym_off as u64);
    put(&mut b, symtab + s_size, w, 2 * sym as u64);
    put(&mut b, symtab + s_link, 4, 2);
    put(&mut b, symtab + s_ent, w, sym as u64);
    put(&mut b, sh_off + 2 * sh + s_off, w, str_off as u64);
    b
}

fn error_of(bytes: &[u8]) -> ElfError {
    match Elf::parse(bytes) {
        Ok(_) => panic!("the file should have been rejected"),
        Err(e) => e,
    }
}

fn parsed(bytes: &[u8]) -> Elf {
    match Elf::parse(bytes) {
        Ok(elf) => elf,
        Err(e) => panic!("rejected: {}", e.message()),
    }
}

#[test]
fn both_classes_are_read() {
    for (class, xlen) in [(1u8, Xlen::Rv32), (2, Xlen::Rv64)] {
        let elf = parsed(&build(class, DRAM_BASE, b"tohost"));
        assert_eq!(elf.xlen, xlen);
        assert_eq!(elf.entry, DRAM_BASE);
        assert_eq!(elf.segments.len(), 1);
        assert_eq!(elf.segments[0].addr, DRAM_BASE);
        assert_eq!(elf.segments[0].data, code());
        assert_eq!(elf.segments[0].zero_len, 20);
        assert_eq!(elf.symbols.get("tohost"), Some(&(DRAM_BASE + 0x100)));
        assert_eq!(elf.symbols.get("fromhost"), None);
    }
}

#[test]
fn a_loaded_program_reports_through_its_symbol() {
    for class in [1u8, 2] {
        let elf = parsed(&build(class, DRAM_BASE, b"tohost"));
        let mut cpu = Cpu::new(MEM, Xlen::Rv64);
        cpu.load_elf(&elf).unwrap();
        // The width comes from the class of the file.
        assert_eq!(cpu.xlen, elf.xlen);
        assert_eq!(cpu.mem.tohost, Some(DRAM_BASE + 0x100));
        assert_eq!(cpu.run(10), Exit::Pass);
    }
}

#[test]
fn a_file_without_the_symbol_leaves_tohost_unset() {
    let elf = parsed(&build(2, DRAM_BASE, b"begin"));
    let mut cpu = Cpu::new(MEM, Xlen::Rv64);
    cpu.load_elf(&elf).unwrap();
    assert_eq!(cpu.mem.tohost, None);
    assert_eq!(elf.symbols.get("begin"), Some(&(DRAM_BASE + 0x100)));
}

#[test]
fn the_tail_of_a_segment_is_cleared() {
    let elf = parsed(&build(2, DRAM_BASE, b"tohost"));
    let mut cpu = Cpu::new(MEM, Xlen::Rv64);
    cpu.mem.load(&[0xaa; 64]);
    cpu.load_elf(&elf).unwrap();
    assert_eq!(cpu.mem.read(DRAM_BASE + 12, 8).unwrap(), 0);
    assert_eq!(cpu.mem.read(DRAM_BASE + 24, 8).unwrap(), 0);
    // And only the tail: the byte after it is as it was.
    assert_eq!(cpu.mem.read(DRAM_BASE + 32, 1).unwrap(), 0xaa);
}

#[test]
fn a_segment_outside_memory_does_not_load() {
    for addr in [DRAM_BASE - 4, DRAM_BASE + MEM as u64 - 4, u64::MAX - 2] {
        let elf = parsed(&build(2, addr, b"tohost"));
        let mut cpu = Cpu::new(MEM, Xlen::Rv64);
        assert_eq!(cpu.load_elf(&elf), Err(Exception::StoreAccessFault(addr)));
    }
    // The data fits and its cleared tail does not.
    let addr = DRAM_BASE + MEM as u64 - 12;
    let elf = parsed(&build(2, addr, b"tohost"));
    let mut cpu = Cpu::new(MEM, Xlen::Rv64);
    assert_eq!(
        cpu.load_elf(&elf),
        Err(Exception::StoreAccessFault(addr + 12))
    );
}

#[test]
fn a_name_that_is_not_utf8_is_replaced_rather_than_rejected() {
    let elf = parsed(&build(1, DRAM_BASE, &[b't', 0xff, b'h']));
    assert_eq!(elf.symbols.get("t\u{fffd}h"), Some(&(DRAM_BASE + 0x100)));
}

#[test]
fn each_header_field_is_checked() {
    let good = build(1, DRAM_BASE, b"tohost");
    assert_eq!(error_of(&good[..51]), ElfError::TooShort);

    let mut b = good.clone();
    b[0] = 0;
    assert_eq!(error_of(&b), ElfError::NotElf);

    let mut b = good.clone();
    b[4] = 3;
    assert_eq!(error_of(&b), ElfError::Not32Bit);

    let mut b = good.clone();
    b[5] = 2;
    assert_eq!(error_of(&b), ElfError::NotLittleEndian);

    let mut b = good.clone();
    put(&mut b, 18, 2, 62);
    assert_eq!(error_of(&b), ElfError::NotRiscv);

    let mut b = good.clone();
    put(&mut b, 16, 2, 3);
    assert_eq!(error_of(&b), ElfError::NotExecutable);

    // The 64-bit header is longer than the 32-bit one.
    let b = build(2, DRAM_BASE, b"tohost");
    assert_eq!(error_of(&b[..63]), ElfError::TooShort);
}

#[test]
fn a_segment_past_the_end_of_the_file_is_too_short() {
    let mut b = build(1, DRAM_BASE, b"tohost");
    put(&mut b, 52 + 16, 4, 0x10_0000);
    assert_eq!(error_of(&b), ElfError::TooShort);
    let mut b = build(2, DRAM_BASE, b"tohost");
    put(&mut b, 64 + 8, 8, u64::MAX);
    assert_eq!(error_of(&b), ElfError::TooShort);
}

#[test]
fn a_symbol_table_without_an_entry_size_is_skipped() {
    let mut b = build(1, DRAM_BASE, b"tohost");
    let sh_off = u32::from_le_bytes([b[32], b[33], b[34], b[35]]) as usize;
    put(&mut b, sh_off + 40 + 36, 4, 0);
    let elf = parsed(&b);
    assert_eq!(elf.symbols.get("tohost"), None);
}

#[test]
fn offsets_past_the_end_read_as_zero() {
    // The section headers are said to lie far outside the file.
    let mut b = build(2, DRAM_BASE, b"tohost");
    put(&mut b, 40, 8, u64::MAX - 8);
    let elf = parsed(&b);
    assert_eq!(elf.symbols.get("tohost"), None);
    assert_eq!(elf.segments.len(), 1);
}

#[test]
fn every_error_says_what_is_wrong() {
    assert_eq!(
        ElfError::TooShort.message(),
        "file is too short to be an ELF"
    );
    assert_eq!(ElfError::NotElf.message(), "missing the \\x7fELF magic");
    assert_eq!(ElfError::Not32Bit.message(), "neither ELF32 nor ELF64");
    assert_eq!(ElfError::NotLittleEndian.message(), "not little-endian");
    assert_eq!(
        ElfError::NotRiscv.message(),
        "not a RISC-V object (e_machine != 243)"
    );
    assert_eq!(
        ElfError::NotExecutable.message(),
        "not an executable (e_type != ET_EXEC)"
    );
}
