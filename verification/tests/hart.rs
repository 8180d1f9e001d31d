//! The hart as a whole: traps and returns, interrupts, translation on the way
//! to memory, the ends of a run, and the corners of the extensions.

use nanoemu::cpu::{Cpu, Exit, Xlen};
use nanoemu::csr::{self, irq, mstatus};
use nanoemu::trap::{Exception, Priv};
use nanoemu::DRAM_BASE;

const MEM: usize = 1 << 20;

const ECALL: u32 = 0x0000_0073;
const EBREAK: u32 = 0x0010_0073;
const MRET: u32 = 0x3020_0073;
const SRET: u32 = 0x1020_0073;
const NOP: u32 = 0x0000_0013;

fn r(op: u32, f3: u32, f7: u32, rd: u32, rs1: u32, rs2: u32) -> u32 {
    (f7 << 25) | (rs2 << 20) | (rs1 << 15) | (f3 << 12) | (rd << 7) | op
}

fn i(op: u32, f3: u32, rd: u32, rs1: u32, imm: i32) -> u32 {
    ((imm as u32 & 0xfff) << 20) | (rs1 << 15) | (f3 << 12) | (rd << 7) | op
}

fn s(op: u32, f3: u32, rs1: u32, rs2: u32, imm: i32) -> u32 {
    let imm = imm as u32;
    ((imm >> 5 & 0x7f) << 25) | (rs2 << 20) | (rs1 << 15) | (f3 << 12) | ((imm & 0x1f) << 7) | op
}

fn addi(rd: u32, rs1: u32, imm: i32) -> u32 {
    i(0x13, 0, rd, rs1, imm)
}

fn image(words: &[u32]) -> Vec<u8> {
    words.iter().flat_map(|w| w.to_le_bytes()).collect()
}

fn hart(xlen: Xlen, prog: &[u32]) -> Cpu {
    let mut cpu = Cpu::new(MEM, xlen);
    cpu.mem.load(&image(prog));
    cpu
}

// ------------------------------------------------------------------ invariants

#[test]
fn reset_leaves_the_stack_at_the_top_of_memory() {
    let cpu = Cpu::rv32(MEM);
    assert_eq!(cpu.pc, DRAM_BASE);
    assert_eq!(cpu.regs[2], DRAM_BASE + MEM as u64);
    assert_eq!(cpu.priv_mode, Priv::Machine);
    assert_eq!(cpu.xlen, Xlen::Rv32);
    assert_eq!(Cpu::rv64(MEM).xlen, Xlen::Rv64);
}

#[test]
fn a_trapping_instruction_changes_no_register() {
    // Each of these would write x5 if it completed.
    let faults = [
        i(0x03, 3, 5, 0, 0),
        i(0x03, 7, 5, 0, 0),
        i(0x73, 2, 5, 0, 0x7a0),
        r(0x33, 0, 0x7f, 5, 1, 1),
        r(0x2f, 3, 0, 5, 6, 1),
        0xffff_ffff,
    ];
    for inst in faults {
        let mut cpu = hart(Xlen::Rv64, &[inst]);
        cpu.regs[5] = 77;
        cpu.regs[6] = 1;
        let regs = cpu.regs;
        assert!(cpu.step().is_err(), "{inst:#x}");
        assert_eq!(cpu.regs, regs);
        assert_eq!(cpu.csrs.read(csr::MEPC), DRAM_BASE);
        assert_eq!(cpu.csrs.read(csr::INSTRET), 0);
    }
}

#[test]
fn rv32_arithmetic_never_leaves_the_low_half() {
    let prog = [
        addi(5, 0, -1),
        r(0x33, 0, 0, 6, 5, 5),
        r(0x33, 1, 0, 7, 5, 5),
        r(0x33, 4, 1, 8, 5, 5),
        i(0x13, 4, 9, 0, -1),
        r(0x33, 0, 0, 0, 5, 5),
        0x8000_0537,
        ECALL,
    ];
    let mut cpu = hart(Xlen::Rv32, &prog);
    assert_eq!(cpu.run(20), Exit::Ecall);
    assert!(cpu.regs.iter().all(|&v| v <= 0xffff_ffff));
    assert_eq!(cpu.regs[0], 0);
    assert_eq!(cpu.regs[6], 0xffff_fffe);
    assert_eq!(cpu.regs[10], 0x8000_0000);
}

// ------------------------------------------------------------ traps and returns

#[test]
fn mret_goes_back_to_where_the_trap_came_from() {
    for mode in [Priv::User, Priv::Supervisor, Priv::Machine] {
        let mut cpu = hart(Xlen::Rv64, &[NOP, ECALL]);
        cpu.mem.load_at(DRAM_BASE + 0x100, &image(&[MRET])).unwrap();
        cpu.csrs.write(csr::MTVEC, DRAM_BASE + 0x100);
        cpu.csrs.write(csr::MSTATUS, mstatus::MIE);
        cpu.priv_mode = mode;
        cpu.step().unwrap();
        assert_eq!(cpu.step(), Err(Exception::EnvironmentCall));
        assert_eq!(cpu.csrs.read(csr::MSTATUS) & mstatus::MIE, 0);
        cpu.step().unwrap();
        assert_eq!(cpu.priv_mode, mode);
        assert_eq!(cpu.pc, DRAM_BASE + 4);
        assert_ne!(cpu.csrs.read(csr::MSTATUS) & mstatus::MIE, 0);
    }
}

#[test]
fn sret_goes_back_to_where_the_trap_came_from() {
    for mode in [Priv::User, Priv::Supervisor] {
        let mut cpu = hart(Xlen::Rv64, &[EBREAK]);
        cpu.mem.load_at(DRAM_BASE + 0x100, &image(&[SRET])).unwrap();
        cpu.csrs.write(csr::STVEC, DRAM_BASE + 0x100);
        cpu.csrs.write(csr::MEDELEG, 1 << 3);
        cpu.csrs.write(csr::MSTATUS, mstatus::SIE);
        cpu.priv_mode = mode;
        assert_eq!(cpu.step(), Err(Exception::Breakpoint));
        assert_eq!(cpu.priv_mode, Priv::Supervisor);
        assert_eq!(cpu.csrs.read(csr::SCAUSE), 3);
        cpu.step().unwrap();
        assert_eq!(cpu.priv_mode, mode);
        assert_eq!(cpu.pc, DRAM_BASE);
        assert_ne!(cpu.csrs.read(csr::MSTATUS) & mstatus::SIE, 0);
    }
}

#[test]
fn the_most_urgent_interrupt_is_taken_first() {
    let all = 0xaaa;
    let order = [
        (irq::MEIP, 11u64),
        (irq::MSIP, 3),
        (irq::MTIP, 7),
        (irq::SEIP, 9),
        (irq::SSIP, 1),
        (irq::STIP, 5),
    ];
    let mut masked = 0;
    for (bit, cause) in order {
        let mut cpu = hart(Xlen::Rv32, &[NOP]);
        cpu.csrs.write(csr::MTVEC, DRAM_BASE + 0x100);
        cpu.csrs.write(csr::MSTATUS, mstatus::MIE);
        cpu.csrs.write(csr::MIE, all & !masked);
        // Everything is pending at once: the devices drive their own bits.
        cpu.mem.clint.msip = 1;
        cpu.mem.clint.mtimecmp = 0;
        for context in 0..2u64 {
            cpu.mem.plic.write(0x2000 + 0x80 * context, 1 << 4);
        }
        cpu.mem.plic.write(16, 1);
        cpu.mem.plic.set_level(4, true);
        cpu.csrs.set_bits(csr::MIP, irq::SSIP | irq::STIP);
        cpu.step().unwrap();
        assert_eq!(cpu.csrs.read(csr::MCAUSE), 0x8000_0000 | cause);
        assert_eq!(cpu.csrs.read(csr::MEPC), DRAM_BASE);
        assert_eq!(cpu.pc, DRAM_BASE + 0x100);
        masked |= bit;
    }
}

#[test]
fn disabled_interrupts_wait() {
    let mut cpu = hart(Xlen::Rv64, &[NOP, NOP, NOP]);
    cpu.csrs.write(csr::MIE, 0xaaa);
    cpu.mem.clint.msip = 1;
    cpu.step().unwrap();
    assert_eq!(cpu.pc, DRAM_BASE + 4);
    // One delegated to the supervisor never interrupts machine mode.
    cpu.mem.clint.msip = 0;
    cpu.csrs.write(csr::MIDELEG, irq::SSIP);
    cpu.csrs.set_bits(csr::MIP, irq::SSIP);
    cpu.csrs.write(csr::MSTATUS, mstatus::MIE | mstatus::SIE);
    cpu.step().unwrap();
    assert_eq!(cpu.pc, DRAM_BASE + 8);
    // Below machine mode it does.
    cpu.csrs.write(csr::STVEC, DRAM_BASE + 0x100);
    cpu.priv_mode = Priv::User;
    cpu.step().unwrap();
    assert_eq!(cpu.pc, DRAM_BASE + 0x100);
    assert_eq!(cpu.priv_mode, Priv::Supervisor);
}

#[test]
fn user_counters_need_both_enables() {
    let prog = [i(0x73, 2, 10, 0, csr::TIME as i32)];
    for (m, s, allowed) in [(0, 0, false), (7, 0, false), (0, 7, false), (7, 7, true)] {
        let mut cpu = hart(Xlen::Rv64, &prog);
        cpu.csrs.write(csr::MCOUNTEREN, m);
        cpu.csrs.write(csr::SCOUNTEREN, s);
        cpu.priv_mode = Priv::User;
        assert_eq!(cpu.step().is_ok(), allowed);
    }
}

#[test]
fn csr_set_and_clear_change_only_their_bits() {
    let prog = [
        i(0x73, 5, 0, 0b10101, csr::MSCRATCH as i32),
        i(0x73, 6, 5, 0b01000, csr::MSCRATCH as i32),
        i(0x73, 7, 6, 0b00101, csr::MSCRATCH as i32),
        i(0x73, 3, 7, 0, csr::MSCRATCH as i32),
        ECALL,
    ];
    let mut cpu = hart(Xlen::Rv64, &prog);
    cpu.run(10);
    assert_eq!(cpu.regs[5], 0b10101);
    assert_eq!(cpu.regs[6], 0b11101);
    assert_eq!(cpu.regs[7], 0b11000);
}

// -------------------------------------------------------------- virtual memory

const ROOT: u64 = DRAM_BASE + 0x8_0000;
const MIDDLE: u64 = DRAM_BASE + 0x8_1000;
const TABLE: u64 = DRAM_BASE + 0x8_2000;
const NEAR: u64 = DRAM_BASE + 0x9_0000;
const FAR: u64 = DRAM_BASE + 0xa_0000;

/// Supervisor mode with virtual page 1 at `NEAR`, page 2 at `FAR`, and the
/// program, at page 0, where it was loaded.
fn paged(prog: &[u32], second_page: bool) -> Cpu {
    let mut cpu = hart(Xlen::Rv64, prog);
    let mut pte = |at: u64, to: u64, flags: u64| {
        cpu.mem.write(at, 8, (to >> 12 << 10) | flags).unwrap();
    };
    pte(ROOT, MIDDLE, 1);
    pte(MIDDLE, TABLE, 1);
    pte(TABLE, DRAM_BASE, 0xf);
    pte(TABLE + 8, NEAR, 0xf);
    if second_page {
        pte(TABLE + 16, FAR, 0xf);
    }
    cpu.csrs.write(csr::SATP, (8 << 60) | (ROOT >> 12));
    cpu.priv_mode = Priv::Supervisor;
    cpu.pc = 0;
    cpu
}

#[test]
fn an_access_across_a_page_boundary_uses_both_translations() {
    let prog = [s(0x23, 3, 5, 6, 0), i(0x03, 3, 7, 5, 0)];
    let mut cpu = paged(&prog, true);
    cpu.regs[5] = 0x1ffd;
    cpu.regs[6] = 0x1122_3344_5566_7788;
    cpu.step().unwrap();
    cpu.step().unwrap();
    assert_eq!(cpu.regs[7], 0x1122_3344_5566_7788);
    assert_eq!(cpu.mem.read(NEAR + 0xffd, 4), Ok(0x0066_7788));
    assert_eq!(cpu.mem.read(FAR, 8), Ok(0x11_2233_4455));
}

#[test]
fn a_store_whose_second_page_faults_writes_nothing() {
    let mut cpu = paged(&[s(0x23, 3, 5, 6, 0)], false);
    cpu.regs[5] = 0x1ffd;
    cpu.regs[6] = u64::MAX;
    assert_eq!(cpu.step(), Err(Exception::StorePageFault(0x2000)));
    assert_eq!(cpu.mem.read(NEAR + 0xff8, 8), Ok(0));
    assert_eq!(cpu.csrs.read(csr::MTVAL), 0x2000);

    let mut cpu = paged(&[i(0x03, 3, 7, 5, 0)], false);
    cpu.regs[5] = 0x1ffd;
    assert_eq!(cpu.step(), Err(Exception::LoadPageFault(0x2000)));
}

#[test]
fn an_instruction_may_span_two_pages() {
    let mut cpu = paged(&[], true);
    let word = addi(9, 0, 42);
    cpu.mem.write(NEAR + 0xffe, 2, word as u64).unwrap();
    cpu.mem.write(FAR, 2, word as u64 >> 16).unwrap();
    cpu.pc = 0x1ffe;
    cpu.step().unwrap();
    assert_eq!(cpu.regs[9], 42);
    assert_eq!(cpu.pc, 0x2002);

    let mut cpu = paged(&[], false);
    cpu.mem.write(NEAR + 0xffe, 2, word as u64).unwrap();
    cpu.pc = 0x1ffe;
    assert_eq!(cpu.step(), Err(Exception::InstructionPageFault(0x2000)));
}

#[test]
fn half_an_instruction_past_the_end_of_memory_faults_at_its_start() {
    let mut cpu = hart(Xlen::Rv64, &[]);
    let last = DRAM_BASE + MEM as u64 - 2;
    cpu.mem.write(last, 2, 0x13).unwrap();
    cpu.pc = last;
    assert_eq!(cpu.step(), Err(Exception::InstructionAccessFault(last)));
    assert_eq!(cpu.csrs.read(csr::MTVAL), last);
}

#[test]
fn a_faulting_store_leaves_memory_alone() {
    let mut cpu = hart(Xlen::Rv64, &[s(0x23, 3, 5, 6, 0)]);
    let at = DRAM_BASE + MEM as u64 - 4;
    cpu.regs[5] = at;
    cpu.regs[6] = u64::MAX;
    let before = cpu.mem.dram.clone();
    assert_eq!(cpu.step(), Err(Exception::StoreAccessFault(at)));
    assert_eq!(cpu.mem.dram, before);
}

#[test]
fn the_counters_follow_the_steps() {
    let mut cpu = hart(Xlen::Rv64, &[NOP, NOP, EBREAK, NOP]);
    cpu.cycle = 40;
    cpu.mem.clint.mtime = 7;
    cpu.csrs.write(csr::MCYCLE, 1000);
    cpu.csrs.write(csr::MTVEC, DRAM_BASE + 12);
    for n in 1..5 {
        let trapped = cpu.step().is_err();
        assert_eq!(trapped, n == 3);
        assert_eq!(cpu.cycle, 40 + n);
        assert_eq!(cpu.csrs.read(csr::CYCLE), 40 + n);
        assert_eq!(cpu.csrs.read(csr::TIME), 40 + n);
        assert_eq!(cpu.csrs.read(csr::MCYCLE), 1000 + n);
    }
    assert_eq!(cpu.csrs.read(csr::INSTRET), 3);
}

#[test]
fn trap_registers_keep_every_bit() {
    let mut cpu = hart(Xlen::Rv64, &[MRET]);
    cpu.csrs.write(csr::MTVEC, (DRAM_BASE + 0x100) | 2);
    cpu.csrs.write(csr::MEPC, DRAM_BASE + 0x21);
    cpu.csrs.write(csr::MSTATUS, 0x1800);
    cpu.step().unwrap();
    // A return to an odd address faults there, and is reported as it was.
    assert_eq!(cpu.pc, DRAM_BASE + 0x21);
    assert_eq!(
        cpu.step(),
        Err(Exception::InstructionAccessFault(DRAM_BASE + 0x21))
    );
    assert_eq!(cpu.csrs.read(csr::MEPC), DRAM_BASE + 0x21);
    assert_eq!(cpu.pc, DRAM_BASE + 0x100);
}

#[test]
fn a_mapped_page_over_nothing_is_an_access_fault() {
    let mut cpu = paged(&[i(0x03, 3, 7, 5, 0), s(0x23, 0, 5, 6, 0)], false);
    cpu.mem.write(TABLE + 24, 8, (0x100 << 10) | 0xf).unwrap();
    cpu.regs[5] = 0x3008;
    assert_eq!(cpu.step(), Err(Exception::LoadAccessFault(0x3008)));
    cpu.priv_mode = Priv::Supervisor;
    cpu.pc = 4;
    assert_eq!(cpu.step(), Err(Exception::StoreAccessFault(0x3008)));
}

#[test]
fn an_atomic_on_a_read_only_page_is_a_store_fault() {
    let mut cpu = paged(&[r(0x2f, 3, 0, 7, 5, 6), r(0x2f, 3, 0x08, 7, 5, 0)], false);
    cpu.mem
        .write(TABLE + 8, 8, (NEAR >> 12 << 10) | 0x3)
        .unwrap();
    cpu.regs[5] = 0x1008;
    assert_eq!(cpu.step(), Err(Exception::StorePageFault(0x1008)));
    // Load-reserved only reads.
    cpu.priv_mode = Priv::Supervisor;
    cpu.pc = 4;
    cpu.step().unwrap();
    assert_eq!(cpu.reservation, Some(0x1008));
}

#[test]
fn a_misaligned_load_reserved_is_a_load_fault() {
    let mut cpu = hart(Xlen::Rv64, &[r(0x2f, 2, 0x08, 7, 5, 0)]);
    cpu.regs[5] = DRAM_BASE + 2;
    assert_eq!(
        cpu.step(),
        Err(Exception::LoadAddressMisaligned(DRAM_BASE + 2))
    );
}

#[test]
fn ordinary_accesses_may_be_misaligned() {
    let prog = [s(0x23, 2, 5, 6, 1), i(0x03, 2, 7, 5, 1), ECALL];
    let mut cpu = hart(Xlen::Rv32, &prog);
    cpu.regs[5] = DRAM_BASE + 0x100;
    cpu.regs[6] = 0x8765_4321;
    cpu.run(5);
    assert_eq!(cpu.regs[7], 0x8765_4321);
}

// ----------------------------------------------------------------- ends of a run

/// A program that stores x6 where x5 points, and loops.
fn reporter(value: u64) -> Cpu {
    let mut cpu = hart(Xlen::Rv64, &[s(0x23, 3, 5, 6, 0), 0x0000_006f]);
    cpu.mem.tohost = Some(DRAM_BASE + 0x200);
    cpu.regs[5] = DRAM_BASE + 0x200;
    cpu.regs[6] = value;
    cpu
}

#[test]
fn tohost_reports_success_failure_or_a_request() {
    assert_eq!(reporter(1).run(10), Exit::Pass);
    assert_eq!(reporter((7 << 1) | 1).run(10), Exit::Fail(7));
    // Only a one is success: a number too wide to give is cut, not forgiven.
    assert_eq!(reporter(0x2_0000_0001).run(10), Exit::Fail(0));
    assert_eq!(reporter(0x2_0000_000b).run(10), Exit::Fail(5));
    // A narrow store reports the whole register.
    let mut cpu = hart(Xlen::Rv64, &[s(0x23, 0, 5, 6, 0)]);
    cpu.mem.tohost = Some(DRAM_BASE + 0x200);
    cpu.regs[5] = DRAM_BASE + 0x200;
    cpu.regs[6] = 0x101;
    assert_eq!(cpu.run(10), Exit::Fail(0x80));
    assert_eq!(cpu.mem.tohost_value, Some(0x101));
    // An even value is a request that nothing answers: it is dropped.
    let mut cpu = reporter(4);
    assert_eq!(cpu.run(10), Exit::StepLimit);
    assert_eq!(cpu.mem.tohost_value, None);
}

#[test]
fn a_trap_without_a_handler_ends_the_run() {
    let mut cpu = hart(Xlen::Rv64, &[EBREAK]);
    assert_eq!(cpu.run(10), Exit::UnhandledTrap(Exception::Breakpoint));
    // With one, it does not.
    let mut cpu = hart(Xlen::Rv64, &[EBREAK]);
    cpu.csrs.write(csr::MTVEC, DRAM_BASE + 0x100);
    cpu.mem
        .load_at(DRAM_BASE + 0x100, &image(&[0x0000_006f]))
        .unwrap();
    assert_eq!(cpu.run(10), Exit::StepLimit);
    // An ECALL means something else where there is a tohost to report to.
    let mut cpu = hart(Xlen::Rv64, &[ECALL]);
    assert_eq!(cpu.run(10), Exit::Ecall);
    let mut cpu = hart(Xlen::Rv64, &[ECALL]);
    cpu.mem.tohost = Some(DRAM_BASE + 0x200);
    assert_eq!(cpu.run(10), Exit::UnhandledTrap(Exception::EnvironmentCall));
}

#[test]
fn a_run_can_be_taken_up_where_it_stopped() {
    let prog = [addi(5, 5, 1), addi(6, 6, 3), 0xff9f_f06f];
    let mut whole = hart(Xlen::Rv64, &prog);
    let mut parts = hart(Xlen::Rv64, &prog);
    assert_eq!(whole.run(20), Exit::StepLimit);
    assert_eq!(parts.run(13), Exit::StepLimit);
    assert_eq!(parts.run(7), Exit::StepLimit);
    assert_eq!(whole.regs, parts.regs);
    assert_eq!(whole.pc, parts.pc);
    assert_eq!(whole.cycle, parts.cycle);
    assert_eq!(parts.run(0), Exit::StepLimit);
    // A finished run is finished however large the budget was.
    assert_eq!(reporter(1).run(1), Exit::Pass);
    assert_eq!(reporter(1).run(1000), Exit::Pass);
}

// ---------------------------------------------------------------- floating point

fn op_fp(f5: u32, fmt: u32, rm: u32, rd: u32, rs1: u32, rs2: u32) -> u32 {
    r(0x53, rm, (f5 << 2) | fmt, rd, rs1, rs2)
}

fn boxed(v: f32) -> u64 {
    0xffff_ffff_0000_0000 | v.to_bits() as u64
}

/// Runs one instruction with f1 = 2.5, f2 = -4.0 and f3 = 1.0 as singles,
/// f4 = 2.5 as a double, and x5 = -3.
fn float_step(xlen: Xlen, inst: u32) -> Cpu {
    let mut cpu = hart(xlen, &[inst]);
    cpu.csrs.write(csr::MSTATUS, mstatus::FS);
    cpu.fregs[1] = boxed(2.5);
    cpu.fregs[2] = boxed(-4.0);
    cpu.fregs[3] = boxed(1.0);
    cpu.fregs[4] = 2.5f64.to_bits();
    cpu.regs[5] = xlen.number(-3);
    cpu.step().unwrap();
    cpu
}

#[test]
fn the_fp_instructions_reach_their_operations() {
    let single = |inst| float_step(Xlen::Rv64, inst).fregs[9];
    assert_eq!(single(op_fp(0x00, 0, 0, 9, 1, 2)), boxed(-1.5));
    assert_eq!(single(op_fp(0x01, 0, 0, 9, 1, 2)), boxed(6.5));
    assert_eq!(single(op_fp(0x02, 0, 0, 9, 1, 2)), boxed(-10.0));
    assert_eq!(single(op_fp(0x03, 0, 0, 9, 2, 1)), boxed(-1.6));
    assert_eq!(single(op_fp(0x0b, 0, 0, 9, 3, 0)), boxed(1.0));
    assert_eq!(single(op_fp(0x04, 0, 1, 9, 1, 1)), boxed(-2.5));
    assert_eq!(single(op_fp(0x04, 0, 2, 9, 2, 2)), boxed(4.0));
    assert_eq!(single(op_fp(0x05, 0, 0, 9, 1, 2)), boxed(-4.0));
    assert_eq!(single(op_fp(0x05, 0, 1, 9, 1, 2)), boxed(2.5));
    assert_eq!(single(op_fp(0x08, 0, 0, 9, 4, 1)), boxed(2.5));
    assert_eq!(single(op_fp(0x08, 1, 0, 9, 1, 0)), 2.5f64.to_bits());
    assert_eq!(single(op_fp(0x1a, 0, 0, 9, 5, 0)), boxed(-3.0));
    assert_eq!(single(op_fp(0x1a, 0, 0, 9, 5, 1)), boxed(4294967293u32 as f32));
    assert_eq!(single(op_fp(0x1a, 1, 0, 9, 5, 2)), (-3.0f64).to_bits());
    assert_eq!(
        single(op_fp(0x1a, 1, 0, 9, 5, 3)),
        (-3i64 as u64 as f64).to_bits()
    );
}

#[test]
fn the_fp_results_that_go_to_integer_registers() {
    let whole = |inst| float_step(Xlen::Rv64, inst).regs[9];
    assert_eq!(whole(op_fp(0x14, 0, 0, 9, 2, 1)), 1);
    assert_eq!(whole(op_fp(0x14, 0, 1, 9, 1, 1)), 0);
    assert_eq!(whole(op_fp(0x14, 0, 2, 9, 1, 1)), 1);
    assert_eq!(whole(op_fp(0x18, 0, 1, 9, 2, 0)), -4i64 as u64);
    // 2.5 rounds to even, and up when asked.
    assert_eq!(whole(op_fp(0x18, 0, 0, 9, 1, 2)), 2);
    assert_eq!(whole(op_fp(0x18, 0, 3, 9, 1, 2)), 3);
    // A negative value has no unsigned counterpart.
    let cpu = float_step(Xlen::Rv64, op_fp(0x18, 0, 0, 9, 2, 1));
    assert_eq!(cpu.regs[9], 0);
    assert_eq!(cpu.csrs.read(csr::FFLAGS), 0x10);
    assert_eq!(whole(op_fp(0x1c, 0, 1, 9, 2, 0)), 1 << 1);
    assert_eq!(whole(op_fp(0x1c, 0, 0, 9, 2, 0)), (-4.0f32).to_bits() as i32 as u64);
    assert_eq!(whole(op_fp(0x1c, 1, 0, 9, 4, 0)), 2.5f64.to_bits());
}

#[test]
fn the_four_multiply_adds() {
    let fused = |op| float_step(Xlen::Rv32, r(op, 0, 3 << 2, 9, 1, 2)).fregs[9];
    assert_eq!(fused(0x43), boxed(-9.0));
    assert_eq!(fused(0x47), boxed(-11.0));
    assert_eq!(fused(0x4b), boxed(11.0));
    assert_eq!(fused(0x4f), boxed(9.0));
}

#[test]
fn fp_encodings_that_do_not_exist_are_illegal() {
    let bad = [
        op_fp(0x00, 2, 0, 9, 1, 2),
        op_fp(0x00, 0, 6, 9, 1, 2),
        op_fp(0x0b, 0, 0, 9, 1, 1),
        op_fp(0x04, 0, 3, 9, 1, 2),
        op_fp(0x05, 0, 2, 9, 1, 2),
        op_fp(0x14, 0, 3, 9, 1, 2),
        op_fp(0x08, 0, 0, 9, 1, 0),
        op_fp(0x08, 1, 0, 9, 1, 1),
        op_fp(0x18, 0, 0, 9, 1, 4),
        op_fp(0x1c, 0, 2, 9, 1, 0),
        op_fp(0x1e, 0, 0, 9, 5, 1),
        op_fp(0x07, 0, 0, 9, 1, 2),
        r(0x43, 5, 0, 9, 1, 2),
        i(0x07, 4, 9, 5, 0),
        s(0x27, 1, 5, 9, 0),
    ];
    for inst in bad {
        let mut cpu = hart(Xlen::Rv64, &[inst]);
        cpu.csrs.write(csr::MSTATUS, mstatus::FS);
        assert_eq!(cpu.step(), Err(Exception::IllegalInstruction(inst)));
    }
    // The 64-bit conversions and moves do not exist on RV32.
    for inst in [
        op_fp(0x18, 0, 0, 9, 1, 2),
        op_fp(0x1a, 0, 0, 9, 5, 3),
        op_fp(0x1e, 1, 0, 9, 5, 0),
    ] {
        let mut cpu = hart(Xlen::Rv32, &[inst]);
        cpu.csrs.write(csr::MSTATUS, mstatus::FS);
        assert_eq!(cpu.step(), Err(Exception::IllegalInstruction(inst)));
    }
}

#[test]
fn a_single_is_stored_as_it_lies() {
    // FSW does not look at the boxing, and FLW boxes what it reads.
    let prog = [s(0x27, 2, 5, 9, 0), i(0x07, 2, 10, 5, 0)];
    let mut cpu = hart(Xlen::Rv64, &prog);
    cpu.csrs.write(csr::MSTATUS, mstatus::FS);
    cpu.regs[5] = DRAM_BASE + 0x100;
    cpu.fregs[9] = 0x1234_5678_9abc_def0;
    cpu.step().unwrap();
    cpu.step().unwrap();
    assert_eq!(cpu.mem.read(DRAM_BASE + 0x100, 8), Ok(0x9abc_def0));
    assert_eq!(cpu.fregs[10], 0xffff_ffff_9abc_def0);
}

// ------------------------------------------------------------------- firmware

/// Makes one firmware call on a booted hart.
fn call(xlen: Xlen, eid: u64, fid: u64, a0: u64, a1: u64) -> Cpu {
    let mut cpu = hart(xlen, &[ECALL]);
    cpu.boot_supervisor(DRAM_BASE, 0, 0);
    cpu.regs[17] = eid;
    cpu.regs[16] = fid;
    cpu.regs[10] = a0;
    cpu.regs[11] = a1;
    cpu.step().unwrap();
    cpu
}

#[test]
fn firmware_errors_have_the_register_width() {
    let cpu = call(Xlen::Rv32, 0x99, 0, 5, 6);
    assert_eq!(cpu.regs[10], 0xffff_fffe);
    assert_eq!(cpu.regs[11], 0);
    let cpu = call(Xlen::Rv32, 0x0f, 0, 5, 6);
    assert_eq!((cpu.regs[10], cpu.regs[11]), (0xffff_fffe, 6));
    let cpu = call(Xlen::Rv32, 0x02, 0, 5, 6);
    assert_eq!(cpu.regs[10], 0xffff_ffff);
}

#[test]
fn the_rest_of_the_firmware_calls_answer() {
    let answer = |eid, fid| {
        let cpu = call(Xlen::Rv64, eid, fid, 0, 0);
        (cpu.regs[10] as i64, cpu.regs[11])
    };
    assert_eq!(answer(0x10, 0), (0, 2 << 24));
    assert_eq!(answer(0x10, 1), (0, 3));
    assert_eq!(answer(0x10, 2), (0, 1));
    for fid in 4..7 {
        assert_eq!(answer(0x10, fid), (0, 0));
    }
    assert_eq!(answer(0x10, 7), (-2, 0));
    assert_eq!(answer(0x5246_4E43, 3), (0, 0));
    assert_eq!(answer(0x0048_534D, 2), (0, 0));
    assert_eq!(answer(0x0048_534D, 0), (-2, 0));
    assert_eq!(answer(0x5449_4D45, 1), (-2, 0));
    for eid in 3..8 {
        assert_eq!(call(Xlen::Rv64, eid, 0, 9, 0).regs[10], 0);
    }
    let cpu = call(Xlen::Rv64, 0x4442_434E, 2, b'!' as u64, 0);
    assert_eq!(cpu.mem.uart.output(), "!");
}

#[test]
fn a_console_buffer_stops_at_the_end_of_memory() {
    let end = DRAM_BASE + MEM as u64;
    let mut cpu = hart(Xlen::Rv64, &[ECALL]);
    cpu.mem.load_at(end - 2, b"ok").unwrap();
    cpu.boot_supervisor(DRAM_BASE, 0, 0);
    cpu.regs[17] = 0x4442_434E;
    cpu.regs[16] = 0;
    cpu.regs[10] = 10;
    cpu.regs[11] = end - 2;
    assert!(cpu.handle_sbi());
    assert_eq!(cpu.mem.uart.output(), "ok");
    assert_eq!(cpu.regs[11], 10);
}

#[test]
fn setting_a_timer_retracts_a_pending_one() {
    let mut cpu = hart(Xlen::Rv64, &[ECALL]);
    cpu.boot_supervisor(DRAM_BASE, 0, 0);
    cpu.csrs.set_bits(csr::MIP, irq::STIP);
    cpu.regs[17] = 0;
    cpu.regs[10] = 1000;
    assert!(cpu.handle_sbi());
    assert_eq!(cpu.csrs.read(csr::MIP) & irq::STIP, 0);
    assert_eq!(cpu.mem.clint.mtimecmp, 1000);
    cpu.regs[17] = 8;
    assert!(!cpu.handle_sbi());
}
