//! What holds of the hart as a whole.

use crate::alu;
use crate::compress;
use crate::cpu::access;
use crate::cpu::control;
use crate::cpu::execute;
use crate::cpu::float;
use crate::cpu::step;
use crate::cpu::{CpuState, Exit, Outcome, Xlen};
use crate::csr::{self, irq, mstatus, CsrState};
use crate::decode;
use crate::elf::{ElfState, SegmentState};
use crate::fpu::Fmt;
use crate::memory;
use crate::trap::{Access, Exception, Priv};
use vstd::arithmetic::div_mod::*;
use vstd::arithmetic::power2::*;
use vstd::prelude::*;

verus! {

/// What an instruction may do: it keeps the hart well formed, and if it traps
/// it has changed no register of any kind, nor, where addresses are physical,
/// memory. It leaves the cycle and time counters alone, and the count of
/// retired instructions too, or says that it has written it.
pub open spec fn well_behaved(before: CpuState, outcome: Outcome) -> bool {
    let after = outcome.0;
    &&& after.wf()
    &&& after.xlen == before.xlen
    &&& after.cycle == before.cycle
    &&& after.csrs.at(csr::CYCLE) == before.csrs.at(csr::CYCLE)
    &&& after.csrs.at(csr::TIME) == before.csrs.at(csr::TIME)
    &&& outcome.1 is Err && before.untranslated(Access::Load) && before.untranslated(Access::Store)
        ==> after.mem == before.mem
    &&& outcome.1 is Err ==> {
        &&& after.regs == before.regs
        &&& after.fregs == before.fregs
        &&& after.csrs == before.csrs
        &&& after.priv_mode == before.priv_mode
    }
    &&& after.wrote_instret || after.csrs.at(csr::INSTRET) == before.csrs.at(csr::INSTRET)
}

proof fn lemma_wrap_fits(xlen: Xlen, x: int)
    ensures
        xlen.wrap(x) < xlen.modulus(),
        xlen.wrap(x) == x % xlen.modulus(),
{
    alu::law_results_fit_the_width(xlen, x, 0);
}

proof fn lemma_register_fields(inst: u32)
    ensures
        execute::rd(inst) < 32,
        execute::rs1(inst) < 32,
        execute::rs2(inst) < 32,
{
    decode::lemma_fields(inst);
}

/// A write through any address keeps the file's shape, and only the two
/// addresses of the retired-instruction counter reach that counter.
proof fn lemma_csr_write(s: CsrState, addr: u16, value: u64)
    requires
        s.wf(),
        addr < 4096,
    ensures
        s.write(addr, value).wf(),
        s.write(addr, value).xlen == s.xlen,
        addr != csr::MINSTRET && addr != csr::MINSTRETH ==> s.write(addr, value).at(csr::INSTRET)
            == s.at(csr::INSTRET),
        s.write(addr, value).at(csr::CYCLE) == s.at(csr::CYCLE),
        s.write(addr, value).at(csr::TIME) == s.at(csr::TIME),
{
}

/// Reaching memory changes memory, and nothing else of the hart.
proof fn lemma_accesses(s: CpuState)
    ensures
        forall|va: u64, size: u64|
            #![trigger s.load(va, size)]
            s.load(va, size).0 == (CpuState { mem: s.load(va, size).0.mem, ..s }),
        forall|va: u64, size: u64, value: u64|
            #![trigger s.store(va, size, value)]
            s.store(va, size, value).0 == (CpuState {
                mem: s.store(va, size, value).0.mem,
                ..s
            }),
        forall|va: u64, access: Access|
            #![trigger s.translate(va, access)]
            s.translate(va, access).0 == (CpuState { mem: s.translate(va, access).0.mem, ..s }),
        forall|va: u64, size: u64|
            #![trigger s.load(va, size)]
            s.untranslated(Access::Load) && s.load(va, size).1 is Err ==> s.load(va, size).0 == s,
        forall|va: u64, size: u64, value: u64|
            #![trigger s.store(va, size, value)]
            s.untranslated(Access::Store) && s.store(va, size, value).1 is Err ==> s.store(
                va,
                size,
                value,
            ).0 == s,
        forall|va: u64, access: Access|
            #![trigger s.translate(va, access)]
            s.untranslated(access) ==> s.translate(va, access).0 == s,
{
    reveal(CpuState::load);
    reveal(CpuState::store);
    reveal(CpuState::translate);
    assert forall|va: u64, size: u64| #![trigger s.load(va, size)] s.load(va, size).0 == (CpuState {
        mem: s.load(va, size).0.mem,
        ..s
    }) by {
        access::law_a_load_changes_only_memory(s, va, size);
    }
    assert forall|va: u64, size: u64, value: u64|
        #![trigger s.store(va, size, value)]
        s.store(va, size, value).0 == (CpuState { mem: s.store(va, size, value).0.mem, ..s }) by {
        access::law_a_store_changes_only_memory(s, va, size, value);
    }
    assert forall|va: u64, access: Access|
        #![trigger s.translate(va, access)]
        s.translate(va, access).0 == (CpuState { mem: s.translate(va, access).0.mem, ..s }) by {
        access::law_translating_changes_only_memory(s, va, access);
    }
}

proof fn lemma_load_store(s: CpuState, inst: u32)
    requires
        s.wf(),
    ensures
        well_behaved(s, s.exec_load(inst)),
        well_behaved(s, s.exec_store(inst)),
{
    lemma_register_fields(inst);
    lemma_wrap_all(s.xlen);
    lemma_accesses(s);
}

proof fn lemma_load_store_float(s: CpuState, inst: u32)
    requires
        s.wf(),
    ensures
        well_behaved(s, s.exec_load_float(inst)),
        well_behaved(s, s.exec_store_float(inst)),
{
    lemma_register_fields(inst);
    lemma_accesses(s);
}

proof fn lemma_wrap_all(xlen: Xlen)
    ensures
        forall|x: int| #[trigger] xlen.wrap(x) < xlen.modulus(),
{
    assert forall|x: int| #[trigger] xlen.wrap(x) < xlen.modulus() by {
        lemma_wrap_fits(xlen, x);
    }
}

proof fn lemma_atomics(s: CpuState, inst: u32, addr: u64, size: u64, width: Xlen)
    requires
        s.wf(),
    ensures
        well_behaved(s, s.exec_lr(inst, addr, size)),
        well_behaved(s, s.exec_sc(inst, addr, size)),
        well_behaved(s, s.exec_rmw(inst, addr, size, width)),
{
    lemma_register_fields(inst);
    lemma_wrap_all(s.xlen);
    lemma_accesses(s);
    lemma_accesses(CpuState { reservation: None, ..s });
}

proof fn lemma_amo(s: CpuState, inst: u32)
    requires
        s.wf(),
    ensures
        well_behaved(s, s.exec_amo(inst)),
{
    let addr = s.x(execute::rs1(inst));
    lemma_atomics(s, inst, addr, 4, Xlen::Rv32);
    lemma_atomics(s, inst, addr, 8, Xlen::Rv64);
}

proof fn lemma_csr(s: CpuState, inst: u32)
    requires
        s.wf(),
    ensures
        well_behaved(s, s.exec_csr(inst)),
{
    lemma_register_fields(inst);
    lemma_wrap_all(s.xlen);
    decode::lemma_fields(inst);
    let addr = decode::field(inst, 31, 20) as u16;
    assert forall|value: u64|
        {
            let w = #[trigger] s.csrs.write(addr, value);
            &&& w.wf() && w.xlen == s.xlen
            &&& w.at(csr::CYCLE) == s.csrs.at(csr::CYCLE) && w.at(csr::TIME) == s.csrs.at(csr::TIME)
            &&& addr != csr::MINSTRET && addr != csr::MINSTRETH ==> w.at(csr::INSTRET) == s.csrs.at(
                csr::INSTRET,
            )
        } by {
        lemma_csr_write(s.csrs, addr, value);
    }
}

proof fn lemma_sbi(s: CpuState)
    requires
        s.wf(),
    ensures
        s.sbi_call().0.wf(),
        s.sbi_call().0.xlen == s.xlen,
        s.sbi_call().0.csrs.at(csr::INSTRET) == s.csrs.at(csr::INSTRET),
        s.sbi_call().0.csrs.at(csr::CYCLE) == s.csrs.at(csr::CYCLE),
        s.sbi_call().0.csrs.at(csr::TIME) == s.csrs.at(csr::TIME),
        s.sbi_call().0.cycle == s.cycle,
{
    lemma_wrap_all(s.xlen);
}

proof fn lemma_system(s: CpuState, inst: u32)
    requires
        s.wf(),
    ensures
        well_behaved(s, s.exec_system(inst)),
{
    lemma_csr(s, inst);
    lemma_sbi(s);
    lemma_wrap_all(s.xlen);
}

/// Writing an f register, or an x register, and adding flags, in any order,
/// is well behaved.
proof fn lemma_float_result(s: CpuState, f: Fmt, r: nat, v: u64, flags: u32)
    requires
        s.wf(),
        r < 32,
    ensures
        well_behaved(s, (s.set_float(f, r, v), Ok(()))),
        well_behaved(s, (s.set_float(f, r, v).accrue(flags), Ok(()))),
        well_behaved(s, (s.set_x(r, v), Ok(()))),
        well_behaved(s, (s.set_x(r, v).accrue(flags), Ok(()))),
{
    lemma_wrap_fits(s.xlen, v as int);
}

proof fn lemma_float_results(s: CpuState)
    requires
        s.wf(),
    ensures
        forall|f: Fmt, r: nat, v: u64|
            #![trigger s.set_float(f, r, v)]
            r < 32 ==> well_behaved(s, (s.set_float(f, r, v), Ok(()))),
        forall|f: Fmt, r: nat, v: u64, flags: u32|
            #![trigger s.set_float(f, r, v).accrue(flags)]
            r < 32 ==> well_behaved(s, (s.set_float(f, r, v).accrue(flags), Ok(()))),
        forall|r: nat, v: u64|
            #![trigger s.set_x(r, v)]
            r < 32 ==> well_behaved(s, (s.set_x(r, v), Ok(()))),
        forall|r: nat, v: u64, flags: u32|
            #![trigger s.set_x(r, v).accrue(flags)]
            r < 32 ==> well_behaved(s, (s.set_x(r, v).accrue(flags), Ok(()))),
{
    assert forall|f: Fmt, r: nat, v: u64|
        #![trigger s.set_float(f, r, v)]
        r < 32 implies well_behaved(s, (s.set_float(f, r, v), Ok(()))) by {
        lemma_float_result(s, f, r, v, 0);
    }
    assert forall|f: Fmt, r: nat, v: u64, flags: u32|
        #![trigger s.set_float(f, r, v).accrue(flags)]
        r < 32 implies well_behaved(s, (s.set_float(f, r, v).accrue(flags), Ok(()))) by {
        lemma_float_result(s, f, r, v, flags);
    }
    assert forall|r: nat, v: u64| #![trigger s.set_x(r, v)] r < 32 implies well_behaved(
        s,
        (s.set_x(r, v), Ok(())),
    ) by {
        lemma_float_result(s, Fmt::spec_double(), r, v, 0);
    }
    assert forall|r: nat, v: u64, flags: u32|
        #![trigger s.set_x(r, v).accrue(flags)]
        r < 32 implies well_behaved(s, (s.set_x(r, v).accrue(flags), Ok(()))) by {
        lemma_float_result(s, Fmt::spec_double(), r, v, flags);
    }
}

proof fn lemma_fma(s: CpuState, inst: u32, negate: (bool, bool))
    requires
        s.wf(),
    ensures
        well_behaved(s, s.exec_fma(inst, negate)),
{
    lemma_register_fields(inst);
    lemma_float_results(s);
}

proof fn lemma_arith(s: CpuState, inst: u32, f: Fmt)
    requires
        s.wf(),
    ensures
        well_behaved(s, s.exec_arith(inst, f)),
{
    lemma_register_fields(inst);
    lemma_float_results(s);
}

proof fn lemma_conversions(s: CpuState, inst: u32, from: Fmt, to: Fmt)
    requires
        s.wf(),
    ensures
        well_behaved(s, s.exec_convert(inst, from, to)),
        well_behaved(s, s.exec_to_int(inst, to)),
        well_behaved(s, s.exec_from_int(inst, to)),
        well_behaved(s, s.exec_move_to_int(inst, to)),
        well_behaved(s, s.exec_move_from_int(inst, to)),
{
    lemma_register_fields(inst);
    lemma_float_results(s);
}

proof fn lemma_op_float(s: CpuState, inst: u32)
    requires
        s.wf(),
    ensures
        well_behaved(s, s.exec_op_float(inst)),
{
    lemma_register_fields(inst);
    lemma_float_results(s);
    let (single, double) = (Fmt::spec_single(), Fmt::spec_double());
    lemma_arith(s, inst, single);
    lemma_arith(s, inst, double);
    lemma_conversions(s, inst, single, double);
    lemma_conversions(s, inst, double, single);
}

proof fn lemma_float(s: CpuState, inst: u32)
    requires
        s.wf(),
    ensures
        well_behaved(s, s.exec_float(inst)),
{
    lemma_load_store_float(s, inst);
    lemma_fma(s, inst, (false, false));
    lemma_fma(s, inst, (false, true));
    lemma_fma(s, inst, (true, false));
    lemma_fma(s, inst, (true, true));
    lemma_op_float(s, inst);
}

/// The instructions that only compute and jump.
proof fn lemma_plain(s: CpuState, inst: u32, here: u64, value: Option<u64>, target: u64)
    requires
        s.wf(),
        target < s.xlen.modulus(),
    ensures
        well_behaved(s, s.finish(inst, value)),
        well_behaved(s, s.finish_word(inst, value)),
        well_behaved(s, s.exec_branch(inst, here)),
        well_behaved(s, s.illegal(inst)),
        well_behaved(s, (s, Ok(()))),
        value matches Some(v) ==> well_behaved(s, (s.set_x(execute::rd(inst), v), Ok(())))
            && well_behaved(s, (s.set_x(execute::rd(inst), v).jump(target), Ok(()))),
{
    lemma_register_fields(inst);
    lemma_wrap_all(s.xlen);
}

#[verifier::rlimit(50)]
#[verifier::spinoff_prover]
proof fn lemma_execute(s: CpuState, inst: u32, here: u64, next: u64)
    requires
        s.wf(),
        next < s.xlen.modulus(),
    ensures
        well_behaved(s, s.execute(inst, here, next)),
{
    reveal(CpuState::execute);
    let t = s.jump(next);
    assert(t.wf());
    let opcode = decode::field(inst, 6, 0);
    let (a, b) = (t.x(execute::rs1(inst)), t.x(execute::rs2(inst)));
    if opcode == 0x03 || opcode == 0x23 {
        lemma_load_store(t, inst);
    } else if opcode == 0x2f {
        lemma_amo(t, inst);
    } else if opcode == 0x73 {
        lemma_system(t, inst);
    } else if execute::is_float(opcode) {
        lemma_float(t, inst);
    } else if opcode == 0x13 {
        lemma_plain(t, inst, here, execute::spec_op_imm(t.xlen, inst, a), next);
    } else if opcode == 0x33 {
        lemma_plain(t, inst, here, execute::spec_op(t.xlen, inst, a, b), next);
    } else if opcode == 0x1b {
        lemma_plain(t, inst, here, execute::spec_op_imm(Xlen::Rv32, inst, a), next);
    } else if opcode == 0x3b {
        lemma_plain(t, inst, here, execute::spec_op(Xlen::Rv32, inst, a, b), next);
    } else if opcode == 0x37 {
        lemma_plain(t, inst, here, Some(t.xlen.wrap(decode::spec_imm_u(inst))), next);
    } else if opcode == 0x17 {
        lemma_plain(t, inst, here, Some(t.xlen.wrap(here + decode::spec_imm_u(inst))), next);
    } else if opcode == 0x6f {
        let target = t.xlen.wrap(here + decode::spec_imm_j(inst));
        lemma_wrap_fits(t.xlen, here + decode::spec_imm_j(inst));
        lemma_plain(t, inst, here, Some(next), target);
    } else {
        let target = t.xlen.wrap(a + decode::spec_imm_i(inst));
        lemma_wrap_fits(t.xlen, a + decode::spec_imm_i(inst));
        lemma_plain(t, inst, here, Some(next), (target - target % 2) as u64);
    }
}

/// An instruction that traps has changed no register: not x, not f, not a
/// CSR, and not the mode. Where addresses are physical it has not changed
/// memory either; a translated access may have marked a page as accessed
/// before it faulted. No instruction moves the step count or makes x0
/// anything but zero.
pub proof fn law_a_trapping_instruction_changes_no_register(
    s: CpuState,
    inst: u32,
    here: u64,
    next: u64,
)
    requires
        s.wf(),
        next < s.xlen.modulus(),
    ensures
        ({
            let (after, result) = s.execute(inst, here, next);
            &&& after.regs[0] == s.regs[0]
            &&& after.cycle == s.cycle
            &&& result is Err ==> {
                &&& after.regs == s.regs
                &&& after.fregs == s.fregs
                &&& after.csrs == s.csrs
                &&& after.priv_mode == s.priv_mode
                &&& s.untranslated(Access::Load) && s.untranslated(Access::Store) ==> after.mem
                    == s.mem
            }
        }),
{
    lemma_execute(s, inst, here, next);
}

proof fn lemma_fetch(s: CpuState)
    ensures
        s.fetch().0 == (CpuState { mem: s.fetch().0.mem, ..s }),
{
    access::law_a_fetch_changes_only_memory(s);
}

proof fn lemma_trap(s: CpuState, cause: u64, interrupt: bool, tval: u64, epc: u64)
    requires
        s.wf(),
    ensures
        s.trap(cause, interrupt, tval, epc).wf(),
        s.trap(cause, interrupt, tval, epc).csrs.at(csr::INSTRET) == s.csrs.at(csr::INSTRET),
        s.trap(cause, interrupt, tval, epc).csrs.at(csr::CYCLE) == s.csrs.at(csr::CYCLE),
        s.trap(cause, interrupt, tval, epc).csrs.at(csr::TIME) == s.csrs.at(csr::TIME),
        s.trap(cause, interrupt, tval, epc).cycle == s.cycle,
        s.trap(cause, interrupt, tval, epc).regs == s.regs,
        s.trap(cause, interrupt, tval, epc).fregs == s.fregs,
{
    lemma_wrap_all(s.xlen);
}

proof fn lemma_tick(s: CpuState)
    requires
        s.wf(),
    ensures
        s.tick().wf(),
        s.tick().regs == s.regs,
        s.tick().pc == s.pc,
        s.tick().xlen == s.xlen,
        s.tick().priv_mode == s.priv_mode,
        !s.tick().wrote_instret,
        s.tick().csrs.at(csr::INSTRET) == s.csrs.at(csr::INSTRET),
        s.tick().cycle == s.cycle.wrapping_add(1),
        s.tick().csrs.at(csr::CYCLE) == s.tick().cycle,
        s.tick().csrs.at(csr::TIME) == s.tick().cycle,
{
}

proof fn lemma_run_instruction(s: CpuState)
    requires
        s.wf(),
    ensures
        s.run_instruction().0.wf(),
        s.run_instruction().0.cycle == s.cycle,
        s.run_instruction().0.csrs.at(csr::CYCLE) == s.csrs.at(csr::CYCLE),
        s.run_instruction().0.csrs.at(csr::TIME) == s.csrs.at(csr::TIME),
{
    let (fetched, word) = s.fetch();
    lemma_fetch(s);
    match word {
        Err(e) => {
            lemma_trap(fetched, e.spec_cause_in(fetched.priv_mode), false, e.spec_tval(), s.pc);
        },
        Ok((inst, len)) => {
            let next = s.xlen.wrap(s.pc + len);
            lemma_wrap_fits(s.xlen, s.pc + len);
            lemma_execute(fetched, inst, s.pc, next);
            let (done, result) = fetched.execute(inst, s.pc, next);
            if let Err(e) = result {
                lemma_trap(done, e.spec_cause_in(done.priv_mode), false, e.spec_tval(), s.pc);
            }
        },
    }
}

/// Every step keeps x0 at zero, and every register and the program counter
/// within XLEN bits.
pub proof fn law_a_step_keeps_the_hart_well_formed(s: CpuState)
    requires
        s.wf(),
    ensures
        s.step().0.wf(),
{
    reveal(CpuState::step);
    let ticked = s.tick();
    lemma_tick(s);
    match ticked.interrupt() {
        Some(cause) => {
            lemma_trap(ticked, cause, true, 0, ticked.pc);
        },
        None => {
            lemma_run_instruction(ticked);
        },
    }
}

/// Every step is one cycle: the step count moves by one, and the cycle and
/// time counters read it, whatever the step did. The count of retired
/// instructions moves by one where an instruction retires, unless it wrote
/// the count itself, and stays where one traps or an interrupt is taken.
pub proof fn law_the_counters_follow_the_steps(s: CpuState)
    requires
        s.wf(),
    ensures
        s.step().0.cycle == s.cycle.wrapping_add(1),
        s.step().0.csrs.read(csr::CYCLE) == s.step().0.cycle,
        s.step().0.csrs.read(csr::TIME) == s.step().0.cycle,
        s.step().1 is Err || s.tick().interrupt() is Some ==> s.step().0.csrs.read(csr::INSTRET)
            == s.csrs.read(csr::INSTRET),
        s.step().1 is Ok && s.tick().interrupt() is None && !s.step().0.wrote_instret
            ==> s.step().0.csrs.read(csr::INSTRET) == s.csrs.read(csr::INSTRET).wrapping_add(1),
{
    reveal(CpuState::step);
    let ticked = s.tick();
    lemma_tick(s);
    match ticked.interrupt() {
        Some(cause) => {
            lemma_trap(ticked, cause, true, 0, ticked.pc);
        },
        None => {
            lemma_run_instruction(ticked);
            law_only_retired_instructions_are_counted(ticked);
        },
    }
}

/// A hart at reset, and one that boots a kernel, is well formed.
pub proof fn law_a_hart_starts_well_formed(
    mem_size: nat,
    xlen: Xlen,
    entry: u64,
    hartid: u64,
    dtb: u64,
)
    ensures
        CpuState::reset(mem_size, xlen).wf(),
        CpuState::reset(mem_size, xlen).boot_supervisor(entry, hartid, dtb).wf(),
{
    lemma_wrap_all(xlen);
}

/// So does a whole run.
pub proof fn law_a_run_keeps_the_hart_well_formed(s: CpuState, max_steps: nat)
    requires
        s.wf(),
    ensures
        s.run(max_steps).0.wf(),
    decreases max_steps,
{
    if max_steps > 0 {
        law_a_step_keeps_the_hart_well_formed(s);
        let (after, result) = s.step();
        if after.report() is None {
            let next = after.drop_request();
            if next.verdict(s.priv_mode, result) is None {
                law_a_run_keeps_the_hart_well_formed(next, (max_steps - 1) as nat);
            }
        }
    }
}

proof fn lemma_load_segments(s: CpuState, segments: Seq<SegmentState>, i: int)
    ensures
        s.load_segments(segments, i).0 == (CpuState {
            mem: s.load_segments(segments, i).0.mem,
            ..s
        }),
    decreases segments.len() - i,
{
    if i < segments.len() {
        let seg = segments[i];
        if let Some(loaded) = s.mem.load_at(seg.addr, seg.data) {
            let tail = seg.addr.wrapping_add(seg.data.len() as u64);
            lemma_load_segments(CpuState { mem: loaded, ..s }, segments, i + 1);
            if let Some(zeroed) = loaded.zero(tail, seg.zero_len) {
                lemma_load_segments(CpuState { mem: zeroed, ..s }, segments, i + 1);
            }
        }
    }
}

/// Loading a program keeps the hart well formed, takes its width and its entry
/// point from the file, and leaves the mode and the CSRs alone.
pub proof fn law_loading_sets_the_width_and_the_entry(s: CpuState, elf: ElfState)
    requires
        s.wf(),
    ensures
        ({
            let (loaded, result) = s.load_elf(elf);
            &&& loaded.wf()
            &&& loaded.priv_mode == s.priv_mode
            &&& loaded.csrs.regs == s.csrs.regs
            &&& result is Ok ==> {
                &&& loaded.xlen == elf.xlen
                &&& loaded.pc == elf.xlen.wrap(elf.entry as int)
            }
        }),
{
    lemma_load_segments(s, elf.segments, 0);
    lemma_wrap_all(elf.xlen);
}

/// Only an instruction that retires is counted: one that traps leaves the
/// counter as it was, and one that retires adds one, unless it wrote the
/// counter itself.
pub proof fn law_only_retired_instructions_are_counted(s: CpuState)
    requires
        s.wf(),
        !s.wrote_instret,
    ensures
        s.run_instruction().1 is Err ==> s.run_instruction().0.csrs.at(csr::INSTRET) == s.csrs.at(
            csr::INSTRET,
        ),
        s.run_instruction().1 is Ok && !s.run_instruction().0.wrote_instret
            ==> s.run_instruction().0.csrs.at(csr::INSTRET) == s.csrs.at(
            csr::INSTRET,
        ).wrapping_add(1),
{
    let (fetched, word) = s.fetch();
    lemma_fetch(s);
    match word {
        Err(e) => {
            lemma_trap(fetched, e.spec_cause_in(fetched.priv_mode), false, e.spec_tval(), s.pc);
        },
        Ok((inst, len)) => {
            let next = s.xlen.wrap(s.pc + len);
            lemma_wrap_fits(s.xlen, s.pc + len);
            lemma_execute(fetched, inst, s.pc, next);
            let (done, result) = fetched.execute(inst, s.pc, next);
            if let Err(e) = result {
                lemma_trap(done, e.spec_cause_in(done.priv_mode), false, e.spec_tval(), s.pc);
            }
        },
    }
}

/// The handler finds the address of the instruction that faulted, not of the
/// one after it, and why it faulted.
pub proof fn law_a_trap_names_the_faulting_instruction(s: CpuState)
    requires
        s.wf(),
        s.run_instruction().1 is Err,
    ensures
        ({
            let (after, result) = s.run_instruction();
            let e = result->Err_0;
            let cause = e.spec_cause_in(s.priv_mode);
            let tval = s.xlen.wrap(e.spec_tval() as int);
            ||| {
                &&& after.priv_mode == Priv::Machine
                &&& after.csrs.at(csr::MEPC) == s.pc
                &&& after.csrs.at(csr::MCAUSE) == cause
                &&& after.csrs.at(csr::MTVAL) == tval
            }
            ||| {
                &&& after.priv_mode == Priv::Supervisor
                &&& after.csrs.at(csr::SEPC) == s.pc
                &&& after.csrs.at(csr::SCAUSE) == cause
                &&& after.csrs.at(csr::STVAL) == tval
            }
        }),
{
    let (fetched, word) = s.fetch();
    lemma_fetch(s);
    match word {
        Err(e) => {},
        Ok((inst, len)) => {
            lemma_wrap_fits(s.xlen, s.pc + len);
            lemma_execute(fetched, inst, s.pc, s.xlen.wrap(s.pc + len));
        },
    }
}

/// Delegation only applies to traps from supervisor and user mode: a trap in
/// machine mode stays there, however the delegation registers are set, and no
/// trap ever lowers the privilege.
pub proof fn law_machine_mode_never_delegates(
    s: CpuState,
    cause: u64,
    interrupt: bool,
    tval: u64,
    epc: u64,
)
    ensures
        s.priv_mode == Priv::Machine ==> s.trap(cause, interrupt, tval, epc).priv_mode
            == Priv::Machine,
        s.trap(cause, interrupt, tval, epc).priv_mode.spec_bits() >= s.priv_mode.spec_bits(),
        s.trap(cause, interrupt, tval, epc).priv_mode != Priv::User,
{
}

/// MRET undoes the entry to the machine-mode handler: it returns to the mode
/// the trap came from and to the address it saved, with interrupts enabled as
/// they were.
pub proof fn law_mret_undoes_a_trap(
    s: CpuState,
    cause: u64,
    interrupt: bool,
    tval: u64,
    epc: u64,
)
    requires
        s.wf(),
        epc < s.xlen.modulus(),
    ensures
        ({
            let back = s.enter_machine(cause, interrupt, tval, epc).mret();
            &&& back.priv_mode == s.priv_mode
            &&& back.pc == epc
            &&& back.status() & mstatus::MIE == s.status() & mstatus::MIE
            &&& back.status() & mstatus::SUPERVISOR == s.status() & mstatus::SUPERVISOR
        }),
{
    let status = s.status();
    let saved = step::machine_entry(status, s.priv_mode);
    let mpp = step::spec_mpp(s.priv_mode);
    let cleared = status & !(0x8u64 | 0x80u64 | 0x1800u64);
    let kept = if status & 0x8 != 0 { cleared | 0x80 } else { cleared };
    assert((kept | mpp) & 0x1800 == mpp && 0u64 >> 11u32 == 0 && 0x800u64
        >> 11u32 == 1 && 0x1800u64 >> 11u32 == 3) by (bit_vector)
        requires
            mpp == 0 || mpp == 0x800 || mpp == 0x1800,
            cleared == status & !(0x8u64 | 0x80u64 | 0x1800u64),
            kept == (if status & 0x8 != 0 { cleared | 0x80 } else { cleared }),
    ;
    lemma_wrap_fits(s.xlen, epc as int);
    lemma_small_mod(epc as nat, s.xlen.modulus() as nat);
    let entered = s.enter_machine(cause, interrupt, tval, epc);
    assert(entered.status() == saved);
    let popped = (saved & !(0x8u64 | 0x1800u64)) | 0x80;
    let enabled = if saved & 0x80 != 0 { popped | 0x8 } else { popped };
    assert(enabled & 0x8 == status & 0x8 && (enabled & !0x2_0000u64) & 0x8 == status & 0x8
        && enabled & 0xc_6122 == status & 0xc_6122 && (enabled & !0x2_0000u64) & 0xc_6122 == status
        & 0xc_6122) by (bit_vector)
        requires
            mpp == 0 || mpp == 0x800 || mpp == 0x1800,
            cleared == status & !(0x8u64 | 0x80u64 | 0x1800u64),
            kept == (if status & 0x8 != 0 { cleared | 0x80 } else { cleared }),
            saved == kept | mpp,
            popped == (saved & !(0x8u64 | 0x1800u64)) | 0x80,
            enabled == (if saved & 0x80 != 0 { popped | 0x8 } else { popped }),
    ;
}

/// SRET undoes the entry to the supervisor-mode handler in the same way.
pub proof fn law_sret_undoes_a_trap(
    s: CpuState,
    cause: u64,
    interrupt: bool,
    tval: u64,
    epc: u64,
)
    requires
        s.wf(),
        s.priv_mode != Priv::Machine,
        epc < s.xlen.modulus(),
    ensures
        ({
            let back = s.enter_supervisor(cause, interrupt, tval, epc).sret();
            &&& back.priv_mode == s.priv_mode
            &&& back.pc == epc
            &&& back.status() & mstatus::SIE == s.status() & mstatus::SIE
        }),
{
    let status = s.status();
    let saved = step::supervisor_entry(status, s.priv_mode);
    let spp: u64 = if s.priv_mode == Priv::Supervisor { 0x100 } else { 0 };
    let cleared = status & !(0x2u64 | 0x20u64 | 0x100u64);
    let kept = if status & 0x2 != 0 { cleared | 0x20 } else { cleared };
    let popped = (saved & !(0x2u64 | 0x100u64 | 0x2_0000u64)) | 0x20;
    let enabled = if saved & 0x20 != 0 { popped | 0x2 } else { popped };
    let entered = s.enter_supervisor(cause, interrupt, tval, epc);
    assert(entered.status() == saved);
    assert(kept | 0 == kept) by (bit_vector);
    assert((saved & 0x100 != 0) == (spp == 0x100) && enabled & 0x2 == status
        & 0x2) by (bit_vector)
        requires
            spp == 0 || spp == 0x100,
            cleared == status & !(0x2u64 | 0x20u64 | 0x100u64),
            kept == (if status & 0x2 != 0 { cleared | 0x20 } else { cleared }),
            saved == kept | spp,
            popped == (saved & !(0x2u64 | 0x100u64 | 0x2_0000u64)) | 0x20,
            enabled == (if saved & 0x20 != 0 { popped | 0x2 } else { popped }),
    ;
    lemma_wrap_fits(s.xlen, epc as int);
    lemma_small_mod(epc as nat, s.xlen.modulus() as nat);
}

/// A store-conditional consumes the reservation whether it succeeds or not,
/// and without one at its address it touches no memory and reports failure.
pub proof fn law_a_store_conditional_consumes_the_reservation(
    s: CpuState,
    inst: u32,
    addr: u64,
    size: u64,
)
    requires
        s.wf(),
    ensures
        s.exec_sc(inst, addr, size).0.reservation is None,
        s.reservation != Some(addr) ==> {
            &&& s.exec_sc(inst, addr, size).0.mem == s.mem
            &&& s.exec_sc(inst, addr, size).1 is Ok
            &&& execute::rd(inst) != 0 ==> s.exec_sc(inst, addr, size).0.x(execute::rd(inst)) == 1
        },
{
    lemma_register_fields(inst);
    let freed = CpuState { reservation: None, ..s };
    access::law_a_store_changes_only_memory(freed, addr, size, s.x(execute::rs2(inst)));
    match s.xlen {
        Xlen::Rv32 => {},
        Xlen::Rv64 => {},
    }
}

/// An atomic operation hands back what was in memory beforehand, and leaves
/// the combined value there.
pub proof fn law_an_atomic_returns_the_old_value(
    s: CpuState,
    inst: u32,
    addr: u64,
    size: u64,
    width: Xlen,
)
    requires
        s.wf(),
        size == 4 && width == Xlen::Rv32 || size == 8 && width == Xlen::Rv64 && s.xlen
            == Xlen::Rv64,
        alu::spec_amo(width, execute::funct5(inst), 0, 0) is Some,
        s.translate(addr, Access::Store).1 is Ok,
        ({
            let (seen, found) = s.translate(addr, Access::Store);
            seen.mem.place(found->Ok_0, size) is Dram
        }),
    ensures
        ({
            let (seen, found) = s.translate(addr, Access::Store);
            let pa = found->Ok_0;
            let old_value = seen.mem.read_value(pa, size)->0;
            let new_value = alu::spec_amo(
                width,
                execute::funct5(inst),
                old_value,
                s.x(execute::rs2(inst)),
            );
            let (after, result) = s.exec_rmw(inst, addr, size, width);
            &&& result is Ok
            &&& after.mem.read_value(pa, size) == new_value
            &&& execute::rd(inst) != 0 ==> after.x(execute::rd(inst)) == s.xlen.extended(
                old_value,
                (8 * size) as nat,
            )
        }),
{
    let (seen, found) = s.translate(addr, Access::Store);
    let pa = found->Ok_0;
    let old_value = seen.mem.read_value(pa, size)->0;
    let operand = s.x(execute::rs2(inst));
    let new_value = alu::spec_amo(width, execute::funct5(inst), old_value, operand)->0;
    lemma_register_fields(inst);
    access::law_translating_changes_only_memory(s, addr, Access::Store);
    memory::law_a_load_leaves_memory_alone(seen.mem, pa, size);
    memory::law_a_load_reads_the_last_store(seen.mem, pa, size, new_value);
    lemma_wrap_all(width);
    lemma_wrap_all(s.xlen);
    lemma2_to64();
    lemma2_to64_rest();
    lemma_small_mod(new_value as nat, pow2((8 * size) as nat));
    let result = s.xlen.extended(old_value, (8 * size) as nat);
    lemma_small_mod(result as nat, s.xlen.modulus() as nat);
}

/// The destination of a CSR instruction gets the value from before the write,
/// and a set or clear whose operand is x0 writes nothing at all.
pub proof fn law_csr_instructions_read_before_they_write(s: CpuState, inst: u32)
    requires
        s.wf(),
        s.exec_csr(inst).1 is Ok,
    ensures
        ({
            let addr = decode::field(inst, 31, 20) as u16;
            let after = s.exec_csr(inst).0;
            &&& execute::rd(inst) != 0 ==> after.x(execute::rd(inst)) == s.xlen.wrap(
                s.csrs.read(addr) as int,
            )
            &&& execute::funct3(inst) % 4 != 1 && execute::rs1(inst) == 0 ==> after.csrs == s.csrs
        }),
{
    lemma_register_fields(inst);
    let addr = decode::field(inst, 31, 20) as u16;
    let old_value = s.xlen.wrap(s.csrs.read(addr) as int);
    lemma_wrap_fits(s.xlen, s.csrs.read(addr) as int);
    lemma_small_mod(old_value as nat, s.xlen.modulus() as nat);
}

/// Interrupts wait while they are disabled, and those delegated to supervisor
/// mode never interrupt machine mode.
pub proof fn law_disabled_interrupts_wait(s: CpuState)
    ensures
        s.priv_mode == Priv::Machine && s.status() & mstatus::MIE == 0 ==> s.interrupt() is None,
        s.priv_mode == Priv::Machine && s.csrs.at(csr::MIP) & s.csrs.at(csr::MIE) & !s.csrs.at(
            csr::MIDELEG,
        ) == 0 ==> s.interrupt() is None,
        s.csrs.at(csr::MIP) & s.csrs.at(csr::MIE) == 0 ==> s.interrupt() is None,
{
    let d = s.csrs.at(csr::MIDELEG);
    assert(0u64 & irq::MEIP == 0 && 0u64 & irq::MSIP == 0 && 0u64 & irq::MTIP == 0 && 0u64
        & irq::SEIP == 0 && 0u64 & irq::SSIP == 0 && 0u64 & irq::STIP == 0 && 0u64 & d == 0 && 0u64
        & !d == 0) by (bit_vector);
}

/// A timer that the firmware has scheduled is pending for the supervisor as
/// soon as the clock reaches it.
pub proof fn law_a_due_timer_is_pending(s: CpuState)
    requires
        s.wf(),
        s.timer_armed,
        s.mem.clint.spec_tick().mtime >= s.mem.clint.mtimecmp,
    ensures
        s.tick().csrs.at(csr::MIP) & irq::STIP != 0,
{
    let clint = s.mem.clint.spec_tick();
    let wires = s.mem.plic.set_level(
        crate::uart::UART_IRQ,
        s.mem.uart.is_interrupting(),
    );
    let driven = s.csrs.drive_bits(csr::MIP, irq::MSIP, clint.msip % 2 == 1).drive_bits(
        csr::MIP,
        irq::MTIP,
        true,
    ).drive_bits(csr::MIP, irq::MEIP, wires.is_pending(0)).drive_bits(
        csr::MIP,
        irq::SEIP,
        wires.is_pending(1),
    );
    let v = driven.at(csr::MIP);
    assert((v | irq::STIP) & irq::STIP != 0) by (bit_vector);
}

/// A supervisor call to the firmware is a call, not a trap: it comes back to
/// the instruction after it, in the same mode.
pub proof fn law_a_supervisor_call_returns(s: CpuState, here: u64, next: u64)
    requires
        s.wf(),
        s.sbi,
        s.priv_mode == Priv::Supervisor,
    ensures
        s.execute(0x73, here, next).1 is Ok,
        s.execute(0x73, here, next).0.pc == next,
        s.execute(0x73, here, next).0.priv_mode == Priv::Supervisor,
{
    reveal(CpuState::execute);
    decode::lemma_fields(0x73);
    lemma2_to64();
    assert(decode::field(0x73, 6, 0) == 0x73);
    assert(decode::field(0x73, 14, 12) == 0);
    assert(decode::field(0x73, 31, 20) == 0);
}

/// Every FP instruction, and every access to an FP register of the CSR file,
/// is illegal while the FP unit is off.
pub proof fn law_the_fp_unit_is_gated(s: CpuState, inst: u32, addr: u16, write: bool)
    requires
        s.status() & mstatus::FS == 0,
    ensures
        s.exec_float(inst) == s.illegal(inst),
        csr::FFLAGS <= addr <= csr::FCSR ==> !s.csr_allowed(addr, write),
{
}

/// A value goes into an f register and comes out the same, and a register
/// that holds no boxed single reads as the canonical NaN when one is wanted.
pub proof fn law_boxed_values_come_out_whole(v: u64, reg: u64)
    ensures
        float::unboxed(Fmt::spec_double(), float::boxed(Fmt::spec_double(), v)) == v,
        v < 0x1_0000_0000 ==> float::unboxed(
            Fmt::spec_single(),
            float::boxed(Fmt::spec_single(), v),
        ) == v,
        reg < float::BOX ==> float::unboxed(Fmt::spec_single(), reg)
            == Fmt::spec_single().spec_nan(),
{
}

/// Exception flags are sticky: what was raised stays raised, and what an
/// operation raises is added.
pub proof fn law_flags_are_sticky(s: CpuState, flags: u32, bit: u64)
    requires
        s.wf(),
    ensures
        s.csrs.at(csr::FCSR) & bit != 0 ==> s.accrue(flags).csrs.at(csr::FCSR) & bit != 0,
        flags as u64 & bit != 0 ==> s.accrue(flags).csrs.at(csr::FCSR) & bit != 0,
{
    let f = s.csrs.at(csr::FCSR);
    let g = flags as u64;
    assert((f & bit != 0 ==> (f | g) & bit != 0) && (g & bit != 0 ==> (f | g) & bit != 0) && (0u64
        & bit == 0)) by (bit_vector);
}

/// Where addresses are physical, a load reads back what a store has just put
/// in DRAM.
pub proof fn law_a_load_reads_back_a_store(s: CpuState, va: u64, size: u64, value: u64)
    requires
        size <= 8,
        s.untranslated(Access::Load),
        s.untranslated(Access::Store),
        s.mem.place(va, size) is Dram,
    ensures
        s.store(va, size, value).1 is Ok,
        s.store(va, size, value).0.load(va, size).1 == Ok::<u64, Exception>(
            (value as nat % pow2((8 * size) as nat)) as u64,
        ),
{
    reveal(CpuState::load);
    reveal(CpuState::store);
    memory::law_a_load_reads_the_last_store(s.mem, va, size, value);
}

/// A run that used up its budget can be taken up where it stopped: `m` steps
/// and then `n` more are `m + n` steps.
pub proof fn law_a_run_can_be_resumed(s: CpuState, m: nat, n: nat)
    ensures
        s.run(m).1 == Exit::StepLimit ==> s.run(m + n) == s.run(m).0.run(n),
        s.run(m).1 != Exit::StepLimit ==> s.run(m + n) == s.run(m),
    decreases m,
{
    if m > 0 {
        let (after, result) = s.step();
        if after.report() is None {
            let next = after.drop_request();
            if next.verdict(s.priv_mode, result) is None {
                law_a_run_can_be_resumed(next, (m - 1) as nat, n);
                assert((m + n - 1) as nat == (m - 1) as nat + n);
            }
        }
    }
}

/// x0 reads as zero and writes to it are dropped.
pub proof fn law_x0_is_hardwired(s: CpuState, v: u64)
    ensures
        s.x(0) == 0,
        s.set_x(0, v) == s,
{
}

/// An odd address cannot be fetched from, and any even one can be tried:
/// instructions need no more than two-byte alignment.
pub proof fn law_only_an_odd_pc_is_misaligned(s: CpuState)
    ensures
        s.pc % 2 == 1 ==> s.fetch() == (
            s,
            Err::<(u32, u64), Exception>(Exception::InstructionAccessFault(s.pc)),
        ),
        s.fetch().1 matches Ok((_, len)) ==> len == 2 || len == 4,
{
    reveal(CpuState::fetch);
}

proof fn lemma_even_target(xlen: Xlen, here: u64, imm: int)
    requires
        here % 2 == 0,
        imm % 2 == 0,
    ensures
        xlen.wrap(here + imm) % 2 == 0,
{
    match xlen {
        Xlen::Rv32 => {},
        Xlen::Rv64 => {},
    }
}

proof fn lemma_even_immediates(inst: u32)
    ensures
        decode::spec_imm_b(inst) % 2 == 0,
        decode::spec_imm_j(inst) % 2 == 0,
{
    lemma2_to64();
}

/// Jumps and branches from an even address land on an even address.
#[verifier::rlimit(40)]
#[verifier::spinoff_prover]
pub proof fn law_jumps_keep_the_pc_even(s: CpuState, inst: u32, here: u64, next: u64)
    requires
        here % 2 == 0,
        next % 2 == 0,
        decode::field(inst, 6, 0) == 0x6f || decode::field(inst, 6, 0) == 0x67 || decode::field(
            inst,
            6,
            0,
        ) == 0x63,
    ensures
        s.execute(inst, here, next).0.pc % 2 == 0,
{
    reveal(CpuState::execute);
    lemma_even_immediates(inst);
    lemma_even_target(s.xlen, here, decode::spec_imm_b(inst));
    lemma_even_target(s.xlen, here, decode::spec_imm_j(inst));
}

/// A booted kernel takes every trap itself but the ones that call the
/// firmware, and may read the counters.
pub proof fn law_a_booted_kernel_handles_its_own_traps(
    s: CpuState,
    entry: u64,
    hartid: u64,
    dtb: u64,
    cause: u64,
)
    requires
        s.wf(),
        cause < 16,
    ensures
        ({
            let booted = s.boot_supervisor(entry, hartid, dtb);
            &&& booted.delegated(cause, false) == !(cause == 9 || cause == 10 || cause == 11
                || cause == 14)
            &&& booted.counter_allowed(csr::CYCLE)
            &&& booted.counter_allowed(csr::TIME)
            &&& booted.counter_allowed(csr::INSTRET)
        }),
{
    assert((((0xb1ffu64 >> cause) & 1 == 1) == !(cause == 9 || cause == 10 || cause == 11 || cause
        == 14)) && (7u64 & 1u64 != 0) && (7u64 & 2u64 != 0) && (7u64 & 4u64 != 0)) by (bit_vector)
        requires
            cause < 16,
    ;
    let booted = s.boot_supervisor(entry, hartid, dtb);
    assert(booted.csrs.at(csr::MEDELEG) == 0xb1ff);
    assert(booted.csrs.at(csr::MCOUNTEREN) == 7);
}

/// C is expanded, not executed: a halfword that is not the start of a full
/// word runs as the one base instruction it stands for, two bytes long, and is
/// illegal where it stands for none.
pub proof fn law_compressed_instructions_are_expanded(s: CpuState, low: u64)
    requires
        s.pc % 2 == 0,
        s.fetch_half(s.pc).1 == Ok::<u64, Exception>(low),
        low % 4 != 3,
    ensures
        s.fetch().1 == match compress::spec_decompress(low as u32, s.xlen) {
            Some(word) => Ok::<(u32, u64), Exception>((word, 2)),
            None => Err(Exception::IllegalInstruction(low as u32)),
        },
{
    reveal(CpuState::fetch);
}

/// AUIPC adds to its own address, not to that of the instruction after it, and
/// LUI sign-extends where the register is wider than its immediate.
#[verifier::rlimit(40)]
#[verifier::spinoff_prover]
pub proof fn law_upper_immediates(s: CpuState, inst: u32, here: u64, next: u64)
    requires
        s.wf(),
        execute::rd(inst) != 0,
    ensures
        ({
            let imm = decode::spec_imm_u(inst);
            let after = s.execute(inst, here, next).0;
            let opcode = decode::field(inst, 6, 0);
            &&& opcode == 0x17 ==> after.x(execute::rd(inst)) == s.xlen.wrap(here + imm)
            &&& opcode == 0x37 ==> s.xlen.signed(after.x(execute::rd(inst))) == imm
        }),
{
    reveal(CpuState::execute);
    lemma_register_fields(inst);
    let imm = decode::spec_imm_u(inst);
    assert(-0x8000_0000 <= imm < 0x8000_0000) by {
        decode::lemma_fields(inst);
    }
    lemma_twice_wrapped(s.xlen, here + imm);
    lemma_twice_wrapped(s.xlen, imm);
}

/// Reducing a number to the width twice is reducing it once, and a number that
/// fits reads back as itself.
proof fn lemma_twice_wrapped(xlen: Xlen, x: int)
    ensures
        xlen.wrap(xlen.wrap(x) as int) == xlen.wrap(x),
        -(xlen.modulus() / 2) <= x < xlen.modulus() / 2 ==> xlen.signed(xlen.wrap(x)) == x,
{
    match xlen {
        Xlen::Rv32 => {},
        Xlen::Rv64 => {},
    }
}

/// JALR clears the low bit of the target after the addition, and links to the
/// instruction after it.
#[verifier::rlimit(40)]
#[verifier::spinoff_prover]
pub proof fn law_jalr_clears_the_low_bit(s: CpuState, inst: u32, here: u64, next: u64)
    requires
        s.wf(),
        decode::field(inst, 6, 0) == 0x67,
        execute::funct3(inst) == 0,
    ensures
        ({
            let target = s.xlen.wrap(s.x(execute::rs1(inst)) + decode::spec_imm_i(inst));
            let after = s.execute(inst, here, next).0;
            &&& after.pc == target - target % 2
            &&& execute::rd(inst) != 0 && next < s.xlen.modulus() ==> after.x(execute::rd(inst))
                == next
        }),
{
    reveal(CpuState::execute);
    lemma_register_fields(inst);
    lemma_wrap_fits(s.xlen, next as int);
    match s.xlen {
        Xlen::Rv32 => {},
        Xlen::Rv64 => {},
    }
}

/// Atomics must be naturally aligned, and say so as loads or stores do;
/// ordinary accesses never fault for their alignment.
pub proof fn law_only_atomics_need_alignment(s: CpuState, inst: u32, va: u64, size: u64, value: u64)
    ensures
        ({
            let f5 = execute::funct5(inst);
            let f3 = execute::funct3(inst);
            let addr = s.x(execute::rs1(inst));
            let known = f5 == 0x02 || f5 == 0x03 || alu::spec_amo(Xlen::Rv64, f5, 0, 0) is Some;
            s.xlen == Xlen::Rv64 && f3 == 3 && known && addr % 8 != 0 ==> s.exec_amo(inst) == (
                s,
                Err::<(), Exception>(execute::spec_misaligned(f5, addr)),
            )
        }),
        s.load(va, size).1 matches Err(e) ==> !(e is LoadAddressMisaligned),
        s.store(va, size, value).1 matches Err(e) ==> !(e is StoreAddressMisaligned),
{
    reveal(CpuState::translate);
    reveal(CpuState::load);
    reveal(CpuState::store);
}

/// A CSR that does not exist is illegal rather than zero, one above this mode
/// is out of reach, and a read-only one may be read and not written.
pub proof fn law_csr_access_is_checked(s: CpuState, inst: u32)
    ensures
        ({
            let addr = decode::field(inst, 31, 20) as u16;
            let write = execute::funct3(inst) % 4 == 1 || execute::rs1(inst) != 0;
            &&& !csr::spec_exists(addr, s.xlen) ==> s.exec_csr(inst) == s.illegal(inst)
            &&& control::csr_level(addr) > s.priv_mode.spec_bits() ==> s.exec_csr(inst)
                == s.illegal(inst)
            &&& write && control::csr_read_only(addr) ==> s.exec_csr(inst) == s.illegal(inst)
        }),
{
}

} // verus!
