# nanoemu

The reference RISC-V simulator for nanoriscv, verified with Verus.

It simulates RV32 and RV64 IMAFDC with machine, supervisor and user modes,
Sv32 and Sv39 paging, and a small platform around the hart: a CLINT, a PLIC, a
UART, and a built-in SBI firmware. Its job is to be obviously correct rather
than fast: it is the golden model that a hardware core is checked against,
instruction by instruction.

## How it is specified

Every type that holds state has a view: `CpuState` for the hart, `CsrState`,
`MemState`, `PlicState`, `UartState` and `ElfState` for its parts. What each
operation does is a function on those views, and the executable code is proved
to compute it. `Cpu::step` is the whole contract: its `ensures` says that the
state after a step is `CpuState::step` of the state before it.

- Integer arithmetic is stated over the integers, reduced to the register
  width (`alu`).
- Floating point is stated as one rounding of the exact result (`exact`,
  `fpu`). Nothing depends on the host's own floating point.
- Page-table walks, CSR views, trap entry and return, interrupt
  arbitration and the ELF reader are each a function on views.
- What holds across operations is proved as `law_*` functions, next to what
  they speak of: that a load reads the last store, that a return undoes a
  trap, that a trapping instruction changes no register, that a single
  survives the trip through a double.

## Layout

```
src/alu.rs        integer arithmetic at either width
src/compress.rs   the C extension, expanded to base instructions at fetch
src/cpu.rs        the hart: state, reset, loading and the run loop
src/cpu/          access, execute, control, float, step, and the hart's laws
src/csr.rs        control and status registers
src/decode.rs     instruction fields and immediates
src/elf.rs        ELF32 and ELF64 reader
src/exact.rs      exact quantities and what rounding does to them
src/fpu.rs        soft float, with its laws in src/fpu/
src/memory.rs     the physical address space
src/mmu.rs        Sv32 and Sv39
src/clint.rs, src/plic.rs, src/uart.rs   the devices
src/sbi.rs        the firmware calls
src/text.rs       bytes as text
src/trap.rs       exceptions and privilege modes
src/wide.rs       shifts and bit lengths as arithmetic
app/main.rs       the command line
```
