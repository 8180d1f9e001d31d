//! The fields of `mstatus`.

use vstd::prelude::*;

verus! {

/// Supervisor interrupt enable.
pub const SIE: u64 = 0x2;

/// Machine interrupt enable.
pub const MIE: u64 = 0x8;

/// What SIE was before the last trap into supervisor mode.
pub const SPIE: u64 = 0x20;

/// What MIE was before the last trap into machine mode.
pub const MPIE: u64 = 0x80;

/// The mode the last trap into supervisor mode came from.
pub const SPP: u64 = 0x100;

/// The mode the last trap into machine mode came from.
pub const MPP: u64 = 0x1800;

pub const MPP_SHIFT: u32 = 11;

/// The state of the floating-point unit: off, initial, clean or dirty.
pub const FS: u64 = 0x6000;

/// Machine-mode loads and stores behave as though they came from MPP.
pub const MPRV: u64 = 0x2_0000;

/// Supervisor mode may touch user pages.
pub const SUM: u64 = 0x4_0000;

/// Execute-only pages are readable.
pub const MXR: u64 = 0x8_0000;

/// Trap virtual-memory management from supervisor mode.
pub const TVM: u64 = 0x10_0000;

/// Trap WFI below machine mode.
pub const TW: u64 = 0x20_0000;

/// Trap SRET from supervisor mode.
pub const TSR: u64 = 0x40_0000;

/// The fields that `sstatus` shares: SIE, SPIE, SPP, FS, SUM and MXR.
pub const SUPERVISOR: u64 = 0xc_6122;

/// SD, which summarises FS, where RV64 has it.
pub const SD_64: u64 = 0x8000_0000_0000_0000;

/// SD, where RV32 has it.
pub const SD_32: u64 = 0x8000_0000;

} // verus!
