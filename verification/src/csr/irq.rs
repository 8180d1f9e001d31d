//! The interrupt bits of `mip` and `mie`.

use vstd::prelude::*;

verus! {

/// Supervisor software interrupt.
pub const SSIP: u64 = 0x2;

/// Machine software interrupt.
pub const MSIP: u64 = 0x8;

/// Supervisor timer interrupt.
pub const STIP: u64 = 0x20;

/// Machine timer interrupt.
pub const MTIP: u64 = 0x80;

/// Supervisor external interrupt.
pub const SEIP: u64 = 0x200;

/// Machine external interrupt.
pub const MEIP: u64 = 0x800;

/// The three interrupts of supervisor mode.
pub const SUPERVISOR: u64 = 0x222;

} // verus!
