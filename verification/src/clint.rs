//! The core-local interruptor: the machine timer and the machine software
//! interrupt, in the SiFive layout.

use vstd::prelude::*;

verus! {

pub const CLINT_BASE: u64 = 0x0200_0000;

pub const CLINT_SIZE: u64 = 0x1_0000;

// Register offsets, for hart 0.
pub const MSIP: u64 = 0x0;

pub const MTIMECMP: u64 = 0x4000;

pub const MTIMECMP_HIGH: u64 = 0x4004;

pub const MTIME: u64 = 0xbff8;

pub const MTIME_HIGH: u64 = 0xbffc;

pub struct Clint {
    /// The machine software interrupt, in bit 0.
    pub msip: u64,
    /// Ticks since reset.
    pub mtime: u64,
    /// The machine timer interrupt is pending while `mtime` is not below this.
    pub mtimecmp: u64,
}

/// A 64-bit register with one 32-bit half written.
pub open spec fn spec_with_low(v: u64, low: u64) -> u64 {
    (v & 0xffff_ffff_0000_0000) | (low & 0xffff_ffff)
}

pub open spec fn spec_with_high(v: u64, high: u64) -> u64 {
    (v & 0xffff_ffff) | (high << 32)
}

impl Clint {
    /// The compare register starts at its maximum, so that no timer is
    /// pending until software has asked for one.
    pub open spec fn reset() -> Clint {
        Clint { msip: 0, mtime: 0, mtimecmp: u64::MAX }
    }

    /// What a load returns.
    pub open spec fn spec_read(self, offset: u64) -> u64 {
        if offset == MSIP {
            self.msip
        } else if offset == MTIMECMP {
            self.mtimecmp
        } else if offset == MTIMECMP_HIGH {
            self.mtimecmp >> 32
        } else if offset == MTIME {
            self.mtime
        } else if offset == MTIME_HIGH {
            self.mtime >> 32
        } else {
            0
        }
    }

    pub fn read(&self, offset: u64) -> (r: u64)
        ensures
            r == self.spec_read(offset),
    {
        if offset == MSIP {
            self.msip
        } else if offset == MTIMECMP {
            self.mtimecmp
        } else if offset == MTIMECMP_HIGH {
            self.mtimecmp >> 32
        } else if offset == MTIME {
            self.mtime
        } else if offset == MTIME_HIGH {
            self.mtime >> 32
        } else {
            0
        }
    }

    /// What a store leaves behind. A store of eight bytes writes a whole
    /// register; a narrower one writes the half it addresses.
    pub open spec fn spec_write(self, offset: u64, size: u64, value: u64) -> Clint {
        if offset == MSIP {
            Clint { msip: value & 1, ..self }
        } else if offset == MTIMECMP {
            if size == 8 {
                Clint { mtimecmp: value, ..self }
            } else {
                Clint { mtimecmp: spec_with_low(self.mtimecmp, value), ..self }
            }
        } else if offset == MTIMECMP_HIGH {
            Clint { mtimecmp: spec_with_high(self.mtimecmp, value), ..self }
        } else if offset == MTIME {
            if size == 8 {
                Clint { mtime: value, ..self }
            } else {
                Clint { mtime: spec_with_low(self.mtime, value), ..self }
            }
        } else if offset == MTIME_HIGH {
            Clint { mtime: spec_with_high(self.mtime, value), ..self }
        } else {
            self
        }
    }

    pub fn write(&mut self, offset: u64, size: u64, value: u64)
        ensures
            *final(self) == old(self).spec_write(offset, size, value),
    {
        if offset == MSIP {
            self.msip = value & 1;
        } else if offset == MTIMECMP {
            if size == 8 {
                self.mtimecmp = value;
            } else {
                self.mtimecmp = (self.mtimecmp & 0xffff_ffff_0000_0000) | (value & 0xffff_ffff);
            }
        } else if offset == MTIMECMP_HIGH {
            self.mtimecmp = (self.mtimecmp & 0xffff_ffff) | (value << 32);
        } else if offset == MTIME {
            if size == 8 {
                self.mtime = value;
            } else {
                self.mtime = (self.mtime & 0xffff_ffff_0000_0000) | (value & 0xffff_ffff);
            }
        } else if offset == MTIME_HIGH {
            self.mtime = (self.mtime & 0xffff_ffff) | (value << 32);
        }
    }

    pub open spec fn spec_tick(self) -> Clint {
        Clint { mtime: self.mtime.wrapping_add(1), ..self }
    }

    /// One tick of the timer.
    pub fn tick(&mut self)
        ensures
            *final(self) == old(self).spec_tick(),
    {
        self.mtime = self.mtime.wrapping_add(1);
    }
}

impl Default for Clint {
    fn default() -> (r: Self)
        ensures
            r == Clint::reset(),
    {
        Clint { msip: 0, mtime: 0, mtimecmp: u64::MAX }
    }
}

} // verus!
