//! Exceptions, numbered per the privileged spec's mcause encoding, and the
//! privilege modes that take them.

use vstd::prelude::*;

verus! {

/// A privilege mode.
#[derive(Debug, Clone, Copy, PartialEq, Eq, Structural)]
pub enum Priv {
    User,
    Supervisor,
    Machine,
}

impl Priv {
    /// The two-bit encoding that `mstatus.MPP` and a CSR address use. It also
    /// orders the modes: a larger one is more privileged.
    pub open spec fn spec_bits(self) -> u64 {
        match self {
            Priv::User => 0,
            Priv::Supervisor => 1,
            Priv::Machine => 3,
        }
    }

    pub fn bits(self) -> (r: u64)
        ensures
            r == self.spec_bits(),
            r <= 3,
    {
        match self {
            Priv::User => 0,
            Priv::Supervisor => 1,
            Priv::Machine => 3,
        }
    }

    pub open spec fn spec_from_bits(v: u64) -> Priv {
        if v == 0 {
            Priv::User
        } else if v == 1 {
            Priv::Supervisor
        } else {
            Priv::Machine
        }
    }

    /// Decodes the two-bit encoding. The reserved value reads as machine mode.
    pub fn from_bits(v: u64) -> (r: Priv)
        ensures
            r == Priv::spec_from_bits(v),
    {
        match v {
            0 => Priv::User,
            1 => Priv::Supervisor,
            _ => Priv::Machine,
        }
    }
}

/// Why memory is being touched.
#[derive(Debug, Clone, Copy, PartialEq, Eq, Structural)]
pub enum Access {
    Fetch,
    Load,
    Store,
}

#[derive(Debug, Clone, Copy, PartialEq, Eq, Structural)]
pub enum Exception {
    InstructionAccessFault(u64),
    IllegalInstruction(u32),
    Breakpoint,
    LoadAddressMisaligned(u64),
    LoadAccessFault(u64),
    StoreAddressMisaligned(u64),
    StoreAccessFault(u64),
    EnvironmentCall,
    InstructionPageFault(u64),
    LoadPageFault(u64),
    StorePageFault(u64),
}

impl Exception {
    pub open spec fn spec_cause(self) -> u64 {
        match self {
            Exception::InstructionAccessFault(_) => 1,
            Exception::IllegalInstruction(_) => 2,
            Exception::Breakpoint => 3,
            Exception::LoadAddressMisaligned(_) => 4,
            Exception::LoadAccessFault(_) => 5,
            Exception::StoreAddressMisaligned(_) => 6,
            Exception::StoreAccessFault(_) => 7,
            Exception::EnvironmentCall => 11,
            Exception::InstructionPageFault(_) => 12,
            Exception::LoadPageFault(_) => 13,
            Exception::StorePageFault(_) => 15,
        }
    }

    /// The cause number of this exception when it is raised in machine mode.
    pub fn cause(&self) -> (r: u64)
        ensures
            r == self.spec_cause(),
    {
        match self {
            Exception::InstructionAccessFault(_) => 1,
            Exception::IllegalInstruction(_) => 2,
            Exception::Breakpoint => 3,
            Exception::LoadAddressMisaligned(_) => 4,
            Exception::LoadAccessFault(_) => 5,
            Exception::StoreAddressMisaligned(_) => 6,
            Exception::StoreAccessFault(_) => 7,
            Exception::EnvironmentCall => 11,
            Exception::InstructionPageFault(_) => 12,
            Exception::LoadPageFault(_) => 13,
            Exception::StorePageFault(_) => 15,
        }
    }

    /// ECALL has a distinct cause per mode; nothing else does.
    pub open spec fn spec_cause_in(self, mode: Priv) -> u64 {
        if self == Exception::EnvironmentCall {
            (8 + mode.spec_bits()) as u64
        } else {
            self.spec_cause()
        }
    }

    /// The cause number of this exception when it is raised in `mode`.
    pub fn cause_in(&self, mode: Priv) -> (r: u64)
        ensures
            r == self.spec_cause_in(mode),
            r < 16,
    {
        match self {
            Exception::EnvironmentCall => 8 + mode.bits(),
            _ => self.cause(),
        }
    }

    pub open spec fn spec_tval(self) -> u64 {
        match self {
            Exception::InstructionAccessFault(a) => a,
            Exception::LoadAddressMisaligned(a) => a,
            Exception::LoadAccessFault(a) => a,
            Exception::StoreAddressMisaligned(a) => a,
            Exception::StoreAccessFault(a) => a,
            Exception::InstructionPageFault(a) => a,
            Exception::LoadPageFault(a) => a,
            Exception::StorePageFault(a) => a,
            Exception::IllegalInstruction(i) => i as u64,
            Exception::Breakpoint => 0,
            Exception::EnvironmentCall => 0,
        }
    }

    /// The value that lands in `mtval` when this exception traps.
    pub fn tval(&self) -> (r: u64)
        ensures
            r == self.spec_tval(),
    {
        match self {
            Exception::InstructionAccessFault(a) => *a,
            Exception::LoadAddressMisaligned(a) => *a,
            Exception::LoadAccessFault(a) => *a,
            Exception::StoreAddressMisaligned(a) => *a,
            Exception::StoreAccessFault(a) => *a,
            Exception::InstructionPageFault(a) => *a,
            Exception::LoadPageFault(a) => *a,
            Exception::StorePageFault(a) => *a,
            Exception::IllegalInstruction(i) => *i as u64,
            Exception::Breakpoint => 0,
            Exception::EnvironmentCall => 0,
        }
    }

    pub open spec fn spec_page_fault(access: Access, va: u64) -> Exception {
        match access {
            Access::Fetch => Exception::InstructionPageFault(va),
            Access::Load => Exception::LoadPageFault(va),
            Access::Store => Exception::StorePageFault(va),
        }
    }

    /// The page fault that an access of this kind raises.
    pub fn page_fault(access: Access, va: u64) -> (r: Exception)
        ensures
            r == Exception::spec_page_fault(access, va),
    {
        match access {
            Access::Fetch => Exception::InstructionPageFault(va),
            Access::Load => Exception::LoadPageFault(va),
            Access::Store => Exception::StorePageFault(va),
        }
    }

    pub open spec fn spec_access_fault(access: Access, va: u64) -> Exception {
        match access {
            Access::Fetch => Exception::InstructionAccessFault(va),
            Access::Load => Exception::LoadAccessFault(va),
            Access::Store => Exception::StoreAccessFault(va),
        }
    }

    /// The fault that an access of this kind raises when nothing answers at
    /// the physical address.
    pub fn access_fault(access: Access, va: u64) -> (r: Exception)
        ensures
            r == Exception::spec_access_fault(access, va),
    {
        match access {
            Access::Fetch => Exception::InstructionAccessFault(va),
            Access::Load => Exception::LoadAccessFault(va),
            Access::Store => Exception::StoreAccessFault(va),
        }
    }
}

} // verus!
