use vstd::prelude::*;

verus! {

/// Bytes of a `TrapFrame`: 64 register slots and three words.
pub const TRAP_FRAME_SIZE: u64 = 536;

/// A hart's saved state at a trap: 32 integer and 32 floating-point register
/// slots, the hart's `satp`, the top of its trap stack and its hart id.
pub struct TrapFrame {
    pub regs: [u64; 32],
    pub fregs: [u64; 32],
    pub satp: u64,
    pub trap_stack: u64,
    pub hartid: u64,
}

impl TrapFrame {
    /// A frame with every slot zero.
    pub fn zero() -> (r: TrapFrame)
        ensures
            forall|i: int| 0 <= i < 32 ==> r.regs@[i] == 0 && r.fregs@[i] == 0,
            r.satp == 0,
            r.trap_stack == 0,
            r.hartid == 0,
    {
        TrapFrame { regs: [0u64; 32], fregs: [0u64; 32], satp: 0, trap_stack: 0, hartid: 0 }
    }
}

/// Translation modes of the `satp` register.
#[derive(Clone, Copy, Debug, PartialEq, Eq, Structural)]
pub enum SatpMode {
    Off,
    Sv39,
    Sv48,
}

impl SatpMode {
    pub open spec fn spec_val(&self) -> u64 {
        match self {
            SatpMode::Off => 0,
            SatpMode::Sv39 => 8,
            SatpMode::Sv48 => 9,
        }
    }

    /// The mode's encoding in `satp` bits 63..60.
    pub fn val(&self) -> (r: u64)
        ensures
            r == self.spec_val(),
    {
        match self {
            SatpMode::Off => 0,
            SatpMode::Sv39 => 8,
            SatpMode::Sv48 => 9,
        }
    }
}

/// The `satp` value for `mode`, address-space id `asid` and the root table at
/// physical address `root`: `mode << 60 | asid << 44 | root >> 12`.
pub fn build_satp(mode: SatpMode, asid: u64, root: u64) -> (r: u64)
    requires
        asid < 0x1_0000,
        root < 0x0100_0000_0000_0000,
    ensures
        r == (mode.spec_val() << 60u64) | (asid << 44u64) | (root >> 12u64),
{
    let m = mode.val();
    assert((m << 60u64) | ((asid & 0xffffu64) << 44u64) | ((root >> 12u64) & 0xfff_ffff_ffffu64)
        == (m << 60u64) | (asid << 44u64) | (root >> 12u64)) by (bit_vector)
        requires
            asid < 0x1_0000u64,
            root < 0x0100_0000_0000_0000u64,
    ;
    (m << 60) | ((asid & 0xffff) << 44) | ((root >> 12) & 0xfff_ffff_ffff)
}

} // verus!
