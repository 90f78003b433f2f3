//! GV100 (Volta) FBPA, LTC and PFB register constants.
use vstd::prelude::*;

use super::{FbpaOffset, LtcOffset};

verus! {

pub const FBPA0_BASE: usize = 0x009A_0000;
pub const FBPA_STRIDE: usize = 0x0000_4000;
pub const FBPA_COUNT: usize = 4;

pub const LTC_BASE: usize = 0x0017_E000;
pub const LTC_STRIDE: usize = 0x0000_2000;
pub const LTC_COUNT: usize = 6;

pub const PFB_BASE: usize = 0x0010_0000;
/// PFB registers (`PfbOffset` values).
pub const PFB_CFG0: usize = 0x0010_0000;
pub const PFB_CFG1: usize = 0x0010_0004;
pub const PFB_MEM_STATUS: usize = 0x0010_0800;
pub const PFB_MEM_CTRL: usize = 0x0010_0804;
pub const PFB_NISO_FLUSH_LO: usize = 0x0010_0B20;
pub const PFB_NISO_FLUSH_HI: usize = 0x0010_0B24;

pub const PCLOCK_BASE: usize = 0x0013_7000;
pub const CLK_BASE: usize = 0x0013_2000;

pub const PMC_ENABLE: usize = 0x0000_0200;
pub const FB_ENABLE_BIT: u32 = 0x0010_0000;
pub const LTC_ENABLE_BIT: u32 = 0x0020_0000;

pub const PRAMIN_BASE: usize = 0x0070_0000;
pub const BAR0_WINDOW: usize = 0x0000_1700;

/// Offsets of key registers within each FBPA partition (`FbpaOffset` values).
pub const FBPA_CMD: usize = 0x00;
pub const FBPA_CFG: usize = 0x04;
pub const FBPA_TIMING0: usize = 0x80;
pub const FBPA_TIMING1: usize = 0x84;
pub const FBPA_TIMING2: usize = 0x88;

/// Absolute BAR0 offset of a register within one FBPA partition.
pub fn fbpa_reg(partition: usize, rel: FbpaOffset) -> (r: usize)
    requires
        FBPA0_BASE + partition * FBPA_STRIDE + rel.0 <= usize::MAX,
    ensures
        r == FBPA0_BASE + partition * FBPA_STRIDE + rel.0,
{
    proof {
        assert(partition * FBPA_STRIDE <= usize::MAX);
    }
    FBPA0_BASE + partition * FBPA_STRIDE + rel.0
}

/// Absolute BAR0 offset of a register within one LTC partition.
pub fn ltc_reg(partition: usize, rel: LtcOffset) -> (r: usize)
    requires
        LTC_BASE + partition * LTC_STRIDE + rel.0 <= usize::MAX,
    ensures
        r == LTC_BASE + partition * LTC_STRIDE + rel.0,
{
    LTC_BASE + partition * LTC_STRIDE + rel.0
}

} // verus!
