//! GPU warm-up bookkeeping: the thermal states of a VFIO-bound GPU, how a
//! state is diagnosed from its key registers, when a GPU has cooled since
//! an earlier health snapshot, and which registers an oracle clone copies
//! or must never write.
use vstd::prelude::*;

verus! {

/// Current state of the GPU as the warm-up understands it.
#[derive(Debug, Clone, PartialEq, Eq, Structural)]
pub enum GpuThermalState {
    /// D3hot (PCIe sleep): BAR0 reads 0xFFFFFFFF.
    D3Hot,
    /// BAR0 answers but engines are clock-gated (PMC = 0x40000020).
    ColdGated,
    /// PMC engines clocked but PFIFO not functional.
    EnginesClocked,
    /// PFIFO alive but VRAM returns error patterns.
    PfifoAliveVramDead,
    /// PFIFO alive, VRAM accessible, BAR2 not configured.
    VramAliveBar2Dead,
    /// Fully warm: PFIFO, VRAM and BAR2 work.
    Warm,
}

/// A register snapshot taken before and after a warm-up step.
#[derive(Debug, Clone)]
pub struct StepSnapshot {
    /// Step description.
    pub step: String,
    /// Register values before the step: (offset, value).
    pub before: Vec<(usize, u32)>,
    /// Register values after the step: (offset, value).
    pub after: Vec<(usize, u32)>,
}

/// The first value `snap` holds for `off`.
pub open spec fn lookup(snap: Seq<(usize, u32)>, off: usize) -> Option<u32>
    decreases snap.len(),
{
    if snap.len() == 0 {
        None
    } else if snap[0].0 == off {
        Some(snap[0].1)
    } else {
        lookup(snap.drop_first(), off)
    }
}

/// The registers of `before` (in its order) that `after` holds with another
/// value: (offset, before, after).
pub open spec fn spec_deltas(before: Seq<(usize, u32)>, after: Seq<(usize, u32)>) -> Seq<
    (usize, u32, u32),
>
    decreases before.len(),
{
    if before.len() == 0 {
        Seq::empty()
    } else {
        let (off, b) = before.last();
        let rest = spec_deltas(before.drop_last(), after);
        match lookup(after, off) {
            Some(a) => if a != b {
                rest.push((off, b, a))
            } else {
                rest
            },
            None => rest,
        }
    }
}

/// The first value `snap` holds for `off`.
fn find(snap: &Vec<(usize, u32)>, off: usize) -> (r: Option<u32>)
    ensures
        r == lookup(snap@, off),
{
    let mut i: usize = 0;
    assert(snap@.subrange(0, snap@.len() as int) =~= snap@);
    while i < snap.len()
        invariant
            i <= snap@.len(),
            lookup(snap@, off) == lookup(snap@.subrange(i as int, snap@.len() as int), off),
        decreases snap.len() - i,
    {
        let (o, v) = snap[i];
        if o == off {
            return Some(v);
        }
        proof {
            assert(snap@.subrange(i as int, snap@.len() as int).drop_first() =~= snap@.subrange(
                i + 1,
                snap@.len() as int,
            ));
        }
        i = i + 1;
    }
    proof {
        assert(snap@.subrange(i as int, snap@.len() as int) =~= Seq::<(usize, u32)>::empty());
    }
    None
}

impl StepSnapshot {
    /// Registers that changed during this step, in the order of `before`:
    /// each offset of `before` that `after` holds with another value.
    pub fn deltas(&self) -> (r: Vec<(usize, u32, u32)>)
        ensures
            r@ == spec_deltas(self.before@, self.after@),
    {
        let mut out: Vec<(usize, u32, u32)> = Vec::new();
        let mut i: usize = 0;
        while i < self.before.len()
            invariant
                i <= self.before@.len(),
                out@ == spec_deltas(self.before@.subrange(0, i as int), self.after@),
            decreases self.before.len() - i,
        {
            let (off, b) = self.before[i];
            proof {
                assert(self.before@.subrange(0, i + 1).drop_last() =~= self.before@.subrange(0, i as int));
            }
            match find(&self.after, off) {
                Some(a) => {
                    if a != b {
                        out.push((off, b, a));
                    }
                },
                None => {},
            }
            i = i + 1;
        }
        proof {
            assert(self.before@.subrange(0, i as int) =~= self.before@);
        }
        out
    }
}

/// Result of a warm-up attempt.
#[derive(Debug)]
pub struct WarmResult {
    /// State before warm-up.
    pub initial_state: GpuThermalState,
    /// State after warm-up.
    pub final_state: GpuThermalState,
    /// Whether the GPU reached a fully warm state.
    pub success: bool,
    /// Diagnostic messages collected during warm-up.
    pub log: Vec<String>,
    /// Per-step register snapshots for forensics.
    pub step_snapshots: Vec<StepSnapshot>,
}

/// Snapshot of GPU health at a point in time, for the watchdog.
#[derive(Debug, Clone)]
pub struct HealthSnapshot {
    pub thermal_state: GpuThermalState,
    pub domains_alive: usize,
    pub domains_faulted: usize,
    pub vram_accessible: bool,
    pub pmc_enable: u32,
    pub log: Vec<String>,
}

/// The thermal state that the key registers show. `boot0` decides D3hot;
/// then PMC_ENABLE (0x40000020 or 0: clock-gated); then, where the GPU has
/// a PBDMA map register, PFIFO's enable bit (8) and a live PBDMA map
/// (neither 0 nor 0xBAD0DA00); then VRAM; then, where the GPU has a BAR2
/// block register, a valid block (neither 0x40000000 nor 0, and its high
/// half not 0xBAD0).
pub open spec fn spec_thermal_state(
    boot0: u32,
    pmc: u32,
    pbdma_map: Option<u32>,
    vram_ok: bool,
    bar2_block: Option<u32>,
) -> GpuThermalState {
    if boot0 == 0xFFFF_FFFF {
        GpuThermalState::D3Hot
    } else if pmc == 0x4000_0020 || pmc == 0 {
        GpuThermalState::ColdGated
    } else if pbdma_map matches Some(m) && (pmc & 0x100 == 0 || m == 0 || m == 0xBAD0_DA00) {
        GpuThermalState::EnginesClocked
    } else if !vram_ok {
        GpuThermalState::PfifoAliveVramDead
    } else if bar2_block matches Some(b) && (b == 0x4000_0000 || b == 0 || (b >> 16u32) == 0xBAD0) {
        GpuThermalState::VramAliveBar2Dead
    } else {
        GpuThermalState::Warm
    }
}

/// Diagnose the thermal state from the key registers (see
/// `spec_thermal_state`). A register the GPU does not have is `None`.
pub fn thermal_state(
    boot0: u32,
    pmc: u32,
    pbdma_map: Option<u32>,
    vram_ok: bool,
    bar2_block: Option<u32>,
) -> (r: GpuThermalState)
    ensures
        r == spec_thermal_state(boot0, pmc, pbdma_map, vram_ok, bar2_block),
{
    if boot0 == 0xFFFF_FFFF {
        return GpuThermalState::D3Hot;
    }
    if pmc == 0x4000_0020 || pmc == 0 {
        return GpuThermalState::ColdGated;
    }
    if let Some(m) = pbdma_map {
        let pfifo_bit = pmc & 0x100 != 0;
        let pbdma_alive = m != 0 && m != 0xBAD0_DA00;
        if !pfifo_bit || !pbdma_alive {
            return GpuThermalState::EnginesClocked;
        }
    }
    if !vram_ok {
        return GpuThermalState::PfifoAliveVramDead;
    }
    if let Some(b) = bar2_block {
        let valid = b != 0x4000_0000 && b != 0 && (b >> 16u32) != 0xBAD0;
        if !valid {
            return GpuThermalState::VramAliveBar2Dead;
        }
    }
    GpuThermalState::Warm
}

/// The GPU has cooled since `previous`: more domains faulted, VRAM became
/// inaccessible, or the state changed to one that is not warm.
pub open spec fn spec_has_cooled(previous: HealthSnapshot, current: HealthSnapshot) -> bool {
    current.domains_faulted > previous.domains_faulted || (!current.vram_accessible
        && previous.vram_accessible) || (current.thermal_state != previous.thermal_state
        && current.thermal_state != GpuThermalState::Warm)
}

/// Whether the GPU has cooled between two health snapshots, the test that
/// decides a re-warm.
pub fn has_cooled(previous: &HealthSnapshot, current: &HealthSnapshot) -> (r: bool)
    ensures
        r == spec_has_cooled(*previous, *current),
{
    current.domains_faulted > previous.domains_faulted || (!current.vram_accessible
        && previous.vram_accessible) || (current.thermal_state != previous.thermal_state
        && current.thermal_state != GpuThermalState::Warm)
}

/// A GPU whose health did not change has not cooled, and neither has one
/// that is warm, lost no VRAM access and has no more faulted domains.
pub proof fn lemma_cooling_needs_a_change(previous: HealthSnapshot, current: HealthSnapshot)
    ensures
        (current.thermal_state == previous.thermal_state && current.domains_faulted
            <= previous.domains_faulted && (previous.vram_accessible ==> current.vram_accessible))
            ==> !spec_has_cooled(previous, current),
        (current.thermal_state == GpuThermalState::Warm && current.domains_faulted
            <= previous.domains_faulted && (previous.vram_accessible ==> current.vram_accessible))
            ==> !spec_has_cooled(previous, current),
{
}

/// Registers to never write: PTIMER (dynamic), PDISP, the MMU invalidation
/// triggers, the fault buffer registers, the PMU mailboxes and the PMU
/// CPUCTL.
pub open spec fn spec_is_dangerous_register(off: usize) -> bool {
    (0x009000 <= off <= 0x0090FF) || (0x610000 <= off <= 0x610FFF) || off == 0x100CBC || off
        == 0x100CB8 || off == 0x100CEC || (0x100E24 <= off <= 0x100E54) || (0x10A040 <= off
        <= 0x10A048) || off == 0x10A100
}

/// Whether an oracle clone must never write register `off`.
pub fn is_dangerous_register(off: usize) -> (r: bool)
    ensures
        r == spec_is_dangerous_register(off),
{
    (0x009000 <= off && off <= 0x0090FF) || (0x610000 <= off && off <= 0x610FFF) || off
        == 0x100CBC || off == 0x100CB8 || off == 0x100CEC || (0x100E24 <= off && off <= 0x100E54)
        || (0x10A040 <= off && off <= 0x10A048) || off == 0x10A100
}

/// Register ranges meaningful for HBM2/FB initialisation, read from an
/// oracle card: (name, start, end).
pub open spec fn spec_oracle_ranges() -> Seq<(&'static str, usize, usize)> {
    seq![
        ("PMC", 0x000000usize, 0x001000usize),
        ("PBUS", 0x001000usize, 0x002000usize),
        ("PTOP", 0x022000usize, 0x023000usize),
        ("PFB", 0x100000usize, 0x102000usize),
        ("FBPA0", 0x9A0000usize, 0x9A1000usize),
        ("FBPA1", 0x9A4000usize, 0x9A5000usize),
        ("FBPA_BC", 0x9A8000usize, 0x9A9000usize),
        ("LTC", 0x17E000usize, 0x17F000usize),
        ("PCLOCK", 0x137000usize, 0x138000usize),
        ("PMU", 0x10A000usize, 0x10B000usize),
        ("PFB_NISO", 0x100C00usize, 0x100E00usize),
        ("PMEM", 0x1FA000usize, 0x1FB000usize),
        ("FUSE", 0x021000usize, 0x022000usize),
        ("FBHUB", 0x100800usize, 0x100A00usize),
        ("PRI_MASTER", 0x122000usize, 0x123000usize),
    ]
}

/// The oracle register ranges.
pub fn oracle_ranges() -> (r: Vec<(&'static str, usize, usize)>)
    ensures
        r@ == spec_oracle_ranges(),
{
    let r = vec![
        ("PMC", 0x000000usize, 0x001000usize),
        ("PBUS", 0x001000usize, 0x002000usize),
        ("PTOP", 0x022000usize, 0x023000usize),
        ("PFB", 0x100000usize, 0x102000usize),
        ("FBPA0", 0x9A0000usize, 0x9A1000usize),
        ("FBPA1", 0x9A4000usize, 0x9A5000usize),
        ("FBPA_BC", 0x9A8000usize, 0x9A9000usize),
        ("LTC", 0x17E000usize, 0x17F000usize),
        ("PCLOCK", 0x137000usize, 0x138000usize),
        ("PMU", 0x10A000usize, 0x10B000usize),
        ("PFB_NISO", 0x100C00usize, 0x100E00usize),
        ("PMEM", 0x1FA000usize, 0x1FB000usize),
        ("FUSE", 0x021000usize, 0x022000usize),
        ("FBHUB", 0x100800usize, 0x100A00usize),
        ("PRI_MASTER", 0x122000usize, 0x123000usize),
    ];
    assert(r@ =~= spec_oracle_ranges());
    r
}

} // verus!
