//! Architecture dispatch for sovereign boot: GPU era detection, the AMD
//! RDNA domain map and boot sequence, and the per-era selection of domain
//! map, boot sequence and replay hooks.
use vstd::prelude::*;
use vstd::string::StringSliceAdditionalSpecFns;

use crate::boot_follower::{
    bp, dr, hint_is, lookup_in_table, spec_classify_with_hint, spec_kepler_phases, spec_volta_phases,
    str_eq, ArchDomainMap, BootPhase, BootSequence, DomainMap, DomainRange, KeplerBootSequence,
    RecipeStep, VoltaBootSequence,
};
use crate::bus::{Bar0, BusEvent, MmioError, RegisterBus};
use crate::firmware_probe::{capture_firmware_snapshot, diff_snapshots, FirmwareSnapshot};
use crate::pmu::read_value;
use crate::replay::{
    apply_recipe_phased, kepler_hook_trace, lemma_replay_ran_grows, poll_ptimer_ticking, replay_ran, volta_hook_trace,
    KeplerPllHooks, NoHooks, ReplayHooks, ReplayResult,
    VoltaReplayHooks,
};
use crate::text::{push_dec, push_hex8, spec_dec};

verus! {

/// Preliminary RDNA2 domain ranges.
pub open spec fn spec_rdna2_domains() -> Seq<DomainRange> {
    seq![
        dr("SMN", 0x000000, 0x001000, 3),
        dr("MMHUB", 0x068000, 0x06A000, 5),
        dr("GFX", 0x028000, 0x030000, 10),
        dr("SDMA0", 0x004A00, 0x004E00, 20),
    ]
}

/// Preliminary RDNA2 domain ranges.
pub fn rdna2_domains() -> (r: Vec<DomainRange>)
    ensures
        r@ == spec_rdna2_domains(),
{
    let r = vec![
        DomainRange { name: "SMN", start: 0x000000, end: 0x001000, priority: 3 },
        DomainRange { name: "MMHUB", start: 0x068000, end: 0x06A000, priority: 5 },
        DomainRange { name: "GFX", start: 0x028000, end: 0x030000, priority: 10 },
        DomainRange { name: "SDMA0", start: 0x004A00, end: 0x004E00, priority: 20 },
    ];
    proof {
        assert(r@ =~= spec_rdna2_domains());
    }
    r
}

/// Region-tag fallback of the RDNA map.
pub open spec fn spec_rdna_hint(hint: &str) -> (&'static str, u32) {
    if hint_is(hint, "GFX") {
        ("GFX", 10)
    } else if hint_is(hint, "MMHUB") {
        ("MMHUB", 5)
    } else if hint_is(hint, "SDMA") || hint_is(hint, "SDMA0") {
        ("SDMA0", 20)
    } else {
        ("UNKNOWN", 99)
    }
}

/// Where the RDNA map puts each BAR0 offset, whatever the region tag: SMN
/// 0x000000..0x001000 (priority 3), SDMA0 0x004A00..0x004E00 (20), GFX
/// 0x028000..0x030000 (10), MMHUB 0x068000..0x06A000 (5); every other
/// offset gets the region-tag fallback `fb`.
pub proof fn lemma_rdna_domain_ranges(off: int, fb: (&'static str, u32))
    ensures
        ({
            let c = spec_classify_with_hint(spec_rdna2_domains(), off, fb);
            &&& 0x000000 <= off < 0x001000 ==> c == ("SMN", 3u32)
            &&& 0x004A00 <= off < 0x004E00 ==> c == ("SDMA0", 20u32)
            &&& 0x028000 <= off < 0x030000 ==> c == ("GFX", 10u32)
            &&& 0x068000 <= off < 0x06A000 ==> c == ("MMHUB", 5u32)
            &&& (off < 0 || 0x001000 <= off < 0x004A00 || 0x004E00 <= off < 0x028000 || 0x030000 <= off
                < 0x068000 || 0x06A000 <= off) ==> c == fb
        }),
{
    reveal_with_fuel(crate::boot_follower::spec_lookup, 5);
}

/// The region tags the RDNA map falls back on for an offset outside its
/// table: GFX (priority 10), MMHUB (5), SDMA and SDMA0 (both SDMA0, 20);
/// any other tag gives ("UNKNOWN", 99).
pub proof fn lemma_rdna_region_tags(hint: &str)
    ensures
        hint@ == "GFX"@ ==> spec_rdna_hint(hint) == ("GFX", 10u32),
        hint@ == "MMHUB"@ ==> spec_rdna_hint(hint) == ("MMHUB", 5u32),
        hint@ == "SDMA"@ || hint@ == "SDMA0"@ ==> spec_rdna_hint(hint) == ("SDMA0", 20u32),
        hint@ != "GFX"@ && hint@ != "MMHUB"@ && hint@ != "SDMA"@ && hint@ != "SDMA0"@ ==> spec_rdna_hint(
            hint,
        ) == ("UNKNOWN", 99u32),
{
    crate::boot_follower::lemma_hint_is_chars(hint, "GFX");
    crate::boot_follower::lemma_hint_is_chars(hint, "MMHUB");
    crate::boot_follower::lemma_hint_is_chars(hint, "SDMA");
    crate::boot_follower::lemma_hint_is_chars(hint, "SDMA0");
    reveal_strlit("GFX");
    reveal_strlit("MMHUB");
    reveal_strlit("SDMA");
    reveal_strlit("SDMA0");
    assert("GFX"@.len() == 3 && "MMHUB"@.len() == 5 && "SDMA"@.len() == 4 && "SDMA0"@.len() == 5);
    assert("SDMA0"@[0] != "MMHUB"@[0]);
}

/// AMD RDNA2+ BAR0 domain layout.
#[derive(Debug, Clone, Copy)]
pub struct RdnaDomainMap;

impl DomainMap for RdnaDomainMap {
    fn classify(&self, offset: usize, region_hint: &str) -> (r: (&'static str, u32))
        ensures
            r == spec_classify_with_hint(
                spec_rdna2_domains(),
                offset as int,
                spec_rdna_hint(region_hint),
            ),
    {
        let t = rdna2_domains();
        if let Some(x) = lookup_in_table(t.as_slice(), offset) {
            return x;
        }
        if str_eq(region_hint, "GFX") {
            ("GFX", 10)
        } else if str_eq(region_hint, "MMHUB") {
            ("MMHUB", 5)
        } else if str_eq(region_hint, "SDMA") || str_eq(region_hint, "SDMA0") {
            ("SDMA0", 20)
        } else {
            ("UNKNOWN", 99)
        }
    }

    fn domain_table(&self) -> (r: Vec<DomainRange>)
        ensures
            r@ == spec_rdna2_domains(),
    {
        rdna2_domains()
    }
}

// ── GPU era classification ───────────────────────────────────────────────

/// GPU architecture era, determined from PMC_BOOT_0 chip identification.
#[derive(Debug, Clone, Copy, PartialEq, Eq, Structural)]
pub enum GpuEra {
    /// Kepler (GK1xx, chip 0x0E0-0x0FF): K80, K40, K20.
    NvidiaKepler,
    /// Volta (GV1xx, chip 0x140-0x14F): Titan V, V100.
    NvidiaVolta,
    /// Maxwell onwards other than Volta, SM75+ included.
    NvidiaModern,
    /// AMD GPU (detected via PCI vendor ID 0x1002, not BOOT0).
    AmdRdna,
    /// Unknown or undetected.
    Unknown,
}

/// The era of a chip id.
pub open spec fn spec_era_of_chip(chip: u32) -> GpuEra {
    if 0x0E0 <= chip <= 0x0FF {
        GpuEra::NvidiaKepler
    } else if 0x140 <= chip <= 0x14F {
        GpuEra::NvidiaVolta
    } else if 0x100 <= chip <= 0x1FF {
        GpuEra::NvidiaModern
    } else {
        GpuEra::Unknown
    }
}

/// The name of an era.
pub open spec fn spec_era_name(era: GpuEra) -> &'static str {
    match era {
        GpuEra::NvidiaKepler => "NVIDIA Kepler",
        GpuEra::NvidiaVolta => "NVIDIA Volta",
        GpuEra::NvidiaModern => "NVIDIA Modern",
        GpuEra::AmdRdna => "AMD RDNA",
        GpuEra::Unknown => "Unknown",
    }
}

/// The era of a PMC_BOOT_0 value follows its chip id (bits 20..28): Kepler
/// chips 0x0E0..=0x0FF, Volta chips 0x140..=0x14F, every other chip from
/// 0x100 to 0x1FF (Maxwell, Pascal, Turing, Ampere, Ada, Hopper,
/// Blackwell) the modern NVIDIA era, and anything below 0x0E0 unknown. No
/// BOOT0 value is classified as AMD.
pub proof fn lemma_era_by_chip_range(boot0: u32)
    ensures
        ({
            let chip = (boot0 >> 20u32) & 0x1FFu32;
            let era = spec_era_of_chip(chip);
            &&& chip <= 0x1FF
            &&& (0x0E0 <= chip && chip <= 0x0FF) <==> era == GpuEra::NvidiaKepler
            &&& (0x140 <= chip && chip <= 0x14F) <==> era == GpuEra::NvidiaVolta
            &&& (0x100 <= chip && chip <= 0x1FF && !(0x140 <= chip && chip <= 0x14F)) <==> era
                == GpuEra::NvidiaModern
            &&& chip < 0x0E0 <==> era == GpuEra::Unknown
            &&& era != GpuEra::AmdRdna
        }),
{
    let chip = (boot0 >> 20u32) & 0x1FFu32;
    assert(chip <= 0x1FF) by (bit_vector)
        requires
            chip == (boot0 >> 20u32) & 0x1FFu32,
    ;
}

impl GpuEra {
    /// Detect the GPU era from PMC_BOOT_0: chip = bits 20..28.
    pub fn from_boot0(boot0: u32) -> (r: Self)
        ensures
            r == spec_era_of_chip((boot0 >> 20u32) & 0x1FFu32),
    {
        let chip = (boot0 >> 20) & 0x1FF;
        if chip >= 0x0E0 && chip <= 0x0FF {
            GpuEra::NvidiaKepler
        } else if chip >= 0x140 && chip <= 0x14F {
            GpuEra::NvidiaVolta
        } else if chip >= 0x160 && chip <= 0x1FF {
            GpuEra::NvidiaModern
        } else if chip >= 0x100 && chip < 0x160 {
            GpuEra::NvidiaModern
        } else {
            GpuEra::Unknown
        }
    }

    /// The era's name, as displayed.
    pub fn to_string(&self) -> (r: String)
        ensures
            r@ == spec_era_name(*self)@,
    {
        let s = match self {
            GpuEra::NvidiaKepler => "NVIDIA Kepler",
            GpuEra::NvidiaVolta => "NVIDIA Volta",
            GpuEra::NvidiaModern => "NVIDIA Modern",
            GpuEra::AmdRdna => "AMD RDNA",
            GpuEra::Unknown => "Unknown",
        };
        String::from_str(s)
    }
}

/// AMD RDNA boot phases.
pub open spec fn spec_rdna_phases() -> Seq<BootPhase> {
    seq![bp("smu_init", 0, 5, true), bp("mmhub_init", 5, 10, true), bp("gfx_init", 10, 30, true)]
}

/// AMD RDNA boot phases.
pub fn rdna_phases() -> (r: Vec<BootPhase>)
    ensures
        r@ == spec_rdna_phases(),
{
    let r = vec![
        BootPhase { name: "smu_init", priority_min: 0, priority_max: 5, required: true },
        BootPhase { name: "mmhub_init", priority_min: 5, priority_max: 10, required: true },
        BootPhase { name: "gfx_init", priority_min: 10, priority_max: 30, required: true },
    ];
    proof {
        assert(r@ =~= spec_rdna_phases());
    }
    r
}

/// AMD RDNA boot sequence: SMU init, MMHUB, GFX engine.
#[derive(Debug)]
pub struct RdnaBootSequence;

impl BootSequence for RdnaBootSequence {
    fn phases(&self) -> (r: Vec<BootPhase>)
        ensures
            r@ == spec_rdna_phases(),
    {
        rdna_phases()
    }

    fn domain_map(&self) -> (r: ArchDomainMap)
        ensures
            r == ArchDomainMap::Rdna,
    {
        ArchDomainMap::Rdna
    }

    fn description(&self) -> (r: &'static str)
        ensures
            r == "AMD RDNA2+ (stub): SMU init -> MMHUB -> GFX engine",
    {
        "AMD RDNA2+ (stub): SMU init -> MMHUB -> GFX engine"
    }
}

/// The boot sequence of one architecture.
#[derive(Debug, Clone, Copy, PartialEq, Eq, Structural)]
pub enum ArchBootSequence {
    Kepler,
    Volta,
    Rdna,
}

/// The phases of each architecture's boot sequence.
pub open spec fn spec_arch_phases(s: ArchBootSequence) -> Seq<BootPhase> {
    match s {
        ArchBootSequence::Kepler => spec_kepler_phases(),
        ArchBootSequence::Volta => spec_volta_phases(),
        ArchBootSequence::Rdna => spec_rdna_phases(),
    }
}

impl BootSequence for ArchBootSequence {
    fn phases(&self) -> (r: Vec<BootPhase>)
        ensures
            r@ == spec_arch_phases(*self),
    {
        match self {
            ArchBootSequence::Kepler => KeplerBootSequence.phases(),
            ArchBootSequence::Volta => VoltaBootSequence.phases(),
            ArchBootSequence::Rdna => RdnaBootSequence.phases(),
        }
    }

    fn domain_map(&self) -> (r: ArchDomainMap)
        ensures
            r == match *self {
                ArchBootSequence::Kepler => ArchDomainMap::Kepler,
                ArchBootSequence::Volta => ArchDomainMap::Volta,
                ArchBootSequence::Rdna => ArchDomainMap::Rdna,
            },
    {
        match self {
            ArchBootSequence::Kepler => ArchDomainMap::Kepler,
            ArchBootSequence::Volta => ArchDomainMap::Volta,
            ArchBootSequence::Rdna => ArchDomainMap::Rdna,
        }
    }

    fn description(&self) -> (r: &'static str)
        ensures
            r == match self {
                ArchBootSequence::Kepler => "Kepler (GK1xx): PLL clock -> devinit -> PGRAPH -> FECS PIO boot",
                ArchBootSequence::Volta => "Volta (GV1xx): clock probe -> devinit -> PGRAPH -> ACR/SEC2 -> FECS signed boot",
                ArchBootSequence::Rdna => "AMD RDNA2+ (stub): SMU init -> MMHUB -> GFX engine",
            },
    {
        match self {
            ArchBootSequence::Kepler => KeplerBootSequence.description(),
            ArchBootSequence::Volta => VoltaBootSequence.description(),
            ArchBootSequence::Rdna => RdnaBootSequence.description(),
        }
    }
}

// ── Architecture dispatch ────────────────────────────────────────────────

/// The domain map of an era: Kepler for Kepler and unknown GPUs, Volta for
/// Volta and later NVIDIA GPUs, RDNA for AMD.
pub fn domain_map_for_era(era: GpuEra) -> (r: ArchDomainMap)
    ensures
        r == match era {
            GpuEra::NvidiaKepler | GpuEra::Unknown => ArchDomainMap::Kepler,
            GpuEra::NvidiaVolta | GpuEra::NvidiaModern => ArchDomainMap::Volta,
            GpuEra::AmdRdna => ArchDomainMap::Rdna,
        },
{
    match era {
        GpuEra::NvidiaKepler => ArchDomainMap::Kepler,
        GpuEra::NvidiaVolta | GpuEra::NvidiaModern => ArchDomainMap::Volta,
        GpuEra::AmdRdna => ArchDomainMap::Rdna,
        GpuEra::Unknown => ArchDomainMap::Kepler,
    }
}

/// The boot sequence of an era, with the same dispatch as the domain map.
pub fn boot_sequence_for_era(era: GpuEra) -> (r: ArchBootSequence)
    ensures
        r == match era {
            GpuEra::NvidiaKepler | GpuEra::Unknown => ArchBootSequence::Kepler,
            GpuEra::NvidiaVolta | GpuEra::NvidiaModern => ArchBootSequence::Volta,
            GpuEra::AmdRdna => ArchBootSequence::Rdna,
        },
{
    match era {
        GpuEra::NvidiaKepler => ArchBootSequence::Kepler,
        GpuEra::NvidiaVolta | GpuEra::NvidiaModern => ArchBootSequence::Volta,
        GpuEra::AmdRdna => ArchBootSequence::Rdna,
        GpuEra::Unknown => ArchBootSequence::Kepler,
    }
}

/// The replay hooks of one architecture.
#[derive(Debug)]
pub enum ArchHooks {
    Kepler(KeplerPllHooks),
    Volta(VoltaReplayHooks),
    NoHooks(NoHooks),
}

impl ReplayHooks for ArchHooks {
    open spec fn always_proceeds(&self) -> bool {
        true
    }

    open spec fn hook_effect(
        &self,
        domain: Seq<char>,
        priority: u32,
        a: Seq<BusEvent>,
        b: Seq<BusEvent>,
        r: Result<bool, MmioError>,
    ) -> bool {
        match *self {
            ArchHooks::Kepler(h) => h.hook_effect(domain, priority, a, b, r),
            ArchHooks::Volta(h) => h.hook_effect(domain, priority, a, b, r),
            ArchHooks::NoHooks(h) => h.hook_effect(domain, priority, a, b, r),
        }
    }

    fn on_domain_complete<B: RegisterBus>(&self, bar0: &mut Bar0<B>, domain: &str, priority: u32) -> (r:
        Result<bool, MmioError>)
        ensures
            match *self {
                ArchHooks::Kepler(h) => kepler_hook_trace(h, domain@, old(bar0).events(), final(bar0).events()),
                ArchHooks::Volta(h) => volta_hook_trace(h, domain@, old(bar0).events(), final(bar0).events()),
                ArchHooks::NoHooks(_) => final(bar0).events() == old(bar0).events(),
            },
    {
        match self {
            ArchHooks::Kepler(h) => h.on_domain_complete(bar0, domain, priority),
            ArchHooks::Volta(h) => h.on_domain_complete(bar0, domain, priority),
            ArchHooks::NoHooks(h) => h.on_domain_complete(bar0, domain, priority),
        }
    }
}

/// The replay hooks of an era.
pub open spec fn spec_hooks_for_era(era: GpuEra) -> ArchHooks {
    match era {
        GpuEra::NvidiaKepler => ArchHooks::Kepler(KeplerPllHooks { pll_settle_ms: 50, poll_timeout_ms: 500 }),
        GpuEra::NvidiaVolta | GpuEra::NvidiaModern => ArchHooks::Volta(VoltaReplayHooks { poll_timeout_ms: 500 }),
        GpuEra::AmdRdna | GpuEra::Unknown => ArchHooks::NoHooks(NoHooks),
    }
}

/// Replay hooks for an era: PLL lock polling for Kepler, PTIMER checks for
/// Volta and later NVIDIA GPUs, none for AMD and unknown GPUs.
pub fn replay_hooks_for_era(era: GpuEra) -> (r: ArchHooks)
    ensures
        r == spec_hooks_for_era(era),
        match era {
            GpuEra::NvidiaKepler => r matches ArchHooks::Kepler(h) && h.pll_settle_ms == 50
                && h.poll_timeout_ms == 500,
            GpuEra::NvidiaVolta | GpuEra::NvidiaModern => r matches ArchHooks::Volta(h)
                && h.poll_timeout_ms == 500,
            GpuEra::AmdRdna | GpuEra::Unknown => r is NoHooks,
        },
{
    match era {
        GpuEra::NvidiaKepler => ArchHooks::Kepler(KeplerPllHooks::default()),
        GpuEra::NvidiaVolta | GpuEra::NvidiaModern => ArchHooks::Volta(VoltaReplayHooks::default()),
        GpuEra::AmdRdna | GpuEra::Unknown => ArchHooks::NoHooks(NoHooks),
    }
}

// ── Sovereign boot ───────────────────────────────────────────────────────

/// Result of a sovereign boot attempt across any architecture.
#[derive(Debug)]
pub struct SovereignBootResult {
    /// GPU era that was booted.
    pub era: GpuEra,
    /// PMC_BOOT_0 chip identification.
    pub boot0: u32,
    /// Per-phase replay results, with the phase name.
    pub phase_results: Vec<(String, ReplayResult)>,
    /// Firmware snapshot after boot (NVIDIA only).
    pub firmware_snapshot: Option<FirmwareSnapshot>,
    /// The GPU appears alive after boot.
    pub alive: bool,
    /// Step-by-step log.
    pub log: Vec<String>,
}

fn push_bool(s: &mut String, b: bool)
    ensures
        final(s)@ == old(s)@ + (if b {
            "true"@
        } else {
            "false"@
        }),
{
    if b {
        s.append("true");
    } else {
        s.append("false");
    }
}

fn phase_header(name: &str, count: usize, lo: u32, hi: u32) -> (r: String)
    ensures
        r@ == "phase '"@ + name@ + "': "@ + spec_dec(count as nat) + " steps (priority "@ + spec_dec(
            lo as nat,
        ) + ".."@ + spec_dec(hi as nat) + ")"@,
{
    let mut s = String::from_str("phase '");
    s.append(name);
    s.append("': ");
    push_dec(&mut s, count as u64);
    s.append(" steps (priority ");
    push_dec(&mut s, lo as u64);
    s.append("..");
    push_dec(&mut s, hi as u64);
    s.append(")");
    s
}

/// Each phase result comes from a phase of the sequence, in the
/// sequence's order, under the phase's name, and replayed every recipe
/// step in the phase's priority window (there was at least one).
pub open spec fn phases_replayed(
    results: Seq<(String, ReplayResult)>,
    phases: Seq<BootPhase>,
    recipe: Seq<RecipeStep>,
) -> bool {
    exists|js: Seq<int>|
        #![trigger js.len()]
        js.len() == results.len() && (forall|k: int, l: int|
            0 <= k < l < js.len() ==> js[k] < js[l]) && forall|k: int|
            0 <= k < js.len() ==> 0 <= #[trigger] js[k] < phases.len() && results[k].0@
                == phases[js[k]].name@ && results[k].1.applied + results[k].1.failed == recipe.filter(
                |st: RecipeStep| phases[js[k]].holds(st),
            ).len() && recipe.filter(|st: RecipeStep| phases[js[k]].holds(st)).len() > 0
}

/// Each phase result comes with its replay in the trace `ev`: the recipe
/// steps of the phase, replayed with the hooks `h` between events `ps[k].0`
/// and `ps[k].1`, the replays in order.
pub open spec fn phases_traced(
    results: Seq<(String, ReplayResult)>,
    phases: Seq<BootPhase>,
    recipe: Seq<RecipeStep>,
    h: ArchHooks,
    ev: Seq<BusEvent>,
    from: int,
) -> bool {
    exists|js: Seq<int>, ps: Seq<(int, int)>|
        #![trigger js.len(), ps.len()]
        js.len() == results.len() && ps.len() == results.len() && (forall|k: int, l: int|
            0 <= k < l < ps.len() ==> #[trigger] ps[k].1 <= #[trigger] ps[l].0) && forall|k: int|
            0 <= k < js.len() ==> 0 <= #[trigger] js[k] < phases.len() && results[k].0@
                == phases[js[k]].name@ && from <= ps[k].0 && replay_ran(
                h,
                recipe.filter(|st: RecipeStep| phases[js[k]].holds(st)),
                ev,
                ps[k].0,
                ps[k].1,
            )
}

/// Boot a GPU with the architecture's boot sequence and replay hooks.
///
/// Reads PMC_BOOT_0 (all ones when the read fails) and takes the era from
/// it unless one is given. For NVIDIA GPUs a firmware snapshot is taken
/// before and after. PTIMER is polled (100 ms); an optional clock phase is
/// skipped while it ticks. Each phase replays the recipe steps whose
/// priority lies in its window; phases with no steps are passed over. The
/// GPU is alive when the last replayed phase left it alive.
#[verifier::spinoff_prover]
#[verifier::rlimit(60)]
pub fn sovereign_boot<B: RegisterBus>(
    bar0: &mut Bar0<B>,
    full_recipe: &Vec<RecipeStep>,
    era_override: Option<GpuEra>,
    timestamp_ms: u64,
) -> (r: Result<SovereignBootResult, MmioError>)
    ensures
        old(bar0).events().is_prefix_of(final(bar0).events()),
        old(bar0).events().len() < final(bar0).events().len(),
        final(bar0).events()[old(bar0).events().len() as int] is Read,
        final(bar0).events()[old(bar0).events().len() as int]->Read_reg == crate::replay::PMC_BOOT_0,
        r matches Ok(res) && res.boot0 == read_value(
            final(bar0).events()[old(bar0).events().len() as int],
            0xFFFF_FFFF,
        ) && res.era == match era_override {
            Some(e) => e,
            None => spec_era_of_chip((res.boot0 >> 20u32) & 0x1FFu32),
        } && (res.firmware_snapshot is Some <==> res.era != GpuEra::AmdRdna) && res.phase_results@.len()
            <= spec_arch_phases(
            match res.era {
                GpuEra::NvidiaKepler | GpuEra::Unknown => ArchBootSequence::Kepler,
                GpuEra::NvidiaVolta | GpuEra::NvidiaModern => ArchBootSequence::Volta,
                GpuEra::AmdRdna => ArchBootSequence::Rdna,
            },
        ).len() && (res.phase_results@.len() == 0 ==> !res.alive) && (res.phase_results@.len() > 0
            ==> res.alive == res.phase_results@.last().1.is_alive_spec()) && phases_replayed(
            res.phase_results@,
            spec_arch_phases(
                match res.era {
                    GpuEra::NvidiaKepler | GpuEra::Unknown => ArchBootSequence::Kepler,
                    GpuEra::NvidiaVolta | GpuEra::NvidiaModern => ArchBootSequence::Volta,
                    GpuEra::AmdRdna => ArchBootSequence::Rdna,
                },
            ),
            full_recipe@,
        ) && phases_traced(
            res.phase_results@,
            spec_arch_phases(
                match res.era {
                    GpuEra::NvidiaKepler | GpuEra::Unknown => ArchBootSequence::Kepler,
                    GpuEra::NvidiaVolta | GpuEra::NvidiaModern => ArchBootSequence::Volta,
                    GpuEra::AmdRdna => ArchBootSequence::Rdna,
                },
            ),
            full_recipe@,
            spec_hooks_for_era(res.era),
            final(bar0).events(),
            old(bar0).events().len() as int,
        ),
{
    let ghost e0 = bar0.events();
    let boot0 = match bar0.read(crate::replay::PMC_BOOT_0) {
        Ok(v) => v,
        Err(_) => 0xFFFF_FFFF,
    };
    let ghost e1 = bar0.events();
    proof {
        crate::bus::lemma_prefix_push(e0, e1.last());
        assert(e1 == e0.push(e1.last()));
    }
    let era = match era_override {
        Some(e) => e,
        None => GpuEra::from_boot0(boot0),
    };
    let seq = boot_sequence_for_era(era);
    let hooks = replay_hooks_for_era(era);
    let mut log: Vec<String> = Vec::new();
    let mut line = String::from_str("sovereign boot: ");
    line.append(era.to_string().as_str());
    line.append(" (BOOT0=");
    push_hex8(&mut line, boot0);
    line.append(") - ");
    line.append(seq.description());
    log.push(line);
    let mut line2 = String::from_str("recipe: ");
    push_dec(&mut line2, full_recipe.len() as u64);
    line2.append(" steps");
    log.push(line2);
    let is_amd = era == GpuEra::AmdRdna;
    let pre_snap = if !is_amd {
        let snap = capture_firmware_snapshot(bar0, "sovereign-pre-boot", timestamp_ms);
        let mut l = String::from_str("pre-boot: BOOT0=");
        push_hex8(&mut l, snap.boot0);
        l.append(" arch=");
        l.append(snap.architecture.as_str());
        log.push(l);
        Some(snap)
    } else {
        None
    };
    let ghost e2 = bar0.events();
    proof {
        if is_amd {
            crate::bus::lemma_prefix_refl(e1);
        }
        crate::bus::lemma_prefix_trans(e0, e1, e2);
    }
    let ptimer_pre = poll_ptimer_ticking(bar0, 100);
    let mut l3 = String::from_str("pre-boot PTIMER: ticking=");
    push_bool(&mut l3, ptimer_pre);
    log.push(l3);
    let ghost e3 = bar0.events();
    proof {
        crate::bus::lemma_prefix_trans(e0, e2, e3);
    }
    let phases = seq.phases();
    let mut phase_results: Vec<(String, ReplayResult)> = Vec::new();
    let mut alive = false;
    let mut i: usize = 0;
    let ghost mut js: Seq<int> = Seq::empty();
    let ghost mut ps: Seq<(int, int)> = Seq::empty();
    while i < phases.len()
        invariant
            e0.is_prefix_of(bar0.events()),
            hooks == spec_hooks_for_era(era),
            ps.len() == js.len(),
            forall|k: int, l: int| 0 <= k < l < ps.len() ==> #[trigger] ps[k].1 <= #[trigger] ps[l].0,
            forall|k: int| 0 <= k < ps.len() ==> e0.len() <= #[trigger] ps[k].0 && ps[k].1 <= bar0.events().len(),
            forall|k: int|
                0 <= k < js.len() ==> replay_ran(
                    hooks,
                    full_recipe@.filter(|st: RecipeStep| phases@[#[trigger] js[k]].holds(st)),
                    bar0.events(),
                    ps[k].0,
                    ps[k].1,
                ),
            e1.is_prefix_of(bar0.events()),
            i <= phases@.len(),
            phase_results@.len() <= i,
            phase_results@.len() == 0 ==> !alive,
            phase_results@.len() > 0 ==> alive == phase_results@.last().1.is_alive_spec(),
            hooks.always_proceeds(),
            js.len() == phase_results@.len(),
            forall|k: int, l: int| 0 <= k < l < js.len() ==> js[k] < js[l],
            forall|k: int|
                0 <= k < js.len() ==> 0 <= #[trigger] js[k] < i && phase_results@[k].0@
                    == phases@[js[k]].name@ && phase_results@[k].1.applied + phase_results@[k].1.failed
                    == full_recipe@.filter(|st: RecipeStep| phases@[js[k]].holds(st)).len()
                    && full_recipe@.filter(|st: RecipeStep| phases@[js[k]].holds(st)).len() > 0,
        decreases phases.len() - i,
    {
        let phase = phases[i];
        proof {
            reveal_strlit("clock");
        }
        if str_eq(phase.name, "clock") && !phase.required && ptimer_pre {
            let mut l = String::from_str("phase '");
            l.append(phase.name);
            l.append("': skipped (PTIMER already ticking)");
            log.push(l);
        } else {
            let steps = phase.select_steps(full_recipe.as_slice());
            if steps.len() == 0 {
                log.push(phase_header(phase.name, 0, phase.priority_min, phase.priority_max));
            } else {
                log.push(phase_header(phase.name, steps.len(), phase.priority_min, phase.priority_max));
                let ghost f0 = bar0.events();
                let result = match apply_recipe_phased(bar0, steps.as_slice(), &hooks) {
                    Ok(res) => res,
                    Err(e) => {
                        return Err(e);
                    },
                };
                proof {
                    crate::bus::lemma_prefix_trans(e0, f0, bar0.events());
                    crate::bus::lemma_prefix_trans(e1, f0, bar0.events());
                    let g = bar0.events();
                    assert forall|k: int| 0 <= k < js.len() implies replay_ran(
                        hooks,
                        full_recipe@.filter(|st: RecipeStep| phases@[#[trigger] js[k]].holds(st)),
                        g,
                        ps[k].0,
                        ps[k].1,
                    ) by {
                        lemma_replay_ran_grows(
                            hooks,
                            full_recipe@.filter(|st: RecipeStep| phases@[js[k]].holds(st)),
                            f0,
                            g,
                            ps[k].0,
                            ps[k].1,
                        );
                    }
                    assert forall|k: int| 0 <= k < ps.len() implies #[trigger] ps[k].1 <= f0.len() by {
                        assert(e0.len() <= ps[k].0);
                    }
                    let ps0 = ps;
                    ps = ps.push((f0.len() as int, g.len() as int));
                    assert forall|k: int, l: int| 0 <= k < l < ps.len() implies #[trigger] ps[k].1
                        <= #[trigger] ps[l].0 by {
                        if l < ps0.len() {
                            assert(ps[k] == ps0[k] && ps[l] == ps0[l]);
                        } else {
                            assert(ps[k] == ps0[k]);
                            assert(ps0[k].1 <= f0.len());
                        }
                    }
                }
                let mut l = String::from_str("phase '");
                l.append(phase.name);
                l.append("': applied=");
                push_dec(&mut l, result.applied as u64);
                l.append(" failed=");
                push_dec(&mut l, result.failed as u64);
                l.append(" ptimer=");
                push_bool(&mut l, result.ptimer_ticking);
                log.push(l);
                alive = result.is_alive();
                let ghost pr0 = phase_results@;
                phase_results.push((String::from_str(phase.name), result));
                proof {
                    assert forall|k: int| 0 <= k < js.len() implies phase_results@[k] == pr0[k] by {}
                    js = js.push(i as int);
                }
            }
        }
        i = i + 1;
    }
    let ghost e4 = bar0.events();
    let post_snap = if !is_amd {
        let snap = capture_firmware_snapshot(bar0, "sovereign-post-boot", timestamp_ms);
        match &pre_snap {
            Some(pre) => {
                let diffs = diff_snapshots(pre, &snap);
                let mut l = String::from_str("firmware diff: ");
                push_dec(&mut l, diffs.len() as u64);
                l.append(" registers changed");
                log.push(l);
            },
            None => {},
        }
        Some(snap)
    } else {
        None
    };
    proof {
        if is_amd {
            crate::bus::lemma_prefix_refl(e4);
        }
        crate::bus::lemma_prefix_trans(e0, e4, bar0.events());
        crate::bus::lemma_prefix_trans(e1, e4, bar0.events());
        assert(bar0.events()[e0.len() as int] == e1[e0.len() as int]);
    }
    proof {
        let g = bar0.events();
        assert forall|k: int| 0 <= k < js.len() implies replay_ran(
            hooks,
            full_recipe@.filter(|st: RecipeStep| phases@[#[trigger] js[k]].holds(st)),
            g,
            ps[k].0,
            ps[k].1,
        ) by {
            lemma_replay_ran_grows(
                hooks,
                full_recipe@.filter(|st: RecipeStep| phases@[js[k]].holds(st)),
                e4,
                g,
                ps[k].0,
                ps[k].1,
            );
        }
        assert(ps.len() == ps.len());
        assert(phases_traced(phase_results@, phases@, full_recipe@, hooks, g, e0.len() as int));
        assert(phases_replayed(phase_results@, phases@, full_recipe@)) by {
            assert(js.len() == js.len());
        }
    }
    Ok(SovereignBootResult { era, boot0, phase_results, firmware_snapshot: post_snap, alive, log })
}

} // verus!
