//! Firmware state capture for NVIDIA GPUs.
//!
//! A [`FirmwareSnapshot`] holds the observable state of every falcon engine
//! (FECS, GPCCS, PMU, SEC2), GPU-wide power and scheduling registers, and
//! clock status. Snapshots taken at different points of a GPU's lifecycle
//! are diffed to find the registers that an operation changed.
use vstd::prelude::*;

use crate::bus::{Bar0, BusEvent, RegisterBus};
use crate::pmu::read_value;
use crate::text::{hex8, push_hex8, push_hex_n, push_hex_upper, spec_hex8, spec_hex_upper, hex_digits};

verus! {

/// Complete firmware state snapshot for one GPU.
#[derive(Debug, Clone)]
pub struct FirmwareSnapshot {
    /// When this snapshot was taken (epoch milliseconds).
    pub timestamp_ms: u64,
    /// Human label for the snapshot context (e.g. "pre-swap").
    pub label: String,
    /// GPU identity from BOOT0 (offset 0x000000).
    pub boot0: u32,
    /// GPU architecture decoded from BOOT0 (e.g. "Volta (GV140)").
    pub architecture: String,
    /// FECS falcon at BAR0 + 0x409000.
    pub fecs: FalconSnapshot,
    /// GPCCS falcon at BAR0 + 0x41A000.
    pub gpccs: FalconSnapshot,
    /// PMU falcon at BAR0 + 0x10A000.
    pub pmu: FalconSnapshot,
    /// SEC2 falcon at BAR0 + 0x087000.
    pub sec2: FalconSnapshot,
    /// GPU-wide power state (PMC, PTIMER).
    pub power: PowerSnapshot,
    /// PFIFO scheduler and PBDMA state.
    pub pfifo_state: PfifoSnapshot,
    /// GR (graphics/compute) engine state.
    pub gr: GrSnapshot,
    /// Clock/PLL domain status.
    pub clocks: ClockSnapshot,
}

/// State of a single falcon microcontroller.
#[derive(Debug, Clone)]
pub struct FalconSnapshot {
    /// Engine name (e.g. "FECS", "GPCCS", "PMU", "SEC2").
    pub name: String,
    /// BAR0 base address of this falcon.
    pub base: u32,
    /// CPUCTL: run/halt/reset state.
    pub cpuctl: u32,
    /// CPUCTL bit 5 (STOPPED).
    pub stopped: bool,
    /// CPUCTL bit 4 (HALTED).
    pub halted: bool,
    /// SCTL: bits 12-13 encode the security mode.
    pub sctl: u32,
    /// Decoded security mode.
    pub security_mode: String,
    /// Program counter.
    pub pc: u32,
    /// Exception info: `[31:16]` cause, `[15:0]` PC at the exception.
    pub exci: u32,
    /// Boot vector.
    pub bootvec: u32,
    /// Hardware config: IMEM and DMEM sizes.
    pub hwcfg: u32,
    /// IMEM capacity in bytes (HWCFG `[8:0]` × 256).
    pub imem_size_bytes: u32,
    /// DMEM capacity in bytes (HWCFG `[17:9]` × 256).
    pub dmem_size_bytes: u32,
    /// MAILBOX0.
    pub mailbox0: u32,
    /// MAILBOX1.
    pub mailbox1: u32,
    /// IRQSTAT: pending interrupts.
    pub irqstat: u32,
    /// IRQMODE: interrupt routing.
    pub irqmode: u32,
    /// FBIF_TRANSCFG: DMA aperture mode.
    pub fbif_transcfg: u32,
    /// DMACTL.
    pub dmactl: u32,
    /// ITFEN: interface enable.
    pub itfen: u32,
    /// MTHD_DATA (base + 0x500).
    pub mthd_data: u32,
    /// MTHD_STATUS (base + 0x800).
    pub mthd_status: u32,
    /// Eight IMEM words read by PIO through IMEMD, from wherever the IMEM
    /// port points (the capture does not move it).
    pub imem_fingerprint: Vec<u32>,
    /// The falcon answered (no PRI timeout, 0xDEADDEAD or all ones).
    pub reachable: bool,
}

/// GPU-wide power state from PMC and PTIMER.
#[derive(Debug, Clone, Copy, PartialEq, Eq)]
pub struct PowerSnapshot {
    pub pmc_enable: u32,
    pub pmc_intr: u32,
    pub ptimer_low: u32,
    pub ptimer_high: u32,
    pub ptimer_ticking: bool,
}

/// PFIFO scheduler and PBDMA state.
#[derive(Debug, Clone, Copy, PartialEq, Eq)]
pub struct PfifoSnapshot {
    pub enable: u32,
    pub intr: u32,
    pub intr_en: u32,
    pub sched_en: u32,
    pub sched_disable: u32,
    pub pbdma_map: u32,
    pub pbdma_count: u32,
    pub channel0_inst: u32,
    pub channel0_state: u32,
}

/// GR (graphics/compute) engine state.
#[derive(Debug, Clone, Copy, PartialEq, Eq)]
pub struct GrSnapshot {
    pub gr_enable: u32,
    pub gr_intr: u32,
    pub gr_intr_en: u32,
    pub gr_status: u32,
    pub fecs_exception_reg: u32,
}

/// Clock/PLL domain status.
#[derive(Debug, Clone, Copy, PartialEq, Eq)]
pub struct ClockSnapshot {
    pub ppll_0: u32,
    pub ppll_1: u32,
    pub pbus_bar1_block: u32,
    pub ptimer_cfg: u32,
}

pub const PRI_TIMEOUT: u32 = 0xBADF_1201;

pub const DEAD_DEAD: u32 = 0xDEAD_DEAD;

/// A value that means the register did not answer.
pub open spec fn spec_unreachable(val: u32) -> bool {
    val == PRI_TIMEOUT || val == DEAD_DEAD || val == 0xFFFF_FFFF
}

/// The value means the register did not answer: PRI timeout, read
/// failure, or all ones.
pub fn is_unreachable(val: u32) -> (r: bool)
    ensures
        r == spec_unreachable(val),
{
    val == PRI_TIMEOUT || val == DEAD_DEAD || val == 0xFFFF_FFFF
}

/// The chip field of BOOT0.
pub open spec fn boot0_chip(boot0: u32) -> u32 {
    (boot0 >> 20u32) & 0x1FFu32
}

/// Family name and chip prefix of a chip id, if it is a known family.
pub open spec fn chip_family(chip: u32) -> Option<(Seq<char>, Seq<char>)> {
    if 0x0E0 <= chip <= 0x0EF {
        Some(("Kepler"@, "GK"@))
    } else if 0x100 <= chip <= 0x10F {
        Some(("Maxwell"@, "GM"@))
    } else if 0x120 <= chip <= 0x13F {
        Some(("Pascal"@, "GP"@))
    } else if 0x140 <= chip <= 0x14F {
        Some(("Volta"@, "GV"@))
    } else if 0x160 <= chip <= 0x16F {
        Some(("Turing"@, "TU"@))
    } else if 0x170 <= chip <= 0x17F {
        Some(("Ampere"@, "GA"@))
    } else if 0x190 <= chip <= 0x19F {
        Some(("Ada"@, "AD"@))
    } else if 0x1B0 <= chip <= 0x1BF {
        Some(("Blackwell"@, "GB"@))
    } else {
        None
    }
}

/// The architecture name of a BOOT0 value: "Family (PREFIXchip)" with the
/// chip in upper-case hex, or "Unknown (chip=0x…)" with three lower-case
/// hex digits.
pub open spec fn spec_architecture(boot0: u32) -> Seq<char> {
    let chip = boot0_chip(boot0);
    match chip_family(chip) {
        Some((family, prefix)) => family + " ("@ + prefix + spec_hex_upper(chip as nat) + ")"@,
        None => "Unknown (chip=0x"@ + hex_digits(chip as nat, 3) + ")"@,
    }
}

/// The families by chip id (BOOT0 bits 20..28): Kepler GK 0x0E0..=0x0EF,
/// Maxwell GM 0x100..=0x10F, Pascal GP 0x120..=0x13F, Volta GV
/// 0x140..=0x14F, Turing TU 0x160..=0x16F, Ampere GA 0x170..=0x17F, Ada AD
/// 0x190..=0x19F, Blackwell GB 0x1B0..=0x1BF; every other chip id is
/// named "Unknown" with its three hex digits.
pub proof fn lemma_architecture_by_chip_range(boot0: u32)
    ensures
        ({
            let chip = (boot0 >> 20u32) & 0x1FFu32;
            let name = spec_architecture(boot0);
            let tail = spec_hex_upper(chip as nat) + ")"@;
            &&& 0x0E0 <= chip <= 0x0EF ==> name == "Kepler"@ + " ("@ + "GK"@ + tail
            &&& 0x100 <= chip <= 0x10F ==> name == "Maxwell"@ + " ("@ + "GM"@ + tail
            &&& 0x120 <= chip <= 0x13F ==> name == "Pascal"@ + " ("@ + "GP"@ + tail
            &&& 0x140 <= chip <= 0x14F ==> name == "Volta"@ + " ("@ + "GV"@ + tail
            &&& 0x160 <= chip <= 0x16F ==> name == "Turing"@ + " ("@ + "TU"@ + tail
            &&& 0x170 <= chip <= 0x17F ==> name == "Ampere"@ + " ("@ + "GA"@ + tail
            &&& 0x190 <= chip <= 0x19F ==> name == "Ada"@ + " ("@ + "AD"@ + tail
            &&& 0x1B0 <= chip <= 0x1BF ==> name == "Blackwell"@ + " ("@ + "GB"@ + tail
            &&& (chip < 0x0E0 || 0x0F0 <= chip < 0x100 || 0x110 <= chip < 0x120 || 0x150 <= chip < 0x160
                || 0x180 <= chip < 0x190 || 0x1A0 <= chip < 0x1B0 || 0x1C0 <= chip) ==> name
                == "Unknown (chip=0x"@ + hex_digits(chip as nat, 3) + ")"@
        }),
{
}

/// Decode the GPU architecture name from a BOOT0 register value.
pub fn decode_architecture(boot0: u32) -> (r: String)
    ensures
        r@ == spec_architecture(boot0),
{
    let chip = (boot0 >> 20) & 0x1FF;
    let known = (chip >= 0x0E0 && chip <= 0x0EF) || (chip >= 0x100 && chip <= 0x10F) || (chip >= 0x120
        && chip <= 0x13F) || (chip >= 0x140 && chip <= 0x14F) || (chip >= 0x160 && chip <= 0x16F) || (chip
        >= 0x170 && chip <= 0x17F) || (chip >= 0x190 && chip <= 0x19F) || (chip >= 0x1B0 && chip <= 0x1BF);
    let (family, prefix): (&str, &str) = if chip >= 0x0E0 && chip <= 0x0EF {
        ("Kepler", "GK")
    } else if chip >= 0x100 && chip <= 0x10F {
        ("Maxwell", "GM")
    } else if chip >= 0x120 && chip <= 0x13F {
        ("Pascal", "GP")
    } else if chip >= 0x140 && chip <= 0x14F {
        ("Volta", "GV")
    } else if chip >= 0x160 && chip <= 0x16F {
        ("Turing", "TU")
    } else if chip >= 0x170 && chip <= 0x17F {
        ("Ampere", "GA")
    } else if chip >= 0x190 && chip <= 0x19F {
        ("Ada", "AD")
    } else if chip >= 0x1B0 && chip <= 0x1BF {
        ("Blackwell", "GB")
    } else {
        ("", "")
    };
    proof {
        reveal_strlit("Kepler");
        reveal_strlit("Maxwell");
        reveal_strlit("Pascal");
        reveal_strlit("Volta");
        reveal_strlit("Turing");
        reveal_strlit("Ampere");
        reveal_strlit("Ada");
        reveal_strlit("Blackwell");
        reveal_strlit("");
    }
    if !known {
        let mut s = String::from_str("Unknown (chip=0x");
        push_hex_n(&mut s, chip as u64, 3);
        s.append(")");
        return s;
    }
    let mut s = String::from_str(family);
    s.append(" (");
    s.append(prefix);
    push_hex_upper(&mut s, chip as u64);
    s.append(")");
    s
}

/// The security mode named by SCTL bits 12-13.
pub open spec fn spec_security(sctl: u32) -> &'static str {
    let m = (sctl >> 12u32) & 3u32;
    if m == 0 {
        "NS (no security)"
    } else if m == 1 {
        "LS (light security)"
    } else if m == 2 {
        "HS (high security)"
    } else {
        "HS+ (locked)"
    }
}

/// Decode the falcon security mode from an SCTL register value.
pub fn decode_security(sctl: u32) -> (r: String)
    ensures
        r@ == spec_security(sctl)@,
{
    let m = (sctl >> 12) & 3;
    let s = if m == 0 {
        "NS (no security)"
    } else if m == 1 {
        "LS (light security)"
    } else if m == 2 {
        "HS (high security)"
    } else {
        "HS+ (locked)"
    };
    String::from_str(s)
}

/// A diff entry as plain values: (path, old, new).
pub open spec fn entries_view(d: Seq<(String, String, String)>) -> Seq<(Seq<char>, Seq<char>, Seq<char>)> {
    d.map_values(|t: (String, String, String)| (t.0@, t.1@, t.2@))
}

/// The diff entry for one register: none when the values agree.
pub open spec fn cmp_entry(path: Seq<char>, a: u32, b: u32) -> Seq<(Seq<char>, Seq<char>, Seq<char>)> {
    if a != b {
        seq![(path, spec_hex8(a), spec_hex8(b))]
    } else {
        Seq::empty()
    }
}

/// The diff entries of one falcon, named after the `before` engine.
pub open spec fn falcon_diff(bf: FalconSnapshot, af: FalconSnapshot) -> Seq<(Seq<char>, Seq<char>, Seq<char>)> {
    let n = bf.name@;
    cmp_entry(n + ".cpuctl"@, bf.cpuctl, af.cpuctl) + cmp_entry(n + ".sctl"@, bf.sctl, af.sctl)
        + cmp_entry(n + ".pc"@, bf.pc, af.pc) + cmp_entry(n + ".exci"@, bf.exci, af.exci) + cmp_entry(
        n + ".mailbox0"@,
        bf.mailbox0,
        af.mailbox0,
    ) + cmp_entry(n + ".mailbox1"@, bf.mailbox1, af.mailbox1) + cmp_entry(
        n + ".mthd_status"@,
        bf.mthd_status,
        af.mthd_status,
    ) + cmp_entry(n + ".irqstat"@, bf.irqstat, af.irqstat) + cmp_entry(
        n + ".fbif_transcfg"@,
        bf.fbif_transcfg,
        af.fbif_transcfg,
    )
}

/// Every register that changed between two snapshots, as (path, old,
/// new) with the values as `0x` and eight hex digits.
pub open spec fn spec_snapshot_diff(b: FirmwareSnapshot, a: FirmwareSnapshot) -> Seq<
    (Seq<char>, Seq<char>, Seq<char>),
> {
    cmp_entry("boot0"@, b.boot0, a.boot0) + cmp_entry(
        "power.pmc_enable"@,
        b.power.pmc_enable,
        a.power.pmc_enable,
    ) + falcon_diff(b.fecs, a.fecs) + falcon_diff(b.gpccs, a.gpccs) + falcon_diff(b.pmu, a.pmu)
        + falcon_diff(b.sec2, a.sec2) + cmp_entry(
        "pfifo.enable"@,
        b.pfifo_state.enable,
        a.pfifo_state.enable,
    ) + cmp_entry("pfifo.sched_en"@, b.pfifo_state.sched_en, a.pfifo_state.sched_en) + cmp_entry(
        "gr.gr_enable"@,
        b.gr.gr_enable,
        a.gr.gr_enable,
    ) + cmp_entry("gr.gr_status"@, b.gr.gr_status, a.gr.gr_status)
}

/// A snapshot compared with itself shows no difference.
pub proof fn lemma_diff_of_identical_is_empty(s: FirmwareSnapshot)
    ensures
        spec_snapshot_diff(s, s) == Seq::<(Seq<char>, Seq<char>, Seq<char>)>::empty(),
{
    assert(falcon_diff(s.fecs, s.fecs) =~= Seq::empty());
    assert(falcon_diff(s.gpccs, s.gpccs) =~= Seq::empty());
    assert(falcon_diff(s.pmu, s.pmu) =~= Seq::empty());
    assert(falcon_diff(s.sec2, s.sec2) =~= Seq::empty());
    assert(spec_snapshot_diff(s, s) =~= Seq::empty());
}

/// Diff entries with their old and new values exchanged.
pub open spec fn swap_sides(s: Seq<(Seq<char>, Seq<char>, Seq<char>)>) -> Seq<(Seq<char>, Seq<char>, Seq<char>)> {
    s.map_values(|e: (Seq<char>, Seq<char>, Seq<char>)| (e.0, e.2, e.1))
}

broadcast proof fn lemma_swap_concat(x: Seq<(Seq<char>, Seq<char>, Seq<char>)>, y: Seq<(Seq<char>, Seq<char>, Seq<char>)>)
    ensures
        #[trigger] swap_sides(x + y) == swap_sides(x) + swap_sides(y),
{
    assert(swap_sides(x + y) =~= swap_sides(x) + swap_sides(y));
}

broadcast proof fn lemma_swap_cmp(p: Seq<char>, x: u32, y: u32)
    ensures
        #[trigger] swap_sides(cmp_entry(p, x, y)) == cmp_entry(p, y, x),
{
    assert(swap_sides(cmp_entry(p, x, y)) =~= cmp_entry(p, y, x));
}

/// Comparing two snapshots the other way round gives the same changes, in
/// the same order, with old and new values exchanged (the falcons being
/// named alike in both).
pub proof fn lemma_diff_symmetric(b: FirmwareSnapshot, a: FirmwareSnapshot)
    requires
        b.fecs.name@ == a.fecs.name@,
        b.gpccs.name@ == a.gpccs.name@,
        b.pmu.name@ == a.pmu.name@,
        b.sec2.name@ == a.sec2.name@,
    ensures
        spec_snapshot_diff(a, b) == swap_sides(spec_snapshot_diff(b, a)),
{
    broadcast use lemma_swap_concat, lemma_swap_cmp;

    assert(swap_sides(falcon_diff(b.fecs, a.fecs)) == falcon_diff(a.fecs, b.fecs));
    assert(swap_sides(falcon_diff(b.gpccs, a.gpccs)) == falcon_diff(a.gpccs, b.gpccs));
    assert(swap_sides(falcon_diff(b.pmu, a.pmu)) == falcon_diff(a.pmu, b.pmu));
    assert(swap_sides(falcon_diff(b.sec2, a.sec2)) == falcon_diff(a.sec2, b.sec2));
}

/// Every entry shows a real change: its old and new renderings differ.
pub open spec fn all_changed(s: Seq<(Seq<char>, Seq<char>, Seq<char>)>) -> bool {
    forall|i: int| 0 <= i < s.len() ==> (#[trigger] s[i]).1 != s[i].2
}

proof fn lemma_all_changed_concat(x: Seq<(Seq<char>, Seq<char>, Seq<char>)>, y: Seq<(Seq<char>, Seq<char>, Seq<char>)>)
    requires
        all_changed(x),
        all_changed(y),
    ensures
        all_changed(x + y),
{
    assert forall|i: int| 0 <= i < (x + y).len() implies (#[trigger] (x + y)[i]).1 != (x + y)[i].2 by {
        if i >= x.len() {
            assert((x + y)[i] == y[i - x.len()]);
        }
    }
}

proof fn lemma_cmp_entry_changed(p: Seq<char>, a: u32, b: u32)
    ensures
        all_changed(cmp_entry(p, a, b)),
        cmp_entry(p, a, b).len() <= 1,
{
    if a != b {
        crate::text::lemma_hex8_injective(a, b);
    }
}

proof fn lemma_falcon_diff_changed(bf: FalconSnapshot, af: FalconSnapshot)
    ensures
        all_changed(falcon_diff(bf, af)),
        falcon_diff(bf, af).len() <= 9,
{
    let n = bf.name@;
    let e0 = cmp_entry(n + ".cpuctl"@, bf.cpuctl, af.cpuctl);
    let e1 = cmp_entry(n + ".sctl"@, bf.sctl, af.sctl);
    let e2 = cmp_entry(n + ".pc"@, bf.pc, af.pc);
    let e3 = cmp_entry(n + ".exci"@, bf.exci, af.exci);
    let e4 = cmp_entry(n + ".mailbox0"@, bf.mailbox0, af.mailbox0);
    let e5 = cmp_entry(n + ".mailbox1"@, bf.mailbox1, af.mailbox1);
    let e6 = cmp_entry(n + ".mthd_status"@, bf.mthd_status, af.mthd_status);
    let e7 = cmp_entry(n + ".irqstat"@, bf.irqstat, af.irqstat);
    let e8 = cmp_entry(n + ".fbif_transcfg"@, bf.fbif_transcfg, af.fbif_transcfg);
    lemma_cmp_entry_changed(n + ".cpuctl"@, bf.cpuctl, af.cpuctl);
    lemma_cmp_entry_changed(n + ".sctl"@, bf.sctl, af.sctl);
    lemma_cmp_entry_changed(n + ".pc"@, bf.pc, af.pc);
    lemma_cmp_entry_changed(n + ".exci"@, bf.exci, af.exci);
    lemma_cmp_entry_changed(n + ".mailbox0"@, bf.mailbox0, af.mailbox0);
    lemma_cmp_entry_changed(n + ".mailbox1"@, bf.mailbox1, af.mailbox1);
    lemma_cmp_entry_changed(n + ".mthd_status"@, bf.mthd_status, af.mthd_status);
    lemma_cmp_entry_changed(n + ".irqstat"@, bf.irqstat, af.irqstat);
    lemma_cmp_entry_changed(n + ".fbif_transcfg"@, bf.fbif_transcfg, af.fbif_transcfg);
    lemma_all_changed_concat(e0, e1);
    lemma_all_changed_concat(e0 + e1, e2);
    lemma_all_changed_concat(e0 + e1 + e2, e3);
    lemma_all_changed_concat(e0 + e1 + e2 + e3, e4);
    lemma_all_changed_concat(e0 + e1 + e2 + e3 + e4, e5);
    lemma_all_changed_concat(e0 + e1 + e2 + e3 + e4 + e5, e6);
    lemma_all_changed_concat(e0 + e1 + e2 + e3 + e4 + e5 + e6, e7);
    lemma_all_changed_concat(e0 + e1 + e2 + e3 + e4 + e5 + e6 + e7, e8);
}

/// Every entry of a snapshot diff shows a change (its old and new values
/// differ), and a diff has at most 42 entries: BOOT0, PMC_ENABLE, nine
/// fields for each of the four falcons, and four PFIFO and GR fields.
pub proof fn lemma_diff_entries_changed(b: FirmwareSnapshot, a: FirmwareSnapshot)
    ensures
        all_changed(spec_snapshot_diff(b, a)),
        spec_snapshot_diff(b, a).len() <= 42,
{
    let c0 = cmp_entry("boot0"@, b.boot0, a.boot0);
    let c1 = cmp_entry("power.pmc_enable"@, b.power.pmc_enable, a.power.pmc_enable);
    let f0 = falcon_diff(b.fecs, a.fecs);
    let f1 = falcon_diff(b.gpccs, a.gpccs);
    let f2 = falcon_diff(b.pmu, a.pmu);
    let f3 = falcon_diff(b.sec2, a.sec2);
    let c2 = cmp_entry("pfifo.enable"@, b.pfifo_state.enable, a.pfifo_state.enable);
    let c3 = cmp_entry("pfifo.sched_en"@, b.pfifo_state.sched_en, a.pfifo_state.sched_en);
    let c4 = cmp_entry("gr.gr_enable"@, b.gr.gr_enable, a.gr.gr_enable);
    let c5 = cmp_entry("gr.gr_status"@, b.gr.gr_status, a.gr.gr_status);
    lemma_cmp_entry_changed("boot0"@, b.boot0, a.boot0);
    lemma_cmp_entry_changed("power.pmc_enable"@, b.power.pmc_enable, a.power.pmc_enable);
    lemma_cmp_entry_changed("pfifo.enable"@, b.pfifo_state.enable, a.pfifo_state.enable);
    lemma_cmp_entry_changed("pfifo.sched_en"@, b.pfifo_state.sched_en, a.pfifo_state.sched_en);
    lemma_cmp_entry_changed("gr.gr_enable"@, b.gr.gr_enable, a.gr.gr_enable);
    lemma_cmp_entry_changed("gr.gr_status"@, b.gr.gr_status, a.gr.gr_status);
    lemma_falcon_diff_changed(b.fecs, a.fecs);
    lemma_falcon_diff_changed(b.gpccs, a.gpccs);
    lemma_falcon_diff_changed(b.pmu, a.pmu);
    lemma_falcon_diff_changed(b.sec2, a.sec2);
    lemma_all_changed_concat(c0, c1);
    lemma_all_changed_concat(c0 + c1, f0);
    lemma_all_changed_concat(c0 + c1 + f0, f1);
    lemma_all_changed_concat(c0 + c1 + f0 + f1, f2);
    lemma_all_changed_concat(c0 + c1 + f0 + f1 + f2, f3);
    lemma_all_changed_concat(c0 + c1 + f0 + f1 + f2 + f3, c2);
    lemma_all_changed_concat(c0 + c1 + f0 + f1 + f2 + f3 + c2, c3);
    lemma_all_changed_concat(c0 + c1 + f0 + f1 + f2 + f3 + c2 + c3, c4);
    lemma_all_changed_concat(c0 + c1 + f0 + f1 + f2 + f3 + c2 + c3 + c4, c5);
}

/// A change of PMC_ENABLE is always reported, first after a BOOT0 change,
/// with the old and new values.
pub proof fn lemma_diff_reports_pmc_enable(b: FirmwareSnapshot, a: FirmwareSnapshot)
    requires
        b.power.pmc_enable != a.power.pmc_enable,
    ensures
        spec_snapshot_diff(b, a).contains(
            ("power.pmc_enable"@, spec_hex8(b.power.pmc_enable), spec_hex8(a.power.pmc_enable)),
        ),
{
    let d = spec_snapshot_diff(b, a);
    let k: int = if b.boot0 != a.boot0 { 1 } else { 0 };
    assert(d[k] == ("power.pmc_enable"@, spec_hex8(b.power.pmc_enable), spec_hex8(a.power.pmc_enable)));
}

fn push_cmp(diffs: &mut Vec<(String, String, String)>, path: String, a: u32, b: u32)
    ensures
        entries_view(final(diffs)@) == entries_view(old(diffs)@) + cmp_entry(path@, a, b),
{
    if a != b {
        let ghost before = diffs@;
        diffs.push((path, hex8(a), hex8(b)));
        proof {
            assert(entries_view(diffs@) =~= entries_view(before) + cmp_entry(path@, a, b));
        }
    } else {
        proof {
            assert(entries_view(diffs@) =~= entries_view(diffs@) + cmp_entry(path@, a, b));
        }
    }
}

fn field_path(name: &String, field: &str) -> (r: String)
    ensures
        r@ == name@ + field@,
{
    let mut p = name.clone();
    p.append(field);
    p
}

#[verifier::spinoff_prover]
#[verifier::rlimit(40)]
fn push_falcon_diff(diffs: &mut Vec<(String, String, String)>, bf: &FalconSnapshot, af: &FalconSnapshot)
    ensures
        entries_view(final(diffs)@) == entries_view(old(diffs)@) + falcon_diff(*bf, *af),
{
    let ghost d0 = entries_view(diffs@);
    let n = &bf.name;
    push_cmp(diffs, field_path(n, ".cpuctl"), bf.cpuctl, af.cpuctl);
    push_cmp(diffs, field_path(n, ".sctl"), bf.sctl, af.sctl);
    push_cmp(diffs, field_path(n, ".pc"), bf.pc, af.pc);
    push_cmp(diffs, field_path(n, ".exci"), bf.exci, af.exci);
    push_cmp(diffs, field_path(n, ".mailbox0"), bf.mailbox0, af.mailbox0);
    push_cmp(diffs, field_path(n, ".mailbox1"), bf.mailbox1, af.mailbox1);
    push_cmp(diffs, field_path(n, ".mthd_status"), bf.mthd_status, af.mthd_status);
    push_cmp(diffs, field_path(n, ".irqstat"), bf.irqstat, af.irqstat);
    push_cmp(diffs, field_path(n, ".fbif_transcfg"), bf.fbif_transcfg, af.fbif_transcfg);
    proof {
        assert(entries_view(diffs@) =~= d0 + falcon_diff(*bf, *af));
    }
}

/// The registers that changed between two snapshots, as (path, old, new).
pub fn diff_snapshots(before: &FirmwareSnapshot, after: &FirmwareSnapshot) -> (r: Vec<(String, String, String)>)
    ensures
        entries_view(r@) == spec_snapshot_diff(*before, *after),
        r@.len() <= 42,
        forall|i: int| 0 <= i < r@.len() ==> (#[trigger] r@[i]).1@ != r@[i].2@,
{
    let mut diffs: Vec<(String, String, String)> = Vec::new();
    proof {
        assert(entries_view(diffs@) =~= Seq::<(Seq<char>, Seq<char>, Seq<char>)>::empty());
    }
    push_cmp(&mut diffs, String::from_str("boot0"), before.boot0, after.boot0);
    push_cmp(&mut diffs, String::from_str("power.pmc_enable"), before.power.pmc_enable, after.power.pmc_enable);
    push_falcon_diff(&mut diffs, &before.fecs, &after.fecs);
    push_falcon_diff(&mut diffs, &before.gpccs, &after.gpccs);
    push_falcon_diff(&mut diffs, &before.pmu, &after.pmu);
    push_falcon_diff(&mut diffs, &before.sec2, &after.sec2);
    push_cmp(&mut diffs, String::from_str("pfifo.enable"), before.pfifo_state.enable, after.pfifo_state.enable);
    push_cmp(
        &mut diffs,
        String::from_str("pfifo.sched_en"),
        before.pfifo_state.sched_en,
        after.pfifo_state.sched_en,
    );
    push_cmp(&mut diffs, String::from_str("gr.gr_enable"), before.gr.gr_enable, after.gr.gr_enable);
    push_cmp(&mut diffs, String::from_str("gr.gr_status"), before.gr.gr_status, after.gr.gr_status);
    proof {
        assert(entries_view(diffs@) =~= spec_snapshot_diff(*before, *after));
        lemma_diff_entries_changed(*before, *after);
        assert forall|i: int| 0 <= i < diffs@.len() implies (#[trigger] diffs@[i]).1@ != diffs@[i].2@ by {
            assert(entries_view(diffs@)[i] == (diffs@[i].0@, diffs@[i].1@, diffs@[i].2@));
        }
    }
    diffs
}

/// The summary line of one falcon.
pub open spec fn falcon_line(f: FalconSnapshot) -> Seq<char> {
    if f.reachable {
        "  falcon "@ + f.name@ + ": cpuctl="@ + spec_hex8(f.cpuctl) + " security="@ + f.security_mode@
            + " mailbox0="@ + spec_hex8(f.mailbox0)
    } else {
        "  falcon "@ + f.name@ + " UNREACHABLE (PRI timeout)"@
    }
}

fn falcon_summary(f: &FalconSnapshot) -> (r: String)
    ensures
        r@ == falcon_line(*f),
{
    let mut s = String::from_str("  falcon ");
    s.append(f.name.as_str());
    if f.reachable {
        s.append(": cpuctl=");
        push_hex8(&mut s, f.cpuctl);
        s.append(" security=");
        s.append(f.security_mode.as_str());
        s.append(" mailbox0=");
        push_hex8(&mut s, f.mailbox0);
    } else {
        s.append(" UNREACHABLE (PRI timeout)");
    }
    s
}

/// A concise firmware status summary: a header with BOOT0, architecture
/// and label, one line per falcon engine (FECS, GPCCS, PMU, SEC2), and a
/// GPU-wide line.
pub fn log_firmware_summary(snap: &FirmwareSnapshot) -> (r: Vec<String>)
    ensures
        r@.len() == 6,
        r@[0]@ == "firmware snapshot "@ + snap.label@ + ": boot0="@ + spec_hex8(snap.boot0) + " arch="@
            + snap.architecture@,
        r@[1]@ == falcon_line(snap.fecs),
        r@[2]@ == falcon_line(snap.gpccs),
        r@[3]@ == falcon_line(snap.pmu),
        r@[4]@ == falcon_line(snap.sec2),
        r@[5]@ == "  GPU state: pmc="@ + spec_hex8(snap.power.pmc_enable) + " pfifo="@ + spec_hex8(
            snap.pfifo_state.enable,
        ) + " gr="@ + spec_hex8(snap.gr.gr_enable),
{
    let mut head = String::from_str("firmware snapshot ");
    head.append(snap.label.as_str());
    head.append(": boot0=");
    push_hex8(&mut head, snap.boot0);
    head.append(" arch=");
    head.append(snap.architecture.as_str());
    let mut tail = String::from_str("  GPU state: pmc=");
    push_hex8(&mut tail, snap.power.pmc_enable);
    tail.append(" pfifo=");
    push_hex8(&mut tail, snap.pfifo_state.enable);
    tail.append(" gr=");
    push_hex8(&mut tail, snap.gr.gr_enable);
    let mut lines: Vec<String> = Vec::new();
    lines.push(head);
    lines.push(falcon_summary(&snap.fecs));
    lines.push(falcon_summary(&snap.gpccs));
    lines.push(falcon_summary(&snap.pmu));
    lines.push(falcon_summary(&snap.sec2));
    lines.push(tail);
    lines
}

// ── Register capture ───────────────────────────────────────────────────

/// Falcon register offsets, relative to an engine's base.
pub const FALCON_IRQSTAT: usize = 0x008;

pub const FALCON_IRQMODE: usize = 0x00C;

pub const FALCON_MAILBOX0: usize = 0x040;

pub const FALCON_MAILBOX1: usize = 0x044;

pub const FALCON_ITFEN: usize = 0x048;

pub const FALCON_CPUCTL: usize = 0x100;

pub const FALCON_BOOTVEC: usize = 0x104;

pub const FALCON_HWCFG: usize = 0x108;

pub const FALCON_DMACTL: usize = 0x10C;

pub const FALCON_TRACEPC: usize = 0x14C;

pub const FALCON_IMEMC: usize = 0x180;

pub const FALCON_IMEMD: usize = 0x184;

pub const FALCON_EXCI: usize = 0x1D0;

pub const FALCON_SCTL: usize = 0x240;

pub const FALCON_MTHD_DATA: usize = 0x500;

pub const FALCON_FBIF_TRANSCFG: usize = 0x600;

pub const FALCON_MTHD_STATUS: usize = 0x800;

pub const FALCON_EXCEPTION_REG: usize = 0xC24;

/// CPUCTL bit 4: firmware halted.
pub const CPUCTL_HALTED: u32 = 0x10;

/// CPUCTL bit 5: CPU stopped.
pub const CPUCTL_STOPPED: u32 = 0x20;

/// Falcon engine bases.
pub const FECS_BASE: usize = 0x409000;

pub const GPCCS_BASE: usize = 0x41A000;

pub const PMU_BASE: usize = 0x10A000;

pub const SEC2_BASE: usize = 0x087000;

/// IMEM capacity in bytes: HWCFG `[8:0]` × 256.
pub open spec fn spec_imem_size(hwcfg: u32) -> u32 {
    ((hwcfg & 0x1FFu32) * 256) as u32
}

/// DMEM capacity in bytes: HWCFG `[17:9]` × 256.
pub open spec fn spec_dmem_size(hwcfg: u32) -> u32 {
    (((hwcfg >> 9u32) & 0x1FFu32) * 256) as u32
}

fn imem_size_bytes(hwcfg: u32) -> (r: u32)
    ensures
        r == spec_imem_size(hwcfg),
{
    let f = hwcfg & 0x1FF;
    assert(hwcfg & 0x1FF <= 0x1FF) by (bit_vector);
    f * 256
}

fn dmem_size_bytes(hwcfg: u32) -> (r: u32)
    ensures
        r == spec_dmem_size(hwcfg),
{
    let f = (hwcfg >> 9) & 0x1FF;
    assert((hwcfg >> 9) & 0x1FF <= 0x1FF) by (bit_vector);
    f * 256
}

/// Read a register, 0xDEADDEAD when the read fails.
fn rd<B: RegisterBus>(bar0: &mut Bar0<B>, reg: usize) -> (r: u32)
    ensures
        final(bar0).events() == old(bar0).events().push(
            BusEvent::Read { reg, result: final(bar0).events().last()->Read_result },
        ),
        r == read_value(final(bar0).events().last(), DEAD_DEAD),
{
    match bar0.read(reg) {
        Ok(v) => v,
        Err(_) => DEAD_DEAD,
    }
}

/// The event is a read of `reg` that gave `v` (0xDEADDEAD for a failed
/// read).
pub open spec fn read_of(e: BusEvent, reg: usize, v: u32) -> bool {
    e is Read && e->Read_reg == reg && read_value(e, DEAD_DEAD) == v
}

/// The falcon registers read after the IMEM fingerprint, in order.
pub open spec fn falcon_tail_regs() -> Seq<usize> {
    seq![
        FALCON_TRACEPC,
        FALCON_EXCI,
        FALCON_BOOTVEC,
        FALCON_MAILBOX0,
        FALCON_MAILBOX1,
        FALCON_IRQSTAT,
        FALCON_IRQMODE,
        FALCON_FBIF_TRANSCFG,
        FALCON_DMACTL,
        FALCON_ITFEN,
        FALCON_MTHD_DATA,
        FALCON_MTHD_STATUS,
    ]
}

/// The snapshot fields those reads fill, in the same order.
pub open spec fn falcon_tail_values(f: FalconSnapshot) -> Seq<u32> {
    seq![
        f.pc,
        f.exci,
        f.bootvec,
        f.mailbox0,
        f.mailbox1,
        f.irqstat,
        f.irqmode,
        f.fbif_transcfg,
        f.dmactl,
        f.itfen,
        f.mthd_data,
        f.mthd_status,
    ]
}

/// The IMEM fingerprint `fp` is what the eight accesses from event `at`
/// read: eight reads of the IMEMD port of the falcon at `base`, 0 for a
/// failed read. IMEMC is neither read nor written, so the words come from
/// wherever the port already points and the falcon's state is untouched.
pub open spec fn imem_fingerprint_from(fp: Seq<u32>, ev: Seq<BusEvent>, at: int, base: usize) -> bool {
    &&& 0 <= at
    &&& at + 8 <= ev.len()
    &&& fp.len() == 8
    &&& forall|k: int|
        0 <= k < 8 ==> (#[trigger] ev[at + k]) is Read && ev[at + k]->Read_reg == base + FALCON_IMEMD
            && fp[k] == read_value(ev[at + k], 0)
}

/// How many bus accesses capturing this falcon took: CPUCTL alone for an
/// unreachable falcon; CPUCTL, SCTL, HWCFG, eight IMEMD words and twelve
/// further registers for a reachable one.
pub open spec fn falcon_span(f: FalconSnapshot) -> int {
    if f.reachable {
        23
    } else {
        1
    }
}

/// Among events `from..to` of the trace there is no write.
pub open spec fn no_writes(ev: Seq<BusEvent>, from: int, to: int) -> bool {
    forall|i: int| from <= i < to ==> !((#[trigger] ev[i]) is Write)
}

/// The snapshot of a reachable falcon at `base` is what the accesses from
/// event `at` read: CPUCTL, SCTL, HWCFG, the IMEM fingerprint, then the
/// other registers.
pub open spec fn falcon_read_from(f: FalconSnapshot, ev: Seq<BusEvent>, at: int, base: usize) -> bool {
    &&& 0 <= at
    &&& at + 23 <= ev.len()
    &&& read_of(ev[at], (base + FALCON_CPUCTL) as usize, f.cpuctl)
    &&& read_of(ev[at + 1], (base + FALCON_SCTL) as usize, f.sctl)
    &&& read_of(ev[at + 2], (base + FALCON_HWCFG) as usize, f.hwcfg)
    &&& imem_fingerprint_from(f.imem_fingerprint@, ev, at + 3, base)
    &&& forall|j: int|
        0 <= j < 12 ==> read_of(
            #[trigger] ev[at + 11 + j],
            (base + falcon_tail_regs()[j]) as usize,
            falcon_tail_values(f)[j],
        )
}

/// Read eight words through the IMEMD port of the falcon at `base` (see
/// [`imem_fingerprint_from`]).
fn read_imem_fingerprint<B: RegisterBus>(bar0: &mut Bar0<B>, base: usize) -> (fp: Vec<u32>)
    requires
        base <= 0xFFFF_F000,
    ensures
        old(bar0).events().is_prefix_of(final(bar0).events()),
        final(bar0).events().len() == old(bar0).events().len() + 8,
        imem_fingerprint_from(fp@, final(bar0).events(), old(bar0).events().len() as int, base),
{
    broadcast use crate::bus::lemma_prefix_chain, crate::bus::lemma_prefix_of_push, Seq::lemma_prefix_index_eq;

    let ghost e0 = bar0.events();
    let mut imem_fp: Vec<u32> = Vec::new();
    let mut k: usize = 0;
    while k < 8
        invariant
            k <= 8,
            imem_fp@.len() == k,
            e0.is_prefix_of(bar0.events()),
            bar0.events().len() == e0.len() + k,
            base <= 0xFFFF_F000,
            forall|j: int|
                0 <= j < k ==> (#[trigger] bar0.events()[e0.len() + j]) is Read
                    && bar0.events()[e0.len() + j]->Read_reg == base + FALCON_IMEMD && imem_fp@[j]
                    == read_value(bar0.events()[e0.len() + j], 0),
        decreases 8 - k,
    {
        let ghost f0 = bar0.events();
        let ghost fp0 = imem_fp@;
        let word = match bar0.read(base + FALCON_IMEMD) {
            Ok(w) => w,
            Err(_) => 0,
        };
        imem_fp.push(word);
        proof {
            assert forall|j: int| 0 <= j < k + 1 implies (#[trigger] bar0.events()[e0.len() + j]) is Read
                && bar0.events()[e0.len() + j]->Read_reg == base + FALCON_IMEMD && imem_fp@[j]
                == read_value(bar0.events()[e0.len() + j], 0) by {
                if j < k {
                    assert(imem_fp@[j] == fp0[j]);
                    assert(bar0.events()[e0.len() + j] == f0[e0.len() + j]);
                }
            }
        }
        k = k + 1;
    }
    imem_fp
}

/// Capture the state of the falcon at `base`. CPUCTL is read first; an
/// unreachable falcon gets a snapshot with only CPUCTL, SCTL 0xDEADDEAD,
/// security "unreachable" and zeros. Otherwise SCTL and HWCFG are read,
/// then the IMEM fingerprint, then the remaining registers. Nothing is
/// written.
pub fn capture_falcon<B: RegisterBus>(bar0: &mut Bar0<B>, name: &str, base: usize) -> (r: FalconSnapshot)
    requires
        base <= 0xFFFF_F000,
    ensures
        old(bar0).events().is_prefix_of(final(bar0).events()),
        final(bar0).events().len() > old(bar0).events().len(),
        final(bar0).events()[old(bar0).events().len() as int] is Read,
        final(bar0).events()[old(bar0).events().len() as int]->Read_reg == base + FALCON_CPUCTL,
        r.cpuctl == read_value(final(bar0).events()[old(bar0).events().len() as int], DEAD_DEAD),
        r.name@ == name@,
        r.base == base,
        r.reachable == !spec_unreachable(r.cpuctl),
        r.reachable ==> r.imem_fingerprint@.len() == 8 && r.security_mode@ == spec_security(r.sctl)@
            && r.stopped == (r.cpuctl & CPUCTL_STOPPED != 0) && r.halted == (r.cpuctl & CPUCTL_HALTED
            != 0) && r.imem_size_bytes == spec_imem_size(r.hwcfg) && r.dmem_size_bytes == spec_dmem_size(
            r.hwcfg,
        ),
        !r.reachable ==> r.sctl == DEAD_DEAD && r.security_mode@ == "unreachable"@
            && r.imem_fingerprint@.len() == 0,
        final(bar0).events().len() == old(bar0).events().len() + falcon_span(r),
        r.reachable ==> falcon_read_from(r, final(bar0).events(), old(bar0).events().len() as int, base),
        no_writes(final(bar0).events(), old(bar0).events().len() as int, final(bar0).events().len() as int),
{
    broadcast use Seq::lemma_prefix_index_eq;

    let ghost e0 = bar0.events();
    let cpuctl = rd(bar0, base + FALCON_CPUCTL);
    let ghost e1 = bar0.events();
    proof {
        crate::bus::lemma_prefix_push(e0, e1.last());
    }
    if is_unreachable(cpuctl) {
        proof {
            assert forall|i: int| e0.len() <= i < e1.len() implies !((#[trigger] e1[i]) is Write) by {
                assert(e1[i] == e1.last());
            }
        }
        return FalconSnapshot {
            name: String::from_str(name),
            base: base as u32,
            cpuctl,
            stopped: false,
            halted: false,
            sctl: DEAD_DEAD,
            security_mode: String::from_str("unreachable"),
            pc: 0,
            exci: 0,
            bootvec: 0,
            hwcfg: 0,
            imem_size_bytes: 0,
            dmem_size_bytes: 0,
            mailbox0: 0,
            mailbox1: 0,
            irqstat: 0,
            irqmode: 0,
            fbif_transcfg: 0,
            dmactl: 0,
            itfen: 0,
            mthd_data: 0,
            mthd_status: 0,
            imem_fingerprint: Vec::new(),
            reachable: false,
        };
    }
    let sctl = rd(bar0, base + FALCON_SCTL);
    let hwcfg = rd(bar0, base + FALCON_HWCFG);
    let ghost e2 = bar0.events();
    let imem_fp = read_imem_fingerprint(bar0, base);
    let ghost g0 = bar0.events();
    let pc = rd(bar0, base + FALCON_TRACEPC);
    let exci = rd(bar0, base + FALCON_EXCI);
    let bootvec = rd(bar0, base + FALCON_BOOTVEC);
    let mailbox0 = rd(bar0, base + FALCON_MAILBOX0);
    let mailbox1 = rd(bar0, base + FALCON_MAILBOX1);
    let irqstat = rd(bar0, base + FALCON_IRQSTAT);
    let irqmode = rd(bar0, base + FALCON_IRQMODE);
    let fbif_transcfg = rd(bar0, base + FALCON_FBIF_TRANSCFG);
    let dmactl = rd(bar0, base + FALCON_DMACTL);
    let itfen = rd(bar0, base + FALCON_ITFEN);
    let mthd_data = rd(bar0, base + FALCON_MTHD_DATA);
    let mthd_status = rd(bar0, base + FALCON_MTHD_STATUS);
    let r = FalconSnapshot {
        name: String::from_str(name),
        base: base as u32,
        cpuctl,
        stopped: cpuctl & CPUCTL_STOPPED != 0,
        halted: cpuctl & CPUCTL_HALTED != 0,
        sctl,
        security_mode: decode_security(sctl),
        pc,
        exci,
        bootvec,
        hwcfg,
        imem_size_bytes: imem_size_bytes(hwcfg),
        dmem_size_bytes: dmem_size_bytes(hwcfg),
        mailbox0,
        mailbox1,
        irqstat,
        irqmode,
        fbif_transcfg,
        dmactl,
        itfen,
        mthd_data,
        mthd_status,
        imem_fingerprint: imem_fp,
        reachable: true,
    };
    proof {
        let g = bar0.events();
        let n = e0.len() as int;
        assert(g0 =~= g.subrange(0, g0.len() as int));
        assert(e2.len() == n + 3);
        assert(g0.len() == n + 11);
        assert(g.len() == n + 23);
        assert(g[n] == e1[n]);
        assert(g[n + 1] == e2[n + 1]);
        assert(g[n + 2] == e2[n + 2]);
        assert(read_of(g[n + 1], (base + FALCON_SCTL) as usize, r.sctl));
        assert(read_of(g[n + 2], (base + FALCON_HWCFG) as usize, r.hwcfg));
        assert(imem_fingerprint_from(r.imem_fingerprint@, g, n + 3, base)) by {
            assert forall|k: int| 0 <= k < 8 implies #[trigger] g[n + 3 + k] == g0[n + 3 + k] by {}
        }
        assert forall|j: int| 0 <= j < 12 implies read_of(
            #[trigger] g[n + 11 + j],
            (base + falcon_tail_regs()[j]) as usize,
            falcon_tail_values(r)[j],
        ) by {
            assert(falcon_tail_regs()[0] == FALCON_TRACEPC);
        }
        assert(falcon_read_from(r, g, n, base));
        assert forall|i: int| n <= i < g.len() implies !((#[trigger] g[i]) is Write) by {
            if i < n + 3 {
                if i == n {
                    assert(g[i] == e1[n]);
                } else {
                    assert(g[i] == e2[i]);
                }
            } else if i < g0.len() {
                assert(g[i] == g0[i]);
                assert(g0[i] == g0[n + 3 + (i - n - 3)]);
            }
        }
    }
    r
}

/// Number of set bits.
pub open spec fn popcount(v: u32) -> nat
    decreases v,
{
    if v == 0 {
        0
    } else {
        (v % 2) as nat + popcount(v / 2)
    }
}

fn count_ones(v: u32) -> (r: u32)
    ensures
        r == popcount(v),
{
    let mut x = v;
    let mut n: u32 = 0;
    while x > 0
        invariant
            n + popcount(x) == popcount(v),
            n + x <= v,
        decreases x,
    {
        n = n + x % 2;
        x = x / 2;
    }
    n
}

/// The accesses from event `at` that fill a snapshot's fixed part: BOOT0,
/// power (PTIMER low read twice around a 1 ms wait), PFIFO, GR and clocks,
/// each field the value its register read (0xDEADDEAD for a failed read).
pub open spec fn snapshot_fixed_reads(r: FirmwareSnapshot, ev: Seq<BusEvent>, at: int) -> bool {
    &&& at + 24 <= ev.len()
    &&& read_of(ev[at], 0, r.boot0)
    &&& read_of(ev[at + 1], 0x200, r.power.pmc_enable)
    &&& read_of(ev[at + 2], 0x100, r.power.pmc_intr)
    &&& read_of(ev[at + 3], 0x9400, r.power.ptimer_low)
    &&& ev[at + 4] == (BusEvent::Delay { us: 1000 })
    &&& ev[at + 5] is Read && ev[at + 5]->Read_reg == 0x9400
    &&& r.power.ptimer_ticking == (read_value(ev[at + 5], DEAD_DEAD) != r.power.ptimer_low)
    &&& read_of(ev[at + 6], 0x9410, r.power.ptimer_high)
    &&& read_of(ev[at + 7], 0x2200, r.pfifo_state.enable)
    &&& read_of(ev[at + 8], 0x2100, r.pfifo_state.intr)
    &&& read_of(ev[at + 9], 0x2140, r.pfifo_state.intr_en)
    &&& read_of(ev[at + 10], 0x2504, r.pfifo_state.sched_en)
    &&& read_of(ev[at + 11], 0x2630, r.pfifo_state.sched_disable)
    &&& read_of(ev[at + 12], 0x2004, r.pfifo_state.pbdma_map)
    &&& read_of(ev[at + 13], 0x400500, r.gr.gr_enable)
    &&& read_of(ev[at + 14], 0x400100, r.gr.gr_intr)
    &&& read_of(ev[at + 15], 0x40013C, r.gr.gr_intr_en)
    &&& read_of(ev[at + 16], 0x400700, r.gr.gr_status)
    &&& read_of(ev[at + 17], (FECS_BASE + FALCON_EXCEPTION_REG) as usize, r.gr.fecs_exception_reg)
    &&& read_of(ev[at + 18], 0x137000, r.clocks.ppll_0)
    &&& read_of(ev[at + 19], 0x137020, r.clocks.ppll_1)
    &&& read_of(ev[at + 20], 0x1704, r.clocks.pbus_bar1_block)
    &&& read_of(ev[at + 21], 0x9000, r.clocks.ptimer_cfg)
    &&& read_of(ev[at + 22], 0x800000, r.pfifo_state.channel0_inst)
    &&& read_of(ev[at + 23], 0x800004, r.pfifo_state.channel0_state)
}

/// The falcon at `base` was captured from event `at`: its CPUCTL is that
/// read, and a reachable one is filled as [`falcon_read_from`] says.
pub open spec fn falcon_captured_at(f: FalconSnapshot, ev: Seq<BusEvent>, at: int, base: usize) -> bool {
    &&& 0 <= at < ev.len()
    &&& read_of(ev[at], (base + FALCON_CPUCTL) as usize, f.cpuctl)
    &&& f.reachable ==> falcon_read_from(f, ev, at, base)
}

/// A snapshot is what the accesses from event `at` read: the fixed part,
/// then FECS, GPCCS, PMU and SEC2, each taking [`falcon_span`]
/// accesses, and nothing after them. None of them is a write.
pub open spec fn snapshot_read_from(r: FirmwareSnapshot, ev: Seq<BusEvent>, at: int) -> bool {
    let a1 = at + 24;
    let a2 = a1 + falcon_span(r.fecs);
    let a3 = a2 + falcon_span(r.gpccs);
    let a4 = a3 + falcon_span(r.pmu);
    &&& snapshot_fixed_reads(r, ev, at)
    &&& falcon_captured_at(r.fecs, ev, a1, FECS_BASE)
    &&& falcon_captured_at(r.gpccs, ev, a2, GPCCS_BASE)
    &&& falcon_captured_at(r.pmu, ev, a3, PMU_BASE)
    &&& falcon_captured_at(r.sec2, ev, a4, SEC2_BASE)
    &&& ev.len() == a4 + falcon_span(r.sec2)
    &&& no_writes(ev, at, ev.len() as int)
}

/// A trace that grew from `a` agrees with `a` on every event of `a`.
proof fn lemma_prefix_agrees(a: Seq<BusEvent>, b: Seq<BusEvent>)
    requires
        a.is_prefix_of(b),
    ensures
        forall|i: int| 0 <= i < a.len() ==> #[trigger] b[i] == a[i],
{
    assert forall|i: int| 0 <= i < a.len() implies #[trigger] b[i] == a[i] by {
        assert(a[i] == b.subrange(0, a.len() as int)[i]);
    }
}

/// The fixed reads and the four falcon captures, each seen in the trace it
/// ended with, make up the snapshot's accesses.
#[verifier::spinoff_prover]
#[verifier::rlimit(40)]
proof fn lemma_snapshot_compose(
    r: FirmwareSnapshot,
    e0: Seq<BusEvent>,
    e2: Seq<BusEvent>,
    e3: Seq<BusEvent>,
    e4: Seq<BusEvent>,
    e5: Seq<BusEvent>,
    e6: Seq<BusEvent>,
)
    requires
        e0.len() + 24 == e2.len(),
        snapshot_fixed_reads(r, e2, e0.len() as int),
        e2.is_prefix_of(e3),
        e3.is_prefix_of(e4),
        e4.is_prefix_of(e5),
        e5.is_prefix_of(e6),
        e3.len() == e2.len() + falcon_span(r.fecs),
        e4.len() == e3.len() + falcon_span(r.gpccs),
        e5.len() == e4.len() + falcon_span(r.pmu),
        e6.len() == e5.len() + falcon_span(r.sec2),
        falcon_captured_at(r.fecs, e3, e2.len() as int, FECS_BASE),
        falcon_captured_at(r.gpccs, e4, e3.len() as int, GPCCS_BASE),
        falcon_captured_at(r.pmu, e5, e4.len() as int, PMU_BASE),
        falcon_captured_at(r.sec2, e6, e5.len() as int, SEC2_BASE),
        no_writes(e3, e2.len() as int, e3.len() as int),
        no_writes(e4, e3.len() as int, e4.len() as int),
        no_writes(e5, e4.len() as int, e5.len() as int),
        no_writes(e6, e5.len() as int, e6.len() as int),
    ensures
        snapshot_read_from(r, e6, e0.len() as int),
{
    let n = e0.len() as int;
    crate::bus::lemma_prefix_trans(e2, e3, e4);
    crate::bus::lemma_prefix_trans(e2, e4, e5);
    crate::bus::lemma_prefix_trans(e2, e5, e6);
    crate::bus::lemma_prefix_trans(e3, e4, e5);
    crate::bus::lemma_prefix_trans(e3, e5, e6);
    crate::bus::lemma_prefix_trans(e4, e5, e6);
    lemma_prefix_agrees(e2, e6);
    lemma_prefix_agrees(e3, e6);
    lemma_prefix_agrees(e4, e6);
    lemma_prefix_agrees(e5, e6);
    assert(snapshot_fixed_reads(r, e6, n));
    lemma_falcon_captured_grows(r.fecs, e3, e6, e2.len() as int, FECS_BASE);
    lemma_falcon_captured_grows(r.gpccs, e4, e6, e3.len() as int, GPCCS_BASE);
    lemma_falcon_captured_grows(r.pmu, e5, e6, e4.len() as int, PMU_BASE);
    assert forall|i: int| n <= i < e6.len() implies !((#[trigger] e6[i]) is Write) by {
        if i < e2.len() {
            assert(e6[i] == e2[i]);
            let d = i - n;
            assert(0 <= d < 24);
            assert(d == 0 || d == 1 || d == 2 || d == 3 || d == 4 || d == 5 || d == 6 || d == 7 || d == 8
                || d == 9 || d == 10 || d == 11 || d == 12 || d == 13 || d == 14 || d == 15 || d == 16 || d
                == 17 || d == 18 || d == 19 || d == 20 || d == 21 || d == 22 || d == 23);
        } else if i < e3.len() {
            assert(e6[i] == e3[i]);
        } else if i < e4.len() {
            assert(e6[i] == e4[i]);
        } else if i < e5.len() {
            assert(e6[i] == e5[i]);
        }
    }
}

/// What a trace says of a captured falcon stays true as the trace grows.
proof fn lemma_falcon_captured_grows(f: FalconSnapshot, a: Seq<BusEvent>, b: Seq<BusEvent>, at: int, base: usize)
    requires
        a.is_prefix_of(b),
        falcon_captured_at(f, a, at, base),
        at + falcon_span(f) <= a.len(),
    ensures
        falcon_captured_at(f, b, at, base),
{
    lemma_prefix_agrees(a, b);
    if f.reachable {
        assert forall|k: int| 0 <= k < 8 implies (#[trigger] b[at + 3 + k]) == a[at + 3 + k] by {}
        assert forall|j: int| 0 <= j < 12 implies #[trigger] b[at + 11 + j] == a[at + 11 + j] by {}
    }
}

/// Capture a complete firmware snapshot: BOOT0, power (PTIMER read twice,
/// 1 ms apart), PFIFO, GR, clocks, then the four falcons (FECS, GPCCS,
/// PMU, SEC2). Failed reads give 0xDEADDEAD. The capture only reads: no
/// register is written, so the GPU is left as it was found.
#[verifier::spinoff_prover]
#[verifier::rlimit(80)]
pub fn capture_firmware_snapshot<B: RegisterBus>(bar0: &mut Bar0<B>, label: &str, timestamp_ms: u64) -> (r:
    FirmwareSnapshot)
    ensures
        old(bar0).events().is_prefix_of(final(bar0).events()),
        final(bar0).events().len() > old(bar0).events().len(),
        snapshot_read_from(r, final(bar0).events(), old(bar0).events().len() as int),
        r.architecture@ == spec_architecture(r.boot0),
        r.label@ == label@,
        r.timestamp_ms == timestamp_ms,
        r.pfifo_state.pbdma_count == popcount(r.pfifo_state.pbdma_map),
        r.fecs.name@ == "FECS"@ && r.gpccs.name@ == "GPCCS"@ && r.pmu.name@ == "PMU"@ && r.sec2.name@
            == "SEC2"@,
{
    let ghost e0 = bar0.events();
    let boot0 = rd(bar0, 0);
    let pmc_enable = rd(bar0, 0x200);
    let pmc_intr = rd(bar0, 0x100);
    let ptimer_lo = rd(bar0, 0x9400);
    bar0.delay(1000);
    let ptimer_lo2 = rd(bar0, 0x9400);
    let ptimer_hi = rd(bar0, 0x9410);
    let pfifo_en = rd(bar0, 0x2200);
    let pfifo_intr = rd(bar0, 0x2100);
    let pfifo_intr_en = rd(bar0, 0x2140);
    let sched_en = rd(bar0, 0x2504);
    let sched_dis = rd(bar0, 0x2630);
    let pbdma_map = rd(bar0, 0x2004);
    let pbdma_count = count_ones(pbdma_map);
    let gr_enable = rd(bar0, 0x400500);
    let gr_intr = rd(bar0, 0x400100);
    let gr_intr_en = rd(bar0, 0x40013C);
    let gr_status = rd(bar0, 0x400700);
    let fecs_exc = rd(bar0, FECS_BASE + FALCON_EXCEPTION_REG);
    let ppll_0 = rd(bar0, 0x137000);
    let ppll_1 = rd(bar0, 0x137020);
    let pbus_bar1 = rd(bar0, 0x1704);
    let ptimer_cfg = rd(bar0, 0x9000);
    let channel0_inst = rd(bar0, 0x800000);
    let channel0_state = rd(bar0, 0x800004);
    let ghost e2 = bar0.events();
    proof {
        assert(e0 =~= e2.subrange(0, e0.len() as int));
    }
    let fecs = capture_falcon(bar0, "FECS", FECS_BASE);
    let ghost e3 = bar0.events();
    let gpccs = capture_falcon(bar0, "GPCCS", GPCCS_BASE);
    let ghost e4 = bar0.events();
    let pmu = capture_falcon(bar0, "PMU", PMU_BASE);
    let ghost e5 = bar0.events();
    let sec2 = capture_falcon(bar0, "SEC2", SEC2_BASE);
    let ghost e6 = bar0.events();
    let r = FirmwareSnapshot {
        timestamp_ms,
        label: String::from_str(label),
        boot0,
        architecture: decode_architecture(boot0),
        fecs,
        gpccs,
        pmu,
        sec2,
        power: PowerSnapshot {
            pmc_enable,
            pmc_intr,
            ptimer_low: ptimer_lo,
            ptimer_high: ptimer_hi,
            ptimer_ticking: ptimer_lo2 != ptimer_lo,
        },
        pfifo_state: PfifoSnapshot {
            enable: pfifo_en,
            intr: pfifo_intr,
            intr_en: pfifo_intr_en,
            sched_en,
            sched_disable: sched_dis,
            pbdma_map,
            pbdma_count,
            channel0_inst,
            channel0_state,
        },
        gr: GrSnapshot { gr_enable, gr_intr, gr_intr_en, gr_status, fecs_exception_reg: fecs_exc },
        clocks: ClockSnapshot { ppll_0, ppll_1, pbus_bar1_block: pbus_bar1, ptimer_cfg },
    };
    proof {
        let n = e0.len() as int;
        assert(snapshot_fixed_reads(r, e2, n));
        lemma_snapshot_compose(r, e0, e2, e3, e4, e5, e6);
    }
    r
}

} // verus!
