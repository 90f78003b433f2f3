//! Per-subsystem register validation against reference snapshots.
//!
//! Each validator reads a set of key registers of the running GPU and
//! compares them, under a mask, with the values of a reference BAR0
//! snapshot.
use std::collections::BTreeMap;
use vstd::prelude::*;

use crate::bus::{Bar0, BusEvent, RegisterBus};
use crate::snapshot::{snapshot_value, value_or_zero};
use crate::k80_cold_boot::{chars_of, parse_u64_chars, spec_parse_u64};
use crate::text::push_dec;

verus! {

/// A single register comparison result.
#[derive(Debug, Clone)]
pub struct RegisterComparison {
    pub offset: usize,
    pub name: String,
    pub actual: u32,
    pub expected: u32,
    pub mask: u32,
    pub matches: bool,
}

/// Result of validating one subsystem.
#[derive(Debug)]
pub struct SubsystemValidation {
    pub subsystem: String,
    pub total_probes: usize,
    pub matched: usize,
    pub mismatched: usize,
    pub unreadable: usize,
    pub comparisons: Vec<RegisterComparison>,
}

/// Whether a validation passed, and its summary line.
pub open spec fn spec_passed(v: SubsystemValidation) -> bool {
    v.mismatched == 0 && v.unreadable == 0
}

impl SubsystemValidation {
    /// No register mismatched and every register was readable.
    pub fn passed(&self) -> (r: bool)
        ensures
            r == spec_passed(*self),
    {
        self.mismatched == 0 && self.unreadable == 0
    }

    /// "[PASS|FAIL] {subsystem}: {matched}/{total} matched, {mismatched}
    /// mismatched, {unreadable} unreadable".
    pub fn summary(&self) -> (r: String)
        ensures
            r@ == (if spec_passed(*self) {
                "[PASS] "@
            } else {
                "[FAIL] "@
            }) + self.subsystem@ + ": "@ + crate::text::spec_dec(self.matched as nat) + "/"@
                + crate::text::spec_dec(self.total_probes as nat) + " matched, "@ + crate::text::spec_dec(
                self.mismatched as nat,
            ) + " mismatched, "@ + crate::text::spec_dec(self.unreadable as nat) + " unreadable"@,
    {
        let mut s = if self.passed() {
            String::from_str("[PASS] ")
        } else {
            String::from_str("[FAIL] ")
        };
        s.append(self.subsystem.as_str());
        s.append(": ");
        push_dec(&mut s, self.matched as u64);
        s.append("/");
        push_dec(&mut s, self.total_probes as u64);
        s.append(" matched, ");
        push_dec(&mut s, self.mismatched as u64);
        s.append(" mismatched, ");
        push_dec(&mut s, self.unreadable as u64);
        s.append(" unreadable");
        s
    }
}

/// A register probe: offset, name and comparison mask (all ones for an
/// exact match; other masks ignore volatile bits).
#[derive(Debug, Clone, Copy, PartialEq, Eq)]
pub struct Probe {
    pub offset: usize,
    pub name: &'static str,
    pub mask: u32,
}

/// What one probe reads: the value, or nothing when the read failed.
pub open spec fn read_result(e: BusEvent) -> Option<u32> {
    e->Read_result
}

/// The comparison a probe yields from what its read gave.
pub open spec fn comparison_of(p: Probe, got: Option<u32>, reference: Map<usize, u32>) -> (
    usize,
    Seq<char>,
    u32,
    u32,
    u32,
    bool,
) {
    let expected = value_or_zero(reference, p.offset);
    match got {
        Some(v) => (p.offset, p.name@, v, expected, p.mask, (v & p.mask) == (expected & p.mask)),
        None => (p.offset, p.name@, 0xDEAD_DEADu32, expected, p.mask, false),
    }
}

/// A comparison as plain values.
pub open spec fn comparison_view(c: RegisterComparison) -> (usize, Seq<char>, u32, u32, u32, bool) {
    (c.offset, c.name@, c.actual, c.expected, c.mask, c.matches)
}

/// How many of the first `n` reads after `at` satisfy `f`.
pub open spec fn count_reads(ev: Seq<BusEvent>, at: int, n: int, f: spec_fn(Option<u32>) -> bool) -> nat
    decreases n,
{
    if n <= 0 {
        0
    } else {
        count_reads(ev, at, n - 1, f) + if f(read_result(ev[at + n - 1])) {
            1nat
        } else {
            0nat
        }
    }
}

/// How many of the first `n` comparisons matched.
pub open spec fn count_matched(cs: Seq<RegisterComparison>, n: int) -> nat
    decreases n,
{
    if n <= 0 {
        0
    } else {
        count_matched(cs, n - 1) + if cs[n - 1].matches {
            1nat
        } else {
            0nat
        }
    }
}

proof fn lemma_count_matched_push(cs: Seq<RegisterComparison>, c: RegisterComparison, n: int)
    requires
        0 <= n <= cs.len(),
    ensures
        count_matched(cs.push(c), n) == count_matched(cs, n),
    decreases n,
{
    if n > 0 {
        lemma_count_matched_push(cs, c, n - 1);
    }
}

/// The validation of `probes` from the reads that start at event `at`.
pub open spec fn validation_matches(
    v: SubsystemValidation,
    subsystem: Seq<char>,
    probes: Seq<Probe>,
    reference: Map<usize, u32>,
    ev: Seq<BusEvent>,
    at: int,
) -> bool {
    &&& v.subsystem@ == subsystem
    &&& v.total_probes == probes.len()
    &&& v.comparisons@.len() == probes.len()
    &&& forall|k: int|
        0 <= k < probes.len() ==> #[trigger] ev[at + k] is Read && ev[at + k]->Read_reg
            == probes[k].offset
    &&& forall|k: int|
        0 <= k < probes.len() ==> comparison_view(#[trigger] v.comparisons@[k]) == comparison_of(
            probes[k],
            read_result(ev[at + k]),
            reference,
        )
    &&& v.unreadable == count_reads(ev, at, probes.len() as int, |g: Option<u32>| g is None)
    &&& v.matched == count_matched(v.comparisons@, probes.len() as int)
    &&& v.matched + v.mismatched + v.unreadable == probes.len()
}

/// Read every probe in order and compare it with the reference (0 where
/// the reference holds no value); a failed read counts as unreadable.
pub fn validate_probes<B: RegisterBus>(
    bar0: &mut Bar0<B>,
    subsystem: &str,
    probes: &Vec<Probe>,
    reference: &BTreeMap<usize, u32>,
) -> (r: SubsystemValidation)
    ensures
        final(bar0).events().len() == old(bar0).events().len() + probes@.len(),
        old(bar0).events().is_prefix_of(final(bar0).events()),
        validation_matches(
            r,
            subsystem@,
            probes@,
            reference@,
            final(bar0).events(),
            old(bar0).events().len() as int,
        ),
{
    let ghost e0 = bar0.events();
    let ghost n = e0.len() as int;
    let mut comparisons: Vec<RegisterComparison> = Vec::new();
    let mut matched: usize = 0;
    let mut mismatched: usize = 0;
    let mut unreadable: usize = 0;
    let mut i: usize = 0;
    proof {
        crate::bus::lemma_prefix_refl(e0);
    }
    while i < probes.len()
        invariant
            n == e0.len(),
            i <= probes@.len(),
            e0.is_prefix_of(bar0.events()),
            bar0.events().len() == n + i,
            comparisons@.len() == i,
            forall|k: int|
                0 <= k < i ==> #[trigger] bar0.events()[n + k] is Read && bar0.events()[n
                    + k]->Read_reg == probes@[k].offset,
            forall|k: int|
                0 <= k < i ==> comparison_view(#[trigger] comparisons@[k]) == comparison_of(
                    probes@[k],
                    read_result(bar0.events()[n + k]),
                    reference@,
                ),
            unreadable == count_reads(bar0.events(), n, i as int, |g: Option<u32>| g is None),
            matched == count_matched(comparisons@, i as int),
            matched + mismatched + unreadable == i,
        decreases probes.len() - i,
    {
        let p = probes[i];
        let ghost before = bar0.events();
        let ghost cbefore = comparisons@;
        let res = bar0.read(p.offset);
        let expected = snapshot_value(reference, p.offset);
        proof {
            crate::bus::lemma_prefix_push(before, bar0.events().last());
            crate::bus::lemma_prefix_trans(e0, before, bar0.events());
            assert forall|k: int| 0 <= k < i implies #[trigger] bar0.events()[n + k] == before[n + k] by {}
            lemma_count_reads_stable(before, bar0.events(), n, i as int, |g: Option<u32>| g is None);
        }
        match res {
            Ok(actual) => {
                let matches = (actual & p.mask) == (expected & p.mask);
                if matches {
                    matched = matched + 1;
                } else {
                    mismatched = mismatched + 1;
                }
                comparisons.push(
                    RegisterComparison {
                        offset: p.offset,
                        name: String::from_str(p.name),
                        actual,
                        expected,
                        mask: p.mask,
                        matches,
                    },
                );
            },
            Err(_) => {
                unreadable = unreadable + 1;
                comparisons.push(
                    RegisterComparison {
                        offset: p.offset,
                        name: String::from_str(p.name),
                        actual: 0xDEAD_DEAD,
                        expected,
                        mask: p.mask,
                        matches: false,
                    },
                );
            },
        }
        proof {
            lemma_count_matched_push(cbefore, comparisons@.last(), i as int);
            assert(cbefore.push(comparisons@.last()) == comparisons@);
            assert(bar0.events()[n + i] == BusEvent::Read {
                reg: p.offset,
                result: match res { Ok(v) => Some(v), Err(_) => None },
            });
            assert(comparison_view(comparisons@[i as int]) == comparison_of(
                probes@[i as int],
                read_result(bar0.events()[n + i]),
                reference@,
            ));
            assert forall|k: int| 0 <= k < i + 1 implies comparison_view(
                #[trigger] comparisons@[k],
            ) == comparison_of(probes@[k], read_result(bar0.events()[n + k]), reference@) by {
                if k < i {
                    assert(bar0.events()[n + k] == before[n + k]);
                    assert(comparisons@[k] == cbefore[k]);
                    assert(comparison_view(cbefore[k]) == comparison_of(
                        probes@[k],
                        read_result(before[n + k]),
                        reference@,
                    ));
                }
            }
        }
        i = i + 1;
    }
    SubsystemValidation {
        subsystem: String::from_str(subsystem),
        total_probes: probes.len(),
        matched,
        mismatched,
        unreadable,
        comparisons,
    }
}

proof fn lemma_count_reads_stable(
    e1: Seq<BusEvent>,
    e2: Seq<BusEvent>,
    at: int,
    n: int,
    f: spec_fn(Option<u32>) -> bool,
)
    requires
        e1.is_prefix_of(e2),
        0 <= at,
        at + n <= e1.len(),
    ensures
        count_reads(e1, at, n, f) == count_reads(e2, at, n, f),
    decreases n,
{
    if n > 0 {
        lemma_count_reads_stable(e1, e2, at, n - 1, f);
        assert(e1[at + n - 1] == e2[at + n - 1]);
    }
}

/// A probe that compares every bit.
pub open spec fn pr(offset: usize, name: &'static str) -> Probe {
    Probe { offset, name, mask: 0xFFFF_FFFF }
}

/// A probe that compares the bits of `mask`.
pub open spec fn prm(offset: usize, name: &'static str, mask: u32) -> Probe {
    Probe { offset, name, mask }
}

/// PMC and engine gating probes.
pub open spec fn spec_pmc_probes() -> Seq<Probe> {
    seq![
        pr(0x000000, "PMC_BOOT_0"),
        pr(0x000004, "PMC_BOOT_1"),
        pr(0x000200, "PMC_ENABLE"),
        pr(0x000204, "PMC_ENABLE_HI"),
        pr(0x000260, "PMC_UNK260"),
        prm(0x000100, "PMC_INTR_0", 0xFFFF_0000),
        pr(0x000600, "PMC_DEVICE_ENABLE"),
    ]
}

pub fn pmc_probes() -> (r: Vec<Probe>)
    ensures
        r@ == spec_pmc_probes(),
{
    let f: u32 = 0xFFFF_FFFF;
    let r = vec![
        Probe { offset: 0x000000, name: "PMC_BOOT_0", mask: f },
        Probe { offset: 0x000004, name: "PMC_BOOT_1", mask: f },
        Probe { offset: 0x000200, name: "PMC_ENABLE", mask: f },
        Probe { offset: 0x000204, name: "PMC_ENABLE_HI", mask: f },
        Probe { offset: 0x000260, name: "PMC_UNK260", mask: f },
        Probe { offset: 0x000100, name: "PMC_INTR_0", mask: 0xFFFF_0000 },
        Probe { offset: 0x000600, name: "PMC_DEVICE_ENABLE", mask: f },
    ];
    proof {
        assert(r@ =~= spec_pmc_probes());
    }
    r
}

/// PRIV_RING and topology probes.
pub open spec fn spec_topology_probes() -> Seq<Probe> {
    seq![
        pr(0x120100, "PRI_RING_INTR"),
        pr(0x122000, "PRI_MASTER_CTRL"),
        pr(0x022430, "PTOP_DEVICE_INFO_0"),
        pr(0x022434, "PTOP_DEVICE_INFO_1"),
        pr(0x022438, "PTOP_DEVICE_INFO_2"),
        pr(0x02243C, "PTOP_DEVICE_INFO_3"),
        pr(0x022440, "PTOP_DEVICE_INFO_4"),
        pr(0x022448, "PTOP_DEVICE_INFO_5"),
    ]
}

pub fn topology_probes() -> (r: Vec<Probe>)
    ensures
        r@ == spec_topology_probes(),
{
    let f: u32 = 0xFFFF_FFFF;
    let r = vec![
        Probe { offset: 0x120100, name: "PRI_RING_INTR", mask: f },
        Probe { offset: 0x122000, name: "PRI_MASTER_CTRL", mask: f },
        Probe { offset: 0x022430, name: "PTOP_DEVICE_INFO_0", mask: f },
        Probe { offset: 0x022434, name: "PTOP_DEVICE_INFO_1", mask: f },
        Probe { offset: 0x022438, name: "PTOP_DEVICE_INFO_2", mask: f },
        Probe { offset: 0x02243C, name: "PTOP_DEVICE_INFO_3", mask: f },
        Probe { offset: 0x022440, name: "PTOP_DEVICE_INFO_4", mask: f },
        Probe { offset: 0x022448, name: "PTOP_DEVICE_INFO_5", mask: f },
    ];
    proof {
        assert(r@ =~= spec_topology_probes());
    }
    r
}

/// PFB and memory controller probes.
pub open spec fn spec_pfb_probes() -> Seq<Probe> {
    seq![
        pr(0x100000, "PFB_CFG0"),
        pr(0x100004, "PFB_CFG1"),
        pr(0x100800, "FBHUB_CFG"),
        pr(0x100804, "FBHUB_NUM_ACTIVE_LTCS"),
        pr(0x100C10, "PFB_NISO_FLUSH_SYSMEM_ADDR"),
        pr(0x100C80, "PFB_NISO_UNK_C80"),
        pr(0x100CC8, "PFB_NISO_UNK_CC8"),
        pr(0x12006C, "FBP_BROADCAST_COUNT"),
    ]
}

pub fn pfb_probes() -> (r: Vec<Probe>)
    ensures
        r@ == spec_pfb_probes(),
{
    let f: u32 = 0xFFFF_FFFF;
    let r = vec![
        Probe { offset: 0x100000, name: "PFB_CFG0", mask: f },
        Probe { offset: 0x100004, name: "PFB_CFG1", mask: f },
        Probe { offset: 0x100800, name: "FBHUB_CFG", mask: f },
        Probe { offset: 0x100804, name: "FBHUB_NUM_ACTIVE_LTCS", mask: f },
        Probe { offset: 0x100C10, name: "PFB_NISO_FLUSH_SYSMEM_ADDR", mask: f },
        Probe { offset: 0x100C80, name: "PFB_NISO_UNK_C80", mask: f },
        Probe { offset: 0x100CC8, name: "PFB_NISO_UNK_CC8", mask: f },
        Probe { offset: 0x12006C, name: "FBP_BROADCAST_COUNT", mask: f },
    ];
    proof {
        assert(r@ =~= spec_pfb_probes());
    }
    r
}

/// Falcon boot chain probes: SEC2, ACR, FECS, GPCCS, PMU.
pub open spec fn spec_falcon_probes() -> Seq<Probe> {
    seq![
        pr(0x840100, "SEC2_CPUCTL"),
        pr(0x840104, "SEC2_BOOTVEC"),
        pr(0x840240, "SEC2_SCTL"),
        pr(0x840110, "SEC2_PC"),
        pr(0x840040, "SEC2_MAILBOX0"),
        pr(0x840044, "SEC2_MAILBOX1"),
        pr(0x840108, "SEC2_HWCFG"),
        pr(0x862100, "ACR_CPUCTL"),
        pr(0x862240, "ACR_SCTL"),
        pr(0x409100, "FECS_CPUCTL"),
        pr(0x409104, "FECS_BOOTVEC"),
        pr(0x409240, "FECS_SCTL"),
        pr(0x409110, "FECS_PC"),
        pr(0x409040, "FECS_MAILBOX0"),
        pr(0x409044, "FECS_MAILBOX1"),
        pr(0x409108, "FECS_HWCFG"),
        pr(0x41A100, "GPCCS_CPUCTL"),
        pr(0x41A104, "GPCCS_BOOTVEC"),
        pr(0x41A240, "GPCCS_SCTL"),
        pr(0x41A110, "GPCCS_PC"),
        pr(0x41A040, "GPCCS_MAILBOX0"),
        pr(0x41A108, "GPCCS_HWCFG"),
        pr(0x10A100, "PMU_CPUCTL"),
        pr(0x10A240, "PMU_SCTL"),
        pr(0x10A040, "PMU_MAILBOX0"),
        pr(0x10A044, "PMU_MAILBOX1"),
        pr(0x10A108, "PMU_HWCFG"),
    ]
}

pub fn falcon_probes() -> (r: Vec<Probe>)
    ensures
        r@ == spec_falcon_probes(),
{
    let f: u32 = 0xFFFF_FFFF;
    let r = vec![
        Probe { offset: 0x840100, name: "SEC2_CPUCTL", mask: f },
        Probe { offset: 0x840104, name: "SEC2_BOOTVEC", mask: f },
        Probe { offset: 0x840240, name: "SEC2_SCTL", mask: f },
        Probe { offset: 0x840110, name: "SEC2_PC", mask: f },
        Probe { offset: 0x840040, name: "SEC2_MAILBOX0", mask: f },
        Probe { offset: 0x840044, name: "SEC2_MAILBOX1", mask: f },
        Probe { offset: 0x840108, name: "SEC2_HWCFG", mask: f },
        Probe { offset: 0x862100, name: "ACR_CPUCTL", mask: f },
        Probe { offset: 0x862240, name: "ACR_SCTL", mask: f },
        Probe { offset: 0x409100, name: "FECS_CPUCTL", mask: f },
        Probe { offset: 0x409104, name: "FECS_BOOTVEC", mask: f },
        Probe { offset: 0x409240, name: "FECS_SCTL", mask: f },
        Probe { offset: 0x409110, name: "FECS_PC", mask: f },
        Probe { offset: 0x409040, name: "FECS_MAILBOX0", mask: f },
        Probe { offset: 0x409044, name: "FECS_MAILBOX1", mask: f },
        Probe { offset: 0x409108, name: "FECS_HWCFG", mask: f },
        Probe { offset: 0x41A100, name: "GPCCS_CPUCTL", mask: f },
        Probe { offset: 0x41A104, name: "GPCCS_BOOTVEC", mask: f },
        Probe { offset: 0x41A240, name: "GPCCS_SCTL", mask: f },
        Probe { offset: 0x41A110, name: "GPCCS_PC", mask: f },
        Probe { offset: 0x41A040, name: "GPCCS_MAILBOX0", mask: f },
        Probe { offset: 0x41A108, name: "GPCCS_HWCFG", mask: f },
        Probe { offset: 0x10A100, name: "PMU_CPUCTL", mask: f },
        Probe { offset: 0x10A240, name: "PMU_SCTL", mask: f },
        Probe { offset: 0x10A040, name: "PMU_MAILBOX0", mask: f },
        Probe { offset: 0x10A044, name: "PMU_MAILBOX1", mask: f },
        Probe { offset: 0x10A108, name: "PMU_HWCFG", mask: f },
    ];
    proof {
        assert(r@ =~= spec_falcon_probes());
    }
    r
}

/// GR engine init probes.
pub open spec fn spec_gr_probes() -> Seq<Probe> {
    seq![
        prm(0x400100, "PGRAPH_INTR", 0),
        pr(0x400108, "PGRAPH_FECS_INTR"),
        pr(0x400500, "GR_MASTER_ENABLE"),
        pr(0x400700, "GR_STATUS"),
        pr(0x404000, "PGRAPH_GR_STATUS"),
        pr(0x404600, "PGRAPH_EXCEPTION"),
        pr(0x409C24, "FECS_EXCEPTION_EN"),
        pr(0x418880, "GPC_MMU_CFG0"),
        pr(0x418890, "GPC_MMU_CFG2"),
        pr(0x418894, "GPC_MMU_CFG3"),
        pr(0x4188AC, "GPC_ACTIVE_LTCS"),
        pr(0x41833C, "GPC_LTC_BROADCAST"),
        pr(0x400124, "PGRAPH_TRAP_EN"),
        pr(0x40013C, "PGRAPH_IBUS_INTR_EN"),
        pr(0x408030, "PGRAPH_DISPATCH_CFG"),
        pr(0x405840, "PGRAPH_ACTIVITY_0"),
        pr(0x407020, "PGRAPH_TILE_MAP"),
    ]
}

pub fn gr_probes() -> (r: Vec<Probe>)
    ensures
        r@ == spec_gr_probes(),
{
    let f: u32 = 0xFFFF_FFFF;
    let r = vec![
        Probe { offset: 0x400100, name: "PGRAPH_INTR", mask: 0 },
        Probe { offset: 0x400108, name: "PGRAPH_FECS_INTR", mask: f },
        Probe { offset: 0x400500, name: "GR_MASTER_ENABLE", mask: f },
        Probe { offset: 0x400700, name: "GR_STATUS", mask: f },
        Probe { offset: 0x404000, name: "PGRAPH_GR_STATUS", mask: f },
        Probe { offset: 0x404600, name: "PGRAPH_EXCEPTION", mask: f },
        Probe { offset: 0x409C24, name: "FECS_EXCEPTION_EN", mask: f },
        Probe { offset: 0x418880, name: "GPC_MMU_CFG0", mask: f },
        Probe { offset: 0x418890, name: "GPC_MMU_CFG2", mask: f },
        Probe { offset: 0x418894, name: "GPC_MMU_CFG3", mask: f },
        Probe { offset: 0x4188AC, name: "GPC_ACTIVE_LTCS", mask: f },
        Probe { offset: 0x41833C, name: "GPC_LTC_BROADCAST", mask: f },
        Probe { offset: 0x400124, name: "PGRAPH_TRAP_EN", mask: f },
        Probe { offset: 0x40013C, name: "PGRAPH_IBUS_INTR_EN", mask: f },
        Probe { offset: 0x408030, name: "PGRAPH_DISPATCH_CFG", mask: f },
        Probe { offset: 0x405840, name: "PGRAPH_ACTIVITY_0", mask: f },
        Probe { offset: 0x407020, name: "PGRAPH_TILE_MAP", mask: f },
    ];
    proof {
        assert(r@ =~= spec_gr_probes());
    }
    r
}

/// PFIFO and channel probes.
pub open spec fn spec_pfifo_probes() -> Seq<Probe> {
    seq![
        pr(0x002200, "PFIFO_ENABLE"),
        prm(0x002100, "PFIFO_INTR_0", 0),
        pr(0x002140, "PFIFO_INTR_EN_0"),
        pr(0x002504, "PFIFO_SCHED_EN"),
        pr(0x002630, "PFIFO_SCHED_DISABLE"),
        pr(0x002004, "PFIFO_PBDMA_MAP"),
        prm(0x040100, "PBDMA0_INTR", 0),
        pr(0x040140, "PBDMA0_INTR_EN"),
        pr(0x800000, "PCCSR_INST_0"),
        pr(0x800004, "PCCSR_CHANNEL_0"),
    ]
}

pub fn pfifo_probes() -> (r: Vec<Probe>)
    ensures
        r@ == spec_pfifo_probes(),
{
    let f: u32 = 0xFFFF_FFFF;
    let r = vec![
        Probe { offset: 0x002200, name: "PFIFO_ENABLE", mask: f },
        Probe { offset: 0x002100, name: "PFIFO_INTR_0", mask: 0 },
        Probe { offset: 0x002140, name: "PFIFO_INTR_EN_0", mask: f },
        Probe { offset: 0x002504, name: "PFIFO_SCHED_EN", mask: f },
        Probe { offset: 0x002630, name: "PFIFO_SCHED_DISABLE", mask: f },
        Probe { offset: 0x002004, name: "PFIFO_PBDMA_MAP", mask: f },
        Probe { offset: 0x040100, name: "PBDMA0_INTR", mask: 0 },
        Probe { offset: 0x040140, name: "PBDMA0_INTR_EN", mask: f },
        Probe { offset: 0x800000, name: "PCCSR_INST_0", mask: f },
        Probe { offset: 0x800004, name: "PCCSR_CHANNEL_0", mask: f },
    ];
    proof {
        assert(r@ =~= spec_pfifo_probes());
    }
    r
}

/// The validation of one subsystem over the reads after `old` events.
pub open spec fn validated(
    v: SubsystemValidation,
    name: &str,
    probes: Seq<Probe>,
    reference: Map<usize, u32>,
    old_ev: Seq<BusEvent>,
    new_ev: Seq<BusEvent>,
) -> bool {
    &&& new_ev.len() == old_ev.len() + probes.len()
    &&& old_ev.is_prefix_of(new_ev)
    &&& validation_matches(v, name@, probes, reference, new_ev, old_ev.len() as int)
}

/// Validate PMC and engine gating state against the reference.
pub fn validate_pmc<B: RegisterBus>(bar0: &mut Bar0<B>, reference: &BTreeMap<usize, u32>) -> (r:
    SubsystemValidation)
    ensures
        validated(r, "PMC_ENGINE_GATING", spec_pmc_probes(), reference@, old(bar0).events(), final(bar0).events()),
{
    validate_probes(bar0, "PMC_ENGINE_GATING", &pmc_probes(), reference)
}

/// Validate PRIV_RING and topology discovery state against the reference.
pub fn validate_topology<B: RegisterBus>(bar0: &mut Bar0<B>, reference: &BTreeMap<usize, u32>) -> (r:
    SubsystemValidation)
    ensures
        validated(r, "PRI_TOPOLOGY", spec_topology_probes(), reference@, old(bar0).events(), final(bar0).events()),
{
    validate_probes(bar0, "PRI_TOPOLOGY", &topology_probes(), reference)
}

/// Validate PFB and memory controller state against the reference.
pub fn validate_pfb<B: RegisterBus>(bar0: &mut Bar0<B>, reference: &BTreeMap<usize, u32>) -> (r:
    SubsystemValidation)
    ensures
        validated(r, "PFB_MEMORY", spec_pfb_probes(), reference@, old(bar0).events(), final(bar0).events()),
{
    validate_probes(bar0, "PFB_MEMORY", &pfb_probes(), reference)
}

/// Validate the falcon boot chain (SEC2, ACR, FECS, GPCCS, PMU) against
/// the reference.
pub fn validate_falcons<B: RegisterBus>(bar0: &mut Bar0<B>, reference: &BTreeMap<usize, u32>) -> (r:
    SubsystemValidation)
    ensures
        validated(r, "FALCON_BOOT", spec_falcon_probes(), reference@, old(bar0).events(), final(bar0).events()),
{
    validate_probes(bar0, "FALCON_BOOT", &falcon_probes(), reference)
}

/// Validate GR engine init state against the reference.
pub fn validate_gr<B: RegisterBus>(bar0: &mut Bar0<B>, reference: &BTreeMap<usize, u32>) -> (r:
    SubsystemValidation)
    ensures
        validated(r, "GR_ENGINE_INIT", spec_gr_probes(), reference@, old(bar0).events(), final(bar0).events()),
{
    validate_probes(bar0, "GR_ENGINE_INIT", &gr_probes(), reference)
}

/// Validate PFIFO and channel state against the reference.
pub fn validate_pfifo<B: RegisterBus>(bar0: &mut Bar0<B>, reference: &BTreeMap<usize, u32>) -> (r:
    SubsystemValidation)
    ensures
        validated(r, "PFIFO_CHANNEL", spec_pfifo_probes(), reference@, old(bar0).events(), final(bar0).events()),
{
    validate_probes(bar0, "PFIFO_CHANNEL", &pfifo_probes(), reference)
}

/// The six validations in order, each made on the trace the previous one
/// left: PMC, topology, PFB, falcons, GR, PFIFO, between the traces
/// `t[0]` and `t[6]`.
pub open spec fn validated_all(v: Seq<SubsystemValidation>, reference: Map<usize, u32>, t: Seq<Seq<BusEvent>>) -> bool {
    &&& v.len() == 6
    &&& t.len() == 7
    &&& validated(v[0], "PMC_ENGINE_GATING", spec_pmc_probes(), reference, t[0], t[1])
    &&& validated(v[1], "PRI_TOPOLOGY", spec_topology_probes(), reference, t[1], t[2])
    &&& validated(v[2], "PFB_MEMORY", spec_pfb_probes(), reference, t[2], t[3])
    &&& validated(v[3], "FALCON_BOOT", spec_falcon_probes(), reference, t[3], t[4])
    &&& validated(v[4], "GR_ENGINE_INIT", spec_gr_probes(), reference, t[4], t[5])
    &&& validated(v[5], "PFIFO_CHANNEL", spec_pfifo_probes(), reference, t[5], t[6])
}

/// Run all subsystem validations, in order: PMC, topology, PFB, falcons,
/// GR, PFIFO.
pub fn validate_all<B: RegisterBus>(bar0: &mut Bar0<B>, reference: &BTreeMap<usize, u32>) -> (r: Vec<
    SubsystemValidation,
>)
    ensures
        old(bar0).events().is_prefix_of(final(bar0).events()),
        r@.len() == 6,
        r@[0].subsystem@ == "PMC_ENGINE_GATING"@ && r@[1].subsystem@ == "PRI_TOPOLOGY"@
            && r@[2].subsystem@ == "PFB_MEMORY"@ && r@[3].subsystem@ == "FALCON_BOOT"@
            && r@[4].subsystem@ == "GR_ENGINE_INIT"@ && r@[5].subsystem@ == "PFIFO_CHANNEL"@,
        exists|t: Seq<Seq<BusEvent>>|
            #[trigger] validated_all(r@, reference@, t) && t[0] == old(bar0).events()
                && t[6] == final(bar0).events(),
{
    let ghost e0 = bar0.events();
    let a = validate_pmc(bar0, reference);
    let ghost e1 = bar0.events();
    let b = validate_topology(bar0, reference);
    let ghost e2 = bar0.events();
    let c = validate_pfb(bar0, reference);
    let ghost e3 = bar0.events();
    let d = validate_falcons(bar0, reference);
    let ghost e4 = bar0.events();
    let e = validate_gr(bar0, reference);
    let ghost e5 = bar0.events();
    let f = validate_pfifo(bar0, reference);
    proof {
        crate::bus::lemma_prefix_trans(e0, e1, e2);
        crate::bus::lemma_prefix_trans(e0, e2, e3);
        crate::bus::lemma_prefix_trans(e0, e3, e4);
        crate::bus::lemma_prefix_trans(e0, e4, e5);
        crate::bus::lemma_prefix_trans(e0, e5, bar0.events());
    }
    let mut out: Vec<SubsystemValidation> = Vec::new();
    out.push(a);
    out.push(b);
    out.push(c);
    out.push(d);
    out.push(e);
    out.push(f);
    proof {
        let t = seq![e0, e1, e2, e3, e4, e5, bar0.events()];
        assert(validated_all(out@, reference@, t));
    }
    out
}

/// Read every falcon probe; the registers that answered, by offset.
pub fn capture_falcon_state<B: RegisterBus>(bar0: &mut Bar0<B>) -> (r: BTreeMap<usize, u32>)
    ensures
        old(bar0).events().is_prefix_of(final(bar0).events()),
        final(bar0).events().len() == old(bar0).events().len() + 27,
        forall|k: int|
            0 <= k < 27 ==> {
                let e = #[trigger] final(bar0).events()[old(bar0).events().len() + k];
                &&& e is Read
                &&& e->Read_reg == spec_falcon_probes()[k].offset
            },
        forall|off: usize|
            #[trigger] r@.contains_key(off) ==> exists|k: int|
                0 <= k < 27 && spec_falcon_probes()[k].offset == off
                    && final(bar0).events()[old(bar0).events().len() + k]->Read_result == Some(r@[off]),
        forall|k: int|
            0 <= k < 27 && (#[trigger] final(bar0).events()[old(bar0).events().len() + k])->Read_result
                is Some ==> r@.contains_key(spec_falcon_probes()[k].offset),
        r@.dom().finite() && r@.dom().len() <= 27,
{
    broadcast use vstd::std_specs::btree::group_btree_axioms;
    broadcast use vstd::laws_cmp::group_laws_cmp;
    let probes = falcon_probes();
    let ghost e0 = bar0.events();
    let ghost n: nat = e0.len();
    proof {
        crate::bus::lemma_prefix_refl(e0);
    }
    let mut state: BTreeMap<usize, u32> = BTreeMap::new();
    let mut i: usize = 0;
    while i < probes.len()
        invariant
            probes@ == spec_falcon_probes(),
            n == e0.len(),
            i <= probes@.len(),
            e0.is_prefix_of(bar0.events()),
            bar0.events().len() == n + i,
            forall|k: int|
                0 <= k < i ==> {
                    let e = #[trigger] bar0.events()[n + k];
                    &&& e is Read
                    &&& e->Read_reg == spec_falcon_probes()[k].offset
                },
            forall|off: usize|
                #[trigger] state@.contains_key(off) ==> exists|k: int|
                    0 <= k < i && spec_falcon_probes()[k].offset == off && bar0.events()[n
                        + k]->Read_result == Some(state@[off]),
            forall|k: int|
                0 <= k < i && (#[trigger] bar0.events()[n + k])->Read_result is Some ==> state@.contains_key(
                    spec_falcon_probes()[k].offset,
                ),
            state@.dom().finite(),
            state@.dom().len() <= i,
        decreases probes.len() - i,
    {
        let p = probes[i];
        let ghost before = bar0.events();
        let res = bar0.read(p.offset);
        proof {
            crate::bus::lemma_prefix_push(before, bar0.events().last());
            crate::bus::lemma_prefix_trans(e0, before, bar0.events());
            assert forall|k: int| 0 <= k < i implies #[trigger] bar0.events()[n + k] == before[n + k] by {}
        }
        let ghost sb = state@;
        if let Ok(val) = res {
            state.insert(p.offset, val);
            proof {
                assert(state@.dom() =~= sb.dom().insert(p.offset));
                assert forall|k: int| 0 <= k < i + 1 && (#[trigger] bar0.events()[n + k])->Read_result is Some
                    implies state@.contains_key(spec_falcon_probes()[k].offset) by {
                    if k < i {
                        assert(sb.contains_key(spec_falcon_probes()[k].offset));
                    }
                }
                assert forall|off: usize| #[trigger] state@.contains_key(off) implies exists|k: int|
                    0 <= k < i + 1 && spec_falcon_probes()[k].offset == off && bar0.events()[n
                        + k]->Read_result == Some(state@[off]) by {
                    if off == p.offset {
                        assert(bar0.events()[n + i]->Read_result == Some(val));
                    } else {
                        assert(sb.contains_key(off));
                        let k = choose|k: int|
                            0 <= k < i && spec_falcon_probes()[k].offset == off && before[n
                                + k]->Read_result == Some(sb[off]);
                        assert(bar0.events()[n + k] == before[n + k]);
                    }
                }
            }
        } else {
            proof {
                assert forall|k: int| 0 <= k < i + 1 && (#[trigger] bar0.events()[n + k])->Read_result is Some
                    implies state@.contains_key(spec_falcon_probes()[k].offset) by {
                    if k < i {
                        assert(sb.contains_key(spec_falcon_probes()[k].offset));
                    }
                }
                assert forall|off: usize| #[trigger] state@.contains_key(off) implies exists|k: int|
                    0 <= k < i + 1 && spec_falcon_probes()[k].offset == off && bar0.events()[n
                        + k]->Read_result == Some(state@[off]) by {
                    let k = choose|k: int|
                        0 <= k < i && spec_falcon_probes()[k].offset == off && before[n
                            + k]->Read_result == Some(sb[off]);
                    assert(bar0.events()[n + k] == before[n + k]);
                }
            }
        }
        i = i + 1;
    }
    state
}

/// PRAMIN regions where falcon firmware blobs are loaded.
pub fn falcon_pramin_regions() -> (r: Vec<(&'static str, usize, usize)>)
    ensures
        r@ == seq![
            ("SEC2_IMEM_BASE", 0x700000usize, 0x708000usize),
            ("SEC2_DMEM_BASE", 0x708000usize, 0x70C000usize),
            ("ACR_UCODE_BASE", 0x70C000usize, 0x710000usize),
        ],
{
    let r = vec![
        ("SEC2_IMEM_BASE", 0x700000usize, 0x708000usize),
        ("SEC2_DMEM_BASE", 0x708000usize, 0x70C000usize),
        ("ACR_UCODE_BASE", 0x70C000usize, 0x710000usize),
    ];
    proof {
        assert(r@ =~= seq![
            ("SEC2_IMEM_BASE", 0x700000usize, 0x708000usize),
            ("SEC2_DMEM_BASE", 0x708000usize, 0x70C000usize),
            ("ACR_UCODE_BASE", 0x70C000usize, 0x710000usize),
        ]);
    }
    r
}

/// Falcon trigger registers: written to start each falcon.
pub fn falcon_trigger_regs() -> (r: Vec<(&'static str, usize)>)
    ensures
        r@ == seq![
            ("SEC2_CPUCTL", 0x840100usize),
            ("SEC2_DMACTL", 0x84010Cusize),
            ("SEC2_ITFEN", 0x840048usize),
            ("FECS_CPUCTL", 0x409100usize),
            ("GPCCS_CPUCTL", 0x41A100usize),
            ("PMU_CPUCTL", 0x10A100usize),
        ],
{
    let r = vec![
        ("SEC2_CPUCTL", 0x840100usize),
        ("SEC2_DMACTL", 0x84010Cusize),
        ("SEC2_ITFEN", 0x840048usize),
        ("FECS_CPUCTL", 0x409100usize),
        ("GPCCS_CPUCTL", 0x41A100usize),
        ("PMU_CPUCTL", 0x10A100usize),
    ];
    proof {
        assert(r@ =~= seq![
            ("SEC2_CPUCTL", 0x840100usize),
            ("SEC2_DMACTL", 0x84010Cusize),
            ("SEC2_ITFEN", 0x840048usize),
            ("FECS_CPUCTL", 0x409100usize),
            ("GPCCS_CPUCTL", 0x41A100usize),
            ("PMU_CPUCTL", 0x10A100usize),
        ]);
    }
    r
}

/// `s` with every leading "0x" removed.
pub open spec fn strip_hex_prefixes(s: Seq<char>) -> Seq<char>
    decreases s.len(),
{
    if s.len() >= 2 && s[0] == '0' && s[1] == 'x' {
        strip_hex_prefixes(s.subrange(2, s.len() as int))
    } else {
        s
    }
}

/// A hexadecimal number of a reference snapshot, its leading "0x"s
/// removed, when it is at most `max`.
pub open spec fn spec_snapshot_hex(s: Seq<char>, max: int) -> Option<int> {
    match spec_parse_u64(strip_hex_prefixes(s), 16) {
        Some(v) => if v <= max {
            Some(v as int)
        } else {
            None
        },
        None => None,
    }
}

/// Parse a hexadecimal number of a reference snapshot (see
/// `spec_snapshot_hex`).
fn snapshot_hex(s: &str, max: u64) -> (r: Option<u64>)
    ensures
        r matches Some(v) ==> spec_snapshot_hex(s@, max as int) == Some(v as int),
        r is None ==> spec_snapshot_hex(s@, max as int) is None,
{
    let b = chars_of(s);
    let mut lo: usize = 0;
    assert(b@.subrange(0, b@.len() as int) =~= b@);
    while lo < b.len() && b.len() - lo >= 2 && b[lo] == '0' && b[lo + 1] == 'x'
        invariant
            lo <= b@.len(),
            strip_hex_prefixes(b@) == strip_hex_prefixes(b@.subrange(lo as int, b@.len() as int)),
        decreases b.len() - lo,
    {
        proof {
            let t = b@.subrange(lo as int, b@.len() as int);
            assert(t.subrange(2, t.len() as int) =~= b@.subrange(lo + 2, b@.len() as int));
        }
        lo = lo + 2;
    }
    proof {
        assert(b@.subrange(0, b@.len() as int) =~= b@);
        let t = b@.subrange(lo as int, b@.len() as int);
        assert(strip_hex_prefixes(t) == t);
    }
    match parse_u64_chars(&b, lo, b.len(), 16) {
        Some(v) => if v <= max {
            Some(v)
        } else {
            None
        },
        None => None,
    }
}

/// One register of a reference snapshot as the JSON holds it: the offset
/// key and, when the value is a string, the value.
pub open spec fn reference_entry(e: (String, Option<String>)) -> Option<(usize, u32)> {
    match e.1 {
        Some(v) => match (spec_snapshot_hex(e.0@, usize::MAX as int), spec_snapshot_hex(v@, 0xFFFF_FFFF)) {
            (Some(o), Some(x)) => Some((o as usize, x as u32)),
            _ => None,
        },
        None => None,
    }
}

/// The reference map of the entries: each parsed entry inserted in turn,
/// so a later entry for the same offset wins.
pub open spec fn spec_reference_map(entries: Seq<(String, Option<String>)>) -> Map<usize, u32>
    decreases entries.len(),
{
    if entries.len() == 0 {
        Map::empty()
    } else {
        let m = spec_reference_map(entries.drop_last());
        match reference_entry(entries.last()) {
            Some((o, v)) => m.insert(o, v),
            None => m,
        }
    }
}

/// Build a reference snapshot from the registers of its regions: offsets
/// and values are hexadecimal with any number of leading "0x"; an entry
/// whose offset or value does not parse (or whose value is not a string)
/// is skipped.
pub fn reference_snapshot(entries: &Vec<(String, Option<String>)>) -> (r: BTreeMap<usize, u32>)
    ensures
        r@ == spec_reference_map(entries@),
{
    broadcast use vstd::std_specs::btree::group_btree_axioms;
    let mut m: BTreeMap<usize, u32> = BTreeMap::new();
    let mut i: usize = 0;
    while i < entries.len()
        invariant
            i <= entries@.len(),
            m@ == spec_reference_map(entries@.subrange(0, i as int)),
        decreases entries.len() - i,
    {
        let (off_s, val_s) = &entries[i];
        proof {
            assert(entries@.subrange(0, i + 1).drop_last() =~= entries@.subrange(0, i as int));
        }
        match val_s {
            Some(vs) => {
                match (snapshot_hex(off_s.as_str(), usize::MAX as u64), snapshot_hex(vs.as_str(), 0xFFFF_FFFF)) {
                    (Some(o), Some(v)) => {
                        m.insert(o as usize, v as u32);
                    },
                    _ => {},
                }
            },
            None => {},
        }
        i = i + 1;
    }
    proof {
        assert(entries@.subrange(0, entries@.len() as int) =~= entries@);
    }
    m
}

} // verus!
