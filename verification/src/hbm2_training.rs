//! HBM2 memory training with phase transitions enforced by the type system.
//!
//! ```text
//! Untrained → PhyUp → LinkTrained → DramReady → Verified
//!    enable_phy()  train_links()  init_dram()  verify_vram()
//! ```
//!
//! Each transition consumes the controller and returns it in the next
//! phase, so VRAM cannot be verified before the PHY is up, nor link
//! training skipped. Every register access the controller makes is logged
//! in its [`TrainingLog`].
use core::marker::PhantomData;
use vstd::prelude::*;

use crate::bus::{
    is_pri_error, lemma_prefix_chain, lemma_prefix_of_push, lemma_prefix_refl, pri_recovery_trace, recover_pri_bus,
    spec_is_pri_error, Bar0, BusEvent, RegisterBus,
};
use crate::devinit::{extract_boot_script_writes, spec_extract_boot_script_writes, ScriptRegWrite};
use crate::devinit_interp::interpret_boot_scripts;
use crate::firmware_probe::read_of;
use crate::pmu::{
    execute_devinit, is_read_of, lemma_prom_words_grows, prom_words_read, read_value, read_vbios_prom, status_regs,
    vram_probe_events, vram_probe_passed, DevinitStatus, DEVINIT_STATUS, PROM_BASE, PROM_ENABLE_REG,
};

pub mod volta_hbm2;

verus! {

broadcast use {lemma_prefix_chain, lemma_prefix_of_push, Seq::lemma_prefix_index_eq};

// ── Newtype register domain offsets ─────────────────────────────────────

/// An offset within the FBPA (Framebuffer Partition Array) register domain.
#[derive(Debug, Clone, Copy, PartialEq, Eq, Structural)]
pub struct FbpaOffset(pub usize);

/// An offset within the LTC (L2 Cache) register domain.
#[derive(Debug, Clone, Copy, PartialEq, Eq, Structural)]
pub struct LtcOffset(pub usize);

/// An offset within the PFB (Framebuffer controller) register domain.
#[derive(Debug, Clone, Copy, PartialEq, Eq, Structural)]
pub struct PfbOffset(pub usize);

/// An offset within the PCLOCK register domain.
#[derive(Debug, Clone, Copy, PartialEq, Eq, Structural)]
pub struct PclockOffset(pub usize);

// ── Typestate phase markers ─────────────────────────────────────────────

/// The memory controller has not been initialized; FBPA clocks may be gated.
#[derive(Debug)]
pub struct Untrained;

/// FBPA clock domains are enabled; the PHY is powered but not calibrated.
#[derive(Debug)]
pub struct PhyUp;

/// HBM2 PHY link training is complete; DRAM timing not yet configured.
#[derive(Debug)]
pub struct LinkTrained;

/// DRAM timing registers are configured; the memory controller is ready.
#[derive(Debug)]
pub struct DramReady;

/// VRAM accessibility verified by a PRAMIN sentinel write and readback.
#[derive(Debug)]
pub struct Verified;

/// Marker that only the five phases carry, so no other type can be a phase.
pub trait Sealed {}

impl Sealed for Untrained {}

impl Sealed for PhyUp {}

impl Sealed for LinkTrained {}

impl Sealed for DramReady {}

impl Sealed for Verified {}

/// Trait bound for all HBM2 training phases.
pub trait Hbm2Phase: Sealed + core::fmt::Debug {}

impl Hbm2Phase for Untrained {}

impl Hbm2Phase for PhyUp {}

impl Hbm2Phase for LinkTrained {}

impl Hbm2Phase for DramReady {}

impl Hbm2Phase for Verified {}

// ── Training phase error ────────────────────────────────────────────────

/// Which phase of HBM2 training failed and why.
#[derive(Debug, Clone)]
pub struct Hbm2TrainingError {
    pub phase: &'static str,
    pub detail: String,
    pub register_snapshot: Vec<(usize, u32)>,
}

impl Hbm2TrainingError {
    /// "HBM2 training failed at {phase}: {detail}".
    pub fn to_string(&self) -> (r: String)
        ensures
            r@ == "HBM2 training failed at "@ + self.phase@ + ": "@ + self.detail@,
    {
        let mut s = String::from_str("HBM2 training failed at ");
        s.append(self.phase);
        s.append(": ");
        s.append(self.detail.as_str());
        s
    }
}

/// An error of `phase` with a fixed message and no register snapshot.
fn phase_error(phase: &'static str, detail: &str) -> (e: Hbm2TrainingError)
    ensures
        e.phase == phase,
        e.detail@ == detail@,
        e.register_snapshot@.len() == 0,
{
    Hbm2TrainingError { phase, detail: String::from_str(detail), register_snapshot: Vec::new() }
}

// ── Training log ────────────────────────────────────────────────────────

/// A single recorded action during HBM2 training.
#[derive(Debug, Clone)]
pub enum TrainingAction {
    RegWrite { offset: usize, value: u32, old: u32 },
    RegRead { offset: usize, value: u32 },
    Delay { ms: u64 },
    PhaseTransition { from: String, to: String },
    Verification { offset: usize, expected: u32, actual: u32, ok: bool },
}

/// The action is a register write.
pub open spec fn is_reg_write(a: TrainingAction) -> bool {
    a is RegWrite
}

/// Accumulated log from a training attempt.
#[derive(Debug, Clone)]
pub struct TrainingLog {
    pub actions: Vec<TrainingAction>,
}

impl Default for TrainingLog {
    fn default() -> (r: Self)
        ensures
            r.actions@.len() == 0,
    {
        TrainingLog { actions: Vec::new() }
    }
}

impl TrainingLog {
    /// Record a register write and the value it replaced.
    pub fn log_write(&mut self, offset: usize, value: u32, old_value: u32)
        ensures
            final(self).actions@ == old(self).actions@.push(
                TrainingAction::RegWrite { offset, value, old: old_value },
            ),
    {
        self.actions.push(TrainingAction::RegWrite { offset, value, old: old_value });
    }

    /// Record a register read.
    pub fn log_read(&mut self, offset: usize, value: u32)
        ensures
            final(self).actions@ == old(self).actions@.push(TrainingAction::RegRead { offset, value }),
    {
        self.actions.push(TrainingAction::RegRead { offset, value });
    }

    /// Record a delay.
    pub fn log_delay(&mut self, ms: u64)
        ensures
            final(self).actions@ == old(self).actions@.push(TrainingAction::Delay { ms }),
    {
        self.actions.push(TrainingAction::Delay { ms });
    }

    /// Record a phase transition.
    pub fn log_phase(&mut self, from: &str, to: &str)
        ensures
            final(self).actions@.len() == old(self).actions@.len() + 1,
            old(self).actions@.is_prefix_of(final(self).actions@),
            final(self).actions@.last() matches TrainingAction::PhaseTransition { from: f, to: t }
                && f@ == from@ && t@ == to@,
    {
        self.actions.push(
            TrainingAction::PhaseTransition { from: String::from_str(from), to: String::from_str(to) },
        );
    }

    /// Record a verification: what was expected, what was read.
    pub fn log_verify(&mut self, offset: usize, expected: u32, actual: u32)
        ensures
            final(self).actions@ == old(self).actions@.push(
                TrainingAction::Verification { offset, expected, actual, ok: actual == expected },
            ),
    {
        self.actions.push(
            TrainingAction::Verification { offset, expected, actual, ok: actual == expected },
        );
    }

    /// Count of register writes performed.
    pub fn write_count(&self) -> (r: usize)
        ensures
            r == self.actions@.filter(|a: TrainingAction| is_reg_write(a)).len(),
    {
        let mut n: usize = 0;
        let mut i: usize = 0;
        while i < self.actions.len()
            invariant
                i <= self.actions@.len(),
                n == self.actions@.subrange(0, i as int).filter(|a: TrainingAction| is_reg_write(a)).len(),
                n <= i,
            decreases self.actions.len() - i,
        {
            proof {
                assert(self.actions@.subrange(0, i + 1) =~= self.actions@.subrange(0, i as int).push(
                    self.actions@[i as int],
                ));
                self.actions@.subrange(0, i as int).lemma_filter_push(
                    self.actions@[i as int],
                    |a: TrainingAction| is_reg_write(a),
                );
            }
            if let TrainingAction::RegWrite { .. } = &self.actions[i] {
                n = n + 1;
            }
            i = i + 1;
        }
        proof {
            assert(self.actions@.subrange(0, self.actions@.len() as int) =~= self.actions@);
        }
        n
    }
}

// ── Training backends ───────────────────────────────────────────────────

/// Selects which backend drives the HBM2 training register writes.
#[derive(Debug, Clone)]
pub enum TrainingBackend {
    /// Execute VBIOS init scripts from the host CPU via BAR0.
    VbiosInterpreter { rom: Vec<u8> },
    /// Replay a captured register diff from an oracle card.
    DifferentialReplay { golden_state: Vec<(usize, u32)> },
    /// Upload DEVINIT firmware to the PMU FALCON and execute it.
    FalconUpload { rom: Vec<u8> },
}

// ── FBPA partition snapshot ─────────────────────────────────────────────

/// Snapshot of a single FBPA partition's key registers.
#[derive(Debug, Clone, Copy)]
pub struct FbpaSnapshot {
    pub index: usize,
    pub base: usize,
    pub cfg: u32,
    pub timing0: u32,
    pub timing1: u32,
    pub timing2: u32,
    pub alive: bool,
}

/// A value that means the register did not answer: all ones, the
/// read-failure marker, or a 0xBADFxxxx PRI fault.
pub open spec fn spec_fbpa_dead(v: u32) -> bool {
    v == 0xFFFF_FFFFu32 || v == 0xDEAD_DEADu32 || (v >> 16u32) == 0xBADFu32
}

fn fbpa_dead(v: u32) -> (r: bool)
    ensures
        r == spec_fbpa_dead(v),
{
    v == 0xFFFF_FFFF || v == 0xDEAD_DEAD || (v >> 16) == 0xBADF
}

/// Absolute offset of FBPA partition `i`, register `rel`.
pub open spec fn spec_fbpa_reg(i: int, rel: int) -> int {
    volta_hbm2::FBPA0_BASE + i * volta_hbm2::FBPA_STRIDE + rel
}

/// The partition count keeps every FBPA register offset inside `usize`.
pub open spec fn fbpa_count_ok(count: int) -> bool {
    0 <= count && volta_hbm2::FBPA0_BASE + count * volta_hbm2::FBPA_STRIDE <= usize::MAX
}

/// Read a register; a failed read gives 0xDEADDEAD.
fn read_or_dead<B: RegisterBus>(bar0: &mut Bar0<B>, reg: usize) -> (r: u32)
    ensures
        final(bar0).events() == old(bar0).events().push(
            BusEvent::Read { reg, result: final(bar0).events().last()->Read_result },
        ),
        r == match final(bar0).events().last()->Read_result {
            Some(v) => v,
            None => 0xDEAD_DEADu32,
        },
{
    match bar0.read(reg) {
        Ok(v) => v,
        Err(_) => 0xDEAD_DEAD,
    }
}

/// The snapshot of partition `i` is what the four reads from event `at`
/// gave (0xDEADDEAD for a failed read): CFG, TIMING0, TIMING1, TIMING2.
pub open spec fn fbpa_read_at(s: FbpaSnapshot, ev: Seq<BusEvent>, at: int, i: int) -> bool {
    &&& 0 <= at
    &&& at + 4 <= ev.len()
    &&& ev[at] is Read && ev[at]->Read_reg == spec_fbpa_reg(i, volta_hbm2::FBPA_CFG as int)
    &&& ev[at + 1] is Read && ev[at + 1]->Read_reg == spec_fbpa_reg(i, volta_hbm2::FBPA_TIMING0 as int)
    &&& ev[at + 2] is Read && ev[at + 2]->Read_reg == spec_fbpa_reg(i, volta_hbm2::FBPA_TIMING1 as int)
    &&& ev[at + 3] is Read && ev[at + 3]->Read_reg == spec_fbpa_reg(i, volta_hbm2::FBPA_TIMING2 as int)
    &&& s.cfg == read_value(ev[at], 0xDEAD_DEAD)
    &&& s.timing0 == read_value(ev[at + 1], 0xDEAD_DEAD)
    &&& s.timing1 == read_value(ev[at + 2], 0xDEAD_DEAD)
    &&& s.timing2 == read_value(ev[at + 3], 0xDEAD_DEAD)
}

/// Snapshot FBPA partitions `0..count`: for each, read CFG, TIMING0,
/// TIMING1 and TIMING2 (four reads, in that order); a partition is alive
/// when its CFG answers.
#[verifier::spinoff_prover]
pub fn snapshot_fbpa<B: RegisterBus>(bar0: &mut Bar0<B>, count: usize) -> (r: Vec<FbpaSnapshot>)
    requires
        fbpa_count_ok(count as int),
    ensures
        r@.len() == count,
        final(bar0).events().len() == old(bar0).events().len() + 4 * count,
        old(bar0).events().is_prefix_of(final(bar0).events()),
        forall|i: int|
            0 <= i < count ==> {
                let s = #[trigger] r@[i];
                &&& s.index == i
                &&& s.base == spec_fbpa_reg(i, 0)
                &&& s.alive == !spec_fbpa_dead(s.cfg)
                &&& fbpa_read_at(s, final(bar0).events(), old(bar0).events().len() + 4 * i, i)
            },
{
    let ghost e0 = bar0.events();
    proof {
        lemma_prefix_refl(e0);
    }
    let mut out: Vec<FbpaSnapshot> = Vec::new();
    let mut i: usize = 0;
    while i < count
        invariant
            fbpa_count_ok(count as int),
            i <= count,
            out@.len() == i,
            bar0.events().len() == e0.len() + 4 * i,
            e0.is_prefix_of(bar0.events()),
            forall|k: int|
                0 <= k < i ==> {
                    let s = #[trigger] out@[k];
                    &&& s.index == k
                    &&& s.base == spec_fbpa_reg(k, 0)
                    &&& s.alive == !spec_fbpa_dead(s.cfg)
                    &&& fbpa_read_at(s, bar0.events(), e0.len() + 4 * k, k)
                },
        decreases count - i,
    {
        let ghost f0 = bar0.events();
        proof {
            assert(i * volta_hbm2::FBPA_STRIDE <= count * volta_hbm2::FBPA_STRIDE) by (nonlinear_arith)
                requires
                    i <= count,
            ;
        }
        let base = volta_hbm2::fbpa_reg(i, FbpaOffset(0));
        let cfg = read_or_dead(bar0, volta_hbm2::fbpa_reg(i, FbpaOffset(volta_hbm2::FBPA_CFG)));
        let ghost f1 = bar0.events();
        let timing0 = read_or_dead(bar0, volta_hbm2::fbpa_reg(i, FbpaOffset(volta_hbm2::FBPA_TIMING0)));
        let ghost f2 = bar0.events();
        let timing1 = read_or_dead(bar0, volta_hbm2::fbpa_reg(i, FbpaOffset(volta_hbm2::FBPA_TIMING1)));
        let ghost f3 = bar0.events();
        let timing2 = read_or_dead(bar0, volta_hbm2::fbpa_reg(i, FbpaOffset(volta_hbm2::FBPA_TIMING2)));
        let ghost o0 = out@;
        out.push(
            FbpaSnapshot { index: i, base, cfg, timing0, timing1, timing2, alive: !fbpa_dead(cfg) },
        );
        proof {
            let f4 = bar0.events();
            assert(f1.is_prefix_of(f4));
            assert(f0.is_prefix_of(f4));
            assert(f4[e0.len() + 4 * i] == f1[f0.len() as int]);
            let n = e0.len() + 4 * i;
            assert(f4[n] == f1[n]);
            assert(f4[n + 1] == f2[n + 1]);
            assert(f4[n + 2] == f3[n + 2]);
            assert(fbpa_read_at(out@[i as int], f4, n, i as int));
            assert forall|k: int| 0 <= k < i + 1 implies {
                let s = #[trigger] out@[k];
                &&& s.index == k
                &&& s.base == spec_fbpa_reg(k, 0)
                &&& s.alive == !spec_fbpa_dead(s.cfg)
                &&& fbpa_read_at(s, f4, e0.len() + 4 * k, k)
            } by {
                if k < i {
                    assert(out@[k] == o0[k]);
                    let m = e0.len() + 4 * k;
                    assert(f4[m] == f0[m]);
                    assert(f4[m + 1] == f0[m + 1]);
                    assert(f4[m + 2] == f0[m + 2]);
                    assert(f4[m + 3] == f0[m + 3]);
                }
            }
        }
        i = i + 1;
    }
    out
}

/// Events `[i, j)` are one controller read of `reg`: the read, followed by
/// a PRI bus recovery when it returned a PRI fault.
pub open spec fn ctl_read(ev: Seq<BusEvent>, i: int, j: int, reg: usize) -> bool {
    &&& 0 <= i < j <= ev.len()
    &&& ev[i] is Read
    &&& ev[i]->Read_reg == reg
    &&& if spec_is_pri_error(read_value(ev[i], 0xDEAD_DEAD)) {
        pri_recovery_trace(ev.take(i + 1), ev.take(j))
    } else {
        j == i + 1
    }
}

/// Events `[i, j)` are one controller write of `val` to `reg`: a read of
/// the register, then the write unless that read returned a PRI fault.
pub open spec fn ctl_write(ev: Seq<BusEvent>, i: int, j: int, reg: usize, val: u32) -> bool {
    &&& 0 <= i < j <= ev.len()
    &&& ev[i] is Read
    &&& ev[i]->Read_reg == reg
    &&& if spec_is_pri_error(read_value(ev[i], 0xDEAD_DEAD)) {
        j == i + 1
    } else {
        j == i + 2 && ev[i + 1] == (BusEvent::Write { reg, val })
    }
}

/// Events `[i, j)` of the trace are a PRI bus recovery.
pub open spec fn recovery_at(ev: Seq<BusEvent>, i: int, j: int) -> bool {
    &&& 0 <= i <= j <= ev.len()
    &&& pri_recovery_trace(ev.take(i), ev.take(j))
}

/// What the accesses `[i, j)` of a trace were stays so as the trace grows.
pub proof fn lemma_ctl_steps_stable(a: Seq<BusEvent>, b: Seq<BusEvent>, i: int, j: int, reg: usize, val: u32)
    requires
        a.is_prefix_of(b),
        j <= a.len(),
    ensures
        ctl_read(a, i, j, reg) ==> ctl_read(b, i, j, reg),
        ctl_write(a, i, j, reg, val) ==> ctl_write(b, i, j, reg, val),
        recovery_at(a, i, j) ==> recovery_at(b, i, j),
{
    if 0 <= i <= j {
        assert(a.take(i) =~= b.take(i));
        assert(a.take(j) =~= b.take(j));
    }
    if 0 <= i < j {
        assert(a.take(i + 1) =~= b.take(i + 1));
        assert(a.take(j) =~= b.take(j));
        assert(a[i] == b[i]);
        if i + 1 < j {
            assert(a[i + 1] == b[i + 1]);
        }
    }
}

/// The four reads of a partition snapshot of partition `i` from event `at`:
/// CFG, TIMING0, TIMING1, TIMING2 (see [`fbpa_read_at`]).
pub open spec fn fbpa_reads(ev: Seq<BusEvent>, at: int, i: int) -> bool {
    &&& 0 <= at
    &&& at + 4 <= ev.len()
    &&& ev[at] is Read && ev[at]->Read_reg == spec_fbpa_reg(i, volta_hbm2::FBPA_CFG as int)
    &&& ev[at + 1] is Read && ev[at + 1]->Read_reg == spec_fbpa_reg(i, volta_hbm2::FBPA_TIMING0 as int)
    &&& ev[at + 2] is Read && ev[at + 2]->Read_reg == spec_fbpa_reg(i, volta_hbm2::FBPA_TIMING1 as int)
    &&& ev[at + 3] is Read && ev[at + 3]->Read_reg == spec_fbpa_reg(i, volta_hbm2::FBPA_TIMING2 as int)
}

/// From event `at` to the end of the trace, a snapshot of partitions
/// `0..count`, four reads each.
pub open spec fn fbpa_snapshot_tail(ev: Seq<BusEvent>, at: int, count: int) -> bool {
    &&& ev.len() == at + 4 * count
    &&& forall|i: int| 0 <= i < count ==> #[trigger] fbpa_reads(ev, at + 4 * i, i)
}

/// The bus accesses of DRAM initialisation from event `n`, split at the
/// points `a`: controller reads of CFG0, CFG1, MEM_STATUS and MEM_CTRL,
/// controller writes of zero to NISO_FLUSH_LO and NISO_FLUSH_HI, a 10 ms
/// wait, and a snapshot of the `count` partitions.
pub open spec fn dram_init_split(ev: Seq<BusEvent>, n: int, count: int, a: Seq<int>) -> bool {
    &&& a.len() == 7
    &&& a[0] == n
    &&& ctl_read(ev, a[0], a[1], volta_hbm2::PFB_CFG0)
    &&& ctl_read(ev, a[1], a[2], volta_hbm2::PFB_CFG1)
    &&& ctl_read(ev, a[2], a[3], volta_hbm2::PFB_MEM_STATUS)
    &&& ctl_read(ev, a[3], a[4], volta_hbm2::PFB_MEM_CTRL)
    &&& ctl_write(ev, a[4], a[5], volta_hbm2::PFB_NISO_FLUSH_LO, 0)
    &&& ctl_write(ev, a[5], a[6], volta_hbm2::PFB_NISO_FLUSH_HI, 0)
    &&& a[6] < ev.len()
    &&& ev[a[6]] == (BusEvent::Delay { us: 10_000 })
    &&& fbpa_snapshot_tail(ev, a[6] + 1, count)
}

/// The bus accesses from event `n` on are a DRAM initialisation of `count`
/// partitions (see [`dram_init_split`]).
pub open spec fn dram_init_trace(ev: Seq<BusEvent>, n: int, count: int) -> bool {
    exists|a: Seq<int>| #[trigger] dram_init_split(ev, n, count, a)
}

// ── The typestate controller ────────────────────────────────────────────

/// HBM2 memory controller whose phase is part of its type.
///
/// Each phase transition consumes `self` and returns the next phase. The
/// controller owns a [`Bar0`]; lend it one over `&mut` to a bus to keep the
/// bus afterwards.
pub struct Hbm2Controller<B: RegisterBus, S: Hbm2Phase> {
    bar0: Bar0<B>,
    bdf: Option<String>,
    fbpa_count: usize,
    ltc_count: usize,
    log: TrainingLog,
    backend: Option<TrainingBackend>,
    phase: PhantomData<S>,
}

impl<B: RegisterBus, S: Hbm2Phase> Hbm2Controller<B, S> {
    /// The actions logged so far.
    pub closed spec fn actions(&self) -> Seq<TrainingAction> {
        self.log.actions@
    }

    /// The bus accesses made so far.
    pub closed spec fn events(&self) -> Seq<BusEvent> {
        self.bar0.events()
    }

    /// Number of FBPA partitions the controller drives.
    pub closed spec fn partitions(&self) -> usize {
        self.fbpa_count
    }

    /// The training backend.
    pub closed spec fn spec_backend(&self) -> Option<TrainingBackend> {
        self.backend
    }

    /// The controller is well formed: its partition count keeps register
    /// offsets in range.
    pub closed spec fn wf(&self) -> bool {
        fbpa_count_ok(self.fbpa_count as int)
    }

    /// `self` is `old` after more work: same configuration, and the log and
    /// the bus trace only grew.
    pub open spec fn advanced_from<T: Hbm2Phase>(&self, old: &Hbm2Controller<B, T>) -> bool {
        &&& self.partitions() == old.partitions()
        &&& self.spec_backend() == old.spec_backend()
        &&& self.wf() == old.wf()
        &&& old.actions().is_prefix_of(self.actions())
        &&& old.events().is_prefix_of(self.events())
    }

    /// Read a register (0xDEADDEAD on failure). A PRI fault is logged and
    /// followed by a PRI bus recovery.
    fn r(&mut self, offset: usize) -> (v: u32)
        ensures
            final(self).advanced_from(&*old(self)),
            old(self).events().len() < final(self).events().len(),
            final(self).events()[old(self).events().len() as int] == (BusEvent::Read {
                reg: offset,
                result: final(self).events()[old(self).events().len() as int]->Read_result,
            }),
            v == match final(self).events()[old(self).events().len() as int]->Read_result {
                Some(x) => x,
                None => 0xDEAD_DEADu32,
            },
            final(self).actions() == if spec_is_pri_error(v) {
                old(self).actions().push(TrainingAction::RegRead { offset, value: v })
            } else {
                old(self).actions()
            },
            ctl_read(final(self).events(), old(self).events().len() as int, final(self).events().len() as int, offset),
    {
        let ghost e0 = self.bar0.events();
        let val = read_or_dead(&mut self.bar0, offset);
        let ghost e1 = self.bar0.events();
        proof {
            lemma_prefix_refl(self.log.actions@);
        }
        if is_pri_error(val) {
            self.log.log_read(offset, val);
            recover_pri_bus(&mut self.bar0);
            proof {
                let e2 = self.bar0.events();
                assert(e2[e0.len() as int] == e1[e0.len() as int]) by {
                    assert(e1[e0.len() as int] == e2.subrange(0, e1.len() as int)[e0.len() as int]);
                }
                assert(e2.take(e0.len() + 1int) =~= e1);
                assert(e2.take(e2.len() as int) =~= e2);
            }
        }
        val
    }

    /// Write a register after reading its old value; a PRI fault on the
    /// read skips the write. The write is logged either way, with the old
    /// value.
    fn w(&mut self, offset: usize, value: u32)
        ensures
            final(self).advanced_from(&*old(self)),
            final(self).actions() == old(self).actions().push(
                TrainingAction::RegWrite {
                    offset,
                    value,
                    old: match final(self).events()[old(self).events().len() as int]->Read_result {
                        Some(x) => x,
                        None => 0xDEAD_DEADu32,
                    },
                },
            ),
            final(self).events()[old(self).events().len() as int] is Read,
            final(self).events()[old(self).events().len() as int]->Read_reg == offset,
            final(self).events().len() == old(self).events().len() + if spec_is_pri_error(
                match final(self).events()[old(self).events().len() as int]->Read_result {
                    Some(x) => x,
                    None => 0xDEAD_DEADu32,
                },
            ) {
                1int
            } else {
                2int
            },
            !spec_is_pri_error(
                match final(self).events()[old(self).events().len() as int]->Read_result {
                    Some(x) => x,
                    None => 0xDEAD_DEADu32,
                },
            ) ==> final(self).events().last() == (BusEvent::Write { reg: offset, val: value }),
            ctl_write(
                final(self).events(),
                old(self).events().len() as int,
                final(self).events().len() as int,
                offset,
                value,
            ),
    {
        let ghost e0 = self.bar0.events();
        let old_val = read_or_dead(&mut self.bar0, offset);
        if is_pri_error(old_val) {
            self.log.log_write(offset, value, old_val);
            return ;
        }
        let _ = self.bar0.write(offset, value);
        self.log.log_write(offset, value, old_val);
    }

    /// Wait `ms` milliseconds, and log it.
    fn delay(&mut self, ms: u64)
        requires
            ms <= 1_000_000,
        ensures
            final(self).advanced_from(&*old(self)),
            final(self).actions() == old(self).actions().push(TrainingAction::Delay { ms }),
            final(self).events() == old(self).events().push(BusEvent::Delay { us: (ms * 1000) as u64 }),
    {
        self.log.log_delay(ms);
        self.bar0.delay(ms * 1000);
    }

    /// Attempt PRI bus recovery: clear PRIV_RING faults and the PMC
    /// interrupt.
    fn attempt_pri_recovery(&mut self)
        ensures
            final(self).advanced_from(&*old(self)),
            final(self).actions() == old(self).actions(),
            pri_recovery_trace(old(self).events(), final(self).events()),
    {
        proof {
            lemma_prefix_refl(self.log.actions@);
        }
        recover_pri_bus(&mut self.bar0);
    }

    /// Log a phase change.
    fn log_phase(&mut self, from: &str, to: &str)
        ensures
            final(self).partitions() == old(self).partitions(),
            final(self).spec_backend() == old(self).spec_backend(),
            final(self).wf() == old(self).wf(),
            final(self).events() == old(self).events(),
            final(self).actions().len() == old(self).actions().len() + 1,
            old(self).actions().is_prefix_of(final(self).actions()),
            final(self).actions().last() matches TrainingAction::PhaseTransition { from: f, to: t }
                && f@ == from@ && t@ == to@,
    {
        self.log.log_phase(from, to);
    }

    /// Carry everything over to phase `N`.
    fn transition<N: Hbm2Phase>(self) -> (r: Hbm2Controller<B, N>)
        ensures
            r.partitions() == self.partitions(),
            r.spec_backend() == self.spec_backend(),
            r.wf() == self.wf(),
            r.events() == self.events(),
            r.actions() == self.actions(),
    {
        Hbm2Controller {
            bar0: self.bar0,
            bdf: self.bdf,
            fbpa_count: self.fbpa_count,
            ltc_count: self.ltc_count,
            log: self.log,
            backend: self.backend,
            phase: PhantomData,
        }
    }

    /// Consume the controller at any phase and return the training log.
    pub fn into_log(self) -> (r: TrainingLog)
        ensures
            r.actions@ == self.actions(),
    {
        self.log
    }

    /// Consume the controller and give back its bus.
    pub fn into_bar0(self) -> (r: Bar0<B>)
        ensures
            r.events() == self.events(),
    {
        self.bar0
    }

    /// Sentinel write and readback at VRAM offset `vram_off`.
    fn probe_pramin(&mut self, vram_off: u32, sentinel: u32) -> (r: (bool, u32))
        ensures
            final(self).advanced_from(&*old(self)),
            final(self).actions() == old(self).actions(),
            pramin_probe_at(final(self).events(), old(self).events().len() as int, vram_off, sentinel),
            final(self).events().len() == old(self).events().len() + 3,
            r.1 == read_value(final(self).events()[old(self).events().len() as int + 2], 0xDEAD_DEAD),
            r.0 == (r.1 == sentinel),
    {
        proof {
            lemma_prefix_refl(self.log.actions@);
        }
        pramin_sentinel(&mut self.bar0, vram_off, sentinel)
    }

    /// VRAM answers the sentinel test at 0x26000.
    fn check_vram_accessible(&mut self) -> (ok: bool)
        ensures
            final(self).advanced_from(&*old(self)),
            final(self).actions() == old(self).actions(),
            final(self).events().len() == old(self).events().len() + 3,
            vram_probe_events(final(self).events(), old(self).events().len() as int),
            ok == vram_probe_passed(final(self).events(), old(self).events().len() as int),
    {
        let (ok, _) = self.probe_pramin(0x0002_6000, 0xCAFE_DEAD);
        assert(0x0002_6000u32 >> 16u32 == 2) by (bit_vector);
        assert(0x0002_6000u32 & 0xFFFFu32 == 0x6000) by (bit_vector);
        ok
    }
}

/// The three accesses of a PRAMIN sentinel test of `vram_off` from event
/// `at`: the window moved to the offset's 64 KiB block, the sentinel
/// written through it, and read back.
pub open spec fn pramin_probe_at(ev: Seq<BusEvent>, at: int, vram_off: u32, sentinel: u32) -> bool {
    &&& 0 <= at
    &&& at + 3 <= ev.len()
    &&& ev[at] == (BusEvent::Write { reg: volta_hbm2::BAR0_WINDOW, val: vram_off >> 16u32 })
    &&& ev[at + 1] == (BusEvent::Write {
        reg: (volta_hbm2::PRAMIN_BASE + (vram_off & 0xFFFFu32)) as usize,
        val: sentinel,
    })
    &&& ev[at + 2] is Read
    &&& ev[at + 2]->Read_reg == (volta_hbm2::PRAMIN_BASE + (vram_off & 0xFFFFu32)) as usize
}

/// The golden entries whose register lies in `[lo, hi)`, in order.
pub open spec fn window_entries(golden: Seq<(usize, u32)>, lo: usize, hi: usize) -> Seq<(usize, u32)>
    decreases golden.len(),
{
    if golden.len() == 0 {
        Seq::empty()
    } else {
        let rest = window_entries(golden.drop_last(), lo, hi);
        let e = golden.last();
        if lo <= e.0 && e.0 < hi {
            rest.push(e)
        } else {
            rest
        }
    }
}

/// The actions are the logged writes of `ws`, in order.
pub open spec fn writes_logged(acts: Seq<TrainingAction>, ws: Seq<(usize, u32)>) -> bool {
    &&& acts.len() == ws.len()
    &&& forall|j: int|
        0 <= j < ws.len() ==> (#[trigger] acts[j] matches TrainingAction::RegWrite { offset, value, .. }
            && offset == ws[j].0 && value == ws[j].1)
}

/// The log actions of a golden-state replay from domain `d` on: for each
/// replay domain with golden entries, their writes in order and a 50 ms
/// wait; after such a domain the replay may end (when `may_stop`) or go
/// on with the next domain.
pub open spec fn replay_actions(golden: Seq<(usize, u32)>, d: int, acts: Seq<TrainingAction>, may_stop: bool) -> bool
    decreases 5 - d,
{
    if d < 0 || d >= 5 {
        acts.len() == 0
    } else {
        let dom = spec_replay_domains()[d];
        let ws = window_entries(golden, dom.1, dom.2);
        if ws.len() == 0 {
            replay_actions(golden, d + 1, acts, may_stop)
        } else {
            &&& acts.len() >= ws.len() + 1
            &&& writes_logged(acts.take(ws.len() as int), ws)
            &&& acts[ws.len() as int] == (TrainingAction::Delay { ms: 50 })
            &&& ((may_stop && acts.len() == ws.len() + 1) || replay_actions(
                golden,
                d + 1,
                acts.skip(ws.len() as int + 1),
                may_stop,
            ))
        }
    }
}

/// A read-modify-write value: the bits of `cur` under `mask`, or'ed with
/// `val`.
pub open spec fn rmw(cur: u32, mask: u32, val: u32) -> u32 {
    (cur & mask) | val
}

/// The log actions of a script-scan link training over the script writes
/// `ws`: for each HBM2-critical write in order, a masked one logs the PRI
/// fault of its read (if any) and then its write of `(read & mask) | value`,
/// an unmasked one its write of `value`; other writes log nothing; last
/// comes the 100 ms wait.
pub open spec fn scan_actions(ws: Seq<ScriptRegWrite>, acts: Seq<TrainingAction>) -> bool
    decreases ws.len(),
{
    if ws.len() == 0 {
        acts == seq![TrainingAction::Delay { ms: 100 }]
    } else {
        let w = ws[0];
        let off = w.reg as usize;
        if !hbm2_critical(off as int) {
            scan_actions(ws.drop_first(), acts)
        } else {
            match w.mask {
                None => acts.len() >= 1 && (acts[0] matches TrainingAction::RegWrite { offset, value, .. }
                    && offset == off && value == w.value) && scan_actions(ws.drop_first(), acts.drop_first()),
                Some(m) => {
                    ||| acts.len() >= 1 && (acts[0] matches TrainingAction::RegWrite { offset, value, .. }
                        && offset == off && exists|c: u32| #[trigger] rmw(c, m, w.value) == value)
                        && scan_actions(ws.drop_first(), acts.drop_first())
                    ||| acts.len() >= 2 && (acts[0] matches TrainingAction::RegRead { offset, value: c }
                        && offset == off && (acts[1] matches TrainingAction::RegWrite {
                        offset: o2,
                        value: v2,
                        ..
                    } && o2 == off && v2 == rmw(c, m, w.value))) && scan_actions(
                        ws.drop_first(),
                        acts.subrange(2, acts.len() as int),
                    )
                },
            }
        }
    }
}

/// Write `sentinel` at VRAM offset `vram_off` through the PRAMIN window
/// (the window register takes the offset in 64 KiB units) and read it back.
/// Returns whether the readback matched, and the readback (0xDEADDEAD when
/// the read failed).
pub fn pramin_sentinel<B: RegisterBus>(bar0: &mut Bar0<B>, vram_off: u32, sentinel: u32) -> (r: (
    bool,
    u32,
))
    ensures
        old(bar0).events().is_prefix_of(final(bar0).events()),
        final(bar0).events().len() == old(bar0).events().len() + 3,
        final(bar0).events()[old(bar0).events().len() as int] == (BusEvent::Write {
            reg: volta_hbm2::BAR0_WINDOW,
            val: vram_off >> 16u32,
        }),
        final(bar0).events()[old(bar0).events().len() as int + 1] == (BusEvent::Write {
            reg: (volta_hbm2::PRAMIN_BASE + (vram_off & 0xFFFFu32)) as usize,
            val: sentinel,
        }),
        final(bar0).events()[old(bar0).events().len() as int + 2] is Read,
        final(bar0).events()[old(bar0).events().len() as int + 2]->Read_reg == (volta_hbm2::PRAMIN_BASE + (vram_off
            & 0xFFFFu32)) as usize,
        r.1 == read_value(final(bar0).events()[old(bar0).events().len() as int + 2], 0xDEAD_DEAD),
        r.0 == (r.1 == sentinel),
{
    let ghost e0 = bar0.events();
    let _ = bar0.write(volta_hbm2::BAR0_WINDOW, vram_off >> 16);
    let ghost e1 = bar0.events();
    let low = vram_off & 0xFFFF;
    proof {
        assert(vram_off & 0xFFFF <= 0xFFFF) by (bit_vector);
    }
    let addr = volta_hbm2::PRAMIN_BASE + low as usize;
    let _ = bar0.write(addr, sentinel);
    let ghost e2 = bar0.events();
    let readback = read_or_dead(bar0, addr);
    proof {
        assert(e1.is_prefix_of(bar0.events()));
        assert(bar0.events()[e0.len() as int] == e1[e0.len() as int]);
        assert(bar0.events()[e0.len() as int + 1] == e2[e0.len() as int + 1]);
    }
    (readback == sentinel, readback)
}

/// The domains `enable_phy` probes: name, register, and whether it is an
/// FBPA partition.
pub open spec fn spec_phy_probes() -> Seq<(&'static str, usize, bool)> {
    seq![
        ("PBUS", 0x001200usize, false),
        ("PFIFO", 0x002004usize, false),
        ("PFB", 0x100000usize, false),
        ("FBHUB", 0x100800usize, false),
        ("PFB_NISO", 0x100C80usize, false),
        ("PMU_FALCON", 0x10A000usize, false),
        ("LTC0", 0x17E200usize, false),
        ("FBPA0", 0x9A0000usize, true),
        ("FBPA1", 0x9A4000usize, true),
        ("FBPA2", 0x9A8000usize, true),
        ("FBPA3", 0x9AC000usize, true),
        ("PCLOCK", 0x137000usize, false),
    ]
}

fn phy_probes() -> (r: Vec<(&'static str, usize, bool)>)
    ensures
        r@ == spec_phy_probes(),
{
    let r = vec![
        ("PBUS", 0x001200usize, false),
        ("PFIFO", 0x002004usize, false),
        ("PFB", 0x100000usize, false),
        ("FBHUB", 0x100800usize, false),
        ("PFB_NISO", 0x100C80usize, false),
        ("PMU_FALCON", 0x10A000usize, false),
        ("LTC0", 0x17E200usize, false),
        ("FBPA0", 0x9A0000usize, true),
        ("FBPA1", 0x9A4000usize, true),
        ("FBPA2", 0x9A8000usize, true),
        ("FBPA3", 0x9AC000usize, true),
        ("PCLOCK", 0x137000usize, false),
    ];
    proof {
        assert(r@ =~= spec_phy_probes());
    }
    r
}

/// The (base, CFG) pairs of the snapshots.
fn snapshot_pairs(snaps: &Vec<FbpaSnapshot>) -> (r: Vec<(usize, u32)>)
    ensures
        r@ == snaps@.map_values(|s: FbpaSnapshot| (s.base, s.cfg)),
{
    let mut r: Vec<(usize, u32)> = Vec::new();
    let mut i: usize = 0;
    while i < snaps.len()
        invariant
            i <= snaps@.len(),
            r@ == snaps@.subrange(0, i as int).map_values(|s: FbpaSnapshot| (s.base, s.cfg)),
        decreases snaps.len() - i,
    {
        r.push((snaps[i].base, snaps[i].cfg));
        proof {
            assert(snaps@.subrange(0, i + 1) =~= snaps@.subrange(0, i as int).push(snaps@[i as int]));
            assert(r@ =~= snaps@.subrange(0, i + 1).map_values(|s: FbpaSnapshot| (s.base, s.cfg)));
        }
        i = i + 1;
    }
    proof {
        assert(snaps@.subrange(0, snaps@.len() as int) =~= snaps@);
    }
    r
}

impl<B: RegisterBus> Hbm2Controller<B, Untrained> {
    /// A controller in the Untrained state, with an empty log, no backend
    /// and six LTC partitions.
    pub fn new(bar0: Bar0<B>, bdf: Option<&str>, fbpa_count: usize) -> (r: Self)
        ensures
            r.actions().len() == 0,
            r.events() == bar0.events(),
            r.partitions() == fbpa_count,
            r.spec_backend() is None,
            r.wf() == fbpa_count_ok(fbpa_count as int),
    {
        let bdf_owned = match bdf {
            Some(b) => Some(String::from_str(b)),
            None => None,
        };
        Hbm2Controller {
            bar0,
            bdf: bdf_owned,
            fbpa_count,
            ltc_count: 6,
            log: TrainingLog::default(),
            backend: None,
            phase: PhantomData,
        }
    }

    /// Attach a training backend.
    pub fn with_backend(self, backend: TrainingBackend) -> (r: Self)
        ensures
            r.spec_backend() == Some(backend),
            r.actions() == self.actions(),
            r.events() == self.events(),
            r.partitions() == self.partitions(),
            r.wf() == self.wf(),
    {
        Hbm2Controller {
            bar0: self.bar0,
            bdf: self.bdf,
            fbpa_count: self.fbpa_count,
            ltc_count: self.ltc_count,
            log: self.log,
            backend: Some(backend),
            phase: PhantomData,
        }
    }
}

/// The phase change `from` → `to` is the first action logged after `n`
/// earlier ones.
pub open spec fn logged_transition(actions: Seq<TrainingAction>, n: int, from: &str, to: &str) -> bool {
    &&& n < actions.len()
    &&& actions[n] matches TrainingAction::PhaseTransition { from: f, to: t } && f@ == from@ && t@
        == to@
}

/// Some probed domain answered without a PRI fault, or some partition's
/// CFG answered.
pub open spec fn phy_alive(probes: Seq<u32>, cfgs: Seq<u32>) -> bool {
    ||| exists|k: int| 0 <= k < probes.len() && !spec_is_pri_error(#[trigger] probes[k])
    ||| exists|j: int| 0 <= j < cfgs.len() && !spec_fbpa_dead(#[trigger] cfgs[j])
}

/// Some FBPA partition among the PHY probes returned a PRI fault.
pub open spec fn fbpa_probe_faulted(probes: Seq<u32>) -> bool {
    exists|k: int|
        0 <= k < probes.len() && k < 12 && spec_phy_probes()[k].2 && spec_is_pri_error(#[trigger] probes[k])
}

/// The CFG values of partition snapshots.
pub open spec fn snapshot_cfg_values(snaps: Seq<FbpaSnapshot>) -> Seq<u32> {
    snaps.map_values(|s: FbpaSnapshot| s.cfg)
}

/// Whether the PHY came up, given the values the domain probes read and
/// the partition snapshots: it did when some probed domain answered
/// without a PRI fault or some partition is alive.
pub fn phy_came_up(probes: &Vec<u32>, snaps: &Vec<FbpaSnapshot>) -> (r: bool)
    ensures
        r == phy_alive(probes@, snapshot_cfg_values(snaps@)),
{
    let mut k: usize = 0;
    while k < probes.len()
        invariant
            k <= probes@.len(),
            forall|i: int| 0 <= i < k ==> spec_is_pri_error(probes@[i]),
        decreases probes.len() - k,
    {
        if !is_pri_error(probes[k]) {
            assert(!spec_is_pri_error(probes@[k as int]));
            return true;
        }
        k = k + 1;
    }
    let mut j: usize = 0;
    while j < snaps.len()
        invariant
            j <= snaps@.len(),
            forall|i: int| 0 <= i < probes@.len() ==> spec_is_pri_error(probes@[i]),
            forall|i: int| 0 <= i < j ==> spec_fbpa_dead(snaps@[i].cfg),
        decreases snaps.len() - j,
    {
        if !fbpa_dead(snaps[j].cfg) {
            assert(snapshot_cfg_values(snaps@)[j as int] == snaps@[j as int].cfg);
            return true;
        }
        j = j + 1;
    }
    proof {
        assert forall|i: int| 0 <= i < snaps@.len() implies spec_fbpa_dead(
            #[trigger] snapshot_cfg_values(snaps@)[i],
        ) by {
            assert(snapshot_cfg_values(snaps@)[i] == snaps@[i].cfg);
        }
    }
    false
}

/// The register snapshot of a failed PHY enabling: the CFG of each of the
/// `count` partitions, in order, none of which answered.
pub open spec fn all_partitions_dead(snapshot: Seq<(usize, u32)>, count: int) -> bool {
    &&& snapshot.len() == count
    &&& forall|k: int| 0 <= k < count ==> #[trigger] snapshot[k].0 == spec_fbpa_reg(k, 0) && spec_fbpa_dead(snapshot[k].1)
}

/// Where the partition snapshot of PHY enabling starts: after the partition
/// re-probe when an FBPA probe faulted, right after the domain probes
/// otherwise.
pub open spec fn phy_snapshot_start(a: Seq<int>, probes: Seq<u32>, count: int) -> int {
    if fbpa_probe_faulted(probes) {
        a[9] + count
    } else {
        a[4] + 13
    }
}

/// The CFG values of a partition snapshot from event `at`.
pub open spec fn snapshot_cfgs(ev: Seq<BusEvent>, at: int, count: int) -> Seq<u32> {
    Seq::new(count as nat, |j: int| read_value(ev[at + 4 * j], 0xDEAD_DEAD))
}

/// The bus accesses of PHY enabling from event `n`, split at the points
/// `a`, with `probes` the values the domain probes read: a controller read
/// of PMC_ENABLE, a controller write of 0xFFFFFFFF to it, a 50 ms wait, a
/// read of PMC_ENABLE, a PRI recovery, a 10 ms wait, then one read of each
/// probed domain in order. When an FBPA probe faulted: a PRI recovery, a
/// read of PMC_ENABLE (`cur`), writes of `cur` without and then with bit 8
/// (PFIFO) around a 20 ms wait, a 50 ms wait, a PRI recovery, and one read
/// of each partition's CFG. Last, the snapshot of the `count` partitions.
pub open spec fn phy_enable_split(ev: Seq<BusEvent>, n: int, count: int, a: Seq<int>, probes: Seq<u32>) -> bool {
    let q = a[4] + 13;
    let cur = read_value(ev[a[5]], 0xDEAD_DEAD);
    let s = phy_snapshot_start(a, probes, count);
    &&& a.len() == 10
    &&& probes.len() == 12
    &&& a[0] == n
    &&& ctl_read(ev, a[0], a[1], volta_hbm2::PMC_ENABLE)
    &&& ctl_write(ev, a[1], a[2], volta_hbm2::PMC_ENABLE, 0xFFFF_FFFF)
    &&& a[2] < ev.len() && ev[a[2]] == (BusEvent::Delay { us: 50_000 })
    &&& ctl_read(ev, a[2] + 1, a[3], volta_hbm2::PMC_ENABLE)
    &&& recovery_at(ev, a[3], a[4])
    &&& a[4] < ev.len() && ev[a[4]] == (BusEvent::Delay { us: 10_000 })
    &&& q <= ev.len()
    &&& forall|k: int|
        0 <= k < 12 ==> read_of(#[trigger] ev[a[4] + 1 + k], spec_phy_probes()[k].1, probes[k])
    &&& fbpa_probe_faulted(probes) ==> {
        &&& recovery_at(ev, q, a[5])
        &&& ctl_read(ev, a[5], a[6], volta_hbm2::PMC_ENABLE)
        &&& ctl_write(ev, a[6], a[7], volta_hbm2::PMC_ENABLE, cur & !0x100u32)
        &&& a[7] < ev.len() && ev[a[7]] == (BusEvent::Delay { us: 20_000 })
        &&& ctl_write(ev, a[7] + 1, a[8], volta_hbm2::PMC_ENABLE, cur | 0x100u32)
        &&& a[8] < ev.len() && ev[a[8]] == (BusEvent::Delay { us: 50_000 })
        &&& recovery_at(ev, a[8] + 1, a[9])
        &&& a[9] + count <= ev.len()
        &&& forall|k: int|
            0 <= k < count ==> (#[trigger] ev[a[9] + k]) is Read && ev[a[9] + k]->Read_reg == spec_fbpa_reg(k, 0)
    }
    &&& s + 4 * count <= ev.len()
    &&& forall|i: int| 0 <= i < count ==> #[trigger] fbpa_reads(ev, s + 4 * i, i)
}

/// The accesses from event `n` to the end of the trace are a PHY enabling
/// of `count` partitions (see [`phy_enable_split`]) after which the PHY
/// came up: some probed domain or some partition answered.
pub open spec fn phy_enabled_trace(ev: Seq<BusEvent>, n: int, count: int) -> bool {
    exists|a: Seq<int>, probes: Seq<u32>|
        {
            &&& #[trigger] phy_enable_split(ev, n, count, a, probes)
            &&& ev.len() == phy_snapshot_start(a, probes, count) + 4 * count
            &&& phy_alive(probes, snapshot_cfgs(ev, phy_snapshot_start(a, probes, count), count))
        }
}

impl<B: RegisterBus> Hbm2Controller<B, Untrained> {
    /// Phase 1: enable all engines in PMC, recover the PRI bus, and probe
    /// the HBM2-critical domains (PBUS, PFIFO, PFB, FBHUB, PFB_NISO, PMU,
    /// LTC0, FBPA0-3, PCLOCK). If an FBPA partition faulted, cycle PMC bit
    /// 8 (PFIFO) and re-probe the partitions. Then snapshot the FBPA
    /// partitions. Fails only when no probed domain and no partition answered.
    pub fn enable_phy(self) -> (r: Result<Hbm2Controller<B, PhyUp>, Hbm2TrainingError>)
        requires
            self.wf(),
        ensures
            match r {
                Ok(c) => c.advanced_from(&self) && logged_transition(
                    c.actions(),
                    self.actions().len() as int,
                    "Untrained",
                    "PhyUp",
                ) && phy_enabled_trace(c.events(), self.events().len() as int, self.partitions() as int),
                Err(e) => e.phase == "enable_phy" && all_partitions_dead(
                    e.register_snapshot@,
                    self.partitions() as int,
                ),
            },
    {
        match self.enable_phy_keeping_log() {
            Ok(c) => Ok(c),
            Err((e, _)) => Err(e),
        }
    }

    /// [`Self::enable_phy`], keeping on failure the log of the attempt so far.
    #[verifier::spinoff_prover]
    #[verifier::rlimit(60)]
    fn enable_phy_keeping_log(self) -> (r: Result<Hbm2Controller<B, PhyUp>, (Hbm2TrainingError, TrainingLog)>)
        requires
            self.wf(),
        ensures
            match r {
                Ok(c) => c.advanced_from(&self) && logged_transition(
                    c.actions(),
                    self.actions().len() as int,
                    "Untrained",
                    "PhyUp",
                ) && phy_enabled_trace(c.events(), self.events().len() as int, self.partitions() as int),
                Err((e, log)) => e.phase == "enable_phy" && self.actions().is_prefix_of(log.actions@)
                    && logged_transition(log.actions@, self.actions().len() as int, "Untrained", "PhyUp")
                    && all_partitions_dead(e.register_snapshot@, self.partitions() as int),
            },
    {
        broadcast use crate::bus::lemma_prefix_chain, Seq::lemma_prefix_index_eq;

        let mut c = self;
        c.log_phase("Untrained", "PhyUp");
        let ghost start = c;
        let ghost a0 = c.events().len() as int;
        let _pmc_before = c.r(volta_hbm2::PMC_ENABLE);
        let ghost (e1, a1) = (c.events(), c.events().len() as int);
        c.w(volta_hbm2::PMC_ENABLE, 0xFFFF_FFFF);
        let ghost (e2, a2) = (c.events(), c.events().len() as int);
        c.delay(50);
        let ghost e2d = c.events();
        let _pmc_after = c.r(volta_hbm2::PMC_ENABLE);
        let ghost (e3, a3) = (c.events(), c.events().len() as int);
        c.attempt_pri_recovery();
        let ghost (e4, a4) = (c.events(), c.events().len() as int);
        proof {
            assert(e3 =~= e4.take(a3));
            assert(e4 =~= e4.take(a4));
        }
        c.delay(10);
        let ghost e4d = c.events();
        let probes = phy_probes();
        let mut probe_values: Vec<u32> = Vec::new();
        let mut fbpa_dead_seen = false;
        let mut i: usize = 0;
        while i < probes.len()
            invariant
                probes@ == spec_phy_probes(),
                i <= probes@.len(),
                c.advanced_from(&start),
                probe_values@.len() == i,
                e4d.is_prefix_of(c.events()),
                c.events().len() == e4d.len() + i,
                forall|k: int|
                    0 <= k < i ==> read_of(
                        #[trigger] c.events()[e4d.len() + k],
                        spec_phy_probes()[k].1,
                        probe_values@[k],
                    ),
                fbpa_dead_seen == fbpa_probe_faulted(probe_values@),
            decreases probes.len() - i,
        {
            let (_name, off, is_fbpa) = probes[i];
            let ghost f0 = c.events();
            let ghost p0 = probe_values@;
            let val = read_or_dead(&mut c.bar0, off);
            if is_pri_error(val) {
                if is_fbpa {
                    fbpa_dead_seen = true;
                }
            }
            probe_values.push(val);
            c.log.log_read(off, val);
            proof {
                let f1 = c.events();
                assert forall|k: int| 0 <= k < i + 1 implies read_of(
                    #[trigger] f1[e4d.len() + k],
                    spec_phy_probes()[k].1,
                    probe_values@[k],
                ) by {
                    if k < i {
                        assert(f1[e4d.len() + k] == f0[e4d.len() + k]);
                        assert(probe_values@[k] == p0[k]);
                    }
                }
                if fbpa_dead_seen {
                    if !fbpa_probe_faulted(p0) {
                        assert(spec_is_pri_error(probe_values@[i as int]));
                    } else {
                        let k = choose|k: int|
                            0 <= k < p0.len() && k < 12 && spec_phy_probes()[k].2 && spec_is_pri_error(
                                #[trigger] p0[k],
                            );
                        assert(probe_values@[k] == p0[k]);
                    }
                } else {
                    assert forall|k: int|
                        0 <= k < probe_values@.len() && k < 12 && spec_phy_probes()[k].2 implies !spec_is_pri_error(
                        #[trigger] probe_values@[k],
                    ) by {
                        if k < i {
                            assert(probe_values@[k] == p0[k]);
                        }
                    }
                }
            }
            i = i + 1;
        }
        let ghost (eq, q) = (c.events(), c.events().len() as int);
        let ghost mut a5: int = q;
        let ghost mut a6: int = q;
        let ghost mut a7: int = q;
        let ghost mut a8: int = q;
        let ghost mut a9: int = q;
        let ghost mut f5: Seq<BusEvent> = eq;
        let ghost mut f6: Seq<BusEvent> = eq;
        let ghost mut f7: Seq<BusEvent> = eq;
        let ghost mut f8: Seq<BusEvent> = eq;
        let ghost mut f9: Seq<BusEvent> = eq;
        let ghost mut cur: u32 = 0;
        if fbpa_dead_seen {
            c.attempt_pri_recovery();
            proof {
                a5 = c.events().len() as int;
                f5 = c.events();
                assert(eq =~= f5.take(q));
                assert(f5 =~= f5.take(a5));
            }
            let pmc_cur = c.r(volta_hbm2::PMC_ENABLE);
            proof {
                a6 = c.events().len() as int;
                f6 = c.events();
                cur = pmc_cur;
            }
            c.w(volta_hbm2::PMC_ENABLE, pmc_cur & !0x100u32);
            proof {
                a7 = c.events().len() as int;
                f7 = c.events();
            }
            c.delay(20);
            c.w(volta_hbm2::PMC_ENABLE, pmc_cur | 0x100u32);
            proof {
                a8 = c.events().len() as int;
                f8 = c.events();
            }
            c.delay(50);
            let ghost f8d = c.events();
            c.attempt_pri_recovery();
            proof {
                a9 = c.events().len() as int;
                f9 = c.events();
                assert(f8d =~= f9.take(a8 + 1));
                assert(f9 =~= f9.take(a9));
            }
            let mut k: usize = 0;
            while k < c.fbpa_count
                invariant
                    c.advanced_from(&start),
                    c.wf(),
                    k <= c.fbpa_count,
                    f9.is_prefix_of(c.events()),
                    c.events().len() == a9 + k,
                    a9 == f9.len(),
                    forall|j: int|
                        0 <= j < k ==> (#[trigger] c.events()[a9 + j]) is Read && c.events()[a9
                            + j]->Read_reg == spec_fbpa_reg(j, 0),
                decreases c.fbpa_count - k,
            {
                proof {
                    assert(k * volta_hbm2::FBPA_STRIDE <= c.fbpa_count * volta_hbm2::FBPA_STRIDE)
                        by (nonlinear_arith)
                        requires
                            k <= c.fbpa_count,
                    ;
                }
                let ghost g0 = c.events();
                let _ = read_or_dead(&mut c.bar0, volta_hbm2::fbpa_reg(k, FbpaOffset(0)));
                proof {
                    assert forall|j: int| 0 <= j < k + 1 implies (#[trigger] c.events()[a9 + j]) is Read
                        && c.events()[a9 + j]->Read_reg == spec_fbpa_reg(j, 0) by {
                        if j < k {
                            assert(c.events()[a9 + j] == g0[a9 + j]);
                        }
                    }
                }
                k = k + 1;
            }
        }
        let ghost es = c.events();
        let snaps = snapshot_fbpa(&mut c.bar0, c.fbpa_count);
        let ghost ev = c.events();
        let up = phy_came_up(&probe_values, &snaps);
        let mut j: usize = 0;
        while j < snaps.len()
            invariant
                c.advanced_from(&start),
                c.events() == ev,
                j <= snaps@.len(),
            decreases snaps.len() - j,
        {
            c.log.log_read(snaps[j].base, snaps[j].cfg);
            j = j + 1;
        }
        if !up {
            let pmc = c.r(volta_hbm2::PMC_ENABLE);
            let mut detail = String::from_str("No domains came alive after full PMC enable. PMC=");
            crate::text::push_hex8(&mut detail, pmc);
            let err = Hbm2TrainingError {
                    phase: "enable_phy",
                    detail,
                    register_snapshot: snapshot_pairs(&snaps),
            };
            proof {
                assert(start.actions()[self.actions().len() as int] == c.actions()[self.actions().len() as int]);
                let rs = err.register_snapshot@;
                assert forall|k: int| 0 <= k < rs.len() implies #[trigger] rs[k].0 == spec_fbpa_reg(k, 0)
                    && spec_fbpa_dead(rs[k].1) by {
                    assert(rs[k] == (snaps@[k].base, snaps@[k].cfg));
                    assert(snapshot_cfg_values(snaps@)[k] == snaps@[k].cfg);
                }
            }
            return Err((err, c.log));
        }
        proof {
            assert(start.actions()[self.actions().len() as int] == c.actions()[self.actions().len() as int]);
            let n = self.events().len() as int;
            let count = self.partitions() as int;
            let av = seq![a0, a1, a2, a3, a4, a5, a6, a7, a8, a9];
            let pv = probe_values@;
            lemma_ctl_steps_stable(e1, ev, a0, a1, volta_hbm2::PMC_ENABLE, 0);
            lemma_ctl_steps_stable(e2, ev, a1, a2, volta_hbm2::PMC_ENABLE, 0xFFFF_FFFF);
            assert(ev[a2] == e2d[a2]);
            lemma_ctl_steps_stable(e3, ev, a2 + 1, a3, volta_hbm2::PMC_ENABLE, 0);
            lemma_ctl_steps_stable(e4, ev, a3, a4, volta_hbm2::PMC_ENABLE, 0);
            assert(ev[a4] == e4d[a4]);
            assert forall|k: int| 0 <= k < 12 implies read_of(
                #[trigger] ev[a4 + 1 + k],
                spec_phy_probes()[k].1,
                pv[k],
            ) by {
                assert(ev[a4 + 1 + k] == eq[e4d.len() + k]);
            }
            if fbpa_dead_seen {
                lemma_ctl_steps_stable(f5, ev, q, a5, volta_hbm2::PMC_ENABLE, 0);
                lemma_ctl_steps_stable(f6, ev, a5, a6, volta_hbm2::PMC_ENABLE, 0);
                lemma_ctl_steps_stable(f7, ev, a6, a7, volta_hbm2::PMC_ENABLE, cur & !0x100u32);
                lemma_ctl_steps_stable(f8, ev, a7 + 1, a8, volta_hbm2::PMC_ENABLE, cur | 0x100u32);
                lemma_ctl_steps_stable(f9, ev, a8 + 1, a9, volta_hbm2::PMC_ENABLE, 0);
                assert(cur == read_value(ev[a5], 0xDEAD_DEAD));
                assert forall|k: int| 0 <= k < count implies (#[trigger] ev[a9 + k]) is Read
                    && ev[a9 + k]->Read_reg == spec_fbpa_reg(k, 0) by {
                    assert(ev[a9 + k] == es[a9 + k]);
                }
            }
            let st = phy_snapshot_start(av, pv, count);
            assert(st == es.len());
            assert forall|i: int| 0 <= i < count implies #[trigger] fbpa_reads(ev, st + 4 * i, i) by {
                assert(fbpa_read_at(snaps@[i], ev, es.len() + 4 * i, i));
            }
            assert(phy_enable_split(ev, n, count, av, pv));
            assert forall|k: int| 0 <= k < count implies snapshot_cfgs(ev, st, count)[k] == snapshot_cfg_values(
                snaps@,
            )[k] by {
                assert(fbpa_read_at(snaps@[k], ev, es.len() + 4 * k, k));
            }
            assert(snapshot_cfgs(ev, st, count) =~= snapshot_cfg_values(snaps@));
        }
        Ok(c.transition())
    }
}

/// The register lies in a domain that HBM2 link training programs: the
/// four FBPA partitions, the six LTC partitions, PFB, CLK or PCLOCK.
pub open spec fn hbm2_critical(reg: int) -> bool {
    ||| volta_hbm2::FBPA0_BASE <= reg < volta_hbm2::FBPA0_BASE + volta_hbm2::FBPA_COUNT
        * volta_hbm2::FBPA_STRIDE
    ||| volta_hbm2::LTC_BASE <= reg < volta_hbm2::LTC_BASE + volta_hbm2::LTC_COUNT
        * volta_hbm2::LTC_STRIDE
    ||| volta_hbm2::PFB_BASE <= reg < volta_hbm2::PFB_BASE + 0x2000
    ||| volta_hbm2::CLK_BASE <= reg < volta_hbm2::CLK_BASE + 0x1000
    ||| volta_hbm2::PCLOCK_BASE <= reg < volta_hbm2::PCLOCK_BASE + 0x1000
}

fn is_hbm2_critical(reg: usize) -> (r: bool)
    ensures
        r == hbm2_critical(reg as int),
{
    (reg >= volta_hbm2::FBPA0_BASE && reg < volta_hbm2::FBPA0_BASE + volta_hbm2::FBPA_COUNT
        * volta_hbm2::FBPA_STRIDE) || (reg >= volta_hbm2::LTC_BASE && reg < volta_hbm2::LTC_BASE
        + volta_hbm2::LTC_COUNT * volta_hbm2::LTC_STRIDE) || (reg >= volta_hbm2::PFB_BASE && reg
        < volta_hbm2::PFB_BASE + 0x2000) || (reg >= volta_hbm2::CLK_BASE && reg < volta_hbm2::CLK_BASE
        + 0x1000) || (reg >= volta_hbm2::PCLOCK_BASE && reg < volta_hbm2::PCLOCK_BASE + 0x1000)
}

/// The golden-state replay order: FBPA, LTC, PCLOCK, CLK, PFB, as
/// half-open register ranges.
pub open spec fn spec_replay_domains() -> Seq<(&'static str, usize, usize)> {
    seq![
        ("FBPA", 0x9A0000usize, 0x9B0000usize),
        ("LTC", 0x17E000usize, 0x18A000usize),
        ("PCLOCK", 0x137000usize, 0x138000usize),
        ("CLK", 0x132000usize, 0x133000usize),
        ("PFB", 0x100000usize, 0x102000usize),
    ]
}

fn replay_domains() -> (r: Vec<(&'static str, usize, usize)>)
    ensures
        r@ == spec_replay_domains(),
{
    let r = vec![
        ("FBPA", 0x9A0000usize, 0x9B0000usize),
        ("LTC", 0x17E000usize, 0x18A000usize),
        ("PCLOCK", 0x137000usize, 0x138000usize),
        ("CLK", 0x132000usize, 0x133000usize),
        ("PFB", 0x100000usize, 0x102000usize),
    ];
    proof {
        assert(r@ =~= spec_replay_domains());
    }
    r
}

/// What link training through `backend` logged, `acts` being the actions
/// after the phase change: the VBIOS interpreter backend logs only its
/// 100 ms wait when the interpreter ran, or else the script-scan writes;
/// the golden-state replay logs its writes domain by domain (see
/// [`replay_actions`]). Nothing is stated here of the other backends.
pub open spec fn backend_actions(backend: Option<TrainingBackend>, acts: Seq<TrainingAction>) -> bool {
    match backend {
        Some(TrainingBackend::VbiosInterpreter { rom }) => acts == seq![TrainingAction::Delay { ms: 100 }]
            || (spec_extract_boot_script_writes(rom@) matches Ok(ws) && scan_actions(ws, acts)),
        Some(TrainingBackend::DifferentialReplay { golden_state }) => replay_actions(
            golden_state@,
            0,
            acts,
            true,
        ),
        _ => true,
    }
}

/// Link training through `backend` cannot fail: the golden-state replay
/// never does, and the VBIOS interpreter backend does not when the boot
/// scripts' writes can be extracted from its image.
pub open spec fn backend_cannot_fail(backend: Option<TrainingBackend>) -> bool {
    match backend {
        Some(TrainingBackend::VbiosInterpreter { rom }) => spec_extract_boot_script_writes(rom@) is Ok,
        Some(TrainingBackend::DifferentialReplay { .. }) => true,
        _ => false,
    }
}

impl<B: RegisterBus> Hbm2Controller<B, PhyUp> {
    /// Phase 2: HBM2 PHY link training through the selected backend (VBIOS
    /// interpreter, golden-state replay, FALCON DEVINIT upload, or, with no
    /// backend, the VBIOS read from the PROM), then a snapshot of the FBPA
    /// partitions.
    pub fn train_links(self) -> (r: Result<Hbm2Controller<B, LinkTrained>, Hbm2TrainingError>)
        requires
            self.wf(),
        ensures
            match r {
                Ok(c) => c.advanced_from(&self) && logged_transition(
                    c.actions(),
                    self.actions().len() as int,
                    "PhyUp",
                    "LinkTrained",
                ) && backend_actions(self.spec_backend(), c.actions().skip(self.actions().len() + 1int))
                    && c.events().len() >= self.events().len() + 4 * self.partitions() && fbpa_snapshot_tail(
                    c.events(),
                    c.events().len() - 4 * self.partitions(),
                    self.partitions() as int,
                ),
                Err(e) => e.phase == "train_links" && !backend_cannot_fail(self.spec_backend()),
            },
    {
        match self.train_links_keeping_log() {
            Ok(c) => Ok(c),
            Err((e, _)) => Err(e),
        }
    }

    /// [`Self::train_links`], keeping on failure the log of the attempt so far.
    fn train_links_keeping_log(self) -> (r: Result<Hbm2Controller<B, LinkTrained>, (Hbm2TrainingError, TrainingLog)>)
        requires
            self.wf(),
        ensures
            match r {
                Ok(c) => c.advanced_from(&self) && logged_transition(
                    c.actions(),
                    self.actions().len() as int,
                    "PhyUp",
                    "LinkTrained",
                ) && backend_actions(self.spec_backend(), c.actions().skip(self.actions().len() + 1int))
                    && c.events().len() >= self.events().len() + 4 * self.partitions() && fbpa_snapshot_tail(
                    c.events(),
                    c.events().len() - 4 * self.partitions(),
                    self.partitions() as int,
                ),
                Err((e, log)) => e.phase == "train_links" && self.actions().is_prefix_of(log.actions@)
                    && logged_transition(log.actions@, self.actions().len() as int, "PhyUp", "LinkTrained")
                    && !backend_cannot_fail(self.spec_backend()),
            },
    {
        let mut c = self;
        c.log_phase("PhyUp", "LinkTrained");
        let ghost start = c;
        let backend = c.backend.take();
        let ghost mid = c;
        let res = match &backend {
            Some(TrainingBackend::VbiosInterpreter { rom }) => c.train_links_vbios(rom.as_slice()),
            Some(TrainingBackend::DifferentialReplay { golden_state }) => c.train_links_replay(golden_state),
            Some(TrainingBackend::FalconUpload { rom }) => c.train_links_falcon(rom.as_slice()),
            None => c.train_links_auto(),
        };
        c.backend = backend;
        let ghost n1 = self.actions().len() + 1int;
        proof {
            assert(c.actions().skip(n1) =~= c.actions().skip(mid.actions().len() as int));
        }
        match res {
            Ok(()) => {},
            Err(e) => {
                proof {
                    assert(start.actions()[self.actions().len() as int] == c.actions()[self.actions().len() as int]);
                }
                return Err((e, c.log));
            },
        }
        let ghost e1 = c.events();
        let snaps = snapshot_fbpa(&mut c.bar0, c.fbpa_count);
        proof {
            assert(start.actions()[self.actions().len() as int] == c.actions()[self.actions().len() as int]);
            let ev = c.events();
            assert forall|i: int| 0 <= i < self.partitions() implies #[trigger] fbpa_reads(
                ev,
                e1.len() + 4 * i,
                i,
            ) by {
                assert(fbpa_read_at(snaps@[i], ev, e1.len() + 4 * i, i));
            }
        }
        Ok(c.transition())
    }

    /// Run the VBIOS init scripts with the interpreter; if it fails, apply
    /// the HBM2-critical writes that a script scan finds.
    fn train_links_vbios(&mut self, rom: &[u8]) -> (r: Result<(), Hbm2TrainingError>)
        ensures
            final(self).advanced_from(&*old(self)),
            r matches Err(e) ==> e.phase == "train_links",
            r is Err ==> spec_extract_boot_script_writes(rom@) is Err,
            spec_extract_boot_script_writes(rom@) is Ok ==> r is Ok,
            r is Ok ==> final(self).actions().skip(old(self).actions().len() as int) == seq![
                TrainingAction::Delay { ms: 100 },
            ] || (spec_extract_boot_script_writes(rom@) matches Ok(ws) && scan_actions(
                ws,
                final(self).actions().skip(old(self).actions().len() as int),
            )),
    {
        let ghost e0 = self.bar0.events();
        proof {
            lemma_prefix_refl(self.log.actions@);
        }
        let fits = rom.len() <= isize::MAX as usize;
        if fits {
            if let Ok(_stats) = interpret_boot_scripts(&mut self.bar0, rom) {
                proof {
                    crate::devinit_interp::lemma_extends_is_prefix(e0, self.bar0.events());
                }
                let ghost a1 = self.actions();
                self.delay(100);
                proof {
                    assert(a1 == old(self).actions());
                    assert(self.actions().skip(a1.len() as int) =~= seq![TrainingAction::Delay { ms: 100 }]);
                }
                return Ok(());
            }
            proof {
                crate::devinit_interp::lemma_extends_is_prefix(e0, self.bar0.events());
            }
        }
        self.train_links_script_scan(rom)
    }

    /// Apply the HBM2-critical writes of the boot scripts, in script order:
    /// masked writes as read-modify-write, the others directly.
    fn train_links_script_scan(&mut self, rom: &[u8]) -> (r: Result<(), Hbm2TrainingError>)
        ensures
            final(self).advanced_from(&*old(self)),
            r matches Err(e) ==> e.phase == "train_links",
            r is Err <==> spec_extract_boot_script_writes(rom@) is Err,
            spec_extract_boot_script_writes(rom@) matches Ok(ws) ==> scan_actions(
                ws,
                final(self).actions().skip(old(self).actions().len() as int),
            ),
    {
        proof {
            lemma_prefix_refl(self.log.actions@);
            lemma_prefix_refl(self.bar0.events());
        }
        let writes = match extract_boot_script_writes(rom) {
            Ok(w) => w,
            Err(e) => {
                let mut detail = String::from_str("VBIOS script extraction: ");
                detail.append(e.describe());
                return Err(
                    Hbm2TrainingError {
                        phase: "train_links",
                        detail,
                        register_snapshot: Vec::new(),
                    },
                );
            },
        };
        let ghost start = *self;
        let ghost a0 = self.actions();
        let ghost ws = writes@;
        proof {
            assert(ws.subrange(0, ws.len() as int) =~= ws);
            assert(self.actions().skip(a0.len() as int) =~= Seq::<TrainingAction>::empty());
            assert forall|rest: Seq<TrainingAction>| scan_actions(ws.subrange(0, ws.len() as int), rest) implies scan_actions(
                ws,
                self.actions().skip(a0.len() as int) + rest,
            ) by {
                assert(self.actions().skip(a0.len() as int) + rest =~= rest);
            }
        }
        let mut i: usize = 0;
        while i < writes.len()
            invariant
                self.advanced_from(&start),
                start.actions() == a0,
                ws == writes@,
                i <= writes@.len(),
                forall|rest: Seq<TrainingAction>|
                    scan_actions(ws.subrange(i as int, ws.len() as int), rest) ==> scan_actions(
                        ws,
                        #[trigger] (self.actions().skip(a0.len() as int) + rest),
                    ),
            decreases writes.len() - i,
        {
            let wr = writes[i];
            let off = wr.reg as usize;
            let ghost before = self.actions();
            if is_hbm2_critical(off) {
                match wr.mask {
                    Some(mask) => {
                        let cur = self.r(off);
                        self.w(off, (cur & mask) | wr.value);
                        proof {
                            assert(rmw(cur, mask, wr.value) == (cur & mask) | wr.value);
                        }
                    },
                    None => {
                        self.w(off, wr.value);
                    },
                }
            }
            proof {
                let after = self.actions();
                let seg = after.skip(before.len() as int);
                assert(after =~= before + seg);
                assert(after.skip(a0.len() as int) =~= before.skip(a0.len() as int) + seg);
                let tail = ws.subrange(i + 1, ws.len() as int);
                let here = ws.subrange(i as int, ws.len() as int);
                assert(here[0] == ws[i as int]);
                assert(here.drop_first() =~= tail);
                assert forall|rest: Seq<TrainingAction>| scan_actions(tail, rest) implies scan_actions(
                    ws,
                    #[trigger] (after.skip(a0.len() as int) + rest),
                ) by {
                    if seg.len() == 1 {
                        assert((seg + rest).drop_first() =~= rest);
                    }
                    if seg.len() == 2 {
                        assert((seg + rest).subrange(2, (seg + rest).len() as int) =~= rest);
                    }
                    if seg.len() == 0 {
                        assert(seg + rest =~= rest);
                    }
                    assert(scan_actions(here, seg + rest));
                    assert(before.skip(a0.len() as int) + (seg + rest) =~= after.skip(a0.len() as int) + rest);
                }
            }
            i = i + 1;
        }
        let ghost pre = self.actions();
        self.delay(100);
        proof {
            let last = seq![TrainingAction::Delay { ms: 100 }];
            assert(ws.subrange(ws.len() as int, ws.len() as int) =~= Seq::<ScriptRegWrite>::empty());
            assert(scan_actions(ws.subrange(ws.len() as int, ws.len() as int), last));
            assert(self.actions().skip(a0.len() as int) =~= pre.skip(a0.len() as int) + last);
        }
        Ok(())
    }

    /// Replay the golden state domain by domain (FBPA, LTC, PCLOCK, CLK,
    /// PFB), 50 ms after each domain, stopping once VRAM answers.
    fn train_links_replay(&mut self, golden: &Vec<(usize, u32)>) -> (r: Result<(), Hbm2TrainingError>)
        ensures
            final(self).advanced_from(&*old(self)),
            r is Ok,
            replay_actions(golden@, 0, final(self).actions().skip(old(self).actions().len() as int), true),
            replay_actions(golden@, 0, final(self).actions().skip(old(self).actions().len() as int), false)
                || (final(self).events().len() >= old(self).events().len() + 3 && vram_probe_passed(
                final(self).events(),
                final(self).events().len() - 3,
            )),
    {
        proof {
            lemma_prefix_refl(self.log.actions@);
            lemma_prefix_refl(self.bar0.events());
        }
        let ghost start = *self;
        let ghost a0 = self.actions().len() as int;
        let ghost g = golden@;
        let domains = replay_domains();
        proof {
            assert forall|rest: Seq<TrainingAction>, b: bool| replay_actions(g, 0, rest, b) implies #[trigger] replay_actions(
                g,
                0,
                (self.actions().skip(a0) + rest),
                b,
            ) by {
                assert(self.actions().skip(a0) + rest =~= rest);
            }
        }
        let mut d: usize = 0;
        while d < domains.len()
            invariant
                self.advanced_from(&start),
                start == *old(self),
                a0 == start.actions().len(),
                g == golden@,
                domains@ == spec_replay_domains(),
                d <= domains@.len(),
                forall|rest: Seq<TrainingAction>, b: bool|
                    replay_actions(g, d as int, rest, b) ==> #[trigger] replay_actions(
                        g,
                        0,
                        (self.actions().skip(a0) + rest),
                        b,
                    ),
            decreases domains.len() - d,
        {
            let (_name, lo, hi) = domains[d];
            let ghost sd = *self;
            let mut any = false;
            let mut i: usize = 0;
            proof {
                assert(g.take(0) =~= Seq::<(usize, u32)>::empty());
                assert(self.actions().skip(sd.actions().len() as int) =~= Seq::<TrainingAction>::empty());
            }
            while i < golden.len()
                invariant
                    self.advanced_from(&sd),
                    g == golden@,
                    i <= golden@.len(),
                    writes_logged(self.actions().skip(sd.actions().len() as int), window_entries(g.take(i as int), lo, hi)),
                    any == (window_entries(g.take(i as int), lo, hi).len() > 0),
                decreases golden.len() - i,
            {
                let (off, val) = golden[i];
                let ghost before = self.actions();
                proof {
                    assert(g.take(i + 1).drop_last() =~= g.take(i as int));
                }
                if off >= lo && off < hi {
                    self.w(off, val);
                    any = true;
                    proof {
                        let ws = window_entries(g.take(i as int), lo, hi);
                        assert(self.actions().skip(sd.actions().len() as int) =~= before.skip(sd.actions().len() as int).push(self.actions().last()));
                        assert(writes_logged(self.actions().skip(sd.actions().len() as int), ws.push((off, val))));
                    }
                } else {
                }
                i = i + 1;
            }
            proof {
                assert(g.take(g.len() as int) =~= g);
                assert(sd.advanced_from(&start));
                lemma_prefix_chain(start.actions(), sd.actions(), self.actions());
                lemma_prefix_chain(start.events(), sd.events(), self.events());
            }
            let ghost ws = window_entries(g, lo, hi);
            let ghost w_acts = self.actions().skip(sd.actions().len() as int);
            if any {
                let ghost s0 = *self;
                self.delay(50);
                let ghost s1 = *self;
                let ok = self.check_vram_accessible();
                proof {
                    assert(s1.advanced_from(&s0));
                    assert(self.advanced_from(&s1));
                    assert(start.actions().is_prefix_of(s1.actions()));
                    assert(start.events().is_prefix_of(s1.events()));
                    assert(self.advanced_from(&start));
                    let seg = w_acts.push(TrainingAction::Delay { ms: 50 });
                    assert(self.actions() == s0.actions().push(TrainingAction::Delay { ms: 50 }));
                    assert(self.actions().skip(a0) =~= sd.actions().skip(a0) + seg);
                    assert forall|rest: Seq<TrainingAction>, b: bool|
                        replay_actions(g, d + 1, rest, b) implies #[trigger] replay_actions(
                            g,
                            0,
                            (self.actions().skip(a0) + rest),
                            b,
                        ) by {
                        let x = seg + rest;
                        assert(x.take(ws.len() as int) =~= w_acts);
                        assert(x.skip(ws.len() as int + 1) =~= rest);
                        assert(replay_actions(g, d as int, x, b));
                        assert(sd.actions().skip(a0) + x =~= self.actions().skip(a0) + rest);
                    }
                    assert(seg.take(ws.len() as int) =~= w_acts);
                    assert(replay_actions(g, d as int, seg, true));
                    assert(sd.actions().skip(a0) + seg =~= self.actions().skip(a0) + Seq::<TrainingAction>::empty());
                }
                if ok {
                    return Ok(());
                }
            } else {
                proof {
                    assert forall|rest: Seq<TrainingAction>, b: bool|
                        replay_actions(g, d + 1, rest, b) implies #[trigger] replay_actions(
                            g,
                            0,
                            (self.actions().skip(a0) + rest),
                            b,
                        ) by {
                        assert(w_acts.len() == 0);
                        assert(replay_actions(g, d as int, rest, b));
                        assert(sd.actions().skip(a0) + rest =~= self.actions().skip(a0) + rest);
                    }
                }
            }
            d = d + 1;
        }
        proof {
            assert(replay_actions(g, 5, Seq::<TrainingAction>::empty(), true));
            assert(replay_actions(g, 5, Seq::<TrainingAction>::empty(), false));
            assert(self.actions().skip(a0) + Seq::<TrainingAction>::empty() =~= self.actions().skip(a0));
        }
        Ok(())
    }

    /// DEVINIT on the PMU FALCON: nothing to do when devinit already ran;
    /// refused when the FALCON only takes signed firmware (HWCFG bit 8).
    fn train_links_falcon(&mut self, rom: &[u8]) -> (r: Result<(), Hbm2TrainingError>)
        ensures
            final(self).advanced_from(&*old(self)),
            r matches Err(e) ==> e.phase == "train_links",
            ({
                let ev = final(self).events();
                let n = old(self).events().len() as int;
                let hwcfg = read_value(ev[n + 5], 0xDEAD_DEAD);
                &&& ev.len() >= n + 5
                &&& is_read_of(ev[n], DEVINIT_STATUS)
                &&& read_value(ev[n], 0xDEAD_DEAD) & 2 != 0 ==> r is Ok && ev.len() == n + 5
                    && final(self).actions() == old(self).actions()
                &&& read_value(ev[n], 0xDEAD_DEAD) & 2 == 0 ==> ev.len() > n + 5 && is_read_of(
                    ev[n + 5],
                    0x10A108,
                ) && (hwcfg & 0x100 != 0 ==> (r matches Err(e) && e.register_snapshot@ == seq![
                    (0x10A108usize, hwcfg),
                ]))
            }),
    {
        broadcast use Seq::lemma_prefix_index_eq;

        proof {
            lemma_prefix_refl(self.log.actions@);
        }
        let ghost e0 = self.bar0.events();
        let ghost n = e0.len() as int;
        let status = DevinitStatus::probe(&mut self.bar0);
        proof {
            assert(e0 =~= self.bar0.events().subrange(0, e0.len() as int));
            assert(is_read_of(self.bar0.events()[n + 0], status_regs()[0]));
        }
        if !status.needs_post {
            return Ok(());
        }
        let ghost e1 = self.bar0.events();
        let hwcfg = self.r(0x10A108);
        proof {
            assert(self.events()[n + 0] == e1[n + 0]);
            assert(hwcfg == read_value(self.events()[n + 5], 0xDEAD_DEAD));
        }
        self.log.log_read(0x10A108, hwcfg);
        if hwcfg & 0x100 != 0 {
            let mut detail = String::from_str("PMU FALCON requires signed firmware (HWCFG=");
            crate::text::push_hex8(&mut detail, hwcfg);
            detail.append(")");
            return Err(
                Hbm2TrainingError {
                    phase: "train_links",
                    detail,
                    register_snapshot: vec![(0x10A108usize, hwcfg)],
                },
            );
        }
        match execute_devinit(&mut self.bar0, rom) {
            Ok(true) => {
                self.delay(100);
                Ok(())
            },
            Ok(false) => Ok(()),
            Err(e) => {
                let mut detail = String::from_str("FALCON devinit: ");
                detail.append(e.describe());
                Err(Hbm2TrainingError { phase: "train_links", detail, register_snapshot: Vec::new() })
            },
        }
    }

    /// With no backend: the VBIOS read from the PROM through BAR0.
    fn train_links_auto(&mut self) -> (r: Result<(), Hbm2TrainingError>)
        ensures
            final(self).advanced_from(&*old(self)),
            r matches Err(e) ==> e.phase == "train_links",
            ({
                let ev = final(self).events();
                let n = old(self).events().len() as int;
                &&& ev.len() >= n + 3
                &&& is_read_of(ev[n], PROM_ENABLE_REG)
                &&& is_read_of(ev[n + 2], PROM_BASE)
                &&& read_value(ev[n + 2], 0) & 0xFFFF != 0xAA55 ==> r is Err && final(self).actions()
                    == old(self).actions()
                &&& read_value(ev[n + 2], 0) & 0xFFFF == 0xAA55 ==> exists|rom: Seq<u8>|
                    #[trigger] prom_words_read(rom, ev, n + 3) && (spec_extract_boot_script_writes(rom) is Ok
                        ==> r is Ok) && (r is Err ==> spec_extract_boot_script_writes(rom) is Err)
            }),
    {
        proof {
            lemma_prefix_refl(self.log.actions@);
        }
        let ghost e0 = self.bar0.events();
        let prom = read_vbios_prom(&mut self.bar0);
        let ghost e1 = self.bar0.events();
        match prom {
            Ok(rom) => {
                let r = self.train_links_vbios(rom.as_slice());
                proof {
                    let g = self.events();
                    let n = e0.len() as int;
                    lemma_prom_words_grows(rom@, e1, g, n + 3);
                    assert(g[n] == e1[n]);
                    assert(g[n + 2] == e1[n + 2]);
                }
                r
            },
            Err(_) => Err(
                phase_error("train_links", "No VBIOS source available (PROM, sysfs, file all failed)"),
            ),
        }
    }
}

impl<B: RegisterBus> Hbm2Controller<B, LinkTrained> {
    /// Phase 3: read back the PFB configuration (CFG0, CFG1, MEM_STATUS,
    /// MEM_CTRL) into the log, zero the NISO flush address (required for
    /// VRAM access), wait 10 ms and snapshot the FBPA timings. Cannot fail.
    #[verifier::spinoff_prover]
    pub fn init_dram(self) -> (r: Result<Hbm2Controller<B, DramReady>, Hbm2TrainingError>)
        requires
            self.wf(),
        ensures
            r matches Ok(c) && c.advanced_from(&self) && logged_transition(
                c.actions(),
                self.actions().len() as int,
                "LinkTrained",
                "DramReady",
            ) && dram_init_trace(c.events(), self.events().len() as int, self.partitions() as int),
    {
        broadcast use crate::bus::lemma_prefix_chain;

        let mut c = self;
        c.log_phase("LinkTrained", "DramReady");
        let ghost start = c;
        let ghost a0 = c.events().len() as int;
        let cfg0 = c.r(volta_hbm2::PFB_CFG0);
        let ghost (e1, a1) = (c.events(), c.events().len() as int);
        let cfg1 = c.r(volta_hbm2::PFB_CFG1);
        let ghost (e2, a2) = (c.events(), c.events().len() as int);
        let mem_status = c.r(volta_hbm2::PFB_MEM_STATUS);
        let ghost (e3, a3) = (c.events(), c.events().len() as int);
        let mem_ctrl = c.r(volta_hbm2::PFB_MEM_CTRL);
        let ghost (e4, a4) = (c.events(), c.events().len() as int);
        c.log.log_read(volta_hbm2::PFB_CFG0, cfg0);
        c.log.log_read(volta_hbm2::PFB_CFG1, cfg1);
        c.log.log_read(volta_hbm2::PFB_MEM_STATUS, mem_status);
        c.log.log_read(volta_hbm2::PFB_MEM_CTRL, mem_ctrl);
        c.w(volta_hbm2::PFB_NISO_FLUSH_LO, 0);
        let ghost (e5, a5) = (c.events(), c.events().len() as int);
        c.w(volta_hbm2::PFB_NISO_FLUSH_HI, 0);
        let ghost (e6, a6) = (c.events(), c.events().len() as int);
        c.delay(10);
        let ghost e7 = c.events();
        let snaps = snapshot_fbpa(&mut c.bar0, c.fbpa_count);
        proof {
            assert(start.actions()[self.actions().len() as int] == c.actions()[self.actions().len() as int]);
            let ev = c.events();
            lemma_ctl_steps_stable(e1, ev, a0, a1, volta_hbm2::PFB_CFG0, 0);
            lemma_ctl_steps_stable(e2, ev, a1, a2, volta_hbm2::PFB_CFG1, 0);
            lemma_ctl_steps_stable(e3, ev, a2, a3, volta_hbm2::PFB_MEM_STATUS, 0);
            lemma_ctl_steps_stable(e4, ev, a3, a4, volta_hbm2::PFB_MEM_CTRL, 0);
            lemma_ctl_steps_stable(e5, ev, a4, a5, volta_hbm2::PFB_NISO_FLUSH_LO, 0);
            lemma_ctl_steps_stable(e6, ev, a5, a6, volta_hbm2::PFB_NISO_FLUSH_HI, 0);
            assert(ev[a6] == e7[a6]);
            assert forall|i: int| 0 <= i < self.partitions() implies #[trigger] fbpa_reads(
                ev,
                a6 + 1 + 4 * i,
                i,
            ) by {
                assert(fbpa_read_at(snaps@[i], ev, e7.len() + 4 * i, i));
            }
            let a = seq![a0, a1, a2, a3, a4, a5, a6];
            assert(dram_init_split(ev, self.events().len() as int, self.partitions() as int, a));
        }
        Ok(c.transition())
    }
}

/// A verification that read back what was written.
pub open spec fn passed_check(a: TrainingAction) -> bool {
    a matches TrainingAction::Verification { ok, .. } && ok
}

/// The VRAM offsets the sentinel tests probe, in order.
pub open spec fn spec_vram_test_offsets() -> Seq<u32> {
    seq![0x0000_0000u32, 0x0001_0000u32, 0x0002_6000u32, 0x0004_0000u32, 0x0008_0000u32]
}

/// The sentinel written at VRAM offset `off`.
pub open spec fn vram_sentinel(off: u32) -> u32 {
    0xCAFE_0000u32 | off
}

/// The accesses from event `n` are the five VRAM sentinel tests, one PRAMIN
/// probe (window, sentinel write, readback) per test offset, in order.
pub open spec fn vram_tests_at(ev: Seq<BusEvent>, n: int) -> bool {
    &&& 0 <= n
    &&& n + 15 <= ev.len()
    &&& forall|k: int|
        0 <= k < 5 ==> #[trigger] pramin_probe_at(
            ev,
            n + 3 * k,
            spec_vram_test_offsets()[k],
            vram_sentinel(spec_vram_test_offsets()[k]),
        )
}

/// The five readbacks of the sentinel tests from event `n`.
pub open spec fn vram_readbacks(ev: Seq<BusEvent>, n: int) -> Seq<u32> {
    Seq::new(5, |k: int| read_value(ev[n + 3 * k + 2], 0xDEAD_DEAD))
}

/// Some sentinel test read back what it wrote.
pub open spec fn some_sentinel_matched(readbacks: Seq<u32>) -> bool {
    exists|k: int|
        0 <= k < 5 && #[trigger] readbacks[k] == vram_sentinel(spec_vram_test_offsets()[k])
}

/// Whether VRAM passed its sentinel tests, given the five readbacks: it
/// did when at least one readback equals the sentinel written there.
pub fn sentinel_tests_passed(readbacks: &Vec<u32>) -> (r: bool)
    requires
        readbacks@.len() == 5,
    ensures
        r == some_sentinel_matched(readbacks@),
{
    let offsets: Vec<u32> = vec![0x0000_0000, 0x0001_0000, 0x0002_6000, 0x0004_0000, 0x0008_0000];
    proof {
        assert(offsets@ =~= spec_vram_test_offsets());
    }
    let mut i: usize = 0;
    while i < 5
        invariant
            i <= 5,
            offsets@ == spec_vram_test_offsets(),
            readbacks@.len() == 5,
            forall|k: int| 0 <= k < i ==> readbacks@[k] != vram_sentinel(spec_vram_test_offsets()[k]),
        decreases 5 - i,
    {
        if readbacks[i] == (0xCAFE_0000u32 | offsets[i]) {
            return true;
        }
        i = i + 1;
    }
    false
}

impl<B: RegisterBus> Hbm2Controller<B, DramReady> {
    /// Phase 4: write the sentinel `0xCAFE0000 | offset` at VRAM offsets
    /// 0, 0x10000, 0x26000, 0x40000 and 0x80000 through PRAMIN and read it
    /// back, logging each outcome. Fails when no readback matched.
    pub fn verify_vram(self) -> (r: Result<Hbm2Controller<B, Verified>, Hbm2TrainingError>)
        requires
            self.wf(),
        ensures
            match r {
                Ok(c) => c.advanced_from(&self) && logged_transition(
                    c.actions(),
                    self.actions().len() as int,
                    "DramReady",
                    "Verified",
                ) && (exists|k: int|
                    self.actions().len() < k < c.actions().len() && passed_check(
                        #[trigger] c.actions()[k],
                    )) && c.events().len() == self.events().len() + 15 && vram_tests_at(
                    c.events(),
                    self.events().len() as int,
                ) && some_sentinel_matched(vram_readbacks(c.events(), self.events().len() as int)),
                Err(e) => e.phase == "verify_vram",
            },
    {
        match self.verify_vram_keeping_log() {
            Ok(c) => Ok(c),
            Err((e, _)) => Err(e),
        }
    }

    /// [`Self::verify_vram`], keeping on failure the log of the attempt so far.
    #[verifier::spinoff_prover]
    #[verifier::rlimit(40)]
    fn verify_vram_keeping_log(self) -> (r: Result<Hbm2Controller<B, Verified>, (Hbm2TrainingError, TrainingLog)>)
        requires
            self.wf(),
        ensures
            match r {
                Ok(c) => c.advanced_from(&self) && logged_transition(
                    c.actions(),
                    self.actions().len() as int,
                    "DramReady",
                    "Verified",
                ) && (exists|k: int|
                    self.actions().len() < k < c.actions().len() && passed_check(
                        #[trigger] c.actions()[k],
                    )) && c.events().len() == self.events().len() + 15 && vram_tests_at(
                    c.events(),
                    self.events().len() as int,
                ) && some_sentinel_matched(vram_readbacks(c.events(), self.events().len() as int)),
                Err((e, log)) => e.phase == "verify_vram" && self.actions().is_prefix_of(log.actions@)
                    && logged_transition(log.actions@, self.actions().len() as int, "DramReady", "Verified"),
            },
    {
        broadcast use Seq::lemma_prefix_index_eq;

        let mut c = self;
        c.log_phase("DramReady", "Verified");
        let ghost start = c;
        let ghost n = c.events().len() as int;
        let offsets: Vec<u32> = vec![0x0000_0000, 0x0001_0000, 0x0002_6000, 0x0004_0000, 0x0008_0000];
        proof {
            assert(offsets@ =~= spec_vram_test_offsets());
        }
        let mut readbacks: Vec<u32> = Vec::new();
        let mut failed_detail = String::new();
        let mut i: usize = 0;
        while i < offsets.len()
            invariant
                offsets@ == spec_vram_test_offsets(),
                c.advanced_from(&start),
                n == start.events().len(),
                i <= 5,
                readbacks@.len() == i,
                c.events().len() == n + 3 * i,
                forall|k: int|
                    0 <= k < i ==> #[trigger] pramin_probe_at(
                        c.events(),
                        n + 3 * k,
                        spec_vram_test_offsets()[k],
                        vram_sentinel(spec_vram_test_offsets()[k]),
                    ) && readbacks@[k] == read_value(c.events()[n + 3 * k + 2], 0xDEAD_DEAD),
                (exists|k: int| 0 <= k < i && #[trigger] readbacks@[k] == vram_sentinel(spec_vram_test_offsets()[k]))
                    ==> exists|j: int|
                    start.actions().len() <= j < c.actions().len() && passed_check(#[trigger] c.actions()[j]),
            decreases offsets.len() - i,
        {
            let off = offsets[i];
            let sentinel = 0xCAFE_0000u32 | off;
            let ghost before = c;
            let ghost rb0 = readbacks@;
            let (ok, readback) = c.probe_pramin(off, sentinel);
            c.log.log_verify(off as usize, sentinel, readback);
            readbacks.push(readback);
            if ok {
                proof {
                    assert(passed_check(c.actions()[c.actions().len() - 1]));
                }
            } else {
                if failed_detail.as_str().len() > 0 {
                    failed_detail.append("; ");
                }
                failed_detail.append("PRAMIN@");
                crate::text::push_hex8(&mut failed_detail, off);
                failed_detail.append(": wrote ");
                crate::text::push_hex8(&mut failed_detail, sentinel);
                failed_detail.append(", read ");
                crate::text::push_hex8(&mut failed_detail, readback);
            }
            proof {
                assert(before.actions().is_prefix_of(c.actions()));
                let ev = c.events();
                assert forall|k: int| 0 <= k < i + 1 implies #[trigger] pramin_probe_at(
                    ev,
                    n + 3 * k,
                    spec_vram_test_offsets()[k],
                    vram_sentinel(spec_vram_test_offsets()[k]),
                ) && readbacks@[k] == read_value(ev[n + 3 * k + 2], 0xDEAD_DEAD) by {
                    if k < i {
                        assert(readbacks@[k] == rb0[k]);
                        assert(pramin_probe_at(
                            before.events(),
                            n + 3 * k,
                            spec_vram_test_offsets()[k],
                            vram_sentinel(spec_vram_test_offsets()[k]),
                        ));
                    }
                }
                if exists|k: int| 0 <= k < i + 1 && #[trigger] readbacks@[k] == vram_sentinel(spec_vram_test_offsets()[k]) {
                    let k = choose|k: int| 0 <= k < i + 1 && #[trigger] readbacks@[k] == vram_sentinel(spec_vram_test_offsets()[k]);
                    if k < i {
                        assert(readbacks@[k] == rb0[k]);
                        let j = choose|j: int|
                            start.actions().len() <= j < before.actions().len() && passed_check(#[trigger] before.actions()[j]);
                        assert(c.actions()[j] == before.actions()[j]);
                    } else {
                        assert(passed_check(c.actions()[c.actions().len() - 1]));
                    }
                }
            }
            i = i + 1;
        }
        if !sentinel_tests_passed(&readbacks) {
            let cfg0 = c.r(volta_hbm2::PFB_CFG0);
            let mem_status = c.r(volta_hbm2::PFB_MEM_STATUS);
            let mut detail = String::from_str("All VRAM sentinel tests failed: ");
            detail.append(failed_detail.as_str());
            let err = Hbm2TrainingError {
                    phase: "verify_vram",
                    detail,
                    register_snapshot: vec![
                        (volta_hbm2::PFB_CFG0, cfg0),
                        (volta_hbm2::PFB_MEM_STATUS, mem_status),
                    ],
            };
            proof {
                assert(start.actions()[self.actions().len() as int] == c.actions()[self.actions().len() as int]);
            }
            return Err((err, c.log));
        }
        proof {
            assert(start.actions()[self.actions().len() as int] == c.actions()[self.actions().len() as int]);
            assert forall|k: int| 0 <= k < 5 implies readbacks@[k] == vram_readbacks(c.events(), n)[k] by {
                assert(pramin_probe_at(
                    c.events(),
                    n + 3 * k,
                    spec_vram_test_offsets()[k],
                    vram_sentinel(spec_vram_test_offsets()[k]),
                ));
            }
            assert(readbacks@ =~= vram_readbacks(c.events(), n));
            let k = choose|k: int| 0 <= k < 5 && #[trigger] readbacks@[k] == vram_sentinel(spec_vram_test_offsets()[k]);
            assert(vram_readbacks(c.events(), n)[k] == readbacks@[k]);
        }
        Ok(c.transition())
    }
}

impl<B: RegisterBus> Hbm2Controller<B, Verified> {
    /// The training log from the completed sequence.
    pub fn training_log(&self) -> (r: &TrainingLog)
        ensures
            r.actions@ == self.actions(),
    {
        &self.log
    }

    /// VRAM is confirmed accessible: the PRAMIN base offset for higher-level
    /// code to use.
    pub fn pramin_base(&self) -> (r: usize)
        ensures
            r == volta_hbm2::PRAMIN_BASE,
    {
        volta_hbm2::PRAMIN_BASE
    }

    /// Export FBPA partition state as evidence.
    pub fn fbpa_state(&mut self) -> (r: Vec<FbpaSnapshot>)
        requires
            old(self).wf(),
        ensures
            final(self).advanced_from(&*old(self)),
            final(self).actions() == old(self).actions(),
            r@.len() == old(self).partitions(),
    {
        proof {
            lemma_prefix_refl(self.log.actions@);
        }
        snapshot_fbpa(&mut self.bar0, self.fbpa_count)
    }
}

/// The bus accesses of a full HBM2 training from event `n`, split at the
/// phase ends `t`: PHY enabling with the PHY up (ending at `t[0]`), link
/// training ending with a snapshot of the four partitions (at `t[1]`), DRAM
/// initialisation (at `t[2]`), then the five VRAM sentinel tests, one of
/// which read back its sentinel.
pub open spec fn hbm2_trained_split(ev: Seq<BusEvent>, n: int, t: Seq<int>) -> bool {
    let count = volta_hbm2::FBPA_COUNT as int;
    &&& t.len() == 3
    &&& n <= t[0] <= t[1] - 4 * count <= t[1] <= t[2] <= ev.len()
    &&& phy_enabled_trace(ev.take(t[0]), n, count)
    &&& fbpa_snapshot_tail(ev.take(t[1]), t[1] - 4 * count, count)
    &&& dram_init_trace(ev.take(t[2]), t[1], count)
    &&& ev.len() == t[2] + 15
    &&& vram_tests_at(ev, t[2])
    &&& some_sentinel_matched(vram_readbacks(ev, t[2]))
}

/// Attempt the full HBM2 training sequence, Untrained to Verified, over
/// the four Volta FBPA partitions, with the backend if one is given.
/// On failure, returns the error with the log of the attempt up to the
/// failing phase.
#[verifier::spinoff_prover]
#[verifier::rlimit(60)]
pub fn train_hbm2<B: RegisterBus>(bar0: Bar0<B>, bdf: Option<&str>, backend: Option<TrainingBackend>) -> (r:
    Result<Hbm2Controller<B, Verified>, (Hbm2TrainingError, TrainingLog)>)
    ensures
        match r {
            Ok(c) => c.partitions() == volta_hbm2::FBPA_COUNT && c.spec_backend() == backend
                && bar0.events().is_prefix_of(c.events()) && exists|t: Seq<int>|
                #[trigger] hbm2_trained_split(c.events(), bar0.events().len() as int, t),
            Err((e, log)) => (e.phase == "enable_phy" || e.phase == "train_links" || e.phase
                == "verify_vram") && logged_transition(log.actions@, 0, "Untrained", "PhyUp") && (
            e.phase != "enable_phy" ==> exists|k: int|
                0 < k < log.actions@.len() && #[trigger] logged_transition(
                    log.actions@,
                    k,
                    "PhyUp",
                    "LinkTrained",
                )) && (e.phase == "train_links" ==> !backend_cannot_fail(backend)),
        },
{
    let ghost e0 = bar0.events();
    let mut ctrl = Hbm2Controller::new(bar0, bdf, volta_hbm2::FBPA_COUNT);
    proof {
        lemma_prefix_refl(e0);
    }
    match backend {
        Some(be) => {
            ctrl = ctrl.with_backend(be);
        },
        None => {},
    }
    let ghost c0 = ctrl;
    let ctrl = match ctrl.enable_phy_keeping_log() {
        Ok(c) => c,
        Err(failed) => {
            return Err(failed);
        },
    };
    let ghost c1 = ctrl;
    let ctrl = match ctrl.train_links_keeping_log() {
        Ok(c) => c,
        Err(failed) => {
            proof {
                let log = failed.1.actions@;
                assert(c1.actions().is_prefix_of(log));
                assert(log[0] == c1.actions()[0]);
            }
            return Err(failed);
        },
    };
    let ghost c2 = ctrl;
    let ctrl = match ctrl.init_dram() {
        Ok(c) => c,
        Err(_) => {
            return vstd::pervasive::unreached();
        },
    };
    let ghost c3 = ctrl;
    match ctrl.verify_vram_keeping_log() {
        Ok(c) => {
            proof {
                let ev = c.events();
                let t = seq![c1.events().len() as int, c2.events().len() as int, c3.events().len() as int];
                crate::bus::lemma_prefix_trans(c1.events(), c2.events(), c3.events());
                crate::bus::lemma_prefix_trans(c1.events(), c3.events(), ev);
                crate::bus::lemma_prefix_trans(c2.events(), c3.events(), ev);
                assert(ev.take(t[0]) =~= c1.events());
                assert(ev.take(t[1]) =~= c2.events());
                assert(ev.take(t[2]) =~= c3.events());
                assert(hbm2_trained_split(ev, e0.len() as int, t));
            }
            Ok(c)
        },
        Err(failed) => {
            proof {
                let log = failed.1.actions@;
                assert(c3.actions().is_prefix_of(log));
                assert(log[0] == c1.actions()[0]);
                let k = c1.actions().len() as int;
                assert(log[k] == c2.actions()[k]);
                assert(logged_transition(log, k, "PhyUp", "LinkTrained"));
            }
            Err(failed)
        },
    }
}

// ── Differential capture and replay ─────────────────────────────────────

/// HBM2-critical register domains for ordered capture and replay, as
/// (name, start, end) half-open ranges.
pub open spec fn spec_capture_domains() -> Seq<(&'static str, usize, usize)> {
    seq![
        ("FBPA0", 0x9A0000usize, 0x9A1000usize),
        ("FBPA1", 0x9A4000usize, 0x9A5000usize),
        ("FBPA2", 0x9A8000usize, 0x9A9000usize),
        ("FBPA3", 0x9AC000usize, 0x9AD000usize),
        ("LTC0", 0x17E000usize, 0x180000usize),
        ("LTC1", 0x180000usize, 0x182000usize),
        ("LTC2", 0x182000usize, 0x184000usize),
        ("LTC3", 0x184000usize, 0x186000usize),
        ("LTC4", 0x186000usize, 0x188000usize),
        ("LTC5", 0x188000usize, 0x18A000usize),
        ("PCLOCK", 0x137000usize, 0x138000usize),
        ("CLK", 0x132000usize, 0x133000usize),
        ("PFB", 0x100000usize, 0x102000usize),
        ("PFB_NISO", 0x100C00usize, 0x100E00usize),
        ("FBHUB", 0x100800usize, 0x100A00usize),
        ("PMU", 0x10A000usize, 0x10B000usize),
    ]
}

/// HBM2-critical register domains for ordered capture and replay.
pub fn hbm2_capture_domains() -> (r: Vec<(&'static str, usize, usize)>)
    ensures
        r@ == spec_capture_domains(),
{
    let r = vec![
        ("FBPA0", 0x9A0000usize, 0x9A1000usize),
        ("FBPA1", 0x9A4000usize, 0x9A5000usize),
        ("FBPA2", 0x9A8000usize, 0x9A9000usize),
        ("FBPA3", 0x9AC000usize, 0x9AD000usize),
        ("LTC0", 0x17E000usize, 0x180000usize),
        ("LTC1", 0x180000usize, 0x182000usize),
        ("LTC2", 0x182000usize, 0x184000usize),
        ("LTC3", 0x184000usize, 0x186000usize),
        ("LTC4", 0x186000usize, 0x188000usize),
        ("LTC5", 0x188000usize, 0x18A000usize),
        ("PCLOCK", 0x137000usize, 0x138000usize),
        ("CLK", 0x132000usize, 0x133000usize),
        ("PFB", 0x100000usize, 0x102000usize),
        ("PFB_NISO", 0x100C00usize, 0x100E00usize),
        ("FBHUB", 0x100800usize, 0x100A00usize),
        ("PMU", 0x10A000usize, 0x10B000usize),
    ];
    proof {
        assert(r@ =~= spec_capture_domains());
    }
    r
}

/// A captured register state from a domain.
#[derive(Debug, Clone)]
pub struct DomainCapture {
    pub name: String,
    pub registers: Vec<(usize, u32)>,
}

/// Complete golden state captured from an oracle card.
#[derive(Debug, Clone)]
pub struct GoldenCapture {
    pub boot0: u32,
    pub pmc_enable: u32,
    pub domains: Vec<DomainCapture>,
    pub timestamp: String,
}

/// A value an oracle capture drops: all ones, 0xDEADDEAD, or a PRI error
/// (high half 0xBADF or 0xBAD0).
pub open spec fn is_capture_error(v: u32) -> bool {
    v == 0xFFFF_FFFF || v == 0xDEAD_DEAD || (v >> 16u32) == 0xBADF || (v >> 16u32) == 0xBAD0
}

/// How many registers a capture domain holds: one per 4 bytes.
pub open spec fn domain_reads(d: (&'static str, usize, usize)) -> int {
    if d.2 > d.1 {
        (d.2 - d.1) / 4
    } else {
        0
    }
}

/// How many reads the capture makes for the domains before `d`.
pub open spec fn reads_before(ds: Seq<(&'static str, usize, usize)>, d: int) -> int
    decreases d,
{
    if d <= 0 {
        0
    } else {
        reads_before(ds, d - 1) + domain_reads(ds[d - 1])
    }
}

/// The registers the first `n` reads of a domain at `start` captured, the
/// reads starting at event `at`: each (offset, value) whose value is not a
/// capture error (a failed read counts as 0xDEADDEAD).
pub open spec fn captured(ev: Seq<BusEvent>, at: int, start: usize, n: int) -> Seq<(usize, u32)>
    decreases n,
{
    if n <= 0 {
        Seq::empty()
    } else {
        let prev = captured(ev, at, start, n - 1);
        let v = read_value(ev[at + n - 1], 0xDEAD_DEAD);
        if is_capture_error(v) {
            prev
        } else {
            prev.push(((start + 4 * (n - 1)) as usize, v))
        }
    }
}

/// The reads of a domain at `start` are the `n` events from `at`: reads of
/// `start`, `start + 4`, and so on.
pub open spec fn domain_read_events(ev: Seq<BusEvent>, at: int, start: usize, n: int) -> bool {
    forall|k: int|
        0 <= k < n ==> #[trigger] ev[at + k] is Read && ev[at + k]->Read_reg == start + 4 * k
}

proof fn lemma_captured_stable(e1: Seq<BusEvent>, e2: Seq<BusEvent>, at: int, start: usize, n: int)
    requires
        e1.is_prefix_of(e2),
        0 <= at,
        at + n <= e1.len(),
    ensures
        captured(e1, at, start, n) == captured(e2, at, start, n),
    decreases n,
{
    if n > 0 {
        lemma_captured_stable(e1, e2, at, start, n - 1);
        assert(e1[at + n - 1] == e2[at + n - 1]);
    }
}

/// Capture the golden state of an oracle (warm) card: BOOT0 (a failed read
/// counts as 0xDEADDEAD), refused when it reads all ones; PMC_ENABLE; then
/// every register of every capture domain, in order, keeping the values
/// that are not capture errors.
#[verifier::spinoff_prover]
pub fn capture_golden<B: RegisterBus>(bar0: &mut Bar0<B>, timestamp: String) -> (r: Result<GoldenCapture, String>)
    ensures
        old(bar0).events().is_prefix_of(final(bar0).events()),
        old(bar0).events().len() < final(bar0).events().len(),
        ({
            let ev = final(bar0).events();
            let n = old(bar0).events().len() as int;
            let ds = spec_capture_domains();
            &&& ev[n] is Read && ev[n]->Read_reg == 0
            &&& (r is Err <==> read_value(ev[n], 0xDEAD_DEAD) == 0xFFFF_FFFF)
            &&& r matches Err(m) ==> m@ == "Oracle BAR0 reads 0xFFFFFFFF — card in D3hot?"@
            &&& r matches Ok(g) ==> {
                &&& g.boot0 == read_value(ev[n], 0xDEAD_DEAD)
                &&& ev[n + 1] is Read && ev[n + 1]->Read_reg == 0x200
                &&& g.pmc_enable == read_value(ev[n + 1], 0xDEAD_DEAD)
                &&& g.timestamp == timestamp
                &&& g.domains@.len() == ds.len()
                &&& forall|d: int|
                    0 <= d < ds.len() ==> {
                        let at = n + 2 + reads_before(ds, d);
                        &&& (#[trigger] g.domains@[d]).name@ == ds[d].0@
                        &&& domain_read_events(ev, at, ds[d].1, domain_reads(ds[d]))
                        &&& g.domains@[d].registers@ == captured(ev, at, ds[d].1, domain_reads(ds[d]))
                    }
            }
        }),
{
    let ghost e0 = bar0.events();
    let ghost n0: int = e0.len() as int;
    let boot0 = read_or_dead(bar0, 0);
    if boot0 == 0xFFFF_FFFF {
        return Err(String::from_str("Oracle BAR0 reads 0xFFFFFFFF — card in D3hot?"));
    }
    let pmc_enable = read_or_dead(bar0, 0x200);
    let ds = hbm2_capture_domains();
    let mut domains: Vec<DomainCapture> = Vec::new();
    let mut d: usize = 0;
    while d < ds.len()
        invariant
            ds@ == spec_capture_domains(),
            d <= ds@.len(),
            domains@.len() == d,
            e0.is_prefix_of(bar0.events()),
            n0 == e0.len(),
            bar0.events().len() == n0 + 2 + reads_before(ds@, d as int),
            bar0.events()[n0] is Read && bar0.events()[n0]->Read_reg == 0,
            boot0 == read_value(bar0.events()[n0], 0xDEAD_DEAD),
            bar0.events()[n0 + 1] is Read && bar0.events()[n0 + 1]->Read_reg == 0x200,
            pmc_enable == read_value(bar0.events()[n0 + 1], 0xDEAD_DEAD),
            forall|j: int|
                0 <= j < d ==> {
                    let at = n0 + 2 + reads_before(ds@, j);
                    &&& (#[trigger] domains@[j]).name@ == ds@[j].0@
                    &&& domain_read_events(bar0.events(), at, ds@[j].1, domain_reads(ds@[j]))
                    &&& domains@[j].registers@ == captured(bar0.events(), at, ds@[j].1, domain_reads(ds@[j]))
                },
        decreases ds.len() - d,
    {
        let (name, start, end) = ds[d];
        let count: usize = if end > start {
            (end - start) / 4
        } else {
            0
        };
        let ghost at: int = n0 + 2 + reads_before(ds@, d as int);
        let ghost ed = bar0.events();
        proof {
            lemma_reads_before_mono(ds@, 0, d as int);
        }
        let mut registers: Vec<(usize, u32)> = Vec::new();
        let mut k: usize = 0;
        while k < count
            invariant
                k <= count,
                count == domain_reads((name, start, end)),
                count > 0 ==> start + 4 * count <= end,
                ed.is_prefix_of(bar0.events()),
                bar0.events().len() == at + k,
                at == ed.len(),
                domain_read_events(bar0.events(), at, start, k as int),
                registers@ == captured(bar0.events(), at, start, k as int),
            decreases count - k,
        {
            let off = start + 4 * k;
            let ghost before = bar0.events();
            let val = read_or_dead(bar0, off);
            proof {
                lemma_captured_stable(before, bar0.events(), at, start, k as int);
                assert forall|j: int| 0 <= j < k + 1 implies #[trigger] bar0.events()[at + j] is Read
                    && bar0.events()[at + j]->Read_reg == start + 4 * j by {
                    if j < k {
                        assert(bar0.events()[at + j] == before[at + j]);
                    }
                }
                assert(read_value(bar0.events()[at + k], 0xDEAD_DEAD) == val);
            }
            if !(val == 0xFFFF_FFFF || val == 0xDEAD_DEAD || (val >> 16) == 0xBADF || (val >> 16) == 0xBAD0) {
                registers.push((off, val));
            }
            k = k + 1;
        }
        let ghost dbefore = domains@;
        domains.push(DomainCapture { name: String::from_str(name), registers });
        proof {
            assert(ds@[d as int] == (name, start, end));
            assert(reads_before(ds@, d + 1) == reads_before(ds@, d as int) + count);
            assert forall|j: int| 0 <= j < d + 1 implies {
                let at2 = n0 + 2 + reads_before(ds@, j);
                &&& (#[trigger] domains@[j]).name@ == ds@[j].0@
                &&& domain_read_events(bar0.events(), at2, ds@[j].1, domain_reads(ds@[j]))
                &&& domains@[j].registers@ == captured(bar0.events(), at2, ds@[j].1, domain_reads(ds@[j]))
            } by {
                if j < d {
                    let at2 = n0 + 2 + reads_before(ds@, j);
                    lemma_reads_before_mono(ds@, 0, j);
                    lemma_reads_before_mono(ds@, j + 1, d as int);
                    assert(dbefore[j] == domains@[j]);
                    assert(domain_read_events(ed, at2, ds@[j].1, domain_reads(ds@[j])));
                    lemma_captured_stable(ed, bar0.events(), at2, ds@[j].1, domain_reads(ds@[j]));
                    assert forall|k2: int| 0 <= k2 < domain_reads(ds@[j]) implies #[trigger] bar0.events()[at2
                        + k2] is Read && bar0.events()[at2 + k2]->Read_reg == ds@[j].1 + 4 * k2 by {
                        assert(bar0.events()[at2 + k2] == ed[at2 + k2]);
                    }
                }
            }
        }
        d = d + 1;
    }
    proof {
        lemma_reads_before_mono(ds@, 0, d as int);
    }
    let ghost dv = domains@;
    let ghost evf = bar0.events();
    proof {
        assert(d == ds@.len());
        assert forall|j: int| 0 <= j < spec_capture_domains().len() implies {
            let at = n0 + 2 + reads_before(spec_capture_domains(), j);
            &&& (#[trigger] dv[j]).name@ == spec_capture_domains()[j].0@
            &&& domain_read_events(evf, at, spec_capture_domains()[j].1, domain_reads(spec_capture_domains()[j]))
            &&& dv[j].registers@ == captured(evf, at, spec_capture_domains()[j].1, domain_reads(spec_capture_domains()[j]))
        } by {
            assert(0 <= j < d);
        }
    }
    let g = GoldenCapture { boot0, pmc_enable, domains, timestamp };
    assert(g.domains@ == dv);
    Ok(g)
}

proof fn lemma_reads_before_mono(ds: Seq<(&'static str, usize, usize)>, a: int, b: int)
    requires
        0 <= a <= b,
    ensures
        reads_before(ds, a) <= reads_before(ds, b),
    decreases b - a,
{
    if a < b {
        lemma_reads_before_mono(ds, a, b - 1);
    }
}

/// All registers of the domains, domain after domain.
pub open spec fn flatten_domains(domains: Seq<DomainCapture>) -> Seq<(usize, u32)>
    decreases domains.len(),
{
    if domains.len() == 0 {
        Seq::empty()
    } else {
        flatten_domains(domains.drop_last()) + domains.last().registers@
    }
}

proof fn lemma_flatten_push(domains: Seq<DomainCapture>, d: DomainCapture)
    ensures
        flatten_domains(domains.push(d)) == flatten_domains(domains) + d.registers@,
{
    assert(domains.push(d).drop_last() =~= domains);
}

impl GoldenCapture {
    /// All domain registers in one list, stably sorted by offset: a
    /// permutation of the domains' registers taken in order.
    pub fn all_registers(&self) -> (r: Vec<(usize, u32)>)
        ensures
            crate::stable_sort::stable_sorted_of(
                r@,
                flatten_domains(self.domains@),
                crate::stable_sort::by_offset(),
            ),
            r@.to_multiset() == flatten_domains(self.domains@).to_multiset(),
    {
        let mut all: Vec<(usize, u32)> = Vec::new();
        let mut d: usize = 0;
        while d < self.domains.len()
            invariant
                d <= self.domains@.len(),
                all@ == flatten_domains(self.domains@.subrange(0, d as int)),
            decreases self.domains.len() - d,
        {
            let regs = &self.domains[d].registers;
            let ghost before = all@;
            let mut i: usize = 0;
            while i < regs.len()
                invariant
                    i <= regs@.len(),
                    all@ == before + regs@.subrange(0, i as int),
                decreases regs.len() - i,
            {
                all.push(regs[i]);
                proof {
                    assert(before + regs@.subrange(0, i + 1) =~= (before + regs@.subrange(0, i as int)).push(
                        regs@[i as int],
                    ));
                }
                i = i + 1;
            }
            proof {
                assert(regs@.subrange(0, regs@.len() as int) =~= regs@);
                lemma_flatten_push(self.domains@.subrange(0, d as int), self.domains@[d as int]);
                assert(self.domains@.subrange(0, d as int).push(self.domains@[d as int]) =~= self.domains@.subrange(
                    0,
                    d + 1,
                ));
            }
            d = d + 1;
        }
        proof {
            assert(self.domains@.subrange(0, self.domains@.len() as int) =~= self.domains@);
        }
        crate::stable_sort::sort_pairs_by_offset(&all)
    }

    /// Total register count across all domains.
    pub fn register_count(&self) -> (r: usize)
        requires
            flatten_domains(self.domains@).len() <= usize::MAX,
        ensures
            r == flatten_domains(self.domains@).len(),
    {
        let mut n: usize = 0;
        let mut d: usize = 0;
        while d < self.domains.len()
            invariant
                d <= self.domains@.len(),
                n == flatten_domains(self.domains@.subrange(0, d as int)).len(),
                flatten_domains(self.domains@).len() <= usize::MAX,
            decreases self.domains.len() - d,
        {
            proof {
                lemma_flatten_push(self.domains@.subrange(0, d as int), self.domains@[d as int]);
                assert(self.domains@.subrange(0, d as int).push(self.domains@[d as int]) =~= self.domains@.subrange(
                    0,
                    d + 1,
                ));
                lemma_flatten_prefix_len(self.domains@, d + 1);
            }
            n = n + self.domains[d].registers.len();
            d = d + 1;
        }
        proof {
            assert(self.domains@.subrange(0, self.domains@.len() as int) =~= self.domains@);
        }
        n
    }
}

/// The registers of a prefix of the domains are no more than those of all.
proof fn lemma_flatten_prefix_len(domains: Seq<DomainCapture>, k: int)
    requires
        0 <= k <= domains.len(),
    ensures
        flatten_domains(domains.subrange(0, k)).len() <= flatten_domains(domains).len(),
    decreases domains.len(),
{
    if k < domains.len() {
        lemma_flatten_prefix_len(domains.drop_last(), k);
        assert(domains.drop_last().subrange(0, k) =~= domains.subrange(0, k));
    } else {
        assert(domains.subrange(0, k) =~= domains);
    }
}

/// The registers of `regs` whose value, read as event `at + k` for the
/// `k`-th register, differs from the captured one, in order.
pub open spec fn regs_diff(regs: Seq<(usize, u32)>, ev: Seq<BusEvent>, at: int) -> Seq<(usize, u32)>
    decreases regs.len(),
{
    if regs.len() == 0 {
        Seq::empty()
    } else {
        let p = regs_diff(regs.drop_last(), ev, at);
        let k = regs.len() - 1;
        if read_value(ev[at + k], 0xDEAD_DEAD) != regs[k].1 {
            p.push(regs[k])
        } else {
            p
        }
    }
}

/// Per domain, the registers that differ, for the domains where any does;
/// the registers are read one after another from event `at` on.
pub open spec fn golden_diff(domains: Seq<DomainCapture>, ev: Seq<BusEvent>, at: int) -> Seq<
    (Seq<char>, Seq<(usize, u32)>),
>
    decreases domains.len(),
{
    if domains.len() == 0 {
        Seq::empty()
    } else {
        let p = golden_diff(domains.drop_last(), ev, at);
        let dd = regs_diff(
            domains.last().registers@,
            ev,
            at + flatten_domains(domains.drop_last()).len(),
        );
        if dd.len() > 0 {
            p.push((domains.last().name@, dd))
        } else {
            p
        }
    }
}

proof fn lemma_regs_diff_stable(regs: Seq<(usize, u32)>, ev1: Seq<BusEvent>, ev2: Seq<BusEvent>, at: int)
    requires
        ev1.is_prefix_of(ev2),
        0 <= at,
        at + regs.len() <= ev1.len(),
    ensures
        regs_diff(regs, ev1, at) == regs_diff(regs, ev2, at),
    decreases regs.len(),
{
    if regs.len() > 0 {
        lemma_regs_diff_stable(regs.drop_last(), ev1, ev2, at);
        assert(ev1[at + regs.len() - 1] == ev2[at + regs.len() - 1]);
    }
}

proof fn lemma_golden_diff_stable(domains: Seq<DomainCapture>, ev1: Seq<BusEvent>, ev2: Seq<BusEvent>, at: int)
    requires
        ev1.is_prefix_of(ev2),
        0 <= at,
        at + flatten_domains(domains).len() <= ev1.len(),
    ensures
        golden_diff(domains, ev1, at) == golden_diff(domains, ev2, at),
    decreases domains.len(),
{
    if domains.len() > 0 {
        lemma_golden_diff_stable(domains.drop_last(), ev1, ev2, at);
        lemma_regs_diff_stable(
            domains.last().registers@,
            ev1,
            ev2,
            at + flatten_domains(domains.drop_last()).len(),
        );
    }
}

/// The captures as (name, registers) pairs.
pub open spec fn captures_view(c: Seq<DomainCapture>) -> Seq<(Seq<char>, Seq<(usize, u32)>)> {
    c.map_values(|d: DomainCapture| (d.name@, d.registers@))
}

/// The golden registers that the cold card does not hold: every captured
/// register is read once, domain after domain (0xDEADDEAD on a failed
/// read), and kept where the value differs; domains with no difference are
/// left out.
pub fn diff_golden_vs_cold<B: RegisterBus>(bar0: &mut Bar0<B>, golden: &GoldenCapture) -> (r: Vec<
    DomainCapture,
>)
    ensures
        old(bar0).events().is_prefix_of(final(bar0).events()),
        final(bar0).events().len() == old(bar0).events().len() + flatten_domains(golden.domains@).len(),
        captures_view(r@) == golden_diff(golden.domains@, final(bar0).events(), old(bar0).events().len() as int),
{
    let ghost n0 = bar0.events().len() as int;
    let ghost e0 = bar0.events();
    proof {
        lemma_prefix_refl(e0);
    }
    let mut diffs: Vec<DomainCapture> = Vec::new();
    let mut d: usize = 0;
    while d < golden.domains.len()
        invariant
            d <= golden.domains@.len(),
            n0 == e0.len(),
            e0.is_prefix_of(bar0.events()),
            bar0.events().len() == n0 + flatten_domains(golden.domains@.subrange(0, d as int)).len(),
            captures_view(diffs@) == golden_diff(golden.domains@.subrange(0, d as int), bar0.events(), n0),
        decreases golden.domains.len() - d,
    {
        let ghost ed = bar0.events();
        let ghost st = ed.len() as int;
        let domain = &golden.domains[d];
        let mut dd: Vec<(usize, u32)> = Vec::new();
        let mut i: usize = 0;
        proof {
            lemma_prefix_refl(ed);
        }
        while i < domain.registers.len()
            invariant
                i <= domain.registers@.len(),
                ed.is_prefix_of(bar0.events()),
                bar0.events().len() == st + i,
                st == ed.len(),
                dd@ == regs_diff(domain.registers@.subrange(0, i as int), bar0.events(), st),
            decreases domain.registers.len() - i,
        {
            let ghost before = bar0.events();
            let (off, golden_val) = domain.registers[i];
            let cold_val = read_or_dead(bar0, off);
            proof {
                let regs = domain.registers@.subrange(0, i + 1);
                assert(regs.drop_last() =~= domain.registers@.subrange(0, i as int));
                lemma_regs_diff_stable(domain.registers@.subrange(0, i as int), before, bar0.events(), st);
                assert(bar0.events()[st + i] == bar0.events().last());
            }
            if cold_val != golden_val {
                dd.push((off, golden_val));
            }
            i = i + 1;
        }
        proof {
            assert(domain.registers@.subrange(0, domain.registers@.len() as int) =~= domain.registers@);
            let doms = golden.domains@.subrange(0, d + 1);
            assert(doms.drop_last() =~= golden.domains@.subrange(0, d as int));
            lemma_flatten_push(golden.domains@.subrange(0, d as int), golden.domains@[d as int]);
            assert(golden.domains@.subrange(0, d as int).push(golden.domains@[d as int]) =~= doms);
            lemma_golden_diff_stable(golden.domains@.subrange(0, d as int), ed, bar0.events(), n0);
        }
        if dd.len() > 0 {
            let ghost prev = diffs@;
            diffs.push(DomainCapture { name: domain.name.clone(), registers: dd });
            proof {
                assert(captures_view(diffs@) =~= captures_view(prev).push(
                    (diffs@.last().name@, diffs@.last().registers@),
                ));
            }
        }
        d = d + 1;
    }
    proof {
        assert(golden.domains@.subrange(0, golden.domains@.len() as int) =~= golden.domains@);
    }
    diffs
}

/// Result of a golden-state replay attempt.
#[derive(Debug, Clone)]
pub struct ReplayResult {
    pub domains_applied: Vec<(String, usize)>,
    pub vram_unlocked_after: Option<String>,
    pub success: bool,
}

impl Default for ReplayResult {
    fn default() -> (r: Self)
        ensures
            r.domains_applied@.len() == 0,
            r.vram_unlocked_after is None,
            !r.success,
    {
        ReplayResult { domains_applied: Vec::new(), vram_unlocked_after: None, success: false }
    }
}

/// The writes of a domain's registers, in order.
pub open spec fn domain_writes(regs: Seq<(usize, u32)>) -> Seq<BusEvent> {
    regs.map_values(|r: (usize, u32)| BusEvent::Write { reg: r.0, val: r.1 })
}

/// `res` and the trace `ev` (from event `from`) are what replaying the
/// domains `cv` gives: the domains are taken in order, each one's registers
/// written in order; the replay stops at the first domain after which the
/// VRAM sentinel test passed (a success naming that domain), or fails after
/// all of them.
pub open spec fn golden_replayed(
    cv: Seq<(Seq<char>, Seq<(usize, u32)>)>,
    res: ReplayResult,
    ev: Seq<BusEvent>,
    from: int,
) -> bool {
    let applied = res.domains_applied@;
    &&& applied.len() <= cv.len()
    &&& forall|k: int|
        0 <= k < applied.len() ==> (#[trigger] applied[k]).0@ == cv[k].0 && applied[k].1 == cv[k].1.len()
    &&& res.success <==> res.vram_unlocked_after is Some
    &&& res.vram_unlocked_after matches Some(n) ==> applied.len() > 0 && n@ == cv[applied.len() - 1].0
    &&& !res.success ==> applied.len() == cv.len()
    &&& res.success ==> ev.len() >= 3 && crate::pmu::vram_probe_events(ev, ev.len() - 3)
        && crate::pmu::vram_probe_passed(ev, ev.len() - 3)
    &&& exists|wp: Seq<int>|
        #![trigger wp.len()]
        wp.len() == applied.len() && forall|k: int|
            0 <= k < wp.len() ==> from <= #[trigger] wp[k] && wp[k] + cv[k].1.len() <= ev.len()
                && ev.subrange(wp[k], wp[k] + cv[k].1.len()) == domain_writes(cv[k].1)
}

/// Replay a domain-ordered diff: before each domain, probe its first
/// register and recover the PRI bus if it faulted; write the domain's
/// registers; wait 50 ms and test VRAM with the sentinel at 0x26000. Stops
/// at the first domain after which VRAM answers; otherwise recovers the PRI
/// bus and goes on.
pub fn replay_golden_diff<B: RegisterBus>(bar0: &mut Bar0<B>, diffs: &Vec<DomainCapture>) -> (r:
    ReplayResult)
    ensures
        old(bar0).events().is_prefix_of(final(bar0).events()),
        r.domains_applied@.len() <= diffs@.len(),
        forall|k: int|
            0 <= k < r.domains_applied@.len() ==> (#[trigger] r.domains_applied@[k]).0@ == diffs@[k].name@
                && r.domains_applied@[k].1 == diffs@[k].registers@.len(),
        r.success <==> r.vram_unlocked_after is Some,
        r.vram_unlocked_after matches Some(n) ==> r.domains_applied@.len() > 0 && n@ == diffs@[r.domains_applied@.len() - 1].name@,
        !r.success ==> r.domains_applied@.len() == diffs@.len(),
        r.success ==> final(bar0).events().len() >= 3 && crate::pmu::vram_probe_events(
            final(bar0).events(),
            final(bar0).events().len() - 3,
        ) && crate::pmu::vram_probe_passed(final(bar0).events(), final(bar0).events().len() - 3),
        golden_replayed(captures_view(diffs@), r, final(bar0).events(), old(bar0).events().len() as int),
{
    let ghost e0 = bar0.events();
    proof {
        lemma_prefix_refl(e0);
    }
    let mut result = ReplayResult::default();
    let ghost cv = captures_view(diffs@);
    let ghost mut wp: Seq<int> = Seq::empty();
    let mut d: usize = 0;
    while d < diffs.len()
        invariant
            cv == captures_view(diffs@),
            wp.len() == d,
            forall|k: int|
                0 <= k < wp.len() ==> e0.len() <= #[trigger] wp[k] && wp[k] + cv[k].1.len() <= bar0.events().len()
                    && bar0.events().subrange(wp[k], wp[k] + cv[k].1.len()) == domain_writes(cv[k].1),
            d <= diffs@.len(),
            e0 == old(bar0).events(),
            e0.is_prefix_of(bar0.events()),
            result.domains_applied@.len() == d,
            !result.success,
            result.vram_unlocked_after is None,
            forall|k: int|
                0 <= k < d ==> (#[trigger] result.domains_applied@[k]).0@ == diffs@[k].name@
                    && result.domains_applied@[k].1 == diffs@[k].registers@.len(),
        decreases diffs.len() - d,
    {
        let domain = &diffs[d];
        let first_reg = if domain.registers.len() > 0 {
            domain.registers[0].0
        } else {
            0
        };
        let health = read_or_dead(bar0, first_reg);
        if is_pri_error(health) {
            recover_pri_bus(bar0);
        }
        let mut applied: usize = 0;
        let mut i: usize = 0;
        let ghost ws = bar0.events();
        proof {
            assert(ws + domain_writes(domain.registers@.take(0)) =~= ws);
        }
        while i < domain.registers.len()
            invariant
                i <= domain.registers@.len(),
                applied == i,
                e0.is_prefix_of(ws),
                bar0.events() == ws + domain_writes(domain.registers@.take(i as int)),
            decreases domain.registers.len() - i,
        {
            let (off, val) = domain.registers[i];
            let _ = bar0.write(off, val);
            proof {
                assert(domain_writes(domain.registers@.take(i + 1)) =~= domain_writes(
                    domain.registers@.take(i as int),
                ).push(BusEvent::Write { reg: off, val }));
            }
            applied = applied + 1;
            i = i + 1;
        }
        proof {
            let g = bar0.events();
            assert(domain.registers@.take(i as int) =~= domain.registers@);
            assert(ws.is_prefix_of(g)) by {
                assert(ws =~= g.subrange(0, ws.len() as int));
            }
            assert(cv[d as int].1 == domain.registers@);
            assert forall|k: int| 0 <= k < wp.len() implies #[trigger] wp[k] + cv[k].1.len() <= g.len()
                && g.subrange(wp[k], wp[k] + cv[k].1.len()) == domain_writes(cv[k].1) by {
                assert(g.subrange(wp[k], wp[k] + cv[k].1.len()) =~= ws.subrange(wp[k], wp[k] + cv[k].1.len()));
            }
            assert(g.subrange(ws.len() as int, ws.len() as int + cv[d as int].1.len()) =~= domain_writes(cv[d as int].1));
            wp = wp.push(ws.len() as int);
        }
        let ghost gw = bar0.events();
        result.domains_applied.push((domain.name.clone(), applied));
        bar0.delay(50_000);
        let ghost ep = bar0.events();
        let (vram_ok, _) = pramin_sentinel(bar0, 0x0002_6000, 0xCAFE_DEAD);
        proof {
            assert(0x0002_6000u32 >> 16u32 == 2) by (bit_vector);
            assert(0x0002_6000u32 & 0xFFFFu32 == 0x6000) by (bit_vector);
            assert(bar0.events().len() - 3 == ep.len());
        }
        proof {
            lemma_domain_writes_kept(wp, cv, gw, bar0.events(), e0.len() as int);
        }
        if vram_ok {
            result.vram_unlocked_after = Some(domain.name.clone());
            result.success = true;
            proof {
                assert(wp.len() == result.domains_applied@.len());
            }
            return result;
        }
        let ghost gr = bar0.events();
        recover_pri_bus(bar0);
        proof {
            lemma_domain_writes_kept(wp, cv, gr, bar0.events(), e0.len() as int);
        }
        d = d + 1;
    }
    proof {
        assert(wp.len() == result.domains_applied@.len());
    }
    result
}

/// Domain writes seen in a trace stay there as the trace grows.
proof fn lemma_domain_writes_kept(
    wp: Seq<int>,
    cv: Seq<(Seq<char>, Seq<(usize, u32)>)>,
    a: Seq<BusEvent>,
    b: Seq<BusEvent>,
    from: int,
)
    requires
        0 <= from,
        a.is_prefix_of(b),
        wp.len() <= cv.len(),
        forall|k: int|
            0 <= k < wp.len() ==> from <= #[trigger] wp[k] && wp[k] + cv[k].1.len() <= a.len() && a.subrange(
                wp[k],
                wp[k] + cv[k].1.len(),
            ) == domain_writes(cv[k].1),
    ensures
        forall|k: int|
            0 <= k < wp.len() ==> from <= #[trigger] wp[k] && wp[k] + cv[k].1.len() <= b.len() && b.subrange(
                wp[k],
                wp[k] + cv[k].1.len(),
            ) == domain_writes(cv[k].1),
{
    broadcast use Seq::lemma_prefix_index_eq;

    assert forall|k: int| 0 <= k < wp.len() implies from <= #[trigger] wp[k] && wp[k] + cv[k].1.len() <= b.len()
        && b.subrange(wp[k], wp[k] + cv[k].1.len()) == domain_writes(cv[k].1) by {
        assert(b.subrange(wp[k], wp[k] + cv[k].1.len()) =~= a.subrange(wp[k], wp[k] + cv[k].1.len()));
    }
}

/// The differential pipeline on a captured golden state: the target's
/// BOOT0 (register 0, 0xDEADDEAD when the read fails) must equal the
/// oracle's; then the golden registers that differ are replayed. With no
/// difference, the result is a success with nothing applied.
pub fn differential_training<B: RegisterBus>(bar0: &mut Bar0<B>, golden: &GoldenCapture) -> (r:
    Result<ReplayResult, String>)
    ensures
        old(bar0).events().is_prefix_of(final(bar0).events()),
        old(bar0).events().len() < final(bar0).events().len(),
        final(bar0).events()[old(bar0).events().len() as int] is Read,
        final(bar0).events()[old(bar0).events().len() as int]->Read_reg == 0,
        ({
            let target = read_value(final(bar0).events()[old(bar0).events().len() as int], 0xDEAD_DEAD);
            match r {
                Err(msg) => target != golden.boot0 && msg@ == "BOOT0 mismatch: oracle="@
                    + crate::text::spec_hex8(golden.boot0) + " target="@ + crate::text::spec_hex8(target),
                Ok(res) => target == golden.boot0 && ({
                    let n1 = old(bar0).events().len() as int + 1;
                    let d_end: int = n1 + flatten_domains(golden.domains@).len();
                    let cv = golden_diff(golden.domains@, final(bar0).events().take(d_end), n1);
                    &&& d_end <= final(bar0).events().len()
                    &&& if cv.len() == 0 {
                        res.domains_applied@.len() == 0 && res.vram_unlocked_after is None && res.success
                            && final(bar0).events().len() == d_end
                    } else {
                        golden_replayed(cv, res, final(bar0).events(), d_end)
                    }
                }),
            }
        }),
{
    let ghost e0 = bar0.events();
    let target_boot0 = read_or_dead(bar0, 0);
    let ghost e1 = bar0.events();
    if golden.boot0 != target_boot0 {
        let mut msg = String::from_str("BOOT0 mismatch: oracle=");
        crate::text::push_hex8(&mut msg, golden.boot0);
        msg.append(" target=");
        crate::text::push_hex8(&mut msg, target_boot0);
        return Err(msg);
    }
    let diffs = diff_golden_vs_cold(bar0, golden);
    let ghost e2 = bar0.events();
    if diffs.len() == 0 {
        proof {
            assert(bar0.events()[e0.len() as int] == e1[e0.len() as int]);
            assert(e2.take(e2.len() as int) =~= e2);
        }
        return Ok(ReplayResult { domains_applied: Vec::new(), vram_unlocked_after: None, success: true });
    }
    let res = replay_golden_diff(bar0, &diffs);
    proof {
        assert(bar0.events()[e0.len() as int] == e1[e0.len() as int]);
        assert(bar0.events().take(e2.len() as int) =~= e2);
    }
    Ok(res)
}

} // verus!
