//! Recipe replay: apply captured init recipes to a cold GPU's BAR0.
//!
//! Two recipe formats: [`RecipeStep`]s (write-only, domain-prioritized) and
//! [`DevinitOp`]s (VBIOS DEVINIT instructions: writes, read-modify-writes,
//! masked adds and delays). After replay the GPU is checked for life:
//! PTIMER ticking and a valid PMC_BOOT_0.
use vstd::prelude::*;
use vstd::string::StrSliceExecFns;

use crate::boot_follower::RecipeStep;
use crate::bus::{
    is_pri_error, lemma_prefix_chain, lemma_prefix_of_push, lemma_prefix_refl, Bar0, BusEvent,
    MmioError, RegisterBus,
};
use crate::pmu::read_value;
use crate::text::spec_dec_signed;

verus! {

broadcast use {lemma_prefix_chain, lemma_prefix_of_push, Seq::lemma_prefix_index_eq};

/// PTIMER register offsets (NV_PTIMER_TIME_0 / TIME_1).
pub const PTIMER_TIME_0: usize = 0x9400;

pub const PTIMER_TIME_1: usize = 0x9410;

/// PMC_BOOT_0: chipset identification register.
pub const PMC_BOOT_0: usize = 0x0;

/// PCLOCK status register: a non-PRI answer means the PLLs are locking.
pub const PCLOCK_STATUS: usize = 0x13_7004;

/// Polls 5 ms apart within a timeout of `timeout_ms`.
pub open spec fn polls_within(timeout_ms: u64) -> int {
    timeout_ms as int / 5
}

/// Callback invoked between domain boundaries during phased replay.
///
/// Implementors may poll hardware (PLL lock, PTIMER ticking) and decide
/// whether to proceed (`Ok(true)`), stop gracefully (`Ok(false)`) or fail.
pub trait ReplayHooks: core::fmt::Debug {
    /// The hooks always answer `Ok(true)`.
    spec fn always_proceeds(&self) -> bool;

    /// What a call after `domain` (whose first step had `priority`) does:
    /// the trace `a` becomes `b` and the answer is `r`.
    spec fn hook_effect(
        &self,
        domain: Seq<char>,
        priority: u32,
        a: Seq<BusEvent>,
        b: Seq<BusEvent>,
        r: Result<bool, MmioError>,
    ) -> bool;

    /// Called after all steps of `domain` have been written.
    fn on_domain_complete<B: RegisterBus>(&self, bar0: &mut Bar0<B>, domain: &str, priority: u32) -> (r:
        Result<bool, MmioError>)
        ensures
            old(bar0).events().is_prefix_of(final(bar0).events()),
            self.always_proceeds() ==> r == Ok::<bool, MmioError>(true),
            self.hook_effect(domain@, priority, old(bar0).events(), final(bar0).events(), r),
    ;
}

/// No-op hooks: proceed unconditionally between domains.
#[derive(Debug)]
pub struct NoHooks;

impl ReplayHooks for NoHooks {
    open spec fn always_proceeds(&self) -> bool {
        true
    }

    open spec fn hook_effect(
        &self,
        domain: Seq<char>,
        priority: u32,
        a: Seq<BusEvent>,
        b: Seq<BusEvent>,
        r: Result<bool, MmioError>,
    ) -> bool {
        b == a && r == Ok::<bool, MmioError>(true)
    }

    fn on_domain_complete<B: RegisterBus>(&self, bar0: &mut Bar0<B>, domain: &str, priority: u32) -> (r:
        Result<bool, MmioError>)
        ensures
            final(bar0).events() == old(bar0).events(),
    {
        proof {
            lemma_prefix_refl(bar0.events());
        }
        Ok(true)
    }
}

/// Kepler PLL lock hooks: after ROOT_PLL, let the PLLs settle and read
/// PCLOCK_STATUS; after CLK, poll PCLOCK until it answers and then PTIMER
/// until it ticks.
#[derive(Debug)]
pub struct KeplerPllHooks {
    pub pll_settle_ms: u64,
    pub poll_timeout_ms: u64,
}

impl Default for KeplerPllHooks {
    fn default() -> (r: Self)
        ensures
            r.pll_settle_ms == 50,
            r.poll_timeout_ms == 500,
    {
        KeplerPllHooks { pll_settle_ms: 50, poll_timeout_ms: 500 }
    }
}

impl ReplayHooks for KeplerPllHooks {
    open spec fn always_proceeds(&self) -> bool {
        true
    }

    open spec fn hook_effect(
        &self,
        domain: Seq<char>,
        priority: u32,
        a: Seq<BusEvent>,
        b: Seq<BusEvent>,
        r: Result<bool, MmioError>,
    ) -> bool {
        kepler_hook_trace(*self, domain, a, b) && r == Ok::<bool, MmioError>(true)
    }

    fn on_domain_complete<B: RegisterBus>(&self, bar0: &mut Bar0<B>, domain: &str, priority: u32) -> (r:
        Result<bool, MmioError>)
        ensures
            kepler_hook_trace(*self, domain@, old(bar0).events(), final(bar0).events()),
    {
        let ghost e0 = bar0.events();
        proof {
            lemma_prefix_refl(e0);
        }
        if chars_eq(domain, "ROOT_PLL") {
            let settle_us: u64 = if self.pll_settle_ms <= u64::MAX / 1000 {
                self.pll_settle_ms * 1000
            } else {
                u64::MAX
            };
            bar0.delay(settle_us);
            let _status = bar0.read(PCLOCK_STATUS);
        } else if chars_eq(domain, "CLK") {
            let polls = self.poll_timeout_ms / 5;
            let mut k: u64 = 0;
            while k < polls
                invariant
                    e0.is_prefix_of(bar0.events()),
                    forall|i: int|
                        e0.len() <= i < bar0.events().len() ==> ((#[trigger] bar0.events()[i]) is Read
                            && bar0.events()[i]->Read_reg == PCLOCK_STATUS) || bar0.events()[i] == (BusEvent::Delay {
                            us: 5000,
                        }),
                decreases polls - k,
            {
                let ghost f0 = bar0.events();
                let status = match bar0.read(PCLOCK_STATUS) {
                    Ok(v) => v,
                    Err(_) => 0xDEAD_DEAD,
                };
                let ghost f1 = bar0.events();
                proof {
                    assert forall|i: int| e0.len() <= i < f1.len() implies ((#[trigger] f1[i]) is Read
                        && f1[i]->Read_reg == PCLOCK_STATUS) || f1[i] == (BusEvent::Delay { us: 5000 }) by {
                        if i < f0.len() {
                            assert(f1[i] == f0[i]);
                        }
                    }
                }
                if !is_pri_error(status) {
                    break ;
                }
                bar0.delay(5000);
                proof {
                    let f2 = bar0.events();
                    assert forall|i: int| e0.len() <= i < f2.len() implies ((#[trigger] f2[i]) is Read
                        && f2[i]->Read_reg == PCLOCK_STATUS) || f2[i] == (BusEvent::Delay { us: 5000 }) by {
                        if i < f0.len() {
                            assert(f2[i] == f0[i]);
                        }
                    }
                }
                k = k + 1;
            }
            let ghost em = bar0.events();
            let _ticking = poll_ptimer_ticking(bar0, self.poll_timeout_ms);
            proof {
                let b = bar0.events();
                assert(b.take(em.len() as int) =~= em);
                assert forall|i: int| e0.len() <= i < em.len() implies ((#[trigger] b[i]) is Read
                    && b[i]->Read_reg == PCLOCK_STATUS) || b[i] == (BusEvent::Delay { us: 5000 }) by {
                    assert(b[i] == em[i]);
                }
                assert(kepler_clk_trace(*self, e0, b, em.len() as int));
            }
        }
        Ok(true)
    }
}

/// Volta replay hooks: after a clock domain (ROOT_PLL or CLK), check that
/// PTIMER ticks; clocks often survive a previous driver session.
#[derive(Debug)]
pub struct VoltaReplayHooks {
    pub poll_timeout_ms: u64,
}

impl Default for VoltaReplayHooks {
    fn default() -> (r: Self)
        ensures
            r.poll_timeout_ms == 500,
    {
        VoltaReplayHooks { poll_timeout_ms: 500 }
    }
}

impl ReplayHooks for VoltaReplayHooks {
    open spec fn always_proceeds(&self) -> bool {
        true
    }

    open spec fn hook_effect(
        &self,
        domain: Seq<char>,
        priority: u32,
        a: Seq<BusEvent>,
        b: Seq<BusEvent>,
        r: Result<bool, MmioError>,
    ) -> bool {
        volta_hook_trace(*self, domain, a, b) && r == Ok::<bool, MmioError>(true)
    }

    fn on_domain_complete<B: RegisterBus>(&self, bar0: &mut Bar0<B>, domain: &str, priority: u32) -> (r:
        Result<bool, MmioError>)
        ensures
            volta_hook_trace(*self, domain@, old(bar0).events(), final(bar0).events()),
    {
        proof {
            lemma_prefix_refl(bar0.events());
        }
        if chars_eq(domain, "ROOT_PLL") || chars_eq(domain, "CLK") {
            let _ticking = poll_ptimer_ticking(bar0, self.poll_timeout_ms);
        }
        Ok(true)
    }
}

/// The domain is a clock domain: ROOT_PLL or CLK.
pub open spec fn is_clock_domain(domain: Seq<char>) -> bool {
    domain == "ROOT_PLL"@ || domain == "CLK"@
}

/// The two strings hold the same characters.
fn chars_eq(a: &str, b: &str) -> (r: bool)
    ensures
        r == (a@ == b@),
{
    let n = a.unicode_len();
    if n != b.unicode_len() {
        return false;
    }
    let mut i: usize = 0;
    while i < n
        invariant
            n == a@.len(),
            a@.len() == b@.len(),
            i <= n,
            forall|j: int| 0 <= j < i ==> a@[j] == b@[j],
        decreases n - i,
    {
        if a.get_char(i) != b.get_char(i) {
            return false;
        }
        i = i + 1;
    }
    proof {
        assert(a@ =~= b@);
    }
    true
}

/// The trace `b` is `a` followed by a PTIMER poll of `timeout_ms`: a first
/// read of PTIMER_TIME_0, then up to `timeout_ms / 5` rounds of a 5 ms wait
/// and a read, stopping at the first read that differs from the first.
pub open spec fn ptimer_poll_trace(a: Seq<BusEvent>, b: Seq<BusEvent>, timeout_ms: u64) -> bool {
    let n = a.len() as int;
    let m = (b.len() - n - 1) / 2;
    &&& a.is_prefix_of(b)
    &&& b.len() == n + 1 + 2 * m
    &&& 0 <= m <= polls_within(timeout_ms)
    &&& b[n] is Read && b[n]->Read_reg == PTIMER_TIME_0
    &&& forall|k: int|
        1 <= k <= m ==> b[n + 2 * k - 1] == (BusEvent::Delay { us: 5000 }) && (#[trigger] b[n + 2
            * k]) is Read && b[n + 2 * k]->Read_reg == PTIMER_TIME_0
    &&& forall|k: int| 1 <= k < m ==> timer_value(#[trigger] b[n + 2 * k]) == timer_value(b[n])
    &&& m < polls_within(timeout_ms) ==> m >= 1 && timer_value(b[n + 2 * m]) != timer_value(b[n])
}

/// What the Volta hooks do to the trace `a`, giving `b`: a PTIMER poll
/// after a clock domain, nothing otherwise.
pub open spec fn volta_hook_trace(h: VoltaReplayHooks, domain: Seq<char>, a: Seq<BusEvent>, b: Seq<BusEvent>) -> bool {
    if is_clock_domain(domain) {
        ptimer_poll_trace(a, b, h.poll_timeout_ms)
    } else {
        b == a
    }
}

/// After CLK the Kepler hooks poll PCLOCK_STATUS (reads and 5 ms waits)
/// from the end of `a` up to event `p`, then poll PTIMER to the end of `b`.
pub open spec fn kepler_clk_trace(h: KeplerPllHooks, a: Seq<BusEvent>, b: Seq<BusEvent>, p: int) -> bool {
    &&& a.len() <= p <= b.len()
    &&& a.is_prefix_of(b)
    &&& ptimer_poll_trace(b.take(p), b, h.poll_timeout_ms)
    &&& forall|i: int|
        a.len() <= i < p ==> ((#[trigger] b[i]) is Read && b[i]->Read_reg == PCLOCK_STATUS) || b[i]
            == (BusEvent::Delay { us: 5000 })
}

/// What the Kepler hooks do to the trace `a`, giving `b`: after ROOT_PLL
/// a settle wait and a PCLOCK_STATUS read, after CLK the polls of
/// [`kepler_clk_trace`], and nothing after another domain.
pub open spec fn kepler_hook_trace(h: KeplerPllHooks, domain: Seq<char>, a: Seq<BusEvent>, b: Seq<BusEvent>) -> bool {
    &&& a.is_prefix_of(b)
    &&& domain == "ROOT_PLL"@ ==> b.len() == a.len() + 2 && b[a.len() as int]
        == (BusEvent::Delay {
        us: if h.pll_settle_ms <= u64::MAX / 1000 {
            (h.pll_settle_ms * 1000) as u64
        } else {
            u64::MAX
        },
    }) && b.last() is Read && b.last()->Read_reg == PCLOCK_STATUS
    &&& domain == "CLK"@ && domain != "ROOT_PLL"@ ==> exists|
        p: int,
    | #[trigger] kepler_clk_trace(h, a, b, p)
    &&& !is_clock_domain(domain) ==> b == a
}

/// The value a PTIMER read delivered (0 when it failed).
pub open spec fn timer_value(e: BusEvent) -> u32 {
    read_value(e, 0)
}

/// Poll PTIMER_TIME_0 for evidence of ticking: read it, then up to
/// `timeout_ms / 5` times wait 5 ms and read it again; ticking when a
/// later read differs from the first (failed reads count as 0).
pub fn poll_ptimer_ticking<B: RegisterBus>(bar0: &mut Bar0<B>, timeout_ms: u64) -> (r: bool)
    ensures
        old(bar0).events().is_prefix_of(final(bar0).events()),
        ({
            let ev = final(bar0).events();
            let n = old(bar0).events().len() as int;
            let m = (ev.len() - n - 1) / 2;
            &&& ev.len() == n + 1 + 2 * m
            &&& 0 <= m <= polls_within(timeout_ms)
            &&& ev[n] is Read && ev[n]->Read_reg == PTIMER_TIME_0
            &&& forall|k: int|
                1 <= k <= m ==> ev[n + 2 * k - 1] == (BusEvent::Delay { us: 5000 }) && (
                #[trigger] ev[n + 2 * k]) is Read && ev[n + 2 * k]->Read_reg == PTIMER_TIME_0
            &&& forall|k: int|
                1 <= k < m ==> timer_value(#[trigger] ev[n + 2 * k]) == timer_value(ev[n])
            &&& r <==> (m >= 1 && timer_value(ev[n + 2 * m]) != timer_value(ev[n]))
            &&& !r ==> m == polls_within(timeout_ms)
        }),
{
    let ghost e0 = bar0.events();
    let ghost n = e0.len() as int;
    let t0_initial = match bar0.read(PTIMER_TIME_0) {
        Ok(v) => v,
        Err(_) => 0,
    };
    let polls = timeout_ms / 5;
    let mut k: u64 = 0;
    while k < polls
        invariant
            n == e0.len(),
            e0 == old(bar0).events(),
            e0.is_prefix_of(bar0.events()),
            k <= polls,
            polls == timeout_ms / 5,
            bar0.events().len() == n + 1 + 2 * k,
            bar0.events()[n] is Read && bar0.events()[n]->Read_reg == PTIMER_TIME_0,
            timer_value(bar0.events()[n]) == t0_initial,
            forall|j: int|
                1 <= j <= k ==> bar0.events()[n + 2 * j - 1] == (BusEvent::Delay { us: 5000 }) && (
                #[trigger] bar0.events()[n + 2 * j]) is Read && bar0.events()[n + 2 * j]->Read_reg
                    == PTIMER_TIME_0 && timer_value(bar0.events()[n + 2 * j]) == t0_initial,
        decreases polls - k,
    {
        let ghost before = bar0.events();
        bar0.delay(5000);
        let t0_now = match bar0.read(PTIMER_TIME_0) {
            Ok(v) => v,
            Err(_) => 0,
        };
        proof {
            assert(before.is_prefix_of(bar0.events()));
            assert(bar0.events()[n + 2 * (k + 1) - 1] == (BusEvent::Delay { us: 5000 }));
        }
        if t0_now != t0_initial {
            proof {
                let ev = bar0.events();
                let m = k + 1;
                assert((ev.len() - n - 1) / 2 == m);
                assert forall|j: int| 1 <= j <= m implies ev[n + 2 * j - 1] == (BusEvent::Delay {
                    us: 5000,
                }) && (#[trigger] ev[n + 2 * j]) is Read && ev[n + 2 * j]->Read_reg == PTIMER_TIME_0 by {
                    if j < m {
                        assert(before[n + 2 * j] == ev[n + 2 * j]);
                    }
                }
            }
            return true;
        }
        k = k + 1;
    }
    proof {
        let ev = bar0.events();
        assert((ev.len() - n - 1) / 2 == k);
    }
    false
}

/// A single VBIOS DEVINIT instruction.
#[derive(Debug, Clone, Copy)]
pub enum DevinitOp {
    /// Direct register write (ZM_REG / ZM_REG_SEQUENCE).
    ZmReg { reg: usize, val: u32 },
    /// Read-modify-write (NV_REG): `reg = (reg & mask) | or_val`.
    NvReg { reg: usize, mask: u32, or_val: u32 },
    /// Masked add (ZM_MASK_ADD): `field = (reg & !inv_mask) + add_val`,
    /// then `reg = (reg & inv_mask) | (field & !inv_mask)`.
    ZmMaskAdd { reg: usize, inv_mask: u32, add_val: u32 },
    /// Delay in microseconds (TIME).
    Time { usec: u32 },
}

/// A named DEVINIT script containing a sequence of operations.
#[derive(Debug, Clone)]
pub struct DevinitScript {
    /// Script ID from the BIT 'I' table (0-based, -1 for unnamed scripts).
    pub id: i32,
    /// Hex address of the script in the VBIOS ROM.
    pub addr: String,
    /// Ordered sequence of register operations.
    pub ops: Vec<DevinitOp>,
}

/// NV_REG's new value.
pub open spec fn nv_reg_value(cur: u32, mask: u32, or_val: u32) -> u32 {
    (cur & mask) | or_val
}

/// ZM_MASK_ADD's new value: the bits outside `inv_mask` take the wrapped
/// sum, the others are kept.
pub open spec fn mask_add_value(cur: u32, inv_mask: u32, add_val: u32) -> u32 {
    (cur & inv_mask) | ((((cur & !inv_mask) as int + add_val as int) % 0x1_0000_0000) as u32 & !inv_mask)
}

/// The bus accesses of one DEVINIT op, given what its read (if any)
/// answered.
pub open spec fn op_events(op: DevinitOp, read: Option<u32>) -> Seq<BusEvent> {
    match op {
        DevinitOp::ZmReg { reg, val } => seq![BusEvent::Write { reg, val }],
        DevinitOp::NvReg { reg, mask, or_val } => match read {
            Some(cur) => seq![
                BusEvent::Read { reg, result: Some(cur) },
                BusEvent::Write { reg, val: nv_reg_value(cur, mask, or_val) },
            ],
            None => seq![BusEvent::Read { reg, result: None }],
        },
        DevinitOp::ZmMaskAdd { reg, inv_mask, add_val } => match read {
            Some(cur) => seq![
                BusEvent::Read { reg, result: Some(cur) },
                BusEvent::Write { reg, val: mask_add_value(cur, inv_mask, add_val) },
            ],
            None => seq![BusEvent::Read { reg, result: None }],
        },
        DevinitOp::Time { usec } => seq![BusEvent::Delay { us: usec as u64 }],
    }
}

/// What each DEVINIT op does to the bus, given the value `cur` its read
/// returns: ZM_REG writes its value; TIME waits; NV_REG reads the register
/// and writes back the bits of `mask` kept from `cur` with the bits of
/// `or_val` set; ZM_MASK_ADD reads the register and writes back the bits
/// of `inv_mask` kept from `cur`, the other bits (the field) holding the
/// field of `cur` plus `add_val`, wrapping within the field. An op whose
/// read fails makes only that read.
pub proof fn lemma_devinit_op_semantics(op: DevinitOp, cur: u32)
    ensures
        op matches DevinitOp::ZmReg { reg, val } ==> op_events(op, Some(cur)) == seq![
            BusEvent::Write { reg, val },
        ],
        op matches DevinitOp::Time { usec } ==> op_events(op, Some(cur)) == seq![
            BusEvent::Delay { us: usec as u64 },
        ],
        op matches DevinitOp::NvReg { reg, mask, or_val } ==> {
            let ev = op_events(op, Some(cur));
            &&& ev.len() == 2
            &&& ev[0] == (BusEvent::Read { reg, result: Some(cur) })
            &&& ev[1] is Write && ev[1]->Write_reg == reg
            &&& ev[1]->Write_val & or_val == or_val
            &&& ev[1]->Write_val & !or_val == cur & mask & !or_val
            &&& op_events(op, None) == seq![BusEvent::Read { reg, result: None }]
        },
        op matches DevinitOp::ZmMaskAdd { reg, inv_mask, add_val } ==> {
            let ev = op_events(op, Some(cur));
            &&& ev.len() == 2
            &&& ev[0] == (BusEvent::Read { reg, result: Some(cur) })
            &&& ev[1] is Write && ev[1]->Write_reg == reg
            &&& ev[1]->Write_val & inv_mask == cur & inv_mask
            &&& ev[1]->Write_val & !inv_mask == (cur & !inv_mask).wrapping_add(add_val) & !inv_mask
            &&& op_events(op, None) == seq![BusEvent::Read { reg, result: None }]
        },
{
    match op {
        DevinitOp::NvReg { reg, mask, or_val } => {
            let v = nv_reg_value(cur, mask, or_val);
            assert(v & or_val == or_val && v & !or_val == cur & mask & !or_val) by (bit_vector)
                requires
                    v == (cur & mask) | or_val,
            ;
        },
        DevinitOp::ZmMaskAdd { reg, inv_mask, add_val } => {
            let v = mask_add_value(cur, inv_mask, add_val);
            let f = cur & !inv_mask;
            let w = f.wrapping_add(add_val);
            assert(w == ((f as int + add_val as int) % 0x1_0000_0000) as u32) by {
                assert(f as int + add_val as int >= 0x1_0000_0000 ==> (f as int + add_val as int) % 0x1_0000_0000
                    == f as int + add_val as int - 0x1_0000_0000);
            }
            assert(v & inv_mask == cur & inv_mask && v & !inv_mask == w & !inv_mask) by (bit_vector)
                requires
                    v == (cur & inv_mask) | (w & !inv_mask),
            ;
        },
        _ => {},
    }
}

/// Apply one DEVINIT op. A failed read fails the op before it writes.
pub fn apply_devinit_op<B: RegisterBus>(bar0: &mut Bar0<B>, op: &DevinitOp) -> (r: Result<(), MmioError>)
    ensures
        exists|read: Option<u32>|
            final(bar0).events() == old(bar0).events() + op_events(*op, read) && (read is None
                && !(op is ZmReg) && !(op is Time) ==> r is Err),
{
    let ghost e0 = bar0.events();
    match op {
        DevinitOp::ZmReg { reg, val } => {
            let r = bar0.write(*reg, *val);
            proof {
                assert(bar0.events() =~= e0 + op_events(*op, None));
            }
            r
        },
        DevinitOp::NvReg { reg, mask, or_val } => {
            let current = match bar0.read(*reg) {
                Ok(v) => v,
                Err(e) => {
                    proof {
                        assert(bar0.events() =~= e0 + op_events(*op, None));
                    }
                    return Err(e);
                },
            };
            let r = bar0.write(*reg, (current & *mask) | *or_val);
            proof {
                assert(bar0.events() =~= e0 + op_events(*op, Some(current)));
            }
            r
        },
        DevinitOp::ZmMaskAdd { reg, inv_mask, add_val } => {
            let current = match bar0.read(*reg) {
                Ok(v) => v,
                Err(e) => {
                    proof {
                        assert(bar0.events() =~= e0 + op_events(*op, None));
                    }
                    return Err(e);
                },
            };
            let field = (current & !*inv_mask).wrapping_add(*add_val);
            let new_val = (current & *inv_mask) | (field & !*inv_mask);
            let r = bar0.write(*reg, new_val);
            proof {
                assert(bar0.events() =~= e0 + op_events(*op, Some(current)));
            }
            r
        },
        DevinitOp::Time { usec } => {
            bar0.delay(*usec as u64);
            proof {
                assert(bar0.events() =~= e0 + op_events(*op, None));
            }
            Ok(())
        },
    }
}

/// The (applied, failed) totals of count entries.
pub open spec fn count_totals(s: Seq<(Seq<char>, (usize, usize))>) -> (int, int)
    decreases s.len(),
{
    if s.len() == 0 {
        (0, 0)
    } else {
        let t = count_totals(s.drop_last());
        (t.0 + s.last().1.0, t.1 + s.last().1.1)
    }
}

/// No entry counts more than the totals.
proof fn lemma_entry_within_totals(s: Seq<(Seq<char>, (usize, usize))>, k: int)
    requires
        0 <= k < s.len(),
    ensures
        s[k].1.0 <= count_totals(s).0,
        s[k].1.1 <= count_totals(s).1,
        count_totals(s).0 >= 0,
        count_totals(s).1 >= 0,
    decreases s.len(),
{
    lemma_totals_nonneg(s.drop_last());
    if k < s.len() - 1 {
        lemma_entry_within_totals(s.drop_last(), k);
    }
}

proof fn lemma_totals_nonneg(s: Seq<(Seq<char>, (usize, usize))>)
    ensures
        count_totals(s).0 >= 0,
        count_totals(s).1 >= 0,
    decreases s.len(),
{
    if s.len() > 0 {
        lemma_totals_nonneg(s.drop_last());
    }
}

/// Changing one entry's counts changes the totals by as much.
proof fn lemma_totals_update(s: Seq<(Seq<char>, (usize, usize))>, k: int, e: (Seq<char>, (usize, usize)))
    requires
        0 <= k < s.len(),
    ensures
        count_totals(s.update(k, e)) == (count_totals(s).0 - s[k].1.0 + e.1.0, count_totals(s).1 - s[k].1.1
            + e.1.1),
    decreases s.len(),
{
    if k == s.len() - 1 {
        assert(s.update(k, e).drop_last() =~= s.drop_last());
    } else {
        lemma_totals_update(s.drop_last(), k, e);
        assert(s.update(k, e).drop_last() =~= s.drop_last().update(k, e));
    }
}

/// The names that count entries are listed under.
pub open spec fn count_names(s: Seq<(Seq<char>, (usize, usize))>) -> Set<Seq<char>> {
    Set::new(|n: Seq<char>| exists|i: int| 0 <= i < s.len() && #[trigger] s[i].0 == n)
}

/// Counts of applied and failed writes per name (a domain, or a script),
/// each name listed once, in the order it was first counted.
#[derive(Debug)]
pub struct CountTable {
    entries: Vec<(String, (usize, usize))>,
}

impl CountTable {
    /// The entries as (name, (applied, failed)).
    pub closed spec fn entries_view(&self) -> Seq<(Seq<char>, (usize, usize))> {
        self.entries@.map_values(|e: (String, (usize, usize))| (e.0@, e.1))
    }

    /// Each name is listed once.
    pub open spec fn wf(&self) -> bool {
        forall|i: int, j: int|
            0 <= i < j < self.entries_view().len() ==> #[trigger] self.entries_view()[i].0
                != #[trigger] self.entries_view()[j].0
    }

    /// An empty table.
    pub fn new() -> (r: Self)
        ensures
            r.entries_view().len() == 0,
            r.wf(),
    {
        CountTable { entries: Vec::new() }
    }

    /// Number of names counted.
    pub fn len(&self) -> (r: usize)
        ensures
            r == self.entries_view().len(),
    {
        self.entries.len()
    }

    /// The counts of `key`, if it was counted.
    pub fn get(&self, key: &str) -> (r: Option<&(usize, usize)>)
        ensures
            r matches Some(c) ==> exists|i: int|
                0 <= i < self.entries_view().len() && #[trigger] self.entries_view()[i] == (key@, *c),
            r is None ==> forall|i: int|
                0 <= i < self.entries_view().len() ==> #[trigger] self.entries_view()[i].0 != key@,
    {
        let mut i: usize = 0;
        while i < self.entries.len()
            invariant
                i <= self.entries@.len(),
                forall|j: int| 0 <= j < i ==> #[trigger] self.entries_view()[j].0 != key@,
            decreases self.entries.len() - i,
        {
            if chars_eq(self.entries[i].0.as_str(), key) {
                assert(self.entries_view()[i as int] == (key@, self.entries@[i as int].1));
                return Some(&self.entries[i].1);
            }
            i = i + 1;
        }
        None
    }

    /// Count one more applied (when `ok`) or failed write under `key`.
    fn bump(&mut self, key: &String, ok: bool)
        requires
            old(self).wf(),
            count_totals(old(self).entries_view()).0 < usize::MAX,
            count_totals(old(self).entries_view()).1 < usize::MAX,
        ensures
            final(self).wf(),
            count_totals(final(self).entries_view()) == if ok {
                (count_totals(old(self).entries_view()).0 + 1, count_totals(old(self).entries_view()).1)
            } else {
                (count_totals(old(self).entries_view()).0, count_totals(old(self).entries_view()).1 + 1)
            },
            count_names(final(self).entries_view()) == count_names(old(self).entries_view()).insert(key@),
    {
        let ghost v0 = self.entries_view();
        let mut i: usize = 0;
        while i < self.entries.len()
            invariant
                i <= self.entries@.len(),
                v0 == self.entries_view(),
                v0 == old(self).entries_view(),
                old(self).wf(),
                count_totals(v0).0 < usize::MAX,
                count_totals(v0).1 < usize::MAX,
                forall|j: int| 0 <= j < i ==> #[trigger] self.entries_view()[j].0 != key@,
            decreases self.entries.len() - i,
        {
            if chars_eq(self.entries[i].0.as_str(), key.as_str()) {
                let cur = self.entries[i].1;
                proof {
                    assert(self.entries_view()[i as int] == (self.entries@[i as int].0@, self.entries@[i as int].1));
                    lemma_entry_within_totals(v0, i as int);
                }
                let next = if ok {
                    (cur.0 + 1, cur.1)
                } else {
                    (cur.0, cur.1 + 1)
                };
                let name = self.entries[i].0.clone();
                self.entries.set(i, (name, next));
                proof {
                    assert(self.entries_view() =~= v0.update(i as int, (key@, next)));
                    lemma_totals_update(v0, i as int, (key@, next));
                    let ev = self.entries_view();
                    assert(v0[i as int].0 == key@);
                    assert forall|j: int| 0 <= j < v0.len() implies #[trigger] ev[j].0 == v0[j].0 by {}
                    assert forall|n: Seq<char>| #[trigger] count_names(ev).contains(n) <==> count_names(v0).insert(
                        key@,
                    ).contains(n) by {
                        if count_names(ev).contains(n) {
                            let j = choose|j: int| 0 <= j < ev.len() && #[trigger] ev[j].0 == n;
                            assert(v0[j].0 == n);
                        }
                        if n == key@ {
                            assert(ev[i as int].0 == n);
                        } else if count_names(v0).contains(n) {
                            let j = choose|j: int| 0 <= j < v0.len() && #[trigger] v0[j].0 == n;
                            assert(ev[j].0 == n);
                        }
                    }
                    assert(count_names(ev) =~= count_names(v0).insert(key@));
                }
                return ;
            }
            i = i + 1;
        }
        let first = if ok {
            (1usize, 0usize)
        } else {
            (0usize, 1usize)
        };
        self.entries.push((key.clone(), first));
        proof {
            assert(self.entries_view() =~= v0.push((key@, first)));
            assert(self.entries_view().drop_last() =~= v0);
            let ev = self.entries_view();
            assert(ev[v0.len() as int].0 == key@);
            assert forall|j: int| 0 <= j < v0.len() implies #[trigger] ev[j].0 == v0[j].0 by {}
            assert forall|n: Seq<char>| #[trigger] count_names(ev).contains(n) <==> count_names(v0).insert(
                key@,
            ).contains(n) by {
                if count_names(ev).contains(n) {
                    let j = choose|j: int| 0 <= j < ev.len() && #[trigger] ev[j].0 == n;
                    if j < v0.len() {
                        assert(v0[j].0 == n);
                    }
                }
                if n == key@ {
                    assert(ev[v0.len() as int].0 == n);
                } else if count_names(v0).contains(n) {
                    let j = choose|j: int| 0 <= j < v0.len() && #[trigger] v0[j].0 == n;
                    assert(ev[j].0 == n);
                }
            }
            assert(count_names(ev) =~= count_names(v0).insert(key@));
        }
    }
}

/// The table counts `applied` and `failed` writes in all, each name listed
/// once, and every name is the domain of some step of `recipe`.
pub open spec fn counts_by_domain(t: CountTable, applied: usize, failed: usize, recipe: Seq<RecipeStep>) -> bool {
    &&& t.wf()
    &&& count_totals(t.entries_view()) == (applied as int, failed as int)
    &&& forall|n: Seq<char>|
        #[trigger] count_names(t.entries_view()).contains(n) ==> exists|k: int|
            0 <= k < recipe.len() && recipe[k].domain@ == n
}

/// The names a DEVINIT replay counts under: `script_` and the id of each
/// script that has ops.
pub open spec fn script_labels(scripts: Seq<DevinitScript>) -> Set<Seq<char>> {
    Set::new(
        |n: Seq<char>|
            exists|k: int|
                0 <= k < scripts.len() && scripts[k].ops@.len() > 0 && n == "script_"@ + spec_dec_signed(
                    #[trigger] scripts[k].id as int,
                ),
    )
}

proof fn lemma_labels_push(scripts: Seq<DevinitScript>, s: int)
    requires
        0 <= s < scripts.len(),
    ensures
        script_labels(scripts.subrange(0, s + 1)) == if scripts[s].ops@.len() > 0 {
            script_labels(scripts.subrange(0, s)).insert("script_"@ + spec_dec_signed(scripts[s].id as int))
        } else {
            script_labels(scripts.subrange(0, s))
        },
{
    let a = scripts.subrange(0, s + 1);
    let b = scripts.subrange(0, s);
    let lab = "script_"@ + spec_dec_signed(scripts[s].id as int);
    let rhs = if scripts[s].ops@.len() > 0 {
        script_labels(b).insert(lab)
    } else {
        script_labels(b)
    };
    assert forall|n: Seq<char>| #[trigger] script_labels(a).contains(n) <==> rhs.contains(n) by {
        if script_labels(a).contains(n) {
            let k = choose|k: int|
                0 <= k < a.len() && a[k].ops@.len() > 0 && n == "script_"@ + spec_dec_signed(#[trigger] a[k].id as int);
            if k < s {
                assert(b[k] == a[k]);
            }
        }
        if script_labels(b).contains(n) {
            let k = choose|k: int|
                0 <= k < b.len() && b[k].ops@.len() > 0 && n == "script_"@ + spec_dec_signed(#[trigger] b[k].id as int);
            assert(a[k] == b[k]);
        }
        if scripts[s].ops@.len() > 0 && n == lab {
            assert(a[s] == scripts[s]);
        }
    }
    assert(script_labels(a) =~= rhs);
}

/// Result of a recipe replay.
#[derive(Debug)]
pub struct ReplayResult {
    /// Number of register writes applied.
    pub applied: usize,
    /// Number of register writes that failed.
    pub failed: usize,
    /// PMC_BOOT_0 after replay (chipset ID).
    pub pmc_boot_0: u32,
    /// PTIMER was ticking after replay.
    pub ptimer_ticking: bool,
    /// PTIMER (time_0, time_1) at two read points.
    pub ptimer_samples: [(u32, u32); 2],
    /// Per domain (or script): (applied, failed).
    pub domain_counts: CountTable,
}

impl ReplayResult {
    /// PTIMER ticks and PMC_BOOT_0 is not all ones.
    pub open spec fn is_alive_spec(&self) -> bool {
        self.ptimer_ticking && self.pmc_boot_0 != 0xFFFF_FFFF
    }

    /// The GPU appears alive after replay: PTIMER ticks and PMC_BOOT_0
    /// is not all ones.
    pub fn is_alive(&self) -> (r: bool)
        ensures
            r == self.is_alive_spec(),
    {
        self.ptimer_ticking && self.pmc_boot_0 != 0xFFFF_FFFF
    }
}

/// Read a register, with `dflt` for a failed read.
fn read_or<B: RegisterBus>(bar0: &mut Bar0<B>, reg: usize, dflt: u32) -> (r: u32)
    ensures
        final(bar0).events() == old(bar0).events().push(
            BusEvent::Read { reg, result: final(bar0).events().last()->Read_result },
        ),
        r == read_value(final(bar0).events().last(), dflt),
{
    match bar0.read(reg) {
        Ok(v) => v,
        Err(_) => dflt,
    }
}

/// Check the GPU after replay: PMC_BOOT_0 (all ones when the read fails),
/// PTIMER TIME_0 and TIME_1, a thousand reads of PMC_BOOT_0 as a delay,
/// PTIMER again. PTIMER ticks when either word changed.
pub fn validate_gpu<B: RegisterBus>(
    bar0: &mut Bar0<B>,
    applied: usize,
    failed: usize,
    domain_counts: CountTable,
) -> (r: ReplayResult)
    ensures
        old(bar0).events().is_prefix_of(final(bar0).events()),
        ({
            let ev = final(bar0).events();
            let n = old(bar0).events().len() as int;
            &&& ev.len() == n + 1005
            &&& ev[n]->Read_reg == PMC_BOOT_0 && ev[n] is Read
            &&& ev[n + 1]->Read_reg == PTIMER_TIME_0 && ev[n + 1] is Read
            &&& ev[n + 2]->Read_reg == PTIMER_TIME_1 && ev[n + 2] is Read
            &&& ev[n + 1003]->Read_reg == PTIMER_TIME_0 && ev[n + 1003] is Read
            &&& ev[n + 1004]->Read_reg == PTIMER_TIME_1 && ev[n + 1004] is Read
            &&& r.pmc_boot_0 == read_value(ev[n], 0xFFFF_FFFF)
            &&& r.ptimer_samples[0] == (timer_value(ev[n + 1]), timer_value(ev[n + 2]))
            &&& r.ptimer_samples[1] == (timer_value(ev[n + 1003]), timer_value(ev[n + 1004]))
            &&& r.ptimer_ticking == (r.ptimer_samples[0].0 != r.ptimer_samples[1].0
                || r.ptimer_samples[0].1 != r.ptimer_samples[1].1)
        }),
        r.applied == applied,
        r.failed == failed,
        r.domain_counts == domain_counts,
{
    let ghost e0 = bar0.events();
    let ghost n = e0.len() as int;
    let pmc_boot_0 = read_or(bar0, PMC_BOOT_0, 0xFFFF_FFFF);
    let t0_a = read_or(bar0, PTIMER_TIME_0, 0);
    let t1_a = read_or(bar0, PTIMER_TIME_1, 0);
    let ghost e3 = bar0.events();
    let mut k: usize = 0;
    while k < 1000
        invariant
            e3.is_prefix_of(bar0.events()),
            bar0.events().len() == e3.len() + k,
            k <= 1000,
        decreases 1000 - k,
    {
        let _ = bar0.read(PMC_BOOT_0);
        k = k + 1;
    }
    let t0_b = read_or(bar0, PTIMER_TIME_0, 0);
    let ghost e4 = bar0.events();
    let t1_b = read_or(bar0, PTIMER_TIME_1, 0);
    let ptimer_ticking = t0_a != t0_b || t1_a != t1_b;
    proof {
        let ev = bar0.events();
        assert(e3.is_prefix_of(ev));
        assert(ev[n] == e3[n]);
        assert(ev[n + 1] == e3[n + 1]);
        assert(ev[n + 2] == e3[n + 2]);
        assert(ev[n + 1003] == e4[n + 1003]);
    }
    ReplayResult {
        applied,
        failed,
        pmc_boot_0,
        ptimer_ticking,
        ptimer_samples: [(t0_a, t1_a), (t0_b, t1_b)],
        domain_counts,
    }
}

/// The number of ops of the scripts.
pub open spec fn total_ops(scripts: Seq<DevinitScript>) -> int
    decreases scripts.len(),
{
    if scripts.len() == 0 {
        0
    } else {
        total_ops(scripts.drop_last()) + scripts.last().ops@.len()
    }
}

/// The ops of the scripts, in order.
pub open spec fn all_ops(scripts: Seq<DevinitScript>) -> Seq<DevinitOp>
    decreases scripts.len(),
{
    if scripts.len() == 0 {
        Seq::empty()
    } else {
        all_ops(scripts.drop_last()) + scripts.last().ops@
    }
}

/// The bus accesses of a run of ops, given what each op's read answered.
pub open spec fn ops_events(ops: Seq<DevinitOp>, reads: Seq<Option<u32>>) -> Seq<BusEvent>
    decreases ops.len(),
{
    if ops.len() == 0 || reads.len() != ops.len() {
        Seq::empty()
    } else {
        ops_events(ops.drop_last(), reads.drop_last()) + op_events(ops.last(), reads.last())
    }
}

proof fn lemma_all_ops_len(scripts: Seq<DevinitScript>)
    ensures
        all_ops(scripts).len() == total_ops(scripts),
    decreases scripts.len(),
{
    if scripts.len() > 0 {
        lemma_all_ops_len(scripts.drop_last());
    }
}

proof fn lemma_ops_events_push(ops: Seq<DevinitOp>, reads: Seq<Option<u32>>, op: DevinitOp, read: Option<u32>)
    requires
        ops.len() == reads.len(),
    ensures
        ops_events(ops.push(op), reads.push(read)) == ops_events(ops, reads) + op_events(op, read),
{
    assert(ops.push(op).drop_last() =~= ops);
    assert(reads.push(read).drop_last() =~= reads);
}

/// Apply DEVINIT scripts to BAR0: every op of every non-empty script, in
/// order, counted per script under "script_{id}", then the GPU check.
/// A failed op is counted and the replay goes on.
pub fn apply_devinit_to_bar0<B: RegisterBus>(bar0: &mut Bar0<B>, scripts: &Vec<DevinitScript>) -> (r:
    Result<ReplayResult, MmioError>)
    requires
        total_ops(scripts@) <= usize::MAX,
    ensures
        old(bar0).events().is_prefix_of(final(bar0).events()),
        r matches Ok(res) && res.applied + res.failed == total_ops(scripts@),
        r matches Ok(res) && res.domain_counts.wf() && count_totals(res.domain_counts.entries_view()) == (
        res.applied as int, res.failed as int) && count_names(res.domain_counts.entries_view()) == script_labels(
            scripts@,
        ),
        exists|reads: Seq<Option<u32>>|
            #![trigger ops_events(all_ops(scripts@), reads)]
            reads.len() == total_ops(scripts@) && (old(bar0).events() + ops_events(all_ops(scripts@), reads))
                .is_prefix_of(final(bar0).events()) && final(bar0).events().len() == old(
                bar0,
            ).events().len() + ops_events(all_ops(scripts@), reads).len() + 1005,
{
    let ghost e0 = bar0.events();
    let ghost mut reads: Seq<Option<u32>> = Seq::empty();
    proof {
        lemma_prefix_refl(e0);
        assert(e0 + ops_events(Seq::empty(), reads) =~= e0);
    }
    let mut applied: usize = 0;
    let mut failed: usize = 0;
    let mut counts = CountTable::new();
    proof {
        assert(count_names(counts.entries_view()) =~= script_labels(scripts@.subrange(0, 0)));
    }
    let mut s: usize = 0;
    while s < scripts.len()
        invariant
            s <= scripts@.len(),
            e0.is_prefix_of(bar0.events()),
            applied + failed == total_ops(scripts@.subrange(0, s as int)),
            counts.wf(),
            count_totals(counts.entries_view()) == (applied as int, failed as int),
            count_names(counts.entries_view()) == script_labels(scripts@.subrange(0, s as int)),
            total_ops(scripts@) <= usize::MAX,
            reads.len() == all_ops(scripts@.subrange(0, s as int)).len(),
            bar0.events() == e0 + ops_events(all_ops(scripts@.subrange(0, s as int)), reads),
        decreases scripts.len() - s,
    {
        let script = &scripts[s];
        proof {
            assert(scripts@.subrange(0, s + 1).drop_last() =~= scripts@.subrange(0, s as int));
            lemma_total_ops_prefix(scripts@, s + 1);
        }
        if script.ops.len() > 0 {
            let mut label = String::from_str("script_");
            crate::text::push_dec_i32(&mut label, script.id);
            let mut i: usize = 0;
            while i < script.ops.len()
                invariant
                    i <= script.ops@.len(),
                    e0.is_prefix_of(bar0.events()),
                    applied + failed == total_ops(scripts@.subrange(0, s as int)) + i,
                    counts.wf(),
                    count_totals(counts.entries_view()) == (applied as int, failed as int),
                    label@ == "script_"@ + spec_dec_signed(script.id as int),
                    i == 0 ==> count_names(counts.entries_view()) == script_labels(scripts@.subrange(0, s as int)),
                    i > 0 ==> count_names(counts.entries_view()) == script_labels(scripts@.subrange(0, s as int)).insert(label@),
                    total_ops(scripts@.subrange(0, s as int)) + script.ops@.len() <= usize::MAX,
                    reads.len() == all_ops(scripts@.subrange(0, s as int)).len() + i,
                    bar0.events() == e0 + ops_events(
                        all_ops(scripts@.subrange(0, s as int)) + script.ops@.subrange(0, i as int),
                        reads,
                    ),
                decreases script.ops.len() - i,
            {
                let ghost before = bar0.events();
                let res = apply_devinit_op(bar0, &script.ops[i]);
                proof {
                    let read = choose|read: Option<u32>|
                        bar0.events() == before + op_events(script.ops@[i as int], read) && (read
                            is None && !(script.ops@[i as int] is ZmReg) && !(script.ops@[i as int] is Time)
                            ==> res is Err);
                    crate::bus::lemma_prefix_append(before, op_events(script.ops@[i as int], read));
                    let pre = all_ops(scripts@.subrange(0, s as int)) + script.ops@.subrange(0, i as int);
                    lemma_ops_events_push(pre, reads, script.ops@[i as int], read);
                    assert(pre.push(script.ops@[i as int]) =~= all_ops(scripts@.subrange(0, s as int))
                        + script.ops@.subrange(0, i + 1));
                    reads = reads.push(read);
                }
                let ghost names0 = count_names(counts.entries_view());
                match res {
                    Ok(()) => {
                        applied = applied + 1;
                        counts.bump(&label, true);
                    },
                    Err(_) => {
                        failed = failed + 1;
                        counts.bump(&label, false);
                    },
                }
                proof {
                    if i > 0 {
                        assert(names0.insert(label@) =~= names0);
                    }
                }
                i = i + 1;
            }
        }
        proof {
            lemma_labels_push(scripts@, s as int);
            assert(script.ops@.subrange(0, script.ops@.len() as int) =~= script.ops@);
            assert(scripts@.subrange(0, s + 1).drop_last() =~= scripts@.subrange(0, s as int));
            assert(all_ops(scripts@.subrange(0, s + 1)) == all_ops(scripts@.subrange(0, s as int)) + script.ops@);
            if script.ops@.len() == 0 {
                assert(all_ops(scripts@.subrange(0, s as int)) + script.ops@ =~= all_ops(
                    scripts@.subrange(0, s as int),
                ));
            }
        }
        s = s + 1;
    }
    proof {
        assert(scripts@.subrange(0, scripts@.len() as int) =~= scripts@);
        lemma_all_ops_len(scripts@);
    }
    let ghost mid = bar0.events();
    let res = validate_gpu(bar0, applied, failed, counts);
    proof {
        assert(mid.is_prefix_of(bar0.events()));
        assert((e0 + ops_events(all_ops(scripts@), reads)).is_prefix_of(bar0.events()));
    }
    Ok(res)
}

proof fn lemma_total_ops_prefix(scripts: Seq<DevinitScript>, k: int)
    requires
        0 <= k <= scripts.len(),
    ensures
        total_ops(scripts.subrange(0, k)) <= total_ops(scripts),
    decreases scripts.len(),
{
    if k < scripts.len() {
        lemma_total_ops_prefix(scripts.drop_last(), k);
        assert(scripts.drop_last().subrange(0, k) =~= scripts.subrange(0, k));
    } else {
        assert(scripts.subrange(0, k) =~= scripts);
    }
}

/// The first `n` steps of the recipe were written, in order: event
/// `pos[k]` is the write of step `k`, and the positions increase.
pub open spec fn steps_written(ev: Seq<BusEvent>, from: int, recipe: Seq<RecipeStep>, pos: Seq<int>) -> bool {
    &&& pos.len() <= recipe.len()
    &&& forall|k: int|
        0 <= k < pos.len() ==> from <= #[trigger] pos[k] < ev.len() && ev[pos[k]] == (BusEvent::Write {
            reg: recipe[k].offset,
            val: recipe[k].value,
        })
    &&& forall|k: int, l: int| 0 <= k < l < pos.len() ==> pos[k] < pos[l]
}

/// How a phased replay ended: after the last step, stopped by a hook's
/// `Ok(false)`, or failed with a hook's error.
pub ghost enum PhasedEnd {
    Finished,
    Stopped,
    Failed(MmioError),
}

/// The write of a recipe step.
pub open spec fn step_write(s: RecipeStep) -> BusEvent {
    BusEvent::Write { reg: s.offset, val: s.value }
}

/// The accesses `ev[p..]` are the phased replay of `rc[i..]`, the domain
/// in progress being `last` (whose first step had priority `lp`; empty
/// before the first step). Each step is written in order. At a change from
/// a non-empty domain, the last written register is read back, then the
/// hooks run for the finished domain, ending at the position and with the
/// answer given by the next entry of `hs`: `Ok(true)` goes on, `Ok(false)`
/// stops the replay, an error fails it. After the last step the hooks run
/// once more for the last domain (if any), their answer ignored.
pub open spec fn phased_from<H: ReplayHooks>(
    h: H,
    rc: Seq<RecipeStep>,
    i: int,
    last: Seq<char>,
    lp: u32,
    ev: Seq<BusEvent>,
    p: int,
    hs: Seq<(int, Result<bool, MmioError>)>,
    end: PhasedEnd,
) -> bool
    decreases rc.len() - i,
{
    if i < 0 || p < 0 || p > ev.len() {
        false
    } else if i >= rc.len() {
        &&& end == PhasedEnd::Finished
        &&& if last.len() == 0 {
            p == ev.len() && hs.len() == 0
        } else {
            hs.len() == 1 && hs[0].0 == ev.len() && h.hook_effect(last, lp, ev.take(p), ev, hs[0].1)
        }
    } else {
        let s = rc[i];
        if s.domain@ != last && last.len() > 0 {
            &&& i > 0
            &&& hs.len() >= 1
            &&& p < ev.len()
            &&& ev[p] is Read && ev[p]->Read_reg == rc[i - 1].offset
            &&& p + 1 <= hs[0].0 <= ev.len()
            &&& h.hook_effect(last, lp, ev.take(p + 1), ev.take(hs[0].0), hs[0].1)
            &&& match hs[0].1 {
                Ok(true) => hs[0].0 < ev.len() && ev[hs[0].0] == step_write(s) && phased_from(
                    h,
                    rc,
                    i + 1,
                    s.domain@,
                    s.priority,
                    ev,
                    hs[0].0 + 1,
                    hs.drop_first(),
                    end,
                ),
                Ok(false) => end == PhasedEnd::Stopped && hs[0].0 == ev.len() && hs.len() == 1,
                Err(e) => end == PhasedEnd::Failed(e) && hs[0].0 == ev.len() && hs.len() == 1,
            }
        } else {
            let nl = if s.domain@ != last {
                s.domain@
            } else {
                last
            };
            let np = if s.domain@ != last {
                s.priority
            } else {
                lp
            };
            p < ev.len() && ev[p] == step_write(s) && phased_from(h, rc, i + 1, nl, np, ev, p + 1, hs, end)
        }
    }
}

/// The writes of steps `i..` of `rc` stand at the increasing positions
/// `pos` of `ev`, from `p` on, and between the writes of two consecutive
/// steps of different domains (the first one named) the first step's
/// register is read back. When the first of these steps starts a new
/// domain after the named domain `last`, the read-back of step `i - 1`'s
/// register comes between `p` and its write.
pub open spec fn fenced_writes(
    ev: Seq<BusEvent>,
    rc: Seq<RecipeStep>,
    i: int,
    last: Seq<char>,
    p: int,
    pos: Seq<int>,
) -> bool {
    &&& pos.len() == rc.len() - i
    &&& forall|k: int| 0 <= k < pos.len() ==> p <= #[trigger] pos[k] < ev.len() && ev[pos[k]] == step_write(rc[i + k])
    &&& forall|k: int, l: int| 0 <= k < l < pos.len() ==> pos[k] < pos[l]
    &&& forall|k: int|
        1 <= k < pos.len() && #[trigger] rc[i + k].domain@ != rc[i + k - 1].domain@ && rc[i + k - 1].domain@.len() > 0
            ==> exists|q: int|
            pos[k - 1] < q < pos[k] && (#[trigger] ev[q]) is Read && ev[q]->Read_reg == rc[i + k - 1].offset
    &&& (pos.len() > 0 && i > 0 && rc[i].domain@ != last && last.len() > 0) ==> exists|q: int|
        p <= q < pos[0] && (#[trigger] ev[q]) is Read && ev[q]->Read_reg == rc[i - 1].offset
}

/// A phased replay that finished wrote every remaining step, fenced at
/// every change of domain.
proof fn lemma_phased_fences<H: ReplayHooks>(
    h: H,
    rc: Seq<RecipeStep>,
    i: int,
    last: Seq<char>,
    lp: u32,
    ev: Seq<BusEvent>,
    p: int,
    hs: Seq<(int, Result<bool, MmioError>)>,
)
    requires
        phased_from(h, rc, i, last, lp, ev, p, hs, PhasedEnd::Finished),
        0 <= i <= rc.len(),
        i > 0 ==> last == rc[i - 1].domain@,
        i == 0 ==> last.len() == 0,
    ensures
        exists|pos: Seq<int>| #[trigger] fenced_writes(ev, rc, i, last, p, pos),
    decreases rc.len() - i,
{
    if i >= rc.len() {
        assert(fenced_writes(ev, rc, i, last, p, Seq::<int>::empty()));
    } else {
        let s = rc[i];
        if s.domain@ != last && last.len() > 0 {
            let w = hs[0].0;
            assert(hs[0].1 == Ok::<bool, MmioError>(true));
            lemma_phased_fences(h, rc, i + 1, s.domain@, s.priority, ev, w + 1, hs.drop_first());
            let pr = choose|pos: Seq<int>| #[trigger] fenced_writes(ev, rc, i + 1, s.domain@, w + 1, pos);
            let pos = seq![w] + pr;
            assert forall|k: int| 1 <= k < pos.len() && #[trigger] rc[i + k].domain@ != rc[i + k - 1].domain@
                && rc[i + k - 1].domain@.len() > 0 implies exists|q: int|
                pos[k - 1] < q < pos[k] && (#[trigger] ev[q]) is Read && ev[q]->Read_reg == rc[i + k - 1].offset by {
                assert(pos[k] == pr[k - 1]);
                if k == 1 {
                    let q = choose|q: int|
                        w + 1 <= q < pr[0] && (#[trigger] ev[q]) is Read && ev[q]->Read_reg == rc[i].offset;
                    assert(pos[0] == w);
                } else {
                    assert(pos[k - 1] == pr[k - 2]);
                    assert(rc[(i + 1) + (k - 1)] == rc[i + k]);
                    assert(rc[(i + 1) + (k - 1) - 1] == rc[i + k - 1]);
                    assert(rc[(i + 1) + (k - 1)].domain@ != rc[(i + 1) + (k - 1) - 1].domain@);
                }
            }
            assert(ev[p] is Read && ev[p]->Read_reg == rc[i - 1].offset);
            assert forall|k: int| 0 <= k < pos.len() implies p <= #[trigger] pos[k] < ev.len() && ev[pos[k]]
                == step_write(rc[i + k]) by {
                if k > 0 {
                    assert(pos[k] == pr[k - 1]);
                }
            }
            assert(fenced_writes(ev, rc, i, last, p, pos));
        } else {
            let nl = s.domain@;
            lemma_phased_fences(h, rc, i + 1, nl, if s.domain@ != last { s.priority } else { lp }, ev, p + 1, hs);
            let pr = choose|pos: Seq<int>| #[trigger] fenced_writes(ev, rc, i + 1, nl, p + 1, pos);
            let pos = seq![p] + pr;
            assert forall|k: int| 1 <= k < pos.len() && #[trigger] rc[i + k].domain@ != rc[i + k - 1].domain@
                && rc[i + k - 1].domain@.len() > 0 implies exists|q: int|
                pos[k - 1] < q < pos[k] && (#[trigger] ev[q]) is Read && ev[q]->Read_reg == rc[i + k - 1].offset by {
                assert(pos[k] == pr[k - 1]);
                if k == 1 {
                    let q = choose|q: int|
                        p + 1 <= q < pr[0] && (#[trigger] ev[q]) is Read && ev[q]->Read_reg == rc[i].offset;
                    assert(pos[0] == p);
                } else {
                    assert(pos[k - 1] == pr[k - 2]);
                    assert(rc[(i + 1) + (k - 1)] == rc[i + k]);
                    assert(rc[(i + 1) + (k - 1) - 1] == rc[i + k - 1]);
                    assert(rc[(i + 1) + (k - 1)].domain@ != rc[(i + 1) + (k - 1) - 1].domain@);
                }
            }
            assert forall|k: int| 0 <= k < pos.len() implies p <= #[trigger] pos[k] < ev.len() && ev[pos[k]]
                == step_write(rc[i + k]) by {
                if k > 0 {
                    assert(pos[k] == pr[k - 1]);
                }
            }
            assert(fenced_writes(ev, rc, i, last, p, pos));
        }
    }
}

/// Apply a recipe with a hook at every domain boundary.
///
/// Steps are written in recipe order. When a step's domain differs from
/// the previous step's (non-empty) domain, the last written register is
/// read back as a fence for posted writes and the hooks are told that the
/// previous domain is complete: an error from them is returned, and
/// `Ok(false)` stops the replay. After the last step the hooks are called
/// once more (their answer ignored). The GPU check follows.
pub fn apply_recipe_phased<B: RegisterBus, H: ReplayHooks>(bar0: &mut Bar0<B>, recipe: &[RecipeStep], hooks: &H) -> (r:
    Result<ReplayResult, MmioError>)
    ensures
        old(bar0).events().is_prefix_of(final(bar0).events()),
        r matches Ok(res) ==> exists|pos: Seq<int>|
            steps_written(final(bar0).events(), old(bar0).events().len() as int, recipe@, pos)
                && res.applied + res.failed == pos.len(),
        r matches Ok(res) ==> counts_by_domain(res.domain_counts, res.applied, res.failed, recipe@),
        hooks.always_proceeds() ==> (r matches Ok(res) && res.applied + res.failed == recipe@.len()),
        exists|at: int, hs: Seq<(int, Result<bool, MmioError>)>, end: PhasedEnd|
            #[trigger] phased_from(
                *hooks,
                recipe@,
                0,
                Seq::<char>::empty(),
                0,
                final(bar0).events().take(at),
                old(bar0).events().len() as int,
                hs,
                end,
            ) && match r {
                Ok(_) => !(end is Failed) && 0 <= at && at + 1005 == final(bar0).events().len(),
                Err(e) => end == PhasedEnd::Failed(e) && at == final(bar0).events().len(),
            },
        r is Ok ==> replay_ran(
            *hooks,
            recipe@,
            final(bar0).events(),
            old(bar0).events().len() as int,
            final(bar0).events().len() as int,
        ),
{
    let ghost e0 = bar0.events();
    let ghost from = e0.len() as int;
    proof {
        lemma_prefix_refl(e0);
    }
    let mut applied: usize = 0;
    let mut failed: usize = 0;
    let mut counts = CountTable::new();
    let mut last_domain = String::new();
    let mut last_priority: u32 = 0;
    let ghost mut pos: Seq<int> = Seq::empty();
    let ghost mut hs_done: Seq<(int, Result<bool, MmioError>)> = Seq::empty();
    let ghost rc = recipe@;
    let ghost h = *hooks;
    proof {
        assert forall|ev2: Seq<BusEvent>, hs: Seq<(int, Result<bool, MmioError>)>, end: PhasedEnd|
            #[trigger] phased_from(h, rc, 0, last_domain@, last_priority, ev2, bar0.events().len() as int, hs, end)
            implies phased_from(h, rc, 0, Seq::<char>::empty(), 0, ev2, from, hs_done + hs, end) by {
            assert(hs_done + hs =~= hs);
        }
    }
    let mut i: usize = 0;
    while i < recipe.len()
        invariant
            e0 == old(bar0).events(),
            from == e0.len(),
            rc == recipe@,
            h == *hooks,
            e0.is_prefix_of(bar0.events()),
            i <= recipe@.len(),
            pos.len() == i,
            applied + failed == i,
            counts_by_domain(counts, applied, failed, recipe@),
            steps_written(bar0.events(), from, recipe@, pos),
            last_domain@.len() > 0 ==> i > 0,
            forall|ev2: Seq<BusEvent>, hs: Seq<(int, Result<bool, MmioError>)>, end: PhasedEnd|
                bar0.events().is_prefix_of(ev2) && #[trigger] phased_from(
                    h,
                    rc,
                    i as int,
                    last_domain@,
                    last_priority,
                    ev2,
                    bar0.events().len() as int,
                    hs,
                    end,
                ) ==> phased_from(h, rc, 0, Seq::<char>::empty(), 0, ev2, from, hs_done + hs, end),
        decreases recipe.len() - i,
    {
        let step = &recipe[i];
        let ghost p0 = bar0.events();
        let ghost last0 = last_domain@;
        let ghost lp0 = last_priority;
        let ghost hs0 = hs_done;
        if step.domain != last_domain {
            if !last_domain.as_str().is_empty() {
                let _fence = bar0.read(recipe[i - 1].offset);
                let ghost before = bar0.events();
                let proceed = hooks.on_domain_complete(bar0, last_domain.as_str(), last_priority);
                let ghost evh = bar0.events();
                proof {
                    assert forall|k: int| 0 <= k < pos.len() implies bar0.events()[#[trigger] pos[k]] == p0[pos[k]] by {}
                }
                match proceed {
                    Ok(true) => {
                        proof {
                            hs_done = hs_done.push((evh.len() as int, Ok::<bool, MmioError>(true)));
                        }
                    },
                    Ok(false) => {
                        let ghost ev = bar0.events();
                        let res = validate_gpu(bar0, applied, failed, counts);
                        proof {
                            assert forall|k: int| 0 <= k < pos.len() implies bar0.events()[#[trigger] pos[k]] == ev[pos[k]] by {}
                            assert(steps_written(bar0.events(), from, recipe@, pos));
                            let hs1 = seq![(evh.len() as int, Ok::<bool, MmioError>(false))];
                            assert(evh.take(p0.len() as int + 1) =~= before);
                            assert(evh.take(evh.len() as int) =~= evh);
                            assert(phased_from(h, rc, i as int, last0, lp0, evh, p0.len() as int, hs1, PhasedEnd::Stopped));
                            assert(bar0.events().take(evh.len() as int) =~= evh);
                            assert(phased_from(
                                h,
                                rc,
                                0,
                                Seq::<char>::empty(),
                                0,
                                bar0.events().take(evh.len() as int),
                                from,
                                hs0 + hs1,
                                PhasedEnd::Stopped,
                            ));
                        }
                        return Ok(res);
                    },
                    Err(e) => {
                        proof {
                            let hs1 = seq![(evh.len() as int, Err::<bool, MmioError>(e))];
                            assert(evh.take(p0.len() as int + 1) =~= before);
                            assert(evh.take(evh.len() as int) =~= evh);
                            assert(phased_from(h, rc, i as int, last0, lp0, evh, p0.len() as int, hs1, PhasedEnd::Failed(e)));
                            assert(bar0.events().take(evh.len() as int) =~= evh);
                        }
                        return Err(e);
                    },
                }
            }
            last_domain = step.domain.clone();
            last_priority = step.priority;
        }
        let ghost pw = bar0.events();
        let ghost at = bar0.events().len() as int;
        let ok = bar0.write(step.offset, step.value);
        let ghost names0 = count_names(counts.entries_view());
        match ok {
            Ok(()) => {
                applied = applied + 1;
                counts.bump(&step.domain, true);
            },
            Err(_) => {
                failed = failed + 1;
                counts.bump(&step.domain, false);
            },
        }
        proof {
            assert forall|n: Seq<char>| #[trigger] count_names(counts.entries_view()).contains(n) implies exists|k: int|
                0 <= k < recipe@.len() && recipe@[k].domain@ == n by {
                if n == step.domain@ {
                    assert(recipe@[i as int].domain@ == n);
                } else {
                    assert(names0.contains(n));
                }
            }
            pos = pos.push(at);
            let cur = bar0.events();
            assert forall|ev2: Seq<BusEvent>, hs: Seq<(int, Result<bool, MmioError>)>, end: PhasedEnd|
                cur.is_prefix_of(ev2) && #[trigger] phased_from(
                    h,
                    rc,
                    i + 1,
                    last_domain@,
                    last_priority,
                    ev2,
                    cur.len() as int,
                    hs,
                    end,
                ) implies phased_from(h, rc, 0, Seq::<char>::empty(), 0, ev2, from, hs_done + hs, end) by {
                assert(ev2[at] == cur[at]);
                if rc[i as int].domain@ != last0 && last0.len() > 0 {
                    let q = pw.len() as int;
                    let hsx = seq![(q, Ok::<bool, MmioError>(true))] + hs;
                    assert(ev2.take(p0.len() as int + 1) =~= p0.push(ev2[p0.len() as int]));
                    assert(ev2.take(q) =~= pw);
                    assert(hsx.drop_first() =~= hs);
                    assert(ev2[p0.len() as int] == pw[p0.len() as int]);
                    assert(phased_from(h, rc, i as int, last0, lp0, ev2, p0.len() as int, hsx, end));
                    assert(hs0 + hsx =~= hs_done + hs);
                } else {
                    assert(phased_from(h, rc, i as int, last0, lp0, ev2, p0.len() as int, hs, end));
                }
            }
        }
        i = i + 1;
    }
    let ghost pe = bar0.events();
    let ghost hs1: Seq<(int, Result<bool, MmioError>)> = Seq::empty();
    if !last_domain.as_str().is_empty() {
        let ghost before = bar0.events();
        let fin = hooks.on_domain_complete(bar0, last_domain.as_str(), last_priority);
        proof {
            assert forall|k: int| 0 <= k < pos.len() implies bar0.events()[#[trigger] pos[k]] == before[pos[k]] by {}
            hs1 = seq![(bar0.events().len() as int, fin)];
            assert(bar0.events().take(pe.len() as int) =~= pe);
        }
    }
    let ghost ev = bar0.events();
    let res = validate_gpu(bar0, applied, failed, counts);
    proof {
        assert forall|k: int| 0 <= k < pos.len() implies bar0.events()[#[trigger] pos[k]] == ev[pos[k]] by {}
        assert(steps_written(bar0.events(), from, recipe@, pos));
        assert(phased_from(h, rc, i as int, last_domain@, last_priority, ev, pe.len() as int, hs1, PhasedEnd::Finished));
        assert(bar0.events().take(ev.len() as int) =~= ev);
        assert(phased_from(
            h,
            rc,
            0,
            Seq::<char>::empty(),
            0,
            bar0.events().take(ev.len() as int),
            from,
            hs_done + hs1,
            PhasedEnd::Finished,
        ));
    }
    Ok(res)
}

/// Events `from..to` of `ev` are a phased replay of `steps` with the hooks
/// `h` that did not fail, followed by the GPU check, which ends at `to`.
pub open spec fn replay_ran<H: ReplayHooks>(h: H, steps: Seq<RecipeStep>, ev: Seq<BusEvent>, from: int, to: int) -> bool {
    exists|at: int, hs: Seq<(int, Result<bool, MmioError>)>, end: PhasedEnd|
        #[trigger] phased_from(h, steps, 0, Seq::<char>::empty(), 0, ev.take(at), from, hs, end) && !(
        end is Failed) && 0 <= at && at + 1005 == to && to <= ev.len()
}

/// A replay seen in a trace stays there as the trace grows.
pub proof fn lemma_replay_ran_grows<H: ReplayHooks>(
    h: H,
    steps: Seq<RecipeStep>,
    e: Seq<BusEvent>,
    f: Seq<BusEvent>,
    from: int,
    to: int,
)
    requires
        e.is_prefix_of(f),
        replay_ran(h, steps, e, from, to),
    ensures
        replay_ran(h, steps, f, from, to),
{
    let (at, hs, end) = choose|at: int, hs: Seq<(int, Result<bool, MmioError>)>, end: PhasedEnd|
        #[trigger] phased_from(h, steps, 0, Seq::<char>::empty(), 0, e.take(at), from, hs, end) && !(
        end is Failed) && 0 <= at && at + 1005 == to && to <= e.len();
    assert(f.take(at) =~= e.take(at));
    assert(phased_from(h, steps, 0, Seq::<char>::empty(), 0, f.take(at), from, hs, end));
}

/// With no hooks, a phased replay runs to the end.
pub proof fn lemma_no_hooks_finish(
    rc: Seq<RecipeStep>,
    i: int,
    last: Seq<char>,
    lp: u32,
    ev: Seq<BusEvent>,
    p: int,
    hs: Seq<(int, Result<bool, MmioError>)>,
    end: PhasedEnd,
)
    requires
        phased_from(NoHooks, rc, i, last, lp, ev, p, hs, end),
    ensures
        end == PhasedEnd::Finished,
    decreases rc.len() - i,
{
    if 0 <= i < rc.len() {
        let s = rc[i];
        if s.domain@ != last && last.len() > 0 {
            lemma_no_hooks_finish(rc, i + 1, s.domain@, s.priority, ev, hs[0].0 + 1, hs.drop_first(), end);
        } else {
            let nl = if s.domain@ != last {
                s.domain@
            } else {
                last
            };
            let np = if s.domain@ != last {
                s.priority
            } else {
                lp
            };
            lemma_no_hooks_finish(rc, i + 1, nl, np, ev, p + 1, hs, end);
        }
    }
}

/// Apply a recipe to BAR0 in the order given (callers sort by priority
/// first), with no hooks between domains, then check the GPU. Between
/// domains the last written register is read back as a fence for posted
/// writes.
pub fn apply_recipe_to_bar0<B: RegisterBus>(bar0: &mut Bar0<B>, recipe: &[RecipeStep]) -> (r: Result<
    ReplayResult,
    MmioError,
>)
    ensures
        old(bar0).events().is_prefix_of(final(bar0).events()),
        r matches Ok(res) && res.applied + res.failed == recipe@.len() && exists|pos: Seq<int>|
            steps_written(final(bar0).events(), old(bar0).events().len() as int, recipe@, pos)
                && pos.len() == recipe@.len(),
        r matches Ok(res) && counts_by_domain(res.domain_counts, res.applied, res.failed, recipe@),
        exists|pos: Seq<int>|
            #[trigger] fenced_writes(
                final(bar0).events(),
                recipe@,
                0,
                Seq::<char>::empty(),
                old(bar0).events().len() as int,
                pos,
            ),
        exists|at: int, hs: Seq<(int, Result<bool, MmioError>)>|
            #[trigger] phased_from(
                NoHooks,
                recipe@,
                0,
                Seq::<char>::empty(),
                0,
                final(bar0).events().take(at),
                old(bar0).events().len() as int,
                hs,
                PhasedEnd::Finished,
            ) && at + 1005 == final(bar0).events().len(),
        replay_ran(
            NoHooks,
            recipe@,
            final(bar0).events(),
            old(bar0).events().len() as int,
            final(bar0).events().len() as int,
        ),
{
    let r = apply_recipe_phased(bar0, recipe, &NoHooks);
    proof {
        let ev = bar0.events();
        let (at, hs, end) = choose|at: int, hs: Seq<(int, Result<bool, MmioError>)>, end: PhasedEnd|
            #[trigger] phased_from(
                NoHooks,
                recipe@,
                0,
                Seq::<char>::empty(),
                0,
                ev.take(at),
                old(bar0).events().len() as int,
                hs,
                end,
            ) && match r {
                Ok(_) => !(end is Failed) && 0 <= at && at + 1005 == ev.len(),
                Err(e) => end == PhasedEnd::Failed(e) && at == ev.len(),
            };
        lemma_no_hooks_finish(recipe@, 0, Seq::<char>::empty(), 0, ev.take(at), old(bar0).events().len() as int, hs, end);
        let n = old(bar0).events().len() as int;
        lemma_phased_fences(NoHooks, recipe@, 0, Seq::<char>::empty(), 0, ev.take(at), n, hs);
        let pos = choose|pos: Seq<int>| #[trigger] fenced_writes(ev.take(at), recipe@, 0, Seq::<char>::empty(), n, pos);
        let t = ev.take(at);
        assert forall|k: int| 0 <= k < pos.len() implies n <= #[trigger] pos[k] < ev.len() && ev[pos[k]] == step_write(
            recipe@[0 + k],
        ) by {
            assert(t[pos[k]] == ev[pos[k]]);
        }
        assert forall|k: int|
            1 <= k < pos.len() && #[trigger] recipe@[0 + k].domain@ != recipe@[0 + k - 1].domain@ && recipe@[0 + k
                - 1].domain@.len() > 0 implies exists|q: int|
            pos[k - 1] < q < pos[k] && (#[trigger] ev[q]) is Read && ev[q]->Read_reg == recipe@[0 + k - 1].offset by {
            let q = choose|q: int|
                pos[k - 1] < q < pos[k] && (#[trigger] t[q]) is Read && t[q]->Read_reg == recipe@[0 + k - 1].offset;
            assert(t[q] == ev[q]);
        }
        assert(fenced_writes(ev, recipe@, 0, Seq::<char>::empty(), n, pos));
    }
    r
}

} // verus!
