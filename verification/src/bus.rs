//! Register-bus access to a GPU's BAR0 window.
//!
//! Every access the library makes to the hardware goes through a
//! [`RegisterBus`] and is recorded, as a ghost event, in the trace of the
//! [`Bar0`] that owns the bus. Contracts of the library state which events
//! a function issues.
use vstd::prelude::*;

use crate::boot_follower::{legacy_domains, spec_legacy_domains, DomainRange};

verus! {

/// A failed BAR0 access.
#[derive(Debug, Clone, Copy, PartialEq, Eq)]
pub struct MmioError;

/// Raw access to a BAR0 register window plus a microsecond delay.
///
/// The methods carry no contract: the library's proofs hold whatever the
/// hardware answers.
pub trait RegisterBus {
    fn read_u32(&mut self, reg: usize) -> Result<u32, MmioError>;
    fn write_u32(&mut self, reg: usize, val: u32) -> Result<(), MmioError>;
    fn delay_us(&mut self, us: u64);
}

/// A mutable borrow of a bus is a bus: a caller can lend its device to a
/// component that takes ownership of a [`Bar0`] and keep it afterwards.
impl<T: RegisterBus> RegisterBus for &mut T {
    fn read_u32(&mut self, reg: usize) -> Result<u32, MmioError> {
        (**self).read_u32(reg)
    }

    fn write_u32(&mut self, reg: usize, val: u32) -> Result<(), MmioError> {
        (**self).write_u32(reg, val)
    }

    fn delay_us(&mut self, us: u64) {
        (**self).delay_us(us)
    }
}

/// One access made to the bus.
pub ghost enum BusEvent {
    Read { reg: usize, result: Option<u32> },
    Write { reg: usize, val: u32 },
    Delay { us: u64 },
}

/// A register bus together with the trace of every access made through it.
pub struct Bar0<B: RegisterBus> {
    bus: B,
    trace: Ghost<Seq<BusEvent>>,
}

impl<B: RegisterBus> Bar0<B> {
    pub closed spec fn events(&self) -> Seq<BusEvent> {
        self.trace@
    }

    /// The bus this trace is kept for.
    pub closed spec fn bus(&self) -> B {
        self.bus
    }

    /// Wrap a bus; the trace starts empty.
    pub fn new(bus: B) -> (r: Self)
        ensures
            r.events() == Seq::<BusEvent>::empty(),
            r.bus() == bus,
    {
        Bar0 { bus, trace: Ghost(Seq::empty()) }
    }

    /// Give back the bus.
    pub fn into_inner(self) -> (r: B)
        ensures
            r == self.bus(),
    {
        self.bus
    }

    /// Read a register.
    pub fn read(&mut self, reg: usize) -> (r: Result<u32, MmioError>)
        ensures
            final(self).events() == old(self).events().push(
                BusEvent::Read { reg, result: match r { Ok(v) => Some(v), Err(_) => None } },
            ),
    {
        let r = self.bus.read_u32(reg);
        proof {
            self.trace@ = self.trace@.push(
                BusEvent::Read { reg, result: match r { Ok(v) => Some(v), Err(_) => None } },
            );
        }
        r
    }

    /// Write a register.
    pub fn write(&mut self, reg: usize, val: u32) -> (r: Result<(), MmioError>)
        ensures
            final(self).events() == old(self).events().push(BusEvent::Write { reg, val }),
    {
        let r = self.bus.write_u32(reg, val);
        proof {
            self.trace@ = self.trace@.push(BusEvent::Write { reg, val });
        }
        r
    }

    /// Wait.
    pub fn delay(&mut self, us: u64)
        ensures
            final(self).events() == old(self).events().push(BusEvent::Delay { us }),
    {
        self.bus.delay_us(us);
        proof {
            self.trace@ = self.trace@.push(BusEvent::Delay { us });
        }
    }
}

/// A trace that only grew: `a` is where `b` started.
pub proof fn lemma_prefix_trans<A>(a: Seq<A>, b: Seq<A>, c: Seq<A>)
    requires
        a.is_prefix_of(b),
        b.is_prefix_of(c),
    ensures
        a.is_prefix_of(c),
{
    assert forall|i: int| 0 <= i < a.len() implies a[i] == c[i] by {
        assert(a[i] == b.subrange(0, a.len() as int)[i]);
        assert(b[i] == c.subrange(0, b.len() as int)[i]);
    }
    assert(a =~= c.subrange(0, a.len() as int));
}

/// Appending to a trace keeps it as a prefix.
pub proof fn lemma_prefix_append<A>(a: Seq<A>, s: Seq<A>)
    ensures
        a.is_prefix_of(a + s),
{
    assert(a =~= (a + s).subrange(0, a.len() as int));
}

/// Pushing onto a trace keeps it as a prefix.
pub proof fn lemma_prefix_push<A>(a: Seq<A>, e: A)
    ensures
        a.is_prefix_of(a.push(e)),
{
    assert(a =~= a.push(e).subrange(0, a.len() as int));
}

/// Prefixes chain: what a trace started from stays a prefix as it grows.
pub broadcast proof fn lemma_prefix_chain<A>(a: Seq<A>, b: Seq<A>, c: Seq<A>)
    requires
        #[trigger] a.is_prefix_of(b),
        #[trigger] b.is_prefix_of(c),
    ensures
        a.is_prefix_of(c),
{
    lemma_prefix_trans(a, b, c);
}

/// A sequence is a prefix of itself pushed with one more element.
pub broadcast proof fn lemma_prefix_of_push<A>(a: Seq<A>, e: A)
    ensures
        #[trigger] a.is_prefix_of(a.push(e)),
{
    lemma_prefix_push(a, e);
}

/// A sequence is a prefix of itself.
pub proof fn lemma_prefix_refl<A>(a: Seq<A>)
    ensures
        a.is_prefix_of(a),
{
    assert(a =~= a.subrange(0, a.len() as int));
}

/// PRI bus error sentinel: the register's domain answered with a
/// `0xBADxxxxx` fault code.
pub open spec fn spec_is_pri_error(v: u32) -> bool {
    v >> 20u32 == 0xBADu32
}

pub fn is_pri_error(v: u32) -> (r: bool)
    ensures
        r == spec_is_pri_error(v),
{
    v >> 20 == 0xBAD
}


/// PRIV_RING master command register.
pub const PRIV_RING_COMMAND: usize = 0x0012_004C;
/// PRIV_RING command that acknowledges pending ring faults.
pub const PRIV_RING_CMD_ACK: u32 = 0x0000_0002;
/// PMC interrupt status register.
pub const PMC_INTR: usize = 0x0000_0100;
/// PMC interrupt bit of the PRIV_RING.
pub const PMC_INTR_PRIV_RING_BIT: u32 = 0x4000_0000;

/// Number of PRI fault domains: the boot follower's domains plus "UNKNOWN".
pub const PRI_DOMAIN_COUNT: usize = 18;

/// Index of the first domain of `table` (from `i` on) that holds `reg`,
/// or `PRI_DOMAIN_COUNT - 1` when none does.
pub open spec fn spec_domain_index_from(table: Seq<DomainRange>, reg: int, i: int) -> int
    decreases table.len() - i,
{
    if i >= table.len() {
        (PRI_DOMAIN_COUNT - 1) as int
    } else if table[i].start <= reg < table[i].end {
        i
    } else {
        spec_domain_index_from(table, reg, i + 1)
    }
}

/// The PRI fault domain of a register.
pub open spec fn spec_pri_domain(reg: int) -> int {
    spec_domain_index_from(spec_legacy_domains(), reg, 0)
}

proof fn lemma_domain_index_bound(table: Seq<DomainRange>, reg: int, i: int)
    requires
        0 <= i,
        table.len() < PRI_DOMAIN_COUNT,
    ensures
        0 <= spec_domain_index_from(table, reg, i) < PRI_DOMAIN_COUNT,
    decreases table.len() - i,
{
    if i < table.len() && !(table[i].start <= reg < table[i].end) {
        lemma_domain_index_bound(table, reg, i + 1);
    }
}

/// Every register falls in one of the PRI fault domains.
pub proof fn lemma_pri_domain_bound(reg: int)
    ensures
        0 <= spec_pri_domain(reg) < PRI_DOMAIN_COUNT,
{
    assert(spec_legacy_domains().len() < PRI_DOMAIN_COUNT);
    lemma_domain_index_bound(spec_legacy_domains(), reg, 0);
}

/// The PRI fault domain of a register: which of the boot follower's
/// domains holds it, or the last index for "UNKNOWN".
///
/// This is an approximation: the library carries no table of the
/// hardware's own PRI domain numbering, so faults are grouped by the boot
/// follower's register ranges, which may group registers differently.
pub fn pri_domain_index(reg: usize) -> (r: usize)
    ensures
        r == spec_pri_domain(reg as int),
        r < PRI_DOMAIN_COUNT,
{
    let t = legacy_domains();
    proof {
        lemma_domain_index_bound(t@, reg as int, 0);
    }
    let mut i: usize = 0;
    while i < t.len()
        invariant
            t@ == spec_legacy_domains(),
            i <= t@.len(),
            spec_domain_index_from(t@, reg as int, 0) == spec_domain_index_from(t@, reg as int, i as int),
        decreases t.len() - i,
    {
        if reg >= t[i].start && reg < t[i].end {
            return i;
        }
        i = i + 1;
    }
    PRI_DOMAIN_COUNT - 1
}

/// Name of a PRI fault domain.
pub fn pri_domain_name(idx: usize) -> (r: &'static str)
    ensures
        idx < spec_legacy_domains().len() ==> r == spec_legacy_domains()[idx as int].name,
        idx >= spec_legacy_domains().len() ==> r == "UNKNOWN",
{
    let t = legacy_domains();
    if idx < t.len() {
        t[idx].name
    } else {
        "UNKNOWN"
    }
}

/// The trace `b` is `a` followed by a PRI bus recovery: the PRIV_RING
/// acknowledge, a read of PMC_INTR, the clear of its PRIV_RING bit when the
/// read showed it pending (a failed read shows nothing pending), and a
/// 5 ms wait.
pub open spec fn pri_recovery_trace(a: Seq<BusEvent>, b: Seq<BusEvent>) -> bool {
    let n = a.len() as int;
    let pending = crate::pmu::read_value(b[n + 1], 0) & PMC_INTR_PRIV_RING_BIT != 0;
    &&& a.is_prefix_of(b)
    &&& b.len() == n + if pending {
        4int
    } else {
        3int
    }
    &&& b[n] == (BusEvent::Write { reg: PRIV_RING_COMMAND, val: PRIV_RING_CMD_ACK })
    &&& b[n + 1] is Read && b[n + 1]->Read_reg == PMC_INTR
    &&& pending ==> b[n + 2] == (BusEvent::Write { reg: PMC_INTR, val: PMC_INTR_PRIV_RING_BIT })
    &&& b.last() == (BusEvent::Delay { us: 5000 })
}

/// Clear PRI bus faults: acknowledge PRIV_RING faults, clear the PMC
/// PRIV_RING interrupt if it is pending (a failed read counts as none), and
/// wait 5 ms.
pub fn recover_pri_bus<B: RegisterBus>(bar0: &mut Bar0<B>)
    ensures
        old(bar0).events().is_prefix_of(final(bar0).events()),
        final(bar0).events().len() > old(bar0).events().len() + 2,
        final(bar0).events()[old(bar0).events().len() as int] == (BusEvent::Write {
            reg: PRIV_RING_COMMAND,
            val: PRIV_RING_CMD_ACK,
        }),
        final(bar0).events()[old(bar0).events().len() as int + 1] matches BusEvent::Read { reg, .. } && reg
            == PMC_INTR,
        final(bar0).events().last() == (BusEvent::Delay { us: 5000 }),
        pri_recovery_trace(old(bar0).events(), final(bar0).events()),
{
    let ghost e0 = bar0.events();
    let _ = bar0.write(PRIV_RING_COMMAND, PRIV_RING_CMD_ACK);
    let ghost e1 = bar0.events();
    let intr = match bar0.read(PMC_INTR) {
        Ok(v) => v,
        Err(_) => 0,
    };
    let ghost e2 = bar0.events();
    proof {
        lemma_prefix_push(e0, e1.last());
        assert(e1 == e0.push(e1.last()));
        lemma_prefix_push(e1, e2.last());
        assert(e2 == e1.push(e2.last()));
        lemma_prefix_trans(e0, e1, e2);
    }
    if intr & PMC_INTR_PRIV_RING_BIT != 0 {
        let _ = bar0.write(PMC_INTR, PMC_INTR_PRIV_RING_BIT);
        proof {
            lemma_prefix_push(e2, bar0.events().last());
            assert(bar0.events() == e2.push(bar0.events().last()));
            lemma_prefix_trans(e0, e2, bar0.events());
        }
    }
    let ghost e3 = bar0.events();
    bar0.delay(5000);
    proof {
        lemma_prefix_push(e3, BusEvent::Delay { us: 5000 });
        lemma_prefix_trans(e0, e3, bar0.events());
        assert(bar0.events()[e0.len() as int] == e3[e0.len() as int]);
        assert(bar0.events()[e0.len() as int + 1] == e3[e0.len() as int + 1]);
        assert(e3[e0.len() as int] == e1[e0.len() as int]);
        assert(e3[e0.len() as int + 1] == e2[e0.len() as int + 1]);
        assert(intr == crate::pmu::read_value(e2[e0.len() as int + 1], 0));
        if intr & PMC_INTR_PRIV_RING_BIT != 0 {
            assert(bar0.events()[e0.len() as int + 2] == e3[e0.len() as int + 2]);
        }
    }
}

} // verus!
