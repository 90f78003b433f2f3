//! Host-side VBIOS init-script interpreter.
//!
//! Unlike the register-write scanner, the interpreter executes the opcode
//! stream sequentially, respecting control flow (REPEAT/END_REPEAT, JUMP,
//! SUB_DIRECT, DONE), conditions, delays and read-modify-write patterns,
//! and applies the writes to BAR0 with PRI backpressure: writes to a domain
//! that has faulted three times are skipped, and a burst of consecutive
//! faults triggers a bus recovery.
use vstd::prelude::*;
use vstd::string::StringExecFns;

use crate::bus::{
    is_pri_error, pri_domain_index, pri_domain_name, spec_is_pri_error, spec_pri_domain, Bar0,
    BusEvent, RegisterBus, MmioError, PMC_INTR, PMC_INTR_PRIV_RING_BIT, PRIV_RING_CMD_ACK,
    PRIV_RING_COMMAND, PRI_DOMAIN_COUNT,
};
use crate::devinit::{
    find_condition_table, ram_restrict_group_count, spec_condition_table, spec_find_entry, spec_parse_bit,
    spec_ram_restrict_group_count, BitTable, DevinitError,
};
use crate::pmu::read_value;
use crate::rom::{rom_u16, rom_u32, rom_u8};
use crate::rom::{rd08, rd16, rd32};

verus! {

/// Most opcodes one interpreter run executes (nested sub-scripts included).
pub const MAX_OPS: usize = 50_000;

/// Statistics from a VBIOS interpreter run.
#[derive(Debug, Clone)]
pub struct InterpreterStats {
    pub ops_executed: usize,
    pub writes_applied: usize,
    pub writes_skipped_pri: usize,
    pub ops_skipped: usize,
    pub conditions_evaluated: usize,
    pub delays_total_us: u64,
    pub unknown_opcodes: Vec<(usize, u8)>,
    pub pri_faults: usize,
    pub pri_recoveries: usize,
    pub faulted_domains: Vec<String>,
}

impl InterpreterStats {
    /// All counters zero.
    pub fn new() -> (r: Self)
        ensures
            r.ops_executed == 0,
            r.writes_applied == 0,
            r.writes_skipped_pri == 0,
            r.ops_skipped == 0,
            r.conditions_evaluated == 0,
            r.delays_total_us == 0,
            r.unknown_opcodes@.len() == 0,
            r.pri_faults == 0,
            r.pri_recoveries == 0,
            r.faulted_domains@.len() == 0,
    {
        InterpreterStats {
            ops_executed: 0,
            writes_applied: 0,
            writes_skipped_pri: 0,
            ops_skipped: 0,
            conditions_evaluated: 0,
            delays_total_us: 0,
            unknown_opcodes: Vec::new(),
            pri_faults: 0,
            pri_recoveries: 0,
            faulted_domains: Vec::new(),
        }
    }
}

/// A bus event the interpreter may issue: every write stays inside the
/// 16 MiB BAR0 window and is 4-byte aligned.
pub open spec fn event_in_window(e: BusEvent) -> bool {
    match e {
        BusEvent::Write { reg, val } => reg < 0x0100_0000 && reg % 4 == 0,
        _ => true,
    }
}

/// `new` is `old` followed by events that all stay in the window.
pub open spec fn extends_in_window(old: Seq<BusEvent>, new: Seq<BusEvent>) -> bool {
    &&& old.len() <= new.len()
    &&& new.subrange(0, old.len() as int) == old
    &&& forall|i: int| old.len() <= i < new.len() ==> event_in_window(#[trigger] new[i])
}

/// What extends a trace keeps it as a prefix.
pub proof fn lemma_extends_is_prefix(a: Seq<BusEvent>, b: Seq<BusEvent>)
    requires
        extends_in_window(a, b),
    ensures
        a.is_prefix_of(b),
{
}

pub proof fn lemma_extends_refl(s: Seq<BusEvent>)
    ensures
        extends_in_window(s, s),
{
    assert(s.subrange(0, s.len() as int) =~= s);
}

pub proof fn lemma_extends_trans(a: Seq<BusEvent>, b: Seq<BusEvent>, c: Seq<BusEvent>)
    requires
        extends_in_window(a, b),
        extends_in_window(b, c),
    ensures
        extends_in_window(a, c),
{
    assert(c.subrange(0, a.len() as int) =~= c.subrange(0, b.len() as int).subrange(0, a.len() as int));
    assert forall|i: int| a.len() <= i < c.len() implies event_in_window(#[trigger] c[i]) by {
        if i < b.len() {
            assert(c[i] == c.subrange(0, b.len() as int)[i]);
            assert(event_in_window(b[i]));
        }
    }
}

pub proof fn lemma_extends_push(a: Seq<BusEvent>, b: Seq<BusEvent>, e: BusEvent)
    requires
        extends_in_window(a, b),
        event_in_window(e),
    ensures
        extends_in_window(a, b.push(e)),
{
    assert(b.push(e).subrange(0, a.len() as int) =~= b.subrange(0, a.len() as int));
    assert forall|i: int| a.len() <= i < b.push(e).len() implies event_in_window(
        #[trigger] b.push(e)[i],
    ) by {
        if i < b.len() {
            assert(b.push(e)[i] == b[i]);
        }
    }
}

/// The accesses a trace gained past `a` are the `x` it was extended by.
pub proof fn lemma_segment_eq(a: Seq<BusEvent>, b: Seq<BusEvent>, x: Seq<BusEvent>)
    requires
        b =~= a + x,
    ensures
        b.subrange(a.len() as int, b.len() as int) == x,
{
    assert(b.subrange(a.len() as int, b.len() as int) =~= x);
}

/// The value a read-modify-write opcode writes back after reading `cur`,
/// with `a` and `b` its operands: NV_REG (0x6E) `(cur & a) | b`, ZM_MASK
/// (0x47) clears the bits of `a`, OR (0x48) sets them, ZM_MASK_ADD (0x97)
/// adds `b` to `cur & a`, wrapping.
pub open spec fn rmw_value(op: u8, cur: u32, a: u32, b: u32) -> u32 {
    if op == 0x6E {
        (cur & a) | b
    } else if op == 0x47 {
        (cur & !a) | 0
    } else if op == 0x48 {
        (cur & 0xFFFF_FFFF) | a
    } else {
        (cur & a).wrapping_add(b)
    }
}

/// What each read-modify-write opcode writes back, bit by bit, after
/// reading `cur`: ZM_MASK (0x47) clears every bit of its mask `a` and keeps
/// every other bit of `cur`; OR (0x48) sets every bit of `a` and keeps the
/// others; NV_REG (0x6E) sets every bit of `b` and elsewhere keeps the bits
/// of `cur` that `a` selects; ZM_MASK_ADD (0x97) writes `cur & a` plus `b`
/// modulo 2^32.
pub proof fn lemma_rmw_opcode_values(op: u8, cur: u32, a: u32, b: u32)
    ensures
        op == 0x47 ==> rmw_value(op, cur, a, b) & a == 0 && rmw_value(op, cur, a, b) & !a == cur & !a,
        op == 0x48 ==> rmw_value(op, cur, a, b) & a == a && rmw_value(op, cur, a, b) & !a == cur & !a,
        op == 0x6E ==> rmw_value(op, cur, a, b) & b == b && rmw_value(op, cur, a, b) & !b == cur & a & !b,
        op == 0x97 ==> rmw_value(op, cur, a, b) as int == ((cur & a) as int + b as int) % 0x1_0000_0000,
{
    if op == 0x47 {
        let r = (cur & !a) | 0;
        assert(r & a == 0 && r & !a == cur & !a) by (bit_vector)
            requires
                r == (cur & !a) | 0,
        ;
    } else if op == 0x48 {
        let r = (cur & 0xFFFF_FFFF) | a;
        assert(r & a == a && r & !a == cur & !a) by (bit_vector)
            requires
                r == (cur & 0xFFFF_FFFF) | a,
        ;
    } else if op == 0x6E {
        let r = (cur & a) | b;
        assert(r & b == b && r & !b == cur & a & !b) by (bit_vector)
            requires
                r == (cur & a) | b,
        ;
    }
}

/// The write of `val` to `reg` that the interpreter issues given its
/// execution flag and PRI fault state: none while execution is off, for a
/// register outside the window or unaligned, for a domain with three or
/// more faults, or during a run of at least twice `threshold` consecutive
/// faults.
pub open spec fn gated_write(
    execute: bool,
    faults: Seq<u32>,
    consecutive: u32,
    threshold: u32,
    reg: int,
    val: u32,
) -> Seq<BusEvent> {
    if execute && 0 <= reg < 0x0100_0000 && reg % 4 == 0 && !(faults[spec_pri_domain(reg)] >= 3
        || consecutive >= threshold * 2) {
        seq![BusEvent::Write { reg: reg as usize, val }]
    } else {
        Seq::empty()
    }
}

/// The writes of the first `n` data words of a ZM_REG_SEQUENCE at `off`
/// whose first register is `base`: word `i` (read at `off + 6 + 4 i`) goes
/// to `base + 4 i`, skipped past the window, each gated as
/// [`gated_write`] says.
pub open spec fn sequence_writes(
    rom: Seq<u8>,
    execute: bool,
    faults: Seq<u32>,
    consecutive: u32,
    threshold: u32,
    off: int,
    base: int,
    n: nat,
) -> Seq<BusEvent>
    decreases n,
{
    if n == 0 {
        Seq::empty()
    } else {
        let i = n - 1;
        let prev = sequence_writes(rom, execute, faults, consecutive, threshold, off, base, i as nat);
        if base + 4 * i < 0x0100_0000 {
            prev + gated_write(execute, faults, consecutive, threshold, base + 4 * i, rom_u32(rom, off + 6 + 4 * i))
        } else {
            prev
        }
    }
}

/// One zero fault count per PRI domain.
fn zero_domain_faults() -> (r: Vec<u32>)
    ensures
        r@.len() == PRI_DOMAIN_COUNT,
        forall|d: int| 0 <= d < PRI_DOMAIN_COUNT ==> r@[d] == 0,
{
    let mut faults: Vec<u32> = Vec::new();
    let mut i: usize = 0;
    while i < PRI_DOMAIN_COUNT
        invariant
            i <= PRI_DOMAIN_COUNT,
            faults@.len() == i,
            forall|d: int| 0 <= d < i ==> faults@[d] == 0,
        decreases PRI_DOMAIN_COUNT - i,
    {
        faults.push(0);
        i = i + 1;
    }
    faults
}

/// State for the VBIOS init script interpreter.
pub struct VbiosInterpreter<'a> {
    pub rom: &'a [u8],
    pub offset: usize,
    pub execute: bool,
    pub repeat_count: u8,
    pub repeat_offset: usize,
    pub nested: u32,
    pub stats: InterpreterStats,
    /// PRI backpressure: consecutive faults without a clean read.
    pub pri_consecutive_faults: u32,
    /// PRI backpressure: threshold before attempting bus recovery.
    pub pri_fault_threshold: u32,
    /// PRI backpressure: per-domain fault count. Domains with 3+ faults are skipped.
    pub pri_domain_faults: Vec<u32>,
}

/// Largest step an opcode moves the script offset forward.
pub open spec fn max_step() -> int {
    17000
}

/// An image offset leaves room for the longest run of opcodes after it.
pub proof fn lemma_image_offsets_have_room(o: int)
    requires
        0 <= o <= isize::MAX,
    ensures
        o + max_step() * MAX_OPS <= usize::MAX - 64,
{
    assert(isize::MAX + max_step() * MAX_OPS <= usize::MAX - 64) by {
        assert(usize::BITS == 32 || usize::BITS == 64);
    }
}

impl<'a> VbiosInterpreter<'a> {
    /// Counters and offsets fit the budget of `k` executed opcodes.
    pub open spec fn within_budget(&self, k: int) -> bool {
        &&& self.rom@.len() <= isize::MAX
        &&& 0 <= k <= MAX_OPS
        &&& self.stats.ops_executed <= MAX_OPS
        &&& self.stats.unknown_opcodes@.len() <= 101
        &&& self.stats.unknown_opcodes@.len() <= k
        &&& self.stats.ops_skipped <= k
        &&& self.stats.conditions_evaluated <= k
        &&& self.stats.writes_applied + self.stats.writes_skipped_pri <= 256 * k
        &&& self.stats.pri_faults <= 256 * k
        &&& self.stats.pri_recoveries <= self.stats.pri_faults
        &&& self.pri_consecutive_faults <= self.stats.pri_faults
        &&& self.stats.delays_total_us <= k * 0x100_0000
        &&& self.pri_fault_threshold == 5
        &&& self.pri_domain_faults@.len() == PRI_DOMAIN_COUNT
        &&& forall|d: int|
            0 <= d < PRI_DOMAIN_COUNT ==> #[trigger] self.pri_domain_faults@[d]
                <= self.stats.pri_faults
        &&& self.offset + max_step() * (MAX_OPS - k) <= usize::MAX - 64
        &&& self.repeat_offset + max_step() * (MAX_OPS - k) <= usize::MAX - 64
        &&& self.nested <= k + 1
    }

    /// The interpreter's invariant: within the budget of the opcodes it has
    /// executed so far.
    pub open spec fn wf(&self) -> bool {
        self.within_budget(self.stats.ops_executed as int)
    }

    /// Start an interpreter at `start`. The start may lie past the end of
    /// the image: bytes there read as zero, each an unknown opcode of one
    /// byte. It must leave room for the offset to advance through a full
    /// run without leaving the address range.
    pub fn new(rom: &'a [u8], start: usize) -> (r: Self)
        requires
            rom@.len() <= isize::MAX,
            start + max_step() * MAX_OPS <= usize::MAX - 64,
        ensures
            r.wf(),
            r.rom == rom,
            r.offset == start,
            r.execute,
            r.nested == 0,
            r.stats.ops_executed == 0,
            r.stats.unknown_opcodes@.len() == 0,
            Self::fresh_at(r, rom@, start as int),
    {
        let faults = zero_domain_faults();
        proof {
            assert(faults@ =~= Seq::new(PRI_DOMAIN_COUNT as nat, |d: int| 0u32));
        }
        VbiosInterpreter {
            rom,
            offset: start,
            execute: true,
            repeat_count: 0,
            repeat_offset: 0,
            nested: 0,
            stats: InterpreterStats::new(),
            pri_consecutive_faults: 0,
            pri_fault_threshold: 5,
            pri_domain_faults: faults,
        }
    }

    /// `s` is a fresh interpreter over `rom` at `start`: executing, no
    /// repeat pending, no opcode executed or logged, no PRI fault counted.
    pub open spec fn fresh_at(s: Self, rom: Seq<u8>, start: int) -> bool {
        &&& s.rom@ == rom
        &&& s.offset == start
        &&& s.execute
        &&& s.repeat_count == 0
        &&& s.repeat_offset == 0
        &&& s.stats.ops_executed == 0
        &&& s.stats.unknown_opcodes@.len() == 0
        &&& s.pri_consecutive_faults == 0
        &&& s.pri_fault_threshold == 5
        &&& s.pri_domain_faults@ == Seq::new(PRI_DOMAIN_COUNT as nat, |d: int| 0u32)
    }

    /// `g` are the accesses of a complete run, from a fresh interpreter, of
    /// the script at `start`, which executed `ops` opcodes: the opcodes
    /// executed one after another until the offset chain ended, the opcode
    /// budget ran out or the run failed on too many unknown opcodes.
    pub open spec fn script_run(rom: Seq<u8>, start: int, g: Seq<BusEvent>, ops: int) -> bool {
        exists|ss: Seq<Self>, gs: Seq<Seq<BusEvent>>|
            {
                &&& #[trigger] Self::executed_chain(ss, gs)
                &&& Self::fresh_at(ss[0], rom, start)
                &&& g == gs.flatten()
                &&& ss.last().stats.ops_executed == ops
                &&& (ss.last().offset == 0 || ss.last().stats.ops_executed == MAX_OPS
                    || ss.last().stats.unknown_opcodes@.len() > 100)
            }
    }

    /// Fields that register accesses leave alone.
    pub open spec fn same_control(&self, other: &Self) -> bool {
        &&& self.rom == other.rom
        &&& self.offset == other.offset
        &&& self.execute == other.execute
        &&& self.repeat_count == other.repeat_count
        &&& self.repeat_offset == other.repeat_offset
        &&& self.nested == other.nested
        &&& self.stats.ops_executed == other.stats.ops_executed
        &&& self.stats.unknown_opcodes@ == other.stats.unknown_opcodes@
        &&& self.stats.ops_skipped == other.stats.ops_skipped
        &&& self.stats.conditions_evaluated == other.stats.conditions_evaluated
        &&& self.stats.delays_total_us == other.stats.delays_total_us
    }

    /// Read a script register with PRI fault accounting.
    ///
    /// Unaligned registers and registers outside the 16 MiB window read as
    /// 0xDEADDEAD without touching the bus. A read that fails reads as
    /// 0xDEADDEAD. A PRI fault counts against the register's domain and the
    /// run of consecutive faults; five consecutive faults trigger a bus
    /// recovery. A clean read ends the run.
    pub fn bar0_rd32<B: RegisterBus>(&mut self, bar0: &mut Bar0<B>, reg: u32) -> (r: u32)
        requires
            old(self).within_budget(old(self).stats.ops_executed as int),
            old(self).stats.pri_faults < 256 * old(self).stats.ops_executed,
        ensures
            final(self).within_budget(final(self).stats.ops_executed as int),
            final(self).same_control(&*old(self)),
            final(self).stats.writes_applied == old(self).stats.writes_applied,
            final(self).stats.writes_skipped_pri == old(self).stats.writes_skipped_pri,
            final(self).stats.pri_faults <= old(self).stats.pri_faults + 1,
            extends_in_window(old(bar0).events(), final(bar0).events()),
            (reg % 4 != 0 || reg >= 0x0100_0000) ==> r == 0xDEAD_DEADu32 && final(bar0).events()
                == old(bar0).events() && *final(self) == *old(self),
            (reg % 4 == 0 && reg < 0x0100_0000) ==> {
                &&& final(bar0).events().len() > old(bar0).events().len()
                &&& final(bar0).events()[old(bar0).events().len() as int] matches BusEvent::Read {
                    reg: rr,
                    result,
                } && rr == reg as usize && r == match result {
                    Some(v) => v,
                    None => 0xDEAD_DEADu32,
                }
                &&& spec_is_pri_error(r) ==> final(self).stats.pri_faults == old(self).stats.pri_faults
                    + 1
                &&& !spec_is_pri_error(r) ==> final(self).stats.pri_faults
                    == old(self).stats.pri_faults && final(self).pri_consecutive_faults == 0
                    && final(bar0).events() == old(bar0).events().push(
                    final(bar0).events()[old(bar0).events().len() as int],
                ) && final(self).pri_domain_faults@ == old(self).pri_domain_faults@
                    && final(self).stats.pri_recoveries == old(self).stats.pri_recoveries
            },
    {
        let ghost e0 = bar0.events();
        proof {
            lemma_extends_refl(e0);
        }
        let r = reg as usize;
        if r % 4 != 0 || r >= 0x0100_0000 {
            return 0xDEAD_DEAD;
        }
        let val = match bar0.read(r) {
            Ok(v) => v,
            Err(_) => 0xDEAD_DEAD,
        };
        proof {
            lemma_extends_refl(e0);
            lemma_extends_push(e0, e0, bar0.events().last());
        }
        let ghost e1 = bar0.events();
        if is_pri_error(val) {
            self.stats.pri_faults = self.stats.pri_faults + 1;
            self.pri_consecutive_faults = self.pri_consecutive_faults + 1;
            let d = pri_domain_index(r);
            let c = self.pri_domain_faults[d];
            self.pri_domain_faults.set(d, c + 1);
            if self.pri_consecutive_faults >= self.pri_fault_threshold {
                self.attempt_pri_recovery(bar0);
                proof {
                    lemma_extends_trans(e0, e1, bar0.events());
                }
            }
        } else {
            self.pri_consecutive_faults = 0;
            proof {
                assert(bar0.events() =~= e0.push(bar0.events()[e0.len() as int]));
            }
        }
        proof {
            assert(bar0.events().subrange(0, e1.len() as int) == e1);
            assert(bar0.events()[e0.len() as int] == bar0.events().subrange(0, e1.len() as int)[e0.len() as int]);
        }
        val
    }

    /// The domain faults and fault run that make `bar0_wr32` skip a write.
    pub open spec fn write_throttled(&self, reg: int) -> bool {
        self.pri_domain_faults@[spec_pri_domain(reg)] >= 3 || self.pri_consecutive_faults
            >= self.pri_fault_threshold * 2
    }

    /// Write a script register with PRI backpressure.
    ///
    /// Nothing happens while execution is off or for unaligned registers and
    /// registers outside the 16 MiB window. A write to a domain with three or
    /// more faults, or during a run of ten or more consecutive faults, is
    /// skipped and counted. Otherwise the write goes to the bus and counts as
    /// applied.
    pub fn bar0_wr32<B: RegisterBus>(&mut self, bar0: &mut Bar0<B>, reg: u32, val: u32)
        requires
            old(self).within_budget(old(self).stats.ops_executed as int),
            old(self).stats.writes_applied + old(self).stats.writes_skipped_pri < 256 * old(
                self,
            ).stats.ops_executed,
        ensures
            final(self).within_budget(final(self).stats.ops_executed as int),
            final(self).same_control(&*old(self)),
            final(self).stats.pri_faults == old(self).stats.pri_faults,
            final(self).pri_consecutive_faults == old(self).pri_consecutive_faults,
            final(self).pri_domain_faults@ == old(self).pri_domain_faults@,
            final(self).stats.pri_recoveries == old(self).stats.pri_recoveries,
            extends_in_window(old(bar0).events(), final(bar0).events()),
            if !old(self).execute || reg >= 0x0100_0000 || reg % 4 != 0 {
                &&& final(bar0).events() == old(bar0).events()
                &&& final(self).stats.writes_applied == old(self).stats.writes_applied
                &&& final(self).stats.writes_skipped_pri == old(self).stats.writes_skipped_pri
            } else if old(self).write_throttled(reg as int) {
                &&& final(bar0).events() == old(bar0).events()
                &&& final(self).stats.writes_applied == old(self).stats.writes_applied
                &&& final(self).stats.writes_skipped_pri == old(self).stats.writes_skipped_pri + 1
            } else {
                &&& final(bar0).events() == old(bar0).events().push(
                    BusEvent::Write { reg: reg as usize, val },
                )
                &&& final(self).stats.writes_applied == old(self).stats.writes_applied + 1
                &&& final(self).stats.writes_skipped_pri == old(self).stats.writes_skipped_pri
            },
    {
        let ghost e0 = bar0.events();
        proof {
            lemma_extends_refl(e0);
        }
        let r = reg as usize;
        if !self.execute || r >= 0x0100_0000 || r % 4 != 0 {
            return ;
        }
        let d = pri_domain_index(r);
        if self.pri_domain_faults[d] >= 3 {
            self.stats.writes_skipped_pri = self.stats.writes_skipped_pri + 1;
            return ;
        }
        if self.pri_consecutive_faults >= self.pri_fault_threshold * 2 {
            self.stats.writes_skipped_pri = self.stats.writes_skipped_pri + 1;
            return ;
        }
        let _ = bar0.write(r, val);
        proof {
            lemma_extends_push(e0, e0, BusEvent::Write { reg: r, val });
        }
        self.stats.writes_applied = self.stats.writes_applied + 1;
    }

    /// Read-modify-write: `reg = (reg & mask) | val`, unless the read
    /// returns a PRI fault. Returns the value read.
    pub fn bar0_mask<B: RegisterBus>(&mut self, bar0: &mut Bar0<B>, reg: u32, mask: u32, val: u32) -> (r: u32)
        requires
            old(self).within_budget(old(self).stats.ops_executed as int),
            old(self).stats.pri_faults < 256 * old(self).stats.ops_executed,
            old(self).stats.writes_applied + old(self).stats.writes_skipped_pri < 256 * old(
                self,
            ).stats.ops_executed,
        ensures
            final(self).within_budget(final(self).stats.ops_executed as int),
            final(self).same_control(&*old(self)),
            final(self).stats.pri_faults <= old(self).stats.pri_faults + 1,
            final(self).stats.writes_applied + final(self).stats.writes_skipped_pri
                <= old(self).stats.writes_applied + old(self).stats.writes_skipped_pri + 1,
            extends_in_window(old(bar0).events(), final(bar0).events()),
            (reg % 4 != 0 || reg >= 0x0100_0000) ==> r == 0xDEAD_DEADu32 && final(bar0).events()
                == old(bar0).events(),
            (reg % 4 == 0 && reg < 0x0100_0000) ==> {
                let rd = final(bar0).events()[old(bar0).events().len() as int];
                &&& final(bar0).events().len() > old(bar0).events().len()
                &&& rd matches BusEvent::Read { reg: rr, result } && rr == reg as usize && r == match result {
                    Some(v) => v,
                    None => 0xDEAD_DEADu32,
                }
                &&& !spec_is_pri_error(r) ==> final(bar0).events() == old(bar0).events().push(rd) + old(
                    self,
                ).write_events_after_clean_read(reg as int, (r & mask) | val)
            },
    {
        let ghost e0 = bar0.events();
        let cur = self.bar0_rd32(bar0, reg);
        if is_pri_error(cur) {
            return cur;
        }
        let ghost e1 = bar0.events();
        self.bar0_wr32(bar0, reg, (cur & mask) | val);
        proof {
            lemma_extends_trans(e0, e1, bar0.events());
            if old(self).write_events_after_clean_read(reg as int, (cur & mask) | val).len() == 0 {
                assert(bar0.events() =~= e1 + old(self).write_events_after_clean_read(reg as int, (cur & mask) | val));
            } else {
                assert(bar0.events() =~= e1 + old(self).write_events_after_clean_read(reg as int, (cur & mask) | val));
            }
        }
        cur
    }

    /// Look up condition `cond_idx` of the 12-byte-entry condition table at
    /// `cond_table_off` (register, mask, value) and test
    /// `(register & mask) == value`. An entry past the image or with
    /// register 0 counts as met.
    pub fn condition_met<B: RegisterBus>(&mut self, bar0: &mut Bar0<B>, cond_table_off: usize, cond_idx: u8) -> (r: bool)
        requires
            old(self).within_budget(old(self).stats.ops_executed as int),
            old(self).stats.pri_faults < 256 * old(self).stats.ops_executed,
            cond_table_off <= 0xFFFF,
        ensures
            final(self).within_budget(final(self).stats.ops_executed as int),
            final(self).same_control(&*old(self)),
            final(self).stats.writes_applied == old(self).stats.writes_applied,
            final(self).stats.writes_skipped_pri == old(self).stats.writes_skipped_pri,
            final(self).stats.pri_faults <= old(self).stats.pri_faults + 1,
            extends_in_window(old(bar0).events(), final(bar0).events()),
            ({
                let e = cond_table_off + cond_idx * 12;
                let rom = old(self).rom@;
                let reg = rom_u32(rom, e);
                let mask = rom_u32(rom, e + 4);
                let value = rom_u32(rom, e + 8);
                if e + 12 > rom.len() || reg == 0 {
                    r && final(bar0).events() == old(bar0).events()
                } else if reg % 4 != 0 || reg >= 0x0100_0000 {
                    r == ((0xDEAD_DEADu32 & mask) == value) && final(bar0).events() == old(bar0).events()
                } else {
                    &&& final(bar0).events().len() > old(bar0).events().len()
                    &&& final(bar0).events()[old(bar0).events().len() as int] matches BusEvent::Read {
                        reg: rr,
                        result,
                    } && rr == reg as usize && r == ((match result {
                        Some(v) => v,
                        None => 0xDEAD_DEADu32,
                    } & mask) == value)
                    &&& !spec_is_pri_error(read_value(final(bar0).events()[old(bar0).events().len() as int], 0xDEAD_DEAD))
                        ==> final(bar0).events().len() == old(bar0).events().len() + 1
                }
            }),
    {
        let ghost e0 = bar0.events();
        proof {
            lemma_extends_refl(e0);
        }
        let entry_off = cond_table_off + (cond_idx as usize) * 12;
        if entry_off > self.rom.len() || self.rom.len() - entry_off < 12 {
            return true;
        }
        let reg = rd32(self.rom, entry_off);
        let mask = rd32(self.rom, entry_off + 4);
        let value = rd32(self.rom, entry_off + 8);
        if reg == 0 {
            return true;
        }
        let actual = self.bar0_rd32(bar0, reg);
        (actual & mask) == value
    }

    /// What every opcode keeps: the image, the invariant, the monotone
    /// counters, and a bus trace whose writes stay in the BAR0 window.
    pub open spec fn advanced_from(&self, old: &Self) -> bool {
        &&& self.rom == old.rom
        &&& self.wf()
        &&& self.stats.ops_executed >= old.stats.ops_executed
        &&& self.stats.unknown_opcodes@.len() >= old.stats.unknown_opcodes@.len()
        &&& self.nested == old.nested
    }

    /// Where an opcode leaves the script offset: DONE (0x71) ends the
    /// script (offset 0); RESUME and NOT move one byte; REPEAT (0x33)
    /// records its count and body; END_REPEAT (0x36) jumps back while
    /// repeats remain; JUMP (0x5C) goes to its target (0 for a null or
    /// out-of-image target); the condition, delay and register opcodes move
    /// by their fixed length, ZM_REG_SEQUENCE past the data words it read;
    /// the opcodes that are only skipped move by their length, an unknown
    /// opcode by one byte. `None` for SUB_DIRECT, which depends on the
    /// sub-script's run.
    pub open spec fn spec_next_offset(&self, op: u8) -> Option<int> {
        let off = self.offset as int;
        if op == 0x71 {
            Some(0)
        } else if op == 0x72 || op == 0x38 {
            Some(off + 1)
        } else if op == 0x33 || op == 0x75 {
            Some(off + 2)
        } else if op == 0x36 {
            if self.repeat_count > 1 {
                Some(self.repeat_offset as int)
            } else {
                Some(off + 1)
            }
        } else if op == 0x5C {
            let t = rom_u16(self.rom@, off + 1) as int;
            if t == 0 || t >= self.rom@.len() {
                Some(0)
            } else {
                Some(t)
            }
        } else if op == 0x6D || op == 0x74 || op == 0x57 {
            Some(off + 3)
        } else if op == 0x56 {
            Some(off + 5)
        } else if op == 0x77 {
            Some(off + 7)
        } else if op == 0x7A || op == 0x47 || op == 0x48 || op == 0x5A {
            Some(off + 9)
        } else if op == 0x97 {
            Some(off + 11)
        } else if op == 0x6E {
            Some(off + 13)
        } else if op == 0x58 || op == 0x91 {
            Some(off + 6 + 4 * self.seq_words(off, rom_u8(self.rom@, off + 5) as int))
        } else if op == 0x5B {
            None
        } else {
            match spec_fixed_effect(self.rom@, off, op) {
                Some((len, _)) => Some(off + len),
                None => Some(off + 1),
            }
        }
    }

    /// The bus access of a single register write (ZM_REG 0x7A, ZM_REG16
    /// 0x77) at the current offset: none while execution is off, for a
    /// register outside the window or unaligned, or for a throttled one.
    pub open spec fn spec_single_write(&self, op: u8) -> Seq<BusEvent> {
        let off = self.offset as int;
        let reg = rom_u32(self.rom@, off + 1);
        let val = if op == 0x7A {
            rom_u32(self.rom@, off + 5)
        } else {
            rom_u16(self.rom@, off + 5) as u32
        };
        if self.execute && reg < 0x0100_0000 && reg % 4 == 0 && !self.write_throttled(reg as int) {
            seq![BusEvent::Write { reg: reg as usize, val }]
        } else {
            Seq::empty()
        }
    }

    /// The write `bar0_wr32` makes of `val` to `reg` in this state: none
    /// while execution is off, for a register outside the window or
    /// unaligned, or for a throttled one.
    pub open spec fn write_events(&self, reg: int, val: u32) -> Seq<BusEvent> {
        gated_write(
            self.execute,
            self.pri_domain_faults@,
            self.pri_consecutive_faults,
            self.pri_fault_threshold,
            reg,
            val,
        )
    }

    /// The write `bar0_wr32` makes right after a clean read, which ended
    /// any run of consecutive faults: only the domain's fault count can
    /// throttle it.
    pub open spec fn write_events_after_clean_read(&self, reg: int, val: u32) -> Seq<BusEvent> {
        if self.execute && 0 <= reg < 0x0100_0000 && reg % 4 == 0 && self.pri_domain_faults@[spec_pri_domain(
            reg,
        )] < 3 {
            seq![BusEvent::Write { reg: reg as usize, val }]
        } else {
            Seq::empty()
        }
    }

    /// A read of `reg` followed by a write of `rmw_value(op, value read, a,
    /// b)` to it: nothing for a register outside the window or unaligned;
    /// otherwise `seg` starts with the read, and when that read is clean the
    /// write follows (unless execution is off or the domain is throttled)
    /// and nothing else.
    pub open spec fn read_write_effect(&self, reg: u32, op: u8, a: u32, b: u32, seg: Seq<BusEvent>) -> bool {
        if reg % 4 != 0 || reg >= 0x0100_0000 {
            seg.len() == 0
        } else {
            &&& seg.len() >= 1
            &&& seg[0] is Read
            &&& seg[0]->Read_reg == reg as usize
            &&& !spec_is_pri_error(read_value(seg[0], 0xDEAD_DEAD)) ==> seg == seq![seg[0]]
                + self.write_events_after_clean_read(reg as int, rmw_value(op, read_value(seg[0], 0xDEAD_DEAD), a, b))
        }
    }

    /// How many data words of a ZM_REG_SEQUENCE at `off` with `count` words
    /// lie inside the image.
    pub open spec fn seq_words(&self, off: int, count: int) -> int {
        let room = self.rom@.len() - (off + 6);
        if room < 0 {
            0
        } else if count <= room / 4 {
            count
        } else {
            room / 4
        }
    }

    /// The writes of the first `n` words of a ZM_REG_SEQUENCE at `off`
    /// whose first register is `base`: word `i` goes to `base + 4 i`
    /// (skipped past the window), each as [`Self::write_events`] makes it.
    pub open spec fn seq_write_events(&self, off: int, base: int, n: nat) -> Seq<BusEvent> {
        sequence_writes(
            self.rom@,
            self.execute,
            self.pri_domain_faults@,
            self.pri_consecutive_faults,
            self.pri_fault_threshold,
            off,
            base,
            n,
        )
    }

    /// Whether condition `idx` of the table at `ct` held, given the
    /// accesses `seg` that testing it made (see [`Self::condition_met`]).
    pub open spec fn condition_held(&self, ct: int, idx: u8, seg: Seq<BusEvent>) -> bool {
        let e = ct + idx * 12;
        let rom = self.rom@;
        let reg = rom_u32(rom, e);
        let mask = rom_u32(rom, e + 4);
        let value = rom_u32(rom, e + 8);
        if e + 12 > rom.len() || reg == 0 {
            true
        } else if reg % 4 != 0 || reg >= 0x0100_0000 {
            (0xDEAD_DEADu32 & mask) == value
        } else {
            (read_value(seg[0], 0xDEAD_DEAD) & mask) == value
        }
    }

    /// The accesses testing condition `idx` of the table at `ct` make:
    /// none when the entry lies past the image, has register 0, or names a
    /// register outside the window; otherwise they start with a read of
    /// that register, alone when it is clean.
    pub open spec fn condition_accesses(&self, ct: int, idx: u8, seg: Seq<BusEvent>) -> bool {
        let e = ct + idx * 12;
        let rom = self.rom@;
        let reg = rom_u32(rom, e);
        if e + 12 > rom.len() || reg == 0 || reg % 4 != 0 || reg >= 0x0100_0000 {
            seg.len() == 0
        } else {
            &&& seg.len() >= 1
            &&& seg[0] is Read
            &&& seg[0]->Read_reg == reg as usize
            &&& !spec_is_pri_error(read_value(seg[0], 0xDEAD_DEAD)) ==> seg.len() == 1
        }
    }

    /// What executing opcode `op` at this state's offset did: the bus
    /// accesses `seg` it made and the state `s1` it left (all but the
    /// executed-opcode count and the nesting depth).
    ///
    /// Control flow (DONE, RESUME, NOT, REPEAT, END_REPEAT, JUMP), the
    /// opcodes that only move the offset and unknown opcodes make no
    /// access; unknown opcodes are logged. TIME and DELAY wait. ZM_REG,
    /// ZM_REG16 and ZM_REG_SEQUENCE write their values; NV_REG, ZM_MASK,
    /// OR, ZM_MASK_ADD and COPY read and write back as
    /// [`Self::read_write_effect`] says. CONDITION and STRAP_CONDITION turn
    /// execution off when their condition fails. SUB_DIRECT moves past its
    /// operand after running the sub-script; what the sub-script does is
    /// stated by `run` for that run.
    pub open spec fn op_effect(&self, op: u8, seg: Seq<BusEvent>, s1: Self) -> bool {
        let off = self.offset as int;
        let rom = self.rom@;
        let reg = rom_u32(rom, off + 1);
        let w1 = rom_u32(rom, off + 5);
        let w2 = rom_u32(rom, off + 9);
        let keeps_flow = s1.execute == self.execute && s1.repeat_count == self.repeat_count
            && s1.repeat_offset == self.repeat_offset;
        let logs_nothing = s1.stats.unknown_opcodes@ == self.stats.unknown_opcodes@;
        &&& s1.rom == self.rom
        &&& self.spec_next_offset(op) matches Some(o) ==> s1.offset == o
        &&& op == 0x72 ==> seg.len() == 0 && s1.execute && logs_nothing
        &&& op == 0x38 ==> seg.len() == 0 && s1.execute == !self.execute && logs_nothing
        &&& op == 0x33 ==> seg.len() == 0 && s1.repeat_count == rom_u8(rom, off + 1) && s1.repeat_offset
            == off + 2 && s1.execute == self.execute && logs_nothing
        &&& op == 0x36 ==> seg.len() == 0 && s1.execute == self.execute && s1.repeat_offset
            == self.repeat_offset && s1.repeat_count == (if self.repeat_count > 1 {
            (self.repeat_count - 1) as u8
        } else {
            0u8
        }) && logs_nothing
        &&& (op == 0x71 || op == 0x5C) ==> seg.len() == 0 && keeps_flow && logs_nothing
        &&& (op == 0x74 || op == 0x57) ==> keeps_flow && logs_nothing && {
            let us = rom_u16(rom, off + 1) as u64;
            let waited = if op == 0x74 && us > 20_000 {
                ((us / 1000) * 1000) as u64
            } else {
                us
            };
            seg == if self.execute && us > 0 {
                seq![BusEvent::Delay { us: waited }]
            } else {
                Seq::empty()
            }
        }
        &&& (op == 0x7A || op == 0x77) ==> keeps_flow && logs_nothing && seg == self.spec_single_write(op)
        &&& (op == 0x58 || op == 0x91) ==> keeps_flow && logs_nothing && seg == self.seq_write_events(
            off,
            reg as int,
            self.seq_words(off, rom_u8(rom, off + 5) as int) as nat,
        )
        &&& (op == 0x6E || op == 0x47 || op == 0x48 || op == 0x97) ==> keeps_flow && logs_nothing && {
            if reg >= 0x0100_0000 {
                seg.len() == 0
            } else if op == 0x97 {
                self.read_write_effect(reg, op, w1, rom_u8(rom, off + 9) as u32, seg)
            } else {
                self.read_write_effect(reg, op, w1, w2, seg)
            }
        }
        &&& op == 0x5A ==> keeps_flow && logs_nothing && {
            if reg >= 0x0100_0000 || w1 >= 0x0100_0000 {
                seg.len() == 0
            } else if w1 % 4 != 0 {
                seg == self.write_events(reg as int, 0xDEAD_DEAD)
            } else {
                &&& seg.len() >= 1
                &&& seg[0] is Read
                &&& seg[0]->Read_reg == w1 as usize
                &&& !spec_is_pri_error(read_value(seg[0], 0xDEAD_DEAD)) ==> seg == seq![seg[0]]
                    + self.write_events_after_clean_read(reg as int, read_value(seg[0], 0xDEAD_DEAD))
            }
        }
        &&& op == 0x6D ==> logs_nothing && s1.repeat_count == self.repeat_count && s1.repeat_offset
            == self.repeat_offset && seg.len() >= 1 && seg[0] is Read && seg[0]->Read_reg == 0x101000
            && s1.execute == (self.execute && (((read_value(seg[0], 0xDEAD_DEAD) & 0xFF) as u8 & rom_u8(
            rom,
            off + 1,
        )) == rom_u8(rom, off + 2))) && (!spec_is_pri_error(read_value(seg[0], 0xDEAD_DEAD))
            ==> seg.len() == 1)
        &&& op == 0x75 ==> logs_nothing && s1.repeat_count == self.repeat_count && s1.repeat_offset
            == self.repeat_offset && {
            let ct = spec_condition_table(rom);
            let idx = rom_u8(rom, off + 1);
            if ct == 0 {
                seg.len() == 0 && s1.execute == self.execute
            } else {
                self.condition_accesses(ct, idx, seg) && s1.execute == (self.execute
                    && self.condition_held(ct, idx, seg))
            }
        }
        &&& op == 0x56 ==> logs_nothing && s1.repeat_count == self.repeat_count && s1.repeat_offset
            == self.repeat_offset && (s1.execute ==> self.execute)
        &&& spec_fixed_effect(rom, off, op) is Some ==> seg.len() == 0 && keeps_flow && logs_nothing
        &&& self.is_unknown_op(op) ==> seg.len() == 0 && keeps_flow
            && s1.stats.unknown_opcodes@ == self.stats.unknown_opcodes@.push((self.offset, op))
        &&& op == 0x5B ==> s1.offset == off + 3 || s1.stats.unknown_opcodes@.len() > 100
    }

    /// An opcode the interpreter neither executes nor knows how to skip.
    pub open spec fn is_unknown_op(&self, op: u8) -> bool {
        &&& op != 0x71 && op != 0x72 && op != 0x38 && op != 0x33 && op != 0x36 && op != 0x5C && op != 0x5B
        &&& op != 0x75 && op != 0x6D && op != 0x56 && op != 0x74 && op != 0x57 && op != 0x7A && op != 0x6E
        &&& op != 0x58 && op != 0x91 && op != 0x77 && op != 0x47 && op != 0x48 && op != 0x97 && op != 0x5A
        &&& spec_fixed_effect(self.rom@, self.offset as int, op) is None
    }

    /// A read-modify-write opcode on an aligned register inside the window,
    /// with execution on and the register's domain not throttled, whose read
    /// came back clean with `cur`: it makes that read and one write of the
    /// same register, nothing else. ZM_MASK (0x47) writes `cur` with every
    /// bit of its mask (the word after the register) cleared and every other
    /// bit kept; OR (0x48) writes it with those bits set; NV_REG (0x6E) keeps
    /// the bits its AND mask selects and sets those of its OR mask;
    /// ZM_MASK_ADD (0x97) writes the masked value plus its byte operand
    /// modulo 2^32.
    pub proof fn lemma_rmw_op_writes_back(&self, op: u8, seg: Seq<BusEvent>, s1: Self)
        requires
            op == 0x6E || op == 0x47 || op == 0x48 || op == 0x97,
            self.op_effect(op, seg, s1),
            self.execute,
            rom_u32(self.rom@, self.offset + 1) % 4 == 0,
            rom_u32(self.rom@, self.offset + 1) < 0x0100_0000,
            self.pri_domain_faults@[spec_pri_domain(rom_u32(self.rom@, self.offset + 1) as int)] < 3,
            seg.len() >= 1,
            !spec_is_pri_error(read_value(seg[0], 0xDEAD_DEAD)),
        ensures
            ({
                let rom = self.rom@;
                let off = self.offset as int;
                let reg = rom_u32(rom, off + 1);
                let m = rom_u32(rom, off + 5);
                let or_mask = rom_u32(rom, off + 9);
                let cur = read_value(seg[0], 0xDEAD_DEAD);
                &&& seg.len() == 2
                &&& seg[0] is Read && seg[0]->Read_reg == reg as usize
                &&& seg[1] is Write && seg[1]->Write_reg == reg as usize
                &&& op == 0x47 ==> seg[1]->Write_val & m == 0 && seg[1]->Write_val & !m == cur & !m
                &&& op == 0x48 ==> seg[1]->Write_val & m == m && seg[1]->Write_val & !m == cur & !m
                &&& op == 0x6E ==> seg[1]->Write_val & or_mask == or_mask && seg[1]->Write_val & !or_mask
                    == cur & m & !or_mask
                &&& op == 0x97 ==> seg[1]->Write_val as int == ((cur & m) as int + rom_u8(rom, off + 9) as int)
                    % 0x1_0000_0000
            }),
    {
        let rom = self.rom@;
        let off = self.offset as int;
        let cur = read_value(seg[0], 0xDEAD_DEAD);
        let m = rom_u32(rom, off + 5);
        let b = if op == 0x97 {
            rom_u8(rom, off + 9) as u32
        } else {
            rom_u32(rom, off + 9)
        };
        lemma_rmw_opcode_values(op, cur, m, b);
    }

    /// Where each opcode leaves the script offset, `off` being where it
    /// stands and `b(k)` the byte `k` past it: DONE (0x71) goes to 0; RESUME
    /// and NOT one byte on; REPEAT and CONDITION two; END_REPEAT back to the
    /// loop start while repeats remain, else one on; JUMP to its 16-bit
    /// target, or 0 for a null or out-of-image one; STRAP_CONDITION, TIME and
    /// DELAY three; SUB_DIRECT five; ZM_REG16 seven; ZM_REG, ZM_MASK, OR and
    /// COPY nine; ZM_MASK_ADD eleven; NV_REG thirteen; a whole
    /// ZM_REG_SEQUENCE six plus four per word. The opcodes it only steps
    /// over: 0x63, 0x66..=0x68, 0x8C, 0x8D, 0x8E, 0x92, 0xAA one byte; 0x6B,
    /// 0x6F, 0x76, 0x39 two; 0x73, 0x53, 0x65 three; 0x52 four; 0x69, 0x3B,
    /// 0x3C, 0x62 five; 0x4D, 0x5E, 0x78 six; 0x4C, 0x51 seven; 0x98 eight;
    /// 0x90, 0x79, 0x4B, 0x4F, 0x9A nine; 0x37, 0x96 eleven; 0x59 thirteen;
    /// 0x5F twenty-two; 0x3A 3 + b(2); 0x34, 0x4A 10 + 4 b(9); 0x32
    /// 8 + 4 b(7); 0x49 8 + 2 b(7); 0x4E 5 + b(4); 0x50 4 + 2 b(3); 0x54, 0xA9
    /// 2 + 2 b(1); 0x99 6 + b(5); 0x87 5 + 4 g; 0x8F 6 + 4 g b(5), `g` being
    /// the RAM-restrict group count. Any other opcode but SUB (0x5B) moves
    /// one byte on.
    pub proof fn lemma_opcode_lengths(&self, op: u8, seg: Seq<BusEvent>, s1: Self)
        requires
            self.op_effect(op, seg, s1),
        ensures
            ({
                let rom = self.rom@;
                let off = self.offset as int;
                let o = s1.offset as int;
                let g = spec_ram_restrict_group_count(rom);
                &&& op == 0x71 ==> o == 0
                &&& (op == 0x72 || op == 0x38) ==> o == off + 1
                &&& (op == 0x33 || op == 0x75) ==> o == off + 2
                &&& op == 0x36 ==> o == (if self.repeat_count > 1 {
                    self.repeat_offset as int
                } else {
                    off + 1
                })
                &&& op == 0x5C ==> o == (if rom_u16(rom, off + 1) == 0 || rom_u16(rom, off + 1) >= rom.len() {
                    0
                } else {
                    rom_u16(rom, off + 1) as int
                })
                &&& (op == 0x6D || op == 0x74 || op == 0x57) ==> o == off + 3
                &&& op == 0x56 ==> o == off + 5
                &&& op == 0x77 ==> o == off + 7
                &&& (op == 0x7A || op == 0x47 || op == 0x48 || op == 0x5A) ==> o == off + 9
                &&& op == 0x97 ==> o == off + 11
                &&& op == 0x6E ==> o == off + 13
                &&& (op == 0x58 || op == 0x91) && off + 6 + 4 * rom_u8(rom, off + 5) <= rom.len() ==> o == off + 6
                    + 4 * rom_u8(rom, off + 5)
                &&& (op == 0x63 || op == 0x66 || op == 0x67 || op == 0x68 || op == 0x8C || op == 0x8D || op
                    == 0x8E || op == 0x92 || op == 0xAA) ==> o == off + 1
                &&& (op == 0x6B || op == 0x6F || op == 0x76 || op == 0x39) ==> o == off + 2
                &&& (op == 0x73 || op == 0x53 || op == 0x65) ==> o == off + 3
                &&& op == 0x52 ==> o == off + 4
                &&& (op == 0x69 || op == 0x3B || op == 0x3C || op == 0x62) ==> o == off + 5
                &&& (op == 0x4D || op == 0x5E || op == 0x78) ==> o == off + 6
                &&& (op == 0x4C || op == 0x51) ==> o == off + 7
                &&& op == 0x98 ==> o == off + 8
                &&& (op == 0x90 || op == 0x79 || op == 0x4B || op == 0x4F || op == 0x9A) ==> o == off + 9
                &&& (op == 0x37 || op == 0x96) ==> o == off + 11
                &&& op == 0x59 ==> o == off + 13
                &&& op == 0x5F ==> o == off + 22
                &&& op == 0x3A ==> o == off + 3 + rom_u8(rom, off + 2)
                &&& (op == 0x34 || op == 0x4A) ==> o == off + 10 + 4 * rom_u8(rom, off + 9)
                &&& op == 0x32 ==> o == off + 8 + 4 * rom_u8(rom, off + 7)
                &&& op == 0x49 ==> o == off + 8 + 2 * rom_u8(rom, off + 7)
                &&& op == 0x4E ==> o == off + 5 + rom_u8(rom, off + 4)
                &&& op == 0x50 ==> o == off + 4 + 2 * rom_u8(rom, off + 3)
                &&& (op == 0x54 || op == 0xA9) ==> o == off + 2 + 2 * rom_u8(rom, off + 1)
                &&& op == 0x99 ==> o == off + 6 + rom_u8(rom, off + 5)
                &&& op == 0x87 ==> o == off + 5 + 4 * g
                &&& op == 0x8F ==> o == off + 6 + 4 * g * rom_u8(rom, off + 5)
                &&& op != 0x5B && self.is_unknown_op(op) ==> o == off + 1
            }),
    {
        let rom = self.rom@;
        let off = self.offset as int;
        let g = spec_ram_restrict_group_count(rom);
        if op == 0x8F {
            let c = rom_u8(rom, off + 5) as int;
            assert(c * g * 4 == 4 * g * c) by (nonlinear_arith);
        }
    }

    /// Control flow: DONE, RESUME, NOT, REPEAT, END_REPEAT, JUMP.
    #[verifier::spinoff_prover]
    #[verifier::rlimit(40)]
    fn step_flow<B: RegisterBus>(&mut self, bar0: &mut Bar0<B>, op: u8, cond_table: usize)
        requires
            old(self).stats.ops_executed >= 1,
            old(self).within_budget(old(self).stats.ops_executed - 1),
            old(self).stats.ops_executed <= MAX_OPS,
            old(self).stats.unknown_opcodes@.len() <= 100,
            cond_table <= 0xFFFF,
            cond_table == spec_condition_table(old(self).rom@),
            op == rom_u8(old(self).rom@, old(self).offset as int),
            op == 0x71 || op == 0x72 || op == 0x38 || op == 0x33 || op == 0x36 || op == 0x5C,
        ensures
            final(self).advanced_from(&*old(self)),
            final(self).stats.ops_executed == old(self).stats.ops_executed,
            extends_in_window(old(bar0).events(), final(bar0).events()),
            old(self).op_effect(
                op,
                final(bar0).events().subrange(old(bar0).events().len() as int, final(bar0).events().len() as int),
                *final(self),
            ),
            final(self).stats.unknown_opcodes@ == old(self).stats.unknown_opcodes@,
    {
        let ghost e0 = bar0.events();
        let ghost k = self.stats.ops_executed as int;
        proof {
            lemma_extends_refl(e0);
            assert(self.stats.writes_applied + self.stats.writes_skipped_pri <= 256 * (k - 1));
            assert(self.stats.pri_faults <= 256 * (k - 1));
            assert(self.stats.delays_total_us <= (k - 1) * 0x100_0000);
            assert(self.offset + max_step() * (MAX_OPS - k + 1) <= usize::MAX - 64);
        }
        let off = self.offset;
        match op {
            0x71 => {
                self.offset = 0;
            },
            0x72 => {
                self.execute = true;
                self.offset = off + 1;
            },
            0x38 => {
                self.execute = !self.execute;
                self.offset = off + 1;
            },
            0x33 => {
                self.repeat_count = rd08(self.rom, off + 1);
                self.repeat_offset = off + 2;
                self.offset = off + 2;
            },
            0x36 => {
                if self.repeat_count > 1 {
                    self.repeat_count = self.repeat_count - 1;
                    self.offset = self.repeat_offset;
                } else {
                    self.repeat_count = 0;
                    self.offset = off + 1;
                }
            },
            0x5C => {
                let target = rd16(self.rom, off + 1) as usize;
                if target == 0 || target >= self.rom.len() {
                    self.offset = 0;
                } else {
                    self.offset = target;
                }
            },
            _ => {},
        }
    }

    /// Conditions: CONDITION, STRAP_CONDITION, CONDITION_TIME.
    #[verifier::spinoff_prover]
    #[verifier::rlimit(60)]
    fn step_condition<B: RegisterBus>(&mut self, bar0: &mut Bar0<B>, op: u8, cond_table: usize)
        requires
            old(self).stats.ops_executed >= 1,
            old(self).within_budget(old(self).stats.ops_executed - 1),
            old(self).stats.ops_executed <= MAX_OPS,
            old(self).stats.unknown_opcodes@.len() <= 100,
            cond_table <= 0xFFFF,
            cond_table == spec_condition_table(old(self).rom@),
            op == rom_u8(old(self).rom@, old(self).offset as int),
            op == 0x75 || op == 0x6D || op == 0x56,
        ensures
            final(self).advanced_from(&*old(self)),
            final(self).stats.ops_executed == old(self).stats.ops_executed,
            extends_in_window(old(bar0).events(), final(bar0).events()),
            old(self).op_effect(
                op,
                final(bar0).events().subrange(old(bar0).events().len() as int, final(bar0).events().len() as int),
                *final(self),
            ),
            final(self).stats.unknown_opcodes@ == old(self).stats.unknown_opcodes@,
    {
        let ghost e0 = bar0.events();
        let ghost k = self.stats.ops_executed as int;
        proof {
            lemma_extends_refl(e0);
            assert(self.stats.writes_applied + self.stats.writes_skipped_pri <= 256 * (k - 1));
            assert(self.stats.pri_faults <= 256 * (k - 1));
            assert(self.stats.delays_total_us <= (k - 1) * 0x100_0000);
            assert(self.offset + max_step() * (MAX_OPS - k + 1) <= usize::MAX - 64);
        }
        let off = self.offset;
        match op {
            0x75 => {
                let cond = rd08(self.rom, off + 1);
                self.stats.conditions_evaluated = self.stats.conditions_evaluated + 1;
                if cond_table != 0 {
                    let met = self.condition_met(bar0, cond_table, cond);
                    proof {
                        let seg = bar0.events().subrange(e0.len() as int, bar0.events().len() as int);
                        if bar0.events().len() > e0.len() {
                            assert(seg[0] == bar0.events()[e0.len() as int]);
                        }
                    }
                    if !met {
                        self.execute = false;
                    }
                }
                self.offset = off + 2;
            },
            0x6D => {
                let mask = rd08(self.rom, off + 1);
                let value = rd08(self.rom, off + 2);
                self.stats.conditions_evaluated = self.stats.conditions_evaluated + 1;
                let strap = self.bar0_rd32(bar0, 0x101000);
                proof {
                    let seg = bar0.events().subrange(e0.len() as int, bar0.events().len() as int);
                    assert(seg[0] == bar0.events()[e0.len() as int]);
                }
                if ((strap & 0xFF) as u8 & mask) != value {
                    self.execute = false;
                }
                self.offset = off + 3;
            },
            0x56 => {
                let cond = rd08(self.rom, off + 1);
                let retries = rd08(self.rom, off + 2) as u32;
                let delay = rd16(self.rom, off + 3) as u64;
                self.stats.conditions_evaluated = self.stats.conditions_evaluated + 1;
                if cond_table != 0 {
                    let tries: u32 = if retries > 1 {
                        retries
                    } else {
                        1
                    };
                    let mut met = false;
                    let mut t: u32 = 0;
                    let ghost f0 = self.stats.pri_faults;
                    let ghost d0 = self.stats.delays_total_us;
                    while t < tries && !met
                        invariant
                            self.within_budget(k),
                            self.rom == old(self).rom,
                            self.offset == off,
                            self.execute == old(self).execute,
                            self.repeat_count == old(self).repeat_count,
                            self.repeat_offset == old(self).repeat_offset,
                            self.stats.ops_executed == k,
                            self.nested == old(self).nested,
                            self.stats.unknown_opcodes@ == old(self).stats.unknown_opcodes@,
                            self.stats.conditions_evaluated == old(self).stats.conditions_evaluated + 1,
                            self.stats.ops_skipped == old(self).stats.ops_skipped,
                            self.stats.writes_applied == old(self).stats.writes_applied,
                            self.stats.writes_skipped_pri == old(self).stats.writes_skipped_pri,
                            f0 <= 256 * (k - 1),
                            d0 <= (k - 1) * 0x100_0000,
                            tries <= 255,
                            t <= tries,
                            self.stats.pri_faults <= f0 + t,
                            self.stats.delays_total_us <= d0 + t * 65535,
                            delay <= 65535,
                            cond_table <= 0xFFFF,
                            extends_in_window(e0, bar0.events()),
                        decreases tries - t,
                    {
                        let ghost e1 = bar0.events();
                        let c = self.condition_met(bar0, cond_table, cond);
                        proof {
                            lemma_extends_trans(e0, e1, bar0.events());
                        }
                        if c {
                            met = true;
                        } else {
                            let ghost e2 = bar0.events();
                            bar0.delay(delay);
                            proof {
                                lemma_extends_push(e0, e2, BusEvent::Delay { us: delay });
                            }
                            self.stats.delays_total_us = self.stats.delays_total_us + delay;
                        }
                        t = t + 1;
                    }
                    if !met {
                        self.execute = false;
                    }
                }
                self.offset = off + 5;
            },
            _ => {},
        }
    }

    /// Waits: TIME and DELAY.
    #[verifier::spinoff_prover]
    #[verifier::rlimit(40)]
    fn step_delay<B: RegisterBus>(&mut self, bar0: &mut Bar0<B>, op: u8, cond_table: usize)
        requires
            old(self).stats.ops_executed >= 1,
            old(self).within_budget(old(self).stats.ops_executed - 1),
            old(self).stats.ops_executed <= MAX_OPS,
            old(self).stats.unknown_opcodes@.len() <= 100,
            cond_table <= 0xFFFF,
            cond_table == spec_condition_table(old(self).rom@),
            op == rom_u8(old(self).rom@, old(self).offset as int),
            op == 0x74 || op == 0x57,
        ensures
            final(self).advanced_from(&*old(self)),
            final(self).stats.ops_executed == old(self).stats.ops_executed,
            extends_in_window(old(bar0).events(), final(bar0).events()),
            old(self).op_effect(
                op,
                final(bar0).events().subrange(old(bar0).events().len() as int, final(bar0).events().len() as int),
                *final(self),
            ),
            final(self).stats.unknown_opcodes@ == old(self).stats.unknown_opcodes@,
    {
        let ghost e0 = bar0.events();
        let ghost k = self.stats.ops_executed as int;
        proof {
            lemma_extends_refl(e0);
            assert(self.stats.writes_applied + self.stats.writes_skipped_pri <= 256 * (k - 1));
            assert(self.stats.pri_faults <= 256 * (k - 1));
            assert(self.stats.delays_total_us <= (k - 1) * 0x100_0000);
            assert(self.offset + max_step() * (MAX_OPS - k + 1) <= usize::MAX - 64);
        }
        let off = self.offset;
        match op {
            0x74 => {
                let usec = rd16(self.rom, off + 1) as u64;
                if self.execute && usec > 0 {
                    if usec <= 20_000 {
                        bar0.delay(usec);
                    } else {
                        bar0.delay((usec / 1000) * 1000);
                    }
                    proof {
                        lemma_extends_push(e0, e0, bar0.events().last());
                        assert(bar0.events() =~= e0.push(bar0.events().last()));
                    }
                    self.stats.delays_total_us = self.stats.delays_total_us + usec;
                }
                self.offset = off + 3;
            },
            0x57 => {
                let usec = rd16(self.rom, off + 1) as u64;
                if self.execute && usec > 0 {
                    bar0.delay(usec);
                    proof {
                        lemma_extends_push(e0, e0, BusEvent::Delay { us: usec });
                    }
                    self.stats.delays_total_us = self.stats.delays_total_us + usec;
                }
                self.offset = off + 3;
            },
            _ => {},
        }
        proof {
            let us = rom_u16(old(self).rom@, off + 1) as u64;
            let waited = if op == 0x74 && us > 20_000 {
                ((us / 1000) * 1000) as u64
            } else {
                us
            };
            let x = if old(self).execute && us > 0 {
                seq![BusEvent::Delay { us: waited }]
            } else {
                Seq::empty()
            };
            assert(bar0.events() =~= e0 + x);
            lemma_segment_eq(e0, bar0.events(), x);
        }
    }

    /// Single-register writes and read-modify-writes.
    #[verifier::spinoff_prover]
    #[verifier::rlimit(80)]
    fn step_write<B: RegisterBus>(&mut self, bar0: &mut Bar0<B>, op: u8, cond_table: usize)
        requires
            old(self).stats.ops_executed >= 1,
            old(self).within_budget(old(self).stats.ops_executed - 1),
            old(self).stats.ops_executed <= MAX_OPS,
            old(self).stats.unknown_opcodes@.len() <= 100,
            cond_table <= 0xFFFF,
            cond_table == spec_condition_table(old(self).rom@),
            op == rom_u8(old(self).rom@, old(self).offset as int),
            op == 0x7A || op == 0x77 || op == 0x6E || op == 0x47 || op == 0x48 || op == 0x97 || op == 0x5A,
        ensures
            final(self).advanced_from(&*old(self)),
            final(self).stats.ops_executed == old(self).stats.ops_executed,
            extends_in_window(old(bar0).events(), final(bar0).events()),
            old(self).op_effect(
                op,
                final(bar0).events().subrange(old(bar0).events().len() as int, final(bar0).events().len() as int),
                *final(self),
            ),
            final(self).stats.unknown_opcodes@ == old(self).stats.unknown_opcodes@,
    {
        let ghost e0 = bar0.events();
        let ghost k = self.stats.ops_executed as int;
        proof {
            lemma_extends_refl(e0);
            assert(self.stats.writes_applied + self.stats.writes_skipped_pri <= 256 * (k - 1));
            assert(self.stats.pri_faults <= 256 * (k - 1));
            assert(self.stats.delays_total_us <= (k - 1) * 0x100_0000);
            assert(self.offset + max_step() * (MAX_OPS - k + 1) <= usize::MAX - 64);
        }
        let off = self.offset;
        match op {
            0x7A => {
                let reg = rd32(self.rom, off + 1);
                let val = rd32(self.rom, off + 5);
                if reg < 0x0100_0000 {
                    self.bar0_wr32(bar0, reg, val);
                }
                proof {
                    assert(bar0.events() =~= e0 + old(self).spec_single_write(op));
                    lemma_segment_eq(e0, bar0.events(), old(self).spec_single_write(op));
                }
                self.offset = off + 9;
            },
            0x6E => {
                let reg = rd32(self.rom, off + 1);
                let mask = rd32(self.rom, off + 5);
                let val = rd32(self.rom, off + 9);
                if reg < 0x0100_0000 {
                    let cur = self.bar0_mask(bar0, reg, mask, val);
                    proof {
                        let seg = bar0.events().subrange(e0.len() as int, bar0.events().len() as int);
                        if reg % 4 == 0 {
                            let rd = bar0.events()[e0.len() as int];
                            assert(seg[0] == rd);
                            if !spec_is_pri_error(cur) {
                                lemma_segment_eq(
                                    e0,
                                    bar0.events(),
                                    seq![rd] + old(self).write_events_after_clean_read(reg as int, (cur & mask) | val),
                                );
                            }
                        }
                    }
                }
                self.offset = off + 13;
            },
            0x77 => {
                let reg = rd32(self.rom, off + 1);
                let val = rd16(self.rom, off + 5) as u32;
                if reg < 0x0100_0000 {
                    self.bar0_wr32(bar0, reg, val);
                }
                proof {
                    assert(bar0.events() =~= e0 + old(self).spec_single_write(op));
                    lemma_segment_eq(e0, bar0.events(), old(self).spec_single_write(op));
                }
                self.offset = off + 7;
            },
            0x47 => {
                let reg = rd32(self.rom, off + 1);
                let mask = rd32(self.rom, off + 5);
                if reg < 0x0100_0000 {
                    let cur = self.bar0_mask(bar0, reg, !mask, 0);
                    proof {
                        let seg = bar0.events().subrange(e0.len() as int, bar0.events().len() as int);
                        if reg % 4 == 0 {
                            let rd = bar0.events()[e0.len() as int];
                            assert(seg[0] == rd);
                            if !spec_is_pri_error(cur) {
                                lemma_segment_eq(
                                    e0,
                                    bar0.events(),
                                    seq![rd] + old(self).write_events_after_clean_read(reg as int, (cur & !mask) | 0),
                                );
                            }
                        }
                    }
                }
                self.offset = off + 9;
            },
            0x48 => {
                let reg = rd32(self.rom, off + 1);
                let val = rd32(self.rom, off + 5);
                if reg < 0x0100_0000 {
                    let cur = self.bar0_mask(bar0, reg, 0xFFFF_FFFF, val);
                    proof {
                        let seg = bar0.events().subrange(e0.len() as int, bar0.events().len() as int);
                        if reg % 4 == 0 {
                            let rd = bar0.events()[e0.len() as int];
                            assert(seg[0] == rd);
                            if !spec_is_pri_error(cur) {
                                lemma_segment_eq(
                                    e0,
                                    bar0.events(),
                                    seq![rd] + old(self).write_events_after_clean_read(reg as int, (cur & 0xFFFF_FFFF) | val),
                                );
                            }
                        }
                    }
                }
                self.offset = off + 9;
            },
            0x97 => {
                let reg = rd32(self.rom, off + 1);
                let mask = rd32(self.rom, off + 5);
                let add = rd08(self.rom, off + 9) as u32;
                if reg < 0x0100_0000 {
                    let cur = self.bar0_rd32(bar0, reg);
                    let ghost e1 = bar0.events();
                    self.bar0_wr32(bar0, reg, (cur & mask).wrapping_add(add));
                    proof {
                        lemma_extends_trans(e0, e1, bar0.events());
                        if reg % 4 == 0 {
                            let seg = bar0.events().subrange(e0.len() as int, bar0.events().len() as int);
                            let rd = e1[e0.len() as int];
                            assert(bar0.events()[e0.len() as int] == rd);
                            assert(seg[0] == rd);
                            if !spec_is_pri_error(cur) {
                                let x = old(self).write_events_after_clean_read(
                                    reg as int,
                                    (cur & mask).wrapping_add(add),
                                );
                                assert(bar0.events() =~= e1 + x);
                                lemma_segment_eq(e0, bar0.events(), seq![rd] + x);
                            }
                        }
                    }
                }
                self.offset = off + 11;
            },
            0x5A => {
                let reg = rd32(self.rom, off + 1);
                let src = rd32(self.rom, off + 5);
                if reg < 0x0100_0000 && src < 0x0100_0000 {
                    let val = self.bar0_rd32(bar0, src);
                    let ghost e1 = bar0.events();
                    self.bar0_wr32(bar0, reg, val);
                    proof {
                        lemma_extends_trans(e0, e1, bar0.events());
                        let seg = bar0.events().subrange(e0.len() as int, bar0.events().len() as int);
                        if src % 4 != 0 {
                            assert(bar0.events() =~= e0 + old(self).write_events(reg as int, 0xDEAD_DEAD));
                            lemma_segment_eq(e0, bar0.events(), old(self).write_events(reg as int, 0xDEAD_DEAD));
                        } else {
                            let rd = e1[e0.len() as int];
                            assert(bar0.events()[e0.len() as int] == rd);
                            assert(seg[0] == rd);
                            if !spec_is_pri_error(val) {
                                let x = old(self).write_events_after_clean_read(reg as int, val);
                                assert(bar0.events() =~= e1 + x);
                                lemma_segment_eq(e0, bar0.events(), seq![rd] + x);
                            }
                        }
                    }
                }
                self.offset = off + 9;
            },
            _ => {},
        }
    }

    /// ZM_REG_SEQUENCE: consecutive registers from a list of words.
    #[verifier::spinoff_prover]
    #[verifier::rlimit(60)]
    fn step_sequence<B: RegisterBus>(&mut self, bar0: &mut Bar0<B>, op: u8, cond_table: usize)
        requires
            old(self).stats.ops_executed >= 1,
            old(self).within_budget(old(self).stats.ops_executed - 1),
            old(self).stats.ops_executed <= MAX_OPS,
            old(self).stats.unknown_opcodes@.len() <= 100,
            cond_table <= 0xFFFF,
            cond_table == spec_condition_table(old(self).rom@),
            op == rom_u8(old(self).rom@, old(self).offset as int),
            op == 0x58 || op == 0x91,
        ensures
            final(self).advanced_from(&*old(self)),
            final(self).stats.ops_executed == old(self).stats.ops_executed,
            extends_in_window(old(bar0).events(), final(bar0).events()),
            old(self).op_effect(
                op,
                final(bar0).events().subrange(old(bar0).events().len() as int, final(bar0).events().len() as int),
                *final(self),
            ),
            final(self).stats.unknown_opcodes@ == old(self).stats.unknown_opcodes@,
    {
        let ghost e0 = bar0.events();
        let ghost k = self.stats.ops_executed as int;
        proof {
            lemma_extends_refl(e0);
            assert(self.stats.writes_applied + self.stats.writes_skipped_pri <= 256 * (k - 1));
            assert(self.stats.pri_faults <= 256 * (k - 1));
            assert(self.stats.delays_total_us <= (k - 1) * 0x100_0000);
            assert(self.offset + max_step() * (MAX_OPS - k + 1) <= usize::MAX - 64);
        }
        let off = self.offset;
        match op {
            0x58 | 0x91 => {
                let base = rd32(self.rom, off + 1);
                let count = rd08(self.rom, off + 5) as usize;
                self.offset = off + 6;
                let ghost w0 = self.stats.writes_applied + self.stats.writes_skipped_pri;
                let ghost s0 = *old(self);
                let mut i: usize = 0;
                while i < count
                    invariant
                        s0 == *old(self),
                        self.execute == s0.execute,
                        self.pri_domain_faults@ == s0.pri_domain_faults@,
                        self.pri_consecutive_faults == s0.pri_consecutive_faults,
                        self.pri_fault_threshold == s0.pri_fault_threshold,
                        self.repeat_count == s0.repeat_count,
                        self.repeat_offset == s0.repeat_offset,
                        off == s0.offset,
                        base == rom_u32(s0.rom@, off + 1),
                        count == rom_u8(s0.rom@, off + 5),
                        i <= s0.seq_words(off as int, count as int),
                        bar0.events() == e0 + s0.seq_write_events(off as int, base as int, i as nat),
                        self.within_budget(k),
                        self.rom == old(self).rom,
                        self.stats.ops_executed == k,
                        self.nested == old(self).nested,
                        self.stats.unknown_opcodes@ == old(self).stats.unknown_opcodes@,
                        self.stats.pri_faults <= 256 * (k - 1),
                        w0 <= 256 * (k - 1),
                        count <= 255,
                        i <= count,
                        self.stats.writes_applied + self.stats.writes_skipped_pri <= w0 + i,
                        self.offset == off + 6 + 4 * i,
                        off + max_step() * (MAX_OPS - k + 1) <= usize::MAX - 64,
                        extends_in_window(e0, bar0.events()),
                    ensures
                        i == s0.seq_words(off as int, count as int),
                        self.offset == off + 6 + 4 * i,
                        bar0.events() == e0 + s0.seq_write_events(off as int, base as int, i as nat),
                        self.execute == s0.execute,
                        self.repeat_count == s0.repeat_count,
                        self.repeat_offset == s0.repeat_offset,
                        self.within_budget(k),
                        self.rom == old(self).rom,
                        self.stats.ops_executed == k,
                        self.nested == old(self).nested,
                        self.stats.unknown_opcodes@ == old(self).stats.unknown_opcodes@,
                        extends_in_window(e0, bar0.events()),
                    decreases count - i,
                {
                    if self.offset > self.rom.len() || self.rom.len() - self.offset < 4 {
                        break ;
                    }
                    let val = rd32(self.rom, self.offset);
                    let reg64 = base as u64 + (i as u64) * 4;
                    let ghost e1 = bar0.events();
                    if reg64 < 0x0100_0000 {
                        self.bar0_wr32(bar0, reg64 as u32, val);
                        proof {
                            lemma_extends_trans(e0, e1, bar0.events());
                            assert(bar0.events() =~= e1 + s0.write_events(base + 4 * i, val));
                        }
                    }
                    proof {
                        assert(s0.seq_write_events(off as int, base as int, (i + 1) as nat) == if base + 4 * i
                            < 0x0100_0000 {
                            s0.seq_write_events(off as int, base as int, i as nat) + s0.write_events(
                                base + 4 * i,
                                rom_u32(s0.rom@, off + 6 + 4 * i),
                            )
                        } else {
                            s0.seq_write_events(off as int, base as int, i as nat)
                        });
                        assert(bar0.events() =~= e0 + s0.seq_write_events(off as int, base as int, (i + 1) as nat));
                    }
                    self.offset = self.offset + 4;
                    i = i + 1;
                }
                proof {
                    lemma_segment_eq(e0, bar0.events(), s0.seq_write_events(off as int, base as int, i as nat));
                }
            },
            _ => {},
        }
    }

    /// The opcodes that are only skipped, and unknown opcodes.
    #[verifier::spinoff_prover]
    #[verifier::rlimit(40)]
    fn step_skip<B: RegisterBus>(&mut self, bar0: &mut Bar0<B>, op: u8) -> (r: Result<(), DevinitError>)
        requires
            old(self).stats.ops_executed >= 1,
            old(self).within_budget(old(self).stats.ops_executed - 1),
            old(self).stats.ops_executed <= MAX_OPS,
            old(self).stats.unknown_opcodes@.len() <= 100,
            op == rom_u8(old(self).rom@, old(self).offset as int),
            op != 0x71 && op != 0x72 && op != 0x38 && op != 0x33 && op != 0x36 && op != 0x5C && op != 0x5B,
            op != 0x75 && op != 0x6D && op != 0x56 && op != 0x74 && op != 0x57 && op != 0x7A && op != 0x6E,
            op != 0x58 && op != 0x91 && op != 0x77 && op != 0x47 && op != 0x48 && op != 0x97 && op != 0x5A,
        ensures
            final(self).advanced_from(&*old(self)),
            final(self).stats.ops_executed == old(self).stats.ops_executed,
            extends_in_window(old(bar0).events(), final(bar0).events()),
            r is Err <==> final(self).stats.unknown_opcodes@.len() > 100,
            r matches Err(e) ==> final(self).stats.unknown_opcodes@.len() > 0 && e == (DevinitError::TooManyUnknownOpcodes {
                offset: final(self).stats.unknown_opcodes@.last().0,
                op: final(self).stats.unknown_opcodes@.last().1,
            }),
            old(self).op_effect(
                op,
                final(bar0).events().subrange(old(bar0).events().len() as int, final(bar0).events().len() as int),
                *final(self),
            ),
    {
        let ghost e0 = bar0.events();
        let ghost k = self.stats.ops_executed as int;
        proof {
            lemma_extends_refl(e0);
            assert(self.stats.writes_applied + self.stats.writes_skipped_pri <= 256 * (k - 1));
            assert(self.stats.pri_faults <= 256 * (k - 1));
            assert(self.stats.delays_total_us <= (k - 1) * 0x100_0000);
            assert(self.offset + max_step() * (MAX_OPS - k + 1) <= usize::MAX - 64);
        }
        let off = self.offset;
        match fixed_effect(self.rom, off, op) {
            Some((len, kind)) => {
                match kind {
                    SkipKind::Plain => {},
                    SkipKind::Skipped => {
                        self.stats.ops_skipped = self.stats.ops_skipped + 1;
                    },
                    SkipKind::Condition => {
                        self.stats.conditions_evaluated = self.stats.conditions_evaluated
                            + 1;
                    },
                }
                self.offset = off + len;
            },
            None => {
                self.stats.unknown_opcodes.push((off, op));
                self.stats.ops_skipped = self.stats.ops_skipped + 1;
                self.offset = off + 1;
                if self.stats.unknown_opcodes.len() > 100 {
                    return Err(DevinitError::TooManyUnknownOpcodes { offset: off, op });
                }
            },
        }
        Ok(())
    }

    /// Execute one opcode other than SUB_DIRECT, already counted in
    /// `ops_executed`; `op` is the byte at the current offset.
    fn step<B: RegisterBus>(&mut self, bar0: &mut Bar0<B>, op: u8, cond_table: usize) -> (r: Result<(), DevinitError>)
        requires
            old(self).stats.ops_executed >= 1,
            old(self).within_budget(old(self).stats.ops_executed - 1),
            old(self).stats.ops_executed <= MAX_OPS,
            old(self).stats.unknown_opcodes@.len() <= 100,
            cond_table <= 0xFFFF,
            cond_table == spec_condition_table(old(self).rom@),
            op != 0x5B,
            op == rom_u8(old(self).rom@, old(self).offset as int),
        ensures
            final(self).advanced_from(&*old(self)),
            final(self).stats.ops_executed == old(self).stats.ops_executed,
            extends_in_window(old(bar0).events(), final(bar0).events()),
            r is Err <==> final(self).stats.unknown_opcodes@.len() > 100,
            r matches Err(e) ==> final(self).stats.unknown_opcodes@.len() > 0 && e == (DevinitError::TooManyUnknownOpcodes {
                offset: final(self).stats.unknown_opcodes@.last().0,
                op: final(self).stats.unknown_opcodes@.last().1,
            }),
            old(self).op_effect(
                op,
                final(bar0).events().subrange(old(bar0).events().len() as int, final(bar0).events().len() as int),
                *final(self),
            ),
    {
        if op == 0x71 || op == 0x72 || op == 0x38 || op == 0x33 || op == 0x36 || op == 0x5C {
            self.step_flow(bar0, op, cond_table);
        } else if op == 0x75 || op == 0x6D || op == 0x56 {
            self.step_condition(bar0, op, cond_table);
        } else if op == 0x74 || op == 0x57 {
            self.step_delay(bar0, op, cond_table);
        } else if op == 0x7A || op == 0x77 || op == 0x6E || op == 0x47 || op == 0x48 || op == 0x97 || op == 0x5A {
            self.step_write(bar0, op, cond_table);
        } else if op == 0x58 || op == 0x91 {
            self.step_sequence(bar0, op, cond_table);
        } else {
            return self.step_skip(bar0, op);
        }
        Ok(())
    }

    /// Execute the opcode at the current offset and count it. SUB_DIRECT
    /// runs the sub-script at its address and resumes after the call.
    #[verifier::spinoff_prover]
    #[verifier::rlimit(40)]
    fn exec_op<B: RegisterBus>(&mut self, bar0: &mut Bar0<B>, cond_table: usize) -> (r: Result<(), DevinitError>)
        requires
            old(self).wf(),
            old(self).stats.ops_executed < MAX_OPS,
            1 <= old(self).nested <= old(self).stats.ops_executed + 1,
            old(self).stats.unknown_opcodes@.len() <= 100,
            cond_table <= 0xFFFF,
            cond_table == spec_condition_table(old(self).rom@),
        ensures
            final(self).rom == old(self).rom,
            final(self).wf(),
            final(self).stats.ops_executed > old(self).stats.ops_executed,
            final(self).stats.unknown_opcodes@.len() >= old(self).stats.unknown_opcodes@.len(),
            r is Ok ==> final(self).nested == old(self).nested,
            extends_in_window(old(bar0).events(), final(bar0).events()),
            r is Err <==> final(self).stats.unknown_opcodes@.len() > 100,
            r matches Err(e) ==> final(self).stats.unknown_opcodes@.len() > 0 && e == (DevinitError::TooManyUnknownOpcodes {
                offset: final(self).stats.unknown_opcodes@.last().0,
                op: final(self).stats.unknown_opcodes@.last().1,
            }),
            old(self).op_effect(
                rom_u8(old(self).rom@, old(self).offset as int),
                final(bar0).events().subrange(old(bar0).events().len() as int, final(bar0).events().len() as int),
                *final(self),
            ),
            rom_u8(old(self).rom@, old(self).offset as int) != 0x5B ==> final(self).stats.ops_executed == old(
                self,
            ).stats.ops_executed + 1,
        decreases MAX_OPS - old(self).stats.ops_executed, 0nat,
    {
        let ghost pre = *self;
        let op = rd08(self.rom, self.offset);
        self.stats.ops_executed = self.stats.ops_executed + 1;
        if op == 0x5B {
            let ghost e0 = bar0.events();
            proof {
                lemma_extends_refl(e0);
            }
            let sub_addr = rd16(self.rom, self.offset + 1) as usize;
            self.offset = self.offset + 3;
            if sub_addr != 0 && sub_addr < self.rom.len() {
                let saved = self.offset;
                self.offset = sub_addr;
                let res = self.run(bar0);
                match res {
                    Ok(()) => {},
                    Err(e) => {
                        return Err(e);
                    },
                }
                self.offset = saved;
            }
            Ok(())
        } else {
            let ghost mid = *self;
            let r = self.step(bar0, op, cond_table);
            proof {
                let g = bar0.events().subrange(old(bar0).events().len() as int, bar0.events().len() as int);
                Self::lemma_op_effect_ignores_count(mid, pre, op, g, *self);
            }
            r
        }
    }

    /// What an opcode does does not depend on how many opcodes ran before.
    proof fn lemma_op_effect_ignores_count(a: Self, b: Self, op: u8, g: Seq<BusEvent>, s1: Self)
        requires
            a.op_effect(op, g, s1),
            a.rom == b.rom,
            a.offset == b.offset,
            a.execute == b.execute,
            a.repeat_count == b.repeat_count,
            a.repeat_offset == b.repeat_offset,
            a.stats.unknown_opcodes == b.stats.unknown_opcodes,
            a.pri_consecutive_faults == b.pri_consecutive_faults,
            a.pri_fault_threshold == b.pri_fault_threshold,
            a.pri_domain_faults == b.pri_domain_faults,
        ensures
            b.op_effect(op, g, s1),
    {
    }

    /// The state `a` is `b` but for the nesting depth.
    pub open spec fn same_but_nesting(a: Self, b: Self) -> bool {
        &&& a.rom == b.rom
        &&& a.offset == b.offset
        &&& a.execute == b.execute
        &&& a.repeat_count == b.repeat_count
        &&& a.repeat_offset == b.repeat_offset
        &&& a.stats == b.stats
        &&& a.pri_consecutive_faults == b.pri_consecutive_faults
        &&& a.pri_fault_threshold == b.pri_fault_threshold
        &&& a.pri_domain_faults == b.pri_domain_faults
    }

    /// One executed opcode: from `s0`, at a nonzero offset with budget
    /// left, the opcode there made the accesses `g` and left `s1`, as
    /// [`Self::op_effect`] says; it counts as one executed opcode (a
    /// SUB_DIRECT also counts those of its sub-script).
    pub open spec fn chain_link(s0: Self, g: Seq<BusEvent>, s1: Self) -> bool {
        let op = rom_u8(s0.rom@, s0.offset as int);
        &&& s0.offset != 0
        &&& s0.stats.ops_executed < MAX_OPS
        &&& s0.op_effect(op, g, s1)
        &&& if op == 0x5B {
            s1.stats.ops_executed > s0.stats.ops_executed
        } else {
            s1.stats.ops_executed == s0.stats.ops_executed + 1
        }
    }

    /// The opcodes a run executed one after another: `ss[i]` is the state
    /// before the `i`-th opcode, `gs[i]` the accesses it made.
    pub open spec fn executed_chain(ss: Seq<Self>, gs: Seq<Seq<BusEvent>>) -> bool {
        &&& ss.len() == gs.len() + 1
        &&& forall|i: int| 0 <= i < gs.len() ==> #[trigger] Self::chain_link(ss[i], gs[i], ss[i + 1])
    }

    proof fn lemma_chain_push(ss: Seq<Self>, gs: Seq<Seq<BusEvent>>, g: Seq<BusEvent>, s: Self)
        requires
            Self::executed_chain(ss, gs),
            Self::chain_link(ss.last(), g, s),
        ensures
            Self::executed_chain(ss.push(s), gs.push(g)),
            ss.push(s)[0] == ss[0],
    {
        assert forall|i: int| 0 <= i < gs.push(g).len() implies #[trigger] Self::chain_link(
            ss.push(s)[i],
            gs.push(g)[i],
            ss.push(s)[i + 1],
        ) by {
            if i < gs.len() {
                assert(ss.push(s)[i] == ss[i]);
                assert(ss.push(s)[i + 1] == ss[i + 1]);
                assert(gs.push(g)[i] == gs[i]);
                assert(Self::chain_link(ss[i], gs[i], ss[i + 1]));
            } else {
                assert(ss.push(s)[i] == ss.last());
            }
        }
    }

    /// Run the script at the current offset until DONE, a null jump, the
    /// end of the offset chain, or `MAX_OPS` executed opcodes (counted over
    /// nested sub-scripts).
    ///
    /// Fails exactly when more than 100 unknown opcodes have been met. Every
    /// BAR0 write it issues is 4-byte aligned and inside the 16 MiB window.
    /// The accesses it makes are those of the opcodes it executed one after
    /// another, each as [`Self::op_effect`] states (see
    /// [`Self::executed_chain`]); a SUB_DIRECT's sub-script is described by
    /// the contract of its own run.
    pub fn run<B: RegisterBus>(&mut self, bar0: &mut Bar0<B>) -> (r: Result<(), DevinitError>)
        requires
            old(self).wf(),
            old(self).nested <= old(self).stats.ops_executed,
            old(self).stats.unknown_opcodes@.len() <= 100,
        ensures
            final(self).rom == old(self).rom,
            final(self).wf(),
            final(self).stats.ops_executed >= old(self).stats.ops_executed,
            final(self).stats.unknown_opcodes@.len() >= old(self).stats.unknown_opcodes@.len(),
            r is Ok ==> final(self).nested == old(self).nested,
            r is Ok ==> final(self).offset == 0 || final(self).stats.ops_executed == MAX_OPS,
            extends_in_window(old(bar0).events(), final(bar0).events()),
            old(self).offset != 0 && old(self).stats.ops_executed < MAX_OPS ==> final(self).stats.ops_executed
                > old(self).stats.ops_executed,
            r is Err <==> final(self).stats.unknown_opcodes@.len() > 100,
            r matches Err(e) ==> final(self).stats.unknown_opcodes@.len() > 0 && e == (DevinitError::TooManyUnknownOpcodes {
                offset: final(self).stats.unknown_opcodes@.last().0,
                op: final(self).stats.unknown_opcodes@.last().1,
            }),
            exists|ss: Seq<Self>, gs: Seq<Seq<BusEvent>>|
                {
                    &&& #[trigger] Self::executed_chain(ss, gs)
                    &&& Self::same_but_nesting(ss[0], *old(self))
                    &&& Self::same_but_nesting(ss.last(), *final(self))
                    &&& final(bar0).events() == old(bar0).events() + gs.flatten()
                },
        decreases MAX_OPS - old(self).stats.ops_executed, 1nat,
    {
        let ghost e0 = bar0.events();
        proof {
            lemma_extends_refl(e0);
        }
        let cond_table = find_condition_table(self.rom);
        self.nested = self.nested + 1;
        let ghost n1 = self.nested;
        let ghost ops0 = self.stats.ops_executed;
        let ghost rom0 = self.rom;
        let ghost mut ss: Seq<Self> = seq![*self];
        let ghost mut gs: Seq<Seq<BusEvent>> = Seq::empty();
        proof {
            assert(gs.flatten() =~= Seq::<BusEvent>::empty());
            assert(e0 =~= e0 + gs.flatten());
        }
        while self.offset != 0 && self.stats.ops_executed < MAX_OPS
            invariant
                Self::executed_chain(ss, gs),
                ss.last() == *self,
                Self::same_but_nesting(ss[0], *old(self)),
                bar0.events() == e0 + gs.flatten(),
                self.stats.ops_executed == ops0 ==> self.offset == old(self).offset,
                self.wf(),
                self.rom == rom0,
                self.nested == n1,
                1 <= n1 <= ops0 + 1,
                ops0 == old(self).stats.ops_executed,
                rom0 == old(self).rom,
                n1 == old(self).nested + 1,
                e0 == old(bar0).events(),
                self.stats.unknown_opcodes@.len() >= old(self).stats.unknown_opcodes@.len(),
                self.stats.ops_executed >= ops0,
                self.stats.unknown_opcodes@.len() <= 100,
                cond_table <= 0xFFFF,
                cond_table == spec_condition_table(rom0@),
                extends_in_window(e0, bar0.events()),
            decreases MAX_OPS - self.stats.ops_executed,
        {
            let ghost e1 = bar0.events();
            let ghost pre = *self;
            let res = self.exec_op(bar0, cond_table);
            proof {
                lemma_extends_trans(e0, e1, bar0.events());
                let g = bar0.events().subrange(e1.len() as int, bar0.events().len() as int);
                assert(Self::chain_link(pre, g, *self));
                Self::lemma_chain_push(ss, gs, g, *self);
                assert(bar0.events() =~= e1 + g);
                gs.lemma_flatten_push(g);
                assert(bar0.events() =~= e0 + gs.push(g).flatten());
                ss = ss.push(*self);
                gs = gs.push(g);
            }
            match res {
                Ok(()) => {},
                Err(e) => {
                    return Err(e);
                },
            }
        }
        self.nested = self.nested - 1;
        Ok(())
    }

    /// Attempt to clear PRI bus faults and resume operations: acknowledge
    /// PRIV_RING faults, clear the PMC PRIV_RING interrupt if pending, wait
    /// 10 ms, and forget the per-domain fault counts if BOOT0 reads clean.
    pub fn attempt_pri_recovery<B: RegisterBus>(&mut self, bar0: &mut Bar0<B>)
        requires
            old(self).within_budget(old(self).stats.ops_executed as int),
            old(self).stats.pri_recoveries < old(self).stats.pri_faults,
        ensures
            final(self).within_budget(final(self).stats.ops_executed as int),
            final(self).same_control(&*old(self)),
            final(self).stats.writes_applied == old(self).stats.writes_applied,
            final(self).stats.writes_skipped_pri == old(self).stats.writes_skipped_pri,
            final(self).stats.pri_faults == old(self).stats.pri_faults,
            final(self).stats.pri_recoveries == old(self).stats.pri_recoveries + 1,
            final(self).pri_consecutive_faults == 0,
            extends_in_window(old(bar0).events(), final(bar0).events()),
    {
        let ghost e0 = bar0.events();
        proof {
            lemma_extends_refl(e0);
        }
        self.stats.pri_recoveries = self.stats.pri_recoveries + 1;
        let _ = bar0.write(PRIV_RING_COMMAND, PRIV_RING_CMD_ACK);
        proof {
            lemma_extends_push(e0, e0, BusEvent::Write { reg: PRIV_RING_COMMAND, val: PRIV_RING_CMD_ACK });
        }
        let ghost e1 = bar0.events();
        let pmc_intr = match bar0.read(PMC_INTR) {
            Ok(v) => v,
            Err(_) => 0,
        };
        proof {
            lemma_extends_push(e0, e1, bar0.events().last());
        }
        if pmc_intr & PMC_INTR_PRIV_RING_BIT != 0 {
            let ghost e2 = bar0.events();
            let _ = bar0.write(PMC_INTR, PMC_INTR_PRIV_RING_BIT);
            proof {
                lemma_extends_push(e0, e2, BusEvent::Write { reg: PMC_INTR, val: PMC_INTR_PRIV_RING_BIT });
            }
        }
        let ghost e3 = bar0.events();
        bar0.delay(10_000);
        proof {
            lemma_extends_push(e0, e3, BusEvent::Delay { us: 10_000 });
        }
        self.pri_consecutive_faults = 0;
        let ghost e4 = bar0.events();
        let boot0 = match bar0.read(0) {
            Ok(v) => v,
            Err(_) => 0xFFFF_FFFF,
        };
        proof {
            lemma_extends_push(e0, e4, bar0.events().last());
        }
        if !is_pri_error(boot0) && boot0 != 0xFFFF_FFFF {
            self.pri_domain_faults = zero_domain_faults();
        }
    }
}


/// Kind of bookkeeping of an opcode that only moves the script offset.
pub enum SkipKind {
    /// Hardware no-op: nothing counted.
    Plain,
    /// Opcode not executed by the host interpreter: counted as skipped.
    Skipped,
    /// Condition the host cannot evaluate: counted as evaluated.
    Condition,
}

/// Offset advance and bookkeeping of the opcodes that only move the script
/// offset, as [`fixed_effect`] computes them; `None` for the other opcodes.
pub open spec fn spec_fixed_effect(rom: Seq<u8>, offset: int, op: u8) -> Option<(int, SkipKind)> {
    let b = |k: int| rom_u8(rom, offset + k) as int;
    if op == 0x6B {
        Some((2, SkipKind::Skipped))
    } else if op == 0x73 {
        Some((3, SkipKind::Condition))
    } else if op == 0x76 || op == 0x39 {
        Some((2, SkipKind::Condition))
    } else if op == 0x3A {
        Some((3 + b(2), SkipKind::Condition))
    } else if op == 0x90 || op == 0x79 || op == 0x4B || op == 0x4F || op == 0x9A {
        Some((9, SkipKind::Skipped))
    } else if op == 0x5F {
        Some((22, SkipKind::Skipped))
    } else if op == 0x34 || op == 0x4A {
        Some((10 + b(9) * 4, SkipKind::Skipped))
    } else if op == 0x59 {
        Some((13, SkipKind::Skipped))
    } else if op == 0x87 {
        Some((5 + spec_ram_restrict_group_count(rom) * 4, SkipKind::Skipped))
    } else if op == 0x8F {
        Some((6 + b(5) * spec_ram_restrict_group_count(rom) * 4, SkipKind::Skipped))
    } else if op == 0x69 || op == 0x3B || op == 0x3C || op == 0x62 {
        Some((5, SkipKind::Skipped))
    } else if op == 0x32 {
        Some((8 + b(7) * 4, SkipKind::Skipped))
    } else if op == 0x37 || op == 0x96 {
        Some((11, SkipKind::Skipped))
    } else if op == 0x49 {
        Some((8 + b(7) * 2, SkipKind::Skipped))
    } else if op == 0x4C || op == 0x51 {
        Some((7, SkipKind::Skipped))
    } else if op == 0x4D || op == 0x5E || op == 0x78 {
        Some((6, SkipKind::Skipped))
    } else if op == 0x4E {
        Some((5 + b(4), SkipKind::Skipped))
    } else if op == 0x50 {
        Some((4 + b(3) * 2, SkipKind::Skipped))
    } else if op == 0x52 {
        Some((4, SkipKind::Skipped))
    } else if op == 0x53 {
        Some((3, SkipKind::Skipped))
    } else if op == 0x54 || op == 0xA9 {
        Some((2 + b(1) * 2, SkipKind::Skipped))
    } else if op == 0x98 {
        Some((8, SkipKind::Skipped))
    } else if op == 0x99 {
        Some((6 + b(5), SkipKind::Skipped))
    } else if op == 0x63 || op == 0x66 || op == 0x67 || op == 0x68 || op == 0x8C || op == 0x8D || op == 0x8E
        || op == 0x92 || op == 0xAA {
        Some((1, SkipKind::Plain))
    } else if op == 0x65 {
        Some((3, SkipKind::Plain))
    } else if op == 0x6F {
        Some((2, SkipKind::Plain))
    } else {
        None
    }
}

/// Offset advance and bookkeeping of the opcodes that have no other effect
/// on the host; `None` for the opcodes that do.
pub fn fixed_effect(rom: &[u8], offset: usize, op: u8) -> (r: Option<(usize, SkipKind)>)
    requires
        offset <= usize::MAX - 32,
    ensures
        r matches Some((len, _)) ==> 1 <= len <= 16326,
        match r {
            Some((len, k)) => spec_fixed_effect(rom@, offset as int, op) == Some((len as int, k)),
            None => spec_fixed_effect(rom@, offset as int, op) is None,
        },
        (op == 0x6B || op == 0x90 || op == 0x5F || op == 0x79 || op == 0x4B || op == 0x34 || op == 0x4A
            || op == 0x59 || op == 0x87 || op == 0x8F || op == 0x69 || op == 0x32 || op == 0x37
            || op == 0x3B || op == 0x3C || op == 0x49 || op == 0x4C || op == 0x4D || op == 0x4E
            || op == 0x4F || op == 0x50 || op == 0x51 || op == 0x52 || op == 0x53 || op == 0x54
            || op == 0x5E || op == 0x62 || op == 0x78 || op == 0x96 || op == 0x98 || op == 0x99
            || op == 0x9A || op == 0xA9) ==> r matches Some((_, SkipKind::Skipped)),
        (op == 0x73 || op == 0x76 || op == 0x39 || op == 0x3A) ==> r matches Some((_, SkipKind::Condition)),
        (op == 0x63 || op == 0x65 || op == 0x66 || op == 0x67 || op == 0x68 || op == 0x6F || op == 0x8C
            || op == 0x8D || op == 0x8E || op == 0x92 || op == 0xAA) ==> r matches Some((_, SkipKind::Plain)),
{
    match op {
        0x6B => Some((2, SkipKind::Skipped)),
        0x73 => Some((3, SkipKind::Condition)),
        0x76 | 0x39 => Some((2, SkipKind::Condition)),
        0x3A => Some((3 + rd08(rom, offset + 2) as usize, SkipKind::Condition)),
        0x90 => Some((9, SkipKind::Skipped)),
        0x5F => Some((22, SkipKind::Skipped)),
        0x79 | 0x4B => Some((9, SkipKind::Skipped)),
        0x34 | 0x4A => Some((10 + rd08(rom, offset + 9) as usize * 4, SkipKind::Skipped)),
        0x59 => Some((13, SkipKind::Skipped)),
        0x87 => {
            let count = ram_restrict_group_count(rom);
            Some((5 + count * 4, SkipKind::Skipped))
        },
        0x8F => {
            let count = rd08(rom, offset + 5) as usize;
            let n = ram_restrict_group_count(rom);
            assert(count * n * 4 <= 255 * 16 * 4) by (nonlinear_arith)
                requires
                    count <= 255,
                    n <= 16,
            ;
            Some((6 + count * n * 4, SkipKind::Skipped))
        },
        0x69 => Some((5, SkipKind::Skipped)),
        0x32 => Some((8 + rd08(rom, offset + 7) as usize * 4, SkipKind::Skipped)),
        0x37 => Some((11, SkipKind::Skipped)),
        0x3B | 0x3C => Some((5, SkipKind::Skipped)),
        0x49 => Some((8 + rd08(rom, offset + 7) as usize * 2, SkipKind::Skipped)),
        0x4C => Some((7, SkipKind::Skipped)),
        0x4D => Some((6, SkipKind::Skipped)),
        0x4E => Some((5 + rd08(rom, offset + 4) as usize, SkipKind::Skipped)),
        0x4F => Some((9, SkipKind::Skipped)),
        0x50 => Some((4 + rd08(rom, offset + 3) as usize * 2, SkipKind::Skipped)),
        0x51 => Some((7, SkipKind::Skipped)),
        0x52 => Some((4, SkipKind::Skipped)),
        0x53 => Some((3, SkipKind::Skipped)),
        0x54 => Some((2 + rd08(rom, offset + 1) as usize * 2, SkipKind::Skipped)),
        0x5E => Some((6, SkipKind::Skipped)),
        0x62 => Some((5, SkipKind::Skipped)),
        0x78 => Some((6, SkipKind::Skipped)),
        0x96 => Some((11, SkipKind::Skipped)),
        0x98 => Some((8, SkipKind::Skipped)),
        0x99 => Some((6 + rd08(rom, offset + 5) as usize, SkipKind::Skipped)),
        0x9A => Some((9, SkipKind::Skipped)),
        0xA9 => Some((2 + rd08(rom, offset + 1) as usize * 2, SkipKind::Skipped)),
        0x63 | 0x66 | 0x67 | 0x68 | 0x8C | 0x8D | 0x8E | 0x92 | 0xAA => Some((1, SkipKind::Plain)),
        0x65 => Some((3, SkipKind::Plain)),
        0x6F => Some((2, SkipKind::Plain)),
        _ => None,
    }
}

/// Where `interpret_boot_scripts` finds the init script table, or why it
/// cannot: BIT 'I' data offset 0 holds the init tables base, whose first
/// u16 points at the table of script offsets.
pub open spec fn spec_script_table(rom: Seq<u8>) -> Result<int, DevinitError> {
    match spec_parse_bit(rom) {
        Err(e) => Err(e),
        Ok(entries) => match spec_find_entry(entries, 0x49) {
            None => Err(DevinitError::BitEntryNotFound { id: 0x49 }),
            Some(ei) => {
                let i_off = ei.data_offset as int;
                if i_off + 2 > rom.len() {
                    Err(DevinitError::BitIDataTooShort)
                } else {
                    let base = rom_u16(rom, i_off) as int;
                    if base == 0 || base + 2 > rom.len() {
                        Err(DevinitError::InitTablesInvalid)
                    } else {
                        let table = rom_u16(rom, base) as int;
                        if table == 0 || table >= rom.len() {
                            Err(DevinitError::ScriptTableInvalid)
                        } else {
                            Ok(table)
                        }
                    }
                }
            },
        },
    }
}

/// Entry `i` of the script table at `table` names a script: the entry lies
/// in the image and holds a nonzero offset inside the image.
pub open spec fn script_entry_ok(rom: Seq<u8>, table: int, i: int) -> bool {
    let e = table + 2 * i;
    &&& e + 2 <= rom.len()
    &&& 0 < rom_u16(rom, e) < rom.len()
}

/// How many scripts the table at `table` names from entry `i` on: entries
/// are taken in order up to the first that names none, and at most 51
/// entries are looked at.
pub open spec fn scripts_from(rom: Seq<u8>, table: int, i: int) -> nat
    decreases 51 - i,
{
    if i < 0 || i >= 51 || !script_entry_ok(rom, table, i) {
        0
    } else {
        1 + scripts_from(rom, table, i + 1)
    }
}

/// The sum of a sequence of counts.
pub open spec fn sum_counts(s: Seq<int>) -> int
    decreases s.len(),
{
    if s.len() == 0 {
        0
    } else {
        sum_counts(s.drop_last()) + s.last()
    }
}

/// Execute VBIOS init scripts from the host CPU via BAR0.
///
/// Runs each script of the init script table in turn (at most 51, stopping
/// at a null or out-of-range entry), each with a fresh interpreter, and sums
/// their statistics; a script that fails counts like the others. Domains
/// that faulted three or more times in some script are listed once in
/// `faulted_domains`. Every BAR0 write is 4-byte aligned and inside the
/// 16 MiB window, and the accesses are those of the complete runs of the
/// scripts the table names, one after another (see
/// [`VbiosInterpreter::script_run`]).
pub fn interpret_boot_scripts<B: RegisterBus>(bar0: &mut Bar0<B>, rom: &[u8]) -> (r: Result<
    InterpreterStats,
    DevinitError,
>)
    requires
        rom@.len() <= isize::MAX,
    ensures
        r is Err <==> spec_script_table(rom@) is Err,
        r matches Err(e) ==> spec_script_table(rom@) == Err::<int, DevinitError>(e),
        extends_in_window(old(bar0).events(), final(bar0).events()),
        r matches Ok(st) ==> st.ops_executed <= 51 * MAX_OPS,
        (spec_script_table(rom@) matches Ok(t) && t + 2 <= rom@.len() && 0 < rom_u16(rom@, t) < rom@.len())
            ==> (r matches Ok(st) && st.ops_executed > 0),
        r is Err ==> final(bar0).events() == old(bar0).events(),
        spec_script_table(rom@) matches Ok(t) ==> exists|segs: Seq<Seq<BusEvent>>, opss: Seq<int>|
            {
                &&& segs.len() == scripts_from(rom@, t, 0)
                &&& opss.len() == segs.len()
                &&& final(bar0).events() == old(bar0).events() + segs.flatten()
                &&& forall|i: int|
                    0 <= i < segs.len() ==> VbiosInterpreter::script_run(
                        rom@,
                        rom_u16(rom@, t + 2 * i) as int,
                        #[trigger] segs[i],
                        opss[i],
                    )
                &&& (r matches Ok(st) ==> st.ops_executed == sum_counts(opss))
            },
{
    let ghost e0 = bar0.events();
    proof {
        lemma_extends_refl(e0);
    }
    let bit = BitTable::parse(rom)?;
    let bit_i = match bit.find(0x49) {
        Some(e) => e,
        None => {
            return Err(DevinitError::BitEntryNotFound { id: 0x49 });
        },
    };
    let i_off = bit_i.data_offset as usize;
    if i_off > rom.len() || rom.len() - i_off < 2 {
        return Err(DevinitError::BitIDataTooShort);
    }
    let init_tables_base = rd16(rom, i_off) as usize;
    if init_tables_base == 0 || init_tables_base > rom.len() || rom.len() - init_tables_base < 2 {
        return Err(DevinitError::InitTablesInvalid);
    }
    let script_table_ptr = rd16(rom, init_tables_base) as usize;
    if script_table_ptr == 0 || script_table_ptr >= rom.len() {
        return Err(DevinitError::ScriptTableInvalid);
    }
    let mut combined = InterpreterStats::new();
    let mut listed: Vec<bool> = Vec::new();
    let mut d: usize = 0;
    while d < PRI_DOMAIN_COUNT
        invariant
            d <= PRI_DOMAIN_COUNT,
            listed@.len() == d,
        decreases PRI_DOMAIN_COUNT - d,
    {
        listed.push(false);
        d = d + 1;
    }
    let ghost mut segs: Seq<Seq<BusEvent>> = Seq::empty();
    let ghost mut opss: Seq<int> = Seq::empty();
    let ghost t = script_table_ptr as int;
    proof {
        assert(e0 =~= e0 + segs.flatten());
    }
    let mut script_idx: usize = 0;
    while script_idx <= 50
        invariant
            t == script_table_ptr,
            spec_script_table(rom@) == Ok::<int, DevinitError>(t),
            segs.len() == script_idx,
            opss.len() == script_idx,
            combined.ops_executed == sum_counts(opss),
            bar0.events() == e0 + segs.flatten(),
            scripts_from(rom@, t, 0) == script_idx + scripts_from(rom@, t, script_idx as int),
            forall|i: int|
                0 <= i < segs.len() ==> VbiosInterpreter::script_run(
                    rom@,
                    rom_u16(rom@, t + 2 * i) as int,
                    #[trigger] segs[i],
                    opss[i],
                ),
            rom@.len() <= isize::MAX,
            script_table_ptr < rom@.len(),
            script_idx <= 51,
            listed@.len() == PRI_DOMAIN_COUNT,
            combined.ops_executed <= script_idx * MAX_OPS,
            combined.writes_applied <= script_idx * 256 * MAX_OPS,
            combined.writes_skipped_pri <= script_idx * 256 * MAX_OPS,
            combined.ops_skipped <= script_idx * MAX_OPS,
            combined.conditions_evaluated <= script_idx * MAX_OPS,
            combined.delays_total_us <= script_idx * MAX_OPS * 0x100_0000,
            combined.pri_faults <= script_idx * 256 * MAX_OPS,
            combined.pri_recoveries <= script_idx * 256 * MAX_OPS,
            extends_in_window(e0, bar0.events()),
            script_idx > 0 ==> combined.ops_executed > 0,
        ensures
            segs.len() == scripts_from(rom@, t, 0),
            opss.len() == segs.len(),
            combined.ops_executed == sum_counts(opss),
            bar0.events() == e0 + segs.flatten(),
            forall|i: int|
                0 <= i < segs.len() ==> VbiosInterpreter::script_run(
                    rom@,
                    rom_u16(rom@, t + 2 * i) as int,
                    #[trigger] segs[i],
                    opss[i],
                ),
            script_idx > 0 ==> combined.ops_executed > 0,
            (script_table_ptr + 2 <= rom@.len() && 0 < rom_u16(rom@, script_table_ptr as int) < rom@.len())
                ==> script_idx > 0,
        decreases 51 - script_idx,
    {
        let entry_off = script_table_ptr + script_idx * 2;
        if entry_off > rom.len() || rom.len() - entry_off < 2 {
            break ;
        }
        let script_off = rd16(rom, entry_off) as usize;
        if script_off == 0 || script_off >= rom.len() {
            break ;
        }
        proof {
            lemma_image_offsets_have_room(script_off as int);
        }
        let mut interp = VbiosInterpreter::new(rom, script_off);
        let ghost e1 = bar0.events();
        let ghost i0 = interp;
        let run_result = interp.run(bar0);
        proof {
            lemma_extends_trans(e0, e1, bar0.events());
            let (ss, gs) = choose|ss: Seq<VbiosInterpreter>, gs: Seq<Seq<BusEvent>>|
                {
                    &&& #[trigger] VbiosInterpreter::executed_chain(ss, gs)
                    &&& VbiosInterpreter::same_but_nesting(ss[0], i0)
                    &&& VbiosInterpreter::same_but_nesting(ss.last(), interp)
                    &&& bar0.events() == e1 + gs.flatten()
                };
            let g = gs.flatten();
            assert(VbiosInterpreter::fresh_at(ss[0], rom@, script_off as int));
            let ops = interp.stats.ops_executed as int;
            assert(VbiosInterpreter::script_run(rom@, script_off as int, g, ops));
            let sp = segs.push(g);
            let op2 = opss.push(ops);
            assert(op2.drop_last() =~= opss);
            segs.lemma_flatten_push(g);
            assert(bar0.events() =~= e0 + sp.flatten());
            assert forall|i: int| 0 <= i < sp.len() implies VbiosInterpreter::script_run(
                rom@,
                rom_u16(rom@, t + 2 * i) as int,
                #[trigger] sp[i],
                op2[i],
            ) by {
                if i < segs.len() {
                    assert(sp[i] == segs[i]);
                    assert(op2[i] == opss[i]);
                }
            }
            segs = sp;
            opss = op2;
        }
        combined.ops_executed = combined.ops_executed + interp.stats.ops_executed;
        combined.writes_applied = combined.writes_applied + interp.stats.writes_applied;
        combined.writes_skipped_pri = combined.writes_skipped_pri + interp.stats.writes_skipped_pri;
        combined.ops_skipped = combined.ops_skipped + interp.stats.ops_skipped;
        combined.conditions_evaluated = combined.conditions_evaluated
            + interp.stats.conditions_evaluated;
        combined.delays_total_us = combined.delays_total_us + interp.stats.delays_total_us;
        combined.unknown_opcodes.append(&mut interp.stats.unknown_opcodes);
        combined.pri_faults = combined.pri_faults + interp.stats.pri_faults;
        combined.pri_recoveries = combined.pri_recoveries + interp.stats.pri_recoveries;
        let mut new_names: Vec<String> = Vec::new();
        let mut dom: usize = 0;
        while dom < PRI_DOMAIN_COUNT
            invariant
                listed@.len() == PRI_DOMAIN_COUNT,
                interp.pri_domain_faults@.len() == PRI_DOMAIN_COUNT,
                dom <= PRI_DOMAIN_COUNT,
            decreases PRI_DOMAIN_COUNT - dom,
        {
            if interp.pri_domain_faults[dom] >= 3 && !listed[dom] {
                listed.set(dom, true);
                new_names.push(String::from_str(pri_domain_name(dom)));
            }
            dom = dom + 1;
        }
        combined.faulted_domains.append(&mut new_names);
        script_idx = script_idx + 1;
    }
    Ok(combined)
}
} // verus!
