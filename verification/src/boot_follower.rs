//! Register-domain classification, boot phases, recipe steps, and the
//! comparison of cold and warm register snapshots.
use vstd::prelude::*;
use vstd::string::StringSliceAdditionalSpecFns;
use std::collections::BTreeMap;

use crate::bus::{pri_domain_index, pri_domain_name, spec_is_pri_error, spec_pri_domain, is_pri_error, PRI_DOMAIN_COUNT};
use crate::snapshot::{snapshot_value, union_keys, value_or_zero};
use crate::stable_sort::{lemma_stable_empty, lemma_stable_insert, stable_sorted_of};

verus! {

/// A contiguous BAR0 address range belonging to a named hardware domain.
#[derive(Debug, Clone, Copy, PartialEq, Eq)]
pub struct DomainRange {
    pub name: &'static str,
    pub start: usize,
    pub end: usize,
    pub priority: u32,
}

/// First range of `table` that holds `off`, as (name, priority).
pub open spec fn spec_lookup(table: Seq<DomainRange>, off: int) -> Option<(&'static str, u32)>
    decreases table.len(),
{
    if table.len() == 0 {
        None
    } else if table[0].start <= off < table[0].end {
        Some((table[0].name, table[0].priority))
    } else {
        spec_lookup(table.drop_first(), off)
    }
}

/// First range of `table` that holds `off`, as (name, priority), or
/// ("UNKNOWN", 99).
pub open spec fn spec_classify(table: Seq<DomainRange>, off: int) -> (&'static str, u32) {
    match spec_lookup(table, off) {
        Some(x) => x,
        None => ("UNKNOWN", 99),
    }
}

/// First range of `table` that holds `offset`.
pub fn lookup_in_table(table: &[DomainRange], offset: usize) -> (r: Option<(&'static str, u32)>)
    ensures
        r == spec_lookup(table@, offset as int),
{
    let mut i: usize = 0;
    proof {
        assert(table@.subrange(0, table@.len() as int) =~= table@);
    }
    while i < table.len()
        invariant
            i <= table@.len(),
            spec_lookup(table@, offset as int) == spec_lookup(
                table@.subrange(i as int, table@.len() as int),
                offset as int,
            ),
        decreases table.len() - i,
    {
        let range = table[i];
        proof {
            let rest = table@.subrange(i as int, table@.len() as int);
            assert(rest[0] == range);
            assert(rest.drop_first() =~= table@.subrange(i + 1, table@.len() as int));
        }
        if offset >= range.start && offset < range.end {
            return Some((range.name, range.priority));
        }
        i = i + 1;
    }
    None
}

/// Classify an offset using a `DomainRange` table, falling back to "UNKNOWN".
pub fn classify_from_table(table: &[DomainRange], offset: usize) -> (r: (&'static str, u32))
    ensures
        r == spec_classify(table@, offset as int),
{
    match lookup_in_table(table, offset) {
        Some(x) => x,
        None => ("UNKNOWN", 99),
    }
}

/// The two strings hold the same bytes.
pub fn str_eq(a: &str, b: &str) -> (r: bool)
    ensures
        r == (a.spec_bytes() == b.spec_bytes()),
{
    let x = a.as_bytes();
    let y = b.as_bytes();
    if x.len() != y.len() {
        proof {
            assert(x@.len() != y@.len());
        }
        return false;
    }
    let mut i: usize = 0;
    while i < x.len()
        invariant
            x@ == a.spec_bytes(),
            y@ == b.spec_bytes(),
            x@.len() == y@.len(),
            i <= x@.len(),
            forall|j: int| 0 <= j < i ==> x@[j] == y@[j],
        decreases x.len() - i,
    {
        if x[i] != y[i] {
            proof {
                assert(x@[i as int] != y@[i as int]);
            }
            return false;
        }
        i = i + 1;
    }
    proof {
        assert(x@ =~= y@);
    }
    true
}

pub open spec fn dr(name: &'static str, start: usize, end: usize, priority: u32) -> DomainRange {
    DomainRange { name, start, end, priority }
}

/// Kepler BAR0 domain ranges with replay priority ordering.
pub open spec fn spec_kepler_domains() -> Seq<DomainRange> {
    seq![
        dr("ROOT_PLL", 0x136000, 0x137000, 0),
        dr("PCLOCK", 0x137000, 0x138000, 1),
        dr("CLK", 0x130000, 0x136000, 2),
        dr("PMC", 0x000000, 0x001000, 3),
        dr("PRI_MASTER", 0x122000, 0x123000, 4),
        dr("PBUS", 0x001000, 0x002000, 5),
        dr("PTIMER", 0x009000, 0x00A000, 6),
        dr("PTOP", 0x020000, 0x024000, 7),
        dr("PPCI", 0x008800, 0x009000, 8),
        dr("PFB", 0x100000, 0x100800, 10),
        dr("FBHUB", 0x100800, 0x100C00, 11),
        dr("PFB_NISO", 0x100C00, 0x101000, 12),
        dr("FBPA", 0x9A0000, 0x9B0000, 15),
        dr("LTC", 0x17E000, 0x190000, 16),
        dr("PMU", 0x10A000, 0x10C000, 20),
        dr("PFIFO", 0x002000, 0x004000, 25),
        dr("PBDMA", 0x040000, 0x0A0000, 26),
        dr("PCOPY", 0x104000, 0x105000, 27),
        dr("PGRAPH", 0x400000, 0x420000, 30),
        dr("PCCSR", 0x800000, 0x900000, 35),
        dr("PRAMIN", 0x700000, 0x710000, 40),
    ]
}

/// Kepler BAR0 domain ranges with replay priority ordering.
pub fn kepler_domains() -> (r: Vec<DomainRange>)
    ensures
        r@ == spec_kepler_domains(),
{
    let r = vec![
        DomainRange { name: "ROOT_PLL", start: 0x136000, end: 0x137000, priority: 0 },
        DomainRange { name: "PCLOCK", start: 0x137000, end: 0x138000, priority: 1 },
        DomainRange { name: "CLK", start: 0x130000, end: 0x136000, priority: 2 },
        DomainRange { name: "PMC", start: 0x000000, end: 0x001000, priority: 3 },
        DomainRange { name: "PRI_MASTER", start: 0x122000, end: 0x123000, priority: 4 },
        DomainRange { name: "PBUS", start: 0x001000, end: 0x002000, priority: 5 },
        DomainRange { name: "PTIMER", start: 0x009000, end: 0x00A000, priority: 6 },
        DomainRange { name: "PTOP", start: 0x020000, end: 0x024000, priority: 7 },
        DomainRange { name: "PPCI", start: 0x008800, end: 0x009000, priority: 8 },
        DomainRange { name: "PFB", start: 0x100000, end: 0x100800, priority: 10 },
        DomainRange { name: "FBHUB", start: 0x100800, end: 0x100C00, priority: 11 },
        DomainRange { name: "PFB_NISO", start: 0x100C00, end: 0x101000, priority: 12 },
        DomainRange { name: "FBPA", start: 0x9A0000, end: 0x9B0000, priority: 15 },
        DomainRange { name: "LTC", start: 0x17E000, end: 0x190000, priority: 16 },
        DomainRange { name: "PMU", start: 0x10A000, end: 0x10C000, priority: 20 },
        DomainRange { name: "PFIFO", start: 0x002000, end: 0x004000, priority: 25 },
        DomainRange { name: "PBDMA", start: 0x040000, end: 0x0A0000, priority: 26 },
        DomainRange { name: "PCOPY", start: 0x104000, end: 0x105000, priority: 27 },
        DomainRange { name: "PGRAPH", start: 0x400000, end: 0x420000, priority: 30 },
        DomainRange { name: "PCCSR", start: 0x800000, end: 0x900000, priority: 35 },
        DomainRange { name: "PRAMIN", start: 0x700000, end: 0x710000, priority: 40 },
    ];
    proof {
        assert(r@ =~= spec_kepler_domains());
    }
    r
}


/// Volta BAR0 domain ranges with replay priority ordering.
pub open spec fn spec_volta_domains() -> Seq<DomainRange> {
    seq![
        dr("ROOT_PLL", 0x136000, 0x137000, 0),
        dr("PCLOCK", 0x137000, 0x138000, 1),
        dr("CLK", 0x130000, 0x136000, 2),
        dr("PMC", 0x000000, 0x001000, 3),
        dr("PRI_MASTER", 0x122000, 0x123000, 4),
        dr("PBUS", 0x001000, 0x002000, 5),
        dr("PTIMER", 0x009000, 0x00A000, 6),
        dr("PTOP", 0x020000, 0x024000, 7),
        dr("SEC2", 0x087000, 0x088000, 9),
        dr("PFB", 0x100000, 0x102000, 10),
        dr("FBPA", 0x9A0000, 0x9B0000, 15),
        dr("LTC", 0x17E000, 0x190000, 16),
        dr("PMU", 0x10A000, 0x10C000, 20),
        dr("PFIFO", 0x002000, 0x004000, 25),
        dr("PBDMA", 0x040000, 0x0A0000, 26),
        dr("FECS", 0x409000, 0x40A000, 31),
        dr("GPCCS", 0x41A000, 0x41B000, 32),
        dr("PGRAPH", 0x400000, 0x420000, 30),
        dr("PCCSR", 0x800000, 0x900000, 35),
        dr("PRAMIN", 0x700000, 0x710000, 40),
    ]
}

/// Volta BAR0 domain ranges with replay priority ordering.
pub fn volta_domains() -> (r: Vec<DomainRange>)
    ensures
        r@ == spec_volta_domains(),
{
    let r = vec![
        DomainRange { name: "ROOT_PLL", start: 0x136000, end: 0x137000, priority: 0 },
        DomainRange { name: "PCLOCK", start: 0x137000, end: 0x138000, priority: 1 },
        DomainRange { name: "CLK", start: 0x130000, end: 0x136000, priority: 2 },
        DomainRange { name: "PMC", start: 0x000000, end: 0x001000, priority: 3 },
        DomainRange { name: "PRI_MASTER", start: 0x122000, end: 0x123000, priority: 4 },
        DomainRange { name: "PBUS", start: 0x001000, end: 0x002000, priority: 5 },
        DomainRange { name: "PTIMER", start: 0x009000, end: 0x00A000, priority: 6 },
        DomainRange { name: "PTOP", start: 0x020000, end: 0x024000, priority: 7 },
        DomainRange { name: "SEC2", start: 0x087000, end: 0x088000, priority: 9 },
        DomainRange { name: "PFB", start: 0x100000, end: 0x102000, priority: 10 },
        DomainRange { name: "FBPA", start: 0x9A0000, end: 0x9B0000, priority: 15 },
        DomainRange { name: "LTC", start: 0x17E000, end: 0x190000, priority: 16 },
        DomainRange { name: "PMU", start: 0x10A000, end: 0x10C000, priority: 20 },
        DomainRange { name: "PFIFO", start: 0x002000, end: 0x004000, priority: 25 },
        DomainRange { name: "PBDMA", start: 0x040000, end: 0x0A0000, priority: 26 },
        DomainRange { name: "FECS", start: 0x409000, end: 0x40A000, priority: 31 },
        DomainRange { name: "GPCCS", start: 0x41A000, end: 0x41B000, priority: 32 },
        DomainRange { name: "PGRAPH", start: 0x400000, end: 0x420000, priority: 30 },
        DomainRange { name: "PCCSR", start: 0x800000, end: 0x900000, priority: 35 },
        DomainRange { name: "PRAMIN", start: 0x700000, end: 0x710000, priority: 40 },
    ];
    proof {
        assert(r@ =~= spec_volta_domains());
    }
    r
}

/// Domain table of the boot follower: the Kepler layout without PTIMER, PPCI, PCOPY and PGRAPH.
pub open spec fn spec_legacy_domains() -> Seq<DomainRange> {
    seq![
        dr("ROOT_PLL", 0x136000, 0x137000, 0),
        dr("PCLOCK", 0x137000, 0x138000, 1),
        dr("CLK", 0x130000, 0x136000, 2),
        dr("PMC", 0x000000, 0x001000, 3),
        dr("PRI_MASTER", 0x122000, 0x123000, 4),
        dr("PBUS", 0x001000, 0x002000, 5),
        dr("PTOP", 0x020000, 0x024000, 6),
        dr("PFB", 0x100000, 0x100800, 10),
        dr("FBHUB", 0x100800, 0x100C00, 11),
        dr("PFB_NISO", 0x100C00, 0x101000, 12),
        dr("FBPA", 0x9A0000, 0x9B0000, 15),
        dr("LTC", 0x17E000, 0x190000, 16),
        dr("PMU", 0x10A000, 0x10C000, 20),
        dr("PFIFO", 0x002000, 0x004000, 25),
        dr("PBDMA", 0x040000, 0x0A0000, 26),
        dr("PCCSR", 0x800000, 0x900000, 30),
        dr("PRAMIN", 0x700000, 0x710000, 35),
    ]
}

/// Domain table of the boot follower: the Kepler layout without PTIMER, PPCI, PCOPY and PGRAPH.
pub fn legacy_domains() -> (r: Vec<DomainRange>)
    ensures
        r@ == spec_legacy_domains(),
{
    let r = vec![
        DomainRange { name: "ROOT_PLL", start: 0x136000, end: 0x137000, priority: 0 },
        DomainRange { name: "PCLOCK", start: 0x137000, end: 0x138000, priority: 1 },
        DomainRange { name: "CLK", start: 0x130000, end: 0x136000, priority: 2 },
        DomainRange { name: "PMC", start: 0x000000, end: 0x001000, priority: 3 },
        DomainRange { name: "PRI_MASTER", start: 0x122000, end: 0x123000, priority: 4 },
        DomainRange { name: "PBUS", start: 0x001000, end: 0x002000, priority: 5 },
        DomainRange { name: "PTOP", start: 0x020000, end: 0x024000, priority: 6 },
        DomainRange { name: "PFB", start: 0x100000, end: 0x100800, priority: 10 },
        DomainRange { name: "FBHUB", start: 0x100800, end: 0x100C00, priority: 11 },
        DomainRange { name: "PFB_NISO", start: 0x100C00, end: 0x101000, priority: 12 },
        DomainRange { name: "FBPA", start: 0x9A0000, end: 0x9B0000, priority: 15 },
        DomainRange { name: "LTC", start: 0x17E000, end: 0x190000, priority: 16 },
        DomainRange { name: "PMU", start: 0x10A000, end: 0x10C000, priority: 20 },
        DomainRange { name: "PFIFO", start: 0x002000, end: 0x004000, priority: 25 },
        DomainRange { name: "PBDMA", start: 0x040000, end: 0x0A0000, priority: 26 },
        DomainRange { name: "PCCSR", start: 0x800000, end: 0x900000, priority: 30 },
        DomainRange { name: "PRAMIN", start: 0x700000, end: 0x710000, priority: 35 },
    ];
    proof {
        assert(r@ =~= spec_legacy_domains());
    }
    r
}

/// The domain the boot follower's table gives replay priority `p`.
pub open spec fn legacy_name_of(p: u32) -> Seq<char> {
    if p == 0 {
        "ROOT_PLL"@
    } else if p == 1 {
        "PCLOCK"@
    } else if p == 2 {
        "CLK"@
    } else if p == 3 {
        "PMC"@
    } else if p == 4 {
        "PRI_MASTER"@
    } else if p == 5 {
        "PBUS"@
    } else if p == 6 {
        "PTOP"@
    } else if p == 10 {
        "PFB"@
    } else if p == 11 {
        "FBHUB"@
    } else if p == 12 {
        "PFB_NISO"@
    } else if p == 15 {
        "FBPA"@
    } else if p == 16 {
        "LTC"@
    } else if p == 20 {
        "PMU"@
    } else if p == 25 {
        "PFIFO"@
    } else if p == 26 {
        "PBDMA"@
    } else if p == 30 {
        "PCCSR"@
    } else if p == 35 {
        "PRAMIN"@
    } else {
        "UNKNOWN"@
    }
}

/// The replay priority the boot follower's table gives domain `n`.
pub open spec fn legacy_priority_of(n: Seq<char>) -> u32 {
    if n == "ROOT_PLL"@ {
        0
    } else if n == "PCLOCK"@ {
        1
    } else if n == "CLK"@ {
        2
    } else if n == "PMC"@ {
        3
    } else if n == "PRI_MASTER"@ {
        4
    } else if n == "PBUS"@ {
        5
    } else if n == "PTOP"@ {
        6
    } else if n == "PFB"@ {
        10
    } else if n == "FBHUB"@ {
        11
    } else if n == "PFB_NISO"@ {
        12
    } else if n == "FBPA"@ {
        15
    } else if n == "LTC"@ {
        16
    } else if n == "PMU"@ {
        20
    } else if n == "PFIFO"@ {
        25
    } else if n == "PBDMA"@ {
        26
    } else if n == "PCCSR"@ {
        30
    } else if n == "PRAMIN"@ {
        35
    } else {
        99
    }
}

/// In the boot follower's classification a domain and its priority
/// determine each other.
pub proof fn lemma_legacy_domain_priority(off: int)
    ensures
        spec_classify(spec_legacy_domains(), off).1 == legacy_priority_of(spec_classify(spec_legacy_domains(), off).0@),
        spec_classify(spec_legacy_domains(), off).0@ == legacy_name_of(spec_classify(spec_legacy_domains(), off).1),
{
    reveal_with_fuel(spec_lookup, 18);
    reveal_strlit("ROOT_PLL");
    reveal_strlit("PCLOCK");
    reveal_strlit("CLK");
    reveal_strlit("PMC");
    reveal_strlit("PRI_MASTER");
    reveal_strlit("PBUS");
    reveal_strlit("PTOP");
    reveal_strlit("PFB");
    reveal_strlit("FBHUB");
    reveal_strlit("PFB_NISO");
    reveal_strlit("FBPA");
    reveal_strlit("LTC");
    reveal_strlit("PMU");
    reveal_strlit("PFIFO");
    reveal_strlit("PBDMA");
    reveal_strlit("PCCSR");
    reveal_strlit("PRAMIN");
    reveal_strlit("UNKNOWN");
    assert("ROOT_PLL"@.len() == 8);
    assert("PCLOCK"@.len() == 6);
    assert("CLK"@.len() == 3);
    assert("PMC"@.len() == 3);
    assert("PRI_MASTER"@.len() == 10);
    assert("PBUS"@.len() == 4);
    assert("PTOP"@.len() == 4);
    assert("PFB"@.len() == 3);
    assert("FBHUB"@.len() == 5);
    assert("PFB_NISO"@.len() == 8);
    assert("FBPA"@.len() == 4);
    assert("LTC"@.len() == 3);
    assert("PMU"@.len() == 3);
    assert("PFIFO"@.len() == 5);
    assert("PBDMA"@.len() == 5);
    assert("PCCSR"@.len() == 5);
    assert("PRAMIN"@.len() == 6);
    assert("UNKNOWN"@.len() == 7);
    assert("CLK"@[0] != "PMC"@[0]);
    assert("PBUS"@[1] != "PTOP"@[1]);
    assert("CLK"@[0] != "PFB"@[0]);
    assert("PMC"@[1] != "PFB"@[1]);
    assert("ROOT_PLL"@[0] != "PFB_NISO"@[0]);
    assert("PBUS"@[0] != "FBPA"@[0]);
    assert("PTOP"@[0] != "FBPA"@[0]);
    assert("CLK"@[0] != "LTC"@[0]);
    assert("PMC"@[0] != "LTC"@[0]);
    assert("PFB"@[0] != "LTC"@[0]);
    assert("CLK"@[0] != "PMU"@[0]);
    assert("PMC"@[2] != "PMU"@[2]);
    assert("PFB"@[1] != "PMU"@[1]);
    assert("LTC"@[0] != "PMU"@[0]);
    assert("FBHUB"@[0] != "PFIFO"@[0]);
    assert("FBHUB"@[0] != "PBDMA"@[0]);
    assert("PFIFO"@[1] != "PBDMA"@[1]);
    assert("FBHUB"@[0] != "PCCSR"@[0]);
    assert("PFIFO"@[1] != "PCCSR"@[1]);
    assert("PBDMA"@[1] != "PCCSR"@[1]);
    assert("PCLOCK"@[1] != "PRAMIN"@[1]);
}

/// Classify an offset with the boot follower's own domain table.
pub fn classify_domain(offset: usize) -> (r: (&'static str, u32))
    ensures
        r == spec_classify(spec_legacy_domains(), offset as int),
{
    let t = legacy_domains();
    classify_from_table(t.as_slice(), offset)
}

/// `hint` holds the same bytes as `s`.
pub open spec fn hint_is(hint: &str, s: &str) -> bool {
    hint.spec_bytes() == s.spec_bytes()
}

/// Classify BAR0 offsets into named hardware domains with replay priority.
///
/// Each GPU architecture has its own register layout; classification goes by
/// the architecture's table and, for offsets outside it, by the region tag
/// that a capture recorded.
pub trait DomainMap: core::fmt::Debug {
    fn classify(&self, offset: usize, region_hint: &str) -> (&'static str, u32);

    fn domain_table(&self) -> Vec<DomainRange>;
}

/// Kepler (GK1xx) BAR0 domain layout.
#[derive(Debug, Clone, Copy)]
pub struct KeplerDomainMap;

/// Region-tag fallback of the Kepler map.
pub open spec fn spec_kepler_hint(hint: &str) -> (&'static str, u32) {
    if hint_is(hint, "PCLOCK") {
        ("PCLOCK", 1)
    } else if hint_is(hint, "PMC") {
        ("PMC", 3)
    } else if hint_is(hint, "PTIMER") {
        ("PTIMER", 6)
    } else if hint_is(hint, "PFB") {
        ("PFB", 10)
    } else if hint_is(hint, "PFIFO") {
        ("PFIFO", 25)
    } else if hint_is(hint, "PGRAPH") {
        ("PGRAPH", 30)
    } else if hint_is(hint, "PCOPY") {
        ("PCOPY", 27)
    } else if hint_is(hint, "PBUS") {
        ("PBUS", 5)
    } else if hint_is(hint, "PROM") {
        ("PROM", 50)
    } else if hint_is(hint, "PPCI") {
        ("PPCI", 8)
    } else {
        ("UNKNOWN", 99)
    }
}

/// Table lookup first, then the region-tag fallback. (No table names a
/// domain "UNKNOWN", so a table hit is exactly a non-"UNKNOWN" answer.)
pub open spec fn spec_classify_with_hint(
    table: Seq<DomainRange>,
    offset: int,
    fallback: (&'static str, u32),
) -> (&'static str, u32) {
    match spec_lookup(table, offset) {
        Some(x) => x,
        None => fallback,
    }
}

impl DomainMap for KeplerDomainMap {
    fn classify(&self, offset: usize, region_hint: &str) -> (r: (&'static str, u32))
        ensures
            r == spec_classify_with_hint(
                spec_kepler_domains(),
                offset as int,
                spec_kepler_hint(region_hint),
            ),
    {
        let t = kepler_domains();
        if let Some(x) = lookup_in_table(t.as_slice(), offset) {
            return x;
        }
        if str_eq(region_hint, "PCLOCK") {
            ("PCLOCK", 1)
        } else if str_eq(region_hint, "PMC") {
            ("PMC", 3)
        } else if str_eq(region_hint, "PTIMER") {
            ("PTIMER", 6)
        } else if str_eq(region_hint, "PFB") {
            ("PFB", 10)
        } else if str_eq(region_hint, "PFIFO") {
            ("PFIFO", 25)
        } else if str_eq(region_hint, "PGRAPH") {
            ("PGRAPH", 30)
        } else if str_eq(region_hint, "PCOPY") {
            ("PCOPY", 27)
        } else if str_eq(region_hint, "PBUS") {
            ("PBUS", 5)
        } else if str_eq(region_hint, "PROM") {
            ("PROM", 50)
        } else if str_eq(region_hint, "PPCI") {
            ("PPCI", 8)
        } else {
            ("UNKNOWN", 99)
        }
    }

    fn domain_table(&self) -> (r: Vec<DomainRange>)
        ensures
            r@ == spec_kepler_domains(),
    {
        kepler_domains()
    }
}

/// Volta (GV100) BAR0 domain layout.
#[derive(Debug, Clone, Copy)]
pub struct VoltaDomainMap;

/// Region-tag fallback of the Volta map.
pub open spec fn spec_volta_hint(hint: &str) -> (&'static str, u32) {
    if hint_is(hint, "PCLOCK") {
        ("PCLOCK", 1)
    } else if hint_is(hint, "PMC") {
        ("PMC", 3)
    } else if hint_is(hint, "PTIMER") {
        ("PTIMER", 6)
    } else if hint_is(hint, "SEC2") {
        ("SEC2", 9)
    } else if hint_is(hint, "PFB") {
        ("PFB", 10)
    } else if hint_is(hint, "PFIFO") {
        ("PFIFO", 25)
    } else if hint_is(hint, "PGRAPH") {
        ("PGRAPH", 30)
    } else if hint_is(hint, "PBUS") {
        ("PBUS", 5)
    } else {
        ("UNKNOWN", 99)
    }
}

impl DomainMap for VoltaDomainMap {
    fn classify(&self, offset: usize, region_hint: &str) -> (r: (&'static str, u32))
        ensures
            r == spec_classify_with_hint(
                spec_volta_domains(),
                offset as int,
                spec_volta_hint(region_hint),
            ),
    {
        let t = volta_domains();
        if let Some(x) = lookup_in_table(t.as_slice(), offset) {
            return x;
        }
        if str_eq(region_hint, "PCLOCK") {
            ("PCLOCK", 1)
        } else if str_eq(region_hint, "PMC") {
            ("PMC", 3)
        } else if str_eq(region_hint, "PTIMER") {
            ("PTIMER", 6)
        } else if str_eq(region_hint, "SEC2") {
            ("SEC2", 9)
        } else if str_eq(region_hint, "PFB") {
            ("PFB", 10)
        } else if str_eq(region_hint, "PFIFO") {
            ("PFIFO", 25)
        } else if str_eq(region_hint, "PGRAPH") {
            ("PGRAPH", 30)
        } else if str_eq(region_hint, "PBUS") {
            ("PBUS", 5)
        } else {
            ("UNKNOWN", 99)
        }
    }

    fn domain_table(&self) -> (r: Vec<DomainRange>)
        ensures
            r@ == spec_volta_domains(),
    {
        volta_domains()
    }
}

/// Where the Volta map puts each BAR0 offset, whatever the region tag:
/// PMC 0x000000..0x001000 (priority 3), PBUS ..0x002000 (5), PFIFO
/// ..0x004000 (25), PTIMER 0x009000..0x00A000 (6), PTOP 0x020000..0x024000
/// (7), SEC2 0x087000..0x088000 (9) and around it PBDMA
/// 0x040000..0x0A0000 (26), PFB 0x100000..0x102000 (10), PMU
/// 0x10A000..0x10C000 (20), PRI_MASTER 0x122000..0x123000 (4), CLK
/// 0x130000..0x136000 (2), ROOT_PLL ..0x137000 (0), PCLOCK ..0x138000 (1),
/// LTC 0x17E000..0x190000 (16), FECS 0x409000..0x40A000 (31) and GPCCS
/// 0x41A000..0x41B000 (32) inside PGRAPH 0x400000..0x420000 (30), PRAMIN
/// 0x700000..0x710000 (40), PCCSR 0x800000..0x900000 (35), FBPA
/// 0x9A0000..0x9B0000 (15). Every other offset gets the region-tag
/// fallback `fb`.
pub proof fn lemma_volta_domain_ranges(off: int, fb: (&'static str, u32))
    ensures
        ({
            let c = spec_classify_with_hint(spec_volta_domains(), off, fb);
            &&& 0x000000 <= off < 0x001000 ==> c == ("PMC", 3u32)
            &&& 0x001000 <= off < 0x002000 ==> c == ("PBUS", 5u32)
            &&& 0x002000 <= off < 0x004000 ==> c == ("PFIFO", 25u32)
            &&& 0x009000 <= off < 0x00A000 ==> c == ("PTIMER", 6u32)
            &&& 0x020000 <= off < 0x024000 ==> c == ("PTOP", 7u32)
            &&& 0x087000 <= off < 0x088000 ==> c == ("SEC2", 9u32)
            &&& 0x040000 <= off < 0x0A0000 && !(0x087000 <= off < 0x088000) ==> c == ("PBDMA", 26u32)
            &&& 0x100000 <= off < 0x102000 ==> c == ("PFB", 10u32)
            &&& 0x10A000 <= off < 0x10C000 ==> c == ("PMU", 20u32)
            &&& 0x122000 <= off < 0x123000 ==> c == ("PRI_MASTER", 4u32)
            &&& 0x130000 <= off < 0x136000 ==> c == ("CLK", 2u32)
            &&& 0x136000 <= off < 0x137000 ==> c == ("ROOT_PLL", 0u32)
            &&& 0x137000 <= off < 0x138000 ==> c == ("PCLOCK", 1u32)
            &&& 0x17E000 <= off < 0x190000 ==> c == ("LTC", 16u32)
            &&& 0x409000 <= off < 0x40A000 ==> c == ("FECS", 31u32)
            &&& 0x41A000 <= off < 0x41B000 ==> c == ("GPCCS", 32u32)
            &&& 0x400000 <= off < 0x420000 && !(0x409000 <= off < 0x40A000) && !(0x41A000 <= off
                < 0x41B000) ==> c == ("PGRAPH", 30u32)
            &&& 0x700000 <= off < 0x710000 ==> c == ("PRAMIN", 40u32)
            &&& 0x800000 <= off < 0x900000 ==> c == ("PCCSR", 35u32)
            &&& 0x9A0000 <= off < 0x9B0000 ==> c == ("FBPA", 15u32)
            &&& (off < 0 || 0x004000 <= off < 0x009000 || 0x00A000 <= off < 0x020000 || 0x024000 <= off
                < 0x040000 || 0x0A0000 <= off < 0x100000 || 0x102000 <= off < 0x10A000 || 0x10C000 <= off
                < 0x122000 || 0x123000 <= off < 0x130000 || 0x138000 <= off < 0x17E000 || 0x190000 <= off
                < 0x400000 || 0x420000 <= off < 0x700000 || 0x710000 <= off < 0x800000 || 0x900000 <= off
                < 0x9A0000 || 0x9B0000 <= off) ==> c == fb
        }),
{
    reveal_with_fuel(spec_lookup, 21);
}

/// Where the Kepler map puts each BAR0 offset, whatever the region tag:
/// PMC 0x000000..0x001000 (priority 3), PBUS ..0x002000 (5), PFIFO
/// ..0x004000 (25), PPCI 0x008800..0x009000 (8), PTIMER ..0x00A000 (6),
/// PTOP 0x020000..0x024000 (7), PBDMA 0x040000..0x0A0000 (26), PFB
/// 0x100000..0x100800 (10), FBHUB ..0x100C00 (11), PFB_NISO ..0x101000
/// (12), PCOPY 0x104000..0x105000 (27), PMU 0x10A000..0x10C000 (20),
/// PRI_MASTER 0x122000..0x123000 (4), CLK 0x130000..0x136000 (2), ROOT_PLL
/// ..0x137000 (0), PCLOCK ..0x138000 (1), LTC 0x17E000..0x190000 (16),
/// PGRAPH 0x400000..0x420000 (30), PRAMIN 0x700000..0x710000 (40), PCCSR
/// 0x800000..0x900000 (35), FBPA 0x9A0000..0x9B0000 (15). Every other
/// offset gets the region-tag fallback `fb`.
pub proof fn lemma_kepler_domain_ranges(off: int, fb: (&'static str, u32))
    ensures
        ({
            let c = spec_classify_with_hint(spec_kepler_domains(), off, fb);
            &&& 0x000000 <= off < 0x001000 ==> c == ("PMC", 3u32)
            &&& 0x001000 <= off < 0x002000 ==> c == ("PBUS", 5u32)
            &&& 0x002000 <= off < 0x004000 ==> c == ("PFIFO", 25u32)
            &&& 0x008800 <= off < 0x009000 ==> c == ("PPCI", 8u32)
            &&& 0x009000 <= off < 0x00A000 ==> c == ("PTIMER", 6u32)
            &&& 0x020000 <= off < 0x024000 ==> c == ("PTOP", 7u32)
            &&& 0x040000 <= off < 0x0A0000 ==> c == ("PBDMA", 26u32)
            &&& 0x100000 <= off < 0x100800 ==> c == ("PFB", 10u32)
            &&& 0x100800 <= off < 0x100C00 ==> c == ("FBHUB", 11u32)
            &&& 0x100C00 <= off < 0x101000 ==> c == ("PFB_NISO", 12u32)
            &&& 0x104000 <= off < 0x105000 ==> c == ("PCOPY", 27u32)
            &&& 0x10A000 <= off < 0x10C000 ==> c == ("PMU", 20u32)
            &&& 0x122000 <= off < 0x123000 ==> c == ("PRI_MASTER", 4u32)
            &&& 0x130000 <= off < 0x136000 ==> c == ("CLK", 2u32)
            &&& 0x136000 <= off < 0x137000 ==> c == ("ROOT_PLL", 0u32)
            &&& 0x137000 <= off < 0x138000 ==> c == ("PCLOCK", 1u32)
            &&& 0x17E000 <= off < 0x190000 ==> c == ("LTC", 16u32)
            &&& 0x400000 <= off < 0x420000 ==> c == ("PGRAPH", 30u32)
            &&& 0x700000 <= off < 0x710000 ==> c == ("PRAMIN", 40u32)
            &&& 0x800000 <= off < 0x900000 ==> c == ("PCCSR", 35u32)
            &&& 0x9A0000 <= off < 0x9B0000 ==> c == ("FBPA", 15u32)
            &&& (off < 0 || 0x004000 <= off < 0x008800 || 0x00A000 <= off < 0x020000 || 0x024000 <= off
                < 0x040000 || 0x0A0000 <= off < 0x100000 || 0x101000 <= off < 0x104000 || 0x105000 <= off
                < 0x10A000 || 0x10C000 <= off < 0x122000 || 0x123000 <= off < 0x130000 || 0x138000 <= off
                < 0x17E000 || 0x190000 <= off < 0x400000 || 0x420000 <= off < 0x700000 || 0x710000 <= off
                < 0x800000 || 0x900000 <= off < 0x9A0000 || 0x9B0000 <= off) ==> c == fb
        }),
{
    reveal_with_fuel(spec_lookup, 22);
}

/// Where the boot follower's own table puts each BAR0 offset: PMC
/// 0x000000..0x001000 (priority 3), PBUS ..0x002000 (5), PFIFO ..0x004000
/// (25), PTOP 0x020000..0x024000 (6), PBDMA 0x040000..0x0A0000 (26), PFB
/// 0x100000..0x100800 (10), FBHUB ..0x100C00 (11), PFB_NISO ..0x101000
/// (12), PMU 0x10A000..0x10C000 (20), PRI_MASTER 0x122000..0x123000 (4),
/// CLK 0x130000..0x136000 (2), ROOT_PLL ..0x137000 (0), PCLOCK ..0x138000
/// (1), LTC 0x17E000..0x190000 (16), PRAMIN 0x700000..0x710000 (35), PCCSR
/// 0x800000..0x900000 (30), FBPA 0x9A0000..0x9B0000 (15); every other
/// offset is ("UNKNOWN", 99).
pub proof fn lemma_legacy_domain_ranges(off: int)
    ensures
        ({
            let c = spec_classify(spec_legacy_domains(), off);
            &&& 0x000000 <= off < 0x001000 ==> c == ("PMC", 3u32)
            &&& 0x001000 <= off < 0x002000 ==> c == ("PBUS", 5u32)
            &&& 0x002000 <= off < 0x004000 ==> c == ("PFIFO", 25u32)
            &&& 0x020000 <= off < 0x024000 ==> c == ("PTOP", 6u32)
            &&& 0x040000 <= off < 0x0A0000 ==> c == ("PBDMA", 26u32)
            &&& 0x100000 <= off < 0x100800 ==> c == ("PFB", 10u32)
            &&& 0x100800 <= off < 0x100C00 ==> c == ("FBHUB", 11u32)
            &&& 0x100C00 <= off < 0x101000 ==> c == ("PFB_NISO", 12u32)
            &&& 0x10A000 <= off < 0x10C000 ==> c == ("PMU", 20u32)
            &&& 0x122000 <= off < 0x123000 ==> c == ("PRI_MASTER", 4u32)
            &&& 0x130000 <= off < 0x136000 ==> c == ("CLK", 2u32)
            &&& 0x136000 <= off < 0x137000 ==> c == ("ROOT_PLL", 0u32)
            &&& 0x137000 <= off < 0x138000 ==> c == ("PCLOCK", 1u32)
            &&& 0x17E000 <= off < 0x190000 ==> c == ("LTC", 16u32)
            &&& 0x700000 <= off < 0x710000 ==> c == ("PRAMIN", 35u32)
            &&& 0x800000 <= off < 0x900000 ==> c == ("PCCSR", 30u32)
            &&& 0x9A0000 <= off < 0x9B0000 ==> c == ("FBPA", 15u32)
            &&& (off < 0 || 0x004000 <= off < 0x020000 || 0x024000 <= off < 0x040000 || 0x0A0000 <= off
                < 0x100000 || 0x101000 <= off < 0x10A000 || 0x10C000 <= off < 0x122000 || 0x123000 <= off
                < 0x130000 || 0x138000 <= off < 0x17E000 || 0x190000 <= off < 0x700000 || 0x710000 <= off
                < 0x800000 || 0x900000 <= off < 0x9A0000 || 0x9B0000 <= off) ==> c == ("UNKNOWN", 99u32)
        }),
{
    reveal_with_fuel(spec_lookup, 18);
}

/// A region tag matches a name exactly when their characters agree.
pub proof fn lemma_hint_is_chars(hint: &str, s: &str)
    ensures
        hint_is(hint, s) <==> hint@ == s@,
{
    vstd::utf8::encode_utf8_decode_utf8(hint@);
    vstd::utf8::encode_utf8_decode_utf8(s@);
}

/// The region tags the Kepler map falls back on for an offset outside its
/// table: PCLOCK (priority 1), PMC (3), PTIMER (6), PFB (10), PFIFO (25),
/// PGRAPH (30), PCOPY (27), PBUS (5), PROM (50), PPCI (8); any other tag
/// gives ("UNKNOWN", 99).
pub proof fn lemma_kepler_region_tags(hint: &str)
    ensures
        hint@ == "PCLOCK"@ ==> spec_kepler_hint(hint) == ("PCLOCK", 1u32),
        hint@ == "PMC"@ ==> spec_kepler_hint(hint) == ("PMC", 3u32),
        hint@ == "PTIMER"@ ==> spec_kepler_hint(hint) == ("PTIMER", 6u32),
        hint@ == "PFB"@ ==> spec_kepler_hint(hint) == ("PFB", 10u32),
        hint@ == "PFIFO"@ ==> spec_kepler_hint(hint) == ("PFIFO", 25u32),
        hint@ == "PGRAPH"@ ==> spec_kepler_hint(hint) == ("PGRAPH", 30u32),
        hint@ == "PCOPY"@ ==> spec_kepler_hint(hint) == ("PCOPY", 27u32),
        hint@ == "PBUS"@ ==> spec_kepler_hint(hint) == ("PBUS", 5u32),
        hint@ == "PROM"@ ==> spec_kepler_hint(hint) == ("PROM", 50u32),
        hint@ == "PPCI"@ ==> spec_kepler_hint(hint) == ("PPCI", 8u32),
        hint@ != "PCLOCK"@ && hint@ != "PMC"@ && hint@ != "PTIMER"@ && hint@ != "PFB"@ && hint@ != "PFIFO"@
            && hint@ != "PGRAPH"@ && hint@ != "PCOPY"@ && hint@ != "PBUS"@ && hint@ != "PROM"@ && hint@
            != "PPCI"@ ==> spec_kepler_hint(hint) == ("UNKNOWN", 99u32),
{
    lemma_hint_is_chars(hint, "PCLOCK");
    lemma_hint_is_chars(hint, "PMC");
    lemma_hint_is_chars(hint, "PTIMER");
    lemma_hint_is_chars(hint, "PFB");
    lemma_hint_is_chars(hint, "PFIFO");
    lemma_hint_is_chars(hint, "PGRAPH");
    lemma_hint_is_chars(hint, "PCOPY");
    lemma_hint_is_chars(hint, "PBUS");
    lemma_hint_is_chars(hint, "PROM");
    lemma_hint_is_chars(hint, "PPCI");
    reveal_strlit("PCLOCK");
    reveal_strlit("PMC");
    reveal_strlit("PTIMER");
    reveal_strlit("PFB");
    reveal_strlit("PFIFO");
    reveal_strlit("PGRAPH");
    reveal_strlit("PCOPY");
    reveal_strlit("PBUS");
    reveal_strlit("PROM");
    reveal_strlit("PPCI");
    assert("PCLOCK"@.len() == 6 && "PTIMER"@.len() == 6 && "PGRAPH"@.len() == 6);
    assert("PMC"@.len() == 3 && "PFB"@.len() == 3);
    assert("PFIFO"@.len() == 5 && "PCOPY"@.len() == 5);
    assert("PBUS"@.len() == 4 && "PROM"@.len() == 4 && "PPCI"@.len() == 4);
    assert("PTIMER"@[1] != "PCLOCK"@[1]);
    assert("PGRAPH"@[1] != "PCLOCK"@[1]);
    assert("PGRAPH"@[1] != "PTIMER"@[1]);
    assert("PFB"@[1] != "PMC"@[1]);
    assert("PCOPY"@[1] != "PFIFO"@[1]);
    assert("PROM"@[1] != "PBUS"@[1]);
    assert("PPCI"@[1] != "PBUS"@[1]);
    assert("PPCI"@[1] != "PROM"@[1]);
}

/// The region tags the Volta map falls back on for an offset outside its
/// table: PCLOCK (priority 1), PMC (3), PTIMER (6), SEC2 (9), PFB (10),
/// PFIFO (25), PGRAPH (30), PBUS (5); any other tag gives ("UNKNOWN", 99).
pub proof fn lemma_volta_region_tags(hint: &str)
    ensures
        hint@ == "PCLOCK"@ ==> spec_volta_hint(hint) == ("PCLOCK", 1u32),
        hint@ == "PMC"@ ==> spec_volta_hint(hint) == ("PMC", 3u32),
        hint@ == "PTIMER"@ ==> spec_volta_hint(hint) == ("PTIMER", 6u32),
        hint@ == "SEC2"@ ==> spec_volta_hint(hint) == ("SEC2", 9u32),
        hint@ == "PFB"@ ==> spec_volta_hint(hint) == ("PFB", 10u32),
        hint@ == "PFIFO"@ ==> spec_volta_hint(hint) == ("PFIFO", 25u32),
        hint@ == "PGRAPH"@ ==> spec_volta_hint(hint) == ("PGRAPH", 30u32),
        hint@ == "PBUS"@ ==> spec_volta_hint(hint) == ("PBUS", 5u32),
        hint@ != "PCLOCK"@ && hint@ != "PMC"@ && hint@ != "PTIMER"@ && hint@ != "SEC2"@ && hint@ != "PFB"@
            && hint@ != "PFIFO"@ && hint@ != "PGRAPH"@ && hint@ != "PBUS"@ ==> spec_volta_hint(hint) == (
            "UNKNOWN",
            99u32,
        ),
{
    lemma_hint_is_chars(hint, "PCLOCK");
    lemma_hint_is_chars(hint, "PMC");
    lemma_hint_is_chars(hint, "PTIMER");
    lemma_hint_is_chars(hint, "SEC2");
    lemma_hint_is_chars(hint, "PFB");
    lemma_hint_is_chars(hint, "PFIFO");
    lemma_hint_is_chars(hint, "PGRAPH");
    lemma_hint_is_chars(hint, "PBUS");
    reveal_strlit("PCLOCK");
    reveal_strlit("PMC");
    reveal_strlit("PTIMER");
    reveal_strlit("SEC2");
    reveal_strlit("PFB");
    reveal_strlit("PFIFO");
    reveal_strlit("PGRAPH");
    reveal_strlit("PBUS");
    assert("PCLOCK"@.len() == 6 && "PTIMER"@.len() == 6 && "PGRAPH"@.len() == 6);
    assert("PMC"@.len() == 3 && "PFB"@.len() == 3);
    assert("PFIFO"@.len() == 5);
    assert("SEC2"@.len() == 4 && "PBUS"@.len() == 4);
    assert("PTIMER"@[1] != "PCLOCK"@[1]);
    assert("PGRAPH"@[1] != "PCLOCK"@[1]);
    assert("PGRAPH"@[1] != "PTIMER"@[1]);
    assert("PFB"@[1] != "PMC"@[1]);
    assert("PBUS"@[0] != "SEC2"@[0]);
}

/// The domain map of one architecture.
#[derive(Debug, Clone, Copy, PartialEq, Eq)]
pub enum ArchDomainMap {
    Kepler,
    Volta,
    Rdna,
}

impl DomainMap for ArchDomainMap {
    fn classify(&self, offset: usize, region_hint: &str) -> (r: (&'static str, u32))
        ensures
            r == match *self {
                ArchDomainMap::Kepler => spec_classify_with_hint(
                    spec_kepler_domains(),
                    offset as int,
                    spec_kepler_hint(region_hint),
                ),
                ArchDomainMap::Volta => spec_classify_with_hint(
                    spec_volta_domains(),
                    offset as int,
                    spec_volta_hint(region_hint),
                ),
                ArchDomainMap::Rdna => spec_classify_with_hint(
                    crate::sovereign_boot::spec_rdna2_domains(),
                    offset as int,
                    crate::sovereign_boot::spec_rdna_hint(region_hint),
                ),
            },
    {
        match self {
            ArchDomainMap::Kepler => KeplerDomainMap.classify(offset, region_hint),
            ArchDomainMap::Volta => VoltaDomainMap.classify(offset, region_hint),
            ArchDomainMap::Rdna => crate::sovereign_boot::RdnaDomainMap.classify(offset, region_hint),
        }
    }

    fn domain_table(&self) -> (r: Vec<DomainRange>)
        ensures
            r@ == match *self {
                ArchDomainMap::Kepler => spec_kepler_domains(),
                ArchDomainMap::Volta => spec_volta_domains(),
                ArchDomainMap::Rdna => crate::sovereign_boot::spec_rdna2_domains(),
            },
    {
        match self {
            ArchDomainMap::Kepler => kepler_domains(),
            ArchDomainMap::Volta => volta_domains(),
            ArchDomainMap::Rdna => crate::sovereign_boot::rdna2_domains(),
        }
    }
}

/// A discrete phase in a GPU sovereign boot sequence.
#[derive(Debug, Clone, Copy, PartialEq, Eq)]
pub struct BootPhase {
    pub name: &'static str,
    /// Minimum recipe priority to include in this phase.
    pub priority_min: u32,
    /// Maximum recipe priority (exclusive) for this phase.
    pub priority_max: u32,
    /// Whether this phase is mandatory for boot to proceed.
    pub required: bool,
}

/// Init recipe step extracted from a boot diff.
#[derive(Debug, PartialEq, Eq)]
pub struct RecipeStep {
    pub domain: String,
    pub offset: usize,
    pub value: u32,
    pub priority: u32,
}

impl Clone for RecipeStep {
    fn clone(&self) -> (r: Self)
        ensures
            r == *self,
    {
        RecipeStep {
            domain: self.domain.clone(),
            offset: self.offset,
            value: self.value,
            priority: self.priority,
        }
    }
}

impl BootPhase {
    /// The step's priority lies in this phase's `[min, max)` window.
    pub open spec fn holds(self, s: RecipeStep) -> bool {
        self.priority_min <= s.priority < self.priority_max
    }

    /// Filter recipe steps belonging to this phase, in recipe order.
    pub fn filter_steps<'a>(&self, recipe: &'a [RecipeStep]) -> (r: Vec<&'a RecipeStep>)
        ensures
            r@.map_values(|p: &RecipeStep| *p) == recipe@.filter(|s: RecipeStep| self.holds(s)),
    {
        let mut out: Vec<&'a RecipeStep> = Vec::new();
        let mut i: usize = 0;
        while i < recipe.len()
            invariant
                i <= recipe@.len(),
                out@.map_values(|p: &RecipeStep| *p) == recipe@.subrange(0, i as int).filter(
                    |s: RecipeStep| self.holds(s),
                ),
            decreases recipe.len() - i,
        {
            let s = &recipe[i];
            proof {
                let pred = |s: RecipeStep| self.holds(s);
                assert(recipe@.subrange(0, i + 1) =~= recipe@.subrange(0, i as int).push(recipe@[i as int]));
                recipe@.subrange(0, i as int).lemma_filter_push(recipe@[i as int], pred);
            }
            if s.priority >= self.priority_min && s.priority < self.priority_max {
                out.push(s);
                proof {
                    assert(out@.map_values(|p: &RecipeStep| *p) =~= recipe@.subrange(0, i + 1).filter(
                        |s: RecipeStep| self.holds(s)));
                }
            } else {
                proof {
                    assert(out@.map_values(|p: &RecipeStep| *p) =~= recipe@.subrange(0, i + 1).filter(
                        |s: RecipeStep| self.holds(s)));
                }
            }
            i = i + 1;
        }
        proof {
            assert(recipe@.subrange(0, recipe@.len() as int) =~= recipe@);
        }
        out
    }
}

impl BootPhase {
    /// Copies of the recipe steps belonging to this phase, in recipe order.
    pub fn select_steps(&self, recipe: &[RecipeStep]) -> (r: Vec<RecipeStep>)
        ensures
            r@ == recipe@.filter(|s: RecipeStep| self.holds(s)),
    {
        let mut out: Vec<RecipeStep> = Vec::new();
        let mut i: usize = 0;
        while i < recipe.len()
            invariant
                i <= recipe@.len(),
                out@ == recipe@.subrange(0, i as int).filter(|s: RecipeStep| self.holds(s)),
            decreases recipe.len() - i,
        {
            proof {
                assert(recipe@.subrange(0, i + 1) =~= recipe@.subrange(0, i as int).push(recipe@[i as int]));
                recipe@.subrange(0, i as int).lemma_filter_push(
                    recipe@[i as int],
                    |s: RecipeStep| self.holds(s),
                );
            }
            if recipe[i].priority >= self.priority_min && recipe[i].priority < self.priority_max {
                out.push(recipe[i].clone());
            }
            i = i + 1;
        }
        proof {
            assert(recipe@.subrange(0, recipe@.len() as int) =~= recipe@);
        }
        out
    }
}

/// Ordered boot sequence for a GPU architecture.
pub trait BootSequence: core::fmt::Debug {
    fn phases(&self) -> Vec<BootPhase>;

    fn domain_map(&self) -> ArchDomainMap;

    fn description(&self) -> &'static str;
}

pub open spec fn bp(name: &'static str, lo: u32, hi: u32, required: bool) -> BootPhase {
    BootPhase { name, priority_min: lo, priority_max: hi, required }
}

/// Kepler boot phases in dependency order.
pub open spec fn spec_kepler_phases() -> Seq<BootPhase> {
    seq![
        bp("clock", 0, 3, true),
        bp("devinit", 3, 30, true),
        bp("pgraph", 30, 35, false),
        bp("extended", 35, 100, false),
    ]
}

/// Kepler boot phases in dependency order.
pub fn kepler_phases() -> (r: Vec<BootPhase>)
    ensures
        r@ == spec_kepler_phases(),
{
    let r = vec![
        BootPhase { name: "clock", priority_min: 0, priority_max: 3, required: true },
        BootPhase { name: "devinit", priority_min: 3, priority_max: 30, required: true },
        BootPhase { name: "pgraph", priority_min: 30, priority_max: 35, required: false },
        BootPhase { name: "extended", priority_min: 35, priority_max: 100, required: false },
    ];
    proof {
        assert(r@ =~= spec_kepler_phases());
    }
    r
}

/// Volta boot phases in dependency order; the clock phase is optional
/// (clocks often survive from a previous driver session).
pub open spec fn spec_volta_phases() -> Seq<BootPhase> {
    seq![
        bp("clock", 0, 3, false),
        bp("devinit", 3, 30, true),
        bp("pgraph", 30, 33, true),
        bp("acr_boot", 33, 35, true),
        bp("extended", 35, 100, false),
    ]
}

/// Volta boot phases in dependency order.
pub fn volta_phases() -> (r: Vec<BootPhase>)
    ensures
        r@ == spec_volta_phases(),
{
    let r = vec![
        BootPhase { name: "clock", priority_min: 0, priority_max: 3, required: false },
        BootPhase { name: "devinit", priority_min: 3, priority_max: 30, required: true },
        BootPhase { name: "pgraph", priority_min: 30, priority_max: 33, required: true },
        BootPhase { name: "acr_boot", priority_min: 33, priority_max: 35, required: true },
        BootPhase { name: "extended", priority_min: 35, priority_max: 100, required: false },
    ];
    proof {
        assert(r@ =~= spec_volta_phases());
    }
    r
}

/// Kepler boot sequence: Clock -> Devinit -> PGRAPH -> FECS PIO.
#[derive(Debug)]
pub struct KeplerBootSequence;

impl BootSequence for KeplerBootSequence {
    fn phases(&self) -> (r: Vec<BootPhase>)
        ensures
            r@ == spec_kepler_phases(),
    {
        kepler_phases()
    }

    fn domain_map(&self) -> (r: ArchDomainMap)
        ensures
            r == ArchDomainMap::Kepler,
    {
        ArchDomainMap::Kepler
    }

    fn description(&self) -> (r: &'static str)
        ensures
            r == "Kepler (GK1xx): PLL clock -> devinit -> PGRAPH -> FECS PIO boot",
    {
        "Kepler (GK1xx): PLL clock -> devinit -> PGRAPH -> FECS PIO boot"
    }
}

/// Volta boot sequence: (clock probe) -> Devinit -> ACR/SEC2 -> FECS/GPCCS.
#[derive(Debug)]
pub struct VoltaBootSequence;

impl BootSequence for VoltaBootSequence {
    fn phases(&self) -> (r: Vec<BootPhase>)
        ensures
            r@ == spec_volta_phases(),
    {
        volta_phases()
    }

    fn domain_map(&self) -> (r: ArchDomainMap)
        ensures
            r == ArchDomainMap::Volta,
    {
        ArchDomainMap::Volta
    }

    fn description(&self) -> (r: &'static str)
        ensures
            r == "Volta (GV1xx): clock probe -> devinit -> PGRAPH -> ACR/SEC2 -> FECS signed boot",
    {
        "Volta (GV1xx): clock probe -> devinit -> PGRAPH -> ACR/SEC2 -> FECS signed boot"
    }
}

// ── Recipes from traces and diffs ────────────────────────────────────────

/// A recipe step as plain values: (domain, offset, value, priority).
pub open spec fn step_view(s: RecipeStep) -> (Seq<char>, usize, u32, u32) {
    (s.domain@, s.offset, s.value, s.priority)
}

/// The plain values of a list of recipe steps.
pub open spec fn steps_view(s: Seq<RecipeStep>) -> Seq<(Seq<char>, usize, u32, u32)> {
    s.map_values(|x: RecipeStep| step_view(x))
}

/// Key of a recipe step: its priority.
pub open spec fn by_priority() -> spec_fn((Seq<char>, usize, u32, u32)) -> int {
    |v: (Seq<char>, usize, u32, u32)| v.3 as int
}

/// Stably sort recipe steps by priority: lower priorities first, and
/// steps of equal priority in their original order.
pub fn sort_steps_by_priority(steps: Vec<RecipeStep>) -> (r: Vec<RecipeStep>)
    ensures
        stable_sorted_of(steps_view(r@), steps_view(steps@), by_priority()),
{
    let ghost src = steps_view(steps@);
    let mut rest = steps;
    let mut out: Vec<RecipeStep> = Vec::new();
    proof {
        lemma_stable_empty(by_priority());
        assert(src.subrange(0, 0) =~= Seq::<(Seq<char>, usize, u32, u32)>::empty());
        assert(steps_view(out@) =~= Seq::<(Seq<char>, usize, u32, u32)>::empty());
        assert(steps_view(rest@) =~= src.subrange(0, src.len() as int));
    }
    let ghost mut i: int = 0;
    while rest.len() > 0
        invariant
            0 <= i <= src.len(),
            steps_view(rest@) == src.subrange(i, src.len() as int),
            stable_sorted_of(steps_view(out@), src.subrange(0, i), by_priority()),
        decreases rest.len(),
    {
        let ghost rb = rest@;
        let x = rest.remove(0);
        proof {
            assert(steps_view(rb)[0] == step_view(x));
            assert(steps_view(rb).len() == rb.len());
            assert(i < src.len());
            assert(src.subrange(i, src.len() as int)[0] == src[i]);
            assert(step_view(x) == src[i]);
            assert(rest@ =~= rb.subrange(1, rb.len() as int));
            assert forall|k: int| 0 <= k < rest@.len() implies steps_view(rest@)[k] == src[i + 1 + k] by {
                assert(rest@[k] == rb[k + 1]);
                assert(steps_view(rb)[k + 1] == src.subrange(i, src.len() as int)[k + 1]);
            }
            assert(steps_view(rest@) =~= src.subrange(i + 1, src.len() as int));
        }
        let mut j: usize = 0;
        while j < out.len() && out[j].priority <= x.priority
            invariant
                j <= out@.len(),
                forall|k: int| 0 <= k < j ==> out@[k].priority <= x.priority,
            decreases out.len() - j,
        {
            j = j + 1;
        }
        proof {
            let ov = steps_view(out@);
            assert forall|k: int| j <= k < ov.len() implies (by_priority())(ov[k]) > (by_priority())(
                step_view(x),
            ) by {
                assert((by_priority())(ov[j as int]) <= (by_priority())(ov[k]));
            }
            lemma_stable_insert(ov, src.subrange(0, i), step_view(x), j as int, by_priority());
            assert(src.subrange(0, i).push(step_view(x)) =~= src.subrange(0, i + 1));
        }
        let ghost ob = out@;
        out.insert(j, x);
        proof {
            assert(steps_view(out@) =~= steps_view(ob).insert(j as int, step_view(x)));
            i = i + 1;
        }
    }
    proof {
        assert(src.subrange(0, src.len() as int) =~= src);
    }
    out
}

/// Key of a recipe step for replay order: priority, then offset.
pub open spec fn by_priority_offset() -> spec_fn((Seq<char>, usize, u32, u32)) -> int {
    |v: (Seq<char>, usize, u32, u32)| v.3 as int * 0x1_0000_0000_0000_0000 + v.1 as int
}

/// Stably sort recipe steps by (priority, offset).
pub fn sort_steps_by_priority_offset(steps: Vec<RecipeStep>) -> (r: Vec<RecipeStep>)
    ensures
        stable_sorted_of(steps_view(r@), steps_view(steps@), by_priority_offset()),
{
    let ghost src = steps_view(steps@);
    let mut rest = steps;
    let mut out: Vec<RecipeStep> = Vec::new();
    proof {
        lemma_stable_empty(by_priority_offset());
        assert(src.subrange(0, 0) =~= Seq::<(Seq<char>, usize, u32, u32)>::empty());
        assert(steps_view(out@) =~= Seq::<(Seq<char>, usize, u32, u32)>::empty());
        assert(steps_view(rest@) =~= src.subrange(0, src.len() as int));
    }
    let ghost mut i: int = 0;
    while rest.len() > 0
        invariant
            0 <= i <= src.len(),
            steps_view(rest@) == src.subrange(i, src.len() as int),
            stable_sorted_of(steps_view(out@), src.subrange(0, i), by_priority_offset()),
        decreases rest.len(),
    {
        let ghost rb = rest@;
        let x = rest.remove(0);
        proof {
            assert(steps_view(rb)[0] == step_view(x));
            assert(steps_view(rb).len() == rb.len());
            assert(i < src.len());
            assert(src.subrange(i, src.len() as int)[0] == src[i]);
            assert(step_view(x) == src[i]);
            assert(rest@ =~= rb.subrange(1, rb.len() as int));
            assert forall|k: int| 0 <= k < rest@.len() implies steps_view(rest@)[k] == src[i + 1 + k] by {
                assert(rest@[k] == rb[k + 1]);
                assert(steps_view(rb)[k + 1] == src.subrange(i, src.len() as int)[k + 1]);
            }
            assert(steps_view(rest@) =~= src.subrange(i + 1, src.len() as int));
        }
        let mut j: usize = 0;
        while j < out.len() && (out[j].priority < x.priority || (out[j].priority == x.priority
            && out[j].offset <= x.offset))
            invariant
                j <= out@.len(),
                forall|k: int| 0 <= k < j ==> (by_priority_offset())(step_view(out@[k])) <= (
                by_priority_offset())(step_view(x)),
            decreases out.len() - j,
        {
            j = j + 1;
        }
        proof {
            let ov = steps_view(out@);
            assert forall|k: int| j <= k < ov.len() implies (by_priority_offset())(ov[k]) > (
            by_priority_offset())(step_view(x)) by {
                assert((by_priority_offset())(ov[j as int]) <= (by_priority_offset())(ov[k]));
            }
            assert forall|k: int| 0 <= k < j implies (by_priority_offset())(ov[k]) <= (
            by_priority_offset())(step_view(x)) by {
                assert(ov[k] == step_view(out@[k]));
            }
            lemma_stable_insert(ov, src.subrange(0, i), step_view(x), j as int, by_priority_offset());
            assert(src.subrange(0, i).push(step_view(x)) =~= src.subrange(0, i + 1));
        }
        let ghost ob = out@;
        out.insert(j, x);
        proof {
            assert(steps_view(out@) =~= steps_view(ob).insert(j as int, step_view(x)));
            i = i + 1;
        }
    }
    proof {
        assert(src.subrange(0, src.len() as int) =~= src);
    }
    out
}

/// The BAR0 offset of a traced MMIO address: relative to the BAR0 base
/// when one is known and the address lies at or above it, the address
/// itself otherwise; `None` past the 16 MiB BAR0 window.
pub open spec fn spec_bar0_offset(addr: u64, bar0_base: Option<u64>) -> Option<usize> {
    let base: u64 = match bar0_base {
        Some(b) => b,
        None => 0,
    };
    let off: u64 = if addr >= base && base > 0 {
        (addr - base) as u64
    } else {
        addr
    };
    if off > 0x0100_0000 {
        None
    } else {
        Some(off as usize)
    }
}

/// The BAR0 offset of a traced MMIO address (see [`spec_bar0_offset`]).
pub fn bar0_offset(addr: u64, bar0_base: Option<u64>) -> (r: Option<usize>)
    ensures
        r == spec_bar0_offset(addr, bar0_base),
{
    let base: u64 = match bar0_base {
        Some(b) => b,
        None => 0,
    };
    let off: u64 = if addr >= base && base > 0 {
        addr - base
    } else {
        addr
    };
    if off > 0x0100_0000 {
        None
    } else {
        Some(off as usize)
    }
}

/// A single MMIO write operation parsed from an mmiotrace log.
#[derive(Debug, Clone, Copy)]
pub struct MmioWrite {
    pub timestamp_us: u64,
    pub offset: usize,
    pub value: u32,
    pub width: u8,
}

/// A single MMIO read operation parsed from an mmiotrace log.
#[derive(Debug, Clone, Copy)]
pub struct MmioRead {
    pub timestamp_us: u64,
    pub offset: usize,
    pub value: u32,
}

/// A parsed boot sequence.
#[derive(Debug, Clone)]
pub struct BootTrace {
    /// All write operations in order.
    pub writes: Vec<MmioWrite>,
    /// All read operations in order.
    pub reads: Vec<MmioRead>,
    /// Driver that produced this trace.
    pub driver: String,
    /// Total duration in microseconds.
    pub duration_us: u64,
}

/// The recipe step of one traced write, classified by the boot follower's
/// domain table.
pub open spec fn write_step(w: MmioWrite) -> (Seq<char>, usize, u32, u32) {
    let (name, prio) = spec_classify(spec_legacy_domains(), w.offset as int);
    (name@, w.offset, w.value, prio)
}

/// The write lies in `[start, end)`.
pub open spec fn write_in(w: MmioWrite, start: usize, end: usize) -> bool {
    start <= w.offset < end
}

/// The steps of one domain stand together in a recipe built from a trace:
/// between two steps of the same domain every step is of that domain. The
/// recipe is ordered by priority, and each domain of the classification
/// table has a priority of its own.
pub proof fn lemma_recipe_domains_contiguous(trace: BootTrace, r: Seq<(Seq<char>, usize, u32, u32)>)
    requires
        stable_sorted_of(r, trace.writes@.map_values(|w: MmioWrite| write_step(w)), by_priority()),
    ensures
        forall|i: int, j: int, k: int|
            #![trigger r[i], r[j], r[k]]
            0 <= i < j < k < r.len() && r[i].0 == r[k].0 ==> r[j].0 == r[i].0,
{
    let s = trace.writes@.map_values(|w: MmioWrite| write_step(w));
    assert forall|x: int| 0 <= x < r.len() implies #[trigger] r[x].3 == legacy_priority_of(r[x].0) && r[x].0
        == legacy_name_of(r[x].3) by {
        crate::stable_sort::lemma_stable_elements(r, s, by_priority(), x);
        let m = choose|m: int| 0 <= m < s.len() && s[m] == r[x];
        lemma_legacy_domain_priority(trace.writes@[m].offset as int);
    }
    assert forall|i: int, j: int, k: int|
        #![trigger r[i], r[j], r[k]]
        0 <= i < j < k < r.len() && r[i].0 == r[k].0 implies r[j].0 == r[i].0 by {
        assert((by_priority())(r[i]) <= (by_priority())(r[j]));
        assert((by_priority())(r[j]) <= (by_priority())(r[k]));
        assert(r[i].3 == legacy_priority_of(r[i].0));
        assert(r[k].3 == legacy_priority_of(r[k].0));
        assert(r[j].0 == legacy_name_of(r[j].3));
        assert(r[i].0 == legacy_name_of(r[i].3));
    }
}

impl BootTrace {
    /// Domain-classified write sequence in replay order: the writes as
    /// recipe steps, stably sorted by priority (the trace order is kept
    /// within each priority).
    pub fn to_recipe(&self) -> (r: Vec<RecipeStep>)
        ensures
            stable_sorted_of(
                steps_view(r@),
                self.writes@.map_values(|w: MmioWrite| write_step(w)),
                by_priority(),
            ),
    {
        let mut steps: Vec<RecipeStep> = Vec::new();
        let mut i: usize = 0;
        while i < self.writes.len()
            invariant
                i <= self.writes@.len(),
                steps_view(steps@) == self.writes@.subrange(0, i as int).map_values(
                    |w: MmioWrite| write_step(w),
                ),
            decreases self.writes.len() - i,
        {
            let w = self.writes[i];
            let (domain, priority) = classify_domain(w.offset);
            let ghost sb = steps@;
            steps.push(
                RecipeStep { domain: String::from_str(domain), offset: w.offset, value: w.value, priority },
            );
            proof {
                assert(self.writes@.subrange(0, i + 1) =~= self.writes@.subrange(0, i as int).push(w));
                assert(steps_view(steps@) =~= steps_view(sb).push(write_step(w)));
                assert(self.writes@.subrange(0, i + 1).map_values(|w: MmioWrite| write_step(w))
                    =~= self.writes@.subrange(0, i as int).map_values(|w: MmioWrite| write_step(w)).push(
                    write_step(w),
                ));
            }
            i = i + 1;
        }
        proof {
            assert(self.writes@.subrange(0, self.writes@.len() as int) =~= self.writes@);
        }
        sort_steps_by_priority(steps)
    }

    /// The writes to registers in `[start, end)`, in trace order.
    pub fn domain_writes(&self, start: usize, end: usize) -> (r: Vec<&MmioWrite>)
        ensures
            r@.map_values(|p: &MmioWrite| *p) == self.writes@.filter(
                |w: MmioWrite| write_in(w, start, end),
            ),
    {
        let mut out: Vec<&MmioWrite> = Vec::new();
        let mut i: usize = 0;
        while i < self.writes.len()
            invariant
                i <= self.writes@.len(),
                out@.map_values(|p: &MmioWrite| *p) == self.writes@.subrange(0, i as int).filter(
                    |w: MmioWrite| write_in(w, start, end),
                ),
            decreases self.writes.len() - i,
        {
            let w = &self.writes[i];
            proof {
                let pred = |w: MmioWrite| write_in(w, start, end);
                assert(self.writes@.subrange(0, i + 1) =~= self.writes@.subrange(0, i as int).push(
                    self.writes@[i as int],
                ));
                self.writes@.subrange(0, i as int).lemma_filter_push(self.writes@[i as int], pred);
            }
            if w.offset >= start && w.offset < end {
                out.push(w);
                proof {
                    assert(out@.map_values(|p: &MmioWrite| *p) =~= self.writes@.subrange(0, i + 1).filter(
                        |w: MmioWrite| write_in(w, start, end),
                    ));
                }
            } else {
                proof {
                    assert(out@.map_values(|p: &MmioWrite| *p) =~= self.writes@.subrange(0, i + 1).filter(
                        |w: MmioWrite| write_in(w, start, end),
                    ));
                }
            }
            i = i + 1;
        }
        proof {
            assert(self.writes@.subrange(0, self.writes@.len() as int) =~= self.writes@);
        }
        out
    }

    /// Number of writes per domain: one entry for each domain that has a
    /// write, in the order of the boot follower's domain table, "UNKNOWN"
    /// last.
    pub fn domain_summary(&self) -> (r: Vec<(&'static str, usize)>)
        ensures
            r@ == summary_from(self.writes@, 0),
    {
        let counts = count_by_domain(&self.writes);
        let mut out: Vec<(&'static str, usize)> = Vec::new();
        let mut d: usize = PRI_DOMAIN_COUNT;
        proof {
            assert(out@ =~= summary_from(self.writes@, d as int));
        }
        while d > 0
            invariant
                d <= PRI_DOMAIN_COUNT,
                counts@.len() == PRI_DOMAIN_COUNT,
                forall|k: int| 0 <= k < PRI_DOMAIN_COUNT ==> #[trigger] counts@[k] == writes_in_domain(
                    self.writes@,
                    k,
                ),
                out@ == summary_from(self.writes@, d as int),
            decreases d,
        {
            d = d - 1;
            let c = counts[d];
            if c > 0 {
                let name = pri_domain_name(d);
                out.insert(0, (name, c));
                proof {
                    assert(out@ =~= seq![(name, c)] + summary_from(self.writes@, d + 1));
                }
            }
        }
        out
    }
}

/// Number of writes whose register lies in PRI domain `d`.
pub open spec fn writes_in_domain(ws: Seq<MmioWrite>, d: int) -> usize {
    ws.filter(|w: MmioWrite| spec_pri_domain(w.offset as int) == d).len() as usize
}

/// The name of PRI domain `d`: its entry of the domain table, or "UNKNOWN".
pub open spec fn spec_domain_name(d: int) -> &'static str {
    if d < spec_legacy_domains().len() {
        spec_legacy_domains()[d].name
    } else {
        "UNKNOWN"
    }
}

/// (name, write count) for the domains from `d` on that have writes.
pub open spec fn summary_from(ws: Seq<MmioWrite>, d: int) -> Seq<(&'static str, usize)>
    decreases PRI_DOMAIN_COUNT - d,
{
    if d >= PRI_DOMAIN_COUNT || d < 0 {
        Seq::empty()
    } else if writes_in_domain(ws, d) > 0 {
        seq![(spec_domain_name(d), writes_in_domain(ws, d))] + summary_from(ws, d + 1)
    } else {
        summary_from(ws, d + 1)
    }
}

/// The sum of the counts of a domain summary.
pub open spec fn summary_total(s: Seq<(&'static str, usize)>) -> int
    decreases s.len(),
{
    if s.len() == 0 {
        0
    } else {
        s[0].1 + summary_total(s.drop_first())
    }
}

/// The writes of domains `d` and later.
pub open spec fn writes_from_domain(ws: Seq<MmioWrite>, d: int) -> int
    decreases PRI_DOMAIN_COUNT - d,
{
    if d >= PRI_DOMAIN_COUNT || d < 0 {
        0
    } else {
        ws.filter(|w: MmioWrite| spec_pri_domain(w.offset as int) == d).len() + writes_from_domain(ws, d + 1)
    }
}

proof fn lemma_writes_from_domain_push(ws: Seq<MmioWrite>, w: MmioWrite, d: int)
    requires
        0 <= d,
    ensures
        writes_from_domain(ws.push(w), d) == writes_from_domain(ws, d) + if d <= spec_pri_domain(
            w.offset as int,
        ) < PRI_DOMAIN_COUNT {
            1int
        } else {
            0int
        },
    decreases PRI_DOMAIN_COUNT - d,
{
    if d < PRI_DOMAIN_COUNT {
        lemma_writes_from_domain_push(ws, w, d + 1);
        Seq::lemma_filter_push(ws, w, |x: MmioWrite| spec_pri_domain(x.offset as int) == d);
    }
}

proof fn lemma_writes_from_domain_all(ws: Seq<MmioWrite>)
    ensures
        writes_from_domain(ws, 0) == ws.len(),
    decreases ws.len(),
{
    if ws.len() == 0 {
        lemma_writes_from_domain_empty(ws, 0);
    } else {
        let init = ws.drop_last();
        lemma_writes_from_domain_all(init);
        assert(ws =~= init.push(ws.last()));
        lemma_writes_from_domain_push(init, ws.last(), 0);
        crate::bus::lemma_pri_domain_bound(ws.last().offset as int);
    }
}

proof fn lemma_writes_from_domain_empty(ws: Seq<MmioWrite>, d: int)
    requires
        ws.len() == 0,
        0 <= d,
    ensures
        writes_from_domain(ws, d) == 0,
    decreases PRI_DOMAIN_COUNT - d,
{
    if d < PRI_DOMAIN_COUNT {
        lemma_writes_from_domain_empty(ws, d + 1);
        assert(ws.filter(|w: MmioWrite| spec_pri_domain(w.offset as int) == d) =~= Seq::<MmioWrite>::empty());
    }
}

proof fn lemma_summary_total_from(ws: Seq<MmioWrite>, d: int)
    requires
        0 <= d,
        ws.len() <= usize::MAX,
    ensures
        summary_total(summary_from(ws, d)) == writes_from_domain(ws, d),
    decreases PRI_DOMAIN_COUNT - d,
{
    if d < PRI_DOMAIN_COUNT {
        lemma_summary_total_from(ws, d + 1);
        let f = ws.filter(|w: MmioWrite| spec_pri_domain(w.offset as int) == d);
        ws.lemma_filter_len(|w: MmioWrite| spec_pri_domain(w.offset as int) == d);
        assert(f.len() <= usize::MAX);
        if writes_in_domain(ws, d) > 0 {
            let s = summary_from(ws, d);
            assert(s.drop_first() =~= summary_from(ws, d + 1));
        }
    }
}

/// Each entry of a domain summary names a domain (from the `d`-th on) and
/// gives its number of writes, which is at least one.
pub proof fn lemma_summary_entries(ws: Seq<MmioWrite>, d: int)
    ensures
        forall|k: int|
            0 <= k < summary_from(ws, d).len() ==> (#[trigger] summary_from(ws, d)[k]).1 >= 1 && exists|e: int|
                d <= e < PRI_DOMAIN_COUNT && summary_from(ws, d)[k] == (spec_domain_name(e), writes_in_domain(ws, e)),
    decreases PRI_DOMAIN_COUNT - d,
{
    if d < PRI_DOMAIN_COUNT && d >= 0 {
        lemma_summary_entries(ws, d + 1);
        let rest = summary_from(ws, d + 1);
        if writes_in_domain(ws, d) > 0 {
            let s = summary_from(ws, d);
            assert(s == seq![(spec_domain_name(d), writes_in_domain(ws, d))] + rest);
            assert forall|k: int| 0 <= k < s.len() implies (#[trigger] s[k]).1 >= 1 && exists|e: int|
                d <= e < PRI_DOMAIN_COUNT && s[k] == (spec_domain_name(e), writes_in_domain(ws, e)) by {
                if k > 0 {
                    assert(s[k] == rest[k - 1]);
                }
            }
        }
    }
}

/// The counts of a domain summary add up to the number of writes: every
/// write is counted in exactly one domain.
pub proof fn lemma_summary_counts_all_writes(ws: Seq<MmioWrite>)
    requires
        ws.len() <= usize::MAX,
    ensures
        summary_total(summary_from(ws, 0)) == ws.len(),
{
    lemma_summary_total_from(ws, 0);
    lemma_writes_from_domain_all(ws);
}

/// Writes per PRI domain.
fn count_by_domain(ws: &Vec<MmioWrite>) -> (r: Vec<usize>)
    ensures
        r@.len() == PRI_DOMAIN_COUNT,
        forall|k: int| 0 <= k < PRI_DOMAIN_COUNT ==> #[trigger] r@[k] == writes_in_domain(ws@, k),
{
    broadcast use Seq::lemma_filter_len_push;
    let mut counts: Vec<usize> = vec![0usize; PRI_DOMAIN_COUNT];
    let mut i: usize = 0;
    proof {
        assert forall|k: int| 0 <= k < PRI_DOMAIN_COUNT implies #[trigger] counts@[k] == writes_in_domain(
            ws@.subrange(0, 0),
            k,
        ) by {
            assert(ws@.subrange(0, 0) =~= Seq::<MmioWrite>::empty());
            reveal_with_fuel(Seq::filter, 1);
        }
    }
    while i < ws.len()
        invariant
            i <= ws@.len(),
            counts@.len() == PRI_DOMAIN_COUNT,
            forall|k: int| 0 <= k < PRI_DOMAIN_COUNT ==> #[trigger] counts@[k] == writes_in_domain(
                ws@.subrange(0, i as int),
                k,
            ),
            forall|k: int| 0 <= k < PRI_DOMAIN_COUNT ==> counts@[k] <= i,
        decreases ws.len() - i,
    {
        let d = pri_domain_index(ws[i].offset);
        proof {
            assert(ws@.subrange(0, i + 1) =~= ws@.subrange(0, i as int).push(ws@[i as int]));
            assert forall|k: int| 0 <= k < PRI_DOMAIN_COUNT implies #[trigger] writes_in_domain(
                ws@.subrange(0, i + 1),
                k,
            ) == writes_in_domain(ws@.subrange(0, i as int), k) + if k == d {
                1int
            } else {
                0int
            } by {
                ws@.subrange(0, i as int).lemma_filter_len_push(
                    |w: MmioWrite| spec_pri_domain(w.offset as int) == k,
                    ws@[i as int],
                );
            }
        }
        counts.set(d, counts[d] + 1);
        i = i + 1;
    }
    proof {
        assert(ws@.subrange(0, ws@.len() as int) =~= ws@);
    }
    counts
}

// ── Cold/warm snapshot comparison ───────────────────────────────────────

/// Domain-classified register change.
#[derive(Debug, Clone)]
pub struct DomainDelta {
    pub domain: String,
    pub offset: usize,
    pub cold_value: u32,
    pub warm_value: u32,
}

/// Statistics for a single register domain.
#[derive(Debug, Clone, Copy, PartialEq, Eq, Structural)]
pub struct DomainStats {
    pub compared: usize,
    pub changed: usize,
    pub cold_dead: usize,
    pub warm_alive: usize,
}

impl Default for DomainStats {
    fn default() -> (r: Self)
        ensures
            r == (DomainStats { compared: 0, changed: 0, cold_dead: 0, warm_alive: 0 }),
    {
        DomainStats { compared: 0, changed: 0, cold_dead: 0, warm_alive: 0 }
    }
}

/// The register is dead on the cold card (PRI fault) but readable warm.
pub open spec fn cold_dead_at(o: Map<usize, u32>, c: Map<usize, u32>, x: usize) -> bool {
    !spec_is_pri_error(value_or_zero(o, x)) && spec_is_pri_error(value_or_zero(c, x))
        && value_or_zero(c, x) != 0
}

/// Both snapshots answered at `x`: the register is compared.
pub open spec fn compared_at(o: Map<usize, u32>, c: Map<usize, u32>, x: usize) -> bool {
    !spec_is_pri_error(value_or_zero(o, x)) && !(spec_is_pri_error(value_or_zero(c, x))
        && value_or_zero(c, x) != 0)
}

/// The comparison records a change at `x`: a cold-dead register the warm
/// card holds non-zero, or a compared register whose values differ.
pub open spec fn changed_at(o: Map<usize, u32>, c: Map<usize, u32>, x: usize) -> bool {
    ||| cold_dead_at(o, c, x) && value_or_zero(o, x) != 0
    ||| compared_at(o, c, x) && value_or_zero(o, x) != value_or_zero(c, x)
}

/// What the statistics of a domain count, by kind: 0 compared, 1 changed
/// among compared, 2 cold-dead, 3 cold-dead but non-zero warm, 4 seen
/// (the warm value is not a PRI fault).
pub open spec fn counts_as(o: Map<usize, u32>, c: Map<usize, u32>, x: usize, kind: int) -> bool {
    if kind == 0 {
        compared_at(o, c, x)
    } else if kind == 1 {
        compared_at(o, c, x) && value_or_zero(o, x) != value_or_zero(c, x)
    } else if kind == 2 {
        cold_dead_at(o, c, x)
    } else if kind == 3 {
        cold_dead_at(o, c, x) && value_or_zero(o, x) != 0
    } else {
        !spec_is_pri_error(value_or_zero(o, x))
    }
}

/// Offsets of domain `d` that count as `kind`.
pub open spec fn stat_pred(o: Map<usize, u32>, c: Map<usize, u32>, d: int, kind: int) -> spec_fn(usize) -> bool {
    |x: usize| spec_pri_domain(x as int) == d && counts_as(o, c, x, kind)
}

/// How many of `offs` in domain `d` count as `kind`.
pub open spec fn stat_count(o: Map<usize, u32>, c: Map<usize, u32>, offs: Seq<usize>, d: int, kind: int) -> nat {
    offs.filter(stat_pred(o, c, d, kind)).len()
}

/// The statistics of domain `d` over `offs`.
pub open spec fn spec_stats(o: Map<usize, u32>, c: Map<usize, u32>, offs: Seq<usize>, d: int) -> DomainStats {
    DomainStats {
        compared: stat_count(o, c, offs, d, 0) as usize,
        changed: stat_count(o, c, offs, d, 1) as usize,
        cold_dead: stat_count(o, c, offs, d, 2) as usize,
        warm_alive: stat_count(o, c, offs, d, 3) as usize,
    }
}

/// The delta recorded at `x`, as (domain, offset, cold, warm).
pub open spec fn delta_at(o: Map<usize, u32>, c: Map<usize, u32>, x: usize) -> (Seq<char>, usize, u32, u32) {
    (spec_classify(spec_legacy_domains(), x as int).0@, x, value_or_zero(c, x), value_or_zero(o, x))
}

/// A delta as plain values.
pub open spec fn delta_view(d: DomainDelta) -> (Seq<char>, usize, u32, u32) {
    (d.domain@, d.offset, d.cold_value, d.warm_value)
}

/// Per-domain statistics of a comparison, one slot per PRI domain (the
/// boot follower's domain table, then "UNKNOWN"); a domain is present when
/// any of its registers was seen.
#[derive(Debug, Clone)]
pub struct DomainStatsTable {
    stats: Vec<DomainStats>,
    present: Vec<bool>,
}

impl DomainStatsTable {
    pub closed spec fn wf(&self) -> bool {
        self.stats@.len() == PRI_DOMAIN_COUNT && self.present@.len() == PRI_DOMAIN_COUNT
    }

    /// Statistics of domain `d`.
    pub closed spec fn stat(&self, d: int) -> DomainStats {
        self.stats@[d]
    }

    /// Domain `d` has an entry.
    pub closed spec fn has(&self, d: int) -> bool {
        self.present@[d]
    }

    /// For each domain, whether it has an entry.
    pub closed spec fn flags(&self) -> Seq<bool> {
        self.present@
    }

    /// There is an entry for the domain called `name`.
    pub fn contains_key(&self, name: &str) -> (r: bool)
        requires
            self.wf(),
        ensures
            r == exists|d: int|
                0 <= d < PRI_DOMAIN_COUNT && self.has(d) && (#[trigger] spec_domain_name(d)).spec_bytes()
                    == name.spec_bytes(),
    {
        match self.get(name) {
            Some(_) => true,
            None => false,
        }
    }

    /// The statistics of the domain called `name`, if it has an entry.
    pub fn get(&self, name: &str) -> (r: Option<DomainStats>)
        requires
            self.wf(),
        ensures
            match r {
                Some(st) => exists|d: int|
                    0 <= d < PRI_DOMAIN_COUNT && self.has(d) && (#[trigger] spec_domain_name(
                        d,
                    )).spec_bytes() == name.spec_bytes() && st == self.stat(d),
                None => !exists|d: int|
                    0 <= d < PRI_DOMAIN_COUNT && self.has(d) && (#[trigger] spec_domain_name(
                        d,
                    )).spec_bytes() == name.spec_bytes(),
            },
    {
        let mut d: usize = 0;
        while d < PRI_DOMAIN_COUNT
            invariant
                self.wf(),
                d <= PRI_DOMAIN_COUNT,
                forall|k: int|
                    0 <= k < d ==> !(self.has(k) && (#[trigger] spec_domain_name(k)).spec_bytes()
                        == name.spec_bytes()),
            decreases PRI_DOMAIN_COUNT - d,
        {
            let n = pri_domain_name(d);
            proof {
                assert(n == spec_domain_name(d as int));
            }
            if self.present[d] && str_eq(n, name) {
                return Some(self.stats[d]);
            }
            d = d + 1;
        }
        None
    }

    /// Number of domains with an entry.
    pub fn len(&self) -> (r: usize)
        requires
            self.wf(),
        ensures
            r == self.flags().filter(|b: bool| b).len(),
    {
        let mut n: usize = 0;
        let mut i: usize = 0;
        while i < self.present.len()
            invariant
                i <= self.present@.len(),
                n == self.present@.subrange(0, i as int).filter(|b: bool| b).len(),
                n <= i,
            decreases self.present.len() - i,
        {
            proof {
                assert(self.present@.subrange(0, i + 1) =~= self.present@.subrange(0, i as int).push(
                    self.present@[i as int],
                ));
                self.present@.subrange(0, i as int).lemma_filter_push(self.present@[i as int], |b: bool| b);
            }
            if self.present[i] {
                n = n + 1;
            }
            i = i + 1;
        }
        proof {
            assert(self.present@.subrange(0, self.present@.len() as int) =~= self.present@);
        }
        n
    }

    /// The entries of domains `d` on, as (domain, statistics).
    pub closed spec fn entries_from(&self, d: int) -> Seq<(&'static str, DomainStats)>
        decreases PRI_DOMAIN_COUNT - d,
    {
        if d >= PRI_DOMAIN_COUNT || d < 0 {
            Seq::empty()
        } else if self.present@[d] {
            seq![(spec_domain_name(d), self.stats@[d])] + self.entries_from(d + 1)
        } else {
            self.entries_from(d + 1)
        }
    }

    /// The entries as (domain, statistics), in domain-table order.
    pub fn entries(&self) -> (r: Vec<(&'static str, DomainStats)>)
        requires
            self.wf(),
        ensures
            r@ == self.entries_from(0),
    {
        let mut out: Vec<(&'static str, DomainStats)> = Vec::new();
        let mut d: usize = PRI_DOMAIN_COUNT;
        proof {
            assert(out@ =~= self.entries_from(d as int));
        }
        while d > 0
            invariant
                self.wf(),
                d <= PRI_DOMAIN_COUNT,
                out@ == self.entries_from(d as int),
            decreases d,
        {
            d = d - 1;
            if self.present[d] {
                let n = pri_domain_name(d);
                out.insert(0, (n, self.stats[d]));
                proof {
                    assert(out@ =~= seq![(n, self.stats@[d as int])] + self.entries_from(d + 1));
                }
            }
        }
        out
    }
}

/// Result of comparing cold against warm register states.
#[derive(Debug)]
pub struct BootDiff {
    /// Register changes, in offset order.
    pub deltas: Vec<DomainDelta>,
    /// Per-domain statistics.
    pub domain_stats: DomainStatsTable,
    /// Total registers compared.
    pub total_compared: usize,
    /// Total registers that differ.
    pub total_changed: usize,
}

/// Offsets at which the comparison records a change.
pub open spec fn changed_pred(o: Map<usize, u32>, c: Map<usize, u32>) -> spec_fn(usize) -> bool {
    |x: usize| changed_at(o, c, x)
}

/// Offsets the comparison counts as compared.
pub open spec fn compared_pred(o: Map<usize, u32>, c: Map<usize, u32>) -> spec_fn(usize) -> bool {
    |x: usize| compared_at(o, c, x)
}

/// The deltas of a comparison over `offs`, in order.
pub open spec fn spec_deltas(o: Map<usize, u32>, c: Map<usize, u32>, offs: Seq<usize>) -> Seq<
    (Seq<char>, usize, u32, u32),
> {
    offs.filter(changed_pred(o, c)).map_values(|x: usize| delta_at(o, c, x))
}

/// The outcome of comparing over the offsets `offs`.
pub open spec fn diff_matches(r: BootDiff, o: Map<usize, u32>, c: Map<usize, u32>, offs: Seq<usize>) -> bool {
    &&& r.deltas@.map_values(|d: DomainDelta| delta_view(d)) == spec_deltas(o, c, offs)
    &&& r.total_compared == offs.filter(compared_pred(o, c)).len()
    &&& r.total_changed == r.deltas@.len()
    &&& r.domain_stats.wf()
    &&& forall|d: int|
        0 <= d < PRI_DOMAIN_COUNT ==> #[trigger] r.domain_stats.stat(d) == spec_stats(o, c, offs, d)
            && r.domain_stats.has(d) == (stat_count(o, c, offs, d, 4) > 0)
}

/// What a filter keeps of a strictly increasing sequence is strictly
/// increasing.
proof fn lemma_filter_increasing(s: Seq<usize>, pred: spec_fn(usize) -> bool)
    requires
        crate::snapshot::strictly_increasing(s),
    ensures
        crate::snapshot::strictly_increasing(s.filter(pred)),
    decreases s.len(),
{
    if s.len() == 0 {
        assert(s.filter(pred) =~= Seq::<usize>::empty()) by {
            reveal_with_fuel(Seq::filter, 1);
        }
    } else {
        let d = s.drop_last();
        lemma_filter_increasing(d, pred);
        d.lemma_filter_push(s.last(), pred);
        assert(d.push(s.last()) =~= s);
        if pred(s.last()) {
            let f = d.filter(pred);
            assert forall|k: int| 0 <= k < f.len() implies #[trigger] f[k] < s.last() by {
                assert(f.contains(f[k]));
                crate::stable_sort::lemma_filter_subset(d, pred, f[k]);
                let j = choose|j: int| 0 <= j < d.len() && d[j] == f[k];
                assert(s[j] == d[j]);
            }
        }
    }
}

/// The deltas of a comparison over the union `offs` of both snapshots'
/// offsets, in increasing order: their offsets strictly increase; each is
/// an offset of either snapshot where a change is recorded, with its warm
/// and cold values (0 where a snapshot lacks the offset); and every offset
/// of either snapshot where a change is recorded has its delta. Where
/// neither value is a PRI fault, a change is recorded exactly when the
/// values differ.
pub proof fn lemma_compare_deltas(r: BootDiff, o: Map<usize, u32>, c: Map<usize, u32>, offs: Seq<usize>)
    requires
        crate::snapshot::strictly_increasing(offs),
        offs.to_set() == o.dom() + c.dom(),
        diff_matches(r, o, c, offs),
    ensures
        r.deltas@.len() == r.total_changed,
        forall|k: int, l: int|
            0 <= k < l < r.deltas@.len() ==> #[trigger] r.deltas@[k].offset < #[trigger] r.deltas@[l].offset,
        forall|k: int|
            0 <= k < r.deltas@.len() ==> {
                let x = #[trigger] r.deltas@[k].offset;
                &&& (o.dom() + c.dom()).contains(x)
                &&& changed_at(o, c, x)
                &&& r.deltas@[k].warm_value == value_or_zero(o, x)
                &&& r.deltas@[k].cold_value == value_or_zero(c, x)
            },
        forall|x: usize|
            #[trigger] (o.dom() + c.dom()).contains(x) && changed_at(o, c, x) ==> exists|k: int|
                0 <= k < r.deltas@.len() && r.deltas@[k].offset == x,
        forall|x: usize|
            !spec_is_pri_error(#[trigger] value_or_zero(o, x)) && !spec_is_pri_error(value_or_zero(c, x)) ==> (
            changed_at(o, c, x) <==> value_or_zero(o, x) != value_or_zero(c, x)),
{
    let pred = changed_pred(o, c);
    let f = offs.filter(pred);
    let dv = r.deltas@.map_values(|d: DomainDelta| delta_view(d));
    assert(dv == f.map_values(|x: usize| delta_at(o, c, x)));
    assert(dv.len() == r.deltas@.len());
    offs.filter_lemma(pred);
    lemma_filter_increasing(offs, pred);
    assert forall|k: int| 0 <= k < r.deltas@.len() implies r.deltas@[k].offset == f[k] by {
        assert(dv[k] == delta_view(r.deltas@[k]));
        assert(dv[k] == delta_at(o, c, f[k]));
    }
    assert forall|k: int, l: int| 0 <= k < l < r.deltas@.len() implies #[trigger] r.deltas@[k].offset
        < #[trigger] r.deltas@[l].offset by {
        assert(r.deltas@[k].offset == f[k]);
        assert(r.deltas@[l].offset == f[l]);
    }
    assert forall|k: int| 0 <= k < r.deltas@.len() implies {
        let x = #[trigger] r.deltas@[k].offset;
        &&& (o.dom() + c.dom()).contains(x)
        &&& changed_at(o, c, x)
        &&& r.deltas@[k].warm_value == value_or_zero(o, x)
        &&& r.deltas@[k].cold_value == value_or_zero(c, x)
    } by {
        let x = f[k];
        assert(r.deltas@[k].offset == x);
        assert(dv[k] == delta_view(r.deltas@[k]));
        assert(dv[k] == delta_at(o, c, x));
        assert(pred(f[k]));
        assert(f.contains(x));
        crate::stable_sort::lemma_filter_subset(offs, pred, x);
        assert(offs.to_set().contains(x));
    }
    assert forall|x: usize| #[trigger] (o.dom() + c.dom()).contains(x) && changed_at(o, c, x) implies exists|k: int|
        0 <= k < r.deltas@.len() && r.deltas@[k].offset == x by {
        assert(offs.to_set().contains(x));
        let j = choose|j: int| 0 <= j < offs.len() && offs[j] == x;
        assert(pred(offs[j]));
        assert(f.contains(x));
        let k = choose|k: int| 0 <= k < f.len() && f[k] == x;
        assert(r.deltas@[k].offset == f[k]);
    }
}

/// No offset of a snapshot compared with itself records a change.
proof fn lemma_no_change_against_itself(o: Map<usize, u32>, offs: Seq<usize>)
    ensures
        offs.filter(changed_pred(o, o)).len() == 0,
    decreases offs.len(),
{
    if offs.len() > 0 {
        let init = offs.drop_last();
        lemma_no_change_against_itself(o, init);
        assert(init.push(offs.last()) =~= offs);
        init.lemma_filter_len_push(changed_pred(o, o), offs.last());
    }
}

/// A snapshot compared with itself shows no change: no deltas, and no
/// domain counts a changed register.
pub proof fn lemma_compare_identical_unchanged(r: BootDiff, o: Map<usize, u32>, offs: Seq<usize>)
    requires
        diff_matches(r, o, o, offs),
    ensures
        r.total_changed == 0,
        r.deltas@.len() == 0,
        forall|d: int| 0 <= d < PRI_DOMAIN_COUNT ==> #[trigger] r.domain_stats.stat(d).changed == 0,
{
    lemma_no_change_against_itself(o, offs);
    assert(r.deltas@.map_values(|d: DomainDelta| delta_view(d)).len() == r.deltas@.len());
    assert forall|d: int| 0 <= d < PRI_DOMAIN_COUNT implies #[trigger] r.domain_stats.stat(d).changed
        == 0 by {
        lemma_no_domain_change(o, offs, d);
    }
}

proof fn lemma_no_domain_change(o: Map<usize, u32>, offs: Seq<usize>, d: int)
    ensures
        offs.filter(stat_pred(o, o, d, 1)).len() == 0,
    decreases offs.len(),
{
    if offs.len() > 0 {
        let init = offs.drop_last();
        lemma_no_domain_change(o, init, d);
        assert(init.push(offs.last()) =~= offs);
        init.lemma_filter_len_push(stat_pred(o, o, d, 1), offs.last());
    }
}

impl BootDiff {
    /// Compare an oracle (warm) register snapshot against a cold card's.
    ///
    /// Every offset present in either snapshot is visited in increasing
    /// order, an absent value reading as 0. A PRI fault in the warm value
    /// skips the offset. A PRI fault (non-zero) in the cold value makes the
    /// register cold-dead, and a change when the warm value is non-zero.
    /// Otherwise the register is compared, and a change when the values
    /// differ.
    pub fn compare(oracle: &BTreeMap<usize, u32>, cold: &BTreeMap<usize, u32>) -> (r: Self)
        ensures
            exists|offs: Seq<usize>|
                crate::snapshot::strictly_increasing(offs) && offs.to_set() == oracle@.dom()
                    + cold@.dom() && diff_matches(r, oracle@, cold@, offs),
    {
        broadcast use Seq::lemma_filter_len_push, Seq::lemma_filter_push;
        let offs = union_keys(oracle, cold);
        let ghost o = oracle@;
        let ghost c = cold@;
        let mut deltas: Vec<DomainDelta> = Vec::new();
        let mut stats: Vec<DomainStats> = vec![DomainStats::default(); PRI_DOMAIN_COUNT];
        let mut present: Vec<bool> = vec![false; PRI_DOMAIN_COUNT];
        let mut total_compared: usize = 0;
        let mut total_changed: usize = 0;
        let mut i: usize = 0;
        proof {
            let p0 = offs@.subrange(0, 0);
            assert(p0 =~= Seq::<usize>::empty());
            assert forall|d: int| 0 <= d < PRI_DOMAIN_COUNT implies #[trigger] stats@[d] == spec_stats(o, c, p0, d)
                && present@[d] == (stat_count(o, c, p0, d, 4) > 0) by {
                reveal_with_fuel(Seq::filter, 1);
            }
            assert(p0.filter(changed_pred(o, c)) =~= Seq::<usize>::empty()) by {
                reveal_with_fuel(Seq::filter, 1);
            }
            assert(p0.filter(compared_pred(o, c)) =~= Seq::<usize>::empty()) by {
                reveal_with_fuel(Seq::filter, 1);
            }
            assert(deltas@.map_values(|d: DomainDelta| delta_view(d)) =~= spec_deltas(o, c, p0));
        }
        while i < offs.len()
            invariant
                o == oracle@,
                c == cold@,
                i <= offs@.len(),
                stats@.len() == PRI_DOMAIN_COUNT,
                present@.len() == PRI_DOMAIN_COUNT,
                deltas@.map_values(|d: DomainDelta| delta_view(d)) == spec_deltas(
                    o,
                    c,
                    offs@.subrange(0, i as int),
                ),
                total_compared == offs@.subrange(0, i as int).filter(compared_pred(o, c)).len(),
                total_changed == deltas@.len(),
                total_compared <= i,
                total_changed <= i,
                forall|d: int|
                    0 <= d < PRI_DOMAIN_COUNT ==> #[trigger] stats@[d] == spec_stats(
                        o,
                        c,
                        offs@.subrange(0, i as int),
                        d,
                    ),
                forall|d: int|
                    0 <= d < PRI_DOMAIN_COUNT ==> #[trigger] present@[d] == (stat_count(
                        o,
                        c,
                        offs@.subrange(0, i as int),
                        d,
                        4,
                    ) > 0),
                forall|d: int, k: int|
                    0 <= d < PRI_DOMAIN_COUNT && 0 <= k < 4 ==> #[trigger] stat_count(
                        o,
                        c,
                        offs@.subrange(0, i as int),
                        d,
                        k,
                    ) <= i,
            decreases offs.len() - i,
        {
            let x = offs[i];
            let ghost p = offs@.subrange(0, i as int);
            let warm = snapshot_value(oracle, x);
            let cold_val = snapshot_value(cold, x);
            let dx = pri_domain_index(x);
            proof {
                assert(offs@.subrange(0, i + 1) =~= p.push(x));
                assert forall|d: int, k: int| 0 <= d < PRI_DOMAIN_COUNT && 0 <= k < 5 implies #[trigger] stat_count(
                    o,
                    c,
                    p.push(x),
                    d,
                    k,
                ) == stat_count(o, c, p, d, k) + if d == dx && counts_as(o, c, x, k) {
                    1int
                } else {
                    0int
                } by {
                    p.lemma_filter_len_push(stat_pred(o, c, d, k), x);
                }
                p.lemma_filter_len_push(compared_pred(o, c), x);
                p.lemma_filter_push(x, changed_pred(o, c));
                assert(compared_pred(o, c)(x) == compared_at(o, c, x));
                assert(changed_pred(o, c)(x) == changed_at(o, c, x));
                assert(warm == value_or_zero(o, x));
                assert(cold_val == value_or_zero(c, x));
            }
            let ghost db = deltas@;
            let ghost sb = stats@;
            let ghost pb = present@;
            proof {
                assert(forall|d: int| 0 <= d < PRI_DOMAIN_COUNT ==> #[trigger] sb[d] == spec_stats(o, c, p, d));
                assert(forall|d: int| 0 <= d < PRI_DOMAIN_COUNT ==> #[trigger] pb[d] == (stat_count(o, c, p, d, 4) > 0));
            }
            if is_pri_error(warm) {
            } else if is_pri_error(cold_val) && cold_val != 0 {
                let st = stats[dx];
                let warm_alive = if warm != 0 {
                    st.warm_alive + 1
                } else {
                    st.warm_alive
                };
                stats.set(dx, DomainStats { cold_dead: st.cold_dead + 1, warm_alive, ..st });
                present.set(dx, true);
                if warm != 0 {
                    let (name, _) = classify_domain(x);
                    deltas.push(
                        DomainDelta {
                            domain: String::from_str(name),
                            offset: x,
                            cold_value: cold_val,
                            warm_value: warm,
                        },
                    );
                    total_changed = total_changed + 1;
                }
            } else {
                total_compared = total_compared + 1;
                let st = stats[dx];
                let changed = if warm != cold_val {
                    st.changed + 1
                } else {
                    st.changed
                };
                stats.set(dx, DomainStats { compared: st.compared + 1, changed, ..st });
                present.set(dx, true);
                if warm != cold_val {
                    let (name, _) = classify_domain(x);
                    deltas.push(
                        DomainDelta {
                            domain: String::from_str(name),
                            offset: x,
                            cold_value: cold_val,
                            warm_value: warm,
                        },
                    );
                    total_changed = total_changed + 1;
                }
            }
            proof {
                if changed_at(o, c, x) {
                    assert(deltas@.map_values(|d: DomainDelta| delta_view(d)) =~= db.map_values(
                        |d: DomainDelta| delta_view(d),
                    ).push(delta_at(o, c, x)));
                    assert(p.push(x).filter(changed_pred(o, c)) == p.filter(changed_pred(o, c)).push(x));
                    assert(spec_deltas(o, c, p.push(x)) =~= spec_deltas(o, c, p).push(delta_at(o, c, x)));
                } else {
                    assert(deltas@ == db);
                    assert(p.push(x).filter(changed_pred(o, c)) == p.filter(changed_pred(o, c)));
                }
                assert forall|d: int| 0 <= d < PRI_DOMAIN_COUNT implies #[trigger] stats@[d] == spec_stats(
                    o,
                    c,
                    p.push(x),
                    d,
                ) && present@[d] == (stat_count(o, c, p.push(x), d, 4) > 0) by {
                    assert(stat_count(o, c, p.push(x), d, 0) == stat_count(o, c, p, d, 0) + if d == dx
                        && counts_as(o, c, x, 0) {
                        1int
                    } else {
                        0int
                    });
                    assert(stat_count(o, c, p.push(x), d, 1) == stat_count(o, c, p, d, 1) + if d == dx
                        && counts_as(o, c, x, 1) {
                        1int
                    } else {
                        0int
                    });
                    assert(stat_count(o, c, p.push(x), d, 2) == stat_count(o, c, p, d, 2) + if d == dx
                        && counts_as(o, c, x, 2) {
                        1int
                    } else {
                        0int
                    });
                    assert(stat_count(o, c, p.push(x), d, 3) == stat_count(o, c, p, d, 3) + if d == dx
                        && counts_as(o, c, x, 3) {
                        1int
                    } else {
                        0int
                    });
                    assert(stat_count(o, c, p.push(x), d, 4) == stat_count(o, c, p, d, 4) + if d == dx
                        && counts_as(o, c, x, 4) {
                        1int
                    } else {
                        0int
                    });
                    assert(sb[d] == spec_stats(o, c, p, d));
                    assert(pb[d] == (stat_count(o, c, p, d, 4) > 0));
                    if d != dx {
                        assert(stats@[d] == sb[d]);
                        assert(present@[d] == pb[d]);
                    }
                }
                let q = offs@.subrange(0, i + 1);
                assert(q == p.push(x));
                assert forall|d: int| 0 <= d < PRI_DOMAIN_COUNT implies #[trigger] stats@[d] == spec_stats(
                    o,
                    c,
                    q,
                    d,
                ) && present@[d] == (stat_count(o, c, q, d, 4) > 0) by {
                    assert(stats@[d] == spec_stats(o, c, p.push(x), d));
                    assert(present@[d] == (stat_count(o, c, p.push(x), d, 4) > 0));
                }
                assert forall|d: int| 0 <= d < PRI_DOMAIN_COUNT implies #[trigger] present@[d] == (stat_count(o, c, q, d, 4) > 0) by {
                    assert(stats@[d] == spec_stats(o, c, p.push(x), d));
                    assert(present@[d] == (stat_count(o, c, p.push(x), d, 4) > 0));
                }
                assert forall|d: int, k: int| 0 <= d < PRI_DOMAIN_COUNT && 0 <= k < 4 implies #[trigger] stat_count(
                    o,
                    c,
                    q,
                    d,
                    k,
                ) <= i + 1 by {
                    assert(stat_count(o, c, p, d, k) <= i);
                    assert(stat_count(o, c, p.push(x), d, k) <= stat_count(o, c, p, d, k) + 1);
                }
            }
            let ghost q = offs@.subrange(0, i + 1);
            proof {
                assert(stats@.len() == PRI_DOMAIN_COUNT);
            }
            i = i + 1;
            proof {
                assert(offs@.subrange(0, i as int) == q);
            }
        }
        proof {
            assert(offs@.subrange(0, offs@.len() as int) =~= offs@);
        }
        let r = BootDiff {
            deltas,
            domain_stats: DomainStatsTable { stats, present },
            total_compared,
            total_changed,
        };
        proof {
            assert(diff_matches(r, o, c, offs@));
        }
        r
    }

    /// The diff as a recipe for replay: each delta's warm value as a step
    /// of its domain, with the domain's priority, stably sorted by priority.
    pub fn to_recipe(&self) -> (r: Vec<RecipeStep>)
        ensures
            stable_sorted_of(
                steps_view(r@),
                self.deltas@.map_values(|d: DomainDelta| delta_step(d)),
                by_priority(),
            ),
    {
        let mut steps: Vec<RecipeStep> = Vec::new();
        let mut i: usize = 0;
        while i < self.deltas.len()
            invariant
                i <= self.deltas@.len(),
                steps_view(steps@) == self.deltas@.subrange(0, i as int).map_values(
                    |d: DomainDelta| delta_step(d),
                ),
            decreases self.deltas.len() - i,
        {
            let d = &self.deltas[i];
            let (_, priority) = classify_domain(d.offset);
            let ghost sb = steps@;
            steps.push(
                RecipeStep { domain: d.domain.clone(), offset: d.offset, value: d.warm_value, priority },
            );
            proof {
                assert(self.deltas@.subrange(0, i + 1) =~= self.deltas@.subrange(0, i as int).push(*d));
                assert(steps_view(steps@) =~= steps_view(sb).push(delta_step(*d)));
                assert(self.deltas@.subrange(0, i + 1).map_values(|d: DomainDelta| delta_step(d))
                    =~= self.deltas@.subrange(0, i as int).map_values(|d: DomainDelta| delta_step(d)).push(
                    delta_step(*d),
                ));
            }
            i = i + 1;
        }
        proof {
            assert(self.deltas@.subrange(0, self.deltas@.len() as int) =~= self.deltas@);
        }
        sort_steps_by_priority(steps)
    }
}

/// The recipe step of a delta: its domain and offset, the warm value, and
/// the priority of the offset's domain.
pub open spec fn delta_step(d: DomainDelta) -> (Seq<char>, usize, u32, u32) {
    (d.domain@, d.offset, d.warm_value, spec_classify(spec_legacy_domains(), d.offset as int).1)
}

} // verus!
