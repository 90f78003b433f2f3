//! K80 cold boot: sovereign boot of a fully cold GK210 (Kepler).
//!
//! Clocks and PLLs must be configured before the falcon CPUs can run: the
//! boot replays the PLL/PCLOCK registers of a BIOS recipe, then the rest
//! of the engine initialization, and probes the firmware state before and
//! after. This module also turns the capture formats (BIOS recipe, reagent
//! diff, reagent snapshot) into prioritized recipe steps.
use vstd::prelude::*;
use vstd::string::StrSliceExecFns;

use crate::boot_follower::{
    spec_classify_with_hint, spec_kepler_domains, spec_kepler_hint, step_view, steps_view, DomainMap,
    KeplerDomainMap, RecipeStep,
};
use crate::bus::{is_pri_error, spec_is_pri_error, Bar0, BusEvent, MmioError, RegisterBus};
use crate::firmware_probe::{
    capture_firmware_snapshot, diff_snapshots, entries_view, spec_snapshot_diff, FirmwareSnapshot,
};
use crate::replay::{
    apply_recipe_phased, apply_recipe_to_bar0, lemma_replay_ran_grows, replay_ran, KeplerPllHooks, NoHooks,
    ReplayResult,
};
use crate::stable_sort::{lemma_stable_empty, lemma_stable_insert, stable_sorted_of};
use crate::text::{push_dec, push_hex8, push_hex_n};

verus! {

/// Domain classification of K80 BIOS recipe writes: the Kepler domain map,
/// with the capture's region tag as fallback.
pub fn classify_k80_domain(offset: usize, region: &str) -> (r: (&'static str, u32))
    ensures
        r == spec_classify_with_hint(spec_kepler_domains(), offset as int, spec_kepler_hint(region)),
{
    KeplerDomainMap.classify(offset, region)
}

// ── Number parsing ──────────────────────────────────────────────────────

/// The value of an ASCII digit in base `radix` (10 or 16), if it is one.
pub open spec fn digit_value(c: char, radix: int) -> Option<int> {
    let b = (c as u32) as int;
    if 48 <= b <= 57 {
        if b - 48 < radix {
            Some(b - 48)
        } else {
            None
        }
    } else if radix == 16 && 97 <= b <= 102 {
        Some(b - 87)
    } else if radix == 16 && 65 <= b <= 70 {
        Some(b - 55)
    } else {
        None
    }
}

/// The digits are all valid in base `radix`.
pub open spec fn all_digits(s: Seq<char>, radix: int) -> bool {
    forall|i: int| 0 <= i < s.len() ==> (#[trigger] digit_value(s[i], radix)) is Some
}

/// The value of a digit string in base `radix` (valid digits assumed).
pub open spec fn digits_value(s: Seq<char>, radix: int) -> int
    decreases s.len(),
{
    if s.len() == 0 {
        0
    } else {
        digits_value(s.drop_last(), radix) * radix + digit_value(s.last(), radix).unwrap()
    }
}

/// An unsigned 64-bit number in base `radix`, as Rust's integer parsing
/// reads it: an optional `+`, then at least one digit, within `u64`.
pub open spec fn spec_parse_u64(s: Seq<char>, radix: int) -> Option<u64> {
    let d = if s.len() > 0 && s[0] == '+' {
        s.drop_first()
    } else {
        s
    };
    if d.len() > 0 && all_digits(d, radix) && digits_value(d, radix) <= u64::MAX {
        Some(digits_value(d, radix) as u64)
    } else {
        None
    }
}

/// Unicode white space (the characters that `str::trim` removes).
pub open spec fn is_space(c: char) -> bool {
    let b = c as int;
    ||| 9 <= b <= 13
    ||| b == 32
    ||| b == 0x85
    ||| b == 0xA0
    ||| b == 0x1680
    ||| 0x2000 <= b <= 0x200A
    ||| b == 0x2028
    ||| b == 0x2029
    ||| b == 0x202F
    ||| b == 0x205F
    ||| b == 0x3000
}

fn is_space_char(c: char) -> (r: bool)
    ensures
        r == is_space(c),
{
    let b = c as u32;
    (b >= 9 && b <= 13) || b == 32 || b == 0x85 || b == 0xA0 || b == 0x1680 || (b >= 0x2000 && b
        <= 0x200A) || b == 0x2028 || b == 0x2029 || b == 0x202F || b == 0x205F || b == 0x3000
}

/// `s` without leading and trailing white space, as bounds `[lo, hi)`.
pub open spec fn trimmed_bounds(s: Seq<char>, lo: int, hi: int) -> bool {
    &&& 0 <= lo <= hi <= s.len()
    &&& forall|i: int| 0 <= i < lo ==> is_space(#[trigger] s[i])
    &&& forall|i: int| hi <= i < s.len() ==> is_space(#[trigger] s[i])
    &&& lo < hi ==> !is_space(s[lo]) && !is_space(s[hi - 1])
}

/// A capture's number: whitespace trimmed; `0x` or `0X` then hexadecimal
/// digits, or else decimal.
pub open spec fn spec_parse_hex(s: Seq<char>) -> Option<u64> {
    let lo = choose|lo: int, hi: int| trimmed_bounds(s, lo, hi);
    let t = s.subrange(lo.0, lo.1);
    if t.len() >= 2 && t[0] == '0' && (t[1] == 'x' || t[1] == 'X') {
        spec_parse_u64(t.subrange(2, t.len() as int), 16)
    } else {
        spec_parse_u64(t, 10)
    }
}

proof fn lemma_digits_prefix_le(s: Seq<char>, k: int, radix: int)
    requires
        0 <= k <= s.len(),
        all_digits(s, radix),
        radix >= 2,
    ensures
        0 <= digits_value(s.subrange(0, k), radix) <= digits_value(s, radix),
    decreases s.len(),
{
    if s.len() > 0 {
        if k == s.len() {
            assert(s.subrange(0, k) =~= s);
            lemma_digits_prefix_le(s.drop_last(), s.len() - 1, radix);
            assert(s.drop_last().subrange(0, s.len() - 1) =~= s.drop_last());
            assert(digit_value(s.last(), radix) is Some);
        } else {
            assert(all_digits(s.drop_last(), radix)) by {
                assert forall|i: int| 0 <= i < s.drop_last().len() implies (#[trigger] digit_value(
                    s.drop_last()[i],
                    radix,
                )) is Some by {
                    assert(s.drop_last()[i] == s[i]);
                }
            }
            lemma_digits_prefix_le(s.drop_last(), k, radix);
            assert(s.drop_last().subrange(0, k) =~= s.subrange(0, k));
            assert(digit_value(s.last(), radix) is Some);
            assert(digits_value(s.drop_last(), radix) * radix >= digits_value(s.drop_last(), radix))
                by (nonlinear_arith)
                requires
                    digits_value(s.drop_last(), radix) >= 0,
                    radix >= 2,
            ;
        }
    } else {
        assert(s.subrange(0, k) =~= s);
    }
}

/// Parse `b[lo..hi]` as a `u64` in base `radix`.
pub(crate) fn parse_u64_chars(b: &Vec<char>, lo: usize, hi: usize, radix: u64) -> (r: Option<u64>)
    requires
        lo <= hi <= b@.len(),
        radix == 10 || radix == 16,
    ensures
        r == spec_parse_u64(b@.subrange(lo as int, hi as int), radix as int),
{
    let ghost s = b@.subrange(lo as int, hi as int);
    let mut start = lo;
    if lo < hi && b[lo] == '+' {
        start = lo + 1;
    }
    let ghost d = b@.subrange(start as int, hi as int);
    proof {
        if lo < hi && b@[lo as int] == '+' {
            assert(s.drop_first() =~= d);
        } else {
            assert(s =~= d);
        }
    }
    if start >= hi {
        return None;
    }
    proof {
        assert(d.len() > 0);
        assert(spec_parse_u64(s, radix as int) == (if all_digits(d, radix as int) && digits_value(
            d,
            radix as int,
        ) <= u64::MAX {
            Some(digits_value(d, radix as int) as u64)
        } else {
            None
        }));
        assert(b@.subrange(start as int, start as int) =~= Seq::<char>::empty());
    }
    let mut acc: u64 = 0;
    let mut i = start;
    while i < hi
        invariant
            start <= i <= hi <= b@.len(),
            start < hi,
            lo <= hi,
            d == b@.subrange(start as int, hi as int),
            spec_parse_u64(b@.subrange(lo as int, hi as int), radix as int) == (if all_digits(
                d,
                radix as int,
            ) && digits_value(d, radix as int) <= u64::MAX {
                Some(digits_value(d, radix as int) as u64)
            } else {
                None
            }),
            radix == 10 || radix == 16,
            all_digits(b@.subrange(start as int, i as int), radix as int),
            acc == digits_value(b@.subrange(start as int, i as int), radix as int),
        decreases hi - i,
    {
        let c = b[i];
        let cv = c as u32;
        let dv: u64 = if cv >= 48 && cv <= 57 && ((cv - 48) as u64) < radix {
            (cv - 48) as u64
        } else if radix == 16 && cv >= 97 && cv <= 102 {
            (cv - 87) as u64
        } else if radix == 16 && cv >= 65 && cv <= 70 {
            (cv - 55) as u64
        } else {
            proof {
                assert(d[i - start] == c);
                assert(digit_value(d[i - start], radix as int) is None);
                assert(!all_digits(d, radix as int));
            }
            return None;
        };
        let ghost p = b@.subrange(start as int, i as int);
        let ghost p2 = b@.subrange(start as int, i + 1);
        proof {
            assert(digit_value(c, radix as int) == Some(dv as int));
            assert(p2.drop_last() =~= p);
            assert(p2.last() == c);
            assert(all_digits(p2, radix as int)) by {
                assert forall|j: int| 0 <= j < p2.len() implies (#[trigger] digit_value(p2[j], radix as int)) is Some by {
                    if j < p.len() {
                        assert(p2[j] == p[j]);
                    }
                }
            }
        }
        let m = acc.checked_mul(radix);
        let next = match m {
            Some(mv) => mv.checked_add(dv),
            None => None,
        };
        match next {
            Some(v) => {
                acc = v;
            },
            None => {
                proof {
                    assert(digits_value(p2, radix as int) == acc * radix + dv);
                    assert(acc * radix + dv > u64::MAX) by (nonlinear_arith)
                        requires
                            m is None ==> acc * radix > u64::MAX,
                            m matches Some(mv) ==> mv == acc * radix && mv + dv > u64::MAX,
                            dv >= 0,
                    ;
                    if all_digits(d, radix as int) {
                        assert(p2 =~= d.subrange(0, (i + 1 - start) as int));
                        lemma_digits_prefix_le(d, (i + 1 - start) as int, radix as int);
                    }
                }
                return None;
            },
        }
        i = i + 1;
    }
    proof {
        assert(b@.subrange(start as int, hi as int) =~= d);
    }
    Some(acc)
}

/// Parse a capture's number: trimmed; `0x`/`0X` then hexadecimal, else
/// decimal.
pub fn parse_hex(s: &str) -> (r: Option<u64>)
    ensures
        r == spec_parse_hex(s@),
{
    let b = chars_of(s);
    let n = b.len();
    let mut lo: usize = 0;
    while lo < n && is_space_char(b[lo])
        invariant
            lo <= n == b@.len(),
            forall|i: int| 0 <= i < lo ==> is_space(#[trigger] b@[i]),
        decreases n - lo,
    {
        lo = lo + 1;
    }
    let mut hi: usize = n;
    while hi > lo && is_space_char(b[hi - 1])
        invariant
            lo <= hi <= n == b@.len(),
            forall|i: int| hi <= i < n ==> is_space(#[trigger] b@[i]),
        decreases hi - lo,
    {
        hi = hi - 1;
    }
    proof {
        assert(trimmed_bounds(b@, lo as int, hi as int));
        let c = choose|lo: int, hi: int| trimmed_bounds(b@, lo, hi);
        lemma_trim_unique(b@, c.0, c.1, lo as int, hi as int);
    }
    if hi - lo >= 2 && b[lo] == '0' && (b[lo + 1] == 'x' || b[lo + 1] == 'X') {
        let r = parse_u64_chars(&b, lo + 2, hi, 16);
        proof {
            let t = b@.subrange(lo as int, hi as int);
            assert(t.subrange(2, t.len() as int) =~= b@.subrange(lo + 2, hi as int));
        }
        r
    } else {
        parse_u64_chars(&b, lo, hi, 10)
    }
}

/// The characters of a string.
pub(crate) fn chars_of(s: &str) -> (r: Vec<char>)
    ensures
        r@ == s@,
{
    let n = s.unicode_len();
    let mut out: Vec<char> = Vec::new();
    let mut i: usize = 0;
    while i < n
        invariant
            n == s@.len(),
            i <= n,
            out@ == s@.subrange(0, i as int),
        decreases n - i,
    {
        out.push(s.get_char(i));
        proof {
            assert(out@ =~= s@.subrange(0, i + 1));
        }
        i = i + 1;
    }
    proof {
        assert(s@.subrange(0, n as int) =~= s@);
    }
    out
}

proof fn lemma_trim_unique(s: Seq<char>, a0: int, a1: int, b0: int, b1: int)
    requires
        trimmed_bounds(s, a0, a1),
        trimmed_bounds(s, b0, b1),
    ensures
        s.subrange(a0, a1) == s.subrange(b0, b1),
{
    if a0 < a1 && b0 < b1 {
        assert(a0 == b0);
        assert(a1 == b1);
    } else {
        assert(s.subrange(a0, a1) =~= Seq::<char>::empty()) by {
            if a0 < a1 {
                assert(!is_space(s[a0]));
            }
        }
        assert(s.subrange(b0, b1) =~= Seq::<char>::empty()) by {
            if b0 < b1 {
                assert(!is_space(s[b0]));
            }
        }
    }
}

/// Region-tag fallback of the Kepler map, on the tag's characters.
pub open spec fn spec_kepler_hint_chars(h: Seq<char>) -> (&'static str, u32) {
    if h == "PCLOCK"@ {
        ("PCLOCK", 1)
    } else if h == "PMC"@ {
        ("PMC", 3)
    } else if h == "PTIMER"@ {
        ("PTIMER", 6)
    } else if h == "PFB"@ {
        ("PFB", 10)
    } else if h == "PFIFO"@ {
        ("PFIFO", 25)
    } else if h == "PGRAPH"@ {
        ("PGRAPH", 30)
    } else if h == "PCOPY"@ {
        ("PCOPY", 27)
    } else if h == "PBUS"@ {
        ("PBUS", 5)
    } else if h == "PROM"@ {
        ("PROM", 50)
    } else if h == "PPCI"@ {
        ("PPCI", 8)
    } else {
        ("UNKNOWN", 99)
    }
}

fn same_text(a: &String, b: &str) -> (r: bool)
    ensures
        r == (a@ == b@),
{
    let t = String::from_str(b);
    *a == t
}

/// Classify a captured register by offset, with its captured domain tag
/// as fallback.
pub fn classify_k80_entry(offset: usize, region: &String) -> (r: (&'static str, u32))
    ensures
        r == spec_classify_with_hint(spec_kepler_domains(), offset as int, spec_kepler_hint_chars(region@)),
{
    let t = crate::boot_follower::kepler_domains();
    if let Some(x) = crate::boot_follower::lookup_in_table(t.as_slice(), offset) {
        return x;
    }
    if same_text(region, "PCLOCK") {
        ("PCLOCK", 1)
    } else if same_text(region, "PMC") {
        ("PMC", 3)
    } else if same_text(region, "PTIMER") {
        ("PTIMER", 6)
    } else if same_text(region, "PFB") {
        ("PFB", 10)
    } else if same_text(region, "PFIFO") {
        ("PFIFO", 25)
    } else if same_text(region, "PGRAPH") {
        ("PGRAPH", 30)
    } else if same_text(region, "PCOPY") {
        ("PCOPY", 27)
    } else if same_text(region, "PBUS") {
        ("PBUS", 5)
    } else if same_text(region, "PROM") {
        ("PROM", 50)
    } else if same_text(region, "PPCI") {
        ("PPCI", 8)
    } else {
        ("UNKNOWN", 99)
    }
}

// ── Recipe filtering ────────────────────────────────────────────────────

/// Only the clock/PLL registers of a recipe (priority 0-2), in order.
pub fn filter_clock_registers(steps: &[RecipeStep]) -> (r: Vec<RecipeStep>)
    ensures
        r@ == steps@.filter(|s: RecipeStep| s.priority <= 2),
{
    let mut out: Vec<RecipeStep> = Vec::new();
    let mut i: usize = 0;
    while i < steps.len()
        invariant
            i <= steps@.len(),
            out@ == steps@.subrange(0, i as int).filter(|s: RecipeStep| s.priority <= 2),
        decreases steps.len() - i,
    {
        proof {
            assert(steps@.subrange(0, i + 1) =~= steps@.subrange(0, i as int).push(steps@[i as int]));
            steps@.subrange(0, i as int).lemma_filter_push(steps@[i as int], |s: RecipeStep| s.priority <= 2);
        }
        if steps[i].priority <= 2 {
            out.push(steps[i].clone());
        }
        i = i + 1;
    }
    proof {
        assert(steps@.subrange(0, steps@.len() as int) =~= steps@);
    }
    out
}

/// A register value is a PRI fault sentinel (0xBADxxxxx) captured from
/// cold or dead hardware.
pub fn is_pri_fault_value(value: u32) -> (r: bool)
    ensures
        r == spec_is_pri_error(value),
{
    is_pri_error(value)
}

/// Filtering PRI faults twice is filtering them once: what the filter
/// keeps holds no PRI fault value.
pub proof fn lemma_filter_pri_faults_idempotent(steps: Seq<RecipeStep>)
    ensures
        steps.filter(|s: RecipeStep| !spec_is_pri_error(s.value)).filter(
            |s: RecipeStep| !spec_is_pri_error(s.value),
        ) == steps.filter(|s: RecipeStep| !spec_is_pri_error(s.value)),
    decreases steps.len(),
{
    let p = |s: RecipeStep| !spec_is_pri_error(s.value);
    if steps.len() > 0 {
        let init = steps.drop_last();
        lemma_filter_pri_faults_idempotent(init);
        assert(steps =~= init.push(steps.last()));
        Seq::lemma_filter_push(init, steps.last(), p);
        if p(steps.last()) {
            Seq::lemma_filter_push(init.filter(p), steps.last(), p);
        }
    } else {
        assert(steps.filter(p) =~= Seq::<RecipeStep>::empty());
        assert(steps.filter(p).filter(p) =~= Seq::<RecipeStep>::empty());
    }
}

/// The recipe without the steps whose value is a PRI fault sentinel, in
/// order.
pub fn filter_pri_faults(steps: Vec<RecipeStep>) -> (r: Vec<RecipeStep>)
    ensures
        r@ == steps@.filter(|s: RecipeStep| !spec_is_pri_error(s.value)),
{
    let mut out: Vec<RecipeStep> = Vec::new();
    let mut i: usize = 0;
    while i < steps.len()
        invariant
            i <= steps@.len(),
            out@ == steps@.subrange(0, i as int).filter(|s: RecipeStep| !spec_is_pri_error(s.value)),
        decreases steps.len() - i,
    {
        proof {
            assert(steps@.subrange(0, i + 1) =~= steps@.subrange(0, i as int).push(steps@[i as int]));
            steps@.subrange(0, i as int).lemma_filter_push(
                steps@[i as int],
                |s: RecipeStep| !spec_is_pri_error(s.value),
            );
        }
        if !is_pri_fault_value(steps[i].value) {
            out.push(steps[i].clone());
        }
        i = i + 1;
    }
    proof {
        assert(steps@.subrange(0, steps@.len() as int) =~= steps@);
    }
    out
}

// ── Capture formats ─────────────────────────────────────────────────────

/// Detected recipe format, from the JSON structure.
#[derive(Debug, Clone, Copy, PartialEq, Eq, Structural)]
pub enum RecipeFormat {
    /// `{ "type": "...", "writes": [...] }`
    BiosRecipe,
    /// `{ "added": {...}, "changed": {...} }`
    ReagentDiff,
    /// `{ "bdf": "...", "regions": {...} }`
    ReagentSnapshot,
    /// `[{ "domain": "...", "offset": ... }]`
    FlatRecipe,
    /// `{ "recipe": [...], ... }` or `{ "steps": [...], ... }`
    WrappedRecipe,
}

/// What the format detection reads of a JSON document: whether it is an
/// array, which keys its top-level object has, and whether `recipe` and
/// `steps` hold arrays.
#[derive(Debug, Clone, Copy)]
pub struct JsonShape {
    pub is_array: bool,
    pub has_type: bool,
    pub has_writes: bool,
    pub has_added: bool,
    pub has_changed: bool,
    pub has_regions: bool,
    pub recipe_is_array: bool,
    pub steps_is_array: bool,
}

/// The format a document of this shape is read as.
pub open spec fn spec_detect(s: JsonShape) -> RecipeFormat {
    if s.is_array {
        RecipeFormat::FlatRecipe
    } else if s.has_type && s.has_writes {
        RecipeFormat::BiosRecipe
    } else if s.has_added || s.has_changed {
        RecipeFormat::ReagentDiff
    } else if s.has_regions {
        RecipeFormat::ReagentSnapshot
    } else if s.recipe_is_array || s.steps_is_array {
        RecipeFormat::WrappedRecipe
    } else {
        RecipeFormat::FlatRecipe
    }
}

/// Detect the recipe format of a JSON document.
pub fn detect_recipe_format(shape: &JsonShape) -> (r: RecipeFormat)
    ensures
        r == spec_detect(*shape),
{
    if shape.is_array {
        return RecipeFormat::FlatRecipe;
    }
    if shape.has_type && shape.has_writes {
        return RecipeFormat::BiosRecipe;
    }
    if shape.has_added || shape.has_changed {
        return RecipeFormat::ReagentDiff;
    }
    if shape.has_regions {
        return RecipeFormat::ReagentSnapshot;
    }
    if shape.recipe_is_array || shape.steps_is_array {
        return RecipeFormat::WrappedRecipe;
    }
    RecipeFormat::FlatRecipe
}

/// One write of a BIOS recipe.
#[derive(Debug, Clone)]
pub struct BiosWrite {
    pub offset: usize,
    pub value: u64,
    pub region: String,
}

/// The recipe step of a BIOS write: classified by offset and region, the
/// value truncated to 32 bits.
pub open spec fn bios_step(w: BiosWrite) -> (Seq<char>, usize, u32, u32) {
    let (name, prio) = spec_classify_with_hint(
        spec_kepler_domains(),
        w.offset as int,
        spec_kepler_hint_chars(w.region@),
    );
    (name@, w.offset, w.value as u32, prio)
}

/// Convert BIOS recipe writes to steps in replay order: stably sorted by
/// (priority, offset).
pub fn bios_recipe_steps(writes: &Vec<BiosWrite>) -> (r: Vec<RecipeStep>)
    ensures
        stable_sorted_of(
            steps_view(r@),
            writes@.map_values(|w: BiosWrite| bios_step(w)),
            crate::boot_follower::by_priority_offset(),
        ),
{
    let mut steps: Vec<RecipeStep> = Vec::new();
    let mut i: usize = 0;
    while i < writes.len()
        invariant
            i <= writes@.len(),
            steps_view(steps@) == writes@.subrange(0, i as int).map_values(|w: BiosWrite| bios_step(w)),
        decreases writes.len() - i,
    {
        let w = &writes[i];
        let (domain, priority) = classify_k80_entry(w.offset, &w.region);
        let ghost sb = steps@;
        steps.push(
            RecipeStep { domain: String::from_str(domain), offset: w.offset, value: w.value as u32, priority },
        );
        proof {
            assert(writes@.subrange(0, i + 1) =~= writes@.subrange(0, i as int).push(*w));
            assert(steps_view(steps@) =~= steps_view(sb).push(bios_step(*w)));
            assert(writes@.subrange(0, i + 1).map_values(|w: BiosWrite| bios_step(w))
                =~= writes@.subrange(0, i as int).map_values(|w: BiosWrite| bios_step(w)).push(
                bios_step(*w),
            ));
        }
        i = i + 1;
    }
    proof {
        assert(writes@.subrange(0, writes@.len() as int) =~= writes@);
    }
    crate::boot_follower::sort_steps_by_priority_offset(steps)
}

/// One register of a reagent capture: the domain it was captured under,
/// and its offset and value as written in the capture.
#[derive(Debug, Clone)]
pub struct CaptureEntry {
    pub domain: String,
    pub offset: String,
    pub value: String,
}

/// The entry's offset and value both parse.
pub open spec fn entry_parses(e: CaptureEntry) -> bool {
    spec_parse_hex(e.offset@) is Some && spec_parse_hex(e.value@) is Some
}

/// The recipe step of a capture entry: classified by offset and captured
/// domain, the value truncated to 32 bits.
pub open spec fn capture_step(e: CaptureEntry) -> (Seq<char>, usize, u32, u32) {
    let off = spec_parse_hex(e.offset@).unwrap() as usize;
    let val = spec_parse_hex(e.value@).unwrap() as u32;
    let (name, prio) = spec_classify_with_hint(
        spec_kepler_domains(),
        off as int,
        spec_kepler_hint_chars(e.domain@),
    );
    (name@, off, val, prio)
}

/// A changed register of a reagent diff: the domain it was captured under,
/// its offset, and its warm value when the diff gives one.
#[derive(Debug, Clone)]
pub struct ChangedRegister {
    pub domain: String,
    pub offset: String,
    pub warm: Option<String>,
}

/// The capture entry of a changed register: its warm value.
pub open spec fn warm_entry(c: ChangedRegister) -> CaptureEntry {
    CaptureEntry { domain: c.domain, offset: c.offset, value: c.warm->Some_0 }
}

/// The entries of a reagent diff, in order: the added registers, then the
/// warm value of each changed register that has one (the others are left
/// out).
pub fn reagent_diff_entries(added: &Vec<CaptureEntry>, changed: &Vec<ChangedRegister>) -> (r: Vec<CaptureEntry>)
    ensures
        r@ == added@ + changed@.filter(|c: ChangedRegister| c.warm is Some).map_values(
            |c: ChangedRegister| warm_entry(c),
        ),
{
    let mut out: Vec<CaptureEntry> = Vec::new();
    let mut i: usize = 0;
    while i < added.len()
        invariant
            i <= added@.len(),
            out@ == added@.subrange(0, i as int),
        decreases added.len() - i,
    {
        let a = &added[i];
        out.push(CaptureEntry { domain: a.domain.clone(), offset: a.offset.clone(), value: a.value.clone() });
        proof {
            assert(out@ =~= added@.subrange(0, i + 1));
        }
        i = i + 1;
    }
    let mut j: usize = 0;
    proof {
        assert(added@.subrange(0, added@.len() as int) =~= added@);
        assert(changed@.subrange(0, 0).filter(|c: ChangedRegister| c.warm is Some) =~= Seq::<ChangedRegister>::empty());
        assert(out@ =~= added@ + changed@.subrange(0, 0).filter(|c: ChangedRegister| c.warm is Some).map_values(
            |c: ChangedRegister| warm_entry(c),
        ));
    }
    while j < changed.len()
        invariant
            j <= changed@.len(),
            out@ == added@ + changed@.subrange(0, j as int).filter(|c: ChangedRegister| c.warm is Some).map_values(
                |c: ChangedRegister| warm_entry(c),
            ),
        decreases changed.len() - j,
    {
        let c = &changed[j];
        let ghost before = out@;
        proof {
            assert(changed@.subrange(0, j + 1) =~= changed@.subrange(0, j as int).push(changed@[j as int]));
        }
        match &c.warm {
            Some(w) => {
                out.push(CaptureEntry { domain: c.domain.clone(), offset: c.offset.clone(), value: w.clone() });
                proof {
                    let pred = |c: ChangedRegister| c.warm is Some;
                    let f = |c: ChangedRegister| warm_entry(c);
                    let pre = changed@.subrange(0, j as int);
                    Seq::lemma_filter_push(pre, changed@[j as int], pred);
                    assert(pre.push(changed@[j as int]).filter(pred) == pre.filter(pred).push(changed@[j as int]));
                    assert(pre.filter(pred).push(changed@[j as int]).map_values(f) =~= pre.filter(pred).map_values(
                        f,
                    ).push(warm_entry(changed@[j as int])));
                    assert(out@ =~= added@ + changed@.subrange(0, j + 1).filter(pred).map_values(f));
                }
            },
            None => {
                proof {
                    let pred = |c: ChangedRegister| c.warm is Some;
                    let pre = changed@.subrange(0, j as int);
                    Seq::lemma_filter_push(pre, changed@[j as int], pred);
                    assert(pre.push(changed@[j as int]).filter(pred) == pre.filter(pred));
                }
            },
        }
        j = j + 1;
    }
    proof {
        assert(changed@.subrange(0, changed@.len() as int) =~= changed@);
    }
    out
}

/// Convert reagent capture entries (a snapshot's registers, or a diff's
/// added registers and changed registers with their warm value) to steps
/// in replay order: entries whose offset or value does not parse are
/// dropped, and the rest stably sorted by (priority, offset).
pub fn capture_steps(entries: &Vec<CaptureEntry>) -> (r: Vec<RecipeStep>)
    ensures
        stable_sorted_of(
            steps_view(r@),
            entries@.filter(|e: CaptureEntry| entry_parses(e)).map_values(|e: CaptureEntry| capture_step(e)),
            crate::boot_follower::by_priority_offset(),
        ),
{
    let mut steps: Vec<RecipeStep> = Vec::new();
    let mut i: usize = 0;
    while i < entries.len()
        invariant
            i <= entries@.len(),
            steps_view(steps@) == entries@.subrange(0, i as int).filter(
                |e: CaptureEntry| entry_parses(e),
            ).map_values(|e: CaptureEntry| capture_step(e)),
        decreases entries.len() - i,
    {
        let e = &entries[i];
        proof {
            assert(entries@.subrange(0, i + 1) =~= entries@.subrange(0, i as int).push(*e));
            entries@.subrange(0, i as int).lemma_filter_push(*e, |e: CaptureEntry| entry_parses(e));
        }
        let off = parse_hex(e.offset.as_str());
        let val = parse_hex(e.value.as_str());
        match (off, val) {
            (Some(o), Some(v)) => {
                let offset = o as usize;
                let (domain, priority) = classify_k80_entry(offset, &e.domain);
                let ghost sb = steps@;
                steps.push(
                    RecipeStep { domain: String::from_str(domain), offset, value: v as u32, priority },
                );
                proof {
                    assert(steps_view(steps@) =~= steps_view(sb).push(capture_step(*e)));
                    assert(entries@.subrange(0, i + 1).filter(|e: CaptureEntry| entry_parses(e))
                        =~= entries@.subrange(0, i as int).filter(|e: CaptureEntry| entry_parses(e)).push(
                        *e,
                    ));
                    assert(entries@.subrange(0, i + 1).filter(|e: CaptureEntry| entry_parses(e)).map_values(
                        |e: CaptureEntry| capture_step(e),
                    ) =~= steps_view(steps@));
                }
            },
            _ => {},
        }
        i = i + 1;
    }
    proof {
        assert(entries@.subrange(0, entries@.len() as int) =~= entries@);
    }
    crate::boot_follower::sort_steps_by_priority_offset(steps)
}

/// A JSON scalar a wrapped recipe may hold for an offset or value.
#[derive(Debug, Clone)]
pub enum JsonScalar {
    Unsigned(u64),
    Text(String),
    Other,
}

/// A number written as an unsigned integer, or as hexadecimal text with
/// or without `0x`/`0X`.
pub open spec fn spec_hex_or_int(v: JsonScalar) -> Option<usize> {
    match v {
        JsonScalar::Unsigned(n) => Some(n as usize),
        JsonScalar::Text(s) => {
            let b = s@;
            let d = if b.len() >= 2 && b[0] == '0' && (b[1] == 'x' || b[1] == 'X') {
                b.subrange(2, b.len() as int)
            } else {
                b
            };
            match spec_parse_u64(d, 16) {
                Some(x) => if x <= usize::MAX {
                    Some(x as usize)
                } else {
                    None
                },
                None => None,
            }
        },
        JsonScalar::Other => None,
    }
}

/// Read an offset or value of a wrapped recipe.
pub fn parse_hex_or_int(v: &JsonScalar) -> (r: Option<usize>)
    ensures
        r == spec_hex_or_int(*v),
{
    match v {
        JsonScalar::Unsigned(n) => Some(*n as usize),
        JsonScalar::Text(s) => {
            let b = chars_of(s.as_str());
            let start: usize = if b.len() >= 2 && b[0] == '0' && (b[1] == 'x' || b[1] == 'X') {
                2
            } else {
                0
            };
            proof {
                assert(b@.subrange(0, b@.len() as int) =~= b@);
            }
            match parse_u64_chars(&b, start, b.len(), 16) {
                Some(x) => if x <= usize::MAX as u64 {
                    Some(x as usize)
                } else {
                    None
                },
                None => None,
            }
        },
        JsonScalar::Other => None,
    }
}

/// One entry of a wrapped recipe's `recipe` (or `steps`) array: its
/// `domain` string, its `offset` and `value` (`Other` when absent or of
/// another kind), and its `priority` number, where present.
#[derive(Debug, Clone)]
pub struct WrappedEntry {
    pub domain: Option<String>,
    pub offset: JsonScalar,
    pub value: JsonScalar,
    pub priority: Option<u64>,
}

/// The step of a wrapped entry: domain "UNKNOWN", offset and value 0 and
/// priority 99 where missing; the value and priority truncated to 32 bits.
pub open spec fn wrapped_step(e: WrappedEntry) -> (Seq<char>, usize, u32, u32) {
    (
        match e.domain {
            Some(d) => d@,
            None => "UNKNOWN"@,
        },
        match spec_hex_or_int(e.offset) {
            Some(o) => o,
            None => 0,
        },
        match spec_hex_or_int(e.value) {
            Some(v) => v as u32,
            None => 0,
        },
        match e.priority {
            Some(p) => p as u32,
            None => 99,
        },
    )
}

/// Convert the entries of a wrapped recipe to steps, in their order.
pub fn wrapped_recipe_steps(entries: &Vec<WrappedEntry>) -> (r: Vec<RecipeStep>)
    ensures
        steps_view(r@) == entries@.map_values(|e: WrappedEntry| wrapped_step(e)),
{
    let mut steps: Vec<RecipeStep> = Vec::new();
    let mut i: usize = 0;
    while i < entries.len()
        invariant
            i <= entries@.len(),
            steps_view(steps@) == entries@.subrange(0, i as int).map_values(|e: WrappedEntry| wrapped_step(e)),
        decreases entries.len() - i,
    {
        let e = &entries[i];
        let domain = match &e.domain {
            Some(d) => d.clone(),
            None => String::from_str("UNKNOWN"),
        };
        let offset = match parse_hex_or_int(&e.offset) {
            Some(o) => o,
            None => 0,
        };
        let value: u32 = match parse_hex_or_int(&e.value) {
            Some(v) => v as u32,
            None => 0,
        };
        let priority: u32 = match e.priority {
            Some(p) => p as u32,
            None => 99,
        };
        let ghost sb = steps@;
        steps.push(RecipeStep { domain, offset, value, priority });
        proof {
            assert(entries@.subrange(0, i + 1) =~= entries@.subrange(0, i as int).push(*e));
            assert(steps_view(steps@) =~= steps_view(sb).push(wrapped_step(*e)));
            assert(entries@.subrange(0, i + 1).map_values(|e: WrappedEntry| wrapped_step(e))
                =~= entries@.subrange(0, i as int).map_values(|e: WrappedEntry| wrapped_step(e)).push(
                wrapped_step(*e),
            ));
        }
        i = i + 1;
    }
    proof {
        assert(entries@.subrange(0, entries@.len() as int) =~= entries@);
    }
    steps
}

// ── Cold boot ───────────────────────────────────────────────────────────

/// Which register domains the cold boot replays beyond DEVINIT.
#[derive(Debug, Clone, Copy, PartialEq, Eq, Structural)]
pub struct ColdBootConfig {
    /// PGRAPH (priority 30): required for GR engine and FECS execution.
    pub include_pgraph: bool,
    /// PCCSR (priority 35): channel/context status registers.
    pub include_pccsr: bool,
    /// PRAMIN (priority 40): instance memory window.
    pub include_pramin: bool,
}

impl Default for ColdBootConfig {
    fn default() -> (r: Self)
        ensures
            r == (ColdBootConfig { include_pgraph: false, include_pccsr: false, include_pramin: false }),
    {
        ColdBootConfig { include_pgraph: false, include_pccsr: false, include_pramin: false }
    }
}

/// The exclusive priority bound of the extended replay.
pub open spec fn spec_max_priority(c: ColdBootConfig) -> u32 {
    if c.include_pramin {
        100
    } else if c.include_pccsr {
        40
    } else if c.include_pgraph {
        35
    } else {
        30
    }
}

/// The step belongs to the extended replay of this configuration.
pub open spec fn extended_step(c: ColdBootConfig, s: RecipeStep) -> bool {
    &&& 30 <= s.priority < spec_max_priority(c)
    &&& (s.priority == 30 ==> c.include_pgraph)
    &&& (s.priority == 35 ==> c.include_pccsr)
    &&& (s.priority == 40 ==> c.include_pramin)
}

impl ColdBootConfig {
    /// Full recipe replay: all domains including PGRAPH, PCCSR, PRAMIN.
    pub fn full() -> (r: Self)
        ensures
            r == (ColdBootConfig { include_pgraph: true, include_pccsr: true, include_pramin: true }),
    {
        ColdBootConfig { include_pgraph: true, include_pccsr: true, include_pramin: true }
    }

    /// The exclusive priority bound of the extended replay.
    pub fn max_priority(&self) -> (r: u32)
        ensures
            r == spec_max_priority(*self),
    {
        if self.include_pramin {
            100
        } else if self.include_pccsr {
            40
        } else if self.include_pgraph {
            35
        } else {
            30
        }
    }
}

/// Result of a K80 cold boot attempt.
#[derive(Debug)]
pub struct K80ColdBootResult {
    /// Clock replay result.
    pub clock_replay: ReplayResult,
    /// DEVINIT replay result.
    pub devinit_replay: Option<ReplayResult>,
    /// Extended (PGRAPH/PCCSR/PRAMIN) replay result, if any.
    pub pgraph_replay: Option<ReplayResult>,
    /// Firmware snapshot after the boot attempt.
    pub firmware_snapshot: FirmwareSnapshot,
    /// FECS appears to be running.
    pub fecs_running: bool,
    /// Step-by-step log.
    pub log: Vec<String>,
}

fn select(steps: &Vec<RecipeStep>, c: &ColdBootConfig, devinit: bool) -> (r: Vec<RecipeStep>)
    ensures
        devinit ==> r@ == steps@.filter(|s: RecipeStep| 2 < s.priority < 30),
        !devinit ==> r@ == steps@.filter(|s: RecipeStep| extended_step(*c, s)),
{
    let max_prio = c.max_priority();
    let mut out: Vec<RecipeStep> = Vec::new();
    let mut i: usize = 0;
    while i < steps.len()
        invariant
            i <= steps@.len(),
            max_prio == spec_max_priority(*c),
            devinit ==> out@ == steps@.subrange(0, i as int).filter(|s: RecipeStep| 2 < s.priority < 30),
            !devinit ==> out@ == steps@.subrange(0, i as int).filter(|s: RecipeStep| extended_step(*c, s)),
        decreases steps.len() - i,
    {
        let s = &steps[i];
        proof {
            assert(steps@.subrange(0, i + 1) =~= steps@.subrange(0, i as int).push(*s));
            steps@.subrange(0, i as int).lemma_filter_push(*s, |s: RecipeStep| 2 < s.priority < 30);
            steps@.subrange(0, i as int).lemma_filter_push(*s, |s: RecipeStep| extended_step(*c, s));
        }
        let keep = if devinit {
            s.priority > 2 && s.priority < 30
        } else {
            s.priority >= 30 && s.priority < max_prio && (s.priority != 30 || c.include_pgraph) && (
            s.priority != 35 || c.include_pccsr) && (s.priority != 40 || c.include_pramin)
        };
        if keep {
            out.push(s.clone());
        }
        i = i + 1;
    }
    proof {
        assert(steps@.subrange(0, steps@.len() as int) =~= steps@);
    }
    out
}

/// The chip field of a BOOT0 value is a Kepler chip (0x0E0..=0x0FF).
pub open spec fn kepler_chip(boot0: u32) -> bool {
    0x0E0 <= ((boot0 >> 20u32) & 0x1FFu32) <= 0x0FF
}

/// The replays of a successful cold boot, in the trace `ev`: the clock
/// registers (priority <= 2) from `p1` to `p2` with the Kepler PLL hooks
/// (50 ms settle, 500 ms poll), the devinit registers (priority 3..29)
/// from `p2` to `p3` with no hooks, then, when `extended`, the extended
/// registers from `p3` to `p4` with no hooks (otherwise `p4 == p3`).
pub open spec fn cold_boot_replays(
    ev: Seq<BusEvent>,
    recipe: Seq<RecipeStep>,
    c: ColdBootConfig,
    extended: bool,
    p1: int,
    p2: int,
    p3: int,
    p4: int,
) -> bool {
    &&& replay_ran(
        KeplerPllHooks { pll_settle_ms: 50, poll_timeout_ms: 500 },
        recipe.filter(|s: RecipeStep| s.priority <= 2),
        ev,
        p1,
        p2,
    )
    &&& replay_ran(NoHooks, recipe.filter(|s: RecipeStep| 2 < s.priority < 30), ev, p2, p3)
    &&& if extended {
        replay_ran(NoHooks, recipe.filter(|s: RecipeStep| extended_step(c, s)), ev, p3, p4)
    } else {
        p4 == p3
    }
}

/// Cold boot a K80 from a loaded recipe (PRI fault values already
/// stripped).
///
/// Captures a pre-boot firmware snapshot and refuses a non-Kepler GPU.
/// Replays the clock registers (priority 0-2) with Kepler PLL hooks, the
/// infrastructure DEVINIT (priority 3-29), and the extended domains the
/// configuration includes, then captures a post-boot snapshot and logs
/// its differences from the pre-boot one.
#[verifier::spinoff_prover]
pub fn cold_boot<B: RegisterBus>(
    bar0: &mut Bar0<B>,
    full_recipe: &Vec<RecipeStep>,
    config: &ColdBootConfig,
    timestamp_ms: u64,
) -> (r: Result<K80ColdBootResult, String>)
    ensures
        old(bar0).events().is_prefix_of(final(bar0).events()),
        old(bar0).events().len() < final(bar0).events().len(),
        final(bar0).events()[old(bar0).events().len() as int] is Read,
        final(bar0).events()[old(bar0).events().len() as int]->Read_reg == 0,
        ({
            let boot0 = crate::pmu::read_value(
                final(bar0).events()[old(bar0).events().len() as int],
                0xDEAD_DEAD,
            );
            &&& r is Err <==> !kepler_chip(boot0)
            &&& r matches Ok(res) ==> {
                &&& res.clock_replay.applied + res.clock_replay.failed == full_recipe@.filter(
                    |s: RecipeStep| s.priority <= 2,
                ).len()
                &&& res.devinit_replay matches Some(d) && d.applied + d.failed == full_recipe@.filter(
                    |s: RecipeStep| 2 < s.priority < 30,
                ).len()
                &&& (res.pgraph_replay is Some <==> (spec_max_priority(*config) > 30
                    || config.include_pgraph) && full_recipe@.filter(
                    |s: RecipeStep| extended_step(*config, s),
                ).len() > 0)
                &&& res.pgraph_replay matches Some(p) ==> p.applied + p.failed == full_recipe@.filter(
                    |s: RecipeStep| extended_step(*config, s),
                ).len()
                &&& !res.fecs_running
                &&& exists|p1: int, p2: int, p3: int, p4: int|
                    #[trigger] cold_boot_replays(
                        final(bar0).events(),
                        full_recipe@,
                        *config,
                        res.pgraph_replay is Some,
                        p1,
                        p2,
                        p3,
                        p4,
                    ) && old(bar0).events().len() < p1
            }
        }),
{
    let ghost e0 = bar0.events();
    let mut log: Vec<String> = Vec::new();
    let pre_snap = capture_firmware_snapshot(bar0, "k80-cold-pre-boot", timestamp_ms);
    let ghost e1 = bar0.events();
    let mut l0 = String::from_str("pre-boot: BOOT0=");
    push_hex8(&mut l0, pre_snap.boot0);
    l0.append(" arch=");
    l0.append(pre_snap.architecture.as_str());
    log.push(l0);
    let chip = (pre_snap.boot0 >> 20) & 0x1FF;
    if !(chip >= 0x0E0 && chip <= 0x0FF) {
        let mut msg = String::from_str("K80 cold boot requires Kepler GPU, got chip=0x");
        push_hex_n(&mut msg, chip as u64, 3);
        msg.append(" (");
        msg.append(pre_snap.architecture.as_str());
        msg.append(")");
        return Err(msg);
    }
    let clock_steps = filter_clock_registers(full_recipe.as_slice());
    let mut l1 = String::from_str("clock init: ");
    push_dec(&mut l1, clock_steps.len() as u64);
    l1.append(" registers (ROOT_PLL + PCLOCK + CLK)");
    log.push(l1);
    let pll_hooks = KeplerPllHooks::default();
    let clock_result = match apply_recipe_phased(bar0, clock_steps.as_slice(), &pll_hooks) {
        Ok(res) => res,
        Err(_) => {
            return Err(String::from_str("clock replay failed"));
        },
    };
    let ghost e2 = bar0.events();
    let mut l2 = String::from_str("clock replay: applied=");
    push_dec(&mut l2, clock_result.applied as u64);
    l2.append(" failed=");
    push_dec(&mut l2, clock_result.failed as u64);
    log.push(l2);
    if !clock_result.ptimer_ticking {
        log.push(String::from_str("WARNING: PTIMER not ticking after clock init - FECS may not start"));
    }
    let devinit_steps = select(full_recipe, config, true);
    let mut l3 = String::from_str("devinit: ");
    push_dec(&mut l3, devinit_steps.len() as u64);
    l3.append(" registers (PMC through PBDMA)");
    log.push(l3);
    let devinit_result = match apply_recipe_to_bar0(bar0, devinit_steps.as_slice()) {
        Ok(res) => res,
        Err(_) => {
            return Err(String::from_str("devinit replay failed"));
        },
    };
    let ghost e3 = bar0.events();
    let max_prio = config.max_priority();
    let ghost mut extended_steps_view: Seq<RecipeStep> = Seq::empty();
    let pgraph_replay = if max_prio > 30 || config.include_pgraph {
        let extended_steps = select(full_recipe, config, false);
        proof {
            extended_steps_view = extended_steps@;
        }
        if extended_steps.len() == 0 {
            None
        } else {
            let mut l4 = String::from_str("extended init: ");
            push_dec(&mut l4, extended_steps.len() as u64);
            l4.append(" registers");
            log.push(l4);
            let result = match apply_recipe_to_bar0(bar0, extended_steps.as_slice()) {
                Ok(res) => res,
                Err(_) => {
                    return Err(String::from_str("extended replay failed"));
                },
            };
            Some(result)
        }
    } else {
        log.push(String::from_str("PGRAPH/PCCSR/PRAMIN: skipped per config"));
        None
    };
    let ghost e4 = bar0.events();
    proof {
        if pgraph_replay is None {
            crate::bus::lemma_prefix_refl(e3);
        }
    }
    log.push(String::from_str("FECS PIO boot skipped - no firmware loader"));
    let post_snap = capture_firmware_snapshot(bar0, "k80-cold-post-boot", timestamp_ms);
    let diffs = diff_snapshots(&pre_snap, &post_snap);
    let mut l5 = String::from_str("firmware diff: ");
    push_dec(&mut l5, diffs.len() as u64);
    l5.append(" registers changed");
    log.push(l5);
    let mut k: usize = 0;
    while k < diffs.len()
        invariant
            k <= diffs@.len(),
        decreases diffs.len() - k,
    {
        let mut l = String::from_str("  ");
        l.append(diffs[k].0.as_str());
        l.append(": ");
        l.append(diffs[k].1.as_str());
        l.append(" -> ");
        l.append(diffs[k].2.as_str());
        log.push(l);
        k = k + 1;
    }
    proof {
        crate::bus::lemma_prefix_trans(e1, e2, e3);
        crate::bus::lemma_prefix_trans(e1, e3, e4);
        crate::bus::lemma_prefix_trans(e1, e4, bar0.events());
        crate::bus::lemma_prefix_trans(e0, e1, bar0.events());
        assert(bar0.events()[e0.len() as int] == bar0.events().subrange(0, e1.len() as int)[e0.len() as int]);
        let g = bar0.events();
        crate::bus::lemma_prefix_trans(e2, e3, e4);
        crate::bus::lemma_prefix_trans(e2, e4, g);
        crate::bus::lemma_prefix_trans(e3, e4, g);
        lemma_replay_ran_grows(pll_hooks, clock_steps@, e2, g, e1.len() as int, e2.len() as int);
        lemma_replay_ran_grows(NoHooks, devinit_steps@, e3, g, e2.len() as int, e3.len() as int);
        if pgraph_replay is Some {
            lemma_replay_ran_grows(NoHooks, extended_steps_view, e4, g, e3.len() as int, e4.len() as int);
        }
        assert(cold_boot_replays(
            g,
            full_recipe@,
            *config,
            pgraph_replay is Some,
            e1.len() as int,
            e2.len() as int,
            e3.len() as int,
            e4.len() as int,
        ));
    }
    Ok(
        K80ColdBootResult {
            clock_replay: clock_result,
            devinit_replay: Some(devinit_result),
            pgraph_replay,
            firmware_snapshot: post_snap,
            fecs_running: false,
            log,
        },
    )
}

} // verus!
