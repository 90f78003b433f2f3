use std::collections::BTreeMap;

use coral_driver::boot_follower::{
    bar0_offset, classify_domain, classify_from_table, kepler_domains, kepler_phases, BootDiff, BootSequence,
    DomainMap, KeplerBootSequence, KeplerDomainMap, RecipeStep, VoltaBootSequence, VoltaDomainMap,
};

#[test]
fn classify_domains() {
    assert_eq!(classify_domain(0x136400).0, "ROOT_PLL");
    assert_eq!(classify_domain(0x137000).0, "PCLOCK");
    assert_eq!(classify_domain(0x000200).0, "PMC");
    assert_eq!(classify_domain(0x9A0000).0, "FBPA");
    assert_eq!(classify_domain(0x17E200).0, "LTC");
    assert_eq!(classify_domain(0x100000).0, "PFB");
}

#[test]
fn boot_diff_detects_changes() {
    let mut oracle = BTreeMap::new();
    let mut cold = BTreeMap::new();

    oracle.insert(0x000200, 0xFFFF_FFFF_u32);
    cold.insert(0x000200, 0x4000_0020_u32);

    oracle.insert(0x137000, 0x0000_0001_u32);
    cold.insert(0x137000, 0xBADF_5040_u32);

    let diff = BootDiff::compare(&oracle, &cold);
    assert_eq!(diff.total_changed, 2);
    assert!(diff.domain_stats.contains_key("PMC"));
}

#[test]
fn recipe_priority_order() {
    let mut oracle = BTreeMap::new();
    let mut cold = BTreeMap::new();

    oracle.insert(0x002200, 0x01_u32);
    cold.insert(0x002200, 0x00_u32);

    oracle.insert(0x136400, 0xFF_u32);
    cold.insert(0x136400, 0x00_u32);

    oracle.insert(0x000200, 0xFF_u32);
    cold.insert(0x000200, 0x00_u32);

    let diff = BootDiff::compare(&oracle, &cold);
    let recipe = diff.to_recipe();
    assert_eq!(recipe[0].domain, "ROOT_PLL");
    assert_eq!(recipe[1].domain, "PMC");
    assert_eq!(recipe[2].domain, "PFIFO");
}

#[test]
fn kepler_domain_map_classifies_all_known_ranges() {
    let map = KeplerDomainMap;
    assert_eq!(map.classify(0x136400, "").0, "ROOT_PLL");
    assert_eq!(map.classify(0x137020, "").0, "PCLOCK");
    assert_eq!(map.classify(0x132000, "").0, "CLK");
    assert_eq!(map.classify(0x000200, "").0, "PMC");
    assert_eq!(map.classify(0x009400, "").0, "PTIMER");
    assert_eq!(map.classify(0x002504, "").0, "PFIFO");
    assert_eq!(map.classify(0x400100, "").0, "PGRAPH");
}

#[test]
fn kepler_domain_map_falls_back_to_region_hint() {
    let map = KeplerDomainMap;
    assert_eq!(map.classify(0xFFF000, "PCLOCK").0, "PCLOCK");
    assert_eq!(map.classify(0xFFF000, "PROM").0, "PROM");
    assert_eq!(map.classify(0xFFF000, "MYSTERY").0, "UNKNOWN");
}

#[test]
fn kepler_domain_table_is_nonempty() {
    let map = KeplerDomainMap;
    assert!(map.domain_table().len() >= 17);
}

#[test]
fn classify_from_table_returns_unknown_for_gap() {
    let result = classify_from_table(&kepler_domains(), 0xFFF_FFFF);
    assert_eq!(result.0, "UNKNOWN");
    assert_eq!(result.1, 99);
}

#[test]
fn kepler_boot_sequence_has_four_phases() {
    let seq = KeplerBootSequence;
    assert_eq!(seq.phases().len(), 4);
    assert_eq!(seq.phases()[0].name, "clock");
    assert_eq!(seq.phases()[1].name, "devinit");
    assert_eq!(seq.phases()[2].name, "pgraph");
    assert_eq!(seq.phases()[3].name, "extended");
}

fn step(domain: &str, offset: usize, value: u32, priority: u32) -> RecipeStep {
    RecipeStep { domain: domain.to_string(), offset, value, priority }
}

#[test]
fn boot_phase_filter_steps() {
    let recipe = vec![
        step("ROOT_PLL", 0x136400, 0xFF, 0),
        step("CLK", 0x130000, 0x01, 2),
        step("PMC", 0x000200, 0x1100, 3),
        step("PFIFO", 0x002504, 0x01, 25),
        step("PGRAPH", 0x400100, 0x01, 30),
    ];
    let phases = kepler_phases();

    let clock_steps = phases[0].filter_steps(&recipe);
    assert_eq!(clock_steps.len(), 2);
    assert_eq!(clock_steps[0].domain, "ROOT_PLL");
    assert_eq!(clock_steps[1].domain, "CLK");

    let devinit_steps = phases[1].filter_steps(&recipe);
    assert_eq!(devinit_steps.len(), 2);
    assert_eq!(devinit_steps[0].domain, "PMC");
    assert_eq!(devinit_steps[1].domain, "PFIFO");

    let pgraph_steps = phases[2].filter_steps(&recipe);
    assert_eq!(pgraph_steps.len(), 1);
    assert_eq!(pgraph_steps[0].domain, "PGRAPH");
}

#[test]
fn kepler_boot_sequence_is_object_safe() {
    let seq: &dyn BootSequence = &KeplerBootSequence;
    assert!(!seq.description().is_empty());
    assert!(!seq.phases().is_empty());
}

#[test]
fn volta_domain_map_classifies_all_known_ranges() {
    let map = VoltaDomainMap;
    assert_eq!(map.classify(0x136400, "").0, "ROOT_PLL");
    assert_eq!(map.classify(0x137020, "").0, "PCLOCK");
    assert_eq!(map.classify(0x132000, "").0, "CLK");
    assert_eq!(map.classify(0x000200, "").0, "PMC");
    assert_eq!(map.classify(0x009400, "").0, "PTIMER");
    assert_eq!(map.classify(0x087500, "").0, "SEC2");
    assert_eq!(map.classify(0x409100, "").0, "FECS");
    assert_eq!(map.classify(0x41A100, "").0, "GPCCS");
    assert_eq!(map.classify(0x400100, "").0, "PGRAPH");
}

#[test]
fn volta_domain_map_sec2_at_087000() {
    let map = VoltaDomainMap;
    let (name, prio) = map.classify(0x087000, "");
    assert_eq!(name, "SEC2");
    assert!(prio < 10, "SEC2 should be early in boot");
}

#[test]
fn volta_boot_sequence_has_five_phases() {
    let seq = VoltaBootSequence;
    assert_eq!(seq.phases().len(), 5);
    assert_eq!(seq.phases()[0].name, "clock");
    assert_eq!(seq.phases()[3].name, "acr_boot");
}

#[test]
fn volta_boot_sequence_clock_not_required() {
    let seq = VoltaBootSequence;
    assert!(!seq.phases()[0].required, "Volta clock phase should be optional (often warm)");
}

#[test]
fn volta_boot_sequence_is_object_safe() {
    let seq: &dyn BootSequence = &VoltaBootSequence;
    assert!(seq.description().contains("Volta"));
    assert!(!seq.phases().is_empty());
}

// ── Laws and edge cases ────────────────────────────────────────────────

#[test]
fn boot_diff_recipe_is_stable_by_priority() {
    let mut oracle = BTreeMap::new();
    let mut cold = BTreeMap::new();
    oracle.insert(0x000200, 1_u32);
    cold.insert(0x000200, 0_u32);
    oracle.insert(0x000204, 1_u32);
    cold.insert(0x000204, 0_u32);
    oracle.insert(0x136400, 1_u32);
    cold.insert(0x136400, 0_u32);
    let recipe = BootDiff::compare(&oracle, &cold).to_recipe();
    assert_eq!(recipe.len(), 3);
    assert_eq!(recipe[0].offset, 0x136400);
    assert_eq!(recipe[1].offset, 0x000200);
    assert_eq!(recipe[2].offset, 0x000204);
    for w in recipe.windows(2) {
        assert!(w[0].priority <= w[1].priority);
    }
}

#[test]
fn boot_diff_of_equal_snapshots_changes_nothing() {
    let mut oracle = BTreeMap::new();
    oracle.insert(0x000200, 5_u32);
    oracle.insert(0x137000, 7_u32);
    let diff = BootDiff::compare(&oracle, &oracle.clone());
    assert_eq!(diff.total_changed, 0);
    assert_eq!(diff.total_compared, 2);
    assert!(diff.deltas.is_empty());
    assert!(diff.to_recipe().is_empty());
}

#[test]
fn classify_domain_unknown_gap_priority() {
    let (name, prio) = classify_domain(0xFFF_FFFF);
    assert_eq!(name, "UNKNOWN");
    assert_eq!(prio, 99);
}

#[test]
fn bar0_offset_relative_to_base() {
    assert_eq!(bar0_offset(0xfee0_0200, Some(0xfee0_0000)), Some(0x200));
    assert_eq!(bar0_offset(0x200, None), Some(0x200));
    assert_eq!(bar0_offset(0x1000, Some(0x2000)), Some(0x1000));
    assert_eq!(bar0_offset(0xfee0_0000 + 0x0200_0000, Some(0xfee0_0000)), None);
}

#[test]
fn domain_summary_counts_every_write() {
    let w = |offset: usize| coral_driver::boot_follower::MmioWrite { timestamp_us: 0, offset, value: 1, width: 4 };
    let trace = coral_driver::boot_follower::BootTrace {
        writes: vec![w(0x200), w(0x136400), w(0x137000), w(0x200), w(0x00FF_FFFC)],
        reads: Vec::new(),
        driver: "nouveau".to_string(),
        duration_us: 0,
    };
    let summary = trace.domain_summary();
    let total: usize = summary.iter().map(|(_, n)| *n).sum();
    assert_eq!(total, 5);
}

#[test]
fn recipe_keeps_each_domain_together() {
    let mut oracle = BTreeMap::new();
    let mut cold = BTreeMap::new();
    for (off, v) in [(0x000200usize, 1u32), (0x002200, 2), (0x000204, 3), (0x136400, 4), (0x002204, 5)] {
        oracle.insert(off, v);
        cold.insert(off, 0u32);
    }
    let recipe = BootDiff::compare(&oracle, &cold).to_recipe();
    let domains: Vec<&str> = recipe.iter().map(|s| s.domain.as_str()).collect();
    assert_eq!(domains, vec!["ROOT_PLL", "PMC", "PMC", "PFIFO", "PFIFO"]);
}
