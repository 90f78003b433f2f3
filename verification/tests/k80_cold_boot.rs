use coral_driver::boot_follower::RecipeStep;
use coral_driver::k80_cold_boot::{
    bios_recipe_steps, capture_steps, classify_k80_domain, detect_recipe_format,
    filter_clock_registers, filter_pri_faults, is_pri_fault_value, parse_hex, parse_hex_or_int,
    reagent_diff_entries, BiosWrite, CaptureEntry, ChangedRegister, ColdBootConfig, JsonScalar, JsonShape,
    RecipeFormat,
};

fn step(domain: &str, offset: usize, value: u32, priority: u32) -> RecipeStep {
    RecipeStep { domain: domain.to_string(), offset, value, priority }
}

#[test]
fn classify_root_pll_by_offset() {
    let (domain, priority) = classify_k80_domain(0x136400, "");
    assert_eq!(domain, "ROOT_PLL");
    assert_eq!(priority, 0);
}

#[test]
fn classify_pclock_by_offset() {
    let (domain, priority) = classify_k80_domain(0x137020, "");
    assert_eq!(domain, "PCLOCK");
    assert_eq!(priority, 1);
}

#[test]
fn classify_clk_by_offset() {
    let (domain, priority) = classify_k80_domain(0x132000, "");
    assert_eq!(domain, "CLK");
    assert_eq!(priority, 2);
}

#[test]
fn classify_pmc_by_offset() {
    let (domain, priority) = classify_k80_domain(0x000200, "");
    assert_eq!(domain, "PMC");
    assert_eq!(priority, 3);
}

#[test]
fn classify_pfifo_by_offset() {
    let (domain, priority) = classify_k80_domain(0x002504, "");
    assert_eq!(domain, "PFIFO");
    assert_eq!(priority, 25);
}

#[test]
fn classify_pgraph_by_offset() {
    let (domain, priority) = classify_k80_domain(0x400100, "");
    assert_eq!(domain, "PGRAPH");
    assert_eq!(priority, 30);
}

#[test]
fn classify_fallback_to_region_tag() {
    let (domain, _) = classify_k80_domain(0xFFF000, "PCLOCK");
    assert_eq!(domain, "PCLOCK");
}

#[test]
fn classify_unknown_offset_and_region() {
    let (domain, priority) = classify_k80_domain(0xFFF000, "MYSTERY");
    assert_eq!(domain, "UNKNOWN");
    assert_eq!(priority, 99);
}

#[test]
fn clock_domains_have_lowest_priority() {
    let clock_priority: Vec<u32> = [
        classify_k80_domain(0x136000, "").1,
        classify_k80_domain(0x137000, "").1,
        classify_k80_domain(0x130000, "").1,
    ]
    .to_vec();
    let non_clock_priority = classify_k80_domain(0x000200, "").1;
    for p in &clock_priority {
        assert!(
            *p < non_clock_priority,
            "clock priority {p} should be less than PMC priority {non_clock_priority}"
        );
    }
}

fn entry(domain: &str, offset: &str, value: &str) -> CaptureEntry {
    CaptureEntry { domain: domain.to_string(), offset: offset.to_string(), value: value.to_string() }
}

#[test]
fn reagent_diff_to_recipe_steps() {
    // added CLK and PMC registers, and the warm value of a changed PBUS register
    let added = vec![entry("CLK", "0x130000", "0x98010000"), entry("PMC", "0x000200", "0x11001100")];
    let changed = vec![ChangedRegister {
        domain: "PBUS".to_string(),
        offset: "0x001100".to_string(),
        warm: Some("0x0c".to_string()),
    }];
    let entries = reagent_diff_entries(&added, &changed);
    let steps = capture_steps(&entries);
    assert_eq!(steps.len(), 3);
    assert_eq!(steps[0].domain, "CLK");
    assert_eq!(steps[0].offset, 0x130000);
    assert_eq!(steps[0].value, 0x98010000);
    assert_eq!(steps[1].domain, "PMC");
    assert_eq!(steps[2].domain, "PBUS");
    assert_eq!(steps[2].value, 0x0c);
}

#[test]
fn reagent_snapshot_to_recipe_steps() {
    let entries = vec![entry("PMC", "0x000200", "0x11001100"), entry("CLK", "0x130000", "0x98010000")];
    let steps = capture_steps(&entries);
    assert_eq!(steps.len(), 2);
    assert_eq!(steps[0].domain, "CLK");
    assert_eq!(steps[1].domain, "PMC");
}

#[test]
fn capture_steps_drop_unparsable_entries() {
    let entries = vec![entry("CLK", "zz", "0x1"), entry("CLK", "0x130000", ""), entry("PMC", "0x200", "0x5")];
    let steps = capture_steps(&entries);
    assert_eq!(steps.len(), 1);
    assert_eq!(steps[0].offset, 0x200);
    assert_eq!(steps[0].value, 5);
}

#[test]
fn parse_hex_values() {
    assert_eq!(parse_hex("0x130000"), Some(0x130000));
    assert_eq!(parse_hex("0X0C"), Some(0x0c));
    assert_eq!(parse_hex("0xbadf3000"), Some(0xbadf3000));
    assert_eq!(parse_hex("65536"), Some(65536));
    assert_eq!(parse_hex(""), None);
}

#[test]
fn parse_hex_edge_cases() {
    assert_eq!(parse_hex("  0x10  "), Some(16));
    assert_eq!(parse_hex("0x"), None);
    assert_eq!(parse_hex("0xg1"), None);
    assert_eq!(parse_hex("00"), Some(0));
    assert_eq!(parse_hex("0xFFFFFFFFFFFFFFFF"), Some(u64::MAX));
    assert_eq!(parse_hex("0x10000000000000000"), None);
    assert_eq!(parse_hex("+5"), Some(5));
}

fn shape() -> JsonShape {
    JsonShape {
        is_array: false,
        has_type: false,
        has_writes: false,
        has_added: false,
        has_changed: false,
        has_regions: false,
        recipe_is_array: false,
        steps_is_array: false,
    }
}

#[test]
fn detect_format_bios_recipe() {
    // {"type": "gk210", "source": "test", "writes": [], ...}
    let s = JsonShape { has_type: true, has_writes: true, ..shape() };
    assert_eq!(detect_recipe_format(&s), RecipeFormat::BiosRecipe);
}

#[test]
fn detect_format_reagent_diff() {
    let s = JsonShape { has_added: true, has_changed: true, ..shape() };
    assert_eq!(detect_recipe_format(&s), RecipeFormat::ReagentDiff);
}

#[test]
fn detect_format_reagent_snapshot() {
    let s = JsonShape { has_regions: true, ..shape() };
    assert_eq!(detect_recipe_format(&s), RecipeFormat::ReagentSnapshot);
}

#[test]
fn detect_format_flat_recipe() {
    let s = JsonShape { is_array: true, ..shape() };
    assert_eq!(detect_recipe_format(&s), RecipeFormat::FlatRecipe);
}

#[test]
fn detect_format_wrapped_and_fallback() {
    let s = JsonShape { steps_is_array: true, ..shape() };
    assert_eq!(detect_recipe_format(&s), RecipeFormat::WrappedRecipe);
    assert_eq!(detect_recipe_format(&shape()), RecipeFormat::FlatRecipe);
}

#[test]
fn bios_recipe_steps_sorted_by_priority_then_offset() {
    let writes = vec![
        BiosWrite { offset: 137000, value: 65536, region: "PCLOCK".to_string() },
        BiosWrite { offset: 512, value: 4096, region: "PMC".to_string() },
        BiosWrite { offset: 1267712, value: 0x1_0000_00FF, region: "ROOT_PLL".to_string() },
    ];
    let steps = bios_recipe_steps(&writes);
    assert_eq!(steps.len(), 3);
    for w in steps.windows(2) {
        assert!((w[0].priority, w[0].offset) <= (w[1].priority, w[1].offset));
    }
    let root = steps.iter().find(|s| s.offset == 1267712).unwrap();
    assert_eq!(root.value, 0xFF);
}

#[test]
fn parse_hex_or_int_forms() {
    assert_eq!(parse_hex_or_int(&JsonScalar::Unsigned(42)), Some(42));
    assert_eq!(parse_hex_or_int(&JsonScalar::Text("0x2A".to_string())), Some(42));
    assert_eq!(parse_hex_or_int(&JsonScalar::Text("2a".to_string())), Some(42));
    assert_eq!(parse_hex_or_int(&JsonScalar::Text("x".to_string())), None);
    assert_eq!(parse_hex_or_int(&JsonScalar::Other), None);
}

#[test]
fn filter_clock_registers_extracts_priority_0_through_2() {
    let steps = vec![
        step("ROOT_PLL", 0x136400, 0xFF, 0),
        step("PCLOCK", 0x137020, 0x10000, 1),
        step("CLK", 0x132000, 0x01, 2),
        step("PMC", 0x000200, 0x1100, 3),
        step("PFIFO", 0x002504, 0x01, 25),
    ];
    let clocks = filter_clock_registers(&steps);
    assert_eq!(clocks.len(), 3);
    assert!(clocks.iter().all(|s| s.priority <= 2));
}

#[test]
fn filter_clock_registers_empty_on_no_clocks() {
    let steps = vec![step("PMC", 0x200, 0x1100, 3)];
    assert!(filter_clock_registers(&steps).is_empty());
}

#[test]
fn is_pri_fault_detects_bad_values() {
    assert!(is_pri_fault_value(0xBADF_1234));
    assert!(is_pri_fault_value(0xBAD0_DA1F));
    assert!(is_pri_fault_value(0xBAD1_0000));
    assert!(!is_pri_fault_value(0x9801_0000));
    assert!(!is_pri_fault_value(0x0000_0000));
    assert!(!is_pri_fault_value(0xFFFF_FFFF));
}

#[test]
fn filter_pri_faults_strips_bad_values() {
    let steps = vec![
        step("ROOT_PLL", 0x136400, 0x0001_0000, 0),
        step("PTIMER", 0x009400, 0xBAD0_DA1F, 6),
        step("CLK", 0x130000, 0x9801_0000, 2),
        step("PMC", 0x000200, 0xBADF_5040, 3),
    ];
    let clean = filter_pri_faults(steps);
    assert_eq!(clean.len(), 2);
    assert_eq!(clean[0].domain, "ROOT_PLL");
    assert_eq!(clean[1].domain, "CLK");
}

#[test]
fn filter_pri_faults_preserves_clean_recipe() {
    let steps = vec![step("ROOT_PLL", 0x136400, 0x0001_0000, 0), step("CLK", 0x130000, 0x9801_0000, 2)];
    let clean = filter_pri_faults(steps);
    assert_eq!(clean.len(), 2);
}

#[test]
fn cold_boot_config_priority_bounds() {
    assert_eq!(ColdBootConfig::default().max_priority(), 30);
    assert_eq!(ColdBootConfig::full().max_priority(), 100);
    let c = ColdBootConfig { include_pgraph: true, include_pccsr: false, include_pramin: false };
    assert_eq!(c.max_priority(), 35);
}

#[test]
fn reagent_diff_keeps_only_warm_values() {
    let added = vec![entry("PMC", "0x000200", "0x1")];
    let changed = vec![
        ChangedRegister { domain: "PBUS".to_string(), offset: "0x001100".to_string(), warm: None },
        ChangedRegister { domain: "CLK".to_string(), offset: "0x130000".to_string(), warm: Some("0x7".to_string()) },
    ];
    let entries = reagent_diff_entries(&added, &changed);
    assert_eq!(entries.len(), 2);
    assert_eq!(entries[0].offset, "0x000200");
    assert_eq!(entries[1].domain, "CLK");
    assert_eq!(entries[1].value, "0x7");
}

#[test]
fn filter_pri_faults_twice_is_once() {
    let steps = vec![
        step("PMC", 0x200, 0xBADF_1100, 3),
        step("PMC", 0x204, 0x1, 3),
        step("CLK", 0x130000, 0xBAD0_0100, 1),
        step("CLK", 0x130004, 0x2, 1),
    ];
    let once = filter_pri_faults(steps);
    let twice = filter_pri_faults(once.clone());
    assert_eq!(once.len(), 2);
    assert_eq!(twice.len(), once.len());
    for (a, b) in once.iter().zip(twice.iter()) {
        assert_eq!(a.offset, b.offset);
        assert_eq!(a.value, b.value);
    }
}
