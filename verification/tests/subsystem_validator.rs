use std::collections::BTreeMap;

use coral_driver::subsystem_validator::{
    falcon_pramin_regions, falcon_probes, falcon_trigger_regs, pmc_probes, RegisterComparison,
    SubsystemValidation,
};

fn mock_reference() -> BTreeMap<usize, u32> {
    let mut m = BTreeMap::new();
    m.insert(0x000000, 0x0F22_D0A1);
    m.insert(0x000200, 0xFFFF_FFFF);
    m.insert(0x002200, 0x0000_0001);
    m.insert(0x400500, 0x0001_0001);
    m.insert(0x409100, 0x0000_0010);
    m
}

#[test]
fn falcon_state_capture_keys() {
    let ref_map = mock_reference();
    let probes = falcon_probes();
    assert_eq!(probes.len(), 27);
    assert!(probes.iter().any(|p| p.offset == 0x409100));
    assert!(ref_map.contains_key(&0x409100));
}

#[test]
fn falcon_trigger_regs_defined() {
    let regs = falcon_trigger_regs();
    assert!(regs.len() >= 4);
    assert!(regs.iter().any(|(name, _)| *name == "SEC2_CPUCTL"));
    assert!(regs.iter().any(|(name, _)| *name == "FECS_CPUCTL"));
}

#[test]
fn pramin_regions_defined() {
    let regions = falcon_pramin_regions();
    assert!(regions.len() >= 3);
    let sec2 = regions.iter().find(|(name, _, _)| *name == "SEC2_IMEM_BASE");
    assert!(sec2.is_some());
}

fn comparison(offset: usize, name: &str, actual: u32, expected: u32, matches: bool) -> RegisterComparison {
    RegisterComparison { offset, name: name.to_string(), actual, expected, mask: 0xFFFF_FFFF, matches }
}

#[test]
fn subsystem_validation_summary_and_pass() {
    let v = SubsystemValidation {
        subsystem: "PMC_ENGINE_GATING".to_string(),
        total_probes: 2,
        matched: 1,
        mismatched: 1,
        unreadable: 0,
        comparisons: vec![
            comparison(0x200, "PMC_ENABLE", 0xFFFF_FFFF, 0xFFFF_FFFF, true),
            comparison(0x000, "PMC_BOOT_0", 0x0F22_D0A1, 0x1234_5678, false),
        ],
    };
    assert!(!v.passed());
    assert_eq!(v.summary(), "[FAIL] PMC_ENGINE_GATING: 1/2 matched, 1 mismatched, 0 unreadable");
    let ok = SubsystemValidation {
        subsystem: "PMC".to_string(),
        total_probes: 7,
        matched: 7,
        mismatched: 0,
        unreadable: 0,
        comparisons: vec![],
    };
    assert!(ok.passed());
    assert_eq!(ok.summary(), "[PASS] PMC: 7/7 matched, 0 mismatched, 0 unreadable");
}

#[test]
fn pmc_probes_start_with_boot0() {
    let p = pmc_probes();
    assert_eq!(p.len(), 7);
    assert_eq!(p[0].offset, 0);
    assert_eq!(p[0].name, "PMC_BOOT_0");
    assert_eq!(p[5].mask, 0xFFFF_0000);
}
