use coral_driver::boot_follower::{BootSequence, DomainMap};
use coral_driver::sovereign_boot::{
    boot_sequence_for_era, domain_map_for_era, replay_hooks_for_era, GpuEra, RdnaBootSequence,
    RdnaDomainMap, SovereignBootResult,
};

#[test]
fn gpu_era_from_boot0_kepler() {
    assert_eq!(GpuEra::from_boot0(0x0F22_D0A1), GpuEra::NvidiaKepler);
    assert_eq!(GpuEra::from_boot0(0x0E40_0000), GpuEra::NvidiaKepler);
}

#[test]
fn gpu_era_from_boot0_volta() {
    assert_eq!(GpuEra::from_boot0(0x1400_00A1), GpuEra::NvidiaVolta);
}

#[test]
fn gpu_era_from_boot0_modern() {
    assert_eq!(GpuEra::from_boot0(0x1620_00A1), GpuEra::NvidiaModern);
}

#[test]
fn gpu_era_from_boot0_unknown_chip() {
    assert_eq!(GpuEra::from_boot0(0x0000_0000), GpuEra::Unknown);
    assert_eq!(GpuEra::from_boot0(0xFFFF_FFFF), GpuEra::NvidiaModern);
    assert_eq!(GpuEra::from_boot0(0x0200_0000), GpuEra::Unknown);
}

#[test]
fn gpu_era_display() {
    assert_eq!(GpuEra::NvidiaKepler.to_string(), "NVIDIA Kepler");
    assert_eq!(GpuEra::NvidiaVolta.to_string(), "NVIDIA Volta");
    assert_eq!(GpuEra::AmdRdna.to_string(), "AMD RDNA");
}

#[test]
fn domain_map_dispatch_kepler() {
    let map = domain_map_for_era(GpuEra::NvidiaKepler);
    assert_eq!(map.classify(0x136400, "").0, "ROOT_PLL");
    assert_eq!(map.classify(0x009400, "").0, "PTIMER");
}

#[test]
fn domain_map_dispatch_volta() {
    let map = domain_map_for_era(GpuEra::NvidiaVolta);
    assert_eq!(map.classify(0x087500, "").0, "SEC2");
    assert_eq!(map.classify(0x409100, "").0, "FECS");
}

#[test]
fn domain_map_dispatch_amd() {
    let map = domain_map_for_era(GpuEra::AmdRdna);
    assert_eq!(map.classify(0x068100, "").0, "MMHUB");
}

#[test]
fn boot_sequence_dispatch_kepler() {
    let seq = boot_sequence_for_era(GpuEra::NvidiaKepler);
    assert!(seq.description().contains("Kepler"));
    assert_eq!(seq.phases()[0].name, "clock");
    assert!(seq.phases()[0].required);
}

#[test]
fn boot_sequence_dispatch_volta() {
    let seq = boot_sequence_for_era(GpuEra::NvidiaVolta);
    assert!(seq.description().contains("Volta"));
    assert!(!seq.phases()[0].required);
}

#[test]
fn boot_sequence_dispatch_amd() {
    let seq = boot_sequence_for_era(GpuEra::AmdRdna);
    assert!(seq.description().contains("RDNA"));
}

#[test]
fn replay_hooks_kepler() {
    let hooks = replay_hooks_for_era(GpuEra::NvidiaKepler);
    let debug = format!("{hooks:?}");
    assert!(debug.contains("Kepler"));
}

#[test]
fn replay_hooks_volta() {
    let hooks = replay_hooks_for_era(GpuEra::NvidiaVolta);
    let debug = format!("{hooks:?}");
    assert!(debug.contains("Volta"));
}

#[test]
fn replay_hooks_amd() {
    let hooks = replay_hooks_for_era(GpuEra::AmdRdna);
    let debug = format!("{hooks:?}");
    assert!(debug.contains("NoHooks"));
}

#[test]
fn rdna_domain_map_classifies_known_ranges() {
    let map = RdnaDomainMap;
    assert_eq!(map.classify(0x068100, "").0, "MMHUB");
    assert_eq!(map.classify(0x029000, "").0, "GFX");
    assert_eq!(map.classify(0x004B00, "").0, "SDMA0");
    assert_eq!(map.classify(0x000100, "").0, "SMN");
}

#[test]
fn rdna_domain_map_region_hint_fallback() {
    let map = RdnaDomainMap;
    assert_eq!(map.classify(0xFFF000, "GFX").0, "GFX");
    assert_eq!(map.classify(0xFFF000, "MMHUB").0, "MMHUB");
    assert_eq!(map.classify(0xFFF000, "UNKNOWN").0, "UNKNOWN");
}

#[test]
fn rdna_boot_sequence_has_three_phases() {
    let seq = RdnaBootSequence;
    assert_eq!(seq.phases().len(), 3);
    assert_eq!(seq.phases()[0].name, "smu_init");
    assert_eq!(seq.phases()[1].name, "mmhub_init");
    assert_eq!(seq.phases()[2].name, "gfx_init");
}

#[test]
fn sovereign_boot_result_carries_era() {
    let result = SovereignBootResult {
        era: GpuEra::NvidiaKepler,
        boot0: 0x0F22_D0A1,
        phase_results: vec![],
        firmware_snapshot: None,
        alive: false,
        log: vec!["test".into()],
    };
    assert_eq!(result.era, GpuEra::NvidiaKepler);
    assert!(!result.alive);
}

#[test]
fn all_eras_get_valid_dispatch() {
    let eras = [
        GpuEra::NvidiaKepler,
        GpuEra::NvidiaVolta,
        GpuEra::NvidiaModern,
        GpuEra::AmdRdna,
        GpuEra::Unknown,
    ];
    for era in &eras {
        let map = domain_map_for_era(*era);
        let seq = boot_sequence_for_era(*era);
        assert!(!map.domain_table().is_empty(), "domain table empty for {era:?}");
        assert!(!seq.phases().is_empty(), "boot phases empty for {era:?}");
    }
}
