use coral_driver::glowplug::{
    has_cooled, is_dangerous_register, oracle_ranges, thermal_state, GpuThermalState,
    HealthSnapshot, StepSnapshot,
};

#[test]
fn thermal_state_ladder() {
    assert_eq!(thermal_state(0xFFFF_FFFF, 0, None, false, None), GpuThermalState::D3Hot);
    assert_eq!(thermal_state(0x1400_00A1, 0x4000_0020, Some(1), true, Some(1)), GpuThermalState::ColdGated);
    assert_eq!(thermal_state(0x1400_00A1, 0, None, true, None), GpuThermalState::ColdGated);
    assert_eq!(thermal_state(0x1400_00A1, 0xFF, Some(1), true, Some(1)), GpuThermalState::EnginesClocked);
    assert_eq!(
        thermal_state(0x1400_00A1, 0x100, Some(0xBAD0_DA00), true, Some(1)),
        GpuThermalState::EnginesClocked
    );
    assert_eq!(thermal_state(0x1400_00A1, 0x100, Some(1), false, Some(1)), GpuThermalState::PfifoAliveVramDead);
    assert_eq!(
        thermal_state(0x1400_00A1, 0x100, Some(1), true, Some(0xBAD0_0001)),
        GpuThermalState::VramAliveBar2Dead
    );
    assert_eq!(thermal_state(0x1400_00A1, 0x100, Some(1), true, Some(0x8000_0001)), GpuThermalState::Warm);
    assert_eq!(thermal_state(0x1400_00A1, 0x1, None, true, None), GpuThermalState::Warm);
}

fn health(state: GpuThermalState, faulted: usize, vram: bool) -> HealthSnapshot {
    HealthSnapshot {
        thermal_state: state,
        domains_alive: 10,
        domains_faulted: faulted,
        vram_accessible: vram,
        pmc_enable: 0,
        log: vec![],
    }
}

#[test]
fn cooling_detection() {
    let warm = health(GpuThermalState::Warm, 0, true);
    assert!(!has_cooled(&warm, &warm.clone()));
    assert!(has_cooled(&warm, &health(GpuThermalState::Warm, 1, true)));
    assert!(has_cooled(&warm, &health(GpuThermalState::Warm, 0, false)));
    assert!(has_cooled(&warm, &health(GpuThermalState::ColdGated, 0, true)));
    let cold = health(GpuThermalState::ColdGated, 3, false);
    assert!(!has_cooled(&cold, &health(GpuThermalState::Warm, 0, true)));
}

#[test]
fn dangerous_registers() {
    assert!(is_dangerous_register(0x009000));
    assert!(is_dangerous_register(0x0090FF));
    assert!(!is_dangerous_register(0x009100));
    assert!(is_dangerous_register(0x100CBC));
    assert!(is_dangerous_register(0x100E30));
    assert!(is_dangerous_register(0x10A044));
    assert!(is_dangerous_register(0x10A100));
    assert!(!is_dangerous_register(0x10A104));
    assert!(!is_dangerous_register(0x000200));
}

#[test]
fn oracle_ranges_table() {
    let r = oracle_ranges();
    assert_eq!(r.len(), 15);
    assert_eq!(r[0], ("PMC", 0x000000, 0x001000));
    assert_eq!(r[14], ("PRI_MASTER", 0x122000, 0x123000));
    assert!(r.iter().all(|(_, s, e)| s < e));
}

#[test]
fn step_deltas_pair_by_offset() {
    let s = StepSnapshot {
        step: "pmc".to_string(),
        before: vec![(0x200, 1), (0x204, 2), (0x208, 3)],
        after: vec![(0x208, 4), (0x200, 1), (0x204, 5)],
    };
    assert_eq!(s.deltas(), vec![(0x204, 2, 5), (0x208, 3, 4)]);
    let same = StepSnapshot { step: "x".to_string(), before: vec![(1, 1)], after: vec![(1, 1)] };
    assert!(same.deltas().is_empty());
}
