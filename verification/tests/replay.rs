use coral_driver::replay::{CountTable, ReplayResult};

#[test]
fn replay_result_is_alive() {
    let alive = ReplayResult {
        applied: 305,
        failed: 0,
        pmc_boot_0: 0x0f22_d0a1,
        ptimer_ticking: true,
        ptimer_samples: [(0x1000, 0x0), (0x2000, 0x0)],
        domain_counts: CountTable::new(),
    };
    assert!(alive.is_alive());

    let dead = ReplayResult {
        applied: 305,
        failed: 0,
        pmc_boot_0: 0xFFFF_FFFF,
        ptimer_ticking: false,
        ptimer_samples: [(0x0, 0x0), (0x0, 0x0)],
        domain_counts: CountTable::new(),
    };
    assert!(!dead.is_alive());
}

#[test]
fn replay_result_needs_both_signs_of_life() {
    let ticking_but_dead = ReplayResult {
        applied: 0,
        failed: 0,
        pmc_boot_0: 0xFFFF_FFFF,
        ptimer_ticking: true,
        ptimer_samples: [(0x1, 0x0), (0x2, 0x0)],
        domain_counts: CountTable::new(),
    };
    assert!(!ticking_but_dead.is_alive());
    let id_but_frozen = ReplayResult {
        applied: 0,
        failed: 0,
        pmc_boot_0: 0x1400_00A1,
        ptimer_ticking: false,
        ptimer_samples: [(0x1, 0x0), (0x1, 0x0)],
        domain_counts: CountTable::new(),
    };
    assert!(!id_but_frozen.is_alive());
}
