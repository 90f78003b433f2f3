use std::collections::BTreeMap;

use coral_driver::boot_follower::RecipeStep;
use coral_driver::bus::{is_pri_error, Bar0, MmioError, RegisterBus};
use coral_driver::firmware_probe::capture_firmware_snapshot;
use coral_driver::hbm2_training::pramin_sentinel;
use coral_driver::replay::apply_recipe_to_bar0;
use coral_driver::subsystem_validator::{capture_falcon_state, validate_all, validate_pmc};

/// A register file in memory: reads of unknown registers fail, every
/// write is kept in order.
#[derive(Default)]
struct MemBus {
    regs: BTreeMap<usize, u32>,
    writes: Vec<(usize, u32)>,
    delays: u64,
}

impl RegisterBus for MemBus {
    fn read_u32(&mut self, reg: usize) -> Result<u32, MmioError> {
        self.regs.get(&reg).copied().ok_or(MmioError)
    }

    fn write_u32(&mut self, reg: usize, val: u32) -> Result<(), MmioError> {
        self.writes.push((reg, val));
        self.regs.insert(reg, val);
        Ok(())
    }

    fn delay_us(&mut self, us: u64) {
        self.delays += us;
    }
}

fn step(domain: &str, offset: usize, value: u32, priority: u32) -> RecipeStep {
    RecipeStep { domain: domain.to_string(), offset, value, priority }
}

#[test]
fn recipe_replay_writes_every_step_in_order() {
    let mut bus = MemBus::default();
    bus.regs.insert(0, 0x1400_00A1);
    let recipe = vec![step("ROOT_PLL", 0x136400, 0xFF, 0), step("PMC", 0x200, 0x1100, 3)];
    let mut bar0 = Bar0::new(&mut bus);
    let res = apply_recipe_to_bar0(&mut bar0, &recipe).unwrap();
    assert_eq!(res.applied + res.failed, 2);
    assert_eq!(res.pmc_boot_0, 0x1400_00A1);
    drop(bar0);
    let recipe_writes: Vec<(usize, u32)> =
        bus.writes.iter().copied().filter(|(r, _)| *r == 0x136400 || *r == 0x200).collect();
    assert_eq!(recipe_writes, vec![(0x136400, 0xFF), (0x200, 0x1100)]);
}

#[test]
fn pmc_validation_against_reference() {
    let mut bus = MemBus::default();
    bus.regs.insert(0x000000, 0x1400_00A1);
    bus.regs.insert(0x000200, 0xFFFF_FFFF);
    bus.regs.insert(0x000100, 0x1234_5678);
    let mut reference = BTreeMap::new();
    reference.insert(0x000000usize, 0x1400_00A1u32);
    reference.insert(0x000200usize, 0x0000_0001u32);
    reference.insert(0x000100usize, 0x1234_0000u32);
    let mut bar0 = Bar0::new(&mut bus);
    let v = validate_pmc(&mut bar0, &reference);
    assert_eq!(v.total_probes, 7);
    // BOOT_0 matches, ENABLE differs, INTR_0 matches under its mask, four unreadable.
    assert_eq!(v.matched, 2);
    assert_eq!(v.mismatched, 1);
    assert_eq!(v.unreadable, 4);
    assert!(!v.passed());
    let intr = v.comparisons.iter().find(|c| c.offset == 0x100).unwrap();
    assert!(intr.matches);
    let missing = v.comparisons.iter().find(|c| c.offset == 0x004).unwrap();
    assert_eq!(missing.actual, 0xDEAD_DEAD);
    assert!(!missing.matches);
}

#[test]
fn validate_all_covers_six_subsystems() {
    let mut bus = MemBus::default();
    let reference = BTreeMap::new();
    let mut bar0 = Bar0::new(&mut bus);
    let all = validate_all(&mut bar0, &reference);
    assert_eq!(all.len(), 6);
    assert!(all.iter().all(|v| v.matched == 0 && v.unreadable == v.total_probes));
}

#[test]
fn falcon_capture_keeps_answering_registers() {
    let mut bus = MemBus::default();
    bus.regs.insert(0x409100, 0x10);
    bus.regs.insert(0x12345, 7);
    let mut bar0 = Bar0::new(&mut bus);
    let state = capture_falcon_state(&mut bar0);
    assert_eq!(state.len(), 1);
    assert_eq!(state.get(&0x409100), Some(&0x10));
}

#[test]
fn pramin_sentinel_round_trip() {
    let mut bus = MemBus::default();
    let mut bar0 = Bar0::new(&mut bus);
    let (ok, readback) = pramin_sentinel(&mut bar0, 0x0002_6000, 0xCAFE_DEAD);
    assert!(ok);
    assert_eq!(readback, 0xCAFE_DEAD);
    drop(bar0);
    assert_eq!(bus.writes[0], (0x1700, 0x2));
    assert_eq!(bus.writes[1], (0x70_6000, 0xCAFE_DEAD));
}

#[test]
fn firmware_snapshot_reads_boot0() {
    let mut bus = MemBus::default();
    bus.regs.insert(0, 0x1400_00A1);
    let mut bar0 = Bar0::new(&mut bus);
    let snap = capture_firmware_snapshot(&mut bar0, "t", 5);
    assert_eq!(snap.boot0, 0x1400_00A1);
    assert!(snap.architecture.starts_with("Volta"));
    assert_eq!(snap.label, "t");
    assert_eq!(snap.timestamp_ms, 5);
}

#[test]
fn firmware_snapshot_fills_fields_from_their_registers() {
    let mut bus = MemBus::default();
    bus.regs.insert(0, 0x1400_00A1);
    bus.regs.insert(0x200, 0x5FEC_DFF1);
    bus.regs.insert(0x2004, 0b1011);
    bus.regs.insert(0x400700, 0x42);
    bus.regs.insert(0x9000, 0x7);
    bus.regs.insert(0x409100, 0x10);
    bus.regs.insert(0x409180, 0x5);
    bus.regs.insert(0x409184, 0xCAFE_0001);
    let mut bar0 = Bar0::new(&mut bus);
    let snap = capture_firmware_snapshot(&mut bar0, "fields", 9);
    drop(bar0);
    assert_eq!(snap.power.pmc_enable, 0x5FEC_DFF1);
    assert_eq!(snap.power.pmc_intr, 0xDEAD_DEAD);
    assert!(!snap.power.ptimer_ticking);
    assert_eq!(snap.pfifo_state.pbdma_map, 0b1011);
    assert_eq!(snap.pfifo_state.pbdma_count, 3);
    assert_eq!(snap.gr.gr_status, 0x42);
    assert_eq!(snap.clocks.ptimer_cfg, 0x7);
    assert_eq!(snap.fecs.cpuctl, 0x10);
    assert!(snap.fecs.reachable);
    assert_eq!(snap.fecs.imem_fingerprint, vec![0xCAFE_0001; 8]);
    assert!(!snap.gpccs.reachable);
    assert_eq!(bus.delays, 1000);
    // The capture only reads: the bus sees no write at all.
    assert!(bus.writes.is_empty());
    assert_eq!(bus.regs.get(&0x409180), Some(&0x5));
}

#[test]
fn pri_error_values() {
    assert!(is_pri_error(0xBAD0_0100));
    assert!(is_pri_error(0xBADF_1201));
    assert!(!is_pri_error(0xBAE0_0000));
    assert!(!is_pri_error(0xFFFF_FFFF));
}

/// A bus that logs every access in order; unknown registers read as 0.
#[derive(Default)]
struct LogBus {
    log: Vec<(char, usize, u32)>,
}

impl RegisterBus for LogBus {
    fn read_u32(&mut self, reg: usize) -> Result<u32, MmioError> {
        self.log.push(('R', reg, 0));
        Ok(0)
    }

    fn write_u32(&mut self, reg: usize, val: u32) -> Result<(), MmioError> {
        self.log.push(('W', reg, val));
        Ok(())
    }

    fn delay_us(&mut self, _us: u64) {}
}

#[test]
fn recipe_replay_reads_back_at_domain_boundary() {
    let mut bus = LogBus::default();
    let recipe = vec![step("ROOT_PLL", 0x136400, 0xFF, 0), step("PMC", 0x200, 0x1100, 3)];
    let mut bar0 = Bar0::new(&mut bus);
    let res = apply_recipe_to_bar0(&mut bar0, &recipe).unwrap();
    assert_eq!(res.applied, 2);
    drop(bar0);
    assert_eq!(bus.log[0], ('W', 0x136400, 0xFF));
    assert_eq!(bus.log[1], ('R', 0x136400, 0));
    assert_eq!(bus.log[2], ('W', 0x200, 0x1100));
}

#[test]
fn firmware_diff_is_symmetric() {
    let mut cold = MemBus::default();
    cold.regs.insert(0, 0x1400_00A1);
    cold.regs.insert(0x200, 0x40);
    let mut warm = MemBus::default();
    warm.regs.insert(0, 0x1400_00A1);
    warm.regs.insert(0x200, 0x5FEC_DFF1);
    let a = capture_firmware_snapshot(&mut Bar0::new(&mut cold), "cold", 1);
    let b = capture_firmware_snapshot(&mut Bar0::new(&mut warm), "warm", 2);
    let ab = coral_driver::firmware_probe::diff_snapshots(&a, &b);
    let ba = coral_driver::firmware_probe::diff_snapshots(&b, &a);
    assert_eq!(ab.len(), 1);
    assert_eq!(ab[0].0, "power.pmc_enable");
    assert_eq!(ab.len(), ba.len());
    for (x, y) in ab.iter().zip(ba.iter()) {
        assert_eq!(x.0, y.0);
        assert_eq!(x.1, y.2);
        assert_eq!(x.2, y.1);
    }
}

#[test]
fn replay_counts_add_up_per_domain() {
    let recipe = vec![
        step("PMC", 0x200, 0x1, 3),
        step("PMC", 0x204, 0x2, 3),
        step("PFIFO", 0x2200, 0x3, 25),
    ];
    let mut bus = MemBus::default();
    let mut bar0 = Bar0::new(&mut bus);
    let res = apply_recipe_to_bar0(&mut bar0, &recipe).unwrap();
    assert_eq!((res.applied, res.failed), (3, 0));
    assert_eq!(res.domain_counts.len(), 2);
    assert_eq!(res.domain_counts.get("PMC"), Some(&(2, 0)));
    assert_eq!(res.domain_counts.get("PFIFO"), Some(&(1, 0)));
    assert!(res.domain_counts.get("PBUS").is_none());
}

#[test]
fn firmware_diff_lists_only_real_changes() {
    // Every register the diff looks at answers differently on the two cards,
    // and every falcon is reachable on both.
    let regs: Vec<usize> = {
        let mut v = vec![0, 0x200, 0x2200, 0x2504, 0x400500, 0x400700];
        for base in [0x409000usize, 0x41A000, 0x10A000, 0x087000] {
            for rel in [0x100usize, 0x240, 0x14C, 0x1D0, 0x040, 0x044, 0x800, 0x008, 0x600] {
                v.push(base + rel);
            }
        }
        v
    };
    let mut a_bus = MemBus::default();
    let mut b_bus = MemBus::default();
    for (i, r) in regs.iter().enumerate() {
        a_bus.regs.insert(*r, 0x10 + i as u32);
        b_bus.regs.insert(*r, 0x1000 + i as u32);
    }
    let a = capture_firmware_snapshot(&mut Bar0::new(&mut a_bus), "a", 1);
    let b = capture_firmware_snapshot(&mut Bar0::new(&mut b_bus), "b", 2);
    let d = coral_driver::firmware_probe::diff_snapshots(&a, &b);
    assert!(!d.is_empty());
    assert_eq!(d.len(), 42);
    for (_, old, new) in &d {
        assert_ne!(old, new);
    }
    assert!(coral_driver::firmware_probe::diff_snapshots(&a, &a).is_empty());
}
