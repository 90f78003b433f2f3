use coral_driver::hbm2_training::volta_hbm2;
use coral_driver::hbm2_training::{phy_came_up, sentinel_tests_passed, FbpaSnapshot};
use coral_driver::hbm2_training::{
    DramReady, FbpaOffset, Hbm2TrainingError, LinkTrained, LtcOffset, PhyUp, TrainingLog,
    Untrained, Verified,
};

#[test]
fn phase_debug_names() {
    assert_eq!(format!("{:?}", Untrained), "Untrained");
    assert_eq!(format!("{:?}", PhyUp), "PhyUp");
    assert_eq!(format!("{:?}", LinkTrained), "LinkTrained");
    assert_eq!(format!("{:?}", DramReady), "DramReady");
    assert_eq!(format!("{:?}", Verified), "Verified");
}

#[test]
fn training_error_display() {
    let err = Hbm2TrainingError {
        phase: "enable_phy",
        detail: "no FBPA alive".into(),
        register_snapshot: vec![(0x9A0000, 0xDEAD_DEAD)],
    };
    assert!(err.to_string().contains("enable_phy"));
    assert!(err.to_string().contains("no FBPA alive"));
}

#[test]
fn training_error_display_exact() {
    let err = Hbm2TrainingError { phase: "verify_vram", detail: "x".into(), register_snapshot: vec![] };
    assert_eq!(err.to_string(), "HBM2 training failed at verify_vram: x");
}

#[test]
fn fbpa_offset_newtype_prevents_mixup() {
    let fbpa = FbpaOffset(0x04);
    let ltc = LtcOffset(0x04);
    assert_eq!(fbpa.0, ltc.0);
}

#[test]
fn volta_fbpa_reg_calculation() {
    assert_eq!(volta_hbm2::fbpa_reg(0, FbpaOffset(0x04)), 0x9A0004);
    assert_eq!(volta_hbm2::fbpa_reg(1, FbpaOffset(0x04)), 0x9A4004);
    assert_eq!(volta_hbm2::fbpa_reg(3, FbpaOffset(0x80)), 0x9AC080);
}

#[test]
fn volta_ltc_reg_calculation() {
    assert_eq!(volta_hbm2::ltc_reg(0, LtcOffset(0x10)), 0x17E010);
    assert_eq!(volta_hbm2::ltc_reg(2, LtcOffset(0x10)), 0x182010);
}

#[test]
fn training_log_counts_writes() {
    let mut log = TrainingLog::default();
    log.log_write(0x200, 0xFFFF_FFFF, 0);
    log.log_read(0x200, 0x5FEC_DFF1);
    log.log_write(0x9A0000, 0x42, 0);
    assert_eq!(log.write_count(), 2);
}

#[test]
fn vram_passes_when_one_sentinel_reads_back() {
    // Sentinels are 0xCAFE0000 | offset for offsets 0, 0x10000, 0x26000, 0x40000, 0x80000.
    assert!(sentinel_tests_passed(&vec![0, 0, 0xCAFE_6000, 0, 0]));
    assert!(sentinel_tests_passed(&vec![0xCAFE_0000, 0, 0, 0, 0]));
    assert!(sentinel_tests_passed(&vec![0, 0, 0, 0, 0xCAFE_0000 | 0x0008_0000]));
    // The right value at the wrong offset does not count.
    assert!(!sentinel_tests_passed(&vec![0xCAFE_6000, 0, 0, 0, 0]));
    assert!(!sentinel_tests_passed(&vec![0xDEAD_DEAD; 5]));
}

fn partition(index: usize, cfg: u32) -> FbpaSnapshot {
    FbpaSnapshot {
        index,
        base: 0x9A_0000 + index * 0x4000,
        cfg,
        timing0: 0,
        timing1: 0,
        timing2: 0,
        alive: cfg != 0xFFFF_FFFF && cfg != 0xDEAD_DEAD && (cfg >> 16) != 0xBADF,
    }
}

#[test]
fn phy_comes_up_with_one_live_domain_or_partition() {
    let faulted = vec![0xBADF_5040u32; 12];
    let dead = vec![partition(0, 0xFFFF_FFFF), partition(1, 0xBADF_1100), partition(2, 0xDEAD_DEAD)];
    assert!(!phy_came_up(&faulted, &dead));
    let mut one_probe = faulted.clone();
    one_probe[3] = 0x0000_0001;
    assert!(phy_came_up(&one_probe, &dead));
    let mut one_partition = dead.clone();
    one_partition[1] = partition(1, 0x0000_0100);
    assert!(phy_came_up(&faulted, &one_partition));
}
