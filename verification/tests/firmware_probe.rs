use coral_driver::firmware_probe::{
    decode_architecture, decode_security, diff_snapshots, is_unreachable, ClockSnapshot,
    FalconSnapshot, FirmwareSnapshot, GrSnapshot, PfifoSnapshot, PowerSnapshot, CPUCTL_HALTED,
    CPUCTL_STOPPED,
};

#[test]
fn decode_kepler_gk210() {
    let boot0 = 0x0EA0_0000u32 | 0xA1;
    let arch = decode_architecture(boot0);
    assert!(arch.starts_with("Kepler"), "got: {arch}");
}

#[test]
fn decode_volta_gv100() {
    let boot0 = 0x1400_0000u32 | 0xA1;
    let arch = decode_architecture(boot0);
    assert!(arch.starts_with("Volta"), "got: {arch}");
    assert!(arch.contains("GV140"), "got: {arch}");
}

#[test]
fn decode_blackwell_gb206() {
    let boot0 = 0x1B60_0000u32 | 0xA1;
    let arch = decode_architecture(boot0);
    assert!(arch.starts_with("Blackwell"), "got: {arch}");
}

#[test]
fn decode_unknown_chip() {
    let arch = decode_architecture(0xFFFF_FFFF);
    assert!(arch.contains("Unknown"), "got: {arch}");
}

#[test]
fn decode_security_ns() {
    assert_eq!(decode_security(0x0000), "NS (no security)");
}

#[test]
fn decode_security_ls() {
    assert_eq!(decode_security(0x1000), "LS (light security)");
}

#[test]
fn decode_security_hs() {
    assert_eq!(decode_security(0x2000), "HS (high security)");
}

#[test]
fn decode_security_hs_plus() {
    assert_eq!(decode_security(0x3000), "HS+ (locked)");
}

#[test]
fn decode_security_ignores_low_bits() {
    assert_eq!(decode_security(0x20FF), "HS (high security)");
}

#[test]
fn pri_timeout_is_unreachable() {
    assert!(is_unreachable(0xBADF_1201));
}

#[test]
fn dead_dead_is_unreachable() {
    assert!(is_unreachable(0xDEAD_DEAD));
}

#[test]
fn all_ones_is_unreachable() {
    assert!(is_unreachable(0xFFFF_FFFF));
}

#[test]
fn normal_value_is_reachable() {
    assert!(!is_unreachable(0x0000_0030));
}

#[test]
fn zero_is_reachable() {
    assert!(!is_unreachable(0));
}

fn make_falcon(name: &str, cpuctl: u32, sctl: u32) -> FalconSnapshot {
    FalconSnapshot {
        name: name.to_string(),
        base: 0x409000,
        cpuctl,
        stopped: cpuctl & CPUCTL_STOPPED != 0,
        halted: cpuctl & CPUCTL_HALTED != 0,
        sctl,
        security_mode: decode_security(sctl),
        pc: 0,
        exci: 0,
        bootvec: 0,
        hwcfg: 0,
        imem_size_bytes: 0,
        dmem_size_bytes: 0,
        mailbox0: 0,
        mailbox1: 0,
        irqstat: 0,
        irqmode: 0,
        fbif_transcfg: 0,
        dmactl: 0,
        itfen: 0,
        mthd_data: 0,
        mthd_status: 0,
        imem_fingerprint: Vec::new(),
        reachable: true,
    }
}

fn make_snapshot(label: &str, fecs_cpuctl: u32, pmc_enable: u32) -> FirmwareSnapshot {
    FirmwareSnapshot {
        timestamp_ms: 0,
        label: label.to_string(),
        boot0: 0x1400_00A1,
        architecture: "Volta (GV140)".to_string(),
        fecs: make_falcon("FECS", fecs_cpuctl, 0x2000),
        gpccs: make_falcon("GPCCS", 0x30, 0x2000),
        pmu: make_falcon("PMU", 0x00, 0x0000),
        sec2: make_falcon("SEC2", 0x00, 0x0000),
        power: PowerSnapshot {
            pmc_enable,
            pmc_intr: 0,
            ptimer_low: 0x1000,
            ptimer_high: 0,
            ptimer_ticking: true,
        },
        pfifo_state: PfifoSnapshot {
            enable: 1,
            intr: 0,
            intr_en: 0,
            sched_en: 1,
            sched_disable: 0,
            pbdma_map: 0x3,
            pbdma_count: 2,
            channel0_inst: 0,
            channel0_state: 0,
        },
        gr: GrSnapshot {
            gr_enable: 1,
            gr_intr: 0,
            gr_intr_en: 0,
            gr_status: 0,
            fecs_exception_reg: 0,
        },
        clocks: ClockSnapshot {
            ppll_0: 0x0001_0000,
            ppll_1: 0x0001_3701,
            pbus_bar1_block: 0,
            ptimer_cfg: 0,
        },
    }
}

#[test]
fn diff_identical_snapshots_is_empty() {
    let a = make_snapshot("a", 0x30, 0x0000_1100);
    let b = make_snapshot("b", 0x30, 0x0000_1100);
    let diffs = diff_snapshots(&a, &b);
    assert!(diffs.is_empty(), "expected no diffs, got {diffs:?}");
}

#[test]
fn diff_detects_cpuctl_change() {
    let a = make_snapshot("pre", 0x30, 0x1100);
    let b = make_snapshot("post", 0x20, 0x1100);
    let diffs = diff_snapshots(&a, &b);
    let cpuctl_diff = diffs.iter().find(|(p, _, _)| p == "FECS.cpuctl");
    assert!(cpuctl_diff.is_some(), "missing FECS.cpuctl diff");
    let (_, old, new) = cpuctl_diff.unwrap();
    assert_eq!(old, "0x00000030");
    assert_eq!(new, "0x00000020");
}

#[test]
fn diff_detects_pmc_enable_change() {
    let a = make_snapshot("cold", 0x30, 0x0000_0000);
    let b = make_snapshot("warm", 0x30, 0x0000_1100);
    let diffs = diff_snapshots(&a, &b);
    assert!(diffs.iter().any(|(p, _, _)| p == "power.pmc_enable"), "missing pmc_enable diff");
}

#[test]
fn diff_is_empty_against_itself_and_reports_each_change_once() {
    let a = make_snapshot("x", 0x30, 0x1100);
    assert!(diff_snapshots(&a, &a.clone()).is_empty());
    let mut b = a.clone();
    b.fecs.cpuctl = 0x10;
    b.gr.gr_status = 0x2;
    let diffs = diff_snapshots(&a, &b);
    assert_eq!(diffs.len(), 2);
    assert_eq!(diffs.iter().filter(|(p, _, _)| p == "FECS.cpuctl").count(), 1);
}
