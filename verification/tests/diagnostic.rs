use coral_driver::diagnostic::{build_experiment_matrix, ExperimentOrdering, ExperimentResult};

fn result(name: &str) -> ExperimentResult {
    ExperimentResult {
        name: name.to_string(),
        pccsr_chan: 0x1234_5678,
        pccsr_inst_readback: 0,
        pbdma_userd_lo: 0xABCD,
        pbdma_userd_hi: 0,
        pbdma_ramfc_userd_lo: 0x10,
        pbdma_ramfc_userd_hi: 0,
        pbdma_gp_base_lo: 0,
        pbdma_gp_base_hi: 0,
        pbdma_gp_put: 1,
        pbdma_gp_fetch: 0x1AB,
        pbdma_channel_state: 0,
        pbdma_signature: 0,
        pfifo_intr: 0,
        mmu_fault_status: 0,
        engn0_status: 0xDEAD_BEEF,
        faulted: true,
        scheduled: false,
        pbdma_ours: true,
    }
}

#[test]
fn summary_line_matches_table_format() {
    let r = result("A_coh");
    let line = r.summary_line();
    let expected = format!(
        "{:<42} | {:08x} | {:<5} | {:<5} | D0={:08x} R8={:08x} | {:>3} | gp={:02x}/{:02x} | {:08x}",
        "A_coh", 0x1234_5678u32, "FAULT", "no", 0xABCDu32, 0x10u32, "OUR", 1u32, 0x1ABu32, 0xDEAD_BEEFu32
    );
    assert_eq!(line, expected);
}

#[test]
fn summary_line_keeps_long_names() {
    let long = "X".repeat(50);
    let line = result(&long).summary_line();
    assert!(line.starts_with(&format!("{long} | ")));
}

#[test]
fn experiment_matrix_order_and_contents() {
    let m = build_experiment_matrix();
    assert_eq!(m.len(), 37);
    assert_eq!(m[0].name, "A_coh");
    assert!(matches!(m[0].ordering, ExperimentOrdering::BindEnableRunlist));
    assert_eq!(m[4].name, "Q_vramInst_Ucoh");
    assert_eq!(m[4].pccsr_target, 0);
    assert_eq!(m[13].name, "E_direct_ncoh_noInstBind");
    assert_eq!(m[13].pccsr_target, 3);
    assert_eq!(m[36].name, "M_pfifoReset_ncoh");
    assert!(m.iter().all(|c| c.skip_pfifo_toggle));
    let mut names: Vec<&str> = m.iter().map(|c| c.name).collect();
    names.sort();
    names.dedup();
    assert_eq!(names.len(), 37);
}
