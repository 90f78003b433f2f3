//! Hardware bring-up diagnostic experiment matrix for channel creation:
//! the experiment configurations and the one-line summary of a result.
use vstd::prelude::*;

use crate::text::{
    hex_digits, pad_right, push_hex_lower2, push_hex_n, push_padded, spec_hex_lower2,
};

verus! {

/// Operation ordering for a diagnostic experiment.
#[derive(Debug, Clone, Copy, PartialEq, Eq, Structural)]
pub enum ExperimentOrdering {
    /// A: bind, enable, runlist (the production path).
    BindEnableRunlist,
    /// B: bind, runlist, enable.
    BindRunlistEnable,
    /// C: runlist, bind, enable.
    RunlistBindEnable,
    /// D: bind with INST_BIND, enable, runlist.
    BindWithInstBindEnableRunlist,
    /// E: direct PBDMA register programming, bypassing the scheduler.
    DirectPbdmaProgramming,
    /// F: direct PBDMA and PCCSR bind with INST_BIND.
    DirectPbdmaWithInstBind,
    /// G: direct PBDMA and activation (GP_FETCH reset, GPFIFO entry, GP_PUT).
    DirectPbdmaActivate,
    /// H: G and a doorbell notification.
    DirectPbdmaActivateDoorbell,
    /// I: G and the PCCSR scheduled bit written directly.
    DirectPbdmaActivateScheduled,
    /// J: instance block in VRAM, normal runlist submit and doorbell.
    VramInstanceBind,
    /// K: every structure in VRAM.
    AllVram,
    /// L: VRAM structures and direct PBDMA programming.
    AllVramDirectPbdma,
    /// M: PFIFO engine reset and re-init, then the scheduler path.
    PfifoResetInit,
    /// N: INST_BIND, scheduled, GPFIFO work and doorbell.
    FullDispatchWithInstBind,
    /// O: N and a PREEMPT to force a context switch.
    FullDispatchWithPreempt,
    /// P: INST_BIND (scheduled), direct PBDMA writes and doorbell.
    ScheduledPlusDirectPbdma,
    /// Q: instance block in VRAM and the full dispatch path.
    VramFullDispatch,
    /// T: direct PBDMA at the active offsets and a doorbell after SCHED.
    DirectPbdmaSchedDoorbell,
    /// R: the RAMFC-mirror PBDMA offsets, SCHED and doorbell.
    RamfcMirrorSchedDoorbell,
    /// S: both register sets, SCHED and doorbell.
    BothPathsSchedDoorbell,
    /// V: the pure scheduler path, no INST_BIND and no direct PBDMA.
    SchedulerPathOnly,
}

/// Configuration of one experiment of the diagnostic matrix.
#[derive(Debug, Clone)]
pub struct ExperimentConfig {
    /// Human-readable experiment name.
    pub name: &'static str,
    /// PCCSR INST_TARGET: 2 = COH, 3 = NCOH (0 = VRAM).
    pub pccsr_target: u32,
    /// Runlist channel entry DW0 USERD_TARGET.
    pub runlist_userd_target: u32,
    /// Runlist channel entry DW2 INST_TARGET.
    pub runlist_inst_target: u32,
    /// Runlist base register (0x2270) target.
    pub runlist_base_target: u32,
    /// Operation ordering.
    pub ordering: ExperimentOrdering,
    /// Whether to leave PFIFO_ENABLE as it is.
    pub skip_pfifo_toggle: bool,
}

/// Register snapshot of one experiment.
#[derive(Debug)]
pub struct ExperimentResult {
    pub name: String,
    pub pccsr_chan: u32,
    pub pccsr_inst_readback: u32,
    pub pbdma_userd_lo: u32,
    pub pbdma_userd_hi: u32,
    pub pbdma_ramfc_userd_lo: u32,
    pub pbdma_ramfc_userd_hi: u32,
    pub pbdma_gp_base_lo: u32,
    pub pbdma_gp_base_hi: u32,
    pub pbdma_gp_put: u32,
    pub pbdma_gp_fetch: u32,
    pub pbdma_channel_state: u32,
    pub pbdma_signature: u32,
    pub pfifo_intr: u32,
    pub mmu_fault_status: u32,
    pub engn0_status: u32,
    pub faulted: bool,
    pub scheduled: bool,
    pub pbdma_ours: bool,
}

/// The eight hexadecimal digits of a register (Rust's `{:08x}`).
pub open spec fn hex08(v: u32) -> Seq<char> {
    hex_digits(v as nat, 8)
}

/// The summary line of an experiment result.
pub open spec fn spec_summary_line(r: ExperimentResult) -> Seq<char> {
    pad_right(r.name@, 42) + " | "@ + hex08(r.pccsr_chan) + " | "@ + pad_right(
        if r.faulted {
            "FAULT"@
        } else {
            "ok"@
        },
        5,
    ) + " | "@ + pad_right(
        if r.scheduled {
            "SCHED"@
        } else {
            "no"@
        },
        5,
    ) + " | D0="@ + hex08(r.pbdma_userd_lo) + " R8="@ + hex08(r.pbdma_ramfc_userd_lo) + " | "@
        + pad_right(
        if r.pbdma_ours {
            "OUR"@
        } else {
            "old"@
        },
        0,
    ) + " | gp="@ + spec_hex_lower2(r.pbdma_gp_put as nat) + "/"@ + spec_hex_lower2(
        r.pbdma_gp_fetch as nat,
    ) + " | "@ + hex08(r.engn0_status)
}

impl ExperimentResult {
    /// Single-line summary for the experiment table: name (42 columns),
    /// PCCSR channel, FAULT/ok, SCHED/no, PBDMA USERD (direct and RAMFC),
    /// OUR/old (whether the PBDMA holds our writes), GP_PUT/GP_FETCH and
    /// ENGN0 status.
    pub fn summary_line(&self) -> (r: String)
        ensures
            r@ == spec_summary_line(*self),
    {
        let mut s = String::new();
        push_padded(&mut s, self.name.as_str(), 42);
        s.append(" | ");
        push_hex_n(&mut s, self.pccsr_chan as u64, 8);
        s.append(" | ");
        push_padded(&mut s, if self.faulted { "FAULT" } else { "ok" }, 5);
        s.append(" | ");
        push_padded(&mut s, if self.scheduled { "SCHED" } else { "no" }, 5);
        s.append(" | D0=");
        push_hex_n(&mut s, self.pbdma_userd_lo as u64, 8);
        s.append(" R8=");
        push_hex_n(&mut s, self.pbdma_ramfc_userd_lo as u64, 8);
        s.append(" | ");
        push_padded(&mut s, if self.pbdma_ours { "OUR" } else { "old" }, 0);
        s.append(" | gp=");
        push_hex_lower2(&mut s, self.pbdma_gp_put as u64);
        s.append("/");
        push_hex_lower2(&mut s, self.pbdma_gp_fetch as u64);
        s.append(" | ");
        push_hex_n(&mut s, self.engn0_status as u64, 8);
        s
    }
}

/// One configuration; every experiment of the matrix leaves PFIFO_ENABLE
/// as it is.
pub open spec fn cfg(
    name: &'static str,
    pccsr_target: u32,
    runlist_userd_target: u32,
    runlist_inst_target: u32,
    runlist_base_target: u32,
    ordering: ExperimentOrdering,
) -> ExperimentConfig {
    ExperimentConfig {
        name,
        pccsr_target,
        runlist_userd_target,
        runlist_inst_target,
        runlist_base_target,
        ordering,
        skip_pfifo_toggle: true,
    }
}

fn mk(
    name: &'static str,
    pccsr_target: u32,
    runlist_userd_target: u32,
    runlist_inst_target: u32,
    runlist_base_target: u32,
    ordering: ExperimentOrdering,
) -> (r: ExperimentConfig)
    ensures
        r == cfg(name, pccsr_target, runlist_userd_target, runlist_inst_target, runlist_base_target, ordering),
{
    ExperimentConfig {
        name,
        pccsr_target,
        runlist_userd_target,
        runlist_inst_target,
        runlist_base_target,
        ordering,
        skip_pfifo_toggle: true,
    }
}

/// The experiment matrix, in the order the experiments run: one COH
/// representative of each scheduler ordering (A-D), then VRAM instance
/// block and full dispatch (Q), full dispatch (N), preempt (O), scheduled
/// and direct PBDMA (P), direct PBDMA (E, F), activation (G, H, I), SCHED
/// and doorbell (T), RAMFC mirror (R), both paths (S), scheduler only (V),
/// VRAM instance bind (J), all VRAM (K), VRAM and direct PBDMA (L), PFIFO
/// reset (M).
pub open spec fn spec_experiment_matrix() -> Seq<ExperimentConfig> {
    seq![
        cfg("A_coh", 2, 2, 3, 1, ExperimentOrdering::BindEnableRunlist),
        cfg("B_coh", 2, 2, 3, 1, ExperimentOrdering::BindRunlistEnable),
        cfg("C_coh", 2, 2, 3, 1, ExperimentOrdering::RunlistBindEnable),
        cfg("D_coh", 2, 2, 3, 1, ExperimentOrdering::BindWithInstBindEnableRunlist),
        cfg("Q_vramInst_Ucoh", 0, 2, 0, 3, ExperimentOrdering::VramFullDispatch),
        cfg("Q_vramInst_Ucoh_rlCoh", 0, 2, 0, 2, ExperimentOrdering::VramFullDispatch),
        cfg("Q_vramInst_Uncoh", 0, 3, 0, 3, ExperimentOrdering::VramFullDispatch),
        cfg("N_fullDispatch_coh", 2, 2, 3, 3, ExperimentOrdering::FullDispatchWithInstBind),
        cfg("N_fullDispatch_ncoh", 3, 2, 3, 2, ExperimentOrdering::FullDispatchWithInstBind),
        cfg("N_fullDispatch_allCoh", 2, 2, 2, 2, ExperimentOrdering::FullDispatchWithInstBind),
        cfg("O_dispatch_preempt_coh", 2, 2, 3, 3, ExperimentOrdering::FullDispatchWithPreempt),
        cfg("O_dispatch_preempt_ncoh", 3, 2, 3, 2, ExperimentOrdering::FullDispatchWithPreempt),
        cfg("P_sched_directPbdma_coh", 2, 2, 3, 3, ExperimentOrdering::ScheduledPlusDirectPbdma),
        cfg("E_direct_ncoh_noInstBind", 3, 2, 3, 3, ExperimentOrdering::DirectPbdmaProgramming),
        cfg("F_direct_ncoh_instBind", 3, 2, 3, 3, ExperimentOrdering::DirectPbdmaWithInstBind),
        cfg("E_direct_coh_noInstBind", 2, 2, 3, 3, ExperimentOrdering::DirectPbdmaProgramming),
        cfg("F_direct_coh_instBind", 2, 2, 3, 3, ExperimentOrdering::DirectPbdmaWithInstBind),
        cfg("G_activate_ncoh", 3, 2, 3, 3, ExperimentOrdering::DirectPbdmaActivate),
        cfg("H_activate_doorbell_ncoh", 3, 2, 3, 3, ExperimentOrdering::DirectPbdmaActivateDoorbell),
        cfg("I_activate_sched_ncoh", 3, 2, 3, 3, ExperimentOrdering::DirectPbdmaActivateScheduled),
        cfg("G_activate_coh", 2, 2, 3, 3, ExperimentOrdering::DirectPbdmaActivate),
        cfg("H_activate_doorbell_coh", 2, 2, 3, 3, ExperimentOrdering::DirectPbdmaActivateDoorbell),
        cfg("I_activate_sched_coh", 2, 2, 3, 3, ExperimentOrdering::DirectPbdmaActivateScheduled),
        cfg("T_sched_doorbell_coh", 2, 2, 3, 1, ExperimentOrdering::DirectPbdmaSchedDoorbell),
        cfg("T_sched_doorbell_ncoh", 3, 2, 3, 1, ExperimentOrdering::DirectPbdmaSchedDoorbell),
        cfg("R_ramfc_sched_coh", 2, 2, 3, 1, ExperimentOrdering::RamfcMirrorSchedDoorbell),
        cfg("R_ramfc_sched_ncoh", 3, 2, 3, 1, ExperimentOrdering::RamfcMirrorSchedDoorbell),
        cfg("S_both_sched_coh", 2, 2, 3, 1, ExperimentOrdering::BothPathsSchedDoorbell),
        cfg("S_both_sched_ncoh", 3, 2, 3, 1, ExperimentOrdering::BothPathsSchedDoorbell),
        cfg("V_scheduler_only_coh", 2, 2, 3, 1, ExperimentOrdering::SchedulerPathOnly),
        cfg("V_scheduler_only_ncoh", 3, 2, 3, 1, ExperimentOrdering::SchedulerPathOnly),
        cfg("J_vramInst_rlNcoh", 0, 2, 0, 3, ExperimentOrdering::VramInstanceBind),
        cfg("J_vramInst_rlCoh", 0, 2, 0, 2, ExperimentOrdering::VramInstanceBind),
        cfg("K_allVram", 0, 0, 0, 0, ExperimentOrdering::AllVram),
        cfg("L_vramDirectPbdma", 0, 0, 0, 0, ExperimentOrdering::AllVramDirectPbdma),
        cfg("M_pfifoReset_coh", 2, 2, 3, 3, ExperimentOrdering::PfifoResetInit),
        cfg("M_pfifoReset_ncoh", 3, 2, 3, 2, ExperimentOrdering::PfifoResetInit),
    ]
}

/// Build the full experiment configuration matrix.
pub fn build_experiment_matrix() -> (r: Vec<ExperimentConfig>)
    ensures
        r@ == spec_experiment_matrix(),
{
    let r = vec![
        mk("A_coh", 2, 2, 3, 1, ExperimentOrdering::BindEnableRunlist),
        mk("B_coh", 2, 2, 3, 1, ExperimentOrdering::BindRunlistEnable),
        mk("C_coh", 2, 2, 3, 1, ExperimentOrdering::RunlistBindEnable),
        mk("D_coh", 2, 2, 3, 1, ExperimentOrdering::BindWithInstBindEnableRunlist),
        mk("Q_vramInst_Ucoh", 0, 2, 0, 3, ExperimentOrdering::VramFullDispatch),
        mk("Q_vramInst_Ucoh_rlCoh", 0, 2, 0, 2, ExperimentOrdering::VramFullDispatch),
        mk("Q_vramInst_Uncoh", 0, 3, 0, 3, ExperimentOrdering::VramFullDispatch),
        mk("N_fullDispatch_coh", 2, 2, 3, 3, ExperimentOrdering::FullDispatchWithInstBind),
        mk("N_fullDispatch_ncoh", 3, 2, 3, 2, ExperimentOrdering::FullDispatchWithInstBind),
        mk("N_fullDispatch_allCoh", 2, 2, 2, 2, ExperimentOrdering::FullDispatchWithInstBind),
        mk("O_dispatch_preempt_coh", 2, 2, 3, 3, ExperimentOrdering::FullDispatchWithPreempt),
        mk("O_dispatch_preempt_ncoh", 3, 2, 3, 2, ExperimentOrdering::FullDispatchWithPreempt),
        mk("P_sched_directPbdma_coh", 2, 2, 3, 3, ExperimentOrdering::ScheduledPlusDirectPbdma),
        mk("E_direct_ncoh_noInstBind", 3, 2, 3, 3, ExperimentOrdering::DirectPbdmaProgramming),
        mk("F_direct_ncoh_instBind", 3, 2, 3, 3, ExperimentOrdering::DirectPbdmaWithInstBind),
        mk("E_direct_coh_noInstBind", 2, 2, 3, 3, ExperimentOrdering::DirectPbdmaProgramming),
        mk("F_direct_coh_instBind", 2, 2, 3, 3, ExperimentOrdering::DirectPbdmaWithInstBind),
        mk("G_activate_ncoh", 3, 2, 3, 3, ExperimentOrdering::DirectPbdmaActivate),
        mk("H_activate_doorbell_ncoh", 3, 2, 3, 3, ExperimentOrdering::DirectPbdmaActivateDoorbell),
        mk("I_activate_sched_ncoh", 3, 2, 3, 3, ExperimentOrdering::DirectPbdmaActivateScheduled),
        mk("G_activate_coh", 2, 2, 3, 3, ExperimentOrdering::DirectPbdmaActivate),
        mk("H_activate_doorbell_coh", 2, 2, 3, 3, ExperimentOrdering::DirectPbdmaActivateDoorbell),
        mk("I_activate_sched_coh", 2, 2, 3, 3, ExperimentOrdering::DirectPbdmaActivateScheduled),
        mk("T_sched_doorbell_coh", 2, 2, 3, 1, ExperimentOrdering::DirectPbdmaSchedDoorbell),
        mk("T_sched_doorbell_ncoh", 3, 2, 3, 1, ExperimentOrdering::DirectPbdmaSchedDoorbell),
        mk("R_ramfc_sched_coh", 2, 2, 3, 1, ExperimentOrdering::RamfcMirrorSchedDoorbell),
        mk("R_ramfc_sched_ncoh", 3, 2, 3, 1, ExperimentOrdering::RamfcMirrorSchedDoorbell),
        mk("S_both_sched_coh", 2, 2, 3, 1, ExperimentOrdering::BothPathsSchedDoorbell),
        mk("S_both_sched_ncoh", 3, 2, 3, 1, ExperimentOrdering::BothPathsSchedDoorbell),
        mk("V_scheduler_only_coh", 2, 2, 3, 1, ExperimentOrdering::SchedulerPathOnly),
        mk("V_scheduler_only_ncoh", 3, 2, 3, 1, ExperimentOrdering::SchedulerPathOnly),
        mk("J_vramInst_rlNcoh", 0, 2, 0, 3, ExperimentOrdering::VramInstanceBind),
        mk("J_vramInst_rlCoh", 0, 2, 0, 2, ExperimentOrdering::VramInstanceBind),
        mk("K_allVram", 0, 0, 0, 0, ExperimentOrdering::AllVram),
        mk("L_vramDirectPbdma", 0, 0, 0, 0, ExperimentOrdering::AllVramDirectPbdma),
        mk("M_pfifoReset_coh", 2, 2, 3, 3, ExperimentOrdering::PfifoResetInit),
        mk("M_pfifoReset_ncoh", 3, 2, 3, 2, ExperimentOrdering::PfifoResetInit),
    ];
    assert(r@ =~= spec_experiment_matrix());
    r
}

} // verus!
