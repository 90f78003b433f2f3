//! Verified core of a VFIO GPU bring-up toolkit: VBIOS parsing and
//! interpretation, PMU falcon upload, register-domain classification,
//! recipe replay and subsystem validation.
use vstd::prelude::*;

pub mod boot_follower;
pub mod bus;
pub mod devinit;
pub mod diagnostic;
pub mod devinit_interp;
pub mod firmware_probe;
pub mod glowplug;
pub mod hbm2_training;
pub mod k80_cold_boot;
pub mod kepler_page_tables;
pub mod pmu;
pub mod probe_report;
pub mod replay;
pub mod rom;
pub mod snapshot;
pub mod stable_sort;
pub mod subsystem_validator;
pub mod sovereign_boot;
pub mod text;

verus! {

} // verus!
