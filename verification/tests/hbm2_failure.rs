use coral_driver::bus::{Bar0, MmioError, RegisterBus};
use coral_driver::hbm2_training::{train_hbm2, TrainingAction};

/// Every register answers with a PRI fault; writes are accepted.
struct FaultedBus;

impl RegisterBus for FaultedBus {
    fn read_u32(&mut self, _reg: usize) -> Result<u32, MmioError> {
        Ok(0xBADF_1100)
    }

    fn write_u32(&mut self, _reg: usize, _val: u32) -> Result<(), MmioError> {
        Ok(())
    }

    fn delay_us(&mut self, _us: u64) {}
}

#[test]
fn failed_training_returns_partial_log() {
    let bar0 = Bar0::new(FaultedBus);
    let res = train_hbm2(bar0, None, None);
    let (err, log) = match res {
        Ok(_) => panic!("training cannot succeed on a faulted bus"),
        Err(failed) => failed,
    };
    assert_eq!(err.phase, "enable_phy");
    assert!(!log.actions.is_empty());
    match &log.actions[0] {
        TrainingAction::PhaseTransition { from, to } => {
            assert_eq!(from, "Untrained");
            assert_eq!(to, "PhyUp");
        }
        other => panic!("first action is {other:?}"),
    }
}
