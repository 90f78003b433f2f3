use coral_driver::probe_report::ProbeReport;

type Report = ProbeReport<u8, u8, u8, u8, u8, u8, u8, u8, String>;

fn empty() -> Report {
    ProbeReport {
        bar: None,
        identity: None,
        power: None,
        engines: None,
        memory: None,
        dma: None,
        channel: None,
        dispatch: None,
        failures: vec![],
        elapsed_ms: 0,
    }
}

#[test]
fn probe_report_depth_counts_highest_layer() {
    let mut r = empty();
    assert_eq!(r.depth(), 0);
    r.bar = Some(1);
    assert_eq!(r.depth(), 1);
    r.identity = Some(1);
    r.power = Some(1);
    assert_eq!(r.depth(), 3);
    r.memory = Some(1);
    assert_eq!(r.depth(), 5);
    r.dispatch = Some(1);
    assert_eq!(r.depth(), 8);
    let mut gap = empty();
    gap.channel = Some(1);
    assert_eq!(gap.depth(), 7);
}
