use std::collections::BTreeMap;

use coral_driver::bus::{Bar0, MmioError, RegisterBus};
use coral_driver::devinit::DevinitError;
use coral_driver::pmu::{check_vram_via_pramin, devinit_from_vbios};
use coral_driver::hbm2_training::{capture_golden, hbm2_capture_domains, DomainCapture, GoldenCapture};
use coral_driver::k80_cold_boot::{wrapped_recipe_steps, JsonScalar, WrappedEntry};
use coral_driver::devinit_interp::VbiosInterpreter;
use coral_driver::replay::{apply_devinit_to_bar0, DevinitOp, DevinitScript};
use coral_driver::subsystem_validator::reference_snapshot;

#[derive(Default)]
struct Regs {
    regs: BTreeMap<usize, u32>,
    writes: Vec<(usize, u32)>,
    delays: Vec<u64>,
}

impl RegisterBus for Regs {
    fn read_u32(&mut self, reg: usize) -> Result<u32, MmioError> {
        self.regs.get(&reg).copied().ok_or(MmioError)
    }

    fn write_u32(&mut self, reg: usize, val: u32) -> Result<(), MmioError> {
        self.writes.push((reg, val));
        self.regs.insert(reg, val);
        Ok(())
    }

    fn delay_us(&mut self, us: u64) {
        self.delays.push(us);
    }
}

#[test]
fn golden_capture_keeps_live_registers() {
    let mut bus = Regs::default();
    bus.regs.insert(0, 0x1400_00A1);
    bus.regs.insert(0x200, 0x5FEC_DFF1);
    bus.regs.insert(0x9A0004, 0x42);
    bus.regs.insert(0x9A0008, 0xBADF_1100);
    bus.regs.insert(0x10A000, 0x7);
    let mut bar0 = Bar0::new(&mut bus);
    let g = capture_golden(&mut bar0, "1s".to_string()).unwrap();
    assert_eq!(g.boot0, 0x1400_00A1);
    assert_eq!(g.pmc_enable, 0x5FEC_DFF1);
    assert_eq!(g.timestamp, "1s");
    let names: Vec<&str> = g.domains.iter().map(|d| d.name.as_str()).collect();
    let expected: Vec<&str> = hbm2_capture_domains().iter().map(|d| d.0).collect();
    assert_eq!(names, expected);
    assert_eq!(g.domains[0].registers, vec![(0x9A0004, 0x42)]);
    assert_eq!(g.domains[15].registers, vec![(0x10A000, 0x7)]);
    assert_eq!(g.register_count(), 2);
}

#[test]
fn golden_capture_refuses_sleeping_card() {
    let mut bus = Regs::default();
    bus.regs.insert(0, 0xFFFF_FFFF);
    let mut bar0 = Bar0::new(&mut bus);
    let e = capture_golden(&mut bar0, "0s".to_string()).unwrap_err();
    assert!(e.contains("D3hot"));
}

#[test]
fn golden_capture_registers_sorted() {
    let g = GoldenCapture {
        boot0: 0,
        pmc_enable: 0,
        domains: vec![
            DomainCapture { name: "B".to_string(), registers: vec![(0x20, 1), (0x10, 2)] },
            DomainCapture { name: "A".to_string(), registers: vec![(0x10, 3), (0x05, 4)] },
        ],
        timestamp: String::new(),
    };
    assert_eq!(g.all_registers(), vec![(0x05, 4), (0x10, 2), (0x10, 3), (0x20, 1)]);
}

#[test]
fn wrapped_recipe_defaults() {
    let entries = vec![
        WrappedEntry {
            domain: Some("PMC".to_string()),
            offset: JsonScalar::Text("0x000200".to_string()),
            value: JsonScalar::Unsigned(0x1_0000_0011),
            priority: Some(3),
        },
        WrappedEntry { domain: None, offset: JsonScalar::Other, value: JsonScalar::Other, priority: None },
    ];
    let steps = wrapped_recipe_steps(&entries);
    assert_eq!(steps.len(), 2);
    assert_eq!((steps[0].domain.as_str(), steps[0].offset, steps[0].value, steps[0].priority), ("PMC", 0x200, 0x11, 3));
    assert_eq!((steps[1].domain.as_str(), steps[1].offset, steps[1].value, steps[1].priority), ("UNKNOWN", 0, 0, 99));
}

#[test]
fn reference_snapshot_parses_hex_and_skips_garbage() {
    let entries = vec![
        ("0x000200".to_string(), Some("0xFFFFFFFF".to_string())),
        ("0x0x000004".to_string(), Some("1f".to_string())),
        ("zz".to_string(), Some("0x1".to_string())),
        ("0x10".to_string(), None),
        ("0x20".to_string(), Some("0x100000000".to_string())),
        ("0x000200".to_string(), Some("0x5".to_string())),
    ];
    let m = reference_snapshot(&entries);
    assert_eq!(m.len(), 2);
    assert_eq!(m.get(&0x200), Some(&5));
    assert_eq!(m.get(&0x4), Some(&0x1f));
}

#[test]
fn devinit_replay_applies_every_op() {
    let mut bus = Regs::default();
    bus.regs.insert(0x300, 0xF0F0);
    let scripts = vec![
        DevinitScript {
            id: 0,
            addr: "0x1000".to_string(),
            ops: vec![
                DevinitOp::ZmReg { reg: 0x200, val: 0x11 },
                DevinitOp::NvReg { reg: 0x300, mask: 0xFF00, or_val: 0x1 },
                DevinitOp::Time { usec: 10 },
            ],
        },
        DevinitScript { id: 1, addr: "0x2000".to_string(), ops: vec![] },
        DevinitScript {
            id: -1,
            addr: "0x3000".to_string(),
            ops: vec![DevinitOp::NvReg { reg: 0x400, mask: 0, or_val: 1 }],
        },
    ];
    let mut bar0 = Bar0::new(&mut bus);
    let res = apply_devinit_to_bar0(&mut bar0, &scripts).unwrap();
    assert_eq!(res.applied, 3);
    assert_eq!(res.failed, 1);
    assert_eq!(res.domain_counts.get("script_0"), Some(&(3, 0)));
    assert_eq!(res.domain_counts.get("script_-1"), Some(&(0, 1)));
    assert!(res.domain_counts.get("script_1").is_none());
    drop(bar0);
    assert_eq!(bus.writes[0], (0x200, 0x11));
    assert_eq!(bus.writes[1], (0x300, 0xF001));
    assert_eq!(bus.delays[0], 10);
}

#[test]
fn vram_check_reads_back_sentinel() {
    let mut bus = Regs::default();
    let mut bar0 = Bar0::new(&mut bus);
    assert!(check_vram_via_pramin(&mut bar0));
    drop(bar0);
    assert_eq!(bus.writes, vec![(0x1700, 2), (0x70_6000, 0xCAFE_DEAD)]);
}

#[test]
fn devinit_from_vbios_paths() {
    let rom = vec![0u8; 600];
    // Secure boot: the host interpreter needs a BIT table.
    let mut bus = Regs::default();
    let mut bar0 = Bar0::new(&mut bus);
    assert_eq!(devinit_from_vbios(&mut bar0, true, &rom), Err(DevinitError::BitSignatureNotFound));
    // Devinit already done: the FALCON path answers false.
    let mut done = Regs::default();
    done.regs.insert(0x2240C, 0x2);
    let mut bar0 = Bar0::new(&mut done);
    assert_eq!(devinit_from_vbios(&mut bar0, false, &rom), Ok(false));
}

#[test]
fn interpreter_start_past_image_reads_unknown_zero_opcodes() {
    let rom = vec![0x71u8; 16];
    let mut bus = Regs::default();
    let mut bar0 = Bar0::new(&mut bus);
    let mut interp = VbiosInterpreter::new(&rom, 100);
    let r = interp.run(&mut bar0);
    assert_eq!(r, Err(DevinitError::TooManyUnknownOpcodes { offset: 200, op: 0 }));
    assert_eq!(interp.stats.unknown_opcodes.len(), 101);
    assert_eq!(interp.stats.ops_executed, 101);
    drop(bar0);
    assert!(bus.writes.is_empty());
}

#[test]
fn interpreter_writes_and_read_modify_writes_in_script_order() {
    let rom: Vec<u8> = vec![
        0x00, // offset 0 is never a script start
        0x7A, 0x00, 0x10, 0x00, 0x00, 0x34, 0x12, 0x00, 0x00, // ZM_REG 0x1000 = 0x1234
        0x6E, 0x04, 0x10, 0x00, 0x00, 0x00, 0xFF, 0x00, 0x00, 0x11, 0x00, 0x00, 0x00, // NV_REG 0x1004
        0x74, 0x05, 0x00, // TIME 5 us
        0x71, // DONE
    ];
    let mut bus = Regs::default();
    bus.regs.insert(0x1004, 0xABCD);
    let mut bar0 = Bar0::new(&mut bus);
    let mut interp = VbiosInterpreter::new(&rom, 1);
    assert_eq!(interp.run(&mut bar0), Ok(()));
    assert_eq!(interp.offset, 0);
    assert_eq!(interp.stats.ops_executed, 4);
    drop(bar0);
    assert_eq!(bus.writes, vec![(0x1000, 0x1234), (0x1004, 0xAB11)]);
    assert_eq!(bus.delays, vec![5]);
}
