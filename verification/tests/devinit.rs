use coral_driver::devinit::{
    scan_init_script_writes, validate_vbios, BitEntry, BitTable, DevinitError, ScriptRegWrite,
};

fn script() -> Vec<u8> {
    let mut rom = vec![0x7A, 0x00, 0x02, 0x00, 0x00, 0xFF, 0xFF, 0xFF, 0xFF];
    rom.extend_from_slice(&[0x6E, 0x04, 0x02, 0, 0, 0xF0, 0, 0, 0, 0x01, 0, 0, 0]);
    rom.extend_from_slice(&[0x58, 0x00, 0x10, 0, 0, 2, 1, 0, 0, 0, 2, 0, 0, 0]);
    rom.extend_from_slice(&[0x77, 0x08, 0x02, 0, 0, 0x34, 0x12]);
    rom.extend_from_slice(&[0x7A, 0, 0, 0, 0x01, 9, 9, 9, 9]);
    rom.push(0x71);
    rom
}

#[test]
fn scan_extracts_register_writes_in_rom_order() {
    let rom = script();
    let w = scan_init_script_writes(&rom, 0, rom.len());
    assert_eq!(
        w,
        vec![
            ScriptRegWrite { rom_offset: 0, opcode: 0x7A, reg: 0x200, value: 0xFFFF_FFFF, mask: None },
            ScriptRegWrite { rom_offset: 9, opcode: 0x6E, reg: 0x204, value: 1, mask: Some(0xF0) },
            ScriptRegWrite { rom_offset: 28, opcode: 0x58, reg: 0x1000, value: 1, mask: None },
            ScriptRegWrite { rom_offset: 32, opcode: 0x58, reg: 0x1004, value: 2, mask: None },
            ScriptRegWrite { rom_offset: 36, opcode: 0x77, reg: 0x208, value: 0x1234, mask: None },
        ]
    );
}

#[test]
fn scan_clips_length_to_image() {
    let rom = script();
    assert_eq!(scan_init_script_writes(&rom, 0, 1000).len(), 5);
    assert_eq!(scan_init_script_writes(&rom, 0, 8).len(), 0);
    assert!(scan_init_script_writes(&rom, 500, 10).is_empty());
}

#[test]
fn validate_vbios_checks_size_and_signature() {
    assert_eq!(validate_vbios(&[0x55, 0xAA]), Err(DevinitError::RomTooSmall { len: 2 }));
    let mut rom = vec![0u8; 512];
    assert_eq!(validate_vbios(&rom), Err(DevinitError::BadRomSignature { b0: 0, b1: 0 }));
    rom[0] = 0x55;
    rom[1] = 0xAA;
    assert_eq!(validate_vbios(&rom), Ok(rom.clone()));
}

#[test]
fn bit_table_parse_and_find() {
    let mut rom = vec![0u8; 64];
    rom[0x10..0x15].copy_from_slice(&[0xFF, 0xB8, b'B', b'I', b'T']);
    rom[0x10 + 9] = 6;
    rom[0x10 + 10] = 3;
    let e = 0x10 + 12;
    rom[e..e + 6].copy_from_slice(&[b'I', 1, 4, 0, 0x20, 0]);
    rom[e + 6..e + 12].copy_from_slice(&[0, 0, 0, 0, 0, 0]);
    rom[e + 12..e + 18].copy_from_slice(&[b'p', 2, 8, 0, 0x30, 0]);
    let t = BitTable::parse(&rom).unwrap();
    assert_eq!(t.entries.len(), 2);
    let i = t.find(b'I').unwrap();
    assert_eq!(*i, BitEntry { id: b'I', version: 1, header_len: 0, data_offset: 0x20, data_size: 4 });
    assert_eq!(t.find(b'p').unwrap().data_offset, 0x30);
    assert!(t.find(b'x').is_none());
}

#[test]
fn bit_table_errors() {
    assert_eq!(BitTable::parse(&[0u8; 32]).err(), Some(DevinitError::BitSignatureNotFound));
    let mut rom = vec![0u8; 32];
    rom[0..5].copy_from_slice(&[0xFF, 0xB8, b'B', b'I', b'T']);
    rom[9] = 4;
    rom[10] = 1;
    assert_eq!(
        BitTable::parse(&rom).err(),
        Some(DevinitError::BitHeaderInvalid { entry_size: 4, entry_count: 1 })
    );
    let short = [0xFF, 0xB8, b'B', b'I', b'T', 0, 0, 0];
    assert_eq!(BitTable::parse(&short).err(), Some(DevinitError::BitHeaderTruncated));
}

#[test]
fn devinit_error_descriptions() {
    assert_eq!(DevinitError::BitSignatureNotFound.describe(), "BIT signature not found in VBIOS");
    assert_eq!(DevinitError::RomTooSmall { len: 3 }.describe(), "VBIOS too small");
}
