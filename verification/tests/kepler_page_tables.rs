use coral_driver::kepler_page_tables::{
    encode_kepler_pte, encode_kepler_spt_pde, populate_kepler_page_tables, populate_kepler_runlist,
    write_u32_le, PT_ENTRIES,
};

#[test]
fn kepler_spt_pde_encoding() {
    let pde = encode_kepler_spt_pde(0x6000);
    assert_eq!(pde, 0x6D);
    assert_eq!(pde & 1, 1, "SPT present");
    assert_eq!((pde >> 1) & 3, 2, "target = COH");
    assert_eq!((pde >> 3) & 1, 1, "VOL bit");
    let addr = u64::from(pde & 0xFFFF_FFF0) << 8;
    assert_eq!(addr, 0x6000, "decoded SPT address");
}

#[test]
fn kepler_pte_encoding() {
    let pte = encode_kepler_pte(0x1000);
    assert_eq!(pte, 0x1D);
    assert_eq!(pte & 1, 1, "valid bit");
    assert_eq!((pte >> 1) & 3, 2, "target = COH");
    assert_eq!((pte >> 3) & 1, 1, "VOL bit");
    let addr = u64::from((pte as u32) & 0xFFFF_FFF0) << 8;
    assert_eq!(addr, 0x1000, "decoded physical address");
}

#[test]
fn kepler_pte_upper_dword_zero() {
    let pte = encode_kepler_pte(0x2000);
    assert_eq!(pte >> 32, 0, "upper dword = 0 (no compression)");
}

#[test]
fn kepler_pte_higher_address() {
    let pte = encode_kepler_pte(0x10_0000);
    let lo = pte as u32;
    let addr = u64::from(lo & 0xFFFF_FFF0) << 8;
    assert_eq!(addr, 0x10_0000);
}

#[test]
fn kepler_runlist_entry_format() {
    let mut rl = [0u8; 64];
    populate_kepler_runlist(&mut rl, 5);
    let dw0 = u32::from_le_bytes([rl[0], rl[1], rl[2], rl[3]]);
    let dw1 = u32::from_le_bytes([rl[4], rl[5], rl[6], rl[7]]);
    assert_eq!(dw0, 5, "channel_id = 5");
    assert_eq!(dw1, 4, "TYPE = CHANNEL");
}

#[test]
fn write_u32_le_places_bytes() {
    let mut buf = [0xAAu8; 8];
    write_u32_le(&mut buf, 2, 0x1122_3344);
    assert_eq!(buf, [0xAA, 0xAA, 0x44, 0x33, 0x22, 0x11, 0xAA, 0xAA]);
}

#[test]
fn page_tables_identity_map_with_null_guard() {
    let mut pdb = [0xFFu8; 16];
    let mut spt = vec![0u8; 4096];
    populate_kepler_page_tables(&mut pdb, &mut spt, 0x6000);
    assert_eq!(u32::from_le_bytes([pdb[0], pdb[1], pdb[2], pdb[3]]), 0);
    assert_eq!(u32::from_le_bytes([pdb[4], pdb[5], pdb[6], pdb[7]]), 0x6D);
    assert_eq!(pdb[8], 0xFF);
    assert_eq!(&spt[0..8], &[0u8; 8]);
    for i in 1..PT_ENTRIES {
        let pte = u64::from_le_bytes(spt[i * 8..i * 8 + 8].try_into().unwrap());
        assert_eq!(pte, encode_kepler_pte((i as u64) * 4096));
        assert_eq!(u64::from((pte as u32) & 0xFFFF_FFF0) << 8, (i as u64) * 4096);
    }
}
