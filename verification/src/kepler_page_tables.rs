//! GF100 V1 MMU page table encoding for Kepler (GK104/GK110/GK210).
//!
//! Two levels (PDB and small page table). A PDE is dual: its lower dword
//! points to a large page table, its upper dword to a small one. A PTE
//! holds `addr >> 12` in bits [31:4] of its lower dword; its upper dword
//! (storage type, compression) is zero for uncompressed system memory.
use vstd::prelude::*;

verus! {

/// Small page table entries: 512 pages of 4 KiB, 2 MiB in all.
pub const PT_ENTRIES: usize = 512;

/// Present / valid bit.
pub const PTE_VALID: u32 = 1;

/// Target field (bits [2:1]) = 2: coherent system memory.
pub const TARGET_COH: u32 = 4;

/// Volatile bit.
pub const VOL: u32 = 8;

/// The small-page PDE for a small page table at `spt_iova`:
/// `[31:4] = spt_iova >> 12, [3] = VOL, [2:1] = COH, [0] = present`.
pub open spec fn spec_spt_pde(spt_iova: u64) -> u32 {
    ((((spt_iova >> 12u64) as u32) << 4u32) | VOL | TARGET_COH | PTE_VALID) as u32
}

/// The PTE of an identity-mapped physical address: lower dword as the PDE
/// layout, upper dword zero.
pub open spec fn spec_pte(phys_addr: u64) -> u64 {
    (((((phys_addr >> 12u64) as u32) << 4u32) | VOL | TARGET_COH | PTE_VALID) as u32) as u64
}

/// Field by field, a small-page PDE and a PTE are present (bit 0),
/// target coherent system memory (bits [2:1] = 2), volatile (bit 3), and
/// hold the low 28 bits of the 4 KiB page number in bits [31:4]; a PTE's
/// upper dword is zero.
pub proof fn lemma_entry_fields(spt_iova: u64, phys_addr: u64)
    ensures
        spec_spt_pde(spt_iova) & 1 == 1,
        (spec_spt_pde(spt_iova) >> 1u32) & 3 == 2,
        (spec_spt_pde(spt_iova) >> 3u32) & 1 == 1,
        (spec_spt_pde(spt_iova) >> 4u32) as u64 == (spt_iova >> 12u64) & 0x0FFF_FFFF,
        spec_pte(phys_addr) & 1 == 1,
        (spec_pte(phys_addr) >> 1u64) & 3 == 2,
        (spec_pte(phys_addr) >> 3u64) & 1 == 1,
        (spec_pte(phys_addr) >> 4u64) == (phys_addr >> 12u64) & 0x0FFF_FFFF,
        spec_pte(phys_addr) >> 32u64 == 0,
{
    let d = spec_spt_pde(spt_iova);
    assert(d & 1 == 1 && (d >> 1u32) & 3 == 2 && (d >> 3u32) & 1 == 1 && (d >> 4u32) as u64 == (spt_iova
        >> 12u64) & 0x0FFF_FFFF) by (bit_vector)
        requires
            d == ((((spt_iova >> 12u64) as u32) << 4u32) | 8u32 | 4u32 | 1u32) as u32,
    ;
    let p = spec_pte(phys_addr);
    assert(p & 1 == 1 && (p >> 1u64) & 3 == 2 && (p >> 3u64) & 1 == 1 && (p >> 4u64) == (phys_addr >> 12u64)
        & 0x0FFF_FFFF && p >> 32u64 == 0) by (bit_vector)
        requires
            p == (((((phys_addr >> 12u64) as u32) << 4u32) | 8u32 | 4u32 | 1u32) as u32) as u64,
    ;
}

/// Encode a GF100 V1 small-page PDE (the upper dword of the dual PDE).
pub fn encode_kepler_spt_pde(spt_iova: u64) -> (r: u32)
    ensures
        r == spec_spt_pde(spt_iova),
{
    #[verifier::truncate]
    let page: u32 = (spt_iova >> 12u64) as u32;
    (page << 4u32) | VOL | TARGET_COH | PTE_VALID
}

/// Encode a GF100 V1 small-page PTE for an identity-mapped address.
pub fn encode_kepler_pte(phys_addr: u64) -> (r: u64)
    ensures
        r == spec_pte(phys_addr),
        r >> 32u64 == 0,
{
    #[verifier::truncate]
    let page: u32 = (phys_addr >> 12u64) as u32;
    let lo: u32 = (page << 4u32) | VOL | TARGET_COH | PTE_VALID;
    let r = lo as u64;
    assert(r >> 32u64 == 0) by (bit_vector)
        requires
            r == lo as u64,
    ;
    r
}

/// The four little-endian bytes of `v`.
pub open spec fn le_bytes(v: u32) -> Seq<u8> {
    seq![(v & 0xff) as u8, ((v >> 8u32) & 0xff) as u8, ((v >> 16u32) & 0xff) as u8, ((v >> 24u32) & 0xff) as u8]
}

/// `buf` with the bytes of `v` in place at `offset`.
pub open spec fn with_u32_le(buf: Seq<u8>, offset: int, v: u32) -> Seq<u8> {
    buf.subrange(0, offset) + le_bytes(v) + buf.subrange(offset + 4, buf.len() as int)
}

/// Write a little-endian `u32` into `buf` at byte `offset`.
pub fn write_u32_le(buf: &mut [u8], offset: usize, value: u32)
    requires
        offset + 4 <= old(buf)@.len(),
    ensures
        final(buf)@ == with_u32_le(old(buf)@, offset as int, value),
{
    #[verifier::truncate]
    let b0: u8 = (value & 0xff) as u8;
    #[verifier::truncate]
    let b1: u8 = ((value >> 8u32) & 0xff) as u8;
    #[verifier::truncate]
    let b2: u8 = ((value >> 16u32) & 0xff) as u8;
    #[verifier::truncate]
    let b3: u8 = ((value >> 24u32) & 0xff) as u8;
    buf[offset] = b0;
    buf[offset + 1] = b1;
    buf[offset + 2] = b2;
    buf[offset + 3] = b3;
    assert(buf@ =~= with_u32_le(old(buf)@, offset as int, value));
}

/// The little-endian `u32` at `offset` of `buf`.
pub open spec fn u32_le_at(buf: Seq<u8>, offset: int) -> Seq<u8> {
    buf.subrange(offset, offset + 4)
}

/// Populate a Kepler runlist with a single channel entry: DW0 the channel
/// id, DW1 = 4 (TYPE = CHANNEL).
pub fn populate_kepler_runlist(rl: &mut [u8], channel_id: u32)
    requires
        8 <= old(rl)@.len(),
    ensures
        final(rl)@.len() == old(rl)@.len(),
        u32_le_at(final(rl)@, 0) == le_bytes(channel_id),
        u32_le_at(final(rl)@, 4) == le_bytes(4),
        final(rl)@.subrange(8, final(rl)@.len() as int) == old(rl)@.subrange(8, old(rl)@.len() as int),
{
    write_u32_le(rl, 0, channel_id);
    let ghost mid = rl@;
    write_u32_le(rl, 4, 4);
    assert(u32_le_at(rl@, 0) =~= u32_le_at(mid, 0));
    assert(u32_le_at(rl@, 0) =~= le_bytes(channel_id));
    assert(u32_le_at(rl@, 4) =~= le_bytes(4));
    assert(rl@.subrange(8, rl@.len() as int) =~= old(rl)@.subrange(8, old(rl)@.len() as int));
}

/// The 8 little-endian bytes of a PTE whose upper dword is zero.
pub open spec fn pte_bytes(pte: u64) -> Seq<u8> {
    le_bytes(pte as u32) + le_bytes(0)
}

/// Populate the GF100 V1 page tables for a 2 MiB identity mapping.
///
/// PDB entry 0 is a dual PDE: lower dword 0 (no large page table), upper
/// dword the small-page PDE of `spt_iova`. The small page table maps pages
/// 1..512 to their own 4 KiB frames; page 0 stays unmapped as a null guard.
pub fn populate_kepler_page_tables(pdb: &mut [u8], spt: &mut [u8], spt_iova: u64)
    requires
        8 <= old(pdb)@.len(),
        PT_ENTRIES * 8 <= old(spt)@.len(),
    ensures
        final(pdb)@.len() == old(pdb)@.len(),
        final(spt)@.len() == old(spt)@.len(),
        u32_le_at(final(pdb)@, 0) == le_bytes(0),
        u32_le_at(final(pdb)@, 4) == le_bytes(spec_spt_pde(spt_iova)),
        final(spt)@.subrange(0, 8) == old(spt)@.subrange(0, 8),
        forall|i: int|
            1 <= i < PT_ENTRIES ==> #[trigger] final(spt)@.subrange(i * 8, i * 8 + 8) == pte_bytes(
                spec_pte((i * 4096) as u64),
            ),
        final(pdb)@.subrange(8, final(pdb)@.len() as int) == old(pdb)@.subrange(8, old(pdb)@.len() as int),
        final(spt)@.subrange(PT_ENTRIES * 8, final(spt)@.len() as int) == old(spt)@.subrange(
            PT_ENTRIES * 8,
            old(spt)@.len() as int,
        ),
{
    let ghost p0 = pdb@;
    write_u32_le(pdb, 0, 0);
    let ghost mid = pdb@;
    let spt_pde = encode_kepler_spt_pde(spt_iova);
    write_u32_le(pdb, 4, spt_pde);
    assert(u32_le_at(pdb@, 0) =~= u32_le_at(mid, 0));
    assert(u32_le_at(pdb@, 0) =~= le_bytes(0));
    assert(u32_le_at(pdb@, 4) =~= le_bytes(spt_pde));
    assert(pdb@.subrange(8, pdb@.len() as int) =~= p0.subrange(8, p0.len() as int));
    let ghost s0 = spt@;
    let mut i: usize = 1;
    while i < PT_ENTRIES
        invariant
            1 <= i <= PT_ENTRIES,
            spt@.len() == s0.len(),
            PT_ENTRIES * 8 <= s0.len(),
            spt@.subrange(0, 8) == s0.subrange(0, 8),
            spt@.subrange(i * 8, spt@.len() as int) == s0.subrange(i * 8, s0.len() as int),
            forall|j: int|
                1 <= j < i ==> #[trigger] spt@.subrange(j * 8, j * 8 + 8) == pte_bytes(
                    spec_pte((j * 4096) as u64),
                ),
        decreases PT_ENTRIES - i,
    {
        let phys: u64 = (i as u64) * 4096;
        let pte = encode_kepler_pte(phys);
        let off: usize = i * 8;
        let ghost before = spt@;
        #[verifier::truncate]
        let lo: u32 = pte as u32;
        #[verifier::truncate]
        let hi: u32 = (pte >> 32u64) as u32;
        assert(hi == 0);
        write_u32_le(spt, off, lo);
        let ghost mid2 = spt@;
        write_u32_le(spt, off + 4, hi);
        proof {
            assert(spt@.subrange(0, 8) =~= before.subrange(0, 8));
            assert forall|j: int| (i + 1) * 8 <= j < spt@.len() implies #[trigger] spt@[j] == s0[j] by {
                assert(before.subrange(i * 8, before.len() as int)[j - i * 8] == s0.subrange(
                    i * 8,
                    s0.len() as int,
                )[j - i * 8]);
            }
            assert(spt@.subrange((i + 1) * 8, spt@.len() as int) =~= s0.subrange((i + 1) * 8, s0.len() as int));
            assert(spt@.subrange(off as int, off + 8) =~= pte_bytes(spec_pte((i * 4096) as u64)));
            assert forall|j: int| 1 <= j < i + 1 implies #[trigger] spt@.subrange(j * 8, j * 8 + 8)
                == pte_bytes(spec_pte((j * 4096) as u64)) by {
                if j < i {
                    assert(spt@.subrange(j * 8, j * 8 + 8) =~= before.subrange(j * 8, j * 8 + 8));
                }
            }
        }
        i = i + 1;
    }
}

} // verus!
