//! VBIOS devinit: init-script register-write extraction, BIT table and PMU
//! firmware table parsing, PMU falcon upload and devinit status.
use vstd::prelude::*;

use crate::rom::{rd08, rd16, rd32, rom_u16, rom_u32, rom_u8};

verus! {

/// Highest BAR0 register offset (exclusive) an init script may address.
pub const BAR0_WINDOW_END: u32 = 0x0100_0000;

/// A register write extracted from a VBIOS init script.
#[derive(Debug, Clone, Copy, PartialEq, Eq)]
pub struct ScriptRegWrite {
    /// Byte offset within the VBIOS ROM where this write was found.
    pub rom_offset: usize,
    /// The VBIOS init opcode (0x6E, 0x7A, 0x58, 0x77).
    pub opcode: u8,
    /// BAR0 register offset to write.
    pub reg: u32,
    /// Value to write (or OR-mask for read-modify-write).
    pub value: u32,
    /// AND-mask for NV_REG (0x6E) read-modify-write; None for direct writes.
    pub mask: Option<u32>,
}

/// Length in bytes of an opcode that the scanner steps over without
/// extracting anything; unknown opcodes advance by one byte.
pub open spec fn scan_skip_len(op: u8) -> int {
    if op == 0x71 || op == 0x72 || op == 0x63 || op == 0x8C || op == 0x8D || op == 0x8E
        || op == 0x92 || op == 0xAA {
        1
    } else if op == 0x75 || op == 0x6F || op == 0x6B || op == 0x33 {
        2
    } else if op == 0x5B || op == 0x5C || op == 0x73 || op == 0x76 || op == 0x66 || op == 0x6D
        || op == 0x65 || op == 0x57 {
        3
    } else if op == 0x56 || op == 0x74 || op == 0x69 || op == 0x9B {
        5
    } else if op == 0x5A || op == 0x90 {
        9
    } else if op == 0x78 {
        6
    } else if op == 0x79 {
        7
    } else if op == 0x97 {
        11
    } else if op == 0x5F {
        22
    } else {
        1
    }
}

/// A write is kept only if its register lies inside the BAR0 window.
pub open spec fn keep_write(w: ScriptRegWrite) -> Seq<ScriptRegWrite> {
    if w.reg < BAR0_WINDOW_END {
        seq![w]
    } else {
        Seq::empty()
    }
}

/// Number of data words of a 0x58 sequence that fit before `end`.
pub open spec fn seq_words(count: int, data: int, end: int) -> int {
    if data > end {
        0
    } else if count <= (end - data) / 4 {
        count
    } else {
        (end - data) / 4
    }
}

/// Writes of a 0x58 register sequence, from word `i` of `k`.
pub open spec fn seq_writes(rom: Seq<u8>, base: u32, k: int, i: int, data: int) -> Seq<
    ScriptRegWrite,
>
    decreases k - i,
{
    if i >= k {
        Seq::empty()
    } else {
        let reg = base + 4 * i;
        let w = ScriptRegWrite {
            rom_offset: (data + 4 * i) as usize,
            opcode: 0x58,
            reg: reg as u32,
            value: rom_u32(rom, data + 4 * i),
            mask: None,
        };
        (if reg < BAR0_WINDOW_END {
            seq![w]
        } else {
            Seq::empty()
        }) + seq_writes(rom, base, k, i + 1, data)
    }
}

/// The register writes the scanner finds from `pos` up to `end`.
pub open spec fn scan_from(rom: Seq<u8>, pos: int, end: int) -> Seq<ScriptRegWrite>
    decreases end - pos,
{
    if pos < 0 || pos >= end || end > rom.len() {
        Seq::empty()
    } else {
        let op = rom[pos];
        if op == 0x7A {
            if pos + 9 <= end {
                keep_write(
                    ScriptRegWrite {
                        rom_offset: pos as usize,
                        opcode: op,
                        reg: rom_u32(rom, pos + 1),
                        value: rom_u32(rom, pos + 5),
                        mask: None,
                    },
                ) + scan_from(rom, pos + 9, end)
            } else {
                Seq::empty()
            }
        } else if op == 0x6E {
            if pos + 13 <= end {
                keep_write(
                    ScriptRegWrite {
                        rom_offset: pos as usize,
                        opcode: op,
                        reg: rom_u32(rom, pos + 1),
                        value: rom_u32(rom, pos + 9),
                        mask: Some(rom_u32(rom, pos + 5)),
                    },
                ) + scan_from(rom, pos + 13, end)
            } else {
                Seq::empty()
            }
        } else if op == 0x58 {
            if pos + 6 <= end {
                let k = seq_words(rom[pos + 5] as int, pos + 6, end);
                seq_writes(rom, rom_u32(rom, pos + 1), k, 0, pos + 6) + scan_from(
                    rom,
                    pos + 6 + 4 * k,
                    end,
                )
            } else {
                Seq::empty()
            }
        } else if op == 0x77 {
            if pos + 7 <= end {
                keep_write(
                    ScriptRegWrite {
                        rom_offset: pos as usize,
                        opcode: op,
                        reg: rom_u32(rom, pos + 1),
                        value: rom_u16(rom, pos + 5) as u32,
                        mask: None,
                    },
                ) + scan_from(rom, pos + 7, end)
            } else {
                Seq::empty()
            }
        } else {
            if pos + scan_skip_len(op) >= end {
                Seq::empty()
            } else {
                scan_from(rom, pos + scan_skip_len(op), end)
            }
        }
    }
}

/// The ROM offsets of `ws` increase strictly and lie in `[lo, hi)`, and
/// every register lies inside the BAR0 window.
pub open spec fn writes_ordered_within(ws: Seq<ScriptRegWrite>, lo: int, hi: int) -> bool {
    &&& forall|i: int| 0 <= i < ws.len() ==> lo <= #[trigger] ws[i].rom_offset < hi
    &&& forall|i: int| 0 <= i < ws.len() ==> #[trigger] ws[i].reg < BAR0_WINDOW_END
    &&& forall|i: int, j: int| 0 <= i < j < ws.len() ==> ws[i].rom_offset < ws[j].rom_offset
}

proof fn lemma_ordered_concat(a: Seq<ScriptRegWrite>, b: Seq<ScriptRegWrite>, lo: int, mid: int, hi: int)
    requires
        lo <= mid <= hi,
        writes_ordered_within(a, lo, mid),
        writes_ordered_within(b, mid, hi),
    ensures
        writes_ordered_within(a + b, lo, hi),
{
    assert forall|i: int| 0 <= i < (a + b).len() implies lo <= #[trigger] (a + b)[i].rom_offset
        < hi && (a + b)[i].reg < BAR0_WINDOW_END by {
        if i < a.len() {
            assert((a + b)[i] == a[i]);
        } else {
            assert((a + b)[i] == b[i - a.len()]);
        }
    }
    assert forall|i: int, j: int| 0 <= i < j < (a + b).len() implies (a + b)[i].rom_offset < (
    a + b)[j].rom_offset by {
        if j < a.len() {
            assert((a + b)[i] == a[i]);
            assert((a + b)[j] == a[j]);
        } else if i < a.len() {
            assert((a + b)[i] == a[i]);
            assert((a + b)[j] == b[j - a.len()]);
        } else {
            assert((a + b)[i] == b[i - a.len()]);
            assert((a + b)[j] == b[j - a.len()]);
        }
    }
}

proof fn lemma_seq_writes_ordered(rom: Seq<u8>, base: u32, k: int, i: int, data: int)
    requires
        0 <= i,
        0 <= data,
        data + 4 * k <= usize::MAX + 1,
    ensures
        writes_ordered_within(seq_writes(rom, base, k, i, data), data + 4 * i, data + 4 * k),
    decreases k - i,
{
    if i < k {
        lemma_seq_writes_ordered(rom, base, k, i + 1, data);
        let reg = base + 4 * i;
        let w = ScriptRegWrite {
            rom_offset: (data + 4 * i) as usize,
            opcode: 0x58,
            reg: reg as u32,
            value: rom_u32(rom, data + 4 * i),
            mask: None,
        };
        let head: Seq<ScriptRegWrite> = if reg < BAR0_WINDOW_END {
            seq![w]
        } else {
            Seq::empty()
        };
        assert(writes_ordered_within(head, data + 4 * i, data + 4 * i + 4));
        lemma_ordered_concat(head, seq_writes(rom, base, k, i + 1, data), data + 4 * i, data + 4 * i + 4, data + 4 * k);
    }
}

/// The writes found by the scanner come in increasing ROM order, inside the
/// scanned range, and address only the BAR0 window.
pub proof fn lemma_scan_ordered(rom: Seq<u8>, pos: int, end: int)
    requires
        0 <= pos,
        end <= rom.len(),
        rom.len() <= usize::MAX,
    ensures
        writes_ordered_within(scan_from(rom, pos, end), pos, end),
    decreases end - pos,
{
    if pos < end {
        let op = rom[pos];
        if op == 0x7A && pos + 9 <= end {
            lemma_scan_ordered(rom, pos + 9, end);
            lemma_ordered_concat(keep_write(ScriptRegWrite {
                rom_offset: pos as usize,
                opcode: op,
                reg: rom_u32(rom, pos + 1),
                value: rom_u32(rom, pos + 5),
                mask: None,
            }), scan_from(rom, pos + 9, end), pos, pos + 9, end);
        } else if op == 0x6E && pos + 13 <= end {
            lemma_scan_ordered(rom, pos + 13, end);
            lemma_ordered_concat(keep_write(ScriptRegWrite {
                rom_offset: pos as usize,
                opcode: op,
                reg: rom_u32(rom, pos + 1),
                value: rom_u32(rom, pos + 9),
                mask: Some(rom_u32(rom, pos + 5)),
            }), scan_from(rom, pos + 13, end), pos, pos + 13, end);
        } else if op == 0x58 && pos + 6 <= end {
            let k = seq_words(rom[pos + 5] as int, pos + 6, end);
            lemma_scan_ordered(rom, pos + 6 + 4 * k, end);
            lemma_seq_writes_ordered(rom, rom_u32(rom, pos + 1), k, 0, pos + 6);
            lemma_ordered_concat(seq_writes(rom, rom_u32(rom, pos + 1), k, 0, pos + 6),
                scan_from(rom, pos + 6 + 4 * k, end), pos, pos + 6 + 4 * k, end);
        } else if op == 0x77 && pos + 7 <= end {
            lemma_scan_ordered(rom, pos + 7, end);
            lemma_ordered_concat(keep_write(ScriptRegWrite {
                rom_offset: pos as usize,
                opcode: op,
                reg: rom_u32(rom, pos + 1),
                value: rom_u16(rom, pos + 5) as u32,
                mask: None,
            }), scan_from(rom, pos + 7, end), pos, pos + 7, end);
        } else if op != 0x7A && op != 0x6E && op != 0x58 && op != 0x77 && pos + scan_skip_len(op)
            < end {
            lemma_scan_ordered(rom, pos + scan_skip_len(op), end);
        }
    }
}

/// A write found by the scanner decodes from the ROM at its offset: a
/// ZM_REG (0x7A) holds the register and value after the opcode, an NV_REG
/// (0x6E) the register, mask and value, a ZM_REG16 (0x77) the register and a
/// 16-bit value, and a write of a ZM_REG_SEQUENCE (0x58) is one data word
/// of the sequence.
pub open spec fn write_decodes(rom: Seq<u8>, w: ScriptRegWrite) -> bool {
    let o = w.rom_offset as int;
    ||| w.opcode == 0x7A && rom[o] == 0x7A && w.reg == rom_u32(rom, o + 1) && w.value == rom_u32(rom, o + 5)
        && w.mask is None
    ||| w.opcode == 0x6E && rom[o] == 0x6E && w.reg == rom_u32(rom, o + 1) && w.mask == Some(
        rom_u32(rom, o + 5),
    ) && w.value == rom_u32(rom, o + 9)
    ||| w.opcode == 0x77 && rom[o] == 0x77 && w.reg == rom_u32(rom, o + 1) && w.value == rom_u16(rom, o + 5)
        as u32 && w.mask is None
    ||| w.opcode == 0x58 && w.value == rom_u32(rom, o) && w.mask is None
}

proof fn lemma_decodes_concat(rom: Seq<u8>, a: Seq<ScriptRegWrite>, b: Seq<ScriptRegWrite>)
    requires
        forall|i: int| 0 <= i < a.len() ==> write_decodes(rom, #[trigger] a[i]),
        forall|i: int| 0 <= i < b.len() ==> write_decodes(rom, #[trigger] b[i]),
    ensures
        forall|i: int| 0 <= i < (a + b).len() ==> write_decodes(rom, #[trigger] (a + b)[i]),
{
    assert forall|i: int| 0 <= i < (a + b).len() implies write_decodes(rom, #[trigger] (a + b)[i]) by {
        if i < a.len() {
            assert((a + b)[i] == a[i]);
        } else {
            assert((a + b)[i] == b[i - a.len()]);
        }
    }
}

proof fn lemma_seq_writes_decode(rom: Seq<u8>, base: u32, k: int, i: int, data: int)
    requires
        0 <= i,
        0 <= data,
        data + 4 * k <= usize::MAX + 1,
    ensures
        forall|j: int|
            0 <= j < seq_writes(rom, base, k, i, data).len() ==> write_decodes(
                rom,
                #[trigger] seq_writes(rom, base, k, i, data)[j],
            ),
    decreases k - i,
{
    if i < k {
        lemma_seq_writes_decode(rom, base, k, i + 1, data);
        let reg = base + 4 * i;
        let w = ScriptRegWrite {
            rom_offset: (data + 4 * i) as usize,
            opcode: 0x58,
            reg: reg as u32,
            value: rom_u32(rom, data + 4 * i),
            mask: None,
        };
        let head: Seq<ScriptRegWrite> = if reg < BAR0_WINDOW_END {
            seq![w]
        } else {
            Seq::empty()
        };
        assert(forall|j: int| 0 <= j < head.len() ==> write_decodes(rom, #[trigger] head[j]));
        lemma_decodes_concat(rom, head, seq_writes(rom, base, k, i + 1, data));
    }
}

/// Every write the scanner finds decodes from the ROM at its offset (see
/// [`write_decodes`]); with [`lemma_scan_ordered`], the writes also lie in
/// the scanned range, in ROM order, inside the BAR0 window.
pub proof fn lemma_scan_decodes(rom: Seq<u8>, pos: int, end: int)
    requires
        0 <= pos,
        end <= rom.len(),
        rom.len() <= usize::MAX,
    ensures
        forall|i: int|
            0 <= i < scan_from(rom, pos, end).len() ==> write_decodes(rom, #[trigger] scan_from(rom, pos, end)[i]),
    decreases end - pos,
{
    if pos < end {
        let op = rom[pos];
        if op == 0x7A && pos + 9 <= end {
            lemma_scan_decodes(rom, pos + 9, end);
            let h = keep_write(ScriptRegWrite {
                rom_offset: pos as usize,
                opcode: op,
                reg: rom_u32(rom, pos + 1),
                value: rom_u32(rom, pos + 5),
                mask: None,
            });
            assert(forall|j: int| 0 <= j < h.len() ==> write_decodes(rom, #[trigger] h[j]));
            lemma_decodes_concat(rom, h, scan_from(rom, pos + 9, end));
            assert(scan_from(rom, pos, end) == h + scan_from(rom, pos + 9, end));
        } else if op == 0x6E && pos + 13 <= end {
            lemma_scan_decodes(rom, pos + 13, end);
            let h = keep_write(ScriptRegWrite {
                rom_offset: pos as usize,
                opcode: op,
                reg: rom_u32(rom, pos + 1),
                value: rom_u32(rom, pos + 9),
                mask: Some(rom_u32(rom, pos + 5)),
            });
            assert(forall|j: int| 0 <= j < h.len() ==> write_decodes(rom, #[trigger] h[j]));
            lemma_decodes_concat(rom, h, scan_from(rom, pos + 13, end));
            assert(scan_from(rom, pos, end) == h + scan_from(rom, pos + 13, end));
        } else if op == 0x58 && pos + 6 <= end {
            let k = seq_words(rom[pos + 5] as int, pos + 6, end);
            lemma_scan_decodes(rom, pos + 6 + 4 * k, end);
            lemma_seq_writes_decode(rom, rom_u32(rom, pos + 1), k, 0, pos + 6);
            lemma_decodes_concat(rom, seq_writes(rom, rom_u32(rom, pos + 1), k, 0, pos + 6), scan_from(
                rom,
                pos + 6 + 4 * k,
                end,
            ));
            assert(scan_from(rom, pos, end) == seq_writes(rom, rom_u32(rom, pos + 1), k, 0, pos + 6) + scan_from(
                rom,
                pos + 6 + 4 * k,
                end,
            ));
        } else if op == 0x77 && pos + 7 <= end {
            lemma_scan_decodes(rom, pos + 7, end);
            let h = keep_write(ScriptRegWrite {
                rom_offset: pos as usize,
                opcode: op,
                reg: rom_u32(rom, pos + 1),
                value: rom_u16(rom, pos + 5) as u32,
                mask: None,
            });
            assert(forall|j: int| 0 <= j < h.len() ==> write_decodes(rom, #[trigger] h[j]));
            lemma_decodes_concat(rom, h, scan_from(rom, pos + 7, end));
            assert(scan_from(rom, pos, end) == h + scan_from(rom, pos + 7, end));
        } else if op != 0x7A && op != 0x6E && op != 0x58 && op != 0x77 && pos + scan_skip_len(op)
            < end {
            lemma_scan_decodes(rom, pos + scan_skip_len(op), end);
            assert(scan_from(rom, pos, end) == scan_from(rom, pos + scan_skip_len(op), end));
        }
    }
}

/// Scanning from `pos` steps over `len` bytes there: it finds what a scan
/// from `pos + len` finds, and nothing when that lies at or past `end`.
pub open spec fn scan_steps_over(rom: Seq<u8>, pos: int, end: int, len: int) -> bool {
    &&& pos + len < end ==> scan_from(rom, pos, end) == scan_from(rom, pos + len, end)
    &&& pos + len >= end ==> scan_from(rom, pos, end) == Seq::<ScriptRegWrite>::empty()
}

/// The opcodes the scanner steps over and their lengths: one byte for
/// DONE, RESUME, 0x63, 0x8C, 0x8D, 0x8E, 0x92 and 0xAA; two for CONDITION
/// (0x75), 0x6F, 0x6B and REPEAT (0x33); three for 0x5B, 0x5C, 0x73, 0x76,
/// 0x66, 0x6D, 0x65 and 0x57; five for 0x56, TIME (0x74), 0x69 and 0x9B;
/// six for 0x78; seven for 0x79; nine for COPY (0x5A) and 0x90; eleven for
/// ZM_MASK_ADD (0x97); twenty-two for 0x5F; and one byte for any opcode
/// the scanner does not know.
pub proof fn lemma_scan_step_lengths(rom: Seq<u8>, pos: int, end: int)
    requires
        0 <= pos < end <= rom.len(),
    ensures
        ({
            let op = rom[pos];
            &&& (op == 0x71 || op == 0x72 || op == 0x63 || op == 0x8C || op == 0x8D || op == 0x8E
                || op == 0x92 || op == 0xAA) ==> scan_steps_over(rom, pos, end, 1)
            &&& (op == 0x75 || op == 0x6F || op == 0x6B || op == 0x33) ==> scan_steps_over(rom, pos, end, 2)
            &&& (op == 0x5B || op == 0x5C || op == 0x73 || op == 0x76 || op == 0x66 || op == 0x6D
                || op == 0x65 || op == 0x57) ==> scan_steps_over(rom, pos, end, 3)
            &&& (op == 0x56 || op == 0x74 || op == 0x69 || op == 0x9B) ==> scan_steps_over(rom, pos, end, 5)
            &&& op == 0x78 ==> scan_steps_over(rom, pos, end, 6)
            &&& op == 0x79 ==> scan_steps_over(rom, pos, end, 7)
            &&& (op == 0x5A || op == 0x90) ==> scan_steps_over(rom, pos, end, 9)
            &&& op == 0x97 ==> scan_steps_over(rom, pos, end, 11)
            &&& op == 0x5F ==> scan_steps_over(rom, pos, end, 22)
            &&& (op != 0x7A && op != 0x6E && op != 0x58 && op != 0x77 && op != 0x71 && op != 0x72
                && op != 0x63 && op != 0x8C && op != 0x8D && op != 0x8E && op != 0x92 && op != 0xAA
                && op != 0x75 && op != 0x6F && op != 0x6B && op != 0x33 && op != 0x5B && op != 0x5C
                && op != 0x73 && op != 0x76 && op != 0x66 && op != 0x6D && op != 0x65 && op != 0x57
                && op != 0x56 && op != 0x74 && op != 0x69 && op != 0x9B && op != 0x78 && op != 0x79
                && op != 0x5A && op != 0x90 && op != 0x97 && op != 0x5F) ==> scan_steps_over(rom, pos, end, 1)
        }),
{
}

/// The single-write opcodes and their lengths: ZM_REG (0x7A) is nine bytes
/// (register, value), NV_REG (0x6E) thirteen (register, AND mask, OR
/// value), ZM_REG16 (0x77) seven (register, 16-bit value). A whole one
/// before `end` contributes its write, when the register lies inside the
/// BAR0 window, and the scan goes on right after it; one cut off by `end`
/// ends the scan.
pub proof fn lemma_scan_write_lengths(rom: Seq<u8>, pos: int, end: int)
    requires
        0 <= pos < end <= rom.len(),
    ensures
        rom[pos] == 0x7A && pos + 9 <= end ==> scan_from(rom, pos, end) == keep_write(
            ScriptRegWrite {
                rom_offset: pos as usize,
                opcode: 0x7A,
                reg: rom_u32(rom, pos + 1),
                value: rom_u32(rom, pos + 5),
                mask: None,
            },
        ) + scan_from(rom, pos + 9, end),
        rom[pos] == 0x6E && pos + 13 <= end ==> scan_from(rom, pos, end) == keep_write(
            ScriptRegWrite {
                rom_offset: pos as usize,
                opcode: 0x6E,
                reg: rom_u32(rom, pos + 1),
                value: rom_u32(rom, pos + 9),
                mask: Some(rom_u32(rom, pos + 5)),
            },
        ) + scan_from(rom, pos + 13, end),
        rom[pos] == 0x77 && pos + 7 <= end ==> scan_from(rom, pos, end) == keep_write(
            ScriptRegWrite {
                rom_offset: pos as usize,
                opcode: 0x77,
                reg: rom_u32(rom, pos + 1),
                value: rom_u16(rom, pos + 5) as u32,
                mask: None,
            },
        ) + scan_from(rom, pos + 7, end),
        (rom[pos] == 0x7A && pos + 9 > end) || (rom[pos] == 0x6E && pos + 13 > end) || (rom[pos] == 0x77
            && pos + 7 > end) ==> scan_from(rom, pos, end) == Seq::<ScriptRegWrite>::empty(),
{
}

/// Step length of an opcode the scanner skips.
fn skip_len(op: u8) -> (r: usize)
    ensures
        r == scan_skip_len(op),
{
    match op {
        0x71 | 0x72 | 0x63 | 0x8C | 0x8D | 0x8E | 0x92 | 0xAA => 1,
        0x75 | 0x6F | 0x6B | 0x33 => 2,
        0x5B | 0x5C | 0x73 | 0x76 | 0x66 | 0x6D | 0x65 | 0x57 => 3,
        0x56 | 0x74 | 0x69 | 0x9B => 5,
        0x5A | 0x90 => 9,
        0x78 => 6,
        0x79 => 7,
        0x97 => 11,
        0x5F => 22,
        _ => 1,
    }
}

/// Scan a VBIOS ROM for register writes embedded in init scripts.
///
/// Steps through the opcode stream from `start` for `length` bytes (clipped
/// to the image), extracting the writes of the register-write opcodes
/// (0x7A ZM_REG, 0x6E NV_REG, 0x58 ZM_REG_SEQUENCE, 0x77 ZM_REG16) and
/// stepping over other opcodes by their fixed length. Writes to registers
/// outside the 16 MiB BAR0 window are dropped. Returns writes sorted by ROM
/// offset.
pub fn scan_init_script_writes(rom: &[u8], start: usize, length: usize) -> (writes: Vec<
    ScriptRegWrite,
>)
    ensures
        writes@ == scan_from(
            rom@,
            start as int,
            if start + length <= rom@.len() {
                start + length
            } else {
                rom@.len() as int
            },
        ),
        writes_ordered_within(writes@, start as int, rom@.len() as int),
{
    let end: usize = if start <= rom.len() && length <= rom.len() - start {
        start + length
    } else {
        rom.len()
    };
    let ghost total = scan_from(rom@, start as int, end as int);
    let mut writes: Vec<ScriptRegWrite> = Vec::new();
    let mut pos = start;
    proof {
        lemma_scan_ordered(rom@, start as int, end as int);
    }
    while pos < end
        invariant
            end <= rom@.len(),
            start <= pos,
            total == scan_from(rom@, start as int, end as int),
            writes@ + scan_from(rom@, pos as int, end as int) == total,
        ensures
            writes@ == total,
        decreases end - pos,
    {
        let op = rom[pos];
        if op == 0x7A {
            if end - pos >= 9 {
                let reg = rd32(rom, pos + 1);
                let val = rd32(rom, pos + 5);
                if reg < BAR0_WINDOW_END {
                    writes.push(
                        ScriptRegWrite { rom_offset: pos, opcode: op, reg, value: val, mask: None },
                    );
                }
                proof {
                    assert(writes@ + scan_from(rom@, pos + 9, end as int) =~= total);
                }
                pos = pos + 9;
            } else {
                proof {
                    assert(writes@ =~= total);
                }
                break ;
            }
        } else if op == 0x6E {
            if end - pos >= 13 {
                let reg = rd32(rom, pos + 1);
                let mask = rd32(rom, pos + 5);
                let val = rd32(rom, pos + 9);
                if reg < BAR0_WINDOW_END {
                    writes.push(
                        ScriptRegWrite {
                            rom_offset: pos,
                            opcode: op,
                            reg,
                            value: val,
                            mask: Some(mask),
                        },
                    );
                }
                proof {
                    assert(writes@ + scan_from(rom@, pos + 13, end as int) =~= total);
                }
                pos = pos + 13;
            } else {
                proof {
                    assert(writes@ =~= total);
                }
                break ;
            }
        } else if op == 0x58 {
            if end - pos >= 6 {
                let base = rd32(rom, pos + 1);
                let count = rom[pos + 5] as usize;
                let data = pos + 6;
                let ghost k = seq_words(count as int, data as int, end as int);
                pos = data;
                let mut i: usize = 0;
                while i < count
                    invariant
                        end <= rom@.len(),
                        data <= end,
                        count <= 255,
                        k == seq_words(count as int, data as int, end as int),
                        0 <= i <= k,
                        pos == data + 4 * i,
                        writes@ + seq_writes(rom@, base, k, i as int, data as int) + scan_from(
                            rom@,
                            data + 4 * k,
                            end as int,
                        ) == total,
                    ensures
                        i == k,
                        pos == data + 4 * k,
                        writes@ + scan_from(rom@, data + 4 * k, end as int) == total,
                    decreases count - i,
                {
                    if end - pos < 4 {
                        proof {
                            assert(seq_writes(rom@, base, k, i as int, data as int)
                                =~= Seq::<ScriptRegWrite>::empty());
                            assert(writes@ + seq_writes(rom@, base, k, i as int, data as int)
                                =~= writes@);
                        }
                        break ;
                    }
                    let val = rd32(rom, pos);
                    let reg64 = base as u64 + (i as u64) * 4;
                    let ghost prev = writes@;
                    if reg64 < BAR0_WINDOW_END as u64 {
                        writes.push(
                            ScriptRegWrite {
                                rom_offset: pos,
                                opcode: 0x58,
                                reg: reg64 as u32,
                                value: val,
                                mask: None,
                            },
                        );
                    }
                    proof {
                        let rest = seq_writes(rom@, base, k, i + 1, data as int);
                        assert(writes@ + rest =~= prev + seq_writes(rom@, base, k, i as int, data as int));
                    }
                    pos = pos + 4;
                    i = i + 1;
                }
                proof {
                    if i >= count {
                        assert(seq_writes(rom@, base, k, i as int, data as int)
                            =~= Seq::<ScriptRegWrite>::empty());
                    }
                }
            } else {
                proof {
                    assert(writes@ =~= total);
                }
                break ;
            }
        } else if op == 0x77 {
            if end - pos >= 7 {
                let reg = rd32(rom, pos + 1);
                let val = rd16(rom, pos + 5) as u32;
                if reg < BAR0_WINDOW_END {
                    writes.push(
                        ScriptRegWrite { rom_offset: pos, opcode: op, reg, value: val, mask: None },
                    );
                }
                proof {
                    assert(writes@ + scan_from(rom@, pos + 7, end as int) =~= total);
                }
                pos = pos + 7;
            } else {
                proof {
                    assert(writes@ =~= total);
                }
                break ;
            }
        } else {
            let step = skip_len(op);
            if end - pos < step {
                proof {
                    assert(scan_from(rom@, (pos + step) as int, end as int) =~= Seq::<ScriptRegWrite>::empty());
                    assert(writes@ =~= total);
                }
                pos = end;
            } else {
                pos = pos + step;
            }
        }
    }
    proof {
        assert(end as int == (if start + length <= rom@.len() {
            start + length
        } else {
            rom@.len() as int
        }));
    }
    writes
}


/// Why a VBIOS image could not be used.
#[derive(Debug, Clone, Copy, PartialEq, Eq, Structural)]
pub enum DevinitError {
    /// The `\xFF\xB8BIT` signature does not occur in the image.
    BitSignatureNotFound,
    /// The BIT header runs past the end of the image.
    BitHeaderTruncated,
    /// The BIT header's entry size or count is out of range.
    BitHeaderInvalid { entry_size: u8, entry_count: u8 },
    /// No BIT entry with this id.
    BitEntryNotFound { id: u8 },
    /// The BIT 'I' entry's data runs past the end of the image.
    BitIDataTooShort,
    /// The BIT 'I' entry names no boot scripts.
    NoBootScripts,
    /// The PMU table pointer in BIT 'p' runs past the end of the image.
    PmuTablePointerOutOfBounds,
    /// The PMU firmware table lies outside the image.
    PmuTableOutOfBounds { offset: usize },
    /// The PMU firmware table header is not understood.
    PmuTableFormat { version: u8, header_size: u8, entry_count: u8, entry_size: u8 },
    /// No PMU firmware of the DEVINIT type in the image.
    DevinitFirmwareNotFound,
    /// A section of the DEVINIT firmware lies outside the image.
    FirmwareOutOfRange,
    /// The BIT 'I' entry has an unexpected version or size.
    BitIUnexpected { version: u8, size: u16 },
    /// The PMU never signalled completion.
    DevinitTimeout { mbox: u32 },
    /// The init-script interpreter met more than 100 unknown opcodes.
    TooManyUnknownOpcodes { offset: usize, op: u8 },
    /// The init tables base pointer in BIT 'I' is null or out of range.
    InitTablesInvalid,
    /// The init script table pointer is null or out of range.
    ScriptTableInvalid,
    /// The PROM does not start with the 0xAA55 signature.
    PromSignatureMismatch { sig: u32 },
    /// The PROM image read is shorter than a ROM header.
    PromTooSmall { len: usize },
    /// The image is shorter than a ROM header.
    RomTooSmall { len: usize },
    /// The image does not start with the 0x55 0xAA PCI ROM signature.
    BadRomSignature { b0: u8, b1: u8 },
}

/// A one-line description of each kind of error.
pub open spec fn spec_error_text(e: DevinitError) -> &'static str {
    match e {
        DevinitError::BitSignatureNotFound => "BIT signature not found in VBIOS",
        DevinitError::BitHeaderTruncated => "BIT header truncated",
        DevinitError::BitHeaderInvalid { .. } => "BIT header invalid",
        DevinitError::BitEntryNotFound { .. } => "BIT entry not found",
        DevinitError::BitIDataTooShort => "BIT 'I' data too short",
        DevinitError::NoBootScripts => "no boot scripts in BIT 'I'",
        DevinitError::PmuTablePointerOutOfBounds => "PMU table pointer out of bounds",
        DevinitError::PmuTableOutOfBounds { .. } => "PMU table out of bounds",
        DevinitError::PmuTableFormat { .. } => "PMU table format not understood",
        DevinitError::DevinitFirmwareNotFound => "DEVINIT firmware not found in PMU table",
        DevinitError::FirmwareOutOfRange => "firmware section outside the image",
        DevinitError::BitIUnexpected { .. } => "unexpected BIT 'I' version or size",
        DevinitError::DevinitTimeout { .. } => "DEVINIT timeout",
        DevinitError::TooManyUnknownOpcodes { .. } => "too many unknown opcodes",
        DevinitError::InitTablesInvalid => "init tables pointer invalid",
        DevinitError::ScriptTableInvalid => "init script table invalid",
        DevinitError::PromSignatureMismatch { .. } => "PROM signature mismatch",
        DevinitError::PromTooSmall { .. } => "PROM image too small",
        DevinitError::RomTooSmall { .. } => "VBIOS too small",
        DevinitError::BadRomSignature { .. } => "bad VBIOS signature",
    }
}

impl DevinitError {
    /// A one-line description of the error.
    pub fn describe(&self) -> (r: &'static str)
        ensures
            r == spec_error_text(*self),
    {
        match self {
            DevinitError::BitSignatureNotFound => "BIT signature not found in VBIOS",
            DevinitError::BitHeaderTruncated => "BIT header truncated",
            DevinitError::BitHeaderInvalid { .. } => "BIT header invalid",
            DevinitError::BitEntryNotFound { .. } => "BIT entry not found",
            DevinitError::BitIDataTooShort => "BIT 'I' data too short",
            DevinitError::NoBootScripts => "no boot scripts in BIT 'I'",
            DevinitError::PmuTablePointerOutOfBounds => "PMU table pointer out of bounds",
            DevinitError::PmuTableOutOfBounds { .. } => "PMU table out of bounds",
            DevinitError::PmuTableFormat { .. } => "PMU table format not understood",
            DevinitError::DevinitFirmwareNotFound => "DEVINIT firmware not found in PMU table",
            DevinitError::FirmwareOutOfRange => "firmware section outside the image",
            DevinitError::BitIUnexpected { .. } => "unexpected BIT 'I' version or size",
            DevinitError::DevinitTimeout { .. } => "DEVINIT timeout",
            DevinitError::TooManyUnknownOpcodes { .. } => "too many unknown opcodes",
            DevinitError::InitTablesInvalid => "init tables pointer invalid",
            DevinitError::ScriptTableInvalid => "init script table invalid",
            DevinitError::PromSignatureMismatch { .. } => "PROM signature mismatch",
            DevinitError::PromTooSmall { .. } => "PROM image too small",
            DevinitError::RomTooSmall { .. } => "VBIOS too small",
            DevinitError::BadRomSignature { .. } => "bad VBIOS signature",
        }
    }
}

/// A single entry from the BIOS Information Table (BIT).
#[derive(Debug, Clone, Copy, PartialEq, Eq, Structural)]
pub struct BitEntry {
    pub id: u8,
    pub version: u8,
    pub header_len: u16,
    pub data_offset: u32,
    pub data_size: u16,
}

/// Parsed BIT header from the VBIOS.
#[derive(Debug)]
pub struct BitTable {
    pub entries: Vec<BitEntry>,
}

/// The five signature bytes `\xFF\xB8BIT` start at `i`.
pub open spec fn bit_sig_at(rom: Seq<u8>, i: int) -> bool {
    &&& 0 <= i
    &&& i + 5 <= rom.len()
    &&& rom[i] == 0xFF
    &&& rom[i + 1] == 0xB8
    &&& rom[i + 2] == 0x42
    &&& rom[i + 3] == 0x49
    &&& rom[i + 4] == 0x54
}

/// `i` is the first position of the BIT signature.
pub open spec fn first_bit_sig(rom: Seq<u8>, i: int) -> bool {
    bit_sig_at(rom, i) && forall|j: int| 0 <= j < i ==> !bit_sig_at(rom, j)
}

/// Position of the first BIT signature, if any.
pub open spec fn spec_find_bit(rom: Seq<u8>) -> Option<int> {
    if exists|i: int| first_bit_sig(rom, i) {
        Some(choose|i: int| first_bit_sig(rom, i))
    } else {
        None
    }
}

/// The six-byte BIT entry at `off`: id, version, data size, data offset.
pub open spec fn bit_entry_at(rom: Seq<u8>, off: int) -> BitEntry {
    BitEntry {
        id: rom[off],
        version: rom[off + 1],
        header_len: 0,
        data_offset: rom_u16(rom, off + 4) as u32,
        data_size: rom_u16(rom, off + 2),
    }
}

/// BIT entries from index `i` on; empty slots (id 0, offset 0) are skipped
/// and the table stops at the first entry that runs past the image.
pub open spec fn bit_entries_from(rom: Seq<u8>, start: int, size: int, count: int, i: int) -> Seq<
    BitEntry,
>
    decreases count - i,
{
    if i >= count || start + i * size + 6 > rom.len() {
        Seq::empty()
    } else {
        let e = bit_entry_at(rom, start + i * size);
        (if e.id == 0 && e.data_offset == 0 {
            Seq::empty()
        } else {
            seq![e]
        }) + bit_entries_from(rom, start, size, count, i + 1)
    }
}

/// What parsing the BIT table of `rom` yields.
#[verifier::opaque]
pub open spec fn spec_parse_bit(rom: Seq<u8>) -> Result<Seq<BitEntry>, DevinitError> {
    match spec_find_bit(rom) {
        None => Err(DevinitError::BitSignatureNotFound),
        Some(b) => if b + 12 >= rom.len() {
            Err(DevinitError::BitHeaderTruncated)
        } else if rom[b + 9] < 6 || rom[b + 9] > 16 || rom[b + 10] > 64 {
            Err(DevinitError::BitHeaderInvalid { entry_size: rom[b + 9], entry_count: rom[b + 10] })
        } else {
            Ok(bit_entries_from(rom, b + 12, rom[b + 9] as int, rom[b + 10] as int, 0))
        },
    }
}

/// First entry with this id.
pub open spec fn spec_find_entry(entries: Seq<BitEntry>, id: u8) -> Option<BitEntry> {
    if exists|i: int| 0 <= i < entries.len() && entries[i].id == id {
        Some(
            entries[choose|i: int|
                0 <= i < entries.len() && entries[i].id == id && forall|j: int|
                    0 <= j < i ==> entries[j].id != id],
        )
    } else {
        None
    }
}

pub open spec fn bit_result_view(r: Result<BitTable, DevinitError>) -> Result<
    Seq<BitEntry>,
    DevinitError,
> {
    match r {
        Ok(t) => Ok(t.entries@),
        Err(e) => Err(e),
    }
}

/// Search for the BIT signature.
fn find_bit_signature(rom: &[u8]) -> (r: Option<usize>)
    ensures
        match r {
            Some(b) => spec_find_bit(rom@) == Some(b as int),
            None => spec_find_bit(rom@) is None,
        },
{
    let mut i: usize = 0;
    while i < rom.len()
        invariant
            forall|j: int| 0 <= j < i ==> !bit_sig_at(rom@, j),
        decreases rom.len() - i,
    {
        if rom.len() - i >= 5 && rom[i] == 0xFF && rom[i + 1] == 0xB8 && rom[i + 2] == 0x42
            && rom[i + 3] == 0x49 && rom[i + 4] == 0x54 {
            proof {
                assert(first_bit_sig(rom@, i as int));
                let c = choose|k: int| first_bit_sig(rom@, k);
                assert(first_bit_sig(rom@, c));
                if c < i {
                    assert(!bit_sig_at(rom@, c));
                } else if c > i {
                    assert(!bit_sig_at(rom@, i as int));
                }
            }
            return Some(i);
        }
        i = i + 1;
    }
    proof {
        assert forall|k: int| !first_bit_sig(rom@, k) by {
            if 0 <= k < rom@.len() {
                assert(!bit_sig_at(rom@, k));
            }
        }
    }
    None
}

impl BitTable {
    /// Scan the VBIOS for the BIT table and parse its entries.
    ///
    /// The BIT signature is `\xFF\xB8BIT`; the header holds the entry size at
    /// offset 9 and the entry count at offset 10, and the entries start at
    /// offset 12. Each entry: id(1) + version(1) + data_size(u16 LE) +
    /// data_offset(u16 LE).
    pub fn parse(rom: &[u8]) -> (r: Result<BitTable, DevinitError>)
        ensures
            bit_result_view(r) == spec_parse_bit(rom@),
    {
        reveal(spec_parse_bit);
        let b = match find_bit_signature(rom) {
            Some(b) => b,
            None => {
                return Err(DevinitError::BitSignatureNotFound);
            },
        };
        if b >= rom.len() || rom.len() - b <= 12 {
            return Err(DevinitError::BitHeaderTruncated);
        }
        let entry_size = rom[b + 9];
        let entry_count = rom[b + 10];
        if entry_size < 6 || entry_size > 16 || entry_count > 64 {
            return Err(DevinitError::BitHeaderInvalid { entry_size, entry_count });
        }
        let size = entry_size as usize;
        let count = entry_count as usize;
        let start = b + 12;
        let ghost total = bit_entries_from(rom@, start as int, size as int, count as int, 0);
        let mut entries: Vec<BitEntry> = Vec::new();
        let mut i: usize = 0;
        while i < count
            invariant
                start < rom@.len(),
                6 <= size <= 16,
                count <= 64,
                i <= count,
                total == bit_entries_from(rom@, start as int, size as int, count as int, 0),
                entries@ + bit_entries_from(rom@, start as int, size as int, count as int, i as int)
                    == total,
            ensures
                entries@ == total,
            decreases count - i,
        {
            assert(i * size <= 1024) by (nonlinear_arith)
                requires
                    i <= 64,
                    size <= 16,
            ;
            let rel = i * size;
            if rel > rom.len() - start || rom.len() - start - rel < 6 {
                proof {
                    assert(entries@ =~= total);
                }
                break ;
            }
            let off = start + rel;
            let id = rom[off];
            let version = rom[off + 1];
            let data_size = rd16(rom, off + 2);
            let data_offset = rd16(rom, off + 4) as u32;
            let ghost prev = entries@;
            if !(id == 0 && data_offset == 0) {
                entries.push(BitEntry { id, version, header_len: 0, data_offset, data_size });
            }
            proof {
                assert(entries@ + bit_entries_from(rom@, start as int, size as int, count as int, i + 1)
                    =~= prev + bit_entries_from(rom@, start as int, size as int, count as int, i as int));
            }
            i = i + 1;
        }
        Ok(BitTable { entries })
    }

    /// Find an entry by its single-character ID (e.g., 'I' for init data).
    pub fn find(&self, id: u8) -> (r: Option<&BitEntry>)
        ensures
            match r {
                Some(e) => spec_find_entry(self.entries@, id) == Some(*e),
                None => spec_find_entry(self.entries@, id) is None,
            },
    {
        let mut i: usize = 0;
        while i < self.entries.len()
            invariant
                forall|j: int| 0 <= j < i ==> self.entries@[j].id != id,
            decreases self.entries.len() - i,
        {
            if self.entries[i].id == id {
                proof {
                    let c = choose|k: int|
                        0 <= k < self.entries@.len() && self.entries@[k].id == id && forall|j: int|
                            0 <= j < k ==> self.entries@[j].id != id;
                    assert(0 <= i < self.entries@.len() && self.entries@[i as int].id == id);
                    if c < i {
                    } else if c > i {
                        assert(self.entries@[i as int].id != id);
                    }
                }
                return Some(&self.entries[i]);
            }
            i = i + 1;
        }
        None
    }
}


/// What `extract_boot_script_writes` yields for `rom`.
pub open spec fn spec_extract_boot_script_writes(rom: Seq<u8>) -> Result<
    Seq<ScriptRegWrite>,
    DevinitError,
> {
    match spec_parse_bit(rom) {
        Err(e) => Err(e),
        Ok(entries) => match spec_find_entry(entries, 0x49) {
            None => Err(DevinitError::BitEntryNotFound { id: 0x49 }),
            Some(ei) => {
                let i_off = ei.data_offset as int;
                if i_off + 0x1c > rom.len() {
                    Err(DevinitError::BitIDataTooShort)
                } else {
                    let script_off = rom_u16(rom, i_off + 0x18) as int;
                    let script_len = rom_u16(rom, i_off + 0x1a) as int;
                    if script_off == 0 || script_len == 0 {
                        Err(DevinitError::NoBootScripts)
                    } else {
                        Ok(
                            scan_from(
                                rom,
                                script_off,
                                if script_off + script_len <= rom.len() {
                                    script_off + script_len
                                } else {
                                    rom.len() as int
                                },
                            ),
                        )
                    }
                }
            },
        },
    }
}

pub open spec fn writes_result_view(r: Result<Vec<ScriptRegWrite>, DevinitError>) -> Result<
    Seq<ScriptRegWrite>,
    DevinitError,
> {
    match r {
        Ok(v) => Ok(v@),
        Err(e) => Err(e),
    }
}

/// Extract all register writes from the VBIOS boot script region.
///
/// The BIT 'I' entry holds the boot script offset (u16 at +0x18) and size
/// (u16 at +0x1a); the region is then scanned for register writes.
pub fn extract_boot_script_writes(rom: &[u8]) -> (r: Result<Vec<ScriptRegWrite>, DevinitError>)
    ensures
        writes_result_view(r) == spec_extract_boot_script_writes(rom@),
{
    let bit = BitTable::parse(rom)?;
    let bit_i = match bit.find(0x49) {
        Some(e) => e,
        None => {
            return Err(DevinitError::BitEntryNotFound { id: 0x49 });
        },
    };
    let i_off = bit_i.data_offset as usize;
    if i_off > rom.len() || rom.len() - i_off < 0x1c {
        return Err(DevinitError::BitIDataTooShort);
    }
    let script_off = rd16(rom, i_off + 0x18) as usize;
    let script_len = rd16(rom, i_off + 0x1a) as usize;
    if script_off == 0 || script_len == 0 {
        return Err(DevinitError::NoBootScripts);
    }
    Ok(scan_init_script_writes(rom, script_off, script_len))
}

/// Number of RAM-restrict groups that the BIT 'M' entry announces
/// (byte +2 of its data, when in 1..=16); 4 otherwise.
pub open spec fn spec_ram_restrict_group_count(rom: Seq<u8>) -> int {
    match spec_parse_bit(rom) {
        Ok(entries) => match spec_find_entry(entries, 0x4D) {
            Some(m) => {
                let m_off = m.data_offset as int;
                if m_off + 3 <= rom.len() && 1 <= rom[m_off + 2] <= 16 {
                    rom[m_off + 2] as int
                } else {
                    4
                }
            },
            None => 4,
        },
        Err(_) => 4,
    }
}

/// Number of RAM-restrict groups from VBIOS strap info.
pub fn ram_restrict_group_count(rom: &[u8]) -> (r: usize)
    ensures
        r == spec_ram_restrict_group_count(rom@),
        1 <= r <= 16,
{
    if let Ok(bit) = BitTable::parse(rom) {
        if let Some(m) = bit.find(0x4D) {
            let m_off = m.data_offset as usize;
            if m_off <= rom.len() && rom.len() - m_off >= 3 {
                let count = rom[m_off + 2] as usize;
                if count > 0 && count <= 16 {
                    return count;
                }
            }
        }
    }
    4
}

/// Base of the VBIOS "init tables": the u16 at offset 0 of the BIT 'I'
/// entry's data, or 0 when there is none.
pub open spec fn spec_init_tables_base(rom: Seq<u8>) -> int {
    match spec_parse_bit(rom) {
        Ok(entries) => match spec_find_entry(entries, 0x49) {
            Some(ei) => if ei.data_offset as int + 2 <= rom.len() {
                rom_u16(rom, ei.data_offset as int) as int
            } else {
                0
            },
            None => 0,
        },
        Err(_) => 0,
    }
}

/// Resolve the "init tables" base pointer from BIT 'I' offset 0x00.
pub fn find_init_tables_base(rom: &[u8]) -> (r: usize)
    ensures
        r == spec_init_tables_base(rom@),
{
    if let Ok(bit) = BitTable::parse(rom) {
        if let Some(i_entry) = bit.find(0x49) {
            let i_off = i_entry.data_offset as usize;
            if i_off <= rom.len() && rom.len() - i_off >= 2 {
                return rd16(rom, i_off) as usize;
            }
        }
    }
    0
}

/// Offset of the condition table: the u16 at init-tables base + 6, or 0.
pub open spec fn spec_condition_table(rom: Seq<u8>) -> int {
    let base = spec_init_tables_base(rom);
    if base == 0 || base + 8 > rom.len() {
        0
    } else {
        rom_u16(rom, base + 6) as int
    }
}

/// Find the condition table offset from the init tables base.
pub fn find_condition_table(rom: &[u8]) -> (r: usize)
    ensures
        r == spec_condition_table(rom@),
{
    let base = find_init_tables_base(rom);
    if base == 0 || base > rom.len() || rom.len() - base < 8 {
        return 0;
    }
    rd16(rom, base + 6) as usize
}

/// What `validate_vbios` accepts: at least 512 bytes starting 0x55 0xAA.
pub open spec fn spec_validate_vbios(data: Seq<u8>) -> Result<Seq<u8>, DevinitError> {
    if data.len() < 512 {
        Err(DevinitError::RomTooSmall { len: data.len() as usize })
    } else if data[0] != 0x55 || data[1] != 0xAA {
        Err(DevinitError::BadRomSignature { b0: data[0], b1: data[1] })
    } else {
        Ok(data)
    }
}

pub open spec fn bytes_result_view(r: Result<Vec<u8>, DevinitError>) -> Result<Seq<u8>, DevinitError> {
    match r {
        Ok(v) => Ok(v@),
        Err(e) => Err(e),
    }
}

/// Check that a ROM image is at least 512 bytes and carries the PCI ROM
/// signature, and copy it.
pub fn validate_vbios(data: &[u8]) -> (r: Result<Vec<u8>, DevinitError>)
    ensures
        bytes_result_view(r) == spec_validate_vbios(data@),
{
    if data.len() < 512 {
        return Err(DevinitError::RomTooSmall { len: data.len() });
    }
    if data[0] != 0x55 || data[1] != 0xAA {
        return Err(DevinitError::BadRomSignature { b0: data[0], b1: data[1] });
    }
    Ok(vstd::slice::slice_to_vec(data))
}


/// A PMU firmware entry extracted from the VBIOS.
#[derive(Debug, Clone, Copy, PartialEq, Eq, Structural)]
pub struct PmuFirmware {
    pub app_type: u8,
    pub boot_addr_pmu: u32,
    pub boot_addr: u32,
    pub boot_size: u32,
    pub code_addr_pmu: u32,
    pub code_addr: u32,
    pub code_size: u32,
    pub data_addr_pmu: u32,
    pub data_addr: u32,
    pub data_size: u32,
    pub init_addr_pmu: u32,
    pub args_addr_pmu: u32,
}

/// Little-endian 32-bit word from bytes that may run past the image (those
/// read as zero).
pub open spec fn rom_u32_padded(rom: Seq<u8>, off: int) -> u32 {
    (rom_u8(rom, off) + 256 * rom_u8(rom, off + 1) + 65536 * rom_u8(rom, off + 2) + 16777216
        * rom_u8(rom, off + 3)) as u32
}

/// Firmware whose offsets are stored inline in a (long) table entry at `o`.
pub open spec fn pmu_fw_inline(rom: Seq<u8>, o: int, app_type: u8, entry_size: int) -> PmuFirmware {
    PmuFirmware {
        app_type,
        boot_addr_pmu: rom_u32(rom, o + 2),
        boot_addr: rom_u32(rom, o + 6),
        boot_size: rom_u32(rom, o + 10),
        code_addr_pmu: rom_u32(rom, o + 14),
        code_addr: rom_u32(rom, o + 18),
        code_size: rom_u32(rom, o + 22),
        data_addr_pmu: rom_u32(rom, o + 26),
        data_addr: rom_u32(rom, o + 30),
        data_size: rom_u32(rom, o + 34),
        init_addr_pmu: rom_u32(rom, o + 38),
        args_addr_pmu: if entry_size >= 46 {
            rom_u32(rom, o + 42)
        } else {
            0
        },
    }
}

/// Firmware described by the descriptor structure at `d`.
pub open spec fn pmu_fw_desc(rom: Seq<u8>, d: int, app_type: u8) -> PmuFirmware {
    PmuFirmware {
        app_type,
        boot_addr_pmu: rom_u32(rom, d + 4),
        boot_addr: rom_u32(rom, d + 8),
        boot_size: rom_u16(rom, d + 12) as u32,
        code_addr_pmu: rom_u32(rom, d + 14),
        code_addr: rom_u32(rom, d + 18),
        code_size: rom_u16(rom, d + 22) as u32,
        data_addr_pmu: rom_u32(rom, d + 24),
        data_addr: rom_u32(rom, d + 28),
        data_size: rom_u16(rom, d + 32) as u32,
        init_addr_pmu: rom_u32(rom, d + 34),
        args_addr_pmu: rom_u32(rom, d + 38),
    }
}

/// Firmware entries from table entry `i` on. An entry whose descriptor
/// pointer is null or runs past the image is skipped; the table stops at
/// the first entry that does not fit in the image.
pub open spec fn pmu_entries_from(rom: Seq<u8>, start: int, size: int, count: int, i: int) -> Seq<
    PmuFirmware,
>
    decreases count - i,
{
    if i >= count || start + i * size + size > rom.len() {
        Seq::empty()
    } else {
        let o = start + i * size;
        let desc = rom_u32(rom, o + 4) as int;
        (if desc == 0 || desc + 40 > rom.len() {
            Seq::empty()
        } else if size >= 42 {
            seq![pmu_fw_inline(rom, o, rom[o], size)]
        } else {
            seq![pmu_fw_desc(rom, desc, rom[o])]
        }) + pmu_entries_from(rom, start, size, count, i + 1)
    }
}

/// What `parse_pmu_table` yields for `rom` and the BIT entries.
#[verifier::opaque]
pub open spec fn spec_parse_pmu_table(rom: Seq<u8>, entries: Seq<BitEntry>) -> Result<
    Seq<PmuFirmware>,
    DevinitError,
> {
    match spec_find_entry(entries, 0x70) {
        None => Err(DevinitError::BitEntryNotFound { id: 0x70 }),
        Some(p) => {
            let t = p.data_offset as int;
            if t + 2 > rom.len() {
                Err(DevinitError::PmuTablePointerOutOfBounds)
            } else {
                let table = if p.data_size >= 4 {
                    rom_u32_padded(rom, t) as int
                } else {
                    rom_u16(rom, t) as int
                };
                if table == 0 || table + 4 > rom.len() {
                    Err(DevinitError::PmuTableOutOfBounds { offset: table as usize })
                } else if rom[table] == 0 || rom[table + 3] < 10 {
                    Err(
                        DevinitError::PmuTableFormat {
                            version: rom[table],
                            header_size: rom[table + 1],
                            entry_count: rom[table + 2],
                            entry_size: rom[table + 3],
                        },
                    )
                } else {
                    Ok(
                        pmu_entries_from(
                            rom,
                            table + rom[table + 1],
                            rom[table + 3] as int,
                            rom[table + 2] as int,
                            0,
                        ),
                    )
                }
            }
        },
    }
}

pub open spec fn pmu_result_view(r: Result<Vec<PmuFirmware>, DevinitError>) -> Result<
    Seq<PmuFirmware>,
    DevinitError,
> {
    match r {
        Ok(v) => Ok(v@),
        Err(e) => Err(e),
    }
}

/// Parse PMU firmware entries from the BIT 'p' (PMU) table.
///
/// Header: version(1) + header_size(1) + entry_count(1) + entry_size(1).
/// Each entry starts with its type; entries of at least 42 bytes carry the
/// section offsets inline, shorter ones point (u32 at +4) to a descriptor.
pub fn parse_pmu_table(rom: &[u8], bit: &BitTable) -> (r: Result<Vec<PmuFirmware>, DevinitError>)
    ensures
        pmu_result_view(r) == spec_parse_pmu_table(rom@, bit.entries@),
{
    reveal(spec_parse_pmu_table);
    let p_entry = match bit.find(0x70) {
        Some(e) => e,
        None => {
            return Err(DevinitError::BitEntryNotFound { id: 0x70 });
        },
    };
    let t = p_entry.data_offset as usize;
    if t > rom.len() || rom.len() - t < 2 {
        return Err(DevinitError::PmuTablePointerOutOfBounds);
    }
    let table: usize = if p_entry.data_size >= 4 {
        let b0 = rom[t] as u32;
        let b1 = rom[t + 1] as u32;
        let b2 = rd08(rom, t + 2) as u32;
        let b3: u32 = if rom.len() - t > 3 {
            rom[t + 3] as u32
        } else {
            0
        };
        (b0 + 256 * b1 + 65536 * b2 + 16777216 * b3) as usize
    } else {
        rd16(rom, t) as usize
    };
    if table == 0 || table > rom.len() || rom.len() - table < 4 {
        return Err(DevinitError::PmuTableOutOfBounds { offset: table });
    }
    let version = rom[table];
    let header_size = rom[table + 1];
    let entry_count = rom[table + 2];
    let entry_size = rom[table + 3];
    if version == 0 || entry_size < 10 {
        return Err(DevinitError::PmuTableFormat { version, header_size, entry_count, entry_size });
    }
    let size = entry_size as usize;
    let count = entry_count as usize;
    if header_size as usize > rom.len() - table {
        proof {
            let st = table + header_size;
            if count > 0 {
                assert(st + 0 * size + size > rom@.len());
            }
            assert(pmu_entries_from(rom@, st, size as int, count as int, 0) =~= Seq::<PmuFirmware>::empty());
        }
        return Ok(Vec::new());
    }
    let start = table + header_size as usize;
    let ghost total = pmu_entries_from(rom@, start as int, size as int, count as int, 0);
    let mut firmwares: Vec<PmuFirmware> = Vec::new();
    let mut i: usize = 0;
    while i < count
        invariant
            start <= rom@.len(),
            10 <= size <= 255,
            count <= 255,
            i <= count,
            total == pmu_entries_from(rom@, start as int, size as int, count as int, 0),
            firmwares@ + pmu_entries_from(rom@, start as int, size as int, count as int, i as int)
                == total,
        ensures
            firmwares@ == total,
        decreases count - i,
    {
        assert(i * size <= 255 * 255) by (nonlinear_arith)
            requires
                i <= 255,
                size <= 255,
        ;
        let rel = i * size;
        if rel > rom.len() - start || rom.len() - start - rel < size {
            proof {
                assert(firmwares@ =~= total);
            }
            break ;
        }
        let o = start + rel;
        let app_type = rom[o];
        let desc_ptr = rd32(rom, o + 4) as usize;
        let ghost prev = firmwares@;
        if desc_ptr == 0 || desc_ptr > rom.len() || rom.len() - desc_ptr < 40 {
        } else if size >= 42 {
            firmwares.push(
                PmuFirmware {
                    app_type,
                    boot_addr_pmu: rd32(rom, o + 2),
                    boot_addr: rd32(rom, o + 6),
                    boot_size: rd32(rom, o + 10),
                    code_addr_pmu: rd32(rom, o + 14),
                    code_addr: rd32(rom, o + 18),
                    code_size: rd32(rom, o + 22),
                    data_addr_pmu: rd32(rom, o + 26),
                    data_addr: rd32(rom, o + 30),
                    data_size: rd32(rom, o + 34),
                    init_addr_pmu: rd32(rom, o + 38),
                    args_addr_pmu: if size >= 46 {
                        rd32(rom, o + 42)
                    } else {
                        0
                    },
                },
            );
        } else {
            let d = desc_ptr;
            firmwares.push(
                PmuFirmware {
                    app_type,
                    boot_addr_pmu: rd32(rom, d + 4),
                    boot_addr: rd32(rom, d + 8),
                    boot_size: rd16(rom, d + 12) as u32,
                    code_addr_pmu: rd32(rom, d + 14),
                    code_addr: rd32(rom, d + 18),
                    code_size: rd16(rom, d + 22) as u32,
                    data_addr_pmu: rd32(rom, d + 24),
                    data_addr: rd32(rom, d + 28),
                    data_size: rd16(rom, d + 32) as u32,
                    init_addr_pmu: rd32(rom, d + 34),
                    args_addr_pmu: rd32(rom, d + 38),
                },
            );
        }
        proof {
            assert(firmwares@ + pmu_entries_from(rom@, start as int, size as int, count as int, i + 1)
                =~= prev + pmu_entries_from(rom@, start as int, size as int, count as int, i as int));
        }
        i = i + 1;
    }
    Ok(firmwares)
}

} // verus!
