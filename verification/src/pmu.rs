//! PMU FALCON access over BAR0: code and data upload, argument reads,
//! execution start, devinit status and the PROM VBIOS reader.
use vstd::prelude::*;

use crate::bus::{lemma_prefix_append, lemma_prefix_push, lemma_prefix_trans, Bar0, BusEvent, RegisterBus};
use crate::devinit::{
    parse_pmu_table, rom_u32_padded, spec_find_entry, spec_parse_bit, spec_parse_pmu_table, BitTable,
    DevinitError, PmuFirmware,
};
use crate::rom::rom_u8;
use crate::rom::rd08;

verus! {

/// PMU FALCON CPU control (start/halt).
pub const FALCON_CTRL: usize = 0x0010_A100;
/// PMU FALCON program counter / boot vector.
pub const FALCON_PC: usize = 0x0010_A104;
/// PMU FALCON execution trigger.
pub const FALCON_TRIG: usize = 0x0010_A10C;
/// PMU mailbox 0 (completion signal).
pub const FALCON_MBOX0: usize = 0x0010_A040;
/// PMU mailbox 1.
pub const FALCON_MBOX1: usize = 0x0010_A044;
/// IMEM access port (upload address select).
pub const IMEM_PORT: usize = 0x0010_A180;
/// IMEM data.
pub const IMEM_DATA: usize = 0x0010_A184;
/// IMEM block tag.
pub const IMEM_TAG: usize = 0x0010_A188;
/// DMEM access port.
pub const DMEM_PORT: usize = 0x0010_A1C0;
/// DMEM data.
pub const DMEM_DATA: usize = 0x0010_A1C4;
/// GF100+ devinit status: bit 1 set once devinit has run.
pub const DEVINIT_STATUS: usize = 0x0002_240C;
/// PMU FALCON hardware configuration.
pub const FALCON_HWCFG: usize = 0x0010_A108;
/// PMU FALCON CPU control (same register as `FALCON_CTRL`).
pub const FALCON_CPUCTL: usize = 0x0010_A100;
/// PMU engine ID.
pub const FALCON_ID: usize = 0x0010_A12C;

/// Number of 32-bit words that hold `size` bytes.
pub open spec fn n_words(size: int) -> int {
    (size + 3) / 4
}

/// Word `j` of `data`, little-endian, zero-padded past the end.
pub open spec fn le_word(data: Seq<u8>, j: int) -> u32 {
    rom_u32_padded(data, 4 * j)
}

/// The DMEM_DATA writes that upload `data`.
pub open spec fn dmem_data_events(data: Seq<u8>) -> Seq<BusEvent> {
    Seq::new(
        n_words(data.len() as int) as nat,
        |j: int| BusEvent::Write { reg: DMEM_DATA, val: le_word(data, j) },
    )
}

/// Address select written to a FALCON memory port.
pub open spec fn port_select(pmu_addr: u32, secure: bool) -> u32 {
    0x0100_0000u32 | (if secure {
        0x1000_0000u32
    } else {
        0u32
    }) | pmu_addr
}

/// IMEM block tag of byte `off` of an upload at `pmu_addr` (the 32-bit
/// address, wrapping, shifted right by 8).
pub open spec fn imem_tag(pmu_addr: u32, off: int) -> u32 {
    (((pmu_addr + off) % 0x1_0000_0000) / 256) as u32
}

/// The IMEM writes for words `j..n` of `data`: each 256-byte block starts
/// with its tag, then each word goes to IMEM_DATA.
pub open spec fn imem_word_events(pmu_addr: u32, data: Seq<u8>, j: int, n: int) -> Seq<BusEvent>
    decreases n - j,
{
    if j >= n {
        Seq::empty()
    } else {
        (if (4 * j) % 256 == 0 {
            seq![BusEvent::Write { reg: IMEM_TAG, val: imem_tag(pmu_addr, 4 * j) }]
        } else {
            Seq::empty()
        }) + seq![BusEvent::Write { reg: IMEM_DATA, val: le_word(data, j) }]
            + imem_word_events(pmu_addr, data, j + 1, n)
    }
}

/// Zero words that pad an upload of `size` bytes to a 256-byte boundary.
pub open spec fn imem_pad_words(size: int) -> int {
    let rem = (n_words(size) * 4) % 256;
    if rem != 0 {
        (256 - rem) / 4
    } else {
        0
    }
}

/// The bus events of a PMU code upload.
pub open spec fn imem_upload_events(pmu_addr: u32, data: Seq<u8>, secure: bool) -> Seq<BusEvent> {
    seq![BusEvent::Write { reg: IMEM_PORT, val: port_select(pmu_addr, secure) }] + imem_word_events(
        pmu_addr,
        data,
        0,
        n_words(data.len() as int),
    ) + Seq::new(
        imem_pad_words(data.len() as int) as nat,
        |k: int| BusEvent::Write { reg: IMEM_DATA, val: 0 },
    )
}

/// Word `j` of `rom[lo..hi]`, zero-padded.
fn slice_word(rom: &[u8], lo: usize, hi: usize, j: usize) -> (w: u32)
    requires
        lo <= hi <= rom@.len(),
        4 * j < hi - lo,
    ensures
        w == le_word(rom@.subrange(lo as int, hi as int), j as int),
{
    let base = lo + 4 * j;
    let b0 = rom[base] as u32;
    let b1: u32 = if hi - base > 1 {
        rom[base + 1] as u32
    } else {
        0
    };
    let b2: u32 = if hi - base > 2 {
        rom[base + 2] as u32
    } else {
        0
    };
    let b3: u32 = if hi - base > 3 {
        rom[base + 3] as u32
    } else {
        0
    };
    b0 + 256 * b1 + 65536 * b2 + 16777216 * b3
}

/// Upload data to PMU FALCON DMEM: select `pmu_addr` on DMEM_PORT, then
/// write `rom[rom_offset..rom_offset + size]` word by word to DMEM_DATA,
/// the last word zero-padded.
pub fn pmu_upload_data<B: RegisterBus>(bar0: &mut Bar0<B>, rom: &[u8], pmu_addr: u32, rom_offset: u32, size: u32)
    requires
        rom_offset + size <= rom.len(),
    ensures
        final(bar0).events() == old(bar0).events() + seq![
            BusEvent::Write { reg: DMEM_PORT, val: 0x0100_0000u32 | pmu_addr },
        ] + dmem_data_events(rom@.subrange(rom_offset as int, rom_offset + size)),
{
    let ghost e0 = bar0.events();
    let _ = bar0.write(DMEM_PORT, 0x0100_0000 | pmu_addr);
    let lo = rom_offset as usize;
    let hi = lo + size as usize;
    let ghost data = rom@.subrange(lo as int, hi as int);
    let n: usize = size as usize / 4 + if size % 4 != 0 {
        1
    } else {
        0
    };
    let mut j: usize = 0;
    while j < n
        invariant
            lo <= hi <= rom@.len(),
            hi - lo == size,
            n == n_words(size as int),
            data == rom@.subrange(lo as int, hi as int),
            j <= n,
            bar0.events() == e0 + seq![
                BusEvent::Write { reg: DMEM_PORT, val: 0x0100_0000u32 | pmu_addr },
            ] + dmem_data_events(data).subrange(0, j as int),
        decreases n - j,
    {
        let w = slice_word(rom, lo, hi, j);
        let _ = bar0.write(DMEM_DATA, w);
        proof {
            assert(dmem_data_events(data).subrange(0, j + 1) =~= dmem_data_events(data).subrange(
                0,
                j as int,
            ).push(BusEvent::Write { reg: DMEM_DATA, val: w }));
        }
        j = j + 1;
    }
    proof {
        assert(dmem_data_events(data).subrange(0, n as int) =~= dmem_data_events(data));
    }
}


proof fn lemma_imem_word_events_push(pmu_addr: u32, data: Seq<u8>, j: int, n: int)
    requires
        0 <= j < n,
    ensures
        imem_word_events(pmu_addr, data, 0, n) == imem_word_events(pmu_addr, data, 0, j) + (if (4
            * j) % 256 == 0 {
            seq![BusEvent::Write { reg: IMEM_TAG, val: imem_tag(pmu_addr, 4 * j) }]
        } else {
            Seq::empty()
        }) + seq![BusEvent::Write { reg: IMEM_DATA, val: le_word(data, j) }]
            + imem_word_events(pmu_addr, data, j + 1, n),
{
    lemma_imem_split(pmu_addr, data, 0, j, n);
    lemma_imem_split(pmu_addr, data, j, j + 1, n);
    lemma_imem_split(pmu_addr, data, 0, j, j + 1);
    assert(imem_word_events(pmu_addr, data, j + 1, j + 1) =~= Seq::<BusEvent>::empty());
}

proof fn lemma_imem_split(pmu_addr: u32, data: Seq<u8>, a: int, b: int, c: int)
    requires
        0 <= a <= b <= c,
    ensures
        imem_word_events(pmu_addr, data, a, c) == imem_word_events(pmu_addr, data, a, b)
            + imem_word_events(pmu_addr, data, b, c),
    decreases b - a,
{
    if a == b {
        assert(imem_word_events(pmu_addr, data, a, b) =~= Seq::<BusEvent>::empty());
        assert(imem_word_events(pmu_addr, data, a, c) =~= Seq::<BusEvent>::empty()
            + imem_word_events(pmu_addr, data, b, c));
    } else {
        lemma_imem_split(pmu_addr, data, a + 1, b, c);
        let head = (if (4 * a) % 256 == 0 {
            seq![BusEvent::Write { reg: IMEM_TAG, val: imem_tag(pmu_addr, 4 * a) }]
        } else {
            Seq::empty()
        }) + seq![BusEvent::Write { reg: IMEM_DATA, val: le_word(data, a) }];
        assert(imem_word_events(pmu_addr, data, a, c) =~= head + imem_word_events(pmu_addr, data, a + 1, c));
        assert(imem_word_events(pmu_addr, data, a, b) =~= head + imem_word_events(pmu_addr, data, a + 1, b));
    }
}

/// Upload code to PMU FALCON IMEM: select `pmu_addr` (with the secure flag
/// when asked) on IMEM_PORT; for each word of `rom[rom_offset..rom_offset +
/// size]`, write the block tag to IMEM_TAG at each 256-byte boundary, then
/// the word (zero-padded) to IMEM_DATA; finally pad the last 256-byte block
/// with zero words.
#[verifier::spinoff_prover]
pub fn pmu_upload_code<B: RegisterBus>(
    bar0: &mut Bar0<B>,
    rom: &[u8],
    pmu_addr: u32,
    rom_offset: u32,
    size: u32,
    secure: bool,
)
    requires
        rom_offset + size <= rom.len(),
    ensures
        final(bar0).events() == old(bar0).events() + imem_upload_events(
            pmu_addr,
            rom@.subrange(rom_offset as int, rom_offset + size),
            secure,
        ),
{
    let ghost e0 = bar0.events();
    let sec_flag: u32 = if secure {
        0x1000_0000
    } else {
        0
    };
    let _ = bar0.write(IMEM_PORT, 0x0100_0000 | sec_flag | pmu_addr);
    let lo = rom_offset as usize;
    let hi = lo + size as usize;
    let ghost data = rom@.subrange(lo as int, hi as int);
    let ghost head = seq![BusEvent::Write { reg: IMEM_PORT, val: port_select(pmu_addr, secure) }];
    let n: usize = size as usize / 4 + if size % 4 != 0 {
        1
    } else {
        0
    };
    let mut j: usize = 0;
    while j < n
        invariant
            lo <= hi <= rom@.len(),
            hi - lo == size,
            n == n_words(size as int),
            data == rom@.subrange(lo as int, hi as int),
            j <= n,
            bar0.events() == e0 + head + imem_word_events(pmu_addr, data, 0, j as int),
        decreases n - j,
    {
        let byte_offset = (j * 4) as u32;
        let ghost before = bar0.events();
        proof {
            lemma_imem_word_events_push(pmu_addr, data, j as int, j + 1);
            lemma_imem_split(pmu_addr, data, 0, j as int, j + 1);
        }
        if j % 64 == 0 {
            let sum = (pmu_addr as u64 + byte_offset as u64) % 0x1_0000_0000;
            let _ = bar0.write(IMEM_TAG, (sum / 256) as u32);
        }
        let w = slice_word(rom, lo, hi, j);
        let _ = bar0.write(IMEM_DATA, w);
        proof {
            assert(imem_word_events(pmu_addr, data, j + 1, j + 1) =~= Seq::<BusEvent>::empty());
            assert(imem_word_events(pmu_addr, data, 0, j + 1) == imem_word_events(pmu_addr, data, 0, j as int) + (if (4 * j) % 256 == 0 {
                seq![BusEvent::Write { reg: IMEM_TAG, val: imem_tag(pmu_addr, 4 * j) }]
            } else {
                Seq::empty()
            }) + seq![BusEvent::Write { reg: IMEM_DATA, val: le_word(data, j as int) }]);
            assert(bar0.events() =~= e0 + head + imem_word_events(pmu_addr, data, 0, j + 1));
        }
        j = j + 1;
    }
    let rem = (n % 64) * 4;
    assert(rem == (n * 4) % 256) by (nonlinear_arith)
        requires
            rem == (n % 64) * 4,
    ;
    let ghost body = e0 + head + imem_word_events(pmu_addr, data, 0, n as int);
    if rem != 0 {
        let pad = (256 - rem) / 4;
        let mut k: usize = 0;
        while k < pad
            invariant
                k <= pad,
                bar0.events() == body + Seq::new(
                    k as nat,
                    |i: int| BusEvent::Write { reg: IMEM_DATA, val: 0 },
                ),
            decreases pad - k,
        {
            let _ = bar0.write(IMEM_DATA, 0);
            proof {
                assert(Seq::new((k + 1) as nat, |i: int| BusEvent::Write { reg: IMEM_DATA, val: 0 })
                    =~= Seq::new(k as nat, |i: int| BusEvent::Write { reg: IMEM_DATA, val: 0 }).push(
                    BusEvent::Write { reg: IMEM_DATA, val: 0 },
                ));
            }
            k = k + 1;
        }
        proof {
            assert(bar0.events() =~= e0 + imem_upload_events(pmu_addr, data, secure));
        }
    } else {
        proof {
            assert(bar0.events() =~= e0 + imem_upload_events(pmu_addr, data, secure));
        }
    }
}

/// Read a DMEM argument: select `argp` on DMEM_PORT, read the pointer it
/// holds, select that pointer plus `argi`, and read the value there. Failed
/// reads count as 0.
pub fn pmu_read_args<B: RegisterBus>(bar0: &mut Bar0<B>, argp: u32, argi: u32) -> (r: u32)
    ensures
        final(bar0).events().len() == old(bar0).events().len() + 4,
        final(bar0).events()[old(bar0).events().len() as int] == (BusEvent::Write {
            reg: DMEM_PORT,
            val: argp,
        }),
        final(bar0).events()[old(bar0).events().len() as int + 1] matches BusEvent::Read { reg, result }
            && reg == DMEM_DATA && final(bar0).events()[old(bar0).events().len() as int + 2] == (
        BusEvent::Write {
            reg: DMEM_PORT,
            val: ((match result {
                Some(v) => v,
                None => 0u32,
            } + argi) % 0x1_0000_0000) as u32,
        }),
        final(bar0).events()[old(bar0).events().len() as int + 3] matches BusEvent::Read { reg, result }
            && reg == DMEM_DATA && r == match result {
            Some(v) => v,
            None => 0u32,
        },
        old(bar0).events().is_prefix_of(final(bar0).events()),
{
    let ghost e0 = bar0.events();
    let _ = bar0.write(DMEM_PORT, argp);
    let indirect = match bar0.read(DMEM_DATA) {
        Ok(v) => v,
        Err(_) => 0,
    };
    let next = ((indirect as u64 + argi as u64) % 0x1_0000_0000) as u32;
    let _ = bar0.write(DMEM_PORT, next);
    let r = match bar0.read(DMEM_DATA) {
        Ok(v) => v,
        Err(_) => 0,
    };
    proof {
        assert(bar0.events().subrange(0, e0.len() as int) =~= e0);
    }
    r
}

/// Start PMU FALCON execution at `init_addr`: program counter, trigger,
/// then start.
pub fn pmu_exec<B: RegisterBus>(bar0: &mut Bar0<B>, init_addr: u32)
    ensures
        final(bar0).events() == old(bar0).events() + seq![
            BusEvent::Write { reg: FALCON_PC, val: init_addr },
            BusEvent::Write { reg: FALCON_TRIG, val: 0 },
            BusEvent::Write { reg: FALCON_CTRL, val: 2 },
        ],
{
    let ghost e0 = bar0.events();
    let _ = bar0.write(FALCON_PC, init_addr);
    let _ = bar0.write(FALCON_TRIG, 0);
    let _ = bar0.write(FALCON_CTRL, 0x02);
    proof {
        assert(bar0.events() =~= e0 + seq![
            BusEvent::Write { reg: FALCON_PC, val: init_addr },
            BusEvent::Write { reg: FALCON_TRIG, val: 0 },
            BusEvent::Write { reg: FALCON_CTRL, val: 2 },
        ]);
    }
}

/// Reset the PMU FALCON: halt it (0x02 to CPUCTL), wait 5 ms, and read
/// CPUCTL back. Returns what was read (0xDEADDEAD on failure).
pub fn pmu_falcon_reset<B: RegisterBus>(bar0: &mut Bar0<B>) -> (ctrl: u32)
    ensures
        final(bar0).events().len() == old(bar0).events().len() + 3,
        final(bar0).events().subrange(0, old(bar0).events().len() as int + 2) == old(bar0).events()
            + seq![BusEvent::Write { reg: FALCON_CTRL, val: 2 }, BusEvent::Delay { us: 5000 }],
        final(bar0).events().last() matches BusEvent::Read { reg, result } && reg == FALCON_CTRL
            && ctrl == match result {
            Some(v) => v,
            None => 0xDEAD_DEADu32,
        },
        old(bar0).events().is_prefix_of(final(bar0).events()),
{
    let ghost e0 = bar0.events();
    let _ = bar0.write(FALCON_CTRL, 0x02);
    bar0.delay(5000);
    let ghost e2 = bar0.events();
    let ctrl = match bar0.read(FALCON_CTRL) {
        Ok(v) => v,
        Err(_) => 0xDEAD_DEAD,
    };
    proof {
        assert(e2 =~= e0 + seq![BusEvent::Write { reg: FALCON_CTRL, val: 2 }, BusEvent::Delay { us: 5000 }]);
        assert(bar0.events().subrange(0, e0.len() as int + 2) =~= e2);
        assert(bar0.events().subrange(0, e0.len() as int) =~= e0);
    }
    ctrl
}

/// The event is a read of `reg`.
pub open spec fn is_read_of(e: BusEvent, reg: usize) -> bool {
    e matches BusEvent::Read { reg: r, .. } && r == reg
}

/// The value a read event delivered, or `dflt` when the read failed.
pub open spec fn read_value(e: BusEvent, dflt: u32) -> u32 {
    match e {
        BusEvent::Read { result: Some(v), .. } => v,
        _ => dflt,
    }
}

/// Read a register; a failed read gives `dflt`.
fn read_or<B: RegisterBus>(bar0: &mut Bar0<B>, reg: usize, dflt: u32) -> (r: u32)
    ensures
        final(bar0).events().len() == old(bar0).events().len() + 1,
        final(bar0).events().subrange(0, old(bar0).events().len() as int) == old(bar0).events(),
        is_read_of(final(bar0).events().last(), reg),
        r == read_value(final(bar0).events().last(), dflt),
{
    let ghost e0 = bar0.events();
    let r = match bar0.read(reg) {
        Ok(v) => v,
        Err(_) => dflt,
    };
    proof {
        assert(bar0.events().subrange(0, e0.len() as int) =~= e0);
    }
    r
}

/// Devinit status check result.
#[derive(Debug, Clone, Copy)]
pub struct DevinitStatus {
    pub needs_post: bool,
    pub devinit_reg: u32,
    pub pmu_id: u32,
    pub pmu_hwcfg: u32,
    pub pmu_ctrl: u32,
    pub pmu_mbox0: u32,
}

/// The registers `DevinitStatus::probe` reads, in order.
pub open spec fn status_regs() -> Seq<usize> {
    seq![DEVINIT_STATUS, FALCON_ID, FALCON_HWCFG, FALCON_CPUCTL, FALCON_MBOX0]
}

impl DevinitStatus {
    /// Status read from the five events `ev[at..at + 5]`.
    pub open spec fn from_events(self, ev: Seq<BusEvent>, at: int) -> bool {
        &&& forall|i: int| 0 <= i < 5 ==> is_read_of(#[trigger] ev[at + i], status_regs()[i])
        &&& self.devinit_reg == read_value(ev[at], 0xDEAD_DEAD)
        &&& self.pmu_id == read_value(ev[at + 1], 0xDEAD_DEAD)
        &&& self.pmu_hwcfg == read_value(ev[at + 2], 0xDEAD_DEAD)
        &&& self.pmu_ctrl == read_value(ev[at + 3], 0xDEAD_DEAD)
        &&& self.pmu_mbox0 == read_value(ev[at + 4], 0xDEAD_DEAD)
        &&& self.needs_post == (self.devinit_reg & 2 == 0)
    }

    /// Check the GPU's devinit status (bit 1 of 0x2240C clear means devinit
    /// has not run) and the PMU FALCON's identity, configuration, control
    /// and mailbox. Failed reads give 0xDEADDEAD.
    pub fn probe<B: RegisterBus>(bar0: &mut Bar0<B>) -> (r: Self)
        ensures
            final(bar0).events().len() == old(bar0).events().len() + 5,
            final(bar0).events().subrange(0, old(bar0).events().len() as int) == old(bar0).events(),
            r.from_events(final(bar0).events(), old(bar0).events().len() as int),
    {
        let ghost e0 = bar0.events();
        let devinit_reg = read_or(bar0, DEVINIT_STATUS, 0xDEAD_DEAD);
        let ghost e1 = bar0.events();
        let pmu_id = read_or(bar0, FALCON_ID, 0xDEAD_DEAD);
        let ghost e2 = bar0.events();
        let pmu_hwcfg = read_or(bar0, FALCON_HWCFG, 0xDEAD_DEAD);
        let ghost e3 = bar0.events();
        let pmu_ctrl = read_or(bar0, FALCON_CPUCTL, 0xDEAD_DEAD);
        let ghost e4 = bar0.events();
        let pmu_mbox0 = read_or(bar0, FALCON_MBOX0, 0xDEAD_DEAD);
        let ghost e5 = bar0.events();
        let r = DevinitStatus {
            needs_post: (devinit_reg & 2) == 0,
            devinit_reg,
            pmu_id,
            pmu_hwcfg,
            pmu_ctrl,
            pmu_mbox0,
        };
        proof {
            let n = e0.len() as int;
            assert(e5.subrange(0, e4.len() as int) == e4);
            assert(e4.subrange(0, e3.len() as int) == e3);
            assert(e3.subrange(0, e2.len() as int) == e2);
            assert(e2.subrange(0, e1.len() as int) == e1);
            assert(e5[n + 3] == e4[n + 3]);
            assert(e5[n + 2] == e4[n + 2]);
            assert(e4[n + 2] == e3[n + 2]);
            assert(e5[n + 1] == e4[n + 1]);
            assert(e4[n + 1] == e3[n + 1]);
            assert(e3[n + 1] == e2[n + 1]);
            assert(e5[n] == e4[n]);
            assert(e4[n] == e3[n]);
            assert(e3[n] == e2[n]);
            assert(e2[n] == e1[n]);
            assert(e5.subrange(0, n) =~= e0);
            assert forall|i: int| 0 <= i < 5 implies is_read_of(#[trigger] e5[n + i], status_regs()[i]) by {
                if i == 0 {
                } else if i == 1 {
                } else if i == 2 {
                } else if i == 3 {
                } else {
                }
            }
        }
        r
    }

    /// FALCON security bit 8 of HWCFG: only signed firmware is accepted.
    pub fn requires_signed_firmware(&self) -> (r: bool)
        ensures
            r == (self.pmu_hwcfg & 0x100 != 0),
    {
        self.pmu_hwcfg & 0x100 != 0
    }

    /// CPUCTL bit 4: the PMU FALCON is halted.
    pub fn is_falcon_halted(&self) -> (r: bool)
        ensures
            r == (self.pmu_ctrl & 0x10 != 0),
    {
        self.pmu_ctrl & 0x10 != 0
    }
}

/// BAR0 offset of the PROM, the GPU's internal VBIOS.
pub const PROM_BASE: usize = 0x0030_0000;
/// PROM enable register: clear bit 0 to enable PROM access.
pub const PROM_ENABLE_REG: usize = 0x0000_1854;

/// Comprehensive PMU FALCON diagnostic report.
#[derive(Debug, Clone)]
pub struct FalconDiagnostic {
    pub status: DevinitStatus,
    pub prom_accessible: bool,
    pub prom_signature: u32,
    pub prom_enable_reg: u32,
    pub secure_boot: bool,
    pub falcon_halted: bool,
    pub falcon_pc: u32,
    pub falcon_mbox1: u32,
    pub imem_size_kb: u32,
    pub dmem_size_kb: u32,
    pub vbios_sources: Vec<(String, bool, String)>,
}

impl FalconDiagnostic {
    /// Run the register part of the FALCON diagnostics: devinit status,
    /// PROM accessibility (enable the PROM, check the 0xAA55 signature,
    /// restore the enable register), FALCON PC and mailbox 1, and the IMEM
    /// and DMEM sizes from HWCFG (9-bit block counts at bits 16 and 0, in
    /// 256-byte blocks). The list of VBIOS sources starts empty.
    pub fn probe<B: RegisterBus>(bar0: &mut Bar0<B>) -> (r: Self)
        ensures
            r.status.from_events(final(bar0).events(), old(bar0).events().len() as int),
            r.prom_accessible == (r.prom_signature & 0xFFFF == 0xAA55),
            r.secure_boot == (r.status.pmu_hwcfg & 0x100 != 0),
            r.falcon_halted == (r.status.pmu_ctrl & 0x10 != 0),
            r.imem_size_kb == ((r.status.pmu_hwcfg >> 16u32) & 0x1FF) * 256 / 1024,
            r.dmem_size_kb == (r.status.pmu_hwcfg & 0x1FF) * 256 / 1024,
            r.vbios_sources@.len() == 0,
            final(bar0).events().len() == old(bar0).events().len() + 11,
            is_read_of(final(bar0).events()[old(bar0).events().len() as int + 5], PROM_ENABLE_REG),
            r.prom_enable_reg == read_value(final(bar0).events()[old(bar0).events().len() as int + 5], 0xDEAD_DEAD),
            final(bar0).events()[old(bar0).events().len() as int + 6] == (BusEvent::Write {
                reg: PROM_ENABLE_REG,
                val: r.prom_enable_reg & !1u32,
            }),
            is_read_of(final(bar0).events()[old(bar0).events().len() as int + 7], PROM_BASE),
            r.prom_signature == read_value(final(bar0).events()[old(bar0).events().len() as int + 7], 0xDEAD_DEAD),
            final(bar0).events()[old(bar0).events().len() as int + 8] == (BusEvent::Write {
                reg: PROM_ENABLE_REG,
                val: r.prom_enable_reg,
            }),
            is_read_of(final(bar0).events()[old(bar0).events().len() as int + 9], FALCON_PC),
            r.falcon_pc == read_value(final(bar0).events()[old(bar0).events().len() as int + 9], 0xDEAD_DEAD),
            is_read_of(final(bar0).events()[old(bar0).events().len() as int + 10], FALCON_MBOX1),
            r.falcon_mbox1 == read_value(final(bar0).events()[old(bar0).events().len() as int + 10], 0xDEAD_DEAD),
    {
        let ghost n = bar0.events().len() as int;
        let status = DevinitStatus::probe(bar0);
        let ghost s5 = bar0.events();
        let prom_enable_reg = read_or(bar0, PROM_ENABLE_REG, 0xDEAD_DEAD);
        let ghost s6 = bar0.events();
        let _ = bar0.write(PROM_ENABLE_REG, prom_enable_reg & !1);
        let ghost s7 = bar0.events();
        let prom_signature = read_or(bar0, PROM_BASE, 0xDEAD_DEAD);
        let ghost s8 = bar0.events();
        let prom_accessible = (prom_signature & 0xFFFF) == 0xAA55;
        let _ = bar0.write(PROM_ENABLE_REG, prom_enable_reg);
        let ghost s9 = bar0.events();
        let hwcfg = status.pmu_hwcfg;
        let secure_boot = hwcfg & 0x100 != 0;
        let falcon_halted = status.pmu_ctrl & 0x10 != 0;
        let falcon_pc = read_or(bar0, FALCON_PC, 0xDEAD_DEAD);
        let ghost s10 = bar0.events();
        let falcon_mbox1 = read_or(bar0, FALCON_MBOX1, 0xDEAD_DEAD);
        let ghost s11 = bar0.events();
        assert((hwcfg >> 16u32) & 0x1FF <= 0x1FF) by (bit_vector);
        assert(hwcfg & 0x1FF <= 0x1FF) by (bit_vector);
        let imem_size_kb = ((hwcfg >> 16) & 0x1FF) * 256 / 1024;
        let dmem_size_kb = (hwcfg & 0x1FF) * 256 / 1024;
        proof {
            assert(s11.subrange(0, s10.len() as int) == s10);
            assert(s10.subrange(0, s9.len() as int) == s9);
            assert(s8.subrange(0, s7.len() as int) == s7);
            assert(s6.subrange(0, s5.len() as int) == s5);
            assert(s11[n + 9] == s10[n + 9]);
            assert(forall|i: int| 0 <= i < s9.len() ==> s11[i] == s9[i]);
            assert(forall|i: int| 0 <= i < s8.len() ==> s9[i] == s8[i]);
            assert(forall|i: int| 0 <= i < s7.len() ==> s8[i] == s7[i]);
            assert(forall|i: int| 0 <= i < s6.len() ==> s7[i] == s6[i]);
            assert(forall|i: int| 0 <= i < s5.len() ==> s6[i] == s5[i]);
            assert(forall|i: int| 0 <= i < s5.len() ==> s11[i] == s5[i]);
            assert(s11[n + 8] == s9[n + 8]);
            assert(s11[n + 7] == s8[n + 7]);
            assert(s11[n + 6] == s7[n + 6]);
            assert(s11[n + 5] == s6[n + 5]);
            assert forall|i: int| 0 <= i < 5 implies is_read_of(#[trigger] s11[n + i], status_regs()[i]) by {
                assert(s11[n + i] == s5[n + i]);
            }
        }
        FalconDiagnostic {
            status,
            prom_accessible,
            prom_signature,
            prom_enable_reg,
            secure_boot,
            falcon_halted,
            falcon_pc,
            falcon_mbox1,
            imem_size_kb,
            dmem_size_kb,
            vbios_sources: Vec::new(),
        }
    }
}

/// Each 4-byte word `k` of `rom` holds, little-endian, what a read of PROM
/// word `k` answered (all ones when the read failed); these reads come
/// after event `from`, in order.
pub open spec fn prom_words_read(rom: Seq<u8>, ev: Seq<BusEvent>, from: int) -> bool {
    exists|pos: Seq<int>|
        #![trigger pos.len()]
        pos.len() * 4 == rom.len() && (forall|k: int, l: int|
            0 <= k < l < pos.len() ==> pos[k] < pos[l]) && forall|k: int|
            0 <= k < pos.len() ==> from <= #[trigger] pos[k] < ev.len() && is_read_of(
                ev[pos[k]],
                (PROM_BASE + 4 * k) as usize,
            ) && rom.subrange(4 * k, 4 * k + 4) == crate::kepler_page_tables::le_bytes(
                read_value(ev[pos[k]], 0xFFFF_FFFF),
            )
}

/// PROM words read in a trace stay read as the trace grows.
pub proof fn lemma_prom_words_grows(rom: Seq<u8>, e: Seq<BusEvent>, f: Seq<BusEvent>, from: int)
    requires
        0 <= from,
        e.is_prefix_of(f),
        prom_words_read(rom, e, from),
    ensures
        prom_words_read(rom, f, from),
{
    broadcast use Seq::lemma_prefix_index_eq;

    let pos = choose|pos: Seq<int>|
        #![trigger pos.len()]
        pos.len() * 4 == rom.len() && (forall|k: int, l: int|
            0 <= k < l < pos.len() ==> pos[k] < pos[l]) && forall|k: int|
            0 <= k < pos.len() ==> from <= #[trigger] pos[k] < e.len() && is_read_of(
                e[pos[k]],
                (PROM_BASE + 4 * k) as usize,
            ) && rom.subrange(4 * k, 4 * k + 4) == crate::kepler_page_tables::le_bytes(
                read_value(e[pos[k]], 0xFFFF_FFFF),
            );
    assert forall|k: int| 0 <= k < pos.len() implies from <= #[trigger] pos[k] < f.len() && is_read_of(
        f[pos[k]],
        (PROM_BASE + 4 * k) as usize,
    ) && rom.subrange(4 * k, 4 * k + 4) == crate::kepler_page_tables::le_bytes(
        read_value(f[pos[k]], 0xFFFF_FFFF),
    ) by {
        assert(from <= pos[k] < e.len());
        assert(e[pos[k]] == f.subrange(0, e.len() as int)[pos[k]]);
    }
}

/// Read the VBIOS from the GPU's internal PROM via BAR0.
///
/// Enables PROM access (clears bit 0 of 0x1854), checks the 0xAA55
/// signature, then reads words from BAR0 + 0x300000: at least 256 KiB and
/// at most 512 KiB, the image size (byte 2 of the header, in 512-byte
/// blocks, or 512 KiB when 0) permitting; past the first image it stops at
/// two consecutive 0xFFFFFFFF words. The enable register is restored
/// afterwards, also on a signature mismatch.
pub fn read_vbios_prom<B: RegisterBus>(bar0: &mut Bar0<B>) -> (r: Result<Vec<u8>, DevinitError>)
    ensures
        final(bar0).events().len() >= old(bar0).events().len() + 3,
        is_read_of(final(bar0).events()[old(bar0).events().len() as int], PROM_ENABLE_REG),
        final(bar0).events()[old(bar0).events().len() as int + 1] == (BusEvent::Write {
            reg: PROM_ENABLE_REG,
            val: read_value(final(bar0).events()[old(bar0).events().len() as int], 0xDEAD) & !1u32,
        }),
        is_read_of(final(bar0).events()[old(bar0).events().len() as int + 2], PROM_BASE),
        final(bar0).events().last() == (BusEvent::Write {
            reg: PROM_ENABLE_REG,
            val: read_value(final(bar0).events()[old(bar0).events().len() as int], 0xDEAD),
        }),
        r is Err <==> read_value(final(bar0).events()[old(bar0).events().len() as int + 2], 0)
            & 0xFFFF != 0xAA55,
        r matches Err(e) ==> e == (DevinitError::PromSignatureMismatch {
            sig: read_value(final(bar0).events()[old(bar0).events().len() as int + 2], 0),
        }),
        r matches Ok(rom) ==> 512 <= rom@.len() <= 512 * 1024 && rom@.len() % 4 == 0,
        r matches Ok(rom) ==> prom_words_read(rom@, final(bar0).events(), old(bar0).events().len() as int + 3),
        old(bar0).events().is_prefix_of(final(bar0).events()),
{
    let ghost e0 = bar0.events();
    let ghost n = bar0.events().len() as int;
    let enable_reg = read_or(bar0, PROM_ENABLE_REG, 0xDEAD);
    let ghost s1 = bar0.events();
    let _ = bar0.write(PROM_ENABLE_REG, enable_reg & !1);
    let ghost s2 = bar0.events();
    let sig_lo = read_or(bar0, PROM_BASE, 0);
    let ghost s3 = bar0.events();
    proof {
        assert(s3.subrange(0, s2.len() as int) == s2);
        assert(s3[n + 1] == s2[n + 1]);
        assert(s3[n] == s2[n]);
        assert(s2[n] == s1[n]);
        assert(s1.subrange(0, n) =~= e0);
        assert(s3.subrange(0, n) =~= e0) by {
            assert(s2.subrange(0, s1.len() as int) =~= s1);
        }
    }
    if (sig_lo & 0xFFFF) != 0xAA55 {
        let _ = bar0.write(PROM_ENABLE_REG, enable_reg);
        proof {
            assert(bar0.events().subrange(0, n) =~= e0);
            assert(bar0.events()[n] == s3[n]);
            assert(bar0.events()[n + 1] == s3[n + 1]);
            assert(bar0.events()[n + 2] == s3[n + 2]);
        }
        return Err(DevinitError::PromSignatureMismatch { sig: sig_lo });
    }
    assert((sig_lo >> 16u32) & 0xFF <= 0xFF) by (bit_vector);
    let image_blocks = ((sig_lo >> 16) & 0xFF) as usize;
    let image_size: usize = if image_blocks > 0 {
        image_blocks * 512
    } else {
        512 * 1024
    };
    let max_size: usize = 512 * 1024;
    let read_size: usize = if image_size > 256 * 1024 {
        if image_size < max_size {
            image_size
        } else {
            max_size
        }
    } else {
        256 * 1024
    };
    let mut rom: Vec<u8> = Vec::new();
    let mut offset: usize = 0;
    let ghost mut pos: Seq<int> = Seq::empty();
    while offset < read_size
        invariant
            256 * 1024 <= read_size <= 512 * 1024,
            read_size % 4 == 0,
            offset % 4 == 0,
            offset <= read_size,
            rom@.len() == offset,
            512 <= image_size,
            bar0.events().len() >= s3.len(),
            bar0.events().subrange(0, s3.len() as int) == s3,
            pos.len() * 4 == offset,
            forall|k: int, l: int| 0 <= k < l < pos.len() ==> pos[k] < pos[l],
            forall|k: int|
                0 <= k < pos.len() ==> s3.len() <= #[trigger] pos[k] < bar0.events().len() && is_read_of(
                    bar0.events()[pos[k]],
                    (PROM_BASE + 4 * k) as usize,
                ) && rom@.subrange(4 * k, 4 * k + 4) == crate::kepler_page_tables::le_bytes(
                    read_value(bar0.events()[pos[k]], 0xFFFF_FFFF),
                ),
        ensures
            512 <= rom@.len() <= 512 * 1024,
            rom@.len() % 4 == 0,
            bar0.events().len() >= s3.len(),
            bar0.events().subrange(0, s3.len() as int) == s3,
            prom_words_read(rom@, bar0.events(), s3.len() as int),
        decreases read_size - offset,
    {
        let ghost before = bar0.events();
        let ghost rom0 = rom@;
        let word = read_or(bar0, PROM_BASE + offset, 0xFFFF_FFFF);
        let ghost wpos: int = before.len() as int;
        let ghost after_word = bar0.events();
        proof {
            assert forall|k: int| 0 <= k < pos.len() implies bar0.events()[pos[k]] == before[pos[k]] by {
                assert(bar0.events().subrange(0, before.len() as int)[pos[k]] == before[pos[k]]);
            }
        }
        if offset > image_size && word == 0xFFFF_FFFF {
            let ghost mid = bar0.events();
            let next = read_or(bar0, PROM_BASE + offset + 4, 0xFFFF_FFFF);
            proof {
                assert(bar0.events().subrange(0, s3.len() as int) =~= mid.subrange(0, s3.len() as int));
            }
            if next == 0xFFFF_FFFF {
                proof {
                    assert(mid.subrange(0, s3.len() as int) =~= before.subrange(0, s3.len() as int));
                    assert forall|k: int| 0 <= k < pos.len() implies bar0.events()[pos[k]] == before[pos[k]] by {
                        assert(bar0.events().subrange(0, mid.len() as int)[pos[k]] == mid[pos[k]]);
                    }
                    assert(pos.len() == pos.len());
                }
                break ;
            }
            proof {
                assert(bar0.events()[wpos] == after_word[wpos]) by {
                    assert(bar0.events().subrange(0, mid.len() as int)[wpos] == mid[wpos]);
                }
                assert forall|k: int| 0 <= k < pos.len() implies bar0.events()[pos[k]] == before[pos[k]] by {
                    assert(bar0.events().subrange(0, mid.len() as int)[pos[k]] == mid[pos[k]]);
                }
            }
        }
        proof {
            assert(bar0.events().subrange(0, s3.len() as int) =~= s3) by {
                assert(before.subrange(0, s3.len() as int) == s3);
            }
        }
        #[verifier::truncate]
        let b0: u8 = (word & 0xFF) as u8;
        #[verifier::truncate]
        let b1: u8 = ((word >> 8) & 0xFF) as u8;
        #[verifier::truncate]
        let b2: u8 = ((word >> 16) & 0xFF) as u8;
        #[verifier::truncate]
        let b3: u8 = ((word >> 24) & 0xFF) as u8;
        rom.push(b0);
        rom.push(b1);
        rom.push(b2);
        rom.push(b3);
        proof {
            assert(rom@.subrange(offset as int, offset + 4) =~= crate::kepler_page_tables::le_bytes(word));
            assert(word == read_value(bar0.events()[wpos], 0xFFFF_FFFF));
            assert forall|k: int| 0 <= k < pos.len() implies #[trigger] rom@.subrange(4 * k, 4 * k + 4) == rom0.subrange(
                4 * k,
                4 * k + 4,
            ) by {
                assert(rom@.subrange(4 * k, 4 * k + 4) =~= rom0.subrange(4 * k, 4 * k + 4));
            }
            pos = pos.push(wpos);
        }
        offset = offset + 4;
    }
    let ghost s4 = bar0.events();
    let _ = bar0.write(PROM_ENABLE_REG, enable_reg);
    proof {
        let p = choose|p: Seq<int>|
            #![trigger p.len()]
            p.len() * 4 == rom@.len() && (forall|k: int, l: int| 0 <= k < l < p.len() ==> p[k] < p[l])
                && forall|k: int|
                0 <= k < p.len() ==> s3.len() <= #[trigger] p[k] < s4.len() && is_read_of(
                    s4[p[k]],
                    (PROM_BASE + 4 * k) as usize,
                ) && rom@.subrange(4 * k, 4 * k + 4) == crate::kepler_page_tables::le_bytes(
                    read_value(s4[p[k]], 0xFFFF_FFFF),
                );
        assert forall|k: int| 0 <= k < p.len() implies bar0.events()[p[k]] == s4[p[k]] by {
            assert(bar0.events().subrange(0, s4.len() as int)[p[k]] == s4[p[k]]);
        }
        assert(p.len() == p.len());
        assert(prom_words_read(rom@, bar0.events(), n + 3));
        assert(s4.subrange(0, n) =~= s3.subrange(0, n));
        assert(bar0.events().subrange(0, n) =~= e0);
        assert(bar0.events()[n] == s4[n]);
        assert(s4[n] == s3[n]);
        assert(bar0.events()[n + 1] == s4[n + 1]);
        assert(s4[n + 1] == s3[n + 1]);
        assert(bar0.events()[n + 2] == s4[n + 2]);
        assert(s4[n + 2] == s3[n + 2]);
    }
    if rom.len() < 512 {
        return Err(DevinitError::PromTooSmall { len: rom.len() });
    }
    Ok(rom)
}

/// First firmware of the given application type.
pub open spec fn spec_find_fw(fws: Seq<PmuFirmware>, app_type: u8) -> Option<PmuFirmware> {
    if exists|i: int| 0 <= i < fws.len() && fws[i].app_type == app_type {
        Some(
            fws[choose|i: int|
                0 <= i < fws.len() && fws[i].app_type == app_type && forall|j: int|
                    0 <= j < i ==> fws[j].app_type != app_type],
        )
    } else {
        None
    }
}

/// Find the first firmware of an application type.
pub fn find_fw(fws: &Vec<PmuFirmware>, app_type: u8) -> (r: Option<PmuFirmware>)
    ensures
        r == spec_find_fw(fws@, app_type),
{
    let mut i: usize = 0;
    while i < fws.len()
        invariant
            forall|j: int| 0 <= j < i ==> fws@[j].app_type != app_type,
        decreases fws.len() - i,
    {
        if fws[i].app_type == app_type {
            proof {
                let c = choose|k: int|
                    0 <= k < fws@.len() && fws@[k].app_type == app_type && forall|j: int|
                        0 <= j < k ==> fws@[j].app_type != app_type;
                assert(0 <= i < fws@.len() && fws@[i as int].app_type == app_type);
                if c < i {
                } else if c > i {
                    assert(fws@[i as int].app_type != app_type);
                }
            }
            return Some(fws[i]);
        }
        i = i + 1;
    }
    None
}

/// All three sections of the firmware lie inside an image of `len` bytes.
pub open spec fn fw_in_range(fw: PmuFirmware, len: int) -> bool {
    &&& fw.boot_addr + fw.boot_size <= len
    &&& fw.code_addr + fw.code_size <= len
    &&& fw.data_addr + fw.data_size <= len
}

/// The DEVINIT firmware that `execute_devinit` uploads, or why it cannot:
/// the BIT 'I' entry must be version 1 with at least 0x1c bytes, the PMU
/// table must hold a DEVINIT (type 4) application, and its sections must
/// lie inside the image.
pub open spec fn spec_devinit_plan(rom: Seq<u8>) -> Result<PmuFirmware, DevinitError> {
    match spec_parse_bit(rom) {
        Err(e) => Err(e),
        Ok(entries) => match spec_find_entry(entries, 0x49) {
            None => Err(DevinitError::BitEntryNotFound { id: 0x49 }),
            Some(bi) => if bi.version != 1 || bi.data_size < 0x1c {
                Err(DevinitError::BitIUnexpected { version: bi.version, size: bi.data_size })
            } else {
                match spec_parse_pmu_table(rom, entries) {
                    Err(e) => Err(e),
                    Ok(fws) => match spec_find_fw(fws, 4) {
                        None => Err(DevinitError::DevinitFirmwareNotFound),
                        Some(fw) => if fw_in_range(fw, rom.len() as int) {
                            Ok(fw)
                        } else {
                            Err(DevinitError::FirmwareOutOfRange)
                        },
                    },
                }
            },
        },
    }
}

fn fw_fits(fw: &PmuFirmware, len: usize) -> (r: bool)
    ensures
        r == fw_in_range(*fw, len as int),
{
    fw.boot_addr as u64 + fw.boot_size as u64 <= len as u64 && fw.code_addr as u64
        + fw.code_size as u64 <= len as u64 && fw.data_addr as u64 + fw.data_size as u64
        <= len as u64
}

/// Byte at a 64-bit offset, zero past the image.
fn byte_at(rom: &[u8], off: u64) -> (r: u8)
    ensures
        r == rom_u8(rom@, off as int),
{
    if off < rom.len() as u64 {
        rom[off as usize]
    } else {
        0
    }
}

/// Little-endian u16 from bytes that read as zero past the image.
fn rd16_padded(rom: &[u8], off: u64) -> (r: u32)
    requires
        off < u64::MAX,
    ensures
        r == rom_u8(rom@, off as int) + 256 * rom_u8(rom@, off + 1),
{
    byte_at(rom, off) as u32 + 256 * byte_at(rom, off + 1) as u32
}

/// The accesses that upload `data` to PMU DMEM at `pmu_addr`.
pub open spec fn dmem_upload_events(pmu_addr: u32, data: Seq<u8>) -> Seq<BusEvent> {
    seq![BusEvent::Write { reg: DMEM_PORT, val: 0x0100_0000u32 | pmu_addr }] + dmem_data_events(data)
}

/// The accesses that upload the application `fw` once the FALCON is
/// reset: boot code to IMEM, main code to IMEM in secure mode, data to DMEM.
pub open spec fn app_upload_events(rom: Seq<u8>, fw: PmuFirmware) -> Seq<BusEvent> {
    imem_upload_events(
        fw.boot_addr_pmu,
        rom.subrange(fw.boot_addr as int, fw.boot_addr + fw.boot_size),
        false,
    ) + imem_upload_events(fw.code_addr_pmu, rom.subrange(fw.code_addr as int, fw.code_addr + fw.code_size), true)
        + dmem_upload_events(fw.data_addr_pmu, rom.subrange(fw.data_addr as int, fw.data_addr + fw.data_size))
}

/// The three accesses of a PMU FALCON reset from event `at`: halt, 5 ms
/// wait, CPUCTL read back.
pub open spec fn falcon_reset_at(ev: Seq<BusEvent>, at: int) -> bool {
    &&& 0 <= at
    &&& at + 3 <= ev.len()
    &&& ev[at] == (BusEvent::Write { reg: FALCON_CTRL, val: 2 })
    &&& ev[at + 1] == (BusEvent::Delay { us: 5000 })
    &&& is_read_of(ev[at + 2], FALCON_CTRL)
}

/// Upload one firmware application (boot code, main code in secure mode,
/// data) after resetting the PMU FALCON.
fn upload_app<B: RegisterBus>(bar0: &mut Bar0<B>, rom: &[u8], fw: &PmuFirmware)
    requires
        fw_in_range(*fw, rom@.len() as int),
    ensures
        old(bar0).events().is_prefix_of(final(bar0).events()),
        final(bar0).events().len() == old(bar0).events().len() + 3 + app_upload_events(rom@, *fw).len(),
        falcon_reset_at(final(bar0).events(), old(bar0).events().len() as int),
        final(bar0).events().subrange(old(bar0).events().len() as int + 3, final(bar0).events().len() as int)
            == app_upload_events(rom@, *fw),
{
    let ghost e0 = bar0.events();
    pmu_falcon_reset(bar0);
    let ghost e1 = bar0.events();
    pmu_upload_code(bar0, rom, fw.boot_addr_pmu, fw.boot_addr, fw.boot_size, false);
    let ghost e2 = bar0.events();
    pmu_upload_code(bar0, rom, fw.code_addr_pmu, fw.code_addr, fw.code_size, true);
    let ghost e3 = bar0.events();
    pmu_upload_data(bar0, rom, fw.data_addr_pmu, fw.data_addr, fw.data_size);
    proof {
        let e4 = bar0.events();
        let tail = app_upload_events(rom@, *fw);
        assert(e4 =~= e1 + tail);
        lemma_prefix_append(e1, tail);
        lemma_prefix_trans(e0, e1, e4);
        let n = e0.len() as int;
        assert(e4[n] == e1[n]);
        assert(e4[n + 1] == e1[n + 1]);
        assert(e4[n + 2] == e1[n + 2]);
        assert(e1[n] == e1.subrange(0, n + 2)[n]);
        assert(e1[n + 1] == e1.subrange(0, n + 2)[n + 1]);
        assert(e4.subrange(n + 3, e4.len() as int) =~= tail);
    }
}

/// Image offset of the table named at `img_at` of the BIT 'I' data.
pub open spec fn table_img(rom: Seq<u8>, i_off: u32, img_at: u64) -> int {
    rom_u8(rom, i_off + img_at) + 256 * rom_u8(rom, i_off + img_at + 1)
}

/// Length of the table named at `img_at` of the BIT 'I' data.
pub open spec fn table_len(rom: Seq<u8>, i_off: u32, img_at: u64) -> int {
    rom_u8(rom, i_off + img_at + 2) + 256 * rom_u8(rom, i_off + img_at + 3)
}

/// The table is there: not empty and inside the image.
pub open spec fn table_present(rom: Seq<u8>, i_off: u32, img_at: u64) -> bool {
    &&& table_len(rom, i_off, img_at) > 0
    &&& table_img(rom, i_off, img_at) <= rom.len()
    &&& table_len(rom, i_off, img_at) <= rom.len() - table_img(rom, i_off, img_at)
}

/// The four accesses of a DMEM argument read from event `at`, as
/// [`pmu_read_args`] makes them.
pub open spec fn args_read_at(ev: Seq<BusEvent>, at: int, argp: u32, argi: u32) -> bool {
    &&& 0 <= at
    &&& at + 4 <= ev.len()
    &&& ev[at] == (BusEvent::Write { reg: DMEM_PORT, val: argp })
    &&& is_read_of(ev[at + 1], DMEM_DATA)
    &&& ev[at + 2] == (BusEvent::Write {
        reg: DMEM_PORT,
        val: ((read_value(ev[at + 1], 0) + argi) % 0x1_0000_0000) as u32,
    })
    &&& is_read_of(ev[at + 3], DMEM_DATA)
}

/// Events `from..to` of `ev` upload the table named at `img_at`, as
/// [`upload_table`] does: when the table is present, the argument read and
/// the DMEM upload of the region; otherwise nothing.
pub open spec fn table_upload_at(
    ev: Seq<BusEvent>,
    from: int,
    to: int,
    rom: Seq<u8>,
    i_off: u32,
    img_at: u64,
    argp: u32,
    argi: u32,
) -> bool {
    let img = table_img(rom, i_off, img_at);
    &&& 0 <= from <= to <= ev.len()
    &&& if table_present(rom, i_off, img_at) {
        &&& from + 4 <= to
        &&& args_read_at(ev, from, argp, argi)
        &&& ev.subrange(from + 4, to) == dmem_upload_events(
            read_value(ev[from + 3], 0),
            rom.subrange(img, img + table_len(rom, i_off, img_at)),
        )
    } else {
        to == from
    }
}

/// A table upload seen in a trace stays there as the trace grows.
proof fn lemma_table_upload_grows(
    e: Seq<BusEvent>,
    f: Seq<BusEvent>,
    from: int,
    to: int,
    rom: Seq<u8>,
    i_off: u32,
    img_at: u64,
    argp: u32,
    argi: u32,
)
    requires
        e.is_prefix_of(f),
        table_upload_at(e, from, to, rom, i_off, img_at, argp, argi),
    ensures
        table_upload_at(f, from, to, rom, i_off, img_at, argp, argi),
{
    broadcast use Seq::lemma_prefix_index_eq;

    if table_present(rom, i_off, img_at) {
        assert(f.subrange(from + 4, to) =~= e.subrange(from + 4, to));
        assert(f[from] == e[from]);
        assert(f[from + 1] == e[from + 1]);
        assert(f[from + 2] == e[from + 2]);
        assert(f[from + 3] == e[from + 3]);
    }
}

/// The accesses that start PMU FALCON execution at `init_addr`.
pub open spec fn exec_events(init_addr: u32) -> Seq<BusEvent> {
    seq![
        BusEvent::Write { reg: FALCON_PC, val: init_addr },
        BusEvent::Write { reg: FALCON_TRIG, val: 0 },
        BusEvent::Write { reg: FALCON_CTRL, val: 2 },
    ]
}

/// Upload a table region named by the u16 pair at `img_at`/`len_at` of the
/// BIT 'I' data to the DMEM address found through argument `argi`.
fn upload_table<B: RegisterBus>(bar0: &mut Bar0<B>, rom: &[u8], i_off: u32, img_at: u64, argp: u32, argi: u32)
    requires
        img_at <= 0x20,
    ensures
        old(bar0).events().is_prefix_of(final(bar0).events()),
        !table_present(rom@, i_off, img_at) ==> final(bar0).events() == old(bar0).events(),
        table_present(rom@, i_off, img_at) ==> {
            let ev = final(bar0).events();
            let n = old(bar0).events().len() as int;
            let img = table_img(rom@, i_off, img_at);
            &&& args_read_at(ev, n, argp, argi)
            &&& ev.subrange(n + 4, ev.len() as int) == dmem_upload_events(
                read_value(ev[n + 3], 0),
                rom@.subrange(img, img + table_len(rom@, i_off, img_at)),
            )
        },
        table_upload_at(
            final(bar0).events(),
            old(bar0).events().len() as int,
            final(bar0).events().len() as int,
            rom@,
            i_off,
            img_at,
            argp,
            argi,
        ),
{
    let ghost e0 = bar0.events();
    proof {
        assert(e0 =~= e0.subrange(0, e0.len() as int));
    }
    let img = rd16_padded(rom, i_off as u64 + img_at);
    let len = rd16_padded(rom, i_off as u64 + img_at + 2);
    if len > 0 && (img as usize) <= rom.len() && (len as usize) <= rom.len() - img as usize {
        let addr = pmu_read_args(bar0, argp, argi);
        let ghost e1 = bar0.events();
        pmu_upload_data(bar0, rom, addr, img, len);
        proof {
            let e2 = bar0.events();
            let n = e0.len() as int;
            let tail = dmem_upload_events(addr, rom@.subrange(img as int, img + len));
            assert(e2 =~= e1 + tail);
            lemma_prefix_append(e1, tail);
            lemma_prefix_trans(e0, e1, e2);
            assert(e2[n] == e1[n]);
            assert(e2[n + 1] == e1[n + 1]);
            assert(e2[n + 2] == e1[n + 2]);
            assert(e2[n + 3] == e1[n + 3]);
            assert(e2.subrange(n + 4, e2.len() as int) =~= tail);
        }
    }
}

/// Polls of MBOX0 (10 ms apart) while waiting for devinit completion.
pub const DEVINIT_POLLS: u32 = 200;

/// Execute the full devinit sequence via the PMU FALCON.
///
/// If the devinit status shows devinit already ran, returns `Ok(false)`.
/// Otherwise it parses the BIT and PMU tables, uploads the DEVINIT
/// application (boot code, secure main code, data), the opcode tables and
/// the boot scripts named by BIT 'I', writes 0x5000 to MBOX0, starts the
/// PMU, and polls MBOX0 bit 13 for completion (200 polls 10 ms apart).
/// Completion is followed by launching the PRE_OS application (type 1), if
/// present and in range, and a second status probe; the result is
/// `Ok(true)`. No completion gives `DevinitTimeout` with the last MBOX0.
#[verifier::spinoff_prover]
#[verifier::rlimit(40)]
pub fn execute_devinit<B: RegisterBus>(bar0: &mut Bar0<B>, rom: &[u8]) -> (r: Result<bool, DevinitError>)
    ensures
        old(bar0).events().len() < final(bar0).events().len(),
        old(bar0).events().is_prefix_of(final(bar0).events()),
        is_read_of(final(bar0).events()[old(bar0).events().len() as int], DEVINIT_STATUS),
        (read_value(final(bar0).events()[old(bar0).events().len() as int], 0xDEAD_DEAD) & 2 != 0)
            <==> r == Ok::<bool, DevinitError>(false),
        r == Ok::<bool, DevinitError>(false) ==> final(bar0).events().len() == old(bar0).events().len() + 5
            && forall|i: int|
            old(bar0).events().len() <= i < final(bar0).events().len() ==> (
                #[trigger] final(bar0).events()[i]) is Read,
        (read_value(final(bar0).events()[old(bar0).events().len() as int], 0xDEAD_DEAD) & 2 == 0)
            ==> match spec_devinit_plan(rom@) {
            Err(e) => r == Err::<bool, DevinitError>(e) && final(bar0).events().len()
                == old(bar0).events().len() + 5,
            Ok(fw) => devinit_run_from(
                final(bar0).events(),
                old(bar0).events().len() as int + 5,
                rom@,
                fw,
                spec_bit_i_offset(rom@),
                r,
            ),
        },
        r == Ok::<bool, DevinitError>(true) ==> exists|i: int|
            old(bar0).events().len() < i < final(bar0).events().len() && is_read_of(
                #[trigger] final(bar0).events()[i],
                FALCON_MBOX0,
            ) && mbox_done(final(bar0).events()[i]),
{
    let ghost e0 = bar0.events();
    let status = DevinitStatus::probe(bar0);
    let ghost e1 = bar0.events();
    proof {
        assert(e0 =~= e1.subrange(0, e0.len() as int));
        assert(is_read_of(e1[e0.len() as int + 0], status_regs()[0]));
        assert(status_regs()[0] == DEVINIT_STATUS);
    }
    if !status.needs_post {
        proof {
            let n = e0.len() as int;
            assert forall|i: int| n <= i < e1.len() implies (#[trigger] e1[i]) is Read by {
                assert(is_read_of(e1[n + (i - n)], status_regs()[i - n]));
            }
        }
        return Ok(false);
    }
    let (fw, i_off, fws) = match devinit_plan(rom) {
        Ok(p) => p,
        Err(e) => {
            return Err(e);
        },
    };
    let r = run_devinit_firmware(bar0, rom, &fw, i_off, &fws);
    proof {
        lemma_prefix_trans(e0, e1, bar0.events());
        assert(bar0.events()[e0.len() as int] == e1.subrange(0, e1.len() as int)[e0.len() as int]);
        let g = bar0.events();
        let n1 = e1.len() as int;
        reveal(devinit_run_from);
        let (t1, t2, a, w) = choose|t1: int, t2: int, a: int, w: int|
            #[trigger] devinit_run_shape(g, n1, t1, t2, a, w, rom@, fw, i_off, r is Ok) && (r is Err ==> w + 2
                == g.len() && is_read_of(g[w], FALCON_MBOX0) && is_read_of(g[w + 1], FALCON_CTRL) && r
                == Err::<bool, DevinitError>(
                DevinitError::DevinitTimeout { mbox: read_value(g[w], 0xDEAD_DEAD) },
            ));
        if r is Ok {
            lemma_run_shape_done(g, n1, t1, t2, a, w, rom@, fw, i_off);
        }
    }
    r
}

/// Offset of the BIT 'I' data of the image (0 when there is none).
pub open spec fn spec_bit_i_offset(rom: Seq<u8>) -> u32 {
    match spec_parse_bit(rom) {
        Err(_) => 0,
        Ok(entries) => match spec_find_entry(entries, 0x49) {
            None => 0,
            Some(bi) => bi.data_offset,
        },
    }
}

/// The accesses from event `n` are a DEVINIT run of `fw` as
/// [`devinit_run_shape`] describes it, whose result is `r`: `Ok(true)` when
/// the wait saw completion, otherwise a timeout carrying the MBOX0 value
/// read right after the wait, followed by a CTRL read that ends the trace.
#[verifier::opaque]
pub open spec fn devinit_run_from(
    ev: Seq<BusEvent>,
    n: int,
    rom: Seq<u8>,
    fw: PmuFirmware,
    i_off: u32,
    r: Result<bool, DevinitError>,
) -> bool {
    &&& (r == Ok::<bool, DevinitError>(true) || r matches Err(DevinitError::DevinitTimeout { .. }))
    &&& exists|t1: int, t2: int, a: int, w: int|
        #[trigger] devinit_run_shape(ev, n, t1, t2, a, w, rom, fw, i_off, r is Ok) && (r is Err ==> w + 2
            == ev.len() && is_read_of(ev[w], FALCON_MBOX0) && is_read_of(ev[w + 1], FALCON_CTRL) && r
            == Err::<bool, DevinitError>(DevinitError::DevinitTimeout { mbox: read_value(ev[w], 0xDEAD_DEAD) }))
}

/// A DEVINIT run whose wait saw completion holds a read of MBOX0 showing
/// bit 13, after its start.
proof fn lemma_run_shape_done(
    ev: Seq<BusEvent>,
    n: int,
    t1: int,
    t2: int,
    a: int,
    w: int,
    rom: Seq<u8>,
    fw: PmuFirmware,
    i_off: u32,
)
    requires
        devinit_run_shape(ev, n, t1, t2, a, w, rom, fw, i_off, true),
    ensures
        exists|i: int| n < i < ev.len() && is_read_of(#[trigger] ev[i], FALCON_MBOX0) && mbox_done(ev[i]),
{
    reveal(devinit_run_shape);
    let x = ev.take(a + 4);
    let y = ev.take(w);
    let m = (y.len() - x.len()) / 2;
    let i = a + 4 + 2 * m;
    assert(y[i] == ev[i]);
    assert(is_read_of(ev[i], FALCON_MBOX0) && mbox_done(ev[i]));
}

/// The DEVINIT firmware, the offset of the BIT 'I' data and every PMU
/// application, as `spec_devinit_plan` describes them.
#[verifier::rlimit(40)]
fn devinit_plan(rom: &[u8]) -> (r: Result<(PmuFirmware, u32, Vec<PmuFirmware>), DevinitError>)
    ensures
        match r {
            Ok((fw, i_off, fws)) => spec_devinit_plan(rom@) == Ok::<PmuFirmware, DevinitError>(fw)
                && fw_in_range(fw, rom@.len() as int) && i_off == spec_bit_i_offset(rom@),
            Err(e) => spec_devinit_plan(rom@) == Err::<PmuFirmware, DevinitError>(e),
        },
{
    let bit = BitTable::parse(rom)?;
    let bit_i = match bit.find(0x49) {
        Some(e) => *e,
        None => {
            return Err(DevinitError::BitEntryNotFound { id: 0x49 });
        },
    };
    if bit_i.version != 1 || bit_i.data_size < 0x1c {
        return Err(DevinitError::BitIUnexpected { version: bit_i.version, size: bit_i.data_size });
    }
    let pmu_fws = parse_pmu_table(rom, &bit)?;
    let devinit_fw = match find_fw(&pmu_fws, 4) {
        Some(fw) => fw,
        None => {
            return Err(DevinitError::DevinitFirmwareNotFound);
        },
    };
    if !fw_fits(&devinit_fw, rom.len()) {
        return Err(DevinitError::FirmwareOutOfRange);
    }
    Ok((devinit_fw, bit_i.data_offset, pmu_fws))
}

/// The accesses of a DEVINIT run from event `n`: the DEVINIT application
/// uploaded after a FALCON reset, the two opcode tables from `t1` and `t2`,
/// MBOX0 set to 0x5000 and the FALCON started at `a`, then the wait for
/// completion up to `w`, which ended with `done`.
#[verifier::opaque]
pub open spec fn devinit_run_shape(
    ev: Seq<BusEvent>,
    n: int,
    t1: int,
    t2: int,
    a: int,
    w: int,
    rom: Seq<u8>,
    fw: PmuFirmware,
    i_off: u32,
    done: bool,
) -> bool {
    let argp = ((fw.args_addr_pmu + 8) % 0x1_0000_0000) as u32;
    &&& t1 == n + 3 + app_upload_events(rom, fw).len()
    &&& t1 <= t2 <= a
    &&& a + 4 <= w <= ev.len()
    &&& falcon_reset_at(ev, n)
    &&& ev.subrange(n + 3, t1) == app_upload_events(rom, fw)
    &&& table_upload_at(ev, t1, t2, rom, i_off, 0x14, argp, 0x08)
    &&& table_upload_at(ev, t2, a, rom, i_off, 0x18, argp, 0x10)
    &&& ev[a] == (BusEvent::Write { reg: FALCON_MBOX0, val: 0x5000 })
    &&& ev.subrange(a + 1, a + 4) == exec_events(fw.init_addr_pmu)
    &&& devinit_wait_trace(ev.take(a + 4), ev.take(w), done)
}

/// Upload and start the DEVINIT application, wait for it, then launch the
/// PRE_OS application (type 1) when it is present and in range.
#[verifier::spinoff_prover]
#[verifier::rlimit(100)]
fn run_devinit_firmware<B: RegisterBus>(
    bar0: &mut Bar0<B>,
    rom: &[u8],
    devinit_fw: &PmuFirmware,
    i_off: u32,
    pmu_fws: &Vec<PmuFirmware>,
) -> (r: Result<bool, DevinitError>)
    requires
        fw_in_range(*devinit_fw, rom@.len() as int),
    ensures
        old(bar0).events().is_prefix_of(final(bar0).events()),
        devinit_run_from(final(bar0).events(), old(bar0).events().len() as int, rom@, *devinit_fw, i_off, r),
{
    let ghost e1 = bar0.events();
    let ghost n = e1.len() as int;
    upload_app(bar0, rom, devinit_fw);
    let ghost e2 = bar0.events();
    let argp = ((devinit_fw.args_addr_pmu as u64 + 8) % 0x1_0000_0000) as u32;
    upload_table(bar0, rom, i_off, 0x14, argp, 0x08);
    let ghost e3 = bar0.events();
    upload_table(bar0, rom, i_off, 0x18, argp, 0x10);
    let ghost e4 = bar0.events();
    let _ = bar0.write(FALCON_MBOX0, 0x0000_5000);
    let ghost e5 = bar0.events();
    pmu_exec(bar0, devinit_fw.init_addr_pmu);
    let ghost e6 = bar0.events();
    proof {
        lemma_prefix_trans(e1, e2, e3);
        lemma_prefix_trans(e1, e3, e4);
        lemma_prefix_push(e4, BusEvent::Write { reg: FALCON_MBOX0, val: 0x5000 });
        lemma_prefix_trans(e1, e4, e5);
        lemma_prefix_append(e5, e6.subrange(e5.len() as int, e6.len() as int));
        assert(e6 =~= e5 + e6.subrange(e5.len() as int, e6.len() as int));
        lemma_prefix_trans(e1, e5, e6);
    }
    let completed = wait_devinit_done(bar0);
    let ghost e7 = bar0.events();
    proof {
        lemma_prefix_trans(e1, e6, e7);
    }
    if !completed {
        let mbox = match bar0.read(FALCON_MBOX0) {
            Ok(v) => v,
            Err(_) => 0xDEAD_DEAD,
        };
        let ghost g1 = bar0.events();
        let _ctrl = bar0.read(FALCON_CTRL);
        proof {
            let g = bar0.events();
            lemma_prefix_push(e7, g1.last());
            assert(g1 == e7.push(g1.last()));
            lemma_prefix_push(g1, g.last());
            assert(g == g1.push(g.last()));
            lemma_prefix_trans(e7, g1, g);
            lemma_prefix_trans(e1, e7, g);
            lemma_run_shape_grows(e1, e2, e3, e4, e5, e6, e7, g, rom@, *devinit_fw, i_off, false);
            assert(g[e7.len() as int] == g1[e7.len() as int]);
            reveal(devinit_run_from);
            assert(devinit_run_shape(
                g,
                n,
                e2.len() as int,
                e3.len() as int,
                e4.len() as int,
                e7.len() as int,
                rom@,
                *devinit_fw,
                i_off,
                false,
            ));
        }
        let r = Err(DevinitError::DevinitTimeout { mbox });
        proof {
            reveal(devinit_run_from);
            let g = bar0.events();
            assert(devinit_run_shape(
                g,
                n,
                e2.len() as int,
                e3.len() as int,
                e4.len() as int,
                e7.len() as int,
                rom@,
                *devinit_fw,
                i_off,
                r is Ok,
            ));
            assert(devinit_run_from(g, n, rom@, *devinit_fw, i_off, r));
        }
        return r;
    }
    if let Some(preos_fw) = find_fw(pmu_fws, 1) {
        if fw_fits(&preos_fw, rom.len()) {
            upload_app(bar0, rom, &preos_fw);
            let ghost h1 = bar0.events();
            pmu_exec(bar0, preos_fw.init_addr_pmu);
            proof {
                let h2 = bar0.events();
                lemma_prefix_append(h1, h2.subrange(h1.len() as int, h2.len() as int));
                assert(h2 =~= h1 + h2.subrange(h1.len() as int, h2.len() as int));
                lemma_prefix_trans(e7, h1, h2);
            }
        }
    }
    let ghost h3 = bar0.events();
    let _post = DevinitStatus::probe(bar0);
    proof {
        assert(e7 =~= e7.subrange(0, e7.len() as int));
        let h4 = bar0.events();
        assert(h3 =~= h4.subrange(0, h3.len() as int));
        lemma_prefix_trans(e7, h3, h4);
        lemma_prefix_trans(e1, e7, h4);
        lemma_run_shape_grows(e1, e2, e3, e4, e5, e6, e7, h4, rom@, *devinit_fw, i_off, true);
        assert(devinit_run_shape(
            h4,
            n,
            e2.len() as int,
            e3.len() as int,
            e4.len() as int,
            e7.len() as int,
            rom@,
            *devinit_fw,
            i_off,
            true,
        ));
        reveal(devinit_run_from);
        let r = Ok::<bool, DevinitError>(true);
        assert(devinit_run_shape(
            h4,
            n,
            e2.len() as int,
            e3.len() as int,
            e4.len() as int,
            e7.len() as int,
            rom@,
            *devinit_fw,
            i_off,
            r is Ok,
        ));
        assert(devinit_run_from(h4, n, rom@, *devinit_fw, i_off, r));
    }
    Ok(true)
}

/// The stages of a DEVINIT run, each seen in the trace it ended with, are
/// all seen in any trace that grew from the last one.
proof fn lemma_run_shape_grows(
    e1: Seq<BusEvent>,
    e2: Seq<BusEvent>,
    e3: Seq<BusEvent>,
    e4: Seq<BusEvent>,
    e5: Seq<BusEvent>,
    e6: Seq<BusEvent>,
    e7: Seq<BusEvent>,
    g: Seq<BusEvent>,
    rom: Seq<u8>,
    fw: PmuFirmware,
    i_off: u32,
    done: bool,
)
    requires
        e2.is_prefix_of(e3),
        e3.is_prefix_of(e4),
        e4.is_prefix_of(e5),
        e5.is_prefix_of(e6),
        e6.is_prefix_of(e7),
        e7.is_prefix_of(g),
        e2.len() == e1.len() + 3 + app_upload_events(rom, fw).len(),
        falcon_reset_at(e2, e1.len() as int),
        e2.subrange(e1.len() as int + 3, e2.len() as int) == app_upload_events(rom, fw),
        table_upload_at(
            e3,
            e2.len() as int,
            e3.len() as int,
            rom,
            i_off,
            0x14,
            ((fw.args_addr_pmu + 8) % 0x1_0000_0000) as u32,
            0x08,
        ),
        table_upload_at(
            e4,
            e3.len() as int,
            e4.len() as int,
            rom,
            i_off,
            0x18,
            ((fw.args_addr_pmu + 8) % 0x1_0000_0000) as u32,
            0x10,
        ),
        e5 == e4.push(BusEvent::Write { reg: FALCON_MBOX0, val: 0x5000 }),
        e6 == e5 + exec_events(fw.init_addr_pmu),
        devinit_wait_trace(e6, e7, done),
    ensures
        devinit_run_shape(
            g,
            e1.len() as int,
            e2.len() as int,
            e3.len() as int,
            e4.len() as int,
            e7.len() as int,
            rom,
            fw,
            i_off,
            done,
        ),
{
    broadcast use Seq::lemma_prefix_index_eq;

    reveal(devinit_run_shape);
    lemma_prefix_trans(e2, e3, e4);
    lemma_prefix_trans(e2, e4, e5);
    lemma_prefix_trans(e2, e5, e6);
    lemma_prefix_trans(e2, e6, e7);
    lemma_prefix_trans(e2, e7, g);
    lemma_prefix_trans(e3, e4, e5);
    lemma_prefix_trans(e3, e5, e6);
    lemma_prefix_trans(e3, e6, e7);
    lemma_prefix_trans(e3, e7, g);
    lemma_prefix_trans(e4, e5, e6);
    lemma_prefix_trans(e4, e6, e7);
    lemma_prefix_trans(e4, e7, g);
    lemma_prefix_trans(e5, e6, e7);
    lemma_prefix_trans(e5, e7, g);
    lemma_prefix_trans(e6, e7, g);
    let argp = ((fw.args_addr_pmu + 8) % 0x1_0000_0000) as u32;
    lemma_table_upload_grows(e3, g, e2.len() as int, e3.len() as int, rom, i_off, 0x14, argp, 0x08);
    lemma_table_upload_grows(e4, g, e3.len() as int, e4.len() as int, rom, i_off, 0x18, argp, 0x10);
    let n = e1.len() as int;
    assert(g.subrange(n + 3, e2.len() as int) =~= e2.subrange(n + 3, e2.len() as int));
    assert(g[n] == e2[n]);
    assert(g[n + 1] == e2[n + 1]);
    assert(g[n + 2] == e2[n + 2]);
    let a = e4.len() as int;
    assert(g[a] == e5[a]);
    assert(g.subrange(a + 1, a + 4) =~= e6.subrange(a + 1, a + 4));
    assert(e6.subrange(a + 1, a + 4) =~= exec_events(fw.init_addr_pmu));
    assert(g.take(a + 4) =~= e6);
    assert(g.take(e7.len() as int) =~= e7);
}

/// MBOX0 read by this event shows devinit done (bit 13); a failed read
/// counts as 0xDEADDEAD, which does not have the bit.
pub open spec fn mbox_done(e: BusEvent) -> bool {
    read_value(e, 0xDEAD_DEAD) & 0x2000 != 0
}

/// The trace `b` is `a` followed by the wait for devinit: reads of MBOX0,
/// each not showing completion followed by a 10 ms wait, until a read shows
/// completion (`done`) or `DEVINIT_POLLS` reads were made (not `done`).
pub open spec fn devinit_wait_trace(a: Seq<BusEvent>, b: Seq<BusEvent>, done: bool) -> bool {
    let n = a.len() as int;
    let m = (b.len() - n) / 2;
    &&& a.is_prefix_of(b)
    &&& forall|k: int|
        0 <= k < m ==> is_read_of(#[trigger] b[n + 2 * k], FALCON_MBOX0) && !mbox_done(b[n + 2 * k])
            && b[n + 2 * k + 1] == (BusEvent::Delay { us: 10_000 })
    &&& if done {
        b.len() == n + 2 * m + 1 && m < DEVINIT_POLLS && is_read_of(b[n + 2 * m], FALCON_MBOX0)
            && mbox_done(b[n + 2 * m])
    } else {
        b.len() == n + 2 * m && m == DEVINIT_POLLS
    }
}

/// Poll MBOX0 bit 13 (devinit done) up to `DEVINIT_POLLS` times, 10 ms
/// apart. Failed reads count as 0xDEADDEAD, which does not have the bit.
fn wait_devinit_done<B: RegisterBus>(bar0: &mut Bar0<B>) -> (done: bool)
    ensures
        old(bar0).events().is_prefix_of(final(bar0).events()),
        devinit_wait_trace(old(bar0).events(), final(bar0).events(), done),
{
    let ghost e1 = bar0.events();
    let ghost n = e1.len() as int;
    proof {
        assert(e1 =~= e1.subrange(0, e1.len() as int));
    }
    let mut completed = false;
    let mut polls: u32 = 0;
    while polls < DEVINIT_POLLS && !completed
        invariant
            e1.is_prefix_of(bar0.events()),
            n == e1.len(),
            polls <= DEVINIT_POLLS,
            !completed ==> bar0.events().len() == n + 2 * polls,
            completed ==> polls >= 1 && bar0.events().len() == n + 2 * (polls - 1) + 1
                && is_read_of(bar0.events()[n + 2 * (polls - 1)], FALCON_MBOX0) && mbox_done(
                bar0.events()[n + 2 * (polls - 1)],
            ),
            forall|k: int|
                0 <= k < (if completed {
                    polls - 1
                } else {
                    polls as int
                }) ==> is_read_of(#[trigger] bar0.events()[n + 2 * k], FALCON_MBOX0) && !mbox_done(
                    bar0.events()[n + 2 * k],
                ) && bar0.events()[n + 2 * k + 1] == (BusEvent::Delay { us: 10_000 }),
        decreases DEVINIT_POLLS - polls,
    {
        let ghost f0 = bar0.events();
        let mbox = match bar0.read(FALCON_MBOX0) {
            Ok(v) => v,
            Err(_) => 0xDEAD_DEAD,
        };
        let ghost f1 = bar0.events();
        proof {
            lemma_prefix_push(f0, f1.last());
            assert(f1 == f0.push(f1.last()));
            lemma_prefix_trans(e1, f0, f1);
            assert(mbox == read_value(f1[n + 2 * polls], 0xDEAD_DEAD));
        }
        if mbox & 0x2000 != 0 {
            completed = true;
        } else {
            bar0.delay(10_000);
            proof {
                lemma_prefix_push(f1, BusEvent::Delay { us: 10_000 });
                lemma_prefix_trans(e1, f1, bar0.events());
                let g = bar0.events();
                assert forall|k: int| 0 <= k < polls + 1 implies is_read_of(#[trigger] g[n + 2 * k], FALCON_MBOX0)
                    && !mbox_done(g[n + 2 * k]) && g[n + 2 * k + 1] == (BusEvent::Delay { us: 10_000 }) by {
                    if k < polls {
                        assert(g[n + 2 * k] == f0[n + 2 * k]);
                        assert(g[n + 2 * k + 1] == f0[n + 2 * k + 1]);
                    }
                }
            }
        }
        polls = polls + 1;
    }
    proof {
        let g = bar0.events();
        if completed {
            assert((g.len() - n) / 2 == polls - 1);
        } else {
            assert((g.len() - n) / 2 == polls);
        }
    }
    completed
}

/// VRAM offset of the sentinel that tells whether VRAM answers.
pub const VRAM_SENTINEL_OFFSET: u32 = 0x0002_6000;

/// The sentinel written there.
pub const VRAM_SENTINEL: u32 = 0xCAFE_DEAD;

/// The three accesses of a VRAM sentinel test starting at event `at`: the
/// PRAMIN window moved to the sentinel's 64 KiB block, the sentinel written
/// through it, and read back.
pub open spec fn vram_probe_events(ev: Seq<BusEvent>, at: int) -> bool {
    &&& 0 <= at
    &&& at + 3 <= ev.len()
    &&& ev[at] == (BusEvent::Write { reg: crate::hbm2_training::volta_hbm2::BAR0_WINDOW, val: 0x2 })
    &&& ev[at + 1] == (BusEvent::Write {
        reg: 0x0070_6000usize,
        val: VRAM_SENTINEL,
    })
    &&& ev[at + 2] is Read
    &&& ev[at + 2]->Read_reg == 0x0070_6000usize
}

/// The sentinel test starting at `at` read the sentinel back.
pub open spec fn vram_probe_passed(ev: Seq<BusEvent>, at: int) -> bool {
    read_value(ev[at + 2], 0xDEAD_DEAD) == VRAM_SENTINEL
}

/// Whether VRAM answers: write the sentinel at VRAM offset 0x26000
/// through the PRAMIN window and read it back.
pub fn check_vram_via_pramin<B: RegisterBus>(bar0: &mut Bar0<B>) -> (r: bool)
    ensures
        old(bar0).events().is_prefix_of(final(bar0).events()),
        final(bar0).events().len() == old(bar0).events().len() + 3,
        vram_probe_events(final(bar0).events(), old(bar0).events().len() as int),
        r == vram_probe_passed(final(bar0).events(), old(bar0).events().len() as int),
{
    let (ok, _) = crate::hbm2_training::pramin_sentinel(bar0, VRAM_SENTINEL_OFFSET, VRAM_SENTINEL);
    assert(VRAM_SENTINEL_OFFSET >> 16u32 == 2) by (bit_vector);
    assert(VRAM_SENTINEL_OFFSET & 0xFFFFu32 == 0x6000) by (bit_vector);
    ok
}

/// DEVINIT status read first by `execute_devinit` at event `at` said that
/// devinit already ran.
pub open spec fn devinit_already_done(ev: Seq<BusEvent>, at: int) -> bool {
    is_read_of(ev[at], DEVINIT_STATUS) && read_value(ev[at], 0xDEAD_DEAD) & 2 != 0
}

/// Run DEVINIT from a VBIOS image once it is known that the GPU needs
/// POST, and report whether VRAM answers afterwards.
///
/// With secure boot the PMU would need signed firmware, so the host-side
/// interpreter runs the boot scripts. Otherwise the PMU FALCON upload is
/// tried first: if it reports devinit not needed the answer is `false`,
/// if it completes and VRAM answers the answer is `true`; in every other
/// case (VRAM still dead, or the upload failed) the host-side interpreter
/// runs. After the interpreter, the answer is the VRAM sentinel test.
pub fn devinit_from_vbios<B: RegisterBus>(bar0: &mut Bar0<B>, secure_boot: bool, rom: &[u8]) -> (r: Result<
    bool,
    DevinitError,
>)
    requires
        rom@.len() <= isize::MAX,
    ensures
        old(bar0).events().is_prefix_of(final(bar0).events()),
        secure_boot ==> (r is Err <==> crate::devinit_interp::spec_script_table(rom@) is Err),
        r matches Err(e) ==> crate::devinit_interp::spec_script_table(rom@) == Err::<int, DevinitError>(e),
        r matches Ok(v) ==> {
            ||| final(bar0).events().len() >= 3 && vram_probe_events(
                final(bar0).events(),
                final(bar0).events().len() - 3,
            ) && v == vram_probe_passed(final(bar0).events(), final(bar0).events().len() - 3)
            ||| !secure_boot && !v && old(bar0).events().len() < final(bar0).events().len()
                && devinit_already_done(final(bar0).events(), old(bar0).events().len() as int)
        },
{
    let ghost e0 = bar0.events();
    if secure_boot {
        let _stats = crate::devinit_interp::interpret_boot_scripts(bar0, rom)?;
        let ghost e1 = bar0.events();
        let ok = check_vram_via_pramin(bar0);
        proof {
            lemma_prefix_trans(e0, e1, bar0.events());
        }
        return Ok(ok);
    }
    let ghost n = e0.len() as int;
    match execute_devinit(bar0, rom) {
        Ok(true) => {
            let ghost e1 = bar0.events();
            let ok = check_vram_via_pramin(bar0);
            proof {
                lemma_prefix_trans(e0, e1, bar0.events());
            }
            if ok {
                return Ok(true);
            }
        },
        Ok(false) => {
            return Ok(false);
        },
        Err(_) => {},
    }
    let ghost e2 = bar0.events();
    let _stats = crate::devinit_interp::interpret_boot_scripts(bar0, rom)?;
    let ghost e3 = bar0.events();
    let ok = check_vram_via_pramin(bar0);
    proof {
        crate::devinit_interp::lemma_extends_is_prefix(e2, e3);
        lemma_prefix_trans(e0, e2, e3);
        lemma_prefix_trans(e0, e3, bar0.events());
    }
    Ok(ok)
}

} // verus!
