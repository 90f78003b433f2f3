# coral-driver

GPU bring-up logic for NVIDIA (Kepler, Volta and later) and AMD boards seen
through their BAR0 register window: VBIOS parsing and DEVINIT script
interpretation, PMU FALCON firmware upload, HBM2 link training, boot-trace
recipes and their replay, firmware and subsystem snapshots, and Kepler page
tables.

## Layout

- `src/` is the library, written in Verus. Every access it makes to the
  hardware goes through a `RegisterBus` and is recorded as a ghost event in
  the trace of a `Bar0`; contracts state which accesses a function makes and
  how its result follows from what the reads returned.
- `app/` holds the parts that cannot be verified: file and sysfs I/O, JSON
  (serde) forms of the library's types, memory-mapped BAR access, parsing of
  mmiotrace logs (which carry floating-point timestamps), and printing.
- `tests/` exercises the library against in-memory register files.

## Not included

The diagnostic experiment matrix and its PFIFO/dispatch experiments, the
GlowPlug warm-up sequence, the layered probe interpreter and the Kepler
channel setup are not part of this crate. Each of them drives the GPU through
components that this crate does not contain: the full register map
(`pmc`, `pfifo`, `pccsr`, `pbdma`, `ramfc`, `ramuserd`, ...), DMA buffers,
page-table population for the channel, PCI discovery and power management,
the memory topology, the PRI bus monitor and the vendor abstraction. The
decisions of the warm-up (the thermal-state classification, whether a GPU
has cooled, which registers are dangerous to touch) are in `src/glowplug.rs`.

The PRI fault domains used by the interpreter and the boot follower are taken
from the boot follower's register ranges, as the crate has no table of the
hardware's own PRI domain numbering.
