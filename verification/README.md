# kobo-core

Tools for Super Mario World ROMs, written in Verus: the library's
functions carry contracts that Verus proves, but for `text::push_char`,
whose contract (appending one character to a `String`) is taken from
std's documentation. How strong a contract is varies: see the notes on
the CPU below.

## Layout

- `src/addr.rs`: SNES and file addresses, LoROM and SA-1 mappings.
- `src/args.rs`: addresses and sizes as command lines give them.
- `src/asar.rs`: what a patch run with Asar takes and gives back.
- `src/bps.rs`: BPS patches: reading, applying, creating, CRC-32.
- `src/compress/`: LC_LZ2 (with an optimal compressor), LC_LZ3 and
  LC_RLE1 (also optimal); `suffix.rs` sorts suffixes for LC_LZ2's
  back-references.
- `src/config.rs`: where the vanilla ROM and the tools are found.
- `src/cpu/`: the 65816 core, the SA-1's registers and arithmetic, the
  SMW machine bus (`smw_bus.rs`: ROM, work RAM, video memory uploads,
  DMA, the SA-1's turns), and reports of unmodelled hardware accesses.
- `src/entrance.rs`: Lunar Magic's level and entrance settings.
- `src/expand/`: the level grid, layer 2 objects, OAM, diagnostics.
- `src/gfx.rs`, `src/image.rs`: graphics files, tiles and tile sheets.
- `src/text.rs`: building text.
- `app/`: the command-line program: argument parsing, files, PNG output,
  the configuration file.
- `tests/`: the library's tests.

Among what is proved: each compressor's output decompresses to its input,
and no LC_LZ2 or LC_RLE1 stream is shorter than what the compressor
writes; a BPS patch made from two files turns the first into the second;
address conversions, tile encodings and entrance settings round-trip;
a run of the CPU, and a call of a routine, ends in a state reached from
where it started by instructions as `Cpu::step` executes them (and the
interrupts and waits the bus answered), move by move. Not every opcode
has its effect stated: for those the step's contract says what the bus
saw and what stops the CPU, not where the registers end.
