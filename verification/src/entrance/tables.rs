//! Where Lunar Magic keeps a ROM's entrance settings.

use vstd::prelude::*;

verus! {

/// The per-level settings, one byte per level each: `$05DE00`
/// `IWPXXtTT`, `$06FA00` `SHCvvvvv` (3.40), `$06FC00` `OFYYYYYY`,
/// `$06FE00` `RL-ooooo` (3.00).
pub const SETTINGS: [u32; 4] = [0x05DE00, 0x06FA00, 0x06FC00, 0x06FE00];

/// Lunar Magic 3's check for its per-level tables: a `JSL` over the
/// game's `SEP #$30 : LDA $13BF`, where the entrance code ends.
pub const SETTINGS_HOOK: u32 = 0x05DA17;

/// The midway entrance's hook: a `JSL` over the game's four `LSR`s of
/// the midway screen. Its target holds, `$0A` bytes in, the address of
/// the midway tables, four of 512 bytes one after another (three before
/// 3.00): `IWHMXAAA`, `yyyyxxxx`, `RLE-ffbb`, `-FYYYYYY`.
pub const MIDWAY_HOOK: u32 = 0x05D9E3;

/// Pointers to Lunar Magic 3's two further secondary entrance tables,
/// `EFYYYYYY` and `RLW-----`, one byte per entrance each. A fresh
/// install makes them 510 bytes long.
pub const ENTRANCE_EXTRA_PTRS: [u32; 2] = [0x05DC86, 0x05DC8B];

/// Entrances an extra table holds.
pub const ENTRANCE_EXTRA_LEN: usize = 0x1FE;

/// The game's secondary entrance tables at `$05FA00` and `$05FC00`, one
/// byte per entrance each, which Lunar Magic's settings share with it.
pub const ENTRANCE_BYTES: [u32; 2] = [0x05FA00, 0x05FC00];

} // verus!
