//! Lunar Magic's entrance settings: what its per-level tables add to a
//! level's main entrance and layers, the separate midway entrance, and a
//! secondary entrance's two further bytes (formats in the community's
//! level format documentation).
//!
//! Every type here holds what changes the game and drops the rest: a
//! position's high bits without position method 2, a midway entrance's
//! settings without its separate flag. Lunar Magic 3's layout is the one
//! kept; older versions' tables are converted as Lunar Magic 3.70's MWL
//! export converts them.

use vstd::prelude::*;

use crate::addr::{Mapping, SnesAddr};
use crate::gfx::{ReadError, RomImage, read_error, spec_read};
use vstd::arithmetic::div_mod::lemma_fundamental_div_mod_converse;

pub mod tables;

verus! {

/// A fresh install's settings bytes: `$05DE00`, `$06FA00`, `$06FC00` and
/// `$06FE00`, in that order.
pub const DEFAULT_BYTES: [u8; 4] = [0x00, 0x20, 0x00, 0x1A];

/// Where layer 2 starts for an entrance that places the layers relative to
/// the player, a setting of the level's.
#[derive(Clone, Copy, PartialEq, Eq, Debug, Structural)]
pub enum Background {
    /// So that the background's last row shows when the player is at the
    /// level's bottom, for a background this many rows tall (1 to 32).
    Height(u8),
    /// This many rows from layer 1 (-15 to 15).
    Offset(i8),
    /// At 0.
    Absolute,
}

/// The value of bit `n` of a byte: two to the `n`.
pub open spec fn spec_pow2(n: u8) -> u8 {
    match n {
        0 => 1,
        1 => 2,
        2 => 4,
        3 => 8,
        4 => 0x10,
        5 => 0x20,
        6 => 0x40,
        _ => 0x80,
    }
}

/// Bit `n` of `byte` is set.
pub open spec fn spec_bit(byte: u8, n: u8) -> bool {
    (byte / spec_pow2(n)) % 2 == 1
}

/// Bit `n` alone if `b`, else 0.
pub open spec fn spec_flag(b: bool, n: u8) -> u8 {
    if b {
        spec_pow2(n)
    } else {
        0
    }
}

fn pow2(n: u8) -> (r: u8)
    requires
        n < 8,
    ensures
        r == spec_pow2(n),
{
    match n {
        0 => 1,
        1 => 2,
        2 => 4,
        3 => 8,
        4 => 0x10,
        5 => 0x20,
        6 => 0x40,
        _ => 0x80,
    }
}

fn bit(byte: u8, n: u8) -> (r: bool)
    requires
        n < 8,
    ensures
        r == spec_bit(byte, n),
{
    (byte / pow2(n)) % 2 == 1
}

fn flag(b: bool, n: u8) -> (r: u8)
    requires
        n < 8,
    ensures
        r == spec_flag(b, n),
{
    if b {
        pow2(n)
    } else {
        0
    }
}

/// The low five bits of `bits` as a two's complement number.
pub open spec fn spec_signed5(bits: u8) -> i8 {
    let b = bits % 32;
    if b >= 16 {
        (b - 32) as i8
    } else {
        b as i8
    }
}

/// A 5-bit two's complement number.
fn signed5(bits: u8) -> (r: i8)
    ensures
        r == spec_signed5(bits),
{
    let b = bits % 32;
    if b >= 16 {
        b as i8 - 32
    } else {
        b as i8
    }
}

pub open spec fn spec_background(relative_to_fg: bool, bits: u8) -> Background {
    if !relative_to_fg {
        Background::Height((bits % 32 + 1) as u8)
    } else if bits % 32 == 0x10 {
        Background::Absolute
    } else {
        Background::Offset(spec_signed5(bits))
    }
}

/// `O` and `ooooo` of a background placement, its values clamped to their
/// ranges.
pub open spec fn spec_background_bits(b: Background) -> (bool, u8) {
    match b {
        Background::Height(rows) => (
            false,
            (if rows < 1 {
                0
            } else if rows > 32 {
                31
            } else {
                rows - 1
            }) as u8,
        ),
        Background::Offset(rows) => (
            true,
            ((if rows < -15 {
                -15
            } else if rows > 15 {
                15
            } else {
                rows as int
            }) + 32) as u8 % 32,
        ),
        Background::Absolute => (true, 0x10),
    }
}

impl Background {
    pub fn from_bits(relative_to_fg: bool, bits: u8) -> (r: Self)
        ensures
            r == spec_background(relative_to_fg, bits),
    {
        let n = bits % 32;
        if !relative_to_fg {
            Background::Height(n + 1)
        } else if n == 0x10 {
            Background::Absolute
        } else {
            Background::Offset(signed5(n))
        }
    }

    /// `O` and `ooooo`.
    pub fn to_bits(self) -> (r: (bool, u8))
        ensures
            r == spec_background_bits(self),
    {
        match self {
            Background::Height(rows) => {
                let clamped = if rows < 1 {
                    1
                } else if rows > 32 {
                    32
                } else {
                    rows
                };
                (false, clamped - 1)
            },
            Background::Offset(rows) => {
                let clamped: i8 = if rows < -15 {
                    -15
                } else if rows > 15 {
                    15
                } else {
                    rows
                };
                (true, ((clamped + 32) as u8) % 32)
            },
            Background::Absolute => (true, 0x10),
        }
    }
}

/// The rows a relative camera's offset bits stand for: `F` the sign,
/// then four bits.
pub open spec fn spec_offset_rows(high: bool, low: u8) -> int {
    if high {
        (low % 16) as int - 16
    } else {
        (low % 16) as int
    }
}

/// The bits of an offset, clamped to -16 to 15.
pub open spec fn spec_offset_bits(rows: i8) -> (bool, u8) {
    let c: int = if rows < -16 {
        -16
    } else if rows > 15 {
        15
    } else {
        rows as int
    };
    (c < 0, ((c + 32) % 16) as u8)
}

/// A relative camera's offset in rows (-16 to 15), from its top bit `F`
/// and the four below it, which the entrance's `ff` and `bb` hold.
pub fn offset_rows(high: bool, low: u8) -> (r: i8)
    ensures
        r == spec_offset_rows(high, low),
{
    signed5(flag(high, 4) + low % 16)
}

/// The top bit and the four below it of an offset in rows.
pub fn offset_bits(rows: i8) -> (r: (bool, u8))
    ensures
        r == spec_offset_bits(rows),
{
    let clamped: i8 = if rows < -16 {
        -16
    } else if rows > 15 {
        15
    } else {
        rows
    };
    (clamped < 0, ((clamped + 32) as u8) % 16)
}

/// An offset in range reads back from its bits as itself.
pub proof fn lemma_offset_round_trip(rows: i8)
    requires
        -16 <= rows <= 15,
    ensures
        spec_offset_rows(spec_offset_bits(rows).0, spec_offset_bits(rows).1) == rows,
{
}

/// A background placement in range reads back from its bits as itself.
pub proof fn lemma_background_round_trip(b: Background)
    requires
        match b {
            Background::Height(rows) => 1 <= rows <= 32,
            Background::Offset(rows) => -15 <= rows <= 15,
            Background::Absolute => true,
        },
    ensures
        spec_background(spec_background_bits(b).0, spec_background_bits(b).1) == b,
{
    match b {
        Background::Offset(rows) => {
            let bits = spec_background_bits(b).1;
            assert(bits % 32 != 0x10);
            assert(spec_signed5(bits) == rows);
        },
        _ => {},
    }
}


/// A level's settings in Lunar Magic's per-level tables and midway tables,
/// beyond the game's secondary header, which holds the rest of the main
/// entrance: the low bits of its position, and its `ff` and `bb`, which a
/// relative camera reads as its offset.
#[derive(Clone, Copy, PartialEq, Eq, Debug)]
pub struct LevelSettings {
    pub slippery: bool,
    pub water: bool,
    /// Position method 2, with the X tile's bits 3-4 and the Y tile's
    /// bits 4-9; method 1 takes the position from the game's tables.
    pub tile_position: Option<(u8, u8)>,
    /// Sprites spawn by Lunar Magic's smart rules, in range setting 0 to 3
    /// (Lunar Magic's sprite loader reads them).
    pub smart_spawn: bool,
    pub spawn_range: u8,
    /// Layer 2's vertical scroll setting, apart from its horizontal one.
    pub layer2_vertical_scroll: Option<u8>,
    /// Lunar Magic sets the level's screen count itself.
    pub auto_screens: bool,
    /// The layers are placed relative to the player: layer 1 at the
    /// player's Y plus the offset `F:ff:bb` rows; this is `F`.
    pub relative: Option<bool>,
    pub face_left: bool,
    pub background: Background,
    pub midway: Midway,
}

/// The midway entrance's settings of Lunar Magic's own.
#[derive(Clone, Copy, PartialEq, Eq, Debug, Structural)]
pub struct Midway {
    /// Bit 4 of the midway screen; the game's four are in `$05F400`.
    pub screen_high: bool,
    pub separate: Option<SeparateMidway>,
}

impl Default for Midway {
    fn default() -> (r: Self)
        ensures
            r == (Midway { screen_high: false, separate: None }),
    {
        Midway { screen_high: false, separate: None }
    }
}

/// A midway entrance with settings apart from the main entrance's.
#[derive(Clone, Copy, PartialEq, Eq, Debug, Structural)]
pub enum SeparateMidway {
    Entrance(MidwayEntrance),
    /// Another level's midway entrance.
    Redirect(u16),
}

#[derive(Clone, Copy, PartialEq, Eq, Debug, Structural)]
pub struct MidwayEntrance {
    pub slippery: bool,
    pub water: bool,
    pub action: u8,
    /// Tile position: X 0 to 31, Y 0 to 1023.
    pub x: u8,
    pub y: u16,
    /// The game's initial positions, 0 to 3 each, or with `relative` the
    /// offset `F:ff:bb`.
    pub fg_position: u8,
    pub bg_position: u8,
    /// `F`, for a relative camera.
    pub relative: Option<bool>,
    pub face_left: bool,
}

/// The midway entrance the four midway bytes (`IWHMXAAA`, `yyyyxxxx`,
/// `RLE-ffbb`, `-FYYYYYY`) describe.
pub open spec fn spec_midway(t1: u8, t2: u8, t3: u8, t4: u8) -> Midway {
    Midway {
        screen_high: spec_bit(t1, 4),
        separate: if !spec_bit(t1, 5) {
            None
        } else if spec_bit(t3, 5) {
            Some(SeparateMidway::Redirect(((t3 % 2) * 256 + t2) as u16))
        } else {
            Some(
                SeparateMidway::Entrance(
                    MidwayEntrance {
                        slippery: spec_bit(t1, 7),
                        water: spec_bit(t1, 6),
                        action: t1 % 8,
                        x: (((t1 / 8) % 2) * 16 + t2 % 16) as u8,
                        y: ((t4 % 64) * 16 + t2 / 16) as u16,
                        fg_position: (t3 / 4) % 4,
                        bg_position: t3 % 4,
                        relative: if spec_bit(t3, 7) {
                            Some(spec_bit(t4, 6))
                        } else {
                            None
                        },
                        face_left: spec_bit(t3, 6),
                    },
                ),
            )
        },
    }
}

/// The four midway bytes of a midway entrance.
pub open spec fn spec_midway_bytes(m: Midway) -> Seq<u8> {
    let h: int = if m.screen_high {
        0x10
    } else {
        0
    };
    match m.separate {
        None => seq![h as u8, 0u8, 0u8, 0u8],
        Some(SeparateMidway::Redirect(level)) => seq![
            (0x20 + h) as u8,
            (level % 256) as u8,
            (0x20 + (level / 256) % 2) as u8,
            0u8,
        ],
        Some(SeparateMidway::Entrance(e)) => seq![
            (spec_flag(e.slippery, 7) + spec_flag(e.water, 6) + 0x20 + h + ((e.x / 16) % 2) * 8
                + e.action % 8) as u8,
            ((e.y % 16) * 16 + e.x % 16) as u8,
            (spec_flag(e.relative is Some, 7) + spec_flag(e.face_left, 6) + (e.fg_position % 4) * 4
                + e.bg_position % 4) as u8,
            (spec_flag(e.relative == Some(true), 6) + (e.y / 16) % 64) as u8,
        ],
    }
}

impl Midway {
    pub fn from_bytes(t: [u8; 4]) -> (r: Self)
        ensures
            r == spec_midway(t@[0], t@[1], t@[2], t@[3]),
    {
        let (t1, t2, t3, t4) = (t[0], t[1], t[2], t[3]);
        let separate = if !bit(t1, 5) {
            None
        } else if bit(t3, 5) {
            Some(SeparateMidway::Redirect((t3 % 2) as u16 * 256 + t2 as u16))
        } else {
            let relative = if bit(t3, 7) {
                Some(bit(t4, 6))
            } else {
                None
            };
            Some(
                SeparateMidway::Entrance(
                    MidwayEntrance {
                        slippery: bit(t1, 7),
                        water: bit(t1, 6),
                        action: t1 % 8,
                        x: ((t1 / 8) % 2) * 16 + t2 % 16,
                        y: (t4 % 64) as u16 * 16 + (t2 / 16) as u16,
                        fg_position: (t3 / 4) % 4,
                        bg_position: t3 % 4,
                        relative,
                        face_left: bit(t3, 6),
                    },
                ),
            )
        };
        Midway { screen_high: bit(t1, 4), separate }
    }

    pub fn to_bytes(self) -> (r: [u8; 4])
        ensures
            r@ == spec_midway_bytes(self),
    {
        let m = flag(self.screen_high, 4);
        let r = match self.separate {
            None => [m, 0, 0, 0],
            Some(SeparateMidway::Redirect(level)) => {
                [0x20 + m, (level % 256) as u8, 0x20 + ((level / 256) % 2) as u8, 0]
            },
            Some(SeparateMidway::Entrance(e)) => {
                let (x, action, y, fg, bg) = (e.x, e.action, e.y, e.fg_position, e.bg_position);
                let (s, w) = (flag(e.slippery, 7), flag(e.water, 6));
                let first = s + w + 0x20 + m + ((x / 16) % 2) * 8 + action % 8;
                let second = ((y % 16) as u8) * 16 + x % 16;
                let (r, f) = (flag(e.relative.is_some(), 7), flag(e.face_left, 6));
                let third = r + f + (fg % 4) * 4 + bg % 4;
                let up = flag(e.relative == Some(true), 6);
                let fourth = up + ((y / 16) % 64) as u8;
                [first, second, third, fourth]
            },
        };
        assert(r@ =~= spec_midway_bytes(self));
        r
    }
}


/// The settings the four settings bytes (`IWPXXtTT`, `SHCvvvvv`,
/// `OFYYYYYY`, `RL-ooooo`) and the four midway bytes describe.
pub open spec fn spec_level_settings(de: u8, fa: u8, fc: u8, fe: u8, midway: Seq<u8>) -> LevelSettings {
    LevelSettings {
        slippery: spec_bit(de, 7),
        water: spec_bit(de, 6),
        tile_position: if spec_bit(de, 5) {
            Some(((de / 8) % 4, fc % 64))
        } else {
            None
        },
        smart_spawn: spec_bit(de, 2),
        spawn_range: de % 4,
        layer2_vertical_scroll: if spec_bit(fa, 7) {
            Some(fa % 32)
        } else {
            None
        },
        auto_screens: spec_bit(fa, 5),
        relative: if spec_bit(fe, 7) {
            Some(spec_bit(fc, 6))
        } else {
            None
        },
        face_left: spec_bit(fe, 6),
        background: spec_background(spec_bit(fc, 7), fe),
        midway: spec_midway(midway[0], midway[1], midway[2], midway[3]),
    }
}

/// The four settings bytes of a level's settings.
pub open spec fn spec_level_bytes(s: LevelSettings) -> Seq<u8> {
    let (x_high, y_high) = match s.tile_position {
        Some(p) => p,
        None => (0u8, 0u8),
    };
    let (o, bits) = spec_background_bits(s.background);
    seq![
        (spec_flag(s.slippery, 7) + spec_flag(s.water, 6) + spec_flag(s.tile_position is Some, 5)
            + (x_high % 4) * 8 + spec_flag(s.smart_spawn, 2) + s.spawn_range % 4) as u8,
        ((match s.layer2_vertical_scroll {
            Some(v) => 0x80 + v % 32,
            None => 0int,
        }) + spec_flag(s.auto_screens, 5)) as u8,
        (spec_flag(o, 7) + spec_flag(s.relative == Some(true), 6) + y_high % 64) as u8,
        (spec_flag(s.relative is Some, 7) + spec_flag(s.face_left, 6) + bits) as u8,
    ]
}

impl Default for LevelSettings {
    fn default() -> (r: Self)
        ensures
            r == spec_level_settings(0x00, 0x20, 0x00, 0x1A, seq![0u8, 0u8, 0u8, 0u8]),
    {
        let none = [0, 0, 0, 0];
        let r = LevelSettings::from_bytes(DEFAULT_BYTES, none);
        assert(none@ =~= seq![0u8, 0u8, 0u8, 0u8]);
        r
    }
}

/// The settings Lunar Magic 3 converts a Lunar Magic 2 ROM's `$05DE00`
/// byte and three midway bytes to.
pub open spec fn spec_from_old_bytes(de: u8, midway: Seq<u8>, vertical: bool) -> LevelSettings {
    if vertical {
        spec_level_settings(
            (de - de % 8) as u8,
            0x20,
            0,
            0x1A,
            seq![midway[0], midway[1], midway[2], 0u8],
        )
    } else {
        spec_level_settings(
            (de - de % 8 - ((de / 16) % 2) * 16) as u8,
            0x20,
            (de / 16) % 2,
            0x1A,
            seq![(midway[0] - ((midway[0] / 8) % 2) * 8) as u8, midway[1], midway[2], (midway[0] / 8) % 2],
        )
    }
}

impl LevelSettings {
    /// From the four settings bytes and the midway entrance's four, in
    /// Lunar Magic 3's format.
    pub fn from_bytes(bytes: [u8; 4], midway: [u8; 4]) -> (r: Self)
        ensures
            r == spec_level_settings(bytes@[0], bytes@[1], bytes@[2], bytes@[3], midway@),
    {
        let (de, fa, fc, fe) = (bytes[0], bytes[1], bytes[2], bytes[3]);
        LevelSettings {
            slippery: bit(de, 7),
            water: bit(de, 6),
            tile_position: if bit(de, 5) {
                Some(((de / 8) % 4, fc % 64))
            } else {
                None
            },
            smart_spawn: bit(de, 2),
            spawn_range: de % 4,
            layer2_vertical_scroll: if bit(fa, 7) {
                Some(fa % 32)
            } else {
                None
            },
            auto_screens: bit(fa, 5),
            relative: if bit(fe, 7) {
                Some(bit(fc, 6))
            } else {
                None
            },
            face_left: bit(fe, 6),
            background: Background::from_bits(bit(fc, 7), fe),
            midway: Midway::from_bytes(midway),
        }
    }

    /// The four settings bytes and the midway entrance's four.
    #[verifier::rlimit(60)]
    #[verifier::spinoff_prover]
    pub fn to_bytes(&self) -> (r: ([u8; 4], [u8; 4]))
        ensures
            r.0@ == spec_level_bytes(*self),
            r.1@ == spec_midway_bytes(self.midway),
    {
        let (x_high, y_high) = match self.tile_position {
            Some(p) => p,
            None => (0, 0),
        };
        let (s, w, p, sm) = (
            flag(self.slippery, 7),
            flag(self.water, 6),
            flag(self.tile_position.is_some(), 5),
            flag(self.smart_spawn, 2),
        );
        let range = self.spawn_range;
        let de = s + w + p + (x_high % 4) * 8 + sm + range % 4;
        let scroll: u8 = match self.layer2_vertical_scroll {
            Some(v) => 0x80 + v % 32,
            None => 0,
        };
        let fa = scroll + flag(self.auto_screens, 5);
        let (relative_to_fg, bits) = self.background.to_bits();
        let (o, up) = (flag(relative_to_fg, 7), flag(self.relative == Some(true), 6));
        let fc = o + up + y_high % 64;
        let (r, left) = (flag(self.relative.is_some(), 7), flag(self.face_left, 6));
        let fe = r + left + bits;
        let out = [de, fa, fc, fe];
        assert(out@ =~= spec_level_bytes(*self));
        (out, self.midway.to_bytes())
    }

    /// From a Lunar Magic 2 ROM's `$05DE00` byte (`IWPYX---`) and its three
    /// midway bytes, as Lunar Magic 3 converts them: in a horizontal level
    /// a position's extra Y bit becomes the Y tile's bit 4, in a vertical
    /// one the bit stays, as X's bit 4. The third midway byte is kept whole,
    /// as Lunar Magic 3's MWL export keeps it.
    pub fn from_old_bytes(de: u8, midway: [u8; 3], vertical: bool) -> (r: Self)
        ensures
            r == spec_from_old_bytes(de, midway@, vertical),
    {
        let byte = de;
        let mut de = byte - byte % 8;
        let mut fc: u8 = 0;
        let mut t1 = midway[0];
        let t2 = midway[1];
        let t3 = midway[2];
        let mut t4: u8 = 0;
        if !vertical {
            // The Y bit moves from the settings byte to the Y tile's high
            // bits, and the midway's from its first byte to its fourth.
            fc = (byte / 16) % 2;
            de = de - fc * 16;
            t4 = (t1 / 8) % 2;
            t1 = t1 - t4 * 8;
        }
        let bytes = [de, DEFAULT_BYTES[1], fc, DEFAULT_BYTES[3]];
        let four = [t1, t2, t3, t4];
        assert(bytes@[1] == 0x20 && bytes@[3] == 0x1A && bytes@[0] == de && bytes@[2] == fc);
        assert(four@ =~= seq![t1, t2, t3, t4]);
        LevelSettings::from_bytes(bytes, four)
    }
}

/// A secondary entrance's settings of Lunar Magic's own: in its
/// `$05FE00` byte (`IPXXDAAA`, the action and destination aside) and its
/// two further tables' (`EFYYYYYY`, `RLW-----`).
#[derive(Clone, Copy, PartialEq, Eq, Debug)]
pub struct EntranceSettings {
    pub slippery: bool,
    /// Position method 2, with the X tile's bits 3-4 and the Y tile's
    /// bits 4-9.
    pub tile_position: Option<(u8, u8)>,
    /// The layers relative to the player, by `F:bb:ff` rows; this is `F`.
    pub relative: Option<bool>,
    pub face_left: bool,
    pub water: bool,
    /// An exit to the overworld instead (`E`), whose tables hold other
    /// things (`--ETDAAA` in `$05FE00`): its bytes at `$05FA00`,
    /// `$05FC00`, and `$05FE00`, kept as they are.
    pub overworld: Option<[u8; 3]>,
}

impl Default for EntranceSettings {
    fn default() -> (r: Self)
        ensures
            r == (EntranceSettings {
                slippery: false,
                tile_position: None,
                relative: None,
                face_left: false,
                water: false,
                overworld: None,
            }),
    {
        EntranceSettings {
            slippery: false,
            tile_position: None,
            relative: None,
            face_left: false,
            water: false,
            overworld: None,
        }
    }
}

/// The settings a secondary entrance's bytes at `$05FA00`, `$05FC00`,
/// `$05FE00` and in the two further tables describe.
pub open spec fn spec_entrance_settings(tables: [u8; 3], e5: u8, e6: u8) -> EntranceSettings {
    let fe = tables@[2];
    if spec_bit(e5, 7) {
        EntranceSettings {
            slippery: false,
            tile_position: None,
            relative: None,
            face_left: false,
            water: false,
            overworld: Some(tables),
        }
    } else {
        EntranceSettings {
            slippery: spec_bit(fe, 7),
            tile_position: if spec_bit(fe, 6) {
                Some(((fe / 16) % 4, e5 % 64))
            } else {
                None
            },
            relative: if spec_bit(e6, 7) {
                Some(spec_bit(e5, 6))
            } else {
                None
            },
            face_left: spec_bit(e6, 6),
            water: spec_bit(e6, 5),
            overworld: None,
        }
    }
}

/// Its bits of the `$05FE00` byte, and its two further bytes.
pub open spec fn spec_entrance_bytes(e: EntranceSettings) -> (u8, u8, u8) {
    if e.overworld is Some {
        (0, 0x80, 0)
    } else {
        let (x_high, y_high) = match e.tile_position {
            Some(p) => p,
            None => (0u8, 0u8),
        };
        (
            (spec_flag(e.slippery, 7) + spec_flag(e.tile_position is Some, 6) + (x_high % 4) * 16) as u8,
            (spec_flag(e.relative == Some(true), 6) + y_high % 64) as u8,
            (spec_flag(e.relative is Some, 7) + spec_flag(e.face_left, 6) + spec_flag(e.water, 5)) as u8,
        )
    }
}

impl EntranceSettings {
    /// From the entrance's bytes at `$05FA00`, `$05FC00`, and `$05FE00`
    /// and in the two further tables.
    pub fn from_bytes(tables: [u8; 3], extra: [u8; 2]) -> (r: Self)
        ensures
            r == spec_entrance_settings(tables, extra@[0], extra@[1]),
    {
        let fe = tables[2];
        let (e5, e6) = (extra[0], extra[1]);
        if bit(e5, 7) {
            return EntranceSettings {
                slippery: false,
                tile_position: None,
                relative: None,
                face_left: false,
                water: false,
                overworld: Some(tables),
            };
        }
        EntranceSettings {
            slippery: bit(fe, 7),
            tile_position: if bit(fe, 6) {
                Some(((fe / 16) % 4, e5 % 64))
            } else {
                None
            },
            relative: if bit(e6, 7) {
                Some(bit(e5, 6))
            } else {
                None
            },
            face_left: bit(e6, 6),
            water: bit(e6, 5),
            overworld: None,
        }
    }

    /// Its bits of the `$05FE00` byte, and its two further bytes.
    pub fn to_bytes(self) -> (r: (u8, [u8; 2]))
        ensures
            (r.0, r.1@[0], r.1@[1]) == spec_entrance_bytes(self),
    {
        if self.overworld.is_some() {
            return (0, [0x80, 0]);
        }
        let (x_high, y_high) = match self.tile_position {
            Some(p) => p,
            None => (0, 0),
        };
        let (s, p) = (flag(self.slippery, 7), flag(self.tile_position.is_some(), 6));
        let fe = s + p + (x_high % 4) * 16;
        let e5 = flag(self.relative == Some(true), 6) + y_high % 64;
        let e6 = flag(self.relative.is_some(), 7) + flag(self.face_left, 6) + flag(self.water, 5);
        (fe, [e5, e6])
    }

    /// From a Lunar Magic 2 ROM's `$05FE00` byte (`IPYXDAAA`), as Lunar
    /// Magic 3 converts it: into a horizontal level the extra Y bit becomes
    /// the Y tile's bit 4.
    pub fn from_old_byte(fe: u8, vertical: bool) -> (r: Self)
        ensures
            r == (if vertical {
                spec_entrance_settings([0u8, 0u8, fe], 0, 0)
            } else {
                spec_entrance_settings([0u8, 0u8, (fe - ((fe / 32) % 2) * 32) as u8], (fe / 32) % 2, 0)
            }),
    {
        let (fe, e5) = if vertical {
            (fe, 0)
        } else {
            let e5 = (fe / 32) % 2;
            (fe - e5 * 32, e5)
        };
        EntranceSettings::from_bytes([0, 0, fe], [e5, 0])
    }
}

/// A midway entrance's settings fit its four bytes: a redirect to a level
/// below `0x200`, or an entrance whose action, position and camera fit
/// their bits.
pub open spec fn midway_in_range(m: Midway) -> bool {
    match m.separate {
        None => true,
        Some(SeparateMidway::Redirect(level)) => level < 0x200,
        Some(SeparateMidway::Entrance(e)) => e.action < 8 && e.x < 32 && e.y < 1024
            && e.fg_position < 4 && e.bg_position < 4,
    }
}

/// A field of `w` values `p` up a number: what lies above and below it
/// does not reach it.
proof fn lemma_field(b: int, p: int, w: int, above: int, f: int, below: int)
    requires
        p > 0,
        w > 0,
        0 <= f < w,
        0 <= below < p,
        b == (above * w + f) * p + below,
    ensures
        (b / p) % w == f,
        p == 1 ==> b % w == f,
{
    lemma_fundamental_div_mod_converse(b, p, above * w + f, below);
    lemma_fundamental_div_mod_converse(above * w + f, w, above, f);
}

/// Bit `n` of a byte made of a number above it, the bit, and a number
/// below it.
proof fn lemma_bit(b: u8, n: u8, above: int, f: bool, below: int)
    requires
        n < 8,
        0 <= below < spec_pow2(n),
        b == above * 2 * spec_pow2(n) + spec_flag(f, n) + below,
    ensures
        spec_bit(b, n) == f,
{
    let p = spec_pow2(n) as int;
    let fi: int = if f {
        1
    } else {
        0
    };
    assert(b == (above * 2 + fi) * p + below) by (nonlinear_arith)
        requires
            b == above * 2 * p + fi * p + below,
    ;
    lemma_field(b as int, p, 2, above, fi, below);
}

/// 1 for a set flag, else 0.
pub open spec fn one_if(b: bool) -> int {
    if b {
        1
    } else {
        0
    }
}

/// A midway entrance that fits its bytes reads back from them as itself.
#[verifier::rlimit(60)]
#[verifier::spinoff_prover]
pub proof fn lemma_midway_round_trip(m: Midway)
    requires
        midway_in_range(m),
    ensures
        ({
            let b = spec_midway_bytes(m);
            spec_midway(b[0], b[1], b[2], b[3]) == m
        }),
{
    let b = spec_midway_bytes(m);
    let sh = m.screen_high;
    let h = one_if(sh) * 16;
    match m.separate {
        None => {
            lemma_bit(b[0], 4, 0, sh, 0);
            lemma_bit(b[0], 5, 0, false, h);
        },
        Some(SeparateMidway::Redirect(level)) => {
            let high = (level / 256) % 2;
            lemma_bit(b[0], 4, 1, sh, 0);
            lemma_bit(b[0], 5, 0, true, h);
            lemma_bit(b[2], 5, 0, true, high as int);
            lemma_field(b[2] as int, 1, 2, 16, high as int, 0);
        },
        Some(SeparateMidway::Entrance(e)) => {
            let (sl, wa) = (one_if(e.slippery), one_if(e.water));
            let x4 = (e.x / 16) % 2;
            let a = e.action % 8;
            lemma_bit(b[0], 7, 0, e.slippery, wa * 64 + 32 + h + x4 * 8 + a);
            lemma_bit(b[0], 6, sl, e.water, 32 + h + x4 * 8 + a);
            lemma_bit(b[0], 5, sl * 2 + wa, true, h + x4 * 8 + a);
            lemma_bit(b[0], 4, sl * 4 + wa * 2 + 1, sh, x4 * 8 + a);
            let above8 = sl * 8 + wa * 4 + 2 + one_if(sh);
            lemma_field(b[0] as int, 8, 2, above8, x4 as int, a as int);
            lemma_field(b[0] as int, 1, 8, above8 * 2 + x4, a as int, 0);
            let (y16, x16) = (e.y % 16, e.x % 16);
            lemma_field(b[1] as int, 16, 16, 0, y16 as int, x16 as int);
            lemma_field(b[1] as int, 1, 16, y16 as int, x16 as int, 0);
            let (rl, fl) = (one_if(e.relative is Some), one_if(e.face_left));
            let (fg, bg) = (e.fg_position % 4, e.bg_position % 4);
            lemma_bit(b[2], 7, 0, e.relative is Some, fl * 64 + fg * 4 + bg);
            lemma_bit(b[2], 6, rl, e.face_left, fg * 4 + bg);
            lemma_bit(b[2], 5, rl * 2 + fl, false, fg * 4 + bg);
            lemma_field(b[2] as int, 4, 4, rl * 8 + fl * 4, fg as int, bg as int);
            lemma_field(b[2] as int, 1, 4, rl * 32 + fl * 16 + fg, bg as int, 0);
            let up = e.relative == Some(true);
            let yh = (e.y / 16) % 64;
            lemma_bit(b[3], 6, 0, up, yh as int);
            lemma_field(b[3] as int, 1, 64, one_if(up), yh as int, 0);
            let re = spec_midway(b[0], b[1], b[2], b[3]).separate->0->Entrance_0;
            assert(re.x == e.x);
            assert(re.y == e.y);
            assert(re.relative == e.relative);
        },
    }
}

/// A level's settings fit its bytes: position bits, spawn range, scroll
/// setting, background placement and midway entrance all in range.
pub open spec fn level_settings_in_range(s: LevelSettings) -> bool {
    &&& s.tile_position matches Some((x, y)) ==> x < 4 && y < 64
    &&& s.spawn_range < 4
    &&& s.layer2_vertical_scroll matches Some(v) ==> v < 32
    &&& match s.background {
        Background::Height(rows) => 1 <= rows <= 32,
        Background::Offset(rows) => -15 <= rows <= 15,
        Background::Absolute => true,
    }
    &&& midway_in_range(s.midway)
}

/// A level's settings that fit its bytes read back from them as
/// themselves.
#[verifier::rlimit(40)]
pub proof fn lemma_level_settings_round_trip(s: LevelSettings)
    requires
        level_settings_in_range(s),
    ensures
        ({
            let b = spec_level_bytes(s);
            spec_level_settings(b[0], b[1], b[2], b[3], spec_midway_bytes(s.midway)) == s
        }),
{
    lemma_background_round_trip(s.background);
    lemma_midway_round_trip(s.midway);
    let b = spec_level_bytes(s);
    let (x_high, y_high) = match s.tile_position {
        Some(p) => p,
        None => (0u8, 0u8),
    };
    let (sl, wa, tp) = (
        one_if(s.slippery),
        one_if(s.water),
        one_if(s.tile_position is Some),
    );
    let (xh, sm, r4) = ((x_high % 4) as int, one_if(s.smart_spawn), (s.spawn_range % 4) as int);
    lemma_bit(b[0], 7, 0, s.slippery, wa * 64 + tp * 32 + xh * 8 + sm * 4 + r4);
    lemma_bit(b[0], 6, sl, s.water, tp * 32 + xh * 8 + sm * 4 + r4);
    lemma_bit(b[0], 5, sl * 2 + wa, s.tile_position is Some, xh * 8 + sm * 4 + r4);
    lemma_field(b[0] as int, 8, 4, sl * 4 + wa * 2 + tp, xh, sm * 4 + r4);
    lemma_bit(b[0], 2, sl * 16 + wa * 8 + tp * 4 + xh, s.smart_spawn, r4);
    lemma_field(b[0] as int, 1, 4, sl * 32 + wa * 16 + tp * 8 + xh * 2 + sm, r4, 0);
    let scrolls = s.layer2_vertical_scroll is Some;
    let v32: int = match s.layer2_vertical_scroll {
        Some(v) => (v % 32) as int,
        None => 0,
    };
    let auto = one_if(s.auto_screens);
    lemma_bit(b[1], 7, 0, scrolls, auto * 32 + v32);
    lemma_bit(b[1], 5, one_if(scrolls) * 2, s.auto_screens, v32);
    lemma_field(b[1] as int, 1, 32, one_if(scrolls) * 4 + auto, v32, 0);
    let (o, bits) = spec_background_bits(s.background);
    let up = s.relative == Some(true);
    let yh = (y_high % 64) as int;
    lemma_bit(b[2], 7, 0, o, one_if(up) * 64 + yh);
    lemma_bit(b[2], 6, one_if(o), up, yh);
    lemma_field(b[2] as int, 1, 64, one_if(o) * 2 + one_if(up), yh, 0);
    let (rl, left) = (one_if(s.relative is Some), one_if(s.face_left));
    lemma_bit(b[3], 7, 0, s.relative is Some, left * 64 + bits);
    lemma_bit(b[3], 6, rl, s.face_left, bits as int);
    lemma_field(b[3] as int, 1, 32, rl * 4 + left * 2, bits as int, 0);
    assert(spec_signed5(b[3]) == spec_signed5(bits));
    let r = spec_level_settings(b[0], b[1], b[2], b[3], spec_midway_bytes(s.midway));
    assert(r.slippery == s.slippery);
    assert(r.water == s.water);
    assert(r.tile_position == s.tile_position);
    assert(r.smart_spawn == s.smart_spawn);
    assert(r.spawn_range == s.spawn_range);
    assert(r.layer2_vertical_scroll == s.layer2_vertical_scroll);
    assert(r.auto_screens == s.auto_screens);
    assert(r.relative == s.relative);
    assert(r.face_left == s.face_left);
    assert(r.background == s.background);
    assert(r.midway == s.midway);
}

/// A secondary entrance's settings fit its bytes: not an exit to the
/// overworld, whose tables are kept apart, and with position bits in
/// range.
pub open spec fn entrance_settings_in_range(e: EntranceSettings) -> bool {
    &&& e.overworld is None
    &&& e.tile_position matches Some((x, y)) ==> x < 4 && y < 64
}

/// A secondary entrance's settings that fit its bytes read back from them
/// as themselves, whatever the rest of its `$05FE00` byte holds.
pub proof fn lemma_entrance_settings_round_trip(e: EntranceSettings, low: u8, tables: [u8; 2])
    requires
        entrance_settings_in_range(e),
        low < 16,
    ensures
        ({
            let (fe, e5, e6) = spec_entrance_bytes(e);
            spec_entrance_settings([tables[0], tables[1], (fe + low) as u8], e5, e6) == e
        }),
{
    let (fe, e5, e6) = spec_entrance_bytes(e);
    let byte = (fe + low) as u8;
    let (x_high, y_high) = match e.tile_position {
        Some(p) => p,
        None => (0u8, 0u8),
    };
    let (sl, tp) = (one_if(e.slippery), one_if(e.tile_position is Some));
    let xh = (x_high % 4) as int;
    lemma_bit(byte, 7, 0, e.slippery, tp * 64 + xh * 16 + low);
    lemma_bit(byte, 6, sl, e.tile_position is Some, xh * 16 + low);
    lemma_field(byte as int, 16, 4, sl * 2 + tp, xh, low as int);
    let up = e.relative == Some(true);
    let yh = (y_high % 64) as int;
    lemma_bit(e5, 7, 0, false, one_if(up) * 64 + yh);
    lemma_bit(e5, 6, 0, up, yh);
    lemma_field(e5 as int, 1, 64, one_if(up), yh, 0);
    let (rl, left, wa) = (one_if(e.relative is Some), one_if(e.face_left), one_if(e.water));
    lemma_bit(e6, 7, 0, e.relative is Some, left * 64 + wa * 32);
    lemma_bit(e6, 6, rl, e.face_left, wa * 32);
    lemma_bit(e6, 5, rl * 2 + left, e.water, 0);
    let tables3 = [tables[0], tables[1], byte];
    assert(tables3@[2] == byte);
    let r = spec_entrance_settings(tables3, e5, e6);
    assert(r.slippery == e.slippery);
    assert(r.tile_position == e.tile_position);
    assert(r.relative == e.relative);
    assert(r.face_left == e.face_left);
    assert(r.water == e.water);
    assert(r.overworld == e.overworld);
}

/// Which of Lunar Magic's entrance tables a ROM has, and in which format.
#[derive(Clone, Copy, PartialEq, Eq, Debug)]
pub struct Layout {
    /// `$05DE00` in Lunar Magic 3's format (and `$06FC00`, `$06FE00`),
    /// or 2's (`IWPYX---`), or none.
    pub settings: Option<Version>,
    /// `$06FA00`, from Lunar Magic 3.40 on.
    pub scroll: bool,
    /// The midway tables.
    pub midway: Option<SnesAddr>,
    /// The two further secondary entrance tables.
    pub extra: Option<[SnesAddr; 2]>,
}

#[derive(Clone, Copy, PartialEq, Eq, Debug, Structural)]
pub enum Version {
    Old,
    Three,
}


// --- Reading the tables ------------------------------------------------

/// `table + index`, as a 24-bit address.
pub open spec fn at_index(table: u32, index: int) -> u32 {
    ((table + index) % 0x100_0000) as u32
}

/// The byte the image holds at `addr`, where it holds one.
pub open spec fn byte_at(mapping: Mapping, data: Seq<u8>, addr: u32) -> u8 {
    match spec_read(mapping, data, addr, 1) {
        Some(b) => b[0],
        None => 0,
    }
}

/// The first of `addrs` that the image holds no byte at.
pub open spec fn first_unreadable(mapping: Mapping, data: Seq<u8>, addrs: Seq<u32>) -> Option<u32>
    decreases addrs.len(),
{
    if addrs.len() == 0 {
        None
    } else if spec_read(mapping, data, addrs[0], 1) is None {
        Some(addrs[0])
    } else {
        first_unreadable(mapping, data, addrs.drop_first())
    }
}

/// The first `n` midway bytes of `level`, where the ROM has midway tables.
pub open spec fn midway_reads(layout: Layout, level: int, n: int) -> Seq<u32> {
    match layout.midway {
        Some(at) => Seq::new(n as nat, |k: int| at_index(at@, k * 0x200 + level)),
        None => Seq::empty(),
    }
}

/// The bytes a level's settings are read from, in the order they are read.
pub open spec fn level_reads(layout: Layout, level: int) -> Seq<u32> {
    match layout.settings {
        None => Seq::empty(),
        Some(Version::Old) => seq![at_index(0x05DE00, level)] + midway_reads(layout, level, 3),
        Some(Version::Three) => seq![
            at_index(0x05DE00, level),
            at_index(0x06FA00, level),
            at_index(0x06FC00, level),
            at_index(0x06FE00, level),
        ] + midway_reads(layout, level, 4),
    }
}

/// A level's settings as the bytes the image holds give them.
pub open spec fn spec_level_from_rom(
    mapping: Mapping,
    data: Seq<u8>,
    layout: Layout,
    level: int,
    vertical: bool,
) -> LevelSettings {
    let b = |table: u32| byte_at(mapping, data, at_index(table, level));
    let mid = |n: int|
        match layout.midway {
            Some(at) => byte_at(mapping, data, at_index(at@, n * 0x200 + level)),
            None => 0u8,
        };
    match layout.settings {
        None => spec_level_settings(0x00, 0x20, 0x00, 0x1A, seq![0u8, 0u8, 0u8, 0u8]),
        Some(Version::Old) => spec_from_old_bytes(b(0x05DE00), seq![mid(0), mid(1), mid(2)], vertical),
        Some(Version::Three) => spec_level_settings(
            b(0x05DE00),
            if layout.scroll {
                b(0x06FA00)
            } else {
                0x20
            },
            b(0x06FC00),
            b(0x06FE00),
            seq![mid(0), mid(1), mid(2), mid(3)],
        ),
    }
}

/// The bytes a secondary entrance's settings are read from, in the order
/// they are read.
pub open spec fn entrance_reads(layout: Layout, id: int) -> Seq<u32> {
    match layout.settings {
        Some(Version::Three) => (match layout.extra {
            Some(t) => if id < tables::ENTRANCE_EXTRA_LEN {
                seq![at_index(t[0]@, id), at_index(t[1]@, id)]
            } else {
                Seq::empty()
            },
            None => Seq::empty(),
        }) + seq![at_index(0x05FA00, id), at_index(0x05FC00, id)],
        _ => Seq::empty(),
    }
}

/// A secondary entrance's settings as the bytes the image holds give them.
pub open spec fn spec_entrance_from_rom(
    mapping: Mapping,
    data: Seq<u8>,
    layout: Layout,
    id: int,
    fe: u8,
    vertical: bool,
) -> EntranceSettings {
    match layout.settings {
        Some(Version::Three) => {
            let extra = |k: int|
                match layout.extra {
                    Some(t) => if id < tables::ENTRANCE_EXTRA_LEN {
                        byte_at(mapping, data, at_index(t[k]@, id))
                    } else {
                        0u8
                    },
                    None => 0u8,
                };
            spec_entrance_settings(
                [
                    byte_at(mapping, data, at_index(0x05FA00, id)),
                    byte_at(mapping, data, at_index(0x05FC00, id)),
                    fe,
                ],
                extra(0),
                extra(1),
            )
        },
        Some(Version::Old) => if vertical {
            spec_entrance_settings([0u8, 0u8, fe], 0, 0)
        } else {
            spec_entrance_settings([0u8, 0u8, (fe - ((fe / 32) % 2) * 32) as u8], (fe / 32) % 2, 0)
        },
        None => spec_entrance_settings([0u8, 0u8, 0u8], 0, 0),
    }
}

/// Past a readable prefix, the first unreadable address is the first in
/// the rest.
proof fn lemma_first_unreadable_skip(mapping: Mapping, data: Seq<u8>, addrs: Seq<u32>, k: int)
    requires
        0 <= k <= addrs.len(),
        forall|j: int| 0 <= j < k ==> spec_read(mapping, data, #[trigger] addrs[j], 1) is Some,
    ensures
        first_unreadable(mapping, data, addrs) == first_unreadable(mapping, data, addrs.skip(k)),
    decreases k,
{
    if k == 0 {
        assert(addrs.skip(0) =~= addrs);
    } else {
        let rest = addrs.drop_first();
        assert forall|j: int| 0 <= j < k - 1 implies spec_read(mapping, data, #[trigger] rest[j], 1) is Some by {
            assert(rest[j] == addrs[j + 1]);
        }
        assert(spec_read(mapping, data, addrs[0], 1) is Some);
        lemma_first_unreadable_skip(mapping, data, rest, k - 1);
        assert(rest.skip(k - 1) =~= addrs.skip(k));
    }
}

/// The bytes at `addrs`, read one after another: all of them, or the
/// error of the first that cannot be read.
fn read_each(rom: &RomImage, addrs: &Vec<SnesAddr>) -> (r: Result<Vec<u8>, ReadError>)
    ensures
        ({
            let va = Seq::new(addrs@.len(), |k: int| addrs@[k]@);
            match r {
                Ok(bytes) => first_unreadable(rom.mapping, rom.data@, va) is None && bytes@.len()
                    == va.len() && forall|k: int|
                    0 <= k < va.len() ==> #[trigger] bytes@[k] == byte_at(rom.mapping, rom.data@, va[k]),
                Err(e) => first_unreadable(rom.mapping, rom.data@, va) matches Some(a) && read_error(
                    rom.mapping,
                    rom.data@,
                    a,
                    1,
                    e,
                ),
            }
        }),
{
    let ghost va = Seq::new(addrs@.len(), |k: int| addrs@[k]@);
    let ghost m = rom.mapping;
    let ghost d = rom.data@;
    let mut bytes: Vec<u8> = Vec::new();
    let mut k: usize = 0;
    while k < addrs.len()
        invariant
            k <= addrs@.len(),
            va == Seq::new(addrs@.len(), |k: int| addrs@[k]@),
            m == rom.mapping,
            d == rom.data@,
            bytes@.len() == k,
            forall|j: int| 0 <= j < k ==> spec_read(m, d, #[trigger] va[j], 1) is Some,
            forall|j: int| 0 <= j < k ==> #[trigger] bytes@[j] == byte_at(m, d, va[j]),
        decreases addrs@.len() - k,
    {
        match rom.read_u8(addrs[k]) {
            Ok(b) => {
                bytes.push(b);
            },
            Err(e) => {
                proof {
                    lemma_first_unreadable_skip(m, d, va, k as int);
                    assert(va.skip(k as int)[0] == va[k as int]);
                }
                return Err(e);
            },
        }
        k = k + 1;
    }
    proof {
        lemma_first_unreadable_skip(m, d, va, k as int);
        assert(va.skip(k as int) =~= Seq::<u32>::empty());
    }
    Ok(bytes)
}

/// The address `index` bytes into the table at `table`.
fn table_entry(table: u32, index: u32) -> (r: SnesAddr)
    ensures
        r@ == at_index(table, index as int),
{
    SnesAddr::new(table).add(index)
}

/// A level's settings as the ROM holds them, converted to Lunar Magic 3's
/// layout; the defaults where it has none. The error is the first byte
/// that cannot be read.
pub fn read_level_settings(rom: &RomImage, layout: &Layout, level: u16, vertical: bool) -> (r:
    Result<LevelSettings, ReadError>)
    ensures
        match r {
            Ok(s) => first_unreadable(rom.mapping, rom.data@, level_reads(*layout, level as int))
                is None && s == spec_level_from_rom(rom.mapping, rom.data@, *layout, level as int, vertical),
            Err(e) => first_unreadable(rom.mapping, rom.data@, level_reads(*layout, level as int))
                matches Some(a) && read_error(rom.mapping, rom.data@, a, 1, e),
        },
{
    let count: usize = match layout.settings {
        None => {
            return Ok(LevelSettings::default());
        },
        Some(Version::Old) => 1,
        Some(Version::Three) => 4,
    };
    let mut addrs: Vec<SnesAddr> = Vec::new();
    let mut t: usize = 0;
    while t < count
        invariant
            t <= count,
            count == 1 || count == 4,
            addrs@.len() == t,
            forall|j: int| 0 <= j < t ==> #[trigger] addrs@[j]@ == at_index(tables::SETTINGS[j], level as int),
        decreases count - t,
    {
        addrs.push(table_entry(tables::SETTINGS[t], level as u32));
        t = t + 1;
    }
    let n: u32 = if count == 1 { 3 } else { 4 };
    if let Some(at) = layout.midway {
        let mut k: u32 = 0;
        while k < n
            invariant
                k <= n,
                n == 3 || n == 4,
                addrs@.len() == count + k,
                forall|j: int| 0 <= j < count ==> #[trigger] addrs@[j]@ == at_index(tables::SETTINGS[j], level as int),
                forall|j: int| 0 <= j < k ==> #[trigger] addrs@[count + j]@ == at_index(at@, j * 0x200 + level),
            decreases n - k,
        {
            addrs.push(at.add(k * 0x200 + level as u32));
            k = k + 1;
        }
    }
    let ghost va = Seq::new(addrs@.len(), |j: int| addrs@[j]@);
    proof {
        assert(tables::SETTINGS[0] == 0x05DE00 && tables::SETTINGS[1] == 0x06FA00);
        assert(tables::SETTINGS[2] == 0x06FC00 && tables::SETTINGS[3] == 0x06FE00);
        let lr = level_reads(*layout, level as int);
        assert(va.len() == lr.len());
        assert forall|j: int| 0 <= j < va.len() implies va[j] == lr[j] by {
            if j < count {
                assert(addrs@[j]@ == at_index(tables::SETTINGS[j], level as int));
            } else {
                let k = j - count;
                assert(addrs@[count + k]@ == at_index(layout.midway->0@, k * 0x200 + level));
            }
        }
        assert(va =~= lr);
    }
    let bytes = read_each(rom, &addrs)?;
    let mid = |j: usize| -> (b: u8)
        requires
            j < n,
        ensures
            b == (match layout.midway {
                Some(at) => byte_at(rom.mapping, rom.data@, at_index(at@, j * 0x200 + level)),
                None => 0u8,
            }),
        {
            if layout.midway.is_some() {
                bytes[count + j]
            } else {
                0
            }
        };
    if count == 1 {
        Ok(LevelSettings::from_old_bytes(bytes[0], [mid(0), mid(1), mid(2)], vertical))
    } else {
        let fa = if layout.scroll {
            bytes[1]
        } else {
            DEFAULT_BYTES[1]
        };
        Ok(LevelSettings::from_bytes([bytes[0], fa, bytes[2], bytes[3]], [mid(0), mid(1), mid(2), mid(3)]))
    }
}


/// A secondary entrance's settings as the ROM holds them, from its
/// `$05FE00` byte; `vertical` is its destination's orientation. The error
/// is the first byte that cannot be read.
pub fn read_entrance_settings(rom: &RomImage, layout: &Layout, id: u16, fe: u8, vertical: bool) -> (r:
    Result<EntranceSettings, ReadError>)
    ensures
        match r {
            Ok(s) => first_unreadable(rom.mapping, rom.data@, entrance_reads(*layout, id as int))
                is None && s == spec_entrance_from_rom(rom.mapping, rom.data@, *layout, id as int, fe, vertical),
            Err(e) => first_unreadable(rom.mapping, rom.data@, entrance_reads(*layout, id as int))
                matches Some(a) && read_error(rom.mapping, rom.data@, a, 1, e),
        },
{
    match layout.settings {
        Some(Version::Three) => {
            let mut addrs: Vec<SnesAddr> = Vec::new();
            let extra = match layout.extra {
                Some(_) => (id as usize) < tables::ENTRANCE_EXTRA_LEN,
                None => false,
            };
            if let Some(t) = layout.extra {
                if (id as usize) < tables::ENTRANCE_EXTRA_LEN {
                    addrs.push(t[0].add(id as u32));
                    addrs.push(t[1].add(id as u32));
                }
            }
            let first = addrs.len();
            addrs.push(table_entry(tables::ENTRANCE_BYTES[0], id as u32));
            addrs.push(table_entry(tables::ENTRANCE_BYTES[1], id as u32));
            let ghost va = Seq::new(addrs@.len(), |j: int| addrs@[j]@);
            proof {
                assert(tables::ENTRANCE_BYTES[0] == 0x05FA00 && tables::ENTRANCE_BYTES[1] == 0x05FC00);
                assert(va =~= entrance_reads(*layout, id as int));
            }
            let bytes = read_each(rom, &addrs)?;
            let (e5, e6) = if extra {
                (bytes[0], bytes[1])
            } else {
                (0, 0)
            };
            Ok(EntranceSettings::from_bytes([bytes[first], bytes[first + 1], fe], [e5, e6]))
        },
        Some(Version::Old) => Ok(EntranceSettings::from_old_byte(fe, vertical)),
        None => Ok(EntranceSettings::default()),
    }
}

} // verus!
