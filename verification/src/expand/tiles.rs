//! A loaded level's tile grid: the two byte planes the game expands its
//! objects into, where layer 2's objects sit in them, and the layer 2
//! background tilemap some levels use instead.
//!
//! Horizontal levels store each screen as 16 columns by `rows` rows,
//! screen after screen. Vertical levels are 32 tiles wide; each screen is
//! 16 rows stored as a left half and a right half of 16 by 16 tiles.

use vstd::prelude::*;

use super::diagnostics::Diagnostic;

verus! {

/// Bytes per plane of the tile grid.
pub const GRID_LEN: usize = 0x3800;

pub const SCREEN_ROWS: usize = 27;

pub const SCREEN_COLS: usize = 16;

/// Bytes per plane of the layer 2 background tilemap buffer.
pub const LAYER2_TILEMAP_LEN: usize = 0x400;

/// The first and last of the vertical pipe tiles whose definition the
/// game picks by position, how many there are, and how many alternatives
/// the game's table offers.
pub const PIPE_FIRST: u16 = 0x133;

pub const PIPE_LAST: u16 = 0x13A;

pub const PIPE_TILE_COUNT: usize = 8;

pub const PIPE_VARIANTS: usize = 4;

/// Lunar Magic 3's level sizes: the height in pixels of each horizontal
/// level mode and how many screens of it fit the tile planes. Mode 0 is
/// the vanilla layout.
pub const LEVEL_SIZES: [(u16, usize); 32] = [
    (0x01B0, 0x20),
    (0x01C0, 0x20),
    (0x01D0, 0x1E),
    (0x0200, 0x1C),
    (0x0220, 0x1A),
    (0x0250, 0x18),
    (0x0260, 0x17),
    (0x0280, 0x16),
    (0x02A0, 0x15),
    (0x02C0, 0x14),
    (0x02F0, 0x13),
    (0x0310, 0x12),
    (0x0340, 0x11),
    (0x0380, 0x10),
    (0x03B0, 0x0F),
    (0x0400, 0x0E),
    (0x0440, 0x0D),
    (0x04A0, 0x0C),
    (0x0510, 0x0B),
    (0x0590, 0x0A),
    (0x0630, 0x09),
    (0x0700, 0x08),
    (0x0800, 0x07),
    (0x0950, 0x06),
    (0x0B30, 0x05),
    (0x0E00, 0x04),
    (0x12A0, 0x03),
    (0x1C00, 0x02),
    (0x3800, 0x01),
    (0x0100, 0x38),
    (0x00F0, 0x3B),
    (0x00E0, 0x40),
];

/// The screens of the first size from entry `i` on whose height is
/// `height` pixels.
pub open spec fn screens_from(height: int, i: int) -> Option<usize>
    decreases 32 - i,
{
    if i < 0 || i >= 32 {
        None
    } else if LEVEL_SIZES@[i].0 as int == height {
        Some(LEVEL_SIZES@[i].1)
    } else {
        screens_from(height, i + 1)
    }
}

/// Screens of a horizontal level of `rows` tile rows that fit the planes,
/// per [`LEVEL_SIZES`]; `None` for a height Lunar Magic does not define.
pub open spec fn spec_max_screens(rows: int) -> Option<usize> {
    screens_from(rows * 16, 0)
}

pub fn max_screens(rows: usize) -> (r: Option<usize>)
    ensures
        r == spec_max_screens(rows as int),
{
    // No size is taller than the planes hold.
    if rows > GRID_LEN / 16 {
        proof {
            lemma_no_taller(rows as int * 16, 0);
        }
        return None;
    }
    let height = rows * 16;
    let mut i: usize = 0;
    while i < 32
        invariant
            i <= 32,
            height == rows * 16,
            screens_from(height as int, 0) == screens_from(height as int, i as int),
        decreases 32 - i,
    {
        let (h, screens) = LEVEL_SIZES[i];
        if h as usize == height {
            return Some(screens);
        }
        i = i + 1;
    }
    None
}

/// No size from entry `i` on is taller than the planes.
proof fn lemma_no_taller(height: int, i: int)
    requires
        height > 0x3800,
        0 <= i <= 32,
    ensures
        screens_from(height, i) is None,
    decreases 32 - i,
{
    if i < 32 {
        assert(LEVEL_SIZES@[i].0 <= 0x3800);
        lemma_no_taller(height, i + 1);
    }
}

/// Where a level keeps its layer 2 objects in the tile grid. The layout
/// is independent of layer 1's: modes 3 and 4 pair a vertical layer 1
/// with a horizontal layer 2, and modes 5 and 6 the reverse.
#[derive(Clone, Copy, PartialEq, Eq, Debug, Structural)]
pub enum Layer2Objects {
    /// Horizontal screens of 16 by `rows` tiles from plane offset `base`.
    /// A level with layer 2 objects splits the screens its height allows
    /// between the layers: layer 1 takes the first half (rounded up) and
    /// layer 2 the rest, starting right after.
    Horizontal { base: usize, rows: usize, screens: usize },
    /// 14 screens of 32x16 tiles (left and right halves) from `0x1C00`.
    Vertical,
}

/// The level modes that upload horizontal layer 2 objects, and those that
/// upload vertical ones.
pub open spec fn horizontal_layer2_mode(mode: u8) -> bool {
    (0x01 <= mode <= 0x04) || mode == 0x0F || mode == 0x1F
}

pub open spec fn vertical_layer2_mode(mode: u8) -> bool {
    0x05 <= mode <= 0x08
}

/// The layout for a level mode and layer 1 row count.
pub open spec fn spec_for_level(mode: u8, rows: int) -> Option<Layer2Objects> {
    if horizontal_layer2_mode(mode) {
        match spec_max_screens(rows) {
            Some(total) => {
                let layer1 = (total + 1) / 2;
                Some(
                    Layer2Objects::Horizontal {
                        base: (layer1 * rows * 16) as usize,
                        rows: rows as usize,
                        screens: (total - layer1) as usize,
                    },
                )
            },
            None => None,
        }
    } else if vertical_layer2_mode(mode) {
        Some(Layer2Objects::Vertical)
    } else {
        None
    }
}

impl Layer2Objects {
    /// Every horizontal layout's screens fit the planes' address range.
    pub open spec fn fits(self) -> bool {
        match self {
            Layer2Objects::Horizontal { base, rows, screens } => base + screens * rows * 16
                <= usize::MAX,
            Layer2Objects::Vertical => true,
        }
    }

    /// Plane offset of a level-wide tile position, or `None` outside the
    /// layout.
    pub open spec fn spec_offset(self, x: int, y: int) -> Option<int> {
        match self {
            Layer2Objects::Horizontal { base, rows, screens } => if x / 16 < screens && y < rows {
                Some(base + (x / 16) * rows * 16 + y * 16 + x % 16)
            } else {
                None
            },
            Layer2Objects::Vertical => if x < 32 && y / 16 < 14 {
                Some(0x1C00 + (y / 16) * 0x200 + (x / 16) * 0x100 + (y % 16) * 16 + x % 16)
            } else {
                None
            },
        }
    }

    /// The layout for a level mode and layer 1 row count, or `None` when
    /// the mode uploads no layer 2 objects (background tilemap modes and
    /// boss arenas) or the height is unknown.
    pub fn for_level(mode: u8, rows: usize) -> (r: Option<Self>)
        ensures
            r == spec_for_level(mode, rows as int),
            r matches Some(l) ==> l.fits(),
    {
        if (0x01 <= mode && mode <= 0x04) || mode == 0x0F || mode == 0x1F {
            match max_screens(rows) {
                Some(total) => {
                    proof {
                        lemma_sizes_bounded(rows as int);
                    }
                    let layer1 = (total + 1) / 2;
                    assert(layer1 * rows * 16 + (total - layer1) * rows * 16 <= 0x40 * 0x380 * 16)
                        by (nonlinear_arith)
                        requires
                            0 <= layer1 <= total <= 0x40,
                            rows <= 0x380,
                    ;
                    let base = layer1 * rows * SCREEN_COLS;
                    Some(Self::Horizontal { base, rows, screens: total - layer1 })
                },
                None => None,
            }
        } else if 0x05 <= mode && mode <= 0x08 {
            Some(Self::Vertical)
        } else {
            None
        }
    }

    /// The vanilla layout for a level mode: that of a 27-row level.
    pub fn for_level_mode(mode: u8) -> (r: Option<Self>)
        ensures
            r == spec_for_level(mode, SCREEN_ROWS as int),
    {
        Self::for_level(mode, SCREEN_ROWS)
    }

    /// Plane offset of a level-wide tile position, or `None` outside the
    /// buffer.
    pub fn offset(self, x: usize, y: usize) -> (r: Option<usize>)
        requires
            self.fits(),
        ensures
            r matches Some(i) ==> self.spec_offset(x as int, y as int) == Some(i as int),
            r is None ==> self.spec_offset(x as int, y as int) is None,
    {
        match self {
            Self::Horizontal { base, rows, screens } => {
                let screen = x / SCREEN_COLS;
                if screen < screens && y < rows {
                    assert(screen * rows * 16 + y * 16 + 15 <= screens * rows * 16) by (
                    nonlinear_arith)
                        requires
                            screen < screens,
                            y < rows,
                    ;
                    Some(base + screen * rows * SCREEN_COLS + y * SCREEN_COLS + x % SCREEN_COLS)
                } else {
                    None
                }
            },
            Self::Vertical => {
                if x < 32 && y / 16 < 14 {
                    Some(0x1C00 + (y / 16) * 0x200 + (x / 16) * 0x100 + (y % 16) * 16 + x % 16)
                } else {
                    None
                }
            },
        }
    }
}

/// Every size's screens fit the planes: its height in bytes per screen
/// times its screen count is at most [`GRID_LEN`].
pub proof fn lemma_level_sizes_fit()
    ensures
        forall|i: int|
            0 <= i < 32 ==> (#[trigger] LEVEL_SIZES@[i]).0 as int * LEVEL_SIZES@[i].1 as int
                <= GRID_LEN,
{
    assert forall|i: int| 0 <= i < 32 implies (#[trigger] LEVEL_SIZES@[i]).0 as int
        * LEVEL_SIZES@[i].1 as int <= GRID_LEN by {
        let (h, n) = LEVEL_SIZES@[i];
        if i < 8 {
            assert(i == 0 || i == 1 || i == 2 || i == 3 || i == 4 || i == 5 || i == 6 || i == 7);
        } else if i < 16 {
            assert(i == 8 || i == 9 || i == 10 || i == 11 || i == 12 || i == 13 || i == 14 || i == 15);
        } else if i < 24 {
            assert(i == 16 || i == 17 || i == 18 || i == 19 || i == 20 || i == 21 || i == 22 || i == 23);
        } else {
            assert(i == 24 || i == 25 || i == 26 || i == 27 || i == 28 || i == 29 || i == 30 || i == 31);
        }
    }
}

/// A size found from entry `i` on is an entry of the table.
proof fn lemma_screens_from_entry(height: int, i: int)
    requires
        0 <= i <= 32,
    ensures
        screens_from(height, i) matches Some(t) ==> exists|k: int|
            i <= k < 32 && (#[trigger] LEVEL_SIZES@[k]).0 == height && LEVEL_SIZES@[k].1 == t,
    decreases 32 - i,
{
    if i < 32 {
        lemma_screens_from_entry(height, i + 1);
        if LEVEL_SIZES@[i].0 as int == height {
            assert(LEVEL_SIZES@[i].0 == height);
        }
    }
}

/// Every position a level's layer 2 object layout gives lies inside the
/// tile planes.
pub proof fn lemma_layer2_offsets_in_planes(mode: u8, rows: int, x: int, y: int)
    requires
        0 <= x,
        0 <= y,
    ensures
        spec_for_level(mode, rows) matches Some(l) ==> (l.spec_offset(x, y) matches Some(i) ==> 0
            <= i < GRID_LEN),
{
    if spec_for_level(mode, rows) is Some {
        let l = spec_for_level(mode, rows)->0;
        match l {
            Layer2Objects::Horizontal { base, rows: r, screens } => {
                let total = spec_max_screens(rows)->0;
                lemma_sizes_bounded(rows);
                lemma_screens_from_entry(rows * 16, 0);
                lemma_level_sizes_fit();
                let k = choose|k: int|
                    0 <= k < 32 && (#[trigger] LEVEL_SIZES@[k]).0 == rows * 16
                        && LEVEL_SIZES@[k].1 == total;
                assert(LEVEL_SIZES@[k].0 as int * LEVEL_SIZES@[k].1 as int <= GRID_LEN);
                let layer1 = (total + 1) / 2;
                assert(0 <= layer1 * rows * 16 <= 0x40 * 0x380 * 16) by (nonlinear_arith)
                    requires
                        0 <= layer1 <= 0x40,
                        0 <= rows <= 0x380,
                ;
                assert(base == layer1 * rows * 16);
                assert(screens == total - layer1);
                if x / 16 < screens && y < r {
                    assert(base + (x / 16) * rows * 16 + y * 16 + x % 16 < total * (rows * 16)) by (
                    nonlinear_arith)
                        requires
                            base == layer1 * rows * 16,
                            screens == total - layer1,
                            0 <= x / 16 < screens,
                            0 <= y < rows,
                            0 <= x % 16 < 16,
                            0 <= layer1,
                    ;
                    assert(total * (rows * 16) == LEVEL_SIZES@[k].0 as int * LEVEL_SIZES@[k].1 as int)
                        by (nonlinear_arith)
                        requires
                            LEVEL_SIZES@[k].0 == rows * 16,
                            LEVEL_SIZES@[k].1 == total,
                    ;
                    assert(0 <= base + (x / 16) * rows * 16 + y * 16 + x % 16) by (nonlinear_arith)
                        requires
                            base >= 0,
                            x >= 0,
                            y >= 0,
                            rows >= 0,
                    ;
                }
            },
            Layer2Objects::Vertical => {},
        }
    }
}

/// A defined height is at most the planes' length in rows, and has at
/// most 64 screens.
pub proof fn lemma_sizes_bounded(rows: int)
    ensures
        spec_max_screens(rows) matches Some(total) ==> 0 < rows <= 0x380 && 0 < total <= 0x40,
{
    lemma_sizes_bounded_from(rows * 16, 0);
}

proof fn lemma_sizes_bounded_from(height: int, i: int)
    requires
        0 <= i <= 32,
    ensures
        screens_from(height, i) matches Some(total) ==> 0 < height <= 0x3800 && 0 < total <= 0x40,
    decreases 32 - i,
{
    if i < 32 {
        assert(0 < LEVEL_SIZES@[i].0 <= 0x3800 && 0 < LEVEL_SIZES@[i].1 <= 0x40);
        lemma_sizes_bounded_from(height, i + 1);
    }
}

/// A level's expanded tile grid, and what level preparation left for
/// layer 2 beside it.
#[derive(Clone, PartialEq, Eq, Debug)]
pub struct LevelTiles {
    pub level: u16,
    /// Level mode as the game stored it.
    pub level_mode: u8,
    /// Object tileset as the game stored it. Tileset 3 shifts layer 2
    /// object palettes up by four rows on upload.
    pub object_tileset: u8,
    /// True for vertical levels.
    pub vertical: bool,
    pub screens: usize,
    /// Rows per screen of the layer 1 grid: 27 for horizontal levels, 16
    /// for vertical ones, or the height Lunar Magic 3's expanded level
    /// format gave a horizontal level. Screens follow one another in the
    /// planes with a stride of `rows * 16`.
    pub rows: usize,
    pub low: Vec<u8>,
    pub high: Vec<u8>,
    /// Layer 1 position the level was entered at and the layer 2 position
    /// the first camera update derived for it. The two differ when the
    /// level's layer 2 scroll settings offset or slow the layer.
    pub camera: [u16; 2],
    pub layer2_position: [u16; 2],
    /// Layer 2 background tilemap planes, when the level uses a pre-built
    /// background instead of layer 2 objects.
    pub layer2_tilemap: Option<(Vec<u8>, Vec<u8>)>,
    /// Bytes per screen of the background planes: `0x1B0` (16x27,
    /// vanilla) or `0x200` (16x32, Lunar Magic's taller backgrounds).
    pub layer2_screen_len: usize,
    /// What went wrong without stopping the level from loading.
    pub diagnostics: Vec<Diagnostic>,
}

/// The tile number two plane bytes make.
pub open spec fn tile_number(low: u8, high: u8) -> u16 {
    (low + high * 256) as u16
}

fn tile_of(low: u8, high: u8) -> (r: u16)
    ensures
        r == tile_number(low, high),
{
    low as u16 + high as u16 * 256
}

impl LevelTiles {
    /// Bytes per screen in the layer 1 planes.
    pub open spec fn spec_screen_len(&self) -> int {
        if self.vertical {
            0x200
        } else {
            self.rows * 16
        }
    }

    /// Buffer offset of a level-wide tile position.
    pub open spec fn spec_offset(&self, x: int, y: int) -> int {
        if self.vertical {
            (y / 16) * 0x200 + (x / 16) * 0x100 + (y % 16) * 16 + x % 16
        } else {
            (x / 16) * self.spec_screen_len() + y * 16 + x % 16
        }
    }

    /// The tile number at plane offset `i`.
    pub open spec fn tile_at_offset(&self, i: int) -> u16 {
        tile_number(self.low@[i], self.high@[i])
    }

    /// Both planes hold offset `i`.
    pub open spec fn holds(&self, i: int) -> bool {
        0 <= i < self.low@.len() && i < self.high@.len()
    }

    /// How the level's layer 2 objects are laid out, if it has any.
    pub open spec fn spec_layer2_objects(&self) -> Option<Layer2Objects> {
        if self.layer2_tilemap is Some {
            None
        } else {
            spec_for_level(
                self.level_mode,
                if self.vertical {
                    SCREEN_ROWS as int
                } else {
                    self.rows as int
                },
            )
        }
    }

    /// Bytes per screen in the layer 1 planes.
    pub fn screen_len(&self) -> (r: usize)
        requires
            self.rows * 16 <= usize::MAX,
        ensures
            r == self.spec_screen_len(),
    {
        if self.vertical {
            0x200
        } else {
            self.rows * SCREEN_COLS
        }
    }

    /// Map16 tile number at a horizontal-level position.
    pub fn tile(&self, screen: usize, x: usize, y: usize) -> (r: u16)
        requires
            self.holds(screen * self.spec_screen_len() + y * 16 + x),
            self.rows * 16 <= usize::MAX,
        ensures
            r == self.tile_at_offset(screen * self.spec_screen_len() + y * 16 + x),
    {
        let len = self.screen_len();
        assert(self.low@.len() == self.low.len());
        assert(screen * len + y * 16 + x < self.low@.len());
        let start = screen * len;
        let row = y * SCREEN_COLS;
        let i = start + row + x;
        tile_of(self.low[i], self.high[i])
    }

    /// Buffer offset of a level-wide tile position, for either orientation.
    pub fn offset(&self, x: usize, y: usize) -> (r: usize)
        requires
            self.rows * 16 <= usize::MAX,
            self.spec_offset(x as int, y as int) <= usize::MAX,
        ensures
            r == self.spec_offset(x as int, y as int),
    {
        if self.vertical {
            (y / 16) * 0x200 + (x / 16) * 0x100 + (y % 16) * 16 + (x % 16)
        } else {
            let len = self.screen_len();
            (x / SCREEN_COLS) * len + y * SCREEN_COLS + (x % SCREEN_COLS)
        }
    }

    /// Map16 tile number at a level-wide position.
    pub fn tile_at(&self, x: usize, y: usize) -> (r: u16)
        requires
            self.rows * 16 <= usize::MAX,
            self.holds(self.spec_offset(x as int, y as int)),
        ensures
            r == self.tile_at_offset(self.spec_offset(x as int, y as int)),
    {
        assert(self.low@.len() == self.low.len());
        let i = self.offset(x, y);
        tile_of(self.low[i], self.high[i])
    }

    /// How this level's layer 2 objects are laid out, if it has any.
    pub fn layer2_objects(&self) -> (r: Option<Layer2Objects>)
        ensures
            r == self.spec_layer2_objects(),
            r matches Some(l) ==> l.fits(),
    {
        if self.layer2_tilemap.is_some() {
            return None;
        }
        // Modes 3 and 4 pair a vertical layer 1 with a vanilla horizontal
        // layer 2.
        let rows = if self.vertical {
            SCREEN_ROWS
        } else {
            self.rows
        };
        Layer2Objects::for_level(self.level_mode, rows)
    }

    /// Map16 tile number of the layer 2 object at a level-wide position.
    /// `None` when the level's layer 2 is not objects or the position is
    /// outside the layer 2 buffer.
    pub fn layer2_object_tile(&self, x: usize, y: usize) -> (r: Option<u16>)
        requires
            self.spec_layer2_objects() matches Some(l) ==> (l.spec_offset(x as int, y as int) matches Some(
                i,
            ) ==> self.holds(i)),
        ensures
            r == match self.spec_layer2_objects() {
                Some(l) => match l.spec_offset(x as int, y as int) {
                    Some(i) => Some(self.tile_at_offset(i)),
                    None => None,
                },
                None => None,
            },
    {
        let layout = match self.layer2_objects() {
            Some(l) => l,
            None => return None,
        };
        let i = match layout.offset(x, y) {
            Some(i) => i,
            None => return None,
        };
        Some(tile_of(self.low[i], self.high[i]))
    }

    /// How far layer 2 content is displaced from the layer 1 grid, in
    /// pixels: a layer 2 tile at column `c` shows at level x
    /// `c * 16 + offset[0]`. Zero when both layers scroll together.
    pub fn layer2_offset(&self) -> (r: [i32; 2])
        ensures
            r@[0] == signed_difference(self.camera@[0], self.layer2_position@[0]),
            r@[1] == signed_difference(self.camera@[1], self.layer2_position@[1]),
    {
        [
            difference(self.camera[0], self.layer2_position[0]),
            difference(self.camera[1], self.layer2_position[1]),
        ]
    }

    /// Palette bits the layer 2 object upload ORs into every tile: bit 2
    /// (rows 4-7) in object tileset 3, nothing otherwise.
    pub fn layer2_palette_mask(&self) -> (r: u8)
        ensures
            r == if self.object_tileset == 3 {
                4u8
            } else {
                0u8
            },
    {
        if self.object_tileset == 3 {
            4
        } else {
            0
        }
    }

    /// Width and height of the captured level in tiles. Some headers
    /// declare more screens than fit in the object buffer (notably unused
    /// vertical levels); only complete captured screens count.
    pub fn size(&self) -> (r: (usize, usize))
        requires
            !self.vertical ==> 0 < self.rows * 16 <= usize::MAX,
        ensures
            ({
                let len = if self.low@.len() < self.high@.len() {
                    self.low@.len()
                } else {
                    self.high@.len()
                };
                let captured = len as int / self.spec_screen_len();
                let screens = if self.screens < captured {
                    self.screens as int
                } else {
                    captured as int
                };
                if self.vertical {
                    r == (32usize, (screens * 16) as usize)
                } else {
                    r == ((screens * 16) as usize, self.rows)
                }
            }),
    {
        let len = if self.low.len() < self.high.len() {
            self.low.len()
        } else {
            self.high.len()
        };
        if self.vertical {
            let captured = len / 0x200;
            let screens = if self.screens < captured {
                self.screens
            } else {
                captured
            };
            (32, screens * 16)
        } else {
            let screen_len = self.screen_len();
            let captured = len / screen_len;
            let screens = if self.screens < captured {
                self.screens
            } else {
                captured
            };
            assert(screens * 16 <= len) by (nonlinear_arith)
                requires
                    screens <= captured,
                    captured == len as int / screen_len as int,
                    screen_len >= 16,
            ;
            (screens * SCREEN_COLS, self.rows)
        }
    }

    /// The background tile at plane offset `i`, numbered from `0x200` as
    /// the BG Map16 tiles are.
    pub open spec fn bg_tile_at(&self, i: int) -> int {
        let (lo, hi) = self.layer2_tilemap->0;
        0x200 + lo@[i] + hi@[i] * 256
    }

    /// Plane offset of a position in the layer 2 background tilemap, which
    /// is two screens laid out like the main buffer.
    pub open spec fn bg_offset(&self, screen: int, x: int, y: int) -> int {
        (screen % 2) * self.layer2_screen_len + y * 16 + x
    }

    /// Map16 tile number (BG numbering, `0x200` upwards) at a position in
    /// the layer 2 background tilemap. Returns `None` for levels whose
    /// layer 2 is objects.
    pub fn layer2_bg_tile(&self, screen: usize, x: usize, y: usize) -> (r: Option<u16>)
        requires
            self.layer2_tilemap matches Some((lo, hi)) ==> {
                let i = self.bg_offset(screen as int, x as int, y as int);
                &&& i <= usize::MAX
                &&& i < lo@.len() && i < hi@.len()
                &&& self.bg_tile_at(i) <= u16::MAX
            },
        ensures
            r == match self.layer2_tilemap {
                Some(_) => Some(
                    self.bg_tile_at(self.bg_offset(screen as int, x as int, y as int)) as u16,
                ),
                None => None,
            },
    {
        match &self.layer2_tilemap {
            Some((lo, hi)) => {
                let i = (screen % 2) * self.layer2_screen_len + y * SCREEN_COLS + x;
                Some(0x200 + lo[i] as u16 + hi[i] as u16 * 256)
            },
            None => None,
        }
    }

    /// Rows in the layer 2 background: 27, or 32 for Lunar Magic's taller
    /// backgrounds.
    pub fn layer2_bg_rows(&self) -> (r: usize)
        ensures
            r == self.layer2_screen_len / 16,
    {
        self.layer2_screen_len / SCREEN_COLS
    }
}

/// `a - b` in 16-bit two's complement, read as a signed number.
pub open spec fn signed_difference(a: u16, b: u16) -> i32 {
    let d = (a - b + 0x1_0000) % 0x1_0000;
    if d < 0x8000 {
        d as i32
    } else {
        (d - 0x1_0000) as i32
    }
}

fn difference(a: u16, b: u16) -> (r: i32)
    ensures
        r == signed_difference(a, b),
{
    let d = a.wrapping_sub(b);
    if d < 0x8000 {
        d as i32
    } else {
        d as i32 - 0x1_0000
    }
}

} // verus!
