//! Simple raster images: a sheet of tiles drawn through a palette.

use vstd::prelude::*;

use crate::gfx::Tile8;

verus! {

/// An 8-bit RGB image, row-major, top-left origin.
#[derive(Clone, PartialEq, Eq, Debug)]
pub struct RgbImage {
    pub width: u32,
    pub height: u32,
    pub pixels: Vec<[u8; 3]>,
}

impl RgbImage {
    /// One pixel per position, and the positions fit a `u32`.
    pub open spec fn wf(&self) -> bool {
        &&& self.width * self.height <= u32::MAX
        &&& self.pixels@.len() == self.width * self.height
    }

    /// The pixel at (`x`, `y`).
    pub open spec fn pixel(&self, x: int, y: int) -> [u8; 3] {
        self.pixels@[y * self.width + x]
    }

    /// A black image.
    pub fn new(width: u32, height: u32) -> (r: Self)
        requires
            width * height <= u32::MAX,
        ensures
            r.width == width,
            r.height == height,
            r.wf(),
            forall|i: int| 0 <= i < r.pixels@.len() ==> #[trigger] r.pixels@[i] == [0u8, 0u8, 0u8],
    {
        let n = (width * height) as usize;
        let mut pixels: Vec<[u8; 3]> = Vec::new();
        let mut i: usize = 0;
        while i < n
            invariant
                i <= n,
                pixels@.len() == i,
                forall|k: int| 0 <= k < i ==> #[trigger] pixels@[k] == [0u8, 0u8, 0u8],
            decreases n - i,
        {
            pixels.push([0, 0, 0]);
            i = i + 1;
        }
        Self { width, height, pixels }
    }

    /// Sets the pixel at (`x`, `y`); a position outside the image changes
    /// nothing.
    pub fn put(&mut self, x: u32, y: u32, rgb: [u8; 3])
        requires
            old(self).wf(),
        ensures
            final(self).width == old(self).width,
            final(self).height == old(self).height,
            final(self).pixels@ == if x < old(self).width && y < old(self).height {
                old(self).pixels@.update(y * old(self).width + x, rgb)
            } else {
                old(self).pixels@
            },
    {
        if x < self.width && y < self.height {
            proof {
                lemma_index_in(x as int, y as int, self.width as int, self.height as int);
            }
            self.pixels.set((y * self.width + x) as usize, rgb);
        }
    }
}

/// A position inside a `width` by `height` grid has a row-major index
/// inside it.
proof fn lemma_index_in(x: int, y: int, width: int, height: int)
    requires
        0 <= x < width,
        0 <= y < height,
    ensures
        0 <= y * width + x < width * height,
{
    assert(y * width + x < (y + 1) * width) by (nonlinear_arith)
        requires
            x < width,
    ;
    assert((y + 1) * width <= height * width) by (nonlinear_arith)
        requires
            y + 1 <= height,
            0 < width,
    ;
    assert(0 <= y * width) by (nonlinear_arith)
        requires
            0 <= y,
            0 < width,
    ;
}

/// The colour a palette gives index `px`: magenta for one it lacks.
pub open spec fn palette_color(palette: Seq<[u8; 3]>, px: u8) -> [u8; 3] {
    if (px as int) < palette.len() {
        palette[px as int]
    } else {
        [255u8, 0u8, 255u8]
    }
}

/// The colour at (`x`, `y`) of a sheet of `tiles`, `columns` to a row:
/// the tile's pixel through the palette, black past the last tile.
pub open spec fn sheet_color(
    tiles: Seq<Tile8>,
    columns: int,
    palette: Seq<[u8; 3]>,
    x: int,
    y: int,
) -> [u8; 3] {
    let i = (y / 8) * columns + x / 8;
    if i < tiles.len() {
        palette_color(palette, tiles[i].pixels@[y % 8]@[x % 8])
    } else {
        [0u8, 0u8, 0u8]
    }
}

/// At least one column.
pub open spec fn sheet_columns(columns: u32) -> int {
    if columns < 1 {
        1
    } else {
        columns as int
    }
}

/// Rows of tiles a sheet takes.
pub open spec fn sheet_rows(tiles: int, columns: u32) -> int {
    (tiles + sheet_columns(columns) - 1) / sheet_columns(columns)
}

fn color_of(palette: &[[u8; 3]], px: u8) -> (r: [u8; 3])
    ensures
        r == palette_color(palette@, px),
{
    if (px as usize) < palette.len() {
        palette[px as usize]
    } else {
        [255, 0, 255]
    }
}

/// Lays tiles out left to right, top to bottom, `columns` per row (at
/// least one), mapping each pixel through `palette`.
pub fn tile_sheet(tiles: &[Tile8], columns: u32, palette: &[[u8; 3]]) -> (r: RgbImage)
    requires
        tiles@.len() <= u32::MAX,
        sheet_columns(columns) * 8 <= u32::MAX,
        (sheet_columns(columns) * 8) * (sheet_rows(tiles@.len() as int, columns) * 8) <= u32::MAX,
    ensures
        r.wf(),
        r.width == sheet_columns(columns) * 8,
        r.height == sheet_rows(tiles@.len() as int, columns) * 8,
        forall|x: int, y: int|
            0 <= x < r.width && 0 <= y < r.height ==> #[trigger] r.pixel(x, y) == sheet_color(
                tiles@,
                sheet_columns(columns),
                palette@,
                x,
                y,
            ),
{
    let cols: u32 = if columns < 1 {
        1
    } else {
        columns
    };
    let n = tiles.len() as u32;
    let ghost c = cols as int;
    let rows64 = (n as u64 + (cols - 1) as u64) / cols as u64;
    assert(rows64 == sheet_rows(tiles@.len() as int, columns));
    assert(rows64 * 8 <= u32::MAX && rows64 * c <= u32::MAX) by (nonlinear_arith)
        requires
            (c * 8) * (rows64 * 8) <= u32::MAX,
            c >= 1,
            rows64 >= 0,
    ;
    let rows = rows64 as u32;
    let columns = cols;
    let width = columns * 8;
    let height = rows * 8;
    let mut pixels: Vec<[u8; 3]> = Vec::new();
    let mut y: u32 = 0;
    while y < height
        invariant
            y <= height,
            width == c * 8,
            height == rows * 8,
            c >= 1,
            columns == c,
            rows == (n + c - 1) / c,
            n == tiles@.len(),
            width * height <= u32::MAX,
            rows * c <= u32::MAX,
            pixels@.len() == y * width,
            forall|py: int, px: int|
                0 <= py < y && 0 <= px < width ==> #[trigger] pixels@[py * width + px]
                    == sheet_color(tiles@, c, palette@, px, py),
        decreases height - y,
    {
        let ghost before = pixels@;
        assert(pixels@.subrange(0, y * width) =~= before);
        let mut x: u32 = 0;
        while x < width
            invariant
                x <= width,
                y < height,
                width == c * 8,
                height == rows * 8,
                c >= 1,
                columns == c,
                rows == (n + c - 1) / c,
                n == tiles@.len(),
                width * height <= u32::MAX,
                rows * c <= u32::MAX,
                pixels@.len() == y * width + x,
                pixels@.subrange(0, y * width) == before,
                before.len() == y * width,
                forall|px: int|
                    0 <= px < x ==> #[trigger] pixels@[y * width + px] == sheet_color(
                        tiles@,
                        c,
                        palette@,
                        px,
                        y as int,
                    ),
            decreases width - x,
        {
            proof {
                lemma_index_in(x as int, y as int, width as int, height as int);
            }
            assert((y / 8) * c + x / 8 < rows * c) by (nonlinear_arith)
                requires
                    y < rows * 8,
                    x < c * 8,
                    c >= 1,
            ;
            let i = (y / 8) as usize * columns as usize + (x / 8) as usize;
            let rgb = if i < tiles.len() {
                color_of(palette, tiles[i].pixels[(y % 8) as usize][(x % 8) as usize])
            } else {
                [0, 0, 0]
            };
            pixels.push(rgb);
            assert(pixels@.subrange(0, y * width) =~= before);
            x = x + 1;
        }
        proof {
            assert forall|py: int, px: int|
                0 <= py < y + 1 && 0 <= px < width implies #[trigger] pixels@[py * width + px]
                == sheet_color(tiles@, c, palette@, px, py) by {
                if py < y {
                    lemma_index_in(px, py, width as int, y as int);
                    assert(pixels@[py * width + px] == before[py * width + px]);
                }
            }
            assert((y + 1) * width == y * width + width) by (nonlinear_arith);
        }
        y = y + 1;
    }
    assert(height * width == width * height) by (nonlinear_arith);
    RgbImage { width, height, pixels }
}

/// The shade of entry `i` of a ramp of `colors`.
pub open spec fn gray(i: int, colors: int) -> u8 {
    let steps = if colors - 1 < 1 {
        1
    } else {
        colors - 1
    };
    (i * 255 / steps) as u8
}

/// A grayscale ramp with `colors` entries, black first and white last.
pub fn grayscale(colors: usize) -> (r: Vec<[u8; 3]>)
    requires
        colors * 255 <= usize::MAX,
    ensures
        r@.len() == colors,
        forall|i: int|
            0 <= i < colors ==> #[trigger] r@[i] == [gray(i, colors as int), gray(
                i,
                colors as int,
            ), gray(i, colors as int)],
{
    let steps = if colors < 2 {
        1
    } else {
        colors - 1
    };
    let mut r: Vec<[u8; 3]> = Vec::new();
    let mut i: usize = 0;
    while i < colors
        invariant
            i <= colors,
            colors * 255 <= usize::MAX,
            steps == if colors as int - 1 < 1 {
                1
            } else {
                colors - 1
            },
            r@.len() == i,
            forall|k: int|
                0 <= k < i ==> #[trigger] r@[k] == [gray(k, colors as int), gray(
                    k,
                    colors as int,
                ), gray(k, colors as int)],
        decreases colors - i,
    {
        assert(i * 255 <= colors * 255) by (nonlinear_arith)
            requires
                i <= colors,
        ;
        let v = (i * 255 / steps) as u8;
        r.push([v, v, v]);
        i = i + 1;
    }
    r
}

} // verus!
