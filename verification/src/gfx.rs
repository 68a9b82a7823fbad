//! 8x8 tile graphics: SNES bit-plane formats and SMW's numbered GFX files.
//!
//! SMW stores GFX files `00` to `31` LC_LZ2-compressed. Vanilla files are
//! 3bpp or 2bpp; Lunar Magic may re-insert files as 4bpp. Each file has a
//! fixed tile count, so the bit depth follows from the decompressed size.
//! `GFX27` holds the Mode 7 boss tiles, whose pixels are packed three bits
//! each ([`GfxFormat::Packed3`]).
//!
//! `GFX32` (Mario) and `GFX33` (animated tiles) are LC_LZ2 too but have no
//! entry in the pointer tables: `CODE_00B888` loads their addresses as
//! immediates, which Lunar Magic rewrites when it moves the files.
//!
//! Lunar Magic exports 3bpp files converted to 4bpp and leaves other depths
//! as stored; [`GfxFile::to_lm_export`] reproduces that so exports can be
//! compared byte for byte.

use vstd::prelude::*;

use crate::addr::{MapError, Mapping, PcAddr, SnesAddr, spec_snes_to_pc};
use crate::compress::lz2;
use crate::compress::{Format, matches_spec, spec_decompress};
use crate::compress::{LzError, append_slice, slice_range};
use crate::text::{dec_digits, hex_digits, push_dec, push_hex, push_str};

verus! {

/// Number of GFX files: `00` to `31` through the pointer tables, then
/// `32` and `33`.
pub const GFX_FILE_COUNT: u8 = 0x34;

/// Rows in each tileset's GFX list.
pub const GFX_LIST_ROWS: u8 = 26;

/// Bits per pixel of a tile format.
#[derive(Clone, Copy, PartialEq, Eq, Hash, Debug, Structural)]
pub enum Bpp {
    Two,
    Three,
    Four,
}

pub open spec fn spec_bytes_per_tile(bpp: Bpp) -> int {
    match bpp {
        Bpp::Two => 16,
        Bpp::Three => 24,
        Bpp::Four => 32,
    }
}

pub open spec fn spec_bits(bpp: Bpp) -> int {
    match bpp {
        Bpp::Two => 2,
        Bpp::Three => 3,
        Bpp::Four => 4,
    }
}

impl Bpp {
    pub fn bytes_per_tile(self) -> (r: usize)
        ensures
            r == spec_bytes_per_tile(self),
    {
        match self {
            Bpp::Two => 16,
            Bpp::Three => 24,
            Bpp::Four => 32,
        }
    }

    pub fn colors(self) -> (r: usize)
        ensures
            r == match self {
                Bpp::Two => 4int,
                Bpp::Three => 8,
                Bpp::Four => 16,
            },
    {
        match self {
            Bpp::Two => 4,
            Bpp::Three => 8,
            Bpp::Four => 16,
        }
    }

    pub fn bits(self) -> (r: u8)
        ensures
            r == spec_bits(self),
    {
        match self {
            Bpp::Two => 2,
            Bpp::Three => 3,
            Bpp::Four => 4,
        }
    }
}

/// One 8x8 tile as palette indices, `pixels[y][x]`, x = 0 on the left.
#[derive(Clone, Copy, PartialEq, Eq, Debug)]
pub struct Tile8 {
    pub pixels: [[u8; 8]; 8],
}

impl Default for Tile8 {
    fn default() -> (r: Self)
        ensures
            forall|y: int, x: int| 0 <= y < 8 && 0 <= x < 8 ==> r.pixels@[y]@[x] == 0,
    {
        Tile8 { pixels: [[0u8; 8]; 8] }
    }
}

/// Byte `y` of bit plane `p` in a tile of `bpp`: planes 0 and 1 are
/// interleaved in the first 16 bytes, then plane 2 alone (3bpp) or planes
/// 2 and 3 interleaved (4bpp). Planes a format lacks read as zero.
pub open spec fn plane_byte(bpp: Bpp, bytes: Seq<u8>, y: int, p: int) -> u8 {
    if p == 0 {
        bytes[2 * y]
    } else if p == 1 {
        bytes[2 * y + 1]
    } else if p == 2 {
        match bpp {
            Bpp::Two => 0u8,
            Bpp::Three => bytes[16 + y],
            Bpp::Four => bytes[16 + 2 * y],
        }
    } else {
        match bpp {
            Bpp::Four => bytes[16 + 2 * y + 1],
            _ => 0u8,
        }
    }
}

/// Bit `b` (0 the lowest) of `v`.
pub open spec fn bit_of(v: u8, b: u8) -> u8 {
    (v >> b) & 1
}

/// Pixel `x` of row `y`: bit `7 - x` of each plane, plane `p` giving bit
/// `p` of the colour.
pub open spec fn spec_pixel(bpp: Bpp, bytes: Seq<u8>, y: int, x: int) -> u8 {
    let b = (7 - x) as u8;
    (bit_of(plane_byte(bpp, bytes, y, 0), b) + bit_of(plane_byte(bpp, bytes, y, 1), b) * 2
        + bit_of(plane_byte(bpp, bytes, y, 2), b) * 4 + bit_of(plane_byte(bpp, bytes, y, 3), b)
        * 8) as u8
}

/// A pixel from its four plane bytes.
fn pixel(p0: u8, p1: u8, p2: u8, p3: u8, x: u8) -> (r: u8)
    requires
        x < 8,
    ensures
        r == (bit_of(p0, (7 - x) as u8) + bit_of(p1, (7 - x) as u8) * 2 + bit_of(p2, (7 - x) as u8)
            * 4 + bit_of(p3, (7 - x) as u8) * 8) as u8,
{
    let bit = 7 - x;
    let b0 = (p0 >> bit) & 1;
    let b1 = (p1 >> bit) & 1;
    let b2 = (p2 >> bit) & 1;
    let b3 = (p3 >> bit) & 1;
    assert(b0 <= 1 && b1 <= 1 && b2 <= 1 && b3 <= 1) by (bit_vector)
        requires
            b0 == (p0 >> bit) & 1,
            b1 == (p1 >> bit) & 1,
            b2 == (p2 >> bit) & 1,
            b3 == (p3 >> bit) & 1,
    ;
    b0 + b1 * 2 + b2 * 4 + b3 * 8
}

impl Tile8 {
    /// Decodes one tile from at least `bpp.bytes_per_tile()` bytes.
    pub fn decode(bpp: Bpp, bytes: &[u8]) -> (r: Self)
        requires
            bytes@.len() >= spec_bytes_per_tile(bpp),
        ensures
            forall|y: int, x: int|
                0 <= y < 8 && 0 <= x < 8 ==> #[trigger] r.pixels@[y]@[x] == spec_pixel(
                    bpp,
                    bytes@,
                    y,
                    x,
                ),
    {
        let pixels = [
            decode_row(bpp, bytes, 0),
            decode_row(bpp, bytes, 1),
            decode_row(bpp, bytes, 2),
            decode_row(bpp, bytes, 3),
            decode_row(bpp, bytes, 4),
            decode_row(bpp, bytes, 5),
            decode_row(bpp, bytes, 6),
            decode_row(bpp, bytes, 7),
        ];
        Tile8 { pixels }
    }
}

/// Row `y` of a tile.
fn decode_row(bpp: Bpp, bytes: &[u8], y: usize) -> (row: [u8; 8])
    requires
        y < 8,
        bytes@.len() >= spec_bytes_per_tile(bpp),
    ensures
        forall|x: int| 0 <= x < 8 ==> #[trigger] row@[x] == spec_pixel(bpp, bytes@, y as int, x),
{
    let p0 = bytes[2 * y];
    let p1 = bytes[2 * y + 1];
    let p2 = match bpp {
        Bpp::Two => 0,
        Bpp::Three => bytes[16 + y],
        Bpp::Four => bytes[16 + 2 * y],
    };
    let p3 = match bpp {
        Bpp::Four => bytes[16 + 2 * y + 1],
        _ => 0,
    };
    [
        pixel(p0, p1, p2, p3, 0),
        pixel(p0, p1, p2, p3, 1),
        pixel(p0, p1, p2, p3, 2),
        pixel(p0, p1, p2, p3, 3),
        pixel(p0, p1, p2, p3, 4),
        pixel(p0, p1, p2, p3, 5),
        pixel(p0, p1, p2, p3, 6),
        pixel(p0, p1, p2, p3, 7),
    ]
}


/// Bit `p` of pixel `x`, placed at bit `7 - x` of a plane byte.
pub open spec fn plane_bit(v: u8, p: u8, x: u8) -> u8 {
    bit_of(v, p) << (7 - x) as u8
}

/// Plane `p` of row `y` of a tile: bit `p` of each pixel, the leftmost in
/// the top bit.
pub open spec fn row_plane(t: Tile8, y: int, p: int) -> u8 {
    let r = t.pixels@[y]@;
    let q = p as u8;
    plane_bit(r[0], q, 0) | plane_bit(r[1], q, 1) | plane_bit(r[2], q, 2) | plane_bit(r[3], q, 3)
        | plane_bit(r[4], q, 4) | plane_bit(r[5], q, 5) | plane_bit(r[6], q, 6) | plane_bit(r[7], q, 7)
}

/// The bytes of a tile in `bpp`: planes 0 and 1 row by row, interleaved,
/// then plane 2 row by row (3bpp) or planes 2 and 3 interleaved (4bpp).
pub open spec fn spec_encode(t: Tile8, bpp: Bpp) -> Seq<u8> {
    Seq::new(
        spec_bytes_per_tile(bpp) as nat,
        |i: int|
            if i < 16 {
                row_plane(t, i / 2, i % 2)
            } else if bpp == Bpp::Three {
                row_plane(t, i - 16, 2)
            } else {
                row_plane(t, (i - 16) / 2, 2 + (i - 16) % 2)
            },
    )
}

/// Plane `p` of a row of pixels.
fn row_plane_of(row: &[u8; 8], p: u8) -> (r: u8)
    requires
        p < 8,
    ensures
        r == plane_bit(row@[0], p, 0) | plane_bit(row@[1], p, 1) | plane_bit(row@[2], p, 2)
            | plane_bit(row@[3], p, 3) | plane_bit(row@[4], p, 4) | plane_bit(row@[5], p, 5)
            | plane_bit(row@[6], p, 6) | plane_bit(row@[7], p, 7),
{
    let (a0, a1, a2, a3, a4, a5, a6, a7) = (
        row[0],
        row[1],
        row[2],
        row[3],
        row[4],
        row[5],
        row[6],
        row[7],
    );
    let r = ((a0 >> p) & 1) << 7 | ((a1 >> p) & 1) << 6 | ((a2 >> p) & 1) << 5 | ((a3 >> p) & 1)
        << 4 | ((a4 >> p) & 1) << 3 | ((a5 >> p) & 1) << 2 | ((a6 >> p) & 1) << 1 | ((a7 >> p) & 1);
    assert(r == plane_bit(a0, p, 0) | plane_bit(a1, p, 1) | plane_bit(a2, p, 2) | plane_bit(a3, p, 3)
        | plane_bit(a4, p, 4) | plane_bit(a5, p, 5) | plane_bit(a6, p, 6) | plane_bit(a7, p, 7))
        by (bit_vector)
        requires
            r == ((a0 >> p) & 1) << 7 | ((a1 >> p) & 1) << 6 | ((a2 >> p) & 1) << 5 | ((a3 >> p)
                & 1) << 4 | ((a4 >> p) & 1) << 3 | ((a5 >> p) & 1) << 2 | ((a6 >> p) & 1) << 1 | ((
            a7 >> p) & 1),
    ;
    r
}

impl Tile8 {
    /// Encodes the tile. Pixel bits above the format's depth are dropped.
    pub fn encode(&self, bpp: Bpp) -> (r: Vec<u8>)
        ensures
            r@ == spec_encode(*self, bpp),
    {
        let mut out: Vec<u8> = Vec::new();
        let mut y: usize = 0;
        while y < 8
            invariant
                y <= 8,
                out@.len() == 2 * y,
                forall|i: int| 0 <= i < 2 * y ==> #[trigger] out@[i] == row_plane(*self, i / 2, i % 2),
            decreases 8 - y,
        {
            out.push(row_plane_of(&self.pixels[y], 0));
            out.push(row_plane_of(&self.pixels[y], 1));
            y = y + 1;
        }
        match bpp {
            Bpp::Two => {},
            Bpp::Three => {
                let mut y: usize = 0;
                while y < 8
                    invariant
                        y <= 8,
                        out@.len() == 16 + y,
                        forall|i: int| 0 <= i < 16 ==> #[trigger] out@[i] == row_plane(*self, i / 2, i % 2),
                        forall|i: int| 16 <= i < 16 + y ==> #[trigger] out@[i] == row_plane(*self, i - 16, 2),
                    decreases 8 - y,
                {
                    out.push(row_plane_of(&self.pixels[y], 2));
                    y = y + 1;
                }
            },
            Bpp::Four => {
                let mut y: usize = 0;
                while y < 8
                    invariant
                        y <= 8,
                        out@.len() == 16 + 2 * y,
                        forall|i: int| 0 <= i < 16 ==> #[trigger] out@[i] == row_plane(*self, i / 2, i % 2),
                        forall|i: int|
                            16 <= i < 16 + 2 * y ==> #[trigger] out@[i] == row_plane(
                                *self,
                                (i - 16) / 2,
                                2 + (i - 16) % 2,
                            ),
                    decreases 8 - y,
                {
                    out.push(row_plane_of(&self.pixels[y], 2));
                    out.push(row_plane_of(&self.pixels[y], 3));
                    y = y + 1;
                }
            },
        }
        assert(out@ =~= spec_encode(*self, bpp));
        out
    }
}


/// Colours a tile of `bpp` can hold.
pub open spec fn spec_colors(bpp: Bpp) -> int {
    match bpp {
        Bpp::Two => 4,
        Bpp::Three => 8,
        Bpp::Four => 16,
    }
}

proof fn lemma_row_plane_bit(
    a0: u8,
    a1: u8,
    a2: u8,
    a3: u8,
    a4: u8,
    a5: u8,
    a6: u8,
    a7: u8,
    p: u8,
    x: u8,
)
    by (bit_vector)
    requires
        p < 8,
        x < 8,
    ensures
        bit_of(
            plane_bit(a0, p, 0) | plane_bit(a1, p, 1) | plane_bit(a2, p, 2) | plane_bit(a3, p, 3)
                | plane_bit(a4, p, 4) | plane_bit(a5, p, 5) | plane_bit(a6, p, 6) | plane_bit(
                a7,
                p,
                7,
            ),
            (7 - x) as u8,
        ) == bit_of(
            if x == 0 {
                a0
            } else if x == 1 {
                a1
            } else if x == 2 {
                a2
            } else if x == 3 {
                a3
            } else if x == 4 {
                a4
            } else if x == 5 {
                a5
            } else if x == 6 {
                a6
            } else {
                a7
            },
            p,
        ),
{
}

/// The low two, three and four bits of a byte, bit by bit.
proof fn lemma_low_bits(v: u8)
    by (bit_vector)
    ensures
        bit_of(v, 0) + bit_of(v, 1) * 2 == v % 4,
        bit_of(v, 0) + bit_of(v, 1) * 2 + bit_of(v, 2) * 4 == v % 8,
        bit_of(v, 0) + bit_of(v, 1) * 2 + bit_of(v, 2) * 4 + bit_of(v, 3) * 8 == v % 16,
{
}

/// A tile encoded and decoded again is the tile with each pixel cut to
/// the colours the depth holds: the bits above them are dropped.
pub proof fn lemma_encode_decode_masks(t: Tile8, bpp: Bpp)
    ensures
        forall|y: int, x: int|
            0 <= y < 8 && 0 <= x < 8 ==> spec_pixel(bpp, spec_encode(t, bpp), y, x)
                == #[trigger] t.pixels@[y]@[x] as int % spec_colors(bpp),
{
    let e = spec_encode(t, bpp);
    assert forall|y: int, x: int|
        0 <= y < 8 && 0 <= x < 8 implies spec_pixel(bpp, e, y, x) == #[trigger] t.pixels@[y]@[x]
        as int % spec_colors(bpp) by {
        let r = t.pixels@[y]@;
        let v = r[x];
        let b = (7 - x) as u8;
        assert forall|p: u8| p < 8 implies bit_of(row_plane(t, y, p as int), b) == #[trigger] bit_of(v, p) by {
            lemma_row_plane_bit(r[0], r[1], r[2], r[3], r[4], r[5], r[6], r[7], p, x as u8);
        }
        assert(plane_byte(bpp, e, y, 0) == row_plane(t, y, 0));
        assert(plane_byte(bpp, e, y, 1) == row_plane(t, y, 1));
        lemma_low_bits(v);
        assert(bit_of(0u8, b) == 0) by (bit_vector);
        match bpp {
            Bpp::Two => {},
            Bpp::Three => {
                assert(plane_byte(bpp, e, y, 2) == row_plane(t, y, 2));
            },
            Bpp::Four => {
                assert(plane_byte(bpp, e, y, 2) == row_plane(t, y, 2));
                assert(plane_byte(bpp, e, y, 3) == row_plane(t, y, 3));
            },
        }
    }
}

/// A tile encoded and decoded again is the tile, when each pixel is a
/// colour the depth holds.
pub proof fn lemma_encode_decode(t: Tile8, bpp: Bpp)
    requires
        forall|y: int, x: int|
            0 <= y < 8 && 0 <= x < 8 ==> #[trigger] t.pixels@[y]@[x] < spec_colors(bpp),
    ensures
        forall|y: int, x: int|
            0 <= y < 8 && 0 <= x < 8 ==> spec_pixel(bpp, spec_encode(t, bpp), y, x)
                == #[trigger] t.pixels@[y]@[x],
{
    lemma_encode_decode_masks(t, bpp);
    assert forall|y: int, x: int|
        0 <= y < 8 && 0 <= x < 8 implies spec_pixel(bpp, spec_encode(t, bpp), y, x)
        == #[trigger] t.pixels@[y]@[x] by {
        vstd::arithmetic::div_mod::lemma_small_mod(t.pixels@[y]@[x] as nat, spec_colors(bpp) as nat);
    }
}


/// Decodes every whole tile in `data`. Trailing partial tiles are ignored.
pub fn decode_tiles(bpp: Bpp, data: &[u8]) -> (r: Vec<Tile8>)
    ensures
        r@.len() == (data@.len() as int) / spec_bytes_per_tile(bpp),
        forall|k: int, y: int, x: int|
            0 <= k < r@.len() && 0 <= y < 8 && 0 <= x < 8 ==> #[trigger] r@[k].pixels@[y]@[x]
                == spec_pixel(
                bpp,
                data@.subrange(
                    k * spec_bytes_per_tile(bpp),
                    (k + 1) * spec_bytes_per_tile(bpp),
                ),
                y,
                x,
            ),
{
    let size = bpp.bytes_per_tile();
    let n = data.len();
    let count = n / size;
    let mut out: Vec<Tile8> = Vec::new();
    let mut k: usize = 0;
    while k < count
        invariant
            k <= count,
            size == spec_bytes_per_tile(bpp),
            n == data@.len(),
            count == (data@.len() as int) / (size as int),
            out@.len() == k,
            forall|j: int, y: int, x: int|
                0 <= j < k && 0 <= y < 8 && 0 <= x < 8 ==> #[trigger] out@[j].pixels@[y]@[x]
                    == spec_pixel(bpp, data@.subrange(j * size, (j + 1) * size), y, x),
        decreases count - k,
    {
        proof {
            vstd::arithmetic::div_mod::lemma_fundamental_div_mod(data@.len() as int, size as int);
            assert((k + 1) * size <= count * size) by (nonlinear_arith)
                requires
                    k < count,
                    size > 0,
            ;
            assert(k * size + size == (k + 1) * size) by (nonlinear_arith);
        }
        let tile = slice_range(data, k * size, (k + 1) * size);
        out.push(Tile8::decode(bpp, tile));
        k = k + 1;
    }
    out
}

/// Bytes of one tile in [`GfxFormat::Packed3`].
pub const PACKED3_BYTES_PER_TILE: usize = 24;

/// Pixel `x` of row `y` of a packed tile: three bits each, most
/// significant first, a row to three bytes.
pub open spec fn spec_packed3_pixel(bytes: Seq<u8>, y: int, x: int) -> u8 {
    let bits = (bytes[3 * y] as u32) * 0x1_0000 + (bytes[3 * y + 1] as u32) * 0x100 + bytes[3 * y
        + 2] as u32;
    ((bits as u32 >> ((21 - 3 * x) as u32)) & 7) as u8
}

fn packed3_row(bytes: &[u8], y: usize) -> (row: [u8; 8])
    requires
        y < 8,
        bytes@.len() >= 24,
    ensures
        forall|x: int| 0 <= x < 8 ==> #[trigger] row@[x] == spec_packed3_pixel(bytes@, y as int, x),
{
    let (high, middle, low) = (bytes[3 * y], bytes[3 * y + 1], bytes[3 * y + 2]);
    let bits = (high as u32) << 16 | (middle as u32) << 8 | low as u32;
    assert(bits == (high as u32) * 0x1_0000 + (middle as u32) * 0x100 + low as u32) by (bit_vector)
        requires
            bits == (high as u32) << 16 | (middle as u32) << 8 | low as u32,
    ;
    let row = [
        (bits >> 21 & 7) as u8,
        (bits >> 18 & 7) as u8,
        (bits >> 15 & 7) as u8,
        (bits >> 12 & 7) as u8,
        (bits >> 9 & 7) as u8,
        (bits >> 6 & 7) as u8,
        (bits >> 3 & 7) as u8,
        (bits & 7) as u8,
    ];
    assert(bits & 7 == bits >> 0u32 & 7) by (bit_vector);
    assert forall|x: int| 0 <= x < 8 implies #[trigger] row@[x] == spec_packed3_pixel(bytes@, y as int, x) by {
        assert(spec_packed3_pixel(bytes@, y as int, x) == ((bits >> ((21 - 3 * x) as u32)) & 7) as u8);
    }
    row
}

/// Decodes every whole tile of [`GfxFormat::Packed3`] data.
pub fn decode_packed3_tiles(data: &[u8]) -> (r: Vec<Tile8>)
    ensures
        r@.len() == data@.len() / 24,
        forall|k: int, y: int, x: int|
            0 <= k < r@.len() && 0 <= y < 8 && 0 <= x < 8 ==> #[trigger] r@[k].pixels@[y]@[x]
                == spec_packed3_pixel(data@.subrange(k * 24, k * 24 + 24), y, x),
{
    let n = data.len();
    let count = n / PACKED3_BYTES_PER_TILE;
    let mut out: Vec<Tile8> = Vec::new();
    let mut k: usize = 0;
    while k < count
        invariant
            k <= count,
            n == data@.len(),
            count == data@.len() / 24,
            out@.len() == k,
            forall|j: int, y: int, x: int|
                0 <= j < k && 0 <= y < 8 && 0 <= x < 8 ==> #[trigger] out@[j].pixels@[y]@[x]
                    == spec_packed3_pixel(data@.subrange(j * 24, j * 24 + 24), y, x),
        decreases count - k,
    {
        proof {
            vstd::arithmetic::div_mod::lemma_fundamental_div_mod(data@.len() as int, 24);
        }
        let tile = slice_range(data, k * 24, k * 24 + 24);
        let pixels = [
            packed3_row(tile, 0),
            packed3_row(tile, 1),
            packed3_row(tile, 2),
            packed3_row(tile, 3),
            packed3_row(tile, 4),
            packed3_row(tile, 5),
            packed3_row(tile, 6),
            packed3_row(tile, 7),
        ];
        out.push(Tile8 { pixels });
        k = k + 1;
    }
    out
}

/// 3bpp tile data as 4bpp: each whole tile's first 16 bytes, then its
/// third plane with an empty fourth plane interleaved.
pub open spec fn spec_3bpp_to_4bpp(data: Seq<u8>) -> Seq<u8> {
    Seq::new(
        (data.len() / 24 * 32) as nat,
        |i: int|
            {
                let (t, j) = (i / 32, i % 32);
                if j < 16 {
                    data[24 * t + j]
                } else if (j - 16) % 2 == 0 {
                    data[24 * t + 16 + (j - 16) / 2]
                } else {
                    0u8
                }
            },
    )
}

/// 4bpp tile data as 3bpp: each whole tile's first 16 bytes, then its
/// third plane without the fourth.
pub open spec fn spec_4bpp_to_3bpp(data: Seq<u8>) -> Seq<u8> {
    Seq::new(
        (data.len() / 32 * 24) as nat,
        |i: int|
            {
                let (t, j) = (i / 24, i % 24);
                if j < 16 {
                    data[32 * t + j]
                } else {
                    data[32 * t + 16 + 2 * (j - 16)]
                }
            },
    )
}

proof fn lemma_split(i: int, d: int, t: int, j: int)
    requires
        d > 0,
        0 <= j < d,
        i == d * t + j,
    ensures
        i / d == t,
        i % d == j,
{
    assert(i == t * d + j) by (nonlinear_arith)
        requires
            i == d * t + j,
    ;
    vstd::arithmetic::div_mod::lemma_fundamental_div_mod_converse(i, d, t, j);
}

/// Re-lays 3bpp tile data out as 4bpp with an empty fourth plane. This is
/// the form Lunar Magic exports 3bpp files in.
pub fn convert_3bpp_to_4bpp(data: &[u8]) -> (r: Vec<u8>)
    ensures
        r@ == spec_3bpp_to_4bpp(data@),
{
    let n = data.len();
    let count = n / 24;
    let mut out: Vec<u8> = Vec::new();
    let mut t: usize = 0;
    while t < count
        invariant
            t <= count,
            n == data@.len(),
            count == data@.len() / 24,
            out@.len() == 32 * t,
            forall|i: int| 0 <= i < 32 * t ==> #[trigger] out@[i] == spec_3bpp_to_4bpp(data@)[i],
        decreases count - t,
    {
        proof {
            vstd::arithmetic::div_mod::lemma_fundamental_div_mod(data@.len() as int, 24);
            assert(24 * t + 24 <= data@.len());
        }
        let mut j: usize = 0;
        while j < 16
            invariant
                j <= 16,
                t < count,
                count == data@.len() / 24,
                n == data@.len(),
                24 * t + 24 <= data@.len(),
                out@.len() == 32 * t + j,
                forall|i: int| 0 <= i < 32 * t + j ==> #[trigger] out@[i] == spec_3bpp_to_4bpp(data@)[i],
            decreases 16 - j,
        {
            proof {
                lemma_split(32 * t + j, 32, t as int, j as int);
                assert((32 * t + j) < data@.len() / 24 * 32);
            }
            out.push(data[24 * t + j]);
            j = j + 1;
        }
        let mut k: usize = 0;
        while k < 8
            invariant
                k <= 8,
                t < count,
                count == data@.len() / 24,
                n == data@.len(),
                24 * t + 24 <= data@.len(),
                out@.len() == 32 * t + 16 + 2 * k,
                forall|i: int| 0 <= i < 32 * t + 16 + 2 * k ==> #[trigger] out@[i] == spec_3bpp_to_4bpp(
                    data@,
                )[i],
            decreases 8 - k,
        {
            proof {
                lemma_split(32 * t + 16 + 2 * k, 32, t as int, 16 + 2 * k);
                lemma_split(32 * t + 16 + 2 * k + 1, 32, t as int, 16 + 2 * k + 1);
                assert((32 * t + 16 + 2 * k + 1) < data@.len() / 24 * 32);
            }
            out.push(data[24 * t + 16 + k]);
            out.push(0);
            k = k + 1;
        }
        t = t + 1;
    }
    assert(out@ =~= spec_3bpp_to_4bpp(data@));
    out
}

/// Drops the fourth plane of 4bpp tile data, producing 3bpp.
pub fn convert_4bpp_to_3bpp(data: &[u8]) -> (r: Vec<u8>)
    ensures
        r@ == spec_4bpp_to_3bpp(data@),
{
    let n = data.len();
    let count = n / 32;
    let mut out: Vec<u8> = Vec::new();
    let mut t: usize = 0;
    while t < count
        invariant
            t <= count,
            n == data@.len(),
            count == data@.len() / 32,
            out@.len() == 24 * t,
            forall|i: int| 0 <= i < 24 * t ==> #[trigger] out@[i] == spec_4bpp_to_3bpp(data@)[i],
        decreases count - t,
    {
        proof {
            vstd::arithmetic::div_mod::lemma_fundamental_div_mod(data@.len() as int, 32);
            assert(32 * t + 32 <= data@.len());
        }
        let mut j: usize = 0;
        while j < 24
            invariant
                j <= 24,
                t < count,
                count == data@.len() / 32,
                n == data@.len(),
                32 * t + 32 <= data@.len(),
                out@.len() == 24 * t + j,
                forall|i: int| 0 <= i < 24 * t + j ==> #[trigger] out@[i] == spec_4bpp_to_3bpp(data@)[i],
            decreases 24 - j,
        {
            proof {
                lemma_split(24 * t + j, 24, t as int, j as int);
                assert((24 * t + j) < data@.len() / 32 * 24);
            }
            let from = if j < 16 {
                32 * t + j
            } else {
                32 * t + 16 + 2 * (j - 16)
            };
            out.push(data[from]);
            j = j + 1;
        }
        t = t + 1;
    }
    assert(out@ =~= spec_4bpp_to_3bpp(data@));
    out
}

/// 3bpp data taken to 4bpp and back is its whole tiles.
pub proof fn lemma_3bpp_round_trip(data: Seq<u8>)
    ensures
        spec_4bpp_to_3bpp(spec_3bpp_to_4bpp(data)) =~= data.subrange(0, (data.len() / 24 * 24) as int),
{
    let four = spec_3bpp_to_4bpp(data);
    let n = (data.len() / 24) as int;
    assert(four.len() / 32 == n) by {
        lemma_split(n * 32, 32, n, 0);
    }
    let back = spec_4bpp_to_3bpp(four);
    assert forall|i: int| 0 <= i < back.len() implies #[trigger] back[i] == data[i] by {
        let (t, j) = (i / 24, i % 24);
        vstd::arithmetic::div_mod::lemma_fundamental_div_mod(i, 24);
        assert(0 <= t < n) by {
            assert(back.len() == n * 24);
            if t >= n {
                assert(24 * t >= 24 * n) by (nonlinear_arith)
                    requires
                        t >= n,
                ;
            }
        }
        if j < 16 {
            lemma_split(32 * t + j, 32, t, j);
        } else {
            lemma_split(32 * t + 16 + 2 * (j - 16), 32, t, 16 + 2 * (j - 16));
            assert((2 * (j - 16)) % 2 == 0 && (2 * (j - 16)) / 2 == j - 16);
        }
    }
}


#[derive(Debug, PartialEq, Eq)]
pub enum GfxError {
    /// A GFX file number outside `00` to `33`.
    BadIndex(u8),
    /// A tileset with no GFX list entry (0 to 25).
    BadTileset(u8),
    /// A file that decompressed to a size that is not 2, 3, or 4bpp for
    /// its tile count.
    BadSize { index: u8, len: usize, tiles: usize },
    /// A file whose compressed data does not decompress.
    Decompress { index: u8, addr: SnesAddr, source: LzError },
    /// A table or file the ROM image does not hold.
    Rom(ReadError),
}

impl GfxError {
    /// The error as a sentence.
    pub open spec fn text(self) -> Seq<char> {
        match self {
            GfxError::BadIndex(index) => "GFX file index "@ + hex_digits(index as nat, 2)
                + " is out of range (00 to 33)"@,
            GfxError::BadTileset(tileset) => "tileset "@ + dec_digits(tileset as nat)
                + " has no GFX list entry (0 to 25)"@,
            GfxError::BadSize { index, len, tiles } => "GFX"@ + hex_digits(index as nat, 2)
                + " decompressed to "@ + dec_digits(len as nat)
                + " bytes, which is not 2, 3, or 4bpp for "@ + dec_digits(tiles as nat)
                + " tiles"@,
            GfxError::Decompress { index, addr, source } => "GFX"@ + hex_digits(index as nat, 2)
                + " at "@ + seq!['$'] + hex_digits(addr@ as nat, 6) + ": "@ + source.text(),
            GfxError::Rom(e) => e.text(),
        }
    }

    pub fn to_string(&self) -> (r: String)
        ensures
            r@ == self.text(),
    {
        let mut s = String::new();
        match self {
            GfxError::BadIndex(index) => {
                push_str(&mut s, "GFX file index ");
                push_hex(&mut s, *index as u64, 2);
                push_str(&mut s, " is out of range (00 to 33)");
            },
            GfxError::BadTileset(tileset) => {
                push_str(&mut s, "tileset ");
                push_dec(&mut s, *tileset as u64);
                push_str(&mut s, " has no GFX list entry (0 to 25)");
            },
            GfxError::BadSize { index, len, tiles } => {
                push_str(&mut s, "GFX");
                push_hex(&mut s, *index as u64, 2);
                push_str(&mut s, " decompressed to ");
                push_dec(&mut s, *len as u64);
                push_str(&mut s, " bytes, which is not 2, 3, or 4bpp for ");
                push_dec(&mut s, *tiles as u64);
                push_str(&mut s, " tiles");
            },
            GfxError::Decompress { index, addr, source } => {
                push_str(&mut s, "GFX");
                push_hex(&mut s, *index as u64, 2);
                push_str(&mut s, " at ");
                let at = addr.to_string();
                push_str(&mut s, at.as_str());
                push_str(&mut s, ": ");
                let why = source.to_string();
                push_str(&mut s, why.as_str());
            },
            GfxError::Rom(e) => {
                let why = e.to_string();
                push_str(&mut s, why.as_str());
            },
        }
        s
    }
}

/// How a GFX file's decompressed bytes are laid out.
#[derive(Clone, Copy, PartialEq, Eq, Hash, Debug, Structural)]
pub enum GfxFormat {
    /// Planar 8x8 tiles at the given depth.
    Planar(Bpp),
    /// 8x8 tiles of 3-bit pixels packed most significant bit first, three
    /// bytes to a row of eight. `CODE_00AB42` unpacks `GFX27` a pixel to a
    /// byte into the high bytes of VRAM, where Mode 7 keeps its characters.
    Packed3,
}

/// Number of 8x8 tiles in a GFX file. Most files hold 128, a few layer 3
/// files 64, and the two outside the pointer tables what their RAM buffers
/// (`$7E2000` and `$7E7D00`) take.
pub open spec fn spec_tile_count(index: u8) -> Option<usize> {
    if 0x2F <= index <= 0x31 {
        Some(64)
    } else if index <= 0x31 {
        Some(128)
    } else if index == 0x32 {
        Some(744)
    } else if index == 0x33 {
        Some(384)
    } else {
        None
    }
}

pub fn gfx_file_tile_count(index: u8) -> (r: Result<usize, GfxError>)
    ensures
        match spec_tile_count(index) {
            Some(n) => r == Ok::<usize, GfxError>(n),
            None => r == Err::<usize, GfxError>(GfxError::BadIndex(index)),
        },
{
    if 0x2F <= index && index <= 0x31 {
        Ok(64)
    } else if index <= 0x31 {
        Ok(128)
    } else if index == 0x32 {
        Ok(744)
    } else if index == 0x33 {
        Ok(384)
    } else {
        Err(GfxError::BadIndex(index))
    }
}

/// The format a file of `index` decompressed to `len` bytes is stored in:
/// `GFX27` at the packed size is packed, anything else planar at the depth
/// its size gives for its tile count.
pub open spec fn spec_infer_format(index: u8, len: usize) -> Result<GfxFormat, GfxError> {
    match spec_tile_count(index) {
        None => Err(GfxError::BadIndex(index)),
        Some(tiles) => if index == 0x27 && len == tiles * 24 {
            Ok(GfxFormat::Packed3)
        } else if len == tiles * 16 {
            Ok(GfxFormat::Planar(Bpp::Two))
        } else if len == tiles * 24 {
            Ok(GfxFormat::Planar(Bpp::Three))
        } else if len == tiles * 32 {
            Ok(GfxFormat::Planar(Bpp::Four))
        } else {
            Err(GfxError::BadSize { index, len, tiles })
        },
    }
}

/// Infers the stored format from the decompressed size. `GFX27` is as long
/// as a 3bpp file and is told apart by its number.
pub fn infer_format(index: u8, len: usize) -> (r: Result<GfxFormat, GfxError>)
    ensures
        r == spec_infer_format(index, len),
{
    let tiles = gfx_file_tile_count(index)?;
    if index == 0x27 && len == tiles * PACKED3_BYTES_PER_TILE {
        return Ok(GfxFormat::Packed3);
    }
    if len % tiles == 0 {
        let per_tile = len / tiles;
        proof {
            vstd::arithmetic::div_mod::lemma_fundamental_div_mod(len as int, tiles as int);
        }
        if per_tile == 16 {
            return Ok(GfxFormat::Planar(Bpp::Two));
        } else if per_tile == 24 {
            return Ok(GfxFormat::Planar(Bpp::Three));
        } else if per_tile == 32 {
            return Ok(GfxFormat::Planar(Bpp::Four));
        }
    }
    proof {
        if len == tiles * 16 || len == tiles * 24 || len == tiles * 32 {
            vstd::arithmetic::div_mod::lemma_fundamental_div_mod(len as int, tiles as int);
            if len == tiles * 16 {
                lemma_split(len as int, tiles as int, 16, 0);
            } else if len == tiles * 24 {
                lemma_split(len as int, tiles as int, 24, 0);
            } else {
                lemma_split(len as int, tiles as int, 32, 0);
            }
        }
    }
    Err(GfxError::BadSize { index, len, tiles })
}

/// A decompressed GFX file in its stored format.
#[derive(Clone, PartialEq, Eq, Debug)]
pub struct GfxFile {
    pub index: u8,
    pub format: GfxFormat,
    /// Bytes in the stored format.
    pub data: Vec<u8>,
    /// Where the compressed data was read from.
    pub addr: SnesAddr,
    /// Size of the compressed data including the terminator.
    pub compressed_len: usize,
}

/// The 24 tiles of `GFX08` Lunar Magic exports with the upper palette.
pub open spec fn gfx08_upper() -> Seq<usize> {
    seq![
        55usize, 56, 57, 58, 59, 71, 72, 73, 74, 75, 86, 87, 88, 89, 90, 91, 96, 110, 111, 112, 122,
        123, 126, 127,
    ]
}

/// The tiles `0` to `n - 1`.
pub open spec fn all_tiles(n: usize) -> Seq<usize> {
    Seq::new(n as nat, |i: int| i as usize)
}

/// The first 16x16 block of a file: tiles 0, 1, 16 and 17.
pub open spec fn first_block() -> Seq<usize> {
    seq![0usize, 1, 16, 17]
}

pub open spec fn spec_upper_palette_tiles(index: u8, tile_count: usize) -> Seq<usize> {
    if index == 0x01 || index == 0x31 {
        first_block()
    } else if index == 0x08 {
        gfx08_upper()
    } else if index == 0x1E {
        all_tiles(tile_count)
    } else {
        Seq::empty()
    }
}

pub open spec fn spec_vram_upper_palette_tiles(index: u8, tileset: u8, tile_count: usize) -> Seq<
    usize,
> {
    if index == 0x01 || index == 0x17 || index == 0x31 {
        first_block()
    } else if index == 0x1E || (index == 0x08 && tileset >= 0x11) {
        all_tiles(tile_count)
    } else {
        Seq::empty()
    }
}

fn tiles_up_to(n: usize) -> (r: Vec<usize>)
    ensures
        r@ == all_tiles(n),
{
    let mut out: Vec<usize> = Vec::new();
    let mut i: usize = 0;
    while i < n
        invariant
            i <= n,
            out@ == all_tiles(i),
        decreases n - i,
    {
        out.push(i);
        i = i + 1;
        assert(out@ =~= all_tiles(i));
    }
    out
}

/// Tiles of a 3bpp file whose fourth bit plane Lunar Magic sets to the
/// tile's silhouette on export, so they use colours 8 to 15 of their
/// palette row.
///
/// The game does this itself when uploading to VRAM (`UploadGFXFile` in
/// bank `$00`): for files `01`, `17`, and `31` the first 16x16 block
/// (tiles 0, 1, 16, 17) is flagged, which is the berry using the colours
/// loaded from `BerryColors`; `GFX1E` is flagged in full, as is `GFX08`
/// when the object tileset is `$11` or above. Lunar Magic's export matches
/// that for `01`, `31`, and `1E`, skips `17`, and flags a fixed subset of
/// `GFX08`. This function reproduces Lunar Magic's export behaviour; use
/// [`vram_upper_palette_tiles`] for what the game puts in VRAM.
pub fn upper_palette_tiles(index: u8, tile_count: usize) -> (r: Vec<usize>)
    ensures
        r@ == spec_upper_palette_tiles(index, tile_count),
{
    if index == 0x01 || index == 0x31 {
        let r = vec![0, 1, 16, 17];
        assert(r@ =~= first_block());
        r
    } else if index == 0x08 {
        let r = vec![
            55, 56, 57, 58, 59, 71, 72, 73, 74, 75, 86, 87, 88, 89, 90, 91, 96, 110, 111, 112, 122,
            123, 126, 127,
        ];
        assert(r@ =~= gfx08_upper());
        r
    } else if index == 0x1E {
        tiles_up_to(tile_count)
    } else {
        Vec::new()
    }
}

/// Tiles the game uploads with the fourth plane set to the silhouette,
/// per `UploadGFXFile`. `tileset` is the level's object tileset.
pub fn vram_upper_palette_tiles(index: u8, tileset: u8, tile_count: usize) -> (r: Vec<usize>)
    ensures
        r@ == spec_vram_upper_palette_tiles(index, tileset, tile_count),
{
    if index == 0x01 || index == 0x17 || index == 0x31 {
        let r = vec![0, 1, 16, 17];
        assert(r@ =~= first_block());
        r
    } else if index == 0x1E || (index == 0x08 && tileset >= 0x11) {
        tiles_up_to(tile_count)
    } else {
        Vec::new()
    }
}


/// Bit depth for planar files, `None` for packed ones.
pub open spec fn format_bpp(format: GfxFormat) -> Option<Bpp> {
    match format {
        GfxFormat::Planar(bpp) => Some(bpp),
        GfxFormat::Packed3 => None,
    }
}

/// Whether tile `tile` of a file of `tile_count` tiles is exported with
/// the upper palette.
pub open spec fn is_upper(index: u8, tile_count: usize, tile: int) -> bool {
    spec_upper_palette_tiles(index, tile_count).contains(tile as usize)
}

/// What Lunar Magic exports for a file: 3bpp converted to 4bpp, with the
/// fourth plane of each upper-palette tile the union of its other three;
/// other formats as stored.
pub open spec fn spec_lm_export(file: GfxFile) -> Seq<u8> {
    match file.format {
        GfxFormat::Planar(Bpp::Three) => {
            let c = spec_3bpp_to_4bpp(file.data@);
            let count = (file.data@.len() / 24) as usize;
            Seq::new(
                c.len(),
                |i: int|
                    {
                        let (t, j) = (i / 32, i % 32);
                        if is_upper(file.index, count, t) && j >= 16 && j % 2 == 1 {
                            let y = (j - 17) / 2;
                            c[32 * t + 2 * y] | c[32 * t + 2 * y + 1] | c[32 * t + 16 + 2 * y]
                        } else {
                            c[i]
                        }
                    },
            )
        },
        _ => file.data@,
    }
}

/// Every tile the export gives the upper palette is in the file.
pub open spec fn export_fits(file: GfxFile) -> bool {
    file.format == GfxFormat::Planar(Bpp::Three) ==> forall|k: int|
        0 <= k < spec_upper_palette_tiles(file.index, (file.data@.len() / 24) as usize).len()
            ==> #[trigger] spec_upper_palette_tiles(file.index, (file.data@.len() / 24) as usize)[k]
            < file.data@.len() / 24
}

impl GfxFile {
    /// Bit depth for planar files, `None` for packed ones.
    pub fn bpp(&self) -> (r: Option<Bpp>)
        ensures
            r == format_bpp(self.format),
    {
        match self.format {
            GfxFormat::Planar(bpp) => Some(bpp),
            GfxFormat::Packed3 => None,
        }
    }

    /// Colours a tile of this file can hold.
    pub fn colors(&self) -> (r: usize)
        ensures
            r == match format_bpp(self.format) {
                Some(bpp) => spec_colors(bpp),
                None => 8,
            },
    {
        match self.bpp() {
            Some(bpp) => bpp.colors(),
            None => 8,
        }
    }

    pub fn tile_count(&self) -> (r: usize)
        ensures
            r == (self.data@.len() as int) / match format_bpp(self.format) {
                Some(bpp) => spec_bytes_per_tile(bpp),
                None => 24,
            },
    {
        let size = match self.bpp() {
            Some(bpp) => bpp.bytes_per_tile(),
            None => PACKED3_BYTES_PER_TILE,
        };
        self.data.len() / size
    }

    pub fn tiles(&self) -> (r: Vec<Tile8>)
        ensures
            r@.len() == (self.data@.len() as int) / match format_bpp(self.format) {
                Some(bpp) => spec_bytes_per_tile(bpp),
                None => 24,
            },
            forall|k: int, y: int, x: int|
                0 <= k < r@.len() && 0 <= y < 8 && 0 <= x < 8 ==> #[trigger] r@[k].pixels@[y]@[x]
                    == match self.format {
                    GfxFormat::Planar(bpp) => spec_pixel(
                        bpp,
                        self.data@.subrange(
                            k * spec_bytes_per_tile(bpp),
                            (k + 1) * spec_bytes_per_tile(bpp),
                        ),
                        y,
                        x,
                    ),
                    GfxFormat::Packed3 => spec_packed3_pixel(
                        self.data@.subrange(k * 24, k * 24 + 24),
                        y,
                        x,
                    ),
                },
    {
        match self.format {
            GfxFormat::Planar(bpp) => decode_tiles(bpp, self.data.as_slice()),
            GfxFormat::Packed3 => decode_packed3_tiles(self.data.as_slice()),
        }
    }

    /// The bytes Lunar Magic's `-ExportGFX` would write for this file.
    ///
    /// 3bpp files are converted to 4bpp. Tiles listed by
    /// [`upper_palette_tiles`] get their fourth plane set to the tile's
    /// silhouette so they use colours 8 to 15 of their palette row.
    pub fn to_lm_export(&self) -> (r: Vec<u8>)
        requires
            export_fits(*self),
        ensures
            r@ == spec_lm_export(*self),
    {
        match self.format {
            GfxFormat::Planar(Bpp::Three) => {
                let mut out = convert_3bpp_to_4bpp(self.data.as_slice());
                let count = self.tile_count();
                let upper = upper_palette_tiles(self.index, count);
                let ghost c = out@;
                let total = out.len();
                let mut k: usize = 0;
                while k < upper.len()
                    invariant
                        k <= upper@.len(),
                        total == c.len(),
                        upper@ == spec_upper_palette_tiles(self.index, count),
                        count == self.data@.len() / 24,
                        export_fits(*self),
                        self.format == GfxFormat::Planar(Bpp::Three),
                        c == spec_3bpp_to_4bpp(self.data@),
                        out@.len() == c.len(),
                        forall|i: int|
                            0 <= i < c.len() ==> #[trigger] out@[i] == if upper@.subrange(0, k as int).contains(
                                (i / 32) as usize,
                            ) && i % 32 >= 16 && (i % 32) % 2 == 1 {
                                let (t, y) = (i / 32, (i % 32 - 17) / 2);
                                c[32 * t + 2 * y] | c[32 * t + 2 * y + 1] | c[32 * t + 16 + 2 * y]
                            } else {
                                c[i]
                            },
                    decreases upper@.len() - k,
                {
                    let tile = upper[k];
                    proof {
                        assert(spec_upper_palette_tiles(self.index, (self.data@.len() / 24) as usize)[k as int]
                            < self.data@.len() / 24);
                        assert(tile < count);
                        assert(32 * tile + 32 <= c.len()) by (nonlinear_arith)
                            requires
                                tile < count,
                                c.len() == count * 32,
                        ;
                    }
                    let ghost before = out@;
                    let mut y: usize = 0;
                    while y < 8
                        invariant
                            y <= 8,
                            total == c.len(),
                            k < upper@.len(),
                            tile == upper@[k as int],
                            32 * tile + 32 <= c.len(),
                            out@.len() == c.len(),
                            before.len() == c.len(),
                            forall|i: int|
                                0 <= i < c.len() ==> #[trigger] before[i] == if upper@.subrange(
                                    0,
                                    k as int,
                                ).contains((i / 32) as usize) && i % 32 >= 16 && (i % 32) % 2 == 1 {
                                    let (t, yy) = (i / 32, (i % 32 - 17) / 2);
                                    c[32 * t + 2 * yy] | c[32 * t + 2 * yy + 1] | c[32 * t + 16 + 2
                                        * yy]
                                } else {
                                    c[i]
                                },
                            forall|i: int|
                                0 <= i < c.len() ==> #[trigger] out@[i] == if i / 32 == tile && 17
                                    <= i % 32 < 17 + 2 * y && (i % 32) % 2 == 1 {
                                    let (t, yy) = (i / 32, (i % 32 - 17) / 2);
                                    c[32 * t + 2 * yy] | c[32 * t + 2 * yy + 1] | c[32 * t + 16 + 2
                                        * yy]
                                } else {
                                    before[i]
                                },
                        decreases 8 - y,
                    {
                        let base = 32 * tile;
                        proof {
                            lemma_split(base + 2 * y, 32, tile as int, 2 * y as int);
                            lemma_split(base + 2 * y + 1, 32, tile as int, 2 * y + 1);
                            lemma_split(base + 16 + 2 * y, 32, tile as int, 16 + 2 * y);
                            lemma_split(base + 16 + 2 * y + 1, 32, tile as int, 17 + 2 * y);
                            assert((16 + 2 * y) % 2 == 0);
                        }
                        let v = out[base + 2 * y] | out[base + 2 * y + 1] | out[base + 16 + 2 * y];
                        let ghost prev = out@;
                        out.set(base + 16 + 2 * y + 1, v);
                        proof {
                            let i0 = base + 16 + 2 * y + 1;
                            assert((i0 % 32 - 17) / 2 == y);
                            assert forall|i: int| 0 <= i < c.len() && i != i0 implies #[trigger] out@[i]
                                == prev[i] by {}
                        }
                        y = y + 1;
                    }
                    proof {
                        assert forall|i: int| 0 <= i < c.len() implies #[trigger] out@[i] == if upper@.subrange(
                            0,
                            k + 1,
                        ).contains((i / 32) as usize) && i % 32 >= 16 && (i % 32) % 2 == 1 {
                            let (t, yy) = (i / 32, (i % 32 - 17) / 2);
                            c[32 * t + 2 * yy] | c[32 * t + 2 * yy + 1] | c[32 * t + 16 + 2 * yy]
                        } else {
                            c[i]
                        } by {
                            vstd::arithmetic::div_mod::lemma_fundamental_div_mod(i, 32);
                            let sub = upper@.subrange(0, k + 1);
                            assert(sub =~= upper@.subrange(0, k as int).push(tile));
                            if i / 32 == tile && i % 32 >= 16 && (i % 32) % 2 == 1 {
                                assert(sub.contains((i / 32) as usize)) by {
                                    assert(sub[k as int] == tile);
                                }
                            }
                            if upper@.subrange(0, k as int).contains((i / 32) as usize) {
                                let w = choose|w: int| 0 <= w < k && upper@.subrange(0, k as int)[w] == (i / 32) as usize;
                                assert(sub[w] == (i / 32) as usize);
                            }
                            if sub.contains((i / 32) as usize) && (i / 32) as usize != tile {
                                let w = choose|w: int| 0 <= w < k + 1 && sub[w] == (i / 32) as usize;
                                assert(w < k);
                                assert(upper@.subrange(0, k as int)[w] == (i / 32) as usize);
                            }
                        }
                    }
                    k = k + 1;
                }
                proof {
                    assert(upper@.subrange(0, upper@.len() as int) =~= upper@);
                    assert(out@ =~= spec_lm_export(*self));
                }
                out
            },
            _ => self.data.clone(),
        }
    }
}

} // verus!

verus! {

/// A ROM image as its mapping lays it out, to read tables and files from.
pub struct RomImage<'a> {
    pub mapping: Mapping,
    /// The headerless image.
    pub data: &'a [u8],
}

/// Why bytes could not be read from the image.
#[derive(Clone, Copy, Debug, PartialEq, Eq, Structural)]
pub enum ReadError {
    /// The address is not ROM under the image's mapping.
    NotRom(MapError),
    /// The bytes at the address lie past the image's end.
    PastEnd(SnesAddr),
}

impl ReadError {
    /// The error as a sentence.
    pub open spec fn text(self) -> Seq<char> {
        match self {
            ReadError::NotRom(e) => e.text(),
            ReadError::PastEnd(addr) => seq!['$'] + hex_digits(addr@ as nat, 6)
                + " is past the end of the ROM image"@,
        }
    }

    pub fn to_string(&self) -> (r: String)
        ensures
            r@ == self.text(),
    {
        match self {
            ReadError::NotRom(e) => e.to_string(),
            ReadError::PastEnd(addr) => {
                let mut s = addr.to_string();
                push_str(&mut s, " is past the end of the ROM image");
                s
            },
        }
    }
}

/// The `len` bytes at `addr` (a 24-bit address) in `data` under `mapping`,
/// if the address is ROM and the image holds them.
pub open spec fn spec_read(mapping: Mapping, data: Seq<u8>, addr: u32, len: int) -> Option<Seq<u8>> {
    match spec_snes_to_pc(mapping, addr) {
        Some(pc) => if pc + len <= data.len() {
            Some(data.subrange(pc as int, pc + len))
        } else {
            None
        },
        None => None,
    }
}

/// `e` is the error reading `len` bytes at `addr` gives.
pub open spec fn read_error(mapping: Mapping, data: Seq<u8>, addr: u32, len: int, e: ReadError) -> bool {
    match e {
        ReadError::NotRom(MapError::NotRom(a, m)) => a@ == addr && m == mapping && spec_snes_to_pc(
            mapping,
            addr,
        ) is None,
        ReadError::PastEnd(a) => a@ == addr && spec_snes_to_pc(mapping, addr) is Some && spec_read(
            mapping,
            data,
            addr,
            len,
        ) is None,
        _ => false,
    }
}

impl<'a> RomImage<'a> {
    /// The `len` bytes at `addr`.
    pub fn read(&self, addr: SnesAddr, len: usize) -> (r: Result<Vec<u8>, ReadError>)
        ensures
            match r {
                Ok(b) => spec_read(self.mapping, self.data@, addr@, len as int) == Some(b@),
                Err(e) => spec_read(self.mapping, self.data@, addr@, len as int) is None
                    && read_error(self.mapping, self.data@, addr@, len as int, e),
            },
    {
        let pc = match self.mapping.snes_to_pc(addr) {
            Ok(pc) => pc.as_usize(),
            Err(e) => return Err(ReadError::NotRom(e)),
        };
        if len > self.data.len() || pc > self.data.len() - len {
            return Err(ReadError::PastEnd(addr));
        }
        let mut out: Vec<u8> = Vec::new();
        append_slice(&mut out, slice_range(self.data, pc, pc + len));
        assert(out@ =~= self.data@.subrange(pc as int, pc + len));
        Ok(out)
    }

    /// The byte at `addr`.
    pub fn read_u8(&self, addr: SnesAddr) -> (r: Result<u8, ReadError>)
        ensures
            match r {
                Ok(b) => spec_read(self.mapping, self.data@, addr@, 1) == Some(seq![b]),
                Err(e) => spec_read(self.mapping, self.data@, addr@, 1) is None && read_error(
                    self.mapping,
                    self.data@,
                    addr@,
                    1,
                    e,
                ),
            },
    {
        let b = self.read(addr, 1)?;
        assert(b@ =~= seq![b@[0]]);
        Ok(b[0])
    }
}

/// The tables the GFX lists are in: FG1, FG2, BG1, FG3 of each object
/// tileset, and SP1 to SP4 of each sprite tileset.
pub const OBJECT_GFX_LIST: u32 = 0x00_A92B;

pub const SPRITE_GFX_LIST: u32 = 0x00_A8C3;

/// The four files of row `index` of the list at `table`.
pub open spec fn spec_gfx_list_row(mapping: Mapping, data: Seq<u8>, table: u32, index: u8) -> Option<
    Seq<u8>,
> {
    spec_read(mapping, data, (table + 4 * index) as u32, 4)
}

/// `r` is the row `index` of the list at `table`: the tileset's four
/// files, or why they could not be read.
pub open spec fn list_row_result(
    mapping: Mapping,
    data: Seq<u8>,
    table: u32,
    index: u8,
    r: Result<[u8; 4], GfxError>,
) -> bool {
    if index >= GFX_LIST_ROWS {
        r == Err::<[u8; 4], GfxError>(GfxError::BadTileset(index))
    } else {
        match r {
            Ok(files) => spec_gfx_list_row(mapping, data, table, index) == Some(files@),
            Err(GfxError::Rom(e)) => spec_gfx_list_row(mapping, data, table, index) is None
                && read_error(mapping, data, (table + 4 * index) as u32, 4, e),
            _ => false,
        }
    }
}

fn gfx_list_row(rom: &RomImage, table: u32, index: u8) -> (r: Result<[u8; 4], GfxError>)
    requires
        table <= 0xFF_FFFF - 4 * 26,
    ensures
        list_row_result(rom.mapping, rom.data@, table, index, r),
{
    if index >= GFX_LIST_ROWS {
        return Err(GfxError::BadTileset(index));
    }
    let at = SnesAddr::new(table + 4 * index as u32);
    let b = match rom.read(at, 4) {
        Ok(b) => b,
        Err(e) => return Err(GfxError::Rom(e)),
    };
    let files = [b[0], b[1], b[2], b[3]];
    assert(files@ =~= b@);
    Ok(files)
}

/// The layer GFX files (FG1, FG2, BG1, FG3) of an object tileset. Tilesets
/// 0 to 14 are the level tilesets; higher rows are boss and special levels.
pub fn object_tileset_files(rom: &RomImage, tileset: u8) -> (r: Result<[u8; 4], GfxError>)
    ensures
        list_row_result(rom.mapping, rom.data@, OBJECT_GFX_LIST, tileset, r),
{
    gfx_list_row(rom, OBJECT_GFX_LIST, tileset)
}

/// The sprite GFX files (SP1 to SP4) of a sprite tileset.
pub fn sprite_tileset_files(rom: &RomImage, tileset: u8) -> (r: Result<[u8; 4], GfxError>)
    ensures
        list_row_result(rom.mapping, rom.data@, SPRITE_GFX_LIST, tileset, r),
{
    gfx_list_row(rom, SPRITE_GFX_LIST, tileset)
}

/// The three vanilla pointer tables, one byte of each pointer per table.
/// Lunar Magic keeps these tables in place and rewrites the entries.
pub const GFX_PTR_LO: u32 = 0x00_B992;

pub const GFX_PTR_HI: u32 = 0x00_B9C4;

pub const GFX_PTR_BANK: u32 = 0x00_B9F6;

/// Operands in the routine that loads `GFX32` and `GFX33`: `LDY #GFX33`,
/// the `LDA #bank` after it, and `LDA #GFX32`. The bank is set once, for
/// both files.
pub const GFX33_PTR: u32 = 0x00_B88B;

pub const GFX32_33_BANK: u32 = 0x00_B890;

pub const GFX32_PTR: u32 = 0x00_B8D8;

/// Files reachable through the pointer tables.
pub const GFX_TABLE_FILES: u8 = 0x32;

/// The pointer reads of file `index`, in the order they are made: address
/// and length of each.
pub open spec fn ptr_reads(index: u8) -> Seq<(u32, int)> {
    if index >= GFX_TABLE_FILES {
        seq![
            (GFX32_33_BANK, 1int),
            (if index == 0x32 {
                GFX32_PTR
            } else {
                GFX33_PTR
            }, 2int),
        ]
    } else {
        seq![
            ((GFX_PTR_LO + index) as u32, 1int),
            ((GFX_PTR_HI + index) as u32, 1int),
            ((GFX_PTR_BANK + index) as u32, 1int),
        ]
    }
}

/// The address of file `index` its pointer bytes give: bank, then high
/// byte, then low byte.
pub open spec fn spec_gfx_file_ptr(mapping: Mapping, data: Seq<u8>, index: u8) -> Option<u32> {
    let reads = ptr_reads(index);
    if index >= GFX_TABLE_FILES {
        match (spec_read(mapping, data, reads[0].0, 1), spec_read(mapping, data, reads[1].0, 2)) {
            (Some(bank), Some(ptr)) => Some((bank[0] * 0x1_0000 + ptr[1] * 0x100 + ptr[0]) as u32),
            _ => None,
        }
    } else {
        match (
            spec_read(mapping, data, reads[0].0, 1),
            spec_read(mapping, data, reads[1].0, 1),
            spec_read(mapping, data, reads[2].0, 1),
        ) {
            (Some(lo), Some(hi), Some(bank)) => Some(
                (bank[0] * 0x1_0000 + hi[0] * 0x100 + lo[0]) as u32,
            ),
            _ => None,
        }
    }
}

/// `e` is the error of the first of `index`'s pointer reads that fails.
pub open spec fn ptr_read_error(mapping: Mapping, data: Seq<u8>, index: u8, e: ReadError) -> bool {
    let reads = ptr_reads(index);
    exists|k: int|
        0 <= k < reads.len() && (forall|j: int|
            0 <= j < k ==> #[trigger] spec_read(mapping, data, reads[j].0, reads[j].1) is Some)
            && spec_read(mapping, data, reads[k].0, reads[k].1) is None && read_error(
            mapping,
            data,
            reads[k].0,
            reads[k].1,
            e,
        )
}

/// `r` is the address of file `index`, or why it could not be read.
pub open spec fn file_ptr_result(
    mapping: Mapping,
    data: Seq<u8>,
    index: u8,
    r: Result<SnesAddr, GfxError>,
) -> bool {
    if index >= GFX_FILE_COUNT {
        r == Err::<SnesAddr, GfxError>(GfxError::BadIndex(index))
    } else {
        match r {
            Ok(a) => spec_gfx_file_ptr(mapping, data, index) == Some(a@),
            Err(GfxError::Rom(e)) => spec_gfx_file_ptr(mapping, data, index) is None
                && ptr_read_error(mapping, data, index, e),
            _ => false,
        }
    }
}

/// `r` is file `index`'s address, or the error of its first failing
/// pointer read.
pub open spec fn ptr_result(mapping: Mapping, data: Seq<u8>, index: u8, r: Result<SnesAddr, ReadError>) -> bool {
    match r {
        Ok(a) => spec_gfx_file_ptr(mapping, data, index) == Some(a@),
        Err(e) => spec_gfx_file_ptr(mapping, data, index) is None && ptr_read_error(
            mapping,
            data,
            index,
            e,
        ),
    }
}

/// The address `GFX32` or `GFX33` is loaded from: the routine's operands.
#[verifier::rlimit(40)]
fn immediate_file_ptr(rom: &RomImage, index: u8) -> (r: Result<SnesAddr, ReadError>)
    requires
        index == 0x32 || index == 0x33,
    ensures
        ptr_result(rom.mapping, rom.data@, index, r),
{
    let ghost reads = ptr_reads(index);
    let ghost (m, d) = (rom.mapping, rom.data@);
    let ptr = if index == 0x32 {
        GFX32_PTR
    } else {
        GFX33_PTR
    };
    let bank = match rom.read(SnesAddr::new(GFX32_33_BANK), 1) {
        Ok(b) => b,
        Err(e) => {
            assert(ptr_read_error(m, d, index, e)) by {
                assert(forall|j: int| 0 <= j < 0 ==> #[trigger] spec_read(m, d, reads[j].0, reads[j].1) is Some);
            };
            return Err(e);
        },
    };
    let low_high = match rom.read(SnesAddr::new(ptr), 2) {
        Ok(b) => b,
        Err(e) => {
            assert(ptr_read_error(m, d, index, e)) by {
                assert(spec_read(m, d, reads[0].0, reads[0].1) is Some);
                assert(forall|j: int| 0 <= j < 1 ==> #[trigger] spec_read(m, d, reads[j].0, reads[j].1) is Some);
            };
            return Err(e);
        },
    };
    Ok(SnesAddr::new(bank[0] as u32 * 0x1_0000 + low_high[1] as u32 * 0x100 + low_high[0] as u32))
}

/// The address a file in the pointer tables is loaded from.
#[verifier::rlimit(40)]
fn table_file_ptr(rom: &RomImage, index: u8) -> (r: Result<SnesAddr, ReadError>)
    requires
        index < GFX_TABLE_FILES,
    ensures
        ptr_result(rom.mapping, rom.data@, index, r),
{
    let ghost reads = ptr_reads(index);
    let ghost (m, d) = (rom.mapping, rom.data@);
    let i = index as u32;
    let lo = match rom.read(SnesAddr::new(GFX_PTR_LO + i), 1) {
        Ok(b) => b,
        Err(e) => {
            assert(ptr_read_error(m, d, index, e)) by {
                assert(forall|j: int| 0 <= j < 0 ==> #[trigger] spec_read(m, d, reads[j].0, reads[j].1) is Some);
            };
            return Err(e);
        },
    };
    let hi = match rom.read(SnesAddr::new(GFX_PTR_HI + i), 1) {
        Ok(b) => b,
        Err(e) => {
            assert(ptr_read_error(m, d, index, e)) by {
                assert(spec_read(m, d, reads[0].0, reads[0].1) is Some);
                assert(forall|j: int| 0 <= j < 1 ==> #[trigger] spec_read(m, d, reads[j].0, reads[j].1) is Some);
            };
            return Err(e);
        },
    };
    let bank = match rom.read(SnesAddr::new(GFX_PTR_BANK + i), 1) {
        Ok(b) => b,
        Err(e) => {
            assert(ptr_read_error(m, d, index, e)) by {
                assert(spec_read(m, d, reads[0].0, reads[0].1) is Some);
                assert(spec_read(m, d, reads[1].0, reads[1].1) is Some);
                assert(forall|j: int| 0 <= j < 2 ==> #[trigger] spec_read(m, d, reads[j].0, reads[j].1) is Some);
            };
            return Err(e);
        },
    };
    Ok(SnesAddr::new(bank[0] as u32 * 0x1_0000 + hi[0] as u32 * 0x100 + lo[0] as u32))
}

/// Where file `index`'s compressed data starts.
pub fn gfx_file_ptr(rom: &RomImage, index: u8) -> (r: Result<SnesAddr, GfxError>)
    ensures
        file_ptr_result(rom.mapping, rom.data@, index, r),
{
    if index >= GFX_FILE_COUNT {
        return Err(GfxError::BadIndex(index));
    }
    let found = if index >= GFX_TABLE_FILES {
        immediate_file_ptr(rom, index)
    } else {
        table_file_ptr(rom, index)
    };
    match found {
        Ok(a) => Ok(a),
        Err(e) => Err(GfxError::Rom(e)),
    }
}

/// The image offset file `index`'s pointer leads to, if it is ROM.
pub open spec fn file_offset(mapping: Mapping, data: Seq<u8>, index: u8) -> Option<u32> {
    match spec_gfx_file_ptr(mapping, data, index) {
        Some(a) => spec_snes_to_pc(mapping, a % 0x100_0000),
        None => None,
    }
}

/// Reads and decompresses GFX file `index`.
pub fn read_gfx_file(rom: &RomImage, index: u8) -> (r: Result<GfxFile, GfxError>)
    ensures
        index >= GFX_FILE_COUNT ==> r == Err::<GfxFile, GfxError>(GfxError::BadIndex(index)),
        index < GFX_FILE_COUNT && spec_gfx_file_ptr(rom.mapping, rom.data@, index) is None ==> (
        r matches Err(GfxError::Rom(e)) && ptr_read_error(rom.mapping, rom.data@, index, e)),
        r matches Ok(f) ==> {
            &&& f.index == index
            &&& spec_gfx_file_ptr(rom.mapping, rom.data@, index) == Some(f.addr@)
            &&& file_offset(rom.mapping, rom.data@, index) matches Some(pc)
            &&& spec_decompress(Format::Lz2, rom.data@.subrange(pc as int, rom.data@.len() as int))
                == Ok::<(Seq<u8>, int), LzError>((f.data@, f.compressed_len as int))
            &&& spec_infer_format(index, f.data@.len() as usize) == Ok::<GfxFormat, GfxError>(
                f.format,
            )
        },
        index < GFX_FILE_COUNT ==> (spec_gfx_file_ptr(rom.mapping, rom.data@, index) matches Some(a)
            ==> match file_offset(rom.mapping, rom.data@, index) {
            None => r matches Err(GfxError::Rom(ReadError::NotRom(MapError::NotRom(x, m))))
                && x@ == a % 0x100_0000 && m == rom.mapping,
            Some(pc) => if pc >= rom.data@.len() {
                r matches Err(GfxError::Rom(ReadError::PastEnd(x))) && x@ == a % 0x100_0000
            } else {
                match spec_decompress(Format::Lz2, rom.data@.subrange(pc as int, rom.data@.len() as int)) {
                    Err(e) => r matches Err(GfxError::Decompress { index: i, addr: x, source })
                        && i == index && x@ == a % 0x100_0000 && source == e,
                    Ok((out, _)) => match spec_infer_format(index, out.len() as usize) {
                        Err(e) => r == Err::<GfxFile, GfxError>(e),
                        Ok(_) => r is Ok,
                    },
                }
            },
        }),
{
    let addr = match gfx_file_ptr(rom, index) {
        Ok(a) => a,
        Err(e) => return Err(e),
    };
    let pc = match rom.mapping.snes_to_pc(addr) {
        Ok(pc) => pc.as_usize(),
        Err(e) => return Err(GfxError::Rom(ReadError::NotRom(e))),
    };
    if pc >= rom.data.len() {
        return Err(GfxError::Rom(ReadError::PastEnd(addr)));
    }
    let input = slice_range(rom.data, pc, rom.data.len());
    let d = match lz2::decompress(input) {
        Ok(d) => d,
        Err(source) => return Err(GfxError::Decompress { index, addr, source }),
    };
    let format = infer_format(index, d.data.len())?;
    Ok(GfxFile { index, format, data: d.data, addr, compressed_len: d.consumed })
}

} // verus!
