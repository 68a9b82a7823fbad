//! Reading the objects a frame drew out of the game's OAM image.

use vstd::prelude::*;

verus! {

/// Screen size the sprite engine draws within.
pub const SCREEN_W: i32 = 256;

pub const SCREEN_H: i32 = 224;

/// The Y position the game parks unused OAM objects at.
pub const HIDDEN_Y: u8 = 0xF0;

/// Objects in OAM, and the bytes of the image: four per object, then the
/// size and X-high bits packed four objects to a byte.
pub const OAM_OBJECTS: usize = 128;

pub const OAM_LEN: usize = 544;

/// One object of the picture, in screen or level coordinates.
#[derive(Clone, Copy, PartialEq, Eq, Debug, Structural)]
pub struct SpriteObject {
    pub x: i32,
    pub y: i32,
    pub tile: u8,
    pub attr: u8,
    pub large: bool,
}

/// Small and large object dimensions for an `OBSEL` value.
pub open spec fn spec_object_sizes(object_select: u8) -> [(i32, i32); 2] {
    let size = object_select / 32;
    if size == 0 {
        [(8i32, 8i32), (16i32, 16i32)]
    } else if size == 1 {
        [(8i32, 8i32), (32i32, 32i32)]
    } else if size == 2 {
        [(8i32, 8i32), (64i32, 64i32)]
    } else if size == 3 {
        [(16i32, 16i32), (32i32, 32i32)]
    } else if size == 4 {
        [(16i32, 16i32), (64i32, 64i32)]
    } else if size == 5 {
        [(32i32, 32i32), (64i32, 64i32)]
    } else if size == 6 {
        [(16i32, 32i32), (32i32, 64i32)]
    } else {
        [(16i32, 32i32), (32i32, 32i32)]
    }
}

pub fn object_sizes(object_select: u8) -> (r: [(i32, i32); 2])
    ensures
        r == spec_object_sizes(object_select),
{
    match object_select / 32 {
        0 => [(8, 8), (16, 16)],
        1 => [(8, 8), (32, 32)],
        2 => [(8, 8), (64, 64)],
        3 => [(16, 16), (32, 32)],
        4 => [(16, 16), (64, 64)],
        5 => [(32, 32), (64, 64)],
        6 => [(16, 32), (32, 64)],
        _ => [(16, 32), (32, 32)],
    }
}

/// The two bits of the high table for object `object`: bit 0 the ninth
/// bit of X, bit 1 the size.
pub open spec fn high_bits(oam: Seq<u8>, object: int) -> int {
    let packed = oam[OAM_OBJECTS * 4 + object / 4] as int;
    let k = object % 4;
    (if k == 0 {
        packed
    } else if k == 1 {
        packed / 4
    } else if k == 2 {
        packed / 16
    } else {
        packed / 64
    }) % 4
}

/// Object `object` as it shows on the screen, or `None` when it is hidden
/// (Y `$F0`) or entirely off the screen. A Y past the screen's bottom is
/// read as negative.
pub open spec fn screen_object(oam: Seq<u8>, sizes: [(i32, i32); 2], object: int) -> Option<
    SpriteObject,
> {
    let high = high_bits(oam, object);
    let large = high / 2 == 1;
    let (width, height) = if large {
        sizes@[1]
    } else {
        sizes@[0]
    };
    let x = oam[object * 4] - if high % 2 == 1 {
        256int
    } else {
        0
    };
    let raw_y = oam[object * 4 + 1];
    let y = if raw_y >= SCREEN_H {
        raw_y - 256
    } else {
        raw_y as int
    };
    if raw_y == HIDDEN_Y {
        None
    } else if x + width <= 0 || x >= SCREEN_W || y + height <= 0 || y >= SCREEN_H {
        None
    } else {
        Some(
            SpriteObject {
                x: x as i32,
                y: y as i32,
                tile: oam[object * 4 + 2],
                attr: oam[object * 4 + 3],
                large,
            },
        )
    }
}

/// The visible objects among the first `n` from object `first` on,
/// wrapping after the last.
pub open spec fn visible_objects(oam: Seq<u8>, first: int, sizes: [(i32, i32); 2], n: int) -> Seq<
    SpriteObject,
>
    decreases n,
{
    if n <= 0 {
        Seq::empty()
    } else {
        let before = visible_objects(oam, first, sizes, n - 1);
        match screen_object(oam, sizes, (first + n - 1) % (OAM_OBJECTS as int)) {
            Some(o) => before.push(o),
            None => before,
        }
    }
}

/// Adding a size to a coordinate on the screen's edges stays an `i32`.
pub open spec fn sizes_fit(sizes: [(i32, i32); 2]) -> bool {
    forall|k: int|
        0 <= k < 2 ==> -0x7FFF_FF00 <= #[trigger] sizes@[k].0 <= 0x7FFF_FF00 && -0x7FFF_FF00
            <= sizes@[k].1 <= 0x7FFF_FF00
}

fn high_of(oam: &[u8], object: usize) -> (r: u8)
    requires
        oam@.len() >= OAM_LEN,
        object < OAM_OBJECTS,
    ensures
        r == high_bits(oam@, object as int),
{
    let packed = oam[OAM_OBJECTS * 4 + object / 4];
    let shifted = match object % 4 {
        0 => packed,
        1 => packed / 4,
        2 => packed / 16,
        _ => packed / 64,
    };
    shifted % 4
}

/// Visible objects in an OAM image, front to back from object `first`, in
/// screen coordinates. Y `$F0` is the game's hidden marker; objects
/// entirely off the screen are dropped, and those wrapped past its bottom
/// are read as negative.
pub fn screen_objects(oam: &[u8], first: usize, sizes: [(i32, i32); 2]) -> (r: Vec<SpriteObject>)
    requires
        oam@.len() >= OAM_LEN,
        sizes_fit(sizes),
    ensures
        r@ == visible_objects(oam@, first as int, sizes, OAM_OBJECTS as int),
{
    let mut out: Vec<SpriteObject> = Vec::new();
    let start = first % OAM_OBJECTS;
    let mut offset: usize = 0;
    while offset < OAM_OBJECTS
        invariant
            offset <= OAM_OBJECTS,
            start == first % 128,
            oam@.len() >= OAM_LEN,
            sizes_fit(sizes),
            out@ == visible_objects(oam@, first as int, sizes, offset as int),
        decreases OAM_OBJECTS - offset,
    {
        let object = (start + offset) % OAM_OBJECTS;
        assert(object == (first + offset) % 128) by {
            vstd::arithmetic::div_mod::lemma_add_mod_noop(first as int, offset as int, 128);
            vstd::arithmetic::div_mod::lemma_mod_twice(first as int, 128);
            vstd::arithmetic::div_mod::lemma_add_mod_noop(start as int, offset as int, 128);
            vstd::arithmetic::div_mod::lemma_small_mod(offset as nat, 128);
        }
        let high = high_of(oam, object);
        let large = high / 2 == 1;
        let (width, height) = if large {
            sizes[1]
        } else {
            sizes[0]
        };
        let x = oam[object * 4] as i32 - if high % 2 == 1 {
            256
        } else {
            0
        };
        let raw_y = oam[object * 4 + 1];
        if raw_y != HIDDEN_Y {
            let y = if raw_y as i32 >= SCREEN_H {
                raw_y as i32 - 256
            } else {
                raw_y as i32
            };
            if !(x + width <= 0 || x >= SCREEN_W || y + height <= 0 || y >= SCREEN_H) {
                out.push(
                    SpriteObject {
                        x,
                        y,
                        tile: oam[object * 4 + 2],
                        attr: oam[object * 4 + 3],
                        large,
                    },
                );
            }
        }
        offset = offset + 1;
    }
    out
}

} // verus!
