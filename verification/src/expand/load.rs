//! What level loading decides from the values the game leaves in RAM.

use vstd::prelude::*;

use super::tiles::{GRID_LEN, SCREEN_COLS, SCREEN_ROWS};

verus! {

/// Rows per screen of a level whose height register (`$13D7`) holds
/// `height`: a vertical level has 16; a horizontal one has the height's
/// rows when it describes whole rows that fit the planes, else the
/// vanilla 27.
pub open spec fn spec_level_rows(height: u16, vertical: bool) -> usize {
    if vertical {
        16
    } else if height % 16 == 0 && height / 16 > 0 && (height / 16) * 16 <= GRID_LEN {
        (height / 16) as usize
    } else {
        SCREEN_ROWS
    }
}

/// Rows per screen of the loaded level. Lunar Magic 3's expanded level
/// format stores a horizontal level's height in `$13D7`; vanilla and
/// older Lunar Magic ROMs leave it zero. Anything that does not describe
/// whole rows fitting the planes is treated as the vanilla 27.
pub fn level_rows(height: u16, vertical: bool) -> (r: usize)
    ensures
        r == spec_level_rows(height, vertical),
{
    if vertical {
        return 16;
    }
    let height = height as usize;
    let rows = height / 16;
    if height % 16 == 0 && rows > 0 && rows * SCREEN_COLS <= GRID_LEN {
        rows
    } else {
        SCREEN_ROWS
    }
}

} // verus!
