use kobo_core::expand::{level_rows, SCREEN_ROWS};

/// The level height register as the game leaves it: zero in vanilla.
const VANILLA_HEIGHT: u16 = 0;

#[test]
fn load_level_rows_come_from_the_reported_height() {
    assert_eq!(level_rows(VANILLA_HEIGHT, false), SCREEN_ROWS);
    assert_eq!(level_rows(VANILLA_HEIGHT, true), 16);
    assert_eq!(level_rows(0x0280, false), 40);
    assert_eq!(level_rows(0x0288, false), SCREEN_ROWS); // not whole rows
}

#[test]
fn expand_level_rows_come_from_the_reported_height() {
    assert_eq!(level_rows(VANILLA_HEIGHT, false), SCREEN_ROWS);
    assert_eq!(level_rows(VANILLA_HEIGHT, true), 16);
    // Low byte 0x80, high byte 0x02.
    assert_eq!(level_rows(0x0280, false), 40);
    assert_eq!(level_rows(0x0288, false), SCREEN_ROWS); // not whole rows
}

#[test]
fn heights_past_the_planes_are_vanilla() {
    assert_eq!(level_rows(0x3800, false), 0x380);
    assert_eq!(level_rows(0x3810, false), SCREEN_ROWS);
    assert_eq!(level_rows(0xFFF0, true), 16);
}
