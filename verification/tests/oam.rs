use kobo_core::expand::oam::{object_sizes, screen_objects, HIDDEN_Y, OAM_LEN, OAM_OBJECTS};

fn oam_with(objects: &[(usize, u8, u8, u8, u8, u8)]) -> Vec<u8> {
    let mut oam = vec![0u8; OAM_LEN];
    for i in 0..OAM_OBJECTS {
        oam[i * 4 + 1] = HIDDEN_Y;
    }
    for &(i, x, y, tile, attr, high) in objects {
        oam[i * 4..i * 4 + 4].copy_from_slice(&[x, y, tile, attr]);
        oam[OAM_OBJECTS * 4 + i / 4] |= high << (2 * (i % 4));
    }
    oam
}

#[test]
fn oam_hidden_and_offscreen_objects_are_dropped() {
    let sizes = object_sizes(0x60); // 16x16 and 32x32
    let oam = oam_with(&[
        (0, 10, 20, 0x40, 0x30, 2),   // large, visible
        (1, 10, 0xF0, 0x40, 0x30, 2), // hidden marker
        (2, 0xF8, 30, 0x41, 0x00, 1), // x = -8, small: 8 px visible
        (3, 0xF0, 30, 0x41, 0x00, 1), // x = -16, small: gone
        (4, 0, 0xF8, 0x42, 0x00, 2),  // y = -8, large: visible
        (5, 0, 0xE0, 0x42, 0x00, 0),  // y = 224: below the screen
    ]);
    let got: Vec<_> = screen_objects(&oam, 0, sizes)
        .iter()
        .map(|o| (o.x, o.y, o.tile, o.attr, o.large))
        .collect();
    assert_eq!(
        got,
        [
            (10, 20, 0x40, 0x30, true),
            (-8, 30, 0x41, 0x00, false),
            (0, -8, 0x42, 0x00, true),
        ]
    );
}

#[test]
fn oam_objects_start_from_the_first_written_one() {
    let sizes = object_sizes(0x03); // 8x8 and 16x16, what SMW uses
    assert_eq!(sizes, [(8, 8), (16, 16)]);
    let oam = oam_with(&[(0, 1, 1, 1, 0, 0), (100, 2, 2, 2, 0, 0)]);
    let got: Vec<u8> = screen_objects(&oam, 100, sizes)
        .iter()
        .map(|o| o.tile)
        .collect();
    assert_eq!(got, [2, 1]);
}

/// An image with the object the game wrote first in the byte after it.
fn oam_with_first(objects: &[(usize, u8, u8, u8, u8, u8)], first: u8) -> Vec<u8> {
    let mut oam = vec![0u8; 0x240];
    for i in 0..128 {
        oam[i * 4 + 1] = 0xF0;
    }
    for &(i, x, y, tile, attr, high) in objects {
        oam[i * 4..i * 4 + 4].copy_from_slice(&[x, y, tile, attr]);
        oam[512 + i / 4] |= high << (2 * (i % 4));
    }
    oam.push(first);
    oam
}

fn objects_of(oam: &[u8], sizes: [(i32, i32); 2]) -> Vec<(i32, i32, u8, u8, bool)> {
    screen_objects(oam, oam[0x240] as usize, sizes)
        .iter()
        .map(|o| (o.x, o.y, o.tile, o.attr, o.large))
        .collect()
}

#[test]
fn expand_hidden_and_offscreen_objects_are_dropped() {
    let sizes = object_sizes(0x60); // 16x16 and 32x32
    let oam = oam_with_first(
        &[
            (0, 10, 20, 0x40, 0x30, 2),   // large, visible
            (1, 10, 0xF0, 0x40, 0x30, 2), // hidden marker
            (2, 0xF8, 30, 0x41, 0x00, 1), // x = -8, small: 8 px visible
            (3, 0xF0, 30, 0x41, 0x00, 1), // x = -16, small: gone
            (4, 0, 0xF8, 0x42, 0x00, 2),  // y = -8, large: visible
            (5, 0, 0xE0, 0x42, 0x00, 0),  // y = 224: below the screen
        ],
        0,
    );
    let got = objects_of(&oam, sizes);
    assert_eq!(
        got,
        [
            (10, 20, 0x40, 0x30, true),
            (-8, 30, 0x41, 0x00, false),
            (0, -8, 0x42, 0x00, true),
        ]
    );
}

#[test]
fn expand_objects_start_from_the_first_written_one() {
    let sizes = object_sizes(0x03); // 8x8 and 16x16, what SMW uses
    assert_eq!(sizes, [(8, 8), (16, 16)]);
    let oam = oam_with_first(&[(0, 1, 1, 1, 0, 0), (100, 2, 2, 2, 0, 0)], 100);
    let got: Vec<u8> = objects_of(&oam, sizes).iter().map(|o| o.2).collect();
    assert_eq!(got, [2, 1]);
}

#[test]
fn every_obsel_size_setting() {
    assert_eq!(object_sizes(0x00), [(8, 8), (16, 16)]);
    assert_eq!(object_sizes(0x20), [(8, 8), (32, 32)]);
    assert_eq!(object_sizes(0x40), [(8, 8), (64, 64)]);
    assert_eq!(object_sizes(0xA0), [(32, 32), (64, 64)]);
    assert_eq!(object_sizes(0xC0), [(16, 32), (32, 64)]);
    assert_eq!(object_sizes(0xFF), [(16, 32), (32, 32)]);
}
