use kobo_core::expand::diagnostics::Diagnostic;
use kobo_core::expand::{max_screens, Layer2Objects, LevelTiles, SCREEN_ROWS};

#[test]
fn layer2_objects_start_after_layer_1s_share_of_the_screens() {
    let horizontal = |rows: usize| match Layer2Objects::for_level(0x02, rows) {
        Some(Layer2Objects::Horizontal {
            base,
            rows,
            screens,
        }) => (base, rows, screens),
        other => panic!("{other:?}"),
    };
    assert_eq!(horizontal(27), (0x1B00, 27, 16));
    assert_eq!(horizontal(47), (0x1D60, 47, 9)); // 19 screens: 10 + 9
    assert_eq!(horizontal(74), (0x1BC0, 74, 6));
    assert_eq!(horizontal(298), (0x2540, 298, 1));
    assert_eq!(horizontal(448), (0x1C00, 448, 1));
    assert_eq!(Layer2Objects::for_level(0x02, 50), None);
    assert_eq!(Layer2Objects::for_level(0x00, 27), None);
    let layout = Layer2Objects::for_level(0x01, 47).unwrap();
    assert_eq!(layout.offset(17, 3), Some(0x1D60 + 0x2F0 + 3 * 16 + 1));
    assert_eq!(layout.offset(9 * 16, 0), None);
    assert_eq!(layout.offset(0, 47), None);
}

#[test]
fn level_sizes_give_screen_counts() {
    assert_eq!(max_screens(27), Some(0x20));
    assert_eq!(max_screens(14), Some(0x40));
    assert_eq!(max_screens(0x380), Some(1));
    assert_eq!(max_screens(28), Some(0x20));
    assert_eq!(max_screens(50), None);
    assert_eq!(max_screens(0), None);
    assert_eq!(max_screens(usize::MAX), None);
}

#[test]
fn vertical_layouts_and_the_vanilla_mode_table() {
    assert_eq!(Layer2Objects::for_level(0x07, 16), Some(Layer2Objects::Vertical));
    assert_eq!(
        Layer2Objects::for_level_mode(0x1F),
        Layer2Objects::for_level(0x1F, SCREEN_ROWS)
    );
    assert_eq!(Layer2Objects::for_level_mode(0x09), None);
    let v = Layer2Objects::Vertical;
    assert_eq!(v.offset(0, 0), Some(0x1C00));
    assert_eq!(v.offset(17, 18), Some(0x1C00 + 0x200 + 0x100 + 2 * 16 + 1));
    assert_eq!(v.offset(32, 0), None);
    assert_eq!(v.offset(0, 14 * 16), None);
}

fn level(vertical: bool, rows: usize) -> LevelTiles {
    let mut low = vec![0u8; 0x3800];
    let mut high = vec![0u8; 0x3800];
    for i in 0..0x3800 {
        low[i] = (i % 256) as u8;
        high[i] = (i / 256 % 2) as u8;
    }
    LevelTiles {
        level: 0x105,
        level_mode: if vertical { 0x07 } else { 0x02 },
        object_tileset: 3,
        vertical,
        screens: 40,
        rows,
        low,
        high,
        camera: [0x100, 0x10],
        layer2_position: [0x80, 0x20],
        layer2_tilemap: None,
        layer2_screen_len: 0x1B0,
        diagnostics: Vec::<Diagnostic>::new(),
    }
}

#[test]
fn tiles_read_both_planes_at_the_grid_position() {
    let h = level(false, 27);
    assert_eq!(h.screen_len(), 0x1B0);
    assert_eq!(h.offset(17, 2), 0x1B0 + 2 * 16 + 1);
    let i = 0x1B0 + 2 * 16 + 1;
    let expected = (i % 256) as u16 + ((i / 256 % 2) as u16) * 256;
    assert_eq!(h.tile_at(17, 2), expected);
    assert_eq!(h.tile(1, 1, 2), expected);
    let v = level(true, 16);
    assert_eq!(v.screen_len(), 0x200);
    assert_eq!(v.offset(17, 18), 0x200 + 0x100 + 2 * 16 + 1);
}

#[test]
fn level_size_counts_only_captured_screens() {
    // 0x3800 bytes hold 33 whole screens of 27 rows, though the header
    // says 40.
    assert_eq!(level(false, 27).size(), (33 * 16, 27));
    assert_eq!(level(true, 16).size(), (32, 28 * 16));
}

#[test]
fn layer2_objects_and_offsets() {
    let h = level(false, 27);
    let layout = h.layer2_objects().unwrap();
    assert_eq!(layout, Layer2Objects::Horizontal { base: 0x1B00, rows: 27, screens: 16 });
    let i = 0x1B00 + 16 + 1;
    assert_eq!(h.layer2_object_tile(1, 1), Some((i % 256) as u16 + 256));
    assert_eq!(h.layer2_object_tile(16 * 16, 0), None);
    assert_eq!(h.layer2_palette_mask(), 4);
    assert_eq!(h.layer2_offset(), [0x80, -0x10]);
    let mut bg = level(false, 27);
    bg.layer2_tilemap = Some((vec![0x12; 0x400], vec![0x01; 0x400]));
    assert_eq!(bg.layer2_objects(), None);
    assert_eq!(bg.layer2_object_tile(1, 1), None);
    assert_eq!(bg.layer2_bg_tile(3, 1, 1), Some(0x200 + 0x112));
    assert_eq!(bg.layer2_bg_rows(), 27);
    assert_eq!(level(false, 27).layer2_bg_tile(0, 0, 0), None);
}
