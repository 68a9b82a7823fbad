use kobo_core::entrance::{
    Background, EntranceSettings, LevelSettings, Midway, SeparateMidway, DEFAULT_BYTES,
};

#[test]
fn defaults_are_a_fresh_install() {
    let s = LevelSettings::default();
    assert_eq!(s.background, Background::Height(27));
    assert!(s.auto_screens && s.relative.is_none() && s.midway.separate.is_none());
    assert_eq!(s.to_bytes(), (DEFAULT_BYTES, [0; 4]));
}

#[test]
fn bytes_round_trip_what_they_keep() {
    // Kaizo Kindergarten's level 101: method 2, relative with F set,
    // a separate midway entrance.
    let bytes = [0x20, 0x20, 0x41, 0x9A];
    let midway = [0x20, 0x61, 0x86, 0x41];
    let s = LevelSettings::from_bytes(bytes, midway);
    assert_eq!(s.tile_position, Some((0, 1)));
    assert_eq!(s.relative, Some(true));
    let Some(SeparateMidway::Entrance(m)) = s.midway.separate else {
        panic!("{s:?}")
    };
    assert_eq!((m.x, m.y, m.relative), (1, 0x16, Some(true)));
    assert_eq!(s.to_bytes(), (bytes, midway));
    // Bits without effect are dropped: X and Y high bits without
    // method 2, F without R, the midway entrance without H.
    let s = LevelSettings::from_bytes([0x18, 0x20, 0x45, 0x1A], [0x08, 0x61, 0x86, 0x41]);
    assert_eq!(s.to_bytes(), ([0x00, 0x20, 0x00, 0x1A], [0; 4]));
}

#[test]
fn background_placements() {
    for (o, bits, want) in [
        (false, 0x1A, Background::Height(27)),
        (false, 0x00, Background::Height(1)),
        (true, 0x1A, Background::Offset(-6)),
        (true, 0x0F, Background::Offset(15)),
        (true, 0x10, Background::Absolute),
    ] {
        assert_eq!(Background::from_bits(o, bits), want);
        assert_eq!(want.to_bits(), (o, bits));
    }
}

#[test]
fn redirected_midway() {
    let m = Midway::from_bytes([0x30, 0x05, 0x21, 0x00]);
    assert!(m.screen_high);
    assert_eq!(m.separate, Some(SeparateMidway::Redirect(0x105)));
    assert_eq!(m.to_bytes(), [0x30, 0x05, 0x21, 0x00]);
}

#[test]
fn old_versions_move_the_y_bit_in_horizontal_levels() {
    // Grand Poo World 2 level 001's midway entrance, and a main
    // entrance with method 2 and the Y bit.
    let s = LevelSettings::from_old_bytes(0x30, [0x2C, 0x12, 0x0A], false);
    assert_eq!(
        s.to_bytes(),
        ([0x20, 0x20, 0x01, 0x1A], [0x24, 0x12, 0x0A, 0x01])
    );
    let s = LevelSettings::from_old_bytes(0x30, [0x28, 0x31, 0x0A], true);
    assert_eq!(
        s.to_bytes(),
        ([0x30, 0x20, 0x00, 0x1A], [0x28, 0x31, 0x0A, 0x00])
    );
    let e = EntranceSettings::from_old_byte(0x60, false);
    assert_eq!(e.to_bytes(), (0x40, [0x01, 0x00]));
}

#[test]
fn entrance_settings() {
    // Kaizo Kindergarten's entrance 0C5: method 2 with X bit 3, F set.
    let e = EntranceSettings::from_bytes([0x24, 0x04, 0x50], [0x40, 0x00]);
    assert_eq!(e.tile_position, Some((1, 0)));
    assert_eq!(e.relative, None);
    assert_eq!(e.to_bytes(), (0x50, [0x00, 0x00]));
    let e = EntranceSettings::from_bytes([0x24, 0x04, 0x90], [0x40, 0xE0]);
    assert!(e.slippery && e.face_left && e.water);
    assert_eq!(e.relative, Some(true));
    assert_eq!(e.to_bytes(), (0x80, [0x40, 0xE0]));
}
