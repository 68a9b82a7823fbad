use kobo_core::addr::{Mapping, SnesAddr};
use kobo_core::entrance::{
    read_entrance_settings, read_level_settings, EntranceSettings, Layout, LevelSettings, Version,
    DEFAULT_BYTES,
};
use kobo_core::gfx::{ReadError, RomImage};

/// Where a LoROM address lands in the image.
fn pc(addr: u32) -> usize {
    (((addr >> 16) & 0x7F) * 0x8000 + (addr & 0x7FFF)) as usize
}

/// A LoROM image up to bank `$0D`, with level `$105`'s settings and
/// midway bytes, and secondary entrance `$20`'s bytes.
fn image() -> Vec<u8> {
    let mut data = vec![0u8; 0x7_0000];
    for (table, value) in [
        (0x05DE00, 0x20),
        (0x06FA00, 0x9F),
        (0x06FC00, 0x41),
        (0x06FE00, 0x9A),
    ] {
        data[pc(table + 0x105)] = value;
    }
    for (n, value) in [0x20u8, 0x61, 0x86, 0x41].into_iter().enumerate() {
        data[pc(0x0CA000 + n as u32 * 0x200 + 0x105)] = value;
    }
    data[pc(0x05FA00 + 0x20)] = 0x12;
    data[pc(0x05FC00 + 0x20)] = 0x34;
    data[pc(0x0D8000 + 0x20)] = 0xC5;
    data[pc(0x0D8200 + 0x20)] = 0xE0;
    data
}

fn three(scroll: bool) -> Layout {
    Layout {
        settings: Some(Version::Three),
        scroll,
        midway: Some(SnesAddr::new(0x0CA000)),
        extra: Some([SnesAddr::new(0x0D8000), SnesAddr::new(0x0D8200)]),
    }
}

#[test]
fn level_settings_come_from_the_four_tables_and_the_midway_bytes() {
    let data = image();
    let rom = RomImage { mapping: Mapping::LoRom, data: &data };
    let s = read_level_settings(&rom, &three(true), 0x105, false).unwrap();
    assert_eq!(s, LevelSettings::from_bytes([0x20, 0x9F, 0x41, 0x9A], [0x20, 0x61, 0x86, 0x41]));
    assert_eq!(s.layer2_vertical_scroll, Some(0x1F));
    // Before 3.40 the scroll table is not there to read.
    let s = read_level_settings(&rom, &three(false), 0x105, false).unwrap();
    assert_eq!(
        s,
        LevelSettings::from_bytes([0x20, DEFAULT_BYTES[1], 0x41, 0x9A], [0x20, 0x61, 0x86, 0x41])
    );
}

#[test]
fn old_level_settings_are_converted() {
    let data = image();
    let rom = RomImage { mapping: Mapping::LoRom, data: &data };
    let layout = Layout { settings: Some(Version::Old), ..three(true) };
    let s = read_level_settings(&rom, &layout, 0x105, true).unwrap();
    assert_eq!(s, LevelSettings::from_old_bytes(0x20, [0x20, 0x61, 0x86], true));
    // Without midway tables the midway bytes are zero.
    let layout = Layout { midway: None, ..layout };
    let s = read_level_settings(&rom, &layout, 0x105, false).unwrap();
    assert_eq!(s, LevelSettings::from_old_bytes(0x20, [0, 0, 0], false));
}

#[test]
fn a_rom_without_tables_has_the_defaults() {
    let data = image();
    let rom = RomImage { mapping: Mapping::LoRom, data: &data };
    let layout = Layout { settings: None, scroll: false, midway: None, extra: None };
    assert_eq!(read_level_settings(&rom, &layout, 0x105, false), Ok(LevelSettings::default()));
    assert_eq!(
        read_entrance_settings(&rom, &layout, 0x20, 0x55, false),
        Ok(EntranceSettings::default())
    );
}

#[test]
fn the_first_byte_past_the_image_is_the_error() {
    let data = vec![0u8; 0x2_0000];
    let rom = RomImage { mapping: Mapping::LoRom, data: &data };
    assert_eq!(
        read_level_settings(&rom, &three(true), 0x105, false),
        Err(ReadError::PastEnd(SnesAddr::new(0x05DF05)))
    );
    assert_eq!(
        read_entrance_settings(&rom, &three(true), 0x20, 0, false),
        Err(ReadError::PastEnd(SnesAddr::new(0x0D8020)))
    );
}

#[test]
fn entrance_settings_come_from_the_game_and_extra_tables() {
    let data = image();
    let rom = RomImage { mapping: Mapping::LoRom, data: &data };
    let e = read_entrance_settings(&rom, &three(true), 0x20, 0x9A, false).unwrap();
    assert_eq!(e, EntranceSettings::from_bytes([0x12, 0x34, 0x9A], [0xC5, 0xE0]));
    // Past the extra tables' end their bytes are zero.
    let e = read_entrance_settings(&rom, &three(true), 0x1FE, 0x9A, false).unwrap();
    assert_eq!(e, EntranceSettings::from_bytes([0, 0, 0x9A], [0, 0]));
    let layout = Layout { settings: Some(Version::Old), ..three(true) };
    let e = read_entrance_settings(&rom, &layout, 0x20, 0x3A, false).unwrap();
    assert_eq!(e, EntranceSettings::from_old_byte(0x3A, false));
}
