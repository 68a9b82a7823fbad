use kobo_core::addr::{Mapping, SnesAddr};
use kobo_core::compress::lz2;
use kobo_core::gfx::{
    gfx_file_ptr, object_tileset_files, read_gfx_file, sprite_tileset_files, Bpp, GfxError,
    GfxFormat, ReadError, RomImage,
};

/// A LoROM image of two banks with GFX00's pointer leading to `$009000`,
/// where an LZ2 stream of 3bpp tiles stands.
fn image() -> Vec<u8> {
    let mut data = vec![0u8; 0x1_0000];
    // GFX00: low, high, and bank bytes of `$009000`.
    data[0x3992] = 0x00;
    data[0x39C4] = 0x90;
    data[0x39F6] = 0x00;
    let tiles: Vec<u8> = (0..0xC00).map(|i| (i % 7) as u8).collect();
    let packed = lz2::compress(&tiles).unwrap();
    data[0x1000..0x1000 + packed.len()].copy_from_slice(&packed);
    // Object tileset 1's files, and sprite tileset 2's.
    data[0x292B + 4..0x292B + 8].copy_from_slice(&[0x14, 0x17, 0x19, 0x15]);
    data[0x28C3 + 8..0x28C3 + 12].copy_from_slice(&[0x00, 0x01, 0x13, 0x02]);
    // GFX32 and GFX33 in bank 8.
    data[0x3890] = 0x08;
    data[0x38D8..0x38DA].copy_from_slice(&[0x00, 0xD0]);
    data[0x388B..0x388D].copy_from_slice(&[0x34, 0x12]);
    data
}

#[test]
fn gfx_files_are_read_through_their_pointers() {
    let data = image();
    let rom = RomImage { mapping: Mapping::LoRom, data: &data };
    assert_eq!(gfx_file_ptr(&rom, 0x00), Ok(SnesAddr::new(0x00_9000)));
    assert_eq!(gfx_file_ptr(&rom, 0x32), Ok(SnesAddr::new(0x08_D000)));
    assert_eq!(gfx_file_ptr(&rom, 0x33), Ok(SnesAddr::new(0x08_1234)));
    assert_eq!(gfx_file_ptr(&rom, 0x34), Err(GfxError::BadIndex(0x34)));
    let file = read_gfx_file(&rom, 0x00).unwrap();
    assert_eq!(file.format, GfxFormat::Planar(Bpp::Three));
    assert_eq!(file.addr, SnesAddr::new(0x00_9000));
    assert_eq!(file.data.len(), 0xC00);
    assert_eq!(file.data[8], 1);
    assert_eq!(object_tileset_files(&rom, 1), Ok([0x14, 0x17, 0x19, 0x15]));
    assert_eq!(sprite_tileset_files(&rom, 2), Ok([0x00, 0x01, 0x13, 0x02]));
    assert_eq!(object_tileset_files(&rom, 26), Err(GfxError::BadTileset(26)));
}

#[test]
fn unreadable_pointers_and_data_are_errors() {
    let data = image();
    let short = &data[..0x3000];
    let rom = RomImage { mapping: Mapping::LoRom, data: short };
    assert_eq!(
        gfx_file_ptr(&rom, 0x00),
        Err(GfxError::Rom(ReadError::PastEnd(SnesAddr::new(0x00_B992))))
    );
    // GFX01's pointer is all zeros: `$000000` is not ROM.
    let rom = RomImage { mapping: Mapping::LoRom, data: &data };
    assert!(matches!(read_gfx_file(&rom, 0x01), Err(GfxError::Rom(ReadError::NotRom(_)))));
    // GFX02's pointer leads to `$008000`, where no stream ends.
    let mut data = image();
    data[0x3994] = 0x00;
    data[0x39C6] = 0x80;
    data[..0x1000].fill(0x1F);
    let rom = RomImage { mapping: Mapping::LoRom, data: &data };
    assert!(matches!(read_gfx_file(&rom, 0x02), Err(GfxError::Decompress { index: 2, .. })));
    assert_eq!(
        GfxError::Rom(ReadError::PastEnd(SnesAddr::new(0x00_B992))).to_string(),
        "$00B992 is past the end of the ROM image"
    );
}
