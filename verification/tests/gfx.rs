use kobo_core::gfx::{
    convert_3bpp_to_4bpp, convert_4bpp_to_3bpp, decode_packed3_tiles, decode_tiles,
    gfx_file_tile_count, infer_format, upper_palette_tiles, vram_upper_palette_tiles, Bpp,
    GfxError, GfxFile, GfxFormat, Tile8,
};
use kobo_core::addr::SnesAddr;

// A tile whose pixel value equals (x + y) & mask, for testing planes.
fn gradient(mask: u8) -> Tile8 {
    let mut t = Tile8::default();
    for (y, row) in t.pixels.iter_mut().enumerate() {
        for (x, px) in row.iter_mut().enumerate() {
            *px = ((x + y) as u8) & mask;
        }
    }
    t
}

#[test]
fn decode_2bpp_single_pixels() {
    // Row 0: leftmost pixel has plane 0 set; row 1: rightmost has plane 1.
    let mut bytes = [0u8; 16];
    bytes[0] = 0x80;
    bytes[3] = 0x01;
    let t = Tile8::decode(Bpp::Two, &bytes);
    assert_eq!(t.pixels[0][0], 1);
    assert_eq!(t.pixels[1][7], 2);
    assert_eq!(t.pixels.iter().flatten().filter(|&&p| p != 0).count(), 2);
}

#[test]
fn decode_3bpp_third_plane() {
    let mut bytes = [0u8; 24];
    bytes[16 + 5] = 0x10; // row 5, x = 3, plane 2
    let t = Tile8::decode(Bpp::Three, &bytes);
    assert_eq!(t.pixels[5][3], 4);
}

#[test]
fn decode_4bpp_fourth_plane() {
    let mut bytes = [0u8; 32];
    bytes[16 + 2 * 7 + 1] = 0x01; // row 7, x = 7, plane 3
    bytes[16 + 2 * 7] = 0x01; // plane 2
    bytes[2 * 7] = 0x01; // plane 0
    let t = Tile8::decode(Bpp::Four, &bytes);
    assert_eq!(t.pixels[7][7], 0b1101);
}

#[test]
fn packed3_pixels_run_across_byte_boundaries() {
    let mut bytes = [0u8; 24];
    // Row 0 holds pixels 0 to 7 in order (octal 01234567); row 7 ends
    // on a 5.
    bytes[..3].copy_from_slice(&0o01234567u32.to_be_bytes()[1..]);
    bytes[23] = 0b101;
    let tiles = decode_packed3_tiles(&bytes);
    assert_eq!(tiles.len(), 1);
    assert_eq!(tiles[0].pixels[0], [0, 1, 2, 3, 4, 5, 6, 7]);
    assert_eq!(tiles[0].pixels[7], [0, 0, 0, 0, 0, 0, 0, 5]);
}

#[test]
fn encode_decode_round_trips() {
    for (bpp, mask) in [(Bpp::Two, 3), (Bpp::Three, 7), (Bpp::Four, 15)] {
        let t = gradient(mask);
        let bytes = t.encode(bpp);
        assert_eq!(bytes.len(), bpp.bytes_per_tile());
        assert_eq!(Tile8::decode(bpp, &bytes), t, "{bpp:?}");
    }
}

#[test]
fn conversion_3bpp_4bpp_round_trips() {
    let t = gradient(7);
    let three = t.encode(Bpp::Three);
    let four = convert_3bpp_to_4bpp(&three);
    assert_eq!(four, t.encode(Bpp::Four));
    assert_eq!(convert_4bpp_to_3bpp(&four), three);
}

#[test]
fn format_inference() {
    assert_eq!(infer_format(0x00, 3072).unwrap(), GfxFormat::Planar(Bpp::Three));
    assert_eq!(infer_format(0x00, 4096).unwrap(), GfxFormat::Planar(Bpp::Four));
    assert_eq!(infer_format(0x28, 2048).unwrap(), GfxFormat::Planar(Bpp::Two));
    assert_eq!(infer_format(0x27, 3072).unwrap(), GfxFormat::Packed3);
    assert_eq!(infer_format(0x32, 23808).unwrap(), GfxFormat::Planar(Bpp::Four));
    assert_eq!(infer_format(0x33, 9216).unwrap(), GfxFormat::Planar(Bpp::Three));
    assert_eq!(infer_format(0x2F, 1024).unwrap(), GfxFormat::Planar(Bpp::Two));
    assert_eq!(infer_format(0x30, 1536).unwrap(), GfxFormat::Planar(Bpp::Three));
    assert!(matches!(
        infer_format(0x00, 3000),
        Err(GfxError::BadSize {
            index: 0,
            len: 3000,
            tiles: 128
        })
    ));
    assert!(matches!(
        infer_format(0x34, 4096),
        Err(GfxError::BadIndex(0x34))
    ));
}

#[test]
fn tile_counts_and_upper_palette_tiles() {
    assert_eq!(gfx_file_tile_count(0x00).unwrap(), 128);
    assert_eq!(gfx_file_tile_count(0x30).unwrap(), 64);
    assert_eq!(gfx_file_tile_count(0x32).unwrap(), 744);
    assert_eq!(gfx_file_tile_count(0x33).unwrap(), 384);
    assert!(matches!(gfx_file_tile_count(0x40), Err(GfxError::BadIndex(0x40))));
    assert_eq!(upper_palette_tiles(0x01, 128), vec![0, 1, 16, 17]);
    assert_eq!(upper_palette_tiles(0x08, 128).len(), 24);
    assert_eq!(upper_palette_tiles(0x1E, 3), vec![0, 1, 2]);
    assert!(upper_palette_tiles(0x17, 128).is_empty());
    assert_eq!(vram_upper_palette_tiles(0x17, 0, 128), vec![0, 1, 16, 17]);
    assert_eq!(vram_upper_palette_tiles(0x08, 0x11, 2), vec![0, 1]);
    assert!(vram_upper_palette_tiles(0x08, 0x10, 2).is_empty());
}

#[test]
fn decodes_whole_tiles_and_exports_like_lunar_magic() {
    let t = gradient(7);
    let mut data = t.encode(Bpp::Three);
    data.extend([0xAA; 5]);
    let tiles = decode_tiles(Bpp::Three, &data);
    assert_eq!(tiles, vec![t]);
    let mut data = Vec::new();
    for _ in 0..18 {
        data.extend(t.encode(Bpp::Three));
    }
    let file = GfxFile {
        index: 0x01,
        format: GfxFormat::Planar(Bpp::Three),
        data: data.clone(),
        addr: SnesAddr::new(0x08_8000),
        compressed_len: 0,
    };
    assert_eq!(file.bpp(), Some(Bpp::Three));
    assert_eq!(file.colors(), 8);
    assert_eq!(file.tile_count(), 18);
    let export = file.to_lm_export();
    assert_eq!(export.len(), 18 * 32);
    // Tile 0 is in the upper palette: its fourth plane is its silhouette.
    let upper = Tile8::decode(Bpp::Four, &export[..32]);
    for y in 0..8 {
        for x in 0..8 {
            let p = t.pixels[y][x];
            assert_eq!(upper.pixels[y][x], if p == 0 { 0 } else { p | 8 });
        }
    }
    // Tile 2 is not.
    assert_eq!(Tile8::decode(Bpp::Four, &export[64..96]), t);
}

#[test]
fn encoding_keeps_only_the_bits_the_depth_holds() {
    for (bpp, mask) in [(Bpp::Two, 3u8), (Bpp::Three, 7), (Bpp::Four, 15)] {
        let mut t = Tile8::default();
        for (y, row) in t.pixels.iter_mut().enumerate() {
            for (x, px) in row.iter_mut().enumerate() {
                *px = (x * 37 + y * 11 + 0xF0) as u8;
            }
        }
        let decoded = Tile8::decode(bpp, &t.encode(bpp));
        for y in 0..8 {
            for x in 0..8 {
                assert_eq!(decoded.pixels[y][x], t.pixels[y][x] & mask, "{bpp:?} {x} {y}");
            }
        }
    }
}
