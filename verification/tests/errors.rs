use kobo_core::addr::{MapError, Mapping, PcAddr, SnesAddr};
use kobo_core::bps::BpsError;
use kobo_core::compress::LzError;
use kobo_core::cpu::CpuError;
use kobo_core::gfx::GfxError;

#[test]
fn errors_read_as_sentences() {
    assert_eq!(
        LzError::Truncated(5).to_string(),
        "compressed data ends at offset 5 without a terminator"
    );
    assert_eq!(
        LzError::BadBackRef { src: 9, len: 4, offset: 2 }.to_string(),
        "back-reference to output offset 9 at input offset 2 points outside the 4 bytes produced so far"
    );
    assert_eq!(
        BpsError::PatchCrc { expected: 0xDEAD_BEEF, actual: 0x12 }.to_string(),
        "patch CRC32 is 00000012, its footer says deadbeef: the file is damaged"
    );
    assert_eq!(
        BpsError::TooLarge(1 << 30).to_string(),
        "target of 1073741824 bytes is over the 67108864-byte limit"
    );
    assert_eq!(
        BpsError::OutOfBounds { action: "SourceCopy", offset: 7, region: "source" }.to_string(),
        "SourceCopy at patch offset 7 goes outside the source"
    );
    assert_eq!(
        MapError::NotRom(SnesAddr::new(0x7E_0000), Mapping::LoRom).to_string(),
        "$7E0000 is not a ROM address under LoRom mapping"
    );
    assert_eq!(
        MapError::OutOfRange(PcAddr::new(0x80_0000), Mapping::BigSa1Rom).to_string(),
        "0x800000 is outside the addressable ROM range under BigSa1Rom mapping"
    );
    assert_eq!(
        GfxError::BadIndex(0x40).to_string(),
        "GFX file index 40 is out of range (00 to 33)"
    );
    assert_eq!(
        GfxError::Decompress {
            index: 0x14,
            addr: SnesAddr::new(0x08_D9F9),
            source: LzError::TooLarge,
        }
        .to_string(),
        "GFX14 at $08D9F9: decompressed output exceeds 65536 bytes"
    );
    assert_eq!(
        CpuError::Limit { limit: 1000, pb: 0x05, pc: 0x8000 }.to_string(),
        "instruction limit of 1000 exceeded at $05:8000"
    );
}

#[test]
fn offsets_print_at_least_six_digits() {
    assert_eq!(PcAddr::new(0x7FD5).to_string(), "0x007FD5");
    assert_eq!(PcAddr::new(0x100_0000).to_string(), "0x1000000");
    assert_eq!(PcAddr::new(0xFFFF_FFFF).to_string(), "0xFFFFFFFF");
    assert_eq!(SnesAddr::new(0x00_8000).to_string(), "$008000");
}
