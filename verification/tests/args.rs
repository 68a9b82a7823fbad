use kobo_core::addr::{MapError, Mapping, PcAddr, SnesAddr};
use kobo_core::args::{convert_addr, parse_size, parse_unsigned, AddrArgError, Conversion};

#[test]
fn sizes_take_a_unit() {
    assert_eq!(parse_size("1M"), Some(0x10_0000));
    assert_eq!(parse_size("1536K"), Some(1536 * 1024));
    assert_eq!(parse_size("1536k"), Some(1536 * 1024));
    assert_eq!(parse_size("4096"), Some(4096));
    assert_eq!(parse_size("+2m"), Some(0x20_0000));
    assert_eq!(parse_size("M"), None);
    assert_eq!(parse_size(""), None);
    assert_eq!(parse_size("1.5M"), None);
    assert_eq!(parse_size("-1"), None);
    assert_eq!(parse_size("18446744073709551615"), Some(usize::MAX));
    assert_eq!(parse_size("18446744073709551616"), None);
    assert_eq!(parse_size("18446744073709551615K"), None);
}

#[test]
fn hexadecimal_numbers_read_as_from_str_radix_reads_them() {
    let hex = |s: &str| parse_unsigned(s.as_bytes(), 0, s.len(), 16, u32::MAX as u64);
    for s in ["105", "ffFF", "+1A", "0", "FFFFFFFF", "100000000", "", "+", "1g", "-1"] {
        assert_eq!(hex(s), u32::from_str_radix(s, 16).ok().map(u64::from), "{s:?}");
    }
}

#[test]
fn addresses_convert_either_way() {
    assert_eq!(
        convert_addr("0x2E000", false),
        Ok(Conversion::PcToSnes(PcAddr::new(0x2E000), SnesAddr::new(0x05_E000)))
    );
    assert_eq!(
        convert_addr("$05E000", false),
        Ok(Conversion::SnesToPc(SnesAddr::new(0x05_E000), PcAddr::new(0x2E000)))
    );
    assert_eq!(
        convert_addr("05E000", false),
        Ok(Conversion::SnesToPc(SnesAddr::new(0x05_E000), PcAddr::new(0x2E000)))
    );
    assert_eq!(convert_addr("0x", false), Err(AddrArgError::BadOffset));
    assert_eq!(convert_addr("$zz", false), Err(AddrArgError::BadAddress));
    assert_eq!(convert_addr("1000000", false), Err(AddrArgError::TooWide));
    assert_eq!(
        convert_addr("$7E0000", false),
        Err(AddrArgError::NotMapped(MapError::NotRom(SnesAddr::new(0x7E_0000), Mapping::LoRom)))
    );
    assert_eq!(
        convert_addr("0x400000", true),
        Err(AddrArgError::NotMapped(MapError::OutOfRange(PcAddr::new(0x40_0000), Mapping::Sa1Rom)))
    );
}
