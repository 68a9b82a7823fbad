use kobo_core::addr::{MapError, Mapping, PcAddr, SnesAddr};

fn s(a: u32) -> SnesAddr {
    SnesAddr::new(a)
}

fn pc(p: u32) -> PcAddr {
    PcAddr::new(p)
}

#[test]
fn snes_addr_parts() {
    let a = SnesAddr::from_bank_offset(0x05, 0xE000);
    assert_eq!(a.raw(), 0x05E000);
    assert_eq!(a.bank(), 0x05);
    assert_eq!(a.offset(), 0xE000);
    assert_eq!(a.to_string(), "$05E000");
    assert_eq!(s(0xFF05E000), s(0x05E000));
}

#[test]
fn lorom_known_addresses() {
    let m = Mapping::LoRom;
    assert_eq!(m.snes_to_pc(s(0x008000)), Ok(pc(0x000000)));
    assert_eq!(m.snes_to_pc(s(0x00FFFF)), Ok(pc(0x007FFF)));
    assert_eq!(m.snes_to_pc(s(0x018000)), Ok(pc(0x008000)));
    // SMW layer 1 level pointer table.
    assert_eq!(m.snes_to_pc(s(0x05E000)), Ok(pc(0x02E000)));
    // Internal header location.
    assert_eq!(m.snes_to_pc(s(0x00FFC0)), Ok(pc(0x007FC0)));
    // Mirrors in the upper half of the address space.
    assert_eq!(m.snes_to_pc(s(0x808000)), Ok(pc(0x000000)));
    assert_eq!(m.snes_to_pc(s(0x85E000)), Ok(pc(0x02E000)));
    // End of a 4 MiB ROM.
    assert_eq!(m.snes_to_pc(s(0xFFFFFF)), Ok(pc(0x3FFFFF)));
}

#[test]
fn lorom_rejects_non_rom() {
    let m = Mapping::LoRom;
    for a in [0x000000, 0x007FFF, 0x7E0000, 0x7F1234, 0x700000, 0xF00000] {
        assert_eq!(
            m.snes_to_pc(s(a)),
            Err(MapError::NotRom(s(a), m)),
            "{:06X}",
            a
        );
    }
}

#[test]
fn lorom_pc_to_snes() {
    let m = Mapping::LoRom;
    assert_eq!(m.pc_to_snes(pc(0x000000)), Ok(s(0x008000)));
    assert_eq!(m.pc_to_snes(pc(0x007FFF)), Ok(s(0x00FFFF)));
    assert_eq!(m.pc_to_snes(pc(0x008000)), Ok(s(0x018000)));
    assert_eq!(m.pc_to_snes(pc(0x02E000)), Ok(s(0x05E000)));
    assert_eq!(m.pc_to_snes(pc(0x3F0000)), Ok(s(0xFE8000)));
    assert_eq!(m.pc_to_snes(pc(0x3FFFFF)), Ok(s(0xFFFFFF)));
    assert_eq!(
        m.pc_to_snes(pc(0x400000)),
        Err(MapError::OutOfRange(pc(0x400000), m))
    );
}

#[test]
fn lorom_round_trips() {
    let m = Mapping::LoRom;
    for p in (0..0x40_0000u32).step_by(0x1234) {
        let a = m.pc_to_snes(pc(p)).unwrap();
        assert_eq!(m.snes_to_pc(a), Ok(pc(p)), "{}", a.to_string());
    }
}

#[test]
fn sa1_known_addresses() {
    let m = Mapping::Sa1Rom;
    // LoROM-style banks.
    assert_eq!(m.snes_to_pc(s(0x008000)), Ok(pc(0x000000)));
    assert_eq!(m.snes_to_pc(s(0x05E000)), Ok(pc(0x02E000)));
    assert_eq!(m.snes_to_pc(s(0x1FFFFF)), Ok(pc(0x0FFFFF)));
    assert_eq!(m.snes_to_pc(s(0x208000)), Ok(pc(0x100000)));
    assert_eq!(m.snes_to_pc(s(0x3FFFFF)), Ok(pc(0x1FFFFF)));
    assert_eq!(m.snes_to_pc(s(0x808000)), Ok(pc(0x200000)));
    assert_eq!(m.snes_to_pc(s(0xA08000)), Ok(pc(0x300000)));
    assert_eq!(m.snes_to_pc(s(0xBFFFFF)), Ok(pc(0x3FFFFF)));
    // HiROM-style banks.
    assert_eq!(m.snes_to_pc(s(0xC00000)), Ok(pc(0x000000)));
    assert_eq!(m.snes_to_pc(s(0xC08000)), Ok(pc(0x008000)));
    assert_eq!(m.snes_to_pc(s(0xD00000)), Ok(pc(0x100000)));
    assert_eq!(m.snes_to_pc(s(0xE00000)), Ok(pc(0x200000)));
    assert_eq!(m.snes_to_pc(s(0xF00000)), Ok(pc(0x300000)));
    assert_eq!(m.snes_to_pc(s(0xFFFFFF)), Ok(pc(0x3FFFFF)));
}

#[test]
fn sa1_rejects_non_rom() {
    let m = Mapping::Sa1Rom;
    for a in [0x000000, 0x007FFF, 0x400000, 0x408000, 0x7E0000, 0x7F8000] {
        assert_eq!(
            m.snes_to_pc(s(a)),
            Err(MapError::NotRom(s(a), m)),
            "{:06X}",
            a
        );
    }
}

#[test]
fn sa1_pc_to_snes() {
    let m = Mapping::Sa1Rom;
    assert_eq!(m.pc_to_snes(pc(0x000000)), Ok(s(0x008000)));
    assert_eq!(m.pc_to_snes(pc(0x008000)), Ok(s(0x018000)));
    assert_eq!(m.pc_to_snes(pc(0x100000)), Ok(s(0x208000)));
    assert_eq!(m.pc_to_snes(pc(0x200000)), Ok(s(0x808000)));
    assert_eq!(m.pc_to_snes(pc(0x2FFFFF)), Ok(s(0x9FFFFF)));
    assert_eq!(m.pc_to_snes(pc(0x300000)), Ok(s(0xA08000)));
    assert_eq!(m.pc_to_snes(pc(0x3FFFFF)), Ok(s(0xBFFFFF)));
    assert_eq!(
        m.pc_to_snes(pc(0x400000)),
        Err(MapError::OutOfRange(pc(0x400000), m))
    );
}

#[test]
fn sa1_round_trips() {
    let m = Mapping::Sa1Rom;
    for p in (0..0x40_0000u32).step_by(0x1234) {
        let a = m.pc_to_snes(pc(p)).unwrap();
        assert_eq!(m.snes_to_pc(a), Ok(pc(p)), "{}", a.to_string());
    }
}

#[test]
fn map_mode_detection() {
    const MIB: usize = 0x10_0000;
    assert_eq!(Mapping::from_map_mode(0x20, MIB), Some(Mapping::LoRom));
    assert_eq!(Mapping::from_map_mode(0x30, MIB), Some(Mapping::LoRom));
    assert_eq!(Mapping::from_map_mode(0x23, 4 * MIB), Some(Mapping::Sa1Rom));
    assert_eq!(
        Mapping::from_map_mode(0x23, 6 * MIB),
        Some(Mapping::BigSa1Rom)
    );
    assert_eq!(Mapping::from_map_mode(0x21, MIB), None);
    assert_eq!(Mapping::from_map_mode(0x25, MIB), None);
}

#[test]
fn big_sa1_splits_the_image_between_the_views() {
    let m = Mapping::BigSa1Rom;
    assert!(m.is_sa1());
    // The first 4 MiB as the default assignment has them, LoROM only.
    for a in [0x008000, 0x05E000, 0x3FFFFF, 0x808000, 0xBFFFFF] {
        assert_eq!(m.snes_to_pc(s(a)), Mapping::Sa1Rom.snes_to_pc(s(a)));
    }
    // The rest in whole banks.
    assert_eq!(m.snes_to_pc(s(0xC00000)), Ok(pc(0x400000)));
    assert_eq!(m.snes_to_pc(s(0xFFFFFF)), Ok(pc(0x7FFFFF)));
    assert!(m.snes_to_pc(s(0x400000)).is_err());
    assert!(m.snes_to_pc(s(0x001234)).is_err());
    assert_eq!(m.pc_to_snes(pc(0x02E000)), Ok(s(0x05E000)));
    assert_eq!(m.pc_to_snes(pc(0x3FFFFF)), Ok(s(0xBFFFFF)));
    assert_eq!(m.pc_to_snes(pc(0x400000)), Ok(s(0xC00000)));
    assert_eq!(m.pc_to_snes(pc(0x7FFFFF)), Ok(s(0xFFFFFF)));
    assert!(m.pc_to_snes(pc(0x800000)).is_err());
    assert!(Mapping::Sa1Rom.pc_to_snes(pc(0x400000)).is_err());
}
