use kobo_core::cpu::smw_bus::SmwBus;
use kobo_core::cpu::{Bus, Cpu, CpuError};
use kobo_core::gfx::RomImage;
use kobo_core::Mapping;

/// A 32 KiB LoROM image whose first 256 bytes count up.
fn rom_data() -> Vec<u8> {
    let mut data = vec![0u8; 0x8000];
    data[0x7FC0 + 0x15] = 0x20;
    for (i, b) in data.iter_mut().enumerate().take(0x100) {
        *b = i as u8;
    }
    data
}

fn lorom(data: &[u8]) -> RomImage<'_> {
    RomImage { mapping: Mapping::LoRom, data }
}

#[test]
fn video_registers_keep_separate_shared_latches() {
    let data = rom_data();
    let mut bus = SmwBus::new(lorom(&data));
    bus.write(0x210B, 0x73);
    assert_eq!(&bus.bg_character_base[..2], &[0x6000, 0xE000]);
    bus.write(0x210D, 0xAB);
    bus.write(0x210D, 0x01);
    assert_eq!(bus.bg_scroll[0][0], 0x01AB);
    assert_eq!(bus.mode7.scroll[0], 0x01AB);
    bus.write(0x211B, 0xFE);
    bus.write(0x211C, 0xFF); // Matrix registers share a latch.
    assert_eq!(bus.mode7.matrix[1], -2);
    bus.write(0x210E, 0x02);
    assert_eq!(bus.bg_scroll[0][1], 0x0201);
    assert_eq!(bus.mode7.scroll[1], 0x02FF);
    bus.write(0x212E, 0x11);
    bus.write(0x212F, 0x02);
    bus.write(0x2129, 0x80);
    bus.write(0x212B, 0x04);
    assert_eq!(bus.window_masks, [0x11, 0x02]);
    assert_eq!((bus.window2, bus.window_logic), ([0, 0x80], [0, 0x04]));
    bus.write(0x4209, 0xAE);
    bus.write(0x420A, 0xFF);
    assert_eq!(bus.irq_scanline, 0x1AE);
    assert_eq!([bus.read(0x4212), bus.read(0x4212), bus.read(0x4212)], [0, 0x40, 0]);
}

/// A 32 KiB SA-1 cartridge with `code` placed at bank 0 addresses.
fn sa1_rom(code: &[(u16, &[u8])]) -> Vec<u8> {
    let mut data = vec![0u8; 0x8000];
    data[0x7FC0 + 0x15] = 0x23;
    for (addr, bytes) in code {
        let at = (addr - 0x8000) as usize;
        data[at..at + bytes.len()].copy_from_slice(bytes);
    }
    data
}

/// Points the SA-1's reset vector at `$8100` and its IRQ vector at
/// `$8140`, lets the SA-1 interrupt the S-CPU, and releases it.
const START_SA1: &[u8] = &[
    0xA9, 0x00, 0x8D, 0x03, 0x22, // LDA #$00 : STA $2203
    0xA9, 0x81, 0x8D, 0x04, 0x22, // LDA #$81 : STA $2204
    0xA9, 0x40, 0x8D, 0x07, 0x22, // LDA #$40 : STA $2207
    0xA9, 0x81, 0x8D, 0x08, 0x22, // LDA #$81 : STA $2208
    0xA9, 0x80, 0x8D, 0x01, 0x22, // LDA #$80 : STA $2201
    0x9C, 0x00, 0x22, // STZ $2200
];

#[test]
fn the_processors_hand_work_to_each_other_and_wait() {
    let mut main = START_SA1.to_vec();
    main.extend([
        0x58, // CLI
        0xA9, 0x85, 0x8D, 0x00, 0x22, // LDA #$85 : STA $2200 (IRQ, message 5)
        0xAD, 0x00, 0x30, 0xF0, 0xFB, // - LDA $3000 : BEQ -
        0x6B, // RTL
    ]);
    let sa1_reset: &[u8] = &[
        0x18, 0xFB, // CLC : XCE
        0xA9, 0x80, 0x8D, 0x0A, 0x22, // LDA #$80 : STA $220A
        0x58, // CLI
        0xA5, 0x10, 0xF0, 0xFC, // - LDA $10 : BEQ -
        0xDB, // STP
    ];
    let sa1_irq: &[u8] = &[
        0xAD, 0x01, 0x23, 0x8D, 0x01, 0x30, // LDA $2301 : STA $3001
        0xA9, 0x80, 0x8D, 0x0B, 0x22, // LDA #$80 : STA $220B
        0xA9, 0x80, 0x8D, 0x0E, 0x22, // LDA #$80 : STA $220E
        0xA9, 0x81, 0x8D, 0x0F, 0x22, // LDA #$81 : STA $220F
        0xA9, 0xC7, 0x8D, 0x09, 0x22, // LDA #$C7 : STA $2209
        0xAD, 0x02, 0x30, 0xF0, 0xFB, // - LDA $3002 : BEQ -
        0xA9, 0x01, 0x8D, 0x00, 0x30, // LDA #$01 : STA $3000
        0x40, // RTI
    ];
    let main_irq: &[u8] = &[
        0xAD, 0x00, 0x23, 0x8D, 0x03, 0x30, // LDA $2300 : STA $3003
        0xA9, 0x80, 0x8D, 0x02, 0x22, // LDA #$80 : STA $2202
        0xA9, 0x01, 0x8D, 0x02, 0x30, // LDA #$01 : STA $3002
        0x40, // RTI
    ];
    let data = sa1_rom(&[(0x8000, &main), (0x8100, sa1_reset), (0x8140, sa1_irq), (0x8180, main_irq)]);
    let mut bus = SmwBus::new(RomImage { mapping: Mapping::Sa1Rom, data: &data });
    let mut cpu = Cpu::new();
    cpu.call(&mut bus, 0x00_8000, 10_000).unwrap();
    // Each side saw the other's message with the IRQ flag, and the
    // S-CPU only got past its wait once the SA-1 had finished.
    assert_eq!(bus.iram[0x001], 0x85);
    assert_eq!(bus.iram[0x003], 0xC7);
    assert_eq!(bus.iram[0x000], 1);
    assert!(!bus.irq());
    assert_eq!(bus.sa1_fault(), None);
    // The SA-1 is back in its idle loop, which a turn gets nowhere in.
    assert!(!bus.run_sa1());
}

#[test]
fn the_sa1_sees_the_cartridge_but_not_the_console() {
    let data = sa1_rom(&[(0x8000, &[0x12, 0x34])]);
    let mut bus = SmwBus::new(RomImage { mapping: Mapping::Sa1Rom, data: &data });
    bus.write(0x7E_0010, 0xAA);
    bus.write(0x00_3010, 0xBB);
    bus.write(0x40_0123, 0xCC);
    assert_eq!(bus.read(0x00_0010), 0xAA); // work RAM
    let mut sa1 = bus.sa1_view().unwrap();
    assert_eq!(sa1.read(0x00_0010), 0xBB); // I-RAM, mirrored down
    assert_eq!(sa1.read(0x00_6123), 0xCC); // BW-RAM through the window
    assert_eq!(sa1.read(0x00_8001), 0x34);
    assert_eq!(sa1.read(0xC0_0001), 0x34); // the same ROM, whole banks
    assert_eq!(sa1.read(0x7E_0010), 0); // no work RAM out here
    sa1.write(0x00_2118, 0x55); // nor a PPU
    bus.end_sa1_view(sa1);
    assert_eq!(bus.vram[0], 0);
    assert_eq!(bus.unmapped_writes, 1);
}

#[test]
fn an_sa1_that_stops_is_why_the_wait_never_ends() {
    let mut main = START_SA1.to_vec();
    main.extend([0xAD, 0x00, 0x30, 0xF0, 0xFB, 0x6B]); // - LDA $3000 : BEQ - : RTL
    let data = sa1_rom(&[(0x8000, &main), (0x8100, &[0xDB])]); // STP
    let mut bus = SmwBus::new(RomImage { mapping: Mapping::Sa1Rom, data: &data });
    let mut cpu = Cpu::new();
    let error = cpu.call(&mut bus, 0x00_8000, 10_000).unwrap_err();
    assert!(matches!(error, CpuError::Waiting { pb: 0, .. }), "{error:?}");
    let halted = CpuError::Halted { pb: 0, pc: 0x8100 };
    assert_eq!(bus.sa1_fault(), Some(CpuError::Sa1(Box::new(halted))));
}

#[test]
fn the_work_ram_port_fills_work_ram() {
    let data = rom_data();
    let mut bus = SmwBus::new(lorom(&data));
    for (reg, value) in [(0x2181, 0xFE), (0x2182, 0xFF), (0x2183, 0x01)] {
        bus.write(reg, value);
    }
    // Four bytes from ROM `$008010` by DMA, across the 17-bit wrap.
    for (reg, value) in [
        (0x4300, 0x00),
        (0x4301, 0x80),
        (0x4302, 0x10),
        (0x4303, 0x80),
        (0x4304, 0x00),
        (0x4305, 0x04),
        (0x4306, 0x00),
        (0x420B, 0x01),
    ] {
        bus.write(reg, value);
    }
    assert_eq!(bus.wram[0x1_FFFE], 0x10);
    assert_eq!(bus.wram[0x1_FFFF], 0x11);
    assert_eq!(bus.wram[0x0_0000], 0x12);
    assert_eq!(bus.wram[0x0_0001], 0x13);
    bus.write(0x2181, 0x00);
    bus.write(0x2182, 0x00);
    bus.write(0x2183, 0x00);
    assert_eq!([bus.read(0x2180), bus.read(0x2180)], [0x12, 0x13]);
}

#[test]
fn vram_port_writes_words() {
    let data = rom_data();
    let mut bus = SmwBus::new(lorom(&data));
    bus.write(0x002115, 0x80); // increment after high byte, step 1 word
    bus.write(0x002116, 0x00);
    bus.write(0x002117, 0x10); // word address $1000
    bus.write(0x002118, 0xAA);
    bus.write(0x002119, 0xBB);
    bus.write(0x002118, 0xCC);
    bus.write(0x002119, 0xDD);
    assert_eq!(&bus.vram[0x2000..0x2004], &[0xAA, 0xBB, 0xCC, 0xDD]);
}

#[test]
fn dma_to_cgram_and_vram() {
    let data = rom_data();
    let mut bus = SmwBus::new(lorom(&data));
    // CGRAM: colour index 4, 8 bytes from ROM $008010 via channel 0, mode 0 to $2122.
    bus.write(0x002121, 0x04);
    bus.write(0x004300, 0x00);
    bus.write(0x004301, 0x22);
    bus.write(0x004302, 0x10);
    bus.write(0x004303, 0x80);
    bus.write(0x004304, 0x00);
    bus.write(0x004305, 0x08);
    bus.write(0x004306, 0x00);
    bus.write(0x00420B, 0x01);
    assert_eq!(&bus.cgram[8..16], &[0x10, 0x11, 0x12, 0x13, 0x14, 0x15, 0x16, 0x17]);
    // VRAM: mode 1 to $2118/$2119, 6 bytes from WRAM $7E1000 via channel 1.
    for (i, value) in (1..=6).enumerate() {
        bus.wram[0x1000 + i] = value;
    }
    bus.write(0x002115, 0x80);
    bus.write(0x002116, 0x00);
    bus.write(0x002117, 0x20);
    bus.write(0x004310, 0x01);
    bus.write(0x004311, 0x18);
    bus.write(0x004312, 0x00);
    bus.write(0x004313, 0x10);
    bus.write(0x004314, 0x7E);
    bus.write(0x004315, 0x06);
    bus.write(0x004316, 0x00);
    bus.write(0x00420B, 0x02);
    assert_eq!(&bus.vram[0x4000..0x4006], &[1, 2, 3, 4, 5, 6]);
    // Fixed-source fill: 4 bytes of the same value.
    bus.write(0x002116, 0x00);
    bus.write(0x002117, 0x30);
    bus.wram[0x1100] = 0x25;
    bus.write(0x004310, 0x09);
    bus.write(0x004312, 0x00);
    bus.write(0x004313, 0x11);
    bus.write(0x004315, 0x04);
    bus.write(0x00420B, 0x02);
    assert_eq!(&bus.vram[0x6000..0x6004], &[0x25; 4]);
}

#[test]
fn multiply_and_divide_registers() {
    let data = rom_data();
    let mut bus = SmwBus::new(lorom(&data));
    bus.write(0x4202, 12);
    bus.write(0x4203, 34);
    assert_eq!([bus.read(0x4216), bus.read(0x4217)], [0x98, 0x01]); // 408
    bus.write(0x4204, 0x39);
    bus.write(0x4205, 0x30); // 12345
    bus.write(0x4206, 100);
    assert_eq!([bus.read(0x4214), bus.read(0x4215)], [123, 0]);
    assert_eq!([bus.read(0x4216), bus.read(0x4217)], [45, 0]);
    bus.write(0x4206, 0);
    assert_eq!([bus.read(0x4214), bus.read(0x4215)], [0xFF, 0xFF]);
    assert_eq!([bus.read(0x4216), bus.read(0x4217)], [0x39, 0x30]);
}

#[test]
fn unmodelled_space_reads_zero_and_is_counted() {
    let data = rom_data();
    let mut bus = SmwBus::new(lorom(&data));
    assert_eq!(bus.read(0x2000), 0);
    bus.write(0x2000, 1);
    assert_eq!((bus.unmapped_reads, bus.unmapped_writes), (1, 1));
    // Work RAM is mirrored at the bottom of bank 0.
    bus.write(0x7E_0123, 0x5A);
    assert_eq!(bus.read(0x00_0123), 0x5A);
    assert_eq!(bus.read(0x00_8005), 5);
}

#[test]
fn a_pointer_reads_little_endian() {
    let data = rom_data();
    let mut bus = SmwBus::new(lorom(&data));
    assert_eq!(bus.read_u24(0x00_8010), 0x12_1110);
    bus.write(0x7E_0100, 0x56);
    bus.write(0x7E_0101, 0x34);
    bus.write(0x7E_0102, 0x12);
    assert_eq!(bus.read_u24(0x00_0100), 0x12_3456);
}
