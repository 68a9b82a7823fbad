use kobo_core::cpu::sa1::{Bitmap, DmaTransfer, Processor, Sa1};

fn arithmetic(sa1: &mut Sa1, control: u8, a: u16, b: u16) -> u64 {
    let [a_low, a_high] = a.to_le_bytes();
    let [b_low, b_high] = b.to_le_bytes();
    for (reg, value) in [
        (0x2250, control),
        (0x2251, a_low),
        (0x2252, a_high),
        (0x2253, b_low),
        (0x2254, b_high),
    ] {
        assert!(sa1.write(Processor::Sa1, reg, value));
    }
    (0..5).fold(0, |result, i| {
        result | (sa1.read(Processor::Sa1, 0x2306 + i).unwrap() as u64) << (8 * i)
    })
}

#[test]
fn arithmetic_is_signed_with_an_unsigned_divisor() {
    let mut sa1 = Sa1::default();
    assert_eq!(arithmetic(&mut sa1, 0, 0xFFFE, 3), 0xFFFF_FFFA); // -2 * 3
    assert_eq!(arithmetic(&mut sa1, 0, 300, 300), 90_000);
    // -7 / 2 = -4 remainder 1; the remainder is in the upper word.
    assert_eq!(arithmetic(&mut sa1, 1, 0xFFF9, 2), 0x0001_FFFC);
    assert_eq!(arithmetic(&mut sa1, 1, 100, 0), 0);
    // Selecting the cumulative sum clears it; each run adds a product.
    assert_eq!(arithmetic(&mut sa1, 2, 1000, 1000), 1_000_000);
    for (reg, value) in [(0x2251, 0xFF), (0x2252, 0xFF), (0x2253, 1), (0x2254, 0)] {
        sa1.write(Processor::Sa1, reg, value);
    }
    assert_eq!(sa1.arithmetic.result, 999_999);
}

#[test]
fn dma_starts_on_the_destination_and_ends_with_an_irq() {
    let mut sa1 = Sa1::default();
    let write = |sa1: &mut Sa1, regs: &[(u16, u8)]| {
        for &(reg, value) in regs {
            assert!(sa1.write(Processor::Sa1, reg, value));
        }
    };
    // `$0400` bytes of ROM at `$128000` to BW-RAM `$402400`.
    write(
        &mut sa1,
        &[
            (0x220A, 0x20),
            (0x2230, 0xC4),
            (0x2232, 0x00),
            (0x2233, 0x80),
            (0x2234, 0x12),
            (0x2238, 0x00),
            (0x2239, 0x04),
            (0x2235, 0x00),
            (0x2236, 0x24),
        ],
    );
    assert_eq!(sa1.take_dma(), None); // BW-RAM addresses have a bank
    write(&mut sa1, &[(0x2237, 0x40)]);
    let transfer = DmaTransfer {
        source: 0x12_8000,
        dest: 0x40_2400,
        len: 0x400,
    };
    assert_eq!(sa1.take_dma(), Some(transfer));
    assert_eq!(sa1.take_dma(), None);
    assert!(sa1.irq(Processor::Sa1));
    assert_eq!(sa1.read(Processor::Sa1, 0x2301), Some(0x20));
    write(&mut sa1, &[(0x220B, 0x20)]);
    assert!(!sa1.irq(Processor::Sa1));
    // BW-RAM to I-RAM starts a byte sooner; character conversion is
    // not modelled and starts nothing.
    write(&mut sa1, &[(0x2230, 0x81), (0x2235, 0x10), (0x2236, 0x31)]);
    assert_eq!(sa1.take_dma().map(|t| t.dest), Some(0x00_3110));
    write(&mut sa1, &[(0x2230, 0xA1), (0x2235, 0x10), (0x2236, 0x31)]);
    assert_eq!(sa1.take_dma(), None);
}

#[test]
fn each_processor_raises_and_the_other_acknowledges() {
    let mut sa1 = Sa1::default();
    assert!(!sa1.runnable());
    sa1.write(Processor::Main, 0x2203, 0x34);
    sa1.write(Processor::Main, 0x2204, 0x12);
    sa1.write(Processor::Main, 0x2200, 0x00);
    assert!(sa1.runnable());
    assert_eq!((sa1.cpu.pc, sa1.cpu.emulation), (0x1234, true));

    sa1.write(Processor::Main, 0x2200, 0x83);
    assert_eq!(sa1.read(Processor::Sa1, 0x2301), Some(0x83));
    assert!(!sa1.irq(Processor::Sa1)); // masked until `CIE` allows it
    sa1.write(Processor::Sa1, 0x220A, 0x80);
    assert!(sa1.irq(Processor::Sa1));
    sa1.write(Processor::Sa1, 0x220B, 0x80);
    assert!(!sa1.irq(Processor::Sa1));
    // The S-CPU cannot write the SA-1's side, nor read its flags.
    assert!(!sa1.write(Processor::Main, 0x2209, 0x80));
    assert_eq!(sa1.read(Processor::Main, 0x2301), None);

    sa1.write(Processor::Sa1, 0x220E, 0x00);
    sa1.write(Processor::Sa1, 0x220F, 0x1D);
    sa1.write(Processor::Sa1, 0x2209, 0xC5);
    sa1.write(Processor::Main, 0x2201, 0x80);
    assert!(sa1.irq(Processor::Main));
    assert_eq!(sa1.read(Processor::Main, 0x2300), Some(0xC5));
    assert_eq!(sa1.main_irq_vector(), Some(0x1D00));
    assert_eq!(sa1.main_nmi_vector(), None);
    sa1.write(Processor::Sa1, 0x220C, 0x6A);
    sa1.write(Processor::Sa1, 0x220D, 0x81);
    sa1.write(Processor::Sa1, 0x2209, 0x50);
    assert_eq!(sa1.main_nmi_vector(), Some(0x816A));
    assert_eq!(sa1.read(Processor::Main, 0x2300), Some(0xD0));
}

#[test]
fn vector_and_window_registers_take_their_bytes() {
    let mut sa1 = Sa1::default();
    assert!(sa1.write(Processor::Main, 0x2207, 0x34));
    assert!(sa1.write(Processor::Main, 0x2208, 0x12));
    assert_eq!(sa1.irq_vector(), 0x1234);
    assert_eq!(sa1.main_irq_vector(), None);
    assert!(sa1.write(Processor::Sa1, 0x220E, 0x00));
    assert!(sa1.write(Processor::Sa1, 0x220F, 0x81));
    assert!(sa1.write(Processor::Sa1, 0x2209, 0x40));
    assert_eq!(sa1.main_irq_vector(), Some(0x8100));
    assert_eq!(sa1.main_nmi_vector(), None);
    assert!(sa1.write(Processor::Main, 0x2224, 0xE3));
    assert!(sa1.write(Processor::Sa1, 0x2225, 0x85));
    assert_eq!(sa1.bwram_window, [0x03, 0x85]);
    assert!(sa1.write(Processor::Sa1, 0x223F, 0x80));
    assert_eq!(sa1.bitmap, Bitmap::TwoBits);
    // The S-CPU has no `BMAP`, and the SA-1 no `CRV`.
    assert!(!sa1.write(Processor::Main, 0x2225, 0));
    assert!(!sa1.write(Processor::Sa1, 0x2203, 0));
    assert_eq!(sa1.bwram_window, [0x03, 0x85]);
}
