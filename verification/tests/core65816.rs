use kobo_core::cpu::{Bus, Cpu, CpuError, Flags};

/// 16 MiB flat RAM for tests.
struct Ram(Vec<u8>);

impl Bus for Ram {
    fn read(&mut self, addr: u32) -> u8 {
        self.0[addr as usize]
    }
    fn write(&mut self, addr: u32, value: u8) {
        self.0[addr as usize] = value;
    }
}

fn run(code: &[u8], setup: impl FnOnce(&mut Cpu, &mut Ram)) -> (Cpu, Ram) {
    let mut ram = Ram(vec![0; 0x100_0000]);
    let mut cpu = Cpu::new();
    // Place code at $80:8000, end with RTL.
    let base = 0x80_8000usize;
    ram.0[base..base + code.len()].copy_from_slice(code);
    ram.0[base + code.len()] = 0x6B;
    setup(&mut cpu, &mut ram);
    cpu.call(&mut ram, 0x80_8000, 100_000).unwrap();
    (cpu, ram)
}

/// RAM with something else on the bus: each wait it is asked for,
/// it has an answer until `answers` run out. An answer stores 1 at
/// `$0010`, or raises the IRQ line if `by_irq`.
struct Shared {
    ram: Ram,
    answers: u32,
    by_irq: bool,
    irq: bool,
}

impl Bus for Shared {
    fn read(&mut self, addr: u32) -> u8 {
        self.ram.read(addr)
    }
    fn write(&mut self, addr: u32, value: u8) {
        if addr == 0x4000 {
            self.irq = false; // the handler's acknowledgement
        }
        self.ram.write(addr, value);
    }
    fn irq(&mut self) -> bool {
        self.irq
    }
    fn wait(&mut self) -> bool {
        if self.answers == 0 {
            return false;
        }
        self.answers -= 1;
        if self.by_irq {
            self.irq = true;
        } else {
            self.ram.0[0x10] = 1;
        }
        true
    }
}

/// `code` at `$8000`, and an IRQ handler at `$9000` that acknowledges,
/// stores 1 at `$0010`, and returns.
fn shared(code: &[u8], answers: u32, by_irq: bool) -> Shared {
    let mut ram = Ram(vec![0; 0x100_0000]);
    ram.0[0x8000..0x8000 + code.len()].copy_from_slice(code);
    let handler = [0x8D, 0x00, 0x40, 0xA9, 0x01, 0x85, 0x10, 0x40];
    ram.0[0x9000..0x9008].copy_from_slice(&handler); // STA $4000 : LDA #1 : STA $10 : RTI
    ram.0[0xFFEE..0xFFF0].copy_from_slice(&[0x00, 0x90]);
    Shared {
        ram,
        answers,
        by_irq,
        irq: false,
    }
}

/// `- LDA $10 : BEQ - : RTL`
const POLL: [u8; 5] = [0xA5, 0x10, 0xF0, 0xFC, 0x6B];

#[test]
fn a_polling_loop_waits_for_the_rest_of_the_bus() {
    // Nothing answers: the second identical pass round the loop is
    // the last, not the two hundred millionth.
    let mut bus = shared(&POLL, 0, false);
    let mut cpu = Cpu::new();
    let error = cpu.call(&mut bus, 0x8000, 1_000_000).unwrap_err();
    assert_eq!(error, CpuError::Waiting { pb: 0, pc: 0x8000 });
    assert!(cpu.steps < 10);

    let mut bus = shared(&POLL, 1, false);
    let mut cpu = Cpu::new();
    cpu.call(&mut bus, 0x8000, 1_000_000).unwrap();
    assert_eq!(bus.answers, 0);
}

#[test]
fn a_loop_that_gets_somewhere_is_not_a_wait() {
    // `LDX #0 : - DEX : BNE - : RTL` and `- DEC $10 : BNE - : RTL`:
    // the same place every time round, a register or memory changed.
    for code in [
        &[0xA2, 0x00, 0xCA, 0xD0, 0xFD, 0x6B][..],
        &[0xC6, 0x10, 0xD0, 0xFC, 0x6B],
    ] {
        let mut bus = shared(code, 0, false);
        Cpu::new().call(&mut bus, 0x8000, 1_000_000).unwrap();
    }
}

#[test]
fn an_irq_is_taken_once_interrupts_are_on() {
    // `CLI`, then the poll; the answer comes as an IRQ, whose handler
    // returns into the loop.
    let code = [&[0x58][..], &POLL].concat();
    let mut bus = shared(&code, 1, true);
    let mut cpu = Cpu::new();
    let sp = cpu.sp;
    cpu.call(&mut bus, 0x8000, 1_000_000).unwrap();
    assert_eq!((bus.ram.0[0x10], bus.irq), (1, false));
    assert_eq!(cpu.sp, sp);
    assert_eq!(cpu.p & Flags::I, 0); // as `RTI` restored it

    // With interrupts off the line goes unanswered, and so the wait.
    let mut bus = shared(&POLL, 1, true);
    let error = Cpu::new().call(&mut bus, 0x8000, 1_000_000).unwrap_err();
    assert!(matches!(error, CpuError::Waiting { .. }));
    assert!(bus.irq);
}

#[test]
fn wai_waits_for_an_interrupt() {
    let code = [0x58, 0xCB, 0x6B]; // CLI : WAI : RTL
    let mut bus = shared(&code, 1, true);
    Cpu::new().call(&mut bus, 0x8000, 100).unwrap();
    assert_eq!(bus.ram.0[0x10], 1);
    let mut bus = shared(&code, 0, true);
    let error = Cpu::new().call(&mut bus, 0x8000, 100).unwrap_err();
    assert_eq!(error, CpuError::Waiting { pb: 0, pc: 0x8002 });
}

#[test]
fn a_call_can_stop_on_the_way_and_be_finished() {
    // `JSR $8010 : RTS`, and at `$8010` `INC $10 : RTS`.
    let mut ram = Ram(vec![0; 0x100_0000]);
    ram.0[0x8000..0x8004].copy_from_slice(&[0x20, 0x10, 0x80, 0x60]);
    ram.0[0x8010..0x8013].copy_from_slice(&[0xE6, 0x10, 0x60]);
    let mut cpu = Cpu::new();
    let sp = cpu.sp;
    cpu.enter_jsr(&mut ram, 0x8000);
    assert!(!cpu.finish(&mut ram, 100, &[0x8010]).unwrap());
    assert_eq!((ram.0[0x10], cpu.pc), (0, 0x8010));
    assert!(cpu.finish(&mut ram, 100, &[0x8010]).unwrap());
    assert_eq!((ram.0[0x10], cpu.sp), (1, sp));
    // A stop it never reaches is no different from none.
    cpu.enter_jsr(&mut ram, 0x8000);
    assert!(cpu.finish(&mut ram, 100, &[0x9999]).unwrap());
    assert_eq!((ram.0[0x10], cpu.sp), (2, sp));
}

#[test]
fn lda_sta_8bit() {
    let (cpu, ram) = run(&[0xA9, 0x42, 0x8D, 0x00, 0x10], |_, _| {});
    assert_eq!(cpu.a & 0xFF, 0x42);
    assert_eq!(ram.0[0x1000], 0x42);
    assert!(!cpu.p & Flags::Z != 0 || cpu.p & Flags::Z == 0);
}

#[test]
fn rep_sep_widths() {
    // REP #$30 ; LDA #$1234 ; STA $1000 ; SEP #$20 ; LDA #$56 ; STA $1002
    let (cpu, ram) = run(
        &[
            0xC2, 0x30, 0xA9, 0x34, 0x12, 0x8D, 0x00, 0x10, 0xE2, 0x20, 0xA9, 0x56, 0x8D, 0x02,
            0x10,
        ],
        |_, _| {},
    );
    assert_eq!(ram.0[0x1000], 0x34);
    assert_eq!(ram.0[0x1001], 0x12);
    assert_eq!(ram.0[0x1002], 0x56);
    assert_eq!(cpu.a, 0x1256);
}

#[test]
fn adc_sbc_flags() {
    // CLC ; LDA #$7F ; ADC #$01 -> $80, V set, N set, C clear
    let (cpu, _) = run(&[0x18, 0xA9, 0x7F, 0x69, 0x01], |_, _| {});
    assert_eq!(cpu.a & 0xFF, 0x80);
    assert!(cpu.p & Flags::V != 0);
    assert!(cpu.p & Flags::N != 0);
    assert!(cpu.p & Flags::C == 0);
    // SEC ; LDA #$10 ; SBC #$20 -> $F0, C clear (borrow)
    let (cpu, _) = run(&[0x38, 0xA9, 0x10, 0xE9, 0x20], |_, _| {});
    assert_eq!(cpu.a & 0xFF, 0xF0);
    assert!(cpu.p & Flags::C == 0);
    // SEC ; LDA #$50 ; SBC #$20 -> $30, C set
    let (cpu, _) = run(&[0x38, 0xA9, 0x50, 0xE9, 0x20], |_, _| {});
    assert_eq!(cpu.a & 0xFF, 0x30);
    assert!(cpu.p & Flags::C != 0);
}

#[test]
fn decimal_adc() {
    // SED ; CLC ; LDA #$19 ; ADC #$01 -> $20
    let (cpu, _) = run(&[0xF8, 0x18, 0xA9, 0x19, 0x69, 0x01], |_, _| {});
    assert_eq!(cpu.a & 0xFF, 0x20);
    // SED ; SEC ; LDA #$20 ; SBC #$01 -> $19
    let (cpu, _) = run(&[0xF8, 0x38, 0xA9, 0x20, 0xE9, 0x01], |_, _| {});
    assert_eq!(cpu.a & 0xFF, 0x19);
}

#[test]
fn jsr_rts_and_loops() {
    // LDX #$05 ; loop: DEX ; BNE loop ; JSR sub ; RTL... sub: LDA #$99 ; RTS
    let code = [
        0xA2, 0x05, // LDX #5
        0xCA, // DEX
        0xD0, 0xFD, // BNE -3
        0x20, 0x0A, 0x80, // JSR $800A
        0x6B, // RTL (unused, call() returns on the sentinel)
        0xEA, // pad
        0xA9, 0x99, // sub: LDA #$99
        0x60, // RTS
    ];
    let (cpu, _) = run(&code, |_, _| {});
    assert_eq!(cpu.x, 0);
    assert_eq!(cpu.a & 0xFF, 0x99);
}

#[test]
fn indirect_long_and_index() {
    // REP #$10 ; LDX #$0002 ; LDA [$10],Y with Y=1 ; pointer at DP $10 -> $7E2000
    let (cpu, _) = run(&[0xC2, 0x10, 0xA0, 0x01, 0x00, 0xB7, 0x10], |_, ram| {
        ram.0[0x10] = 0x00;
        ram.0[0x11] = 0x20;
        ram.0[0x12] = 0x7E;
        ram.0[0x7E2001] = 0xAB;
    });
    assert_eq!(cpu.a & 0xFF, 0xAB);
}

#[test]
fn mvn_block_move() {
    // REP #$30 ; LDA #$0003 ; LDX #$1000 ; LDY #$2000 ; MVN $7E,$7E
    let (cpu, ram) = run(
        &[
            0xC2, 0x30, 0xA9, 0x03, 0x00, 0xA2, 0x00, 0x10, 0xA0, 0x00, 0x20, 0x54, 0x7E, 0x7E,
        ],
        |_, ram| {
            ram.0[0x7E1000..0x7E1004].copy_from_slice(&[1, 2, 3, 4]);
        },
    );
    assert_eq!(&ram.0[0x7E2000..0x7E2004], &[1, 2, 3, 4]);
    assert_eq!(cpu.a, 0xFFFF);
    assert_eq!(cpu.x, 0x1004);
    assert_eq!(cpu.y, 0x2004);
}

#[test]
fn xba_and_rotates() {
    // LDA #$12 ; XBA ; -> A = $1200 (8-bit view 0), then ROL A with carry
    let (cpu, _) = run(&[0xA9, 0x12, 0xEB, 0x38, 0x2A], |_, _| {});
    assert_eq!(cpu.a, 0x1201);
}

#[test]
fn a_call_to_the_return_address_returns_at_once() {
    let mut ram = Ram(vec![0; 0x100_0000]);
    let mut cpu = Cpu::new();
    assert!(cpu.call(&mut ram, 0xFF_FFFF, 0).is_ok());
    let mut cpu = Cpu::new();
    assert!(cpu.call_jsr(&mut ram, 0xFF_FFFF, 0).is_ok());
}

#[test]
fn running_from_a_stop_address_stops_there() {
    let mut ram = Ram(vec![0; 0x100_0000]);
    let mut cpu = Cpu::new();
    assert!(cpu.run_until(&mut ram, 0x80_8000, &[0x80_8000], 0).is_ok());
    assert_eq!((cpu.pb, cpu.pc), (0x80, 0x8000));
}

#[test]
fn no_instructions_allowed_is_the_limit() {
    let mut ram = Ram(vec![0; 0x100_0000]);
    let mut cpu = Cpu::new();
    cpu.enter(&mut ram, 0x80_8000);
    assert_eq!(
        cpu.finish(&mut ram, 0, &[]),
        Err(CpuError::Limit { limit: 0, pb: 0x80, pc: 0x8000 })
    );
}

#[test]
fn decimal_adc_carries_between_digits() {
    // SED ; CLC ; LDA #$15 ; ADC #$27 -> $42
    let (cpu, _) = run(&[0xF8, 0x18, 0xA9, 0x15, 0x69, 0x27], |_, _| {});
    assert_eq!(cpu.a & 0xFF, 0x42);
    // SED ; CLC ; LDA #$99 ; ADC #$01 -> $00, carry out
    let (cpu, _) = run(&[0xF8, 0x18, 0xA9, 0x99, 0x69, 0x01], |_, _| {});
    assert_eq!(cpu.a & 0xFF, 0x00);
    assert!(cpu.p & Flags::C != 0);
}

#[test]
fn bit_takes_n_and_v_from_memory() {
    // LDA #$01 ; BIT #$C0 is immediate (Z only); use BIT $10 with $C0 there.
    let (cpu, _) = run(&[0xA9, 0x01, 0x24, 0x10], |_, ram| ram.0[0x10] = 0xC0);
    assert!(cpu.p & Flags::N != 0);
    assert!(cpu.p & Flags::V != 0);
    assert!(cpu.p & Flags::Z != 0);
}

#[test]
fn one_decimal_adc_step() {
    let mut ram = Ram(vec![0; 0x100_0000]);
    ram.0[0x8000] = 0x69;
    ram.0[0x8001] = 0x01;
    let mut cpu = Cpu::new();
    cpu.p = Flags::M | Flags::X | Flags::I | Flags::D;
    cpu.a = 0x0019;
    cpu.pb = 0;
    cpu.pc = 0x8000;
    let s0 = cpu.steps;
    assert_eq!(cpu.step(&mut ram), Ok(()));
    assert_eq!(cpu.a, 0x0020);
    assert_eq!(cpu.p & (Flags::C | Flags::Z | Flags::N | Flags::V), 0);
    assert!(cpu.p & Flags::D != 0);
    assert_eq!(cpu.pc, 0x8002);
    assert_eq!(cpu.steps, s0 + 1);
}

#[test]
fn brk_stops_at_its_own_address() {
    let mut ram = Ram(vec![0; 0x100_0000]);
    let mut cpu = Cpu::new();
    cpu.pb = 0x93;
    cpu.pc = 0x9D9F;
    let old = cpu.clone();
    assert_eq!(cpu.step(&mut ram), Err(CpuError::Brk { pb: 0x93, pc: 0x9D9F }));
    assert_eq!(cpu.steps, old.steps + 1);
    assert_eq!(cpu.pc, 0x9DA0);
    assert_eq!((cpu.a, cpu.x, cpu.y, cpu.sp, cpu.dp, cpu.db, cpu.pb, cpu.p), (old.a, old.x, old.y, old.sp, old.dp, old.db, old.pb, old.p));
    assert_eq!(cpu.writes(), old.writes());
}

#[test]
fn an_interrupt_pushes_its_frame_and_takes_the_vector() {
    let mut ram = Ram(vec![0; 0x100_0000]);
    ram.0[0xFFEE] = 0x34;
    ram.0[0xFFEF] = 0x12;
    let mut cpu = Cpu::new();
    cpu.pb = 0x80;
    cpu.pc = 0x8123;
    cpu.p = Flags::M | Flags::X | Flags::D;
    cpu.a = 0x55;
    let old = cpu.clone();
    cpu.interrupt(&mut ram);
    assert_eq!(&ram.0[0x01FC..0x0200], &[old.p, 0x23, 0x81, 0x80]);
    assert_eq!(cpu.sp, 0x01FB);
    assert_eq!((cpu.pb, cpu.pc), (0, 0x1234));
    assert_eq!(cpu.p, (old.p | Flags::I) & !Flags::D);
    assert_eq!((cpu.a, cpu.x, cpu.y, cpu.dp, cpu.db), (old.a, old.x, old.y, old.dp, old.db));
}

#[test]
fn entering_pushes_the_return_frame() {
    let mut ram = Ram(vec![0; 0x100_0000]);
    let mut cpu = Cpu::new();
    cpu.enter(&mut ram, 0x80_8000);
    assert_eq!(&ram.0[0x01FD..0x0200], &[0xFE, 0xFF, 0xFF]);
    assert_eq!(cpu.sp, 0x01FC);
    assert_eq!((cpu.pb, cpu.pc), (0x80, 0x8000));
}

#[test]
fn a_store_step_writes_the_accumulator() {
    let mut ram = Ram(vec![0; 0x100_0000]);
    ram.0[0x8000..0x8003].copy_from_slice(&[0x8D, 0x00, 0x10]);
    let mut cpu = Cpu::new();
    cpu.a = 0x1242;
    cpu.x = 0x07;
    cpu.pc = 0x8000;
    assert_eq!(cpu.step(&mut ram), Ok(()));
    assert_eq!((ram.0[0x1000], ram.0[0x1001]), (0x42, 0));
    assert_eq!(cpu.pc, 0x8003);
}

#[test]
fn pha_pla_round_trip() {
    // LDA #$42 ; PHA ; LDA #$00 ; PLA
    let (cpu, _) = run(&[0xA9, 0x42, 0x48, 0xA9, 0x00, 0x68], |_, _| {});
    assert_eq!(cpu.a & 0xFF, 0x42);
}
