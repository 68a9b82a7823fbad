//! The SA-1: a second 65816 on the cartridge, and the registers at
//! `$2200`-`$23FF` the two processors talk through.
//!
//! What is modelled is what a game needs to hand work across: the
//! control registers with their message nibbles and IRQ flags, the
//! vectors, the BW-RAM windows, the arithmetic unit, and DMA between the
//! cartridge's memories. Timers, character conversion, the
//! variable-length bit reader, and write protection are not; the Super
//! MMC stays at the bank assignment the ROM's [`crate::addr::Mapping`]
//! describes.

use vstd::prelude::*;

use super::core65816::{Cpu, CpuError};

verus! {

/// Which of the two processors is on the bus.
#[derive(Clone, Copy, PartialEq, Eq, Debug, Structural)]
pub enum Processor {
    /// The console's CPU.
    Main,
    Sa1,
}

/// How banks `$60`-`$6F` slice BW-RAM into cells (`BBF`, `$223F`).
#[derive(Clone, Copy, PartialEq, Eq, Debug, Structural)]
pub enum Bitmap {
    FourBits,
    TwoBits,
}

impl Default for Bitmap {
    fn default() -> (r: Self)
        ensures
            r == Bitmap::FourBits,
    {
        Bitmap::FourBits
    }
}

impl Bitmap {
    /// BW-RAM byte, shift, and mask of cell `at`.
    pub fn cell(self, at: usize) -> (r: (usize, u32, u8))
        ensures
            r == match self {
                Bitmap::FourBits => ((at / 2) as usize, ((at % 2) * 4) as u32, 0x0Fu8),
                Bitmap::TwoBits => ((at / 4) as usize, ((at % 4) * 2) as u32, 0x03u8),
            },
    {
        match self {
            Bitmap::FourBits => (at / 2, (at % 2) as u32 * 4, 0x0F),
            Bitmap::TwoBits => (at / 4, (at % 4) as u32 * 2, 0x03),
        }
    }
}

/// One direction of the link between the processors: a four-bit message
/// and an IRQ the receiver can mask and has to acknowledge.
#[derive(Clone, Copy, PartialEq, Eq, Debug, Structural)]
struct Link {
    message: u8,
    irq: bool,
    irq_enabled: bool,
}

impl Link {
    fn new() -> (r: Self)
        ensures
            r == (Link { message: 0, irq: false, irq_enabled: false }),
    {
        Link { message: 0, irq: false, irq_enabled: false }
    }

    /// Sends the message in the low nibble of `control`, and raises the
    /// IRQ if bit 7 asks for it.
    fn send(&mut self, control: u8)
        ensures
            final(self).message == control % 16,
            final(self).irq == (old(self).irq || control >= 0x80),
            final(self).irq_enabled == old(self).irq_enabled,
    {
        self.message = control % 16;
        self.irq = self.irq || control >= 0x80;
    }

    fn line(self) -> (r: bool)
        ensures
            r == (self.irq && self.irq_enabled),
    {
        self.irq && self.irq_enabled
    }
}

/// A copy the SA-1's DMA has been asked for, in bus addresses as the SA-1
/// sees them.
#[derive(Clone, Copy, PartialEq, Eq, Debug, Structural)]
pub struct DmaTransfer {
    pub source: u32,
    pub dest: u32,
    pub len: u16,
}

/// `DCNT`, `SDA`, `DDA`, and `DTC`. The source is ROM, BW-RAM, or I-RAM
/// and the destination I-RAM or BW-RAM; writing the last byte of the
/// destination address that its memory uses starts the copy.
#[derive(Clone, Copy, PartialEq, Eq, Debug, Structural)]
struct Dma {
    control: u8,
    source: u32,
    dest: u32,
    len: u16,
    irq: bool,
    irq_enabled: bool,
}

/// Where an address lands in one of the memories a DMA reads or writes:
/// ROM as it is, BW-RAM in banks `$40`-`$43`, I-RAM at `$3000`-`$37FF`.
pub open spec fn dma_place(memory: u8, addr: u32) -> Option<u32> {
    if memory == 0 {
        Some(addr)
    } else if memory == 1 {
        Some((0x40_0000 + addr % 0x4_0000) as u32)
    } else if memory == 2 {
        Some((0x3000 + addr % 0x800) as u32)
    } else {
        None
    }
}

fn place(memory: u8, addr: u32) -> (r: Option<u32>)
    ensures
        r == dma_place(memory, addr),
{
    match memory {
        0 => Some(addr),
        1 => Some(0x40_0000 + addr % 0x4_0000),
        2 => Some(0x00_3000 + addr % 0x800),
        _ => None,
    }
}

/// An I-RAM address of a DMA lands in I-RAM (`$3000`-`$37FF`) at the same
/// place within its 2 KiB, so one already in I-RAM lands on itself.
pub proof fn lemma_iram_place(addr: u32)
    ensures
        dma_place(2, addr) matches Some(p) && 0x3000 <= p < 0x3800 && p % 0x800 == addr % 0x800,
        0x3000 <= addr < 0x3800 ==> dma_place(2, addr) == Some(addr),
{
}

/// A DMA address in ROM is taken as it is, one in BW-RAM lands in banks
/// `$40`-`$43` at the same place within its 256 KiB, and memory 3 is
/// none this models.
pub proof fn lemma_dma_places(addr: u32)
    ensures
        dma_place(0, addr) == Some(addr),
        dma_place(1, addr) matches Some(p) && 0x40_0000 <= p < 0x44_0000 && p % 0x4_0000 == addr
            % 0x4_0000,
        0x40_0000 <= addr < 0x44_0000 ==> dma_place(1, addr) == Some(addr),
        dma_place(3, addr) is None,
{
}

/// A normal DMA to I-RAM from ROM, BW-RAM or I-RAM (`DCNT` bit 7 set,
/// bit 5 and bit 2 clear, bits 0-1 below 3) writes to the I-RAM address
/// `DDA` names, as many bytes as `DTC` says.
pub proof fn lemma_dma_to_iram(control: u8, source: u32, dest: u32, len: u16)
    requires
        control & 0xA0 == 0x80,
        control & 4 == 0,
        control & 3 != 3,
        0x3000 <= dest < 0x3800,
    ensures
        dma_transfer(control, source, dest, len) matches Some(t) && t.dest == dest && t.len == len,
{
    assert((control / 4) % 2 == 0 && control % 4 < 3) by (bit_vector)
        requires
            control & 4 == 0,
            control & 3 != 3,
    ;
}

/// The transfer `DCNT`, `SDA`, `DDA` and `DTC` describe, if `DCNT`
/// enables one this models: a normal (not character-conversion) DMA
/// from the memory in bits 0-1 to I-RAM, or to BW-RAM with bit 2 set.
pub open spec fn dma_transfer(control: u8, source: u32, dest: u32, len: u16) -> Option<DmaTransfer> {
    if control & 0xA0 != 0x80 {
        None
    } else {
        match (dma_place(control % 4, source), dma_place((2 - (control / 4) % 2) as u8, dest)) {
            (Some(s), Some(d)) => Some(DmaTransfer { source: s, dest: d, len }),
            _ => None,
        }
    }
}

impl Dma {
    fn new() -> (r: Self)
        ensures
            r == (Dma { control: 0, source: 0, dest: 0, len: 0, irq: false, irq_enabled: false }),
    {
        Dma { control: 0, source: 0, dest: 0, len: 0, irq: false, irq_enabled: false }
    }

    /// The transfer the registers describe, if `DCNT` enables one this
    /// models: character conversion is not.
    fn transfer(self) -> (r: Option<DmaTransfer>)
        ensures
            r == dma_transfer(self.control, self.source, self.dest, self.len),
    {
        if self.control & 0xA0 != 0x80 {
            return None;
        }
        let source = match place(self.control % 4, self.source) {
            Some(s) => s,
            None => return None,
        };
        let dest = match place(2 - (self.control / 4) % 2, self.dest) {
            Some(d) => d,
            None => return None,
        };
        Some(DmaTransfer { source, dest, len: self.len })
    }
}

/// `value` with its byte `byte` (0 for the lowest) replaced by `to`.
pub open spec fn with_byte(value: u32, byte: u16, to: u8) -> u32 {
    let unit: int = if byte == 0 {
        1
    } else if byte == 1 {
        0x100
    } else {
        0x1_0000
    };
    (value as int - (value as int / unit) % 0x100 * unit + to * unit) as u32
}

fn set_byte(value: &mut u32, byte: u16, to: u8)
    requires
        byte <= 2,
    ensures
        *final(value) == with_byte(*old(value), byte, to),
{
    let v = *value;
    let t = to as u32;
    let unit: u32 = if byte == 0 {
        1
    } else if byte == 1 {
        0x100
    } else {
        0x1_0000
    };
    // The bytes above the replaced one stay, as do those below it.
    let above = v / unit / 0x100 * 0x100 * unit;
    let below = v % unit;
    assert(above + below == v - (v / unit) % 0x100 * unit && above + 0xFF * unit + below
        <= u32::MAX) by (nonlinear_arith)
        requires
            unit == 1 || unit == 0x100 || unit == 0x1_0000,
            above == v / unit / 0x100 * 0x100 * unit,
            below == v % unit,
    ;
    *value = above + t * unit + below;
}

/// The 40 bits of `MR`.
pub const RESULT_MASK: u64 = 0xFF_FFFF_FFFF;

/// `MCNT`, `MA`, `MB`, and the 40-bit result `MR`.
#[derive(Clone, Copy, PartialEq, Eq, Debug, Structural)]
pub struct Arithmetic {
    divide: bool,
    cumulative: bool,
    a: u16,
    b: u16,
    pub result: u64,
    overflow: bool,
}

/// A 16-bit register read as a signed number.
pub open spec fn signed16(v: u16) -> int {
    if v < 0x8000 {
        v as int
    } else {
        v - 0x1_0000
    }
}

impl Arithmetic {
    /// What writing `MCNT` leaves: the mode bits, and a cleared sum in
    /// cumulative mode.
    pub closed spec fn spec_control(self, value: u8) -> Arithmetic {
        let cumulative = (value / 2) % 2 == 1;
        Arithmetic {
            divide: value % 2 == 1,
            cumulative,
            result: if cumulative {
                0
            } else {
                self.result
            },
            ..self
        }
    }

    /// What starting the operation leaves.
    pub closed spec fn spec_run(self) -> Arithmetic {
        let a = signed16(self.a);
        if self.cumulative {
            let sum = (self.result + a * signed16(self.b)) % 0x1_0000_0000_0000_0000;
            Arithmetic {
                b: 0,
                overflow: sum >= 0x100_0000_0000,
                result: (sum % 0x100_0000_0000) as u64,
                ..self
            }
        } else if self.divide {
            let b = self.b as int;
            Arithmetic {
                a: 0,
                b: 0,
                result: (if b == 0 {
                    0
                } else {
                    (a % b) * 0x1_0000 + (a / b) % 0x1_0000
                }) as u64,
                ..self
            }
        } else {
            Arithmetic { b: 0, result: ((a * signed16(self.b)) % 0x1_0000_0000) as u64, ..self }
        }
    }

    fn new() -> (r: Self)
        ensures
            r == (Arithmetic {
                divide: false,
                cumulative: false,
                a: 0,
                b: 0,
                result: 0,
                overflow: false,
            }),
    {
        Arithmetic { divide: false, cumulative: false, a: 0, b: 0, result: 0, overflow: false }
    }

    fn control(&mut self, value: u8)
        ensures
            final(self).divide == (value % 2 == 1),
            final(self).cumulative == ((value / 2) % 2 == 1),
            final(self).result == if final(self).cumulative {
                0
            } else {
                old(self).result
            },
            final(self).a == old(self).a,
            final(self).b == old(self).b,
            final(self).overflow == old(self).overflow,
            *final(self) == old(self).spec_control(value),
    {
        self.divide = value % 2 == 1;
        self.cumulative = (value / 2) % 2 == 1;
        if self.cumulative {
            self.result = 0;
        }
    }

    /// Writing the high byte of `MB` starts the operation: a signed
    /// product, a signed dividend over an unsigned divisor (quotient in
    /// the low word, remainder never negative in the next), or a product
    /// added to the 40-bit sum, which notes when it carries out of it.
    fn run(&mut self)
        ensures
            final(self).b == 0,
            final(self).cumulative == old(self).cumulative,
            final(self).divide == old(self).divide,
            old(self).cumulative ==> {
                let sum = (old(self).result + signed16(old(self).a) * signed16(old(self).b))
                    % 0x1_0000_0000_0000_0000;
                &&& final(self).overflow == (sum >= 0x100_0000_0000)
                &&& final(self).result == sum % 0x100_0000_0000
                &&& final(self).a == old(self).a
            },
            !old(self).cumulative && old(self).divide ==> {
                let a = signed16(old(self).a);
                let b = old(self).b as int;
                &&& final(self).result == if b == 0 {
                    0
                } else {
                    (a % b) * 0x1_0000 + (a / b) % 0x1_0000
                }
                &&& final(self).a == 0
            },
            !old(self).cumulative && !old(self).divide ==> final(self).result == (signed16(
                old(self).a,
            ) * signed16(old(self).b)) % 0x1_0000_0000 && final(self).a == old(self).a,
            !old(self).cumulative ==> final(self).overflow == old(self).overflow,
            *final(self) == old(self).spec_run(),
    {
        let ra = self.a;
        let a: i64 = if ra < 0x8000 {
            ra as i64
        } else {
            ra as i64 - 0x1_0000
        };
        let b = self.b;
        let bs: i64 = if b < 0x8000 {
            b as i64
        } else {
            b as i64 - 0x1_0000
        };
        assert(-0x4000_0000 <= a * bs <= 0x4000_0000) by (nonlinear_arith)
            requires
                -0x8000 <= a <= 0x7FFF,
                -0x8000 <= bs <= 0x7FFF,
        ;
        let product = a * bs;
        if self.cumulative {
            let old_result = self.result;
            let sum = if product >= 0 {
                old_result.wrapping_add(product as u64)
            } else {
                old_result.wrapping_sub((-product) as u64)
            };
            self.overflow = sum > RESULT_MASK;
            self.result = sum % (RESULT_MASK + 1);
        } else if self.divide {
            // Signed dividend, unsigned divisor, remainder never negative.
            if b == 0 {
                self.result = 0;
            } else {
                let (q, r) = div_euclid(a, b);
                assert(0 <= r < 0x1_0000);
                assert(-0x8000 <= q <= 0x7FFF) by (nonlinear_arith)
                    requires
                        q == (a as int) / (b as int),
                        b > 0,
                        -0x8000 <= a < 0x8000,
                ;
                // The quotient's low word, two's complement.
                let qlow: u64 = if q >= 0 {
                    q as u64
                } else {
                    (q + 0x1_0000) as u64
                };
                self.result = r as u64 * 0x1_0000 + qlow;
            }
            self.a = 0;
        } else {
            // The product's low 32 bits, two's complement.
            self.result = if product >= 0 {
                product as u64
            } else {
                (product + 0x1_0000_0000) as u64
            };
        }
        self.b = 0;
    }
}

/// The quotient rounded down and the remainder of `a` over `b`.
fn div_euclid(a: i64, b: u16) -> (r: (i64, i64))
    requires
        b > 0,
        -0x8000 <= a < 0x8000,
    ensures
        r.0 == (a as int) / (b as int),
        r.1 == (a as int) % (b as int),
{
    let d = b as i64;
    if a >= 0 {
        let q = a / d;
        let r = a % d;
        (q, r)
    } else {
        let m = -a;
        let q0 = m / d;
        let r0 = m % d;
        proof {
            vstd::arithmetic::div_mod::lemma_fundamental_div_mod(m as int, d as int);
            vstd::arithmetic::div_mod::lemma_fundamental_div_mod(a as int, d as int);
        }
        if r0 == 0 {
            proof {
                assert(a == d * (-q0) + 0) by (nonlinear_arith)
                    requires
                        m == d * q0 + r0,
                        r0 == 0,
                        a == -m,
                ;
                vstd::arithmetic::div_mod::lemma_fundamental_div_mod_converse(
                    a as int,
                    d as int,
                    -q0 as int,
                    0,
                );
            }
            (-q0, 0)
        } else {
            proof {
                assert(a == d * (-q0 - 1) + (d - r0)) by (nonlinear_arith)
                    requires
                        m == d * q0 + r0,
                        a == -m,
                ;
                vstd::arithmetic::div_mod::lemma_fundamental_div_mod_converse(
                    a as int,
                    d as int,
                    -q0 - 1,
                    d - r0,
                );
            }
            (-q0 - 1, d - r0)
        }
    }
}

/// A word with its low byte replaced.
pub open spec fn with_low(w: u16, value: u8) -> u16 {
    (w - w % 0x100 + value) as u16
}

/// A word with its high byte replaced.
pub open spec fn with_high(w: u16, value: u8) -> u16 {
    (w % 0x100 + value * 0x100) as u16
}

fn set_low(word: &mut u16, value: u8)
    ensures
        *final(word) == *old(word) - *old(word) % 0x100 + value,
        *final(word) == with_low(*old(word), value),
{
    let w = *word;
    *word = w - w % 0x100 + value as u16;
}

fn set_high(word: &mut u16, value: u8)
    ensures
        *final(word) == *old(word) % 0x100 + value * 0x100,
        *final(word) == with_high(*old(word), value),
{
    let w = *word;
    *word = w % 0x100 + value as u16 * 0x100;
}

#[derive(Clone)]
pub struct Sa1 {
    /// The SA-1's CPU. While it runs it is out on the bus and this is a
    /// placeholder.
    pub cpu: Cpu,
    /// Held in reset (`CCNT` bit 5), as it is from power-on, or stopped
    /// (`CCNT` bit 6).
    held: bool,
    /// What stopped the CPU for good, if anything has.
    pub fault: Option<CpuError>,
    to_sa1: Link,
    to_main: Link,
    /// `CRV`, `CNV`, `CIV`: the SA-1 takes its vectors from registers.
    reset_vector: u16,
    irq_vector: u16,
    /// `SIV` and `SNV`, which replace the S-CPU's IRQ and NMI vectors
    /// when `SCNT` bits 6 and 4 are set.
    main_irq_vector: u16,
    main_irq_vector_selected: bool,
    main_nmi_vector: u16,
    main_nmi_vector_selected: bool,
    /// `BMAPS` and `BMAP`: the BW-RAM block at `$6000`-`$7FFF` for the
    /// S-CPU and for the SA-1. Bit 7 of the SA-1's selects the bitmap
    /// view instead.
    pub bwram_window: [u8; 2],
    pub bitmap: Bitmap,
    pub arithmetic: Arithmetic,
    dma: Dma,
    /// A transfer the registers have started, for the bus to carry out.
    dma_started: Option<DmaTransfer>,
}

impl Default for Sa1 {
    fn default() -> (r: Self)
        ensures
            r.is_power_on(),
    {
        Sa1 {
            cpu: Cpu::new(),
            held: true,
            fault: None,
            to_sa1: Link::new(),
            to_main: Link::new(),
            reset_vector: 0,
            irq_vector: 0,
            main_irq_vector: 0,
            main_irq_vector_selected: false,
            main_nmi_vector: 0,
            main_nmi_vector_selected: false,
            bwram_window: [0, 0],
            bitmap: Bitmap::FourBits,
            arithmetic: Arithmetic::new(),
            dma: Dma::new(),
            dma_started: None,
        }
    }
}

/// Bit `n` set if `on`.
pub open spec fn bit(on: bool, n: u8) -> u8 {
    if on {
        (1u8 << n) as u8
    } else {
        0
    }
}

/// A link's IRQ flag in bit 7 and its message below.
spec fn link_flags(link: Link) -> u8 {
    bit(link.irq, 7) | link.message
}

fn bit_of(on: bool, n: u8) -> (r: u8)
    requires
        n < 8,
    ensures
        r == bit(on, n),
{
    if on {
        1u8 << n
    } else {
        0
    }
}

/// The registers each processor can write.
pub open spec fn is_write_register(processor: Processor, reg: u16) -> bool {
    match processor {
        Processor::Main => reg == 0x2200 || reg == 0x2201 || reg == 0x2202 || reg == 0x2203 || reg
            == 0x2204 || reg == 0x2207 || reg == 0x2208 || reg == 0x2224,
        Processor::Sa1 => (0x2209 <= reg <= 0x220F) || reg == 0x2225 || reg == 0x223F || reg
            == 0x2230 || (0x2232 <= reg <= 0x2239) || (0x2250 <= reg <= 0x2254),
    }
}

/// The registers each processor can read.
pub open spec fn is_read_register(processor: Processor, reg: u16) -> bool {
    match processor {
        Processor::Main => reg == 0x2300,
        Processor::Sa1 => reg == 0x2301 || (0x2306 <= reg <= 0x230B),
    }
}

impl Sa1 {
    /// As it is from power-on: held in reset, every register clear, the
    /// 4-bit bitmap view.
    pub closed spec fn is_power_on(&self) -> bool {
        &&& self.held
        &&& self.fault is None
        &&& self.to_sa1 == Link { message: 0, irq: false, irq_enabled: false }
        &&& self.to_main == Link { message: 0, irq: false, irq_enabled: false }
        &&& self.reset_vector == 0 && self.irq_vector == 0
        &&& self.main_irq_vector == 0 && !self.main_irq_vector_selected
        &&& self.main_nmi_vector == 0 && !self.main_nmi_vector_selected
        &&& self.bwram_window == [0u8, 0u8]
        &&& self.bitmap == Bitmap::FourBits
        &&& self.dma_started is None
        &&& !self.dma.irq && !self.dma.irq_enabled
    }

    /// The BW-RAM block `processor` sees at `$6000`-`$7FFF`: `BMAPS` for
    /// the S-CPU, `BMAP` without its bitmap bit for the SA-1.
    pub closed spec fn spec_bwram_block(&self, processor: Processor) -> u8 {
        match processor {
            Processor::Main => self.bwram_window[0] & 0x1F,
            Processor::Sa1 => self.bwram_window[1] & 0x7F,
        }
    }

    /// [`Sa1::spec_bwram_block`], run.
    pub fn bwram_block(&self, processor: Processor) -> (r: u8)
        ensures
            r == self.spec_bwram_block(processor),
    {
        match processor {
            Processor::Main => self.bwram_window[0] & 0x1F,
            Processor::Sa1 => self.bwram_window[1] & 0x7F,
        }
    }

    /// The SA-1's CPU.
    pub closed spec fn spec_cpu(&self) -> Cpu {
        self.cpu
    }

    /// What stopped the CPU for good, if anything has.
    pub closed spec fn spec_stop(&self) -> Option<CpuError> {
        self.fault
    }

    /// `self` with `cpu` as its CPU and `fault` as what stopped it.
    pub closed spec fn with_cpu(&self, cpu: Cpu, fault: Option<CpuError>) -> Sa1 {
        Sa1 { cpu, fault, ..*self }
    }

    /// What stopped the CPU for good, if anything has.
    pub fn stop(&self) -> (r: Option<CpuError>)
        ensures
            r == self.spec_stop(),
    {
        match &self.fault {
            Some(f) => Some(f.clone()),
            None => None,
        }
    }

    /// Puts `cpu` back, with `fault` as what stopped it.
    pub fn set_cpu(&mut self, cpu: Cpu, fault: Option<CpuError>)
        ensures
            *final(self) == old(self).with_cpu(cpu, fault),
            final(self).spec_cpu() == cpu && final(self).spec_stop() == fault,
    {
        self.cpu = cpu;
        self.fault = fault;
    }

    /// Takes the CPU out to run it, leaving a fresh one in its place.
    pub fn take_cpu(&mut self) -> (r: Cpu)
        ensures
            r == old(self).spec_cpu(),
            *final(self) == old(self).with_cpu(final(self).spec_cpu(), old(self).spec_stop()),
    {
        let mut cpu = Cpu::new();
        std::mem::swap(&mut cpu, &mut self.cpu);
        cpu
    }

    /// Whether the CPU has anything to run on: out of reset, running, and
    /// not stopped by an error.
    pub closed spec fn spec_runnable(&self) -> bool {
        !self.held && self.fault is None
    }

    /// The IRQ line into `processor`: the other's message IRQ if enabled,
    /// and for the SA-1 also the end of a DMA if enabled.
    pub closed spec fn spec_irq(&self, processor: Processor) -> bool {
        match processor {
            Processor::Main => self.to_main.irq && self.to_main.irq_enabled,
            Processor::Sa1 => (self.to_sa1.irq && self.to_sa1.irq_enabled) || (self.dma.irq
                && self.dma.irq_enabled),
        }
    }

    /// What reading `reg` gives `processor`: the flags and message of the
    /// link into it (with the vector selections for the S-CPU and the DMA
    /// IRQ for the SA-1), the bytes of the arithmetic result, and its
    /// overflow bit.
    pub closed spec fn spec_read(&self, processor: Processor, reg: u16) -> Option<u8> {
        match processor {
            Processor::Main => if reg == 0x2300 {
                Some(
                    link_flags(self.to_main) | bit(self.main_irq_vector_selected, 6) | bit(
                        self.main_nmi_vector_selected,
                        4,
                    ),
                )
            } else {
                None
            },
            Processor::Sa1 => if reg == 0x2301 {
                Some(link_flags(self.to_sa1) | bit(self.dma.irq, 5))
            } else if 0x2306 <= reg <= 0x230A {
                Some((self.arithmetic.result >> (8 * (reg - 0x2306)) as u64) as u8)
            } else if reg == 0x230B {
                Some(bit(self.arithmetic.overflow, 7))
            } else {
                None
            },
        }
    }

    /// Whether the CPU has anything to run on.
    pub fn runnable(&self) -> (r: bool)
        ensures
            r == self.spec_runnable(),
    {
        !self.held && self.fault.is_none()
    }

    /// The IRQ line into `processor`.
    pub fn irq(&self, processor: Processor) -> (r: bool)
        ensures
            r == self.spec_irq(processor),
    {
        match processor {
            Processor::Main => self.to_main.line(),
            Processor::Sa1 => self.to_sa1.line() || (self.dma.irq && self.dma.irq_enabled),
        }
    }

    /// The transfer a register write has just started, if any. Once the
    /// bus has made the copy, the SA-1 gets its end-of-DMA IRQ; a second
    /// call has nothing to give.
    pub fn take_dma(&mut self) -> (r: Option<DmaTransfer>)
        ensures
            r == old(self).spec_dma_started(),
            final(self).spec_dma_started() is None,
            r is Some ==> final(self).spec_dma_irq(),
            r is None ==> *final(self) == *old(self),
    {
        let transfer = match self.dma_started.take() {
            Some(t) => t,
            None => return None,
        };
        self.dma.irq = true;
        Some(transfer)
    }

    /// The transfer the registers have started and the bus not yet made.
    pub closed spec fn spec_dma_started(&self) -> Option<DmaTransfer> {
        self.dma_started
    }

    /// The end-of-DMA IRQ is raised.
    pub closed spec fn spec_dma_irq(&self) -> bool {
        self.dma.irq
    }

    /// `CIV`, where an IRQ takes the SA-1.
    pub closed spec fn spec_irq_vector(&self) -> u16 {
        self.irq_vector
    }

    /// `CRV`, where the SA-1 starts when it leaves reset.
    pub closed spec fn spec_reset_vector(&self) -> u16 {
        self.reset_vector
    }

    /// `SIV` when `SCNT` selects it.
    pub closed spec fn spec_main_irq_vector(&self) -> Option<u16> {
        if self.main_irq_vector_selected {
            Some(self.main_irq_vector)
        } else {
            None
        }
    }

    /// `SNV` when `SCNT` selects it.
    pub closed spec fn spec_main_nmi_vector(&self) -> Option<u16> {
        if self.main_nmi_vector_selected {
            Some(self.main_nmi_vector)
        } else {
            None
        }
    }

    pub fn irq_vector(&self) -> (r: u16)
        ensures
            r == self.spec_irq_vector(),
    {
        self.irq_vector
    }

    /// The S-CPU's IRQ vector, if the SA-1 has replaced the cartridge's.
    pub fn main_irq_vector(&self) -> (r: Option<u16>)
        ensures
            r == self.spec_main_irq_vector(),
    {
        if self.main_irq_vector_selected {
            Some(self.main_irq_vector)
        } else {
            None
        }
    }

    /// The S-CPU's NMI vector, likewise.
    pub fn main_nmi_vector(&self) -> (r: Option<u16>)
        ensures
            r == self.spec_main_nmi_vector(),
    {
        if self.main_nmi_vector_selected {
            Some(self.main_nmi_vector)
        } else {
            None
        }
    }

    /// Reads a register, or `None` if `processor` has nothing there.
    pub fn read(&self, processor: Processor, reg: u16) -> (r: Option<u8>)
        ensures
            r == self.spec_read(processor, reg),
            r is Some <==> is_read_register(processor, reg),
    {
        match processor {
            Processor::Main => {
                if reg == 0x2300 {
                    let flags = bit_of(self.to_main.irq, 7) | self.to_main.message;
                    Some(
                        flags | bit_of(self.main_irq_vector_selected, 6) | bit_of(
                            self.main_nmi_vector_selected,
                            4,
                        ),
                    )
                } else {
                    None
                }
            },
            Processor::Sa1 => {
                if reg == 0x2301 {
                    let flags = bit_of(self.to_sa1.irq, 7) | self.to_sa1.message;
                    Some(flags | bit_of(self.dma.irq, 5))
                } else if 0x2306 <= reg && reg <= 0x230A {
                    Some((self.arithmetic.result >> (8 * (reg - 0x2306)) as u64) as u8)
                } else if reg == 0x230B {
                    Some(bit_of(self.arithmetic.overflow, 7))
                } else {
                    None
                }
            },
        }
    }

    /// The state after `processor` writes `value` to register `reg`: each
    /// register's effect on the links, vectors, windows, DMA and
    /// arithmetic; the state as it is for a register `processor` has
    /// nothing at.
    pub closed spec fn spec_written(self, processor: Processor, reg: u16, value: u8) -> Sa1 {
        match processor {
            Processor::Main => if reg == 0x2200 {
                let restart = self.held && value & 0x20 == 0;
                Sa1 {
                    to_sa1: Link {
                        message: value % 16,
                        irq: self.to_sa1.irq || value >= 0x80,
                        ..self.to_sa1
                    },
                    cpu: if restart {
                        Cpu::spec_out_of_reset(self.reset_vector)
                    } else {
                        self.cpu
                    },
                    fault: if restart {
                        None
                    } else {
                        self.fault
                    },
                    held: value & 0x60 != 0,
                    ..self
                }
            } else if reg == 0x2201 {
                Sa1 { to_main: Link { irq_enabled: value & 0x80 != 0, ..self.to_main }, ..self }
            } else if reg == 0x2202 {
                Sa1 {
                    to_main: Link { irq: self.to_main.irq && value & 0x80 == 0, ..self.to_main },
                    ..self
                }
            } else if reg == 0x2203 {
                Sa1 { reset_vector: with_low(self.reset_vector, value), ..self }
            } else if reg == 0x2204 {
                Sa1 { reset_vector: with_high(self.reset_vector, value), ..self }
            } else if reg == 0x2207 {
                Sa1 { irq_vector: with_low(self.irq_vector, value), ..self }
            } else if reg == 0x2208 {
                Sa1 { irq_vector: with_high(self.irq_vector, value), ..self }
            } else if reg == 0x2224 {
                Sa1 { bwram_window: [value & 0x1F, self.bwram_window[1]], ..self }
            } else {
                self
            },
            Processor::Sa1 => if reg == 0x2209 {
                Sa1 {
                    to_main: Link {
                        message: value % 16,
                        irq: self.to_main.irq || value >= 0x80,
                        ..self.to_main
                    },
                    main_irq_vector_selected: value & 0x40 != 0,
                    main_nmi_vector_selected: value & 0x10 != 0,
                    ..self
                }
            } else if reg == 0x220A {
                Sa1 {
                    to_sa1: Link { irq_enabled: value & 0x80 != 0, ..self.to_sa1 },
                    dma: Dma { irq_enabled: value & 0x20 != 0, ..self.dma },
                    ..self
                }
            } else if reg == 0x220B {
                Sa1 {
                    to_sa1: Link { irq: self.to_sa1.irq && value & 0x80 == 0, ..self.to_sa1 },
                    dma: Dma { irq: self.dma.irq && value & 0x20 == 0, ..self.dma },
                    ..self
                }
            } else if reg == 0x220C {
                Sa1 { main_nmi_vector: with_low(self.main_nmi_vector, value), ..self }
            } else if reg == 0x220D {
                Sa1 { main_nmi_vector: with_high(self.main_nmi_vector, value), ..self }
            } else if reg == 0x220E {
                Sa1 { main_irq_vector: with_low(self.main_irq_vector, value), ..self }
            } else if reg == 0x220F {
                Sa1 { main_irq_vector: with_high(self.main_irq_vector, value), ..self }
            } else if reg == 0x2225 {
                Sa1 { bwram_window: [self.bwram_window[0], value], ..self }
            } else if reg == 0x223F {
                Sa1 {
                    bitmap: if value & 0x80 != 0 {
                        Bitmap::TwoBits
                    } else {
                        Bitmap::FourBits
                    },
                    ..self
                }
            } else if reg == 0x2230 {
                Sa1 { dma: Dma { control: value, ..self.dma }, ..self }
            } else if 0x2232 <= reg <= 0x2234 {
                Sa1 {
                    dma: Dma { source: with_byte(self.dma.source, (reg - 0x2232) as u16, value), ..self.dma },
                    ..self
                }
            } else if 0x2235 <= reg <= 0x2237 {
                let dma = Dma { dest: with_byte(self.dma.dest, (reg - 0x2235) as u16, value), ..self.dma };
                // I-RAM addresses end at the middle byte.
                let last: u16 = if self.dma.control & 4 != 0 {
                    0x2237
                } else {
                    0x2236
                };
                Sa1 {
                    dma,
                    dma_started: if reg == last {
                        dma_transfer(dma.control, dma.source, dma.dest, dma.len)
                    } else {
                        self.dma_started
                    },
                    ..self
                }
            } else if reg == 0x2238 {
                Sa1 { dma: Dma { len: with_low(self.dma.len, value), ..self.dma }, ..self }
            } else if reg == 0x2239 {
                Sa1 { dma: Dma { len: with_high(self.dma.len, value), ..self.dma }, ..self }
            } else if reg == 0x2250 {
                Sa1 { arithmetic: self.arithmetic.spec_control(value), ..self }
            } else if reg == 0x2251 {
                Sa1 {
                    arithmetic: Arithmetic { a: with_low(self.arithmetic.a, value), ..self.arithmetic },
                    ..self
                }
            } else if reg == 0x2252 {
                Sa1 {
                    arithmetic: Arithmetic { a: with_high(self.arithmetic.a, value), ..self.arithmetic },
                    ..self
                }
            } else if reg == 0x2253 {
                Sa1 {
                    arithmetic: Arithmetic { b: with_low(self.arithmetic.b, value), ..self.arithmetic },
                    ..self
                }
            } else if reg == 0x2254 {
                Sa1 {
                    arithmetic: Arithmetic {
                        b: with_high(self.arithmetic.b, value),
                        ..self.arithmetic
                    }.spec_run(),
                    ..self
                }
            } else {
                self
            },
        }
    }

    /// Writes a register; false if `processor` has nothing there, and
    /// then nothing changes. Clearing the reset bit of `CCNT` while the
    /// SA-1 is held starts its CPU afresh in emulation mode at `CRV`.
    #[verifier::rlimit(80)]
    #[verifier::spinoff_prover]
    pub fn write(&mut self, processor: Processor, reg: u16, value: u8) -> (r: bool)
        ensures
            r == is_write_register(processor, reg),
            !r ==> *final(self) == *old(self),
            *final(self) == old(self).spec_written(processor, reg, value),
            processor == Processor::Main && reg == 0x2200 ==> (final(self).spec_runnable() <==> (
            value & 0x60 == 0 && (old(self).spec_held() || old(self).spec_fault_free()))),
    {
        match processor {
            Processor::Main => {
                if reg == 0x2200 {
                    self.to_sa1.send(value);
                    assert(value & 0x60 == 0 ==> value & 0x20 == 0) by (bit_vector);
                    let held = value & 0x60 != 0;
                    if self.held && value & 0x20 == 0 {
                        // Out of reset: a 65816 starts in emulation mode.
                        self.cpu = Cpu::out_of_reset(self.reset_vector);
                        self.fault = None;
                    }
                    self.held = held;
                } else if reg == 0x2201 {
                    self.to_main.irq_enabled = value & 0x80 != 0;
                } else if reg == 0x2202 {
                    self.to_main.irq = self.to_main.irq && value & 0x80 == 0;
                } else if reg == 0x2203 {
                    set_low(&mut self.reset_vector, value);
                } else if reg == 0x2204 {
                    set_high(&mut self.reset_vector, value);
                } else if reg == 0x2207 {
                    set_low(&mut self.irq_vector, value);
                } else if reg == 0x2208 {
                    set_high(&mut self.irq_vector, value);
                } else if reg == 0x2224 {
                    self.bwram_window = [value & 0x1F, self.bwram_window[1]];
                } else {
                    return false;
                }
            },
            Processor::Sa1 => {
                if reg == 0x2209 {
                    self.to_main.send(value);
                    self.main_irq_vector_selected = value & 0x40 != 0;
                    self.main_nmi_vector_selected = value & 0x10 != 0;
                } else if reg == 0x220A {
                    self.to_sa1.irq_enabled = value & 0x80 != 0;
                    self.dma.irq_enabled = value & 0x20 != 0;
                } else if reg == 0x220B {
                    self.to_sa1.irq = self.to_sa1.irq && value & 0x80 == 0;
                    self.dma.irq = self.dma.irq && value & 0x20 == 0;
                } else if reg == 0x220C {
                    set_low(&mut self.main_nmi_vector, value);
                } else if reg == 0x220D {
                    set_high(&mut self.main_nmi_vector, value);
                } else if reg == 0x220E {
                    set_low(&mut self.main_irq_vector, value);
                } else if reg == 0x220F {
                    set_high(&mut self.main_irq_vector, value);
                } else if reg == 0x2225 {
                    self.bwram_window = [self.bwram_window[0], value];
                } else if reg == 0x223F {
                    self.bitmap = if value & 0x80 != 0 {
                        Bitmap::TwoBits
                    } else {
                        Bitmap::FourBits
                    };
                } else if reg == 0x2230 {
                    self.dma.control = value;
                } else if 0x2232 <= reg && reg <= 0x2234 {
                    set_byte(&mut self.dma.source, reg - 0x2232, value);
                } else if 0x2235 <= reg && reg <= 0x2237 {
                    set_byte(&mut self.dma.dest, reg - 0x2235, value);
                    // I-RAM addresses end at the middle byte.
                    let last = if self.dma.control & 4 != 0 {
                        0x2237
                    } else {
                        0x2236
                    };
                    if reg == last {
                        self.dma_started = self.dma.transfer();
                    }
                } else if reg == 0x2238 {
                    set_low(&mut self.dma.len, value);
                } else if reg == 0x2239 {
                    set_high(&mut self.dma.len, value);
                } else if reg == 0x2250 {
                    self.arithmetic.control(value);
                } else if reg == 0x2251 {
                    set_low(&mut self.arithmetic.a, value);
                } else if reg == 0x2252 {
                    set_high(&mut self.arithmetic.a, value);
                } else if reg == 0x2253 {
                    set_low(&mut self.arithmetic.b, value);
                } else if reg == 0x2254 {
                    set_high(&mut self.arithmetic.b, value);
                    self.arithmetic.run();
                } else {
                    return false;
                }
            },
        }
        true
    }

    /// Nothing has stopped the CPU for good.
    pub closed spec fn spec_fault_free(&self) -> bool {
        self.fault is None
    }

    /// Held in reset or stopped by `CCNT`.
    pub closed spec fn spec_held(&self) -> bool {
        self.held
    }
}

} // verus!
