//! A bus that maps a SMW ROM plus work RAM, and captures what the game
//! uploads to video memory.
//!
//! Only the pieces of hardware the loaders touch are modelled: the VRAM
//! and CGRAM data ports, the work RAM port, the multiply and divide unit,
//! the APU ports' boot handshake, and general-purpose DMA. Everything else
//! reads as zero and ignores writes. Work RAM is the console's 128 KiB at
//! `$7E0000`-`$7FFFFF`, its first 8 KiB mirrored at `$0000`-`$1FFF` of
//! banks `$00`-`$3F` and `$80`-`$BF`. An SA-1 cartridge adds its I-RAM and
//! 256 KiB of BW-RAM (see [`cart_ram`]); a LoROM cartridge's SRAM is not
//! mapped.
//!
//! On an SA-1 cartridge the bus also holds the SA-1's registers and runs
//! its CPU when the S-CPU stops to wait: the SA-1 runs until it in turn
//! waits. The SA-1 sees the bus through [`Sa1View`].

use vstd::prelude::*;

use crate::addr::{spec_snes_to_pc, Mapping, SnesAddr};
use crate::cpu::core65816::{Bus, Cpu, CpuError, Run};
use crate::cpu::sa1::{is_write_register, Processor, Sa1};
use crate::gfx::RomImage;

verus! {

/// Instruction limit for one turn of the SA-1.
pub const SA1_STEP_LIMIT: u64 = 200_000_000;

pub const VRAM_LEN: usize = 0x1_0000;

pub const CGRAM_LEN: usize = 0x200;

/// Work RAM, `$7E0000`-`$7FFFFF`.
pub const WRAM_LEN: usize = 0x2_0000;

/// The SA-1's I-RAM.
pub const IRAM_LEN: usize = 0x800;

/// The SA-1 cartridge's BW-RAM, banks `$40`-`$43`.
pub const BWRAM_LEN: usize = 0x4_0000;

/// Where the SA-1 cartridge's RAM answers for `addr`, as `processor`
/// sees it: `(true, i)` for BW-RAM byte `i`, `(false, i)` for I-RAM byte
/// `i`. I-RAM sits at `$3000`-`$37FF` of banks `$00`-`$3F` and `$80`-`$BF`
/// (for the SA-1 also at `$0000`-`$07FF`); BW-RAM in banks `$40`-`$4F`, and
/// the block each processor selects at `$6000`-`$7FFF`. The SA-1's
/// bitmap view of BW-RAM is not modelled.
pub open spec fn cart_ram(sa1: Sa1, processor: Processor, addr: u32) -> Option<(bool, int)> {
    let bank = (addr >> 16u32) as u8;
    let offset = addr as u16;
    let low_bank = bank <= 0x3F || (0x80 <= bank && bank <= 0xBF);
    if low_bank && 0x3000 <= offset && offset <= 0x37FF {
        Some((false, offset - 0x3000))
    } else if processor == Processor::Sa1 && low_bank && offset <= 0x07FF {
        Some((false, offset as int))
    } else if low_bank && 0x6000 <= offset && offset <= 0x7FFF {
        Some((true, sa1.spec_bwram_block(processor) * 0x2000 + (offset - 0x6000)))
    } else if 0x40 <= bank && bank <= 0x4F {
        Some((true, (bank - 0x40) * 0x1_0000 + offset))
    } else {
        None
    }
}

/// [`cart_ram`], run.
fn cart_ram_index(sa1: &Sa1, processor: Processor, addr: u32) -> (r: Option<(bool, usize)>)
    ensures
        r is None <==> cart_ram(*sa1, processor, addr) is None,
        r matches Some((b, i)) ==> cart_ram(*sa1, processor, addr) == Some((b, i as int)),
{
    let bank = (addr >> 16) as u8;
    let offset = addr as u16;
    let low_bank = bank <= 0x3F || (0x80 <= bank && bank <= 0xBF);
    if low_bank && 0x3000 <= offset && offset <= 0x37FF {
        Some((false, (offset - 0x3000) as usize))
    } else if processor == Processor::Sa1 && low_bank && offset <= 0x07FF {
        Some((false, offset as usize))
    } else if low_bank && 0x6000 <= offset && offset <= 0x7FFF {
        let block = sa1.bwram_block(processor);
        Some((true, block as usize * 0x2000 + (offset - 0x6000) as usize))
    } else if 0x40 <= bank && bank <= 0x4F {
        Some((true, (bank - 0x40) as usize * 0x1_0000 + offset as usize))
    } else {
        None
    }
}

/// The byte at `i` of `mem`, or zero past its end.
pub open spec fn byte_at(mem: Seq<u8>, i: int) -> u8 {
    if 0 <= i < mem.len() {
        mem[i]
    } else {
        0
    }
}

/// `mem` with `value` at `i`, where it has an `i`.
pub open spec fn put_at(mem: Seq<u8>, i: int, value: u8) -> Seq<u8> {
    if 0 <= i < mem.len() {
        mem.update(i, value)
    } else {
        mem
    }
}

fn get_byte(mem: &Vec<u8>, i: usize) -> (r: u8)
    ensures
        r == byte_at(mem@, i as int),
{
    if i < mem.len() {
        mem[i]
    } else {
        0
    }
}

fn set_byte(mem: &mut Vec<u8>, i: usize, value: u8)
    ensures
        final(mem)@ == put_at(old(mem)@, i as int, value),
{
    if i < mem.len() {
        mem.set(i, value);
    }
}

/// One general-purpose DMA channel's registers (`$43x0`-`$43x6`).
#[derive(Clone, Copy, Debug)]
pub struct DmaChannel {
    pub control: u8,
    pub dest: u8,
    pub src: u32,
    pub size: u16,
}

/// The Mode 7 registers as last written.
#[derive(Clone, Copy, Debug)]
pub struct Mode7Regs {
    /// `M7SEL` (`$211A`).
    pub control: u8,
    /// `M7A`-`M7D` (`$211B`-`$211E`).
    pub matrix: [i16; 4],
    /// `M7X`, `M7Y` (`$211F`-`$2120`).
    pub center: [u16; 2],
    /// `M7HOFS`, `M7VOFS`: the layer 1 scroll registers, read as Mode 7's.
    pub scroll: [u16; 2],
}

/// `a` with element `i` replaced by `v`.
pub open spec fn with2<T>(a: [T; 2], i: int, v: T) -> [T; 2] {
    [if i == 0 { v } else { a[0] }, if i == 1 { v } else { a[1] }]
}

/// `a` with element `i` replaced by `v`.
pub open spec fn with4<T>(a: [T; 4], i: int, v: T) -> [T; 4] {
    [
        if i == 0 { v } else { a[0] },
        if i == 1 { v } else { a[1] },
        if i == 2 { v } else { a[2] },
        if i == 3 { v } else { a[3] },
    ]
}

/// `a` with element `i` replaced by `v`.
pub open spec fn with8<T>(a: [T; 8], i: int, v: T) -> [T; 8] {
    [
        if i == 0 { v } else { a[0] },
        if i == 1 { v } else { a[1] },
        if i == 2 { v } else { a[2] },
        if i == 3 { v } else { a[3] },
        if i == 4 { v } else { a[4] },
        if i == 5 { v } else { a[5] },
        if i == 6 { v } else { a[6] },
        if i == 7 { v } else { a[7] },
    ]
}

fn put2<T: Copy>(a: [T; 2], i: usize, v: T) -> (r: [T; 2])
    requires
        i < 2,
    ensures
        r == with2(a, i as int, v),
{
    [if i == 0 { v } else { a[0] }, if i == 1 { v } else { a[1] }]
}

fn put4<T: Copy>(a: [T; 4], i: usize, v: T) -> (r: [T; 4])
    requires
        i < 4,
    ensures
        r == with4(a, i as int, v),
{
    [
        if i == 0 { v } else { a[0] },
        if i == 1 { v } else { a[1] },
        if i == 2 { v } else { a[2] },
        if i == 3 { v } else { a[3] },
    ]
}

fn put8<T: Copy>(a: [T; 8], i: usize, v: T) -> (r: [T; 8])
    requires
        i < 8,
    ensures
        r == with8(a, i as int, v),
{
    [
        if i == 0 { v } else { a[0] },
        if i == 1 { v } else { a[1] },
        if i == 2 { v } else { a[2] },
        if i == 3 { v } else { a[3] },
        if i == 4 { v } else { a[4] },
        if i == 5 { v } else { a[5] },
        if i == 6 { v } else { a[6] },
        if i == 7 { v } else { a[7] },
    ]
}

/// One more, wrapping at the counter's width.
pub open spec fn bump(n: u64) -> u64 {
    if n == u64::MAX {
        0
    } else {
        (n + 1) as u64
    }
}

fn bumped(n: u64) -> (r: u64)
    ensures
        r == bump(n),
{
    if n == u64::MAX {
        0
    } else {
        n + 1
    }
}

/// The little-endian word of `low` and `high`.
pub open spec fn word(low: u8, high: u8) -> u16 {
    (low as u16) | ((high as u16) << 8u16)
}

/// VRAM address increment, in words, that `VMAIN` selects.
pub open spec fn vram_step(vmain: u8) -> u16 {
    if vmain & 3 == 0 {
        1
    } else if vmain & 3 == 1 {
        32
    } else {
        128
    }
}

/// The VRAM address remapping selected by `VMAIN` bits 2-3.
pub open spec fn vram_remap(vmain: u8, addr: u16) -> u16 {
    let mode = (vmain >> 2u8) & 3;
    if mode == 0 {
        addr
    } else if mode == 1 {
        (addr & 0xFF00) | ((addr & 0x001F) << 3u16) | ((addr & 0x00E0) >> 5u16)
    } else if mode == 2 {
        (addr & 0xFE00) | ((addr & 0x003F) << 3u16) | ((addr & 0x01C0) >> 6u16)
    } else {
        (addr & 0xFC00) | ((addr & 0x007F) << 3u16) | ((addr & 0x0380) >> 7u16)
    }
}

/// The ROM byte at `addr` under `mapping`, if there is one.
pub open spec fn rom_byte(mapping: Mapping, rom: Seq<u8>, addr: u32) -> Option<u8> {
    match spec_snes_to_pc(mapping, addr % 0x100_0000) {
        Some(pc) => if pc < rom.len() {
            Some(rom[pc as int])
        } else {
            None
        },
        None => None,
    }
}

/// [`rom_byte`] of `rom`, run.
fn rom_lookup(rom: &RomImage, addr: u32) -> (r: Option<u8>)
    ensures
        r == rom_byte(rom.mapping, rom.data@, addr),
{
    match rom.mapping.snes_to_pc(SnesAddr::new(addr)) {
        Ok(pc) => {
            let i = pc.as_usize();
            if i < rom.data.len() {
                Some(rom.data[i])
            } else {
                None
            }
        },
        Err(_) => None,
    }
}

/// The bus as values, which its operations are stated over.
pub struct BusView {
    pub mapping: Mapping,
    pub rom: Seq<u8>,
    pub wram: Seq<u8>,
    pub sa1: Option<Sa1>,
    pub iram: Seq<u8>,
    pub bwram: Seq<u8>,
    pub vram: Seq<u8>,
    pub vram_written: Seq<bool>,
    pub cgram: Seq<u8>,
    pub vmain: u8,
    pub vmadd: u16,
    pub cgadd: u16,
    pub wmadd: u32,
    pub bg_sc: [u8; 4],
    pub bg_character_base: [u16; 4],
    pub bg_scroll: [[u16; 2]; 4],
    pub bg_mode: u8,
    pub object_select: u8,
    pub window2: [u8; 2],
    pub window_logic: [u8; 2],
    pub window_masks: [u8; 2],
    pub mode7: Mode7Regs,
    pub bg_scroll_latch: u8,
    pub mode7_latch: u8,
    pub irq_scanline: u16,
    pub interrupt_enable: u8,
    pub hblank: bool,
    pub multiplicand: u8,
    pub dividend: u16,
    pub quotient: u16,
    pub product: u16,
    pub dma: [DmaChannel; 8],
    pub apu_ports: [u8; 4],
    pub apu_in_transfer: bool,
    pub apu_expected: u8,
    pub apu_jump_echo: Option<u8>,
    pub apu_header_pending: bool,
    pub unmapped_reads: u64,
    pub unmapped_writes: u64,
}

impl BusView {
    /// The sizes of the memories and the work RAM port's 17-bit address.
    pub open spec fn wf(self) -> bool {
        &&& self.wram.len() == WRAM_LEN
        &&& self.vram.len() == VRAM_LEN
        &&& self.vram_written.len() == VRAM_LEN
        &&& self.cgram.len() == CGRAM_LEN
        &&& self.wmadd < 0x2_0000
    }

    /// A read that hit nothing modelled: zero, and counted.
    pub open spec fn missed_read(self) -> (u8, BusView) {
        (0, BusView { unmapped_reads: bump(self.unmapped_reads), ..self })
    }

    /// A write that hit nothing modelled: counted, and otherwise ignored.
    pub open spec fn missed_write(self) -> BusView {
        BusView { unmapped_writes: bump(self.unmapped_writes), ..self }
    }

    /// Reading the ROM at `addr` under the cartridge's mapping.
    pub open spec fn rom_read(self, addr: u32) -> (u8, BusView) {
        match rom_byte(self.mapping, self.rom, addr) {
            Some(v) => (v, self),
            None => self.missed_read(),
        }
    }

    /// Reading the register `reg` of the S-CPU's I/O space.
    pub open spec fn register_read(self, reg: u16) -> (u8, BusView) {
        if 0x2200 <= reg <= 0x23FF {
            match self.sa1 {
                Some(sa1) => match sa1.spec_read(Processor::Main, reg) {
                    Some(v) => (v, self),
                    None => self.missed_read(),
                },
                None => self.missed_read(),
            }
        } else if 0x2140 <= reg <= 0x2143 {
            let i = (reg & 3) as int;
            if self.apu_in_transfer || i >= 2 {
                (self.apu_ports[i], self)
            } else if i == 0 && self.apu_jump_echo is Some {
                (self.apu_jump_echo->0, BusView { apu_jump_echo: None, ..self })
            } else {
                (if i == 0 { 0xAAu8 } else { 0xBBu8 }, self)
            }
        } else if reg == 0x2180 {
            let v = if self.wmadd < self.wram.len() { self.wram[self.wmadd as int] } else { 0u8 };
            (v, BusView { wmadd: ((self.wmadd + 1) % 0x2_0000) as u32, ..self })
        } else if reg == 0x4214 {
            (self.quotient as u8, self)
        } else if reg == 0x4215 {
            ((self.quotient >> 8u16) as u8, self)
        } else if reg == 0x4216 {
            (self.product as u8, self)
        } else if reg == 0x4217 {
            ((self.product >> 8u16) as u8, self)
        } else if reg == 0x4212 {
            // The ROM's wait-for-HBlank handshake finishes on the next look.
            (if self.hblank { 0x40u8 } else { 0u8 }, BusView { hblank: !self.hblank, ..self })
        } else {
            self.missed_read()
        }
    }

    /// Where work RAM answers for `addr`, if it does.
    pub open spec fn wram_index(addr: u32) -> Option<int> {
        let bank = (addr >> 16u32) as u8;
        let offset = addr as u16;
        if bank == 0x7E || bank == 0x7F {
            Some(((bank - 0x7E) * 0x1_0000 + offset) as int)
        } else if (bank <= 0x3F || (0x80 <= bank && bank <= 0xBF)) && offset < 0x2000 {
            Some(offset as int)
        } else {
            None
        }
    }

    /// The S-CPU's I/O register at `addr`, if it is one.
    pub open spec fn io_register(addr: u32) -> Option<u16> {
        let bank = (addr >> 16u32) as u8;
        let offset = addr as u16;
        if (bank <= 0x3F || (0x80 <= bank && bank <= 0xBF)) && 0x2000 <= offset && offset <= 0x7FFF {
            Some(offset)
        } else {
            None
        }
    }

    /// Where the cartridge's RAM answers the S-CPU for `addr`, if it does.
    pub open spec fn cart_index(self, addr: u32) -> Option<(bool, int)> {
        match self.sa1 {
            Some(s) => cart_ram(s, Processor::Main, addr),
            None => None,
        }
    }

    /// Reading `addr` as the S-CPU sees it: what it gives, and the bus
    /// after.
    pub open spec fn read(self, addr: u32) -> (u8, BusView) {
        if addr & 0x8000 != 0 && !(0x40 <= (addr >> 16u32) && (addr >> 16u32) <= 0x7F) {
            self.rom_read(addr)
        } else {
            match Self::wram_index(addr) {
                Some(i) => (byte_at(self.wram, i), self),
                None => match self.cart_index(addr) {
                    Some((bw, i)) => (if bw { byte_at(self.bwram, i) } else { byte_at(self.iram, i) }, self),
                    None => match Self::io_register(addr) {
                        Some(reg) => self.register_read(reg),
                        None => self.rom_read(addr),
                    },
                },
            }
        }
    }

    /// Writing `value` to the VRAM byte at `a`.
    pub open spec fn vram_put(self, a: int, value: u8) -> BusView {
        BusView {
            vram: if a < self.vram.len() { self.vram.update(a, value) } else { self.vram },
            vram_written: if a < self.vram_written.len() {
                self.vram_written.update(a, true)
            } else {
                self.vram_written
            },
            ..self
        }
    }

    /// A write of `value` to the APU port `port`: the boot ROM's upload
    /// handshake as it answers it.
    pub open spec fn apu_written(self, port: int, value: u8) -> BusView {
        let s = BusView { apu_ports: with4(self.apu_ports, port, value), ..self };
        if port == 0 {
            let s = BusView { apu_header_pending: false, ..s };
            if !s.apu_in_transfer {
                if value == 0xCC && s.apu_ports[1] != 0 {
                    BusView { apu_in_transfer: true, apu_expected: 0, ..s }
                } else {
                    s
                }
            } else if value == s.apu_expected {
                BusView {
                    apu_expected: if s.apu_expected == 0xFF { 0 } else { (s.apu_expected + 1) as u8 },
                    ..s
                }
            } else if s.apu_ports[1] == 0 {
                BusView { apu_in_transfer: false, apu_jump_echo: Some(value), ..s }
            } else {
                BusView { apu_expected: 0, apu_header_pending: true, ..s }
            }
        } else if port == 1 && value == 0 && s.apu_in_transfer && s.apu_header_pending {
            BusView {
                apu_in_transfer: false,
                apu_header_pending: false,
                apu_jump_echo: Some(s.apu_ports[0]),
                ..s
            }
        } else {
            s
        }
    }

    /// A write to one of the PPU's scroll registers (`$210D`-`$2114`).
    pub open spec fn scroll_written(self, reg: u16, value: u8) -> BusView {
        let layer = ((reg - 0x210D) / 2) as int;
        let axis = ((reg - 0x210D) % 2) as int;
        let low = if axis == 0 {
            (self.bg_scroll_latch & 0xF8) | (((self.bg_scroll[layer][axis] >> 8u16) as u8) & 7)
        } else {
            self.bg_scroll_latch
        };
        let s = BusView {
            bg_scroll: with4(self.bg_scroll, layer, with2(self.bg_scroll[layer], axis, word(low, value))),
            bg_scroll_latch: value,
            ..self
        };
        if layer == 0 {
            BusView {
                mode7: Mode7Regs {
                    scroll: with2(s.mode7.scroll, axis, word(s.mode7_latch, value)),
                    ..s.mode7
                },
                mode7_latch: value,
                ..s
            }
        } else {
            s
        }
    }

    /// A write of `value` to the B-bus register `reg` (`$2100`-`$21FF`),
    /// where DMA writes too.
    pub open spec fn b_bus_written(self, reg: u16, value: u8) -> BusView {
        if reg == 0x2101 {
            BusView { object_select: value, ..self }
        } else if reg == 0x2105 {
            BusView { bg_mode: value, ..self }
        } else if 0x2107 <= reg <= 0x210A {
            BusView { bg_sc: with4(self.bg_sc, reg - 0x2107, value), ..self }
        } else if 0x210B <= reg <= 0x210C {
            let layer = (reg - 0x210B) * 2;
            let b = with4(self.bg_character_base, layer, ((value & 0x0F) as u16) << 13u16);
            BusView { bg_character_base: with4(b, layer + 1, ((value >> 4u8) as u16) << 13u16), ..self }
        } else if 0x210D <= reg <= 0x2114 {
            self.scroll_written(reg, value)
        } else if reg == 0x211A {
            BusView { mode7: Mode7Regs { control: value, ..self.mode7 }, ..self }
        } else if 0x211B <= reg <= 0x2120 {
            let w = word(self.mode7_latch, value);
            let m = if reg <= 0x211E {
                Mode7Regs { matrix: with4(self.mode7.matrix, reg - 0x211B, w as i16), ..self.mode7 }
            } else {
                Mode7Regs { center: with2(self.mode7.center, reg - 0x211F, w), ..self.mode7 }
            };
            BusView { mode7: m, mode7_latch: value, ..self }
        } else if reg == 0x2115 {
            BusView { vmain: value, ..self }
        } else if reg == 0x2116 {
            BusView { vmadd: (self.vmadd & 0xFF00) | (value as u16), ..self }
        } else if reg == 0x2117 {
            BusView { vmadd: (self.vmadd & 0x00FF) | ((value as u16) << 8u16), ..self }
        } else if reg == 0x2118 || reg == 0x2119 {
            let high = reg == 0x2119;
            let a = (vram_remap(self.vmain, self.vmadd) * 2 + if high { 1int } else { 0 }) % VRAM_LEN as int;
            let s = self.vram_put(a, value);
            if (self.vmain & 0x80 != 0) == high {
                BusView { vmadd: ((self.vmadd + vram_step(self.vmain)) % 0x1_0000) as u16, ..s }
            } else {
                s
            }
        } else if 0x2128 <= reg <= 0x2129 {
            BusView { window2: with2(self.window2, reg - 0x2128, value), ..self }
        } else if 0x212A <= reg <= 0x212B {
            BusView { window_logic: with2(self.window_logic, reg - 0x212A, value), ..self }
        } else if 0x212E <= reg <= 0x212F {
            BusView { window_masks: with2(self.window_masks, reg - 0x212E, value), ..self }
        } else if reg == 0x2180 {
            BusView {
                wram: self.wram_put(self.wmadd as int, value),
                wmadd: ((self.wmadd + 1) % 0x2_0000) as u32,
                ..self
            }
        } else if reg == 0x2181 {
            BusView { wmadd: (self.wmadd & 0x1_FF00) | (value as u32), ..self }
        } else if reg == 0x2182 {
            BusView { wmadd: (self.wmadd & 0x1_00FF) | ((value as u32) << 8u32), ..self }
        } else if reg == 0x2183 {
            BusView { wmadd: (self.wmadd & 0x0_FFFF) | (((value & 1) as u32) << 16u32), ..self }
        } else if reg == 0x2121 {
            BusView { cgadd: (value as u16 * 2) as u16, ..self }
        } else if reg == 0x2122 {
            let a = self.cgadd as int % CGRAM_LEN as int;
            BusView {
                cgram: if a < self.cgram.len() { self.cgram.update(a, value) } else { self.cgram },
                cgadd: ((self.cgadd + 1) % 0x1_0000) as u16,
                ..self
            }
        } else if 0x2140 <= reg <= 0x2143 {
            self.apu_written((reg & 3) as int, value)
        } else {
            self.missed_write()
        }
    }

    /// A write of `value` to the CPU's own registers (`$4200`-`$437F`),
    /// other than the DMA start.
    pub open spec fn cpu_register_written(self, reg: u16, value: u8) -> BusView {
        if reg == 0x4200 {
            BusView { interrupt_enable: value, ..self }
        } else if reg == 0x4202 {
            BusView { multiplicand: value, ..self }
        } else if reg == 0x4203 {
            BusView { product: (self.multiplicand as u16 * value as u16) as u16, ..self }
        } else if reg == 0x4204 {
            BusView { dividend: (self.dividend & 0xFF00) | (value as u16), ..self }
        } else if reg == 0x4205 {
            BusView { dividend: (self.dividend & 0x00FF) | ((value as u16) << 8u16), ..self }
        } else if reg == 0x4206 {
            // Division by zero yields `$FFFF` with the dividend as remainder.
            if value == 0 {
                BusView { quotient: 0xFFFF, product: self.dividend, ..self }
            } else {
                BusView {
                    quotient: self.dividend / (value as u16),
                    product: self.dividend % (value as u16),
                    ..self
                }
            }
        } else if reg == 0x4209 {
            BusView { irq_scanline: (self.irq_scanline & 0x100) | (value as u16), ..self }
        } else if reg == 0x420A {
            BusView { irq_scanline: (self.irq_scanline & 0xFF) | (((value & 1) as u16) << 8u16), ..self }
        } else if 0x4300 <= reg <= 0x437F && (reg & 0x0F) <= 6 {
            let ch = ((reg >> 4u16) & 7) as int;
            let c = self.dma[ch];
            let field = reg & 0x0F;
            let c = if field == 0 {
                DmaChannel { control: value, ..c }
            } else if field == 1 {
                DmaChannel { dest: value, ..c }
            } else if field == 2 {
                DmaChannel { src: (c.src & 0xFF_FF00) | (value as u32), ..c }
            } else if field == 3 {
                DmaChannel { src: (c.src & 0xFF_00FF) | ((value as u32) << 8u32), ..c }
            } else if field == 4 {
                DmaChannel { src: (c.src & 0x00_FFFF) | ((value as u32) << 16u32), ..c }
            } else if field == 5 {
                DmaChannel { size: (c.size & 0xFF00) | (value as u16), ..c }
            } else {
                DmaChannel { size: (c.size & 0x00FF) | ((value as u16) << 8u16), ..c }
            };
            BusView { dma: with8(self.dma, ch, c), ..self }
        } else if 0x4300 <= reg <= 0x437F {
            self
        } else {
            self.missed_write()
        }
    }

    /// Work RAM with `value` at `i`, where it has an `i`.
    pub open spec fn wram_put(self, i: int, value: u8) -> Seq<u8> {
        if 0 <= i < self.wram.len() {
            self.wram.update(i, value)
        } else {
            self.wram
        }
    }

    /// A write of `value` to the S-CPU's I/O register `reg`, other than
    /// the DMA start.
    pub open spec fn io_written(self, reg: u16, value: u8) -> BusView {
        if 0x2200 <= reg <= 0x23FF {
            match self.sa1 {
                Some(sa1) => if is_write_register(Processor::Main, reg) {
                    BusView { sa1: Some(sa1.spec_written(Processor::Main, reg, value)), ..self }
                } else {
                    self.missed_write()
                },
                None => self.missed_write(),
            }
        } else if 0x2100 <= reg <= 0x21FF {
            self.b_bus_written(reg, value)
        } else if 0x4200 <= reg <= 0x437F {
            self.cpu_register_written(reg, value)
        } else {
            self.missed_write()
        }
    }

    /// The source address after one byte of a transfer on `c` from `src`:
    /// the same for a fixed source, else one on or back within its bank.
    pub open spec fn dma_next_src(c: DmaChannel, src: u32) -> u32 {
        if c.control & 0x08 != 0 {
            src
        } else {
            let o = src as u16;
            let next: u16 = if c.control & 0x10 != 0 {
                if o == 0 { 0xFFFF } else { (o - 1) as u16 }
            } else {
                if o == 0xFFFF { 0 } else { (o + 1) as u16 }
            };
            (src & 0xFF_0000) | (next as u32)
        }
    }

    /// The register the `i`th byte of a transfer on `c` goes to, by the
    /// channel's transfer pattern.
    pub open spec fn dma_target(c: DmaChannel, i: int) -> u16 {
        let base = 0x2100u16 | (c.dest as u16);
        let k = i % 4;
        let mode = c.control & 7;
        let off: int = if mode == 0 || mode == 2 || mode == 6 {
            0
        } else if mode == 3 || mode == 7 {
            k / 2
        } else if mode == 4 {
            k
        } else {
            k % 2
        };
        (base + off) as u16
    }

    /// `count` bytes of a transfer on `c` from `src`, the first of them
    /// the `i`th: the bus after, and where the source stands.
    pub open spec fn dma_copy(self, c: DmaChannel, src: u32, i: nat, count: nat) -> (BusView, u32)
        decreases count,
    {
        if count == 0 {
            (self, src)
        } else {
            let (v, s1) = self.read(src);
            let s2 = s1.io_written(Self::dma_target(c, i as int), v);
            s2.dma_copy(c, Self::dma_next_src(c, src), i + 1, (count - 1) as nat)
        }
    }

    /// Channel `ch`'s transfer: a B-bus to A-bus one is not modelled and
    /// counts as a missed write.
    pub open spec fn dma_channel_run(self, ch: int) -> BusView {
        let c = self.dma[ch];
        if c.control & 0x80 != 0 {
            self.missed_write()
        } else {
            let count: nat = if c.size == 0 { 0x1_0000 } else { c.size as nat };
            let (s, src) = self.dma_copy(c, c.src, 0, count);
            BusView { dma: with8(s.dma, ch, DmaChannel { src, size: 0, ..s.dma[ch] }), ..s }
        }
    }

    /// The transfers of the channels in `mask` from channel `ch` up, in
    /// channel order.
    pub open spec fn dma_run(self, mask: u8, ch: int) -> BusView
        decreases 8 - ch,
    {
        if ch >= 8 || ch < 0 {
            self
        } else {
            let s = if (mask >> ch as u8) & 1 != 0 { self.dma_channel_run(ch) } else { self };
            s.dma_run(mask, ch + 1)
        }
    }

    /// A write of `value` to the S-CPU's I/O register `reg`.
    pub open spec fn register_written(self, reg: u16, value: u8) -> BusView {
        if reg == 0x420B {
            self.dma_run(value, 0)
        } else {
            self.io_written(reg, value)
        }
    }

    /// There is an SA-1, and its CPU has something to run on.
    pub open spec fn sa1_can_run(self) -> bool {
        match self.sa1 {
            Some(s) => s.spec_runnable(),
            None => false,
        }
    }

    /// The S-CPU's IRQ vector, where the SA-1 supplies it.
    pub open spec fn main_vector(self) -> Option<u16> {
        match self.sa1 {
            Some(s) => s.spec_main_irq_vector(),
            None => None,
        }
    }

    /// `after` is `self` after a turn of the SA-1 that `progressed` or not:
    /// its CPU ran as [`Cpu::ran`] says, the way the run ended is its
    /// fault, it progressed where it wrote anything, and nothing of the
    /// console but the cartridge's RAM and the miss counters changed.
    pub open spec fn took_sa1_turn(self, after: BusView, progressed: bool) -> bool {
        match (self.sa1, after.sa1) {
            (Some(s), Some(t)) => {
                &&& exists|res: Result<Run, CpuError>|
                    #[trigger] s.spec_cpu().ran(t.spec_cpu(), res) && t.spec_stop() == fault_of(res)
                &&& progressed == (t.spec_cpu().spec_writes() != s.spec_cpu().spec_writes())
                &&& after == BusView {
                    sa1: after.sa1,
                    iram: after.iram,
                    bwram: after.bwram,
                    unmapped_reads: after.unmapped_reads,
                    unmapped_writes: after.unmapped_writes,
                    ..self
                }
            },
            _ => false,
        }
    }

    /// A write of `value` to `addr` as the S-CPU makes it.
    pub open spec fn written(self, addr: u32, value: u8) -> BusView {
        match Self::wram_index(addr) {
            Some(i) => BusView { wram: self.wram_put(i, value), ..self },
            None => match self.cart_index(addr) {
                Some((bw, i)) => if bw {
                    BusView { bwram: put_at(self.bwram, i, value), ..self }
                } else {
                    BusView { iram: put_at(self.iram, i, value), ..self }
                },
                None => match Self::io_register(addr) {
                    Some(reg) => self.register_written(reg, value),
                    None => self.missed_write(),
                },
            },
        }
    }
}

} // verus!

verus! {

/// ROM, work RAM, VRAM, CGRAM, and enough register state to follow
/// uploads. The game can write video memory but never reads it back here,
/// so a routine's outcome depends on work RAM alone.
pub struct SmwBus<'a> {
    pub rom: RomImage<'a>,
    /// Work RAM, `$7E0000`-`$7FFFFF`: [`WRAM_LEN`] bytes.
    pub wram: Vec<u8>,
    /// The SA-1's registers and CPU, on an SA-1 cartridge.
    pub sa1: Option<Sa1>,
    /// The SA-1's I-RAM: [`IRAM_LEN`] bytes on an SA-1 cartridge, else none.
    pub iram: Vec<u8>,
    /// BW-RAM: [`BWRAM_LEN`] bytes on an SA-1 cartridge, else none.
    pub bwram: Vec<u8>,
    pub vram: Vec<u8>,
    /// Which VRAM bytes have been written since reset, so callers can
    /// tell uploaded data from the untouched zero fill.
    pub vram_written: Vec<bool>,
    pub cgram: Vec<u8>,
    vmain: u8,
    /// VRAM word address.
    vmadd: u16,
    /// CGRAM byte address (colour index * 2 + half).
    cgadd: u16,
    /// Work RAM address of the data port `WMDATA` (`$2180`), 17 bits.
    wmadd: u32,
    /// Last values written to `BG1SC`-`BG4SC` (`$2107`-`$210A`): tilemap
    /// VRAM base and size per layer.
    pub bg_sc: [u8; 4],
    pub bg_character_base: [u16; 4],
    pub bg_scroll: [[u16; 2]; 4],
    pub bg_mode: u8,
    pub object_select: u8,
    /// Last values written to the window registers the game keeps no RAM
    /// mirror of: `WH2`/`WH3` (`$2128`-`$2129`), `WBGLOG`/`WOBJLOG`
    /// (`$212A`-`$212B`), and `TMW`/`TSW` (`$212E`-`$212F`).
    pub window2: [u8; 2],
    pub window_logic: [u8; 2],
    pub window_masks: [u8; 2],
    pub mode7: Mode7Regs,
    bg_scroll_latch: u8,
    mode7_latch: u8,
    pub irq_scanline: u16,
    pub interrupt_enable: u8,
    hblank: bool,
    /// CPU multiply and divide registers (`$4202`-`$4206` in, `$4214`-`$4217`
    /// out).
    multiplicand: u8,
    dividend: u16,
    quotient: u16,
    product: u16,
    dma: [DmaChannel; 8],
    /// Last values written to the APU I/O ports `$2140`-`$2143`.
    apu_ports: [u8; 4],
    /// The SPC700 boot ROM's upload protocol: outside a transfer the ports
    /// read `$AA`/`$BB` while port 0 holds zero; during a transfer every
    /// write is echoed. A block header with port 1 zero ends the transfer.
    apu_in_transfer: bool,
    apu_expected: u8,
    /// The block-end header byte, echoed exactly once after a transfer
    /// ends before the ports go back to `$AA`/`$BB`.
    apu_jump_echo: Option<u8>,
    /// A block header was just written to port 0; a zero written to
    /// port 1 right after it ends the transfer.
    apu_header_pending: bool,
    /// Number of reads that hit unmapped or unmodelled register space.
    pub unmapped_reads: u64,
    pub unmapped_writes: u64,
}

impl<'a> View for SmwBus<'a> {
    type V = BusView;

    closed spec fn view(&self) -> BusView {
        BusView {
            mapping: self.rom.mapping,
            rom: self.rom.data@,
            wram: self.wram@,
            sa1: self.sa1,
            iram: self.iram@,
            bwram: self.bwram@,
            vram: self.vram@,
            vram_written: self.vram_written@,
            cgram: self.cgram@,
            vmain: self.vmain,
            vmadd: self.vmadd,
            cgadd: self.cgadd,
            wmadd: self.wmadd,
            bg_sc: self.bg_sc,
            bg_character_base: self.bg_character_base,
            bg_scroll: self.bg_scroll,
            bg_mode: self.bg_mode,
            object_select: self.object_select,
            window2: self.window2,
            window_logic: self.window_logic,
            window_masks: self.window_masks,
            mode7: self.mode7,
            bg_scroll_latch: self.bg_scroll_latch,
            mode7_latch: self.mode7_latch,
            irq_scanline: self.irq_scanline,
            interrupt_enable: self.interrupt_enable,
            hblank: self.hblank,
            multiplicand: self.multiplicand,
            dividend: self.dividend,
            quotient: self.quotient,
            product: self.product,
            dma: self.dma,
            apu_ports: self.apu_ports,
            apu_in_transfer: self.apu_in_transfer,
            apu_expected: self.apu_expected,
            apu_jump_echo: self.apu_jump_echo,
            apu_header_pending: self.apu_header_pending,
            unmapped_reads: self.unmapped_reads,
            unmapped_writes: self.unmapped_writes,
        }
    }
}

/// A DMA channel with every register zero.
pub open spec fn idle_channel() -> DmaChannel {
    DmaChannel { control: 0, dest: 0, src: 0, size: 0 }
}

impl<'a> SmwBus<'a> {
    /// The bus at power-on: memories zero, registers zero, an SA-1 at
    /// power-on where the mapping says the cartridge has one.
    pub fn new(rom: RomImage<'a>) -> (r: Self)
        ensures
            r@.wf(),
            r@.mapping == rom.mapping && r@.rom == rom.data@,
            r@.wram == Seq::new(WRAM_LEN as nat, |i: int| 0u8),
            r@.vram == Seq::new(VRAM_LEN as nat, |i: int| 0u8),
            r@.vram_written == Seq::new(VRAM_LEN as nat, |i: int| false),
            r@.cgram == Seq::new(CGRAM_LEN as nat, |i: int| 0u8),
            r@.sa1 is Some <==> rom.mapping != Mapping::LoRom,
            r@.sa1 matches Some(s) ==> s.is_power_on(),
            r@.sa1 is Some ==> r@.iram == Seq::new(IRAM_LEN as nat, |i: int| 0u8) && r@.bwram
                == Seq::new(BWRAM_LEN as nat, |i: int| 0u8),
            r@.sa1 is None ==> r@.iram.len() == 0 && r@.bwram.len() == 0,
            r@.vmain == 0 && r@.vmadd == 0 && r@.cgadd == 0 && r@.wmadd == 0,
            r@.bg_sc == [0u8, 0u8, 0u8, 0u8] && r@.bg_character_base == [0u16, 0u16, 0u16, 0u16],
            r@.bg_scroll == [[0u16, 0u16], [0u16, 0u16], [0u16, 0u16], [0u16, 0u16]] && r@.bg_mode == 0 && r@.object_select == 0,
            r@.window2 == [0u8, 0u8] && r@.window_logic == [0u8, 0u8] && r@.window_masks == [0u8, 0u8],
            r@.mode7 == (Mode7Regs { control: 0, matrix: [0i16, 0i16, 0i16, 0i16], center: [0u16, 0u16], scroll: [0u16, 0u16] }),
            r@.bg_scroll_latch == 0 && r@.mode7_latch == 0 && r@.irq_scanline == 0,
            r@.interrupt_enable == 0 && !r@.hblank,
            r@.multiplicand == 0 && r@.dividend == 0 && r@.quotient == 0 && r@.product == 0,
            r@.dma == [idle_channel(), idle_channel(), idle_channel(), idle_channel(), idle_channel(), idle_channel(), idle_channel(), idle_channel()],
            r@.apu_ports == [0u8, 0u8, 0u8, 0u8] && !r@.apu_in_transfer && r@.apu_expected == 0,
            r@.apu_jump_echo is None && !r@.apu_header_pending,
            r@.unmapped_reads == 0 && r@.unmapped_writes == 0,
    {
        let sa1 = if rom.mapping.is_sa1() {
            Some(Sa1::default())
        } else {
            None
        };
        let (iram, bwram) = if rom.mapping.is_sa1() {
            (vec![0u8; IRAM_LEN], vec![0u8; BWRAM_LEN])
        } else {
            (Vec::new(), Vec::new())
        };
        assert(rom.mapping != Mapping::LoRom ==> iram@ =~= Seq::new(IRAM_LEN as nat, |i: int| 0u8));
        assert(rom.mapping != Mapping::LoRom ==> bwram@ =~= Seq::new(BWRAM_LEN as nat, |i: int| 0u8));
        let wram = vec![0u8; WRAM_LEN];
        let vram = vec![0u8; VRAM_LEN];
        let vram_written = vec![false; VRAM_LEN];
        let cgram = vec![0u8; CGRAM_LEN];
        assert(wram@ =~= Seq::new(WRAM_LEN as nat, |i: int| 0u8));
        assert(vram@ =~= Seq::new(VRAM_LEN as nat, |i: int| 0u8));
        assert(vram_written@ =~= Seq::new(VRAM_LEN as nat, |i: int| false));
        assert(cgram@ =~= Seq::new(CGRAM_LEN as nat, |i: int| 0u8));
        let idle = DmaChannel { control: 0, dest: 0, src: 0, size: 0 };
        SmwBus {
            rom,
            wram,
            sa1,
            iram,
            bwram,
            vram,
            vram_written,
            cgram,
            vmain: 0,
            vmadd: 0,
            cgadd: 0,
            wmadd: 0,
            bg_sc: [0, 0, 0, 0],
            bg_character_base: [0, 0, 0, 0],
            bg_scroll: [[0, 0], [0, 0], [0, 0], [0, 0]],
            bg_mode: 0,
            object_select: 0,
            window2: [0, 0],
            window_logic: [0, 0],
            window_masks: [0, 0],
            mode7: Mode7Regs { control: 0, matrix: [0, 0, 0, 0], center: [0, 0], scroll: [0, 0] },
            bg_scroll_latch: 0,
            mode7_latch: 0,
            irq_scanline: 0,
            interrupt_enable: 0,
            hblank: false,
            multiplicand: 0,
            dividend: 0,
            quotient: 0,
            product: 0,
            dma: [idle, idle, idle, idle, idle, idle, idle, idle],
            apu_ports: [0, 0, 0, 0],
            apu_in_transfer: false,
            apu_expected: 0,
            apu_jump_echo: None,
            apu_header_pending: false,
            unmapped_reads: 0,
            unmapped_writes: 0,
        }
    }

    fn missed_read(&mut self) -> (r: u8)
        ensures
            (r, final(self)@) == old(self)@.missed_read(),
    {
        self.unmapped_reads = bumped(self.unmapped_reads);
        0
    }

    fn missed_write(&mut self)
        ensures
            final(self)@ == old(self)@.missed_write(),
    {
        self.unmapped_writes = bumped(self.unmapped_writes);
    }

    fn rom_read(&mut self, addr: u32) -> (r: u8)
        ensures
            (r, final(self)@) == old(self)@.rom_read(addr),
    {
        match rom_lookup(&self.rom, addr) {
            Some(v) => v,
            None => self.missed_read(),
        }
    }

    /// Reads a 24-bit little-endian pointer from the bus.
    pub fn read_u24(&mut self, addr: u32) -> (r: u32)
        requires
            addr <= u32::MAX - 2,
        ensures
            ({
                let (b0, s1) = old(self)@.read(addr);
                let (b1, s2) = s1.read((addr + 1) as u32);
                let (b2, s3) = s2.read((addr + 2) as u32);
                r == b0 + b1 * 0x100 + b2 * 0x1_0000 && final(self)@ == s3
            }),
    {
        let b0 = self.read_at(addr);
        let b1 = self.read_at(addr + 1);
        let b2 = self.read_at(addr + 2);
        b0 as u32 + b1 as u32 * 0x100 + b2 as u32 * 0x1_0000
    }

    /// Reads the S-CPU's I/O register `reg`.
    pub fn read_register(&mut self, reg: u16) -> (r: u8)
        ensures
            (r, final(self)@) == old(self)@.register_read(reg),
    {
        if 0x2200 <= reg && reg <= 0x23FF {
            let v = match &self.sa1 {
                Some(sa1) => sa1.read(Processor::Main, reg),
                None => None,
            };
            match v {
                Some(v) => v,
                None => self.missed_read(),
            }
        } else if 0x2140 <= reg && reg <= 0x2143 {
            let i = (reg & 3) as usize;
            assert(reg & 3 < 4) by (bit_vector);
            if self.apu_in_transfer || i >= 2 {
                self.apu_ports[i]
            } else if i == 0 && self.apu_jump_echo.is_some() {
                let v = self.apu_jump_echo.unwrap();
                self.apu_jump_echo = None;
                v
            } else if i == 0 {
                0xAA
            } else {
                0xBB
            }
        } else if reg == 0x2180 {
            let a = self.wmadd as usize;
            let v = if a < self.wram.len() {
                self.wram[a]
            } else {
                0
            };
            self.wmadd = (self.wmadd % 0x2_0000 + 1) % 0x2_0000;
            v
        } else if reg == 0x4214 {
            self.quotient as u8
        } else if reg == 0x4215 {
            (self.quotient >> 8) as u8
        } else if reg == 0x4216 {
            self.product as u8
        } else if reg == 0x4217 {
            (self.product >> 8) as u8
        } else if reg == 0x4212 {
            let v = if self.hblank {
                0x40
            } else {
                0
            };
            self.hblank = !self.hblank;
            v
        } else {
            self.missed_read()
        }
    }

    fn vram_put(&mut self, a: usize, value: u8)
        ensures
            final(self)@ == old(self)@.vram_put(a as int, value),
    {
        if a < self.vram.len() {
            self.vram.set(a, value);
        }
        if a < self.vram_written.len() {
            self.vram_written.set(a, true);
        }
    }

    fn write_apu(&mut self, port: usize, value: u8)
        requires
            port < 4,
        ensures
            final(self)@ == old(self)@.apu_written(port as int, value),
    {
        self.apu_ports = put4(self.apu_ports, port, value);
        if port == 0 {
            self.apu_header_pending = false;
            if !self.apu_in_transfer {
                if value == 0xCC && self.apu_ports[1] != 0 {
                    self.apu_in_transfer = true;
                    self.apu_expected = 0;
                }
            } else if value == self.apu_expected {
                self.apu_expected = if self.apu_expected == 0xFF { 0 } else { self.apu_expected + 1 };
            } else if self.apu_ports[1] == 0 {
                self.apu_in_transfer = false;
                self.apu_jump_echo = Some(value);
            } else {
                self.apu_expected = 0;
                self.apu_header_pending = true;
            }
        } else if port == 1 && value == 0 && self.apu_in_transfer && self.apu_header_pending {
            self.apu_in_transfer = false;
            self.apu_header_pending = false;
            self.apu_jump_echo = Some(self.apu_ports[0]);
        }
    }

    fn write_scroll(&mut self, reg: u16, value: u8)
        requires
            0x210D <= reg <= 0x2114,
        ensures
            final(self)@ == old(self)@.scroll_written(reg, value),
    {
        let layer = ((reg - 0x210D) / 2) as usize;
        let axis = ((reg - 0x210D) % 2) as usize;
        let low = if axis == 0 {
            (self.bg_scroll_latch & 0xF8) | (((self.bg_scroll[layer][axis] >> 8) as u8) & 7)
        } else {
            self.bg_scroll_latch
        };
        let w = (low as u16) | ((value as u16) << 8);
        self.bg_scroll = put4(self.bg_scroll, layer, put2(self.bg_scroll[layer], axis, w));
        self.bg_scroll_latch = value;
        if layer == 0 {
            let m = (self.mode7_latch as u16) | ((value as u16) << 8);
            self.mode7.scroll = put2(self.mode7.scroll, axis, m);
            self.mode7_latch = value;
        }
    }

    /// Writes the B-bus register `reg` (`$2100`-`$21FF`).
    fn write_b_bus(&mut self, reg: u16, value: u8)
        requires
            0x2100 <= reg <= 0x21FF,
        ensures
            final(self)@ == old(self)@.b_bus_written(reg, value),
    {
        if reg == 0x2101 {
            self.object_select = value;
        } else if reg == 0x2105 {
            self.bg_mode = value;
        } else if 0x2107 <= reg && reg <= 0x210A {
            self.bg_sc = put4(self.bg_sc, (reg - 0x2107) as usize, value);
        } else if 0x210B <= reg && reg <= 0x210C {
            let layer = (reg - 0x210B) as usize * 2;
            let b = put4(self.bg_character_base, layer, ((value & 0x0F) as u16) << 13);
            self.bg_character_base = put4(b, layer + 1, ((value >> 4) as u16) << 13);
        } else if 0x210D <= reg && reg <= 0x2114 {
            self.write_scroll(reg, value);
        } else if reg == 0x211A {
            self.mode7.control = value;
        } else if 0x211B <= reg && reg <= 0x2120 {
            let w = (self.mode7_latch as u16) | ((value as u16) << 8);
            if reg <= 0x211E {
                self.mode7.matrix = put4(self.mode7.matrix, (reg - 0x211B) as usize, w as i16);
            } else {
                self.mode7.center = put2(self.mode7.center, (reg - 0x211F) as usize, w);
            }
            self.mode7_latch = value;
        } else if reg == 0x2115 {
            self.vmain = value;
        } else if reg == 0x2116 {
            self.vmadd = (self.vmadd & 0xFF00) | value as u16;
        } else if reg == 0x2117 {
            self.vmadd = (self.vmadd & 0x00FF) | ((value as u16) << 8);
        } else if reg == 0x2118 || reg == 0x2119 {
            let high = reg == 0x2119;
            let a = (remap(self.vmain, self.vmadd) as usize * 2 + if high { 1 } else { 0 }) % VRAM_LEN;
            self.vram_put(a, value);
            if (self.vmain & 0x80 != 0) == high {
                self.vmadd = self.vmadd.wrapping_add(step(self.vmain));
            }
        } else if 0x2128 <= reg && reg <= 0x2129 {
            self.window2 = put2(self.window2, (reg - 0x2128) as usize, value);
        } else if 0x212A <= reg && reg <= 0x212B {
            self.window_logic = put2(self.window_logic, (reg - 0x212A) as usize, value);
        } else if 0x212E <= reg && reg <= 0x212F {
            self.window_masks = put2(self.window_masks, (reg - 0x212E) as usize, value);
        } else if reg == 0x2180 {
            let a = self.wmadd as usize;
            if a < self.wram.len() {
                self.wram.set(a, value);
            }
            self.wmadd = (self.wmadd % 0x2_0000 + 1) % 0x2_0000;
        } else if reg == 0x2181 {
            self.wmadd = (self.wmadd & 0x1_FF00) | value as u32;
        } else if reg == 0x2182 {
            self.wmadd = (self.wmadd & 0x1_00FF) | ((value as u32) << 8);
        } else if reg == 0x2183 {
            self.wmadd = (self.wmadd & 0x0_FFFF) | (((value & 1) as u32) << 16);
        } else if reg == 0x2121 {
            self.cgadd = value as u16 * 2;
        } else if reg == 0x2122 {
            let a = self.cgadd as usize % CGRAM_LEN;
            if a < self.cgram.len() {
                self.cgram.set(a, value);
            }
            self.cgadd = self.cgadd.wrapping_add(1);
        } else if 0x2140 <= reg && reg <= 0x2143 {
            assert(reg & 3 < 4) by (bit_vector);
            self.write_apu((reg & 3) as usize, value);
        } else {
            self.missed_write();
        }
    }

    /// Writes the CPU's own register `reg` (`$4200`-`$437F`), other than
    /// the DMA start.
    fn write_cpu_register(&mut self, reg: u16, value: u8)
        requires
            0x4200 <= reg <= 0x437F,
        ensures
            final(self)@ == old(self)@.cpu_register_written(reg, value),
    {
        if reg == 0x4200 {
            self.interrupt_enable = value;
        } else if reg == 0x4202 {
            self.multiplicand = value;
        } else if reg == 0x4203 {
            assert(self.multiplicand as u16 * value as u16 <= 0xFE01) by (nonlinear_arith)
                requires
                    self.multiplicand <= 0xFF,
                    value <= 0xFF,
            ;
            self.product = self.multiplicand as u16 * value as u16;
        } else if reg == 0x4204 {
            self.dividend = (self.dividend & 0xFF00) | value as u16;
        } else if reg == 0x4205 {
            self.dividend = (self.dividend & 0x00FF) | ((value as u16) << 8);
        } else if reg == 0x4206 {
            if value == 0 {
                self.quotient = 0xFFFF;
                self.product = self.dividend;
            } else {
                self.quotient = self.dividend / value as u16;
                self.product = self.dividend % value as u16;
            }
        } else if reg == 0x4209 {
            self.irq_scanline = (self.irq_scanline & 0x100) | value as u16;
        } else if reg == 0x420A {
            self.irq_scanline = (self.irq_scanline & 0xFF) | (((value & 1) as u16) << 8);
        } else if 0x4300 <= reg && (reg & 0x0F) <= 6 {
            assert((reg >> 4u16) & 7 < 8) by (bit_vector);
            let ch = ((reg >> 4) & 7) as usize;
            let c = self.dma[ch];
            let field = reg & 0x0F;
            let c = if field == 0 {
                DmaChannel { control: value, ..c }
            } else if field == 1 {
                DmaChannel { dest: value, ..c }
            } else if field == 2 {
                DmaChannel { src: (c.src & 0xFF_FF00) | value as u32, ..c }
            } else if field == 3 {
                DmaChannel { src: (c.src & 0xFF_00FF) | ((value as u32) << 8), ..c }
            } else if field == 4 {
                DmaChannel { src: (c.src & 0x00_FFFF) | ((value as u32) << 16), ..c }
            } else if field == 5 {
                DmaChannel { size: (c.size & 0xFF00) | value as u16, ..c }
            } else {
                DmaChannel { size: (c.size & 0x00FF) | ((value as u16) << 8), ..c }
            };
            self.dma = put8(self.dma, ch, c);
        } else if 0x4300 <= reg {
        } else {
            self.missed_write();
        }
    }

    /// Writes the S-CPU's I/O register `reg`, other than the DMA start.
    fn write_io(&mut self, reg: u16, value: u8)
        requires
            reg != 0x420B,
        ensures
            final(self)@ == old(self)@.io_written(reg, value),
    {
        if 0x2200 <= reg && reg <= 0x23FF {
            let handled = match self.sa1.take() {
                Some(mut sa1) => {
                    let h = sa1.write(Processor::Main, reg, value);
                    self.sa1 = Some(sa1);
                    h
                },
                None => false,
            };
            if !handled {
                self.missed_write();
            }
        } else if 0x2100 <= reg && reg <= 0x21FF {
            self.write_b_bus(reg, value);
        } else if 0x4200 <= reg && reg <= 0x437F {
            self.write_cpu_register(reg, value);
        } else {
            self.missed_write();
        }
    }
}

/// [`vram_step`], run.
fn step(vmain: u8) -> (r: u16)
    ensures
        r == vram_step(vmain),
{
    if vmain & 3 == 0 {
        1
    } else if vmain & 3 == 1 {
        32
    } else {
        128
    }
}

/// [`vram_remap`], run.
fn remap(vmain: u8, addr: u16) -> (r: u16)
    ensures
        r == vram_remap(vmain, addr),
{
    let mode = (vmain >> 2) & 3;
    if mode == 0 {
        addr
    } else if mode == 1 {
        (addr & 0xFF00) | ((addr & 0x001F) << 3) | ((addr & 0x00E0) >> 5)
    } else if mode == 2 {
        (addr & 0xFE00) | ((addr & 0x003F) << 3) | ((addr & 0x01C0) >> 6)
    } else {
        (addr & 0xFC00) | ((addr & 0x007F) << 3) | ((addr & 0x0380) >> 7)
    }
}

} // verus!

verus! {

impl<'a> SmwBus<'a> {
    /// Reads `addr` as the S-CPU sees it.
    fn read_at(&mut self, addr: u32) -> (r: u8)
        ensures
            (r, final(self)@) == old(self)@.read(addr),
    {
        if addr & 0x8000 != 0 && !(0x40 <= (addr >> 16) && (addr >> 16) <= 0x7F) {
            return self.rom_read(addr);
        }
        let bank = (addr >> 16) as u8;
        let offset = addr as u16;
        let low_bank = bank <= 0x3F || (0x80 <= bank && bank <= 0xBF);
        if bank == 0x7E || bank == 0x7F {
            let i = (bank - 0x7E) as usize * 0x1_0000 + offset as usize;
            if i < self.wram.len() {
                self.wram[i]
            } else {
                0
            }
        } else if low_bank && offset < 0x2000 {
            let i = offset as usize;
            if i < self.wram.len() {
                self.wram[i]
            } else {
                0
            }
        } else {
            let cart = match &self.sa1 {
                Some(sa1) => cart_ram_index(sa1, Processor::Main, addr),
                None => None,
            };
            match cart {
                Some((true, i)) => get_byte(&self.bwram, i),
                Some((false, i)) => get_byte(&self.iram, i),
                None => if low_bank && 0x2000 <= offset && offset <= 0x7FFF {
                    self.read_register(offset)
                } else {
                    self.rom_read(addr)
                },
            }
        }
    }

    /// Writes `value` to `addr` as the S-CPU makes the write.
    fn write_at(&mut self, addr: u32, value: u8)
        ensures
            final(self)@ == old(self)@.written(addr, value),
    {
        let bank = (addr >> 16) as u8;
        let offset = addr as u16;
        let low_bank = bank <= 0x3F || (0x80 <= bank && bank <= 0xBF);
        if bank == 0x7E || bank == 0x7F {
            let i = (bank - 0x7E) as usize * 0x1_0000 + offset as usize;
            if i < self.wram.len() {
                self.wram.set(i, value);
            }
        } else if low_bank && offset < 0x2000 {
            let i = offset as usize;
            if i < self.wram.len() {
                self.wram.set(i, value);
            }
        } else {
            let cart = match &self.sa1 {
                Some(sa1) => cart_ram_index(sa1, Processor::Main, addr),
                None => None,
            };
            match cart {
                Some((true, i)) => set_byte(&mut self.bwram, i, value),
                Some((false, i)) => set_byte(&mut self.iram, i, value),
                None => if low_bank && 0x2000 <= offset && offset <= 0x7FFF {
                    self.write_register(offset, value);
                } else {
                    self.missed_write();
                },
            }
        }
    }

    /// Writes the S-CPU's I/O register `reg`; `$420B` starts the DMA
    /// channels it names.
    pub fn write_register(&mut self, reg: u16, value: u8)
        ensures
            final(self)@ == old(self)@.register_written(reg, value),
    {
        if reg == 0x420B {
            self.run_dma(value);
        } else {
            self.write_io(reg, value);
        }
    }

    /// Executes the general-purpose DMA channels enabled in `mask`,
    /// transferring from the A bus to the B bus registers.
    fn run_dma(&mut self, mask: u8)
        ensures
            final(self)@ == old(self)@.dma_run(mask, 0),
    {
        let mut ch: usize = 0;
        while ch < 8
            invariant
                ch <= 8,
                old(self)@.dma_run(mask, 0) == self@.dma_run(mask, ch as int),
            decreases 8 - ch,
        {
            if (mask >> (ch as u8)) & 1 != 0 {
                self.run_channel(ch);
            }
            ch += 1;
        }
    }

    /// Executes DMA channel `ch`.
    fn run_channel(&mut self, ch: usize)
        requires
            ch < 8,
        ensures
            final(self)@ == old(self)@.dma_channel_run(ch as int),
    {
        let c = self.dma[ch];
        if c.control & 0x80 != 0 {
            // B to A transfers (VRAM reads) are not needed by the loaders.
            self.missed_write();
            return;
        }
        let mut src = c.src;
        let mut count: u32 = if c.size == 0 {
            0x1_0000
        } else {
            c.size as u32
        };
        let ghost total = count as nat;
        let ghost s0 = self@;
        let mut i: usize = 0;
        while count > 0
            invariant
                i + count == total,
                total <= 0x1_0000,
                self@.dma_copy(c, src, i as nat, count as nat) == s0.dma_copy(c, c.src, 0, total),
            decreases count,
        {
            let value = self.read_at(src);
            let reg = dma_register(c, i);
            self.write_io(reg, value);
            src = next_source(c, src);
            i += 1;
            count -= 1;
        }
        let d = self.dma[ch];
        self.dma = put8(self.dma, ch, DmaChannel { src, size: 0, ..d });
    }

    /// Whether the SA-1 has the S-CPU's IRQ line asserted.
    fn irq_line(&self) -> (r: bool)
        ensures
            r == (self@.sa1 matches Some(s) && s.spec_irq(Processor::Main)),
    {
        match &self.sa1 {
            Some(sa1) => sa1.irq(Processor::Main),
            None => false,
        }
    }

    /// Hands the cartridge to the SA-1: the view holds the SA-1, its RAM
    /// and the miss counters until [`SmwBus::end_sa1_view`] puts them back.
    /// `None` without an SA-1.
    pub fn sa1_view(&mut self) -> (r: Option<Sa1View<'a>>)
        ensures
            old(self)@.sa1 is None <==> r is None,
            r is None ==> final(self)@ == old(self)@,
            r matches Some(v) ==> Some(v.sa1) == old(self)@.sa1 && v.iram@ == old(self)@.iram
                && v.bwram@ == old(self)@.bwram && v.unmapped_reads == old(self)@.unmapped_reads
                && v.unmapped_writes == old(self)@.unmapped_writes && v.rom.mapping == old(self)@.mapping
                && v.rom.data@ == old(self)@.rom && final(self)@ == (BusView {
                sa1: None,
                iram: Seq::empty(),
                bwram: Seq::empty(),
                ..old(self)@
            }),
    {
        let sa1 = match self.sa1.take() {
            Some(s) => s,
            None => return None,
        };
        let mut iram: Vec<u8> = Vec::new();
        let mut bwram: Vec<u8> = Vec::new();
        std::mem::swap(&mut iram, &mut self.iram);
        std::mem::swap(&mut bwram, &mut self.bwram);
        Some(Sa1View {
            rom: RomImage { mapping: self.rom.mapping, data: self.rom.data },
            sa1,
            iram,
            bwram,
            unmapped_reads: self.unmapped_reads,
            unmapped_writes: self.unmapped_writes,
        })
    }

    /// Takes back what [`SmwBus::sa1_view`] handed over.
    pub fn end_sa1_view(&mut self, view: Sa1View<'a>)
        ensures
            final(self)@ == (BusView {
                sa1: Some(view.sa1),
                iram: view.iram@,
                bwram: view.bwram@,
                unmapped_reads: view.unmapped_reads,
                unmapped_writes: view.unmapped_writes,
                ..old(self)@
            }),
    {
        self.sa1 = Some(view.sa1);
        self.iram = view.iram;
        self.bwram = view.bwram;
        self.unmapped_reads = view.unmapped_reads;
        self.unmapped_writes = view.unmapped_writes;
    }

    /// Gives the SA-1 a turn: it runs until it waits. False if it got
    /// nowhere, or there is none.
    pub fn run_sa1(&mut self) -> (r: bool)
        ensures
            !old(self)@.sa1_can_run() ==> !r && final(self)@ == old(self)@,
            old(self)@.sa1_can_run() ==> old(self)@.took_sa1_turn(final(self)@, r),
    {
        let ghost b0 = self@;
        let mut view = match self.sa1_view() {
            Some(v) => v,
            None => return false,
        };
        if !view.sa1.runnable() {
            self.end_sa1_view(view);
            proof {
                assert(self@.iram =~= b0.iram);
                assert(self@.bwram =~= b0.bwram);
            }
            return false;
        }
        let ghost s = view.sa1;
        let mut cpu = view.sa1.take_cpu();
        let before = cpu.writes();
        let done = |c: &Cpu| -> (b: bool)
            ensures
                b == c.spec_returned(),
            { c.returned() };
        let result = cpu.run(&mut view, SA1_STEP_LIMIT, done);
        let progressed = cpu.writes() != before;
        let fault = match result {
            Ok(_) => None,
            Err(e) => Some(e),
        };
        view.sa1.set_cpu(cpu, fault);
        proof {
            assert(s.spec_cpu().ran(view.sa1.spec_cpu(), result));
        }
        self.end_sa1_view(view);
        progressed
    }

    /// The error that stopped the SA-1, which is why the S-CPU is about
    /// to report waiting for it.
    pub fn sa1_fault(&self) -> (r: Option<CpuError>)
        ensures
            r == (match self@.sa1 {
                Some(s) => match s.spec_stop() {
                    Some(f) => Some(CpuError::Sa1(Box::new(f))),
                    None => None,
                },
                None => None,
            }),
    {
        match &self.sa1 {
            Some(sa1) => match sa1.stop() {
                Some(f) => Some(CpuError::Sa1(Box::new(f))),
                None => None,
            },
            None => None,
        }
    }
}

/// What a turn of the SA-1 that ended with `res` leaves as its fault.
pub open spec fn fault_of(res: Result<Run, CpuError>) -> Option<CpuError> {
    match res {
        Ok(_) => None,
        Err(e) => Some(e),
    }
}

/// [`BusView::dma_target`], run.
fn dma_register(c: DmaChannel, i: usize) -> (r: u16)
    ensures
        r == BusView::dma_target(c, i as int),
        r != 0x420B,
{
    let d = c.dest;
    assert(0x2100u16 | (d as u16) <= 0x21FF && 0x2100u16 | (d as u16) >= 0x2100) by (bit_vector);
    let base = 0x2100u16 | d as u16;
    let k = i % 4;
    let mode = c.control & 7;
    let off: u16 = if mode == 0 || mode == 2 || mode == 6 {
        0
    } else if mode == 3 || mode == 7 {
        (k / 2) as u16
    } else if mode == 4 {
        k as u16
    } else {
        (k % 2) as u16
    };
    base + off
}

/// [`BusView::dma_next_src`], run.
fn next_source(c: DmaChannel, src: u32) -> (r: u32)
    ensures
        r == BusView::dma_next_src(c, src),
{
    if c.control & 0x08 != 0 {
        src
    } else {
        let o = src as u16;
        let next: u16 = if c.control & 0x10 != 0 {
            if o == 0 {
                0xFFFF
            } else {
                o - 1
            }
        } else {
            if o == 0xFFFF {
                0
            } else {
                o + 1
            }
        };
        (src & 0xFF_0000) | next as u32
    }
}

impl<'a> Bus for SmwBus<'a> {
    fn read(&mut self, addr: u32) -> (r: u8)
        ensures
            (r, final(self)@) == old(self)@.read(addr),
    {
        self.read_at(addr)
    }

    fn write(&mut self, addr: u32, value: u8)
        ensures
            final(self)@ == old(self)@.written(addr, value),
    {
        self.write_at(addr, value)
    }

    fn irq(&mut self) -> (r: bool)
        ensures
            r == (old(self)@.sa1 matches Some(s) && s.spec_irq(Processor::Main)),
            final(self)@ == old(self)@,
    {
        self.irq_line()
    }

    fn irq_vector(&mut self, emulation: bool) -> (r: u16)
        ensures
            old(self)@.main_vector() is Some ==> r == old(self)@.main_vector()->0 && final(self)@
                == old(self)@,
            old(self)@.main_vector() is None ==> {
                let addr: u32 = if emulation { 0xFFFE } else { 0xFFEE };
                let (lo, s1) = old(self)@.read(addr);
                let (hi, s2) = s1.read((addr + 1) as u32);
                r == word(lo, hi) && final(self)@ == s2
            },
    {
        let v = match &self.sa1 {
            Some(sa1) => sa1.main_irq_vector(),
            None => None,
        };
        match v {
            Some(v) => v,
            None => {
                let addr: u32 = if emulation {
                    0xFFFE
                } else {
                    0xFFEE
                };
                let lo = self.read_at(addr);
                let hi = self.read_at(addr + 1);
                lo as u16 | ((hi as u16) << 8)
            },
        }
    }

    fn wait(&mut self) -> (r: bool) {
        self.run_sa1()
    }
}

/// The bus as the SA-1 sees it: the cartridge (ROM, I-RAM, BW-RAM) and
/// its own registers, and nothing of the console (no work RAM, no PPU or
/// CPU registers). It holds them while the SA-1 runs; see
/// [`SmwBus::sa1_view`].
pub struct Sa1View<'a> {
    pub rom: RomImage<'a>,
    pub sa1: Sa1,
    pub iram: Vec<u8>,
    pub bwram: Vec<u8>,
    pub unmapped_reads: u64,
    pub unmapped_writes: u64,
}

impl<'a> Sa1View<'a> {
    /// What the SA-1 reads at `addr`, or `None` where nothing answers.
    pub open spec fn found(&self, addr: u32) -> Option<u8> {
        let bank = (addr >> 16u32) as u8;
        let offset = addr as u16;
        let low_bank = bank <= 0x3F || (0x80 <= bank && bank <= 0xBF);
        if addr & 0x8000 != 0 && !(0x40 <= (addr >> 16u32) && (addr >> 16u32) <= 0x7F) {
            rom_byte(self.rom.mapping, self.rom.data@, addr)
        } else {
            match cart_ram(self.sa1, Processor::Sa1, addr) {
                Some((bw, i)) => Some(if bw { byte_at(self.bwram@, i) } else { byte_at(self.iram@, i) }),
                None => if low_bank && 0x2200 <= offset && offset <= 0x23FF {
                    self.sa1.spec_read(Processor::Sa1, offset)
                } else if 0xC0 <= bank {
                    rom_byte(self.rom.mapping, self.rom.data@, addr)
                } else {
                    None
                },
            }
        }
    }

    /// The view reads the same ROM, under the same mapping, as `before`.
    pub open spec fn same_cartridge(&self, before: Sa1View<'a>) -> bool {
        self.rom.mapping == before.rom.mapping && self.rom.data@ == before.rom.data@
    }
}

impl<'a> Bus for Sa1View<'a> {
    fn read(&mut self, addr: u32) -> (r: u8)
        ensures
            final(self).same_cartridge(*old(self)),
            final(self).sa1 == old(self).sa1 && final(self).unmapped_writes == old(self).unmapped_writes,
            final(self).iram@ == old(self).iram@ && final(self).bwram@ == old(self).bwram@,
            match old(self).found(addr) {
                Some(v) => r == v && final(self).unmapped_reads == old(self).unmapped_reads,
                None => r == 0 && final(self).unmapped_reads == bump(old(self).unmapped_reads),
            },
    {
        let found = if addr & 0x8000 != 0 && !(0x40 <= (addr >> 16) && (addr >> 16) <= 0x7F) {
            rom_lookup(&self.rom, addr)
        } else {
            let bank = (addr >> 16) as u8;
            let offset = addr as u16;
            let low_bank = bank <= 0x3F || (0x80 <= bank && bank <= 0xBF);
            match cart_ram_index(&self.sa1, Processor::Sa1, addr) {
                Some((true, i)) => Some(get_byte(&self.bwram, i)),
                Some((false, i)) => Some(get_byte(&self.iram, i)),
                None => if low_bank && 0x2200 <= offset && offset <= 0x23FF {
                    self.sa1.read(Processor::Sa1, offset)
                } else if 0xC0 <= bank {
                    rom_lookup(&self.rom, addr)
                } else {
                    None
                },
            }
        };
        match found {
            Some(v) => v,
            None => {
                self.unmapped_reads = bumped(self.unmapped_reads);
                0
            },
        }
    }

    fn write(&mut self, addr: u32, value: u8)
        ensures
            final(self).same_cartridge(*old(self)),
            final(self).unmapped_reads == old(self).unmapped_reads,
            ({
                let bank = (addr >> 16u32) as u8;
                let offset = addr as u16;
                match cart_ram(old(self).sa1, Processor::Sa1, addr) {
                    Some((bw, i)) => final(self).sa1 == old(self).sa1
                        && final(self).unmapped_writes == old(self).unmapped_writes
                        && (if bw {
                        final(self).bwram@ == put_at(old(self).bwram@, i, value) && final(self).iram@ == old(self).iram@
                    } else {
                        final(self).iram@ == put_at(old(self).iram@, i, value) && final(self).bwram@ == old(self).bwram@
                    }),
                    None => final(self).iram@ == old(self).iram@ && final(self).bwram@ == old(self).bwram@
                        && if (bank <= 0x3F || (0x80 <= bank && bank <= 0xBF)) && 0x2200 <= offset
                        && offset <= 0x23FF && is_write_register(Processor::Sa1, offset) {
                        final(self).sa1 == old(self).sa1.spec_written(Processor::Sa1, offset, value)
                            && final(self).unmapped_writes == old(self).unmapped_writes
                    } else {
                        final(self).sa1 == old(self).sa1
                            && final(self).unmapped_writes == bump(old(self).unmapped_writes)
                    },
                }
            }),
    {
        let bank = (addr >> 16) as u8;
        let offset = addr as u16;
        match cart_ram_index(&self.sa1, Processor::Sa1, addr) {
            Some((true, i)) => set_byte(&mut self.bwram, i, value),
            Some((false, i)) => set_byte(&mut self.iram, i, value),
            None => {
                let handled = if (bank <= 0x3F || (0x80 <= bank && bank <= 0xBF)) && 0x2200 <= offset
                    && offset <= 0x23FF {
                    self.sa1.write(Processor::Sa1, offset, value)
                } else {
                    false
                };
                if !handled {
                    self.unmapped_writes = bumped(self.unmapped_writes);
                }
            },
        }
    }

    fn irq(&mut self) -> (r: bool)
        ensures
            r == old(self).sa1.spec_irq(Processor::Sa1),
            *final(self) == *old(self),
    {
        self.sa1.irq(Processor::Sa1)
    }

    fn irq_vector(&mut self, emulation: bool) -> (r: u16)
        ensures
            r == old(self).sa1.spec_irq_vector(),
            *final(self) == *old(self),
    {
        self.sa1.irq_vector()
    }
    // `wait` stays false: a waiting SA-1 ends its turn.
}

} // verus!

verus! {

/// Work RAM gives back what was written to it, through any 24-bit
/// address that reaches the same byte: its own bank or the mirror at the
/// bottom of the low banks.
pub proof fn lemma_work_ram_reads_back(b: BusView, at: u32, from: u32, value: u8)
    requires
        b.wf(),
        BusView::wram_index(at) is Some,
        BusView::wram_index(from) == BusView::wram_index(at),
        from < 0x100_0000,
    ensures
        b.written(at, value).read(from).0 == value,
        b.written(at, value).read(from).1 == b.written(at, value),
{
    let i = BusView::wram_index(at)->0;
    assert(0 <= i < WRAM_LEN);
    assert(from & 0x8000 == 0 || (0x40 <= (from >> 16u32) && (from >> 16u32) <= 0x7F)) by (bit_vector)
        requires
            ((from >> 16u32) as u8 == 0x7E || (from >> 16u32) as u8 == 0x7F) || (from as u16) < 0x2000,
            from < 0x100_0000,
    ;
}

/// A word written through the VRAM data port, low byte then high byte,
/// with `VMAIN` set to step after the high byte and no address
/// remapping, lands at the word address and the next byte, and the word
/// address then steps by 1, 32 or 128 words as `VMAIN` bits 0-1 select
/// (0, 1, 2 or 3).
#[verifier::rlimit(60)]
#[verifier::spinoff_prover]
pub proof fn lemma_vram_port_word(b: BusView, lo: u8, hi: u8)
    requires
        b.wf(),
        b.vmain & 0x80 != 0,
        b.vmain & 0x0C == 0,
    ensures
        ({
            let s = b.register_written(0x2118, lo).register_written(0x2119, hi);
            let a = (2 * b.vmadd) % 0x1_0000;
            let step: int = if b.vmain & 3 == 0 {
                1
            } else if b.vmain & 3 == 1 {
                32
            } else {
                128
            };
            &&& s.vram[a] == lo && s.vram[a + 1] == hi
            &&& s.vram_written[a] && s.vram_written[a + 1]
            &&& s.vmadd == (b.vmadd + step) % 0x1_0000
            &&& s.vmain == b.vmain
        }),
{
    let v = b.vmain;
    assert((v >> 2u8) & 3 == 0) by (bit_vector)
        requires
            v & 0x0C == 0,
    ;
    assert(vram_remap(v, b.vmadd) == b.vmadd);
    let a = (2 * b.vmadd) % 0x1_0000;
    assert(a % 2 == 0);
    assert((vram_remap(v, b.vmadd) * 2 + 1) % 0x1_0000 == a + 1);
}

/// With `VMAIN` set to step after the low byte (bit 7 clear) and no
/// remapping, a byte written to `$2118` lands at the word address's low
/// byte and the address steps by 1, 32 or 128 words; `$2119` then writes
/// the high byte of the next word and does not step.
#[verifier::rlimit(60)]
#[verifier::spinoff_prover]
pub proof fn lemma_vram_port_low_first(b: BusView, lo: u8, hi: u8)
    requires
        b.wf(),
        b.vmain & 0x80 == 0,
        b.vmain & 0x0C == 0,
    ensures
        ({
            let s1 = b.register_written(0x2118, lo);
            let s2 = s1.register_written(0x2119, hi);
            let step: int = if b.vmain & 3 == 0 {
                1
            } else if b.vmain & 3 == 1 {
                32
            } else {
                128
            };
            &&& s1.vram[(2 * b.vmadd) % 0x1_0000] == lo
            &&& s1.vmadd == (b.vmadd + step) % 0x1_0000
            &&& s2.vram[(2 * s1.vmadd) % 0x1_0000 + 1] == hi
            &&& s2.vmadd == s1.vmadd
        }),
{
    let v = b.vmain;
    assert((v >> 2u8) & 3 == 0) by (bit_vector)
        requires
            v & 0x0C == 0,
    ;
    let s1 = b.register_written(0x2118, lo);
    assert(vram_remap(v, b.vmadd) == b.vmadd);
    assert(vram_remap(v, s1.vmadd) == s1.vmadd);
    assert((vram_remap(v, s1.vmadd) * 2 + 1) % 0x1_0000 == (2 * s1.vmadd) % 0x1_0000 + 1);
}

} // verus!
