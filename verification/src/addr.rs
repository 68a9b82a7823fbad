//! Mapping between the SNES CPU address space and offsets in the ROM file.
//!
//! Every ROM read goes through a [`Mapping`], so LoROM and SA-1 ROMs are
//! handled by the same code paths. The conversions follow the conventions
//! Asar uses, so addresses agree with those the rest of the toolchain shows.

use vstd::prelude::*;

use crate::text;

verus! {

/// A 24-bit address in the SNES CPU address space, such as `$05E000`.
#[derive(Clone, Copy, PartialEq, Eq, Structural, Hash, PartialOrd, Ord, Debug)]
pub struct SnesAddr(u32);

impl View for SnesAddr {
    type V = u32;

    closed spec fn view(&self) -> u32 {
        self.0
    }
}

impl SnesAddr {
    #[verifier::type_invariant]
    spec fn fits(self) -> bool {
        self.0 <= 0xFF_FFFF
    }

    /// Wraps a raw address. Bits above the low 24 are discarded.
    pub fn new(addr: u32) -> (r: Self)
        ensures
            r@ == addr % 0x100_0000,
    {
        Self(addr % 0x100_0000)
    }

    /// Builds an address from a bank byte and a 16-bit offset within it.
    pub fn from_bank_offset(bank: u8, offset: u16) -> (r: Self)
        ensures
            r@ == bank as u32 * 0x1_0000 + offset as u32,
    {
        let b = bank as u32;
        let o = offset as u32;
        Self(b * 0x1_0000 + o)
    }

    pub fn raw(self) -> (r: u32)
        ensures
            r == self@,
            r <= 0xFF_FFFF,
    {
        proof {
            use_type_invariant(self);
        }
        self.0
    }

    pub fn bank(self) -> (r: u8)
        ensures
            r == self@ / 0x1_0000,
    {
        proof {
            use_type_invariant(self);
        }
        (self.0 / 0x1_0000) as u8
    }

    /// The 16-bit offset within the bank.
    pub fn offset(self) -> (r: u16)
        ensures
            r == self@ % 0x1_0000,
    {
        (self.0 % 0x1_0000) as u16
    }

    /// Adds a byte count, wrapping within the 24-bit space.
    pub fn add(self, n: u32) -> (r: Self)
        ensures
            r@ == (self@ + n) % 0x100_0000,
    {
        proof {
            use_type_invariant(self);
        }
        Self(((self.0 as u64 + n as u64) % 0x100_0000) as u32)
    }

    /// The address as `$` and six hexadecimal digits, as the SNES
    /// toolchain writes it.
    pub fn to_string(&self) -> (s: String)
        ensures
            s@ == seq!['$'] + text::hex_digits(self@ as nat, 6),
    {
        let mut s = String::new();
        text::push_char(&mut s, '$');
        text::push_hex(&mut s, self.0 as u64, 6);
        s
    }
}

/// The hexadecimal digits an offset takes, at least six.
pub open spec fn pc_digits(v: u32) -> nat {
    if v > 0xFFF_FFFF {
        8
    } else if v > 0xFF_FFFF {
        7
    } else {
        6
    }
}

/// A byte offset into the headerless ROM image, often called a "PC
/// address" in SMW hacking documentation.
#[derive(Clone, Copy, PartialEq, Eq, Structural, Hash, PartialOrd, Ord, Debug)]
pub struct PcAddr(u32);

impl View for PcAddr {
    type V = u32;

    closed spec fn view(&self) -> u32 {
        self.0
    }
}

impl PcAddr {
    pub fn new(offset: u32) -> (r: Self)
        ensures
            r@ == offset,
    {
        Self(offset)
    }

    pub fn raw(self) -> (r: u32)
        ensures
            r == self@,
    {
        self.0
    }

    pub fn as_usize(self) -> (r: usize)
        ensures
            r == self@,
    {
        self.0 as usize
    }

    /// The offset as `0x` and its hexadecimal digits, at least six.
    pub fn to_string(&self) -> (s: String)
        ensures
            s@ == seq!['0', 'x'] + text::hex_digits(self@ as nat, pc_digits(self@)),
    {
        let mut s = String::new();
        text::push_char(&mut s, '0');
        text::push_char(&mut s, 'x');
        let width: u32 = if self.0 > 0xFFF_FFFF {
            8
        } else if self.0 > 0xFF_FFFF {
            7
        } else {
            6
        };
        text::push_hex(&mut s, self.0 as u64, width);
        s
    }
}

/// Cartridge memory mapping.
#[derive(Clone, Copy, PartialEq, Eq, Structural, Hash, Debug)]
pub enum Mapping {
    /// Standard LoROM, as used by vanilla SMW and non-SA-1 hacks. Up to 4 MiB.
    LoRom,
    /// SA-1 cartridge mapping with the default Super MMC bank assignment
    /// (banks 0 to 3 mapped in order). Up to 4 MiB.
    Sa1Rom,
    /// An SA-1 cartridge of more than 4 MiB, as SA-1 Pack sets the Super
    /// MMC up for one: the first 4 MiB in the LoROM view alone, the rest
    /// in the HiROM view alone. Up to 8 MiB.
    BigSa1Rom,
}

#[derive(Clone, Copy, PartialEq, Eq, Structural, Debug)]
pub enum MapError {
    /// The address is not a ROM address under the mapping.
    NotRom(SnesAddr, Mapping),
    /// The offset is outside the addressable ROM range under the mapping.
    OutOfRange(PcAddr, Mapping),
}

impl Mapping {
    /// The mapping's name.
    pub open spec fn name(self) -> Seq<char> {
        match self {
            Mapping::LoRom => "LoRom"@,
            Mapping::Sa1Rom => "Sa1Rom"@,
            Mapping::BigSa1Rom => "BigSa1Rom"@,
        }
    }

    pub fn name_str(self) -> (r: &'static str)
        ensures
            r@ == self.name(),
    {
        match self {
            Mapping::LoRom => "LoRom",
            Mapping::Sa1Rom => "Sa1Rom",
            Mapping::BigSa1Rom => "BigSa1Rom",
        }
    }
}

impl MapError {
    /// The error as a sentence.
    pub open spec fn text(self) -> Seq<char> {
        match self {
            MapError::NotRom(addr, mapping) => seq!['$'] + text::hex_digits(addr@ as nat, 6)
                + " is not a ROM address under "@ + mapping.name() + " mapping"@,
            MapError::OutOfRange(pc, mapping) => seq!['0', 'x'] + text::hex_digits(
                pc@ as nat,
                pc_digits(pc@),
            ) + " is outside the addressable ROM range under "@ + mapping.name() + " mapping"@,
        }
    }

    pub fn to_string(&self) -> (r: String)
        ensures
            r@ == self.text(),
    {
        let (mut s, mapping) = match self {
            MapError::NotRom(addr, mapping) => {
                let mut s = addr.to_string();
                text::push_str(&mut s, " is not a ROM address under ");
                (s, *mapping)
            },
            MapError::OutOfRange(pc, mapping) => {
                let mut s = pc.to_string();
                text::push_str(&mut s, " is outside the addressable ROM range under ");
                (s, *mapping)
            },
        };
        text::push_str(&mut s, mapping.name_str());
        text::push_str(&mut s, " mapping");
        s
    }
}

/// SA-1 Super MMC slots: index is the top three bits of the SNES bank,
/// value the megabyte of ROM mapped there. `None` slots are not ROM.
pub open spec fn sa1_slot(i: u32) -> Option<u32> {
    if i == 0 {
        Some(0x00_0000u32)
    } else if i == 1 {
        Some(0x10_0000u32)
    } else if i == 4 {
        Some(0x20_0000u32)
    } else if i == 5 {
        Some(0x30_0000u32)
    } else {
        None
    }
}

fn sa1_slot_exec(i: u32) -> (r: Option<u32>)
    ensures
        r == sa1_slot(i),
{
    if i == 0 {
        Some(0x00_0000)
    } else if i == 1 {
        Some(0x10_0000)
    } else if i == 4 {
        Some(0x20_0000)
    } else if i == 5 {
        Some(0x30_0000)
    } else {
        None
    }
}

/// The file offset a SNES address reads under a mapping, if it is ROM.
pub open spec fn spec_snes_to_pc(m: Mapping, a: u32) -> Option<u32> {
    match m {
        Mapping::LoRom => {
            if (a & 0xFE_0000) == 0x7E_0000 || (a & 0x40_8000) == 0 || (a & 0x70_8000)
                == 0x70_0000 {
                None
            } else {
                Some(((a & 0x7F_0000) >> 1) | (a & 0x7FFF))
            }
        },
        Mapping::Sa1Rom => {
            if (a & 0x40_8000) == 0x00_8000 {
                match sa1_slot((a & 0xE0_0000) >> 21) {
                    Some(slot) => Some(slot | ((a & 0x1F_0000) >> 1) | (a & 0x7FFF)),
                    None => None,
                }
            } else if (a & 0xC0_0000) == 0xC0_0000 {
                match sa1_slot(((a & 0x10_0000) >> 20) | ((a & 0x20_0000) >> 19)) {
                    Some(slot) => Some(slot | (a & 0x0F_FFFF)),
                    None => None,
                }
            } else {
                None
            }
        },
        Mapping::BigSa1Rom => {
            if (a & 0x40_8000) == 0x00_8000 {
                Some(((a & 0x80_0000) >> 2) | ((a & 0x3F_0000) >> 1) | (a & 0x7FFF))
            } else if (a & 0xC0_0000) == 0xC0_0000 {
                Some(0x40_0000 | (a & 0x3F_FFFF))
            } else {
                None
            }
        },
    }
}

/// The slot of the SA-1 view holding megabyte `mb`, if any.
pub open spec fn sa1_slot_of(mb: u32) -> Option<u32> {
    if mb == 0x00_0000 {
        Some(0u32)
    } else if mb == 0x10_0000 {
        Some(1u32)
    } else if mb == 0x20_0000 {
        Some(4u32)
    } else if mb == 0x30_0000 {
        Some(5u32)
    } else {
        None
    }
}

/// The canonical SNES address of a file offset under a mapping, if the
/// mapping reaches it.
pub open spec fn spec_pc_to_snes(m: Mapping, p: u32) -> Option<u32> {
    if m == Mapping::BigSa1Rom && 0x40_0000 <= p < 0x80_0000 {
        Some((0xC0_0000 | p) & 0xFF_FFFF)
    } else if p >= 0x40_0000 {
        None
    } else {
        match m {
            Mapping::LoRom => {
                let bank = p >> 15;
                let bank = if bank >= 0x7E {
                    bank | 0x80
                } else {
                    bank
                };
                Some(((bank << 16) | 0x8000 | (p & 0x7FFF)) & 0xFF_FFFF)
            },
            _ => match sa1_slot_of(p & 0x70_0000) {
                Some(slot) => Some(
                    (0x8000 | (slot << 21) | ((p & 0x0F_8000) << 1) | (p & 0x7FFF)) & 0xFF_FFFF,
                ),
                None => None,
            },
        }
    }
}

/// The largest image a mapping addresses.
pub open spec fn max_rom_len(m: Mapping) -> u32 {
    if m == Mapping::BigSa1Rom {
        0x80_0000
    } else {
        0x40_0000
    }
}

impl Mapping {
    /// Picks a mapping from the map-mode byte of the internal ROM header
    /// and the image's length: only an SA-1 image over 4 MiB needs
    /// anything other than the default Super MMC setup. `None` for
    /// unsupported modes (HiROM, ExHiROM, and so on).
    pub fn from_map_mode(map_mode: u8, rom_len: usize) -> (r: Option<Self>)
        ensures
            r == (if map_mode % 16 == 0 {
                Some(Mapping::LoRom)
            } else if map_mode % 16 == 3 && rom_len > 0x40_0000 {
                Some(Mapping::BigSa1Rom)
            } else if map_mode % 16 == 3 {
                Some(Mapping::Sa1Rom)
            } else {
                None
            }),
    {
        let mode = map_mode & 0x0F;
        assert(map_mode & 0x0F == map_mode % 16) by (bit_vector);
        if mode == 0 {
            Some(Self::LoRom)
        } else if mode == 3 && rom_len > 0x40_0000 {
            Some(Self::BigSa1Rom)
        } else if mode == 3 {
            Some(Self::Sa1Rom)
        } else {
            None
        }
    }

    /// Whether the cartridge has an SA-1.
    pub fn is_sa1(self) -> (r: bool)
        ensures
            r == (self != Mapping::LoRom),
    {
        match self {
            Self::LoRom => false,
            _ => true,
        }
    }

    /// Converts a SNES address to a ROM file offset.
    pub fn snes_to_pc(self, addr: SnesAddr) -> (r: Result<PcAddr, MapError>)
        ensures
            match r {
                Ok(pc) => spec_snes_to_pc(self, addr@) == Some(pc@),
                Err(e) => spec_snes_to_pc(self, addr@) is None && e == MapError::NotRom(
                    addr,
                    self,
                ),
            },
    {
        let a = addr.raw();
        let err = MapError::NotRom(addr, self);
        match self {
            Self::LoRom => {
                let is_wram = (a & 0xFE_0000) == 0x7E_0000;
                let is_low_half = (a & 0x40_8000) == 0;
                let is_sram = (a & 0x70_8000) == 0x70_0000;
                if is_wram || is_low_half || is_sram {
                    return Err(err);
                }
                Ok(PcAddr(((a & 0x7F_0000) >> 1) | (a & 0x7FFF)))
            },
            Self::Sa1Rom => {
                if (a & 0x40_8000) == 0x00_8000 {
                    match sa1_slot_exec((a & 0xE0_0000) >> 21) {
                        Some(slot) => Ok(PcAddr(slot | ((a & 0x1F_0000) >> 1) | (a & 0x7FFF))),
                        None => Err(err),
                    }
                } else if (a & 0xC0_0000) == 0xC0_0000 {
                    let idx = ((a & 0x10_0000) >> 20) | ((a & 0x20_0000) >> 19);
                    match sa1_slot_exec(idx) {
                        Some(slot) => Ok(PcAddr(slot | (a & 0x0F_FFFF))),
                        None => Err(err),
                    }
                } else {
                    Err(err)
                }
            },
            Self::BigSa1Rom => {
                if (a & 0x40_8000) == 0x00_8000 {
                    Ok(PcAddr(((a & 0x80_0000) >> 2) | ((a & 0x3F_0000) >> 1) | (a & 0x7FFF)))
                } else if (a & 0xC0_0000) == 0xC0_0000 {
                    Ok(PcAddr(0x40_0000 | (a & 0x3F_FFFF)))
                } else {
                    Err(err)
                }
            },
        }
    }

    /// Converts a ROM file offset to the canonical SNES address for it.
    pub fn pc_to_snes(self, pc: PcAddr) -> (r: Result<SnesAddr, MapError>)
        ensures
            match r {
                Ok(a) => spec_pc_to_snes(self, pc@) == Some(a@),
                Err(e) => spec_pc_to_snes(self, pc@) is None && e == MapError::OutOfRange(
                    pc,
                    self,
                ),
            },
    {
        let p = pc.raw();
        let err = MapError::OutOfRange(pc, self);
        if self == Self::BigSa1Rom && 0x40_0000 <= p && p < 0x80_0000 {
            proof {
                lemma_low24(0xC0_0000 | p);
            }
            return Ok(SnesAddr::new(0xC0_0000 | p));
        }
        if p >= 0x40_0000 {
            return Err(err);
        }
        match self {
            Self::LoRom => {
                let mut bank = p >> 15;
                // Banks 7E and 7F are work RAM; the ROM there is only
                // visible through the FE and FF mirrors.
                if bank >= 0x7E {
                    bank = bank | 0x80;
                }
                assert(bank << 16 <= 0xFF_0000) by (bit_vector)
                    requires
                        bank == p >> 15 || bank == (p >> 15) | 0x80,
                        p < 0x40_0000,
                ;
                proof {
                    lemma_low24((bank << 16) | 0x8000 | (p & 0x7FFF));
                }
                Ok(SnesAddr::new((bank << 16) | 0x8000 | (p & 0x7FFF)))
            },
            _ => {
                let mb = p & 0x70_0000;
                let slot: u32 = if mb == 0x00_0000 {
                    0
                } else if mb == 0x10_0000 {
                    1
                } else if mb == 0x20_0000 {
                    4
                } else if mb == 0x30_0000 {
                    5
                } else {
                    return Err(err);
                };
                proof {
                    lemma_low24(0x8000 | (slot << 21) | ((p & 0x0F_8000) << 1) | (p & 0x7FFF));
                }
                Ok(SnesAddr::new(0x8000 | (slot << 21) | ((p & 0x0F_8000) << 1) | (p & 0x7FFF)))
            },
        }
    }
}

/// The low 24 bits of a number, as a remainder.
proof fn lemma_low24(x: u32)
    by (bit_vector)
    ensures
        x & 0xFF_FFFF == x % 0x100_0000,
{
}

/// Every file offset a mapping addresses has a SNES address, and that
/// address reads the same offset back.
pub proof fn lemma_pc_to_snes_round_trips(m: Mapping, p: u32)
    requires
        p < max_rom_len(m),
    ensures
        spec_pc_to_snes(m, p) is Some,
        spec_snes_to_pc(m, spec_pc_to_snes(m, p)->0) == Some(p),
{
    if m == Mapping::BigSa1Rom && 0x40_0000 <= p {
        let a = (0xC0_0000 | p) & 0xFF_FFFF;
        assert((a & 0x40_8000) != 0x00_8000 && (a & 0xC0_0000) == 0xC0_0000 && (0x40_0000 | (a
            & 0x3F_FFFF)) == p) by (bit_vector)
            requires
                a == (0xC0_0000 | p) & 0xFF_FFFF,
                0x40_0000 <= p < 0x80_0000,
        ;
    } else {
        match m {
            Mapping::LoRom => {
                let bank = p >> 15;
                let bank2 = if bank >= 0x7E {
                    bank | 0x80
                } else {
                    bank
                };
                let a = ((bank2 << 16) | 0x8000 | (p & 0x7FFF)) & 0xFF_FFFF;
                assert(!((a & 0xFE_0000) == 0x7E_0000 || (a & 0x40_8000) == 0 || (a & 0x70_8000)
                    == 0x70_0000) && (((a & 0x7F_0000) >> 1) | (a & 0x7FFF)) == p) by (bit_vector)
                    requires
                        bank == p >> 15,
                        bank2 == (if bank >= 0x7E {
                            bank | 0x80
                        } else {
                            bank
                        }),
                        a == ((bank2 << 16) | 0x8000 | (p & 0x7FFF)) & 0xFF_FFFF,
                        p < 0x40_0000,
                ;
            },
            _ => {
                let mb = p & 0x70_0000;
                assert(mb == 0 || mb == 0x10_0000 || mb == 0x20_0000 || mb == 0x30_0000)
                    by (bit_vector)
                    requires
                        mb == p & 0x70_0000,
                        p < 0x40_0000,
                ;
                let slot: u32 = sa1_slot_of(mb)->0;
                let a = (0x8000 | (slot << 21) | ((p & 0x0F_8000) << 1) | (p & 0x7FFF))
                    & 0xFF_FFFF;
                assert((a & 0x40_8000) == 0x00_8000 && (a & 0xE0_0000) >> 21 == slot && (mb | ((a
                    & 0x1F_0000) >> 1) | (a & 0x7FFF)) == p && (((a & 0x80_0000) >> 2) | ((a
                    & 0x3F_0000) >> 1) | (a & 0x7FFF)) == p) by (bit_vector)
                    requires
                        mb == p & 0x70_0000,
                        (mb == 0 && slot == 0) || (mb == 0x10_0000 && slot == 1) || (mb
                            == 0x20_0000 && slot == 4) || (mb == 0x30_0000 && slot == 5),
                        a == (0x8000 | (slot << 21) | ((p & 0x0F_8000) << 1) | (p & 0x7FFF))
                            & 0xFF_FFFF,
                        p < 0x40_0000,
                ;
            },
        }
    }
}

} // verus!
