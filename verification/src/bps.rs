//! BPS patches: reading and writing.
//!
//! A BPS patch is `BPS1`, three numbers (source size, target size, metadata
//! size), the metadata, a list of actions, and a footer of three CRC32s: the
//! source's, the target's, and the patch's own up to that last one. Numbers
//! are a variable-length encoding in which each byte carries seven bits, the
//! last has bit 7 set, and every continuation adds one to what follows, so
//! each value has exactly one encoding.
//!
//! An action is a number whose low two bits say what it does and whose rest
//! is its length minus one:
//!
//! - `SourceRead`: copy the source bytes at the current output offset.
//! - `TargetRead`: copy that many bytes from the patch.
//! - `SourceCopy`: copy from anywhere in the source.
//! - `TargetCopy`: copy from earlier in the output, byte by byte, so a copy
//!   may overlap what it is writing (a run).
//!
//! The copies are followed by a signed offset (bit 0 the sign, the rest the
//! magnitude) that moves a cursor of their own, relative to where the last
//! copy of the same kind ended.
//!
//! Patches in the wild are made against the headerless SMW image or against
//! one with a 512-byte copier header; [`apply_to_rom`] tells them apart by
//! the source CRC. [`create`] always writes a patch against the headerless
//! image.

use vstd::prelude::*;

use crate::compress::{append_slice, slice_range, spec_repeat, push_repeat};
use crate::text::{dec_digits, hex_digits_lower, push_dec, push_hex_lower, push_str};

verus! {

/// The largest target [`apply`] builds. A tiny patch can describe an
/// enormous target, so its declared size is checked against this before
/// anything is allocated.
pub const MAX_TARGET_LEN: usize = 0x400_0000;

/// Bytes of the copier header some dumps carry before the image.
pub const COPIER_HEADER_LEN: usize = 512;

pub const FOOTER_LEN: usize = 12;

pub const SOURCE_READ: u64 = 0;

pub const TARGET_READ: u64 = 1;

pub const SOURCE_COPY: u64 = 2;

pub const TARGET_COPY: u64 = 3;

#[derive(Debug, PartialEq, Eq)]
pub enum BpsError {
    /// The patch is this many bytes, too short to be a BPS patch.
    TooShort(usize),
    /// Not a BPS patch (no `BPS1` signature).
    BadMagic,
    /// The patch's CRC32 differs from what its footer says.
    PatchCrc { expected: u32, actual: u32 },
    /// The number at this patch offset runs into the footer.
    Truncated(usize),
    /// The number at this patch offset overflows 64 bits.
    Overflow(usize),
    /// The metadata at this patch offset runs into the footer.
    Metadata { offset: usize, len: u64 },
    SourceSize { expected: u64, actual: usize },
    SourceCrc { expected: u32, actual: u32 },
    /// The patch's source is not the ROM, with or without a copier header.
    SourceMismatch { size: u64, crc: u32 },
    /// The target is over [`MAX_TARGET_LEN`].
    TooLarge(u64),
    /// An action at a patch offset goes outside a region.
    OutOfBounds { action: &'static str, offset: usize, region: &'static str },
    /// The actions write `actual` bytes, the header says `expected`.
    TargetSize { expected: u64, actual: usize },
    TargetCrc { expected: u32, actual: u32 },
}

impl BpsError {
    /// The error as a sentence.
    pub open spec fn text(self) -> Seq<char> {
        match self {
            BpsError::TooShort(n) => "patch is "@ + dec_digits(n as nat)
                + " bytes, too short to be a BPS patch"@,
            BpsError::BadMagic => "not a BPS patch (no BPS1 signature)"@,
            BpsError::PatchCrc { expected, actual } => "patch CRC32 is "@ + hex_digits_lower(
                actual as nat,
                8,
            ) + ", its footer says "@ + hex_digits_lower(expected as nat, 8)
                + ": the file is damaged"@,
            BpsError::Truncated(offset) => "number at patch offset "@ + dec_digits(offset as nat)
                + " runs into the footer"@,
            BpsError::Overflow(offset) => "number at patch offset "@ + dec_digits(offset as nat)
                + " overflows 64 bits"@,
            BpsError::Metadata { offset, len } => "metadata of "@ + dec_digits(len as nat)
                + " bytes at patch offset "@ + dec_digits(offset as nat) + " runs into the footer"@,
            BpsError::SourceSize { expected, actual } => "source is "@ + dec_digits(actual as nat)
                + " bytes, the patch wants "@ + dec_digits(expected as nat),
            BpsError::SourceCrc { expected, actual } => "source CRC32 is "@ + hex_digits_lower(
                actual as nat,
                8,
            ) + ", the patch wants "@ + hex_digits_lower(expected as nat, 8),
            BpsError::SourceMismatch { size, crc } => "the patch's source ("@ + dec_digits(
                size as nat,
            ) + " bytes, CRC32 "@ + hex_digits_lower(crc as nat, 8)
                + ") is not this ROM, with or without a copier header"@,
            BpsError::TooLarge(n) => "target of "@ + dec_digits(n as nat) + " bytes is over the "@
                + dec_digits(MAX_TARGET_LEN as nat) + "-byte limit"@,
            BpsError::OutOfBounds { action, offset, region } => action@ + " at patch offset "@
                + dec_digits(offset as nat) + " goes outside the "@ + region@,
            BpsError::TargetSize { expected, actual } => "the actions write "@ + dec_digits(
                actual as nat,
            ) + " bytes, the header says "@ + dec_digits(expected as nat),
            BpsError::TargetCrc { expected, actual } => "target CRC32 is "@ + hex_digits_lower(
                actual as nat,
                8,
            ) + ", the patch wants "@ + hex_digits_lower(expected as nat, 8),
        }
    }

    pub fn to_string(&self) -> (r: String)
        ensures
            r@ == self.text(),
    {
        let mut s = String::new();
        match self {
            BpsError::TooShort(n) => {
                push_str(&mut s, "patch is ");
                push_dec(&mut s, *n as u64);
                push_str(&mut s, " bytes, too short to be a BPS patch");
            },
            BpsError::BadMagic => push_str(&mut s, "not a BPS patch (no BPS1 signature)"),
            BpsError::PatchCrc { expected, actual } => {
                push_str(&mut s, "patch CRC32 is ");
                push_hex_lower(&mut s, *actual as u64, 8);
                push_str(&mut s, ", its footer says ");
                push_hex_lower(&mut s, *expected as u64, 8);
                push_str(&mut s, ": the file is damaged");
            },
            BpsError::Truncated(offset) => {
                push_str(&mut s, "number at patch offset ");
                push_dec(&mut s, *offset as u64);
                push_str(&mut s, " runs into the footer");
            },
            BpsError::Overflow(offset) => {
                push_str(&mut s, "number at patch offset ");
                push_dec(&mut s, *offset as u64);
                push_str(&mut s, " overflows 64 bits");
            },
            BpsError::Metadata { offset, len } => {
                push_str(&mut s, "metadata of ");
                push_dec(&mut s, *len);
                push_str(&mut s, " bytes at patch offset ");
                push_dec(&mut s, *offset as u64);
                push_str(&mut s, " runs into the footer");
            },
            BpsError::SourceSize { expected, actual } => {
                push_str(&mut s, "source is ");
                push_dec(&mut s, *actual as u64);
                push_str(&mut s, " bytes, the patch wants ");
                push_dec(&mut s, *expected);
            },
            BpsError::SourceCrc { expected, actual } => {
                push_str(&mut s, "source CRC32 is ");
                push_hex_lower(&mut s, *actual as u64, 8);
                push_str(&mut s, ", the patch wants ");
                push_hex_lower(&mut s, *expected as u64, 8);
            },
            BpsError::SourceMismatch { size, crc } => {
                push_str(&mut s, "the patch's source (");
                push_dec(&mut s, *size);
                push_str(&mut s, " bytes, CRC32 ");
                push_hex_lower(&mut s, *crc as u64, 8);
                push_str(&mut s, ") is not this ROM, with or without a copier header");
            },
            BpsError::TooLarge(n) => {
                push_str(&mut s, "target of ");
                push_dec(&mut s, *n);
                push_str(&mut s, " bytes is over the ");
                push_dec(&mut s, MAX_TARGET_LEN as u64);
                push_str(&mut s, "-byte limit");
            },
            BpsError::OutOfBounds { action, offset, region } => {
                push_str(&mut s, action);
                push_str(&mut s, " at patch offset ");
                push_dec(&mut s, *offset as u64);
                push_str(&mut s, " goes outside the ");
                push_str(&mut s, region);
            },
            BpsError::TargetSize { expected, actual } => {
                push_str(&mut s, "the actions write ");
                push_dec(&mut s, *actual as u64);
                push_str(&mut s, " bytes, the header says ");
                push_dec(&mut s, *expected);
            },
            BpsError::TargetCrc { expected, actual } => {
                push_str(&mut s, "target CRC32 is ");
                push_hex_lower(&mut s, *actual as u64, 8);
                push_str(&mut s, ", the patch wants ");
                push_hex_lower(&mut s, *expected as u64, 8);
            },
        }
        s
    }
}

// --- CRC-32 -------------------------------------------------------------
/// One bit of CRC-32 (IEEE 802.3, reflected).
pub open spec fn crc_bit(c: u32) -> u32 {
    if c & 1 == 1 {
        0xEDB8_8320u32 ^ (c >> 1u32)
    } else {
        c >> 1u32
    }
}

/// Eight bits of CRC-32: what a byte, xored into the low bits, does.
pub open spec fn crc_byte(c: u32) -> u32 {
    crc_bit(crc_bit(crc_bit(crc_bit(crc_bit(crc_bit(crc_bit(crc_bit(c))))))))
}

/// The register after `data`, from `init`.
pub open spec fn crc_update(init: u32, data: Seq<u8>) -> u32
    decreases data.len(),
{
    if data.len() == 0 {
        init
    } else {
        crc_byte(crc_update(init, data.drop_last()) ^ (data.last() as u32))
    }
}

/// CRC-32 (IEEE 802.3, reflected), the checksum BPS, zip, and PNG use.
pub open spec fn spec_crc32(data: Seq<u8>) -> u32 {
    !crc_update(!0u32, data)
}

fn crc_bit_exec(c: u32) -> (r: u32)
    ensures
        r == crc_bit(c),
{
    if c & 1 == 1 {
        0xEDB8_8320 ^ (c >> 1)
    } else {
        c >> 1
    }
}

/// The table of what each byte value does, as the usual byte-at-a-time
/// CRC routine looks it up.
fn crc_table() -> (t: Vec<u32>)
    ensures
        t@.len() == 256,
        forall|i: int| 0 <= i < 256 ==> #[trigger] t@[i] == crc_byte(i as u32),
{
    let mut table: Vec<u32> = Vec::new();
    let mut i: u32 = 0;
    while i < 256
        invariant
            i <= 256,
            table@.len() == i,
            forall|j: int| 0 <= j < i ==> #[trigger] table@[j] == crc_byte(j as u32),
        decreases 256 - i,
    {
        let mut c = i;
        let mut k: u32 = 0;
        let ghost mut steps: Seq<u32> = seq![i];
        while k < 8
            invariant
                k <= 8,
                k == 0 ==> c == i,
                k == 1 ==> c == crc_bit(i),
                k == 2 ==> c == crc_bit(crc_bit(i)),
                k == 3 ==> c == crc_bit(crc_bit(crc_bit(i))),
                k == 4 ==> c == crc_bit(crc_bit(crc_bit(crc_bit(i)))),
                k == 5 ==> c == crc_bit(crc_bit(crc_bit(crc_bit(crc_bit(i))))),
                k == 6 ==> c == crc_bit(crc_bit(crc_bit(crc_bit(crc_bit(crc_bit(i)))))),
                k == 7 ==> c == crc_bit(crc_bit(crc_bit(crc_bit(crc_bit(crc_bit(crc_bit(i))))))),
                k == 8 ==> c == crc_byte(i),
            decreases 8 - k,
        {
            c = crc_bit_exec(c);
            k = k + 1;
        }
        table.push(c);
        i = i + 1;
    }
    table
}

/// A byte's effect on the register depends on the register's low eight
/// bits through the table, and shifts the rest along.
proof fn lemma_crc_step(crc: u32, b: u32)
    by (bit_vector)
    requires
        b < 256,
    ensures
        crc_byte(crc ^ b) == crc_byte((crc ^ b) & 0xFF) ^ (crc >> 8u32),
        (crc ^ b) & 0xFF < 256,
{
}

/// CRC-32 (IEEE 802.3, reflected), the checksum BPS, zip, and PNG use.
pub fn crc32(data: &[u8]) -> (r: u32)
    ensures
        r == spec_crc32(data@),
{
    let table = crc_table();
    let mut crc: u32 = !0u32;
    let mut i: usize = 0;
    while i < data.len()
        invariant
            i <= data@.len(),
            table@.len() == 256,
            forall|j: int| 0 <= j < 256 ==> #[trigger] table@[j] == crc_byte(j as u32),
            crc == crc_update(!0u32, data@.subrange(0, i as int)),
        decreases data@.len() - i,
    {
        let b = data[i];
        let v = crc ^ (b as u32);
        let idx = v & 0xFF;
        proof {
            lemma_crc_step(crc, b as u32);
            assert(data@.subrange(0, i + 1).drop_last() =~= data@.subrange(0, i as int));
        }
        crc = table[idx as usize] ^ (crc >> 8);
        i = i + 1;
    }
    assert(data@.subrange(0, data@.len() as int) =~= data@);
    !crc
}

// --- Numbers ------------------------------------------------------------
/// Reads a number from `pos`, with `value` and `shift` as the bytes before
/// it left them; the number started at `start`.
pub open spec fn spec_number_from(
    patch: Seq<u8>,
    end: int,
    start: int,
    pos: int,
    value: int,
    shift: int,
) -> Result<(u64, int), BpsError>
    decreases end - pos,
{
    if pos >= end || pos < 0 {
        Err(BpsError::Truncated(start as usize))
    } else {
        let byte = patch[pos];
        let low = (byte % 128) as int;
        if low * shift > u64::MAX || low * shift + value > u64::MAX {
            Err(BpsError::Overflow(start as usize))
        } else {
            let v = low * shift + value;
            if byte >= 128 {
                Ok((v as u64, pos + 1))
            } else if shift * 128 > 0x8000_0000_0000_0000 {
                Err(BpsError::Overflow(start as usize))
            } else if v + shift * 128 > u64::MAX {
                Err(BpsError::Overflow(start as usize))
            } else {
                spec_number_from(patch, end, start, pos + 1, v + shift * 128, shift * 128)
            }
        }
    }
}

/// The number at `pos` and the offset after it.
pub open spec fn spec_number(patch: Seq<u8>, end: int, pos: int) -> Result<(u64, int), BpsError> {
    spec_number_from(patch, end, pos, pos, 0, 1)
}

/// A little-endian 32-bit value at `at`.
pub open spec fn spec_le32(s: Seq<u8>, at: int) -> u32 {
    (s[at] + s[at + 1] * 0x100 + s[at + 2] * 0x1_0000 + s[at + 3] * 0x100_0000) as u32
}

/// Reads the numbers of a patch from `pos`, up to `end`.
pub struct Reader<'a> {
    pub patch: &'a [u8],
    pub pos: usize,
    /// Where the actions end and the footer starts.
    pub end: usize,
}

impl<'a> Reader<'a> {
    /// Reads one variable-length number: seven bits a byte, low bits
    /// first, the last byte marked by its top bit.
    pub fn number(&mut self) -> (r: Result<u64, BpsError>)
        requires
            old(self).end <= old(self).patch@.len(),
            old(self).pos <= old(self).end,
        ensures
            final(self).patch@ == old(self).patch@,
            final(self).end == old(self).end,
            match (r, spec_number(old(self).patch@, old(self).end as int, old(self).pos as int)) {
                (Ok(v), Ok((v2, p))) => v == v2 && final(self).pos == p && old(self).pos < p
                    <= old(self).end,
                (Err(e), Err(e2)) => e == e2,
                _ => false,
            },
    {
        let start = self.pos;
        let mut value: u64 = 0;
        let mut shift: u64 = 1;
        loop
            invariant
                self.patch@ == old(self).patch@,
                self.end == old(self).end,
                self.end <= self.patch@.len(),
                start == old(self).pos,
                start <= self.pos <= self.end,
                shift >= 1,
                (self.pos == start) ==> (value == 0 && shift == 1),
                spec_number(self.patch@, self.end as int, start as int) == spec_number_from(
                    self.patch@,
                    self.end as int,
                    start as int,
                    self.pos as int,
                    value as int,
                    shift as int,
                ),
            decreases self.end - self.pos,
        {
            if self.pos >= self.end {
                return Err(BpsError::Truncated(start));
            }
            let byte = self.patch[self.pos];
            self.pos = self.pos + 1;
            let low = (byte % 128) as u64;
            let prod = match low.checked_mul(shift) {
                Some(p) => p,
                None => {
                    return Err(BpsError::Overflow(start));
                },
            };
            value = match prod.checked_add(value) {
                Some(v) => v,
                None => {
                    return Err(BpsError::Overflow(start));
                },
            };
            if byte >= 0x80 {
                return Ok(value);
            }
            if shift > 0x100_0000_0000_0000 {
                return Err(BpsError::Overflow(start));
            }
            shift = shift * 0x80;
            value = match value.checked_add(shift) {
                Some(v) => v,
                None => {
                    return Err(BpsError::Overflow(start));
                },
            };
        }
    }

    /// Reads a signed offset and applies it to a copy cursor. `None` when
    /// it moves the cursor before the start or past what fits in a `usize`.
    pub fn relative(&mut self, cursor: usize) -> (r: Result<Option<usize>, BpsError>)
        requires
            old(self).end <= old(self).patch@.len(),
            old(self).pos <= old(self).end,
        ensures
            final(self).patch@ == old(self).patch@,
            final(self).end == old(self).end,
            match (r, spec_number(old(self).patch@, old(self).end as int, old(self).pos as int)) {
                (Ok(c), Ok((n, p))) => c == spec_move(cursor as int, n) && final(self).pos == p
                    && old(self).pos < p <= old(self).end,
                (Err(e), Err(e2)) => e == e2,
                _ => false,
            },
    {
        let n = self.number()?;
        let half = n / 2;
        if half > usize::MAX as u64 {
            return Ok(None);
        }
        let magnitude = half as usize;
        if n % 2 == 0 {
            Ok(cursor.checked_add(magnitude))
        } else {
            Ok(cursor.checked_sub(magnitude))
        }
    }
}

/// A copy cursor moved by a signed offset as the patch encodes it, or
/// `None` before the start or past what a `usize` holds.
pub open spec fn spec_move(cursor: int, n: u64) -> Option<usize> {
    let m = (n / 2) as int;
    let to = if n % 2 == 0 {
        cursor + m
    } else {
        cursor - m
    };
    if m > usize::MAX || to < 0 || to > usize::MAX {
        None
    } else {
        Some(to as usize)
    }
}

// --- Reading patches ----------------------------------------------------
/// A patch's header and footer, checked against its own CRC.
#[derive(Clone, Debug, PartialEq, Eq)]
pub struct PatchInfo<'a> {
    pub source_size: u64,
    pub target_size: u64,
    pub metadata: &'a [u8],
    pub source_crc: u32,
    pub target_crc: u32,
    /// Offset of the first action.
    pub actions: usize,
}

/// What a patch's header and footer say: source and target sizes, where
/// the metadata starts and how long it is, the source and target CRCs.
pub open spec fn spec_info(patch: Seq<u8>) -> Result<(u64, u64, int, int, u32, u32), BpsError> {
    let len = patch.len() as int;
    if len < 4 + 3 + FOOTER_LEN {
        Err(BpsError::TooShort(len as usize))
    } else if patch.subrange(0, 4) != seq![0x42u8, 0x50u8, 0x53u8, 0x31u8] {
        Err(BpsError::BadMagic)
    } else {
        let end = len - FOOTER_LEN;
        let actual = spec_crc32(patch.subrange(0, len - 4));
        if actual != spec_le32(patch, end + 8) {
            Err(BpsError::PatchCrc { expected: spec_le32(patch, end + 8), actual })
        } else {
            match spec_number(patch, end, 4) {
                Err(e) => Err(e),
                Ok((source_size, p1)) => match spec_number(patch, end, p1) {
                    Err(e) => Err(e),
                    Ok((target_size, p2)) => match spec_number(patch, end, p2) {
                        Err(e) => Err(e),
                        Ok((meta_len, p3)) => if p3 + meta_len > end {
                            Err(BpsError::Metadata { offset: p3 as usize, len: meta_len })
                        } else {
                            Ok(
                                (
                                    source_size,
                                    target_size,
                                    p3,
                                    meta_len as int,
                                    spec_le32(patch, end),
                                    spec_le32(patch, end + 4),
                                ),
                            )
                        },
                    },
                },
            }
        }
    }
}

fn le32(s: &[u8], at: usize) -> (r: u32)
    requires
        at + 4 <= s@.len(),
    ensures
        r == spec_le32(s@, at as int),
{
    (s[at] as u32) + (s[at + 1] as u32) * 0x100 + (s[at + 2] as u32) * 0x1_0000 + (s[at + 3]
        as u32) * 0x100_0000
}

/// Reads a patch's header and footer, checking its signature and its own CRC.
pub fn info(patch: &[u8]) -> (r: Result<PatchInfo<'_>, BpsError>)
    ensures
        match (r, spec_info(patch@)) {
            (Ok(i), Ok((ss, ts, ms, ml, sc, tc))) => i.source_size == ss && i.target_size == ts
                && i.metadata@ == patch@.subrange(ms, ms + ml) && i.source_crc == sc
                && i.target_crc == tc && i.actions == ms + ml,
            (Err(e), Err(e2)) => e == e2,
            _ => false,
        },
{
    // Signature, three one-byte numbers, footer.
    if patch.len() < 4 + 3 + FOOTER_LEN {
        return Err(BpsError::TooShort(patch.len()));
    }
    if !(patch[0] == 0x42 && patch[1] == 0x50 && patch[2] == 0x53 && patch[3] == 0x31) {
        proof {
            if patch@.subrange(0, 4) == seq![0x42u8, 0x50u8, 0x53u8, 0x31u8] {
                assert(patch@.subrange(0, 4)[0] == patch@[0]);
                assert(patch@.subrange(0, 4)[1] == patch@[1]);
                assert(patch@.subrange(0, 4)[2] == patch@[2]);
                assert(patch@.subrange(0, 4)[3] == patch@[3]);
            }
        }
        return Err(BpsError::BadMagic);
    }
    assert(patch@.subrange(0, 4) =~= seq![0x42u8, 0x50u8, 0x53u8, 0x31u8]);
    let end = patch.len() - FOOTER_LEN;
    let actual = crc32(slice_range(patch, 0, patch.len() - 4));
    let expected = le32(patch, end + 8);
    if actual != expected {
        return Err(BpsError::PatchCrc { expected, actual });
    }
    let mut r = Reader { patch, pos: 4, end };
    let source_size = r.number()?;
    let target_size = r.number()?;
    let metadata_len = r.number()?;
    if metadata_len > (r.end - r.pos) as u64 {
        return Err(BpsError::Metadata { offset: r.pos, len: metadata_len });
    }
    let mlen = metadata_len as usize;
    let metadata = slice_range(patch, r.pos, r.pos + mlen);
    Ok(
        PatchInfo {
            source_size,
            target_size,
            metadata,
            source_crc: le32(patch, end),
            target_crc: le32(patch, end + 4),
            actions: r.pos + mlen,
        },
    )
}


/// An action going outside a region of the patch, source, or target.
pub open spec fn bounds(action: u64, offset: int, region: &'static str) -> BpsError {
    BpsError::OutOfBounds {
        action: if action == 0 {
            "SourceRead"
        } else if action == 1 {
            "TargetRead"
        } else if action == 2 {
            "SourceCopy"
        } else {
            "TargetCopy"
        },
        offset: offset as usize,
        region,
    }
}

/// Runs the actions from `pos` with `written` written so far and the two
/// copy cursors where the last copies left them; the target if they write
/// exactly `target_len` bytes whose CRC is `target_crc`.
pub open spec fn spec_actions(
    patch: Seq<u8>,
    source: Seq<u8>,
    end: int,
    target_size: u64,
    target_crc: u32,
    pos: int,
    written: Seq<u8>,
    source_rel: int,
    target_rel: int,
) -> Result<Seq<u8>, BpsError>
    decreases end - pos,
{
    if pos >= end || pos < 0 {
        if written.len() != target_size {
            Err(BpsError::TargetSize { expected: target_size, actual: written.len() as usize })
        } else if spec_crc32(written) != target_crc {
            Err(BpsError::TargetCrc { expected: target_crc, actual: spec_crc32(written) })
        } else {
            Ok(written)
        }
    } else {
        match spec_number(patch, end, pos) {
            Err(e) => Err(e),
            Ok((word, p)) => {
                let action = word % 4;
                let len = (word / 4) as int + 1;
                let out = written.len() as int;
                if out + len > target_size {
                    Err(bounds(action, pos, "target"))
                } else {
                    let step: Result<(int, Seq<u8>, int, int), BpsError> = if action == 0 {
                        if out + len > source.len() {
                            Err(bounds(action, pos, "source"))
                        } else {
                            Ok((p, source.subrange(out, out + len), source_rel, target_rel))
                        }
                    } else if action == 1 {
                        if p + len > end {
                            Err(bounds(action, pos, "patch"))
                        } else {
                            Ok((p + len, patch.subrange(p, p + len), source_rel, target_rel))
                        }
                    } else if action == 2 {
                        match spec_number(patch, end, p) {
                            Err(e) => Err(e),
                            Ok((n, p2)) => match spec_move(source_rel, n) {
                                None => Err(bounds(action, pos, "source")),
                                Some(from) => if from + len > source.len() {
                                    Err(bounds(action, pos, "source"))
                                } else {
                                    Ok(
                                        (
                                            p2,
                                            source.subrange(from as int, from + len),
                                            from + len,
                                            target_rel,
                                        ),
                                    )
                                },
                            },
                        }
                    } else {
                        match spec_number(patch, end, p) {
                            Err(e) => Err(e),
                            Ok((n, p2)) => match spec_move(target_rel, n) {
                                None => Err(bounds(action, pos, "target")),
                                Some(from) => if from >= out {
                                    Err(bounds(action, pos, "target written so far"))
                                } else {
                                    Ok(
                                        (
                                            p2,
                                            spec_repeat(written, from as int, len),
                                            source_rel,
                                            from + len,
                                        ),
                                    )
                                },
                            },
                        }
                    };
                    match step {
                        Err(e) => Err(e),
                        Ok((p2, bytes, s2, t2)) => if pos < p2 <= end {
                            spec_actions(
                                patch,
                                source,
                                end,
                                target_size,
                                target_crc,
                                p2,
                                written + bytes,
                                s2,
                                t2,
                            )
                        } else {
                            Err(BpsError::Truncated(pos as usize))
                        },
                    }
                }
            },
        }
    }
}

/// What applying a patch to a source gives.
pub open spec fn spec_apply(patch: Seq<u8>, source: Seq<u8>) -> Result<Seq<u8>, BpsError> {
    match spec_info(patch) {
        Err(e) => Err(e),
        Ok((source_size, target_size, ms, ml, source_crc, target_crc)) => {
            if source_size != source.len() {
                Err(BpsError::SourceSize { expected: source_size, actual: source.len() as usize })
            } else if spec_crc32(source) != source_crc {
                Err(BpsError::SourceCrc { expected: source_crc, actual: spec_crc32(source) })
            } else if target_size > MAX_TARGET_LEN {
                Err(BpsError::TooLarge(target_size))
            } else {
                spec_actions(
                    patch,
                    source,
                    patch.len() - FOOTER_LEN,
                    target_size,
                    target_crc,
                    ms + ml,
                    Seq::empty(),
                    0,
                    0,
                )
            }
        },
    }
}

fn bounds_err(action: u64, offset: usize, region: &'static str) -> (e: BpsError)
    ensures
        e == bounds(action, offset as int, region),
{
    BpsError::OutOfBounds {
        action: if action == 0 {
            "SourceRead"
        } else if action == 1 {
            "TargetRead"
        } else if action == 2 {
            "SourceCopy"
        } else {
            "TargetCopy"
        },
        offset,
        region,
    }
}

/// Applies a patch to exactly the source it was made against.
pub fn apply(patch: &[u8], source: &[u8]) -> (r: Result<Vec<u8>, BpsError>)
    ensures
        match (r, spec_apply(patch@, source@)) {
            (Ok(t), Ok(t2)) => t@ == t2,
            (Err(e), Err(e2)) => e == e2,
            _ => false,
        },
{
    let info = info(patch)?;
    if info.source_size != source.len() as u64 {
        return Err(BpsError::SourceSize { expected: info.source_size, actual: source.len() });
    }
    let actual = crc32(source);
    if actual != info.source_crc {
        return Err(BpsError::SourceCrc { expected: info.source_crc, actual });
    }
    if info.target_size > MAX_TARGET_LEN as u64 {
        return Err(BpsError::TooLarge(info.target_size));
    }
    let target_len = info.target_size as usize;
    let mut target: Vec<u8> = Vec::new();
    let mut r = Reader { patch, pos: info.actions, end: patch.len() - FOOTER_LEN };
    let mut source_rel: usize = 0;
    let mut target_rel: usize = 0;
    while r.pos < r.end
        invariant
            r.patch@ == patch@,
            r.end == patch@.len() - FOOTER_LEN,
            r.pos <= r.end,
            target@.len() <= target_len,
            target_len == info.target_size,
            target_len <= MAX_TARGET_LEN,
            spec_apply(patch@, source@) == spec_actions(
                patch@,
                source@,
                r.end as int,
                info.target_size,
                info.target_crc,
                r.pos as int,
                target@,
                source_rel as int,
                target_rel as int,
            ),
        decreases r.end - r.pos,
    {
        let offset = r.pos;
        let word = r.number()?;
        let action = word % 4;
        let wide = word / 4 + 1;
        let out = target.len();
        if wide > (target_len - out) as u64 {
            return Err(bounds_err(action, offset, "target"));
        }
        let len = wide as usize;
        let ghost before = target@;
        let ghost p1 = r.pos;
        if action == SOURCE_READ {
            if out + len > source.len() {
                return Err(bounds_err(action, offset, "source"));
            }
            append_slice(&mut target, slice_range(source, out, out + len));
        } else if action == TARGET_READ {
            if len > r.end - r.pos {
                return Err(bounds_err(action, offset, "patch"));
            }
            append_slice(&mut target, slice_range(patch, r.pos, r.pos + len));
            r.pos = r.pos + len;
        } else if action == SOURCE_COPY {
            source_rel = match r.relative(source_rel)? {
                Some(from) => from,
                None => {
                    return Err(bounds_err(action, offset, "source"));
                },
            };
            if len > source.len() || source_rel > source.len() - len {
                return Err(bounds_err(action, offset, "source"));
            }
            append_slice(&mut target, slice_range(source, source_rel, source_rel + len));
            source_rel = source_rel + len;
        } else {
            target_rel = match r.relative(target_rel)? {
                Some(from) => from,
                None => {
                    return Err(bounds_err(action, offset, "target"));
                },
            };
            // Only what has been written can be read, a byte at a time.
            if target_rel >= out {
                return Err(
                    bounds_err(action, offset, "target written so far"),
                );
            }
            push_repeat(&mut target, target_rel, len);
            target_rel = target_rel + len;
        }
    }
    if target.len() != target_len {
        return Err(BpsError::TargetSize { expected: info.target_size, actual: target.len() });
    }
    let actual = crc32(target.as_slice());
    if actual != info.target_crc {
        return Err(BpsError::TargetCrc { expected: info.target_crc, actual });
    }
    Ok(target)
}

/// Which form of a ROM's clean image a patch turned out to be made against.
#[derive(Clone, Copy, Debug, PartialEq, Eq, Structural)]
pub enum SourceForm {
    /// The headerless image.
    Headerless,
    /// The image behind the copier header the ROM was loaded with.
    OwnHeader,
    /// The image behind a header of its size in 8 KiB units and zeros
    /// (`40 00 00 ...` for SMW), which headered dumps and the hacks made
    /// from them carry.
    SizeHeader,
    /// The image behind 512 zero bytes, as `apply_bps.py` writes.
    ZeroHeader,
}

/// A patch applied to a ROM image.
#[derive(Debug)]
pub struct Patched {
    /// The headerless target.
    pub data: Vec<u8>,
    pub source: SourceForm,
}

/// The header of an image's size in 8 KiB units, then zeros.
pub open spec fn size_header(len: int) -> Seq<u8> {
    let units = (len / 0x2000) % 0x1_0000;
    seq![(units % 256) as u8, (units / 256) as u8] + Seq::new(
        (COPIER_HEADER_LEN - 2) as nat,
        |i: int| 0u8,
    )
}

/// A target whose length is a copier header over a whole number of 32
/// KiB banks loses the header.
pub open spec fn strip_header(t: Seq<u8>) -> Seq<u8> {
    if t.len() % 0x8000 == COPIER_HEADER_LEN {
        t.subrange(COPIER_HEADER_LEN as int, t.len() as int)
    } else {
        t
    }
}

/// What applying a patch to the image under one form gives.
pub open spec fn spec_finish(patch: Seq<u8>, source: Seq<u8>, form: SourceForm) -> Result<
    (Seq<u8>, SourceForm),
    BpsError,
> {
    match spec_apply(patch, source) {
        Ok(t) => Ok((strip_header(t), form)),
        Err(e) => Err(e),
    }
}

/// What [`apply_to_rom`] gives for a headerless image `data` and the
/// copier header it was loaded with, if any.
pub open spec fn spec_apply_to_rom(patch: Seq<u8>, data: Seq<u8>, header: Option<Seq<u8>>) -> Result<
    (Seq<u8>, SourceForm),
    BpsError,
> {
    match spec_info(patch) {
        Err(e) => Err(e),
        Ok((size, _, _, _, crc, _)) => {
            let zero = Seq::new(COPIER_HEADER_LEN as nat, |i: int| 0u8);
            if size == data.len() && crc == spec_crc32(data) {
                spec_finish(patch, data, SourceForm::Headerless)
            } else if size == COPIER_HEADER_LEN + data.len() && header is Some && spec_crc32(
                header->0 + data,
            ) == crc {
                spec_finish(patch, header->0 + data, SourceForm::OwnHeader)
            } else if size == COPIER_HEADER_LEN + data.len() && spec_crc32(
                size_header(data.len() as int) + data,
            ) == crc {
                spec_finish(patch, size_header(data.len() as int) + data, SourceForm::SizeHeader)
            } else if size == COPIER_HEADER_LEN + data.len() && spec_crc32(zero + data) == crc {
                spec_finish(patch, zero + data, SourceForm::ZeroHeader)
            } else {
                Err(BpsError::SourceMismatch { size, crc })
            }
        },
    }
}

fn finish(patch: &[u8], source: &[u8], form: SourceForm) -> (r: Result<Patched, BpsError>)
    ensures
        match (r, spec_finish(patch@, source@, form)) {
            (Ok(p), Ok((t, f))) => p.data@ == t && p.source == f,
            (Err(e), Err(e2)) => e == e2,
            _ => false,
        },
{
    let data = apply(patch, source)?;
    if data.len() % 0x8000 == COPIER_HEADER_LEN {
        let stripped = slice_range(data.as_slice(), COPIER_HEADER_LEN, data.len());
        let mut out: Vec<u8> = Vec::new();
        append_slice(&mut out, stripped);
        return Ok(Patched { data: out, source: form });
    }
    Ok(Patched { data, source: form })
}

/// `header` followed by `data`.
fn concat(header: &[u8], data: &[u8]) -> (r: Vec<u8>)
    ensures
        r@ == header@ + data@,
{
    let mut out: Vec<u8> = Vec::new();
    append_slice(&mut out, header);
    append_slice(&mut out, data);
    out
}

/// Applies a patch to a ROM's clean image, whichever way the patch was
/// made. `data` is the headerless image and `copier_header` the header it
/// was loaded with.
///
/// The patch's source size and CRC pick the form, one of [`SourceForm`]'s.
/// The header a headered patch was made with cannot be read from the patch,
/// only checked, so the headers tried are the ROM's own and the two that
/// headered SMW images are seen with. A target of a copier-header size
/// loses its header, so the result is always headerless.
pub fn apply_to_rom(patch: &[u8], data: &[u8], copier_header: Option<&[u8]>) -> (r: Result<
    Patched,
    BpsError,
>)
    ensures
        match (
            r,
            spec_apply_to_rom(
                patch@,
                data@,
                match copier_header {
                    Some(h) => Some(h@),
                    None => None,
                },
            ),
        ) {
            (Ok(p), Ok((t, f))) => p.data@ == t && p.source == f,
            (Err(e), Err(e2)) => e == e2,
            _ => false,
        },
{
    let info = info(patch)?;
    if info.source_size == data.len() as u64 && info.source_crc == crc32(data) {
        return finish(patch, data, SourceForm::Headerless);
    }
    if data.len() as u64 <= u64::MAX - COPIER_HEADER_LEN as u64 && info.source_size == (
    COPIER_HEADER_LEN as u64 + data.len() as u64) {
        if let Some(header) = copier_header {
            let source = concat(header, data);
            if crc32(source.as_slice()) == info.source_crc {
                return finish(patch, source.as_slice(), SourceForm::OwnHeader);
            }
        }
        let units = ((data.len() / 0x2000) % 0x1_0000) as u16;
        let mut size: Vec<u8> = Vec::new();
        size.push((units % 256) as u8);
        size.push((units / 256) as u8);
        crate::compress::push_fill(&mut size, 0, COPIER_HEADER_LEN - 2);
        assert(size@ =~= size_header(data@.len() as int));
        let source = concat(size.as_slice(), data);
        if crc32(source.as_slice()) == info.source_crc {
            return finish(patch, source.as_slice(), SourceForm::SizeHeader);
        }
        let mut zero: Vec<u8> = Vec::new();
        crate::compress::push_fill(&mut zero, 0, COPIER_HEADER_LEN);
        let source = concat(zero.as_slice(), data);
        if crc32(source.as_slice()) == info.source_crc {
            return finish(patch, source.as_slice(), SourceForm::ZeroHeader);
        }
    }
    Err(BpsError::SourceMismatch { size: info.source_size, crc: info.source_crc })
}

// --- Writing patches ----------------------------------------------------
/// The encoding of a number: seven bits a byte, the last byte flagged, each
/// continuation adding one to what follows.
pub open spec fn spec_encode(n: nat) -> Seq<u8>
    decreases n,
{
    if n < 128 {
        seq![(0x80 + n) as u8]
    } else {
        seq![(n % 128) as u8] + spec_encode((n / 128 - 1) as nat)
    }
}

/// A copy cursor move from `from` to `to`, as the patch encodes it.
pub open spec fn spec_signed(to: int, from: int) -> nat {
    if to >= from {
        ((to - from) * 2) as nat
    } else {
        ((from - to) * 2 + 1) as nat
    }
}

/// The number that starts an action of `len` bytes.
pub open spec fn spec_action_word(kind: u64, len: int) -> nat {
    ((len - 1) * 4 + kind) as nat
}

/// A number below `128^k` takes at most `k` bytes.
proof fn lemma_encode_len(n: nat, k: nat)
    requires
        k >= 1,
        n < vstd::arithmetic::power::pow(128, k),
    ensures
        spec_encode(n).len() <= k,
    decreases n,
{
    if n >= 128 {
        let p = vstd::arithmetic::power::pow(128, (k - 1) as nat);
        assert(vstd::arithmetic::power::pow(128, k) == 128 * p) by {
            reveal(vstd::arithmetic::power::pow);
        }
        assert(vstd::arithmetic::power::pow(128, 0) == 1) by {
            reveal(vstd::arithmetic::power::pow);
        }
        if k == 1 {
            assert(p == 1);
        }
        assert(n / 128 < p) by {
            vstd::arithmetic::div_mod::lemma_multiply_divide_lt(n as int, 128, p);
        }
        lemma_encode_len((n / 128 - 1) as nat, (k - 1) as nat);
    }
}

proof fn lemma_encode_len_u64(n: u64)
    ensures
        1 <= spec_encode(n as nat).len() <= 10,
{
    reveal_with_fuel(vstd::arithmetic::power::pow, 11);
    assert(vstd::arithmetic::power::pow(128, 10) == 0x40_0000_0000_0000_0000);
    lemma_encode_len(n as nat, 10);
}

/// Bytes to encode `n`.
pub fn number_len(n: u64) -> (len: usize)
    ensures
        len == spec_encode(n as nat).len(),
        len <= 10,
{
    proof {
        lemma_encode_len_u64(n);
    }
    let mut m = n;
    let mut len: usize = 1;
    while m >= 0x80
        invariant
            len + spec_encode(m as nat).len() == 1 + spec_encode(n as nat).len(),
            spec_encode(n as nat).len() <= 10,
            len >= 1,
        decreases m,
    {
        m = m / 128 - 1;
        len = len + 1;
    }
    len
}

/// `n` as four little-endian bytes.
pub open spec fn spec_le_bytes(n: u32) -> Seq<u8> {
    seq![(n % 0x100) as u8, ((n / 0x100) % 0x100) as u8, ((n / 0x1_0000) % 0x100) as u8, (n / 0x100_0000) as u8]
}

fn push_le32(out: &mut Vec<u8>, n: u32)
    ensures
        final(out)@ == old(out)@ + spec_le_bytes(n),
{
    out.push((n % 0x100) as u8);
    out.push(((n / 0x100) % 0x100) as u8);
    out.push(((n / 0x1_0000) % 0x100) as u8);
    out.push((n / 0x100_0000) as u8);
    assert(out@ =~= old(out)@ + spec_le_bytes(n));
}

proof fn lemma_le32_of_bytes(s: Seq<u8>, at: int, n: u32)
    requires
        0 <= at,
        at + 4 <= s.len(),
        s.subrange(at, at + 4) == spec_le_bytes(n),
    ensures
        spec_le32(s, at) == n,
{
    assert(s[at] == spec_le_bytes(n)[0]);
    assert(s[at + 1] == spec_le_bytes(n)[1]);
    assert(s[at + 2] == spec_le_bytes(n)[2]);
    assert(s[at + 3] == spec_le_bytes(n)[3]);
    assert((n % 0x100) + ((n / 0x100) % 0x100) * 0x100 + ((n / 0x1_0000) % 0x100) * 0x1_0000 + (n
        / 0x100_0000) * 0x100_0000 == n) by (nonlinear_arith);
}

/// Bytes hashed to find copy candidates.
pub const WINDOW: usize = 4;

/// Candidates tried per index at each target offset.
pub const CHAIN: usize = 16;

/// Patch bytes a match has to save over its own encoding.
pub const MIN_GAIN: usize = 2;

/// Marks the end of a hash chain.
pub const NONE: u32 = 0xFFFF_FFFF;

#[derive(Clone, Copy, Debug)]
struct Match {
    action: u64,
    /// Where a copy reads from.
    from: usize,
    len: usize,
}

/// The bucket a window falls in: its first four bytes as a
/// little-endian word, multiplied by a constant in 32 bits, the top
/// `bits` bits of that.
spec fn spec_bucket(bits: u32, window: Seq<u8>) -> int {
    let w = (window[0] as u32) | ((window[1] as u32) << 8) | ((window[2] as u32) << 16) | ((
    window[3] as u32) << 24);
    (w.wrapping_mul(0x9E37_79B1) >> (32 - bits) as u32) as int
}

/// The offsets a hash chain links, from `next` on: each links to the one
/// `prev` holds for it, up to `n` of them or the end of the chain.
spec fn chain_from(prev: Seq<u32>, next: u32, n: nat) -> Seq<usize>
    decreases n,
{
    if n == 0 || next == NONE {
        Seq::empty()
    } else {
        seq![next as usize] + chain_from(prev, prev[next as int], (n - 1) as nat)
    }
}

/// Offsets by the hash of the [`WINDOW`] bytes there, newest first.
struct Index {
    bits: u32,
    head: Vec<u32>,
    prev: Vec<u32>,
}

impl Index {
    /// Sound for data of `len` bytes with offsets below `upto` inserted:
    /// every chain holds offsets where a whole window starts, each below
    /// the one before it.
    spec fn wf(&self, len: int, upto: int) -> bool {
        &&& 10 <= self.bits <= 22
        &&& self.head@.len() == (1u64 << self.bits)
        &&& self.prev@.len() <= len
        &&& self.prev@.len() <= NONE
        &&& forall|b: int|
            0 <= b < self.head@.len() ==> #[trigger] self.head@[b] == NONE || (self.head@[b]
                < upto && self.head@[b] + WINDOW <= len && self.head@[b] < self.prev@.len())
        &&& forall|p: int|
            0 <= p < self.prev@.len() ==> #[trigger] self.prev@[p] == NONE || (self.prev@[p] < p
                && self.prev@[p] + WINDOW <= len)
    }

    fn new(len: usize) -> (r: Self)
        ensures
            r.wf(len as int, 0),
    {
        // Roughly one bucket per offset, within 1 KiB to 4 Mi buckets.
        let mut bits: u32 = 0;
        while bits < 64 && (len as u64 >> bits) != 0
            invariant
                bits <= 64,
            decreases 64 - bits,
        {
            bits = bits + 1;
        }
        if bits < 10 {
            bits = 10;
        }
        if bits > 22 {
            bits = 22;
        }
        let wide: u64 = 1u64 << bits;
        assert(wide <= 0x40_0000) by (bit_vector)
            requires
                10 <= bits <= 22,
                wide == 1u64 << bits,
        ;
        let buckets = wide as usize;
        let mut head: Vec<u32> = Vec::new();
        let mut i: usize = 0;
        while i < buckets
            invariant
                i <= buckets,
                head@.len() == i,
                forall|b: int| 0 <= b < i ==> #[trigger] head@[b] == NONE,
            decreases buckets - i,
        {
            head.push(NONE);
            i = i + 1;
        }
        let cap = if len < NONE as usize {
            len
        } else {
            NONE as usize
        };
        let mut prev: Vec<u32> = Vec::new();
        let mut i: usize = 0;
        while i < cap
            invariant
                i <= cap,
                prev@.len() == i,
                forall|p: int| 0 <= p < i ==> #[trigger] prev@[p] == NONE,
            decreases cap - i,
        {
            prev.push(NONE);
            i = i + 1;
        }
        Self { bits, head, prev }
    }
}

impl Index {
    fn bucket(&self, window: &[u8]) -> (b: usize)
        requires
            window@.len() >= WINDOW,
            10 <= self.bits <= 22,
        ensures
            b < (1u64 << self.bits),
            b == spec_bucket(self.bits, window@),
    {
        let w = (window[0] as u32) | ((window[1] as u32) << 8) | ((window[2] as u32) << 16) | ((
        window[3] as u32) << 24);
        let m = w.wrapping_mul(0x9E37_79B1);
        let sh: u32 = 32 - self.bits;
        let h = m >> sh;
        assert(h == spec_bucket(self.bits, window@));
        let bits = self.bits;
        assert(h < (1u64 << bits)) by (bit_vector)
            requires
                10 <= bits <= 22,
                sh == 32 - bits,
                h == m >> sh,
        ;
        h as usize
    }

    fn insert(&mut self, data: &[u8], pos: usize)
        requires
            old(self).wf(data@.len() as int, pos as int),
        ensures
            final(self).wf(data@.len() as int, pos + 1),
            final(self).bits == old(self).bits,
            ({
                let b = spec_bucket(old(self).bits, data@.subrange(pos as int, data@.len() as int));
                if pos < old(self).prev@.len() && pos + WINDOW <= data@.len() {
                    &&& final(self).head@ == old(self).head@.update(b, pos as u32)
                    &&& final(self).prev@ == old(self).prev@.update(pos as int, old(self).head@[b])
                } else {
                    &&& final(self).head@ == old(self).head@
                    &&& final(self).prev@ == old(self).prev@
                }
            }),
    {
        if pos >= self.prev.len() || WINDOW > data.len() - pos {
            return;
        }
        let b = self.bucket(slice_range(data, pos, data.len()));
        let h = self.head[b];
        self.prev.set(pos, h);
        self.head.set(b, pos as u32);
    }

    /// Up to [`CHAIN`] offsets whose window hashes as `window` does,
    /// newest first.
    fn chain(&self, window: &[u8], len: Ghost<int>, upto: Ghost<int>) -> (r: Vec<usize>)
        requires
            window@.len() >= WINDOW,
            self.wf(len@, upto@),
        ensures
            r@.len() <= CHAIN,
            forall|k: int| 0 <= k < r@.len() ==> #[trigger] r@[k] < upto@ && r@[k] + WINDOW <= len@,
            r@ == chain_from(self.prev@, self.head@[spec_bucket(self.bits, window@)], CHAIN as nat),
    {
        let mut out: Vec<usize> = Vec::new();
        let first = self.head[self.bucket(window)];
        let mut next = first;
        while out.len() < CHAIN && next != NONE
            invariant
                self.wf(len@, upto@),
                out@.len() <= CHAIN,
                next == NONE || (next < upto@ && next + WINDOW <= len@ && next < self.prev@.len()),
                forall|k: int| 0 <= k < out@.len() ==> #[trigger] out@[k] < upto@ && out@[k] + WINDOW <= len@,
                out@ + chain_from(self.prev@, next, (CHAIN - out@.len()) as nat) == chain_from(self.prev@, first, CHAIN as nat),
            decreases CHAIN - out@.len(),
        {
            let pos = next as usize;
            let ghost before = out@;
            out.push(pos);
            next = self.prev[pos];
            assert(before + chain_from(self.prev@, pos as u32, (CHAIN - before.len()) as nat) =~= out@ + chain_from(self.prev@, next, (CHAIN - out@.len()) as nat));
        }
        assert(out@ + chain_from(self.prev@, next, (CHAIN - out@.len()) as nat) =~= out@);
        out
    }
}

/// The length of the common prefix of `a` and `b`.
spec fn prefix_len(a: Seq<u8>, b: Seq<u8>) -> nat
    decreases a.len(),
{
    if a.len() == 0 || b.len() == 0 || a[0] != b[0] {
        0
    } else {
        1 + prefix_len(a.drop_first(), b.drop_first())
    }
}

/// A prefix on which `a` and `b` agree, and past which they differ or one
/// ends, is their common prefix.
proof fn lemma_prefix_len(a: Seq<u8>, b: Seq<u8>, n: int)
    requires
        0 <= n <= a.len(),
        n <= b.len(),
        forall|k: int| 0 <= k < n ==> a[k] == b[k],
        n < a.len() && n < b.len() ==> a[n] != b[n],
    ensures
        n == prefix_len(a, b),
    decreases n,
{
    if n > 0 {
        assert(a[0] == b[0]);
        assert forall|k: int| 0 <= k < n - 1 implies a.drop_first()[k] == b.drop_first()[k] by {
            assert(a[k + 1] == b[k + 1]);
        }
        lemma_prefix_len(a.drop_first(), b.drop_first(), n - 1);
    }
}

/// The length of the common prefix of `a` and `b`.
fn common_prefix(a: &[u8], b: &[u8]) -> (r: usize)
    ensures
        r <= a@.len(),
        r <= b@.len(),
        forall|k: int| 0 <= k < r ==> a@[k] == b@[k],
        r < a@.len() && r < b@.len() ==> a@[r as int] != b@[r as int],
        r == prefix_len(a@, b@),
{
    let len = if a.len() < b.len() {
        a.len()
    } else {
        b.len()
    };
    let mut i: usize = 0;
    while i < len && a[i] == b[i]
        invariant
            i <= len,
            len <= a@.len(),
            len <= b@.len(),
            len == a@.len() || len == b@.len(),
            forall|k: int| 0 <= k < i ==> a@[k] == b@[k],
        decreases len - i,
    {
        i = i + 1;
    }
    proof {
        lemma_prefix_len(a@, b@, i as int);
    }
    i
}

/// A copy cursor move, as the patch encodes it.
fn signed(to: usize, from: usize) -> (r: u64)
    ensures
        to < 0x4000_0000_0000_0000 && from < 0x4000_0000_0000_0000 ==> r == spec_signed(
            to as int,
            from as int,
        ),
{
    if to >= from {
        ((to - from) as u64).wrapping_mul(2)
    } else {
        ((from - to) as u64).wrapping_mul(2).wrapping_add(1)
    }
}

/// What a match found at `pos` of the target may be: a `SourceRead` of
/// the source bytes in place, a `SourceCopy` from elsewhere in the source,
/// or a `TargetCopy` from earlier in the target; each of bytes that equal
/// the target's from `pos`.
pub open spec fn match_fits(source: Seq<u8>, target: Seq<u8>, pos: int, kind: u64, from: int, len: int) -> bool {
    &&& 1 <= len
    &&& pos + len <= target.len()
    &&& 0 <= from
    &&& (kind == SOURCE_READ || kind == SOURCE_COPY || kind == TARGET_COPY)
    &&& (kind == SOURCE_READ ==> from == pos)
    &&& (kind == SOURCE_READ || kind == SOURCE_COPY) ==> from + len <= source.len() && forall|k: int|
        0 <= k < len ==> #[trigger] source[from + k] == target[pos + k]
    &&& kind == TARGET_COPY ==> from < pos && forall|k: int|
        0 <= k < len ==> #[trigger] target[from + k] == target[pos + k]
}

/// The word an action starts with, as the patch writer builds it.
proof fn lemma_action_word(len: usize, kind: u64)
    requires
        1 <= len < 0x2000_0000_0000_0000,
        kind < 4,
    ensures
        ((((len - 1) as u64) << 2u64) | kind) as int == spec_action_word(kind, len as int),
{
    let l = (len - 1) as u64;
    assert((l << 2) | kind == l * 4 + kind) by (bit_vector)
        requires
            l < 0x2000_0000_0000_0000,
            kind < 4,
    ;
}

/// How many bytes from `pos` of `target` equal those from `from` of
/// `data`.
spec fn match_len(data: Seq<u8>, from: int, target: Seq<u8>, pos: int) -> int {
    prefix_len(data.subrange(from, data.len() as int), target.subrange(pos, target.len() as int)) as int
}

/// Patch bytes an action of `kind` over `len` bytes saves over its own
/// encoding, a copy's cursor move from `cursor` to `from` included.
spec fn action_gain(kind: u64, len: int, from: int, cursor: int) -> int {
    let own = spec_encode(spec_action_word(kind, len)).len() as int;
    if kind == SOURCE_READ {
        len - own
    } else {
        len - own - spec_encode(spec_signed(from, cursor)).len()
    }
}

/// What a match `m` saves, with the copy cursors at `source_rel` and
/// `target_rel`.
spec fn match_gain(m: Match, source_rel: int, target_rel: int) -> int {
    action_gain(m.action, m.len as int, m.from as int, if m.action == SOURCE_COPY {
        source_rel
    } else {
        target_rel
    })
}

/// What copying from `from` of `data` would save at `pos` of `target`: a
/// copy of fewer than [`WINDOW`] bytes is no candidate and saves nothing.
spec fn copy_candidate(data: Seq<u8>, target: Seq<u8>, pos: int, kind: u64, from: int, cursor: int) -> int {
    let len = match_len(data, from, target, pos);
    if len < WINDOW {
        0
    } else {
        action_gain(kind, len, from, cursor)
    }
}

/// What each candidate for a match at `pos` of `target` saves, in the
/// order they are tried: the source bytes at `pos` in place, where any
/// agree; then the offsets of the source, and then those of the target
/// before `pos`, on the hash chains of the window at `pos`.
spec fn candidate_gains(
    source: Seq<u8>,
    target: Seq<u8>,
    pos: int,
    source_index: Index,
    target_index: Index,
    source_rel: int,
    target_rel: int,
) -> Seq<int> {
    let read = if pos < source.len() && match_len(source, pos, target, pos) > 0 {
        seq![action_gain(SOURCE_READ, match_len(source, pos, target, pos), pos, 0)]
    } else {
        Seq::empty()
    };
    if pos + WINDOW > target.len() {
        read
    } else {
        let window = target.subrange(pos, pos + WINDOW);
        let sc = chain_from(source_index.prev@, source_index.head@[spec_bucket(source_index.bits, window)], CHAIN as nat);
        let tc = chain_from(target_index.prev@, target_index.head@[spec_bucket(target_index.bits, window)], CHAIN as nat);
        read + sc.map_values(|f: usize| copy_candidate(source, target, pos, SOURCE_COPY, f as int, source_rel))
            + tc.map_values(|f: usize| copy_candidate(target, target, pos, TARGET_COPY, f as int, target_rel))
    }
}

/// The best match at `pos` of the target: of the candidates, one that
/// saves the most, at least [`MIN_GAIN`] bytes, the first such on a tie;
/// `None` where none saves that much.
fn best_match(
    source: &[u8],
    target: &[u8],
    pos: usize,
    source_index: &Index,
    target_index: &Index,
    source_rel: usize,
    target_rel: usize,
) -> (r: Option<Match>)
    requires
        pos < target@.len(),
        source_index.wf(source@.len() as int, source@.len() as int),
        target_index.wf(target@.len() as int, pos as int),
        source@.len() < 0x2000_0000_0000_0000,
        target@.len() < 0x2000_0000_0000_0000,
        source_rel <= source@.len(),
        target_rel <= target@.len(),
    ensures
        r matches Some(m) ==> match_fits(source@, target@, pos as int, m.action, m.from as int, m.len as int),
        ({
            let gains = candidate_gains(source@, target@, pos as int, *source_index, *target_index, source_rel as int, target_rel as int);
            &&& r is None <==> forall|i: int| 0 <= i < gains.len() ==> #[trigger] gains[i] < MIN_GAIN
            &&& r matches Some(m) ==> match_gain(m, source_rel as int, target_rel as int) >= MIN_GAIN
                && forall|i: int| 0 <= i < gains.len() ==> #[trigger] gains[i] <= match_gain(m, source_rel as int, target_rel as int)
        }),
{
    let ghost gains = candidate_gains(source@, target@, pos as int, *source_index, *target_index, source_rel as int, target_rel as int);
    let ghost read: Seq<int> = if pos < source@.len() && match_len(source@, pos as int, target@, pos as int) > 0 {
        seq![action_gain(SOURCE_READ, match_len(source@, pos as int, target@, pos as int), pos as int, 0)]
    } else {
        Seq::empty()
    };
    let rest = slice_range(target, pos, target.len());
    let mut best: Option<Match> = None;
    let mut best_gain: usize = 0;
    let ghost mut seen: Seq<int> = Seq::empty();
    if pos < source.len() {
        let same = slice_range(source, pos, source.len());
        let len = common_prefix(same, rest);
        assert forall|k: int| 0 <= k < len implies #[trigger] source@[pos + k] == target@[pos + k] by {
            assert(same@[k] == rest@[k]);
        }
        if len > 0 {
            proof {
                lemma_action_word(len, SOURCE_READ);
            }
            let cost = number_len(((len as u64 - 1) << 2) | SOURCE_READ);
            let gain = len.saturating_sub(cost);
            proof {
                seen = seq![action_gain(SOURCE_READ, len as int, pos as int, 0)];
            }
            if gain >= MIN_GAIN && (best.is_none() || gain > best_gain) {
                best = Some(Match { action: SOURCE_READ, from: pos, len });
                best_gain = gain;
                assert(seen[0] == best_gain);
            }
        }
    }
    assert(seen == read);
    if rest.len() >= WINDOW {
        let window = slice_range(rest, 0, WINDOW);
        let ghost wnd = target@.subrange(pos as int, pos + WINDOW);
        assert(window@ =~= wnd);
        let ghost scg = chain_from(source_index.prev@, source_index.head@[spec_bucket(source_index.bits, wnd)], CHAIN as nat).map_values(
            |f: usize| copy_candidate(source@, target@, pos as int, SOURCE_COPY, f as int, source_rel as int),
        );
        let ghost tcg = chain_from(target_index.prev@, target_index.head@[spec_bucket(target_index.bits, wnd)], CHAIN as nat).map_values(
            |f: usize| copy_candidate(target@, target@, pos as int, TARGET_COPY, f as int, target_rel as int),
        );
        assert(gains == read + scg + tcg);
        let mut round: usize = 0;
        while round < 2
            invariant
                round <= 2,
                rest@ == target@.subrange(pos as int, target@.len() as int),
                window@ == wnd,
                window@.len() == WINDOW,
                wnd == target@.subrange(pos as int, pos + WINDOW),
                pos < target@.len(),
                source@.len() < 0x2000_0000_0000_0000,
                target@.len() < 0x2000_0000_0000_0000,
                source_rel <= source@.len(),
                target_rel <= target@.len(),
                source_index.wf(source@.len() as int, source@.len() as int),
                target_index.wf(target@.len() as int, pos as int),
                scg == chain_from(source_index.prev@, source_index.head@[spec_bucket(source_index.bits, wnd)], CHAIN as nat).map_values(
                    |f: usize| copy_candidate(source@, target@, pos as int, SOURCE_COPY, f as int, source_rel as int),
                ),
                tcg == chain_from(target_index.prev@, target_index.head@[spec_bucket(target_index.bits, wnd)], CHAIN as nat).map_values(
                    |f: usize| copy_candidate(target@, target@, pos as int, TARGET_COPY, f as int, target_rel as int),
                ),
                round == 0 ==> seen == read,
                round == 1 ==> seen == read + scg,
                round == 2 ==> seen == read + scg + tcg,
                best matches Some(m) ==> match_fits(source@, target@, pos as int, m.action, m.from as int, m.len as int),
                best is None ==> best_gain == 0 && forall|i: int| 0 <= i < seen.len() ==> #[trigger] seen[i] < MIN_GAIN,
                best matches Some(m) ==> best_gain == match_gain(m, source_rel as int, target_rel as int) && best_gain >= MIN_GAIN
                    && (forall|i: int| 0 <= i < seen.len() ==> #[trigger] seen[i] <= best_gain)
                    && exists|i: int| 0 <= i < seen.len() && #[trigger] seen[i] == best_gain,
            decreases 2 - round,
        {
            let (candidates, data, action, cursor) = if round == 0 {
                (source_index.chain(window, Ghost(source@.len() as int), Ghost(source@.len() as int)), source, SOURCE_COPY, source_rel)
            } else {
                (target_index.chain(window, Ghost(target@.len() as int), Ghost(pos as int)), target, TARGET_COPY, target_rel)
            };
            let ghost base = seen;
            let ghost g = |f: usize| copy_candidate(data@, target@, pos as int, action, f as int, cursor as int);
            let mut c: usize = 0;
            while c < candidates.len()
                invariant
                    c <= candidates@.len(),
                    rest@ == target@.subrange(pos as int, target@.len() as int),
                    pos < target@.len(),
                    round < 2,
                    source@.len() < 0x2000_0000_0000_0000,
                    target@.len() < 0x2000_0000_0000_0000,
                    source_rel <= source@.len(),
                    target_rel <= target@.len(),
                    round == 0 ==> data@ == source@ && action == SOURCE_COPY && cursor == source_rel && forall|k: int| 0 <= k < candidates@.len() ==> #[trigger] candidates@[k] + WINDOW <= source@.len(),
                    round == 1 ==> data@ == target@ && action == TARGET_COPY && cursor == target_rel && forall|k: int| 0 <= k < candidates@.len() ==> #[trigger] candidates@[k] < pos && candidates@[k] + WINDOW <= target@.len(),
                    g == (|f: usize| copy_candidate(data@, target@, pos as int, action, f as int, cursor as int)),
                    seen == base + candidates@.subrange(0, c as int).map_values(g),
                    best matches Some(m) ==> match_fits(source@, target@, pos as int, m.action, m.from as int, m.len as int),
                    best is None ==> best_gain == 0 && forall|i: int| 0 <= i < seen.len() ==> #[trigger] seen[i] < MIN_GAIN,
                    best matches Some(m) ==> best_gain == match_gain(m, source_rel as int, target_rel as int) && best_gain >= MIN_GAIN
                        && (forall|i: int| 0 <= i < seen.len() ==> #[trigger] seen[i] <= best_gain)
                        && exists|i: int| 0 <= i < seen.len() && #[trigger] seen[i] == best_gain,
                decreases candidates@.len() - c,
            {
                let from = candidates[c];
                let ghost before = seen;
                c = c + 1;
                let tail = slice_range(data, from, data.len());
                let len = common_prefix(tail, rest);
                proof {
                    seen = seen.push(g(from));
                    assert(seen =~= base + candidates@.subrange(0, c as int).map_values(g));
                    assert(seen[before.len() as int] == g(from));
                    if best is Some {
                        let i = choose|i: int| 0 <= i < before.len() && #[trigger] before[i] == best_gain;
                        assert(seen[i] == best_gain);
                    }
                }
                if len < WINDOW {
                    continue; // a hash collision
                }
                assert forall|k: int| 0 <= k < len implies #[trigger] data@[from + k] == target@[pos + k] by {
                    assert(tail@[k] == rest@[k]);
                }
                proof {
                    lemma_action_word(len, action);
                }
                let cost = number_len(((len as u64 - 1) << 2) | action) + number_len(signed(from, cursor));
                let gain = len.saturating_sub(cost);
                if gain >= MIN_GAIN && (best.is_none() || gain > best_gain) {
                    best = Some(Match { action, from, len });
                    best_gain = gain;
                    assert(seen[before.len() as int] == best_gain);
                }
            }
            proof {
                assert(candidates@.subrange(0, c as int) =~= candidates@);
                if round == 0 {
                    assert(candidates@.map_values(g) =~= scg);
                } else {
                    assert(candidates@.map_values(g) =~= tcg);
                }
            }
            round = round + 1;
        }
    } else {
        assert(gains == read);
    }
    best
}

/// A patch made of a body that starts with `header`, then the two
/// checksums and the checksum of all before it, holds each where the
/// format puts it.
proof fn lemma_patch_frame(
    patch: Seq<u8>,
    body: Seq<u8>,
    signed_part: Seq<u8>,
    header: Seq<u8>,
    source_crc: u32,
    target_crc: u32,
    patch_crc: u32,
)
    requires
        header.len() <= body.len(),
        body.subrange(0, header.len() as int) == header,
        signed_part == body + spec_le_bytes(source_crc) + spec_le_bytes(target_crc),
        patch == signed_part + spec_le_bytes(patch_crc),
    ensures
        header.len() + 12 <= patch.len(),
        patch.subrange(0, header.len() as int) == header,
        patch.subrange(patch.len() - 12, patch.len() - 8) == spec_le_bytes(source_crc),
        patch.subrange(patch.len() - 8, patch.len() - 4) == spec_le_bytes(target_crc),
        patch.subrange(patch.len() - 4, patch.len() as int) == spec_le_bytes(patch_crc),
        patch.subrange(0, patch.len() - 4) == signed_part,
{
    let n = patch.len() as int;
    assert(patch.subrange(0, n - 4) =~= signed_part);
    assert(patch.subrange(n - 4, n) =~= spec_le_bytes(patch_crc));
    assert(patch.subrange(n - 8, n - 4) =~= spec_le_bytes(target_crc));
    assert(patch.subrange(n - 12, n - 8) =~= spec_le_bytes(source_crc));
    assert(patch.subrange(0, header.len() as int) =~= body.subrange(0, header.len() as int));
}

/// The patch being written and the two copy cursors its actions have
/// left.
pub struct Writer {
    pub patch: Vec<u8>,
    pub source_rel: usize,
    pub target_rel: usize,
}

impl Writer {
    /// Appends `n` in the patch's variable-length encoding.
    pub fn number(&mut self, n: u64)
        ensures
            final(self).patch@ == old(self).patch@ + spec_encode(n as nat),
            final(self).source_rel == old(self).source_rel,
            final(self).target_rel == old(self).target_rel,
    {
        let ghost start = self.patch@;
        let mut m = n;
        loop
            invariant
                self.patch@ + spec_encode(m as nat) == start + spec_encode(n as nat),
                start == old(self).patch@,
                self.source_rel == old(self).source_rel,
                self.target_rel == old(self).target_rel,
            decreases m,
        {
            let low = (m % 128) as u8;
            let high = m / 128;
            if high == 0 {
                let ghost before = self.patch@;
                self.patch.push(0x80 + low);
                assert(self.patch@ =~= before + spec_encode(m as nat));
                assert(self.patch@ =~= start + spec_encode(n as nat));
                return;
            }
            let ghost before = self.patch@;
            self.patch.push(low);
            assert(before + spec_encode(m as nat) =~= self.patch@ + spec_encode((m / 128 - 1) as nat));
            m = high - 1;
        }
    }

    fn target_read(&mut self, bytes: &[u8])
        requires
            bytes@.len() <= 0x4000_0000_0000_0000,
        ensures
            bytes@.len() == 0 ==> final(self).patch@ == old(self).patch@,
            bytes@.len() > 0 ==> final(self).patch@ == old(self).patch@ + spec_encode(
                spec_action_word(TARGET_READ, bytes@.len() as int),
            ) + bytes@,
            final(self).source_rel == old(self).source_rel,
            final(self).target_rel == old(self).target_rel,
    {
        if bytes.len() > 0 {
            let l = bytes.len() as u64 - 1;
            self.number(l * 4 + TARGET_READ);
            append_slice(&mut self.patch, bytes);
        }
    }

    fn action(&mut self, m: Match)
        requires
            1 <= m.len <= 0x4000_0000_0000_0000,
            m.from < 0x2000_0000_0000_0000,
            m.len < 0x2000_0000_0000_0000,
            m.from + m.len <= usize::MAX,
            old(self).source_rel < 0x4000_0000_0000_0000,
            old(self).target_rel < 0x4000_0000_0000_0000,
            m.action == SOURCE_READ || m.action == SOURCE_COPY || m.action == TARGET_COPY,
        ensures
            final(self).patch@ == old(self).patch@ + spec_action_bytes(
                m.action,
                m.len as int,
                m.from as int,
                old(self).source_rel as int,
                old(self).target_rel as int,
            ),
            final(self).source_rel == (if m.action == SOURCE_COPY {
                (m.from + m.len) as usize
            } else {
                old(self).source_rel
            }),
            final(self).target_rel == (if m.action == TARGET_COPY {
                (m.from + m.len) as usize
            } else {
                old(self).target_rel
            }),
    {
        let l = m.len as u64 - 1;
        let a = m.action;
        let ghost before = self.patch@;
        self.number(l * 4 + a);
        if m.action == SOURCE_COPY {
            let n = signed(m.from, self.source_rel);
            self.number(n);
            self.source_rel = m.from + m.len;
        } else if m.action == TARGET_COPY {
            let n = signed(m.from, self.target_rel);
            self.number(n);
            self.target_rel = m.from + m.len;
        }
        assert(self.patch@ =~= before + spec_action_bytes(
            m.action,
            m.len as int,
            m.from as int,
            old(self).source_rel as int,
            old(self).target_rel as int,
        ));
    }
}

/// The bytes of a `SourceRead` or copy action.
pub open spec fn spec_action_bytes(kind: u64, len: int, from: int, source_rel: int, target_rel: int) -> Seq<u8> {
    spec_encode(spec_action_word(kind, len)) + if kind == SOURCE_COPY {
        spec_encode(spec_signed(from, source_rel))
    } else if kind == TARGET_COPY {
        spec_encode(spec_signed(from, target_rel))
    } else {
        Seq::empty()
    }
}

/// One action written by [`create`]: its kind, length, where a copy reads
/// from, where it starts and ends in the patch, the target offset it
/// writes at, and the two copy cursors before it.
pub type ActionRecord = (u64, int, int, int, int, int, int, int);

/// The bytes an action record stands for.
pub open spec fn record_bytes(target: Seq<u8>, r: ActionRecord) -> Seq<u8> {
    let (kind, len, from, at, next, out, srel, trel) = r;
    if kind == TARGET_READ {
        spec_encode(spec_action_word(TARGET_READ, len)) + target.subrange(out, out + len)
    } else {
        spec_action_bytes(kind, len, from, srel, trel)
    }
}

pub open spec fn after_source_rel(r: ActionRecord) -> int {
    if r.0 == SOURCE_COPY {
        r.2 + r.1
    } else {
        r.6
    }
}

pub open spec fn after_target_rel(r: ActionRecord) -> int {
    if r.0 == TARGET_COPY {
        r.2 + r.1
    } else {
        r.7
    }
}

/// An action record is written in the patch where it says, and what it
/// copies is the target's bytes where it writes them.
pub open spec fn record_ok(patch: Seq<u8>, source: Seq<u8>, target: Seq<u8>, r: ActionRecord) -> bool {
    let (kind, len, from, at, next, out, srel, trel) = r;
    &&& 0 <= at
    &&& at + record_bytes(target, r).len() == next
    &&& next <= patch.len()
    &&& patch.subrange(at, next) == record_bytes(target, r)
    &&& 0 <= out
    &&& out + len <= target.len()
    &&& 0 <= srel < 0x4000_0000_0000_0000
    &&& 0 <= trel < 0x4000_0000_0000_0000
    &&& 0 <= from < 0x2000_0000_0000_0000
    &&& 1 <= len < 0x2000_0000_0000_0000
    &&& from + len <= usize::MAX
    &&& srel <= usize::MAX
    &&& trel <= usize::MAX
    &&& (kind == TARGET_READ || match_fits(source, target, out, kind, from, len))
}

/// Where the actions in `log` leave things: the patch offset, the target
/// offset, and the two cursors.
pub open spec fn log_end(log: Seq<ActionRecord>, start: int) -> (int, int, int, int) {
    if log.len() == 0 {
        (start, 0, 0, 0)
    } else {
        let r = log.last();
        (r.4, r.5 + r.1, after_source_rel(r), after_target_rel(r))
    }
}

/// The actions in `log` follow one another from `start`, each as written.
pub open spec fn log_ok(patch: Seq<u8>, source: Seq<u8>, target: Seq<u8>, log: Seq<ActionRecord>, start: int) -> bool {
    &&& forall|k: int| 0 <= k < log.len() ==> record_ok(patch, source, target, #[trigger] log[k])
    &&& log.len() > 0 ==> log[0].3 == start && log[0].5 == 0 && log[0].6 == 0 && log[0].7 == 0
    &&& forall|k: int|
        0 <= k < log.len() - 1 ==> (#[trigger] log[k + 1]).3 == log[k].4 && log[k + 1].5
            == log[k].5 + log[k].1 && log[k + 1].6 == after_source_rel(log[k]) && log[k + 1].7
            == after_target_rel(log[k])
}

proof fn lemma_log_extend(patch: Seq<u8>, more: Seq<u8>, source: Seq<u8>, target: Seq<u8>, log: Seq<ActionRecord>, start: int)
    requires
        log_ok(patch, source, target, log, start),
    ensures
        log_ok(patch + more, source, target, log, start),
{
    assert forall|k: int| 0 <= k < log.len() implies record_ok(patch + more, source, target, #[trigger] log[k]) by {
        let r = log[k];
        assert(record_ok(patch, source, target, r));
        assert((patch + more).subrange(r.3, r.4) =~= patch.subrange(r.3, r.4));
    }
}

proof fn lemma_log_push(patch: Seq<u8>, source: Seq<u8>, target: Seq<u8>, log: Seq<ActionRecord>, start: int, r: ActionRecord)
    requires
        log_ok(patch, source, target, log, start),
        record_ok(patch, source, target, r),
        r.3 == log_end(log, start).0,
        r.5 == log_end(log, start).1,
        r.6 == log_end(log, start).2,
        r.7 == log_end(log, start).3,
    ensures
        log_ok(patch, source, target, log.push(r), start),
        log_end(log.push(r), start) == (r.4, r.5 + r.1, after_source_rel(r), after_target_rel(r)),
{
    let l2 = log.push(r);
    assert forall|k: int| 0 <= k < l2.len() implies record_ok(patch, source, target, #[trigger] l2[k]) by {
        if k < log.len() {
            assert(l2[k] == log[k]);
        }
    }
    assert forall|k: int| 0 <= k < l2.len() - 1 implies (#[trigger] l2[k + 1]).3 == l2[k].4 && l2[k + 1].5
            == l2[k].5 + l2[k].1 && l2[k + 1].6 == after_source_rel(l2[k]) && l2[k + 1].7
            == after_target_rel(l2[k]) by {
        if k + 1 < log.len() {
            assert(l2[k + 1] == log[k + 1]);
            assert(l2[k] == log[k]);
        } else {
            assert(l2[k] == log.last());
        }
    }
}

/// Makes a patch from `source` to `target`, with no metadata.
///
/// The output depends on nothing but the two inputs. It is greedy: at each
/// target offset it takes whichever of these saves the most patch bytes
/// once its own encoding is paid for, and otherwise adds the byte to a
/// pending `TargetRead`:
///
/// - a `SourceRead` of the bytes that are unchanged in place;
/// - a `SourceCopy` from one of the last 16 source offsets whose next four
///   bytes hash as the target's do (moved or duplicated data);
/// - a `TargetCopy` from one of the last 16 such offsets already written
///   (repeats, and runs such as expanded free space, by overlapping).
///
/// Ties go to that order, then to the most recent offset. A match has to
/// save two bytes, since breaking a `TargetRead` costs a header.
pub fn create(source: &[u8], target: &[u8]) -> (patch: Vec<u8>)
    requires
        source@.len() < 0x2000_0000_0000_0000,
        target@.len() < 0x2000_0000_0000_0000,
    ensures
        target@.len() <= MAX_TARGET_LEN ==> spec_apply(patch@, source@) == Ok::<Seq<u8>, BpsError>(target@),
        ({
            let n = patch@.len() as int;
            let hdr = seq![0x42u8, 0x50u8, 0x53u8, 0x31u8] + spec_encode(source@.len()) + spec_encode(target@.len()) + spec_encode(0);
            &&& hdr.len() + 12 <= n
            &&& patch@.subrange(0, hdr.len() as int) == hdr
            &&& patch@.subrange(n - 12, n - 8) == spec_le_bytes(spec_crc32(source@))
            &&& patch@.subrange(n - 8, n - 4) == spec_le_bytes(spec_crc32(target@))
            &&& patch@.subrange(n - 4, n) == spec_le_bytes(spec_crc32(patch@.subrange(0, n - 4)))
        }),
{
    let mut w = Writer { patch: Vec::new(), source_rel: 0, target_rel: 0 };
    w.patch.push(0x42);
    w.patch.push(0x50);
    w.patch.push(0x53);
    w.patch.push(0x31);
    let ghost magic = w.patch@;
    w.number(source.len() as u64);
    let ghost p1 = w.patch@.len() as int;
    w.number(target.len() as u64);
    let ghost p2 = w.patch@.len() as int;
    w.number(0);
    let ghost header = w.patch@;
    assert(magic =~= seq![0x42u8, 0x50u8, 0x53u8, 0x31u8]);
    assert(header =~= magic + spec_encode(source@.len()) + spec_encode(target@.len()) + spec_encode(0));
    let ghost start = w.patch@.len() as int;
    let mut source_index = Index::new(source.len());
    let mut k: usize = 0;
    while k < source.len()
        invariant
            k <= source@.len(),
            source_index.wf(source@.len() as int, k as int),
        decreases source@.len() - k,
    {
        source_index.insert(source, k);
        k = k + 1;
    }
    let mut target_index = Index::new(target.len());
    let mut pos: usize = 0;
    let mut literal: usize = 0;
    let mut indexed: usize = 0;
    let ghost mut log: Seq<ActionRecord> = Seq::empty();
    while pos < target.len()
        invariant
            literal <= pos <= target@.len(),
            indexed <= pos,
            source_index.wf(source@.len() as int, source@.len() as int),
            target_index.wf(target@.len() as int, indexed as int),
            source@.len() < 0x2000_0000_0000_0000,
            target@.len() < 0x2000_0000_0000_0000,
            w.patch@.subrange(0, start) == header,
            start <= w.patch@.len(),
            log_ok(w.patch@, source@, target@, log, start),
            log_end(log, start) == (
                w.patch@.len() as int,
                literal as int,
                w.source_rel as int,
                w.target_rel as int,
            ),
            w.source_rel <= source@.len(),
            w.target_rel <= target@.len(),
        decreases target@.len() - pos,
    {
        while indexed < pos
            invariant
                indexed <= pos,
                target_index.wf(target@.len() as int, indexed as int),
            decreases pos - indexed,
        {
            target_index.insert(target, indexed);
            indexed = indexed + 1;
        }
        match best_match(source, target, pos, &source_index, &target_index, w.source_rel, w.target_rel) {
            Some(m) => {
                assert(match_fits(source@, target@, pos as int, m.action, m.from as int, m.len as int));
                assert(m.from + m.len <= source@.len() || m.from + m.len <= target@.len());
                assert(m.from + m.len <= usize::MAX) by {
                    assert(source@.len() == source.len() && target@.len() == target.len());
                }
                let ghost w0 = w.patch@;
                let ghost log0 = log;
                let pending = slice_range(target, literal, pos);
                w.target_read(pending);
                proof {
                    lemma_log_extend(w0, w.patch@.subrange(w0.len() as int, w.patch@.len() as int), source@, target@, log, start);
                    assert(w0 + w.patch@.subrange(w0.len() as int, w.patch@.len() as int) =~= w.patch@);
                    if pos > literal {
                        let r: ActionRecord = (TARGET_READ, (pos - literal) as int, 0, w0.len() as int, w.patch@.len() as int, literal as int, w.source_rel as int, w.target_rel as int);
                        assert(w.patch@.subrange(w0.len() as int, w.patch@.len() as int) =~= record_bytes(target@, r));
                        lemma_log_push(w.patch@, source@, target@, log, start, r);
                        log = log.push(r);
                    }
                }
                let ghost w1 = w.patch@;
                let ghost srel = w.source_rel;
                let ghost trel = w.target_rel;
                w.action(m);
                proof {
                    lemma_log_extend(w1, w.patch@.subrange(w1.len() as int, w.patch@.len() as int), source@, target@, log, start);
                    assert(w1 + w.patch@.subrange(w1.len() as int, w.patch@.len() as int) =~= w.patch@);
                    let r: ActionRecord = (m.action, m.len as int, m.from as int, w1.len() as int, w.patch@.len() as int, pos as int, srel as int, trel as int);
                    assert(w.patch@.subrange(w1.len() as int, w.patch@.len() as int) =~= record_bytes(target@, r));
                    lemma_log_push(w.patch@, source@, target@, log, start, r);
                    log = log.push(r);
                    assert(w.patch@.subrange(0, start) =~= w0.subrange(0, start));
                }
                pos = pos + m.len;
                literal = pos;
            },
            None => pos = pos + 1,
        }
    }
    let ghost w0 = w.patch@;
    let pending = slice_range(target, literal, target.len());
    w.target_read(pending);
    proof {
        lemma_log_extend(w0, w.patch@.subrange(w0.len() as int, w.patch@.len() as int), source@, target@, log, start);
        assert(w0 + w.patch@.subrange(w0.len() as int, w.patch@.len() as int) =~= w.patch@);
        if target@.len() > literal {
            let r: ActionRecord = (TARGET_READ, (target@.len() - literal) as int, 0, w0.len() as int, w.patch@.len() as int, literal as int, w.source_rel as int, w.target_rel as int);
            assert(w.patch@.subrange(w0.len() as int, w.patch@.len() as int) =~= record_bytes(target@, r));
            lemma_log_push(w.patch@, source@, target@, log, start, r);
            log = log.push(r);
        }
        assert(w.patch@.subrange(0, start) =~= w0.subrange(0, start));
    }
    let ghost body = w.patch@;
    let source_crc = crc32(source);
    let target_crc = crc32(target);
    push_le32(&mut w.patch, source_crc);
    push_le32(&mut w.patch, target_crc);
    let patch_crc = crc32(w.patch.as_slice());
    let ghost signed_part = w.patch@;
    push_le32(&mut w.patch, patch_crc);
    proof {
        lemma_created_patch_applies(
            w.patch@, body, header, magic, p1, p2, source@, target@, log, source_crc, target_crc, patch_crc,
        );
        lemma_patch_frame(w.patch@, body, signed_part, header, source_crc, target_crc, patch_crc);
    }
    w.patch
}

/// The powers of 128 that fit in a `u64`.
pub open spec fn is_pow128(s: int) -> bool {
    s == 1 || s == 0x80 || s == 0x4000 || s == 0x20_0000 || s == 0x1000_0000 || s
        == 0x8_0000_0000 || s == 0x400_0000_0000 || s == 0x2_0000_0000_0000 || s
        == 0x100_0000_0000_0000 || s == 0x8000_0000_0000_0000
}

/// An encoded number reads back as itself, from wherever the reader got to
/// with the bytes before it.
proof fn lemma_number_from(patch: Seq<u8>, end: int, start: int, pos: int, v: int, s: int, m: nat)
    requires
        0 <= pos,
        pos + spec_encode(m).len() <= end <= patch.len(),
        patch.subrange(pos, pos + spec_encode(m).len()) == spec_encode(m),
        is_pow128(s),
        0 <= v,
        v + s * m <= u64::MAX,
    ensures
        spec_number_from(patch, end, start, pos, v, s) == Ok::<(u64, int), BpsError>(
            ((v + s * m) as u64, pos + spec_encode(m).len()),
        ),
    decreases m,
{
    let e = spec_encode(m);
    assert(patch[pos] == e[0]) by {
        assert(patch.subrange(pos, pos + e.len())[0] == patch[pos]);
    }
    if m < 128 {
        assert(e[0] == (0x80 + m) as u8);
        assert(e.len() == 1);
        assert(((0x80 + m) as u8) % 128 == m);
        assert(m * s == s * m) by (nonlinear_arith);
    } else {
        let m2 = (m / 128 - 1) as nat;
        let e2 = spec_encode(m2);
        assert(e == seq![(m % 128) as u8] + e2);
        let low = m % 128;
        assert(e[0] == low as u8);
        assert((low as u8) % 128 == low);
        assert(m == 128 * (m / 128) + low) by {
            vstd::arithmetic::div_mod::lemma_fundamental_div_mod(m as int, 128);
        }
        assert(low * s + v <= v + s * m && s * 128 <= s * m) by (nonlinear_arith)
            requires
                low <= m,
                128 <= m,
                1 <= s,
        ;
        assert(is_pow128(s * 128) && s * 128 <= 0x8000_0000_0000_0000);
        let v2 = low * s + v + s * 128;
        assert(v2 + (s * 128) * m2 == v + s * m) by (nonlinear_arith)
            requires
                v2 == low * s + v + s * 128,
                m == 128 * (m / 128) + low,
                m2 == m / 128 - 1,
        ;
        assert(v2 + (s * 128) * m2 >= v2) by (nonlinear_arith)
            requires
                s >= 1,
                m2 >= 0,
        ;
        assert(patch.subrange(pos + 1, pos + 1 + e2.len()) =~= e2) by {
            assert(patch.subrange(pos, pos + e.len()).subrange(1, e.len() as int) =~= patch.subrange(
                pos + 1,
                pos + 1 + e2.len(),
            ));
        }
        lemma_number_from(patch, end, start, pos + 1, v2, s * 128, m2);
    }
}

proof fn lemma_number_decodes(patch: Seq<u8>, end: int, pos: int, n: nat)
    requires
        0 <= pos,
        pos + spec_encode(n).len() <= end <= patch.len(),
        patch.subrange(pos, pos + spec_encode(n).len()) == spec_encode(n),
        n <= u64::MAX,
    ensures
        spec_number(patch, end, pos) == Ok::<(u64, int), BpsError>(
            (n as u64, pos + spec_encode(n).len()),
        ),
{
    lemma_number_from(patch, end, pos, pos, 0, 1, n);
}

/// One recorded action moves the reader from its start to its end and
/// adds the target's bytes it stands for.
#[verifier::rlimit(60)]
proof fn lemma_record_step(
    patch: Seq<u8>,
    source: Seq<u8>,
    target: Seq<u8>,
    r: ActionRecord,
    end: int,
    target_crc: u32,
)
    requires
        record_ok(patch, source, target, r),
        r.4 <= end <= patch.len(),
        target.len() <= MAX_TARGET_LEN,
    ensures
        spec_actions(
            patch,
            source,
            end,
            target.len() as u64,
            target_crc,
            r.3,
            target.subrange(0, r.5),
            r.6,
            r.7,
        ) == spec_actions(
            patch,
            source,
            end,
            target.len() as u64,
            target_crc,
            r.4,
            target.subrange(0, r.5 + r.1),
            after_source_rel(r),
            after_target_rel(r),
        ),
{
    let (kind, len, from, at, next, out, srel, trel) = r;
    let word = spec_action_word(kind, len);
    let ew = spec_encode(word);
    let bytes = record_bytes(target, r);
    assert(bytes.subrange(0, ew.len() as int) =~= ew);
    assert(patch.subrange(at, at + ew.len()) =~= ew) by {
        assert(patch.subrange(at, next).subrange(0, ew.len() as int) =~= patch.subrange(at, at + ew.len()));
    }
    lemma_number_decodes(patch, end, at, word);
    let p = at + ew.len();
    assert(word % 4 == kind && word / 4 + 1 == len) by {
        assert(word == (len - 1) * 4 + kind);
    }
    let written = target.subrange(0, out);
    let after = target.subrange(0, out + len);
    if kind == SOURCE_READ {
        let copied = source.subrange(out, out + len);
        assert forall|i: int| 0 <= i < after.len() implies #[trigger] (written + copied)[i] == after[i] by {
            if i >= out {
                let j = i - out;
                assert(source[from + j] == target[out + j]);
                assert(copied[j] == source[i]);
            }
        }
        assert(written + copied =~= after);
    } else if kind == TARGET_READ {
        assert(patch.subrange(p, p + len) =~= target.subrange(out, out + len)) by {
            assert(patch.subrange(at, next).subrange(ew.len() as int, bytes.len() as int) =~= patch.subrange(p, p + len));
        }
        assert(written + patch.subrange(p, p + len) =~= after);
    } else {
        let cursor = if kind == SOURCE_COPY { srel } else { trel };
        let n = spec_signed(from, cursor);
        let en = spec_encode(n);
        assert(bytes =~= ew + en);
        assert(patch.subrange(p, p + en.len()) =~= en) by {
            assert(patch.subrange(at, next).subrange(ew.len() as int, bytes.len() as int) =~= patch.subrange(p, p + en.len()));
        }
        lemma_number_decodes(patch, end, p, n);
        if from >= cursor {
            assert(n == (from - cursor) * 2);
            assert(n % 2 == 0 && n / 2 == from - cursor);
        } else {
            assert(n == (cursor - from) * 2 + 1);
            assert(n % 2 == 1 && n / 2 == cursor - from);
        }
        assert(spec_move(cursor, n as u64) == Some(from as usize));
        if kind == SOURCE_COPY {
            let copied = source.subrange(from, from + len);
            assert forall|i: int| 0 <= i < after.len() implies #[trigger] (written + copied)[i] == after[i] by {
                if i >= out {
                    let j = i - out;
                    assert(source[from + j] == target[out + j]);
                    assert(copied[j] == source[from + j]);
                }
            }
            assert(written + copied =~= after);
        } else {
            crate::compress::lemma_repeat_matches(target, from, out, len);
            assert(written + spec_repeat(written, from, len) =~= after);
        }
    }
}

/// From any recorded action on, the actions write the rest of the target.
proof fn lemma_actions_from(
    patch: Seq<u8>,
    source: Seq<u8>,
    target: Seq<u8>,
    log: Seq<ActionRecord>,
    start: int,
    end: int,
    k: int,
)
    requires
        log_ok(patch, source, target, log, start),
        log_end(log, start).0 == end,
        log_end(log, start).1 == target.len(),
        end <= patch.len(),
        0 <= start <= end,
        0 <= k <= log.len(),
        target.len() <= MAX_TARGET_LEN,
    ensures
        ({
            let (at, out, srel, trel) = if k < log.len() {
                (log[k].3, log[k].5, log[k].6, log[k].7)
            } else {
                log_end(log, start)
            };
            spec_actions(
                patch,
                source,
                end,
                target.len() as u64,
                spec_crc32(target),
                at,
                target.subrange(0, out),
                srel,
                trel,
            ) == Ok::<Seq<u8>, BpsError>(target)
        }),
    decreases log.len() - k,
{
    if k == log.len() {
        assert(target.subrange(0, target.len() as int) =~= target);
    } else {
        let r = log[k];
        assert(record_ok(patch, source, target, r));
        assert(r.4 <= end) by {
            lemma_log_ends_before(patch, source, target, log, start, k);
        }
        lemma_record_step(patch, source, target, r, end, spec_crc32(target));
        lemma_actions_from(patch, source, target, log, start, end, k + 1);
        if k + 1 < log.len() {
            assert(log[k + 1].3 == r.4);
        }
    }
}

/// Every recorded action ends by where the last one does.
proof fn lemma_log_ends_before(
    patch: Seq<u8>,
    source: Seq<u8>,
    target: Seq<u8>,
    log: Seq<ActionRecord>,
    start: int,
    k: int,
)
    requires
        log_ok(patch, source, target, log, start),
        0 <= k < log.len(),
    ensures
        log[k].4 <= log_end(log, start).0,
    decreases log.len() - k,
{
    if k + 1 < log.len() {
        lemma_log_ends_before(patch, source, target, log, start, k + 1);
        assert(log[k + 1].3 == log[k].4);
        assert(record_ok(patch, source, target, log[k + 1]));
    }
}

/// The patch [`create`] writes applies to its source and gives its target.
#[verifier::rlimit(60)]
proof fn lemma_created_patch_applies(
    patch: Seq<u8>,
    body: Seq<u8>,
    header: Seq<u8>,
    magic: Seq<u8>,
    p1: int,
    p2: int,
    source: Seq<u8>,
    target: Seq<u8>,
    log: Seq<ActionRecord>,
    source_crc: u32,
    target_crc: u32,
    patch_crc: u32,
)
    requires
        magic == seq![0x42u8, 0x50u8, 0x53u8, 0x31u8],
        header == magic + spec_encode(source.len()) + spec_encode(target.len()) + spec_encode(0),
        p1 == 4 + spec_encode(source.len()).len(),
        p2 == p1 + spec_encode(target.len()).len(),
        header.len() <= body.len(),
        body.subrange(0, header.len() as int) == header,
        log_ok(body, source, target, log, header.len() as int),
        log_end(log, header.len() as int).0 == body.len(),
        log_end(log, header.len() as int).1 == target.len(),
        source_crc == spec_crc32(source),
        target_crc == spec_crc32(target),
        patch_crc == spec_crc32(body + spec_le_bytes(source_crc) + spec_le_bytes(target_crc)),
        patch == body + spec_le_bytes(source_crc) + spec_le_bytes(target_crc) + spec_le_bytes(
            patch_crc,
        ),
        source.len() < 0x2000_0000_0000_0000,
        target.len() < 0x2000_0000_0000_0000,
    ensures
        target.len() <= MAX_TARGET_LEN ==> spec_apply(patch, source) == Ok::<Seq<u8>, BpsError>(
            target,
        ),
{
    if target.len() <= MAX_TARGET_LEN {
        let end = body.len() as int;
        let signed_part = body + spec_le_bytes(source_crc) + spec_le_bytes(target_crc);
        assert(patch.len() == end + 12);
        assert(spec_encode(0).len() == 1);
        assert(patch.subrange(0, 4) =~= magic) by {
            assert(patch.subrange(0, 4) =~= body.subrange(0, header.len() as int).subrange(0, 4));
        }
        assert(patch.subrange(0, patch.len() - 4) =~= signed_part);
        assert(patch.subrange(end + 8, end + 12) =~= spec_le_bytes(patch_crc));
        lemma_le32_of_bytes(patch, end + 8, patch_crc);
        assert(patch.subrange(end, end + 4) =~= spec_le_bytes(source_crc));
        lemma_le32_of_bytes(patch, end, source_crc);
        assert(patch.subrange(end + 4, end + 8) =~= spec_le_bytes(target_crc));
        lemma_le32_of_bytes(patch, end + 4, target_crc);
        let es = spec_encode(source.len());
        let et = spec_encode(target.len());
        let ez = spec_encode(0);
        assert(patch.subrange(4, p1) =~= es) by {
            assert(patch.subrange(4, p1) =~= header.subrange(4, p1));
        }
        assert(patch.subrange(p1, p2) =~= et) by {
            assert(patch.subrange(p1, p2) =~= header.subrange(p1, p2));
        }
        assert(patch.subrange(p2, p2 + 1) =~= ez) by {
            assert(patch.subrange(p2, p2 + 1) =~= header.subrange(p2, p2 + 1));
        }
        lemma_number_decodes(patch, end, 4, source.len());
        lemma_number_decodes(patch, end, p1, target.len());
        lemma_number_decodes(patch, end, p2, 0);
        assert(header.len() == p2 + 1);
        lemma_log_extend(body, spec_le_bytes(source_crc) + spec_le_bytes(target_crc) + spec_le_bytes(patch_crc), source, target, log, header.len() as int);
        assert(body + (spec_le_bytes(source_crc) + spec_le_bytes(target_crc) + spec_le_bytes(patch_crc)) =~= patch);
        lemma_actions_from(patch, source, target, log, header.len() as int, end, 0);
        if log.len() == 0 {
            assert(target.subrange(0, 0) =~= Seq::<u8>::empty());
        } else {
            assert(target.subrange(0, 0) =~= Seq::<u8>::empty());
        }
    }
}

} // verus!






