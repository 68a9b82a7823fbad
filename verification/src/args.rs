//! Reading the numbers a command line gives: sizes such as `1M` or
//! `1536K`, and addresses, hexadecimal with `$` for a SNES address or
//! `0x` for a ROM offset.

use vstd::prelude::*;

use crate::addr::{MapError, Mapping, PcAddr, SnesAddr, spec_pc_to_snes, spec_snes_to_pc};
use vstd::utf8::encode_utf8;

verus! {

/// The decimal digit a byte is, if it is one.
pub open spec fn decimal_digit(b: u8) -> Option<int> {
    if 0x30 <= b <= 0x39 {
        Some(b - 0x30)
    } else {
        None
    }
}

/// The hexadecimal digit a byte is, either case, if it is one.
pub open spec fn hex_digit_value(b: u8) -> Option<int> {
    if 0x30 <= b <= 0x39 {
        Some(b - 0x30)
    } else if 0x41 <= b <= 0x46 {
        Some(b - 0x41 + 10)
    } else if 0x61 <= b <= 0x66 {
        Some(b - 0x61 + 10)
    } else {
        None
    }
}

/// The number the digits in `d` spell in `radix`, or `None` if one of them
/// is not a digit.
pub open spec fn digits_value(d: Seq<u8>, radix: int) -> Option<int>
    decreases d.len(),
{
    if d.len() == 0 {
        Some(0)
    } else {
        let digit = if radix == 16 {
            hex_digit_value(d.last())
        } else {
            decimal_digit(d.last())
        };
        match (digits_value(d.drop_last(), radix), digit) {
            (Some(v), Some(x)) => Some(v * radix + x),
            _ => None,
        }
    }
}

/// An unsigned number as Rust's parsers read it: an optional `+`, then
/// at least one digit, and no more than `max`.
pub open spec fn spec_parse_unsigned(b: Seq<u8>, radix: int, max: int) -> Option<int> {
    let d = if b.len() > 0 && b[0] == 0x2B {
        b.drop_first()
    } else {
        b
    };
    if d.len() == 0 {
        None
    } else {
        match digits_value(d, radix) {
            Some(v) => if v <= max {
                Some(v)
            } else {
                None
            },
            None => None,
        }
    }
}

/// The value of a digit byte in `radix`.
fn digit_of(b: u8, radix: u64) -> (r: Option<u64>)
    requires
        radix == 10 || radix == 16,
    ensures
        r matches Some(x) ==> (if radix == 16 {
            hex_digit_value(b)
        } else {
            decimal_digit(b)
        }) == Some(x as int),
        r is None ==> (if radix == 16 {
            hex_digit_value(b)
        } else {
            decimal_digit(b)
        }) is None,
{
    if 0x30 <= b && b <= 0x39 {
        Some((b - 0x30) as u64)
    } else if radix == 16 && 0x41 <= b && b <= 0x46 {
        Some((b - 0x41 + 10) as u64)
    } else if radix == 16 && 0x61 <= b && b <= 0x66 {
        Some((b - 0x61 + 10) as u64)
    } else {
        None
    }
}

/// The digits bound their value: a value within `max` stays within it
/// when digits are taken away from the end.
proof fn lemma_prefix_bounded(d: Seq<u8>, radix: int, n: int)
    requires
        0 <= n <= d.len(),
        radix == 10 || radix == 16,
        digits_value(d, radix) is Some,
    ensures
        digits_value(d.subrange(0, n), radix) is Some,
        digits_value(d.subrange(0, n), radix)->0 <= digits_value(d, radix)->0,
        0 <= digits_value(d.subrange(0, n), radix)->0,
    decreases d.len() - n,
{
    assert(d.subrange(0, d.len() as int) =~= d);
    lemma_value_nonnegative(d, radix);
    if n < d.len() {
        let e = d.subrange(0, n + 1);
        lemma_prefix_bounded(d, radix, n + 1);
        assert(e.drop_last() =~= d.subrange(0, n));
        lemma_value_nonnegative(d.subrange(0, n), radix);
        assert(digits_value(e, radix)->0 >= digits_value(e.drop_last(), radix)->0 * radix);
        assert(digits_value(e.drop_last(), radix)->0 * radix >= digits_value(
            e.drop_last(),
            radix,
        )->0) by (nonlinear_arith)
            requires
                digits_value(e.drop_last(), radix)->0 >= 0,
                radix >= 1,
        ;
    }
}

proof fn lemma_value_nonnegative(d: Seq<u8>, radix: int)
    requires
        radix == 10 || radix == 16,
    ensures
        digits_value(d, radix) matches Some(v) ==> v >= 0,
    decreases d.len(),
{
    if d.len() > 0 {
        lemma_value_nonnegative(d.drop_last(), radix);
        if digits_value(d, radix) is Some {
            let v = digits_value(d.drop_last(), radix)->0;
            assert(v * radix >= 0) by (nonlinear_arith)
                requires
                    v >= 0,
                    radix >= 1,
            ;
        }
    }
}

/// Reads `b[from..to]` as an unsigned number in `radix`, as Rust's
/// parsers do.
pub fn parse_unsigned(b: &[u8], from: usize, to: usize, radix: u64, max: u64) -> (r: Option<u64>)
    requires
        from <= to <= b@.len(),
        radix == 10 || radix == 16,
    ensures
        r matches Some(v) ==> spec_parse_unsigned(b@.subrange(from as int, to as int), radix as int, max as int) == Some(v as int),
        r is None ==> spec_parse_unsigned(b@.subrange(from as int, to as int), radix as int, max as int) is None,
{
    let ghost whole = b@.subrange(from as int, to as int);
    let mut start = from;
    if from < to && b[from] == 0x2B {
        start = from + 1;
    }
    let ghost d = b@.subrange(start as int, to as int);
    assert(d =~= if whole.len() > 0 && whole[0] == 0x2B {
        whole.drop_first()
    } else {
        whole
    });
    if start == to {
        return None;
    }
    let mut value: u64 = 0;
    let mut i = start;
    while i < to
        invariant
            start <= i <= to <= b@.len(),
            start < to,
            radix == 10 || radix == 16,
            d == b@.subrange(start as int, to as int),
            whole == b@.subrange(from as int, to as int),
            d == if whole.len() > 0 && whole[0] == 0x2B {
                whole.drop_first()
            } else {
                whole
            },
            digits_value(b@.subrange(start as int, i as int), radix as int) == Some(value as int),
            value <= max,
        decreases to - i,
    {
        let ghost before = b@.subrange(start as int, i as int);
        let ghost now = b@.subrange(start as int, i + 1);
        assert(now.drop_last() =~= before);
        assert(now.last() == b@[i as int]);
        let digit = match digit_of(b[i], radix) {
            Some(x) => x,
            None => {
                proof {
                    assert(digits_value(now, radix as int) is None);
                    assert(d.subrange(0, (i + 1 - start) as int) =~= now);
                    lemma_none_extends(d, radix as int, (i + 1 - start) as int);
                }
                return None;
            },
        };
        assert(digits_value(now, radix as int) == Some(value * radix + digit));
        let next = match value.checked_mul(radix) {
            Some(m) => match m.checked_add(digit) {
                Some(n) => n,
                None => {
                    proof {
                        assert(d.subrange(0, (i + 1 - start) as int) =~= now);
                        lemma_too_large(d, radix as int, (i + 1 - start) as int, max as int);
                    }
                    return None;
                },
            },
            None => {
                proof {
                    assert(d.subrange(0, (i + 1 - start) as int) =~= now);
                    lemma_too_large(d, radix as int, (i + 1 - start) as int, max as int);
                }
                return None;
            },
        };
        if next > max {
            proof {
                assert(d.subrange(0, (i + 1 - start) as int) =~= now);
                lemma_too_large(d, radix as int, (i + 1 - start) as int, max as int);
            }
            return None;
        }
        value = next;
        i = i + 1;
    }
    Some(value)
}

/// A non-digit among the first `n` makes the whole no number.
proof fn lemma_none_extends(d: Seq<u8>, radix: int, n: int)
    requires
        0 <= n <= d.len(),
        radix == 10 || radix == 16,
        digits_value(d.subrange(0, n), radix) is None,
    ensures
        digits_value(d, radix) is None,
    decreases d.len() - n,
{
    if n < d.len() {
        let e = d.subrange(0, n + 1);
        assert(e.drop_last() =~= d.subrange(0, n));
        lemma_none_extends(d, radix, n + 1);
    } else {
        assert(d.subrange(0, n) =~= d);
    }
}

/// If the first `n` digits are over `max`, or no number, so is the whole.
proof fn lemma_too_large(d: Seq<u8>, radix: int, n: int, max: int)
    requires
        0 <= n <= d.len(),
        radix == 10 || radix == 16,
        max >= 0,
        digits_value(d.subrange(0, n), radix) matches Some(v) ==> v > max,
    ensures
        digits_value(d, radix) matches Some(v) ==> v > max,
{
    if digits_value(d, radix) is Some {
        lemma_prefix_bounded(d, radix, n);
    }
}

/// The multiple a size suffix stands for: `K` or `k` a kibibyte, `M` or
/// `m` a mebibyte.
pub open spec fn size_unit(b: u8) -> int {
    if b == 0x4B || b == 0x6B {
        1024
    } else if b == 0x4D || b == 0x6D {
        0x10_0000
    } else {
        1
    }
}

/// A size as bytes: a byte count, or kibibytes or mebibytes with a `K` or
/// `M` after them.
pub open spec fn spec_parse_size(b: Seq<u8>) -> Option<int> {
    let unit = if b.len() > 0 {
        size_unit(b.last())
    } else {
        1
    };
    let digits = if unit > 1 {
        b.drop_last()
    } else {
        b
    };
    match spec_parse_unsigned(digits, 10, usize::MAX as int) {
        Some(n) => if n * unit <= usize::MAX {
            Some(n * unit)
        } else {
            None
        },
        None => None,
    }
}

/// Reads a size such as `1M`, `1536K`, or a byte count; `None` for
/// anything else, or a size past `usize`.
pub fn parse_size(text: &str) -> (r: Option<usize>)
    ensures
        r matches Some(n) ==> spec_parse_size(encode_utf8(text@)) == Some(n as int),
        r is None ==> spec_parse_size(encode_utf8(text@)) is None,
{
    let b = text.as_bytes();
    let len = b.len();
    let unit: u64 = if len > 0 && (b[len - 1] == 0x4B || b[len - 1] == 0x6B) {
        1024
    } else if len > 0 && (b[len - 1] == 0x4D || b[len - 1] == 0x6D) {
        0x10_0000
    } else {
        1
    };
    let end = if unit > 1 {
        len - 1
    } else {
        len
    };
    assert(b@.subrange(0, end as int) =~= if unit > 1 {
        b@.drop_last()
    } else {
        b@
    });
    match parse_unsigned(b, 0, end, 10, usize::MAX as u64) {
        Some(n) => match n.checked_mul(unit) {
            Some(bytes) if bytes <= usize::MAX as u64 => Some(bytes as usize),
            _ => None,
        },
        None => None,
    }
}

/// What an address given on the command line converts to.
#[derive(Clone, Copy, PartialEq, Eq, Debug, Structural)]
pub enum Conversion {
    /// A ROM offset (`0x` before it) and its SNES address.
    PcToSnes(PcAddr, SnesAddr),
    /// A SNES address (`$` or nothing before it) and its ROM offset.
    SnesToPc(SnesAddr, PcAddr),
}

#[derive(Clone, Copy, PartialEq, Eq, Debug, Structural)]
pub enum AddrArgError {
    /// After `0x`, no hexadecimal number that fits 32 bits.
    BadOffset,
    /// No hexadecimal number that fits 32 bits.
    BadAddress,
    /// A SNES address past 24 bits.
    TooWide,
    /// The mapping has no such address or offset.
    NotMapped(MapError),
}

/// The text after a two-byte `0x` or `0X` prefix, if there is one.
pub open spec fn has_offset_prefix(b: Seq<u8>) -> bool {
    b.len() >= 2 && b[0] == 0x30 && (b[1] == 0x78 || b[1] == 0x58)
}

/// The mapping the conversion uses: SA-1 with `sa1`, else LoROM.
pub open spec fn arg_mapping(sa1: bool) -> Mapping {
    if sa1 {
        Mapping::Sa1Rom
    } else {
        Mapping::LoRom
    }
}

/// `r` is what converting the text `b` gives: for `0x` and a number, its
/// SNES address or the mapping's refusal; for `$` or nothing and a number
/// of at most 24 bits, its ROM offset or the mapping's refusal.
pub open spec fn converts_to(b: Seq<u8>, sa1: bool, r: Result<Conversion, AddrArgError>) -> bool {
    let m = arg_mapping(sa1);
    if has_offset_prefix(b) {
        match spec_parse_unsigned(b.subrange(2, b.len() as int), 16, u32::MAX as int) {
            None => r == Err::<Conversion, AddrArgError>(AddrArgError::BadOffset),
            Some(v) => match r {
                Ok(Conversion::PcToSnes(p, s)) => p@ == v && spec_pc_to_snes(m, v as u32) == Some(
                    s@,
                ),
                Err(AddrArgError::NotMapped(MapError::OutOfRange(p, mm))) => p@ == v && mm == m
                    && spec_pc_to_snes(m, v as u32) is None,
                _ => false,
            },
        }
    } else {
        let hex = if b.len() > 0 && b[0] == 0x24 {
            b.drop_first()
        } else {
            b
        };
        match spec_parse_unsigned(hex, 16, u32::MAX as int) {
            None => r == Err::<Conversion, AddrArgError>(AddrArgError::BadAddress),
            Some(v) => if v > 0xFF_FFFF {
                r == Err::<Conversion, AddrArgError>(AddrArgError::TooWide)
            } else {
                match r {
                    Ok(Conversion::SnesToPc(a, p)) => a@ == v && spec_snes_to_pc(m, v as u32)
                        == Some(p@),
                    Err(AddrArgError::NotMapped(MapError::NotRom(a, mm))) => a@ == v && mm == m
                        && spec_snes_to_pc(m, v as u32) is None,
                    _ => false,
                }
            },
        }
    }
}

/// Converts a ROM offset written `0x...` to its SNES address, or a SNES
/// address written `$...` or bare hexadecimal to its ROM offset, under
/// LoROM, or SA-1 mapping with `sa1`.
pub fn convert_addr(text: &str, sa1: bool) -> (r: Result<Conversion, AddrArgError>)
    ensures
        converts_to(encode_utf8(text@), sa1, r),
{
    let mapping = if sa1 {
        Mapping::Sa1Rom
    } else {
        Mapping::LoRom
    };
    let b = text.as_bytes();
    let len = b.len();
    if len >= 2 && b[0] == 0x30 && (b[1] == 0x78 || b[1] == 0x58) {
        match parse_unsigned(b, 2, len, 16, u32::MAX as u64) {
            None => Err(AddrArgError::BadOffset),
            Some(v) => {
                let pc = PcAddr::new(v as u32);
                match mapping.pc_to_snes(pc) {
                    Ok(s) => Ok(Conversion::PcToSnes(pc, s)),
                    Err(e) => Err(AddrArgError::NotMapped(e)),
                }
            },
        }
    } else {
        let from: usize = if len > 0 && b[0] == 0x24 {
            1
        } else {
            0
        };
        assert(b@.subrange(from as int, len as int) =~= if b@.len() > 0 && b@[0] == 0x24 {
            b@.drop_first()
        } else {
            b@
        });
        match parse_unsigned(b, from, len, 16, u32::MAX as u64) {
            None => Err(AddrArgError::BadAddress),
            Some(v) => {
                if v > 0xFF_FFFF {
                    return Err(AddrArgError::TooWide);
                }
                let snes = SnesAddr::new(v as u32);
                match mapping.snes_to_pc(snes) {
                    Ok(p) => Ok(Conversion::SnesToPc(snes, p)),
                    Err(e) => Err(AddrArgError::NotMapped(e)),
                }
            },
        }
    }
}

} // verus!
