//! LC_LZ3, which Lunar Magic can store a hack's GFX and ExGFX files in
//! instead of LC_LZ2. It trades the incrementing fill for a zero fill and
//! adds two more ways to copy from the output.
//!
//! Commands (see [`super`] for the chunk headers):
//! 0 direct copy, 1 byte fill, 2 word fill, 3 zero fill (no operand),
//! 4 copy from an earlier point in the output, 5 the same with the bits
//! of each byte reversed, 6 the same reading backwards from that point.
//!
//! The copies name their source in one of two ways. With bit 7 of the
//! first byte clear it is a big-endian 15-bit offset into the output;
//! with it set the byte's low seven bits count back from the last byte
//! written (`$80` is that byte itself).

use vstd::prelude::*;

use super::{
    Decompressed, Format, LzError, Reader, push_fill, push_repeat, spec_decompress, spec_repeat,
    matches_spec,
};

verus! {

/// A byte with its bits in the opposite order.
pub open spec fn spec_reverse(b: u8) -> u8 {
    ((b & 1) << 7) | ((b & 2) << 5) | ((b & 4) << 3) | ((b & 8) << 1) | ((b & 16) >> 1) | ((b
        & 32) >> 3) | ((b & 64) >> 5) | ((b & 128) >> 7)
}

/// Reversing puts each bit in the mirror place: bit `k` of the result
/// is bit `7 - k` of the byte.
pub proof fn lemma_reverse_mirrors_bits(b: u8, k: u8)
    requires
        k < 8,
    ensures
        (spec_reverse(b) >> k) & 1 == (b >> (7 - k) as u8) & 1,
{
    assert((spec_reverse(b) >> k) & 1 == (b >> (7 - k) as u8) & 1) by (bit_vector)
        requires
            k < 8,
    ;
}

pub fn reverse_bits(b: u8) -> (r: u8)
    ensures
        r == spec_reverse(b),
{
    ((b & 1) << 7) | ((b & 2) << 5) | ((b & 4) << 3) | ((b & 8) << 1) | ((b & 16) >> 1) | ((b & 32)
        >> 3) | ((b & 64) >> 5) | ((b & 128) >> 7)
}

/// Reversing twice gives the byte back.
pub proof fn lemma_reverse_twice(b: u8)
    ensures
        spec_reverse(spec_reverse(b)) == b,
{
    let r = spec_reverse(b);
    assert(((r & 1) << 7) | ((r & 2) << 5) | ((r & 4) << 3) | ((r & 8) << 1) | ((r & 16) >> 1)
        | ((r & 32) >> 3) | ((r & 64) >> 5) | ((r & 128) >> 7) == b) by (bit_vector)
        requires
            r == ((b & 1) << 7) | ((b & 2) << 5) | ((b & 4) << 3) | ((b & 8) << 1) | ((b & 16)
                >> 1) | ((b & 32) >> 3) | ((b & 64) >> 5) | ((b & 128) >> 7),
    ;
}

/// Where a copy reads from, with the input offset after its operand.
pub open spec fn spec_source(
    input: Seq<u8>,
    pos: int,
    produced: int,
    start: int,
) -> Result<(int, int), LzError> {
    if pos >= input.len() {
        Err(LzError::Truncated(pos as usize))
    } else {
        let first = input[pos];
        if first >= 0x80 {
            let back = (first - 0x80) + 1;
            if back <= produced {
                Ok((pos + 1, produced - back))
            } else {
                Err(LzError::BadBackRef { src: 0, len: produced as usize, offset: start as usize })
            }
        } else if pos + 1 >= input.len() {
            Err(LzError::Truncated((pos + 1) as usize))
        } else {
            let src = first * 256 + input[pos + 1];
            if src < produced {
                Ok((pos + 2, src))
            } else {
                Err(
                    LzError::BadBackRef {
                        src: src as usize,
                        len: produced as usize,
                        offset: start as usize,
                    },
                )
            }
        }
    }
}

/// A copy with each byte's bits reversed. Once it reads what it has
/// written, a byte is reversed again each time round the pattern.
pub open spec fn spec_reversed_repeat(out: Seq<u8>, src: int, len: int) -> Seq<u8> {
    Seq::new(
        len as nat,
        |i: int|
            {
                let d = out.len() - src;
                let b = out[src + i % d];
                if (i / d) % 2 == 0 {
                    spec_reverse(b)
                } else {
                    b
                }
            },
    )
}

/// What commands 3 and up do in LC_LZ3.
pub open spec fn spec_command(
    input: Seq<u8>,
    cmd: u8,
    len: int,
    start: int,
    pos: int,
    out: Seq<u8>,
) -> Result<(int, Seq<u8>), LzError> {
    if cmd == 3 {
        Ok((pos, out + Seq::new(len as nat, |i: int| 0u8)))
    } else if 4 <= cmd <= 6 {
        match spec_source(input, pos, out.len() as int, start) {
            Err(e) => Err(e),
            Ok((p, src)) => {
                if cmd == 6 && len > src + 1 {
                    Err(
                        LzError::BadBackRef {
                            src: src as usize,
                            len: out.len() as usize,
                            offset: start as usize,
                        },
                    )
                } else if cmd == 4 {
                    Ok((p, out + spec_repeat(out, src, len)))
                } else if cmd == 5 {
                    Ok((p, out + spec_reversed_repeat(out, src, len)))
                } else {
                    Ok((p, out + Seq::new(len as nat, |i: int| out[src - i])))
                }
            },
        }
    } else {
        Err(LzError::BadCommand { cmd, offset: start as usize })
    }
}

/// Reads a copy command's source and resolves it to an output offset.
fn source(reader: &mut Reader, produced: usize, start: usize) -> (r: Result<usize, LzError>)
    ensures
        final(reader).input@ == old(reader).input@,
        match (r, spec_source(old(reader).input@, old(reader).pos as int, produced as int, start as int)) {
            (Ok(src), Ok((p, s))) => src == s && final(reader).pos == p,
            (Err(e), Err(e2)) => e == e2,
            _ => false,
        },
{
    let first = reader.byte()?;
    if first >= 0x80 {
        let back = ((first - 0x80) as usize) + 1;
        if back <= produced {
            Ok(produced - back)
        } else {
            Err(LzError::BadBackRef { src: 0, len: produced, offset: start })
        }
    } else {
        let second = reader.byte()?;
        let src = (first as usize) * 256 + second as usize;
        if src < produced {
            Ok(src)
        } else {
            Err(LzError::BadBackRef { src, len: produced, offset: start })
        }
    }
}

/// Runs commands 3 to 6; `Ok(false)` for a command LC_LZ3 does not have.
pub fn command(
    cmd: u8,
    len: usize,
    start: usize,
    reader: &mut Reader,
    out: &mut Vec<u8>,
) -> (r: Result<bool, LzError>)
    requires
        3 <= cmd,
        old(reader).pos <= old(reader).input@.len(),
    ensures
        final(reader).input@ == old(reader).input@,
        match (r, spec_command(old(reader).input@, cmd, len as int, start as int, old(reader).pos as int, old(out)@)) {
            (Ok(true), Ok((p, o))) => final(reader).pos == p && final(out)@ == o
                && old(reader).pos <= p <= old(reader).input@.len()
                && o.len() == old(out)@.len() + len,
            (Ok(false), Err(e)) => e == LzError::BadCommand { cmd, offset: start },
            (Err(e), Err(e2)) => e == e2,
            _ => false,
        },
{
    if cmd == 3 {
        push_fill(out, 0, len);
        return Ok(true);
    }
    if cmd > 6 {
        return Ok(false);
    }
    let src = source(reader, out.len(), start)?;
    // A backwards copy must not run off the start; forward ones may
    // overlap what they write and repeat the pattern.
    if cmd == 6 && len > src + 1 {
        return Err(LzError::BadBackRef { src, len: out.len(), offset: start });
    }
    if cmd == 4 {
        push_repeat(out, src, len);
    } else if cmd == 5 {
        push_reversed(out, src, len);
    } else {
        let ghost start_out = out@;
        let mut i: usize = 0;
        while i < len
            invariant
                i <= len,
                len <= src + 1,
                src < start_out.len(),
                out@ == start_out + Seq::new(i as nat, |k: int| start_out[src - k]),
            decreases len - i,
        {
            let b = out[src - i];
            out.push(b);
            i = i + 1;
            assert(out@ =~= start_out + Seq::new(i as nat, |k: int| start_out[src - k]));
        }
    }
    Ok(true)
}

/// Appends a copy of the output from `src` with each byte's bits reversed.
fn push_reversed(out: &mut Vec<u8>, src: usize, len: usize)
    requires
        src < old(out)@.len(),
    ensures
        final(out)@ == old(out)@ + spec_reversed_repeat(old(out)@, src as int, len as int),
{
    let ghost start = out@;
    let ghost d = start.len() - src;
    let mut i: usize = 0;
    while i < len
        invariant
            i <= len,
            src < start.len(),
            d == start.len() - src,
            out@ == start + spec_reversed_repeat(start, src as int, i as int),
            out@.len() == start.len() + i,
        decreases len - i,
    {
        proof {
            lemma_reversed_step(start, src as int, i as int);
        }
        let n = out.len();
        assert(src + i < n);
        let b = out[src + i];
        let r = reverse_bits(b);
        out.push(r);
        i = i + 1;
        assert(out@ =~= start + spec_reversed_repeat(start, src as int, i as int));
    }
}

proof fn lemma_reversed_step(start: Seq<u8>, src: int, i: int)
    requires
        0 <= src < start.len(),
        0 <= i,
    ensures
        ({
            let d = start.len() - src;
            let b = start[src + i % d];
            spec_reverse((start + spec_reversed_repeat(start, src, i))[src + i]) == if (i / d) % 2
                == 0 {
                spec_reverse(b)
            } else {
                b
            }
        }),
{
    let d = start.len() - src;
    if src + i < start.len() {
        vstd::arithmetic::div_mod::lemma_small_mod(i as nat, d as nat);
        vstd::arithmetic::div_mod::lemma_basic_div_specific_divisor(d);
    } else {
        let j = i - d;
        assert(j % d == i % d) by {
            vstd::arithmetic::div_mod::lemma_mod_sub_multiples_vanish(i, d);
        }
        assert(j / d == i / d - 1) by {
            vstd::arithmetic::div_mod::lemma_div_minus_one(i, d);
        }
        let b = start[src + i % d];
        lemma_reverse_twice(b);
        lemma_reverse_twice(spec_reverse(b));
    }
}

/// Decompresses one LC_LZ3 stream from the start of `input`. Trailing
/// bytes after the terminator are ignored.
pub fn decompress(input: &[u8]) -> (r: Result<Decompressed, LzError>)
    ensures
        matches_spec(r, spec_decompress(Format::Lz3, input@)),
{
    super::decompress(Format::Lz3, input)
}

} // verus!
