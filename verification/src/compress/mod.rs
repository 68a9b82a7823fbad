//! Compression formats used inside the ROM: LC_LZ2, which the game and
//! most hacks use, LC_LZ3, which Lunar Magic can store a hack's graphics
//! in instead, and LC_RLE1, the run-length format of background tilemaps.
//!
//! LC_LZ2 and LC_LZ3 are a sequence of chunks, each starting with a header
//! byte: the top three bits are the command and the low five bits are the
//! length minus one. A command of 7 marks a long header: the command moves
//! to bits 2 to 4 and the length becomes ten bits spanning the low two bits
//! and the following byte. A header byte of `$FF` ends the stream. The
//! formats differ in what commands 3 and up do.

use vstd::prelude::*;

use crate::text::{dec_digits, push_dec, push_str};

pub mod lz2;
pub mod lz3;
pub mod rle1;
mod suffix;

verus! {

/// Output offsets are 16-bit, so no stream can address more than this.
pub const MAX_OUTPUT: usize = 0x1_0000;

/// The longest chunk a short header describes.
pub const SHORT_LEN: usize = 32;

/// The longest chunk a long header describes.
pub const LONG_LEN: usize = 1024;

#[derive(Clone, Debug, PartialEq, Eq, Structural)]
pub enum LzError {
    /// The compressed data ends at this offset without a terminator.
    Truncated(usize),
    /// An unknown command at this input offset.
    BadCommand { cmd: u8, offset: usize },
    /// A copy from output offset `src`, at input offset `offset`, points
    /// outside the `len` bytes produced so far.
    BadBackRef { src: usize, len: usize, offset: usize },
    /// The decompressed output would exceed [`MAX_OUTPUT`] bytes.
    TooLarge,
    /// Input of this many bytes is over the [`MAX_OUTPUT`] a stream holds.
    InputTooLarge(usize),
}

impl LzError {
    /// The error as a sentence.
    pub open spec fn text(self) -> Seq<char> {
        match self {
            LzError::Truncated(offset) => "compressed data ends at offset "@ + dec_digits(
                offset as nat,
            ) + " without a terminator"@,
            LzError::BadCommand { cmd, offset } => "unknown command "@ + dec_digits(cmd as nat)
                + " at offset "@ + dec_digits(offset as nat),
            LzError::BadBackRef { src, len, offset } => "back-reference to output offset "@
                + dec_digits(src as nat) + " at input offset "@ + dec_digits(offset as nat)
                + " points outside the "@ + dec_digits(len as nat) + " bytes produced so far"@,
            LzError::TooLarge => "decompressed output exceeds 65536 bytes"@,
            LzError::InputTooLarge(len) => "input of "@ + dec_digits(len as nat)
                + " bytes is over the 65536 a stream holds"@,
        }
    }

    pub fn to_string(&self) -> (r: String)
        ensures
            r@ == self.text(),
    {
        let mut s = String::new();
        match self {
            LzError::Truncated(offset) => {
                push_str(&mut s, "compressed data ends at offset ");
                push_dec(&mut s, *offset as u64);
                push_str(&mut s, " without a terminator");
            },
            LzError::BadCommand { cmd, offset } => {
                push_str(&mut s, "unknown command ");
                push_dec(&mut s, *cmd as u64);
                push_str(&mut s, " at offset ");
                push_dec(&mut s, *offset as u64);
            },
            LzError::BadBackRef { src, len, offset } => {
                push_str(&mut s, "back-reference to output offset ");
                push_dec(&mut s, *src as u64);
                push_str(&mut s, " at input offset ");
                push_dec(&mut s, *offset as u64);
                push_str(&mut s, " points outside the ");
                push_dec(&mut s, *len as u64);
                push_str(&mut s, " bytes produced so far");
            },
            LzError::TooLarge => {
                push_str(&mut s, "decompressed output exceeds 65536 bytes");
            },
            LzError::InputTooLarge(len) => {
                push_str(&mut s, "input of ");
                push_dec(&mut s, *len as u64);
                push_str(&mut s, " bytes is over the 65536 a stream holds");
            },
        }
        s
    }
}

#[derive(Debug, PartialEq, Eq)]
pub struct Decompressed {
    pub data: Vec<u8>,
    /// Number of input bytes consumed, including the terminator.
    pub consumed: usize,
}

/// Which of the two LZ formats a stream is in.
#[derive(Clone, Copy, PartialEq, Eq, Structural, Debug)]
pub enum Format {
    Lz2,
    Lz3,
}

/// What a chunk header says: the terminator, or a command and length,
/// with where the chunk's operands start.
pub open spec fn spec_chunk(input: Seq<u8>, pos: int) -> Result<Option<(u8, int, int)>, LzError> {
    if pos < 0 || pos >= input.len() {
        Err(LzError::Truncated(pos as usize))
    } else {
        let h = input[pos];
        if h == 0xFF {
            Ok(None)
        } else if h / 32 == 7 {
            if pos + 1 >= input.len() {
                Err(LzError::Truncated((pos + 1) as usize))
            } else {
                Ok(Some(((h / 4) % 8, (h % 4) * 256 + input[pos + 1] + 1, pos + 2)))
            }
        } else {
            Ok(Some((h / 32, (h % 32) + 1, pos + 1)))
        }
    }
}

/// `len` bytes that repeat `out[src..]` from the end of `out`, as a copy
/// that reads what it writes produces: the pattern has the period of the
/// distance from `src` to the end.
pub open spec fn spec_repeat(out: Seq<u8>, src: int, len: int) -> Seq<u8> {
    Seq::new(len as nat, |i: int| out[src + i % (out.len() - src)])
}

/// The bytes a command that only reads its operands produces, with the
/// input offset after them; commands 0 to 2 are the same in both formats.
pub open spec fn spec_common(
    input: Seq<u8>,
    cmd: u8,
    len: int,
    pos: int,
) -> Result<(int, Seq<u8>), LzError> {
    if cmd == 0 {
        if pos + len <= input.len() {
            Ok((pos + len, input.subrange(pos, pos + len)))
        } else {
            Err(LzError::Truncated(input.len() as usize))
        }
    } else if cmd == 1 {
        if pos < input.len() {
            Ok((pos + 1, Seq::new(len as nat, |i: int| input[pos])))
        } else {
            Err(LzError::Truncated(pos as usize))
        }
    } else {
        if pos >= input.len() {
            Err(LzError::Truncated(pos as usize))
        } else if pos + 1 >= input.len() {
            Err(LzError::Truncated((pos + 1) as usize))
        } else {
            Ok(
                (
                    pos + 2,
                    Seq::new(
                        len as nat,
                        |i: int|
                            if i % 2 == 0 {
                                input[pos]
                            } else {
                                input[pos + 1]
                            },
                    ),
                ),
            )
        }
    }
}

/// One chunk's effect: the input offset after it and the output with its
/// bytes added.
pub open spec fn spec_command(
    fmt: Format,
    input: Seq<u8>,
    cmd: u8,
    len: int,
    start: int,
    pos: int,
    out: Seq<u8>,
) -> Result<(int, Seq<u8>), LzError> {
    if cmd <= 2 {
        match spec_common(input, cmd, len, pos) {
            Ok((p, bytes)) => Ok((p, out + bytes)),
            Err(e) => Err(e),
        }
    } else {
        match fmt {
            Format::Lz2 => lz2::spec_command(input, cmd, len, start, pos, out),
            Format::Lz3 => lz3::spec_command(input, cmd, len, start, pos, out),
        }
    }
}

/// Decompresses from input offset `pos` with `out` produced so far: the
/// output and the bytes consumed up to and including the terminator.
pub open spec fn spec_decompress_from(
    fmt: Format,
    input: Seq<u8>,
    pos: int,
    out: Seq<u8>,
) -> Result<(Seq<u8>, int), LzError>
    decreases input.len() - pos,
{
    if pos < 0 || pos >= input.len() {
        Err(LzError::Truncated(pos as usize))
    } else {
        match spec_chunk(input, pos) {
            Err(e) => Err(e),
            Ok(None) => Ok((out, pos + 1)),
            Ok(Some((cmd, len, next))) => {
                if out.len() + len > MAX_OUTPUT {
                    Err(LzError::TooLarge)
                } else {
                    match spec_command(fmt, input, cmd, len, pos, next, out) {
                        Err(e) => Err(e),
                        Ok((p, out2)) => if pos < p <= input.len() {
                            spec_decompress_from(fmt, input, p, out2)
                        } else {
                            Err(LzError::Truncated(pos as usize))
                        },
                    }
                }
            },
        }
    }
}

/// What decompressing a whole stream from the start of `input` gives.
pub open spec fn spec_decompress(fmt: Format, input: Seq<u8>) -> Result<(Seq<u8>, int), LzError> {
    spec_decompress_from(fmt, input, 0, Seq::empty())
}

/// Whether a decompression result is the one the spec describes.
pub open spec fn matches_spec(
    r: Result<Decompressed, LzError>,
    s: Result<(Seq<u8>, int), LzError>,
) -> bool {
    match (r, s) {
        (Ok(d), Ok((data, consumed))) => d.data@ == data && d.consumed == consumed,
        (Err(e), Err(e2)) => e == e2,
        _ => false,
    }
}

/// A stream being read, chunk by chunk.
pub struct Reader<'a> {
    pub input: &'a [u8],
    pub pos: usize,
}

impl<'a> Reader<'a> {
    pub fn byte(&mut self) -> (r: Result<u8, LzError>)
        ensures
            final(self).input@ == old(self).input@,
            old(self).pos < old(self).input@.len() ==> r == Ok::<u8, LzError>(
                old(self).input@[old(self).pos as int],
            ) && final(self).pos == old(self).pos + 1,
            old(self).pos >= old(self).input@.len() ==> r == Err::<u8, LzError>(
                LzError::Truncated(old(self).pos),
            ),
    {
        if self.pos >= self.input.len() {
            return Err(LzError::Truncated(self.pos));
        }
        let b = self.input[self.pos];
        self.pos = self.pos + 1;
        Ok(b)
    }

    /// The next chunk's command and length, or `None` at the terminator.
    pub fn chunk(&mut self) -> (r: Result<Option<(u8, usize)>, LzError>)
        requires
            old(self).pos <= old(self).input@.len(),
        ensures
            final(self).input@ == old(self).input@,
            match (r, spec_chunk(old(self).input@, old(self).pos as int)) {
                (Ok(None), Ok(None)) => final(self).pos == old(self).pos + 1,
                (Ok(Some((c, l))), Ok(Some((c2, l2, p)))) => c == c2 && l == l2
                    && final(self).pos == p,
                (Err(e), Err(e2)) => e == e2,
                _ => false,
            },
    {
        let header = self.byte()?;
        if header == 0xFF {
            return Ok(None);
        }
        // `CCCLLLLL`, or `111CCCLL LLLLLLLL` for a long length.
        if header / 32 == 7 {
            let second = self.byte()?;
            let len = (((header % 4) as usize) * 256) + second as usize;
            Ok(Some(((header / 4) % 8, len + 1)))
        } else {
            Ok(Some((header / 32, (header % 32) as usize + 1)))
        }
    }
}

/// Appends the bytes of `s`.
pub fn append_slice(out: &mut Vec<u8>, s: &[u8])
    ensures
        final(out)@ == old(out)@ + s@,
{
    let ghost start = out@;
    let mut i: usize = 0;
    while i < s.len()
        invariant
            i <= s@.len(),
            out@ == start + s@.subrange(0, i as int),
        decreases s@.len() - i,
    {
        out.push(s[i]);
        i = i + 1;
        assert(out@ =~= start + s@.subrange(0, i as int));
    }
    assert(s@.subrange(0, s@.len() as int) =~= s@);
}

/// Appends `len` copies of `b`.
pub fn push_fill(out: &mut Vec<u8>, b: u8, len: usize)
    ensures
        final(out)@ == old(out)@ + Seq::new(len as nat, |i: int| b),
{
    let ghost start = out@;
    let mut i: usize = 0;
    while i < len
        invariant
            i <= len,
            out@ == start + Seq::new(i as nat, |k: int| b),
        decreases len - i,
    {
        out.push(b);
        i = i + 1;
        assert(out@ =~= start + Seq::new(i as nat, |k: int| b));
    }
}

/// Appends `len` bytes that copy the output from `src` on, reading what
/// the copy writes once it catches up with the end.
pub fn push_repeat(out: &mut Vec<u8>, src: usize, len: usize)
    requires
        src < old(out)@.len(),
    ensures
        final(out)@ == old(out)@ + spec_repeat(old(out)@, src as int, len as int),
{
    let ghost start = out@;
    let ghost d = start.len() - src;
    let mut i: usize = 0;
    while i < len
        invariant
            i <= len,
            src < start.len(),
            d == start.len() - src,
            out@ == start + spec_repeat(start, src as int, i as int),
            out@.len() == start.len() + i,
        decreases len - i,
    {
        proof {
            lemma_repeat_step(start, src as int, i as int);
        }
        let n = out.len();
        assert(src + i < n);
        let b = out[src + i];
        out.push(b);
        i = i + 1;
        assert(out@ =~= start + spec_repeat(start, src as int, i as int));
    }
}

/// The byte a repeating copy reads at its `i`th step is the one its
/// pattern gives for that step.
pub proof fn lemma_repeat_step(start: Seq<u8>, src: int, i: int)
    requires
        0 <= src < start.len(),
        0 <= i,
    ensures
        (start + spec_repeat(start, src, i))[src + i] == start[src + i % (start.len() - src)],
{
    let d = start.len() - src;
    if src + i < start.len() {
        assert(i % d == i) by {
            vstd::arithmetic::div_mod::lemma_small_mod(i as nat, d as nat);
        }
    } else {
        let j = src + i - start.len();
        assert((i - d) % d == i % d) by {
            vstd::arithmetic::div_mod::lemma_mod_sub_multiples_vanish(i, d);
        }
        assert(j == i - d);
    }
}

/// A copy that repeats what it matched gives the target's own bytes.
pub proof fn lemma_repeat_matches(target: Seq<u8>, from: int, out: int, len: int)
    requires
        0 <= from < out,
        0 <= len,
        out + len <= target.len(),
        forall|k: int| 0 <= k < len ==> #[trigger] target[from + k] == target[out + k],
    ensures
        spec_repeat(target.subrange(0, out), from, len) =~= target.subrange(out, out + len),
{
    let written = target.subrange(0, out);
    let d = out - from;
    assert(written.len() == out);
    assert forall|j: int| 0 <= j < len implies #[trigger] spec_repeat(written, from, len)[j] == target.subrange(out, out + len)[j] by {
        lemma_repeat_index(target, from, out, len, j);
        vstd::arithmetic::div_mod::lemma_mod_bound(j, d);
        let i = from + j % d;
        assert(0 <= i < out);
        assert(written[i] == target[i]);
        assert(spec_repeat(written, from, len)[j] == written[from + j % (written.len() - from)]);
        assert(target.subrange(out, out + len)[j] == target[out + j]);
    }
    assert(spec_repeat(written, from, len).len() == len);
}

pub proof fn lemma_repeat_index(target: Seq<u8>, from: int, out: int, len: int, j: int)
    requires
        0 <= from < out,
        out + len <= target.len(),
        forall|k: int| 0 <= k < len ==> #[trigger] target[from + k] == target[out + k],
        0 <= j < len,
    ensures
        target[from + j % (out - from)] == target[out + j],
    decreases j,
{
    let d = out - from;
    if j < d {
        vstd::arithmetic::div_mod::lemma_small_mod(j as nat, d as nat);
    } else {
        lemma_repeat_index(target, from, out, len, j - d);
        vstd::arithmetic::div_mod::lemma_mod_sub_multiples_vanish(j, d);
        assert(target[from + j] == target[out + j]);
        assert(from + j == out + (j - d));
    }
}

/// Decompresses one stream from the start of `input`. Commands 0 (direct
/// copy), 1 (byte fill), and 2 (word fill) are the same in both formats;
/// the format's own routine does the rest.
pub fn decompress(fmt: Format, input: &[u8]) -> (r: Result<Decompressed, LzError>)
    ensures
        matches_spec(r, spec_decompress(fmt, input@)),
{
    let mut out: Vec<u8> = Vec::new();
    let mut reader = Reader { input, pos: 0 };
    loop
        invariant
            reader.input@ == input@,
            reader.pos <= input@.len(),
            out@.len() <= MAX_OUTPUT,
            spec_decompress(fmt, input@) == spec_decompress_from(
                fmt,
                input@,
                reader.pos as int,
                out@,
            ),
        decreases input@.len() - reader.pos,
    {
        let ghost pos0 = reader.pos as int;
        let ghost out0 = out@;
        let start = reader.pos;
        let chunk = reader.chunk();
        let (cmd, len) = match chunk {
            Err(e) => {
                return Err(e);
            },
            Ok(None) => {
                return Ok(Decompressed { data: out, consumed: reader.pos });
            },
            Ok(Some(c)) => c,
        };
        let ghost next = reader.pos as int;
        assert(spec_chunk(input@, pos0) == Ok::<Option<(u8, int, int)>, LzError>(Some((cmd, len as int, next))));
        if out.len() + len > MAX_OUTPUT {
            return Err(LzError::TooLarge);
        }
        match cmd {
            0 => {
                if len > input.len() - reader.pos {
                    return Err(LzError::Truncated(input.len()));
                }
                let from = slice_range(input, reader.pos, reader.pos + len);
                append_slice(&mut out, from);
                reader.pos = reader.pos + len;
                assert(spec_common(input@, cmd, len as int, next) == Ok::<(int, Seq<u8>), LzError>((reader.pos as int, from@)));
                assert(spec_command(fmt, input@, cmd, len as int, pos0, next, out0) == Ok::<(int, Seq<u8>), LzError>((reader.pos as int, out@)));
            },
            1 => {
                let b = reader.byte()?;
                push_fill(&mut out, b, len);
                assert(spec_common(input@, cmd, len as int, next) == Ok::<(int, Seq<u8>), LzError>((reader.pos as int, Seq::new(len as nat, |i: int| b))));
                assert(spec_command(fmt, input@, cmd, len as int, pos0, next, out0) == Ok::<(int, Seq<u8>), LzError>((reader.pos as int, out@)));
            },
            2 => {
                let b0 = reader.byte()?;
                let b1 = reader.byte()?;
                push_pair(&mut out, b0, b1, len);
                assert(Seq::new(len as nat, |i: int| if i % 2 == 0 { b0 } else { b1 }) =~= Seq::new(len as nat, |i: int| if i % 2 == 0 { input@[next] } else { input@[next + 1] }));
                assert(spec_command(fmt, input@, cmd, len as int, pos0, next, out0) == Ok::<(int, Seq<u8>), LzError>((reader.pos as int, out@)));
            },
            _ => {
                let ok = match fmt {
                    Format::Lz2 => lz2::command(cmd, len, start, &mut reader, &mut out)?,
                    Format::Lz3 => lz3::command(cmd, len, start, &mut reader, &mut out)?,
                };
                if !ok {
                    return Err(LzError::BadCommand { cmd, offset: start });
                }
                assert(spec_command(fmt, input@, cmd, len as int, pos0, next, out0) == Ok::<(int, Seq<u8>), LzError>((reader.pos as int, out@)));
            },
        }
        assert(spec_command(fmt, input@, cmd, len as int, pos0, next, out0) == Ok::<(int, Seq<u8>), LzError>((reader.pos as int, out@)));
        assert(pos0 < reader.pos <= input@.len());
        assert(out@.len() <= MAX_OUTPUT);
    }
}

/// Appends `len` bytes alternating between `b0` and `b1`.
pub fn push_pair(out: &mut Vec<u8>, b0: u8, b1: u8, len: usize)
    ensures
        final(out)@ == old(out)@ + Seq::new(
            len as nat,
            |i: int|
                if i % 2 == 0 {
                    b0
                } else {
                    b1
                },
        ),
{
    let ghost start = out@;
    let mut i: usize = 0;
    while i < len
        invariant
            i <= len,
            out@ == start + Seq::new(
                i as nat,
                |k: int|
                    if k % 2 == 0 {
                        b0
                    } else {
                        b1
                    },
            ),
        decreases len - i,
    {
        if i % 2 == 0 {
            out.push(b0);
        } else {
            out.push(b1);
        }
        i = i + 1;
        assert(out@ =~= start + Seq::new(
            i as nat,
            |k: int|
                if k % 2 == 0 {
                    b0
                } else {
                    b1
                },
        ));
    }
}

/// The bytes of `s` from `from` up to `to`.
pub fn slice_range(s: &[u8], from: usize, to: usize) -> (r: &[u8])
    requires
        from <= to <= s@.len(),
    ensures
        r@ == s@.subrange(from as int, to as int),
{
    vstd::slice::slice_subrange(s, from, to)
}

/// Writes a chunk header for a command and a length of 1 to 1024: short
/// up to 32 bytes, long above.
pub fn write_header(out: &mut Vec<u8>, cmd: u8, len: usize)
    requires
        cmd < 7,
        1 <= len <= LONG_LEN,
    ensures
        final(out)@ == old(out)@ + spec_header(cmd, len as int),
{
    let n = len - 1;
    if len <= SHORT_LEN {
        out.push(cmd * 32 + n as u8);
    } else {
        let hi = (n / 256) as u8;
        let lo = (n % 256) as u8;
        out.push(0xE0 + cmd * 4 + hi);
        out.push(lo);
    }
}

/// The header bytes of a chunk.
pub open spec fn spec_header(cmd: u8, len: int) -> Seq<u8> {
    if len <= SHORT_LEN {
        seq![(cmd * 32 + (len - 1)) as u8]
    } else {
        seq![(0xE0 + cmd * 4 + (len - 1) / 256) as u8, ((len - 1) % 256) as u8]
    }
}

} // verus!
