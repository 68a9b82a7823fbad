//! LC_LZ2, the compression SMW uses for GFX files and other assets.
//!
//! Commands (see [`super`] for the chunk headers):
//! 0 direct copy, 1 byte fill, 2 word fill, 3 incrementing fill, 4 copy
//! from an earlier point in the output (big-endian 16-bit offset).

use vstd::prelude::*;

use super::{
    Decompressed, Format, LONG_LEN, LzError, MAX_OUTPUT, Reader, SHORT_LEN, append_slice,
    matches_spec, push_repeat, slice_range, spec_chunk, spec_common, spec_decompress,
    spec_decompress_from, spec_header, spec_repeat, write_header,
};
use super::suffix::{Match, capped_lcp, lemma_lcp, lemma_lcp_at_least, longest_matches, matches_valid};

verus! {

pub const DIRECT_COPY: u8 = 0;
pub const BYTE_FILL: u8 = 1;
pub const WORD_FILL: u8 = 2;
pub const INCREMENTING_FILL: u8 = 3;
pub const BACK_REFERENCE: u8 = 4;

/// What commands 3 and up do: an incrementing fill and a copy from an
/// earlier point in the output, which may overlap what it writes.
pub open spec fn spec_command(
    input: Seq<u8>,
    cmd: u8,
    len: int,
    start: int,
    pos: int,
    out: Seq<u8>,
) -> Result<(int, Seq<u8>), LzError> {
    if cmd == 3 {
        if pos < input.len() {
            Ok((pos + 1, out + Seq::new(len as nat, |i: int| ((input[pos] + i) % 256) as u8)))
        } else {
            Err(LzError::Truncated(pos as usize))
        }
    } else if cmd == 4 {
        if pos >= input.len() {
            Err(LzError::Truncated(pos as usize))
        } else if pos + 1 >= input.len() {
            Err(LzError::Truncated((pos + 1) as usize))
        } else {
            let src = input[pos] * 256 + input[pos + 1];
            if src >= out.len() {
                Err(
                    LzError::BadBackRef {
                        src: src as usize,
                        len: out.len() as usize,
                        offset: start as usize,
                    },
                )
            } else {
                Ok((pos + 2, out + spec_repeat(out, src, len)))
            }
        }
    } else {
        Err(LzError::BadCommand { cmd, offset: start as usize })
    }
}

/// Runs command 3 or 4; `Ok(false)` for a command LC_LZ2 does not have.
pub fn command(
    cmd: u8,
    len: usize,
    start: usize,
    reader: &mut Reader,
    out: &mut Vec<u8>,
) -> (r: Result<bool, LzError>)
    requires
        3 <= cmd,
        old(reader).pos <= old(reader).input@.len(),
    ensures
        final(reader).input@ == old(reader).input@,
        match (r, spec_command(old(reader).input@, cmd, len as int, start as int, old(reader).pos as int, old(out)@)) {
            (Ok(true), Ok((p, o))) => final(reader).pos == p && final(out)@ == o
                && old(reader).pos <= p <= old(reader).input@.len()
                && o.len() == old(out)@.len() + len,
            (Ok(false), Err(e)) => e == LzError::BadCommand { cmd, offset: start },
            (Err(e), Err(e2)) => e == e2,
            _ => false,
        },
{
    if cmd == 3 {
        let b = reader.byte()?;
        let ghost start_out = out@;
        let mut i: usize = 0;
        while i < len
            invariant
                i <= len,
                out@ == start_out + Seq::new(i as nat, |k: int| ((b + k) % 256) as u8),
            decreases len - i,
        {
            out.push(b.wrapping_add((i % 256) as u8));
            proof {
                assert(b.wrapping_add((i % 256) as u8) == ((b + i) % 256) as u8);
            }
            i = i + 1;
            assert(out@ =~= start_out + Seq::new(i as nat, |k: int| ((b + k) % 256) as u8));
        }
        Ok(true)
    } else if cmd == 4 {
        let hi = reader.byte()?;
        let lo = reader.byte()?;
        let src = (hi as usize) * 256 + lo as usize;
        if src >= out.len() {
            return Err(LzError::BadBackRef { src, len: out.len(), offset: start });
        }
        push_repeat(out, src, len);
        Ok(true)
    } else {
        Ok(false)
    }
}

/// Decompresses one LC_LZ2 stream from the start of `input`. Trailing
/// bytes after the terminator are ignored.
pub fn decompress(input: &[u8]) -> (r: Result<Decompressed, LzError>)
    ensures
        matches_spec(r, spec_decompress(Format::Lz2, input@)),
{
    super::decompress(Format::Lz2, input)
}


// --- Compression -------------------------------------------------------

/// Whether a chunk of command `cmd` and length `len` can stand at `i` of
/// `data`: a fill repeats what it says, and a back-reference (from `src`)
/// copies bytes that equal the ones at `i`.
pub open spec fn chunk_fits(data: Seq<u8>, i: int, cmd: u8, len: int, src: int) -> bool {
    &&& 1 <= len <= LONG_LEN
    &&& 0 <= i
    &&& i + len <= data.len()
    &&& cmd <= 4
    &&& cmd == BYTE_FILL ==> forall|k: int| 0 <= k < len ==> #[trigger] data[i + k] == data[i]
    &&& cmd == WORD_FILL ==> i + 2 <= data.len() && forall|k: int|
        0 <= k < len ==> #[trigger] data[i + k] == data[i + k % 2]
    &&& cmd == INCREMENTING_FILL ==> forall|k: int|
        0 <= k < len ==> #[trigger] data[i + k] == ((data[i] + k) % 256) as u8
    &&& cmd == BACK_REFERENCE ==> 0 <= src < i && forall|k: int|
        0 <= k < len ==> #[trigger] data[src + k] == data[i + k]
}

/// The bytes of a chunk: its header, then the copied bytes, the fill's
/// operand, or the big-endian offset of a back-reference.
pub open spec fn chunk_bytes(data: Seq<u8>, i: int, cmd: u8, len: int, src: int) -> Seq<u8> {
    spec_header(cmd, len) + if cmd == DIRECT_COPY {
        data.subrange(i, i + len)
    } else if cmd == BYTE_FILL || cmd == INCREMENTING_FILL {
        seq![data[i]]
    } else if cmd == WORD_FILL {
        seq![data[i], data[i + 1]]
    } else {
        seq![(src / 256) as u8, (src % 256) as u8]
    }
}

/// A chunk as written: command, length, back-reference source, where its
/// bytes start in the stream, and where it starts in the data.
pub type Written = (u8, int, int, int, int);

pub open spec fn written_bytes(data: Seq<u8>, w: Written) -> Seq<u8> {
    chunk_bytes(data, w.4, w.0, w.1, w.2)
}

/// Each chunk in `log` fits and stands in `out` as written, one after the
/// other from the start of both.
pub open spec fn log_ok(data: Seq<u8>, out: Seq<u8>, log: Seq<Written>) -> bool {
    &&& forall|k: int| 0 <= k < log.len() ==> {
        let w = #[trigger] log[k];
        &&& chunk_fits(data, w.4, w.0, w.1, w.2)
        &&& 0 <= w.3
        &&& w.3 + written_bytes(data, w).len() <= out.len()
        &&& out.subrange(w.3, w.3 + written_bytes(data, w).len()) == written_bytes(data, w)
    }
    &&& log.len() > 0 ==> log[0].3 == 0 && log[0].4 == 0
    &&& forall|k: int| 0 <= k < log.len() - 1 ==> {
        &&& (#[trigger] log[k + 1]).3 == log[k].3 + written_bytes(data, log[k]).len()
        &&& log[k + 1].4 == log[k].4 + log[k].1
    }
}

/// Where the chunks of `log` end: in the stream and in the data.
pub open spec fn log_end(data: Seq<u8>, log: Seq<Written>) -> (int, int) {
    if log.len() == 0 {
        (0, 0)
    } else {
        let w = log.last();
        (w.3 + written_bytes(data, w).len(), w.4 + w.1)
    }
}

proof fn lemma_log_extend(data: Seq<u8>, out: Seq<u8>, more: Seq<u8>, log: Seq<Written>)
    requires
        log_ok(data, out, log),
    ensures
        log_ok(data, out + more, log),
{
    assert forall|k: int| 0 <= k < log.len() implies {
        let w = #[trigger] log[k];
        &&& chunk_fits(data, w.4, w.0, w.1, w.2)
        &&& 0 <= w.3
        &&& w.3 + written_bytes(data, w).len() <= (out + more).len()
        &&& (out + more).subrange(w.3, w.3 + written_bytes(data, w).len()) == written_bytes(data, w)
    } by {
        let w = log[k];
        assert((out + more).subrange(w.3, w.3 + written_bytes(data, w).len()) =~= out.subrange(
            w.3,
            w.3 + written_bytes(data, w).len(),
        ));
    }
}

/// A chunk header reads back as its command and length.
proof fn lemma_header_decodes(s: Seq<u8>, at: int, cmd: u8, len: int)
    requires
        cmd <= 4,
        1 <= len <= LONG_LEN,
        0 <= at,
        at + spec_header(cmd, len).len() <= s.len(),
        s.subrange(at, at + spec_header(cmd, len).len()) == spec_header(cmd, len),
    ensures
        spec_chunk(s, at) == Ok::<Option<(u8, int, int)>, LzError>(
            Some((cmd, len, at + spec_header(cmd, len).len())),
        ),
{
    let head = spec_header(cmd, len);
    assert(s[at] == head[0]) by {
        assert(s.subrange(at, at + head.len())[0] == s[at]);
    }
    let h = s[at];
    if len <= SHORT_LEN {
        assert(h / 32 == cmd && h % 32 + 1 == len && h != 0xFF);
    } else {
        assert(s[at + 1] == head[1]) by {
            assert(s.subrange(at, at + head.len())[1] == s[at + 1]);
        }
        let hi = (len - 1) / 256;
        assert(h == (0xE0 + cmd * 4 + hi) as u8);
        assert(h / 32 == 7 && (h / 4) % 8 == cmd && h % 4 == hi && h != 0xFF);
        assert((h % 4) * 256 + s[at + 1] + 1 == len);
    }
}

/// A fitting chunk's operands, read from `p`, add its bytes to the output.
#[verifier::rlimit(40)]
proof fn lemma_operand_decodes(data: Seq<u8>, s: Seq<u8>, w: Written, p: int)
    requires
        chunk_fits(data, w.4, w.0, w.1, w.2),
        data.len() <= MAX_OUTPUT,
        0 <= w.3,
        p == w.3 + spec_header(w.0, w.1).len(),
        w.3 + written_bytes(data, w).len() <= s.len(),
        s.subrange(w.3, w.3 + written_bytes(data, w).len()) == written_bytes(data, w),
    ensures
        super::spec_command(Format::Lz2, s, w.0, w.1, w.3, p, data.subrange(0, w.4)) == Ok::<
            (int, Seq<u8>),
            LzError,
        >((w.3 + written_bytes(data, w).len(), data.subrange(0, w.4 + w.1))),
{
    let (cmd, len, src, at, i) = w;
    let bytes = written_bytes(data, w);
    let hl = spec_header(cmd, len).len() as int;
    let out = data.subrange(0, i);
    let after = data.subrange(0, i + len);
    assert forall|k: int| 0 <= k < bytes.len() implies #[trigger] s[at + k] == bytes[k] by {
        assert(s.subrange(at, at + bytes.len())[k] == s[at + k]);
    }
    if cmd == DIRECT_COPY {
        assert(s.subrange(p, p + len) =~= data.subrange(i, i + len)) by {
            assert forall|k: int| 0 <= k < len implies #[trigger] s.subrange(p, p + len)[k] == data.subrange(i, i + len)[k] by {
                assert(s[at + (hl + k)] == bytes[hl + k]);
            }
        }
        assert(out + s.subrange(p, p + len) =~= after);
    } else if cmd == BYTE_FILL {
        assert(s[at + hl] == bytes[hl]);
        let fill = Seq::new(len as nat, |k: int| s[p]);
        assert(out + fill =~= after) by {
            assert forall|k: int| 0 <= k < after.len() implies #[trigger] (out + fill)[k] == after[k] by {
                if k >= i {
                    assert(data[i + (k - i)] == data[i]);
                }
            }
        }
    } else if cmd == WORD_FILL {
        assert(s[at + hl] == bytes[hl]);
        assert(s[at + (hl + 1)] == bytes[hl + 1]);
        let word = Seq::new(len as nat, |k: int| if k % 2 == 0 { s[p] } else { s[p + 1] });
        assert(out + word =~= after) by {
            assert forall|k: int| 0 <= k < after.len() implies #[trigger] (out + word)[k] == after[k] by {
                if k >= i {
                    let j = k - i;
                    assert(data[i + j] == data[i + j % 2]);
                }
            }
        }
    } else if cmd == INCREMENTING_FILL {
        assert(s[at + hl] == bytes[hl]);
        let inc = Seq::new(len as nat, |k: int| ((s[p] + k) % 256) as u8);
        assert(out + inc =~= after) by {
            assert forall|k: int| 0 <= k < after.len() implies #[trigger] (out + inc)[k] == after[k] by {
                if k >= i {
                    assert(data[i + (k - i)] == ((data[i] + (k - i)) % 256) as u8);
                }
            }
        }
    } else {
        assert(s[at + hl] == bytes[hl]);
        assert(s[at + (hl + 1)] == bytes[hl + 1]);
        assert(src < 0x1_0000);
        assert(s[p] * 256 + s[p + 1] == src);
        crate::compress::lemma_repeat_matches(data, src, i, len);
        assert(out + spec_repeat(out, src, len) =~= after);
    }
}

/// Decoding one fitting chunk of a stream adds its bytes to the output and
/// moves past it.
proof fn lemma_chunk_decodes(data: Seq<u8>, s: Seq<u8>, w: Written)
    requires
        chunk_fits(data, w.4, w.0, w.1, w.2),
        data.len() <= MAX_OUTPUT,
        0 <= w.3,
        w.3 + written_bytes(data, w).len() < s.len(),
        s.subrange(w.3, w.3 + written_bytes(data, w).len()) == written_bytes(data, w),
    ensures
        spec_decompress_from(Format::Lz2, s, w.3, data.subrange(0, w.4)) == spec_decompress_from(
            Format::Lz2,
            s,
            w.3 + written_bytes(data, w).len(),
            data.subrange(0, w.4 + w.1),
        ),
{
    let (cmd, len, src, at, i) = w;
    let bytes = written_bytes(data, w);
    let head = spec_header(cmd, len);
    assert(s.subrange(at, at + head.len()) =~= head) by {
        assert(s.subrange(at, at + head.len()) =~= s.subrange(at, at + bytes.len()).subrange(0, head.len() as int));
        assert(bytes.subrange(0, head.len() as int) =~= head);
    }
    lemma_header_decodes(s, at, cmd, len);
    lemma_operand_decodes(data, s, w, at + head.len());
}

/// From any chunk of the log on, the stream decodes to the rest of the data
/// and ends just past its terminator.
proof fn lemma_log_decodes(data: Seq<u8>, out: Seq<u8>, log: Seq<Written>, k: int)
    requires
        log_ok(data, out, log),
        data.len() <= MAX_OUTPUT,
        log_end(data, log) == ((out.len() - 1) as int, data.len() as int),
        out.len() >= 1,
        out.last() == 0xFF,
        0 <= k <= log.len(),
    ensures
        ({
            let (at, i) = if k < log.len() {
                (log[k].3, log[k].4)
            } else {
                log_end(data, log)
            };
            spec_decompress_from(Format::Lz2, out, at, data.subrange(0, i)) == Ok::<
                (Seq<u8>, int),
                LzError,
            >((data, out.len() as int))
        }),
    decreases log.len() - k,
{
    if k == log.len() {
        assert(data.subrange(0, data.len() as int) =~= data);
        assert(spec_chunk(out, out.len() - 1) == Ok::<Option<(u8, int, int)>, LzError>(None));
    } else {
        let w = log[k];
        lemma_log_ends_before(data, out, log, k);
        lemma_chunk_decodes(data, out, w);
        lemma_log_decodes(data, out, log, k + 1);
        if k + 1 < log.len() {
            assert(log[k + 1].3 == w.3 + written_bytes(data, w).len());
        }
    }
}

/// Every chunk of the log ends by where the last one does.
proof fn lemma_log_ends_before(data: Seq<u8>, out: Seq<u8>, log: Seq<Written>, k: int)
    requires
        log_ok(data, out, log),
        0 <= k < log.len(),
    ensures
        log[k].3 + written_bytes(data, log[k]).len() <= log_end(data, log).0,
        log[k].4 + log[k].1 <= log_end(data, log).1,
    decreases log.len() - k,
{
    if k + 1 < log.len() {
        lemma_log_ends_before(data, out, log, k + 1);
        assert(log[k + 1].3 == log[k].3 + written_bytes(data, log[k]).len());
        assert(chunk_fits(data, log[k + 1].4, log[k + 1].0, log[k + 1].1, log[k + 1].2));
    }
}


/// How far each fill could reach from each position.
struct Runs {
    /// Bytes equal to the one at the position.
    byte: Vec<usize>,
    /// Bytes each one more than the last, wrapping at 256.
    incrementing: Vec<usize>,
    /// Bytes from the position on equal to the one two before them.
    repeats_two_back: Vec<usize>,
}

impl Runs {
    /// Each run of `runs` holds from its position, within `data`.
    spec fn wf(self, data: Seq<u8>) -> bool {
        let n = data.len() as int;
        &&& self.byte@.len() == n + 1
        &&& self.incrementing@.len() == n + 1
        &&& self.repeats_two_back@.len() == n + 1
        &&& forall|i: int| 0 <= i < n ==> {
            &&& 1 <= #[trigger] self.byte@[i] <= n - i
            &&& forall|k: int| 0 <= k < self.byte@[i] ==> #[trigger] data[i + k] == data[i]
        }
        &&& forall|i: int| 0 <= i < n ==> {
            &&& 1 <= #[trigger] self.incrementing@[i] <= n - i
            &&& forall|k: int|
                0 <= k < self.incrementing@[i] ==> #[trigger] data[i + k] == ((data[i] + k) % 256) as u8
        }
        &&& forall|i: int| 0 <= i <= n ==> {
            &&& #[trigger] self.repeats_two_back@[i] <= n - i
            &&& self.repeats_two_back@[i] > 0 ==> i >= 2
            &&& forall|k: int|
                0 <= k < self.repeats_two_back@[i] ==> #[trigger] data[i + k] == data[i + k - 2]
        }
        &&& forall|i: int|
            0 <= i < n ==> i + #[trigger] self.byte@[i] == n || data[i + self.byte@[i]] != data[i]
        &&& forall|i: int|
            0 <= i < n ==> i + #[trigger] self.incrementing@[i] == n || data[i
                + self.incrementing@[i]] != ((data[i] + self.incrementing@[i]) % 256) as u8
        &&& forall|i: int|
            2 <= i <= n ==> i + #[trigger] self.repeats_two_back@[i] == n || data[i
                + self.repeats_two_back@[i]] != data[i + self.repeats_two_back@[i] - 2]
    }

    #[verifier::rlimit(40)]
    fn new(data: &[u8]) -> (runs: Self)
        requires
            data@.len() <= MAX_OUTPUT,
        ensures
            runs.wf(data@),
    {
        let n = data.len();
        let mut byte: Vec<usize> = Vec::new();
        let mut incrementing: Vec<usize> = Vec::new();
        let mut repeats_two_back: Vec<usize> = Vec::new();
        let mut j: usize = 0;
        while j <= n
            invariant
                j <= n + 1,
                n == data@.len(),
                n <= MAX_OUTPUT,
                byte@.len() == j,
                incrementing@.len() == j,
                repeats_two_back@.len() == j,
                forall|t: int| 0 <= t < j ==> #[trigger] repeats_two_back@[t] == 0,
            decreases n + 1 - j,
        {
            byte.push(0);
            incrementing.push(0);
            repeats_two_back.push(0);
            j = j + 1;
        }
        let mut i = n;
        while i > 0
            invariant
                i <= n,
                n == data@.len(),
                n <= MAX_OUTPUT,
                byte@.len() == n + 1,
                incrementing@.len() == n + 1,
                repeats_two_back@.len() == n + 1,
                repeats_two_back@[n as int] == 0,
                forall|t: int| 0 <= t < i ==> #[trigger] repeats_two_back@[t] == 0,
                forall|t: int| i <= t < n ==> {
                    &&& 1 <= #[trigger] byte@[t] <= n - t
                    &&& forall|k: int| 0 <= k < byte@[t] ==> #[trigger] data@[t + k] == data@[t]
                },
                forall|t: int| i <= t < n ==> {
                    &&& 1 <= #[trigger] incrementing@[t] <= n - t
                    &&& forall|k: int|
                        0 <= k < incrementing@[t] ==> #[trigger] data@[t + k] == ((data@[t] + k) % 256) as u8
                },
                forall|t: int| i <= t <= n ==> {
                    &&& #[trigger] repeats_two_back@[t] <= n - t
                    &&& repeats_two_back@[t] > 0 ==> t >= 2
                    &&& forall|k: int|
                        0 <= k < repeats_two_back@[t] ==> #[trigger] data@[t + k] == data@[t + k - 2]
                },
                forall|t: int|
                    i <= t < n ==> t + #[trigger] byte@[t] == n || data@[t + byte@[t]] != data@[t],
                forall|t: int|
                    i <= t < n ==> t + #[trigger] incrementing@[t] == n || data@[t
                        + incrementing@[t]] != ((data@[t] + incrementing@[t]) % 256) as u8,
                forall|t: int|
                    i <= t <= n && 2 <= t ==> t + #[trigger] repeats_two_back@[t] == n || data@[t
                        + repeats_two_back@[t]] != data@[t + repeats_two_back@[t] - 2],
            decreases i,
        {
            i = i - 1;
            let b = data[i];
            let same = i + 1 < n && data[i + 1] == b;
            let mut run: usize = if same { byte[i + 1] } else { 0 };
            run = run + 1;
            proof {
                if same {
                    assert forall|k: int| 0 <= k < run implies #[trigger] data@[i + k] == data@[i as int] by {
                        if k > 0 {
                            assert(data@[(i + 1) + (k - 1)] == data@[i + 1]);
                        }
                    }
                }
            }
            byte.set(i, run);
            let up = i + 1 < n && data[i + 1] == b.wrapping_add(1);
            let mut inc: usize = if up { incrementing[i + 1] } else { 0 };
            inc = inc + 1;
            proof {
                assert(b.wrapping_add(1) == ((b + 1) % 256) as u8);
                if up {
                    assert forall|k: int| 0 <= k < inc implies #[trigger] data@[i + k] == ((data@[i as int] + k) % 256) as u8 by {
                        if k > 0 {
                            let c = data@[i + 1];
                            assert(data@[(i + 1) + (k - 1)] == ((c + (k - 1)) % 256) as u8);
                            assert(c == ((b + 1) % 256) as u8);
                            assert(((((b + 1) % 256) as u8) + (k - 1)) % 256 == (b + k) % 256) by {
                                vstd::arithmetic::div_mod::lemma_add_mod_noop(b + 1, k - 1, 256);
                                vstd::arithmetic::div_mod::lemma_mod_twice(b + 1, 256);
                            }
                        }
                    }
                }
            }
            incrementing.set(i, inc);
            if i >= 2 && data[i] == data[i - 2] {
                let r = repeats_two_back[i + 1] + 1;
                proof {
                    assert forall|k: int| 0 <= k < r implies #[trigger] data@[i + k] == data@[i + k - 2] by {
                        if k > 0 {
                            assert(data@[(i + 1) + (k - 1)] == data@[(i + 1) + (k - 1) - 2]);
                        }
                    }
                }
                repeats_two_back.set(i, r);
            }
        }
        let runs = Runs { byte, incrementing, repeats_two_back };
        runs
    }

    /// How far a word fill from `i` could reach.
    spec fn word_reach(self, i: int) -> int {
        if i + 2 < self.repeats_two_back@.len() {
            2 + self.repeats_two_back@[i + 2]
        } else {
            0
        }
    }

    /// A word fill's operand is the two bytes from the position, so it
    /// needs both to be there.
    fn word(&self, i: usize, data: Ghost<Seq<u8>>) -> (reach: usize)
        requires
            self.wf(data@),
            i < data@.len(),
            data@.len() <= MAX_OUTPUT,
        ensures
            reach == self.word_reach(i as int),
            reach <= data@.len() - i,
            reach > 0 ==> i + 2 <= data@.len() && forall|k: int|
                0 <= k < reach ==> #[trigger] data@[i + k] == data@[i + k % 2],
    {
        if i + 2 < self.repeats_two_back.len() {
            let repeats = self.repeats_two_back[i + 2];
            proof {
                assert forall|k: int| 0 <= k < 2 + repeats implies #[trigger] data@[i + k] == data@[i + k % 2] by {
                    lemma_word_repeats(data@, self.repeats_two_back@[i + 2], i as int, k);
                }
            }
            2 + repeats
        } else {
            0
        }
    }
}

proof fn lemma_word_repeats(data: Seq<u8>, repeats: usize, i: int, k: int)
    requires
        0 <= i,
        0 <= k < 2 + repeats,
        i + 2 + repeats <= data.len(),
        forall|t: int| 0 <= t < repeats ==> #[trigger] data[(i + 2) + t] == data[(i + 2) + t - 2],
    ensures
        data[i + k] == data[i + k % 2],
    decreases k,
{
    if k >= 2 {
        lemma_word_repeats(data, repeats, i, k - 2);
        assert(data[(i + 2) + (k - 2)] == data[(i + 2) + (k - 2) - 2]);
        assert((k - 2) % 2 == k % 2) by {
            vstd::arithmetic::div_mod::lemma_mod_sub_multiples_vanish(k, 2);
        }
    }
}

/// The low bits of a key, where a position is kept.
pub const POS_MASK: u64 = 0x1_FFFF;

/// The position a range-query key was made for.
pub open spec fn key_pos(key: u64) -> int {
    POS_MASK - key % 0x2_0000
}

/// Packs what a range query compares: bytes to the end, then chunks, then
/// the later position first. Positions and chunk counts fit in 17 bits.
fn key(bytes: usize, chunks: usize, pos: usize) -> (k: u64)
    requires
        bytes < 0x4000_0000,
        chunks <= POS_MASK,
        pos <= POS_MASK,
    ensures
        k == bytes * 0x4_0000_0000 + chunks * 0x2_0000 + (POS_MASK - pos),
        key_pos(k) == pos,
{
    let b = bytes as u64;
    let c = chunks as u64;
    let p = POS_MASK - pos as u64;
    assert((b * 0x4_0000_0000 + c * 0x2_0000 + p) % 0x2_0000 == p) by (nonlinear_arith)
        requires
            b < 0x4000_0000,
            c <= 0x1_FFFF,
            p <= 0x1_FFFF,
    ;
    b * 0x4_0000_0000 + c * 0x2_0000 + p
}

fn end_of(key: u64) -> (pos: usize)
    requires
        key_pos(key) <= MAX_OUTPUT,
    ensures
        pos == key_pos(key),
{
    (POS_MASK - key % 0x2_0000) as usize
}

/// Widths of the levels of a [`RangeMin`]: `2^k` for level `k`.
pub open spec fn span(k: int) -> int
    decreases k,
{
    if k <= 0 {
        1
    } else {
        2 * span(k - 1)
    }
}

/// Levels `0` to `10`, enough for a range of up to 1024.
pub const LEVELS: usize = 11;

/// Where level `k`'s entry for position `p` is kept.
pub open spec fn slot(len: int, k: int, p: int) -> int {
    k * len + p
}

/// Each level and position has a slot of its own, within the table.
proof fn lemma_slots(len: int, k: int, p: int, k2: int, p2: int)
    requires
        0 <= k < LEVELS,
        0 <= k2 < LEVELS,
        0 <= p < len,
        0 <= p2 < len,
    ensures
        0 <= slot(len, k, p) < LEVELS * len,
        slot(len, k, p) == slot(len, k2, p2) <==> (k == k2 && p == p2),
{
    assert(0 <= k * len + p < LEVELS * len) by (nonlinear_arith)
        requires
            0 <= k < LEVELS,
            0 <= p < len,
    ;
    if k != k2 {
        assert(k * len + p != k2 * len + p2) by (nonlinear_arith)
            requires
                k != k2,
                0 <= p < len,
                0 <= p2 < len,
        ;
    }
}

/// The lesser of two keys.
pub open spec fn min_key(a: u64, b: u64) -> u64 {
    if b < a {
        b
    } else {
        a
    }
}

/// The least of the keys from `a` up to `b`, `b` excluded.
pub open spec fn range_min(keys: Seq<u64>, a: int, b: int) -> u64
    decreases b - a,
{
    if b <= a + 1 {
        keys[a]
    } else {
        min_key(range_min(keys, a, b - 1), keys[b - 1])
    }
}

/// The least of a range is one of its keys and no greater than any.
proof fn lemma_range_min(keys: Seq<u64>, a: int, b: int)
    requires
        a < b,
    ensures
        forall|q: int| a <= q < b ==> range_min(keys, a, b) <= #[trigger] keys[q],
        exists|q: int| a <= q < b && #[trigger] keys[q] == range_min(keys, a, b),
    decreases b - a,
{
    if b > a + 1 {
        lemma_range_min(keys, a, b - 1);
        let q = choose|q: int| a <= q < b - 1 && #[trigger] keys[q] == range_min(keys, a, b - 1);
        if keys[b - 1] < range_min(keys, a, b - 1) {
            assert(keys[b - 1] == range_min(keys, a, b));
        } else {
            assert(keys[q] == range_min(keys, a, b));
        }
    } else {
        assert(keys[a] == range_min(keys, a, b));
    }
}

/// The least of a range is the lesser of the least of its two halves.
proof fn lemma_range_min_split(keys: Seq<u64>, a: int, b: int, c: int)
    requires
        a < b < c,
    ensures
        range_min(keys, a, c) == min_key(range_min(keys, a, b), range_min(keys, b, c)),
    decreases c - b,
{
    if c > b + 1 {
        lemma_range_min_split(keys, a, b, c - 1);
    }
}

/// The least of a range is the lesser of the least of two ranges that
/// overlap and cover it.
proof fn lemma_range_min_cover(keys: Seq<u64>, a: int, b: int, c: int, d: int)
    requires
        a <= b < c <= d,
    ensures
        range_min(keys, a, d) == min_key(range_min(keys, a, c), range_min(keys, b, d)),
{
    if a < b {
        lemma_range_min_split(keys, a, b, c);
        lemma_range_min_split(keys, a, b, d);
    }
    if c < d {
        lemma_range_min_split(keys, b, c, d);
        if a < b {
        } else {
            lemma_range_min_split(keys, a, c, d);
        }
    }
}

/// Changing a key outside a range leaves its least alone.
proof fn lemma_range_min_update(keys: Seq<u64>, a: int, b: int, q: int, v: u64)
    requires
        0 <= a < b <= keys.len(),
        0 <= q < keys.len(),
        !(a <= q < b),
    ensures
        range_min(keys.update(q, v), a, b) == range_min(keys, a, b),
    decreases b - a,
{
    if b > a + 1 {
        lemma_range_min_update(keys, a, b - 1, q, v);
    }
}

/// Where the range that level `k` covers from `p` ends.
pub open spec fn level_end(len: int, k: int, p: int) -> int {
    if p + span(k) < len {
        p + span(k)
    } else {
        len
    }
}

/// Minima of keys over ranges of positions, filled in from the last
/// position down. Level `k` holds the least of the `2^k` keys from each
/// position, which needs only positions already filled in, so a range of
/// up to 1024 is the lesser of two overlapping entries of one level. The
/// levels are stored one after another.
struct RangeMin {
    levels: Vec<u64>,
    len: usize,
    /// The key set at each position.
    keys: Ghost<Seq<u64>>,
}

impl RangeMin {
    /// Positions from `lo` on are filled in: each has a key for itself,
    /// and each entry of each level is the least key of the span it
    /// covers.
    spec fn filled_from(self, lo: int) -> bool {
        &&& self.levels@.len() == LEVELS * self.len
        &&& self.len <= MAX_OUTPUT + 1
        &&& self.keys@.len() == self.len
        &&& forall|q: int| lo <= q < self.len ==> key_pos(#[trigger] self.keys@[q]) == q
        &&& forall|k: int, p: int|
            0 <= k < LEVELS && lo <= p < self.len ==> #[trigger] self.levels@[slot(
                self.len as int,
                k,
                p,
            )] == range_min(self.keys@, p, level_end(self.len as int, k, p))
    }

    fn new(len: usize) -> (r: Self)
        requires
            len <= MAX_OUTPUT + 1,
        ensures
            r.len == len,
            r.filled_from(len as int),
    {
        let mut levels: Vec<u64> = Vec::new();
        let total = LEVELS * len;
        let mut j: usize = 0;
        while j < total
            invariant
                j <= total,
                total == LEVELS * len,
                levels@.len() == j,
            decreases total - j,
        {
            levels.push(0xFFFF_FFFF_FFFF_FFFF);
            j = j + 1;
        }
        RangeMin { levels, len, keys: Ghost(Seq::new(len as nat, |q: int| 0u64)) }
    }

    fn set(&mut self, pos: usize, key: u64)
        requires
            old(self).filled_from(pos + 1),
            pos < old(self).len,
            key_pos(key) == pos,
        ensures
            final(self).len == old(self).len,
            final(self).keys@ == old(self).keys@.update(pos as int, key),
            final(self).filled_from(pos as int),
    {
        let len = self.len;
        let ghost l = len as int;
        let ghost old_keys = self.keys@;
        proof {
            lemma_slots(l, 0, pos as int, 0, pos as int);
            reveal_with_fuel(span, 11);
        }
        let ghost before = self.levels@;
        self.levels.set(pos, key);
        self.keys = Ghost(self.keys@.update(pos as int, key));
        let ghost keys = self.keys@;
        proof {
            assert forall|k2: int, p: int|
                0 <= k2 < LEVELS && pos + 1 <= p < len implies #[trigger] self.levels@[slot(l, k2, p)]
                == range_min(keys, p, level_end(l, k2, p)) by {
                lemma_slots(l, k2, p, 0, pos as int);
                assert(self.levels@[slot(l, k2, p)] == before[slot(l, k2, p)]);
                lemma_range_min_update(old_keys, p, level_end(l, k2, p), pos as int, key);
            }
            assert(self.levels@[slot(l, 0, pos as int)] == key);
            assert(level_end(l, 0, pos as int) == pos + 1);
        }
        let mut k: usize = 1;
        let mut half: usize = 1;
        while k < LEVELS
            invariant
                1 <= k <= LEVELS,
                half == span(k - 1),
                half <= 1024,
                len == self.len,
                l == len,
                pos < len,
                keys == self.keys@,
                keys.len() == len,
                self.levels@.len() == LEVELS * len,
                len <= MAX_OUTPUT + 1,
                forall|k2: int, p: int|
                    0 <= k2 < LEVELS && pos + 1 <= p < len ==> #[trigger] self.levels@[slot(l, k2, p)]
                        == range_min(keys, p, level_end(l, k2, p)),
                forall|k2: int|
                    0 <= k2 < k ==> #[trigger] self.levels@[slot(l, k2, pos as int)] == range_min(
                        keys,
                        pos as int,
                        level_end(l, k2, pos as int),
                    ),
            decreases LEVELS - k,
        {
            proof {
                reveal_with_fuel(span, 11);
                lemma_slots(l, k as int, pos as int, k - 1, pos as int);
                lemma_slots(l, k - 1, pos as int, k - 1, pos as int);
            }
            let lower = self.levels[(k - 1) * len + pos];
            assert(lower == self.levels@[slot(l, k - 1, pos as int)]);
            let min = if pos + half < len {
                proof {
                    lemma_slots(l, k - 1, pos + half, k - 1, pos + half);
                }
                let upper = self.levels[(k - 1) * len + (pos + half)];
                assert(upper == self.levels@[slot(l, k - 1, pos + half)]);
                if upper < lower {
                    upper
                } else {
                    lower
                }
            } else {
                lower
            };
            proof {
                assert(span(k as int) == 2 * span(k - 1));
                if pos + half < len {
                    lemma_range_min_split(keys, pos as int, pos + half, level_end(l, k as int, pos as int));
                }
            }
            let ghost prev = self.levels@;
            self.levels.set(k * len + pos, min);
            proof {
                assert forall|k2: int, p: int|
                    0 <= k2 < LEVELS && pos + 1 <= p < len implies #[trigger] self.levels@[slot(l, k2, p)]
                    == range_min(keys, p, level_end(l, k2, p)) by {
                    lemma_slots(l, k2, p, k as int, pos as int);
                    assert(self.levels@[slot(l, k2, p)] == prev[slot(l, k2, p)]);
                }
                assert forall|k2: int| 0 <= k2 < k + 1 implies #[trigger] self.levels@[slot(l, k2, pos as int)]
                    == range_min(keys, pos as int, level_end(l, k2, pos as int)) by {
                    lemma_slots(l, k2, pos as int, k as int, pos as int);
                    if k2 < k {
                        assert(self.levels@[slot(l, k2, pos as int)] == prev[slot(l, k2, pos as int)]);
                    } else {
                        assert(self.levels@[slot(l, k2, pos as int)] == min);
                    }
                }
            }
            half = half * 2;
            k = k + 1;
        }
    }

    /// The least key from `first` to `last`, both included.
    fn min(&self, first: usize, last: usize, lo: Ghost<int>) -> (key: u64)
        requires
            self.filled_from(lo@),
            lo@ <= first <= last < self.len,
            last + 1 - first <= 1024,
        ensures
            first <= key_pos(key) <= last,
            key == self.keys@[key_pos(key)],
            forall|q: int| first <= q <= last ==> key <= #[trigger] self.keys@[q],
    {
        let width = last + 1 - first;
        let mut k: usize = 0;
        let mut s: usize = 1;
        while k < 10 && s * 2 <= width
            invariant
                k <= 10,
                s == span(k as int),
                1 <= s <= width,
                width <= 1024,
            decreases 10 - k,
        {
            proof {
                reveal_with_fuel(span, 11);
            }
            s = s * 2;
            k = k + 1;
        }
        let ghost l = self.len as int;
        proof {
            reveal_with_fuel(span, 11);
            lemma_slots(l, k as int, first as int, k as int, first as int);
            lemma_slots(l, k as int, last + 1 - s, k as int, last + 1 - s);
            assert(width < 2 * s || width == s);
        }
        let a = self.levels[k * self.len + first];
        let b = self.levels[k * self.len + (last + 1 - s)];
        assert(a == self.levels@[slot(l, k as int, first as int)]);
        assert(b == self.levels@[slot(l, k as int, last + 1 - s)]);
        let key = if b < a {
            b
        } else {
            a
        };
        proof {
            let keys = self.keys@;
            assert(level_end(l, k as int, first as int) == first + s);
            assert(level_end(l, k as int, last + 1 - s) == last + 1);
            lemma_range_min_cover(keys, first as int, last + 1 - s, first + s, last + 1);
            lemma_range_min(keys, first as int, last + 1);
            let q = choose|q: int| first <= q < last + 1 && #[trigger] keys[q] == range_min(keys, first as int, last + 1);
            assert(key == keys[q]);
            assert(key_pos(keys[q]) == q);
        }
        key
    }
}



/// The bytes a chunk takes in the stream: its header, then the bytes it
/// copies, the fill's operand, or the offset of a back-reference.
pub open spec fn chunk_size(cmd: u8, len: int) -> int {
    spec_header(cmd, len).len() + if cmd == DIRECT_COPY {
        len
    } else if cmd == BYTE_FILL || cmd == INCREMENTING_FILL {
        1
    } else {
        2
    }
}

/// A chunk of a parse: command, length, and the earlier position a
/// back-reference copies from.
pub type Chunk = (u8, int, int);

/// `p` writes `data` from `i` on with commands 0 to 4, chunk after chunk.
pub open spec fn is_parse(data: Seq<u8>, p: Seq<Chunk>, i: int) -> bool
    decreases p.len(),
{
    if p.len() == 0 {
        i == data.len()
    } else {
        chunk_fits(data, i, p[0].0, p[0].1, p[0].2) && is_parse(data, p.drop_first(), i + p[0].1)
    }
}

/// The bytes of a parse's chunks, the terminator aside.
pub open spec fn parse_cost(p: Seq<Chunk>) -> int
    decreases p.len(),
{
    if p.len() == 0 {
        0
    } else {
        chunk_size(p[0].0, p[0].1) + parse_cost(p.drop_first())
    }
}

proof fn lemma_parse_cost_nonnegative(data: Seq<u8>, p: Seq<Chunk>, i: int)
    requires
        is_parse(data, p, i),
    ensures
        parse_cost(p) >= 0,
    decreases p.len(),
{
    if p.len() > 0 {
        lemma_parse_cost_nonnegative(data, p.drop_first(), i + p[0].1);
    }
}

/// How far a chunk of command `cmd` from `i` can reach: a direct copy to
/// the end, a fill over the run it repeats, a back-reference over the
/// longest earlier match.
spec fn chunk_reach(data: Seq<u8>, runs: Runs, matches: Seq<Match>, i: int, cmd: u8) -> int {
    if cmd == DIRECT_COPY {
        data.len() - i
    } else if cmd == BYTE_FILL {
        runs.byte@[i] as int
    } else if cmd == WORD_FILL {
        runs.word_reach(i)
    } else if cmd == INCREMENTING_FILL {
        runs.incrementing@[i] as int
    } else {
        let m = matches[i].len as int;
        if m < data.len() - i {
            m
        } else {
            data.len() - i
        }
    }
}

/// No chunk that fits reaches further than `chunk_reach` says.
proof fn lemma_reach(data: Seq<u8>, runs: Runs, matches: Seq<Match>, i: int, cmd: u8, len: int, src: int)
    requires
        runs.wf(data),
        matches.len() == data.len(),
        forall|y: int, x: int|
            #![trigger capped_lcp(data, y, x)]
            0 <= y < x < data.len() ==> capped_lcp(data, y, x) <= matches[x].len,
        chunk_fits(data, i, cmd, len, src),
    ensures
        len <= chunk_reach(data, runs, matches, i, cmd),
{
    let n = data.len() as int;
    if cmd == BYTE_FILL {
        let r = runs.byte@[i] as int;
        if len > r {
            assert(data[i + r] == data[i]);
        }
    } else if cmd == WORD_FILL {
        let t = i + 2;
        let r = runs.repeats_two_back@[t] as int;
        if len > 2 + r {
            assert(data[i + (2 + r)] == data[i + (2 + r) % 2]);
            assert(data[i + r] == data[i + r % 2]);
            assert((2 + r) % 2 == r % 2);
            assert(data[t + r] == data[t + r - 2]);
        }
    } else if cmd == INCREMENTING_FILL {
        let r = runs.incrementing@[i] as int;
        if len > r {
            assert(data[i + r] == ((data[i] + r) % 256) as u8);
        }
    } else if cmd == BACK_REFERENCE {
        lemma_lcp_at_least(data, src, i, len);
        assert(capped_lcp(data, src, i) <= matches[i].len);
    }
}

/// A key that is no greater leaves no more bytes to the end.
proof fn lemma_key_bytes(b1: int, c1: int, p1: int, b2: int, c2: int, p2: int)
    requires
        0 <= b1,
        0 <= b2,
        0 <= c1 <= POS_MASK,
        0 <= c2 <= POS_MASK,
        0 <= p1 <= POS_MASK,
        0 <= p2 <= POS_MASK,
        b1 * 0x4_0000_0000 + c1 * 0x2_0000 + (POS_MASK - p1) <= b2 * 0x4_0000_0000 + c2 * 0x2_0000
            + (POS_MASK - p2),
    ensures
        b1 <= b2,
{
    assert(c1 * 0x2_0000 + (POS_MASK - p1) < 0x4_0000_0000) by (nonlinear_arith)
        requires
            0 <= c1 <= POS_MASK,
            0 <= p1 <= POS_MASK,
    ;
    assert(c2 * 0x2_0000 + (POS_MASK - p2) >= 0) by (nonlinear_arith)
        requires
            0 <= c2,
            p2 <= POS_MASK,
    ;
    if b1 > b2 {
        assert(b1 * 0x4_0000_0000 >= b2 * 0x4_0000_0000 + 0x4_0000_0000) by (nonlinear_arith)
            requires
                b1 >= b2 + 1,
        ;
    }
}

/// The bytes of a chunk number `chunk_size`.
proof fn lemma_chunk_size(data: Seq<u8>, i: int, cmd: u8, len: int, src: int)
    requires
        0 <= i,
        1 <= len,
        i + len <= data.len(),
    ensures
        chunk_bytes(data, i, cmd, len, src).len() == chunk_size(cmd, len),
{
}

/// Whether the parse may put a chunk of command `cmd` and length `len` at
/// `i`: it fits, and a fill repeats what it says. Which earlier bytes a
/// back-reference copies is settled when it is written.
pub open spec fn parse_fits(data: Seq<u8>, i: int, cmd: u8, len: int) -> bool {
    &&& 1 <= len <= LONG_LEN
    &&& 0 <= i
    &&& i + len <= data.len()
    &&& cmd <= BACK_REFERENCE
    &&& cmd != BACK_REFERENCE ==> chunk_fits(data, i, cmd, len, 0)
}

/// Compresses `data` into one LC_LZ2 stream, terminator included. The
/// output is a function of the input alone, and no stream of commands 0
/// to 4 is shorter.
///
/// The parse is optimal, by dynamic programming from the end of the
/// input backwards: the cost of encoding from a position is the cheapest
/// chunk that can start there plus the cost from where it ends. A fill
/// can end anywhere within the run it repeats, a back-reference anywhere
/// within the longest earlier match, and a direct copy anywhere, each up
/// to 1024 bytes; a range-minimum table over the costs already known
/// finds the best end for each command and header size in two lookups. A
/// back-reference costs the same whatever it points at, so the longest
/// match is all the parse needs, and a suffix array gives it exactly for
/// every position (`longest_matches`): the search gives nothing up. Time
/// is O(n log n) and memory O(n).
///
/// Ties are broken by a fixed rule. The chunk chosen at each position is
/// the one leaving the fewest bytes to the end, then the fewest chunks
/// (less work for the game's routine), then the longest, then the lowest
/// command number. Which earlier copy a back-reference names does not
/// change the size; `longest_matches` says which it is.
///
/// Only what the game's routine (`CODE_00B8DE`) and [`decompress`] read
/// the same is written: commands 0 to 4, short headers for 1 to 32 bytes
/// and long ones for 33 to 1024, and back-references to bytes already
/// written (which may overlap the copy). Commands 5 to 7 are never used;
/// the game would take them as back-references, and a long header for 7
/// can be the terminator.
///
/// A parse (`is_parse`) is any way of writing the data with commands 0 to
/// 4, each with the shortest header its length allows; a stream with a
/// longer header only gets longer.
#[verifier::rlimit(60)]
#[verifier::spinoff_prover]
pub fn compress(data: &[u8]) -> (r: Result<Vec<u8>, LzError>)
    ensures
        data@.len() > MAX_OUTPUT ==> r == Err::<Vec<u8>, LzError>(
            LzError::InputTooLarge(data@.len() as usize),
        ),
        data@.len() <= MAX_OUTPUT ==> r is Ok,
        r matches Ok(packed) ==> spec_decompress(Format::Lz2, packed@) == Ok::<
            (Seq<u8>, int),
            LzError,
        >((data@, packed@.len() as int)),
        r matches Ok(packed) ==> forall|p: Seq<Chunk>|
            #[trigger] is_parse(data@, p, 0) ==> packed@.len() <= parse_cost(p) + 1,
{
    let n = data.len();
    if n > MAX_OUTPUT {
        return Err(LzError::InputTooLarge(n));
    }
    let ghost d = data@;
    let matches = longest_matches(data);
    let runs = Runs::new(data);
    // For each position: bytes and chunks from there to the end, and the
    // chunk that starts there (command, length).
    let mut cost_bytes: Vec<usize> = Vec::new();
    let mut cost_chunks: Vec<usize> = Vec::new();
    let mut chunk_cmd: Vec<u8> = Vec::new();
    let mut chunk_len: Vec<usize> = Vec::new();
    let mut j: usize = 0;
    while j <= n
        invariant
            j <= n + 1,
            n <= MAX_OUTPUT,
            cost_bytes@.len() == j,
            cost_chunks@.len() == j,
            chunk_cmd@.len() == j,
            chunk_len@.len() == j,
            forall|t: int| 0 <= t < j ==> #[trigger] cost_bytes@[t] == 0,
            forall|t: int| 0 <= t < j ==> #[trigger] cost_chunks@[t] == 0,
        decreases n + 1 - j,
    {
        cost_bytes.push(0);
        cost_chunks.push(0);
        chunk_cmd.push(DIRECT_COPY);
        chunk_len.push(0);
        j = j + 1;
    }
    // A fill or back-reference costs the same whatever its length, so its
    // best end is the one with the least cost from there; a direct copy
    // costs its length as well, so its best is the least cost plus end.
    let mut fills = RangeMin::new(n + 1);
    let mut copies = RangeMin::new(n + 1);
    fills.set(n, key(0, 0, n));
    copies.set(n, key(n, 0, n));
    proof {
        assert forall|p: Seq<Chunk>| #[trigger] is_parse(d, p, n as int) implies cost_bytes@[n as int]
            <= parse_cost(p) by {
            lemma_parse_cost_nonnegative(d, p, n as int);
        }
    }
    let mut i = n;
    while i > 0
        invariant
            i <= n,
            n == data@.len(),
            d == data@,
            n <= MAX_OUTPUT,
            runs.wf(d),
            matches_valid(d, matches@),
            forall|y: int, x: int|
                #![trigger capped_lcp(d, y, x)]
                0 <= y < x < n ==> capped_lcp(d, y, x) <= matches@[x].len,
            fills.len == n + 1,
            copies.len == n + 1,
            fills.filled_from(i as int),
            copies.filled_from(i as int),
            cost_bytes@.len() == n + 1,
            cost_chunks@.len() == n + 1,
            chunk_cmd@.len() == n + 1,
            chunk_len@.len() == n + 1,
            cost_bytes@[n as int] == 0,
            forall|t: int| i <= t <= n ==> #[trigger] cost_bytes@[t] <= 4 * (n - t),
            forall|t: int| i <= t <= n ==> #[trigger] cost_chunks@[t] <= n - t,
            forall|t: int|
                i <= t <= n ==> #[trigger] fills.keys@[t] == cost_bytes@[t] * 0x4_0000_0000
                    + cost_chunks@[t] * 0x2_0000 + (POS_MASK - t),
            forall|t: int|
                i <= t <= n ==> #[trigger] copies.keys@[t] == (cost_bytes@[t] + t) * 0x4_0000_0000
                    + cost_chunks@[t] * 0x2_0000 + (POS_MASK - t),
            forall|t: int| i <= t < n ==> parse_fits(d, t, #[trigger] chunk_cmd@[t], chunk_len@[t] as int),
            forall|t: int|
                i <= t < n ==> #[trigger] chunk_cmd@[t] == BACK_REFERENCE ==> chunk_len@[t]
                    <= matches@[t].len,
            forall|t: int|
                i <= t < n ==> #[trigger] cost_bytes@[t] == chunk_size(chunk_cmd@[t], chunk_len@[t] as int)
                    + cost_bytes@[t + chunk_len@[t]],
            forall|t: int, p: Seq<Chunk>|
                i <= t <= n && #[trigger] is_parse(d, p, t) ==> cost_bytes@[t] <= parse_cost(p),
        decreases i,
    {
        i = i - 1;
        let mut have = false;
        let mut best: (usize, usize, usize, u8) = (0, 0, 0, DIRECT_COPY);
        let mut cmd: u8 = 0;
        while cmd < 5
            invariant
                cmd <= 5,
                i < n,
                n == data@.len(),
                d == data@,
                n <= MAX_OUTPUT,
                runs.wf(d),
                matches@.len() == n,
                fills.len == n + 1,
                copies.len == n + 1,
                fills.filled_from(i + 1),
                copies.filled_from(i + 1),
                cost_bytes@.len() == n + 1,
                cost_chunks@.len() == n + 1,
                forall|t: int| i < t <= n ==> #[trigger] cost_bytes@[t] <= 4 * (n - t),
                forall|t: int| i < t <= n ==> #[trigger] cost_chunks@[t] <= n - t,
                forall|t: int|
                    i < t <= n ==> #[trigger] fills.keys@[t] == cost_bytes@[t] * 0x4_0000_0000
                        + cost_chunks@[t] * 0x2_0000 + (POS_MASK - t),
                forall|t: int|
                    i < t <= n ==> #[trigger] copies.keys@[t] == (cost_bytes@[t] + t) * 0x4_0000_0000
                        + cost_chunks@[t] * 0x2_0000 + (POS_MASK - t),
                cmd > 0 ==> have,
                have ==> parse_fits(d, i as int, best.3, best.2 as int) && best.0 <= 4 * (n - i)
                    && best.1 <= n - i,
                have ==> best.2 <= chunk_reach(d, runs, matches@, i as int, best.3),
                have ==> best.0 == chunk_size(best.3, best.2 as int) + cost_bytes@[i + best.2],
                forall|c: u8, len: int|
                    c < cmd && 1 <= len <= LONG_LEN && len <= chunk_reach(d, runs, matches@, i as int, c)
                        ==> best.0 <= #[trigger] chunk_size(c, len) + cost_bytes@[i + len],
            decreases 5 - cmd,
        {
            let (reach, operand): (usize, usize) = if cmd == DIRECT_COPY {
                (n - i, 0)
            } else if cmd == BYTE_FILL {
                (runs.byte[i], 1)
            } else if cmd == WORD_FILL {
                (runs.word(i, Ghost(data@)), 2)
            } else if cmd == INCREMENTING_FILL {
                (runs.incrementing[i], 1)
            } else {
                // A match never runs past the end of the data.
                let m = matches[i].len;
                (if m < n - i { m } else { n - i }, 2)
            };
            assert(reach == chunk_reach(d, runs, matches@, i as int, cmd));
            assert(reach <= n - i);
            assert(forall|len: int| 1 <= len <= reach && len <= LONG_LEN ==> parse_fits(data@, i as int, cmd, len));
            let mut h: usize = 0;
            while h < 2
                invariant
                    h <= 2,
                    cmd < 5,
                    i < n,
                    n == data@.len(),
                    d == data@,
                    n <= MAX_OUTPUT,
                    reach == chunk_reach(d, runs, matches@, i as int, cmd),
                    reach <= n - i,
                    operand <= 2,
                    cmd == DIRECT_COPY ==> reach == n - i,
                    cmd == DIRECT_COPY ==> operand == 0,
                    cmd == BYTE_FILL || cmd == INCREMENTING_FILL ==> operand == 1,
                    cmd == WORD_FILL || cmd == BACK_REFERENCE ==> operand == 2,
                    forall|len: int| 1 <= len <= reach && len <= LONG_LEN ==> parse_fits(data@, i as int, cmd, len),
                    fills.len == n + 1,
                    copies.len == n + 1,
                    fills.filled_from(i + 1),
                    copies.filled_from(i + 1),
                    cost_bytes@.len() == n + 1,
                    cost_chunks@.len() == n + 1,
                    forall|t: int| i < t <= n ==> #[trigger] cost_bytes@[t] <= 4 * (n - t),
                    forall|t: int| i < t <= n ==> #[trigger] cost_chunks@[t] <= n - t,
                    forall|t: int|
                        i < t <= n ==> #[trigger] fills.keys@[t] == cost_bytes@[t] * 0x4_0000_0000
                            + cost_chunks@[t] * 0x2_0000 + (POS_MASK - t),
                    forall|t: int|
                        i < t <= n ==> #[trigger] copies.keys@[t] == (cost_bytes@[t] + t)
                            * 0x4_0000_0000 + cost_chunks@[t] * 0x2_0000 + (POS_MASK - t),
                    cmd > 0 ==> have,
                    cmd == 0 && h > 0 ==> have,
                    have ==> parse_fits(d, i as int, best.3, best.2 as int) && best.0 <= 4 * (n
                        - i) && best.1 <= n - i,
                    have ==> best.2 <= chunk_reach(d, runs, matches@, i as int, best.3),
                    have ==> best.0 == chunk_size(best.3, best.2 as int) + cost_bytes@[i + best.2],
                    forall|c: u8, len: int|
                        (c < cmd || (c == cmd && (if len <= SHORT_LEN { 0int } else { 1int }) < h)) && 1
                            <= len <= LONG_LEN && len <= chunk_reach(d, runs, matches@, i as int, c)
                            ==> best.0 <= #[trigger] chunk_size(c, len) + cost_bytes@[i + len],
                decreases 2 - h,
            {
                let (shortest, cap, header): (usize, usize, usize) = if h == 0 {
                    (1, SHORT_LEN, 1)
                } else {
                    (SHORT_LEN + 1, LONG_LEN, 2)
                };
                let longest = if cap < reach { cap } else { reach };
                if longest >= shortest {
                    let found = if cmd == DIRECT_COPY {
                        copies.min(i + shortest, i + longest, Ghost(i + 1))
                    } else {
                        fills.min(i + shortest, i + longest, Ghost(i + 1))
                    };
                    let end = end_of(found);
                    let len = end - i;
                    let payload = if cmd == DIRECT_COPY { len } else { operand };
                    let bytes = cost_bytes[end] + header + payload;
                    let chunks = cost_chunks[end] + 1;
                    proof {
                        assert(chunk_size(cmd, len as int) == header + payload);
                        assert forall|len2: int| shortest <= len2 <= longest implies bytes <= chunk_size(cmd, len2) + cost_bytes@[i + len2] by {
                            let t = i + len2;
                            if cmd == DIRECT_COPY {
                                assert(found <= copies.keys@[t]);
                                lemma_key_bytes(
                                    cost_bytes@[end as int] + end,
                                    cost_chunks@[end as int] as int,
                                    end as int,
                                    cost_bytes@[t] + t,
                                    cost_chunks@[t] as int,
                                    t,
                                );
                            } else {
                                assert(found <= fills.keys@[t]);
                                lemma_key_bytes(
                                    cost_bytes@[end as int] as int,
                                    cost_chunks@[end as int] as int,
                                    end as int,
                                    cost_bytes@[t] as int,
                                    cost_chunks@[t] as int,
                                    t,
                                );
                            }
                        }
                    }
                    if !have || bytes < best.0 || (bytes == best.0 && (chunks < best.1 || (chunks
                        == best.1 && (len > best.2 || (len == best.2 && cmd < best.3))))) {
                        best = (bytes, chunks, len, cmd);
                        have = true;
                    }
                }
                h = h + 1;
            }
            cmd = cmd + 1;
        }
        let (bytes, chunks, len, chosen) = best;
        let ghost prev_bytes = cost_bytes@;
        cost_bytes.set(i, bytes);
        cost_chunks.set(i, chunks);
        chunk_cmd.set(i, chosen);
        chunk_len.set(i, len);
        fills.set(i, key(bytes, chunks, i));
        copies.set(i, key(bytes + i, chunks, i));
        proof {
            assert forall|t: int, p: Seq<Chunk>| i <= t <= n && #[trigger] is_parse(d, p, t) implies cost_bytes@[t]
                <= parse_cost(p) by {
                if t == i {
                    let c = p[0];
                    let rest = p.drop_first();
                    lemma_reach(d, runs, matches@, i as int, c.0, c.1, c.2);
                    assert(is_parse(d, rest, i + c.1));
                    assert(prev_bytes[i + c.1] == cost_bytes@[i + c.1]);
                    assert(best.0 <= chunk_size(c.0, c.1) + prev_bytes[i + c.1]);
                } else {
                    assert(cost_bytes@[t] == prev_bytes[t]);
                }
            }
        }
    }

    let mut out: Vec<u8> = Vec::new();
    let ghost mut log: Seq<Written> = Seq::empty();
    let mut i: usize = 0;
    while i < n
        invariant
            i <= n,
            n == data@.len(),
            d == data@,
            n <= MAX_OUTPUT,
            matches_valid(d, matches@),
            chunk_cmd@.len() == n + 1,
            chunk_len@.len() == n + 1,
            cost_bytes@.len() == n + 1,
            cost_bytes@[n as int] == 0,
            forall|t: int| 0 <= t < n ==> parse_fits(data@, t, #[trigger] chunk_cmd@[t], chunk_len@[t] as int),
            forall|t: int|
                0 <= t < n ==> #[trigger] chunk_cmd@[t] == BACK_REFERENCE ==> chunk_len@[t]
                    <= matches@[t].len,
            forall|t: int|
                0 <= t < n ==> #[trigger] cost_bytes@[t] == chunk_size(chunk_cmd@[t], chunk_len@[t] as int)
                    + cost_bytes@[t + chunk_len@[t]],
            out@.len() + cost_bytes@[i as int] == cost_bytes@[0],
            log_ok(data@, out@, log),
            log_end(data@, log) == (out@.len() as int, i as int),
        decreases n - i,
    {
        let cmd = chunk_cmd[i];
        let len = chunk_len[i];
        let src = matches[i].src;
        assert(parse_fits(data@, i as int, cmd, len as int));
        let ghost at = out@.len() as int;
        let ghost before = out@;
        write_header(&mut out, cmd, len);
        if cmd == DIRECT_COPY {
            append_slice(&mut out, slice_range(data, i, i + len));
        } else if cmd == BYTE_FILL || cmd == INCREMENTING_FILL {
            out.push(data[i]);
        } else if cmd == WORD_FILL {
            out.push(data[i]);
            out.push(data[i + 1]);
        } else {
            // The source is below `i`, so it fits in 16 bits.
            out.push((src / 256) as u8);
            out.push((src % 256) as u8);
        }
        proof {
            let w: Written = (cmd, len as int, src as int, at, i as int);
            if cmd == BACK_REFERENCE {
                lemma_lcp(d, src as int, i as int);
            }
            assert(chunk_fits(data@, i as int, cmd, len as int, src as int));
            lemma_chunk_size(d, i as int, cmd, len as int, src as int);
            assert(out@ =~= before + written_bytes(data@, w));
            lemma_log_extend(data@, before, written_bytes(data@, w), log);
            assert(out@.subrange(at, at + written_bytes(data@, w).len()) =~= written_bytes(data@, w));
            if log.len() > 0 {
                assert(log.push(w)[log.len() - 1] == log.last());
            }
            log = log.push(w);
        }
        i = i + len;
    }
    let ghost body = out@;
    out.push(0xFF);
    proof {
        lemma_log_extend(data@, body, seq![0xFFu8], log);
        assert(body + seq![0xFFu8] =~= out@);
        lemma_log_decodes(data@, out@, log, 0);
        assert(data@.subrange(0, 0) =~= Seq::<u8>::empty());
    }
    Ok(out)
}

} // verus!




