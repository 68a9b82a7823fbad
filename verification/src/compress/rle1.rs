//! LC_RLE1, the run-length format of background tilemaps.
//!
//! A stream is chunks, each a header byte `RLLLLLLL`: with `R` clear the
//! next `L + 1` bytes are copied; with `R` set the next byte is repeated
//! `L + 1` times. The game's decompressor (`CODE_058126`) reads a chunk
//! and then stops if the next two bytes are `$FF $FF`, so the first chunk
//! is always read and no chunk may start with those two bytes, which rules
//! out a run of 128 `$FF`.

use vstd::prelude::*;

use super::{Decompressed, LzError, MAX_OUTPUT, append_slice, push_fill, slice_range};

verus! {

const RUN: u8 = 0x80;

pub const MAX_CHUNK: usize = 128;

/// Decompresses from input offset `i` with `out` produced so far.
pub open spec fn spec_decompress_from(input: Seq<u8>, i: int, out: Seq<u8>) -> Result<
    (Seq<u8>, int),
    LzError,
>
    decreases input.len() - i,
{
    if i < 0 || i >= input.len() {
        Err(LzError::Truncated(i as usize))
    } else {
        let header = input[i];
        let len = (header % 128) + 1;
        if out.len() + len > MAX_OUTPUT {
            Err(LzError::TooLarge)
        } else {
            let step: Result<(int, Seq<u8>), LzError> = if header >= 128 {
                if i + 1 >= input.len() {
                    Err(LzError::Truncated((i + 1) as usize))
                } else {
                    Ok((i + 2, out + Seq::new(len as nat, |k: int| input[i + 1])))
                }
            } else if i + 1 + len > input.len() {
                Err(LzError::Truncated(input.len() as usize))
            } else {
                Ok((i + 1 + len, out + input.subrange(i + 1, i + 1 + len)))
            };
            match step {
                Err(e) => Err(e),
                Ok((j, out2)) => if j + 2 <= input.len() && input[j] == 0xFF && input[j + 1]
                    == 0xFF {
                    Ok((out2, j + 2))
                } else {
                    spec_decompress_from(input, j, out2)
                },
            }
        }
    }
}

pub open spec fn spec_decompress(input: Seq<u8>) -> Result<(Seq<u8>, int), LzError> {
    spec_decompress_from(input, 0, Seq::empty())
}

/// Decompresses one stream from the start of `input`. Trailing bytes after
/// the terminator are ignored.
pub fn decompress(input: &[u8]) -> (r: Result<Decompressed, LzError>)
    ensures
        super::matches_spec(r, spec_decompress(input@)),
{
    let mut out: Vec<u8> = Vec::new();
    let mut i: usize = 0;
    loop
        invariant
            i <= input@.len(),
            out@.len() <= MAX_OUTPUT,
            spec_decompress(input@) == spec_decompress_from(input@, i as int, out@),
        decreases input@.len() - i,
    {
        if i >= input.len() {
            return Err(LzError::Truncated(i));
        }
        let header = input[i];
        let len = (header % 128) as usize + 1;
        if out.len() + len > MAX_OUTPUT {
            return Err(LzError::TooLarge);
        }
        let ghost out0 = out@;
        let ghost i0 = i as int;
        if header >= RUN {
            if i + 1 >= input.len() {
                return Err(LzError::Truncated(i + 1));
            }
            push_fill(&mut out, input[i + 1], len);
            i = i + 2;
        } else {
            if len > input.len() - (i + 1) {
                return Err(LzError::Truncated(input.len()));
            }
            let data = slice_range(input, i + 1, i + 1 + len);
            append_slice(&mut out, data);
            i = i + 1 + len;
        }
        if input.len() >= 2 && i <= input.len() - 2 && input[i] == 0xFF && input[i + 1] == 0xFF {
            return Ok(Decompressed { data: out, consumed: i + 2 });
        }
    }
}

/// A chunk of the encoding: a run or a copy of `len` bytes.
#[derive(Clone, Copy, PartialEq, Eq, Structural, Debug)]
pub enum Chunk {
    Run(usize),
    Copy(usize),
}

pub open spec fn chunk_len(c: Chunk) -> int {
    match c {
        Chunk::Run(l) => l as int,
        Chunk::Copy(l) => l as int,
    }
}

/// Whether a chunk can stand at `i` of `data`: it fits, a run repeats one
/// byte, and no run of 128 `$FF` starts with the terminator.
pub open spec fn chunk_fits(data: Seq<u8>, i: int, c: Chunk) -> bool {
    match c {
        Chunk::Run(l) => 1 <= l <= MAX_CHUNK && i + l <= data.len() && (forall|k: int|
            i <= k < i + l ==> #[trigger] data[k] == data[i]) && !(l == MAX_CHUNK && data[i]
            == 0xFF),
        Chunk::Copy(l) => 1 <= l <= MAX_CHUNK && i + l <= data.len(),
    }
}

/// The bytes of one chunk at `i` of `data`.
pub open spec fn spec_chunk_bytes(data: Seq<u8>, i: int, c: Chunk) -> Seq<u8> {
    match c {
        Chunk::Run(l) => seq![(0x80 + (l - 1)) as u8, data[i]],
        Chunk::Copy(l) => seq![(l - 1) as u8] + data.subrange(i, i + l),
    }
}

/// The stream from `i` on when every position has its chunk in `choice`.
pub open spec fn spec_encode_from(data: Seq<u8>, choice: Seq<Chunk>, i: int) -> Seq<u8>
    decreases data.len() - i,
{
    if i >= data.len() || i < 0 || i >= choice.len() {
        seq![0xFFu8, 0xFFu8]
    } else {
        let c = choice[i];
        if chunk_len(c) >= 1 && i + chunk_len(c) <= data.len() {
            spec_chunk_bytes(data, i, c) + spec_encode_from(data, choice, i + chunk_len(c))
        } else {
            seq![0xFFu8, 0xFFu8]
        }
    }
}

/// Every position's chunk fits there.
pub open spec fn choices_fit(data: Seq<u8>, choice: Seq<Chunk>, from: int) -> bool {
    choice.len() == data.len() && forall|k: int|
        from <= k < data.len() ==> chunk_fits(data, k, #[trigger] choice[k])
}

/// `run[j]` is how many bytes from `j` equal `data[j]`, up to a chunk: as
/// many as there are, or as a chunk holds.
pub open spec fn run_at(data: Seq<u8>, run: Seq<usize>, j: int) -> bool {
    let r = run[j] as int;
    &&& 1 <= r <= MAX_CHUNK
    &&& j + r <= data.len()
    &&& forall|t: int| j <= t < j + r ==> data[t] == data[j]
    &&& r == MAX_CHUNK || j + r == data.len() || data[j + r] != data[j]
}

/// The bytes a chunk adds to the stream: a header and a byte for a run, a
/// header and the bytes for a copy.
pub open spec fn chunk_cost(c: Chunk) -> int {
    match c {
        Chunk::Run(_) => 2,
        Chunk::Copy(l) => 1 + l,
    }
}

/// `p` splits `data[i..]` into chunks that fit where they stand.
pub open spec fn is_parse(data: Seq<u8>, p: Seq<Chunk>, i: int) -> bool
    decreases p.len(),
{
    if p.len() == 0 {
        i == data.len()
    } else {
        chunk_fits(data, i, p[0]) && is_parse(data, p.drop_first(), i + chunk_len(p[0]))
    }
}

/// The bytes of a parse's chunks, the terminator aside.
pub open spec fn parse_cost(p: Seq<Chunk>) -> int
    decreases p.len(),
{
    if p.len() == 0 {
        0
    } else {
        chunk_cost(p[0]) + parse_cost(p.drop_first())
    }
}

proof fn lemma_parse_cost_nonnegative(p: Seq<Chunk>)
    ensures
        parse_cost(p) >= 0,
    decreases p.len(),
{
    if p.len() > 0 {
        lemma_parse_cost_nonnegative(p.drop_first());
    }
}

/// The stream from `j` on does not depend on the chunk chosen before it.
proof fn lemma_encode_frame(data: Seq<u8>, choice: Seq<Chunk>, i: int, c: Chunk, j: int)
    requires
        0 <= i < j,
        i < choice.len(),
    ensures
        spec_encode_from(data, choice.update(i, c), j) == spec_encode_from(data, choice, j),
    decreases data.len() - j,
{
    let updated = choice.update(i, c);
    if j >= data.len() || j >= choice.len() {
    } else {
        assert(updated[j] == choice[j]);
        let l = chunk_len(choice[j]);
        if l >= 1 && j + l <= data.len() {
            lemma_encode_frame(data, choice, i, c, j + l);
        }
    }
}

/// Compresses `data` into the shortest stream, choosing, where lengths tie,
/// the longest run and then the longest copy at each point. Empty input
/// and input over 64 KiB have no stream.
pub fn compress(data: &[u8]) -> (r: Result<Vec<u8>, LzError>)
    ensures
        data@.len() > MAX_OUTPUT ==> r == Err::<Vec<u8>, LzError>(LzError::TooLarge),
        data@.len() == 0 ==> r == Err::<Vec<u8>, LzError>(LzError::Truncated(0)),
        1 <= data@.len() <= MAX_OUTPUT ==> r is Ok,
        r matches Ok(packed) ==> spec_decompress(packed@) == Ok::<(Seq<u8>, int), LzError>(
            (data@, packed@.len() as int),
        ),
        r matches Ok(packed) ==> forall|p: Seq<Chunk>| #[trigger]
            is_parse(data@, p, 0) ==> packed@.len() <= parse_cost(p) + 2,
        r matches Ok(packed) ==> packed@.len() >= 2 && !(packed@[0] == 0xFF && packed@[1] == 0xFF),
{
    if data.len() > MAX_OUTPUT {
        return Err(LzError::TooLarge);
    }
    if data.len() == 0 {
        return Err(LzError::Truncated(0));
    }
    let n = data.len();
    // run[i]: how many bytes from i equal data[i], up to a chunk.
    let mut run: Vec<usize> = Vec::new();
    let mut k: usize = 0;
    while k < n
        invariant
            k <= n,
            run@.len() == k,
        decreases n - k,
    {
        run.push(0);
        k = k + 1;
    }
    let mut i = n;
    while i > 0
        invariant
            i <= n,
            n == data@.len(),
            run@.len() == n,
            forall|j: int| i <= j < n ==> #[trigger] run_at(data@, run@, j),
        decreases i,
    {
        i = i - 1;
        let ghost old_run = run@;
        proof {
            if i + 1 < n {
                assert(run_at(data@, old_run, i + 1));
            }
        }
        let r = if i + 1 < n && data[i + 1] == data[i] {
            let longer = run[i + 1] + 1;
            if longer < MAX_CHUNK {
                longer
            } else {
                MAX_CHUNK
            }
        } else {
            1
        };
        run.set(i, r);
        assert(run_at(data@, run@, i as int)) by {
            assert forall|t: int| i <= t < i + run@[i as int] implies data@[t] == data@[i as int] by {
                if t > i {
                    assert(run_at(data@, old_run, i + 1));
                }
            }
        }
        assert forall|j: int| i <= j < n implies #[trigger] run_at(data@, run@, j) by {
            if j > i {
                assert(run_at(data@, old_run, j));
                assert(run@[j] == old_run[j]);
            }
        }
    }
    // cost[i]: the fewest bytes that encode data[i..], the terminator
    // aside; choice[i]: how.
    let mut cost: Vec<usize> = Vec::new();
    let mut choice: Vec<Chunk> = Vec::new();
    let mut k: usize = 0;
    while k < n
        invariant
            k <= n,
            cost@.len() == k,
            choice@.len() == k,
        decreases n - k,
    {
        cost.push(usize::MAX);
        choice.push(Chunk::Copy(1));
        k = k + 1;
    }
    cost.push(0);
    proof {
        assert forall|p: Seq<Chunk>| #[trigger] is_parse(data@, p, n as int) implies cost@[n as int]
            <= parse_cost(p) by {
            lemma_parse_cost_nonnegative(p);
        }
    }
    let mut i = n;
    while i > 0
        invariant
            i <= n,
            n == data@.len(),
            n <= MAX_OUTPUT,
            run@.len() == n,
            cost@.len() == n + 1,
            choice@.len() == n,
            cost@[n as int] == 0,
            forall|j: int| 0 <= j < n ==> #[trigger] run_at(data@, run@, j),
            forall|j: int| i <= j <= n ==> #[trigger] cost@[j] <= 2 * (n - j),
            forall|j: int|
                i <= j < n ==> #[trigger] cost@[j] + 2 == spec_encode_from(data@, choice@, j).len(),
            forall|j: int, p: Seq<Chunk>|
                i <= j <= n && #[trigger] is_parse(data@, p, j) ==> cost@[j] <= parse_cost(p),
            choices_fit(data@, choice@, i as int),
        decreases i,
    {
        i = i - 1;
        proof {
            assert(run_at(data@, run@, i as int));
        }
        let mut best_cost = usize::MAX;
        let mut best = Chunk::Copy(1);
        let mut len = run[i];
        while len > 0
            invariant
                0 <= len <= run@[i as int],
                i < n,
                n == data@.len(),
                n <= MAX_OUTPUT,
                cost@.len() == n + 1,
                run_at(data@, run@, i as int),
                forall|j: int| i < j <= n ==> #[trigger] cost@[j] <= 2 * (n - j),
                chunk_fits(data@, i as int, best),
                best_cost == usize::MAX || best_cost <= 2 * (n - i),
                best_cost == usize::MAX || best_cost == chunk_cost(best) + cost@[i + chunk_len(
                    best,
                )],
                forall|l: int|
                    len < l <= run@[i as int] && !(l == MAX_CHUNK && data@[i as int] == 0xFF)
                        ==> best_cost <= 2 + #[trigger] cost@[i + l],
            decreases len,
        {
            // A run of 128 `$FF` starts with the terminator.
            if !(len == MAX_CHUNK && data[i] == 0xFF) {
                let total = 2 + cost[i + len];
                if total < best_cost {
                    best_cost = total;
                    best = Chunk::Run(len);
                }
            }
            len = len - 1;
        }
        assert(best_cost <= 2 + cost@[i + 1]);
        let longest = if MAX_CHUNK < n - i {
            MAX_CHUNK
        } else {
            n - i
        };
        let mut len = longest;
        while len > 0
            invariant
                0 <= len <= longest,
                longest <= MAX_CHUNK,
                i + longest <= n,
                longest == MAX_CHUNK || longest == n - i,
                i < n,
                n == data@.len(),
                n <= MAX_OUTPUT,
                cost@.len() == n + 1,
                run_at(data@, run@, i as int),
                forall|j: int| i < j <= n ==> #[trigger] cost@[j] <= 2 * (n - j),
                chunk_fits(data@, i as int, best),
                best_cost <= 2 * (n - i),
                best_cost == chunk_cost(best) + cost@[i + chunk_len(best)],
                forall|l: int|
                    0 < l <= run@[i as int] && !(l == MAX_CHUNK && data@[i as int] == 0xFF)
                        ==> best_cost <= 2 + #[trigger] cost@[i + l],
                forall|l: int| len < l <= longest ==> best_cost <= 1 + l + #[trigger] cost@[i + l],
            decreases len,
        {
            let total = 1 + len + cost[i + len];
            if total < best_cost {
                best_cost = total;
                best = Chunk::Copy(len);
            }
            len = len - 1;
        }
        let ghost before = choice@;
        cost.set(i, best_cost);
        choice.set(i, best);
        proof {
            let c = best;
            let l = chunk_len(c);
            assert forall|j: int| i < j < n implies spec_encode_from(data@, choice@, j)
                == spec_encode_from(data@, before, j) by {
                lemma_encode_frame(data@, before, i as int, c, j);
            }
            assert(choice@ == before.update(i as int, c));
            lemma_encode_frame(data@, before, i as int, c, i + l);
            assert(spec_encode_from(data@, choice@, i as int) == spec_chunk_bytes(data@, i as int, c)
                + spec_encode_from(data@, choice@, i + l));
            if i + l < n {
                assert(cost@[i + l] + 2 == spec_encode_from(data@, before, i + l).len());
            } else {
                assert(spec_encode_from(data@, choice@, i + l) == seq![0xFFu8, 0xFFu8]);
            }
            assert forall|j: int, p: Seq<Chunk>|
                i <= j <= n && #[trigger] is_parse(data@, p, j) implies cost@[j] <= parse_cost(p) by {
                if j == i {
                    let first = p[0];
                    let rest = p.drop_first();
                    let fl = chunk_len(first);
                    assert(is_parse(data@, rest, i + fl));
                    lemma_parse_cost_nonnegative(rest);
                    match first {
                        Chunk::Run(rl) => {
                            if rl > run@[i as int] {
                                assert(data@[i + run@[i as int]] == data@[i as int]);
                            }
                        },
                        Chunk::Copy(cl) => {},
                    }
                }
            }
        }
    }
    let mut out: Vec<u8> = Vec::new();
    let mut i: usize = 0;
    while i < n
        invariant
            i <= n,
            n == data@.len(),
            choices_fit(data@, choice@, 0),
            out@ + spec_encode_from(data@, choice@, i as int) == spec_encode_from(
                data@,
                choice@,
                0,
            ),
        decreases n - i,
    {
        let ghost before = out@;
        match choice[i] {
            Chunk::Run(len) => {
                out.push(RUN + (len - 1) as u8);
                out.push(data[i]);
                assert(out@ =~= before + spec_chunk_bytes(data@, i as int, choice@[i as int]));
                i = i + len;
            },
            Chunk::Copy(len) => {
                out.push((len - 1) as u8);
                let bytes = slice_range(data, i, i + len);
                append_slice(&mut out, bytes);
                assert(out@ =~= before + spec_chunk_bytes(data@, i as int, choice@[i as int]));
                i = i + len;
            },
        }
    }
    out.push(0xFF);
    out.push(0xFF);
    assert(out@ =~= spec_encode_from(data@, choice@, 0));
    assert(out@.len() == cost@[0] + 2);
    proof {
        let c = choice@[0];
        assert(chunk_fits(data@, 0, c));
        assert(out@ == spec_chunk_bytes(data@, 0, c) + spec_encode_from(data@, choice@, chunk_len(c)));
        match c {
            Chunk::Run(l) => {
                assert(out@[0] == (0x80 + (l - 1)) as u8);
                assert(out@[1] == data@[0]);
            },
            Chunk::Copy(l) => {
                assert(out@[0] == (l - 1) as u8);
            },
        }
    }
    proof {
        lemma_encoding_decodes(data@, choice@, 0, Seq::empty());
        assert(data@.subrange(0, 0) =~= Seq::<u8>::empty());
        assert(Seq::<u8>::empty() + out@ =~= out@);
    }
    Ok(out)
}

/// A stream of fitting chunks, behind anything, decodes from where it
/// starts to the rest of the data, and ends at its own end.
#[verifier::rlimit(40)]
pub proof fn lemma_encoding_decodes(data: Seq<u8>, choice: Seq<Chunk>, i: int, prefix: Seq<u8>)
    requires
        0 <= i < data.len(),
        data.len() <= MAX_OUTPUT,
        choices_fit(data, choice, i),
    ensures
        spec_decompress_from(
            prefix + spec_encode_from(data, choice, i),
            prefix.len() as int,
            data.subrange(0, i),
        ) == Ok::<(Seq<u8>, int), LzError>(
            (data, (prefix + spec_encode_from(data, choice, i)).len() as int),
        ),
    decreases data.len() - i,
{
    let c = choice[i];
    assert(chunk_fits(data, i, c));
    let l = chunk_len(c);
    let bytes = spec_chunk_bytes(data, i, c);
    let rest = spec_encode_from(data, choice, i + l);
    let s = prefix + spec_encode_from(data, choice, i);
    assert(spec_encode_from(data, choice, i) == bytes + rest);
    assert(s =~= (prefix + bytes) + rest);
    let p = prefix.len() as int;
    let j = p + bytes.len();
    let d0 = data.subrange(0, i);
    let out2 = data.subrange(0, i + l);
    assert(rest.len() >= 2) by {
        lemma_encoding_len(data, choice, i + l);
    }
    lemma_chunk_step(data, i, c, prefix, rest);
    assert(spec_decompress_from(s, p, d0) == (if j + 2 <= s.len() && s[j] == 0xFF && s[j + 1]
        == 0xFF {
        Ok((out2, j + 2))
    } else {
        spec_decompress_from(s, j, out2)
    }));
    if i + l >= data.len() {
        assert(rest == seq![0xFFu8, 0xFFu8]);
        assert(s[j] == 0xFF && s[j + 1] == 0xFF);
        assert(out2 =~= data);
    } else {
        let c2 = choice[i + l];
        assert(chunk_fits(data, i + l, c2));
        let l2 = chunk_len(c2);
        assert(rest == spec_chunk_bytes(data, i + l, c2) + spec_encode_from(data, choice, i + l + l2));
        assert(s[j] == rest[0] && s[j + 1] == rest[1]);
        assert(!(s[j] == 0xFF && s[j + 1] == 0xFF)) by {
            match c2 {
                Chunk::Run(len2) => {
                    if len2 == MAX_CHUNK {
                        assert(rest[1] == data[i + l]);
                    }
                },
                Chunk::Copy(len2) => {},
            }
        }
        lemma_encoding_decodes(data, choice, i + l, prefix + bytes);
        assert(prefix + bytes + rest =~= s);
    }
}

/// An encoding holds at least the terminator.
pub proof fn lemma_encoding_len(data: Seq<u8>, choice: Seq<Chunk>, i: int)
    ensures
        spec_encode_from(data, choice, i).len() >= 2,
    decreases data.len() - i,
{
    if i >= data.len() || i < 0 || i >= choice.len() {
    } else {
        let c = choice[i];
        if chunk_len(c) >= 1 && i + chunk_len(c) <= data.len() {
            lemma_encoding_len(data, choice, i + chunk_len(c));
        }
    }
}

/// Decoding one fitting chunk adds its bytes to the output and moves past it.
#[verifier::rlimit(40)]
pub proof fn lemma_chunk_step(data: Seq<u8>, i: int, c: Chunk, prefix: Seq<u8>, rest: Seq<u8>)
    requires
        0 <= i < data.len(),
        data.len() <= MAX_OUTPUT,
        chunk_fits(data, i, c),
        rest.len() >= 2,
    ensures
        ({
            let s = prefix + spec_chunk_bytes(data, i, c) + rest;
            let p = prefix.len() as int;
            let j = p + spec_chunk_bytes(data, i, c).len();
            let out2 = data.subrange(0, i + chunk_len(c));
            spec_decompress_from(s, p, data.subrange(0, i)) == (if j + 2 <= s.len() && s[j]
                == 0xFF && s[j + 1] == 0xFF {
                Ok((out2, j + 2))
            } else {
                spec_decompress_from(s, j, out2)
            })
        }),
{
    let bytes = spec_chunk_bytes(data, i, c);
    let s = prefix + bytes + rest;
    let p = prefix.len() as int;
    let d0 = data.subrange(0, i);
    let out2 = data.subrange(0, i + chunk_len(c));
    match c {
        Chunk::Run(len) => {
            let h = (0x80 + (len - 1)) as u8;
            assert(s[p] == h);
            assert(s[p + 1] == data[i]);
            assert(h >= 128 && h % 128 + 1 == len);
            assert(d0 + Seq::new(len as nat, |k: int| s[p + 1]) =~= out2);
        },
        Chunk::Copy(len) => {
            let h = (len - 1) as u8;
            assert(s[p] == h);
            assert(h < 128 && h % 128 + 1 == len);
            assert(s.subrange(p + 1, p + 1 + len) =~= data.subrange(i, i + len));
            assert(d0 + s.subrange(p + 1, p + 1 + len) =~= out2);
        },
    }
}

} // verus!
