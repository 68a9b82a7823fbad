
use kobo_core::compress::lz2::{compress, decompress};
use kobo_core::compress::{LzError, Reader, LONG_LEN, MAX_OUTPUT, SHORT_LEN};
use std::cmp::Reverse;

fn ok(input: &[u8]) -> Vec<u8> {
    let d = decompress(input).unwrap();
    assert_eq!(d.consumed, input.len());
    d.data
}

#[test]
fn empty_stream() {
    assert_eq!(ok(&[0xFF]), b"");
}

#[test]
fn direct_copy() {
    assert_eq!(ok(&[0x02, b'a', b'b', b'c', 0xFF]), b"abc");
}

#[test]
fn byte_fill() {
    assert_eq!(ok(&[0x20 | 0x03, b'A', 0xFF]), b"AAAA");
}

#[test]
fn word_fill() {
    assert_eq!(ok(&[0x40 | 0x04, b'A', b'B', 0xFF]), b"ABABA");
}

#[test]
fn incrementing_fill() {
    assert_eq!(ok(&[0x60 | 0x03, 0x10, 0xFF]), [0x10, 0x11, 0x12, 0x13]);
    // Wraps around at 256.
    assert_eq!(ok(&[0x60 | 0x02, 0xFE, 0xFF]), [0xFE, 0xFF, 0x00]);
}

#[test]
fn back_reference() {
    assert_eq!(
        ok(&[0x02, b'a', b'b', b'c', 0x80 | 0x01, 0x00, 0x00, 0xFF]),
        b"abcab"
    );
}

#[test]
fn overlapping_back_reference_repeats() {
    assert_eq!(
        ok(&[0x02, b'a', b'b', b'c', 0x80 | 0x04, 0x00, 0x01, 0xFF]),
        b"abcbcbcb"
    );
}

#[test]
fn long_direct_copy() {
    let payload: Vec<u8> = (0..=255).chain(0..1).collect();
    let mut input = vec![0xE0 | 0x01, 0x00]; // long header, command 0
    input.extend(&payload);
    input.push(0xFF);
    assert_eq!(ok(&input), payload);
}

#[test]
fn long_byte_fill() {
    // Long header for command 1 with length 0x3FF + 1 = 1024.
    assert_eq!(
        ok(&[0xE0 | (1 << 2) | 0x03, 0xFF, 0x7E, 0xFF]),
        vec![0x7E; 1024]
    );
}

#[test]
fn consumed_ignores_trailing_bytes() {
    let d = decompress(&[0x00, b'x', 0xFF, 0xAA, 0xBB]).unwrap();
    assert_eq!(d.data, b"x");
    assert_eq!(d.consumed, 3);
}

#[test]
fn lz2_errors() {
    assert_eq!(decompress(&[]), Err(LzError::Truncated(0)));
    assert_eq!(decompress(&[0x02, b'a']), Err(LzError::Truncated(2)));
    assert_eq!(decompress(&[0x00, b'a']), Err(LzError::Truncated(2)));
    assert_eq!(
        decompress(&[0xA0, 0x00, 0xFF]),
        Err(LzError::BadCommand { cmd: 5, offset: 0 })
    );
    assert_eq!(
        decompress(&[0xE0 | (7 << 2), 0x00, 0xFF]),
        Err(LzError::BadCommand { cmd: 7, offset: 0 })
    );
    assert_eq!(
        decompress(&[0x00, b'a', 0x80, 0x00, 0x05, 0xFF]),
        Err(LzError::BadBackRef {
            src: 5,
            len: 1,
            offset: 2
        })
    );
}

#[test]
fn output_limit() {
    // 65 fills of 1024 bytes exceed 64 KiB.
    let mut input = Vec::new();
    for _ in 0..65 {
        input.extend([0xE0 | (1 << 2) | 0x03, 0xFF, 0x00]);
    }
    input.push(0xFF);
    assert_eq!(decompress(&input), Err(LzError::TooLarge));
}

/// Compresses `data`, checking that it compresses the same way twice,
/// reads back whole, uses only commands 0 to 4, and is no larger than
/// storing it.
fn packed(data: &[u8]) -> Vec<u8> {
    let out = compress(data).unwrap();
    assert_eq!(compress(data).unwrap(), out);
    let back = decompress(&out).unwrap();
    assert!(back.data == data, "round trip differs");
    assert_eq!(back.consumed, out.len());
    let mut reader = Reader {
        input: &out,
        pos: 0,
    };
    while let Some((cmd, len)) = reader.chunk().unwrap() {
        assert!(cmd <= 4, "command {cmd}");
        reader.pos += match cmd {
            0 => len,
            1 | 3 => 1,
            _ => 2,
        };
    }
    assert!(out.len() <= data.len() + 2 * data.len().div_ceil(1024) + 1);
    out
}

/// Bytes from a xorshift generator, which nothing compresses.
fn noise(len: usize, mut seed: u64) -> Vec<u8> {
    (0..len)
        .map(|_| {
            seed ^= seed << 13;
            seed ^= seed >> 7;
            seed ^= seed << 17;
            (seed >> 24) as u8
        })
        .collect()
}

#[test]
fn compresses_empty_input_to_the_terminator() {
    assert_eq!(packed(&[]), [0xFF]);
}

#[test]
fn breaks_ties_the_same_way() {
    // One byte: a direct copy and a fill cost the same; the lower
    // command wins.
    assert_eq!(packed(&[7]), [0x00, 7, 0xFF]);
    assert_eq!(packed(&[7, 7]), [0x21, 7, 0xFF]);
    assert_eq!(packed(&[0x10, 0x11]), [0x61, 0x10, 0xFF]);
    assert_eq!(
        packed(&[1, 1, 1, 1, 5, 6, 7, 8, 9, 0x41, 0x42, 0x41, 0x42, 0x41]),
        [0x23, 1, 0x64, 5, 0x44, 0x41, 0x42, 0xFF]
    );
    // Five bytes and a copy of three of them, or eight bytes as they
    // are: the same size, and one chunk is fewer than two.
    let pattern = [0x12, 0x9A, 0x34, 0xF0, 0x56];
    let data: Vec<u8> = pattern.iter().chain(&pattern[..3]).copied().collect();
    let mut want = vec![0x07];
    want.extend(&data);
    want.push(0xFF);
    assert_eq!(packed(&data), want);
    // 1025 bytes as 1024 and 1, or 993 and 32, or ...: the longest
    // first, then a direct copy over a fill of one byte.
    assert_eq!(
        packed(&[0x7E; 1025]),
        [0xE0 | (1 << 2) | 0x03, 0xFF, 0x7E, 0x00, 0x7E, 0xFF]
    );
}

/// Sizes at the header boundaries, for each command.
#[test]
fn switches_to_long_headers_after_32_bytes() {
    for name in ["byte", "incrementing"] {
        let fill = |i: usize| if name == "byte" { 0x7E } else { i as u8 };
        for (len, size) in [
            (1, 3),
            (2, 3),
            (32, 3),
            (33, 4),
            (1024, 4),
            (1025, 6),
            (1056, 6),
            (1057, 7),
            (2048, 7),
        ] {
            let data: Vec<u8> = (0..len).map(fill).collect();
            assert_eq!(packed(&data).len(), size, "{name} fill of {len}");
        }
    }
    let word = |i: usize| [0x12, 0x34][i & 1];
    // Two bytes are a direct copy; odd lengths end on the first byte.
    for (len, size) in [(1, 3), (2, 4), (3, 4), (32, 4), (33, 5), (1024, 5)] {
        let data: Vec<u8> = (0..len).map(word).collect();
        assert_eq!(packed(&data).len(), size, "word fill of {len}");
    }
    for (len, size) in [(1025, 7), (1056, 8), (1057, 9)] {
        let data: Vec<u8> = (0..len).map(word).collect();
        assert_eq!(packed(&data).len(), size, "word fill of {len}");
    }
    // Five bytes, then a back-reference that overlaps its own output.
    // Past 1024, the direct copy takes the extra byte instead.
    let pattern = [0x12, 0x9A, 0x34, 0xF0, 0x56];
    for (len, size) in [(4, 10), (32, 10), (33, 11), (1024, 11), (1025, 12)] {
        let data: Vec<u8> = pattern.iter().cycle().take(5 + len).copied().collect();
        assert_eq!(packed(&data).len(), size, "back-reference of {len}");
    }
}

#[test]
fn back_references_repeat_what_they_overlap() {
    let pattern = [0x12, 0x9A, 0x34, 0xF0, 0x56];
    let data: Vec<u8> = pattern.iter().cycle().take(15).copied().collect();
    let mut want = vec![0x04];
    want.extend(pattern);
    want.extend([0x80 | 9, 0x00, 0x00, 0xFF]);
    assert_eq!(packed(&data), want);
    // A back-reference to a later copy of a stretch of noise, past
    // runs that cross both header boundaries.
    let stretch = noise(1100, 1);
    let mut data = stretch.clone();
    data.extend([0x00; 1030]);
    data.extend([0x11; 33]);
    data.extend((0..1030).map(|i| [0x12, 0x34][i & 1]));
    data.extend((0..1030).map(|i| i as u8));
    data.extend(&stretch);
    let alone = packed(&stretch).len() - 1;
    // Fills of 1024 and 6, 33, 1024 and 6, 1024 and 6, then two
    // back-references of 1024 and 76.
    let rest = (3 + 2) + 3 + (4 + 3) + (3 + 2) + (4 + 4);
    assert_eq!(packed(&data).len(), alone + rest + 1);
}

/// The chunks of the parse `compress` documents, found by trying every
/// command at every length, against every earlier position.
fn brute_force_parse(data: &[u8]) -> Vec<(u8, usize)> {
    let n = data.len();
    // How far each command reaches from `i`.
    let reach = |i: usize, cmd: u8| {
        let at = |k: usize| data[i + k];
        let run = |fits: &dyn Fn(usize) -> bool| (0..n - i).take_while(|&k| fits(k)).count();
        match cmd {
            0 => n - i,
            1 => run(&|k| at(k) == at(0)),
            2 if i + 1 < n => run(&|k| at(k) == at(k & 1)),
            2 => 0,
            3 => run(&|k| at(k) == at(0).wrapping_add(k as u8)),
            _ => (0..i)
                .map(|src| run(&|k| data[src + k] == at(k)))
                .max()
                .unwrap_or(0),
        }
    };
    let mut best = vec![(0, 0, Reverse(0), 0); n + 1];
    for i in (0..n).rev() {
        let mut here = None;
        for cmd in 0..=4 {
            for len in 1..=reach(i, cmd).min(LONG_LEN) {
                let header = if len <= SHORT_LEN { 1 } else { 2 };
                let operand = [len, 1, 2, 1, 2][cmd as usize];
                let (bytes, chunks, ..) = best[i + len];
                let candidate = (bytes + header + operand, chunks + 1, Reverse(len), cmd);
                if here.is_none_or(|here| candidate < here) {
                    here = Some(candidate);
                }
            }
        }
        best[i] = here.unwrap();
    }
    let mut chunks = Vec::new();
    let mut i = 0;
    while i < n {
        let (.., Reverse(len), cmd) = best[i];
        chunks.push((cmd, len));
        i += len;
    }
    chunks
}

#[test]
fn parses_as_trying_everything_does() {
    let mut seed = 0x2545_F491_4F6C_DD1D_u64;
    let mut next = move || {
        seed ^= seed << 13;
        seed ^= seed >> 7;
        seed ^= seed << 17;
        seed as usize
    };
    for case in 0..200 {
        // Few distinct bytes and runs of them, so that matches, fills,
        // and ties are everywhere.
        let len = next() % 300;
        let symbols = 1 + case % 4;
        let mut data = Vec::new();
        while data.len() < len {
            let b = (next() % symbols) as u8;
            let run = if next() % 4 == 0 { next() % 50 } else { 1 };
            match next() % 3 {
                0 => data.extend(std::iter::repeat_n(b, run)),
                1 => data.extend((0..run).map(|k| b.wrapping_add(k as u8))),
                _ => data.extend((0..run).map(|k| [b, 0x40][k & 1])),
            }
        }
        data.truncate(len);
        let out = packed(&data);
        let mut reader = Reader {
            input: &out,
            pos: 0,
        };
        let mut chunks = Vec::new();
        while let Some((cmd, len)) = reader.chunk().unwrap() {
            chunks.push((cmd, len));
            reader.pos += [len, 1, 2, 1, 2][cmd as usize];
        }
        assert_eq!(chunks, brute_force_parse(&data), "case {case}: {data:02X?}");
    }
}

#[test]
fn stores_noise_as_it_is() {
    let data = noise(4096, 7);
    assert_eq!(packed(&data).len(), 4096 + 4 * 2 + 1);
}

#[test]
fn takes_up_to_64_kib() {
    assert_eq!(
        compress(&vec![0; MAX_OUTPUT + 1]),
        Err(LzError::InputTooLarge(MAX_OUTPUT + 1))
    );
    assert_eq!(packed(&vec![0; MAX_OUTPUT]).len(), 64 * 3 + 1);
    // Noise with runs, repeats, and copies of earlier stretches.
    let mut data = noise(MAX_OUTPUT / 2, 3);
    for i in 0..MAX_OUTPUT / 2 {
        let b = match (i / 700) % 4 {
            0 => data[i * 7 % data.len()],
            1 => 0x5A,
            2 => i as u8,
            _ => data[i],
        };
        data.push(b);
    }
    packed(&data);
}
