
use kobo_core::compress::lz3::decompress;
use kobo_core::compress::LzError;

fn ok(input: &[u8]) -> Vec<u8> {
    let d = decompress(input).unwrap();
    assert_eq!(d.consumed, input.len());
    d.data
}

#[test]
fn shares_the_first_three_commands_with_lz2() {
    assert_eq!(ok(&[0xFF]), b"");
    assert_eq!(ok(&[0x02, b'a', b'b', b'c', 0xFF]), b"abc");
    assert_eq!(ok(&[0x20 | 0x03, b'A', 0xFF]), b"AAAA");
    assert_eq!(ok(&[0x40 | 0x04, b'A', b'B', 0xFF]), b"ABABA");
}

#[test]
fn zero_fill_takes_no_operand() {
    assert_eq!(ok(&[0x60 | 0x02, 0x00, b'x', 0xFF]), [0, 0, 0, b'x']);
    // Long header: command 3, length 0x100 + 1.
    assert_eq!(ok(&[0xE0 | (3 << 2) | 0x01, 0x00, 0xFF]), vec![0; 257]);
}

#[test]
fn copies_from_an_absolute_offset() {
    assert_eq!(
        ok(&[0x02, b'a', b'b', b'c', 0x80 | 0x01, 0x00, 0x01, 0xFF]),
        b"abcbc"
    );
    // Overlapping what it writes repeats the pattern.
    assert_eq!(
        ok(&[0x02, b'a', b'b', b'c', 0x80 | 0x04, 0x00, 0x01, 0xFF]),
        b"abcbcbcb"
    );
}

#[test]
fn copies_from_an_offset_back_from_the_end() {
    // `$80` is the last byte written, `$81` the one before it.
    assert_eq!(ok(&[0x02, b'a', b'b', b'c', 0x80, 0x80, 0xFF]), b"abcc");
    assert_eq!(
        ok(&[0x02, b'a', b'b', b'c', 0x80 | 0x03, 0x81, 0xFF]),
        b"abcbcbc"
    );
}

#[test]
fn copies_with_bits_reversed() {
    assert_eq!(
        ok(&[0x01, 0x01, 0xF0, 0xA0 | 0x01, 0x00, 0x00, 0xFF]),
        [0x01, 0xF0, 0x80, 0x0F]
    );
}

#[test]
fn copies_backwards() {
    assert_eq!(
        ok(&[0x02, b'a', b'b', b'c', 0xC0 | 0x02, 0x80, 0xFF]),
        b"abccba"
    );
    assert_eq!(
        ok(&[0x02, b'a', b'b', b'c', 0xC0 | 0x01, 0x00, 0x01, 0xFF]),
        b"abcba"
    );
}

#[test]
fn lz3_errors() {
    assert_eq!(decompress(&[]), Err(LzError::Truncated(0)));
    assert_eq!(decompress(&[0x80, 0x00]), Err(LzError::Truncated(2)));
    assert_eq!(
        decompress(&[0xE0 | (7 << 2), 0x00, 0xFF]),
        Err(LzError::BadCommand { cmd: 7, offset: 0 })
    );
    // An offset at or past the end, further back than the start, and
    // a backwards copy longer than what lies before its source.
    assert_eq!(
        decompress(&[0x00, b'a', 0x80, 0x00, 0x01, 0xFF]),
        Err(LzError::BadBackRef {
            src: 1,
            len: 1,
            offset: 2
        })
    );
    assert_eq!(
        decompress(&[0x00, b'a', 0x80, 0x81, 0xFF]),
        Err(LzError::BadBackRef {
            src: 0,
            len: 1,
            offset: 2
        })
    );
    assert_eq!(
        decompress(&[0x01, b'a', b'b', 0xC0 | 0x02, 0x80, 0xFF]),
        Err(LzError::BadBackRef {
            src: 1,
            len: 2,
            offset: 3
        })
    );
}
