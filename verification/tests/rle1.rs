
use kobo_core::compress::rle1::{compress, decompress};
use kobo_core::compress::{Decompressed, LzError, MAX_OUTPUT};

const END: [u8; 2] = [0xFF, 0xFF];

fn round_trip(data: &[u8]) -> Vec<u8> {
    let packed = compress(data).unwrap();
    let unpacked = decompress(&packed).unwrap();
    assert_eq!(unpacked.data, data);
    assert_eq!(unpacked.consumed, packed.len());
    packed
}

#[test]
fn chunks() {
    assert_eq!(
        decompress(&[0x82, 0x25, 0x01, 0x10, 0x11, 0xFF, 0xFF, 0x99]).unwrap(),
        Decompressed {
            data: vec![0x25, 0x25, 0x25, 0x10, 0x11],
            consumed: 7,
        }
    );
    assert_eq!(round_trip(&[0x25; 3]), [0x82, 0x25, 0xFF, 0xFF]);
    assert_eq!(round_trip(&[1, 2, 3]), [0x02, 1, 2, 3, 0xFF, 0xFF]);
}

#[test]
fn the_terminator_is_checked_only_between_chunks() {
    // A copy of $FF $FF is data; the first chunk is always read.
    let data = decompress(&[0x01, 0xFF, 0xFF, 0xFF, 0xFF]).unwrap();
    assert_eq!(data.data, [0xFF, 0xFF]);
    let data = decompress(&[0xFF, 0x01, 0xFF, 0xFF]).unwrap();
    assert_eq!(data.data, [0x01; 128]);
    // So a run of 128 $FF is split.
    let packed = round_trip(&[0xFF; 128]);
    assert_ne!(packed[..2], END);
}

#[test]
fn shortest_and_stable() {
    let mut data = vec![0x25; 300];
    data.extend(0..200u8);
    data.extend([7; 2]);
    data.extend(0..5);
    let packed = round_trip(&data);
    // 300 = 128 + 128 + 44 in runs, then copies with the pair inside.
    assert_eq!(packed.len(), 3 * 2 + (2 + 207) + 2);
    assert_eq!(compress(&data).unwrap(), packed);
    for len in [1, 127, 128, 129, 1000] {
        round_trip(&vec![0xFF; len]);
        round_trip(&(0..len).map(|i| (i * 7) as u8).collect::<Vec<_>>());
    }
}

#[test]
fn limits() {
    assert_eq!(decompress(&[0x05, 1, 2]), Err(LzError::Truncated(3)));
    assert_eq!(decompress(&[0x81]), Err(LzError::Truncated(1)));
    assert!(compress(&[]).is_err());
    assert_eq!(compress(&vec![0; MAX_OUTPUT + 1]), Err(LzError::TooLarge));
    let endless: Vec<u8> = std::iter::repeat_n([0xFF, 0x00], 600).flatten().collect();
    assert_eq!(decompress(&endless), Err(LzError::TooLarge));
}
