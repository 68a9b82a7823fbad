use kobo_core::bps::{
    apply, apply_to_rom, crc32, create, info, number_len, BpsError, Reader, SourceForm, Writer,
    COPIER_HEADER_LEN, FOOTER_LEN, MAX_TARGET_LEN, SOURCE_COPY, SOURCE_READ, TARGET_COPY,
    TARGET_READ,
};

const MAGIC: &[u8; 4] = b"BPS1";

fn random(seed: u64, len: usize) -> Vec<u8> {
    let mut s = seed | 1;
    (0..len)
        .map(|_| {
            s ^= s << 13;
            s ^= s >> 7;
            s ^= s << 17;
            s as u8
        })
        .collect()
}

/// The actions of a valid patch, as (action, length).
fn actions(patch: &[u8]) -> Vec<(u64, usize)> {
    let info = info(patch).unwrap();
    let mut r = Reader {
        patch,
        pos: info.actions,
        end: patch.len() - FOOTER_LEN,
    };
    let mut list = Vec::new();
    while r.pos < r.end {
        let word = r.number().unwrap();
        let len = (word >> 2) as usize + 1;
        match word & 3 {
            TARGET_READ => r.pos += len,
            SOURCE_COPY | TARGET_COPY => {
                r.number().unwrap();
            }
            _ => {}
        }
        list.push((word & 3, len));
    }
    list
}

fn round_trip(source: &[u8], target: &[u8]) -> Vec<u8> {
    let patch = create(source, target);
    assert_eq!(apply(&patch, source).unwrap(), target);
    patch
}

/// Hand-assembles a patch, footer CRCs included.
struct Build(Writer);

impl Build {
    fn new(source: usize, target: usize) -> Self {
        let mut w = Writer {
            patch: MAGIC.to_vec(),
            source_rel: 0,
            target_rel: 0,
        };
        w.number(source as u64);
        w.number(target as u64);
        w.number(0);
        Build(w)
    }

    fn raw(mut self, n: u64) -> Self {
        self.0.number(n);
        self
    }

    fn bytes(mut self, b: &[u8]) -> Self {
        self.0.patch.extend_from_slice(b);
        self
    }

    fn finish(self, source: &[u8], target: &[u8]) -> Vec<u8> {
        let mut patch = self.0.patch;
        patch.extend_from_slice(&crc32(source).to_le_bytes());
        patch.extend_from_slice(&crc32(target).to_le_bytes());
        let crc = crc32(&patch);
        patch.extend_from_slice(&crc.to_le_bytes());
        patch
    }
}

fn refresh_crc(patch: &mut [u8]) {
    let n = patch.len();
    let crc = crc32(&patch[..n - 4]);
    patch[n - 4..].copy_from_slice(&crc.to_le_bytes());
}

#[test]
fn crc32_check_value() {
    assert_eq!(crc32(b"123456789"), 0xCBF4_3926);
    assert_eq!(crc32(b""), 0);
}

#[test]
fn numbers_round_trip_and_reject_overflow() {
    for n in [0, 1, 0x7F, 0x80, 0x407F, 0x4080, u32::MAX as u64, u64::MAX] {
        let mut w = Writer {
            patch: Vec::new(),
            source_rel: 0,
            target_rel: 0,
        };
        w.number(n);
        assert_eq!(w.patch.len(), number_len(n), "{n:#x}");
        let end = w.patch.len();
        let mut r = Reader {
            patch: &w.patch,
            pos: 0,
            end,
        };
        assert_eq!(r.number(), Ok(n));
        let mut r = Reader {
            patch: &w.patch,
            pos: 0,
            end: end - 1,
        };
        assert_eq!(r.number(), Err(BpsError::Truncated(0)));
    }
    let long = [0u8; 11];
    let mut r = Reader {
        patch: &long,
        pos: 0,
        end: 11,
    };
    assert_eq!(r.number(), Err(BpsError::Overflow(0)));
}

#[test]
fn each_action_applies() {
    let source = b"abcdefgh";
    let target = b"abcXYZZZZZcdefgh";
    let patch = Build::new(8, 16)
        .raw(((3 - 1) << 2) | SOURCE_READ) // abc
        .raw(((3 - 1) << 2) | TARGET_READ) // XYZ
        .bytes(b"XYZ")
        .raw(((4 - 1) << 2) | TARGET_COPY) // ZZZZ from the Z at 5, overlapping
        .raw(5 << 1)
        .raw(((4 - 1) << 2) | SOURCE_COPY) // cdef, cursor 0 to 2
        .raw(2 << 1)
        .raw(((2 - 1) << 2) | SOURCE_COPY) // gh, where the last copy ended
        .raw(0)
        .finish(source, target);
    assert_eq!(apply(&patch, source).unwrap(), target);
    let _ = info(&patch).unwrap();
}

#[test]
fn negative_offsets_move_cursors_back() {
    let source = b"0123456789";
    let target = b"789012";
    let patch = Build::new(10, 6)
        .raw(((3 - 1) << 2) | SOURCE_COPY)
        .raw(7 << 1) // cursor 0 -> 7, ends at 10
        .raw(((3 - 1) << 2) | SOURCE_COPY)
        .raw((10 << 1) | 1) // 10 -> 0
        .finish(source, target);
    assert_eq!(apply(&patch, source).unwrap(), target);
}

#[test]
fn create_picks_each_action() {
    let source = random(1, 4096);
    // Unchanged: one SourceRead.
    assert_eq!(
        actions(&round_trip(&source, &source)),
        [(SOURCE_READ, 4096)]
    );
    // New bytes: one TargetRead.
    let fresh = random(2, 100);
    assert_eq!(actions(&round_trip(&[], &fresh)), [(TARGET_READ, 100)]);
    // A moved block: a SourceCopy.
    let mut moved = source.clone();
    moved[..512].copy_from_slice(&source[2048..2560]);
    let list = actions(&round_trip(&source, &moved));
    assert_eq!(list, [(SOURCE_COPY, 512), (SOURCE_READ, 4096 - 512)]);
    // A run: one literal byte and a TargetCopy over itself.
    let mut run = source.clone();
    run[100..1100].fill(0xEE);
    let list = actions(&round_trip(&source, &run));
    assert!(list.contains(&(TARGET_COPY, 999)), "{list:?}");
    // A repeat of new data: a TargetCopy.
    let target = [fresh.as_slice(), &fresh].concat();
    let list = actions(&round_trip(&[], &target));
    assert_eq!(list, [(TARGET_READ, 100), (TARGET_COPY, 100)]);
}

#[test]
fn round_trips_random_and_structured_inputs() {
    for seed in 1..40u64 {
        let a = random(seed, (seed as usize * 37) % 3000);
        let b = random(seed + 1000, (seed as usize * 53) % 3000);
        round_trip(&a, &b);
        round_trip(&b, &a);
    }
    // A ROM-like edit: changes, an insertion, a deletion, a moved and
    // a duplicated block, and expansion into filled free space.
    let source: Vec<u8> = random(7, 0x2_0000)
        .iter()
        .enumerate()
        .map(|(i, &b)| if i % 0x4000 < 0x1000 { 0xFF } else { b })
        .collect();
    let mut target = source.clone();
    target[0x100..0x140].copy_from_slice(&random(8, 0x40));
    target.splice(0x5000..0x5000, random(9, 0x333));
    target.drain(0x9000..0x9100);
    let block = source[0x12000..0x13000].to_vec();
    target[0x2000..0x3000].copy_from_slice(&block);
    target.extend_from_slice(&block);
    target.resize(0x4_0000, 0);
    let patch = round_trip(&source, &target);
    assert!(patch.len() < 0x800, "{} bytes", patch.len());
    // Shrinking.
    round_trip(&target, &source);
    round_trip(&source, &source[..0x1_0000]);
}

#[test]
fn empty_and_equal_inputs() {
    assert_eq!(apply(&round_trip(&[], &[]), &[]).unwrap(), b"");
    round_trip(b"abc", &[]);
    round_trip(&[], b"abc");
    let data = random(3, 0x1_0000);
    assert!(round_trip(&data, &data).len() < 32);
}

#[test]
fn create_is_deterministic() {
    let source = random(11, 0x8000);
    let mut target = source.clone();
    target[0x1000..0x1800].copy_from_slice(&random(12, 0x800));
    target.extend_from_slice(&source[..0x3000]);
    target.resize(0x1_0000, 0xFF);
    let patch = create(&source, &target);
    assert_eq!(create(&source, &target), patch);
    // Pins the output on every platform. A deliberate change to `create`
    // updates this value.
    assert_eq!(
        (patch.len(), crc32(&patch)),
        (2090, 0x2144_DF1C),
        "{:#010x}",
        crc32(&patch)
    );
}

#[test]
fn crc_mismatches_are_errors() {
    let source = random(4, 1000);
    let fresh = random(40, 10);
    let mut target = source.clone();
    target[10..20].copy_from_slice(&fresh);
    let patch = create(&source, &target);

    let mut wrong_source = source.clone();
    wrong_source[500] ^= 1;
    assert!(matches!(
        apply(&patch, &wrong_source),
        Err(BpsError::SourceCrc { .. })
    ));
    assert!(matches!(
        apply(&patch, &source[1..]),
        Err(BpsError::SourceSize { .. })
    ));

    let mut damaged = patch.clone();
    damaged[8] ^= 0x40;
    assert!(matches!(
        apply(&damaged, &source),
        Err(BpsError::PatchCrc { .. })
    ));

    // A changed TargetRead byte, with the patch's own CRC fixed up.
    let at = patch.windows(10).position(|w| w == fresh).unwrap();
    let mut forged = patch.clone();
    forged[at] ^= 1;
    refresh_crc(&mut forged);
    assert!(matches!(
        apply(&forged, &source),
        Err(BpsError::TargetCrc { .. })
    ));
}

#[test]
fn truncated_and_garbage_patches_are_errors() {
    let source = random(5, 3000);
    let mut target = random(6, 2000);
    target.extend_from_slice(&source[..1000]);
    let patch = create(&source, &target);
    for n in 0..patch.len() {
        assert!(apply(&patch[..n], &source).is_err(), "prefix {n}");
        let mut fixed = patch[..n].to_vec();
        if n >= 4 {
            refresh_crc(&mut fixed);
        }
        assert!(apply(&fixed, &source).is_err(), "prefix {n}, CRC fixed");
    }
    for seed in 0..200 {
        let mut garbage = random(seed, seed as usize * 3);
        if garbage.len() >= 4 {
            garbage[..4].copy_from_slice(MAGIC);
        }
        if garbage.len() >= 8 {
            refresh_crc(&mut garbage);
        }
        let _ = apply(&garbage, &source);
    }
    assert_eq!(apply(b"UPS1", &source), Err(BpsError::TooShort(4)));
    let mut not_bps = vec![0u8; 32];
    not_bps[..4].copy_from_slice(b"UPS1");
    assert_eq!(apply(&not_bps, &source), Err(BpsError::BadMagic));
}

#[test]
fn malformed_actions_are_errors() {
    let source = b"abcdefgh";
    let out_of = |patch: Vec<u8>| match apply(&patch, source) {
        Err(BpsError::OutOfBounds { region, .. }) => region,
        other => panic!("{other:?}"),
    };
    // SourceRead past the end of the source.
    let t = [0u8; 10];
    let p = Build::new(8, 10)
        .raw((9 << 2) | SOURCE_READ)
        .finish(source, &t);
    assert_eq!(out_of(p), "source");
    // An action past the declared target.
    let p = Build::new(8, 4)
        .raw((4 << 2) | SOURCE_READ)
        .finish(source, b"abcd");
    assert_eq!(out_of(p), "target");
    // TargetRead past the actions.
    let p = Build::new(8, 4)
        .raw((3 << 2) | TARGET_READ)
        .bytes(b"ab")
        .finish(source, b"abcd");
    assert!(apply(&p, source).is_err());
    // SourceCopy before the start and past the end.
    let p = Build::new(8, 1)
        .raw(SOURCE_COPY)
        .raw(3) // -1
        .finish(source, b"a");
    assert_eq!(out_of(p), "source");
    let p = Build::new(8, 2)
        .raw((1 << 2) | SOURCE_COPY)
        .raw(7 << 1)
        .finish(source, b"hh");
    assert_eq!(out_of(p), "source");
    // TargetCopy of nothing written yet.
    let p = Build::new(8, 1)
        .raw(TARGET_COPY)
        .raw(0)
        .finish(source, b"a");
    assert_eq!(out_of(p), "target written so far");
    // Too few bytes written.
    let p = Build::new(8, 4)
        .raw((1 << 2) | SOURCE_READ)
        .finish(source, b"abcd");
    assert!(matches!(
        apply(&p, source),
        Err(BpsError::TargetSize { .. })
    ));
    // An enormous declared target is refused before it is allocated.
    let p = Build::new(8, MAX_TARGET_LEN + 1).finish(source, b"");
    assert!(matches!(apply(&p, source), Err(BpsError::TooLarge(_))));
}

/// A 32 KiB LoROM image.
fn small_rom() -> Vec<u8> {
    let mut data = random(21, 0x8000);
    data[0x7FD5] = 0x20;
    data
}

/// A ROM file as a loader splits it: a copier header, when the file is
/// one over whole 32 KiB banks, and the image behind it.
fn load(file: Vec<u8>) -> (Vec<u8>, Option<Vec<u8>>) {
    if file.len() % 0x8000 == COPIER_HEADER_LEN {
        (file[COPIER_HEADER_LEN..].to_vec(), Some(file[..COPIER_HEADER_LEN].to_vec()))
    } else {
        (file, None)
    }
}

#[test]
fn applies_to_rom_images_with_and_without_a_header() {
    let clean = small_rom();
    let mut target = clean.clone();
    target[0x100..0x110].fill(0x42);
    target.resize(0x1_0000, 0);
    let (rom, rom_header) = load(clean.clone());
    assert!(rom_header.is_none());

    let plain = create(&clean, &target);
    let p = apply_to_rom(&plain, &rom, None).unwrap();
    assert_eq!((p.data, p.source), (target.clone(), SourceForm::Headerless));

    let zero = [&[0u8; COPIER_HEADER_LEN][..], &clean].concat();
    let headered_target = [&[0u8; COPIER_HEADER_LEN][..], &target].concat();
    let headered = create(&zero, &headered_target);
    let p = apply_to_rom(&headered, &rom, None).unwrap();
    assert_eq!((p.data, p.source), (target.clone(), SourceForm::ZeroHeader));

    // 32 KiB is four 8 KiB units.
    let mut size = [0u8; COPIER_HEADER_LEN];
    size[0] = 4;
    let sized = create(
        &[&size[..], &clean].concat(),
        &[&size[..], &target].concat(),
    );
    let p = apply_to_rom(&sized, &rom, None).unwrap();
    assert_eq!((p.data, p.source), (target.clone(), SourceForm::SizeHeader));

    // A ROM loaded with its own header matches a patch made with it.
    let own = [&[0x11u8; COPIER_HEADER_LEN][..], &clean].concat();
    let (own_rom, own_header) = load(own.clone());
    let own_header = own_header.unwrap();
    let with_own = create(&own, &[&[0x11u8; COPIER_HEADER_LEN][..], &target].concat());
    let p = apply_to_rom(&with_own, &own_rom, Some(&own_header)).unwrap();
    assert_eq!((p.data, p.source), (target.clone(), SourceForm::OwnHeader));
    assert!(matches!(
        apply_to_rom(&with_own, &rom, None),
        Err(BpsError::SourceMismatch { .. })
    ));
    // Headerless and zero-headered patches apply to it as well.
    assert_eq!(
        apply_to_rom(&plain, &own_rom, Some(&own_header)).unwrap().data,
        target
    );
    assert_eq!(
        apply_to_rom(&headered, &own_rom, Some(&own_header)).unwrap().data,
        target
    );
}
