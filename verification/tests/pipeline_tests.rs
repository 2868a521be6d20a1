use rrc_core::decoder::{decode_candidate, ring_format_words, DecodeOptions};
use rrc_core::encoder::{encode, EncodeOptions};
use rrc_core::geometry::{ring_count_for_version, EccLevel};
use rrc_core::mask::select_best_mask;
use rrc_core::{Mode, RrcError};

fn flat_penalty(_c: &Vec<Vec<bool>>) -> u64 {
    0
}

fn dark_count(c: &Vec<Vec<bool>>) -> u64 {
    c.iter().map(|r| r.iter().filter(|&&b| b).count() as u64).sum()
}

fn clear_flags(matrix: &[Vec<bool>]) -> Vec<Vec<bool>> {
    matrix.iter().map(|r| vec![false; r.len()]).collect()
}

#[test]
fn test_encode_short_text() {
    let data = b"https://github.com/MdSagorMunshi/rrc";
    let sym = encode(data, &EncodeOptions::default(), dark_count).expect("Encoding should succeed");
    assert!(sym.version >= 1);
    assert_eq!(sym.ecc_level, EccLevel::M);
    assert_eq!(sym.matrix.len(), ring_count_for_version(sym.version));
}

#[test]
fn test_encode_with_options() {
    let mut opts = EncodeOptions::default();
    opts.version = Some(2);
    opts.ecc_level = EccLevel::H;
    let sym = encode(b"RRC Test", &opts, dark_count).expect("Encoding should succeed");
    assert_eq!(sym.version, 2);
    assert_eq!(sym.ecc_level, EccLevel::H);
}

#[test]
fn encoded_symbol_reads_back() {
    let payload = b"HELLO RRC";
    let sym = encode(payload, &EncodeOptions::default(), dark_count).unwrap();
    assert_eq!(sym.mode, Mode::Alphanumeric);
    let erased = clear_flags(&sym.matrix);
    let res = decode_candidate(sym.version, sym.ecc_level, sym.mask_index, &sym.matrix, &erased)
        .expect("the symbol's own version, level and mask decode");
    assert_eq!(res.payload, payload);
    assert_eq!(res.text.as_deref(), Some("HELLO RRC"));
    assert_eq!(res.version, sym.version);
    assert_eq!(res.mode, Mode::Alphanumeric);
}

#[test]
fn encoded_symbol_carries_format_words() {
    let sym = encode(b"987654321012345", &EncodeOptions::default(), dark_count).unwrap();
    assert_eq!(sym.mode, Mode::Numeric);
    let (primary, mirrored) = ring_format_words(&sym.matrix[0]);
    assert_eq!(primary, Some((sym.ecc_level, sym.mask_index)));
    assert_eq!(mirrored, Some((sym.ecc_level, sym.mask_index)));
}

#[test]
fn damaged_symbol_is_corrected() {
    let mut opts = EncodeOptions::default();
    opts.ecc_level = EccLevel::H;
    let sym = encode(b"DAMAGE TEST", &opts, flat_penalty).unwrap();
    let mut cells = sym.matrix.clone();
    // Flip the data sectors 1..=8 of ring 1: at most two codewords.
    for s in 1..=8 {
        cells[1][s] = !cells[1][s];
    }
    let erased = clear_flags(&cells);
    let res = decode_candidate(sym.version, sym.ecc_level, sym.mask_index, &cells, &erased)
        .expect("level H corrects two damaged codewords");
    assert_eq!(res.payload, b"DAMAGE TEST");
}

#[test]
fn erased_sectors_help_correction() {
    let mut opts = EncodeOptions::default();
    opts.ecc_level = EccLevel::H;
    let sym = encode(b"ERASURE", &opts, flat_penalty).unwrap();
    let mut cells = sym.matrix.clone();
    let mut erased = clear_flags(&cells);
    for s in 1..=24 {
        cells[2][s] = !cells[2][s];
        erased[2][s] = true;
    }
    let res = decode_candidate(sym.version, sym.ecc_level, sym.mask_index, &cells, &erased)
        .expect("erasure hints correct the damaged codewords");
    assert_eq!(res.payload, b"ERASURE");
}

#[test]
fn wrong_candidate_is_rejected() {
    let sym = encode(b"RRC", &EncodeOptions::default(), dark_count).unwrap();
    let erased = clear_flags(&sym.matrix);
    assert!(decode_candidate(41, sym.ecc_level, sym.mask_index, &sym.matrix, &erased).is_none());
    assert!(decode_candidate(0, sym.ecc_level, sym.mask_index, &sym.matrix, &erased).is_none());
}

#[test]
fn binary_payload_has_no_text() {
    let payload = [0xFFu8, 0xFE, 0x00, 0x80];
    let mut opts = EncodeOptions::default();
    opts.mode = Some(Mode::Byte);
    let sym = encode(&payload, &opts, dark_count).unwrap();
    let erased = clear_flags(&sym.matrix);
    let res = decode_candidate(sym.version, sym.ecc_level, sym.mask_index, &sym.matrix, &erased).unwrap();
    assert_eq!(res.payload, payload);
    assert_eq!(res.text, None);
}

#[test]
fn every_mode_reads_back() {
    for (data, mode) in [
        (&b"987654321012345"[..], Mode::Numeric),
        (&b"RADIAL RESPONSE CODE 2026"[..], Mode::Alphanumeric),
        (&b"https://rrc.spec/v1?token=42"[..], Mode::Byte),
    ] {
        let sym = encode(data, &EncodeOptions::default(), dark_count).unwrap();
        assert_eq!(sym.mode, mode);
        let erased = clear_flags(&sym.matrix);
        let res = decode_candidate(sym.version, sym.ecc_level, sym.mask_index, &sym.matrix, &erased).unwrap();
        assert_eq!(res.payload, data);
        assert_eq!(res.mode, mode);
    }
}

#[test]
fn every_version_reads_back() {
    for v in [1u8, 2, 5, 10, 20, 40] {
        let mut opts = EncodeOptions::default();
        opts.version = Some(v);
        let text = format!("RRC V{v}");
        let sym = encode(text.as_bytes(), &opts, dark_count).unwrap();
        assert_eq!(sym.version, v);
        assert_eq!(sym.matrix.len(), ring_count_for_version(v));
        let erased = clear_flags(&sym.matrix);
        let res = decode_candidate(v, sym.ecc_level, sym.mask_index, &sym.matrix, &erased).unwrap();
        assert_eq!(res.payload, text.as_bytes());
    }
}

#[test]
fn encode_errors() {
    let mut opts = EncodeOptions::default();
    opts.version = Some(41);
    assert_eq!(encode(b"X", &opts, dark_count).err(), Some(RrcError::InvalidVersion(41)));

    let mut opts = EncodeOptions::default();
    opts.version = Some(1);
    let big = vec![b'a'; 40];
    // 43 estimated bytes against 20 data codewords of version 1 at level M
    assert_eq!(
        encode(&big, &opts, dark_count).err(),
        Some(RrcError::DataTooLarge { needed: 344, capacity: 160 })
    );

    let huge = vec![0u8; 5000];
    assert_eq!(
        encode(&huge, &EncodeOptions::default(), dark_count).err(),
        Some(RrcError::DataTooLarge { needed: 40024, capacity: 20576 })
    );

    let mut opts = EncodeOptions::default();
    opts.mode = Some(Mode::Alphanumeric);
    assert_eq!(encode(b"abc", &opts, dark_count).err(), Some(RrcError::InvalidCharacter('a')));
}

#[test]
fn mask_choice_follows_penalty() {
    let rings = ring_count_for_version(1);
    let mut sym = Vec::new();
    for k in 0..rings {
        sym.push(vec![false; rrc_core::geometry::sectors_in_ring(k)]);
    }
    // Score each candidate by its number of dark cells: the emptiest wins.
    let (best, masked) = select_best_mask(&sym, dark_count);
    for m in 0..8u8 {
        let mut c = sym.clone();
        rrc_core::mask::apply_mask(&mut c, m);
        assert!(dark_count(&masked) <= dark_count(&c));
        if m < best {
            assert!(dark_count(&masked) < dark_count(&c));
        }
    }
    let (first, _) = select_best_mask(&sym, flat_penalty);
    assert_eq!(first, 0);
}

#[test]
fn decode_options_default() {
    let o = DecodeOptions::default();
    assert!(!o.verbose);
    assert_eq!(o.expected_version, None);
}
