use rrc_core::bitstream::{
    alpha_char_value, alpha_value_char, assemble_data_codewords, decode_format_word,
    detect_mode, disassemble_data_codewords, encode_format_word, BitBuffer, BitReader, Mode,
};
use rrc_core::ecc::{
    rs_decode, rs_decode_block, rs_decode_block_erasures, rs_decode_erasures, rs_encode,
    rs_encode_block,
};
use rrc_core::geometry::{
    data_sectors_in_ring, find_fitting_version, ring_count_for_version, sectors_in_ring,
    total_data_bits_for_version, version_info, EccLevel,
};
use rrc_core::mask::{apply_mask, mask_fn};
use rrc_core::render::{composite_rgb, encode_jpeg_rgba, encode_png_rgba, Color, SectorStyle};
use rrc_core::RrcError;

#[test]
fn sector_counts_snap_to_nearest_divisor() {
    // 72 + 9k: 81 lies between 72 and 90 and the smaller wins the tie.
    assert_eq!(sectors_in_ring(1), 72);
    assert_eq!(sectors_in_ring(2), 90);
    assert_eq!(sectors_in_ring(3), 90);
    assert_eq!(sectors_in_ring(4), 120);
    assert_eq!(sectors_in_ring(9), 180);
    assert_eq!(sectors_in_ring(23), 360);
    assert_eq!(sectors_in_ring(80), 360);
    assert_eq!(data_sectors_in_ring(1), 71);
    assert_eq!(data_sectors_in_ring(23), 359);
}

#[test]
fn version_table_entries() {
    let v1 = version_info(1).unwrap();
    assert_eq!(v1.total_data_bits, 198);
    assert_eq!(v1.total_codewords, 24);
    assert_eq!(
        (v1.ecc_codewords_l, v1.ecc_codewords_m, v1.ecc_codewords_q, v1.ecc_codewords_h),
        (2, 4, 6, 8)
    );
    assert_eq!(v1.capacity_bytes_m, 20);
    assert_eq!(v1.capacity_numeric_m, 40);
    assert_eq!(v1.capacity_alpha_m, 24);
    assert_eq!(v1.base_sectors, 72);
    assert_eq!(v1.ecc_codewords(EccLevel::Q), 6);
    assert_eq!(v1.data_codewords(EccLevel::H), 16);

    let v5 = version_info(5).unwrap();
    assert_eq!(v5.total_codewords, 155);
    assert_eq!(
        (v5.ecc_codewords_l, v5.ecc_codewords_m, v5.ecc_codewords_q, v5.ecc_codewords_h),
        (11, 23, 39, 47)
    );
    let v40 = version_info(40).unwrap();
    assert_eq!(v40.total_data_bits, 24210);
    assert_eq!(v40.total_codewords, 3026);
    assert_eq!(v40.capacity_bytes_m, 2572);
    assert_eq!(v40.capacity_numeric_m, 6165);
    assert_eq!(v40.capacity_alpha_m, 3725);
    assert_eq!(total_data_bits_for_version(40), 24210);
    assert_eq!(ring_count_for_version(0), 3);
    assert_eq!(ring_count_for_version(40), 81);

    assert_eq!(version_info(0), Err(RrcError::InvalidVersion(0)));
    assert_eq!(version_info(41), Err(RrcError::InvalidVersion(41)));
}

#[test]
fn fitting_version_is_smallest() {
    assert_eq!(find_fitting_version(20, EccLevel::M), Ok(1));
    assert_eq!(find_fitting_version(21, EccLevel::M), Ok(2));
    assert_eq!(find_fitting_version(0, EccLevel::H), Ok(1));
    assert_eq!(find_fitting_version(2572, EccLevel::M), Ok(40));
    assert_eq!(
        find_fitting_version(2573, EccLevel::M),
        Err(RrcError::DataTooLarge { needed: 20584, capacity: 20576 })
    );
}

#[test]
fn ecc_level_parsing() {
    assert_eq!(EccLevel::from_str_loose(" m "), Ok(EccLevel::M));
    assert_eq!(EccLevel::from_str_loose("h"), Ok(EccLevel::H));
    assert_eq!(EccLevel::from_str_loose("\u{3000}Q\t"), Ok(EccLevel::Q));
    assert_eq!(EccLevel::from_str_loose("L"), Ok(EccLevel::L));
    assert_eq!(EccLevel::from_str_loose("LL"), Err(RrcError::InvalidEccLevel("LL".to_string())));
    assert_eq!(EccLevel::from_str_loose(""), Err(RrcError::InvalidEccLevel(String::new())));
    assert_eq!(EccLevel::from_bits(6), EccLevel::Q);
    assert_eq!(EccLevel::H.to_bits(), 3);
    assert_eq!(EccLevel::M.as_char(), 'M');
}

#[test]
fn mode_indicators() {
    assert_eq!(Mode::from_bits(4), Ok(Mode::Byte));
    assert_eq!(Mode::from_bits(7), Ok(Mode::Extended));
    assert_eq!(Mode::from_bits(8), Err(RrcError::InvalidMode(8)));
    assert_eq!(Mode::Extended.to_bits(), 0b0111);
    assert_eq!(Mode::from_bits(3), Err(RrcError::InvalidMode(3)));
    assert_eq!(Mode::Alphanumeric.to_bits(), 2);
    assert_eq!(Mode::Numeric.length_bits(9), 10);
    assert_eq!(Mode::Numeric.length_bits(10), 12);
    assert_eq!(Mode::Numeric.length_bits(27), 14);
    assert_eq!(Mode::Alphanumeric.length_bits(26), 11);
    assert_eq!(Mode::Byte.length_bits(10), 16);
    assert_eq!(Mode::Extended.length_bits(1), 16);
    assert_eq!(Mode::Extended.length_bits(26), 16);
    assert_eq!(Mode::Extended.length_bits(27), 24);
    assert_eq!(Mode::Byte.length_bits(40), 16);
}

#[test]
fn format_word_values() {
    // data 00000 has no parity bits; the alternating mask remains
    assert_eq!(encode_format_word(EccLevel::L, 0), 0x5555);
    assert_eq!(decode_format_word(0x5555), Ok((EccLevel::L, 0)));
    assert_eq!(decode_format_word(0), Err(RrcError::FormatWordCorrupted));
    // data 01 010 = 10: 10 << 11 with its BCH remainder, then masked
    let w = encode_format_word(EccLevel::M, 2);
    assert_eq!((w ^ 0x5555) >> 11, 10);
    assert_eq!(decode_format_word(w ^ 0b0111), Ok((EccLevel::M, 2)));
    assert_eq!(encode_format_word(EccLevel::M, 10), w);
    assert_eq!(decode_format_word(w ^ 0b1111), Err(RrcError::FormatWordCorrupted));
}

#[test]
fn mode_detection() {
    assert_eq!(detect_mode(b""), Mode::Byte);
    assert_eq!(detect_mode(b"0123"), Mode::Numeric);
    assert_eq!(detect_mode(b"HELLO WORLD $%*+-./:"), Mode::Alphanumeric);
    assert_eq!(detect_mode(b"hello"), Mode::Byte);
    assert_eq!(alpha_char_value(b':'), Ok(44));
    assert_eq!(alpha_char_value(b'a'), Err(RrcError::InvalidCharacter('a')));
    assert_eq!(alpha_value_char(46), b'1');
}

#[test]
fn bit_buffer_and_reader() {
    let mut buf = BitBuffer::new();
    assert!(buf.is_empty());
    buf.push_bits(0b101, 3);
    buf.push_bit(true);
    buf.push_bits(0xFF, 4);
    buf.push_bits(1, 1);
    assert_eq!(buf.len(), 9);
    assert_eq!(buf.to_bytes(), vec![0b1011_1111, 0b1000_0000]);
    let bits = buf.as_slice().to_vec();
    let mut r = BitReader::new(&bits);
    assert_eq!(r.remaining(), 9);
    assert_eq!(r.read_bits(4), Ok(0b1011));
    assert_eq!(r.read_bit(), Ok(true));
    assert_eq!(r.read_bits(5), Err(RrcError::TruncatedBitstream));
    assert_eq!(r.read_bits(4), Ok(0b1111));
    assert_eq!(r.read_bit(), Err(RrcError::TruncatedBitstream));
    assert_eq!(r.remaining(), 0);
    let c = BitBuffer::with_capacity(8);
    assert_eq!(c.to_bytes(), Vec::<u8>::new());
}

#[test]
fn assembly_layout_and_errors() {
    // version 1, byte mode, one byte 'A', 4 codewords
    let out = assemble_data_codewords(1, Mode::Byte, b"A", 4).unwrap();
    // 000001 0100 00000001 01000001, then four zero bits and two of byte padding
    assert_eq!(out, vec![0x05, 0x00, 0x50, 0x40]);
    let padded = assemble_data_codewords(1, Mode::Byte, b"", 5).unwrap();
    assert_eq!(padded, vec![0x05, 0x00, 0x00, 0xEC, 0x11]);
    assert_eq!(
        assemble_data_codewords(1, Mode::Byte, &[0u8; 256], 400),
        Err(RrcError::DataTooLarge { needed: 256, capacity: 255 })
    );
    assert_eq!(
        assemble_data_codewords(1, Mode::Byte, b"ABCD", 4),
        Err(RrcError::DataTooLarge { needed: 50, capacity: 32 })
    );
    assert_eq!(
        assemble_data_codewords(1, Mode::Alphanumeric, b"AB#", 20),
        Err(RrcError::InvalidCharacter('#'))
    );
}

#[test]
fn parsing_errors() {
    assert_eq!(disassemble_data_codewords(&[]), Err(RrcError::TruncatedBitstream));
    // version 0
    assert_eq!(disassemble_data_codewords(&[0x00, 0x00]), Err(RrcError::InvalidVersion(0)));
    // version 1, mode 0011
    assert_eq!(disassemble_data_codewords(&[0x04, 0xC0]), Err(RrcError::InvalidMode(3)));
    // version 1, byte mode, count field cut short
    assert_eq!(disassemble_data_codewords(&[0x05, 0x00]), Err(RrcError::TruncatedBitstream));
    // version 1, byte mode, count 5 but only one payload byte
    assert_eq!(disassemble_data_codewords(&[0x05, 0x01, 0x41, 0x00]), Err(RrcError::TruncatedBitstream));
}

#[test]
fn numeric_digits_past_nine_read_back_as_sent() {
    let out = assemble_data_codewords(1, Mode::Numeric, b"12", 4).unwrap();
    let (_, mode, payload) = disassemble_data_codewords(&out).unwrap();
    assert_eq!(mode, Mode::Numeric);
    assert_eq!(payload, b"12");
}

#[test]
fn erasure_decoding_across_blocks() {
    let mut msg = Vec::new();
    for i in 0..300usize {
        msg.push((i * 13 % 251) as u8);
    }
    let total = 360;
    let ecc = 60;
    let encoded = rs_encode(&msg, total, ecc);
    assert_eq!(encoded.len(), total);
    let mut corrupted = encoded.clone();
    corrupted[0] ^= 0x11;
    corrupted[7] ^= 0x22;
    let erasures = [0usize, 7];
    assert_eq!(rs_decode_erasures(&corrupted, total, ecc, &erasures), Ok(msg.clone()));
    assert_eq!(rs_decode_erasures(&corrupted[..10], total, ecc, &erasures), Err(RrcError::TruncatedBitstream));
}

#[test]
fn mask_patterns() {
    assert!(mask_fn(0, 1, 1));
    assert!(!mask_fn(0, 1, 2));
    assert!(mask_fn(1, 2, 5));
    assert!(mask_fn(2, 7, 9));
    assert!(mask_fn(3, 1, 2));
    assert!(mask_fn(4, 3, 5));
    assert!(mask_fn(5, 0, 7));
    assert!(!mask_fn(5, 1, 1));
    assert!(!mask_fn(6, 1, 2));
    assert!(!mask_fn(6, 1, 6));
    assert!(mask_fn(6, 2, 4));
    assert!(mask_fn(6, 0, 0));
    assert!(mask_fn(7, 2, 4));
    assert_eq!(mask_fn(8, 1, 1), mask_fn(0, 1, 1));
}

#[test]
fn masks_leave_gaps_and_format_sectors() {
    let mut sym = vec![vec![false; 72], vec![false; 72], vec![false; 90]];
    apply_mask(&mut sym, 0);
    assert!(!sym[0][0] && !sym[0][36] && !sym[1][0]);
    for s in 1..=16 {
        assert!(!sym[0][s]);
        assert!(!sym[0][s + 36]);
    }
    assert!(sym[0][18]);
    assert!(!sym[0][17]);
}

#[test]
fn colors() {
    assert_eq!(Color::from_hex("#00FF94"), Ok(Color::rgb(0, 255, 148)));
    assert_eq!(Color::from_hex("  0a0a0a80 "), Ok(Color::new(10, 10, 10, 128)));
    assert_eq!(Color::from_hex("##0F0F0F"), Ok(Color::rgb(15, 15, 15)));
    assert_eq!(
        Color::from_hex("+F+F+F"),
        Err(RrcError::RenderError("Invalid hex color".to_string()))
    );
    assert_eq!(
        Color::from_hex("#GG0000"),
        Err(RrcError::RenderError("Invalid hex color".to_string()))
    );
    assert_eq!(
        Color::from_hex("#12345"),
        Err(RrcError::RenderError("Invalid hex color length: '#12345'".to_string()))
    );
    assert_eq!(Color::rgb(0, 255, 148).to_hex(), "#00FF94");
    assert_eq!(Color::new(1, 2, 3, 4).to_hex(), "#01020304");
    assert_eq!(Color::default(), Color::black());
    assert!(Color::black().is_dark());
    assert!(!Color::white().is_dark());
    assert!(Color::rgb(37, 197, 7).is_dark());
    assert!(!Color::rgb(0, 204, 68).is_dark());
    assert!(Color::rgb(127, 127, 127).is_dark());
    assert!(!Color::rgb(128, 128, 128).is_dark());
    assert_eq!(Color::neon_green().to_hex(), "#00FF94");
    assert_eq!(Color::dark_bg().to_hex(), "#0A0A0A");
    assert_eq!(Color::transparent().a, 0);
}

#[test]
fn sector_styles() {
    assert_eq!(SectorStyle::from_str_loose(" Inner-Rounded "), Ok(SectorStyle::InnerRounded));
    assert_eq!(SectorStyle::from_str_loose("innerrounded"), Ok(SectorStyle::InnerRounded));
    assert_eq!(SectorStyle::from_str_loose("PILL"), Ok(SectorStyle::Pill));
    assert_eq!(SectorStyle::from_str_loose("rounded"), Ok(SectorStyle::Rounded));
    assert_eq!(SectorStyle::from_str_loose("Sharp"), Ok(SectorStyle::Sharp));
    assert_eq!(
        SectorStyle::from_str_loose("wavy"),
        Err(RrcError::RenderError("Unknown sector style: 'wavy'".to_string()))
    );
    assert_eq!(SectorStyle::default(), SectorStyle::Sharp);
}

#[test]
fn raster_encodings() {
    let rgba: Vec<u8> = (0..4 * 4 * 4).map(|i| (i * 7 % 256) as u8).collect();
    let png = encode_png_rgba(&rgba, 4, 4).expect("PNG encoding succeeds");
    assert_eq!(&png[0..8], &[0x89, 0x50, 0x4E, 0x47, 0x0D, 0x0A, 0x1A, 0x0A]);
    let jpeg = encode_jpeg_rgba(&rgba, 4, 4, Color::white(), 0).expect("JPEG encoding succeeds");
    assert_eq!(&jpeg[0..2], &[0xFF, 0xD8]);
    assert!(jpeg.len() > 100);
}

#[test]
fn encode_png_rgba_writes_png_signature() {
    let rgba = vec![255u8; 2 * 3 * 4];
    let png = encode_png_rgba(&rgba, 2, 3).unwrap();
    assert_eq!(&png[0..8], b"\x89PNG\r\n\x1a\n");
    assert_eq!(&png[12..16], b"IHDR");
    assert_eq!(&png[16..24], &[0, 0, 0, 2, 0, 0, 0, 3]);
}

#[test]
fn encode_jpeg_rgba_writes_jpeg_markers() {
    let rgba = vec![0u8; 3 * 2 * 4];
    let jpeg = encode_jpeg_rgba(&rgba, 3, 2, Color::black(), 200).unwrap();
    assert_eq!(&jpeg[0..2], &[0xFF, 0xD8]);
    assert_eq!(&jpeg[jpeg.len() - 2..], &[0xFF, 0xD9]);
}

#[test]
fn raster_encodings_refuse_empty_images() {
    match encode_png_rgba(&[], 0, 5) {
        Err(RrcError::RenderError(m)) => assert!(m.starts_with("PNG encoding error: ")),
        other => panic!("unexpected {other:?}"),
    }
    match encode_jpeg_rgba(&[], 4, 0, Color::white(), 90) {
        Err(RrcError::RenderError(m)) => assert!(m.starts_with("JPEG encoding error: ")),
        other => panic!("unexpected {other:?}"),
    }
}

#[test]
fn rs_encode_block_small_value() {
    assert_eq!(rs_encode_block(&[1], 2), vec![3, 2]);
    assert_eq!(rs_encode_block(&[1], 0), Vec::<u8>::new());
}

#[test]
fn compositing_onto_background() {
    let rgba = [10u8, 20, 30, 255, 200, 100, 0, 0, 255, 0, 0, 128];
    let rgb = composite_rgb(&rgba, Color::rgb(0, 0, 255));
    assert_eq!(rgb, vec![10, 20, 30, 0, 0, 255, 128, 0, 127]);
}

#[test]
fn test_color_hex_roundtrip() {
    let colors = [
        Color::new(0x12, 0xAB, 0xCD, 0xFF),
        Color::new(0x00, 0x00, 0x00, 0x00),
        Color::new(0xFF, 0x80, 0x01, 0x7F),
        Color::new(0x39, 0xFF, 0x14, 0xFF),
    ];
    for c in colors {
        let h = c.to_hex();
        assert_eq!(Color::from_hex(&h), Ok(c));
    }
    assert_eq!(Color::new(0x12, 0xAB, 0xCD, 0xFF).to_hex(), "#12ABCD");
    assert_eq!(Color::new(0xFF, 0x80, 0x01, 0x7F).to_hex(), "#FF80017F");
}

#[test]
fn test_rs_block_decode_within_half_parity() {
    let msg: Vec<u8> = (0u8..40).map(|i| i.wrapping_mul(37)).collect();
    let ecc_len = 12;
    let mut word = msg.clone();
    word.extend_from_slice(&rs_encode_block(&msg, ecc_len));
    for k in 0..=6usize {
        let mut received = word.clone();
        for j in 0..k {
            received[j * 7 + 1] ^= 0x5A ^ (j as u8);
        }
        assert_eq!(rs_decode_block(&received, ecc_len), Ok(msg.clone()), "{k} errors");
    }
}

#[test]
fn test_rs_block_full_erasures() {
    let msg: Vec<u8> = (0u8..30).map(|i| i.wrapping_mul(11).wrapping_add(3)).collect();
    let ecc_len = 8;
    let mut word = msg.clone();
    word.extend_from_slice(&rs_encode_block(&msg, ecc_len));
    let erasures: Vec<usize> = vec![0, 3, 7, 12, 20, 29, 33, 37];
    let mut received = word.clone();
    for (k, &p) in erasures.iter().enumerate() {
        received[p] ^= 0x11u8.wrapping_mul(k as u8 + 1);
    }
    assert_eq!(rs_decode_block_erasures(&received, ecc_len, &erasures), Ok(msg.clone()));
    // erased positions that hold their true values decode as well
    assert_eq!(rs_decode_block_erasures(&word, ecc_len, &erasures), Ok(msg.clone()));
    let mut partly = word.clone();
    partly[12] ^= 0xFF;
    partly[37] ^= 0x01;
    assert_eq!(rs_decode_block_erasures(&partly, ecc_len, &erasures), Ok(msg));
}

#[test]
fn rs_block_errors_and_erasures() {
    // two erasures and no unknown error: 2 * 0 + 2 <= 3
    assert_eq!(rs_encode_block(&[47], 3), vec![205, 135, 101]);
    assert_eq!(rs_decode_block_erasures(&[47, 253, 180, 101], 3, &[2, 1]), Ok(vec![47]));
    // two erasures and two unknown errors: 2 * 2 + 2 <= 6
    let msg = vec![1u8, 2, 3, 4, 5, 6, 7, 8];
    let mut word = msg.clone();
    word.extend_from_slice(&rs_encode_block(&msg, 6));
    assert_eq!(word, vec![1, 2, 3, 4, 5, 6, 7, 8, 25, 217, 107, 136, 111, 68]);
    let mut received = word.clone();
    received[0] ^= 0x55;
    received[9] ^= 0x0F;
    received[3] ^= 0x01;
    received[12] ^= 0x80;
    assert_eq!(rs_decode_block_erasures(&received, 6, &[3, 12]), Ok(msg));
}

#[test]
fn rs_erasures_across_blocks() {
    // 300 codewords, 20 of them parity: two blocks of 140 data and 10 parity codewords
    let data: Vec<u8> = (0..280u32).map(|i| (i * 7 + 3) as u8).collect();
    let encoded = rs_encode(&data, 300, 20);
    let mut received = encoded.clone();
    // block 0 owns the even data positions: ten erased symbols there
    let erasures: Vec<usize> = (0..10).map(|k| 2 * k).collect();
    for &p in &erasures {
        received[p] ^= 0xA5;
    }
    // block 1 owns the odd data positions: five unknown errors there
    for k in 0..5 {
        received[2 * k + 1] ^= 0x3C;
    }
    assert_eq!(rs_decode_erasures(&received, 300, 20, &erasures), Ok(data.clone()));
    // without the erasure list block 0 is beyond repair
    assert_eq!(rs_decode(&received, 300, 20), Err(RrcError::EccUncorrectable));
    // parity positions map to their blocks too: erase four parity symbols of
    // block 0 and leave three unknown errors in its data
    let mut mixed = encoded.clone();
    let parity_erasures: Vec<usize> = vec![280, 282, 284, 286];
    for &p in &parity_erasures {
        mixed[p] ^= 0x11;
    }
    for k in 0..3 {
        mixed[40 + 2 * k] ^= 0x77;
    }
    assert_eq!(rs_decode_erasures(&mixed, 300, 20, &parity_erasures), Ok(data));
}

#[test]
fn dark_ties_match_single_precision() {
    for r in 0..=255u32 {
        for g in 0..=255u32 {
            for b in 0..=255u32 {
                let lum = (0.299 * (r as f32) + 0.587 * (g as f32) + 0.114 * (b as f32)) / 255.0;
                let c = Color::rgb(r as u8, g as u8, b as u8);
                assert_eq!(c.is_dark(), lum < 0.5, "color {r} {g} {b}");
            }
        }
    }
}
