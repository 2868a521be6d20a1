use rrc_core::bitstream::{
    assemble_data_codewords, decode_format_word, disassemble_data_codewords, encode_format_word,
    Mode,
};
use rrc_core::geometry::EccLevel;
use rrc_core::RrcError;

#[test]
fn test_format_word_bch_correction() {
    for ecc in [EccLevel::L, EccLevel::M, EccLevel::Q, EccLevel::H] {
        for mask in 0..8u8 {
            let word = encode_format_word(ecc, mask);

            let (dec_ecc, dec_mask) = decode_format_word(word).unwrap();
            assert_eq!(dec_ecc, ecc);
            assert_eq!(dec_mask, mask);

            for bit1 in 0..16 {
                let corrupted_1 = word ^ (1 << bit1);
                let (res_ecc, res_mask) = decode_format_word(corrupted_1).unwrap();
                assert_eq!(res_ecc, ecc);
                assert_eq!(res_mask, mask);

                for bit2 in (bit1 + 1)..16 {
                    let corrupted_2 = word ^ (1 << bit1) ^ (1 << bit2);
                    let (res2_ecc, res2_mask) = decode_format_word(corrupted_2).unwrap();
                    assert_eq!(res2_ecc, ecc);
                    assert_eq!(res2_mask, mask);

                    for bit3 in (bit2 + 1)..16 {
                        let corrupted_3 = word ^ (1 << bit1) ^ (1 << bit2) ^ (1 << bit3);
                        let (res3_ecc, res3_mask) = decode_format_word(corrupted_3).unwrap();
                        assert_eq!(res3_ecc, ecc);
                        assert_eq!(res3_mask, mask);
                    }
                }
            }
        }
    }
}

#[test]
fn test_numeric_mode_roundtrip() {
    let text = b"1234567890123";
    let target = 20;
    let encoded = assemble_data_codewords(1, Mode::Numeric, text, target).unwrap();
    assert_eq!(encoded.len(), target);

    let (ver, mode, decoded) = disassemble_data_codewords(&encoded).unwrap();
    assert_eq!(ver, 1);
    assert_eq!(mode, Mode::Numeric);
    assert_eq!(decoded, text);
}

#[test]
fn test_alphanumeric_mode_roundtrip() {
    let text = b"RRC-VERSION: 2026";
    let target = 20;
    let encoded = assemble_data_codewords(1, Mode::Alphanumeric, text, target).unwrap();
    assert_eq!(encoded.len(), target);

    let (ver, mode, decoded) = disassemble_data_codewords(&encoded).unwrap();
    assert_eq!(ver, 1);
    assert_eq!(mode, Mode::Alphanumeric);
    assert_eq!(decoded, text);
}

#[test]
fn test_byte_mode_roundtrip() {
    let text = b"https://github.com/MdSagorMunshi/rrc";
    let target = 50;
    let encoded = assemble_data_codewords(2, Mode::Byte, text, target).unwrap();
    assert_eq!(encoded.len(), target);

    let (ver, mode, decoded) = disassemble_data_codewords(&encoded).unwrap();
    assert_eq!(ver, 2);
    assert_eq!(mode, Mode::Byte);
    assert_eq!(decoded, text);
}

#[test]
fn format_words_pairwise_distance() {
    let levels = [EccLevel::L, EccLevel::M, EccLevel::Q, EccLevel::H];
    let mut words = Vec::new();
    for &e in &levels {
        for m in 0..8u8 {
            assert_eq!(encode_format_word(e, m), encode_format_word(e, m + 8));
            words.push(encode_format_word(e, m));
        }
    }
    for i in 0..words.len() {
        for j in i + 1..words.len() {
            assert!((words[i] ^ words[j]).count_ones() >= 7);
        }
    }
}

#[test]
fn format_word_decoding_is_exact() {
    let levels = [EccLevel::L, EccLevel::M, EccLevel::Q, EccLevel::H];
    for w in 0..=u16::MAX {
        let mut near = None;
        for &e in &levels {
            for m in 0..8u8 {
                if (w ^ encode_format_word(e, m)).count_ones() <= 3 {
                    near = Some((e, m));
                }
            }
        }
        match near {
            Some(pair) => assert_eq!(decode_format_word(w), Ok(pair)),
            None => assert_eq!(decode_format_word(w), Err(RrcError::FormatWordCorrupted)),
        }
    }
}
