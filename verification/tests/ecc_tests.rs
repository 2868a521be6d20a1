use rrc_core::ecc::{rs_decode, rs_decode_block, rs_encode, rs_encode_block};
use rrc_core::gf::{gf_add, gf_div, gf_inv, gf_mul};

#[test]
fn test_gf_arithmetic() {
    assert_eq!(gf_add(0x57, 0x83), 0xD4);
    assert_eq!(gf_mul(0, 50), 0);
    assert_eq!(gf_mul(1, 250), 250);
    assert_eq!(gf_mul(2, 1), 2);
    assert_eq!(gf_div(100, 100), 1);
    for a in 1..=255u8 {
        let inv = gf_inv(a);
        assert_eq!(gf_mul(a, inv), 1, "Inverse check for {a}");
    }
}

#[test]
fn test_rs_single_block_correction() {
    let msg = b"Radial Response Code 2026";
    let ecc_len = 10;
    let ecc = rs_encode_block(msg, ecc_len);

    let mut codeword = msg.to_vec();
    codeword.extend_from_slice(&ecc);

    codeword[0] ^= 0x42;
    codeword[5] ^= 0x99;
    codeword[12] ^= 0x11;
    codeword[20] ^= 0xFF;
    codeword[30] ^= 0x7E;

    let recovered = rs_decode_block(&codeword, ecc_len).expect("Decode should recover 5 errors");
    assert_eq!(recovered, msg);
}

#[test]
fn test_rs_interleaved_multi_block() {
    let mut msg = Vec::new();
    for i in 0..400usize {
        msg.push((i * 7 % 256) as u8);
    }
    let ecc_len = 80;
    let total = msg.len() + ecc_len;
    let encoded = rs_encode(&msg, total, ecc_len);

    let mut corrupted = encoded.clone();
    for i in (0..total).step_by(30) {
        corrupted[i] ^= 0xAA;
    }

    let recovered = rs_decode(&corrupted, total, ecc_len).expect("Multi-block decode should succeed");
    assert_eq!(recovered, msg);
}

#[test]
fn test_rs_uncorrectable_fails_gracefully() {
    let msg = b"Testing ECC limits";
    let ecc_len = 4;
    let ecc = rs_encode_block(msg, ecc_len);

    let mut codeword = msg.to_vec();
    codeword.extend_from_slice(&ecc);

    codeword[1] ^= 0x01;
    codeword[2] ^= 0x02;
    codeword[3] ^= 0x03;

    let res = rs_decode_block(&codeword, ecc_len);
    assert!(res.is_err(), "Should detect uncorrectable errors");
}
