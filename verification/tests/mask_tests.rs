use rrc_core::geometry::{ring_count_for_version, sectors_in_ring};
use rrc_core::mask::{apply_mask, select_best_mask};

#[test]
fn test_mask_idempotency() {
    let rings = ring_count_for_version(1);
    let mut original = Vec::new();
    for k in 0..rings {
        let s = sectors_in_ring(k);
        original.push(vec![false; s]);
    }

    for mask in 0..8 {
        let mut sym = original.clone();
        apply_mask(&mut sym, mask);
        apply_mask(&mut sym, mask);
        assert_eq!(sym, original, "Mask {mask} double-application must yield identity");
    }
}

#[test]
fn best_mask_has_the_first_least_score() {
    let rings = ring_count_for_version(2);
    let mut sym = Vec::new();
    for k in 0..rings {
        let s = sectors_in_ring(k);
        sym.push((0..s).map(|i| (i * 7 + k) % 5 == 0).collect::<Vec<bool>>());
    }
    let score = |m: &Vec<Vec<bool>>| -> u64 {
        let mut dark = 0u64;
        for (k, row) in m.iter().enumerate() {
            for (s, &c) in row.iter().enumerate() {
                if c {
                    dark += 1 + ((k + s) % 3) as u64;
                }
            }
        }
        dark
    };
    let (best, chosen) = select_best_mask(&sym, score);
    let mut scores = Vec::new();
    for m in 0..8u8 {
        let mut c = sym.clone();
        apply_mask(&mut c, m);
        scores.push(score(&c));
    }
    let least = *scores.iter().min().unwrap();
    assert_eq!(scores[best as usize], least);
    assert!(scores[..best as usize].iter().all(|&p| p > least));
    let mut expected = sym.clone();
    apply_mask(&mut expected, best);
    assert_eq!(chosen, expected);
}
