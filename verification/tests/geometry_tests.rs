use rrc_core::geometry::{
    data_sectors_in_ring, format_word_sector_info, is_data_sector, is_reference_gap,
    sectors_in_ring, version_info,
};

#[test]
fn test_all_sectors_divide_360() {
    for k in 0..100 {
        let s = sectors_in_ring(k);
        assert_eq!(360 % s, 0, "Ring {k} sector count {s} must divide 360 evenly");
    }
}

#[test]
fn test_version_table_monotonic() {
    for v in 1..40u8 {
        let cur = version_info(v).unwrap();
        let next = version_info(v + 1).unwrap();
        assert!(next.total_data_bits > cur.total_data_bits);
        assert!(next.total_codewords > cur.total_codewords);
        assert!(next.capacity_bytes_m > cur.capacity_bytes_m);
    }
}

#[test]
fn test_version_1_and_40_bounds() {
    let v1 = version_info(1).unwrap();
    assert_eq!(v1.ring_count, 3);
    assert!(v1.capacity_bytes_m >= 18);

    let v40 = version_info(40).unwrap();
    assert_eq!(v40.ring_count, 81);
    assert!(v40.capacity_bytes_m >= 2500);
}

#[test]
fn test_ring_0_geometry() {
    assert_eq!(sectors_in_ring(0), 72);
    assert!(is_reference_gap(0, 0));
    assert!(is_reference_gap(0, 36));
    assert_eq!(format_word_sector_info(0, 1), Some((0, false)));
    assert_eq!(format_word_sector_info(0, 16), Some((15, false)));
    assert_eq!(format_word_sector_info(0, 37), Some((0, true)));
    assert_eq!(format_word_sector_info(0, 52), Some((15, true)));
    assert!(is_data_sector(0, 17));
    assert!(is_data_sector(0, 35));
    assert!(is_data_sector(0, 53));
    assert!(is_data_sector(0, 71));
    assert_eq!(data_sectors_in_ring(0), 38);
}

#[test]
fn outer_rings_snap_to_360_sectors() {
    assert_eq!(sectors_in_ring(31), 360);
    assert_eq!(sectors_in_ring(1000), 360);
    assert_eq!(data_sectors_in_ring(usize::MAX), 359);
}
