use duckdb_kart::duckdb_ffi::{
    duckdb_validity_row_is_valid, duckdb_validity_set_row_invalid, duckdb_validity_set_row_valid,
};

#[test]
fn validity_bits_follow_rows() {
    let mut mask = vec![u64::MAX; 2];
    duckdb_validity_set_row_invalid(&mut mask, 3);
    duckdb_validity_set_row_invalid(&mut mask, 64);
    assert_eq!(mask, vec![u64::MAX & !(1 << 3), u64::MAX & !1]);
    assert!(!duckdb_validity_row_is_valid(&mask, 3));
    assert!(duckdb_validity_row_is_valid(&mask, 4));
    assert!(!duckdb_validity_row_is_valid(&mask, 64));
    assert!(duckdb_validity_row_is_valid(&mask, 127));
    duckdb_validity_set_row_valid(&mut mask, 3);
    assert!(duckdb_validity_row_is_valid(&mask, 3));
    assert_eq!(mask[0], u64::MAX);
}

#[test]
fn validity_updates_leave_other_rows_alone() {
    let mut mask = vec![0xa5a5_a5a5_a5a5_a5a5u64, 0x0f0f_0f0f_0f0f_0f0f];
    let before: Vec<bool> = (0..128).map(|r| duckdb_validity_row_is_valid(&mask, r)).collect();
    duckdb_validity_set_row_valid(&mut mask, 70);
    duckdb_validity_set_row_invalid(&mut mask, 0);
    duckdb_validity_set_row_invalid(&mut mask, 127);
    for r in 0..128u64 {
        let now = duckdb_validity_row_is_valid(&mask, r);
        match r {
            70 => assert!(now),
            0 | 127 => assert!(!now),
            _ => assert_eq!(now, before[r as usize]),
        }
    }
}
