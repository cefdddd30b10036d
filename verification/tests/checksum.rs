use axc::checksum::{make_table, Crc32};

#[test]
fn crc32_known_vector() {
    // CRC32("123456789") == 0xCBF43926
    assert_eq!(Crc32::oneshot(b"123456789"), 0xCBF4_3926);
}

#[test]
fn crc32_empty() {
    assert_eq!(Crc32::oneshot(b""), 0x0000_0000);
}

#[test]
fn crc32_incremental_equals_oneshot() {
    let data = b"The quick brown fox jumps over the lazy dog";
    for split in 0..=data.len() {
        let mut c = Crc32::new();
        c.update(&data[..split]);
        c.update(&data[split..]);
        assert_eq!(c.finalise(), Crc32::oneshot(data));
    }
    assert_eq!(Crc32::oneshot(data), 0x414F_A339);
}

#[test]
fn crc32_default_starts_from_zero_register() {
    // `new` starts the register at all ones; `default` leaves it at zero.
    assert_eq!(Crc32::new().finalise(), 0);
    assert_eq!(Crc32::default().finalise(), 0xFFFF_FFFF);
}

#[test]
fn make_table_entries() {
    let t = make_table();
    assert_eq!(t.len(), 256);
    assert_eq!(t[0], 0);
    assert_eq!(t[1], 0x7707_3096);
    assert_eq!(t[255], 0x2D02_EF8D);
}

#[test]
fn crc32_changes_with_any_single_byte() {
    let data = b"The quick brown fox jumps over the lazy dog".to_vec();
    let base = Crc32::oneshot(&data);
    for j in 0..data.len() {
        for v in 0u8..=255 {
            if v == data[j] {
                continue;
            }
            let mut d = data.clone();
            d[j] = v;
            assert_ne!(Crc32::oneshot(&d), base);
        }
    }
}
