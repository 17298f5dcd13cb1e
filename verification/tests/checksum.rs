use fantom::checksum::crc32;

#[test]
fn matches_published_test_vectors() {
    assert_eq!(crc32(b""), 0x0000_0000);
    assert_eq!(crc32(b"a"), 0xE8B7_BE43);
    assert_eq!(crc32(b"123456789"), 0xCBF4_3926);
    assert_eq!(crc32(b"The quick brown fox jumps over the lazy dog"), 0x414F_A339);
}

#[test]
fn a_changed_byte_changes_the_checksum() {
    let mut record = vec![0u8; 64];
    record[..14].copy_from_slice(b"#Square Flutes");
    let before = crc32(&record);
    record[13] = b'!';
    assert_ne!(crc32(&record), before);
}
