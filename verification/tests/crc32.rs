use puncture::crc32::Crc32;

#[test]
fn crc32_check_value() {
    let mut crc = Crc32::new(Vec::new());
    assert_eq!(crc.write(b"123456789"), 9);
    let (hash, size) = crc.get_hashes();
    assert_eq!(hash, 0xCBF4_3926);
    assert_eq!(size, 9);
}

#[test]
fn crc32_agrees_with_crc32fast_in_pieces() {
    let data: Vec<u8> = (0..10_000u32).map(|i| (i * 31 % 256) as u8).collect();
    let mut crc = Crc32::new(Vec::new());
    for chunk in data.chunks(333) {
        crc.write(chunk);
    }
    crc.flush();
    let (hash, size) = crc.get_hashes();
    assert_eq!(hash, crc32fast::hash(&data));
    assert_eq!(size, 10_000);
}

#[test]
fn crc32_of_nothing() {
    let crc = Crc32::new(Vec::new());
    assert_eq!(crc.get_hashes(), (0, 0));
}
