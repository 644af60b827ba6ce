use puncture::bitreader::BitReader;

fn create_reader(bytes: &[u8]) -> BitReader {
    BitReader::new(bytes.to_vec())
}

#[test]
fn test_read_basic_bits() {
    let mut br = create_reader(&[0b1100_1010]);

    let bits1: u8 = br.read_bits(4) as u8;
    assert_eq!(bits1, 0b1010);

    let bits2: u8 = br.read_bits(4) as u8;
    assert_eq!(bits2, 0b1100);
}

#[test]
fn test_peek_basic_bits() {
    let mut br = create_reader(&[0b1100_1010]);

    let bits1: u8 = br.peek_bits(4) as u8;
    assert_eq!(bits1, 0b1010);

    let bits2: u8 = br.read_bits(4) as u8;
    assert_eq!(bits2, 0b1010);

    let bits3: u8 = br.peek_bits(4) as u8;
    assert_eq!(bits3, 0b1100);

    let bits4: u8 = br.read_bits(4) as u8;
    assert_eq!(bits4, 0b1100);
}

#[test]
fn test_advance_basic_bits() {
    let mut br = create_reader(&[0b1100_1010]);

    let bits1: u8 = br.peek_bits(4) as u8;
    assert_eq!(bits1, 0b1010);

    br.advance_bits_unchecked(4);

    let bits2: u8 = br.peek_bits(4) as u8;
    assert_eq!(bits2, 0b1100);
}

#[test]
fn bitreader_test_cross_byte_boundary() {
    // [0x33, 0x55] -> [0011_0011, 0101_0101]
    let mut br = create_reader(&[0x33, 0x55]);

    // Combined LSB first: 0101_0011_0011 -> 0x533
    let bits: u16 = br.read_bits(12) as u16;
    assert_eq!(bits, 0x533);

    let remaining: u8 = br.read_bits(4) as u8;
    assert_eq!(remaining, 0b0101);
}

#[test]
fn test_align_to_byte() {
    // [0xFF, 0xAA] -> [1111_1111, 1010_1010]
    let mut br = create_reader(&[0xFF, 0xAA]);

    let _: u8 = br.read_bits(3) as u8;
    br.align_to_byte();

    let next_byte: u8 = br.read_bits(8) as u8;
    assert_eq!(next_byte, 0xAA);
}

#[test]
fn test_read_dynamic_bytes() {
    let mut br = create_reader(&[0xAA, 0xBB, 0xCC, 0xDD]);

    let val: u32 = br.read_bytes(3) as u32;
    assert_eq!(val, 0xCC_BB_AA);
}

#[test]
fn test_skip_bytes() {
    let mut br = create_reader(&[0x01, 0x02, 0x03, 0x04, 0x05, 0x06]);

    let _: u8 = br.read_bytes(1) as u8;

    br.skip_bytes(4);

    let val: u8 = br.read_bytes(1) as u8;
    assert_eq!(val, 0x06);
}

#[test]
fn remaining_bits_counts_store_and_stream() {
    let mut br = create_reader(&[0x01, 0x02, 0x03]);
    assert_eq!(br.remaining_bits(), 24);
    let _ = br.read_bits(5);
    assert_eq!(br.remaining_bits(), 19);
    br.align_to_byte();
    assert_eq!(br.remaining_bits(), 16);
}

#[test]
fn read_raw_bytes_takes_store_then_stream() {
    let mut br = create_reader(&[0x10, 0x20, 0x30, 0x40]);
    let first = br.read_bytes(1) as u8;
    assert_eq!(first, 0x10);
    let mut buf = [0u8; 3];
    br.read_raw_bytes(&mut buf);
    assert_eq!(buf, [0x20, 0x30, 0x40]);
    assert_eq!(br.remaining_bits(), 0);
}

#[test]
fn read_until_and_skip_until_stop_after_delimiter() {
    let mut br = create_reader(b"abc\0def\0gh");
    let mut buf = Vec::new();
    let n = br.read_until(0, &mut buf);
    assert_eq!(n, 4);
    assert_eq!(buf, b"abc\0".to_vec());
    let skipped = br.skip_until(0);
    assert_eq!(skipped, 4);
    let mut rest = Vec::new();
    let m = br.read_until(0, &mut rest);
    assert_eq!(m, 2);
    assert_eq!(rest, b"gh".to_vec());
}

#[test]
fn two_reads_equal_one_wider_read() {
    let bytes = [0x9D, 0x37, 0xE2, 0x5A];
    let mut a = create_reader(&bytes);
    let lo = a.read_bits(7) as u32;
    let hi = a.read_bits(13) as u32;
    let mut b = create_reader(&bytes);
    let whole = b.read_bits(20) as u32;
    assert_eq!(lo | (hi << 7), whole);
}
