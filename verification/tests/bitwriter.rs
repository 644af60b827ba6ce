use puncture::bitreader::BitReader;
use puncture::bitwriter::BitWriter;

#[test]
fn test_write_basic_bits() {
    let mut bw = BitWriter::new(Vec::new());

    bw.write_bits(0b1010, 4);
    assert_eq!(bw.bit_store, 0b1010);
    assert_eq!(bw.bit_count, 4);

    bw.write_bits(0b1100, 4);
    assert_eq!(bw.bit_store, 0b1100_1010);
    assert_eq!(bw.bit_count, 8);
}

#[test]
fn test_flush_exact_byte() {
    let mut bw = BitWriter::new(Vec::new());

    bw.write_bits(0b1100_1010, 8);
    bw.flush_bytes();

    assert_eq!(bw.data, vec![0b1100_1010]);
    assert_eq!(bw.bit_count, 0);
    assert_eq!(bw.bit_store, 0);
}

#[test]
fn bitwriter_test_cross_byte_boundary() {
    let mut bw = BitWriter::new(Vec::new());

    bw.write_bits(0x533, 12);
    bw.flush_bytes();

    assert_eq!(bw.data, vec![0x33]);

    assert_eq!(bw.bit_count, 4);
    assert_eq!(bw.bit_store, 0x05);
}

#[test]
fn test_force_align() {
    let mut bw = BitWriter::new(Vec::new());

    bw.write_bits(0b101, 3);

    bw.force_align();

    assert_eq!(bw.data, vec![0x05]);
    assert_eq!(bw.bit_count, 0);
    assert_eq!(bw.bit_store, 0);
}

#[test]
fn write_bits_masks_to_count() {
    let mut bw = BitWriter::new(Vec::new());
    bw.write_bits(0xFFFF, 3);
    assert_eq!(bw.bit_store, 0b111);
    assert_eq!(bw.bit_count, 3);
}

#[test]
fn write_bits_flushes_before_store_overflows() {
    let mut bw = BitWriter::new(Vec::new());
    for _ in 0..15 {
        bw.write_bits(0xABCD, 8);
    }
    assert!(bw.data.is_empty());
    assert_eq!(bw.bit_count, 120);
    bw.write_bits(0x1, 8);
    assert_eq!(bw.data.len(), 15);
    assert_eq!(bw.bit_count, 8);
    assert_eq!(bw.bit_store, 0x1);
}

#[test]
fn written_bits_read_back() {
    let fields: [(u16, u8); 6] = [(0x5, 3), (0x1FF, 9), (0x0, 7), (0x2A, 6), (0x7FFF, 15), (0x1, 1)];
    let mut bw = BitWriter::new(Vec::new());
    for &(v, n) in fields.iter() {
        bw.write_bits(v, n);
    }
    bw.force_align();
    let mut br = BitReader::new(bw.data.clone());
    for &(v, n) in fields.iter() {
        assert_eq!(br.read_bits(n) as u16, v);
    }
}
