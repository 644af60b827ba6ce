use puncture::huffman::{build_huff_codes, build_lut, reverse_low_bits};

#[test]
fn canonical_codes_into_a_longer_buffer() {
    // RFC 1951, 3.2.2 example: lengths (3, 3, 3, 3, 3, 2, 4, 4)
    let lengths = [3u16, 3, 3, 3, 3, 2, 4, 4];
    let mut codes = [0xFFFFu16; 10];
    assert!(build_huff_codes(&lengths, &mut codes));
    let canonical = [0b010u16, 0b011, 0b100, 0b101, 0b110, 0b00, 0b1110, 0b1111];
    for i in 0..8 {
        assert_eq!(codes[i], reverse_low_bits(canonical[i], lengths[i]));
    }
    assert_eq!(&codes[8..], &[0xFFFF, 0xFFFF]);
}

#[test]
fn lookup_table_of_any_size() {
    let lengths = [1u16, 2, 2];
    let mut codes = [0u16; 3];
    assert!(build_huff_codes(&lengths, &mut codes));
    // Codes 0, 10, 11 (most significant bit first), stored reversed.
    let table = build_lut(&lengths, &codes, 65536);
    assert_eq!(table.len(), 65536);
    for idx in 0..65536usize {
        let expected = if idx & 1 == 0 {
            (1 << 9) | 0
        } else if idx & 3 == 1 {
            (2 << 9) | 1
        } else {
            (2 << 9) | 2
        };
        assert_eq!(table[idx], expected);
    }
}
