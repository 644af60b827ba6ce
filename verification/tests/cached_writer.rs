use puncture::cached_writer::{CachedWriter, HISTORY_SIZE, TOTAL_SIZE};

#[test]
fn test_write_no_wrap() {
    let mut writer = CachedWriter::new(Vec::new());

    writer.write_all(b"hello");

    assert_eq!(&writer.buf[HISTORY_SIZE..HISTORY_SIZE + 5], b"hello");
    assert_eq!(writer.write_index, HISTORY_SIZE + 5);
}

#[test]
fn test_write_wrap_around() {
    let mut writer = CachedWriter::new(Vec::new());

    let padding = vec![0x01; HISTORY_SIZE - 2];
    writer.write_all(&padding);

    writer.write_all(b"12345");

    let w_idx = writer.write_index;

    assert_eq!(w_idx, HISTORY_SIZE + 5);
    assert_eq!(&writer.buf[w_idx - 5..w_idx], b"12345");
}

#[test]
fn test_write_exact_window_size() {
    let mut writer = CachedWriter::new(Vec::new());

    let data = vec![0x55; HISTORY_SIZE];
    writer.write_all(&data);

    assert_eq!(writer.write_index, HISTORY_SIZE);
    assert_eq!(writer.buf[HISTORY_SIZE], 0x55);
    assert_eq!(writer.buf[TOTAL_SIZE - 1], 0x55);
}

#[test]
fn test_lz77_run_length_encoding() {
    let mut writer = CachedWriter::new(Vec::new());

    writer.write_all(b"A");

    writer.repeat_from(1, 10);

    assert_eq!(
        &writer.buf[HISTORY_SIZE..writer.write_index],
        b"AAAAAAAAAAA"
    );
    assert_eq!(writer.write_index, HISTORY_SIZE + 11);
}

#[test]
fn test_lz77_pattern_repetition() {
    let mut writer = CachedWriter::new(Vec::new());

    writer.write_all(b"abc");

    writer.repeat_from(3, 9);

    assert_eq!(
        &writer.buf[HISTORY_SIZE..writer.write_index],
        b"abcabcabcabc"
    );
    assert_eq!(writer.write_index, HISTORY_SIZE + 12);
}

#[test]
fn test_continuous_write_and_repeat_fixed() {
    let mut writer = CachedWriter::new(Vec::new());

    writer.write_all(b"123");

    writer.repeat_from(2, 4);
    assert_eq!(&writer.buf[HISTORY_SIZE..writer.write_index], b"1232323");

    writer.write_all(b"45");
    assert_eq!(&writer.buf[HISTORY_SIZE..writer.write_index], b"123232345");

    writer.repeat_from(6, 3);
    assert_eq!(
        &writer.buf[HISTORY_SIZE..writer.write_index],
        b"123232345232"
    );
}

#[test]
fn finalize_returns_everything_written_and_its_crc() {
    let mut writer = CachedWriter::new(b"pre".to_vec());
    writer.write_all(b"123456789");
    let (stream, crc) = writer.finalize();
    assert_eq!(stream, b"pre123456789".to_vec());
    // The CRC-32 (IEEE) check value of "123456789".
    assert_eq!(crc, 0xCBF4_3926);
}

#[test]
fn long_output_survives_window_shifts() {
    let mut writer = CachedWriter::new(Vec::new());
    let mut expected = Vec::new();
    for i in 0..5000u32 {
        let chunk = [(i % 251) as u8; 37];
        writer.write_all(&chunk);
        expected.extend_from_slice(&chunk);
        writer.check_flush();
    }
    let (stream, crc) = writer.finalize();
    assert_eq!(stream, expected);
    assert_eq!(crc, crc32fast::hash(&expected));
}

#[test]
fn write_all_index_after_a_full_buffer() {
    let mut writer = CachedWriter::new(Vec::new());
    writer.write_all(&vec![7u8; TOTAL_SIZE - HISTORY_SIZE - 100]);
    assert_eq!(writer.write_index, HISTORY_SIZE);
    writer.write_all(b"abc");
    assert_eq!(writer.write_index, HISTORY_SIZE + 3);
}
