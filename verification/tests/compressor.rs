use puncture::args::CompressionLevel;
use puncture::bitreader::BitReader;
use puncture::compressor::Compressor;
use puncture::extraction::Extractor;
use puncture::GzipHeader;

fn compress(chunks: &[&[u8]], max_chain: u32) -> Vec<u8> {
    let mut c = Compressor::with_max_chain(Vec::new(), max_chain);
    c.write_header();
    for chunk in chunks {
        assert_eq!(c.write(chunk), chunk.len());
    }
    c.finish()
}

fn decompress(bytes: Vec<u8>) -> Vec<u8> {
    let mut ext = Extractor::new(BitReader::new(bytes));
    let header = ext.process_header().unwrap();
    assert!(header.file_name.is_none());
    assert_eq!((header.mtime, header.xfl, header.os), (0, 0, 255));
    let mut out = Vec::new();
    ext.deflate(&mut out).unwrap();
    out
}

fn pseudo_random(n: usize, seed: u32) -> Vec<u8> {
    let mut x = seed;
    (0..n)
        .map(|_| {
            x = x.wrapping_mul(1_103_515_245).wrapping_add(12_345);
            (x >> 16) as u8
        })
        .collect()
}

#[test]
fn header_and_empty_input() {
    let out = compress(&[], 256);
    assert_eq!(&out[..10], &[0x1F, 0x8B, 0x08, 0x00, 0x00, 0x00, 0x00, 0x00, 0x00, 0xFF]);
    // One fixed block with only its end code: 3 + 7 bits, then CRC-32 and size 0.
    assert_eq!(&out[10..], &[0x03, 0x00, 0, 0, 0, 0, 0, 0, 0, 0]);
    assert_eq!(decompress(out), Vec::<u8>::new());
}

#[test]
fn single_literal_encoding() {
    let out = compress(&[b"a"], 256);
    // Block header 1, 01; 'a' (0x61) has the 8-bit code 0x91, sent most
    // significant bit first; then the 7-bit end code.
    assert_eq!(out.len(), 10 + 3 + 8);
    assert_eq!(&out[10..13], &[0x4B, 0x04, 0x00]);
    assert_eq!(decompress(out), b"a".to_vec());
}

#[test]
fn roundtrip_text() {
    let text = b"It was the best of times, it was the worst of times, it was the age of wisdom, it was the age of foolishness";
    let out = compress(&[text], 256);
    assert!(out.len() < 10 + text.len() + 8);
    assert_eq!(decompress(out), text.to_vec());
}

#[test]
fn roundtrip_runs_use_overlapping_matches() {
    let data = vec![b'z'; 1000];
    let out = compress(&[&data], 256);
    assert!(out.len() < 40);
    assert_eq!(decompress(out), data);
}

#[test]
fn roundtrip_random_bytes_in_many_chunks() {
    let data = pseudo_random(150_000, 42);
    let chunks: Vec<&[u8]> = data.chunks(7_001).collect();
    let out = compress(&chunks, 256);
    assert_eq!(decompress(out), data);
}

#[test]
fn roundtrip_repetitive_large_input_slides_window() {
    let mut data = Vec::new();
    for i in 0..20_000u32 {
        data.extend_from_slice(format!("line {} of {}\n", i % 97, i % 13).as_bytes());
    }
    assert!(data.len() > 3 * 65536);
    let out = compress(&[&data], 4096);
    assert!(out.len() < data.len() / 4);
    assert_eq!(decompress(out), data);
}

#[test]
fn roundtrip_with_tiny_chain_limit() {
    let mut data = pseudo_random(5_000, 9);
    data.extend_from_slice(&data.clone());
    let out = compress(&[&data[..3], &data[3..]], 4);
    assert_eq!(decompress(out), data);
}

#[test]
fn trailer_holds_crc_and_size() {
    let out = compress(&[b"123456789"], 256);
    let n = out.len();
    assert_eq!(&out[n - 8..n - 4], &0xCBF4_3926u32.to_le_bytes());
    assert_eq!(&out[n - 4..], &9u32.to_le_bytes());
}

#[test]
fn default_new_matches_default_chain() {
    let mut a = Compressor::new(Vec::new());
    a.write_header();
    a.write(b"abracadabra abracadabra");
    let mut b = Compressor::with_max_chain(Vec::new(), 256);
    b.write_header();
    b.write(b"abracadabra abracadabra");
    assert_eq!(a.finish(), b.finish());
}

#[test]
fn output_follows_what_the_stream_held() {
    let mut c = Compressor::new(b"xy".to_vec());
    c.write_header();
    let out = c.finish();
    assert_eq!(&out[..2], b"xy");
    assert_eq!(out[2], 0x1F);
}

fn level(k: u8) -> CompressionLevel {
    CompressionLevel {
        one: k == 1,
        two: k == 2,
        three: k == 3,
        four: k == 4,
        five: k == 5,
        six: k == 6,
        seven: k == 7,
        eight: k == 8,
        nine: k == 9,
    }
}

#[test]
fn max_chain_per_level() {
    let expected = [128, 4, 8, 32, 16, 32, 128, 256, 1024, 4096];
    for k in 0..10u8 {
        assert_eq!(level(k).to_max_chain(), expected[k as usize]);
    }
}

#[test]
fn gzip_header_default_is_empty() {
    let h = GzipHeader::default();
    assert!(h.file_name.is_none());
    assert_eq!((h.mtime, h.xfl, h.os), (0, 0, 0));
}

#[test]
fn roundtrip_without_chain_search_is_all_literals() {
    let data = b"abcabcabcabcabcabc".to_vec();
    let out = compress(&[&data], 0);
    // 3 + 18 * 8 + 7 bits of block: 20 bytes, between header and trailer.
    assert_eq!(out.len(), 10 + 20 + 8);
    assert_eq!(decompress(out), data);
}

#[test]
fn flush_pads_to_a_byte_boundary() {
    let mut c = Compressor::new(Vec::new());
    c.write_header();
    assert_eq!(c.bit_writer.bit_count, 3);
    c.flush();
    assert_eq!(c.bit_writer.bit_count, 0);
    assert_eq!(c.bit_writer.data.len(), 11);
    assert_eq!(c.bit_writer.data[10], 0x03);
}

#[test]
fn header_bytes_then_three_held_bits() {
    let mut c = Compressor::new(Vec::new());
    c.write_header();
    assert_eq!(c.bit_writer.data, vec![0x1F, 0x8B, 0x08, 0x00, 0x00, 0x00, 0x00, 0x00, 0x00, 0xFF]);
    assert_eq!(c.bit_writer.bit_store, 0b011);
    assert_eq!(c.bit_writer.bit_count, 3);
}
