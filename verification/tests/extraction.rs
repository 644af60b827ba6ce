use puncture::bitreader::BitReader;
use puncture::extraction::{ExtractError, Extractor};

const STORED_GZ: [u8; 35] = [
    0x1F, 0x8B, 0x08, 0x00, 0x87, 0xD6, 0x12, 0x00, 0x02, 0x03, 0x01, 0x0C, 0x00, 0xF3, 0xFF, 0x68,
    0x65, 0x6C, 0x6C, 0x6F, 0x2C, 0x20, 0x77, 0x6F, 0x72, 0x6C, 0x64, 0x3A, 0x72, 0xAB, 0xFF, 0x0C,
    0x00, 0x00, 0x00,
];
const FIXED_GZ: [u8; 84] = [
    0x1F, 0x8B, 0x08, 0x00, 0x87, 0xD6, 0x12, 0x00, 0x02, 0x03, 0xF3, 0x2C, 0x51, 0x28, 0x4F, 0x2C,
    0x56, 0x28, 0xC9, 0x48, 0x55, 0x48, 0x4A, 0x2D, 0x2E, 0x51, 0xC8, 0x4F, 0x53, 0x28, 0xC9, 0xCC,
    0x4D, 0x2D, 0xD6, 0x51, 0xC8, 0x44, 0xC8, 0x94, 0xE7, 0x17, 0xE1, 0x92, 0x4A, 0x4C, 0x4F, 0x05,
    0x49, 0x94, 0x67, 0x16, 0xA7, 0xE4, 0xE7, 0x62, 0x93, 0x49, 0xCB, 0xCF, 0xCF, 0xC9, 0x2C, 0xCE,
    0xC8, 0x4B, 0x2D, 0x2E, 0xD6, 0x53, 0xF0, 0x1C, 0xC6, 0xB6, 0x01, 0x00, 0x59, 0xDB, 0x29, 0x71,
    0x4A, 0x01, 0x00, 0x00,
];
const DYNAMIC_GZ: [u8; 993] = [
    0x1F, 0x8B, 0x08, 0x00, 0x87, 0xD6, 0x12, 0x00, 0x02, 0x03, 0x6D, 0x57, 0x09, 0x72, 0xE2, 0x40,
    0x0C, 0xFC, 0x8A, 0xBF, 0x36, 0x01, 0x02, 0x6C, 0x00, 0x27, 0xD8, 0x59, 0x36, 0x79, 0xFD, 0x5A,
    0x6A, 0x1D, 0x2D, 0x41, 0x55, 0x62, 0x6C, 0x8F, 0x8E, 0xD6, 0x2D, 0x2F, 0xEB, 0xFD, 0x30, 0xAE,
    0xD3, 0x9F, 0xEF, 0xEB, 0xE7, 0x32, 0xBD, 0x5D, 0xE6, 0xDD, 0xC7, 0x32, 0xED, 0xCF, 0xCB, 0x3A,
    0x6E, 0xBB, 0xC3, 0x32, 0x7D, 0x7D, 0x9F, 0x77, 0x1F, 0xD3, 0xDB, 0x7D, 0x7E, 0xDC, 0xA6, 0xC7,
    0x79, 0x3D, 0x4D, 0xEF, 0xF3, 0xBF, 0xE9, 0x34, 0x5F, 0xF6, 0xCB, 0xB4, 0x9B, 0xF7, 0x41, 0x70,
    0x1D, 0xEB, 0xEE, 0xB4, 0x3D, 0x5D, 0xC6, 0xEF, 0x4F, 0xE1, 0x99, 0xDF, 0xE5, 0x0F, 0xF7, 0xFB,
    0xF9, 0xC8, 0x92, 0xB6, 0xF7, 0xA0, 0x84, 0x20, 0x11, 0x2C, 0x14, 0xA9, 0x3B, 0xEF, 0x58, 0x15,
    0xEE, 0x71, 0x35, 0xB8, 0x38, 0x10, 0x66, 0xDC, 0xA9, 0x78, 0x18, 0x74, 0xFC, 0x3D, 0x7F, 0x8A,
    0x26, 0x3C, 0x85, 0x05, 0x60, 0xD7, 0x43, 0x7D, 0xF7, 0x38, 0xDF, 0xF6, 0xF3, 0x63, 0x9A, 0xFF,
    0x1E, 0xEE, 0x74, 0x8E, 0x6B, 0xC2, 0x50, 0xEB, 0x60, 0xBC, 0x10, 0x29, 0xE7, 0x69, 0x3B, 0x9D,
    0xEF, 0x3F, 0x66, 0x18, 0x03, 0xBD, 0x1C, 0x6E, 0xC7, 0xF5, 0x64, 0x5C, 0xE3, 0xB6, 0x77, 0x25,
    0x6E, 0xFC, 0x02, 0xC7, 0x5F, 0xCE, 0xEB, 0xE1, 0x3E, 0x2E, 0xAE, 0x2D, 0x1E, 0xA1, 0x47, 0x21,
    0x8A, 0x65, 0x0A, 0xCD, 0x95, 0xA5, 0x27, 0xC9, 0x10, 0x8F, 0x81, 0xA8, 0xEA, 0xB2, 0x95, 0xC0,
    0x01, 0x81, 0x53, 0x2C, 0x70, 0x16, 0x89, 0x92, 0xC8, 0x5F, 0x38, 0x17, 0x44, 0x4E, 0xC4, 0xC8,
    0xB0, 0x53, 0xF8, 0xA0, 0xD9, 0x38, 0xEC, 0xC7, 0xF1, 0x01, 0xBB, 0xEB, 0x13, 0x41, 0xCD, 0x38,
    0xC8, 0xC1, 0x75, 0x28, 0x81, 0xB3, 0x16, 0x45, 0xD0, 0xED, 0x47, 0xF0, 0x45, 0x4B, 0x0A, 0xA3,
    0xAF, 0x96, 0x46, 0x50, 0x90, 0x1F, 0x46, 0x03, 0x54, 0xEB, 0xE9, 0xD0, 0x9D, 0xAC, 0xB6, 0x3B,
    0x5A, 0xF1, 0x8B, 0x00, 0xB2, 0x20, 0x4A, 0xF0, 0x54, 0x26, 0x9C, 0xA2, 0x9E, 0x87, 0x54, 0xFB,
    0x11, 0x5A, 0xCB, 0x75, 0x15, 0x13, 0x26, 0xBA, 0xEE, 0xCD, 0x57, 0xC3, 0xB8, 0x37, 0x77, 0xDA,
    0xB3, 0x23, 0xDC, 0xDE, 0x00, 0x83, 0xDB, 0x6D, 0x05, 0xB8, 0xA9, 0xB1, 0x8A, 0x4C, 0xD1, 0x89,
    0xC0, 0x88, 0xE5, 0x56, 0xCC, 0x49, 0x07, 0x2B, 0xDD, 0x00, 0x60, 0x39, 0xA9, 0x6A, 0x6B, 0x58,
    0x4A, 0x00, 0x41, 0xE8, 0xA8, 0xA2, 0x9C, 0x8D, 0x34, 0x9D, 0x6E, 0x9A, 0xCD, 0x39, 0x6E, 0x2B,
    0x67, 0x76, 0xF5, 0x4E, 0xFD, 0x71, 0xDF, 0xA6, 0xBC, 0x52, 0xC1, 0xEA, 0x6C, 0x18, 0xAC, 0xB7,
    0x21, 0x3F, 0xEA, 0xD2, 0xF3, 0xDA, 0x70, 0x81, 0x4D, 0x0E, 0xC4, 0x58, 0x18, 0xD4, 0x2A, 0xBD,
    0xDA, 0x2C, 0x64, 0xAC, 0xC0, 0x2B, 0x02, 0x28, 0xCC, 0xC1, 0x01, 0x6E, 0x34, 0x6E, 0x3C, 0x89,
    0x01, 0x22, 0xD9, 0x8D, 0x09, 0x94, 0xF2, 0x20, 0xFF, 0xEA, 0x7D, 0x68, 0x81, 0x44, 0x42, 0x5E,
    0x93, 0x5D, 0xED, 0x72, 0x67, 0x6B, 0x62, 0x0A, 0x2A, 0x7F, 0x01, 0x75, 0x35, 0x32, 0x6A, 0x97,
    0x50, 0x3A, 0x51, 0x2B, 0x0A, 0xA8, 0x75, 0xEA, 0xD1, 0x64, 0xA1, 0x89, 0xE8, 0x2D, 0xD2, 0x48,
    0x5B, 0xDF, 0x76, 0x71, 0x32, 0x43, 0x49, 0x3D, 0x78, 0x23, 0x2B, 0x8D, 0x8C, 0x0A, 0x40, 0xCF,
    0x18, 0xB0, 0x9A, 0x16, 0x45, 0xA6, 0x99, 0x09, 0xA7, 0x58, 0xE7, 0x34, 0x54, 0xD5, 0x9D, 0xAD,
    0x16, 0x71, 0xCD, 0x81, 0xE1, 0x63, 0x41, 0x3D, 0x2D, 0x52, 0x3C, 0x05, 0xBC, 0xAB, 0x06, 0x3A,
    0x0A, 0x71, 0xCD, 0x31, 0x33, 0xB8, 0xF9, 0xC8, 0x72, 0x56, 0xE4, 0x9B, 0x3D, 0x81, 0xCF, 0x45,
    0xAB, 0xBB, 0xB6, 0xE2, 0x49, 0x56, 0x53, 0x6E, 0xED, 0x0B, 0x6C, 0xBD, 0xE2, 0xA9, 0x62, 0xA9,
    0x6C, 0xB3, 0x1A, 0x5B, 0x2B, 0x4C, 0xE1, 0x38, 0xEE, 0xF6, 0xD0, 0xE4, 0xE0, 0x84, 0xC8, 0xD8,
    0xA5, 0x7C, 0xF9, 0x4F, 0x71, 0xDC, 0xE0, 0xA3, 0x0F, 0x20, 0xED, 0xE5, 0x82, 0xF0, 0x64, 0x7F,
    0x73, 0x52, 0x71, 0x76, 0x69, 0x0D, 0x23, 0x26, 0x16, 0xA4, 0x58, 0x53, 0xAE, 0xC1, 0x33, 0x84,
    0x60, 0xA4, 0xB1, 0x52, 0x01, 0x10, 0x5E, 0x3F, 0x28, 0xD9, 0x5F, 0xEA, 0x9D, 0x03, 0x6A, 0xF8,
    0xD3, 0x9D, 0x1C, 0xF9, 0x98, 0xC5, 0x40, 0x66, 0xB0, 0x0D, 0x51, 0xD7, 0x83, 0xFE, 0x6B, 0x25,
    0x4C, 0x5C, 0x91, 0xCC, 0x83, 0xBA, 0x4A, 0xF4, 0xC1, 0x34, 0xD3, 0xCA, 0xCF, 0x9A, 0x88, 0xBF,
    0x6F, 0x7D, 0xA9, 0xF7, 0xCF, 0xB2, 0x1E, 0x65, 0x71, 0x06, 0xFB, 0x13, 0x38, 0x0E, 0x46, 0x6F,
    0xCA, 0x16, 0x8F, 0xDA, 0x21, 0x23, 0xC0, 0x94, 0xCF, 0x1D, 0x5D, 0xC9, 0x7B, 0xDD, 0x29, 0xDE,
    0xB9, 0x19, 0xDA, 0x81, 0x26, 0x83, 0x48, 0xA9, 0x8D, 0xE7, 0x69, 0x04, 0x70, 0x32, 0xFA, 0x7C,
    0xCB, 0xA4, 0xB6, 0xCA, 0xA5, 0x19, 0xA9, 0xC1, 0x63, 0xE5, 0xBC, 0xD0, 0x50, 0xA6, 0x18, 0x8B,
    0x61, 0xF6, 0x94, 0x85, 0xB6, 0x62, 0x48, 0x76, 0x9A, 0x88, 0xB8, 0xB8, 0xC5, 0x21, 0x64, 0x5F,
    0x31, 0x1D, 0x1A, 0xB6, 0x22, 0xBC, 0x87, 0xA9, 0xD4, 0x41, 0x6E, 0x49, 0x61, 0x8C, 0xAF, 0x2B,
    0x96, 0x21, 0x36, 0x6C, 0x69, 0xC6, 0xAA, 0x71, 0xA3, 0x8E, 0x93, 0xD2, 0x5F, 0x51, 0x1F, 0x3C,
    0x02, 0x8A, 0x49, 0xA3, 0x6D, 0x3C, 0xDE, 0x80, 0xFC, 0xB4, 0x16, 0xB8, 0xBF, 0xB5, 0x18, 0xFA,
    0xAC, 0x8E, 0xDD, 0x70, 0x28, 0xEA, 0xF0, 0x43, 0xF7, 0xD4, 0x26, 0x77, 0x04, 0x17, 0x97, 0x76,
    0xCC, 0x0C, 0xDA, 0x36, 0x45, 0x92, 0xD9, 0x4B, 0xC6, 0x67, 0xF7, 0x48, 0x54, 0xC5, 0x89, 0x49,
    0xF0, 0x22, 0xD7, 0x73, 0xE5, 0x1E, 0x14, 0x4C, 0x57, 0xE0, 0x0D, 0xAD, 0xD4, 0xC6, 0xD3, 0xB8,
    0xD1, 0xB2, 0x75, 0xD1, 0x28, 0x69, 0x64, 0x58, 0xE0, 0xA1, 0xC0, 0x68, 0x27, 0xCD, 0x15, 0xA5,
    0x8C, 0xD0, 0xD2, 0xFC, 0x45, 0x2A, 0xCF, 0x99, 0xE7, 0x22, 0x28, 0x9F, 0x4B, 0x00, 0x0F, 0xD8,
    0xD9, 0x8D, 0x6D, 0x86, 0xD1, 0x36, 0xE1, 0x6B, 0x76, 0xFD, 0xA8, 0xE2, 0xBD, 0xAF, 0x39, 0xA7,
    0xAC, 0xED, 0xDC, 0x0B, 0xF4, 0xA0, 0x2D, 0x61, 0x39, 0x71, 0x46, 0x0D, 0xFA, 0xA8, 0xD5, 0xA3,
    0x2E, 0xF0, 0x41, 0x1F, 0xDF, 0x4C, 0x50, 0x95, 0xA5, 0xA6, 0x82, 0x28, 0x65, 0xCA, 0x70, 0xC3,
    0x50, 0x8F, 0x26, 0x55, 0x3F, 0x90, 0x44, 0x26, 0x77, 0xF5, 0x9A, 0xA6, 0xC5, 0x71, 0xFC, 0xB9,
    0x64, 0xAF, 0x84, 0x43, 0xB1, 0xB4, 0xB4, 0xEA, 0x9F, 0x3C, 0x7D, 0xB0, 0xA0, 0x27, 0xB5, 0x0D,
    0xA3, 0x96, 0xBB, 0xA0, 0xA6, 0xAF, 0xC2, 0xE7, 0xE5, 0xB6, 0xCC, 0xB7, 0xD6, 0x75, 0x4B, 0x42,
    0xF5, 0xC3, 0xD7, 0x23, 0x0D, 0x40, 0xC5, 0xA0, 0x32, 0x1D, 0xDB, 0x97, 0xCE, 0x73, 0x6E, 0xA5,
    0xA9, 0xC2, 0xCB, 0x69, 0xD5, 0x77, 0x9A, 0x57, 0xCD, 0x9E, 0x67, 0x5A, 0x90, 0xD7, 0xC6, 0xC1,
    0x9F, 0xBC, 0xBE, 0x5B, 0x8D, 0x32, 0x81, 0xFF, 0x03, 0x44, 0x9F, 0xAC, 0xB7, 0x15, 0x10, 0x00,
    0x00,
];
const NAMED_GZ: [u8; 52] = [
    0x1F, 0x8B, 0x08, 0x1E, 0x87, 0xD6, 0x12, 0x00, 0x02, 0x03, 0x03, 0x00, 0x61, 0x62, 0x63, 0x6E,
    0x6F, 0x74, 0x65, 0x73, 0x2E, 0x74, 0x78, 0x74, 0x00, 0x61, 0x20, 0x63, 0x6F, 0x6D, 0x6D, 0x65,
    0x6E, 0x74, 0x00, 0x37, 0xDF, 0x4B, 0x4C, 0x4A, 0x4E, 0x04, 0x23, 0x00, 0x18, 0x48, 0x2D, 0x46,
    0x09, 0x00, 0x00, 0x00,
];

const DYNAMIC_TEXT: &str = "stream jumps blocks distances quick brown with fox holds codes quick matches lazy quick brown of of brown dog brown with of quick codes fox dog distances distances codes quick codes codes blocks quick dog quick with jumps gzip of jumps with fox codes gzip with window over fox codes codes distances lazy holds fox with history brown codes quick lengths lazy and window with of stream literals codes literals holds gzip dog over history dog brown codes gzip matches and stream literals gzip lengths brown fox matches of over stream jumps and of quick window brown with codes stream stream history holds lengths and codes literals brown brown a and history window brown quick history gzip distances codes window literals gzip history blocks window holds the literals holds over lengths fox and quick lazy gzip jumps dog blocks blocks and brown over literals blocks with a jumps of with a history of holds window blocks dog jumps brown over jumps dog window dog the and codes over a gzip the jumps of with holds lengths codes stream jumps history matches lengths distances window quick literals window with blocks blocks blocks blocks fox and distances blocks quick lazy brown lazy literals over fox stream lengths quick fox the codes jumps with fox holds lengths the brown lazy lengths blocks jumps distances a holds lengths holds and fox fox and literals and and gzip brown jumps fox stream a and history over matches the lazy matches holds jumps history with the matches gzip distances brown history a matches holds over holds dog with with matches stream distances dog lengths lazy dog blocks dog lazy matches and holds the the a and a lazy history lengths holds literals holds holds brown dog fox dog and lazy stream lazy and lengths lengths the and distances holds distances brown window fox blocks history lazy and over of distances stream brown blocks literals blocks brown over over jumps the jumps codes literals distances jumps lengths lengths and window holds jumps with with jumps the the distances fox matches jumps of lazy lazy the a lazy gzip matches dog codes stream a with of jumps quick holds literals window codes matches of matches jumps with jumps matches matches the literals over lengths the jumps over jumps and lengths fox with quick stream window matches matches with and fox with quick dog lazy a quick fox matches literals with the brown literals stream lengths matches lengths matches lazy history a literals matches with and matches dog history matches a with lazy literals jumps of fox blocks literals stream brown window dog of brown lazy window gzip fox jumps history distances window holds jumps a jumps literals dog fox blocks and over window dog over history of matches blocks stream of lazy holds stream brown holds the stream with literals literals history the blocks stream matches lengths gzip matches brown fox dog fox brown a a quick over a jumps of window a blocks jumps with matches codes and history stream brown a quick history over of brown a the distances brown a brown lengths dog brown a fox literals the stream with of a lengths jumps quick matches history dog fox over a quick over lazy gzip distances gzip matches lazy gzip literals matches window over a holds the a quick the the matches with lazy matches and dog literals fox window distances of window and with blocks matches gzip history lazy dog stream lazy history distances jumps blocks holds quick jumps the brown distances a of over quick brown window blocks matches window gzip lengths dog history gzip quick literals over over a literals the a holds stream with stream dog quick gzip lazy holds over the stream blocks brown and a matches distances lazy dog matches the brown a brown jumps blocks codes quick blocks the gzip gzip distances dog brown codes matches jumps window history lengths blocks stream and jumps gzip lengths distances jumps quick history matches distances of history matches jumps matches matches codes the window codes history window history distances dog brown the quick jumps distances holds fox blocks literals with quick distances the distances with window dog and a the literals";

const FIXED_TEXT: &str = "It was the best of times, it was the worst of times, it was the age of wisdom, it was the age of foolishness. It was the best of times, it was the worst of times, it was the age of wisdom, it was the age of foolishness. It was the best of times, it was the worst of times, it was the age of wisdom, it was the age of foolishness. ";

fn decompress(bytes: &[u8]) -> Result<Vec<u8>, ExtractError> {
    let mut ext = Extractor::new(BitReader::new(bytes.to_vec()));
    ext.process_header()?;
    let mut out = Vec::new();
    ext.deflate(&mut out)?;
    Ok(out)
}

#[test]
fn decodes_stored_block() {
    assert_eq!(decompress(&STORED_GZ).unwrap(), b"hello, world".to_vec());
}

#[test]
fn decodes_fixed_huffman_block() {
    assert_eq!(decompress(&FIXED_GZ).unwrap(), FIXED_TEXT.as_bytes().to_vec());
}

#[test]
fn decodes_dynamic_huffman_block() {
    assert_eq!(decompress(&DYNAMIC_GZ).unwrap(), DYNAMIC_TEXT.as_bytes().to_vec());
}

#[test]
fn header_fields_and_optional_parts() {
    let mut ext = Extractor::new(BitReader::new(NAMED_GZ.to_vec()));
    assert!(ext.get_file_name().is_none());
    let header = ext.process_header().unwrap();
    assert_eq!(header.mtime, 1234567);
    assert_eq!(header.xfl, 2);
    assert_eq!(header.os, 3);
    assert_eq!(header.file_name, Some(b"notes.txt".to_vec()));
    assert_eq!(ext.get_file_name(), Some(&b"notes.txt".to_vec()));
    let mut out = Vec::new();
    ext.deflate(&mut out).unwrap();
    assert_eq!(out, b"abcabcabc".to_vec());
}

#[test]
fn deflate_appends_to_output() {
    let mut ext = Extractor::new(BitReader::new(STORED_GZ.to_vec()));
    ext.process_header().unwrap();
    let mut out = b">>".to_vec();
    ext.deflate(&mut out).unwrap();
    assert_eq!(out, b">>hello, world".to_vec());
}

#[test]
fn rejects_bad_magic() {
    let mut bytes = STORED_GZ.to_vec();
    bytes[1] = 0x8C;
    assert_eq!(decompress(&bytes), Err(ExtractError::BadMagic));
}

#[test]
fn rejects_other_compression_method() {
    let mut bytes = STORED_GZ.to_vec();
    bytes[2] = 7;
    assert_eq!(decompress(&bytes), Err(ExtractError::BadCompressionMethod));
}

#[test]
fn rejects_reserved_flags() {
    let mut bytes = STORED_GZ.to_vec();
    bytes[3] = 0x20;
    assert_eq!(decompress(&bytes), Err(ExtractError::ReservedFlags));
}

#[test]
fn short_header_is_unexpected_eof() {
    assert_eq!(decompress(&STORED_GZ[..1]), Err(ExtractError::UnexpectedEof));
    assert_eq!(decompress(&STORED_GZ[..7]), Err(ExtractError::UnexpectedEof));
    assert_eq!(decompress(&NAMED_GZ[..20]), Err(ExtractError::UnexpectedEof));
}

#[test]
fn truncated_data_is_unexpected_eof() {
    assert_eq!(decompress(&STORED_GZ[..20]), Err(ExtractError::UnexpectedEof));
    assert_eq!(decompress(&FIXED_GZ[..40]), Err(ExtractError::UnexpectedEof));
    assert_eq!(decompress(&DYNAMIC_GZ[..DYNAMIC_GZ.len() - 3]), Err(ExtractError::UnexpectedEof));
}

#[test]
fn rejects_wrong_checksum() {
    let mut bytes = DYNAMIC_GZ.to_vec();
    let n = bytes.len();
    bytes[n - 8] ^= 0x01;
    assert_eq!(decompress(&bytes), Err(ExtractError::ChecksumMismatch));
}

#[test]
fn rejects_wrong_size() {
    let mut bytes = FIXED_GZ.to_vec();
    let n = bytes.len();
    bytes[n - 4] ^= 0x01;
    assert_eq!(decompress(&bytes), Err(ExtractError::SizeMismatch));
}

#[test]
fn rejects_reserved_block_type() {
    let mut bytes = STORED_GZ.to_vec();
    // BFINAL = 1, BTYPE = 11
    bytes[10] = 0x07;
    assert_eq!(decompress(&bytes), Err(ExtractError::ReservedBlockType));
}

#[test]
fn rejects_stored_length_mismatch() {
    let mut bytes = STORED_GZ.to_vec();
    bytes[13] ^= 0x01;
    assert_eq!(decompress(&bytes), Err(ExtractError::LengthMismatch));
}

#[test]
fn rejects_invalid_fixed_symbol() {
    // A fixed block whose first code is 11000110, literal/length symbol 286.
    let mut bytes = STORED_GZ[..10].to_vec();
    // bits: BFINAL 1, BTYPE 01, then the code 11000110 sent most significant bit first
    bytes.extend_from_slice(&[0x1B, 0x03, 0x00, 0x00, 0x00, 0x00, 0x00, 0x00, 0x00, 0x00]);
    assert_eq!(decompress(&bytes), Err(ExtractError::InvalidCode));
}

#[test]
fn rejects_bad_dynamic_code_lengths() {
    // BFINAL 1, BTYPE 10, HLIT 0, HDIST 0, HCLEN 0; code length code
    // lengths 1 for the symbols 16 and 0; then the code of symbol 16
    // (repeat the previous length) before any length was read.
    let mut bytes = STORED_GZ[..10].to_vec();
    bytes.extend_from_slice(&[0x05, 0x00, 0x02, 0x24, 0x00, 0x00, 0x00, 0x00, 0x00, 0x00]);
    assert_eq!(decompress(&bytes), Err(ExtractError::InvalidCodeLengths));
}

#[test]
fn error_leaves_output_unchanged() {
    let mut bytes = DYNAMIC_GZ.to_vec();
    let n = bytes.len();
    bytes[n - 8] ^= 0x01;
    let mut ext = Extractor::new(BitReader::new(bytes));
    ext.process_header().unwrap();
    let mut out = b"kept".to_vec();
    assert_eq!(ext.deflate(&mut out), Err(ExtractError::ChecksumMismatch));
    assert_eq!(out, b"kept".to_vec());
}
