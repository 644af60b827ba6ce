//! # Puncture
//! A minimal gzip compressor and decompressor whose core is verified.
//!
//! The primary entry points are the [`bitreader::BitReader`], the
//! [`extraction::Extractor`] and the [`compressor::Compressor`].
use vstd::prelude::*;

pub mod args;
pub mod bitreader;
pub mod bitwriter;
pub mod cached_writer;
pub mod compressor;
pub mod crc32;
pub mod extraction;
pub mod format_laws;
pub mod huffman;
pub mod numeric;
pub mod roundtrip;

verus! {

/// The fields of a gzip member's header that the library keeps.
#[derive(Debug)]
pub struct GzipHeader {
    /// The original file name in the header (without its terminating zero), if present.
    pub file_name: Option<Vec<u8>>,
    /// The most recent modification time of the original file, in Unix format.
    pub mtime: u32,
    /// The extra flags byte.
    pub xfl: u8,
    /// The operating system byte.
    pub os: u8,
}

impl Default for GzipHeader {
    fn default() -> (h: Self)
        ensures
            h.file_name is None,
            h.mtime == 0,
            h.xfl == 0,
            h.os == 0,
    {
        GzipHeader { file_name: None, mtime: 0, xfl: 0, os: 0 }
    }
}

} // verus!
