//! The command line options, as plain values: `app/` parses them and hands
//! them over.
use vstd::prelude::*;

verus! {

/// What the command line asks for.
#[derive(Debug)]
pub struct CliArgs {
    /// write on standard output, keep original files unchanged
    pub to_stdout: bool,
    /// decompress
    pub decompress: bool,
    /// force overwrite of output file and compress links
    pub force: bool,
    /// keep (don't delete) input files
    pub keep_input: bool,
    /// FILEs to process. with no FILE, or when FILE is -, read standard input
    pub files: Vec<String>,
    /// The compression level flags.
    pub compr_lvl: CompressionLevel,
}

/// The compression level flags `-1` to `-9`; at most one is set.
#[derive(Debug, Clone, Copy)]
pub struct CompressionLevel {
    pub one: bool,
    pub two: bool,
    pub three: bool,
    pub four: bool,
    pub five: bool,
    pub six: bool,
    pub seven: bool,
    pub eight: bool,
    pub nine: bool,
}

/// The chain limit of the first level flag set, in the order `-1` to `-9`,
/// as zlib's configuration table gives it (`-6` is the default, 128).
pub open spec fn max_chain_of(l: CompressionLevel) -> u32 {
    if l.one {
        4
    } else if l.two {
        8
    } else if l.three {
        32
    } else if l.four {
        16
    } else if l.five {
        32
    } else if l.seven {
        256
    } else if l.eight {
        1024
    } else if l.nine {
        4096
    } else {
        128
    }
}

impl CompressionLevel {
    /// Helper to convert the flags into the `max_chain` used. The values
    /// are taken from the zlib source
    pub fn to_max_chain(&self) -> (r: u32)
        ensures
            r == max_chain_of(*self),
    {
        match (
            self.one,
            self.two,
            self.three,
            self.four,
            self.five,
            self.seven,
            self.eight,
            self.nine,
        ) {
            // Default flag is 6
            (false, false, false, false, false, false, false, false) => 128,
            (true, _, _, _, _, _, _, _) => 4,
            (_, true, _, _, _, _, _, _) => 8,
            (_, _, true, _, _, _, _, _) => 32,
            (_, _, _, true, _, _, _, _) => 16,
            (_, _, _, _, true, _, _, _) => 32,
            (_, _, _, _, _, true, _, _) => 256,
            (_, _, _, _, _, _, true, _) => 1024,
            (_, _, _, _, _, _, _, true) => 4096,
        }
    }
}

} // verus!
