//! The gzip (RFC 1952) member parser and the DEFLATE (RFC 1951) decoder.
//!
//! The decoder is specified over the bits that the reader still holds (its
//! number and its length): each spec function here reads the format from
//! such a bit stream and says what comes out, or which error comes.
use vstd::prelude::*;
use vstd::arithmetic::power2::*;
use crate::bitreader::BitReader;
use crate::crc32::crc32;
use crate::cached_writer::{lz77_repeat, zeros, CachedWriter, HISTORY_SIZE, MAX_LENGTH, TOTAL_SIZE};
use crate::huffman::{
    build_huff_codes, build_lut, canonical_code, codes_fit, fixed_distance_entry,
    fixed_distances_lut, fixed_literal_entry, fixed_literals_lut, lut_entry, rev_bits,
};
use crate::numeric::{le_bytes, le_value};
use crate::GzipHeader;

verus! {

/// Base length of each length code (symbols 257 to 285).
pub const LENGTH_BASE_TABLE: [u16; 29] = [
    3, 4, 5, 6, 7, 8, 9, 10, 11, 13, 15, 17, 19, 23, 27, 31, 35, 43, 51, 59, 67, 83, 99, 115, 131,
    163, 195, 227, 258,
];

/// Extra bits after each length code.
pub const LENGTH_OFFSET_BITS_TABLE: [u8; 29] = [
    0, 0, 0, 0, 0, 0, 0, 0, 1, 1, 1, 1, 2, 2, 2, 2, 3, 3, 3, 3, 4, 4, 4, 4, 5, 5, 5, 5, 0,
];

/// Base distance of each distance code.
pub const DISTANCE_BASE_TABLE: [u16; 30] = [
    1, 2, 3, 4, 5, 7, 9, 13, 17, 25, 33, 49, 65, 97, 129, 193, 257, 385, 513, 769, 1025, 1537,
    2049, 3073, 4097, 6145, 8193, 12289, 16385, 24577,
];

/// Extra bits after each distance code.
pub const DISTANCE_OFFSET_BITS_TABLE: [u8; 30] = [
    0, 0, 0, 0, 1, 1, 2, 2, 3, 3, 4, 4, 5, 5, 6, 6, 7, 7, 8, 8, 9, 9, 10, 10, 11, 11, 12, 12, 13,
    13,
];

/// Why a gzip member could not be read.
#[derive(Debug, Clone, Copy, PartialEq, Eq, Structural)]
pub enum ExtractError {
    /// The stream ended before the member did.
    UnexpectedEof,
    /// The first two bytes are not the gzip magic number.
    BadMagic,
    /// The compression method is not DEFLATE.
    BadCompressionMethod,
    /// A reserved flag bit is set.
    ReservedFlags,
    /// A block has the reserved type 3.
    ReservedBlockType,
    /// A stored block's length does not match its complement.
    LengthMismatch,
    /// The bits do not form a valid code, or a code names no valid symbol.
    InvalidCode,
    /// The code lengths of a dynamic block cannot be read or do not form a code.
    InvalidCodeLengths,
    /// The CRC-32 in the trailer is not that of the decompressed data.
    ChecksumMismatch,
    /// The size in the trailer is not that of the decompressed data (modulo 2^32).
    SizeMismatch,
}

/// A bit stream: `len` bits, read least significant first from `value`.
pub struct Bits {
    pub value: nat,
    pub len: nat,
}

/// The next `k` bits, as a number.
pub open spec fn take_bits(s: Bits, k: nat) -> nat {
    s.value % pow2(k)
}

/// The stream without its next `k` bits.
pub open spec fn skip_bits(s: Bits, k: nat) -> Bits {
    Bits { value: s.value / pow2(k), len: (s.len - k) as nat }
}

/// The code length packed in a lookup table entry.
pub open spec fn entry_len(e: u16) -> nat {
    (e / 512) as nat
}

/// The symbol packed in a lookup table entry.
pub open spec fn entry_symbol(e: u16) -> nat {
    (e % 512) as nat
}

/// What a compressed block encodes: a literal byte, or a back-reference.
#[derive(Debug, Clone, Copy, PartialEq, Eq, Structural)]
pub enum Token {
    Literal(u8),
    Copy { length: u16, distance: u16 },
}

/// The bytes a token produces after `history`.
pub open spec fn token_bytes(history: Seq<u8>, t: Token) -> Seq<u8> {
    match t {
        Token::Literal(b) => seq![b],
        Token::Copy { length, distance } => lz77_repeat(history, distance as nat, length as nat),
    }
}

/// The bytes a sequence of tokens produces after `history`.
pub open spec fn apply_tokens(history: Seq<u8>, tokens: Seq<Token>) -> Seq<u8>
    decreases tokens.len(),
{
    if tokens.len() == 0 {
        Seq::empty()
    } else {
        let prev = apply_tokens(history, tokens.drop_last());
        prev + token_bytes(history + prev, tokens.last())
    }
}

/// One step of decoding a Huffman-coded block.
pub enum Step {
    Emit(Token, Bits),
    End(Bits),
    Fail(ExtractError),
}

/// Decodes one symbol (with its extra bits and, for a length, the distance
/// that follows) using the literal/length table `lit` indexed by `lbits`
/// bits and the distance table `dist` indexed by `dbits` bits.
pub open spec fn decode_step(lit: Seq<u16>, lbits: nat, dist: Seq<u16>, dbits: nat, s: Bits) -> Step {
    let e = lit[take_bits(s, lbits) as int];
    let len = entry_len(e);
    let sym = entry_symbol(e);
    if len == 0 {
        Step::Fail(ExtractError::InvalidCode)
    } else if len > s.len {
        Step::Fail(ExtractError::UnexpectedEof)
    } else {
        let s1 = skip_bits(s, len);
        if sym < 256 {
            Step::Emit(Token::Literal(sym as u8), s1)
        } else if sym == 256 {
            Step::End(s1)
        } else if sym > 285 {
            Step::Fail(ExtractError::InvalidCode)
        } else {
            let li = sym - 257;
            let eb = LENGTH_OFFSET_BITS_TABLE[li] as nat;
            if eb > s1.len {
                Step::Fail(ExtractError::UnexpectedEof)
            } else {
                let length = LENGTH_BASE_TABLE[li] + take_bits(s1, eb);
                let s2 = skip_bits(s1, eb);
                let de = dist[take_bits(s2, dbits) as int];
                let dlen = entry_len(de);
                let dsym = entry_symbol(de);
                if dlen > s2.len {
                    Step::Fail(ExtractError::UnexpectedEof)
                } else if dsym >= 30 {
                    Step::Fail(ExtractError::InvalidCode)
                } else {
                    let s3 = skip_bits(s2, dlen);
                    let db = DISTANCE_OFFSET_BITS_TABLE[dsym as int] as nat;
                    if db > s3.len {
                        Step::Fail(ExtractError::UnexpectedEof)
                    } else {
                        let distance = DISTANCE_BASE_TABLE[dsym as int] + take_bits(s3, db);
                        Step::Emit(
                            Token::Copy { length: length as u16, distance: distance as u16 },
                            skip_bits(s3, db),
                        )
                    }
                }
            }
        }
    }
}

/// Decodes a Huffman-coded block up to and including its end-of-block
/// symbol: the tokens, and the bits after the block.
pub open spec fn decode_block(lit: Seq<u16>, lbits: nat, dist: Seq<u16>, dbits: nat, s: Bits) -> Result<
    (Seq<Token>, Bits),
    ExtractError,
>
    decreases s.len,
{
    match decode_step(lit, lbits, dist, dbits, s) {
        Step::Fail(e) => Err(e),
        Step::End(s1) => Ok((Seq::empty(), s1)),
        Step::Emit(t, s1) => if s1.len < s.len {
            match decode_block(lit, lbits, dist, dbits, s1) {
                Ok((ts, s2)) => Ok((seq![t] + ts, s2)),
                Err(e) => Err(e),
            }
        } else {
            Err(ExtractError::InvalidCode)
        },
    }
}

/// A lookup table indexed by `bits` bits whose entries all have codes of at most `bits` bits.
pub open spec fn table_ok(table: Seq<u16>, bits: nat) -> bool {
    &&& 1 <= bits <= 15
    &&& table.len() == pow2(bits)
    &&& forall|i: int| 0 <= i < table.len() ==> entry_len(#[trigger] table[i]) <= bits
}

/// `decode_block` with `tokens` already decoded in front.
pub open spec fn after_tokens(
    tokens: Seq<Token>,
    r: Result<(Seq<Token>, Bits), ExtractError>,
) -> Result<(Seq<Token>, Bits), ExtractError> {
    match r {
        Ok((ts, s)) => Ok((tokens + ts, s)),
        Err(e) => Err(e),
    }
}

/// Bounds that the DEFLATE tables keep: every length is at most 258 and
/// every distance at most 32768, extra bits included.
proof fn lemma_tables()
    ensures
        forall|i: int|
            0 <= i < 29 ==> #[trigger] LENGTH_OFFSET_BITS_TABLE[i] <= 5 && LENGTH_BASE_TABLE[i] + pow2(
                LENGTH_OFFSET_BITS_TABLE[i] as nat,
            ) - 1 <= 258 && LENGTH_BASE_TABLE[i] >= 3,
        forall|i: int|
            0 <= i < 30 ==> #[trigger] DISTANCE_OFFSET_BITS_TABLE[i] <= 13 && DISTANCE_BASE_TABLE[i]
                + pow2(DISTANCE_OFFSET_BITS_TABLE[i] as nat) - 1 <= 32768 && DISTANCE_BASE_TABLE[i] >= 1,
{
    lemma2_to64();
}

proof fn lemma_entry_fields(e: u16)
    ensures
        (e >> 9u16) as nat == entry_len(e),
        (e & 0x1FFu16) as nat == entry_symbol(e),
        entry_len(e) < 128,
{
    assert(e >> 9u16 == e / 512 && e & 0x1FFu16 == e % 512 && e / 512 < 128) by (bit_vector);
}

/// A step that does not fail consumes bits, and a back-reference it yields
/// is within DEFLATE's bounds.
proof fn lemma_step_progress(lit: Seq<u16>, lbits: nat, dist: Seq<u16>, dbits: nat, s: Bits)
    ensures
        match decode_step(lit, lbits, dist, dbits, s) {
            Step::Emit(t, s1) => s1.len < s.len && match t {
                Token::Copy { length, distance } => 3 <= length <= 258 && 1 <= distance <= 32768,
                Token::Literal(_) => true,
            },
            Step::End(s1) => s1.len < s.len,
            Step::Fail(_) => true,
        },
{
    lemma_tables();
    let e = lit[take_bits(s, lbits) as int];
    let sym = entry_symbol(e);
    if 257 <= sym <= 285 {
        let li = sym - 257;
        let eb = LENGTH_OFFSET_BITS_TABLE[li] as nat;
        lemma_pow2_pos(eb);
        let s1 = skip_bits(s, entry_len(e));
        assert(take_bits(s1, eb) < pow2(eb));
        let s2 = skip_bits(s1, eb);
        let de = dist[take_bits(s2, dbits) as int];
        let dsym = entry_symbol(de);
        if dsym < 30 {
            let db = DISTANCE_OFFSET_BITS_TABLE[dsym as int] as nat;
            lemma_pow2_pos(db);
            let s3 = skip_bits(s2, entry_len(de));
            assert(take_bits(s3, db) < pow2(db));
        }
    }
}

/// A stored block (after its header bits): skip to a byte boundary, read
/// `LEN` and `NLEN` (16 bits each), then `LEN` raw bytes.
pub open spec fn stored_block(s: Bits) -> Result<(Seq<u8>, Bits), ExtractError> {
    let a = skip_bits(s, s.len % 8);
    if a.len < 16 {
        Err(ExtractError::UnexpectedEof)
    } else {
        let len = take_bits(a, 16);
        let b = skip_bits(a, 16);
        if b.len < 16 {
            Err(ExtractError::UnexpectedEof)
        } else {
            let nlen = take_bits(b, 16);
            let c = skip_bits(b, 16);
            if len + nlen != 65535 {
                Err(ExtractError::LengthMismatch)
            } else if 8 * len > c.len {
                Err(ExtractError::UnexpectedEof)
            } else {
                Ok((le_bytes(c.value, len), skip_bits(c, 8 * len)))
            }
        }
    }
}

/// The order in which the code length code's lengths are stored (RFC 1951, 3.2.7).
pub const CODE_LENGTH_ORDER: [usize; 19] = [
    16, 17, 18, 0, 8, 7, 9, 6, 10, 5, 11, 4, 12, 3, 13, 2, 14, 1, 15,
];

/// The code length code's lengths after the first `k` groups of 3 bits of
/// `scratch` have been given to the symbols `CODE_LENGTH_ORDER[0..k]`.
pub open spec fn code_length_lengths(scratch: nat, k: nat) -> Seq<u16>
    decreases k,
{
    if k == 0 {
        Seq::new(19, |i: int| 0u16)
    } else {
        code_length_lengths(scratch, (k - 1) as nat).update(
            CODE_LENGTH_ORDER[k - 1] as int,
            ((scratch / pow2(3 * (k - 1) as nat)) % 8) as u16,
        )
    }
}

/// The codes that `build_huff_codes` assigns to `lengths` (0 where the length is 0).
pub open spec fn code_table(lengths: Seq<u16>) -> Seq<u16> {
    Seq::new(
        lengths.len(),
        |i: int|
            if lengths[i] != 0 {
                rev_bits(canonical_code(lengths, i), lengths[i] as nat) as u16
            } else {
                0u16
            },
    )
}

/// The lookup table of `size` entries for the canonical code with `lengths`.
pub open spec fn lookup_table(lengths: Seq<u16>, size: nat) -> Seq<u16> {
    Seq::new(size, |idx: int| lut_entry(lengths, code_table(lengths), idx as nat, lengths.len()))
}

/// Reads code lengths with the code length code's table `cl_lut` until
/// `count` of them follow `acc` (RFC 1951, 3.2.7: 0 to 15 are lengths, 16
/// repeats the previous length 3 to 6 times, 17 and 18 repeat a zero 3 to 10
/// and 11 to 138 times).
pub open spec fn read_code_lengths(cl_lut: Seq<u16>, s: Bits, acc: Seq<u16>, count: nat) -> Result<
    (Seq<u16>, Bits),
    ExtractError,
>
    decreases count - acc.len(),
{
    if acc.len() >= count {
        Ok((acc, s))
    } else {
        let e = cl_lut[take_bits(s, 7) as int];
        let len = entry_len(e);
        let sym = entry_symbol(e);
        if len > s.len {
            Err(ExtractError::UnexpectedEof)
        } else {
            let s1 = skip_bits(s, len);
            if sym <= 15 {
                read_code_lengths(cl_lut, s1, acc.push(sym as u16), count)
            } else if sym <= 18 {
                let extra: nat = if sym == 16 {
                    2
                } else if sym == 17 {
                    3
                } else {
                    7
                };
                let base: nat = if sym == 18 {
                    11
                } else {
                    3
                };
                if sym == 16 && acc.len() == 0 {
                    Err(ExtractError::InvalidCodeLengths)
                } else if extra > s1.len {
                    Err(ExtractError::UnexpectedEof)
                } else {
                    let rl = base + take_bits(s1, extra);
                    let value: u16 = if sym == 16 {
                        acc.last()
                    } else {
                        0
                    };
                    if acc.len() + rl > count {
                        Err(ExtractError::InvalidCodeLengths)
                    } else {
                        read_code_lengths(
                            cl_lut,
                            skip_bits(s1, extra),
                            acc + Seq::new(rl, |i: int| value),
                            count,
                        )
                    }
                }
            } else {
                Err(ExtractError::InvalidCodeLengths)
            }
        }
    }
}

/// The header of a dynamic block (after its 3 header bits): the literal/length
/// and distance code lengths, and the bits after them.
pub open spec fn dynamic_lengths(s: Bits) -> Result<(Seq<u16>, Seq<u16>, Bits), ExtractError> {
    if s.len < 14 {
        Err(ExtractError::UnexpectedEof)
    } else {
        let hlit = take_bits(s, 5) + 257;
        let s1 = skip_bits(s, 5);
        let hdist = take_bits(s1, 5) + 1;
        let s2 = skip_bits(s1, 5);
        let hclen = take_bits(s2, 4) + 4;
        let s3 = skip_bits(s2, 4);
        if 3 * hclen > s3.len {
            Err(ExtractError::UnexpectedEof)
        } else {
            let cll = code_length_lengths(take_bits(s3, 3 * hclen), 19);
            let s4 = skip_bits(s3, 3 * hclen);
            if !codes_fit(cll) || hlit + hdist > 318 {
                Err(ExtractError::InvalidCodeLengths)
            } else {
                match read_code_lengths(lookup_table(cll, 128), s4, Seq::empty(), hlit + hdist) {
                    Err(e) => Err(e),
                    Ok((all, s5)) => {
                        let lit = all.take(hlit as int);
                        let dist = all.skip(hlit as int);
                        if !codes_fit(lit) || !codes_fit(dist) {
                            Err(ExtractError::InvalidCodeLengths)
                        } else {
                            Ok((lit, dist, s5))
                        }
                    },
                }
            }
        }
    }
}

proof fn lemma_code_length_lengths_bound(scratch: nat, k: nat, i: int)
    requires
        0 <= i < 19,
        k <= 19,
    ensures
        code_length_lengths(scratch, k).len() == 19,
        code_length_lengths(scratch, k)[i] <= 7,
    decreases k,
{
    if k > 0 {
        lemma_code_length_lengths_bound(scratch, (k - 1) as nat, i);
        lemma_tables_order(k - 1);
    }
}

proof fn lemma_tables_order(k: int)
    requires
        0 <= k < 19,
    ensures
        CODE_LENGTH_ORDER[k] < 19,
{
}

/// The fixed literal/length lookup table.
pub open spec fn fixed_literal_table() -> Seq<u16> {
    Seq::new(512, |i: int| fixed_literal_entry(i as nat))
}

/// The fixed distance lookup table.
pub open spec fn fixed_distance_table() -> Seq<u16> {
    Seq::new(32, |i: int| fixed_distance_entry(i as nat))
}

/// The bytes that decoded tokens produce, or the decoding error.
pub open spec fn tokens_output(
    history: Seq<u8>,
    r: Result<(Seq<Token>, Bits), ExtractError>,
) -> Result<(Seq<u8>, Bits), ExtractError> {
    match r {
        Ok((ts, rest)) => Ok((apply_tokens(history, ts), rest)),
        Err(e) => Err(e),
    }
}

/// One block of type `btype` (after its 3 header bits): the bytes it
/// produces after `history`, and the bits after it.
#[verifier::opaque]
pub open spec fn inflate_block(btype: nat, s: Bits, history: Seq<u8>) -> Result<(Seq<u8>, Bits), ExtractError> {
    if btype == 0 {
        stored_block(s)
    } else if btype == 1 {
        tokens_output(history, decode_block(fixed_literal_table(), 9, fixed_distance_table(), 5, s))
    } else if btype == 2 {
        match dynamic_lengths(s) {
            Err(e) => Err(e),
            Ok((lit, dist, s1)) => tokens_output(
                history,
                decode_block(lookup_table(lit, 32768), 15, lookup_table(dist, 32768), 15, s1),
            ),
        }
    } else {
        Err(ExtractError::ReservedBlockType)
    }
}

/// The blocks from `s` on, up to and including the one marked final: the
/// bytes they produce after `history`, and the bits after them.
pub open spec fn inflate_blocks(s: Bits, history: Seq<u8>) -> Result<(Seq<u8>, Bits), ExtractError>
    decreases s.len,
{
    if s.len < 3 {
        Err(ExtractError::UnexpectedEof)
    } else {
        let bfinal = take_bits(s, 1);
        let btype = take_bits(skip_bits(s, 1), 2);
        let s1 = skip_bits(skip_bits(s, 1), 2);
        match inflate_block(btype, s1, history) {
            Err(e) => Err(e),
            Ok((bytes, s2)) => if bfinal == 1 {
                Ok((bytes, s2))
            } else if s2.len < s.len {
                match inflate_blocks(s2, history + bytes) {
                    Ok((rest, s3)) => Ok((bytes + rest, s3)),
                    Err(e) => Err(e),
                }
            } else {
                Err(ExtractError::InvalidCode)
            },
        }
    }
}

/// The DEFLATE data of a gzip member and its trailer (CRC-32 and size of
/// the data, 32 bits each, at the next byte boundary): the decompressed data.
pub open spec fn gzip_data(s: Bits) -> Result<Seq<u8>, ExtractError> {
    match inflate_blocks(s, zeros(HISTORY_SIZE as nat)) {
        Err(e) => Err(e),
        Ok((data, s1)) => {
            let a = skip_bits(s1, s1.len % 8);
            if a.len < 64 {
                Err(ExtractError::UnexpectedEof)
            } else if take_bits(a, 32) != crc32(data) as nat {
                Err(ExtractError::ChecksumMismatch)
            } else if take_bits(skip_bits(a, 32), 32) != data.len() % 0x1_0000_0000 {
                Err(ExtractError::SizeMismatch)
            } else {
                Ok(data)
            }
        },
    }
}

proof fn lemma_decode_block_len(lit: Seq<u16>, lbits: nat, dist: Seq<u16>, dbits: nat, s: Bits)
    ensures
        decode_block(lit, lbits, dist, dbits, s) matches Ok((_, r)) ==> r.len <= s.len,
    decreases s.len,
{
    lemma_step_progress(lit, lbits, dist, dbits, s);
    match decode_step(lit, lbits, dist, dbits, s) {
        Step::Emit(t, s1) => {
            if s1.len < s.len {
                lemma_decode_block_len(lit, lbits, dist, dbits, s1);
            }
        },
        _ => {},
    }
}

proof fn lemma_read_code_lengths_len(cl_lut: Seq<u16>, s: Bits, acc: Seq<u16>, count: nat)
    ensures
        read_code_lengths(cl_lut, s, acc, count) matches Ok((_, r)) ==> r.len <= s.len,
    decreases count - acc.len(),
{
    if acc.len() < count {
        let e = cl_lut[take_bits(s, 7) as int];
        let len = entry_len(e);
        let sym = entry_symbol(e);
        if len <= s.len {
            let s1 = skip_bits(s, len);
            if sym <= 15 {
                lemma_read_code_lengths_len(cl_lut, s1, acc.push(sym as u16), count);
            } else if sym <= 18 {
                let extra: nat = if sym == 16 {
                    2
                } else if sym == 17 {
                    3
                } else {
                    7
                };
                let base: nat = if sym == 18 {
                    11
                } else {
                    3
                };
                let rl = base + take_bits(s1, extra);
                let value: u16 = if sym == 16 {
                    acc.last()
                } else {
                    0
                };
                if !(sym == 16 && acc.len() == 0) && extra <= s1.len && acc.len() + rl <= count {
                    lemma_read_code_lengths_len(
                        cl_lut,
                        skip_bits(s1, extra),
                        acc + Seq::new(rl, |i: int| value),
                        count,
                    );
                }
            }
        }
    }
}

proof fn lemma_inflate_block_len(btype: nat, s: Bits, history: Seq<u8>)
    ensures
        inflate_block(btype, s, history) matches Ok((_, r)) ==> r.len <= s.len,
{
    reveal(inflate_block);
    if btype == 1 {
        lemma_decode_block_len(fixed_literal_table(), 9, fixed_distance_table(), 5, s);
    } else if btype == 2 {
        if s.len >= 14 {
            let hlit = take_bits(s, 5) + 257;
            let s1 = skip_bits(s, 5);
            let hdist = take_bits(s1, 5) + 1;
            let s2 = skip_bits(s1, 5);
            let hclen = take_bits(s2, 4) + 4;
            let s3 = skip_bits(s2, 4);
            if 3 * hclen <= s3.len {
                let cll = code_length_lengths(take_bits(s3, 3 * hclen), 19);
                let s4 = skip_bits(s3, 3 * hclen);
                lemma_read_code_lengths_len(lookup_table(cll, 128), s4, Seq::empty(), hlit + hdist);
            }
        }
        match dynamic_lengths(s) {
            Ok((lit, dist, s1)) => {
                lemma_decode_block_len(lookup_table(lit, 32768), 15, lookup_table(dist, 32768), 15, s1);
            },
            Err(_) => {},
        }
    }
}

proof fn lemma_lookup_table_ok(lengths: Seq<u16>)
    requires
        codes_fit(lengths),
        lengths.len() <= 512,
    ensures
        table_ok(lookup_table(lengths, 32768), 15),
{
    lemma2_to64();
    assert(pow2(15) == 32768) by {
        lemma2_to64();
    }
    assert forall|i: int| 0 <= i < 32768 implies entry_len(#[trigger] lookup_table(lengths, 32768)[i]) <= 15 by {
        crate::huffman::lemma_lut_entry_len(lengths, code_table(lengths), i as nat, lengths.len(), 15);
    }
}

/// One code length symbol (RFC 1951, 3.2.7), read with the code length
/// code's table: the symbol's code takes `k` bits; 0 to 15 is one length;
/// 16 copies the previous length 3 to 6 times (2 extra bits); 17 gives 3 to
/// 10 zeros (3 extra bits); 18 gives 11 to 138 zeros (7 extra bits). The
/// lengths after it are read from the bits after its extra bits.
pub proof fn lemma_code_length_symbol(cl_lut: Seq<u16>, s: Bits, acc: Seq<u16>, count: nat)
    requires
        acc.len() < count,
        entry_len(cl_lut[take_bits(s, 7) as int]) <= s.len,
    ensures
        ({
            let e = cl_lut[(s.value % 128) as int];
            let k = entry_len(e);
            let sym = entry_symbol(e);
            let x = s.value / pow2(k);
            let r = read_code_lengths(cl_lut, s, acc, count);
            &&& sym <= 15 ==> r == read_code_lengths(cl_lut, skip_bits(s, k), acc.push(sym as u16), count)
            &&& sym == 16 && acc.len() == 0 ==> r == Err::<(Seq<u16>, Bits), ExtractError>(
                ExtractError::InvalidCodeLengths,
            )
            &&& sym == 16 && acc.len() > 0 && k + 2 <= s.len && acc.len() + 3 + x % 4 <= count ==> r
                == read_code_lengths(
                cl_lut,
                skip_bits(s, k + 2),
                acc + Seq::new(3 + x % 4, |i: int| acc.last()),
                count,
            )
            &&& sym == 17 && k + 3 <= s.len && acc.len() + 3 + x % 8 <= count ==> r == read_code_lengths(
                cl_lut,
                skip_bits(s, k + 3),
                acc + Seq::new(3 + x % 8, |i: int| 0u16),
                count,
            )
            &&& sym == 18 && k + 7 <= s.len && acc.len() + 11 + x % 128 <= count ==> r
                == read_code_lengths(
                cl_lut,
                skip_bits(s, k + 7),
                acc + Seq::new(11 + x % 128, |i: int| 0u16),
                count,
            )
            &&& sym == 17 && k + 3 <= s.len && acc.len() + 3 + x % 8 > count ==> r == Err::<
                (Seq<u16>, Bits),
                ExtractError,
            >(ExtractError::InvalidCodeLengths)
            &&& sym == 17 && k + 3 > s.len ==> r == Err::<(Seq<u16>, Bits), ExtractError>(
                ExtractError::UnexpectedEof,
            )
            &&& sym > 18 ==> r == Err::<(Seq<u16>, Bits), ExtractError>(ExtractError::InvalidCodeLengths)
        }),
{
    lemma2_to64();
    let e = cl_lut[(s.value % 128) as int];
    let k = entry_len(e);
    crate::numeric::lemma_div_pow2_twice(s.value, k, 2);
    crate::numeric::lemma_div_pow2_twice(s.value, k, 3);
    crate::numeric::lemma_div_pow2_twice(s.value, k, 7);
    assert(skip_bits(s, k).value == s.value / pow2(k));
    assert(pow2(2) == 4 && pow2(3) == 8 && pow2(7) == 128);
}

/// Reading code lengths only appends: what was read before stays in front,
/// and a successful read ends with exactly `count` lengths.
pub proof fn lemma_read_code_lengths_extends(cl_lut: Seq<u16>, s: Bits, acc: Seq<u16>, count: nat)
    ensures
        read_code_lengths(cl_lut, s, acc, count) matches Ok((out, _)) ==> {
            &&& out.len() >= acc.len()
            &&& out.subrange(0, acc.len() as int) == acc
            &&& acc.len() <= count ==> out.len() == count
        },
    decreases count - acc.len(),
{
    if acc.len() < count {
        let e = cl_lut[take_bits(s, 7) as int];
        let len = entry_len(e);
        let sym = entry_symbol(e);
        if len <= s.len {
            let s1 = skip_bits(s, len);
            if sym <= 15 {
                let next = acc.push(sym as u16);
                lemma_read_code_lengths_extends(cl_lut, s1, next, count);
                if let Ok((out, _)) = read_code_lengths(cl_lut, s, acc, count) {
                    assert(out.subrange(0, acc.len() as int) =~= out.subrange(0, next.len() as int).subrange(
                        0,
                        acc.len() as int,
                    ));
                    assert(next.subrange(0, acc.len() as int) =~= acc);
                }
            } else if sym <= 18 {
                let extra: nat = if sym == 16 {
                    2
                } else if sym == 17 {
                    3
                } else {
                    7
                };
                let base: nat = if sym == 18 {
                    11
                } else {
                    3
                };
                let rl = base + take_bits(s1, extra);
                let value: u16 = if sym == 16 {
                    acc.last()
                } else {
                    0
                };
                let next = acc + Seq::new(rl, |i: int| value);
                if !(sym == 16 && acc.len() == 0) && extra <= s1.len && acc.len() + rl <= count {
                    lemma_read_code_lengths_extends(cl_lut, skip_bits(s1, extra), next, count);
                    if let Ok((out, _)) = read_code_lengths(cl_lut, s, acc, count) {
                        assert(out.subrange(0, acc.len() as int) =~= out.subrange(
                            0,
                            next.len() as int,
                        ).subrange(0, acc.len() as int));
                        assert(next.subrange(0, acc.len() as int) =~= acc);
                    }
                }
            }
        }
    } else {
        assert(acc.subrange(0, acc.len() as int) =~= acc);
    }
}

/// The repeat symbols of the code length code (RFC 1951, 3.2.7), seen in
/// the lengths that come out: after a 16 the previous length stands
/// `3 + v` more times (`v` its 2 extra bits), after a 17 come `3 + v` zeros
/// (`v` its 3 extra bits), after an 18 come `11 + v` zeros (`v` its 7 extra
/// bits); the symbol's code takes `k` bits and its extra bits follow.
pub proof fn lemma_code_length_runs(cl_lut: Seq<u16>, s: Bits, acc: Seq<u16>, count: nat)
    requires
        acc.len() < count,
        entry_len(cl_lut[take_bits(s, 7) as int]) <= s.len,
    ensures
        ({
            let e = cl_lut[(s.value % 128) as int];
            let k = entry_len(e);
            let sym = entry_symbol(e);
            let x = s.value / pow2(k);
            read_code_lengths(cl_lut, s, acc, count) matches Ok((out, _)) ==> {
                &&& out.len() == count
                &&& sym == 16 ==> acc.len() > 0 && out.subrange(0, (acc.len() + 3 + x % 4) as int) == acc
                    + Seq::new(3 + x % 4, |i: int| acc.last())
                &&& sym == 17 ==> out.subrange(0, (acc.len() + 3 + x % 8) as int) == acc + Seq::new(
                    3 + x % 8,
                    |i: int| 0u16,
                )
                &&& sym == 18 ==> out.subrange(0, (acc.len() + 11 + x % 128) as int) == acc + Seq::new(
                    11 + x % 128,
                    |i: int| 0u16,
                )
            }
        }),
{
    lemma2_to64();
    let e = cl_lut[(s.value % 128) as int];
    let k = entry_len(e);
    let sym = entry_symbol(e);
    let x = s.value / pow2(k);
    lemma_code_length_symbol(cl_lut, s, acc, count);
    lemma_read_code_lengths_extends(cl_lut, s, acc, count);
    if 16 <= sym <= 18 {
        let extra: nat = if sym == 16 {
            2
        } else if sym == 17 {
            3
        } else {
            7
        };
        let rl: nat = if sym == 16 {
            3 + x % 4
        } else if sym == 17 {
            3 + x % 8
        } else {
            11 + x % 128
        };
        let value: u16 = if sym == 16 {
            acc.last()
        } else {
            0
        };
        let next = acc + Seq::new(rl, |i: int| value);
        if read_code_lengths(cl_lut, s, acc, count) is Ok {
            if sym == 16 {
                assert(acc.len() > 0);
            }
            assert(k + extra <= s.len && acc.len() + rl <= count);
            lemma_read_code_lengths_extends(cl_lut, skip_bits(s, k + extra), next, count);
        }
    }
}

/// Blocks follow one another up to the final one (RFC 1951, 3.2.3): when a
/// block's BFINAL bit is 0, the output is its bytes followed by those of the
/// blocks after it (decoded with its bytes as history); when it is 1, the
/// output is its bytes alone and decoding stops after it.
pub proof fn lemma_blocks_concatenate(s: Bits, h: Seq<u8>)
    requires
        s.len >= 3,
    ensures
        ({
            let btype = take_bits(skip_bits(s, 1), 2);
            let s1 = skip_bits(s, 3);
            match inflate_block(btype, s1, h) {
                Err(e) => inflate_blocks(s, h) == Err::<(Seq<u8>, Bits), ExtractError>(e),
                Ok((a, s2)) => if s.value % 2 == 1 {
                    inflate_blocks(s, h) == Ok::<(Seq<u8>, Bits), ExtractError>((a, s2))
                } else {
                    match inflate_blocks(s2, h + a) {
                        Ok((b, s3)) => inflate_blocks(s, h) == Ok::<(Seq<u8>, Bits), ExtractError>(
                            (a + b, s3),
                        ),
                        Err(e) => inflate_blocks(s, h) == Err::<(Seq<u8>, Bits), ExtractError>(e),
                    }
                },
            }
        }),
{
    lemma2_to64();
    crate::numeric::lemma_div_pow2_twice(s.value, 1, 2);
    let s1 = skip_bits(skip_bits(s, 1), 2);
    assert(s1 == skip_bits(s, 3));
    lemma_inflate_block_len(take_bits(skip_bits(s, 1), 2), s1, h);
}

/// Blocks decoded after `prefix` was produced: the whole output.
pub open spec fn prepend_output(
    prefix: Seq<u8>,
    r: Result<(Seq<u8>, Bits), ExtractError>,
) -> Result<(Seq<u8>, Bits), ExtractError> {
    match r {
        Ok((rest, s)) => Ok((prefix + rest, s)),
        Err(e) => Err(e),
    }
}

proof fn lemma_prepend_output(a: Seq<u8>, b: Seq<u8>, r: Result<(Seq<u8>, Bits), ExtractError>)
    ensures
        prepend_output(a + b, r) == prepend_output(
            a,
            match r {
                Ok((rest, s)) => Ok((b + rest, s)),
                Err(e) => Err(e),
            },
        ),
{
    match r {
        Ok((rest, s)) => {
            vstd::seq_lib::lemma_concat_associative(a, b, rest);
        },
        Err(_) => {},
    }
}

/// The bytes up to the first zero byte (which is not included), or `None`
/// when the stream ends before a zero byte.
pub open spec fn cstring(s: Bits) -> Option<Seq<u8>>
    decreases s.len,
{
    if s.len < 8 {
        None
    } else {
        let b = take_bits(s, 8);
        if b == 0 {
            Some(Seq::empty())
        } else {
            match cstring(skip_bits(s, 8)) {
                Some(t) => Some(seq![b as u8] + t),
                None => None,
            }
        }
    }
}

/// `cstring` with `prefix` already read in front.
pub open spec fn prefixed(prefix: Seq<u8>, o: Option<Seq<u8>>) -> Option<Seq<u8>> {
    match o {
        Some(t) => Some(prefix + t),
        None => None,
    }
}

/// The header fields that `process_header` reports.
pub struct HeaderFields {
    pub file_name: Option<Seq<u8>>,
    pub mtime: nat,
    pub xfl: nat,
    pub os: nat,
}

/// The stream after a zero-terminated field, or the error when it does not end.
pub open spec fn skip_cstring(s: Bits) -> Result<(Seq<u8>, Bits), ExtractError> {
    match cstring(s) {
        Some(t) => Ok((t, skip_bits(s, 8 * (t.len() + 1)))),
        None => Err(ExtractError::UnexpectedEof),
    }
}

/// The optional fields of a gzip header after its first ten bytes, given
/// the flag byte: extra field, file name, comment, header CRC (RFC 1952, 2.3).
#[verifier::opaque]
pub open spec fn header_tail(flags: nat, s: Bits) -> Result<(Option<Seq<u8>>, Bits), ExtractError> {
    let fhcrc = (flags / 2) % 2 == 1;
    let fextra = (flags / 4) % 2 == 1;
    let fname = (flags / 8) % 2 == 1;
    let fcomment = (flags / 16) % 2 == 1;
    let extra: Result<Bits, ExtractError> = if !fextra {
        Ok(s)
    } else if s.len < 16 {
        Err(ExtractError::UnexpectedEof)
    } else if 8 * take_bits(s, 16) > skip_bits(s, 16).len {
        Err(ExtractError::UnexpectedEof)
    } else {
        Ok(skip_bits(skip_bits(s, 16), 8 * take_bits(s, 16)))
    };
    match extra {
        Err(e) => Err(e),
        Ok(s1) => {
            let name: Result<(Option<Seq<u8>>, Bits), ExtractError> = if !fname {
                Ok((None, s1))
            } else {
                match skip_cstring(s1) {
                    Ok((t, s2)) => Ok((Some(t), s2)),
                    Err(e) => Err(e),
                }
            };
            match name {
                Err(e) => Err(e),
                Ok((file_name, s2)) => {
                    let comment: Result<Bits, ExtractError> = if !fcomment {
                        Ok(s2)
                    } else {
                        match skip_cstring(s2) {
                            Ok((_, s3)) => Ok(s3),
                            Err(e) => Err(e),
                        }
                    };
                    match comment {
                        Err(e) => Err(e),
                        Ok(s3) => if !fhcrc {
                            Ok((file_name, s3))
                        } else if s3.len < 16 {
                            Err(ExtractError::UnexpectedEof)
                        } else {
                            Ok((file_name, skip_bits(s3, 16)))
                        },
                    }
                },
            }
        },
    }
}

/// A gzip member header (RFC 1952, 2.3): its fields and the stream after it.
pub open spec fn gzip_header(s: Bits) -> Result<(HeaderFields, Bits), ExtractError> {
    if s.len < 16 {
        Err(ExtractError::UnexpectedEof)
    } else if take_bits(s, 8) != 0x1F || take_bits(skip_bits(s, 8), 8) != 0x8B {
        Err(ExtractError::BadMagic)
    } else {
        let s1 = skip_bits(s, 16);
        if s1.len < 8 {
            Err(ExtractError::UnexpectedEof)
        } else if take_bits(s1, 8) != 8 {
            Err(ExtractError::BadCompressionMethod)
        } else {
            let s2 = skip_bits(s1, 8);
            if s2.len < 8 {
                Err(ExtractError::UnexpectedEof)
            } else {
                let flags = take_bits(s2, 8);
                let s3 = skip_bits(s2, 8);
                if flags >= 32 {
                    Err(ExtractError::ReservedFlags)
                } else if s3.len < 48 {
                    Err(ExtractError::UnexpectedEof)
                } else {
                    let mtime = take_bits(s3, 32);
                    let xfl = take_bits(skip_bits(s3, 32), 8);
                    let os = take_bits(skip_bits(s3, 40), 8);
                    match header_tail(flags, skip_bits(s3, 48)) {
                        Err(e) => Err(e),
                        Ok((file_name, rest)) => Ok(
                            (HeaderFields { file_name, mtime, xfl, os }, rest),
                        ),
                    }
                }
            }
        }
    }
}

/// Dropping `a` bits, then `b` bits, drops `a + b` bits.
proof fn lemma_skip_skip(s: Bits, a: nat, b: nat)
    ensures
        skip_bits(skip_bits(s, a), b).value == skip_bits(s, a + b).value,
        a + b <= s.len ==> skip_bits(skip_bits(s, a), b) == skip_bits(s, a + b),
{
    crate::numeric::lemma_div_pow2_twice(s.value, a, b);
}

/// The bytes of an optional byte vector.
pub open spec fn opt_view(o: Option<Vec<u8>>) -> Option<Seq<u8>> {
    match o {
        Some(v) => Some(v@),
        None => None,
    }
}

/// The stream that a reader still holds.
pub open spec fn reader_bits(r: BitReader) -> Bits {
    Bits { value: r.stream_value(), len: r.stream_len() }
}

/// Reads a gzip member: its header, then its DEFLATE data.
pub struct Extractor {
    data: BitReader,
    file_name: Option<Vec<u8>>,
}

impl Extractor {
    /// The reader.
    pub closed spec fn reader(&self) -> BitReader {
        self.data
    }

    /// The file name found in the header, if any.
    pub closed spec fn file_name(&self) -> Option<Seq<u8>> {
        opt_view(self.file_name)
    }

    /// Creates an extractor over a bit reader.
    pub fn new(data: BitReader) -> (ext: Self)
        ensures
            ext.reader() == data,
            ext.file_name() == None::<Seq<u8>>,
            ext.wf() == data.wf(),
    {
        Extractor { data, file_name: None }
    }

    /// The file name found in the header, if any.
    pub fn get_file_name(&self) -> (name: Option<&Vec<u8>>)
        ensures
            match name {
                Some(v) => self.file_name() == Some(v@),
                None => self.file_name() == None::<Seq<u8>>,
            },
    {
        match &self.file_name {
            Some(v) => Some(v),
            None => None,
        }
    }

    /// Reads the bytes of a zero-terminated field up to its zero byte, which
    /// is consumed but not returned.
    fn read_zero_terminated(&mut self) -> (r: Result<Vec<u8>, ExtractError>)
        requires
            old(self).data.wf(),
            old(self).data.stored_len() % 8 == 0,
        ensures
            final(self).data.wf(),
            final(self).data.stored_len() % 8 == 0,
            final(self).file_name == old(self).file_name,
            match skip_cstring(reader_bits(old(self).data)) {
                Ok((t, rest)) => r matches Ok(v) && v@ == t && reader_bits(final(self).data) == rest,
                Err(e) => r == Err::<Vec<u8>, _>(e),
            },
    {
        let ghost s0 = reader_bits(self.data);
        let mut name: Vec<u8> = Vec::new();
        proof {
            lemma2_to64();
            crate::numeric::lemma_div_pow2_zero(s0.value);
            match cstring(s0) {
                Some(t) => {
                    assert(Seq::<u8>::empty() + t =~= t);
                },
                None => {},
            }
        }
        loop
            invariant
                self.data.wf(),
                self.data.stored_len() % 8 == 0,
                self.file_name == old(self).file_name,
                s0 == reader_bits(old(self).data),
                pow2(8) == 256,
                8 * name@.len() <= s0.len,
                reader_bits(self.data) == skip_bits(s0, 8 * name@.len()),
                cstring(s0) == prefixed(name@, cstring(reader_bits(self.data))),
            decreases reader_bits(self.data).len,
        {
            let ghost cur = reader_bits(self.data);
            if self.data.remaining_bits() < 8 {
                return Err(ExtractError::UnexpectedEof);
            }
            let mut byte: Vec<u8> = vec![0u8; 1];
            self.data.read_raw_bytes(byte.as_mut_slice());
            let b = byte[0];
            proof {
                reveal_with_fuel(le_bytes, 2);
                assert(b as nat == take_bits(cur, 8));
                assert(reader_bits(self.data) == skip_bits(cur, 8));
                lemma_skip_skip(s0, 8 * name@.len(), 8);
                assert(8 * name@.len() + 8 == 8 * (name@.len() + 1));
                assert(reader_bits(self.data) == skip_bits(s0, 8 * (name@.len() + 1)));
            }
            if b == 0 {
                proof {
                    assert(name@ + Seq::<u8>::empty() =~= name@);
                }
                return Ok(name);
            }
            let ghost before = name@;
            name.push(b);
            proof {
                match cstring(reader_bits(self.data)) {
                    Some(t) => {
                        assert(before + (seq![b] + t) =~= name@ + t);
                    },
                    None => {},
                }
            }
        }
    }

    /// Reads the optional fields of a gzip header that `flags` announces:
    /// skips the extra field, reads the file name, skips the comment and the
    /// header CRC.
    #[verifier::spinoff_prover]
    #[verifier::rlimit(30)]
    fn read_header_tail(&mut self, flags: u8) -> (r: Result<Option<Vec<u8>>, ExtractError>)
        requires
            old(self).data.wf(),
            old(self).data.stored_len() % 8 == 0,
        ensures
            final(self).data.wf(),
            final(self).file_name == old(self).file_name,
            match header_tail(flags as nat, reader_bits(old(self).data)) {
                Ok((name, rest)) => r matches Ok(o) && opt_view(o) == name && reader_bits(final(self).data)
                    == rest,
                Err(e) => r matches Err(x) && x == e,
            },
    {
        reveal(header_tail);
        let ghost s = reader_bits(self.data);
        let fhcrc = (flags & 0x02) != 0;
        let fextra = (flags & 0x04) != 0;
        let fname = (flags & 0x08) != 0;
        let fcomment = (flags & 0x10) != 0;
        proof {
            lemma2_to64();
            assert(fhcrc == ((flags / 2) % 2 == 1)) by (bit_vector)
                requires
                    fhcrc == ((flags & 0x02) != 0),
            ;
            assert(fextra == ((flags / 4) % 2 == 1)) by (bit_vector)
                requires
                    fextra == ((flags & 0x04) != 0),
            ;
            assert(fname == ((flags / 8) % 2 == 1)) by (bit_vector)
                requires
                    fname == ((flags & 0x08) != 0),
            ;
            assert(fcomment == ((flags / 16) % 2 == 1)) by (bit_vector)
                requires
                    fcomment == ((flags & 0x10) != 0),
            ;
        }
        if fextra {
            if self.data.remaining_bits() < 16 {
                return Err(ExtractError::UnexpectedEof);
            }
            let xlen: u16 = self.data.read_bytes(2) as u16;
            if (xlen as u128) * 8 > self.data.remaining_bits() {
                return Err(ExtractError::UnexpectedEof);
            }
            self.data.skip_bytes(xlen as u64);
        }
        let mut file_name: Option<Vec<u8>> = None;
        if fname {
            match self.read_zero_terminated() {
                Ok(v) => {
                    file_name = Some(v);
                },
                Err(e) => {
                    return Err(e);
                },
            }
        }
        if fcomment {
            match self.read_zero_terminated() {
                Ok(_) => {},
                Err(e) => {
                    return Err(e);
                },
            }
        }
        if fhcrc {
            if self.data.remaining_bits() < 16 {
                return Err(ExtractError::UnexpectedEof);
            }
            let _crc16: u16 = self.data.read_bytes(2) as u16;
        }
        Ok(file_name)
    }

    /// Reads the gzip member header (RFC 1952): checks the magic number, the
    /// compression method and the reserved flags, skips the optional extra
    /// field, comment and header CRC, and keeps the file name.
    #[verifier::spinoff_prover]
    #[verifier::rlimit(30)]
    pub fn process_header(&mut self) -> (r: Result<GzipHeader, ExtractError>)
        requires
            old(self).wf(),
            old(self).reader().stored_len() % 8 == 0,
        ensures
            final(self).wf(),
            match gzip_header(reader_bits(old(self).reader())) {
                Ok((h, rest)) => r matches Ok(g) && reader_bits(final(self).reader()) == rest
                    && final(self).file_name() == h.file_name && g.mtime == h.mtime && g.xfl == h.xfl
                    && g.os == h.os && opt_view(g.file_name) == h.file_name,
                Err(e) => r matches Err(x) && x == e && final(self).file_name() == old(self).file_name(),
            },
    {
        let ghost s = reader_bits(self.data);
        proof {
            lemma2_to64();
        }
        if self.data.remaining_bits() < 16 {
            return Err(ExtractError::UnexpectedEof);
        }
        let mut magic: Vec<u8> = vec![0u8; 2];
        self.data.read_raw_bytes(magic.as_mut_slice());
        proof {
            reveal_with_fuel(le_bytes, 3);
            assert(magic@[0] as nat == take_bits(s, 8));
            assert(magic@[1] as nat == take_bits(skip_bits(s, 8), 8));
        }
        if magic[0] != 0x1F || magic[1] != 0x8B {
            return Err(ExtractError::BadMagic);
        }
        if self.data.remaining_bits() < 8 {
            return Err(ExtractError::UnexpectedEof);
        }
        let cm: u8 = self.data.read_bytes(1) as u8;
        if cm != 8 {
            return Err(ExtractError::BadCompressionMethod);
        }
        if self.data.remaining_bits() < 8 {
            return Err(ExtractError::UnexpectedEof);
        }
        let flags: u8 = self.data.read_bytes(1) as u8;
        let ghost s3 = reader_bits(self.data);
        proof {
            assert(((flags & 0xE0) != 0) == (flags >= 32)) by (bit_vector);
        }
        if flags & 0xE0 != 0 {
            return Err(ExtractError::ReservedFlags);
        }
        if self.data.remaining_bits() < 48 {
            return Err(ExtractError::UnexpectedEof);
        }
        let mtime: u32 = self.data.read_bytes(4) as u32;
        let xfl: u8 = self.data.read_bytes(1) as u8;
        let os: u8 = self.data.read_bytes(1) as u8;
        proof {
            lemma_skip_skip(s3, 32, 8);
            lemma_skip_skip(s3, 40, 8);
        }
        let file_name = match self.read_header_tail(flags) {
            Ok(o) => o,
            Err(e) => {
                return Err(e);
            },
        };
        let kept = match &file_name {
            Some(v) => Some(v.clone()),
            None => None,
        };
        self.file_name = kept;
        Ok(GzipHeader { file_name, mtime, xfl, os })
    }

    /// Looks at the next `n` bits without consuming them; where fewer are
    /// left, looks at those that are left (the bits past the end read as 0).
    fn peek_up_to(&mut self, n: u8) -> (r: u128)
        requires
            old(self).data.wf(),
            n <= 64,
        ensures
            final(self).data.wf(),
            final(self).file_name == old(self).file_name,
            r as nat == take_bits(reader_bits(old(self).data), n as nat),
            reader_bits(final(self).data) == reader_bits(old(self).data),
            final(self).data.stored_len() >= n || final(self).data.unread().len() == 0,
    {
        let remaining = self.data.remaining_bits();
        let k: u8 = if (n as u128) <= remaining {
            n
        } else {
            remaining as u8
        };
        let r = self.data.peek_bits(k);
        proof {
            if k < n {
                let v = old(self).data.stream_value();
                old(self).data.lemma_wf();
                lemma_pow2_strictly_increases(k as nat, n as nat);
                crate::numeric::lemma_pow2_small(v, k as nat);
                crate::numeric::lemma_pow2_small(v, n as nat);
            }
        }
        r
    }

    /// Decodes one symbol of a Huffman-coded block: `Some(token)`, or `None`
    /// at the end of the block.
    #[verifier::spinoff_prover]
    #[verifier::rlimit(30)]
    fn decode_symbol(
        &mut self,
        literal_max_length: u8,
        distance_max_length: u8,
        literals: &[u16],
        distances: &[u16],
    ) -> (r: Result<Option<Token>, ExtractError>)
        requires
            old(self).data.wf(),
            table_ok(literals@, literal_max_length as nat),
            table_ok(distances@, distance_max_length as nat),
        ensures
            final(self).data.wf(),
            final(self).file_name == old(self).file_name,
            match decode_step(
                literals@,
                literal_max_length as nat,
                distances@,
                distance_max_length as nat,
                reader_bits(old(self).data),
            ) {
                Step::Emit(t, s1) => r == Ok::<_, ExtractError>(Some(t)) && reader_bits(final(self).data) == s1,
                Step::End(s1) => r == Ok::<_, ExtractError>(None::<Token>) && reader_bits(final(self).data) == s1,
                Step::Fail(e) => r == Err::<Option<Token>, _>(e),
            },
    {
        let ghost s = reader_bits(self.data);
        proof {
            lemma_tables();
            lemma_pow2_pos(literal_max_length as nat);
            lemma_pow2_pos(distance_max_length as nat);
            lemma_pow2_strictly_increases(literal_max_length as nat, 16);
            lemma_pow2_strictly_increases(distance_max_length as nat, 16);
            lemma2_to64();
        }
        let literal_bits = self.peek_up_to(literal_max_length);
        let packed_symbol = literals[literal_bits as usize];
        proof {
            lemma_entry_fields(packed_symbol);
        }
        let literal = packed_symbol & 0x1FF;
        let literal_len = (packed_symbol >> 9) as u8;
        if literal_len == 0 {
            return Err(ExtractError::InvalidCode);
        }
        if literal_len as u128 > self.data.remaining_bits() {
            return Err(ExtractError::UnexpectedEof);
        }
        self.data.advance_bits_unchecked(literal_len);
        if literal < 256 {
            return Ok(Some(Token::Literal(literal as u8)));
        } else if literal == 256 {
            return Ok(None);
        } else if literal > 285 {
            return Err(ExtractError::InvalidCode);
        }
        let length_index: usize = (literal - 257) as usize;
        let length_base = LENGTH_BASE_TABLE[length_index];
        let length_offset_bits = LENGTH_OFFSET_BITS_TABLE[length_index];
        if length_offset_bits as u128 > self.data.remaining_bits() {
            return Err(ExtractError::UnexpectedEof);
        }
        let length_offset: u16 = self.data.read_bits(length_offset_bits) as u16;
        let length: u16 = length_base + length_offset;

        let distance_bits = self.peek_up_to(distance_max_length);
        let packed_distance = distances[distance_bits as usize];
        proof {
            lemma_entry_fields(packed_distance);
        }
        let distance_index: usize = (packed_distance & 0x1FF) as usize;
        let distance_len = (packed_distance >> 9) as u8;
        if distance_len as u128 > self.data.remaining_bits() {
            return Err(ExtractError::UnexpectedEof);
        }
        self.data.advance_bits_unchecked(distance_len);
        if distance_index >= 30 {
            return Err(ExtractError::InvalidCode);
        }
        let distance_base = DISTANCE_BASE_TABLE[distance_index];
        let distance_offset_bits = DISTANCE_OFFSET_BITS_TABLE[distance_index];
        if distance_offset_bits as u128 > self.data.remaining_bits() {
            return Err(ExtractError::UnexpectedEof);
        }
        let distance_offset: u16 = self.data.read_bits(distance_offset_bits) as u16;
        let distance: u16 = distance_base + distance_offset;
        Ok(Some(Token::Copy { length, distance }))
    }
    /// Decodes a Huffman-coded block into `output`, up to its end-of-block symbol.
    #[verifier::spinoff_prover]
    #[verifier::rlimit(30)]
    fn decode_huffman(
        &mut self,
        literal_max_length: u8,
        distance_max_length: u8,
        literals: &[u16],
        distances: &[u16],
        output: &mut CachedWriter,
    ) -> (r: Result<(), ExtractError>)
        requires
            old(self).data.wf(),
            old(output).wf(),
            table_ok(literals@, literal_max_length as nat),
            table_ok(distances@, distance_max_length as nat),
        ensures
            final(self).data.wf(),
            final(self).file_name == old(self).file_name,
            final(output).wf(),
            final(output).base == old(output).base,
            match decode_block(
                literals@,
                literal_max_length as nat,
                distances@,
                distance_max_length as nat,
                reader_bits(old(self).data),
            ) {
                Ok((tokens, rest)) => r is Ok && final(output).output@ == old(output).output@
                    + apply_tokens(old(output).history(), tokens) && reader_bits(final(self).data)
                    == rest,
                Err(e) => r == Err::<(), _>(e),
            },
    {
        let ghost lit = literals@;
        let ghost dist = distances@;
        let ghost lb = literal_max_length as nat;
        let ghost db = distance_max_length as nat;
        let ghost s0 = reader_bits(self.data);
        let ghost h0 = output.history();
        let ghost out0 = output.output@;
        let ghost mut toks: Seq<Token> = Seq::empty();
        proof {
            assert(after_tokens(toks, decode_block(lit, lb, dist, db, s0)) == decode_block(lit, lb, dist, db, s0)) by {
                match decode_block(lit, lb, dist, db, s0) {
                    Ok((ts, s)) => { assert(toks + ts =~= ts); }
                    Err(e) => {}
                }
            }
            assert(out0 + apply_tokens(h0, toks) =~= out0);
        }
        loop
            invariant
                self.data.wf(),
                self.file_name == old(self).file_name,
                output.wf(),
                output.base == old(output).base,
                table_ok(literals@, literal_max_length as nat),
                table_ok(distances@, distance_max_length as nat),
                lit == literals@,
                dist == distances@,
                lb == literal_max_length as nat,
                db == distance_max_length as nat,
                s0 == reader_bits(old(self).data),
                h0 == old(output).history(),
                out0 == old(output).output@,
                decode_block(lit, lb, dist, db, s0) == after_tokens(
                    toks,
                    decode_block(lit, lb, dist, db, reader_bits(self.data)),
                ),
                output.output@ == out0 + apply_tokens(h0, toks),
            decreases reader_bits(self.data).len,
        {
            output.check_flush();
            let ghost cur = reader_bits(self.data);
            proof {
                lemma_step_progress(lit, lb, dist, db, cur);
            }
            let symbol = self.decode_symbol(
                literal_max_length,
                distance_max_length,
                literals,
                distances,
            );
            match symbol {
                Err(e) => {
                    return Err(e);
                },
                Ok(None) => {
                    proof {
                        assert(toks + Seq::<Token>::empty() =~= toks);
                    }
                    return Ok(());
                },
                Ok(Some(t)) => {
                    let ghost prev = apply_tokens(h0, toks);
                    let ghost before = output.output@;
                    proof {
                        assert(output.history() == h0 + prev) by {
                            vstd::seq_lib::lemma_concat_associative(
                                zeros(HISTORY_SIZE as nat),
                                out0,
                                prev,
                            );
                        }
                    }
                    match t {
                        Token::Literal(b) => {
                            output.write_literal(b);
                        },
                        Token::Copy { length, distance } => {
                            output.repeat_from(distance as usize, length as usize);
                        },
                    }
                    proof {
                        let nt = toks.push(t);
                        assert(nt.drop_last() =~= toks);
                        assert(nt.last() == t);
                        assert(apply_tokens(h0, nt) == prev + token_bytes(h0 + prev, t));
                        assert(output.output@ =~= before + token_bytes(h0 + prev, t));
                        vstd::seq_lib::lemma_concat_associative(out0, prev, token_bytes(h0 + prev, t));
                        assert(output.output@ == out0 + apply_tokens(h0, nt));
                        let rest = decode_block(lit, lb, dist, db, reader_bits(self.data));
                        match rest {
                            Ok((ts, s2)) => {
                                assert(toks + (seq![t] + ts) =~= nt + ts);
                            },
                            Err(e) => {},
                        }
                        toks = nt;
                    }
                },
            }
        }
    }
    /// Copies a stored (uncompressed) block to `output`.
    #[verifier::spinoff_prover]
    #[verifier::rlimit(30)]
    fn uncompressed_data(&mut self, output: &mut CachedWriter) -> (r: Result<(), ExtractError>)
        requires
            old(self).data.wf(),
            old(output).wf(),
        ensures
            final(self).data.wf(),
            final(self).file_name == old(self).file_name,
            final(output).wf(),
            final(output).base == old(output).base,
            match stored_block(reader_bits(old(self).data)) {
                Ok((bytes, rest)) => r is Ok && final(output).output@ == old(output).output@ + bytes
                    && reader_bits(final(self).data) == rest,
                Err(e) => r == Err::<(), _>(e),
            },
    {
        let ghost s = reader_bits(self.data);
        proof {
            lemma2_to64();
            lemma_pow2_pos(16);
        }
        self.data.align_to_byte();
        let ghost a = reader_bits(self.data);
        assert(a == skip_bits(s, s.len % 8));
        if self.data.remaining_bits() < 16 {
            return Err(ExtractError::UnexpectedEof);
        }
        let len_bits = self.data.read_bytes(2);
        assert(len_bits as nat == take_bits(a, 16));
        let len: u16 = len_bits as u16;
        let ghost b = reader_bits(self.data);
        assert(b == skip_bits(a, 16));
        if self.data.remaining_bits() < 16 {
            return Err(ExtractError::UnexpectedEof);
        }
        let nlen_bits = self.data.read_bytes(2);
        assert(nlen_bits as nat == take_bits(b, 16));
        let nlen: u16 = nlen_bits as u16;
        let ghost c = reader_bits(self.data);
        assert(c == skip_bits(b, 16));
        proof {
            assert((len != !nlen) == (len + nlen != 65535)) by (bit_vector);
        }
        if len != !nlen {
            return Err(ExtractError::LengthMismatch);
        }
        if (len as u128) * 8 > self.data.remaining_bits() {
            return Err(ExtractError::UnexpectedEof);
        }
        let mut payload: Vec<u8> = vec![0u8; len as usize];
        self.data.read_raw_bytes(payload.as_mut_slice());
        output.write_all(payload.as_slice());
        Ok(())
    }
    /// Builds the lookup table for the canonical code with `lengths`, or fails
    /// when the lengths do not form a code that fits.
    fn lookup_table_for(lengths: &[u16], size: usize) -> (r: Result<Vec<u16>, ExtractError>)
        requires
            lengths@.len() <= 512,
            size <= 32768,
        ensures
            match r {
                Ok(t) => codes_fit(lengths@) && t@ == lookup_table(lengths@, size as nat),
                Err(e) => !codes_fit(lengths@) && e == ExtractError::InvalidCodeLengths,
            },
    {
        let mut codes: Vec<u16> = vec![0u16; lengths.len()];
        let ghost zero = codes@;
        let ok = build_huff_codes(lengths, codes.as_mut_slice());
        if !ok {
            return Err(ExtractError::InvalidCodeLengths);
        }
        proof {
            assert(codes@ =~= code_table(lengths@)) by {
                assert forall|i: int| 0 <= i < lengths@.len() implies #[trigger] codes@[i] == code_table(
                    lengths@,
                )[i] by {
                    assert(zero[i] == 0);
                }
            }
        }
        let table = build_lut(lengths, codes.as_slice(), size);
        proof {
            assert(table@ =~= lookup_table(lengths@, size as nat));
        }
        Ok(table)
    }

    /// Reads `count` code lengths with the code length code's table `cl_lut`.
    #[verifier::spinoff_prover]
    #[verifier::rlimit(30)]
    fn read_lengths(&mut self, cl_lut: &[u16], count: usize) -> (r: Result<Vec<u16>, ExtractError>)
        requires
            old(self).data.wf(),
            cl_lut@.len() == 128,
            forall|i: int| 0 <= i < 128 ==> entry_len(#[trigger] cl_lut@[i]) <= 7,
        ensures
            final(self).data.wf(),
            final(self).file_name == old(self).file_name,
            match read_code_lengths(cl_lut@, reader_bits(old(self).data), Seq::empty(), count as nat) {
                Ok((all, rest)) => r matches Ok(v) && v@ == all && reader_bits(final(self).data) == rest,
                Err(e) => r == Err::<Vec<u16>, _>(e),
            },
            r matches Ok(v) ==> v@.len() == count,
    {
        let ghost s0 = reader_bits(self.data);
        let mut table: Vec<u16> = Vec::new();
        proof {
            lemma2_to64();
            lemma_pow2_pos(7);
        }
        while table.len() != count
            invariant
                self.data.wf(),
                self.file_name == old(self).file_name,
                cl_lut@.len() == 128,
                forall|i: int| 0 <= i < 128 ==> entry_len(#[trigger] cl_lut@[i]) <= 7,
                table@.len() <= count,
                pow2(7) == 128,
                s0 == reader_bits(old(self).data),
                read_code_lengths(cl_lut@, s0, Seq::empty(), count as nat) == read_code_lengths(
                    cl_lut@,
                    reader_bits(self.data),
                    table@,
                    count as nat,
                ),
            decreases count - table@.len(),
        {
            let ghost cur = reader_bits(self.data);
            let bits = self.peek_up_to(7);
            let packed_value = cl_lut[bits as usize];
            proof {
                lemma_entry_fields(packed_value);
                assert(take_bits(cur, 7) == bits as nat);
                assert(cl_lut@[take_bits(cur, 7) as int] == packed_value);
                assert(table@.len() < count);
            }
            let symbol: u16 = packed_value & 0x1FF;
            let symbol_len: u8 = (packed_value >> 9) as u8;
            if symbol_len as u128 > self.data.remaining_bits() {
                proof {
                    assert(entry_len(packed_value) > cur.len);
                    assert(read_code_lengths(cl_lut@, cur, table@, count as nat) == Err::<
                        (Seq<u16>, Bits),
                        ExtractError,
                    >(ExtractError::UnexpectedEof));
                }
                return Err(ExtractError::UnexpectedEof);
            }
            self.data.advance_bits_unchecked(symbol_len);
            let ghost s1 = reader_bits(self.data);
            if symbol <= 15 {
                table.push(symbol);
            } else if symbol <= 18 {
                let extra: u8 = if symbol == 16 {
                    2
                } else if symbol == 17 {
                    3
                } else {
                    7
                };
                let base: usize = if symbol == 18 {
                    11
                } else {
                    3
                };
                if symbol == 16 && table.len() == 0 {
                    return Err(ExtractError::InvalidCodeLengths);
                }
                if extra as u128 > self.data.remaining_bits() {
                    return Err(ExtractError::UnexpectedEof);
                }
                let raw = self.data.read_bits(extra);
                proof {
                    lemma_pow2_pos(extra as nat);
                    if extra < 7 {
                        lemma_pow2_strictly_increases(extra as nat, 7);
                    }
                }
                let repeat_length: usize = base + raw as usize;
                let value: u16 = if symbol == 16 {
                    table[table.len() - 1]
                } else {
                    0
                };
                if repeat_length > count - table.len() {
                    return Err(ExtractError::InvalidCodeLengths);
                }
                let ghost acc = table@;
                let mut k: usize = 0;
                while k < repeat_length
                    invariant
                        k <= repeat_length,
                        table@ == acc + Seq::new(k as nat, |i: int| value),
                    decreases repeat_length - k,
                {
                    table.push(value);
                    k = k + 1;
                    proof {
                        assert(table@ =~= acc + Seq::new(k as nat, |i: int| value));
                    }
                }
            } else {
                proof {
                    assert(entry_symbol(packed_value) > 18);
                    assert(read_code_lengths(cl_lut@, cur, table@, count as nat) == Err::<
                        (Seq<u16>, Bits),
                        ExtractError,
                    >(ExtractError::InvalidCodeLengths));
                }
                return Err(ExtractError::InvalidCodeLengths);
            }
        }
        Ok(table)
    }

    /// Reads the header of a dynamic block and builds its two lookup tables.
    #[verifier::spinoff_prover]
    #[verifier::rlimit(30)]
    fn decode_dynamic_tables(&mut self) -> (r: Result<(Vec<u16>, Vec<u16>), ExtractError>)
        requires
            old(self).data.wf(),
        ensures
            final(self).data.wf(),
            final(self).file_name == old(self).file_name,
            match dynamic_lengths(reader_bits(old(self).data)) {
                Ok((lit, dist, rest)) => r matches Ok((l, d)) && l@ == lookup_table(lit, 32768)
                    && d@ == lookup_table(dist, 32768) && reader_bits(final(self).data) == rest
                    && lit.len() <= 288 && dist.len() <= 32,
                Err(e) => r == Err::<(Vec<u16>, Vec<u16>), _>(e),
            },
    {
        let ghost s = reader_bits(self.data);
        proof {
            lemma2_to64();
        }
        if self.data.remaining_bits() < 14 {
            return Err(ExtractError::UnexpectedEof);
        }
        let hlit: usize = self.data.read_bits(5) as usize + 257;
        let hdist: usize = self.data.read_bits(5) as usize + 1;
        let hclen_bits = self.data.read_bits(4);
        proof {
            lemma_pow2_pos(4);
        }
        let hclen: u8 = hclen_bits as u8 + 4;
        let ghost s3 = reader_bits(self.data);
        if (hclen as u128) * 3 > self.data.remaining_bits() {
            return Err(ExtractError::UnexpectedEof);
        }
        let mut code_lengths_scratch: u64 = self.data.read_bits(hclen * 3) as u64;
        let ghost scratch = code_lengths_scratch as nat;
        proof {
            lemma_pow2_strictly_increases(57, 64);
            lemma_pow2_pos(3 * hclen as nat);
            if 3 * hclen < 57 {
                lemma_pow2_strictly_increases(3 * hclen as nat, 57);
            }
        }
        let mut codelength_lengths: Vec<u16> = vec![0u16; 19];
        let mut k: usize = 0;
        proof {
            assert(codelength_lengths@ =~= code_length_lengths(scratch, 0));
            vstd::arithmetic::div_mod::lemma_div_basics(scratch as int);
        }
        while k < 19
            invariant
                k <= 19,
                pow2(3) == 8,
                codelength_lengths@.len() == 19,
                codelength_lengths@ == code_length_lengths(scratch, k as nat),
                code_lengths_scratch as nat == scratch / pow2(3 * k as nat),
            decreases 19 - k,
        {
            let index = CODE_LENGTH_ORDER[k];
            let value = code_lengths_scratch & 0x7;
            proof {
                lemma_tables_order(k as int);
                let x = code_lengths_scratch;
                assert(x & 7u64 == x % 8 && x >> 3u64 == x / 8) by (bit_vector);
                crate::numeric::lemma_div_pow2_twice(scratch, 3 * k as nat, 3);
                assert(3 * (k as nat) + 3 == 3 * (k as nat + 1));
            }
            codelength_lengths.set(index, value as u16);
            code_lengths_scratch = code_lengths_scratch >> 3;
            k = k + 1;
        }
        let ghost cll = codelength_lengths@;
        assert(cll.len() == 19);
        let codelength_lut = match Self::lookup_table_for(codelength_lengths.as_slice(), 128) {
            Ok(t) => t,
            Err(e) => {
                return Err(e);
            },
        };
        let symbol_count: usize = hlit + hdist;
        if symbol_count > 318 {
            return Err(ExtractError::InvalidCodeLengths);
        }
        proof {
            assert forall|i: int| 0 <= i < 19 implies #[trigger] cll[i] <= 7 by {
                lemma_code_length_lengths_bound(scratch, 19, i);
            }
            assert forall|i: int| 0 <= i < 128 implies entry_len(#[trigger] codelength_lut@[i]) <= 7 by {
                crate::huffman::lemma_lut_entry_len(cll, code_table(cll), i as nat, 19, 7);
            }
        }
        let lit_dist_table = match self.read_lengths(codelength_lut.as_slice(), symbol_count) {
            Ok(t) => t,
            Err(e) => {
                return Err(e);
            },
        };
        let lit_lengths = vstd::slice::slice_subrange(lit_dist_table.as_slice(), 0, hlit);
        let dist_lengths = vstd::slice::slice_subrange(lit_dist_table.as_slice(), hlit, symbol_count);
        proof {
            assert(lit_lengths@ =~= lit_dist_table@.take(hlit as int));
            assert(dist_lengths@ =~= lit_dist_table@.skip(hlit as int));
        }
        let lit_table = match Self::lookup_table_for(lit_lengths, 32768) {
            Ok(t) => t,
            Err(e) => {
                return Err(e);
            },
        };
        let dist_table = match Self::lookup_table_for(dist_lengths, 32768) {
            Ok(t) => t,
            Err(e) => {
                return Err(e);
            },
        };
        Ok((lit_table, dist_table))
    }
    /// Whether the extractor's reader is consistent.
    pub closed spec fn wf(&self) -> bool {
        self.data.wf()
    }

    /// Decodes one block of type `btype` (its header bits already read) into `out`.
    fn inflate_block_into(
        &mut self,
        btype: u8,
        out: &mut CachedWriter,
        fixed_literals: &[u16],
        fixed_distances: &[u16],
    ) -> (r: Result<(), ExtractError>)
        requires
            old(self).data.wf(),
            old(out).wf(),
            fixed_literals@ == fixed_literal_table(),
            fixed_distances@ == fixed_distance_table(),
            table_ok(fixed_literals@, 9),
            table_ok(fixed_distances@, 5),
        ensures
            final(self).data.wf(),
            final(out).wf(),
            final(out).base == old(out).base,
            match inflate_block(btype as nat, reader_bits(old(self).data), old(out).history()) {
                Ok((bytes, rest)) => r is Ok && final(out).output@ == old(out).output@ + bytes
                    && reader_bits(final(self).data) == rest,
                Err(e) => r == Err::<(), _>(e),
            },
    {
        reveal(inflate_block);
        if btype == 0 {
            self.uncompressed_data(out)
        } else if btype == 1 {
            self.decode_huffman(9, 5, fixed_literals, fixed_distances, out)
        } else if btype == 2 {
            let ghost s = reader_bits(self.data);
            let (literals, distances) = match self.decode_dynamic_tables() {
                Ok(t) => t,
                Err(e) => {
                    return Err(e);
                },
            };
            proof {
                match dynamic_lengths(s) {
                    Ok((lit, dist, _)) => {
                        lemma_lookup_table_ok(lit);
                        lemma_lookup_table_ok(dist);
                    },
                    Err(_) => {},
                }
            }
            self.decode_huffman(15, 15, literals.as_slice(), distances.as_slice(), out)
        } else {
            Err(ExtractError::ReservedBlockType)
        }
    }

    /// Reads the trailer after the last block and hands out the data.
    #[verifier::spinoff_prover]
    #[verifier::rlimit(30)]
    fn finish_member(&mut self, out: CachedWriter, output: &mut Vec<u8>) -> (r: Result<(), ExtractError>)
        requires
            old(self).data.wf(),
            out.wf(),
            out.base@ == Seq::<u8>::empty(),
        ensures
            ({
                let s1 = reader_bits(old(self).data);
                let data = out.output@;
                let a = skip_bits(s1, s1.len % 8);
                if a.len < 64 {
                    r == Err::<(), _>(ExtractError::UnexpectedEof) && final(output)@ == old(output)@
                } else if take_bits(a, 32) != crc32(data) as nat {
                    r == Err::<(), _>(ExtractError::ChecksumMismatch) && final(output)@ == old(output)@
                } else if take_bits(skip_bits(a, 32), 32) != data.len() % 0x1_0000_0000 {
                    r == Err::<(), _>(ExtractError::SizeMismatch) && final(output)@ == old(output)@
                } else {
                    r is Ok && final(output)@ == old(output)@ + data
                }
            }),
    {
        let ghost data = out.output@;
        proof {
            lemma2_to64();
        }
        self.data.align_to_byte();
        if self.data.remaining_bits() < 64 {
            return Err(ExtractError::UnexpectedEof);
        }
        let expected_crc32: u32 = self.data.read_bytes(4) as u32;
        let expected_isize: u32 = self.data.read_bytes(4) as u32;
        let (produced, calculated_crc) = out.finalize();
        proof {
            assert(produced@ =~= data);
        }
        if calculated_crc != expected_crc32 {
            return Err(ExtractError::ChecksumMismatch);
        }
        let produced_size: u32 = ((produced.len() as u64) % 0x1_0000_0000) as u32;
        if produced_size != expected_isize {
            return Err(ExtractError::SizeMismatch);
        }
        output.extend_from_slice(produced.as_slice());
        Ok(())
    }

    /// Reads one block header and decodes the block into `out`: `Ok(true)`
    /// when it was the final block.
    #[verifier::spinoff_prover]
    #[verifier::rlimit(30)]
    fn inflate_next_block(
        &mut self,
        out: &mut CachedWriter,
        fixed_literals: &[u16],
        fixed_distances: &[u16],
    ) -> (r: Result<bool, ExtractError>)
        requires
            old(self).data.wf(),
            old(out).wf(),
            fixed_literals@ == fixed_literal_table(),
            fixed_distances@ == fixed_distance_table(),
            table_ok(fixed_literals@, 9),
            table_ok(fixed_distances@, 5),
        ensures
            final(self).data.wf(),
            final(out).wf(),
            final(out).base == old(out).base,
            ({
                let s = reader_bits(old(self).data);
                if s.len < 3 {
                    r == Err::<bool, _>(ExtractError::UnexpectedEof)
                } else {
                    let s1 = skip_bits(skip_bits(s, 1), 2);
                    match inflate_block(take_bits(skip_bits(s, 1), 2), s1, old(out).history()) {
                        Ok((bytes, rest)) => r == Ok::<bool, ExtractError>(take_bits(s, 1) == 1)
                            && final(out).output@ == old(out).output@ + bytes
                            && reader_bits(final(self).data) == rest && rest.len < s.len,
                        Err(e) => r == Err::<bool, _>(e),
                    }
                }
            }),
    {
        let ghost cur = reader_bits(self.data);
        proof {
            lemma2_to64();
        }
        if self.data.remaining_bits() < 3 {
            return Err(ExtractError::UnexpectedEof);
        }
        let bfinal: u8 = self.data.read_bits(1) as u8;
        let btype: u8 = self.data.read_bits(2) as u8;
        let ghost s1 = reader_bits(self.data);
        proof {
            assert(bfinal as nat == take_bits(cur, 1));
            assert(btype as nat == take_bits(skip_bits(cur, 1), 2));
            assert(s1 == skip_bits(skip_bits(cur, 1), 2));
            lemma_inflate_block_len(btype as nat, s1, old(out).history());
        }
        match self.inflate_block_into(btype, out, fixed_literals, fixed_distances) {
            Ok(()) => Ok(bfinal == 1),
            Err(e) => Err(e),
        }
    }

    /// Runs the DEFLATE algorithm over the rest of the member, checks the
    /// trailer, and appends the decompressed data to `output`. On an error
    /// `output` is left as it was.
    #[verifier::spinoff_prover]
    #[verifier::rlimit(30)]
    pub fn deflate(self, output: &mut Vec<u8>) -> (r: Result<(), ExtractError>)
        requires
            self.wf(),
        ensures
            match gzip_data(reader_bits(self.reader())) {
                Ok(data) => r is Ok && final(output)@ == old(output)@ + data,
                Err(e) => r == Err::<(), _>(e) && final(output)@ == old(output)@,
            },
    {
        let mut ext = self;
        let mut out = CachedWriter::new(Vec::new());
        let fixed_literals = fixed_literals_lut();
        let fixed_distances = fixed_distances_lut();
        let ghost s0 = reader_bits(ext.data);
        let ghost h0 = zeros(HISTORY_SIZE as nat);
        proof {
            assert(fixed_literals@ =~= fixed_literal_table());
            assert(fixed_distances@ =~= fixed_distance_table());
            assert(pow2(9) == 512 && pow2(5) == 32) by {
                lemma2_to64();
            }
            assert forall|i: int| 0 <= i < 512 implies entry_len(#[trigger] fixed_literals@[i]) <= 9 by {
                crate::huffman::lemma_fixed_literal_entry(i as nat);
            }
            assert forall|i: int| 0 <= i < 32 implies entry_len(#[trigger] fixed_distances@[i]) <= 5 by {
                crate::huffman::lemma_fixed_distance_entry(i as nat);
            }
            assert(out.history() =~= h0);
            match inflate_blocks(s0, h0) {
                Ok((rest, s)) => {
                    assert(Seq::<u8>::empty() + rest =~= rest);
                },
                Err(_) => {},
            }
        }
        loop
            invariant_except_break
                inflate_blocks(s0, h0) == prepend_output(
                    out.output@,
                    inflate_blocks(reader_bits(ext.data), out.history()),
                ),
            invariant
                ext.data.wf(),
                out.wf(),
                out.base@ == Seq::<u8>::empty(),
                s0 == reader_bits(self.reader()),
                h0 == zeros(HISTORY_SIZE as nat),
                fixed_literals@ == fixed_literal_table(),
                fixed_distances@ == fixed_distance_table(),
                table_ok(fixed_literals@, 9),
                table_ok(fixed_distances@, 5),
            ensures
                inflate_blocks(s0, h0) == Ok::<_, ExtractError>((out.output@, reader_bits(ext.data))),
            decreases reader_bits(ext.data).len,
        {
            let ghost cur = reader_bits(ext.data);
            let ghost hist = out.history();
            let ghost before = out.output@;
            let last = match ext.inflate_next_block(&mut out, fixed_literals.as_slice(), fixed_distances.as_slice()) {
                Ok(b) => b,
                Err(e) => {
                    return Err(e);
                },
            };
            let ghost bytes = out.output@.skip(before.len() as int);
            let ghost rest = reader_bits(ext.data);
            proof {
                match inflate_block(take_bits(skip_bits(cur, 1), 2), skip_bits(skip_bits(cur, 1), 2), hist) {
                    Ok((b, _)) => {
                        assert(b =~= bytes);
                    },
                    Err(_) => {},
                }
                assert(out.output@ =~= before + bytes);
                assert(out.history() =~= hist + bytes) by {
                    vstd::seq_lib::lemma_concat_associative(h0, before, bytes);
                }
            }
            if last {
                break;
            }
            proof {
                let tail = inflate_blocks(rest, hist + bytes);
                assert(inflate_blocks(cur, hist) == prepend_output(bytes, tail));
                lemma_prepend_output(before, bytes, tail);
            }
        }
        ext.finish_member(out, output)
    }
}

} // verus!
