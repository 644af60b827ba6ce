//! A gzip compressor: LZ77 over a sliding window with hash chains, written
//! as one DEFLATE block with the fixed Huffman code (RFC 1951, 3.2.6).
//!
//! Its model: the bytes received so far (`input`), the tokens written so
//! far (`tokens`), which reproduce the input that has been compressed, and
//! the bit writer, which holds the encoding of those tokens after the bits
//! that preceded them (`mark_bits`).
use vstd::prelude::*;
use vstd::arithmetic::power2::*;
use crate::bitwriter::BitWriter;
use crate::cached_writer::{copy_within, lz77_repeat, zeros, HISTORY_SIZE, TOTAL_SIZE};
use crate::crc32::{crc32, finalize_hasher, hasher_input, new_hasher, update_hasher};
use crate::extraction::{
    apply_tokens, token_bytes, Bits, Token, DISTANCE_BASE_TABLE, DISTANCE_OFFSET_BITS_TABLE,
    LENGTH_BASE_TABLE, LENGTH_OFFSET_BITS_TABLE,
};
use crate::huffman::{rev_bits, reverse_low_bits};
use crate::numeric::{le_bytes, le_value};

verus! {

/// Number of hash chains: the hash has 15 bits.
pub const HASH_SIZE: usize = 32768;

const HASH_MASK: usize = HASH_SIZE - 1;

/// Shortest match that DEFLATE can encode.
pub const MIN_MATCH: usize = 3;

/// Longest match that DEFLATE can encode.
pub const MAX_MATCH: usize = 258;

/// How many chain links a search follows unless told otherwise.
pub const DEFAULT_MAX_CHAIN: u32 = 256;

/// The gzip header that the compressor writes: magic, DEFLATE, no flags,
/// no modification time, no extra flags, unknown operating system.
pub open spec fn header_bytes() -> Seq<u8> {
    seq![0x1Fu8, 0x8Bu8, 0x08u8, 0x00u8, 0x00u8, 0x00u8, 0x00u8, 0x00u8, 0x00u8, 0xFFu8]
}

/// The bits `a`, then the bits `b`.
pub open spec fn concat_bits(a: Bits, b: Bits) -> Bits {
    Bits { value: a.value + pow2(a.len) * b.value, len: a.len + b.len }
}

/// A Huffman code of `len` bits, sent most significant bit first.
pub open spec fn code_bits(code: nat, len: nat) -> Bits {
    Bits { value: rev_bits(code, len), len }
}

/// `n` extra bits holding `v`, as `write_bits` sends them.
pub open spec fn extra_bits(v: nat, n: nat) -> Bits {
    Bits { value: v % pow2(n), len: n }
}

/// The fixed literal/length code of a symbol (RFC 1951, 3.2.6): its code and length.
pub open spec fn fixed_code(sym: nat) -> (nat, nat) {
    if sym < 144 {
        (sym + 48, 8)
    } else if sym < 256 {
        (sym + 256, 9)
    } else if sym < 280 {
        ((sym - 256) as nat, 7)
    } else {
        ((sym - 88) as nat, 8)
    }
}

/// The last length code from `i` on whose base is at most `length`.
pub open spec fn length_index_from(length: nat, i: nat) -> nat
    decreases 28 - i,
{
    if i < 28 && LENGTH_BASE_TABLE[i + 1int] <= length {
        length_index_from(length, i + 1)
    } else {
        i
    }
}

/// The last distance code from `i` on whose base is at most `distance`.
pub open spec fn distance_index_from(distance: nat, i: nat) -> nat
    decreases 29 - i,
{
    if i < 29 && DISTANCE_BASE_TABLE[i + 1int] <= distance {
        distance_index_from(distance, i + 1)
    } else {
        i
    }
}

/// The bits of one token in the fixed code.
pub open spec fn token_bits(t: Token) -> Bits {
    match t {
        Token::Literal(b) => code_bits(fixed_code(b as nat).0, fixed_code(b as nat).1),
        Token::Copy { length, distance } => {
            let li = length_index_from(length as nat, 0);
            let di = distance_index_from(distance as nat, 0);
            concat_bits(
                concat_bits(
                    concat_bits(
                        code_bits(fixed_code(257 + li).0, fixed_code(257 + li).1),
                        extra_bits(
                            (length - LENGTH_BASE_TABLE[li as int]) as nat,
                            LENGTH_OFFSET_BITS_TABLE[li as int] as nat,
                        ),
                    ),
                    code_bits(di, 5),
                ),
                extra_bits(
                    (distance - DISTANCE_BASE_TABLE[di as int]) as nat,
                    DISTANCE_OFFSET_BITS_TABLE[di as int] as nat,
                ),
            )
        },
    }
}

/// The bits of a sequence of tokens in the fixed code.
pub open spec fn tokens_bits(ts: Seq<Token>) -> Bits
    decreases ts.len(),
{
    if ts.len() == 0 {
        Bits { value: 0, len: 0 }
    } else {
        concat_bits(tokens_bits(ts.drop_last()), token_bits(ts.last()))
    }
}

/// Every back-reference has a length and a distance that DEFLATE allows.
pub open spec fn tokens_valid(ts: Seq<Token>) -> bool {
    forall|i: int|
        0 <= i < ts.len() ==> match #[trigger] ts[i] {
            Token::Copy { length, distance } => 3 <= length <= 258 && 1 <= distance <= 32768,
            Token::Literal(_) => true,
        }
}

/// Everything a bit writer has written, as a bit stream.
pub open spec fn writer_bits(w: BitWriter) -> Bits {
    Bits { value: w.written_value(), len: w.written_len() }
}

/// Appending bits is associative.
pub proof fn lemma_concat_assoc(a: Bits, b: Bits, c: Bits)
    ensures
        concat_bits(concat_bits(a, b), c) == concat_bits(a, concat_bits(b, c)),
{
    lemma_pow2_adds(a.len, b.len);
    let pa = pow2(a.len) as int;
    let pb = pow2(b.len) as int;
    let bv = b.value as int;
    let cv = c.value as int;
    assert(pa * bv + (pa * pb) * cv == pa * (bv + pb * cv)) by (nonlinear_arith);
}

/// Appending nothing changes nothing.
pub proof fn lemma_concat_empty(a: Bits)
    ensures
        concat_bits(a, Bits { value: 0, len: 0 }) == a,
{
    lemma_times_zero(pow2(a.len));
}

/// Anything times zero is zero.
pub proof fn lemma_times_zero(x: nat)
    ensures
        x * 0 == 0,
{
    assert(x * 0 == 0) by (nonlinear_arith);
}

/// A periodic stretch: when each of `n` bytes at `q` repeats the byte `d`
/// before it, each repeats one of the `d` bytes before `q`.
proof fn lemma_periodic(s: Seq<u8>, q: int, d: int, n: int, i: int)
    requires
        1 <= d <= q,
        q + n <= s.len(),
        forall|j: int| 0 <= j < n ==> #[trigger] s[q + j] == s[q - d + j],
        0 <= i < n,
    ensures
        s[q + i] == s[q - d + i % d],
    decreases i,
{
    if i >= d {
        lemma_periodic(s, q, d, n, i - d);
        vstd::arithmetic::div_mod::lemma_mod_sub_multiples_vanish(i, d);
        assert(s[q + i] == s[q - d + i]);
        assert(q - d + i == q + (i - d));
    } else {
        vstd::arithmetic::div_mod::lemma_small_mod(i as nat, d as nat);
    }
}

/// One more token after `t0`, which reproduce `input` from `mark` to `p`,
/// that produces the next `n` input bytes: the tokens reproduce up to `p + n`,
/// and their bits are those of `t0` followed by the token's.
proof fn lemma_emit_step(input: Seq<u8>, mark: nat, t0: Seq<Token>, t: Token, p: int, n: int)
    requires
        mark <= p,
        0 <= n,
        p + n <= input.len(),
        apply_tokens(zeros(HISTORY_SIZE as nat) + input.take(mark as int), t0) == input.subrange(
            mark as int,
            p,
        ),
        token_bytes(zeros(HISTORY_SIZE as nat) + input.take(p), t) == input.subrange(p, p + n),
    ensures
        apply_tokens(zeros(HISTORY_SIZE as nat) + input.take(mark as int), t0.push(t))
            == input.subrange(mark as int, p + n),
        tokens_bits(t0.push(t)) == concat_bits(tokens_bits(t0), token_bits(t)),
{
    let h0 = zeros(HISTORY_SIZE as nat) + input.take(mark as int);
    let t1 = t0.push(t);
    assert(t1.drop_last() =~= t0);
    assert(t1.last() == t);
    assert(h0 + input.subrange(mark as int, p) =~= zeros(HISTORY_SIZE as nat) + input.take(p));
    assert(input.subrange(mark as int, p) + input.subrange(p, p + n) =~= input.subrange(
        mark as int,
        p + n,
    ));
}

/// A back-reference over a periodic stretch of the input reproduces it.
proof fn lemma_match_bytes(input: Seq<u8>, p: int, d: int, n: int)
    requires
        1 <= d <= p,
        0 <= n,
        p + n <= input.len(),
        forall|j: int| 0 <= j < n ==> #[trigger] input[p + j] == input[p - d + j],
    ensures
        lz77_repeat(zeros(HISTORY_SIZE as nat) + input.take(p), d as nat, n as nat) == input.subrange(
            p,
            p + n,
        ),
{
    let hist = zeros(HISTORY_SIZE as nat) + input.take(p);
    assert forall|i: int| 0 <= i < n implies #[trigger] lz77_repeat(hist, d as nat, n as nat)[i]
        == input.subrange(p, p + n)[i] by {
        lemma_periodic(input, p, d, n, i);
        vstd::arithmetic::div_mod::lemma_mod_bound(i, d);
        assert(hist[hist.len() - d + (i % d)] == input[p - d + i % d]);
    }
    assert(lz77_repeat(hist, d as nat, n as nat) =~= input.subrange(p, p + n));
}

/// The 15-bit hash of three bytes.
pub open spec fn hash3(a: u8, b: u8, c: u8) -> usize {
    (((a as usize) << 10usize) ^ ((b as usize) << 5usize) ^ (c as usize)) & 0x7FFFusize
}

/// A position left in a hash chain after the window slides by `HISTORY_SIZE`.
pub open spec fn slid(p: u16) -> u16 {
    if p >= 32768 {
        (p - 32768) as u16
    } else {
        0
    }
}

/// Writing `count` bits of `bits` appends them as extra bits.
proof fn lemma_write_extra(w0: BitWriter, w1: BitWriter, bits: u16, count: u8)
    requires
        w1.written_value() == w0.written_value() + pow2(w0.written_len()) * (bits as nat % pow2(count as nat)),
        w1.written_len() == w0.written_len() + count,
    ensures
        writer_bits(w1) == concat_bits(writer_bits(w0), extra_bits(bits as nat, count as nat)),
{
}

/// Writing a reversed code appends the code, most significant bit first.
proof fn lemma_write_code(w0: BitWriter, w1: BitWriter, code: u16, len: u8, rev: u16)
    requires
        rev as nat == rev_bits(code as nat, len as nat),
        w1.written_value() == w0.written_value() + pow2(w0.written_len()) * (rev as nat % pow2(len as nat)),
        w1.written_len() == w0.written_len() + len,
    ensures
        writer_bits(w1) == concat_bits(writer_bits(w0), code_bits(code as nat, len as nat)),
{
    crate::huffman::lemma_rev_bits_bound(code as nat, len as nat);
    crate::numeric::lemma_pow2_small(rev as nat, len as nat);
}

/// Writes the fixed code of a literal byte.
fn write_literal_code(w: &mut BitWriter, literal: u8)
    requires
        old(w).wf(),
    ensures
        final(w).wf(),
        writer_bits(*final(w)) == concat_bits(writer_bits(*old(w)), token_bits(Token::Literal(literal))),
{
    let (bit_length, base_code): (u8, u16) = if literal <= 143 {
        (8, literal as u16 + 0x30)
    } else {
        (9, literal as u16 + 0x100)
    };
    let code = reverse_low_bits(base_code, bit_length as u16);
    let ghost w0 = *w;
    w.write_bits(code, bit_length);
    proof {
        lemma_write_code(w0, *w, base_code, bit_length, code);
    }
}

/// Writes the fixed codes of a back-reference: the length code and its
/// extra bits, then the distance code and its extra bits.
#[verifier::spinoff_prover]
#[verifier::rlimit(30)]
fn write_match_codes(w: &mut BitWriter, length: usize, distance: usize)
    requires
        old(w).wf(),
        MIN_MATCH <= length <= MAX_MATCH,
        1 <= distance <= HISTORY_SIZE,
    ensures
        final(w).wf(),
        writer_bits(*final(w)) == concat_bits(
            writer_bits(*old(w)),
            token_bits(Token::Copy { length: length as u16, distance: distance as u16 }),
        ),
{
    let mut index: usize = 0;
    while index < 28 && LENGTH_BASE_TABLE[index + 1] <= length as u16
        invariant
            index <= 28,
            LENGTH_BASE_TABLE[index as int] <= length,
            length_index_from(length as nat, 0) == length_index_from(length as nat, index as nat),
        decreases 28 - index,
    {
        index = index + 1;
    }
    let len_symbol: u16 = 257 + index as u16;
    let (len_bit_length, len_base_code): (u8, u16) = if len_symbol <= 279 {
        (7, len_symbol - 256)
    } else {
        (8, len_symbol - 280 + 0xC0)
    };
    let ghost w0 = *w;
    let code = reverse_low_bits(len_base_code, len_bit_length as u16);
    w.write_bits(code, len_bit_length);
    proof {
        lemma_write_code(w0, *w, len_base_code, len_bit_length, code);
    }
    let ghost w1 = *w;
    let extra: u16 = length as u16 - LENGTH_BASE_TABLE[index];
    if LENGTH_OFFSET_BITS_TABLE[index] > 0 {
        w.write_bits(extra, LENGTH_OFFSET_BITS_TABLE[index]);
    }
    proof {
        lemma2_to64();
        if LENGTH_OFFSET_BITS_TABLE[index as int] == 0 {
            assert(extra as nat % pow2(0) == 0);
            lemma_times_zero(pow2(w1.written_len()));
        }
        lemma_write_extra(w1, *w, extra, LENGTH_OFFSET_BITS_TABLE[index as int]);
    }
    let ghost w2 = *w;
    let mut index: usize = 0;
    while index < 29 && DISTANCE_BASE_TABLE[index + 1] <= distance as u16
        invariant
            index <= 29,
            DISTANCE_BASE_TABLE[index as int] <= distance,
            distance_index_from(distance as nat, 0) == distance_index_from(distance as nat, index as nat),
        decreases 29 - index,
    {
        index = index + 1;
    }
    let dist_symbol: u16 = index as u16;
    let code = reverse_low_bits(dist_symbol, 5);
    w.write_bits(code, 5);
    proof {
        lemma_write_code(w2, *w, dist_symbol, 5, code);
    }
    let ghost w3 = *w;
    let extra: u16 = distance as u16 - DISTANCE_BASE_TABLE[index];
    if DISTANCE_OFFSET_BITS_TABLE[index] > 0 {
        w.write_bits(extra, DISTANCE_OFFSET_BITS_TABLE[index]);
    }
    proof {
        if DISTANCE_OFFSET_BITS_TABLE[index as int] == 0 {
            assert(extra as nat % pow2(0) == 0);
            lemma_times_zero(pow2(w3.written_len()));
        }
        lemma_write_extra(w3, *w, extra, DISTANCE_OFFSET_BITS_TABLE[index as int]);
        let a = writer_bits(w0);
        let li = length_index_from(length as nat, 0);
        let di = distance_index_from(distance as nat, 0);
        let c1 = code_bits(fixed_code(257 + li).0, fixed_code(257 + li).1);
        let e1 = extra_bits(
            (length - LENGTH_BASE_TABLE[li as int]) as nat,
            LENGTH_OFFSET_BITS_TABLE[li as int] as nat,
        );
        let c2 = code_bits(di, 5);
        let e2 = extra_bits(
            (distance - DISTANCE_BASE_TABLE[di as int]) as nat,
            DISTANCE_OFFSET_BITS_TABLE[di as int] as nat,
        );
        lemma_concat_assoc(a, c1, e1);
        lemma_concat_assoc(a, concat_bits(c1, e1), c2);
        lemma_concat_assoc(a, concat_bits(concat_bits(c1, e1), c2), e2);
    }
}

/// Appends the four bytes of `x`, least significant first.
fn push_u32_le(out: &mut Vec<u8>, x: u32)
    ensures
        final(out)@ == old(out)@ + le_bytes(x as nat, 4),
{
    let mut k: u32 = 0;
    let mut rest: u32 = x;
    proof {
        lemma2_to64();
        assert(old(out)@ + le_bytes(x as nat, 0) =~= old(out)@);
        crate::numeric::lemma_div_pow2_zero(x as nat);
    }
    while k < 4
        invariant
            k <= 4,
            pow2(8) == 256,
            out@ == old(out)@ + le_bytes(x as nat, k as nat),
            rest as nat == x as nat / pow2(8 * k as nat),
        decreases 4 - k,
    {
        let byte: u8 = (rest & 0xFF) as u8;
        proof {
            assert(rest & 0xFFu32 == rest % 256) by (bit_vector);
            assert(rest >> 8u32 == rest / 256) by (bit_vector);
            crate::numeric::lemma_le_bytes_snoc(x as nat, k as nat);
            crate::numeric::lemma_div_pow2_twice(x as nat, 8 * k as nat, 8);
            assert(8 * (k as nat) + 8 == 8 * (k as nat + 1));
        }
        out.push(byte);
        rest = rest >> 8;
        k = k + 1;
        proof {
            assert(out@ =~= old(out)@ + le_bytes(x as nat, k as nat));
        }
    }
}

/// Copies `n` bytes of `src` from `start` into `dst` at `dest`.
fn copy_into(dst: &mut Vec<u8>, dest: usize, src: &[u8], start: usize, n: usize)
    requires
        dest + n <= old(dst)@.len(),
        start + n <= src@.len(),
        dest + n <= usize::MAX,
        start + n <= usize::MAX,
    ensures
        final(dst)@ == old(dst)@.take(dest as int) + src@.subrange(start as int, start + n)
            + old(dst)@.skip(dest + n),
{
    let mut k: usize = 0;
    while k < n
        invariant
            k <= n,
            dest + n <= dst@.len(),
            start + n <= src@.len(),
            dest + n <= usize::MAX,
            start + n <= usize::MAX,
            dst@.len() == old(dst)@.len(),
            dst@ == old(dst)@.take(dest as int) + src@.subrange(start as int, start + k)
                + old(dst)@.skip(dest + k),
        decreases n - k,
    {
        let ghost before = dst@;
        dst.set(dest + k, src[start + k]);
        k = k + 1;
        proof {
            assert(dst@ =~= old(dst)@.take(dest as int) + src@.subrange(start as int, start + k)
                + old(dst)@.skip(dest + k));
        }
    }
    proof {
        assert(dst@ =~= old(dst)@.take(dest as int) + src@.subrange(start as int, start + n)
            + old(dst)@.skip(dest + n));
    }
}

/// The literals of a run of bytes.
pub open spec fn literal_tokens(bytes: Seq<u8>) -> Seq<Token> {
    Seq::new(bytes.len(), |i: int| Token::Literal(bytes[i]))
}

/// The gzip trailer: the CRC-32 and the size (modulo 2^32) of the data,
/// four bytes each, least significant first.
pub open spec fn trailer_bytes(input: Seq<u8>) -> Seq<u8> {
    le_bytes(crc32(input) as nat, 4) + le_bytes(input.len() % 0x1_0000_0000, 4)
}

/// The bits of a writer that held `mark` and then wrote `tokens` and the
/// end-of-block code, padded to whole bytes.
pub open spec fn block_bytes(mark: Bits, tokens: Seq<Token>) -> Seq<u8> {
    let b = concat_bits(concat_bits(mark, tokens_bits(tokens)), Bits { value: 0, len: 7 });
    le_bytes(b.value, (b.len + 7) / 8)
}

/// The bits a writer holds after `new` on an empty stream and
/// `write_header`: the gzip header, then the block header (final, fixed code).
pub open spec fn header_mark() -> Bits {
    Bits { value: le_value(header_bytes()) + pow2(80) * 3, len: 83 }
}

/// The tokens `finish` ends with: those written so far, then the bytes
/// still in the lookahead as literals.
pub open spec fn final_tokens(c: Compressor) -> Seq<Token> {
    c.tokens@ + literal_tokens(c.input@.skip(c.input@.len() - c.lookahead))
}

/// What `finish` returns: the block with the final tokens, then the trailer.
pub open spec fn finished_output(c: Compressor) -> Seq<u8> {
    block_bytes(c.mark_bits@, final_tokens(c)) + trailer_bytes(c.input@)
}

/// The final tokens are valid and reproduce the input from the mark on.
pub proof fn lemma_final_tokens(c: Compressor)
    requires
        c.core_wf(),
    ensures
        tokens_valid(final_tokens(c)),
        apply_tokens(zeros(HISTORY_SIZE as nat) + c.input@.take(c.mark_pos@ as int), final_tokens(c))
            == c.input@.skip(c.mark_pos@ as int),
{
    let input = c.input@;
    let p0 = input.len() - c.lookahead;
    lemma_literal_run(input, c.mark_pos@, c.tokens@, p0, c.lookahead as int);
    assert(input.skip(p0) =~= input.subrange(p0, p0 + c.lookahead));
    assert(input.subrange(c.mark_pos@ as int, input.len() as int) =~= input.skip(c.mark_pos@ as int));
}

/// Literals for the bytes from `p` on extend tokens that reproduce the input up to `p`.
proof fn lemma_literal_run(input: Seq<u8>, mark: nat, t0: Seq<Token>, p: int, n: int)
    requires
        mark <= p,
        0 <= n,
        p + n <= input.len(),
        tokens_valid(t0),
        apply_tokens(zeros(HISTORY_SIZE as nat) + input.take(mark as int), t0) == input.subrange(
            mark as int,
            p,
        ),
    ensures
        tokens_valid(t0 + literal_tokens(input.subrange(p, p + n))),
        apply_tokens(zeros(HISTORY_SIZE as nat) + input.take(mark as int), t0 + literal_tokens(input.subrange(p, p + n)))
            == input.subrange(mark as int, p + n),
    decreases n,
{
    if n == 0 {
        assert(t0 + literal_tokens(input.subrange(p, p)) =~= t0);
    } else {
        lemma_literal_run(input, mark, t0, p, n - 1);
        let t1 = t0 + literal_tokens(input.subrange(p, p + n - 1));
        let t = Token::Literal(input[p + n - 1]);
        assert(token_bytes(zeros(HISTORY_SIZE as nat) + input.take(p + n - 1), t) =~= input.subrange(
            p + n - 1,
            p + n,
        ));
        lemma_emit_step(input, mark, t1, t, p + n - 1, 1);
        assert(t1.push(t) =~= t0 + literal_tokens(input.subrange(p, p + n)));
        assert(tokens_valid(t1.push(t))) by {
            assert forall|i: int| 0 <= i < t1.push(t).len() implies match #[trigger] t1.push(t)[i] {
                Token::Copy { length, distance } => 3 <= length <= 258 && 1 <= distance <= 32768,
                Token::Literal(_) => true,
            } by {
                if i < t1.len() {
                    assert(t1.push(t)[i] == t1[i]);
                }
            }
        }
    }
}

/// Moves every chain position down by `HISTORY_SIZE`; those that fall out become 0.
fn slide_positions(positions: &mut Vec<u16>)
    ensures
        final(positions)@.len() == old(positions)@.len(),
        forall|i: int| 0 <= i < old(positions)@.len() ==> #[trigger] final(positions)@[i] == slid(old(positions)@[i]),
{
    let mut i: usize = 0;
    while i < positions.len()
        invariant
            i <= positions@.len(),
            positions@.len() == old(positions)@.len(),
            forall|j: int| 0 <= j < i ==> #[trigger] positions@[j] == slid(old(positions)@[j]),
            forall|j: int| i <= j < positions@.len() ==> #[trigger] positions@[j] == old(positions)@[j],
        decreases positions@.len() - i,
    {
        let p = positions[i];
        let q: u16 = if p >= 32768 {
            p - 32768
        } else {
            0
        };
        positions.set(i, q);
        i = i + 1;
    }
}

/// How many bytes from `a` on equal those from `b` on, counting at most `n`.
pub open spec fn common_len(data: Seq<u8>, a: int, b: int, n: nat) -> nat
    decreases n,
{
    if n == 0 {
        0
    } else if data[a] == data[b] {
        1 + common_len(data, a + 1, b + 1, (n - 1) as nat)
    } else {
        0
    }
}

/// The match search along a hash chain, at its `count`-th link `pos`, with
/// the best (length, distance) so far: a match at least as long as the best
/// replaces it (so of equal ones the farther wins), and the search stops at
/// a match of `MAX_MATCH`, at a link outside the window (0 is no link), or
/// after `max_chain` links.
pub open spec fn chain_search(
    data: Seq<u8>,
    prev: Seq<u16>,
    cur: nat,
    max_length: nat,
    pos: nat,
    count: nat,
    max_chain: nat,
    best: (nat, nat),
) -> (nat, nat)
    decreases max_chain - count,
{
    if 0 < pos < cur && cur - pos <= HISTORY_SIZE && count < max_chain {
        let l = common_len(data, pos as int, cur as int, max_length);
        let b = if l >= best.0 {
            (l, (cur - pos) as nat)
        } else {
            best
        };
        if b.0 == MAX_MATCH {
            b
        } else {
            chain_search(
                data,
                prev,
                cur,
                max_length,
                prev[(pos % (HISTORY_SIZE as nat)) as int] as nat,
                count + 1,
                max_chain,
                b,
            )
        }
    } else {
        best
    }
}

/// The longest match `find_best_match` looks for at `cur`: at most
/// `MAX_MATCH` bytes, and no more than the lookahead holds.
pub open spec fn max_match_len(lookahead: nat) -> nat {
    if MAX_MATCH < lookahead {
        MAX_MATCH as nat
    } else {
        lookahead
    }
}

/// The state that the compressor's choices depend on, besides the window:
/// the hash chains, the current position and the lookahead.
pub struct Lz {
    pub head: Seq<u16>,
    pub prev: Seq<u16>,
    pub cur: nat,
    pub look: nat,
}

/// Linking the current position into the chain of its hash.
pub open spec fn link(data: Seq<u8>, l: Lz) -> Lz {
    let c = l.cur as int;
    let h = hash3(data[c], data[c + 1], data[c + 2]) as int;
    Lz {
        head: l.head.update(h, l.cur as u16),
        prev: l.prev.update(c % HISTORY_SIZE as int, l.head[h]),
        cur: l.cur,
        look: l.look,
    }
}

/// Moving on by one byte.
pub open spec fn advance(l: Lz) -> Lz {
    Lz { head: l.head, prev: l.prev, cur: l.cur + 1, look: (l.look - 1) as nat }
}

/// Moving over `n` bytes of a match, linking each that has two bytes after it.
pub open spec fn skip_over(data: Seq<u8>, l: Lz, n: nat) -> Lz
    decreases n,
{
    if n == 0 {
        l
    } else {
        let l1 = if l.look >= MIN_MATCH {
            link(data, l)
        } else {
            l
        };
        skip_over(data, advance(l1), (n - 1) as nat)
    }
}

/// One step of compression at the current position: link it, search its
/// chain, then write the match found when it is at least `MIN_MATCH` long
/// (and move over it), else the byte as a literal.
pub open spec fn lz_step(data: Seq<u8>, l: Lz, max_chain: nat) -> (Token, Lz) {
    let c = l.cur as int;
    let h = hash3(data[c], data[c + 1], data[c + 2]) as int;
    let l1 = link(data, l);
    let m = chain_search(data, l1.prev, l.cur, max_match_len(l.look), l.head[h] as nat, 0, max_chain, (0, 0));
    if m.0 < MIN_MATCH {
        (Token::Literal(data[c]), advance(l1))
    } else {
        (Token::Copy { length: m.0 as u16, distance: m.1 as u16 }, skip_over(data, advance(l1), (m.0 - 1) as nat))
    }
}

/// Compression steps while more than `MIN_MATCH` bytes are ahead: the
/// tokens written and the state after them.
#[verifier::opaque]
pub open spec fn lz_run(data: Seq<u8>, l: Lz, max_chain: nat) -> (Seq<Token>, Lz)
    decreases l.look,
{
    if l.look <= MIN_MATCH {
        (Seq::empty(), l)
    } else {
        let (t, l1) = lz_step(data, l, max_chain);
        if l1.look < l.look {
            let (ts, l2) = lz_run(data, l1, max_chain);
            (seq![t] + ts, l2)
        } else {
            (seq![t], l1)
        }
    }
}

/// Tokens `prefix`, then those of a run.
pub open spec fn after_run(prefix: Seq<Token>, r: (Seq<Token>, Lz)) -> (Seq<Token>, Lz) {
    (prefix + r.0, r.1)
}

/// Chain positions moved down by `HISTORY_SIZE`.
pub open spec fn slid_all(s: Seq<u16>) -> Seq<u16> {
    Seq::new(s.len(), |i: int| slid(s[i]))
}

/// The window and state after the window slides by `HISTORY_SIZE`.
pub open spec fn slide(data: Seq<u8>, l: Lz) -> (Seq<u8>, Lz) {
    (
        data.subrange(HISTORY_SIZE as int, TOTAL_SIZE as int) + data.subrange(
            HISTORY_SIZE as int,
            TOTAL_SIZE as int,
        ),
        Lz { head: slid_all(l.head), prev: slid_all(l.prev), cur: (l.cur - HISTORY_SIZE) as nat, look: l.look },
    )
}

/// Feeding `buf` to the compressor: fill the window's free space with the
/// next bytes, compress, slide the window when it is full, until `buf` is
/// used up. The tokens written, the window, and the state after.
#[verifier::opaque]
pub open spec fn write_run(data: Seq<u8>, l: Lz, max_chain: nat, buf: Seq<u8>) -> (Seq<Token>, Seq<u8>, Lz)
    decreases buf.len(),
{
    let w = l.cur + l.look;
    let room = (TOTAL_SIZE - w) as nat;
    let n = if buf.len() < room {
        buf.len()
    } else {
        room
    };
    if buf.len() == 0 || n == 0 {
        (Seq::empty(), data, l)
    } else {
        let d1 = data.take(w as int) + buf.take(n as int) + data.skip((w + n) as int);
        let (ts, l2) = lz_run(d1, Lz { head: l.head, prev: l.prev, cur: l.cur, look: l.look + n }, max_chain);
        let (d3, l3) = if l2.cur + l2.look >= TOTAL_SIZE {
            slide(d1, l2)
        } else {
            (d1, l2)
        };
        let (ts2, d4, l4) = write_run(d3, l3, max_chain, buf.skip(n as int));
        (ts + ts2, d4, l4)
    }
}

/// Tokens `prefix`, then those of a write.
pub open spec fn after_write(prefix: Seq<Token>, r: (Seq<Token>, Seq<u8>, Lz)) -> (Seq<Token>, Seq<u8>, Lz) {
    (prefix + r.0, r.1, r.2)
}

/// A compressor writing a gzip member to an output byte stream.
pub struct Compressor {
    pub bit_writer: BitWriter,
    /// The uncompressed sliding window data
    pub data: Vec<u8>,
    /// The hash table entry points
    pub head: Vec<u16>,
    /// The linked list of previous occurrences
    pub prev: Vec<u16>,
    pub current_pos: usize,
    pub lookahead: usize,
    pub crc32_hasher: crc32fast::Hasher,
    pub payload_size: u32,
    /// How many chain links a match search follows at most.
    pub max_chain: u32,
    /// All bytes received so far.
    pub input: Ghost<Seq<u8>>,
    /// The tokens written since the mark.
    pub tokens: Ghost<Seq<Token>>,
    /// How many input bytes had been compressed at the mark.
    pub mark_pos: Ghost<nat>,
    /// The bits the writer held at the mark.
    pub mark_bits: Ghost<Bits>,
}

impl Compressor {
    /// The chains, position and lookahead.
    pub open spec fn lz(&self) -> Lz {
        Lz { head: self.head@, prev: self.prev@, cur: self.current_pos as nat, look: self.lookahead as nat }
    }

    /// The window, the tokens and the writer agree with the input.
    pub open spec fn core_wf(&self) -> bool {
        let w = self.current_pos + self.lookahead;
        let input = self.input@;
        &&& self.bit_writer.wf()
        &&& self.data@.len() == TOTAL_SIZE
        &&& self.head@.len() == HASH_SIZE
        &&& self.prev@.len() == HISTORY_SIZE
        &&& w <= TOTAL_SIZE
        &&& w <= input.len()
        &&& self.data@.take(w as int) == input.skip(input.len() - w)
        &&& self.mark_pos@ + self.lookahead <= input.len()
        &&& tokens_valid(self.tokens@)
        &&& apply_tokens(zeros(HISTORY_SIZE as nat) + input.take(self.mark_pos@ as int), self.tokens@)
            == input.subrange(self.mark_pos@ as int, input.len() - self.lookahead)
        &&& writer_bits(self.bit_writer) == concat_bits(self.mark_bits@, tokens_bits(self.tokens@))
    }

    /// `core_wf`, room in the window, and the checksum state of the input.
    pub open spec fn wf(&self) -> bool {
        &&& self.core_wf()
        &&& self.current_pos + self.lookahead < TOTAL_SIZE
        &&& hasher_input(self.crc32_hasher) == self.input@
        &&& self.payload_size as nat == self.input@.len() % 0x1_0000_0000
    }

    /// A compressor that writes after what `stream` holds, with the default
    /// chain limit.
    pub fn new(stream: Vec<u8>) -> (c: Self)
        ensures
            c.wf(),
            c.input@ == Seq::<u8>::empty(),
            c.tokens@ == Seq::<Token>::empty(),
            c.mark_pos@ == 0,
            c.bit_writer.data@ == stream@,
            c.bit_writer.bit_count == 0,
            c.max_chain == DEFAULT_MAX_CHAIN,
            c.data@ == zeros(TOTAL_SIZE as nat),
            c.lz() == (Lz {
                head: Seq::new(HASH_SIZE as nat, |i: int| 0u16),
                prev: Seq::new(HISTORY_SIZE as nat, |i: int| 0u16),
                cur: 0,
                look: 0,
            }),
    {
        Self::with_max_chain(stream, DEFAULT_MAX_CHAIN)
    }

    /// A compressor that writes after what `stream` holds, whose match
    /// searches follow at most `max_chain` chain links.
    pub fn with_max_chain(stream: Vec<u8>, max_chain: u32) -> (c: Self)
        ensures
            c.wf(),
            c.input@ == Seq::<u8>::empty(),
            c.tokens@ == Seq::<Token>::empty(),
            c.mark_pos@ == 0,
            c.bit_writer.data@ == stream@,
            c.bit_writer.bit_count == 0,
            c.max_chain == max_chain,
            c.data@ == zeros(TOTAL_SIZE as nat),
            c.lz() == (Lz {
                head: Seq::new(HASH_SIZE as nat, |i: int| 0u16),
                prev: Seq::new(HISTORY_SIZE as nat, |i: int| 0u16),
                cur: 0,
                look: 0,
            }),
    {
        let bit_writer = BitWriter::new(stream);
        let c = Compressor {
            bit_writer,
            data: vec![0u8; TOTAL_SIZE],
            head: vec![0u16; HASH_SIZE],
            prev: vec![0u16; HISTORY_SIZE],
            current_pos: 0,
            lookahead: 0,
            crc32_hasher: new_hasher(),
            payload_size: 0,
            max_chain,
            input: Ghost(Seq::empty()),
            tokens: Ghost(Seq::empty()),
            mark_pos: Ghost(0),
            mark_bits: Ghost(writer_bits(bit_writer)),
        };
        proof {
            lemma2_to64();
            assert(c.data@ =~= zeros(TOTAL_SIZE as nat));
            assert(c.head@ =~= Seq::new(HASH_SIZE as nat, |i: int| 0u16));
            assert(c.prev@ =~= Seq::new(HISTORY_SIZE as nat, |i: int| 0u16));
            assert(concat_bits(c.mark_bits@, Bits { value: 0, len: 0 }) == c.mark_bits@);
            assert(c.data@.take(0) =~= c.input@.skip(0));
            assert(c.input@.subrange(0, 0) =~= Seq::<u8>::empty());
        }
        c
    }

    /// Writes the gzip header straight to the output stream, then the
    /// header of the one DEFLATE block (final, fixed Huffman code); the
    /// tokens that follow are counted from here.
    #[verifier::spinoff_prover]
    #[verifier::rlimit(30)]
    pub fn write_header(&mut self)
        requires
            old(self).wf(),
        ensures
            final(self).wf(),
            final(self).input@ == old(self).input@,
            final(self).data@ == old(self).data@,
            final(self).current_pos == old(self).current_pos,
            final(self).lookahead == old(self).lookahead,
            final(self).max_chain == old(self).max_chain,
            writer_bits(final(self).bit_writer).value == le_value(old(self).bit_writer.data@ + header_bytes())
                + pow2(8 * (old(self).bit_writer.data@.len() + 10)) * (old(self).bit_writer.bit_store
                + pow2(old(self).bit_writer.bit_count as nat) * 3),
            writer_bits(final(self).bit_writer).len == 8 * (old(self).bit_writer.data@.len() + 10)
                + old(self).bit_writer.bit_count + 3,
            final(self).tokens@ == Seq::<Token>::empty(),
            final(self).mark_pos@ == old(self).input@.len() - old(self).lookahead,
            final(self).mark_bits@ == writer_bits(final(self).bit_writer),
            old(self).bit_writer.data@.len() == 0 && old(self).bit_writer.bit_count == 0
                ==> final(self).mark_bits@ == header_mark(),
            old(self).bit_writer.bit_count + 3 < 128 ==> {
                &&& final(self).bit_writer.data@ == old(self).bit_writer.data@ + header_bytes()
                &&& final(self).bit_writer.bit_count == old(self).bit_writer.bit_count + 3
                &&& final(self).bit_writer.bit_store as nat == old(self).bit_writer.bit_store as nat
                    + pow2(old(self).bit_writer.bit_count as nat) * 3
            },
            old(self).bit_writer.bit_count + 3 >= 128 ==> {
                &&& final(self).bit_writer.data@ == old(self).bit_writer.data@ + header_bytes() + le_bytes(
                    old(self).bit_writer.bit_store as nat,
                    old(self).bit_writer.bit_count as nat / 8,
                )
                &&& final(self).bit_writer.bit_count == old(self).bit_writer.bit_count % 8 + 3
                &&& final(self).bit_writer.bit_store as nat == old(self).bit_writer.bit_store as nat / pow2(
                    8 * (old(self).bit_writer.bit_count as nat / 8),
                ) + pow2((old(self).bit_writer.bit_count % 8) as nat) * 3
            },
    {
        let header: [u8; 10] = [0x1F, 0x8B, 0x08, 0x00, 0x00, 0x00, 0x00, 0x00, 0x00, 0xFF];
        self.bit_writer.data.extend_from_slice(&header);
        proof {
            assert(header@ =~= header_bytes());
            lemma2_to64();
        }
        let ghost mid = self.bit_writer;
        self.bit_writer.write_bits(0b011, 3);
        proof {
            let p = pow2(8 * (old(self).bit_writer.data@.len() + 10));
            let q = pow2(old(self).bit_writer.bit_count as nat);
            lemma_pow2_adds(8 * (old(self).bit_writer.data@.len() + 10), old(self).bit_writer.bit_count as nat);
            assert(mid.written_len() == 8 * (old(self).bit_writer.data@.len() + 10) + old(self).bit_writer.bit_count);
            let st = old(self).bit_writer.bit_store as int;
            assert(p * st + (p * q) * 3 == p * (st + q * 3)) by (nonlinear_arith);
            assert(mid.data@ == old(self).bit_writer.data@ + header_bytes());
            assert(mid.written_value() == le_value(old(self).bit_writer.data@ + header_bytes()) + p * st);
            assert(3nat % pow2(3) == 3);
            assert(self.bit_writer.written_value() == mid.written_value() + (p * q) * 3);
            let input = self.input@;
            self.tokens@ = Seq::empty();
            self.mark_pos@ = (input.len() - self.lookahead) as nat;
            self.mark_bits@ = writer_bits(self.bit_writer);
            assert(input.subrange(self.mark_pos@ as int, input.len() - self.lookahead) =~= Seq::<u8>::empty());
            assert(tokens_bits(self.tokens@) == Bits { value: 0, len: 0 });
            lemma_times_zero(pow2(self.mark_bits@.len));
            assert(concat_bits(self.mark_bits@, Bits { value: 0, len: 0 }) == self.mark_bits@);
            assert(self.core_wf());
            if old(self).bit_writer.data@.len() == 0 && old(self).bit_writer.bit_count == 0 {
                assert(old(self).bit_writer.data@ + header_bytes() =~= header_bytes());
                assert(old(self).bit_writer.bit_store == 0);
                lemma_times_zero(pow2(80));
            }
        }
    }

    /// Fast 3-byte integer hash
    fn hash_3_bytes(sequence: &[u8]) -> (h: usize)
        requires
            sequence@.len() >= 3,
        ensures
            h == hash3(sequence@[0], sequence@[1], sequence@[2]),
            h < HASH_SIZE,
    {
        let a = sequence[0] as usize;
        let b = sequence[1] as usize;
        let c = sequence[2] as usize;
        let h = (a << 10) ^ (b << 5) ^ c;
        proof {
            let r = h & 0x7FFFusize;
            assert(r < 32768) by (bit_vector)
                requires
                    r == h & 0x7FFFusize,
            ;
        }
        h & HASH_MASK
    }

    /// Links the current position into the chain of its hash: returns the
    /// chain's previous head, which becomes the position's predecessor.
    fn update_hash_chain(&mut self) -> (prev_match_pos: u16)
        requires
            old(self).data@.len() == TOTAL_SIZE,
            old(self).head@.len() == HASH_SIZE,
            old(self).prev@.len() == HISTORY_SIZE,
            old(self).current_pos + MIN_MATCH <= TOTAL_SIZE,
        ensures
            ({
                let d = old(self).data@;
                let c = old(self).current_pos as int;
                let h = hash3(d[c], d[c + 1], d[c + 2]) as int;
                &&& prev_match_pos == old(self).head@[h]
                &&& final(self).head@ == old(self).head@.update(h, c as u16)
                &&& final(self).prev@ == old(self).prev@.update(c % HISTORY_SIZE as int, prev_match_pos)
            }),
            final(self).head@.len() == HASH_SIZE,
            final(self).prev@.len() == HISTORY_SIZE,
            final(self).lz() == link(old(self).data@, old(self).lz()),
            final(self).bit_writer == old(self).bit_writer,
            final(self).data == old(self).data,
            final(self).current_pos == old(self).current_pos,
            final(self).lookahead == old(self).lookahead,
            final(self).crc32_hasher == old(self).crc32_hasher,
            final(self).payload_size == old(self).payload_size,
            final(self).max_chain == old(self).max_chain,
            final(self).input == old(self).input,
            final(self).tokens == old(self).tokens,
            final(self).mark_pos == old(self).mark_pos,
            final(self).mark_bits == old(self).mark_bits,
    {
        let window = vstd::slice::slice_subrange(self.data.as_slice(), self.current_pos, self.data.len());
        let hash = Self::hash_3_bytes(window);
        let prev_match_pos = self.head[hash];
        self.prev.set(self.current_pos % HISTORY_SIZE, prev_match_pos);
        self.head.set(hash, self.current_pos as u16);
        prev_match_pos
    }

    /// Links the current position into its hash chain and walks the chain
    /// (at most `max_chain` links, and no further back than the window
    /// reaches) for the longest match, preferring the farther one of two
    /// equally long. Returns its length and distance; a length below
    /// `MIN_MATCH` means no usable match.
    #[verifier::spinoff_prover]
    #[verifier::rlimit(30)]
    fn find_best_match(&mut self) -> (r: (usize, usize))
        requires
            old(self).core_wf(),
            old(self).lookahead > MIN_MATCH,
        ensures
            final(self).core_wf(),
            ({
                let d = old(self).data@;
                let c = old(self).current_pos as int;
                let h = hash3(d[c], d[c + 1], d[c + 2]) as int;
                &&& final(self).head@ == old(self).head@.update(h, c as u16)
                &&& final(self).prev@ == old(self).prev@.update(c % HISTORY_SIZE as int, old(self).head@[h])
            }),
            final(self).bit_writer == old(self).bit_writer,
            final(self).data == old(self).data,
            final(self).current_pos == old(self).current_pos,
            final(self).lookahead == old(self).lookahead,
            final(self).crc32_hasher == old(self).crc32_hasher,
            final(self).payload_size == old(self).payload_size,
            final(self).max_chain == old(self).max_chain,
            final(self).input == old(self).input,
            final(self).tokens == old(self).tokens,
            final(self).mark_pos == old(self).mark_pos,
            final(self).mark_bits == old(self).mark_bits,
            final(self).lz() == link(old(self).data@, old(self).lz()),
            r.0 <= MAX_MATCH,
            r.0 <= old(self).lookahead,
            ({
                let d = old(self).data@;
                let c = old(self).current_pos as int;
                let h = hash3(d[c], d[c + 1], d[c + 2]) as int;
                (r.0 as nat, r.1 as nat) == chain_search(
                    d,
                    final(self).prev@,
                    c as nat,
                    max_match_len(old(self).lookahead as nat),
                    old(self).head@[h] as nat,
                    0,
                    old(self).max_chain as nat,
                    (0, 0),
                )
            }),
            r.0 > 0 ==> {
                &&& 1 <= r.1 <= HISTORY_SIZE
                &&& r.1 <= old(self).current_pos
                &&& forall|i: int|
                    0 <= i < r.0 ==> #[trigger] old(self).data@[old(self).current_pos - r.1 + i]
                        == old(self).data@[old(self).current_pos + i]
            },
    {
        let prev_match_pos = self.update_hash_chain();
        let mut best_length: usize = 0;
        let mut best_distance: usize = 0;
        let mut match_pos: usize = prev_match_pos as usize;
        let mut chain_counter: u32 = 0;
        let max_length: usize = if MAX_MATCH < self.lookahead {
            MAX_MATCH
        } else {
            self.lookahead
        };
        let cur = self.current_pos;
        let ghost result = chain_search(
            self.data@,
            self.prev@,
            cur as nat,
            max_length as nat,
            prev_match_pos as nat,
            0,
            self.max_chain as nat,
            (0, 0),
        );
        while match_pos > 0 && match_pos < cur && cur - match_pos <= HISTORY_SIZE && chain_counter
            < self.max_chain
            invariant_except_break
                result == chain_search(
                    self.data@,
                    self.prev@,
                    cur as nat,
                    max_length as nat,
                    match_pos as nat,
                    chain_counter as nat,
                    self.max_chain as nat,
                    (best_length as nat, best_distance as nat),
                ),
            invariant
                self.core_wf(),
                self.current_pos == cur,
                self.data == old(self).data,
                self.prev@.len() == HISTORY_SIZE,
                cur + max_length <= TOTAL_SIZE,
                max_length <= MAX_MATCH,
                max_length <= self.lookahead,
                best_length <= max_length,
                best_length > 0 ==> {
                    &&& 1 <= best_distance <= HISTORY_SIZE
                    &&& best_distance <= cur
                    &&& forall|i: int|
                        0 <= i < best_length ==> #[trigger] self.data@[cur - best_distance + i]
                            == self.data@[cur + i]
                },
                self.prev == final(self).prev,
                self.max_chain == old(self).max_chain,
            ensures
                (best_length as nat, best_distance as nat) == result,
            decreases self.max_chain - chain_counter,
        {
            let mut current_length: usize = 0;
            let ghost full = common_len(self.data@, match_pos as int, cur as int, max_length as nat);
            while current_length < max_length && self.data[match_pos + current_length]
                == self.data[cur + current_length]
                invariant
                    current_length <= max_length,
                    0 < match_pos < cur,
                    cur + max_length <= TOTAL_SIZE,
                    self.data@.len() == TOTAL_SIZE,
                    forall|i: int|
                        0 <= i < current_length ==> #[trigger] self.data@[match_pos + i]
                            == self.data@[cur + i],
                    full == current_length + common_len(
                        self.data@,
                        match_pos + current_length,
                        cur + current_length,
                        (max_length - current_length) as nat,
                    ),
                decreases max_length - current_length,
            {
                current_length = current_length + 1;
            }
            assert(full == current_length);
            if current_length >= best_length {
                best_length = current_length;
                best_distance = cur - match_pos;
                proof {
                    assert forall|i: int| 0 <= i < best_length implies #[trigger] self.data@[cur
                        - best_distance + i] == self.data@[cur + i] by {
                        assert(cur - best_distance + i == match_pos + i);
                    }
                }
            }
            if best_length == MAX_MATCH {
                break;
            }
            match_pos = self.prev[match_pos % HISTORY_SIZE] as usize;
            chain_counter = chain_counter + 1;
        }
        (best_length, best_distance)
    }

    /// Feeds `buf` to the compressor: compresses all but the last few bytes
    /// it holds, sliding the window as it fills. Returns how many bytes were
    /// taken: all of them.
    #[verifier::spinoff_prover]
    #[verifier::rlimit(30)]
    pub fn write(&mut self, buf: &[u8]) -> (n: usize)
        requires
            old(self).wf(),
            old(self).input@.len() + buf@.len() <= u64::MAX,
        ensures
            final(self).wf(),
            n == buf@.len(),
            final(self).input@ == old(self).input@ + buf@,
            final(self).mark_pos == old(self).mark_pos,
            final(self).mark_bits == old(self).mark_bits,
            final(self).max_chain == old(self).max_chain,
            (final(self).tokens@, final(self).data@, final(self).lz()) == after_write(
                old(self).tokens@,
                write_run(old(self).data@, old(self).lz(), old(self).max_chain as nat, buf@),
            ),
    {
        let ghost mc = self.max_chain as nat;
        if buf.len() == 0 {
            proof {
                reveal(write_run);
                assert(old(self).input@ + buf@ =~= old(self).input@);
                assert(old(self).tokens@ + Seq::<Token>::empty() =~= old(self).tokens@);
            }
            return 0;
        }
        update_hasher(&mut self.crc32_hasher, buf);
        self.payload_size = ((self.payload_size as u64 + (buf.len() as u64 % 0x1_0000_0000))
            % 0x1_0000_0000) as u32;
        proof {
            let a = old(self).input@.len();
            let b = buf@.len();
            vstd::arithmetic::div_mod::lemma_add_mod_noop(a as int, b as int, 0x1_0000_0000);
            vstd::arithmetic::div_mod::lemma_mod_twice(b as int, 0x1_0000_0000);
            assert(self.payload_size as nat == (a + b) % 0x1_0000_0000);
        }
        let mut written: usize = 0;
        proof {
            assert(old(self).input@ + buf@.take(0) =~= old(self).input@);
            assert(buf@.skip(0) =~= buf@);
        }
        while written < buf.len()
            invariant
                after_write(old(self).tokens@, write_run(old(self).data@, old(self).lz(), mc, buf@))
                    == after_write(self.tokens@, write_run(self.data@, self.lz(), mc, buf@.skip(written as int))),
                mc == self.max_chain as nat,
                self.core_wf(),
                self.current_pos + self.lookahead < TOTAL_SIZE,
                written <= buf@.len(),
                self.input@ == old(self).input@ + buf@.take(written as int),
                hasher_input(self.crc32_hasher) == old(self).input@ + buf@,
                self.payload_size as nat == (old(self).input@.len() + buf@.len()) % 0x1_0000_0000,
                self.mark_pos == old(self).mark_pos,
                self.mark_bits == old(self).mark_bits,
                self.max_chain == old(self).max_chain,
            decreases buf@.len() - written,
        {
            let ghost input0 = self.input@;
            let n = self.fill_window(buf, written);
            proof {
                assert(buf@.take(written + n) =~= buf@.take(written as int) + buf@.subrange(
                    written as int,
                    written + n,
                ));
                vstd::seq_lib::lemma_concat_associative(
                    old(self).input@,
                    buf@.take(written as int),
                    buf@.subrange(written as int, written + n),
                );
            }
            written = written + n;
        }
        proof {
            assert(buf@.take(written as int) =~= buf@);
            reveal(write_run);
            assert(self.tokens@ + Seq::<Token>::empty() =~= self.tokens@);
        }
        buf.len()
    }

    /// Writes what the window still holds as literals, ends the block, and
    /// writes the gzip trailer (CRC-32 and size of the input). Returns the
    /// output stream.
    #[verifier::spinoff_prover]
    #[verifier::rlimit(30)]
    pub fn finish(self) -> (out: Vec<u8>)
        requires
            self.wf(),
        ensures
            out@ == finished_output(self),
            tokens_valid(final_tokens(self)),
            apply_tokens(zeros(HISTORY_SIZE as nat) + self.input@.take(self.mark_pos@ as int), final_tokens(self))
                == self.input@.skip(self.mark_pos@ as int),
    {
        proof {
            lemma_final_tokens(self);
        }
        let ghost s0 = self;
        let mut c = self;
        let ghost input = c.input@;
        let ghost rest = input.skip(input.len() - c.lookahead);
        proof {
            assert(c.tokens@ + literal_tokens(rest.take(0)) =~= c.tokens@);
        }
        while c.lookahead > 0
            invariant
                c.core_wf(),
                c.input@ == input,
                c.mark_pos == s0.mark_pos,
                c.mark_bits == s0.mark_bits,
                hasher_input(c.crc32_hasher) == input,
                c.payload_size as nat == input.len() % 0x1_0000_0000,
                c.lookahead <= s0.lookahead,
                s0.lookahead <= input.len(),
                rest == input.skip(input.len() - s0.lookahead),
                c.tokens@ == s0.tokens@ + literal_tokens(rest.take(s0.lookahead - c.lookahead)),
            decreases c.lookahead,
        {
            let ghost k = s0.lookahead - c.lookahead;
            let ghost t0 = c.tokens@;
            c.emit_literal();
            proof {
                assert(rest[k] == input[input.len() - (s0.lookahead - k)]);
                assert(s0.tokens@ + literal_tokens(rest.take(k + 1)) =~= t0.push(Token::Literal(rest[k])));
            }
        }
        let ghost tokens = c.tokens@;
        proof {
            assert(rest.take(s0.lookahead as int) =~= rest);
            assert(input.subrange(s0.mark_pos@ as int, input.len() as int) =~= input.skip(s0.mark_pos@ as int));
            lemma2_to64();
        }
        let ghost w0 = c.bit_writer;
        c.bit_writer.write_bits(0, 7);
        proof {
            lemma_write_extra(w0, c.bit_writer, 0, 7);
        }
        let ghost w1 = c.bit_writer;
        c.bit_writer.force_align();
        let hash = finalize_hasher(c.crc32_hasher);
        proof {
            let d = c.bit_writer.data@;
            crate::numeric::lemma_le_bytes_of_value(d);
            lemma_times_zero(pow2(8 * d.len()));
            assert(d == le_bytes(writer_bits(w1).value, (writer_bits(w1).len + 7) / 8));
        }
        push_u32_le(&mut c.bit_writer.data, hash);
        push_u32_le(&mut c.bit_writer.data, c.payload_size);
        proof {
            vstd::seq_lib::lemma_concat_associative(
                block_bytes(s0.mark_bits@, tokens),
                le_bytes(crc32(input) as nat, 4),
                le_bytes(input.len() % 0x1_0000_0000, 4),
            );
        }
        c.bit_writer.data
    }

    /// Pads the bits the writer holds with zeros to a byte boundary and
    /// writes them out. Inside the block the padding becomes part of the
    /// compressed stream, so only a writer that holds whole bytes keeps the
    /// compressor's invariant.
    pub fn flush(&mut self)
        requires
            old(self).bit_writer.wf(),
        ensures
            final(self).bit_writer.wf(),
            final(self).bit_writer.bit_count == 0,
            final(self).bit_writer.data@ == old(self).bit_writer.data@ + le_bytes(
                old(self).bit_writer.bit_store as nat,
                (old(self).bit_writer.bit_count as nat + 7) / 8,
            ),
            writer_bits(final(self).bit_writer).value == writer_bits(old(self).bit_writer).value,
            writer_bits(final(self).bit_writer).len == 8 * ((writer_bits(old(self).bit_writer).len + 7)
                / 8),
            old(self).wf() && old(self).bit_writer.bit_count % 8 == 0 ==> final(self).wf(),
            final(self).data == old(self).data,
            final(self).head == old(self).head,
            final(self).prev == old(self).prev,
            final(self).current_pos == old(self).current_pos,
            final(self).lookahead == old(self).lookahead,
            final(self).crc32_hasher == old(self).crc32_hasher,
            final(self).payload_size == old(self).payload_size,
            final(self).max_chain == old(self).max_chain,
            final(self).input == old(self).input,
            final(self).tokens == old(self).tokens,
            final(self).mark_pos == old(self).mark_pos,
            final(self).mark_bits == old(self).mark_bits,
    {
        self.bit_writer.force_align();
    }

    /// Fills the window's free space with the next bytes of `buf` (from
    /// `written` on), compresses, and slides the window when it is full.
    /// Returns how many bytes were taken.
    #[verifier::spinoff_prover]
    #[verifier::rlimit(30)]
    fn fill_window(&mut self, buf: &[u8], written: usize) -> (n: usize)
        requires
            old(self).core_wf(),
            old(self).current_pos + old(self).lookahead < TOTAL_SIZE,
            written < buf@.len(),
        ensures
            final(self).core_wf(),
            final(self).current_pos + final(self).lookahead < TOTAL_SIZE,
            1 <= n,
            written + n <= buf@.len(),
            final(self).input@ == old(self).input@ + buf@.subrange(written as int, written + n),
            final(self).crc32_hasher == old(self).crc32_hasher,
            final(self).payload_size == old(self).payload_size,
            final(self).mark_pos == old(self).mark_pos,
            final(self).mark_bits == old(self).mark_bits,
            final(self).max_chain == old(self).max_chain,
            after_write(
                old(self).tokens@,
                write_run(old(self).data@, old(self).lz(), old(self).max_chain as nat, buf@.skip(written as int)),
            ) == after_write(
                final(self).tokens@,
                write_run(final(self).data@, final(self).lz(), old(self).max_chain as nat, buf@.skip(written + n)),
            ),
    {
        let ghost mc = self.max_chain as nat;
        let available_space = TOTAL_SIZE - (self.current_pos + self.lookahead);
        let to_write: usize = if buf.len() - written < available_space {
            buf.len() - written
        } else {
            available_space
        };
        let dest_start = self.current_pos + self.lookahead;
        let ghost d0 = self.data@;
        let ghost l0 = self.lz();
        let ghost input0 = self.input@;
        copy_into(&mut self.data, dest_start, buf, written, to_write);
        self.lookahead = self.lookahead + to_write;
        proof {
            let chunk = buf@.subrange(written as int, written + to_write);
            self.input@ = input0 + chunk;
            let input = self.input@;
            let w = dest_start + to_write;
            assert(self.data@.take(w as int) =~= input.skip(input.len() - w)) by {
                assert(d0.take(dest_start as int) =~= input0.skip(input0.len() - dest_start));
            }
            assert(input.take(self.mark_pos@ as int) =~= input0.take(self.mark_pos@ as int));
            assert(input.subrange(self.mark_pos@ as int, input.len() - self.lookahead)
                =~= input0.subrange(self.mark_pos@ as int, input0.len() - (self.lookahead - to_write)));
        }
        let ghost t1 = self.tokens@;
        let ghost d1 = self.data@;
        let ghost l1 = self.lz();
        self.compress_data();
        let ghost l2 = self.lz();
        let ghost t2 = self.tokens@;
        if self.current_pos + self.lookahead >= TOTAL_SIZE {
            self.slide_window();
            proof {
                assert(self.head@ =~= slid_all(l2.head));
                assert(self.prev@ =~= slid_all(l2.prev));
                assert((self.data@, self.lz()) == slide(d1, l2));
            }
        }
        proof {
            reveal(write_run);
            let rest0 = buf@.skip(written as int);
            let rest1 = buf@.skip(written + to_write);
            assert(rest0.skip(to_write as int) =~= rest1);
            assert(rest0.take(to_write as int) =~= buf@.subrange(written as int, written + to_write));
            assert(d1 =~= d0.take(dest_start as int) + rest0.take(to_write as int) + d0.skip(dest_start + to_write));
            assert(l1 == Lz { head: l0.head, prev: l0.prev, cur: l0.cur, look: (l0.look + to_write) as nat });
            let r = lz_run(d1, l1, mc);
            assert(t2 == t1 + r.0);
            let w2 = write_run(self.data@, self.lz(), mc, rest1);
            assert(write_run(d0, l0, mc, rest0) == (r.0 + w2.0, w2.1, w2.2));
            assert(t1 + (r.0 + w2.0) =~= t2 + w2.0);
        }
        to_write
    }

    /// Writes the byte at the current position as a literal and moves on.
    #[verifier::spinoff_prover]
    #[verifier::rlimit(30)]
    fn emit_literal(&mut self)
        requires
            old(self).core_wf(),
            old(self).lookahead > 0,
        ensures
            final(self).core_wf(),
            final(self).tokens@ == old(self).tokens@.push(
                Token::Literal(old(self).data@[old(self).current_pos as int]),
            ),
            final(self).data@[old(self).current_pos as int] == old(self).input@[old(self).input@.len()
                - old(self).lookahead],
            final(self).current_pos == old(self).current_pos + 1,
            final(self).lookahead == old(self).lookahead - 1,
            final(self).head == old(self).head,
            final(self).prev == old(self).prev,
            final(self).data == old(self).data,
            final(self).crc32_hasher == old(self).crc32_hasher,
            final(self).payload_size == old(self).payload_size,
            final(self).max_chain == old(self).max_chain,
            final(self).input == old(self).input,
            final(self).mark_pos == old(self).mark_pos,
            final(self).mark_bits == old(self).mark_bits,
    {
        let ghost t0 = self.tokens@;
        let ghost input = self.input@;
        let ghost w = (self.current_pos + self.lookahead) as int;
        let ghost base = input.len() - w;
        let ghost p = input.len() - self.lookahead;
        let ghost mark = self.mark_pos@;
        let literal = self.data[self.current_pos];
        proof {
            assert(self.data@.take(w)[self.current_pos as int] == input.skip(base)[self.current_pos as int]);
        }
        write_literal_code(&mut self.bit_writer, literal);
        self.current_pos = self.current_pos + 1;
        self.lookahead = self.lookahead - 1;
        proof {
            let t = Token::Literal(literal);
            assert(input[p] == literal);
            assert(token_bytes(zeros(HISTORY_SIZE as nat) + input.take(p), t) =~= input.subrange(p, p + 1));
            lemma_emit_step(input, mark, t0, t, p, 1);
            lemma_concat_assoc(self.mark_bits@, tokens_bits(t0), token_bits(t));
            self.tokens@ = t0.push(t);
            assert(tokens_valid(self.tokens@)) by {
                assert forall|i: int| 0 <= i < self.tokens@.len() implies match #[trigger] self.tokens@[i] {
                    Token::Copy { length, distance } => 3 <= length <= 258 && 1 <= distance <= 32768,
                    Token::Literal(_) => true,
                } by {
                    if i < t0.len() {
                        assert(self.tokens@[i] == t0[i]);
                    }
                }
            }
        }
    }

    /// Advances over `count` bytes that a match covered, linking each that
    /// still has two bytes after it into its hash chain.
    fn insert_skipped(&mut self, count: usize)
        requires
            old(self).data@.len() == TOTAL_SIZE,
            old(self).head@.len() == HASH_SIZE,
            old(self).prev@.len() == HISTORY_SIZE,
            old(self).current_pos + old(self).lookahead <= TOTAL_SIZE,
            count <= old(self).lookahead,
        ensures
            final(self).head@.len() == HASH_SIZE,
            final(self).prev@.len() == HISTORY_SIZE,
            final(self).lz() == skip_over(old(self).data@, old(self).lz(), count as nat),
            final(self).current_pos == old(self).current_pos + count,
            final(self).lookahead == old(self).lookahead - count,
            final(self).bit_writer == old(self).bit_writer,
            final(self).data == old(self).data,
            final(self).crc32_hasher == old(self).crc32_hasher,
            final(self).payload_size == old(self).payload_size,
            final(self).max_chain == old(self).max_chain,
            final(self).input == old(self).input,
            final(self).tokens == old(self).tokens,
            final(self).mark_pos == old(self).mark_pos,
            final(self).mark_bits == old(self).mark_bits,
    {
        let mut k: usize = 0;
        while k < count
            invariant
                k <= count <= old(self).lookahead,
                self.data@.len() == TOTAL_SIZE,
                self.head@.len() == HASH_SIZE,
                self.prev@.len() == HISTORY_SIZE,
                self.current_pos == old(self).current_pos + k,
                self.lookahead == old(self).lookahead - k,
                old(self).current_pos + old(self).lookahead <= TOTAL_SIZE,
                self.bit_writer == old(self).bit_writer,
                self.data == old(self).data,
                self.crc32_hasher == old(self).crc32_hasher,
                self.payload_size == old(self).payload_size,
                self.max_chain == old(self).max_chain,
                self.input == old(self).input,
                self.tokens == old(self).tokens,
                self.mark_pos == old(self).mark_pos,
                self.mark_bits == old(self).mark_bits,
                skip_over(old(self).data@, old(self).lz(), count as nat) == skip_over(
                    self.data@,
                    self.lz(),
                    (count - k) as nat,
                ),
            decreases count - k,
        {
            let ghost l0 = self.lz();
            if self.lookahead >= MIN_MATCH {
                self.update_hash_chain();
            }
            self.current_pos = self.current_pos + 1;
            self.lookahead = self.lookahead - 1;
            k = k + 1;
            proof {
                let l1 = if l0.look >= MIN_MATCH {
                    link(self.data@, l0)
                } else {
                    l0
                };
                assert(self.lz() == advance(l1));
            }
        }
    }

    /// Compresses the window's lookahead until at most `MIN_MATCH` bytes of
    /// it are left: at each position the best match found, when it is at
    /// least `MIN_MATCH` long, else a literal.
    #[verifier::spinoff_prover]
    #[verifier::rlimit(30)]
    fn compress_data(&mut self)
        requires
            old(self).core_wf(),
        ensures
            final(self).core_wf(),
            final(self).lookahead <= MIN_MATCH,
            old(self).lookahead <= MIN_MATCH ==> final(self).lookahead == old(self).lookahead,
            final(self).current_pos + final(self).lookahead == old(self).current_pos + old(self).lookahead,
            final(self).data == old(self).data,
            final(self).crc32_hasher == old(self).crc32_hasher,
            final(self).payload_size == old(self).payload_size,
            final(self).max_chain == old(self).max_chain,
            final(self).input == old(self).input,
            final(self).mark_pos == old(self).mark_pos,
            final(self).mark_bits == old(self).mark_bits,
            (final(self).tokens@, final(self).lz()) == after_run(
                old(self).tokens@,
                lz_run(old(self).data@, old(self).lz(), old(self).max_chain as nat),
            ),
    {
        reveal(lz_run);
        while self.lookahead > MIN_MATCH
            invariant
                after_run(old(self).tokens@, lz_run(old(self).data@, old(self).lz(), old(self).max_chain as nat))
                    == after_run(self.tokens@, lz_run(self.data@, self.lz(), self.max_chain as nat)),
                self.core_wf(),
                self.current_pos + self.lookahead == old(self).current_pos + old(self).lookahead,
                old(self).lookahead <= MIN_MATCH ==> self.lookahead == old(self).lookahead,
                self.data == old(self).data,
                self.crc32_hasher == old(self).crc32_hasher,
                self.payload_size == old(self).payload_size,
                self.max_chain == old(self).max_chain,
                self.input == old(self).input,
                self.mark_pos == old(self).mark_pos,
                self.mark_bits == old(self).mark_bits,
            decreases self.lookahead,
        {
            let ghost t0 = self.tokens@;
            let ghost input = self.input@;
            let ghost w = (self.current_pos + self.lookahead) as int;
            let ghost base = input.len() - w;
            let ghost p = input.len() - self.lookahead;
            let ghost mark = self.mark_pos@;
            let ghost wb0 = writer_bits(self.bit_writer);
            proof {
                assert forall|k: int| 0 <= k < w implies #[trigger] self.data@[k] == input[base + k] by {
                    assert(self.data@.take(w)[k] == input.skip(base)[k]);
                }
            }
            let ghost l0 = self.lz();
            let ghost mc = self.max_chain as nat;
            let (best_length, best_distance) = self.find_best_match();
            if best_length < MIN_MATCH {
                self.emit_literal();
            } else {
                write_match_codes(&mut self.bit_writer, best_length, best_distance);
                self.current_pos = self.current_pos + 1;
                self.lookahead = self.lookahead - 1;
                self.insert_skipped(best_length - 1);
                proof {
                    let t = Token::Copy { length: best_length as u16, distance: best_distance as u16 };
                    let c = (w - (p - base)) as int;
                    assert forall|j: int| 0 <= j < best_length implies #[trigger] input[p + j] == input[p - best_distance + j] by {
                        assert(self.data@[(p - base) - best_distance + j] == self.data@[(p - base) + j]);
                    }
                    lemma_match_bytes(input, p, best_distance as int, best_length as int);
                    lemma_emit_step(input, mark, t0, t, p, best_length as int);
                    lemma_concat_assoc(self.mark_bits@, tokens_bits(t0), token_bits(t));
                    self.tokens@ = t0.push(t);
                    assert(tokens_valid(self.tokens@)) by {
                        assert forall|i: int| 0 <= i < self.tokens@.len() implies match #[trigger] self.tokens@[i] {
                            Token::Copy { length, distance } => 3 <= length <= 258 && 1 <= distance <= 32768,
                            Token::Literal(_) => true,
                        } by {
                            if i < t0.len() {
                                assert(self.tokens@[i] == t0[i]);
                            }
                        }
                    }
                }
            }
            proof {
                reveal(lz_run);
                let (t, l1) = lz_step(self.data@, l0, mc);
                assert(self.tokens@ == t0.push(t));
                assert(self.lz() == l1);
                let (ts, l2) = lz_run(self.data@, l1, mc);
                assert(t0 + (seq![t] + ts) =~= t0.push(t) + ts);
            }
        }
    }

    /// Moves the upper half of the window to the lower half, and moves the
    /// chain positions with it (those that fall out become 0, no position).
    #[verifier::spinoff_prover]
    #[verifier::rlimit(30)]
    fn slide_window(&mut self)
        requires
            old(self).core_wf(),
            old(self).current_pos >= HISTORY_SIZE,
        ensures
            final(self).core_wf(),
            final(self).current_pos == old(self).current_pos - HISTORY_SIZE,
            final(self).data@ == old(self).data@.subrange(HISTORY_SIZE as int, TOTAL_SIZE as int)
                + old(self).data@.subrange(HISTORY_SIZE as int, TOTAL_SIZE as int),
            forall|i: int| 0 <= i < HASH_SIZE ==> #[trigger] final(self).head@[i] == slid(old(self).head@[i]),
            forall|i: int| 0 <= i < HISTORY_SIZE ==> #[trigger] final(self).prev@[i] == slid(old(self).prev@[i]),
            final(self).bit_writer == old(self).bit_writer,
            final(self).lookahead == old(self).lookahead,
            final(self).crc32_hasher == old(self).crc32_hasher,
            final(self).payload_size == old(self).payload_size,
            final(self).max_chain == old(self).max_chain,
            final(self).input == old(self).input,
            final(self).tokens == old(self).tokens,
            final(self).mark_pos == old(self).mark_pos,
            final(self).mark_bits == old(self).mark_bits,
    {
        let ghost d0 = self.data@;
        copy_within(&mut self.data, HISTORY_SIZE, TOTAL_SIZE, 0);
        proof {
            assert(self.data@ =~= d0.subrange(HISTORY_SIZE as int, TOTAL_SIZE as int) + d0.subrange(
                HISTORY_SIZE as int,
                TOTAL_SIZE as int,
            ));
        }
        self.current_pos = self.current_pos - HISTORY_SIZE;
        slide_positions(&mut self.head);
        slide_positions(&mut self.prev);
        proof {
            let input = self.input@;
            let w = (self.current_pos + self.lookahead) as int;
            let w0 = w + HISTORY_SIZE;
            assert(self.data@.take(w) =~= d0.take(w0).skip(HISTORY_SIZE as int));
            assert(input.skip(input.len() - w) =~= input.skip(input.len() - w0).skip(HISTORY_SIZE as int));
        }
    }
}

} // verus!
