//! What the compressor writes, the extractor reads back: the fixed Huffman
//! code that the compressor sends is the one the decoder's fixed tables
//! read, and a whole gzip member made of the compressor's tokens decodes
//! to the bytes those tokens reproduce.
use vstd::prelude::*;
use vstd::arithmetic::power2::*;
use crate::bitwriter::BitWriter;
use crate::cached_writer::{zeros, HISTORY_SIZE};
use crate::compressor::{
    block_bytes, code_bits, concat_bits, distance_index_from, extra_bits, final_tokens, finished_output,
    fixed_code, header_bytes, header_mark, lemma_final_tokens, writer_bits, Compressor,
    length_index_from, lemma_concat_assoc, lemma_times_zero, token_bits, tokens_bits, tokens_valid,
    trailer_bytes,
};
use crate::crc32::crc32;
use crate::extraction::{
    apply_tokens, decode_block, decode_step, entry_len, entry_symbol, fixed_distance_table,
    fixed_literal_table, gzip_data, gzip_header, header_tail, inflate_block, inflate_blocks,
    skip_bits, take_bits, Bits, HeaderFields, Step, Token, DISTANCE_BASE_TABLE,
    DISTANCE_OFFSET_BITS_TABLE, LENGTH_BASE_TABLE, LENGTH_OFFSET_BITS_TABLE,
};
use crate::huffman::{fixed_distance_entry, fixed_literal_entry, lemma_rev_bits_bound, pack, rev_bits};
use crate::numeric::{
    le_bytes, le_value, lemma_div_pow2_twice, lemma_mod_pow2_twice, lemma_pow2_mod_split,
    lemma_pow2_small, lemma_pow2_sum_div, lemma_pow2_sum_mod,
};

verus! {

// ---------------------------------------------------------------------------
// Bit reversal

/// A factor that is one.
proof fn lemma_one_times(p: nat, x: nat)
    requires
        p == 1,
    ensures
        p * x == x,
{
}

/// Dividing `a + 2^n b` by `2^n`, with `a` below `2^n`, gives `b`.
pub(crate) proof fn lemma_div_above(a: nat, b: nat, n: nat)
    requires
        a < pow2(n),
    ensures
        (a + pow2(n) * b) / pow2(n) == b,
        (a + pow2(n) * b) % pow2(n) == a,
{
    lemma_pow2_sum_div(a, b, n, n);
    lemma_pow2_sum_mod(a, b, n, n);
    lemma_pow2_small(a, n);
    lemma2_to64();
    assert((n - n) as nat == 0);
    lemma_one_times(pow2((n - n) as nat), b);
}

/// Reversing `w` bits looks only at those bits.
proof fn lemma_rev_bits_mod(v: nat, w: nat)
    ensures
        rev_bits(v, w) == rev_bits(v % pow2(w), w),
    decreases w,
{
    if w > 0 {
        let k = (w - 1) as nat;
        let u = v % pow2(w);
        lemma_rev_bits_mod(v, k);
        lemma_rev_bits_mod(u, k);
        lemma_mod_pow2_twice(v, k, w);
        assert(u % pow2(k) == v % pow2(k));
        assert(rev_bits(u, k) == rev_bits(v, k));
        lemma_pow2_mod_split(v, k, 1);
        lemma_pow2_pos(k);
        lemma2_to64();
        assert(k + 1 == w);
        let lo = v % pow2(k);
        let b = (v / pow2(k)) % 2;
        assert(u == lo + pow2(k) * b);
        lemma_div_above(lo, b, k);
        assert(u / pow2(k) == b);
        assert(rev_bits(v, w) == 2 * rev_bits(v, k) + b);
        assert(b < 2);
        assert((u / pow2(k)) % 2 == b);
        assert(rev_bits(u, w) == 2 * rev_bits(u, k) + (u / pow2(k)) % 2);
        assert(rev_bits(u, w) == rev_bits(v, w));
        assert(rev_bits(v % pow2(w), w) == rev_bits(v, w));
    } else {
        lemma2_to64();
    }
}

/// Reversing bits `a` (below `2^l`) followed by `x` puts the reversed `x`
/// first.
proof fn lemma_rev_concat(a: nat, l: nat, x: nat, m: nat)
    requires
        a < pow2(l),
    ensures
        rev_bits(a + pow2(l) * x, l + m) == rev_bits(a, l) * pow2(m) + rev_bits(x, m),
    decreases m,
{
    let v = a + pow2(l) * x;
    lemma2_to64();
    lemma_div_above(a, x, l);
    assert(v / pow2(l) == x);
    if m == 0 {
        lemma_rev_bits_mod(v, l);
        lemma_rev_bits_mod(a, l);
        lemma_pow2_sum_mod(a, x, l, l);
        assert(v % pow2(l) == a);
        assert(rev_bits(v, l) == rev_bits(a, l));
        assert(rev_bits(a, l) * 1 == rev_bits(a, l));
    } else {
        let k = (m - 1) as nat;
        lemma_rev_concat(a, l, x, k);
        assert(l + m - 1 == l + k);
        lemma_div_pow2_twice(v, l, k);
        assert(v / pow2(l + k) == x / pow2(k));
        assert(rev_bits(v, l + m) == 2 * rev_bits(v, l + k) + (v / pow2(l + k)) % 2);
        assert(rev_bits(x, m) == 2 * rev_bits(x, k) + (x / pow2(k)) % 2);
        lemma_pow2_unfold(m);
        let r = rev_bits(a, l);
        let p = pow2(k);
        assert(pow2(m) == 2 * p);
        assert(2 * (r * p) == r * (2 * p)) by (nonlinear_arith);
    }
}

/// Reversing twice gives the bits back.
proof fn lemma_rev_rev(c: nat, l: nat)
    requires
        c < pow2(l),
    ensures
        rev_bits(rev_bits(c, l), l) == c,
    decreases l,
{
    lemma2_to64();
    if l > 0 {
        let k = (l - 1) as nat;
        let lo = c % pow2(k);
        lemma_pow2_pos(k);
        lemma_pow2_mod_split(c, k, 1);
        lemma_pow2_small(c, l);
        lemma2_to64();
        assert(k + 1 == l);
        let b = (c / pow2(k)) % 2;
        assert(c == lo + pow2(k) * b);
        lemma_rev_bits_mod(c, k);
        lemma_rev_rev(lo, k);
        lemma_rev_bits_bound(lo, k);
        assert(rev_bits(c, l) == 2 * rev_bits(c, k) + b);
        assert(rev_bits(c, l) == b + pow2(1) * rev_bits(lo, k));
        lemma_rev_concat(b, 1, rev_bits(lo, k), k);
        assert(1 + k == l);
        assert(rev_bits(b, 0) == 0);
        assert(b / pow2(0) == b);
        assert(rev_bits(b, 1) == 2 * rev_bits(b, 0) + (b / pow2(0)) % 2);
        assert(rev_bits(b, 1) == b);
        assert(rev_bits(rev_bits(c, l), l) == b * pow2(k) + lo);
        vstd::arithmetic::mul::lemma_mul_is_commutative(b as int, pow2(k) as int);
    }
}

/// Reversed zero bits are zero.
proof fn lemma_rev_zero(w: nat)
    ensures
        rev_bits(0, w) == 0,
    decreases w,
{
    if w > 0 {
        lemma_rev_zero((w - 1) as nat);
        lemma_pow2_pos((w - 1) as nat);
    }
}

// ---------------------------------------------------------------------------
// The fixed code, sent and read

/// A bit string whose value fits in its length.
pub open spec fn bits_ok(b: Bits) -> bool {
    b.value < pow2(b.len)
}

/// Reading the first part of a concatenation gives it back, and leaves the rest.
pub(crate) proof fn lemma_concat_split(a: Bits, r: Bits)
    requires
        bits_ok(a),
    ensures
        take_bits(concat_bits(a, r), a.len) == a.value,
        skip_bits(concat_bits(a, r), a.len) == r,
{
    lemma_div_above(a.value, r.value, a.len);
}

/// A packed table entry gives back its length and symbol.
proof fn lemma_pack(len: int, sym: int)
    requires
        0 <= len <= 15,
        0 <= sym < 512,
    ensures
        entry_len(pack(len, sym)) == len,
        entry_symbol(pack(len, sym)) == sym,
{
    assert(0 <= len * 512 + sym < 65536) by (nonlinear_arith)
        requires
            0 <= len <= 15,
            0 <= sym < 512,
    ;
    assert((len * 512 + sym) / 512 == len && (len * 512 + sym) % 512 == sym) by (nonlinear_arith)
        requires
            0 <= len <= 15,
            0 <= sym < 512,
    ;
}

/// The code of a symbol fits in its length.
proof fn lemma_fixed_code_fits(sym: nat)
    requires
        sym <= 285,
    ensures
        7 <= fixed_code(sym).1 <= 9,
        fixed_code(sym).0 < pow2(fixed_code(sym).1),
        bits_ok(code_bits(fixed_code(sym).0, fixed_code(sym).1)),
{
    lemma2_to64();
    lemma_rev_bits_bound(fixed_code(sym).0, fixed_code(sym).1);
}

/// The fixed literal/length table reads the code of `sym`, whatever follows it.
#[verifier::spinoff_prover]
#[verifier::rlimit(40)]
proof fn lemma_literal_code_decode(sym: nat, r: Bits)
    requires
        sym <= 285,
    ensures
        ({
            let (c, l) = fixed_code(sym);
            let s = concat_bits(code_bits(c, l), r);
            let raw = take_bits(s, 9);
            &&& raw < 512
            &&& fixed_literal_table()[raw as int] == fixed_literal_entry(raw)
            &&& entry_len(fixed_literal_entry(raw)) == l
            &&& entry_symbol(fixed_literal_entry(raw)) == sym
        }),
{
    let (c, l) = fixed_code(sym);
    let m = (9 - l) as nat;
    lemma_fixed_code_fits(sym);
    lemma2_to64();
    let rv = rev_bits(c, l);
    lemma_rev_bits_bound(c, l);
    let s = concat_bits(code_bits(c, l), r);
    assert(l + m == 9);
    lemma_pow2_mod_split(s.value, l, m);
    lemma_div_above(rv, r.value, l);
    let y = r.value % pow2(m);
    lemma_pow2_pos(m);
    let raw = take_bits(s, 9);
    assert(raw == rv + pow2(l) * y);
    lemma_rev_concat(rv, l, y, m);
    lemma_rev_rev(c, l);
    lemma_rev_bits_bound(y, m);
    let ry = rev_bits(y, m);
    assert(rev_bits(raw, 9) == c * pow2(m) + ry);
    if sym < 144 {
        assert(pow2(m) == 2);
        lemma_pack(8, (c * 2 + ry) / 2 - 48);
    } else if sym < 256 {
        assert(pow2(m) == 1);
        lemma_pack(9, 144 + (c * 1 + ry) - 400);
    } else if sym < 280 {
        assert(pow2(m) == 4);
        lemma_pack(7, (256 + (c * 4 + ry) / 4) as int);
    } else {
        assert(pow2(m) == 2);
        lemma_pack(8, 280 + (c * 2 + ry) / 2 - 192);
    }
}

/// The fixed distance table reads the code of `di`, whatever follows it.
proof fn lemma_distance_code_decode(di: nat, r: Bits)
    requires
        di < 30,
    ensures
        ({
            let s = concat_bits(code_bits(di, 5), r);
            let raw = take_bits(s, 5);
            &&& raw < 32
            &&& fixed_distance_table()[raw as int] == fixed_distance_entry(raw)
            &&& entry_len(fixed_distance_entry(raw)) == 5
            &&& entry_symbol(fixed_distance_entry(raw)) == di
        }),
{
    lemma2_to64();
    lemma_rev_bits_bound(di, 5);
    let rv = rev_bits(di, 5);
    lemma_div_above(rv, r.value, 5);
    lemma_rev_rev(di, 5);
    lemma_pack(5, di as int);
}

/// The scan for a length code stops at the last code whose base is at most `length`.
proof fn lemma_length_index(length: nat, i: nat)
    requires
        i <= 28,
        LENGTH_BASE_TABLE[i as int] <= length,
    ensures
        i <= length_index_from(length, i) <= 28,
        LENGTH_BASE_TABLE[length_index_from(length, i) as int] <= length,
        length_index_from(length, i) == 28 || length < LENGTH_BASE_TABLE[length_index_from(length, i) + 1int],
    decreases 28 - i,
{
    if i < 28 && LENGTH_BASE_TABLE[i + 1int] <= length {
        lemma_length_index(length, i + 1);
    }
}

/// The scan for a distance code stops at the last code whose base is at most `distance`.
proof fn lemma_distance_index(distance: nat, i: nat)
    requires
        i <= 29,
        DISTANCE_BASE_TABLE[i as int] <= distance,
    ensures
        i <= distance_index_from(distance, i) <= 29,
        DISTANCE_BASE_TABLE[distance_index_from(distance, i) as int] <= distance,
        distance_index_from(distance, i) == 29 || distance < DISTANCE_BASE_TABLE[distance_index_from(distance, i) + 1int],
    decreases 29 - i,
{
    if i < 29 && DISTANCE_BASE_TABLE[i + 1int] <= distance {
        lemma_distance_index(distance, i + 1);
    }
}

/// Every length DEFLATE allows is its code's base plus extra bits that fit.
proof fn lemma_length_code(length: nat)
    requires
        3 <= length <= 258,
    ensures
        length_index_from(length, 0) <= 28,
        LENGTH_BASE_TABLE[length_index_from(length, 0) as int] <= length,
        length - LENGTH_BASE_TABLE[length_index_from(length, 0) as int] < pow2(
            LENGTH_OFFSET_BITS_TABLE[length_index_from(length, 0) as int] as nat,
        ),
{
    lemma_length_index(length, 0);
    lemma2_to64();
    assert(forall|i: int|
        0 <= i < 28 ==> #[trigger] LENGTH_BASE_TABLE[i + 1] <= LENGTH_BASE_TABLE[i] + pow2(
            LENGTH_OFFSET_BITS_TABLE[i] as nat,
        ));
}

/// Every distance DEFLATE allows is its code's base plus extra bits that fit.
proof fn lemma_distance_code(distance: nat)
    requires
        1 <= distance <= 32768,
    ensures
        distance_index_from(distance, 0) < 30,
        DISTANCE_BASE_TABLE[distance_index_from(distance, 0) as int] <= distance,
        distance - DISTANCE_BASE_TABLE[distance_index_from(distance, 0) as int] < pow2(
            DISTANCE_OFFSET_BITS_TABLE[distance_index_from(distance, 0) as int] as nat,
        ),
{
    lemma_distance_index(distance, 0);
    lemma2_to64();
    assert(forall|i: int|
        0 <= i < 29 ==> #[trigger] DISTANCE_BASE_TABLE[i + 1] <= DISTANCE_BASE_TABLE[i] + pow2(
            DISTANCE_OFFSET_BITS_TABLE[i] as nat,
        ));
}

/// A literal byte, or a back-reference that DEFLATE allows.
pub open spec fn token_ok(t: Token) -> bool {
    match t {
        Token::Copy { length, distance } => 3 <= length <= 258 && 1 <= distance <= 32768,
        Token::Literal(_) => true,
    }
}

/// Extra bits fit in their length.
proof fn lemma_extra_ok(v: nat, n: nat)
    ensures
        bits_ok(extra_bits(v, n)),
{
    lemma_pow2_pos(n);
}

/// The fixed tables decode the bits of a token back to it, whatever follows.
#[verifier::spinoff_prover]
#[verifier::rlimit(40)]
pub proof fn lemma_token_decode(t: Token, r: Bits)
    requires
        token_ok(t),
    ensures
        decode_step(fixed_literal_table(), 9, fixed_distance_table(), 5, concat_bits(token_bits(t), r))
            == Step::Emit(t, r),
{
    match t {
        Token::Literal(b) => {
            let (c, l) = fixed_code(b as nat);
            lemma_literal_code_decode(b as nat, r);
            lemma_fixed_code_fits(b as nat);
            lemma_concat_split(code_bits(c, l), r);
        },
        Token::Copy { length, distance } => {
            let li = length_index_from(length as nat, 0);
            let di = distance_index_from(distance as nat, 0);
            lemma_length_code(length as nat);
            lemma_distance_code(distance as nat);
            let sym = 257 + li;
            let c1 = code_bits(fixed_code(sym).0, fixed_code(sym).1);
            let lx = (length - LENGTH_BASE_TABLE[li as int]) as nat;
            let eb = LENGTH_OFFSET_BITS_TABLE[li as int] as nat;
            let e1 = extra_bits(lx, eb);
            let c2 = code_bits(di, 5);
            let dx = (distance - DISTANCE_BASE_TABLE[di as int]) as nat;
            let db = DISTANCE_OFFSET_BITS_TABLE[di as int] as nat;
            let e2 = extra_bits(dx, db);
            lemma_concat_assoc(concat_bits(concat_bits(c1, e1), c2), e2, r);
            lemma_concat_assoc(concat_bits(c1, e1), c2, concat_bits(e2, r));
            lemma_concat_assoc(c1, e1, concat_bits(c2, concat_bits(e2, r)));
            let y3 = concat_bits(e2, r);
            let y2 = concat_bits(c2, y3);
            let y1 = concat_bits(e1, y2);
            let s = concat_bits(c1, y1);
            assert(concat_bits(token_bits(t), r) == s);
            lemma_literal_code_decode(sym, y1);
            lemma_fixed_code_fits(sym);
            lemma_concat_split(c1, y1);
            lemma_extra_ok(lx, eb);
            lemma_concat_split(e1, y2);
            lemma_pow2_small(lx, eb);
            lemma_distance_code_decode(di, y3);
            lemma_rev_bits_bound(di, 5);
            lemma_concat_split(c2, y3);
            lemma_extra_ok(dx, db);
            lemma_concat_split(e2, r);
            lemma_pow2_small(dx, db);
            lemma_pack(0, 0);
        },
    }
}

/// The fixed tables read the end-of-block code, whatever follows.
pub proof fn lemma_end_decode(r: Bits)
    ensures
        decode_step(fixed_literal_table(), 9, fixed_distance_table(), 5, concat_bits(Bits { value: 0, len: 7 }, r))
            == Step::End(r),
{
    lemma_rev_zero(7);
    assert(code_bits(fixed_code(256).0, fixed_code(256).1) == Bits { value: 0, len: 7 });
    lemma_literal_code_decode(256, r);
    lemma_fixed_code_fits(256);
    lemma_concat_split(Bits { value: 0, len: 7 }, r);
}

/// Nothing before a bit string changes nothing.
proof fn lemma_concat_empty_left(a: Bits)
    ensures
        concat_bits(Bits { value: 0, len: 0 }, a) == a,
{
    lemma2_to64();
    lemma_one_times(pow2(0), a.value);
}

/// Concatenations of fitting bit strings fit.
pub(crate) proof fn lemma_concat_ok(a: Bits, b: Bits)
    requires
        bits_ok(a),
        bits_ok(b),
    ensures
        bits_ok(concat_bits(a, b)),
{
    crate::numeric::lemma_pow2_stack_bound(a.value, b.value, a.len, b.len);
}

/// The bits of a token fit, and there are at least seven of them.
proof fn lemma_token_bits_ok(t: Token)
    requires
        token_ok(t),
    ensures
        bits_ok(token_bits(t)),
        token_bits(t).len >= 7,
{
    match t {
        Token::Literal(b) => {
            lemma_fixed_code_fits(b as nat);
        },
        Token::Copy { length, distance } => {
            let li = length_index_from(length as nat, 0);
            let di = distance_index_from(distance as nat, 0);
            lemma_length_code(length as nat);
            lemma_distance_code(distance as nat);
            let sym = 257 + li;
            lemma_fixed_code_fits(sym);
            let c1 = code_bits(fixed_code(sym).0, fixed_code(sym).1);
            let e1 = extra_bits(
                (length - LENGTH_BASE_TABLE[li as int]) as nat,
                LENGTH_OFFSET_BITS_TABLE[li as int] as nat,
            );
            let c2 = code_bits(di, 5);
            let e2 = extra_bits(
                (distance - DISTANCE_BASE_TABLE[di as int]) as nat,
                DISTANCE_OFFSET_BITS_TABLE[di as int] as nat,
            );
            lemma_extra_ok(
                (length - LENGTH_BASE_TABLE[li as int]) as nat,
                LENGTH_OFFSET_BITS_TABLE[li as int] as nat,
            );
            lemma_extra_ok(
                (distance - DISTANCE_BASE_TABLE[di as int]) as nat,
                DISTANCE_OFFSET_BITS_TABLE[di as int] as nat,
            );
            lemma_rev_bits_bound(di, 5);
            lemma_concat_ok(c1, e1);
            lemma_concat_ok(concat_bits(c1, e1), c2);
            lemma_concat_ok(concat_bits(concat_bits(c1, e1), c2), e2);
        },
    }
}

/// The bits of valid tokens fit.
proof fn lemma_tokens_bits_ok(ts: Seq<Token>)
    requires
        tokens_valid(ts),
    ensures
        bits_ok(tokens_bits(ts)),
    decreases ts.len(),
{
    if ts.len() == 0 {
        lemma2_to64();
    } else {
        let dl = ts.drop_last();
        assert(tokens_valid(dl)) by {
            assert forall|i: int| 0 <= i < dl.len() implies token_ok(#[trigger] dl[i]) by {
                assert(dl[i] == ts[i]);
                assert(token_ok(ts[i]));
            }
        }
        lemma_tokens_bits_ok(dl);
        assert(token_ok(ts[ts.len() - 1]));
        lemma_token_bits_ok(ts.last());
        lemma_concat_ok(tokens_bits(dl), token_bits(ts.last()));
    }
}

/// The bits of tokens, read from the front: the first token's, then the rest's.
proof fn lemma_tokens_bits_front(ts: Seq<Token>)
    requires
        ts.len() > 0,
    ensures
        tokens_bits(ts) == concat_bits(token_bits(ts[0]), tokens_bits(ts.drop_first())),
    decreases ts.len(),
{
    if ts.len() == 1 {
        assert(ts.drop_last().len() == 0);
        assert(ts.drop_first().len() == 0);
        assert(tokens_bits(ts.drop_last()) == Bits { value: 0, len: 0 });
        assert(tokens_bits(ts.drop_first()) == Bits { value: 0, len: 0 });
        assert(ts.last() == ts[0]);
        assert(tokens_bits(ts) == concat_bits(tokens_bits(ts.drop_last()), token_bits(ts.last())));
        lemma_concat_empty_left(token_bits(ts[0]));
        crate::compressor::lemma_concat_empty(token_bits(ts[0]));
    } else {
        let dl = ts.drop_last();
        lemma_tokens_bits_front(dl);
        assert(dl[0] == ts[0]);
        assert(ts.drop_first().drop_last() =~= dl.drop_first());
        assert(ts.drop_first().last() == ts.last());
        lemma_concat_assoc(token_bits(ts[0]), tokens_bits(dl.drop_first()), token_bits(ts.last()));
        assert(tokens_bits(ts) == concat_bits(tokens_bits(dl), token_bits(ts.last())));
        assert(tokens_bits(ts.drop_first()) == concat_bits(
            tokens_bits(ts.drop_first().drop_last()),
            token_bits(ts.drop_first().last()),
        ));
    }
}

/// The fixed tables decode the bits of valid tokens and the end-of-block
/// code back to the tokens, and leave what follows.
pub proof fn lemma_tokens_decode(ts: Seq<Token>, r: Bits)
    requires
        tokens_valid(ts),
    ensures
        decode_block(
            fixed_literal_table(),
            9,
            fixed_distance_table(),
            5,
            concat_bits(tokens_bits(ts), concat_bits(Bits { value: 0, len: 7 }, r)),
        ) == Ok::<(Seq<Token>, Bits), crate::extraction::ExtractError>((ts, r)),
    decreases ts.len(),
{
    let y = concat_bits(Bits { value: 0, len: 7 }, r);
    if ts.len() == 0 {
        assert(tokens_bits(ts) == Bits { value: 0, len: 0 });
        lemma_concat_empty_left(y);
        lemma_end_decode(r);
        assert(ts =~= Seq::<Token>::empty());
    } else {
        let t0 = ts[0];
        let rest = ts.drop_first();
        assert(token_ok(t0));
        assert(tokens_valid(rest)) by {
            assert forall|i: int| 0 <= i < rest.len() implies token_ok(#[trigger] rest[i]) by {
                assert(rest[i] == ts[i + 1]);
                assert(token_ok(ts[i + 1]));
            }
        }
        lemma_tokens_bits_front(ts);
        lemma_concat_assoc(token_bits(t0), tokens_bits(rest), y);
        let s1 = concat_bits(tokens_bits(rest), y);
        lemma_token_decode(t0, s1);
        lemma_token_bits_ok(t0);
        lemma_tokens_decode(rest, r);
        assert(seq![t0] + rest =~= ts);
        let s = concat_bits(tokens_bits(ts), y);
        assert(s == concat_bits(token_bits(t0), s1));
        assert(s1.len < s.len);
        assert(decode_step(fixed_literal_table(), 9, fixed_distance_table(), 5, s) == Step::Emit(t0, s1));
    }
}

// ---------------------------------------------------------------------------
// Whole members

/// The bits of a byte string, least significant bit of the first byte first.
pub open spec fn byte_bits(b: Seq<u8>) -> Bits {
    Bits { value: le_value(b), len: 8 * b.len() }
}

/// Little-endian bytes of `v`: the first `a`, then the next `b`.
proof fn lemma_le_bytes_split(v: nat, a: nat, b: nat)
    ensures
        le_bytes(v, a + b) == le_bytes(v, a) + le_bytes(v / pow2(8 * a), b),
    decreases a,
{
    if a == 0 {
        crate::numeric::lemma_div_pow2_zero(v);
        assert(le_bytes(v, 0) + le_bytes(v, b) =~= le_bytes(v, b));
    } else {
        let k = (a - 1) as nat;
        lemma_le_bytes_split(v / 256, k, b);
        lemma2_to64();
        lemma_div_pow2_twice(v, 8, 8 * k);
        assert(8 + 8 * k == 8 * a);
        assert(a + b - 1 == k + b);
        assert(le_bytes(v, a + b) == seq![(v % 256) as u8] + le_bytes(v / 256, k + b));
        assert(le_bytes(v, a) == seq![(v % 256) as u8] + le_bytes(v / 256, k));
        vstd::seq_lib::lemma_concat_associative(
            seq![(v % 256) as u8],
            le_bytes(v / 256, k),
            le_bytes((v / 256) / pow2(8 * k), b),
        );
    }
}

/// Reading the bits of bytes: the first `k` bytes, and the bytes after them.
pub(crate) proof fn lemma_byte_bits_skip(b: Seq<u8>, k: nat)
    requires
        k <= b.len(),
    ensures
        take_bits(byte_bits(b), 8 * k) == le_value(b.take(k as int)),
        skip_bits(byte_bits(b), 8 * k) == byte_bits(b.skip(k as int)),
{
    crate::numeric::lemma_le_value_split(b, k as int);
    crate::numeric::lemma_le_value_bound(b.take(k as int));
    lemma_div_above(le_value(b.take(k as int)), le_value(b.skip(k as int)), 8 * k);
}

/// One byte read from the bits of bytes.
pub(crate) proof fn lemma_byte_at(b: Seq<u8>, k: nat)
    requires
        k < b.len(),
    ensures
        take_bits(skip_bits(byte_bits(b), 8 * k), 8) == b[k as int],
        skip_bits(byte_bits(b), 8 * k) == byte_bits(b.skip(k as int)),
{
    lemma_byte_bits_skip(b, k);
    let rest = b.skip(k as int);
    lemma_byte_bits_skip(rest, 1);
    assert(rest.take(1) =~= seq![b[k as int]]);
    crate::numeric::lemma_le_value_single(b[k as int]);
}

/// The header the compressor writes reads as a gzip header with no name,
/// no modification time, no extra flags and an unknown system.
#[verifier::spinoff_prover]
#[verifier::rlimit(40)]
pub proof fn lemma_header_parse(bytes: Seq<u8>)
    requires
        bytes.len() >= 10,
        bytes.take(10) == header_bytes(),
    ensures
        gzip_header(byte_bits(bytes)) == Ok::<(HeaderFields, Bits), crate::extraction::ExtractError>((
            HeaderFields { file_name: None, mtime: 0, xfl: 0, os: 255 },
            byte_bits(bytes.skip(10)),
        )),
{
    reveal(header_tail);
    let s = byte_bits(bytes);
    assert(bytes[0] == 0x1F && bytes[1] == 0x8B && bytes[2] == 8 && bytes[3] == 0) by {
        assert(bytes.take(10)[0] == 0x1F && bytes.take(10)[1] == 0x8B);
        assert(bytes.take(10)[2] == 8 && bytes.take(10)[3] == 0);
    }
    assert(bytes[8] == 0 && bytes[9] == 0xFF) by {
        assert(bytes.take(10)[8] == 0 && bytes.take(10)[9] == 0xFF);
    }
    lemma_byte_at(bytes, 0);
    crate::numeric::lemma_div_pow2_zero(s.value);
    assert(skip_bits(s, 0) == s);
    assert(take_bits(s, 8) == 0x1F);
    lemma_byte_at(bytes, 1);
    lemma_byte_at(bytes, 2);
    lemma_byte_at(bytes, 3);
    lemma_byte_bits_skip(bytes, 2);
    lemma_byte_bits_skip(bytes, 3);
    lemma_byte_bits_skip(bytes, 4);
    let s3 = byte_bits(bytes.skip(4));
    lemma_div_pow2_twice(s.value, 8, 8);
    lemma_div_pow2_twice(s.value, 16, 8);
    lemma_div_pow2_twice(s.value, 24, 8);
    assert(skip_bits(s, 16) == byte_bits(bytes.skip(2)));
    assert(skip_bits(skip_bits(s, 16), 8) == byte_bits(bytes.skip(3)));
    assert(skip_bits(skip_bits(skip_bits(s, 16), 8), 8) == s3);
    let t = bytes.skip(4);
    lemma_byte_bits_skip(t, 4);
    assert(t.take(4) =~= seq![0u8, 0u8, 0u8, 0u8]) by {
        assert(bytes.take(10)[4] == 0 && bytes.take(10)[5] == 0);
        assert(bytes.take(10)[6] == 0 && bytes.take(10)[7] == 0);
    }
    crate::numeric::lemma_le_value_zeros(t.take(4));
    lemma_byte_at(t, 4);
    lemma_byte_at(t, 5);
    lemma_byte_bits_skip(t, 6);
    assert(t.skip(6) =~= bytes.skip(10));
    assert(take_bits(skip_bits(s, 8), 8) == 0x8B);
    assert(take_bits(skip_bits(s, 16), 8) == 8);
    assert(take_bits(skip_bits(skip_bits(s, 16), 8), 8) == 0);
    assert(take_bits(s3, 32) == 0);
    assert(take_bits(skip_bits(s3, 32), 8) == 0);
    assert(take_bits(skip_bits(s3, 40), 8) == 255);
    assert(skip_bits(s3, 48) == byte_bits(bytes.skip(10)));
    assert(header_tail(0, skip_bits(s3, 48)) == Ok::<(Option<Seq<u8>>, Bits), crate::extraction::ExtractError>((None, skip_bits(s3, 48))));
}

/// A factor that is eight.
proof fn lemma_eight_times(p: nat, x: nat)
    requires
        p == 8,
    ensures
        p * x == 8 * x,
{
}

/// The gzip trailer reads back as the CRC-32 and size it holds.
proof fn lemma_trailer_parse(input: Seq<u8>)
    ensures
        ({
            let a = byte_bits(trailer_bytes(input));
            &&& a.len == 64
            &&& take_bits(a, 32) == crc32(input) as nat
            &&& take_bits(skip_bits(a, 32), 32) == input.len() % 0x1_0000_0000
        }),
{
    let t = trailer_bytes(input);
    let c = le_bytes(crc32(input) as nat, 4);
    let z = le_bytes(input.len() % 0x1_0000_0000, 4);
    crate::numeric::lemma_le_bytes_value(crc32(input) as nat, 4);
    crate::numeric::lemma_le_bytes_value(input.len() % 0x1_0000_0000, 4);
    lemma2_to64();
    lemma_byte_bits_skip(t, 4);
    assert(t.take(4) =~= c);
    assert(t.skip(4) =~= z);
    lemma_byte_bits_skip(z, 4);
    assert(z.take(4) =~= z);
    lemma_pow2_small(crc32(input) as nat, 32);
    lemma_pow2_small(input.len() % 0x1_0000_0000, 32);
}

/// The one fixed block the compressor writes, as bits: the block header
/// (final, fixed code), the tokens, the end-of-block code.
pub open spec fn fixed_block(tokens: Seq<Token>) -> Bits {
    concat_bits(
        concat_bits(Bits { value: 3, len: 3 }, tokens_bits(tokens)),
        Bits { value: 0, len: 7 },
    )
}

/// The bytes after the gzip header decode to the bytes that the tokens
/// reproduce, with a matching trailer.
#[verifier::spinoff_prover]
#[verifier::rlimit(40)]
proof fn lemma_data_parse(tokens: Seq<Token>, input: Seq<u8>)
    requires
        tokens_valid(tokens),
        apply_tokens(zeros(HISTORY_SIZE as nat), tokens) == input,
    ensures
        ({
            let blk = fixed_block(tokens);
            gzip_data(byte_bits(le_bytes(blk.value, (blk.len + 7) / 8) + trailer_bytes(input))) == Ok::<
                Seq<u8>,
                crate::extraction::ExtractError,
            >(input)
        }),
{
    let b3 = Bits { value: 3, len: 3 };
    let e7 = Bits { value: 0, len: 7 };
    let tb = tokens_bits(tokens);
    let blk = fixed_block(tokens);
    let nw = (blk.len + 7) / 8;
    let t = trailer_bytes(input);
    let lb = le_bytes(blk.value, nw);
    lemma2_to64();
    // the block's bits fit
    lemma_tokens_bits_ok(tokens);
    lemma_concat_ok(b3, tb);
    lemma_concat_ok(concat_bits(b3, tb), e7);
    // the bytes, as bits: the block, padding, the trailer
    crate::numeric::lemma_le_bytes_value(blk.value, nw);
    crate::numeric::lemma_le_value_append(lb, t);
    if blk.len < 8 * nw {
        lemma_pow2_strictly_increases(blk.len, 8 * nw);
    }
    lemma_pow2_small(blk.value, 8 * nw);
    let pad = (8 * nw - blk.len) as nat;
    assert(pad < 8);
    let p = concat_bits(Bits { value: 0, len: pad }, byte_bits(t));
    lemma_concat_empty_left(byte_bits(t));
    lemma_pow2_adds(blk.len, pad);
    assert(blk.len + pad == 8 * nw);
    let x = le_value(t) as int;
    let pa = pow2(blk.len) as int;
    let pp = pow2(pad) as int;
    assert(pa * (0 + pp * x) == (pa * pp) * x) by (nonlinear_arith);
    assert(byte_bits(lb + t) == concat_bits(blk, p));
    // regroup: the block header, then the tokens and what follows them
    lemma_concat_assoc(concat_bits(b3, tb), e7, p);
    lemma_concat_assoc(b3, tb, concat_bits(e7, p));
    let y = concat_bits(tb, concat_bits(e7, p));
    let s = concat_bits(b3, y);
    assert(s == byte_bits(lb + t));
    // the block header
    lemma_eight_times(pow2(3), y.value);
    assert(s.value == 3 + 8 * y.value);
    assert(take_bits(s, 1) == 1);
    assert(take_bits(skip_bits(s, 1), 2) == 1);
    assert(skip_bits(skip_bits(s, 1), 2) == y);
    // the tokens
    lemma_tokens_decode(tokens, p);
    reveal(inflate_block);
    assert(inflate_block(1, y, zeros(HISTORY_SIZE as nat)) == Ok::<
        (Seq<u8>, Bits),
        crate::extraction::ExtractError,
    >((input, p)));
    assert(inflate_blocks(s, zeros(HISTORY_SIZE as nat)) == Ok::<
        (Seq<u8>, Bits),
        crate::extraction::ExtractError,
    >((input, p)));
    // the trailer
    assert(p.len % 8 == pad);
    lemma_concat_split(Bits { value: 0, len: pad }, byte_bits(t));
    lemma_trailer_parse(input);
}

/// Round trip: a gzip member made of the header, the fixed block of valid
/// tokens and the trailer of the bytes those tokens reproduce reads as a
/// header with no file name, followed by data that decompresses to exactly
/// those bytes.
#[verifier::spinoff_prover]
#[verifier::rlimit(40)]
pub proof fn lemma_member_roundtrip(tokens: Seq<Token>, input: Seq<u8>)
    requires
        tokens_valid(tokens),
        apply_tokens(zeros(HISTORY_SIZE as nat), tokens) == input,
    ensures
        ({
            let bytes = block_bytes(header_mark(), tokens) + trailer_bytes(input);
            &&& gzip_header(byte_bits(bytes)) matches Ok((h, rest))
            &&& h.file_name is None
            &&& h.mtime == 0
            &&& h.xfl == 0
            &&& h.os == 255
            &&& gzip_data(rest) == Ok::<Seq<u8>, crate::extraction::ExtractError>(input)
        }),
{
    let h = header_bytes();
    let hdr = Bits { value: le_value(h), len: 80 };
    let b3 = Bits { value: 3, len: 3 };
    let e7 = Bits { value: 0, len: 7 };
    let tb = tokens_bits(tokens);
    let blk = fixed_block(tokens);
    let nw = (blk.len + 7) / 8;
    assert(header_mark() == concat_bits(hdr, b3));
    lemma_concat_assoc(hdr, b3, tb);
    lemma_concat_assoc(hdr, concat_bits(b3, tb), e7);
    let big = concat_bits(concat_bits(header_mark(), tb), e7);
    assert(big == concat_bits(hdr, blk));
    assert((big.len + 7) / 8 == 10 + nw);
    crate::numeric::lemma_le_value_bound(h);
    assert(h.len() == 10);
    lemma_div_above(le_value(h), blk.value, 80);
    lemma_le_bytes_split(big.value, 10, nw);
    crate::numeric::lemma_le_bytes_mod(big.value, 10);
    crate::numeric::lemma_le_bytes_of_value(h);
    let lb = le_bytes(blk.value, nw);
    assert(block_bytes(header_mark(), tokens) == h + lb);
    let bytes = block_bytes(header_mark(), tokens) + trailer_bytes(input);
    vstd::seq_lib::lemma_concat_associative(h, lb, trailer_bytes(input));
    assert(bytes.take(10) =~= h);
    assert(bytes.skip(10) =~= lb + trailer_bytes(input));
    lemma_header_parse(bytes);
    lemma_data_parse(tokens, input);
}

/// What a bit writer has written, once it holds no partial byte, is what a
/// bit reader over its bytes holds: the same number, the same length.
pub proof fn lemma_writer_to_reader(w: BitWriter)
    requires
        w.wf(),
        w.bit_count == 0,
    ensures
        byte_bits(w.data@) == writer_bits(w),
{
    lemma2_to64();
    assert(w.bit_store == 0);
    lemma_times_zero(pow2(8 * w.data@.len()));
}

/// The bits of a sequence of `write_bits` calls (value, count), in order.
pub open spec fn fields_bits(ws: Seq<(u16, u8)>) -> Bits
    decreases ws.len(),
{
    if ws.len() == 0 {
        Bits { value: 0, len: 0 }
    } else {
        concat_bits(fields_bits(ws.drop_last()), extra_bits(ws.last().0 as nat, ws.last().1 as nat))
    }
}

/// Where field `i` starts: the bits of the fields before it.
pub open spec fn field_offset(ws: Seq<(u16, u8)>, i: int) -> nat {
    fields_bits(ws.take(i)).len
}

/// The bits of fields fit in their length.
proof fn lemma_fields_ok(ws: Seq<(u16, u8)>)
    ensures
        bits_ok(fields_bits(ws)),
    decreases ws.len(),
{
    if ws.len() == 0 {
        lemma2_to64();
    } else {
        lemma_fields_ok(ws.drop_last());
        lemma_extra_ok(ws.last().0 as nat, ws.last().1 as nat);
        lemma_concat_ok(fields_bits(ws.drop_last()), extra_bits(ws.last().0 as nat, ws.last().1 as nat));
    }
}

/// The bits of the first `k` fields are the low bits of the bits of all of them.
proof fn lemma_fields_prefix(ws: Seq<(u16, u8)>, k: int)
    requires
        0 <= k <= ws.len(),
    ensures
        fields_bits(ws.take(k)).len <= fields_bits(ws).len,
        fields_bits(ws).value % pow2(fields_bits(ws.take(k)).len) == fields_bits(ws.take(k)).value,
    decreases ws.len(),
{
    lemma_fields_ok(ws);
    lemma_fields_ok(ws.take(k));
    if k == ws.len() {
        assert(ws.take(k) =~= ws);
        lemma_pow2_small(fields_bits(ws).value, fields_bits(ws).len);
    } else {
        let dl = ws.drop_last();
        assert(dl.take(k) =~= ws.take(k));
        lemma_fields_prefix(dl, k);
        let a = fields_bits(dl);
        let e = extra_bits(ws.last().0 as nat, ws.last().1 as nat);
        let n = fields_bits(ws.take(k)).len;
        lemma_pow2_sum_mod(a.value, e.value, a.len, n);
    }
}

/// A sequence of writes reads back: over bytes that hold the bits of the
/// fields, the bits at field `i`'s offset, as many as it had, are its value
/// (cut to its count). With `write_bits` (which appends a field's bits),
/// `force_align` (which keeps them) and `lemma_writer_to_reader`, a reader
/// over a writer's bytes reads back each value written, in order.
#[verifier::spinoff_prover]
#[verifier::rlimit(40)]
pub proof fn lemma_fields_read_back(ws: Seq<(u16, u8)>, data: Seq<u8>, i: int)
    requires
        le_value(data) == fields_bits(ws).value,
        0 <= i < ws.len(),
    ensures
        take_bits(skip_bits(byte_bits(data), field_offset(ws, i)), ws[i].1 as nat) == ws[i].0 as nat % pow2(
            ws[i].1 as nat,
        ),
{
    let v = le_value(data);
    let p = fields_bits(ws.take(i));
    let q = fields_bits(ws.take(i + 1));
    let c = ws[i].1 as nat;
    let e = extra_bits(ws[i].0 as nat, c);
    assert(ws.take(i + 1).drop_last() =~= ws.take(i));
    assert(ws.take(i + 1).last() == ws[i]);
    assert(q == concat_bits(p, e));
    lemma_fields_prefix(ws, i + 1);
    lemma_fields_ok(ws.take(i));
    lemma_pow2_mod_split(v, p.len, c);
    lemma_div_above(p.value, e.value, p.len);
    lemma_pow2_pos(c);
    lemma_pow2_mod_split(v, p.len, c);
    let lo = v % pow2(p.len);
    let mid = (v / pow2(p.len)) % pow2(c);
    lemma_pow2_pos(p.len);
    lemma_div_above(lo, mid, p.len);
    vstd::arithmetic::div_mod::lemma_mod_bound(v as int, pow2(p.len) as int);
}

/// One `write_bits` call appends one field: the writer then holds the bits
/// of the fields so far followed by it.
pub proof fn lemma_write_field(w0: BitWriter, w1: BitWriter, ws: Seq<(u16, u8)>, bits: u16, count: u8)
    requires
        writer_bits(w0) == fields_bits(ws),
        w1.written_value() == w0.written_value() + pow2(w0.written_len()) * (bits as nat % pow2(
            count as nat,
        )),
        w1.written_len() == w0.written_len() + count,
    ensures
        writer_bits(w1) == fields_bits(ws.push((bits, count))),
{
    assert(ws.push((bits, count)).drop_last() =~= ws);
}

/// Round trip through the compressor: a compressor that started on an
/// empty stream and wrote its header, whatever it was fed since, finishes
/// with a gzip member whose header has no file name and whose data
/// decompresses to exactly the bytes it was fed.
pub proof fn lemma_compressor_roundtrip(c: Compressor)
    requires
        c.wf(),
        c.mark_bits@ == header_mark(),
        c.mark_pos@ == 0,
    ensures
        gzip_header(byte_bits(finished_output(c))) matches Ok((h, rest)) && h.file_name is None
            && gzip_data(rest) == Ok::<Seq<u8>, crate::extraction::ExtractError>(c.input@),
{
    lemma_final_tokens(c);
    assert(c.input@.take(0) =~= Seq::<u8>::empty());
    assert(zeros(HISTORY_SIZE as nat) + Seq::<u8>::empty() =~= zeros(HISTORY_SIZE as nat));
    assert(c.input@.skip(0) =~= c.input@);
    lemma_member_roundtrip(final_tokens(c), c.input@);
}

} // verus!
