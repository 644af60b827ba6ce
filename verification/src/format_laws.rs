//! Laws of the gzip and DEFLATE formats that the decoder's specifications
//! keep, stated over the bytes of a stream: stored blocks copy their
//! payload, and the header's name and comment fields are told apart by
//! their flags.
use vstd::prelude::*;
use vstd::arithmetic::power2::*;
use crate::compressor::concat_bits;
use crate::extraction::{cstring, header_tail, skip_bits, skip_cstring, stored_block, Bits, ExtractError};
use crate::numeric::le_value;
use crate::roundtrip::{
    bits_ok, byte_bits, lemma_byte_at, lemma_byte_bits_skip, lemma_concat_split, lemma_div_above,
};

verus! {

/// A stored block (RFC 1951, 3.2.4) copies exactly LEN bytes, LEN being the
/// whole 16-bit field: after the bits left of the current byte, a field
/// LEN = `n`, a field NLEN = 65535 - `n` and `n` bytes, the block gives those
/// bytes and leaves what follows them.
pub proof fn lemma_stored_block_copies(pad: Bits, n: nat, d: Seq<u8>, r: Bits)
    requires
        pad.len < 8,
        bits_ok(pad),
        n < 65536,
        d.len() == n,
        r.len % 8 == 0,
    ensures
        stored_block(
            concat_bits(
                pad,
                concat_bits(
                    Bits { value: n, len: 16 },
                    concat_bits(Bits { value: (65535 - n) as nat, len: 16 }, concat_bits(byte_bits(d), r)),
                ),
            ),
        ) == Ok::<(Seq<u8>, Bits), ExtractError>((d, r)),
{
    lemma2_to64();
    let m = Bits { value: (65535 - n) as nat, len: 16 };
    let z = concat_bits(byte_bits(d), r);
    let y = concat_bits(m, z);
    let x = concat_bits(Bits { value: n, len: 16 }, y);
    let s = concat_bits(pad, x);
    assert(s.len % 8 == pad.len);
    lemma_concat_split(pad, x);
    lemma_concat_split(Bits { value: n, len: 16 }, y);
    lemma_concat_split(m, z);
    crate::numeric::lemma_le_value_bound(d);
    lemma_div_above(le_value(d), r.value, 8 * n);
    lemma_concat_split(byte_bits(d), r);
    crate::numeric::lemma_le_bytes_mod(z.value, n);
    crate::numeric::lemma_le_bytes_of_value(d);
}

/// No byte is zero.
pub open spec fn no_zero(b: Seq<u8>) -> bool {
    forall|i: int| 0 <= i < b.len() ==> b[i] != 0
}

/// A zero-terminated field reads back as the bytes before its zero.
proof fn lemma_cstring_bytes(name: Seq<u8>, rest: Seq<u8>)
    requires
        no_zero(name),
    ensures
        cstring(byte_bits(name + seq![0u8] + rest)) == Some(name),
        skip_cstring(byte_bits(name + seq![0u8] + rest)) == Ok::<(Seq<u8>, Bits), ExtractError>(
            (name, byte_bits(rest)),
        ),
    decreases name.len(),
{
    let b = name + seq![0u8] + rest;
    let s = byte_bits(b);
    lemma2_to64();
    lemma_byte_at(b, 0);
    crate::numeric::lemma_div_pow2_zero(s.value);
    assert(skip_bits(s, 0) == s);
    lemma_byte_bits_skip(b, 1);
    if name.len() == 0 {
        assert(b[0] == 0);
        assert(name =~= Seq::<u8>::empty());
    } else {
        assert(b[0] == name[0]);
        let tail = name.drop_first();
        assert(no_zero(tail)) by {
            assert forall|i: int| 0 <= i < tail.len() implies tail[i] != 0 by {
                assert(tail[i] == name[i + 1]);
            }
        }
        assert(b.skip(1) =~= tail + seq![0u8] + rest);
        lemma_cstring_bytes(tail, rest);
        assert(seq![name[0]] + tail =~= name);
    }
    lemma_byte_bits_skip(b, name.len() + 1);
    assert(b.skip(name.len() + 1int) =~= rest);
}

/// With FLG = FNAME (bit 3, RFC 1952, 2.3.1) the header's optional part is
/// the zero-terminated file name, which is kept.
pub proof fn lemma_header_name(name: Seq<u8>, rest: Seq<u8>)
    requires
        no_zero(name),
    ensures
        header_tail(8, byte_bits(name + seq![0u8] + rest)) == Ok::<(Option<Seq<u8>>, Bits), ExtractError>(
            (Some(name), byte_bits(rest)),
        ),
{
    reveal(header_tail);
    lemma_cstring_bytes(name, rest);
}

/// With FLG = FCOMMENT (bit 4) the header's optional part is a
/// zero-terminated comment, which is skipped: there is no file name.
pub proof fn lemma_header_comment(comment: Seq<u8>, rest: Seq<u8>)
    requires
        no_zero(comment),
    ensures
        header_tail(16, byte_bits(comment + seq![0u8] + rest)) == Ok::<(Option<Seq<u8>>, Bits), ExtractError>(
            (None, byte_bits(rest)),
        ),
{
    reveal(header_tail);
    lemma_cstring_bytes(comment, rest);
}

/// With both FNAME and FCOMMENT the file name comes first, then the comment.
pub proof fn lemma_header_name_and_comment(name: Seq<u8>, comment: Seq<u8>, rest: Seq<u8>)
    requires
        no_zero(name),
        no_zero(comment),
    ensures
        header_tail(24, byte_bits(name + seq![0u8] + comment + seq![0u8] + rest)) == Ok::<
            (Option<Seq<u8>>, Bits),
            ExtractError,
        >((Some(name), byte_bits(rest))),
{
    reveal(header_tail);
    let after = comment + seq![0u8] + rest;
    assert(name + seq![0u8] + comment + seq![0u8] + rest =~= name + seq![0u8] + after);
    lemma_cstring_bytes(name, after);
    lemma_cstring_bytes(comment, rest);
}

} // verus!
