//! A reader that extracts bits least-significant first from a byte stream.
//!
//! The reader's model is one number: the bits it still holds in its store,
//! followed by the unread bytes read little-endian. Reading `n` bits returns
//! that number modulo `2^n` and divides it by `2^n`.
use vstd::prelude::*;
use vstd::arithmetic::power2::*;
use crate::numeric::{
    le_value, lemma_div_pow2_bound, lemma_div_pow2_twice, lemma_le_value_append, lemma_le_value_bound,
    lemma_le_value_split, lemma_le_value_single, le_bytes, lemma_le_bytes_value, lemma_le_bytes_snoc,
    lemma_le_value_injective, lemma_pow2_small, lemma_pow2_mod_split, lemma_div_pow2_zero, lemma_pow2_128, lemma_pow2_stack_bound, lemma_pow2_sum_div, lemma_pow2_sum_mod,
    lemma_u128_low_mask, lemma_u128_or_above, lemma_u128_pow2, lemma_u128_shl, lemma_u128_shr,
};

verus! {

/// How many bytes a refill moves into a store that holds `stored_len` bits
/// while `unread_len` bytes are left: as many whole bytes as fit.
pub open spec fn refill_count(stored_len: nat, unread_len: nat) -> nat {
    let room = ((128 - stored_len) as nat) / 8;
    if unread_len < room {
        unread_len
    } else {
        room
    }
}

/// The bytes that a look at `n` bits moves into the store: none while the
/// store already holds `n` bits, else a refill.
pub open spec fn refill_for(stored_len: nat, unread_len: nat, n: nat) -> nat {
    if stored_len < n {
        refill_count(stored_len, unread_len)
    } else {
        0
    }
}

/// Length of the prefix of `bytes` up to and including the first `delim`,
/// or all of `bytes` when `delim` does not occur.
pub open spec fn delimited_len(bytes: Seq<u8>, delim: u8) -> nat
    decreases bytes.len(),
{
    if bytes.len() == 0 {
        0
    } else if bytes[0] == delim {
        1
    } else {
        1 + delimited_len(bytes.drop_first(), delim)
    }
}

/// Bytes that `read_raw_bytes` takes from the store when asked for `count`
/// bytes: whole bytes only.
pub open spec fn raw_from_store(stored_len: nat, count: nat) -> nat {
    if count < stored_len / 8 {
        count
    } else {
        stored_len / 8
    }
}

proof fn lemma_delimited_len(bytes: Seq<u8>, delim: u8)
    ensures
        delimited_len(bytes, delim) <= bytes.len(),
    decreases bytes.len(),
{
    if bytes.len() > 0 {
        lemma_delimited_len(bytes.drop_first(), delim);
    }
}

/// Reading `len` whole bytes from a store that holds whole bytes, then from
/// the stream, gives the next `len` bytes of the reader's number.
proof fn lemma_raw_stream(v0: nat, s0: nat, u: Seq<u8>, len: nat)
    requires
        s0 % 8 == 0,
        v0 < pow2(s0),
        len - raw_from_store(s0, len) <= u.len(),
    ensures
        ({
            let t = raw_from_store(s0, len);
            let m = (len - t) as int;
            let v = v0 + pow2(s0) * le_value(u);
            &&& le_bytes(v0, t) + u.take(m) == le_bytes(v, len)
            &&& v0 / pow2(8 * t) + pow2((s0 - 8 * t) as nat) * le_value(u.skip(m)) == v / pow2(8 * len)
        }),
{
    let t = raw_from_store(s0, len);
    let m = (len - t) as nat;
    let lu = le_value(u);
    let v = v0 + pow2(s0) * lu;
    let b = le_bytes(v0, t) + u.take(m as int);
    lemma_le_bytes_value(v0, t);
    lemma_le_value_append(le_bytes(v0, t), u.take(m as int));
    lemma_le_value_split(u, m as int);
    lemma_le_value_bound(u.take(m as int));
    if t == len {
        assert(u.take(0) =~= Seq::<u8>::empty());
        assert(u.skip(0) =~= u);
        assert(le_value(u.take(0)) == 0);
        lemma_pow2_sum_mod(v0, lu, s0, 8 * len);
        lemma_le_bytes_value(v, len);
        lemma_le_value_injective(b, le_bytes(v, len));
        lemma_pow2_sum_div(v0, lu, s0, 8 * len);
    } else {
        assert(8 * t == s0);
        let tk = le_value(u.take(m as int));
        let sk = le_value(u.skip(m as int));
        lemma_pow2_small(v0, s0);
        assert(le_value(b) == v0 + pow2(s0) * tk);
        lemma_pow2_sum_mod(v0, lu, s0, s0);
        assert(v % pow2(s0) == v0);
        lemma_pow2_sum_div(v0, lu, s0, s0);
        assert(pow2((s0 - s0) as nat) == 1) by {
            vstd::arithmetic::power2::lemma2_to64();
        }
        assert(pow2((s0 - s0) as nat) * lu == lu);
        assert(v0 / pow2(s0) == 0);
        assert(v / pow2(s0) == lu);
        lemma_pow2_sum_mod(tk, sk, 8 * m, 8 * m);
        lemma_pow2_small(tk, 8 * m);
        assert(lu % pow2(8 * m) == tk);
        lemma_pow2_mod_split(v, s0, 8 * m);
        assert(s0 + 8 * m == 8 * len);
        assert(v % pow2(8 * len) == v0 + pow2(s0) * tk);
        lemma_le_bytes_value(v, len);
        lemma_le_value_injective(b, le_bytes(v, len));
        // value left over
        lemma_div_pow2_twice(v, s0, 8 * m);
        lemma_pow2_sum_div(tk, sk, 8 * m, 8 * m);
        assert(tk / pow2(8 * m) == 0);
        assert(v / pow2(8 * len) == sk);
        assert(v0 / pow2(8 * t) == 0);
    }
}

/// Looking at the lowest `n` bits of the stream looks only at the store when
/// it holds them, or when nothing follows it.
proof fn lemma_peek_value(store: nat, s: nat, u: Seq<u8>, n: nat)
    requires
        s >= n || u.len() == 0,
    ensures
        (store + pow2(s) * le_value(u)) % pow2(n) == store % pow2(n),
{
    if s >= n {
        lemma_pow2_sum_mod(store, le_value(u), s, n);
    } else {
        assert(le_value(u) == 0);
        assert(pow2(s) * 0 == 0);
    }
}

/// A reader that can extract bits LSB first.
pub struct BitReader {
    data: Vec<u8>,
    pos: usize,
    bit_store: u128,
    num_of_stored_bits: u8,
}

impl BitReader {
    /// The bits held in the store, as a number.
    pub closed spec fn stored_value(&self) -> nat {
        self.bit_store as nat
    }

    /// How many bits the store holds.
    pub closed spec fn stored_len(&self) -> nat {
        self.num_of_stored_bits as nat
    }

    /// The bytes of the underlying stream that have not been moved into the store.
    pub closed spec fn unread(&self) -> Seq<u8> {
        self.data@.skip(self.pos as int)
    }

    /// Internal consistency: the store holds no bits above its count.
    pub closed spec fn wf(&self) -> bool {
        &&& self.pos <= self.data.len()
        &&& self.num_of_stored_bits <= 128
        &&& (self.bit_store as nat) < pow2(self.num_of_stored_bits as nat)
    }

    /// All bits still to be read, as one number (store first, then the unread bytes).
    pub open spec fn stream_value(&self) -> nat {
        self.stored_value() + pow2(self.stored_len()) * le_value(self.unread())
    }

    /// How many bits are still to be read.
    pub open spec fn stream_len(&self) -> nat {
        self.stored_len() + 8 * self.unread().len()
    }

    /// The facts that `wf` keeps.
    pub proof fn lemma_wf(&self)
        requires
            self.wf(),
        ensures
            self.stored_len() <= 128,
            self.stored_value() < pow2(self.stored_len()),
            self.stream_value() < pow2(self.stream_len()),
    {
        lemma_le_value_bound(self.unread());
        lemma_pow2_stack_bound(
            self.stored_value(),
            le_value(self.unread()),
            self.stored_len(),
            8 * self.unread().len(),
        );
    }

    /// Reading `a` bits and then `b` bits reads the same as reading `a + b`
    /// bits at once: the first value, then the second above it; and the
    /// stream left is the same.
    pub proof fn lemma_reads_compose(&self, a: nat, b: nat)
        ensures
            self.stream_value() % pow2(a + b) == self.stream_value() % pow2(a) + pow2(a) * ((
            self.stream_value() / pow2(a)) % pow2(b)),
            (self.stream_value() / pow2(a)) / pow2(b) == self.stream_value() / pow2(a + b),
    {
        lemma_pow2_mod_split(self.stream_value(), a, b);
        lemma_div_pow2_twice(self.stream_value(), a, b);
    }

    /// Wraps a byte stream; nothing has been read yet.
    pub fn new(data: Vec<u8>) -> (reader: Self)
        ensures
            reader.wf(),
            reader.stored_len() == 0,
            reader.stored_value() == 0,
            reader.unread() == data@,
            reader.stream_value() == le_value(data@),
            reader.stream_len() == 8 * data@.len(),
    {
        proof {
            lemma2_to64();
        }
        let reader = BitReader { data, pos: 0, bit_store: 0, num_of_stored_bits: 0 };
        assert(reader.unread() =~= reader.data@);
        reader
    }

    /// How many bits are still to be read.
    pub fn remaining_bits(&self) -> (n: u128)
        requires
            self.wf(),
        ensures
            n as nat == self.stream_len(),
    {
        ((self.data.len() - self.pos) as u128) * 8 + (self.num_of_stored_bits as u128)
    }

    /// Reads all bytes into `buf` until the delimiter byte or the end of the
    /// stream is reached, straight from the underlying stream (the bit store
    /// is left as it is). The delimiter is copied too. Returns the number of
    /// bytes copied.
    pub fn read_until(&mut self, byte: u8, buf: &mut Vec<u8>) -> (n: usize)
        requires
            old(self).wf(),
        ensures
            final(self).wf(),
            n == delimited_len(old(self).unread(), byte),
            final(buf)@ == old(buf)@ + old(self).unread().take(n as int),
            final(self).unread() == old(self).unread().skip(n as int),
            final(self).stored_len() == old(self).stored_len(),
            final(self).stored_value() == old(self).stored_value(),
    {
        let start = self.pos;
        let ghost u = self.unread();
        while self.pos < self.data.len()
            invariant_except_break
                delimited_len(u, byte) == (self.pos - start) + delimited_len(
                    self.data@.skip(self.pos as int),
                    byte,
                ),
            invariant
                start <= self.pos <= self.data.len(),
                self.data == old(self).data,
                self.bit_store == old(self).bit_store,
                self.num_of_stored_bits == old(self).num_of_stored_bits,
                u == old(self).unread(),
                start == old(self).pos,
                buf@ == old(buf)@ + u.take(self.pos - start),
            ensures
                delimited_len(u, byte) == self.pos - start,
            decreases self.data.len() - self.pos,
        {
            let b = self.data[self.pos];
            buf.push(b);
            proof {
                let rest = self.data@.skip(self.pos as int);
                assert(rest[0] == b);
                assert(rest.drop_first() =~= self.data@.skip(self.pos + 1));
                assert(u.take(self.pos + 1 - start) =~= u.take(self.pos - start).push(b));
            }
            self.pos = self.pos + 1;
            if b == byte {
                break;
            }
        }
        proof {
            assert(self.unread() =~= u.skip(self.pos - start));
        }
        self.pos - start
    }

    /// Skips all bytes until the delimiter byte or the end of the stream is
    /// reached, straight from the underlying stream. The delimiter is
    /// skipped too. Returns the number of bytes skipped.
    pub fn skip_until(&mut self, byte: u8) -> (n: usize)
        requires
            old(self).wf(),
        ensures
            final(self).wf(),
            n == delimited_len(old(self).unread(), byte),
            final(self).unread() == old(self).unread().skip(n as int),
            final(self).stored_len() == old(self).stored_len(),
            final(self).stored_value() == old(self).stored_value(),
    {
        let mut discard: Vec<u8> = Vec::new();
        self.read_until(byte, &mut discard)
    }

    /// Moves as many whole bytes of the stream into the store as fit.
    fn fill_inner_buffer(&mut self)
        requires
            old(self).wf(),
            old(self).stored_len() < 128,
        ensures
            final(self).wf(),
            final(self).stored_len() == old(self).stored_len() + 8 * refill_count(
                old(self).stored_len(),
                old(self).unread().len(),
            ),
            final(self).unread() == old(self).unread().skip(
                refill_count(old(self).stored_len(), old(self).unread().len()) as int,
            ),
            final(self).stream_value() == old(self).stream_value(),
            final(self).stream_len() == old(self).stream_len(),
    {
        let space_for_bits: u8 = 128u8 - self.num_of_stored_bits;
        let room: usize = (space_for_bits / 8) as usize;
        let available: usize = self.data.len() - self.pos;
        let bytes_to_process: usize = if available < room {
            available
        } else {
            room
        };
        let ghost u = self.unread();
        let ghost k = bytes_to_process as nat;
        assert(k == refill_count(old(self).stored_len(), u.len()));

        // The next `bytes_to_process` bytes, as a little-endian number.
        let mut bits: u128 = 0;
        let mut i: usize = 0;
        proof {
            lemma2_to64();
            lemma_pow2_128();
        }
        while i < bytes_to_process
            invariant
                i <= bytes_to_process,
                bytes_to_process <= 16,
                self.pos + bytes_to_process <= self.data.len(),
                *self == *old(self),
                u == self.unread(),
                bits as nat == le_value(u.take(i as int)),
                (bits as nat) < pow2(8 * (i as nat)),
                pow2(128) == u128::MAX as nat + 1,
            decreases bytes_to_process - i,
        {
            let byte = self.data[self.pos + i];
            let shift: u128 = (8 * i) as u128;
            proof {
                assert(byte == u[i as int]);
                lemma_pow2_adds(8, shift as nat);
                lemma2_to64();
                assert((byte as nat) * pow2(shift as nat) < pow2(8) * pow2(shift as nat)) by {
                    vstd::arithmetic::mul::lemma_mul_strict_inequality(
                        byte as int,
                        pow2(8) as int,
                        pow2(shift as nat) as int,
                    );
                    lemma_pow2_pos(shift as nat);
                }
                if 8 + shift < 128 {
                    lemma_pow2_strictly_increases((8 + shift) as nat, 128);
                }
                lemma_u128_shl(byte as u128, shift);
                lemma_u128_pow2(shift);
                lemma_u128_or_above(bits, byte as u128, shift);
                assert(u.take(i + 1) =~= u.take(i as int) + seq![byte]);
                lemma_le_value_append(u.take(i as int), seq![byte]);
                lemma_le_value_single(byte);
                lemma_le_value_bound(u.take(i + 1));
                assert(shift as nat == 8 * (i as nat));
                vstd::arithmetic::mul::lemma_mul_is_commutative(byte as int, pow2(shift as nat) as int);
                assert(((byte as u128) << shift) as nat == pow2(8 * (i as nat)) * (byte as nat));
                assert(bits | ((byte as u128) << shift) == bits + ((byte as u128) << shift));
                assert(le_value(u.take(i + 1)) == bits as nat + pow2(8 * (i as nat)) * (byte as nat));
            }
            bits = bits | ((byte as u128) << shift);
            i = i + 1;
        }

        let shift: u128 = self.num_of_stored_bits as u128;
        proof {
            let s = shift as nat;
            assert(8 * k + s <= 128);
            lemma_pow2_adds(8 * k, s);
            lemma_pow2_pos(s);
            assert((bits as nat) * pow2(s) < pow2(8 * k) * pow2(s)) by {
                vstd::arithmetic::mul::lemma_mul_strict_inequality(
                    bits as int,
                    pow2(8 * k) as int,
                    pow2(s) as int,
                );
            }
            if 8 * k + s < 128 {
                lemma_pow2_strictly_increases(8 * k + s, 128);
            }
            lemma_u128_shl(bits, shift);
            lemma_u128_pow2(shift);
            lemma_u128_or_above(self.bit_store, bits, shift);
            // value bookkeeping
            lemma_le_value_split(u, k as int);
            lemma_pow2_stack_bound(self.bit_store as nat, bits as nat, s, 8 * k);
            let x = le_value(u.skip(k as int));
            let t = le_value(u.take(k as int));
            assert(pow2(s) * (t + pow2(8 * k) * x) == pow2(s) * t + (pow2(s) * pow2(8 * k)) * x)
                by (nonlinear_arith);
            vstd::arithmetic::mul::lemma_mul_is_commutative(pow2(s) as int, pow2(8 * k) as int);
            vstd::arithmetic::mul::lemma_mul_is_commutative(pow2(s) as int, t as int);
        }
        self.bit_store = self.bit_store | (bits << shift);
        self.num_of_stored_bits = self.num_of_stored_bits + (bytes_to_process as u8) * 8;
        self.pos = self.pos + bytes_to_process;
        proof {
            assert(self.unread() =~= u.skip(k as int));
        }
    }

    /// Peek at most 64 bits without consuming them. Bits past the end of the
    /// stream read as zero. The store may be refilled from the stream first.
    pub fn peek_bits(&mut self, num_of_bits: u8) -> (r: u128)
        requires
            old(self).wf(),
            num_of_bits <= 64,
            num_of_bits <= old(self).stream_len(),
        ensures
            final(self).wf(),
            r as nat == old(self).stream_value() % pow2(num_of_bits as nat),
            final(self).stream_value() == old(self).stream_value(),
            final(self).stream_len() == old(self).stream_len(),
            final(self).unread() == old(self).unread().skip(
                refill_for(
                    old(self).stored_len(),
                    old(self).unread().len(),
                    num_of_bits as nat,
                ) as int,
            ),
            final(self).stored_len() >= num_of_bits || final(self).unread().len() == 0,
            final(self).stored_len() == old(self).stored_len() + 8 * refill_for(
                old(self).stored_len(),
                old(self).unread().len(),
                num_of_bits as nat,
            ),
    {
        if self.num_of_stored_bits < num_of_bits {
            self.fill_inner_buffer();
        }
        let n: u128 = num_of_bits as u128;
        proof {
            lemma_u128_pow2(n);
            lemma_pow2_pos(n as nat);
        }
        let mask: u128 = (1u128 << n) - 1;
        proof {
            assert(mask == ((1u128 << n) - 1) as u128);
            lemma_u128_pow2(n);
            lemma_u128_low_mask(self.bit_store, n);
            assert((self.bit_store & mask) as nat == self.stored_value() % pow2(n as nat));
            lemma_peek_value(self.stored_value(), self.stored_len(), self.unread(), n as nat);
        }
        self.bit_store & mask
    }

    /// Consumes `num_of_bits` bits from the store without refilling it;
    /// the caller makes sure the store holds them.
    pub fn advance_bits_unchecked(&mut self, num_of_bits: u8)
        requires
            old(self).wf(),
            num_of_bits < 128,
            num_of_bits <= old(self).stored_len(),
        ensures
            final(self).wf(),
            final(self).stored_value() == old(self).stored_value() / pow2(num_of_bits as nat),
            final(self).stored_len() == old(self).stored_len() - num_of_bits,
            final(self).unread() == old(self).unread(),
            final(self).stream_value() == old(self).stream_value() / pow2(num_of_bits as nat),
            final(self).stream_len() == old(self).stream_len() - num_of_bits,
    {
        proof {
            lemma_u128_shr(self.bit_store, num_of_bits as u128);
            lemma_div_pow2_bound(
                self.stored_value(),
                self.stored_len(),
                num_of_bits as nat,
            );
            lemma_pow2_sum_div(
                self.stored_value(),
                le_value(self.unread()),
                self.stored_len(),
                num_of_bits as nat,
            );
        }
        self.bit_store = self.bit_store >> (num_of_bits as u128);
        self.num_of_stored_bits = self.num_of_stored_bits - num_of_bits;
    }

    /// Reads at most 64 bits; the stream must hold them.
    pub fn read_bits(&mut self, num_of_bits: u8) -> (r: u128)
        requires
            old(self).wf(),
            num_of_bits <= 64,
            num_of_bits <= old(self).stream_len(),
        ensures
            final(self).wf(),
            r as nat == old(self).stream_value() % pow2(num_of_bits as nat),
            final(self).stream_value() == old(self).stream_value() / pow2(num_of_bits as nat),
            final(self).stream_len() == old(self).stream_len() - num_of_bits,
            final(self).unread() == old(self).unread().skip(
                refill_for(
                    old(self).stored_len(),
                    old(self).unread().len(),
                    num_of_bits as nat,
                ) as int,
            ),
            final(self).stored_len() + num_of_bits == old(self).stored_len() + 8 * refill_for(
                old(self).stored_len(),
                old(self).unread().len(),
                num_of_bits as nat,
            ),
    {
        let result = self.peek_bits(num_of_bits);
        self.advance_bits_unchecked(num_of_bits);
        result
    }

    /// Reads at most 8 bytes' worth of bits; the stream must hold them.
    pub fn read_bytes(&mut self, num_of_bytes: u8) -> (r: u128)
        requires
            old(self).wf(),
            num_of_bytes <= 8,
            8 * num_of_bytes <= old(self).stream_len(),
        ensures
            final(self).wf(),
            r as nat == old(self).stream_value() % pow2(8 * num_of_bytes as nat),
            final(self).stream_value() == old(self).stream_value() / pow2(8 * num_of_bytes as nat),
            final(self).stream_len() == old(self).stream_len() - 8 * num_of_bytes,
            final(self).unread() == old(self).unread().skip(
                refill_for(
                    old(self).stored_len(),
                    old(self).unread().len(),
                    8 * num_of_bytes as nat,
                ) as int,
            ),
            final(self).stored_len() + 8 * num_of_bytes == old(self).stored_len() + 8 * refill_for(
                old(self).stored_len(),
                old(self).unread().len(),
                8 * num_of_bytes as nat,
            ),
    {
        self.read_bits(num_of_bytes * 8)
    }

    /// Discards the bits left of the current byte, so that reading goes on at
    /// the next byte boundary.
    pub fn align_to_byte(&mut self)
        requires
            old(self).wf(),
        ensures
            final(self).wf(),
            final(self).stream_value() == old(self).stream_value() / pow2(old(self).stream_len() % 8),
            final(self).stream_len() == old(self).stream_len() - old(self).stream_len() % 8,
            final(self).stream_len() % 8 == 0,
            final(self).stored_len() % 8 == 0,
            final(self).unread() == old(self).unread(),
    {
        let leftover_bits = self.num_of_stored_bits % 8;
        if leftover_bits > 0 {
            self.advance_bits_unchecked(leftover_bits);
        } else {
            proof {
                lemma_div_pow2_zero(self.stream_value());
            }
        }
    }

    /// Reads raw bytes exactly as they appear in the stream: whole bytes held
    /// in the store first, then straight from the underlying stream (which
    /// must hold enough of them). Used for magic numbers, strings and
    /// uncompressed payloads.
    pub fn read_raw_bytes(&mut self, buf: &mut [u8])
        requires
            old(self).wf(),
            old(buf)@.len() - raw_from_store(old(self).stored_len(), old(buf)@.len() as nat)
                <= old(self).unread().len(),
        ensures
            final(self).wf(),
            final(buf)@.len() == old(buf)@.len(),
            ({
                let t = raw_from_store(old(self).stored_len(), old(buf)@.len() as nat);
                let m = old(buf)@.len() - t;
                &&& final(buf)@ == le_bytes(old(self).stored_value(), t) + old(self).unread().take(m)
                &&& final(self).stored_value() == old(self).stored_value() / pow2(8 * t)
                &&& final(self).stored_len() == old(self).stored_len() - 8 * t
                &&& final(self).unread() == old(self).unread().skip(m)
            }),
            final(self).stream_len() == old(self).stream_len() - 8 * old(buf)@.len(),
            old(self).stored_len() % 8 == 0 ==> {
                &&& final(buf)@ == le_bytes(old(self).stream_value(), old(buf)@.len() as nat)
                &&& final(self).stream_value() == old(self).stream_value() / pow2(
                    8 * old(buf)@.len() as nat,
                )
            },
    {
        let ghost v0 = self.stored_value();
        let ghost s0 = self.stored_len();
        let ghost u0 = self.unread();
        let ghost pos0 = self.pos;
        let ghost total = buf@.len() as nat;
        let mut i: usize = 0;
        proof {
            lemma_div_pow2_zero(v0);
            assert(u0.take(0) =~= Seq::<u8>::empty());
            assert(buf@.take(0) =~= Seq::<u8>::empty());
            assert(le_bytes(v0, 0) =~= Seq::<u8>::empty());
        }
        while i < buf.len()
            invariant
                self.wf(),
                i <= buf@.len(),
                buf@.len() == total,
                self.data == old(self).data,
                v0 == old(self).stored_value(),
                s0 == old(self).stored_len(),
                u0 == old(self).unread(),
                pos0 == old(self).pos,
                total - raw_from_store(s0, total) <= u0.len(),
                ({
                    let ti = raw_from_store(s0, i as nat);
                    let mi = i - ti;
                    &&& buf@.take(i as int) == le_bytes(v0, ti) + u0.take(mi)
                    &&& self.bit_store as nat == v0 / pow2(8 * ti)
                    &&& self.num_of_stored_bits as nat == s0 - 8 * ti
                    &&& self.pos == pos0 + mi
                }),
            decreases total - i,
        {
            let ghost ti = raw_from_store(s0, i as nat);
            let ghost before = buf@;
            if self.num_of_stored_bits >= 8 {
                let byte: u8 = (self.bit_store & 0xFF) as u8;
                proof {
                    let st = self.bit_store;
                    assert(st & 0xFFu128 == st % 256) by (bit_vector);
                    lemma_le_bytes_snoc(v0, i as nat);
                    lemma_u128_shr(st, 8);
                    vstd::arithmetic::power2::lemma2_to64();
                    lemma_div_pow2_twice(v0, 8 * (i as nat), 8);
                    assert(8 * (i as nat) + 8 == 8 * (i as nat + 1));
                    lemma_div_pow2_bound(st as nat, self.stored_len(), 8);
                }
                buf[i] = byte;
                self.bit_store = self.bit_store >> 8;
                self.num_of_stored_bits = self.num_of_stored_bits - 8;
                proof {
                    assert(buf@.take(i + 1) =~= before.take(i as int) + seq![byte]);
                }
            } else {
                let byte: u8 = self.data[self.pos];
                proof {
                    assert(byte == u0[(i - ti) as int]);
                    assert(u0.take(i - ti + 1) =~= u0.take(i - ti) + seq![byte]);
                }
                buf[i] = byte;
                self.pos = self.pos + 1;
                proof {
                    assert(buf@.take(i + 1) =~= before.take(i as int) + seq![byte]);
                }
            }
            i = i + 1;
        }
        proof {
            assert(buf@.take(i as int) =~= buf@);
            assert(self.unread() =~= u0.skip(i - raw_from_store(s0, total)));
            if s0 % 8 == 0 {
                self.lemma_wf();
                lemma_raw_stream(v0, s0, u0, total);
            }
        }
    }

    /// Skips whole bytes; the stream must hold them.
    #[verifier::spinoff_prover]
    #[verifier::rlimit(30)]
    pub fn skip_bytes(&mut self, num_of_bytes: u64)
        requires
            old(self).wf(),
            8 * num_of_bytes <= u64::MAX,
            8 * num_of_bytes <= old(self).stream_len(),
        ensures
            final(self).wf(),
            final(self).stream_value() == old(self).stream_value() / pow2(8 * num_of_bytes as nat),
            final(self).stream_len() == old(self).stream_len() - 8 * num_of_bytes,
            final(self).unread().len() <= old(self).unread().len(),
            final(self).unread() == old(self).unread().skip(
                old(self).unread().len() - final(self).unread().len(),
            ),
            final(self).stored_len() % 8 == old(self).stored_len() % 8,
    {
        let mut discard_bits: u64 = num_of_bytes * 8;
        proof {
            lemma_div_pow2_zero(old(self).stream_value());
            assert(old(self).unread().skip(0) =~= old(self).unread());
        }
        loop
            invariant
                self.wf(),
                discard_bits <= self.stream_len(),
                discard_bits <= 8 * num_of_bytes,
                self.stream_value() == old(self).stream_value() / pow2(
                    (8 * num_of_bytes - discard_bits) as nat,
                ),
                self.stream_len() == old(self).stream_len() - (8 * num_of_bytes - discard_bits),
                self.unread().len() <= old(self).unread().len(),
                self.unread() == old(self).unread().skip(
                    old(self).unread().len() - self.unread().len(),
                ),
                discard_bits % 8 == 0,
                self.stored_len() % 8 == old(self).stored_len() % 8,
            decreases discard_bits,
        {
            let ghost before = *self;
            if discard_bits < 65 {
                let _x = self.read_bits(discard_bits as u8);
                proof {
                    lemma_div_pow2_twice(
                        old(self).stream_value(),
                        (8 * num_of_bytes - discard_bits) as nat,
                        discard_bits as nat,
                    );
                    assert(self.unread() =~= old(self).unread().skip(
                        old(self).unread().len() - self.unread().len(),
                    ));
                }
                return;
            }
            let _x = self.read_bits(64);
            proof {
                lemma_div_pow2_twice(
                    old(self).stream_value(),
                    (8 * num_of_bytes - discard_bits) as nat,
                    64,
                );
                assert(self.unread() =~= old(self).unread().skip(
                    old(self).unread().len() - self.unread().len(),
                ));
            }
            discard_bits = discard_bits - 64;
        }
    }
}

} // verus!
