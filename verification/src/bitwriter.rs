//! A writer that packs bits least-significant first into bytes.
//!
//! Its model is one number: the bytes written so far, read little-endian,
//! with the bits still held in the store above them.
use vstd::prelude::*;
use vstd::arithmetic::power2::*;
use crate::numeric::{
    le_bytes, le_value, lemma_div_pow2_bound, lemma_div_pow2_twice, lemma_div_pow2_zero,
    lemma_le_bytes_snoc, lemma_le_bytes_value, lemma_le_value_append, lemma_pow2_128,
    lemma_pow2_stack_bound, lemma_u128_low_mask, lemma_u128_or_above, lemma_u128_pow2,
    lemma_u128_shl, lemma_u128_shr,
};

verus! {

/// The writer flushes its store before it would reach this many bits.
pub const STORE_SIZE: u8 = 128;

/// A bit writer over an output byte stream.
pub struct BitWriter {
    /// The output stream
    pub data: Vec<u8>,
    /// The internal bit buffer
    pub bit_store: u128,
    /// The amount of bits actually stored in the buffer
    pub bit_count: u8,
}

/// `v` keeps its lowest `8 k` bits as bytes and the rest in the store.
proof fn lemma_flush_value(prefix: Seq<u8>, store: nat, k: nat)
    ensures
        le_value(prefix + le_bytes(store, k)) + pow2(8 * (prefix.len() + k)) * (store / pow2(8 * k))
            == le_value(prefix) + pow2(8 * prefix.len()) * store,
{
    let lb = le_bytes(store, k);
    lemma_le_bytes_value(store, k);
    lemma_le_value_append(prefix, lb);
    let p = pow2(8 * prefix.len());
    let q = pow2(8 * k);
    lemma_pow2_pos(8 * k);
    lemma_pow2_adds(8 * prefix.len(), 8 * k);
    assert(8 * (prefix.len() + k) == 8 * prefix.len() + 8 * k);
    vstd::arithmetic::div_mod::lemma_fundamental_div_mod(store as int, q as int);
    let r = store % q;
    let d = store / q;
    assert(p * r + (p * q) * d == p * (q * d + r)) by (nonlinear_arith);
}

impl BitWriter {
    /// Internal consistency: the store holds fewer than 128 bits, and none above its count.
    pub open spec fn wf(&self) -> bool {
        &&& self.bit_count < 128
        &&& (self.bit_store as nat) < pow2(self.bit_count as nat)
    }

    /// Everything written, as one number: the output bytes, then the held bits above them.
    pub open spec fn written_value(&self) -> nat {
        le_value(self.data@) + pow2(8 * self.data@.len()) * self.bit_store as nat
    }

    /// How many bits have been written.
    pub open spec fn written_len(&self) -> nat {
        8 * self.data@.len() + self.bit_count as nat
    }

    /// Wraps an output stream; no bits are held.
    pub fn new(data: Vec<u8>) -> (w: Self)
        ensures
            w.wf(),
            w.data@ == data@,
            w.bit_store == 0,
            w.bit_count == 0,
    {
        proof {
            vstd::arithmetic::power2::lemma2_to64();
        }
        BitWriter { data, bit_store: 0, bit_count: 0 }
    }

    /// Packs the lowest `count` bits of `bits` above the bits already held,
    /// first flushing full bytes when the store would overflow.
    pub fn write_bits(&mut self, bits: u16, count: u8)
        requires
            old(self).wf(),
            count <= 120,
        ensures
            final(self).wf(),
            final(self).written_value() == old(self).written_value() + pow2(old(self).written_len())
                * (bits as nat % pow2(count as nat)),
            final(self).written_len() == old(self).written_len() + count,
            final(self).data@ == if old(self).bit_count + count >= STORE_SIZE {
                old(self).data@ + le_bytes(old(self).bit_store as nat, old(self).bit_count as nat / 8)
            } else {
                old(self).data@
            },
            old(self).bit_count + count < STORE_SIZE ==> {
                &&& final(self).bit_count == old(self).bit_count + count
                &&& final(self).bit_store as nat == old(self).bit_store as nat + pow2(
                    old(self).bit_count as nat,
                ) * (bits as nat % pow2(count as nat))
            },
            old(self).bit_count + count >= STORE_SIZE ==> {
                &&& final(self).bit_count == old(self).bit_count % 8 + count
                &&& final(self).bit_store as nat == old(self).bit_store as nat / pow2(
                    8 * (old(self).bit_count as nat / 8),
                ) + pow2((old(self).bit_count % 8) as nat) * (bits as nat % pow2(count as nat))
            },
    {
        if self.bit_count + count >= STORE_SIZE {
            self.flush_bytes();
        }
        let ghost mid_store = self.bit_store as nat;
        let c: u128 = count as u128;
        proof {
            lemma_u128_pow2(c);
            lemma_pow2_pos(c as nat);
        }
        let mask: u128 = (1u128 << c) - 1;
        let value: u128 = (bits as u128) & mask;
        let shift: u128 = self.bit_count as u128;
        proof {
            let bc = shift as nat;
            let x = value as nat;
            assert(mask == ((1u128 << c) - 1) as u128);
            lemma_u128_low_mask(bits as u128, c);
            assert(x == bits as nat % pow2(c as nat));
            lemma_pow2_pos(c as nat);
            vstd::arithmetic::div_mod::lemma_mod_bound(bits as int, pow2(c as nat) as int);
            lemma_pow2_stack_bound(self.bit_store as nat, x, bc, c as nat);
            assert(bc + c <= 128);
            lemma_pow2_128();
            if bc + c < 128 {
                lemma_pow2_strictly_increases(bc + c as nat, 128);
            }
            lemma_pow2_pos(bc);
            assert(x * pow2(bc) <= self.bit_store as nat + pow2(bc) * x) by (nonlinear_arith);
            lemma_u128_shl(value, shift);
            lemma_u128_pow2(shift);
            lemma_u128_or_above(self.bit_store, value, shift);
            lemma_pow2_adds(8 * self.data@.len(), bc);
            let p = pow2(8 * self.data@.len());
            let pb = pow2(bc);
            assert(p * (self.bit_store as nat + x * pb) == p * self.bit_store as nat + (p * pb) * x)
                by (nonlinear_arith);
        }
        self.bit_store = self.bit_store | (value << shift);
        self.bit_count = self.bit_count + count;
        proof {
            vstd::arithmetic::mul::lemma_mul_is_commutative(value as int, pow2(shift as nat) as int);
        }
    }

    /// Pads the held bits with zeros up to a byte boundary and writes them all out.
    pub fn force_align(&mut self)
        requires
            old(self).wf(),
        ensures
            final(self).wf(),
            final(self).bit_count == 0,
            final(self).bit_store == 0,
            final(self).data@ == old(self).data@ + le_bytes(
                old(self).bit_store as nat,
                (old(self).bit_count as nat + 7) / 8,
            ),
            final(self).written_value() == old(self).written_value(),
            final(self).written_len() == 8 * ((old(self).written_len() + 7) / 8),
    {
        let remainder = self.bit_count % 8;
        if remainder != 0 {
            proof {
                vstd::arithmetic::power2::lemma_pow2_strictly_increases(
                    self.bit_count as nat,
                    (self.bit_count + 8 - remainder) as nat,
                );
            }
            self.bit_count = self.bit_count + (8 - remainder);
        }
        self.flush_bytes();
        proof {
            vstd::arithmetic::power2::lemma2_to64();
            lemma_div_pow2_bound(
                old(self).bit_store as nat,
                old(self).bit_count as nat,
                0,
            );
            let full = (old(self).bit_count as nat + 7) / 8;
            lemma_div_pow2_bound(
                old(self).bit_store as nat,
                8 * full,
                8 * full,
            );
        }
    }

    /// Writes the full bytes held in the store to the output stream and keeps the rest.
    pub fn flush_bytes(&mut self)
        requires
            old(self).bit_count <= 128,
            (old(self).bit_store as nat) < pow2(old(self).bit_count as nat),
        ensures
            final(self).wf(),
            final(self).data@ == old(self).data@ + le_bytes(
                old(self).bit_store as nat,
                old(self).bit_count as nat / 8,
            ),
            final(self).bit_count == old(self).bit_count % 8,
            final(self).bit_store as nat == old(self).bit_store as nat / pow2(
                8 * (old(self).bit_count as nat / 8),
            ),
            final(self).written_value() == old(self).written_value(),
            final(self).written_len() == old(self).written_len(),
    {
        let full_byte_count: u8 = self.bit_count / 8;
        let ghost d0 = self.data@;
        let ghost v0 = self.bit_store as nat;
        let mut i: u8 = 0;
        proof {
            assert(le_bytes(v0, 0) =~= Seq::<u8>::empty());
            assert(d0 + le_bytes(v0, 0) =~= d0);
        }
        while i < full_byte_count
            invariant
                i <= full_byte_count,
                full_byte_count <= 16,
                self.bit_store as nat == v0,
                self.bit_count == old(self).bit_count,
                self.data@ == d0 + le_bytes(v0, i as nat),
            decreases full_byte_count - i,
        {
            let shift: u128 = (8 * i) as u128;
            let byte: u8 = ((self.bit_store >> shift) & 0xFF) as u8;
            proof {
                let y = self.bit_store >> shift;
                lemma_u128_shr(self.bit_store, shift);
                assert(y & 0xFFu128 == y % 256) by (bit_vector);
                lemma_le_bytes_snoc(v0, i as nat);
                assert(d0 + le_bytes(v0, i as nat + 1) =~= self.data@.push(byte));
            }
            self.data.push(byte);
            i = i + 1;
        }
        proof {
            lemma_flush_value(d0, v0, full_byte_count as nat);
            lemma_le_bytes_value(v0, full_byte_count as nat);
            lemma_div_pow2_bound(v0, old(self).bit_count as nat, 8 * full_byte_count as nat);
        }
        if full_byte_count >= 16 {
            proof {
                lemma_pow2_128();
                vstd::arithmetic::div_mod::lemma_basic_div(v0 as int, pow2(128) as int);
            }
            self.bit_store = 0;
        } else {
            proof {
                lemma_u128_shr(self.bit_store, (8 * full_byte_count) as u128);
            }
            self.bit_store = self.bit_store >> ((8 * full_byte_count) as u128);
        }
        self.bit_count = self.bit_count - full_byte_count * 8;
    }
}

} // verus!
