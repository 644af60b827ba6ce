//! CRC-32 (IEEE 802.3, reflected polynomial `0xEDB88320`): its definition,
//! a table-driven checksumming writer proved against it, and the
//! `crc32fast::Hasher` that the (de)compressor uses, specified by it.
use vstd::prelude::*;

verus! {

/// The reflected CRC-32 generator polynomial.
pub const POLYNOMIAL: u32 = 0xEDB8_8320;

/// One bit step of the reflected CRC-32 shift register.
pub open spec fn crc_step(c: u32) -> u32 {
    if c & 1 == 1 {
        0xEDB8_8320u32 ^ (c >> 1u32)
    } else {
        c >> 1u32
    }
}

/// Eight bit steps: the register after one byte has been shifted in.
pub open spec fn crc_byte_steps(c: u32) -> u32 {
    crc_step(crc_step(crc_step(crc_step(crc_step(crc_step(crc_step(crc_step(c))))))))
}

/// `k` bit steps.
pub open spec fn crc_steps(c: u32, k: nat) -> u32
    decreases k,
{
    if k == 0 {
        c
    } else {
        crc_step(crc_steps(c, (k - 1) as nat))
    }
}

/// The register after feeding one byte.
pub open spec fn crc_update_byte(state: u32, byte: u8) -> u32 {
    crc_byte_steps(state ^ (byte as u32))
}

/// The register after feeding `data`, byte by byte, starting from `state`.
pub open spec fn crc_fold(state: u32, data: Seq<u8>) -> u32
    decreases data.len(),
{
    if data.len() == 0 {
        state
    } else {
        crc_update_byte(crc_fold(state, data.drop_last()), data.last())
    }
}

/// The CRC-32 checksum of `data`: register preset to all ones, final value inverted.
pub open spec fn crc32(data: Seq<u8>) -> u32 {
    crc_fold(0xFFFF_FFFFu32, data) ^ 0xFFFF_FFFFu32
}

/// Eight single steps make one byte step.
pub proof fn lemma_crc_steps_eight(c: u32)
    ensures
        crc_steps(c, 8) == crc_byte_steps(c),
{
    reveal_with_fuel(crc_steps, 9);
}

/// The table identity: a byte step on `x` is the table entry of its low byte
/// combined with the rest of the register shifted down.
pub proof fn lemma_crc_table_identity(x: u32)
    ensures
        crc_byte_steps(x) == (x >> 8u32) ^ crc_byte_steps(x & 0xFFu32),
{
    assert(crc_byte_steps(x) == (x >> 8u32) ^ crc_byte_steps(x & 0xFFu32)) by (bit_vector);
}

/// Feeding two pieces one after the other is feeding their concatenation.
pub proof fn lemma_crc_fold_append(state: u32, a: Seq<u8>, b: Seq<u8>)
    ensures
        crc_fold(crc_fold(state, a), b) == crc_fold(state, a + b),
    decreases b.len(),
{
    if b.len() == 0 {
        assert(a + b =~= a);
    } else {
        lemma_crc_fold_append(state, a, b.drop_last());
        assert((a + b).drop_last() =~= a + b.drop_last());
    }
}

/// The 256-entry lookup table: entry `n` is byte `n` shifted through the register.
fn crc32_table() -> (table: Vec<u32>)
    ensures
        table.len() == 256,
        forall|i: int| 0 <= i < 256 ==> table[i] == crc_byte_steps(i as u32),
{
    let mut table: Vec<u32> = Vec::new();
    let mut n: u32 = 0;
    while n < 256
        invariant
            n <= 256,
            table.len() == n,
            forall|i: int| 0 <= i < n ==> table[i] == crc_byte_steps(i as u32),
        decreases 256 - n,
    {
        let mut c: u32 = n;
        let mut k: u8 = 0;
        while k < 8
            invariant
                k <= 8,
                c == crc_steps(n, k as nat),
            decreases 8 - k,
        {
            if (c & 1) == 1 {
                c = POLYNOMIAL ^ (c >> 1);
            } else {
                c >>= 1;
            }
            k = k + 1;
        }
        proof {
            lemma_crc_steps_eight(n);
        }
        table.push(c);
        n = n + 1;
    }
    table
}

/// A writer that passes everything it is given on to its stream and keeps
/// the CRC-32 and the byte count (modulo `2^32`) of all of it.
pub struct Crc32 {
    stream: Vec<u8>,
    state: u32,
    isize: u32,
    table: Vec<u32>,
    written: Ghost<Seq<u8>>,
}

impl Crc32 {
    /// Everything written so far.
    pub closed spec fn written(&self) -> Seq<u8> {
        self.written@
    }

    /// The wrapped stream.
    pub closed spec fn stream(&self) -> Seq<u8> {
        self.stream@
    }

    /// The writer's internal consistency.
    pub closed spec fn wf(&self) -> bool {
        &&& self.table.len() == 256
        &&& forall|i: int| 0 <= i < 256 ==> self.table[i] == crc_byte_steps(i as u32)
        &&& self.state == crc_fold(0xFFFF_FFFFu32, self.written@)
        &&& self.isize as nat == self.written@.len() % 0x1_0000_0000
    }

    /// Wraps `stream`; nothing has been written yet.
    pub fn new(stream: Vec<u8>) -> (crc: Self)
        ensures
            crc.wf(),
            crc.written() == Seq::<u8>::empty(),
            crc.stream() == stream@,
    {
        Crc32 {
            state: u32::MAX,
            stream,
            isize: 0,
            table: crc32_table(),
            written: Ghost(Seq::empty()),
        }
    }

    /// Shifts every byte of `buf` through the register, one table lookup per byte.
    fn update(&mut self, buf: &[u8])
        requires
            old(self).wf(),
        ensures
            final(self).table == old(self).table,
            final(self).stream == old(self).stream,
            final(self).isize == old(self).isize,
            final(self).written@ == old(self).written@,
            final(self).state == crc_fold(old(self).state, buf@),
    {
        let mut i: usize = 0;
        while i < buf.len()
            invariant
                i <= buf.len(),
                self.table == old(self).table,
                self.stream == old(self).stream,
                self.isize == old(self).isize,
                self.written@ == old(self).written@,
                self.table.len() == 256,
                forall|j: int| 0 <= j < 256 ==> self.table[j] == crc_byte_steps(j as u32),
                self.state == crc_fold(old(self).state, buf@.take(i as int)),
            decreases buf.len() - i,
        {
            let byte = buf[i];
            let index_stub = self.state ^ (byte as u32);
            let index = (index_stub & 0xFF) as usize;
            proof {
                lemma_crc_table_identity(index_stub);
                let s = self.state;
                assert((s ^ (byte as u32)) >> 8u32 == s >> 8u32) by (bit_vector)
                    requires
                        byte < 256,
                ;
                assert(index_stub & 0xFFu32 < 256) by (bit_vector);
                assert(buf@.take(i + 1).drop_last() =~= buf@.take(i as int));
                assert(buf@.take(i + 1).last() == byte);
            }
            assert(index as u32 == index_stub & 0xFFu32);
            assert(self.table[index as int] == crc_byte_steps(index_stub & 0xFFu32));
            self.state = (self.state >> 8) ^ self.table[index];
            i = i + 1;
        }
        assert(buf@.take(i as int) =~= buf@);
    }

    /// The checksum of everything written so far.
    fn finalize(&self) -> (r: u32)
        requires
            self.wf(),
        ensures
            r == crc32(self.written()),
    {
        self.state ^ u32::MAX
    }

    /// The CRC-32 and the length (modulo `2^32`) of everything written so far.
    pub fn get_hashes(&self) -> (r: (u32, u32))
        requires
            self.wf(),
        ensures
            r.0 == crc32(self.written()),
            r.1 as nat == self.written().len() % 0x1_0000_0000,
    {
        (self.finalize(), self.isize)
    }

    /// Writes all of `buf` to the stream and takes it into the checksum.
    /// Returns how many bytes were written: all of them.
    pub fn write(&mut self, buf: &[u8]) -> (n: usize)
        requires
            old(self).wf(),
            buf.len() <= u32::MAX,
        ensures
            final(self).wf(),
            n == buf.len(),
            final(self).written() == old(self).written() + buf@,
            final(self).stream() == old(self).stream() + buf@,
    {
        self.update(buf);
        let len = buf.len() as u32;
        self.isize = self.isize.wrapping_add(len);
        self.stream.extend_from_slice(buf);
        proof {
            lemma_crc_fold_append(0xFFFF_FFFFu32, self.written@, buf@);
            self.written = Ghost(self.written@ + buf@);
            let old_len = old(self).written@.len();
            assert(self.isize as nat == (old(self).isize as nat + buf@.len()) % 0x1_0000_0000);
            assert((old_len % 0x1_0000_0000 + buf@.len()) % 0x1_0000_0000 == (old_len + buf@.len()) % 0x1_0000_0000) by {
                vstd::arithmetic::div_mod::lemma_add_mod_noop(old_len as int, buf@.len() as int, 0x1_0000_0000);
                vstd::arithmetic::div_mod::lemma_mod_twice(buf@.len() as int, 0x1_0000_0000);
                vstd::arithmetic::div_mod::lemma_small_mod(buf@.len(), 0x1_0000_0000);
            }
        }
        buf.len()
    }

    /// Nothing is held back, so flushing does nothing.
    pub fn flush(&mut self)
        ensures
            *final(self) == *old(self),
    {
    }
}

// ---------------------------------------------------------------------------
// crc32fast

/// Declares `crc32fast::Hasher` so that it can stand in signatures and
/// fields; its contents stay opaque, and `hasher_input` names what it was fed.
#[verifier::external_type_specification]
#[verifier::external_body]
pub struct ExHasher(crc32fast::Hasher);

/// The bytes that a `crc32fast::Hasher` has been fed since it was made.
pub uninterp spec fn hasher_input(hasher: crc32fast::Hasher) -> Seq<u8>;

/// Calls `crc32fast::Hasher::new`: a hasher that has been fed nothing.
#[verifier::external_body]
pub(crate) fn new_hasher() -> (hasher: crc32fast::Hasher)
    ensures
        hasher_input(hasher) == Seq::<u8>::empty(),
{
    crc32fast::Hasher::new()
}

/// Calls `crc32fast::Hasher::update`: the bytes of `data` are fed after the
/// earlier ones. Its byte counter is a `u64`, which `requires` keeps from
/// overflowing.
#[verifier::external_body]
pub(crate) fn update_hasher(hasher: &mut crc32fast::Hasher, data: &[u8])
    requires
        hasher_input(*old(hasher)).len() + data@.len() <= u64::MAX,
    ensures
        hasher_input(*final(hasher)) == hasher_input(*old(hasher)) + data@,
{
    hasher.update(data)
}

/// Calls `crc32fast::Hasher::finalize`: the CRC-32 (IEEE) of all bytes fed.
#[verifier::external_body]
pub(crate) fn finalize_hasher(hasher: crc32fast::Hasher) -> (checksum: u32)
    ensures
        checksum == crc32(hasher_input(hasher)),
{
    hasher.finalize()
}

} // verus!
