//! A 64 KB split linear buffer for the LZ77 sliding window and buffered writes.
//!
//! The bottom half of the buffer is the LZ77 history. The top half acts as a
//! linear write buffer. Whenever the top half is close to full, its contents
//! are written to the output stream and hashed with CRC-32, the latest 32 KB
//! are copied over to the bottom half, and writing resumes at the halfway
//! point.
//!
//! The writer's model is the sequence of all bytes written through it; its
//! history is that sequence preceded by 32 KB of zeros (the buffer's initial
//! contents), which is what a back-reference reaching before the start sees.
use vstd::prelude::*;
use crate::crc32::{crc32, finalize_hasher, hasher_input, new_hasher, update_hasher};

verus! {

/// The maximum amount of data that can be written at once to the stream.
pub const MAX_LENGTH: usize = 258;

/// The size of the LZ77 sliding window.
pub const HISTORY_SIZE: usize = 32768;

/// The size of the whole split buffer.
pub const TOTAL_SIZE: usize = HISTORY_SIZE * 2;

/// `n` zero bytes.
pub open spec fn zeros(n: nat) -> Seq<u8> {
    Seq::new(n, |i: int| 0u8)
}

/// The bytes that an LZ77 back-reference produces: `length` bytes copied from
/// `distance` bytes back in `history`, where the copy may overlap the bytes
/// it produces (so the last `distance` bytes repeat).
pub open spec fn lz77_repeat(history: Seq<u8>, distance: nat, length: nat) -> Seq<u8> {
    Seq::new(length, |i: int| history[history.len() - distance + (i % (distance as int))])
}

/// Where the write index ends after writing `n` bytes by `write` calls from
/// index `wi`: each call fills the buffer's free space (up to `n`), then the
/// buffer is emptied to the history half once it is nearly full.
pub open spec fn write_all_index(wi: nat, n: nat) -> nat
    decreases n, if wi >= TOTAL_SIZE {
        1int
    } else {
        0int
    },
{
    if n == 0 {
        wi
    } else {
        let room = (TOTAL_SIZE - wi) as nat;
        let k = if n < room {
            n
        } else {
            room
        };
        let wi1 = wi + k;
        let wi2 = if wi1 > TOTAL_SIZE - MAX_LENGTH {
            HISTORY_SIZE as nat
        } else {
            wi1
        };
        if k > 0 || wi >= TOTAL_SIZE {
            write_all_index(wi2, (n - k) as nat)
        } else {
            wi
        }
    }
}

/// Copies the bytes of `src_start..src_end` to start at `dest`, as a
/// memmove (the two ranges may overlap); everything else is unchanged.
pub(crate) fn copy_within(buf: &mut Vec<u8>, src_start: usize, src_end: usize, dest: usize)
    requires
        src_start <= src_end <= old(buf).len(),
        dest + (src_end - src_start) <= old(buf).len(),
    ensures
        final(buf)@.len() == old(buf)@.len(),
        forall|i: int|
            0 <= i < old(buf)@.len() ==> #[trigger] final(buf)@[i] == if dest <= i < dest + (
            src_end - src_start) {
                old(buf)@[src_start + i - dest]
            } else {
                old(buf)@[i]
            },
{
    let n = src_end - src_start;
    if dest <= src_start {
        // Front to back: each byte is read before the copy reaches it.
        let mut k: usize = 0;
        while k < n
            invariant
                k <= n,
                n == src_end - src_start,
                dest <= src_start,
                src_end <= buf@.len(),
                dest + n <= buf@.len(),
                buf@.len() == old(buf)@.len(),
                forall|i: int|
                    0 <= i < buf@.len() ==> #[trigger] buf@[i] == if dest <= i < dest + k {
                        old(buf)@[src_start + i - dest]
                    } else {
                        old(buf)@[i]
                    },
            decreases n - k,
        {
            let b = buf[src_start + k];
            buf.set(dest + k, b);
            k = k + 1;
        }
    } else {
        // Back to front: each byte is read before the copy reaches it.
        let len = buf.len();
        let mut k: usize = n;
        while k > 0
            invariant
                len == buf@.len(),
                k <= n,
                n == src_end - src_start,
                dest > src_start,
                src_end <= buf@.len(),
                dest + n <= buf@.len(),
                buf@.len() == old(buf)@.len(),
                forall|i: int|
                    0 <= i < buf@.len() ==> #[trigger] buf@[i] == if dest + k <= i < dest + n {
                        old(buf)@[src_start + i - dest]
                    } else {
                        old(buf)@[i]
                    },
            decreases k,
        {
            let b = buf[src_start + (k - 1)];
            buf.set(dest + (k - 1), b);
            k = k - 1;
        }
    }
}

/// A writer that keeps a sliding window of history and calculates CRC-32 hashes.
pub struct CachedWriter {
    /// The wrapped stream where the writes end up going
    pub main_stream: Vec<u8>,
    /// The split linear buffer
    pub buf: Vec<u8>,
    /// The write index, dictating where to write in the buffer
    pub write_index: usize,
    /// The hasher of everything written to `main_stream`
    pub crc32_hasher: crc32fast::Hasher,
    /// What the stream held before this writer was made
    pub base: Ghost<Seq<u8>>,
    /// Everything written through this writer
    pub output: Ghost<Seq<u8>>,
}

impl CachedWriter {
    /// All bytes written, preceded by the buffer's initial zeros.
    pub open spec fn history(&self) -> Seq<u8> {
        zeros(HISTORY_SIZE as nat) + self.output@
    }

    /// The bytes written but not yet passed to the stream.
    pub open spec fn pending_len(&self) -> nat {
        (self.write_index - HISTORY_SIZE) as nat
    }

    /// The bytes already passed to the stream and the hasher.
    pub open spec fn flushed(&self) -> Seq<u8> {
        self.output@.take(self.output@.len() - self.pending_len())
    }

    /// Internal consistency of buffer, stream and hasher with what was written.
    pub open spec fn wf(&self) -> bool {
        &&& self.buf@.len() == TOTAL_SIZE
        &&& HISTORY_SIZE <= self.write_index <= TOTAL_SIZE
        &&& self.pending_len() <= self.output@.len()
        &&& self.buf@.take(self.write_index as int) == self.history().skip(
            self.history().len() - self.write_index,
        )
        &&& self.main_stream@ == self.base@ + self.flushed()
        &&& hasher_input(self.crc32_hasher) == self.flushed()
    }

    /// Creates a writer by wrapping another stream.
    pub fn new(stream: Vec<u8>) -> (w: Self)
        ensures
            w.wf(),
            w.base@ == stream@,
            w.output@ == Seq::<u8>::empty(),
            w.write_index == HISTORY_SIZE,
    {
        let ghost base = stream@;
        let w = CachedWriter {
            main_stream: stream,
            buf: vec![0u8; TOTAL_SIZE],
            write_index: HISTORY_SIZE,
            crc32_hasher: new_hasher(),
            base: Ghost(base),
            output: Ghost(Seq::empty()),
        };
        proof {
            assert(w.buf@.take(HISTORY_SIZE as int) =~= w.history().skip(
                w.history().len() - HISTORY_SIZE,
            ));
            assert(w.output@.take(0) =~= Seq::<u8>::empty());
            assert(w.main_stream@ =~= w.base@ + w.flushed());
        }
        w
    }

    /// Writes a literal byte.
    pub fn write_literal(&mut self, literal: u8)
        requires
            old(self).wf(),
            old(self).write_index < TOTAL_SIZE,
        ensures
            final(self).wf(),
            final(self).output@ == old(self).output@.push(literal),
            final(self).write_index == old(self).write_index + 1,
            final(self).base == old(self).base,
    {
        let ghost h = self.history();
        let ghost wi = self.write_index as int;
        self.buf.set(self.write_index, literal);
        self.write_index = self.write_index + 1;
        self.output = Ghost(self.output@.push(literal));
        proof {
            assert(self.history() =~= h.push(literal));
            assert(self.buf@.take(wi + 1) =~= h.skip(h.len() - wi).push(literal));
            assert(self.buf@.take(wi + 1) =~= self.history().skip(self.history().len() - (wi + 1)));
            assert(self.flushed() =~= old(self).flushed());
        }
    }

    /// Repeats `length` bytes from `distance` bytes back in the history.
    ///
    /// Where `length > distance`, the copy doubles: after the first `distance`
    /// bytes, `2 * distance`, `4 * distance`, ... bytes are copied from the
    /// freshly written ones until `length` bytes are written.
    pub fn repeat_from(&mut self, distance: usize, length: usize)
        requires
            old(self).wf(),
            1 <= distance <= old(self).write_index,
            old(self).write_index + length <= TOTAL_SIZE,
        ensures
            final(self).wf(),
            final(self).output@ == old(self).output@ + lz77_repeat(
                old(self).history(),
                distance as nat,
                length as nat,
            ),
            final(self).write_index == old(self).write_index + length,
            final(self).base == old(self).base,
    {
        let wi = self.write_index;
        let start = wi - distance;
        let ghost h = self.history();
        let ghost old_buf = self.buf@;
        let ghost rep = lz77_repeat(h, distance as nat, length as nat);
        proof {
            // the bytes before the write index are the tail of the history
            assert forall|k: int| 0 <= k < wi implies #[trigger] old_buf[k] == h[h.len() - wi + k] by {
                assert(old_buf.take(wi as int)[k] == old_buf[k]);
            }
        }
        if distance >= length {
            copy_within(&mut self.buf, start, start + length, wi);
            proof {
                assert forall|i: int| 0 <= i < length implies #[trigger] self.buf@[wi + i] == rep[i] by {
                    vstd::arithmetic::div_mod::lemma_small_mod(i as nat, distance as nat);
                }
            }
        } else {
            copy_within(&mut self.buf, start, start + distance, wi);
            let mut copied: usize = distance;
            proof {
                assert forall|i: int| 0 <= i < copied implies #[trigger] self.buf@[wi + i] == rep[i] by {
                    vstd::arithmetic::div_mod::lemma_small_mod(i as nat, distance as nat);
                }
            }
            while copied < length
                invariant
                    1 <= distance <= copied <= length,
                    copied == length || copied % distance == 0,
                    old_buf.len() == TOTAL_SIZE,
                    self.output == old(self).output,
                    self.base == old(self).base,
                    self.main_stream == old(self).main_stream,
                    self.crc32_hasher == old(self).crc32_hasher,
                    self.write_index == old(self).write_index,
                    wi + length <= TOTAL_SIZE,
                    self.buf@.len() == TOTAL_SIZE,
                    wi == old(self).write_index,
                    forall|k: int| 0 <= k < wi ==> #[trigger] self.buf@[k] == old_buf[k],
                    forall|i: int| 0 <= i < copied ==> #[trigger] self.buf@[wi + i] == rep[i],
                    rep == lz77_repeat(h, distance as nat, length as nat),
                    rep.len() == length,
                decreases length - copied,
            {
                let to_copy = if copied < length - copied {
                    copied
                } else {
                    length - copied
                };
                let ghost before = self.buf@;
                copy_within(&mut self.buf, wi, wi + to_copy, wi + copied);
                proof {
                    assert forall|i: int| 0 <= i < copied + to_copy implies #[trigger] self.buf@[wi
                        + i] == rep[i] by {
                        if i >= copied {
                            let j = i - copied;
                            assert(self.buf@[wi + i] == before[wi + j]);
                            vstd::arithmetic::div_mod::lemma_mod_multiples_vanish(
                                (copied / distance) as int,
                                j,
                                distance as int,
                            );
                            vstd::arithmetic::div_mod::lemma_fundamental_div_mod(
                                copied as int,
                                distance as int,
                            );
                            assert(i % (distance as int) == j % (distance as int));
                        }
                    }
                    assert forall|k: int| 0 <= k < wi implies #[trigger] self.buf@[k] == old_buf[k] by {
                        assert(self.buf@[k] == before[k]);
                    }
                    if to_copy == copied {
                        vstd::arithmetic::div_mod::lemma_add_mod_noop(
                            copied as int,
                            copied as int,
                            distance as int,
                        );
                    }
                }
                copied = copied + to_copy;
            }
        }
        let ghost old_out = self.output@;
        self.write_index = wi + length;
        self.output = Ghost(self.output@ + rep);
        proof {
            let nh = self.history();
            vstd::seq_lib::lemma_concat_associative(zeros(HISTORY_SIZE as nat), old_out, rep);
            assert(nh =~= h + rep);
            let nwi = (wi + length) as int;
            assert(self.buf@.take(nwi) =~= nh.skip(nh.len() - nwi)) by {
                assert forall|k: int| 0 <= k < nwi implies #[trigger] self.buf@.take(nwi)[k] == nh.skip(
                    nh.len() - nwi,
                )[k] by {
                    if k < wi {
                        assert(self.buf@[k] == old_buf[k]);
                    } else {
                        assert(self.buf@[wi + (k - wi)] == rep[k - wi]);
                    }
                }
            }
            assert(self.pending_len() == old(self).pending_len() + length);
            assert(self.output@.len() == old_out.len() + length);
            assert(self.output@.take(self.output@.len() - self.pending_len()) =~= old(self).flushed());
        }
    }

    /// Writes the pending bytes to the stream and the hasher.
    fn update_state(&mut self)
        requires
            old(self).wf(),
        ensures
            final(self).main_stream@ == old(self).base@ + old(self).output@,
            hasher_input(final(self).crc32_hasher) == old(self).output@,
            final(self).buf == old(self).buf,
            final(self).write_index == old(self).write_index,
            final(self).base == old(self).base,
            final(self).output == old(self).output,
    {
        let wi = self.write_index;
        let mut pending: Vec<u8> = Vec::new();
        let mut i: usize = HISTORY_SIZE;
        while i < wi
            invariant
                HISTORY_SIZE <= i <= wi,
                wi == self.write_index,
                *self == *old(self),
                old(self).wf(),
                pending@ == self.buf@.subrange(HISTORY_SIZE as int, i as int),
            decreases wi - i,
        {
            pending.push(self.buf[i]);
            proof {
                assert(pending@ =~= self.buf@.subrange(HISTORY_SIZE as int, i + 1));
            }
            i = i + 1;
        }
        proof {
            let h = self.history();
            let o = self.output@;
            let p = self.pending_len();
            assert forall|k: int| 0 <= k < p implies #[trigger] pending@[k] == o[o.len() - p + k] by {
                assert(self.buf@.take(wi as int)[HISTORY_SIZE + k] == h[h.len() - wi + HISTORY_SIZE + k]);
            }
            assert(self.flushed() + pending@ =~= o);
        }
        self.main_stream.extend_from_slice(pending.as_slice());
        let total = self.main_stream.len();
        proof {
            assert(self.main_stream@ =~= old(self).base@ + old(self).output@);
            assert(self.main_stream@.len() <= usize::MAX);
        }
        update_hasher(&mut self.crc32_hasher, pending.as_slice());
    }

    /// Shifts the contents of the writing buffer over to the history half,
    /// after writing and hashing them, and resets the write index to the middle.
    fn shift_to_history(&mut self)
        requires
            old(self).wf(),
        ensures
            final(self).wf(),
            final(self).write_index == HISTORY_SIZE,
            final(self).output == old(self).output,
            final(self).base == old(self).base,
    {
        self.update_state();
        let wi = self.write_index;
        let ghost h = self.history();
        let ghost old_buf = self.buf@;
        copy_within(&mut self.buf, wi - HISTORY_SIZE, wi, 0);
        self.write_index = HISTORY_SIZE;
        proof {
            assert(self.buf@.take(HISTORY_SIZE as int) =~= h.skip(h.len() - HISTORY_SIZE)) by {
                assert forall|k: int| 0 <= k < HISTORY_SIZE implies #[trigger] self.buf@.take(
                    HISTORY_SIZE as int,
                )[k] == h.skip(h.len() - HISTORY_SIZE)[k] by {
                    assert(self.buf@[k] == old_buf[wi - HISTORY_SIZE + k]);
                    assert(old_buf.take(wi as int)[wi - HISTORY_SIZE + k] == h[h.len() - wi + wi
                        - HISTORY_SIZE + k]);
                }
            }
            assert(self.output@.take(self.output@.len() as int) =~= self.output@);
        }
    }

    /// Empties the writing buffer when it is too full for one more back-reference.
    pub fn check_flush(&mut self)
        requires
            old(self).wf(),
        ensures
            final(self).wf(),
            final(self).output == old(self).output,
            final(self).base == old(self).base,
            final(self).write_index <= TOTAL_SIZE - MAX_LENGTH,
            old(self).write_index > TOTAL_SIZE - MAX_LENGTH ==> final(self).write_index
                == HISTORY_SIZE,
            old(self).write_index <= TOTAL_SIZE - MAX_LENGTH ==> *final(self) == *old(self),
    {
        if self.write_index > TOTAL_SIZE - MAX_LENGTH {
            self.shift_to_history();
        }
    }

    /// Writes as much of `data` as fits in the writing buffer, then empties
    /// the buffer if it is nearly full. Returns how much was written.
    pub fn write(&mut self, data: &[u8]) -> (n: usize)
        requires
            old(self).wf(),
        ensures
            final(self).wf(),
            n == if data@.len() < TOTAL_SIZE - old(self).write_index {
                data@.len()
            } else {
                (TOTAL_SIZE - old(self).write_index) as nat
            },
            final(self).output@ == old(self).output@ + data@.take(n as int),
            final(self).base == old(self).base,
            final(self).write_index == if old(self).write_index + n > TOTAL_SIZE - MAX_LENGTH {
                HISTORY_SIZE as int
            } else {
                old(self).write_index + n
            },
    {
        let room = TOTAL_SIZE - self.write_index;
        let write_len = if data.len() < room {
            data.len()
        } else {
            room
        };
        let mut i: usize = 0;
        while i < write_len
            invariant
                i <= write_len,
                write_len <= data@.len(),
                self.write_index == old(self).write_index,
                self.write_index + write_len <= TOTAL_SIZE,
                self.buf@.len() == TOTAL_SIZE,
                self.main_stream == old(self).main_stream,
                self.crc32_hasher == old(self).crc32_hasher,
                self.base == old(self).base,
                self.output == old(self).output,
                forall|k: int| 0 <= k < self.write_index ==> #[trigger] self.buf@[k] == old(self).buf@[k],
                forall|j: int| 0 <= j < i ==> #[trigger] self.buf@[self.write_index + j] == data@[j],
            decreases write_len - i,
        {
            self.buf.set(self.write_index + i, data[i]);
            i = i + 1;
        }
        let ghost h = self.history();
        let ghost wi = self.write_index as int;
        let ghost old_out = self.output@;
        self.write_index = self.write_index + write_len;
        self.output = Ghost(self.output@ + data@.take(write_len as int));
        proof {
            let nh = self.history();
            vstd::seq_lib::lemma_concat_associative(
                zeros(HISTORY_SIZE as nat),
                old_out,
                data@.take(write_len as int),
            );
            assert(nh =~= h + data@.take(write_len as int));
            let nwi = wi + write_len;
            assert(self.buf@.take(nwi) =~= nh.skip(nh.len() - nwi)) by {
                assert forall|k: int| 0 <= k < nwi implies #[trigger] self.buf@.take(nwi)[k] == nh.skip(
                    nh.len() - nwi,
                )[k] by {
                    if k < wi {
                        assert(old(self).buf@.take(wi)[k] == h[h.len() - wi + k]);
                    } else {
                        assert(self.buf@[wi + (k - wi)] == data@[k - wi]);
                    }
                }
            }
            assert(self.output@.take(self.output@.len() - self.pending_len()) =~= old(self).flushed());
        }
        self.check_flush();
        write_len
    }

    /// Writes all of `data`, by `write` calls until none is left.
    pub fn write_all(&mut self, data: &[u8])
        requires
            old(self).wf(),
        ensures
            final(self).wf(),
            final(self).output@ == old(self).output@ + data@,
            final(self).base == old(self).base,
            final(self).write_index == write_all_index(old(self).write_index as nat, data@.len()),
    {
        let mut done: usize = 0;
        while done < data.len()
            invariant
                self.wf(),
                done <= data@.len(),
                self.output@ == old(self).output@ + data@.take(done as int),
                self.base == old(self).base,
                write_all_index(old(self).write_index as nat, data@.len()) == write_all_index(
                    self.write_index as nat,
                    (data@.len() - done) as nat,
                ),
            decreases data@.len() - done, if self.write_index >= TOTAL_SIZE {
                1int
            } else {
                0int
            },
        {
            let rest = vstd::slice::slice_subrange(data, done, data.len());
            let ghost before = self.output@;
            let n = self.write(rest);
            proof {
                assert(data@.take(done + n) =~= data@.take(done as int) + rest@.take(n as int));
                vstd::seq_lib::lemma_concat_associative(
                    old(self).output@,
                    data@.take(done as int),
                    rest@.take(n as int),
                );
            }
            done = done + n;
        }
        proof {
            assert(data@.take(done as int) =~= data@);
        }
    }

    /// Flushing the wrapped vector does nothing.
    pub fn flush(&mut self)
        ensures
            *final(self) == *old(self),
    {
    }

    /// Writes the pending bytes and returns the stream with the CRC-32 of
    /// everything written through this writer.
    pub fn finalize(self) -> (r: (Vec<u8>, u32))
        requires
            self.wf(),
        ensures
            r.0@ == self.base@ + self.output@,
            r.1 == crc32(self.output@),
    {
        let mut w = self;
        w.update_state();
        let CachedWriter { main_stream, crc32_hasher, .. } = w;
        (main_stream, finalize_hasher(crc32_hasher))
    }
}

} // verus!
