//! Bit sinks: the `BitBufMut` capability trait and the `BitSliceMut` cursor
//! over an owned byte buffer.

use vstd::prelude::*;

use crate::bits::byte_bits;
use crate::bits::lemma_spliced_adjacent;
use crate::bits::lemma_spliced_empty;
use crate::bits::lemma_spliced_push;
use crate::bits::spliced;
use crate::bits::stream;
use crate::slice_ops::fits_bits;
use crate::slice_ops::read_bit_at;
use crate::slice_ops::read_byte_at;
use crate::slice_ops::write_bit_at;
use crate::slice_ops::write_byte_at;
use crate::Insufficient;
use crate::Overflow;
use crate::UnalignedError;
use vstd::math::min;

verus! {

/// Anything that accepts bits on demand: a cursor over an owned buffer, or a
/// staged wrapper's view of its target. `all_bits()` is the target's entire
/// current bit content; writes land at offset `position()` and every bit
/// outside the span a call writes is kept. `produced()` counts the bits
/// actually written, as `len()` reports: skipping with `advance` moves the
/// position but produces nothing.
pub trait BitBufMut: Sized {
    /// The sink's state is consistent.
    spec fn wf(&self) -> bool;

    /// The target's entire current contents as bits.
    spec fn all_bits(&self) -> Seq<bool>;

    /// The offset at which the next write lands.
    spec fn position(&self) -> nat;

    /// How many bits have been written since construction.
    spec fn produced(&self) -> nat;

    /// The write position never lies past the end of the target.
    proof fn position_in_range(&self)
        requires
            self.wf(),
        ensures
            self.position() <= self.all_bits().len(),
    ;

    /// The number of bits written since construction.
    fn len(&self) -> (r: usize)
        requires
            self.wf(),
        ensures
            r == self.produced(),
    ;

    /// The number of bits the target can still accept.
    fn remaining(&self) -> (r: usize)
        requires
            self.wf(),
        ensures
            r == self.all_bits().len() - self.position(),
    ;

    /// Skips `bits` bits, leaving their current contents in place and writing
    /// nothing; on failure the position is untouched.
    fn advance(&mut self, bits: usize) -> (r: Result<(), Insufficient>)
        requires
            old(self).wf(),
        ensures
            final(self).wf(),
            match r {
                Ok(()) => bits <= old(self).all_bits().len() - old(self).position() && final(self).all_bits() == old(self).all_bits() && final(self).position() == old(self).position()
                    + bits && final(self).produced() == old(self).produced(),
                Err(_) => bits > old(self).all_bits().len() - old(self).position() && *final(self)
                    == *old(self),
            },
    ;

    /// Writes one bit at the current position, touching no other bit; fails
    /// exactly when no room remains.
    fn write_bool(&mut self, item: bool) -> (r: Result<(), Insufficient>)
        requires
            old(self).wf(),
        ensures
            final(self).wf(),
            match r {
                Ok(()) => old(self).all_bits().len() - old(self).position() >= 1 && final(self).all_bits() == old(self).all_bits().update(old(self).position() as int, item) && final(self).position() == old(self).position() + 1 && final(self).produced() == old(self).produced() + 1,
                Err(_) => old(self).all_bits().len() == old(self).position() && *final(self)
                    == *old(self),
            },
    ;

    /// Writes up to `bits` bits taken from the front of `data`'s bit stream,
    /// clamped to the room that remains; fails with `Overflow`, moving
    /// nothing, exactly when `data` is too small in bytes for the clamped
    /// count.
    fn write(&mut self, data: &[u8], bits: usize) -> (r: Result<usize, Overflow>)
        requires
            old(self).wf(),
        ensures
            final(self).wf(),
            ({
                let b = min(bits as int, old(self).all_bits().len() - old(self).position());
                match r {
                    Ok(n) => data@.len() * 8 >= b && n == b && final(self).all_bits() == spliced(
                        old(self).all_bits(),
                        old(self).position() as int,
                        stream(data@).take(b),
                    ) && final(self).position() == old(self).position() + b && final(self).produced() == old(self).produced() + b,
                    Err(_) => data@.len() * 8 < b && *final(self) == *old(self),
                }
            }),
    ;

    /// All-or-nothing write: moves nothing unless room for `bits` bits
    /// remains and `data` holds them. Running out of room is `Insufficient`;
    /// a `data` too small in bytes is `Overflow`.
    fn write_all(&mut self, data: &[u8], bits: usize) -> (r: Result<(), UnalignedError>)
        requires
            old(self).wf(),
        ensures
            final(self).wf(),
            if bits > old(self).all_bits().len() - old(self).position() {
                &&& r matches Err(UnalignedError::Insufficient(_))
                &&& *final(self) == *old(self)
            } else if data@.len() * 8 < bits {
                &&& r matches Err(UnalignedError::Overflow(_))
                &&& *final(self) == *old(self)
            } else {
                &&& r matches Ok(())
                &&& final(self).all_bits() == spliced(
                    old(self).all_bits(),
                    old(self).position() as int,
                    stream(data@).take(bits as int),
                )
                &&& final(self).position() == old(self).position() + bits
                &&& final(self).produced() == old(self).produced() + bits
            },
    {
        if bits > self.remaining() {
            Err(UnalignedError::Insufficient(Insufficient))
        } else {
            match self.write(data, bits) {
                Ok(_) => Ok(()),
                Err(e) => Err(UnalignedError::Overflow(e)),
            }
        }
    }

    /// Writes the eight bits of one byte, most significant first, at the
    /// current position; fails exactly when fewer than eight bits of room
    /// remain.
    fn write_byte(&mut self, data: u8) -> (r: Result<(), Insufficient>)
        requires
            old(self).wf(),
        ensures
            final(self).wf(),
            match r {
                Ok(()) => old(self).all_bits().len() - old(self).position() >= 8 && final(self).all_bits() == spliced(
                    old(self).all_bits(),
                    old(self).position() as int,
                    byte_bits(data),
                ) && final(self).position() == old(self).position() + 8 && final(self).produced()
                    == old(self).produced() + 8,
                Err(_) => old(self).all_bits().len() - old(self).position() < 8 && *final(self)
                    == *old(self),
            },
    ;

    /// Writes as much of `data` as fits, clamped to the room that remains;
    /// returns the number of bits moved.
    fn write_aligned(&mut self, data: &[u8]) -> (r: usize)
        requires
            old(self).wf(),
            data@.len() * 8 <= usize::MAX,
        ensures
            final(self).wf(),
            ({
                let b = min(
                    data@.len() * 8 as int,
                    old(self).all_bits().len() - old(self).position(),
                );
                &&& r == b
                &&& final(self).all_bits() == spliced(
                    old(self).all_bits(),
                    old(self).position() as int,
                    stream(data@).take(b),
                )
                &&& final(self).position() == old(self).position() + b
                &&& final(self).produced() == old(self).produced() + b
            }),
    {
        match self.write(data, data.len() * 8) {
            Ok(n) => n,
            Err(_) => 0,
        }
    }

    /// All-or-nothing write of the whole of `data`; moves nothing unless room
    /// for `data.len() * 8` bits remains.
    fn write_aligned_all(&mut self, data: &[u8]) -> (r: Result<(), Insufficient>)
        requires
            old(self).wf(),
            data@.len() * 8 <= usize::MAX,
        ensures
            final(self).wf(),
            if data@.len() * 8 > old(self).all_bits().len() - old(self).position() {
                &&& r matches Err(_)
                &&& *final(self) == *old(self)
            } else {
                &&& r matches Ok(())
                &&& final(self).all_bits() == spliced(
                    old(self).all_bits(),
                    old(self).position() as int,
                    stream(data@),
                )
                &&& final(self).position() == old(self).position() + data@.len() * 8
                &&& final(self).produced() == old(self).produced() + data@.len() * 8
            },
    {
        let bits = data.len() * 8;
        if bits > self.remaining() {
            Err(Insufficient)
        } else {
            let r = self.write(data, bits);
            proof {
                assert(stream(data@).take(bits as int) =~= stream(data@));
            }
            match r {
                Ok(_) => Ok(()),
                Err(_) => Err(Insufficient),
            }
        }
    }
}

/// A write cursor over an owned byte buffer: the buffer, the position of the
/// next write (whose low three bits are the sub-byte prefix), and the count
/// of bits actually written. Every partial-byte mutation is a masked merge,
/// so bits outside the written field always survive.
#[derive(Debug)]
pub struct BitSliceMut {
    data: Vec<u8>,
    pos: usize,
    len: usize,
}

impl BitSliceMut {
    /// A cursor positioned at the first bit of `data`.
    pub fn new(data: Vec<u8>) -> (r: Self)
        requires
            data@.len() * 8 <= usize::MAX,
        ensures
            r.wf(),
            r.all_bits() == stream(data@),
            r.position() == 0,
            r.produced() == 0,
    {
        BitSliceMut { data, pos: 0, len: 0 }
    }

    /// Gives the buffer back; whatever was written through the cursor is in
    /// it.
    pub fn into_inner(self) -> (r: Vec<u8>)
        ensures
            stream(r@) == self.all_bits(),
            r@.len() * 8 == self.all_bits().len(),
    {
        self.data
    }
}

impl BitBufMut for BitSliceMut {
    closed spec fn wf(&self) -> bool {
        self.len <= self.pos <= self.data@.len() * 8 <= usize::MAX
    }

    closed spec fn all_bits(&self) -> Seq<bool> {
        stream(self.data@)
    }

    closed spec fn position(&self) -> nat {
        self.pos as nat
    }

    closed spec fn produced(&self) -> nat {
        self.len as nat
    }

    proof fn position_in_range(&self) {
    }

    fn len(&self) -> (r: usize) {
        self.len
    }

    fn remaining(&self) -> (r: usize) {
        self.data.len() * 8 - self.pos
    }

    fn advance(&mut self, bits: usize) -> (r: Result<(), Insufficient>) {
        let rem = self.data.len() * 8 - self.pos;
        if bits > rem {
            return Err(Insufficient);
        }
        self.pos = self.pos + bits;
        Ok(())
    }

    fn write_bool(&mut self, item: bool) -> (r: Result<(), Insufficient>) {
        let rem = self.data.len() * 8 - self.pos;
        if rem == 0 {
            return Err(Insufficient);
        }
        write_bit_at(self.data.as_mut_slice(), self.pos, item);
        self.pos = self.pos + 1;
        self.len = self.len + 1;
        Ok(())
    }

    fn write_byte(&mut self, data: u8) -> (r: Result<(), Insufficient>) {
        let rem = self.data.len() * 8 - self.pos;
        if rem < 8 {
            return Err(Insufficient);
        }
        write_byte_at(self.data.as_mut_slice(), self.pos, data);
        self.pos = self.pos + 8;
        self.len = self.len + 8;
        Ok(())
    }

    fn write(&mut self, data: &[u8], bits: usize) -> (r: Result<usize, Overflow>) {
        let rem = self.data.len() * 8 - self.pos;
        let b = if bits > rem {
            rem
        } else {
            bits
        };
        if !fits_bits(data.len(), b) {
            return Err(Overflow);
        }
        let ghost t = stream(data@).take(b as int);
        let ghost all0 = stream(self.data@);
        let ghost p0 = self.pos as int;
        let bytes = b / 8;
        let tail = b % 8;
        proof {
            lemma_spliced_empty(all0, p0);
            assert(t.take(0) =~= Seq::<bool>::empty());
            assert(bytes <= data@.len());
        }
        let mut i: usize = 0;
        while i < bytes
            invariant
                i <= bytes,
                bytes == b / 8,
                tail == b % 8,
                b <= rem,
                rem == self.data@.len() * 8 - p0,
                0 <= p0,
                self.data@.len() * 8 <= usize::MAX,
                bytes <= data@.len(),
                data@.len() * 8 >= b,
                t == stream(data@).take(b as int),
                t.len() == b,
                self.pos == p0 + 8 * i,
                self.len == old(self).len,
                all0.len() == self.data@.len() * 8,
                stream(self.data@) == spliced(all0, p0, t.take(8 * i)),
            decreases bytes - i,
        {
            let byte = read_byte_at(data, 8 * i);
            write_byte_at(self.data.as_mut_slice(), self.pos, byte);
            proof {
                assert(byte_bits(byte) =~= t.subrange(8 * i as int, 8 * i as int + 8));
                lemma_spliced_adjacent(all0, p0, t.take(8 * i as int), byte_bits(byte));
                assert(t.take(8 * i as int) + t.subrange(8 * i as int, 8 * i as int + 8) =~= t.take(
                    8 * (i + 1) as int,
                ));
            }
            self.pos = self.pos + 8;
            i = i + 1;
        }
        let mut k: usize = 0;
        while k < tail
            invariant
                k <= tail,
                bytes == b / 8,
                tail == b % 8,
                b <= rem,
                rem == self.data@.len() * 8 - p0,
                0 <= p0,
                self.data@.len() * 8 <= usize::MAX,
                data@.len() * 8 >= b,
                t == stream(data@).take(b as int),
                t.len() == b,
                self.pos == p0 + 8 * bytes + k,
                self.len == old(self).len,
                all0.len() == self.data@.len() * 8,
                stream(self.data@) == spliced(all0, p0, t.take(8 * bytes + k)),
            decreases tail - k,
        {
            let v = read_bit_at(data, 8 * bytes + k);
            write_bit_at(self.data.as_mut_slice(), self.pos, v);
            proof {
                assert(v == t[8 * bytes + k]);
                lemma_spliced_push(all0, p0, t.take(8 * bytes + k as int), v);
                assert(t.take(8 * bytes + k as int).push(t[8 * bytes + k as int]) =~= t.take(
                    8 * bytes + (k + 1) as int,
                ));
            }
            self.pos = self.pos + 1;
            k = k + 1;
        }
        self.len = self.len + b;
        proof {
            assert(t.take(8 * bytes + tail as int) == t.take(b as int));
            assert(t.take(b as int) =~= t);
        }
        Ok(b)
    }
}

} // verus!
