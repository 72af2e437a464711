//! Bit sources: the `BitBuf` capability trait and the `BitSlice` cursor over
//! a borrowed byte slice.

use vstd::prelude::*;

use crate::bits::byte_bits;
use crate::bits::lemma_spliced_adjacent;
use crate::bits::lemma_spliced_empty;
use crate::bits::lemma_spliced_push;
use crate::bits::lemma_stream_update;
use crate::bits::spliced;
use crate::bits::stream;
use crate::slice_ops::fits_bits;
use crate::slice_ops::read_bit_at;
use crate::slice_ops::read_byte_at;
use crate::slice_ops::write_bit_at;
use crate::Insufficient;
use crate::Overflow;
use crate::UnalignedError;
use vstd::math::min;

verus! {

/// Anything that yields bits on demand: a cursor over a slice, or a staged
/// wrapper's view of its buffer. `bits()` is the stream of bits not yet
/// consumed; `consumed()` counts the bits already taken, as `len()` reports.
pub trait BitBuf: Sized {
    /// The source's state is consistent.
    spec fn wf(&self) -> bool;

    /// The bits not yet consumed, in the order they will be yielded.
    spec fn bits(&self) -> Seq<bool>;

    /// How many bits have been consumed since construction.
    spec fn consumed(&self) -> nat;

    /// Consumes `bits` bits without yielding them; on failure the position is
    /// untouched.
    fn advance(&mut self, bits: usize) -> (r: Result<(), Insufficient>)
        requires
            old(self).wf(),
        ensures
            final(self).wf(),
            match r {
                Ok(()) => bits <= old(self).bits().len() && final(self).bits() == old(self).bits().skip(bits as int) && final(self).consumed() == old(self).consumed()
                    + bits,
                Err(_) => bits > old(self).bits().len() && *final(self) == *old(self),
            },
    ;

    /// Yields the next bit; fails exactly when no bit remains.
    fn read_bool(&mut self) -> (r: Result<bool, Insufficient>)
        requires
            old(self).wf(),
        ensures
            final(self).wf(),
            match r {
                Ok(b) => old(self).bits().len() >= 1 && b == old(self).bits()[0] && final(self).bits() == old(self).bits().skip(1) && final(self).consumed() == old(self).consumed() + 1,
                Err(_) => old(self).bits().len() == 0 && *final(self) == *old(self),
            },
    ;

    /// Yields the next eight bits as one byte, most significant first; fails
    /// exactly when fewer than eight bits remain.
    fn read_byte(&mut self) -> (r: Result<u8, Insufficient>)
        requires
            old(self).wf(),
        ensures
            final(self).wf(),
            match r {
                Ok(b) => old(self).bits().len() >= 8 && byte_bits(b) == old(self).bits().take(8)
                    && final(self).bits() == old(self).bits().skip(8) && final(self).consumed()
                    == old(self).consumed() + 8,
                Err(_) => old(self).bits().len() < 8 && *final(self) == *old(self),
            },
    ;

    /// Copies up to `bits` bits into `dst`, clamped to what remains; fails
    /// with `Overflow`, moving nothing, exactly when `dst` is too small in
    /// bytes for the clamped count. On success the copied bits land at the
    /// front of `dst`'s bit stream and every bit of `dst` past them is kept.
    fn read(&mut self, dst: &mut [u8], bits: usize) -> (r: Result<usize, Overflow>)
        requires
            old(self).wf(),
        ensures
            final(self).wf(),
            final(dst)@.len() == old(dst)@.len(),
            ({
                let b = min(bits as int, old(self).bits().len() as int);
                match r {
                    Ok(n) => old(dst)@.len() * 8 >= b && n == b && final(self).bits() == old(self).bits().skip(b) && final(self).consumed() == old(self).consumed() + b
                        && stream(final(dst)@) == spliced(
                        stream(old(dst)@),
                        0,
                        old(self).bits().take(b),
                    ),
                    Err(_) => old(dst)@.len() * 8 < b && *final(self) == *old(self) && final(dst)@ == old(dst)@,
                }
            }),
    ;

    /// The number of bits not yet consumed.
    fn remaining(&self) -> (r: usize)
        requires
            self.wf(),
        ensures
            r == self.bits().len(),
    ;

    /// The number of bits consumed since construction.
    fn len(&self) -> (r: usize)
        requires
            self.wf(),
        ensures
            r == self.consumed(),
    ;

    /// All-or-nothing read: moves nothing unless `bits` bits remain and `dst`
    /// can hold them. Running out of source bits is `Insufficient`; a `dst`
    /// too small in bytes is `Overflow`.
    fn read_all(&mut self, dst: &mut [u8], bits: usize) -> (r: Result<(), UnalignedError>)
        requires
            old(self).wf(),
        ensures
            final(self).wf(),
            final(dst)@.len() == old(dst)@.len(),
            if old(self).bits().len() < bits {
                &&& r matches Err(UnalignedError::Insufficient(_))
                &&& *final(self) == *old(self)
                &&& final(dst)@ == old(dst)@
            } else if old(dst)@.len() * 8 < bits {
                &&& r matches Err(UnalignedError::Overflow(_))
                &&& *final(self) == *old(self)
                &&& final(dst)@ == old(dst)@
            } else {
                &&& r matches Ok(())
                &&& final(self).bits() == old(self).bits().skip(bits as int)
                &&& final(self).consumed() == old(self).consumed() + bits
                &&& stream(final(dst)@) == spliced(
                    stream(old(dst)@),
                    0,
                    old(self).bits().take(bits as int),
                )
            },
    {
        if self.remaining() < bits {
            Err(UnalignedError::Insufficient(Insufficient))
        } else {
            match self.read(dst, bits) {
                Ok(_) => Ok(()),
                Err(e) => Err(UnalignedError::Overflow(e)),
            }
        }
    }

    /// Fills `dst` from the source, clamped to what remains; returns the
    /// number of bits moved.
    fn read_aligned(&mut self, dst: &mut [u8]) -> (r: usize)
        requires
            old(self).wf(),
            old(dst)@.len() * 8 <= usize::MAX,
        ensures
            final(self).wf(),
            final(dst)@.len() == old(dst)@.len(),
            ({
                let b = min(old(dst)@.len() * 8 as int, old(self).bits().len() as int);
                &&& r == b
                &&& final(self).bits() == old(self).bits().skip(b)
                &&& final(self).consumed() == old(self).consumed() + b
                &&& stream(final(dst)@) == spliced(
                    stream(old(dst)@),
                    0,
                    old(self).bits().take(b),
                )
            }),
    {
        match self.read(dst, dst.len() * 8) {
            Ok(n) => n,
            Err(_) => 0,
        }
    }

    /// All-or-nothing fill of the whole of `dst`; moves nothing unless
    /// `dst.len() * 8` bits remain.
    fn read_aligned_all(&mut self, dst: &mut [u8]) -> (r: Result<(), Insufficient>)
        requires
            old(self).wf(),
            old(dst)@.len() * 8 <= usize::MAX,
        ensures
            final(self).wf(),
            final(dst)@.len() == old(dst)@.len(),
            if old(self).bits().len() < old(dst)@.len() * 8 {
                &&& r matches Err(_)
                &&& *final(self) == *old(self)
                &&& final(dst)@ == old(dst)@
            } else {
                &&& r matches Ok(())
                &&& final(self).bits() == old(self).bits().skip(old(dst)@.len() * 8 as int)
                &&& final(self).consumed() == old(self).consumed() + old(dst)@.len() * 8
                &&& stream(final(dst)@) == old(self).bits().take(old(dst)@.len() * 8 as int)
            },
    {
        match self.read_all(dst, dst.len() * 8) {
            Ok(()) => {
                proof {
                    let t = old(self).bits().take(old(dst)@.len() * 8 as int);
                    assert(spliced(stream(old(dst)@), 0, t) =~= t);
                }
                Ok(())
            },
            Err(_) => Err(Insufficient),
        }
    }
}

/// A read cursor over a borrowed byte slice: the slice plus the count of bits
/// already consumed, whose low three bits are the sub-byte prefix.
#[derive(Debug)]
pub struct BitSlice<'a> {
    data: &'a [u8],
    pos: usize,
}

impl<'a> BitSlice<'a> {
    /// A cursor positioned at the first bit of `data`.
    pub fn new(data: &'a [u8]) -> (r: Self)
        requires
            data@.len() * 8 <= usize::MAX,
        ensures
            r.wf(),
            r.bits() == stream(data@),
            r.consumed() == 0,
    {
        let r = BitSlice { data, pos: 0 };
        proof {
            assert(r.bits() =~= stream(data@));
        }
        r
    }
}

impl<'a> BitBuf for BitSlice<'a> {
    closed spec fn wf(&self) -> bool {
        self.pos <= self.data@.len() * 8 <= usize::MAX
    }

    closed spec fn bits(&self) -> Seq<bool> {
        stream(self.data@).skip(self.pos as int)
    }

    closed spec fn consumed(&self) -> nat {
        self.pos as nat
    }

    fn advance(&mut self, bits: usize) -> (r: Result<(), Insufficient>) {
        let rem = self.data.len() * 8 - self.pos;
        if bits > rem {
            return Err(Insufficient);
        }
        proof {
            assert(stream(self.data@).skip(self.pos as int + bits as int) =~= stream(
                self.data@,
            ).skip(self.pos as int).skip(bits as int));
        }
        self.pos = self.pos + bits;
        Ok(())
    }

    fn read_bool(&mut self) -> (r: Result<bool, Insufficient>) {
        let rem = self.data.len() * 8 - self.pos;
        if rem == 0 {
            return Err(Insufficient);
        }
        let b = read_bit_at(self.data, self.pos);
        proof {
            assert(stream(self.data@).skip(self.pos as int + 1) =~= stream(self.data@).skip(
                self.pos as int,
            ).skip(1));
        }
        self.pos = self.pos + 1;
        Ok(b)
    }

    fn read_byte(&mut self) -> (r: Result<u8, Insufficient>) {
        let rem = self.data.len() * 8 - self.pos;
        if rem < 8 {
            return Err(Insufficient);
        }
        let b = read_byte_at(self.data, self.pos);
        proof {
            assert(stream(self.data@).subrange(self.pos as int, self.pos as int + 8) =~= stream(
                self.data@,
            ).skip(self.pos as int).take(8));
            assert(stream(self.data@).skip(self.pos as int + 8) =~= stream(self.data@).skip(
                self.pos as int,
            ).skip(8));
        }
        self.pos = self.pos + 8;
        Ok(b)
    }

    fn read(&mut self, dst: &mut [u8], bits: usize) -> (r: Result<usize, Overflow>) {
        let rem = self.data.len() * 8 - self.pos;
        let b = if bits > rem {
            rem
        } else {
            bits
        };
        if !fits_bits(dst.len(), b) {
            return Err(Overflow);
        }
        let ghost t = stream(self.data@).skip(self.pos as int);
        let ghost dst0 = dst@;
        let ghost start = self.pos as int;
        let bytes = b / 8;
        let tail = b % 8;
        proof {
            lemma_spliced_empty(stream(dst0), 0);
            assert(t.take(0) =~= Seq::<bool>::empty());
            assert(bytes <= dst0.len());
        }
        let mut i: usize = 0;
        while i < bytes
            invariant
                i <= bytes,
                bytes == b / 8,
                tail == b % 8,
                b <= rem,
                rem == self.data@.len() * 8 - start,
                0 <= start,
                self.data@.len() * 8 <= usize::MAX,
                bytes <= dst@.len(),
                dst@.len() == dst0.len(),
                dst0.len() * 8 >= b,
                t == stream(self.data@).skip(start),
                t.len() == rem,
                self.pos == start + 8 * i,
                stream(dst@) == spliced(stream(dst0), 0, t.take(8 * i)),
            decreases bytes - i,
        {
            let byte = read_byte_at(self.data, self.pos);
            let ghost dprev = dst@;
            dst[i] = byte;
            proof {
                assert(byte_bits(byte) =~= t.subrange(8 * i as int, 8 * i as int + 8));
                lemma_stream_update(dprev, i as int, byte);
                lemma_spliced_adjacent(stream(dst0), 0, t.take(8 * i as int), byte_bits(byte));
                assert(t.take(8 * i as int) + t.subrange(8 * i as int, 8 * i as int + 8) =~= t.take(
                    8 * (i + 1) as int,
                ));
            }
            self.pos = self.pos + 8;
            i = i + 1;
        }
        let mut k: usize = 0;
        while k < tail
            invariant
                k <= tail,
                bytes == b / 8,
                tail == b % 8,
                b <= rem,
                rem == self.data@.len() * 8 - start,
                0 <= start,
                self.data@.len() * 8 <= usize::MAX,
                dst@.len() == dst0.len(),
                dst0.len() * 8 >= b,
                t == stream(self.data@).skip(start),
                t.len() == rem,
                self.pos == start + 8 * bytes + k,
                stream(dst@) == spliced(stream(dst0), 0, t.take(8 * bytes + k)),
            decreases tail - k,
        {
            let v = read_bit_at(self.data, self.pos);
            write_bit_at(dst, 8 * bytes + k, v);
            proof {
                assert(v == t[8 * bytes + k]);
                lemma_spliced_push(stream(dst0), 0, t.take(8 * bytes + k as int), v);
                assert(t.take(8 * bytes + k as int).push(t[8 * bytes + k as int]) =~= t.take(
                    8 * bytes + (k + 1) as int,
                ));
            }
            self.pos = self.pos + 1;
            k = k + 1;
        }
        proof {
            assert(stream(self.data@).skip(start + b as int) =~= t.skip(b as int));
            assert(t.take(8 * bytes + tail as int) == t.take(b as int));
        }
        Ok(b)
    }

    fn remaining(&self) -> (r: usize) {
        self.data.len() * 8 - self.pos
    }

    fn len(&self) -> (r: usize) {
        self.pos
    }
}

} // verus!
