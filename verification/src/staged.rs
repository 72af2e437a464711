//! Staged transfer wrappers: each owns a byte buffer and a persisted count of
//! bits already moved, and each call resumes exactly where the previous one
//! left off, moving whole bytes whenever both sides have room for eight bits.

use vstd::prelude::*;

use crate::bits::byte_bits;
use crate::bits::lemma_spliced_adjacent;
use crate::bits::lemma_spliced_empty;
use crate::bits::lemma_spliced_push;
use crate::bits::spliced;
use crate::bits::stream;
use crate::sink::BitBufMut;
use crate::slice_ops::read_bit_at;
use crate::slice_ops::read_byte_at;
use crate::slice_ops::write_bit_at;
use crate::slice_ops::write_byte_at;
use crate::source::BitBuf;
use crate::source::BitSlice;
use crate::Insufficient;
use crate::Overflow;
use vstd::math::min;

verus! {

/// Moves bits from `src` into `target`, starting at bit `at` and stopping at
/// bit `cap` or when `src` runs dry; returns the position reached. Whole
/// bytes move as one whenever both sides have room for eight bits, which is
/// bit-identical to moving them one at a time.
fn fill_upto<B: BitBuf>(target: &mut Vec<u8>, at: usize, cap: usize, src: &mut B) -> (n: usize)
    requires
        old(target)@.len() * 8 <= usize::MAX,
        at <= cap <= old(target)@.len() * 8,
        old(src).wf(),
    ensures
        final(target)@.len() == old(target)@.len(),
        final(src).wf(),
        ({
            let m = min(cap - at, old(src).bits().len() as int);
            &&& n == at + m
            &&& stream(final(target)@) == spliced(
                stream(old(target)@),
                at as int,
                old(src).bits().take(m),
            )
            &&& final(src).bits() == old(src).bits().skip(m)
            &&& final(src).consumed() == old(src).consumed() + m
        }),
{
    let ghost all0 = stream(old(target)@);
    let ghost t = src.bits();
    let ghost c0 = src.consumed();
    let mut n: usize = at;
    proof {
        lemma_spliced_empty(all0, at as int);
        assert(t.take(0) =~= Seq::<bool>::empty());
    }
    while n < cap
        invariant
            at <= n <= cap,
            cap <= target@.len() * 8,
            target@.len() == old(target)@.len(),
            target@.len() * 8 <= usize::MAX,
            all0 == stream(old(target)@),
            t == old(src).bits(),
            c0 == old(src).consumed(),
            n - at <= t.len(),
            src.wf(),
            src.bits() == t.skip(n - at),
            src.consumed() == c0 + (n - at),
            stream(target@) == spliced(all0, at as int, t.take(n - at)),
        decreases cap - n,
    {
        let ghost k = n as int - at;
        if src.remaining() >= 8 && cap - n >= 8 {
            match src.read_byte() {
                Ok(byte) => {
                    write_byte_at(target.as_mut_slice(), n, byte);
                    proof {
                        assert(byte_bits(byte) =~= t.subrange(k, k + 8));
                        lemma_spliced_adjacent(all0, at as int, t.take(k), byte_bits(byte));
                        assert(t.take(k) + t.subrange(k, k + 8) =~= t.take(k + 8));
                    }
                    n = n + 8;
                },
                Err(_) => {
                    // read_byte cannot fail: the source just reported eight
                    // bits remaining.
                    proof {
                        assert(false);
                    }
                    return n;
                },
            }
        } else {
            match src.read_bool() {
                Ok(v) => {
                    write_bit_at(target.as_mut_slice(), n, v);
                    proof {
                        assert(v == t[k]);
                        lemma_spliced_push(all0, at as int, t.take(k), v);
                        assert(t.take(k).push(t[k]) =~= t.take(k + 1));
                    }
                    n = n + 1;
                },
                Err(_) => {
                    proof {
                        assert(t.skip(k).len() == 0);
                        assert(t.take(k) =~= t.take(min(cap - at, t.len() as int)));
                        assert(t.skip(k) =~= t.skip(min(cap - at, t.len() as int)));
                    }
                    return n;
                },
            }
        }
    }
    n
}

/// Moves bits from `source`, starting at bit `at` and stopping at bit `cap`
/// or when `sink` fills up; returns the position reached. Whole bytes move as
/// one whenever both sides have room for eight bits, which is bit-identical
/// to moving them one at a time.
fn drain_upto<B: BitBufMut>(source: &Vec<u8>, at: usize, cap: usize, sink: &mut B) -> (n: usize)
    requires
        source@.len() * 8 <= usize::MAX,
        at <= cap <= source@.len() * 8,
        old(sink).wf(),
    ensures
        final(sink).wf(),
        ({
            let room = old(sink).all_bits().len() - old(sink).position();
            let m = min(cap - at, room);
            &&& n == at + m
            &&& final(sink).all_bits() == spliced(
                old(sink).all_bits(),
                old(sink).position() as int,
                stream(source@).subrange(at as int, at + m),
            )
            &&& final(sink).position() == old(sink).position() + m
            &&& final(sink).produced() == old(sink).produced() + m
        }),
{
    let ghost all0 = sink.all_bits();
    let ghost q0 = sink.position() as int;
    let ghost pr0 = sink.produced();
    let ghost s = stream(source@).skip(at as int);
    let mut n: usize = at;
    proof {
        sink.position_in_range();
        lemma_spliced_empty(all0, q0);
        assert(s.take(0) =~= Seq::<bool>::empty());
    }
    while n < cap
        invariant
            at <= n <= cap,
            cap <= source@.len() * 8,
            source@.len() * 8 <= usize::MAX,
            s == stream(source@).skip(at as int),
            all0 == old(sink).all_bits(),
            q0 == old(sink).position() as int,
            pr0 == old(sink).produced(),
            sink.wf(),
            0 <= q0,
            q0 + (n - at) <= all0.len(),
            sink.all_bits() == spliced(all0, q0, s.take(n - at)),
            sink.all_bits().len() == all0.len(),
            sink.position() == q0 + (n - at),
            sink.produced() == pr0 + (n - at),
        decreases cap - n,
    {
        let ghost k = n as int - at;
        if sink.remaining() >= 8 && cap - n >= 8 {
            let byte = read_byte_at(source.as_slice(), n);
            match sink.write_byte(byte) {
                Ok(()) => {
                    proof {
                        assert(byte_bits(byte) =~= s.subrange(k, k + 8));
                        lemma_spliced_adjacent(all0, q0, s.take(k), byte_bits(byte));
                        assert(s.take(k) + s.subrange(k, k + 8) =~= s.take(k + 8));
                    }
                    n = n + 8;
                },
                Err(_) => {
                    // write_byte cannot fail: the sink just reported room for
                    // eight bits.
                    proof {
                        assert(false);
                    }
                    return n;
                },
            }
        } else {
            let v = read_bit_at(source.as_slice(), n);
            match sink.write_bool(v) {
                Ok(()) => {
                    proof {
                        assert(v == s[k]);
                        lemma_spliced_push(all0, q0, s.take(k), v);
                        assert(s.take(k).push(s[k]) =~= s.take(k + 1));
                    }
                    n = n + 1;
                },
                Err(_) => {
                    proof {
                        let room = all0.len() - q0;
                        assert(k == min(cap - at, room));
                        assert(s.take(k) =~= stream(source@).subrange(at as int, at + k));
                    }
                    return n;
                },
            }
        }
    }
    proof {
        let k = n as int - at;
        assert(k == min(cap - at, all0.len() - q0));
        assert(s.take(k) =~= stream(source@).subrange(at as int, at + k));
    }
    n
}

/// Incrementally fills an owned buffer from bit sources, resuming at the bit
/// offset the previous call reached.
pub struct Fill {
    len: usize,
    buf: Vec<u8>,
}

impl Fill {
    /// The wrapped buffer's current bytes.
    pub closed spec fn view_bytes(&self) -> Seq<u8> {
        self.buf@
    }

    /// Bits written into the buffer by prior calls.
    pub closed spec fn filled(&self) -> nat {
        self.len as nat
    }

    pub closed spec fn wf(&self) -> bool {
        self.len <= self.buf@.len() * 8 <= usize::MAX
    }

    /// Wraps `buf` with no bits filled yet.
    pub fn new(buf: Vec<u8>) -> (r: Self)
        requires
            buf@.len() * 8 <= usize::MAX,
        ensures
            r.wf(),
            r.view_bytes() == buf@,
            r.filled() == 0,
    {
        Fill { len: 0, buf }
    }

    /// Gives the buffer back; `filled()` bits of it were written.
    pub fn into_inner(self) -> (r: Vec<u8>)
        ensures
            r@ == self.view_bytes(),
    {
        self.buf
    }

    /// The number of bits written into the buffer so far.
    pub fn len(&self) -> (r: usize)
        requires
            self.wf(),
        ensures
            r == self.filled(),
    {
        self.len
    }

    /// Moves bits out of `buf` until this buffer is full, resuming where the
    /// last call stopped; `Insufficient` reports that `buf` ran dry first,
    /// with all its bits taken and the position advanced past them.
    pub fn fill_from<B: BitBuf>(&mut self, buf: &mut B) -> (r: Result<(), Insufficient>)
        requires
            old(self).wf(),
            old(buf).wf(),
        ensures
            final(self).wf(),
            final(buf).wf(),
            final(self).view_bytes().len() == old(self).view_bytes().len(),
            ({
                let m = min(
                    old(self).view_bytes().len() * 8 - old(self).filled(),
                    old(buf).bits().len() as int,
                );
                &&& final(self).filled() == old(self).filled() + m
                &&& stream(final(self).view_bytes()) == spliced(
                    stream(old(self).view_bytes()),
                    old(self).filled() as int,
                    old(buf).bits().take(m),
                )
                &&& final(buf).bits() == old(buf).bits().skip(m)
                &&& final(buf).consumed() == old(buf).consumed() + m
                &&& (r matches Ok(()) <==> old(buf).bits().len() >= old(self).view_bytes().len()
                    * 8 - old(self).filled())
            }),
    {
        let total = self.buf.len() * 8;
        let n = fill_upto(&mut self.buf, self.len, total, buf);
        self.len = n;
        if n == total {
            Ok(())
        } else {
            Err(Insufficient)
        }
    }

    /// A read cursor over the whole wrapped buffer, positioned at its first
    /// bit.
    pub fn as_buf(&self) -> (r: BitSlice<'_>)
        requires
            self.wf(),
        ensures
            r.wf(),
            r.bits() == stream(self.view_bytes()),
            r.consumed() == 0,
    {
        BitSlice::new(self.buf.as_slice())
    }
}

/// A `Fill` whose capacity is an explicit bit ceiling at or under the
/// buffer's own: filling stops at `cap` even when bytes are spare.
pub struct CappedFill {
    len: usize,
    cap: usize,
    buf: Vec<u8>,
}

impl CappedFill {
    /// The wrapped buffer's current bytes.
    pub closed spec fn view_bytes(&self) -> Seq<u8> {
        self.buf@
    }

    /// Bits written into the buffer by prior calls.
    pub closed spec fn filled(&self) -> nat {
        self.len as nat
    }

    /// The bit ceiling this wrapper was made with.
    pub closed spec fn cap_bits(&self) -> nat {
        self.cap as nat
    }

    pub closed spec fn wf(&self) -> bool {
        self.len <= self.cap <= self.buf@.len() * 8 <= usize::MAX
    }

    /// Wraps `buf` with a ceiling of `cap` bits; `Overflow` exactly when the
    /// ceiling exceeds the buffer's bit capacity.
    pub fn new(buf: Vec<u8>, cap: usize) -> (r: Result<Self, Overflow>)
        requires
            buf@.len() * 8 <= usize::MAX,
        ensures
            match r {
                Ok(f) => cap <= buf@.len() * 8 && f.wf() && f.view_bytes() == buf@ && f.filled()
                    == 0 && f.cap_bits() == cap,
                Err(_) => cap > buf@.len() * 8,
            },
    {
        if cap > buf.len() * 8 {
            return Err(Overflow);
        }
        Ok(CappedFill { len: 0, buf, cap })
    }

    /// Gives the buffer back; `filled()` bits of it were written.
    pub fn into_inner(self) -> (r: Vec<u8>)
        ensures
            r@ == self.view_bytes(),
    {
        self.buf
    }

    /// The number of bits written into the buffer so far.
    pub fn len(&self) -> (r: usize)
        requires
            self.wf(),
        ensures
            r == self.filled(),
    {
        self.len
    }

    /// Moves bits out of `buf` until the ceiling is reached, resuming where
    /// the last call stopped; `Insufficient` reports that `buf` ran dry
    /// first, with all its bits taken and the position advanced past them.
    pub fn fill_from<B: BitBuf>(&mut self, buf: &mut B) -> (r: Result<(), Insufficient>)
        requires
            old(self).wf(),
            old(buf).wf(),
        ensures
            final(self).wf(),
            final(buf).wf(),
            final(self).view_bytes().len() == old(self).view_bytes().len(),
            final(self).cap_bits() == old(self).cap_bits(),
            ({
                let m = min(
                    old(self).cap_bits() - old(self).filled(),
                    old(buf).bits().len() as int,
                );
                &&& final(self).filled() == old(self).filled() + m
                &&& stream(final(self).view_bytes()) == spliced(
                    stream(old(self).view_bytes()),
                    old(self).filled() as int,
                    old(buf).bits().take(m),
                )
                &&& final(buf).bits() == old(buf).bits().skip(m)
                &&& final(buf).consumed() == old(buf).consumed() + m
                &&& (r matches Ok(()) <==> old(buf).bits().len() >= old(self).cap_bits() - old(
                    self,
                ).filled())
            }),
    {
        let cap = self.cap;
        let n = fill_upto(&mut self.buf, self.len, cap, buf);
        self.len = n;
        if n == cap {
            Ok(())
        } else {
            Err(Insufficient)
        }
    }

    /// A read cursor over the whole wrapped buffer, positioned at its first
    /// bit.
    pub fn as_buf(&self) -> (r: BitSlice<'_>)
        requires
            self.wf(),
        ensures
            r.wf(),
            r.bits() == stream(self.view_bytes()),
            r.consumed() == 0,
    {
        BitSlice::new(self.buf.as_slice())
    }
}

/// Incrementally drains an owned buffer into bit sinks, resuming at the bit
/// offset the previous call reached. The buffer itself is never changed.
pub struct Drain {
    len: usize,
    buf: Vec<u8>,
}

impl Drain {
    /// The wrapped buffer's bytes.
    pub closed spec fn view_bytes(&self) -> Seq<u8> {
        self.buf@
    }

    /// Bits pushed out of the buffer by prior calls.
    pub closed spec fn drained(&self) -> nat {
        self.len as nat
    }

    pub closed spec fn wf(&self) -> bool {
        self.len <= self.buf@.len() * 8 <= usize::MAX
    }

    /// Wraps `buf` with no bits drained yet.
    pub fn new(buf: Vec<u8>) -> (r: Self)
        requires
            buf@.len() * 8 <= usize::MAX,
        ensures
            r.wf(),
            r.view_bytes() == buf@,
            r.drained() == 0,
    {
        Drain { len: 0, buf }
    }

    /// Gives the buffer back, unchanged.
    pub fn into_inner(self) -> (r: Vec<u8>)
        ensures
            r@ == self.view_bytes(),
    {
        self.buf
    }

    /// The number of bits drained from the buffer so far.
    pub fn len(&self) -> (r: usize)
        requires
            self.wf(),
        ensures
            r == self.drained(),
    {
        self.len
    }

    /// Moves bits into `buf` until this buffer is exhausted, resuming where
    /// the last call stopped; `Insufficient` reports that `buf` filled up
    /// first, with the position advanced past the bits it took.
    pub fn drain_into<B: BitBufMut>(&mut self, buf: &mut B) -> (r: Result<(), Insufficient>)
        requires
            old(self).wf(),
            old(buf).wf(),
        ensures
            final(self).wf(),
            final(buf).wf(),
            final(self).view_bytes() == old(self).view_bytes(),
            ({
                let room = old(buf).all_bits().len() - old(buf).position();
                let m = min(old(self).view_bytes().len() * 8 - old(self).drained(), room);
                &&& final(self).drained() == old(self).drained() + m
                &&& final(buf).all_bits() == spliced(
                    old(buf).all_bits(),
                    old(buf).position() as int,
                    stream(old(self).view_bytes()).subrange(
                        old(self).drained() as int,
                        old(self).drained() + m,
                    ),
                )
                &&& final(buf).position() == old(buf).position() + m
                &&& final(buf).produced() == old(buf).produced() + m
                &&& (r matches Ok(()) <==> room >= old(self).view_bytes().len() * 8 - old(
                    self,
                ).drained())
            }),
    {
        let total = self.buf.len() * 8;
        let n = drain_upto(&self.buf, self.len, total, buf);
        self.len = n;
        if n == total {
            Ok(())
        } else {
            Err(Insufficient)
        }
    }

    /// A read cursor over the whole wrapped buffer, positioned at its first
    /// bit.
    pub fn as_buf(&self) -> (r: BitSlice<'_>)
        requires
            self.wf(),
        ensures
            r.wf(),
            r.bits() == stream(self.view_bytes()),
            r.consumed() == 0,
    {
        BitSlice::new(self.buf.as_slice())
    }
}

/// A `Drain` whose supply is an explicit bit ceiling at or under the buffer's
/// own: draining stops at `cap` even when bytes remain.
pub struct CappedDrain {
    cap: usize,
    len: usize,
    buf: Vec<u8>,
}

impl CappedDrain {
    /// The wrapped buffer's bytes.
    pub closed spec fn view_bytes(&self) -> Seq<u8> {
        self.buf@
    }

    /// Bits pushed out of the buffer by prior calls.
    pub closed spec fn drained(&self) -> nat {
        self.len as nat
    }

    /// The bit ceiling this wrapper was made with.
    pub closed spec fn cap_bits(&self) -> nat {
        self.cap as nat
    }

    pub closed spec fn wf(&self) -> bool {
        self.len <= self.cap <= self.buf@.len() * 8 <= usize::MAX
    }

    /// Wraps `buf` with a ceiling of `cap` bits; `Overflow` exactly when the
    /// ceiling exceeds the buffer's bit capacity.
    pub fn new(buf: Vec<u8>, cap: usize) -> (r: Result<Self, Overflow>)
        requires
            buf@.len() * 8 <= usize::MAX,
        ensures
            match r {
                Ok(d) => cap <= buf@.len() * 8 && d.wf() && d.view_bytes() == buf@ && d.drained()
                    == 0 && d.cap_bits() == cap,
                Err(_) => cap > buf@.len() * 8,
            },
    {
        if cap > buf.len() * 8 {
            return Err(Overflow);
        }
        Ok(CappedDrain { len: 0, buf, cap })
    }

    /// Gives the buffer back, unchanged.
    pub fn into_inner(self) -> (r: Vec<u8>)
        ensures
            r@ == self.view_bytes(),
    {
        self.buf
    }

    /// The number of bits drained from the buffer so far.
    pub fn len(&self) -> (r: usize)
        requires
            self.wf(),
        ensures
            r == self.drained(),
    {
        self.len
    }

    /// Moves bits into `buf` until the ceiling is reached, resuming where the
    /// last call stopped; `Insufficient` reports that `buf` filled up first,
    /// with the position advanced past the bits it took.
    pub fn drain_into<B: BitBufMut>(&mut self, buf: &mut B) -> (r: Result<(), Insufficient>)
        requires
            old(self).wf(),
            old(buf).wf(),
        ensures
            final(self).wf(),
            final(buf).wf(),
            final(self).view_bytes() == old(self).view_bytes(),
            final(self).cap_bits() == old(self).cap_bits(),
            ({
                let room = old(buf).all_bits().len() - old(buf).position();
                let m = min(old(self).cap_bits() - old(self).drained(), room);
                &&& final(self).drained() == old(self).drained() + m
                &&& final(buf).all_bits() == spliced(
                    old(buf).all_bits(),
                    old(buf).position() as int,
                    stream(old(self).view_bytes()).subrange(
                        old(self).drained() as int,
                        old(self).drained() + m,
                    ),
                )
                &&& final(buf).position() == old(buf).position() + m
                &&& final(buf).produced() == old(buf).produced() + m
                &&& (r matches Ok(()) <==> room >= old(self).cap_bits() - old(self).drained())
            }),
    {
        let cap = self.cap;
        let n = drain_upto(&self.buf, self.len, cap, buf);
        self.len = n;
        if n == cap {
            Ok(())
        } else {
            Err(Insufficient)
        }
    }

    /// A read cursor over the whole wrapped buffer, positioned at its first
    /// bit.
    pub fn as_buf(&self) -> (r: BitSlice<'_>)
        requires
            self.wf(),
        ensures
            r.wf(),
            r.bits() == stream(self.view_bytes()),
            r.consumed() == 0,
    {
        BitSlice::new(self.buf.as_slice())
    }
}

} // verus!
