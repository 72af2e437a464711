//! The mathematical model: a byte buffer as a flat sequence of bits,
//! most-significant-first within each byte, and the splice operation that
//! every write is specified by.

use vstd::prelude::*;

verus! {

/// Bit `i` of byte `b`, most-significant-first: position 0 carries value 128.
pub open spec fn bit(b: u8, i: u8) -> bool
    recommends
        i < 8,
{
    b & (128u8 >> i) != 0
}

/// The eight bits of one byte, most significant first.
pub open spec fn byte_bits(b: u8) -> Seq<bool> {
    Seq::new(8, |i: int| bit(b, i as u8))
}

/// A byte buffer as a flat bit stream: bit `i` lives in byte `i / 8`
/// at in-byte position `i % 8`.
pub open spec fn stream(s: Seq<u8>) -> Seq<bool> {
    Seq::new(s.len() * 8, |i: int| bit(s[i / 8], (i % 8) as u8))
}

/// `dest` with `src` laid over it starting at bit `at`; every bit outside
/// that span is kept. Every write through this library is a splice.
pub open spec fn spliced(dest: Seq<bool>, at: int, src: Seq<bool>) -> Seq<bool> {
    Seq::new(
        dest.len(),
        |i: int| if at <= i < at + src.len() { src[i - at] } else { dest[i] },
    )
}

/// Splicing nothing changes nothing.
pub proof fn lemma_spliced_empty(dest: Seq<bool>, at: int)
    ensures
        spliced(dest, at, Seq::<bool>::empty()) == dest,
{
    assert(spliced(dest, at, Seq::<bool>::empty()) =~= dest);
}

/// Round trip: reading back the spliced span yields the written bits exactly,
/// whatever the destination held before and wherever the span starts.
pub proof fn lemma_spliced_read_back(dest: Seq<bool>, at: int, src: Seq<bool>)
    requires
        0 <= at,
        at + src.len() <= dest.len(),
    ensures
        spliced(dest, at, src).subrange(at, at + src.len() as int) == src,
{
    assert(spliced(dest, at, src).subrange(at, at + src.len() as int) =~= src);
}

/// Non-disturbance: a splice never changes a bit outside the written span.
pub proof fn lemma_spliced_outside(dest: Seq<bool>, at: int, src: Seq<bool>)
    ensures
        spliced(dest, at, src).len() == dest.len(),
        forall|i: int|
            0 <= i < dest.len() && !(at <= i < at + src.len()) ==> spliced(
                dest,
                at,
                src,
            )[i] == dest[i],
{
}

/// Resumability: two adjacent splices amount to one splice of the
/// concatenated bits, so a transfer split across calls whose lengths sum to
/// `n` ends as one transfer of `n` bits would.
pub proof fn lemma_spliced_adjacent(dest: Seq<bool>, at: int, fst: Seq<bool>, snd: Seq<bool>)
    ensures
        spliced(spliced(dest, at, fst), at + fst.len(), snd) == spliced(dest, at, fst + snd),
{
    assert(spliced(spliced(dest, at, fst), at + fst.len(), snd) =~= spliced(
        dest,
        at,
        fst + snd,
    ));
}

/// Extending a splice by one bit on its right edge.
pub proof fn lemma_spliced_push(dest: Seq<bool>, at: int, src: Seq<bool>, b: bool)
    requires
        0 <= at,
        at + src.len() < dest.len(),
    ensures
        spliced(dest, at, src).update(at + src.len(), b) == spliced(dest, at, src.push(b)),
{
    assert(spliced(dest, at, src).update(at + src.len(), b) =~= spliced(dest, at, src.push(b)));
}

/// A byte is determined by its eight bits.
proof fn lemma_bits_determine_byte(a: u8, b: u8)
    by (bit_vector)
    requires
        bit(a, 0) == bit(b, 0),
        bit(a, 1) == bit(b, 1),
        bit(a, 2) == bit(b, 2),
        bit(a, 3) == bit(b, 3),
        bit(a, 4) == bit(b, 4),
        bit(a, 5) == bit(b, 5),
        bit(a, 6) == bit(b, 6),
        bit(a, 7) == bit(b, 7),
    ensures
        a == b,
{
}

/// The bit stream is a faithful picture of the buffer: two buffers of equal
/// length with the same stream hold the same bytes, so a round trip that
/// reproduces the stream reproduces the buffer.
pub proof fn lemma_stream_determines_bytes(s1: Seq<u8>, s2: Seq<u8>)
    requires
        s1.len() == s2.len(),
        stream(s1) == stream(s2),
    ensures
        s1 == s2,
{
    assert forall|i: int| 0 <= i < s1.len() implies s1[i] == s2[i] by {
        assert forall|k: u8| k < 8 implies bit(s1[i], k) == bit(s2[i], k) by {
            let j = 8 * i + k;
            assert(0 <= j < s1.len() * 8);
            assert(j / 8 == i && j % 8 == k);
            assert((j % 8) as u8 == k);
            assert(stream(s1)[j] == bit(s1[j / 8], (j % 8) as u8));
            assert(stream(s2)[j] == bit(s2[j / 8], (j % 8) as u8));
            assert(stream(s1)[j] == stream(s2)[j]);
        }
        lemma_bits_determine_byte(s1[i], s2[i]);
    }
    assert(s1 =~= s2);
}

/// Overwriting one byte of a buffer splices that byte's eight bits into its
/// stream.
pub proof fn lemma_stream_update(s: Seq<u8>, i: int, x: u8)
    requires
        0 <= i < s.len(),
    ensures
        stream(s.update(i, x)) == spliced(stream(s), 8 * i, byte_bits(x)),
{
    let lhs = stream(s.update(i, x));
    let rhs = spliced(stream(s), 8 * i, byte_bits(x));
    assert forall|j: int| 0 <= j < s.len() * 8 implies lhs[j] == rhs[j] by {
        if 8 * i <= j < 8 * i + 8 {
            assert(j / 8 == i);
        } else {
            assert(j / 8 != i);
        }
    }
    assert(lhs =~= rhs);
}

} // verus!
