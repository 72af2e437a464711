//! Verified single-bit and single-byte operations on byte slices at arbitrary
//! bit positions. Every mutation is a masked merge: bits outside the written
//! span are proved untouched, which the splice-shaped contracts record.

use vstd::prelude::*;

use crate::bits::bit;
use crate::bits::byte_bits;
use crate::bits::lemma_stream_update;
use crate::bits::spliced;
use crate::bits::stream;

verus! {

/// Setting or clearing one bit of a byte leaves the other seven alone.
proof fn lemma_bit_update(b: u8, r: u8, v: bool, nb: u8)
    by (bit_vector)
    requires
        r < 8,
        nb == if v { b | (128u8 >> r) } else { b & !(128u8 >> r) },
    ensures
        forall|k: u8|
            k < 8 ==> #[trigger] bit(nb, k) == (if k == r {
                v
            } else {
                bit(b, k)
            }),
{
}

/// Merging the low `8 - r` bits of `hi` with the high `r` bits of `lo` yields
/// the byte whose bit `k` is bit `r + k` of the pair.
proof fn lemma_byte_merge_read(hi: u8, lo: u8, r: u8, m: u8)
    by (bit_vector)
    requires
        1 <= r < 8,
        m == (hi << r) | (lo >> ((8 - r) as u8)),
    ensures
        forall|k: u8|
            k < 8 ==> #[trigger] bit(m, k) == (if k + r < 8 {
                bit(hi, (k + r) as u8)
            } else {
                bit(lo, ((k + r) - 8) as u8)
            }),
{
}

/// The two masked merges of a straddling byte write: the first byte keeps its
/// top `r` bits and takes the top `8 - r` bits of `v`; the second byte keeps
/// its low `8 - r` bits and takes the low `r` bits of `v`.
proof fn lemma_byte_merge_write(d0: u8, d1: u8, v: u8, r: u8, nd0: u8, nd1: u8)
    by (bit_vector)
    requires
        1 <= r < 8,
        nd0 == (d0 & (0xFFu8 << ((8 - r) as u8))) | (v >> r),
        nd1 == (d1 & (0xFFu8 >> r)) | (v << ((8 - r) as u8)),
    ensures
        forall|k: u8|
            k < 8 ==> #[trigger] bit(nd0, k) == (if k < r {
                bit(d0, k)
            } else {
                bit(v, (k - r) as u8)
            }),
        forall|k: u8|
            k < 8 ==> #[trigger] bit(nd1, k) == (if k < r {
                bit(v, ((k + 8) - r) as u8)
            } else {
                bit(d1, k)
            }),
{
}

/// Whether `len_bytes` whole bytes can represent `bits` bits, computed
/// without forming `len_bytes * 8`.
pub(crate) fn fits_bits(len_bytes: usize, bits: usize) -> (r: bool)
    ensures
        r == (len_bytes * 8 >= bits),
{
    bits / 8 < len_bytes || (bits / 8 == len_bytes && bits % 8 == 0)
}

/// The bit at position `pos` of the buffer's bit stream.
pub(crate) fn read_bit_at(data: &[u8], pos: usize) -> (r: bool)
    requires
        pos < data@.len() * 8,
    ensures
        r == stream(data@)[pos as int],
{
    let i: usize = pos / 8;
    let r8: u8 = (pos % 8) as u8;
    proof {
        assert(i < data@.len());
    }
    let b: u8 = data[i];
    (b & (128u8 >> r8)) != 0
}

/// Writes one bit at position `pos`, touching no other bit.
pub(crate) fn write_bit_at(data: &mut [u8], pos: usize, v: bool)
    requires
        pos < old(data)@.len() * 8,
    ensures
        final(data)@.len() == old(data)@.len(),
        stream(final(data)@) == stream(old(data)@).update(pos as int, v),
{
    let i: usize = pos / 8;
    let r8: u8 = (pos % 8) as u8;
    proof {
        assert(i < data@.len());
    }
    let b: u8 = data[i];
    let nb: u8 = if v {
        b | (128u8 >> r8)
    } else {
        b & !(128u8 >> r8)
    };
    data[i] = nb;
    proof {
        lemma_bit_update(b, r8, v, nb);
        lemma_stream_update(old(data)@, i as int, nb);
        let s0 = stream(old(data)@);
        let s1 = spliced(s0, 8 * (i as int), byte_bits(nb));
        assert forall|j: int| 0 <= j < s0.len() implies s1[j] == s0.update(pos as int, v)[j] by {
            if 8 * (i as int) <= j < 8 * (i as int) + 8 {
                assert(j / 8 == i as int);
                assert(byte_bits(nb)[j - 8 * (i as int)] == bit(nb, (j % 8) as u8));
            } else {
                assert(j != pos as int);
            }
        }
        assert(stream(data@) =~= s0.update(pos as int, v));
    }
}

/// The byte whose bits are stream positions `pos .. pos + 8`, merged across
/// two physical bytes when `pos` is not byte-aligned.
pub(crate) fn read_byte_at(data: &[u8], pos: usize) -> (r: u8)
    requires
        pos + 8 <= data@.len() * 8,
    ensures
        byte_bits(r) == stream(data@).subrange(pos as int, pos as int + 8),
{
    let i: usize = pos / 8;
    let r8: u8 = (pos % 8) as u8;
    proof {
        assert(i < data@.len());
    }
    if r8 == 0 {
        let b: u8 = data[i];
        proof {
            assert forall|k: int| 0 <= k < 8 implies byte_bits(b)[k] == stream(data@)[pos + k] by {
                assert((pos + k) / 8 == i as int);
                assert((pos + k) % 8 == k);
            }
            assert(byte_bits(b) =~= stream(data@).subrange(pos as int, pos as int + 8));
        }
        b
    } else {
        proof {
            assert(i + 1 < data@.len());
        }
        let hi: u8 = data[i];
        let lo: u8 = data[i + 1];
        let b: u8 = (hi << r8) | (lo >> (8 - r8));
        proof {
            lemma_byte_merge_read(hi, lo, r8, b);
            assert forall|k: int| 0 <= k < 8 implies byte_bits(b)[k] == stream(data@)[pos + k] by {
                if r8 as int + k < 8 {
                    assert((pos + k) / 8 == i as int);
                    assert((pos + k) % 8 == r8 as int + k);
                } else {
                    assert((pos + k) / 8 == i as int + 1);
                    assert((pos + k) % 8 == r8 as int + k - 8);
                }
            }
            assert(byte_bits(b) =~= stream(data@).subrange(pos as int, pos as int + 8));
        }
        b
    }
}

/// Writes the eight bits of `v` at stream positions `pos .. pos + 8` with
/// masked merges, touching no bit outside that span.
pub(crate) fn write_byte_at(data: &mut [u8], pos: usize, v: u8)
    requires
        pos + 8 <= old(data)@.len() * 8,
    ensures
        final(data)@.len() == old(data)@.len(),
        stream(final(data)@) == spliced(stream(old(data)@), pos as int, byte_bits(v)),
{
    let i: usize = pos / 8;
    let r8: u8 = (pos % 8) as u8;
    proof {
        assert(i < data@.len());
    }
    if r8 == 0 {
        data[i] = v;
        proof {
            lemma_stream_update(old(data)@, i as int, v);
            assert(stream(data@) =~= spliced(stream(old(data)@), pos as int, byte_bits(v)));
        }
    } else {
        proof {
            assert(i + 1 < data@.len());
        }
        let d0: u8 = data[i];
        let d1: u8 = data[i + 1];
        let nd0: u8 = (d0 & (0xFFu8 << (8 - r8))) | (v >> r8);
        let nd1: u8 = (d1 & (0xFFu8 >> r8)) | (v << (8 - r8));
        data[i] = nd0;
        data[i + 1] = nd1;
        proof {
            lemma_byte_merge_write(d0, d1, v, r8, nd0, nd1);
            let s0 = stream(old(data)@);
            let u1 = old(data)@.update(i as int, nd0);
            lemma_stream_update(old(data)@, i as int, nd0);
            lemma_stream_update(u1, i as int + 1, nd1);
            let s1 = spliced(s0, 8 * (i as int), byte_bits(nd0));
            let s2 = spliced(s1, 8 * (i as int + 1), byte_bits(nd1));
            assert(data@ == u1.update(i as int + 1, nd1));
            assert(stream(data@) == s2);
            assert forall|j: int| 0 <= j < s0.len() implies s2[j] == spliced(
                s0,
                pos as int,
                byte_bits(v),
            )[j] by {
                let ib = i as int;
                if 8 * ib <= j < 8 * ib + 8 {
                    assert(j / 8 == ib);
                    assert(byte_bits(nd0)[j - 8 * ib] == bit(nd0, (j % 8) as u8));
                } else if 8 * ib + 8 <= j < 8 * ib + 16 {
                    assert(j / 8 == ib + 1);
                    assert(byte_bits(nd1)[j - 8 * (ib + 1)] == bit(nd1, (j % 8) as u8));
                }
            }
            assert(stream(data@) =~= spliced(s0, pos as int, byte_bits(v)));
        }
    }
}

} // verus!
