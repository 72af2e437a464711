use bitbuf::BitBuf;
use bitbuf::BitBufMut;
use bitbuf::BitSlice;
use bitbuf::BitSliceMut;
use bitbuf::Fill;
use bitbuf::Insufficient;

fn bit_of(bytes: &[u8], pos: usize) -> u8 {
    (bytes[pos / 8] >> (7 - pos % 8)) & 1
}

#[test]
fn round_trip_every_prefix() {
    let source_bytes: Vec<u8> = vec![0x3C, 0xA7, 0x55];
    for prefix in 0..8usize {
        let max_k = 24 - prefix;
        for k in [0usize, 1, 7, 8, 9, 15, max_k] {
            if k > max_k {
                continue;
            }
            let mut r = BitSlice::new(&source_bytes);
            r.advance(prefix).unwrap();
            let mut taken: Vec<bool> = Vec::new();
            for _ in 0..k {
                taken.push(r.read_bool().unwrap());
            }
            let mut w = BitSliceMut::new(vec![0u8; 3]);
            w.advance(prefix).unwrap();
            for &v in &taken {
                w.write_bool(v).unwrap();
            }
            let out = w.into_inner();
            let mut back = BitSlice::new(&out);
            back.advance(prefix).unwrap();
            for i in 0..k {
                assert_eq!(back.read_bool().unwrap(), taken[i]);
            }
        }
    }
}

#[test]
fn round_trip_block_reads() {
    let source_bytes: Vec<u8> = vec![0x9E, 0x01, 0xF7];
    for prefix in 0..8usize {
        let k = 24 - 8 - prefix;
        let mut r = BitSlice::new(&source_bytes);
        r.advance(prefix).unwrap();
        let mut mid: Vec<u8> = vec![0u8; 2];
        assert_eq!(r.read(&mut mid, k), Ok(k));
        let mut w = BitSliceMut::new(vec![0u8; 3]);
        w.advance(prefix).unwrap();
        assert_eq!(w.write(&mid, k), Ok(k));
        let out = w.into_inner();
        for i in 0..k {
            assert_eq!(bit_of(&out, prefix + i), bit_of(&source_bytes, prefix + i));
        }
    }
}

#[test]
fn non_disturbance_bit_and_field_writes() {
    let base: Vec<u8> = vec![0x5A, 0xC3, 0x99];
    for p in 0..24usize {
        for field in [1usize, 3, 5, 8] {
            if p + field > 24 {
                continue;
            }
            let mut w = BitSliceMut::new(base.clone());
            w.advance(p).unwrap();
            assert_eq!(w.write(&[0xFF], field), Ok(field));
            let out = w.into_inner();
            for i in 0..24usize {
                if i < p || i >= p + field {
                    // Outside the written span every bit survives.
                    assert_eq!(bit_of(&out, i), bit_of(&base, i));
                } else {
                    assert_eq!(bit_of(&out, i), 1);
                }
            }
        }
    }
}

#[test]
fn resumability_odd_chunks_fill() {
    // Thirteen bits from one source, then three from another, land exactly
    // as one contiguous sixteen-bit stream.
    let xy: Vec<u8> = vec![0xAD, 0xB7];
    let z: Vec<u8> = vec![0xC5];
    let mut f = Fill::new(vec![0u8; 2]);
    let mut s1 = BitSlice::new(&xy);
    s1.advance(3).unwrap();
    assert_eq!(f.fill_from(&mut s1), Err(Insufficient));
    assert_eq!(f.len(), 13);
    let mut s2 = BitSlice::new(&z);
    assert_eq!(f.fill_from(&mut s2), Ok(()));
    assert_eq!(f.len(), 16);
    assert_eq!(s2.remaining(), 5);
    let out = f.into_inner();
    for i in 0..16usize {
        let expect = if i < 13 { bit_of(&xy, 3 + i) } else { bit_of(&z, i - 13) };
        assert_eq!(bit_of(&out, i), expect);
    }
}

#[test]
fn boundary_exact_and_one_past() {
    let data: Vec<u8> = vec![0x0F, 0xF0];
    // advance
    let mut r = BitSlice::new(&data);
    assert_eq!(r.advance(16), Ok(()));
    assert_eq!(r.remaining(), 0);
    let mut r = BitSlice::new(&data);
    assert_eq!(r.advance(17), Err(Insufficient));
    assert_eq!(r.remaining(), 16);
    assert_eq!(r.len(), 0);
    // block read
    let mut r = BitSlice::new(&data);
    let mut dst: Vec<u8> = vec![0u8; 2];
    assert_eq!(r.read(&mut dst, 16), Ok(16));
    assert_eq!(r.remaining(), 0);
    assert_eq!(dst, data);
    // block write
    let mut w = BitSliceMut::new(vec![0u8; 2]);
    assert_eq!(w.write(&data, 16), Ok(16));
    assert_eq!(w.remaining(), 0);
    assert_eq!(w.write_bool(true), Err(Insufficient));
    assert_eq!(w.len(), 16);
}

#[test]
fn capacity_mismatch_is_overflow_not_insufficient() {
    // The cursor has plenty of bits; only the caller's slice is short.
    let data: Vec<u8> = vec![0x11, 0x22, 0x33];
    let mut r = BitSlice::new(&data);
    let mut dst: Vec<u8> = vec![0u8];
    assert!(r.read(&mut dst, 9).is_err());
    assert_eq!(r.remaining(), 24);
    let mut w = BitSliceMut::new(vec![0u8; 3]);
    assert!(w.write(&dst, 9).is_err());
    assert_eq!(w.len(), 0);
    // Exactly ceil(9/8) bytes is enough.
    let mut dst2: Vec<u8> = vec![0u8; 2];
    assert_eq!(r.read(&mut dst2, 9), Ok(9));
}
