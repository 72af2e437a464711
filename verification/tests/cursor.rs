use bitbuf::BitBuf;
use bitbuf::BitBufMut;
use bitbuf::BitSlice;
use bitbuf::BitSliceMut;
use bitbuf::Insufficient;
use bitbuf::UnalignedError;

#[test]
fn read_bits_concrete() {
    let data: Vec<u8> = vec![0b1011_0000];
    let mut r = BitSlice::new(&data);
    assert_eq!(r.read_bool(), Ok(true));
    assert_eq!(r.read_bool(), Ok(false));
    assert_eq!(r.read_bool(), Ok(true));
    assert_eq!(r.read_bool(), Ok(true));
    assert_eq!(r.remaining(), 4);
    assert_eq!(r.len(), 4);
}

#[test]
fn write_byte_at_prefix_four() {
    let data: Vec<u8> = vec![0, 0];
    let mut w = BitSliceMut::new(data);
    assert_eq!(w.advance(4), Ok(()));
    assert_eq!(w.write_byte(0xFF), Ok(()));
    // Skipping four bits wrote nothing; the byte is all that was produced.
    assert_eq!(w.len(), 8);
    let out = w.into_inner();
    assert_eq!(out, vec![0b0000_1111, 0b1111_0000]);
}

#[test]
fn read_byte_across_boundary() {
    let data: Vec<u8> = vec![0xAB, 0xCD];
    let mut r = BitSlice::new(&data);
    assert_eq!(r.advance(4), Ok(()));
    assert_eq!(r.read_byte(), Ok(0xBC));
    assert_eq!(r.remaining(), 4);
}

#[test]
fn read_byte_aligned() {
    let data: Vec<u8> = vec![0xAB, 0xCD];
    let mut r = BitSlice::new(&data);
    assert_eq!(r.read_byte(), Ok(0xAB));
    assert_eq!(r.read_byte(), Ok(0xCD));
    assert_eq!(r.read_byte(), Err(Insufficient));
}

#[test]
fn read_byte_insufficient_leaves_position() {
    let data: Vec<u8> = vec![0xAB];
    let mut r = BitSlice::new(&data);
    assert_eq!(r.advance(4), Ok(()));
    assert_eq!(r.read_byte(), Err(Insufficient));
    assert_eq!(r.remaining(), 4);
    assert_eq!(r.len(), 4);
}

#[test]
fn advance_boundary() {
    let data: Vec<u8> = vec![0x55, 0xAA];
    let mut r = BitSlice::new(&data);
    assert_eq!(r.advance(16), Ok(()));
    assert_eq!(r.remaining(), 0);
    assert_eq!(r.read_bool(), Err(Insufficient));
}

#[test]
fn advance_past_end_fails_without_moving() {
    let data: Vec<u8> = vec![0x55, 0xAA];
    let mut r = BitSlice::new(&data);
    assert_eq!(r.advance(3), Ok(()));
    assert_eq!(r.advance(14), Err(Insufficient));
    assert_eq!(r.remaining(), 13);
    assert_eq!(r.len(), 3);
    assert_eq!(r.advance(13), Ok(()));
    assert_eq!(r.remaining(), 0);
}

#[test]
fn writer_advance_boundary() {
    let data: Vec<u8> = vec![0, 0];
    let mut w = BitSliceMut::new(data);
    assert_eq!(w.advance(17), Err(Insufficient));
    assert_eq!(w.len(), 0);
    assert_eq!(w.remaining(), 16);
    assert_eq!(w.advance(16), Ok(()));
    assert_eq!(w.remaining(), 0);
    assert_eq!(w.write_bool(true), Err(Insufficient));
}

#[test]
fn write_bool_sets_single_bits() {
    let data: Vec<u8> = vec![0, 0];
    let mut w = BitSliceMut::new(data);
    assert_eq!(w.write_bool(true), Ok(()));
    assert_eq!(w.write_bool(false), Ok(()));
    assert_eq!(w.write_bool(true), Ok(()));
    assert_eq!(w.len(), 3);
    let out = w.into_inner();
    assert_eq!(out, vec![0b1010_0000, 0]);
}

#[test]
fn write_bool_clears_without_disturbing() {
    let data: Vec<u8> = vec![0xFF];
    let mut w = BitSliceMut::new(data);
    assert_eq!(w.advance(5), Ok(()));
    assert_eq!(w.write_bool(false), Ok(()));
    let out = w.into_inner();
    assert_eq!(out, vec![0b1111_1011]);
}

#[test]
fn write_byte_keeps_neighbors() {
    let data: Vec<u8> = vec![0xFF, 0xFF];
    let mut w = BitSliceMut::new(data);
    assert_eq!(w.advance(4), Ok(()));
    assert_eq!(w.write_byte(0x00), Ok(()));
    let out = w.into_inner();
    // Only the eight bits starting at position four were cleared.
    assert_eq!(out, vec![0xF0, 0x0F]);
}

#[test]
fn read_block_with_partial_tail() {
    let data: Vec<u8> = vec![0xAB, 0xCD];
    let mut r = BitSlice::new(&data);
    let mut dst: Vec<u8> = vec![0x00, 0x0F];
    assert_eq!(r.read(&mut dst, 12), Ok(12));
    // The tail byte's low four bits are left untouched.
    assert_eq!(dst, vec![0xAB, 0xCF]);
    assert_eq!(r.remaining(), 4);
}

#[test]
fn read_block_clamps_to_remaining() {
    let data: Vec<u8> = vec![0xAB];
    let mut r = BitSlice::new(&data);
    let mut dst: Vec<u8> = vec![0, 0];
    assert_eq!(r.read(&mut dst, 100), Ok(8));
    assert_eq!(dst, vec![0xAB, 0]);
    assert_eq!(r.remaining(), 0);
}

#[test]
fn read_block_overflow_when_dst_short() {
    let data: Vec<u8> = vec![0xAB, 0xCD];
    let mut r = BitSlice::new(&data);
    let mut dst: Vec<u8> = vec![0];
    let res = r.read(&mut dst, 12);
    assert!(res.is_err());
    // Nothing moved: cursor and destination are untouched.
    assert_eq!(r.remaining(), 16);
    assert_eq!(dst, vec![0]);
}

#[test]
fn write_block_with_partial_tail() {
    let data: Vec<u8> = vec![0xFF, 0xFF];
    let mut w = BitSliceMut::new(data);
    assert_eq!(w.write(&[0xA5], 4), Ok(4));
    assert_eq!(w.len(), 4);
    let out = w.into_inner();
    // Top four bits of the source byte land in the top four of the target;
    // everything else survives.
    assert_eq!(out, vec![0xAF, 0xFF]);
}

#[test]
fn write_block_clamps_to_room() {
    let data: Vec<u8> = vec![0, 0];
    let mut w = BitSliceMut::new(data);
    assert_eq!(w.write(&[0xAB, 0xCD, 0xEF], 24), Ok(16));
    assert_eq!(w.remaining(), 0);
    let out = w.into_inner();
    assert_eq!(out, vec![0xAB, 0xCD]);
}

#[test]
fn write_block_overflow_when_src_short() {
    let data: Vec<u8> = vec![0, 0, 0];
    let mut w = BitSliceMut::new(data);
    let res = w.write(&[0xAB], 12);
    assert!(res.is_err());
    assert_eq!(w.len(), 0);
    let out = w.into_inner();
    assert_eq!(out, vec![0, 0, 0]);
}

#[test]
fn read_all_distinguishes_errors() {
    let data: Vec<u8> = vec![0xAB];
    let mut r = BitSlice::new(&data);
    let mut dst: Vec<u8> = vec![0, 0];
    // More bits than the source holds: Insufficient, nothing moved.
    assert!(matches!(
        r.read_all(&mut dst, 9),
        Err(UnalignedError::Insufficient(_))
    ));
    assert_eq!(r.remaining(), 8);
    assert_eq!(dst, vec![0, 0]);
    // Destination too small in bytes: Overflow, nothing moved.
    let mut small: Vec<u8> = vec![0];
    let mut r2 = BitSlice::new(&data);
    assert_eq!(r2.advance(1), Ok(()));
    assert!(matches!(
        r2.read_all(&mut small, 9),
        Err(UnalignedError::Insufficient(_))
    ));
    let data3: Vec<u8> = vec![0xAB, 0xCD];
    let mut r3 = BitSlice::new(&data3);
    assert!(matches!(
        r3.read_all(&mut small, 9),
        Err(UnalignedError::Overflow(_))
    ));
    assert_eq!(r3.remaining(), 16);
    // Exactly enough on both sides succeeds.
    assert_eq!(r3.read_all(&mut dst, 16), Ok(()));
    assert_eq!(dst, vec![0xAB, 0xCD]);
}

#[test]
fn write_all_distinguishes_errors() {
    let data: Vec<u8> = vec![0];
    let mut w = BitSliceMut::new(data);
    assert!(matches!(
        w.write_all(&[0xAB, 0xCD], 9),
        Err(UnalignedError::Insufficient(_))
    ));
    assert_eq!(w.len(), 0);
    let data2: Vec<u8> = vec![0, 0];
    let mut w2 = BitSliceMut::new(data2);
    assert!(matches!(
        w2.write_all(&[0xAB], 9),
        Err(UnalignedError::Overflow(_))
    ));
    assert_eq!(w2.len(), 0);
    assert_eq!(w2.write_all(&[0xAB], 8), Ok(()));
    assert_eq!(w2.into_inner(), vec![0xAB, 0]);
}

#[test]
fn read_aligned_and_all() {
    let data: Vec<u8> = vec![0xDE, 0xAD, 0xBE];
    let mut r = BitSlice::new(&data);
    let mut dst: Vec<u8> = vec![0, 0];
    assert_eq!(r.read_aligned(&mut dst), 16);
    assert_eq!(dst, vec![0xDE, 0xAD]);
    // One byte left: an aligned all-or-nothing read of two bytes fails clean.
    let mut dst2: Vec<u8> = vec![0, 0];
    assert_eq!(r.read_aligned_all(&mut dst2), Err(Insufficient));
    assert_eq!(r.remaining(), 8);
    assert_eq!(dst2, vec![0, 0]);
    let mut dst3: Vec<u8> = vec![0];
    assert_eq!(r.read_aligned_all(&mut dst3), Ok(()));
    assert_eq!(dst3, vec![0xBE]);
}

#[test]
fn write_aligned_and_all() {
    let data: Vec<u8> = vec![0, 0, 0];
    let mut w = BitSliceMut::new(data);
    assert_eq!(w.write_aligned(&[0xDE, 0xAD]), 16);
    assert_eq!(w.write_aligned_all(&[0xBE, 0xEF]), Err(Insufficient));
    assert_eq!(w.len(), 16);
    assert_eq!(w.write_aligned_all(&[0xBE]), Ok(()));
    assert_eq!(w.into_inner(), vec![0xDE, 0xAD, 0xBE]);
}

#[test]
fn read_aligned_clamps_at_unaligned_remainder() {
    let data: Vec<u8> = vec![0xAB, 0xCD];
    let mut r = BitSlice::new(&data);
    assert_eq!(r.advance(4), Ok(()));
    let mut dst: Vec<u8> = vec![0, 0];
    // Twelve bits remain: they fill one and a half destination bytes.
    assert_eq!(r.read_aligned(&mut dst), 12);
    assert_eq!(dst, vec![0xBC, 0xD0]);
    assert_eq!(r.remaining(), 0);
}
