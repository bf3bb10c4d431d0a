use dod_tools::writer::ByteWriter;

#[test]
fn integers_are_little_endian() {
    let mut w = ByteWriter::new();
    w.u8(0xAB);
    w.u16(0x1234);
    w.u32(0xDEADBEEF);
    w.i32(-2);
    assert_eq!(w.offset(), 11);
    assert_eq!(
        w.into_vec(),
        vec![0xAB, 0x34, 0x12, 0xEF, 0xBE, 0xAD, 0xDE, 0xFE, 0xFF, 0xFF, 0xFF]
    );
}

#[test]
fn floats_are_written_as_their_bits() {
    let mut w = ByteWriter::with_capacity(16);
    w.f32_bits(1.5f32.to_bits());
    w.f64_bits(100.0f64.to_bits());
    let v = w.into_vec();
    assert_eq!(&v[0..4], &1.5f32.to_le_bytes());
    assert_eq!(&v[4..12], &100.0f64.to_le_bytes());
}

#[test]
fn fixed_str_pads_and_truncates() {
    let mut w = ByteWriter::new();
    w.fixed_str(b"dod\0junk", 6);
    assert_eq!(w.into_vec(), b"dod\0\0\0".to_vec());

    let mut w = ByteWriter::new();
    w.fixed_str(b"abcdefgh", 4);
    // At most width - 1 bytes, so the field always ends in a NUL.
    assert_eq!(w.into_vec(), b"abc\0".to_vec());
}

#[test]
fn patch_i32_overwrites_in_place() {
    let mut w = ByteWriter::new();
    w.i32(0);
    w.u8(9);
    w.patch_i32(0, 0x01020304);
    assert_eq!(w.into_vec(), vec![4, 3, 2, 1, 9]);
}

#[test]
fn bytes_are_appended() {
    let mut w = ByteWriter::default();
    w.bytes(&[1, 2, 3]);
    w.bytes(&[]);
    w.bytes(&[4]);
    assert_eq!(w.into_vec(), vec![1, 2, 3, 4]);
}
