use dod_tools::bit::{BitReader, BitSliceCast, BitWriter};
use dod_tools::bitvec_model::BitVec;

/// Reads past the end return zero and set the flag, rather than indexing
/// out of bounds.
#[test]
fn reading_past_the_end_sets_bad_read_instead_of_panicking() {
    let mut br = BitReader::new(&[0xff, 0x00]);
    assert_eq!(br.read_n_bit(8).to_u8(), 0xff);
    assert!(!br.is_bad_read());

    assert_eq!(br.read_n_bit(16).to_u8(), 0);
    assert!(br.is_bad_read());
}

#[test]
fn a_single_bit_past_the_end_reads_false() {
    let mut br = BitReader::new(&[0x01]);
    for _ in 0..8 {
        br.read_1_bit();
    }
    assert!(!br.is_bad_read());
    assert!(!br.read_1_bit());
    assert!(br.is_bad_read());
}

/// A `bits` field of 0 reaches `read_n_bit` as `0usize - 1`, which wraps.
#[test]
fn a_wrapped_bit_count_does_not_index_out_of_bounds() {
    let mut br = BitReader::new(&[0xaa; 4]);
    assert_eq!(br.read_n_bit(usize::MAX).to_u32(), 0);
    assert!(br.is_bad_read());
}

#[test]
fn a_string_with_no_null_terminator_sets_bad_read() {
    let mut br = BitReader::new(b"no terminator here");
    let _ = br.read_string();
    assert!(br.is_bad_read());

    let mut br = BitReader::new(b"terminated\x00");
    assert_eq!(br.read_string().get_string(), "terminated\x00");
    assert!(!br.is_bad_read());
}

/// Loading from an empty run of bits or from one wider than the target
/// type does not panic.
#[test]
fn converting_an_empty_or_oversized_slice_does_not_panic() {
    let empty = BitReader::new(&[]);
    assert_eq!(empty.peek_n_bits(8).to_u32(), 0);

    let wide = BitVec::from_slice(&[0xff; 16]);
    assert_eq!(wide.to_u8(), 0xff);
    assert_eq!(wide.to_u32(), u32::MAX);
}

#[test]
fn has_bits_reports_what_is_left() {
    let mut br = BitReader::new(&[0x00, 0x00]);
    assert!(br.has_bits(16));
    assert!(!br.has_bits(17));
    assert!(!br.has_bits(usize::MAX));
    br.read_n_bit(8);
    assert!(br.has_bits(8));
    assert!(!br.has_bits(9));
}

#[test]
fn single_bits_come_least_significant_first() {
    let mut br = BitReader::new(&[0b0000_0110]);
    assert!(!br.read_1_bit());
    assert!(br.read_1_bit());
    assert!(br.read_1_bit());
    assert!(!br.read_1_bit());
    assert_eq!(br.get_offset(), 4);
    assert_eq!(br.get_consumed_bytes(), 1);
}

#[test]
fn consumed_bytes_round_up() {
    let mut br = BitReader::new(&[0xff, 0xff, 0xff]);
    assert_eq!(br.get_consumed_bytes(), 0);
    br.read_n_bit(9);
    assert_eq!(br.get_consumed_bytes(), 2);
    br.read_n_bit(7);
    assert_eq!(br.get_consumed_bytes(), 2);
    br.read_1_bit();
    assert_eq!(br.get_consumed_bytes(), 3);
}

#[test]
fn bad_read_stays_set() {
    let mut br = BitReader::new(&[0x12]);
    br.read_n_bit(9);
    assert!(br.is_bad_read());
    assert_eq!(br.get_offset(), 8);
    br.read_n_bit(0);
    assert!(br.is_bad_read());
    let mut other = BitReader::new(&[0x12]);
    other.flag_bad_read();
    assert!(other.is_bad_read());
    assert_eq!(other.read_n_bit(8).to_u8(), 0x12);
    assert!(other.is_bad_read());
}

#[test]
fn peeking_does_not_move() {
    let br = BitReader::new(&[0x34, 0x12]);
    assert_eq!(br.peek_n_bits(16).to_u16(), 0x1234);
    assert_eq!(br.get_offset(), 0);
    assert!(br.peek_n_bits(17).len() == 0);
    assert!(!br.is_bad_read());
}

#[test]
fn read_string_stops_after_the_terminator() {
    let mut br = BitReader::new(b"ab\x00cd\x00");
    assert_eq!(br.read_string().get_string(), "ab\x00");
    assert_eq!(br.get_offset(), 24);
    assert_eq!(br.read_string().get_string(), "cd\x00");
    assert!(!br.is_bad_read());
    let leftover = br.read_string();
    assert_eq!(leftover.len(), 0);
    assert!(br.is_bad_read());
}

#[test]
fn signed_loads_sign_extend_from_the_last_bit() {
    let v = BitVec::from_slice(&[0b0000_0111]);
    let mut br = BitReader::new(&[0b0000_0111]);
    let three = br.read_n_bit(3);
    assert_eq!(three.to_i8(), -1);
    assert_eq!(three.to_u8(), 7);
    assert_eq!(v.to_i8(), 7);
    let neg = BitVec::from_slice(&[0xfe, 0xff]);
    assert_eq!(neg.to_i16(), -2);
    assert_eq!(neg.to_i32(), -2);
    assert_eq!(neg.to_u16(), 0xfffe);
}

#[test]
fn get_string_turns_a_short_last_chunk_into_its_signed_byte() {
    let mut br = BitReader::new(&[b'A', 0b0000_0101]);
    let bits = br.read_n_bit(11);
    // 'A', then the three bits 1, 0, 1: sign-extended to 0xfd, not UTF-8
    assert_eq!(bits.get_string(), "A\u{fffd}");
}

#[test]
fn written_bits_read_back() {
    let mut w = BitWriter::new();
    w.append_bit(true);
    w.append_u8(0xa5);
    w.append_u32_range(0x1234_5678, 20);
    w.append_i32_range(-1, 3);
    assert_eq!(w.get_offset(), 32);
    let bytes = w.get_u8_vec();
    assert_eq!(bytes.len(), 4);
    let mut br = BitReader::new(&bytes);
    assert!(br.read_1_bit());
    assert_eq!(br.read_n_bit(8).to_u8(), 0xa5);
    assert_eq!(br.read_n_bit(20).to_u32(), 0x4_5678);
    assert_eq!(br.read_n_bit(3).to_u8(), 7);
    assert!(!br.is_bad_read());
}

#[test]
fn inserted_bits_land_in_place() {
    let mut w = BitWriter::new();
    w.append_u8(0x00);
    w.insert_bit(true, 0);
    w.insert_u8(0xff, 1);
    assert_eq!(w.get_offset(), 17);
    let mut other = BitWriter::new();
    other.append_bit(true);
    other.append_u8(0xff);
    other.append_u8(0x00);
    assert_eq!(w.get_u8_vec()[..2], other.get_u8_vec()[..2]);
    let mut v = BitWriter::new();
    v.append_u8(0);
    v.insert_u32_range(0b101, 3, 4);
    v.insert_vec(BitVec::from_slice(&[0x01]), 0);
    let mut br = BitReader::new(&v.get_u8_vec());
    assert_eq!(br.read_n_bit(8).to_u8(), 0x01);
    assert_eq!(br.read_n_bit(4).to_u8(), 0);
    assert_eq!(br.read_n_bit(3).to_u8(), 0b101);
    assert_eq!(br.read_n_bit(4).to_u8(), 0);
}

#[test]
fn a_writer_offset_counts_its_bits() {
    let mut w = BitWriter::default();
    assert_eq!(w.get_offset(), w.data.len());
    w.append_bit(false);
    assert_eq!(w.get_offset(), w.data.len());
    w.append_u32_range(7, 5);
    w.insert_u8(3, 2);
    w.append_slice(&BitVec::from_slice(&[1, 2]));
    w.insert_slice(&BitVec::from_slice(&[9]), 0);
    w.append_i32_range(-5, 32);
    assert_eq!(w.get_offset(), 1 + 5 + 8 + 16 + 8 + 32);
    assert_eq!(w.get_offset(), w.data.len());
    let _ = w.get_u8_vec();
    assert_eq!(w.get_offset(), w.data.len());
}
