use dungers::bitbuf::{get_bit_for_bit_num, BitReader, BitWriter, Error};

#[test]
fn three_bits_then_five_fill_one_byte() {
    let mut w = BitWriter::new(vec![0u8]);
    assert_eq!(w.write_bits(0b101, 3), Ok(()));
    assert_eq!(w.cursor_bits(), 3);
    assert_eq!(w.write_bits(0b11010, 5), Ok(()));
    assert_eq!(w.cursor_bits(), 8);
    assert_eq!(w.bytes_written(), 1);
    let bytes = w.finish();
    assert_eq!(bytes, vec![0b11010101]);

    let mut r = BitReader::new(&bytes, 8).unwrap();
    assert_eq!(r.read_bits(3), Ok(0b101));
    assert_eq!(r.read_bits(5), Ok(0b11010));
    assert_eq!(r.cursor_bits(), 8);
    assert_eq!(r.read_bits(1), Err(Error::Eof));
}

#[test]
fn bit_numbers_map_to_byte_and_mask() {
    assert_eq!(get_bit_for_bit_num(0), (0, 0x01));
    assert_eq!(get_bit_for_bit_num(1), (0, 0x02));
    assert_eq!(get_bit_for_bit_num(7), (0, 0x80));
    assert_eq!(get_bit_for_bit_num(8), (1, 0x01));
    assert_eq!(get_bit_for_bit_num(21), (2, 0x20));
}

#[test]
fn round_trip_at_every_width_and_offset() {
    let values = [0u64, 1, 0x5555_5555_5555_5555, 0xDEAD_BEEF_CAFE_F00D, u64::MAX];
    for offset in 0..17usize {
        for n in 0..=64usize {
            for &v in &values {
                let mut w = BitWriter::new(vec![0xA5u8; 11]);
                assert_eq!(w.seek_bits(offset), Ok(()));
                assert_eq!(w.write_bits(v, n), Ok(()));
                assert_eq!(w.cursor_bits(), offset + n);
                assert_eq!(w.high_water_bits(), offset + n);
                let bytes = w.finish();
                assert_eq!(bytes.len(), (offset + n + 7) / 8);

                let mut r = BitReader::new(&bytes, offset + n).unwrap();
                assert_eq!(r.seek_bits(offset), Ok(()));
                let want = if n == 64 { v } else { v & ((1u64 << n) - 1) };
                assert_eq!(r.read_bits(n), Ok(want));
                assert_eq!(r.cursor_bits(), offset + n);
            }
        }
    }
}

#[test]
fn a_write_leaves_the_bits_around_it() {
    let mut w = BitWriter::new(vec![0xFFu8, 0xFF, 0xFF]);
    assert_eq!(w.seek_bits(6), Ok(()));
    assert_eq!(w.write_bits(0, 5), Ok(()));
    assert_eq!(w.seek_bits(24), Ok(()));
    assert_eq!(w.write_bits(0, 0), Ok(()));
    assert_eq!(w.high_water_bits(), 24);
    assert_eq!(w.finish(), vec![0b0011_1111, 0b1111_1000, 0xFF]);
}

#[test]
fn a_field_crosses_byte_boundaries() {
    let mut w = BitWriter::new(vec![0u8; 4]);
    assert_eq!(w.write_bits(1, 1), Ok(()));
    assert_eq!(w.write_bits32(0xABCDE, 20), Ok(()));
    assert_eq!(w.bytes_written(), 3);
    let bytes = w.finish();
    assert_eq!(bytes, vec![0xBD, 0x79, 0x15]);
    let mut r = BitReader::new(&bytes, 21).unwrap();
    assert_eq!(r.read_bits32(1), Ok(1));
    assert_eq!(r.read_bits32(20), Ok(0xABCDE));
}

#[test]
fn writing_beyond_the_capacity_overflows() {
    let mut w = BitWriter::new(vec![0u8; 2]);
    assert_eq!(w.capacity_bits(), 16);
    assert_eq!(w.write_bits(0x3FF, 10), Ok(()));
    assert_eq!(w.write_bits(0x7F, 7), Err(Error::Overflow));
    assert_eq!(w.cursor_bits(), 10);
    assert_eq!(w.high_water_bits(), 10);
    assert_eq!(w.write_bits(0x3F, 6), Ok(()));
    assert_eq!(w.cursor_bits(), 16);
    assert_eq!(w.write_bits(1, 1), Err(Error::Overflow));
    assert_eq!(w.write_bits(1, 0), Ok(()));
    assert_eq!(w.finish(), vec![0xFF, 0xFF]);
}

#[test]
fn a_field_wider_than_its_type_overflows() {
    let mut w = BitWriter::new(vec![0u8; 32]);
    assert_eq!(w.write_bits(0, 65), Err(Error::Overflow));
    assert_eq!(w.write_bits32(0, 33), Err(Error::Overflow));
    assert_eq!(w.cursor_bits(), 0);
    assert_eq!(w.write_bits32(u32::MAX, 32), Ok(()));
    assert_eq!(w.write_bits(u64::MAX, 64), Ok(()));
    let bytes = w.finish();
    assert_eq!(bytes, vec![0xFFu8; 12]);
    let mut r = BitReader::new(&bytes, 96).unwrap();
    assert_eq!(r.read_bits(65), Err(Error::Overflow));
    assert_eq!(r.read_bits32(33), Err(Error::Overflow));
    assert_eq!(r.cursor_bits(), 0);
    assert_eq!(r.read_bits32(32), Ok(u32::MAX));
    assert_eq!(r.read_bits(64), Ok(u64::MAX));
}

#[test]
fn reading_beyond_the_length_is_eof() {
    let bytes = [0xFFu8, 0xFF];
    let mut r = BitReader::new(&bytes, 12).unwrap();
    assert_eq!(r.length_bits(), 12);
    assert_eq!(r.read_bits(13), Err(Error::Eof));
    assert_eq!(r.cursor_bits(), 0);
    assert_eq!(r.read_bits(12), Ok(0xFFF));
    assert_eq!(r.read_bits(1), Err(Error::Eof));
    assert_eq!(r.read_bits32(1), Err(Error::Eof));
    assert_eq!(r.cursor_bits(), 12);
    assert_eq!(r.read_bits(0), Ok(0));
}

#[test]
fn seeking_beyond_the_end_overflows() {
    let bytes = [0b0000_0100u8];
    let mut r = BitReader::new(&bytes, 6).unwrap();
    assert_eq!(r.seek_bits(7), Err(Error::Overflow));
    assert_eq!(r.cursor_bits(), 0);
    assert_eq!(r.seek_bits(2), Ok(()));
    assert_eq!(r.read_bits(1), Ok(1));
    assert_eq!(r.seek_bits(6), Ok(()));
    let mut w = BitWriter::new(vec![0u8]);
    assert_eq!(w.seek_bits(9), Err(Error::Overflow));
    assert_eq!(w.cursor_bits(), 0);
    assert_eq!(w.seek_bits(8), Ok(()));
}

#[test]
fn a_reader_longer_than_its_bytes_is_refused() {
    let bytes = [0u8; 2];
    assert!(BitReader::new(&bytes, 16).is_ok());
    assert!(matches!(BitReader::new(&bytes, 17), Err(Error::Overflow)));
    assert!(matches!(BitReader::new(&bytes, usize::MAX), Err(Error::Overflow)));
    assert!(BitReader::new(&[], 0).is_ok());
}

#[test]
fn the_high_water_mark_outlives_a_seek_back() {
    let mut w = BitWriter::new(vec![0u8; 4]);
    assert_eq!(w.write_bits(0xFFFF, 16), Ok(()));
    assert_eq!(w.seek_bits(4), Ok(()));
    assert_eq!(w.write_bits(0, 4), Ok(()));
    assert_eq!(w.cursor_bits(), 8);
    assert_eq!(w.high_water_bits(), 16);
    assert_eq!(w.bytes_written(), 2);
    assert_eq!(w.finish(), vec![0x0F, 0xFF]);
}

#[test]
fn bitbuf_error_messages() {
    assert_eq!(Error::Eof.message(), "end of buffer");
    assert_eq!(Error::Overflow.message(), "buffer overflow");
}
