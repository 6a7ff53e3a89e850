use std::borrow::Cow;

use dwarf_reader::endian_slice::EndianSlice;
use dwarf_reader::endianity::{BigEndian, LittleEndian, RunTimeEndian};
use dwarf_reader::error::Error;
use dwarf_reader::format::Format;
use dwarf_reader::reader::{Reader, ReaderOffset};

fn little(bytes: &[u8]) -> EndianSlice<'_, LittleEndian, usize> {
    EndianSlice::new(bytes, LittleEndian).unwrap()
}

fn big(bytes: &[u8]) -> EndianSlice<'_, BigEndian, usize> {
    EndianSlice::new(bytes, BigEndian).unwrap()
}

fn narrow(bytes: &[u8]) -> EndianSlice<'_, LittleEndian, u32> {
    EndianSlice::new(bytes, LittleEndian).unwrap()
}

fn rest<R: Reader>(reader: &R) -> Vec<u8> {
    reader.to_slice().unwrap().into_owned()
}

#[test]
fn a_new_reader_holds_the_whole_section() {
    let bytes = [1u8, 2, 3];
    let reader = little(&bytes);
    assert_eq!(reader.len(), 3);
    assert!(!reader.is_empty());
    assert_eq!(rest(&reader), vec![1, 2, 3]);
    assert_eq!(reader.endian(), LittleEndian);
    let nothing: [u8; 0] = [];
    let reader = big(&nothing);
    assert_eq!(reader.len(), 0);
    assert!(reader.is_empty());
    assert_eq!(reader.endian(), BigEndian);
}

#[test]
fn scenario_byte_then_strings() {
    let bytes = [0x05, 0x00, b'h', b'i', 0x00];
    let mut reader = narrow(&bytes);
    assert_eq!(reader.read_u8(), Ok(5));
    assert_eq!(rest(&reader), vec![0x00, b'h', b'i', 0x00]);
    // The next byte is a terminator already: the string before it is empty.
    let empty = reader.read_null_terminated_slice().unwrap();
    assert!(empty.is_empty());
    assert_eq!(rest(&reader), vec![b'h', b'i', 0x00]);
    let text = reader.read_null_terminated_slice().unwrap();
    assert_eq!(text.len(), 2u32);
    assert_eq!(rest(&text), b"hi".to_vec());
    assert_eq!(text.to_string().unwrap(), "hi");
    assert!(reader.is_empty());
    assert_eq!(reader.len(), 0u32);
}

#[test]
fn scenario_byte_then_string() {
    let bytes = [0x05, b'h', b'i', 0x00];
    let mut reader = narrow(&bytes);
    assert_eq!(reader.read_u8(), Ok(5));
    assert_eq!(rest(&reader), vec![b'h', b'i', 0x00]);
    let text = reader.read_null_terminated_slice().unwrap();
    assert_eq!(rest(&text), b"hi".to_vec());
    assert!(reader.is_empty());
}

#[test]
fn null_terminated_slice_stops_at_the_first_null() {
    let bytes = b"hello\0world\0";
    let mut reader = little(bytes);
    let hello = reader.read_null_terminated_slice().unwrap();
    assert_eq!(rest(&hello), b"hello".to_vec());
    assert_eq!(rest(&reader), b"world\0".to_vec());
    assert_eq!(reader.offset_from(&little(bytes)), 6);
    let world = reader.read_null_terminated_slice().unwrap();
    assert_eq!(rest(&world), b"world".to_vec());
    assert!(reader.is_empty());
}

#[test]
fn null_terminated_slice_needs_a_null() {
    let bytes = b"hello";
    let mut reader = little(bytes);
    assert_eq!(reader.read_null_terminated_slice().err(), Some(Error::UnexpectedEof));
    assert_eq!(rest(&reader), b"hello".to_vec());
    let nothing: [u8; 0] = [];
    let mut reader = little(&nothing);
    assert_eq!(reader.read_null_terminated_slice().err(), Some(Error::UnexpectedEof));
}

#[test]
fn split_parts_rejoin_to_the_whole() {
    let bytes = [10u8, 20, 30, 40, 50];
    for count in 0..=5usize {
        let mut reader = little(&bytes);
        let part = reader.split(count).unwrap();
        assert_eq!(part.len(), count);
        assert_eq!(reader.len(), 5 - count);
        let mut rejoined = rest(&part);
        rejoined.extend(rest(&reader));
        assert_eq!(rejoined, bytes.to_vec());
        assert_eq!(rest(&part), bytes[..count].to_vec());
        assert_eq!(rest(&reader), bytes[count..].to_vec());
    }
}

#[test]
fn split_past_the_end_fails_and_reads_nothing() {
    let bytes = [10u8, 20, 30];
    let mut reader = little(&bytes);
    assert_eq!(reader.split(4).err(), Some(Error::OutOfBounds));
    assert_eq!(reader.len(), 3);
    assert_eq!(rest(&reader), vec![10, 20, 30]);
}

#[test]
fn skip_past_the_end_fails_and_reads_nothing() {
    let bytes = [10u8, 20, 30];
    let mut reader = little(&bytes);
    assert_eq!(reader.skip(4), Err(Error::OutOfBounds));
    assert_eq!(reader.len(), 3);
    assert_eq!(reader.skip(usize::MAX), Err(Error::OutOfBounds));
    assert_eq!(rest(&reader), vec![10, 20, 30]);
    let mut wide: EndianSlice<'_, LittleEndian, u64> =
        EndianSlice::new(&bytes, LittleEndian).unwrap();
    assert_eq!(wide.skip(u64::MAX), Err(Error::OutOfBounds));
    assert_eq!(wide.len(), 3u64);
}

#[test]
fn skip_discards_bytes() {
    let bytes = [10u8, 20, 30];
    let mut reader = little(&bytes);
    assert_eq!(reader.skip(0), Ok(()));
    assert_eq!(reader.len(), 3);
    assert_eq!(reader.skip(2), Ok(()));
    assert_eq!(rest(&reader), vec![30]);
    assert_eq!(reader.skip(1), Ok(()));
    assert!(reader.is_empty());
    assert_eq!(reader.skip(1), Err(Error::OutOfBounds));
}

#[test]
fn truncate_keeps_the_front() {
    let bytes = [10u8, 20, 30];
    let mut reader = little(&bytes);
    assert_eq!(reader.truncate(3), Ok(()));
    assert_eq!(reader.len(), 3);
    assert_eq!(reader.truncate(2), Ok(()));
    assert_eq!(rest(&reader), vec![10, 20]);
    assert_eq!(reader.truncate(3), Err(Error::OutOfBounds));
    assert_eq!(rest(&reader), vec![10, 20]);
    assert_eq!(reader.truncate(0), Ok(()));
    assert!(reader.is_empty());
}

#[test]
fn empty_discards_what_remains() {
    let bytes = [10u8, 20, 30];
    let base = little(&bytes);
    let mut reader = base;
    reader.skip(1).unwrap();
    reader.empty();
    assert!(reader.is_empty());
    assert_eq!(reader.len(), 0);
    assert_eq!(reader.offset_from(&base), 1);
    assert_eq!(reader.read_u8(), Err(Error::UnexpectedEof));
}

#[test]
fn offset_from_counts_bytes_from_the_base() {
    let bytes = [0u8; 16];
    let base = little(&bytes);
    let mut reader = base.clone();
    assert_eq!(reader.offset_from(&base), 0);
    reader.read_u32().unwrap();
    assert_eq!(reader.offset_from(&base), 4);
    let mut part = reader.split(8).unwrap();
    assert_eq!(part.offset_from(&base), 4);
    assert_eq!(reader.offset_from(&base), 12);
    let inner_base = part;
    part.read_u16().unwrap();
    assert_eq!(part.offset_from(&inner_base), 2);
    assert_eq!(part.offset_from(&base), 6);
}

#[test]
fn find_gives_the_first_index() {
    let bytes = [3u8, 1, 4, 1, 5, 9, 2, 6];
    let mut reader = little(&bytes);
    assert_eq!(reader.find(3), Ok(0));
    assert_eq!(reader.find(1), Ok(1));
    assert_eq!(reader.find(6), Ok(7));
    assert_eq!(reader.find(7), Err(Error::UnexpectedEof));
    assert_eq!(reader.len(), 8);
    reader.skip(2).unwrap();
    assert_eq!(reader.find(1), Ok(1));
    assert_eq!(reader.find(3), Err(Error::UnexpectedEof));
    reader.truncate(3).unwrap();
    assert_eq!(reader.find(9), Err(Error::UnexpectedEof));
}

#[test]
fn slice_outlives_the_reader() {
    let bytes = [1u8, 2, 3, 4];
    let slice = {
        let mut reader = little(&bytes);
        reader.skip(1).unwrap();
        reader.truncate(2).unwrap();
        reader.slice()
    };
    assert_eq!(slice, &[2u8, 3][..]);
}

#[test]
fn to_slice_borrows_the_remaining_bytes() {
    let bytes = [1u8, 2, 3, 4];
    let mut reader = little(&bytes);
    reader.read_u8().unwrap();
    let slice = reader.to_slice().unwrap();
    assert!(matches!(slice, Cow::Borrowed(_)));
    assert_eq!(&*slice, &[2u8, 3, 4][..]);
    assert_eq!(reader.len(), 3);
}

#[test]
fn to_string_takes_valid_text() {
    let bytes = "na\u{ef}ve \u{2713}".as_bytes();
    let reader = little(bytes);
    let text = reader.to_string().unwrap();
    assert!(matches!(text, Cow::Borrowed(_)));
    assert_eq!(text, "na\u{ef}ve \u{2713}");
    assert_eq!(reader.len(), bytes.len());
    let nothing: [u8; 0] = [];
    assert_eq!(little(&nothing).to_string().unwrap(), "");
}

#[test]
fn to_string_refuses_invalid_text() {
    let bytes = [b'a', 0xff, b'b'];
    let reader = little(&bytes);
    assert_eq!(reader.to_string(), Err(Error::BadUtf8));
    let cut_short = [0xe2, 0x9c];
    assert_eq!(little(&cut_short).to_string(), Err(Error::BadUtf8));
    assert_eq!(reader.len(), 3);
}

#[test]
fn to_string_lossy_replaces_invalid_text() {
    let bytes = [b'a', 0xff, b'b'];
    let reader = little(&bytes);
    assert_eq!(reader.to_string_lossy().unwrap(), "a\u{fffd}b");
    let valid = little(b"plain");
    let text = valid.to_string_lossy().unwrap();
    assert_eq!(text, "plain");
    assert!(matches!(text, Cow::Borrowed(_)));
    assert_eq!(reader.len(), 3);
}

#[test]
fn read_u8_array_takes_exactly_its_length() {
    let bytes = [1u8, 2, 3, 4, 5];
    let mut reader = little(&bytes);
    let array: [u8; 4] = reader.read_u8_array().unwrap();
    assert_eq!(array, [1, 2, 3, 4]);
    assert_eq!(rest(&reader), vec![5]);
    let none: [u8; 0] = reader.read_u8_array().unwrap();
    assert_eq!(none, []);
    assert_eq!(reader.read_u8_array::<2>(), Err(Error::UnexpectedEof));
    assert_eq!(rest(&reader), vec![5]);
    assert_eq!(reader.read_u8_array::<1>(), Ok([5]));
    assert!(reader.is_empty());
}

#[test]
fn fixed_width_reads_little_endian() {
    let bytes = [
        0x01, 0xff, 0x02, 0x01, 0xfe, 0xff, 0x04, 0x03, 0x02, 0x01, 0xfd, 0xff, 0xff, 0xff, 0x08,
        0x07, 0x06, 0x05, 0x04, 0x03, 0x02, 0x01, 0xfc, 0xff, 0xff, 0xff, 0xff, 0xff, 0xff, 0xff,
    ];
    let mut reader = little(&bytes);
    assert_eq!(reader.read_u8(), Ok(1));
    assert_eq!(reader.read_i8(), Ok(-1));
    assert_eq!(reader.read_u16(), Ok(0x0102));
    assert_eq!(reader.read_i16(), Ok(-2));
    assert_eq!(reader.read_u32(), Ok(0x0102_0304));
    assert_eq!(reader.read_i32(), Ok(-3));
    assert_eq!(reader.read_u64(), Ok(0x0102_0304_0506_0708));
    assert_eq!(reader.read_i64(), Ok(-4));
    assert!(reader.is_empty());
}

#[test]
fn fixed_width_reads_big_endian() {
    let bytes = [
        0x01, 0x80, 0x01, 0x02, 0xff, 0xfe, 0x01, 0x02, 0x03, 0x04, 0xff, 0xff, 0xff, 0xfd, 0x01,
        0x02, 0x03, 0x04, 0x05, 0x06, 0x07, 0x08, 0x80, 0x00, 0x00, 0x00, 0x00, 0x00, 0x00, 0x00,
    ];
    let mut reader = big(&bytes);
    assert_eq!(reader.read_u8(), Ok(1));
    assert_eq!(reader.read_i8(), Ok(i8::MIN));
    assert_eq!(reader.read_u16(), Ok(0x0102));
    assert_eq!(reader.read_i16(), Ok(-2));
    assert_eq!(reader.read_u32(), Ok(0x0102_0304));
    assert_eq!(reader.read_i32(), Ok(-3));
    assert_eq!(reader.read_u64(), Ok(0x0102_0304_0506_0708));
    assert_eq!(reader.read_i64(), Ok(i64::MIN));
    assert!(reader.is_empty());
}

#[test]
fn fixed_width_reads_in_a_byte_order_chosen_at_run_time() {
    let bytes = [0x12, 0x34];
    let mut reader: EndianSlice<'_, RunTimeEndian, usize> =
        EndianSlice::new(&bytes, RunTimeEndian::Big).unwrap();
    assert_eq!(reader.endian(), RunTimeEndian::Big);
    assert_eq!(reader.read_u16(), Ok(0x1234));
    let mut reader: EndianSlice<'_, RunTimeEndian, usize> =
        EndianSlice::new(&bytes, RunTimeEndian::Little).unwrap();
    assert_eq!(reader.read_u16(), Ok(0x3412));
}

#[test]
fn fixed_width_reads_fail_for_want_of_bytes() {
    let bytes = [1u8, 2, 3, 4, 5, 6, 7];
    let mut reader = little(&bytes);
    assert_eq!(reader.read_u64(), Err(Error::UnexpectedEof));
    assert_eq!(reader.read_i64(), Err(Error::UnexpectedEof));
    assert_eq!(reader.len(), 7);
    reader.skip(4).unwrap();
    assert_eq!(reader.read_u32(), Err(Error::UnexpectedEof));
    assert_eq!(reader.read_i32(), Err(Error::UnexpectedEof));
    assert_eq!(reader.len(), 3);
    reader.skip(2).unwrap();
    assert_eq!(reader.read_u16(), Err(Error::UnexpectedEof));
    assert_eq!(reader.read_i16(), Err(Error::UnexpectedEof));
    assert_eq!(reader.len(), 1);
    reader.skip(1).unwrap();
    assert_eq!(reader.read_u8(), Err(Error::UnexpectedEof));
    assert_eq!(reader.read_i8(), Err(Error::UnexpectedEof));
    assert!(reader.is_empty());
}

#[test]
fn read_address_matches_the_fixed_width_reads() {
    let bytes = [0x81u8, 0x92, 0xa3, 0xb4, 0xc5, 0xd6, 0xe7, 0xf8, 0x09];
    for reader in [little(&bytes)] {
        let (mut a, mut b) = (reader, reader);
        assert_eq!(a.read_address(1), b.read_u8().map(u64::from));
        assert_eq!(rest(&a), rest(&b));
        let (mut a, mut b) = (reader, reader);
        assert_eq!(a.read_address(2), b.read_u16().map(u64::from));
        assert_eq!(rest(&a), rest(&b));
        let (mut a, mut b) = (reader, reader);
        assert_eq!(a.read_address(4), b.read_u32().map(u64::from));
        assert_eq!(rest(&a), rest(&b));
        let (mut a, mut b) = (reader, reader);
        assert_eq!(a.read_address(8), b.read_u64());
        assert_eq!(rest(&a), rest(&b));
    }
    let mut reader = big(&bytes);
    assert_eq!(reader.read_address(1), Ok(0x81));
    assert_eq!(reader.read_address(2), Ok(0x92a3));
    assert_eq!(reader.read_address(4), Ok(0xb4c5_d6e7));
    assert_eq!(reader.read_address(8), Err(Error::UnexpectedEof));
    assert_eq!(rest(&reader), vec![0xf8, 0x09]);
    let mut reader = little(&bytes);
    assert_eq!(reader.read_address(8), Ok(0xf8e7_d6c5_b4a3_9281));
    assert_eq!(rest(&reader), vec![0x09]);
}

#[test]
fn read_address_refuses_other_sizes() {
    let bytes = [0u8; 32];
    let mut reader = little(&bytes);
    for size in [0u8, 3, 5, 6, 7, 9, 16, 255] {
        assert_eq!(reader.read_address(size), Err(Error::UnsupportedAddressSize(size)));
        assert_eq!(reader.len(), 32);
    }
    let nothing: [u8; 0] = [];
    assert_eq!(little(&nothing).read_address(3), Err(Error::UnsupportedAddressSize(3)));
    assert_eq!(little(&nothing).read_address(4), Err(Error::UnexpectedEof));
}

#[test]
fn read_word_reads_four_or_eight_bytes() {
    let bytes = [0x01u8, 0x02, 0x03, 0x04, 0x05, 0x06, 0x07, 0x08];
    let mut reader = little(&bytes);
    assert_eq!(reader.read_word(Format::Dwarf32), Ok(0x0403_0201));
    assert_eq!(reader.len(), 4);
    assert_eq!(reader.read_word(Format::Dwarf64), Err(Error::UnexpectedEof));
    assert_eq!(reader.len(), 4);
    let mut reader = big(&bytes);
    assert_eq!(reader.read_word(Format::Dwarf64), Ok(0x0102_0304_0506_0708));
    assert!(reader.is_empty());
    assert_eq!(reader.read_word(Format::Dwarf32), Err(Error::UnexpectedEof));
}

#[test]
fn read_offset_narrows_the_word() {
    let bytes = [0xffu8, 0xff, 0xff, 0xff, 0x00, 0x00, 0x00, 0x00, 0x2a, 0x00, 0x00, 0x00];
    let mut reader = narrow(&bytes);
    assert_eq!(reader.read_offset(Format::Dwarf64), Ok(0xffff_ffffu32));
    assert_eq!(reader.read_offset(Format::Dwarf32), Ok(42u32));
    assert_eq!(reader.read_offset(Format::Dwarf32), Err(Error::UnexpectedEof));
    let mut wide: EndianSlice<'_, BigEndian, u64> = EndianSlice::new(&bytes, BigEndian).unwrap();
    assert_eq!(wide.read_offset(Format::Dwarf64), Ok(0xffff_ffff_0000_0000u64));
    assert_eq!(wide.read_offset(Format::Dwarf32), Ok(0x2a00_0000u64));
}

#[test]
fn read_offset_refuses_a_word_too_large_for_the_offset() {
    let bytes = [0x00u8, 0x00, 0x00, 0x00, 0x01, 0x00, 0x00, 0x00, 0x07];
    let mut reader = narrow(&bytes);
    assert_eq!(reader.read_offset(Format::Dwarf64), Err(Error::UnsupportedOffset));
    // The word has been read all the same.
    assert_eq!(rest(&reader), vec![0x07]);
    assert_eq!(reader.read_offset(Format::Dwarf64), Err(Error::UnexpectedEof));
    assert_eq!(rest(&reader), vec![0x07]);
}

#[test]
fn a_clone_reads_on_its_own() {
    let bytes = [1u8, 2, 3];
    let mut reader = little(&bytes);
    let copy = reader.clone();
    assert_eq!(reader.read_u16(), Ok(0x0201));
    assert_eq!(copy.len(), 3);
    assert_eq!(rest(&copy), vec![1, 2, 3]);
    assert_eq!(reader.offset_from(&copy), 2);
}

#[test]
fn a_failed_read_leaves_the_reader_usable() {
    let bytes = [1u8];
    let mut reader = little(&bytes);
    assert_eq!(reader.read_u32(), Err(Error::UnexpectedEof));
    assert_eq!(reader.len(), 1);
    assert!(!reader.is_empty());
    assert_eq!(reader.read_u8(), Ok(1));
    assert_eq!(reader.read_u8(), Err(Error::UnexpectedEof));
    assert_eq!(reader.len(), 0);
    assert_eq!(<usize as ReaderOffset>::into_u64(reader.len()), 0);
}
