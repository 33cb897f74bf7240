use rusty_sheet::error::Biff12Error;
use rusty_sheet::error::IoError;
use rusty_sheet::error::RustySheetError;
use rusty_sheet::helpers::biff12::checked_offset;
use rusty_sheet::helpers::biff12::Biff12Reader;
use rusty_sheet::helpers::source::ByteSource;

fn empty_reader() -> Biff12Reader {
    Biff12Reader::new(ByteSource::new(Vec::new()))
}

fn reader_of(bytes: &[u8]) -> Biff12Reader {
    Biff12Reader::new(ByteSource::new(bytes.to_vec()))
}

#[test]
fn fixed_width_reads_return_errors_for_short_records() {
    let mut reader = empty_reader();
    reader.buffer = vec![0; 8];

    assert!(reader.get_f64_bits(1).unwrap_err().to_string().contains("No enough data"));
    assert!(reader.get_style(6).unwrap_err().to_string().contains("No enough data"));
}

#[test]
fn string_reads_return_errors_for_short_records() {
    let mut reader = empty_reader();
    reader.buffer = vec![2, 0, 0, 0, b'a'];

    assert!(reader.get_str(0).unwrap_err().to_string().contains("No enough data"));
    assert!(reader.get_str(3).unwrap_err().to_string().contains("No enough data"));
}

#[test]
fn short_record_errors_name_both_lengths() {
    let mut reader = empty_reader();
    reader.buffer = vec![0; 8];
    assert_eq!(
        reader.get_f64_bits(1).unwrap_err().to_string(),
        "No enough data: expect '9' bytes, actual '8' bytes"
    );
    assert_eq!(
        reader.get_u8(usize::MAX).unwrap_err(),
        RustySheetError::Biff12(Biff12Error::NoEnoughData(usize::MAX, 8))
    );
}

#[test]
fn offsets_are_checked() {
    assert_eq!(checked_offset(2, 3, 5), Ok(5));
    assert_eq!(checked_offset(2, 4, 5), Err(Biff12Error::NoEnoughData(6, 5)));
    assert_eq!(
        checked_offset(usize::MAX, 1, 5),
        Err(Biff12Error::NoEnoughData(usize::MAX, 5))
    );
}

#[test]
fn fixed_width_values_are_little_endian() {
    let mut reader = empty_reader();
    reader.buffer = vec![0x01, 0x02, 0x03, 0x04, 0x05, 0x06, 0x07, 0x88];
    assert_eq!(reader.get_u8(1).unwrap(), 2);
    assert_eq!(reader.get_u16(0).unwrap(), 0x0201);
    assert_eq!(reader.get_u32(0).unwrap(), 0x0403_0201);
    assert_eq!(reader.get_usize(1).unwrap(), 0x0504_0302);
    assert_eq!(reader.get_i32(4).unwrap(), 0x8807_0605_u32 as i32);
    assert_eq!(reader.get_style(0).unwrap(), 0x03_0201);
    assert_eq!(reader.get_f64_bits(0).unwrap(), 0x8807_0605_0403_0201);
    assert_eq!(reader.slice(2, 3).unwrap(), &[3u8, 4, 5][..]);
}

#[test]
fn strings_are_utf16() {
    let mut reader = empty_reader();
    reader.buffer = vec![9, 2, 0, 0, 0, b'h', 0, 0xac, 0x20, 7];
    assert_eq!(reader.get_str(1).unwrap(), "h\u{20ac}");
    assert_eq!(reader.get_str_and_bound(1).unwrap(), ("h\u{20ac}".to_string(), 9));
}

#[test]
fn continued_integers_take_seven_bits_per_byte() {
    let mut reader = reader_of(&[0x81, 0x02, 0x7f]);
    assert_eq!(reader.read_7bit_continuation_integer(4).unwrap(), 0x101);
    assert_eq!(reader.read_7bit_continuation_integer(4).unwrap(), 0x7f);
    assert_eq!(
        reader.read_7bit_continuation_integer(4).unwrap_err(),
        RustySheetError::Io(IoError::UnexpectedEof)
    );
}

#[test]
fn records_come_one_after_the_other() {
    let mut reader = reader_of(&[0x01, 0x02, b'a', b'b', 0x93, 0x01, 0x01, b'c']);
    assert_eq!(reader.read().unwrap(), (1, 2));
    assert_eq!(&reader.buffer[..2], b"ab");
    assert_eq!(reader.read().unwrap(), (0x93, 1));
    assert_eq!(reader.buffer[0], b'c');
    assert!(reader.read().is_err());
}

#[test]
fn the_next_type_comes_without_the_data() {
    let mut reader = reader_of(&[0x93, 0x01, 0x02, b'a', b'b', 0x05, 0x00]);
    assert_eq!(reader.next().unwrap(), 0x93);
    assert_eq!(reader.reader.stream_position(), 3);
    assert_eq!(reader.reader.read_exact(2).unwrap(), b"ab");
    assert_eq!(reader.next().unwrap(), 5);
    assert_eq!(
        reader.next().unwrap_err(),
        RustySheetError::Io(IoError::UnexpectedEof)
    );
}

#[test]
fn ranges_do_not_start_inside_of_ranges() {
    let mut reader = reader_of(&[10, 0, 20, 0, 21, 0, 5, 1, 0xEE, 11, 0, 5, 2, 0xAA, 0xBB]);
    assert_eq!(reader.find_with(5, &[(10, 11), (20, 21)]).unwrap(), 2);
    assert_eq!(&reader.buffer[..2], &[0xAA, 0xBB]);
}

#[test]
fn finding_takes_the_first_record_of_a_type() {
    let mut reader = reader_of(&[1, 1, b'a', 2, 1, b'b', 2, 1, b'c']);
    assert_eq!(reader.find(2).unwrap(), 1);
    assert_eq!(reader.buffer[0], b'b');
}

#[test]
fn finding_passes_over_skipped_ranges() {
    let mut reader = reader_of(&[3, 0, 2, 1, b'a', 4, 0, 2, 1, b'b']);
    assert_eq!(reader.find_with(2, &[(3, 4)]).unwrap(), 1);
    assert_eq!(reader.buffer[0], b'b');
}
