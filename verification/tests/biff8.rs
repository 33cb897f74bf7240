use rusty_sheet::error::Biff8Error;
use rusty_sheet::error::IoError;
use rusty_sheet::error::RustySheetError;
use rusty_sheet::helpers::biff8::Biff8Reader;
use rusty_sheet::helpers::biff8::RkNumber;
use rusty_sheet::helpers::biff8::CONTINUE;
use rusty_sheet::helpers::source::ByteSource;

fn record(kind: u16, body: &[u8]) -> Vec<u8> {
    let mut bytes = Vec::new();
    bytes.extend_from_slice(&kind.to_le_bytes());
    bytes.extend_from_slice(&(body.len() as u16).to_le_bytes());
    bytes.extend_from_slice(body);
    bytes
}

fn reader_of(records: &[Vec<u8>]) -> Biff8Reader {
    let file = records.concat();
    let length = file.len();
    Biff8Reader::new(ByteSource::new(file), length).unwrap()
}

#[test]
fn small_records_are_cached() {
    let mut file = Vec::new();
    file.extend_from_slice(&1_u16.to_le_bytes());
    file.extend_from_slice(&4_u16.to_le_bytes());
    file.extend_from_slice(&42_u32.to_le_bytes());
    let length = file.len();

    let mut reader = Biff8Reader::new(ByteSource::new(file), length).unwrap();
    assert_eq!(reader.next().unwrap(), Some(1));
    assert!(reader.cached);
    assert_eq!(reader.read_u32().unwrap(), 42);
}

#[test]
fn large_continued_records_remain_file_backed() {
    let mut file = Vec::new();
    for index in 0..9_u16 {
        let kind = if index == 0 { 1 } else { CONTINUE };
        file.extend_from_slice(&kind.to_le_bytes());
        file.extend_from_slice(&8192_u16.to_le_bytes());
        file.extend_from_slice(&vec![index as u8; 8192]);
    }
    let length = file.len();

    let mut reader = Biff8Reader::new(ByteSource::new(file), length).unwrap();
    assert_eq!(reader.next().unwrap(), Some(1));
    assert!(!reader.cached);
    assert!(reader.cache.is_empty());
    assert!(reader.cache_chunks.is_empty());
    assert_eq!(reader.read_u8().unwrap(), 0);
    reader.skip(8191).unwrap();
    assert_eq!(reader.read_u8().unwrap(), 1);
}

#[test]
fn cached_and_file_backed_records_read_alike() {
    let mut records = vec![record(1, &[7; 3])];
    for index in 0..9_u8 {
        records.push(record(if index == 0 { 2 } else { CONTINUE }, &vec![index; 8192]));
    }
    let mut reader = reader_of(&records);
    assert_eq!(reader.next().unwrap(), Some(1));
    assert!(reader.cached);
    assert_eq!(reader.read_array(3).unwrap(), vec![7; 3]);
    assert_eq!(reader.next().unwrap(), Some(2));
    assert!(!reader.cached);
    reader.skip(8191).unwrap();
    assert_eq!(reader.read_array(1).unwrap(), vec![0]);
    assert_eq!(reader.read_array(2).unwrap(), vec![1, 1]);
    assert_eq!(reader.next().unwrap(), None);
}

#[test]
fn reads_stop_at_the_end_of_a_chunk() {
    let mut reader = reader_of(&[record(5, &[1, 2]), record(CONTINUE, &[3, 4, 5, 6, 7, 8])]);
    assert_eq!(reader.next().unwrap(), Some(5));
    assert_eq!(
        reader.read_u32().unwrap_err(),
        RustySheetError::Biff8(Biff8Error::NoEnoughDataError(4))
    );
    assert_eq!(reader.read(4).unwrap(), (vec![3, 4, 5, 6], 4));
    assert_eq!(reader.read(4).unwrap(), (vec![7, 8], 2));
    assert_eq!(reader.read(4).unwrap(), (Vec::new(), 0));
}

#[test]
fn short_reads_name_the_bytes_that_were_asked_for() {
    let mut reader = reader_of(&[record(1, &[1])]);
    reader.next().unwrap();
    assert_eq!(reader.read_u64().unwrap_err().to_string(), "Fewer than 8 bytes remaining");
}

#[test]
fn fixed_width_reads_move_on() {
    let body = [1, 2, 3, 4, 5, 6, 7, 8, 9, 10, 11, 12, 13, 14, 15, 16, 17, 18, 19, 20, 21, 22];
    let mut reader = reader_of(&[record(1, &body)]);
    reader.next().unwrap();
    assert_eq!(reader.read_u8().unwrap(), 1);
    assert_eq!(reader.read_usize().unwrap(), 0x0504_0302);
    assert_eq!(reader.read_u64().unwrap(), 0x0d0c_0b0a_0908_0706);
    assert_eq!(reader.read_f64_bits().unwrap(), 0x1514_1312_1110_0f0e);
    assert_eq!(reader.get_u16_back(2).unwrap(), 0x1615);
    assert_eq!(reader.read_u8().unwrap(), 22);
}

#[test]
fn numbers_at_the_end_may_stand_in_two_chunks() {
    let mut reader =
        reader_of(&[record(1, &[0xAA]), record(CONTINUE, &[0xBB, 0xCC, 0xDD])]);
    assert_eq!(reader.next().unwrap(), Some(1));
    assert!(reader.cached);
    assert_eq!(reader.get_u16_back(4).unwrap(), 0xBBAA);
    assert_eq!(reader.get_u16_back(3).unwrap(), 0xCCBB);
    assert_eq!(reader.get_u16_back(2).unwrap(), 0xDDCC);
    assert!(reader.get_u16_back(1).is_err());
    assert!(reader.get_u16_back(5).is_err());
    assert_eq!(reader.read_u8().unwrap(), 0xAA);
}

#[test]
fn numbers_at_the_end_of_large_records_may_stand_in_two_chunks() {
    let mut records: Vec<Vec<u8>> =
        (0..8_u8).map(|index| record(if index == 0 { 1 } else { CONTINUE }, &vec![index; 8192])).collect();
    records.push(record(CONTINUE, &[]));
    records.push(record(CONTINUE, &[0xBB, 0xCC, 0xDD]));
    let mut reader = reader_of(&records);
    assert_eq!(reader.next().unwrap(), Some(1));
    assert!(!reader.cached);
    assert_eq!(reader.get_u16_back(4).unwrap(), 0xBB07);
    assert_eq!(reader.get_u16_back(3).unwrap(), 0xCCBB);
    assert_eq!(reader.get_u16_back(3 + 8193).unwrap(), 0x0706);
    assert!(reader.get_u16_back(1).is_err());
}

#[test]
fn records_come_in_the_order_of_the_file() {
    let mut reader = reader_of(&[
        record(7, &[1]),
        record(CONTINUE, &[2, 3]),
        record(8, &[]),
        record(9, &[4]),
    ]);
    assert_eq!(reader.next().unwrap(), Some(7));
    assert_eq!(reader.read(9).unwrap(), (vec![1], 1));
    assert_eq!(reader.read(1).unwrap(), (vec![2], 1));
    assert_eq!(reader.read(9).unwrap(), (vec![3], 1));
    assert_eq!(reader.read(9).unwrap(), (Vec::new(), 0));
    assert_eq!(reader.next().unwrap(), Some(8));
    assert_eq!(reader.next().unwrap(), Some(9));
    assert_eq!(reader.next().unwrap(), None);
    assert_eq!(reader.next().unwrap(), None);
}

#[test]
fn going_to_a_position_starts_the_record_there() {
    let first = record(1, &[1, 2, 3]);
    let at = first.len();
    let mut reader = reader_of(&[first, record(2, &[4])]);
    reader.goto(at);
    assert_eq!(reader.next().unwrap(), Some(2));
    assert_eq!(reader.read_u8().unwrap(), 4);
    assert_eq!(reader.next().unwrap(), None);
}

#[test]
fn rk_numbers_are_integers_or_halves_of_floats() {
    let integer = (123_u32 << 2) | 2;
    let hundredth = ((-250_i32) << 2) as u32 | 3;
    let float = (((1.5_f64.to_bits()) >> 32) as u32) & !3;
    let mut body = Vec::new();
    body.extend_from_slice(&integer.to_le_bytes());
    body.extend_from_slice(&hundredth.to_le_bytes());
    body.extend_from_slice(&float.to_le_bytes());
    let mut reader = reader_of(&[record(1, &body)]);
    reader.next().unwrap();
    assert_eq!(reader.read_rk_number().unwrap(), RkNumber::Integer("123".to_string()));
    assert_eq!(reader.read_rk_number().unwrap(), RkNumber::Integer("-2".to_string()));
    match reader.read_rk_number().unwrap() {
        RkNumber::Float { bits, percentage } => {
            assert!(!percentage);
            assert_eq!(f64::from_bits(bits), 1.5);
        }
        RkNumber::Integer(text) => panic!("expected a float, got {text}"),
    }
}

#[test]
fn short_strings_have_one_or_two_bytes_per_character() {
    let mut body = vec![2, 0, b'a', b'b'];
    body.extend_from_slice(&[1, 1, 0xac, 0x20]);
    let mut reader = reader_of(&[record(1, &body)]);
    reader.next().unwrap();
    assert_eq!(reader.read_short_xl_unicode_string().unwrap(), "ab");
    assert_eq!(reader.read_short_xl_unicode_string().unwrap(), "\u{20ac}");
}

#[test]
fn strings_change_width_at_continuations() {
    let mut reader = reader_of(&[
        record(1, &[3, 0, 0, b'a', b'b']),
        record(CONTINUE, &[1, 0xac, 0x20]),
    ]);
    reader.next().unwrap();
    assert_eq!(reader.read_xl_unicode_rich_extended_string().unwrap(), "ab\u{20ac}");
}

#[test]
fn rich_strings_skip_their_formatting() {
    let body = [1, 0, 0x0c, 1, 0, 2, 0, 0, 0, b'x', 9, 9, 9, 9, 8, 8, 77];
    let mut reader = reader_of(&[record(1, &body)]);
    reader.next().unwrap();
    assert_eq!(reader.read_xl_unicode_rich_extended_string().unwrap(), "x");
    assert_eq!(reader.read_u8().unwrap(), 77);
}

#[test]
fn plain_strings_have_a_long_length() {
    let mut reader = reader_of(&[record(1, &[2, 0, 0, b'o', b'k', 5])]);
    reader.next().unwrap();
    assert_eq!(reader.read_xl_unicode_string().unwrap(), "ok");
    assert_eq!(reader.read_u8().unwrap(), 5);
}

#[test]
fn unknown_encodings_are_errors() {
    let mut reader = reader_of(&[record(1, &[1, 1, b'x', 0])]);
    reader.encoding = "no-such-encoding".to_string();
    reader.next().unwrap();
    assert!(reader.read_short_xl_unicode_string().unwrap_err().to_string().contains("no-such-encoding"));
}

fn cut_off() -> RustySheetError {
    RustySheetError::Io(IoError::UnexpectedEof)
}

#[test]
fn the_position_stays_at_a_header_that_cannot_be_read() {
    let file = record(1, &[9]);
    let mut reader = Biff8Reader::new(ByteSource::new(file), 15).unwrap();
    assert_eq!(reader.next().unwrap_err(), cut_off());
    assert_eq!(reader.pointer, 5);
    assert_eq!(reader.cache_chunks, vec![(4, 5)]);
    assert!(reader.cache.is_empty());
    assert_eq!(reader.read(1).unwrap(), (vec![], 0));
    assert_eq!(reader.next().unwrap_err(), cut_off());
    assert_eq!(reader.pointer, 5);
    assert!(reader.cache_chunks.is_empty());
}

#[test]
fn a_record_in_the_file_outlives_a_header_that_cannot_be_read() {
    let mut first = vec![3; 40_000];
    first[0] = 1;
    first[1] = 2;
    let mut file = [record(7, &first), record(CONTINUE, &[4; 40_000])].concat();
    let end = file.len();
    file.extend_from_slice(&8_u16.to_le_bytes());
    let mut reader = Biff8Reader::new(ByteSource::new(file), end + 10).unwrap();
    assert_eq!(reader.next().unwrap(), Some(7));
    assert!(!reader.cached);
    reader.skip(10).unwrap();
    assert_eq!(reader.next().unwrap_err(), cut_off());
    assert_eq!(reader.pointer, end);
    assert_eq!(reader.record_length, 80_000);
    assert_eq!(reader.read(3).unwrap(), (vec![1, 2, 3], 3));
    assert_eq!(reader.get_u16_back(2).unwrap(), 0x0404);
}

#[test]
fn a_small_record_leaves_nothing_at_a_header_that_cannot_be_read() {
    let mut file = record(7, &[1, 2, 3]);
    file.extend_from_slice(&8_u16.to_le_bytes());
    let mut reader = Biff8Reader::new(ByteSource::new(file), 20).unwrap();
    assert_eq!(reader.next().unwrap(), Some(7));
    assert_eq!(reader.next().unwrap_err(), cut_off());
    assert_eq!(reader.pointer, 7);
    assert_eq!(reader.record_length, 3);
    assert_eq!(reader.read(3).unwrap(), (vec![], 0));
    assert_eq!(
        reader.get_u16_back(2).unwrap_err(),
        RustySheetError::Biff8(Biff8Error::NoEnoughDataError(2))
    );
}

#[test]
fn the_chunks_before_one_that_is_cut_off_can_be_read() {
    let mut file = [record(1, &[1, 2, 3]), record(CONTINUE, &[4; 10])].concat();
    let length = file.len();
    file.truncate(15);
    let mut reader = Biff8Reader::new(ByteSource::new(file), length).unwrap();
    assert_eq!(reader.next().unwrap_err(), cut_off());
    assert_eq!(reader.pointer, length);
    assert!(reader.cached);
    assert_eq!((reader.record_start, reader.record_end), (0, length));
    assert_eq!(reader.record_length, 13);
    assert_eq!(reader.cache.len(), 13);
    assert_eq!(reader.cache_chunks, vec![(0, 3), (11, 21)]);
    assert_eq!(reader.get_u16_back(13).unwrap(), 0x0201);
    assert_eq!(reader.read(5).unwrap(), (vec![1, 2, 3], 3));
    assert_eq!(reader.read(10).unwrap_err(), cut_off());
    assert_eq!(reader.next().unwrap(), None);
    reader.goto(0);
    assert_eq!(reader.next().unwrap_err(), cut_off());
    assert_eq!(reader.pointer, length);
}
