use rusty_sheet::error::RustySheetError;
use rusty_sheet::helpers::cfb::Cfb;
use rusty_sheet::helpers::source::ByteSource;
use std::io::Cursor;
use std::io::Write;

fn compound_file() -> Vec<u8> {
    let mut file = cfb::CompoundFile::create(Cursor::new(Vec::new())).unwrap();
    {
        let mut stream = file.create_stream("/Workbook").unwrap();
        stream.write_all(b"contents").unwrap();
    }
    file.create_storage("/Folder").unwrap();
    {
        let mut stream = file.create_stream("/Folder/Inner").unwrap();
        stream.write_all(b"deep").unwrap();
    }
    file.flush().unwrap();
    file.into_inner().into_inner()
}

#[test]
fn non_cfb_input_stops_after_signature() {
    let mut reader = ByteSource::new(vec![0_u8; 4096]);

    assert!(Cfb::new(&mut reader).is_err());
    assert_eq!(reader.stream_position(), 8);
}

#[test]
fn streams_are_copied() {
    let mut reader = ByteSource::new(compound_file());
    let mut file = Cfb::new(&mut reader).unwrap();
    assert!(file.has_entry("Workbook"));
    assert!(file.has_entry("Folder"));
    assert!(!file.has_entry("Book"));
    let mut out = vec![b'>'];
    assert_eq!(file.copy_to("Workbook", &mut out).unwrap(), true);
    assert_eq!(out, b">contents");
    assert_eq!(file.copy_to("Folder", &mut out).unwrap(), false);
    assert_eq!(file.copy_to("Book", &mut out).unwrap(), false);
    assert_eq!(out, b">contents");
}

#[test]
fn streams_in_storages_are_copied() {
    let mut reader = ByteSource::new(compound_file());
    let mut file = Cfb::new(&mut reader).unwrap();
    assert!(file.has_entry("Folder/Inner"));
    assert!(!file.has_entry("Folder/Outer"));
    let mut out = Vec::new();
    assert_eq!(file.copy_to("Folder/Inner", &mut out).unwrap(), true);
    assert_eq!(out, b"deep");
    assert_eq!(file.copy_to("Folder/Outer", &mut out).unwrap(), false);
}

#[test]
fn opening_moves_the_stream() {
    let image = compound_file();
    let mut cursor = Cursor::new(image.clone());
    cfb::OpenOptions::new().max_buffer_size(64 * 1024).open_with(&mut cursor).unwrap();
    let mut reader = ByteSource::new(image);
    assert!(Cfb::new(&mut reader).is_ok());
    assert_eq!(reader.stream_position() as u64, cursor.position());
}

#[test]
fn short_input_is_no_compound_file() {
    let mut reader = ByteSource::new(compound_file()[..100].to_vec());
    assert!(matches!(Cfb::new(&mut reader), Err(RustySheetError::Compound(_))));
}
