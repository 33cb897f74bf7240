use rusty_sheet::error::IoError;
use rusty_sheet::error::RustySheetError;
use rusty_sheet::spreadsheet::shared_strings::SharedStringStore;

#[test]
fn shared_string_store_reads_sequential_and_random_values() {
    let mut store = SharedStringStore::new().unwrap();
    store.push("alpha").unwrap();
    store.push("bravo").unwrap();
    store.push("charlie").unwrap();

    assert_eq!(store.get(0).unwrap(), "alpha");
    assert_eq!(store.get(1).unwrap(), "bravo");
    assert_eq!(store.get(0).unwrap(), "alpha");
    assert_eq!(store.get(2).unwrap(), "charlie");
}

#[test]
fn stores_close_at_the_first_read() {
    let mut store = SharedStringStore::new().unwrap();
    store.push("").unwrap();
    store.push("\u{20ac}uro").unwrap();
    assert_eq!(store.len(), 2);
    assert_eq!(store.get(1).unwrap(), "\u{20ac}uro");
    assert_eq!(store.get(0).unwrap(), "");
    assert_eq!(
        store.push("late").unwrap_err(),
        RustySheetError::Io(IoError::AppendAfterRead)
    );
    assert_eq!(store.len(), 2);
}

#[test]
fn stores_have_no_string_behind_the_last() {
    let mut store = SharedStringStore::new().unwrap();
    store.push("one").unwrap();
    let error = store.get(1).unwrap_err();
    assert_eq!(error, RustySheetError::Io(IoError::IndexOutOfBounds));
    assert_eq!(error.to_string(), "shared string index out of bounds");
    assert_eq!(store.get(0).unwrap(), "one");
}
