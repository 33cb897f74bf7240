//! Spreadsheet contents: cells, sheets and the files that they come from.

pub mod archive_laws;
pub mod cell;
pub mod chunk_laws;
pub mod criteria;
pub mod ods;
pub mod ods_document;
pub mod ods_ending;
pub mod ods_laws;
pub mod ods_limits;
pub mod ods_naming;
pub mod ods_tables;
pub mod reference;
pub mod reference_laws;
pub mod resolve;
pub mod shared_strings;
pub mod sheet;
pub mod sort;
pub mod table;
pub mod wanted;
pub mod xlsx;
