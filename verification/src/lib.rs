//! Verified core of a spreadsheet reader: binary record readers, XML event
//! interpreters, shared strings and the planning of table output.

pub mod error;
pub mod extension;
pub mod helpers;
pub mod spreadsheet;
