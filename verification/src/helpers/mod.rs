//! Readers for the byte level formats and small conversions on bytes and text.

pub mod biff12;
pub mod biff12_laws;
pub mod biff8;
pub mod biff8_laws;
pub mod biff8_strings;
pub mod cfb;
pub mod encoding;
pub mod source;
pub mod string;
pub mod text;
pub mod xml;
pub mod xml_laws;
pub mod zip;
