//! The table function: what it reads and what it hands out.

pub mod laws;
pub mod read_sheet;
pub mod writer;
