//! Search and preview logic for spreadsheet workbooks: alias files, the
//! lenient worksheet XML reader, query building and result shaping.

pub mod text;
pub mod alias;
pub mod bytes;
pub mod utf8;
pub mod sheet_xml;
pub mod shared_strings;
pub mod sheet_scan;
pub mod cell_stream;
pub mod types;
pub mod matching;
pub mod preview;
pub mod workbook;
pub mod query;
pub mod results;
pub mod indexing;
pub mod jobs;
pub mod access;
pub mod config;
pub mod laws;
