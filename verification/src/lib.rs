//! A local full-text search engine for line-oriented log files.
//!
//! An inverted index maps every normalized word of a log to the byte offsets
//! of the lines that contain it. Boolean prefix queries are answered from
//! that index by lazy sorted merges of posting lists.

pub mod error;
pub mod file_utils;
pub mod index;
pub mod indexing;
pub mod path_utils;
pub mod print_utils;
pub mod query;
pub mod text;
pub mod token;
pub mod window;
