//! A log file engine: a strided line index over the bytes of a file, and the
//! reading of JSON lines (columns, field values, filters) on top of it.

pub mod append;
pub mod bytes;
pub mod chunk;
pub mod compact;
pub mod conditions;
pub mod extraction;
pub mod fields;
pub mod filter;
pub mod first_look;
pub mod growth;
pub mod hooks;
pub mod index;
pub mod jsonl;
pub mod lines;
pub mod logfile;
pub mod lookup;
pub mod number;
pub mod query;
pub mod scan;
pub mod scanning;
pub mod schema;
pub mod screen;
pub mod search;
pub mod spacing;
pub mod splitting;
pub mod text;
pub mod unfolding;
pub mod value;
pub mod widths;
pub mod words;
pub mod written;
