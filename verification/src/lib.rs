//! A line-oriented search engine: it cuts a byte buffer into lines, asks a
//! predicate about each line, and gathers the selected lines with their
//! neighbours into output blocks, on one pass or chunk by chunk.

pub mod chunk;
pub mod error;
pub mod filter;
pub mod matcher;
pub mod record;
pub mod render;
pub mod scan;
pub mod search;
pub mod segment;
pub mod stream;
pub mod window;
