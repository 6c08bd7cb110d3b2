//! Incremental, fault-tolerant JSON extraction from LLM output streams.
//!
//! Text arrives as arbitrarily split chunks that interleave prose with
//! JSON-bearing regions delimited by XML-style tags. A tag router segments
//! the stream, a lenient SAX-style scanner tokenises a relaxed JSON dialect,
//! and a tree builder assembles values and projects partial snapshots after
//! every event.

pub mod text;
pub mod json_value;
pub mod scanner;
pub mod json_parser;
pub mod tag_finder;
pub mod parser_types;
