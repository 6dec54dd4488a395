//! A reader and writer for a textual, extensible data-interchange notation:
//! nil, booleans, integers, floating-point literals, strings, symbols,
//! keywords, nestable collections (lists, vectors, maps, sets), tagged
//! elements and discard forms.
//!
//! The crate tokenizes raw input bytes, builds a tree of typed nodes by
//! recursive descent, and serializes a tree back to canonical notation text.
//! Numeric literals keep their original digit spans, so arbitrary-precision
//! integers and exact decimals round-trip without loss.

pub mod atoms;
pub mod lexer;
pub mod reader;
pub mod roundtrip;
pub mod types;
pub mod writer;

pub use types::Node;
pub use reader::{edn_read, ReadError};
pub use writer::edn_write;
