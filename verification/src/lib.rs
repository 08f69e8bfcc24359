//! A verified codec for the bencode serialization format, together with a
//! verified ordered-set container backed by an array of sorted arrays.
//!
//! The codec serializes a tree of values (integers, byte strings, lists,
//! dictionaries) into the canonical bencode byte encoding, and parses
//! untrusted bytes back into a value tree, rejecting everything that is not
//! a strictly well-formed, canonical encoding.

pub mod arrayset;
pub mod decode;
pub mod encode;
pub mod laws;
pub mod value;

pub use arrayset::BinaryArraySet;
pub use arrayset::Iter;
pub use decode::ParseError;
pub use value::Bencode;
