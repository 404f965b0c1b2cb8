//! A small JSON-like document library built around a hand-written
//! recursive-descent parser.
//!
//! The parser turns a text buffer into a tree of [`json::value::JsonValueType`]
//! values (null, booleans, numbers, strings, arrays and objects), reporting a
//! positioned [`json::error::Error`] on malformed input.  The scan cursor, the
//! grammar productions and the value model each carry contracts that pin their
//! behaviour down to the mathematical description in [`json::model`].

pub mod json;
