//! A recursive-descent reader for JSON-like text.
//!
//! Every recognizer takes the text that is left to read and returns the
//! text that remains together with what it recognized, or a [`value::ParseError`]
//! that names the kind of failure and the text at which it occurred.
//! The grammar itself is written once, as specification functions over
//! sequences of characters, in [`grammar`]; each executable recognizer is
//! proved to compute exactly what its rule says.

pub mod elements;
pub mod grammar;
pub mod laws;
pub mod locality;
pub mod number;
pub mod object_parsers;
pub mod padding;
pub mod parser;
pub mod primitive_parsers;
pub mod text;
pub mod value;
