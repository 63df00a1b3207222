//! A lazy, pull-based JSON reader and a matching scoped writer.
//!
//! The reader ([`parse`]) hands out strings, arrays and objects as handles
//! into a single parser state, reading each only as far as asked; values
//! left unread are skipped by the next read around them. The writer
//! ([`emit`]) opens arrays, objects and strings as scopes that are closed in
//! order.
//!
//! [`model`] states what each read does as a state machine over the input;
//! [`wellformed`] shows that skipping ends exactly past the abandoned
//! values, and [`roundtrip`] that reading a document and writing it again
//! gives back its text.
pub mod cursor;
pub mod text;
pub mod number;
pub mod model;
pub mod parse;
pub mod wellformed;
pub mod roundtrip;
mod scan;
pub mod emit;
