//! A small to-do list store: activity records with an id, a name, a priority
//! and a completion flag, kept as a JSON array in a single file.
//!
//! The library holds everything that can be stated and proved: the record
//! type, the text encoding and decoding of a record list, and the in-memory
//! operations (append, remove and edit by position, filtered search, stable
//! sorted listing). Reading and writing the file itself, and the command-line
//! surface, live outside the library.

pub mod codec;
pub mod ops;
pub mod sort;
pub mod text;
pub mod todo;
