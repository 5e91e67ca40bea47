//! Verified building blocks of a small collection of Rust exercises: a calculator
//! language (scanner, recursive-descent parser, Earley recogniser), a Vigenère
//! cipher, a binary heap, a linked list, and the decision logic of a few hand-written
//! synchronisation primitives together with the laws their states keep.
pub mod token;
pub mod scanner;
pub mod parser;
pub mod earley;
pub mod sync;
pub mod heap;
pub mod linked_list;
pub mod text;
pub mod vigenere;
pub mod progress;
pub mod reader;
pub mod zipbomb;
