//! An Earley recogniser for the calculator language, and the parse trees it records.
pub mod grammar;
pub mod item;
pub mod bounds;
pub mod state;
pub mod derivation;
pub mod recogniser;
pub mod language;
pub mod forest;
