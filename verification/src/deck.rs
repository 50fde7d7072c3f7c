//! Deck lists: their model and the parsers for the two text formats.
pub mod models;
pub mod parser;
pub mod files;
