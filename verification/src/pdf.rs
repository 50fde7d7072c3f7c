//! Print-sheet layout and the order in which cards fill the sheets.
pub mod layout;
pub mod generator;
