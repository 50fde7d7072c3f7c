//! Print-sheet preparation for trading-card proxies: deck-list parsing,
//! card collection bookkeeping, sheet layout, and image clean-up, with
//! the network, file and PDF work left to the application around it.
pub mod text;
pub mod deck;
pub mod cli;
pub mod pdf;
pub mod scryfall;
pub mod collection;
pub mod urls;
pub mod imaging;
pub mod pokemon;
pub mod arena;
pub mod export;
pub mod sources;
pub mod roundtrip;
