//! The Scryfall card database: its data model, the requests the client
//! makes, and the decisions around them.
pub mod models;
pub mod api;
pub mod client;
pub mod response_cache;
