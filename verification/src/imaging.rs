//! Card images: where they are cached, and the clean-up of their corners.
pub mod cache;
pub mod greyscale;
