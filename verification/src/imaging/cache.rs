//! The on-disk cache of card images: one file per card and quality.
use vstd::prelude::*;

use crate::text::{append_chars, chars_of, string_of};
use crate::urls::{joined_path, path_join};

verus! {

/// The directory of cached images.
#[derive(Debug)]
pub struct ImageCache {
    pub cache_dir: String,
}

/// The directory under the user's cache directory (or `.cache` when there
/// is none) where the program keeps the given kind of cached files.
pub open spec fn cache_dir_spec(base: Option<Seq<char>>, leaf: Seq<char>) -> Seq<char> {
    let root = match base {
        Some(b) => b,
        None => ".cache"@,
    };
    joined_path(joined_path(root, "magic_greyscale"@), leaf)
}

/// The directory for cached files of kind `leaf` (`images`, `api`) under
/// `base`, the user's cache directory, or under `.cache` when there is none.
pub fn cache_dir_for(base: Option<&str>, leaf: &str) -> (d: String)
    ensures
        d@ == cache_dir_spec(
            match base {
                Some(b) => Some(b@),
                None => None,
            },
            leaf@,
        ),
{
    let root = match base {
        Some(b) => path_join(b, "magic_greyscale"),
        None => path_join(".cache", "magic_greyscale"),
    };
    path_join(root.as_str(), leaf)
}

/// The file name of a card image: `{card_id}_{quality}.png`.
pub open spec fn image_file_name(card_id: Seq<char>, quality: Seq<char>) -> Seq<char> {
    card_id + "_"@ + quality + ".png"@
}

/// Whether something exists at the path: `std::path::Path::exists`. What is
/// on disk decides, so nothing is stated of the answer.
#[verifier::external_body]
fn path_exists(path: &str) -> bool {
    std::path::Path::new(path).exists()
}

impl ImageCache {
    pub open spec fn path_spec(&self, card_id: Seq<char>, quality: Seq<char>) -> Seq<char> {
        joined_path(self.cache_dir@, image_file_name(card_id, quality))
    }

    /// The path of the cached image of `card_id` in `quality`.
    pub fn path_for(&self, card_id: &str, quality: &str) -> (p: String)
        ensures
            p@ == self.path_spec(card_id@, quality@),
    {
        let mut name = chars_of(card_id);
        append_chars(&mut name, &chars_of("_"));
        append_chars(&mut name, &chars_of(quality));
        append_chars(&mut name, &chars_of(".png"));
        path_join(self.cache_dir.as_str(), string_of(&name).as_str())
    }

    /// The path of the cached image of `card_id` in `quality`, if a file is
    /// there. Whether one is there is up to the disk (`Path::exists`), so
    /// which of `Some` and `None` comes back is not stated; a `Some` holds
    /// exactly the path that was asked about.
    pub fn get(&self, card_id: &str, quality: &str) -> (r: Option<String>)
        ensures
            r matches Some(p) ==> p@ == self.path_spec(card_id@, quality@),
    {
        let path = self.path_for(card_id, quality);
        if path_exists(path.as_str()) {
            Some(path)
        } else {
            None
        }
    }
}

} // verus!
