//! Scryfall's card, set and search-page records.
use vstd::prelude::*;

use crate::text::chars_of;

verus! {

/// One page of a card search.
#[derive(Debug)]
pub struct SearchResult {
    pub total_cards: Option<u32>,
    pub has_more: bool,
    pub next_page: Option<String>,
    pub data: Vec<Card>,
}

/// A card printing.
#[derive(Debug)]
pub struct Card {
    pub id: String,
    pub name: String,
    pub layout: String,
    pub mana_cost: Option<String>,
    pub type_line: Option<String>,
    pub oracle_text: Option<String>,
    pub rarity: Option<String>,
    pub set: String,
    pub set_name: String,
    pub collector_number: String,
    pub image_uris: Option<ImageUris>,
    pub card_faces: Option<Vec<CardFace>>,
    pub arena_id: Option<i64>,
}

/// One face of a multi-faced card.
#[derive(Debug)]
pub struct CardFace {
    pub name: String,
    pub mana_cost: Option<String>,
    pub type_line: Option<String>,
    pub oracle_text: Option<String>,
    pub image_uris: Option<ImageUris>,
}

/// The image addresses of a card (or face) in each quality.
#[derive(Debug)]
pub struct ImageUris {
    pub small: Option<String>,
    pub normal: Option<String>,
    pub large: Option<String>,
    pub png: Option<String>,
    pub art_crop: Option<String>,
    pub border_crop: Option<String>,
}

/// A set of cards.
#[derive(Debug)]
pub struct ScryfallSet {
    pub code: String,
    pub name: String,
    pub set_type: String,
    pub card_count: u32,
    pub released_at: Option<String>,
}

pub open spec fn small_word() -> Seq<char> {
    seq!['s', 'm', 'a', 'l', 'l']
}

pub open spec fn normal_word() -> Seq<char> {
    seq!['n', 'o', 'r', 'm', 'a', 'l']
}

pub open spec fn large_word() -> Seq<char> {
    seq!['l', 'a', 'r', 'g', 'e']
}

pub open spec fn png_word() -> Seq<char> {
    seq!['p', 'n', 'g']
}

pub open spec fn art_crop_word() -> Seq<char> {
    seq!['a', 'r', 't', '_', 'c', 'r', 'o', 'p']
}

pub open spec fn border_crop_word() -> Seq<char> {
    seq!['b', 'o', 'r', 'd', 'e', 'r', '_', 'c', 'r', 'o', 'p']
}

/// The characters of an optional address.
pub open spec fn opt_view(o: Option<String>) -> Option<Seq<char>> {
    match o {
        Some(s) => Some(s@),
        None => None,
    }
}

/// The address of the named quality; an unknown quality means `png`.
pub open spec fn uri_for_quality(u: ImageUris, quality: Seq<char>) -> Option<Seq<char>> {
    opt_view(
        if quality == small_word() {
            u.small
        } else if quality == normal_word() {
            u.normal
        } else if quality == large_word() {
            u.large
        } else if quality == png_word() {
            u.png
        } else if quality == art_crop_word() {
            u.art_crop
        } else if quality == border_crop_word() {
            u.border_crop
        } else {
            u.png
        },
    )
}

/// The address of a card's image in the given quality: from the card's own
/// addresses if it has them, else from its first face's, else none.
pub open spec fn card_image_uri(card: Card, quality: Seq<char>) -> Option<Seq<char>> {
    match card.image_uris {
        Some(u) => uri_for_quality(u, quality),
        None => match card.card_faces {
            Some(faces) => if faces.len() > 0 {
                match faces@[0].image_uris {
                    Some(u) => uri_for_quality(u, quality),
                    None => None,
                }
            } else {
                None
            },
            None => None,
        },
    }
}

/// Whether two character sequences are equal.
pub fn same_chars(a: &Vec<char>, b: &Vec<char>) -> (r: bool)
    ensures
        r == (a@ == b@),
{
    if a.len() != b.len() {
        return false;
    }
    let mut i: usize = 0;
    while i < a.len()
        invariant
            a.len() == b.len(),
            i <= a.len(),
            forall|k: int| 0 <= k < i ==> a@[k] == b@[k],
        decreases a.len() - i,
    {
        if a[i] != b[i] {
            return false;
        }
        i += 1;
    }
    assert(a@ =~= b@);
    true
}

/// A copy of an optional string.
pub fn copy_opt(o: &Option<String>) -> (r: Option<String>)
    ensures
        opt_view(r) == opt_view(*o),
{
    match o {
        Some(s) => Some(s.clone()),
        None => None,
    }
}

impl ImageUris {
    /// The address of the named quality (`small`, `normal`, `large`, `png`,
    /// `art_crop`, `border_crop`); any other name gives the `png` address.
    pub fn get(&self, quality: &str) -> (r: Option<String>)
        ensures
            opt_view(r) == uri_for_quality(*self, quality@),
    {
        let q = chars_of(quality);
        let small = vec!['s', 'm', 'a', 'l', 'l'];
        let normal = vec!['n', 'o', 'r', 'm', 'a', 'l'];
        let large = vec!['l', 'a', 'r', 'g', 'e'];
        let png = vec!['p', 'n', 'g'];
        let art = vec!['a', 'r', 't', '_', 'c', 'r', 'o', 'p'];
        let border = vec!['b', 'o', 'r', 'd', 'e', 'r', '_', 'c', 'r', 'o', 'p'];
        proof {
            assert(small@ =~= small_word());
            assert(normal@ =~= normal_word());
            assert(large@ =~= large_word());
            assert(png@ =~= png_word());
            assert(art@ =~= art_crop_word());
            assert(border@ =~= border_crop_word());
        }
        if same_chars(&q, &small) {
            copy_opt(&self.small)
        } else if same_chars(&q, &normal) {
            copy_opt(&self.normal)
        } else if same_chars(&q, &large) {
            copy_opt(&self.large)
        } else if same_chars(&q, &png) {
            copy_opt(&self.png)
        } else if same_chars(&q, &art) {
            copy_opt(&self.art_crop)
        } else if same_chars(&q, &border) {
            copy_opt(&self.border_crop)
        } else {
            copy_opt(&self.png)
        }
    }
}

impl Card {
    /// The address of this card's image in the given quality: from the
    /// card's own addresses if it has them, else from its first face's.
    pub fn image_uri(&self, quality: &str) -> (r: Option<String>)
        ensures
            opt_view(r) == card_image_uri(*self, quality@),
    {
        match &self.image_uris {
            Some(uris) => uris.get(quality),
            None => match &self.card_faces {
                Some(faces) => {
                    if faces.len() > 0 {
                        match &faces[0].image_uris {
                            Some(uris) => uris.get(quality),
                            None => None,
                        }
                    } else {
                        None
                    }
                },
                None => None,
            },
        }
    }
}

} // verus!
