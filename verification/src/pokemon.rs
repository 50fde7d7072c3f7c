//! Pokemon TCG cards: their data model, the request addresses, and the
//! decisions of paging, de-duplication and image choice.
use vstd::prelude::*;

use crate::text::{append_chars, chars_of, decimal, decimal_chars, string_of};
use crate::urls::{url_encode, url_encoded};

verus! {

/// A Pokemon card.
#[derive(Debug)]
pub struct PokemonCard {
    pub id: String,
    pub name: String,
    pub set: PokemonSet,
    pub images: PokemonImages,
}

/// The set a Pokemon card belongs to.
#[derive(Debug)]
pub struct PokemonSet {
    pub id: String,
    pub name: String,
}

/// The image addresses of a Pokemon card.
#[derive(Debug)]
pub struct PokemonImages {
    pub small: Option<String>,
    pub large: Option<String>,
}

/// One page of cards.
#[derive(Debug)]
pub struct PokemonApiResponse {
    pub data: Vec<PokemonCard>,
    pub total_count: Option<u32>,
    pub page: Option<u32>,
    pub page_size: Option<u32>,
    pub count: Option<u32>,
}

/// A single card.
#[derive(Debug)]
pub struct PokemonSingleResponse {
    pub data: PokemonCard,
}

/// How many cards a page asks for.
pub const PAGE_SIZE: u32 = 250;

pub open spec fn pokemon_base() -> Seq<char> {
    "https://api.pokemontcg.io/v2"@
}

/// The address of page `page` of the cards of set `set_id`.
pub open spec fn set_page_url_spec(set_id: Seq<char>, page: u32) -> Seq<char> {
    pokemon_base() + "/cards?q=set.id:"@ + url_encoded(set_id) + "&pageSize="@ + decimal(
        PAGE_SIZE as nat,
    ) + "&page="@ + decimal(page as nat)
}

/// The address of page `page` of the cards named `name`.
pub open spec fn name_page_url_spec(name: Seq<char>, page: u32) -> Seq<char> {
    pokemon_base() + "/cards?q=name:\""@ + url_encoded(name) + "\"&pageSize="@ + decimal(
        PAGE_SIZE as nat,
    ) + "&page="@ + decimal(page as nat)
}

/// The address of the card with id `id`.
pub open spec fn card_url_spec(id: Seq<char>) -> Seq<char> {
    pokemon_base() + "/cards/"@ + url_encoded(id)
}

/// The address of page `page` (counted from 1) of the cards of a set.
pub fn set_page_url(set_id: &str, page: u32) -> (r: String)
    ensures
        r@ == set_page_url_spec(set_id@, page),
{
    let mut out = chars_of("https://api.pokemontcg.io/v2");
    append_chars(&mut out, &chars_of("/cards?q=set.id:"));
    append_chars(&mut out, &chars_of(url_encode(set_id).as_str()));
    append_chars(&mut out, &chars_of("&pageSize="));
    append_chars(&mut out, &decimal_chars(PAGE_SIZE as u64));
    append_chars(&mut out, &chars_of("&page="));
    append_chars(&mut out, &decimal_chars(page as u64));
    string_of(&out)
}

/// The address of page `page` (counted from 1) of the cards with a name.
pub fn name_page_url(name: &str, page: u32) -> (r: String)
    ensures
        r@ == name_page_url_spec(name@, page),
{
    let mut out = chars_of("https://api.pokemontcg.io/v2");
    append_chars(&mut out, &chars_of("/cards?q=name:\""));
    append_chars(&mut out, &chars_of(url_encode(name).as_str()));
    append_chars(&mut out, &chars_of("\"&pageSize="));
    append_chars(&mut out, &decimal_chars(PAGE_SIZE as u64));
    append_chars(&mut out, &chars_of("&page="));
    append_chars(&mut out, &decimal_chars(page as u64));
    string_of(&out)
}

/// The address of the card with id `id`.
pub fn card_url(id: &str) -> (r: String)
    ensures
        r@ == card_url_spec(id@),
{
    let mut out = chars_of("https://api.pokemontcg.io/v2");
    append_chars(&mut out, &chars_of("/cards/"));
    append_chars(&mut out, &chars_of(url_encode(id).as_str()));
    string_of(&out)
}

/// Whether another page follows one that held `count` cards: only a full
/// page can be followed by more.
pub fn more_pages_after(count: usize) -> (more: bool)
    ensures
        more == (count >= PAGE_SIZE),
{
    count >= PAGE_SIZE as usize
}

/// The image to download for a card: the large one, else the small one.
pub open spec fn image_url_spec(card: PokemonCard) -> Option<Seq<char>> {
    match card.images.large {
        Some(u) => Some(u@),
        None => match card.images.small {
            Some(u) => Some(u@),
            None => None,
        },
    }
}

/// The image to download for a card: the large one, else the small one.
pub fn image_url(card: &PokemonCard) -> (r: Option<String>)
    ensures
        match (r, image_url_spec(*card)) {
            (Some(a), Some(b)) => a@ == b,
            (None, None) => true,
            _ => false,
        },
{
    match &card.images.large {
        Some(u) => Some(u.clone()),
        None => match &card.images.small {
            Some(u) => Some(u.clone()),
            None => None,
        },
    }
}

/// The cache key of a card's image: `pokemon_{id}`, apart from the keys of
/// Magic cards.
pub open spec fn cache_key_spec(id: Seq<char>) -> Seq<char> {
    "pokemon_"@ + id
}

/// The cache key of a card's image.
pub fn cache_key(card: &PokemonCard) -> (k: String)
    ensures
        k@ == cache_key_spec(card.id@),
{
    let mut out = chars_of("pokemon_");
    append_chars(&mut out, &chars_of(card.id.as_str()));
    string_of(&out)
}

// ------------------------------------------------------------------
// Keeping each card once
// ------------------------------------------------------------------

/// The ids of a sequence of cards.
pub open spec fn ids_of(cards: Seq<PokemonCard>) -> Seq<Seq<char>> {
    cards.map_values(|c: PokemonCard| c.id@)
}

/// The cards of `all` followed by those of `more` whose id was not seen
/// before (in `all` or earlier in `more`).
pub open spec fn add_unseen_spec(all: Seq<PokemonCard>, more: Seq<PokemonCard>) -> Seq<PokemonCard>
    decreases more.len(),
{
    if more.len() == 0 {
        all
    } else {
        let prev = add_unseen_spec(all, more.drop_last());
        if ids_of(prev).contains(more.last().id@) {
            prev
        } else {
            prev.push(more.last())
        }
    }
}

fn has_id(all: &Vec<PokemonCard>, id: &String) -> (b: bool)
    ensures
        b == ids_of(all@).contains(id@),
{
    let mut i: usize = 0;
    while i < all.len()
        invariant
            i <= all.len(),
            forall|k: int| 0 <= k < i ==> all@[k].id@ != id@,
        decreases all.len() - i,
    {
        if all[i].id == *id {
            assert(ids_of(all@)[i as int] == id@);
            return true;
        }
        i += 1;
    }
    proof {
        if ids_of(all@).contains(id@) {
            let k = choose|k: int| 0 <= k < ids_of(all@).len() && ids_of(all@)[k] == id@;
            assert(all@[k].id@ == id@);
        }
    }
    false
}

/// Adds the cards of `more` whose id is not yet in `all` (nor earlier in
/// `more`); returns how many were skipped as repeats.
pub fn add_unseen(all: &mut Vec<PokemonCard>, more: Vec<PokemonCard>) -> (skipped: usize)
    ensures
        final(all)@ == add_unseen_spec(old(all)@, more@),
        skipped + final(all)@.len() == old(all)@.len() + more@.len(),
{
    let ghost start = all@;
    let ghost m = more@;
    let n = more.len();
    let mut skipped: usize = 0;
    proof {
        assert(m.take(0) =~= Seq::<PokemonCard>::empty());
    }
    for c in it: more.into_iter()
        invariant
            it.seq() == m,
            m.len() == n,
            it.index() <= n,
            all@ == add_unseen_spec(start, m.take(it.index() as int)),
            skipped + all@.len() == start.len() + it.index(),
            skipped <= it.index(),
    {
        let ghost i = it.index() as int;
        proof {
            let t = m.take(i + 1);
            assert(t.drop_last() =~= m.take(i));
            assert(t.last() == c);
        }
        if has_id(all, &c.id) {
            skipped += 1;
        } else {
            all.push(c);
        }
    }
    proof {
        assert(m.take(m.len() as int) =~= m);
    }
    skipped
}

/// After adding, no two cards share an id, and every id offered is present.
pub proof fn lemma_add_unseen_laws(all: Seq<PokemonCard>, more: Seq<PokemonCard>)
    requires
        forall|i: int, j: int| 0 <= i < j < all.len() ==> all[i].id@ != all[j].id@,
    ensures
        ({
            let r = add_unseen_spec(all, more);
            &&& forall|i: int, j: int| 0 <= i < j < r.len() ==> r[i].id@ != r[j].id@
            &&& forall|k: int| 0 <= k < more.len() ==> ids_of(r).contains(#[trigger] more[k].id@)
            &&& r.len() >= all.len()
            &&& r.take(all.len() as int) == all
        }),
    decreases more.len(),
{
    if more.len() > 0 {
        let p = more.drop_last();
        lemma_add_unseen_laws(all, p);
        let prev = add_unseen_spec(all, p);
        let r = add_unseen_spec(all, more);
        let c = more.last();
        if ids_of(prev).contains(c.id@) {
        } else {
            assert forall|i: int, j: int| 0 <= i < j < r.len() implies r[i].id@ != r[j].id@ by {
                if j == prev.len() {
                    assert(ids_of(prev)[i] == prev[i].id@);
                } else {
                    assert(r[i] == prev[i]);
                    assert(r[j] == prev[j]);
                }
            }
            assert(r.take(all.len() as int) =~= prev.take(all.len() as int));
        }
        assert forall|k: int| 0 <= k < more.len() implies ids_of(r).contains(#[trigger] more[k].id@) by {
            if k < more.len() - 1 {
                assert(more[k] == p[k]);
                assert(ids_of(prev).contains(p[k].id@));
                let j = choose|j: int| 0 <= j < ids_of(prev).len() && ids_of(prev)[j] == p[k].id@;
                if !ids_of(prev).contains(c.id@) {
                    assert(ids_of(r)[j] == ids_of(prev)[j]);
                }
            } else {
                if !ids_of(prev).contains(c.id@) {
                    assert(ids_of(r)[prev.len() as int] == c.id@);
                }
            }
        }
    } else {
        assert(all.take(all.len() as int) =~= all);
    }
}

} // verus!
