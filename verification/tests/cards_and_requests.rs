use magic_greyscale::collection::{first_occurrences_of, merge_cards, merge_fits};
use magic_greyscale::deck::models::{Deck, DeckEntry};
use magic_greyscale::deck::files::{cod_file_order, is_cod_file};
use magic_greyscale::scryfall::api::{
    after_batch, after_fuzzy_lookup, after_printing_lookup, batch_ranges,
    absorb_search_page, arena_url, collection_url, match_batch, named_url, search_url,
    set_number_url, set_query, set_url, split_by_printing,
};
use magic_greyscale::scryfall::client::{
    pokemon_request_step, post_cache_key, scryfall_request_step, RequestAction,
    pokemon_retry_action, scryfall_retry_action, wait_before_request, RetryAction,
};
use magic_greyscale::scryfall::models::{Card, CardFace, ImageUris, SearchResult};
use magic_greyscale::scryfall::response_cache::ResponseCache;
use std::hash::{Hash, Hasher};

fn uris(tag: &str) -> ImageUris {
    ImageUris {
        small: Some(format!("{}-small", tag)),
        normal: Some(format!("{}-normal", tag)),
        large: Some(format!("{}-large", tag)),
        png: Some(format!("{}-png", tag)),
        art_crop: None,
        border_crop: Some(format!("{}-border", tag)),
    }
}

fn card(id: &str, name: &str) -> Card {
    Card {
        id: id.to_string(),
        name: name.to_string(),
        layout: "normal".to_string(),
        mana_cost: None,
        type_line: None,
        oracle_text: None,
        rarity: None,
        set: "leb".to_string(),
        set_name: "Limited Edition Beta".to_string(),
        collector_number: "1".to_string(),
        image_uris: Some(uris(id)),
        card_faces: None,
        arena_id: None,
    }
}

#[test]
fn image_uris_by_quality() {
    let u = uris("x");
    assert_eq!(u.get("small").as_deref(), Some("x-small"));
    assert_eq!(u.get("normal").as_deref(), Some("x-normal"));
    assert_eq!(u.get("large").as_deref(), Some("x-large"));
    assert_eq!(u.get("png").as_deref(), Some("x-png"));
    assert_eq!(u.get("art_crop"), None);
    assert_eq!(u.get("border_crop").as_deref(), Some("x-border"));
    assert_eq!(u.get("whatever").as_deref(), Some("x-png"));
}

#[test]
fn image_uri_falls_back_to_first_face() {
    let mut c = card("a", "Delver");
    assert_eq!(c.image_uri("png").as_deref(), Some("a-png"));
    c.image_uris = None;
    assert_eq!(c.image_uri("png"), None);
    c.card_faces = Some(vec![
        CardFace { name: "Front".into(), mana_cost: None, type_line: None, oracle_text: None, image_uris: Some(uris("front")) },
        CardFace { name: "Back".into(), mana_cost: None, type_line: None, oracle_text: None, image_uris: Some(uris("back")) },
    ]);
    assert_eq!(c.image_uri("large").as_deref(), Some("front-large"));
    c.card_faces = Some(vec![]);
    assert_eq!(c.image_uri("large"), None);
}

#[test]
fn merging_sums_quantities_by_id() {
    let mut all = vec![(card("a", "A"), 2)];
    let incoming = vec![(card("b", "B"), 1), (card("a", "A"), 3), (card("b", "B"), 4)];
    assert!(merge_fits(&all, &incoming));
    let merged = merge_cards(&mut all, incoming);
    assert_eq!(merged, 2);
    let got: Vec<(&str, u32)> = all.iter().map(|(c, q)| (c.id.as_str(), *q)).collect();
    assert_eq!(got, vec![("a", 5), ("b", 5)]);
    assert!(!merge_fits(&all, &vec![(card("a", "A"), u32::MAX)]));
    assert!(merge_fits(&all, &vec![(card("a", "A"), u32::MAX - 5)]));
}

#[test]
fn downloads_reuse_first_occurrence() {
    let ids: Vec<String> = vec!["a", "b", "a", "c", "b"].into_iter().map(String::from).collect();
    assert_eq!(first_occurrences_of(&ids), vec![0, 1, 0, 3, 1]);
}

#[test]
fn scryfall_addresses() {
    assert_eq!(search_url("lightning bolt"), "https://api.scryfall.com/cards/search?q=lightning%20bolt");
    assert_eq!(search_url("set:neo t:basic"), "https://api.scryfall.com/cards/search?q=set%3Aneo%20t%3Abasic");
    assert_eq!(named_url("Æther Vial"), "https://api.scryfall.com/cards/named?fuzzy=%C3%86ther%20Vial");
    assert_eq!(set_number_url("LEB", "162"), "https://api.scryfall.com/cards/leb/162");
    assert_eq!(collection_url(), "https://api.scryfall.com/cards/collection");
    assert_eq!(set_url("STA"), "https://api.scryfall.com/sets/sta");
    assert_eq!(set_query("WOT"), "set:wot");
    assert_eq!(arena_url(12345), "https://api.scryfall.com/cards/arena/12345");
}

#[test]
fn batch_answers_match_names_case_insensitively() {
    let names: Vec<String> = vec!["Bolt", "bolt", "Other"].into_iter().map(String::from).collect();
    let data = vec![card("first", "BOLT"), card("second", "Bolt")];
    let r = match_batch(&names, data);
    assert_eq!(r.len(), 3);
    assert_eq!(r[0].0, "Bolt");
    assert_eq!(r[0].1.as_ref().map(|c| c.id.as_str()), Some("second"));
    assert!(r[1].1.is_none());
    assert!(r[2].1.is_none());
}

#[test]
fn search_pages_accumulate_and_truncate() {
    let mut cards = vec![card("a", "A")];
    let page = SearchResult { total_cards: None, has_more: true, next_page: Some("next".into()), data: vec![card("b", "B")] };
    assert_eq!(absorb_search_page(&mut cards, page, 5).as_deref(), Some("next"));
    assert_eq!(cards.len(), 2);
    let page = SearchResult { total_cards: None, has_more: true, next_page: Some("more".into()), data: vec![card("c", "C"), card("d", "D"), card("e", "E"), card("f", "F")] };
    assert_eq!(absorb_search_page(&mut cards, page, 5), None);
    assert_eq!(cards.len(), 5);
    let page = SearchResult { total_cards: None, has_more: false, next_page: None, data: vec![] };
    let mut few = vec![card("a", "A")];
    assert_eq!(absorb_search_page(&mut few, page, 5), None);
    assert_eq!(few.len(), 1);
}

#[test]
fn entries_split_by_printing() {
    let e = |n: &str, s: Option<&str>, c: Option<&str>| DeckEntry {
        quantity: 1,
        card_name: n.to_string(),
        set_code: s.map(String::from),
        collector_number: c.map(String::from),
    };
    let deck = Deck {
        mainboard: vec![e("A", Some("LEB"), Some("1")), e("B", Some("LEB"), None)],
        sideboard: vec![e("C", None, None), e("D", Some("M21"), Some("7"))],
    };
    let (with, without) = split_by_printing(&deck);
    let w: Vec<&str> = with.iter().map(|x| x.card_name.as_str()).collect();
    let wo: Vec<&str> = without.iter().map(|x| x.card_name.as_str()).collect();
    assert_eq!(w, vec!["A", "D"]);
    assert_eq!(wo, vec!["B", "C"]);
}

#[test]
fn retry_decisions() {
    assert_eq!(scryfall_retry_action(200, 0), RetryAction::Accept);
    assert_eq!(scryfall_retry_action(429, 2), RetryAction::Retry { delay_secs: 3 });
    assert_eq!(scryfall_retry_action(503, 0), RetryAction::Retry { delay_secs: 1 });
    assert_eq!(scryfall_retry_action(404, 0), RetryAction::Fail);
    assert_eq!(pokemon_retry_action(500, 3), RetryAction::Retry { delay_secs: 8 });
    assert_eq!(pokemon_retry_action(302, 0), RetryAction::Fail);
    assert_eq!(wait_before_request(50, 150), 100);
    assert_eq!(wait_before_request(200, 150), 0);
}

#[test]
fn response_cache_key_is_default_hasher_hex() {
    let url = "https://api.scryfall.com/cards/named?fuzzy=bolt";
    let mut h = std::collections::hash_map::DefaultHasher::new();
    url.hash(&mut h);
    let expected = format!("{:016x}", h.finish());
    assert_eq!(ResponseCache::key_for(url), expected);
    assert_eq!(ResponseCache::key_for(url).len(), 16);
    let cache = ResponseCache { cache_dir: "/tmp/api".to_string() };
    assert_eq!(cache.path_for(url), format!("/tmp/api/{}", expected));
}

fn entry(name: &str, quantity: u32) -> DeckEntry {
    DeckEntry { quantity, card_name: name.to_string(), set_code: None, collector_number: None }
}

#[test]
fn batch_answers_route_misses_to_fallback() {
    let entries = vec![entry("A", 4), entry("B", 2), entry("C", 1)];
    let (hits, misses) = after_batch(&entries, vec![Some(card("1", "A")), None, Some(card("3", "C"))]);
    assert_eq!(hits.len(), 2);
    assert_eq!(hits[0].0.id, "1");
    assert_eq!(hits[0].1, 4);
    assert_eq!(hits[1].0.id, "3");
    assert_eq!(hits[1].1, 1);
    assert_eq!(misses, vec![1]);
}

#[test]
fn batches_of_seventy_five() {
    assert_eq!(batch_ranges(0, 75), vec![]);
    assert_eq!(batch_ranges(75, 75), vec![(0, 75)]);
    assert_eq!(batch_ranges(160, 75), vec![(0, 75), (75, 150), (150, 160)]);
}

#[test]
fn cod_files_chosen_and_ordered() {
    assert!(is_cod_file("deck.cod"));
    assert!(is_cod_file("a.b.cod"));
    assert!(!is_cod_file(".cod"));
    assert!(!is_cod_file("cod"));
    assert!(!is_cod_file("deck.cod.txt"));
    assert!(!is_cod_file("deck.COD"));
    let names = vec![
        "b.cod".to_string(),
        "notes.txt".to_string(),
        "a.cod".to_string(),
        "B.cod".to_string(),
    ];
    assert_eq!(cod_file_order(&names), vec![3, 2, 0]);
}

#[test]
fn request_loop_steps() {
    assert_eq!(scryfall_request_step(true, None, 0), RequestAction::UseCached);
    assert_eq!(scryfall_request_step(false, None, 0), RequestAction::Send);
    assert_eq!(scryfall_request_step(false, None, 7), RequestAction::Send);
    assert_eq!(scryfall_request_step(false, None, 8), RequestAction::GiveUp);
    assert_eq!(scryfall_request_step(false, Some(429), 3), RequestAction::Wait { delay_secs: 4 });
    assert_eq!(scryfall_request_step(false, Some(404), 0), RequestAction::Fail);
    assert_eq!(scryfall_request_step(false, Some(200), 0), RequestAction::Accept);
    assert_eq!(pokemon_request_step(Some(503), 1), RequestAction::Wait { delay_secs: 4 });
    assert_eq!(pokemon_request_step(None, 8), RequestAction::GiveUp);
    assert_eq!(
        post_cache_key("https://api.scryfall.com/cards/collection", "{\"identifiers\":[]}"),
        "https://api.scryfall.com/cards/collection|{\"identifiers\":[]}"
    );
}

#[test]
fn lookups_route_entries() {
    let mut cards = Vec::new();
    let mut by_name = Vec::new();
    after_printing_lookup(entry("Bolt", 4), Some(card("1", "Bolt")), &mut cards, &mut by_name);
    after_printing_lookup(entry("Lost", 2), None, &mut cards, &mut by_name);
    assert_eq!(cards.len(), 1);
    assert_eq!(cards[0].1, 4);
    assert_eq!(by_name.len(), 1);
    assert_eq!(by_name[0].card_name, "Lost");
    after_fuzzy_lookup(2, None, &mut cards);
    assert_eq!(cards.len(), 1);
    after_fuzzy_lookup(3, Some(card("9", "Found")), &mut cards);
    assert_eq!((cards[1].0.id.as_str(), cards[1].1), ("9", 3));
}
