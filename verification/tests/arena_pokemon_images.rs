use magic_greyscale::arena::{
    choose_log_file, deck_array_texts, expand_log_path, extract_all_card_ids, finalize_decks,
    find_all_occurrences, LogChoice,
};
use magic_greyscale::export::{cockatrice_document, fetch_file_name};
use magic_greyscale::imaging::cache::{cache_dir_for, ImageCache};
use magic_greyscale::imaging::greyscale::{fill_rounded_corners, kth_smallest, Rgb, RgbImage};
use magic_greyscale::pokemon::{
    add_unseen, cache_key, card_url, image_url, more_pages_after, name_page_url, set_page_url,
    PokemonCard, PokemonImages, PokemonSet,
};
use magic_greyscale::scryfall::models::Card;
use magic_greyscale::sources::{is_cockatrice_text, pokemon_set_of_source, query_of_source};
use magic_greyscale::deck::parser::parse_cockatrice;

#[test]
fn log_choice() {
    assert_eq!(choose_log_file(200_000, 5), LogChoice::Current);
    assert_eq!(choose_log_file(100_000, 5), LogChoice::Previous);
    assert_eq!(choose_log_file(10, 0), LogChoice::Current);
    assert_eq!(choose_log_file(0, 0), LogChoice::Missing);
}

#[test]
fn log_path_expansion() {
    assert_eq!(expand_log_path("~/Library/Logs/x.log", Some("/home/u")), "/home/u/Library/Logs/x.log");
    assert_eq!(expand_log_path("~/x", None), "~/x");
    assert_eq!(expand_log_path("/abs/x", Some("/home/u")), "/abs/x");
}

#[test]
fn occurrences_do_not_overlap() {
    assert_eq!(find_all_occurrences("aaaa", "aa"), vec![0, 2]);
    assert_eq!(find_all_occurrences("abcabc", "c"), vec![2, 5]);
    assert!(find_all_occurrences("abc", "x").is_empty());
    assert_eq!(find_all_occurrences("éa", "a"), vec![2]);
    assert_eq!(find_all_occurrences("xé\"MainDeck\":[é\"MainDeck\":[", "\"MainDeck\":["), vec![3, 17]);
}

#[test]
fn deck_arrays_from_log_lines() {
    let log = "noise\n{\"CourseDeck\":{\"MainDeck\":[{\"cardId\":1,\"quantity\":4},{\"cardId\":2,\"quantity\":[1]}],\"Sideboard\":[]}}\n\"MainDeck\":[ unterminated\nx \"MainDeck\":[] y \"MainDeck\":[[]]\n";
    let texts = deck_array_texts(log);
    assert_eq!(texts, vec![
        "[{\"cardId\":1,\"quantity\":4},{\"cardId\":2,\"quantity\":[1]}]".to_string(),
        "[]".to_string(),
        "[[]]".to_string(),
    ]);
}

#[test]
fn decks_sorted_largest_first_without_repeats() {
    let a = vec![(1u64, 4u32), (2, 4)];
    let b = vec![(3u64, 1u32)];
    let c = vec![(5u64, 2u32), (6, 1), (7, 1)];
    let parsed = vec![Some(b.clone()), None, Some(a.clone()), Some(vec![]), Some(c.clone()), Some(a.clone()), Some(b.clone())];
    let decks = finalize_decks(parsed);
    assert_eq!(decks, vec![c.clone(), a.clone(), b.clone()]);
    // equal sizes keep their order
    let d = vec![(9u64, 9u32), (8, 8)];
    assert_eq!(finalize_decks(vec![Some(d.clone()), Some(a.clone())]), vec![d, a]);
}

#[test]
fn card_ids_keep_largest_quantity() {
    let decks = vec![vec![(1u64, 2u32), (2, 4)], vec![(1, 3), (3, 1)], vec![(2, 1)]];
    let m = extract_all_card_ids(&decks);
    assert_eq!(m.len(), 3);
    assert_eq!(m[&1], 3);
    assert_eq!(m[&2], 4);
    assert_eq!(m[&3], 1);
}

fn pcard(id: &str, small: Option<&str>, large: Option<&str>) -> PokemonCard {
    PokemonCard {
        id: id.to_string(),
        name: "Pikachu".to_string(),
        set: PokemonSet { id: "base1".to_string(), name: "Base".to_string() },
        images: PokemonImages { small: small.map(String::from), large: large.map(String::from) },
    }
}

#[test]
fn pokemon_addresses_and_paging() {
    assert_eq!(set_page_url("base1", 1), "https://api.pokemontcg.io/v2/cards?q=set.id:base1&pageSize=250&page=1");
    assert_eq!(name_page_url("Mr. Mime", 2), "https://api.pokemontcg.io/v2/cards?q=name:\"Mr.%20Mime\"&pageSize=250&page=2");
    assert_eq!(card_url("base1-4"), "https://api.pokemontcg.io/v2/cards/base1-4");
    assert!(more_pages_after(250));
    assert!(!more_pages_after(249));
}

#[test]
fn pokemon_images_and_keys() {
    assert_eq!(image_url(&pcard("x", Some("s"), Some("l"))).as_deref(), Some("l"));
    assert_eq!(image_url(&pcard("x", Some("s"), None)).as_deref(), Some("s"));
    assert_eq!(image_url(&pcard("x", None, None)), None);
    assert_eq!(cache_key(&pcard("base1-4", None, None)), "pokemon_base1-4");
}

#[test]
fn pokemon_repeats_skipped() {
    let mut all = vec![pcard("a", None, None)];
    let skipped = add_unseen(&mut all, vec![pcard("b", None, None), pcard("a", None, None), pcard("b", None, None), pcard("c", None, None)]);
    assert_eq!(skipped, 2);
    let ids: Vec<&str> = all.iter().map(|c| c.id.as_str()).collect();
    assert_eq!(ids, vec!["a", "b", "c"]);
}

#[test]
fn median_of_samples() {
    assert_eq!(kth_smallest(&vec![5, 1, 4, 2, 3], 2), 3);
    assert_eq!(kth_smallest(&vec![9, 9, 1, 1], 2), 9);
    assert_eq!(kth_smallest(&vec![0], 0), 0);
    assert_eq!(kth_smallest(&vec![255, 255], 1), 255);
}

#[test]
fn corners_filled_with_border_colour() {
    let w = 50u32;
    let h = 60u32;
    let mut pixels = Vec::new();
    for y in 0..h {
        for x in 0..w {
            let border = x < 3 || y < 3 || x >= w - 3 || y >= h - 3;
            let p = if border { Rgb { r: 10, g: 20, b: 30 } } else { Rgb { r: 100, g: 100, b: 100 } };
            pixels.push(p);
        }
    }
    // white rounded corner pixels
    pixels[0] = Rgb { r: 255, g: 255, b: 255 };
    pixels[(w - 1) as usize] = Rgb { r: 250, g: 250, b: 250 };
    pixels[((h - 1) * w) as usize] = Rgb { r: 200, g: 200, b: 200 };
    // a bright pixel outside the corners stays
    pixels[(30 * w + 25) as usize] = Rgb { r: 255, g: 255, b: 255 };
    // a dark corner pixel stays
    pixels[1] = Rgb { r: 0, g: 0, b: 0 };
    let mut img = RgbImage { width: w, height: h, pixels };
    fill_rounded_corners(&mut img);
    let border = Rgb { r: 10, g: 20, b: 30 };
    assert_eq!(img.pixels[0], border);
    assert_eq!(img.pixels[(w - 1) as usize], border);
    assert_eq!(img.pixels[((h - 1) * w) as usize], border);
    assert_eq!(img.pixels[1], Rgb { r: 0, g: 0, b: 0 });
    assert_eq!(img.pixels[(30 * w + 25) as usize], Rgb { r: 255, g: 255, b: 255 });
    assert_eq!(img.pixels.len(), (w * h) as usize);
}

#[test]
fn image_cache_paths() {
    assert_eq!(cache_dir_for(Some("/home/u/.cache"), "images"), "/home/u/.cache/magic_greyscale/images");
    assert_eq!(cache_dir_for(None, "api"), ".cache/magic_greyscale/api");
    let cache = ImageCache { cache_dir: "/nonexistent-dir-for-tests".to_string() };
    assert_eq!(cache.path_for("abc", "png"), "/nonexistent-dir-for-tests/abc_png.png");
    assert_eq!(cache.get("abc", "png"), None);
}

fn mcard(name: &str) -> Card {
    Card {
        id: name.to_string(),
        name: name.to_string(),
        layout: "normal".to_string(),
        mana_cost: None,
        type_line: None,
        oracle_text: None,
        rarity: None,
        set: "leb".to_string(),
        set_name: "Beta".to_string(),
        collector_number: "1".to_string(),
        image_uris: None,
        card_faces: None,
        arena_id: None,
    }
}

#[test]
fn cockatrice_export_text_and_reading_back() {
    let cards = vec![(mcard("Fire & Ice"), 2), (mcard("Bolt \"<x>\""), 4)];
    let doc = cockatrice_document(&cards);
    assert_eq!(doc, "<?xml version=\"1.0\" encoding=\"UTF-8\"?>\n<cockatrice_deck version=\"1\">\n    <deckname>Magic Greyscale Master</deckname>\n    <comments>Generated by magic_greyscale</comments>\n    <zone name=\"main\">\n        <card number=\"2\" name=\"Fire &amp; Ice\"/>\n        <card number=\"4\" name=\"Bolt &quot;&lt;x&gt;&quot;\"/>\n    </zone>\n</cockatrice_deck>\n");
    let deck = parse_cockatrice(&doc).unwrap();
    assert_eq!(deck.mainboard.len(), 2);
    assert_eq!(deck.mainboard[0].card_name, "Fire & Ice");
    assert_eq!(deck.mainboard[0].quantity, 2);
    assert_eq!(deck.mainboard[1].card_name, "Bolt \"<x>\"");
    assert_eq!(deck.mainboard[1].quantity, 4);
    assert!(deck.sideboard.is_empty());
}

#[test]
fn cockatrice_reading_back_edge_names() {
    let cards = vec![(mcard("Ampersand &amp; Co"), 1), (mcard("side"), 3), (mcard("Bolt"), 2)];
    let deck = parse_cockatrice(&cockatrice_document(&cards)).unwrap();
    assert_eq!(deck.mainboard.len(), 1);
    assert_eq!(deck.mainboard[0].card_name, "Ampersand &amp; Co");
    assert_eq!(deck.sideboard.len(), 2);
    assert_eq!(deck.sideboard[0].card_name, "side");
    assert_eq!(deck.sideboard[1].quantity, 2);
    let odd = vec![(mcard("&lt;"), 1)];
    let back = parse_cockatrice(&cockatrice_document(&odd)).unwrap();
    assert_eq!(back.mainboard[0].card_name, "<");
}

#[test]
fn fetched_file_names_are_safe() {
    assert_eq!(fetch_file_name("Fire // Ice", "mh2"), "Fire __ Ice_mh2.png");
    assert_eq!(fetch_file_name("A:B?C*D<E>F|G\"H\\I", "x"), "A_B_C_D_E_F_G_H_I_x.png");
}

#[test]
fn sources_classified() {
    assert!(is_cockatrice_text("deck.cod", "4 Bolt"));
    assert!(is_cockatrice_text("deck.txt", "  \n<?xml version=\"1.0\"?>"));
    assert!(is_cockatrice_text("deck.txt", "junk <cockatrice_deck>"));
    assert!(!is_cockatrice_text("deck.txt", "4 Lightning Bolt"));
    assert_eq!(query_of_source("q:t:instant"), "t:instant");
    assert_eq!(query_of_source("lightning bolt"), "lightning bolt");
    assert_eq!(pokemon_set_of_source("set:base1").as_deref(), Some("base1"));
    assert_eq!(pokemon_set_of_source("pikachu"), None);
}

#[test]
fn corner_fill_twice_changes_nothing() {
    let (w, h) = (60u32, 80u32);
    let mut pixels = Vec::new();
    for y in 0..h {
        for x in 0..w {
            let on_edge = x < 3 || y < 3 || x >= w - 3 || y >= h - 3;
            let v = if on_edge { 20 } else { ((x * 7 + y * 3) % 256) as u8 };
            let p = if (x < 2 || x >= w - 2) && (y < 2 || y >= h - 2) { 250 } else { v };
            pixels.push(Rgb { r: p, g: p, b: p });
        }
    }
    let mut img = RgbImage { width: w, height: h, pixels };
    fill_rounded_corners(&mut img);
    assert_eq!(img.pixels[0], Rgb { r: 20, g: 20, b: 20 });
    let once = img.pixels.clone();
    fill_rounded_corners(&mut img);
    assert_eq!(img.pixels, once);
}
