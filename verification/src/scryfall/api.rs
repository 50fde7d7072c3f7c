//! The Scryfall requests: their addresses and the handling of their replies.
use vstd::prelude::*;

use crate::deck::models::{Deck, DeckEntry, EntryView, entries_view};
use crate::scryfall::models::{Card, SearchResult};
use crate::text::{append_chars, chars_of, decimal, decimal_chars, string_of};
use crate::urls::{lowercase, to_lower, url_encode, url_encoded};

verus! {

pub open spec fn scryfall_base() -> Seq<char> {
    "https://api.scryfall.com"@
}

/// The address of a card search.
pub open spec fn search_url_spec(query: Seq<char>) -> Seq<char> {
    scryfall_base() + "/cards/search?q="@ + url_encoded(query)
}

/// The address of a fuzzy lookup by name.
pub open spec fn named_url_spec(name: Seq<char>) -> Seq<char> {
    scryfall_base() + "/cards/named?fuzzy="@ + url_encoded(name)
}

/// The address of a printing given by set code and collector number.
pub open spec fn set_number_url_spec(set: Seq<char>, number: Seq<char>) -> Seq<char> {
    scryfall_base() + "/cards/"@ + lowercase(set) + "/"@ + number
}

/// The address of a batch lookup.
pub open spec fn collection_url_spec() -> Seq<char> {
    scryfall_base() + "/cards/collection"@
}

/// The address of a set.
pub open spec fn set_url_spec(code: Seq<char>) -> Seq<char> {
    scryfall_base() + "/sets/"@ + lowercase(code)
}

/// The search query for all cards of a set.
pub open spec fn set_query_spec(code: Seq<char>) -> Seq<char> {
    "set:"@ + lowercase(code)
}

/// The address of a card by its MTG Arena id.
pub open spec fn arena_url_spec(id: u64) -> Seq<char> {
    scryfall_base() + "/cards/arena/"@ + decimal(id as nat)
}

/// The address of a card search for `query`.
pub fn search_url(query: &str) -> (r: String)
    ensures
        r@ == search_url_spec(query@),
{
    let mut out = chars_of("https://api.scryfall.com");
    append_chars(&mut out, &chars_of("/cards/search?q="));
    append_chars(&mut out, &chars_of(url_encode(query).as_str()));
    string_of(&out)
}

/// The address of a fuzzy lookup of `name`.
pub fn named_url(name: &str) -> (r: String)
    ensures
        r@ == named_url_spec(name@),
{
    let mut out = chars_of("https://api.scryfall.com");
    append_chars(&mut out, &chars_of("/cards/named?fuzzy="));
    append_chars(&mut out, &chars_of(url_encode(name).as_str()));
    string_of(&out)
}

/// The address of the printing with collector number `number` in set `set`.
pub fn set_number_url(set: &str, number: &str) -> (r: String)
    ensures
        r@ == set_number_url_spec(set@, number@),
{
    let mut out = chars_of("https://api.scryfall.com");
    append_chars(&mut out, &chars_of("/cards/"));
    append_chars(&mut out, &chars_of(to_lower(set).as_str()));
    append_chars(&mut out, &chars_of("/"));
    append_chars(&mut out, &chars_of(number));
    string_of(&out)
}

/// The address of a batch lookup.
pub fn collection_url() -> (r: String)
    ensures
        r@ == collection_url_spec(),
{
    let mut out = chars_of("https://api.scryfall.com");
    append_chars(&mut out, &chars_of("/cards/collection"));
    string_of(&out)
}

/// The address of set `code`.
pub fn set_url(code: &str) -> (r: String)
    ensures
        r@ == set_url_spec(code@),
{
    let mut out = chars_of("https://api.scryfall.com");
    append_chars(&mut out, &chars_of("/sets/"));
    append_chars(&mut out, &chars_of(to_lower(code).as_str()));
    string_of(&out)
}

/// The search query for all cards of set `code`.
pub fn set_query(code: &str) -> (r: String)
    ensures
        r@ == set_query_spec(code@),
{
    let mut out = chars_of("set:");
    append_chars(&mut out, &chars_of(to_lower(code).as_str()));
    string_of(&out)
}

/// The address of the card with MTG Arena id `id`.
pub fn arena_url(id: u64) -> (r: String)
    ensures
        r@ == arena_url_spec(id),
{
    let mut out = chars_of("https://api.scryfall.com");
    append_chars(&mut out, &chars_of("/cards/arena/"));
    append_chars(&mut out, &decimal_chars(id));
    string_of(&out)
}

// ------------------------------------------------------------------
// Paging through a search
// ------------------------------------------------------------------

/// Adds a search page to the cards found so far. Returns the address of
/// the next page when more are wanted (fewer than `max_cards` found, the
/// page says more follow, and it gives the next address); otherwise
/// returns `None` and cuts the cards found to at most `max_cards`.
pub fn absorb_search_page(cards: &mut Vec<Card>, page: SearchResult, max_cards: usize) -> (next:
    Option<String>)
    ensures
        ({
            let all = old(cards)@ + page.data@;
            let more = all.len() < max_cards && page.has_more && page.next_page is Some;
            &&& more ==> next == page.next_page && final(cards)@ == all
            &&& !more ==> next is None && final(cards)@ == if all.len() <= max_cards {
                all
            } else {
                all.take(max_cards as int)
            }
        }),
{
    let mut data = page.data;
    cards.append(&mut data);
    if cards.len() < max_cards && page.has_more {
        match page.next_page {
            Some(n) => {
                return Some(n);
            },
            None => {},
        }
    }
    cards.truncate(max_cards);
    None
}

// ------------------------------------------------------------------
// Batch lookups by name
// ------------------------------------------------------------------

/// The card that a batch reply gives for a (lowercased) name: the last card
/// in the reply with that lowercased name.
pub open spec fn last_with_name(data: Seq<Card>, key: Seq<char>) -> Option<Card>
    decreases data.len(),
{
    if data.len() == 0 {
        None
    } else if lowercase(data.last().name@) == key {
        Some(data.last())
    } else {
        last_with_name(data.drop_last(), key)
    }
}

/// The name at `k` was already asked for, in any case, earlier in the batch.
pub open spec fn asked_before(names: Seq<String>, k: int) -> bool {
    exists|j: int| 0 <= j < k && lowercase(#[trigger] names[j]@) == lowercase(names[k]@)
}

/// The answer for the name at `k`: the card with its lowercased name,
/// unless an earlier name of the batch already took it.
pub open spec fn batch_answer(names: Seq<String>, data: Seq<Card>, k: int) -> Option<Card> {
    if asked_before(names, k) {
        None
    } else {
        last_with_name(data, lowercase(names[k]@))
    }
}

/// Pairs each asked name with its card from the batch reply `data`: the
/// last card whose lowercased name equals the lowercased asked name, each
/// card given only to the first name that asks for it.
pub fn match_batch(names: &Vec<String>, data: Vec<Card>) -> (r: Vec<(String, Option<Card>)>)
    ensures
        r.len() == names.len(),
        forall|k: int|
            0 <= k < names.len() ==> (#[trigger] r@[k]).0@ == names@[k]@ && r@[k].1 == batch_answer(
                names@,
                data@,
                k,
            ),
{
    // The cards, keyed by lowercased name; a taken card leaves its slot empty.
    let ghost d = data@;
    let mut keys: Vec<Vec<char>> = Vec::new();
    let mut slots: Vec<Option<Card>> = Vec::new();
    for c in it: data.into_iter()
        invariant
            it.seq() == d,
            keys.len() == slots.len(),
            forall|m: int| 0 <= m < keys.len() ==> #[trigger] slots@[m] == last_with_name(d.take(it.index() as int), keys@[m]@),
            forall|m: int| 0 <= m < keys.len() ==> last_with_name(d.take(it.index() as int), #[trigger] keys@[m]@) is Some,
            forall|key: Seq<char>| last_with_name(d.take(it.index() as int), key) is Some ==> exists|m: int| 0 <= m < keys.len() && #[trigger] keys@[m]@ == key,
            forall|m: int, n: int| 0 <= m < n < keys.len() ==> keys@[m]@ != keys@[n]@,
    {
        let ghost i = it.index() as int;
        let key = chars_of(to_lower(c.name.as_str()).as_str());
        proof {
            let t = d.take(i + 1);
            assert(t.drop_last() =~= d.take(i));
            assert(t.last() == c);
        }
        let mut m: usize = 0;
        while m < keys.len() && !same(&keys[m], &key)
            invariant
                m <= keys.len(),
                forall|j: int| 0 <= j < m ==> keys@[j]@ != key@,
            decreases keys.len() - m,
        {
            m += 1;
        }
        let ghost old_keys = keys@;
        if m < keys.len() {
            slots.set(m, Some(c));
        } else {
            keys.push(key);
            slots.push(Some(c));
        }
        proof {
            let t = d.take(i + 1);
            assert forall|mm: int| 0 <= mm < keys.len() implies #[trigger] slots@[mm] == last_with_name(t, keys@[mm]@) by {}
            assert forall|mm: int| 0 <= mm < keys.len() implies last_with_name(t, #[trigger] keys@[mm]@) is Some by {}
            assert forall|kk: Seq<char>| last_with_name(t, kk) is Some implies exists|mm: int| 0 <= mm < keys.len() && #[trigger] keys@[mm]@ == kk by {
                if kk != key@ {
                    assert(last_with_name(t, kk) == last_with_name(d.take(i), kk));
                    let mm = choose|mm: int| 0 <= mm < old_keys.len() && #[trigger] old_keys[mm]@ == kk;
                    assert(keys@[mm] == old_keys[mm]);
                } else {
                    assert(keys@[m as int]@ == kk);
                }
            }
        }
    }
    proof {
        assert(d.take(d.len() as int) =~= d);
    }
    let mut r: Vec<(String, Option<Card>)> = Vec::new();
    let mut k: usize = 0;
    while k < names.len()
        invariant
            k <= names.len(),
            r.len() == k,
            keys.len() == slots.len(),
            forall|m: int| 0 <= m < keys.len() ==> last_with_name(d, #[trigger] keys@[m]@) is Some,
            forall|key: Seq<char>| last_with_name(d, key) is Some ==> exists|m: int| 0 <= m < keys.len() && #[trigger] keys@[m]@ == key,
            forall|m: int, n: int| 0 <= m < n < keys.len() ==> keys@[m]@ != keys@[n]@,
            forall|m: int|
                0 <= m < keys.len() ==> #[trigger] slots@[m] == if exists|j: int| 0 <= j < k && lowercase(#[trigger] names@[j]@) == keys@[m]@ {
                    None
                } else {
                    last_with_name(d, keys@[m]@)
                },
            forall|j: int|
                0 <= j < k ==> (#[trigger] r@[j]).0@ == names@[j]@ && r@[j].1 == batch_answer(names@, d, j),
        decreases names.len() - k,
    {
        let key = chars_of(to_lower(names[k].as_str()).as_str());
        let mut m: usize = 0;
        while m < keys.len() && !same(&keys[m], &key)
            invariant
                m <= keys.len(),
                forall|j: int| 0 <= j < m ==> keys@[j]@ != key@,
            decreases keys.len() - m,
        {
            m += 1;
        }
        let found = if m < keys.len() {
            let taken = slots[m].take();
            taken
        } else {
            None
        };
        r.push((names[k].clone(), found));
        k += 1;
    }
    r
}

fn same(a: &Vec<char>, b: &Vec<char>) -> (r: bool)
    ensures
        r == (a@ == b@),
{
    crate::scryfall::models::same_chars(a, b)
}

// ------------------------------------------------------------------
// Looking up the entries of a deck
// ------------------------------------------------------------------

/// The entries of a deck that name their printing (set code and collector
/// number), and the others, each in deck order, main deck first.
pub open spec fn names_printing(e: EntryView) -> bool {
    e.set_code is Some && e.collector_number is Some
}

pub open spec fn with_printing() -> spec_fn(EntryView) -> bool {
    |e: EntryView| names_printing(e)
}

pub open spec fn without_printing() -> spec_fn(EntryView) -> bool {
    |e: EntryView| !names_printing(e)
}

fn split_into(src: &Vec<DeckEntry>, with: &mut Vec<DeckEntry>, without: &mut Vec<DeckEntry>)
    ensures
        entries_view(final(with)@) == entries_view(old(with)@) + entries_view(src@).filter(
            with_printing(),
        ),
        entries_view(final(without)@) == entries_view(old(without)@) + entries_view(src@).filter(
            without_printing(),
        ),
{
    let ghost w0 = entries_view(with@);
    let ghost n0 = entries_view(without@);
    let ghost all = entries_view(src@);
    let mut i: usize = 0;
    proof {
        reveal_with_fuel(Seq::<_>::filter, 1);
        assert(all.take(0) =~= Seq::<EntryView>::empty());
        assert(w0 + all.take(0).filter(with_printing()) =~= w0);
        assert(n0 + all.take(0).filter(without_printing()) =~= n0);
    }
    while i < src.len()
        invariant
            all == entries_view(src@),
            i <= src.len(),
            entries_view(with@) == w0 + all.take(i as int).filter(with_printing()),
            entries_view(without@) == n0 + all.take(i as int).filter(without_printing()),
        decreases src.len() - i,
    {
        let e = src[i].duplicate();
        let ghost pw = entries_view(with@);
        let ghost pn = entries_view(without@);
        proof {
            reveal_with_fuel(Seq::<_>::filter, 1);
            assert(e@ == all[i as int]);
            let t = all.take(i + 1);
            assert(t.drop_last() =~= all.take(i as int));
            assert(t.last() == e@);
        }
        if e.set_code.is_some() && e.collector_number.is_some() {
            with.push(e);
            proof {
                assert(entries_view(with@) =~= pw.push(all[i as int]));
                assert(entries_view(without@) =~= pn);
            }
        } else {
            without.push(e);
            proof {
                assert(entries_view(with@) =~= pw);
                assert(entries_view(without@) =~= pn.push(all[i as int]));
            }
        }
        i += 1;
    }
    proof {
        assert(all.take(src.len() as int) =~= all);
    }
}

/// Splits the entries of `deck` (main deck, then sideboard) into those
/// that name their printing and those that give only a name, each in order.
pub fn split_by_printing(deck: &Deck) -> (r: (Vec<DeckEntry>, Vec<DeckEntry>))
    ensures
        entries_view(r.0@) == (deck@.mainboard + deck@.sideboard).filter(with_printing()),
        entries_view(r.1@) == (deck@.mainboard + deck@.sideboard).filter(without_printing()),
{
    let mut with: Vec<DeckEntry> = Vec::new();
    let mut without: Vec<DeckEntry> = Vec::new();
    proof {
        assert(entries_view(with@) =~= Seq::<EntryView>::empty());
        assert(entries_view(without@) =~= Seq::<EntryView>::empty());
    }
    split_into(&deck.mainboard, &mut with, &mut without);
    split_into(&deck.sideboard, &mut with, &mut without);
    proof {
        Seq::filter_distributes_over_add(deck@.mainboard, deck@.sideboard, with_printing());
        Seq::filter_distributes_over_add(deck@.mainboard, deck@.sideboard, without_printing());
        assert(entries_view(with@) =~= deck@.mainboard.filter(with_printing())
            + deck@.sideboard.filter(with_printing()));
        assert(entries_view(without@) =~= deck@.mainboard.filter(without_printing())
            + deck@.sideboard.filter(without_printing()));
    }
    (with, without)
}


// ------------------------------------------------------------------
// Routing the lookups of a deck
// ------------------------------------------------------------------

/// The cards that a batch lookup found, each with the quantity of the
/// entry it was asked for, in entry order.
pub open spec fn batch_hits(quantities: Seq<u32>, found: Seq<Option<Card>>) -> Seq<(Card, u32)>
    decreases found.len(),
{
    if found.len() == 0 {
        Seq::empty()
    } else {
        let prev = batch_hits(quantities, found.drop_last());
        match found.last() {
            Some(c) => prev.push((c, quantities[found.len() - 1])),
            None => prev,
        }
    }
}

/// The indices of the entries that a batch lookup did not find, in order:
/// these are looked up one by one by fuzzy name.
pub open spec fn batch_misses(found: Seq<Option<Card>>) -> Seq<usize>
    decreases found.len(),
{
    if found.len() == 0 {
        Seq::empty()
    } else {
        let prev = batch_misses(found.drop_last());
        if found.last() is None {
            prev.push((found.len() - 1) as usize)
        } else {
            prev
        }
    }
}

/// The quantities of the entries.
pub open spec fn quantities_of(entries: Seq<DeckEntry>) -> Seq<u32> {
    entries.map_values(|e: DeckEntry| e.quantity)
}

/// After a batch lookup of `entries` by name, with `found[i]` the answer
/// for entry `i`: the cards found, each with its entry's quantity, and the
/// indices of the entries to look up by fuzzy name.
pub fn after_batch(entries: &Vec<DeckEntry>, found: Vec<Option<Card>>) -> (r: (
    Vec<(Card, u32)>,
    Vec<usize>,
))
    requires
        found.len() == entries.len(),
    ensures
        r.0@ == batch_hits(quantities_of(entries@), found@),
        r.1@ == batch_misses(found@),
{
    let ghost f = found@;
    let ghost q = quantities_of(entries@);
    let mut hits: Vec<(Card, u32)> = Vec::new();
    let mut misses: Vec<usize> = Vec::new();
    let mut i: usize = 0;
    proof {
        assert(f.take(0) =~= Seq::<Option<Card>>::empty());
    }
    for c in it: found.into_iter()
        invariant
            it.seq() == f,
            f.len() == entries.len(),
            q == quantities_of(entries@),
            i == it.index(),
            hits@ == batch_hits(q, f.take(i as int)),
            misses@ == batch_misses(f.take(i as int)),
    {
        proof {
            let t = f.take(i + 1);
            assert(t.drop_last() =~= f.take(i as int));
            assert(t.last() == c);
            assert(q[i as int] == entries@[i as int].quantity);
        }
        match c {
            Some(card) => {
                hits.push((card, entries[i].quantity));
            },
            None => {
                misses.push(i);
            },
        }
        i += 1;
    }
    proof {
        assert(f.take(f.len() as int) =~= f);
    }
    (hits, misses)
}

/// The `[start, end)` index ranges of the batches of at most `size` of `n`
/// items, in order: batch `k` starts at `k * size` and holds `size` items,
/// the last one what is left.
pub fn batch_ranges(n: usize, size: usize) -> (r: Vec<(usize, usize)>)
    requires
        size > 0,
    ensures
        r.len() * size >= n,
        r.len() == 0 || (r.len() - 1) * size < n,
        forall|k: int|
            0 <= k < r.len() ==> (#[trigger] r@[k]).0 == k * size && r@[k].1 == if (k + 1) * size
                <= n {
                (k + 1) * size
            } else {
                n as int
            },
{
    let mut r: Vec<(usize, usize)> = Vec::new();
    let mut start: usize = 0;
    let mut done = n == 0;
    assert(r.len() * size == 0) by (nonlinear_arith)
        requires
            r.len() == 0,
    ;
    while !done
        invariant
            size > 0,
            start <= n,
            done ==> r.len() * size >= n && start == n,
            !done ==> start < n && start == r.len() * size,
            r.len() == 0 || (r.len() - 1) * size < n,
            forall|k: int|
                0 <= k < r.len() ==> (#[trigger] r@[k]).0 == k * size && r@[k].1 == if (k + 1)
                    * size <= n {
                    (k + 1) * size
                } else {
                    n as int
                },
        decreases n - start + if done { 0int } else { 1int },
    {
        let ghost k = r.len() as int;
        proof {
            assert((k + 1) * size == k * size + size) by (nonlinear_arith);
        }
        let end = if n - start > size {
            start + size
        } else {
            n
        };
        r.push((start, end));
        done = end == n;
        start = end;
    }
    r
}

/// After looking an entry up by its printing: a card found goes to the
/// cards with the entry's quantity; when none is found the entry goes to
/// the lookups by name.
pub fn after_printing_lookup(
    entry: DeckEntry,
    found: Option<Card>,
    cards: &mut Vec<(Card, u32)>,
    by_name: &mut Vec<DeckEntry>,
)
    ensures
        match found {
            Some(c) => final(cards)@ == old(cards)@.push((c, entry.quantity)) && final(by_name)@
                == old(by_name)@,
            None => final(cards)@ == old(cards)@ && final(by_name)@ == old(by_name)@.push(entry),
        },
{
    match found {
        Some(c) => {
            let q = entry.quantity;
            cards.push((c, q));
        },
        None => {
            by_name.push(entry);
        },
    }
}

/// After a fuzzy lookup by name: a card found goes to the cards with the
/// entry's quantity; when none is found the entry is skipped.
pub fn after_fuzzy_lookup(quantity: u32, found: Option<Card>, cards: &mut Vec<(Card, u32)>)
    ensures
        final(cards)@ == match found {
            Some(c) => old(cards)@.push((c, quantity)),
            None => old(cards)@,
        },
{
    if let Some(c) = found {
        cards.push((c, quantity));
    }
}

proof fn lemma_last_with_name(data: Seq<Card>, key: Seq<char>)
    ensures
        last_with_name(data, key) is Some <==> exists|j: int|
            0 <= j < data.len() && lowercase((#[trigger] data[j]).name@) == key,
        last_with_name(data, key) matches Some(c) ==> exists|j: int|
            0 <= j < data.len() && #[trigger] data[j] == c && lowercase(c.name@) == key && forall|
                m: int,
            |
                j < m < data.len() ==> lowercase((#[trigger] data[m]).name@) != key,
    decreases data.len(),
{
    if data.len() > 0 {
        let init = data.drop_last();
        lemma_last_with_name(init, key);
        assert forall|j: int| 0 <= j < init.len() implies init[j] == data[j] by {}
        let n = data.len() - 1;
        assert(data[n] == data.last());
        if lowercase(data.last().name@) != key {
            if exists|j: int| 0 <= j < data.len() && lowercase((#[trigger] data[j]).name@) == key {
                let j = choose|j: int| 0 <= j < data.len() && lowercase((#[trigger] data[j]).name@) == key;
                assert(init[j] == data[j]);
            }
            if last_with_name(data, key) is Some {
                let c = last_with_name(data, key)->Some_0;
                let j = choose|j: int|
                    0 <= j < init.len() && #[trigger] init[j] == c && lowercase(c.name@) == key && forall|m: int|
                        j < m < init.len() ==> lowercase((#[trigger] init[m]).name@) != key;
                assert(data[j] == c);
                assert forall|m: int| j < m < data.len() implies lowercase((#[trigger] data[m]).name@) != key by {
                    if m < n {
                        assert(init[m] == data[m]);
                    }
                }
            }
        }
    }
}

/// A batch lookup matches names through their lowercase forms only: the
/// name at `k` gets a card exactly when some card of the reply has its
/// lowercase name and no earlier name of the batch has that lowercase
/// form; the card given is then the last such card of the reply.
pub proof fn lemma_batch_case_insensitive(names: Seq<String>, data: Seq<Card>, k: int)
    requires
        0 <= k < names.len(),
    ensures
        batch_answer(names, data, k) is Some <==> (exists|j: int|
            0 <= j < data.len() && lowercase((#[trigger] data[j]).name@) == lowercase(names[k]@))
            && !(exists|i: int|
            0 <= i < k && lowercase((#[trigger] names[i])@) == lowercase(names[k]@)),
        batch_answer(names, data, k) matches Some(c) ==> exists|j: int|
            0 <= j < data.len() && #[trigger] data[j] == c && lowercase(c.name@) == lowercase(
                names[k]@,
            ) && forall|m: int|
                j < m < data.len() ==> lowercase((#[trigger] data[m]).name@) != lowercase(
                    names[k]@,
                ),
{
    lemma_last_with_name(data, lowercase(names[k]@));
}

} // verus!
