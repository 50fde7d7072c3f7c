//! MTG Arena's log: finding the log file, locating the deck lists in it,
//! and gathering the cards of all decks.
use vstd::prelude::*;
use std::collections::HashMap;
use vstd::utf8::encode_utf8;

use crate::text::{
    append_chars, chars_of, copy_range, lines, matches_at, matches_at_exec, split_lines,
    starts_with, starts_with_exec, string_of, views,
};
use crate::urls::{joined_path, path_join};

verus! {

broadcast use vstd::std_specs::hash::group_hash_axioms;

// ------------------------------------------------------------------
// The log file
// ------------------------------------------------------------------

/// Which log file to read.
#[derive(PartialEq, Eq, Structural, Clone, Copy, Debug)]
pub enum LogChoice {
    /// `Player.log`, the log of the current session.
    Current,
    /// `Player-prev.log`, the log of the previous session.
    Previous,
    /// Neither log has anything.
    Missing,
}

/// The current log is used once it holds more than 100 kB, else the
/// previous one if it holds anything, else the current one if it holds
/// anything (sizes in bytes, 0 for a missing file).
pub fn choose_log_file(current_size: u64, prev_size: u64) -> (c: LogChoice)
    ensures
        c == if current_size > 100_000 {
            LogChoice::Current
        } else if prev_size > 0 {
            LogChoice::Previous
        } else if current_size > 0 {
            LogChoice::Current
        } else {
            LogChoice::Missing
        },
{
    if current_size > 100_000 {
        LogChoice::Current
    } else if prev_size > 0 {
        LogChoice::Previous
    } else if current_size > 0 {
        LogChoice::Current
    } else {
        LogChoice::Missing
    }
}

/// A path beginning with `~/` names a place under the home directory, when
/// there is one; any other path is kept.
pub open spec fn expand_log_path_spec(path: Seq<char>, home: Option<Seq<char>>) -> Seq<char> {
    if starts_with(path, seq!['~', '/']) && home is Some {
        joined_path(home.unwrap(), path.skip(2))
    } else {
        path
    }
}

/// `path` with a leading `~/` replaced by the home directory `home`.
pub fn expand_log_path(path: &str, home: Option<&str>) -> (r: String)
    ensures
        r@ == expand_log_path_spec(
            path@,
            match home {
                Some(h) => Some(h@),
                None => None,
            },
        ),
{
    let p = chars_of(path);
    let tilde = vec!['~', '/'];
    assert(tilde@ =~= seq!['~', '/']);
    if starts_with_exec(&p, &tilde) {
        match home {
            Some(h) => {
                let rest = copy_range(&p, 2, p.len());
                proof {
                    assert(rest@ =~= path@.skip(2));
                }
                return path_join(h, string_of(&rest).as_str());
            },
            None => {},
        }
    }
    string_of(&p)
}

// ------------------------------------------------------------------
// Finding text
// ------------------------------------------------------------------

/// The positions of the non-overlapping occurrences of `needle` in
/// `haystack` at or after `i`, found from the left.
pub open spec fn occurrences_from(haystack: Seq<char>, needle: Seq<char>, i: int) -> Seq<int>
    decreases haystack.len() + 1 - i,
{
    if needle.len() == 0 || i < 0 || i + needle.len() > haystack.len() {
        Seq::empty()
    } else if matches_at(haystack, needle, i) {
        seq![i] + occurrences_from(haystack, needle, i + needle.len())
    } else {
        occurrences_from(haystack, needle, i + 1)
    }
}

fn find_all_chars(h: &Vec<char>, n: &Vec<char>) -> (r: Vec<usize>)
    requires
        n.len() > 0,
    ensures
        r@.map_values(|k: usize| k as int) == occurrences_from(h@, n@, 0),
{
    let mut r: Vec<usize> = Vec::new();
    let mut i: usize = 0;
    while i <= h.len() && n.len() <= h.len() - i
        invariant
            n.len() > 0,
            r@.map_values(|k: usize| k as int) + occurrences_from(h@, n@, i as int)
                == occurrences_from(h@, n@, 0),
        decreases h.len() + 1 - i,
    {
        if matches_at_exec(h, n, i) {
            let ghost before = r@.map_values(|k: usize| k as int);
            r.push(i);
            proof {
                assert(r@.map_values(|k: usize| k as int) =~= before.push(i as int));
                assert(before.push(i as int) + occurrences_from(h@, n@, i + n.len()) =~= before + (
                seq![i as int] + occurrences_from(h@, n@, i + n.len())));
            }
            i += n.len();
        } else {
            i += 1;
        }
    }
    proof {
        assert(occurrences_from(h@, n@, i as int) =~= Seq::<int>::empty());
        assert(r@.map_values(|k: usize| k as int) + Seq::<int>::empty() =~= r@.map_values(
            |k: usize| k as int,
        ));
    }
    r
}

/// The byte offsets of the non-overlapping occurrences of `needle` in
/// `haystack` at or after offset `i`, found from the left.
pub open spec fn byte_occurrences_from(haystack: Seq<u8>, needle: Seq<u8>, i: int) -> Seq<int>
    decreases haystack.len() + 1 - i,
{
    if needle.len() == 0 || i < 0 || i + needle.len() > haystack.len() {
        Seq::empty()
    } else if haystack.subrange(i, i + needle.len()) == needle {
        seq![i] + byte_occurrences_from(haystack, needle, i + needle.len())
    } else {
        byte_occurrences_from(haystack, needle, i + 1)
    }
}

fn bytes_match_at(h: &[u8], n: &[u8], i: usize) -> (b: bool)
    requires
        i + n@.len() <= h@.len(),
    ensures
        b == (h@.subrange(i as int, i + n@.len()) == n@),
{
    let hl = h.len();
    let mut k: usize = 0;
    while k < n.len()
        invariant
            hl == h@.len(),
            i + n@.len() <= h@.len(),
            k <= n@.len(),
            forall|j: int| 0 <= j < k ==> h@[i + j] == n@[j],
        decreases n@.len() - k,
    {
        if h[i + k] != n[k] {
            assert(h@.subrange(i as int, i + n@.len())[k as int] != n@[k as int]);
            return false;
        }
        k += 1;
    }
    assert(h@.subrange(i as int, i + n@.len()) =~= n@);
    true
}

/// The byte offsets of the non-overlapping occurrences of `needle` in
/// `haystack` (as `str::match_indices` gives them), from the left: offsets
/// into the UTF-8 text, as slicing the haystack takes them.
pub fn find_all_occurrences(haystack: &str, needle: &str) -> (r: Vec<usize>)
    requires
        needle@.len() > 0,
    ensures
        r@.map_values(|k: usize| k as int) == byte_occurrences_from(
            encode_utf8(haystack@),
            encode_utf8(needle@),
            0,
        ),
{
    let h = haystack.as_bytes();
    let n = needle.as_bytes();
    proof {
        assert(n@.len() > 0);
    }
    let mut r: Vec<usize> = Vec::new();
    let mut i: usize = 0;
    while i <= h.len() && n.len() <= h.len() - i
        invariant
            n@.len() > 0,
            h@ == encode_utf8(haystack@),
            n@ == encode_utf8(needle@),
            r@.map_values(|k: usize| k as int) + byte_occurrences_from(h@, n@, i as int)
                == byte_occurrences_from(h@, n@, 0),
        decreases h@.len() + 1 - i,
    {
        if bytes_match_at(h, n, i) {
            let ghost before = r@.map_values(|k: usize| k as int);
            r.push(i);
            proof {
                assert(r@.map_values(|k: usize| k as int) =~= before.push(i as int));
                assert(before.push(i as int) + byte_occurrences_from(h@, n@, i + n@.len()) =~= before
                    + (seq![i as int] + byte_occurrences_from(h@, n@, i + n@.len())));
            }
            i += n.len();
        } else {
            i += 1;
        }
    }
    proof {
        assert(byte_occurrences_from(h@, n@, i as int) =~= Seq::<int>::empty());
        assert(r@.map_values(|k: usize| k as int) + Seq::<int>::empty() =~= r@.map_values(
            |k: usize| k as int,
        ));
    }
    r
}

// ------------------------------------------------------------------
// Deck arrays in the log
// ------------------------------------------------------------------

/// Scanning from index `i` with `depth` brackets open: the index just after
/// the `]` that closes the first `[`, if the text has one.
pub open spec fn bracket_scan(s: Seq<char>, i: int, depth: int) -> Option<int>
    decreases s.len() - i,
{
    if i < 0 || i >= s.len() {
        None
    } else if s[i] == '[' {
        bracket_scan(s, i + 1, depth + 1)
    } else if s[i] == ']' {
        if depth - 1 == 0 {
            Some(i + 1)
        } else {
            bracket_scan(s, i + 1, depth - 1)
        }
    } else {
        bracket_scan(s, i + 1, depth)
    }
}

/// The text `"MainDeck":[` that opens a deck array.
pub open spec fn main_deck_key() -> Seq<char> {
    "\"MainDeck\":["@
}

/// The deck arrays of one line: for each occurrence of `"MainDeck":[`, the
/// text from its `[` to the matching `]`, when there is one.
pub open spec fn arrays_at(line: Seq<char>, starts: Seq<int>) -> Seq<Seq<char>>
    decreases starts.len(),
{
    if starts.len() == 0 {
        Seq::empty()
    } else {
        let open = starts.last() + 11;
        let rest = arrays_at(line, starts.drop_last());
        match bracket_scan(line, open, 0) {
            Some(e) => rest.push(line.subrange(open, e)),
            None => rest,
        }
    }
}

pub open spec fn line_arrays(line: Seq<char>) -> Seq<Seq<char>> {
    arrays_at(line, occurrences_from(line, main_deck_key(), 0))
}

/// The deck arrays of the lines, in order.
pub open spec fn lines_arrays(ls: Seq<Seq<char>>) -> Seq<Seq<char>>
    decreases ls.len(),
{
    if ls.len() == 0 {
        Seq::empty()
    } else {
        lines_arrays(ls.drop_last()) + line_arrays(ls.last())
    }
}

/// The deck arrays of a log: in each line, the JSON array after every
/// `"MainDeck":`, from its `[` to the matching `]`.
pub open spec fn log_arrays(log: Seq<char>) -> Seq<Seq<char>> {
    lines_arrays(lines(log))
}

/// The end (just after the matching `]`) of the bracketed text that starts
/// with the `[` at `open`.
fn bracket_end(s: &Vec<char>, open: usize) -> (r: Option<usize>)
    requires
        open < s.len(),
        s@[open as int] == '[',
    ensures
        match (r, bracket_scan(s@, open as int, 0)) {
            (Some(a), Some(b)) => a == b && open < a <= s.len(),
            (None, None) => true,
            _ => false,
        },
{
    let mut depth: usize = 0;
    let mut i = open;
    while i < s.len()
        invariant
            open < s.len(),
            s@[open as int] == '[',
            open <= i <= s.len(),
            depth <= i - open,
            bracket_scan(s@, open as int, 0) == bracket_scan(s@, i as int, depth as int),
            i > open ==> depth > 0,
        decreases s.len() - i,
    {
        let c = s[i];
        if c == '[' {
            depth += 1;
        } else if c == ']' {
            if depth == 1 {
                return Some(i + 1);
            }
            depth -= 1;
        }
        i += 1;
    }
    None
}

proof fn lemma_occurrences_match(h: Seq<char>, n: Seq<char>, i: int)
    ensures
        forall|k: int|
            0 <= k < occurrences_from(h, n, i).len() ==> matches_at(
                h,
                n,
                #[trigger] occurrences_from(h, n, i)[k],
            ),
    decreases h.len() + 1 - i,
{
    if n.len() == 0 || i < 0 || i + n.len() > h.len() {
    } else if matches_at(h, n, i) {
        lemma_occurrences_match(h, n, i + n.len());
        let o = occurrences_from(h, n, i);
        let rest = occurrences_from(h, n, i + n.len());
        assert forall|k: int| 0 <= k < o.len() implies matches_at(h, n, #[trigger] o[k]) by {
            if k > 0 {
                assert(o[k] == rest[k - 1]);
            }
        }
    } else {
        lemma_occurrences_match(h, n, i + 1);
        assert(occurrences_from(h, n, i) == occurrences_from(h, n, i + 1));
    }
}

/// The deck arrays of one line.
fn arrays_of_line(line: &Vec<char>, key: &Vec<char>, out: &mut Vec<String>)
    requires
        key@ == main_deck_key(),
        key@.len() == 12,
        key@[11] == '[',
    ensures
        views_of_strings(final(out)@) == views_of_strings(old(out)@) + line_arrays(line@),
{
    let starts = find_all_chars(line, key);
    let ghost st = starts@.map_values(|k: usize| k as int);
    proof {
        lemma_occurrences_match(line@, key@, 0);
        assert(st.take(0) =~= Seq::<int>::empty());
        assert(views_of_strings(out@) + arrays_at(line@, st.take(0)) =~= views_of_strings(out@));
    }
    let ghost before = views_of_strings(out@);
    let mut k: usize = 0;
    while k < starts.len()
        invariant
            key@ == main_deck_key(),
            key@.len() == 12,
            key@[11] == '[',
            st == starts@.map_values(|k: usize| k as int),
            st == occurrences_from(line@, key@, 0),
            forall|j: int| 0 <= j < st.len() ==> matches_at(line@, key@, #[trigger] st[j]),
            k <= starts.len(),
            views_of_strings(out@) == before + arrays_at(line@, st.take(k as int)),
        decreases starts.len() - k,
    {
        let start = starts[k];
        proof {
            assert(st[k as int] == start as int);
            assert(matches_at(line@, key@, start as int));
            assert(line@.subrange(start as int, start + 12)[11] == key@[11]);
            let t = st.take(k + 1);
            assert(t.drop_last() =~= st.take(k as int));
            assert(t.last() == start as int);
            assert(start + 12 <= line@.len());
            assert(line@.len() == line.len());
        }
        let open = start + 11;
        let ghost prev = views_of_strings(out@);
        match bracket_end(line, open) {
            Some(e) => {
                let text = copy_range(line, open, e);
                out.push(string_of(&text));
                proof {
                    assert(views_of_strings(out@) =~= prev.push(text@));
                }
            },
            None => {},
        }
        k += 1;
    }
    proof {
        assert(st.take(starts.len() as int) =~= st);
    }
}

/// The texts of a sequence of strings.
pub open spec fn views_of_strings(v: Seq<String>) -> Seq<Seq<char>> {
    v.map_values(|s: String| s@)
}

/// The deck arrays in an MTG Arena log: in each line, the JSON array after
/// every `"MainDeck":`, from its `[` to the matching `]`, in order. Arrays
/// without a matching `]` are left out.
pub fn deck_array_texts(log: &str) -> (r: Vec<String>)
    ensures
        views_of_strings(r@) == log_arrays(log@),
{
    let chars = chars_of(log);
    let ls = split_lines(&chars);
    let key = chars_of("\"MainDeck\":[");
    proof {
        reveal_strlit("\"MainDeck\":[");
        assert(key@.len() == 12);
        assert(key@[11] == '[');
        assert(views(ls@).take(0) =~= Seq::<Seq<char>>::empty());
    }
    let mut out: Vec<String> = Vec::new();
    let mut i: usize = 0;
    proof {
        assert(views_of_strings(out@) =~= Seq::<Seq<char>>::empty());
    }
    while i < ls.len()
        invariant
            key@ == main_deck_key(),
            key@.len() == 12,
            key@[11] == '[',
            views(ls@) == lines(log@),
            i <= ls.len(),
            views_of_strings(out@) == lines_arrays(views(ls@).take(i as int)),
        decreases ls.len() - i,
    {
        proof {
            let t = views(ls@).take(i + 1);
            assert(t.drop_last() =~= views(ls@).take(i as int));
            assert(t.last() == ls@[i as int]@);
        }
        arrays_of_line(&ls[i], &key, &mut out);
        i += 1;
    }
    proof {
        assert(views(ls@).take(ls.len() as int) =~= views(ls@));
    }
    out
}

// ------------------------------------------------------------------
// The decks of a log
// ------------------------------------------------------------------

/// The views of a sequence of decks.
pub open spec fn decks_view(ds: Seq<Vec<(u64, u32)>>) -> Seq<Seq<(u64, u32)>> {
    ds.map_values(|d: Vec<(u64, u32)>| d@)
}

/// The arrays that were read as decks and are not empty, in order.
pub open spec fn kept_decks(parsed: Seq<Option<Vec<(u64, u32)>>>) -> Seq<Seq<(u64, u32)>>
    decreases parsed.len(),
{
    if parsed.len() == 0 {
        Seq::empty()
    } else {
        let prev = kept_decks(parsed.drop_last());
        match parsed.last() {
            Some(d) => if d@.len() > 0 {
                prev.push(d@)
            } else {
                prev
            },
            None => prev,
        }
    }
}

/// The decks of exactly `size` cards, in order.
pub open spec fn of_size(ds: Seq<Seq<(u64, u32)>>, size: nat) -> Seq<Seq<(u64, u32)>>
    decreases ds.len(),
{
    if ds.len() == 0 {
        Seq::empty()
    } else {
        let prev = of_size(ds.drop_last(), size);
        if ds.last().len() == size {
            prev.push(ds.last())
        } else {
            prev
        }
    }
}

/// The decks with between `lo` and `hi` cards, the larger sizes first,
/// each size in order.
pub open spec fn sizes_down(ds: Seq<Seq<(u64, u32)>>, hi: nat, lo: nat) -> Seq<Seq<(u64, u32)>>
    decreases hi + 1 - lo,
{
    if lo > hi {
        Seq::empty()
    } else {
        sizes_down(ds, hi, lo + 1) + of_size(ds, lo)
    }
}

/// The size of the largest deck.
pub open spec fn max_size(ds: Seq<Seq<(u64, u32)>>) -> nat
    decreases ds.len(),
{
    if ds.len() == 0 {
        0
    } else {
        let m = max_size(ds.drop_last());
        if ds.last().len() > m {
            ds.last().len()
        } else {
            m
        }
    }
}

/// The decks sorted by size, largest first, decks of one size keeping
/// their order (a stable sort).
pub open spec fn by_size_desc(ds: Seq<Seq<(u64, u32)>>) -> Seq<Seq<(u64, u32)>> {
    sizes_down(ds, max_size(ds), 0)
}

/// `s` with each run of equal neighbours reduced to its first element.
pub open spec fn dedup_adjacent(s: Seq<Seq<(u64, u32)>>) -> Seq<Seq<(u64, u32)>>
    decreases s.len(),
{
    if s.len() == 0 {
        s
    } else {
        let p = dedup_adjacent(s.drop_last());
        if p.len() > 0 && p.last() == s.last() {
            p
        } else {
            p.push(s.last())
        }
    }
}

/// The decks of a log from the arrays read: the non-empty ones, largest
/// first, repeats of the same deck next to each other kept once.
pub open spec fn finalize_spec(parsed: Seq<Option<Vec<(u64, u32)>>>) -> Seq<Seq<(u64, u32)>> {
    dedup_adjacent(by_size_desc(kept_decks(parsed)))
}

fn copy_deck(d: &Vec<(u64, u32)>) -> (r: Vec<(u64, u32)>)
    ensures
        r@ == d@,
{
    let mut r: Vec<(u64, u32)> = Vec::new();
    let mut i: usize = 0;
    while i < d.len()
        invariant
            i <= d.len(),
            r@ == d@.take(i as int),
        decreases d.len() - i,
    {
        r.push(d[i]);
        i += 1;
        assert(r@ =~= d@.take(i as int));
    }
    assert(d@.take(d.len() as int) =~= d@);
    r
}

fn same_deck(a: &Vec<(u64, u32)>, b: &Vec<(u64, u32)>) -> (r: bool)
    ensures
        r == (a@ == b@),
{
    if a.len() != b.len() {
        return false;
    }
    let mut i: usize = 0;
    while i < a.len()
        invariant
            a.len() == b.len(),
            i <= a.len(),
            forall|k: int| 0 <= k < i ==> a@[k] == b@[k],
        decreases a.len() - i,
    {
        if a[i].0 != b[i].0 || a[i].1 != b[i].1 {
            return false;
        }
        i += 1;
    }
    assert(a@ =~= b@);
    true
}

proof fn lemma_max_size(ds: Seq<Seq<(u64, u32)>>)
    ensures
        forall|k: int| 0 <= k < ds.len() ==> #[trigger] ds[k].len() <= max_size(ds),
    decreases ds.len(),
{
    if ds.len() > 0 {
        lemma_max_size(ds.drop_last());
        assert forall|k: int| 0 <= k < ds.len() implies #[trigger] ds[k].len() <= max_size(ds) by {
            if k < ds.len() - 1 {
                assert(ds[k] == ds.drop_last()[k]);
            }
        }
    }
}

proof fn lemma_of_size_empty(ds: Seq<Seq<(u64, u32)>>, size: nat)
    requires
        forall|k: int| 0 <= k < ds.len() ==> #[trigger] ds[k].len() < size,
    ensures
        of_size(ds, size) == Seq::<Seq<(u64, u32)>>::empty(),
    decreases ds.len(),
{
    if ds.len() > 0 {
        assert forall|k: int| 0 <= k < ds.drop_last().len() implies #[trigger] ds.drop_last()[k].len()
            < size by {
            assert(ds.drop_last()[k] == ds[k]);
        }
        lemma_of_size_empty(ds.drop_last(), size);
        assert(ds[ds.len() - 1].len() < size);
    }
}

/// Sorts the decks by size, largest first, stably; keeps the non-empty ones.
fn sort_by_size(kept: &Vec<Vec<(u64, u32)>>) -> (r: Vec<Vec<(u64, u32)>>)
    ensures
        decks_view(r@) == by_size_desc(decks_view(kept@)),
{
    let ghost ds = decks_view(kept@);
    let mut m: usize = 0;
    let mut j: usize = 0;
    proof {
        assert(ds.take(0) =~= Seq::<Seq<(u64, u32)>>::empty());
    }
    while j < kept.len()
        invariant
            ds == decks_view(kept@),
            j <= kept.len(),
            m == max_size(ds.take(j as int)),
        decreases kept.len() - j,
    {
        proof {
            let t = ds.take(j + 1);
            assert(t.drop_last() =~= ds.take(j as int));
            assert(t.last() == kept@[j as int]@);
        }
        if kept[j].len() > m {
            m = kept[j].len();
        }
        j += 1;
    }
    proof {
        assert(ds.take(kept.len() as int) =~= ds);
    }
    let mut r: Vec<Vec<(u64, u32)>> = Vec::new();
    // `size` counts down from `m + 1`; the decks of size `size - 1` come next.
    let mut size: u128 = m as u128 + 1;
    proof {
        lemma_max_size(ds);
        lemma_of_size_empty(ds, (m + 1) as nat);
        assert(decks_view(r@) =~= sizes_down(ds, m as nat, (m + 1) as nat));
    }
    while size > 0
        invariant
            ds == decks_view(kept@),
            m == max_size(ds),
            size <= m + 1,
            decks_view(r@) == sizes_down(ds, m as nat, size as nat),
        decreases size,
    {
        let target = (size - 1) as usize;
        let ghost before = decks_view(r@);
        let mut k: usize = 0;
        proof {
            assert(ds.take(0) =~= Seq::<Seq<(u64, u32)>>::empty());
            assert(decks_view(r@) =~= before + of_size(ds.take(0), target as nat));
        }
        while k < kept.len()
            invariant
                ds == decks_view(kept@),
                k <= kept.len(),
                decks_view(r@) == before + of_size(ds.take(k as int), target as nat),
            decreases kept.len() - k,
        {
            proof {
                let t = ds.take(k + 1);
                assert(t.drop_last() =~= ds.take(k as int));
                assert(t.last() == kept@[k as int]@);
            }
            if kept[k].len() == target {
                let ghost prev = decks_view(r@);
                let c = copy_deck(&kept[k]);
                r.push(c);
                proof {
                    assert(decks_view(r@) =~= prev.push(kept@[k as int]@));
                }
            }
            k += 1;
        }
        proof {
            assert(ds.take(kept.len() as int) =~= ds);
        }
        size = target as u128;
    }
    r
}

/// The decks of a log, from its arrays as read (`None` for an array that
/// could not be read): the non-empty ones, largest first (stably), with
/// neighbouring repeats of one deck kept once.
pub fn finalize_decks(parsed: Vec<Option<Vec<(u64, u32)>>>) -> (r: Vec<Vec<(u64, u32)>>)
    ensures
        decks_view(r@) == finalize_spec(parsed@),
{
    let ghost ps = parsed@;
    let mut kept: Vec<Vec<(u64, u32)>> = Vec::new();
    proof {
        assert(ps.take(0) =~= Seq::<Option<Vec<(u64, u32)>>>::empty());
        assert(decks_view(kept@) =~= Seq::<Seq<(u64, u32)>>::empty());
    }
    for p in it: parsed.into_iter()
        invariant
            it.seq() == ps,
            decks_view(kept@) == kept_decks(ps.take(it.index() as int)),
    {
        let ghost i = it.index() as int;
        proof {
            let t = ps.take(i + 1);
            assert(t.drop_last() =~= ps.take(i));
            assert(t.last() == p);
        }
        match p {
            Some(d) => {
                if d.len() > 0 {
                    let ghost prev = decks_view(kept@);
                    let ghost dv = d@;
                    kept.push(d);
                    proof {
                        assert(decks_view(kept@) =~= prev.push(dv));
                    }
                }
            },
            None => {},
        }
    }
    proof {
        assert(ps.take(ps.len() as int) =~= ps);
    }
    let sorted = sort_by_size(&kept);
    let ghost ss = decks_view(sorted@);
    let mut out: Vec<Vec<(u64, u32)>> = Vec::new();
    let mut i: usize = 0;
    proof {
        assert(ss.take(0) =~= Seq::<Seq<(u64, u32)>>::empty());
        assert(decks_view(out@) =~= Seq::<Seq<(u64, u32)>>::empty());
    }
    while i < sorted.len()
        invariant
            ss == decks_view(sorted@),
            i <= sorted.len(),
            decks_view(out@) == dedup_adjacent(ss.take(i as int)),
        decreases sorted.len() - i,
    {
        proof {
            let t = ss.take(i + 1);
            assert(t.drop_last() =~= ss.take(i as int));
            assert(t.last() == sorted@[i as int]@);
        }
        let repeat = out.len() > 0 && same_deck(&out[out.len() - 1], &sorted[i]);
        if !repeat {
            let ghost prev = decks_view(out@);
            out.push(copy_deck(&sorted[i]));
            proof {
                assert(decks_view(out@) =~= prev.push(sorted@[i as int]@));
            }
        }
        i += 1;
    }
    proof {
        assert(ss.take(sorted.len() as int) =~= ss);
    }
    out
}

// ------------------------------------------------------------------
// The cards of all decks
// ------------------------------------------------------------------

/// Adds a deck's cards to a map from card id to quantity, keeping for each
/// id the largest quantity seen.
pub open spec fn max_merge(m: Map<u64, u32>, d: Seq<(u64, u32)>) -> Map<u64, u32>
    decreases d.len(),
{
    if d.len() == 0 {
        m
    } else {
        let p = max_merge(m, d.drop_last());
        let (id, q) = d.last();
        p.insert(
            id,
            if p.contains_key(id) && p[id] > q {
                p[id]
            } else {
                q
            },
        )
    }
}

/// Every card id of the decks with the largest quantity any deck has of it.
pub open spec fn all_card_ids(ds: Seq<Seq<(u64, u32)>>) -> Map<u64, u32>
    decreases ds.len(),
{
    if ds.len() == 0 {
        Map::empty()
    } else {
        max_merge(all_card_ids(ds.drop_last()), ds.last())
    }
}

/// Every card id in the decks, with the largest quantity any deck holds of
/// it (the copies needed to build any one of them).
pub fn extract_all_card_ids(decks: &Vec<Vec<(u64, u32)>>) -> (r: HashMap<u64, u32>)
    ensures
        r@ == all_card_ids(decks_view(decks@)),
{
    let ghost ds = decks_view(decks@);
    let mut m: HashMap<u64, u32> = HashMap::new();
    let mut i: usize = 0;
    proof {
        assert(ds.take(0) =~= Seq::<Seq<(u64, u32)>>::empty());
        assert(m@ =~= Map::<u64, u32>::empty());
    }
    while i < decks.len()
        invariant
            ds == decks_view(decks@),
            i <= decks.len(),
            m@ == all_card_ids(ds.take(i as int)),
        decreases decks.len() - i,
    {
        let ghost base = m@;
        proof {
            let t = ds.take(i + 1);
            assert(t.drop_last() =~= ds.take(i as int));
            assert(t.last() == decks@[i as int]@);
        }
        let deck = &decks[i];
        let mut k: usize = 0;
        proof {
            assert(deck@.take(0) =~= Seq::<(u64, u32)>::empty());
        }
        while k < deck.len()
            invariant
                k <= deck.len(),
                m@ == max_merge(base, deck@.take(k as int)),
            decreases deck.len() - k,
        {
            proof {
                let t = deck@.take(k + 1);
                assert(t.drop_last() =~= deck@.take(k as int));
                assert(t.last() == deck@[k as int]);
            }
            let (id, q) = deck[k];
            let v = match m.get(&id) {
                Some(old) => if *old > q {
                    *old
                } else {
                    q
                },
                None => q,
            };
            m.insert(id, v);
            k += 1;
        }
        proof {
            assert(deck@.take(deck.len() as int) =~= deck@);
        }
        i += 1;
    }
    proof {
        assert(ds.take(decks.len() as int) =~= ds);
    }
    m
}

// ------------------------------------------------------------------
// Laws of the log's decks
// ------------------------------------------------------------------

proof fn lemma_kept_nonempty(ps: Seq<Option<Vec<(u64, u32)>>>)
    ensures
        forall|k: int| 0 <= k < kept_decks(ps).len() ==> #[trigger] kept_decks(ps)[k].len() > 0,
    decreases ps.len(),
{
    if ps.len() > 0 {
        lemma_kept_nonempty(ps.drop_last());
        let prev = kept_decks(ps.drop_last());
        let r = kept_decks(ps);
        assert forall|k: int| 0 <= k < r.len() implies #[trigger] r[k].len() > 0 by {
            if k < prev.len() {
                assert(r[k] == prev[k]);
            }
        }
    }
}

proof fn lemma_of_size_facts(ds: Seq<Seq<(u64, u32)>>, size: nat)
    ensures
        forall|k: int| 0 <= k < of_size(ds, size).len() ==> #[trigger] of_size(ds, size)[k].len() == size,
        forall|k: int|
            0 <= k < of_size(ds, size).len() ==> exists|j: int| 0 <= j < ds.len() && ds[j] == #[trigger] of_size(ds, size)[k],
    decreases ds.len(),
{
    if ds.len() > 0 {
        lemma_of_size_facts(ds.drop_last(), size);
        let prev = of_size(ds.drop_last(), size);
        let o = of_size(ds, size);
        assert forall|k: int| 0 <= k < o.len() implies exists|j: int| 0 <= j < ds.len() && ds[j] == #[trigger] o[k] by {
            if k < prev.len() {
                let j = choose|j: int| 0 <= j < ds.drop_last().len() && ds.drop_last()[j] == prev[k];
                assert(ds[j] == ds.drop_last()[j]);
            } else {
                assert(ds[ds.len() - 1] == o[k]);
            }
        }
    }
}

proof fn lemma_sizes_down_facts(ds: Seq<Seq<(u64, u32)>>, hi: nat, lo: nat)
    ensures
        forall|k: int|
            0 <= k < sizes_down(ds, hi, lo).len() ==> lo <= #[trigger] sizes_down(ds, hi, lo)[k].len() <= hi,
        forall|i: int, j: int|
            0 <= i < j < sizes_down(ds, hi, lo).len() ==> sizes_down(ds, hi, lo)[i].len()
                >= sizes_down(ds, hi, lo)[j].len(),
        forall|k: int|
            0 <= k < sizes_down(ds, hi, lo).len() ==> exists|j: int| 0 <= j < ds.len() && ds[j] == #[trigger] sizes_down(ds, hi, lo)[k],
    decreases hi + 1 - lo,
{
    if lo <= hi {
        lemma_sizes_down_facts(ds, hi, lo + 1);
        lemma_of_size_facts(ds, lo);
        let a = sizes_down(ds, hi, lo + 1);
        let b = of_size(ds, lo);
        let g = sizes_down(ds, hi, lo);
        assert(g == a + b);
        assert forall|k: int| 0 <= k < g.len() implies lo <= #[trigger] g[k].len() <= hi by {
            if k < a.len() {
                assert(g[k] == a[k]);
            } else {
                assert(g[k] == b[k - a.len()]);
            }
        }
        assert forall|i: int, j: int| 0 <= i < j < g.len() implies g[i].len() >= g[j].len() by {
            if j < a.len() {
                assert(g[i] == a[i]);
                assert(g[j] == a[j]);
            } else if i >= a.len() {
                assert(g[i] == b[i - a.len()]);
                assert(g[j] == b[j - a.len()]);
            } else {
                assert(g[i] == a[i]);
                assert(g[j] == b[j - a.len()]);
            }
        }
        assert forall|k: int| 0 <= k < g.len() implies exists|j: int| 0 <= j < ds.len() && ds[j] == #[trigger] g[k] by {
            if k < a.len() {
                assert(g[k] == a[k]);
            } else {
                assert(g[k] == b[k - a.len()]);
            }
        }
    }
}

proof fn lemma_dedup_facts(s: Seq<Seq<(u64, u32)>>)
    requires
        forall|i: int, j: int| 0 <= i < j < s.len() ==> s[i].len() >= s[j].len(),
        forall|k: int| 0 <= k < s.len() ==> #[trigger] s[k].len() > 0,
    ensures
        forall|i: int, j: int| 0 <= i < j < dedup_adjacent(s).len() ==> dedup_adjacent(s)[i].len()
            >= dedup_adjacent(s)[j].len(),
        forall|k: int| 0 <= k < dedup_adjacent(s).len() ==> #[trigger] dedup_adjacent(s)[k].len() > 0,
        forall|k: int| 0 <= k < dedup_adjacent(s).len() - 1 ==> #[trigger] dedup_adjacent(s)[k] != dedup_adjacent(s)[k + 1],
        s.len() > 0 ==> dedup_adjacent(s).len() > 0 && dedup_adjacent(s).last() == s.last(),
    decreases s.len(),
{
    if s.len() > 0 {
        let t = s.drop_last();
        assert forall|i: int, j: int| 0 <= i < j < t.len() implies t[i].len() >= t[j].len() by {
            assert(t[i] == s[i]);
            assert(t[j] == s[j]);
        }
        assert forall|k: int| 0 <= k < t.len() implies #[trigger] t[k].len() > 0 by {
            assert(t[k] == s[k]);
        }
        lemma_dedup_facts(t);
        let p = dedup_adjacent(t);
        let d = dedup_adjacent(s);
        if p.len() > 0 && p.last() == s.last() {
        } else {
            assert(d == p.push(s.last()));
            if p.len() > 0 {
                assert(p.last() == t.last());
                assert(t.last() == s[s.len() - 2]);
                assert(p.last().len() >= s.last().len());
            }
            assert forall|i: int, j: int| 0 <= i < j < d.len() implies d[i].len() >= d[j].len() by {
                if j < p.len() {
                    assert(d[i] == p[i]);
                    assert(d[j] == p[j]);
                } else {
                    assert(d[i] == p[i]);
                    if i < p.len() - 1 {
                        assert(p[i].len() >= p[p.len() - 1].len());
                    }
                }
            }
            assert forall|k: int| 0 <= k < d.len() - 1 implies #[trigger] d[k] != d[k + 1] by {
                if k + 1 < p.len() {
                    assert(d[k] == p[k]);
                    assert(d[k + 1] == p[k + 1]);
                }
            }
        }
    }
}

/// The array read was `d`.
pub open spec fn is_read_as(p: Option<Vec<(u64, u32)>>, d: Seq<(u64, u32)>) -> bool {
    match p {
        Some(v) => v@ == d,
        None => false,
    }
}

proof fn lemma_kept_from(ps: Seq<Option<Vec<(u64, u32)>>>)
    ensures
        forall|k: int|
            0 <= k < kept_decks(ps).len() ==> exists|j: int|
                0 <= j < ps.len() && is_read_as(ps[j], #[trigger] kept_decks(ps)[k]),
    decreases ps.len(),
{
    if ps.len() > 0 {
        let p = ps.drop_last();
        lemma_kept_from(p);
        let prev = kept_decks(p);
        let r = kept_decks(ps);
        assert forall|k: int| 0 <= k < r.len() implies exists|j: int|
            0 <= j < ps.len() && is_read_as(ps[j], #[trigger] r[k]) by {
            if k < prev.len() {
                assert(r[k] == prev[k]);
                let j = choose|j: int| 0 <= j < p.len() && is_read_as(p[j], prev[k]);
                assert(ps[j] == p[j]);
            } else {
                assert(ps[ps.len() - 1] == ps.last());
            }
        }
    }
}

proof fn lemma_dedup_from(s: Seq<Seq<(u64, u32)>>)
    ensures
        forall|k: int|
            0 <= k < dedup_adjacent(s).len() ==> exists|j: int|
                0 <= j < s.len() && s[j] == #[trigger] dedup_adjacent(s)[k],
    decreases s.len(),
{
    if s.len() > 0 {
        let t = s.drop_last();
        lemma_dedup_from(t);
        let p = dedup_adjacent(t);
        let d = dedup_adjacent(s);
        assert forall|k: int| 0 <= k < d.len() implies exists|j: int|
            0 <= j < s.len() && s[j] == #[trigger] d[k] by {
            if k < p.len() {
                assert(d[k] == p[k]);
                let j = choose|j: int| 0 <= j < t.len() && t[j] == p[k];
                assert(s[j] == t[j]);
            } else {
                assert(s[s.len() - 1] == s.last());
            }
        }
    }
}

/// The decks of a log come out non-empty, largest first, without a deck
/// repeated next to itself, and each is one of the arrays read.
pub proof fn lemma_finalize_laws(parsed: Seq<Option<Vec<(u64, u32)>>>)
    ensures
        ({
            let r = finalize_spec(parsed);
            &&& forall|k: int| 0 <= k < r.len() ==> #[trigger] r[k].len() > 0
            &&& forall|i: int, j: int| 0 <= i < j < r.len() ==> r[i].len() >= r[j].len()
            &&& forall|k: int| 0 <= k < r.len() - 1 ==> #[trigger] r[k] != r[k + 1]
            &&& forall|k: int|
                0 <= k < r.len() ==> exists|j: int|
                    0 <= j < parsed.len() && is_read_as(parsed[j], #[trigger] r[k])
        }),
{
    let ks = kept_decks(parsed);
    lemma_kept_nonempty(parsed);
    lemma_sizes_down_facts(ks, max_size(ks), 0);
    let sorted = by_size_desc(ks);
    assert forall|k: int| 0 <= k < sorted.len() implies #[trigger] sorted[k].len() > 0 by {
        let j = choose|j: int| 0 <= j < ks.len() && ks[j] == sorted[k];
        assert(ks[j].len() > 0);
    }
    lemma_dedup_facts(sorted);
    lemma_kept_from(parsed);
    lemma_dedup_from(sorted);
    let r = finalize_spec(parsed);
    assert forall|k: int| 0 <= k < r.len() implies exists|j: int|
        0 <= j < parsed.len() && is_read_as(parsed[j], #[trigger] r[k]) by {
        let a = choose|a: int| 0 <= a < sorted.len() && sorted[a] == r[k];
        let b = choose|b: int| 0 <= b < ks.len() && ks[b] == sorted[a];
        let j = choose|j: int| 0 <= j < parsed.len() && is_read_as(parsed[j], ks[b]);
    }
}

/// Every card of every deck is in the map, with at least the quantity the
/// deck has of it; every quantity in the map is one that a deck has.
pub proof fn lemma_card_ids_laws(ds: Seq<Seq<(u64, u32)>>)
    ensures
        forall|d: int, k: int|
            0 <= d < ds.len() && 0 <= k < ds[d].len() ==> all_card_ids(ds).contains_key(
                (#[trigger] ds[d][k]).0,
            ) && all_card_ids(ds)[ds[d][k].0] >= ds[d][k].1,
        forall|id: u64|
            #[trigger] all_card_ids(ds).contains_key(id) ==> exists|d: int, k: int|
                0 <= d < ds.len() && 0 <= k < ds[d].len() && ds[d][k].0 == id && ds[d][k].1
                    == all_card_ids(ds)[id],
    decreases ds.len(),
{
    if ds.len() > 0 {
        let p = ds.drop_last();
        lemma_card_ids_laws(p);
        lemma_max_merge_laws(all_card_ids(p), ds.last());
        let m = all_card_ids(ds);
        assert forall|d: int, k: int|
            0 <= d < ds.len() && 0 <= k < ds[d].len() implies m.contains_key((#[trigger] ds[d][k]).0)
            && m[ds[d][k].0] >= ds[d][k].1 by {
            if d < ds.len() - 1 {
                assert(ds[d] == p[d]);
                assert(p[d][k] == ds[d][k]);
            }
        }
        assert forall|id: u64| #[trigger] m.contains_key(id) implies exists|d: int, k: int|
            0 <= d < ds.len() && 0 <= k < ds[d].len() && ds[d][k].0 == id && ds[d][k].1 == m[id] by {
            if exists|k: int| 0 <= k < ds.last().len() && ds.last()[k].0 == id && ds.last()[k].1 == m[id] {
                let k = choose|k: int| 0 <= k < ds.last().len() && ds.last()[k].0 == id && ds.last()[k].1 == m[id];
                assert(ds[ds.len() - 1][k] == ds.last()[k]);
            } else {
                let pm = all_card_ids(p);
                assert(pm.contains_key(id) && pm[id] == m[id]);
                let (d, k) = choose|d: int, k: int| 0 <= d < p.len() && 0 <= k < p[d].len() && p[d][k].0 == id && p[d][k].1 == pm[id];
                assert(ds[d] == p[d]);
            }
        }
    }
}

proof fn lemma_max_merge_laws(m: Map<u64, u32>, d: Seq<(u64, u32)>)
    ensures
        ({
            let r = max_merge(m, d);
            &&& forall|k: int| 0 <= k < d.len() ==> r.contains_key((#[trigger] d[k]).0) && r[d[k].0] >= d[k].1
            &&& forall|id: u64| m.contains_key(id) ==> #[trigger] r.contains_key(id) && r[id] >= m[id]
            &&& forall|id: u64| #[trigger] r.contains_key(id) ==> (m.contains_key(id) && r[id] == m[id])
                || exists|k: int| 0 <= k < d.len() && d[k].0 == id && d[k].1 == r[id]
        }),
    decreases d.len(),
{
    if d.len() > 0 {
        let t = d.drop_last();
        lemma_max_merge_laws(m, t);
        let p = max_merge(m, t);
        let r = max_merge(m, d);
        let (id0, q0) = d.last();
        assert forall|k: int| 0 <= k < d.len() implies r.contains_key((#[trigger] d[k]).0) && r[d[k].0] >= d[k].1 by {
            if k < d.len() - 1 {
                assert(d[k] == t[k]);
            }
        }
        assert forall|id: u64| #[trigger] r.contains_key(id) implies (m.contains_key(id) && r[id] == m[id])
            || exists|k: int| 0 <= k < d.len() && d[k].0 == id && d[k].1 == r[id] by {
            if id == id0 {
                if p.contains_key(id0) && p[id0] > q0 {
                    if m.contains_key(id) && p[id] == m[id] {
                    } else {
                        let k = choose|k: int| 0 <= k < t.len() && t[k].0 == id && t[k].1 == p[id];
                        assert(d[k] == t[k]);
                    }
                } else {
                    assert(d[d.len() - 1].0 == id && d[d.len() - 1].1 == r[id]);
                }
            } else {
                if m.contains_key(id) && p[id] == m[id] {
                } else {
                    let k = choose|k: int| 0 <= k < t.len() && t[k].0 == id && t[k].1 == p[id];
                    assert(d[k] == t[k]);
                }
            }
        }
    }
}

} // verus!
