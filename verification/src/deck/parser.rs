//! Parsers for MTG Arena deck text and Cockatrice `.cod` deck files.
use vstd::prelude::*;

use super::models::{Deck, DeckEntry, DeckView, EntryView, entries_view};
use crate::text::{
    chars_of, copy_range, eq_ignore_ascii_case, eq_ignore_ascii_case_exec, find, find_exec,
    lines, parse_u32, parse_u32_exec, rfind_char, contains, contains_exec, starts_with,
    starts_with_exec, replace_all, replace_exec, rfind_char_exec, split_lines, string_of, trim,
    trim_chars, views, append_chars, decimal, matches_at, lemma_find_facts, lemma_decimal_digits,
    lemma_parse_decimal, trim_start, trim_end, is_ws, all_digits, is_digit,
};

verus! {

// ------------------------------------------------------------------
// Errors
// ------------------------------------------------------------------

/// Why a deck-list line was refused.
#[derive(PartialEq, Eq, Structural, Clone, Copy, Debug)]
pub enum LineError {
    /// The line has no space between a quantity and a card name.
    MissingSeparator,
    /// The text before the first space is not a `u32`.
    BadQuantity,
}

/// Why a deck list was refused.
#[derive(Debug)]
pub enum DeckError {
    /// A line of an MTG Arena list could not be read; the line is given trimmed.
    BadLine { line: String, reason: LineError },
    /// A Cockatrice `<card ...>` element has no `name` attribute.
    MissingName,
}

/// A `DeckError` as plain values.
pub enum DeckErrorView {
    BadLine { line: Seq<char>, reason: LineError },
    MissingName,
}

impl View for DeckError {
    type V = DeckErrorView;

    open spec fn view(&self) -> DeckErrorView {
        match self {
            DeckError::BadLine { line, reason } => DeckErrorView::BadLine {
                line: line@,
                reason: *reason,
            },
            DeckError::MissingName => DeckErrorView::MissingName,
        }
    }
}

impl DeckError {
    /// The message the command line shows for this error.
    pub fn message(&self) -> (s: String)
        ensures
            s@ == error_message(self@),
    {
        let mut out: Vec<char> = Vec::new();
        match self {
            DeckError::BadLine { line, reason } => {
                append_chars(&mut out, &failed_line_prefix());
                append_chars(&mut out, &chars_of(line.as_str()));
                append_chars(&mut out, &vec![':', ' ']);
                append_chars(&mut out, &line_error_text(*reason));
            },
            DeckError::MissingName => {
                append_chars(&mut out, &missing_name_text());
            },
        }
        proof {
            match self@ {
                DeckErrorView::BadLine { line, reason } => {
                    assert(out@ =~= failed_line_prefix_spec() + line + seq![':', ' ']
                        + line_error_spec(reason));
                },
                DeckErrorView::MissingName => {
                    assert(out@ =~= missing_name_spec());
                },
            }
        }
        string_of(&out)
    }
}

/// The message for an error: the line that failed and why, or the missing
/// attribute.
pub open spec fn error_message(e: DeckErrorView) -> Seq<char> {
    match e {
        DeckErrorView::BadLine { line, reason } => failed_line_prefix_spec() + line + seq![':', ' ']
            + line_error_spec(reason),
        DeckErrorView::MissingName => missing_name_spec(),
    }
}

pub open spec fn failed_line_prefix_spec() -> Seq<char> {
    seq![
        'f', 'a', 'i', 'l', 'e', 'd', ' ', 't', 'o', ' ', 'p', 'a', 'r', 's', 'e', ' ', 'l', 'i',
        'n', 'e', ':', ' '
    ]
}

fn failed_line_prefix() -> (v: Vec<char>)
    ensures
        v@ == failed_line_prefix_spec(),
{
    let v = vec![
        'f', 'a', 'i', 'l', 'e', 'd', ' ', 't', 'o', ' ', 'p', 'a', 'r', 's', 'e', ' ', 'l', 'i',
        'n', 'e', ':', ' ',
    ];
    assert(v@ =~= failed_line_prefix_spec());
    v
}

pub open spec fn line_error_spec(r: LineError) -> Seq<char> {
    match r {
        LineError::MissingSeparator => seq![
            'e', 'x', 'p', 'e', 'c', 't', 'e', 'd', ' ', '\'', 'N', ' ', 'C', 'a', 'r', 'd', 'N',
            'a', 'm', 'e', '\''
        ],
        LineError::BadQuantity => seq![
            'e', 'x', 'p', 'e', 'c', 't', 'e', 'd', ' ', 'q', 'u', 'a', 'n', 't', 'i', 't', 'y',
            ' ', 'a', 's', ' ', 'f', 'i', 'r', 's', 't', ' ', 't', 'o', 'k', 'e', 'n'
        ],
    }
}

fn line_error_text(r: LineError) -> (v: Vec<char>)
    ensures
        v@ == line_error_spec(r),
{
    match r {
        LineError::MissingSeparator => {
            let v = vec![
                'e', 'x', 'p', 'e', 'c', 't', 'e', 'd', ' ', '\'', 'N', ' ', 'C', 'a', 'r', 'd',
                'N', 'a', 'm', 'e', '\'',
            ];
            assert(v@ =~= line_error_spec(r));
            v
        },
        LineError::BadQuantity => {
            let v = vec![
                'e', 'x', 'p', 'e', 'c', 't', 'e', 'd', ' ', 'q', 'u', 'a', 'n', 't', 'i', 't',
                'y', ' ', 'a', 's', ' ', 'f', 'i', 'r', 's', 't', ' ', 't', 'o', 'k', 'e', 'n',
            ];
            assert(v@ =~= line_error_spec(r));
            v
        },
    }
}

pub open spec fn missing_name_spec() -> Seq<char> {
    seq![
        'c', 'a', 'r', 'd', ' ', 'e', 'l', 'e', 'm', 'e', 'n', 't', ' ', 'm', 'i', 's', 's', 'i',
        'n', 'g', ' ', 'n', 'a', 'm', 'e', ' ', 'a', 't', 't', 'r', 'i', 'b', 'u', 't', 'e'
    ]
}

fn missing_name_text() -> (v: Vec<char>)
    ensures
        v@ == missing_name_spec(),
{
    let v = vec![
        'c', 'a', 'r', 'd', ' ', 'e', 'l', 'e', 'm', 'e', 'n', 't', ' ', 'm', 'i', 's', 's', 'i',
        'n', 'g', ' ', 'n', 'a', 'm', 'e', ' ', 'a', 't', 't', 'r', 'i', 'b', 'u', 't', 'e',
    ];
    assert(v@ =~= missing_name_spec());
    v
}

// ------------------------------------------------------------------
// One MTG Arena line: "N Card Name (SET) 123"
// ------------------------------------------------------------------

/// The entry that the text after the quantity describes: a name, then
/// optionally `(SET)` and a collector number after the last `(`.
pub open spec fn entry_from_rest(quantity: u32, rest: Seq<char>) -> EntryView {
    match rfind_char(rest, '(') {
        None => EntryView {
            quantity,
            card_name: trim(rest),
            set_code: None,
            collector_number: None,
        },
        Some(p) => {
            let after = rest.skip(p + 1);
            match find(after, seq![')']) {
                None => EntryView {
                    quantity,
                    card_name: rest,
                    set_code: None,
                    collector_number: None,
                },
                Some(e) => {
                    let number = trim(after.skip(e + 1));
                    EntryView {
                        quantity,
                        card_name: trim(rest.take(p)),
                        set_code: Some(after.take(e)),
                        collector_number: if number.len() == 0 {
                            None
                        } else {
                            Some(number)
                        },
                    }
                },
            }
        },
    }
}

/// What a line `N Card Name (SET) 123` describes: the quantity is the text
/// before the first space, the rest is read by `entry_from_rest`.
pub open spec fn parse_line_spec(line: Seq<char>) -> Result<EntryView, LineError> {
    match find(line, seq![' ']) {
        None => Err(LineError::MissingSeparator),
        Some(i) => match parse_u32(line.take(i)) {
            None => Err(LineError::BadQuantity),
            Some(q) => Ok(entry_from_rest(q, line.skip(i + 1))),
        },
    }
}

fn entry_from_rest_exec(quantity: u32, rest: &Vec<char>) -> (e: DeckEntry)
    ensures
        e@ == entry_from_rest(quantity, rest@),
{
    match rfind_char_exec(rest, '(') {
        None => DeckEntry {
            quantity,
            card_name: string_of(&trim_chars(rest)),
            set_code: None,
            collector_number: None,
        },
        Some(p) => {
            let after = copy_range(rest, p + 1, rest.len());
            proof {
                assert(after@ =~= rest@.skip(p + 1));
            }
            let close = vec![')'];
            assert(close@ =~= seq![')']);
            match find_exec(&after, &close) {
                None => {
                    DeckEntry {
                        quantity,
                        card_name: string_of(rest),
                        set_code: None,
                        collector_number: None,
                    }
                },
                Some(e) => {
                    let set = copy_range(&after, 0, e);
                    let tail = copy_range(&after, e + 1, after.len());
                    let number = trim_chars(&tail);
                    let name = trim_chars(&copy_range(rest, 0, p));
                    proof {
                        assert(set@ =~= after@.take(e as int));
                        assert(tail@ =~= after@.skip(e + 1));
                        assert(rest@.subrange(0, p as int) =~= rest@.take(p as int));
                    }
                    let collector_number = if number.len() == 0 {
                        None
                    } else {
                        Some(string_of(&number))
                    };
                    DeckEntry {
                        quantity,
                        card_name: string_of(&name),
                        set_code: Some(string_of(&set)),
                        collector_number,
                    }
                },
            }
        },
    }
}

fn parse_line_chars(line: &Vec<char>) -> (r: Result<DeckEntry, LineError>)
    ensures
        match (r, parse_line_spec(line@)) {
            (Ok(e), Ok(v)) => e@ == v,
            (Err(a), Err(b)) => a == b,
            _ => false,
        },
{
    let sp = vec![' '];
    proof {
        assert(sp@ =~= seq![' ']);
    }
    match find_exec(line, &sp) {
        None => Err(LineError::MissingSeparator),
        Some(i) => {
            let qty = copy_range(line, 0, i);
            proof {
                assert(qty@ =~= line@.take(i as int));
            }
            match parse_u32_exec(&qty) {
                None => Err(LineError::BadQuantity),
                Some(q) => {
                    let rest = copy_range(line, i + 1, line.len());
                    proof {
                        assert(rest@ =~= line@.skip(i + 1));
                    }
                    Ok(entry_from_rest_exec(q, &rest))
                },
            }
        },
    }
}

/// Reads one deck-list line `N Card Name (SET) 123`; the printing is
/// optional.
pub fn parse_line(line: &str) -> (r: Result<DeckEntry, LineError>)
    ensures
        match (r, parse_line_spec(line@)) {
            (Ok(e), Ok(v)) => e@ == v,
            (Err(a), Err(b)) => a == b,
            _ => false,
        },
{
    parse_line_chars(&chars_of(line))
}

// ------------------------------------------------------------------
// MTG Arena deck text
// ------------------------------------------------------------------

/// The state of a parse between lines: the entries so far and the section
/// that the next entry goes to.
pub struct SectionState {
    pub mainboard: Seq<EntryView>,
    pub sideboard: Seq<EntryView>,
    pub in_sideboard: bool,
}

pub open spec fn empty_state() -> SectionState {
    SectionState { mainboard: Seq::empty(), sideboard: Seq::empty(), in_sideboard: false }
}

/// The state after adding an entry to the current section.
pub open spec fn add_entry(st: SectionState, e: EntryView) -> SectionState {
    if st.in_sideboard {
        SectionState { sideboard: st.sideboard.push(e), ..st }
    } else {
        SectionState { mainboard: st.mainboard.push(e), ..st }
    }
}

pub open spec fn deck_word() -> Seq<char> {
    seq!['d', 'e', 'c', 'k']
}

pub open spec fn sideboard_word() -> Seq<char> {
    seq!['s', 'i', 'd', 'e', 'b', 'o', 'a', 'r', 'd']
}

/// One line of MTG Arena text: blank lines are skipped, `Deck` and
/// `Sideboard` (in any ASCII case) switch sections, every other line is an
/// entry of the current section.
pub open spec fn mtga_step(st: SectionState, raw: Seq<char>) -> Result<SectionState, DeckErrorView> {
    let line = trim(raw);
    if line.len() == 0 {
        Ok(st)
    } else if eq_ignore_ascii_case(line, deck_word()) {
        Ok(SectionState { in_sideboard: false, ..st })
    } else if eq_ignore_ascii_case(line, sideboard_word()) {
        Ok(SectionState { in_sideboard: true, ..st })
    } else {
        match parse_line_spec(line) {
            Ok(e) => Ok(add_entry(st, e)),
            Err(reason) => Err(DeckErrorView::BadLine { line, reason }),
        }
    }
}

/// The state after the given lines, or the error at the first line refused.
pub open spec fn mtga_run(ls: Seq<Seq<char>>) -> Result<SectionState, DeckErrorView>
    decreases ls.len(),
{
    if ls.len() == 0 {
        Ok(empty_state())
    } else {
        match mtga_run(ls.drop_last()) {
            Ok(st) => mtga_step(st, ls.last()),
            Err(e) => Err(e),
        }
    }
}

/// The deck that a state holds.
pub open spec fn state_deck(st: SectionState) -> DeckView {
    DeckView { mainboard: st.mainboard, sideboard: st.sideboard }
}

/// What MTG Arena deck text describes.
pub open spec fn parse_mtga_spec(input: Seq<char>) -> Result<DeckView, DeckErrorView> {
    match mtga_run(lines(input)) {
        Ok(st) => Ok(state_deck(st)),
        Err(e) => Err(e),
    }
}

/// The result of a parse, as plain values.
pub open spec fn deck_result(r: Result<Deck, DeckError>) -> Result<DeckView, DeckErrorView> {
    match r {
        Ok(d) => Ok(d@),
        Err(e) => Err(e@),
    }
}

/// Parses a deck in MTG Arena text: one `N Card Name (SET) 123` per line,
/// `Deck` and `Sideboard` headers switching sections.
pub fn parse_mtga(input: &str) -> (r: Result<Deck, DeckError>)
    ensures
        deck_result(r) == parse_mtga_spec(input@),
{
    let chars = chars_of(input);
    let ls = split_lines(&chars);
    let mut mainboard: Vec<DeckEntry> = Vec::new();
    let mut sideboard: Vec<DeckEntry> = Vec::new();
    let mut in_sideboard = false;
    let deck_w = vec!['d', 'e', 'c', 'k'];
    let side_w = vec!['s', 'i', 'd', 'e', 'b', 'o', 'a', 'r', 'd'];
    proof {
        assert(deck_w@ =~= deck_word());
        assert(side_w@ =~= sideboard_word());
        assert(views(ls@).take(0) =~= Seq::<Seq<char>>::empty());
        assert(entries_view(mainboard@) =~= Seq::<EntryView>::empty());
        assert(entries_view(sideboard@) =~= Seq::<EntryView>::empty());
    }
    let mut i: usize = 0;
    while i < ls.len()
        invariant
            i <= ls.len(),
            views(ls@) == lines(input@),
            deck_w@ == deck_word(),
            side_w@ == sideboard_word(),
            mtga_run(views(ls@).take(i as int)) == Ok::<SectionState, DeckErrorView>(
                SectionState {
                    mainboard: entries_view(mainboard@),
                    sideboard: entries_view(sideboard@),
                    in_sideboard,
                },
            ),
        decreases ls.len() - i,
    {
        let ghost before = SectionState {
            mainboard: entries_view(mainboard@),
            sideboard: entries_view(sideboard@),
            in_sideboard,
        };
        proof {
            assert(views(ls@).take(i + 1).drop_last() =~= views(ls@).take(i as int));
            assert(views(ls@).take(i + 1).last() == ls@[i as int]@);
        }
        let line = trim_chars(&ls[i]);
        if line.len() == 0 {
        } else if eq_ignore_ascii_case_exec(&line, &deck_w) {
            in_sideboard = false;
        } else if eq_ignore_ascii_case_exec(&line, &side_w) {
            in_sideboard = true;
        } else {
            match parse_line_chars(&line) {
                Ok(e) => {
                    if in_sideboard {
                        sideboard.push(e);
                    } else {
                        mainboard.push(e);
                    }
                    proof {
                        assert(entries_view(sideboard@) =~= if in_sideboard {
                            before.sideboard.push(e@)
                        } else {
                            before.sideboard
                        });
                        assert(entries_view(mainboard@) =~= if in_sideboard {
                            before.mainboard
                        } else {
                            before.mainboard.push(e@)
                        });
                    }
                },
                Err(reason) => {
                    proof {
                        lemma_run_error_stays(views(ls@), i as int + 1);
                        assert(views(ls@).take(ls.len() as int) =~= views(ls@));
                    }
                    return Err(DeckError::BadLine { line: string_of(&line), reason });
                },
            }
        }
        i += 1;
    }
    proof {
        assert(views(ls@).take(ls.len() as int) =~= views(ls@));
    }
    Ok(Deck { mainboard, sideboard })
}

/// Once a line is refused, the later lines do not change the error.
proof fn lemma_run_error_stays(ls: Seq<Seq<char>>, k: int)
    requires
        0 <= k <= ls.len(),
        mtga_run(ls.take(k)) is Err,
    ensures
        mtga_run(ls) == mtga_run(ls.take(k)),
    decreases ls.len() - k,
{
    if k < ls.len() {
        assert(ls.take(k + 1).drop_last() =~= ls.take(k));
        lemma_run_error_stays(ls, k + 1);
    } else {
        assert(ls.take(k) =~= ls);
    }
}

// ------------------------------------------------------------------
// Cockatrice `.cod` files
// ------------------------------------------------------------------

pub open spec fn amp_entity() -> Seq<char> {
    seq!['&', 'a', 'm', 'p', ';']
}

pub open spec fn lt_entity() -> Seq<char> {
    seq!['&', 'l', 't', ';']
}

pub open spec fn gt_entity() -> Seq<char> {
    seq!['&', 'g', 't', ';']
}

pub open spec fn quot_entity() -> Seq<char> {
    seq!['&', 'q', 'u', 'o', 't', ';']
}

pub open spec fn apos_entity() -> Seq<char> {
    seq!['&', 'a', 'p', 'o', 's', ';']
}

/// An attribute value with the five XML entities replaced, `&amp;` first.
pub open spec fn unescape(v: Seq<char>) -> Seq<char> {
    replace_all(
        replace_all(
            replace_all(
                replace_all(replace_all(v, amp_entity(), seq!['&']), lt_entity(), seq!['<']),
                gt_entity(),
                seq!['>'],
            ),
            quot_entity(),
            seq!['"'],
        ),
        apos_entity(),
        seq!['\''],
    )
}

/// The value of the first `attr="..."` in `line`, unescaped.
pub open spec fn extract_attr_spec(line: Seq<char>, attr: Seq<char>) -> Option<Seq<char>> {
    let pat = attr + seq!['=', '"'];
    match find(line, pat) {
        None => None,
        Some(i) => {
            let rest = line.skip(i + pat.len());
            match find(rest, seq!['"']) {
                None => None,
                Some(e) => Some(unescape(rest.take(e))),
            }
        },
    }
}

fn replace_with(s: Vec<char>, p: Vec<char>, t: char) -> (out: Vec<char>)
    requires
        p.len() > 0,
    ensures
        out@ == replace_all(s@, p@, seq![t]),
{
    let tv = vec![t];
    assert(tv@ =~= seq![t]);
    replace_exec(&s, &p, &tv)
}

fn unescape_exec(v: Vec<char>) -> (out: Vec<char>)
    ensures
        out@ == unescape(v@),
{
    let amp = vec!['&', 'a', 'm', 'p', ';'];
    let lt = vec!['&', 'l', 't', ';'];
    let gt = vec!['&', 'g', 't', ';'];
    let quot = vec!['&', 'q', 'u', 'o', 't', ';'];
    let apos = vec!['&', 'a', 'p', 'o', 's', ';'];
    assert(amp@ =~= amp_entity());
    assert(lt@ =~= lt_entity());
    assert(gt@ =~= gt_entity());
    assert(quot@ =~= quot_entity());
    assert(apos@ =~= apos_entity());
    let a = replace_with(v, amp, '&');
    let b = replace_with(a, lt, '<');
    let c = replace_with(b, gt, '>');
    let d = replace_with(c, quot, '"');
    replace_with(d, apos, '\'')
}

fn extract_attr_chars(line: &Vec<char>, attr: &Vec<char>) -> (r: Option<Vec<char>>)
    ensures
        match (r, extract_attr_spec(line@, attr@)) {
            (Some(a), Some(b)) => a@ == b,
            (None, None) => true,
            _ => false,
        },
{
    let mut pat = copy_range(attr, 0, attr.len());
    pat.push('=');
    pat.push('"');
    proof {
        assert(pat@ =~= attr@ + seq!['=', '"']);
    }
    match find_exec(line, &pat) {
        None => None,
        Some(i) => {
            let rest = copy_range(line, i + pat.len(), line.len());
            assert(rest@ =~= line@.skip(i + pat.len()));
            let quote = vec!['"'];
            assert(quote@ =~= seq!['"']);
            match find_exec(&rest, &quote) {
                None => None,
                Some(e) => {
                    let value = copy_range(&rest, 0, e);
                    assert(value@ =~= rest@.take(e as int));
                    Some(unescape_exec(value))
                },
            }
        },
    }
}

/// The value of the first `attr="..."` in `line`, with the XML entities
/// `&amp;`, `&lt;`, `&gt;`, `&quot;` and `&apos;` replaced.
pub fn extract_attr(line: &str, attr: &str) -> (r: Option<String>)
    ensures
        match (r, extract_attr_spec(line@, attr@)) {
            (Some(a), Some(b)) => a@ == b,
            (None, None) => true,
            _ => false,
        },
{
    match extract_attr_chars(&chars_of(line), &chars_of(attr)) {
        Some(v) => Some(string_of(&v)),
        None => None,
    }
}

pub open spec fn side_zone() -> Seq<char> {
    seq!['n', 'a', 'm', 'e', '=', '"', 's', 'i', 'd', 'e', '"']
}

pub open spec fn sb_zone() -> Seq<char> {
    seq!['n', 'a', 'm', 'e', '=', '"', 's', 'b', '"']
}

pub open spec fn main_zone() -> Seq<char> {
    seq!['n', 'a', 'm', 'e', '=', '"', 'm', 'a', 'i', 'n', '"']
}

pub open spec fn card_open() -> Seq<char> {
    seq!['<', 'c', 'a', 'r', 'd', ' ']
}

pub open spec fn number_attr() -> Seq<char> {
    seq!['n', 'u', 'm', 'b', 'e', 'r']
}

pub open spec fn name_attr() -> Seq<char> {
    seq!['n', 'a', 'm', 'e']
}

/// The quantity that a `number` attribute gives: its `u32` value, else 1.
pub open spec fn card_quantity(number: Option<Seq<char>>) -> u32 {
    match number {
        Some(n) => match parse_u32(n) {
            Some(q) => q,
            None => 1,
        },
        None => 1,
    }
}

/// One line of a `.cod` file: a line naming the side zone (`side` or `sb`)
/// switches to the sideboard, one naming `main` back; a `<card ...>` line
/// adds its `name` with its `number` (1 when absent or unreadable).
pub open spec fn cod_step(st: SectionState, raw: Seq<char>) -> Result<SectionState, DeckErrorView> {
    let line = trim(raw);
    let in_side = if contains(line, side_zone()) || contains(line, sb_zone()) {
        true
    } else if contains(line, main_zone()) {
        false
    } else {
        st.in_sideboard
    };
    let st2 = SectionState { in_sideboard: in_side, ..st };
    if !starts_with(line, card_open()) {
        Ok(st2)
    } else {
        match extract_attr_spec(line, name_attr()) {
            None => Err(DeckErrorView::MissingName),
            Some(name) => Ok(
                add_entry(
                    st2,
                    EntryView {
                        quantity: card_quantity(extract_attr_spec(line, number_attr())),
                        card_name: name,
                        set_code: None,
                        collector_number: None,
                    },
                ),
            ),
        }
    }
}

/// The state after the given lines of a `.cod` file, or its error.
pub open spec fn cod_run(ls: Seq<Seq<char>>) -> Result<SectionState, DeckErrorView>
    decreases ls.len(),
{
    if ls.len() == 0 {
        Ok(empty_state())
    } else {
        match cod_run(ls.drop_last()) {
            Ok(st) => cod_step(st, ls.last()),
            Err(e) => Err(e),
        }
    }
}

/// What a Cockatrice `.cod` file describes.
pub open spec fn parse_cockatrice_spec(input: Seq<char>) -> Result<DeckView, DeckErrorView> {
    match cod_run(lines(input)) {
        Ok(st) => Ok(state_deck(st)),
        Err(e) => Err(e),
    }
}

proof fn lemma_cod_error_stays(ls: Seq<Seq<char>>, k: int)
    requires
        0 <= k <= ls.len(),
        cod_run(ls.take(k)) is Err,
    ensures
        cod_run(ls) == cod_run(ls.take(k)),
    decreases ls.len() - k,
{
    if k < ls.len() {
        assert(ls.take(k + 1).drop_last() =~= ls.take(k));
        lemma_cod_error_stays(ls, k + 1);
    } else {
        assert(ls.take(k) =~= ls);
    }
}

/// Parses a Cockatrice `.cod` deck file: each `<card number=".." name=".."/>`
/// line is an entry of the zone it stands in.
pub fn parse_cockatrice(input: &str) -> (r: Result<Deck, DeckError>)
    ensures
        deck_result(r) == parse_cockatrice_spec(input@),
{
    let chars = chars_of(input);
    let ls = split_lines(&chars);
    let mut mainboard: Vec<DeckEntry> = Vec::new();
    let mut sideboard: Vec<DeckEntry> = Vec::new();
    let mut in_sideboard = false;
    let side_m = vec!['n', 'a', 'm', 'e', '=', '"', 's', 'i', 'd', 'e', '"'];
    let sb_m = vec!['n', 'a', 'm', 'e', '=', '"', 's', 'b', '"'];
    let main_m = vec!['n', 'a', 'm', 'e', '=', '"', 'm', 'a', 'i', 'n', '"'];
    let card_m = vec!['<', 'c', 'a', 'r', 'd', ' '];
    let number_a = vec!['n', 'u', 'm', 'b', 'e', 'r'];
    let name_a = vec!['n', 'a', 'm', 'e'];
    proof {
        assert(side_m@ =~= side_zone());
        assert(sb_m@ =~= sb_zone());
        assert(main_m@ =~= main_zone());
        assert(card_m@ =~= card_open());
        assert(number_a@ =~= number_attr());
        assert(name_a@ =~= name_attr());
        assert(views(ls@).take(0) =~= Seq::<Seq<char>>::empty());
        assert(entries_view(mainboard@) =~= Seq::<EntryView>::empty());
        assert(entries_view(sideboard@) =~= Seq::<EntryView>::empty());
    }
    let mut i: usize = 0;
    while i < ls.len()
        invariant
            i <= ls.len(),
            views(ls@) == lines(input@),
            side_m@ == side_zone(),
            sb_m@ == sb_zone(),
            main_m@ == main_zone(),
            card_m@ == card_open(),
            number_a@ == number_attr(),
            name_a@ == name_attr(),
            cod_run(views(ls@).take(i as int)) == Ok::<SectionState, DeckErrorView>(
                SectionState {
                    mainboard: entries_view(mainboard@),
                    sideboard: entries_view(sideboard@),
                    in_sideboard,
                },
            ),
        decreases ls.len() - i,
    {
        let ghost before = SectionState {
            mainboard: entries_view(mainboard@),
            sideboard: entries_view(sideboard@),
            in_sideboard,
        };
        proof {
            assert(views(ls@).take(i + 1).drop_last() =~= views(ls@).take(i as int));
            assert(views(ls@).take(i + 1).last() == ls@[i as int]@);
        }
        let line = trim_chars(&ls[i]);
        if contains_exec(&line, &side_m) || contains_exec(&line, &sb_m) {
            in_sideboard = true;
        } else if contains_exec(&line, &main_m) {
            in_sideboard = false;
        }
        if starts_with_exec(&line, &card_m) {
            let number = extract_attr_chars(&line, &number_a);
            let quantity: u32 = match number {
                Some(n) => match parse_u32_exec(&n) {
                    Some(q) => q,
                    None => 1,
                },
                None => 1,
            };
            match extract_attr_chars(&line, &name_a) {
                None => {
                    proof {
                        lemma_cod_error_stays(views(ls@), i as int + 1);
                        assert(views(ls@).take(ls.len() as int) =~= views(ls@));
                    }
                    return Err(DeckError::MissingName);
                },
                Some(name) => {
                    let e = DeckEntry {
                        quantity,
                        card_name: string_of(&name),
                        set_code: None,
                        collector_number: None,
                    };
                    if in_sideboard {
                        sideboard.push(e);
                    } else {
                        mainboard.push(e);
                    }
                    proof {
                        assert(entries_view(sideboard@) =~= if in_sideboard {
                            before.sideboard.push(e@)
                        } else {
                            before.sideboard
                        });
                        assert(entries_view(mainboard@) =~= if in_sideboard {
                            before.mainboard
                        } else {
                            before.mainboard.push(e@)
                        });
                    }
                },
            }
        }
        i += 1;
    }
    proof {
        assert(views(ls@).take(ls.len() as int) =~= views(ls@));
    }
    Ok(Deck { mainboard, sideboard })
}

// ------------------------------------------------------------------
// A folder of `.cod` files
// ------------------------------------------------------------------

/// The card names of a deck, main deck first, in list order.
pub open spec fn deck_names(d: DeckView) -> Seq<Seq<char>> {
    (d.mainboard + d.sideboard).map_values(|e: EntryView| e.card_name)
}

/// `names` without repeats: each name at its first occurrence.
pub open spec fn first_occurrences(names: Seq<Seq<char>>) -> Seq<Seq<char>>
    decreases names.len(),
{
    if names.len() == 0 {
        Seq::empty()
    } else {
        let prev = first_occurrences(names.drop_last());
        if prev.contains(names.last()) {
            prev
        } else {
            prev.push(names.last())
        }
    }
}

/// The card names of all the files in order, or the error of the first
/// file refused.
pub open spec fn folder_names(files: Seq<Seq<char>>) -> Result<Seq<Seq<char>>, DeckErrorView>
    decreases files.len(),
{
    if files.len() == 0 {
        Ok(Seq::empty())
    } else {
        match folder_names(files.drop_last()) {
            Err(e) => Err(e),
            Ok(ns) => match parse_cockatrice_spec(files.last()) {
                Err(e) => Err(e),
                Ok(d) => Ok(ns + deck_names(d)),
            },
        }
    }
}

/// The entry for one copy of a named card.
pub open spec fn single_copy(name: Seq<char>) -> EntryView {
    EntryView { quantity: 1, card_name: name, set_code: None, collector_number: None }
}

/// What a folder of `.cod` files describes: one copy of each card named in
/// any of them, in order of first appearance, all in the main deck.
pub open spec fn parse_folder_spec(files: Seq<Seq<char>>) -> Result<DeckView, DeckErrorView> {
    match folder_names(files) {
        Err(e) => Err(e),
        Ok(ns) => Ok(
            DeckView {
                mainboard: first_occurrences(ns).map_values(|n: Seq<char>| single_copy(n)),
                sideboard: Seq::empty(),
            },
        ),
    }
}

/// The views of a sequence of strings.
pub open spec fn string_views(v: Seq<String>) -> Seq<Seq<char>> {
    v.map_values(|s: String| s@)
}

fn contains_string(v: &Vec<String>, s: &String) -> (b: bool)
    ensures
        b == string_views(v@).contains(s@),
{
    let mut i: usize = 0;
    while i < v.len()
        invariant
            i <= v.len(),
            forall|k: int| 0 <= k < i ==> v@[k]@ != s@,
        decreases v.len() - i,
    {
        if v[i] == *s {
            assert(string_views(v@)[i as int] == s@);
            return true;
        }
        i += 1;
    }
    proof {
        if string_views(v@).contains(s@) {
            let k = choose|k: int| 0 <= k < string_views(v@).len() && string_views(v@)[k] == s@;
            assert(v@[k]@ == s@);
        }
    }
    false
}

/// Adds the names of `entries` to the names seen so far, keeping one
/// entry per new name.
fn add_new_names(
    seen: &mut Vec<String>,
    out: &mut Vec<DeckEntry>,
    entries: &Vec<DeckEntry>,
    Ghost(ns): Ghost<Seq<Seq<char>>>,
)
    requires
        string_views(old(seen)@) == first_occurrences(ns),
        entries_view(old(out)@) == first_occurrences(ns).map_values(|n: Seq<char>| single_copy(n)),
    ensures
        string_views(final(seen)@) == first_occurrences(
            ns + entries_view(entries@).map_values(|e: EntryView| e.card_name),
        ),
        entries_view(final(out)@) == first_occurrences(
            ns + entries_view(entries@).map_values(|e: EntryView| e.card_name),
        ).map_values(|n: Seq<char>| single_copy(n)),
{
    let ghost names = entries_view(entries@).map_values(|e: EntryView| e.card_name);
    let mut k: usize = 0;
    proof {
        assert(ns + names.take(0) =~= ns);
    }
    while k < entries.len()
        invariant
            k <= entries.len(),
            names == entries_view(entries@).map_values(|e: EntryView| e.card_name),
            string_views(seen@) == first_occurrences(ns + names.take(k as int)),
            entries_view(out@) == first_occurrences(ns + names.take(k as int)).map_values(
                |n: Seq<char>| single_copy(n),
            ),
        decreases entries.len() - k,
    {
        let ghost all = ns + names.take(k + 1);
        proof {
            assert(all.drop_last() =~= ns + names.take(k as int));
            assert(all.last() == entries@[k as int].card_name@);
        }
        let name = entries[k].card_name.clone();
        if !contains_string(seen, &name) {
            let ghost prev_out = entries_view(out@);
            let ghost prev_seen = string_views(seen@);
            let e = DeckEntry {
                quantity: 1,
                card_name: name.clone(),
                set_code: None,
                collector_number: None,
            };
            out.push(e);
            seen.push(name);
            proof {
                assert(entries_view(out@) =~= prev_out.push(single_copy(all.last())));
                assert(string_views(seen@) =~= prev_seen.push(all.last()));
                assert(first_occurrences(all).map_values(|n: Seq<char>| single_copy(n))
                    =~= first_occurrences(all.drop_last()).map_values(
                    |n: Seq<char>| single_copy(n),
                ).push(single_copy(all.last())));
            }
        }
        k += 1;
    }
    proof {
        assert(names.take(entries.len() as int) =~= names);
    }
}

/// Reads every `.cod` file of a folder, given as the files' contents in
/// file-name order, and lists each card once (quantity 1) in the main deck.
pub fn parse_cockatrice_folder(files: &Vec<String>) -> (r: Result<Deck, DeckError>)
    ensures
        deck_result(r) == parse_folder_spec(string_views(files@)),
{
    let mut seen: Vec<String> = Vec::new();
    let mut out: Vec<DeckEntry> = Vec::new();
    let ghost mut ns: Seq<Seq<char>> = Seq::empty();
    let mut i: usize = 0;
    proof {
        assert(string_views(files@).take(0) =~= Seq::<Seq<char>>::empty());
        assert(string_views(seen@) =~= Seq::<Seq<char>>::empty());
        assert(entries_view(out@) =~= Seq::<EntryView>::empty());
        assert(first_occurrences(ns).map_values(|n: Seq<char>| single_copy(n))
            =~= Seq::<EntryView>::empty());
    }
    while i < files.len()
        invariant
            i <= files.len(),
            folder_names(string_views(files@).take(i as int)) == Ok::<
                Seq<Seq<char>>,
                DeckErrorView,
            >(ns),
            string_views(seen@) == first_occurrences(ns),
            entries_view(out@) == first_occurrences(ns).map_values(|n: Seq<char>| single_copy(n)),
        decreases files.len() - i,
    {
        let ghost fs = string_views(files@).take(i + 1);
        proof {
            assert(fs.drop_last() =~= string_views(files@).take(i as int));
            assert(fs.last() == files@[i as int]@);
        }
        match parse_cockatrice(files[i].as_str()) {
            Err(e) => {
                proof {
                    lemma_folder_error_stays(string_views(files@), i as int + 1);
                    assert(string_views(files@).take(files.len() as int) =~= string_views(
                        files@,
                    ));
                }
                return Err(e);
            },
            Ok(deck) => {
                let ghost d = deck@;
                add_new_names(&mut seen, &mut out, &deck.mainboard, Ghost(ns));
                let ghost ns1 = ns + entries_view(deck.mainboard@).map_values(
                    |e: EntryView| e.card_name,
                );
                add_new_names(&mut seen, &mut out, &deck.sideboard, Ghost(ns1));
                proof {
                    let ns2 = ns1 + entries_view(deck.sideboard@).map_values(
                        |e: EntryView| e.card_name,
                    );
                    assert(ns2 =~= ns + deck_names(d));
                    ns = ns2;
                }
            },
        }
        i += 1;
    }
    proof {
        assert(string_views(files@).take(files.len() as int) =~= string_views(files@));
    }
    let d = Deck { mainboard: out, sideboard: Vec::new() };
    proof {
        assert(d@.sideboard =~= Seq::<EntryView>::empty());
    }
    Ok(d)
}

proof fn lemma_folder_error_stays(files: Seq<Seq<char>>, k: int)
    requires
        0 <= k <= files.len(),
        folder_names(files.take(k)) is Err,
    ensures
        folder_names(files) == folder_names(files.take(k)),
    decreases files.len() - k,
{
    if k < files.len() {
        assert(files.take(k + 1).drop_last() =~= files.take(k));
        lemma_folder_error_stays(files, k + 1);
    } else {
        assert(files.take(k) =~= files);
    }
}


proof fn lemma_first_occurrences(names: Seq<Seq<char>>)
    ensures
        forall|i: int, j: int|
            0 <= i < j < first_occurrences(names).len() ==> first_occurrences(names)[i]
                != first_occurrences(names)[j],
        forall|x: Seq<char>| first_occurrences(names).contains(x) <==> names.contains(x),
    decreases names.len(),
{
    if names.len() > 0 {
        let init = names.drop_last();
        lemma_first_occurrences(init);
        let prev = first_occurrences(init);
        assert forall|x: Seq<char>| first_occurrences(names).contains(x) <==> names.contains(x) by {
            if names.contains(x) {
                let k = choose|k: int| 0 <= k < names.len() && names[k] == x;
                if k < names.len() - 1 {
                    assert(init[k] == x);
                }
            }
            if init.contains(x) {
                let k = choose|k: int| 0 <= k < init.len() && init[k] == x;
                assert(names[k] == x);
            }
            if !prev.contains(names.last()) {
                assert(prev.push(names.last())[prev.len() as int] == names.last());
                if prev.push(names.last()).contains(x) {
                    let k = choose|k: int| 0 <= k < prev.len() + 1 && prev.push(names.last())[k] == x;
                    if k < prev.len() {
                        assert(prev[k] == x);
                    }
                }
                if prev.contains(x) {
                    let k = choose|k: int| 0 <= k < prev.len() && prev[k] == x;
                    assert(prev.push(names.last())[k] == x);
                }
            }
            assert(names[names.len() - 1] == names.last());
        }
    }
}

/// Reading a folder of `.cod` files lists each card named in any of them
/// exactly once, with one copy, and nothing in the sideboard.
pub proof fn lemma_folder_laws(files: Seq<Seq<char>>)
    requires
        parse_folder_spec(files) is Ok,
    ensures
        ({
            let d = parse_folder_spec(files)->Ok_0;
            let ns = folder_names(files)->Ok_0;
            &&& d.sideboard.len() == 0
            &&& forall|i: int| 0 <= i < d.mainboard.len() ==> (#[trigger] d.mainboard[i]).quantity == 1
            &&& forall|i: int, j: int|
                0 <= i < j < d.mainboard.len() ==> d.mainboard[i].card_name
                    != d.mainboard[j].card_name
            &&& forall|x: Seq<char>|
                ns.contains(x) <==> exists|i: int|
                    0 <= i < d.mainboard.len() && (#[trigger] d.mainboard[i]).card_name == x
        }),
{
    let ns = folder_names(files)->Ok_0;
    let fo = first_occurrences(ns);
    lemma_first_occurrences(ns);
    let d = parse_folder_spec(files)->Ok_0;
    assert(d.mainboard == fo.map_values(|n: Seq<char>| single_copy(n)));
    assert forall|x: Seq<char>|
        ns.contains(x) <==> exists|i: int|
            0 <= i < d.mainboard.len() && (#[trigger] d.mainboard[i]).card_name == x by {
        if ns.contains(x) {
            assert(fo.contains(x));
            let k = choose|k: int| 0 <= k < fo.len() && fo[k] == x;
            assert(d.mainboard[k].card_name == x);
        }
        if exists|i: int| 0 <= i < d.mainboard.len() && (#[trigger] d.mainboard[i]).card_name == x {
            let k = choose|i: int| 0 <= i < d.mainboard.len() && (#[trigger] d.mainboard[i]).card_name == x;
            assert(fo[k] == x);
            assert(fo.contains(x));
        }
    }
    assert forall|i: int, j: int|
        0 <= i < j < d.mainboard.len() implies d.mainboard[i].card_name != d.mainboard[j].card_name by {
        assert(d.mainboard[i].card_name == fo[i]);
        assert(d.mainboard[j].card_name == fo[j]);
    }
}


/// A line of MTG Arena text that is an entry: not blank and not a
/// section header.
pub open spec fn is_entry_line(raw: Seq<char>) -> bool {
    let t = trim(raw);
    t.len() > 0 && !eq_ignore_ascii_case(t, deck_word()) && !eq_ignore_ascii_case(
        t,
        sideboard_word(),
    )
}

/// An entry line that does not parse.
pub open spec fn is_bad_line(raw: Seq<char>) -> bool {
    is_entry_line(raw) && parse_line_spec(trim(raw)) is Err
}

/// Whether the last section header among `ls` is `Sideboard` (false when
/// there is none).
pub open spec fn in_side_after(ls: Seq<Seq<char>>) -> bool
    decreases ls.len(),
{
    if ls.len() == 0 {
        false
    } else {
        let t = trim(ls.last());
        if t.len() > 0 && eq_ignore_ascii_case(t, deck_word()) {
            false
        } else if t.len() > 0 && eq_ignore_ascii_case(t, sideboard_word()) {
            true
        } else {
            in_side_after(ls.drop_last())
        }
    }
}

/// The entries of the entry lines of `ls` whose last section header before
/// them is `Sideboard` (`side`) or not (`!side`), in line order.
pub open spec fn section_entries(ls: Seq<Seq<char>>, side: bool) -> Seq<EntryView>
    decreases ls.len(),
{
    if ls.len() == 0 {
        Seq::empty()
    } else {
        let prev = section_entries(ls.drop_last(), side);
        if is_entry_line(ls.last()) && in_side_after(ls.drop_last()) == side {
            match parse_line_spec(trim(ls.last())) {
                Ok(e) => prev.push(e),
                Err(_) => prev,
            }
        } else {
            prev
        }
    }
}

proof fn lemma_mtga_run_shape(ls: Seq<Seq<char>>)
    ensures
        (forall|k: int| 0 <= k < ls.len() ==> !is_bad_line(#[trigger] ls[k])) ==> mtga_run(ls)
            == Ok::<SectionState, DeckErrorView>(
            SectionState {
                mainboard: section_entries(ls, false),
                sideboard: section_entries(ls, true),
                in_sideboard: in_side_after(ls),
            },
        ),
        mtga_run(ls) is Err <==> exists|k: int| 0 <= k < ls.len() && is_bad_line(#[trigger] ls[k]),
    decreases ls.len(),
{
    if ls.len() > 0 {
        let init = ls.drop_last();
        lemma_mtga_run_shape(init);
        assert forall|k: int| 0 <= k < init.len() implies init[k] == ls[k] by {}
        if exists|k: int| 0 <= k < init.len() && is_bad_line(#[trigger] init[k]) {
            let k = choose|k: int| 0 <= k < init.len() && is_bad_line(#[trigger] init[k]);
            assert(is_bad_line(ls[k]));
        }
        if exists|k: int| 0 <= k < ls.len() && is_bad_line(#[trigger] ls[k]) {
            let k = choose|k: int| 0 <= k < ls.len() && is_bad_line(#[trigger] ls[k]);
            if k < init.len() {
                assert(is_bad_line(init[k]));
            } else {
                assert(ls[k] == ls.last());
            }
        }
        if forall|k: int| 0 <= k < ls.len() ==> !is_bad_line(#[trigger] ls[k]) {
            assert forall|k: int| 0 <= k < init.len() implies !is_bad_line(#[trigger] init[k]) by {
                assert(!is_bad_line(ls[k]));
            }
            assert(!is_bad_line(ls[ls.len() - 1]));
        }
    }
}

/// Reading MTG Arena text fails exactly when some entry line (not blank,
/// not a `Deck` or `Sideboard` header) fails to parse; otherwise each
/// entry goes to the sideboard when the last header before it is
/// `Sideboard`, else to the main deck, each list in line order.
pub proof fn lemma_mtga_laws(input: Seq<char>)
    ensures
        parse_mtga_spec(input) is Err <==> exists|k: int|
            0 <= k < lines(input).len() && is_bad_line(#[trigger] lines(input)[k]),
        (forall|k: int| 0 <= k < lines(input).len() ==> !is_bad_line(#[trigger] lines(input)[k]))
            ==> parse_mtga_spec(input) == Ok::<DeckView, DeckErrorView>(
            DeckView {
                mainboard: section_entries(lines(input), false),
                sideboard: section_entries(lines(input), true),
            },
        ),
{
    lemma_mtga_run_shape(lines(input));
}


// ------------------------------------------------------------------
// Laws of one deck-list line
// ------------------------------------------------------------------

proof fn lemma_rfind_absent(s: Seq<char>, c: char)
    requires
        forall|i: int| 0 <= i < s.len() ==> #[trigger] s[i] != c,
    ensures
        rfind_char(s, c) is None,
    decreases s.len(),
{
    if s.len() > 0 {
        assert(s.last() == s[s.len() - 1]);
        lemma_rfind_absent(s.drop_last(), c);
    }
}

/// Searching from the back past a part without `c`.
proof fn lemma_rfind_past(a: Seq<char>, b: Seq<char>, c: char)
    requires
        forall|i: int| 0 <= i < b.len() ==> #[trigger] b[i] != c,
    ensures
        rfind_char(a + b, c) == rfind_char(a, c),
    decreases b.len(),
{
    if b.len() == 0 {
        assert(a + b =~= a);
    } else {
        assert((a + b).drop_last() =~= a + b.drop_last());
        assert((a + b).last() == b[b.len() - 1]);
        lemma_rfind_past(a, b.drop_last(), c);
    }
}

/// The first space of `digits + " " + rest` is the one after the digits.
proof fn lemma_quantity_split(q: u32, rest: Seq<char>)
    ensures
        find(decimal(q as nat) + seq![' '] + rest, seq![' ']) == Some(decimal(q as nat).len() as int),
        (decimal(q as nat) + seq![' '] + rest).take(decimal(q as nat).len() as int) == decimal(q as nat),
        (decimal(q as nat) + seq![' '] + rest).skip(decimal(q as nat).len() + 1int) == rest,
        parse_u32(decimal(q as nat)) == Some(q),
{
    let d = decimal(q as nat);
    let line = d + seq![' '] + rest;
    let sp = seq![' '];
    lemma_decimal_digits(q as nat);
    lemma_parse_decimal(q);
    assert(line.subrange(d.len() as int, d.len() + 1int) =~= sp);
    assert(matches_at(line, sp, d.len() as int));
    lemma_find_facts(line, sp);
    assert forall|k: int| 0 <= k < d.len() implies !matches_at(line, sp, k) by {
        if matches_at(line, sp, k) {
            assert(line.subrange(k, k + 1)[0] == line[k]);
            assert(line[k] == d[k]);
            assert(is_digit(d[k]));
        }
    }
    assert(line.take(d.len() as int) =~= d);
    assert(line.skip(d.len() + 1int) =~= rest);
}

/// A line `N Name`, whose name holds no `(`, is `N` copies of the card
/// named by the whole text after the first space, trimmed (spaces inside
/// the name kept), with no printing.
pub proof fn lemma_line_without_printing(q: u32, name: Seq<char>)
    requires
        forall|i: int| 0 <= i < name.len() ==> #[trigger] name[i] != '(',
    ensures
        parse_line_spec(decimal(q as nat) + seq![' '] + name) == Ok::<EntryView, LineError>(
            EntryView { quantity: q, card_name: trim(name), set_code: None, collector_number: None },
        ),
{
    lemma_quantity_split(q, name);
    lemma_rfind_absent(name, '(');
}

proof fn lemma_trim_start_push_space(x: Seq<char>)
    ensures
        trim_start(x.push(' ')) == if trim_start(x).len() == 0 {
            Seq::<char>::empty()
        } else {
            trim_start(x).push(' ')
        },
    decreases x.len(),
{
    let y = x.push(' ');
    if x.len() == 0 {
        assert(is_ws(y[0]));
        assert(y.drop_first() =~= Seq::<char>::empty());
        assert(trim_start(y.drop_first()) == Seq::<char>::empty());
    } else {
        assert(y[0] == x[0]);
        if is_ws(x[0]) {
            assert(y.drop_first() =~= x.drop_first().push(' '));
            lemma_trim_start_push_space(x.drop_first());
        }
    }
}

/// A trailing space does not change a trimmed text.
pub proof fn lemma_trim_push_space(x: Seq<char>)
    ensures
        trim(x.push(' ')) == trim(x),
{
    lemma_trim_start_push_space(x);
    let t = trim_start(x);
    if t.len() > 0 {
        assert(t.push(' ').drop_last() =~= t);
    }
}

proof fn lemma_last_paren(name: Seq<char>, set: Seq<char>, number: Seq<char>)
    requires
        forall|i: int| 0 <= i < set.len() ==> #[trigger] set[i] != '(' && set[i] != ')',
        forall|i: int| 0 <= i < number.len() ==> #[trigger] number[i] != '(',
    ensures
        rfind_char(name + seq![' ', '('] + set + seq![')'] + number, '(') == Some(
            name.len() + 1int,
        ),
{
    let a = name + seq![' ', '('];
    let b = set + seq![')'] + number;
    assert(name + seq![' ', '('] + set + seq![')'] + number =~= a + b);
    assert forall|i: int| 0 <= i < b.len() implies #[trigger] b[i] != '(' by {
        if i < set.len() {
            assert(b[i] == set[i]);
        } else if i > set.len() {
            assert(b[i] == number[i - set.len() - 1]);
        }
    }
    lemma_rfind_past(a, b, '(');
    assert(a.last() == '(');
}

proof fn lemma_after_paren(set: Seq<char>, number: Seq<char>)
    requires
        forall|i: int| 0 <= i < set.len() ==> #[trigger] set[i] != '(' && set[i] != ')',
    ensures
        find(set + seq![')'] + number, seq![')']) == Some(set.len() as int),
        (set + seq![')'] + number).take(set.len() as int) == set,
        (set + seq![')'] + number).skip(set.len() + 1int) == number,
{
    let after = set + seq![')'] + number;
    let cl = seq![')'];
    assert(after.subrange(set.len() as int, set.len() + 1int) =~= cl);
    assert(matches_at(after, cl, set.len() as int));
    lemma_find_facts(after, cl);
    assert forall|k: int| 0 <= k < set.len() implies !matches_at(after, cl, k) by {
        if matches_at(after, cl, k) {
            assert(after.subrange(k, k + 1)[0] == after[k]);
            assert(after[k] == set[k]);
        }
    }
    assert(after.take(set.len() as int) =~= set);
    assert(after.skip(set.len() + 1int) =~= number);
}

/// A line `N Name (SET) NUMBER` is `N` copies of the card `Name` (trimmed)
/// in the printing `SET`, number `NUMBER` trimmed (none when blank), when
/// the name holds no `(`, the set neither `(` nor `)`, and the number no
/// `(`.
pub proof fn lemma_line_with_printing(
    q: u32,
    name: Seq<char>,
    set: Seq<char>,
    number: Seq<char>,
)
    requires
        forall|i: int| 0 <= i < name.len() ==> #[trigger] name[i] != '(',
        forall|i: int| 0 <= i < set.len() ==> #[trigger] set[i] != '(' && set[i] != ')',
        forall|i: int| 0 <= i < number.len() ==> #[trigger] number[i] != '(',
    ensures
        parse_line_spec(
            decimal(q as nat) + seq![' '] + (name + seq![' ', '('] + set + seq![')'] + number),
        ) == Ok::<EntryView, LineError>(
            EntryView {
                quantity: q,
                card_name: trim(name),
                set_code: Some(set),
                collector_number: if trim(number).len() == 0 {
                    None
                } else {
                    Some(trim(number))
                },
            },
        ),
{
    let rest = name + seq![' ', '('] + set + seq![')'] + number;
    lemma_quantity_split(q, rest);
    lemma_last_paren(name, set, number);
    let p: int = name.len() + 1int;
    assert(rest.skip(p + 1) =~= set + seq![')'] + number);
    lemma_after_paren(set, number);
    assert(rest.take(p) =~= name.push(' '));
    lemma_trim_push_space(name);
    assert(entry_from_rest(q, rest) == EntryView {
        quantity: q,
        card_name: trim(name),
        set_code: Some(set),
        collector_number: if trim(number).len() == 0 {
            None
        } else {
            Some(trim(number))
        },
    });
}

proof fn lemma_folder_names_cover(files: Seq<Seq<char>>)
    requires
        folder_names(files) is Ok,
    ensures
        forall|k: int|
            0 <= k < files.len() ==> ((#[trigger] parse_cockatrice_spec(files[k])) is Ok),
        forall|k: int, j: int|
            0 <= k < files.len() && 0 <= j < deck_names(parse_cockatrice_spec(files[k])->Ok_0).len()
                ==> folder_names(files)->Ok_0.contains(
                #[trigger] deck_names(parse_cockatrice_spec(files[k])->Ok_0)[j],
            ),
    decreases files.len(),
{
    if files.len() > 0 {
        let init = files.drop_last();
        lemma_folder_names_cover(init);
        let ns0 = folder_names(init)->Ok_0;
        let last = parse_cockatrice_spec(files.last())->Ok_0;
        let ns = folder_names(files)->Ok_0;
        assert(ns == ns0 + deck_names(last));
        assert forall|k: int| 0 <= k < files.len() implies (#[trigger] parse_cockatrice_spec(
            files[k],
        )) is Ok by {
            if k < init.len() {
                assert(files[k] == init[k]);
            }
        }
        assert forall|k: int, j: int|
            0 <= k < files.len() && 0 <= j < deck_names(parse_cockatrice_spec(files[k])->Ok_0).len()
                implies ns.contains(#[trigger] deck_names(parse_cockatrice_spec(files[k])->Ok_0)[j]) by {
            let x = deck_names(parse_cockatrice_spec(files[k])->Ok_0)[j];
            if k < init.len() {
                assert(files[k] == init[k]);
                assert(ns0.contains(x));
                let m = choose|m: int| 0 <= m < ns0.len() && ns0[m] == x;
                assert(ns[m] == x);
            } else {
                assert(files[k] == files.last());
                assert(ns[ns0.len() + j] == x);
            }
        }
    }
}

/// Reading a folder lists every card named in any zone (main deck or
/// sideboard) of any of its files: each has an entry of the result with
/// its name, one copy.
pub proof fn lemma_folder_keeps_every_zone(files: Seq<Seq<char>>)
    requires
        parse_folder_spec(files) is Ok,
    ensures
        forall|k: int|
            0 <= k < files.len() ==> ((#[trigger] parse_cockatrice_spec(files[k])) is Ok),
        forall|k: int, e: EntryView|
            0 <= k < files.len() && (parse_cockatrice_spec(files[k])->Ok_0.mainboard
                + parse_cockatrice_spec(files[k])->Ok_0.sideboard).contains(e) ==> exists|i: int|
                0 <= i < parse_folder_spec(files)->Ok_0.mainboard.len()
                    && #[trigger] parse_folder_spec(files)->Ok_0.mainboard[i] == single_copy(
                    e.card_name,
                ),
{
    lemma_folder_names_cover(files);
    lemma_folder_laws(files);
    let r = parse_folder_spec(files)->Ok_0;
    let ns = folder_names(files)->Ok_0;
    assert forall|k: int, e: EntryView|
        0 <= k < files.len() && (parse_cockatrice_spec(files[k])->Ok_0.mainboard
            + parse_cockatrice_spec(files[k])->Ok_0.sideboard).contains(e) implies exists|i: int|
            0 <= i < r.mainboard.len() && #[trigger] r.mainboard[i] == single_copy(e.card_name) by {
        let d = parse_cockatrice_spec(files[k])->Ok_0;
        let all = d.mainboard + d.sideboard;
        let j = choose|j: int| 0 <= j < all.len() && all[j] == e;
        assert(deck_names(d)[j] == e.card_name);
        assert(ns.contains(e.card_name));
        let i = choose|i: int| 0 <= i < r.mainboard.len() && (#[trigger] r.mainboard[i]).card_name
            == e.card_name;
        assert(r.mainboard[i] == first_occurrences(ns).map_values(|n: Seq<char>| single_copy(n))[i]);
    }
}

} // verus!
