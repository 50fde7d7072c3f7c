//! A Cockatrice file that the program writes reads back as the cards it
//! was written from.
use vstd::prelude::*;

use crate::deck::models::EntryView;
use crate::deck::parser::{
    add_entry, amp_entity, apos_entity, card_open, card_quantity, cod_step, extract_attr_spec,
    gt_entity, lt_entity, main_zone, name_attr, number_attr, quot_entity, sb_zone, side_zone,
    unescape, DeckErrorView, SectionState,
};
use crate::deck::models::DeckView;
use crate::deck::parser::{cod_run, empty_state, parse_cockatrice_spec};
use crate::export::{cockatrice_document_spec, cod_card_line, cod_card_lines, cod_footer, cod_header, xml_escape};
use crate::scryfall::models::Card;
use crate::text::{
    contains, decimal, find, is_ws, lemma_first_newline, lines, strip_cr, lemma_decimal_digits, lemma_find_facts, lemma_parse_decimal,
    lemma_trim_start_skip, matches_at, parse_u32, replace_all, starts_with, trim, trim_end,
    trim_start,
};

verus! {

/// The characters that a name attribute writes as entities.
pub open spec fn escaped_chars() -> Set<char> {
    set!['&', '"', '<', '>']
}

/// The entity that stands for one of `escaped_chars()`.
pub open spec fn entity_of(c: char) -> Seq<char> {
    if c == '&' {
        amp_entity()
    } else if c == '"' {
        quot_entity()
    } else if c == '<' {
        lt_entity()
    } else {
        gt_entity()
    }
}

/// One character of `s` with the characters of `e` written as entities.
pub open spec fn token(c: char, e: Set<char>) -> Seq<char> {
    if e.contains(c) {
        entity_of(c)
    } else {
        seq![c]
    }
}

/// `s` with the characters of `e` written as entities.
pub open spec fn rendered(s: Seq<char>, e: Set<char>) -> Seq<char>
    decreases s.len(),
{
    if s.len() == 0 {
        Seq::empty()
    } else {
        token(s[0], e) + rendered(s.drop_first(), e)
    }
}

/// `s` holds none of the entity texts that reading a name turns into a
/// single character, apart from `&amp;`.
pub open spec fn free_of_entities(s: Seq<char>) -> bool {
    forall|i: int|
        {
            &&& !matches_at(s, lt_entity(), i)
            &&& !matches_at(s, gt_entity(), i)
            &&& !matches_at(s, quot_entity(), i)
            &&& !matches_at(s, apos_entity(), i)
        }
}

proof fn lemma_entity_shape(c: char)
    requires
        escaped_chars().contains(c),
    ensures
        entity_of(c).len() >= 4,
        entity_of(c)[0] == '&',
        forall|i: int| 1 <= i < entity_of(c).len() ==> #[trigger] entity_of(c)[i] != '&',
        forall|i: int| 0 <= i < entity_of(c).len() ==> !escaped_chars().contains(
            #[trigger] entity_of(c)[i],
        ) || entity_of(c)[i] == '&',
{
}

proof fn lemma_entities_differ(c: char, d: char)
    requires
        escaped_chars().contains(c),
        escaped_chars().contains(d),
        c != d,
    ensures
        entity_of(c)[1] != entity_of(d)[1],
{
}

/// Replacing in `x + y` where no character of `x` begins the pattern.
proof fn lemma_replace_past(x: Seq<char>, y: Seq<char>, p: Seq<char>, t: Seq<char>)
    requires
        p.len() > 0,
        forall|i: int| 0 <= i < x.len() ==> #[trigger] x[i] != p[0],
    ensures
        replace_all(x + y, p, t) == x + replace_all(y, p, t),
    decreases x.len(),
{
    let s = x + y;
    if x.len() == 0 {
        assert(s =~= y);
    } else {
        assert(s[0] == x[0]);
        assert(!starts_with(s, p)) by {
            if starts_with(s, p) {
                assert(s.take(p.len() as int)[0] == s[0]);
            }
        }
        assert(s.skip(1) =~= x.skip(1) + y);
        lemma_replace_past(x.skip(1), y, p, t);
        assert(seq![x[0]] + x.skip(1) =~= x);
    }
}

/// Replacing a pattern that does not occur changes nothing.
proof fn lemma_replace_absent(s: Seq<char>, p: Seq<char>, t: Seq<char>)
    requires
        p.len() > 0,
        forall|i: int| !matches_at(s, p, i),
    ensures
        replace_all(s, p, t) == s,
    decreases s.len(),
{
    if s.len() > 0 {
        assert(!starts_with(s, p)) by {
            if starts_with(s, p) {
                assert(s.subrange(0, p.len() as int) =~= s.take(p.len() as int));
                assert(matches_at(s, p, 0));
            }
        }
        let r = s.skip(1);
        assert forall|i: int| !matches_at(r, p, i) by {
            if matches_at(r, p, i) {
                assert(s.subrange(i + 1, i + 1 + p.len()) =~= r.subrange(i, i + p.len()));
                assert(matches_at(s, p, i + 1));
            }
        }
        lemma_replace_absent(r, p, t);
        assert(seq![s[0]] + r =~= s);
    }
}

proof fn lemma_rendered_nothing(s: Seq<char>)
    ensures
        rendered(s, Set::empty()) == s,
    decreases s.len(),
{
    if s.len() > 0 {
        lemma_rendered_nothing(s.drop_first());
        assert(seq![s[0]] + s.drop_first() =~= s);
    }
}

/// Writing one more character as its entity.
proof fn lemma_escape_step(s: Seq<char>, e: Set<char>, c: char)
    requires
        escaped_chars().contains(c),
        e.subset_of(escaped_chars()),
        !e.contains(c),
        c == '&' ==> e =~= Set::<char>::empty(),
    ensures
        replace_all(rendered(s, e), seq![c], entity_of(c)) == rendered(s, e.insert(c)),
    decreases s.len(),
{
    let p = seq![c];
    if s.len() > 0 {
        let rest = s.drop_first();
        let tk = token(s[0], e);
        assert(rendered(s, e) == tk + rendered(rest, e));
        lemma_escape_step(rest, e, c);
        if s[0] == c {
            assert(tk =~= p);
            let r = rendered(s, e);
            assert(r.take(1) =~= p);
            assert(r.skip(1) =~= rendered(rest, e));
        } else {
            if e.contains(s[0]) {
                lemma_entity_shape(s[0]);
            }
            assert forall|i: int| 0 <= i < tk.len() implies #[trigger] tk[i] != p[0] by {
                if e.contains(s[0]) {
                    assert(tk[i] == entity_of(s[0])[i]);
                }
            }
            lemma_replace_past(tk, rendered(rest, e), p, entity_of(c));
            assert(token(s[0], e.insert(c)) == tk);
        }
    }
}

/// A name attribute as written is its characters with `escaped_chars()`
/// as entities.
pub proof fn lemma_xml_escape_rendered(s: Seq<char>)
    ensures
        xml_escape(s) == rendered(s, escaped_chars()),
{
    reveal_strlit("&amp;");
    reveal_strlit("&quot;");
    reveal_strlit("&lt;");
    reveal_strlit("&gt;");
    assert("&amp;"@ =~= entity_of('&'));
    assert("&quot;"@ =~= entity_of('"'));
    assert("&lt;"@ =~= entity_of('<'));
    assert("&gt;"@ =~= entity_of('>'));
    let e0 = Set::<char>::empty();
    let e1 = e0.insert('&');
    let e2 = e1.insert('"');
    let e3 = e2.insert('<');
    let e4 = e3.insert('>');
    lemma_rendered_nothing(s);
    lemma_escape_step(s, e0, '&');
    lemma_escape_step(s, e1, '"');
    lemma_escape_step(s, e2, '<');
    lemma_escape_step(s, e3, '>');
    assert(e4 =~= escaped_chars());
}

/// A prefix of a rendering that holds no `&` is a prefix of the text.
proof fn lemma_rendered_prefix(t: Seq<char>, e: Set<char>, w: Seq<char>)
    requires
        e.subset_of(escaped_chars()),
        starts_with(rendered(t, e), w),
        forall|i: int| 0 <= i < w.len() ==> #[trigger] w[i] != '&',
    ensures
        starts_with(t, w),
    decreases w.len(),
{
    if w.len() > 0 {
        let r = rendered(t, e);
        assert(r.take(w.len() as int)[0] == r[0]);
        assert(t.len() > 0);
        let tk = token(t[0], e);
        assert(r == tk + rendered(t.drop_first(), e));
        if e.contains(t[0]) {
            lemma_entity_shape(t[0]);
            assert(r[0] == '&');
            assert(false);
        }
        assert(t[0] == w[0]);
        assert(r.skip(1) =~= rendered(t.drop_first(), e));
        assert(rendered(t.drop_first(), e).take(w.len() - 1) =~= w.drop_first()) by {
            assert forall|k: int| 0 <= k < w.len() - 1 implies rendered(
                t.drop_first(),
                e,
            ).take(w.len() - 1)[k] == w.drop_first()[k] by {
                assert(r.take(w.len() as int)[k + 1] == w[k + 1]);
            }
        }
        lemma_rendered_prefix(t.drop_first(), e, w.drop_first());
        assert(w.len() <= t.len());
        assert(t.take(w.len() as int) =~= w) by {
            assert forall|k: int| 0 <= k < w.len() implies t.take(w.len() as int)[k] == w[k] by {
                if k > 0 {
                    assert(t.drop_first().take(w.len() - 1)[k - 1] == w.drop_first()[k - 1]);
                }
            }
        }
    } else {
        assert(t.take(0) =~= w);
    }
}

/// Reading one entity back as its character.
proof fn lemma_unescape_step(s: Seq<char>, e: Set<char>, c: char)
    requires
        e.subset_of(escaped_chars()),
        e.contains(c),
        !e.contains('&') ==> forall|i: int| !matches_at(s, entity_of(c), i),
    ensures
        replace_all(rendered(s, e), entity_of(c), seq![c]) == rendered(s, e.remove(c)),
    decreases s.len(),
{
    let p = entity_of(c);
    lemma_entity_shape(c);
    if s.len() > 0 {
        let rest = s.drop_first();
        let tk = token(s[0], e);
        let r = rendered(s, e);
        assert(r == tk + rendered(rest, e));
        assert(!e.contains('&') ==> forall|i: int| !matches_at(rest, p, i)) by {
            if !e.contains('&') {
                assert forall|i: int| !matches_at(rest, p, i) by {
                    if matches_at(rest, p, i) {
                        assert(s.subrange(i + 1, i + 1 + p.len()) =~= rest.subrange(i, i + p.len()));
                        assert(matches_at(s, p, i + 1));
                    }
                }
            }
        }
        lemma_unescape_step(rest, e, c);
        if s[0] == c {
            assert(tk == p);
            assert(r.take(p.len() as int) =~= p);
            assert(r.skip(p.len() as int) =~= rendered(rest, e));
            assert(token(s[0], e.remove(c)) =~= seq![c]);
        } else if e.contains(s[0]) {
            lemma_entity_shape(s[0]);
            lemma_entities_differ(s[0], c);
            assert(!starts_with(r, p)) by {
                if starts_with(r, p) {
                    assert(r.take(p.len() as int)[1] == r[1]);
                    assert(r[1] == tk[1]);
                }
            }
            let tail = tk.skip(1);
            assert forall|i: int| 0 <= i < tail.len() implies #[trigger] tail[i] != p[0] by {
                assert(tail[i] == tk[i + 1]);
            }
            assert(r.skip(1) =~= tail + rendered(rest, e));
            lemma_replace_past(tail, rendered(rest, e), p, seq![c]);
            assert(token(s[0], e.remove(c)) == tk);
            assert(seq![r[0]] + tail =~= tk);
        } else {
            assert(tk =~= seq![s[0]]);
            assert(!starts_with(r, p)) by {
                if starts_with(r, p) {
                    assert(r.take(p.len() as int)[0] == r[0]);
                    if s[0] == '&' {
                        let w = p.drop_first();
                        assert forall|i: int| 0 <= i < w.len() implies #[trigger] w[i] != '&' by {
                            assert(w[i] == p[i + 1]);
                        }
                        assert(r.skip(1) =~= rendered(rest, e));
                        assert(rendered(rest, e).take(w.len() as int) =~= w) by {
                            assert forall|k: int| 0 <= k < w.len() implies rendered(
                                rest,
                                e,
                            ).take(w.len() as int)[k] == w[k] by {
                                assert(r.take(p.len() as int)[k + 1] == p[k + 1]);
                            }
                        }
                        lemma_rendered_prefix(rest, e, w);
                        assert(s.subrange(0, p.len() as int) =~= p) by {
                            assert forall|k: int| 0 <= k < p.len() implies s.subrange(
                                0,
                                p.len() as int,
                            )[k] == p[k] by {
                                if k > 0 {
                                    assert(rest.take(w.len() as int)[k - 1] == w[k - 1]);
                                }
                            }
                        }
                        assert(matches_at(s, p, 0));
                    }
                }
            }
            assert(r.skip(1) =~= rendered(rest, e));
            assert(token(s[0], e.remove(c)) == tk);
        }
    }
}

/// A name written as an attribute value reads back as itself, unless it
/// holds an entity text other than `&amp;`.
pub proof fn lemma_unescape_xml_escape(s: Seq<char>)
    requires
        free_of_entities(s),
    ensures
        unescape(xml_escape(s)) == s,
{
    lemma_xml_escape_rendered(s);
    let e4 = escaped_chars();
    let e3 = e4.remove('&');
    let e2 = e3.remove('<');
    let e1 = e2.remove('>');
    let e0 = e1.remove('"');
    assert(entity_of('&') == amp_entity());
    assert(entity_of('<') == lt_entity());
    assert(entity_of('>') == gt_entity());
    assert(entity_of('"') == quot_entity());
    lemma_unescape_step(s, e4, '&');
    lemma_unescape_step(s, e3, '<');
    lemma_unescape_step(s, e2, '>');
    lemma_unescape_step(s, e1, '"');
    assert(e0 =~= Set::<char>::empty());
    lemma_rendered_nothing(s);
    assert(forall|i: int| !matches_at(s, apos_entity(), i));
    lemma_replace_absent(s, apos_entity(), seq!['\'']);
}

/// A rendering with no `&` in it is the text itself.
proof fn lemma_rendered_plain(s: Seq<char>, e: Set<char>)
    requires
        e.subset_of(escaped_chars()),
        forall|i: int| 0 <= i < rendered(s, e).len() ==> #[trigger] rendered(s, e)[i] != '&',
    ensures
        rendered(s, e) == s,
    decreases s.len(),
{
    if s.len() > 0 {
        let r = rendered(s, e);
        let tk = token(s[0], e);
        assert(r == tk + rendered(s.drop_first(), e));
        if e.contains(s[0]) {
            lemma_entity_shape(s[0]);
            assert(r[0] == '&');
        }
        assert forall|i: int|
            0 <= i < rendered(s.drop_first(), e).len() implies #[trigger] rendered(
            s.drop_first(),
            e,
        )[i] != '&' by {
            assert(r[i + 1] == rendered(s.drop_first(), e)[i]);
        }
        lemma_rendered_plain(s.drop_first(), e);
        assert(seq![s[0]] + s.drop_first() =~= s);
    }
}

/// Every quote of a written name is an entity.
proof fn lemma_rendered_no_quote(s: Seq<char>)
    ensures
        forall|i: int|
            0 <= i < rendered(s, escaped_chars()).len() ==> #[trigger] rendered(
                s,
                escaped_chars(),
            )[i] != '"',
    decreases s.len(),
{
    if s.len() > 0 {
        let e = escaped_chars();
        let r = rendered(s, e);
        let tk = token(s[0], e);
        assert(r == tk + rendered(s.drop_first(), e));
        lemma_rendered_no_quote(s.drop_first());
        if e.contains(s[0]) {
            lemma_entity_shape(s[0]);
        }
        assert forall|i: int| 0 <= i < r.len() implies #[trigger] r[i] != '"' by {
            if i < tk.len() {
                if e.contains(s[0]) {
                    assert(r[i] == entity_of(s[0])[i]);
                }
            } else {
                assert(r[i] == rendered(s.drop_first(), e)[i - tk.len()]);
            }
        }
    }
}

/// Text without `&` reads back as itself.
proof fn lemma_unescape_plain(v: Seq<char>)
    requires
        forall|i: int| 0 <= i < v.len() ==> #[trigger] v[i] != '&',
    ensures
        unescape(v) == v,
{
    let em = Seq::<char>::empty();
    assert(v + em =~= v);
    assert(replace_all(em, amp_entity(), seq!['&']) == em);
    lemma_replace_past(v, em, amp_entity(), seq!['&']);
    lemma_replace_past(v, em, lt_entity(), seq!['<']);
    assert(replace_all(em, lt_entity(), seq!['<']) == em);
    lemma_replace_past(v, em, gt_entity(), seq!['>']);
    assert(replace_all(em, gt_entity(), seq!['>']) == em);
    lemma_replace_past(v, em, quot_entity(), seq!['"']);
    assert(replace_all(em, quot_entity(), seq!['"']) == em);
    lemma_replace_past(v, em, apos_entity(), seq!['\'']);
    assert(replace_all(em, apos_entity(), seq!['\'']) == em);
}

/// `<card number="`
pub open spec fn card_number_open() -> Seq<char> {
    seq!['<', 'c', 'a', 'r', 'd', ' ', 'n', 'u', 'm', 'b', 'e', 'r', '=', '"']
}

/// `" name="`
pub open spec fn name_open() -> Seq<char> {
    seq!['"', ' ', 'n', 'a', 'm', 'e', '=', '"']
}

/// `"/>`
pub open spec fn card_close() -> Seq<char> {
    seq!['"', '/', '>']
}

/// The text of a card line without its indentation and line break.
pub open spec fn card_core(name: Seq<char>, quantity: u32) -> Seq<char> {
    card_number_open() + decimal(quantity as nat) + name_open() + xml_escape(name) + card_close()
}

/// Where each character of a card line comes from.
proof fn lemma_core_index(name: Seq<char>, q: u32, j: int)
    requires
        0 <= j < card_core(name, q).len(),
    ensures
        ({
            let c = card_core(name, q);
            let d = decimal(q as nat).len() as int;
            let e = xml_escape(name);
            let m = e.len() as int;
            &&& c.len() == 25 + d + m
            &&& j < 14 ==> c[j] == card_number_open()[j]
            &&& 14 <= j < 14 + d ==> c[j] == decimal(q as nat)[j - 14]
            &&& 14 + d <= j < 22 + d ==> c[j] == name_open()[j - 14 - d]
            &&& 22 + d <= j < 22 + d + m ==> c[j] == e[j - 22 - d]
            &&& 22 + d + m <= j ==> c[j] == card_close()[j - 22 - d - m]
        }),
{
}

proof fn lemma_match_char(s: Seq<char>, p: Seq<char>, i: int, k: int)
    requires
        matches_at(s, p, i),
        0 <= k < p.len(),
    ensures
        s[i + k] == p[k],
{
    assert(s.subrange(i, i + p.len())[k] == s[i + k]);
}

proof fn lemma_find_is(s: Seq<char>, p: Seq<char>, k: int)
    requires
        matches_at(s, p, k),
        forall|j: int| 0 <= j < k ==> !matches_at(s, p, j),
    ensures
        find(s, p) == Some(k),
{
    lemma_find_facts(s, p);
}

proof fn lemma_digits_plain(q: u32)
    ensures
        decimal(q as nat).len() > 0,
        forall|i: int|
            0 <= i < decimal(q as nat).len() ==> {
                let c = #[trigger] decimal(q as nat)[i];
                &&& '0' <= c <= '9'
            },
{
    lemma_decimal_digits(q as nat);
}

/// Indentation of eight spaces.
pub open spec fn indent() -> Seq<char> {
    seq![' ', ' ', ' ', ' ', ' ', ' ', ' ', ' ']
}

proof fn lemma_core_trim(name: Seq<char>, q: u32)
    ensures
        trim(indent() + card_core(name, q)) == card_core(name, q),
{
    let c = card_core(name, q);
    let s = indent() + c;
    lemma_core_index(name, q, 0);
    lemma_core_index(name, q, c.len() - 1);
    assert forall|k: int| 0 <= k < 8 implies is_ws(#[trigger] s[k]) by {
        assert(s[k] == ' ');
    }
    lemma_trim_start_skip(s, 8);
    assert(s.skip(8) =~= c);
    assert(!is_ws(c[0]));
    assert(trim_start(c) == c);
    assert(!is_ws(c.last()));
    assert(trim_end(c) == c);
}

/// The `number` attribute of a card line is the quantity's digits.
proof fn lemma_core_number(name: Seq<char>, q: u32)
    ensures
        extract_attr_spec(card_core(name, q), number_attr()) == Some(decimal(q as nat)),
{
    let c = card_core(name, q);
    let d = decimal(q as nat);
    let pat = number_attr() + seq!['=', '"'];
    lemma_digits_plain(q);
    lemma_core_index(name, q, 0);
    assert(c.subrange(6, 14) =~= pat) by {
        assert forall|k: int| 0 <= k < 8 implies c.subrange(6, 14)[k] == pat[k] by {
            lemma_core_index(name, q, 6 + k);
        }
    }
    assert forall|j: int| 0 <= j < 6 implies !matches_at(c, pat, j) by {
        if matches_at(c, pat, j) {
            lemma_match_char(c, pat, j, 0);
            lemma_core_index(name, q, j);
        }
    }
    lemma_find_is(c, pat, 6);
    let rest = c.skip(14);
    let quote = seq!['"'];
    assert(rest.subrange(d.len() as int, d.len() + 1int) =~= quote) by {
        lemma_core_index(name, q, 14 + d.len() as int);
    }
    assert forall|j: int| 0 <= j < d.len() implies !matches_at(rest, quote, j) by {
        if matches_at(rest, quote, j) {
            lemma_match_char(rest, quote, j, 0);
            lemma_core_index(name, q, 14 + j);
            assert(d[j] != '"');
        }
    }
    lemma_find_is(rest, quote, d.len() as int);
    assert(rest.take(d.len() as int) =~= d) by {
        assert forall|k: int| 0 <= k < d.len() implies rest.take(d.len() as int)[k] == d[k] by {
            lemma_core_index(name, q, 14 + k);
        }
    }
    assert forall|i: int| 0 <= i < d.len() implies #[trigger] d[i] != '&' by {}
    lemma_unescape_plain(d);
}

/// The `name` attribute of a card line is the written name, read back.
proof fn lemma_core_name(name: Seq<char>, q: u32)
    ensures
        extract_attr_spec(card_core(name, q), name_attr()) == Some(unescape(xml_escape(name))),
{
    let c = card_core(name, q);
    let d = decimal(q as nat);
    let dl = d.len() as int;
    let e = xml_escape(name);
    let pat = name_attr() + seq!['=', '"'];
    lemma_digits_plain(q);
    lemma_xml_escape_rendered(name);
    lemma_rendered_no_quote(name);
    lemma_core_index(name, q, 0);
    assert(c.subrange(16 + dl, 22 + dl) =~= pat) by {
        assert forall|k: int| 0 <= k < 6 implies c.subrange(16 + dl, 22 + dl)[k] == pat[k] by {
            lemma_core_index(name, q, 16 + dl + k);
        }
    }
    assert forall|j: int| 0 <= j < 16 + dl implies !matches_at(c, pat, j) by {
        if matches_at(c, pat, j) {
            lemma_match_char(c, pat, j, 0);
            lemma_match_char(c, pat, j, 1);
            lemma_core_index(name, q, j);
            lemma_core_index(name, q, j + 1);
            if 14 <= j < 14 + dl {
                assert(d[j - 14] != 'n');
            }
        }
    }
    lemma_find_is(c, pat, 16 + dl);
    let rest = c.skip(22 + dl);
    let quote = seq!['"'];
    assert(rest.subrange(e.len() as int, e.len() + 1int) =~= quote) by {
        lemma_core_index(name, q, 22 + dl + e.len() as int);
    }
    assert forall|j: int| 0 <= j < e.len() implies !matches_at(rest, quote, j) by {
        if matches_at(rest, quote, j) {
            lemma_match_char(rest, quote, j, 0);
            lemma_core_index(name, q, 22 + dl + j);
        }
    }
    lemma_find_is(rest, quote, e.len() as int);
    assert(rest.take(e.len() as int) =~= e) by {
        assert forall|k: int| 0 <= k < e.len() implies rest.take(e.len() as int)[k] == e[k] by {
            lemma_core_index(name, q, 22 + dl + k);
        }
    }
}

/// A card line names the side zone only when the card is named after it.
proof fn lemma_core_zone(name: Seq<char>, q: u32, z: Seq<char>, word: Seq<char>)
    requires
        z == seq!['n', 'a', 'm', 'e', '=', '"'] + word + seq!['"'],
        word.len() >= 1,
        forall|i: int| 0 <= i < word.len() ==> {
            let w = #[trigger] word[i];
            w != '"' && w != '&'
        },
        contains(card_core(name, q), z),
    ensures
        name == word,
{
    let c = card_core(name, q);
    let d = decimal(q as nat);
    let dl = d.len() as int;
    let e = xml_escape(name);
    let m = e.len() as int;
    let wl = word.len() as int;
    lemma_digits_plain(q);
    lemma_xml_escape_rendered(name);
    lemma_rendered_no_quote(name);
    lemma_core_index(name, q, 0);
    lemma_find_facts(c, z);
    let k = find(c, z)->0;
    assert(matches_at(c, z, k));
    lemma_match_char(c, z, k, 0);
    lemma_match_char(c, z, k, 1);
    lemma_match_char(c, z, k, 5);
    lemma_match_char(c, z, k, 6 + wl);
    lemma_core_index(name, q, k);
    lemma_core_index(name, q, k + 1);
    lemma_core_index(name, q, k + 5);
    lemma_core_index(name, q, k + 6 + wl);
    if 14 <= k < 14 + dl {
        assert(d[k - 14] != 'n');
    }
    if 22 + dl <= k + 5 < 22 + dl + m {
        assert(e[k + 5 - 22 - dl] != '"');
    }
    if 22 + dl <= k + 6 + wl < 22 + dl + m {
        assert(e[k + 6 + wl - 22 - dl] != '"');
    }
    assert(k == 16 + dl);
    assert(m == wl);
    assert(e =~= word) by {
        assert forall|i: int| 0 <= i < wl implies e[i] == word[i] by {
            lemma_match_char(c, z, k, 6 + i);
            lemma_core_index(name, q, k + 6 + i);
        }
    }
    lemma_rendered_plain(name, escaped_chars());
}

/// The entry that a card line adds.
pub open spec fn card_entry(name: Seq<char>, quantity: u32) -> EntryView {
    EntryView { quantity, card_name: name, set_code: None, collector_number: None }
}

/// The names that read back as written: no line break (it would split the
/// line), no entity text other than `&amp;`, and not `side` or `sb` (a
/// line naming either switches to the sideboard).
pub open spec fn reads_back(name: Seq<char>) -> bool {
    &&& forall|i: int| 0 <= i < name.len() ==> #[trigger] name[i] != '\n'
    &&& free_of_entities(name)
    &&& name != seq!['s', 'i', 'd', 'e']
    &&& name != seq!['s', 'b']
}

/// Reading one card line while in the main zone adds its card there.
proof fn lemma_card_step(st: SectionState, name: Seq<char>, q: u32)
    requires
        !st.in_sideboard,
        reads_back(name),
    ensures
        cod_step(st, indent() + card_core(name, q)) == Ok::<SectionState, DeckErrorView>(
            SectionState {
                mainboard: st.mainboard.push(card_entry(name, q)),
                sideboard: st.sideboard,
                in_sideboard: false,
            },
        ),
{
    let c = card_core(name, q);
    lemma_core_trim(name, q);
    let qt = seq!['"'];
    let head = seq!['n', 'a', 'm', 'e', '=', '"'];
    assert(side_zone() =~= head + seq!['s', 'i', 'd', 'e'] + qt);
    assert(sb_zone() =~= head + seq!['s', 'b'] + qt);
    if contains(c, side_zone()) {
        lemma_core_zone(name, q, side_zone(), seq!['s', 'i', 'd', 'e']);
    }
    if contains(c, sb_zone()) {
        lemma_core_zone(name, q, sb_zone(), seq!['s', 'b']);
    }
    assert(c.take(6) =~= card_open()) by {
        assert forall|k: int| 0 <= k < 6 implies c.take(6)[k] == card_open()[k] by {
            lemma_core_index(name, q, k);
        }
    }
    assert(starts_with(c, card_open()));
    lemma_core_name(name, q);
    lemma_unescape_xml_escape(name);
    lemma_core_number(name, q);
    lemma_parse_decimal(q);
    assert(card_quantity(extract_attr_spec(c, number_attr())) == q);
}

/// The first line of `x + '\n' + y` is `x`.
proof fn lemma_first_line(x: Seq<char>, y: Seq<char>)
    requires
        forall|i: int| 0 <= i < x.len() ==> #[trigger] x[i] != '\n',
        x.len() > 0 ==> x.last() != '\r',
    ensures
        lines(x + seq!['\n'] + y) == seq![x] + lines(y),
{
    let s = x + seq!['\n'] + y;
    assert forall|k: int| 0 <= k < x.len() implies s[k] != '\n' by {
        assert(s[k] == x[k]);
    }
    lemma_first_newline(s, 0, x.len() as int);
    assert(s.skip(0) =~= s);
    assert(s.take(x.len() as int) =~= x);
    assert(strip_cr(x) == x);
    assert(s.skip(x.len() + 1int) =~= y);
}

/// A written name has no line break when the name has none.
proof fn lemma_rendered_no_newline(s: Seq<char>)
    requires
        forall|i: int| 0 <= i < s.len() ==> #[trigger] s[i] != '\n',
    ensures
        forall|i: int|
            0 <= i < rendered(s, escaped_chars()).len() ==> #[trigger] rendered(
                s,
                escaped_chars(),
            )[i] != '\n',
    decreases s.len(),
{
    if s.len() > 0 {
        let e = escaped_chars();
        let r = rendered(s, e);
        let tk = token(s[0], e);
        assert(r == tk + rendered(s.drop_first(), e));
        assert forall|i: int| 0 <= i < s.drop_first().len() implies #[trigger] s.drop_first()[i]
            != '\n' by {
            assert(s.drop_first()[i] == s[i + 1]);
        }
        lemma_rendered_no_newline(s.drop_first());
        assert forall|i: int| 0 <= i < r.len() implies #[trigger] r[i] != '\n' by {
            if i < tk.len() {
                if e.contains(s[0]) {
                    assert(r[i] == entity_of(s[0])[i]);
                }
            } else {
                assert(r[i] == rendered(s.drop_first(), e)[i - tk.len()]);
            }
        }
    }
}

/// The text of the line written for a card.
pub open spec fn card_text(c: (Card, u32)) -> Seq<char> {
    indent() + card_core(c.0.name@, c.1)
}

proof fn lemma_card_line_text(name: Seq<char>, q: u32)
    requires
        forall|i: int| 0 <= i < name.len() ==> #[trigger] name[i] != '\n',
    ensures
        cod_card_line(name, q) == indent() + card_core(name, q) + seq!['\n'],
        forall|i: int|
            0 <= i < (indent() + card_core(name, q)).len() ==> #[trigger] (indent() + card_core(
                name,
                q,
            ))[i] != '\n',
        (indent() + card_core(name, q)).last() != '\r',
{
    reveal_strlit("        <card number=\"");
    reveal_strlit("\" name=\"");
    reveal_strlit("\"/>\n");
    assert(cod_card_line(name, q) =~= indent() + card_core(name, q) + seq!['\n']);
    let t = indent() + card_core(name, q);
    let c = card_core(name, q);
    lemma_digits_plain(q);
    lemma_xml_escape_rendered(name);
    lemma_rendered_no_newline(name);
    assert forall|i: int| 0 <= i < t.len() implies #[trigger] t[i] != '\n' by {
        if i >= 8 {
            assert(t[i] == c[i - 8]);
            lemma_core_index(name, q, i - 8);
            let d = decimal(q as nat);
            if 14 <= i - 8 < 14 + d.len() {
                assert(d[i - 8 - 14] != '\n');
            }
        }
    }
    lemma_core_index(name, q, c.len() - 1);
}

/// The lines of the card lines, followed by more text.
proof fn lemma_card_block_lines(cards: Seq<(Card, u32)>, y: Seq<char>)
    requires
        forall|i: int| 0 <= i < cards.len() ==> reads_back(#[trigger] cards[i].0.name@),
    ensures
        lines(cod_card_lines(cards) + y) == cards.map_values(|c: (Card, u32)| card_text(c))
            + lines(y),
    decreases cards.len(),
{
    if cards.len() == 0 {
        assert(cod_card_lines(cards) + y =~= y);
        assert(cards.map_values(|c: (Card, u32)| card_text(c)) =~= Seq::<Seq<char>>::empty());
        assert(Seq::<Seq<char>>::empty() + lines(y) =~= lines(y));
    } else {
        let init = cards.drop_last();
        let last = cards.last();
        let b = cod_card_line(last.0.name@, last.1);
        assert(reads_back(cards[cards.len() - 1].0.name@));
        lemma_card_line_text(last.0.name@, last.1);
        assert forall|i: int| 0 <= i < init.len() implies reads_back(#[trigger] init[i].0.name@) by {
            assert(init[i] == cards[i]);
        }
        lemma_card_block_lines(init, b + y);
        assert(cod_card_lines(cards) + y =~= cod_card_lines(init) + (b + y));
        assert(b + y =~= card_text(last) + seq!['\n'] + y);
        lemma_first_line(card_text(last), y);
        assert(cards.map_values(|c: (Card, u32)| card_text(c)) =~= init.map_values(
            |c: (Card, u32)| card_text(c),
        ).push(card_text(last)));
        assert(init.map_values(|c: (Card, u32)| card_text(c)) + (seq![card_text(last)] + lines(y))
            =~= init.map_values(|c: (Card, u32)| card_text(c)).push(card_text(last)) + lines(y));
    }
}

/// The run of `cod_step` over `ls` from the result `r`.
pub open spec fn cod_from(
    r: Result<SectionState, DeckErrorView>,
    ls: Seq<Seq<char>>,
) -> Result<SectionState, DeckErrorView>
    decreases ls.len(),
{
    if ls.len() == 0 {
        r
    } else {
        match cod_from(r, ls.drop_last()) {
            Ok(st) => cod_step(st, ls.last()),
            Err(e) => Err(e),
        }
    }
}

proof fn lemma_cod_run_from(ls: Seq<Seq<char>>)
    ensures
        cod_run(ls) == cod_from(Ok(empty_state()), ls),
    decreases ls.len(),
{
    if ls.len() > 0 {
        lemma_cod_run_from(ls.drop_last());
    }
}

proof fn lemma_cod_from_append(
    r: Result<SectionState, DeckErrorView>,
    a: Seq<Seq<char>>,
    b: Seq<Seq<char>>,
)
    ensures
        cod_from(r, a + b) == cod_from(cod_from(r, a), b),
    decreases b.len(),
{
    if b.len() == 0 {
        assert(a + b =~= a);
    } else {
        assert((a + b).drop_last() =~= a + b.drop_last());
        assert((a + b).last() == b.last());
        lemma_cod_from_append(r, a, b.drop_last());
    }
}

/// Lines that are no card lines leave the entries as they are.
proof fn lemma_plain_lines(st: SectionState, ls: Seq<Seq<char>>)
    requires
        forall|i: int| 0 <= i < ls.len() ==> !starts_with(trim(#[trigger] ls[i]), card_open()),
    ensures
        cod_from(Ok(st), ls) is Ok,
        cod_from(Ok(st), ls)->Ok_0.mainboard == st.mainboard,
        cod_from(Ok(st), ls)->Ok_0.sideboard == st.sideboard,
    decreases ls.len(),
{
    if ls.len() > 0 {
        assert forall|i: int| 0 <= i < ls.drop_last().len() implies !starts_with(
            trim(#[trigger] ls.drop_last()[i]),
            card_open(),
        ) by {
            assert(ls.drop_last()[i] == ls[i]);
        }
        lemma_plain_lines(st, ls.drop_last());
        assert(!starts_with(trim(ls[ls.len() - 1]), card_open()));
    }
}

/// Reading the card lines in the main zone adds their cards there.
proof fn lemma_card_lines_run(st: SectionState, cards: Seq<(Card, u32)>)
    requires
        !st.in_sideboard,
        forall|i: int| 0 <= i < cards.len() ==> reads_back(#[trigger] cards[i].0.name@),
    ensures
        cod_from(Ok(st), cards.map_values(|c: (Card, u32)| card_text(c))) == Ok::<
            SectionState,
            DeckErrorView,
        >(
            SectionState {
                mainboard: st.mainboard + cards.map_values(
                    |c: (Card, u32)| card_entry(c.0.name@, c.1),
                ),
                sideboard: st.sideboard,
                in_sideboard: false,
            },
        ),
    decreases cards.len(),
{
    let ts = cards.map_values(|c: (Card, u32)| card_text(c));
    let es = cards.map_values(|c: (Card, u32)| card_entry(c.0.name@, c.1));
    if cards.len() == 0 {
        assert(st.mainboard + es =~= st.mainboard);
    } else {
        let init = cards.drop_last();
        let last = cards.last();
        assert forall|i: int| 0 <= i < init.len() implies reads_back(#[trigger] init[i].0.name@) by {
            assert(init[i] == cards[i]);
        }
        lemma_card_lines_run(st, init);
        assert(ts.drop_last() =~= init.map_values(|c: (Card, u32)| card_text(c)));
        assert(ts.last() == card_text(last));
        assert(reads_back(cards[cards.len() - 1].0.name@));
        let st1 = SectionState {
            mainboard: st.mainboard + init.map_values(|c: (Card, u32)| card_entry(c.0.name@, c.1)),
            sideboard: st.sideboard,
            in_sideboard: false,
        };
        lemma_card_step(st1, last.0.name@, last.1);
        assert(st1.mainboard.push(card_entry(last.0.name@, last.1)) =~= st.mainboard + es);
    }
}

/// The header's lines, without their line breaks.
pub open spec fn header_texts() -> Seq<Seq<char>> {
    seq![
        "<?xml version=\"1.0\" encoding=\"UTF-8\"?>\n"@.drop_last(),
        "<cockatrice_deck version=\"1\">\n"@.drop_last(),
        "    <deckname>Magic Greyscale Master</deckname>\n"@.drop_last(),
        "    <comments>Generated by magic_greyscale</comments>\n"@.drop_last(),
        "    <zone name=\"main\">\n"@.drop_last(),
    ]
}

/// The footer's lines, without their line breaks.
pub open spec fn footer_texts() -> Seq<Seq<char>> {
    seq!["    </zone>\n"@.drop_last(), "</cockatrice_deck>\n"@.drop_last()]
}

proof fn lemma_line_of_literal(l: Seq<char>, y: Seq<char>)
    requires
        l.len() > 1,
        l.last() == '\n',
        forall|i: int| 0 <= i < l.len() - 1 ==> #[trigger] l[i] != '\n',
        l[l.len() - 2] != '\r',
    ensures
        lines(l + y) == seq![l.drop_last()] + lines(y),
{
    let t = l.drop_last();
    assert forall|i: int| 0 <= i < t.len() implies #[trigger] t[i] != '\n' by {
        assert(t[i] == l[i]);
    }
    assert(l =~= t + seq!['\n']);
    lemma_first_line(t, y);
}

proof fn lemma_header_lines(y: Seq<char>)
    ensures
        lines(cod_header() + y) == header_texts() + lines(y),
{
    let l1 = "<?xml version=\"1.0\" encoding=\"UTF-8\"?>\n"@;
    let l2 = "<cockatrice_deck version=\"1\">\n"@;
    let l3 = "    <deckname>Magic Greyscale Master</deckname>\n"@;
    let l4 = "    <comments>Generated by magic_greyscale</comments>\n"@;
    let l5 = "    <zone name=\"main\">\n"@;
    reveal_strlit("<?xml version=\"1.0\" encoding=\"UTF-8\"?>\n");
    reveal_strlit("<cockatrice_deck version=\"1\">\n");
    reveal_strlit("    <deckname>Magic Greyscale Master</deckname>\n");
    reveal_strlit("    <comments>Generated by magic_greyscale</comments>\n");
    reveal_strlit("    <zone name=\"main\">\n");
    assert(cod_header() + y =~= l1 + (l2 + (l3 + (l4 + (l5 + y)))));
    lemma_line_of_literal(l5, y);
    lemma_line_of_literal(l4, l5 + y);
    lemma_line_of_literal(l3, l4 + (l5 + y));
    lemma_line_of_literal(l2, l3 + (l4 + (l5 + y)));
    lemma_line_of_literal(l1, l2 + (l3 + (l4 + (l5 + y))));
    assert(header_texts() + lines(y) =~= seq![l1.drop_last()] + (seq![l2.drop_last()] + (seq![
        l3.drop_last(),
    ] + (seq![l4.drop_last()] + (seq![l5.drop_last()] + lines(y))))));
}

proof fn lemma_footer_lines()
    ensures
        lines(cod_footer()) == footer_texts(),
{
    let l1 = "    </zone>\n"@;
    let l2 = "</cockatrice_deck>\n"@;
    reveal_strlit("    </zone>\n");
    reveal_strlit("</cockatrice_deck>\n");
    let em = Seq::<char>::empty();
    assert(cod_footer() =~= l1 + (l2 + em));
    lemma_line_of_literal(l2, em);
    lemma_line_of_literal(l1, l2 + em);
    assert(lines(em) =~= Seq::<Seq<char>>::empty());
    assert(footer_texts() =~= seq![l1.drop_last()] + (seq![l2.drop_last()] + lines(em)));
}

/// A line of `n` leading blanks and then a tag other than `<card `.
proof fn lemma_not_card(t: Seq<char>, n: int)
    requires
        0 <= n,
        n + 2 < t.len(),
        forall|k: int| 0 <= k < n ==> is_ws(#[trigger] t[k]),
        !is_ws(t[n]),
        !is_ws(t.last()),
        t[n + 1] != 'c' || t[n + 2] != 'a',
    ensures
        trim(t) == t.skip(n),
        !starts_with(trim(t), card_open()),
{
    lemma_trim_start_skip(t, n);
    let z = t.skip(n);
    assert(z[0] == t[n]);
    assert(trim_start(z) == z);
    assert(z.last() == t.last());
    assert(trim_end(z) == z);
    if starts_with(z, card_open()) {
        assert(z.take(6)[1] == z[1]);
        assert(z.take(6)[2] == z[2]);
    }
}

/// After the header the main zone is open and no card has been read.
proof fn lemma_header_run()
    ensures
        cod_from(Ok(empty_state()), header_texts()) == Ok::<SectionState, DeckErrorView>(
            empty_state(),
        ),
{
    reveal_strlit("<?xml version=\"1.0\" encoding=\"UTF-8\"?>\n");
    reveal_strlit("<cockatrice_deck version=\"1\">\n");
    reveal_strlit("    <deckname>Magic Greyscale Master</deckname>\n");
    reveal_strlit("    <comments>Generated by magic_greyscale</comments>\n");
    reveal_strlit("    <zone name=\"main\">\n");
    let h = header_texts();
    lemma_not_card(h[0], 0);
    lemma_not_card(h[1], 0);
    lemma_not_card(h[2], 4);
    lemma_not_card(h[3], 4);
    lemma_not_card(h[4], 4);
    let h4 = h.drop_last();
    assert forall|i: int| 0 <= i < h4.len() implies !starts_with(trim(#[trigger] h4[i]), card_open()) by {
        assert(h4[i] == h[i]);
    }
    lemma_plain_lines(empty_state(), h4);
    let st4 = cod_from(Ok(empty_state()), h4)->Ok_0;
    let z = trim(h[4]);
    assert(z.len() == 18);
    assert(z.subrange(6, 17) =~= main_zone());
    assert(matches_at(z, main_zone(), 6));
    lemma_find_facts(z, main_zone());
    assert(contains(z, main_zone()));
    lemma_find_facts(z, side_zone());
    if contains(z, side_zone()) {
        let k = find(z, side_zone())->0;
        lemma_match_char(z, side_zone(), k, 0);
        lemma_match_char(z, side_zone(), k, 1);
        lemma_match_char(z, side_zone(), k, 6);
        assert(k == 0 || k == 1 || k == 2 || k == 3 || k == 4 || k == 5 || k == 6 || k == 7);
    }
    lemma_find_facts(z, sb_zone());
    if contains(z, sb_zone()) {
        let k = find(z, sb_zone())->0;
        lemma_match_char(z, sb_zone(), k, 0);
        lemma_match_char(z, sb_zone(), k, 1);
        lemma_match_char(z, sb_zone(), k, 6);
        assert(k == 0 || k == 1 || k == 2 || k == 3 || k == 4 || k == 5 || k == 6 || k == 7
            || k == 8 || k == 9);
    }
    assert(h.drop_last().len() == 4);
    assert(cod_step(st4, h[4]) == Ok::<SectionState, DeckErrorView>(
        SectionState { in_sideboard: false, ..st4 },
    ));
    assert(st4.mainboard =~= Seq::<EntryView>::empty());
    assert(st4.sideboard =~= Seq::<EntryView>::empty());
}

proof fn lemma_footer_plain()
    ensures
        forall|i: int|
            0 <= i < footer_texts().len() ==> !starts_with(
                trim(#[trigger] footer_texts()[i]),
                card_open(),
            ),
{
    reveal_strlit("    </zone>\n");
    reveal_strlit("</cockatrice_deck>\n");
    let f = footer_texts();
    lemma_not_card(f[0], 4);
    lemma_not_card(f[1], 0);
}

/// A Cockatrice file written for `cards` reads back as those cards with
/// their quantities, in the same order, all in the main deck, provided
/// each name reads back (`reads_back`).
pub proof fn lemma_cockatrice_roundtrip(cards: Seq<(Card, u32)>)
    requires
        forall|i: int| 0 <= i < cards.len() ==> reads_back(#[trigger] cards[i].0.name@),
    ensures
        parse_cockatrice_spec(cockatrice_document_spec(cards)) == Ok::<DeckView, DeckErrorView>(
            DeckView {
                mainboard: cards.map_values(|c: (Card, u32)| card_entry(c.0.name@, c.1)),
                sideboard: Seq::empty(),
            },
        ),
{
    let doc = cockatrice_document_spec(cards);
    let cl = cod_card_lines(cards);
    let ft = cod_footer();
    assert(doc =~= cod_header() + (cl + ft));
    lemma_header_lines(cl + ft);
    lemma_card_block_lines(cards, ft);
    lemma_footer_lines();
    let ts = cards.map_values(|c: (Card, u32)| card_text(c));
    let ls = header_texts() + (ts + footer_texts());
    assert(lines(doc) == ls);
    lemma_cod_run_from(ls);
    lemma_cod_from_append(Ok(empty_state()), header_texts(), ts + footer_texts());
    lemma_header_run();
    lemma_cod_from_append(Ok(empty_state()), ts, footer_texts());
    lemma_card_lines_run(empty_state(), cards);
    let es = cards.map_values(|c: (Card, u32)| card_entry(c.0.name@, c.1));
    let st1 = SectionState {
        mainboard: empty_state().mainboard + es,
        sideboard: empty_state().sideboard,
        in_sideboard: false,
    };
    lemma_footer_plain();
    lemma_plain_lines(st1, footer_texts());
    assert(empty_state().mainboard + es =~= es);
}

} // verus!
