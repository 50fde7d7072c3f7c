//! What the program writes out: Cockatrice deck files and image file names.
use vstd::prelude::*;

use crate::scryfall::models::Card;
use crate::text::{append_chars, chars_of, decimal, decimal_chars, replace_all, replace_exec, string_of};

verus! {

/// A card name as an XML attribute value: `&`, `"`, `<`, `>` written as
/// entities (`&` first).
pub open spec fn xml_escape(s: Seq<char>) -> Seq<char> {
    replace_all(
        replace_all(
            replace_all(replace_all(s, seq!['&'], "&amp;"@), seq!['"'], "&quot;"@),
            seq!['<'],
            "&lt;"@,
        ),
        seq!['>'],
        "&gt;"@,
    )
}

/// The first lines of a Cockatrice deck file, up to the opening of the main
/// zone, each with its line break.
pub open spec fn cod_header() -> Seq<char> {
    "<?xml version=\"1.0\" encoding=\"UTF-8\"?>\n"@ + "<cockatrice_deck version=\"1\">\n"@
        + "    <deckname>Magic Greyscale Master</deckname>\n"@
        + "    <comments>Generated by magic_greyscale</comments>\n"@ + "    <zone name=\"main\">\n"@
}

/// The last lines of a Cockatrice deck file.
pub open spec fn cod_footer() -> Seq<char> {
    "    </zone>\n"@ + "</cockatrice_deck>\n"@
}

/// The line of one card: `<card number="N" name="NAME"/>`, indented.
pub open spec fn cod_card_line(name: Seq<char>, quantity: u32) -> Seq<char> {
    "        <card number=\""@ + decimal(quantity as nat) + "\" name=\""@ + xml_escape(name)
        + "\"/>\n"@
}

/// The card lines of all cards, in order.
pub open spec fn cod_card_lines(cards: Seq<(Card, u32)>) -> Seq<char>
    decreases cards.len(),
{
    if cards.len() == 0 {
        Seq::empty()
    } else {
        cod_card_lines(cards.drop_last()) + cod_card_line(cards.last().0.name@, cards.last().1)
    }
}

/// A Cockatrice deck file holding the cards, all in the main zone.
pub open spec fn cockatrice_document_spec(cards: Seq<(Card, u32)>) -> Seq<char> {
    cod_header() + cod_card_lines(cards) + cod_footer()
}

fn escape_one(s: Vec<char>, c: char, entity: &str) -> (out: Vec<char>)
    ensures
        out@ == replace_all(s@, seq![c], entity@),
{
    let p = vec![c];
    assert(p@ =~= seq![c]);
    replace_exec(&s, &p, &chars_of(entity))
}

/// A card name as an XML attribute value.
pub fn xml_escape_exec(s: &str) -> (out: Vec<char>)
    ensures
        out@ == xml_escape(s@),
{
    let a = escape_one(chars_of(s), '&', "&amp;");
    let b = escape_one(a, '"', "&quot;");
    let c = escape_one(b, '<', "&lt;");
    escape_one(c, '>', "&gt;")
}

/// The text of a Cockatrice deck file with each card and its quantity in
/// the main zone.
pub fn cockatrice_document(cards: &Vec<(Card, u32)>) -> (doc: String)
    ensures
        doc@ == cockatrice_document_spec(cards@),
{
    let mut out = chars_of("<?xml version=\"1.0\" encoding=\"UTF-8\"?>\n");
    append_chars(&mut out, &chars_of("<cockatrice_deck version=\"1\">\n"));
    append_chars(&mut out, &chars_of("    <deckname>Magic Greyscale Master</deckname>\n"));
    append_chars(&mut out, &chars_of("    <comments>Generated by magic_greyscale</comments>\n"));
    append_chars(&mut out, &chars_of("    <zone name=\"main\">\n"));
    let ghost head = out@;
    proof {
        assert(head =~= cod_header());
        assert(cards@.take(0) =~= Seq::<(Card, u32)>::empty());
        assert(out@ =~= head + cod_card_lines(cards@.take(0)));
    }
    let mut i: usize = 0;
    while i < cards.len()
        invariant
            i <= cards.len(),
            head == cod_header(),
            out@ == head + cod_card_lines(cards@.take(i as int)),
        decreases cards.len() - i,
    {
        let ghost before = out@;
        append_chars(&mut out, &chars_of("        <card number=\""));
        append_chars(&mut out, &decimal_chars(cards[i].1 as u64));
        append_chars(&mut out, &chars_of("\" name=\""));
        append_chars(&mut out, &xml_escape_exec(cards[i].0.name.as_str()));
        append_chars(&mut out, &chars_of("\"/>\n"));
        proof {
            let t = cards@.take(i + 1);
            assert(t.drop_last() =~= cards@.take(i as int));
            assert(t.last() == cards@[i as int]);
            assert(out@ =~= before + cod_card_line(cards@[i as int].0.name@, cards@[i as int].1));
        }
        i += 1;
    }
    append_chars(&mut out, &chars_of("    </zone>\n"));
    append_chars(&mut out, &chars_of("</cockatrice_deck>\n"));
    proof {
        assert(cards@.take(cards.len() as int) =~= cards@);
        assert(out@ =~= cockatrice_document_spec(cards@));
    }
    string_of(&out)
}

// ------------------------------------------------------------------
// Image file names
// ------------------------------------------------------------------

/// Characters that file systems refuse in names.
pub open spec fn unsafe_in_file_name(c: char) -> bool {
    c == '/' || c == '\\' || c == ':' || c == '"' || c == '?' || c == '*' || c == '<' || c == '>'
        || c == '|'
}

/// A name with each character that file systems refuse replaced by `_`.
pub open spec fn sanitize(name: Seq<char>) -> Seq<char> {
    name.map_values(|c: char| if unsafe_in_file_name(c) { '_' } else { c })
}

/// The file an image is saved under: `{name}_{set}.png`, the name made safe.
pub open spec fn fetch_file_name_spec(name: Seq<char>, set: Seq<char>) -> Seq<char> {
    sanitize(name) + "_"@ + set + ".png"@
}

/// The file name for a card's image: `{name}_{set}.png`, with every
/// character of the name that file systems refuse (`/ \ : " ? * < > |`)
/// replaced by `_`.
pub fn fetch_file_name(name: &str, set: &str) -> (f: String)
    ensures
        f@ == fetch_file_name_spec(name@, set@),
        forall|i: int| 0 <= i < name@.len() ==> !unsafe_in_file_name(#[trigger] f@[i]),
{
    let n = chars_of(name);
    let mut out: Vec<char> = Vec::new();
    let mut i: usize = 0;
    while i < n.len()
        invariant
            i <= n.len(),
            n@ == name@,
            out@ == sanitize(n@.take(i as int)),
        decreases n.len() - i,
    {
        let c = n[i];
        let safe = if c == '/' || c == '\\' || c == ':' || c == '"' || c == '?' || c == '*' || c
            == '<' || c == '>' || c == '|' {
            '_'
        } else {
            c
        };
        out.push(safe);
        i += 1;
        assert(out@ =~= sanitize(n@.take(i as int)));
    }
    proof {
        assert(n@.take(n.len() as int) =~= n@);
    }
    let ghost sanitized = out@;
    append_chars(&mut out, &chars_of("_"));
    append_chars(&mut out, &chars_of(set));
    append_chars(&mut out, &chars_of(".png"));
    proof {
        assert(out@ =~= fetch_file_name_spec(name@, set@));
        assert forall|i: int| 0 <= i < name@.len() implies !unsafe_in_file_name(#[trigger] out@[i]) by {
            assert(out@[i] == sanitized[i]);
        }
    }
    string_of(&out)
}

} // verus!
