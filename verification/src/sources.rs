//! What a command-line source names: a deck file in one of two formats, a
//! search query, or a Pokemon set.
use vstd::prelude::*;

use crate::text::{
    chars_of, contains, contains_exec, copy_range, ends_with, ends_with_exec, starts_with,
    starts_with_exec, string_of, trim_start,
};

verus! {

/// A deck file is read as Cockatrice XML when its name ends in `.cod`, its
/// text (after leading whitespace) begins with `<?xml`, or its text holds
/// `<cockatrice_deck`; otherwise as MTG Arena text.
pub open spec fn is_cockatrice_spec(source: Seq<char>, content: Seq<char>) -> bool {
    ends_with(source, ".cod"@) || starts_with(trim_start(content), "<?xml"@) || contains(
        content,
        "<cockatrice_deck"@,
    )
}

proof fn lemma_trim_start_skip(s: Seq<char>, i: int)
    requires
        0 <= i <= s.len(),
        forall|k: int| 0 <= k < i ==> crate::text::is_ws(#[trigger] s[k]),
        i == s.len() || !crate::text::is_ws(s[i]),
    ensures
        trim_start(s) == s.skip(i),
    decreases i,
{
    if i > 0 {
        assert(crate::text::is_ws(s[0]));
        assert(s.skip(1) =~= s.drop_first());
        assert forall|k: int| 0 <= k < i - 1 implies crate::text::is_ws(#[trigger] s.skip(1)[k]) by {
            assert(s.skip(1)[k] == s[k + 1]);
        }
        if i < s.len() {
            assert(s.skip(1)[i - 1] == s[i]);
        }
        lemma_trim_start_skip(s.skip(1), i - 1);
        assert(s.skip(1).skip(i - 1) =~= s.skip(i));
    } else {
        assert(s.skip(0) =~= s);
        if s.len() > 0 {
            assert(!crate::text::is_ws(s[0]));
        }
    }
}

/// Whether a deck file (named `source`, holding `content`) is a Cockatrice
/// file rather than MTG Arena text.
pub fn is_cockatrice_text(source: &str, content: &str) -> (b: bool)
    ensures
        b == is_cockatrice_spec(source@, content@),
{
    let s = chars_of(source);
    let c = chars_of(content);
    if ends_with_exec(&s, &chars_of(".cod")) {
        return true;
    }
    let mut i: usize = 0;
    while i < c.len() && crate::text::char_is_ws(c[i])
        invariant
            i <= c.len(),
            forall|k: int| 0 <= k < i ==> crate::text::is_ws(#[trigger] c@[k]),
        decreases c.len() - i,
    {
        i += 1;
    }
    let rest = copy_range(&c, i, c.len());
    proof {
        lemma_trim_start_skip(c@, i as int);
        assert(rest@ =~= c@.skip(i as int));
    }
    starts_with_exec(&rest, &chars_of("<?xml")) || contains_exec(&c, &chars_of("<cockatrice_deck"))
}

/// A source that is neither a folder nor a file is a search query; a
/// leading `q:` is dropped.
pub open spec fn query_of_source_spec(source: Seq<char>) -> Seq<char> {
    if starts_with(source, seq!['q', ':']) {
        source.skip(2)
    } else {
        source
    }
}

/// The search query a source names.
pub fn query_of_source(source: &str) -> (q: String)
    ensures
        q@ == query_of_source_spec(source@),
{
    let s = chars_of(source);
    let prefix = vec!['q', ':'];
    assert(prefix@ =~= seq!['q', ':']);
    if starts_with_exec(&s, &prefix) {
        let rest = copy_range(&s, 2, s.len());
        assert(rest@ =~= source@.skip(2));
        string_of(&rest)
    } else {
        string_of(&s)
    }
}

/// A Pokemon source `set:ID` names the set `ID`; any other source is a
/// name to search for.
pub open spec fn pokemon_set_spec(source: Seq<char>) -> Option<Seq<char>> {
    if starts_with(source, seq!['s', 'e', 't', ':']) {
        Some(source.skip(4))
    } else {
        None
    }
}

/// The set a Pokemon source names, if it names one.
pub fn pokemon_set_of_source(source: &str) -> (r: Option<String>)
    ensures
        match (r, pokemon_set_spec(source@)) {
            (Some(a), Some(b)) => a@ == b,
            (None, None) => true,
            _ => false,
        },
{
    let s = chars_of(source);
    let prefix = vec!['s', 'e', 't', ':'];
    assert(prefix@ =~= seq!['s', 'e', 't', ':']);
    if starts_with_exec(&s, &prefix) {
        let rest = copy_range(&s, 4, s.len());
        assert(rest@ =~= source@.skip(4));
        Some(string_of(&rest))
    } else {
        None
    }
}

} // verus!
