//! The deck-list model that both parsers produce.
use vstd::prelude::*;

verus! {

/// One line of a deck list: how many copies of which card, and, where the
/// list names it, the printing (set code and collector number).
#[derive(Debug)]
pub struct DeckEntry {
    pub quantity: u32,
    pub card_name: String,
    pub set_code: Option<String>,
    pub collector_number: Option<String>,
}

/// A deck list: its main deck and its sideboard, each in list order.
#[derive(Debug)]
pub struct Deck {
    pub mainboard: Vec<DeckEntry>,
    pub sideboard: Vec<DeckEntry>,
}

/// A `DeckEntry` as plain values.
pub struct EntryView {
    pub quantity: u32,
    pub card_name: Seq<char>,
    pub set_code: Option<Seq<char>>,
    pub collector_number: Option<Seq<char>>,
}

/// A `Deck` as plain values.
pub struct DeckView {
    pub mainboard: Seq<EntryView>,
    pub sideboard: Seq<EntryView>,
}

/// The characters of an optional string.
pub open spec fn opt_chars(o: Option<String>) -> Option<Seq<char>> {
    match o {
        Some(s) => Some(s@),
        None => None,
    }
}

impl View for DeckEntry {
    type V = EntryView;

    open spec fn view(&self) -> EntryView {
        EntryView {
            quantity: self.quantity,
            card_name: self.card_name@,
            set_code: opt_chars(self.set_code),
            collector_number: opt_chars(self.collector_number),
        }
    }
}

/// The views of a sequence of entries.
pub open spec fn entries_view(v: Seq<DeckEntry>) -> Seq<EntryView> {
    v.map_values(|e: DeckEntry| e@)
}

impl View for Deck {
    type V = DeckView;

    open spec fn view(&self) -> DeckView {
        DeckView { mainboard: entries_view(self.mainboard@), sideboard: entries_view(self.sideboard@) }
    }
}

/// A copy of an optional string.
pub fn copy_opt_string(o: &Option<String>) -> (r: Option<String>)
    ensures
        opt_chars(r) == opt_chars(*o),
{
    match o {
        Some(s) => Some(s.clone()),
        None => None,
    }
}

impl DeckEntry {
    /// A copy of this entry.
    pub fn duplicate(&self) -> (r: DeckEntry)
        ensures
            r@ == self@,
    {
        DeckEntry {
            quantity: self.quantity,
            card_name: self.card_name.clone(),
            set_code: copy_opt_string(&self.set_code),
            collector_number: copy_opt_string(&self.collector_number),
        }
    }
}

} // verus!
