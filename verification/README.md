# magic_greyscale

Print sheets of trading-card proxies (Magic: The Gathering through Scryfall,
Pokemon TCG, decks from the MTG Arena log), optionally in greyscale.

- `src/` is the verified library: deck-list parsing (MTG Arena text,
  Cockatrice `.cod` files and folders), request addresses and the decisions
  of the request loop, merging and counting cards, the sheet layout and the
  placement of every copy, the border fill of card corners, the Arena log
  scan, and the Cockatrice export. Each public function states its result
  in `ensures`; the laws that span several functions are public proof
  functions (for instance `roundtrip::lemma_cockatrice_roundtrip`, that an
  exported deck reads back as the same cards).
- `app/` is the command-line program around it: arguments, HTTP, files,
  image decoding and the PDF writer.
- `tests/` runs the library on concrete inputs.
