use magic_greyscale::deck::parser::{
    extract_attr, parse_cockatrice, parse_cockatrice_folder, parse_line, parse_mtga, DeckError,
    LineError,
};

#[test]
fn test_parse_full_line() {
    let entry = parse_line("4 Lightning Bolt (LEB) 162").unwrap();
    assert_eq!(entry.quantity, 4);
    assert_eq!(entry.card_name, "Lightning Bolt");
    assert_eq!(entry.set_code.as_deref(), Some("LEB"));
    assert_eq!(entry.collector_number.as_deref(), Some("162"));
}

#[test]
fn test_parse_name_only() {
    let entry = parse_line("1 Counterspell").unwrap();
    assert_eq!(entry.quantity, 1);
    assert_eq!(entry.card_name, "Counterspell");
    assert!(entry.set_code.is_none());
}

#[test]
fn test_parse_cockatrice() {
    let input = r#"<?xml version="1.0" encoding="UTF-8"?>
<cockatrice_deck version="1">
    <zone name="main">
        <card number="4" name="Lightning Bolt"/>
        <card number="3" name="Counterspell"/>
    </zone>
    <zone name="side">
        <card number="2" name="Pyroblast"/>
    </zone>
</cockatrice_deck>"#;
    let deck = parse_cockatrice(input).unwrap();
    assert_eq!(deck.mainboard.len(), 2);
    assert_eq!(deck.mainboard[0].card_name, "Lightning Bolt");
    assert_eq!(deck.mainboard[0].quantity, 4);
    assert_eq!(deck.sideboard.len(), 1);
}

#[test]
fn parse_line_set_without_number() {
    let entry = parse_line("2 Island (M21)").unwrap();
    assert_eq!(entry.card_name, "Island");
    assert_eq!(entry.set_code.as_deref(), Some("M21"));
    assert!(entry.collector_number.is_none());
}

#[test]
fn parse_line_unclosed_paren_keeps_rest() {
    let entry = parse_line("3 Odd (Name ").unwrap();
    assert_eq!(entry.quantity, 3);
    assert_eq!(entry.card_name, "Odd (Name ");
    assert!(entry.set_code.is_none());
}

#[test]
fn parse_line_plus_sign_quantity() {
    let entry = parse_line("+7 Plains").unwrap();
    assert_eq!(entry.quantity, 7);
    assert_eq!(entry.card_name, "Plains");
}

#[test]
fn parse_line_errors() {
    assert_eq!(parse_line("Counterspell").err(), Some(LineError::MissingSeparator));
    assert_eq!(parse_line("x Counterspell").err(), Some(LineError::BadQuantity));
    assert_eq!(parse_line("4294967296 Island").err(), Some(LineError::BadQuantity));
    assert_eq!(parse_line("4294967295 Island").unwrap().quantity, 4294967295);
}

#[test]
fn parse_mtga_sections() {
    let text = "Deck\r\n4 Lightning Bolt (LEB) 162\n\n  2 Island  \nSIDEBOARD\n1 Pyroblast\ndeck\n1 Forest\n";
    let deck = parse_mtga(text).unwrap();
    assert_eq!(deck.mainboard.len(), 3);
    assert_eq!(deck.mainboard[0].card_name, "Lightning Bolt");
    assert_eq!(deck.mainboard[1].card_name, "Island");
    assert_eq!(deck.mainboard[1].quantity, 2);
    assert_eq!(deck.mainboard[2].card_name, "Forest");
    assert_eq!(deck.sideboard.len(), 1);
    assert_eq!(deck.sideboard[0].card_name, "Pyroblast");
}

#[test]
fn parse_mtga_reports_bad_line() {
    match parse_mtga("4 Lightning Bolt\n  nonsense  \n") {
        Err(DeckError::BadLine { line, reason }) => {
            assert_eq!(line, "nonsense");
            assert_eq!(reason, LineError::MissingSeparator);
        }
        _ => panic!("expected an error"),
    }
    let e = parse_mtga("x y").err().unwrap();
    assert_eq!(e.message(), "failed to parse line: x y: expected quantity as first token");
}

#[test]
fn parse_cockatrice_defaults_and_entities() {
    let input = "<zone name=\"sb\">\n<card name=\"Fire &amp; Ice\"/>\n<zone name=\"main\">\n<card number=\"x\" name=\"A &lt;B&gt; &quot;C&quot; D&apos;s\"/>\n";
    let deck = parse_cockatrice(input).unwrap();
    assert_eq!(deck.sideboard.len(), 1);
    assert_eq!(deck.sideboard[0].card_name, "Fire & Ice");
    assert_eq!(deck.sideboard[0].quantity, 1);
    assert_eq!(deck.mainboard.len(), 1);
    assert_eq!(deck.mainboard[0].card_name, "A <B> \"C\" D's");
    assert_eq!(deck.mainboard[0].quantity, 1);
}

#[test]
fn parse_cockatrice_missing_name() {
    let err = parse_cockatrice("<card number=\"2\"/>").err().unwrap();
    assert!(matches!(err, DeckError::MissingName));
    assert_eq!(err.message(), "card element missing name attribute");
}

#[test]
fn extract_attr_values() {
    assert_eq!(extract_attr("<card number=\"4\" name=\"X\"/>", "number").as_deref(), Some("4"));
    assert_eq!(extract_attr("<card number=\"4\" name=\"X\"/>", "name").as_deref(), Some("X"));
    assert_eq!(extract_attr("<card name=\"X/>", "name"), None);
    assert_eq!(extract_attr("<card/>", "name"), None);
    assert_eq!(extract_attr("a=\"&amp;lt;\"", "a").as_deref(), Some("<"));
}

#[test]
fn folder_lists_each_card_once() {
    let a = "<zone name=\"main\">\n<card number=\"4\" name=\"Bolt\"/>\n<zone name=\"side\">\n<card number=\"2\" name=\"Island\"/>\n".to_string();
    let b = "<card number=\"3\" name=\"Island\"/>\n<card number=\"1\" name=\"Forest\"/>\n".to_string();
    let deck = parse_cockatrice_folder(&vec![a, b]).unwrap();
    let names: Vec<&str> = deck.mainboard.iter().map(|e| e.card_name.as_str()).collect();
    assert_eq!(names, vec!["Bolt", "Island", "Forest"]);
    assert!(deck.mainboard.iter().all(|e| e.quantity == 1));
    assert!(deck.sideboard.is_empty());
    let bad = "<card number=\"1\"/>".to_string();
    assert!(parse_cockatrice_folder(&vec!["<card name=\"A\"/>".to_string(), bad]).is_err());
}
