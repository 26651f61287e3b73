use lor_api_wrapper::card::Card;
use lor_api_wrapper::deck::Deck;
use lor_api_wrapper::json::JsonValue;

fn card_record(code: &str, rarity: Option<&str>, regions: &[&str]) -> JsonValue {
    let mut entries: Vec<(String, JsonValue)> = Vec::new();
    entries.push(("card_code".to_string(), JsonValue::Str(code.to_string())));
    if let Some(r) = rarity {
        entries.push(("rarity".to_string(), JsonValue::Str(r.to_string())));
    }
    if !regions.is_empty() {
        let items: Vec<JsonValue> =
            regions.iter().map(|r| JsonValue::Str(r.to_string())).collect();
        entries.push(("regions".to_string(), JsonValue::Array(items)));
    }
    JsonValue::Object(entries)
}

fn card(code: &str) -> Card {
    Card::from_code(code.to_string())
}

fn counts(deck: &Deck) -> Vec<(String, i32)> {
    deck.cards()
        .iter()
        .map(|(c, n)| (c.card_code.clone(), *n))
        .collect()
}

#[test]
fn grouping_example() {
    // three observed instances group to two entries, not three
    let cards = vec![card("01SI001"), card("01SI001"), card("02ZZ003")];
    let deck = Deck::new(cards, 0, 0);
    let got = counts(&deck);
    assert_eq!(
        got,
        vec![("01SI001".to_string(), 2), ("02ZZ003".to_string(), 1)]
    );
}

#[test]
fn grouping_single_code_many_copies() {
    let cards = vec![card("01DE002"); 5];
    let deck = Deck::new(cards, 0, 0);
    assert_eq!(counts(&deck), vec![("01DE002".to_string(), 5)]);
}

#[test]
fn empty_deck_has_no_entries() {
    let deck = Deck::new(Vec::new(), 0, 0);
    assert!(deck.cards().is_empty());
    assert!(deck.regions().is_empty());
    assert!(deck.get_champions().is_empty());
}

#[test]
fn deck_code_round_trip() {
    // the encoder must really encode the grouped composition: decode the
    // code with the encoder crate itself and compare the pairs
    let cards = vec![card("01SI001"), card("01SI001"), card("01DE002")];
    let deck = Deck::new(cards, 0, 0);
    let code = deck.deck_code().clone().expect("valid codes must encode");
    let decoded = lordeckcodes::encoder::deck_from_code(&code).expect("round trip");
    let mut got: Vec<(u32, u32, u32, i32)> = decoded
        .cards()
        .iter()
        .map(|c| (c.card().set(), c.card().faction(), c.card().number(), c.count()))
        .collect();
    got.sort();
    // 01SI001 is set 1, faction SI (5), number 1; 01DE002 is set 1,
    // faction DE (0), number 2
    assert_eq!(got, vec![(1, 0, 2, 1), (1, 5, 1, 2)]);
}

#[test]
fn deck_code_equal_for_equal_composition() {
    // same multiset observed in different orders, different records
    let d1 = Deck::new(vec![card("01SI001"), card("01SI001"), card("01DE002")], 3, 0);
    let d2 = Deck::new(vec![card("01DE002"), card("01SI001"), card("01SI001")], 0, 7);
    assert!(d1.deck_code().is_some());
    assert_eq!(d1.deck_code(), d2.deck_code());
    // equality of decks is deck-code equality, blind to the records
    assert!(d1 == d2);

    let d3 = Deck::new(vec![card("01SI001")], 0, 0);
    assert!(d1 != d3);
}

#[test]
fn deck_code_absent_for_rejected_code() {
    // a code the encoder cannot classify leaves the deck valid, code-less
    let deck = Deck::new(vec![card("XXYYZZZ99")], 0, 0);
    assert!(deck.deck_code().is_none());
    assert_eq!(counts(&deck), vec![("XXYYZZZ99".to_string(), 1)]);

    let non_ascii = Deck::new(vec![card("01SÏ001")], 0, 0);
    assert!(non_ascii.deck_code().is_none());
}

#[test]
fn champions_are_the_champion_rarity_entries() {
    let champ = Card::new(&card_record("01SI053", Some("Champion"), &["Shadow Isles"]))
        .expect("record with code");
    let common = Card::new(&card_record("01SI001", Some("COMMON"), &["Shadow Isles"]))
        .expect("record with code");
    let deck = Deck::new(vec![champ, common.clone(), common], 0, 0);
    let champions = deck.get_champions();
    assert_eq!(champions.len(), 1);
    assert_eq!(champions[0].card_code, "01SI053");
}

#[test]
fn regions_top_two_with_tie_by_name() {
    let a = Card::new(&card_record("01IO001", None, &["Ionia"])).unwrap();
    let b = Card::new(&card_record("01IO002", None, &["Ionia", "Noxus"])).unwrap();
    let c = Card::new(&card_record("01DE003", None, &["Demacia"])).unwrap();
    let deck = Deck::new(vec![a, b, c], 0, 0);
    // Ionia is mentioned twice; Noxus and Demacia once each, and the tie
    // between them falls to the name earlier in code-point order
    assert_eq!(deck.regions(), vec!["Ionia".to_string(), "Demacia".to_string()]);
}

#[test]
fn regions_single_region_deck() {
    let a = Card::new(&card_record("01IO001", None, &["Ionia"])).unwrap();
    let deck = Deck::new(vec![a], 0, 0);
    assert_eq!(deck.regions(), vec!["Ionia".to_string()]);
}

#[test]
fn set_number_from_code_prefix() {
    assert_eq!(card("01SI001").set_number(), 1);
    assert_eq!(card("12BC045").set_number(), 12);
    // malformed codes fall back to the default set, not an error
    assert_eq!(card("XXSI001").set_number(), 0);
    assert_eq!(card("7").set_number(), 0);
    assert_eq!(card("").set_number(), 0);
}

#[test]
fn wins_and_losses_are_kept() {
    let deck = Deck::new(vec![card("01SI001")], 4, 2);
    assert_eq!(deck.wins(), 4);
    assert_eq!(deck.losses(), 2);
}
