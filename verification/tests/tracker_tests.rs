use lor_api_wrapper::card::{Card, Catalog};
use lor_api_wrapper::deck::Deck;
use lor_api_wrapper::game::{ExpeditionState, Game, GameFrame, Screen};
use lor_api_wrapper::json::JsonValue;

fn obj(entries: Vec<(&str, JsonValue)>) -> Vec<(String, JsonValue)> {
    entries.into_iter().map(|(k, v)| (k.to_string(), v)).collect()
}

fn s(text: &str) -> JsonValue {
    JsonValue::Str(text.to_string())
}

fn rect(id: i64, code: &str, local: Option<bool>) -> JsonValue {
    let mut entries = obj(vec![
        ("CardID", JsonValue::Int(id)),
        ("CardCode", s(code)),
        ("TopLeftX", JsonValue::Int(10)),
        ("TopLeftY", JsonValue::Int(20)),
        ("Width", JsonValue::Int(30)),
        ("Height", JsonValue::Int(40)),
    ]);
    if let Some(b) = local {
        entries.push(("LocalPlayer".to_string(), JsonValue::Bool(b)));
    }
    JsonValue::Object(entries)
}

fn frame(rects: Vec<JsonValue>) -> Vec<(String, JsonValue)> {
    obj(vec![
        ("PlayerName", s("Alice")),
        ("OpponentName", s("Bob")),
        ("GameState", s("InProgress")),
        (
            "Screen",
            JsonValue::Object(obj(vec![
                ("ScreenWidth", JsonValue::Int(1920)),
                ("ScreenHeight", JsonValue::Int(1080)),
            ])),
        ),
        ("Rectangles", JsonValue::Array(rects)),
    ])
}

fn fresh_game() -> Game {
    Game::new(
        "Alice".to_string(),
        "Bob".to_string(),
        Screen { width: 1920, height: 1080 },
        Deck::new(Vec::new(), 0, 0),
    )
}

fn used_counts(deck: &Deck) -> Vec<(String, i32)> {
    deck.cards()
        .iter()
        .map(|(c, n)| (c.card_code.clone(), *n))
        .collect()
}

#[test]
fn face_rectangle_is_dropped() {
    // the "face" entity is a life-total marker, not a card
    let info = frame(vec![rect(7, "face", Some(true)), rect(8, "01SI001", Some(true))]);
    let f = GameFrame::new(&info);
    assert_eq!(f.rectangles.len(), 1);
    assert_eq!(f.rectangles[0].card_code, "01SI001");
    let players = f.player_rects();
    assert_eq!(players.len(), 1);
    assert_eq!(players[0].card_code, "01SI001");
    assert!(f.opponent_rects().is_empty());
}

#[test]
fn frame_defaults_for_empty_snapshot() {
    let f = GameFrame::new(&Vec::new());
    assert_eq!(f.player, "The Man With No Name");
    assert_eq!(f.opponent, "The Man With No Name");
    assert_eq!(f.game_state, "Menus");
    assert_eq!(f.screen, Screen { width: 0, height: 0 });
    assert!(f.rectangles.is_empty());
}

#[test]
fn frame_reads_names_and_screen() {
    let f = GameFrame::new(&frame(vec![]));
    assert_eq!(f.player, "Alice");
    assert_eq!(f.opponent, "Bob");
    assert_eq!(f.game_state, "InProgress");
    assert_eq!(f.screen, Screen { width: 1920, height: 1080 });
}

#[test]
fn ownership_split_is_not_true_versus_true() {
    // explicitly true is the player's; false or absent is the opponent's
    let info = frame(vec![
        rect(1, "01SI001", Some(true)),
        rect(2, "01SI002", Some(false)),
        rect(3, "01SI003", None),
    ]);
    let f = GameFrame::new(&info);
    let players = f.player_rects();
    let opponents = f.opponent_rects();
    assert_eq!(players.len(), 1);
    assert_eq!(players[0].card_id, 1);
    assert_eq!(opponents.len(), 2);
    assert_eq!(opponents[0].card_id, 2);
    assert_eq!(opponents[1].card_id, 3);
}

#[test]
fn rectangle_without_code_is_no_card_entity() {
    let no_code = JsonValue::Object(obj(vec![("CardID", JsonValue::Int(9))]));
    let f = GameFrame::new(&frame(vec![no_code, rect(1, "01SI001", None)]));
    assert_eq!(f.rectangles.len(), 1);
}

#[test]
fn reobserved_id_does_not_raise_counts() {
    let catalog = Catalog::new(&Vec::new());
    let mut game = fresh_game();
    let f = GameFrame::new(&frame(vec![rect(1, "01SI001", Some(true))]));
    game.process_frame(&f, &catalog);
    game.process_frame(&f, &catalog);
    assert_eq!(used_counts(&game.player_cards_used), vec![("01SI001".to_string(), 1)]);
}

#[test]
fn distinct_ids_of_one_code_count_twice() {
    let catalog = Catalog::new(&Vec::new());
    let mut game = fresh_game();
    let f = GameFrame::new(&frame(vec![
        rect(1, "01SI001", Some(true)),
        rect(2, "01SI001", Some(true)),
    ]));
    game.process_frame(&f, &catalog);
    assert_eq!(used_counts(&game.player_cards_used), vec![("01SI001".to_string(), 2)]);
}

#[test]
fn replay_gives_identical_used_decks() {
    let catalog = Catalog::new(&Vec::new());
    let frames = vec![
        GameFrame::new(&frame(vec![rect(1, "01SI001", Some(true)), rect(2, "01DE002", None)])),
        GameFrame::new(&frame(vec![rect(1, "01SI001", Some(true)), rect(3, "01SI001", Some(true))])),
    ];
    let mut g1 = fresh_game();
    let mut g2 = fresh_game();
    for f in &frames {
        g1.process_frame(f, &catalog);
    }
    for f in &frames {
        g2.process_frame(f, &catalog);
    }
    assert_eq!(used_counts(&g1.player_cards_used), used_counts(&g2.player_cards_used));
    assert_eq!(used_counts(&g1.opponent_cards_used), used_counts(&g2.opponent_cards_used));
    assert_eq!(g1.player_cards_used.deck_code(), g2.player_cards_used.deck_code());
    assert!(g1.player_cards_used == g2.player_cards_used);
}

#[test]
fn sides_are_tracked_independently() {
    let catalog = Catalog::new(&Vec::new());
    let mut game = fresh_game();
    let f = GameFrame::new(&frame(vec![
        rect(1, "01SI001", Some(true)),
        rect(2, "01DE002", Some(false)),
        rect(3, "01IO003", None),
    ]));
    game.process_frame(&f, &catalog);
    assert_eq!(used_counts(&game.player_cards_used), vec![("01SI001".to_string(), 1)]);
    assert_eq!(
        used_counts(&game.opponent_cards_used),
        vec![("01DE002".to_string(), 1), ("01IO003".to_string(), 1)]
    );
}

#[test]
fn unknown_card_is_tracked_without_metadata() {
    let records = vec![JsonValue::Object(obj(vec![
        ("card_code", s("01SI001")),
        ("name", s("Mark of the Isles")),
        ("cost", JsonValue::Int(1)),
    ]))];
    let catalog = Catalog::new(&records);
    let mut game = fresh_game();
    let f = GameFrame::new(&frame(vec![
        rect(1, "01SI001", Some(true)),
        rect(2, "09XX999", Some(true)),
    ]));
    game.process_frame(&f, &catalog);
    let used = game.player_cards_used.cards();
    assert_eq!(used.len(), 2);
    let known = used.iter().find(|(c, _)| c.card_code == "01SI001").unwrap();
    assert_eq!(known.0.name.as_deref(), Some("Mark of the Isles"));
    assert_eq!(known.0.cost, Some(1));
    let unknown = used.iter().find(|(c, _)| c.card_code == "09XX999").unwrap();
    assert!(unknown.0.name.is_none());
    assert!(unknown.0.cost.is_none());
}

#[test]
fn catalog_lookup_and_parsing() {
    let record = JsonValue::Object(obj(vec![
        ("card_code", s("01SI001")),
        ("name", s("Mark of the Isles")),
        ("cost", JsonValue::Int(0)),
        ("regions", JsonValue::Array(vec![s("Shadow Isles")])),
    ]));
    let records = vec![JsonValue::Int(3), record];

    // card_info finds the record, skipping the non-object
    let found = Card::card_info(&records, "01SI001");
    assert!(found.is_some());
    assert!(Card::card_info(&records, "01SI002").is_none());

    // parsing distinguishes "cost 0" from "no cost"
    let parsed = Card::new(&found.unwrap()).unwrap();
    assert_eq!(parsed.cost, Some(0));
    assert!(parsed.attack.is_none());
    assert_eq!(parsed.regions.as_ref().unwrap(), &vec!["Shadow Isles".to_string()]);

    // a record without a card code yields no card
    assert!(Card::new(&JsonValue::Object(obj(vec![("name", s("x"))]))).is_none());
    assert!(Card::new(&JsonValue::Int(1)).is_none());

    // resolution falls back to a bare card for unknown codes
    let catalog = Catalog::new(&records);
    assert_eq!(catalog.cards().len(), 1);
    let known = catalog.resolve("01SI001");
    assert_eq!(known.name.as_deref(), Some("Mark of the Isles"));
    let unknown = catalog.resolve("05BC123");
    assert_eq!(unknown.card_code, "05BC123");
    assert!(unknown.name.is_none());
}

#[test]
fn game_new_snapshots_starting_deck() {
    let deck = Deck::new(
        vec![Card::from_code("01SI001".to_string()), Card::from_code("01SI001".to_string())],
        0,
        0,
    );
    let game = Game::new(
        "Alice".to_string(),
        "Bob".to_string(),
        Screen { width: 0, height: 0 },
        deck,
    );
    assert_eq!(used_counts(&game.initial_player_deck), vec![("01SI001".to_string(), 2)]);
    assert_eq!(used_counts(&game.current_player_deck), vec![("01SI001".to_string(), 2)]);
    assert!(game.player_cards_used.cards().is_empty());
    assert!(game.result.is_none());
}

#[test]
fn result_is_recorded_once() {
    let mut game = fresh_game();
    game.record_result(s("Win"));
    game.record_result(s("Loss"));
    assert!(matches!(&game.result, Some(JsonValue::Str(r)) if r == "Win"));
}

#[test]
fn expedition_from_empty_map() {
    let state = ExpeditionState::new(&Vec::new());
    assert!(!state.is_active);
    assert_eq!(state.state, "Inactive");
    assert_eq!(state.games_played, 0);
    assert_eq!(state.wins, 0);
    assert_eq!(state.losses, 0);
    assert!(state.record.is_empty());
    assert!(state.draft_picks.is_empty());
    assert!(state.deck.is_none());
}

#[test]
fn expedition_reads_fields() {
    let info = obj(vec![
        ("IsActive", JsonValue::Bool(true)),
        ("State", s("Picking")),
        ("Record", JsonValue::Array(vec![s("win"), s("loss")])),
        ("DraftPicks", JsonValue::Array(vec![s("01SI001")])),
        ("Games", JsonValue::Int(2)),
        ("Wins", JsonValue::Int(1)),
        ("Losses", JsonValue::Int(1)),
    ]);
    let state = ExpeditionState::new(&info);
    assert!(state.is_active);
    assert_eq!(state.state, "Picking");
    assert_eq!(state.games_played, 2);
    assert_eq!(state.wins, 1);
    assert_eq!(state.losses, 1);
    assert_eq!(state.record.len(), 2);
    assert!(matches!(&state.record[0], JsonValue::Str(r) if r == "win"));
    assert_eq!(state.draft_picks.len(), 1);
}

#[test]
fn object_lookup_takes_the_first_entry() {
    let info = obj(vec![("GameState", s("InProgress")), ("GameState", s("Menus"))]);
    let f = GameFrame::new(&info);
    assert_eq!(f.game_state, "InProgress");
}

#[test]
fn wrongly_shaped_fields_fall_back_to_defaults() {
    let info = frame(vec![JsonValue::Object(obj(vec![
        ("CardCode", s("01SI001")),
        ("CardID", s("seven")),
        ("Width", JsonValue::Bool(true)),
        ("LocalPlayer", s("yes")),
    ]))]);
    let f = GameFrame::new(&info);
    assert_eq!(f.rectangles.len(), 1);
    assert_eq!(f.rectangles[0].card_id, 0);
    assert_eq!(f.rectangles[0].width, 0);
    assert!(f.rectangles[0].is_local_player.is_none());
}

#[test]
fn expedition_flag_and_state_are_independent() {
    // upstream data is the sole source of truth: an inactive flag beside
    // an active-looking label is carried as-is
    let info = obj(vec![("State", s("Picking"))]);
    let state = ExpeditionState::new(&info);
    assert!(!state.is_active);
    assert_eq!(state.state, "Picking");
}
