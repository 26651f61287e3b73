use vstd::prelude::*;

use crate::card::{Card, CardView, Catalog};
use crate::deck::{spec_add_entry, wf_entries, Deck};
use crate::json::{
    get_array_or_empty, get_bool_opt, get_bool_or, get_i64_or, get_str_or, json_views, lookup,
    spec_array_views, spec_bool_opt, spec_i64_or, spec_lookup, spec_str_or, JsonValue,
};

verus! {

/// One observed on-screen card entity within one frame: a session-scoped
/// instance identifier, the card code, the bounding box, and whether the
/// local player owns it (absent when the snapshot does not say).
pub struct Rectangle {
    pub card_id: i64,
    pub card_code: String,
    pub top_left_x: i64,
    pub top_left_y: i64,
    pub width: i64,
    pub height: i64,
    pub is_local_player: Option<bool>,
}

impl Clone for Rectangle {
    /// A clone is the same observation.
    fn clone(&self) -> (res: Self)
        ensures
            res == *self,
    {
        Rectangle {
            card_id: self.card_id,
            card_code: self.card_code.clone(),
            top_left_x: self.top_left_x,
            top_left_y: self.top_left_y,
            width: self.width,
            height: self.height,
            is_local_player: self.is_local_player,
        }
    }
}

/// The rectangle read from one snapshot object, before the classifier's
/// own filtering: an object without a string card code is no card entity
/// and yields nothing — the one field an observation must offer.
pub open spec fn spec_rect_new(entries: Seq<(String, JsonValue)>) -> Option<Rectangle> {
    match spec_lookup(entries, "CardCode"@) {
        Some(JsonValue::Str(code)) => Some(
            Rectangle {
                card_id: spec_i64_or(entries, "CardID"@, 0),
                card_code: code,
                top_left_x: spec_i64_or(entries, "TopLeftX"@, 0),
                top_left_y: spec_i64_or(entries, "TopLeftY"@, 0),
                width: spec_i64_or(entries, "Width"@, 0),
                height: spec_i64_or(entries, "Height"@, 0),
                is_local_player: spec_bool_opt(entries, "LocalPlayer"@),
            },
        ),
        _ => None,
    }
}

impl Rectangle {
    /// Read one rectangle from a snapshot object. Every field but the
    /// card code falls back to a default when absent or of the wrong
    /// shape; a missing card code rejects the entity.
    pub fn new(entries: &Vec<(String, JsonValue)>) -> (r: Option<Rectangle>)
        ensures
            r == spec_rect_new(entries@),
    {
        let code = match lookup(entries, "CardCode") {
            Some(v) => match v.as_str() {
                Some(s) => s.clone(),
                None => {
                    return None;
                },
            },
            None => {
                return None;
            },
        };
        Some(
            Rectangle {
                card_id: get_i64_or(entries, "CardID", 0),
                card_code: code,
                top_left_x: get_i64_or(entries, "TopLeftX", 0),
                top_left_y: get_i64_or(entries, "TopLeftY", 0),
                width: get_i64_or(entries, "Width", 0),
                height: get_i64_or(entries, "Height", 0),
                is_local_player: get_bool_opt(entries, "LocalPlayer"),
            },
        )
    }
}

/// The screen geometry a frame was captured at.
#[derive(Clone, Copy, Debug, PartialEq, Eq, Structural)]
pub struct Screen {
    pub width: i64,
    pub height: i64,
}

pub open spec fn spec_screen_new(entries: Seq<(String, JsonValue)>) -> Screen {
    Screen {
        width: spec_i64_or(entries, "ScreenWidth"@, 0),
        height: spec_i64_or(entries, "ScreenHeight"@, 0),
    }
}

impl Screen {
    /// Read the screen geometry from a snapshot object, zero when absent.
    pub fn new(entries: &Vec<(String, JsonValue)>) -> (r: Screen)
        ensures
            r == spec_screen_new(entries@),
    {
        Screen {
            width: get_i64_or(entries, "ScreenWidth", 0),
            height: get_i64_or(entries, "ScreenHeight", 0),
        }
    }
}

/// Whether a raw rectangle value passes the classifier: an object that
/// yields a rectangle whose code is not the "face" sentinel (the life
/// total marker, which is no card).
pub open spec fn spec_frame_rect(v: JsonValue) -> Option<Rectangle> {
    match v {
        JsonValue::Object(entries) => match spec_rect_new(entries@) {
            Some(r) => if r.card_code@ == "face"@ {
                None
            } else {
                Some(r)
            },
            None => None,
        },
        _ => None,
    }
}

/// The rectangles the classifier keeps, in order.
pub open spec fn spec_rects(items: Seq<JsonValue>) -> Seq<Rectangle>
    decreases items.len(),
{
    if items.len() == 0 {
        Seq::empty()
    } else {
        match spec_frame_rect(items[0]) {
            Some(r) => seq![r] + spec_rects(items.drop_first()),
            None => spec_rects(items.drop_first()),
        }
    }
}

proof fn lemma_rects_push(items: Seq<JsonValue>, v: JsonValue)
    ensures
        spec_rects(items.push(v)) == match spec_frame_rect(v) {
            Some(r) => spec_rects(items).push(r),
            None => spec_rects(items),
        },
    decreases items.len(),
{
    if items.len() == 0 {
        assert(items.push(v).drop_first() =~= Seq::empty());
        assert(items =~= Seq::empty());
        match spec_frame_rect(v) {
            Some(r) => {
                assert(spec_rects(items.push(v)) =~= spec_rects(items).push(r));
            },
            None => {},
        }
    } else {
        assert(items.push(v).drop_first() =~= items.drop_first().push(v));
        lemma_rects_push(items.drop_first(), v);
        match spec_frame_rect(v) {
            Some(r) => {
                assert(spec_rects(items.push(v)) =~= spec_rects(items).push(r));
            },
            None => {},
        }
    }
}

/// No kept rectangle carries the "face" sentinel.
pub proof fn lemma_rects_no_face(items: Seq<JsonValue>)
    ensures
        forall|i: int|
            0 <= i < spec_rects(items).len() ==> (#[trigger] spec_rects(items)[i]).card_code@
                != "face"@,
    decreases items.len(),
{
    if items.len() > 0 {
        lemma_rects_no_face(items.drop_first());
        let rest = spec_rects(items.drop_first());
        match spec_frame_rect(items[0]) {
            Some(r) => {
                assert forall|i: int|
                    0 <= i < spec_rects(items).len() implies (
                #[trigger] spec_rects(items)[i]).card_code@ != "face"@ by {
                    if i > 0 {
                        assert(spec_rects(items)[i] == rest[i - 1]);
                    }
                }
            },
            None => {},
        }
    }
}

/// One frame of the running match, as the classifier reads it from a raw
/// snapshot: the two display names, the free-form game-state label, the
/// screen geometry, and the card entities on screen with the "face" life
/// marker dropped.
pub struct GameFrame {
    pub player: String,
    pub opponent: String,
    pub game_state: String,
    pub screen: Screen,
    pub rectangles: Vec<Rectangle>,
}

impl GameFrame {
    /// Classify one raw snapshot. Missing names fall back to a
    /// placeholder, a missing state to "Menus", geometry to zero, and
    /// the entity list to empty; rectangles with card code "face" are
    /// dropped here, before any further processing.
    pub fn new(info: &Vec<(String, JsonValue)>) -> (r: GameFrame)
        ensures
            r.player@ == spec_str_or(info@, "PlayerName"@, "The Man With No Name"@),
            r.opponent@ == spec_str_or(info@, "OpponentName"@, "The Man With No Name"@),
            r.game_state@ == spec_str_or(info@, "GameState"@, "Menus"@),
            r.screen == (match spec_lookup(info@, "Screen"@) {
                Some(JsonValue::Object(entries)) => spec_screen_new(entries@),
                _ => spec_screen_new(Seq::empty()),
            }),
            r.rectangles@ == (match spec_lookup(info@, "Rectangles"@) {
                Some(JsonValue::Array(items)) => spec_rects(items@),
                _ => Seq::<Rectangle>::empty(),
            }),
            forall|i: int|
                0 <= i < r.rectangles@.len() ==> (#[trigger] r.rectangles@[i]).card_code@
                    != "face"@,
    {
        let player = get_str_or(info, "PlayerName", "The Man With No Name");
        let opponent = get_str_or(info, "OpponentName", "The Man With No Name");
        let game_state = get_str_or(info, "GameState", "Menus");
        let screen = match lookup(info, "Screen") {
            Some(v) => match v.as_object() {
                Some(entries) => Screen::new(entries),
                None => {
                    let empty: Vec<(String, JsonValue)> = Vec::new();
                    Screen::new(&empty)
                },
            },
            None => {
                let empty: Vec<(String, JsonValue)> = Vec::new();
                Screen::new(&empty)
            },
        };
        let rectangles = match lookup(info, "Rectangles") {
            Some(v) => match v.as_array() {
                Some(items) => GameFrame::parse_rectangles(items),
                None => Vec::new(),
            },
            None => Vec::new(),
        };
        proof {
            match spec_lookup(info@, "Rectangles"@) {
                Some(v) => match v {
                    JsonValue::Array(items) => {
                        lemma_rects_no_face(items@);
                    },
                    _ => {},
                },
                None => {},
            }
        }
        GameFrame { player, opponent, game_state, screen, rectangles }
    }

    /// Keep the card entities among raw rectangle values: objects with a
    /// string card code other than the "face" sentinel.
    pub fn parse_rectangles(items: &Vec<JsonValue>) -> (r: Vec<Rectangle>)
        ensures
            r@ == spec_rects(items@),
    {
        let mut out: Vec<Rectangle> = Vec::new();
        let mut i: usize = 0;
        proof {
            assert(items@.take(0) =~= Seq::empty());
            assert(out@ =~= spec_rects(items@.take(0)));
        }
        while i < items.len()
            invariant
                i <= items@.len(),
                out@ == spec_rects(items@.take(i as int)),
            decreases items@.len() - i,
        {
            proof {
                assert(items@.take(i as int).push(items@[i as int]) =~= items@.take(i as int + 1));
                lemma_rects_push(items@.take(i as int), items@[i as int]);
            }
            match items[i].as_object() {
                Some(entries) => {
                    match Rectangle::new(entries) {
                        Some(rect) => {
                            let face: String = "face".to_owned();
                            if !(rect.card_code == face) {
                                out.push(rect);
                            }
                        },
                        None => (),
                    }
                },
                None => (),
            }
            i = i + 1;
        }
        proof {
            assert(items@.take(items@.len() as int) =~= items@);
        }
        out
    }

    /// The local player's rectangles: exactly those whose ownership flag
    /// is explicitly set.
    pub fn player_rects(&self) -> (r: Vec<Rectangle>)
        ensures
            r@ == self.rectangles@.filter(|rect: Rectangle| rect.is_local_player == Some(true)),
    {
        let mut out: Vec<Rectangle> = Vec::new();
        let mut i: usize = 0;
        proof {
            assert(self.rectangles@.take(0) =~= Seq::empty());
            assert(self.rectangles@.take(0).filter(
                |rect: Rectangle| rect.is_local_player == Some(true),
            ) =~= Seq::empty());
        }
        while i < self.rectangles.len()
            invariant
                i <= self.rectangles@.len(),
                out@ == self.rectangles@.take(i as int).filter(
                    |rect: Rectangle| rect.is_local_player == Some(true),
                ),
            decreases self.rectangles@.len() - i,
        {
            proof {
                assert(self.rectangles@.take(i as int).push(self.rectangles@[i as int])
                    =~= self.rectangles@.take(i as int + 1));
                self.rectangles@.take(i as int).lemma_filter_push(
                    self.rectangles@[i as int],
                    |rect: Rectangle| rect.is_local_player == Some(true),
                );
            }
            let keep = match self.rectangles[i].is_local_player {
                Some(b) => b,
                None => false,
            };
            if keep {
                out.push(self.rectangles[i].clone());
            }
            i = i + 1;
        }
        proof {
            assert(self.rectangles@.take(self.rectangles@.len() as int) =~= self.rectangles@);
        }
        out
    }

    /// The opponent's rectangles: everything whose ownership flag is not
    /// explicitly set — an unset flag counts as the opponent's, the
    /// defensive default for a client whose camera is the local player.
    pub fn opponent_rects(&self) -> (r: Vec<Rectangle>)
        ensures
            r@ == self.rectangles@.filter(|rect: Rectangle| rect.is_local_player != Some(true)),
    {
        let mut out: Vec<Rectangle> = Vec::new();
        let mut i: usize = 0;
        proof {
            assert(self.rectangles@.take(0) =~= Seq::empty());
            assert(self.rectangles@.take(0).filter(
                |rect: Rectangle| rect.is_local_player != Some(true),
            ) =~= Seq::empty());
        }
        while i < self.rectangles.len()
            invariant
                i <= self.rectangles@.len(),
                out@ == self.rectangles@.take(i as int).filter(
                    |rect: Rectangle| rect.is_local_player != Some(true),
                ),
            decreases self.rectangles@.len() - i,
        {
            proof {
                assert(self.rectangles@.take(i as int).push(self.rectangles@[i as int])
                    =~= self.rectangles@.take(i as int + 1));
                self.rectangles@.take(i as int).lemma_filter_push(
                    self.rectangles@[i as int],
                    |rect: Rectangle| rect.is_local_player != Some(true),
                );
            }
            let keep = match self.rectangles[i].is_local_player {
                Some(b) => !b,
                None => true,
            };
            if keep {
                out.push(self.rectangles[i].clone());
            }
            i = i + 1;
        }
        proof {
            assert(self.rectangles@.take(self.rectangles@.len() as int) =~= self.rectangles@);
        }
        out
    }
}

/// The ownership partition law: a rectangle whose flag is explicitly set
/// is reported among the player's rectangles and nowhere else; one whose
/// flag is false or absent is reported among the opponent's. No
/// rectangle is reported on both sides.
pub proof fn lemma_ownership_partition(rects: Seq<Rectangle>)
    ensures
        forall|i: int|
            0 <= i < rects.len() && (#[trigger] rects[i]).is_local_player == Some(true)
                ==> rects.filter(|rect: Rectangle| rect.is_local_player == Some(true)).contains(
                rects[i],
            ),
        forall|i: int|
            0 <= i < rects.len() && (#[trigger] rects[i]).is_local_player != Some(true)
                ==> rects.filter(|rect: Rectangle| rect.is_local_player != Some(true)).contains(
                rects[i],
            ),
        ({
            let pl = rects.filter(|rect: Rectangle| rect.is_local_player == Some(true));
            let op = rects.filter(|rect: Rectangle| rect.is_local_player != Some(true));
            forall|r: Rectangle| #[trigger] pl.contains(r) ==> !op.contains(r)
        }),
{
    broadcast use vstd::seq_lib::group_filter_ensures;

}

/// The card a code resolves to: the catalog's first record for it, or a
/// bare card carrying only the code when the catalog does not know it —
/// unknown cards are tracked, just without metadata.
pub open spec fn spec_resolve(catalog: Seq<Card>, code: Seq<char>) -> CardView {
    match crate::card::spec_find_card(catalog, code) {
        Some(c) => c@,
        None => CardView::bare(code),
    }
}

/// What one side's rectangles do to its used-card deck and seen-id list:
/// each rectangle whose instance id was already seen is skipped; each new
/// one resolves its code against the catalog, files the card into the
/// deck, and marks the id seen.
pub open spec fn spec_process_rects(
    used: Seq<(CardView, i32)>,
    seen: Seq<i64>,
    rects: Seq<Rectangle>,
    catalog: Seq<Card>,
) -> (Seq<(CardView, i32)>, Seq<i64>)
    decreases rects.len(),
{
    if rects.len() == 0 {
        (used, seen)
    } else if seen.contains(rects[0].card_id) {
        spec_process_rects(used, seen, rects.drop_first(), catalog)
    } else {
        spec_process_rects(
            spec_add_entry(used, spec_resolve(catalog, rects[0].card_code@)),
            seen.push(rects[0].card_id),
            rects.drop_first(),
            catalog,
        )
    }
}

/// Whether `id` is among `ids`.
fn contains_id(ids: &Vec<i64>, id: i64) -> (r: bool)
    ensures
        r == ids@.contains(id),
{
    let mut i: usize = 0;
    while i < ids.len()
        invariant
            i <= ids@.len(),
            forall|j: int| 0 <= j < i ==> ids@[j] != id,
        decreases ids@.len() - i,
    {
        if ids[i] == id {
            return true;
        }
        i = i + 1;
    }
    false
}

/// A full match being tracked: the two display names, the screen, the
/// cumulative used-card decks of both sides with the instance ids already
/// counted into them, the player's immutable starting deck and the
/// placeholder for the player's current deck, and the result payload
/// recorded at match end.
///
/// How a played card should leave the current deck is unsettled upstream
/// (the dedup key and the removal trigger are unspecified), so the
/// current deck is carried unchanged: an extension point, not a rule this
/// crate invents.
pub struct Game {
    pub player: String,
    pub opponent: String,
    pub screen: Screen,
    pub player_cards_used: Deck,
    pub opponent_cards_used: Deck,
    pub initial_player_deck: Deck,
    pub current_player_deck: Deck,
    pub result: Option<JsonValue>,
    pub player_seen_ids: Vec<i64>,
    pub opponent_seen_ids: Vec<i64>,
}

impl Game {
    /// Both used-card decks are well-formed, so that more observations
    /// can always be filed into them.
    pub open spec fn wf(&self) -> bool {
        &&& self.player_cards_used.wf()
        &&& self.opponent_cards_used.wf()
    }

    /// Open a match: empty used-card decks, no ids seen, the given deck
    /// as both the immutable starting snapshot and the current deck, and
    /// no result yet.
    pub fn new(player: String, opponent: String, screen: Screen, player_deck: Deck) -> (r: Game)
        ensures
            r.wf(),
            r.player@ == player@,
            r.opponent@ == opponent@,
            r.screen == screen,
            r.player_cards_used.spec_entries() == Seq::<(CardView, i32)>::empty(),
            r.player_cards_used.spec_wins() == 0 && r.player_cards_used.spec_losses() == 0,
            r.opponent_cards_used.spec_entries() == Seq::<(CardView, i32)>::empty(),
            r.opponent_cards_used.spec_wins() == 0 && r.opponent_cards_used.spec_losses() == 0,
            r.initial_player_deck.spec_entries() == player_deck.spec_entries(),
            r.initial_player_deck.spec_deck_code() == player_deck.spec_deck_code(),
            r.initial_player_deck.spec_wins() == player_deck.spec_wins(),
            r.initial_player_deck.spec_losses() == player_deck.spec_losses(),
            r.current_player_deck.spec_entries() == player_deck.spec_entries(),
            r.current_player_deck.spec_deck_code() == player_deck.spec_deck_code(),
            r.result is None,
            r.player_seen_ids@ == Seq::<i64>::empty(),
            r.opponent_seen_ids@ == Seq::<i64>::empty(),
    {
        let empty_player: Vec<Card> = Vec::new();
        let empty_opponent: Vec<Card> = Vec::new();
        let player_cards_used = Deck::new(empty_player, 0, 0);
        let opponent_cards_used = Deck::new(empty_opponent, 0, 0);
        proof {
            assert(Seq::<Card>::empty().map_values(|c: Card| c@) =~= Seq::empty());
            assert(player_cards_used.spec_entries() =~= Seq::<(CardView, i32)>::empty());
            assert(opponent_cards_used.spec_entries() =~= Seq::<(CardView, i32)>::empty());
        }
        let initial_player_deck = player_deck.clone();
        Game {
            player,
            opponent,
            screen,
            player_cards_used,
            opponent_cards_used,
            initial_player_deck,
            current_player_deck: player_deck,
            result: None,
            player_seen_ids: Vec::new(),
            opponent_seen_ids: Vec::new(),
        }
    }

    /// Consume one classified frame: file each side's newly observed
    /// card instances into its used-card deck, resolving codes against
    /// the catalog, and mark their ids seen. Everything else — names,
    /// screen, starting and current deck, result — is untouched, and the
    /// outcome is a function of the prior state and the frame alone.
    pub fn process_frame(&mut self, frame: &GameFrame, catalog: &Catalog)
        requires
            old(self).wf(),
            catalog.wf(),
            catalog.index_points_first(),
        ensures
            final(self).wf(),
            (final(self).player_cards_used.spec_entries(), final(self).player_seen_ids@)
                == spec_process_rects(
                old(self).player_cards_used.spec_entries(),
                old(self).player_seen_ids@,
                frame.rectangles@.filter(|rect: Rectangle| rect.is_local_player == Some(true)),
                catalog.spec_cards(),
            ),
            (final(self).opponent_cards_used.spec_entries(), final(self).opponent_seen_ids@)
                == spec_process_rects(
                old(self).opponent_cards_used.spec_entries(),
                old(self).opponent_seen_ids@,
                frame.rectangles@.filter(|rect: Rectangle| rect.is_local_player != Some(true)),
                catalog.spec_cards(),
            ),
            final(self).player_cards_used.spec_wins() == old(self).player_cards_used.spec_wins(),
            final(self).player_cards_used.spec_losses() == old(
                self,
            ).player_cards_used.spec_losses(),
            final(self).opponent_cards_used.spec_wins() == old(
                self,
            ).opponent_cards_used.spec_wins(),
            final(self).opponent_cards_used.spec_losses() == old(
                self,
            ).opponent_cards_used.spec_losses(),
            final(self).player == old(self).player,
            final(self).opponent == old(self).opponent,
            final(self).screen == old(self).screen,
            final(self).initial_player_deck == old(self).initial_player_deck,
            final(self).current_player_deck == old(self).current_player_deck,
            final(self).result == old(self).result,
    {
        let prects = frame.player_rects();
        let ghost pr = prects@;
        let ghost u0 = self.player_cards_used.spec_entries();
        let ghost s0 = self.player_seen_ids@;
        let mut i: usize = 0;
        proof {
            assert(pr.skip(0) =~= pr);
        }
        while i < prects.len()
            invariant
                i <= pr.len(),
                pr == prects@,
                self.player_cards_used.wf(),
                self.opponent_cards_used.wf(),
                catalog.wf(),
                catalog.index_points_first(),
                spec_process_rects(u0, s0, pr, catalog.spec_cards()) == spec_process_rects(
                    self.player_cards_used.spec_entries(),
                    self.player_seen_ids@,
                    pr.skip(i as int),
                    catalog.spec_cards(),
                ),
                self.player == old(self).player,
                self.opponent == old(self).opponent,
                self.screen == old(self).screen,
                self.initial_player_deck == old(self).initial_player_deck,
                self.current_player_deck == old(self).current_player_deck,
                self.result == old(self).result,
                self.opponent_cards_used == old(self).opponent_cards_used,
                self.opponent_seen_ids == old(self).opponent_seen_ids,
                self.player_cards_used.spec_wins() == old(self).player_cards_used.spec_wins(),
                self.player_cards_used.spec_losses() == old(self).player_cards_used.spec_losses(),
            decreases pr.len() - i,
        {
            proof {
                assert(pr.skip(i as int)[0] == pr[i as int]);
                assert(pr.skip(i as int).drop_first() =~= pr.skip(i as int + 1));
            }
            let rect = &prects[i];
            if !contains_id(&self.player_seen_ids, rect.card_id) {
                let card = catalog.resolve(rect.card_code.as_str());
                self.player_cards_used.add_card(card);
                self.player_seen_ids.push(rect.card_id);
            }
            i = i + 1;
        }
        proof {
            assert(pr.skip(pr.len() as int) =~= Seq::<Rectangle>::empty());
        }

        let orects = frame.opponent_rects();
        let ghost or = orects@;
        let ghost u1 = self.opponent_cards_used.spec_entries();
        let ghost s1 = self.opponent_seen_ids@;
        let ghost pu_e = self.player_cards_used.spec_entries();
        let ghost pu_c = self.player_cards_used.spec_deck_code();
        let ghost pu_w = self.player_cards_used.spec_wins();
        let ghost pu_l = self.player_cards_used.spec_losses();
        let ghost ps = self.player_seen_ids@;
        let mut i: usize = 0;
        proof {
            assert(or.skip(0) =~= or);
        }
        while i < orects.len()
            invariant
                i <= or.len(),
                or == orects@,
                self.player_cards_used.wf(),
                self.opponent_cards_used.wf(),
                catalog.wf(),
                catalog.index_points_first(),
                spec_process_rects(u1, s1, or, catalog.spec_cards()) == spec_process_rects(
                    self.opponent_cards_used.spec_entries(),
                    self.opponent_seen_ids@,
                    or.skip(i as int),
                    catalog.spec_cards(),
                ),
                self.player == old(self).player,
                self.opponent == old(self).opponent,
                self.screen == old(self).screen,
                self.initial_player_deck == old(self).initial_player_deck,
                self.current_player_deck == old(self).current_player_deck,
                self.result == old(self).result,
                self.player_cards_used.wf(),
                self.player_cards_used.spec_entries() == pu_e,
                self.player_cards_used.spec_deck_code() == pu_c,
                self.player_cards_used.spec_wins() == pu_w,
                self.player_cards_used.spec_losses() == pu_l,
                self.player_seen_ids@ == ps,
                (pu_e, ps) == spec_process_rects(
                    old(self).player_cards_used.spec_entries(),
                    old(self).player_seen_ids@,
                    frame.rectangles@.filter(
                        |rect: Rectangle| rect.is_local_player == Some(true),
                    ),
                    catalog.spec_cards(),
                ),
                pu_w == old(self).player_cards_used.spec_wins(),
                pu_l == old(self).player_cards_used.spec_losses(),
                spec_process_rects(u1, s1, or, catalog.spec_cards()) == spec_process_rects(
                    old(self).opponent_cards_used.spec_entries(),
                    old(self).opponent_seen_ids@,
                    frame.rectangles@.filter(
                        |rect: Rectangle| rect.is_local_player != Some(true),
                    ),
                    catalog.spec_cards(),
                ),
                self.opponent_cards_used.spec_wins() == old(
                    self,
                ).opponent_cards_used.spec_wins(),
                self.opponent_cards_used.spec_losses() == old(
                    self,
                ).opponent_cards_used.spec_losses(),
            decreases or.len() - i,
        {
            proof {
                assert(or.skip(i as int)[0] == or[i as int]);
                assert(or.skip(i as int).drop_first() =~= or.skip(i as int + 1));
            }
            let rect = &orects[i];
            if !contains_id(&self.opponent_seen_ids, rect.card_id) {
                let card = catalog.resolve(rect.card_code.as_str());
                self.opponent_cards_used.add_card(card);
                self.opponent_seen_ids.push(rect.card_id);
            }
            i = i + 1;
        }
        proof {
            assert(or.skip(or.len() as int) =~= Seq::<Rectangle>::empty());
        }
    }

    /// Record the match outcome once: a result already recorded stays —
    /// a finished match is never reopened.
    pub fn record_result(&mut self, outcome: JsonValue)
        ensures
            final(self).result == (match old(self).result {
                Some(r) => Some(r),
                None => Some(outcome),
            }),
            final(self).player == old(self).player,
            final(self).opponent == old(self).opponent,
            final(self).screen == old(self).screen,
            final(self).player_cards_used == old(self).player_cards_used,
            final(self).opponent_cards_used == old(self).opponent_cards_used,
            final(self).initial_player_deck == old(self).initial_player_deck,
            final(self).current_player_deck == old(self).current_player_deck,
            final(self).player_seen_ids == old(self).player_seen_ids,
            final(self).opponent_seen_ids == old(self).opponent_seen_ids,
    {
        if self.result.is_none() {
            self.result = Some(outcome);
        }
    }
}

proof fn lemma_contains_push(s: Seq<i64>, x: i64, y: i64)
    ensures
        s.push(x).contains(y) <==> (s.contains(y) || x == y),
{
    if s.contains(y) {
        let i = choose|i: int| 0 <= i < s.len() && s[i] == y;
        assert(s.push(x)[i] == y);
    }
    if s.push(x).contains(y) {
        let i = choose|i: int| 0 <= i < s.push(x).len() && s.push(x)[i] == y;
        if i < s.len() {
            assert(s[i] == y);
        }
    }
    assert(s.push(x)[s.len() as int] == x);
}

/// After processing, every id that was seen before is still seen, and
/// every processed rectangle's id is seen.
proof fn lemma_process_marks_seen(
    used: Seq<(CardView, i32)>,
    seen: Seq<i64>,
    rects: Seq<Rectangle>,
    catalog: Seq<Card>,
)
    ensures
        ({
            let (u1, s1) = spec_process_rects(used, seen, rects, catalog);
            &&& forall|id: i64| seen.contains(id) ==> #[trigger] s1.contains(id)
            &&& forall|i: int|
                0 <= i < rects.len() ==> s1.contains((#[trigger] rects[i]).card_id)
        }),
    decreases rects.len(),
{
    if rects.len() > 0 {
        let (u1, s1) = spec_process_rects(used, seen, rects, catalog);
        if seen.contains(rects[0].card_id) {
            assert(spec_process_rects(used, seen, rects, catalog) == spec_process_rects(
                used,
                seen,
                rects.drop_first(),
                catalog,
            ));
            lemma_process_marks_seen(used, seen, rects.drop_first(), catalog);
            let (u2, s2) = spec_process_rects(used, seen, rects.drop_first(), catalog);
            assert(s1 == s2);
            assert forall|i: int|
                0 <= i < rects.len() implies s1.contains((#[trigger] rects[i]).card_id) by {
                if i > 0 {
                    assert(rects.drop_first()[i - 1] == rects[i]);
                } else {
                    assert(seen.contains(rects[0].card_id));
                }
            }
        } else {
            let seen2 = seen.push(rects[0].card_id);
            let used2 = spec_add_entry(used, spec_resolve(catalog, rects[0].card_code@));
            assert(spec_process_rects(used, seen, rects, catalog) == spec_process_rects(
                used2,
                seen2,
                rects.drop_first(),
                catalog,
            ));
            lemma_process_marks_seen(used2, seen2, rects.drop_first(), catalog);
            let (u2, s2) = spec_process_rects(used2, seen2, rects.drop_first(), catalog);
            assert(s1 == s2);
            assert forall|id: i64| seen.contains(id) implies #[trigger] s1.contains(id) by {
                lemma_contains_push(seen, rects[0].card_id, id);
                assert(seen2.contains(id));
            }
            assert forall|i: int|
                0 <= i < rects.len() implies s1.contains((#[trigger] rects[i]).card_id) by {
                if i > 0 {
                    assert(rects.drop_first()[i - 1] == rects[i]);
                } else {
                    lemma_contains_push(seen, rects[0].card_id, rects[0].card_id);
                    assert(seen2.contains(rects[0].card_id));
                }
            }
        }
    }
}

/// Rectangles whose ids are all seen already change nothing.
proof fn lemma_process_all_seen(
    used: Seq<(CardView, i32)>,
    seen: Seq<i64>,
    rects: Seq<Rectangle>,
    catalog: Seq<Card>,
)
    requires
        forall|i: int| 0 <= i < rects.len() ==> seen.contains((#[trigger] rects[i]).card_id),
    ensures
        spec_process_rects(used, seen, rects, catalog) == (used, seen),
    decreases rects.len(),
{
    if rects.len() > 0 {
        assert(forall|i: int|
            0 <= i < rects.drop_first().len() ==> rects.drop_first()[i] == rects[i + 1]);
        lemma_process_all_seen(used, seen, rects.drop_first(), catalog);
    }
}

/// The idempotence law: an instance id counts once. Processing one
/// side's rectangles a second time — the same frame re-observed — leaves
/// the used-card deck and the seen ids exactly as they were, so
/// re-observing a `card_id` never raises a count.
pub proof fn lemma_reobservation_idempotent(
    used: Seq<(CardView, i32)>,
    seen: Seq<i64>,
    rects: Seq<Rectangle>,
    catalog: Seq<Card>,
)
    ensures
        ({
            let (u1, s1) = spec_process_rects(used, seen, rects, catalog);
            spec_process_rects(u1, s1, rects, catalog) == (u1, s1)
        }),
{
    let (u1, s1) = spec_process_rects(used, seen, rects, catalog);
    lemma_process_marks_seen(used, seen, rects, catalog);
    lemma_process_all_seen(u1, s1, rects, catalog);
}

/// A rectangle whose instance id is already recorded contributes
/// nothing, wherever in a later frame it turns up: the rest of the
/// frame is processed as if the re-observation were not there.
pub proof fn lemma_reobserved_rect_changes_nothing(
    used: Seq<(CardView, i32)>,
    seen: Seq<i64>,
    rect: Rectangle,
    rest: Seq<Rectangle>,
    catalog: Seq<Card>,
)
    requires
        seen.contains(rect.card_id),
    ensures
        spec_process_rects(used, seen, seq![rect] + rest, catalog) == spec_process_rects(
            used,
            seen,
            rest,
            catalog,
        ),
{
    let rects = seq![rect] + rest;
    assert(rects[0] == rect);
    assert(rects.drop_first() =~= rest);
}

/// The replay law: the tracker's update is a function of the prior state
/// and the frame alone — `process_frame` pins its outcome, including the
/// deck code the encoder hands back, to `spec_process_rects`. Two fresh
/// trackers fed one frame sequence therefore hold identical used-card
/// decks after every step.
pub proof fn lemma_replay_deterministic(
    used1: Seq<(CardView, i32)>,
    seen1: Seq<i64>,
    used2: Seq<(CardView, i32)>,
    seen2: Seq<i64>,
    rects: Seq<Rectangle>,
    catalog: Seq<Card>,
)
    requires
        used1 == used2,
        seen1 == seen2,
    ensures
        spec_process_rects(used1, seen1, rects, catalog) == spec_process_rects(
            used2,
            seen2,
            rects,
            catalog,
        ),
{
}

/// The draft ("expedition") mode's state, assembled from one flat
/// key/value snapshot, with an explicit default for every absent field.
/// The activity flag and the textual state are both taken from the input
/// as they are: their consistency is the upstream data's business, and
/// neither implies the other here.
pub struct ExpeditionState {
    pub is_active: bool,
    pub state: String,
    pub record: Vec<JsonValue>,
    pub draft_picks: Vec<JsonValue>,
    pub deck: Option<Deck>,
    pub games_played: i64,
    pub wins: i64,
    pub losses: i64,
}

impl ExpeditionState {
    /// Read the expedition state from a snapshot object: the activity
    /// flag defaults to false, the state label to "Inactive", the
    /// outcome record and draft picks to empty lists, the counters to
    /// zero; no deck is associated at this point.
    pub fn new(info: &Vec<(String, JsonValue)>) -> (r: ExpeditionState)
        ensures
            r.is_active == (match spec_bool_opt(info@, "IsActive"@) {
                Some(b) => b,
                None => false,
            }),
            r.state@ == spec_str_or(info@, "State"@, "Inactive"@),
            json_views(r.record@) == spec_array_views(info@, "Record"@),
            json_views(r.draft_picks@) == spec_array_views(info@, "DraftPicks"@),
            r.deck is None,
            r.games_played == spec_i64_or(info@, "Games"@, 0),
            r.wins == spec_i64_or(info@, "Wins"@, 0),
            r.losses == spec_i64_or(info@, "Losses"@, 0),
    {
        ExpeditionState {
            is_active: get_bool_or(info, "IsActive", false),
            state: get_str_or(info, "State", "Inactive"),
            record: get_array_or_empty(info, "Record"),
            draft_picks: get_array_or_empty(info, "DraftPicks"),
            deck: None,
            games_played: get_i64_or(info, "Games", 0),
            wins: get_i64_or(info, "Wins", 0),
            losses: get_i64_or(info, "Losses", 0),
        }
    }
}

} // verus!
