use vstd::prelude::*;

use crate::json::{
    get_str_list_opt, get_str_opt, get_u32_opt, lookup, spec_str_list_opt, spec_str_opt,
    spec_u32_opt, JsonValue,
};
use vstd::hash_map::StringHashMap;

verus! {

/// Where the images of a card live, as the catalog reports them.
pub struct Asset {
    pub game_absolute_path: Option<String>,
    pub full_absolute_path: Option<String>,
}

/// Mathematical model of an `Asset`.
pub struct AssetView {
    pub game_absolute_path: Option<Seq<char>>,
    pub full_absolute_path: Option<Seq<char>>,
}

impl View for Asset {
    type V = AssetView;

    open spec fn view(&self) -> AssetView {
        AssetView {
            game_absolute_path: self.game_absolute_path.deep_view(),
            full_absolute_path: self.full_absolute_path.deep_view(),
        }
    }
}

impl DeepView for Asset {
    type V = AssetView;

    open spec fn deep_view(&self) -> AssetView {
        self.view()
    }
}

impl Clone for Asset {
    /// A clone carries the same model as the original.
    fn clone(&self) -> (res: Self)
        ensures
            res@ == self@,
    {
        Asset {
            game_absolute_path: self.game_absolute_path.clone(),
            full_absolute_path: self.full_absolute_path.clone(),
        }
    }
}

/// A card with its catalog metadata. The card code is its identity: it is
/// the one field a record must offer before a `Card` may be built, and two
/// cards count as the same card exactly when their codes match. Every
/// other attribute is optional, so that a missing field in a record means
/// "absent", never a default that could be mistaken for real data.
pub struct Card {
    pub card_code: String,
    pub name: Option<String>,
    pub cost: Option<u32>,
    pub attack: Option<u32>,
    pub health: Option<u32>,
    pub rarity: Option<String>,
    pub regions: Option<Vec<String>>,
    pub card_type: Option<String>,
    pub supertype: Option<String>,
    pub keywords: Option<Vec<String>>,
    pub description: Option<String>,
    pub assets: Option<Vec<Asset>>,
}

/// Mathematical model of a `Card`.
pub struct CardView {
    pub card_code: Seq<char>,
    pub name: Option<Seq<char>>,
    pub cost: Option<u32>,
    pub attack: Option<u32>,
    pub health: Option<u32>,
    pub rarity: Option<Seq<char>>,
    pub regions: Option<Seq<Seq<char>>>,
    pub card_type: Option<Seq<char>>,
    pub supertype: Option<Seq<char>>,
    pub keywords: Option<Seq<Seq<char>>>,
    pub description: Option<Seq<char>>,
    pub assets: Option<Seq<AssetView>>,
}

impl View for Card {
    type V = CardView;

    open spec fn view(&self) -> CardView {
        CardView {
            card_code: self.card_code@,
            name: self.name.deep_view(),
            cost: self.cost,
            attack: self.attack,
            health: self.health,
            rarity: self.rarity.deep_view(),
            regions: self.regions.deep_view(),
            card_type: self.card_type.deep_view(),
            supertype: self.supertype.deep_view(),
            keywords: self.keywords.deep_view(),
            description: self.description.deep_view(),
            assets: self.assets.deep_view(),
        }
    }
}

proof fn lemma_clone_opt_string(a: Option<String>, b: Option<String>)
    requires
        a is None <==> b is None,
        a is Some ==> cloned::<String>(a->0, b->0),
    ensures
        a.deep_view() == b.deep_view(),
{
}

proof fn lemma_clone_opt_string_vec(a: Option<Vec<String>>, b: Option<Vec<String>>)
    requires
        a is None <==> b is None,
        a is Some ==> cloned::<Vec<String>>(a->0, b->0),
    ensures
        a.deep_view() == b.deep_view(),
{
    if a is Some {
        let v1 = a->0;
        let v2 = b->0;
        if v1 == v2 {
            assert(v1.deep_view() =~= v2.deep_view());
        } else {
            assert(forall|i: int|
                #![all_triggers]
                0 <= i < v1.len() ==> cloned::<String>(v1[i], v2[i]));
            assert(v1.deep_view() =~= v2.deep_view());
        }
    }
}

proof fn lemma_clone_opt_asset_vec(a: Option<Vec<Asset>>, b: Option<Vec<Asset>>)
    requires
        a is None <==> b is None,
        a is Some ==> cloned::<Vec<Asset>>(a->0, b->0),
    ensures
        a.deep_view() == b.deep_view(),
{
    if a is Some {
        let v1 = a->0;
        let v2 = b->0;
        if v1 == v2 {
            assert(v1.deep_view() =~= v2.deep_view());
        } else {
            assert(forall|i: int|
                #![all_triggers]
                0 <= i < v1.len() ==> cloned::<Asset>(v1[i], v2[i]));
            assert(forall|i: int| 0 <= i < v1.len() ==> v1[i]@ == v2[i]@);
            assert(v1.deep_view() =~= v2.deep_view());
        }
    }
}

impl Clone for Card {
    /// A clone carries the same model as the original.
    fn clone(&self) -> (res: Self)
        ensures
            res@ == self@,
    {
        let res = Card {
            card_code: self.card_code.clone(),
            name: self.name.clone(),
            cost: self.cost,
            attack: self.attack,
            health: self.health,
            rarity: self.rarity.clone(),
            regions: self.regions.clone(),
            card_type: self.card_type.clone(),
            supertype: self.supertype.clone(),
            keywords: self.keywords.clone(),
            description: self.description.clone(),
            assets: self.assets.clone(),
        };
        proof {
            lemma_clone_opt_string(self.name, res.name);
            lemma_clone_opt_string(self.rarity, res.rarity);
            lemma_clone_opt_string(self.card_type, res.card_type);
            lemma_clone_opt_string(self.supertype, res.supertype);
            lemma_clone_opt_string(self.description, res.description);
            lemma_clone_opt_string_vec(self.regions, res.regions);
            lemma_clone_opt_string_vec(self.keywords, res.keywords);
            lemma_clone_opt_asset_vec(self.assets, res.assets);
        }
        res
    }
}

pub open spec fn is_digit(c: char) -> bool {
    '0' <= c <= '9'
}

pub open spec fn digit_value(c: char) -> int {
    (c as u32) - ('0' as u32)
}

/// The set number a card code encodes in its first two characters; a
/// code too short or not starting with two digits yields set zero, a
/// defined default rather than an error, so that malformed codes never
/// abort processing.
pub open spec fn spec_set_number(code: Seq<char>) -> u32 {
    if code.len() >= 2 && is_digit(code[0]) && is_digit(code[1]) {
        (digit_value(code[0]) * 10 + digit_value(code[1])) as u32
    } else {
        0
    }
}

impl Card {
    /// The set this card was printed in, read from the first two
    /// characters of its code; zero when they are not two digits.
    pub fn set_number(&self) -> (r: u32)
        ensures
            r == spec_set_number(self.card_code@),
    {
        let code = self.card_code.as_str();
        if code.unicode_len() < 2 {
            return 0;
        }
        let c0 = code.get_char(0);
        let c1 = code.get_char(1);
        if '0' <= c0 && c0 <= '9' && '0' <= c1 && c1 <= '9' {
            (c0 as u32 - '0' as u32) * 10 + (c1 as u32 - '0' as u32)
        } else {
            0
        }
    }
}

impl PartialEq for Card {
    /// Two cards are the same card exactly when their codes match: a
    /// card's identity is its code, never its instance data.
    fn eq(&self, other: &Self) -> (r: bool) {
        self.card_code == other.card_code
    }
}

impl vstd::std_specs::cmp::PartialEqSpecImpl for Card {
    open spec fn obeys_eq_spec() -> bool {
        true
    }

    open spec fn eq_spec(&self, other: &Card) -> bool {
        self.card_code@ == other.card_code@
    }
}

impl CardView {
    /// The model of a card built from its code alone, every catalog
    /// attribute absent.
    pub open spec fn bare(code: Seq<char>) -> CardView {
        CardView {
            card_code: code,
            name: None,
            cost: None,
            attack: None,
            health: None,
            rarity: None,
            regions: None,
            card_type: None,
            supertype: None,
            keywords: None,
            description: None,
            assets: None,
        }
    }
}

/// Model of the asset record read from one raw catalog value; values that
/// are not objects carry no asset.
pub open spec fn spec_asset_of(entries: Seq<(String, JsonValue)>) -> AssetView {
    AssetView {
        game_absolute_path: spec_str_opt(entries, "game_absolute_path"@),
        full_absolute_path: spec_str_opt(entries, "full_absolute_path"@),
    }
}

/// The assets among `items`, in order; anything that is not an object is
/// dropped.
pub open spec fn spec_assets(items: Seq<JsonValue>) -> Seq<AssetView>
    decreases items.len(),
{
    if items.len() == 0 {
        Seq::empty()
    } else {
        match items[0] {
            JsonValue::Object(entries) => seq![spec_asset_of(entries@)] + spec_assets(
                items.drop_first(),
            ),
            _ => spec_assets(items.drop_first()),
        }
    }
}

pub open spec fn spec_assets_opt(entries: Seq<(String, JsonValue)>) -> Option<Seq<AssetView>> {
    match crate::json::spec_lookup(entries, "assets"@) {
        Some(JsonValue::Array(items)) => Some(spec_assets(items@)),
        _ => None,
    }
}

proof fn lemma_assets_push(items: Seq<JsonValue>, v: JsonValue)
    ensures
        spec_assets(items.push(v)) == match v {
            JsonValue::Object(entries) => spec_assets(items).push(spec_asset_of(entries@)),
            _ => spec_assets(items),
        },
    decreases items.len(),
{
    if items.len() == 0 {
        assert(items.push(v).drop_first() =~= Seq::empty());
        assert(items =~= Seq::empty());
        match v {
            JsonValue::Object(entries) => {
                assert(spec_assets(items.push(v)) =~= spec_assets(items).push(
                    spec_asset_of(entries@),
                ));
            },
            _ => {},
        }
    } else {
        assert(items.push(v).drop_first() =~= items.drop_first().push(v));
        lemma_assets_push(items.drop_first(), v);
        match v {
            JsonValue::Object(entries) => {
                assert(spec_assets(items.push(v)) =~= spec_assets(items).push(
                    spec_asset_of(entries@),
                ));
            },
            _ => {},
        }
    }
}

/// Read the asset list stored under `assets`, dropping elements that are
/// not objects.
fn parse_assets(entries: &Vec<(String, JsonValue)>) -> (r: Option<Vec<Asset>>)
    ensures
        r.deep_view() == spec_assets_opt(entries@),
{
    match lookup(entries, "assets") {
        Some(v) => match v.as_array() {
            Some(items) => {
                let mut out: Vec<Asset> = Vec::new();
                let mut i: usize = 0;
                proof {
                    assert(items@.take(0) =~= Seq::empty());
                }
                while i < items.len()
                    invariant
                        i <= items@.len(),
                        out.deep_view() == spec_assets(items@.take(i as int)),
                    decreases items@.len() - i,
                {
                    proof {
                        assert(items@.take(i as int).push(items@[i as int]) =~= items@.take(
                            i as int + 1,
                        ));
                        lemma_assets_push(items@.take(i as int), items@[i as int]);
                    }
                    match items[i].as_object() {
                        Some(obj) => {
                            let asset = Asset {
                                game_absolute_path: get_str_opt(obj, "game_absolute_path"),
                                full_absolute_path: get_str_opt(obj, "full_absolute_path"),
                            };
                            out.push(asset);
                            proof {
                                assert(out.deep_view() =~= spec_assets(items@.take(i as int + 1)));
                            }
                        },
                        None => (),
                    }
                    i = i + 1;
                }
                proof {
                    assert(items@.take(items@.len() as int) =~= items@);
                }
                Some(out)
            },
            None => None,
        },
        None => None,
    }
}

/// Model of the card read from the entries of one raw catalog record,
/// given the code found under `card_code`.
pub open spec fn spec_card_of(entries: Seq<(String, JsonValue)>, code: Seq<char>) -> CardView {
    CardView {
        card_code: code,
        name: spec_str_opt(entries, "name"@),
        cost: spec_u32_opt(entries, "cost"@),
        attack: spec_u32_opt(entries, "attack"@),
        health: spec_u32_opt(entries, "health"@),
        rarity: spec_str_opt(entries, "rarity"@),
        regions: spec_str_list_opt(entries, "regions"@),
        card_type: spec_str_opt(entries, "card_type"@),
        supertype: spec_str_opt(entries, "supertype"@),
        keywords: spec_str_list_opt(entries, "keywords"@),
        description: spec_str_opt(entries, "description"@),
        assets: spec_assets_opt(entries),
    }
}

/// Model of `Card::new`: a record yields a card exactly when it is an
/// object holding a string under `card_code`.
pub open spec fn spec_card_new(record: JsonValue) -> Option<CardView> {
    match record {
        JsonValue::Object(entries) => match spec_str_opt(entries@, "card_code"@) {
            Some(code) => Some(spec_card_of(entries@, code)),
            None => None,
        },
        _ => None,
    }
}

impl Card {
    /// Read one raw catalog record. The record must be an object holding
    /// a string card code; every other attribute is optional, and a field
    /// of the wrong shape counts as absent rather than failing the record.
    pub fn new(record: &JsonValue) -> (r: Option<Card>)
        ensures
            r is Some <==> spec_card_new(*record) is Some,
            r is Some ==> r->0@ == spec_card_new(*record)->0,
    {
        let entries = match record.as_object() {
            Some(entries) => entries,
            None => {
                return None;
            },
        };
        let code = match get_str_opt(entries, "card_code") {
            Some(code) => code,
            None => {
                return None;
            },
        };
        Some(
            Card {
                card_code: code,
                name: get_str_opt(entries, "name"),
                cost: get_u32_opt(entries, "cost"),
                attack: get_u32_opt(entries, "attack"),
                health: get_u32_opt(entries, "health"),
                rarity: get_str_opt(entries, "rarity"),
                regions: get_str_list_opt(entries, "regions"),
                card_type: get_str_opt(entries, "card_type"),
                supertype: get_str_opt(entries, "supertype"),
                keywords: get_str_list_opt(entries, "keywords"),
                description: get_str_opt(entries, "description"),
                assets: parse_assets(entries),
            },
        )
    }

    /// A card known only by its code: how an observation is kept when the
    /// catalog has no record for it.
    pub fn from_code(code: String) -> (r: Card)
        ensures
            r@ == CardView::bare(code@),
    {
        Card {
            card_code: code,
            name: None,
            cost: None,
            attack: None,
            health: None,
            rarity: None,
            regions: None,
            card_type: None,
            supertype: None,
            keywords: None,
            description: None,
            assets: None,
        }
    }
}

/// Whether a raw record is the catalog record for `code`: an object whose
/// `card_code` entry is that string.
pub open spec fn spec_is_record_for(v: JsonValue, code: Seq<char>) -> bool {
    match v {
        JsonValue::Object(entries) => spec_str_opt(entries@, "card_code"@) == Some(code),
        _ => false,
    }
}

/// The first raw record for `code` among `cards`, if any.
pub open spec fn spec_card_info(cards: Seq<JsonValue>, code: Seq<char>) -> Option<JsonValue>
    decreases cards.len(),
{
    if cards.len() == 0 {
        None
    } else if spec_is_record_for(cards[0], code) {
        Some(cards[0])
    } else {
        spec_card_info(cards.drop_first(), code)
    }
}

impl Card {
    /// Find the raw catalog record whose `card_code` entry equals
    /// `card_code`, returning a copy of the first match; an absent code
    /// yields nothing rather than an error.
    pub fn card_info(cards: &Vec<JsonValue>, card_code: &str) -> (r: Option<JsonValue>)
        ensures
            match r {
                Some(v) => spec_card_info(cards@, card_code@) matches Some(w) && v@ == w@,
                None => spec_card_info(cards@, card_code@) is None,
            },
    {
        let code_owned: String = card_code.to_owned();
        let mut i: usize = 0;
        proof {
            assert(cards@.skip(0) =~= cards@);
        }
        while i < cards.len()
            invariant
                i <= cards@.len(),
                code_owned@ == card_code@,
                spec_card_info(cards@, card_code@) == spec_card_info(
                    cards@.skip(i as int),
                    card_code@,
                ),
            decreases cards@.len() - i,
        {
            proof {
                assert(cards@.skip(i as int).len() > 0);
                assert(cards@.skip(i as int)[0] == cards@[i as int]);
                assert(cards@.skip(i as int).drop_first() =~= cards@.skip(i as int + 1));
            }
            let found = match cards[i].as_object() {
                Some(entries) => match get_str_opt(entries, "card_code") {
                    Some(code) => code == code_owned,
                    None => false,
                },
                None => false,
            };
            if found {
                return Some(cards[i].clone());
            }
            i = i + 1;
        }
        proof {
            assert(cards@.skip(i as int) =~= Seq::empty());
        }
        None
    }
}

/// The first card among `cards` whose code is `code`, if any.
pub open spec fn spec_find_card(cards: Seq<Card>, code: Seq<char>) -> Option<Card>
    decreases cards.len(),
{
    if cards.len() == 0 {
        None
    } else if cards[0].card_code@ == code {
        Some(cards[0])
    } else {
        spec_find_card(cards.drop_first(), code)
    }
}

/// A code the search does not find is carried by no card at all.
pub proof fn lemma_find_card_none(cards: Seq<Card>, code: Seq<char>)
    requires
        spec_find_card(cards, code) is None,
    ensures
        forall|j: int| 0 <= j < cards.len() ==> cards[j].card_code@ != code,
    decreases cards.len(),
{
    if cards.len() > 0 {
        lemma_find_card_none(cards.drop_first(), code);
        assert forall|j: int| 0 <= j < cards.len() implies cards[j].card_code@ != code by {
            if j > 0 {
                assert(cards.drop_first()[j - 1] == cards[j]);
            }
        }
    }
}

pub proof fn lemma_find_card_push(cards: Seq<Card>, c: Card, code: Seq<char>)
    ensures
        spec_find_card(cards.push(c), code) == match spec_find_card(cards, code) {
            Some(found) => Some(found),
            None => if c.card_code@ == code {
                Some(c)
            } else {
                None
            },
        },
    decreases cards.len(),
{
    if cards.len() == 0 {
        assert(cards.push(c).drop_first() =~= Seq::empty());
        assert(cards =~= Seq::empty());
    } else {
        assert(cards.push(c).drop_first() =~= cards.drop_first().push(c));
        lemma_find_card_push(cards.drop_first(), c, code);
    }
}

/// The cards read from a sequence of raw records, in order; records that
/// yield no card (no object, or no card code) are dropped.
pub open spec fn spec_catalog_cards(records: Seq<JsonValue>) -> Seq<CardView>
    decreases records.len(),
{
    if records.len() == 0 {
        Seq::empty()
    } else {
        match spec_card_new(records[0]) {
            Some(cv) => seq![cv] + spec_catalog_cards(records.drop_first()),
            None => spec_catalog_cards(records.drop_first()),
        }
    }
}

proof fn lemma_catalog_cards_push(records: Seq<JsonValue>, v: JsonValue)
    ensures
        spec_catalog_cards(records.push(v)) == match spec_card_new(v) {
            Some(cv) => spec_catalog_cards(records).push(cv),
            None => spec_catalog_cards(records),
        },
    decreases records.len(),
{
    if records.len() == 0 {
        assert(records.push(v).drop_first() =~= Seq::empty());
        assert(records =~= Seq::empty());
        match spec_card_new(v) {
            Some(cv) => {
                assert(spec_catalog_cards(records.push(v)) =~= spec_catalog_cards(records).push(
                    cv,
                ));
            },
            None => {},
        }
    } else {
        assert(records.push(v).drop_first() =~= records.drop_first().push(v));
        lemma_catalog_cards_push(records.drop_first(), v);
        match spec_card_new(v) {
            Some(cv) => {
                assert(spec_catalog_cards(records.push(v)) =~= spec_catalog_cards(records).push(
                    cv,
                ));
            },
            None => {},
        }
    }
}

/// The card catalog, pre-indexed by card code: lookup walks a hash map
/// instead of the record list, as one lookup is made per newly observed
/// card per frame.
pub struct Catalog {
    cards: Vec<Card>,
    index: StringHashMap<usize>,
}

impl Catalog {
    /// The cards of the catalog, in record order.
    pub closed spec fn spec_cards(&self) -> Seq<Card> {
        self.cards@
    }

    /// The cards of the catalog, in record order.
    pub fn cards(&self) -> (r: &Vec<Card>)
        ensures
            r@ == self.spec_cards(),
    {
        &self.cards
    }

    /// The index is sound and complete for the card list: a code is
    /// indexed exactly when some card carries it, and it is indexed at
    /// the position of the first such card.
    pub closed spec fn wf(&self) -> bool {
        forall|code: Seq<char>|
            #[trigger] self.index@.contains_key(code) <==> spec_find_card(self.spec_cards(), code)
                is Some
    }

    pub closed spec fn index_points_first(&self) -> bool {
        forall|code: Seq<char>| #[trigger]
            self.index@.contains_key(code) ==> {
                let i = self.index@[code] as int;
                &&& 0 <= i < self.cards@.len()
                &&& self.cards@[i].card_code@ == code
                &&& forall|j: int| 0 <= j < i ==> self.cards@[j].card_code@ != code
            }
    }

    /// Build the catalog from raw records, dropping records that carry no
    /// card code, and remembering for each code where its first card
    /// stands.
    pub fn new(records: &Vec<JsonValue>) -> (r: Catalog)
        ensures
            r.wf(),
            r.index_points_first(),
            r.spec_cards().map_values(|c: Card| c@) == spec_catalog_cards(records@),
    {
        let mut cards: Vec<Card> = Vec::new();
        let mut index: StringHashMap<usize> = StringHashMap::new();
        let mut i: usize = 0;
        proof {
            assert(records@.take(0) =~= Seq::empty());
            assert(cards@.map_values(|c: Card| c@) =~= spec_catalog_cards(records@.take(0)));
        }
        while i < records.len()
            invariant
                i <= records@.len(),
                cards@.map_values(|c: Card| c@) == spec_catalog_cards(records@.take(i as int)),
                forall|code: Seq<char>|
                    #[trigger] index@.contains_key(code) <==> spec_find_card(cards@, code)
                        is Some,
                forall|code: Seq<char>| #[trigger]
                    index@.contains_key(code) ==> {
                        let k = index@[code] as int;
                        &&& 0 <= k < cards@.len()
                        &&& cards@[k].card_code@ == code
                        &&& forall|j: int| 0 <= j < k ==> cards@[j].card_code@ != code
                    },
            decreases records@.len() - i,
        {
            proof {
                assert(records@.take(i as int).push(records@[i as int]) =~= records@.take(
                    i as int + 1,
                ));
                lemma_catalog_cards_push(records@.take(i as int), records@[i as int]);
            }
            match Card::new(&records[i]) {
                Some(card) => {
                    proof {
                        assert forall|code: Seq<char>| true implies {
                            spec_find_card(cards@.push(card), code) == (match spec_find_card(
                                cards@,
                                code,
                            ) {
                                Some(found) => Some(found),
                                None => if card.card_code@ == code {
                                    Some(card)
                                } else {
                                    None
                                },
                            })
                        } by {
                            lemma_find_card_push(cards@, card, code);
                        }
                    }
                    if !index.contains_key(card.card_code.as_str()) {
                        proof {
                            lemma_find_card_none(cards@, card.card_code@);
                        }
                        index.insert(card.card_code.clone(), cards.len());
                    }
                    let ghost old_cards = cards@;
                    cards.push(card);
                    proof {
                        assert(cards@.map_values(|c: Card| c@) =~= spec_catalog_cards(
                            records@.take(i as int + 1),
                        ));
                        assert(cards@ == old_cards.push(card));
                    }
                },
                None => (),
            }
            i = i + 1;
        }
        proof {
            assert(records@.take(records@.len() as int) =~= records@);
        }
        Catalog { cards, index }
    }

    /// Resolve a card code against the catalog. A code the catalog knows
    /// yields a copy of its first record's card; an unknown code still
    /// yields a card, carrying the code and nothing else, so that an
    /// unknown observation never aborts match tracking.
    pub fn resolve(&self, code: &str) -> (r: Card)
        requires
            self.wf(),
            self.index_points_first(),
        ensures
            r@ == match spec_find_card(self.spec_cards(), code@) {
                Some(c) => c@,
                None => CardView::bare(code@),
            },
    {
        match self.index.get(code) {
            Some(i) => {
                proof {
                    lemma_find_card_first(self.cards@, code@, self.index@[code@] as int);
                }
                self.cards[*i].clone()
            },
            None => Card::from_code(code.to_owned()),
        }
    }
}

/// When position `i` holds the first card with `code`, the search finds
/// exactly that card.
pub proof fn lemma_find_card_first(cards: Seq<Card>, code: Seq<char>, i: int)
    requires
        0 <= i < cards.len(),
        cards[i].card_code@ == code,
        forall|j: int| 0 <= j < i ==> cards[j].card_code@ != code,
    ensures
        spec_find_card(cards, code) == Some(cards[i]),
    decreases i,
{
    if i == 0 {
    } else {
        assert(cards.drop_first()[i - 1] == cards[i]);
        assert(forall|j: int| 0 <= j < i - 1 ==> cards.drop_first()[j] == cards[j + 1]);
        lemma_find_card_first(cards.drop_first(), code, i - 1);
    }
}

} // verus!
