use vstd::prelude::*;

verus! {

/// Mathematical model of one JSON-like value: what a snapshot or catalog
/// record contains once the transport layer has parsed it.
pub enum JsonView {
    Null,
    Bool(bool),
    Int(i64),
    Str(Seq<char>),
    Array(Seq<JsonView>),
    Object(Seq<(Seq<char>, JsonView)>),
}

/// One parsed JSON-like value, as the host hands it to the core after
/// transport and parsing. Numbers outside the signed 64-bit integer range
/// (and floating-point numbers) are represented as `Null`: every consumer
/// in this crate reads integers, booleans, strings, arrays and objects only,
/// and treats anything else as an absent value.
pub enum JsonValue {
    Null,
    Bool(bool),
    Int(i64),
    Str(String),
    Array(Vec<JsonValue>),
    Object(Vec<(String, JsonValue)>),
}

pub open spec fn json_view(v: JsonValue) -> JsonView
    decreases v,
{
    match v {
        JsonValue::Null => JsonView::Null,
        JsonValue::Bool(b) => JsonView::Bool(b),
        JsonValue::Int(i) => JsonView::Int(i),
        JsonValue::Str(s) => JsonView::Str(s@),
        JsonValue::Array(items) => JsonView::Array(json_views(items@)),
        JsonValue::Object(entries) => JsonView::Object(json_entry_views(entries@)),
    }
}

pub open spec fn json_views(s: Seq<JsonValue>) -> Seq<JsonView>
    decreases s,
{
    if s.len() == 0 {
        Seq::empty()
    } else {
        seq![json_view(s[0])] + json_views(s.drop_first())
    }
}

pub open spec fn json_entry_views(s: Seq<(String, JsonValue)>) -> Seq<(Seq<char>, JsonView)>
    decreases s,
{
    if s.len() == 0 {
        Seq::empty()
    } else {
        seq![(s[0].0@, json_view(s[0].1))] + json_entry_views(s.drop_first())
    }
}

impl View for JsonValue {
    type V = JsonView;

    open spec fn view(&self) -> JsonView {
        json_view(*self)
    }
}

pub broadcast proof fn lemma_json_views_index(s: Seq<JsonValue>)
    ensures
        (#[trigger] json_views(s)).len() == s.len(),
        forall|i: int| 0 <= i < s.len() ==> json_views(s)[i] == json_view(s[i]),
    decreases s,
{
    if s.len() > 0 {
        lemma_json_views_index(s.drop_first());
    }
}

pub broadcast proof fn lemma_json_entry_views_index(s: Seq<(String, JsonValue)>)
    ensures
        (#[trigger] json_entry_views(s)).len() == s.len(),
        forall|i: int|
            0 <= i < s.len() ==> json_entry_views(s)[i] == (s[i].0@, json_view(s[i].1)),
    decreases s,
{
    if s.len() > 0 {
        lemma_json_entry_views_index(s.drop_first());
    }
}

fn clone_values(items: &Vec<JsonValue>) -> (out: Vec<JsonValue>)
    ensures
        out@.len() == items@.len(),
        forall|j: int| 0 <= j < items@.len() ==> out@[j]@ == items@[j]@,
    decreases items@,
{
    let mut out: Vec<JsonValue> = Vec::new();
    let mut i: usize = 0;
    while i < items.len()
        invariant
            i <= items.len(),
            out@.len() == i,
            forall|j: int| 0 <= j < i ==> out@[j]@ == items@[j]@,
        decreases items@.len() - i,
    {
        proof {
            broadcast use vstd::seq::axiom_seq_index_decreases;

            assert(decreases_to!(items@ => items@[i as int]));
        }
        out.push(items[i].clone());
        i = i + 1;
    }
    out
}

fn clone_entries(entries: &Vec<(String, JsonValue)>) -> (out: Vec<(String, JsonValue)>)
    ensures
        out@.len() == entries@.len(),
        forall|j: int|
            0 <= j < entries@.len() ==> out@[j].0@ == entries@[j].0@ && out@[j].1@
                == entries@[j].1@,
    decreases entries@,
{
    let mut out: Vec<(String, JsonValue)> = Vec::new();
    let mut i: usize = 0;
    while i < entries.len()
        invariant
            i <= entries.len(),
            out@.len() == i,
            forall|j: int|
                0 <= j < i ==> out@[j].0@ == entries@[j].0@ && out@[j].1@ == entries@[j].1@,
        decreases entries@.len() - i,
    {
        proof {
            broadcast use vstd::seq::axiom_seq_index_decreases;

            assert(decreases_to!(entries@ => entries@[i as int]));
            assert(decreases_to!(entries@[i as int] => entries@[i as int].1));
        }
        let entry = (entries[i].0.clone(), entries[i].1.clone());
        out.push(entry);
        i = i + 1;
    }
    out
}

impl JsonValue {
    /// The integer behind this value, if it is one.
    pub fn as_i64(&self) -> (r: Option<i64>)
        ensures
            r == self.spec_as_i64(),
    {
        match self {
            JsonValue::Int(i) => Some(*i),
            _ => None,
        }
    }

    pub open spec fn spec_as_i64(&self) -> Option<i64> {
        match *self {
            JsonValue::Int(i) => Some(i),
            _ => None,
        }
    }

    /// The boolean behind this value, if it is one.
    pub fn as_bool(&self) -> (r: Option<bool>)
        ensures
            r == self.spec_as_bool(),
    {
        match self {
            JsonValue::Bool(b) => Some(*b),
            _ => None,
        }
    }

    pub open spec fn spec_as_bool(&self) -> Option<bool> {
        match *self {
            JsonValue::Bool(b) => Some(b),
            _ => None,
        }
    }

    /// The string behind this value, if it is one.
    pub fn as_str(&self) -> (r: Option<&String>)
        ensures
            match self {
                JsonValue::Str(s) => r == Some(s),
                _ => r is None,
            },
    {
        match self {
            JsonValue::Str(s) => Some(s),
            _ => None,
        }
    }

    /// The element list behind this value, if it is an array.
    pub fn as_array(&self) -> (r: Option<&Vec<JsonValue>>)
        ensures
            match self {
                JsonValue::Array(items) => r == Some(items),
                _ => r is None,
            },
    {
        match self {
            JsonValue::Array(items) => Some(items),
            _ => None,
        }
    }

    /// The key/value entries behind this value, if it is an object.
    pub fn as_object(&self) -> (r: Option<&Vec<(String, JsonValue)>>)
        ensures
            match self {
                JsonValue::Object(entries) => r == Some(entries),
                _ => r is None,
            },
    {
        match self {
            JsonValue::Object(entries) => Some(entries),
            _ => None,
        }
    }
}

/// The value stored under `key`: the first entry with that key wins,
/// as in an object map.
pub open spec fn spec_lookup(entries: Seq<(String, JsonValue)>, key: Seq<char>) -> Option<
    JsonValue,
>
    decreases entries.len(),
{
    if entries.len() == 0 {
        None
    } else if entries[0].0@ == key {
        Some(entries[0].1)
    } else {
        spec_lookup(entries.drop_first(), key)
    }
}

/// Find the value stored under `key` in an object's entry list.
pub fn lookup<'a>(entries: &'a Vec<(String, JsonValue)>, key: &str) -> (r: Option<&'a JsonValue>)
    ensures
        match r {
            Some(v) => spec_lookup(entries@, key@) == Some(*v),
            None => spec_lookup(entries@, key@) is None,
        },
{
    let key_owned: String = key.to_owned();
    let mut i: usize = 0;
    proof {
        assert(entries@.skip(0) =~= entries@);
    }
    while i < entries.len()
        invariant
            i <= entries@.len(),
            key_owned@ == key@,
            spec_lookup(entries@, key@) == spec_lookup(entries@.skip(i as int), key@),
        decreases entries@.len() - i,
    {
        proof {
            assert(entries@.skip(i as int).len() > 0);
            assert(entries@.skip(i as int)[0] == entries@[i as int]);
            assert(entries@.skip(i as int).drop_first() =~= entries@.skip(i as int + 1));
        }
        if entries[i].0 == key_owned {
            return Some(&entries[i].1);
        }
        i = i + 1;
    }
    proof {
        assert(entries@.skip(i as int) =~= Seq::empty());
    }
    None
}

pub open spec fn spec_i64_or(
    entries: Seq<(String, JsonValue)>,
    key: Seq<char>,
    default: i64,
) -> i64 {
    match spec_lookup(entries, key) {
        Some(JsonValue::Int(i)) => i,
        _ => default,
    }
}

/// The integer stored under `key`, or `default` when the key is absent
/// or holds no integer.
pub fn get_i64_or(entries: &Vec<(String, JsonValue)>, key: &str, default: i64) -> (r: i64)
    ensures
        r == spec_i64_or(entries@, key@, default),
{
    match lookup(entries, key) {
        Some(v) => match v.as_i64() {
            Some(i) => i,
            None => default,
        },
        None => default,
    }
}

pub open spec fn spec_bool_opt(entries: Seq<(String, JsonValue)>, key: Seq<char>) -> Option<
    bool,
> {
    match spec_lookup(entries, key) {
        Some(JsonValue::Bool(b)) => Some(b),
        _ => None,
    }
}

/// The boolean stored under `key`, or nothing when the key is absent
/// or holds no boolean.
pub fn get_bool_opt(entries: &Vec<(String, JsonValue)>, key: &str) -> (r: Option<bool>)
    ensures
        r == spec_bool_opt(entries@, key@),
{
    match lookup(entries, key) {
        Some(v) => v.as_bool(),
        None => None,
    }
}

/// The boolean stored under `key`, or `default` when the key is absent
/// or holds no boolean.
pub fn get_bool_or(entries: &Vec<(String, JsonValue)>, key: &str, default: bool) -> (r: bool)
    ensures
        r == match spec_bool_opt(entries@, key@) {
            Some(b) => b,
            None => default,
        },
{
    match get_bool_opt(entries, key) {
        Some(b) => b,
        None => default,
    }
}

pub open spec fn spec_str_opt(entries: Seq<(String, JsonValue)>, key: Seq<char>) -> Option<
    Seq<char>,
> {
    match spec_lookup(entries, key) {
        Some(JsonValue::Str(s)) => Some(s@),
        _ => None,
    }
}

/// A copy of the string stored under `key`, or nothing when the key is
/// absent or holds no string.
pub fn get_str_opt(entries: &Vec<(String, JsonValue)>, key: &str) -> (r: Option<String>)
    ensures
        r.deep_view() == spec_str_opt(entries@, key@),
{
    match lookup(entries, key) {
        Some(v) => match v.as_str() {
            Some(s) => Some(s.clone()),
            None => None,
        },
        None => None,
    }
}

pub open spec fn spec_str_or(
    entries: Seq<(String, JsonValue)>,
    key: Seq<char>,
    default: Seq<char>,
) -> Seq<char> {
    match spec_str_opt(entries, key) {
        Some(s) => s,
        None => default,
    }
}

/// The string stored under `key`, or `default` when the key is absent
/// or holds no string.
pub fn get_str_or(entries: &Vec<(String, JsonValue)>, key: &str, default: &str) -> (r: String)
    ensures
        r@ == spec_str_or(entries@, key@, default@),
{
    match lookup(entries, key) {
        Some(v) => match v.as_str() {
            Some(s) => s.clone(),
            None => default.to_owned(),
        },
        None => default.to_owned(),
    }
}

pub open spec fn spec_array_views(entries: Seq<(String, JsonValue)>, key: Seq<char>) -> Seq<
    JsonView,
> {
    match spec_lookup(entries, key) {
        Some(JsonValue::Array(items)) => json_views(items@),
        _ => Seq::empty(),
    }
}

/// A copy of the array stored under `key`, or an empty list when the key
/// is absent or holds no array.
pub fn get_array_or_empty(entries: &Vec<(String, JsonValue)>, key: &str) -> (r: Vec<JsonValue>)
    ensures
        json_views(r@) == spec_array_views(entries@, key@),
{
    let r = match lookup(entries, key) {
        Some(v) => match v.as_array() {
            Some(items) => clone_values(items),
            None => Vec::new(),
        },
        None => Vec::new(),
    };
    proof {
        match spec_lookup(entries@, key@) {
            Some(v) => match v {
                JsonValue::Array(items) => {
                    lemma_json_views_index(items@);
                    lemma_json_views_index(r@);
                    assert(json_views(r@) =~= json_views(items@));
                },
                _ => {
                    assert(json_views(r@) =~= Seq::<JsonView>::empty());
                },
            },
            None => {
                assert(json_views(r@) =~= Seq::<JsonView>::empty());
            },
        }
    }
    r
}

pub open spec fn spec_u32_opt(entries: Seq<(String, JsonValue)>, key: Seq<char>) -> Option<
    u32,
> {
    match spec_lookup(entries, key) {
        Some(JsonValue::Int(i)) => if 0 <= i <= u32::MAX {
            Some(i as u32)
        } else {
            None
        },
        _ => None,
    }
}

/// The unsigned 32-bit integer stored under `key`, or nothing when the key
/// is absent, holds no integer, or holds one out of range.
pub fn get_u32_opt(entries: &Vec<(String, JsonValue)>, key: &str) -> (r: Option<u32>)
    ensures
        r == spec_u32_opt(entries@, key@),
{
    match lookup(entries, key) {
        Some(v) => match v.as_i64() {
            Some(i) => if 0 <= i && i <= u32::MAX as i64 {
                Some(i as u32)
            } else {
                None
            },
            None => None,
        },
        None => None,
    }
}

/// The strings among `items`, in order; anything else is dropped.
pub open spec fn spec_str_list(items: Seq<JsonValue>) -> Seq<Seq<char>>
    decreases items.len(),
{
    if items.len() == 0 {
        Seq::empty()
    } else {
        match items[0] {
            JsonValue::Str(s) => seq![s@] + spec_str_list(items.drop_first()),
            _ => spec_str_list(items.drop_first()),
        }
    }
}

pub open spec fn spec_str_list_opt(entries: Seq<(String, JsonValue)>, key: Seq<char>) -> Option<
    Seq<Seq<char>>,
> {
    match spec_lookup(entries, key) {
        Some(JsonValue::Array(items)) => Some(spec_str_list(items@)),
        _ => None,
    }
}

pub proof fn lemma_str_list_push(items: Seq<JsonValue>, v: JsonValue)
    ensures
        spec_str_list(items.push(v)) == match v {
            JsonValue::Str(s) => spec_str_list(items).push(s@),
            _ => spec_str_list(items),
        },
    decreases items.len(),
{
    if items.len() == 0 {
        assert(items.push(v).drop_first() =~= Seq::empty());
        assert(items =~= Seq::empty());
        match v {
            JsonValue::Str(s) => {
                assert(spec_str_list(items.push(v)) =~= spec_str_list(items).push(s@));
            },
            _ => {},
        }
    } else {
        assert(items.push(v).drop_first() =~= items.drop_first().push(v));
        lemma_str_list_push(items.drop_first(), v);
        match v {
            JsonValue::Str(s) => {
                assert(spec_str_list(items.push(v)) =~= spec_str_list(items).push(s@));
            },
            _ => {},
        }
    }
}

/// The list of strings stored under `key`, or nothing when the key is
/// absent or holds no array. Array elements that are not strings are
/// dropped rather than failing the whole record.
pub fn get_str_list_opt(entries: &Vec<(String, JsonValue)>, key: &str) -> (r: Option<
    Vec<String>,
>)
    ensures
        r.deep_view() == spec_str_list_opt(entries@, key@),
{
    match lookup(entries, key) {
        Some(v) => match v.as_array() {
            Some(items) => {
                let mut out: Vec<String> = Vec::new();
                let mut i: usize = 0;
                proof {
                    assert(items@.take(0) =~= Seq::empty());
                }
                while i < items.len()
                    invariant
                        i <= items@.len(),
                        out.deep_view() == spec_str_list(items@.take(i as int)),
                    decreases items@.len() - i,
                {
                    proof {
                        assert(items@.take(i as int).push(items@[i as int]) =~= items@.take(
                            i as int + 1,
                        ));
                        lemma_str_list_push(items@.take(i as int), items@[i as int]);
                    }
                    match items[i].as_str() {
                        Some(s) => {
                            out.push(s.clone());
                            proof {
                                assert(out.deep_view() =~= spec_str_list(
                                    items@.take(i as int + 1),
                                ));
                            }
                        },
                        None => (),
                    }
                    i = i + 1;
                }
                proof {
                    assert(items@.take(items@.len() as int) =~= items@);
                }
                Some(out)
            },
            None => None,
        },
        None => None,
    }
}

impl Clone for JsonValue {
    /// A clone carries the same model as the original.
    fn clone(&self) -> (res: Self)
        ensures
            res@ == self@,
        decreases *self,
    {
        proof {
            broadcast use vstd::std_specs::vec::group_vec_axioms;

        }
        match self {
            JsonValue::Null => JsonValue::Null,
            JsonValue::Bool(b) => JsonValue::Bool(*b),
            JsonValue::Int(i) => JsonValue::Int(*i),
            JsonValue::Str(s) => JsonValue::Str(s.clone()),
            JsonValue::Array(items) => {
                proof {
                    assert(decreases_to!(*self => self->Array_0));
                    assert(decreases_to!(*self => items@));
                }
                let out = clone_values(items);
                proof {
                    lemma_json_views_index(items@);
                    lemma_json_views_index(out@);
                    assert(json_views(out@) =~= json_views(items@));
                }
                JsonValue::Array(out)
            }
            JsonValue::Object(entries) => {
                proof {
                    assert(decreases_to!(*self => self->Object_0));
                    assert(decreases_to!(*self => entries@));
                }
                let out = clone_entries(entries);
                proof {
                    lemma_json_entry_views_index(entries@);
                    lemma_json_entry_views_index(out@);
                    assert(json_entry_views(out@) =~= json_entry_views(entries@));
                }
                JsonValue::Object(out)
            }
        }
    }
}

} // verus!
