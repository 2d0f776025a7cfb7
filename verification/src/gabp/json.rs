//! JSON values as the bridge reads and builds them. Parsing and printing
//! JSON text is `serde_json`'s work; what the bridge does with the parsed
//! values (looking up fields, reading strings, assembling replies) is
//! verified against [`JsonData`], the mathematical view of a [`JsonValue`].

use vstd::prelude::*;

verus! {

broadcast use {vstd::std_specs::vec::axiom_vec_decreases_to_view, vstd::std_specs::vec::axiom_vec_index_decreases};

/// A JSON number, carried through unread.
#[verifier::external_type_specification]
#[verifier::external_body]
pub struct ExJsonNumber(serde_json::Number);

/// A JSON document as `serde_json` builds it.
#[verifier::external_type_specification]
#[verifier::external_body]
pub struct ExJsonValue(serde_json::Value);

/// The error that `serde_json` reports.
#[verifier::external_type_specification]
#[verifier::external_body]
pub struct ExJsonError(serde_json::Error);

/// A JSON value. Object members keep the order in which they were given.
#[derive(Debug, PartialEq)]
pub enum JsonValue {
    Null,
    Bool(bool),
    Number(serde_json::Number),
    String(String),
    Array(Vec<JsonValue>),
    Object(Vec<(String, JsonValue)>),
}

/// The mathematical view of a [`JsonValue`].
#[verifier::ext_equal]
pub enum JsonData {
    Null,
    Bool(bool),
    Number(serde_json::Number),
    String(Seq<char>),
    Array(Seq<JsonData>),
    Object(Seq<(Seq<char>, JsonData)>),
}

/// The view of a [`JsonValue`].
pub open spec fn json_data(v: JsonValue) -> JsonData
    decreases v,
{
    match v {
        JsonValue::Null => JsonData::Null,
        JsonValue::Bool(b) => JsonData::Bool(b),
        JsonValue::Number(n) => JsonData::Number(n),
        JsonValue::String(s) => JsonData::String(s@),
        JsonValue::Array(items) => JsonData::Array(
            Seq::new(
                items@.len(),
                |i: int|
                    {
                        if 0 <= i < items@.len() {
                            json_data(items@[i])
                        } else {
                            JsonData::Null
                        }
                    },
            ),
        ),
        JsonValue::Object(entries) => JsonData::Object(
            Seq::new(
                entries@.len(),
                |i: int|
                    {
                        if 0 <= i < entries@.len() {
                            (entries@[i].0@, json_data(entries@[i].1))
                        } else {
                            (Seq::empty(), JsonData::Null)
                        }
                    },
            ),
        ),
    }
}

impl View for JsonValue {
    type V = JsonData;

    open spec fn view(&self) -> JsonData {
        json_data(*self)
    }
}

/// The views of a list of values.
pub open spec fn items_view(items: Seq<JsonValue>) -> Seq<JsonData> {
    items.map_values(|x: JsonValue| x@)
}

/// The value of the first member named `key` among `entries`.
pub open spec fn member(entries: Seq<(Seq<char>, JsonData)>, key: Seq<char>) -> Option<JsonData>
    decreases entries.len(),
{
    if entries.len() == 0 {
        None
    } else if entries[0].0 == key {
        Some(entries[0].1)
    } else {
        member(entries.drop_first(), key)
    }
}

/// `Value::get` with a string key: the member `key` of an object, `None`
/// for anything else.
pub open spec fn json_get(v: JsonData, key: Seq<char>) -> Option<JsonData> {
    match v {
        JsonData::Object(entries) => member(entries, key),
        _ => None,
    }
}

/// `Value::as_str`.
pub open spec fn json_as_str(v: Option<JsonData>) -> Option<Seq<char>> {
    match v {
        Some(JsonData::String(s)) => Some(s),
        _ => None,
    }
}

/// The empty object `{}`.
pub open spec fn empty_object() -> JsonData {
    JsonData::Object(Seq::empty())
}

/// What `serde_json::from_str::<Value>` makes of `text`: the document, or
/// the error's message. Defined by `serde_json`.
pub uninterp spec fn json_parse(text: Seq<char>) -> Result<JsonData, Seq<char>>;

/// The compact JSON text that `serde_json::to_string` writes for a value.
/// Defined by `serde_json`.
pub uninterp spec fn json_text(v: JsonData) -> Seq<char>;

/// Converts a `serde_json` document into a [`JsonValue`], member for member.
#[verifier::external_body]
fn from_serde(v: serde_json::Value) -> JsonValue {
    match v {
        serde_json::Value::Null => JsonValue::Null,
        serde_json::Value::Bool(b) => JsonValue::Bool(b),
        serde_json::Value::Number(n) => JsonValue::Number(n),
        serde_json::Value::String(s) => JsonValue::String(s),
        serde_json::Value::Array(items) => JsonValue::Array(items.into_iter().map(from_serde).collect()),
        serde_json::Value::Object(map) => JsonValue::Object(
            map.into_iter().map(|(k, item)| (k, from_serde(item))).collect(),
        ),
    }
}

/// Converts a [`JsonValue`] into a `serde_json` document, member for member.
#[verifier::external_body]
fn to_serde(v: &JsonValue) -> serde_json::Value {
    match v {
        JsonValue::Null => serde_json::Value::Null,
        JsonValue::Bool(b) => serde_json::Value::Bool(*b),
        JsonValue::Number(n) => serde_json::Value::Number(n.clone()),
        JsonValue::String(s) => serde_json::Value::String(s.clone()),
        JsonValue::Array(items) => serde_json::Value::Array(items.iter().map(to_serde).collect()),
        JsonValue::Object(entries) => serde_json::Value::Object(
            entries.iter().map(|(k, item)| (k.clone(), to_serde(item))).collect(),
        ),
    }
}

/// `serde_json::from_str::<Value>`: the parsed document, or the message of
/// the error (its `Display` text). The result is named, not spelled out.
#[verifier::external_body]
fn parse_json_text(text: &str) -> (r: Result<JsonValue, String>)
    ensures
        match r {
            Ok(v) => json_parse(text@) == Ok::<JsonData, Seq<char>>(v@),
            Err(msg) => json_parse(text@) == Err::<JsonData, Seq<char>>(msg@),
        },
{
    match serde_json::from_str::<serde_json::Value>(text) {
        Ok(v) => Ok(from_serde(v)),
        Err(e) => Err(e.to_string()),
    }
}

/// `serde_json::to_string` on a document: the value's compact JSON text.
/// It always succeeds here: a `Value` has string keys only, its numbers are
/// written as integers, finite floats or `null`, and the text goes into a
/// `Vec<u8>`, whose writes do not fail.
#[verifier::external_body]
fn write_json_text(v: &JsonValue) -> (r: Result<String, serde_json::Error>)
    ensures
        r is Ok,
        r matches Ok(s) ==> s@ == json_text(v@),
{
    serde_json::to_string(&to_serde(v))
}

/// `Number::clone`: the copy is the same number.
#[verifier::external_body]
fn clone_number(n: &serde_json::Number) -> (r: serde_json::Number)
    ensures
        r == *n,
{
    n.clone()
}

/// The view of an array is the array of the items' views.
pub proof fn lemma_array_view(items: Vec<JsonValue>)
    ensures
        json_data(JsonValue::Array(items)) == JsonData::Array(items_view(items@)),
{
    let x = json_data(JsonValue::Array(items));
    let y = items_view(items@);
    assert(x->Array_0.len() == y.len());
    assert(forall|k: int| 0 <= k < items@.len() ==> x->Array_0[k] == json_data(items@[k]));
    assert(forall|k: int| 0 <= k < items@.len() ==> y[k] == json_data(items@[k]));
    assert(x->Array_0 =~= y);
}

/// The members of an object, as views.
pub open spec fn entries_view(entries: Seq<(String, JsonValue)>) -> Seq<(Seq<char>, JsonData)> {
    entries.map_values(|e: (String, JsonValue)| (e.0@, e.1@))
}

/// The view of an object is the object of the members' views.
pub proof fn lemma_object_view(entries: Vec<(String, JsonValue)>)
    ensures
        json_data(JsonValue::Object(entries)) == JsonData::Object(entries_view(entries@)),
{
    let x = json_data(JsonValue::Object(entries));
    let y = entries_view(entries@);
    assert(x->Object_0.len() == y.len());
    assert(forall|k: int|
        0 <= k < entries@.len() ==> x->Object_0[k] == (entries@[k].0@, json_data(entries@[k].1)));
    assert(forall|k: int|
        0 <= k < entries@.len() ==> y[k] == (entries@[k].0@, json_data(entries@[k].1)));
    assert(x->Object_0 =~= y);
}

proof fn lemma_same_items_same_data(out: Vec<JsonValue>, items: Vec<JsonValue>)
    requires
        out@.len() == items@.len(),
        forall|j: int| 0 <= j < out@.len() ==> #[trigger] json_data(out@[j]) == json_data(items@[j]),
    ensures
        json_data(JsonValue::Array(out)) == json_data(JsonValue::Array(items)),
{
    let x = json_data(JsonValue::Array(out));
    let y = json_data(JsonValue::Array(items));
    assert(x->Array_0.len() == y->Array_0.len());
    assert(forall|k: int| 0 <= k < out@.len() ==> x->Array_0[k] == json_data(out@[k]));
    assert(forall|k: int| 0 <= k < out@.len() ==> y->Array_0[k] == json_data(items@[k]));
    assert(x->Array_0 =~= y->Array_0);
}

proof fn lemma_same_entries_same_data(out: Vec<(String, JsonValue)>, entries: Vec<(String, JsonValue)>)
    requires
        out@.len() == entries@.len(),
        forall|j: int|
            0 <= j < out@.len() ==> (#[trigger] out@[j]).0@ == entries@[j].0@ && json_data(out@[j].1)
                == json_data(entries@[j].1),
    ensures
        json_data(JsonValue::Object(out)) == json_data(JsonValue::Object(entries)),
{
    let x = json_data(JsonValue::Object(out));
    let y = json_data(JsonValue::Object(entries));
    assert(x->Object_0.len() == y->Object_0.len());
    assert(forall|k: int| 0 <= k < out@.len() ==> x->Object_0[k] == (out@[k].0@, json_data(out@[k].1)));
    assert(forall|k: int| 0 <= k < out@.len() ==> y->Object_0[k] == (entries@[k].0@, json_data(entries@[k].1)));
    assert(x->Object_0 =~= y->Object_0);
}

impl JsonValue {
    /// Parses JSON text (`serde_json::from_str`); an error carries the
    /// parser's message.
    pub fn parse(text: &str) -> (r: Result<JsonValue, String>)
        ensures
            match r {
                Ok(v) => json_parse(text@) == Ok::<JsonData, Seq<char>>(v@),
                Err(msg) => json_parse(text@) == Err::<JsonData, Seq<char>>(msg@),
            },
    {
        parse_json_text(text)
    }

    /// The compact JSON text of this value (`serde_json::to_string`); writing
    /// a document always succeeds.
    pub fn to_json_string(&self) -> (r: Result<String, serde_json::Error>)
        ensures
            r matches Ok(s) && s@ == json_text(self@),
    {
        write_json_text(self)
    }

    /// The member `key` of an object; `None` for a missing member or a value
    /// that is not an object.
    pub fn get(&self, key: &str) -> (r: Option<&JsonValue>)
        ensures
            match r {
                Some(v) => json_get(self@, key@) == Some(v@),
                None => json_get(self@, key@) is None,
            },
    {
        match self {
            JsonValue::Object(entries) => {
                let ghost data = self@;
                let ghost es = match data {
                    JsonData::Object(es) => es,
                    _ => Seq::empty(),
                };
                let mut i: usize = 0;
                proof {
                    assert(es.skip(0) =~= es);
                }
                while i < entries.len()
                    invariant
                        self@ == data,
                        data == JsonData::Object(es),
                        *self == JsonValue::Object(*entries),
                        es.len() == entries@.len(),
                        forall|j: int|
                            0 <= j < es.len() ==> #[trigger] es[j] == (
                                entries@[j].0@,
                                json_data(entries@[j].1),
                            ),
                        i <= entries@.len(),
                        member(es, key@) == member(es.skip(i as int), key@),
                    decreases entries@.len() - i,
                {
                    proof {
                        assert(es.skip(i as int).drop_first() =~= es.skip(i + 1));
                        assert(es.skip(i as int)[0] == es[i as int]);
                    }
                    if string_eq_str(&entries[i].0, key) {
                        return Some(&entries[i].1);
                    }
                    i = i + 1;
                }
                None
            },
            _ => None,
        }
    }

    /// The text of a JSON string; `None` for any other value.
    pub fn as_str(&self) -> (r: Option<&String>)
        ensures
            match r {
                Some(s) => json_as_str(Some(self@)) == Some(s@),
                None => json_as_str(Some(self@)) is None,
            },
    {
        match self {
            JsonValue::String(s) => Some(s),
            _ => None,
        }
    }

    /// The items of a JSON array; `None` for any other value.
    pub fn as_array(&self) -> (r: Option<&Vec<JsonValue>>)
        ensures
            match r {
                Some(items) => self@ == JsonData::Array(items_view(items@)),
                None => !(self@ is Array),
            },
    {
        match self {
            JsonValue::Array(items) => {
                proof {
                    lemma_array_view(*items);
                }
                Some(items)
            },
            _ => None,
        }
    }

    /// A copy of this value.
    pub fn deep_copy(&self) -> (r: JsonValue)
        ensures
            r@ == self@,
        decreases self,
    {
        match self {
            JsonValue::Null => JsonValue::Null,
            JsonValue::Bool(b) => JsonValue::Bool(*b),
            JsonValue::Number(n) => JsonValue::Number(clone_number(n)),
            JsonValue::String(s) => JsonValue::String(s.clone()),
            JsonValue::Array(items) => {
                let mut out: Vec<JsonValue> = Vec::new();
                let mut i: usize = 0;
                while i < items.len()
                    invariant
                        *self == JsonValue::Array(*items),
                        i <= items@.len(),
                        out@.len() == i,
                        forall|j: int| 0 <= j < i ==> #[trigger] json_data(out@[j]) == json_data(
                            items@[j],
                        ),
                    decreases items@.len() - i,
                {
                    proof {
                        assert(decreases_to!(*self => (*self)->Array_0));
                        assert(decreases_to!(*items => items@[i as int]));
                    }
                    let c = items[i].deep_copy();
                    out.push(c);
                    i = i + 1;
                }
                proof {
                    lemma_same_items_same_data(out, *items);
                }
                let r = JsonValue::Array(out);
                r
            },
            JsonValue::Object(entries) => {
                let mut out: Vec<(String, JsonValue)> = Vec::new();
                let mut i: usize = 0;
                while i < entries.len()
                    invariant
                        *self == JsonValue::Object(*entries),
                        i <= entries@.len(),
                        out@.len() == i,
                        forall|j: int|
                            0 <= j < i ==> (#[trigger] out@[j]).0@ == entries@[j].0@ && json_data(
                                out@[j].1,
                            ) == json_data(entries@[j].1),
                    decreases entries@.len() - i,
                {
                    proof {
                        assert(decreases_to!(*self => (*self)->Object_0));
                        assert(decreases_to!(*entries => entries@[i as int]));
                        assert(decreases_to!(entries@[i as int] => entries@[i as int].1));
                    }
                    let c = entries[i].1.deep_copy();
                    let k = entries[i].0.clone();
                    out.push((k, c));
                    i = i + 1;
                }
                proof {
                    lemma_same_entries_same_data(out, *entries);
                }
                let r = JsonValue::Object(out);
                r
            },
        }
    }
}

/// `String == str`.
pub fn string_eq_str(a: &String, b: &str) -> (r: bool)
    ensures
        r == (a@ == b@),
{
    let owned: String = b.to_owned();
    a.eq(&owned)
}

} // verus!
