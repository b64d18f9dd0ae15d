//! JSON documents as plain values.

use serde_json::Value;
use vstd::prelude::*;

verus! {

/// A JSON value. Of a number only what it is as a natural number is held, where
/// it is one that fits; the entries of an object are held in the order in which
/// the parser gives them out.
pub enum Json {
    Null,
    Bool(bool),
    Number(Option<u64>),
    Text(String),
    Array(Vec<Json>),
    Object(Vec<(String, Json)>),
}

/// What a JSON value holds.
pub enum JsonView {
    Null,
    Bool(bool),
    Number(Option<u64>),
    Text(Seq<char>),
    Array(Seq<JsonView>),
    Object(Seq<(Seq<char>, JsonView)>),
}

impl View for Json {
    type V = JsonView;

    open spec fn view(&self) -> JsonView
        decreases self,
    {
        match self {
            Json::Null => JsonView::Null,
            Json::Bool(b) => JsonView::Bool(*b),
            Json::Number(n) => JsonView::Number(*n),
            Json::Text(s) => JsonView::Text(s@),
            Json::Array(v) => JsonView::Array(
                Seq::new(
                    v@.len(),
                    |i: int|
                        if 0 <= i < v@.len() {
                            v@[i].view()
                        } else {
                            JsonView::Null
                        },
                ),
            ),
            Json::Object(v) => JsonView::Object(
                Seq::new(
                    v@.len(),
                    |i: int|
                        if 0 <= i < v@.len() {
                            (v@[i].0@, v@[i].1.view())
                        } else {
                            (Seq::empty(), JsonView::Null)
                        },
                ),
            ),
        }
    }
}

/// What the items of an array hold.
pub open spec fn items_view(items: Seq<Json>) -> Seq<JsonView> {
    Seq::new(items.len(), |i: int| items[i]@)
}

/// The keys of the entries of an object, and what they hold.
pub open spec fn entries_view(entries: Seq<(String, Json)>) -> Seq<(Seq<char>, JsonView)> {
    Seq::new(entries.len(), |i: int| (entries[i].0@, entries[i].1@))
}

/// An array holds what its items hold.
pub proof fn lemma_array_view(items: Vec<Json>)
    ensures
        Json::Array(items)@ == JsonView::Array(items_view(items@)),
{
    let j = Json::Array(items);
    reveal_with_fuel(<Json as View>::view, 2);
    assert(j@->Array_0 =~= items_view(items@));
}

/// An object holds what its entries hold.
pub proof fn lemma_object_view(entries: Vec<(String, Json)>)
    ensures
        Json::Object(entries)@ == JsonView::Object(entries_view(entries@)),
{
    let j = Json::Object(entries);
    reveal_with_fuel(<Json as View>::view, 2);
    assert(j@->Object_0 =~= entries_view(entries@));
}

/// A value of the JSON parser.
#[verifier::external_type_specification]
#[verifier::external_body]
pub struct ExValue(Value);

/// An error of the JSON parser.
#[verifier::external_type_specification]
#[verifier::external_body]
pub struct ExError(serde_json::Error);

/// What a value of the parser holds.
pub uninterp spec fn json_of(v: Value) -> JsonView;

/// The document that `bytes` hold, or none where they hold no JSON text.
pub uninterp spec fn parsed_json(bytes: Seq<u8>) -> Option<JsonView>;

/// A value of the parser, opened by one level.
pub enum Opened {
    Null,
    Bool(bool),
    Number(Option<u64>),
    Text(String),
    Array(Vec<Value>),
    Object(Vec<(String, Value)>),
}

/// What the parts hold.
pub open spec fn items_of(items: Seq<Value>) -> Seq<JsonView> {
    Seq::new(items.len(), |i: int| json_of(items[i]))
}

/// The keys of the entries and what they hold.
pub open spec fn entries_of(entries: Seq<(String, Value)>) -> Seq<(Seq<char>, JsonView)> {
    Seq::new(entries.len(), |i: int| (entries[i].0@, json_of(entries[i].1)))
}

/// `o` is `j`, opened by one level.
pub open spec fn opened_is(j: JsonView, o: Opened) -> bool {
    match o {
        Opened::Null => j == JsonView::Null,
        Opened::Bool(b) => j == JsonView::Bool(b),
        Opened::Number(n) => j == JsonView::Number(n),
        Opened::Text(s) => j == JsonView::Text(s@),
        Opened::Array(items) => j == JsonView::Array(items_of(items@)),
        Opened::Object(entries) => j == JsonView::Object(entries_of(entries@)),
    }
}

/// Parse JSON text.
///
/// The outside call is serde_json's `from_reader` on the bytes. Claimed of it:
/// whether it gives back a value, and what that value holds, follow from the
/// bytes alone.
#[verifier::external_body]
fn parse_value(bytes: &[u8]) -> (res: Result<Value, serde_json::Error>)
    ensures
        match res {
            Ok(v) => parsed_json(bytes@) == Some(json_of(v)),
            Err(_) => parsed_json(bytes@) is None,
        },
{
    serde_json::from_reader(bytes)
}

/// Open a value of the parser by one level.
///
/// The outside calls are serde_json's `Number::as_u64` and `into_iter` of its
/// map. Claimed of them: a number is handed out as the natural number it is,
/// where it is one that fits; the entries of an object are handed out each once,
/// in the order of the map.
#[verifier::external_body]
fn open_value(v: Value) -> (o: Opened)
    ensures
        opened_is(json_of(v), o),
{
    match v {
        Value::Null => Opened::Null,
        Value::Bool(b) => Opened::Bool(b),
        Value::Number(n) => Opened::Number(n.as_u64()),
        Value::String(s) => Opened::Text(s),
        Value::Array(items) => Opened::Array(items),
        Value::Object(entries) => Opened::Object(entries.into_iter().collect()),
    }
}

/// A value of the parser as a plain value.
fn plain(v: Value) -> (j: Json)
    ensures
        j@ == json_of(v),
    decreases json_of(v),
{
    let ghost whole = json_of(v);
    match open_value(v) {
        Opened::Null => Json::Null,
        Opened::Bool(b) => Json::Bool(b),
        Opened::Number(n) => Json::Number(n),
        Opened::Text(s) => Json::Text(s),
        Opened::Array(items) => {
            let ghost values = items@;
            let mut rest = items;
            let n = rest.len();
            let mut back: Vec<Json> = Vec::with_capacity(n);
            for i in 0..n
                invariant
                    whole == json_of(v),
                    n == values.len(),
                    rest@ == values.subrange(0, n - i),
                    whole == JsonView::Array(items_of(values)),
                    back@.len() == i,
                    forall|k: int|
                        0 <= k < i ==> (#[trigger] back@[k])@ == json_of(values[n - 1 - k]),
            {
                let x = rest.pop().unwrap();
                proof {
                    assert(x == values[n - 1 - i]);
                    assert(whole->Array_0[n - 1 - i] == json_of(x));
                    assert(rest@ =~= values.subrange(0, n - i - 1));
                }
                back.push(plain(x));
            }
            let out = reversed(back);
            let j = Json::Array(out);
            assert(j@->Array_0 =~= items_of(values));
            j
        },
        Opened::Object(entries) => {
            let ghost values = entries@;
            let mut rest = entries;
            let n = rest.len();
            let mut back: Vec<(String, Json)> = Vec::with_capacity(n);
            for i in 0..n
                invariant
                    whole == json_of(v),
                    n == values.len(),
                    rest@ == values.subrange(0, n - i),
                    whole == JsonView::Object(entries_of(values)),
                    back@.len() == i,
                    forall|k: int|
                        0 <= k < i ==> (#[trigger] back@[k]).0@ == values[n - 1 - k].0@
                            && back@[k].1@ == json_of(values[n - 1 - k].1),
            {
                let x = rest.pop().unwrap();
                proof {
                    assert(x == values[n - 1 - i]);
                    assert(whole->Object_0[n - 1 - i].1 == json_of(x.1));
                    assert(rest@ =~= values.subrange(0, n - i - 1));
                }
                back.push((x.0, plain(x.1)));
            }
            let out = reversed(back);
            let j = Json::Object(out);
            assert(j@->Object_0 =~= entries_of(values));
            j
        },
    }
}

/// The items from the last to the first.
fn reversed<T>(items: Vec<T>) -> (out: Vec<T>)
    ensures
        out@ == items@.reverse(),
{
    let ghost values = items@;
    let mut rest = items;
    let n = rest.len();
    let mut out: Vec<T> = Vec::with_capacity(n);
    for i in 0..n
        invariant
            n == values.len(),
            rest@ == values.subrange(0, n - i),
            out@ == values.reverse().subrange(0, i as int),
    {
        let x = rest.pop().unwrap();
        out.push(x);
        assert(rest@ =~= values.subrange(0, n - i - 1));
        assert(out@ =~= values.reverse().subrange(0, i + 1));
    }
    assert(values.reverse().subrange(0, n as int) =~= values.reverse());
    out
}

/// Parse JSON text.
pub fn parse_json(bytes: &[u8]) -> (res: Result<Json, serde_json::Error>)
    ensures
        match res {
            Ok(j) => parsed_json(bytes@) == Some(j@),
            Err(_) => parsed_json(bytes@) is None,
        },
{
    match parse_value(bytes) {
        Ok(v) => Ok(plain(v)),
        Err(e) => Err(e),
    }
}

} // verus!
