//! The JSON value tree that the renderer walks.

use vstd::prelude::*;

verus! {

/// A member of a JSON object as mathematics.
pub struct Member {
    pub key: Seq<char>,
    pub value: Json,
}

/// A JSON value as mathematics: the view of [`JsonValue`].
pub enum Json {
    Null,
    Bool(bool),
    /// A number, by its decimal text.
    Number(Seq<char>),
    String(Seq<char>),
    Array(Seq<Json>),
    /// The members of an object, in the order in which they were inserted.
    Object(Seq<Member>),
}

/// A parsed JSON value.
#[derive(Debug, PartialEq, Eq)]
pub enum JsonValue {
    Null,
    Bool(bool),
    /// A number, by its canonical decimal text.
    Number(String),
    String(String),
    Array(Vec<JsonValue>),
    /// The members of an object, in the order in which they were inserted.
    Object(Vec<(String, JsonValue)>),
}

impl View for JsonValue {
    type V = Json;

    open spec fn view(&self) -> Json
        decreases self,
    {
        match self {
            JsonValue::Null => Json::Null,
            JsonValue::Bool(b) => Json::Bool(*b),
            JsonValue::Number(n) => Json::Number(n@),
            JsonValue::String(s) => Json::String(s@),
            JsonValue::Array(a) => Json::Array(
                Seq::new(
                    a@.len(),
                    |i: int|
                        if 0 <= i < a@.len() {
                            a@[i].view()
                        } else {
                            Json::Null
                        },
                ),
            ),
            JsonValue::Object(o) => Json::Object(
                Seq::new(
                    o@.len(),
                    |i: int|
                        if 0 <= i < o@.len() {
                            Member { key: o@[i].0@, value: o@[i].1.view() }
                        } else {
                            Member { key: Seq::empty(), value: Json::Null }
                        },
                ),
            ),
        }
    }
}

#[verifier::external_type_specification]
#[verifier::external_body]
pub struct ExJsonValue(serde_json::Value);

/// What `serde_json::from_slice` makes of a body: the value that the bytes
/// denote, or the message of the error with which it refuses them.
pub uninterp spec fn parsed_json(body: Seq<u8>) -> Result<Json, Seq<char>>;

/// Parses a body as JSON.
///
/// Trusted: `serde_json::from_slice` at the type `serde_json::Value`, the
/// tree then turned into a [`JsonValue`], and the error into its `Display` text.
/// The contract names the outcome and claims no more than that it is a
/// function of the bytes.
#[verifier::external_body]
pub(crate) fn parse_json(body: &[u8]) -> (r: Result<JsonValue, String>)
    ensures
        match r {
            Ok(v) => parsed_json(body@) == Ok::<Json, Seq<char>>(v@),
            Err(m) => parsed_json(body@) == Err::<Json, Seq<char>>(m@),
        },
{
    match serde_json::from_slice::<serde_json::Value>(body) {
        Ok(tree) => Ok(from_serde(tree)),
        Err(e) => Err(e.to_string()),
    }
}

/// Turns a tree of `serde_json` into a [`JsonValue`], variant by variant: a
/// number becomes the text that its `Display` writes, an object its members
/// in the order in which `serde_json::Map` hands them out.
#[verifier::external_body]
fn from_serde(tree: serde_json::Value) -> JsonValue {
    match tree {
        serde_json::Value::Null => JsonValue::Null,
        serde_json::Value::Bool(b) => JsonValue::Bool(b),
        serde_json::Value::Number(n) => JsonValue::Number(n.to_string()),
        serde_json::Value::String(s) => JsonValue::String(s),
        serde_json::Value::Array(a) => JsonValue::Array(a.into_iter().map(from_serde).collect()),
        serde_json::Value::Object(o) => {
            JsonValue::Object(o.into_iter().map(|(k, v)| (k, from_serde(v))).collect())
        },
    }
}

/// The views of the items of an array.
pub open spec fn items_view(a: Seq<JsonValue>) -> Seq<Json> {
    Seq::new(a.len(), |i: int| a[i]@)
}

/// The views of the members of an object.
pub open spec fn members_view(o: Seq<(String, JsonValue)>) -> Seq<Member> {
    Seq::new(o.len(), |i: int| Member { key: o[i].0@, value: o[i].1@ })
}

/// The view of an array is the array of its items' views.
pub proof fn lemma_array_view(a: Vec<JsonValue>)
    ensures
        JsonValue::Array(a)@ == Json::Array(items_view(a@)),
{
    assert(JsonValue::Array(a)@->Array_0 =~= items_view(a@));
}

/// The view of an object is the sequence of its members' views.
pub proof fn lemma_object_view(o: Vec<(String, JsonValue)>)
    ensures
        JsonValue::Object(o)@ == Json::Object(members_view(o@)),
{
    assert(JsonValue::Object(o)@->Object_0 =~= members_view(o@));
}

} // verus!
