//! JSON values, and their text as `serde_json` writes it.
use serde_json::Value;
use vstd::prelude::*;

verus! {

/// A value of `serde_json`, carried from its making to its writing.
#[verifier::external_type_specification]
#[verifier::external_body]
pub struct ExValue(Value);

/// A JSON value.
pub enum Json {
    Bool(bool),
    Number(u64),
    Text(String),
    List(Vec<Json>),
    /// Members with distinct names.
    Object(Vec<(String, Json)>),
}

/// The value of a [`Json`].
pub ghost enum JsonView {
    Bool(bool),
    Number(nat),
    Text(Seq<char>),
    List(Seq<JsonView>),
    Object(Seq<(Seq<char>, JsonView)>),
}

impl View for Json {
    type V = JsonView;

    open spec fn view(&self) -> JsonView
        decreases self,
    {
        match self {
            Json::Bool(b) => JsonView::Bool(*b),
            Json::Number(n) => JsonView::Number(*n as nat),
            Json::Text(t) => JsonView::Text(t@),
            Json::List(items) => JsonView::List(
                Seq::new(
                    items@.len(),
                    |i: int|
                        if 0 <= i < items@.len() {
                            items@[i].view()
                        } else {
                            JsonView::Bool(false)
                        },
                ),
            ),
            Json::Object(members) => JsonView::Object(
                Seq::new(
                    members@.len(),
                    |i: int|
                        if 0 <= i < members@.len() {
                            (members@[i].0@, members@[i].1.view())
                        } else {
                            (seq![], JsonView::Bool(false))
                        },
                ),
            ),
        }
    }
}

/// The values of a list.
pub open spec fn list_views(items: Seq<Json>) -> Seq<JsonView> {
    items.map_values(|j: Json| j@)
}

/// The values of a list of members.
pub open spec fn member_views(members: Seq<(String, Json)>) -> Seq<(Seq<char>, JsonView)> {
    members.map_values(|m: (String, Json)| (m.0@, m.1@))
}

/// A list.
pub fn list(items: Vec<Json>) -> (r: Json)
    ensures
        r@ == JsonView::List(list_views(items@)),
{
    let r = Json::List(items);
    proof {
        reveal_with_fuel(<Json as View>::view, 2);
        assert(r@->List_0 =~= list_views(items@));
    }
    r
}

/// An object.
pub fn object(members: Vec<(String, Json)>) -> (r: Json)
    ensures
        r@ == JsonView::Object(member_views(members@)),
{
    let r = Json::Object(members);
    proof {
        reveal_with_fuel(<Json as View>::view, 2);
        assert(r@->Object_0 =~= member_views(members@));
    }
    r
}

/// A string.
pub fn text(s: &str) -> (r: Json)
    ensures
        r@ == JsonView::Text(s@),
{
    Json::Text(s.to_owned())
}

/// Appends an item.
pub fn push_item(items: &mut Vec<Json>, value: Json)
    ensures
        list_views(final(items)@) == list_views(old(items)@).push(value@),
{
    items.push(value);
    assert(list_views(items@) =~= list_views(old(items)@).push(value@));
}

/// Appends a member.
pub fn push_member(members: &mut Vec<(String, Json)>, name: &str, value: Json)
    ensures
        member_views(final(members)@) == member_views(old(members)@).push((name@, value@)),
{
    members.push((name.to_owned(), value));
    assert(member_views(members@) =~= member_views(old(members)@).push((name@, value@)));
}

// ---------------------------------------------------------------------------
// Writing
// ---------------------------------------------------------------------------

/// A JSON value as a value of `serde_json`.
pub uninterp spec fn outside_value(json: JsonView) -> Value;

/// The compact text that `serde_json` writes for a value.
pub uninterp spec fn compact_text(value: Value) -> Seq<u8>;

/// The indented text that `serde_json` writes for a value.
pub uninterp spec fn pretty_text(value: Value) -> Seq<u8>;

/// The compact text of a JSON value.
pub open spec fn compact(json: JsonView) -> Seq<u8> {
    compact_text(outside_value(json))
}

/// The indented text of a JSON value.
pub open spec fn pretty(json: JsonView) -> Seq<u8> {
    pretty_text(outside_value(json))
}

/// The variant of `serde_json::Value` for each variant of [`Json`]. The contract
/// claims only that it follows from the value.
#[verifier::external_body]
fn to_value(json: &Json) -> (r: Value)
    ensures
        r == outside_value(json@),
{
    match json {
        Json::Bool(b) => Value::Bool(*b),
        Json::Number(n) => Value::from(*n),
        Json::Text(t) => Value::String(t.clone()),
        Json::List(items) => Value::Array(items.iter().map(to_value).collect()),
        Json::Object(members) => {
            Value::Object(members.iter().map(|m| (m.0.clone(), to_value(&m.1))).collect())
        }
    }
}

/// `serde_json::to_vec`, which does not fail on a `Value`. The contract claims
/// only that the text follows from the value.
#[verifier::external_body]
fn value_to_vec(value: &Value) -> (r: Vec<u8>)
    ensures
        r@ == compact_text(*value),
{
    serde_json::to_vec(value).unwrap_or_default()
}

/// `serde_json::to_vec_pretty`, which does not fail on a `Value`. The contract
/// claims only that the text follows from the value.
#[verifier::external_body]
fn value_to_vec_pretty(value: &Value) -> (r: Vec<u8>)
    ensures
        r@ == pretty_text(*value),
{
    serde_json::to_vec_pretty(value).unwrap_or_default()
}

/// The compact text of a JSON value.
pub fn encode(json: &Json) -> (r: Vec<u8>)
    ensures
        r@ == compact(json@),
{
    value_to_vec(&to_value(json))
}

/// The indented text of a JSON value.
pub fn encode_pretty(json: &Json) -> (r: Vec<u8>)
    ensures
        r@ == pretty(json@),
{
    value_to_vec_pretty(&to_value(json))
}

} // verus!
