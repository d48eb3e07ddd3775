//! JSON documents.

use vstd::prelude::*;

use crate::text::same_text;

verus! {

/// A number of a JSON document, kept as it is.
#[verifier::external_type_specification]
#[verifier::external_body]
pub struct ExNumber(serde_json::Number);

/// A JSON value.
pub enum Json {
    Null,
    Bool(bool),
    Number(serde_json::Number),
    Text(String),
    List(Vec<Json>),
    /// The members of an object.
    Object(Vec<Member>),
}

/// A member of a JSON object.
pub struct Member {
    pub key: String,
    pub value: Json,
}

/// Contents of a [`Json`].
pub enum JsonView {
    Null,
    Bool(bool),
    Number(serde_json::Number),
    Text(Seq<char>),
    List(Seq<JsonView>),
    Object(Seq<MemberView>),
}

/// Contents of a [`Member`].
pub struct MemberView {
    pub key: Seq<char>,
    pub value: JsonView,
}

impl View for Json {
    type V = JsonView;

    open spec fn view(&self) -> JsonView
        decreases self,
    {
        match self {
            Json::Null => JsonView::Null,
            Json::Bool(b) => JsonView::Bool(*b),
            Json::Number(n) => JsonView::Number(*n),
            Json::Text(s) => JsonView::Text(s@),
            Json::List(v) => JsonView::List(
                Seq::new(
                    v@.len(),
                    |i: int|
                        if 0 <= i < v@.len() {
                            v@[i].view()
                        } else {
                            JsonView::Null
                        },
                ),
            ),
            Json::Object(v) => JsonView::Object(
                Seq::new(
                    v@.len(),
                    |i: int|
                        if 0 <= i < v@.len() {
                            MemberView { key: v@[i].key@, value: v@[i].value.view() }
                        } else {
                            MemberView { key: seq![], value: JsonView::Null }
                        },
                ),
            ),
        }
    }
}

/// The members of an object, as pairs.
pub open spec fn members_view(v: Seq<Member>) -> Seq<MemberView> {
    v.map_values(|m: Member| MemberView { key: m.key@, value: m.value@ })
}

/// The values of a list.
pub open spec fn values_view(v: Seq<Json>) -> Seq<JsonView> {
    v.map_values(|j: Json| j@)
}

/// The contents of a list.
pub proof fn lemma_list_view(list: Vec<Json>)
    ensures
        Json::List(list)@ == JsonView::List(values_view(list@)),
{
    let j = Json::List(list);
    let a = j@->List_0;
    assert(a =~= values_view(list@));
}

/// The contents of an object.
pub proof fn lemma_object_view(object: Vec<Member>)
    ensures
        Json::Object(object)@ == JsonView::Object(members_view(object@)),
{
    let j = Json::Object(object);
    let b = j@->Object_0;
    assert(b =~= members_view(object@));
}

/// Where the member `key` is, from position `i` on.
pub open spec fn find_from(ms: Seq<MemberView>, key: Seq<char>, i: int) -> Option<int>
    decreases ms.len() - i,
{
    if i >= ms.len() {
        None
    } else if ms[i].key == key {
        Some(i)
    } else {
        find_from(ms, key, i + 1)
    }
}

/// The member `key` of an object.
pub open spec fn member(j: JsonView, key: Seq<char>) -> Option<JsonView> {
    match j {
        JsonView::Object(ms) => match find_from(ms, key, 0) {
            Some(i) => Some(ms[i].value),
            None => None,
        },
        _ => None,
    }
}

/// The members `ms` with `value` under `key`, in the place of the value there or
/// else at the end.
pub open spec fn put(
    ms: Seq<MemberView>,
    key: Seq<char>,
    value: JsonView,
) -> Seq<MemberView> {
    match find_from(ms, key, 0) {
        Some(i) => ms.update(i, MemberView { key: ms[i].key, value }),
        None => ms.push(MemberView { key, value }),
    }
}

/// Where the member `key` is.
pub fn find_member(ms: &Vec<Member>, key: &str) -> (r: Option<usize>)
    ensures
        match r {
            Some(i) => find_from(members_view(ms@), key@, 0) == Some(i as int) && i < ms@.len()
                && ms@[i as int].key@ == key@,
            None => find_from(members_view(ms@), key@, 0) is None,
        },
{
    let mut i: usize = 0;
    while i < ms.len()
        invariant
            i <= ms@.len(),
            find_from(members_view(ms@), key@, 0) == find_from(members_view(ms@), key@, i as int),
        decreases ms@.len() - i,
    {
        if same_text(ms[i].key.as_str(), key) {
            return Some(i);
        }
        i += 1;
    }
    None
}

/// Puts `value` under `key`.
pub fn put_member(ms: &mut Vec<Member>, key: &str, value: Json)
    ensures
        members_view(final(ms)@) == put(members_view(old(ms)@), key@, value@),
{
    match find_member(ms, key) {
        Some(i) => {
            let old_member = ms.remove(i);
            ms.insert(i, Member { key: old_member.key, value });
        },
        None => {
            ms.push(Member { key: key.to_string(), value });
        },
    }
    assert(members_view(ms@) =~= put(members_view(old(ms)@), key@, value@));
}

impl Json {
    /// The member `key`, if this is an object that has it.
    pub fn get(&self, key: &str) -> (r: Option<&Json>)
        ensures
            match r {
                Some(j) => member(self@, key@) == Some(j@),
                None => member(self@, key@) is None,
            },
    {
        match self {
            Json::Object(ms) => {
                proof {
                    lemma_object_view(*ms);
                }
                match find_member(ms, key) {
                    Some(i) => Some(&ms[i].value),
                    None => None,
                }
            },
            _ => None,
        }
    }

    /// The text, if this is one.
    pub fn as_text(&self) -> (r: Option<&String>)
        ensures
            match r {
                Some(s) => self@ == JsonView::Text(s@),
                None => !(self@ is Text),
            },
    {
        match self {
            Json::Text(s) => Some(s),
            _ => None,
        }
    }
}

/// Appends the member `key` with `value`.
pub(crate) fn push_member(ms: &mut Vec<Member>, key: &str, value: Json)
    ensures
        members_view(final(ms)@) == members_view(old(ms)@).push(
            MemberView { key: key@, value: value@ },
        ),
{
    ms.push(Member { key: key.to_string(), value });
    assert(members_view(ms@) =~= members_view(old(ms)@).push(
        MemberView { key: key@, value: value@ },
    ));
}

/// The number `n` in a JSON document.
pub uninterp spec fn json_number(n: u64) -> serde_json::Number;

/// Calls `serde_json::Number::from`, which makes the number of the same value.
#[verifier::external_body]
pub(crate) fn number_of(n: u64) -> (r: serde_json::Number)
    ensures
        r == json_number(n),
{
    serde_json::Number::from(n)
}

/// The document that `text` is, or why it is none.
pub uninterp spec fn parsed_json(text: Seq<char>) -> Result<JsonView, Seq<char>>;

/// The text of a document, without spaces.
pub uninterp spec fn json_text(j: JsonView) -> Seq<char>;

/// A value of `serde_json`.
#[verifier::external_type_specification]
#[verifier::external_body]
pub struct ExValue(serde_json::Value);

/// Turns a `serde_json::Value` into a [`Json`], one for one.
#[verifier::external_body]
pub(crate) fn json_of(v: serde_json::Value) -> (r: Json) {
    match v {
        serde_json::Value::Null => Json::Null,
        serde_json::Value::Bool(b) => Json::Bool(b),
        serde_json::Value::Number(n) => Json::Number(n),
        serde_json::Value::String(s) => Json::Text(s),
        serde_json::Value::Array(a) => Json::List(a.into_iter().map(json_of).collect()),
        serde_json::Value::Object(m) => Json::Object(
            m.into_iter().map(|(key, v)| Member { key, value: json_of(v) }).collect(),
        ),
    }
}

/// Turns a [`Json`] into a `serde_json::Value`, one for one.
#[verifier::external_body]
fn value_of(j: &Json) -> (r: serde_json::Value) {
    match j {
        Json::Null => serde_json::Value::Null,
        Json::Bool(b) => serde_json::Value::Bool(*b),
        Json::Number(n) => serde_json::Value::Number(n.clone()),
        Json::Text(s) => serde_json::Value::String(s.clone()),
        Json::List(v) => serde_json::Value::Array(v.iter().map(value_of).collect()),
        Json::Object(v) => serde_json::Value::Object(
            v.iter().map(|m| (m.key.clone(), value_of(&m.value))).collect(),
        ),
    }
}

/// Calls `serde_json::from_str` for a `serde_json::Value`. The document, and the
/// message of a failure, depend on the text alone; neither is stated here.
#[verifier::external_body]
pub fn read_json(text: &str) -> (r: Result<Json, String>)
    ensures
        match r {
            Ok(j) => parsed_json(text@) == Ok::<JsonView, Seq<char>>(j@),
            Err(e) => parsed_json(text@) == Err::<JsonView, Seq<char>>(e@),
        },
{
    serde_json::from_str(text).map(json_of).map_err(|e: serde_json::Error| e.to_string())
}

/// Calls `to_string` of a `serde_json::Value`, which writes it without spaces.
/// The text depends on the document alone; it is not stated here.
#[verifier::external_body]
pub fn write_json(j: &Json) -> (r: String)
    ensures
        r@ == json_text(j@),
{
    value_of(j).to_string()
}

/// The text of a document, indented; none where it cannot be written.
pub uninterp spec fn pretty_json(j: JsonView) -> Option<Seq<char>>;

/// Calls `serde_json::to_string_pretty` on a `serde_json::Value`, which writes it
/// indented. The text depends on the document alone; it is not stated here.
#[verifier::external_body]
pub(crate) fn write_pretty(j: &Json) -> (r: Option<String>)
    ensures
        match r {
            Some(t) => pretty_json(j@) == Some(t@),
            None => pretty_json(j@) is None,
        },
{
    serde_json::to_string_pretty(&value_of(j)).ok()
}

} // verus!
