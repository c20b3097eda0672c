use vstd::prelude::*;

verus! {

/// A JSON value as the library reads it. A number keeps its literal text; an
/// object keeps its members in order.
#[derive(Debug)]
pub enum Json {
    Null,
    Bool(bool),
    Number(String),
    Str(String),
    Array(Vec<Json>),
    Object(Vec<(String, Json)>),
}

/// The first member of `members` at or after `k` named `key`.
pub open spec fn member_from(members: Seq<(String, Json)>, key: Seq<char>, k: int) -> Option<Json>
    decreases members.len() - k,
{
    if k < 0 || k >= members.len() {
        None
    } else if members[k].0@ == key {
        Some(members[k].1)
    } else {
        member_from(members, key, k + 1)
    }
}

/// The member `key` of an object; `None` for a missing member or a non-object.
pub open spec fn json_get(v: Json, key: Seq<char>) -> Option<Json> {
    match v {
        Json::Object(members) => member_from(members@, key, 0),
        _ => None,
    }
}

/// The text of a string value.
pub open spec fn json_str(v: Option<Json>) -> Option<Seq<char>> {
    match v {
        Some(Json::Str(s)) => Some(s@),
        _ => None,
    }
}

/// The elements of an array value.
pub open spec fn json_array(v: Option<Json>) -> Option<Seq<Json>> {
    match v {
        Some(Json::Array(items)) => Some(items@),
        _ => None,
    }
}

impl Json {
    /// The member `key` of an object value.
    pub fn get(&self, key: &str) -> (r: Option<&Json>)
        ensures
            match r {
                Some(x) => json_get(*self, key@) == Some(*x),
                None => json_get(*self, key@) is None,
            },
    {
        match self {
            Json::Object(members) => {
                assert(json_get(*self, key@) == member_from(members@, key@, 0));
                let mut k: usize = 0;
                while k < members.len()
                    invariant
                        k <= members.len(),
                        json_get(*self, key@) == member_from(members@, key@, 0),
                        member_from(members@, key@, 0) == member_from(members@, key@, k as int),
                    decreases members.len() - k,
                {
                    let entry = &members[k];
                    if crate::capture::str_equal(entry.0.as_str(), key) {
                        assert(*entry == members@[k as int]);
                        assert(member_from(members@, key@, k as int) == Some(entry.1));
                        return Some(&entry.1);
                    }
                    k = k + 1;
                }
                None
            },
            _ => None,
        }
    }

    /// The text of a string value.
    pub fn as_str(&self) -> (r: Option<&str>)
        ensures
            match r {
                Some(s) => json_str(Some(*self)) == Some(s@),
                None => json_str(Some(*self)) is None,
            },
    {
        match self {
            Json::Str(s) => Some(s.as_str()),
            _ => None,
        }
    }

    /// The elements of an array value.
    pub fn as_array(&self) -> (r: Option<&Vec<Json>>)
        ensures
            match r {
                Some(items) => json_array(Some(*self)) == Some(items@),
                None => json_array(Some(*self)) is None,
            },
    {
        match self {
            Json::Array(items) => Some(items),
            _ => None,
        }
    }
}

#[verifier::external_type_specification]
#[verifier::external_body]
pub struct ExJsonValue(serde_json::Value);

/// Converts a `serde_json::Value` into the library's `Json`, variant by
/// variant; a number keeps the text that its `Display` writes.
#[verifier::external_body]
fn json_from_value(v: serde_json::Value) -> Json {
    match v {
        serde_json::Value::Null => Json::Null,
        serde_json::Value::Bool(b) => Json::Bool(b),
        serde_json::Value::Number(n) => Json::Number(n.to_string()),
        serde_json::Value::String(s) => Json::Str(s),
        serde_json::Value::Array(a) => Json::Array(a.into_iter().map(json_from_value).collect()),
        serde_json::Value::Object(m) => Json::Object(m.into_iter().map(|(k, x)| (k, json_from_value(x))).collect()),
    }
}

/// The value that `serde_json` parses from `text`, or `None` where it refuses it.
pub uninterp spec fn parsed_json(text: Seq<char>) -> Option<Json>;

/// Calls `serde_json::from_str::<serde_json::Value>` on `text` and converts the
/// value it gives into `Json`; a refusal becomes `None`. The result depends on
/// the text alone and is named `parsed_json`; the JSON grammar and the member
/// order that `serde_json` keeps are not stated.
#[verifier::external_body]
pub(crate) fn parse_json(text: &str) -> (r: Option<Json>)
    ensures
        r == parsed_json(text@),
{
    serde_json::from_str::<serde_json::Value>(text).ok().map(json_from_value)
}

/// The member `key` of `v`, when `v` is present.
pub open spec fn json_get_opt(v: Option<Json>, key: Seq<char>) -> Option<Json> {
    match v {
        Some(x) => json_get(x, key),
        None => None,
    }
}

/// The text of member `key` of an optional value.
pub fn str_member(v: Option<&Json>, key: &str) -> (r: Option<String>)
    ensures
        match r {
            Some(s) => json_str(json_get_opt(match v { Some(x) => Some(*x), None => None }, key@)) == Some(s@),
            None => json_str(json_get_opt(match v { Some(x) => Some(*x), None => None }, key@)) is None,
        },
{
    match v {
        Some(x) => match x.get(key) {
            Some(m) => match m.as_str() {
                Some(s) => Some(String::from_str(s)),
                None => None,
            },
            None => None,
        },
        None => None,
    }
}

} // verus!
