//! JSON values: what they hold, and the functions of `serde_json` that the guardian calls.
//!
//! `serde_json::Value` is opaque to the verifier. What it holds is the tree that
//! [`json_tree`] names; every function below is described by what it does to trees. None of
//! these descriptions is proved: they are what the documentation and the source of
//! `serde_json` say.

use vstd::prelude::*;
use serde_json::Value;
use crate::digits;

verus! {

/// `serde_json::Value`, whose inside stays out of sight.
#[verifier::external_type_specification]
#[verifier::external_body]
pub struct ExValue(serde_json::Value);

/// What a JSON value holds. A number that is no integer is told by its text.
pub ghost enum Json {
    Null,
    Bool(bool),
    Int(int),
    Float(Seq<char>),
    Str(Seq<char>),
    Array(Seq<Json>),
    Object(Map<Seq<char>, Json>),
}

/// What `v` holds.
pub uninterp spec fn json_tree(v: serde_json::Value) -> Json;

/// What `serde_json::from_str` reads in a text: the tree of the value, or what the error says.
pub uninterp spec fn json_parse(s: Seq<char>) -> Result<Json, Seq<char>>;

/// The compact text of a value that holds `j`: members come in the order of their names.
pub uninterp spec fn json_text(j: Json) -> Seq<char>;

/// The trees of a list of values.
pub open spec fn trees(v: Seq<Value>) -> Seq<Json> {
    v.map_values(|x: Value| json_tree(x))
}

/// The member `key` of an object; `None` where there is none, or no object.
pub open spec fn member(j: Json, key: Seq<char>) -> Option<Json> {
    match j {
        Json::Object(m) => if m.dom().contains(key) {
            Some(m[key])
        } else {
            None
        },
        _ => None,
    }
}

/// The members of an object; null has none.
pub open spec fn members(j: Json) -> Map<Seq<char>, Json> {
    match j {
        Json::Object(m) => m,
        _ => Map::empty(),
    }
}

/// The integer in a value, where it lies between `lo` and `hi`.
pub open spec fn integer(j: Json, lo: int, hi: int) -> Option<int> {
    match j {
        Json::Int(n) => if lo <= n <= hi {
            Some(n)
        } else {
            None
        },
        _ => None,
    }
}

/// The text in a value that is a string.
pub open spec fn string(j: Json) -> Option<Seq<char>> {
    match j {
        Json::Str(s) => Some(s),
        _ => None,
    }
}

/// The text of null, of a truth value and of a number.
pub open spec fn simple_text(j: Json) -> Option<Seq<char>> {
    match j {
        Json::Null => Some("null"@),
        Json::Bool(true) => Some("true"@),
        Json::Bool(false) => Some("false"@),
        Json::Int(n) => Some(digits::signed_decimal(n)),
        Json::Float(t) => Some(t),
        _ => None,
    }
}

/// Whether a tree holds only integers for numbers and has at most `depth` levels of arrays
/// and objects.
pub open spec fn plain(j: Json, depth: nat) -> bool
    decreases depth,
{
    match j {
        Json::Float(t) => false,
        Json::Array(a) => depth > 0 && forall|i: int|
            0 <= i < a.len() ==> plain(#[trigger] a[i], (depth - 1) as nat),
        Json::Object(m) => depth > 0 && forall|k: Seq<char>|
            m.dom().contains(k) ==> plain(#[trigger] m[k], (depth - 1) as nat),
        _ => true,
    }
}

/// Whether a text is read as a value that holds `j`.
pub open spec fn reads_as(s: Seq<char>, j: Json) -> bool {
    json_parse(s) == Ok::<Json, Seq<char>>(j)
}

// ---------------------------------------------------------------------------
// Reading
// ---------------------------------------------------------------------------

/// `serde_json::from_str` reads a text as a JSON value. What it reads, and what its error
/// says where it reads none, is a function of the text.
#[verifier::external_body]
pub(crate) fn from_text(s: &str) -> (r: Result<Value, String>)
    ensures
        match r {
            Ok(v) => json_parse(s@) == Ok::<Json, Seq<char>>(json_tree(v)),
            Err(e) => json_parse(s@) == Err::<Json, Seq<char>>(e@),
        },
{
    match serde_json::from_str(s) {
        Ok(v) => Ok(v),
        Err(e) => Err(e.to_string()),
    }
}

/// `Value::get` with a string finds the member of that name; none where the value is no
/// object or has no such member.
#[verifier::external_body]
pub(crate) fn get<'a>(v: &'a Value, key: &str) -> (r: Option<&'a Value>)
    ensures
        match r {
            Some(x) => member(json_tree(*v), key@) == Some(json_tree(*x)),
            None => member(json_tree(*v), key@) is None,
        },
{
    v.get(key)
}

/// `Value::as_i64` gives the integer in a value where it fits.
pub assume_specification[ serde_json::Value::as_i64 ](v: &serde_json::Value) -> (r: Option<i64>)
    ensures
        match r {
            Some(n) => integer(json_tree(*v), i64::MIN as int, i64::MAX as int) == Some(n as int),
            None => integer(json_tree(*v), i64::MIN as int, i64::MAX as int) is None,
        },
;

/// `Value::as_u64` gives the integer in a value where it fits.
pub assume_specification[ serde_json::Value::as_u64 ](v: &serde_json::Value) -> (r: Option<u64>)
    ensures
        match r {
            Some(n) => integer(json_tree(*v), 0, u64::MAX as int) == Some(n as int),
            None => integer(json_tree(*v), 0, u64::MAX as int) is None,
        },
;

/// `Value::as_bool` gives the truth value in a value that is one.
pub assume_specification[ serde_json::Value::as_bool ](v: &serde_json::Value) -> (r: Option<bool>)
    ensures
        r == (match json_tree(*v) {
            Json::Bool(b) => Some(b),
            _ => None,
        }),
;

/// `Value::as_str` gives the text in a value that is a string.
pub assume_specification[ serde_json::Value::as_str ](v: &serde_json::Value) -> (r: Option<&str>)
    ensures
        match r {
            Some(s) => string(json_tree(*v)) == Some(s@),
            None => string(json_tree(*v)) is None,
        },
;

/// `Value::as_array` gives the items of a value that is an array.
pub assume_specification[ serde_json::Value::as_array ](v: &serde_json::Value) -> (r: Option<
    &Vec<serde_json::Value>,
>)
    ensures
        match r {
            Some(a) => json_tree(*v) == Json::Array(trees(a@)),
            None => !(json_tree(*v) is Array),
        },
;

// ---------------------------------------------------------------------------
// Writing
// ---------------------------------------------------------------------------

/// `Value::to_string` gives the compact text of a value, which is a function of what the value
/// holds. Null, truth values and integers are written as everywhere; and reading the text of a small value without fractions gives
/// back what the value holds.
#[verifier::external_body]
pub(crate) fn to_text(v: &Value) -> (r: String)
    ensures
        r@ == json_text(json_tree(*v)),
        simple_text(json_tree(*v)) matches Some(t) ==> r@ == t,
        plain(json_tree(*v), 3) ==> reads_as(r@, json_tree(*v)),
{
    v.to_string()
}

/// `Value::Null`.
#[verifier::external_body]
pub(crate) fn null() -> (r: Value)
    ensures
        json_tree(r) == Json::Null,
{
    Value::Null
}

/// `Value::from` makes a truth value.
#[verifier::external_body]
pub(crate) fn from_bool(b: bool) -> (r: Value)
    ensures
        json_tree(r) == Json::Bool(b),
{
    Value::from(b)
}

/// `Value::from` makes an integer.
#[verifier::external_body]
pub(crate) fn from_u64(n: u64) -> (r: Value)
    ensures
        json_tree(r) == Json::Int(n as int),
{
    Value::from(n)
}

/// `Value::from` makes a string.
#[verifier::external_body]
pub(crate) fn from_str(s: &str) -> (r: Value)
    ensures
        json_tree(r) == Json::Str(s@),
{
    Value::from(s)
}

/// `Value::from` makes an array of the items.
#[verifier::external_body]
pub(crate) fn from_vec(items: Vec<Value>) -> (r: Value)
    ensures
        json_tree(r) == Json::Array(trees(items@)),
{
    Value::from(items)
}

/// Assigning to `value[key]` sets the member of that name, whether it was there or not. The
/// value is an object, or null, which counts as an object without members; anything else
/// panics.
#[verifier::external_body]
pub(crate) fn set(object: &mut Value, key: &str, item: Value)
    requires
        json_tree(*old(object)) is Object || json_tree(*old(object)) is Null,
    ensures
        json_tree(*final(object)) == Json::Object(
            members(json_tree(*old(object))).insert(key@, json_tree(item)),
        ),
{
    object[key] = item;
}

// ---------------------------------------------------------------------------
// Small helpers
// ---------------------------------------------------------------------------

/// Whether a text is the compact text of what `j` is, and is read as it.
pub open spec fn compact(s: Seq<char>, j: Json) -> bool {
    s == json_text(j) && reads_as(s, j)
}

/// A string, or null where there is none.
pub open spec fn opt_string(s: Option<Seq<char>>) -> Json {
    match s {
        Some(t) => Json::Str(t),
        None => Json::Null,
    }
}

/// An array of strings.
pub open spec fn string_array(s: Seq<Seq<char>>) -> Json {
    Json::Array(s.map_values(|t: Seq<char>| Json::Str(t)))
}

/// `opt_string` of an optional string.
pub fn from_opt(s: Option<&str>) -> (r: Value)
    ensures
        json_tree(r) == opt_string(
            match s {
                Some(t) => Some(t@),
                None => None,
            },
        ),
{
    match s {
        Some(t) => from_str(t),
        None => null(),
    }
}

/// `string_array` of strings.
pub fn from_strings(s: &Vec<String>) -> (r: Value)
    ensures
        json_tree(r) == string_array(s@.map_values(|t: String| t@)),
{
    let mut items: Vec<Value> = Vec::new();
    let mut i: usize = 0;
    while i < s.len()
        invariant
            i <= s@.len(),
            items@.len() == i,
            forall|j: int| 0 <= j < i ==> json_tree(#[trigger] items@[j]) == Json::Str(s@[j]@),
        decreases s@.len() - i,
    {
        items.push(from_str(s[i].as_str()));
        i += 1;
    }
    let ghost got = trees(items@);
    assert(got =~= s@.map_values(|t: String| t@).map_values(|t: Seq<char>| Json::Str(t)));
    from_vec(items)
}

/// An array of strings holds each of them, in order; an optional string is null where there is
/// none.
pub proof fn law_strings(s: Seq<Seq<char>>, t: Seq<char>)
    ensures
        string_array(s) matches Json::Array(items) && items.len() == s.len() && forall|i: int|
            0 <= i < s.len() ==> #[trigger] items[i] == Json::Str(s[i]),
        opt_string(Some(t)) == Json::Str(t),
        opt_string(None) == Json::Null,
{
}

}
