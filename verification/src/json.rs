//! The opaque JSON values that nodes carry as metadata, and the few
//! things the library reads or writes in them.
use vstd::prelude::*;

verus! {

#[verifier::external_type_specification]
#[verifier::external_body]
pub struct ExJsonValue(serde_json::Value);

/// The members of a JSON object whose values are strings, by key; empty
/// when the value is not an object.
pub uninterp spec fn json_string_members(v: serde_json::Value) -> Map<Seq<char>, Seq<char>>;

/// Whether a JSON value is an object.
pub uninterp spec fn json_is_object(v: serde_json::Value) -> bool;

/// Whether `serde_json::from_str` accepts the text as a JSON value.
pub uninterp spec fn json_text_valid(s: Seq<char>) -> bool;

/// Builds `{}` (`serde_json::Value::Object` of an empty `serde_json::Map`):
/// an object with no members, so each key reads as `null`.
#[verifier::external_body]
pub(crate) fn empty_object() -> (obj: serde_json::Value)
    ensures
        json_is_object(obj),
        json_string_members(obj).dom() == Set::<Seq<char>>::empty(),
        forall|k: Seq<char>| #[trigger] json_is_null(json_member(obj, k)),
{
    serde_json::Value::Object(serde_json::Map::new())
}

/// `serde_json::Value::is_object`.
#[verifier::external_body]
pub(crate) fn is_object(v: &serde_json::Value) -> (r: bool)
    ensures
        r == json_is_object(*v),
{
    v.is_object()
}

/// Inserts `key: s` into an object with `serde_json::Map::insert`, which
/// replaces a member of that key and leaves every other member as it was;
/// the value stays an object.
#[verifier::external_body]
pub(crate) fn set_string_member(v: &mut serde_json::Value, key: &str, s: &str)
    requires
        json_is_object(*old(v)),
    ensures
        json_is_object(*final(v)),
        json_string_members(*final(v)) == json_string_members(*old(v)).insert(key@, s@),
        forall|k: Seq<char>| k != key@ ==> #[trigger] json_member(*final(v), k) == json_member(*old(v), k),
{
    if let Some(obj) = v.as_object_mut() {
        obj.insert(key.to_string(), serde_json::Value::String(s.to_string()));
    }
}

/// `v[key].as_str()`: the member `key` of an object where it is a string.
#[verifier::external_body]
pub(crate) fn string_member(v: &serde_json::Value, key: &str) -> (r: Option<String>)
    ensures
        match r {
            Some(s) => json_string_members(*v).contains_key(key@)
                && json_string_members(*v)[key@] == s@
                && json_str_value(json_member(*v, key@)) == Some(s@),
            None => !json_string_members(*v).contains_key(key@)
                && json_str_value(json_member(*v, key@)) is None,
        },
{
    match v[key].as_str() {
        Some(s) => Some(s.to_string()),
        None => None,
    }
}

/// The value that `serde_json::from_str` parses from a text it accepts.
pub uninterp spec fn json_parsed(s: Seq<char>) -> serde_json::Value;

/// Parses JSON text with `serde_json::from_str`: `Some` exactly where it
/// accepts the text, with the value it parses.
#[verifier::external_body]
pub(crate) fn parse_json(s: &str) -> (r: Option<serde_json::Value>)
    ensures
        r is Some <==> json_text_valid(s@),
        r matches Some(v) ==> v == json_parsed(s@),
{
    match serde_json::from_str::<serde_json::Value>(s) {
        Ok(v) => Some(v),
        Err(_) => None,
    }
}

/// The string a JSON value holds, when it is a string.
pub uninterp spec fn json_str_value(v: serde_json::Value) -> Option<Seq<char>>;

/// `serde_json::Value::as_str`: the string the value holds, when it is one.
#[verifier::external_body]
pub(crate) fn as_string(v: &serde_json::Value) -> (r: Option<String>)
    ensures
        match r {
            Some(s) => json_str_value(*v) == Some(s@),
            None => json_str_value(*v) is None,
        },
{
    match v.as_str() {
        Some(s) => Some(s.to_string()),
        None => None,
    }
}

/// `v[key]`: the member `key` of an object; `null` when `v` is not an
/// object or has no such member.
pub uninterp spec fn json_member(v: serde_json::Value, key: Seq<char>) -> serde_json::Value;

/// Whether two JSON values are equal by `serde_json::Value`'s `==`.
pub uninterp spec fn json_equal(a: serde_json::Value, b: serde_json::Value) -> bool;

/// Whether a JSON value is `null`.
pub uninterp spec fn json_is_null(v: serde_json::Value) -> bool;

/// The boolean a JSON value holds, when it is one.
pub uninterp spec fn json_bool_value(v: serde_json::Value) -> Option<bool>;

/// The compact JSON text of a value (what its `Display` writes).
pub uninterp spec fn json_text(v: serde_json::Value) -> Seq<char>;

/// The number of elements of a JSON array, when the value is one.
pub uninterp spec fn json_array_len(v: serde_json::Value) -> Option<nat>;

/// `v[key]` with `serde_json::Value`'s `Index<&str>`, cloned.
#[verifier::external_body]
pub(crate) fn member(v: &serde_json::Value, key: &str) -> (r: serde_json::Value)
    ensures
        r == json_member(*v, key@),
{
    v[key].clone()
}

/// `a == b` on JSON values.
#[verifier::external_body]
pub(crate) fn values_equal(a: &serde_json::Value, b: &serde_json::Value) -> (r: bool)
    ensures
        r == json_equal(*a, *b),
{
    a == b
}

/// Which of the shapes the library tells apart a JSON value has.
pub enum JsonShape {
    Null,
    Str(String),
    Bool(bool),
    Other,
}

/// Tells `Value::Null`, `Value::String` and `Value::Bool` apart from the
/// other variants; a value has exactly one variant.
#[verifier::external_body]
pub(crate) fn shape(v: &serde_json::Value) -> (r: JsonShape)
    ensures
        match r {
            JsonShape::Null => json_is_null(*v),
            JsonShape::Str(s) => !json_is_null(*v) && json_str_value(*v) == Some(s@),
            JsonShape::Bool(b) => !json_is_null(*v) && json_str_value(*v) is None
                && json_bool_value(*v) == Some(b),
            JsonShape::Other => !json_is_null(*v) && json_str_value(*v) is None
                && json_bool_value(*v) is None,
        },
{
    match v {
        serde_json::Value::Null => JsonShape::Null,
        serde_json::Value::String(s) => JsonShape::Str(s.clone()),
        serde_json::Value::Bool(b) => JsonShape::Bool(*b),
        _ => JsonShape::Other,
    }
}

/// The compact JSON text of a value, with `ToString` through its `Display`.
#[verifier::external_body]
pub(crate) fn text_of(v: &serde_json::Value) -> (r: String)
    ensures
        r@ == json_text(*v),
{
    v.to_string()
}

/// `Value::as_array`, then the array's length.
#[verifier::external_body]
pub(crate) fn array_len(v: &serde_json::Value) -> (r: Option<usize>)
    ensures
        match r {
            Some(n) => json_array_len(*v) == Some(n as nat),
            None => json_array_len(*v) is None,
        },
{
    match v.as_array() {
        Some(a) => Some(a.len()),
        None => None,
    }
}

/// The elements of a JSON array, when the value is one.
pub uninterp spec fn json_array_items(v: serde_json::Value) -> Option<Seq<serde_json::Value>>;

/// `Value::as_array`, cloned: the elements of an array, in order.
#[verifier::external_body]
pub(crate) fn array_items(v: &serde_json::Value) -> (r: Option<Vec<serde_json::Value>>)
    ensures
        match r {
            Some(items) => json_array_items(*v) == Some(items@),
            None => json_array_items(*v) is None,
        },
{
    v.as_array().cloned()
}

/// `Value::Array` of the given elements.
#[verifier::external_body]
pub(crate) fn array_value(items: Vec<serde_json::Value>) -> (r: serde_json::Value)
    ensures
        json_array_items(r) == Some(items@),
{
    serde_json::Value::Array(items)
}

/// `v[key] = x` on an object (`IndexMut<&str>` inserts or replaces the
/// member): `key` then holds `x`, every other member stays, and the value
/// stays an object.
#[verifier::external_body]
pub(crate) fn set_member(v: &mut serde_json::Value, key: &str, x: serde_json::Value)
    requires
        json_is_object(*old(v)),
    ensures
        json_is_object(*final(v)),
        json_member(*final(v), key@) == x,
        forall|k: Seq<char>| k != key@ ==> #[trigger] json_member(*final(v), k) == json_member(*old(v), k),
{
    v[key] = x;
}

/// The object `{"to": to, "type": t}`, built with `Map::insert`: an object whose `to` member is the
/// string `to` and whose `type` member is `t`.
#[verifier::external_body]
pub(crate) fn edge_value(to: &str, t: &serde_json::Value) -> (r: serde_json::Value)
    ensures
        json_is_object(r),
        json_str_value(json_member(r, "to"@)) == Some(to@),
        json_member(r, "type"@) == *t,
{
    let mut m = serde_json::Map::new();
    m.insert("to".to_string(), serde_json::Value::String(to.to_string()));
    m.insert("type".to_string(), t.clone());
    serde_json::Value::Object(m)
}

/// The indented JSON text that `serde_json::to_string_pretty` writes for a value.
pub uninterp spec fn json_pretty(v: serde_json::Value) -> Seq<char>;

/// `serde_json::to_string_pretty`, which cannot fail on a `Value` (its
/// keys are strings).
#[verifier::external_body]
pub(crate) fn pretty_text(v: &serde_json::Value) -> (r: String)
    ensures
        r@ == json_pretty(*v),
{
    serde_json::to_string_pretty(v).unwrap_or_default()
}

} // verus!
