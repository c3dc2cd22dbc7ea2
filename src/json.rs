use vstd::prelude::*;

verus! {

/// A JSON document, holding as plain values what this library reads of it.
///
/// A number is kept as the `u64` it denotes, or `None` where it is negative
/// or not an integer. An object keeps its members in the order in which
/// `serde_json` hands them out, one member per key.
#[derive(Debug)]
pub enum Json {
    Null,
    Bool(bool),
    Number(Option<u64>),
    Text(String),
    Array(Vec<Json>),
    Object(Vec<(String, Json)>),
}

#[verifier::external_type_specification]
#[verifier::external_body]
pub struct ExJsonValue(serde_json::Value);

/// The document that `serde_json` reads from `text`, or `None` where the
/// text is not one JSON value.
pub uninterp spec fn json_of(text: Seq<char>) -> Option<Json>;

/// Relies on `serde_json::from_str` into `serde_json::Value`: the text is
/// read as one JSON value, or the parser's error message comes back.
#[verifier::external_body]
pub(crate) fn parse_json(text: &str) -> (r: Result<Json, String>)
    ensures
        r is Ok <==> json_of(text@) is Some,
        r is Ok ==> json_of(text@) == Some(r->Ok_0),
{
    match serde_json::from_str::<serde_json::Value>(text) {
        Ok(v) => Ok(json_from_value(v)),
        Err(e) => Err(e.to_string()),
    }
}

/// Relies on the variants of `serde_json::Value` and on `Number::as_u64`:
/// carries a parsed value over into `Json`, variant by variant.
#[verifier::external_body]
fn json_from_value(v: serde_json::Value) -> Json {
    match v {
        serde_json::Value::Null => Json::Null,
        serde_json::Value::Bool(b) => Json::Bool(b),
        serde_json::Value::Number(n) => Json::Number(n.as_u64()),
        serde_json::Value::String(s) => Json::Text(s),
        serde_json::Value::Array(a) => Json::Array(a.into_iter().map(json_from_value).collect()),
        serde_json::Value::Object(m) => Json::Object(
            m.into_iter().map(|(k, x)| (k, json_from_value(x))).collect(),
        ),
    }
}

/// The value of the first member of `fields` whose key is `key`.
pub open spec fn member(fields: Seq<(String, Json)>, key: Seq<char>) -> Option<Json>
    decreases fields.len(),
{
    if fields.len() == 0 {
        None
    } else if fields[0].0@ == key {
        Some(fields[0].1)
    } else {
        member(fields.drop_first(), key)
    }
}

/// The members of `fields` from index `i` on.
proof fn lemma_member_step(fields: Seq<(String, Json)>, key: Seq<char>, i: int)
    requires
        0 <= i < fields.len(),
    ensures
        member(fields.subrange(i, fields.len() as int), key) == if fields[i].0@ == key {
            Some(fields[i].1)
        } else {
            member(fields.subrange(i + 1, fields.len() as int), key)
        },
{
    let s = fields.subrange(i, fields.len() as int);
    assert(s.drop_first() =~= fields.subrange(i + 1, fields.len() as int));
}

/// Looks up the first member named `key`.
pub fn get_member<'a>(fields: &'a Vec<(String, Json)>, key: &String) -> (r: Option<&'a Json>)
    ensures
        match r {
            Some(j) => member(fields@, key@) == Some(*j),
            None => member(fields@, key@) is None,
        },
{
    let mut i: usize = 0;
    assert(fields@.subrange(0, fields@.len() as int) =~= fields@);
    while i < fields.len()
        invariant
            i <= fields@.len(),
            member(fields@.subrange(i as int, fields@.len() as int), key@) == member(fields@, key@),
        decreases fields@.len() - i,
    {
        proof {
            lemma_member_step(fields@, key@, i as int);
        }
        if fields[i].0 == *key {
            return Some(&fields[i].1);
        }
        i = i + 1;
    }
    proof {
        assert(fields@.subrange(i as int, fields@.len() as int).len() == 0);
    }
    None
}

} // verus!
