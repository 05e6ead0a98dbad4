//! Parsed JSON, as far as tokenizer files need it.
use crate::text::same_text;
use vstd::prelude::*;

verus! {

/// A JSON value. Of a number its natural value is known, if it is one, and the
/// word that holds it as a floating-point number.
#[derive(Debug, PartialEq, Eq)]
pub enum Json {
    Null,
    Bool(bool),
    Number(Option<u64>, u64),
    Text(String),
    List(Vec<Json>),
    Object(Vec<(String, Json)>),
}

/// A value behind a reference.
pub open spec fn value(j: Option<&Json>) -> Option<Json> {
    match j {
        Some(x) => Some(*x),
        None => None,
    }
}

/// The last of the first `n` entries with this key.
pub open spec fn last_with_key(v: Seq<(String, Json)>, n: int, key: Seq<char>) -> Option<Json>
    decreases n,
{
    if n <= 0 {
        None
    } else if v[n - 1].0@ == key {
        Some(v[n - 1].1)
    } else {
        last_with_key(v, n - 1, key)
    }
}

/// The value under a key; none where there is no such key or no object.
pub open spec fn at(j: Option<Json>, key: Seq<char>) -> Option<Json> {
    match j {
        Some(Json::Object(v)) => last_with_key(v@, v@.len() as int, key),
        _ => None,
    }
}

/// There is no value, or it is null.
pub open spec fn is_null(j: Option<Json>) -> bool {
    j is None || j == Some(Json::Null)
}

/// The text that the value is.
pub open spec fn text_of(j: Option<Json>) -> Option<Seq<char>> {
    match j {
        Some(Json::Text(s)) => Some(s@),
        _ => None,
    }
}

/// The natural number that the value is.
pub open spec fn number_of(j: Option<Json>) -> Option<u64> {
    match j {
        Some(Json::Number(n, _)) => n,
        _ => None,
    }
}

/// The word that holds the number that the value is.
pub open spec fn word_of(j: Option<Json>) -> Option<u64> {
    match j {
        Some(Json::Number(_, w)) => Some(w),
        _ => None,
    }
}

/// The truth value that the value is.
pub open spec fn bool_of(j: Option<Json>) -> Option<bool> {
    match j {
        Some(Json::Bool(b)) => Some(b),
        _ => None,
    }
}

/// The elements of the list that the value is.
pub open spec fn list_of(j: Option<Json>) -> Option<Seq<Json>> {
    match j {
        Some(Json::List(v)) => Some(v@),
        _ => None,
    }
}

/// The entries of the object that the value is.
pub open spec fn entries_of(j: Option<Json>) -> Option<Seq<(String, Json)>> {
    match j {
        Some(Json::Object(v)) => Some(v@),
        _ => None,
    }
}

/// The text under the key `type`.
pub open spec fn type_of(j: Option<Json>) -> Option<Seq<char>> {
    text_of(at(j, "type"@))
}

/// One of the elements has this type.
pub open spec fn any_of_type(v: Seq<Json>, name: Seq<char>) -> bool {
    exists|i: int| 0 <= i < v.len() && type_of(Some(#[trigger] v[i])) == Some(name)
}

/// The value under a key.
pub fn get<'a>(j: Option<&'a Json>, key: &str) -> (r: Option<&'a Json>)
    ensures
        value(r) == at(value(j), key@),
{
    match j {
        Some(Json::Object(v)) => {
            let mut i: usize = v.len();
            while i > 0
                invariant
                    i <= v@.len(),
                    at(value(j), key@) == last_with_key(v@, i as int, key@),
                decreases i,
            {
                if same_text(v[i - 1].0.as_str(), key) {
                    return Some(&v[i - 1].1);
                }
                i = i - 1;
            }
            None
        },
        _ => None,
    }
}

/// Is there no value, or a null?
pub fn absent(j: Option<&Json>) -> (r: bool)
    ensures
        r == is_null(value(j)),
{
    match j {
        None => true,
        Some(Json::Null) => true,
        _ => false,
    }
}

/// The text that the value is.
pub fn as_text<'a>(j: Option<&'a Json>) -> (r: Option<&'a str>)
    ensures
        match r {
            Some(s) => text_of(value(j)) == Some(s@),
            None => text_of(value(j)) is None,
        },
{
    match j {
        Some(Json::Text(s)) => Some(s.as_str()),
        _ => None,
    }
}

/// The natural number that the value is.
pub fn as_number(j: Option<&Json>) -> (r: Option<u64>)
    ensures
        r == number_of(value(j)),
{
    match j {
        Some(Json::Number(n, _)) => *n,
        _ => None,
    }
}

/// The word that holds the number that the value is.
pub fn as_word(j: Option<&Json>) -> (r: Option<u64>)
    ensures
        r == word_of(value(j)),
{
    match j {
        Some(Json::Number(_, w)) => Some(*w),
        _ => None,
    }
}

/// The truth value that the value is.
pub fn as_bool(j: Option<&Json>) -> (r: Option<bool>)
    ensures
        r == bool_of(value(j)),
{
    match j {
        Some(Json::Bool(b)) => Some(*b),
        _ => None,
    }
}

/// The elements of the list that the value is.
pub fn as_list<'a>(j: Option<&'a Json>) -> (r: Option<&'a [Json]>)
    ensures
        match r {
            Some(v) => list_of(value(j)) == Some(v@),
            None => list_of(value(j)) is None,
        },
{
    match j {
        Some(Json::List(v)) => Some(v.as_slice()),
        _ => None,
    }
}

/// The entries of the object that the value is.
pub fn as_entries<'a>(j: Option<&'a Json>) -> (r: Option<&'a [(String, Json)]>)
    ensures
        match r {
            Some(v) => entries_of(value(j)) == Some(v@),
            None => entries_of(value(j)) is None,
        },
{
    match j {
        Some(Json::Object(v)) => Some(v.as_slice()),
        _ => None,
    }
}

/// Is the value this text?
pub fn is_text(j: Option<&Json>, s: &str) -> (r: bool)
    ensures
        r == (text_of(value(j)) == Some(s@)),
{
    match as_text(j) {
        Some(t) => same_text(t, s),
        None => false,
    }
}

/// Does the value have this type?
pub fn has_type(j: Option<&Json>, name: &str) -> (r: bool)
    ensures
        r == (type_of(value(j)) == Some(name@)),
{
    is_text(get(j, "type"), name)
}

/// Does one of the elements have this type?
pub fn some_of_type(v: &[Json], name: &str) -> (r: bool)
    ensures
        r == any_of_type(v@, name@),
{
    let mut i: usize = 0;
    while i < v.len()
        invariant
            i <= v.len(),
            forall|k: int| 0 <= k < i ==> type_of(Some(#[trigger] v@[k])) != Some(name@),
        decreases v.len() - i,
    {
        if has_type(Some(&v[i]), name) {
            assert(type_of(Some(v@[i as int])) == Some(name@));
            return true;
        }
        i = i + 1;
    }
    false
}

} // verus!
