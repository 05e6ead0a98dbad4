//! JSON texts, and the tokenizers of tokenizer files that are such texts.
//!
//! The text is parsed by `serde_json`. What a parsed value holds is read node
//! by node, into the values that the rest of the library works on.
use super::json::Json;
use super::load;
use super::load::{from_json_value, load_from_json_value_with_encoder};
use super::JsonLoadError;
use crate::encoder::EncoderType;
use crate::pretok::PretokType;
use crate::tokenizer::Tokenizer;
use vstd::prelude::*;

verus! {

/// A JSON value of `serde_json`.
#[verifier::external_type_specification]
#[verifier::external_body]
pub struct ExValue(serde_json::Value);

/// An error of `serde_json`.
#[verifier::external_type_specification]
#[verifier::external_body]
pub struct ExError(serde_json::Error);

/// What a JSON value holds. Of a number its natural value is known, if it is
/// one, and the word that holds it as a floating-point number, if one does.
pub enum Tree {
    Null,
    Bool(bool),
    Number(Option<u64>, Option<u64>),
    Text(Seq<char>),
    List(Seq<Tree>),
    Object(Seq<(Seq<char>, Tree)>),
}

/// What `serde_json::from_str` makes of a text as a JSON value; none where it
/// refuses the text.
pub uninterp spec fn parsed(text: Seq<char>) -> Option<Tree>;

/// What a value of `serde_json` holds.
pub uninterp spec fn tree_of(v: serde_json::Value) -> Tree;

/// What the values of a list hold.
pub open spec fn trees(v: Seq<serde_json::Value>) -> Seq<Tree> {
    v.map_values(|x: serde_json::Value| tree_of(x))
}

/// What the entries of an object hold.
pub open spec fn entry_trees(v: Seq<(&String, &serde_json::Value)>) -> Seq<(Seq<char>, Tree)> {
    v.map_values(|e: (&String, &serde_json::Value)| (e.0@, tree_of(*e.1)))
}

/// The outermost part of a JSON value.
pub enum Node<'a> {
    Null,
    Bool(bool),
    Number(Option<u64>, Option<u64>),
    Text(&'a String),
    List(&'a Vec<serde_json::Value>),
    Object(Vec<(&'a String, &'a serde_json::Value)>),
}

/// What a node holds.
pub open spec fn node_tree(n: Node) -> Tree {
    match n {
        Node::Null => Tree::Null,
        Node::Bool(b) => Tree::Bool(b),
        Node::Number(natural, word) => Tree::Number(natural, word),
        Node::Text(s) => Tree::Text(s@),
        Node::List(v) => Tree::List(trees(v@)),
        Node::Object(v) => Tree::Object(entry_trees(v@)),
    }
}

/// Trusted: `serde_json::from_str` for a `serde_json::Value` depends on the text
/// alone: it gives a value that holds what the text spells, or an error.
#[verifier::external_body]
fn parse_value(text: &str) -> (r: Result<serde_json::Value, serde_json::Error>)
    ensures
        match r {
            Ok(v) => parsed(text@) == Some(tree_of(v)),
            Err(_) => parsed(text@) is None,
        },
{
    serde_json::from_str(text)
}

/// Trusted: the variants of `serde_json::Value` hold what the value holds. A
/// number is given by `as_u64` and by the bits of `as_f64`, the entries of an
/// object in the order of `Map::iter`, which is that of the keys.
#[verifier::external_body]
fn node<'a>(v: &'a serde_json::Value) -> (r: Node<'a>)
    ensures
        tree_of(*v) == node_tree(r),
{
    match v {
        serde_json::Value::Null => Node::Null,
        serde_json::Value::Bool(b) => Node::Bool(*b),
        serde_json::Value::Number(n) => {
            Node::Number(n.as_u64(), n.as_f64().map(|x| x.to_bits()))
        },
        serde_json::Value::String(s) => Node::Text(s),
        serde_json::Value::Array(a) => Node::List(a),
        serde_json::Value::Object(m) => Node::Object(m.iter().collect()),
    }
}

/// The word that holds no number.
pub const NO_NUMBER: u64 = 0x7ff8_0000_0000_0000;

/// The value holds what the tree holds.
pub open spec fn holds(j: Json, t: Tree) -> bool
    decreases t,
{
    match t {
        Tree::Null => j == Json::Null,
        Tree::Bool(b) => j == Json::Bool(b),
        Tree::Number(natural, word) => j == Json::Number(
            natural,
            match word {
                Some(w) => w,
                None => NO_NUMBER,
            },
        ),
        Tree::Text(s) => j matches Json::Text(x) && x@ == s,
        Tree::List(ts) => j matches Json::List(v) && v@.len() == ts.len() && forall|i: int|
            0 <= i < ts.len() ==> holds(#[trigger] v@[i], ts[i]),
        Tree::Object(es) => j matches Json::Object(v) && v@.len() == es.len() && forall|i: int|
            0 <= i < es.len() ==> (#[trigger] v@[i]).0@ == es[i].0 && holds(v@[i].1, es[i].1),
    }
}

/// The value of the library that holds what a value of `serde_json` holds.
fn to_json(v: &serde_json::Value) -> (r: Json)
    ensures
        holds(r, tree_of(*v)),
    decreases tree_of(*v),
{
    let n = node(v);
    match n {
        Node::Null => Json::Null,
        Node::Bool(b) => Json::Bool(b),
        Node::Number(natural, word) => {
            let w: u64 = match word {
                Some(w) => w,
                None => NO_NUMBER,
            };
            Json::Number(natural, w)
        },
        Node::Text(s) => Json::Text(s.as_str().to_owned()),
        Node::List(list) => {
            let mut out: Vec<Json> = Vec::new();
            let mut i: usize = 0;
            while i < list.len()
                invariant
                    tree_of(*v) == Tree::List(trees(list@)),
                    i <= list@.len(),
                    out@.len() == i,
                    forall|k: int| 0 <= k < i ==> holds(#[trigger] out@[k], trees(list@)[k]),
                decreases list.len() - i,
            {
                proof {
                    let t = tree_of(*v);
                    assert(t->List_0[i as int] == tree_of(list@[i as int]));
                    assert(decreases_to!(t => t->List_0[i as int]));
                }
                out.push(to_json(&list[i]));
                i = i + 1;
            }
            Json::List(out)
        },
        Node::Object(entries) => {
            let mut out: Vec<(String, Json)> = Vec::new();
            let mut i: usize = 0;
            while i < entries.len()
                invariant
                    tree_of(*v) == Tree::Object(entry_trees(entries@)),
                    i <= entries@.len(),
                    out@.len() == i,
                    forall|k: int|
                        0 <= k < i ==> (#[trigger] out@[k]).0@ == entry_trees(entries@)[k].0
                            && holds(out@[k].1, entry_trees(entries@)[k].1),
                decreases entries.len() - i,
            {
                let (key, value) = entries[i];
                proof {
                    let t = tree_of(*v);
                    assert(t->Object_0[i as int] == (key@, tree_of(*value)));
                    assert(decreases_to!(t => t->Object_0[i as int].1));
                }
                out.push((key.as_str().to_owned(), to_json(value)));
                i = i + 1;
            }
            Json::Object(out)
        },
    }
}

/// Parse a JSON text.
pub fn parse_json(text: &str) -> (r: Result<Json, JsonLoadError>)
    ensures
        match r {
            Ok(j) => parsed(text@) is Some && holds(j, parsed(text@)->0),
            Err(e) => parsed(text@) is None && e == JsonLoadError::Json,
        },
{
    match parse_value(text) {
        Ok(v) => Ok(to_json(&v)),
        Err(_) => Err(JsonLoadError::Json),
    }
}

/// A value that holds what the text spells is loaded with the result.
pub open spec fn loads_value(
    text: Seq<char>,
    encoder_type: EncoderType,
    r: Result<(Tokenizer, Vec<(String, bool)>), JsonLoadError>,
) -> bool {
    exists|data: Json| #[trigger]
        holds(data, parsed(text)->0) && load::loads(data, encoder_type, r)
}

/// A value that holds what the text spells is loaded with the result, and with
/// the pretokenizer.
pub open spec fn loads_value_with(
    text: Seq<char>,
    pretokenizer_type: PretokType,
    encoder_type: EncoderType,
    r: Result<Tokenizer, JsonLoadError>,
) -> bool {
    exists|data: Json| #[trigger]
        holds(data, parsed(text)->0) && load::loads_with(data, pretokenizer_type, encoder_type, r)
}

/// Load a tokenizer from the text of a tokenizer.json file. Where the file
/// splits texts by patterns of an unknown kind and no pretokenizer is set,
/// these come along.
pub fn from_json_str(json_str: &str) -> (r: Result<
    (Tokenizer, Vec<(String, bool)>),
    JsonLoadError,
>)
    ensures
        r == Err::<(Tokenizer, Vec<(String, bool)>), JsonLoadError>(JsonLoadError::Json)
            <==> parsed(json_str@) is None,
        parsed(json_str@) is Some ==> loads_value(json_str@, EncoderType::Backtracking, r),
{
    from_json_str_with_encoder(json_str, EncoderType::Backtracking)
}

/// The same with an encoder type.
pub fn from_json_str_with_encoder(json_str: &str, encoder_type: EncoderType) -> (r: Result<
    (Tokenizer, Vec<(String, bool)>),
    JsonLoadError,
>)
    ensures
        r == Err::<(Tokenizer, Vec<(String, bool)>), JsonLoadError>(JsonLoadError::Json)
            <==> parsed(json_str@) is None,
        parsed(json_str@) is Some ==> loads_value(json_str@, encoder_type, r),
{
    match parse_json(json_str) {
        Ok(data) => from_json_value(&data, encoder_type),
        Err(e) => Err(e),
    }
}

/// Load a tokenizer from the text of a tokenizer.json file with a pretokenizer,
/// whatever the file asks for.
pub fn from_json_str_with_pretokenizer(json_str: &str, pretokenizer_type: PretokType) -> (r: Result<
    Tokenizer,
    JsonLoadError,
>)
    ensures
        r == Err::<Tokenizer, JsonLoadError>(JsonLoadError::Json) <==> parsed(json_str@) is None,
        parsed(json_str@) is Some ==> loads_value_with(
            json_str@,
            pretokenizer_type,
            EncoderType::Backtracking,
            r,
        ),
{
    from_json_str_with_options(json_str, EncoderType::Backtracking, pretokenizer_type)
}

/// The same with an encoder type.
pub fn from_json_str_with_options(
    json_str: &str,
    encoder_type: EncoderType,
    pretokenizer_type: PretokType,
) -> (r: Result<Tokenizer, JsonLoadError>)
    ensures
        r == Err::<Tokenizer, JsonLoadError>(JsonLoadError::Json) <==> parsed(json_str@) is None,
        parsed(json_str@) is Some ==> loads_value_with(
            json_str@,
            pretokenizer_type,
            encoder_type,
            r,
        ),
{
    match parse_json(json_str) {
        Ok(data) => load_from_json_value_with_encoder(&data, pretokenizer_type, encoder_type),
        Err(e) => Err(e),
    }
}

} // verus!
