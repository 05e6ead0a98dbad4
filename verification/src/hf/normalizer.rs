//! Which normalizer a tokenizer file asks for.
use crate::charsmap;
use crate::charsmap::PrecompiledCharsmap;
use crate::hf::json;
use crate::hf::json::{
    absent, as_bool, as_list, as_text, get, has_type, is_text, some_of_type, Json,
};
use crate::normalizer::{MetaspacePrepend, Normalizer};
use crate::serde::tkz;
use std::sync::Arc;
use vstd::prelude::*;

verus! {

/// A normalizer, as its number in a file and its charsmap blob.
pub type Choice = (u32, Seq<u8>);

/// The bytes of a text in base64.
pub uninterp spec fn base64_bytes(s: Seq<char>) -> Option<Seq<u8>>;

/// What a byte vector holds, if there is one.
pub open spec fn bytes_of(v: Option<Vec<u8>>) -> Option<Seq<u8>> {
    match v {
        Some(b) => Some(b@),
        None => None,
    }
}

/// Trusted: `base64::Engine::decode` with the standard alphabet and padding;
/// an error of any kind is `None`.
#[verifier::external_body]
fn decode_base64(s: &str) -> (r: Option<Vec<u8>>)
    ensures
        bytes_of(r) == base64_bytes(s@),
{
    base64::Engine::decode(&base64::engine::general_purpose::STANDARD, s).ok()
}

/// A normalizer without a charsmap.
pub open spec fn plain(id: u32) -> Choice {
    (id, seq![])
}

/// The pretokenizer is one of this type, or has one among its stages.
pub open spec fn uses_pretokenizer(data: Json, name: Seq<char>) -> bool {
    let p = json::at(Some(data), "pre_tokenizer"@);
    ||| json::type_of(p) == Some(name)
    ||| json::list_of(json::at(p, "pretokenizers"@)) matches Some(v) && json::any_of_type(v, name)
}

/// The charsmap of a `Precompiled` normalizer, if it has one that can be parsed.
pub open spec fn own_charsmap(n: Json, whitespace_split: bool) -> Option<Choice> {
    match json::text_of(json::at(Some(n), "precompiled_charsmap"@)) {
        None => None,
        Some(s) => match base64_bytes(s) {
            None => None,
            Some(b) => if charsmap::blob_error(b) is Some {
                None
            } else {
                Some(
                    (
                        if whitespace_split {
                            8
                        } else {
                            9
                        },
                        b,
                    ),
                )
            },
        },
    }
}

/// What a `Precompiled` normalizer stands for: its charsmap, or else the
/// category rules.
pub open spec fn precompiled(n: Json, whitespace_split: bool) -> Choice {
    match own_charsmap(n, whitespace_split) {
        Some(c) => c,
        None => plain(5),
    }
}

/// What a `BertNormalizer` stands for.
pub open spec fn bert(n: Json) -> Choice {
    if json::bool_of(json::at(Some(n), "lowercase"@)) == Some(true) {
        plain(1)
    } else {
        plain(2)
    }
}

/// The normalizer puts a metaspace in front.
pub open spec fn prepends(n: Json) -> bool {
    json::type_of(Some(n)) == Some("Prepend"@) && json::text_of(json::at(Some(n), "prepend"@))
        == Some("\u{2581}"@)
}

/// The normalizer turns spaces into metaspaces.
pub open spec fn replaces(n: Json) -> bool {
    json::text_of(json::at(json::at(Some(n), "pattern"@), "String"@)) == Some(" "@)
        && json::text_of(json::at(Some(n), "content"@)) == Some("\u{2581}"@)
}

/// The first of the elements from `i` on with this type.
pub open spec fn first_of_type(v: Seq<Json>, name: Seq<char>, i: int) -> Option<Json>
    decreases v.len() - i,
{
    if i < 0 || i >= v.len() {
        None
    } else if json::type_of(Some(v[i])) == Some(name) {
        Some(v[i])
    } else {
        first_of_type(v, name, i + 1)
    }
}

/// What the first element from `i` on that is a known normalizer of its own
/// stands for.
pub open spec fn first_known(v: Seq<Json>, i: int) -> Option<Choice>
    decreases v.len() - i,
{
    if i < 0 || i >= v.len() {
        None
    } else if json::type_of(Some(v[i])) == Some("NFC"@) {
        Some(plain(3))
    } else if json::type_of(Some(v[i])) == Some("BertNormalizer"@) {
        Some(bert(v[i]))
    } else {
        first_known(v, i + 1)
    }
}

/// What a sequence of normalizers stands for, with a metaspace and with a
/// whitespace-splitting pretokenizer or without.
pub open spec fn sequence(v: Seq<Json>, metaspace: bool, whitespace: bool) -> Option<Choice> {
    let has_precompiled = json::any_of_type(v, "Precompiled"@);
    if has_precompiled && json::any_of_type(v, "Lowercase"@) && metaspace && whitespace {
        Some(plain(6))
    } else if has_precompiled && metaspace {
        match first_of_type(v, "Precompiled"@, 0) {
            Some(n) => Some(precompiled(n, whitespace)),
            None => Some(plain(5)),
        }
    } else if (exists|i: int| 0 <= i < v.len() && prepends(#[trigger] v[i])) && (exists|i: int|
        0 <= i < v.len() && json::type_of(Some(#[trigger] v[i])) == Some("Replace"@) && replaces(
            v[i],
        )) {
        Some(plain(10))
    } else {
        first_known(v, 0)
    }
}

/// What the normalizer of a file stands for, where it says so by itself.
pub open spec fn declared(n: Json, metaspace: bool, whitespace: bool) -> Option<Choice> {
    let t = json::type_of(Some(n));
    if t == Some("Precompiled"@) {
        if metaspace {
            Some(precompiled(n, whitespace))
        } else {
            None
        }
    } else if t == Some("BertNormalizer"@) {
        Some(bert(n))
    } else if t == Some("NFC"@) {
        Some(plain(3))
    } else if t == Some("Sequence"@) {
        match json::list_of(json::at(Some(n), "normalizers"@)) {
            Some(v) => sequence(v, metaspace, whitespace),
            None => None,
        }
    } else if t == Some("Lowercase"@) {
        if metaspace && whitespace {
            Some(plain(6))
        } else {
            Some(plain(1))
        }
    } else if t == Some("Replace"@) && replaces(n) {
        Some(plain(7))
    } else {
        None
    }
}

/// The normalizer that a file asks for.
pub open spec fn detected(data: Json) -> Choice {
    let n = json::at(Some(data), "normalizer"@);
    let metaspace = uses_pretokenizer(data, "Metaspace"@);
    let by_itself = match n {
        Some(x) => if x is Null {
            None
        } else {
            declared(x, metaspace, uses_pretokenizer(data, "WhitespaceSplit"@))
        },
        None => None,
    };
    match by_itself {
        Some(c) => c,
        None => if metaspace {
            plain(10)
        } else {
            plain(0)
        },
    }
}

/// The normalizer is the one of the choice.
pub open spec fn is_choice(n: Normalizer, c: Choice) -> bool {
    n.wf() && tkz::normalizer_id(n) == c.0 && tkz::charsmap_bytes(n) == c.1
}

/// The normalizer, if there is one, is the one of the choice.
pub open spec fn is_optional_choice(n: Option<Normalizer>, c: Option<Choice>) -> bool {
    match (n, c) {
        (Some(n), Some(c)) => is_choice(n, c),
        (None, None) => true,
        _ => false,
    }
}

/// Is the pretokenizer one of this type, or has it one among its stages?
fn has_pretokenizer(data: &Json, name: &str) -> (r: bool)
    ensures
        r == uses_pretokenizer(*data, name@),
{
    let p = get(Some(data), "pre_tokenizer");
    if has_type(p, name) {
        return true;
    }
    match as_list(get(p, "pretokenizers")) {
        Some(v) => some_of_type(v, name),
        None => false,
    }
}

/// Check if the tokenizer uses a WhitespaceSplit pre_tokenizer.
pub fn is_whitespace_split_pretokenizer(data: &Json) -> (r: bool)
    ensures
        r == uses_pretokenizer(*data, "WhitespaceSplit"@),
{
    has_pretokenizer(data, "WhitespaceSplit")
}

/// Check if the tokenizer uses a Metaspace pre_tokenizer.
pub fn is_metaspace_pretokenizer(data: &Json) -> (r: bool)
    ensures
        r == uses_pretokenizer(*data, "Metaspace"@),
{
    has_pretokenizer(data, "Metaspace")
}

/// Make a normalizer of a decoded `precompiled_charsmap` blob.
pub fn normalizer_of_blob(blob: &[u8], whitespace_split: bool) -> (r: Option<Normalizer>)
    ensures
        match r {
            Some(n) => charsmap::blob_error(blob@) is None && is_choice(
                n,
                (
                    if whitespace_split {
                        8
                    } else {
                        9
                    },
                    blob@,
                ),
            ),
            None => charsmap::blob_error(blob@) is Some,
        },
{
    match PrecompiledCharsmap::from_blob(blob) {
        Ok(m) => Some(
            Normalizer::SentencePiecePrecompiled { charsmap: Arc::new(m), whitespace_split },
        ),
        Err(_) => None,
    }
}

/// Parse the base64 `precompiled_charsmap` blob from a Precompiled normalizer.
/// Returns `None` if absent or malformed.
pub fn parse_precompiled_charsmap(normalizer: &Json, whitespace_split: bool) -> (r: Option<
    Normalizer,
>)
    ensures
        is_optional_choice(r, own_charsmap(*normalizer, whitespace_split)),
{
    match as_text(get(Some(normalizer), "precompiled_charsmap")) {
        Some(s) => match decode_base64(s) {
            Some(b) => normalizer_of_blob(b.as_slice(), whitespace_split),
            None => None,
        },
        None => None,
    }
}

/// What a `Precompiled` normalizer stands for.
fn precompiled_normalizer(n: &Json, whitespace_split: bool) -> (r: Normalizer)
    ensures
        is_choice(r, precompiled(*n, whitespace_split)),
{
    match parse_precompiled_charsmap(n, whitespace_split) {
        Some(x) => x,
        None => Normalizer::SentencePiece,
    }
}

/// What a `BertNormalizer` stands for.
fn bert_normalizer(n: &Json) -> (r: Normalizer)
    ensures
        is_choice(r, bert(*n)),
{
    match as_bool(get(Some(n), "lowercase")) {
        Some(true) => Normalizer::BertUncased,
        _ => Normalizer::BertCased,
    }
}

/// Does the normalizer turn spaces into metaspaces?
fn replaces_space(n: &Json) -> (r: bool)
    ensures
        r == replaces(*n),
{
    is_text(get(get(Some(n), "pattern"), "String"), " ") && is_text(
        get(Some(n), "content"),
        "\u{2581}",
    )
}

/// Do the normalizers put a metaspace in front and turn spaces into metaspaces?
fn is_prepend_replace(v: &[Json]) -> (r: bool)
    ensures
        r == ((exists|i: int| 0 <= i < v@.len() && prepends(#[trigger] v@[i])) && (exists|i: int|
            0 <= i < v@.len() && json::type_of(Some(#[trigger] v@[i])) == Some("Replace"@)
                && replaces(v@[i]))),
{
    let mut prepend = false;
    let mut replace = false;
    let mut i: usize = 0;
    while i < v.len()
        invariant
            i <= v.len(),
            prepend == exists|k: int| 0 <= k < i && prepends(#[trigger] v@[k]),
            replace == exists|k: int|
                0 <= k < i && json::type_of(Some(#[trigger] v@[k])) == Some("Replace"@)
                    && replaces(v@[k]),
        decreases v.len() - i,
    {
        let n = &v[i];
        let a = has_type(Some(n), "Prepend") && is_text(get(Some(n), "prepend"), "\u{2581}");
        let b = has_type(Some(n), "Replace") && replaces_space(n);
        assert(a == prepends(v@[i as int]));
        if a {
            prepend = true;
        }
        if b {
            replace = true;
        }
        i = i + 1;
    }
    prepend && replace
}

/// What a sequence of normalizers stands for.
fn sequence_normalizer(v: &[Json], metaspace: bool, whitespace: bool) -> (r: Option<Normalizer>)
    ensures
        is_optional_choice(r, sequence(v@, metaspace, whitespace)),
{
    let has_precompiled = some_of_type(v, "Precompiled");
    if has_precompiled && some_of_type(v, "Lowercase") && metaspace && whitespace {
        return Some(Normalizer::SentencePieceLowercase);
    }
    if has_precompiled && metaspace {
        let mut i: usize = 0;
        while i < v.len()
            invariant
                i <= v.len(),
                first_of_type(v@, "Precompiled"@, 0) == first_of_type(
                    v@,
                    "Precompiled"@,
                    i as int,
                ),
                has_precompiled == json::any_of_type(v@, "Precompiled"@),
                has_precompiled,
                metaspace,
                !(json::any_of_type(v@, "Lowercase"@) && whitespace),
            decreases v.len() - i,
        {
            if has_type(Some(&v[i]), "Precompiled") {
                return Some(precompiled_normalizer(&v[i], whitespace));
            }
            i = i + 1;
        }
        return Some(Normalizer::SentencePiece);
    }
    if is_prepend_replace(v) {
        return Some(Normalizer::Metaspace(MetaspacePrepend::IfNotSpaceLed));
    }
    let mut i: usize = 0;
    while i < v.len()
        invariant
            i <= v.len(),
            sequence(v@, metaspace, whitespace) == first_known(v@, i as int),
        decreases v.len() - i,
    {
        if has_type(Some(&v[i]), "NFC") {
            return Some(Normalizer::Nfc);
        }
        if has_type(Some(&v[i]), "BertNormalizer") {
            return Some(bert_normalizer(&v[i]));
        }
        i = i + 1;
    }
    None
}

/// What the normalizer of a file stands for, where it says so by itself.
fn declared_normalizer(n: &Json, metaspace: bool, whitespace: bool) -> (r: Option<Normalizer>)
    ensures
        is_optional_choice(r, declared(*n, metaspace, whitespace)),
{
    let j = Some(n);
    if has_type(j, "Precompiled") {
        if metaspace {
            return Some(precompiled_normalizer(n, whitespace));
        }
        return None;
    }
    if has_type(j, "BertNormalizer") {
        return Some(bert_normalizer(n));
    }
    if has_type(j, "NFC") {
        return Some(Normalizer::Nfc);
    }
    if has_type(j, "Sequence") {
        return match as_list(get(j, "normalizers")) {
            Some(v) => sequence_normalizer(v, metaspace, whitespace),
            None => None,
        };
    }
    if has_type(j, "Lowercase") {
        if metaspace && whitespace {
            return Some(Normalizer::SentencePieceLowercase);
        }
        return Some(Normalizer::BertUncased);
    }
    if has_type(j, "Replace") && replaces_space(n) {
        return Some(Normalizer::MetaspaceReplace);
    }
    None
}

/// Detect the normalizer from HuggingFace JSON.
pub fn detect_normalizer(data: &Json) -> (r: Normalizer)
    ensures
        is_choice(r, detected(*data)),
{
    let metaspace = is_metaspace_pretokenizer(data);
    let whitespace = is_whitespace_split_pretokenizer(data);
    let n = get(Some(data), "normalizer");
    if !absent(n) {
        if let Some(x) = n {
            if let Some(r) = declared_normalizer(x, metaspace, whitespace) {
                return r;
            }
        }
    }
    if metaspace {
        Normalizer::Metaspace(MetaspacePrepend::IfNotSpaceLed)
    } else {
        Normalizer::Absent
    }
}

} // verus!
