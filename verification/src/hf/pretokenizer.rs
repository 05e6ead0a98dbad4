//! Which pretokenizer a tokenizer file asks for.
use crate::hf::json;
use crate::hf::json::{as_list, as_text, get, has_type, some_of_type, Json};
use crate::pretok::PretokType;
use crate::text;
use crate::text::contains_text;
use vstd::prelude::*;
use vstd::string::*;

verus! {

/// The result of looking for a pretokenizer.
pub struct DetectedPretokenizer {
    pub pretok_type: PretokType,
    /// The split patterns, where they are not those of a known type.
    pub fallback_pattern: Option<String>,
}

/// The pattern holds this text.
pub open spec fn holds(pattern: Seq<char>, part: Seq<char>) -> bool {
    text::contains(text::utf8(pattern), text::utf8(part))
}

/// The pattern of a split stage.
pub open spec fn split_pattern(p: Json) -> Option<Seq<char>> {
    if json::type_of(Some(p)) == Some("Split"@) {
        json::text_of(json::at(json::at(Some(p), "pattern"@), "Regex"@))
    } else {
        None
    }
}

/// The patterns of the split stages among the first `n`.
pub open spec fn split_patterns(v: Seq<Json>, n: int) -> Seq<Seq<char>>
    decreases n,
{
    if n <= 0 {
        seq![]
    } else {
        match split_pattern(v[n - 1]) {
            Some(p) => split_patterns(v, n - 1).push(p),
            None => split_patterns(v, n - 1),
        }
    }
}

/// A split stage takes digits in groups.
pub open spec fn chunks_digits(v: Seq<Json>) -> bool {
    exists|i: int|
        0 <= i < v.len() && (split_pattern(#[trigger] v[i]) matches Some(p) && holds(p, "\\p{N}{"@))
}

/// The type that a split pattern belongs to, beside stages that take digits in
/// groups or not.
pub open spec fn pattern_type(p: Seq<char>, chunked: bool) -> Option<PretokType> {
    if holds(p, "\\p{Lu}"@) || holds(p, "\\p{Lt}"@) || holds(p, "\\p{Ll}"@) {
        Some(PretokType::O200k)
    } else if holds(p, "[\\p{L}\\p{M}]+"@) {
        Some(
            if chunked {
                PretokType::DeepSeek
            } else {
                PretokType::Qwen35
            },
        )
    } else if holds(p, "\\p{L}+"@) || holds(p, "(?i:'s|'t|'re"@) {
        Some(
            if holds(p, "\\p{N}|"@) && !holds(p, "\\p{N}{"@) {
                PretokType::Voyage
            } else {
                PretokType::Cl100k
            },
        )
    } else {
        None
    }
}

/// The type of the first pattern that belongs to one.
pub open spec fn first_type(patterns: Seq<Seq<char>>, chunked: bool) -> Option<PretokType>
    decreases patterns.len(),
{
    if patterns.len() == 0 {
        None
    } else {
        match first_type(patterns.drop_last(), chunked) {
            Some(t) => Some(t),
            None => pattern_type(patterns.last(), chunked),
        }
    }
}

/// Patterns, with a bar between each two.
pub open spec fn alternatives(v: Seq<Seq<char>>) -> Seq<char>
    decreases v.len(),
{
    if v.len() == 0 {
        seq![]
    } else if v.len() == 1 {
        v[0]
    } else {
        alternatives(v.drop_last()) + seq!['|'] + v.last()
    }
}

/// The patterns as one, if there are any.
pub open spec fn fallback(v: Seq<Seq<char>>) -> Option<Seq<char>> {
    if v.len() == 0 {
        None
    } else {
        Some(alternatives(v))
    }
}

/// What a sequence of stages asks for.
pub open spec fn sequence_detected(v: Seq<Json>) -> Option<(PretokType, Option<Seq<char>>)> {
    let patterns = split_patterns(v, v.len() as int);
    if json::any_of_type(v, "ByteLevel"@) {
        match first_type(patterns, chunks_digits(v)) {
            Some(t) => Some((t, None)),
            None => if json::any_of_type(v, "Digits"@) {
                Some((PretokType::SmolLM, None))
            } else {
                Some((PretokType::Gpt2, fallback(patterns)))
            },
        }
    } else if patterns.len() > 0 {
        Some((PretokType::Absent, fallback(patterns)))
    } else {
        None
    }
}

/// What a tokenizer file asks for.
pub open spec fn detected(data: Json) -> (PretokType, Option<Seq<char>>) {
    let p = json::at(Some(data), "pre_tokenizer"@);
    let t = json::type_of(p);
    if t == Some("ByteLevel"@) {
        (PretokType::Gpt2, None)
    } else if t == Some("Sequence"@) {
        match json::list_of(json::at(p, "pretokenizers"@)) {
            Some(v) => match sequence_detected(v) {
                Some(d) => d,
                None => (PretokType::Absent, None),
            },
            None => (PretokType::Absent, None),
        }
    } else if t == Some("Split"@) {
        (PretokType::Absent, json::text_of(json::at(json::at(p, "pattern"@), "Regex"@)))
    } else {
        (PretokType::Absent, None)
    }
}

/// The text that an owned text holds, if there is one.
pub open spec fn view_of(s: Option<String>) -> Option<Seq<char>> {
    match s {
        Some(s) => Some(s@),
        None => None,
    }
}

/// The texts that references hold.
pub open spec fn texts(v: Seq<&str>) -> Seq<Seq<char>> {
    Seq::new(v.len(), |i: int| v[i]@)
}

/// The pattern of a split stage.
fn stage_pattern<'a>(p: &'a Json) -> (r: Option<&'a str>)
    ensures
        match r {
            Some(s) => split_pattern(*p) == Some(s@),
            None => split_pattern(*p) is None,
        },
{
    if has_type(Some(p), "Split") {
        as_text(get(get(Some(p), "pattern"), "Regex"))
    } else {
        None
    }
}

/// The patterns of the split stages.
fn stage_patterns<'a>(v: &'a [Json]) -> (r: Vec<&'a str>)
    ensures
        texts(r@) == split_patterns(v@, v@.len() as int),
{
    let mut out: Vec<&'a str> = Vec::new();
    let mut i: usize = 0;
    assert(texts(out@) =~= seq![]);
    while i < v.len()
        invariant
            i <= v.len(),
            texts(out@) == split_patterns(v@, i as int),
        decreases v.len() - i,
    {
        let ghost before = texts(out@);
        if let Some(s) = stage_pattern(&v[i]) {
            out.push(s);
            assert(texts(out@) =~= before.push(s@));
        }
        i = i + 1;
    }
    out
}

/// Does a split stage take digits in groups?
fn has_chunked_digits(v: &[Json]) -> (r: bool)
    ensures
        r == chunks_digits(v@),
{
    let mut i: usize = 0;
    while i < v.len()
        invariant
            i <= v.len(),
            forall|k: int|
                0 <= k < i ==> !(split_pattern(#[trigger] v@[k]) matches Some(p) && holds(
                    p,
                    "\\p{N}{"@,
                )),
        decreases v.len() - i,
    {
        if let Some(s) = stage_pattern(&v[i]) {
            if contains_text(s, "\\p{N}{") {
                assert(split_pattern(v@[i as int]) == Some(s@));
                return true;
            }
        }
        i = i + 1;
    }
    false
}

/// The type that a split pattern belongs to.
fn type_of_pattern(p: &str, chunked: bool) -> (r: Option<PretokType>)
    ensures
        r == pattern_type(p@, chunked),
{
    if contains_text(p, "\\p{Lu}") || contains_text(p, "\\p{Lt}") || contains_text(p, "\\p{Ll}") {
        return Some(PretokType::O200k);
    }
    if contains_text(p, "[\\p{L}\\p{M}]+") {
        return Some(
            if chunked {
                PretokType::DeepSeek
            } else {
                PretokType::Qwen35
            },
        );
    }
    if contains_text(p, "\\p{L}+") || contains_text(p, "(?i:'s|'t|'re") {
        if contains_text(p, "\\p{N}|") && !contains_text(p, "\\p{N}{") {
            return Some(PretokType::Voyage);
        }
        return Some(PretokType::Cl100k);
    }
    None
}

/// The type of the first pattern that belongs to one.
fn type_of_patterns(v: &Vec<&str>, chunked: bool) -> (r: Option<PretokType>)
    ensures
        r == first_type(texts(v@), chunked),
{
    let ghost all = texts(v@);
    let mut i: usize = 0;
    let mut found: Option<PretokType> = None;
    assert(all.subrange(0, 0) =~= seq![]);
    while i < v.len()
        invariant
            i <= v.len(),
            all == texts(v@),
            found == first_type(all.subrange(0, i as int), chunked),
        decreases v.len() - i,
    {
        proof {
            let s = all.subrange(0, i + 1);
            assert(s.drop_last() =~= all.subrange(0, i as int));
            assert(s.last() == v@[i as int]@);
        }
        if found.is_none() {
            found = type_of_pattern(v[i], chunked);
        }
        i = i + 1;
    }
    assert(all.subrange(0, all.len() as int) =~= all);
    found
}

/// The patterns as one, if there are any.
fn join_patterns(v: &Vec<&str>) -> (r: Option<String>)
    ensures
        view_of(r) == fallback(texts(v@)),
{
    if v.len() == 0 {
        return None;
    }
    let ghost all = texts(v@);
    let mut out = String::new();
    out.push_str(v[0]);
    let mut i: usize = 1;
    assert(out@ =~= all[0]);
    assert(all.subrange(0, 1)[0] == all[0]);
    while i < v.len()
        invariant
            1 <= i <= v.len(),
            all == texts(v@),
            out@ == alternatives(all.subrange(0, i as int)),
        decreases v.len() - i,
    {
        proof {
            let s = all.subrange(0, i + 1);
            assert(s.drop_last() =~= all.subrange(0, i as int));
            assert(s.last() == v@[i as int]@);
        }
        let ghost before = out@;
        out.push('|');
        out.push_str(v[i]);
        assert(out@ =~= before + seq!['|'] + v@[i as int]@);
        i = i + 1;
    }
    assert(all.subrange(0, all.len() as int) =~= all);
    Some(out)
}

/// What a sequence of stages asks for.
fn detect_sequence(v: &[Json]) -> (r: Option<DetectedPretokenizer>)
    ensures
        match r {
            Some(d) => sequence_detected(v@) == Some((d.pretok_type, view_of(d.fallback_pattern))),
            None => sequence_detected(v@) is None,
        },
{
    let patterns = stage_patterns(v);
    if some_of_type(v, "ByteLevel") {
        if let Some(t) = type_of_patterns(&patterns, has_chunked_digits(v)) {
            return Some(DetectedPretokenizer { pretok_type: t, fallback_pattern: None });
        }
        if some_of_type(v, "Digits") {
            return Some(
                DetectedPretokenizer { pretok_type: PretokType::SmolLM, fallback_pattern: None },
            );
        }
        return Some(
            DetectedPretokenizer {
                pretok_type: PretokType::Gpt2,
                fallback_pattern: join_patterns(&patterns),
            },
        );
    }
    assert(patterns@.len() == split_patterns(v@, v@.len() as int).len());
    if patterns.len() > 0 {
        return Some(
            DetectedPretokenizer {
                pretok_type: PretokType::Absent,
                fallback_pattern: join_patterns(&patterns),
            },
        );
    }
    None
}

/// Detect the pretokenizer type from HuggingFace JSON.
pub fn detect_pretokenizer_type(data: &Json) -> (r: DetectedPretokenizer)
    ensures
        (r.pretok_type, view_of(r.fallback_pattern)) == detected(*data),
{
    let p = get(Some(data), "pre_tokenizer");
    proof {
        reveal_strlit("ByteLevel");
        reveal_strlit("Sequence");
        reveal_strlit("Split");
        assert("ByteLevel"@.len() == 9 && "Sequence"@.len() == 8 && "Split"@.len() == 5);
    }
    if has_type(p, "ByteLevel") {
        return DetectedPretokenizer { pretok_type: PretokType::Gpt2, fallback_pattern: None };
    }
    if has_type(p, "Sequence") {
        if let Some(v) = as_list(get(p, "pretokenizers")) {
            if let Some(d) = detect_sequence(v) {
                return d;
            }
        }
        return DetectedPretokenizer { pretok_type: PretokType::Absent, fallback_pattern: None };
    }
    if has_type(p, "Split") {
        if let Some(s) = as_text(get(get(p, "pattern"), "Regex")) {
            return DetectedPretokenizer {
                pretok_type: PretokType::Absent,
                fallback_pattern: Some(s.to_owned()),
            };
        }
    }
    DetectedPretokenizer { pretok_type: PretokType::Absent, fallback_pattern: None }
}

} // verus!
