//! Post-processors, pad tokens and added tokens of a tokenizer file.
use crate::added;
use crate::added::AddedTokenSpec;
use crate::bytes::to_vec;
use crate::hf::json;
use crate::hf::json::{
    as_bool, as_list, as_number, as_text, get, has_type, is_text, Json,
};
use crate::postprocessor::PostProcessor;
use crate::serde::added_section;
use crate::text;
use crate::text::same_text;
use crate::types::TokenId;
use vstd::prelude::*;
use vstd::string::*;

verus! {

/// The content of an added token.
pub open spec fn content_of(t: Json) -> Option<Seq<char>> {
    json::text_of(json::at(Some(t), "content"@))
}

/// The id that a number is.
pub open spec fn id_of(j: Option<Json>) -> Option<TokenId> {
    match json::number_of(j) {
        Some(n) => Some(n as u32),
        None => None,
    }
}

/// The added tokens of a file.
pub open spec fn added_list(data: Json) -> Seq<Json> {
    match json::list_of(json::at(Some(data), "added_tokens"@)) {
        Some(v) => v,
        None => seq![],
    }
}

/// The first added token from `i` on with this content.
pub open spec fn first_with_content(v: Seq<Json>, s: Seq<char>, i: int) -> Option<Json>
    decreases v.len() - i,
{
    if i < 0 || i >= v.len() {
        None
    } else if content_of(v[i]) == Some(s) {
        Some(v[i])
    } else {
        first_with_content(v, s, i + 1)
    }
}

/// The id of a special token: that of the added token with this content, or
/// else that of the vocabulary entry.
pub open spec fn special_id(data: Json, s: Seq<char>) -> Option<TokenId> {
    match first_with_content(added_list(data), s, 0) {
        Some(t) => id_of(json::at(Some(t), "id"@)),
        None => id_of(json::at(json::at(json::at(Some(data), "model"@), "vocab"@), s)),
    }
}

/// The id that a number is.
fn as_id(j: Option<&Json>) -> (r: Option<TokenId>)
    ensures
        r == id_of(json::value(j)),
{
    match as_number(j) {
        Some(n) => Some(n as u32),
        None => None,
    }
}

/// The added tokens of a file.
fn added_tokens<'a>(data: &'a Json) -> (r: Option<&'a [Json]>)
    ensures
        match r {
            Some(v) => v@ == added_list(*data),
            None => added_list(*data).len() == 0,
        },
{
    as_list(get(Some(data), "added_tokens"))
}

/// Look up a special token's id in the added tokens or the vocabulary.
pub fn lookup_special_token_id(data: &Json, token_str: &str) -> (r: Option<TokenId>)
    ensures
        r == special_id(*data, token_str@),
{
    if let Some(v) = added_tokens(data) {
        let mut i: usize = 0;
        while i < v.len()
            invariant
                i <= v.len(),
                v@ == added_list(*data),
                first_with_content(v@, token_str@, 0) == first_with_content(
                    v@,
                    token_str@,
                    i as int,
                ),
            decreases v.len() - i,
        {
            if is_text(get(Some(&v[i]), "content"), token_str) {
                return as_id(get(Some(&v[i]), "id"));
            }
            i = i + 1;
        }
    }
    as_id(get(get(get(Some(data), "model"), "vocab"), token_str))
}

// ---- post-processors ----

/// The special tokens of a template.
pub struct TemplateIds {
    pub cls: Option<TokenId>,
    pub sep: Option<TokenId>,
    pub bos: Option<TokenId>,
}

/// The name of the special token that an item of a template is.
pub open spec fn special_name(item: Json) -> Option<Seq<char>> {
    json::text_of(json::at(json::at(Some(item), "SpecialToken"@), "id"@))
}

/// The name is one of a token that starts a text.
pub open spec fn is_start(s: Seq<char>) -> bool {
    s == "<|begin_of_text|>"@ || s == "<s>"@ || s == "<bos>"@
}

/// The special tokens of the first `n` items of a template; of several items
/// with the same part, the last one counts.
pub open spec fn template_ids(data: Json, v: Seq<Json>, n: int) -> TemplateIds
    decreases n,
{
    if n <= 0 {
        TemplateIds { cls: None, sep: None, bos: None }
    } else {
        let before = template_ids(data, v, n - 1);
        match special_name(v[n - 1]) {
            None => before,
            Some(s) => if s == "[CLS]"@ {
                TemplateIds { cls: special_id(data, s), ..before }
            } else if s == "[SEP]"@ {
                TemplateIds { sep: special_id(data, s), ..before }
            } else if is_start(s) {
                TemplateIds { bos: special_id(data, s), ..before }
            } else {
                before
            },
        }
    }
}

/// The post-processor of a template.
pub open spec fn template_processor(data: Json, v: Seq<Json>) -> PostProcessor {
    let t = template_ids(data, v, v.len() as int);
    match (t.cls, t.sep) {
        (Some(cls_token), Some(sep_token)) => PostProcessor::Bert { cls_token, sep_token },
        _ => match t.bos {
            Some(bos_token) => PostProcessor::Prefix { bos_token },
            None => PostProcessor::Absent,
        },
    }
}

/// The single template of a processor, if it is a template.
pub open spec fn single_template(p: Option<Json>) -> Option<Seq<Json>> {
    if json::type_of(p) == Some("TemplateProcessing"@) {
        json::list_of(json::at(p, "single"@))
    } else {
        None
    }
}

/// The first template among processors from `i` on.
pub open spec fn first_template(v: Seq<Json>, i: int) -> Option<Seq<Json>>
    decreases v.len() - i,
{
    if i < 0 || i >= v.len() {
        None
    } else {
        match single_template(Some(v[i])) {
            Some(t) => Some(t),
            None => first_template(v, i + 1),
        }
    }
}

/// The template of a file.
pub open spec fn file_template(data: Json) -> Option<Seq<Json>> {
    let p = json::at(Some(data), "post_processor"@);
    if json::type_of(p) == Some("Sequence"@) {
        match json::list_of(json::at(p, "processors"@)) {
            Some(v) => first_template(v, 0),
            None => None,
        }
    } else {
        single_template(p)
    }
}

/// The post-processor that a file asks for.
pub open spec fn detected_post_processor(data: Json) -> PostProcessor {
    match file_template(data) {
        Some(v) => template_processor(data, v),
        None => PostProcessor::Absent,
    }
}

/// Parse a TemplateProcessing post-processor's single template.
pub fn parse_template_post_processor(data: &Json, single: &[Json]) -> (r: PostProcessor)
    ensures
        r == template_processor(*data, single@),
{
    let mut cls_token: Option<TokenId> = None;
    let mut sep_token: Option<TokenId> = None;
    let mut bos_token: Option<TokenId> = None;
    let mut i: usize = 0;
    while i < single.len()
        invariant
            i <= single.len(),
            template_ids(*data, single@, i as int) == (TemplateIds {
                cls: cls_token,
                sep: sep_token,
                bos: bos_token,
            }),
        decreases single.len() - i,
    {
        if let Some(id) = as_text(get(get(Some(&single[i]), "SpecialToken"), "id")) {
            let token_id = lookup_special_token_id(data, id);
            if same_text(id, "[CLS]") {
                cls_token = token_id;
            } else if same_text(id, "[SEP]") {
                sep_token = token_id;
            } else if same_text(id, "<|begin_of_text|>") || same_text(id, "<s>") || same_text(
                id,
                "<bos>",
            ) {
                bos_token = token_id;
            }
        }
        i = i + 1;
    }
    if let Some(cls) = cls_token {
        if let Some(sep) = sep_token {
            return PostProcessor::Bert { cls_token: cls, sep_token: sep };
        }
    }
    match bos_token {
        Some(bos) => PostProcessor::Prefix { bos_token: bos },
        None => PostProcessor::Absent,
    }
}

/// The single template of a processor, if it is a template.
fn template_of<'a>(p: Option<&'a Json>) -> (r: Option<&'a [Json]>)
    ensures
        match r {
            Some(v) => single_template(json::value(p)) == Some(v@),
            None => single_template(json::value(p)) is None,
        },
{
    if has_type(p, "TemplateProcessing") {
        as_list(get(p, "single"))
    } else {
        None
    }
}

/// Detect the post-processor type from HuggingFace JSON.
pub fn detect_post_processor(data: &Json) -> (r: PostProcessor)
    ensures
        r == detected_post_processor(*data),
{
    let p = get(Some(data), "post_processor");
    if has_type(p, "Sequence") {
        if let Some(v) = as_list(get(p, "processors")) {
            let mut i: usize = 0;
            while i < v.len()
                invariant
                    i <= v.len(),
                    file_template(*data) == first_template(v@, i as int),
                decreases v.len() - i,
            {
                if let Some(single) = template_of(Some(&v[i])) {
                    return parse_template_post_processor(data, single);
                }
                i = i + 1;
            }
        }
        return PostProcessor::Absent;
    }
    match template_of(p) {
        Some(single) => parse_template_post_processor(data, single),
        None => PostProcessor::Absent,
    }
}

// ---- pad tokens ----

/// The name is one of a pad token.
pub open spec fn is_pad(s: Seq<char>) -> bool {
    s == "[PAD]"@ || s == "<pad>"@ || s == "<|pad|>"@
}

/// The first added token from `i` on that is named like a pad token.
pub open spec fn first_pad(v: Seq<Json>, i: int) -> Option<Json>
    decreases v.len() - i,
{
    if i < 0 || i >= v.len() {
        None
    } else if content_of(v[i]) matches Some(s) && is_pad(s) {
        Some(v[i])
    } else {
        first_pad(v, i + 1)
    }
}

/// The pad token that a file asks for.
pub open spec fn detected_pad(data: Json) -> Option<TokenId> {
    match id_of(json::at(json::at(Some(data), "padding"@), "pad_id"@)) {
        Some(id) => Some(id),
        None => match first_pad(added_list(data), 0) {
            Some(t) => id_of(json::at(Some(t), "id"@)),
            None => None,
        },
    }
}

/// Extract the pad token id: the one of the padding settings, or else that of
/// an added token with the name of a pad token.
pub fn extract_pad_token_id(data: &Json) -> (r: Option<TokenId>)
    ensures
        r == detected_pad(*data),
{
    if let Some(id) = as_id(get(get(Some(data), "padding"), "pad_id")) {
        return Some(id);
    }
    if let Some(v) = added_tokens(data) {
        let mut i: usize = 0;
        while i < v.len()
            invariant
                i <= v.len(),
                v@ == added_list(*data),
                id_of(json::at(json::at(Some(*data), "padding"@), "pad_id"@)) is None,
                first_pad(v@, 0) == first_pad(v@, i as int),
            decreases v.len() - i,
        {
            if let Some(s) = as_text(get(Some(&v[i]), "content")) {
                if same_text(s, "[PAD]") || same_text(s, "<pad>") || same_text(s, "<|pad|>") {
                    return as_id(get(Some(&v[i]), "id"));
                }
            }
            i = i + 1;
        }
    }
    None
}

// ---- added tokens ----

/// The added token that an entry stands for: one of a single byte is in the
/// vocabulary anyway.
pub open spec fn added_token(t: Json) -> Option<added::AddedView> {
    match (id_of(json::at(Some(t), "id"@)), content_of(t)) {
        (Some(id), Some(s)) => if text::utf8(s).len() <= 1 {
            None
        } else {
            Some(
                added::AddedView {
                    id,
                    bytes: text::utf8(s),
                    special: false,
                    lstrip: false,
                    rstrip: false,
                    normalized: false,
                    single_word: false,
                },
            )
        },
        _ => None,
    }
}

/// The added tokens among the first `n` entries.
pub open spec fn added_views(v: Seq<Json>, n: int) -> Seq<added::AddedView>
    decreases n,
{
    if n <= 0 {
        seq![]
    } else {
        match added_token(v[n - 1]) {
            Some(t) => added_views(v, n - 1).push(t),
            None => added_views(v, n - 1),
        }
    }
}

/// The special token that an entry stands for.
pub open spec fn special_token(t: Json) -> Option<added_section::SpecialView> {
    if json::bool_of(json::at(Some(t), "special"@)) == Some(true) {
        match (id_of(json::at(Some(t), "id"@)), content_of(t)) {
            (Some(id), Some(s)) => Some((s, id)),
            _ => None,
        }
    } else {
        None
    }
}

/// The special tokens among the first `n` entries.
pub open spec fn special_tokens(v: Seq<Json>, n: int) -> Seq<added_section::SpecialView>
    decreases n,
{
    if n <= 0 {
        seq![]
    } else {
        match special_token(v[n - 1]) {
            Some(t) => special_tokens(v, n - 1).push(t),
            None => special_tokens(v, n - 1),
        }
    }
}

/// Extract the added tokens, which are looked for in a text before anything
/// else is done to it.
pub fn extract_added_tokens(data: &Json) -> (r: Vec<AddedTokenSpec>)
    ensures
        added::models(r@) == added_views(added_list(*data), added_list(*data).len() as int),
{
    let mut out: Vec<AddedTokenSpec> = Vec::new();
    assert(added::models(out@) =~= seq![]);
    if let Some(v) = added_tokens(data) {
        let mut i: usize = 0;
        while i < v.len()
            invariant
                i <= v.len(),
                added::models(out@) == added_views(v@, i as int),
            decreases v.len() - i,
        {
            let t = Some(&v[i]);
            let ghost before = added::models(out@);
            if let Some(id) = as_id(get(t, "id")) {
                if let Some(s) = as_text(get(t, "content")) {
                    let b = s.as_bytes();
                    if b.len() > 1 {
                        let x = AddedTokenSpec::plain(id, to_vec(b));
                        assert(added_token(v@[i as int]) == Some(x.model()));
                        out.push(x);
                        assert(added::models(out@) =~= before.push(x.model()));
                    }
                }
            }
            i = i + 1;
        }
    }
    out
}

/// Extract the special tokens, as texts and ids.
pub fn extract_special_tokens(data: &Json) -> (r: Vec<(String, TokenId)>)
    ensures
        added_section::special_views(r@) == special_tokens(
            added_list(*data),
            added_list(*data).len() as int,
        ),
{
    let mut out: Vec<(String, TokenId)> = Vec::new();
    assert(added_section::special_views(out@) =~= seq![]);
    if let Some(v) = added_tokens(data) {
        let mut i: usize = 0;
        while i < v.len()
            invariant
                i <= v.len(),
                added_section::special_views(out@) == special_tokens(v@, i as int),
            decreases v.len() - i,
        {
            let t = Some(&v[i]);
            let ghost before = added_section::special_views(out@);
            if as_bool(get(t, "special")) == Some(true) {
                if let Some(id) = as_id(get(t, "id")) {
                    if let Some(s) = as_text(get(t, "content")) {
                        out.push((s.to_owned(), id));
                        assert(added_section::special_views(out@) =~= before.push((s@, id)));
                    }
                }
            }
            i = i + 1;
        }
    }
    out
}

} // verus!
