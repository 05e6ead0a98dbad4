//! What a tokenizer makes of a text, as mathematics.
//!
//! The steps are: find added tokens, normalize what lies between them, cut it
//! into pieces, and encode the pieces.
use crate::added;
use crate::automaton;
use crate::chunks;
use crate::encoder::backtracking;
use crate::normalizer::Normalizer;
use crate::padding;
use crate::postprocessor;
use crate::pretok;
use crate::pretok::Pretokenizer;
use crate::text;
use crate::types::TokenId;
use vstd::prelude::*;
use vstd::utf8::*;

verus! {

/// What the steps go by.
pub struct Pipeline {
    pub rules: backtracking::Rules,
    pub normalizer: Normalizer,
    pub pretok: Option<Pretokenizer>,
    /// The added tokens.
    pub added: Seq<added::AddedView>,
    /// What is looked for in the raw text, by place in the list of added tokens.
    pub raw: Option<Seq<automaton::Pattern>>,
    /// What is looked for in normalized text.
    pub norm: Option<Seq<automaton::Pattern>>,
    /// How many workers a long text is shared among.
    pub workers: int,
}

/// Minimum text size (in bytes) to encode in chunks.
pub const PARALLEL_CHUNK_THRESHOLD: usize = 65_536;

/// The characters of valid UTF-8 bytes.
pub open spec fn chars_of(b: Seq<u8>) -> Seq<char> {
    decode_utf8(b)
}

/// The tokens of the pieces of a text, one piece after another.
pub open spec fn piece_tokens(
    r: backtracking::Rules,
    b: Seq<u8>,
    spans: Seq<(int, int)>,
    workers: int,
) -> Seq<TokenId>
    decreases spans.len(),
{
    if spans.len() == 0 {
        seq![]
    } else {
        piece_tokens(r, b, spans.drop_last(), workers) + backtracking::encoding(
            r,
            b.subrange(spans.last().0, spans.last().1),
            workers,
        )
    }
}

/// The tokens of a normalized text.
pub open spec fn normalized_tokens(p: Pipeline, b: Seq<u8>) -> Seq<TokenId> {
    match p.pretok {
        Some(t) => piece_tokens(p.rules, b, t.spans(b), p.workers),
        None => backtracking::encoding(p.rules, b, p.workers),
    }
}

/// The tokens of a text that is normalized first.
pub open spec fn plain_tokens(p: Pipeline, s: Seq<char>) -> Seq<TokenId> {
    normalized_tokens(p, text::utf8(p.normalizer.normal_form(s)))
}

/// The chunks that a long text is shared out in: cut before spaces.
pub open spec fn text_chunks(p: Pipeline, s: Seq<char>) -> Seq<Seq<u8>> {
    let b = text::utf8(s);
    chunks::chunks_from(b, 0, b.len() as int / p.workers, seq![0x20u8])
}

/// Every byte string is valid UTF-8.
pub open spec fn all_valid(parts: Seq<Seq<u8>>) -> bool {
    forall|i: int| 0 <= i < parts.len() ==> valid_utf8(#[trigger] parts[i])
}

/// The tokens of texts, each normalized on its own.
pub open spec fn plain_tokens_all(p: Pipeline, parts: Seq<Seq<u8>>) -> Seq<TokenId>
    decreases parts.len(),
{
    if parts.len() == 0 {
        seq![]
    } else {
        plain_tokens_all(p, parts.drop_last()) + plain_tokens(p, chars_of(parts.last()))
    }
}

/// The tokens of a long text: those of its chunks, if it has several and none
/// of them starts or ends inside a character.
pub open spec fn chunked_tokens(p: Pipeline, s: Seq<char>) -> Seq<TokenId> {
    let parts = text_chunks(p, s);
    if parts.len() > 1 && all_valid(parts) {
        plain_tokens_all(p, parts)
    } else {
        plain_tokens(p, s)
    }
}

/// The tokens of a text without added tokens.
pub open spec fn inner_tokens(p: Pipeline, s: Seq<char>, parallel: bool) -> Seq<TokenId> {
    if p.pretok is Some && parallel && text::utf8(s).len() >= PARALLEL_CHUNK_THRESHOLD {
        chunked_tokens(p, s)
    } else {
        plain_tokens(p, s)
    }
}

/// The tokens of a raw segment between added tokens.
pub open spec fn segment_tokens(
    p: Pipeline,
    s: Seq<char>,
    first: bool,
    parallel: bool,
) -> Seq<TokenId> {
    if p.pretok is None {
        backtracking::encoding(
            p.rules,
            text::utf8(p.normalizer.segment_form(s, first)),
            p.workers,
        )
    } else {
        inner_tokens(p, s, parallel)
    }
}

/// The tokens of a piece of normalized text between added tokens.
pub open spec fn prenormalized_tokens(p: Pipeline, s: Seq<char>, parallel: bool) -> Seq<TokenId> {
    if p.pretok is None {
        backtracking::encoding(p.rules, text::utf8(s), p.workers)
    } else {
        inner_tokens(p, s, parallel)
    }
}

/// The tokens of the parts of a normalized segment.
pub open spec fn norm_parts_tokens(
    p: Pipeline,
    b: Seq<u8>,
    parts: Seq<added::Part>,
    parallel: bool,
) -> Seq<TokenId>
    decreases parts.len(),
{
    if parts.len() == 0 {
        seq![]
    } else {
        let l = parts.last();
        norm_parts_tokens(p, b, parts.drop_last(), parallel) + match l.0 {
            Some(k) => seq![p.added[k].id],
            None => prenormalized_tokens(p, chars_of(b.subrange(l.1, l.2)), parallel),
        }
    }
}

/// The tokens of a raw segment: where tokens are looked for in normalized
/// text, those, and what lies between them.
pub open spec fn split_segment_tokens(
    p: Pipeline,
    s: Seq<char>,
    first: bool,
    parallel: bool,
) -> Seq<TokenId> {
    match p.norm {
        None => segment_tokens(p, s, first, parallel),
        Some(patterns) => {
            let b = text::utf8(p.normalizer.segment_form(s, first));
            norm_parts_tokens(
                p,
                b,
                added::parts_from(b, p.added, automaton::matches_in(patterns, b), 0, 0),
                parallel,
            )
        },
    }
}

/// The tokens of the parts of a raw text.
pub open spec fn raw_parts_tokens(
    p: Pipeline,
    b: Seq<u8>,
    parts: Seq<added::Part>,
    parallel: bool,
) -> Seq<TokenId>
    decreases parts.len(),
{
    if parts.len() == 0 {
        seq![]
    } else {
        let l = parts.last();
        raw_parts_tokens(p, b, parts.drop_last(), parallel) + match l.0 {
            Some(k) => seq![p.added[k].id],
            None => split_segment_tokens(
                p,
                chars_of(b.subrange(l.1, l.2)),
                l.1 == 0,
                parallel,
            ),
        }
    }
}

/// The parts of a raw text.
pub open spec fn raw_parts(p: Pipeline, b: Seq<u8>) -> Seq<added::Part> {
    match p.raw {
        Some(patterns) => added::parts_from(b, p.added, automaton::matches_in(patterns, b), 0, 0),
        None => if b.len() == 0 {
            seq![]
        } else {
            seq![(None, 0int, b.len() as int)]
        },
    }
}

/// The tokens of a text, without special tokens.
pub open spec fn raw_tokens(p: Pipeline, s: Seq<char>, parallel: bool) -> Seq<TokenId> {
    if p.raw is None && p.norm is None {
        inner_tokens(p, s, parallel)
    } else {
        let b = text::utf8(s);
        raw_parts_tokens(p, b, raw_parts(p, b), parallel)
    }
}

// ---- which texts can be encoded ----

/// Every piece of a text can be encoded.
pub open spec fn pieces_fit(
    vocab: Seq<Seq<u8>>,
    b: Seq<u8>,
    spans: Seq<(int, int)>,
    workers: int,
) -> bool {
    forall|i: int|
        0 <= i < spans.len() ==> backtracking::fits(
            vocab,
            b.subrange((#[trigger] spans[i]).0, spans[i].1),
            workers,
        )
}

/// A normalized text can be encoded: wherever tokens lead in what is handed to
/// the encoder, a token stands.
pub open spec fn normalized_fits(p: Pipeline, b: Seq<u8>) -> bool {
    match p.pretok {
        Some(t) => pieces_fit(p.rules.vocab, b, t.spans(b), p.workers),
        None => backtracking::fits(p.rules.vocab, b, p.workers),
    }
}

/// Every piece of a text can be searched for tokens.
pub open spec fn pieces_searchable(
    vocab: Seq<Seq<u8>>,
    b: Seq<u8>,
    spans: Seq<(int, int)>,
) -> bool {
    forall|i: int|
        0 <= i < spans.len() ==> backtracking::searchable(
            vocab,
            b.subrange((#[trigger] spans[i]).0, spans[i].1),
        )
}

/// The tokens of a text can be handed out one at a time.
pub open spec fn stream_fits(p: Pipeline, b: Seq<u8>) -> bool {
    match p.pretok {
        Some(t) => pieces_searchable(p.rules.vocab, b, t.spans(b)),
        None => backtracking::searchable(p.rules.vocab, b),
    }
}

/// A text that is normalized first can be encoded.
pub open spec fn plain_fits(p: Pipeline, s: Seq<char>) -> bool {
    normalized_fits(p, text::utf8(p.normalizer.normal_form(s)))
}

/// Texts, each normalized on its own, can be encoded.
pub open spec fn plain_fits_all(p: Pipeline, parts: Seq<Seq<u8>>) -> bool {
    forall|i: int| 0 <= i < parts.len() ==> plain_fits(p, chars_of(#[trigger] parts[i]))
}

/// A long text can be encoded: its chunks, if it is shared out.
pub open spec fn chunked_fits(p: Pipeline, s: Seq<char>) -> bool {
    let parts = text_chunks(p, s);
    if parts.len() > 1 && all_valid(parts) {
        plain_fits_all(p, parts)
    } else {
        plain_fits(p, s)
    }
}

/// A text without added tokens can be encoded.
pub open spec fn inner_fits(p: Pipeline, s: Seq<char>, parallel: bool) -> bool {
    if p.pretok is Some && parallel && text::utf8(s).len() >= PARALLEL_CHUNK_THRESHOLD {
        chunked_fits(p, s)
    } else {
        plain_fits(p, s)
    }
}

/// A raw segment between added tokens can be encoded.
pub open spec fn segment_fits(p: Pipeline, s: Seq<char>, first: bool, parallel: bool) -> bool {
    if p.pretok is None {
        backtracking::fits(
            p.rules.vocab,
            text::utf8(p.normalizer.segment_form(s, first)),
            p.workers,
        )
    } else {
        inner_fits(p, s, parallel)
    }
}

/// A piece of normalized text between added tokens can be encoded.
pub open spec fn prenormalized_fits(p: Pipeline, s: Seq<char>, parallel: bool) -> bool {
    if p.pretok is None {
        backtracking::fits(p.rules.vocab, text::utf8(s), p.workers)
    } else {
        inner_fits(p, s, parallel)
    }
}

/// What lies between the added tokens of a normalized segment can be encoded.
pub open spec fn norm_parts_fit(
    p: Pipeline,
    b: Seq<u8>,
    parts: Seq<added::Part>,
    parallel: bool,
) -> bool {
    forall|i: int|
        0 <= i < parts.len() && (#[trigger] parts[i]).0 is None ==> prenormalized_fits(
            p,
            chars_of(b.subrange(parts[i].1, parts[i].2)),
            parallel,
        )
}

/// A raw segment can be encoded.
pub open spec fn split_segment_fits(
    p: Pipeline,
    s: Seq<char>,
    first: bool,
    parallel: bool,
) -> bool {
    match p.norm {
        None => segment_fits(p, s, first, parallel),
        Some(patterns) => {
            let b = text::utf8(p.normalizer.segment_form(s, first));
            norm_parts_fit(
                p,
                b,
                added::parts_from(b, p.added, automaton::matches_in(patterns, b), 0, 0),
                parallel,
            )
        },
    }
}

/// What lies between the added tokens of a raw text can be encoded.
pub open spec fn raw_parts_fit(
    p: Pipeline,
    b: Seq<u8>,
    parts: Seq<added::Part>,
    parallel: bool,
) -> bool {
    forall|i: int|
        0 <= i < parts.len() && (#[trigger] parts[i]).0 is None ==> split_segment_fits(
            p,
            chars_of(b.subrange(parts[i].1, parts[i].2)),
            parts[i].1 == 0,
            parallel,
        )
}

/// A text can be encoded: so can all that its steps hand to the encoder.
pub open spec fn encodable(p: Pipeline, s: Seq<char>, parallel: bool) -> bool {
    if p.raw is None && p.norm is None {
        inner_fits(p, s, parallel)
    } else {
        let b = text::utf8(s);
        raw_parts_fit(p, b, raw_parts(p, b), parallel)
    }
}

proof fn lemma_complete_plain(p: Pipeline, s: Seq<char>)
    requires
        backtracking::complete(p.rules.vocab),
        0 < p.workers <= backtracking::PARALLEL_THRESHOLD,
    ensures
        plain_fits(p, s),
{
    let form = p.normalizer.normal_form(s);
    let b = text::utf8(form);
    encode_utf8_valid_utf8(form);
    lemma_complete_text(p, form);
    if let Some(t) = p.pretok {
        backtracking::law_complete_covers(p.rules.vocab, b);
        pretok::law_spans_lie_in_text(t, b);
        assert forall|i: int| 0 <= i < t.spans(b).len() implies backtracking::fits(
            p.rules.vocab,
            b.subrange((#[trigger] t.spans(b)[i]).0, t.spans(b)[i].1),
            p.workers,
        ) by {
            let s = t.spans(b)[i];
            backtracking::lemma_covers_part(p.rules.vocab, b, s.0, s.1);
            backtracking::law_covered_fits(p.rules.vocab, b.subrange(s.0, s.1), p.workers);
        }
    }
}

proof fn lemma_complete_inner(p: Pipeline, s: Seq<char>, parallel: bool)
    requires
        backtracking::complete(p.rules.vocab),
        0 < p.workers <= backtracking::PARALLEL_THRESHOLD,
    ensures
        inner_fits(p, s, parallel),
{
    lemma_complete_plain(p, s);
    let parts = text_chunks(p, s);
    assert forall|i: int| 0 <= i < parts.len() implies plain_fits(
        p,
        chars_of(#[trigger] parts[i]),
    ) by {
        lemma_complete_plain(p, chars_of(parts[i]));
    }
}

proof fn lemma_complete_text(p: Pipeline, s: Seq<char>)
    requires
        backtracking::complete(p.rules.vocab),
        0 < p.workers <= backtracking::PARALLEL_THRESHOLD,
    ensures
        backtracking::fits(p.rules.vocab, text::utf8(s), p.workers),
{
    encode_utf8_valid_utf8(s);
    backtracking::law_complete_covers(p.rules.vocab, text::utf8(s));
    backtracking::law_covered_fits(p.rules.vocab, text::utf8(s), p.workers);
}

proof fn lemma_complete_segment(p: Pipeline, s: Seq<char>, first: bool, parallel: bool)
    requires
        backtracking::complete(p.rules.vocab),
        0 < p.workers <= backtracking::PARALLEL_THRESHOLD,
    ensures
        split_segment_fits(p, s, first, parallel),
{
    let form = p.normalizer.segment_form(s, first);
    lemma_complete_text(p, form);
    lemma_complete_inner(p, s, parallel);
    if let Some(patterns) = p.norm {
        let b = text::utf8(form);
        let parts = added::parts_from(b, p.added, automaton::matches_in(patterns, b), 0, 0);
        assert forall|i: int|
            0 <= i < parts.len() && (#[trigger] parts[i]).0 is None implies prenormalized_fits(
            p,
            chars_of(b.subrange(parts[i].1, parts[i].2)),
            parallel,
        ) by {
            let t = chars_of(b.subrange(parts[i].1, parts[i].2));
            lemma_complete_text(p, t);
            lemma_complete_inner(p, t, parallel);
        }
    }
}

proof fn lemma_complete_stream(p: Pipeline, s: Seq<char>)
    requires
        backtracking::complete(p.rules.vocab),
    ensures
        stream_fits(p, text::utf8(s)),
{
    let b = text::utf8(s);
    encode_utf8_valid_utf8(s);
    backtracking::law_complete_covers(p.rules.vocab, b);
    backtracking::law_covered_is_searchable(p.rules.vocab, b);
    if let Some(t) = p.pretok {
        pretok::law_spans_lie_in_text(t, b);
        assert forall|i: int| 0 <= i < t.spans(b).len() implies backtracking::searchable(
            p.rules.vocab,
            b.subrange((#[trigger] t.spans(b)[i]).0, t.spans(b)[i].1),
        ) by {
            let s = t.spans(b)[i];
            backtracking::lemma_covers_part(p.rules.vocab, b, s.0, s.1);
            backtracking::law_covered_is_searchable(p.rules.vocab, b.subrange(s.0, s.1));
        }
    }
}

/// Where every byte that texts can hold is a token, every text can be encoded.
pub proof fn law_complete_is_encodable(p: Pipeline, s: Seq<char>, parallel: bool)
    requires
        backtracking::complete(p.rules.vocab),
        0 < p.workers <= backtracking::PARALLEL_THRESHOLD,
    ensures
        encodable(p, s, parallel),
        plain_fits(p, s),
        stream_fits(p, text::utf8(s)),
{
    lemma_complete_plain(p, s);
    lemma_complete_stream(p, s);
    lemma_complete_inner(p, s, parallel);
    let b = text::utf8(s);
    let parts = raw_parts(p, b);
    assert forall|i: int|
        0 <= i < parts.len() && (#[trigger] parts[i]).0 is None implies split_segment_fits(
        p,
        chars_of(b.subrange(parts[i].1, parts[i].2)),
        parts[i].1 == 0,
        parallel,
    ) by {
        lemma_complete_segment(
            p,
            chars_of(b.subrange(parts[i].1, parts[i].2)),
            parts[i].1 == 0,
            parallel,
        );
    }
}

/// How many tokens of the text may stay, with room for special tokens.
pub open spec fn room(t: padding::TruncationParams, special: int) -> int {
    if t.max_length >= special {
        t.max_length - special
    } else {
        0
    }
}

/// The tokens of a text, cut and with special tokens.
pub open spec fn finished_tokens(
    f: postprocessor::Frame,
    truncation: Option<padding::TruncationParams>,
    tokens: Seq<TokenId>,
    special: bool,
) -> Seq<TokenId> {
    let n = if special {
        (f.single_prefix.len() + f.single_suffix.len()) as int
    } else {
        0
    };
    let cut = match truncation {
        Some(t) => padding::truncated(tokens, room(t, n), t.direction),
        None => tokens,
    };
    if special {
        postprocessor::framed(f, cut)
    } else {
        cut
    }
}

/// Where no added token is looked for, a text is encoded as it stands.
pub proof fn law_no_added_tokens(p: Pipeline, s: Seq<char>, parallel: bool)
    requires
        p.raw is None,
        p.norm is None,
    ensures
        raw_tokens(p, s, parallel) == inner_tokens(p, s, parallel),
{
}

/// Cut tokens with their special tokens are no more than allowed, where the
/// special tokens alone are not too many.
pub proof fn law_truncation_bounds(
    f: postprocessor::Frame,
    t: padding::TruncationParams,
    tokens: Seq<TokenId>,
    special: bool,
)
    requires
        special ==> f.single_prefix.len() + f.single_suffix.len() <= t.max_length,
    ensures
        finished_tokens(f, Some(t), tokens, special).len() <= t.max_length,
{
}

} // verus!
