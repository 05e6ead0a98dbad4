//! What holds of a tokenizer as a whole: decoding undoes encoding, and offsets
//! point at what a token stands for.
use crate::added;
use crate::automaton;
use crate::chunks;
use crate::decoder::DecoderType;
use crate::encoder::backtracking;
use crate::encoder::merging;
use crate::padding::TruncationDirection;
use crate::pretok;
use crate::pretok::Pretokenizer;
use crate::pretokie::rules;
use crate::pretokie::util;
use crate::text;
use crate::tokenizer;
use crate::tokenizer::encode;
use crate::tokenizer::batch;
use crate::tokenizer::model;
use crate::tokenizer::model::Pipeline;
use crate::tokenizer::Tokenizer;
use crate::types::TokenId;
use vstd::prelude::*;
use vstd::utf8::*;

verus! {

// ---- the tokens of a text are spelled as the text ----

/// The tokens of texts, the first of them first.
proof fn lemma_bpe_all_front(r: backtracking::Rules, x: Seq<u8>, rest: Seq<Seq<u8>>)
    ensures
        backtracking::bpe_all(r, seq![x] + rest) == backtracking::bpe(r, x)
            + backtracking::bpe_all(r, rest),
    decreases rest.len(),
{
    let all = seq![x] + rest;
    if rest.len() == 0 {
        assert(all.drop_last() =~= seq![]);
        assert(backtracking::bpe_all(r, all.drop_last()) =~= seq![]);
        assert(backtracking::bpe_all(r, all) =~= backtracking::bpe(r, x)
            + backtracking::bpe_all(r, rest));
    } else {
        lemma_bpe_all_front(r, x, rest.drop_last());
        assert(all.drop_last() =~= seq![x] + rest.drop_last());
        assert(all.last() == rest.last());
        assert(backtracking::bpe_all(r, all) =~= backtracking::bpe(r, x)
            + backtracking::bpe_all(r, rest));
    }
}

/// The tokens of the chunks of a text are spelled as the text.
proof fn lemma_chunks_spelled(
    r: backtracking::Rules,
    b: Seq<u8>,
    pos: int,
    size: int,
    d: Seq<u8>,
)
    requires
        merging::spells(r, b),
        0 <= pos <= b.len(),
        size > 0,
    ensures
        backtracking::token_bytes_of(
            r.vocab,
            backtracking::bpe_all(r, chunks::chunks_from(b, pos, size, d)),
        ) == b.subrange(pos, b.len() as int),
    decreases b.len() - pos,
{
    if pos < b.len() {
        let end = chunks::chunk_end(b, pos, size, d);
        chunks::lemma_chunk_end(b, pos, size, d);
        lemma_chunks_spelled(r, b, end, size, d);
        let part = b.subrange(pos, end);
        let rest = chunks::chunks_from(b, end, size, d);
        lemma_bpe_all_front(r, part, rest);
        encode::lemma_token_bytes_concat(
            r.vocab,
            backtracking::bpe(r, part),
            backtracking::bpe_all(r, rest),
        );
        assert(part + b.subrange(end, b.len() as int) =~= b.subrange(pos, b.len() as int));
    } else {
        assert(backtracking::token_bytes_of(
            r.vocab,
            backtracking::bpe_all(r, chunks::chunks_from(b, pos, size, d)),
        ) =~= b.subrange(pos, b.len() as int));
    }
}

/// The tokens of a part of a text are spelled as the part.
proof fn lemma_encoding_spelled(r: backtracking::Rules, b: Seq<u8>, i: int, j: int, workers: int)
    requires
        merging::spells(r, b),
        0 <= i <= j <= b.len(),
        0 < workers <= backtracking::PARALLEL_THRESHOLD,
    ensures
        backtracking::token_bytes_of(
            r.vocab,
            backtracking::encoding(r, b.subrange(i, j), workers),
        ) == b.subrange(i, j),
{
    let part = b.subrange(i, j);
    if part.len() >= backtracking::PARALLEL_THRESHOLD {
        assert forall|x: int, y: int|
            0 <= x <= y <= part.len() implies backtracking::token_bytes_of(
            r.vocab,
            backtracking::bpe(r, #[trigger] part.subrange(x, y)),
        ) == part.subrange(x, y) by {
            assert(part.subrange(x, y) =~= b.subrange(i + x, i + y));
        }
        vstd::arithmetic::div_mod::lemma_div_non_zero(part.len() as int, workers);
        lemma_chunks_spelled(
            r,
            part,
            0,
            part.len() as int / workers,
            backtracking::boundaries(),
        );
        assert(part.subrange(0, part.len() as int) =~= part);
    }
}

proof fn lemma_joined_push(b: Seq<u8>, spans: Seq<(int, int)>)
    requires
        spans.len() > 0,
    ensures
        rules::joined(b, spans) == rules::joined(b, spans.drop_last()) + b.subrange(
            spans.last().0,
            spans.last().1,
        ),
    decreases spans.len(),
{
    if spans.len() > 1 {
        let rest = spans.drop_first();
        lemma_joined_push(b, rest);
        assert(rest.drop_last() =~= spans.drop_last().drop_first());
        assert(rest.last() == spans.last());
        assert(rules::joined(b, spans) =~= rules::joined(b, spans.drop_last()) + b.subrange(
            spans.last().0,
            spans.last().1,
        ));
    } else {
        assert(rules::joined(b, spans.drop_first()) =~= seq![]);
        assert(rules::joined(b, spans.drop_last()) =~= seq![]);
        assert(rules::joined(b, spans) =~= rules::joined(b, spans.drop_last()) + b.subrange(
            spans.last().0,
            spans.last().1,
        ));
    }
}

/// The tokens of pieces are spelled as the pieces.
proof fn lemma_pieces_spelled(
    r: backtracking::Rules,
    b: Seq<u8>,
    spans: Seq<(int, int)>,
    workers: int,
)
    requires
        merging::spells(r, b),
        0 < workers <= backtracking::PARALLEL_THRESHOLD,
        forall|i: int|
            0 <= i < spans.len() ==> 0 <= (#[trigger] spans[i]).0 <= spans[i].1 <= b.len(),
    ensures
        backtracking::token_bytes_of(r.vocab, model::piece_tokens(r, b, spans, workers))
            == rules::joined(b, spans),
    decreases spans.len(),
{
    if spans.len() > 0 {
        let front = spans.drop_last();
        let l = spans.last();
        assert forall|i: int| 0 <= i < front.len() implies 0 <= (#[trigger] front[i]).0
            <= front[i].1 <= b.len() by {
            assert(front[i] == spans[i]);
        }
        lemma_pieces_spelled(r, b, front, workers);
        assert(0 <= spans[spans.len() - 1].0 <= l.1 <= b.len());
        lemma_encoding_spelled(r, b, l.0, l.1, workers);
        encode::lemma_token_bytes_concat(
            r.vocab,
            model::piece_tokens(r, b, front, workers),
            backtracking::encoding(r, b.subrange(l.0, l.1), workers),
        );
        lemma_joined_push(b, spans);
    } else {
        assert(backtracking::token_bytes_of(r.vocab, model::piece_tokens(r, b, spans, workers))
            =~= rules::joined(b, spans));
    }
}

/// The number of workers is one that a tokenizer can have.
pub open spec fn workers_fit(p: Pipeline) -> bool {
    0 < p.workers <= backtracking::PARALLEL_THRESHOLD
}

/// The tokens of a normalized text are spelled as the text, whatever
/// pretokenizer that drops nothing cuts it.
pub proof fn law_normalized_tokens_are_spelled(p: Pipeline, b: Seq<u8>)
    requires
        valid_utf8(b),
        merging::spells(p.rules, b),
        workers_fit(p),
        p.pretok != Some(Pretokenizer::Bert),
    ensures
        backtracking::token_bytes_of(p.rules.vocab, model::normalized_tokens(p, b)) == b,
{
    match p.pretok {
        Some(t) => {
            pretok::law_spans_lie_in_text(t, b);
            pretok::law_pieces_join(t, b);
            lemma_pieces_spelled(p.rules, b, t.spans(b), p.workers);
        },
        None => {
            assert(b.subrange(0, b.len() as int) =~= b);
            lemma_encoding_spelled(p.rules, b, 0, b.len() as int, p.workers);
        },
    }
}

/// Nothing is done to text but to cut it into pieces and to encode these.
pub open spec fn is_lossless(p: Pipeline) -> bool {
    &&& workers_fit(p)
    &&& p.norm is None
    &&& p.normalizer is Absent
    &&& p.pretok != Some(Pretokenizer::Bert)
}

/// Each added token takes exactly its bytes, and they are those of its id.
pub open spec fn added_are_spelled(p: Pipeline) -> bool {
    forall|k: int|
        0 <= k < p.added.len() ==> {
            let t = #[trigger] p.added[k];
            &&& !t.lstrip
            &&& !t.rstrip
            &&& t.id < p.rules.vocab.len()
            &&& p.rules.vocab[t.id as int] == t.bytes
        }
}

/// The tokens of a part of a text are spelled as the part.
proof fn lemma_part_spelled(p: Pipeline, b: Seq<u8>, pos: int, end: int)
    requires
        is_lossless(p),
        merging::spells(p.rules, b),
        0 <= pos <= end <= b.len(),
        valid_utf8(b.subrange(pos, end)),
    ensures
        backtracking::token_bytes_of(
            p.rules.vocab,
            model::plain_tokens(p, model::chars_of(b.subrange(pos, end))),
        ) == b.subrange(pos, end),
{
    let part = b.subrange(pos, end);
    assert forall|x: int, y: int| 0 <= x <= y <= part.len() implies backtracking::token_bytes_of(
        p.rules.vocab,
        backtracking::bpe(p.rules, #[trigger] part.subrange(x, y)),
    ) == part.subrange(x, y) by {
        assert(part.subrange(x, y) =~= b.subrange(pos + x, pos + y));
    }
    decode_utf8_encode_utf8(part);
    law_normalized_tokens_are_spelled(p, part);
}

proof fn lemma_plain_all_spelled(
    p: Pipeline,
    b: Seq<u8>,
    pos: int,
    size: int,
    d: Seq<u8>,
)
    requires
        is_lossless(p),
        merging::spells(p.rules, b),
        0 <= pos <= b.len(),
        size > 0,
        model::all_valid(chunks::chunks_from(b, pos, size, d)),
    ensures
        backtracking::token_bytes_of(
            p.rules.vocab,
            model::plain_tokens_all(p, chunks::chunks_from(b, pos, size, d)),
        ) == b.subrange(pos, b.len() as int),
    decreases b.len() - pos,
{
    let c = chunks::chunks_from(b, pos, size, d);
    if pos < b.len() {
        let end = chunks::chunk_end(b, pos, size, d);
        chunks::lemma_chunk_end(b, pos, size, d);
        let part = b.subrange(pos, end);
        let rest = chunks::chunks_from(b, end, size, d);
        assert forall|i: int| 0 <= i < rest.len() implies valid_utf8(#[trigger] rest[i]) by {
            assert(rest[i] == c[i + 1]);
        }
        lemma_plain_all_spelled(p, b, end, size, d);
        assert(c[0] == part);
        lemma_plain_all_front(p, part, rest);
        lemma_part_spelled(p, b, pos, end);
        encode::lemma_token_bytes_concat(
            p.rules.vocab,
            model::plain_tokens(p, model::chars_of(part)),
            model::plain_tokens_all(p, rest),
        );
        assert(part + b.subrange(end, b.len() as int) =~= b.subrange(pos, b.len() as int));
    } else {
        assert(backtracking::token_bytes_of(p.rules.vocab, model::plain_tokens_all(p, c))
            =~= b.subrange(pos, b.len() as int));
    }
}

proof fn lemma_plain_all_front(p: Pipeline, x: Seq<u8>, rest: Seq<Seq<u8>>)
    ensures
        model::plain_tokens_all(p, seq![x] + rest) == model::plain_tokens(p, model::chars_of(x))
            + model::plain_tokens_all(p, rest),
    decreases rest.len(),
{
    let all = seq![x] + rest;
    if rest.len() == 0 {
        assert(all.drop_last() =~= seq![]);
        assert(all.last() == x);
        assert(model::plain_tokens_all(p, all.drop_last()) =~= seq![]);
        assert(model::plain_tokens_all(p, all) =~= model::plain_tokens(p, model::chars_of(x))
            + model::plain_tokens_all(p, rest));
    } else {
        lemma_plain_all_front(p, x, rest.drop_last());
        assert(all.drop_last() =~= seq![x] + rest.drop_last());
        assert(all.last() == rest.last());
        assert(model::plain_tokens_all(p, all) =~= model::plain_tokens(p, model::chars_of(x))
            + model::plain_tokens_all(p, rest));
    }
}

/// The tokens of a text without added tokens are spelled as the text.
proof fn lemma_inner_spelled(p: Pipeline, s: Seq<char>, parallel: bool)
    requires
        is_lossless(p),
        merging::spells(p.rules, text::utf8(s)),
    ensures
        backtracking::token_bytes_of(p.rules.vocab, model::inner_tokens(p, s, parallel))
            == text::utf8(s),
{
    let b = text::utf8(s);
    encode_utf8_valid_utf8(s);
    law_normalized_tokens_are_spelled(p, b);
    if p.pretok is Some && parallel && b.len() >= model::PARALLEL_CHUNK_THRESHOLD {
        let parts = model::text_chunks(p, s);
        if parts.len() > 1 && model::all_valid(parts) {
            vstd::arithmetic::div_mod::lemma_div_non_zero(b.len() as int, p.workers);
            lemma_plain_all_spelled(p, b, 0, b.len() as int / p.workers, seq![0x20u8]);
            assert(b.subrange(0, b.len() as int) =~= b);
        }
    }
}

/// Text between two boundaries is valid UTF-8.
pub proof fn lemma_valid_between(b: Seq<u8>, x: int, y: int)
    requires
        util::boundary(b, x),
        util::boundary(b, y),
        x <= y,
    ensures
        valid_utf8(b.subrange(x, y)),
{
    let t = util::tail(b, x);
    assert(util::tail(t, y - x) =~= util::tail(b, y));
    util::lemma_boundary_is_char_boundary(t, y - x);
    valid_utf8_split(t, y - x);
    assert(t.subrange(0, y - x) =~= b.subrange(x, y));
}

/// A part of a text stands for what its tokens are spelled as.
spec fn part_spelled(p: Pipeline, b: Seq<u8>, l: added::Part) -> bool {
    &&& util::boundary(b, l.1)
    &&& util::boundary(b, l.2)
    &&& l.1 <= l.2
    &&& l.0 matches Some(k) ==> 0 <= k < p.added.len() && b.subrange(l.1, l.2)
        == p.rules.vocab[p.added[k].id as int]
}

/// Where the parts of a text stand.
spec fn part_spans(parts: Seq<added::Part>) -> Seq<(int, int)> {
    Seq::new(parts.len(), |i: int| (parts[i].1, parts[i].2))
}

/// The tokens of the parts of a text are spelled as the parts.
proof fn lemma_parts_spelled(p: Pipeline, b: Seq<u8>, parts: Seq<added::Part>, parallel: bool)
    requires
        is_lossless(p),
        merging::spells(p.rules, b),
        forall|i: int| 0 <= i < parts.len() ==> part_spelled(p, b, #[trigger] parts[i]),
    ensures
        backtracking::token_bytes_of(
            p.rules.vocab,
            model::raw_parts_tokens(p, b, parts, parallel),
        ) == rules::joined(b, part_spans(parts)),
    decreases parts.len(),
{
    let v = p.rules.vocab;
    if parts.len() > 0 {
        let front = parts.drop_last();
        let l = parts.last();
        assert(part_spelled(p, b, parts[parts.len() - 1]));
        assert forall|i: int| 0 <= i < front.len() implies part_spelled(
            p,
            b,
            #[trigger] front[i],
        ) by {
            assert(front[i] == parts[i]);
        }
        lemma_parts_spelled(p, b, front, parallel);
        let part = b.subrange(l.1, l.2);
        let tokens = match l.0 {
            Some(k) => seq![p.added[k].id],
            None => model::split_segment_tokens(p, model::chars_of(part), l.1 == 0, parallel),
        };
        match l.0 {
            Some(k) => {
                assert(tokens.drop_last() =~= seq![]);
                assert(backtracking::token_bytes_of(v, tokens.drop_last()) =~= seq![]);
                assert(backtracking::token_bytes_of(v, tokens) =~= part);
            },
            None => {
                lemma_valid_between(b, l.1, l.2);
                decode_utf8_encode_utf8(part);
                assert forall|x: int, y: int|
                    0 <= x <= y <= part.len() implies backtracking::token_bytes_of(
                    v,
                    backtracking::bpe(p.rules, #[trigger] part.subrange(x, y)),
                ) == part.subrange(x, y) by {
                    assert(part.subrange(x, y) =~= b.subrange(l.1 + x, l.1 + y));
                }
                if p.pretok is None {
                    lemma_encoding_spelled(p.rules, b, l.1, l.2, p.workers);
                } else {
                    lemma_inner_spelled(p, model::chars_of(part), parallel);
                }
            },
        }
        encode::lemma_token_bytes_concat(
            v,
            model::raw_parts_tokens(p, b, front, parallel),
            tokens,
        );
        lemma_joined_push(b, part_spans(parts));
        assert(part_spans(parts).drop_last() =~= part_spans(front));
    } else {
        assert(backtracking::token_bytes_of(
            v,
            model::raw_parts_tokens(p, b, parts, parallel),
        ) =~= rules::joined(b, part_spans(parts)));
    }
}

/// The patterns for the raw text are the bytes of the tokens that they name.
proof fn lemma_raw_patterns(r: backtracking::Rules, tokens: Seq<added::AddedView>, n: int)
    requires
        0 <= n <= tokens.len(),
        n <= u32::MAX,
    ensures
        forall|i: int|
            0 <= i < tokenizer::raw_patterns(r, tokens, n).len() ==> {
                let x = #[trigger] tokenizer::raw_patterns(r, tokens, n)[i];
                x.1 < n && x.0 == tokens[x.1 as int].bytes
            },
    decreases n,
{
    if n > 0 {
        lemma_raw_patterns(r, tokens, n - 1);
        let before = tokenizer::raw_patterns(r, tokens, n - 1);
        let all = tokenizer::raw_patterns(r, tokens, n);
        assert forall|i: int| 0 <= i < all.len() implies {
            let x = #[trigger] all[i];
            x.1 < n && x.0 == tokens[x.1 as int].bytes
        } by {
            if i < before.len() {
                assert(all[i] == before[i]);
            }
        }
    }
}

/// The parts of a text from `pos` on are the text from there on.
proof fn lemma_parts_partition(
    p: Pipeline,
    b: Seq<u8>,
    patterns: Seq<automaton::Pattern>,
    found: Seq<(u32, int, int)>,
    i: int,
    pos: int,
)
    requires
        added_are_spelled(p),
        automaton::matches_in_order(patterns, b, found),
        forall|j: int|
            0 <= j < patterns.len() ==> (#[trigger] patterns[j]).1 < p.added.len()
                && patterns[j].0 == p.added[patterns[j].1 as int].bytes,
        util::boundary(b, pos),
        util::boundary(b, b.len() as int),
        0 <= i <= found.len(),
        forall|j: int| i <= j < found.len() ==> pos <= (#[trigger] found[j]).1,
    ensures
        ({
            let parts = added::parts_from(b, p.added, found, i, pos);
            &&& forall|j: int| 0 <= j < parts.len() ==> part_spelled(p, b, #[trigger] parts[j])
            &&& rules::joined(b, part_spans(parts)) == b.subrange(pos, b.len() as int)
        }),
    decreases found.len() - i,
{
    let parts = added::parts_from(b, p.added, found, i, pos);
    let none = Seq::<(int, int)>::empty();
    if i == found.len() {
        if pos < b.len() {
            assert(part_spans(parts).drop_first() =~= none);
            assert(rules::joined(b, none) =~= seq![]);
            assert(part_spans(parts)[0] == (pos, b.len() as int));
            assert(rules::joined(b, part_spans(parts)) =~= b.subrange(pos, b.len() as int));
        } else {
            assert(part_spans(parts) =~= none);
            assert(rules::joined(b, part_spans(parts)) =~= b.subrange(pos, b.len() as int));
        }
    } else {
        let m = found[i];
        assert(automaton::is_match(patterns, b, m));
        let j = choose|j: int|
            0 <= j < patterns.len() && #[trigger] patterns[j] == (b.subrange(m.1, m.2), m.0);
        assert(patterns[j].0 == p.added[m.0 as int].bytes);
        match added::taken_span(b, p.added, pos, m) {
            None => {
                lemma_parts_partition(p, b, patterns, found, i + 1, pos);
            },
            Some((s, e)) => {
                assert(s == m.1 && e == m.2);
                lemma_parts_partition(p, b, patterns, found, i + 1, e);
                let rest = added::parts_from(b, p.added, found, i + 1, e);
                let here: added::Part = (Some(m.0 as int), s, e);
                let behind = seq![here] + rest;
                assert(part_spans(behind).drop_first() =~= part_spans(rest));
                assert(rules::joined(b, part_spans(behind)) =~= b.subrange(s, b.len() as int));
                if pos < s {
                    let before: added::Part = (None, pos, s);
                    assert(parts =~= seq![before] + behind);
                    assert(part_spans(parts).drop_first() =~= part_spans(behind));
                    assert(rules::joined(b, part_spans(parts)) =~= b.subrange(
                        pos,
                        b.len() as int,
                    ));
                    assert forall|x: int| 0 <= x < parts.len() implies part_spelled(
                        p,
                        b,
                        #[trigger] parts[x],
                    ) by {
                        if x >= 2 {
                            assert(parts[x] == rest[x - 2]);
                        }
                    }
                } else {
                    assert(parts =~= behind);
                    assert forall|x: int| 0 <= x < parts.len() implies part_spelled(
                        p,
                        b,
                        #[trigger] parts[x],
                    ) by {
                        if x >= 1 {
                            assert(parts[x] == rest[x - 1]);
                        }
                    }
                }
            },
        }
    }
}

/// The raw parts of a text, the whitespace that added tokens strip among them,
/// leave nothing of it out. They follow each other where no match starts in
/// whitespace that another may have taken.
pub proof fn law_raw_parts_cover(t: Tokenizer, s: Seq<char>)
    requires
        t.wf(),
    ensures
        added::no_gaps(text::utf8(s), model::raw_parts(t.pipeline(), text::utf8(s)), 0),
        t.pipeline().raw matches Some(patterns) ==> (added::apart(
            text::utf8(s),
            automaton::matches_in(patterns, text::utf8(s)),
        ) ==> added::consecutive(
            text::utf8(s),
            model::raw_parts(t.pipeline(), text::utf8(s)),
            0,
        )),
{
    let b = text::utf8(s);
    t.lemma_parts();
    encode_utf8_valid_utf8(s);
    if let Some(patterns) = t.pipeline().raw {
        batch::lemma_parts_of_matches(t.pipeline(), patterns, b);
    }
}

/// The tokens of a text are spelled as the text, where nothing is done to it
/// but to take out added tokens that take exactly their bytes, to cut the rest
/// into pieces and to encode these.
pub proof fn law_tokens_are_spelled(p: Pipeline, s: Seq<char>, parallel: bool)
    requires
        is_lossless(p),
        tokenizer::added_fit(p),
        added_are_spelled(p),
        p.raw matches Some(patterns) ==> automaton::finds_in_order(patterns),
        merging::spells(p.rules, text::utf8(s)),
    ensures
        backtracking::token_bytes_of(p.rules.vocab, model::raw_tokens(p, s, parallel))
            == text::utf8(s),
{
    let b = text::utf8(s);
    encode_utf8_valid_utf8(s);
    match p.raw {
        None => lemma_inner_spelled(p, s, parallel),
        Some(patterns) => {
            util::lemma_boundary_ends(b);
            lemma_raw_patterns(p.rules, p.added, p.added.len() as int);
            let found = automaton::matches_in(patterns, b);
            assert forall|j: int| 0 <= j < found.len() implies 0 <= (#[trigger] found[j]).1 by {
                assert(automaton::is_match(patterns, b, found[j]));
            }
            lemma_parts_partition(p, b, patterns, found, 0, 0);
            lemma_parts_spelled(p, b, model::raw_parts(p, b), parallel);
            assert(b.subrange(0, b.len() as int) =~= b);
        },
    }
}

/// What a tokenizer with byte-level tokens encodes, it decodes again, where it
/// does nothing to a text but to take out added tokens that take exactly their
/// bytes, to cut the rest into pieces and to encode these.
pub proof fn law_decode_undoes_encode(
    t: Tokenizer,
    s: Seq<char>,
    parallel: bool,
    r: Option<String>,
)
    requires
        t.wf(),
        is_lossless(t.pipeline()),
        added_are_spelled(t.pipeline()),
        merging::spells(t.pipeline().rules, text::utf8(s)),
        t.decoder_part().kind() == DecoderType::ByteLevel,
        t.decoder_part().decodes_to(
            t.post(),
            model::raw_tokens(t.pipeline(), s, parallel),
            r,
        ),
    ensures
        r is Some,
        r->0@ == s,
{
    t.lemma_parts();
    law_tokens_are_spelled(t.pipeline(), s, parallel);
    encode_utf8_valid_utf8(s);
    encode_utf8_decode_utf8(s);
    if let Some(x) = r {
        encode_utf8_decode_utf8(x@);
    }
}

/// A tokenizer that is built from bytes and merges, without added tokens and
/// without a step that changes the text, gives back every text of those bytes,
/// where no two tokens are the same and each merge can happen.
pub proof fn law_merges_round_trip(
    t: Tokenizer,
    base: Seq<Seq<u8>>,
    merges: Seq<(TokenId, TokenId)>,
    s: Seq<char>,
    parallel: bool,
    r: Option<String>,
)
    requires
        t.wf(),
        t.pipeline().rules == backtracking::built_rules(base, seq![], merges),
        forall|i: int| 0 <= i < base.len() ==> (#[trigger] base[i]).len() == 1,
        base.len() + merges.len() <= u32::MAX,
        backtracking::merges_ok(base, seq![], merges),
        merging::tokens_differ(t.pipeline().rules.vocab),
        merging::merges_happen(t.pipeline().rules),
        backtracking::covers(base, text::utf8(s)),
        is_lossless(t.pipeline()),
        t.pipeline().added.len() == 0,
        t.pipeline().raw is None,
        t.decoder_part().kind() == DecoderType::ByteLevel,
        t.decoder_part().decodes_to(
            t.post(),
            model::raw_tokens(t.pipeline(), s, parallel),
            r,
        ),
    ensures
        r is Some,
        r->0@ == s,
{
    merging::law_built_from_bytes_spells(base, merges, text::utf8(s));
    law_decode_undoes_encode(t, s, parallel, r);
}

// ---- offsets ----

/// Each offset is where the bytes of its token stand in the text.
pub open spec fn point_at(
    vocab: Seq<Seq<u8>>,
    b: Seq<u8>,
    tokens: Seq<TokenId>,
    offsets: Seq<(int, int)>,
) -> bool {
    &&& offsets.len() == tokens.len()
    &&& forall|i: int|
        0 <= i < offsets.len() ==> {
            let o = #[trigger] offsets[i];
            &&& 0 <= o.0 <= o.1 <= b.len()
            &&& b.subrange(o.0, o.1) == vocab[tokens[i] as int]
        }
}

/// The offsets run from `from` to `to`, each from the end of the one before.
pub open spec fn run(offsets: Seq<(int, int)>, from: int, to: int) -> bool
    decreases offsets.len(),
{
    if offsets.len() == 0 {
        from == to
    } else {
        offsets.last().1 == to && run(offsets.drop_last(), from, offsets.last().0)
    }
}

/// In a run each offset ends where the next one starts.
pub proof fn law_run(offsets: Seq<(int, int)>, from: int, to: int, i: int)
    requires
        run(offsets, from, to),
        0 <= i < offsets.len(),
    ensures
        offsets[0].0 == from,
        offsets[offsets.len() - 1].1 == to,
        i + 1 < offsets.len() ==> offsets[i].1 == offsets[i + 1].0,
    decreases offsets.len(),
{
    let front = offsets.drop_last();
    assert(run(front, from, offsets.last().0));
    if front.len() > 0 {
        law_run(front, from, offsets.last().0, if i < front.len() {
            i
        } else {
            front.len() - 1
        });
    }
}

/// A run behind a run is a run.
proof fn lemma_run_concat(a: Seq<(int, int)>, c: Seq<(int, int)>, x: int, y: int, z: int)
    requires
        run(a, x, y),
        run(c, y, z),
    ensures
        run(a + c, x, z),
    decreases c.len(),
{
    if c.len() == 0 {
        assert(a + c =~= a);
    } else {
        lemma_run_concat(a, c.drop_last(), x, y, c.last().0);
        assert((a + c).drop_last() =~= a + c.drop_last());
    }
}

/// The offsets of tokens that are spelled as a part of a text.
proof fn lemma_offsets_from(vocab: Seq<Seq<u8>>, b: Seq<u8>, tokens: Seq<TokenId>, start: int)
    requires
        0 <= start <= b.len(),
        automaton::starts_with(
            b.subrange(start, b.len() as int),
            backtracking::token_bytes_of(vocab, tokens),
        ),
    ensures
        point_at(vocab, b, tokens, encode::offsets_from(vocab, tokens, start)),
        run(
            encode::offsets_from(vocab, tokens, start),
            start,
            start + backtracking::token_bytes_of(vocab, tokens).len(),
        ),
    decreases tokens.len(),
{
    let o = encode::offsets_from(vocab, tokens, start);
    if tokens.len() > 0 {
        let front = tokens.drop_last();
        let rest = b.subrange(start, b.len() as int);
        let all = backtracking::token_bytes_of(vocab, tokens);
        let less = backtracking::token_bytes_of(vocab, front);
        let last = vocab[tokens.last() as int];
        let n = less.len() as int;
        assert(rest.subrange(0, n) =~= all.subrange(0, n));
        assert(all.subrange(0, n) =~= less);
        lemma_offsets_from(vocab, b, front, start);
        assert(rest.subrange(0, all.len() as int) == all);
        assert(b.subrange(start + n, start + n + last.len()) =~= rest.subrange(
            0,
            all.len() as int,
        ).subrange(n, all.len() as int));
        assert(all.subrange(n, all.len() as int) =~= last);
        let before = encode::offsets_from(vocab, front, start);
        assert(o.drop_last() =~= before);
        assert forall|i: int| 0 <= i < o.len() implies {
            let x = #[trigger] o[i];
            &&& 0 <= x.0 <= x.1 <= b.len()
            &&& b.subrange(x.0, x.1) == vocab[tokens[i] as int]
        } by {
            if i < before.len() {
                assert(o[i] == before[i]);
                assert(front[i] == tokens[i]);
            }
        }
    }
}

/// The offsets of one part of the tokens behind those of another.
proof fn lemma_point_at_concat(
    vocab: Seq<Seq<u8>>,
    b: Seq<u8>,
    t: Seq<TokenId>,
    u: Seq<TokenId>,
    o: Seq<(int, int)>,
    q: Seq<(int, int)>,
)
    requires
        point_at(vocab, b, t, o),
        point_at(vocab, b, u, q),
    ensures
        point_at(vocab, b, t + u, o + q),
{
    assert forall|i: int| 0 <= i < (o + q).len() implies {
        let x = #[trigger] (o + q)[i];
        &&& 0 <= x.0 <= x.1 <= b.len()
        &&& b.subrange(x.0, x.1) == vocab[(t + u)[i] as int]
    } by {
        if i < o.len() {
            assert((o + q)[i] == o[i]);
        } else {
            assert((o + q)[i] == q[i - o.len()]);
        }
    }
}

proof fn lemma_piece_offsets(
    r: backtracking::Rules,
    b: Seq<u8>,
    spans: Seq<(int, int)>,
    workers: int,
)
    requires
        merging::spells(r, b),
        0 < workers <= backtracking::PARALLEL_THRESHOLD,
        forall|i: int|
            0 <= i < spans.len() ==> 0 <= (#[trigger] spans[i]).0 <= spans[i].1 <= b.len(),
    ensures
        point_at(
            r.vocab,
            b,
            model::piece_tokens(r, b, spans, workers),
            encode::piece_offsets(r, b, spans, workers),
        ),
        forall|from: int, to: int| #[trigger]
            run(spans, from, to) ==> run(encode::piece_offsets(r, b, spans, workers), from, to),
    decreases spans.len(),
{
    if spans.len() > 0 {
        let front = spans.drop_last();
        let l = spans.last();
        assert forall|i: int| 0 <= i < front.len() implies 0 <= (#[trigger] front[i]).0
            <= front[i].1 <= b.len() by {
            assert(front[i] == spans[i]);
        }
        lemma_piece_offsets(r, b, front, workers);
        assert(0 <= spans[spans.len() - 1].0 <= l.1 <= b.len());
        lemma_encoding_spelled(r, b, l.0, l.1, workers);
        let tokens = backtracking::encoding(r, b.subrange(l.0, l.1), workers);
        let tail = b.subrange(l.0, b.len() as int);
        assert(tail.subrange(0, l.1 - l.0) =~= b.subrange(l.0, l.1));
        lemma_offsets_from(r.vocab, b, tokens, l.0);
        let before = encode::piece_offsets(r, b, front, workers);
        let here = encode::offsets_from(r.vocab, tokens, l.0);
        lemma_point_at_concat(
            r.vocab,
            b,
            model::piece_tokens(r, b, front, workers),
            tokens,
            before,
            here,
        );
        assert forall|from: int, to: int| #[trigger] run(spans, from, to) implies run(
            encode::piece_offsets(r, b, spans, workers),
            from,
            to,
        ) by {
            assert(run(front, from, l.0));
            lemma_run_concat(before, here, from, l.0, to);
        }
    }
}

/// The pieces of a text run through it.
proof fn lemma_spans_run(spans: Seq<(int, int)>, n: int)
    requires
        spans.len() == 0 ==> n == 0,
        spans.len() > 0 ==> spans[0].0 == 0 && spans[spans.len() - 1].1 == n,
        forall|i: int, j: int|
            0 <= i && j == i + 1 && j < spans.len() ==> (#[trigger] spans[i]).1
                == (#[trigger] spans[j]).0,
    ensures
        run(spans, 0, n),
    decreases spans.len(),
{
    if spans.len() > 1 {
        let front = spans.drop_last();
        assert(spans[spans.len() - 2].1 == spans[spans.len() - 1].0);
        assert(front[front.len() - 1] == spans[spans.len() - 2]);
        lemma_spans_run(front, spans.last().0);
    } else if spans.len() == 1 {
        assert(run(spans.drop_last(), 0, 0));
    }
}

/// Each offset is where its token stands in the text; a pretokenizer that
/// drops nothing leaves nothing out between them.
pub proof fn law_offsets(p: Pipeline, b: Seq<u8>)
    requires
        valid_utf8(b),
        merging::spells(p.rules, b),
        workers_fit(p),
    ensures
        point_at(
            p.rules.vocab,
            b,
            model::normalized_tokens(p, b),
            encode::normalized_offsets(p, b),
        ),
        p.pretok != Some(Pretokenizer::Bert) ==> run(
            encode::normalized_offsets(p, b),
            0,
            b.len() as int,
        ),
{
    match p.pretok {
        Some(t) => {
            pretok::law_spans_lie_in_text(t, b);
            lemma_piece_offsets(p.rules, b, t.spans(b), p.workers);
            if t != Pretokenizer::Bert {
                pretok::law_pieces_join(t, b);
                lemma_spans_run(t.spans(b), b.len() as int);
            }
        },
        None => {
            assert(b.subrange(0, b.len() as int) =~= b);
            lemma_encoding_spelled(p.rules, b, 0, b.len() as int, p.workers);
            lemma_offsets_from(
                p.rules.vocab,
                b,
                backtracking::encoding(p.rules, b, p.workers),
                0,
            );
        },
    }
}

/// With special tokens and cut, and where nothing is padded, each token of a
/// text keeps its own offset, and each special token gets `(0, 0)`.
pub proof fn law_tokens_keep_offsets(
    t: Tokenizer,
    s: Seq<char>,
    offsets: Seq<(usize, usize)>,
    special: bool,
    i: int,
)
    requires
        t.pad_params() is None,
        offsets.len() == model::plain_tokens(t.pipeline(), s).len(),
        0 <= i < t.encoded_with_offsets(s, offsets, special).ids.len(),
    ensures
        ({
            let f = t.post().frame();
            let e = t.encoded_with_offsets(s, offsets, special);
            let plain = model::plain_tokens(t.pipeline(), s);
            &&& e.offsets.len() == e.ids.len()
            &&& if special && (i < f.single_prefix.len() || i >= e.ids.len()
                - f.single_suffix.len()) {
                e.offsets[i] == (0usize, 0usize)
            } else {
                exists|j: int|
                    0 <= j < plain.len() && e.ids[i] == #[trigger] plain[j] && e.offsets[i]
                        == offsets[j]
            }
        }),
{
    let f = t.post().frame();
    let e = t.encoded_with_offsets(s, offsets, special);
    let plain = model::plain_tokens(t.pipeline(), s);
    let n = if special {
        (f.single_prefix.len() + f.single_suffix.len()) as int
    } else {
        0
    };
    let before = if special {
        f.single_prefix.len() as int
    } else {
        0
    };
    let skipped = match t.cut_params() {
        Some(c) => if plain.len() <= model::room(c, n) || c.direction
            == TruncationDirection::Right {
            0
        } else {
            plain.len() - model::room(c, n)
        },
        None => 0,
    };
    let j = i - before + skipped;
    if !(special && (i < f.single_prefix.len() || i >= e.ids.len() - f.single_suffix.len())) {
        assert(e.ids[i] == plain[j]);
    }
}

} // verus!
