//! Encoding texts.
use crate::added;
use crate::added::split_on_added;
use crate::chunks;
use crate::decoder;
use crate::encoder::backtracking;
use crate::encoder::cache::PretokenCache;
use crate::encoder::Encoder;
use crate::normalizer::cow_str;
use crate::padding;
use crate::padding::{pad_encoding, truncate_ids, truncate_pair, Encoding, EncodingView, PaddingStrategy};
use crate::postprocessor;
use crate::postprocessor::{push_repeated, push_tokens};
use crate::pretok;
use crate::pretokie::mask;
use crate::pretokie::rules;
use crate::pretokie::util;
use crate::text;
use crate::text::substr;
use crate::tokenizer::model;
use crate::tokenizer::model::{Pipeline, PARALLEL_CHUNK_THRESHOLD};
use crate::tokenizer::Tokenizer;
use crate::types::TokenId;
use vstd::prelude::*;
use vstd::slice::*;
use vstd::string::*;
use vstd::utf8::*;

verus! {

/// What the cache holds of a piece are its tokens.
pub open spec fn cache_ok(r: backtracking::Rules, c: Option<PretokenCache>) -> bool {
    c matches Some(c) ==> backtracking::cache_sound(r, c)
}

/// A part of a text with its boundaries is a text.
pub(super) proof fn lemma_part_is_text(b: Seq<u8>, s: &str, i: int, j: int)
    requires
        s.spec_bytes() == b.subrange(i, j),
    ensures
        valid_utf8(b.subrange(i, j)),
        model::chars_of(b.subrange(i, j)) == s@,
{
    encode_utf8_valid_utf8(s@);
    encode_utf8_decode_utf8(s@);
}

/// The texts have these bytes.
pub(super) open spec fn texts_match(texts: Seq<&str>, parts: Seq<Seq<u8>>) -> bool {
    &&& texts.len() == parts.len()
    &&& forall|j: int| 0 <= j < texts.len() ==> (#[trigger] texts[j]).spec_bytes() == parts[j]
}

/// The texts with these bytes, if all are valid UTF-8.
pub(super) fn all_texts<'a>(parts: &Vec<&'a [u8]>) -> (r: Option<Vec<&'a str>>)
    ensures
        match r {
            Some(t) => model::all_valid(chunks::slices(parts@)) && texts_match(
                t@,
                chunks::slices(parts@),
            ),
            None => !model::all_valid(chunks::slices(parts@)),
        },
{
    let ghost all = chunks::slices(parts@);
    let mut texts: Vec<&'a str> = Vec::new();
    let mut i: usize = 0;
    while i < parts.len()
        invariant
            i <= parts.len(),
            all == chunks::slices(parts@),
            texts@.len() == i,
            forall|j: int| 0 <= j < i ==> valid_utf8(#[trigger] all[j]),
            forall|j: int| 0 <= j < i ==> (#[trigger] texts@[j]).spec_bytes() == all[j],
        decreases parts.len() - i,
    {
        let part: &'a [u8] = parts[i];
        assert(part@ == all[i as int]);
        match core::str::from_utf8(part) {
            Ok(s) => {
                texts.push(s);
            },
            Err(_) => {
                assert(!valid_utf8(all[i as int]));
                return None;
            },
        }
        i = i + 1;
    }
    Some(texts)
}

impl Tokenizer {
    /// Append the tokens of the bytes of a text.
    fn encode_bytes_into(
        &self,
        text: &str,
        cache: &mut Option<PretokenCache>,
        out: &mut Vec<TokenId>,
    )
        requires
            self.wf(),
            backtracking::fits(
                self.pipeline().rules.vocab,
                text.spec_bytes(),
                self.pipeline().workers,
            ),
            cache_ok(self.pipeline().rules, *old(cache)),
        ensures
            cache_ok(self.pipeline().rules, *final(cache)),
            final(out)@ == old(out)@ + backtracking::encoding(
                self.pipeline().rules,
                text.spec_bytes(),
                self.pipeline().workers,
            ),
    {
        let bytes = text.as_bytes();
        match cache {
            Some(c) => self.encoder.encode_into(bytes, Some(c), self.workers, out),
            None => self.encoder.encode_into(bytes, None, self.workers, out),
        }
    }

    /// Append the tokens of a normalized text: those of its pieces, where
    /// there is a pretokenizer.
    fn encode_sequential_into(
        &self,
        text: &str,
        cache: &mut Option<PretokenCache>,
        out: &mut Vec<TokenId>,
    )
        requires
            self.wf(),
            model::normalized_fits(self.pipeline(), text.spec_bytes()),
            cache_ok(self.pipeline().rules, *old(cache)),
        ensures
            cache_ok(self.pipeline().rules, *final(cache)),
            final(out)@ == old(out)@ + model::normalized_tokens(self.pipeline(), text.spec_bytes()),
    {
        match &self.pretokenizer {
            None => self.encode_bytes_into(text, cache, out),
            Some(p) => {
                let ghost b = text.spec_bytes();
                let ghost all = p.spans(b);
                let ghost r = self.pipeline().rules;
                let ghost w = self.pipeline().workers;
                let pieces = p.for_each_piece(text);
                let mut i: usize = 0;
                assert(all.subrange(0, 0) =~= seq![]);
                assert(out@ =~= old(out)@ + seq![]);
                while i < pieces.len()
                    invariant
                        self.wf(),
                        model::pieces_fit(r.vocab, b, all, w),
                        r == self.pipeline().rules,
                        w == self.pipeline().workers,
                        cache_ok(r, *cache),
                        i <= pieces.len(),
                        rules::are_pieces(pieces@, b, all),
                        out@ == old(out)@ + model::piece_tokens(
                            r,
                            b,
                            all.subrange(0, i as int),
                            w,
                        ),
                    decreases pieces.len() - i,
                {
                    let piece: &str = pieces[i];
                    assert(piece.spec_bytes() == b.subrange(all[i as int].0, all[i as int].1));
                    self.encode_bytes_into(piece, cache, out);
                    proof {
                        let s = all.subrange(0, i + 1);
                        assert(s.drop_last() =~= all.subrange(0, i as int));
                        assert(s.last() == all[i as int]);
                        assert(out@ =~= old(out)@ + model::piece_tokens(r, b, s, w));
                    }
                    i = i + 1;
                }
                assert(all.subrange(0, all.len() as int) =~= all);
            },
        }
    }

    /// Append the tokens of a text that is normalized first.
    fn encode_plain_into(
        &self,
        text: &str,
        cache: &mut Option<PretokenCache>,
        out: &mut Vec<TokenId>,
    )
        requires
            self.wf(),
            model::plain_fits(self.pipeline(), text@),
            cache_ok(self.pipeline().rules, *old(cache)),
        ensures
            cache_ok(self.pipeline().rules, *final(cache)),
            final(out)@ == old(out)@ + model::plain_tokens(self.pipeline(), text@),
    {
        let normalized = self.normalizer.normalize(text);
        self.encode_sequential_into(cow_str(&normalized), cache, out);
    }

    /// Split text into chunks at whitespace, encode each on its own.
    fn encode_parallel(
        &self,
        text: &str,
        cache: &mut Option<PretokenCache>,
        out: &mut Vec<TokenId>,
    )
        requires
            self.wf(),
            model::chunked_fits(self.pipeline(), text@),
            text.spec_bytes().len() >= PARALLEL_CHUNK_THRESHOLD,
            cache_ok(self.pipeline().rules, *old(cache)),
        ensures
            cache_ok(self.pipeline().rules, *final(cache)),
            final(out)@ == old(out)@ + model::chunked_tokens(self.pipeline(), text@),
    {
        let ghost p = self.pipeline();
        let bytes = text.as_bytes();
        proof {
            vstd::arithmetic::div_mod::lemma_div_non_zero(
                bytes@.len() as int,
                self.workers as int,
            );
        }
        let size: usize = bytes.len() / self.workers;
        let delimiters: [u8; 1] = [0x20];
        assert(delimiters@ =~= seq![0x20u8]);
        let parts = chunks::chunks(bytes, size, delimiters.as_slice());
        let ghost all = model::text_chunks(p, text@);
        if parts.len() <= 1 {
            self.encode_plain_into(text, cache, out);
            return;
        }
        let texts: Vec<&str> = match all_texts(&parts) {
            Some(t) => t,
            None => {
                self.encode_plain_into(text, cache, out);
                return;
            },
        };
        let mut k: usize = 0;
        assert(all.subrange(0, 0) =~= seq![]);
        assert(out@ =~= old(out)@ + seq![]);
        while k < texts.len()
            invariant
                self.wf(),
                model::plain_fits_all(p, all),
                p == self.pipeline(),
                cache_ok(p.rules, *cache),
                k <= texts.len(),
                texts_match(texts@, all),
                out@ == old(out)@ + model::plain_tokens_all(p, all.subrange(0, k as int)),
            decreases texts.len() - k,
        {
            let part: &str = texts[k];
            proof {
                assert(part.spec_bytes() == all[k as int]);
                encode_utf8_decode_utf8(part@);
            }
            self.encode_plain_into(part, cache, out);
            proof {
                let s = all.subrange(0, k + 1);
                assert(s.drop_last() =~= all.subrange(0, k as int));
                assert(s.last() == all[k as int]);
                assert(out@ =~= old(out)@ + model::plain_tokens_all(p, s));
            }
            k = k + 1;
        }
        assert(all.subrange(0, all.len() as int) =~= all);
    }

    /// Inner encoding without added token splitting.
    fn encode_raw_inner(
        &self,
        text: &str,
        cache: &mut Option<PretokenCache>,
        allow_parallel: bool,
        out: &mut Vec<TokenId>,
    )
        requires
            self.wf(),
            model::inner_fits(self.pipeline(), text@, allow_parallel),
            cache_ok(self.pipeline().rules, *old(cache)),
        ensures
            cache_ok(self.pipeline().rules, *final(cache)),
            final(out)@ == old(out)@ + model::inner_tokens(self.pipeline(), text@, allow_parallel),
    {
        if self.pretokenizer.is_some() && allow_parallel && text.as_bytes().len()
            >= PARALLEL_CHUNK_THRESHOLD {
            self.encode_parallel(text, cache, out);
        } else {
            self.encode_plain_into(text, cache, out);
        }
    }

    /// Encode one raw segment of an added-token split, normalizing it with
    /// segment-position awareness.
    fn encode_segment(
        &self,
        segment: &str,
        first: bool,
        cache: &mut Option<PretokenCache>,
        allow_parallel: bool,
        out: &mut Vec<TokenId>,
    )
        requires
            self.wf(),
            model::segment_fits(self.pipeline(), segment@, first, allow_parallel),
            cache_ok(self.pipeline().rules, *old(cache)),
        ensures
            cache_ok(self.pipeline().rules, *final(cache)),
            final(out)@ == old(out)@ + model::segment_tokens(
                self.pipeline(),
                segment@,
                first,
                allow_parallel,
            ),
    {
        if self.pretokenizer.is_none() {
            let normalized = self.normalizer.normalize_segment(segment, first);
            self.encode_bytes_into(cow_str(&normalized), cache, out);
        } else {
            self.encode_raw_inner(segment, cache, allow_parallel, out);
        }
    }

    /// Encode an already-normalized piece (stage 2 of the added-token split).
    fn encode_prenormalized(
        &self,
        piece: &str,
        cache: &mut Option<PretokenCache>,
        allow_parallel: bool,
        out: &mut Vec<TokenId>,
    )
        requires
            self.wf(),
            model::prenormalized_fits(self.pipeline(), piece@, allow_parallel),
            cache_ok(self.pipeline().rules, *old(cache)),
        ensures
            cache_ok(self.pipeline().rules, *final(cache)),
            final(out)@ == old(out)@ + model::prenormalized_tokens(
                self.pipeline(),
                piece@,
                allow_parallel,
            ),
    {
        if self.pretokenizer.is_none() {
            self.encode_bytes_into(piece, cache, out);
        } else {
            self.encode_raw_inner(piece, cache, allow_parallel, out);
        }
    }

    /// Encode one raw segment: split its normalized form where added tokens
    /// are looked for there.
    fn encode_split_segment(
        &self,
        segment: &str,
        first: bool,
        cache: &mut Option<PretokenCache>,
        allow_parallel: bool,
        out: &mut Vec<TokenId>,
    )
        requires
            self.wf(),
            model::split_segment_fits(self.pipeline(), segment@, first, allow_parallel),
            cache_ok(self.pipeline().rules, *old(cache)),
        ensures
            cache_ok(self.pipeline().rules, *final(cache)),
            final(out)@ == old(out)@ + model::split_segment_tokens(
                self.pipeline(),
                segment@,
                first,
                allow_parallel,
            ),
    {
        match &self.norm_added_matcher {
            None => self.encode_segment(segment, first, cache, allow_parallel, out),
            Some(matcher) => {
                let ghost p = self.pipeline();
                let normalized = self.normalizer.normalize_segment(segment, first);
                let n: &str = cow_str(&normalized);
                let ghost b = n.spec_bytes();
                let parts = split_on_added(n, matcher, self.added_tokens_raw.as_slice());
                let ghost all = added::part_views(parts@);
                let mut i: usize = 0;
                assert(all.subrange(0, 0) =~= seq![]);
                assert(out@ =~= old(out)@ + seq![]);
                while i < parts.len()
                    invariant
                        self.wf(),
                        model::norm_parts_fit(p, b, all, allow_parallel),
                        p == self.pipeline(),
                        cache_ok(p.rules, *cache),
                        b == n.spec_bytes(),
                        i <= parts.len(),
                        all == added::part_views(parts@),
                        added::parts_ok(b, all, self.added_tokens_raw@.len() as int),
                        out@ == old(out)@ + model::norm_parts_tokens(
                            p,
                            b,
                            all.subrange(0, i as int),
                            allow_parallel,
                        ),
                    decreases parts.len() - i,
                {
                    let (token, s, e) = parts[i];
                    let ghost before = out@;
                    proof {
                        let sub = all.subrange(0, i + 1);
                        assert(sub.drop_last() =~= all.subrange(0, i as int));
                        assert(sub.last() == all[i as int]);
                        assert(added::part_ok(
                            b,
                            all[i as int],
                            self.added_tokens_raw@.len() as int,
                        ));
                    }
                    match token {
                        Some(k) => {
                            out.push(self.added_tokens_raw[k].id);
                            assert(out@ =~= before + seq![p.added[k as int].id]);
                        },
                        None => {
                            let piece = substr(n, s, e);
                            proof {
                                lemma_part_is_text(b, piece, s as int, e as int);
                            }
                            self.encode_prenormalized(piece, cache, allow_parallel, out);
                        },
                    }
                    assert(out@ =~= old(out)@ + model::norm_parts_tokens(
                        p,
                        b,
                        all.subrange(0, i + 1),
                        allow_parallel,
                    ));
                    i = i + 1;
                }
                assert(all.subrange(0, all.len() as int) =~= all);
            },
        }
    }

    /// The parts that added tokens cut the raw text into.
    pub(super) fn raw_parts_of(&self, text: &str) -> (r: Vec<(Option<usize>, usize, usize)>)
        requires
            self.wf(),
        ensures
            added::part_views(r@) == model::raw_parts(self.pipeline(), text.spec_bytes()),
            added::parts_ok(
                text.spec_bytes(),
                added::part_views(r@),
                self.pipeline().added.len() as int,
            ),
    {
        let ghost b = text.spec_bytes();
        let len: usize = text.as_bytes().len();
        proof {
            encode_utf8_valid_utf8(text@);
            util::lemma_boundary_ends(b);
        }
        match &self.raw_added_matcher {
            Some(matcher) => split_on_added(text, matcher, self.added_tokens_raw.as_slice()),
            None => {
                let mut one: Vec<(Option<usize>, usize, usize)> = Vec::new();
                if len > 0 {
                    one.push((None, 0, len));
                }
                assert(added::part_views(one@) =~= model::raw_parts(self.pipeline(), b));
                one
            },
        }
    }

    /// Encode text after splitting at added token boundaries: first the raw
    /// input on non-normalized tokens, then each segment between them.
    fn encode_with_added_tokens(
        &self,
        text: &str,
        cache: &mut Option<PretokenCache>,
        allow_parallel: bool,
        out: &mut Vec<TokenId>,
    )
        requires
            self.wf(),
            model::raw_parts_fit(
                self.pipeline(),
                text.spec_bytes(),
                model::raw_parts(self.pipeline(), text.spec_bytes()),
                allow_parallel,
            ),
            cache_ok(self.pipeline().rules, *old(cache)),
        ensures
            cache_ok(self.pipeline().rules, *final(cache)),
            final(out)@ == old(out)@ + model::raw_parts_tokens(
                self.pipeline(),
                text.spec_bytes(),
                model::raw_parts(self.pipeline(), text.spec_bytes()),
                allow_parallel,
            ),
    {
        let ghost p = self.pipeline();
        let ghost b = text.spec_bytes();
        let parts = self.raw_parts_of(text);
        let ghost all = model::raw_parts(p, b);
        let mut i: usize = 0;
        assert(all.subrange(0, 0) =~= seq![]);
        assert(out@ =~= old(out)@ + seq![]);
        while i < parts.len()
            invariant
                self.wf(),
                model::raw_parts_fit(p, b, all, allow_parallel),
                p == self.pipeline(),
                cache_ok(p.rules, *cache),
                b == text.spec_bytes(),
                i <= parts.len(),
                all == added::part_views(parts@),
                added::parts_ok(b, all, self.added_tokens_raw@.len() as int),
                out@ == old(out)@ + model::raw_parts_tokens(
                    p,
                    b,
                    all.subrange(0, i as int),
                    allow_parallel,
                ),
            decreases parts.len() - i,
        {
            let (token, s, e) = parts[i];
            let ghost before = out@;
            proof {
                let sub = all.subrange(0, i + 1);
                assert(sub.drop_last() =~= all.subrange(0, i as int));
                assert(sub.last() == all[i as int]);
                assert(added::part_ok(b, all[i as int], self.added_tokens_raw@.len() as int));
            }
            match token {
                Some(k) => {
                    out.push(self.added_tokens_raw[k].id);
                    assert(out@ =~= before + seq![p.added[k as int].id]);
                },
                None => {
                    let segment = substr(text, s, e);
                    proof {
                        lemma_part_is_text(b, segment, s as int, e as int);
                    }
                    self.encode_split_segment(segment, s == 0, cache, allow_parallel, out);
                },
            }
            assert(out@ =~= old(out)@ + model::raw_parts_tokens(
                p,
                b,
                all.subrange(0, i + 1),
                allow_parallel,
            ));
            i = i + 1;
        }
        assert(all.subrange(0, all.len() as int) =~= all);
    }

    /// Append the tokens of a text: added tokens are looked for first, if
    /// there are any.
    fn encode_raw_dispatch(
        &self,
        text: &str,
        cache: &mut Option<PretokenCache>,
        allow_parallel: bool,
        out: &mut Vec<TokenId>,
    )
        requires
            self.wf(),
            model::encodable(self.pipeline(), text@, allow_parallel),
            cache_ok(self.pipeline().rules, *old(cache)),
        ensures
            cache_ok(self.pipeline().rules, *final(cache)),
            final(out)@ == old(out)@ + model::raw_tokens(self.pipeline(), text@, allow_parallel),
    {
        if self.raw_added_matcher.is_some() || self.norm_added_matcher.is_some() {
            self.encode_with_added_tokens(text, cache, allow_parallel, out);
        } else {
            self.encode_raw_inner(text, cache, allow_parallel, out);
        }
    }
}

// ---- offsets ----

/// Where tokens stand that follow one another from `start` on.
pub open spec fn offsets_from(vocab: Seq<Seq<u8>>, tokens: Seq<TokenId>, start: int) -> Seq<
    (int, int),
>
    decreases tokens.len(),
{
    if tokens.len() == 0 {
        seq![]
    } else {
        let front = tokens.drop_last();
        let s = start + backtracking::token_bytes_of(vocab, front).len();
        offsets_from(vocab, front, start).push((s, s + vocab[tokens.last() as int].len()))
    }
}

/// Where the tokens of the pieces of a text stand.
pub open spec fn piece_offsets(
    r: backtracking::Rules,
    b: Seq<u8>,
    spans: Seq<(int, int)>,
    workers: int,
) -> Seq<(int, int)>
    decreases spans.len(),
{
    if spans.len() == 0 {
        seq![]
    } else {
        let l = spans.last();
        piece_offsets(r, b, spans.drop_last(), workers) + offsets_from(
            r.vocab,
            backtracking::encoding(r, b.subrange(l.0, l.1), workers),
            l.0,
        )
    }
}

/// Where the tokens of a normalized text stand in it.
pub open spec fn normalized_offsets(p: Pipeline, b: Seq<u8>) -> Seq<(int, int)> {
    match p.pretok {
        Some(t) => piece_offsets(p.rules, b, t.spans(b), p.workers),
        None => offsets_from(
            p.rules.vocab,
            backtracking::encoding(p.rules, b, p.workers),
            0,
        ),
    }
}

/// `n` times the offset of a special token.
pub open spec fn no_offsets(n: nat) -> Seq<(usize, usize)> {
    Seq::new(n, |i: int| (0usize, 0usize))
}

/// The offsets of a framed text: the special tokens in front of it and behind
/// it get `(0, 0)`, its own tokens keep theirs.
pub open spec fn placed_offsets(
    f: postprocessor::Frame,
    offsets: Seq<(usize, usize)>,
) -> Seq<(usize, usize)> {
    no_offsets(f.single_prefix.len()) + offsets + no_offsets(f.single_suffix.len())
}

/// Append the offset of a special token `n` times.
fn push_no_offsets(out: &mut Vec<(usize, usize)>, n: usize)
    ensures
        final(out)@ == old(out)@ + no_offsets(n as nat),
{
    let ghost start = out@;
    let mut i: usize = 0;
    assert(out@ =~= start + no_offsets(0));
    while i < n
        invariant
            i <= n,
            out@ == start + no_offsets(i as nat),
        decreases n - i,
    {
        out.push((0, 0));
        i = i + 1;
        assert(out@ =~= start + no_offsets(i as nat));
    }
}

/// The bytes of tokens are those of the ones and of the others.
pub proof fn lemma_token_bytes_concat(vocab: Seq<Seq<u8>>, a: Seq<TokenId>, b: Seq<TokenId>)
    ensures
        backtracking::token_bytes_of(vocab, a + b) == backtracking::token_bytes_of(vocab, a)
            + backtracking::token_bytes_of(vocab, b),
    decreases b.len(),
{
    if b.len() == 0 {
        assert(a + b =~= a);
        assert(backtracking::token_bytes_of(vocab, a) + backtracking::token_bytes_of(vocab, b)
            =~= backtracking::token_bytes_of(vocab, a));
    } else {
        lemma_token_bytes_concat(vocab, a, b.drop_last());
        assert((a + b).drop_last() =~= a + b.drop_last());
        assert(backtracking::token_bytes_of(vocab, a + b) =~= backtracking::token_bytes_of(
            vocab,
            a,
        ) + backtracking::token_bytes_of(vocab, b));
    }
}

/// The tokens of texts are known and take up no more bytes than the texts.
proof fn lemma_bpe_all_size(r: backtracking::Rules, parts: Seq<Seq<u8>>)
    requires
        r.vocab.len() <= u32::MAX,
    ensures
        backtracking::token_bytes_of(r.vocab, backtracking::bpe_all(r, parts)).len()
            <= decoder::total_len(parts),
        decoder::all_known(r.vocab.len() as int, backtracking::bpe_all(r, parts)),
    decreases parts.len(),
{
    if parts.len() > 0 {
        lemma_bpe_all_size(r, parts.drop_last());
        lemma_bpe_size(r, parts.last());
        lemma_token_bytes_concat(
            r.vocab,
            backtracking::bpe_all(r, parts.drop_last()),
            backtracking::bpe(r, parts.last()),
        );
    }
}

proof fn lemma_bpe_size(r: backtracking::Rules, b: Seq<u8>)
    requires
        r.vocab.len() <= u32::MAX,
    ensures
        backtracking::token_bytes_of(r.vocab, backtracking::bpe(r, b)).len() <= b.len(),
        decoder::all_known(r.vocab.len() as int, backtracking::bpe(r, b)),
{
    backtracking::law_bpe_gives_text_back(r, b);
}

proof fn lemma_chunks_size(text: Seq<u8>, pos: int, size: int, d: Seq<u8>)
    requires
        0 <= pos <= text.len(),
        size > 0,
    ensures
        decoder::total_len(chunks::chunks_from(text, pos, size, d)) == text.len() - pos,
    decreases text.len() - pos,
{
    let c = chunks::chunks_from(text, pos, size, d);
    if pos < text.len() {
        let end = chunks::chunk_end(text, pos, size, d);
        chunks::lemma_chunk_end(text, pos, size, d);
        lemma_chunks_size(text, end, size, d);
        lemma_total_front(text.subrange(pos, end), chunks::chunks_from(text, end, size, d));
    }
}

proof fn lemma_total_front(a: Seq<u8>, rest: Seq<Seq<u8>>)
    ensures
        decoder::total_len(seq![a] + rest) == a.len() + decoder::total_len(rest),
    decreases rest.len(),
{
    let all = seq![a] + rest;
    if rest.len() == 0 {
        assert(all.drop_last() =~= seq![]);
        assert(all.last() == a);
        assert(decoder::total_len(all.drop_last()) == 0);
    } else {
        lemma_total_front(a, rest.drop_last());
        assert(all.last() == rest.last());
        assert(all.drop_last() =~= seq![a] + rest.drop_last());
    }
}

/// The tokens of a text are known and take up no more bytes than it.
proof fn lemma_encoding_size(r: backtracking::Rules, b: Seq<u8>, workers: int)
    requires
        r.vocab.len() <= u32::MAX,
        backtracking::workers_ok(b, workers),
    ensures
        backtracking::token_bytes_of(r.vocab, backtracking::encoding(r, b, workers)).len()
            <= b.len(),
        decoder::all_known(r.vocab.len() as int, backtracking::encoding(r, b, workers)),
{
    if b.len() < backtracking::PARALLEL_THRESHOLD {
        lemma_bpe_size(r, b);
    } else {
        vstd::arithmetic::div_mod::lemma_div_non_zero(b.len() as int, workers);
        lemma_bpe_all_size(r, backtracking::worker_chunks(b, workers));
        lemma_chunks_size(b, 0, b.len() as int / workers, backtracking::boundaries());
    }
}

proof fn lemma_prefix_size(vocab: Seq<Seq<u8>>, t: Seq<TokenId>, i: int)
    requires
        0 <= i <= t.len(),
    ensures
        backtracking::token_bytes_of(vocab, t.subrange(0, i)).len()
            <= backtracking::token_bytes_of(vocab, t).len(),
    decreases t.len(),
{
    if i < t.len() {
        lemma_prefix_size(vocab, t.drop_last(), i);
        assert(t.drop_last().subrange(0, i) =~= t.subrange(0, i));
    } else {
        assert(t.subrange(0, i) =~= t);
    }
}

impl Tokenizer {
    /// What encoding a text gives.
    pub open spec fn encoded(&self, s: Seq<char>, special: bool, parallel: bool) -> EncodingView {
        let e = padding::plain_encoding(self.encoded_ids(s, special, parallel));
        match self.pad_params() {
            Some(p) => match p.strategy {
                PaddingStrategy::Fixed(n) => padding::padded_encoding(e, n as int, p),
                PaddingStrategy::BatchLongest => e,
            },
            None => e,
        }
    }

    /// The token ids that encoding a text gives, without padding.
    pub open spec fn encoded_ids(&self, s: Seq<char>, special: bool, parallel: bool) -> Seq<
        TokenId,
    > {
        model::finished_tokens(
            self.post().frame(),
            self.cut_params(),
            model::raw_tokens(self.pipeline(), s, parallel),
            special,
        )
    }

    /// Encode text into an [`Encoding`] with token IDs, attention mask, and type IDs.
    pub fn encode(&self, text: &str, add_special_tokens: bool) -> (r: Encoding)
        requires
            self.wf(),
            model::encodable(self.pipeline(), text@, true),
        ensures
            r.model() == self.encoded(text@, add_special_tokens, true),
    {
        let mut cache: Option<PretokenCache> = None;
        self.encode_inner(text, add_special_tokens, &mut cache, true)
    }

    /// Encode to bare token ids (truncation + special tokens applied, no
    /// attention/type-id buffers).
    pub fn encode_ids(&self, text: &str, add_special_tokens: bool) -> (r: Vec<TokenId>)
        requires
            self.wf(),
            model::encodable(self.pipeline(), text@, true),
        ensures
            r@ == self.encoded_ids(text@, add_special_tokens, true),
    {
        let mut cache: Option<PretokenCache> = None;
        self.encode_ids_ctx(text, add_special_tokens, &mut cache, true)
    }

    /// [`Self::encode_ids`] by way of a pretoken cache. A batch worker does
    /// not share out its texts any further.
    pub fn encode_ids_ctx(
        &self,
        text: &str,
        add_special_tokens: bool,
        cache: &mut Option<PretokenCache>,
        allow_parallel: bool,
    ) -> (r: Vec<TokenId>)
        requires
            self.wf(),
            model::encodable(self.pipeline(), text@, allow_parallel),
            cache_ok(self.pipeline().rules, *old(cache)),
        ensures
            cache_ok(self.pipeline().rules, *final(cache)),
            r@ == self.encoded_ids(text@, add_special_tokens, allow_parallel),
    {
        let mut tokens = self.encode_raw_ctx(text, cache, allow_parallel);
        if let Some(trunc) = self.truncation {
            let special: usize = if add_special_tokens {
                self.post_processor.num_special_tokens_single()
            } else {
                0
            };
            let max_content: usize = if trunc.max_length >= special {
                trunc.max_length - special
            } else {
                0
            };
            truncate_ids(&mut tokens, max_content, trunc.direction);
        }
        if add_special_tokens {
            self.post_processor.process(tokens.as_slice())
        } else {
            tokens
        }
    }

    /// Encode by way of a pretoken cache.
    pub fn encode_inner(
        &self,
        text: &str,
        add_special_tokens: bool,
        cache: &mut Option<PretokenCache>,
        allow_parallel: bool,
    ) -> (r: Encoding)
        requires
            self.wf(),
            model::encodable(self.pipeline(), text@, allow_parallel),
            cache_ok(self.pipeline().rules, *old(cache)),
        ensures
            cache_ok(self.pipeline().rules, *final(cache)),
            r.model() == self.encoded(text@, add_special_tokens, allow_parallel),
    {
        let ids = self.encode_ids_ctx(text, add_special_tokens, cache, allow_parallel);
        let mut encoding = Encoding::from_ids(ids);
        if let Some(pad) = &self.padding {
            if let PaddingStrategy::Fixed(n) = pad.strategy {
                pad_encoding(&mut encoding, n, pad);
            }
        }
        encoding
    }

    /// Append the tokens of one byte string that stands at `start` of a text,
    /// and where each of them stands.
    fn encode_bytes_with_offsets(
        &self,
        bytes: &[u8],
        start: usize,
        tokens: &mut Vec<TokenId>,
        offsets: &mut Vec<(usize, usize)>,
    )
        requires
            self.wf(),
            backtracking::fits(
                self.pipeline().rules.vocab,
                bytes@,
                self.pipeline().workers,
            ),
            start + bytes@.len() <= usize::MAX,
        ensures
            final(tokens)@ == old(tokens)@ + backtracking::encoding(
                self.pipeline().rules,
                bytes@,
                self.pipeline().workers,
            ),
            mask::offsets(final(offsets)@) == mask::offsets(old(offsets)@) + offsets_from(
                self.pipeline().rules.vocab,
                backtracking::encoding(
                    self.pipeline().rules,
                    bytes@,
                    self.pipeline().workers,
                ),
                start as int,
            ),
    {
        let ghost r = self.pipeline().rules;
        let ghost w = self.pipeline().workers;
        proof {
            self.lemma_vocab_small();
            lemma_encoding_size(r, bytes@, w);
        }
        let found = self.encoder.encode(bytes, self.workers);
        let mut pos: usize = start;
        let mut i: usize = 0;
        assert(found@.subrange(0, 0) =~= seq![]);
        assert(mask::offsets(offsets@) =~= mask::offsets(old(offsets)@) + seq![]);
        while i < found.len()
            invariant
                self.wf(),
                r == self.pipeline().rules,
                start + bytes@.len() <= usize::MAX,
                backtracking::token_bytes_of(r.vocab, found@).len() <= bytes@.len(),
                decoder::all_known(r.vocab.len() as int, found@),
                i <= found.len(),
                pos == start + backtracking::token_bytes_of(
                    r.vocab,
                    found@.subrange(0, i as int),
                ).len(),
                mask::offsets(offsets@) == mask::offsets(old(offsets)@) + offsets_from(
                    r.vocab,
                    found@.subrange(0, i as int),
                    start as int,
                ),
            decreases found.len() - i,
        {
            let id: TokenId = found[i];
            let len: usize = self.decoder.token_len(id);
            proof {
                let s = found@.subrange(0, i + 1);
                assert(s.drop_last() =~= found@.subrange(0, i as int));
                assert(s.last() == id);
                lemma_prefix_size(r.vocab, found@, i + 1);
            }
            let ghost before = mask::offsets(offsets@);
            offsets.push((pos, pos + len));
            proof {
                assert(mask::offsets(offsets@) =~= before.push((pos as int, pos + len)));
                assert(mask::offsets(offsets@) =~= mask::offsets(old(offsets)@) + offsets_from(
                    r.vocab,
                    found@.subrange(0, i + 1),
                    start as int,
                ));
            }
            pos = pos + len;
            i = i + 1;
        }
        assert(found@.subrange(0, found@.len() as int) =~= found@);
        push_tokens(tokens, found.as_slice());
    }

    /// The vocabulary of an encoder is small enough for token ids.
    pub(crate) proof fn lemma_vocab_small(&self)
        requires
            self.wf(),
        ensures
            self.pipeline().rules.vocab.len() < 0x100_0000,
    {
        match self.encoder {
            Encoder::Backtracking(e) => e.lemma_vocab_small(),
        }
    }

    /// Core encoding path with byte offset tracking: the tokens, and their
    /// byte ranges in the normalized text.
    fn encode_raw_with_offsets(&self, text: &str) -> (r: (Vec<TokenId>, Vec<(usize, usize)>))
        requires
            self.wf(),
            model::plain_fits(self.pipeline(), text@),
        ensures
            r.0@ == model::plain_tokens(self.pipeline(), text@),
            mask::offsets(r.1@) == normalized_offsets(
                self.pipeline(),
                text::utf8(self.pipeline().normalizer.normal_form(text@)),
            ),
    {
        let ghost p = self.pipeline();
        let normalized = self.normalizer.normalize(text);
        let n: &str = cow_str(&normalized);
        let ghost b = n.spec_bytes();
        let len: usize = n.as_bytes().len();
        let mut tokens: Vec<TokenId> = Vec::new();
        let mut offsets: Vec<(usize, usize)> = Vec::new();
        match &self.pretokenizer {
            None => {
                self.encode_bytes_with_offsets(n.as_bytes(), 0, &mut tokens, &mut offsets);
                assert(tokens@ =~= model::normalized_tokens(p, b));
                assert(mask::offsets(offsets@) =~= normalized_offsets(p, b));
            },
            Some(t) => {
                let spans = t.spans_of(n);
                let ghost all = t.spans(b);
                let mut i: usize = 0;
                assert(all.subrange(0, 0) =~= seq![]);
                assert(mask::offsets(offsets@) =~= seq![]);
                while i < spans.len()
                    invariant
                        self.wf(),
                        model::pieces_fit(p.rules.vocab, b, all, p.workers),
                        p == self.pipeline(),
                        b == n.spec_bytes(),
                        len == b.len(),
                        i <= spans.len(),
                        all == mask::offsets(spans@),
                        forall|j: int|
                            0 <= j < all.len() ==> 0 <= (#[trigger] all[j]).0 < all[j].1 <= b.len(),
                        tokens@ == model::piece_tokens(
                            p.rules,
                            b,
                            all.subrange(0, i as int),
                            p.workers,
                        ),
                        mask::offsets(offsets@) == piece_offsets(
                            p.rules,
                            b,
                            all.subrange(0, i as int),
                            p.workers,
                        ),
                    decreases spans.len() - i,
                {
                    let (s, e) = spans[i];
                    proof {
                        let sub = all.subrange(0, i + 1);
                        assert(sub.drop_last() =~= all.subrange(0, i as int));
                        assert(sub.last() == all[i as int]);
                        assert(all[i as int] == (s as int, e as int));
                    }
                    let piece = slice_subrange(n.as_bytes(), s, e);
                    self.encode_bytes_with_offsets(piece, s, &mut tokens, &mut offsets);
                    i = i + 1;
                }
                assert(all.subrange(0, all.len() as int) =~= all);
            },
        }
        (tokens, offsets)
    }

    /// Encode text with byte offsets for each token.
    ///
    /// Each offset is a `(start, end)` byte range in the normalized input
    /// text. Special tokens get the offset `(0, 0)`.
    pub fn encode_with_offsets(&self, text: &str, add_special_tokens: bool) -> (r: Encoding)
        requires
            self.wf(),
            model::plain_fits(self.pipeline(), text@),
        ensures
            exists|offsets: Seq<(usize, usize)>| #[trigger]
                mask::offsets(offsets) == normalized_offsets(
                    self.pipeline(),
                    text::utf8(self.pipeline().normalizer.normal_form(text@)),
                ) && r.model() == self.encoded_with_offsets(text@, offsets, add_special_tokens),
    {
        let (mut tokens, mut offsets) = self.encode_raw_with_offsets(text);
        let ghost all = offsets@;
        let ghost raw = tokens@;
        if let Some(trunc) = self.truncation {
            let special: usize = if add_special_tokens {
                self.post_processor.num_special_tokens_single()
            } else {
                0
            };
            let max_content: usize = if trunc.max_length >= special {
                trunc.max_length - special
            } else {
                0
            };
            truncate_ids(&mut tokens, max_content, trunc.direction);
            truncate_ids(&mut offsets, max_content, trunc.direction);
        }
        let mut encoding = if add_special_tokens {
            let processed = self.post_processor.process(tokens.as_slice());
            let placed = self.place_offsets(offsets.as_slice());
            Encoding::from_ids_with_offsets(processed, placed)
        } else {
            Encoding::from_ids_with_offsets(tokens, offsets)
        };
        if let Some(pad) = &self.padding {
            if let PaddingStrategy::Fixed(n) = pad.strategy {
                pad_encoding(&mut encoding, n, pad);
            }
        }
        assert(encoding.model() == self.encoded_with_offsets(text@, all, add_special_tokens));
        encoding
    }

    /// What encoding a text with offsets gives, where its tokens stand at
    /// `offsets` before anything is cut or added.
    pub open spec fn encoded_with_offsets(
        &self,
        s: Seq<char>,
        offsets: Seq<(usize, usize)>,
        special: bool,
    ) -> EncodingView {
        let f = self.post().frame();
        let n = if special {
            (f.single_prefix.len() + f.single_suffix.len()) as int
        } else {
            0
        };
        let ids = model::finished_tokens(
            f,
            self.cut_params(),
            model::plain_tokens(self.pipeline(), s),
            special,
        );
        let kept = match self.cut_params() {
            Some(t) => padding::truncated(offsets, model::room(t, n), t.direction),
            None => offsets,
        };
        let e = EncodingView {
            offsets: if special {
                placed_offsets(f, kept)
            } else {
                kept
            },
            ..padding::plain_encoding(ids)
        };
        match self.pad_params() {
            Some(p) => match p.strategy {
                PaddingStrategy::Fixed(n) => padding::padded_encoding(e, n as int, p),
                PaddingStrategy::BatchLongest => e,
            },
            None => e,
        }
    }

    /// The offsets of a framed text, from those of its own tokens.
    fn place_offsets(&self, offsets: &[(usize, usize)]) -> (r: Vec<(usize, usize)>)
        requires
            postprocessor::frame_fits(self.post().frame()),
        ensures
            r@ == placed_offsets(self.post().frame(), offsets@),
    {
        let ghost f = self.post().frame();
        let before: usize = self.post_processor.num_prefix_tokens_single();
        let after: usize = self.post_processor.num_special_tokens_single() - before;
        let mut out: Vec<(usize, usize)> = Vec::new();
        push_no_offsets(&mut out, before);
        let mut i: usize = 0;
        assert(out@ + offsets@.subrange(0, 0) =~= no_offsets(f.single_prefix.len()));
        while i < offsets.len()
            invariant
                i <= offsets.len(),
                out@ == no_offsets(f.single_prefix.len()) + offsets@.subrange(0, i as int),
            decreases offsets.len() - i,
        {
            out.push(offsets[i]);
            i = i + 1;
            assert(out@ =~= no_offsets(f.single_prefix.len()) + offsets@.subrange(0, i as int));
        }
        assert(offsets@.subrange(0, offsets@.len() as int) =~= offsets@);
        push_no_offsets(&mut out, after);
        out
    }

    /// What encoding a pair of texts gives.
    pub open spec fn encoded_pair(&self, a: Seq<char>, b: Seq<char>, special: bool) -> EncodingView {
        let f = self.post().frame();
        let ta = model::raw_tokens(self.pipeline(), a, true);
        let tb = model::raw_tokens(self.pipeline(), b, true);
        let n = if special {
            (f.pair_a_prefix.len() + f.pair_a_suffix.len() + f.pair_b_prefix.len()
                + f.pair_b_suffix.len()) as int
        } else {
            0
        };
        let (xa, xb) = match self.cut_params() {
            Some(t) => {
                let (la, lb) = padding::pair_lengths(
                    ta.len() as int,
                    tb.len() as int,
                    model::room(t, n),
                    t.strategy,
                );
                (
                    padding::truncated(ta, la, t.direction),
                    padding::truncated(tb, lb, t.direction),
                )
            },
            None => (ta, tb),
        };
        let (fa, fb) = if special {
            (postprocessor::framed_first(f, xa), postprocessor::framed_second(f, xb))
        } else {
            (xa, xb)
        };
        EncodingView {
            type_ids: postprocessor::repeated(0, fa.len()) + postprocessor::repeated(1, fb.len()),
            ..padding::plain_encoding(fa + fb)
        }
    }

    /// Encode a pair of texts (e.g. for cross-encoder models).
    pub fn encode_pair(&self, text_a: &str, text_b: &str, add_special_tokens: bool) -> (r: Encoding)
        requires
            self.wf(),
            model::encodable(self.pipeline(), text_a@, true),
            model::encodable(self.pipeline(), text_b@, true),
        ensures
            r.model() == self.encoded_pair(text_a@, text_b@, add_special_tokens),
    {
        let mut tokens_a = self.encode_raw(text_a);
        let mut tokens_b = self.encode_raw(text_b);
        if let Some(trunc) = self.truncation {
            let special: usize = if add_special_tokens {
                self.post_processor.num_special_tokens_pair()
            } else {
                0
            };
            let max_content: usize = if trunc.max_length >= special {
                trunc.max_length - special
            } else {
                0
            };
            truncate_pair(
                &mut tokens_a,
                &mut tokens_b,
                max_content,
                trunc.strategy,
                trunc.direction,
            );
        }
        if add_special_tokens {
            let (ids, type_ids) = self.post_processor.process_pair(
                tokens_a.as_slice(),
                tokens_b.as_slice(),
            );
            Encoding::from_pair(ids, type_ids)
        } else {
            let mut ids: Vec<TokenId> = Vec::new();
            push_tokens(&mut ids, tokens_a.as_slice());
            push_tokens(&mut ids, tokens_b.as_slice());
            let mut type_ids: Vec<u8> = Vec::new();
            push_repeated(&mut type_ids, 0, tokens_a.len());
            push_repeated(&mut type_ids, 1, tokens_b.len());
            assert(ids@ =~= tokens_a@ + tokens_b@);
            assert(type_ids@ =~= postprocessor::repeated(0, tokens_a@.len())
                + postprocessor::repeated(1, tokens_b@.len()));
            Encoding::from_pair(ids, type_ids)
        }
    }

    /// The tokens of a text, without special tokens.
    pub fn encode_raw(&self, text: &str) -> (r: Vec<TokenId>)
        requires
            self.wf(),
            model::encodable(self.pipeline(), text@, true),
        ensures
            r@ == model::raw_tokens(self.pipeline(), text@, true),
    {
        let mut cache: Option<PretokenCache> = None;
        self.encode_raw_ctx(text, &mut cache, true)
    }

    /// The tokens of a text, by way of a pretoken cache.
    pub fn encode_raw_ctx(
        &self,
        text: &str,
        cache: &mut Option<PretokenCache>,
        allow_parallel: bool,
    ) -> (r: Vec<TokenId>)
        requires
            self.wf(),
            model::encodable(self.pipeline(), text@, allow_parallel),
            cache_ok(self.pipeline().rules, *old(cache)),
        ensures
            cache_ok(self.pipeline().rules, *final(cache)),
            r@ == model::raw_tokens(self.pipeline(), text@, allow_parallel),
    {
        let mut tokens: Vec<TokenId> = Vec::new();
        self.encode_raw_dispatch(text, cache, allow_parallel, &mut tokens);
        assert(tokens@ =~= model::raw_tokens(self.pipeline(), text@, allow_parallel));
        tokens
    }

    /// Encode raw bytes directly (bypasses pretokenizer and normalizer).
    pub fn encode_bytes(&self, bytes: &[u8]) -> (r: Vec<TokenId>)
        requires
            self.wf(),
            backtracking::fits(
                self.pipeline().rules.vocab,
                bytes@,
                self.pipeline().workers,
            ),
        ensures
            r@ == backtracking::encoding(
                self.pipeline().rules,
                bytes@,
                self.pipeline().workers,
            ),
    {
        self.encoder.encode(bytes, self.workers)
    }

    /// Count tokens without storing them (no special tokens).
    pub fn count_tokens(&self, text: &str) -> (n: usize)
        requires
            self.wf(),
            model::encodable(self.pipeline(), text@, true),
        ensures
            n == model::raw_tokens(self.pipeline(), text@, true).len(),
    {
        self.encode_raw(text).len()
    }

    /// The parts that added tokens cut the raw text into: the id of an added
    /// token, or nothing, and the byte range.
    pub fn debug_split_added(&self, text: &str) -> (r: Vec<(Option<TokenId>, usize, usize)>)
        requires
            self.wf(),
        ensures
            r@.len() == self.raw_split(text.spec_bytes()).len(),
            forall|i: int|
                0 <= i < r@.len() ==> {
                    let p = self.raw_split(text.spec_bytes())[i];
                    &&& (#[trigger] r@[i]).1 == p.1
                    &&& r@[i].2 == p.2
                    &&& r@[i].0 == match p.0 {
                        Some(k) => Some(self.pipeline().added[k].id),
                        None => None,
                    }
                },
    {
        let ghost b = text.spec_bytes();
        let parts: Vec<(Option<usize>, usize, usize)> = match &self.raw_added_matcher {
            Some(m) => split_on_added(text, m, self.added_tokens_raw.as_slice()),
            None => {
                let one: Vec<(Option<usize>, usize, usize)> = vec![
                    (None, 0, text.as_bytes().len()),
                ];
                assert(added::part_views(one@) =~= self.raw_split(b));
                return vec![(None, 0, text.as_bytes().len())];
            },
        };
        let ghost all = self.raw_split(b);
        let mut out: Vec<(Option<TokenId>, usize, usize)> = Vec::new();
        let mut i: usize = 0;
        while i < parts.len()
            invariant
                self.wf(),
                i <= parts.len(),
                all == added::part_views(parts@),
                added::parts_ok(b, all, self.added_tokens_raw@.len() as int),
                out@.len() == i,
                forall|j: int|
                    0 <= j < i ==> {
                        let p = all[j];
                        &&& (#[trigger] out@[j]).1 == p.1
                        &&& out@[j].2 == p.2
                        &&& out@[j].0 == match p.0 {
                            Some(k) => Some(self.pipeline().added[k].id),
                            None => None,
                        }
                    },
            decreases parts.len() - i,
        {
            let (token, s, e) = parts[i];
            assert(added::part_ok(b, all[i as int], self.added_tokens_raw@.len() as int));
            let id: Option<TokenId> = match token {
                Some(k) => Some(self.added_tokens_raw[k].id),
                None => None,
            };
            out.push((id, s, e));
            i = i + 1;
        }
        out
    }

    /// The parts that added tokens cut the raw text into; the whole text, if
    /// only empty, where none is looked for.
    pub open spec fn raw_split(&self, b: Seq<u8>) -> Seq<added::Part> {
        match self.pipeline().raw {
            Some(_) => model::raw_parts(self.pipeline(), b),
            None => seq![(None, 0int, b.len() as int)],
        }
    }
}

} // verus!
