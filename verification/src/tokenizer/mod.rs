//! High-level tokenizer that combines pre-tokenization with BPE encoding.
use crate::added;
use crate::added::{copy_all, AddedTokenSpec};
use crate::automaton;
use crate::decoder::Decoder;
use crate::encoder::backtracking;
use crate::encoder::Encoder;
use crate::normalizer::{cow_str, Normalizer};
use crate::padding::{PaddingParams, TruncationParams};
use crate::postprocessor;
use crate::postprocessor::PostProcessor;
use crate::pretok;
use crate::pretok::{PretokType, Pretokenizer};
use crate::text;
use crate::tokenizer::model::Pipeline;
use crate::types::TokenId;
use vstd::prelude::*;
use vstd::string::*;
use vstd::utf8::*;

pub mod batch;
pub mod check;
pub mod checked;
pub mod encode;
pub mod laws;
pub mod model;
pub mod settings;
pub mod stream;
pub mod vocab;

verus! {

/// High-level tokenizer combining pre-tokenization, encoding, and decoding.
pub struct Tokenizer {
    encoder: Encoder,
    decoder: Decoder,
    pretokenizer: Option<Pretokenizer>,
    pretokenizer_type: PretokType,
    normalizer: Normalizer,
    post_processor: PostProcessor,
    /// Persisted in .tkz format.
    pad_token_id: Option<TokenId>,
    /// Runtime config, not serialized.
    padding: Option<PaddingParams>,
    /// Runtime config, not serialized.
    truncation: Option<TruncationParams>,
    /// Finds non-normalized added tokens in the raw input. Its ids are places
    /// in `added_tokens_raw`.
    raw_added_matcher: Option<daggrs::DoubleArrayAhoCorasick>,
    /// Finds `normalized` added tokens in normalized segments.
    norm_added_matcher: Option<daggrs::DoubleArrayAhoCorasick>,
    /// Special tokens and their ids.
    special_tokens: Vec<(String, TokenId)>,
    /// The added tokens behind the matchers.
    added_tokens_raw: Vec<AddedTokenSpec>,
    /// The tokenizer was loaded from a file that carries its added tokens.
    added_tokens_serialized: bool,
    /// How many workers a long text is shared among.
    workers: usize,
}

/// What a matcher looks for.
pub open spec fn patterns_of(m: Option<daggrs::DoubleArrayAhoCorasick>) -> Option<
    Seq<automaton::Pattern>,
> {
    match m {
        Some(m) => Some(automaton::matcher_patterns(m)),
        None => None,
    }
}

/// The matcher can be run, and finds one of `n` added tokens after the other.
pub open spec fn matcher_ok(m: Option<daggrs::DoubleArrayAhoCorasick>, n: int) -> bool {
    m matches Some(d) ==> automaton::matcher_compiled(d) && finds_tokens(
        automaton::matcher_patterns(d),
        n,
    )
}

/// The patterns name one of `n` added tokens each, and are found in order.
pub open spec fn finds_tokens(patterns: Seq<automaton::Pattern>, n: int) -> bool {
    added::ids_below(patterns, n) && automaton::finds_in_order(patterns)
}

/// The pattern that an added token is looked for by: nothing for an empty
/// token or for a single byte that is that token anyway.
pub open spec fn is_sought(r: backtracking::Rules, t: added::AddedView) -> bool {
    &&& t.bytes.len() > 0
    &&& !(t.bytes.len() == 1 && backtracking::is_token(r.vocab, t.bytes) && backtracking::bpe(
        r,
        t.bytes,
    ) == seq![t.id])
}

/// The token is looked for in normalized text.
pub open spec fn sought_normalized(t: added::AddedView) -> bool {
    t.normalized && valid_utf8(t.bytes)
}

/// The patterns for the raw text of the first `n` added tokens.
pub open spec fn raw_patterns(
    r: backtracking::Rules,
    tokens: Seq<added::AddedView>,
    n: int,
) -> Seq<automaton::Pattern>
    decreases n,
{
    if n <= 0 {
        seq![]
    } else {
        let before = raw_patterns(r, tokens, n - 1);
        let t = tokens[n - 1];
        if is_sought(r, t) && !sought_normalized(t) {
            before.push((t.bytes, (n - 1) as u32))
        } else {
            before
        }
    }
}

/// The patterns for normalized text of the first `n` added tokens.
pub open spec fn norm_patterns(
    r: backtracking::Rules,
    normalizer: Normalizer,
    tokens: Seq<added::AddedView>,
    n: int,
) -> Seq<automaton::Pattern>
    decreases n,
{
    if n <= 0 {
        seq![]
    } else {
        let before = norm_patterns(r, normalizer, tokens, n - 1);
        let t = tokens[n - 1];
        let form = normalizer.normal_form(model::chars_of(t.bytes));
        if is_sought(r, t) && sought_normalized(t) && form.len() > 0 {
            before.push((text::utf8(form), (n - 1) as u32))
        } else {
            before
        }
    }
}

/// Patterns are looked for only where there are any.
pub open spec fn if_any(p: Seq<automaton::Pattern>) -> Option<Seq<automaton::Pattern>> {
    if p.len() == 0 {
        None
    } else {
        Some(p)
    }
}

/// The tokens are looked for by their patterns, which have room in automata.
pub open spec fn added_fit(p: Pipeline) -> bool {
    let n = p.added.len() as int;
    &&& n <= u32::MAX
    &&& automaton::patterns_fit(raw_patterns(p.rules, p.added, n))
    &&& automaton::patterns_fit(norm_patterns(p.rules, p.normalizer, p.added, n))
    &&& p.raw == if_any(raw_patterns(p.rules, p.added, n))
    &&& p.norm == if_any(norm_patterns(p.rules, p.normalizer, p.added, n))
}

/// The steps of encoding with these added tokens.
pub open spec fn with_added(p: Pipeline, tokens: Seq<added::AddedView>) -> Pipeline {
    let n = tokens.len() as int;
    Pipeline {
        added: tokens,
        raw: if_any(raw_patterns(p.rules, tokens, n)),
        norm: if_any(norm_patterns(p.rules, p.normalizer, tokens, n)),
        ..p
    }
}

/// The patterns of these added tokens have room in automata.
pub open spec fn added_have_room(p: Pipeline, tokens: Seq<added::AddedView>) -> bool {
    let n = tokens.len() as int;
    &&& automaton::patterns_fit(raw_patterns(p.rules, tokens, n))
    &&& automaton::patterns_fit(norm_patterns(p.rules, p.normalizer, tokens, n))
}

impl Tokenizer {
    /// What the steps of encoding go by.
    pub closed spec fn pipeline(&self) -> Pipeline {
        Pipeline {
            rules: self.encoder.rules(),
            normalizer: self.normalizer,
            pretok: self.pretokenizer,
            added: added::models(self.added_tokens_raw@),
            raw: patterns_of(self.raw_added_matcher),
            norm: patterns_of(self.norm_added_matcher),
            workers: self.workers as int,
        }
    }

    pub closed spec fn encoder_part(&self) -> Encoder {
        self.encoder
    }

    pub closed spec fn decoder_part(&self) -> Decoder {
        self.decoder
    }

    pub closed spec fn pretok_type(&self) -> PretokType {
        self.pretokenizer_type
    }

    pub closed spec fn post(&self) -> PostProcessor {
        self.post_processor
    }

    pub closed spec fn pad_token(&self) -> Option<TokenId> {
        self.pad_token_id
    }

    pub closed spec fn pad_params(&self) -> Option<PaddingParams> {
        self.padding
    }

    pub closed spec fn cut_params(&self) -> Option<TruncationParams> {
        self.truncation
    }

    pub closed spec fn specials(&self) -> Seq<(String, TokenId)> {
        self.special_tokens@
    }

    pub closed spec fn from_added_file(&self) -> bool {
        self.added_tokens_serialized
    }

    /// The parts fit each other.
    pub closed spec fn wf(&self) -> bool {
        &&& self.encoder.wf()
        &&& self.decoder.wf()
        &&& self.decoder.tokens() == self.encoder.rules().vocab
        &&& self.normalizer.wf()
        &&& postprocessor::frame_fits(self.post_processor.frame())
        &&& matcher_ok(self.raw_added_matcher, self.added_tokens_raw@.len() as int)
        &&& matcher_ok(self.norm_added_matcher, self.added_tokens_raw@.len() as int)
        &&& 0 < self.workers <= backtracking::PARALLEL_THRESHOLD
        &&& added_fit(self.pipeline())
    }

    /// Every text can be encoded: each byte that texts can hold is a token.
    pub open spec fn complete(&self) -> bool {
        backtracking::complete(self.pipeline().rules.vocab)
    }

    /// A tokenizer of these parts, without added tokens, for one worker.
    pub fn new(
        encoder: Encoder,
        decoder: Decoder,
        pretokenizer_type: PretokType,
        normalizer: Normalizer,
        post_processor: PostProcessor,
    ) -> (r: Self)
        ensures
            encoder.wf() && decoder.wf() && decoder.tokens() == encoder.rules().vocab
                && normalizer.wf() && postprocessor::frame_fits(post_processor.frame())
                ==> r.wf(),
            r.encoder_part() == encoder,
            r.decoder_part() == decoder,
            r.pretok_type() == pretokenizer_type,
            r.post() == post_processor,
            r.pad_token() is None,
            r.pad_params() is None,
            r.cut_params() is None,
            r.specials().len() == 0,
            !r.from_added_file(),
            r.pipeline() == (Pipeline {
                rules: encoder.rules(),
                normalizer,
                pretok: pretok::pretokenizer_of(pretokenizer_type),
                added: seq![],
                raw: None,
                norm: None,
                workers: 1,
            }),
    {
        let pretokenizer = pretokenizer_type.to_pretokenizer();
        let r = Tokenizer {
            encoder,
            decoder,
            pretokenizer,
            pretokenizer_type,
            normalizer,
            post_processor,
            pad_token_id: None,
            padding: None,
            truncation: None,
            raw_added_matcher: None,
            norm_added_matcher: None,
            special_tokens: Vec::new(),
            added_tokens_raw: Vec::new(),
            added_tokens_serialized: false,
            workers: 1,
        };
        assert(r.pipeline().added =~= seq![]);
        r
    }

    /// Share long texts among this many workers.
    pub fn set_workers(&mut self, workers: usize)
        requires
            old(self).wf(),
            0 < workers <= backtracking::PARALLEL_THRESHOLD,
        ensures
            final(self).wf(),
            final(self).pipeline() == (Pipeline {
                workers: workers as int,
                ..old(self).pipeline()
            }),
            final(self).same_settings(*old(self)),
    {
        self.workers = workers;
    }

    /// Nothing but the steps of encoding differs.
    pub open spec fn same_settings(&self, o: Tokenizer) -> bool {
        &&& self.encoder_part() == o.encoder_part()
        &&& self.decoder_part() == o.decoder_part()
        &&& self.pretok_type() == o.pretok_type()
        &&& self.post() == o.post()
        &&& self.pad_token() == o.pad_token()
        &&& self.pad_params() == o.pad_params()
        &&& self.cut_params() == o.cut_params()
        &&& self.specials() == o.specials()
        &&& self.from_added_file() == o.from_added_file()
    }

    /// Set added tokens. Non-normalized tokens are matched on the raw input;
    /// `normalized` tokens are matched on each normalized segment against
    /// their normalized pattern. An empty list changes nothing.
    pub fn set_added_tokens(&mut self, tokens: &[AddedTokenSpec])
        requires
            old(self).wf(),
            tokens@.len() <= u32::MAX,
            added_have_room(old(self).pipeline(), added::models(tokens@)),
        ensures
            final(self).wf(),
            final(self).same_settings(*old(self)),
            final(self).pipeline() == if tokens@.len() == 0 {
                old(self).pipeline()
            } else {
                with_added(old(self).pipeline(), added::models(tokens@))
            },
    {
        let r = self.try_set_added_tokens(tokens);
        assert(r);
    }

    /// [`Self::set_added_tokens`] where the patterns have room in an
    /// automaton; else nothing changes and the answer is `false`.
    pub fn try_set_added_tokens(&mut self, tokens: &[AddedTokenSpec]) -> (ok: bool)
        requires
            old(self).pipeline().normalizer.wf(),
            tokens@.len() <= u32::MAX,
        ensures
            final(self).same_settings(*old(self)),
            final(self).pipeline().rules == old(self).pipeline().rules,
            final(self).pipeline().normalizer == old(self).pipeline().normalizer,
            final(self).pipeline().pretok == old(self).pipeline().pretok,
            final(self).pipeline().workers == old(self).pipeline().workers,
            ok && tokens@.len() > 0 ==> final(self).pipeline().added == added::models(tokens@),
            !ok || tokens@.len() == 0 ==> *final(self) == *old(self),
            old(self).wf() ==> final(self).wf(),
            old(self).wf() || old(self).encoder_part().looks_up() ==> {
                &&& ok == (tokens@.len() == 0 || added_have_room(
                    old(self).pipeline(),
                    added::models(tokens@),
                ))
                &&& final(self).pipeline() == if !ok || tokens@.len() == 0 {
                    old(self).pipeline()
                } else {
                    with_added(old(self).pipeline(), added::models(tokens@))
                }
            },
    {
        if tokens.len() == 0 {
            return true;
        }
        proof {
            if self.wf() {
                self.encoder.lemma_looks_up();
            }
        }
        let ghost r = self.encoder.rules();
        let ghost nz = self.normalizer;
        let ghost t = added::models(tokens@);
        let ghost n = tokens@.len() as int;
        let mut raw_trie = automaton::new_trie();
        let mut norm_trie = automaton::new_trie();
        let mut raw_size: usize = 0;
        let mut norm_size: usize = 0;
        let mut raw_count: usize = 0;
        let mut norm_count: usize = 0;
        let mut i: usize = 0;
        while i < tokens.len()
            invariant
                *self == *old(self),
                self.normalizer.wf(),
                r == self.encoder.rules(),
                nz == self.normalizer,
                t == added::models(tokens@),
                n == tokens@.len() <= u32::MAX,
                i <= n,
                self.wf() ==> self.encoder.looks_up(),
                self.encoder.looks_up() ==> automaton::trie_patterns(raw_trie) == raw_patterns(
                    r,
                    t,
                    i as int,
                ),
                self.encoder.looks_up() ==> automaton::trie_patterns(norm_trie) == norm_patterns(
                    r,
                    nz,
                    t,
                    i as int,
                ),
                raw_size == automaton::patterns_size(automaton::trie_patterns(raw_trie))
                    < automaton::PATTERN_ROOM,
                norm_size == automaton::patterns_size(automaton::trie_patterns(norm_trie))
                    < automaton::PATTERN_ROOM,
                raw_count == automaton::trie_patterns(raw_trie).len() <= i,
                norm_count == automaton::trie_patterns(norm_trie).len() <= i,
                added::ids_below(automaton::trie_patterns(raw_trie), i as int),
                added::ids_below(automaton::trie_patterns(norm_trie), i as int),
            decreases tokens.len() - i,
        {
            let tok = &tokens[i];
            assert(t[i as int] == tok.model());
            let bytes = tok.bytes.as_slice();
            proof {
                lemma_pattern_steps(r, nz, t, i as int, n);
            }
            let ghost raw_before = automaton::trie_patterns(raw_trie);
            let ghost norm_before = automaton::trie_patterns(norm_trie);
            if bytes.len() > 0 && !self.stands_for(bytes, tok.id) {
                let as_text: Option<&str> = if tok.normalized {
                    match core::str::from_utf8(bytes) {
                        Ok(s) => Some(s),
                        Err(_) => None,
                    }
                } else {
                    None
                };
                match as_text {
                    Some(s) => {
                        let pattern = self.normalizer.normalize(s);
                        let p = cow_str(&pattern);
                        proof {
                            encode_utf8_decode_utf8(s@);
                            lemma_empty_text(p@);
                        }
                        let pb = p.as_bytes();
                        if pb.len() > 0 {
                            if automaton::PATTERN_ROOM - norm_size <= automaton::PATTERN_COST
                                || pb.len() >= automaton::PATTERN_ROOM - norm_size
                                - automaton::PATTERN_COST {
                                return false;
                            }
                            assert(norm_before.push((pb@, i as u32)).drop_last()
                                =~= norm_before);
                            automaton::add_pattern(&mut norm_trie, pb, i as u32);
                            norm_size = norm_size + pb.len() + automaton::PATTERN_COST;
                            norm_count = norm_count + 1;
                        }
                    },
                    None => {
                        if automaton::PATTERN_ROOM - raw_size <= automaton::PATTERN_COST
                            || bytes.len() >= automaton::PATTERN_ROOM - raw_size
                            - automaton::PATTERN_COST {
                            return false;
                        }
                        assert(raw_before.push((bytes@, i as u32)).drop_last() =~= raw_before);
                        automaton::add_pattern(&mut raw_trie, bytes, i as u32);
                        raw_size = raw_size + bytes.len() + automaton::PATTERN_COST;
                        raw_count = raw_count + 1;
                    },
                }
            }
            i = i + 1;
        }
        self.added_tokens_raw = copy_all(tokens);
        assert(added::models(self.added_tokens_raw@).len() == t.len());
        self.raw_added_matcher = if raw_count > 0 {
            Some(automaton::compile(raw_trie))
        } else {
            None
        };
        self.norm_added_matcher = if norm_count > 0 {
            Some(automaton::compile(norm_trie))
        } else {
            None
        };
        true
    }

    /// Is a single byte the token `id` anyway?
    fn stands_for(&self, bytes: &[u8], id: TokenId) -> (r: bool)
        requires
            bytes@.len() > 0,
        ensures
            self.encoder.looks_up() ==> r == (bytes@.len() == 1 && backtracking::is_token(
                self.encoder.rules().vocab,
                bytes@,
            ) && backtracking::bpe(self.encoder.rules(), bytes@) == seq![id]),
    {
        if bytes.len() != 1 {
            return false;
        }
        match self.encoder.whole_token(bytes) {
            Some(t) => {
                assert(seq![t][0] == t);
                assert(seq![id][0] == id);
                t == id
            },
            None => false,
        }
    }
}

/// A text without characters is a text without bytes.
proof fn lemma_empty_text(s: Seq<char>)
    ensures
        text::utf8(s).len() == 0 <==> s.len() == 0,
{
    if s.len() > 0 {
        encode_utf8_first_scalar(s);
    }
}

/// The patterns of one more added token, and how the sizes grow.
proof fn lemma_pattern_steps(
    r: backtracking::Rules,
    nz: Normalizer,
    t: Seq<added::AddedView>,
    i: int,
    n: int,
)
    requires
        0 <= i < n,
    ensures
        ({
            let a = raw_patterns(r, t, i);
            let b = raw_patterns(r, t, i + 1);
            &&& b == a || (b.drop_last() == a && b.len() == a.len() + 1 && b.last() == (
                t[i].bytes,
                i as u32,
            ))
            &&& automaton::patterns_size(b) >= automaton::patterns_size(a)
            &&& automaton::patterns_size(raw_patterns(r, t, n)) >= automaton::patterns_size(b)
        }),
        ({
            let a = norm_patterns(r, nz, t, i);
            let b = norm_patterns(r, nz, t, i + 1);
            &&& b == a || (b.drop_last() == a && b.len() == a.len() + 1 && b.last().1 == i as u32)
            &&& automaton::patterns_size(b) >= automaton::patterns_size(a)
            &&& automaton::patterns_size(norm_patterns(r, nz, t, n)) >= automaton::patterns_size(b)
        }),
    decreases n - i,
{
    let a = raw_patterns(r, t, i);
    let b = raw_patterns(r, t, i + 1);
    if b != a {
        assert(b.drop_last() =~= a);
    }
    let c = norm_patterns(r, nz, t, i);
    let d = norm_patterns(r, nz, t, i + 1);
    if d != c {
        assert(d.drop_last() =~= c);
    }
    if i + 1 < n {
        lemma_pattern_steps(r, nz, t, i + 1, n);
    }
}

/// The added tokens are the same, but for what is special among them.
pub open spec fn same_but_special(a: Seq<added::AddedView>, b: Seq<added::AddedView>) -> bool {
    &&& a.len() == b.len()
    &&& forall|i: int|
        0 <= i < a.len() ==> #[trigger] a[i] == (added::AddedView { special: a[i].special, ..b[i] })
}

/// The normalizers make the same of every text.
pub open spec fn same_forms(a: Normalizer, b: Normalizer) -> bool {
    forall|s: Seq<char>, first: bool| a.segment_form(s, first) == b.segment_form(s, first)
}

/// What added tokens are looked for by depends on the vocabulary, on what the
/// normalizer makes of texts, and not on what is special among them.
pub proof fn law_patterns_alike(
    r: backtracking::Rules,
    q: backtracking::Rules,
    nr: Normalizer,
    nq: Normalizer,
    a: Seq<added::AddedView>,
    b: Seq<added::AddedView>,
    n: int,
)
    requires
        r.vocab == q.vocab,
        r.vocab.len() <= u32::MAX,
        same_forms(nr, nq),
        same_but_special(a, b),
        0 <= n <= a.len(),
    ensures
        raw_patterns(r, a, n) == raw_patterns(q, b, n),
        norm_patterns(r, nr, a, n) == norm_patterns(q, nq, b, n),
    decreases n,
{
    if n > 0 {
        law_patterns_alike(r, q, nr, nq, a, b, n - 1);
        let (t, u) = (a[n - 1], b[n - 1]);
        assert(t == (added::AddedView { special: t.special, ..u }));
        if t.bytes.len() == 1 && backtracking::is_token(r.vocab, t.bytes) {
            backtracking::law_whole_token_by_vocab(r, q, t.bytes);
        }
        assert(is_sought(r, t) == is_sought(q, u));
        let s = model::chars_of(t.bytes);
        assert(nr.segment_form(s, true) == nq.segment_form(s, true));
    }
}

/// The steps of encoding are the same, but for what is special among the
/// added tokens.
pub open spec fn same_steps(p: Pipeline, q: Pipeline) -> bool {
    &&& p.rules == q.rules
    &&& p.pretok == q.pretok
    &&& p.workers == q.workers
    &&& p.raw == q.raw
    &&& p.norm == q.norm
    &&& same_forms(p.normalizer, q.normalizer)
    &&& same_but_special(p.added, q.added)
}

/// The same steps can encode the same texts, and give the same tokens.
pub proof fn law_same_steps(p: Pipeline, q: Pipeline, s: Seq<char>, parallel: bool)
    requires
        same_steps(p, q),
    ensures
        model::encodable(p, s, parallel) == model::encodable(q, s, parallel),
        model::raw_tokens(p, s, parallel) == model::raw_tokens(q, s, parallel),
{
    lemma_same_fits(p, q, s, parallel);
    lemma_same_fits(q, p, s, parallel);
    if p.raw is None && p.norm is None {
        lemma_same_inner(p, q, s, parallel);
    } else {
        let b = text::utf8(s);
        if let Some(patterns) = p.raw {
            lemma_same_parts(b, p.added, q.added, automaton::matches_in(patterns, b), 0, 0);
        }
        lemma_same_raw_parts(p, q, b, model::raw_parts(p, b), parallel);
    }
}

/// What the steps can encode, the same steps can encode.
proof fn lemma_same_fits(p: Pipeline, q: Pipeline, s: Seq<char>, parallel: bool)
    requires
        same_steps(p, q),
    ensures
        model::encodable(p, s, parallel) ==> model::encodable(q, s, parallel),
{
    if model::encodable(p, s, parallel) {
        let b = text::utf8(s);
        lemma_inner_fits(p, q, s, parallel);
        if let Some(patterns) = p.raw {
            lemma_same_parts(b, p.added, q.added, automaton::matches_in(patterns, b), 0, 0);
        }
        let parts = model::raw_parts(q, b);
        if p.raw is Some || p.norm is Some {
            assert forall|i: int|
                0 <= i < parts.len() && (#[trigger] parts[i]).0 is None implies model::split_segment_fits(
                q,
                model::chars_of(b.subrange(parts[i].1, parts[i].2)),
                parts[i].1 == 0,
                parallel,
            ) by {
                lemma_segment_fits(
                    p,
                    q,
                    model::chars_of(b.subrange(parts[i].1, parts[i].2)),
                    parts[i].1 == 0,
                    parallel,
                );
            }
        }
    }
}

proof fn lemma_plain_fits(p: Pipeline, q: Pipeline, s: Seq<char>)
    requires
        same_steps(p, q),
    ensures
        model::plain_fits(p, s) == model::plain_fits(q, s),
{
    assert(p.normalizer.segment_form(s, true) == q.normalizer.segment_form(s, true));
}

proof fn lemma_inner_fits(p: Pipeline, q: Pipeline, s: Seq<char>, parallel: bool)
    requires
        same_steps(p, q),
    ensures
        model::inner_fits(p, s, parallel) ==> model::inner_fits(q, s, parallel),
{
    lemma_plain_fits(p, q, s);
    let parts = model::text_chunks(p, s);
    assert forall|i: int| 0 <= i < parts.len() && model::plain_fits_all(p, parts) implies model::plain_fits(
        q,
        model::chars_of(#[trigger] parts[i]),
    ) by {
        lemma_plain_fits(p, q, model::chars_of(parts[i]));
    }
}

proof fn lemma_segment_fits(p: Pipeline, q: Pipeline, s: Seq<char>, first: bool, parallel: bool)
    requires
        same_steps(p, q),
        model::split_segment_fits(p, s, first, parallel),
    ensures
        model::split_segment_fits(q, s, first, parallel),
{
    assert(p.normalizer.segment_form(s, first) == q.normalizer.segment_form(s, first));
    lemma_inner_fits(p, q, s, parallel);
    if let Some(patterns) = p.norm {
        let b = text::utf8(q.normalizer.segment_form(s, first));
        let m = automaton::matches_in(patterns, b);
        lemma_same_parts(b, p.added, q.added, m, 0, 0);
        let parts = added::parts_from(b, q.added, m, 0, 0);
        assert forall|i: int|
            0 <= i < parts.len() && (#[trigger] parts[i]).0 is None implies model::prenormalized_fits(
            q,
            model::chars_of(b.subrange(parts[i].1, parts[i].2)),
            parallel,
        ) by {
            let t = model::chars_of(b.subrange(parts[i].1, parts[i].2));
            assert(model::prenormalized_fits(p, t, parallel));
            lemma_inner_fits(p, q, t, parallel);
        }
    }
}

proof fn lemma_same_plain_all(p: Pipeline, q: Pipeline, parts: Seq<Seq<u8>>)
    requires
        same_steps(p, q),
    ensures
        model::plain_tokens_all(p, parts) == model::plain_tokens_all(q, parts),
    decreases parts.len(),
{
    if parts.len() > 0 {
        lemma_same_plain_all(p, q, parts.drop_last());
        let s = model::chars_of(parts.last());
        assert(p.normalizer.segment_form(s, true) == q.normalizer.segment_form(s, true));
    }
}

proof fn lemma_same_inner(p: Pipeline, q: Pipeline, s: Seq<char>, parallel: bool)
    requires
        same_steps(p, q),
    ensures
        model::inner_tokens(p, s, parallel) == model::inner_tokens(q, s, parallel),
{
    assert(p.normalizer.segment_form(s, true) == q.normalizer.segment_form(s, true));
    lemma_same_plain_all(p, q, model::text_chunks(p, s));
}

/// The tokens of the parts are among the first `n` added tokens.
spec fn parts_below(parts: Seq<added::Part>, n: int) -> bool {
    forall|i: int|
        0 <= i < parts.len() ==> ((#[trigger] parts[i]).0 matches Some(k) ==> 0 <= k < n)
}

proof fn lemma_same_parts(
    b: Seq<u8>,
    a: Seq<added::AddedView>,
    c: Seq<added::AddedView>,
    m: Seq<(u32, int, int)>,
    i: int,
    pos: int,
)
    requires
        same_but_special(a, c),
    ensures
        added::parts_from(b, a, m, i, pos) == added::parts_from(b, c, m, i, pos),
        parts_below(added::parts_from(b, a, m, i, pos), a.len() as int),
    decreases m.len() - i,
{
    if 0 <= i < m.len() {
        let k = m[i].0 as int;
        if k < a.len() {
            assert(a[k] == (added::AddedView { special: a[k].special, ..c[k] }));
        }
        match added::taken_span(b, a, pos, m[i]) {
            Some(x) => lemma_same_parts(b, a, c, m, i + 1, x.1),
            None => lemma_same_parts(b, a, c, m, i + 1, pos),
        }
    }
}

proof fn lemma_same_norm_parts(
    p: Pipeline,
    q: Pipeline,
    b: Seq<u8>,
    parts: Seq<added::Part>,
    parallel: bool,
)
    requires
        same_steps(p, q),
        parts_below(parts, p.added.len() as int),
    ensures
        model::norm_parts_tokens(p, b, parts, parallel) == model::norm_parts_tokens(
            q,
            b,
            parts,
            parallel,
        ),
    decreases parts.len(),
{
    if parts.len() > 0 {
        let l = parts.last();
        let front = parts.drop_last();
        assert forall|i: int| 0 <= i < front.len() implies ((#[trigger] front[i]).0 matches Some(k)
            ==> 0 <= k < p.added.len()) by {
            assert(front[i] == parts[i]);
        }
        lemma_same_norm_parts(p, q, b, front, parallel);
        match l.0 {
            Some(k) => {
                assert(parts[parts.len() - 1] == l);
                assert(p.added[k] == (added::AddedView {
                    special: p.added[k].special,
                    ..q.added[k]
                }));
            },
            None => lemma_same_inner(p, q, model::chars_of(b.subrange(l.1, l.2)), parallel),
        }
    }
}

proof fn lemma_same_segment(p: Pipeline, q: Pipeline, s: Seq<char>, first: bool, parallel: bool)
    requires
        same_steps(p, q),
    ensures
        model::split_segment_tokens(p, s, first, parallel) == model::split_segment_tokens(
            q,
            s,
            first,
            parallel,
        ),
{
    assert(p.normalizer.segment_form(s, first) == q.normalizer.segment_form(s, first));
    match p.norm {
        None => lemma_same_inner(p, q, s, parallel),
        Some(patterns) => {
            let b = text::utf8(p.normalizer.segment_form(s, first));
            let m = automaton::matches_in(patterns, b);
            lemma_same_parts(b, p.added, q.added, m, 0, 0);
            lemma_same_norm_parts(
                p,
                q,
                b,
                added::parts_from(b, p.added, m, 0, 0),
                parallel,
            );
        },
    }
}

proof fn lemma_same_raw_parts(
    p: Pipeline,
    q: Pipeline,
    b: Seq<u8>,
    parts: Seq<added::Part>,
    parallel: bool,
)
    requires
        same_steps(p, q),
        parts_below(parts, p.added.len() as int),
    ensures
        model::raw_parts_tokens(p, b, parts, parallel) == model::raw_parts_tokens(
            q,
            b,
            parts,
            parallel,
        ),
    decreases parts.len(),
{
    if parts.len() > 0 {
        let l = parts.last();
        let front = parts.drop_last();
        assert forall|i: int| 0 <= i < front.len() implies ((#[trigger] front[i]).0 matches Some(k)
            ==> 0 <= k < p.added.len()) by {
            assert(front[i] == parts[i]);
        }
        lemma_same_raw_parts(p, q, b, front, parallel);
        match l.0 {
            Some(k) => {
                assert(parts[parts.len() - 1] == l);
                assert(p.added[k] == (added::AddedView {
                    special: p.added[k].special,
                    ..q.added[k]
                }));
            },
            None => lemma_same_segment(
                p,
                q,
                model::chars_of(b.subrange(l.1, l.2)),
                l.1 == 0,
                parallel,
            ),
        }
    }
}

} // verus!
