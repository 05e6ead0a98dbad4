//! Unigram encoder: the parts of the Viterbi search that weigh nothing.
//!
//! A Unigram model gives each token a log probability, and a text is encoded
//! as the tokens of the best path through the lattice of all tokens that stand
//! in it. The lattice, the way back along a path, and the way over places that
//! no path reaches are here; scores are carried as the words that hold them,
//! and weighed by the caller.
use crate::automaton;
use crate::automaton::Pattern;
use crate::bytes::to_vec;
use crate::encoder::backtracking;
use crate::encoder::backtracking::MAX_CACHED_TOKEN_LEN;
use crate::encoder::check::tokens_fit;
use crate::encoder::units;
use crate::encoder::units::UnigramPieceCache;
use crate::hf::tokens;
use crate::hf::tokens::parse_fallback_bytes;
use crate::maps;
use crate::types::TokenId;
use vstd::prelude::*;
use vstd::slice::*;

verus! {

/// The id that stands for no token.
pub const NO_BYTE_TOKEN: TokenId = 0xFFFF_FFFF;

/// The length of a UTF-8 character, by its first byte.
pub open spec fn char_len(b: u8) -> int {
    if b < 0xC0 {
        1
    } else if b < 0xE0 {
        2
    } else if b < 0xF0 {
        3
    } else {
        4
    }
}

/// Get the length of a UTF-8 character from its first byte.
pub fn utf8_char_len(b: u8) -> (r: usize)
    ensures
        r == char_len(b),
{
    if b < 0xC0 {
        1
    } else if b < 0xE0 {
        2
    } else if b < 0xF0 {
        3
    } else {
        4
    }
}

/// The byte fallback token of `x` among the entries: the first whose id is one.
pub open spec fn fallback_token(entries: Seq<Pattern>, x: u8) -> TokenId
    decreases entries.len(),
{
    if entries.len() == 0 {
        NO_BYTE_TOKEN
    } else {
        let before = fallback_token(entries.drop_last(), x);
        if before == NO_BYTE_TOKEN && tokens::fallback_byte(entries.last().0) == Some(x) {
            entries.last().1
        } else {
            before
        }
    }
}

/// One entry of a vocabulary: id, bytes, and the word that holds its score.
pub type ScoredToken = (TokenId, Vec<u8>, u64);

/// The bytes and the id of each entry.
pub open spec fn entries(v: Seq<ScoredToken>) -> Seq<Pattern> {
    Seq::new(v.len(), |i: int| (v[i].1@, v[i].0))
}

/// The entries of at most `n` bytes.
pub open spec fn up_to(m: Map<Seq<u8>, TokenId>, n: int) -> Map<Seq<u8>, TokenId> {
    m.restrict(Set::new(|b: Seq<u8>| b.len() <= n))
}

/// What a Unigram encoder looks up.
pub struct Model {
    /// The tokens that stand in a text.
    pub tokens: Map<Seq<u8>, TokenId>,
    /// The tokens that are found without a search.
    pub short: Map<Seq<u8>, TokenId>,
    /// The byte fallback token of each byte.
    pub bytes: Seq<TokenId>,
    /// The token of what has no other.
    pub unk: TokenId,
}

/// One edge of the lattice: where it ends, and its token. What an unknown
/// character weighs is not the score of its token.
#[derive(Clone, Copy, Debug, PartialEq, Eq, Structural)]
pub struct Edge {
    pub end: usize,
    pub token: TokenId,
    pub unknown: bool,
}

/// The tokens that stand in the text from `s` on, up to `e`, the shortest first.
pub open spec fn tokens_from(tokens: Map<Seq<u8>, TokenId>, text: Seq<u8>, s: int, e: int) -> Seq<
    Edge,
>
    decreases e - s,
{
    if e <= s {
        seq![]
    } else if tokens.contains_key(text.subrange(s, e)) {
        tokens_from(tokens, text, s, e - 1).push(
            Edge { end: e as usize, token: tokens[text.subrange(s, e)], unknown: false },
        )
    } else {
        tokens_from(tokens, text, s, e - 1)
    }
}

/// The edges that leave `s`: the tokens that stand there, and the byte's own
/// token; where there is none of either, an unknown character.
pub open spec fn edges_from(m: Model, text: Seq<u8>, s: int) -> Seq<Edge> {
    let found = tokens_from(m.tokens, text, s, text.len() as int);
    let own = m.bytes[text[s] as int];
    if own != NO_BYTE_TOKEN {
        found.push((Edge { end: (s + 1) as usize, token: own, unknown: false }))
    } else if found.len() == 0 {
        let e = s + char_len(text[s]);
        found.push(
            Edge {
                end: (if e < text.len() {
                    e
                } else {
                    text.len() as int
                }) as usize,
                token: m.unk,
                unknown: true,
            },
        )
    } else {
        found
    }
}

/// The path back from `p`, in the order of the text.
pub open spec fn path_to(back: Seq<(TokenId, usize)>, p: int) -> Seq<TokenId>
    decreases p,
{
    if p <= 0 || back[p].1 >= p {
        seq![]
    } else {
        path_to(back, back[p].1 as int).push(back[p].0)
    }
}

/// The tokens, a run of unknown ones as a single one.
pub open spec fn collapsed(t: Seq<TokenId>, unk: TokenId) -> Seq<TokenId>
    decreases t.len(),
{
    if t.len() < 2 {
        t
    } else if t.last() == unk && t[t.len() - 2] == unk {
        collapsed(t.drop_last(), unk)
    } else {
        collapsed(t.drop_last(), unk).push(t.last())
    }
}

/// The longest token that is found without a search, of at most `n` bytes.
pub open spec fn longest_short(m: Model, text: Seq<u8>, s: int, n: int) -> int
    decreases n,
{
    if n <= 0 {
        0
    } else if m.short.contains_key(text.subrange(s, s + n)) {
        n
    } else {
        longest_short(m, text, s, n - 1)
    }
}

/// The longest that is looked for without a search.
pub open spec fn reach(text: Seq<u8>, s: int) -> int {
    if text.len() - s < MAX_CACHED_TOKEN_LEN {
        text.len() - s
    } else {
        MAX_CACHED_TOKEN_LEN as int
    }
}

/// The step over `s`: a token and how far it leads.
pub open spec fn bridge(m: Model, text: Seq<u8>, s: int) -> (TokenId, int) {
    let n = longest_short(m, text, s, reach(text, s));
    let rest = text.subrange(s, text.len() as int);
    let found = automaton::overlaps(m.tokens, rest, rest.len() as int);
    if found.len() > 0 && found[0].1 == 0 && found[0].2 > n {
        (found[0].0, found[0].2)
    } else if n > 0 {
        (m.short[text.subrange(s, s + n)], n)
    } else if m.bytes[text[s] as int] != NO_BYTE_TOKEN {
        (m.bytes[text[s] as int], 1)
    } else {
        (m.unk, 1)
    }
}

/// The tokens that bridge the text from `s` on.
pub open spec fn bridged(m: Model, text: Seq<u8>, s: int) -> Seq<TokenId>
    decreases text.len() - s,
{
    if s < 0 || s >= text.len() || !(0 < bridge(m, text, s).1 <= text.len() - s) {
        seq![]
    } else {
        let (t, n) = bridge(m, text, s);
        seq![t] + bridged(m, text, s + n)
    }
}

/// A list of entries with one more keeps one more.
proof fn lemma_kept_push(p: Seq<Pattern>, x: Pattern)
    ensures
        automaton::kept(p.push(x)) == automaton::kept(p).insert(x.0, x.1),
        automaton::patterns_size(p.push(x)) == automaton::patterns_size(p) + x.0.len()
            + automaton::PATTERN_COST,
{
    assert(p.push(x).drop_last() =~= p);
}

/// The first entries, with one more.
proof fn lemma_entries_step(all: Seq<Pattern>, i: int)
    requires
        0 <= i < all.len(),
    ensures
        all.subrange(0, i + 1) == all.subrange(0, i).push(all[i]),
        all.subrange(0, i + 1).drop_last() == all.subrange(0, i),
{
    assert(all.subrange(0, i + 1) =~= all.subrange(0, i).push(all[i]));
    assert(all.subrange(0, i + 1).drop_last() =~= all.subrange(0, i));
}

/// The automaton of the tokens that are not empty.
fn build_matcher(vocab: &[ScoredToken]) -> (m: daggrs::DoubleArrayAhoCorasick)
    requires
        automaton::patterns_fit(entries(vocab@)),
    ensures
        automaton::matcher_overlapping(m),
        automaton::kept(automaton::matcher_patterns(m)) == automaton::kept(entries(vocab@)).remove(
            Seq::empty(),
        ),
{
    let ghost all = entries(vocab@);
    let mut trie = automaton::new_trie();
    let mut i: usize = 0;
    assert(all.subrange(0, 0) =~= Seq::<Pattern>::empty());
    assert(automaton::kept(automaton::trie_patterns(trie)) =~= automaton::kept(
        all.subrange(0, 0),
    ).remove(Seq::empty()));
    while i < vocab.len()
        invariant
            i <= vocab@.len(),
            all == entries(vocab@),
            automaton::patterns_fit(all),
            automaton::patterns_size(automaton::trie_patterns(trie)) <= automaton::patterns_size(
                all.subrange(0, i as int),
            ),
            forall|k: int|
                0 <= k < automaton::trie_patterns(trie).len() ==> (
                #[trigger] automaton::trie_patterns(trie)[k]).0.len() > 0,
            automaton::kept(automaton::trie_patterns(trie)) == automaton::kept(
                all.subrange(0, i as int),
            ).remove(Seq::empty()),
        decreases vocab.len() - i,
    {
        proof {
            lemma_entries_step(all, i as int);
            lemma_kept_push(all.subrange(0, i as int), all[i as int]);
            backtracking::lemma_patterns_size(all, i + 1);
            lemma_kept_push(automaton::trie_patterns(trie), all[i as int]);
        }
        if vocab[i].1.len() > 0 {
            automaton::add_pattern(&mut trie, vocab[i].1.as_slice(), vocab[i].0);
        } else {
            assert(all[i as int].0 =~= Seq::<u8>::empty());
        }
        assert(automaton::kept(automaton::trie_patterns(trie)) =~= automaton::kept(
            all.subrange(0, i + 1),
        ).remove(Seq::empty()));
        i = i + 1;
    }
    assert(all.subrange(0, all.len() as int) =~= all);
    automaton::compile_overlapping(trie)
}

/// The byte fallback token of each byte.
fn build_byte_tokens(vocab: &[ScoredToken]) -> (r: Vec<TokenId>)
    ensures
        r@.len() == 256,
        forall|x: u8| #[trigger] r@[x as int] == fallback_token(entries(vocab@), x),
{
    let ghost all = entries(vocab@);
    let mut r: Vec<TokenId> = Vec::new();
    while r.len() < 256
        invariant
            r@.len() <= 256,
            forall|x: int| 0 <= x < r@.len() ==> #[trigger] r@[x] == NO_BYTE_TOKEN,
        decreases 256 - r.len(),
    {
        r.push(NO_BYTE_TOKEN);
    }
    let mut i: usize = 0;
    assert(all.subrange(0, 0) =~= Seq::<Pattern>::empty());
    while i < vocab.len()
        invariant
            i <= vocab@.len(),
            all == entries(vocab@),
            r@.len() == 256,
            forall|x: u8|
                #[trigger] r@[x as int] == fallback_token(all.subrange(0, i as int), x),
        decreases vocab.len() - i,
    {
        let ghost before = r@;
        match parse_fallback_bytes(vocab[i].1.as_slice()) {
            Some(v) => {
                let v: usize = v as usize;
                if r[v] == NO_BYTE_TOKEN {
                    r.set(v, vocab[i].0);
                }
            },
            None => {},
        }
        proof {
            lemma_entries_step(all, i as int);
            assert forall|x: u8| #[trigger] r@[x as int] == fallback_token(
                all.subrange(0, i + 1),
                x,
            ) by {
                assert(before[x as int] == fallback_token(all.subrange(0, i as int), x));
            }
        }
        i = i + 1;
    }
    assert(all.subrange(0, all.len() as int) =~= all);
    r
}

/// The tokens that are found without a search.
fn build_token_cache(vocab: &[ScoredToken]) -> (m: foldhash::HashMap<Vec<u8>, TokenId>)
    ensures
        maps::bytes_map(m) == up_to(
            automaton::kept(entries(vocab@)),
            MAX_CACHED_TOKEN_LEN as int,
        ),
{
    let ghost all = entries(vocab@);
    let mut m = maps::new_bytes_map();
    let mut i: usize = 0;
    assert(all.subrange(0, 0) =~= Seq::<Pattern>::empty());
    assert(maps::bytes_map(m) =~= up_to(
        automaton::kept(all.subrange(0, 0)),
        MAX_CACHED_TOKEN_LEN as int,
    ));
    while i < vocab.len()
        invariant
            i <= vocab@.len(),
            all == entries(vocab@),
            maps::bytes_map(m) == up_to(
                automaton::kept(all.subrange(0, i as int)),
                MAX_CACHED_TOKEN_LEN as int,
            ),
        decreases vocab.len() - i,
    {
        proof {
            lemma_entries_step(all, i as int);
            lemma_kept_push(all.subrange(0, i as int), all[i as int]);
        }
        if vocab[i].1.len() <= MAX_CACHED_TOKEN_LEN {
            maps::bytes_map_insert(&mut m, to_vec(vocab[i].1.as_slice()), vocab[i].0);
        }
        assert(maps::bytes_map(m) =~= up_to(
            automaton::kept(all.subrange(0, i + 1)),
            MAX_CACHED_TOKEN_LEN as int,
        ));
        i = i + 1;
    }
    assert(all.subrange(0, all.len() as int) =~= all);
    m
}

/// Some byte has a fallback token.
pub open spec fn any_fallback(bytes: Seq<TokenId>) -> bool {
    exists|x: int| 0 <= x < bytes.len() && #[trigger] bytes[x] != NO_BYTE_TOKEN
}

fn has_fallback(bytes: &[TokenId]) -> (r: bool)
    ensures
        r == any_fallback(bytes@),
{
    let mut i: usize = 0;
    while i < bytes.len()
        invariant
            i <= bytes@.len(),
            forall|x: int| 0 <= x < i ==> #[trigger] bytes@[x] == NO_BYTE_TOKEN,
        decreases bytes.len() - i,
    {
        if bytes[i] != NO_BYTE_TOKEN {
            return true;
        }
        i = i + 1;
    }
    false
}

/// Unigram encoder, apart from the weighing of scores.
pub struct UnigramEncoder {
    /// Aho-Corasick automaton that reports every token in a text.
    matcher: daggrs::DoubleArrayAhoCorasick,
    /// The words that hold the scores, by entry.
    scores: Vec<u64>,
    unk_token: TokenId,
    /// Byte fallback: byte value to token id.
    byte_tokens: Vec<TokenId>,
    /// Token lengths in bytes.
    token_lengths: Vec<u16>,
    /// Short tokens, found without a search.
    token_cache: foldhash::HashMap<Vec<u8>, TokenId>,
    has_byte_fallback: bool,
    unit_split_safe: bool,
}

impl UnigramEncoder {
    /// What the encoder looks up.
    pub closed spec fn model(&self) -> Model {
        Model {
            tokens: automaton::kept(automaton::matcher_patterns(self.matcher)),
            short: maps::bytes_map(self.token_cache),
            bytes: self.byte_tokens@,
            unk: self.unk_token,
        }
    }

    /// The words that hold the scores.
    pub closed spec fn score_words(&self) -> Seq<u64> {
        self.scores@
    }

    /// The token lengths.
    pub closed spec fn lengths(&self) -> Seq<u16> {
        self.token_lengths@
    }

    /// A text may be split at every metaspace.
    pub closed spec fn splits(&self) -> bool {
        self.unit_split_safe
    }

    /// The tables fit each other.
    pub closed spec fn wf(&self) -> bool {
        &&& automaton::matcher_overlapping(self.matcher)
        &&& self.byte_tokens@.len() == 256
        &&& self.has_byte_fallback == any_fallback(self.byte_tokens@)
    }

    /// Create encoder from vocabulary with scores, given as id, bytes and the
    /// word that holds the score. The token bytes are returned too.
    pub fn from_vocab_with_scores(vocab: &[ScoredToken], unk_token: TokenId) -> (r: (
        Self,
        Vec<Vec<u8>>,
    ))
        requires
            automaton::patterns_fit(entries(vocab@)),
        ensures
            r.0.wf(),
            r.0.model().tokens == automaton::kept(entries(vocab@)).remove(Seq::empty()),
            r.0.model().short == up_to(
                automaton::kept(entries(vocab@)),
                MAX_CACHED_TOKEN_LEN as int,
            ),
            r.0.model().unk == unk_token,
            r.0.model().bytes.len() == 256,
            forall|x: u8|
                #[trigger] r.0.model().bytes[x as int] == fallback_token(entries(vocab@), x),
            r.0.score_words() == Seq::new(vocab@.len(), |i: int| vocab@[i].2),
            r.0.lengths() == Seq::new(vocab@.len(), |i: int| vocab@[i].1@.len() as u16),
            r.0.splits() == units::splittable(backtracking::views(r.1@)),
            r.1@.len() == vocab@.len(),
            forall|i: int| 0 <= i < vocab@.len() ==> (#[trigger] r.1@[i])@ == vocab@[i].1@,
    {
        let mut token_bytes: Vec<Vec<u8>> = Vec::new();
        let mut scores: Vec<u64> = Vec::new();
        let mut token_lengths: Vec<u16> = Vec::new();
        let mut i: usize = 0;
        while i < vocab.len()
            invariant
                i <= vocab@.len(),
                token_bytes@.len() == i,
                scores@.len() == i,
                token_lengths@.len() == i,
                forall|k: int| 0 <= k < i ==> (#[trigger] token_bytes@[k])@ == vocab@[k].1@,
                forall|k: int| 0 <= k < i ==> #[trigger] scores@[k] == vocab@[k].2,
                forall|k: int|
                    0 <= k < i ==> #[trigger] token_lengths@[k] == vocab@[k].1@.len() as u16,
            decreases vocab.len() - i,
        {
            token_bytes.push(to_vec(vocab[i].1.as_slice()));
            scores.push(vocab[i].2);
            token_lengths.push(
                #[verifier::truncate]
                (vocab[i].1.len() as u16),
            );
            i = i + 1;
        }
        assert(scores@ =~= Seq::new(vocab@.len(), |i: int| vocab@[i].2));
        assert(token_lengths@ =~= Seq::new(vocab@.len(), |i: int| vocab@[i].1@.len() as u16));
        let byte_tokens = build_byte_tokens(vocab);
        let has_byte_fallback = has_fallback(byte_tokens.as_slice());
        let unit_split_safe = units::compute_unit_split_safe(token_bytes.as_slice());
        (
            UnigramEncoder {
                matcher: build_matcher(vocab),
                scores,
                unk_token,
                byte_tokens,
                token_lengths,
                token_cache: build_token_cache(vocab),
                has_byte_fallback,
                unit_split_safe,
            },
            token_bytes,
        )
    }

    /// Create encoder from pre-built components.
    pub fn from_parts(
        matcher: daggrs::DoubleArrayAhoCorasick,
        scores: Vec<u64>,
        unk_token: TokenId,
        byte_tokens: Vec<TokenId>,
        token_lengths: Vec<u16>,
        token_bytes: &[Vec<u8>],
    ) -> (r: Self)
        requires
            byte_tokens@.len() == 256,
            token_bytes@.len() <= u32::MAX,
        ensures
            automaton::matcher_overlapping(matcher) ==> r.wf(),
            r.model() == (Model {
                tokens: automaton::kept(automaton::matcher_patterns(matcher)),
                short: up_to(
                    automaton::kept(
                        backtracking::vocab_patterns(backtracking::views(token_bytes@)),
                    ),
                    MAX_CACHED_TOKEN_LEN as int,
                ),
                bytes: byte_tokens@,
                unk: unk_token,
            }),
            r.score_words() == scores@,
            r.lengths() == token_lengths@,
            r.splits() == units::splittable(backtracking::views(token_bytes@)),
    {
        let mut numbered: Vec<ScoredToken> = Vec::new();
        let mut i: usize = 0;
        while i < token_bytes.len()
            invariant
                i <= token_bytes@.len() <= u32::MAX,
                numbered@.len() == i,
                forall|k: int|
                    0 <= k < i ==> (#[trigger] numbered@[k]).0 == k && numbered@[k].1@
                        == token_bytes@[k]@,
            decreases token_bytes.len() - i,
        {
            numbered.push((i as u32, to_vec(token_bytes[i].as_slice()), 0));
            i = i + 1;
        }
        assert(entries(numbered@) =~= backtracking::vocab_patterns(
            backtracking::views(token_bytes@),
        ));
        let has_byte_fallback = has_fallback(byte_tokens.as_slice());
        UnigramEncoder {
            matcher,
            scores,
            unk_token,
            byte_tokens,
            token_lengths,
            token_cache: build_token_cache(numbered.as_slice()),
            has_byte_fallback,
            unit_split_safe: units::compute_unit_split_safe(token_bytes),
        }
    }

    /// Create encoder from saved tables; the automaton is that of the tokens.
    /// `None` where not every byte has a place for its fallback token, or the
    /// tokens do not have room in an automaton.
    pub fn from_tables(
        scores: Vec<u64>,
        unk_token: TokenId,
        byte_tokens: Vec<TokenId>,
        token_lengths: Vec<u16>,
        token_bytes: &[Vec<u8>],
    ) -> (r: Option<Self>)
        ensures
            ({
                let p = backtracking::vocab_patterns(backtracking::views(token_bytes@));
                match r {
                    Some(e) => {
                        &&& byte_tokens@.len() == 256
                        &&& automaton::patterns_fit(p)
                        &&& e.wf()
                        &&& e.model() == (Model {
                            tokens: automaton::kept(p).remove(Seq::empty()),
                            short: up_to(automaton::kept(p), MAX_CACHED_TOKEN_LEN as int),
                            bytes: byte_tokens@,
                            unk: unk_token,
                        })
                        &&& e.score_words() == scores@
                        &&& e.lengths() == token_lengths@
                        &&& e.splits() == units::splittable(backtracking::views(token_bytes@))
                    },
                    None => byte_tokens@.len() != 256 || !automaton::patterns_fit(p),
                }
            }),
    {
        if byte_tokens.len() != 256 || !tokens_fit(token_bytes) {
            return None;
        }
        let ghost p = backtracking::vocab_patterns(backtracking::views(token_bytes@));
        proof {
            backtracking::lemma_patterns_size(p, 0);
        }
        let mut numbered: Vec<ScoredToken> = Vec::new();
        let mut i: usize = 0;
        while i < token_bytes.len()
            invariant
                i <= token_bytes@.len() <= u32::MAX,
                numbered@.len() == i,
                forall|k: int|
                    0 <= k < i ==> (#[trigger] numbered@[k]).0 == k && numbered@[k].1@
                        == token_bytes@[k]@,
            decreases token_bytes.len() - i,
        {
            numbered.push((i as u32, to_vec(token_bytes[i].as_slice()), 0));
            i = i + 1;
        }
        assert(entries(numbered@) =~= p);
        let matcher = build_matcher(numbered.as_slice());
        Some(
            Self::from_parts(
                matcher,
                scores,
                unk_token,
                byte_tokens,
                token_lengths,
                token_bytes,
            ),
        )
    }

    /// Get vocabulary size.
    pub fn vocab_size(&self) -> (n: usize)
        ensures
            n == self.score_words().len(),
    {
        self.scores.len()
    }

    /// Get number of base tokens: all of them, since there are no merges.
    pub fn num_base_tokens(&self) -> (n: usize)
        ensures
            n == self.score_words().len(),
    {
        self.scores.len()
    }

    /// Get unknown token ID.
    pub fn unk_token(&self) -> (t: TokenId)
        ensures
            t == self.model().unk,
    {
        self.unk_token
    }

    /// Get the words that hold the token scores.
    pub fn scores(&self) -> (r: &[u64])
        ensures
            r@ == self.score_words(),
    {
        self.scores.as_slice()
    }

    /// Get byte fallback tokens.
    pub fn byte_tokens(&self) -> (r: &[TokenId])
        ensures
            r@ == self.model().bytes,
    {
        self.byte_tokens.as_slice()
    }

    /// Get token lengths.
    pub fn token_lengths(&self) -> (r: &[u16])
        ensures
            r@ == self.lengths(),
    {
        self.token_lengths.as_slice()
    }

    /// Get reference to the automaton.
    pub fn matcher(&self) -> (r: &daggrs::DoubleArrayAhoCorasick)
        ensures
            automaton::kept(automaton::matcher_patterns(*r)) == self.model().tokens,
    {
        &self.matcher
    }

    /// Whether a text is split into units, or searched as a whole since a
    /// token holds a metaspace inside.
    pub fn unit_split_safe(&self) -> (r: bool)
        ensures
            r == self.splits(),
    {
        self.unit_split_safe
    }

    /// Whether some byte has a fallback token. Where none has, an unknown
    /// character weighs more than the score of its token.
    pub fn has_byte_fallback(&self) -> (r: bool)
        requires
            self.wf(),
        ensures
            r == any_fallback(self.model().bytes),
    {
        self.has_byte_fallback
    }

    /// Get token length in bytes.
    pub fn token_len(&self, token: TokenId) -> (n: usize)
        requires
            token < self.lengths().len(),
        ensures
            n == self.lengths()[token as int],
    {
        self.token_lengths[token as usize] as usize
    }

    /// Check if two tokens can appear adjacent: any two can, since there are no
    /// merges.
    pub fn is_valid_pair(&self, _token1: TokenId, _token2: TokenId) -> (r: bool)
        ensures
            r,
    {
        true
    }

    /// The edges that leave each place of a text.
    pub fn edges(&self, text: &[u8]) -> (r: Vec<Vec<Edge>>)
        requires
            self.wf(),
        ensures
            r@.len() == text@.len(),
            forall|s: int|
                0 <= s < text@.len() ==> (#[trigger] r@[s])@ == edges_from(self.model(), text@, s),
    {
        let ghost m = self.model();
        let n = text.len();
        let found = automaton::all_overlaps(&self.matcher, text);
        let ghost all = automaton::overlaps(m.tokens, text@, n as int);
        let mut r: Vec<Vec<Edge>> = Vec::new();
        while r.len() < n
            invariant
                r@.len() <= n,
                forall|s: int| 0 <= s < r@.len() ==> (#[trigger] r@[s])@ == Seq::<Edge>::empty(),
            decreases n - r.len(),
        {
            r.push(Vec::new());
        }
        let mut i: usize = 0;
        proof {
            lemma_overlaps_lie(m.tokens, text@, n as int);
            assert forall|k: int| 0 <= k < found@.len() implies #[trigger] all[k] == (
                found@[k].0,
                found@[k].1 as int,
                found@[k].2 as int,
            ) by {
                let v = found@.map_values(|x: (u32, usize, usize)| (x.0, x.1 as int, x.2 as int));
                assert(v[k] == all[k]);
            }
            assert(all.len() == found@.len());
            assert(all.subrange(0, 0) =~= Seq::<(u32, int, int)>::empty());
        }
        while i < found.len()
            invariant
                i <= found@.len(),
                all.len() == found@.len(),
                r@.len() == n,
                forall|k: int|
                    0 <= k < found@.len() ==> #[trigger] all[k] == (
                        found@[k].0,
                        found@[k].1 as int,
                        found@[k].2 as int,
                    ),
                lie_in(all, n as int),
                forall|s: int|
                    0 <= s < n ==> (#[trigger] r@[s])@ == starting(
                        all.subrange(0, i as int),
                        s,
                    ),
            decreases found.len() - i,
        {
            let (id, start, end) = found[i];
            proof {
                assert(all[i as int] == (id, start as int, end as int));
                assert(all.subrange(0, i + 1).drop_last() =~= all.subrange(0, i as int));
            }
            r[start].push(Edge { end, token: id, unknown: false });
            i = i + 1;
        }
        assert(all.subrange(0, all.len() as int) =~= all);
        let mut s: usize = 0;
        while s < n
            invariant
                s <= n,
                n == text@.len(),
                self.wf(),
                m == self.model(),
                r@.len() == n,
                all == automaton::overlaps(m.tokens, text@, n as int),
                forall|k: int| 0 <= k < s ==> (#[trigger] r@[k])@ == edges_from(m, text@, k),
                forall|k: int| s <= k < n ==> (#[trigger] r@[k])@ == starting(all, k),
            decreases n - s,
        {
            proof {
                lemma_starting(m.tokens, text@, s as int, n as int);
            }
            let none = r[s].len() == 0;
            let own: TokenId = self.byte_tokens[text[s] as usize];
            if own != NO_BYTE_TOKEN {
                r[s].push(Edge { end: s + 1, token: own, unknown: false });
            } else if none {
                let step = utf8_char_len(text[s]);
                let end: usize = if step < n - s {
                    s + step
                } else {
                    n
                };
                r[s].push(Edge { end, token: self.unk_token, unknown: true });
            }
            s = s + 1;
        }
        r
    }
}

/// The edges of the matches that start at `s`, in the order of the matches.
spec fn starting(found: Seq<(u32, int, int)>, s: int) -> Seq<Edge>
    decreases found.len(),
{
    if found.len() == 0 {
        seq![]
    } else if found.last().1 == s {
        starting(found.drop_last(), s).push(
            Edge { end: found.last().2 as usize, token: found.last().0, unknown: false },
        )
    } else {
        starting(found.drop_last(), s)
    }
}

proof fn lemma_starting_add(a: Seq<(u32, int, int)>, b: Seq<(u32, int, int)>, s: int)
    ensures
        starting(a + b, s) == starting(a, s) + starting(b, s),
    decreases b.len(),
{
    if b.len() == 0 {
        assert(a + b =~= a);
        assert(starting(a, s) + starting(b, s) =~= starting(a, s));
    } else {
        lemma_starting_add(a, b.drop_last(), s);
        assert((a + b).drop_last() =~= a + b.drop_last());
        assert(starting(a + b, s) =~= starting(a, s) + starting(b, s));
    }
}

/// Of the tokens that end at `e`, at most one starts at `s`.
proof fn lemma_starting_ending(
    tokens: Map<Seq<u8>, TokenId>,
    text: Seq<u8>,
    s: int,
    lo: int,
    e: int,
)
    ensures
        starting(automaton::overlaps_ending(tokens, text, lo, e), s) == (if lo <= s < e
            && tokens.contains_key(text.subrange(s, e)) {
            seq![Edge { end: e as usize, token: tokens[text.subrange(s, e)], unknown: false }]
        } else {
            Seq::empty()
        }),
    decreases e - lo,
{
    if lo < e {
        lemma_starting_ending(tokens, text, s, lo + 1, e);
        if tokens.contains_key(text.subrange(lo, e)) {
            let one = seq![(tokens[text.subrange(lo, e)], lo, e)];
            lemma_starting_add(one, automaton::overlaps_ending(tokens, text, lo + 1, e), s);
            assert(one.drop_last() =~= Seq::<(u32, int, int)>::empty());
            assert(one.last() == (tokens[text.subrange(lo, e)], lo, e));
            assert(starting(one.drop_last(), s) =~= Seq::<Edge>::empty());
            if lo == s {
                assert(starting(one, s) =~= seq![
                    Edge { end: e as usize, token: tokens[text.subrange(s, e)], unknown: false },
                ]);
            } else {
                assert(starting(one, s) =~= Seq::<Edge>::empty());
            }
            assert(starting(automaton::overlaps_ending(tokens, text, lo, e), s) =~= (if lo <= s < e
                && tokens.contains_key(text.subrange(s, e)) {
                seq![Edge { end: e as usize, token: tokens[text.subrange(s, e)], unknown: false }]
            } else {
                Seq::empty()
            }));
        }
    }
}

/// The matches that start at `s` are the tokens from `s` on.
proof fn lemma_starting(tokens: Map<Seq<u8>, TokenId>, text: Seq<u8>, s: int, e: int)
    requires
        0 <= s,
    ensures
        starting(automaton::overlaps(tokens, text, e), s) == tokens_from(tokens, text, s, e),
    decreases e,
{
    if e > 0 {
        lemma_starting(tokens, text, s, e - 1);
        let a = automaton::overlaps(tokens, text, e - 1);
        let b = automaton::overlaps_ending(tokens, text, 0, e);
        lemma_starting_add(a, b, s);
        lemma_starting_ending(tokens, text, s, 0, e);
        assert(starting(a + b, s) =~= tokens_from(tokens, text, s, e));
    }
}

/// Each match lies in the first `e` bytes.
spec fn lie_in(found: Seq<(u32, int, int)>, e: int) -> bool {
    forall|k: int| 0 <= k < found.len() ==> 0 <= (#[trigger] found[k]).1 < found[k].2 <= e
}

proof fn lemma_ending_lies(tokens: Map<Seq<u8>, TokenId>, text: Seq<u8>, lo: int, e: int)
    requires
        0 <= lo,
    ensures
        lie_in(automaton::overlaps_ending(tokens, text, lo, e), e),
    decreases e - lo,
{
    if lo < e {
        lemma_ending_lies(tokens, text, lo + 1, e);
        let rest = automaton::overlaps_ending(tokens, text, lo + 1, e);
        let all = automaton::overlaps_ending(tokens, text, lo, e);
        assert forall|k: int| 0 <= k < all.len() implies 0 <= (#[trigger] all[k]).1 < all[k].2
            <= e by {
            if tokens.contains_key(text.subrange(lo, e)) {
                if k > 0 {
                    assert(all[k] == rest[k - 1]);
                }
            } else {
                assert(all[k] == rest[k]);
            }
        }
    }
}

/// Every match lies in the text.
proof fn lemma_overlaps_lie(tokens: Map<Seq<u8>, TokenId>, text: Seq<u8>, e: int)
    ensures
        lie_in(automaton::overlaps(tokens, text, e), e),
    decreases e,
{
    if e > 0 {
        lemma_overlaps_lie(tokens, text, e - 1);
        lemma_ending_lies(tokens, text, 0, e);
        let a = automaton::overlaps(tokens, text, e - 1);
        let b = automaton::overlaps_ending(tokens, text, 0, e);
        let all = automaton::overlaps(tokens, text, e);
        assert forall|k: int| 0 <= k < all.len() implies 0 <= (#[trigger] all[k]).1 < all[k].2
            <= e by {
            if k < a.len() {
                assert(all[k] == a[k]);
            } else {
                assert(all[k] == b[k - a.len()]);
            }
        }
    }
}

/// Each back pointer leads to an earlier place.
pub open spec fn leads_back(back: Seq<(TokenId, usize)>, end: int) -> bool {
    forall|p: int| 0 < p <= end ==> (#[trigger] back[p]).1 < p
}

proof fn lemma_collapsed_push(t: Seq<TokenId>, x: TokenId, unk: TokenId)
    ensures
        collapsed(t.push(x), unk) == (if t.len() > 0 && x == unk && t.last() == unk {
            collapsed(t, unk)
        } else {
            collapsed(t, unk).push(x)
        }),
        t.len() > 0 ==> collapsed(t, unk).len() > 0 && collapsed(t, unk).last() == t.last(),
        t.len() == 0 ==> collapsed(t, unk).len() == 0,
    decreases t.len(),
{
    assert(t.push(x).drop_last() =~= t);
    if t.len() == 0 {
        assert(t.push(x) =~= collapsed(t, unk).push(x));
    }
    if t.len() > 1 {
        lemma_collapsed_push(t.drop_last(), x, unk);
    }
}

/// After collapsing, unknown tokens stand single.
pub proof fn law_collapsed_single(t: Seq<TokenId>, unk: TokenId)
    ensures
        units::single_unknowns(collapsed(t, unk), unk),
    decreases t.len(),
{
    if t.len() > 1 {
        let front = t.drop_last();
        law_collapsed_single(front, unk);
        lemma_collapsed_push(front, t.last(), unk);
        assert(front.push(t.last()) =~= t);
        let c = collapsed(front, unk);
        if !(t.last() == unk && front.last() == unk) {
            assert forall|i: int|
                0 < i < c.len() + 1 && #[trigger] c.push(t.last())[i] == unk implies c.push(
                t.last(),
            )[i - 1] != unk by {
                if i < c.len() {
                    assert(c[i] == unk);
                }
            }
        }
    }
}

/// Collect tokens from back pointers. Consecutive unknown tokens are collapsed
/// into a single one.
pub fn collect_tokens_from_backptr(
    backptr: &[(TokenId, usize)],
    end: usize,
    unk_token: TokenId,
) -> (r: Vec<TokenId>)
    requires
        end < backptr@.len(),
        leads_back(backptr@, end as int),
    ensures
        r@ == collapsed(path_to(backptr@, end as int), unk_token),
{
    let mut rev: Vec<TokenId> = Vec::new();
    let mut pos: usize = end;
    while pos > 0
        invariant
            pos <= end < backptr@.len(),
            leads_back(backptr@, end as int),
            path_to(backptr@, end as int) == path_to(backptr@, pos as int) + rev@.reverse(),
        decreases pos,
    {
        let (token, start) = backptr[pos];
        let ghost before = rev@;
        rev.push(token);
        proof {
            assert(before.push(token).reverse() =~= seq![token] + before.reverse());
            assert(path_to(backptr@, pos as int) + before.reverse() =~= path_to(
                backptr@,
                start as int,
            ) + (seq![token] + before.reverse()));
        }
        pos = start;
    }
    let ghost all = path_to(backptr@, end as int);
    assert(all =~= rev@.reverse());
    let n = rev.len();
    let mut out: Vec<TokenId> = Vec::new();
    let mut i: usize = 0;
    assert(all.subrange(0, 0) =~= Seq::<TokenId>::empty());
    while i < n
        invariant
            i <= n,
            n == rev@.len(),
            all == rev@.reverse(),
            out@ == collapsed(all.subrange(0, i as int), unk_token),
        decreases n - i,
    {
        let x = rev[n - 1 - i];
        let m = out.len();
        proof {
            let t = all.subrange(0, i as int);
            assert(all.subrange(0, i + 1) =~= t.push(x));
            lemma_collapsed_push(t, x, unk_token);
        }
        if !(m > 0 && x == unk_token && out[m - 1] == unk_token) {
            out.push(x);
        }
        i = i + 1;
    }
    assert(all.subrange(0, all.len() as int) =~= all);
    out
}

/// A step over a place leads on, and stays in the text.
proof fn lemma_bridge(m: Model, text: Seq<u8>, s: int)
    requires
        0 <= s < text.len(),
    ensures
        0 < bridge(m, text, s).1 <= text.len() - s,
        0 <= longest_short(m, text, s, reach(text, s)) <= reach(text, s),
{
    lemma_longest_short(m, text, s, reach(text, s));
    let rest = text.subrange(s, text.len() as int);
    lemma_overlaps_lie(m.tokens, rest, rest.len() as int);
    let found = automaton::overlaps(m.tokens, rest, rest.len() as int);
    if found.len() > 0 {
        assert(found[0].2 <= rest.len());
    }
}

proof fn lemma_longest_short(m: Model, text: Seq<u8>, s: int, n: int)
    requires
        0 <= n,
    ensures
        0 <= longest_short(m, text, s, n) <= n,
    decreases n,
{
    if n > 0 {
        lemma_longest_short(m, text, s, n - 1);
    }
}

impl UnigramEncoder {
    /// Encode a text, of which some place cannot be reached, step by step: the
    /// longest short token, a longer first match, a byte's token, or the
    /// unknown token for one byte.
    pub fn encode_with_unk_bridging(&self, text: &[u8]) -> (r: Vec<TokenId>)
        requires
            self.wf(),
        ensures
            r@ == bridged(self.model(), text@, 0),
    {
        let ghost m = self.model();
        let n = text.len();
        let mut tokens: Vec<TokenId> = Vec::new();
        let mut pos: usize = 0;
        while pos < n
            invariant
                pos <= n,
                n == text@.len(),
                self.wf(),
                m == self.model(),
                bridged(m, text@, 0) == tokens@ + bridged(m, text@, pos as int),
            decreases n - pos,
        {
            proof {
                lemma_bridge(m, text@, pos as int);
            }
            let mut len: usize = if n - pos < MAX_CACHED_TOKEN_LEN {
                n - pos
            } else {
                MAX_CACHED_TOKEN_LEN
            };
            let mut token: TokenId = self.unk_token;
            let ghost top = len as int;
            assert(top == reach(text@, pos as int));
            while len > 0
                invariant_except_break
                    longest_short(m, text@, pos as int, top) == longest_short(
                        m,
                        text@,
                        pos as int,
                        len as int,
                    ),
                invariant
                    len <= top <= n - pos,
                    n == text@.len(),
                    self.wf(),
                    m == self.model(),
                    pos < n,
                ensures
                    longest_short(m, text@, pos as int, top) == len,
                    len > 0 ==> token == m.short[text@.subrange(pos as int, pos + len)],
                decreases len,
            {
                match maps::bytes_map_get(
                    &self.token_cache,
                    slice_subrange(text, pos, pos + len),
                ) {
                    Some(t) => {
                        token = t;
                        break ;
                    },
                    None => {},
                }
                len = len - 1;
            }
            let rest = slice_subrange(text, pos, n);
            match automaton::first_overlap(&self.matcher, rest) {
                Some((id, start, end)) => {
                    if start == 0 && end > len {
                        len = end;
                        token = id;
                    }
                },
                None => {},
            }
            if len == 0 {
                let own: TokenId = self.byte_tokens[text[pos] as usize];
                if own != NO_BYTE_TOKEN {
                    token = own;
                } else {
                    token = self.unk_token;
                }
                len = 1;
            }
            let ghost before = tokens@;
            tokens.push(token);
            proof {
                assert(bridge(m, text@, pos as int) == (token, len as int));
                assert(before + bridged(m, text@, pos as int) =~= before.push(token) + bridged(
                    m,
                    text@,
                    pos + len,
                ));
            }
            pos = pos + len;
        }
        assert(tokens@ + bridged(m, text@, pos as int) =~= tokens@);
        tokens
    }

    /// Append the tokens of a unit that the cache holds, so that consecutive
    /// unknown tokens stay collapsed.
    pub fn append_cached(
        &self,
        unit: &[u8],
        cache: &mut UnigramPieceCache,
        out: &mut Vec<TokenId>,
    ) -> (r: bool)
        requires
            old(cache).wf(),
        ensures
            final(cache).wf(),
            final(cache).held() == old(cache).held(),
            r == old(cache).held().contains_key(unit@),
            r ==> final(out)@ == units::joined(
                old(out)@,
                old(cache).held()[unit@],
                self.model().unk,
            ),
            !r ==> final(out)@ == old(out)@,
    {
        let at = out.len();
        let ghost before = out@;
        if cache.lookup(unit, out) {
            assert(out@.subrange(0, at as int) =~= before);
            assert(out@.subrange(at as int, out@.len() as int) =~= cache.held()[unit@]);
            units::collapse_unk_join(out, at, self.unk_token);
            true
        } else {
            false
        }
    }

    /// Hold the tokens of a unit in the cache, and append them, so that
    /// consecutive unknown tokens stay collapsed.
    pub fn append_found(
        &self,
        unit: &[u8],
        tokens: &[TokenId],
        cache: &mut UnigramPieceCache,
        out: &mut Vec<TokenId>,
    )
        requires
            old(cache).wf(),
        ensures
            final(cache).wf(),
            final(out)@ == units::joined(old(out)@, tokens@, self.model().unk),
            final(cache).held() == old(cache).held() || final(cache).held() == old(
                cache,
            ).held().insert(unit@, tokens@),
            unit@.len() > 0 && tokens@.len() > 0 && old(cache).tokens_held() + tokens@.len()
                <= u32::MAX ==> final(cache).held() == old(cache).held().insert(unit@, tokens@),
    {
        cache.insert(unit, tokens);
        units::append_collapsing_unk(out, tokens, self.unk_token);
    }
}

} // verus!
