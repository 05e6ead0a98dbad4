//! Backtracking BPE encoder with early exit optimization.
use super::cache;
use super::cache::{PretokenCache, CACHE_KEY_MAX};
use crate::automaton;
use crate::bits;
use crate::bytes::{push_bytes, to_vec};
use crate::chunks;
use crate::maps;
use crate::small;
use crate::small::{TokenStack, Words};
use crate::text;
use crate::types::{Split, TokenId};
use vstd::prelude::*;
use vstd::slice::*;
use vstd::utf8::*;

verus! {

/// Two token ids in one key.
pub open spec fn packed(left: TokenId, right: TokenId) -> u64 {
    ((left as u64) << 32) | (right as u64)
}

/// Pack two token ids into a single key.
pub fn pack_pair(left: TokenId, right: TokenId) -> (r: u64)
    ensures
        r == packed(left, right),
{
    ((left as u64) << 32) | (right as u64)
}

/// Different pairs have different keys.
pub proof fn lemma_packed_injective(a: TokenId, b: TokenId, c: TokenId, d: TokenId)
    by (bit_vector)
    ensures
        (((a as u64) << 32) | (b as u64)) == (((c as u64) << 32) | (d as u64)) ==> a == c && b == d,
{
}

// ---- positions that are still worth entering ----

/// Set of positions, of which some have been struck out.
pub(crate) struct Bitfield {
    bits: Words,
    last: usize,
}

proof fn lemma_bits(x: u64, i: u64, j: u64)
    by (bit_vector)
    requires
        i < 64,
        j < 64,
    ensures
        (0xffff_ffff_ffff_ffffu64 >> i) & 1 == 1,
        i != j ==> ((x & !(1u64 << i)) >> j) & 1 == (x >> j) & 1,
        ((x & !(1u64 << i)) >> i) & 1 == 0,
        (x >> i) & 1 == 0 || (x >> i) & 1 == 1,
{
}

impl Bitfield {
    pub(crate) closed spec fn wf(&self) -> bool {
        small::words_of(self.bits).len() == self.last as int / 64 + 1
    }

    /// The last position.
    pub(crate) closed spec fn end(&self) -> usize {
        self.last
    }

    /// The position `i` has not been struck out.
    pub(crate) closed spec fn has(&self, i: int) -> bool {
        bits::bit(small::words_of(self.bits)[i / 64], i % 64)
    }

    pub(crate) fn new(last: usize) -> (r: Self)
        ensures
            r.wf(),
            r.end() == last,
            forall|i: int| 0 <= i <= last ==> r.has(i),
    {
        let n: usize = last / 64 + 1;
        let r = Bitfield { bits: Words::filled(0xffff_ffff_ffff_ffff, n), last };
        proof {
            assert forall|i: int| 0 <= i <= last implies r.has(i) by {
                lemma_bits(0, (i % 64) as u64, 0);
            }
        }
        r
    }

    pub(crate) fn clear(&mut self, pos: usize)
        requires
            old(self).wf(),
            pos <= old(self).end(),
        ensures
            final(self).wf(),
            final(self).end() == old(self).end(),
            !final(self).has(pos as int),
            forall|i: int| 0 <= i <= old(self).end() && i != pos ==> final(self).has(i) == old(
                self,
            ).has(i),
    {
        let word: usize = pos / 64;
        let at: u64 = (pos % 64) as u64;
        let x: u64 = self.bits.get(word);
        self.bits.set(word, x & !(1u64 << at));
        proof {
            lemma_bits(x, at, 0);
            assert forall|i: int| 0 <= i <= old(self).last && i != pos implies self.has(i) == old(
                self,
            ).has(i) by {
                if i / 64 == pos as int / 64 {
                    lemma_bits(x, at, (i % 64) as u64);
                }
            }
        }
    }

    pub(crate) fn is_set(&self, pos: usize) -> (r: bool)
        requires
            self.wf(),
            pos <= self.end(),
        ensures
            r == self.has(pos as int),
    {
        let word: usize = pos / 64;
        let at: u64 = (pos % 64) as u64;
        let x: u64 = self.bits.get(word);
        proof {
            lemma_bits(x, at, 0);
        }
        (x >> at) & 1 != 0
    }
}

// ---- which tokens may stand next to each other ----

/// What the search needs to know of an encoder: the bytes of the tokens, how
/// they came about, and what each pair merges to.
pub struct Rules {
    pub vocab: Seq<Seq<u8>>,
    pub splits: Seq<Split>,
    pub pairs: Map<u64, TokenId>,
}

/// The token `x` is shorter than the token `i`, or as long and before it.
pub open spec fn comes_down(vocab: Seq<Seq<u8>>, x: int, i: int) -> bool {
    0 <= x < vocab.len() && (vocab[x].len() < vocab[i].len() || (vocab[x].len() == vocab[i].len()
        && x < i))
}

/// Each half of a split is the token itself, or comes down from it. A split in
/// the token itself stands for one that no merge made.
pub open spec fn split_ok(vocab: Seq<Seq<u8>>, s: Split, i: int) -> bool {
    &&& s.left == i || comes_down(vocab, s.left as int, i)
    &&& s.right == i || comes_down(vocab, s.right as int, i)
}

/// Every token has a split.
pub open spec fn splits_ok(vocab: Seq<Seq<u8>>, splits: Seq<Split>) -> bool {
    &&& splits.len() == vocab.len()
    &&& forall|i: int| 0 <= i < splits.len() ==> split_ok(vocab, #[trigger] splits[i], i)
}

/// Can `t1` and `t2` stand next to each other? They cannot if a merge across
/// their border comes before `limit`, the merge that would have hidden it.
/// The border is followed down the right edge of `t1` and the left edge of
/// `t2`, undoing the later of the two merges first.
pub open spec fn pair_ok(r: Rules, t1: int, t2: int, limit: int) -> bool
    decreases r.vocab[t1].len() + r.vocab[t2].len(), t1 + t2,
{
    if !(splits_ok(r.vocab, r.splits) && 0 <= t1 < r.splits.len() && 0 <= t2 < r.splits.len()) {
        true
    } else if r.pairs.contains_key(packed(t1 as u32, t2 as u32)) && r.pairs[packed(
        t1 as u32,
        t2 as u32,
    )] < limit {
        false
    } else {
        proof {
            assert(split_ok(r.vocab, r.splits[t1], t1));
            assert(split_ok(r.vocab, r.splits[t2], t2));
        }
        let right = r.splits[t1].right as int;
        let left = r.splits[t2].left as int;
        if right == t1 && left == t2 {
            true
        } else if left == t2 || (t1 > t2 && right != t1) {
            pair_ok(r, right, t2, t1)
        } else {
            pair_ok(r, t1, left, t2 + 1)
        }
    }
}

// ---- the search ----

/// The patterns of an automaton for a vocabulary.
pub open spec fn vocab_patterns(vocab: Seq<Seq<u8>>) -> Seq<automaton::Pattern> {
    Seq::new(vocab.len(), |i: int| (vocab[i], i as u32))
}

/// The token `k` is the longest one that the text starts with, and of several
/// with its bytes the last one.
pub open spec fn longest_token(vocab: Seq<Seq<u8>>, text: Seq<u8>, k: int) -> bool {
    automaton::longest_prefix_pattern(vocab_patterns(vocab), text, k)
}

/// The longest token that the text starts with.
pub open spec fn next_token(vocab: Seq<Seq<u8>>, text: Seq<u8>) -> Option<int> {
    if exists|k: int| longest_token(vocab, text, k) {
        Some(choose|k: int| longest_token(vocab, text, k))
    } else {
        None
    }
}

/// The longest token that the token `t` starts with, apart from its own bytes.
pub open spec fn shorter_token(vocab: Seq<Seq<u8>>, t: int) -> Option<int> {
    if vocab[t].len() <= 1 {
        None
    } else {
        next_token(vocab, vocab[t].drop_last())
    }
}

/// Every byte of the text is a token.
pub open spec fn covers(vocab: Seq<Seq<u8>>, text: Seq<u8>) -> bool {
    forall|i: int| 0 <= i < text.len() ==> #[trigger] is_token(vocab, seq![text[i]])
}

/// The bytes are those of a token.
pub open spec fn is_token(vocab: Seq<Seq<u8>>, b: Seq<u8>) -> bool {
    exists|k: int| 0 <= k < vocab.len() && #[trigger] vocab[k] == b
}

/// The token `t` stands at `i` in the text.
pub open spec fn stands(vocab: Seq<Seq<u8>>, text: Seq<u8>, i: int, t: int) -> bool {
    &&& 0 <= t < vocab.len()
    &&& 0 < vocab[t].len()
    &&& 0 <= i
    &&& i + vocab[t].len() <= text.len()
    &&& text.subrange(i, i + vocab[t].len()) == vocab[t]
}

/// Tokens lead from the start of the text to `i`.
pub open spec fn led_to(vocab: Seq<Seq<u8>>, text: Seq<u8>, i: int) -> bool
    decreases i,
{
    i == 0 || exists|j: int, t: int|
        0 <= j < i && #[trigger] stands(vocab, text, j, t) && j + vocab[t].len() == i && led_to(
            vocab,
            text,
            j,
        )
}

/// A token of several bytes that starts with no shorter one has none inside,
/// its last byte aside.
pub open spec fn prefix_clear(vocab: Seq<Seq<u8>>, t: int) -> bool {
    vocab[t].len() > 1 && shorter_token(vocab, t) is None ==> forall|i: int, k: int|
        !#[trigger] stands(vocab, vocab[t].drop_last(), i, k)
}

/// A search that has come to `i` finds a token there.
pub open spec fn goes_on(vocab: Seq<Seq<u8>>, text: Seq<u8>, i: int) -> bool {
    &&& next_token(vocab, text.subrange(i, text.len() as int)) is Some
    &&& forall|t: int| #[trigger] stands(vocab, text, i, t) ==> prefix_clear(vocab, t)
}

/// Wherever tokens lead in the text, a token stands.
pub open spec fn searchable(vocab: Seq<Seq<u8>>, text: Seq<u8>) -> bool {
    forall|i: int|
        0 <= i < text.len() && #[trigger] led_to(vocab, text, i) ==> goes_on(vocab, text, i)
}

/// The text is a short token, or can be searched for tokens.
pub open spec fn encodes(vocab: Seq<Seq<u8>>, text: Seq<u8>) -> bool {
    (text.len() <= MAX_CACHED_TOKEN_LEN && is_token(vocab, text)) || searchable(vocab, text)
}

/// The text can be encoded; of a long one, each chunk.
pub open spec fn fits(vocab: Seq<Seq<u8>>, text: Seq<u8>, workers: int) -> bool {
    if text.len() < PARALLEL_THRESHOLD {
        encodes(vocab, text)
    } else {
        let parts = worker_chunks(text, workers);
        forall|i: int| 0 <= i < parts.len() ==> encodes(vocab, #[trigger] parts[i])
    }
}

/// `t` can follow `last`.
pub open spec fn follows(r: Rules, last: Option<int>, t: int) -> bool {
    match last {
        None => true,
        Some(l) => pair_ok(r, l, t, u32::MAX as int),
    }
}

/// A shorter token is shorter.
pub proof fn lemma_shorter(vocab: Seq<Seq<u8>>, t: int)
    requires
        0 <= t < vocab.len(),
    ensures
        shorter_token(vocab, t) matches Some(s) ==> 0 <= s < vocab.len() && 0 < vocab[s].len()
            < vocab[t].len() && automaton::starts_with(vocab[t], vocab[s]),
{
    if let Some(s) = shorter_token(vocab, t) {
        let d = vocab[t].drop_last();
        assert(longest_token(vocab, d, s));
        let p = vocab_patterns(vocab);
        assert(automaton::prefix_pattern(p, d, s));
        assert(p[s].0 == vocab[s]);
        assert(vocab[t].subrange(0, vocab[s].len() as int) =~= d.subrange(
            0,
            vocab[s].len() as int,
        ));
    }
}

/// Depth-first search for the tokens of `b` from `pos` on, behind the token
/// `last`: first `cand`, then the shorter tokens that it starts with. A
/// position from which the search failed once is dead and not entered again.
/// Gives the dead positions, and the tokens if they were found.
pub open spec fn search(
    r: Rules,
    b: Seq<u8>,
    pos: int,
    last: Option<int>,
    cand: Option<int>,
    dead: Set<int>,
) -> (Set<int>, Option<Seq<TokenId>>)
    decreases
            b.len() - pos,
            match cand {
                Some(t) => r.vocab[t].len() + 1,
                None => 0,
            },
{
    match cand {
        None => (dead.insert(pos), None),
        Some(t) => {
            let end = pos + r.vocab[t].len();
            let shorter = shorter_token(r.vocab, t);
            if !(0 <= t < r.vocab.len() && 0 <= pos < end <= b.len()) {
                (dead, None)
            } else if dead.contains(end) || !follows(r, last, t) {
                proof {
                    lemma_shorter(r.vocab, t);
                }
                search(r, b, pos, last, shorter, dead)
            } else if end == b.len() {
                (dead, Some(seq![t as u32]))
            } else {
                let deeper = search(
                    r,
                    b,
                    end,
                    Some(t),
                    next_token(r.vocab, b.subrange(end, b.len() as int)),
                    dead,
                );
                proof {
                    lemma_shorter(r.vocab, t);
                }
                match deeper.1 {
                    Some(rest) => (deeper.0, Some(seq![t as u32] + rest)),
                    None => search(r, b, pos, last, shorter, deeper.0),
                }
            }
        },
    }
}

/// The tokens of a text: those that the search finds, longest tokens first.
pub open spec fn bpe(r: Rules, b: Seq<u8>) -> Seq<TokenId> {
    if b.len() == 0 {
        seq![]
    } else {
        match search(r, b, 0, None, next_token(r.vocab, b), Set::empty()).1 {
            Some(tokens) => tokens,
            None => seq![],
        }
    }
}

/// The bytes of tokens, one after another.
pub open spec fn token_bytes_of(vocab: Seq<Seq<u8>>, tokens: Seq<TokenId>) -> Seq<u8>
    decreases tokens.len(),
{
    if tokens.len() == 0 {
        seq![]
    } else {
        token_bytes_of(vocab, tokens.drop_last()) + vocab[tokens.last() as int]
    }
}

// ---- the encoder ----

/// The longest token length that the cache of whole tokens holds.
pub const MAX_CACHED_TOKEN_LEN: usize = 16;

/// The bytes of byte vectors.
pub open spec fn views(v: Seq<Vec<u8>>) -> Seq<Seq<u8>> {
    Seq::new(v.len(), |i: int| v[i]@)
}

/// `v` is the last token with the bytes `b`.
pub open spec fn last_token(vocab: Seq<Seq<u8>>, b: Seq<u8>, v: int) -> bool {
    &&& 0 <= v < vocab.len()
    &&& vocab[v] == b
    &&& forall|k: int| v < k < vocab.len() ==> vocab[k] != b
}

/// The map holds the short tokens: each byte string of up to
/// [`MAX_CACHED_TOKEN_LEN`] bytes that is a token leads to the last such token.
pub open spec fn holds_short_tokens(m: Map<Seq<u8>, TokenId>, vocab: Seq<Seq<u8>>) -> bool {
    forall|b: Seq<u8>|
        {
            &&& #[trigger] m.contains_key(b) <==> b.len() <= MAX_CACHED_TOKEN_LEN && is_token(
                vocab,
                b,
            )
            &&& m.contains_key(b) ==> last_token(vocab, b, m[b] as int)
        }
}

/// The table of shorter tokens: `u32::MAX` for a token of up to one byte, else
/// the longest token that it starts with, if there is one; `u32::MAX` again
/// where no token stands in it.
pub open spec fn prefixes_ok(vocab: Seq<Seq<u8>>, table: Seq<TokenId>) -> bool {
    &&& table.len() == vocab.len()
    &&& forall|t: int|
        0 <= t < vocab.len() ==> {
            &&& vocab[t].len() <= 1 ==> #[trigger] table[t] == u32::MAX
            &&& shorter_token(vocab, t) matches Some(s) ==> table[t] == s
            &&& shorter_token(vocab, t) is None && prefix_clear(vocab, t) ==> table[t] == u32::MAX
        }
}

/// What a token leads to in the table of shorter tokens: the first match in
/// its bytes but the last.
pub open spec fn prefix_of(vocab: Seq<Seq<u8>>, t: int) -> TokenId {
    let found = automaton::matches_in(vocab_patterns(vocab), vocab[t].drop_last());
    if vocab[t].len() <= 1 || found.len() == 0 {
        u32::MAX
    } else {
        found[0].0
    }
}

/// The table of shorter tokens that is built for a vocabulary.
pub open spec fn prefix_table(vocab: Seq<Seq<u8>>) -> Seq<TokenId> {
    Seq::new(vocab.len(), |t: int| prefix_of(vocab, t))
}

/// The automaton and the table of shorter tokens are those that are built for
/// a vocabulary, which has room in an automaton.
pub open spec fn tables_built(
    vocab: Seq<Seq<u8>>,
    automaton: daggrs::DoubleArrayAhoCorasick,
    prefixes: Seq<TokenId>,
) -> bool {
    &&& automaton::patterns_fit(vocab_patterns(vocab))
    &&& automaton::matcher_bytes(automaton) == automaton::compiled_bytes(vocab_patterns(vocab))
    &&& prefixes == prefix_table(vocab)
}

/// BPE encoder using greedy matching with backtracking and early exit.
///
/// Checks if input is already a single token before running the full
/// backtracking algorithm.
pub struct BacktrackingBytePairEncoder {
    split_table: Vec<Split>,
    /// Maps packed (left, right) to the merged token.
    pair_lookup: foldhash::HashMap<u64, TokenId>,
    token_lengths: Vec<usize>,
    num_base_tokens: usize,
    matcher: daggrs::DoubleArrayAhoCorasick,
    next_prefix_match: Vec<TokenId>,
    /// Maps byte sequence to token id for early exit.
    token_cache: foldhash::HashMap<Vec<u8>, TokenId>,
    /// The bytes of each token.
    tokens: Ghost<Seq<Seq<u8>>>,
}

/// One of the tokens that a text starts with is the longest.
proof fn lemma_longest_exists(patterns: Seq<automaton::Pattern>, text: Seq<u8>, n: int) -> (r:
    Option<int>)
    requires
        0 <= n <= patterns.len(),
    ensures
        match r {
            Some(k) => k < n && automaton::prefix_pattern(patterns, text, k) && forall|j: int|
                j < n && automaton::prefix_pattern(patterns, text, j) ==> (
                #[trigger] patterns[j]).0.len() < patterns[k].0.len() || (patterns[j].0.len()
                    == patterns[k].0.len() && j <= k),
            None => forall|j: int| j < n ==> !automaton::prefix_pattern(patterns, text, j),
        },
    decreases n,
{
    if n <= 0 {
        None
    } else {
        let r = lemma_longest_exists(patterns, text, n - 1);
        if automaton::prefix_pattern(patterns, text, n - 1) {
            match r {
                Some(k) => if patterns[n - 1].0.len() >= patterns[k].0.len() {
                    Some(n - 1)
                } else {
                    Some(k)
                },
                None => Some(n - 1),
            }
        } else {
            r
        }
    }
}

/// The next token of a text is the longest it starts with; where some token
/// is there, there is one.
pub proof fn lemma_next_token(vocab: Seq<Seq<u8>>, text: Seq<u8>)
    ensures
        next_token(vocab, text) matches Some(k) ==> longest_token(vocab, text, k) && 0 <= k
            < vocab.len() && 0 < vocab[k].len() <= text.len() && text.subrange(
            0,
            vocab[k].len() as int,
        ) == vocab[k],
        forall|k: int| longest_token(vocab, text, k) ==> next_token(vocab, text) == Some(k),
        (exists|j: int| automaton::prefix_pattern(vocab_patterns(vocab), text, j)) ==> next_token(
            vocab,
            text,
        ) is Some,
{
    let p = vocab_patterns(vocab);
    assert forall|k: int| longest_token(vocab, text, k) implies next_token(vocab, text) == Some(
        k,
    ) by {
        let c = choose|c: int| longest_token(vocab, text, c);
        assert(longest_token(vocab, text, c));
        assert(automaton::prefix_pattern(p, text, c) && automaton::prefix_pattern(p, text, k));
        assert(p[c].0.len() == p[k].0.len());
    }
    if exists|j: int| automaton::prefix_pattern(p, text, j) {
        let r = lemma_longest_exists(p, text, p.len() as int);
        assert(longest_token(vocab, text, r->0));
    }
}

/// A text of which every byte is a token starts with a token.
pub proof fn lemma_covered_has_next(vocab: Seq<Seq<u8>>, text: Seq<u8>)
    requires
        text.len() > 0,
        is_token(vocab, seq![text[0]]),
    ensures
        next_token(vocab, text) is Some,
{
    let k = choose|k: int| 0 <= k < vocab.len() && #[trigger] vocab[k] == seq![text[0]];
    let p = vocab_patterns(vocab);
    assert(text.subrange(0, 1) =~= seq![text[0]]);
    assert(p[k].0 == vocab[k]);
    assert(automaton::prefix_pattern(p, text, k));
    lemma_next_token(vocab, text);
}

impl BacktrackingBytePairEncoder {
    /// The bytes of each token.
    pub closed spec fn vocab(&self) -> Seq<Seq<u8>> {
        self.tokens@
    }

    /// How each token came about.
    pub closed spec fn splits(&self) -> Seq<Split> {
        self.split_table@
    }

    /// What each pair of tokens merges to.
    pub closed spec fn pairs(&self) -> Map<u64, TokenId> {
        maps::pair_map(self.pair_lookup)
    }

    /// The number of base tokens.
    pub closed spec fn base_tokens(&self) -> usize {
        self.num_base_tokens
    }

    /// What the search needs to know.
    pub open spec fn rules(&self) -> Rules {
        Rules { vocab: self.vocab(), splits: self.splits(), pairs: self.pairs() }
    }

    /// The tables fit the vocabulary.
    pub closed spec fn wf(&self) -> bool {
        &&& automaton::matcher_compiled(self.matcher)
        &&& automaton::kept(automaton::matcher_patterns(self.matcher)) == automaton::kept(
            vocab_patterns(self.vocab()),
        )
        &&& self.vocab().len() < 0x100_0000
        &&& splits_ok(self.vocab(), self.split_table@)
        &&& self.token_lengths@.len() == self.vocab().len()
        &&& forall|i: int|
            0 <= i < self.vocab().len() ==> #[trigger] self.token_lengths@[i]
                == self.vocab()[i].len()
        &&& prefixes_ok(self.vocab(), self.next_prefix_match@)
        &&& tables_built(self.vocab(), self.matcher, self.next_prefix_match@)
        &&& holds_short_tokens(maps::bytes_map(self.token_cache), self.vocab())
    }

    /// Short tokens can be looked up.
    pub closed spec fn looks_up(&self) -> bool {
        &&& self.vocab().len() <= u32::MAX
        &&& holds_short_tokens(maps::bytes_map(self.token_cache), self.vocab())
    }

    /// The token is in the vocabulary.
    pub open spec fn has(&self, t: TokenId) -> bool {
        t < self.vocab().len()
    }

    /// Check if two tokens can appear adjacent in a valid BPE encoding.
    pub fn is_valid_pair(&self, token1: TokenId, token2: TokenId) -> (ok: bool)
        requires
            self.wf(),
            self.has(token1),
            self.has(token2),
        ensures
            ok == pair_ok(self.rules(), token1 as int, token2 as int, u32::MAX as int),
    {
        let ghost r = self.rules();
        let mut t1: TokenId = token1;
        let mut t2: TokenId = token2;
        let mut limit: u32 = u32::MAX;
        loop
            invariant
                self.wf(),
                r == self.rules(),
                self.has(t1),
                self.has(t2),
                pair_ok(r, token1 as int, token2 as int, u32::MAX as int) == pair_ok(
                    r,
                    t1 as int,
                    t2 as int,
                    limit as int,
                ),
            decreases r.vocab[t1 as int].len() + r.vocab[t2 as int].len(), t1 + t2,
        {
            proof {
                assert(split_ok(r.vocab, r.splits[t1 as int], t1 as int));
                assert(split_ok(r.vocab, r.splits[t2 as int], t2 as int));
            }
            if let Some(combined) = maps::pair_map_get(&self.pair_lookup, pack_pair(t1, t2)) {
                if combined < limit {
                    return false;
                }
            }
            let right: TokenId = self.split_table[t1 as usize].right;
            let left: TokenId = self.split_table[t2 as usize].left;
            if right == t1 && left == t2 {
                return true;
            }
            if left == t2 || (t1 > t2 && right != t1) {
                limit = t1;
                t1 = right;
            } else {
                limit = t2 + 1;
                t2 = left;
            }
        }
    }

    /// Get the length of a token in bytes.
    pub fn token_len(&self, token: TokenId) -> (n: usize)
        requires
            self.wf(),
            self.has(token),
        ensures
            n == self.vocab()[token as int].len(),
    {
        self.token_lengths[token as usize]
    }

    /// The longest token that the text starts with.
    pub(crate) fn next_match(&self, text: &[u8]) -> (r: Option<TokenId>)
        requires
            self.wf(),
            text@.len() == 0 || next_token(self.vocab(), text@) is Some,
        ensures
            match r {
                Some(t) => next_token(self.vocab(), text@) == Some(t as int) && self.has(t),
                None => text@.len() == 0 && next_token(self.vocab(), text@) is None,
            },
    {
        proof {
            lemma_next_token(self.vocab(), text@);
            if text@.len() > 0 {
                let p = automaton::matcher_patterns(self.matcher);
                let k = next_token(self.vocab(), text@)->0;
                let i = automaton::lemma_alike(p, vocab_patterns(self.vocab()), text@, k);
                assert(p[i].1 == k);
            }
        }
        match automaton::first_match(&self.matcher, text) {
            Some((id, _, _)) => Some(id),
            None => None,
        }
    }

    /// The longest token that the token starts with, apart from its own bytes.
    fn next_prefix(&self, token: TokenId) -> (r: Option<TokenId>)
        requires
            self.wf(),
            self.has(token),
            prefix_clear(self.vocab(), token as int),
        ensures
            match r {
                Some(t) => shorter_token(self.vocab(), token as int) == Some(t as int) && self.has(
                    t,
                ),
                None => shorter_token(self.vocab(), token as int) is None,
            },
    {
        proof {
            lemma_shorter(self.vocab(), token as int);
        }
        let prefix: TokenId = self.next_prefix_match[token as usize];
        if prefix == u32::MAX {
            None
        } else {
            Some(prefix)
        }
    }
}

// ---- the search, iteratively ----

/// The token on top of a stack.
pub open spec fn top(stack: Seq<TokenId>) -> Option<int> {
    if stack.len() == 0 {
        None
    } else {
        Some(stack.last() as int)
    }
}

/// The first of `t` and the shorter tokens that it starts with that can stand
/// at `pos` behind `last` and does not end at a dead position.
pub open spec fn fitting(
    r: Rules,
    b: Seq<u8>,
    pos: int,
    last: Option<int>,
    t: int,
    dead: Set<int>,
) -> Option<int>
    decreases r.vocab[t].len(),
{
    let end = pos + r.vocab[t].len();
    if !(0 <= t < r.vocab.len() && 0 <= pos < end <= b.len()) {
        None
    } else if dead.contains(end) || !follows(r, last, t) {
        match shorter_token(r.vocab, t) {
            Some(s) => {
                proof {
                    lemma_shorter(r.vocab, t);
                }
                fitting(r, b, pos, last, s, dead)
            },
            None => None,
        }
    } else {
        Some(t)
    }
}

/// What becomes of a search with the tokens `stack` before `pos`, once the
/// search from `pos` on has ended in `res`: where it failed, the last token
/// gives way to a shorter one.
pub open spec fn finish(
    r: Rules,
    b: Seq<u8>,
    stack: Seq<TokenId>,
    pos: int,
    res: (Set<int>, Option<Seq<TokenId>>),
) -> (Set<int>, Option<Seq<TokenId>>)
    decreases stack.len(),
{
    match res.1 {
        Some(rest) => (res.0, Some(stack + rest)),
        None => if stack.len() == 0 {
            (res.0, None)
        } else {
            let t = stack.last() as int;
            let p = pos - r.vocab[t].len();
            let below = stack.drop_last();
            finish(
                r,
                b,
                below,
                p,
                search(r, b, p, top(below), shorter_token(r.vocab, t), res.0),
            )
        },
    }
}

/// The stack holds tokens, and none of the places where one of them ends or
/// starts is dead.
pub open spec fn stack_ok(r: Rules, b: Seq<u8>, stack: Seq<TokenId>, pos: int, dead: Set<int>) -> bool
    decreases stack.len(),
{
    &&& 0 <= pos <= b.len()
    &&& !dead.contains(pos)
    &&& if stack.len() == 0 {
        pos == 0
    } else {
        let t = stack.last() as int;
        &&& 0 <= t < r.vocab.len()
        &&& 0 < r.vocab[t].len() <= pos
        &&& b.subrange(pos - r.vocab[t].len(), pos) == r.vocab[t]
        &&& stack_ok(r, b, stack.drop_last(), pos - r.vocab[t].len(), dead)
    }
}

/// A place behind the stack can die without harm to the stack.
pub proof fn lemma_stack_ok_insert(
    r: Rules,
    b: Seq<u8>,
    stack: Seq<TokenId>,
    pos: int,
    dead: Set<int>,
    p: int,
)
    requires
        stack_ok(r, b, stack, pos, dead),
        pos < p,
    ensures
        stack_ok(r, b, stack, pos, dead.insert(p)),
    decreases stack.len(),
{
    if stack.len() > 0 {
        lemma_stack_ok_insert(
            r,
            b,
            stack.drop_last(),
            pos - r.vocab[stack.last() as int].len(),
            dead,
            p,
        );
    }
}

/// Tokens on a stack lead to where the last of them ends.
pub proof fn lemma_stack_led(r: Rules, b: Seq<u8>, stack: Seq<TokenId>, pos: int, dead: Set<int>)
    requires
        stack_ok(r, b, stack, pos, dead),
    ensures
        led_to(r.vocab, b, pos),
    decreases stack.len(),
{
    if stack.len() > 0 {
        let t = stack.last() as int;
        let p = pos - r.vocab[t].len();
        lemma_stack_led(r, b, stack.drop_last(), p, dead);
        assert(stands(r.vocab, b, p, t));
    }
}

/// The dead positions of a text are finitely many.
pub(crate) proof fn lemma_dead_bound(dead: Set<int>, n: int)
    requires
        n >= 0,
        forall|i: int| dead.contains(i) ==> 0 <= i <= n,
    ensures
        dead.finite(),
        dead.len() <= n + 1,
{
    let all = vstd::set_lib::set_int_range(0, n + 1);
    vstd::set_lib::lemma_int_range(0, n + 1);
    assert(dead.subset_of(all));
    vstd::set_lib::lemma_len_subset(dead, all);
    vstd::set_lib::lemma_set_subset_finite(all, dead);
}

/// A token of a covered text has a shorter one in front, unless it is one byte.
pub proof fn lemma_shorter_exists(vocab: Seq<Seq<u8>>, b: Seq<u8>, pos: int, t: int)
    requires
        covers(vocab, b),
        0 <= t < vocab.len(),
        0 <= pos,
        pos + vocab[t].len() <= b.len(),
        b.subrange(pos, pos + vocab[t].len()) == vocab[t],
        vocab[t].len() > 1,
    ensures
        shorter_token(vocab, t) is Some,
{
    let d = vocab[t].drop_last();
    assert(d[0] == b.subrange(pos, pos + vocab[t].len())[0]);
    assert(is_token(vocab, seq![b[pos]]));
    lemma_covered_has_next(vocab, d);
}

impl BacktrackingBytePairEncoder {
    /// The first of `cand` and the shorter tokens it starts with that can
    /// stand at `pos` behind `last` and does not end at a dead position.
    pub(crate) fn first_fit(
        &self,
        Ghost(b): Ghost<Seq<u8>>,
        Ghost(dead): Ghost<Set<int>>,
        alive: &Bitfield,
        pos: usize,
        last: Option<TokenId>,
        cand: TokenId,
    ) -> (fit: Option<TokenId>)
        requires
            self.wf(),
            forall|t: int| #[trigger]
                stands(self.vocab(), b, pos as int, t) ==> prefix_clear(self.vocab(), t),
            alive.wf(),
            alive.end() == b.len(),
            forall|i: int| 0 <= i <= b.len() ==> alive.has(i) == !dead.contains(i),
            last matches Some(l) ==> self.has(l),
            self.has(cand),
            0 < self.vocab()[cand as int].len(),
            pos + self.vocab()[cand as int].len() <= b.len(),
            b.subrange(pos as int, pos + self.vocab()[cand as int].len())
                == self.vocab()[cand as int],
        ensures
            ({
                let r = self.rules();
                let before = match last {
                    Some(l) => Some(l as int),
                    None => None,
                };
                let found = search(r, b, pos as int, before, Some(cand as int), dead);
                match fit {
                    Some(t) => {
                        &&& self.has(t)
                        &&& 0 < r.vocab[t as int].len()
                        &&& pos + r.vocab[t as int].len() <= b.len()
                        &&& b.subrange(pos as int, pos + r.vocab[t as int].len())
                            == r.vocab[t as int]
                        &&& !dead.contains(pos + r.vocab[t as int].len())
                        &&& follows(r, before, t as int)
                        &&& found == search(r, b, pos as int, before, Some(t as int), dead)
                    },
                    None => found == (dead.insert(pos as int), None::<Seq<TokenId>>),
                }
            }),
            ({
                let before = match last {
                    Some(l) => Some(l as int),
                    None => None,
                };
                match fit {
                    Some(t) => fitting(
                        self.rules(),
                        b,
                        pos as int,
                        before,
                        cand as int,
                        dead,
                    ) == Some(t as int),
                    None => fitting(
                        self.rules(),
                        b,
                        pos as int,
                        before,
                        cand as int,
                        dead,
                    ) is None,
                }
            }),
    {
        let ghost r = self.rules();
        let ghost before: Option<int> = match last {
            Some(l) => Some(l as int),
            None => None,
        };
        let mut token: TokenId = cand;
        loop
            invariant
                self.wf(),
                r == self.rules(),
                before == (match last {
                    Some(l) => Some(l as int),
                    None => None,
                }),
                forall|t: int| #[trigger]
                    stands(self.vocab(), b, pos as int, t) ==> prefix_clear(self.vocab(), t),
                alive.wf(),
                alive.end() == b.len(),
                forall|i: int| 0 <= i <= b.len() ==> alive.has(i) == !dead.contains(i),
                last matches Some(l) ==> self.has(l),
                self.has(token),
                0 < self.vocab()[token as int].len(),
                pos + self.vocab()[token as int].len() <= b.len(),
                b.subrange(pos as int, pos + self.vocab()[token as int].len())
                    == self.vocab()[token as int],
                search(r, b, pos as int, before, Some(cand as int), dead) == search(
                    r,
                    b,
                    pos as int,
                    before,
                    Some(token as int),
                    dead,
                ),
                fitting(r, b, pos as int, before, cand as int, dead) == fitting(
                    r,
                    b,
                    pos as int,
                    before,
                    token as int,
                    dead,
                ),
            decreases self.vocab()[token as int].len(),
        {
            let end_pos: usize = pos + self.token_len(token);
            let reachable = alive.is_set(end_pos);
            let compatible = match last {
                Some(l) => self.is_valid_pair(l, token),
                None => true,
            };
            if reachable && compatible {
                return Some(token);
            }
            proof {
                assert(stands(self.vocab(), b, pos as int, token as int));
                lemma_shorter(self.vocab(), token as int);
            }
            match self.next_prefix(token) {
                Some(shorter) => {
                    proof {
                        let (v, w) = (self.vocab()[token as int], self.vocab()[shorter as int]);
                        assert(v.subrange(0, w.len() as int) == w);
                        assert(b.subrange(pos as int, pos + w.len()) =~= v.subrange(
                            0,
                            w.len() as int,
                        ));
                    }
                    token = shorter;
                },
                None => {
                    assert(search(r, b, pos as int, before, None, dead) == (
                        dead.insert(pos as int),
                        None::<Seq<TokenId>>,
                    ));
                    return None;
                },
            }
        }
    }

    /// Append the tokens of a text that can be searched.
    fn encode_sequential_into(&self, text: &[u8], out: &mut Vec<TokenId>)
        requires
            self.wf(),
            searchable(self.vocab(), text@),
        ensures
            final(out)@ == old(out)@ + bpe(self.rules(), text@),
    {
        let ghost b = text@;
        let ghost r = self.rules();
        let n: usize = text.len();
        let mut tokens = TokenStack::new();
        let mut alive = Bitfield::new(n);
        let ghost mut dead: Set<int> = Set::empty();
        let mut pos: usize = 0;
        proof {
            assert(b.subrange(0, n as int) =~= b);
            assert(led_to(r.vocab, b, 0));
        }
        let mut cand: Option<TokenId> = self.next_match(text);
        let ghost total = search(r, b, 0, None, next_token(r.vocab, b), Set::empty());
        proof {
            lemma_next_token(r.vocab, b);
            assert(b.len() > 0 ==> finish(r, b, seq![], 0, total) == total) by {
                assert(Seq::<TokenId>::empty() + total.1->0 =~= total.1->0);
            }
            assert(small::stack_tokens(tokens) =~= seq![]);
        }
        while cand.is_some()
            invariant
                self.wf(),
                r == self.rules(),
                b == text@,
                n == b.len(),
                searchable(r.vocab, b),
                alive.wf(),
                alive.end() == n,
                forall|i: int| dead.contains(i) ==> 0 <= i <= n,
                forall|i: int| 0 <= i <= n ==> alive.has(i) == !dead.contains(i),
                match cand {
                    Some(t) => {
                        &&& n > 0
                        &&& stack_ok(r, b, small::stack_tokens(tokens), pos as int, dead)
                        &&& self.has(t)
                        &&& 0 < r.vocab[t as int].len()
                        &&& pos + r.vocab[t as int].len() <= n
                        &&& b.subrange(pos as int, pos + r.vocab[t as int].len())
                            == r.vocab[t as int]
                        &&& total == finish(
                            r,
                            b,
                            small::stack_tokens(tokens),
                            pos as int,
                            search(
                                r,
                                b,
                                pos as int,
                                top(small::stack_tokens(tokens)),
                                Some(t as int),
                                dead,
                            ),
                        )
                    },
                    None => if n == 0 {
                        small::stack_tokens(tokens).len() == 0
                    } else {
                        small::stack_tokens(tokens) == match total.1 {
                            Some(found) => found,
                            None => seq![],
                        }
                    },
                },
            decreases n + 1 - dead.len(), n - pos,
        {
            let token: TokenId = cand.unwrap();
            let ghost stack = small::stack_tokens(tokens);
            let held = tokens.as_slice();
            let last: Option<TokenId> = if held.len() == 0 {
                None
            } else {
                Some(held[held.len() - 1])
            };
            proof {
                lemma_dead_bound(dead, n as int);
                lemma_stack_led(r, b, stack, pos as int, dead);
            }
            match self.first_fit(Ghost(b), Ghost(dead), &alive, pos, last, token) {
                Some(fit) => {
                    let end: usize = pos + self.token_len(fit);
                    tokens.push(fit);
                    let rest = slice_subrange(text, end, n);
                    proof {
                        assert(stack.push(fit).drop_last() =~= stack);
                        assert(stack_ok(r, b, stack.push(fit), end as int, dead));
                        lemma_stack_led(r, b, stack.push(fit), end as int, dead);
                        lemma_next_token(r.vocab, rest@);
                    }
                    cand = self.next_match(rest);
                    pos = end;
                    proof {
                        let here = (end - r.vocab[fit as int].len()) as int;
                        if end == n {
                            assert(stack + seq![fit] =~= stack.push(fit));
                        } else {
                            let deeper = search(
                                r,
                                b,
                                end as int,
                                Some(fit as int),
                                next_token(r.vocab, rest@),
                                dead,
                            );
                            match deeper.1 {
                                Some(found) => {
                                    assert(stack + (seq![fit] + found) =~= stack.push(fit) + found);
                                },
                                None => {},
                            }
                            assert(total == finish(r, b, stack.push(fit), end as int, deeper));
                            let t = cand->0 as int;
                            assert(rest@.subrange(0, r.vocab[t].len() as int) =~= b.subrange(
                                end as int,
                                end + r.vocab[t].len(),
                            ));
                        }
                    }
                },
                None => {
                    alive.clear(pos);
                    proof {
                        assert(dead.insert(pos as int).len() == dead.len() + 1);
                        if stack.len() > 0 {
                            let t = stack.last() as int;
                            lemma_stack_ok_insert(
                                r,
                                b,
                                stack.drop_last(),
                                pos - r.vocab[t].len(),
                                dead,
                                pos as int,
                            );
                        }
                        lemma_dead_bound(dead.insert(pos as int), n as int);
                        dead = dead.insert(pos as int);
                    }
                    if let Some(popped) = tokens.pop() {
                        pos = pos - self.token_len(popped);
                    }
                    cand = last;
                },
            }
        }
        out.extend_from_slice(tokens.as_slice());
        assert(out@ =~= old(out)@ + bpe(r, b));
    }
}

// ---- what the search finds ----

/// The tokens stand in the vocabulary, none is empty, and each can follow the
/// one before it.
pub open spec fn sequence_ok(r: Rules, last: Option<int>, tokens: Seq<TokenId>) -> bool {
    forall|i: int|
        0 <= i < tokens.len() ==> (#[trigger] tokens[i]) < r.vocab.len()
            && r.vocab[tokens[i] as int].len() > 0 && follows(
            r,
            if i == 0 {
                last
            } else {
                Some(tokens[i - 1] as int)
            },
            tokens[i] as int,
        )
}

/// The bytes of a token in front of others.
pub proof fn lemma_token_bytes_front(vocab: Seq<Seq<u8>>, t: TokenId, rest: Seq<TokenId>)
    ensures
        token_bytes_of(vocab, seq![t] + rest) == vocab[t as int] + token_bytes_of(vocab, rest),
    decreases rest.len(),
{
    let all = seq![t] + rest;
    if rest.len() == 0 {
        assert(all.drop_last() =~= Seq::<TokenId>::empty());
        assert(token_bytes_of(vocab, all.drop_last()) =~= Seq::<u8>::empty());
        assert(token_bytes_of(vocab, all) =~= vocab[t as int] + token_bytes_of(vocab, rest));
    } else {
        lemma_token_bytes_front(vocab, t, rest.drop_last());
        assert(all.drop_last() =~= seq![t] + rest.drop_last());
        assert(token_bytes_of(vocab, all) =~= vocab[t as int] + token_bytes_of(vocab, rest));
    }
}

/// The tokens that a search finds are those of the text from `pos` on, and
/// each can follow the one before it.
pub proof fn lemma_search_sound(
    r: Rules,
    b: Seq<u8>,
    pos: int,
    last: Option<int>,
    cand: Option<int>,
    dead: Set<int>,
)
    requires
        r.vocab.len() <= u32::MAX,
        0 <= pos < b.len(),
        cand matches Some(t) ==> 0 <= t < r.vocab.len() && pos + r.vocab[t].len() <= b.len()
            && b.subrange(pos, pos + r.vocab[t].len()) == r.vocab[t],
    ensures
        search(r, b, pos, last, cand, dead).1 matches Some(tokens) ==> token_bytes_of(
            r.vocab,
            tokens,
        ) == b.subrange(pos, b.len() as int) && tokens.len() > 0 && sequence_ok(r, last, tokens),
    decreases
            b.len() - pos,
            match cand {
                Some(t) => r.vocab[t].len() + 1,
                None => 0,
            },
{
    if let Some(t) = cand {
        let end = pos + r.vocab[t].len();
        lemma_shorter(r.vocab, t);
        let shorter = shorter_token(r.vocab, t);
        if let Some(s) = shorter {
            assert(r.vocab[t].subrange(0, r.vocab[s].len() as int) == r.vocab[s]);
            assert(b.subrange(pos, pos + r.vocab[s].len()) =~= r.vocab[t].subrange(
                0,
                r.vocab[s].len() as int,
            ));
        }
        if end > pos {
            if dead.contains(end) || !follows(r, last, t) {
                lemma_search_sound(r, b, pos, last, shorter, dead);
            } else if end == b.len() {
                lemma_token_bytes_front(r.vocab, t as u32, seq![]);
                assert(seq![t as u32] + Seq::<TokenId>::empty() =~= seq![t as u32]);
                assert(r.vocab[t] + token_bytes_of(r.vocab, Seq::<TokenId>::empty())
                    =~= r.vocab[t]);
            } else {
                let tail = b.subrange(end, b.len() as int);
                let next = next_token(r.vocab, tail);
                lemma_next_token(r.vocab, tail);
                if let Some(k) = next {
                    assert(b.subrange(end, end + r.vocab[k].len()) =~= tail.subrange(
                        0,
                        r.vocab[k].len() as int,
                    ));
                }
                lemma_search_sound(r, b, end, Some(t), next, dead);
                let deeper = search(r, b, end, Some(t), next, dead);
                match deeper.1 {
                    Some(rest) => {
                        let all = seq![t as u32] + rest;
                        lemma_token_bytes_front(r.vocab, t as u32, rest);
                        assert(r.vocab[t] + tail =~= b.subrange(pos, b.len() as int));
                        assert forall|i: int| 0 <= i < all.len() implies (#[trigger] all[i])
                            < r.vocab.len() && r.vocab[all[i] as int].len() > 0 && follows(
                            r,
                            if i == 0 {
                                last
                            } else {
                                Some(all[i - 1] as int)
                            },
                            all[i] as int,
                        ) by {
                            if i > 0 {
                                assert(all[i] == rest[i - 1]);
                            }
                        }
                    },
                    None => lemma_search_sound(r, b, pos, last, shorter, deeper.0),
                }
            }
        }
    }
}

/// The tokens of a text, where the search finds any, give the text back, and
/// each can follow the one before it.
pub proof fn law_bpe_gives_text_back(r: Rules, b: Seq<u8>)
    requires
        r.vocab.len() <= u32::MAX,
    ensures
        bpe(r, b).len() > 0 || b.len() == 0 ==> token_bytes_of(r.vocab, bpe(r, b)) == b,
        sequence_ok(r, None, bpe(r, b)),
{
    if b.len() > 0 {
        let next = next_token(r.vocab, b);
        lemma_next_token(r.vocab, b);
        assert(b.subrange(0, b.len() as int) =~= b);
        lemma_search_sound(r, b, 0, None, next, Set::empty());
    } else {
        assert(token_bytes_of(r.vocab, bpe(r, b)) =~= b);
    }
}

/// A text that is a token is encoded as that token, the last one with its bytes.
pub proof fn law_whole_token(r: Rules, b: Seq<u8>, v: int)
    requires
        b.len() > 0,
        last_token(r.vocab, b, v),
        r.vocab.len() <= u32::MAX,
    ensures
        bpe(r, b) == seq![v as u32],
{
    let p = vocab_patterns(r.vocab);
    assert(b.subrange(0, b.len() as int) =~= b);
    assert(p[v].0 == b);
    assert(automaton::prefix_pattern(p, b, v));
    assert forall|j: int| automaton::prefix_pattern(p, b, j) implies (#[trigger] p[j]).0.len()
        < p[v].0.len() || (p[j].0.len() == p[v].0.len() && j <= v) by {
        assert(p[j].0 == r.vocab[j]);
        if p[j].0.len() == b.len() {
            assert(r.vocab[j] =~= b);
        }
    }
    assert(longest_token(r.vocab, b, v));
    lemma_next_token(r.vocab, b);
}

// ---- building ----

/// Ids and byte vectors, as ids and bytes.
pub open spec fn added_views(a: Seq<(u32, Vec<u8>)>) -> Seq<(u32, Seq<u8>)> {
    Seq::new(a.len(), |i: int| (a[i].0, a[i].1@))
}

/// `x` among entries in ascending order, behind those with the same id.
pub open spec fn insert_by_id(s: Seq<(u32, Seq<u8>)>, x: (u32, Seq<u8>)) -> Seq<(u32, Seq<u8>)>
    decreases s.len(),
{
    if s.len() == 0 || s.last().0 <= x.0 {
        s.push(x)
    } else {
        insert_by_id(s.drop_last(), x).push(s.last())
    }
}

/// The entries in ascending order of their ids; equal ids keep their order.
pub open spec fn sorted_by_id(s: Seq<(u32, Seq<u8>)>) -> Seq<(u32, Seq<u8>)>
    decreases s.len(),
{
    if s.len() == 0 {
        seq![]
    } else {
        insert_by_id(sorted_by_id(s.drop_last()), s.last())
    }
}

/// A vocabulary with one more token that no merge made.
pub open spec fn with_base(r: Rules, b: Seq<u8>) -> Rules {
    let id = r.vocab.len() as u32;
    Rules { vocab: r.vocab.push(b), splits: r.splits.push((Split { left: id, right: id })), ..r }
}

/// A vocabulary with one more token, merged from `m.0` and `m.1`.
pub open spec fn with_merge(r: Rules, m: (TokenId, TokenId)) -> Rules {
    let id = r.vocab.len() as u32;
    Rules {
        vocab: r.vocab.push(r.vocab[m.0 as int] + r.vocab[m.1 as int]),
        splits: r.splits.push((Split { left: m.0, right: m.1 })),
        pairs: r.pairs.insert(packed(m.0, m.1), id),
    }
}

/// A vocabulary with those of the added tokens from `i` on, taken in order,
/// whose id is at most `limit`.
pub open spec fn with_added(r: Rules, added: Seq<(u32, Seq<u8>)>, i: int, limit: int) -> (Rules, int)
    decreases added.len() - i,
{
    if 0 <= i < added.len() && added[i].0 <= limit {
        with_added(with_base(r, added[i].1), added, i + 1, limit)
    } else {
        (r, i)
    }
}

/// The vocabulary of base tokens.
pub open spec fn base_rules(base: Seq<Seq<u8>>) -> Rules {
    Rules {
        vocab: base,
        splits: Seq::new(base.len(), |i: int| Split { left: i as u32, right: i as u32 }),
        pairs: Map::empty(),
    }
}

/// Base tokens, then a token for each merge in order; before a merge come
/// those added tokens whose id has been reached. Gives the vocabulary, and how
/// many added tokens it has taken.
pub open spec fn merged_rules(
    base: Seq<Seq<u8>>,
    added: Seq<(u32, Seq<u8>)>,
    merges: Seq<(TokenId, TokenId)>,
) -> (Rules, int)
    decreases merges.len(),
{
    if merges.len() == 0 {
        (base_rules(base), 0)
    } else {
        let before = merged_rules(base, added, merges.drop_last());
        let ready = with_added(before.0, added, before.1, before.0.vocab.len() as int);
        (with_merge(ready.0, merges.last()), ready.1)
    }
}

/// The vocabulary of base tokens, merges and added tokens.
pub open spec fn built_rules(
    base: Seq<Seq<u8>>,
    added: Seq<(u32, Seq<u8>)>,
    merges: Seq<(TokenId, TokenId)>,
) -> Rules {
    let m = merged_rules(base, added, merges);
    with_added(m.0, added, m.1, u32::MAX as int).0
}

/// Each merge joins two tokens that are there when its turn comes.
pub open spec fn merges_ok(
    base: Seq<Seq<u8>>,
    added: Seq<(u32, Seq<u8>)>,
    merges: Seq<(TokenId, TokenId)>,
) -> bool
    decreases merges.len(),
{
    merges.len() == 0 || {
        let before = merged_rules(base, added, merges.drop_last());
        let r = with_added(before.0, added, before.1, before.0.vocab.len() as int).0;
        let m = merges.last();
        &&& merges_ok(base, added, merges.drop_last())
        &&& m.0 < r.vocab.len()
        &&& m.1 < r.vocab.len()
    }
}

/// Taking added tokens keeps the tokens before them.
pub proof fn lemma_with_added(r: Rules, added: Seq<(u32, Seq<u8>)>, i: int, limit: int)
    requires
        0 <= i <= added.len(),
    ensures
        ({
            let (q, j) = with_added(r, added, i, limit);
            &&& i <= j <= added.len()
            &&& q.vocab.len() == r.vocab.len() + (j - i)
            &&& (limit >= u32::MAX ==> j == added.len())
            &&& (splits_ok(r.vocab, r.splits) && r.vocab.len() + added.len() - i <= u32::MAX
                ==> splits_ok(q.vocab, q.splits))
            &&& q.pairs == r.pairs
        }),
    decreases added.len() - i,
{
    if i < added.len() && added[i].0 <= limit {
        let n = with_base(r, added[i].1);
        lemma_with_added(n, added, i + 1, limit);
        if splits_ok(r.vocab, r.splits) && r.vocab.len() + added.len() - i <= u32::MAX {
            assert(n.vocab.drop_last() =~= r.vocab);
            assert(n.splits.drop_last() =~= r.splits);
            lemma_splits_push(r, n);
        }
    }
}

/// A vocabulary that grows by a token with a fitting split has fitting splits.
proof fn lemma_splits_push(r: Rules, n: Rules)
    requires
        splits_ok(r.vocab, r.splits),
        n.vocab.len() == r.vocab.len() + 1,
        n.splits.len() == r.splits.len() + 1,
        n.vocab.drop_last() == r.vocab,
        n.splits.drop_last() == r.splits,
        split_ok(n.vocab, n.splits.last(), r.vocab.len() as int),
    ensures
        splits_ok(n.vocab, n.splits),
{
    assert forall|i: int| 0 <= i < n.splits.len() implies split_ok(
        n.vocab,
        #[trigger] n.splits[i],
        i,
    ) by {
        if i < r.vocab.len() {
            assert(n.splits[i] == r.splits[i]);
            assert(split_ok(r.vocab, r.splits[i], i));
            assert(n.vocab[i] == r.vocab[i]);
            if r.splits[i].left < r.vocab.len() {
                assert(n.vocab[r.splits[i].left as int] == r.vocab[r.splits[i].left as int]);
            }
            if r.splits[i].right < r.vocab.len() {
                assert(n.vocab[r.splits[i].right as int] == r.vocab[r.splits[i].right as int]);
            }
        }
    }
}

/// The vocabulary has a token for each base token, merge and added token.
pub proof fn lemma_merged_rules(
    base: Seq<Seq<u8>>,
    added: Seq<(u32, Seq<u8>)>,
    merges: Seq<(TokenId, TokenId)>,
)
    requires
        base.len() + added.len() + merges.len() <= u32::MAX,
    ensures
        ({
            let (r, j) = merged_rules(base, added, merges);
            &&& 0 <= j <= added.len()
            &&& r.vocab.len() == base.len() + merges.len() + j
            &&& r.splits.len() == r.vocab.len()
            &&& (merges_ok(base, added, merges) ==> splits_ok(r.vocab, r.splits))
        }),
    decreases merges.len(),
{
    if merges.len() > 0 {
        lemma_merged_rules(base, added, merges.drop_last());
        let before = merged_rules(base, added, merges.drop_last());
        let limit = before.0.vocab.len() as int;
        lemma_with_added(before.0, added, before.1, limit);
        lemma_added_lens(before.0, added, before.1, limit);
        let ready = with_added(before.0, added, before.1, limit);
        let r = with_merge(ready.0, merges.last());
        if merges_ok(base, added, merges) {
            assert(r.vocab.drop_last() =~= ready.0.vocab);
            assert(r.splits.drop_last() =~= ready.0.splits);
            lemma_splits_push(ready.0, r);
        }
    } else {
        let r = base_rules(base);
        assert forall|i: int| 0 <= i < r.splits.len() implies split_ok(
            r.vocab,
            #[trigger] r.splits[i],
            i,
        ) by {}
    }
}

proof fn lemma_added_lens(r: Rules, added: Seq<(u32, Seq<u8>)>, i: int, limit: int)
    requires
        0 <= i <= added.len(),
        r.splits.len() == r.vocab.len(),
    ensures
        with_added(r, added, i, limit).0.splits.len() == with_added(
            r,
            added,
            i,
            limit,
        ).0.vocab.len(),
    decreases added.len() - i,
{
    if i < added.len() && added[i].0 <= limit {
        lemma_added_lens(with_base(r, added[i].1), added, i + 1, limit);
    }
}

/// The whole vocabulary has fitting splits.
pub proof fn lemma_built_rules(
    base: Seq<Seq<u8>>,
    added: Seq<(u32, Seq<u8>)>,
    merges: Seq<(TokenId, TokenId)>,
)
    requires
        base.len() + added.len() + merges.len() <= u32::MAX,
        merges_ok(base, added, merges),
    ensures
        ({
            let r = built_rules(base, added, merges);
            &&& r.vocab.len() == base.len() + merges.len() + added.len()
            &&& splits_ok(r.vocab, r.splits)
        }),
{
    lemma_merged_rules(base, added, merges);
    let m = merged_rules(base, added, merges);
    lemma_with_added(m.0, added, m.1, u32::MAX as int);
}

/// The size of the first patterns is at most that of all.
pub proof fn lemma_patterns_size(p: Seq<automaton::Pattern>, i: int)
    requires
        0 <= i <= p.len(),
    ensures
        0 <= automaton::patterns_size(p.subrange(0, i)) <= automaton::patterns_size(p),
        automaton::PATTERN_COST * p.len() <= automaton::patterns_size(p),
    decreases p.len(),
{
    if p.len() > 0 {
        if i < p.len() {
            lemma_patterns_size(p.drop_last(), i);
            assert(p.drop_last().subrange(0, i) =~= p.subrange(0, i));
        } else {
            lemma_patterns_size(p.drop_last(), p.len() - 1);
            assert(p.subrange(0, i) =~= p);
            assert(p.drop_last().subrange(0, p.len() - 1) =~= p.drop_last());
        }
    } else {
        assert(p.subrange(0, i) =~= p);
    }
}

/// A copy of byte vectors.
fn clone_all(v: &[Vec<u8>]) -> (r: Vec<Vec<u8>>)
    ensures
        views(r@) == views(v@),
{
    let mut out: Vec<Vec<u8>> = Vec::new();
    let mut i: usize = 0;
    while i < v.len()
        invariant
            i <= v.len(),
            out@.len() == i,
            forall|j: int| 0 <= j < i ==> out@[j]@ == v@[j]@,
        decreases v.len() - i,
    {
        out.push(to_vec(v[i].as_slice()));
        i = i + 1;
    }
    assert(views(out@) =~= views(v@));
    out
}

/// A copy of the added tokens in ascending order of their ids.
fn sort_added(added: &[(u32, Vec<u8>)]) -> (r: Vec<(u32, Vec<u8>)>)
    ensures
        added_views(r@) == sorted_by_id(added_views(added@)),
{
    let mut out: Vec<(u32, Vec<u8>)> = Vec::new();
    let ghost all = added_views(added@);
    let mut i: usize = 0;
    assert(added_views(out@) =~= sorted_by_id(all.subrange(0, 0)));
    while i < added.len()
        invariant
            i <= added.len(),
            all == added_views(added@),
            added_views(out@) == sorted_by_id(all.subrange(0, i as int)),
        decreases added.len() - i,
    {
        let id: u32 = added[i].0;
        let entry = (id, to_vec(added[i].1.as_slice()));
        let ghost x = (id, entry.1@);
        let mut k: usize = out.len();
        let ghost held = added_views(out@);
        proof {
            assert(held.subrange(0, k as int) =~= held);
            assert(insert_by_id(held, x) + held.subrange(k as int, held.len() as int)
                =~= insert_by_id(held, x));
        }
        while k > 0 && out[k - 1].0 > id
            invariant
                k <= out.len(),
                x.0 == id,
                held == added_views(out@),
                insert_by_id(held, x) == insert_by_id(held.subrange(0, k as int), x)
                    + held.subrange(k as int, held.len() as int),
            decreases k,
        {
            proof {
                let s = held.subrange(0, k as int);
                assert(s.drop_last() =~= held.subrange(0, k - 1));
                assert(s.last() == held[k - 1]);
                assert(insert_by_id(s.drop_last(), x).push(s.last()) + held.subrange(
                    k as int,
                    held.len() as int,
                ) =~= insert_by_id(held.subrange(0, k - 1), x) + held.subrange(
                    k - 1,
                    held.len() as int,
                ));
            }
            k = k - 1;
        }
        proof {
            let s = held.subrange(0, k as int);
            if k > 0 {
                assert(s.last() == held[k - 1]);
            }
            assert(insert_by_id(s, x) == s.push(x));
            assert(all.subrange(0, i + 1).drop_last() =~= all.subrange(0, i as int));
            assert(all.subrange(0, i + 1).last() == x);
        }
        out.insert(k, entry);
        assert(added_views(out@) =~= held.subrange(0, k as int).push(x) + held.subrange(
            k as int,
            held.len() as int,
        ));
        i = i + 1;
    }
    assert(all.subrange(0, all.len() as int) =~= all);
    out
}

/// The tables that an encoder is made of fit each other.
pub open spec fn parts_fit(
    splits: Seq<Split>,
    lengths: Seq<usize>,
    matcher: daggrs::DoubleArrayAhoCorasick,
    prefixes: Seq<TokenId>,
    vocab: Seq<Seq<u8>>,
) -> bool {
    &&& automaton::matcher_compiled(matcher)
    &&& automaton::kept(automaton::matcher_patterns(matcher)) == automaton::kept(vocab_patterns(vocab))
    &&& vocab.len() < 0x100_0000
    &&& splits_ok(vocab, splits)
    &&& lengths.len() == vocab.len()
    &&& forall|i: int| 0 <= i < vocab.len() ==> #[trigger] lengths[i] == vocab[i].len()
    &&& prefixes_ok(vocab, prefixes)
    &&& tables_built(vocab, matcher, prefixes)
}

/// One more token behind the others, in a map of short tokens.
proof fn lemma_short_tokens_push(
    m: Map<Seq<u8>, TokenId>,
    vocab: Seq<Seq<u8>>,
    b: Seq<u8>,
    n: Map<Seq<u8>, TokenId>,
)
    requires
        holds_short_tokens(m, vocab),
        vocab.len() < u32::MAX,
        n == if b.len() <= MAX_CACHED_TOKEN_LEN {
            m.insert(b, vocab.len() as u32)
        } else {
            m
        },
    ensures
        holds_short_tokens(n, vocab.push(b)),
{
    let v = vocab.push(b);
    assert forall|c: Seq<u8>|
        {
            &&& #[trigger] n.contains_key(c) <==> c.len() <= MAX_CACHED_TOKEN_LEN && is_token(v, c)
            &&& n.contains_key(c) ==> last_token(v, c, n[c] as int)
        } by {
        assert(m.contains_key(c) <==> c.len() <= MAX_CACHED_TOKEN_LEN && is_token(vocab, c));
        if is_token(vocab, c) {
            let k = choose|k: int| 0 <= k < vocab.len() && #[trigger] vocab[k] == c;
            assert(v[k] == c);
        }
        if is_token(v, c) && c != b {
            let k = choose|k: int| 0 <= k < v.len() && #[trigger] v[k] == c;
            assert(vocab[k] == c);
        }
        if c == b {
            assert(v[vocab.len() as int] == b);
        } else if n.contains_key(c) {
            assert(last_token(vocab, c, m[c] as int));
            assert forall|k: int| n[c] < k < v.len() implies v[k] != c by {
                if k < vocab.len() {
                    assert(vocab[k] != c);
                }
            }
        }
    }
}

/// The bytes of vocabulary entries.
pub open spec fn bytes_of(e: Seq<(u32, Seq<u8>)>) -> Seq<Seq<u8>> {
    Seq::new(e.len(), |i: int| e[i].1)
}

/// The id of the last entry with these bytes.
pub open spec fn last_id(e: Seq<(u32, Seq<u8>)>, b: Seq<u8>) -> Option<u32>
    decreases e.len(),
{
    if e.len() == 0 {
        None
    } else if e.last().1 == b {
        Some(e.last().0)
    } else {
        last_id(e.drop_last(), b)
    }
}

/// The id of what a merge makes: the last entry with the bytes of both, if
/// there is one. A merge names what it joins by the place of the entries.
pub open spec fn made_id(e: Seq<(u32, Seq<u8>)>, m: (TokenId, TokenId)) -> Option<u32> {
    last_id(e, e[m.0 as int].1 + e[m.1 as int].1)
}

/// What the pairs merge to: what the last merge of each makes.
pub open spec fn merge_pairs(e: Seq<(u32, Seq<u8>)>, merges: Seq<(TokenId, TokenId)>) -> Map<
    u64,
    TokenId,
>
    decreases merges.len(),
{
    if merges.len() == 0 {
        Map::empty()
    } else {
        let before = merge_pairs(e, merges.drop_last());
        match made_id(e, merges.last()) {
            Some(id) => before.insert(packed(merges.last().0, merges.last().1), id),
            None => before,
        }
    }
}

/// The first merge that makes the id.
pub open spec fn first_merge(
    e: Seq<(u32, Seq<u8>)>,
    merges: Seq<(TokenId, TokenId)>,
    id: u32,
) -> Option<(TokenId, TokenId)>
    decreases merges.len(),
{
    if merges.len() == 0 {
        None
    } else {
        match first_merge(e, merges.drop_last(), id) {
            Some(m) => Some(m),
            None => if made_id(e, merges.last()) == Some(id) {
                Some(merges.last())
            } else {
                None
            },
        }
    }
}

/// How the entry `i` came about: by the first merge that makes its id.
pub open spec fn entry_split(
    e: Seq<(u32, Seq<u8>)>,
    merges: Seq<(TokenId, TokenId)>,
    i: int,
) -> Split {
    match first_merge(e, merges, e[i].0) {
        Some(m) => Split { left: m.0, right: m.1 },
        None => Split { left: e[i].0, right: e[i].0 },
    }
}

/// The rules of a complete vocabulary and merges. The tokens are the entries
/// in their order.
pub open spec fn vocab_rules(e: Seq<(u32, Seq<u8>)>, merges: Seq<(TokenId, TokenId)>) -> Rules {
    Rules {
        vocab: bytes_of(e),
        splits: Seq::new(e.len(), |i: int| entry_split(e, merges, i)),
        pairs: merge_pairs(e, merges),
    }
}

/// The merges join entries of the vocabulary.
pub open spec fn merges_within(n: nat, merges: Seq<(TokenId, TokenId)>) -> bool {
    forall|i: int| 0 <= i < merges.len() ==> (#[trigger] merges[i]).0 < n && merges[i].1 < n
}

/// Each entry has its place as its id.
pub open spec fn ids_in_order(e: Seq<(u32, Seq<u8>)>) -> bool {
    forall|i: int| 0 <= i < e.len() ==> (#[trigger] e[i]).0 == i
}

/// With places as ids, the id of the last entry with some bytes is its place.
proof fn lemma_last_id(e: Seq<(u32, Seq<u8>)>, b: Seq<u8>)
    requires
        ids_in_order(e),
    ensures
        last_id(e, b) matches Some(t) ==> last_token(bytes_of(e), b, t as int),
    decreases e.len(),
{
    if e.len() > 0 && e.last().1 != b {
        let front = e.drop_last();
        assert forall|i: int| 0 <= i < front.len() implies (#[trigger] front[i]).0 == i by {
            assert(front[i] == e[i]);
        }
        lemma_last_id(front, b);
        if let Some(t) = last_id(front, b) {
            assert(bytes_of(e)[t as int] == bytes_of(front)[t as int]);
            assert forall|k: int| t < k < e.len() implies bytes_of(e)[k] != b by {
                if k < e.len() - 1 {
                    assert(bytes_of(front)[k] == bytes_of(e)[k]);
                }
            }
        }
    }
}

/// The first merge that makes an id is one of the merges.
proof fn lemma_first_merge(e: Seq<(u32, Seq<u8>)>, merges: Seq<(TokenId, TokenId)>, id: u32)
    requires
        merges_within(e.len(), merges),
    ensures
        first_merge(e, merges, id) matches Some(m) ==> m.0 < e.len() && m.1 < e.len() && made_id(
            e,
            m,
        ) == Some(id),
    decreases merges.len(),
{
    if merges.len() > 0 {
        let front = merges.drop_last();
        assert forall|i: int| 0 <= i < front.len() implies (#[trigger] front[i]).0 < e.len()
            && front[i].1 < e.len() by {
            assert(front[i] == merges[i]);
        }
        lemma_first_merge(e, front, id);
        assert(merges.last() == merges[merges.len() - 1]);
    }
}

/// A vocabulary whose ids are the places of its entries has fitting splits.
pub proof fn law_vocab_splits(e: Seq<(u32, Seq<u8>)>, merges: Seq<(TokenId, TokenId)>)
    requires
        ids_in_order(e),
        merges_within(e.len(), merges),
    ensures
        splits_ok(bytes_of(e), vocab_rules(e, merges).splits),
{
    let vocab = bytes_of(e);
    let splits = vocab_rules(e, merges).splits;
    assert forall|i: int| 0 <= i < splits.len() implies split_ok(vocab, #[trigger] splits[i], i) by {
        assert(e[i].0 == i);
        lemma_first_merge(e, merges, e[i].0);
        if let Some(m) = first_merge(e, merges, e[i].0) {
            let (l, r) = (m.0 as int, m.1 as int);
            lemma_last_id(e, e[l].1 + e[r].1);
            assert(last_token(vocab, vocab[l] + vocab[r], i));
            if vocab[r].len() == 0 {
                assert(vocab[l] + vocab[r] =~= vocab[l]);
            }
            if vocab[l].len() == 0 {
                assert(vocab[l] + vocab[r] =~= vocab[r]);
            }
        }
    }
}

/// Two byte strings, one behind the other.
fn joined_bytes(a: &[u8], b: &[u8]) -> (r: Vec<u8>)
    ensures
        r@ == a@ + b@,
{
    let mut r = to_vec(a);
    push_bytes(&mut r, b);
    r
}

impl BacktrackingBytePairEncoder {
    /// Build the Aho-Corasick matcher.
    pub(crate) fn build_matcher(token_bytes: &[Vec<u8>]) -> (m: daggrs::DoubleArrayAhoCorasick)
        requires
            automaton::patterns_fit(vocab_patterns(views(token_bytes@))),
        ensures
            automaton::matcher_compiled(m),
            automaton::matcher_patterns(m) == vocab_patterns(views(token_bytes@)),
            automaton::matcher_bytes(m) == automaton::compiled_bytes(
                vocab_patterns(views(token_bytes@)),
            ),
    {
        let ghost p = vocab_patterns(views(token_bytes@));
        let mut trie = automaton::new_trie();
        let mut i: usize = 0;
        assert(p.subrange(0, 0) =~= Seq::<automaton::Pattern>::empty());
        while i < token_bytes.len()
            invariant
                i <= token_bytes.len(),
                p == vocab_patterns(views(token_bytes@)),
                automaton::patterns_fit(p),
                automaton::trie_patterns(trie) == p.subrange(0, i as int),
            decreases token_bytes.len() - i,
        {
            proof {
                lemma_patterns_size(p, i + 1);
                assert(p.subrange(0, i as int).push(p[i as int]) =~= p.subrange(0, i + 1));
            }
            automaton::add_pattern(&mut trie, token_bytes[i].as_slice(), i as u32);
            i = i + 1;
        }
        assert(p.subrange(0, p.len() as int) =~= p);
        automaton::compile(trie)
    }

    /// Build the prefix lookup table.
    pub(crate) fn build_prefixes(
        matcher: &daggrs::DoubleArrayAhoCorasick,
        token_bytes: &[Vec<u8>],
    ) -> (table: Vec<TokenId>)
        requires
            token_bytes@.len() < 0x100_0000,
            automaton::matcher_compiled(*matcher),
            automaton::matcher_patterns(*matcher) == vocab_patterns(views(token_bytes@)),
        ensures
            prefixes_ok(views(token_bytes@), table@),
            table@ == prefix_table(views(token_bytes@)),
    {
        let ghost vocab = views(token_bytes@);
        let mut table: Vec<TokenId> = Vec::new();
        let mut i: usize = 0;
        while i < token_bytes.len()
            invariant
                i <= token_bytes.len() < 0x100_0000,
                vocab == views(token_bytes@),
                automaton::matcher_compiled(*matcher),
                automaton::matcher_patterns(*matcher) == vocab_patterns(vocab),
                table@.len() == i,
                forall|t: int|
                    0 <= t < i ==> {
                        &&& vocab[t].len() <= 1 ==> #[trigger] table@[t] == u32::MAX
                        &&& shorter_token(vocab, t) matches Some(s) ==> table@[t] == s
                        &&& shorter_token(vocab, t) is None && prefix_clear(vocab, t) ==> table@[t]
                            == u32::MAX
                    },
                forall|t: int| 0 <= t < i ==> #[trigger] table@[t] == prefix_of(vocab, t),
            decreases token_bytes.len() - i,
        {
            let token = token_bytes[i].as_slice();
            let mut prefix: TokenId = u32::MAX;
            if token.len() > 1 {
                let front = slice_subrange(token, 0, token.len() - 1);
                proof {
                    assert(front@ =~= vocab[i as int].drop_last());
                    lemma_next_token(vocab, front@);
                }
                match automaton::first_match(matcher, front) {
                    Some((id, from, to)) => {
                        prefix = id;
                        proof {
                            let p = vocab_patterns(vocab);
                            let k = choose|k: int|
                                0 <= k < p.len() && #[trigger] p[k] == (
                                    front@.subrange(from as int, to as int),
                                    id,
                                );
                            assert(stands(vocab, front@, from as int, k));
                        }
                    },
                    None => {},
                }
            }
            table.push(prefix);
            i = i + 1;
        }
        assert(table@ =~= prefix_table(vocab));
        table
    }

    /// Build the token lengths table.
    fn build_token_lengths(token_bytes: &[Vec<u8>]) -> (lengths: Vec<usize>)
        ensures
            lengths@.len() == token_bytes@.len(),
            forall|i: int|
                0 <= i < token_bytes@.len() ==> #[trigger] lengths@[i] == views(
                    token_bytes@,
                )[i].len(),
    {
        let mut lengths: Vec<usize> = Vec::new();
        let mut i: usize = 0;
        while i < token_bytes.len()
            invariant
                i <= token_bytes.len(),
                lengths@.len() == i,
                forall|j: int|
                    0 <= j < i ==> #[trigger] lengths@[j] == views(token_bytes@)[j].len(),
            decreases token_bytes.len() - i,
        {
            lengths.push(token_bytes[i].len());
            i = i + 1;
        }
        lengths
    }

    /// Build the map of short tokens for the early exit.
    fn build_token_cache(token_bytes: &[Vec<u8>]) -> (m: foldhash::HashMap<Vec<u8>, TokenId>)
        requires
            token_bytes@.len() <= u32::MAX,
        ensures
            holds_short_tokens(maps::bytes_map(m), views(token_bytes@)),
    {
        let ghost vocab = views(token_bytes@);
        let mut m = maps::new_bytes_map();
        let mut i: usize = 0;
        assert(vocab.subrange(0, 0).len() == 0);
        while i < token_bytes.len()
            invariant
                i <= token_bytes.len(),
                token_bytes@.len() <= u32::MAX,
                vocab == views(token_bytes@),
                holds_short_tokens(maps::bytes_map(m), vocab.subrange(0, i as int)),
            decreases token_bytes.len() - i,
        {
            let ghost before = maps::bytes_map(m);
            if token_bytes[i].len() <= MAX_CACHED_TOKEN_LEN {
                maps::bytes_map_insert(&mut m, to_vec(token_bytes[i].as_slice()), i as u32);
            }
            proof {
                lemma_short_tokens_push(
                    before,
                    vocab.subrange(0, i as int),
                    vocab[i as int],
                    maps::bytes_map(m),
                );
                assert(vocab.subrange(0, i as int).push(vocab[i as int]) =~= vocab.subrange(
                    0,
                    i + 1,
                ));
            }
            i = i + 1;
        }
        assert(vocab.subrange(0, vocab.len() as int) =~= vocab);
        m
    }

    /// Create an encoder from its tables. It works as it should where the
    /// tables fit each other.
    pub fn from_parts(
        split_table: Vec<Split>,
        pair_lookup: foldhash::HashMap<u64, TokenId>,
        token_lengths: Vec<usize>,
        num_base_tokens: usize,
        matcher: daggrs::DoubleArrayAhoCorasick,
        next_prefix_match: Vec<TokenId>,
        token_bytes: &[Vec<u8>],
    ) -> (r: Self)
        requires
            token_bytes@.len() <= u32::MAX,
        ensures
            parts_fit(
                split_table@,
                token_lengths@,
                matcher,
                next_prefix_match@,
                views(token_bytes@),
            ) ==> r.wf(),
            r.looks_up(),
            r.vocab() == views(token_bytes@),
            r.splits() == split_table@,
            r.pairs() == maps::pair_map(pair_lookup),
            r.base_tokens() == num_base_tokens,
            r.automaton() == matcher,
            r.prefixes() == next_prefix_match@,
    {
        let token_cache = Self::build_token_cache(token_bytes);
        BacktrackingBytePairEncoder {
            split_table,
            pair_lookup,
            token_lengths,
            num_base_tokens,
            matcher,
            next_prefix_match,
            token_cache,
            tokens: Ghost(views(token_bytes@)),
        }
    }

    /// The encoder with the lengths and the map of short tokens of this vocabulary.
    pub(crate) fn with_token_tables(self, token_bytes: &[Vec<u8>]) -> (r: Self)
        requires
            token_bytes@.len() <= u32::MAX,
        ensures
            automaton::matcher_compiled(self.automaton()) && automaton::kept(
                automaton::matcher_patterns(self.automaton()),
            ) == automaton::kept(vocab_patterns(views(token_bytes@))) && token_bytes@.len() < 0x100_0000
                && splits_ok(views(token_bytes@), self.splits()) && prefixes_ok(
                views(token_bytes@),
                self.prefixes(),
            ) && tables_built(views(token_bytes@), self.automaton(), self.prefixes()) ==> r.wf(),
            r.vocab() == views(token_bytes@),
            r.splits() == self.splits(),
            r.pairs() == self.pairs(),
            r.base_tokens() == self.base_tokens(),
            r.automaton() == self.automaton(),
            r.prefixes() == self.prefixes(),
    {
        let token_lengths = Self::build_token_lengths(token_bytes);
        Self::from_parts(
            self.split_table,
            self.pair_lookup,
            token_lengths,
            self.num_base_tokens,
            self.matcher,
            self.next_prefix_match,
            token_bytes,
        )
    }

    /// The encoder of a vocabulary with its splits and pairs.
    fn of_tokens(
        split_table: Vec<Split>,
        pair_lookup: foldhash::HashMap<u64, TokenId>,
        num_base_tokens: usize,
        token_bytes: &[Vec<u8>],
    ) -> (r: Self)
        requires
            automaton::patterns_fit(vocab_patterns(views(token_bytes@))),
        ensures
            splits_ok(views(token_bytes@), split_table@) ==> r.wf(),
            r.looks_up(),
            r.rules() == (Rules {
                vocab: views(token_bytes@),
                splits: split_table@,
                pairs: maps::pair_map(pair_lookup),
            }),
            r.base_tokens() == num_base_tokens,
    {
        proof {
            lemma_patterns_size(vocab_patterns(views(token_bytes@)), 0);
        }
        let matcher = Self::build_matcher(token_bytes);
        let next_prefix_match = Self::build_prefixes(&matcher, token_bytes);
        let token_lengths = Self::build_token_lengths(token_bytes);
        Self::from_parts(
            split_table,
            pair_lookup,
            token_lengths,
            num_base_tokens,
            matcher,
            next_prefix_match,
            token_bytes,
        )
    }

    /// The automaton over the vocabulary.
    pub closed spec fn automaton(&self) -> daggrs::DoubleArrayAhoCorasick {
        self.matcher
    }

    /// The table of shorter tokens.
    pub closed spec fn prefixes(&self) -> Seq<TokenId> {
        self.next_prefix_match@
    }

    /// Create a BPE encoder from merge rules. Gives also the bytes of the tokens.
    pub fn from_merges(merges: &[(TokenId, TokenId)], base_tokens: &[Vec<u8>]) -> (r: (
        Self,
        Vec<Vec<u8>>,
    ))
        requires
            merges_ok(views(base_tokens@), seq![], merges@),
            base_tokens@.len() + merges@.len() <= u32::MAX,
            automaton::patterns_fit(
                vocab_patterns(built_rules(views(base_tokens@), seq![], merges@).vocab),
            ),
        ensures
            r.0.wf(),
            r.0.rules() == built_rules(views(base_tokens@), seq![], merges@),
            r.0.base_tokens() == base_tokens@.len(),
            views(r.1@) == r.0.vocab(),
    {
        let added: Vec<(u32, Vec<u8>)> = Vec::new();
        proof {
            assert(added_views(added@) =~= seq![]);
            assert(sorted_by_id(added_views(added@)) =~= seq![]);
        }
        Self::from_merges_with_added(merges, base_tokens, added.as_slice())
    }

    /// Create a BPE encoder from merge rules, handling added tokens: each
    /// comes in as soon as its id is reached, what is left comes in at the end.
    /// Gives also the bytes of the tokens.
    pub fn from_merges_with_added(
        merges: &[(TokenId, TokenId)],
        base_tokens: &[Vec<u8>],
        added_tokens: &[(u32, Vec<u8>)],
    ) -> (r: (Self, Vec<Vec<u8>>))
        requires
            merges_ok(views(base_tokens@), sorted_by_id(added_views(added_tokens@)), merges@),
            base_tokens@.len() + merges@.len() + sorted_by_id(added_views(added_tokens@)).len()
                <= u32::MAX,
            automaton::patterns_fit(
                vocab_patterns(
                    built_rules(
                        views(base_tokens@),
                        sorted_by_id(added_views(added_tokens@)),
                        merges@,
                    ).vocab,
                ),
            ),
        ensures
            r.0.wf(),
            r.0.rules() == built_rules(
                views(base_tokens@),
                sorted_by_id(added_views(added_tokens@)),
                merges@,
            ),
            r.0.base_tokens() == base_tokens@.len(),
            views(r.1@) == r.0.vocab(),
    {
        let num_base_tokens: usize = base_tokens.len();
        let ghost base = views(base_tokens@);
        let added = sort_added(added_tokens);
        let ghost all = added_views(added@);
        let mut split_table: Vec<Split> = Vec::new();
        let mut k: usize = 0;
        while k < num_base_tokens
            invariant
                k <= num_base_tokens <= u32::MAX,
                split_table@.len() == k,
                forall|i: int| 0 <= i < k ==> split_table@[i] == (Split {
                    left: i as u32,
                    right: i as u32,
                }),
            decreases num_base_tokens - k,
        {
            split_table.push(Split::base(k as u32));
            k = k + 1;
        }
        let mut token_bytes = clone_all(base_tokens);
        let mut pair_lookup = maps::new_pair_map();
        let mut taken: usize = 0;
        let mut i: usize = 0;
        proof {
            assert(merges@.subrange(0, 0) =~= seq![]);
            assert(split_table@ =~= base_rules(base).splits);
            assert(maps::pair_map(pair_lookup) =~= Map::empty());
            assert(merges@.subrange(0, merges@.len() as int) =~= merges@);
        }
        while i < merges.len()
            invariant
                i <= merges.len(),
                base.len() + merges@.len() + all.len() <= u32::MAX,
                all == added_views(added@),
                merges_ok(base, all, merges@),
                taken <= added@.len(),
                (
                    (Rules {
                        vocab: views(token_bytes@),
                        splits: split_table@,
                        pairs: maps::pair_map(pair_lookup),
                    }),
                    taken as int,
                ) == merged_rules(base, all, merges@.subrange(0, i as int)),
            decreases merges.len() - i,
        {
            let ghost now = merges@.subrange(0, i + 1);
            let ghost before = merged_rules(base, all, merges@.subrange(0, i as int));
            proof {
                assert(now.drop_last() =~= merges@.subrange(0, i as int));
                lemma_merges_ok_prefix(base, all, merges@, i + 1);
                lemma_merged_rules(base, all, merges@.subrange(0, i as int));
                lemma_with_added(before.0, all, before.1, before.0.vocab.len() as int);
                lemma_added_lens(before.0, all, before.1, before.0.vocab.len() as int);
            }
            let next_id: u32 = split_table.len() as u32;
            let ghost ready = with_added(before.0, all, before.1, next_id as int);
            while taken < added.len() && added[taken].0 <= next_id
                invariant
                    taken <= added@.len(),
                    all == added_views(added@),
                    split_table@.len() == token_bytes@.len(),
                    split_table@.len() + (added@.len() - taken) <= u32::MAX,
                    ready == with_added(
                        (Rules {
                            vocab: views(token_bytes@),
                            splits: split_table@,
                            pairs: maps::pair_map(pair_lookup),
                        }),
                        all,
                        taken as int,
                        next_id as int,
                    ),
                decreases added.len() - taken,
            {
                let ghost r0 = Rules {
                    vocab: views(token_bytes@),
                    splits: split_table@,
                    pairs: maps::pair_map(pair_lookup),
                };
                split_table.push(Split::base(split_table.len() as u32));
                token_bytes.push(to_vec(added[taken].1.as_slice()));
                proof {
                    let r1 = with_base(r0, all[taken as int].1);
                    assert(views(token_bytes@) =~= r1.vocab);
                    assert(split_table@ =~= r1.splits);
                }
                taken = taken + 1;
            }
            let left: TokenId = merges[i].0;
            let right: TokenId = merges[i].1;
            proof {
                assert(now.last() == merges@[i as int]);
                assert(ready.0.vocab =~= views(token_bytes@));
            }
            let ghost r0 = Rules {
                vocab: views(token_bytes@),
                splits: split_table@,
                pairs: maps::pair_map(pair_lookup),
            };
            let new_id: u32 = split_table.len() as u32;
            split_table.push(Split::merge(left, right));
            maps::pair_map_insert(&mut pair_lookup, pack_pair(left, right), new_id);
            let joined = joined_bytes(
                token_bytes[left as usize].as_slice(),
                token_bytes[right as usize].as_slice(),
            );
            token_bytes.push(joined);
            proof {
                let r1 = with_merge(r0, (left, right));
                assert(views(token_bytes@) =~= r1.vocab);
                assert(split_table@ =~= r1.splits);
            }
            i = i + 1;
        }
        proof {
            assert(merges@.subrange(0, merges@.len() as int) =~= merges@);
            lemma_merged_rules(base, all, merges@);
        }
        let ghost built = built_rules(base, all, merges@);
        while taken < added.len()
            invariant
                taken <= added@.len(),
                all == added_views(added@),
                split_table@.len() == token_bytes@.len(),
                split_table@.len() + (added@.len() - taken) <= u32::MAX,
                built == with_added(
                    (Rules {
                        vocab: views(token_bytes@),
                        splits: split_table@,
                        pairs: maps::pair_map(pair_lookup),
                    }),
                    all,
                    taken as int,
                    u32::MAX as int,
                ).0,
            decreases added.len() - taken,
        {
            let ghost r0 = Rules {
                vocab: views(token_bytes@),
                splits: split_table@,
                pairs: maps::pair_map(pair_lookup),
            };
            split_table.push(Split::base(split_table.len() as u32));
            token_bytes.push(to_vec(added[taken].1.as_slice()));
            proof {
                let r1 = with_base(r0, all[taken as int].1);
                assert(views(token_bytes@) =~= r1.vocab);
                assert(split_table@ =~= r1.splits);
            }
            taken = taken + 1;
        }
        proof {
            lemma_built_rules(base, all, merges@);
        }
        let encoder = Self::of_tokens(
            split_table,
            pair_lookup,
            num_base_tokens,
            token_bytes.as_slice(),
        );
        (encoder, token_bytes)
    }

    /// Create a BPE encoder from a complete vocabulary and merge rules: a
    /// merge makes the token of the vocabulary that has the bytes of both, and
    /// one without such a token is passed over. Gives also the bytes of the
    /// tokens. The ids are what pairs and splits speak of; an encoder whose
    /// splits lead nowhere, as where ids are not the places of the entries, is
    /// made and cannot encode.
    pub fn from_vocab_and_merges(
        vocab: &[(u32, Vec<u8>)],
        merges: &[(TokenId, TokenId)],
        num_base_tokens: usize,
    ) -> (r: (Self, Vec<Vec<u8>>))
        requires
            merges_within(vocab@.len(), merges@),
            automaton::patterns_fit(vocab_patterns(bytes_of(added_views(vocab@)))),
        ensures
            r.0.rules() == vocab_rules(added_views(vocab@), merges@),
            r.0.looks_up(),
            splits_ok(r.0.vocab(), r.0.splits()) ==> r.0.wf(),
            ids_in_order(added_views(vocab@)) ==> r.0.wf(),
            r.0.base_tokens() == num_base_tokens,
            views(r.1@) == bytes_of(added_views(vocab@)),
    {
        let ghost e = added_views(vocab@);
        proof {
            lemma_patterns_size(vocab_patterns(bytes_of(e)), 0);
        }
        let mut token_bytes: Vec<Vec<u8>> = Vec::new();
        let mut bytes_to_id = maps::new_bytes_map();
        let mut i: usize = 0;
        while i < vocab.len()
            invariant
                i <= vocab.len(),
                e == added_views(vocab@),
                token_bytes@.len() == i,
                forall|j: int| 0 <= j < i ==> (#[trigger] token_bytes@[j])@ == e[j].1,
                finds_ids(maps::bytes_map(bytes_to_id), e.subrange(0, i as int)),
            decreases vocab.len() - i,
        {
            let id: u32 = vocab[i].0;
            let ghost before = maps::bytes_map(bytes_to_id);
            token_bytes.push(to_vec(vocab[i].1.as_slice()));
            maps::bytes_map_insert(&mut bytes_to_id, to_vec(vocab[i].1.as_slice()), id);
            proof {
                let s = e.subrange(0, i + 1);
                assert(s.drop_last() =~= e.subrange(0, i as int));
                assert(s.last() == e[i as int]);
                let m = maps::bytes_map(bytes_to_id);
                assert forall|b: Seq<u8>|
                    {
                        &&& #[trigger] m.contains_key(b) == (last_id(s, b) is Some)
                        &&& m.contains_key(b) ==> Some(m[b]) == last_id(s, b)
                    } by {
                    assert(before.contains_key(b) == (last_id(s.drop_last(), b) is Some));
                }
            }
            i = i + 1;
        }
        proof {
            assert(e.subrange(0, e.len() as int) =~= e);
            assert(views(token_bytes@) =~= bytes_of(e));
        }
        let mut pair_lookup = maps::new_pair_map();
        let mut lefts = maps::new_pair_map();
        let mut rights = maps::new_pair_map();
        proof {
            assert(maps::pair_map(pair_lookup) =~= Map::empty());
            assert(merges@.subrange(0, 0) =~= seq![]);
        }
        let mut k: usize = 0;
        while k < merges.len()
            invariant
                k <= merges.len(),
                e == added_views(vocab@),
                e.len() == vocab@.len() == token_bytes@.len(),
                forall|j: int| 0 <= j < e.len() ==> (#[trigger] token_bytes@[j])@ == e[j].1,
                merges_within(e.len(), merges@),
                finds_ids(maps::bytes_map(bytes_to_id), e),
                maps::pair_map(pair_lookup) == merge_pairs(e, merges@.subrange(0, k as int)),
                finds_firsts(
                    maps::pair_map(lefts),
                    maps::pair_map(rights),
                    e,
                    merges@.subrange(0, k as int),
                ),
            decreases merges.len() - k,
        {
            let left: TokenId = merges[k].0;
            let right: TokenId = merges[k].1;
            let joined = joined_bytes(
                token_bytes[left as usize].as_slice(),
                token_bytes[right as usize].as_slice(),
            );
            let ghost s = merges@.subrange(0, k + 1);
            let ghost before = (maps::pair_map(lefts), maps::pair_map(rights));
            proof {
                assert(s.drop_last() =~= merges@.subrange(0, k as int));
                assert(s.last() == merges@[k as int]);
            }
            match maps::bytes_map_get(&bytes_to_id, joined.as_slice()) {
                Some(id) => {
                    assert(made_id(e, s.last()) == Some(id));
                    assert(first_merge(e, s.drop_last(), id) is Some
                        == before.0.contains_key(id as u64));
                    maps::pair_map_insert(&mut pair_lookup, pack_pair(left, right), id);
                    if maps::pair_map_get(&lefts, id as u64).is_none() {
                        maps::pair_map_insert(&mut lefts, id as u64, left);
                        maps::pair_map_insert(&mut rights, id as u64, right);
                    }
                },
                None => {
                    assert(made_id(e, s.last()) is None);
                },
            }
            proof {
                let (l, r) = (maps::pair_map(lefts), maps::pair_map(rights));
                assert forall|id: u32|
                    match #[trigger] first_merge(e, s, id) {
                        Some(m) => l.contains_key(id as u64) && r.contains_key(id as u64) && l[id as u64]
                            == m.0 && r[id as u64] == m.1,
                        None => !l.contains_key(id as u64) && !r.contains_key(id as u64),
                    } by {
                    assert(first_merge(e, s.drop_last(), id) is Some == before.0.contains_key(
                        id as u64,
                    ));
                }
            }
            k = k + 1;
        }
        assert(merges@.subrange(0, merges@.len() as int) =~= merges@);
        let mut split_table: Vec<Split> = Vec::new();
        let mut j: usize = 0;
        while j < vocab.len()
            invariant
                j <= vocab.len(),
                e == added_views(vocab@),
                split_table@.len() == j,
                forall|i: int| 0 <= i < j ==> #[trigger] split_table@[i] == entry_split(
                    e,
                    merges@,
                    i,
                ),
                finds_firsts(maps::pair_map(lefts), maps::pair_map(rights), e, merges@),
            decreases vocab.len() - j,
        {
            let id: u32 = vocab[j].0;
            assert(e[j as int].0 == id);
            assert(first_merge(e, merges@, id) is Some == maps::pair_map(lefts).contains_key(
                id as u64,
            ));
            let split = match (
                maps::pair_map_get(&lefts, id as u64),
                maps::pair_map_get(&rights, id as u64),
            ) {
                (Some(left), Some(right)) => Split::merge(left, right),
                _ => Split::base(id),
            };
            split_table.push(split);
            j = j + 1;
        }
        proof {
            assert(split_table@ =~= vocab_rules(e, merges@).splits);
            if ids_in_order(e) {
                law_vocab_splits(e, merges@);
            }
        }
        let encoder = Self::of_tokens(
            split_table,
            pair_lookup,
            num_base_tokens,
            token_bytes.as_slice(),
        );
        (encoder, token_bytes)
    }
}

/// A map from bytes to the id of the last entry with them.
spec fn finds_ids(m: Map<Seq<u8>, TokenId>, e: Seq<(u32, Seq<u8>)>) -> bool {
    forall|b: Seq<u8>|
        {
            &&& #[trigger] m.contains_key(b) == (last_id(e, b) is Some)
            &&& m.contains_key(b) ==> Some(m[b]) == last_id(e, b)
        }
}

/// Maps from ids to what the first merge that makes them joins.
spec fn finds_firsts(
    lefts: Map<u64, TokenId>,
    rights: Map<u64, TokenId>,
    e: Seq<(u32, Seq<u8>)>,
    merges: Seq<(TokenId, TokenId)>,
) -> bool {
    forall|id: u32|
        match #[trigger] first_merge(e, merges, id) {
            Some(m) => lefts.contains_key(id as u64) && rights.contains_key(id as u64)
                && lefts[id as u64] == m.0 && rights[id as u64] == m.1,
            None => !lefts.contains_key(id as u64) && !rights.contains_key(id as u64),
        }
}

/// The first merges are in order if all are.
proof fn lemma_merges_ok_prefix(
    base: Seq<Seq<u8>>,
    added: Seq<(u32, Seq<u8>)>,
    merges: Seq<(TokenId, TokenId)>,
    i: int,
)
    requires
        merges_ok(base, added, merges),
        0 <= i <= merges.len(),
    ensures
        merges_ok(base, added, merges.subrange(0, i)),
    decreases merges.len(),
{
    if i < merges.len() {
        lemma_merges_ok_prefix(base, added, merges.drop_last(), i);
        assert(merges.drop_last().subrange(0, i) =~= merges.subrange(0, i));
    } else {
        assert(merges.subrange(0, i) =~= merges);
    }
}

// ---- encoding ----

/// Minimum text size to encode in chunks (10KB).
pub const PARALLEL_THRESHOLD: usize = 10_000;

/// Where a long text is cut: before a space or a newline.
pub open spec fn boundaries() -> Seq<u8> {
    seq![0x20u8, 0x0Au8]
}

/// The chunks that a long text is encoded in, one for each of `workers`.
pub open spec fn worker_chunks(b: Seq<u8>, workers: int) -> Seq<Seq<u8>> {
    chunks::chunks_from(b, 0, b.len() as int / workers, boundaries())
}

/// The tokens of texts, one text after another.
pub open spec fn bpe_all(r: Rules, parts: Seq<Seq<u8>>) -> Seq<TokenId>
    decreases parts.len(),
{
    if parts.len() == 0 {
        seq![]
    } else {
        bpe_all(r, parts.drop_last()) + bpe(r, parts.last())
    }
}

/// The tokens of a text; a long one is cut into chunks first.
pub open spec fn encoding(r: Rules, b: Seq<u8>, workers: int) -> Seq<TokenId> {
    if b.len() < PARALLEL_THRESHOLD {
        bpe(r, b)
    } else {
        bpe_all(r, worker_chunks(b, workers))
    }
}

/// A long text has a byte for each of the workers.
pub open spec fn workers_ok(b: Seq<u8>, workers: int) -> bool {
    0 < workers && (b.len() >= PARALLEL_THRESHOLD ==> workers <= b.len())
}

/// What the cache holds of a text are its tokens.
pub open spec fn cache_sound(r: Rules, c: PretokenCache) -> bool {
    &&& c.wf()
    &&& forall|b: Seq<u8>, t: Seq<TokenId>| #[trigger] c.contains(b, t) ==> t == bpe(r, b)
}

/// A part of a text that is covered is covered.
pub proof fn lemma_covers_part(vocab: Seq<Seq<u8>>, b: Seq<u8>, i: int, j: int)
    requires
        covers(vocab, b),
        0 <= i <= j <= b.len(),
    ensures
        covers(vocab, b.subrange(i, j)),
{
    let p = b.subrange(i, j);
    assert forall|k: int| 0 <= k < p.len() implies #[trigger] is_token(vocab, seq![p[k]]) by {
        assert(is_token(vocab, seq![b[i + k]]));
    }
}

/// Each chunk of a covered text is covered, and not longer than the text.
pub proof fn lemma_chunks_covered(vocab: Seq<Seq<u8>>, b: Seq<u8>, pos: int, size: int, d: Seq<u8>)
    requires
        covers(vocab, b),
        0 <= pos,
        size > 0,
    ensures
        forall|i: int|
            0 <= i < chunks::chunks_from(b, pos, size, d).len() ==> covers(
                vocab,
                #[trigger] chunks::chunks_from(b, pos, size, d)[i],
            ) && chunks::chunks_from(b, pos, size, d)[i].len() <= b.len(),
    decreases b.len() - pos,
{
    if pos < b.len() {
        let end = chunks::chunk_end(b, pos, size, d);
        chunks::lemma_chunk_end(b, pos, size, d);
        lemma_covers_part(vocab, b, pos, end);
        lemma_chunks_covered(vocab, b, end, size, d);
        let c = chunks::chunks_from(b, pos, size, d);
        let rest = chunks::chunks_from(b, end, size, d);
        assert forall|i: int| 0 <= i < c.len() implies covers(vocab, #[trigger] c[i])
            && c[i].len() <= b.len() by {
            if i > 0 {
                assert(c[i] == rest[i - 1]);
            }
        }
    }
}

impl BacktrackingBytePairEncoder {
    /// The token that a short text is as a whole, if it is one.
    pub fn whole_token(&self, text: &[u8]) -> (r: Option<TokenId>)
        requires
            text@.len() > 0,
        ensures
            self.looks_up() ==> (r is Some <==> text@.len() <= MAX_CACHED_TOKEN_LEN && is_token(
                self.vocab(),
                text@,
            )),
            self.looks_up() ==> (r matches Some(t) ==> bpe(self.rules(), text@) == seq![t]),
            self.wf() ==> self.looks_up(),
    {
        if text.len() > MAX_CACHED_TOKEN_LEN {
            return None;
        }
        let r = maps::bytes_map_get(&self.token_cache, text);
        proof {
            if self.looks_up() {
                assert(maps::bytes_map(self.token_cache).contains_key(text@) <==> is_token(
                    self.vocab(),
                    text@,
                ));
                if let Some(t) = r {
                    law_whole_token(self.rules(), text@, t as int);
                }
            }
        }
        r
    }

    /// Encode a text in one go.
    pub fn encode_sequential(&self, text: &[u8]) -> (out: Vec<TokenId>)
        requires
            self.wf(),
            encodes(self.vocab(), text@),
        ensures
            out@ == bpe(self.rules(), text@),
    {
        if text.len() == 0 {
            return Vec::new();
        }
        if let Some(t) = self.whole_token(text) {
            return vec![t];
        }
        let mut out: Vec<TokenId> = Vec::new();
        self.encode_sequential_into(text, &mut out);
        assert(out@ =~= bpe(self.rules(), text@));
        out
    }

    /// Split text into chunks at boundary characters (space/newline).
    pub fn split_at_boundaries<'a>(text: &'a [u8], workers: usize) -> (r: Vec<(usize, usize)>)
        requires
            0 < workers <= text@.len(),
        ensures
            r@.len() == worker_chunks(text@, workers as int).len(),
            forall|i: int|
                0 <= i < r@.len() ==> (#[trigger] r@[i]).0 <= r@[i].1 <= text@.len()
                    && text@.subrange(r@[i].0 as int, r@[i].1 as int) == worker_chunks(
                    text@,
                    workers as int,
                )[i],
    {
        let n: usize = text.len();
        let size: usize = n / workers;
        proof {
            vstd::arithmetic::div_mod::lemma_div_non_zero(text@.len() as int, workers as int);
        }
        let delimiters: [u8; 2] = [0x20, 0x0A];
        assert(delimiters@ =~= boundaries());
        let parts = chunks::chunks(text, size, delimiters.as_slice());
        let mut out: Vec<(usize, usize)> = Vec::new();
        let ghost all = worker_chunks(text@, workers as int);
        let ghost d = boundaries();
        let mut pos: usize = 0;
        let mut i: usize = 0;
        while i < parts.len()
            invariant
                i <= parts.len(),
                size > 0,
                chunks::slices(parts@) == all,
                d == boundaries(),
                pos <= text@.len() == n,
                all.subrange(i as int, all.len() as int) == chunks::chunks_from(
                    text@,
                    pos as int,
                    size as int,
                    d,
                ),
                out@.len() == i,
                forall|j: int|
                    0 <= j < i ==> (#[trigger] out@[j]).0 <= out@[j].1 <= text@.len()
                        && text@.subrange(out@[j].0 as int, out@[j].1 as int) == all[j],
            decreases parts.len() - i,
        {
            proof {
                let rest = all.subrange(i as int, all.len() as int);
                assert(rest.len() > 0);
                assert(pos < text@.len());
                chunks::lemma_chunk_end(text@, pos as int, size as int, d);
                let end = chunks::chunk_end(text@, pos as int, size as int, d);
                assert(rest[0] == text@.subrange(pos as int, end));
                assert(rest[0] == chunks::slices(parts@)[i as int]);
                assert(rest[0].len() == end - pos);
                assert(rest.subrange(1, rest.len() as int) =~= chunks::chunks_from(
                    text@,
                    end,
                    size as int,
                    d,
                ));
                assert(all.subrange(i + 1, all.len() as int) =~= rest.subrange(
                    1,
                    rest.len() as int,
                ));
            }
            let part: &[u8] = parts[i];
            let end: usize = pos + part.len();
            out.push((pos, end));
            pos = end;
            i = i + 1;
        }
        out
    }

    /// Encode text into BPE tokens. A long text is cut into a chunk for each
    /// of `workers`, and these are encoded on their own.
    pub fn encode(&self, text: &[u8], workers: usize) -> (out: Vec<TokenId>)
        requires
            self.wf(),
            fits(self.vocab(), text@, workers as int),
            workers_ok(text@, workers as int),
        ensures
            out@ == encoding(self.rules(), text@, workers as int),
    {
        if text.len() < PARALLEL_THRESHOLD {
            return self.encode_sequential(text);
        }
        let parts = Self::split_at_boundaries(text, workers);
        let ghost all = worker_chunks(text@, workers as int);
        proof {
            vstd::arithmetic::div_mod::lemma_div_non_zero(text@.len() as int, workers as int);
            assert(all.subrange(0, 0) =~= seq![]);
        }
        let mut out: Vec<TokenId> = Vec::new();
        let mut i: usize = 0;
        while i < parts.len()
            invariant
                self.wf(),
                i <= parts.len(),
                parts@.len() == all.len(),
                forall|j: int| 0 <= j < all.len() ==> encodes(self.vocab(), #[trigger] all[j]),
                forall|j: int|
                    0 <= j < parts@.len() ==> (#[trigger] parts@[j]).0 <= parts@[j].1
                        <= text@.len() && text@.subrange(
                        parts@[j].0 as int,
                        parts@[j].1 as int,
                    ) == all[j],
                out@ == bpe_all(self.rules(), all.subrange(0, i as int)),
            decreases parts.len() - i,
        {
            let part = slice_subrange(text, parts[i].0, parts[i].1);
            assert(part@ == all[i as int]);
            let tokens = self.encode_sequential(part);
            proof {
                let s = all.subrange(0, i + 1);
                assert(s.drop_last() =~= all.subrange(0, i as int));
                assert(s.last() == all[i as int]);
            }
            let ghost before = out@;
            out.extend_from_slice(tokens.as_slice());
            assert(out@ =~= before + tokens@);
            i = i + 1;
        }
        assert(all.subrange(0, all.len() as int) =~= all);
        out
    }

    /// Encode multiple texts, each on its own.
    pub fn encode_batch(&self, texts: &[&[u8]]) -> (out: Vec<Vec<TokenId>>)
        requires
            self.wf(),
            forall|i: int|
                0 <= i < texts@.len() ==> encodes(self.vocab(), (#[trigger] texts@[i])@),
        ensures
            out@.len() == texts@.len(),
            forall|i: int|
                0 <= i < texts@.len() ==> (#[trigger] out@[i])@ == bpe(self.rules(), texts@[i]@),
    {
        let mut out: Vec<Vec<TokenId>> = Vec::new();
        let mut i: usize = 0;
        while i < texts.len()
            invariant
                self.wf(),
                i <= texts.len(),
                forall|j: int|
                    0 <= j < texts@.len() ==> encodes(self.vocab(), (#[trigger] texts@[j])@),
                out@.len() == i,
                forall|j: int|
                    0 <= j < i ==> (#[trigger] out@[j])@ == bpe(self.rules(), texts@[j]@),
            decreases texts.len() - i,
        {
            assert(encodes(self.vocab(), texts@[i as int]@));
            out.push(self.encode_sequential(texts[i]));
            i = i + 1;
        }
        out
    }

    /// Append the encoding of one pretokenized piece to `out`, by way of a
    /// cache if there is one: pieces that repeat are looked up there.
    pub fn encode_into(
        &self,
        text: &[u8],
        cache: Option<&mut PretokenCache>,
        workers: usize,
        out: &mut Vec<TokenId>,
    )
        requires
            self.wf(),
            fits(self.vocab(), text@, workers as int),
            workers_ok(text@, workers as int),
            cache matches Some(c) ==> cache_sound(self.rules(), *c),
        ensures
            final(out)@ == old(out)@ + encoding(self.rules(), text@, workers as int),
            cache matches Some(c) ==> cache_sound(self.rules(), *final(c)),
    {
        match cache {
            Some(c) => self.encode_cached(text, c, workers, out),
            None => {
                let tokens = self.encode(text, workers);
                out.extend_from_slice(tokens.as_slice());
                assert(out@ =~= old(out)@ + tokens@);
            },
        }
    }

    /// Append the encoding of one piece to `out`, by way of a cache.
    fn encode_cached(
        &self,
        text: &[u8],
        cache: &mut PretokenCache,
        workers: usize,
        out: &mut Vec<TokenId>,
    )
        requires
            self.wf(),
            fits(self.vocab(), text@, workers as int),
            workers_ok(text@, workers as int),
            cache_sound(self.rules(), *old(cache)),
        ensures
            final(out)@ == old(out)@ + encoding(self.rules(), text@, workers as int),
            cache_sound(self.rules(), *final(cache)),
    {
        if text.len() == 0 {
            assert(out@ =~= old(out)@ + encoding(self.rules(), text@, workers as int));
            return;
        }
        if text.len() <= CACHE_KEY_MAX {
            if cache.get(text, out) {
                return;
            }
        }
        let tokens = self.encode(text, workers);
        out.extend_from_slice(tokens.as_slice());
        assert(out@ =~= old(out)@ + tokens@);
        cache.insert(text, tokens.as_slice());
        proof {
            assert forall|b: Seq<u8>, t: Seq<TokenId>| #[trigger]
                cache.contains(b, t) implies t == bpe(self.rules(), b) by {
                if !old(cache).contains(b, t) {
                    assert(b == text@ && t == tokens@);
                }
            }
        }
    }

    /// Get the vocabulary size.
    pub fn vocab_size(&self) -> (n: usize)
        requires
            self.wf(),
        ensures
            n == self.vocab().len(),
    {
        self.token_lengths.len()
    }

    /// Get the number of base tokens.
    pub fn num_base_tokens(&self) -> (n: usize)
        ensures
            n == self.base_tokens(),
    {
        self.num_base_tokens
    }

    /// Get a reference to the split table.
    pub fn split_table(&self) -> (s: &[Split])
        ensures
            s@ == self.splits(),
    {
        self.split_table.as_slice()
    }

    /// Get a reference to the automaton over the vocabulary.
    pub fn matcher(&self) -> (m: &daggrs::DoubleArrayAhoCorasick)
        ensures
            *m == self.automaton(),
    {
        &self.matcher
    }

    /// Get a reference to the table of shorter tokens.
    pub fn next_prefix_match_table(&self) -> (s: &[TokenId])
        ensures
            s@ == self.prefixes(),
    {
        self.next_prefix_match.as_slice()
    }
}

/// Every byte that UTF-8 text can hold is a token.
pub open spec fn complete(vocab: Seq<Seq<u8>>) -> bool {
    forall|b: u8| text::in_texts(b) ==> #[trigger] is_token(vocab, seq![b])
}

/// A text of which every byte is a token can be searched.
pub proof fn law_covered_is_searchable(vocab: Seq<Seq<u8>>, b: Seq<u8>)
    requires
        covers(vocab, b),
    ensures
        searchable(vocab, b),
{
    assert forall|i: int| 0 <= i < b.len() && #[trigger] led_to(vocab, b, i) implies goes_on(
        vocab,
        b,
        i,
    ) by {
        let rest = b.subrange(i, b.len() as int);
        assert(is_token(vocab, seq![b[i]]));
        assert(rest[0] == b[i]);
        lemma_covered_has_next(vocab, rest);
        assert forall|t: int| #[trigger] stands(vocab, b, i, t) implies prefix_clear(vocab, t) by {
            if vocab[t].len() > 1 {
                lemma_shorter_exists(vocab, b, i, t);
            }
        }
    }
}

/// A text of which every byte is a token can be encoded, whole or in chunks.
pub proof fn law_covered_fits(vocab: Seq<Seq<u8>>, b: Seq<u8>, workers: int)
    requires
        covers(vocab, b),
        workers_ok(b, workers),
    ensures
        fits(vocab, b, workers),
{
    law_covered_is_searchable(vocab, b);
    if b.len() >= PARALLEL_THRESHOLD {
        let parts = worker_chunks(b, workers);
        vstd::arithmetic::div_mod::lemma_div_non_zero(b.len() as int, workers);
        lemma_chunks_covered(vocab, b, 0, b.len() as int / workers, boundaries());
        assert forall|i: int| 0 <= i < parts.len() implies encodes(vocab, #[trigger] parts[i]) by {
            law_covered_is_searchable(vocab, parts[i]);
        }
    }
}

/// A vocabulary with every byte that texts can hold covers every text.
pub proof fn law_complete_covers(vocab: Seq<Seq<u8>>, b: Seq<u8>)
    requires
        complete(vocab),
        valid_utf8(b),
    ensures
        covers(vocab, b),
{
    text::lemma_bytes_of_texts(b);
}

/// Of the tokens with the same bytes there is a last one.
proof fn lemma_last_token_exists(vocab: Seq<Seq<u8>>, b: Seq<u8>, n: int) -> (v: int)
    requires
        0 <= n <= vocab.len(),
        exists|k: int| 0 <= k < n && #[trigger] vocab[k] == b,
        forall|k: int| n <= k < vocab.len() ==> #[trigger] vocab[k] != b,
    ensures
        last_token(vocab, b, v),
    decreases n,
{
    if vocab[n - 1] == b {
        n - 1
    } else {
        lemma_last_token_exists(vocab, b, n - 1)
    }
}

/// Which token a text is as a whole depends on the vocabulary alone.
pub proof fn law_whole_token_by_vocab(r: Rules, q: Rules, b: Seq<u8>)
    requires
        r.vocab == q.vocab,
        r.vocab.len() <= u32::MAX,
        b.len() > 0,
        is_token(r.vocab, b),
    ensures
        bpe(r, b) == bpe(q, b),
{
    let v = lemma_last_token_exists(r.vocab, b, r.vocab.len() as int);
    law_whole_token(r, b, v);
    law_whole_token(q, b, v);
}

impl BacktrackingBytePairEncoder {
    /// The tables of an encoder in order fit each other.
    pub proof fn lemma_parts_fit(&self)
        requires
            self.wf(),
        ensures
            automaton::matcher_compiled(self.automaton()),
            automaton::kept(automaton::matcher_patterns(self.automaton())) == automaton::kept(
                vocab_patterns(self.vocab()),
            ),
            splits_ok(self.vocab(), self.splits()),
            prefixes_ok(self.vocab(), self.prefixes()),
            tables_built(self.vocab(), self.automaton(), self.prefixes()),
            self.vocab().len() < 0x100_0000,
            self.looks_up(),
    {
    }

    /// The vocabulary is small enough for token ids.
    pub proof fn lemma_vocab_small(&self)
        requires
            self.wf(),
        ensures
            self.vocab().len() < 0x100_0000,
    {
    }

    /// Is every byte that UTF-8 text can hold a token?
    pub fn is_complete(&self) -> (r: bool)
        requires
            self.wf(),
        ensures
            r == complete(self.vocab()),
    {
        let mut i: u32 = 0;
        while i < 256
            invariant
                self.wf(),
                i <= 256,
                forall|b: u8|
                    b < i && text::in_texts(b) ==> #[trigger] is_token(self.vocab(), seq![b]),
            decreases 256 - i,
        {
            let one: Vec<u8> = vec![i as u8];
            assert(one@ =~= seq![i as u8]);
            if i <= 0xF4 && i != 0xC0 && i != 0xC1 && self.whole_token(
                one.as_slice(),
            ).is_none() {
                assert(!is_token(self.vocab(), seq![i as u8]));
                return false;
            }
            i = i + 1;
        }
        true
    }
}

// ---- asking whether a text can be encoded ----

/// Of the tokens at a place, each that is shorter than `t` is no longer than
/// the longest that `t` starts with.
proof fn lemma_next_shorter(vocab: Seq<Seq<u8>>, b: Seq<u8>, i: int, t: int, u: int)
    requires
        stands(vocab, b, i, t),
        stands(vocab, b, i, u),
        vocab[u].len() < vocab[t].len(),
    ensures
        shorter_token(vocab, t) matches Some(s) && vocab[u].len() <= vocab[s].len(),
{
    let d = vocab[t].drop_last();
    let p = vocab_patterns(vocab);
    assert(d.subrange(0, vocab[u].len() as int) =~= b.subrange(i, i + vocab[u].len()));
    assert(p[u].0 == vocab[u]);
    assert(automaton::prefix_pattern(p, d, u));
    lemma_next_token(vocab, d);
    let s = next_token(vocab, d)->0;
    assert(longest_token(vocab, d, s));
    assert(p[s].0 == vocab[s]);
}

/// What is known of the tokens at `i` once those longer than `n` bytes are
/// seen: they end at places that are marked.
spec fn seen(vocab: Seq<Seq<u8>>, b: Seq<u8>, marks: Seq<bool>, i: int, n: int) -> bool {
    forall|t: int| #[trigger]
        stands(vocab, b, i, t) && vocab[t].len() > n ==> marks[i + vocab[t].len()]
            && prefix_clear(vocab, t)
}

/// Every mark up to the end is a place that tokens lead to, and what the tokens
/// before `i` lead to is marked.
spec fn marked_to(vocab: Seq<Seq<u8>>, b: Seq<u8>, marks: Seq<bool>, i: int) -> bool {
    &&& marks.len() == b.len() + 1
    &&& forall|j: int| 0 <= j <= b.len() && #[trigger] marks[j] ==> led_to(vocab, b, j)
    &&& marks[0]
    &&& forall|j: int, t: int|
        0 <= j < i && led_to(vocab, b, j) && #[trigger] stands(vocab, b, j, t) ==> marks[j
            + vocab[t].len()]
}

/// A place up to `i` is marked if tokens lead to it.
proof fn lemma_marked(vocab: Seq<Seq<u8>>, b: Seq<u8>, marks: Seq<bool>, i: int)
    requires
        0 <= i <= b.len(),
        marked_to(vocab, b, marks, i),
    ensures
        marks[i] == led_to(vocab, b, i),
{
    if led_to(vocab, b, i) && i != 0 {
        let (j, t) = choose|j: int, t: int|
            0 <= j < i && #[trigger] stands(vocab, b, j, t) && j + vocab[t].len() == i && led_to(
                vocab,
                b,
                j,
            );
        assert(stands(vocab, b, j, t));
    }
}

impl BacktrackingBytePairEncoder {
    /// The longest token that the text starts with, if there is one.
    fn token_at(&self, text: &[u8]) -> (r: Option<TokenId>)
        requires
            self.wf(),
        ensures
            match r {
                Some(t) => next_token(self.vocab(), text@) == Some(t as int) && self.has(t),
                None => next_token(self.vocab(), text@) is None,
            },
    {
        let ghost p = automaton::matcher_patterns(self.matcher);
        let ghost q = vocab_patterns(self.vocab());
        proof {
            lemma_next_token(self.vocab(), text@);
            if let Some(k) = next_token(self.vocab(), text@) {
                let i = automaton::lemma_alike(p, q, text@, k);
                assert(p[i].1 == k);
            }
        }
        match automaton::first_match(&self.matcher, text) {
            Some((id, from, to)) => {
                if from == 0 {
                    proof {
                        let k = choose|k: int|
                            0 <= k < p.len() && #[trigger] p[k] == (
                                text@.subrange(0, to as int),
                                id,
                            );
                        let m = automaton::lemma_kept_alike(p, q, k);
                        assert(automaton::prefix_pattern(q, text@, m));
                    }
                    Some(id)
                } else {
                    None
                }
            },
            None => None,
        }
    }

    /// Does a token stand in the text?
    fn holds_token(&self, text: &[u8]) -> (r: bool)
        requires
            self.wf(),
        ensures
            r == exists|i: int, k: int| stands(self.vocab(), text@, i, k),
    {
        let n: usize = text.len();
        let mut o: usize = 0;
        while o < n
            invariant
                self.wf(),
                n == text@.len(),
                o <= n,
                forall|i: int, k: int| i < o ==> !#[trigger] stands(self.vocab(), text@, i, k),
            decreases n - o,
        {
            let rest = slice_subrange(text, o, n);
            let found = self.token_at(rest);
            proof {
                lemma_next_token(self.vocab(), rest@);
                match found {
                    Some(t) => {
                        let m = self.vocab()[t as int].len() as int;
                        assert(text@.subrange(o as int, o + m) =~= rest@.subrange(0, m));
                        assert(stands(self.vocab(), text@, o as int, t as int));
                    },
                    None => {
                        assert forall|k: int| !#[trigger] stands(
                            self.vocab(),
                            text@,
                            o as int,
                            k,
                        ) by {
                            if stands(self.vocab(), text@, o as int, k) {
                                let p = vocab_patterns(self.vocab());
                                let m = self.vocab()[k].len() as int;
                                assert(rest@.subrange(0, m) =~= text@.subrange(o as int, o + m));
                                assert(p[k].0 == self.vocab()[k]);
                                assert(automaton::prefix_pattern(p, rest@, k));
                            }
                        }
                    },
                }
            }
            if found.is_some() {
                return true;
            }
            o = o + 1;
        }
        false
    }

    /// Mark where the tokens at `i` end; `false` where the search from there
    /// would go astray.
    fn mark_tokens(&self, text: &[u8], i: usize, marks: &mut Vec<bool>) -> (ok: bool)
        requires
            self.wf(),
            i < text@.len(),
            led_to(self.vocab(), text@, i as int),
            marked_to(self.vocab(), text@, old(marks)@, i as int),
        ensures
            ok == goes_on(self.vocab(), text@, i as int),
            ok ==> marked_to(self.vocab(), text@, final(marks)@, i + 1),
    {
        let ghost vocab = self.vocab();
        let ghost b = text@;
        let n: usize = text.len();
        let rest = slice_subrange(text, i, n);
        let mut cand: Option<TokenId> = self.token_at(rest);
        proof {
            lemma_next_token(vocab, rest@);
            match cand {
                Some(t) => {
                    let m = vocab[t as int].len() as int;
                    assert(b.subrange(i as int, i + m) =~= rest@.subrange(0, m));
                    assert(stands(vocab, b, i as int, t as int));
                    assert forall|u: int| #[trigger] stands(vocab, b, i as int, u) implies vocab[u].len()
                        <= m by {
                        let p = vocab_patterns(vocab);
                        let w = vocab[u].len() as int;
                        assert(rest@.subrange(0, w) =~= b.subrange(i as int, i + w));
                        assert(p[u].0 == vocab[u] && p[t as int].0 == vocab[t as int]);
                        assert(automaton::prefix_pattern(p, rest@, u));
                    }
                },
                None => {},
            }
        }
        if cand.is_none() {
            return false;
        }
        while cand.is_some()
            invariant
                self.wf(),
                vocab == self.vocab(),
                b == text@,
                n == b.len(),
                i < n,
                led_to(vocab, b, i as int),
                next_token(vocab, b.subrange(i as int, n as int)) is Some,
                marked_to(vocab, b, marks@, i as int),
                match cand {
                    Some(t) => stands(vocab, b, i as int, t as int) && seen(
                        vocab,
                        b,
                        marks@,
                        i as int,
                        vocab[t as int].len() as int,
                    ),
                    None => seen(vocab, b, marks@, i as int, 0),
                },
            decreases
                    match cand {
                        Some(t) => vocab[t as int].len() as int,
                        None => 0int,
                    },
        {
            let t: TokenId = cand.unwrap();
            let len: usize = self.token_len(t);
            let front = slice_subrange(text, i, i + len - 1);
            let ghost before = marks@;
            marks.set(i + len, true);
            proof {
                assert(front@ =~= vocab[t as int].drop_last());
                assert(led_to(vocab, b, i + len));
                assert forall|j: int, u: int|
                    0 <= j < i && led_to(vocab, b, j) && #[trigger] stands(
                        vocab,
                        b,
                        j,
                        u,
                    ) implies marks@[j + vocab[u].len()] by {
                    assert(before[j + vocab[u].len()]);
                }
                assert forall|u: int| #[trigger]
                    stands(vocab, b, i as int, u) && vocab[u].len() > len implies marks@[i
                    + vocab[u].len()] && prefix_clear(vocab, u) by {
                    assert(before[i + vocab[u].len()]);
                }
                assert forall|u: int| #[trigger]
                    stands(vocab, b, i as int, u) && vocab[u].len() == len implies vocab[u]
                    == vocab[t as int] by {}
            }
            let shorter: Option<TokenId> = if len > 1 {
                self.token_at(front)
            } else {
                None
            };
            if len > 1 && shorter.is_none() && self.holds_token(front) {
                assert(!prefix_clear(vocab, t as int));
                return false;
            }
            proof {
                assert(shorter_token(vocab, t as int) == match shorter {
                    Some(s) => Some(s as int),
                    None => None,
                });
                assert(prefix_clear(vocab, t as int));
                assert forall|u: int| #[trigger]
                    stands(vocab, b, i as int, u) && vocab[u].len() == len implies prefix_clear(
                    vocab,
                    u,
                ) by {
                    assert(vocab[u] == vocab[t as int]);
                }
                lemma_shorter(vocab, t as int);
                assert forall|u: int| #[trigger]
                    stands(vocab, b, i as int, u) && vocab[u].len() < len implies match shorter {
                    Some(s) => vocab[u].len() <= vocab[s as int].len(),
                    None => false,
                } by {
                    lemma_next_shorter(vocab, b, i as int, t as int, u);
                }
                if let Some(s) = shorter {
                    let (v, w) = (vocab[t as int], vocab[s as int]);
                    assert(v.subrange(0, w.len() as int) == w);
                    assert(b.subrange(i as int, i + w.len()) =~= v.subrange(0, w.len() as int));
                }
            }
            cand = shorter;
        }
        true
    }

    /// Does a token stand wherever tokens lead in the text?
    pub fn is_searchable(&self, text: &[u8]) -> (r: bool)
        requires
            self.wf(),
        ensures
            r == searchable(self.vocab(), text@),
    {
        let ghost vocab = self.vocab();
        let ghost b = text@;
        let n: usize = text.len();
        if n == 0 {
            return true;
        }
        let mut marks: Vec<bool> = vec![false; n];
        marks.push(false);
        marks.set(0, true);
        let mut i: usize = 0;
        while i < n
            invariant
                self.wf(),
                vocab == self.vocab(),
                b == text@,
                n == b.len(),
                i <= n,
                marked_to(vocab, b, marks@, i as int),
                forall|j: int| 0 <= j < i && #[trigger] led_to(vocab, b, j) ==> goes_on(vocab, b, j),
            decreases n - i,
        {
            proof {
                lemma_marked(vocab, b, marks@, i as int);
            }
            if marks[i] {
                if !self.mark_tokens(text, i, &mut marks) {
                    assert(!searchable(vocab, b));
                    return false;
                }
            }
            i = i + 1;
        }
        true
    }

    /// Is the text a short token, or one that can be searched for tokens?
    pub fn can_encode(&self, text: &[u8]) -> (r: bool)
        requires
            self.wf(),
        ensures
            r == encodes(self.vocab(), text@),
    {
        if text.len() == 0 {
            return true;
        }
        self.whole_token(text).is_some() || self.is_searchable(text)
    }

    /// Can a text be encoded, a long one in chunks?
    pub fn fits(&self, text: &[u8], workers: usize) -> (r: bool)
        requires
            self.wf(),
            workers_ok(text@, workers as int),
        ensures
            r == fits(self.vocab(), text@, workers as int),
    {
        if text.len() < PARALLEL_THRESHOLD {
            return self.can_encode(text);
        }
        let parts = Self::split_at_boundaries(text, workers);
        let ghost all = worker_chunks(text@, workers as int);
        let mut i: usize = 0;
        while i < parts.len()
            invariant
                self.wf(),
                i <= parts.len(),
                text@.len() >= PARALLEL_THRESHOLD,
                all == worker_chunks(text@, workers as int),
                parts@.len() == all.len(),
                forall|j: int|
                    0 <= j < parts@.len() ==> (#[trigger] parts@[j]).0 <= parts@[j].1
                        <= text@.len() && text@.subrange(
                        parts@[j].0 as int,
                        parts@[j].1 as int,
                    ) == all[j],
                forall|j: int| 0 <= j < i ==> encodes(self.vocab(), #[trigger] all[j]),
            decreases parts.len() - i,
        {
            let part = slice_subrange(text, parts[i].0, parts[i].1);
            assert(part@ == all[i as int]);
            if !self.can_encode(part) {
                assert(!fits(self.vocab(), text@, workers as int));
                return false;
            }
            i = i + 1;
        }
        true
    }
}

} // verus!
