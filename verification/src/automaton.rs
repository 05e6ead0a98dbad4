//! Multi-pattern matching with a double-array Aho-Corasick automaton.
//!
//! An automaton is seen through its patterns: byte strings with ids, in the
//! order in which they were added. It reports the longest pattern at each
//! place where it finds one, or every place where a pattern stands.
use crate::bytes;
use vstd::prelude::*;

verus! {

/// A pattern: its bytes and its id.
pub type Pattern = (Seq<u8>, u32);

/// The patterns of a trie, in the order in which they were added.
pub uninterp spec fn trie_patterns(t: daggrs::Trie) -> Seq<Pattern>;

/// The patterns of an automaton, in the order in which they were added.
pub uninterp spec fn matcher_patterns(m: daggrs::DoubleArrayAhoCorasick) -> Seq<Pattern>;

/// The automaton was compiled from a trie, or is a copy of one that was.
pub uninterp spec fn matcher_compiled(m: daggrs::DoubleArrayAhoCorasick) -> bool;

/// The automaton was compiled from a trie without empty patterns, to report
/// every place where a pattern stands.
pub uninterp spec fn matcher_overlapping(m: daggrs::DoubleArrayAhoCorasick) -> bool;

/// The bytes that an automaton is written as.
pub uninterp spec fn matcher_bytes(m: daggrs::DoubleArrayAhoCorasick) -> Seq<u8>;

/// The bytes that the automaton compiled from these patterns is written as.
pub uninterp spec fn compiled_bytes(patterns: Seq<Pattern>) -> Seq<u8>;

/// The matches that an automaton with these patterns reports in a text: id,
/// start and end of each.
pub uninterp spec fn matches_in(patterns: Seq<Pattern>, text: Seq<u8>) -> Seq<(u32, int, int)>;

/// Trusted: `daggrs::Trie`, seen only through its patterns.
#[verifier::external_type_specification]
#[verifier::external_body]
pub struct ExTrie(daggrs::Trie);

/// Trusted: `daggrs::DoubleArrayAhoCorasick`, seen only through its patterns.
#[verifier::external_type_specification]
#[verifier::external_body]
pub struct ExDoubleArrayAhoCorasick(daggrs::DoubleArrayAhoCorasick);

/// What a pattern takes up beside its bytes.
pub const PATTERN_COST: usize = 256;

/// What patterns may take up together.
pub const PATTERN_ROOM: usize = 0xffff_0000;

/// What the patterns take up together: their bytes, and a block each.
pub open spec fn patterns_size(patterns: Seq<Pattern>) -> int
    decreases patterns.len(),
{
    if patterns.len() == 0 {
        0
    } else {
        patterns_size(patterns.drop_last()) + patterns.last().0.len() + PATTERN_COST
    }
}

/// The patterns have room in an automaton, whose states are numbered in 32
/// bits. There is one state for each byte at most. The numbers are set out in
/// blocks of 256: a new one is begun where none is free, or where the states
/// that follow one state do not go together, and fewer states than there are
/// patterns have more than one that follows.
pub open spec fn patterns_fit(patterns: Seq<Pattern>) -> bool {
    patterns_size(patterns) < PATTERN_ROOM
}

/// `p` starts with the bytes of `q`.
pub open spec fn starts_with(p: Seq<u8>, q: Seq<u8>) -> bool {
    q.len() <= p.len() && p.subrange(0, q.len() as int) == q
}

/// The pattern `k` is not empty, and the text starts with it.
pub open spec fn prefix_pattern(patterns: Seq<Pattern>, text: Seq<u8>, k: int) -> bool {
    0 <= k < patterns.len() && patterns[k].0.len() > 0 && starts_with(text, patterns[k].0)
}

/// The pattern `k` is the longest that the text starts with, and of several
/// with its bytes the last one.
pub open spec fn longest_prefix_pattern(patterns: Seq<Pattern>, text: Seq<u8>, k: int) -> bool {
    &&& prefix_pattern(patterns, text, k)
    &&& forall|j: int|
        prefix_pattern(patterns, text, j) ==> (#[trigger] patterns[j]).0.len()
            < patterns[k].0.len() || (patterns[j].0.len() == patterns[k].0.len() && j <= k)
}

/// What an automaton keeps of its patterns: the id of each, and of several with
/// the same bytes the id of the last one.
pub open spec fn kept(patterns: Seq<Pattern>) -> Map<Seq<u8>, u32>
    decreases patterns.len(),
{
    if patterns.len() == 0 {
        Map::empty()
    } else {
        kept(patterns.drop_last()).insert(patterns.last().0, patterns.last().1)
    }
}

/// The pattern `k` is the last one with its bytes.
pub open spec fn last_with_bytes(patterns: Seq<Pattern>, k: int) -> bool {
    &&& 0 <= k < patterns.len()
    &&& forall|j: int| k < j < patterns.len() ==> (#[trigger] patterns[j]).0 != patterns[k].0
}

/// What is kept of some bytes is the last pattern with these bytes.
proof fn lemma_kept(patterns: Seq<Pattern>, b: Seq<u8>) -> (k: int)
    ensures
        kept(patterns).contains_key(b) ==> last_with_bytes(patterns, k) && patterns[k].0 == b
            && patterns[k].1 == kept(patterns)[b],
        forall|j: int|
            0 <= j < patterns.len() && (#[trigger] patterns[j]).0 == b ==> kept(
                patterns,
            ).contains_key(b),
    decreases patterns.len(),
{
    if patterns.len() == 0 {
        0
    } else if patterns.last().0 == b {
        patterns.len() - 1
    } else {
        let front = patterns.drop_last();
        let k = lemma_kept(front, b);
        assert forall|j: int|
            0 <= j < patterns.len() && (#[trigger] patterns[j]).0 == b implies kept(
            patterns,
        ).contains_key(b) by {
            assert(front[j].0 == b);
        }
        assert forall|j: int| k < j < patterns.len() && kept(front).contains_key(b) implies (
        #[trigger] patterns[j]).0 != patterns[k].0 by {
            if j < front.len() {
                assert(front[j].0 != front[k].0);
            }
        }
        k
    }
}

/// Two lists of patterns of which the same is kept have the same bytes.
pub proof fn lemma_kept_alike(p: Seq<Pattern>, q: Seq<Pattern>, k: int) -> (m: int)
    requires
        kept(p) == kept(q),
        0 <= k < p.len(),
    ensures
        0 <= m < q.len(),
        q[m].0 == p[k].0,
{
    let b = p[k].0;
    let i = lemma_kept(p, b);
    assert(kept(p).contains_key(b));
    lemma_kept(q, b)
}

/// Two lists of patterns of which the same is kept find the same at the start
/// of a text.
pub proof fn lemma_alike(p: Seq<Pattern>, q: Seq<Pattern>, text: Seq<u8>, k: int) -> (i: int)
    requires
        kept(p) == kept(q),
        longest_prefix_pattern(q, text, k),
    ensures
        longest_prefix_pattern(p, text, i),
        p[i] == q[k],
{
    let b = q[k].0;
    let m = lemma_kept(q, b);
    assert(q[k].0 == b);
    assert(prefix_pattern(q, text, m));
    assert(m == k);
    let i = lemma_kept(p, b);
    assert(p[i] == q[k]);
    assert forall|j: int| prefix_pattern(p, text, j) implies (#[trigger] p[j]).0.len()
        < p[i].0.len() || (p[j].0.len() == p[i].0.len() && j <= i) by {
        let c = p[j].0;
        let other = lemma_kept(p, c);
        let there = lemma_kept(q, c);
        assert(prefix_pattern(q, text, there));
        if c.len() == b.len() {
            assert(c == b);
        }
    }
    i
}

/// A match is a place where a pattern with its id stands in the text.
pub open spec fn is_match(patterns: Seq<Pattern>, text: Seq<u8>, m: (u32, int, int)) -> bool {
    &&& 0 <= m.1 < m.2 <= text.len()
    &&& exists|k: int|
        0 <= k < patterns.len() && #[trigger] patterns[k] == (text.subrange(m.1, m.2), m.0)
}

/// Each match is a place where its pattern stands, and each starts at the end
/// of the one before it or later.
pub open spec fn matches_in_order(
    patterns: Seq<Pattern>,
    text: Seq<u8>,
    found: Seq<(u32, int, int)>,
) -> bool {
    &&& forall|i: int| 0 <= i < found.len() ==> is_match(patterns, text, #[trigger] found[i])
    &&& forall|i: int, j: int|
        0 <= i < j < found.len() ==> (#[trigger] found[i]).2 <= (#[trigger] found[j]).1
}

/// In every text, the matches of an automaton with these patterns are in order.
pub open spec fn finds_in_order(patterns: Seq<Pattern>) -> bool {
    forall|text: Seq<u8>|
        matches_in_order(patterns, text, #[trigger] matches_in(patterns, text))
}

/// Trusted: `daggrs::Trie::new` makes a trie without patterns.
#[verifier::external_body]
pub(crate) fn new_trie() -> (t: daggrs::Trie)
    ensures
        trie_patterns(t) == Seq::<Pattern>::empty(),
{
    daggrs::Trie::new()
}

/// Trusted: `daggrs::Trie::add` adds one pattern behind the others.
#[verifier::external_body]
pub(crate) fn add_pattern(t: &mut daggrs::Trie, pattern: &[u8], id: u32)
    requires
        patterns_fit(trie_patterns(*old(t)).push((pattern@, id))),
    ensures
        trie_patterns(*final(t)) == trie_patterns(*old(t)).push((pattern@, id)),
{
    t.add(pattern, id)
}

/// Trusted: `daggrs::Trie::build` in its leftmost-longest mode and
/// `daggrs::Trie::compile` make the automaton of the patterns, the same one
/// each time. Whatever the text, each match that it reports is a place where
/// its pattern stands, and starts at the end of the one before it or later.
#[verifier::external_body]
pub(crate) fn compile(t: daggrs::Trie) -> (m: daggrs::DoubleArrayAhoCorasick)
    requires
        patterns_fit(trie_patterns(t)),
    ensures
        matcher_compiled(m),
        matcher_patterns(m) == trie_patterns(t),
        matcher_bytes(m) == compiled_bytes(trie_patterns(t)),
        finds_in_order(matcher_patterns(m)),
{
    let mut t = t;
    t.build(daggrs::MatchKind::LeftmostLongest);
    t.compile()
}

/// Trusted: the first match of `daggrs::DoubleArrayAhoCorasick::find_iter`,
/// as id, start and end. It is the first of all matches. Where a pattern
/// stands at the start of the text, it is the longest such pattern. In a text
/// that starts with no pattern, which of the later patterns is reported is
/// not said beyond that it stands there.
#[verifier::external_body]
pub(crate) fn first_match(m: &daggrs::DoubleArrayAhoCorasick, text: &[u8]) -> (r: Option<
    (u32, usize, usize),
>)
    requires
        matcher_compiled(*m),
    ensures
        match r {
            Some(x) => {
                &&& matches_in(matcher_patterns(*m), text@).len() > 0
                &&& matches_in(matcher_patterns(*m), text@)[0] == (x.0, x.1 as int, x.2 as int)
                &&& is_match(matcher_patterns(*m), text@, (x.0, x.1 as int, x.2 as int))
            },
            None => matches_in(matcher_patterns(*m), text@).len() == 0,
        },
        forall|k: int| #[trigger]
            longest_prefix_pattern(matcher_patterns(*m), text@, k) ==> r == Some(
                (
                    matcher_patterns(*m)[k].1,
                    0usize,
                    matcher_patterns(*m)[k].0.len() as usize,
                ),
            ),
{
    m.find_iter(text).next().map(|x| (x.pattern_id, x.start, x.end))
}

/// Trusted: the matches of `daggrs::DoubleArrayAhoCorasick::find_iter`,
/// collected, as id, start and end. Each is a place where its pattern stands,
/// and each starts at the end of the one before it or later.
#[verifier::external_body]
pub(crate) fn all_matches(m: &daggrs::DoubleArrayAhoCorasick, text: &[u8]) -> (r: Vec<
    (u32, usize, usize),
>)
    requires
        matcher_compiled(*m),
    ensures
        r@.map_values(|x: (u32, usize, usize)| (x.0, x.1 as int, x.2 as int)) == matches_in(
            matcher_patterns(*m),
            text@,
        ),
        matches_in_order(
            matcher_patterns(*m),
            text@,
            r@.map_values(|x: (u32, usize, usize)| (x.0, x.1 as int, x.2 as int)),
        ),
{
    m.find_iter(text).map(|x| (x.pattern_id, x.start, x.end)).collect()
}

/// The patterns that stand in the text from `s` or later up to `e`, the longest
/// first: id, start and end of each.
pub open spec fn overlaps_ending(
    kept: Map<Seq<u8>, u32>,
    text: Seq<u8>,
    s: int,
    e: int,
) -> Seq<(u32, int, int)>
    decreases e - s,
{
    if s >= e {
        seq![]
    } else if kept.contains_key(text.subrange(s, e)) {
        seq![(kept[text.subrange(s, e)], s, e)] + overlaps_ending(kept, text, s + 1, e)
    } else {
        overlaps_ending(kept, text, s + 1, e)
    }
}

/// Every place among the first `e` bytes of the text where a pattern stands,
/// by where it ends, of those with one end the longest first.
pub open spec fn overlaps(kept: Map<Seq<u8>, u32>, text: Seq<u8>, e: int) -> Seq<
    (u32, int, int),
>
    decreases e,
{
    if e <= 0 {
        seq![]
    } else {
        overlaps(kept, text, e - 1) + overlaps_ending(kept, text, 0, e)
    }
}

/// Trusted: `daggrs::Trie::build` in its overlapping mode and
/// `daggrs::Trie::compile` make the automaton of the patterns.
#[verifier::external_body]
pub(crate) fn compile_overlapping(t: daggrs::Trie) -> (m: daggrs::DoubleArrayAhoCorasick)
    requires
        patterns_fit(trie_patterns(t)),
        forall|i: int|
            0 <= i < trie_patterns(t).len() ==> (#[trigger] trie_patterns(t)[i]).0.len() > 0,
    ensures
        matcher_overlapping(m),
        matcher_patterns(m) == trie_patterns(t),
{
    let mut t = t;
    t.build(daggrs::MatchKind::Overlapping);
    t.compile()
}

/// Trusted: the matches of `daggrs::DoubleArrayAhoCorasick::find_iter` on an
/// overlapping automaton, collected: every place where a pattern stands.
#[verifier::external_body]
pub(crate) fn all_overlaps(m: &daggrs::DoubleArrayAhoCorasick, text: &[u8]) -> (r: Vec<
    (u32, usize, usize),
>)
    requires
        matcher_overlapping(*m),
    ensures
        r@.map_values(|x: (u32, usize, usize)| (x.0, x.1 as int, x.2 as int)) == overlaps(
            kept(matcher_patterns(*m)),
            text@,
            text@.len() as int,
        ),
{
    m.find_iter(text).map(|x| (x.pattern_id, x.start, x.end)).collect()
}

/// Trusted: the first match of `daggrs::DoubleArrayAhoCorasick::find_iter` on
/// an overlapping automaton.
#[verifier::external_body]
pub(crate) fn first_overlap(m: &daggrs::DoubleArrayAhoCorasick, text: &[u8]) -> (r: Option<
    (u32, usize, usize),
>)
    requires
        matcher_overlapping(*m),
    ensures
        match r {
            Some(x) => {
                let found = overlaps(kept(matcher_patterns(*m)), text@, text@.len() as int);
                found.len() > 0 && found[0] == (x.0, x.1 as int, x.2 as int)
            },
            None => overlaps(kept(matcher_patterns(*m)), text@, text@.len() as int).len() == 0,
        },
{
    m.find_iter(text).next().map(|x| (x.pattern_id, x.start, x.end))
}

/// Trusted: `daggrs::DoubleArrayAhoCorasick::serialize` writes all that an
/// automaton holds, so that automata with the same bytes keep the same
/// patterns.
#[verifier::external_body]
pub(crate) fn write_matcher(m: &daggrs::DoubleArrayAhoCorasick) -> (r: Vec<u8>)
    ensures
        r@ == matcher_bytes(*m),
        forall|o: daggrs::DoubleArrayAhoCorasick| #[trigger]
            matcher_bytes(o) == r@ && matcher_compiled(o) ==> matcher_compiled(*m) && kept(
                matcher_patterns(*m),
            ) == kept(matcher_patterns(o)),
{
    m.serialize()
}

/// The bytes hold a number of states, the states, a number of outputs, the
/// outputs, one of four kinds, and an anchor; more may follow.
pub open spec fn matcher_readable(d: Seq<u8>) -> bool {
    let states = bytes::u32_at(d, 0) as int;
    let outputs = bytes::u32_at(d, 4 + 16 * states) as int;
    &&& 4 <= d.len()
    &&& 8 + 16 * states <= d.len()
    &&& 13 + 16 * states + 12 * outputs <= d.len()
    &&& d[8 + 16 * states + 12 * outputs] <= 3
}

/// Trusted: `daggrs::DoubleArrayAhoCorasick::deserialize`, without the bytes
/// that it leaves. What was written of a compiled automaton is read as an
/// automaton that keeps the same patterns. Of the patterns in other bytes
/// nothing is said.
#[verifier::external_body]
pub(crate) fn read_matcher(data: &[u8]) -> (r: Option<daggrs::DoubleArrayAhoCorasick>)
    ensures
        r is Some <==> matcher_readable(data@),
        forall|m: daggrs::DoubleArrayAhoCorasick| #[trigger]
            matcher_compiled(m) && data@ == matcher_bytes(m) ==> {
                &&& r is Some
                &&& matcher_compiled(r->0)
                &&& kept(matcher_patterns(r->0)) == kept(matcher_patterns(m))
                &&& matcher_bytes(r->0) == matcher_bytes(m)
            },
{
    daggrs::DoubleArrayAhoCorasick::deserialize(data).map(|x| x.0)
}

} // verus!
