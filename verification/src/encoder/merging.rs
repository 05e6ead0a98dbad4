//! Byte pair encoding as it is defined: merge after merge, in order.
//!
//! A text starts as one token for each byte; each merge in turn then replaces
//! the pairs that it joins, from left to right. The search of
//! [`backtracking`] finds the same tokens.
use super::backtracking;
use super::backtracking::Rules;
use crate::automaton;
use crate::types::TokenId;
use vstd::prelude::*;

verus! {

// ---- the definition ----

/// The token `k` came about by a merge.
pub open spec fn is_merge(r: Rules, k: int) -> bool {
    0 <= k < r.splits.len() && !(r.splits[k].left == k && r.splits[k].right == k)
}

/// The token of a byte.
pub open spec fn byte_token(vocab: Seq<Seq<u8>>, x: u8) -> TokenId {
    (choose|k: int| 0 <= k < vocab.len() && #[trigger] vocab[k] == seq![x]) as u32
}

/// The tokens of the bytes of a text.
pub open spec fn byte_tokens(vocab: Seq<Seq<u8>>, b: Seq<u8>) -> Seq<TokenId> {
    Seq::new(b.len(), |i: int| byte_token(vocab, b[i]))
}

/// The tokens, with `t` for each `left` and `right` that stand next to each
/// other, taken from left to right.
pub open spec fn joined(s: Seq<TokenId>, left: TokenId, right: TokenId, t: TokenId) -> Seq<TokenId>
    decreases s.len(),
{
    if s.len() < 2 {
        s
    } else if s[0] == left && s[1] == right {
        seq![t] + joined(s.subrange(2, s.len() as int), left, right, t)
    } else {
        seq![s[0]] + joined(s.subrange(1, s.len() as int), left, right, t)
    }
}

/// The tokens of a text after the merges that make tokens below `limit`.
pub open spec fn merged_below(r: Rules, b: Seq<u8>, limit: int) -> Seq<TokenId>
    decreases limit,
{
    if limit <= 0 {
        byte_tokens(r.vocab, b)
    } else {
        let s = merged_below(r, b, limit - 1);
        if is_merge(r, limit - 1) {
            joined(
                s,
                r.splits[limit - 1].left,
                r.splits[limit - 1].right,
                (limit - 1) as u32,
            )
        } else {
            s
        }
    }
}

/// The tokens of a text after all merges.
pub open spec fn merged(r: Rules, b: Seq<u8>) -> Seq<TokenId> {
    merged_below(r, b, r.vocab.len() as int)
}

// ---- vocabularies that merges make ----

/// The token `k` is a byte or came about by a merge.
pub open spec fn is_plain(r: Rules, k: int) -> bool {
    0 <= k < r.vocab.len() && (r.vocab[k].len() == 1 || is_merge(r, k))
}

/// The token `c` is there when the merge that makes `k` comes.
pub open spec fn is_ready(r: Rules, c: int, k: int) -> bool {
    is_plain(r, c) && (is_merge(r, c) ==> c < k)
}

/// What a merge joins is there when it comes, its token has the bytes of both,
/// and the pair leads to it.
pub open spec fn merge_ok(r: Rules, k: int) -> bool {
    let s = r.splits[k];
    &&& is_ready(r, s.left as int, k)
    &&& is_ready(r, s.right as int, k)
    &&& r.vocab[k] == r.vocab[s.left as int] + r.vocab[s.right as int]
    &&& r.pairs.contains_key(backtracking::packed(s.left, s.right))
    &&& r.pairs[backtracking::packed(s.left, s.right)] == k
}

/// Pairs lead to what their merge makes.
pub open spec fn pairs_ok(r: Rules) -> bool {
    forall|key: u64| #[trigger]
        r.pairs.contains_key(key) ==> is_merge(r, r.pairs[key] as int) && key
            == backtracking::packed(
            r.splits[r.pairs[key] as int].left,
            r.splits[r.pairs[key] as int].right,
        )
}

/// No two tokens have the same bytes.
pub open spec fn tokens_differ(vocab: Seq<Seq<u8>>) -> bool {
    forall|i: int, j: int|
        0 <= i < vocab.len() && 0 <= j < vocab.len() && #[trigger] vocab[i] == #[trigger] vocab[j]
            ==> i == j
}

/// The merges make the vocabulary, in the order of the tokens they make.
pub open spec fn merges_make(r: Rules) -> bool {
    &&& backtracking::splits_ok(r.vocab, r.splits)
    &&& r.vocab.len() <= u32::MAX
    &&& tokens_differ(r.vocab)
    &&& pairs_ok(r)
    &&& forall|k: int| #[trigger] is_merge(r, k) ==> merge_ok(r, k)
}

/// Each merge can happen: its two tokens can stand next to each other until
/// it comes.
pub open spec fn merges_happen(r: Rules) -> bool {
    forall|k: int| #[trigger]
        is_merge(r, k) ==> backtracking::pair_ok(
            r,
            r.splits[k].left as int,
            r.splits[k].right as int,
            k,
        )
}

/// The bytes stand somewhere in the text.
pub open spec fn occurs(b: Seq<u8>, part: Seq<u8>) -> bool {
    exists|i: int|
        0 <= i && i + part.len() <= b.len() && #[trigger] b.subrange(i, i + part.len()) == part
}

/// The tokens that stand in the text are bytes or came about by merges.
pub open spec fn only_plain(r: Rules, b: Seq<u8>) -> bool {
    forall|k: int|
        0 <= k < r.vocab.len() && #[trigger] r.vocab[k].len() > 0 && occurs(b, r.vocab[k])
            ==> is_plain(r, k)
}

// ---- sequences in which every two neighbours may stand next to each other ----

/// Each token may stand next to the following one, as far as the merges below
/// `limit` go.
pub open spec fn linked(r: Rules, s: Seq<TokenId>, limit: int) -> bool
    decreases s.len(),
{
    s.len() < 2 || {
        &&& backtracking::pair_ok(r, s[0] as int, s[1] as int, limit)
        &&& linked(r, s.subrange(1, s.len() as int), limit)
    }
}

/// The tokens are there when the merge that makes `k` comes.
pub open spec fn all_ready(r: Rules, s: Seq<TokenId>, k: int) -> bool {
    forall|i: int| 0 <= i < s.len() ==> is_ready(r, #[trigger] s[i] as int, k)
}

/// A pair that the merge of `k` does not join is not changed by it.
proof fn lemma_pair_kept(r: Rules, x: int, y: int, k: int)
    requires
        merges_make(r),
        is_merge(r, k),
        0 <= x < r.vocab.len(),
        0 <= y < r.vocab.len(),
    ensures
        backtracking::pair_ok(r, x, y, k + 1) <==> backtracking::pair_ok(r, x, y, k) && !(x
            == r.splits[k].left && y == r.splits[k].right),
{
    let s = r.splits[k];
    assert(merge_ok(r, k));
    let key = backtracking::packed(x as u32, y as u32);
    if r.pairs.contains_key(key) && r.pairs[key] == k {
        backtracking::lemma_packed_injective(x as u32, y as u32, s.left, s.right);
    }
}

/// What a merged pair leads to comes after both of its tokens, if merges made
/// them.
proof fn lemma_pair_later(r: Rules, x: int, y: int, k: int)
    requires
        merges_make(r),
        0 <= x < r.vocab.len(),
        0 <= y < r.vocab.len(),
        x == k || y == k,
        is_merge(r, k),
    ensures
        ({
            let key = backtracking::packed(x as u32, y as u32);
            !(r.pairs.contains_key(key) && r.pairs[key] < k + 1)
        }),
{
    let key = backtracking::packed(x as u32, y as u32);
    if r.pairs.contains_key(key) {
        let m = r.pairs[key] as int;
        assert(merge_ok(r, m));
        backtracking::lemma_packed_injective(
            x as u32,
            y as u32,
            r.splits[m].left,
            r.splits[m].right,
        );
    }
}

/// Behind a token just merged stands what could stand behind its right half.
proof fn lemma_pair_left(r: Rules, y: int, k: int)
    requires
        merges_make(r),
        is_merge(r, k),
        is_ready(r, y, k),
    ensures
        backtracking::pair_ok(r, k, y, k + 1) <==> backtracking::pair_ok(
            r,
            r.splits[k].right as int,
            y,
            k,
        ),
{
    assert(merge_ok(r, k));
    lemma_pair_later(r, k, y, k);
    assert(backtracking::split_ok(r.vocab, r.splits[k], k));
    assert(backtracking::split_ok(r.vocab, r.splits[y], y));
}

/// Before a token just merged stands what could stand before its left half.
proof fn lemma_pair_right(r: Rules, x: int, k: int)
    requires
        merges_make(r),
        is_merge(r, k),
        is_ready(r, x, k) || x == k,
    ensures
        backtracking::pair_ok(r, x, k, k + 1) <==> backtracking::pair_ok(
            r,
            x,
            r.splits[k].left as int,
            k + 1,
        ),
{
    assert(merge_ok(r, k));
    lemma_pair_later(r, x, k, k);
    assert(backtracking::split_ok(r.vocab, r.splits[k], k));
    assert(backtracking::split_ok(r.vocab, r.splits[x], x));
}

// ---- merging keeps neighbours that may stand next to each other ----

/// A token put in front of tokens.
proof fn lemma_front(r: Rules, x: TokenId, s: Seq<TokenId>, limit: int)
    ensures
        (seq![x] + s).subrange(1, s.len() as int + 1) == s,
        backtracking::token_bytes_of(r.vocab, seq![x] + s) == r.vocab[x as int]
            + backtracking::token_bytes_of(r.vocab, s),
        linked(r, seq![x] + s, limit) <==> linked(r, s, limit) && (s.len() > 0
            ==> backtracking::pair_ok(r, x as int, s[0] as int, limit)),
        forall|k: int|
            is_ready(r, x as int, k) && all_ready(r, s, k) ==> #[trigger] all_ready(
                r,
                seq![x] + s,
                k,
            ),
{
    let all = seq![x] + s;
    assert(all.subrange(1, s.len() as int + 1) =~= s);
    backtracking::lemma_token_bytes_front(r.vocab, x, s);
    if s.len() > 0 {
        assert(all[1] == s[0]);
    }
    assert forall|k: int| is_ready(r, x as int, k) && all_ready(r, s, k) implies #[trigger] all_ready(
        r,
        all,
        k,
    ) by {
        assert forall|i: int| 0 <= i < all.len() implies is_ready(r, #[trigger] all[i] as int, k) by {
            if i > 0 {
                assert(all[i] == s[i - 1]);
            }
        }
    }
}

/// Tokens are the first of them and the rest.
proof fn lemma_uncons(r: Rules, s: Seq<TokenId>, k: int, limit: int)
    requires
        s.len() > 0,
        all_ready(r, s, k),
        linked(r, s, limit),
    ensures
        s == seq![s[0]] + s.subrange(1, s.len() as int),
        is_ready(r, s[0] as int, k),
        all_ready(r, s.subrange(1, s.len() as int), k),
        linked(r, s.subrange(1, s.len() as int), limit),
        s.len() > 1 ==> backtracking::pair_ok(r, s[0] as int, s[1] as int, limit),
{
    let rest = s.subrange(1, s.len() as int);
    assert(s =~= seq![s[0]] + rest);
    assert forall|i: int| 0 <= i < rest.len() implies is_ready(r, #[trigger] rest[i] as int, k) by {
        assert(rest[i] == s[i + 1]);
    }
}

/// After the merge of `k`, neighbours may still stand next to each other, and
/// the bytes are the same.
#[verifier::rlimit(60)]
#[verifier::spinoff_prover]
proof fn lemma_joined(r: Rules, s: Seq<TokenId>, k: int)
    requires
        merges_make(r),
        is_merge(r, k),
        all_ready(r, s, k),
        linked(r, s, k),
    ensures
        ({
            let sp = r.splits[k];
            let t = joined(s, sp.left, sp.right, k as u32);
            &&& all_ready(r, t, k + 1)
            &&& linked(r, t, k + 1)
            &&& backtracking::token_bytes_of(r.vocab, t) == backtracking::token_bytes_of(
                r.vocab,
                s,
            )
            &&& t.len() > 0 <==> s.len() > 0
            &&& s.len() > 0 ==> (t[0] == s[0] || (t[0] == k && s[0] == sp.left))
        }),
    decreases s.len(),
{
    let sp = r.splits[k];
    let (l, q) = (sp.left, sp.right);
    let t = joined(s, l, q, k as u32);
    assert(merge_ok(r, k));
    assert(is_ready(r, k, k + 1));
    if s.len() >= 1 {
        lemma_uncons(r, s, k, k);
        let rest = s.subrange(1, s.len() as int);
        if s.len() == 1 {
            assert(all_ready(r, t, k + 1));
        } else if s[0] == l && s[1] == q {
            lemma_uncons(r, rest, k, k);
            let tail = s.subrange(2, s.len() as int);
            assert(rest.subrange(1, rest.len() as int) =~= tail);
            lemma_joined(r, tail, k);
            let u = joined(tail, l, q, k as u32);
            lemma_front(r, k as u32, u, k + 1);
            lemma_front(r, q, tail, k);
            lemma_front(r, l, rest, k);
            assert(r.vocab[l as int] + (r.vocab[q as int] + backtracking::token_bytes_of(
                r.vocab,
                tail,
            )) =~= r.vocab[k] + backtracking::token_bytes_of(r.vocab, tail));
            if u.len() > 0 {
                assert(tail[0] == rest[1]);
                assert(backtracking::pair_ok(r, q as int, tail[0] as int, k));
                lemma_pair_left(r, tail[0] as int, k);
                lemma_pair_left(r, l as int, k);
                lemma_pair_right(r, k, k);
            }
        } else {
            lemma_joined(r, rest, k);
            let u = joined(rest, l, q, k as u32);
            let x = s[0];
            lemma_front(r, x, u, k + 1);
            lemma_front(r, x, rest, k);
            assert(is_ready(r, x as int, k + 1));
            if u.len() > 0 {
                assert(rest[0] == s[1]);
                lemma_pair_kept(r, x as int, rest[0] as int, k);
                lemma_pair_kept(r, x as int, l as int, k);
                lemma_pair_right(r, x as int, k);
            }
        }
    }
}

/// The tokens with `k` taken apart.
spec fn apart(r: Rules, s: Seq<TokenId>, k: int) -> Seq<TokenId>
    decreases s.len(),
{
    if s.len() == 0 {
        s
    } else {
        let rest = apart(r, s.subrange(1, s.len() as int), k);
        if s[0] == k {
            seq![r.splits[k].left] + (seq![r.splits[k].right] + rest)
        } else {
            seq![s[0]] + rest
        }
    }
}

/// What is taken apart, the merge joins again, and nothing else.
#[verifier::rlimit(60)]
#[verifier::spinoff_prover]
proof fn lemma_apart(r: Rules, s: Seq<TokenId>, k: int)
    requires
        merges_make(r),
        merges_happen(r),
        is_merge(r, k),
        all_ready(r, s, k + 1),
        linked(r, s, k + 1),
    ensures
        ({
            let sp = r.splits[k];
            let t = apart(r, s, k);
            &&& all_ready(r, t, k)
            &&& linked(r, t, k)
            &&& joined(t, sp.left, sp.right, k as u32) == s
            &&& backtracking::token_bytes_of(r.vocab, t) == backtracking::token_bytes_of(
                r.vocab,
                s,
            )
            &&& t.len() > 0 <==> s.len() > 0
            &&& s.len() > 0 ==> t[0] == (if s[0] == k {
                sp.left
            } else {
                s[0]
            })
        }),
    decreases s.len(),
{
    let sp = r.splits[k];
    let (l, q) = (sp.left, sp.right);
    let t = apart(r, s, k);
    assert(merge_ok(r, k));
    if s.len() > 0 {
        lemma_uncons(r, s, k + 1, k + 1);
        let rest = s.subrange(1, s.len() as int);
        lemma_apart(r, rest, k);
        let u = apart(r, rest, k);
        lemma_front(r, s[0], rest, k + 1);
        if rest.len() > 0 {
            assert(rest[0] == s[1]);
            assert(is_ready(r, rest[0] as int, k + 1));
        }
        if s[0] == k {
            let v = seq![q] + u;
            lemma_front(r, q, u, k);
            lemma_front(r, l, v, k);
            assert(v[0] == q);
            assert(r.vocab[l as int] + (r.vocab[q as int] + backtracking::token_bytes_of(
                r.vocab,
                u,
            )) =~= r.vocab[k] + backtracking::token_bytes_of(r.vocab, u));
            if u.len() > 0 {
                if rest[0] == k {
                    lemma_pair_right(r, k, k);
                    lemma_pair_left(r, l as int, k);
                } else {
                    lemma_pair_left(r, rest[0] as int, k);
                }
            }
            assert(t[0] == l && t[1] == v[0]);
            assert(t.subrange(2, t.len() as int) =~= u);
        } else {
            let x = s[0];
            lemma_front(r, x, u, k);
            if u.len() > 0 {
                if rest[0] == k {
                    lemma_pair_right(r, x as int, k);
                    lemma_pair_kept(r, x as int, l as int, k);
                } else {
                    lemma_pair_kept(r, x as int, rest[0] as int, k);
                }
                assert(t[1] == u[0]);
                assert(t.subrange(1, t.len() as int) =~= u);
            } else {
                assert(t =~= s);
            }
        }
    }
}

// ---- there is one such sequence ----

/// The tokens of bytes have these bytes, and there are no others.
proof fn lemma_byte_tokens(r: Rules, s: Seq<TokenId>)
    requires
        merges_make(r),
        all_ready(r, s, 0),
    ensures
        s == byte_tokens(r.vocab, backtracking::token_bytes_of(r.vocab, s)),
    decreases s.len(),
{
    let b = backtracking::token_bytes_of(r.vocab, s);
    if s.len() > 0 {
        let front = s.drop_last();
        let t = s.last() as int;
        assert(is_ready(r, s[s.len() - 1] as int, 0));
        assert forall|i: int| 0 <= i < front.len() implies is_ready(r, #[trigger] front[i] as int, 0) by {
            assert(front[i] == s[i]);
        }
        lemma_byte_tokens(r, front);
        let a = backtracking::token_bytes_of(r.vocab, front);
        assert(byte_tokens(r.vocab, a).len() == a.len());
        assert(r.vocab[t] =~= seq![r.vocab[t][0]]);
        assert(b == a + r.vocab[t]);
        let x = b[b.len() - 1];
        let k = choose|k: int| 0 <= k < r.vocab.len() && #[trigger] r.vocab[k] == seq![x];
        assert(r.vocab[k] == r.vocab[t]);
        assert forall|i: int| 0 <= i < s.len() implies s[i] == byte_tokens(r.vocab, b)[i] by {
            if i < front.len() {
                assert(front[i] == byte_tokens(r.vocab, a)[i]);
                assert(a[i] == b[i]);
            }
        }
        assert(s =~= byte_tokens(r.vocab, b));
    } else {
        assert(s =~= byte_tokens(r.vocab, b));
    }
}

/// A token that is there before a merge that does not happen is there after it.
proof fn lemma_ready_step(r: Rules, s: Seq<TokenId>, k: int)
    requires
        !is_merge(r, k),
    ensures
        all_ready(r, s, k + 1) <==> all_ready(r, s, k),
{
    if all_ready(r, s, k + 1) {
        assert forall|i: int| 0 <= i < s.len() implies is_ready(r, #[trigger] s[i] as int, k) by {
            assert(is_ready(r, s[i] as int, k + 1));
        }
    }
    if all_ready(r, s, k) {
        assert forall|i: int| 0 <= i < s.len() implies is_ready(r, #[trigger] s[i] as int, k + 1) by {
            assert(is_ready(r, s[i] as int, k));
        }
    }
}

/// Where no merge makes `k`, neighbours are the same before and after it.
proof fn lemma_linked_step(r: Rules, s: Seq<TokenId>, k: int)
    requires
        merges_make(r),
        !is_merge(r, k),
        forall|i: int| 0 <= i < s.len() ==> (#[trigger] s[i]) < r.vocab.len(),
    ensures
        linked(r, s, k + 1) <==> linked(r, s, k),
    decreases s.len(),
{
    if s.len() >= 2 {
        let rest = s.subrange(1, s.len() as int);
        assert forall|i: int| 0 <= i < rest.len() implies (#[trigger] rest[i]) < r.vocab.len() by {
            assert(rest[i] == s[i + 1]);
        }
        lemma_linked_step(r, rest, k);
        assert(s[0] < r.vocab.len() && s[1] < r.vocab.len());
        let key = backtracking::packed(s[0], s[1]);
        if r.pairs.contains_key(key) {
            assert(is_merge(r, r.pairs[key] as int));
        }
    }
}

/// Tokens of which every two neighbours may stand next to each other are those
/// that merging makes of their bytes.
proof fn lemma_one_sequence(r: Rules, s: Seq<TokenId>, limit: int)
    requires
        merges_make(r),
        merges_happen(r),
        0 <= limit <= r.vocab.len(),
        all_ready(r, s, limit),
        linked(r, s, limit),
    ensures
        s == merged_below(r, backtracking::token_bytes_of(r.vocab, s), limit),
    decreases limit,
{
    if limit == 0 {
        lemma_byte_tokens(r, s);
    } else {
        let k = limit - 1;
        if is_merge(r, k) {
            lemma_apart(r, s, k);
            lemma_one_sequence(r, apart(r, s, k), k);
        } else {
            lemma_ready_step(r, s, k);
            assert forall|i: int| 0 <= i < s.len() implies (#[trigger] s[i]) < r.vocab.len() by {
                assert(is_ready(r, s[i] as int, k));
            }
            lemma_linked_step(r, s, k);
            lemma_one_sequence(r, s, k);
        }
    }
}

/// The tokens of bytes may stand next to each other before all merges.
proof fn lemma_bytes_linked(r: Rules, s: Seq<TokenId>)
    requires
        merges_make(r),
        all_ready(r, s, 0),
    ensures
        linked(r, s, 0),
    decreases s.len(),
{
    if s.len() >= 2 {
        let rest = s.subrange(1, s.len() as int);
        assert forall|i: int| 0 <= i < rest.len() implies is_ready(r, #[trigger] rest[i] as int, 0) by {
            assert(rest[i] == s[i + 1]);
        }
        lemma_bytes_linked(r, rest);
        assert(is_ready(r, s[0] as int, 0) && is_ready(r, s[1] as int, 0));
    }
}

/// Merging keeps the bytes, and its tokens may stand next to each other.
pub proof fn lemma_merged_below(r: Rules, b: Seq<u8>, limit: int)
    requires
        merges_make(r),
        backtracking::covers(r.vocab, b),
        0 <= limit <= r.vocab.len(),
    ensures
        all_ready(r, merged_below(r, b, limit), limit),
        linked(r, merged_below(r, b, limit), limit),
        backtracking::token_bytes_of(r.vocab, merged_below(r, b, limit)) == b,
    decreases limit,
{
    let s = merged_below(r, b, limit);
    if limit == 0 {
        assert forall|i: int| 0 <= i < s.len() implies is_ready(r, #[trigger] s[i] as int, 0)
            && r.vocab[s[i] as int] == seq![b[i]] by {
            assert(backtracking::is_token(r.vocab, seq![b[i]]));
            let k = choose|k: int| 0 <= k < r.vocab.len() && #[trigger] r.vocab[k] == seq![b[i]];
            if is_merge(r, k) {
                assert(merge_ok(r, k));
                assert(backtracking::split_ok(r.vocab, r.splits[k], k));
                lemma_plain_not_empty(r, r.splits[k].left as int);
                lemma_plain_not_empty(r, r.splits[k].right as int);
            }
        }
        lemma_bytes_linked(r, s);
        lemma_bytes_of_bytes(r, b, s);
    } else {
        let k = limit - 1;
        lemma_merged_below(r, b, k);
        let t = merged_below(r, b, k);
        if is_merge(r, k) {
            lemma_joined(r, t, k);
        } else {
            lemma_ready_step(r, s, k);
            assert forall|i: int| 0 <= i < s.len() implies (#[trigger] s[i]) < r.vocab.len() by {
                assert(is_ready(r, s[i] as int, k));
            }
            lemma_linked_step(r, s, k);
        }
    }
}

/// A token that is a byte or came about by a merge is not empty.
proof fn lemma_plain_not_empty(r: Rules, k: int)
    requires
        merges_make(r),
        is_plain(r, k),
    ensures
        r.vocab[k].len() > 0,
{
    assert(backtracking::split_ok(r.vocab, r.splits[k], k));
}

proof fn lemma_bytes_of_bytes(r: Rules, b: Seq<u8>, s: Seq<TokenId>)
    requires
        s.len() == b.len(),
        forall|i: int| 0 <= i < s.len() ==> r.vocab[(#[trigger] s[i]) as int] == seq![b[i]],
    ensures
        backtracking::token_bytes_of(r.vocab, s) == b,
    decreases s.len(),
{
    if s.len() > 0 {
        lemma_bytes_of_bytes(r, b.drop_last(), s.drop_last());
        assert(r.vocab[s[s.len() - 1] as int] == seq![b[s.len() - 1]]);
        assert(b.drop_last() + seq![b.last()] =~= b);
    } else {
        assert(backtracking::token_bytes_of(r.vocab, s) =~= b);
    }
}

// ---- the search finds it ----

/// A token put behind tokens.
proof fn lemma_linked_push(r: Rules, s: Seq<TokenId>, t: TokenId, limit: int)
    ensures
        linked(r, s.push(t), limit) <==> linked(r, s, limit) && (s.len() > 0
            ==> backtracking::pair_ok(r, s.last() as int, t as int, limit)),
    decreases s.len(),
{
    let all = s.push(t);
    if s.len() >= 2 {
        let rest = s.subrange(1, s.len() as int);
        assert(all.subrange(1, all.len() as int) =~= rest.push(t));
        lemma_linked_push(r, rest, t, limit);
        assert(rest.last() == s.last());
    } else if s.len() == 1 {
        assert(linked(r, all.subrange(1, all.len() as int), limit));
    }
}

/// The first `i` of linked tokens are linked, and their bytes are the first
/// bytes.
proof fn lemma_taken(r: Rules, s: Seq<TokenId>, i: int, limit: int)
    requires
        0 <= i <= s.len(),
        linked(r, s, limit),
    ensures
        linked(r, s.take(i), limit),
        automaton::starts_with(
            backtracking::token_bytes_of(r.vocab, s),
            backtracking::token_bytes_of(r.vocab, s.take(i)),
        ),
    decreases s.len() - i,
{
    if i < s.len() {
        lemma_taken(r, s, i + 1, limit);
        assert(s.take(i + 1) =~= s.take(i).push(s[i]));
        assert(s.take(i + 1).drop_last() =~= s.take(i));
        lemma_linked_push(r, s.take(i), s[i], limit);
        let all = backtracking::token_bytes_of(r.vocab, s);
        let more = backtracking::token_bytes_of(r.vocab, s.take(i + 1));
        let less = backtracking::token_bytes_of(r.vocab, s.take(i));
        assert(more == less + r.vocab[s[i] as int]);
        assert(all.subrange(0, less.len() as int) =~= more.subrange(0, less.len() as int));
        assert(more.subrange(0, less.len() as int) =~= less);
    } else {
        assert(s.take(i) =~= s);
        let all = backtracking::token_bytes_of(r.vocab, s);
        assert(all.subrange(0, all.len() as int) =~= all);
    }
}

/// The first `i` of the tokens end at the position `p`.
spec fn ends_at(r: Rules, v: Seq<TokenId>, i: int, p: int) -> bool {
    0 <= i <= v.len() && backtracking::token_bytes_of(r.vocab, v.take(i)).len() == p
}

/// No position of the set is the end of some of the tokens.
spec fn avoids(r: Rules, v: Seq<TokenId>, dead: Set<int>) -> bool {
    forall|i: int, p: int| #[trigger] ends_at(r, v, i, p) ==> !dead.contains(p)
}

/// The text goes on with the token `t` at `pos`.
spec fn stands(r: Rules, b: Seq<u8>, pos: int, t: int) -> bool {
    &&& 0 <= t < r.vocab.len()
    &&& 0 < r.vocab[t].len()
    &&& 0 <= pos
    &&& pos + r.vocab[t].len() <= b.len()
    &&& b.subrange(pos, pos + r.vocab[t].len()) == r.vocab[t]
}

/// The candidate is not shorter than the token that belongs at `pos`.
spec fn long_enough(r: Rules, v: Seq<TokenId>, pos: int, cand: Option<int>) -> bool {
    forall|i: int| #[trigger]
        ends_at(r, v, i, pos) && i < v.len() ==> cand is Some && r.vocab[cand->0].len()
            >= r.vocab[v[i] as int].len()
}

/// What every two neighbours may do does not change behind the last merge.
proof fn lemma_limit(r: Rules, x: int, y: int)
    requires
        merges_make(r),
    ensures
        backtracking::pair_ok(r, x, y, r.vocab.len() as int) == backtracking::pair_ok(
            r,
            x,
            y,
            u32::MAX as int,
        ),
{
    let key = backtracking::packed(x as u32, y as u32);
    if r.pairs.contains_key(key) {
        assert(is_merge(r, r.pairs[key] as int));
    }
}

/// What the search goes by.
spec fn search_ready(r: Rules, b: Seq<u8>) -> bool {
    &&& merges_make(r)
    &&& merges_happen(r)
    &&& backtracking::covers(r.vocab, b)
    &&& only_plain(r, b)
}

/// Where the first tokens of a text end at `pos`, they are the first that
/// merging makes of the text, and the next of these stands at `pos`.
proof fn lemma_at_end(r: Rules, b: Seq<u8>, first: Seq<TokenId>, pos: int, i: int)
    requires
        search_ready(r, b),
        0 <= pos < b.len(),
        all_ready(r, first, r.vocab.len() as int),
        linked(r, first, r.vocab.len() as int),
        backtracking::token_bytes_of(r.vocab, first) == b.subrange(0, pos),
        ends_at(r, merged(r, b), i, pos),
    ensures
        i < merged(r, b).len(),
        first == merged(r, b).take(i),
        stands(r, b, pos, merged(r, b)[i] as int),
        ends_at(r, merged(r, b), i + 1, pos + r.vocab[merged(r, b)[i] as int].len()),
        first.len() > 0 ==> backtracking::pair_ok(
            r,
            first.last() as int,
            merged(r, b)[i] as int,
            u32::MAX as int,
        ),
{
    let n = r.vocab.len() as int;
    let v = merged(r, b);
    lemma_merged_below(r, b, n);
    if i == v.len() {
        assert(v.take(i) =~= v);
    }
    lemma_taken(r, v, i, n);
    lemma_taken(r, v, i + 1, n);
    let t = v.take(i);
    assert forall|j: int| 0 <= j < t.len() implies is_ready(r, #[trigger] t[j] as int, n) by {
        assert(t[j] == v[j]);
    }
    assert(backtracking::token_bytes_of(r.vocab, t) =~= b.subrange(0, pos));
    lemma_one_sequence(r, t, n);
    lemma_one_sequence(r, first, n);
    let x = v[i];
    assert(v.take(i + 1) =~= t.push(x));
    assert(v.take(i + 1).drop_last() =~= t);
    let more = backtracking::token_bytes_of(r.vocab, v.take(i + 1));
    assert(more == b.subrange(0, pos) + r.vocab[x as int]);
    assert(is_ready(r, v[i] as int, n));
    lemma_plain_not_empty(r, x as int);
    assert(b.subrange(pos, pos + r.vocab[x as int].len()) =~= more.subrange(
        pos,
        more.len() as int,
    ));
    assert(more.subrange(pos, more.len() as int) =~= r.vocab[x as int]);
    lemma_linked_push(r, t, x, n);
    if first.len() > 0 {
        lemma_limit(r, first.last() as int, x as int);
    }
}

/// Of two tokens that stand at a position, the longer one starts with a token
/// at least as long as the other.
proof fn lemma_shorter_long_enough(r: Rules, b: Seq<u8>, pos: int, t: int, x: int)
    requires
        stands(r, b, pos, t),
        stands(r, b, pos, x),
        r.vocab[x].len() < r.vocab[t].len(),
    ensures
        backtracking::shorter_token(r.vocab, t) is Some,
        r.vocab[backtracking::shorter_token(r.vocab, t)->0].len() >= r.vocab[x].len(),
{
    let d = r.vocab[t].drop_last();
    let p = backtracking::vocab_patterns(r.vocab);
    assert(d.subrange(0, r.vocab[x].len() as int) =~= b.subrange(pos, pos + r.vocab[x].len()));
    assert(p[x].0 == r.vocab[x]);
    assert(automaton::prefix_pattern(p, d, x));
    backtracking::lemma_next_token(r.vocab, d);
    let s = backtracking::shorter_token(r.vocab, t)->0;
    assert(backtracking::longest_token(r.vocab, d, s));
    assert(p[s].0 == r.vocab[s]);
}

/// The next token of a text is at least as long as one that stands there.
proof fn lemma_next_long_enough(r: Rules, b: Seq<u8>, pos: int, x: int)
    requires
        stands(r, b, pos, x),
    ensures
        ({
            let next = backtracking::next_token(r.vocab, b.subrange(pos, b.len() as int));
            next is Some && r.vocab[next->0].len() >= r.vocab[x].len()
        }),
{
    let d = b.subrange(pos, b.len() as int);
    let p = backtracking::vocab_patterns(r.vocab);
    assert(d.subrange(0, r.vocab[x].len() as int) =~= b.subrange(pos, pos + r.vocab[x].len()));
    assert(p[x].0 == r.vocab[x]);
    assert(automaton::prefix_pattern(p, d, x));
    backtracking::lemma_next_token(r.vocab, d);
    let s = backtracking::next_token(r.vocab, d)->0;
    assert(backtracking::longest_token(r.vocab, d, s));
    assert(p[s].0 == r.vocab[s]);
}

/// The last of some tokens.
spec fn last_of(s: Seq<TokenId>) -> Option<int> {
    if s.len() == 0 {
        None
    } else {
        Some(s.last() as int)
    }
}

/// The search finds tokens wherever the merged tokens have an end, and strikes
/// out no position at which they have one.
proof fn lemma_search_finds(
    r: Rules,
    b: Seq<u8>,
    first: Seq<TokenId>,
    pos: int,
    cand: Option<int>,
    dead: Set<int>,
)
    requires
        search_ready(r, b),
        0 <= pos < b.len(),
        all_ready(r, first, r.vocab.len() as int),
        linked(r, first, r.vocab.len() as int),
        backtracking::token_bytes_of(r.vocab, first) == b.subrange(0, pos),
        cand matches Some(t) ==> stands(r, b, pos, t),
        long_enough(r, merged(r, b), pos, cand),
        avoids(r, merged(r, b), dead),
    ensures
        ({
            let found = backtracking::search(r, b, pos, last_of(first), cand, dead);
            &&& found.1 is None ==> avoids(r, merged(r, b), found.0)
            &&& forall|i: int| #[trigger] ends_at(r, merged(r, b), i, pos) ==> found.1 is Some
        }),
    decreases
            b.len() - pos,
            match cand {
                Some(t) => r.vocab[t].len() + 1,
                None => 0,
            },
{
    let v = merged(r, b);
    let n = r.vocab.len() as int;
    let last = last_of(first);
    assert forall|i: int| #[trigger] ends_at(r, v, i, pos) implies i < v.len() by {
        lemma_at_end(r, b, first, pos, i);
    }
    if let Some(t) = cand {
        let end = pos + r.vocab[t].len();
        let shorter = backtracking::shorter_token(r.vocab, t);
        backtracking::lemma_shorter(r.vocab, t);
        if let Some(s) = shorter {
            assert(b.subrange(pos, pos + r.vocab[s].len()) =~= r.vocab[t].subrange(
                0,
                r.vocab[s].len() as int,
            ));
        }
        assert(occurs(b, r.vocab[t]));
        assert(is_ready(r, t, n));
        // Where the token that belongs here is not `t`, it is shorter.
        assert forall|i: int| #[trigger]
            ends_at(r, v, i, pos) && v[i] != t implies shorter is Some && r.vocab[shorter->0].len()
            >= r.vocab[v[i] as int].len() by {
            lemma_at_end(r, b, first, pos, i);
            if r.vocab[v[i] as int].len() == r.vocab[t].len() {
                assert(r.vocab[v[i] as int] == r.vocab[t]);
            }
            lemma_shorter_long_enough(r, b, pos, t, v[i] as int);
        }
        if first.len() > 0 {
            lemma_limit(r, first.last() as int, t);
        }
        if dead.contains(end) || !backtracking::follows(r, last, t) {
            assert forall|i: int| #[trigger] ends_at(r, v, i, pos) implies v[i] != t by {
                lemma_at_end(r, b, first, pos, i);
                if v[i] == t {
                    assert(ends_at(r, v, i + 1, end));
                }
            }
            lemma_search_finds(r, b, first, pos, shorter, dead);
        } else if end < b.len() {
            let tail = b.subrange(end, b.len() as int);
            let next = backtracking::next_token(r.vocab, tail);
            let more = first.push(t as u32);
            lemma_linked_push(r, first, t as u32, n);
            assert forall|j: int| 0 <= j < more.len() implies is_ready(
                r,
                #[trigger] more[j] as int,
                n,
            ) by {
                if j < first.len() {
                    assert(more[j] == first[j]);
                }
            }
            assert(more.drop_last() =~= first);
            assert(b.subrange(0, end) =~= b.subrange(0, pos) + r.vocab[t]);
            backtracking::lemma_next_token(r.vocab, tail);
            if let Some(k) = next {
                assert(b.subrange(end, end + r.vocab[k].len()) =~= tail.subrange(
                    0,
                    r.vocab[k].len() as int,
                ));
            }
            assert forall|i: int| #[trigger] ends_at(r, v, i, end) && i < v.len() implies next is Some
                && r.vocab[next->0].len() >= r.vocab[v[i] as int].len() by {
                lemma_at_end(r, b, more, end, i);
                lemma_next_long_enough(r, b, end, v[i] as int);
            }
            lemma_search_finds(r, b, more, end, next, dead);
            let deeper = backtracking::search(r, b, end, Some(t), next, dead);
            if deeper.1 is None {
                assert forall|i: int| #[trigger] ends_at(r, v, i, pos) implies v[i] != t by {
                    lemma_at_end(r, b, first, pos, i);
                    if v[i] == t {
                        assert(ends_at(r, v, i + 1, end));
                    }
                }
                lemma_search_finds(r, b, first, pos, shorter, deeper.0);
            }
        }
    }
}

/// What a text starts with ends in a part of the text.
proof fn lemma_last_occurs(b: Seq<u8>, front: Seq<u8>, last: Seq<u8>)
    requires
        automaton::starts_with(b, front + last),
    ensures
        automaton::starts_with(b, front),
        occurs(b, last),
{
    let all = front + last;
    let at = front.len() as int;
    assert(b.subrange(0, all.len() as int) == all);
    assert(b.subrange(0, at) =~= all.subrange(0, at));
    assert(all.subrange(0, at) =~= front);
    assert(b.subrange(at, at + last.len()) =~= all.subrange(at, all.len() as int));
    assert(all.subrange(at, all.len() as int) =~= last);
}

/// Tokens that the search found are linked, and bytes or made by merges.
proof fn lemma_found_linked(r: Rules, b: Seq<u8>, s: Seq<TokenId>)
    requires
        search_ready(r, b),
        backtracking::sequence_ok(r, None, s),
        automaton::starts_with(b, backtracking::token_bytes_of(r.vocab, s)),
    ensures
        all_ready(r, s, r.vocab.len() as int),
        linked(r, s, r.vocab.len() as int),
    decreases s.len(),
{
    let n = r.vocab.len() as int;
    if s.len() > 0 {
        let front = s.drop_last();
        let t = s.last();
        let all = backtracking::token_bytes_of(r.vocab, s);
        let less = backtracking::token_bytes_of(r.vocab, front);
        assert(all == less + r.vocab[t as int]);
        lemma_last_occurs(b, less, r.vocab[t as int]);
        assert forall|i: int| 0 <= i < front.len() implies (#[trigger] front[i]) < r.vocab.len()
            && r.vocab[front[i] as int].len() > 0 && backtracking::follows(
            r,
            if i == 0 {
                None
            } else {
                Some(front[i - 1] as int)
            },
            front[i] as int,
        ) by {
            assert(front[i] == s[i]);
        }
        lemma_found_linked(r, b, front);
        assert(s[s.len() - 1] == t);
        assert(front.push(t) =~= s);
        assert forall|i: int| 0 <= i < s.len() implies is_ready(r, #[trigger] s[i] as int, n) by {
            if i < front.len() {
                assert(s[i] == front[i]);
            }
        }
        if front.len() > 0 {
            lemma_limit(r, front.last() as int, t as int);
        }
        lemma_linked_push(r, front, t, n);
    }
}

/// The search finds the tokens that merging makes of the text.
pub proof fn law_search_is_merging(r: Rules, b: Seq<u8>)
    requires
        merges_make(r),
        merges_happen(r),
        backtracking::covers(r.vocab, b),
        only_plain(r, b),
    ensures
        backtracking::bpe(r, b) == merged(r, b),
        backtracking::token_bytes_of(r.vocab, backtracking::bpe(r, b)) == b,
{
    let n = r.vocab.len() as int;
    let none = Seq::<TokenId>::empty();
    let v = merged(r, b);
    lemma_merged_below(r, b, n);
    assert(b.subrange(0, 0) =~= Seq::<u8>::empty());
    if b.len() == 0 {
        lemma_one_sequence(r, none, n);
        assert(backtracking::token_bytes_of(r.vocab, none) =~= b);
        assert(backtracking::bpe(r, b) =~= v);
    } else {
        let next = backtracking::next_token(r.vocab, b);
        let whole = b.subrange(0, b.len() as int);
        assert(whole =~= b);
        backtracking::lemma_next_token(r.vocab, b);
        assert(v.take(0) =~= none);
        assert(ends_at(r, v, 0, 0));
        assert forall|i: int| #[trigger] ends_at(r, v, i, 0) && i < v.len() implies next is Some
            && r.vocab[next->0].len() >= r.vocab[v[i] as int].len() by {
            lemma_at_end(r, b, none, 0, i);
            lemma_next_long_enough(r, b, 0, v[i] as int);
        }
        lemma_search_finds(r, b, none, 0, next, Set::empty());
        let found = backtracking::bpe(r, b);
        backtracking::lemma_search_sound(r, b, 0, None, next, Set::empty());
        backtracking::law_bpe_gives_text_back(r, b);
        lemma_found_linked(r, b, found);
        lemma_one_sequence(r, found, n);
    }
}

/// The tokens of each part of the text are spelled as that part.
pub open spec fn spells(r: Rules, b: Seq<u8>) -> bool {
    forall|i: int, j: int|
        0 <= i <= j <= b.len() ==> backtracking::token_bytes_of(
            r.vocab,
            backtracking::bpe(r, #[trigger] b.subrange(i, j)),
        ) == b.subrange(i, j)
}

/// The tokens of each part of a text give that part back.
pub proof fn law_parts_are_spelled(r: Rules, b: Seq<u8>)
    requires
        merges_make(r),
        merges_happen(r),
        backtracking::covers(r.vocab, b),
        only_plain(r, b),
    ensures
        spells(r, b),
{
    assert forall|i: int, j: int| 0 <= i <= j <= b.len() implies backtracking::token_bytes_of(
        r.vocab,
        backtracking::bpe(r, #[trigger] b.subrange(i, j)),
    ) == b.subrange(i, j) by {
        let part = b.subrange(i, j);
        backtracking::lemma_covers_part(r.vocab, b, i, j);
        assert forall|k: int|
            0 <= k < r.vocab.len() && #[trigger] r.vocab[k].len() > 0 && occurs(
                part,
                r.vocab[k],
            ) implies is_plain(r, k) by {
            let n = r.vocab[k].len();
            let at = choose|at: int|
                0 <= at && at + n <= part.len() && #[trigger] part.subrange(at, at + n)
                    == r.vocab[k];
            assert(b.subrange(i + at, i + at + n) =~= part.subrange(at, at + n));
            assert(occurs(b, r.vocab[k]));
        }
        law_search_is_merging(r, part);
    }
}

/// Every way to cut a text into tokens of which each two neighbours may stand
/// next to each other is the one that merging gives.
pub proof fn law_one_encoding(r: Rules, b: Seq<u8>, s: Seq<TokenId>)
    requires
        merges_make(r),
        merges_happen(r),
        backtracking::covers(r.vocab, b),
        only_plain(r, b),
        backtracking::sequence_ok(r, None, s),
        backtracking::token_bytes_of(r.vocab, s) == b,
    ensures
        s == backtracking::bpe(r, b),
{
    law_search_is_merging(r, b);
    assert(b.subrange(0, b.len() as int) =~= b);
    lemma_found_linked(r, b, s);
    lemma_one_sequence(r, s, r.vocab.len() as int);
}

// ---- vocabularies that are built from merges ----

/// Each merge joins tokens that are bytes or came about by merges.
pub open spec fn joins_plain(
    base: Seq<Seq<u8>>,
    added: Seq<(u32, Seq<u8>)>,
    merges: Seq<(TokenId, TokenId)>,
) -> bool
    decreases merges.len(),
{
    merges.len() == 0 || {
        let before = backtracking::merged_rules(base, added, merges.drop_last());
        let r = backtracking::with_added(
            before.0,
            added,
            before.1,
            before.0.vocab.len() as int,
        ).0;
        &&& joins_plain(base, added, merges.drop_last())
        &&& is_plain(r, merges.last().0 as int)
        &&& is_plain(r, merges.last().1 as int)
    }
}

/// The merges so far make their tokens.
spec fn made_so_far(r: Rules) -> bool {
    &&& r.splits.len() == r.vocab.len()
    &&& pairs_ok(r)
    &&& forall|k: int| #[trigger] is_merge(r, k) ==> merge_ok(r, k)
}

proof fn lemma_made_base(r: Rules, b: Seq<u8>)
    requires
        made_so_far(r),
        r.vocab.len() < u32::MAX,
    ensures
        made_so_far(backtracking::with_base(r, b)),
        tokens_differ(backtracking::with_base(r, b).vocab) ==> tokens_differ(r.vocab),
{
    let q = backtracking::with_base(r, b);
    assert forall|k: int| #[trigger] is_merge(q, k) implies merge_ok(q, k) by {
        assert(is_merge(r, k));
        assert(merge_ok(r, k));
        assert(q.splits[k] == r.splits[k]);
        lemma_ready_grows(r, q, r.splits[k].left as int, k);
        lemma_ready_grows(r, q, r.splits[k].right as int, k);
    }
    assert forall|key: u64| #[trigger] q.pairs.contains_key(key) implies is_merge(
        q,
        q.pairs[key] as int,
    ) && key == backtracking::packed(
        q.splits[q.pairs[key] as int].left,
        q.splits[q.pairs[key] as int].right,
    ) by {
        assert(r.pairs.contains_key(key));
        assert(is_merge(r, r.pairs[key] as int));
    }
    lemma_differ_grows(r.vocab, b);
}

/// Where no two of more tokens are the same, no two of fewer are.
proof fn lemma_differ_grows(vocab: Seq<Seq<u8>>, b: Seq<u8>)
    ensures
        tokens_differ(vocab.push(b)) ==> tokens_differ(vocab),
{
    let more = vocab.push(b);
    if tokens_differ(more) {
        assert forall|i: int, j: int|
            0 <= i < vocab.len() && 0 <= j < vocab.len() && #[trigger] vocab[i]
                == #[trigger] vocab[j] implies i == j by {
            assert(more[i] == more[j]);
        }
    }
}

/// What is there stays there.
proof fn lemma_ready_grows(r: Rules, q: Rules, c: int, k: int)
    requires
        is_ready(r, c, k),
        r.splits.len() == r.vocab.len(),
        q.splits.len() == q.vocab.len(),
        r.vocab.len() <= q.vocab.len(),
        q.vocab[c] == r.vocab[c],
        q.splits[c] == r.splits[c],
    ensures
        is_ready(q, c, k),
{
}

proof fn lemma_made_merge(r: Rules, m: (TokenId, TokenId))
    requires
        made_so_far(r),
        r.vocab.len() < u32::MAX,
        is_plain(r, m.0 as int),
        is_plain(r, m.1 as int),
        tokens_differ(backtracking::with_merge(r, m).vocab),
    ensures
        made_so_far(backtracking::with_merge(r, m)),
        tokens_differ(r.vocab),
{
    let q = backtracking::with_merge(r, m);
    let n = r.vocab.len() as int;
    let new = backtracking::packed(m.0, m.1);
    lemma_differ_grows(r.vocab, q.vocab[n]);
    assert forall|k: int| #[trigger] is_merge(q, k) implies merge_ok(q, k) by {
        if k == n {
            lemma_ready_grows(r, q, m.0 as int, n);
            lemma_ready_grows(r, q, m.1 as int, n);
        } else {
            assert(is_merge(r, k));
            assert(merge_ok(r, k));
            let sp = r.splits[k];
            assert(q.splits[k] == sp);
            lemma_ready_grows(r, q, sp.left as int, k);
            lemma_ready_grows(r, q, sp.right as int, k);
            if backtracking::packed(sp.left, sp.right) == new {
                backtracking::lemma_packed_injective(sp.left, sp.right, m.0, m.1);
                assert(q.vocab[k] == q.vocab[n]);
            }
        }
    }
    assert forall|key: u64| #[trigger] q.pairs.contains_key(key) implies is_merge(
        q,
        q.pairs[key] as int,
    ) && key == backtracking::packed(
        q.splits[q.pairs[key] as int].left,
        q.splits[q.pairs[key] as int].right,
    ) by {
        if key != new {
            assert(r.pairs.contains_key(key));
            assert(is_merge(r, r.pairs[key] as int));
        }
    }
}

proof fn lemma_made_added(r: Rules, added: Seq<(u32, Seq<u8>)>, i: int, limit: int)
    requires
        0 <= i <= added.len(),
        made_so_far(r),
        r.vocab.len() + (added.len() - i) <= u32::MAX,
    ensures
        made_so_far(backtracking::with_added(r, added, i, limit).0),
        tokens_differ(backtracking::with_added(r, added, i, limit).0.vocab) ==> tokens_differ(
            r.vocab,
        ),
    decreases added.len() - i,
{
    if i < added.len() && added[i].0 <= limit {
        lemma_made_base(r, added[i].1);
        lemma_made_added(backtracking::with_base(r, added[i].1), added, i + 1, limit);
    }
}

proof fn lemma_made_merges(
    base: Seq<Seq<u8>>,
    added: Seq<(u32, Seq<u8>)>,
    merges: Seq<(TokenId, TokenId)>,
)
    requires
        base.len() + added.len() + merges.len() <= u32::MAX,
        joins_plain(base, added, merges),
        tokens_differ(backtracking::merged_rules(base, added, merges).0.vocab),
    ensures
        made_so_far(backtracking::merged_rules(base, added, merges).0),
    decreases merges.len(),
{
    if merges.len() > 0 {
        let before = backtracking::merged_rules(base, added, merges.drop_last());
        let limit = before.0.vocab.len() as int;
        let ready = backtracking::with_added(before.0, added, before.1, limit);
        backtracking::lemma_merged_rules(base, added, merges.drop_last());
        backtracking::lemma_with_added(before.0, added, before.1, limit);
        let r = backtracking::with_merge(ready.0, merges.last());
        lemma_differ_grows(ready.0.vocab, r.vocab.last());
        assert(r.vocab =~= ready.0.vocab.push(r.vocab.last()));
        lemma_differ_before(before.0, added, before.1, limit);
        lemma_made_merges(base, added, merges.drop_last());
        lemma_made_added(before.0, added, before.1, limit);
        lemma_made_merge(ready.0, merges.last());
    }
}

proof fn lemma_differ_before(r: Rules, added: Seq<(u32, Seq<u8>)>, i: int, limit: int)
    requires
        0 <= i <= added.len(),
        tokens_differ(backtracking::with_added(r, added, i, limit).0.vocab),
    ensures
        tokens_differ(r.vocab),
    decreases added.len() - i,
{
    if i < added.len() && added[i].0 <= limit {
        lemma_differ_before(backtracking::with_base(r, added[i].1), added, i + 1, limit);
        lemma_differ_grows(r.vocab, added[i].1);
    }
}

/// Merges of bytes and merged tokens make the vocabulary that is built from
/// them, where no two of its tokens are the same.
pub proof fn law_built_from_merges(
    base: Seq<Seq<u8>>,
    added: Seq<(u32, Seq<u8>)>,
    merges: Seq<(TokenId, TokenId)>,
)
    requires
        base.len() + added.len() + merges.len() <= u32::MAX,
        backtracking::merges_ok(base, added, merges),
        joins_plain(base, added, merges),
        tokens_differ(backtracking::built_rules(base, added, merges).vocab),
    ensures
        merges_make(backtracking::built_rules(base, added, merges)),
{
    let m = backtracking::merged_rules(base, added, merges);
    backtracking::lemma_merged_rules(base, added, merges);
    backtracking::lemma_built_rules(base, added, merges);
    lemma_differ_before(m.0, added, m.1, u32::MAX as int);
    lemma_made_merges(base, added, merges);
    lemma_made_added(m.0, added, m.1, u32::MAX as int);
}

/// Where the base tokens are bytes and no tokens are added, every token is a
/// byte or came about by a merge.
proof fn lemma_all_plain(base: Seq<Seq<u8>>, merges: Seq<(TokenId, TokenId)>)
    requires
        forall|i: int| 0 <= i < base.len() ==> (#[trigger] base[i]).len() == 1,
        base.len() + merges.len() <= u32::MAX,
        backtracking::merges_ok(base, seq![], merges),
    ensures
        joins_plain(base, seq![], merges),
        forall|k: int|
            0 <= k < backtracking::merged_rules(base, seq![], merges).0.vocab.len()
                ==> #[trigger] is_plain(backtracking::merged_rules(base, seq![], merges).0, k),
    decreases merges.len(),
{
    let none = Seq::<(u32, Seq<u8>)>::empty();
    let q = backtracking::merged_rules(base, none, merges).0;
    backtracking::lemma_merged_rules(base, none, merges);
    if merges.len() > 0 {
        lemma_all_plain(base, merges.drop_last());
        backtracking::lemma_merged_rules(base, none, merges.drop_last());
        let r = backtracking::merged_rules(base, none, merges.drop_last()).0;
        let m = merges.last();
        assert(is_plain(r, m.0 as int) && is_plain(r, m.1 as int));
        assert forall|k: int| 0 <= k < q.vocab.len() implies #[trigger] is_plain(q, k) by {
            if k < r.vocab.len() {
                assert(is_plain(r, k));
            }
        }
    }
}

/// Merges make the vocabulary that is built from bytes and merges, where no
/// two of its tokens are the same; every token of it is a byte or came about
/// by a merge.
pub proof fn law_built_from_bytes(base: Seq<Seq<u8>>, merges: Seq<(TokenId, TokenId)>)
    requires
        forall|i: int| 0 <= i < base.len() ==> (#[trigger] base[i]).len() == 1,
        base.len() + merges.len() <= u32::MAX,
        backtracking::merges_ok(base, seq![], merges),
        tokens_differ(backtracking::built_rules(base, seq![], merges).vocab),
    ensures
        merges_make(backtracking::built_rules(base, seq![], merges)),
        forall|b: Seq<u8>| only_plain(backtracking::built_rules(base, seq![], merges), b),
{
    lemma_all_plain(base, merges);
    law_built_from_merges(base, seq![], merges);
    backtracking::lemma_merged_rules(base, seq![], merges);
}

/// The base tokens are the first tokens of what is built from them.
proof fn lemma_base_first(base: Seq<Seq<u8>>, merges: Seq<(TokenId, TokenId)>)
    ensures
        base.len() <= backtracking::merged_rules(base, seq![], merges).0.vocab.len(),
        forall|k: int|
            0 <= k < base.len() ==> #[trigger] backtracking::merged_rules(
                base,
                seq![],
                merges,
            ).0.vocab[k] == base[k],
    decreases merges.len(),
{
    if merges.len() > 0 {
        lemma_base_first(base, merges.drop_last());
    }
}

/// An encoder that is built from bytes and merges gives of every text of those
/// bytes the tokens that merging makes, and these are spelled as the text,
/// where no two tokens are the same and each merge can happen.
pub proof fn law_built_from_bytes_spells(
    base: Seq<Seq<u8>>,
    merges: Seq<(TokenId, TokenId)>,
    b: Seq<u8>,
)
    requires
        forall|i: int| 0 <= i < base.len() ==> (#[trigger] base[i]).len() == 1,
        base.len() + merges.len() <= u32::MAX,
        backtracking::merges_ok(base, seq![], merges),
        tokens_differ(backtracking::built_rules(base, seq![], merges).vocab),
        merges_happen(backtracking::built_rules(base, seq![], merges)),
        backtracking::covers(base, b),
    ensures
        ({
            let r = backtracking::built_rules(base, seq![], merges);
            &&& backtracking::bpe(r, b) == merged(r, b)
            &&& backtracking::token_bytes_of(r.vocab, backtracking::bpe(r, b)) == b
            &&& spells(r, b)
        }),
{
    let r = backtracking::built_rules(base, seq![], merges);
    law_built_from_bytes(base, merges);
    lemma_base_first(base, merges);
    assert forall|i: int| 0 <= i < b.len() implies #[trigger] backtracking::is_token(
        r.vocab,
        seq![b[i]],
    ) by {
        assert(backtracking::is_token(base, seq![b[i]]));
        let k = choose|k: int| 0 <= k < base.len() && #[trigger] base[k] == seq![b[i]];
        assert(r.vocab[k] == base[k]);
    }
    law_search_is_merging(r, b);
    law_parts_are_spelled(r, b);
}

} // verus!
