//! The tokens of Unigram models: which tokens stand at a place of a text, and
//! what becomes of unknown ones.
use crate::automaton::Pattern;
use crate::encoder::unigram;
use crate::encoder::unigram::{Edge, Model, NO_BYTE_TOKEN};
use crate::encoder::units;
use crate::hf::tokens;
use crate::laws::pieces;
use crate::text;
use crate::types::TokenId;
use vstd::prelude::*;

verus! {

// ---- places in a text ----

/// The first byte of a character tells how many bytes the character takes.
pub proof fn law_first_byte_tells_length(c: char)
    ensures
        text::utf8(seq![c]).len() > 0,
        unigram::char_len(text::utf8(seq![c])[0]) == text::utf8(seq![c]).len(),
{
    let e = Seq::<char>::empty();
    let s = seq![c];
    pieces::lemma_at(e, s);
    assert(e + s =~= s);
    assert(e.push(c) =~= s);
    assert(text::utf8(e) =~= Seq::<u8>::empty());
    crate::pretokie::util::lemma_after(text::utf8(s), 0);
}

proof fn lemma_tokens_from(m: Map<Seq<u8>, TokenId>, b: Seq<u8>, s: int, e: int, x: Edge)
    requires
        0 <= s <= e <= b.len() <= usize::MAX,
    ensures
        unigram::tokens_from(m, b, s, e).contains(x) <==> {
            &&& s < x.end <= e
            &&& m.contains_key(b.subrange(s, x.end as int))
            &&& x.token == m[b.subrange(s, x.end as int)]
            &&& !x.unknown
        },
    decreases e - s,
{
    if s < e {
        lemma_tokens_from(m, b, s, e - 1, x);
        let before = unigram::tokens_from(m, b, s, e - 1);
        if m.contains_key(b.subrange(s, e)) {
            let y = Edge { end: e as usize, token: m[b.subrange(s, e)], unknown: false };
            lemma_push_contains(before, y, x);
        }
    }
}

proof fn lemma_push_contains(v: Seq<Edge>, y: Edge, x: Edge)
    ensures
        v.push(y).contains(x) <==> v.contains(x) || x == y,
{
    let w = v.push(y);
    if v.contains(x) {
        let i = choose|i: int| 0 <= i < v.len() && v[i] == x;
        assert(w[i] == x);
    }
    if x == y {
        assert(w[v.len() as int] == x);
    }
    if w.contains(x) {
        let i = choose|i: int| 0 <= i < w.len() && w[i] == x;
        if i < v.len() {
            assert(v[i] == x);
        }
    }
}

/// The tokens that lead on from a place are those whose bytes stand there, and
/// the token of the byte there, if it has one. Where there is neither, the
/// unknown token leads over the character.
pub proof fn law_edges(m: Model, b: Seq<u8>, s: int, x: Edge)
    requires
        0 <= s < b.len() <= usize::MAX,
    ensures
        ({
            let stands = |e: int| s < e <= b.len() && m.tokens.contains_key(b.subrange(s, e));
            let own = m.bytes[b[s] as int];
            let found = unigram::edges_from(m, b, s);
            &&& !x.unknown ==> (found.contains(x) <==> (stands(x.end as int) && x.token
                == m.tokens[b.subrange(s, x.end as int)]) || (own != NO_BYTE_TOKEN && x.end == s + 1
                && x.token == own))
            &&& x.unknown ==> (found.contains(x) ==> own == NO_BYTE_TOKEN && x.token == m.unk && (
            forall|e: int| !#[trigger] stands(e)))
            &&& own == NO_BYTE_TOKEN && (forall|e: int| !#[trigger] stands(e)) ==> found.len() == 1
                && found[0].unknown && found[0].token == m.unk && s < found[0].end <= b.len()
        }),
{
    let n = b.len() as int;
    let own = m.bytes[b[s] as int];
    let stands = |e: int| s < e <= b.len() && m.tokens.contains_key(b.subrange(s, e));
    let found = unigram::tokens_from(m.tokens, b, s, n);
    lemma_tokens_from(m.tokens, b, s, n, x);
    if found.len() == 0 {
        assert forall|e: int| !#[trigger] stands(e) by {
            if stands(e) {
                let y = Edge { end: e as usize, token: m.tokens[b.subrange(s, e)], unknown: false };
                lemma_tokens_from(m.tokens, b, s, n, y);
                assert(found.contains(y));
            }
        }
    } else {
        let y = found[0];
        assert(found.contains(y));
        lemma_tokens_from(m.tokens, b, s, n, y);
        assert(stands(y.end as int));
    }
    let all = unigram::edges_from(m, b, s);
    if own != NO_BYTE_TOKEN {
        lemma_push_contains(
            found,
            Edge { end: (s + 1) as usize, token: own, unknown: false },
            x,
        );
    } else if found.len() == 0 {
        let y = all[0];
        lemma_push_contains(found, y, x);
        assert(y.unknown);
        assert(!found.contains(x));
    }
}

/// The byte of a text such as `<0x0A>` has the first of the tokens that name it.
pub proof fn law_first_name_of_a_byte(v: Seq<Pattern>, w: Seq<Pattern>, p: Pattern, x: u8)
    requires
        forall|i: int| 0 <= i < v.len() ==> tokens::fallback_byte((#[trigger] v[i]).0) != Some(x),
        tokens::fallback_byte(p.0) == Some(x),
        p.1 != NO_BYTE_TOKEN,
    ensures
        unigram::fallback_token(v, x) == NO_BYTE_TOKEN,
        unigram::fallback_token(v.push(p) + w, x) == p.1,
    decreases w.len(),
{
    if w.len() == 0 {
        lemma_no_name(v, x);
        assert(v.push(p) + w =~= v.push(p));
        assert(v.push(p).drop_last() =~= v);
    } else {
        law_first_name_of_a_byte(v, w.drop_last(), p, x);
        assert((v.push(p) + w).drop_last() =~= v.push(p) + w.drop_last());
    }
}

proof fn lemma_no_name(v: Seq<Pattern>, x: u8)
    requires
        forall|i: int| 0 <= i < v.len() ==> tokens::fallback_byte((#[trigger] v[i]).0) != Some(x),
    ensures
        unigram::fallback_token(v, x) == NO_BYTE_TOKEN,
    decreases v.len(),
{
    if v.len() > 0 {
        assert(tokens::fallback_byte(v[v.len() - 1].0) != Some(x));
        lemma_no_name(v.drop_last(), x);
    }
}

// ---- unknown tokens ----

/// A run of unknown tokens is one unknown token; all others stay, in their
/// order.
pub proof fn law_unknown_runs_collapse(t: Seq<TokenId>, unk: TokenId)
    ensures
        unigram::collapsed(t, unk).filter(|x: TokenId| x != unk) == t.filter(
            |x: TokenId| x != unk,
        ),
        unigram::collapsed(t, unk).contains(unk) <==> t.contains(unk),
        t.len() > 0 ==> unigram::collapsed(t, unk).len() > 0 && unigram::collapsed(t, unk).last()
            == t.last(),
        forall|i: int|
            0 < i < unigram::collapsed(t, unk).len() && unigram::collapsed(t, unk)[i] == unk
                ==> #[trigger] unigram::collapsed(t, unk)[i - 1] != unk,
    decreases t.len(),
{
    let f = |x: TokenId| x != unk;
    reveal(Seq::filter);
    if t.len() >= 2 {
        let d = t.drop_last();
        law_unknown_runs_collapse(d, unk);
        let c = unigram::collapsed(d, unk);
        let r = unigram::collapsed(t, unk);
        assert(d.last() == t[t.len() - 2]);
        assert(d.push(t.last()) =~= t);
        assert(t.contains(unk) <==> d.contains(unk) || t.last() == unk) by {
            if d.contains(unk) {
                let i = choose|i: int| 0 <= i < d.len() && d[i] == unk;
                assert(t[i] == unk);
            }
            if t.last() == unk {
                assert(t[t.len() - 1] == unk);
            }
            if t.contains(unk) && t.last() != unk {
                let i = choose|i: int| 0 <= i < t.len() && t[i] == unk;
                assert(d[i] == unk);
            }
        }
        if t.last() == unk && t[t.len() - 2] == unk {
            assert(d[d.len() - 1] == unk);
        } else {
            assert(c.push(t.last()).drop_last() =~= c);
            assert(r == c.push(t.last()));
            assert(r.contains(unk) <==> c.contains(unk) || t.last() == unk) by {
                if c.contains(unk) {
                    let i = choose|i: int| 0 <= i < c.len() && c[i] == unk;
                    assert(r[i] == unk);
                }
                if t.last() == unk {
                    assert(r[r.len() - 1] == unk);
                }
                if r.contains(unk) && t.last() != unk {
                    let i = choose|i: int| 0 <= i < r.len() && r[i] == unk;
                    assert(c[i] == unk);
                }
            }
            assert forall|i: int| 0 < i < r.len() && r[i] == unk implies #[trigger] r[i - 1]
                != unk by {
                if i < c.len() {
                    assert(c[i] == unk);
                    assert(c[i - 1] != unk);
                } else {
                    assert(r[i - 1] == c.last());
                }
            }
        }
    }
}

/// Tokens are joined one behind the other, but for the unknown tokens that
/// would follow an unknown token.
pub proof fn law_joined_tokens(out: Seq<TokenId>, t: Seq<TokenId>, unk: TokenId)
    ensures
        units::joined(out, t, unk).filter(|x: TokenId| x != unk) == out.filter(
            |x: TokenId| x != unk,
        ) + t.filter(|x: TokenId| x != unk),
        out.is_prefix_of(units::joined(out, t, unk)),
        out.len() == 0 || out.last() != unk || t.len() == 0 || t[0] != unk ==> units::joined(
            out,
            t,
            unk,
        ) == out + t,
{
    let f = |x: TokenId| x != unk;
    lemma_without_leading(t, unk);
    Seq::filter_distributes_over_add(out, t, f);
    Seq::filter_distributes_over_add(out, units::without_leading(t, unk), f);
    let j = units::joined(out, t, unk);
    assert(out =~= j.subrange(0, out.len() as int));
}

proof fn lemma_without_leading(t: Seq<TokenId>, unk: TokenId)
    ensures
        units::without_leading(t, unk).filter(|x: TokenId| x != unk) == t.filter(
            |x: TokenId| x != unk,
        ),
        t.len() == 0 || t[0] != unk ==> units::without_leading(t, unk) == t,
    decreases t.len(),
{
    let f = |x: TokenId| x != unk;
    if t.len() > 0 && t[0] == unk {
        let rest = t.subrange(1, t.len() as int);
        lemma_without_leading(rest, unk);
        let one = seq![t[0]];
        assert(one + rest =~= t);
        Seq::filter_distributes_over_add(one, rest, f);
        assert(one.filter(f) =~= Seq::empty()) by {
            reveal(Seq::filter);
            assert(one.drop_last() =~= Seq::<TokenId>::empty());
            reveal_with_fuel(Seq::filter, 2);
        }
        assert(t.filter(f) =~= rest.filter(f));
    }
}

} // verus!
