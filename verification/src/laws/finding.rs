//! Texts inside texts: added tokens, replacements, documents and names.
use crate::added;
use crate::added::AddedView;
use crate::charsmap;
use crate::chunks;
use crate::hub;
use crate::laws::pieces;
use crate::laws::pieces::all;
use crate::pretokie::rules;
use crate::pretokie::util;
use crate::replace;
use crate::text;
use crate::tokenizer::batch;
use crate::tokenizer::stream;
use crate::tokenizer::stream::CountOrder;
use vstd::prelude::*;
use vstd::utf8::*;

verus! {

// ---- added tokens ----

/// A character that goes on with a word.
pub open spec fn in_words(c: char) -> bool {
    util::char_is_alphabetic(c) || util::char_is_numeric(c) || c == '_'
}

/// The last character in front.
proof fn lemma_before(x: Seq<char>, y: Seq<char>)
    requires
        x.len() > 0,
    ensures
        ({
            let b = text::utf8(x + y);
            let s = text::utf8(x).len() as int;
            let l = rules::last_start(b, 0, s);
            &&& l == text::utf8(x.drop_last()).len()
            &&& 0 <= l < s <= b.len()
            &&& util::char_at(b, l) == x.last()
        }),
{
    let f = x.drop_last();
    let r = seq![x.last()] + y;
    assert(f + r =~= x + y);
    assert(f.push(x.last()) =~= x);
    pieces::lemma_at(f, r);
    let b = text::utf8(x + y);
    let l = text::utf8(f).len() as int;
    util::lemma_after(b, l);
    rules::lemma_last_start(b, 0, l, util::after(b, l));
    pieces::lemma_at(x, y);
}

proof fn lemma_blank_before(x: Seq<char>, w: Seq<char>, y: Seq<char>)
    requires
        all(w, |c: char| util::char_is_whitespace(c)),
        x.len() > 0 ==> !util::char_is_whitespace(x.last()),
    ensures
        added::blank_start(text::utf8(x + w + y), text::utf8(x + w).len() as int) == text::utf8(
            x,
        ).len(),
    decreases w.len(),
{
    let b = text::utf8(x + w + y);
    let f = |c: char| util::char_is_whitespace(c);
    if w.len() == 0 {
        assert(x + w =~= x);
        if x.len() > 0 {
            lemma_before(x, y);
        } else {
            assert(text::utf8(x) =~= Seq::<u8>::empty());
        }
    } else {
        let v = w.drop_last();
        let z = seq![w.last()] + y;
        assert(f(w[w.len() - 1]));
        lemma_before(x + w, y);
        assert((x + w).drop_last() =~= x + v);
        assert((x + w).last() == w.last());
        assert(x + v + z =~= x + w + y);
        assert forall|i: int| 0 <= i < v.len() implies util::char_is_whitespace(
            #[trigger] v[i],
        ) by {
            assert(f(w[i]));
        }
        lemma_blank_before(x, v, z);
    }
}

proof fn lemma_blank_behind(x: Seq<char>, w: Seq<char>, y: Seq<char>)
    requires
        all(w, |c: char| util::char_is_whitespace(c)),
        y.len() > 0 ==> !util::char_is_whitespace(y[0]),
    ensures
        added::blank_end(text::utf8(x + w + y), text::utf8(x).len() as int) == text::utf8(
            x + w,
        ).len(),
    decreases w.len(),
{
    let b = text::utf8(x + w + y);
    let f = |c: char| util::char_is_whitespace(c);
    assert(x + w + y =~= x + (w + y));
    pieces::lemma_at(x, w + y);
    if w.len() == 0 {
        assert(x + w =~= x);
        assert(w + y =~= y);
    } else {
        assert(f(w[0]));
        let x2 = x.push(w[0]);
        let w2 = w.drop_first();
        assert(x2 + w2 =~= x + w);
        assert(x2 + w2 + y =~= x + w + y);
        assert forall|i: int| 0 <= i < w2.len() implies util::char_is_whitespace(
            #[trigger] w2[i],
        ) by {
            assert(f(w[i + 1]));
        }
        util::lemma_after(b, text::utf8(x).len() as int);
        lemma_blank_behind(x2, w2, y);
    }
}

/// An added token takes its own text, and the whitespace in front of it or
/// behind it where it asks for that: all of it, but never what the part
/// before has taken.
pub proof fn law_added_token_takes_its_text(
    spec: AddedView,
    x: Seq<char>,
    l: Seq<char>,
    t: Seq<char>,
    r: Seq<char>,
    y: Seq<char>,
    pos: int,
)
    requires
        all(l, |c: char| util::char_is_whitespace(c)),
        x.len() > 0 ==> !util::char_is_whitespace(x.last()),
        all(r, |c: char| util::char_is_whitespace(c)),
        y.len() > 0 ==> !util::char_is_whitespace(y[0]),
        !spec.single_word,
    ensures
        ({
            let b = text::utf8(x + l + t + r + y);
            let s = text::utf8(x + l).len() as int;
            let e = text::utf8(x + l + t).len() as int;
            let from = if !spec.lstrip {
                s
            } else if text::utf8(x).len() > pos {
                text::utf8(x).len() as int
            } else {
                pos
            };
            let to = if spec.rstrip {
                text::utf8(x + l + t + r).len() as int
            } else {
                e
            };
            added::match_span(b, spec, pos, s, e) == Some((from, to))
        }),
{
    let whole = x + l + t + r + y;
    assert(whole =~= x + l + (t + r + y));
    lemma_blank_before(x, l, t + r + y);
    pieces::lemma_at(x + l, t + r + y);
    assert(whole =~= x + l + t + (r + y));
    pieces::lemma_at(x + l + t, r + y);
    lemma_blank_behind(x + l + t, r, y);
}

/// A token that must be a single word counts only where no word goes on in
/// front of it or behind it.
pub proof fn law_single_words_stand_alone(
    spec: AddedView,
    x: Seq<char>,
    t: Seq<char>,
    y: Seq<char>,
    pos: int,
)
    requires
        spec.single_word,
    ensures
        added::match_span(
            text::utf8(x + t + y),
            spec,
            pos,
            text::utf8(x).len() as int,
            text::utf8(x + t).len() as int,
        ) is Some <==> (x.len() == 0 || !in_words(x.last())) && (y.len() == 0 || !in_words(y[0])),
{
    let b = text::utf8(x + t + y);
    assert(x + t + y =~= x + (t + y));
    pieces::lemma_at(x, t + y);
    pieces::lemma_at(x + t, y);
    if x.len() > 0 {
        lemma_before(x, t + y);
    } else {
        assert(text::utf8(x) =~= Seq::<u8>::empty());
    }
}

/// A text with one added token in it is what stands in front, the token, and
/// what stands behind.
pub proof fn law_text_around_an_added_token(
    specs: Seq<AddedView>,
    k: u32,
    x: Seq<char>,
    t: Seq<char>,
    y: Seq<char>,
)
    requires
        k < specs.len(),
        !specs[k as int].single_word,
        !specs[k as int].lstrip,
        !specs[k as int].rstrip,
        x.len() > 0,
        t.len() > 0,
        y.len() > 0,
    ensures
        ({
            let b = text::utf8(x + t + y);
            let s = text::utf8(x).len() as int;
            let e = text::utf8(x + t).len() as int;
            &&& added::parts_from(b, specs, seq![(k, s, e)], 0, 0) == seq![
                (None::<int>, 0int, s),
                (Some(k as int), s, e),
                (None::<int>, e, b.len() as int),
            ]
            &&& added::parts_from(b, specs, seq![], 0, 0) == seq![
                (None::<int>, 0int, b.len() as int),
            ]
        }),
{
    let b = text::utf8(x + t + y);
    let s = text::utf8(x).len() as int;
    let e = text::utf8(x + t).len() as int;
    assert(x + t + y =~= x + (t + y));
    pieces::lemma_at(x, t + y);
    pieces::lemma_at(x + t, y);
    pieces::lemma_at(seq![], x);
    assert(Seq::<char>::empty() + x =~= x);
    text::lemma_utf8_concat(x, t);
    encode_utf8_first_scalar(x);
    encode_utf8_first_scalar(t);
    let m = seq![(k, s, e)];
    reveal_with_fuel(added::parts_from, 3);
    assert(m[0] == (k, s, e));
    assert(added::taken_span(b, specs, 0, m[0]) == Some((s, e)));
    assert(added::parts_from(b, specs, m, 0, 0) =~= seq![
        (None::<int>, 0int, s),
        (Some(k as int), s, e),
        (None::<int>, e, b.len() as int),
    ]);
}

// ---- replacements ----

/// The needle stands at `k`.
pub open spec fn is_at(h: Seq<u8>, needle: Seq<u8>, k: int) -> bool {
    0 <= k && k + needle.len() <= h.len() && h.subrange(k, k + needle.len()) == needle
}

/// The needle starts nowhere in front of `i`.
pub open spec fn not_before(h: Seq<u8>, needle: Seq<u8>, i: int) -> bool {
    forall|k: int| 0 <= k < i ==> !#[trigger] is_at(h, needle, k)
}

proof fn lemma_replaced_part(h: Seq<u8>, needle: Seq<u8>, rep: Seq<u8>, n: int, i: int)
    requires
        needle.len() > 0,
        0 <= n <= h.len(),
        0 <= i <= h.len() - n,
    ensures
        replace::replaced_from(h, needle, rep, n + i) == replace::replaced_from(
            h.subrange(n, h.len() as int),
            needle,
            rep,
            i,
        ),
    decreases h.len() - n - i,
{
    let t = h.subrange(n, h.len() as int);
    if i < t.len() {
        if i + needle.len() <= t.len() {
            assert(t.subrange(i, i + needle.len()) =~= h.subrange(n + i, n + i + needle.len()));
        }
        if replace::occurs_at(t, needle, i) {
            lemma_replaced_part(h, needle, rep, n, i + needle.len());
        } else {
            lemma_replaced_part(h, needle, rep, n, i + 1);
        }
    }
}

proof fn lemma_kept_front(h: Seq<u8>, needle: Seq<u8>, rep: Seq<u8>, i: int, k: int)
    requires
        needle.len() > 0,
        0 <= i <= k <= h.len(),
        not_before(h, needle, k),
    ensures
        replace::replaced_from(h, needle, rep, i) == h.subrange(i, k) + replace::replaced_from(
            h,
            needle,
            rep,
            k,
        ),
    decreases k - i,
{
    if i < k {
        lemma_kept_front(h, needle, rep, i + 1, k);
        assert(!is_at(h, needle, i));
        assert(replace::replaced_from(h, needle, rep, i) =~= h.subrange(i, k)
            + replace::replaced_from(h, needle, rep, k));
    } else {
        assert(h.subrange(i, k) + replace::replaced_from(h, needle, rep, k)
            =~= replace::replaced_from(h, needle, rep, k));
    }
}

/// What has no needle in it stays; where the needle stands first, the part in
/// front of it stays, the replacement follows, and the rest is done alike.
pub proof fn law_needles_are_replaced(
    a: Seq<u8>,
    needle: Seq<u8>,
    b: Seq<u8>,
    rep: Seq<u8>,
)
    requires
        needle.len() > 0,
    ensures
        not_before(a, needle, a.len() as int) ==> replace::replaced(a, needle, rep) == a,
        not_before(a + needle + b, needle, a.len() as int) ==> replace::replaced(
            a + needle + b,
            needle,
            rep,
        ) == a + rep + replace::replaced(b, needle, rep),
{
    if not_before(a, needle, a.len() as int) {
        lemma_kept_front(a, needle, rep, 0, a.len() as int);
        assert(replace::replaced(a, needle, rep) =~= a);
    }
    let h = a + needle + b;
    let n = a.len() as int;
    if not_before(h, needle, n) {
        lemma_kept_front(h, needle, rep, 0, n);
        assert(h.subrange(0, n) =~= a);
        assert(h.subrange(n, n + needle.len()) =~= needle);
        assert(replace::occurs_at(h, needle, n));
        let m = n + needle.len();
        assert(h.subrange(m, h.len() as int) =~= b);
        lemma_replaced_part(h, needle, rep, m, 0);
        assert(replace::replaced(h, needle, rep) =~= a + rep + replace::replaced(b, needle, rep));
    }
}

proof fn lemma_occurrences_part(h: Seq<u8>, needle: Seq<u8>, n: int, i: int)
    requires
        needle.len() > 0,
        0 <= n <= h.len(),
        0 <= i <= h.len() - n,
    ensures
        replace::occurrences(h, needle, n + i) == replace::occurrences(
            h.subrange(n, h.len() as int),
            needle,
            i,
        ).map_values(|k: int| k + n),
    decreases h.len() - n - i,
{
    let t = h.subrange(n, h.len() as int);
    let f = |k: int| k + n;
    if i + needle.len() <= t.len() {
        assert(t.subrange(i, i + needle.len()) =~= h.subrange(n + i, n + i + needle.len()));
        if replace::occurs_at(t, needle, i) {
            lemma_occurrences_part(h, needle, n, i + needle.len());
            assert(replace::occurrences(h, needle, n + i) =~= replace::occurrences(
                t,
                needle,
                i,
            ).map_values(f));
        } else {
            lemma_occurrences_part(h, needle, n, i + 1);
        }
    } else {
        assert(replace::occurrences(t, needle, i).map_values(f) =~= Seq::empty());
    }
}

proof fn lemma_occurrences_front(h: Seq<u8>, needle: Seq<u8>, i: int, k: int)
    requires
        needle.len() > 0,
        0 <= i <= k <= h.len(),
        not_before(h, needle, k),
    ensures
        replace::occurrences(h, needle, i) == replace::occurrences(h, needle, k),
    decreases k - i,
{
    if i < k {
        lemma_occurrences_front(h, needle, i + 1, k);
        assert(!is_at(h, needle, i));
        if i + needle.len() > h.len() {
            assert(replace::occurrences(h, needle, k) =~= Seq::empty());
        }
    }
}

// ---- charsmaps ----

/// A cluster of fewer than six bytes that has a replacement is replaced as a
/// whole; every other cluster character by character. What has no replacement
/// stays.
pub proof fn law_clusters_are_replaced(
    trie: Seq<u32>,
    rep: Seq<u8>,
    g: Seq<char>,
    a: Seq<Seq<char>>,
    b: Seq<char>,
)
    ensures
        charsmap::replacement(trie, rep, text::utf8(g)) matches Some(r) ==> (text::utf8(g).len() <= 5
            ==> charsmap::cluster_replaced(trie, rep, g) == r),
        text::utf8(g).len() >= 6 || charsmap::replacement(trie, rep, text::utf8(g)) is None
            ==> charsmap::cluster_replaced(trie, rep, g) == charsmap::chars_replaced(trie, rep, g),
        charsmap::replacement(trie, rep, text::utf8(g)) is None ==> charsmap::replaced(
            trie,
            rep,
            text::utf8(g),
        ) == text::utf8(g),
        charsmap::chars_replaced(trie, rep, g + b) == charsmap::chars_replaced(trie, rep, g)
            + charsmap::chars_replaced(trie, rep, b),
        charsmap::clusters_replaced(trie, rep, seq![g] + a) == charsmap::cluster_replaced(
            trie,
            rep,
            g,
        ) + charsmap::clusters_replaced(trie, rep, a),
    decreases g.len(),
{
    assert((seq![g] + a).drop_first() =~= a);
    if g.len() == 0 {
        assert(g + b =~= b);
        assert(charsmap::chars_replaced(trie, rep, g) + charsmap::chars_replaced(trie, rep, b)
            =~= charsmap::chars_replaced(trie, rep, b));
    } else {
        law_clusters_are_replaced(trie, rep, g.drop_first(), a, b);
        assert((g + b).drop_first() =~= g.drop_first() + b);
        assert(charsmap::chars_replaced(trie, rep, g + b) =~= charsmap::chars_replaced(
            trie,
            rep,
            g,
        ) + charsmap::chars_replaced(trie, rep, b));
    }
}

/// A replacement is the text up to the next NUL.
pub proof fn law_replacement_ends_at_nul(a: Seq<u8>, r: Seq<u8>, b: Seq<u8>)
    requires
        !r.contains(0u8),
        util::boundary(a + r + seq![0u8] + b, a.len() as int),
    ensures
        charsmap::replacement_at(a + r + seq![0u8] + b, a.len() as int) == Some(r),
{
    let t = a + r + seq![0u8] + b;
    let p = a.len() as int;
    lemma_nul(t, p, p + r.len());
    assert(t.subrange(p, p + r.len()) =~= r);
}

proof fn lemma_nul(b: Seq<u8>, p: int, e: int)
    requires
        0 <= p <= e < b.len(),
        forall|i: int| p <= i < e ==> b[i] != 0,
        b[e] == 0,
    ensures
        charsmap::nul_end(b, p) == e,
    decreases e - p,
{
    if p < e {
        lemma_nul(b, p + 1, e);
    }
}

/// ASCII is replaced byte by byte, CR LF as one.
pub proof fn law_ascii_is_replaced(trie: Seq<u32>, rep: Seq<u8>, b: Seq<u8>, i: int)
    requires
        0 <= i < b.len(),
        forall|k: int| 0 <= k < b.len() ==> b[k] < 0x80,
    ensures
        b[i] == 0x0d && i + 1 < b.len() && b[i + 1] == 0x0a ==> charsmap::normalized_from(
            trie,
            rep,
            b,
            i,
        ) == charsmap::replaced(trie, rep, seq![0x0du8, 0x0au8]) + charsmap::normalized_from(
            trie,
            rep,
            b,
            i + 2,
        ),
        !(b[i] == 0x0d && i + 1 < b.len() && b[i + 1] == 0x0a) ==> charsmap::normalized_from(
            trie,
            rep,
            b,
            i,
        ) == charsmap::replaced(trie, rep, seq![b[i]]) + charsmap::normalized_from(
            trie,
            rep,
            b,
            i + 1,
        ),
{
}

// ---- documents ----

proof fn lemma_docs_shift(
    h: Seq<u8>,
    t: Seq<u8>,
    n: int,
    sep_len: int,
    at: Seq<int>,
    i: int,
    start: int,
)
    requires
        0 <= n <= h.len(),
        t == h.subrange(n, h.len() as int),
        0 <= i,
        0 <= start,
        0 < sep_len,
        forall|k: int| 0 <= k < at.len() ==> 0 <= #[trigger] at[k] && at[k] + sep_len <= t.len(),
        start <= t.len(),
    ensures
        batch::docs_from(h, sep_len, at.map_values(|k: int| k + n), i, start + n)
            == batch::docs_from(t, sep_len, at, i, start),
    decreases at.len() - i,
{
    let f = |k: int| k + n;
    let m = at.map_values(f);
    if i < at.len() {
        assert(m[i] == at[i] + n);
        assert(0 <= at[i] && at[i] + sep_len <= t.len());
        lemma_docs_shift(h, t, n, sep_len, at, i + 1, at[i] + sep_len);
        if at[i] > start {
            assert(h.subrange(start + n, m[i]) =~= t.subrange(start, at[i]));
        }
    } else if start < t.len() {
        assert(h.subrange(start + n, h.len() as int) =~= t.subrange(start, t.len() as int));
    }
}

proof fn lemma_occurrences_lie(h: Seq<u8>, needle: Seq<u8>, i: int, k: int)
    requires
        0 <= i,
        0 <= k < replace::occurrences(h, needle, i).len(),
    ensures
        i <= replace::occurrences(h, needle, i)[k],
        replace::occurrences(h, needle, i)[k] + needle.len() <= h.len(),
    decreases h.len() - i,
{
    if needle.len() > 0 && i + needle.len() <= h.len() {
        if replace::occurs_at(h, needle, i) {
            if k > 0 {
                lemma_occurrences_lie(h, needle, i + needle.len(), k - 1);
            }
        } else {
            lemma_occurrences_lie(h, needle, i + 1, k);
        }
    }
}

proof fn lemma_docs_skip(b: Seq<u8>, sep_len: int, at: Seq<int>, x: int, i: int, start: int)
    requires
        0 <= i,
    ensures
        batch::docs_from(b, sep_len, seq![x] + at, i + 1, start) == batch::docs_from(
            b,
            sep_len,
            at,
            i,
            start,
        ),
    decreases at.len() - i,
{
    let v = seq![x] + at;
    if i < at.len() {
        assert(v[i + 1] == at[i]);
        lemma_docs_skip(b, sep_len, at, x, i + 1, at[i] + sep_len);
    }
}

/// The documents of a buffer are what stands between its separators, but for
/// what is empty: the part in front of the first separator, then the
/// documents of the rest.
pub proof fn law_documents_between_separators(a: Seq<u8>, sep: Seq<u8>, b: Seq<u8>)
    requires
        sep.len() > 0,
    ensures
        not_before(a, sep, a.len() as int) ==> batch::docs_of(a, sep) == if a.len() > 0 {
            seq![a]
        } else {
            seq![]
        },
        not_before(a + sep + b, sep, a.len() as int) ==> batch::docs_of(a + sep + b, sep) == (
        if a.len() > 0 {
            seq![a]
        } else {
            seq![]
        }) + batch::docs_of(b, sep),
{
    if not_before(a, sep, a.len() as int) {
        lemma_occurrences_front(a, sep, 0, a.len() as int);
        assert(replace::occurrences(a, sep, a.len() as int) =~= Seq::empty());
        assert(a.subrange(0, a.len() as int) =~= a);
    }
    let h = a + sep + b;
    let n = a.len() as int;
    if not_before(h, sep, n) {
        lemma_occurrences_front(h, sep, 0, n);
        assert(h.subrange(n, n + sep.len()) =~= sep);
        assert(replace::occurs_at(h, sep, n));
        let m = n + sep.len();
        assert(h.subrange(m, h.len() as int) =~= b);
        lemma_occurrences_part(h, sep, m, 0);
        let inner = replace::occurrences(b, sep, 0);
        let f = |k: int| k + m;
        let at = inner.map_values(f);
        assert(replace::occurrences(h, sep, 0) == seq![n] + at);
        assert forall|k: int| 0 <= k < inner.len() implies 0 <= #[trigger] inner[k] && inner[k]
            + sep.len() <= b.len() by {
            lemma_occurrences_lie(b, sep, 0, k);
        }
        lemma_docs_shift(h, b, m, sep.len() as int, inner, 0, 0);
        lemma_docs_skip(h, sep.len() as int, at, n, 0, m);
        assert((seq![n] + at)[0] == n);
        if n > 0 {
            assert(h.subrange(0, n) =~= a);
        }
        assert(batch::docs_of(h, sep) =~= (if a.len() > 0 {
            seq![a]
        } else {
            seq![]
        }) + batch::docs_of(b, sep));
    }
}

/// Without a separator a buffer is one document, if it is not empty.
pub proof fn law_one_document(b: Seq<u8>)
    ensures
        b.len() > 0 ==> batch::docs_of(b, seq![]) == seq![b],
        b.len() == 0 ==> batch::docs_of(b, seq![]).len() == 0,
{
}

/// The documents of several buffers are those of each, one buffer after
/// another.
pub proof fn law_documents_of_buffers(v: Seq<Vec<u8>>, b: Vec<u8>, sep: Seq<u8>)
    ensures
        batch::docs_of_all(v.push(b), sep) == batch::docs_of_all(v, sep) + batch::docs_of(b@, sep),
        batch::docs_of_all(seq![], sep).len() == 0,
{
    assert(v.push(b).drop_last() =~= v);
}

/// Token sequences in a row are joined, and their lengths add up.
pub proof fn law_flat_is_joined(parts: Seq<Seq<u32>>)
    ensures
        batch::flat(parts) == parts.flatten(),
    decreases parts.len(),
{
    if parts.len() > 0 {
        law_flat_is_joined(parts.drop_last());
        parts.drop_last().lemma_flatten_push(parts.last());
        assert(parts.drop_last().push(parts.last()) =~= parts);
    } else {
        assert(parts.flatten() =~= Seq::empty());
    }
}

// ---- chunks ----

/// A chunk ends in front of the last delimiter within its size, if there is
/// one behind its first byte; else it is as long as allowed.
pub proof fn law_chunks_break_at_delimiters(
    b: Seq<u8>,
    pos: int,
    size: int,
    delimiters: Seq<u8>,
    d: int,
)
    requires
        0 <= pos,
        size > 0,
        pos + size < b.len(),
    ensures
        pos < d < pos + size && delimiters.contains(b[d]) && (forall|i: int|
            d < i < pos + size ==> !delimiters.contains(#[trigger] b[i])) ==> chunks::chunk_end(
            b,
            pos,
            size,
            delimiters,
        ) == d,
        (forall|i: int| pos < i < pos + size ==> !delimiters.contains(#[trigger] b[i]))
            ==> chunks::chunk_end(b, pos, size, delimiters) == pos + size,
{
    if pos < d < pos + size && delimiters.contains(b[d]) && (forall|i: int|
        d < i < pos + size ==> !delimiters.contains(#[trigger] b[i])) {
        lemma_last_delimiter(b, delimiters, pos, pos + size, d);
    }
    if forall|i: int| pos < i < pos + size ==> !delimiters.contains(#[trigger] b[i]) {
        lemma_no_delimiter(b, delimiters, pos, pos + size);
    }
}

/// What is left goes into one chunk where it is not too long.
pub proof fn law_last_chunk(b: Seq<u8>, pos: int, size: int, delimiters: Seq<u8>)
    requires
        0 <= pos <= b.len() <= pos + size,
    ensures
        chunks::chunk_end(b, pos, size, delimiters) == b.len(),
{
}

proof fn lemma_last_delimiter(b: Seq<u8>, delimiters: Seq<u8>, lo: int, hi: int, d: int)
    requires
        lo <= d < hi,
        delimiters.contains(b[d]),
        forall|i: int| d < i < hi ==> !delimiters.contains(#[trigger] b[i]),
    ensures
        chunks::last_delimiter(b, delimiters, lo, hi) == d,
    decreases hi - d,
{
    if d < hi - 1 {
        assert(!delimiters.contains(b[hi - 1]));
        lemma_last_delimiter(b, delimiters, lo, hi - 1, d);
    }
}

proof fn lemma_no_delimiter(b: Seq<u8>, delimiters: Seq<u8>, lo: int, hi: int)
    requires
        0 <= lo <= hi,
        forall|i: int| lo < i < hi ==> !delimiters.contains(#[trigger] b[i]),
    ensures
        chunks::last_delimiter(b, delimiters, lo, hi) <= lo,
    decreases hi - lo,
{
    if lo < hi && !delimiters.contains(b[hi - 1]) {
        lemma_no_delimiter(b, delimiters, lo, hi - 1);
        if hi == lo + 1 {
            reveal_with_fuel(chunks::last_delimiter, 2);
        }
    }
}

// ---- names and counts ----

/// The name of a repository is what stands behind its last slash.
pub proof fn law_repository_names(owner: Seq<u8>, name: Seq<u8>)
    requires
        !name.contains(0x2fu8),
    ensures
        hub::name_start(owner + seq![0x2fu8] + name, (owner + seq![0x2fu8] + name).len() as int)
            == owner.len() + 1,
        hub::name_start(name, name.len() as int) == 0,
{
    let b = owner + seq![0x2fu8] + name;
    let k = owner.len() + 1int;
    lemma_name_start(b, b.len() as int, k);
    lemma_name_start(name, name.len() as int, 0);
}

proof fn lemma_name_start(b: Seq<u8>, n: int, k: int)
    requires
        0 <= k <= n <= b.len(),
        k > 0 ==> b[k - 1] == 0x2f,
        forall|i: int| k <= i < n ==> b[i] != 0x2f,
    ensures
        hub::name_start(b, n) == k,
    decreases n,
{
    if k < n {
        lemma_name_start(b, n - 1, k);
    }
}

/// Names are looked up in lower case: capitals of ASCII become small, all else
/// stays.
pub proof fn law_names_in_lower_case(s: Seq<char>, i: int)
    requires
        0 <= i < s.len(),
    ensures
        hub::lowered(s).len() == s.len(),
        'A' <= s[i] <= 'Z' ==> hub::lowered(s)[i] as u32 == s[i] as u32 + 32,
        !('A' <= s[i] <= 'Z') ==> hub::lowered(s)[i] == s[i],
{
    lemma_lower_case(s[i]);
}

proof fn lemma_lower_case(c: char)
    ensures
        'A' <= c <= 'Z' ==> crate::normalizer::ascii_lowercase(c) as u32 == c as u32 + 32,
        !('A' <= c <= 'Z') ==> crate::normalizer::ascii_lowercase(c) == c,
{
}

/// A count is compared as numbers are.
pub proof fn law_counts_are_compared(n: nat, limit: nat)
    ensures
        stream::order_of(n, limit) == CountOrder::Less <==> n < limit,
        stream::order_of(n, limit) == CountOrder::Equal <==> n == limit,
        stream::order_of(n, limit) == CountOrder::Greater <==> n > limit,
{
}

} // verus!
