//! What becomes of the spaces of a text: SentencePiece's words, and its
//! visible space `▁`.
use crate::decoder;
use crate::normalizer;
use crate::normalizer::{MetaspacePrepend, Normalizer, Squeeze};
use crate::pretokie::util;
use crate::replace;
use crate::text;
use vstd::prelude::*;

verus! {

// ---- words with one space between them ----

/// A whitespace character, or, where controls are looked at, one that counts
/// as such.
pub open spec fn parts_words(controls: bool, c: char) -> bool {
    let g = util::general_category(c);
    if !controls {
        util::char_is_whitespace(c)
    } else if c as u32 == 0 {
        false
    } else if g == seq!['C', 'c'] {
        c as u32 == 0x09 || c as u32 == 0x0a || c as u32 == 0x0c || c as u32 == 0x0d
    } else {
        g == seq!['C', 'f'] || c as u32 == 0xfffd || util::char_is_whitespace(c)
    }
}

/// A control character that is left out.
pub open spec fn left_out(controls: bool, c: char) -> bool {
    controls && (c as u32 == 0 || (util::general_category(c) == seq!['C', 'c'] && !parts_words(
        controls,
        c,
    )))
}

/// The space parts words.
pub open spec fn space_parts(controls: bool) -> bool {
    parts_words(controls, ' ')
}

proof fn lemma_kinds(controls: bool, c: char)
    ensures
        parts_words(controls, c) <==> normalizer::squeeze_of(controls, c) == Squeeze::Blank,
        left_out(controls, c) <==> normalizer::squeeze_of(controls, c) == Squeeze::Drop,
{
}

/// Whether the text in front ends in whitespace, or has nothing in it.
spec fn ends_blank(controls: bool, s: Seq<char>, blank: bool) -> bool
    decreases s.len(),
{
    if s.len() == 0 {
        blank
    } else {
        match normalizer::squeeze_of(controls, s.last()) {
            Squeeze::Drop => ends_blank(controls, s.drop_last(), blank),
            Squeeze::Blank => true,
            Squeeze::Keep => false,
        }
    }
}

/// One more character behind the ones from `i` on.
proof fn lemma_squeezed_push(controls: bool, s: Seq<char>, c: char, i: int, blank: bool)
    requires
        0 <= i <= s.len(),
    ensures
        normalizer::squeezed_from(controls, s.push(c), i, blank) == normalizer::squeezed_from(
            controls,
            s,
            i,
            blank,
        ) + match normalizer::squeeze_of(controls, c) {
            Squeeze::Drop => Seq::<char>::empty(),
            Squeeze::Blank => if ends_blank(controls, s.subrange(i, s.len() as int), blank) {
                Seq::<char>::empty()
            } else {
                seq![' ']
            },
            Squeeze::Keep => seq![c],
        },
    decreases s.len() - i,
{
    let t = s.push(c);
    let last = match normalizer::squeeze_of(controls, c) {
        Squeeze::Drop => Seq::<char>::empty(),
        Squeeze::Blank => if ends_blank(controls, s.subrange(i, s.len() as int), blank) {
            Seq::<char>::empty()
        } else {
            seq![' ']
        },
        Squeeze::Keep => seq![c],
    };
    if i < s.len() {
        let next = match normalizer::squeeze_of(controls, s[i]) {
            Squeeze::Drop => blank,
            Squeeze::Blank => true,
            Squeeze::Keep => false,
        };
        lemma_squeezed_push(controls, s, c, i + 1, next);
        lemma_ends_blank_front(controls, s.subrange(i, s.len() as int), blank);
        assert(s.subrange(i, s.len() as int).drop_first() =~= s.subrange(i + 1, s.len() as int));
        assert(t[i] == s[i]);
        assert(normalizer::squeezed_from(controls, t, i, blank) =~= normalizer::squeezed_from(
            controls,
            s,
            i,
            blank,
        ) + last);
    } else {
        assert(s.subrange(i, s.len() as int) =~= Seq::<char>::empty());
        assert(t[i] == c);
        assert(normalizer::squeezed_from(controls, t, i + 1, true) =~= Seq::<char>::empty());
        assert(normalizer::squeezed_from(controls, t, i + 1, false) =~= Seq::<char>::empty());
        assert(normalizer::squeezed_from(controls, t, i, blank) =~= normalizer::squeezed_from(
            controls,
            s,
            i,
            blank,
        ) + last);
    }
}

proof fn lemma_ends_blank_front(controls: bool, s: Seq<char>, blank: bool)
    requires
        s.len() > 0,
    ensures
        ends_blank(controls, s, blank) == ends_blank(
            controls,
            s.drop_first(),
            match normalizer::squeeze_of(controls, s[0]) {
                Squeeze::Drop => blank,
                Squeeze::Blank => true,
                Squeeze::Keep => false,
            },
        ),
    decreases s.len(),
{
    if s.len() > 1 {
        lemma_ends_blank_front(controls, s.drop_last(), blank);
        assert(s.drop_first().drop_last() =~= s.drop_last().drop_first());
    } else {
        assert(s.drop_first() =~= Seq::<char>::empty());
        assert(s.drop_last() =~= Seq::<char>::empty());
    }
}

/// The squeezed text, character by character.
spec fn squeezed(controls: bool, s: Seq<char>) -> Seq<char> {
    normalizer::squeezed_from(controls, s, 0, true)
}

/// A squeezed text starts with no space, and ends in one just where the text
/// ends in whitespace behind a word.
proof fn lemma_squeezed_ends(controls: bool, s: Seq<char>)
    requires
        space_parts(controls),
    ensures
        squeezed(controls, s).len() > 0 ==> squeezed(controls, s)[0] != ' ',
        ends_blank(controls, s, true) <==> squeezed(controls, s).len() == 0 || squeezed(
            controls,
            s,
        ).last() == ' ',
    decreases s.len(),
{
    if s.len() > 0 {
        let d = s.drop_last();
        assert(d.push(s.last()) =~= s);
        lemma_squeezed_push(controls, d, s.last(), 0, true);
        assert(d.subrange(0, d.len() as int) =~= d);
        lemma_squeezed_ends(controls, d);
        lemma_kinds(controls, s.last());
        lemma_kinds(controls, ' ');
        let before = squeezed(controls, d);
        let all = squeezed(controls, s);
        if before.len() > 0 {
            assert(all[0] == before[0]);
        }
        if normalizer::squeeze_of(controls, s.last()) == Squeeze::Drop {
            assert(all =~= before);
        } else if normalizer::squeeze_of(controls, s.last()) == Squeeze::Blank {
            if ends_blank(controls, d, true) {
                assert(all =~= before);
            }
        }
    }
}

/// A text behind whitespace is squeezed as it is alone.
proof fn lemma_squeezed_behind(controls: bool, x: Seq<char>, w: char, y: Seq<char>)
    requires
        space_parts(controls),
        parts_words(controls, w),
    ensures
        squeezed(controls, x + seq![w] + y) == squeezed(controls, x) + (if ends_blank(
            controls,
            x,
            true,
        ) {
            Seq::<char>::empty()
        } else {
            seq![' ']
        }) + squeezed(controls, y),
        y.len() == 0 ==> ends_blank(controls, x + seq![w] + y, true),
        y.len() > 0 ==> ends_blank(controls, x + seq![w] + y, true) == ends_blank(
            controls,
            y,
            true,
        ),
    decreases y.len(),
{
    lemma_kinds(controls, w);
    let gap = if ends_blank(controls, x, true) {
        Seq::<char>::empty()
    } else {
        seq![' ']
    };
    if y.len() == 0 {
        assert(x + seq![w] + y =~= x.push(w));
        assert(x.push(w).drop_last() =~= x);
        assert(x.subrange(0, x.len() as int) =~= x);
        lemma_squeezed_push(controls, x, w, 0, true);
        assert(squeezed(controls, y) =~= Seq::<char>::empty());
        assert(squeezed(controls, x) + gap + squeezed(controls, y) =~= squeezed(controls, x)
            + gap);
    } else {
        let d = y.drop_last();
        lemma_squeezed_behind(controls, x, w, d);
        let front = x + seq![w] + d;
        assert(x + seq![w] + y =~= front.push(y.last()));
        assert(front.push(y.last()).drop_last() =~= front);
        assert(d.push(y.last()) =~= y);
        assert(front.subrange(0, front.len() as int) =~= front);
        assert(d.subrange(0, d.len() as int) =~= d);
        lemma_squeezed_push(controls, front, y.last(), 0, true);
        lemma_squeezed_push(controls, d, y.last(), 0, true);
        assert(ends_blank(controls, front, true) == ends_blank(controls, d, true));
        assert(squeezed(controls, x + seq![w] + y) =~= squeezed(controls, x) + gap + squeezed(
            controls,
            y,
        ));
    }
}

/// Whitespace between two texts leaves one space between their words, and none
/// where one of them has no words.
pub proof fn law_words_are_parted_once(controls: bool, x: Seq<char>, w: char, y: Seq<char>)
    requires
        parts_words(controls, w),
        space_parts(controls),
    ensures
        ({
            let a = normalizer::collapsed(controls, x);
            let b = normalizer::collapsed(controls, y);
            normalizer::collapsed(controls, x + seq![w] + y) == if a.len() == 0 {
                b
            } else if b.len() == 0 {
                a
            } else {
                a + seq![' '] + b
            }
        }),
{
    lemma_squeezed_behind(controls, x, w, y);
    lemma_squeezed_ends(controls, x);
    lemma_squeezed_ends(controls, y);
    let (t, u) = (squeezed(controls, x), squeezed(controls, y));
    let all = squeezed(controls, x + seq![w] + y);
    let (a, b) = (normalizer::collapsed(controls, x), normalizer::collapsed(controls, y));
    let r = normalizer::collapsed(controls, x + seq![w] + y);
    if u.len() == 0 {
        if t.len() == 0 {
            assert(r =~= b);
        } else if t.last() == ' ' {
            assert(all =~= t);
        } else {
            assert(all =~= t.push(' '));
            assert(all.drop_last() =~= t);
        }
    } else {
        assert(all.last() == u.last());
        if t.len() == 0 {
            assert(all =~= u);
        } else if t.last() == ' ' {
            assert(t[0] != ' ');
            assert(r =~= a + seq![' '] + b);
        } else {
            assert(r =~= a + seq![' '] + b);
        }
    }
}

/// A word is left as it is.
pub proof fn law_words_are_kept(controls: bool, s: Seq<char>)
    requires
        space_parts(controls),
        forall|i: int|
            0 <= i < s.len() ==> !parts_words(controls, #[trigger] s[i]) && !left_out(
                controls,
                s[i],
            ),
    ensures
        normalizer::collapsed(controls, s) == s,
    decreases s.len(),
{
    lemma_words_squeezed(controls, s);
    if s.len() > 0 {
        assert(!parts_words(controls, s[s.len() - 1]));
    }
}

proof fn lemma_words_squeezed(controls: bool, s: Seq<char>)
    requires
        forall|i: int|
            0 <= i < s.len() ==> !parts_words(controls, #[trigger] s[i]) && !left_out(
                controls,
                s[i],
            ),
    ensures
        squeezed(controls, s) == s,
    decreases s.len(),
{
    if s.len() > 0 {
        let d = s.drop_last();
        assert forall|i: int| 0 <= i < d.len() implies !parts_words(controls, #[trigger] d[i])
            && !left_out(controls, d[i]) by {
            assert(d[i] == s[i]);
        }
        lemma_words_squeezed(controls, d);
        assert(!parts_words(controls, s[s.len() - 1]));
        lemma_kinds(controls, s.last());
        assert(d.push(s.last()) =~= s);
        lemma_squeezed_push(controls, d, s.last(), 0, true);
        assert(squeezed(controls, s) =~= s);
    } else {
        assert(squeezed(controls, s) =~= s);
    }
}

/// A character that is left out leaves no trace.
pub proof fn law_controls_leave_no_trace(x: Seq<char>, c: char, y: Seq<char>)
    requires
        left_out(true, c),
    ensures
        normalizer::collapsed(true, x + seq![c] + y) == normalizer::collapsed(true, x + y),
{
    lemma_left_out(x, c, y);
}

proof fn lemma_left_out(x: Seq<char>, c: char, y: Seq<char>)
    requires
        left_out(true, c),
    ensures
        squeezed(true, x + seq![c] + y) == squeezed(true, x + y),
        ends_blank(true, x + seq![c] + y, true) == ends_blank(true, x + y, true),
    decreases y.len(),
{
    lemma_kinds(true, c);
    if y.len() == 0 {
        assert(x + seq![c] + y =~= x.push(c));
        assert(x.push(c).drop_last() =~= x);
        assert(x + y =~= x);
        lemma_squeezed_push(true, x, c, 0, true);
        assert(squeezed(true, x.push(c)) =~= squeezed(true, x));
    } else {
        let d = y.drop_last();
        lemma_left_out(x, c, d);
        let (p, q) = (x + seq![c] + d, x + d);
        assert(x + seq![c] + y =~= p.push(y.last()));
        assert(x + y =~= q.push(y.last()));
        assert(p.push(y.last()).drop_last() =~= p);
        assert(q.push(y.last()).drop_last() =~= q);
        assert(p.subrange(0, p.len() as int) =~= p);
        assert(q.subrange(0, q.len() as int) =~= q);
        lemma_squeezed_push(true, p, y.last(), 0, true);
        lemma_squeezed_push(true, q, y.last(), 0, true);
    }
}

// ---- visible spaces ----

/// The visible space takes the place of the space, and nothing else changes.
pub proof fn law_spaces_made_visible(s: Seq<char>, i: int)
    requires
        0 <= i < s.len(),
    ensures
        normalizer::metaspaced(s).len() == s.len(),
        normalizer::metaspaced(s)[i] == if s[i] == ' ' {
            '\u{2581}'
        } else {
            s[i]
        },
{
}

/// With a visible space in front where the normalizer puts one: always, or
/// where the text does not start with whitespace, or there on the first
/// segment of a text alone.
pub proof fn law_metaspace_normalizers(s: Seq<char>, first: bool)
    ensures
        Normalizer::Absent.segment_form(s, first) == s,
        Normalizer::MetaspaceReplace.segment_form(s, first) == normalizer::metaspaced(s),
        Normalizer::Metaspace(MetaspacePrepend::Unconditional).segment_form(s, first) == seq![
            '\u{2581}',
        ] + normalizer::metaspaced(s),
        Normalizer::Metaspace(MetaspacePrepend::IfNotSpaceLed).segment_form(s, first) == if s.len()
            > 0 && util::char_is_whitespace(s[0]) {
            normalizer::metaspaced(s)
        } else {
            seq!['\u{2581}'] + normalizer::metaspaced(s)
        },
        Normalizer::Metaspace(MetaspacePrepend::FirstSegment).segment_form(s, first) == if !first
            || (s.len() > 0 && util::char_is_whitespace(s[0])) {
            normalizer::metaspaced(s)
        } else {
            seq!['\u{2581}'] + normalizer::metaspaced(s)
        },
{
}

/// SentencePiece's form of a text: a visible space, then the words of the
/// text's NFKC form with one visible space between them. The empty text stays
/// empty.
pub proof fn law_sentencepiece_form(s: Seq<char>)
    ensures
        s.len() == 0 ==> Normalizer::SentencePiece.normal_form(s).len() == 0,
        s.len() > 0 ==> Normalizer::SentencePiece.normal_form(s) == seq!['\u{2581}']
            + normalizer::metaspaced(normalizer::collapsed(true, normalizer::nfkc_form(s))),
        forall|i: int|
            0 <= i < Normalizer::SentencePiece.normal_form(s).len() ==> #[trigger]
                Normalizer::SentencePiece.normal_form(s)[i] != ' ',
{
}

/// Decoding makes spaces of visible spaces: what a normalizer put in, with a
/// visible space in front or not, decoding takes out.
pub proof fn law_decoding_undoes_metaspaces(s: Seq<char>)
    requires
        !s.contains('\u{2581}'),
    ensures
        decoder::unspaced(
            text::utf8(
                Normalizer::Metaspace(MetaspacePrepend::Unconditional).normal_form(s),
            ),
        ) == text::utf8(s),
        s.len() == 0 || s[0] != ' ' ==> decoder::unspaced(
            text::utf8(Normalizer::MetaspaceReplace.normal_form(s)),
        ) == text::utf8(s),
{
    let m = normalizer::metaspaced(s);
    let full = seq!['\u{2581}'] + m;
    lemma_back(m, 0);
    lemma_back(full, 0);
    assert(m.subrange(0, 0) =~= Seq::<char>::empty());
    assert(full.subrange(0, 0) =~= Seq::<char>::empty());
    assert(m.subrange(0, m.len() as int) =~= m);
    assert(spaced(m) =~= s) by {
        assert forall|i: int| 0 <= i < s.len() implies spaced(m)[i] == s[i] by {
            assert(s.contains(s[i]));
        }
    }
    assert(spaced(m).subrange(0, m.len() as int) =~= s);
    assert(spaced(full).subrange(0, full.len() as int) =~= seq![' '] + s);
    text::lemma_utf8_concat(seq![' '], s);
    text::lemma_utf8_ascii(' ');
    let a = text::utf8(seq![' '] + s);
    assert(a.subrange(1, a.len() as int) =~= text::utf8(s));
    if s.len() == 0 {
        assert(text::utf8(s) =~= Seq::<u8>::empty());
    } else if s[0] != ' ' {
        lemma_first_byte(s);
    }
}

/// A text with spaces for visible spaces.
spec fn spaced(s: Seq<char>) -> Seq<char> {
    s.map_values(
        |c: char|
            if c == '\u{2581}' {
                ' '
            } else {
                c
            },
    )
}

/// The first byte of a text that starts with no space is no space.
proof fn lemma_first_byte(s: Seq<char>)
    requires
        s.len() > 0,
        s[0] != ' ',
    ensures
        text::utf8(s).len() > 0,
        text::utf8(s)[0] != 0x20,
{
    let c = s[0];
    assert(s =~= seq![c] + s.drop_first());
    text::lemma_utf8_concat(seq![c], s.drop_first());
    normalizer::lemma_no_space_byte(c);
    let b = text::utf8(seq![c]);
    vstd::utf8::encode_utf8_first_scalar(seq![c]);
    assert(seq![c].drop_first() =~= Seq::<char>::empty());
    assert(b.len() > 0) by {
        if b.len() == 0 {
            text::lemma_utf8_injective(seq![c], Seq::<char>::empty());
        }
    }
    assert(text::utf8(s)[0] == b[0]);
}

/// The visible space stands in a text's bytes just where it stands in the text.
proof fn lemma_back(s: Seq<char>, k: int)
    requires
        0 <= k <= s.len(),
    ensures
        replace::replaced_from(
            text::utf8(s),
            decoder::metaspace(),
            seq![0x20u8],
            text::utf8(s.subrange(0, k)).len() as int,
        ) == text::utf8(spaced(s).subrange(k, s.len() as int)),
    decreases s.len() - k,
{
    let h = text::utf8(s);
    let (n, rep) = (decoder::metaspace(), seq![0x20u8]);
    let p = text::utf8(s.subrange(0, k)).len() as int;
    let m = spaced(s);
    assert(s.subrange(0, k) + s.subrange(k, s.len() as int) =~= s);
    text::lemma_utf8_concat(s.subrange(0, k), s.subrange(k, s.len() as int));
    decoder::lemma_metaspace();
    if k < s.len() {
        let c = s[k];
        let cb = text::utf8(seq![c]);
        assert(s.subrange(0, k + 1) =~= s.subrange(0, k).push(c));
        text::lemma_utf8_push(s.subrange(0, k), c);
        let q = text::utf8(s.subrange(0, k + 1)).len() as int;
        let rest = s.subrange(k + 1, s.len() as int);
        assert(s.subrange(k, s.len() as int) =~= seq![c] + rest);
        text::lemma_utf8_concat(seq![c], rest);
        assert(h.subrange(p, q) =~= cb);
        lemma_back(s, k + 1);
        assert(m.subrange(k, s.len() as int) =~= seq![m[k]] + m.subrange(k + 1, s.len() as int));
        text::lemma_utf8_concat(seq![m[k]], m.subrange(k + 1, s.len() as int));
        text::lemma_utf8_ascii(' ');
        if c == '\u{2581}' {
            assert(h.subrange(p, p + 3) =~= n);
            assert(replace::occurs_at(h, n, p));
        } else {
            assert forall|j: int| p <= j < q implies !replace::occurs_at(h, n, j) by {
                lemma_not_inside(s, k, j);
            }
            normalizer::lemma_kept(h, n, rep, p, q);
        }
    } else {
        assert(s.subrange(k, s.len() as int) =~= Seq::<char>::empty());
        assert(s.subrange(0, k) =~= s);
        assert(m.subrange(k, s.len() as int) =~= Seq::<char>::empty());
        assert(replace::replaced_from(h, n, rep, p) =~= text::utf8(Seq::<char>::empty()));
    }
}

/// A text whose bytes start with those of the visible space starts with it.
proof fn lemma_starts_with_metaspace(s: Seq<char>)
    requires
        s.len() > 0,
        text::utf8(s).len() >= 3,
        text::utf8(s).subrange(0, 3) == decoder::metaspace(),
    ensures
        s[0] == '\u{2581}',
{
    let m = seq!['\u{2581}'];
    decoder::lemma_metaspace();
    vstd::utf8::encode_utf8_first_scalar(s);
    vstd::utf8::encode_utf8_first_scalar(m);
    let (a, b) = (text::utf8(s), text::utf8(m));
    assert(a[0] == a.subrange(0, 3)[0] && a[1] == a.subrange(0, 3)[1] && a[2] == a.subrange(
        0,
        3,
    )[2]);
    assert(b[0] == 0xe2 && b[1] == 0x96 && b[2] == 0x81);
    assert(vstd::utf8::decode_first_codepoint(a) == vstd::utf8::decode_first_codepoint(b));
    vstd::utf8::char_u32_cast(s[0], s[0] as u32);
    vstd::utf8::char_u32_cast(m[0], s[0] as u32);
}

/// Inside the bytes of a character other than the visible space, none starts.
proof fn lemma_not_inside(s: Seq<char>, k: int, j: int)
    requires
        0 <= k < s.len(),
        s[k] != '\u{2581}',
        text::utf8(s.subrange(0, k)).len() <= j < text::utf8(s.subrange(0, k + 1)).len(),
    ensures
        !replace::occurs_at(text::utf8(s), decoder::metaspace(), j),
{
    let h = text::utf8(s);
    let n = decoder::metaspace();
    let p = text::utf8(s.subrange(0, k)).len() as int;
    let rest = s.subrange(k, s.len() as int);
    assert(s.subrange(0, k) + rest =~= s);
    text::lemma_utf8_concat(s.subrange(0, k), rest);
    assert(util::tail(h, p) =~= text::utf8(rest));
    vstd::utf8::encode_utf8_valid_utf8(rest);
    assert(util::boundary(h, p));
    util::lemma_after(h, p);
    vstd::utf8::encode_utf8_first_scalar(rest);
    assert(s.subrange(0, k + 1) =~= s.subrange(0, k).push(s[k]));
    text::lemma_utf8_push(s.subrange(0, k), s[k]);
    let cb = text::utf8(seq![s[k]]);
    assert(seq![s[k]] + rest.drop_first() =~= rest);
    text::lemma_utf8_concat(seq![s[k]], rest.drop_first());
    assert(rest[0] == s[k]);
    if replace::occurs_at(h, n, j) {
        assert(h.subrange(j, j + 3) == n);
        assert(h[j] == h.subrange(j, j + 3)[0]);
        if j == p {
            assert(text::utf8(rest).subrange(0, 3) =~= h.subrange(j, j + 3));
            lemma_starts_with_metaspace(rest);
        }
    }
    if j > p {
        assert(seq![s[k]].drop_first() =~= Seq::<char>::empty());
        assert(text::utf8(seq![s[k]].drop_first()) =~= Seq::<u8>::empty());
        assert(cb =~= vstd::utf8::encode_scalar(s[k] as u32));
        if h[p] >= 0x80 {
            assert(vstd::utf8::is_continuation_byte(h[j]));
        }
    }
}


// ---- runs of spaces ----

/// A text without spaces stays as it is.
pub proof fn law_no_space_runs(s: Seq<char>, i: int, blank: bool)
    requires
        0 <= i <= s.len(),
        forall|k: int| i <= k < s.len() ==> s[k] != ' ',
    ensures
        normalizer::space_runs_from(s, i, blank) == s.subrange(i, s.len() as int),
    decreases s.len() - i,
{
    if i < s.len() {
        law_no_space_runs(s, i + 1, false);
        assert(normalizer::space_runs_from(s, i, blank) =~= s.subrange(i, s.len() as int));
    } else {
        assert(s.subrange(i, s.len() as int) =~= Seq::empty());
    }
}

proof fn lemma_runs_suffix(a: Seq<char>, b: Seq<char>, i: int, blank: bool)
    requires
        0 <= i <= b.len(),
    ensures
        normalizer::space_runs_from(a + b, a.len() + i, blank) == normalizer::space_runs_from(
            b,
            i,
            blank,
        ),
    decreases b.len() - i,
{
    if i < b.len() {
        assert((a + b)[a.len() + i] == b[i]);
        lemma_runs_suffix(a, b, i + 1, false);
        lemma_runs_suffix(a, b, i + 1, true);
    }
}

proof fn lemma_runs_front(a: Seq<char>, b: Seq<char>, i: int)
    requires
        0 <= i <= a.len(),
        forall|k: int| i <= k < a.len() ==> a[k] != ' ',
        i < a.len(),
    ensures
        normalizer::space_runs_from(a + b, i, false) == a.subrange(i, a.len() as int)
            + normalizer::space_runs_from(b, 0, false),
    decreases a.len() - i,
{
    let t = a + b;
    assert(t[i] == a[i]);
    if i + 1 < a.len() {
        lemma_runs_front(a, b, i + 1);
    } else {
        lemma_runs_suffix(a, b, 0, false);
        assert(a.subrange(i, a.len() as int) =~= seq![a[i]]);
    }
    assert(normalizer::space_runs_from(t, i, false) =~= a.subrange(i, a.len() as int)
        + normalizer::space_runs_from(b, 0, false));
}

proof fn lemma_run_goes(n: nat, y: Seq<char>, i: int)
    requires
        0 < i <= n,
        y.len() == 0 || y[0] != ' ',
    ensures
        normalizer::space_runs_from(Seq::new(n, |k: int| ' ') + y, i, true)
            == normalizer::space_runs_from(y, 0, false),
    decreases n - i,
{
    let r = Seq::new(n, |k: int| ' ');
    let t = r + y;
    if i < n {
        assert(t[i] == ' ');
        lemma_run_goes(n, y, i + 1);
    } else {
        lemma_runs_suffix(r, y, 0, true);
    }
}

/// A run of spaces, however long, is one visible space between the words on
/// its two sides.
pub proof fn law_space_runs_are_one(w: Seq<char>, n: nat, y: Seq<char>)
    requires
        n > 0,
        forall|k: int| 0 <= k < w.len() ==> w[k] != ' ',
        y.len() == 0 || y[0] != ' ',
    ensures
        normalizer::space_runs_from(w + Seq::new(n, |k: int| ' ') + y, 0, false) == w + seq![
            '\u{2581}',
        ] + normalizer::space_runs_from(y, 0, false),
{
    let r = Seq::new(n, |k: int| ' ');
    let t = r + y;
    assert(w + r + y =~= w + t);
    assert(t[0] == ' ');
    lemma_run_goes(n, y, 1);
    let rest = normalizer::space_runs_from(y, 0, false);
    assert(normalizer::space_runs_from(t, 0, false) =~= seq!['\u{2581}'] + rest);
    if w.len() > 0 {
        lemma_runs_front(w, t, 0);
        assert(w.subrange(0, w.len() as int) =~= w);
    } else {
        assert(w + t =~= t);
    }
    assert(normalizer::space_runs_from(w + r + y, 0, false) =~= w + seq!['\u{2581}'] + rest);
}

proof fn lemma_runs_have_no_space(s: Seq<char>, i: int, blank: bool)
    requires
        0 <= i,
    ensures
        forall|k: int|
            0 <= k < normalizer::space_runs_from(s, i, blank).len()
                ==> #[trigger] normalizer::space_runs_from(s, i, blank)[k] != ' ',
    decreases s.len() - i,
{
    if i < s.len() {
        lemma_runs_have_no_space(s, i + 1, false);
        lemma_runs_have_no_space(s, i + 1, true);
        let r = normalizer::space_runs_from(s, i, blank);
        let kept = normalizer::space_runs_from(s, i + 1, false);
        let run = normalizer::space_runs_from(s, i + 1, true);
        assert forall|k: int| 0 <= k < r.len() implies #[trigger] r[k] != ' ' by {
            if s[i] != ' ' {
                assert(r == seq![s[i]] + kept);
                if k > 0 {
                    assert(r[k] == kept[k - 1]);
                }
            } else if !blank {
                assert(r == seq!['\u{2581}'] + run);
                if k > 0 {
                    assert(r[k] == run[k - 1]);
                }
            } else {
                assert(r[k] == run[k]);
            }
        }
    }
}

/// What a charsmap makes of a text.
pub open spec fn mapped(
    charsmap: std::sync::Arc<crate::charsmap::PrecompiledCharsmap>,
    s: Seq<char>,
) -> Seq<char> {
    normalizer::charsmapped(*charsmap, s)
}

/// With a charsmap too a text starts with a visible space and has no other
/// space in it. Words are set apart by single visible spaces where they are
/// split at whitespace; else each run of spaces is one visible space.
pub proof fn law_precompiled_form(
    charsmap: std::sync::Arc<crate::charsmap::PrecompiledCharsmap>,
    s: Seq<char>,
    first: bool,
)
    requires
        s.len() > 0,
    ensures
        ({
            let t = mapped(charsmap, s);
            let whole = Normalizer::SentencePiecePrecompiled {
                charsmap,
                whitespace_split: false,
            }.segment_form(s, first);
            let split = Normalizer::SentencePiecePrecompiled {
                charsmap,
                whitespace_split: true,
            }.segment_form(s, first);
            &&& whole.len() > 0 && whole[0] == '\u{2581}'
            &&& forall|k: int| 0 <= k < whole.len() ==> #[trigger] whole[k] != ' '
            &&& t.len() > 0 && t[0] != ' ' && t[0] != '\u{2581}' ==> whole == seq!['\u{2581}']
                + normalizer::space_runs_from(t, 0, false)
            &&& t.len() > 0 && (t[0] == ' ' || t[0] == '\u{2581}') ==> whole
                == normalizer::space_runs_from(t, 0, false)
            &&& split == seq!['\u{2581}'] + normalizer::metaspaced(normalizer::collapsed(false, t))
        }),
{
    let t = mapped(charsmap, s);
    lemma_runs_have_no_space(t, 0, false);
    if t.len() > 0 && t[0] == ' ' {
        assert(normalizer::space_runs_from(t, 0, false)[0] == '\u{2581}');
    }
    if t.len() > 0 && t[0] == '\u{2581}' {
        assert(normalizer::space_runs_from(t, 0, false)[0] == '\u{2581}');
    }
}

// ---- lower case ----

/// SentencePiece's lower-case form: a visible space, then the words of the
/// decomposed text, without accents and controls, each character in lower
/// case. The empty text stays empty.
pub proof fn law_sentencepiece_lowercase_form(s: Seq<char>)
    ensures
        s.len() == 0 ==> Normalizer::SentencePieceLowercase.normal_form(s).len() == 0,
        s.len() > 0 ==> Normalizer::SentencePieceLowercase.normal_form(s) == seq!['\u{2581}']
            + normalizer::lowercase_metaspaced(
            normalizer::collapsed(false, normalizer::stripped(normalizer::nfkd_form(s))),
        ),
{
}

/// Stripping goes character by character: accents and what has no visible form
/// go, tabs and newlines and all visible characters stay.
pub proof fn law_stripping(a: Seq<char>, b: Seq<char>, c: char)
    ensures
        normalizer::stripped(a + b) == normalizer::stripped(a) + normalizer::stripped(b),
        0x300 <= c as u32 <= 0x36f ==> normalizer::stripped(seq![c]).len() == 0,
        c as u32 > 0x36f && util::general_category(c) == seq!['M', 'n'] ==> normalizer::stripped(
            seq![c],
        ).len() == 0,
        0x20 <= c as u32 <= 0x7e || c == '\t' || c == '\n' || c == '\r' ==> normalizer::stripped(
            seq![c],
        ) == seq![c],
        (c as u32) < 0x20 && c != '\t' && c != '\n' && c != '\r' ==> normalizer::stripped(
            seq![c],
        ).len() == 0,
    decreases b.len(),
{
    assert(seq![c].drop_last() =~= Seq::<char>::empty());
    assert(normalizer::stripped(Seq::<char>::empty()) =~= Seq::<char>::empty());
    reveal_with_fuel(normalizer::stripped, 2);
    if 0x20 <= c as u32 <= 0x7e || c == '\t' || c == '\n' || c == '\r' {
        assert(normalizer::stripped(seq![c]) =~= seq![c]);
    }
    if b.len() == 0 {
        assert(a + b =~= a);
        assert(normalizer::stripped(a) + normalizer::stripped(b) =~= normalizer::stripped(a));
    } else {
        law_stripping(a, b.drop_last(), c);
        assert((a + b).drop_last() =~= a + b.drop_last());
        assert((a + b).last() == b.last());
        assert(normalizer::stripped(a + b) =~= normalizer::stripped(a) + normalizer::stripped(b));
    }
}

/// Lowering goes character by character: a space becomes a visible space,
/// every other character its lower case.
pub proof fn law_lowering(a: Seq<char>, b: Seq<char>, c: char)
    ensures
        normalizer::lowercase_metaspaced(a + b) == normalizer::lowercase_metaspaced(a)
            + normalizer::lowercase_metaspaced(b),
        normalizer::lowercase_metaspaced(seq![' ']) == seq!['\u{2581}'],
        c != ' ' ==> normalizer::lowercase_metaspaced(seq![c]) == normalizer::char_lowercase(c),
    decreases b.len(),
{
    assert(seq![c].drop_last() =~= Seq::<char>::empty());
    assert(seq![' '].drop_last() =~= Seq::<char>::empty());
    assert(normalizer::lowercase_metaspaced(Seq::<char>::empty()) =~= Seq::<char>::empty());
    reveal_with_fuel(normalizer::lowercase_metaspaced, 2);
    assert(normalizer::lowercase_metaspaced(seq![' ']) =~= seq!['\u{2581}']);
    assert(c != ' ' ==> normalizer::lowercase_metaspaced(seq![c]) =~= normalizer::char_lowercase(
        c,
    ));
    if b.len() == 0 {
        assert(a + b =~= a);
        assert(normalizer::lowercase_metaspaced(a) + normalizer::lowercase_metaspaced(b)
            =~= normalizer::lowercase_metaspaced(a));
    } else {
        law_lowering(a, b.drop_last(), c);
        assert((a + b).drop_last() =~= a + b.drop_last());
        assert((a + b).last() == b.last());
        assert(normalizer::lowercase_metaspaced(a + b) =~= normalizer::lowercase_metaspaced(a)
            + normalizer::lowercase_metaspaced(b));
    }
}

} // verus!
