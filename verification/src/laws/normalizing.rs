//! What normalizing is for: words stay apart, what has no visible form goes,
//! whitespace is a space, and letters lose their case and their accents.
//!
//! Characters are named here by their code points and their general category.
use crate::normalizer;
use crate::normalizer::Normalizer;
use crate::pretokie::util;
use vstd::prelude::*;

verus! {

// ---- cleaning ----

/// What is made of two texts, one behind the other, is what is made of each.
pub proof fn law_cleaning_is_piecewise(a: Seq<char>, b: Seq<char>)
    ensures
        normalizer::cleaned(a + b) == normalizer::cleaned(a) + normalizer::cleaned(b),
    decreases b.len(),
{
    if b.len() == 0 {
        assert(a + b =~= a);
        assert(normalizer::cleaned(a) + normalizer::cleaned(b) =~= normalizer::cleaned(a));
    } else {
        law_cleaning_is_piecewise(a, b.drop_last());
        assert((a + b).drop_last() =~= a + b.drop_last());
        assert((a + b).last() == b.last());
        assert(normalizer::cleaned(a + b) =~= normalizer::cleaned(a) + normalizer::cleaned(b));
    }
}

proof fn lemma_one_cleaned(c: char)
    ensures
        normalizer::cleaned(seq![c]) == normalizer::cleaned_char(c),
{
    assert(seq![c].drop_last() =~= Seq::<char>::empty());
    assert(normalizer::cleaned(seq![c].drop_last()) =~= Seq::<char>::empty());
    assert(normalizer::cleaned(seq![c]) =~= normalizer::cleaned_char(c));
}

/// Space, tab, newline and carriage return become a space each, visible ASCII
/// characters stay, other ASCII characters go.
pub proof fn law_cleaning_of_ascii(c: char)
    requires
        (c as u32) < 0x80,
    ensures
        normalizer::cleaned(seq![c]) == if c as u32 == 0x20 || c as u32 == 0x09 || c as u32 == 0x0a
            || c as u32 == 0x0d {
            seq![' ']
        } else if 0x21 <= c as u32 <= 0x7e {
            seq![c]
        } else {
            seq![]
        },
{
    lemma_one_cleaned(c);
}

/// The general category of a character beyond ASCII says what cleaning makes
/// of it: space separators become spaces; control, format, unassigned and
/// private use characters go, and so does the replacement character; all
/// others stay.
pub proof fn law_cleaning_by_category(c: char)
    requires
        c as u32 >= 0x80,
    ensures
        ({
            let g = util::general_category(c);
            let r = normalizer::cleaned(seq![c]);
            if c as u32 == 0xfffd || g == seq!['C', 'c'] || g == seq!['C', 'f'] || g == seq![
                'C',
                'n',
            ] || g == seq!['C', 'o'] {
                r == Seq::<char>::empty()
            } else if g == seq!['Z', 's'] {
                r == seq![' ']
            } else {
                r == seq![c]
            }
        }),
{
    lemma_one_cleaned(c);
}

/// Words that whitespace parts stay apart.
pub proof fn law_cleaning_keeps_words_apart(x: Seq<char>, w: char, y: Seq<char>)
    requires
        w as u32 == 0x20 || w as u32 == 0x09 || w as u32 == 0x0a || w as u32 == 0x0d || (w as u32
            >= 0x80 && w as u32 != 0xfffd && util::general_category(w) == seq!['Z', 's']),
    ensures
        normalizer::cleaned(x + seq![w] + y) == normalizer::cleaned(x) + seq![' ']
            + normalizer::cleaned(y),
{
    law_cleaning_is_piecewise(x, seq![w]);
    law_cleaning_is_piecewise(x + seq![w], y);
    if (w as u32) < 0x80 {
        law_cleaning_of_ascii(w);
    } else {
        assert(seq!['Z', 's'][0] != seq!['C', 'c'][0]);
        assert(seq!['Z', 's'][0] != seq!['C', 'f'][0]);
        assert(seq!['Z', 's'][0] != seq!['C', 'n'][0]);
        assert(seq!['Z', 's'][0] != seq!['C', 'o'][0]);
        law_cleaning_by_category(w);
    }
}

/// A text of visible ASCII characters and spaces is left alone.
pub proof fn law_visible_text_is_clean(s: Seq<char>)
    requires
        forall|i: int| 0 <= i < s.len() ==> 0x20 <= (#[trigger] s[i]) as u32 <= 0x7e,
    ensures
        normalizer::cleaned(s) == s,
    decreases s.len(),
{
    if s.len() > 0 {
        let d = s.drop_last();
        assert forall|i: int| 0 <= i < d.len() implies 0x20 <= (#[trigger] d[i]) as u32 <= 0x7e by {
            assert(d[i] == s[i]);
        }
        law_visible_text_is_clean(d);
        assert(0x20 <= s[s.len() - 1] as u32 <= 0x7e);
        lemma_one_cleaned(s.last());
        law_cleaning_of_ascii(s.last());
        assert(normalizer::cleaned(s) =~= s);
    } else {
        assert(normalizer::cleaned(s) =~= s);
    }
}

/// What cleaning leaves has a visible form or is a space.
pub proof fn law_cleaned_is_visible(s: Seq<char>, i: int)
    requires
        0 <= i < normalizer::cleaned(s).len(),
    ensures
        ({
            let c = normalizer::cleaned(s)[i];
            let g = util::general_category(c);
            &&& (c as u32) < 0x80 ==> 0x20 <= c as u32 <= 0x7e
            &&& c as u32 != 0xfffd
            &&& c as u32 >= 0x80 ==> g != seq!['C', 'c'] && g != seq!['C', 'f'] && g != seq![
                'C',
                'n',
            ] && g != seq!['C', 'o'] && g != seq!['Z', 's']
        }),
    decreases s.len(),
{
    let d = s.drop_last();
    let before = normalizer::cleaned(d);
    if i < before.len() {
        assert(normalizer::cleaned(s)[i] == before[i]);
        law_cleaned_is_visible(d, i);
    } else {
        let c = s.last();
        lemma_one_cleaned(c);
        assert(normalizer::cleaned(s)[i] == normalizer::cleaned_char(c)[i - before.len()]);
        if (c as u32) < 0x80 {
            law_cleaning_of_ascii(c);
        } else {
            law_cleaning_by_category(c);
        }
    }
}

// ---- lower case, without accents ----

/// What is made of two decomposed texts, one behind the other, is what is
/// made of each.
pub proof fn law_uncasing_is_piecewise(a: Seq<char>, b: Seq<char>)
    ensures
        normalizer::uncased(a + b) == normalizer::uncased(a) + normalizer::uncased(b),
    decreases b.len(),
{
    if b.len() == 0 {
        assert(a + b =~= a);
        assert(normalizer::uncased(a) + normalizer::uncased(b) =~= normalizer::uncased(a));
    } else {
        law_uncasing_is_piecewise(a, b.drop_last());
        assert((a + b).drop_last() =~= a + b.drop_last());
        assert((a + b).last() == b.last());
        assert(normalizer::uncased(a + b) =~= normalizer::uncased(a) + normalizer::uncased(b));
    }
}

proof fn lemma_one_uncased(c: char)
    ensures
        normalizer::uncased(seq![c]) == normalizer::uncased_char(c),
{
    assert(seq![c].drop_last() =~= Seq::<char>::empty());
    assert(normalizer::uncased(seq![c].drop_last()) =~= Seq::<char>::empty());
    assert(normalizer::uncased(seq![c]) =~= normalizer::uncased_char(c));
}

/// The capitals of ASCII become small letters, whitespace becomes a space,
/// other visible characters stay, and controls go.
pub proof fn law_uncasing_of_ascii(c: char)
    requires
        (c as u32) < 0x80,
    ensures
        normalizer::uncased(seq![c]) == if c as u32 == 0x20 || c as u32 == 0x09 || c as u32 == 0x0a
            || c as u32 == 0x0d {
            seq![' ']
        } else if 0x41 <= c as u32 <= 0x5a {
            seq![(c as u32 + 32) as char]
        } else if 0x21 <= c as u32 <= 0x7e {
            seq![c]
        } else {
            seq![]
        },
{
    lemma_one_uncased(c);
    lemma_capital(c);
}

/// The capitals are the characters from U+0041 to U+005A.
proof fn lemma_capital(c: char)
    ensures
        normalizer::ascii_lowercase(c) == if 0x41 <= c as u32 <= 0x5a {
            (c as u32 + 32) as char
        } else {
            c
        },
{
}

/// An ASCII text is uncased character by character, and holds no capital
/// afterwards.
pub proof fn law_uncased_has_no_capitals(s: Seq<char>, i: int)
    requires
        vstd::utf8::is_ascii_chars(s),
        0 <= i < normalizer::bert_uncased(s).len(),
    ensures
        0x20 <= normalizer::bert_uncased(s)[i] as u32 <= 0x7e,
        !(0x41 <= normalizer::bert_uncased(s)[i] as u32 <= 0x5a),
    decreases s.len(),
{
    let d = s.drop_last();
    assert(vstd::utf8::is_ascii_chars(d)) by {
        assert forall|j: int| 0 <= j < d.len() implies (d[j] as u32) < 0x80 by {
            assert(d[j] == s[j]);
        }
    }
    let before = normalizer::uncased(d);
    if i < before.len() {
        assert(normalizer::uncased(s)[i] == before[i]);
        law_uncased_has_no_capitals(d, i);
    } else {
        let c = s.last();
        assert(c == s[s.len() - 1]);
        lemma_one_uncased(c);
        law_uncasing_of_ascii(c);
        assert(normalizer::uncased(s)[i] == normalizer::uncased_char(c)[i - before.len()]);
    }
}

/// Words that whitespace parts stay apart.
pub proof fn law_uncasing_keeps_words_apart(x: Seq<char>, w: char, y: Seq<char>)
    requires
        w as u32 == 0x20 || w as u32 == 0x09 || w as u32 == 0x0a || w as u32 == 0x0d,
    ensures
        normalizer::uncased(x + seq![w] + y) == normalizer::uncased(x) + seq![' ']
            + normalizer::uncased(y),
        vstd::utf8::is_ascii_chars(x) && vstd::utf8::is_ascii_chars(y) ==> normalizer::bert_uncased(
            x + seq![w] + y,
        ) == normalizer::bert_uncased(x) + seq![' '] + normalizer::bert_uncased(y),
{
    law_uncasing_is_piecewise(x, seq![w]);
    law_uncasing_is_piecewise(x + seq![w], y);
    law_uncasing_of_ascii(w);
    if vstd::utf8::is_ascii_chars(x) && vstd::utf8::is_ascii_chars(y) {
        let all = x + seq![w] + y;
        assert forall|j: int| 0 <= j < all.len() implies (all[j] as u32) < 0x80 by {
            if j < x.len() {
                assert(all[j] == x[j]);
            } else if j > x.len() {
                assert(all[j] == y[j - x.len() - 1]);
            }
        }
    }
}

/// A nonspacing mark: one of U+0300 to U+036F, or a later character of that
/// category.
pub open spec fn is_accent(c: char) -> bool {
    0x300 <= c as u32 <= 0x36f || (c as u32 > 0x36f && util::general_category(c) == seq!['M', 'n'])
}

/// Without its accents a text is its decomposition without the accents in it;
/// an ASCII text has none.
pub proof fn law_accents_go(s: Seq<char>)
    ensures
        vstd::utf8::is_ascii_chars(s) ==> normalizer::unaccented(s) == s,
        !vstd::utf8::is_ascii_chars(s) ==> normalizer::unaccented(s) == normalizer::nfd_form(
            s,
        ).filter(|c: char| !is_accent(c)),
{
    lemma_without_accents(normalizer::nfd_form(s));
}

proof fn lemma_without_accents(s: Seq<char>)
    ensures
        normalizer::without_marks(s) == s.filter(|c: char| !is_accent(c)),
    decreases s.len(),
{
    reveal(Seq::filter);
    if s.len() > 0 {
        lemma_without_accents(s.drop_last());
    }
}

/// A text in lower case: ASCII capitals as small letters, characters beyond
/// ASCII by their own lowercase.
pub open spec fn lowered(s: Seq<char>) -> Seq<char>
    decreases s.len(),
{
    if s.len() == 0 {
        seq![]
    } else {
        let c = s.last();
        lowered(s.drop_last()) + if 0x41 <= c as u32 <= 0x5a {
            seq![(c as u32 + 32) as char]
        } else if (c as u32) < 0x80 {
            seq![c]
        } else {
            normalizer::char_lowercase(c)
        }
    }
}

/// BERT's uncased form is the text without accents, cleaned, in lower case:
/// one pass does what the three steps do.
pub proof fn law_uncased_is_three_steps(s: Seq<char>)
    ensures
        normalizer::bert_uncased(s) == lowered(normalizer::cleaned(normalizer::unaccented(s))),
{
    if vstd::utf8::is_ascii_chars(s) {
        assert forall|i: int| 0 <= i < s.len() implies !normalizer::combining_mark(
            #[trigger] s[i],
        ) by {
            assert((s[i] as u32) < 0x80);
        }
        lemma_no_marks(s);
        lemma_three_steps(s);
    } else {
        lemma_three_steps(normalizer::nfd_form(s));
    }
}

proof fn lemma_no_marks(s: Seq<char>)
    requires
        forall|i: int| 0 <= i < s.len() ==> !normalizer::combining_mark(#[trigger] s[i]),
    ensures
        normalizer::without_marks(s) == s,
    decreases s.len(),
{
    if s.len() > 0 {
        let d = s.drop_last();
        assert forall|i: int| 0 <= i < d.len() implies !normalizer::combining_mark(
            #[trigger] d[i],
        ) by {
            assert(d[i] == s[i]);
        }
        lemma_no_marks(d);
        assert(!normalizer::combining_mark(s[s.len() - 1]));
        assert(d.push(s.last()) =~= s);
    } else {
        assert(normalizer::without_marks(s) =~= s);
    }
}

proof fn lemma_lowered_concat(a: Seq<char>, b: Seq<char>)
    ensures
        lowered(a + b) == lowered(a) + lowered(b),
    decreases b.len(),
{
    if b.len() == 0 {
        assert(a + b =~= a);
        assert(lowered(a) + lowered(b) =~= lowered(a));
    } else {
        lemma_lowered_concat(a, b.drop_last());
        assert((a + b).drop_last() =~= a + b.drop_last());
        assert((a + b).last() == b.last());
        assert(lowered(a + b) =~= lowered(a) + lowered(b));
    }
}

proof fn lemma_lowered_one(c: char)
    ensures
        lowered(seq![c]) == if 0x41 <= c as u32 <= 0x5a {
            seq![(c as u32 + 32) as char]
        } else if (c as u32) < 0x80 {
            seq![c]
        } else {
            normalizer::char_lowercase(c)
        },
{
    assert(seq![c].drop_last() =~= Seq::<char>::empty());
    assert(lowered(seq![c].drop_last()) =~= Seq::<char>::empty());
    let last = if 0x41 <= c as u32 <= 0x5a {
        seq![(c as u32 + 32) as char]
    } else if (c as u32) < 0x80 {
        seq![c]
    } else {
        normalizer::char_lowercase(c)
    };
    assert(Seq::<char>::empty() + last =~= last);
}

proof fn lemma_three_steps(d: Seq<char>)
    ensures
        normalizer::uncased(d) == lowered(normalizer::cleaned(normalizer::without_marks(d))),
    decreases d.len(),
{
    if d.len() > 0 {
        let front = d.drop_last();
        let c = d.last();
        lemma_three_steps(front);
        let less = normalizer::without_marks(front);
        if !normalizer::combining_mark(c) {
            assert(less.push(c).drop_last() =~= less);
            lemma_lowered_concat(normalizer::cleaned(less), normalizer::cleaned_char(c));
            lemma_lowered_one(c);
            lemma_lowered_one(' ');
            lemma_one_cleaned(c);
            if normalizer::removed(c) {
                assert(lowered(normalizer::cleaned_char(c)) =~= seq![]);
            }
            lemma_capital(c);
            assert(lowered(normalizer::cleaned_char(c)) == normalizer::uncased_char(c));
        } else {
            assert(normalizer::uncased(front) + normalizer::uncased_char(c) =~= normalizer::uncased(
                front,
            ));
        }
    }
}


// ---- the normalizers ----

/// Which form each normalizer gives: none, the cleaned text, the uncased text,
/// NFC.
pub proof fn law_normalizers_by_name(s: Seq<char>, first: bool)
    ensures
        Normalizer::Absent.segment_form(s, first) == s,
        Normalizer::BertCased.segment_form(s, first) == normalizer::cleaned(s),
        Normalizer::BertUncased.segment_form(s, first) == normalizer::bert_uncased(s),
        Normalizer::Nfc.segment_form(s, first) == normalizer::nfc_form(s),
{
}

} // verus!
